use copstr::Error;
use copstr::ErrorOverflow;
use copstr::Str;

use std::convert::TryFrom;
use std::hash::Hash;
use std::hash::Hasher;

type Str5 = Str<5>;

fn hash_of(s: &Str5) -> u64 {
    let mut h = std::collections::hash_map::DefaultHasher::new();
    s.hash(&mut h);
    h.finish()
}

#[test]
fn test_scenario_capacity_five() {
    let mut b = Str5::new("yes").unwrap();
    assert_eq!(b.byte_len(), 3);
    assert_eq!(b.as_str(), "yes");
    b.replace("no").unwrap();
    assert_eq!(b.as_str(), "no");
    b.push('w').unwrap();
    assert_eq!(b.as_str(), "now");
    // five bytes succeed exactly at capacity
    b.replace("basic").unwrap();
    assert_eq!(b.byte_len(), 5);
    // one more byte fails and leaves the content intact
    assert_eq!(b.push('s').unwrap_err(), ErrorOverflow);
    assert_eq!(b.as_str(), "basic");
}

#[test]
fn test_trunc_ascii_example() {
    let b = Str5::new_trunc("strings");
    assert_eq!(b.as_str(), "strin");
    assert_eq!(b.byte_len(), 5);
}

#[test]
fn test_trunc_multibyte_example() {
    // the four-byte character does not fit in the remaining two bytes,
    // so it is dropped whole, never split
    let b = Str5::new_trunc("bas\u{1F496}");
    assert_eq!(b.as_str(), "bas");
    assert_eq!(b.byte_len(), 3);
}

#[test]
fn test_trunc_exact_fit() {
    let b = Str5::new_trunc("basic");
    assert_eq!(b.as_str(), "basic");
    let c = Str5::new_trunc("bas");
    assert_eq!(c.as_str(), "bas");
}

#[test]
fn test_push_multibyte_exact_fit() {
    let mut b = Str5::new("b").unwrap();
    b.push('\u{1F496}').unwrap();
    assert_eq!(b.byte_len(), 5);
    assert_eq!(b.as_str(), "b\u{1F496}");
}

#[test]
fn test_push_multibyte_overflow_atomic() {
    let mut b = Str5::new("bas").unwrap();
    let before = b;
    assert_eq!(b.push('\u{1F496}').unwrap_err(), ErrorOverflow);
    assert_eq!(b, before);
    assert_eq!(b.as_str(), "bas");
    assert_eq!(b.byte_len(), 3);
}

#[test]
fn test_empty_buffer() {
    let b = Str5::empty();
    assert_eq!(b.byte_len(), 0);
    assert_eq!(b.as_str(), "");
    assert_eq!(b.capacity(), 5);
    let z = Str::<0>::empty();
    assert_eq!(z.capacity(), 0);
    assert_eq!(z.byte_len(), 0);
    assert_eq!(z.as_str(), "");
}

#[test]
fn test_zero_capacity_rejects_and_truncates() {
    assert!(Str::<0>::new("a").is_err());
    assert_eq!(Str::<0>::new_trunc("a").as_str(), "");
}

#[test]
fn test_eq_ignores_history() {
    // the same content reached over different paths compares equal and
    // hashes identically
    let a = Str5::new("ab").unwrap();
    let mut b = Str5::new("basic").unwrap();
    b.replace("ab").unwrap();
    assert_eq!(a, b);
    assert_eq!(hash_of(&a), hash_of(&b));
    let c = Str5::new("ac").unwrap();
    assert_ne!(a, c);
}

#[test]
fn test_invalid_bytes_position() {
    // the byte at index 1 opens an ill-formed sequence, so the reported
    // well-formed prefix ends there
    let result = Str5::try_from(&[0x00u8, 0x9F, 0x92, 0x96] as &[u8]);
    assert_eq!(result.unwrap_err(), Error::Utf8(1));
    let result = Str5::try_from(&[0xFFu8] as &[u8]);
    assert_eq!(result.unwrap_err(), Error::Utf8(0));
}

#[test]
fn test_invalid_bytes_never_overflow() {
    // longer than the capacity and ill-formed: validity is judged first
    let bytes: Vec<u8> = vec![0x61, 0x62, 0x63, 0x64, 0x65, 0x66, 0xFF];
    let result = Str5::try_from(bytes.as_slice());
    assert!(matches!(result, Err(Error::Utf8(_))));
}

#[test]
fn test_valid_bytes_roundtrip() {
    let b = Str5::try_from("ab\u{00E9}".as_bytes()).unwrap();
    assert_eq!(b.as_str(), "ab\u{00E9}");
    assert_eq!(b.byte_len(), 4);
}

#[test]
fn test_error_conversion() {
    let e = Error::from(ErrorOverflow);
    assert_eq!(e, Error::Overflow(ErrorOverflow));
}

#[test]
fn test_from_str_parse() {
    let b: Str5 = "now".parse().unwrap();
    assert_eq!(b.as_str(), "now");
    assert!("string".parse::<Str5>().is_err());
}

#[test]
fn test_from_chars_multibyte() {
    let chars: Vec<char> = "ab\u{1F496}cd".chars().collect();
    // the four-byte character would end at byte six: it and everything
    // after it is dropped
    let b = Str5::from_chars(&chars);
    assert_eq!(b.as_str(), "ab");
}

#[test]
fn test_new_const_trunc_u8_boundary() {
    let b = Str5::new_const_trunc_u8("bas\u{1F496}".as_bytes());
    assert_eq!(b.as_str(), "bas");
    let c = Str5::new_const_trunc("str\u{00E9}s");
    assert_eq!(c.as_str(), "str\u{00E9}");
}

#[test]
fn test_replace_trunc_resets() {
    let mut b = Str5::new("basic").unwrap();
    b.replace_trunc("\u{1F496}\u{1F496}");
    assert_eq!(b.as_str(), "\u{1F496}");
    assert_eq!(b.byte_len(), 4);
}
