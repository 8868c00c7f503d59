use copstr;

use std::convert::TryFrom;
use std::str;

type Str = copstr::Str<5>;

/* Basic tests */

fn assert_str(copstr: &Str, s: &str) {
    assert_eq!(copstr.byte_len(), s.as_bytes().len());
    assert_eq!(copstr.as_str(), s);
    assert_eq!(copstr.as_bytes(), s.as_bytes());
    assert_eq!(copstr.as_str().to_string(), s.to_string());
    assert_eq!(copstr, &Str::try_from(s).unwrap());
    assert_eq!(copstr, &Str::new(s).unwrap());
    assert_eq!(format!("{}", copstr.as_str()), s);
}

#[test]
fn test_basic() {
    let mut basic = Str::new("basic").unwrap();
    assert_eq!(basic.capacity(), 5);
    assert_str(&basic, "basic");
    basic.replace("basic").unwrap();
    assert_str(&basic, "basic");
    // Test copy:
    let basic2 = basic;
    assert_str(&basic2, "basic");
    // Test clone:
    let basic3 = basic.clone();
    assert_str(&basic3, "basic");
}

#[test]
fn test_empty() {
    assert_eq!(Str::empty(), Str::default());
}

#[test]
fn test_new_trunc() {
    assert_str(&Str::new_trunc("bas\u{1F496}"), "bas");
}

#[test]
fn test_push() {
    let mut no = Str::new("no").unwrap();
    no.push('w').unwrap();
    assert_str(&no, "now");
}

#[test]
fn test_push_err() {
    let mut basic = Str::new("basic").unwrap();
    let result = basic.push('s');
    assert!(result.is_err());
    println!("{:?}", result.clone().unwrap_err());
    assert_eq!(result.unwrap_err(), copstr::ErrorOverflow);
    assert_str(&basic, "basic");
}

#[test]
fn test_tryfrom_err() {
    assert_eq!(
        Str::try_from("string").unwrap_err(),
        copstr::ErrorOverflow::default()
    );
    assert_eq!(
        Str::try_from("length".as_bytes()).unwrap_err(),
        copstr::Error::Overflow(copstr::ErrorOverflow)
    );
}

#[test]
fn test_replace() {
    let mut no = Str::new("yes").unwrap();
    no.replace("no").unwrap();
    assert_str(&no, "no");
}

#[test]
fn test_replace_err() {
    let mut basic = Str::new("basic").unwrap();
    let result = basic.replace("string");
    assert_eq!(result.unwrap_err(), copstr::ErrorOverflow);
    assert_str(&basic, "basic");
}

#[test]
fn test_replace_trunc() {
    let mut basic = Str::new("basic").unwrap();
    basic.replace_trunc("string");
    assert_str(&basic, "strin");
    basic.replace_trunc("bas");
    assert_str(&basic, "bas");
}

const SPARKLE_HEART: [u8; 4] = [240, 159, 146, 150];
const INVALID_UTF8: [u8; 4] = [0, 159, 146, 150];

#[test]
fn test_utf8_tryfrom() {
    assert!(Str::try_from(&SPARKLE_HEART as &[u8]).is_ok());
}

#[test]
fn test_utf8_push() {
    let mut space = Str::new(" ").unwrap();
    let s = str::from_utf8(&SPARKLE_HEART).unwrap();
    space.push(s.chars().nth(0).unwrap()).unwrap();
    assert_str(&space, " \u{1F496}");
}

#[test]
fn test_utf8_replace() {
    let mut space = Str::new(" ").unwrap();
    let s = str::from_utf8(&SPARKLE_HEART).unwrap();
    space.replace(s).unwrap();
    assert_str(&space, "\u{1F496}");
}

#[test]
fn test_utf8_overflow_tryfrom() {
    let result = Str::try_from("basics".as_bytes());
    println!("{:?}", result.clone().unwrap_err());
    assert!(matches!(result, Err(copstr::Error::Overflow(_))));
}

#[test]
fn test_utf8_invalid_tryfrom() {
    let result = Str::try_from(&INVALID_UTF8 as &[u8]);
    println!("{:?}", result.clone().unwrap_err());
    assert!(matches!(result, Err(copstr::Error::Utf8(_))));
}

#[test]
fn test_utf8_invalid_replace() {
    let mut basic = Str::new("basic").unwrap();
    let s = format!("ch{}", str::from_utf8(&SPARKLE_HEART).unwrap());
    assert_eq!(basic.replace(&s).unwrap_err(), copstr::ErrorOverflow);
    assert_str(&basic, "basic");
}

#[test]
fn test_hash() {
    let mut set = std::collections::HashSet::<Str>::new();
    set.insert(Str::new("basic").unwrap());
    assert_eq!(
        set.into_iter().collect::<Vec<_>>(),
        &[Str::new("basic").unwrap()]
    );
}

#[test]
fn test_fromiter() {
    assert_eq!(
        Str::from_chars(&"basic".chars().collect::<Vec<char>>()),
        Str::new("basic").unwrap()
    );
    assert_eq!(
        Str::from_chars(&"strings".chars().collect::<Vec<char>>()),
        Str::new("strin").unwrap()
    );
}

#[test]
fn test_const() {
    let test_u8: Str = Str::new_const_u8(b"test");
    assert_eq!(test_u8.as_str(), "test");
    let test: Str = Str::new_const("test");
    assert_eq!(test.as_str(), "test");
}
