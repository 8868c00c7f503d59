//! Spec-level helpers on top of vstd's UTF-8 theory: the byte length of a
//! character sequence, greedy boundary-safe truncation, and the lemmas that
//! relate them to `encode_utf8`.

use vstd::prelude::*;
use vstd::utf8::*;

verus! {

/// Number of bytes of the UTF-8 encoding of a character sequence.
pub open spec fn byte_length(s: Seq<char>) -> nat {
    encode_utf8(s).len()
}

/// The longest prefix of `s` (in whole characters) whose UTF-8 encoding
/// fits in `cap` bytes: characters are taken from the left and the scan
/// stops at the first character whose encoding does not fit in the
/// remaining capacity.
pub open spec fn trunc_prefix(s: Seq<char>, cap: int) -> Seq<char>
    decreases s.len(),
{
    if s.len() == 0 {
        s
    } else if encode_scalar(s[0] as u32).len() <= cap {
        seq![s[0]] + trunc_prefix(s.drop_first(), cap - encode_scalar(s[0] as u32).len())
    } else {
        Seq::empty()
    }
}

/// The UTF-8 encoding of a single character is the encoding of its scalar
/// value.
pub proof fn lemma_encode_utf8_singleton(c: char)
    ensures
        encode_utf8(seq![c]) == encode_scalar(c as u32),
{
    assert(seq![c].drop_first() =~= Seq::<char>::empty());
    assert(encode_utf8(seq![c]) =~= encode_scalar(c as u32) + encode_utf8(Seq::<char>::empty()));
    assert(encode_scalar(c as u32) + Seq::<u8>::empty() =~= encode_scalar(c as u32));
}

/// UTF-8 encoding distributes over concatenation of character sequences.
pub proof fn lemma_encode_utf8_concat(a: Seq<char>, b: Seq<char>)
    ensures
        encode_utf8(a + b) == encode_utf8(a) + encode_utf8(b),
    decreases a.len(),
{
    if a.len() == 0 {
        assert(a + b =~= b);
        assert(encode_utf8(a) + encode_utf8(b) =~= encode_utf8(b));
    } else {
        assert((a + b).drop_first() =~= a.drop_first() + b);
        lemma_encode_utf8_concat(a.drop_first(), b);
        assert(encode_utf8(a + b) =~= encode_scalar(a[0] as u32) + (encode_utf8(a.drop_first())
            + encode_utf8(b)));
        assert(encode_scalar(a[0] as u32) + (encode_utf8(a.drop_first()) + encode_utf8(b)) =~= (
        encode_scalar(a[0] as u32) + encode_utf8(a.drop_first())) + encode_utf8(b));
    }
}

/// Every character needs at least one byte, so a non-empty sequence has a
/// positive byte length.
pub proof fn lemma_byte_length_positive(s: Seq<char>)
    ensures
        s.len() > 0 ==> byte_length(s) >= encode_scalar(s[0] as u32).len(),
        byte_length(s) >= s.len(),
    decreases s.len(),
{
    if s.len() > 0 {
        lemma_byte_length_positive(s.drop_first());
    }
}

/// Adding one more character to a prefix adds exactly that character's
/// encoded length.
pub proof fn lemma_byte_length_take_succ(s: Seq<char>, k: int)
    requires
        0 <= k < s.len(),
    ensures
        byte_length(s.take(k + 1)) == byte_length(s.take(k)) + encode_scalar(
            s[k] as u32,
        ).len(),
{
    assert(s.take(k + 1) =~= s.take(k) + seq![s[k]]);
    lemma_encode_utf8_concat(s.take(k), seq![s[k]]);
    lemma_encode_utf8_singleton(s[k]);
}

/// What `trunc_prefix` returns: a prefix of `s` whose encoding fits in
/// `cap` bytes, and the longest such prefix — any longer prefix of `s`
/// overflows `cap`.
pub proof fn lemma_trunc_prefix_longest(s: Seq<char>, cap: int)
    ensures
        trunc_prefix(s, cap).len() <= s.len(),
        trunc_prefix(s, cap) == s.take(trunc_prefix(s, cap).len() as int),
        cap >= 0 ==> byte_length(trunc_prefix(s, cap)) <= cap,
        forall|k: int|
            trunc_prefix(s, cap).len() < k <= s.len() ==> byte_length(s.take(k)) > cap,
    decreases s.len(),
{
    if s.len() == 0 {
        assert(trunc_prefix(s, cap) =~= s.take(0));
    } else {
        let w = encode_scalar(s[0] as u32).len() as int;
        if w <= cap {
            let rest = s.drop_first();
            lemma_trunc_prefix_longest(rest, cap - w);
            let t = trunc_prefix(s, cap);
            let tr = trunc_prefix(rest, cap - w);
            assert(t =~= seq![s[0]] + tr);
            assert(t.len() == 1 + tr.len());
            // t is the matching prefix of s
            assert(t =~= s.take(t.len() as int)) by {
                assert(tr =~= rest.take(tr.len() as int));
                assert forall|i: int| 0 <= i < t.len() implies t[i] == s.take(
                    t.len() as int,
                )[i] by {
                    if i > 0 {
                        assert(t[i] == tr[i - 1]);
                        assert(tr[i - 1] == rest[i - 1]);
                        assert(rest[i - 1] == s[i]);
                    }
                }
            }
            // its byte length fits
            if cap >= 0 {
                assert(byte_length(t) == w + byte_length(tr)) by {
                    lemma_encode_utf8_concat(seq![s[0]], tr);
                    lemma_encode_utf8_singleton(s[0]);
                }
            }
            // any longer prefix overflows
            assert forall|k: int| t.len() < k <= s.len() implies byte_length(s.take(k))
                > cap by {
                assert(s.take(k) =~= seq![s[0]] + rest.take(k - 1));
                lemma_encode_utf8_concat(seq![s[0]], rest.take(k - 1));
                lemma_encode_utf8_singleton(s[0]);
                assert(byte_length(s.take(k)) == w + byte_length(rest.take(k - 1)));
                assert(tr.len() < k - 1 <= rest.len());
                assert(byte_length(rest.take(k - 1)) > cap - w);
            }
        } else {
            let t = trunc_prefix(s, cap);
            assert(t =~= s.take(0));
            assert forall|k: int| 0 < k <= s.len() implies byte_length(s.take(k)) > cap by {
                assert(s.take(k)[0] == s[0]);
                assert(s.take(k).len() > 0);
                lemma_byte_length_positive(s.take(k));
            }
        }
    }
}

/// True when `i` is the maximum index such that the first `i` bytes of
/// `bytes` form a well-formed UTF-8 encoding.
pub open spec fn is_utf8_prefix_end(bytes: Seq<u8>, i: int) -> bool {
    &&& 0 <= i <= bytes.len()
    &&& valid_utf8(bytes.subrange(0, i))
    &&& forall|j: int| i < j <= bytes.len() ==> !valid_utf8(bytes.subrange(0, j))
}

/// The maximum index up to which `bytes` is well-formed UTF-8.
pub open spec fn utf8_prefix_end(bytes: Seq<u8>) -> int {
    choose|i: int| is_utf8_prefix_end(bytes, i)
}

/// At most one index can be the maximum, so any witness equals
/// `utf8_prefix_end`.
pub proof fn lemma_utf8_prefix_end_unique(bytes: Seq<u8>, i: int)
    requires
        is_utf8_prefix_end(bytes, i),
    ensures
        i == utf8_prefix_end(bytes),
{
    let k = utf8_prefix_end(bytes);
    assert(is_utf8_prefix_end(bytes, k)) by {
        assert(is_utf8_prefix_end(bytes, i));
    }
}

/// A sequence that already fits is returned whole.
pub proof fn lemma_trunc_prefix_fits(s: Seq<char>, cap: int)
    requires
        byte_length(s) <= cap,
    ensures
        trunc_prefix(s, cap) == s,
    decreases s.len(),
{
    if s.len() == 0 {
    } else {
        let w = encode_scalar(s[0] as u32).len() as int;
        assert(byte_length(s) == w + byte_length(s.drop_first())) by {
            assert(s =~= seq![s[0]] + s.drop_first());
            lemma_encode_utf8_concat(seq![s[0]], s.drop_first());
            lemma_encode_utf8_singleton(s[0]);
        }
        lemma_trunc_prefix_fits(s.drop_first(), cap - w);
        assert(trunc_prefix(s, cap) =~= seq![s[0]] + s.drop_first());
        assert(seq![s[0]] + s.drop_first() =~= s);
    }
}

} // verus!
