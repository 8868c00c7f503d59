//! The bounded UTF-8 buffer `Str<SIZE>` and its error types.
//!
//! `Str<SIZE>` stores at most `SIZE` bytes of UTF-8 encoded text inline, by
//! value. Its abstract view (`@`) is the stored character sequence; the type
//! invariant keeps the in-use byte prefix a well-formed UTF-8 encoding of
//! that sequence at all times, and keeps the unused tail zeroed so that the
//! stored bytes are a canonical function of the content.

use vstd::prelude::*;
use vstd::slice::slice_subrange;
use vstd::string::StringSliceAdditionalSpecFns;
use vstd::utf8::*;

use crate::encoding::byte_length;
use crate::encoding::is_utf8_prefix_end;
use crate::encoding::trunc_prefix;
use crate::encoding::utf8_prefix_end;

verus! {

broadcast use
    vstd::array::group_array_axioms,
    vstd::seq::group_seq_axioms,
    vstd::utf8::encode_utf8_valid_utf8,
    vstd::utf8::encode_utf8_decode_utf8,
    vstd::utf8::decode_utf8_encode_utf8,
    vstd::utf8::char_is_scalar;

/// Error used by operations that can only fail by overflowing the buffer.
#[derive(Debug, Clone, Copy, PartialEq, Eq, Structural, Default)]
pub struct ErrorOverflow;

/// Error for operations that validate raw bytes as well as fit them.
#[derive(Debug, Clone, Copy, PartialEq, Eq, Structural)]
pub enum Error {
    /// The provided input overflows the size of the [`Str`].
    Overflow(ErrorOverflow),
    /// The provided input was not valid UTF-8; the payload is the length of
    /// its longest well-formed prefix.
    Utf8(usize),
}

/// Copy string type: a fixed-size byte buffer with a length cursor, whose
/// in-use prefix is always well-formed UTF-8.
#[derive(Debug, Clone, Copy, Hash)]
pub struct Str<const SIZE: usize> {
    buf: [u8; SIZE],
    len: usize,
}

impl<const SIZE: usize> View for Str<SIZE> {
    type V = Seq<char>;

    /// The stored text, as the sequence of characters encoded in the
    /// in-use byte prefix.
    closed spec fn view(&self) -> Seq<char> {
        decode_utf8(self.buf@.subrange(0, self.len as int))
    }
}

impl<const SIZE: usize> Str<SIZE> {
    /// The in-use byte prefix.
    pub closed spec fn spec_bytes(self) -> Seq<u8> {
        self.buf@.subrange(0, self.len as int)
    }

    /// Well-formedness: the cursor is within capacity, the in-use prefix
    /// is valid UTF-8, and the unused tail is zeroed. Every reachable
    /// value of the type satisfies this.
    #[verifier::type_invariant]
    pub closed spec fn wf(self) -> bool {
        &&& self.len <= SIZE
        &&& valid_utf8(self.buf@.subrange(0, self.len as int))
        &&& forall|i: int| self.len <= i < SIZE ==> self.buf@[i] == 0
    }

    /// A well-formed buffer's in-use prefix is the encoding of its view,
    /// so its cursor equals the view's byte length.
    pub proof fn lemma_wf_bytes(self)
        requires
            self.wf(),
        ensures
            self.spec_bytes() == encode_utf8(self@),
            self.spec_bytes().len() == byte_length(self@),
            byte_length(self@) <= SIZE,
    {
    }

    /// Copies a whole well-formed byte sequence that fits; the single
    /// byte-copy routine that every strict operation funnels through.
    fn strict_copy(bytes: &[u8]) -> (r: Self)
        requires
            valid_utf8(bytes@),
            bytes@.len() <= SIZE,
        ensures
            r@ == decode_utf8(bytes@),
    {
        let n = bytes.len();
        let mut buf = [0u8; SIZE];
        let mut i: usize = 0;
        while i < n
            invariant
                n == bytes@.len() <= SIZE,
                0 <= i <= n,
                forall|j: int| 0 <= j < i ==> buf@[j] == bytes@[j],
                forall|j: int| i <= j < SIZE ==> buf@[j] == 0,
            decreases n - i,
        {
            buf[i] = bytes[i];
            i += 1;
        }
        proof {
            assert(buf@.subrange(0, n as int) =~= bytes@);
        }
        Str { buf, len: n }
    }

    /// Returns a zero-length buffer.
    pub fn empty() -> (r: Self)
        ensures
            r@ == Seq::<char>::empty(),
    {
        let r = Str { buf: [0; SIZE], len: 0 };
        proof {
            assert(r.buf@.subrange(0, 0) =~= Seq::<u8>::empty());
        }
        r
    }

    /// Returns the capacity of this specific [`Str`] type.
    pub fn capacity(&self) -> (r: usize)
        ensures
            r == SIZE,
    {
        SIZE
    }

    /// Length of the stored text in bytes (not in chars); never exceeds
    /// the capacity.
    pub fn byte_len(&self) -> (r: usize)
        ensures
            r == byte_length(self@),
            r <= SIZE,
    {
        proof {
            use_type_invariant(self);
            self.lemma_wf_bytes();
        }
        self.len
    }

    /// Returns a new [`Str`] holding the characters of `string`, or
    /// [`ErrorOverflow`] when its encoding does not fit; nothing is
    /// constructed on failure.
    pub fn new(string: &str) -> (r: Result<Self, ErrorOverflow>)
        ensures
            byte_length(string@) <= SIZE <==> r is Ok,
            r matches Ok(b) ==> b@ == string@,
            r matches Err(e) ==> e == ErrorOverflow,
    {
        let bytes = string.as_bytes();
        if bytes.len() > SIZE {
            Err(ErrorOverflow)
        } else {
            Ok(Self::strict_copy(bytes))
        }
    }

    /// Returns a new [`Str`] holding the characters of `string`, which
    /// must fit; the counterpart of the build-time-checked constructor,
    /// with the size check as a precondition.
    pub fn new_const(string: &str) -> (r: Self)
        requires
            byte_length(string@) <= SIZE,
        ensures
            r@ == string@,
    {
        Self::strict_copy(string.as_bytes())
    }

    /// Returns a new [`Str`] holding the characters encoded in `bytes`.
    /// Trusted-input entry point: the bytes must already be well-formed
    /// UTF-8 and must fit.
    pub fn new_const_u8(bytes: &[u8]) -> (r: Self)
        requires
            valid_utf8(bytes@),
            bytes@.len() <= SIZE,
        ensures
            r@ == decode_utf8(bytes@),
    {
        Self::strict_copy(bytes)
    }

    /// Copies whole characters from a well-formed byte sequence from the
    /// left, stopping before the first character whose encoding does not
    /// fit in the remaining capacity; the boundary-checked byte-copy
    /// routine that every truncating operation funnels through. It never
    /// splits a multi-byte encoding.
    fn trunc_copy(bytes: &[u8]) -> (r: Self)
        requires
            valid_utf8(bytes@),
        ensures
            r@ == trunc_prefix(decode_utf8(bytes@), SIZE as int),
    {
        let n = bytes.len();
        let mut buf = [0u8; SIZE];
        let mut i: usize = 0;
        proof {
            assert(bytes@.subrange(0, 0) =~= Seq::<u8>::empty());
            assert(bytes@.subrange(0, n as int) =~= bytes@);
            assert(Seq::<char>::empty() + trunc_prefix(decode_utf8(bytes@), SIZE as int)
                =~= trunc_prefix(decode_utf8(bytes@), SIZE as int));
        }
        loop
            invariant
                n == bytes@.len(),
                i <= SIZE,
                i <= n,
                valid_utf8(bytes@),
                valid_utf8(bytes@.subrange(0, i as int)),
                valid_utf8(bytes@.subrange(i as int, n as int)),
                forall|j: int| 0 <= j < i ==> buf@[j] == bytes@[j],
                forall|j: int| i <= j < SIZE ==> buf@[j] == 0,
                trunc_prefix(decode_utf8(bytes@), SIZE as int) == decode_utf8(
                    bytes@.subrange(0, i as int),
                ) + trunc_prefix(
                    decode_utf8(bytes@.subrange(i as int, n as int)),
                    SIZE - i,
                ),
            ensures
                i <= SIZE,
                valid_utf8(bytes@.subrange(0, i as int)),
                forall|j: int| 0 <= j < i ==> buf@[j] == bytes@[j],
                forall|j: int| i <= j < SIZE ==> buf@[j] == 0,
                decode_utf8(bytes@.subrange(0, i as int)) == trunc_prefix(
                    decode_utf8(bytes@),
                    SIZE as int,
                ),
            decreases n - i,
        {
            if i >= n {
                proof {
                    let pre = bytes@.subrange(0, i as int);
                    assert(bytes@.subrange(i as int, n as int) =~= Seq::<u8>::empty());
                    assert(decode_utf8(pre) + Seq::<char>::empty() =~= decode_utf8(pre));
                }
                break;
            }
            let b0 = bytes[i];
            let w: usize = if b0 < 0x80 {
                1
            } else if b0 < 0xE0 {
                2
            } else if b0 < 0xF0 {
                3
            } else {
                4
            };
            proof {
                let suf = bytes@.subrange(i as int, n as int);
                assert(suf.len() > 0);
                assert(valid_first_scalar(suf));
                assert(suf[0] == bytes@[i as int]);
                assert(w as int == length_of_first_scalar(suf));
                assert(i + w <= n);
                let c = decode_first_scalar(suf) as char;
                let d = decode_utf8(suf);
                decode_utf8_first_scalar(suf);
                assert(take_first_scalar(suf) =~= suf.subrange(0, w as int));
                assert(encode_scalar(c as u32).len() == w);
                assert(d == seq![c] + decode_utf8(pop_first_scalar(suf)));
                assert(d[0] == c);
                assert(d.len() > 0);
            }
            if SIZE - i < w {
                proof {
                    let pre = bytes@.subrange(0, i as int);
                    let suf = bytes@.subrange(i as int, n as int);
                    let d = decode_utf8(suf);
                    assert(encode_scalar(d[0] as u32).len() > SIZE - i);
                    assert(trunc_prefix(d, SIZE - i) =~= Seq::<char>::empty());
                    assert(decode_utf8(pre) + Seq::<char>::empty() =~= decode_utf8(pre));
                }
                break;
            }
            let mut j: usize = 0;
            while j < w
                invariant
                    n == bytes@.len(),
                    i + w <= n,
                    i + w <= SIZE,
                    0 <= j <= w,
                    forall|k: int| 0 <= k < i + j ==> buf@[k] == bytes@[k],
                    forall|k: int| i + j <= k < SIZE ==> buf@[k] == 0,
                decreases w - j,
            {
                buf[i + j] = bytes[i + j];
                j += 1;
            }
            proof {
                let pre = bytes@.subrange(0, i as int);
                let suf = bytes@.subrange(i as int, n as int);
                let c = decode_first_scalar(suf) as char;
                let a = decode_utf8(pre);
                let d = decode_utf8(suf);
                let wi = w as int;
                decode_utf8_first_scalar(suf);
                assert(take_first_scalar(suf) =~= suf.subrange(0, wi));
                assert(encode_scalar(c as u32).len() == wi);
                crate::encoding::lemma_encode_utf8_singleton(c);
                let pre2 = bytes@.subrange(0, i + wi);
                let suf2 = bytes@.subrange(i + wi, n as int);
                assert(pre2 =~= pre + suf.subrange(0, wi));
                assert(suf2 =~= pop_first_scalar(suf));
                assert(valid_utf8(suf2));
                assert(pre == encode_utf8(a));
                assert(pre2 =~= encode_utf8(a) + encode_utf8(seq![c]));
                crate::encoding::lemma_encode_utf8_concat(a, seq![c]);
                assert(pre2 == encode_utf8(a + seq![c]));
                assert(valid_utf8(pre2));
                assert(decode_utf8(pre2) == a + seq![c]);
                let d2 = decode_utf8(suf2);
                assert(d == seq![c] + d2);
                assert((seq![c] + d2).drop_first() =~= d2);
                assert(d[0] == c);
                assert(trunc_prefix(d, SIZE - i) == seq![c] + trunc_prefix(d2, SIZE - i - wi));
                assert(a + (seq![c] + trunc_prefix(d2, SIZE - i - wi)) =~= (a + seq![c])
                    + trunc_prefix(d2, SIZE - i - wi));
            }
            i += w;
        }
        proof {
            assert(buf@.subrange(0, i as int) =~= bytes@.subrange(0, i as int));
        }
        Str { buf, len: i }
    }

    /// Returns a new [`Str`] holding the longest prefix of `string`, in
    /// whole characters, whose encoding fits; never fails and never
    /// splits a multi-byte encoding.
    pub fn new_trunc(string: &str) -> (r: Self)
        ensures
            r@ == trunc_prefix(string@, SIZE as int),
    {
        Self::trunc_copy(string.as_bytes())
    }

    /// Returns a new [`Str`] holding the longest fitting character prefix
    /// of `string`; the counterpart of the build-time truncating
    /// constructor.
    pub fn new_const_trunc(string: &str) -> (r: Self)
        ensures
            r@ == trunc_prefix(string@, SIZE as int),
    {
        Self::trunc_copy(string.as_bytes())
    }

    /// Returns a new [`Str`] holding the longest fitting character prefix
    /// of the text encoded in `bytes`. Trusted-input entry point: the
    /// bytes must already be well-formed UTF-8.
    pub fn new_const_trunc_u8(bytes: &[u8]) -> (r: Self)
        requires
            valid_utf8(bytes@),
        ensures
            r@ == trunc_prefix(decode_utf8(bytes@), SIZE as int),
    {
        Self::trunc_copy(bytes)
    }

    /// Replaces the stored text with the longest prefix of `string`, in
    /// whole characters, whose encoding fits; never fails.
    pub fn replace_trunc(&mut self, string: &str)
        ensures
            final(self)@ == trunc_prefix(string@, SIZE as int),
    {
        *self = Self::trunc_copy(string.as_bytes());
    }

    /// Replaces the stored text with `string` when it fits; a failed
    /// replacement leaves the buffer byte-for-byte unchanged.
    pub fn replace(&mut self, string: &str) -> (r: Result<(), ErrorOverflow>)
        ensures
            byte_length(string@) <= SIZE <==> r is Ok,
            r is Ok ==> final(self)@ == string@,
            r is Err ==> *final(self) == *old(self),
            r matches Err(e) ==> e == ErrorOverflow,
    {
        let bytes = string.as_bytes();
        if bytes.len() > SIZE {
            Err(ErrorOverflow)
        } else {
            *self = Self::strict_copy(bytes);
            Ok(())
        }
    }

    /// Appends one character's UTF-8 encoding (1 to 4 bytes) when it fits
    /// in the remaining capacity; a failed push leaves the buffer
    /// byte-for-byte unchanged.
    pub fn push(&mut self, ch: char) -> (r: Result<(), ErrorOverflow>)
        ensures
            encode_scalar(ch as u32).len() <= SIZE - byte_length(old(self)@) <==> r is Ok,
            r is Ok ==> final(self)@ == old(self)@.push(ch),
            r is Err ==> *final(self) == *old(self),
            r matches Err(e) ==> e == ErrorOverflow,
    {
        proof {
            use_type_invariant(&*self);
            self.lemma_wf_bytes();
        }
        let u = ch as u32;
        let w: usize = if u < 0x80 {
            1
        } else if u < 0x800 {
            2
        } else if u < 0x10000 {
            3
        } else {
            4
        };
        proof {
            assert(is_scalar(u));
            assert(w == encode_scalar(u).len());
        }
        if SIZE - self.len < w {
            return Err(ErrorOverflow);
        }
        let len = self.len;
        let mut buf = self.buf;
        if w == 1 {
            buf[len] = (u & 0x7F) as u8;
        } else if w == 2 {
            buf[len] = 0xC0 | ((u >> 6) & 0x1F) as u8;
            buf[len + 1] = 0x80 | (u & 0x3F) as u8;
        } else if w == 3 {
            buf[len] = 0xE0 | ((u >> 12) & 0x0F) as u8;
            buf[len + 1] = 0x80 | ((u >> 6) & 0x3F) as u8;
            buf[len + 2] = 0x80 | (u & 0x3F) as u8;
        } else {
            buf[len] = 0xF0 | ((u >> 18) & 0x7) as u8;
            buf[len + 1] = 0x80 | ((u >> 12) & 0x3F) as u8;
            buf[len + 2] = 0x80 | ((u >> 6) & 0x3F) as u8;
            buf[len + 3] = 0x80 | (u & 0x3F) as u8;
        }
        proof {
            let a = old(self)@;
            let pre = old(self).spec_bytes();
            let wi = w as int;
            assert(buf@.subrange(len as int, len + wi) =~= encode_scalar(u));
            assert(buf@.subrange(0, len + wi) =~= pre + encode_scalar(u));
            crate::encoding::lemma_encode_utf8_singleton(ch);
            crate::encoding::lemma_encode_utf8_concat(a, seq![ch]);
            assert(buf@.subrange(0, len + wi) == encode_utf8(a + seq![ch]));
            assert(a + seq![ch] =~= a.push(ch));
        }
        *self = Str { buf, len: len + w };
        Ok(())
    }

    /// Extracts a string slice with the entire stored text.
    pub fn as_str(&self) -> (r: &str)
        ensures
            r@ == self@,
    {
        proof {
            use_type_invariant(self);
        }
        let bytes = slice_subrange(self.buf.as_slice(), 0, self.len);
        match try_bytes_as_str(bytes) {
            Ok(s) => s,
            Err(_) => vstd::pervasive::unreached(),
        }
    }

    /// Builds a buffer by pushing the characters of `chars` in order and
    /// stopping silently at the first one that would overflow — the same
    /// effect as truncating construction from their concatenation.
    pub fn from_chars(chars: &Vec<char>) -> (r: Self)
        ensures
            r@ == trunc_prefix(chars@, SIZE as int),
    {
        let n = chars.len();
        let mut s = Self::empty();
        let mut i: usize = 0;
        proof {
            assert(chars@.take(0) =~= Seq::<char>::empty());
            assert(chars@.skip(0) =~= chars@);
            assert(encode_utf8(Seq::<char>::empty()) =~= Seq::<u8>::empty());
            assert(Seq::<char>::empty() + trunc_prefix(chars@, SIZE as int) =~= trunc_prefix(
                chars@,
                SIZE as int,
            ));
        }
        loop
            invariant
                n == chars@.len(),
                0 <= i <= n,
                s@ == chars@.take(i as int),
                byte_length(s@) <= SIZE,
                trunc_prefix(chars@, SIZE as int) == chars@.take(i as int) + trunc_prefix(
                    chars@.skip(i as int),
                    SIZE - byte_length(chars@.take(i as int)),
                ),
            ensures
                s@ == trunc_prefix(chars@, SIZE as int),
            decreases n - i,
        {
            if i >= n {
                proof {
                    let taken = chars@.take(i as int);
                    assert(chars@.skip(i as int) =~= Seq::<char>::empty());
                    assert(taken + Seq::<char>::empty() =~= taken);
                }
                break;
            }
            let c = chars[i];
            let res = s.push(c);
            if res.is_err() {
                proof {
                    let taken = chars@.take(i as int);
                    let rest = chars@.skip(i as int);
                    let cap = SIZE - byte_length(taken);
                    assert(rest[0] == c);
                    assert(encode_scalar(rest[0] as u32).len() > cap);
                    assert(trunc_prefix(rest, cap) =~= Seq::<char>::empty());
                    assert(taken + Seq::<char>::empty() =~= taken);
                }
                break;
            }
            proof {
                let taken = chars@.take(i as int);
                let rest = chars@.skip(i as int);
                let cap = SIZE - byte_length(taken);
                let w = encode_scalar(c as u32).len() as int;
                assert(rest[0] == c);
                assert(rest.drop_first() =~= chars@.skip(i + 1));
                assert(trunc_prefix(rest, cap) == seq![c] + trunc_prefix(
                    chars@.skip(i + 1),
                    cap - w,
                ));
                crate::encoding::lemma_byte_length_take_succ(chars@, i as int);
                assert(taken.push(c) =~= chars@.take(i + 1));
                assert(taken + (seq![c] + trunc_prefix(chars@.skip(i + 1), cap - w)) =~= chars@.take(
                    i + 1,
                ) + trunc_prefix(chars@.skip(i + 1), cap - w));
            }
            i += 1;
        }
        s
    }

    /// True when this value is the canonical representation of the text
    /// `s`: cursor at `s`'s byte length, in-use prefix its encoding,
    /// unused tail zeroed.
    pub closed spec fn holds_text(self, s: Seq<char>) -> bool {
        &&& self.len == byte_length(s)
        &&& self.len <= SIZE
        &&& self.buf@.subrange(0, self.len as int) == encode_utf8(s)
        &&& forall|i: int| self.len <= i < SIZE ==> self.buf@[i] == 0
    }

    /// The unique buffer value holding the text `s`, for `s` that fits.
    pub closed spec fn of_text(s: Seq<char>) -> Str<SIZE> {
        choose|t: Str<SIZE>| t.holds_text(s)
    }

    /// The representation is canonical: a well-formed buffer is fully
    /// determined by its text.
    pub proof fn lemma_view_determines(t: Str<SIZE>, s: Seq<char>)
        requires
            t.wf(),
            t@ == s,
        ensures
            t == Str::<SIZE>::of_text(s),
            byte_length(s) <= SIZE,
    {
        t.lemma_wf_bytes();
        assert(t.holds_text(s));
        let u = Str::<SIZE>::of_text(s);
        assert(u.holds_text(s)) by {
            assert(t.holds_text(s));
        }
        assert(u.buf =~= t.buf) by {
            assert forall|i: int| 0 <= i < SIZE implies u.buf@[i] == t.buf@[i] by {
                if i < u.len {
                    assert(u.buf@.subrange(0, u.len as int)[i] == u.buf@[i]);
                    assert(t.buf@.subrange(0, t.len as int)[i] == t.buf@[i]);
                }
            }
        }
        assert(t == u);
    }

    /// Two well-formed buffers of one capacity hold equal texts exactly
    /// when they are equal values. Since the stored bytes are canonical,
    /// any function of the value — a derived hash included — agrees on
    /// content-equal buffers.
    pub proof fn lemma_eq_text_eq_value(a: Str<SIZE>, b: Str<SIZE>)
        requires
            a.wf(),
            b.wf(),
        ensures
            a@ == b@ <==> a == b,
    {
        if a@ == b@ {
            Str::<SIZE>::lemma_view_determines(a, a@);
            Str::<SIZE>::lemma_view_determines(b, a@);
        }
    }

    /// Capacity invariant: the stored text of a well-formed buffer never
    /// exceeds the declared capacity in bytes.
    pub proof fn lemma_capacity_invariant(b: Str<SIZE>)
        requires
            b.wf(),
        ensures
            byte_length(b@) <= SIZE,
    {
        b.lemma_wf_bytes();
    }

    /// Text validity: the stored byte prefix of any well-formed buffer is
    /// well-formed UTF-8 — reading it back as text cannot fail, whatever
    /// the construction path that produced the buffer.
    pub proof fn lemma_text_valid(b: Str<SIZE>)
        requires
            b.wf(),
        ensures
            valid_utf8(b.spec_bytes()),
            b.spec_bytes() == encode_utf8(b@),
    {
        b.lemma_wf_bytes();
    }

    /// Borrows the stored text as its UTF-8 bytes: exactly the in-use
    /// prefix, never the unused tail.
    pub fn as_bytes(&self) -> (r: &[u8])
        ensures
            r@ == encode_utf8(self@),
    {
        proof {
            use_type_invariant(self);
            self.lemma_wf_bytes();
        }
        slice_subrange(self.buf.as_slice(), 0, self.len)
    }
}

impl<const SIZE: usize> PartialEq for Str<SIZE> {
    /// Two buffers of the same capacity are equal exactly when their
    /// stored texts are equal; the unused tail takes no part.
    fn eq(&self, other: &Self) -> (r: bool) {
        proof {
            use_type_invariant(self);
            use_type_invariant(other);
            self.lemma_wf_bytes();
            other.lemma_wf_bytes();
        }
        if self.len != other.len {
            proof {
                if self@ == other@ {
                    assert(self.spec_bytes() == other.spec_bytes());
                }
            }
            return false;
        }
        let n = self.len;
        let mut i: usize = 0;
        while i < n
            invariant
                n == self.len,
                n == other.len,
                n <= SIZE,
                0 <= i <= n,
                forall|j: int| 0 <= j < i ==> self.buf@[j] == other.buf@[j],
            decreases n - i,
        {
            if self.buf[i] != other.buf[i] {
                proof {
                    use_type_invariant(self);
                    use_type_invariant(other);
                    self.lemma_wf_bytes();
                    other.lemma_wf_bytes();
                    if self@ == other@ {
                        assert(self.spec_bytes() == other.spec_bytes());
                        assert(self.spec_bytes()[i as int] == self.buf@[i as int]);
                        assert(other.spec_bytes()[i as int] == other.buf@[i as int]);
                    }
                }
                return false;
            }
            i += 1;
        }
        proof {
            use_type_invariant(self);
            use_type_invariant(other);
            self.lemma_wf_bytes();
            other.lemma_wf_bytes();
            assert(self.spec_bytes() =~= other.spec_bytes());
            assert(decode_utf8(encode_utf8(self@)) == self@);
            assert(decode_utf8(encode_utf8(other@)) == other@);
        }
        true
    }
}

impl<const SIZE: usize> vstd::std_specs::cmp::PartialEqSpecImpl for Str<SIZE> {
    open spec fn obeys_eq_spec() -> bool {
        true
    }

    open spec fn eq_spec(&self, other: &Self) -> bool {
        self@ == other@
    }
}

impl<const SIZE: usize> Eq for Str<SIZE> {

}

impl<const SIZE: usize> core::str::FromStr for Str<SIZE> {
    type Err = ErrorOverflow;

    /// Behaves exactly as the strict constructor [`Str::new`].
    fn from_str(s: &str) -> (r: Result<Self, ErrorOverflow>)
        ensures
            byte_length(s@) <= SIZE <==> r is Ok,
            r matches Ok(b) ==> b@ == s@,
            r matches Err(e) ==> e == ErrorOverflow,
    {
        Self::new(s)
    }
}

impl<const SIZE: usize> Default for Str<SIZE> {
    /// The default buffer is the empty one.
    fn default() -> (r: Self)
        ensures
            r@ == Seq::<char>::empty(),
    {
        Self::empty()
    }
}

impl From<ErrorOverflow> for Error {
    /// Overflow maps into the composite error's Overflow variant.
    fn from(e: ErrorOverflow) -> (r: Error) {
        Error::Overflow(e)
    }
}

impl vstd::std_specs::convert::FromSpecImpl<ErrorOverflow> for Error {
    open spec fn obeys_from_spec() -> bool {
        true
    }

    open spec fn from_spec(e: ErrorOverflow) -> Error {
        Error::Overflow(e)
    }
}

impl<'a, const SIZE: usize> TryFrom<&'a str> for Str<SIZE> {
    type Error = ErrorOverflow;

    /// Behaves exactly as [`Str::new`].
    fn try_from(string: &'a str) -> (r: Result<Self, ErrorOverflow>) {
        match Self::new(string) {
            Ok(b) => {
                proof {
                    use_type_invariant(&b);
                    Str::<SIZE>::lemma_view_determines(b, string@);
                }
                Ok(b)
            },
            Err(e) => Err(e),
        }
    }
}

impl<'a, const SIZE: usize> vstd::std_specs::convert::TryFromSpecImpl<&'a str> for Str<SIZE> {
    open spec fn obeys_try_from_spec() -> bool {
        true
    }

    open spec fn try_from_spec(v: &'a str) -> Result<Self, ErrorOverflow> {
        if byte_length(v@) <= SIZE {
            Ok(Str::<SIZE>::of_text(v@))
        } else {
            Err(ErrorOverflow)
        }
    }
}

impl<'a, const SIZE: usize> TryFrom<&'a [u8]> for Str<SIZE> {
    type Error = Error;

    /// Validates `arr` as UTF-8 first — malformed input fails with
    /// [`Error::Utf8`] even when short enough to fit — then behaves as
    /// [`Str::new`], mapping overflow into [`Error::Overflow`].
    fn try_from(arr: &'a [u8]) -> (r: Result<Self, Error>) {
        match try_bytes_as_str(arr) {
            Err(pos) => {
                proof {
                    crate::encoding::lemma_utf8_prefix_end_unique(arr@, pos as int);
                }
                Err(Error::Utf8(pos))
            },
            Ok(s) => {
                match Self::new(s) {
                    Ok(b) => {
                        proof {
                            use_type_invariant(&b);
                            assert(decode_utf8(encode_utf8(s@)) == s@);
                            Str::<SIZE>::lemma_view_determines(b, decode_utf8(arr@));
                        }
                        Ok(b)
                    },
                    Err(_) => Err(Error::Overflow(ErrorOverflow)),
                }
            },
        }
    }
}

impl<'a, const SIZE: usize> vstd::std_specs::convert::TryFromSpecImpl<&'a [u8]> for Str<SIZE> {
    open spec fn obeys_try_from_spec() -> bool {
        true
    }

    open spec fn try_from_spec(v: &'a [u8]) -> Result<Self, Error> {
        if !valid_utf8(v@) {
            Err(Error::Utf8(utf8_prefix_end(v@) as usize))
        } else if v@.len() <= SIZE {
            Ok(Str::<SIZE>::of_text(decode_utf8(v@)))
        } else {
            Err(Error::Overflow(ErrorOverflow))
        }
    }
}

/// Relies on core::str::from_utf8: it returns Ok exactly when the input is
/// well-formed UTF-8, with the returned str borrowing those same bytes; on
/// Err, Utf8Error::valid_up_to is documented as the maximum index such that
/// the input up to it is well-formed.
#[verifier::external_body]
fn try_bytes_as_str(bytes: &[u8]) -> (r: Result<&str, usize>)
    ensures
        r is Ok <==> valid_utf8(bytes@),
        r matches Ok(s) ==> s.spec_bytes() == bytes@,
        r matches Err(pos) ==> is_utf8_prefix_end(bytes@, pos as int),
{
    match core::str::from_utf8(bytes) {
        Ok(s) => Ok(s),
        Err(e) => Err(e.valid_up_to()),
    }
}

} // verus!

