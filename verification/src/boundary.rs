//! Byte offsets of scalar values inside UTF-8 text.
//!
//! The text of a `&str` is a sequence of scalar values; its bytes are the
//! UTF-8 encoding of that sequence. This module relates positions counted in
//! scalar values to positions counted in bytes, and holds the two scanning
//! routines that the window cursor is built from.

use vstd::prelude::*;
use vstd::string::*;
use vstd::utf8::*;

verus! {

/// Number of bytes that the UTF-8 encoding of `c` takes.
pub open spec fn char_width(c: char) -> int {
    encode_scalar(c as u32).len() as int
}

/// Byte offset, in the encoding of `text`, at which the scalar value with
/// index `n` starts. For `n == text.len()` this is the length of the whole
/// encoding.
pub open spec fn byte_offset(text: Seq<char>, n: int) -> int
    recommends
        0 <= n <= text.len(),
{
    encode_utf8(text.take(n)).len() as int
}

/// Encoding distributes over concatenation.
pub proof fn lemma_encode_concat(a: Seq<char>, b: Seq<char>)
    ensures
        encode_utf8(a + b) =~= encode_utf8(a) + encode_utf8(b),
    decreases a.len(),
{
    if a.len() == 0 {
        assert(a + b =~= b);
    } else {
        assert((a + b).drop_first() =~= a.drop_first() + b);
        lemma_encode_concat(a.drop_first(), b);
    }
}

/// The encoding of non-empty text starts with the encoding of its first
/// scalar value, and the first boundary after offset 0 lies right behind it.
pub proof fn lemma_first_boundary(text: Seq<char>)
    requires
        text.len() > 0,
    ensures
        1 <= char_width(text[0]) <= 4,
        char_width(text[0]) <= encode_utf8(text).len(),
        char_width(text[0]) == length_of_first_scalar(encode_utf8(text)),
        is_char_boundary(encode_utf8(text), char_width(text[0])),
        forall|j: int| 0 < j < char_width(text[0]) ==> !is_char_boundary(encode_utf8(text), j),
        pop_first_scalar(encode_utf8(text)) =~= encode_utf8(text.drop_first()),
{
    encode_utf8_first_scalar(text);
    encode_utf8_valid_utf8(text);
    encode_utf8_valid_utf8(text.drop_first());
    reveal_with_fuel(is_char_boundary, 2);
}

/// Offsets grow by the width of each scalar value that is passed.
pub proof fn lemma_byte_offset_step(text: Seq<char>, n: int)
    requires
        0 <= n < text.len(),
    ensures
        byte_offset(text, 0) == 0,
        byte_offset(text, n + 1) == byte_offset(text, n) + char_width(text[n]),
        byte_offset(text, n) < byte_offset(text, n + 1),
{
    let head = text.take(n);
    let one = seq![text[n]];
    assert(text.take(n + 1) =~= head + one);
    lemma_encode_concat(head, one);
    assert(one.drop_first() =~= Seq::<char>::empty());
    assert(encode_utf8(one) =~= encode_scalar(text[n] as u32)) by {
        reveal_with_fuel(encode_utf8, 2);
    }
    assert(text.take(0) =~= Seq::<char>::empty());
}

/// Offsets are strictly increasing in the index, so an offset names its index.
pub proof fn lemma_byte_offset_increasing(text: Seq<char>, m: int, n: int)
    requires
        0 <= m < n <= text.len(),
    ensures
        byte_offset(text, m) + (n - m) <= byte_offset(text, n),
        byte_offset(text, n) <= byte_offset(text, m) + 4 * (n - m),
    decreases n - m,
{
    lemma_byte_offset_step(text, n - 1);
    if m < n - 1 {
        lemma_byte_offset_increasing(text, m, n - 1);
    }
}

/// Offsets in a suffix of `text` are offsets in `text`, less the bytes of the
/// scalar values that were dropped.
pub proof fn lemma_byte_offset_skip(text: Seq<char>, m: int, n: int)
    requires
        0 <= m,
        0 <= n,
        m + n <= text.len(),
    ensures
        byte_offset(text.skip(m), n) == byte_offset(text, m + n) - byte_offset(text, m),
{
    assert(text.take(m + n) =~= text.take(m) + text.skip(m).take(n));
    lemma_encode_concat(text.take(m), text.skip(m).take(n));
}

/// Cutting the encoding of `text` at the offset of index `n` gives the
/// encodings of the first `n` scalar values and of the rest, and that offset
/// is a character boundary.
pub proof fn lemma_split_at_offset(text: Seq<char>, n: int)
    requires
        0 <= n <= text.len(),
    ensures
        0 <= byte_offset(text, n) <= encode_utf8(text).len(),
        is_char_boundary(encode_utf8(text), byte_offset(text, n)),
        encode_utf8(text).subrange(0, byte_offset(text, n)) =~= encode_utf8(text.take(n)),
        encode_utf8(text).subrange(byte_offset(text, n), encode_utf8(text).len() as int)
            =~= encode_utf8(text.skip(n)),
    decreases n,
{
    assert(text =~= text.take(n) + text.skip(n));
    lemma_encode_concat(text.take(n), text.skip(n));
    encode_utf8_valid_utf8(text);
    if n > 0 {
        let rest = text.drop_first();
        lemma_first_boundary(text);
        lemma_split_at_offset(rest, n - 1);
        assert(text.take(n) =~= seq![text[0]] + rest.take(n - 1));
        lemma_encode_concat(seq![text[0]], rest.take(n - 1));
        assert(text.take(1) =~= seq![text[0]]);
        lemma_byte_offset_step(text, 0);
        assert(byte_offset(text, n) == char_width(text[0]) + byte_offset(rest, n - 1));
    }
}

/// Length of `s` in bytes, read off its byte slice, whose length is known to
/// fit a `usize`.
pub(crate) fn byte_len(s: &str) -> (r: usize)
    ensures
        r == s.spec_bytes().len(),
        r == byte_offset(s@, s@.len() as int),
{
    proof {
        assert(s@.take(s@.len() as int) =~= s@);
    }
    s.as_bytes().len()
}

/// Scans forward from byte 1 for the first character boundary of `s`: the
/// number of bytes that the first scalar value of `s` takes. On the empty
/// string, which has no first scalar value, the answer is 1.
pub fn next_indice(s: &str) -> (r: usize)
    ensures
        s@.len() == 0 ==> r == 1,
        s@.len() > 0 ==> r == char_width(s@[0]),
        1 <= r <= 4,
{
    let len: usize = byte_len(s);
    proof {
        encode_utf8_valid_utf8(s@);
        is_char_boundary_start_end_of_seq(s.spec_bytes());
    }
    let mut i: usize = 1;
    while i <= len
        invariant
            1 <= i,
            len == s.spec_bytes().len(),
            valid_utf8(s.spec_bytes()),
            is_char_boundary(s.spec_bytes(), len as int),
            forall|j: int| 1 <= j < i ==> !is_char_boundary(s.spec_bytes(), j),
        decreases len - i,
    {
        if s.is_char_boundary(i) {
            proof {
                lemma_first_boundary(s@);
            }
            return i;
        }
        i += 1;
    }
    1
}

/// Splits `s` in front of its scalar value with index `n`, which starts at
/// byte `offset`.
pub(crate) fn split_at_index<'a>(s: &'a str, offset: usize, Ghost(n): Ghost<int>) -> (r: (
    &'a str,
    &'a str,
))
    requires
        0 <= n <= s@.len(),
        offset == byte_offset(s@, n),
    ensures
        r.0@ == s@.take(n),
        r.1@ == s@.skip(n),
{
    proof {
        lemma_split_at_offset(s@, n);
    }
    let r = s.split_at(offset);
    proof {
        encode_utf8_decode_utf8(r.0@);
        encode_utf8_decode_utf8(r.1@);
        encode_utf8_decode_utf8(s@.take(n));
        encode_utf8_decode_utf8(s@.skip(n));
    }
    r
}

/// Byte offset at which the scalar value with index `n` starts in `s`, or the
/// length of `s` in bytes where `s` holds no more than `n` scalar values.
pub fn nth_indice(s: &str, n: usize) -> (r: usize)
    ensures
        n <= s@.len() ==> r == byte_offset(s@, n as int),
        n > s@.len() ==> r == byte_offset(s@, s@.len() as int),
        r <= s.spec_bytes().len(),
{
    let len: usize = byte_len(s);
    let mut offset: usize = 0;
    let mut k: usize = 0;
    proof {
        assert(s@.take(0) =~= Seq::<char>::empty());
    }
    while k < n && offset < len
        invariant
            k <= n,
            k <= s@.len(),
            offset == byte_offset(s@, k as int),
            len == byte_offset(s@, s@.len() as int),
            len == s.spec_bytes().len(),
        decreases n - k,
    {
        let (_, rest) = split_at_index(s, offset, Ghost(k as int));
        let width: usize = next_indice(rest);
        proof {
            lemma_byte_offset_step(s@, k as int);
            if k + 1 < s@.len() {
                lemma_byte_offset_increasing(s@, k + 1, s@.len() as int);
            }
        }
        offset = offset + width;
        k = k + 1;
    }
    proof {
        if k < s@.len() {
            lemma_byte_offset_increasing(s@, k as int, s@.len() as int);
        }
    }
    offset
}

} // verus!
