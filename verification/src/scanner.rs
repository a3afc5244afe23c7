//! Codepoint boundary scanner.
//!
//! Pure functions that, given a UTF-8 byte buffer and a byte index, compute
//! the length in bytes of the codepoint starting at, or ending just before,
//! that index, and move an index codepoint by codepoint.  They operate only on
//! the leading byte's high bits (the standard UTF-8 prefix classification)
//! and assume the buffer is already valid UTF-8.
//!
//! The module also holds the boundary lemmas the editor is built on: a byte
//! index that falls on a codepoint boundary splits the buffer into two valid
//! UTF-8 halves, and stepping over one codepoint lands on a boundary again.

use vstd::prelude::*;

verus! {

use vstd::seq::Seq;
use vstd::string::StringSliceAdditionalSpecFns;
use vstd::utf8::{
    char_is_scalar, encode_scalar, encode_utf8, encode_utf8_first_scalar, encode_utf8_valid_utf8,
    is_char_boundary, is_char_boundary_iff_not_is_continuation_byte,
    is_char_boundary_start_end_of_seq, is_continuation_byte, length_of_first_scalar,
    length_of_last_scalar, pop_first_scalar, utf8_byte_ranges_bitwise, valid_first_scalar,
    valid_utf8, valid_utf8_concat, valid_utf8_split,
};

/// Relies on `std::str::from_utf8`: on a byte slice that is valid UTF-8 it
/// returns `Ok` with the borrowed string whose byte representation is exactly
/// the input slice (and `Err` otherwise, which the precondition rules out).
#[verifier::external_body]
pub(crate) fn str_of_bytes(bytes: &[u8]) -> (r: &str)
    requires
        valid_utf8(bytes@),
    ensures
        r.spec_bytes() == bytes@,
{
    std::str::from_utf8(bytes).unwrap()
}

/// A codepoint boundary always lies between 0 and the buffer length.
pub proof fn lemma_boundary_in_range(s: Seq<u8>, i: int)
    requires
        valid_utf8(s),
        is_char_boundary(s, i),
    ensures
        0 <= i <= s.len(),
{
    if i != 0 {
        assert(!(i < 0 || s.len() < i));
    }
}

/// At a boundary strictly inside the buffer a whole scalar encoding starts:
/// it is between 1 and 4 bytes long, stays within the buffer, and the index
/// just past it is a boundary again.  Both halves of the split are valid.
pub proof fn lemma_scalar_after_boundary(s: Seq<u8>, i: int)
    requires
        valid_utf8(s),
        is_char_boundary(s, i),
        0 <= i < s.len(),
    ensures
        ({
            let suf = s.subrange(i, s.len() as int);
            let l = length_of_first_scalar(suf);
            &&& valid_utf8(s.subrange(0, i))
            &&& valid_utf8(suf)
            &&& valid_first_scalar(suf)
            &&& 1 <= l <= 4
            &&& i + l <= s.len()
            &&& is_char_boundary(s, i + l)
        }),
{
    valid_utf8_split(s, i);
    let suf = s.subrange(i, s.len() as int);
    assert(valid_first_scalar(suf));
    let l = length_of_first_scalar(suf);
    assert(1 <= l <= 4 && l <= suf.len());
    if i + l == s.len() {
        is_char_boundary_start_end_of_seq(s);
    } else {
        let rest = pop_first_scalar(suf);
        assert(valid_utf8(rest));
        assert(rest =~= s.subrange(i + l, s.len() as int));
        assert(valid_first_scalar(rest));
        assert(!is_continuation_byte(rest[0]));
        assert(rest[0] == s[i + l]);
        is_char_boundary_iff_not_is_continuation_byte(s, i + l);
    }
}

/// The backward scan over continuation bytes finds the length of the last
/// scalar of a non-empty valid buffer: the scan stops after at most 4 bytes,
/// the index where the last scalar starts is a boundary, and the scalar
/// encoding occupying the scanned bytes is well formed with exactly that
/// length.
pub proof fn lemma_last_scalar(s: Seq<u8>)
    requires
        valid_utf8(s),
        s.len() > 0,
    ensures
        ({
            let l = length_of_last_scalar(s);
            &&& 1 <= l <= s.len()
            &&& is_char_boundary(s, s.len() - l)
            &&& valid_first_scalar(s.subrange(s.len() - l, s.len() as int))
            &&& length_of_first_scalar(s.subrange(s.len() - l, s.len() as int)) == l
        }),
    decreases s.len(),
{
    let n = s.len() as int;
    assert(valid_first_scalar(s));
    let f = length_of_first_scalar(s);
    assert(1 <= f <= 4 && f <= n);
    let tail = pop_first_scalar(s);
    assert(valid_utf8(tail));
    assert(tail =~= s.subrange(f, n));
    if tail.len() == 0 {
        assert(n == f);
        if f == 1 {
            assert(!is_continuation_byte(s[0]));
        } else if f == 2 {
            assert(is_continuation_byte(s[1]));
            assert(!is_continuation_byte(s[0]));
        } else if f == 3 {
            assert(is_continuation_byte(s[2]));
            assert(is_continuation_byte(s[1]));
            assert(!is_continuation_byte(s[0]));
        } else {
            assert(is_continuation_byte(s[3]));
            assert(is_continuation_byte(s[2]));
            assert(is_continuation_byte(s[1]));
        }
        assert(length_of_last_scalar(s) == f);
        assert(s.subrange(n - f, n) =~= s);
    } else {
        lemma_last_scalar(tail);
        let m = tail.len() as int;
        let lt = length_of_last_scalar(tail);
        assert(forall|j: int| 0 <= j < m ==> tail[j] == s[f + j]);
        let last_tail = tail.subrange(m - lt, m);
        assert(valid_first_scalar(last_tail));
        assert(length_of_first_scalar(last_tail) == lt);
        if lt == 1 {
            assert(!is_continuation_byte(last_tail[0]));
            assert(last_tail[0] == s[n - 1]);
        } else if lt == 2 {
            assert(is_continuation_byte(last_tail[1]));
            assert(!is_continuation_byte(last_tail[0]));
            assert(last_tail[1] == s[n - 1] && last_tail[0] == s[n - 2]);
        } else if lt == 3 {
            assert(is_continuation_byte(last_tail[2]));
            assert(is_continuation_byte(last_tail[1]));
            assert(!is_continuation_byte(last_tail[0]));
            assert(last_tail[2] == s[n - 1] && last_tail[1] == s[n - 2] && last_tail[0] == s[n
                - 3]);
        } else {
            assert(is_continuation_byte(last_tail[3]));
            assert(is_continuation_byte(last_tail[2]));
            assert(is_continuation_byte(last_tail[1]));
            assert(last_tail[3] == s[n - 1] && last_tail[2] == s[n - 2] && last_tail[1] == s[n
                - 3]);
        }
        assert(length_of_last_scalar(s) == lt);
        assert(is_char_boundary(s, n - lt));
        assert(s.subrange(n - lt, n) =~= tail.subrange(m - lt, m));
    }
}

/// At a non-zero boundary, the buffer up to the boundary ends with a whole
/// scalar: the backward scan finds its length, and the index where it starts
/// is a boundary of the whole buffer.
pub proof fn lemma_scalar_before_boundary(s: Seq<u8>, i: int)
    requires
        valid_utf8(s),
        is_char_boundary(s, i),
        0 < i <= s.len(),
    ensures
        ({
            let pre = s.subrange(0, i);
            let l = length_of_last_scalar(pre);
            &&& valid_utf8(pre)
            &&& 1 <= l <= i
            &&& is_char_boundary(s, i - l)
        }),
{
    valid_utf8_split(s, i);
    let pre = s.subrange(0, i);
    lemma_last_scalar(pre);
    let l = length_of_last_scalar(pre);
    if i - l == 0 {
        assert(is_char_boundary(s, 0));
    } else {
        is_char_boundary_iff_not_is_continuation_byte(pre, i - l);
        is_char_boundary_iff_not_is_continuation_byte(s, i - l);
        assert(pre[i - l] == s[i - l]);
        assert(!is_continuation_byte(s[i - l]));
    }
}

/// Concatenating two valid UTF-8 buffers yields a valid buffer with a
/// boundary at the seam.
pub proof fn lemma_concat_boundary(a: Seq<u8>, b: Seq<u8>)
    requires
        valid_utf8(a),
        valid_utf8(b),
    ensures
        valid_utf8(a + b),
        is_char_boundary(a + b, a.len() as int),
{
    valid_utf8_concat(a, b);
    if b.len() == 0 {
        assert(a + b =~= a);
        is_char_boundary_start_end_of_seq(a + b);
    } else {
        assert(valid_first_scalar(b));
        assert(!is_continuation_byte(b[0]));
        assert((a + b)[a.len() as int] == b[0]);
        is_char_boundary_iff_not_is_continuation_byte(a + b, a.len() as int);
    }
}

/// A boundary of the whole buffer, at or after a boundary `a`, is a boundary
/// of the suffix that starts at `a` as well.
pub proof fn lemma_boundary_in_suffix(s: Seq<u8>, a: int, b: int)
    requires
        valid_utf8(s),
        is_char_boundary(s, a),
        is_char_boundary(s, b),
        a <= b,
    ensures
        valid_utf8(s.subrange(a, s.len() as int)),
        is_char_boundary(s.subrange(a, s.len() as int), b - a),
{
    lemma_boundary_in_range(s, a);
    lemma_boundary_in_range(s, b);
    valid_utf8_split(s, a);
    let suf = s.subrange(a, s.len() as int);
    if b == s.len() {
        is_char_boundary_start_end_of_seq(suf);
    } else if b == a {
        assert(is_char_boundary(suf, 0));
    } else {
        is_char_boundary_iff_not_is_continuation_byte(s, b);
        assert(suf[b - a] == s[b]);
        is_char_boundary_iff_not_is_continuation_byte(suf, b - a);
    }
}

/// Appending one whole scalar encoding to a valid buffer makes that encoding
/// the buffer's last scalar: the backward scan finds exactly its length.
pub proof fn lemma_last_scalar_of_append(a: Seq<u8>, e: Seq<u8>)
    requires
        valid_utf8(a),
        valid_first_scalar(e),
        length_of_first_scalar(e) == e.len(),
    ensures
        length_of_last_scalar(a + e) == e.len(),
{
    let s = a + e;
    let n = s.len() as int;
    let l = e.len() as int;
    assert(forall|j: int| 0 <= j < l ==> s[a.len() + j] == e[j]);
    if l == 1 {
        assert(!is_continuation_byte(e[0]));
        assert(s[n - 1] == e[0]);
    } else if l == 2 {
        assert(is_continuation_byte(e[1]));
        assert(!is_continuation_byte(e[0]));
        assert(s[n - 1] == e[1] && s[n - 2] == e[0]);
    } else if l == 3 {
        assert(is_continuation_byte(e[2]));
        assert(is_continuation_byte(e[1]));
        assert(!is_continuation_byte(e[0]));
        assert(s[n - 1] == e[2] && s[n - 2] == e[1] && s[n - 3] == e[0]);
    } else {
        assert(is_continuation_byte(e[3]));
        assert(is_continuation_byte(e[2]));
        assert(is_continuation_byte(e[1]));
        assert(s[n - 1] == e[3] && s[n - 2] == e[2] && s[n - 3] == e[1]);
    }
}

/// The UTF-8 encoding of a single character is one well-formed scalar
/// encoding of between 1 and 4 bytes.
pub proof fn lemma_encode_scalar_single(c: char)
    ensures
        ({
            let e = encode_scalar(c as u32);
            &&& 1 <= e.len() <= 4
            &&& valid_utf8(e)
            &&& valid_first_scalar(e)
            &&& length_of_first_scalar(e) == e.len()
            &&& encode_utf8(seq![c]) == e
        }),
{
    char_is_scalar(c);
    encode_utf8_first_scalar(seq![c]);
    encode_utf8_valid_utf8(seq![c]);
    assert(seq![c].drop_first() =~= Seq::<char>::empty());
    assert(seq![c][0] == c);
    assert(encode_utf8(Seq::<char>::empty()) =~= Seq::<u8>::empty());
    assert(encode_utf8(seq![c]) =~= encode_scalar(c as u32) + encode_utf8(
        Seq::<char>::empty(),
    ));
    assert(encode_scalar(c as u32) + Seq::<u8>::empty() =~= encode_scalar(c as u32));
}

/// Encoding one more character appends that character's scalar encoding.
pub proof fn lemma_encode_utf8_push(cs: Seq<char>, c: char)
    ensures
        encode_utf8(cs.push(c)) == encode_utf8(cs) + encode_scalar(c as u32),
    decreases cs.len(),
{
    if cs.len() == 0 {
        lemma_encode_scalar_single(c);
        assert(cs.push(c) =~= seq![c]);
        assert(encode_utf8(cs) + encode_scalar(c as u32) =~= encode_scalar(c as u32));
    } else {
        lemma_encode_utf8_push(cs.drop_first(), c);
        assert(cs.push(c).drop_first() =~= cs.drop_first().push(c));
        assert(cs.push(c)[0] == cs[0]);
        assert(encode_scalar(cs[0] as u32) + (encode_utf8(cs.drop_first()) + encode_scalar(
            c as u32,
        )) =~= (encode_scalar(cs[0] as u32) + encode_utf8(cs.drop_first())) + encode_scalar(
            c as u32,
        ));
    }
}

/// Length in bytes of the codepoint starting at `index` in `bytes`, or
/// `None` when `index` is at or past the end of the buffer.
pub(crate) fn cp_len_at(bytes: &[u8], index: usize) -> (r: Option<usize>)
    requires
        valid_utf8(bytes@),
        index < bytes@.len() ==> is_char_boundary(bytes@, index as int),
    ensures
        match r {
            None => index >= bytes@.len(),
            Some(l) => {
                &&& index < bytes@.len()
                &&& l == length_of_first_scalar(
                    bytes@.subrange(index as int, bytes@.len() as int),
                )
                &&& 1 <= l <= 4
                &&& index + l <= bytes@.len()
                &&& is_char_boundary(bytes@, index + l)
            },
        },
{
    if index >= bytes.len() {
        return None;
    }
    proof {
        lemma_scalar_after_boundary(bytes@, index as int);
    }
    let ghost suf = bytes@.subrange(index as int, bytes@.len() as int);
    let b = bytes[index];
    assert(suf[0] == b);
    if b < 0x80 {
        Some(1)
    } else if b < 0xe0 {
        Some(2)
    } else if b < 0xf0 {
        Some(3)
    } else {
        Some(4)
    }
}

/// Length in bytes of the codepoint ending just before `index` in `bytes`,
/// or `None` when `index` is 0 or past the end of the buffer.
pub(crate) fn cp_len_before(bytes: &[u8], index: usize) -> (r: Option<usize>)
    requires
        valid_utf8(bytes@),
        index <= bytes@.len() ==> is_char_boundary(bytes@, index as int),
    ensures
        match r {
            None => index == 0 || index > bytes@.len(),
            Some(l) => {
                &&& 0 < index <= bytes@.len()
                &&& l == length_of_last_scalar(bytes@.subrange(0, index as int))
                &&& 1 <= l <= index
                &&& is_char_boundary(bytes@, index - l)
            },
        },
{
    if index == 0 || index > bytes.len() {
        return None;
    }
    proof {
        lemma_scalar_before_boundary(bytes@, index as int);
        valid_utf8_split(bytes@, index as int);
        vstd::utf8::valid_utf8_last(bytes@.subrange(0, index as int));
    }
    let ghost pre = bytes@.subrange(0, index as int);
    let ghost l = length_of_last_scalar(pre);

    // 0xxxxxxx
    // 110xxxxx 10xxxxxx
    // 1110xxxx 10xxxxxx 10xxxxxx
    // 11110xxx 10xxxxxx 10xxxxxx 10xxxxxx
    let byte0 = bytes[index - 1];
    assert(byte0 == pre[index - 1]);
    if byte0 < 128 {
        return Some(1);
    }
    proof {
        // a byte at or above 128 just before a boundary is a continuation
        // byte, so the last scalar is at least 2 bytes long
        utf8_byte_ranges_bitwise(byte0);
        assert(is_continuation_byte(byte0));
        assert(l >= 2);
    }
    let byte1 = bytes[index - 2];
    assert(byte1 == pre[index - 2]);
    proof {
        utf8_byte_ranges_bitwise(byte1);
    }
    if byte1 & 0b11000000 != 0b10000000 {
        return Some(2);
    }
    proof {
        assert(l >= 3);
    }
    let byte2 = bytes[index - 3];
    assert(byte2 == pre[index - 3]);
    proof {
        utf8_byte_ranges_bitwise(byte2);
    }
    if byte2 & 0b11000000 != 0b10000000 {
        return Some(3);
    }
    Some(4)
}

/// Move `index` one codepoint forward over `bytes`.  Returns `true` when
/// `index` moved, `false` when it was already at (or past) the end.
pub(crate) fn step_next(bytes: &[u8], index: &mut usize) -> (moved: bool)
    requires
        valid_utf8(bytes@),
        *old(index) < bytes@.len() ==> is_char_boundary(bytes@, *old(index) as int),
    ensures
        moved == (*old(index) < bytes@.len()),
        !moved ==> *final(index) == *old(index),
        moved ==> {
            &&& *final(index) == *old(index) + length_of_first_scalar(
                bytes@.subrange(*old(index) as int, bytes@.len() as int),
            )
            &&& *old(index) < *final(index) <= bytes@.len()
            &&& is_char_boundary(bytes@, *final(index) as int)
        },
{
    match cp_len_at(bytes, *index) {
        None => false,
        Some(len) => {
            proof {
                vstd::slice::axiom_spec_len(bytes);
            }
            *index += len;
            true
        },
    }
}

/// Move `index` one codepoint backward over `bytes`.  Returns `true` when
/// `index` moved, `false` when it was at the start (or past the end).
pub(crate) fn step_prev(bytes: &[u8], index: &mut usize) -> (moved: bool)
    requires
        valid_utf8(bytes@),
        *old(index) <= bytes@.len() ==> is_char_boundary(bytes@, *old(index) as int),
    ensures
        moved == (0 < *old(index) <= bytes@.len()),
        !moved ==> *final(index) == *old(index),
        moved ==> {
            &&& *final(index) == *old(index) - length_of_last_scalar(
                bytes@.subrange(0, *old(index) as int),
            )
            &&& 0 <= *final(index) < *old(index)
            &&& is_char_boundary(bytes@, *final(index) as int)
        },
{
    match cp_len_before(bytes, *index) {
        None => false,
        Some(len) => {
            *index -= len;
            true
        },
    }
}

/// Length in bytes of the codepoint starting at byte offset `index` of `s`,
/// classified from the leading byte's high bits, or `None` when `index` is
/// out of bounds (the one-past-the-end position included).
pub fn len_of_codepoint_on(s: &str, index: usize) -> (r: Option<usize>)
    requires
        index < s.spec_bytes().len() ==> is_char_boundary(s.spec_bytes(), index as int),
    ensures
        match r {
            None => index >= s.spec_bytes().len(),
            Some(l) => {
                &&& index < s.spec_bytes().len()
                &&& l == length_of_first_scalar(
                    s.spec_bytes().subrange(index as int, s.spec_bytes().len() as int),
                )
                &&& 1 <= l <= 4
                &&& index + l <= s.spec_bytes().len()
                &&& is_char_boundary(s.spec_bytes(), index + l)
            },
        },
{
    proof {
        encode_utf8_valid_utf8(s@);
    }
    cp_len_at(s.as_bytes(), index)
}

/// For text:
/// ```txt
/// ABCDEFG
///    ^
///    | index
/// ```
/// ... where `A`, `B`, `C`, etc. stand for possibly multi-byte codepoints and
/// `index` points at the first byte of `D`, returns the length in bytes of
/// `C`, found by walking backward over continuation bytes.  Returns `None`
/// when `index` is 0 or out of bounds.
pub fn len_of_prev_codepoint(s: &str, index: usize) -> (r: Option<usize>)
    requires
        index <= s.spec_bytes().len() ==> is_char_boundary(s.spec_bytes(), index as int),
    ensures
        match r {
            None => index == 0 || index > s.spec_bytes().len(),
            Some(l) => {
                &&& 0 < index <= s.spec_bytes().len()
                &&& l == length_of_last_scalar(s.spec_bytes().subrange(0, index as int))
                &&& 1 <= l <= index
                &&& is_char_boundary(s.spec_bytes(), index - l)
            },
        },
{
    proof {
        encode_utf8_valid_utf8(s@);
    }
    cp_len_before(s.as_bytes(), index)
}

/// Move `index` one codepoint forward.  Returns `true` when `index` moved,
/// `false` when it stayed because of the buffer's bounds.  `index` may be
/// one-past-the-end.
pub fn index_next(s: &str, index: &mut usize) -> (moved: bool)
    requires
        *old(index) < s.spec_bytes().len() ==> is_char_boundary(
            s.spec_bytes(),
            *old(index) as int,
        ),
    ensures
        moved == (*old(index) < s.spec_bytes().len()),
        !moved ==> *final(index) == *old(index),
        moved ==> {
            &&& *final(index) == *old(index) + length_of_first_scalar(
                s.spec_bytes().subrange(*old(index) as int, s.spec_bytes().len() as int),
            )
            &&& *old(index) < *final(index) <= s.spec_bytes().len()
            &&& is_char_boundary(s.spec_bytes(), *final(index) as int)
        },
{
    proof {
        encode_utf8_valid_utf8(s@);
    }
    step_next(s.as_bytes(), index)
}

/// Move `index` one codepoint backward.  Returns `true` when `index` moved,
/// `false` when it stayed because of the buffer's bounds.
pub fn index_prev(s: &str, index: &mut usize) -> (moved: bool)
    requires
        *old(index) <= s.spec_bytes().len() ==> is_char_boundary(
            s.spec_bytes(),
            *old(index) as int,
        ),
    ensures
        moved == (0 < *old(index) <= s.spec_bytes().len()),
        !moved ==> *final(index) == *old(index),
        moved ==> {
            &&& *final(index) == *old(index) - length_of_last_scalar(
                s.spec_bytes().subrange(0, *old(index) as int),
            )
            &&& 0 <= *final(index) < *old(index)
            &&& is_char_boundary(s.spec_bytes(), *final(index) as int)
        },
{
    proof {
        encode_utf8_valid_utf8(s@);
    }
    step_prev(s.as_bytes(), index)
}

/// The UTF-8 encoding of one character, computed from its scalar value.
pub(crate) fn encode_char(c: char) -> (r: Vec<u8>)
    ensures
        r@ == encode_scalar(c as u32),
        1 <= r@.len() <= 4,
{
    proof {
        char_is_scalar(c);
        lemma_encode_scalar_single(c);
    }
    let v = c as u32;
    let mut r: Vec<u8> = Vec::new();
    if v <= 0x7f {
        r.push((v & 0x7f) as u8);
    } else if v <= 0x7ff {
        assert((v >> 6) & 0x1f <= 0x1f) by (bit_vector);
        assert(v & 0x3f <= 0x3f) by (bit_vector);
        r.push(0xc0 | ((v >> 6) & 0x1f) as u8);
        r.push(0x80 | (v & 0x3f) as u8);
    } else if v <= 0xffff {
        assert((v >> 12) & 0x0f <= 0x0f) by (bit_vector);
        assert((v >> 6) & 0x3f <= 0x3f) by (bit_vector);
        assert(v & 0x3f <= 0x3f) by (bit_vector);
        r.push(0xe0 | ((v >> 12) & 0x0f) as u8);
        r.push(0x80 | ((v >> 6) & 0x3f) as u8);
        r.push(0x80 | (v & 0x3f) as u8);
    } else {
        assert((v >> 18) & 0x07 <= 0x07) by (bit_vector);
        assert((v >> 12) & 0x3f <= 0x3f) by (bit_vector);
        assert((v >> 6) & 0x3f <= 0x3f) by (bit_vector);
        assert(v & 0x3f <= 0x3f) by (bit_vector);
        r.push(0xf0 | ((v >> 18) & 0x07) as u8);
        r.push(0x80 | ((v >> 12) & 0x3f) as u8);
        r.push(0x80 | ((v >> 6) & 0x3f) as u8);
        r.push(0x80 | (v & 0x3f) as u8);
    }
    assert(r@ =~= encode_scalar(c as u32));
    r
}

} // verus!
