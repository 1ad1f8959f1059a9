//! Text as bytes: where a character starts, and searching.

use vstd::prelude::*;
use vstd::string::*;
use vstd::utf8::{
    encode_utf8, encode_utf8_valid_utf8, is_char_boundary,
    is_char_boundary_iff_not_is_continuation_byte, is_char_boundary_start_end_of_seq,
    length_of_first_scalar, pop_first_scalar, valid_first_scalar, valid_utf8, valid_utf8_split,
};

verus! {

/// `needle` stands in `haystack` at position `i`.
pub open spec fn occurs_at(haystack: Seq<u8>, needle: Seq<u8>, i: int) -> bool {
    0 <= i && i + needle.len() <= haystack.len() && haystack.subrange(i, i + needle.len())
        == needle
}

/// `memchr::memmem::find`: the first position at which `needle` stands in `haystack`, or `None`
/// where it stands nowhere.
#[verifier::external_body]
pub(crate) fn find_bytes(haystack: &[u8], needle: &[u8]) -> (r: Option<usize>)
    ensures
        match r {
            Some(i) => occurs_at(haystack@, needle@, i as int) && forall|k: int|
                0 <= k < i ==> !#[trigger] occurs_at(haystack@, needle@, k),
            None => forall|k: int| !#[trigger] occurs_at(haystack@, needle@, k),
        },
{
    memchr::memmem::find(haystack, needle)
}

/// `memchr::memchr`: the first position at which `byte` stands in `haystack`, or `None` where it
/// stands nowhere.
#[verifier::external_body]
pub(crate) fn find_byte(byte: u8, haystack: &[u8]) -> (r: Option<usize>)
    ensures
        match r {
            Some(i) => i < haystack@.len() && haystack@[i as int] == byte && forall|k: int|
                0 <= k < i ==> #[trigger] haystack@[k] != byte,
            None => forall|k: int| 0 <= k < haystack@.len() ==> #[trigger] haystack@[k] != byte,
        },
{
    memchr::memchr(byte, haystack)
}

/// The bytes of two texts one after the other.
pub proof fn lemma_encode_concat(a: Seq<char>, b: Seq<char>)
    ensures
        encode_utf8(a + b) == encode_utf8(a) + encode_utf8(b),
    decreases a.len(),
{
    if a.len() == 0 {
        assert(a + b =~= b);
        assert(encode_utf8(a) + encode_utf8(b) =~= encode_utf8(b));
    } else {
        assert((a + b).drop_first() =~= a.drop_first() + b);
        lemma_encode_concat(a.drop_first(), b);
        assert(encode_utf8(a + b) =~= encode_utf8(a) + encode_utf8(b));
    }
}

/// Where a valid prefix ends, a character starts.
pub proof fn lemma_prefix_boundary(bytes: Seq<u8>, n: int)
    requires
        valid_utf8(bytes),
        0 <= n <= bytes.len(),
        valid_utf8(bytes.take(n)),
    ensures
        is_char_boundary(bytes, n),
    decreases bytes.len(),
{
    if n > 0 {
        let p = bytes.take(n);
        assert(valid_first_scalar(p));
        assert(p[0] == bytes[0]);
        let l = length_of_first_scalar(bytes);
        assert(l == length_of_first_scalar(p));
        assert(l <= n);
        assert(pop_first_scalar(bytes).take(n - l) =~= pop_first_scalar(p));
        lemma_prefix_boundary(pop_first_scalar(bytes), n - l);
    }
}

/// Boundaries carry over to what follows a boundary.
pub proof fn lemma_boundary_in_tail(bytes: Seq<u8>, i: int, j: int)
    requires
        valid_utf8(bytes),
        0 <= i <= j <= bytes.len(),
        is_char_boundary(bytes, i),
    ensures
        valid_utf8(bytes.subrange(i, bytes.len() as int)),
        is_char_boundary(bytes, j) <==> is_char_boundary(
            bytes.subrange(i, bytes.len() as int),
            j - i,
        ),
{
    let tail = bytes.subrange(i, bytes.len() as int);
    valid_utf8_split(bytes, i);
    is_char_boundary_start_end_of_seq(bytes);
    is_char_boundary_start_end_of_seq(tail);
    if j < bytes.len() {
        is_char_boundary_iff_not_is_continuation_byte(bytes, j);
        is_char_boundary_iff_not_is_continuation_byte(tail, j - i);
        assert(tail[j - i] == bytes[j]);
    }
}

/// Valid text stands in valid text between characters.
pub proof fn lemma_occurrence_boundaries(bytes: Seq<u8>, needle: Seq<u8>, i: int)
    requires
        valid_utf8(bytes),
        valid_utf8(needle),
        needle.len() > 0,
        occurs_at(bytes, needle, i),
    ensures
        is_char_boundary(bytes, i),
        is_char_boundary(bytes, (i + needle.len()) as int),
{
    let n = needle.len() as int;
    assert(bytes.subrange(i, i + n)[0] == bytes[i]);
    is_char_boundary_start_end_of_seq(needle);
    is_char_boundary_iff_not_is_continuation_byte(needle, 0);
    is_char_boundary_iff_not_is_continuation_byte(bytes, i);
    let tail = bytes.subrange(i, bytes.len() as int);
    lemma_boundary_in_tail(bytes, i, i + n);
    assert(tail.take(n) =~= needle);
    lemma_prefix_boundary(tail, n);
}

/// Before and after an ASCII byte a character starts.
pub proof fn lemma_ascii_boundaries(bytes: Seq<u8>, i: int)
    requires
        valid_utf8(bytes),
        0 <= i < bytes.len(),
        bytes[i] < 0x80,
    ensures
        is_char_boundary(bytes, i),
        is_char_boundary(bytes, i + 1),
{
    is_char_boundary_iff_not_is_continuation_byte(bytes, i);
    let tail = bytes.subrange(i, bytes.len() as int);
    lemma_boundary_in_tail(bytes, i, i + 1);
    assert(tail[0] == bytes[i]);
    assert(valid_first_scalar(tail));
    assert(length_of_first_scalar(tail) == 1);
    assert(is_char_boundary(tail, 1)) by {
        reveal_with_fuel(is_char_boundary, 2);
    }
}

/// The part of `text` between two character boundaries.
pub fn byte_slice<'a>(text: &'a str, from: usize, to: usize) -> (r: &'a str)
    requires
        from <= to <= encode_utf8(text@).len(),
        is_char_boundary(encode_utf8(text@), from as int),
        is_char_boundary(encode_utf8(text@), to as int),
    ensures
        encode_utf8(r@) == encode_utf8(text@).subrange(from as int, to as int),
{
    let ghost bytes = encode_utf8(text@);
    proof {
        encode_utf8_valid_utf8(text@);
        lemma_boundary_in_tail(bytes, from as int, to as int);
    }
    let (_, tail) = text.split_at(from);
    let (r, _) = tail.split_at(to - from);
    assert(encode_utf8(r@) =~= bytes.subrange(from as int, to as int));
    r
}

} // verus!
