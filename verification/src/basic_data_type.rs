//! Vectors and string slices.

use crate::text::bytes_of;
use vstd::prelude::*;
use vstd::utf8::{
    decode_utf8_split, encode_utf8_decode_utf8, encode_utf8_valid_utf8, is_char_boundary,
};

verus! {

/// The sequence that [`build_vector`] produces.
pub open spec fn example_sequence() -> Seq<i16> {
    seq![10i16, 20i16, 30i16]
}

/// Builds the vector `[10, 20, 30]` by pushing its elements one after another.
pub fn build_vector() -> (v: Vec<i16>)
    ensures
        v@ == example_sequence(),
{
    let mut v = Vec::new();
    v.push(10);
    v.push(20);
    v.push(30);
    v
}

/// Splits `input` at the byte position `mid` into what stands before it and
/// what stands from it on. The position must not lie behind the end of the
/// text nor inside the encoding of a character.
pub fn split_at(input: &str, mid: usize) -> (parts: (&str, &str))
    requires
        is_char_boundary(bytes_of(input@), mid as int),
    ensures
        bytes_of(parts.0@) == bytes_of(input@).subrange(0, mid as int),
        bytes_of(parts.1@) == bytes_of(input@).subrange(mid as int, bytes_of(input@).len() as int),
        parts.0@ + parts.1@ == input@,
{
    let parts = input.split_at(mid);
    proof {
        let bytes = bytes_of(input@);
        encode_utf8_valid_utf8(input@);
        decode_utf8_split(bytes, mid as int);
        encode_utf8_decode_utf8(input@);
        encode_utf8_decode_utf8(parts.0@);
        encode_utf8_decode_utf8(parts.1@);
    }
    parts
}

} // verus!
