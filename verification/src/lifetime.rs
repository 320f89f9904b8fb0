//! Choosing between two borrows that live equally long.

use crate::text::bytes_of;
use vstd::prelude::*;

verus! {

/// Which of two texts [`longest`] picks: the first where its encoding has
/// more bytes, else the second.
pub open spec fn longer_text(first: Seq<char>, second: Seq<char>) -> Seq<char> {
    if bytes_of(first).len() > bytes_of(second).len() {
        first
    } else {
        second
    }
}

/// Returns the borrow of the longer text, by the number of bytes, and the
/// second one where both are equally long. What is returned lives as long as
/// both arguments do.
pub fn longest<'a>(s1: &'a str, s2: &'a str) -> (chosen: &'a str)
    ensures
        chosen@ == longer_text(s1@, s2@),
        bytes_of(s1@).len() > bytes_of(s2@).len() ==> chosen == s1,
        bytes_of(s1@).len() <= bytes_of(s2@).len() ==> chosen == s2,
{
    if s1.as_bytes().len() > s2.as_bytes().len() {
        s1
    } else {
        s2
    }
}

/// The pick is one of the two texts, and none of them is longer than it.
pub proof fn lemma_longer_text_is_longest(first: Seq<char>, second: Seq<char>)
    ensures
        longer_text(first, second) == first || longer_text(first, second) == second,
        bytes_of(longer_text(first, second)).len() >= bytes_of(first).len(),
        bytes_of(longer_text(first, second)).len() >= bytes_of(second).len(),
{
}

/// Of two texts that are equally long the second is picked.
pub proof fn lemma_tie_goes_to_second(first: Seq<char>, second: Seq<char>)
    requires
        bytes_of(first).len() == bytes_of(second).len(),
    ensures
        longer_text(first, second) == second,
{
}

} // verus!
