//! Comparing texts by their UTF-8 encoding.

use vstd::multiset::Multiset;
use vstd::prelude::*;
use vstd::relations::{antisymmetric, reflexive, sorted_by, strongly_connected, transitive};
use vstd::utf8::*;

verus! {

/// The bytes that encode `text` in UTF-8.
pub open spec fn bytes_of(text: Seq<char>) -> Seq<u8> {
    encode_utf8(text)
}

/// Two texts with the same encoding are the same text.
pub proof fn lemma_encoding_is_injective(a: Seq<char>, b: Seq<char>)
    requires
        bytes_of(a) == bytes_of(b),
    ensures
        a == b,
{
    encode_utf8_decode_utf8(a);
    encode_utf8_decode_utf8(b);
}

/// Tells whether two string slices hold the same text.
pub fn same_text(a: &str, b: &str) -> (same: bool)
    ensures
        same == (a@ == b@),
{
    let x = a.as_bytes();
    let y = b.as_bytes();
    if x.len() != y.len() {
        return false;
    }
    let mut i: usize = 0;
    while i < x.len()
        invariant
            x@.len() == y@.len(),
            i <= x@.len(),
            x@ == bytes_of(a@),
            y@ == bytes_of(b@),
            forall|j: int| 0 <= j < i ==> x@[j] == y@[j],
        decreases x@.len() - i,
    {
        if x[i] != y[i] {
            return false;
        }
        i += 1;
    }
    proof {
        assert(x@ =~= y@);
        lemma_encoding_is_injective(a@, b@);
    }
    true
}

/// The order of byte strings: position by position, the first byte that
/// differs decides, and a string comes before each of its extensions.
pub open spec fn bytes_le(a: Seq<u8>, b: Seq<u8>) -> bool
    decreases a.len(),
{
    if a.len() == 0 {
        true
    } else if b.len() == 0 {
        false
    } else if a[0] != b[0] {
        a[0] < b[0]
    } else {
        bytes_le(a.drop_first(), b.drop_first())
    }
}

/// The order of texts: that of their encodings.
pub open spec fn text_le(a: Seq<char>, b: Seq<char>) -> bool {
    bytes_le(bytes_of(a), bytes_of(b))
}

/// Of two byte strings one comes no later than the other.
pub proof fn lemma_bytes_le_total(a: Seq<u8>, b: Seq<u8>)
    ensures
        bytes_le(a, b) || bytes_le(b, a),
    decreases a.len(),
{
    if a.len() > 0 && b.len() > 0 && a[0] == b[0] {
        lemma_bytes_le_total(a.drop_first(), b.drop_first());
    }
}

/// The order of byte strings passes on: from `a` to `b` to `c`.
pub proof fn lemma_bytes_le_transitive(a: Seq<u8>, b: Seq<u8>, c: Seq<u8>)
    requires
        bytes_le(a, b),
        bytes_le(b, c),
    ensures
        bytes_le(a, c),
    decreases a.len(),
{
    if a.len() > 0 && a[0] == b[0] && b[0] == c[0] {
        lemma_bytes_le_transitive(a.drop_first(), b.drop_first(), c.drop_first());
    }
}

/// Two byte strings that come no later than each other are the same.
pub proof fn lemma_bytes_le_antisymmetric(a: Seq<u8>, b: Seq<u8>)
    requires
        bytes_le(a, b),
        bytes_le(b, a),
    ensures
        a == b,
    decreases a.len(),
{
    if a.len() > 0 {
        lemma_bytes_le_antisymmetric(a.drop_first(), b.drop_first());
        assert(a =~= seq![a[0]] + a.drop_first());
        assert(b =~= seq![b[0]] + b.drop_first());
    } else {
        assert(a =~= b);
    }
}

/// Tells whether the text of `a` comes no later than that of `b`.
pub fn in_order(a: &str, b: &str) -> (le: bool)
    ensures
        le == text_le(a@, b@),
{
    let x = a.as_bytes();
    let y = b.as_bytes();
    let mut i: usize = 0;
    assert(x@.skip(0) =~= x@ && y@.skip(0) =~= y@);
    while i < x.len() && i < y.len()
        invariant
            i <= x@.len(),
            i <= y@.len(),
            x@ == bytes_of(a@),
            y@ == bytes_of(b@),
            bytes_le(x@, y@) == bytes_le(x@.skip(i as int), y@.skip(i as int)),
        decreases x@.len() - i,
    {
        proof {
            assert(x@.skip(i as int).drop_first() =~= x@.skip(i as int + 1));
            assert(y@.skip(i as int).drop_first() =~= y@.skip(i as int + 1));
        }
        if x[i] != y[i] {
            return x[i] < y[i];
        }
        i += 1;
    }
    x.len() <= y.len()
}

/// Whether each text of `texts` comes no later than all that follow it.
pub open spec fn sorted(texts: Seq<Seq<char>>) -> bool {
    forall|i: int, j: int| 0 <= i < j < texts.len() ==> text_le(texts[i], texts[j])
}

/// A text put into a sorted sequence, behind texts that come no later and
/// before texts that come no earlier, leaves the sequence sorted.
proof fn lemma_insert_keeps_sorted(texts: Seq<Seq<char>>, at: int, text: Seq<char>)
    requires
        sorted(texts),
        0 <= at <= texts.len(),
        forall|k: int| 0 <= k < at ==> text_le(texts[k], text),
        at < texts.len() ==> text_le(text, texts[at]),
    ensures
        sorted(texts.insert(at, text)),
{
    let after = texts.insert(at, text);
    assert forall|i: int, j: int| 0 <= i < j < after.len() implies text_le(after[i], after[j]) by {
        if i == at {
            if j - 1 > at {
                assert(text_le(texts[at], texts[j - 1]));
                lemma_bytes_le_transitive(
                    bytes_of(text),
                    bytes_of(texts[at]),
                    bytes_of(texts[j - 1]),
                );
            }
        } else if j == at {
        } else {
            let i0: int = if i < at { i } else { i - 1 };
            let j0: int = if j < at { j } else { j - 1 };
            assert(text_le(texts[i0], texts[j0]));
        }
    }
}

/// A sorted sequence is the only sorted arrangement of its texts: two sorted
/// sequences that hold the same texts, each as often as the other, are equal.
pub proof fn lemma_sorted_is_unique(a: Seq<Seq<char>>, b: Seq<Seq<char>>)
    requires
        sorted(a),
        sorted(b),
        a.to_multiset() == b.to_multiset(),
    ensures
        a == b,
{
    let le = |x: Seq<char>, y: Seq<char>| text_le(x, y);
    assert(reflexive(le)) by {
        assert forall|x: Seq<char>| #[trigger] le(x, x) by {
            lemma_bytes_le_total(bytes_of(x), bytes_of(x));
        }
    }
    assert(antisymmetric(le)) by {
        assert forall|x: Seq<char>, y: Seq<char>| #[trigger] le(x, y) && #[trigger] le(y, x) implies x
            == y by {
            lemma_bytes_le_antisymmetric(bytes_of(x), bytes_of(y));
            lemma_encoding_is_injective(x, y);
        }
    }
    assert(transitive(le)) by {
        assert forall|x: Seq<char>, y: Seq<char>, z: Seq<char>| #[trigger]
            le(x, y) && #[trigger] le(y, z) implies le(x, z) by {
            lemma_bytes_le_transitive(bytes_of(x), bytes_of(y), bytes_of(z));
        }
    }
    assert(strongly_connected(le)) by {
        assert forall|x: Seq<char>, y: Seq<char>| #[trigger] le(x, y) || #[trigger] le(y, x) by {
            lemma_bytes_le_total(bytes_of(x), bytes_of(y));
        }
    }
    assert(sorted_by(a, le));
    assert(sorted_by(b, le));
    vstd::seq_lib::lemma_sorted_unique(a, b, le);
}

/// The empty sequence holds no text, however often.
proof fn lemma_nothing_in_empty()
    ensures
        Seq::<Seq<char>>::empty().to_multiset() == Multiset::<Seq<char>>::empty(),
{
    broadcast use vstd::seq_lib::to_multiset_contains;

    assert(Seq::<Seq<char>>::empty().to_multiset() =~= Multiset::<Seq<char>>::empty());
}

/// Puts the strings of `texts` in order, each no later than all that follow
/// it. The strings are taken from the end and put in their place among those
/// already in order, so the time grows with the square of their number.
pub fn sort_texts(texts: &mut Vec<String>)
    ensures
        sorted(final(texts).deep_view()),
        final(texts).deep_view().to_multiset() == old(texts).deep_view().to_multiset(),
{
    let ghost given = texts.deep_view();
    let mut done: Vec<String> = Vec::new();
    proof {
        assert(done.deep_view() =~= Seq::<Seq<char>>::empty());
        lemma_nothing_in_empty();
        assert(Multiset::<Seq<char>>::empty().add(given.to_multiset())
            =~= given.to_multiset());
    }
    while texts.len() > 0
        invariant
            sorted(done.deep_view()),
            done.deep_view().to_multiset().add(texts.deep_view().to_multiset())
                == given.to_multiset(),
        decreases texts@.len(),
    {
        let ghost left = texts.deep_view();
        let ghost placed = done.deep_view();
        let text = texts.pop().unwrap();
        proof {
            assert(left =~= texts.deep_view().push(text@));
            vstd::seq_lib::to_multiset_build(texts.deep_view(), text@);
        }
        let mut at: usize = 0;
        while at < done.len() && !in_order(text.as_str(), done[at].as_str())
            invariant
                at <= done@.len(),
                placed == done.deep_view(),
                forall|k: int| 0 <= k < at ==> text_le(placed[k], text@),
            decreases done@.len() - at,
        {
            proof {
                lemma_bytes_le_total(bytes_of(text@), bytes_of(placed[at as int]));
            }
            at += 1;
        }
        proof {
            lemma_insert_keeps_sorted(placed, at as int, text@);
            vstd::seq_lib::to_multiset_insert(placed, at as int, text@);
        }
        done.insert(at, text);
        proof {
            assert(done.deep_view() =~= placed.insert(at as int, text@));
            assert(placed.to_multiset().insert(text@).add(texts.deep_view().to_multiset())
                =~= placed.to_multiset().add(texts.deep_view().to_multiset().insert(text@)));
        }
    }
    proof {
        assert(texts.deep_view() =~= Seq::<Seq<char>>::empty());
        lemma_nothing_in_empty();
        assert(done.deep_view().to_multiset().add(Multiset::<Seq<char>>::empty())
            =~= done.deep_view().to_multiset());
    }
    *texts = done;
}

} // verus!
