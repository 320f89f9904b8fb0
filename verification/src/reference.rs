//! Lending a table of artists and their works, or handing it over.

use crate::text::{same_text, sort_texts, sorted};
use vstd::prelude::*;

verus! {

/// A record with one number, reached through a borrow.
pub struct Label {
    pub number: u32,
}

/// std's `ptr::eq` on two borrowed numbers: whether both point to the same
/// place in memory. One place holds one number, so borrows of the same place
/// are borrows of equal numbers; the other way round nothing is said, since
/// two places can hold equal numbers.
#[verifier::external_body]
fn same_place(a: &i32, b: &i32) -> (same: bool)
    ensures
        same ==> *a == *b,
{
    std::ptr::eq(a, b)
}

/// Compares two borrowed numbers in both ways: first by what they hold,
/// then by where they are. Borrows of one place are equal in both ways;
/// borrows of two places can only be equal in the first.
pub fn compare_borrows(a: &i32, b: &i32) -> (equal: (bool, bool))
    ensures
        equal.0 == (*a == *b),
        equal.1 ==> equal.0,
{
    (a == b, same_place(a, b))
}

/// An artist and the titles of their works.
struct Entry {
    artist: String,
    works: Vec<String>,
}

/// Artists with the titles of their works. No artist occurs twice, and the
/// table is walked in the order in which its artists first came in.
pub struct Table {
    entries: Vec<Entry>,
}

impl View for Table {
    type V = Map<Seq<char>, Seq<Seq<char>>>;

    /// The works that the table holds for each artist.
    closed spec fn view(&self) -> Map<Seq<char>, Seq<Seq<char>>> {
        works_by_artist(self.entries@)
    }
}

/// The artists of `entries`, in order.
spec fn artists_of(entries: Seq<Entry>) -> Seq<Seq<char>> {
    Seq::new(entries.len(), |i: int| entries[i].artist@)
}

/// The works that `entries` hold for each artist.
spec fn works_by_artist(entries: Seq<Entry>) -> Map<Seq<char>, Seq<Seq<char>>> {
    Map::new(
        |artist: Seq<char>| artists_of(entries).contains(artist),
        |artist: Seq<char>| entries[artists_of(entries).index_of(artist)].works.deep_view(),
    )
}

/// Where no artist is repeated, each entry is the one found for its artist.
proof fn lemma_entry_at(entries: Seq<Entry>, i: int)
    requires
        artists_of(entries).no_duplicates(),
        0 <= i < entries.len(),
    ensures
        works_by_artist(entries).contains_key(entries[i].artist@),
        works_by_artist(entries)[entries[i].artist@] == entries[i].works.deep_view(),
{
    let artist = artists_of(entries)[i];
    assert(artists_of(entries).contains(artist));
    assert(artists_of(entries).index_of(artist) == i);
}

/// An entry for a new artist, put at the end, adds that artist to the map.
proof fn lemma_entry_added(entries: Seq<Entry>, entry: Entry)
    requires
        artists_of(entries).no_duplicates(),
        !artists_of(entries).contains(entry.artist@),
    ensures
        artists_of(entries.push(entry)) == artists_of(entries).push(entry.artist@),
        artists_of(entries.push(entry)).no_duplicates(),
        works_by_artist(entries.push(entry)) == works_by_artist(entries).insert(
            entry.artist@,
            entry.works.deep_view(),
        ),
{
    let after = entries.push(entry);
    assert(artists_of(after) =~= artists_of(entries).push(entry.artist@));
    assert forall|i: int, j: int|
        0 <= i < after.len() && 0 <= j < after.len() && i != j implies artists_of(after)[i]
        != artists_of(after)[j] by {
        if i < entries.len() {
            assert(artists_of(entries).contains(artists_of(entries)[i]));
        }
        if j < entries.len() {
            assert(artists_of(entries).contains(artists_of(entries)[j]));
        }
    }
    let expected = works_by_artist(entries).insert(entry.artist@, entry.works.deep_view());
    assert forall|artist: Seq<char>| works_by_artist(after).contains_key(artist) implies
        #[trigger] expected.contains_key(artist) && works_by_artist(after)[artist]
        == expected[artist] by {
        let k: int = artists_of(after).index_of(artist);
        lemma_entry_at(after, k);
        if k < entries.len() {
            lemma_entry_at(entries, k);
        }
    }
    assert forall|artist: Seq<char>| expected.contains_key(artist) implies works_by_artist(
        after,
    ).contains_key(artist) by {
        if artist == entry.artist@ {
            assert(artists_of(after)[entries.len() as int] == artist);
        } else {
            let k: int = artists_of(entries).index_of(artist);
            assert(artists_of(after)[k] == artist);
        }
    }
    assert(works_by_artist(after) =~= expected);
}

/// New works for the artist at `i` replace the old ones in the map and
/// leave the artists as they were.
proof fn lemma_works_replaced(entries: Seq<Entry>, i: int, entry: Entry)
    requires
        artists_of(entries).no_duplicates(),
        0 <= i < entries.len(),
        entry.artist@ == entries[i].artist@,
    ensures
        artists_of(entries.update(i, entry)) == artists_of(entries),
        works_by_artist(entries.update(i, entry)) == works_by_artist(entries).insert(
            entry.artist@,
            entry.works.deep_view(),
        ),
{
    let after = entries.update(i, entry);
    assert(artists_of(after) =~= artists_of(entries));
    let expected = works_by_artist(entries).insert(entry.artist@, entry.works.deep_view());
    lemma_entry_at(entries, i);
    assert forall|artist: Seq<char>| works_by_artist(after).contains_key(artist) implies
        #[trigger] expected.contains_key(artist) && works_by_artist(after)[artist]
        == expected[artist] by {
        let k: int = artists_of(after).index_of(artist);
        lemma_entry_at(after, k);
        lemma_entry_at(entries, k);
        assert(artists_of(entries)[k] == artist);
        if k != i {
            assert(artists_of(entries)[i] != artist);
        }
    }
    assert(works_by_artist(after) =~= expected);
}

impl Table {
    /// The artists in the order in which the table is walked.
    pub closed spec fn artists(&self) -> Seq<Seq<char>> {
        artists_of(self.entries@)
    }

    #[verifier::type_invariant]
    spec fn artists_are_distinct(&self) -> bool {
        self.artists().no_duplicates()
    }

    /// An empty table.
    pub fn new() -> (table: Table)
        ensures
            table.artists() == Seq::<Seq<char>>::empty(),
            table@ == Map::<Seq<char>, Seq<Seq<char>>>::empty(),
    {
        let table = Table { entries: Vec::new() };
        assert(table.artists() =~= Seq::<Seq<char>>::empty());
        assert(table@ =~= Map::<Seq<char>, Seq<Seq<char>>>::empty());
        table
    }

    /// The number of artists. No artist is counted twice, since none occurs
    /// twice.
    pub fn len(&self) -> (n: usize)
        ensures
            n == self.artists().len(),
            n == self@.dom().len(),
            self.artists().no_duplicates(),
    {
        proof {
            use_type_invariant(self);
            self.lemma_artists_are_the_keys();
            self.artists().unique_seq_to_set();
        }
        self.entries.len()
    }

    /// The artists that the table walks are those for which it holds works,
    /// and there are finitely many of them.
    pub proof fn lemma_artists_are_the_keys(&self)
        ensures
            self@.dom() == self.artists().to_set(),
            self@.dom().finite(),
    {
        assert(self@.dom() =~= self.artists().to_set());
        vstd::seq_lib::seq_to_set_is_finite(self.artists());
    }

    /// The position of `artist`, if the table holds it.
    fn position(&self, artist: &str) -> (found: Option<usize>)
        ensures
            match found {
                Some(i) => i < self.artists().len() && self.artists()[i as int] == artist@,
                None => !self.artists().contains(artist@),
            },
    {
        let mut i: usize = 0;
        while i < self.entries.len()
            invariant
                i <= self.entries@.len(),
                self.artists().len() == self.entries@.len(),
                forall|j: int| 0 <= j < i ==> self.artists()[j] != artist@,
            decreases self.entries@.len() - i,
        {
            if same_text(self.entries[i].artist.as_str(), artist) {
                return Some(i);
            }
            i += 1;
        }
        None
    }

    /// Sets the works of `artist`. An artist that the table already holds
    /// keeps its place and hands back the works it had; a new one goes to the
    /// end.
    pub fn insert(&mut self, artist: String, works: Vec<String>) -> (previous: Option<Vec<String>>)
        ensures
            final(self)@ == old(self)@.insert(artist@, works.deep_view()),
            final(self).artists() == if old(self)@.contains_key(artist@) {
                old(self).artists()
            } else {
                old(self).artists().push(artist@)
            },
            match previous {
                Some(titles) => old(self)@.contains_key(artist@)
                    && titles.deep_view() == old(self)@[artist@],
                None => !old(self)@.contains_key(artist@),
            },
    {
        proof {
            use_type_invariant(&*self);
        }
        let found = self.position(artist.as_str());
        let mut entries: Vec<Entry> = Vec::new();
        std::mem::swap(&mut entries, &mut self.entries);
        match found {
            Some(i) => {
                let mut works = works;
                proof {
                    lemma_entry_at(entries@, i as int);
                }
                std::mem::swap(&mut entries[i].works, &mut works);
                proof {
                    lemma_works_replaced(old(self).entries@, i as int, entries@[i as int]);
                    assert(entries@ =~= old(self).entries@.update(i as int, entries@[i as int]));
                }
                self.entries = entries;
                Some(works)
            },
            None => {
                let entry = Entry { artist, works };
                proof {
                    lemma_entry_added(entries@, entry);
                }
                entries.push(entry);
                self.entries = entries;
                None
            },
        }
    }

    /// The works of `artist`, if the table holds any.
    pub fn get(&self, artist: &str) -> (works: Option<&Vec<String>>)
        ensures
            match works {
                Some(titles) => self@.contains_key(artist@) && titles.deep_view() == self@[artist@],
                None => !self@.contains_key(artist@),
            },
    {
        proof {
            use_type_invariant(self);
        }
        match self.position(artist) {
            Some(i) => {
                proof {
                    lemma_entry_at(self.entries@, i as int);
                }
                Some(&self.entries[i].works)
            },
            None => None,
        }
    }
}

/// The line that stands over an artist's works.
pub open spec fn heading(artist: Seq<char>) -> Seq<char> {
    "works by "@ + artist + ":"@
}

/// The line for one work: a blank, then the title.
pub open spec fn work_line(title: Seq<char>) -> Seq<char> {
    " "@ + title
}

/// The lines for one artist: the heading, then one line for each work.
pub open spec fn lines_of(artist: Seq<char>, works: Seq<Seq<char>>) -> Seq<Seq<char>> {
    seq![heading(artist)] + works.map_values(|title: Seq<char>| work_line(title))
}

/// The lines for `artists`, one artist after another, with the works that
/// `works` holds for each.
pub open spec fn listing(artists: Seq<Seq<char>>, works: Map<Seq<char>, Seq<Seq<char>>>) -> Seq<
    Seq<char>,
>
    decreases artists.len(),
{
    if artists.len() == 0 {
        Seq::empty()
    } else {
        listing(artists.drop_last(), works) + lines_of(artists.last(), works[artists.last()])
    }
}

/// The lines that show a borrowed table: for each artist, in the order of
/// the table, the heading and then the works. The table stays with the
/// caller.
pub fn show_ref(table: &Table) -> (lines: Vec<String>)
    ensures
        lines.deep_view() == listing(table.artists(), table@),
{
    proof {
        use_type_invariant(table);
    }
    let mut lines: Vec<String> = Vec::new();
    let ghost artists = table.artists();
    let mut i: usize = 0;
    assert(lines.deep_view() =~= listing(artists.take(0), table@));
    while i < table.entries.len()
        invariant
            i <= table.entries@.len(),
            artists == table.artists(),
            artists.len() == table.entries@.len(),
            artists.no_duplicates(),
            lines.deep_view() == listing(artists.take(i as int), table@),
        decreases table.entries@.len() - i,
    {
        let entry = &table.entries[i];
        let ghost before = lines.deep_view();
        let ghost titles = entry.works.deep_view();
        let mut head = String::from_str("works by ");
        head.append(entry.artist.as_str());
        head.append(":");
        lines.push(head);
        assert(lines.deep_view() =~= before + seq![heading(artists[i as int])] + titles.take(
            0,
        ).map_values(|title: Seq<char>| work_line(title)));
        let mut j: usize = 0;
        while j < entry.works.len()
            invariant
                j <= entry.works@.len(),
                titles == entry.works.deep_view(),
                lines.deep_view() == before + seq![heading(artists[i as int])] + titles.take(
                    j as int,
                ).map_values(|title: Seq<char>| work_line(title)),
            decreases entry.works@.len() - j,
        {
            let ghost so_far = lines.deep_view();
            let mut line = String::from_str(" ");
            line.append(entry.works[j].as_str());
            lines.push(line);
            proof {
                assert(lines.deep_view() =~= so_far.push(work_line(titles[j as int])));
                assert(titles.take(j as int + 1).map_values(|title: Seq<char>| work_line(title))
                    =~= titles.take(j as int).map_values(|title: Seq<char>| work_line(title)).push(
                    work_line(titles[j as int]),
                ));
            }
            j += 1;
        }
        proof {
            assert(titles.take(j as int) =~= titles);
            lemma_entry_at(table.entries@, i as int);
            assert(artists.take(i as int + 1).drop_last() =~= artists.take(i as int));
            assert(artists.take(i as int + 1).last() == artists[i as int]);
            assert(lines.deep_view() =~= before + lines_of(artists[i as int], titles));
        }
        i += 1;
    }
    assert(artists.take(i as int) =~= artists);
    lines
}

/// The lines that show a table which the caller hands over: the same that
/// [`show_ref`] gives for a borrowed one. The table is gone afterwards.
pub fn show(table: Table) -> (lines: Vec<String>)
    ensures
        lines.deep_view() == listing(table.artists(), table@),
{
    show_ref(&table)
}

/// Puts the works of each artist in order, in a table that the caller
/// lends for the change. The artists stay as they are, each with the works it
/// had.
pub fn sort_works(table: &mut Table)
    ensures
        final(table).artists() == old(table).artists(),
        final(table)@.dom() == old(table)@.dom(),
        forall|artist: Seq<char>| #[trigger]
            old(table)@.contains_key(artist) ==> sorted(final(table)@[artist])
                && final(table)@[artist].to_multiset() == old(table)@[artist].to_multiset(),
{
    proof {
        use_type_invariant(&*table);
    }
    let mut entries: Vec<Entry> = Vec::new();
    std::mem::swap(&mut entries, &mut table.entries);
    let ghost before = entries@;
    let mut i: usize = 0;
    while i < entries.len()
        invariant
            i <= entries@.len(),
            entries@.len() == before.len(),
            forall|k: int| 0 <= k < before.len() ==> entries@[k].artist@ == before[k].artist@,
            forall|k: int|
                0 <= k < i ==> sorted(#[trigger] entries@[k].works.deep_view())
                    && entries@[k].works.deep_view().to_multiset()
                    == before[k].works.deep_view().to_multiset(),
            forall|k: int| i <= k < before.len() ==> entries@[k] == before[k],
        decreases entries@.len() - i,
    {
        sort_texts(&mut entries[i].works);
        i += 1;
    }
    proof {
        assert(artists_of(entries@) =~= artists_of(before));
        assert(works_by_artist(entries@).dom() =~= works_by_artist(before).dom());
        assert forall|artist: Seq<char>| #[trigger]
            works_by_artist(before).contains_key(artist) implies sorted(
            works_by_artist(entries@)[artist],
        ) && works_by_artist(entries@)[artist].to_multiset() == works_by_artist(
            before,
        )[artist].to_multiset() by {
            let k: int = artists_of(before).index_of(artist);
            lemma_entry_at(before, k);
            lemma_entry_at(entries@, k);
        }
    }
    table.entries = entries;
}

} // verus!
