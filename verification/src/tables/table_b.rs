//! Table B: the definitions of the elements.

use crate::tables::{
    distinct, find_key, lemma_find_key, lemma_find_key_none, lemma_find_key_push, TableBEntry,
};
use vstd::prelude::*;

verus! {

/// The keys of `entries`, in order.
pub open spec fn keys_b(entries: Seq<TableBEntry>) -> Seq<Seq<char>> {
    entries.map_values(|e: TableBEntry| e.fxy@)
}

/// The entry of `entries` that `key` resolves to: the one listed under it,
/// and the first of them where `entries` lists several.
pub open spec fn lookup_b(entries: Seq<TableBEntry>, key: Seq<char>) -> Option<TableBEntry> {
    match find_key(keys_b(entries), key, 0) {
        Some(i) => Some(entries[i]),
        None => None,
    }
}

/// The entry that was given last under `key` among `given`.
pub open spec fn last_b(given: Seq<TableBEntry>, key: Seq<char>) -> Option<TableBEntry>
    decreases given.len(),
{
    if given.len() == 0 {
        None
    } else {
        match last_b(given.drop_first(), key) {
            Some(e) => Some(e),
            None => if given[0].fxy@ == key {
                Some(given[0])
            } else {
                None
            },
        }
    }
}

/// The entries that a table of `given` holds: for each key the entry that
/// was given last under it, as when the entries are put into a map one
/// after the other.
pub open spec fn latest_b(given: Seq<TableBEntry>) -> Seq<TableBEntry>
    decreases given.len(),
{
    if given.len() == 0 {
        Seq::empty()
    } else {
        let later = latest_b(given.drop_first());
        if find_key(keys_b(later), given[0].fxy@, 0) is Some {
            later
        } else {
            later.push(given[0])
        }
    }
}

/// A table holds each key once, and under it the entry that was given last.
pub proof fn lemma_latest_b(given: Seq<TableBEntry>)
    ensures
        distinct(keys_b(latest_b(given))),
        forall|key: Seq<char>| #[trigger] lookup_b(latest_b(given), key) == last_b(given, key),
    decreases given.len(),
{
    if given.len() > 0 {
        let later = latest_b(given.drop_first());
        let first = given[0];
        lemma_latest_b(given.drop_first());
        if find_key(keys_b(later), first.fxy@, 0) is None {
            lemma_find_key_none(keys_b(later), first.fxy@, 0);
            assert(keys_b(later.push(first)) =~= keys_b(later).push(first.fxy@));
            assert forall|key: Seq<char>| #[trigger]
                lookup_b(latest_b(given), key) == last_b(given, key) by {
                lemma_find_key_push(keys_b(later), first.fxy@, key, 0);
                lemma_find_key(keys_b(later), key, 0);
                assert(lookup_b(later, key) == last_b(given.drop_first(), key));
            }
        } else {
            assert forall|key: Seq<char>| #[trigger]
                lookup_b(latest_b(given), key) == last_b(given, key) by {
                assert(lookup_b(later, key) == last_b(given.drop_first(), key));
                assert(lookup_b(later, first.fxy@) == last_b(given.drop_first(), first.fxy@));
            }
        }
    }
}

/// The index of the first of `entries` that is listed under `key`.
fn index_of(entries: &Vec<TableBEntry>, key: &String) -> (r: Option<usize>)
    ensures
        match r {
            Some(i) => find_key(keys_b(entries@), key@, 0) == Some(i as int) && i < entries.len(),
            None => find_key(keys_b(entries@), key@, 0) is None,
        },
{
    let ghost keys = keys_b(entries@);
    let mut i: usize = 0;
    while i < entries.len()
        invariant
            i <= entries.len(),
            keys == keys_b(entries@),
            find_key(keys, key@, 0) == find_key(keys, key@, i as int),
        decreases entries.len() - i,
    {
        if entries[i].fxy == *key {
            return Some(i);
        }
        i = i + 1;
    }
    None
}

/// The elements that a decoder knows: a map from canonical text to entry,
/// held as a list in which no key occurs twice.
pub struct TableB {
    entries: Vec<TableBEntry>,
}

impl TableB {
    /// The entries of the table.
    pub closed spec fn entries(&self) -> Seq<TableBEntry> {
        self.entries@
    }

    /// No key occurs twice in the table.
    #[verifier::type_invariant]
    pub closed spec fn wf(&self) -> bool {
        distinct(keys_b(self.entries@))
    }

    /// In a table that is well formed no key occurs twice.
    pub proof fn lemma_distinct(&self)
        requires
            self.wf(),
        ensures
            distinct(keys_b(self.entries())),
    {
    }

    /// The entry that `key` resolves to.
    pub open spec fn lookup(&self, key: Seq<char>) -> Option<TableBEntry> {
        lookup_b(self.entries(), key)
    }

    /// A table of the given entries. Where several entries are given under
    /// one key, the one given last stands, as in a map.
    pub fn new(entries: Vec<TableBEntry>) -> (t: TableB)
        ensures
            t.wf(),
            t.entries() == latest_b(entries@),
    {
        let ghost given = entries@;
        let mut entries = entries;
        let mut kept: Vec<TableBEntry> = Vec::new();
        while entries.len() > 0
            invariant
                entries.len() <= given.len(),
                entries@ == given.subrange(0, entries.len() as int),
                kept@ == latest_b(given.subrange(entries.len() as int, given.len() as int)),
            decreases entries.len(),
        {
            let ghost i = entries.len() - 1;
            assert(given.subrange(i, given.len() as int).drop_first() =~= given.subrange(
                i + 1,
                given.len() as int,
            ));
            match entries.pop() {
                Some(e) => {
                    if index_of(&kept, &e.fxy).is_none() {
                        kept.push(e);
                    }
                },
                None => {},
            }
            assert(entries@ =~= given.subrange(0, i));
        }
        proof {
            assert(given.subrange(0, given.len() as int) =~= given);
            lemma_latest_b(given);
        }
        TableB { entries: kept }
    }

    /// The number of keys of the table.
    pub fn len(&self) -> (n: usize)
        ensures
            n == self.entries().len(),
    {
        self.entries.len()
    }

    /// The entry listed under the canonical text `fxy`.
    pub fn get(&self, fxy: &String) -> (r: Option<&TableBEntry>)
        ensures
            match r {
                Some(e) => self.lookup(fxy@) == Some(*e),
                None => self.lookup(fxy@) is None,
            },
    {
        match index_of(&self.entries, fxy) {
            Some(i) => Some(&self.entries[i]),
            None => None,
        }
    }
}

} // verus!
