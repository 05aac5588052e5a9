//! Table D: the definitions of the sequences.

use crate::error::BufrError;
use crate::section3::{lemma_parsed_is_canonical, spec_from_string_form, Descriptor};
use crate::tables::{
    distinct, find_key, lemma_find_key, lemma_find_key_none, lemma_find_key_push, TableDEntry,
};
use vstd::prelude::*;

verus! {

/// The keys of `entries`, in order.
pub open spec fn keys_d(entries: Seq<TableDEntry>) -> Seq<Seq<char>> {
    entries.map_values(|e: TableDEntry| e.fxy@)
}

/// The index of the entry of `entries` that `key` resolves to: the one
/// listed under it, and the first of them where `entries` lists several.
pub open spec fn index_d(entries: Seq<TableDEntry>, key: Seq<char>) -> Option<int> {
    find_key(keys_d(entries), key, 0)
}

/// The entry of `entries` that `key` resolves to.
pub open spec fn lookup_d(entries: Seq<TableDEntry>, key: Seq<char>) -> Option<TableDEntry> {
    match index_d(entries, key) {
        Some(i) => Some(entries[i]),
        None => None,
    }
}

/// The entry that was given last under `key` among `given`.
pub open spec fn last_d(given: Seq<TableDEntry>, key: Seq<char>) -> Option<TableDEntry>
    decreases given.len(),
{
    if given.len() == 0 {
        None
    } else {
        match last_d(given.drop_first(), key) {
            Some(e) => Some(e),
            None => if given[0].fxy@ == key {
                Some(given[0])
            } else {
                None
            },
        }
    }
}

/// The entries that a table of `given` holds: for each key the entry that
/// was given last under it, as when the entries are put into a map one
/// after the other.
pub open spec fn latest_d(given: Seq<TableDEntry>) -> Seq<TableDEntry>
    decreases given.len(),
{
    if given.len() == 0 {
        Seq::empty()
    } else {
        let later = latest_d(given.drop_first());
        if find_key(keys_d(later), given[0].fxy@, 0) is Some {
            later
        } else {
            later.push(given[0])
        }
    }
}

/// A table holds each key once, and under it the entry that was given last.
pub proof fn lemma_latest_d(given: Seq<TableDEntry>)
    ensures
        distinct(keys_d(latest_d(given))),
        forall|key: Seq<char>| #[trigger] lookup_d(latest_d(given), key) == last_d(given, key),
    decreases given.len(),
{
    if given.len() > 0 {
        let later = latest_d(given.drop_first());
        let first = given[0];
        lemma_latest_d(given.drop_first());
        if find_key(keys_d(later), first.fxy@, 0) is None {
            lemma_find_key_none(keys_d(later), first.fxy@, 0);
            assert(keys_d(later.push(first)) =~= keys_d(later).push(first.fxy@));
            assert forall|key: Seq<char>| #[trigger]
                lookup_d(latest_d(given), key) == last_d(given, key) by {
                lemma_find_key_push(keys_d(later), first.fxy@, key, 0);
                lemma_find_key(keys_d(later), key, 0);
                assert(lookup_d(later, key) == last_d(given.drop_first(), key));
            }
        } else {
            assert forall|key: Seq<char>| #[trigger]
                lookup_d(latest_d(given), key) == last_d(given, key) by {
                assert(lookup_d(later, key) == last_d(given.drop_first(), key));
                assert(lookup_d(later, first.fxy@) == last_d(given.drop_first(), first.fxy@));
            }
        }
    }
}

/// The descriptors that the texts `texts` spell, in order, or an error
/// where one of them spells none.
pub open spec fn spec_parse_all(texts: Seq<String>) -> Result<Seq<Descriptor>, BufrError>
    decreases texts.len(),
{
    if texts.len() == 0 {
        Ok(Seq::empty())
    } else {
        match spec_parse_all(texts.drop_last()) {
            Err(e) => Err(e),
            Ok(parsed) => match spec_from_string_form(texts.last()@) {
                Err(e) => Err(e),
                Ok(d) => Ok(parsed.push(d)),
            },
        }
    }
}

/// Where the texts all parse, there is one descriptor for each text.
pub proof fn lemma_parse_all(texts: Seq<String>)
    ensures
        spec_parse_all(texts) matches Ok(parsed) ==> {
            &&& parsed.len() == texts.len()
            &&& forall|k: int|
                0 <= k < texts.len() ==> spec_from_string_form(texts[k]@) == Ok::<
                    Descriptor,
                    BufrError,
                >(#[trigger] parsed[k])
        },
    decreases texts.len(),
{
    if texts.len() > 0 {
        lemma_parse_all(texts.drop_last());
    }
}

/// The entry that the sequence descriptor listed at index `k` of entry `i`
/// expands to. `None` where the text there spells no sequence descriptor, or
/// one that the table does not list.
pub open spec fn child_target(entries: Seq<TableDEntry>, i: int, k: int) -> Option<int> {
    let text = entries[i].elements[k]@;
    match spec_from_string_form(text) {
        Ok(d) => if d.f == 3 {
            index_d(entries, text)
        } else {
            None
        },
        Err(_) => None,
    }
}

/// `rank` gives every entry a number above those of the entries that its
/// sequence descriptors expand to.
pub open spec fn ranked(entries: Seq<TableDEntry>, rank: Seq<nat>) -> bool {
    &&& rank.len() == entries.len()
    &&& forall|i: int, k: int|
        0 <= i < entries.len() && 0 <= k < entries[i].elements.len() ==> (#[trigger] child_target(
            entries,
            i,
            k,
        ) matches Some(j) ==> rank[j] < rank[i])
}

/// No sequence, expanded again and again, comes back to itself.
pub open spec fn acyclic(entries: Seq<TableDEntry>) -> bool {
    exists|rank: Seq<nat>| ranked(entries, rank)
}

/// The sequences that a decoder knows: a map from canonical text to entry,
/// held as a list in which no key occurs twice. The table is acyclic: it
/// holds, for each entry, how deep the expansion of the entry goes.
pub struct TableD {
    entries: Vec<TableDEntry>,
    depths: Vec<usize>,
}

impl TableD {
    /// The entries of the table.
    pub closed spec fn entries(&self) -> Seq<TableDEntry> {
        self.entries@
    }

    /// The depth of the expansion of each entry.
    pub closed spec fn ranks(&self) -> Seq<nat> {
        self.depths@.map_values(|d: usize| d as nat)
    }

    /// No key occurs twice, and every entry lies deeper than the entries
    /// that it expands to.
    #[verifier::type_invariant]
    pub closed spec fn wf(&self) -> bool {
        distinct(keys_d(self.entries@)) && ranked(self.entries@, self.ranks())
    }

    /// In a table that is well formed no key occurs twice, and the table is
    /// acyclic.
    pub proof fn lemma_distinct_and_acyclic(&self)
        requires
            self.wf(),
        ensures
            distinct(keys_d(self.entries())),
            acyclic(self.entries()),
    {
    }

    /// The entry that `key` resolves to.
    pub open spec fn lookup(&self, key: Seq<char>) -> Option<TableDEntry> {
        lookup_d(self.entries(), key)
    }

    /// A number that is larger for a sequence descriptor than for each
    /// sequence descriptor that it expands to; 0 for a descriptor that the
    /// table does not list.
    pub closed spec fn rank_of(&self, d: Descriptor) -> nat {
        match index_d(self.entries@, d.canonical()) {
            Some(i) => self.ranks()[i] + 1,
            None => 0,
        }
    }

    /// The largest rank among the sequence descriptors of `list`.
    pub open spec fn level(&self, list: Seq<Descriptor>) -> nat
        decreases list.len(),
    {
        if list.len() == 0 {
            0
        } else {
            let rest = self.level(list.drop_last());
            let last = if list.last().f == 3 {
                self.rank_of(list.last())
            } else {
                0
            };
            if rest >= last {
                rest
            } else {
                last
            }
        }
    }

    /// No sequence descriptor of a list ranks above the list's level.
    pub proof fn lemma_level_bound(&self, list: Seq<Descriptor>, i: int)
        requires
            0 <= i < list.len(),
            list[i].f == 3,
        ensures
            self.rank_of(list[i]) <= self.level(list),
        decreases list.len(),
    {
        if i < list.len() - 1 {
            self.lemma_level_bound(list.drop_last(), i);
        }
    }

    /// The descriptors that a listed sequence expands to all rank below it.
    pub proof fn lemma_children_level(&self, d: Descriptor, children: Seq<Descriptor>)
        requires
            self.wf(),
            self.lookup(d.canonical()) matches Some(entry) && spec_parse_all(entry.elements@)
                == Ok::<Seq<Descriptor>, BufrError>(children),
        ensures
            self.level(children) < self.rank_of(d),
    {
        let i = index_d(self.entries@, d.canonical())->0;
        lemma_find_key(keys_d(self.entries@), d.canonical(), 0);
        let texts = self.entries@[i].elements@;
        lemma_parse_all(texts);
        self.lemma_level_prefix(i, children, children.len() as int);
        assert(children.subrange(0, children.len() as int) =~= children);
    }

    proof fn lemma_level_prefix(&self, i: int, children: Seq<Descriptor>, n: int)
        requires
            self.wf(),
            0 <= i < self.entries@.len(),
            0 <= n <= children.len(),
            children.len() == self.entries@[i].elements@.len(),
            forall|k: int|
                0 <= k < children.len() ==> spec_from_string_form(self.entries@[i].elements@[k]@)
                    == Ok::<Descriptor, BufrError>(#[trigger] children[k]),
        ensures
            self.level(children.subrange(0, n)) <= self.ranks()[i],
        decreases n,
    {
        if n > 0 {
            self.lemma_level_prefix(i, children, n - 1);
            let prefix = children.subrange(0, n);
            assert(prefix.drop_last() =~= children.subrange(0, n - 1));
            let c = children[n - 1];
            assert(prefix.last() == c);
            if c.f == 3 {
                let text = self.entries@[i].elements@[n - 1]@;
                lemma_parsed_is_canonical(text);
                assert(c.canonical() == text);
                let target = child_target(self.entries@, i, n - 1);
                assert(target == index_d(self.entries@, text));
                if target is Some {
                    lemma_find_key(keys_d(self.entries@), text, 0);
                }
            }
        }
    }

    pub fn len(&self) -> (n: usize)
        ensures
            n == self.entries().len(),
    {
        self.entries.len()
    }

    /// The entry listed under the canonical text `fxy`.
    pub fn get(&self, fxy: &String) -> (r: Option<&TableDEntry>)
        ensures
            match r {
                Some(e) => self.lookup(fxy@) == Some(*e),
                None => self.lookup(fxy@) is None,
            },
    {
        match index_of(&self.entries, fxy) {
            Some(i) => Some(&self.entries[i]),
            None => None,
        }
    }

    /// A table of the given entries, where they are acyclic, and `None`
    /// where a sequence among them leads back to itself. Where several
    /// entries are given under one key, the one given last stands, as in a
    /// map.
    pub fn new(given: Vec<TableDEntry>) -> (r: Option<TableD>)
        ensures
            match r {
                Some(t) => {
                    &&& t.wf()
                    &&& t.entries() == latest_d(given@)
                    &&& acyclic(latest_d(given@))
                },
                None => !acyclic(latest_d(given@)),
            },
    {
        let entries = latest(given);
        let n = entries.len();
        let links = resolve(&entries);
        let mut ranks: Vec<Option<usize>> = Vec::with_capacity(n);
        let mut i: usize = 0;
        while i < n
            invariant
                i <= n,
                ranks.len() == i,
                forall|j: int| 0 <= j < i ==> ranks[j] is None,
            decreases n - i,
        {
            ranks.push(None);
            i = i + 1;
        }
        proof {
            lemma_count_all(ranks@);
        }
        // Round after round, an entry is ranked once all that it expands
        // to were ranked in earlier rounds.
        let mut unranked: usize = n;
        let mut round: usize = 0;
        while unranked > 0
            invariant
                n == entries.len(),
                entries@ == latest_d(given@),
                ranks.len() == n,
                resolved(entries@, links@),
                unranked == count_unranked(ranks@),
                round + unranked <= n,
                partly_ranked(links@, ranks@, round as int),
            decreases unranked,
        {
            let before = unranked;
            let ghost at_start = ranks@;
            let mut i: usize = 0;
            while i < n
                invariant
                    i <= n,
                    n == entries.len(),
                    entries@ == latest_d(given@),
                    ranks.len() == n,
                    resolved(entries@, links@),
                    unranked == count_unranked(ranks@),
                    unranked <= before,
                    before == count_unranked(at_start),
                    round + before <= n,
                    before > 0,
                    partly_ranked(links@, at_start, round as int),
                    partly_ranked(links@, ranks@, round + 1),
                    unranked == before ==> ranks@ == at_start,
                    unranked == before ==> forall|a: int|
                        0 <= a < i && ranks[a] is None ==> #[trigger] blocked(
                            links@[a]@,
                            ranks@,
                            round as int,
                        ),
                decreases n - i,
            {
                if ranks[i].is_none() && all_below(&links[i], &ranks, round) {
                    proof {
                        lemma_count_rank(ranks@, i as int, round);
                    }
                    ranks[i] = Some(round);
                    unranked = unranked - 1;
                }
                i = i + 1;
            }
            if unranked == before {
                proof {
                    lemma_stalled(entries@, links@, ranks@, round as int);
                }
                return None;
            }
            round = round + 1;
        }
        let mut depths: Vec<usize> = Vec::with_capacity(n);
        let mut i: usize = 0;
        while i < n
            invariant
                i <= n,
                ranks.len() == n,
                depths.len() == i,
                count_unranked(ranks@) == 0,
                forall|j: int| 0 <= j < i ==> ranks[j] == Some(#[trigger] depths[j]),
            decreases n - i,
        {
            proof {
                lemma_count_none(ranks@, i as int);
            }
            match ranks[i] {
                Some(v) => depths.push(v),
                None => depths.push(0),
            }
            i = i + 1;
        }
        proof {
            let rank = depths@.map_values(|d: usize| d as nat);
            assert forall|a: int, k: int|
                0 <= a < entries@.len() && 0 <= k < entries@[a].elements.len() implies (
            #[trigger] child_target(entries@, a, k) matches Some(j) ==> rank[j] < rank[a]) by {
                if let Some(j) = child_target(entries@, a, k) {
                    let t = choose|t: int| 0 <= t < links@[a].len() && links@[a][t] == j;
                    assert(below(ranks@, links@[a][t] as int, depths[a] as int));
                }
            }
            assert(ranked(entries@, rank));
        }
        Some(TableD { entries, depths })
    }
}

/// For each key the entry that was given last under it.
fn latest(entries: Vec<TableDEntry>) -> (kept: Vec<TableDEntry>)
    ensures
        kept@ == latest_d(entries@),
        distinct(keys_d(kept@)),
{
    let ghost given = entries@;
    let mut entries = entries;
    let mut kept: Vec<TableDEntry> = Vec::new();
    while entries.len() > 0
        invariant
            entries.len() <= given.len(),
            entries@ == given.subrange(0, entries.len() as int),
            kept@ == latest_d(given.subrange(entries.len() as int, given.len() as int)),
        decreases entries.len(),
    {
        let ghost i = entries.len() - 1;
        assert(given.subrange(i, given.len() as int).drop_first() =~= given.subrange(
            i + 1,
            given.len() as int,
        ));
        match entries.pop() {
            Some(e) => {
                if index_of(&kept, &e.fxy).is_none() {
                    kept.push(e);
                }
            },
            None => {},
        }
        assert(entries@ =~= given.subrange(0, i));
    }
    proof {
        assert(given.subrange(0, given.len() as int) =~= given);
        lemma_latest_d(given);
    }
    kept
}

/// The index of the first of `entries` that is listed under `key`.
fn index_of(entries: &Vec<TableDEntry>, key: &String) -> (r: Option<usize>)
    ensures
        match r {
            Some(i) => index_d(entries@, key@) == Some(i as int) && i < entries.len(),
            None => index_d(entries@, key@) is None,
        },
{
    let ghost keys = keys_d(entries@);
    let mut i: usize = 0;
    while i < entries.len()
        invariant
            i <= entries.len(),
            keys == keys_d(entries@),
            find_key(keys, key@, 0) == find_key(keys, key@, i as int),
        decreases entries.len() - i,
    {
        if entries[i].fxy == *key {
            return Some(i);
        }
        i = i + 1;
    }
    None
}

/// `row` holds the entries that entry `i` expands to, and no others.
pub open spec fn resolved_row(entries: Seq<TableDEntry>, i: int, row: Seq<usize>) -> bool {
    &&& forall|t: int|
        0 <= t < row.len() ==> (#[trigger] row[t]) < entries.len() && exists|k: int|
            0 <= k < entries[i].elements.len() && child_target(entries, i, k) == Some(
                row[t] as int,
            )
    &&& forall|k: int|
        0 <= k < entries[i].elements.len() ==> (#[trigger] child_target(entries, i, k) matches Some(
            j,
        ) ==> exists|t: int| 0 <= t < row.len() && row[t] == j)
}

/// `links` holds, for each entry, the entries that it expands to.
pub open spec fn resolved(entries: Seq<TableDEntry>, links: Seq<Vec<usize>>) -> bool {
    &&& links.len() == entries.len()
    &&& forall|i: int| 0 <= i < entries.len() ==> resolved_row(entries, i, (#[trigger] links[i])@)
}

/// For each entry, the entries that its sequence descriptors expand to.
fn resolve(entries: &Vec<TableDEntry>) -> (links: Vec<Vec<usize>>)
    ensures
        resolved(entries@, links@),
{
    let mut links: Vec<Vec<usize>> = Vec::with_capacity(entries.len());
    let mut i: usize = 0;
    while i < entries.len()
        invariant
            i <= entries.len(),
            links.len() == i,
            forall|a: int| 0 <= a < i ==> resolved_row(entries@, a, (#[trigger] links[a])@),
        decreases entries.len() - i,
    {
        let texts = &entries[i].elements;
        let mut row: Vec<usize> = Vec::new();
        let mut k: usize = 0;
        while k < texts.len()
            invariant
                k <= texts.len(),
                i < entries.len(),
                texts == &entries[i as int].elements,
                forall|t: int|
                    0 <= t < row.len() ==> (#[trigger] row[t]) < entries.len() && exists|c: int|
                        0 <= c < k && child_target(entries@, i as int, c) == Some(row[t] as int),
                forall|c: int|
                    0 <= c < k ==> (#[trigger] child_target(entries@, i as int, c) matches Some(j)
                        ==> exists|t: int| 0 <= t < row.len() && row[t] == j),
            decreases texts.len() - k,
        {
            let ghost before = row@;
            let mut found: Option<usize> = None;
            match Descriptor::from_string_form(texts[k].as_str()) {
                Ok(d) => {
                    if d.f_value() == 3 {
                        found = index_of(entries, &texts[k]);
                    }
                },
                Err(_) => {},
            }
            assert(match found {
                Some(j) => child_target(entries@, i as int, k as int) == Some(j as int),
                None => child_target(entries@, i as int, k as int) is None,
            });
            if let Some(j) = found {
                row.push(j);
                assert(row[row.len() - 1] == j);
                assert forall|t: int| 0 <= t < row.len() implies (#[trigger] row[t])
                    < entries.len() && exists|c: int|
                    0 <= c < k + 1 && child_target(entries@, i as int, c) == Some(
                        row[t] as int,
                    ) by {
                    if t < before.len() {
                        assert(row[t] == before[t]);
                        let c = choose|c: int|
                            0 <= c < k && child_target(entries@, i as int, c) == Some(
                                before[t] as int,
                            );
                        assert(child_target(entries@, i as int, c) == Some(row[t] as int));
                    } else {
                        assert(child_target(entries@, i as int, k as int) == Some(row[t] as int));
                    }
                }
            }
            assert forall|c: int| 0 <= c < k + 1 implies (#[trigger] child_target(
                entries@,
                i as int,
                c,
            ) matches Some(j) ==> exists|t: int| 0 <= t < row.len() && row[t] == j) by {
                if let Some(j) = child_target(entries@, i as int, c) {
                    if c < k {
                        let t = choose|t: int| 0 <= t < before.len() && before[t] == j;
                        assert(row[t] == j);
                    } else {
                        assert(row[row.len() - 1] == j);
                    }
                }
            }
            k = k + 1;
        }
        links.push(row);
        i = i + 1;
    }
    links
}

/// Entry `j` has a rank, and it is below `bound`.
pub open spec fn below(ranks: Seq<Option<usize>>, j: int, bound: int) -> bool {
    ranks[j] matches Some(v) && v < bound
}

/// One of the entries of `row` has no rank below `bound`.
pub open spec fn blocked(row: Seq<usize>, ranks: Seq<Option<usize>>, bound: int) -> bool {
    exists|t: int| 0 <= t < row.len() && !below(ranks, #[trigger] row[t] as int, bound)
}

/// The ranks given so far are below `bound`, and each ranked entry ranks
/// above all that it expands to.
pub open spec fn partly_ranked(
    links: Seq<Vec<usize>>,
    ranks: Seq<Option<usize>>,
    bound: int,
) -> bool {
    forall|i: int|
        0 <= i < ranks.len() ==> ((#[trigger] ranks[i]) matches Some(v) ==> v < bound && forall|
            t: int,
        |
            0 <= t < links[i].len() ==> below(ranks, #[trigger] links[i][t] as int, v as int))
}

/// How many of `ranks` are `None`.
pub open spec fn count_unranked(ranks: Seq<Option<usize>>) -> nat
    decreases ranks.len(),
{
    if ranks.len() == 0 {
        0
    } else {
        count_unranked(ranks.drop_last()) + if ranks.last() is None {
            1nat
        } else {
            0nat
        }
    }
}

proof fn lemma_count_all(ranks: Seq<Option<usize>>)
    requires
        forall|j: int| 0 <= j < ranks.len() ==> ranks[j] is None,
    ensures
        count_unranked(ranks) == ranks.len(),
    decreases ranks.len(),
{
    if ranks.len() > 0 {
        lemma_count_all(ranks.drop_last());
    }
}

/// Where no entry is unranked, each has a rank.
proof fn lemma_count_none(ranks: Seq<Option<usize>>, i: int)
    requires
        count_unranked(ranks) == 0,
        0 <= i < ranks.len(),
    ensures
        ranks[i] is Some,
    decreases ranks.len(),
{
    if i < ranks.len() - 1 {
        lemma_count_none(ranks.drop_last(), i);
    }
}

/// Ranking an unranked entry leaves one fewer unranked.
proof fn lemma_count_rank(ranks: Seq<Option<usize>>, i: int, v: usize)
    requires
        0 <= i < ranks.len(),
        ranks[i] is None,
    ensures
        count_unranked(ranks.update(i, Some(v))) == count_unranked(ranks) - 1,
    decreases ranks.len(),
{
    let after = ranks.update(i, Some(v));
    if i < ranks.len() - 1 {
        lemma_count_rank(ranks.drop_last(), i, v);
        assert(after.drop_last() =~= ranks.drop_last().update(i, Some(v)));
    } else {
        assert(after.drop_last() =~= ranks.drop_last());
    }
}

/// Where some entry is unranked, one can be named.
proof fn lemma_some_unranked(ranks: Seq<Option<usize>>) -> (i: int)
    requires
        count_unranked(ranks) > 0,
    ensures
        0 <= i < ranks.len(),
        ranks[i] is None,
    decreases ranks.len(),
{
    if ranks.last() is None {
        ranks.len() - 1
    } else {
        lemma_some_unranked(ranks.drop_last())
    }
}

/// Where every unranked entry expands to an unranked entry and the entry
/// `i` is unranked, `rank` is no ranking of the table.
proof fn lemma_descent(
    entries: Seq<TableDEntry>,
    links: Seq<Vec<usize>>,
    ranks: Seq<Option<usize>>,
    bound: int,
    rank: Seq<nat>,
    i: int,
)
    requires
        resolved(entries, links),
        ranks.len() == entries.len(),
        partly_ranked(links, ranks, bound),
        forall|a: int|
            0 <= a < ranks.len() && ranks[a] is None ==> #[trigger] blocked(
                links[a]@,
                ranks,
                bound,
            ),
        0 <= i < ranks.len(),
        ranks[i] is None,
    ensures
        !ranked(entries, rank),
    decreases rank[i],
{
    if ranked(entries, rank) {
        assert(blocked(links[i]@, ranks, bound));
        let t = choose|t: int|
            0 <= t < links[i]@.len() && !below(ranks, links[i]@[t] as int, bound);
        let j = links[i]@[t] as int;
        assert(resolved_row(entries, i, links[i]@));
        let k = choose|k: int|
            0 <= k < entries[i].elements.len() && child_target(entries, i, k) == Some(j);
        assert(child_target(entries, i, k) matches Some(x) ==> rank[x] < rank[i]);
        assert(ranks[j] is None);
        lemma_descent(entries, links, ranks, bound, rank, j);
    }
}

/// A round that ranks nothing, with entries still unranked, shows that the
/// table is not acyclic.
proof fn lemma_stalled(
    entries: Seq<TableDEntry>,
    links: Seq<Vec<usize>>,
    ranks: Seq<Option<usize>>,
    bound: int,
)
    requires
        resolved(entries, links),
        ranks.len() == entries.len(),
        count_unranked(ranks) > 0,
        partly_ranked(links, ranks, bound),
        forall|a: int|
            0 <= a < ranks.len() && ranks[a] is None ==> #[trigger] blocked(
                links[a]@,
                ranks,
                bound,
            ),
    ensures
        !acyclic(entries),
{
    if acyclic(entries) {
        let rank = choose|rank: Seq<nat>| ranked(entries, rank);
        let i = lemma_some_unranked(ranks);
        lemma_descent(entries, links, ranks, bound, rank, i);
    }
}

/// Whether every entry of `row` has a rank below `bound`.
fn all_below(row: &Vec<usize>, ranks: &Vec<Option<usize>>, bound: usize) -> (r: bool)
    requires
        forall|t: int| 0 <= t < row.len() ==> (#[trigger] row[t]) < ranks.len(),
    ensures
        r == !blocked(row@, ranks@, bound as int),
{
    let mut t: usize = 0;
    while t < row.len()
        invariant
            t <= row.len(),
            forall|u: int| 0 <= u < row.len() ==> (#[trigger] row[u]) < ranks.len(),
            forall|u: int| 0 <= u < t ==> below(ranks@, #[trigger] row[u] as int, bound as int),
        decreases row.len() - t,
    {
        match ranks[row[t]] {
            Some(v) => {
                if v >= bound {
                    return false;
                }
            },
            None => {
                return false;
            },
        }
        t = t + 1;
    }
    true
}

} // verus!
