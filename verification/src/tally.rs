//! The inflection-tag frequency table and its merge operation.
//!
//! A table maps each inflection tag to how often its pattern fired. Tables
//! are created per record, merged per shard, and merged once more into the
//! global accumulator; `merge_into` sums counts pointwise, and the lemmas
//! below show the sum is commutative and associative.

use vstd::prelude::*;

verus! {

/// One row of the table: a tag and its occurrence count.
pub struct TagCount {
    pub tag: String,
    pub count: u64,
}

/// A frequency table over inflection tags.
pub struct InflectionTable {
    entries: Vec<TagCount>,
}

/// The count of `k` in `m`, zero when absent.
pub open spec fn tally_count(m: Map<Seq<char>, nat>, k: Seq<char>) -> nat {
    if m.dom().contains(k) {
        m[k]
    } else {
        0
    }
}

/// `m` with the count of `k` raised by one.
pub open spec fn bump_spec(m: Map<Seq<char>, nat>, k: Seq<char>) -> Map<Seq<char>, nat> {
    m.insert(k, (tally_count(m, k) + 1) as nat)
}

/// `m` with the count of `k` raised by `c`.
pub open spec fn add_count_spec(m: Map<Seq<char>, nat>, k: Seq<char>, c: nat) -> Map<
    Seq<char>,
    nat,
> {
    m.insert(k, (tally_count(m, k) + c) as nat)
}

/// The pointwise sum of two tag-count maps: the union of their keys, each
/// key counted with the sum of its counts.
pub open spec fn tally_add(a: Map<Seq<char>, nat>, b: Map<Seq<char>, nat>) -> Map<
    Seq<char>,
    nat,
> {
    Map::new(
        |k: Seq<char>| a.dom().contains(k) || b.dom().contains(k),
        |k: Seq<char>| (tally_count(a, k) + tally_count(b, k)) as nat,
    )
}

/// Merging is commutative: the two orders give the same table.
pub proof fn lemma_tally_add_commutes(a: Map<Seq<char>, nat>, b: Map<Seq<char>, nat>)
    ensures
        tally_add(a, b) == tally_add(b, a),
{
    assert(tally_add(a, b) =~= tally_add(b, a));
}

/// Merging is associative: grouping does not change the result.
pub proof fn lemma_tally_add_assoc(
    a: Map<Seq<char>, nat>,
    b: Map<Seq<char>, nat>,
    c: Map<Seq<char>, nat>,
)
    ensures
        tally_add(tally_add(a, b), c) == tally_add(a, tally_add(b, c)),
{
    assert(tally_add(tally_add(a, b), c) =~= tally_add(a, tally_add(b, c)));
}

/// The empty table is a unit for merging.
pub proof fn lemma_tally_add_empty(a: Map<Seq<char>, nat>)
    ensures
        tally_add(Map::empty(), a) == a,
        tally_add(a, Map::empty()) == a,
{
    assert(tally_add(Map::empty(), a) =~= a);
    assert(tally_add(a, Map::empty()) =~= a);
}

/// Raising a count on either side of a merge gives the same merged table.
pub proof fn lemma_tally_add_bump(
    a: Map<Seq<char>, nat>,
    b: Map<Seq<char>, nat>,
    t: Seq<char>,
)
    ensures
        tally_add(a, bump_spec(b, t)) == tally_add(bump_spec(a, t), b),
{
    assert(tally_add(a, bump_spec(b, t)) =~= tally_add(bump_spec(a, t), b));
}

/// An accumulator after a batch of local tables has been merged into it,
/// left to right.
pub open spec fn tally_reduce(
    b: Map<Seq<char>, nat>,
    ms: Seq<Map<Seq<char>, nat>>,
) -> Map<Seq<char>, nat> {
    ms.fold_left(b, |acc: Map<Seq<char>, nat>, m: Map<Seq<char>, nat>| tally_add(acc, m))
}

/// Any one table of the batch can be merged last instead.
proof fn lemma_tally_reduce_pull_out(b: Map<Seq<char>, nat>, s: Seq<Map<Seq<char>, nat>>, i: int)
    requires
        0 <= i < s.len(),
    ensures
        tally_reduce(b, s) == tally_add(tally_reduce(b, s.remove(i)), s[i]),
    decreases s.len(),
{
    if i == s.len() - 1 {
        assert(s.remove(i) =~= s.drop_last());
    } else {
        lemma_tally_reduce_pull_out(b, s.drop_last(), i);
        assert(s.remove(i).drop_last() =~= s.drop_last().remove(i));
        assert(s.remove(i).last() == s.last());
        let rest = tally_reduce(b, s.drop_last().remove(i));
        lemma_tally_add_assoc(rest, s[i], s.last());
        lemma_tally_add_commutes(s[i], s.last());
        lemma_tally_add_assoc(rest, s.last(), s[i]);
    }
}

/// Reducing the same multiset of local tables into an accumulator gives the
/// same result whatever the order of the reduction: the final table does not
/// depend on how concurrently produced local tables were interleaved.
pub proof fn lemma_tally_reduce_order_independent(
    b: Map<Seq<char>, nat>,
    s1: Seq<Map<Seq<char>, nat>>,
    s2: Seq<Map<Seq<char>, nat>>,
)
    requires
        s1.to_multiset() == s2.to_multiset(),
    ensures
        tally_reduce(b, s1) == tally_reduce(b, s2),
    decreases s1.len(),
{
    broadcast use vstd::seq_lib::group_to_multiset_ensures;

    if s1.len() == 0 {
        assert(s1.to_multiset().len() == s1.len());
        assert(s2.to_multiset().len() == s2.len());
        assert(s1 =~= s2);
    } else {
        let x = s1.last();
        assert(s1[s1.len() - 1] == x);
        assert(s1.contains(x));
        assert(s1.to_multiset().count(x) > 0);
        assert(s2.to_multiset().count(x) > 0);
        assert(s2.contains(x));
        let i = choose|i: int| 0 <= i < s2.len() && s2[i] == x;
        assert(s1.drop_last() =~= s1.remove(s1.len() - 1));
        assert(s1.drop_last().to_multiset() == s2.remove(i).to_multiset()) by {
            assert(s1.remove(s1.len() - 1).to_multiset() =~= s1.to_multiset().remove(x));
            assert(s2.remove(i).to_multiset() =~= s2.to_multiset().remove(x));
        }
        lemma_tally_reduce_order_independent(b, s1.drop_last(), s2.remove(i));
        lemma_tally_reduce_pull_out(b, s2, i);
    }
}

/// Adding a fresh key of `b` after a merge is adding it to the merge.
proof fn lemma_tally_add_insert_fresh(
    a: Map<Seq<char>, nat>,
    b: Map<Seq<char>, nat>,
    t: Seq<char>,
    c: nat,
)
    requires
        !b.dom().contains(t),
    ensures
        tally_add(a, b.insert(t, c)) == add_count_spec(tally_add(a, b), t, c),
{
    assert(tally_add(a, b.insert(t, c)) =~= add_count_spec(tally_add(a, b), t, c));
}

/// The tag-count map a row sequence denotes, later rows taking precedence.
pub closed spec fn tally_map_of(s: Seq<TagCount>) -> Map<Seq<char>, nat>
    decreases s.len(),
{
    if s.len() == 0 {
        Map::empty()
    } else {
        tally_map_of(s.drop_last()).insert(s.last().tag@, s.last().count as nat)
    }
}

/// Whether no two rows share a tag.
pub closed spec fn tags_unique(s: Seq<TagCount>) -> bool {
    forall|i: int, j: int| 0 <= i < j < s.len() ==> s[i].tag@ != s[j].tag@
}

/// Whether every row's count is at least one.
pub closed spec fn counts_positive(s: Seq<TagCount>) -> bool {
    forall|i: int| 0 <= i < s.len() ==> s[i].count >= 1
}

proof fn lemma_tally_map_of_dom(s: Seq<TagCount>, k: Seq<char>)
    ensures
        tally_map_of(s).dom().contains(k) <==> exists|i: int|
            0 <= i < s.len() && s[i].tag@ == k,
    decreases s.len(),
{
    if s.len() > 0 {
        lemma_tally_map_of_dom(s.drop_last(), k);
        if tally_map_of(s).dom().contains(k) {
            if s.last().tag@ == k {
                assert(s[s.len() - 1].tag@ == k);
            } else {
                let i = choose|i: int| 0 <= i < s.drop_last().len() && s.drop_last()[i].tag@ == k;
                assert(s[i].tag@ == k);
            }
        }
        if exists|i: int| 0 <= i < s.len() && s[i].tag@ == k {
            let i = choose|i: int| 0 <= i < s.len() && s[i].tag@ == k;
            if i < s.len() - 1 {
                assert(s.drop_last()[i].tag@ == k);
            }
        }
    }
}

proof fn lemma_tally_map_of_at(s: Seq<TagCount>, i: int)
    requires
        tags_unique(s),
        0 <= i < s.len(),
    ensures
        tally_map_of(s).dom().contains(s[i].tag@),
        tally_map_of(s)[s[i].tag@] == s[i].count as nat,
    decreases s.len(),
{
    if i == s.len() - 1 {
    } else {
        assert(tags_unique(s.drop_last()));
        lemma_tally_map_of_at(s.drop_last(), i);
        assert(s.drop_last()[i] == s[i]);
        assert(s[i].tag@ != s.last().tag@);
    }
}

proof fn lemma_tally_map_of_update(s: Seq<TagCount>, i: int, e: TagCount)
    requires
        tags_unique(s),
        0 <= i < s.len(),
        e.tag@ == s[i].tag@,
    ensures
        tally_map_of(s.update(i, e)) == tally_map_of(s).insert(e.tag@, e.count as nat),
    decreases s.len(),
{
    if i == s.len() - 1 {
        assert(s.update(i, e).drop_last() =~= s.drop_last());
        assert(tally_map_of(s.update(i, e)) =~= tally_map_of(s).insert(e.tag@, e.count as nat));
    } else {
        assert(tags_unique(s.drop_last()));
        assert(s.drop_last()[i] == s[i]);
        lemma_tally_map_of_update(s.drop_last(), i, e);
        assert(s.update(i, e).drop_last() =~= s.drop_last().update(i, e));
        assert(s.update(i, e).last() == s.last());
        assert(s[i].tag@ != s.last().tag@);
        assert(tally_map_of(s.update(i, e)) =~= tally_map_of(s).insert(e.tag@, e.count as nat));
    }
}

impl View for InflectionTable {
    type V = Map<Seq<char>, nat>;

    closed spec fn view(&self) -> Map<Seq<char>, nat> {
        tally_map_of(self.entries@)
    }
}

impl InflectionTable {
    /// No two rows share a tag, so the table denotes its map faithfully,
    /// and every recorded count is at least one.
    pub closed spec fn wf(&self) -> bool {
        tags_unique(self.entries@) && counts_positive(self.entries@)
    }

    /// An empty table.
    pub fn new() -> (r: InflectionTable)
        ensures
            r.wf(),
            r@ == Map::<Seq<char>, nat>::empty(),
    {
        InflectionTable { entries: Vec::new() }
    }

    fn index_of(&self, tag: &str) -> (r: Option<usize>)
        ensures
            match r {
                Some(i) => i < self.entries@.len() && self.entries@[i as int].tag@ == tag@,
                None => forall|i: int|
                    0 <= i < self.entries@.len() ==> self.entries@[i].tag@ != tag@,
            },
    {
        let n = self.entries.len();
        let mut i: usize = 0;
        while i < n
            invariant
                i <= n,
                n == self.entries@.len(),
                forall|q: int| 0 <= q < i ==> self.entries@[q].tag@ != tag@,
            decreases n - i,
        {
            if crate::token::str_eq(self.entries[i].tag.as_str(), tag) {
                return Some(i);
            }
            i += 1;
        }
        None
    }

    /// Records one occurrence of `tag`: inserts a count of one when absent,
    /// otherwise raises the count by one.
    pub fn record_inflection(&mut self, tag: &str)
        requires
            old(self).wf(),
            old(self)@.dom().contains(tag@) ==> old(self)@[tag@] < u64::MAX,
        ensures
            final(self).wf(),
            final(self)@ == bump_spec(old(self)@, tag@),
    {
        self.add_count(tag, 1);
    }

    /// Raises the count of `tag` by `c`, inserting it when absent.
    pub fn add_count(&mut self, tag: &str, c: u64)
        requires
            old(self).wf(),
            c >= 1,
            old(self)@.dom().contains(tag@) ==> old(self)@[tag@] + c <= u64::MAX,
        ensures
            final(self).wf(),
            final(self)@ == add_count_spec(old(self)@, tag@, c as nat),
    {
        match self.index_of(tag) {
            Some(i) => {
                proof {
                    lemma_tally_map_of_at(self.entries@, i as int);
                    lemma_tally_map_of_dom(self.entries@, tag@);
                }
                let t = self.entries[i].tag.clone();
                let cnt = self.entries[i].count;
                let ghost pre = self.entries@;
                self.entries.set(i, TagCount { tag: t, count: cnt + c });
                proof {
                    lemma_tally_map_of_update(pre, i as int, self.entries@[i as int]);
                    assert(forall|p: int|
                        0 <= p < self.entries@.len() && p != i ==> self.entries@[p] == pre[p]);
                    assert(tags_unique(self.entries@));
                    assert(counts_positive(self.entries@));
                }
            },
            None => {
                proof {
                    lemma_tally_map_of_dom(self.entries@, tag@);
                }
                let ghost pre = self.entries@;
                self.entries.push(TagCount { tag: tag.to_owned(), count: c });
                proof {
                    assert(self.entries@.drop_last() =~= pre);
                    assert(forall|p: int| 0 <= p < pre.len() ==> self.entries@[p] == pre[p]);
                    assert(tags_unique(self.entries@));
                    assert(counts_positive(self.entries@));
                }
            },
        }
    }

    /// The rows of the table, in insertion order: one row per tag of the
    /// map, each with its recorded count.
    pub fn rows(&self) -> (r: &Vec<TagCount>)
        requires
            self.wf(),
        ensures
            forall|i: int| 0 <= i < r@.len() ==> #[trigger] self@.dom().contains(r@[i].tag@)
                && self@[r@[i].tag@] == r@[i].count as nat,
            forall|k: Seq<char>| self@.dom().contains(k) ==> exists|i: int|
                0 <= i < r@.len() && r@[i].tag@ == k,
    {
        proof {
            assert forall|i: int| 0 <= i < self.entries@.len() implies #[trigger] self@.dom()
                .contains(self.entries@[i].tag@) && self@[self.entries@[i].tag@]
                == self.entries@[i].count as nat by {
                lemma_tally_map_of_at(self.entries@, i);
            }
            assert forall|k: Seq<char>| self@.dom().contains(k) implies exists|i: int|
                0 <= i < self.entries@.len() && self.entries@[i].tag@ == k by {
                lemma_tally_map_of_dom(self.entries@, k);
            }
        }
        &self.entries
    }

    /// The recorded count of `tag`, zero when absent.
    pub fn count_of(&self, tag: &str) -> (c: u64)
        requires
            self.wf(),
        ensures
            c as nat == tally_count(self@, tag@),
    {
        match self.index_of(tag) {
            Some(i) => {
                proof {
                    lemma_tally_map_of_at(self.entries@, i as int);
                }
                self.entries[i].count
            },
            None => {
                proof {
                    lemma_tally_map_of_dom(self.entries@, tag@);
                }
                0
            },
        }
    }
}

/// Merges `source` into `target`: the union of their tags, counts summed.
pub fn merge_into(target: &mut InflectionTable, source: &InflectionTable)
    requires
        old(target).wf(),
        source.wf(),
        forall|k: Seq<char>|
            old(target)@.dom().contains(k) && source@.dom().contains(k) ==> old(target)@[k]
                + source@[k] <= u64::MAX,
    ensures
        final(target).wf(),
        final(target)@ == tally_add(old(target)@, source@),
{
    let n = source.entries.len();
    let mut j: usize = 0;
    proof {
        lemma_tally_add_empty(old(target)@);
        assert(tally_map_of(source.entries@.take(0)) =~= Map::<Seq<char>, nat>::empty());
    }
    while j < n
        invariant
            j <= n,
            n == source.entries@.len(),
            target.wf(),
            source.wf(),
            target@ == tally_add(old(target)@, tally_map_of(source.entries@.take(j as int))),
            forall|k: Seq<char>|
                old(target)@.dom().contains(k) && source@.dom().contains(k) ==> old(target)@[k]
                    + source@[k] <= u64::MAX,
        decreases n - j,
    {
        let ghost prefix = source.entries@.take(j as int);
        let ghost entry = source.entries@[j as int];
        proof {
            assert(tags_unique(prefix)) by {
                assert(forall|p: int| 0 <= p < j ==> prefix[p] == source.entries@[p]);
            }
            lemma_tally_map_of_dom(prefix, entry.tag@);
            assert(!tally_map_of(prefix).dom().contains(entry.tag@)) by {
                assert(forall|p: int| 0 <= p < j ==> prefix[p] == source.entries@[p]);
            }
            lemma_tally_map_of_at(source.entries@, j as int);
            lemma_tally_map_of_dom(source.entries@, entry.tag@);
            if old(target)@.dom().contains(entry.tag@) {
                assert(old(target)@[entry.tag@] + source@[entry.tag@] <= u64::MAX);
            }
            assert(tally_count(target@, entry.tag@) + entry.count as nat <= u64::MAX);
        }
        let cnt = source.entries[j].count;
        target.add_count(source.entries[j].tag.as_str(), cnt);
        proof {
            lemma_tally_add_insert_fresh(
                old(target)@,
                tally_map_of(prefix),
                entry.tag@,
                entry.count as nat,
            );
            assert(source.entries@.take(j + 1).drop_last() =~= prefix);
            assert(source.entries@.take(j + 1).last() == entry);
        }
        j += 1;
    }
    proof {
        assert(source.entries@.take(n as int) =~= source.entries@);
    }
}

} // verus!
