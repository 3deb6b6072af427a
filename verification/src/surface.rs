//! The surface-form frequency table, its script filter, and its merge.
//!
//! A table maps each merged surface form to the part-of-speech and
//! dictionary form of the first token that populated the key, plus a count.
//! Later occurrences only raise the count and never revise the other two
//! fields. A surface is admitted only when every character of it is a Han,
//! Katakana or Hiragana character; rejected surfaces are simply not counted.

use vstd::prelude::*;
use crate::token::{str_eq, Token, TokenView};

verus! {

/// One row of the table: a surface form, the part-of-speech and dictionary
/// form recorded when the key first appeared, and its frequency.
pub struct SurfaceEntry {
    pub surface: String,
    pub pos: String,
    pub dictionary_form: String,
    pub frequency: u64,
}

/// The mathematical image of a row's value.
pub struct EntryView {
    pub pos: Seq<char>,
    pub dictionary_form: Seq<char>,
    pub frequency: nat,
}

/// A frequency table over merged surface forms.
pub struct SurfaceTable {
    entries: Vec<SurfaceEntry>,
}

/// Whether `c` is an ASCII letter or an ASCII digit.
pub open spec fn is_ascii_alnum(c: char) -> bool {
    ||| 0x30 <= c as u32 <= 0x39
    ||| 0x41 <= c as u32 <= 0x5a
    ||| 0x61 <= c as u32 <= 0x7a
}

/// Whether some character of `s` is an ASCII letter or digit.
pub open spec fn has_ascii_alnum(s: Seq<char>) -> bool {
    exists|i: int| 0 <= i < s.len() && is_ascii_alnum(s[i])
}

/// Whether a surface consists of one or more characters drawn entirely from
/// the Han, Katakana and Hiragana scripts. The predicate is decided by the
/// script-filter call below and depends on the characters alone.
pub uninterp spec fn target_script_only(s: Seq<char>) -> bool;

/// Relies on `regex::Regex::is_match` with the anchored pattern
/// `^(\p{Han}|\p{Katakana}|\p{Hiragana})+$`: true exactly when the whole
/// string is one or more characters of those scripts. The empty string has
/// no character for `+`, and ASCII letters and digits belong to none of the
/// three scripts, so both fail the filter.
#[verifier::external_body]
fn matches_target_script(s: &str) -> (r: bool)
    ensures
        r == target_script_only(s@),
        s@.len() == 0 ==> !r,
        has_ascii_alnum(s@) ==> !r,
{
    regex::Regex::new(r"^(\p{Han}|\p{Katakana}|\p{Hiragana})+$").unwrap().is_match(s)
}

/// The frequency of `k` in `m`, zero when absent.
pub open spec fn freq_of(m: Map<Seq<char>, EntryView>, k: Seq<char>) -> nat {
    if m.dom().contains(k) {
        m[k].frequency
    } else {
        0
    }
}

/// One occurrence of a surface: insert with frequency one when absent, else
/// raise the frequency only, keeping the first-seen fields.
pub open spec fn surface_record(
    m: Map<Seq<char>, EntryView>,
    key: Seq<char>,
    pos: Seq<char>,
    dict: Seq<char>,
) -> Map<Seq<char>, EntryView> {
    if m.dom().contains(key) {
        m.insert(
            key,
            EntryView {
                pos: m[key].pos,
                dictionary_form: m[key].dictionary_form,
                frequency: m[key].frequency + 1,
            },
        )
    } else {
        m.insert(key, EntryView { pos, dictionary_form: dict, frequency: 1 })
    }
}

/// The filter gate in front of `surface_record`: a token whose surface fails
/// the script filter is not counted.
pub open spec fn record_token(m: Map<Seq<char>, EntryView>, t: TokenView) -> Map<
    Seq<char>,
    EntryView,
> {
    if target_script_only(t.text) {
        surface_record(m, t.text, t.pos, t.dictionary_form)
    } else {
        m
    }
}

/// Recording a whole token sequence, in order.
pub open spec fn record_all(m: Map<Seq<char>, EntryView>, ts: Seq<TokenView>) -> Map<
    Seq<char>,
    EntryView,
>
    decreases ts.len(),
{
    if ts.len() == 0 {
        m
    } else {
        record_token(record_all(m, ts.drop_last()), ts.last())
    }
}

/// `m` with `e` merged at `key`: frequencies added, first-seen fields kept.
pub open spec fn merge_entry(
    m: Map<Seq<char>, EntryView>,
    key: Seq<char>,
    e: EntryView,
) -> Map<Seq<char>, EntryView> {
    if m.dom().contains(key) {
        m.insert(
            key,
            EntryView {
                pos: m[key].pos,
                dictionary_form: m[key].dictionary_form,
                frequency: m[key].frequency + e.frequency,
            },
        )
    } else {
        m.insert(key, e)
    }
}

/// The merge of two surface maps: the union of their keys; a key in both
/// keeps the left side's part-of-speech and dictionary form (the earlier
/// seen) and sums the frequencies.
pub open spec fn surface_add(
    a: Map<Seq<char>, EntryView>,
    b: Map<Seq<char>, EntryView>,
) -> Map<Seq<char>, EntryView> {
    Map::new(
        |k: Seq<char>| a.dom().contains(k) || b.dom().contains(k),
        |k: Seq<char>|
            if a.dom().contains(k) && b.dom().contains(k) {
                EntryView {
                    pos: a[k].pos,
                    dictionary_form: a[k].dictionary_form,
                    frequency: a[k].frequency + b[k].frequency,
                }
            } else if a.dom().contains(k) {
                a[k]
            } else {
                b[k]
            },
    )
}

/// Merging surface maps is associative: grouping does not change the result.
pub proof fn lemma_surface_add_assoc(
    a: Map<Seq<char>, EntryView>,
    b: Map<Seq<char>, EntryView>,
    c: Map<Seq<char>, EntryView>,
)
    ensures
        surface_add(surface_add(a, b), c) == surface_add(a, surface_add(b, c)),
{
    assert(surface_add(surface_add(a, b), c) =~= surface_add(a, surface_add(b, c)));
}

/// Merging surface maps is commutative whenever the two sides agree on the
/// part-of-speech and dictionary form of every shared key. (On a shared key
/// whose recorded fields differ, the merge keeps the left side's, so the
/// orders differ there.)
pub proof fn lemma_surface_add_commutes(
    a: Map<Seq<char>, EntryView>,
    b: Map<Seq<char>, EntryView>,
)
    requires
        forall|k: Seq<char>|
            a.dom().contains(k) && b.dom().contains(k) ==> a[k].pos == b[k].pos
                && a[k].dictionary_form == b[k].dictionary_form,
    ensures
        surface_add(a, b) == surface_add(b, a),
{
    assert(surface_add(a, b) =~= surface_add(b, a));
}

/// The empty map is a unit for merging.
pub proof fn lemma_surface_add_empty(a: Map<Seq<char>, EntryView>)
    ensures
        surface_add(Map::empty(), a) == a,
        surface_add(a, Map::empty()) == a,
{
    assert(surface_add(Map::empty(), a) =~= a);
    assert(surface_add(a, Map::empty()) =~= a);
}

/// Whether two maps record the same part-of-speech and dictionary form for
/// every key they share.
pub open spec fn surface_agree(
    a: Map<Seq<char>, EntryView>,
    b: Map<Seq<char>, EntryView>,
) -> bool {
    forall|k: Seq<char>|
        a.dom().contains(k) && b.dom().contains(k) ==> a[k].pos == b[k].pos
            && a[k].dictionary_form == b[k].dictionary_form
}

/// An accumulator after a batch of local tables has been merged into it,
/// left to right.
pub open spec fn surface_reduce(
    b: Map<Seq<char>, EntryView>,
    ms: Seq<Map<Seq<char>, EntryView>>,
) -> Map<Seq<char>, EntryView> {
    ms.fold_left(
        b,
        |acc: Map<Seq<char>, EntryView>, m: Map<Seq<char>, EntryView>| surface_add(acc, m),
    )
}

/// Any one table of a pairwise-agreeing batch can be merged last instead.
proof fn lemma_surface_reduce_pull_out(
    b: Map<Seq<char>, EntryView>,
    s: Seq<Map<Seq<char>, EntryView>>,
    i: int,
)
    requires
        0 <= i < s.len(),
        forall|m1: Map<Seq<char>, EntryView>, m2: Map<Seq<char>, EntryView>|
            s.contains(m1) && s.contains(m2) ==> surface_agree(m1, m2),
    ensures
        surface_reduce(b, s) == surface_add(surface_reduce(b, s.remove(i)), s[i]),
    decreases s.len(),
{
    if i == s.len() - 1 {
        assert(s.remove(i) =~= s.drop_last());
    } else {
        assert forall|m: Map<Seq<char>, EntryView>| s.drop_last().contains(m) implies s.contains(
            m,
        ) by {
            let j = choose|j: int| 0 <= j < s.drop_last().len() && s.drop_last()[j] == m;
            assert(s[j] == m);
        }
        lemma_surface_reduce_pull_out(b, s.drop_last(), i);
        assert(s.remove(i).drop_last() =~= s.drop_last().remove(i));
        assert(s.remove(i).last() == s.last());
        let rest = surface_reduce(b, s.drop_last().remove(i));
        assert(s.contains(s[i]) && s.contains(s.last()));
        assert(surface_agree(s[i], s.last()));
        lemma_surface_add_assoc(rest, s[i], s.last());
        lemma_surface_add_commutes(s[i], s.last());
        lemma_surface_add_assoc(rest, s.last(), s[i]);
    }
}

/// Reducing the same multiset of local tables into an accumulator gives the
/// same result whatever the order of the reduction, provided the local
/// tables pairwise agree on the part-of-speech and dictionary form of shared
/// keys. (When two local tables disagree on those fields of a shared key,
/// the order decides which is kept, and the results differ there.)
pub proof fn lemma_surface_reduce_order_independent(
    b: Map<Seq<char>, EntryView>,
    s1: Seq<Map<Seq<char>, EntryView>>,
    s2: Seq<Map<Seq<char>, EntryView>>,
)
    requires
        s1.to_multiset() == s2.to_multiset(),
        forall|m1: Map<Seq<char>, EntryView>, m2: Map<Seq<char>, EntryView>|
            s1.contains(m1) && s1.contains(m2) ==> surface_agree(m1, m2),
    ensures
        surface_reduce(b, s1) == surface_reduce(b, s2),
    decreases s1.len(),
{
    broadcast use vstd::seq_lib::group_to_multiset_ensures;

    if s1.len() == 0 {
        assert(s1.to_multiset().len() == s1.len());
        assert(s2.to_multiset().len() == s2.len());
        assert(s1 =~= s2);
    } else {
        assert forall|m: Map<Seq<char>, EntryView>| s2.contains(m) implies s1.contains(m) by {
            assert(s2.to_multiset().count(m) > 0);
            assert(s1.to_multiset().count(m) > 0);
        }
        assert forall|m: Map<Seq<char>, EntryView>| s1.drop_last().contains(m) implies s1
            .contains(m) by {
            let j = choose|j: int| 0 <= j < s1.drop_last().len() && s1.drop_last()[j] == m;
            assert(s1[j] == m);
        }
        let x = s1.last();
        assert(s1[s1.len() - 1] == x);
        assert(s1.contains(x));
        assert(s1.to_multiset().count(x) > 0);
        assert(s2.to_multiset().count(x) > 0);
        assert(s2.contains(x));
        let i = choose|i: int| 0 <= i < s2.len() && s2[i] == x;
        assert(s1.drop_last() =~= s1.remove(s1.len() - 1));
        assert(s1.drop_last().to_multiset() == s2.remove(i).to_multiset()) by {
            assert(s1.remove(s1.len() - 1).to_multiset() =~= s1.to_multiset().remove(x));
            assert(s2.remove(i).to_multiset() =~= s2.to_multiset().remove(x));
        }
        lemma_surface_reduce_order_independent(b, s1.drop_last(), s2.remove(i));
        assert forall|m1: Map<Seq<char>, EntryView>, m2: Map<Seq<char>, EntryView>|
            s2.contains(m1) && s2.contains(m2) implies surface_agree(m1, m2) by {}
        lemma_surface_reduce_pull_out(b, s2, i);
    }
}

/// Merging a fresh key of `b` after a merge is merging it into the merge.
proof fn lemma_surface_add_insert_fresh(
    a: Map<Seq<char>, EntryView>,
    b: Map<Seq<char>, EntryView>,
    key: Seq<char>,
    e: EntryView,
)
    requires
        !b.dom().contains(key),
    ensures
        surface_add(a, b.insert(key, e)) == merge_entry(surface_add(a, b), key, e),
{
    assert(surface_add(a, b.insert(key, e)) =~= merge_entry(surface_add(a, b), key, e));
}

/// The spec image of one row's value.
pub open spec fn entry_view(e: SurfaceEntry) -> EntryView {
    EntryView {
        pos: e.pos@,
        dictionary_form: e.dictionary_form@,
        frequency: e.frequency as nat,
    }
}

/// The surface map a row sequence denotes, later rows taking precedence.
pub closed spec fn surface_map_of(s: Seq<SurfaceEntry>) -> Map<Seq<char>, EntryView>
    decreases s.len(),
{
    if s.len() == 0 {
        Map::empty()
    } else {
        surface_map_of(s.drop_last()).insert(s.last().surface@, entry_view(s.last()))
    }
}

/// Whether no two rows share a surface.
pub closed spec fn surfaces_unique(s: Seq<SurfaceEntry>) -> bool {
    forall|i: int, j: int| 0 <= i < j < s.len() ==> s[i].surface@ != s[j].surface@
}

/// Whether every row passed the script filter and has a positive count.
pub closed spec fn rows_admissible(s: Seq<SurfaceEntry>) -> bool {
    forall|i: int|
        0 <= i < s.len() ==> target_script_only(#[trigger] s[i].surface@) && !has_ascii_alnum(
            s[i].surface@,
        ) && s[i].frequency >= 1
}

proof fn lemma_surface_map_of_dom(s: Seq<SurfaceEntry>, k: Seq<char>)
    ensures
        surface_map_of(s).dom().contains(k) <==> exists|i: int|
            0 <= i < s.len() && s[i].surface@ == k,
    decreases s.len(),
{
    if s.len() > 0 {
        lemma_surface_map_of_dom(s.drop_last(), k);
        if surface_map_of(s).dom().contains(k) {
            if s.last().surface@ == k {
                assert(s[s.len() - 1].surface@ == k);
            } else {
                let i = choose|i: int|
                    0 <= i < s.drop_last().len() && s.drop_last()[i].surface@ == k;
                assert(s[i].surface@ == k);
            }
        }
        if exists|i: int| 0 <= i < s.len() && s[i].surface@ == k {
            let i = choose|i: int| 0 <= i < s.len() && s[i].surface@ == k;
            if i < s.len() - 1 {
                assert(s.drop_last()[i].surface@ == k);
            }
        }
    }
}

proof fn lemma_surface_map_of_at(s: Seq<SurfaceEntry>, i: int)
    requires
        surfaces_unique(s),
        0 <= i < s.len(),
    ensures
        surface_map_of(s).dom().contains(s[i].surface@),
        surface_map_of(s)[s[i].surface@] == entry_view(s[i]),
    decreases s.len(),
{
    if i == s.len() - 1 {
    } else {
        assert(surfaces_unique(s.drop_last()));
        lemma_surface_map_of_at(s.drop_last(), i);
        assert(s.drop_last()[i] == s[i]);
        assert(s[i].surface@ != s.last().surface@);
    }
}

proof fn lemma_surface_map_of_update(s: Seq<SurfaceEntry>, i: int, e: SurfaceEntry)
    requires
        surfaces_unique(s),
        0 <= i < s.len(),
        e.surface@ == s[i].surface@,
    ensures
        surface_map_of(s.update(i, e)) == surface_map_of(s).insert(e.surface@, entry_view(e)),
    decreases s.len(),
{
    if i == s.len() - 1 {
        assert(s.update(i, e).drop_last() =~= s.drop_last());
        assert(surface_map_of(s.update(i, e)) =~= surface_map_of(s).insert(
            e.surface@,
            entry_view(e),
        ));
    } else {
        assert(surfaces_unique(s.drop_last()));
        assert(s.drop_last()[i] == s[i]);
        lemma_surface_map_of_update(s.drop_last(), i, e);
        assert(s.update(i, e).drop_last() =~= s.drop_last().update(i, e));
        assert(s.update(i, e).last() == s.last());
        assert(s[i].surface@ != s.last().surface@);
        assert(surface_map_of(s.update(i, e)) =~= surface_map_of(s).insert(
            e.surface@,
            entry_view(e),
        ));
    }
}

impl View for SurfaceTable {
    type V = Map<Seq<char>, EntryView>;

    closed spec fn view(&self) -> Map<Seq<char>, EntryView> {
        surface_map_of(self.entries@)
    }
}

impl SurfaceTable {
    /// No two rows share a surface, every row passed the script filter, and
    /// every count is at least one.
    pub closed spec fn wf(&self) -> bool {
        surfaces_unique(self.entries@) && rows_admissible(self.entries@)
    }

    /// An empty table.
    pub fn new() -> (r: SurfaceTable)
        ensures
            r.wf(),
            r@ == Map::<Seq<char>, EntryView>::empty(),
    {
        SurfaceTable { entries: Vec::new() }
    }

    fn index_of(&self, key: &str) -> (r: Option<usize>)
        ensures
            match r {
                Some(i) => i < self.entries@.len() && self.entries@[i as int].surface@ == key@,
                None => forall|i: int|
                    0 <= i < self.entries@.len() ==> self.entries@[i].surface@ != key@,
            },
    {
        let n = self.entries.len();
        let mut i: usize = 0;
        while i < n
            invariant
                i <= n,
                n == self.entries@.len(),
                forall|q: int| 0 <= q < i ==> self.entries@[q].surface@ != key@,
            decreases n - i,
        {
            if str_eq(self.entries[i].surface.as_str(), key) {
                return Some(i);
            }
            i += 1;
        }
        None
    }

    fn bump_at(&mut self, i: usize, c: u64)
        requires
            old(self).wf(),
            i < old(self).entries@.len(),
            c >= 1,
            old(self).entries@[i as int].frequency + c <= u64::MAX,
        ensures
            final(self).wf(),
            final(self)@ == old(self)@.insert(
                old(self).entries@[i as int].surface@,
                EntryView {
                    pos: old(self).entries@[i as int].pos@,
                    dictionary_form: old(self).entries@[i as int].dictionary_form@,
                    frequency: (old(self).entries@[i as int].frequency + c) as nat,
                },
            ),
    {
        let surface = self.entries[i].surface.clone();
        let pos = self.entries[i].pos.clone();
        let dictionary_form = self.entries[i].dictionary_form.clone();
        let frequency = self.entries[i].frequency;
        let ghost pre = self.entries@;
        self.entries.set(i, SurfaceEntry { surface, pos, dictionary_form, frequency: frequency + c });
        proof {
            lemma_surface_map_of_update(pre, i as int, self.entries@[i as int]);
            assert(forall|p: int|
                0 <= p < self.entries@.len() && p != i ==> self.entries@[p] == pre[p]);
            assert(surfaces_unique(self.entries@));
            assert(rows_admissible(self.entries@));
        }
    }

    /// Records one occurrence of the token's surface if it passes the script
    /// filter; a surface that fails the filter leaves the table unchanged.
    /// A new key takes the token's part-of-speech and dictionary form; an
    /// existing key only has its frequency raised.
    pub fn record(&mut self, token: &Token)
        requires
            old(self).wf(),
            old(self)@.dom().contains(token@.text) ==> old(self)@[token@.text].frequency
                < u64::MAX,
        ensures
            final(self).wf(),
            final(self)@ == record_token(old(self)@, token@),
    {
        if matches_target_script(token.text.as_str()) {
            match self.index_of(token.text.as_str()) {
                Some(i) => {
                    proof {
                        lemma_surface_map_of_at(self.entries@, i as int);
                        lemma_surface_map_of_dom(self.entries@, token@.text);
                    }
                    self.bump_at(i, 1);
                },
                None => {
                    proof {
                        lemma_surface_map_of_dom(self.entries@, token@.text);
                    }
                    let ghost pre = self.entries@;
                    self.entries.push(
                        SurfaceEntry {
                            surface: token.text.clone(),
                            pos: token.pos.clone(),
                            dictionary_form: token.dictionary_form.clone(),
                            frequency: 1,
                        },
                    );
                    proof {
                        assert(self.entries@.drop_last() =~= pre);
                        assert(forall|p: int| 0 <= p < pre.len() ==> self.entries@[p] == pre[p]);
                        assert(surfaces_unique(self.entries@));
                        assert(rows_admissible(self.entries@));
                    }
                },
            }
        }
    }

    /// The rows of the table, in insertion order: one row per key of the
    /// map, each with the recorded fields and count.
    pub fn rows(&self) -> (r: &Vec<SurfaceEntry>)
        requires
            self.wf(),
        ensures
            forall|i: int| 0 <= i < r@.len() ==> #[trigger] self@.dom().contains(r@[i].surface@)
                && self@[r@[i].surface@] == entry_view(r@[i]),
            forall|k: Seq<char>| self@.dom().contains(k) ==> exists|i: int|
                0 <= i < r@.len() && r@[i].surface@ == k,
    {
        proof {
            assert forall|i: int| 0 <= i < self.entries@.len() implies #[trigger] self@.dom()
                .contains(self.entries@[i].surface@) && self@[self.entries@[i].surface@]
                == entry_view(self.entries@[i]) by {
                lemma_surface_map_of_at(self.entries@, i);
            }
            assert forall|k: Seq<char>| self@.dom().contains(k) implies exists|i: int|
                0 <= i < self.entries@.len() && self.entries@[i].surface@ == k by {
                lemma_surface_map_of_dom(self.entries@, k);
            }
        }
        &self.entries
    }

    /// The recorded frequency of a surface, zero when absent.
    pub fn frequency_of(&self, key: &str) -> (c: u64)
        requires
            self.wf(),
        ensures
            c as nat == freq_of(self@, key@),
    {
        match self.index_of(key) {
            Some(i) => {
                proof {
                    lemma_surface_map_of_at(self.entries@, i as int);
                }
                self.entries[i].frequency
            },
            None => {
                proof {
                    lemma_surface_map_of_dom(self.entries@, key@);
                }
                0
            },
        }
    }
}

/// A surface with an ASCII letter or digit in it is never a key of a
/// well-formed table: the script filter rejected it before any insertion.
pub proof fn lemma_alnum_absent(t: &SurfaceTable, k: Seq<char>)
    requires
        t.wf(),
        has_ascii_alnum(k),
    ensures
        !t@.dom().contains(k),
{
    lemma_surface_map_of_dom(t.entries@, k);
}

/// Merges `source` into `target`: the union of their keys; a key in both
/// keeps `target`'s part-of-speech and dictionary form and sums the
/// frequencies.
pub fn merge_into(target: &mut SurfaceTable, source: &SurfaceTable)
    requires
        old(target).wf(),
        source.wf(),
        forall|k: Seq<char>|
            old(target)@.dom().contains(k) && source@.dom().contains(k) ==> old(
                target,
            )@[k].frequency + source@[k].frequency <= u64::MAX,
    ensures
        final(target).wf(),
        final(target)@ == surface_add(old(target)@, source@),
{
    let n = source.entries.len();
    let mut j: usize = 0;
    proof {
        lemma_surface_add_empty(old(target)@);
        assert(surface_map_of(source.entries@.take(0)) =~= Map::<Seq<char>, EntryView>::empty());
    }
    while j < n
        invariant
            j <= n,
            n == source.entries@.len(),
            target.wf(),
            source.wf(),
            target@ == surface_add(old(target)@, surface_map_of(source.entries@.take(j as int))),
            forall|k: Seq<char>|
                old(target)@.dom().contains(k) && source@.dom().contains(k) ==> old(
                    target,
                )@[k].frequency + source@[k].frequency <= u64::MAX,
        decreases n - j,
    {
        let ghost prefix = source.entries@.take(j as int);
        let ghost entry = source.entries@[j as int];
        proof {
            assert(forall|p: int| 0 <= p < j ==> prefix[p] == source.entries@[p]);
            assert(surfaces_unique(prefix));
            lemma_surface_map_of_dom(prefix, entry.surface@);
            assert(!surface_map_of(prefix).dom().contains(entry.surface@));
            lemma_surface_map_of_at(source.entries@, j as int);
            lemma_surface_map_of_dom(source.entries@, entry.surface@);
            if old(target)@.dom().contains(entry.surface@) {
                assert(old(target)@[entry.surface@].frequency + source@[entry.surface@].frequency
                    <= u64::MAX);
            }
        }
        match target.index_of(source.entries[j].surface.as_str()) {
            Some(i) => {
                proof {
                    lemma_surface_map_of_at(target.entries@, i as int);
                    lemma_surface_map_of_dom(target.entries@, entry.surface@);
                }
                target.bump_at(i, source.entries[j].frequency);
            },
            None => {
                proof {
                    lemma_surface_map_of_dom(target.entries@, entry.surface@);
                }
                let ghost pre = target.entries@;
                target.entries.push(
                    SurfaceEntry {
                        surface: source.entries[j].surface.clone(),
                        pos: source.entries[j].pos.clone(),
                        dictionary_form: source.entries[j].dictionary_form.clone(),
                        frequency: source.entries[j].frequency,
                    },
                );
                proof {
                    assert(target.entries@.drop_last() =~= pre);
                    assert(forall|p: int| 0 <= p < pre.len() ==> target.entries@[p] == pre[p]);
                    assert(surfaces_unique(target.entries@));
                    assert(rows_admissible(target.entries@));
                }
            },
        }
        proof {
            lemma_surface_add_insert_fresh(
                old(target)@,
                surface_map_of(prefix),
                entry.surface@,
                entry_view(entry),
            );
            assert(source.entries@.take(j + 1).drop_last() =~= prefix);
            assert(source.entries@.take(j + 1).last() == entry);
            assert(target@ =~= surface_add(
                old(target)@,
                surface_map_of(source.entries@.take(j + 1)),
            ));
        }
        j += 1;
    }
    proof {
        assert(source.entries@.take(n as int) =~= source.entries@);
    }
}

} // verus!
