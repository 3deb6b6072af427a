//! Per-fragment aggregation: run the scanner over one fragment's tokens and
//! fold the result into a pair of frequency tables.
//!
//! One such pair is kept per record; record pairs are merged per shard and
//! shard pairs into the global accumulator with the tables' `merge_into`,
//! whose commutativity and associativity make the result independent of the
//! order in which record results are reduced.

use vstd::prelude::*;
use crate::merge::{inflection_tally, merge_from, merged_tokens, process_nodes};
use crate::surface::{record_all, record_token, SurfaceTable};
use crate::tally::{tally_add, InflectionTable};
use crate::token::{token_views, Token, TokenView};

verus! {

/// Scans one fragment's tokens and folds them into the two tables: every
/// merged token that passes the script filter is counted in `verbs`, and
/// every inflection tag that fired is counted in `inflections`.
pub fn accumulate_tokens(
    verbs: &mut SurfaceTable,
    inflections: &mut InflectionTable,
    tokens: &Vec<Token>,
)
    requires
        old(verbs).wf(),
        old(inflections).wf(),
        forall|k: Seq<char>|
            old(verbs)@.dom().contains(k) ==> old(verbs)@[k].frequency + tokens@.len()
                <= u64::MAX,
        forall|k: Seq<char>|
            old(inflections)@.dom().contains(k) ==> old(inflections)@[k] + tokens@.len()
                <= u64::MAX,
    ensures
        final(verbs).wf(),
        final(inflections).wf(),
        final(verbs)@ == record_all(old(verbs)@, merged_tokens(token_views(tokens@))),
        final(inflections)@ == tally_add(
            old(inflections)@,
            inflection_tally(token_views(tokens@)),
        ),
{
    let token_count = tokens.len();
    let (merged, tally) = process_nodes(tokens);
    crate::tally::merge_into(inflections, &tally);
    proof {
        assert(token_count == tokens@.len());
    }
    let ghost mseq = token_views(merged@);
    let n = merged.len();
    let mut j: usize = 0;
    proof {
        assert(record_all(old(verbs)@, mseq.take(0)) =~= old(verbs)@);
    }
    while j < n
        invariant
            j <= n,
            n == merged@.len(),
            mseq == token_views(merged@),
            mseq == merged_tokens(token_views(tokens@)),
            mseq.len() == merged@.len(),
            merged@.len() <= tokens@.len(),
            tokens@.len() <= usize::MAX,
            verbs.wf(),
            verbs@ == record_all(old(verbs)@, mseq.take(j as int)),
            forall|k: Seq<char>|
                old(verbs)@.dom().contains(k) ==> old(verbs)@[k].frequency + tokens@.len()
                    <= u64::MAX,
            forall|k: Seq<char>|
                verbs@.dom().contains(k) ==> verbs@[k].frequency + (n - j) <= u64::MAX,
        decreases n - j,
    {
        let ghost prefix = mseq.take(j as int);
        proof {
            assert(mseq.take(j + 1).drop_last() =~= prefix);
            assert(mseq.take(j + 1).last() == mseq[j as int]);
            assert(merged@[j as int]@ == mseq[j as int]);
        }
        let ghost vpre = verbs@;
        verbs.record(&merged[j]);
        proof {
            assert(verbs@ == record_token(vpre, mseq[j as int]));
            assert(verbs@ == record_all(old(verbs)@, mseq.take(j + 1)));
            assert forall|k: Seq<char>| verbs@.dom().contains(k) implies verbs@[k].frequency + (n
                - j - 1) <= u64::MAX by {
                if vpre.dom().contains(k) {
                    assert(verbs@[k].frequency <= vpre[k].frequency + 1);
                } else {
                    assert(verbs@[k].frequency == 1);
                }
            }
        }
        j += 1;
    }
    proof {
        assert(mseq.take(n as int) =~= mseq);
    }
}

/// A fragment with no token at all contributes nothing: the scan emits no
/// token, fires no rule, and recording its (empty) output leaves any pair of
/// tables unchanged.
pub proof fn lemma_empty_fragment_contributes_nothing(
    s: Seq<TokenView>,
    verbs: Map<Seq<char>, crate::surface::EntryView>,
    inflections: Map<Seq<char>, nat>,
)
    requires
        s.len() == 0,
    ensures
        merged_tokens(s) == Seq::<TokenView>::empty(),
        inflection_tally(s) == Map::<Seq<char>, nat>::empty(),
        record_all(verbs, merged_tokens(s)) == verbs,
        tally_add(inflections, inflection_tally(s)) == inflections,
{
    assert(merge_from(s, 0).0 =~= Seq::<TokenView>::empty());
    assert(merge_from(s, 0).1 =~= Map::<Seq<char>, nat>::empty());
    crate::tally::lemma_tally_add_empty(inflections);
}

} // verus!
