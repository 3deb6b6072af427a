//! The inflection-merging scanner.
//!
//! A cursor walks the token sequence once. A non-verb token is emitted
//! unchanged and the cursor advances by one. At a verb token the scanner
//! tries the rules of the priority table in declared order against up to
//! four lookahead tokens; on the first match of arity `a` it emits one
//! merged token — the verb's surface with the rule's suffix appended, the
//! verb's part-of-speech and dictionary form kept — records the rule's tag
//! once, and advances by `a + 1`. If no rule matches, the verb is emitted
//! unchanged and the cursor advances by one.

use vstd::prelude::*;
use crate::rules::{
    first_match, first_match_from, lemma_arity_bounds, lemma_first_match_from, rule_arity,
    rule_look, rule_matches, rule_suffix_from, rule_tag, verb_pos,
};
use crate::tally::{
    bump_spec, lemma_tally_add_bump, lemma_tally_add_empty, tally_add, InflectionTable,
};
use crate::token::{str_eq, token_views, Token, TokenView};

verus! {

/// The token emitted when rule `k` merges at verb token `t`: the verb's
/// surface with the rule's suffix appended, part-of-speech and dictionary
/// form copied from the verb.
pub open spec fn merged_token(t: TokenView, k: int) -> TokenView {
    TokenView { text: t.text + rule_tag(k), pos: t.pos, dictionary_form: t.dictionary_form }
}

/// Whether a merge fires at cursor `i`: the token is a verb and some rule
/// matches its lookahead.
pub open spec fn merges_at(s: Seq<TokenView>, i: int) -> bool {
    s[i].pos == verb_pos() && first_match(s, i) is Some
}

/// How many tokens one step at cursor `i` consumes: `arity + 1` on a merge,
/// otherwise one.
pub open spec fn step_consumed(s: Seq<TokenView>, i: int) -> int {
    if merges_at(s, i) {
        1 + rule_arity(first_match(s, i)->0)
    } else {
        1
    }
}

/// The scan from cursor `i` to the end: the emitted tokens and the tally of
/// inflection tags recorded.
pub open spec fn merge_from(s: Seq<TokenView>, i: int) -> (Seq<TokenView>, Map<Seq<char>, nat>)
    decreases s.len() - i,
        when i >= 0
        via merge_from_dec
{
    if i >= s.len() {
        (Seq::empty(), Map::empty())
    } else if merges_at(s, i) {
        let k = first_match(s, i)->0;
        let rest = merge_from(s, i + 1 + rule_arity(k));
        (seq![merged_token(s[i], k)] + rest.0, bump_spec(rest.1, rule_tag(k)))
    } else {
        let rest = merge_from(s, i + 1);
        (seq![s[i]] + rest.0, rest.1)
    }
}

#[via_fn]
proof fn merge_from_dec(s: Seq<TokenView>, i: int) {
    if 0 <= i < s.len() && merges_at(s, i) {
        lemma_first_match_from(s, i, 0);
        lemma_arity_bounds(first_match(s, i)->0);
    }
}

/// The merged token sequence of a whole scan.
pub open spec fn merged_tokens(s: Seq<TokenView>) -> Seq<TokenView> {
    merge_from(s, 0).0
}

/// The inflection-tag tally of a whole scan.
pub open spec fn inflection_tally(s: Seq<TokenView>) -> Map<Seq<char>, nat> {
    merge_from(s, 0).1
}

/// The cursor is strictly monotonic and never overruns: every step consumes
/// at least one token and at most five (`arity + 1` on a merge, one
/// otherwise), and stays within the sequence, so the scan terminates.
pub proof fn lemma_cursor_advances(s: Seq<TokenView>, i: int)
    requires
        0 <= i < s.len(),
    ensures
        1 <= step_consumed(s, i) <= 5,
        i < i + step_consumed(s, i) <= s.len(),
        merges_at(s, i) ==> step_consumed(s, i) == 1 + rule_arity(first_match(s, i)->0),
        !merges_at(s, i) ==> step_consumed(s, i) == 1,
{
    if merges_at(s, i) {
        lemma_first_match_from(s, i, 0);
        lemma_arity_bounds(first_match(s, i)->0);
    }
}

fn rule_arity_exec(k: usize) -> (a: usize)
    requires
        k < 24,
    ensures
        a as int == rule_arity(k as int),
        1 <= a <= 4,
{
    if k == 0 {
        4
    } else if k <= 2 {
        3
    } else if k <= 12 {
        2
    } else {
        1
    }
}

fn rule_lit(k: usize, j: usize) -> (r: &'static str)
    requires
        k < 24,
        (j as int) < rule_arity(k as int),
    ensures
        r@ == rule_look(k as int, j as int),
{
    match k {
        0 => if j == 0 { "ませ" } else if j == 1 { "ん" } else if j == 2 { "でし" } else { "た" },
        1 => if j == 0 { "させ" } else if j == 1 { "られ" } else { "ない" },
        2 => if j == 0 { "られ" } else if j == 1 { "ませ" } else { "ん" },
        3 => if j == 0 { "させ" } else { "ない" },
        4 => if j == 0 { "させ" } else { "られる" },
        5 => if j == 0 { "なかっ" } else { "た" },
        6 => if j == 0 { "なく" } else { "て" },
        7 => if j == 0 { "まし" } else { "た" },
        8 => if j == 0 { "せ" } else { "ない" },
        9 => if j == 0 { "ませ" } else { "ん" },
        10 => if j == 0 { "られ" } else { "ない" },
        11 => if j == 0 { "られ" } else { "ます" },
        12 => if j == 0 { "れ" } else { "ない" },
        13 => "させる",
        14 => "せる",
        15 => "た",
        16 => "だ",
        17 => "て",
        18 => "で",
        19 => "な",
        20 => "ない",
        21 => "ます",
        22 => "られる",
        _ => "れる",
    }
}

fn rule_matches_exec(tokens: &Vec<Token>, i: usize, k: usize) -> (r: bool)
    requires
        i < tokens@.len(),
        k < 24,
    ensures
        r == rule_matches(token_views(tokens@), i as int, k as int),
{
    let ghost s = token_views(tokens@);
    let a = rule_arity_exec(k);
    if a > tokens.len() - i - 1 {
        return false;
    }
    let mut j: usize = 0;
    while j < a
        invariant
            j <= a,
            k < 24,
            a as int == rule_arity(k as int),
            i + 1 + a <= tokens@.len(),
            tokens@.len() <= usize::MAX,
            s == token_views(tokens@),
            forall|q: int| 0 <= q < j ==> s[i + 1 + q].text == rule_look(k as int, q),
        decreases a - j,
    {
        proof {
            assert(s[i + 1 + j] == tokens@[i + 1 + j as int]@);
        }
        if !str_eq(tokens[i + 1 + j].text.as_str(), rule_lit(k, j)) {
            proof {
                assert(!rule_matches(s, i as int, k as int)) by {
                    assert(s[i + 1 + j as int].text != rule_look(k as int, j as int));
                }
            }
            return false;
        }
        j += 1;
    }
    true
}

fn find_rule(tokens: &Vec<Token>, i: usize) -> (r: Option<usize>)
    requires
        i < tokens@.len(),
    ensures
        match r {
            Some(k) => k < 24 && first_match(token_views(tokens@), i as int) == Some(k as int),
            None => first_match(token_views(tokens@), i as int) is None,
        },
{
    let ghost s = token_views(tokens@);
    let mut k: usize = 0;
    while k < 24
        invariant
            k <= 24,
            i < tokens@.len(),
            s == token_views(tokens@),
            first_match(s, i as int) == first_match_from(s, i as int, k as int),
        decreases 24 - k,
    {
        if rule_matches_exec(tokens, i, k) {
            return Some(k);
        }
        k += 1;
    }
    None
}

fn build_suffix(k: usize, a: usize) -> (suf: String)
    requires
        k < 24,
        a as int == rule_arity(k as int),
    ensures
        suf@ == rule_tag(k as int),
{
    let mut suf = String::new();
    let mut j: usize = 0;
    while j < a
        invariant
            j <= a,
            k < 24,
            a as int == rule_arity(k as int),
            suf@ + rule_suffix_from(k as int, j as int) == rule_tag(k as int),
        decreases a - j,
    {
        let ghost pre = suf@;
        suf.append(rule_lit(k, j));
        proof {
            assert(rule_suffix_from(k as int, j as int) == rule_look(k as int, j as int)
                + rule_suffix_from(k as int, j + 1));
            assert(suf@ + rule_suffix_from(k as int, j + 1) =~= pre + rule_suffix_from(
                k as int,
                j as int,
            ));
        }
        j += 1;
    }
    proof {
        assert(rule_suffix_from(k as int, a as int) =~= Seq::<char>::empty());
        assert(suf@ + Seq::<char>::empty() =~= suf@);
    }
    suf
}

/// Scans one fragment's tokens and returns the merged token sequence and the
/// tally of inflection tags that fired. The tally holds at most one count per
/// tag per consumed token, and the output is never longer than the input.
pub fn process_nodes(tokens: &Vec<Token>) -> (r: (Vec<Token>, InflectionTable))
    ensures
        r.1.wf(),
        token_views(r.0@) == merged_tokens(token_views(tokens@)),
        r.1@ == inflection_tally(token_views(tokens@)),
        r.0@.len() <= tokens@.len(),
        forall|t: Seq<char>| r.1@.dom().contains(t) ==> r.1@[t] <= tokens@.len(),
{
    let ghost s = token_views(tokens@);
    let mut out: Vec<Token> = Vec::new();
    let mut tally = InflectionTable::new();
    let mut i: usize = 0;
    proof {
        assert(token_views(out@) =~= Seq::<TokenView>::empty());
        assert(token_views(out@) + merge_from(s, 0).0 =~= merge_from(s, 0).0);
        lemma_tally_add_empty(merge_from(s, 0).1);
    }
    while i < tokens.len()
        invariant
            i <= tokens@.len(),
            s == token_views(tokens@),
            tally.wf(),
            merged_tokens(s) == token_views(out@) + merge_from(s, i as int).0,
            inflection_tally(s) == tally_add(tally@, merge_from(s, i as int).1),
            out@.len() <= i,
            forall|t: Seq<char>| tally@.dom().contains(t) ==> tally@[t] <= i,
        decreases tokens@.len() - i,
    {
        let ghost out_pre = out@;
        let ghost tally_pre = tally@;
        proof {
            assert(s[i as int] == tokens@[i as int]@);
        }
        let verb = str_eq(tokens[i].pos.as_str(), "動詞");
        let mut step: usize = 1;
        if verb {
            match find_rule(tokens, i) {
                Some(k) => {
                    proof {
                        lemma_first_match_from(s, i as int, 0);
                    }
                    let a = rule_arity_exec(k);
                    let suf = build_suffix(k, a);
                    let mut text = tokens[i].text.clone();
                    text.append(suf.as_str());
                    let pos = tokens[i].pos.clone();
                    let dictionary_form = tokens[i].dictionary_form.clone();
                    out.push(Token { text, pos, dictionary_form });
                    proof {
                        assert(usize::MAX <= u64::MAX);
                        assert(tally@.dom().contains(suf@) ==> tally@[suf@] < u64::MAX);
                    }
                    tally.record_inflection(suf.as_str());
                    step = 1 + a;
                    proof {
                        let ki = k as int;
                        let inext = i + 1 + rule_arity(ki);
                        assert(merges_at(s, i as int));
                        assert(merge_from(s, i as int).0 == seq![merged_token(s[i as int], ki)]
                            + merge_from(s, inext).0);
                        assert(merge_from(s, i as int).1 == bump_spec(
                            merge_from(s, inext).1,
                            rule_tag(ki),
                        ));
                        assert(out@.last()@ == merged_token(s[i as int], ki));
                        assert(token_views(out@) =~= token_views(out_pre).push(
                            merged_token(s[i as int], ki),
                        ));
                        assert(token_views(out_pre).push(merged_token(s[i as int], ki))
                            + merge_from(s, inext).0 =~= token_views(out_pre) + merge_from(
                            s,
                            i as int,
                        ).0);
                        lemma_tally_add_bump(tally_pre, merge_from(s, inext).1, rule_tag(ki));
                    }
                },
                None => {
                    out.push(tokens[i].duplicate());
                    proof {
                        assert(!merges_at(s, i as int));
                        assert(token_views(out@) =~= token_views(out_pre).push(s[i as int]));
                        assert(token_views(out_pre).push(s[i as int]) + merge_from(s, i + 1).0
                            =~= token_views(out_pre) + merge_from(s, i as int).0);
                    }
                },
            }
        } else {
            out.push(tokens[i].duplicate());
            proof {
                assert(!merges_at(s, i as int));
                assert(token_views(out@) =~= token_views(out_pre).push(s[i as int]));
                assert(token_views(out_pre).push(s[i as int]) + merge_from(s, i + 1).0
                    =~= token_views(out_pre) + merge_from(s, i as int).0);
            }
        }
        i += step;
    }
    proof {
        assert(merge_from(s, i as int).0 =~= Seq::<TokenView>::empty());
        assert(token_views(out@) + Seq::<TokenView>::empty() =~= token_views(out@));
        lemma_tally_add_empty(tally@);
        assert(merge_from(s, i as int).1 =~= Map::<Seq<char>, nat>::empty());
    }
    (out, tally)
}

} // verus!
