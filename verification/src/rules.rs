//! The priority-ordered table of inflection suffix patterns.
//!
//! A rule is a tuple of up to four lookahead surface literals. Rules are
//! tried strictly in declared order and the first rule whose lookahead
//! slots all match wins; longer, more specific rules are deliberately
//! declared before shorter ones that match a prefix of the same lookahead.
//! The inflection tag of a rule is the concatenation of its lookaheads.

use vstd::prelude::*;
use crate::token::TokenView;

verus! {

/// The part-of-speech tag that marks a verb token.
pub open spec fn verb_pos() -> Seq<char> {
    "動詞"@
}

/// How many rules the table holds.
pub open spec fn rule_count() -> int {
    24
}

/// How many lookahead tokens rule `k` consumes.
pub open spec fn rule_arity(k: int) -> int {
    if k == 0 {
        4
    } else if 1 <= k <= 2 {
        3
    } else if 3 <= k <= 12 {
        2
    } else {
        1
    }
}

/// Lookahead slot `j` of rule `k`.
pub open spec fn rule_look(k: int, j: int) -> Seq<char> {
    if k == 0 {
        if j == 0 { "ませ"@ } else if j == 1 { "ん"@ } else if j == 2 { "でし"@ } else { "た"@ }
    } else if k == 1 {
        if j == 0 { "させ"@ } else if j == 1 { "られ"@ } else { "ない"@ }
    } else if k == 2 {
        if j == 0 { "られ"@ } else if j == 1 { "ませ"@ } else { "ん"@ }
    } else if k == 3 {
        if j == 0 { "させ"@ } else { "ない"@ }
    } else if k == 4 {
        if j == 0 { "させ"@ } else { "られる"@ }
    } else if k == 5 {
        if j == 0 { "なかっ"@ } else { "た"@ }
    } else if k == 6 {
        if j == 0 { "なく"@ } else { "て"@ }
    } else if k == 7 {
        if j == 0 { "まし"@ } else { "た"@ }
    } else if k == 8 {
        if j == 0 { "せ"@ } else { "ない"@ }
    } else if k == 9 {
        if j == 0 { "ませ"@ } else { "ん"@ }
    } else if k == 10 {
        if j == 0 { "られ"@ } else { "ない"@ }
    } else if k == 11 {
        if j == 0 { "られ"@ } else { "ます"@ }
    } else if k == 12 {
        if j == 0 { "れ"@ } else { "ない"@ }
    } else if k == 13 {
        "させる"@
    } else if k == 14 {
        "せる"@
    } else if k == 15 {
        "た"@
    } else if k == 16 {
        "だ"@
    } else if k == 17 {
        "て"@
    } else if k == 18 {
        "で"@
    } else if k == 19 {
        "な"@
    } else if k == 20 {
        "ない"@
    } else if k == 21 {
        "ます"@
    } else if k == 22 {
        "られる"@
    } else {
        "れる"@
    }
}

/// The concatenation of lookahead slots `j..arity` of rule `k`.
pub open spec fn rule_suffix_from(k: int, j: int) -> Seq<char>
    decreases rule_arity(k) - j,
{
    if j < 0 || j >= rule_arity(k) {
        Seq::empty()
    } else {
        rule_look(k, j) + rule_suffix_from(k, j + 1)
    }
}

/// The inflection tag of rule `k`: its lookaheads concatenated. This is also
/// the literal suffix text appended to the matched verb's surface.
pub open spec fn rule_tag(k: int) -> Seq<char> {
    rule_suffix_from(k, 0)
}

/// Whether rule `k` matches at cursor `i`: all of its lookahead tokens exist
/// and their surfaces equal the rule's literals.
pub open spec fn rule_matches(s: Seq<TokenView>, i: int, k: int) -> bool {
    &&& i + 1 + rule_arity(k) <= s.len()
    &&& forall|j: int| 0 <= j < rule_arity(k) ==> s[i + 1 + j].text == rule_look(k, j)
}

/// The first rule at index `k` or later that matches at cursor `i`.
pub open spec fn first_match_from(s: Seq<TokenView>, i: int, k: int) -> Option<int>
    decreases rule_count() - k,
{
    if k < 0 || k >= rule_count() {
        None
    } else if rule_matches(s, i, k) {
        Some(k)
    } else {
        first_match_from(s, i, k + 1)
    }
}

/// The highest-priority rule that matches at cursor `i`, if any.
pub open spec fn first_match(s: Seq<TokenView>, i: int) -> Option<int> {
    first_match_from(s, i, 0)
}

/// What `first_match_from` returns: a matching rule no earlier rule beats,
/// or a guarantee that no rule from `k` on matches.
pub proof fn lemma_first_match_from(s: Seq<TokenView>, i: int, k: int)
    requires
        0 <= k,
    ensures
        match first_match_from(s, i, k) {
            Some(r) => {
                &&& k <= r < rule_count()
                &&& rule_matches(s, i, r)
                &&& forall|q: int| k <= q < r ==> !rule_matches(s, i, q)
            },
            None => forall|q: int| k <= q < rule_count() ==> !rule_matches(s, i, q),
        },
    decreases rule_count() - k,
{
    if k < rule_count() && !rule_matches(s, i, k) {
        lemma_first_match_from(s, i, k + 1);
    }
}

/// Every rule consumes between one and four lookahead tokens.
pub proof fn lemma_arity_bounds(k: int)
    ensures
        1 <= rule_arity(k) <= 4,
{
}

} // verus!
