use verbfreq::merge::process_nodes;
use verbfreq::token::Token;

fn tok(text: &str, pos: &str, dict: &str) -> Token {
    Token { text: text.to_string(), pos: pos.to_string(), dictionary_form: dict.to_string() }
}

fn verb(text: &str, dict: &str) -> Token {
    tok(text, "動詞", dict)
}

fn suffix(text: &str) -> Token {
    tok(text, "助動詞", text)
}

#[test]
fn longest_rule_wins_over_shorter_prefix() {
    // The four-token pattern must win over the two-token pattern that starts
    // the same way: one merged token, tag recorded once, all five consumed.
    let tokens = vec![
        verb("食べ", "食べる"),
        suffix("ませ"),
        suffix("ん"),
        suffix("でし"),
        suffix("た"),
    ];
    let (merged, tally) = process_nodes(&tokens);
    assert_eq!(merged.len(), 1);
    assert_eq!(merged[0].text, "食べませんでした");
    assert_eq!(merged[0].pos, "動詞");
    assert_eq!(merged[0].dictionary_form, "食べる");
    assert_eq!(tally.count_of("ませんでした"), 1);
    assert_eq!(tally.count_of("ません"), 0);
}

#[test]
fn two_token_rule_wins_over_single_token_rules() {
    // られ+ない must merge as one rule, and the trailing だ is emitted as a
    // separate unmerged token (it follows no verb).
    let tokens = vec![verb("見", "見る"), suffix("られ"), suffix("ない"), suffix("だ")];
    let (merged, tally) = process_nodes(&tokens);
    assert_eq!(merged.len(), 2);
    assert_eq!(merged[0].text, "見られない");
    assert_eq!(merged[0].pos, "動詞");
    assert_eq!(merged[0].dictionary_form, "見る");
    assert_eq!(merged[1].text, "だ");
    assert_eq!(tally.count_of("られない"), 1);
    assert_eq!(tally.count_of("だ"), 0);
}

#[test]
fn shorter_rule_fires_when_longer_lookahead_is_cut_off() {
    // With only ませ+ん available, the two-token rule fires.
    let tokens = vec![verb("行き", "行く"), suffix("ませ"), suffix("ん")];
    let (merged, tally) = process_nodes(&tokens);
    assert_eq!(merged.len(), 1);
    assert_eq!(merged[0].text, "行きません");
    assert_eq!(tally.count_of("ません"), 1);
    assert_eq!(tally.count_of("ませんでした"), 0);
}

#[test]
fn non_verb_tokens_pass_through_unchanged() {
    let tokens = vec![tok("今日", "名詞", "今日"), suffix("た"), tok("天気", "名詞", "天気")];
    let (merged, tally) = process_nodes(&tokens);
    assert_eq!(merged.len(), 3);
    assert_eq!(merged[0].text, "今日");
    assert_eq!(merged[1].text, "た");
    assert_eq!(merged[2].text, "天気");
    assert_eq!(tally.count_of("た"), 0);
}

#[test]
fn unmatched_verb_passes_through_unchanged() {
    let tokens = vec![verb("走る", "走る"), tok("犬", "名詞", "犬")];
    let (merged, tally) = process_nodes(&tokens);
    assert_eq!(merged.len(), 2);
    assert_eq!(merged[0].text, "走る");
    assert_eq!(merged[1].text, "犬");
    assert_eq!(tally.count_of("た"), 0);
}

#[test]
fn single_token_rule_fires() {
    let tokens = vec![verb("食べ", "食べる"), suffix("た")];
    let (merged, tally) = process_nodes(&tokens);
    assert_eq!(merged.len(), 1);
    assert_eq!(merged[0].text, "食べた");
    assert_eq!(tally.count_of("た"), 1);
}

#[test]
fn verb_at_end_of_sequence_has_no_lookahead() {
    let tokens = vec![tok("が", "助詞", "が"), verb("来", "来る")];
    let (merged, tally) = process_nodes(&tokens);
    assert_eq!(merged.len(), 2);
    assert_eq!(merged[1].text, "来");
    assert_eq!(tally.count_of("た"), 0);
}

#[test]
fn consecutive_merges_scan_left_to_right() {
    // Two verbs in a row, each with its own suffix run.
    let tokens = vec![
        verb("食べ", "食べる"),
        suffix("まし"),
        suffix("た"),
        verb("飲み", "飲む"),
        suffix("ませ"),
        suffix("ん"),
    ];
    let (merged, tally) = process_nodes(&tokens);
    assert_eq!(merged.len(), 2);
    assert_eq!(merged[0].text, "食べました");
    assert_eq!(merged[1].text, "飲みません");
    assert_eq!(tally.count_of("ました"), 1);
    assert_eq!(tally.count_of("ません"), 1);
}

#[test]
fn consumed_suffix_tokens_do_not_rescan() {
    // After 食べ+なかっ+た merges, the scanner continues after た: the next
    // token て belongs to no verb and passes through.
    let tokens = vec![verb("食べ", "食べる"), suffix("なかっ"), suffix("た"), suffix("て")];
    let (merged, tally) = process_nodes(&tokens);
    assert_eq!(merged.len(), 2);
    assert_eq!(merged[0].text, "食べなかった");
    assert_eq!(merged[1].text, "て");
    assert_eq!(tally.count_of("なかった"), 1);
    assert_eq!(tally.count_of("た"), 0);
    assert_eq!(tally.count_of("て"), 0);
}

#[test]
fn empty_token_sequence_yields_nothing() {
    let tokens: Vec<Token> = Vec::new();
    let (merged, tally) = process_nodes(&tokens);
    assert_eq!(merged.len(), 0);
    assert_eq!(tally.count_of("た"), 0);
}

#[test]
fn tag_repeats_accumulate_in_one_fragment() {
    let tokens = vec![
        verb("見", "見る"),
        suffix("た"),
        verb("聞い", "聞く"),
        suffix("た"),
    ];
    let (merged, tally) = process_nodes(&tokens);
    assert_eq!(merged.len(), 2);
    assert_eq!(tally.count_of("た"), 2);
}
