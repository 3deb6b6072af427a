use verbfreq::pipeline::accumulate_tokens;
use verbfreq::surface::SurfaceTable;
use verbfreq::tally::InflectionTable;
use verbfreq::token::Token;

fn tok(text: &str, pos: &str, dict: &str) -> Token {
    Token { text: text.to_string(), pos: pos.to_string(), dictionary_form: dict.to_string() }
}

#[test]
fn fragment_feeds_both_tables() {
    let mut verbs = SurfaceTable::new();
    let mut inflections = InflectionTable::new();
    let tokens = vec![
        tok("食べ", "動詞", "食べる"),
        tok("まし", "助動詞", "ます"),
        tok("た", "助動詞", "た"),
        tok("犬", "名詞", "犬"),
    ];
    accumulate_tokens(&mut verbs, &mut inflections, &tokens);
    assert_eq!(verbs.frequency_of("食べました"), 1);
    assert_eq!(verbs.frequency_of("犬"), 1);
    assert_eq!(inflections.count_of("ました"), 1);
}

#[test]
fn filtered_surface_still_tallies_its_inflection() {
    // The merge and the tag tally happen normally; only the surface count is
    // withheld when the merged surface holds a Latin letter.
    let mut verbs = SurfaceTable::new();
    let mut inflections = InflectionTable::new();
    let tokens = vec![tok("Ab", "動詞", "ある"), tok("た", "助動詞", "た")];
    accumulate_tokens(&mut verbs, &mut inflections, &tokens);
    assert_eq!(verbs.frequency_of("Abた"), 0);
    assert_eq!(verbs.rows().len(), 0);
    assert_eq!(inflections.count_of("た"), 1);
}

#[test]
fn empty_fragment_contributes_nothing() {
    let mut verbs = SurfaceTable::new();
    let mut inflections = InflectionTable::new();
    let tokens: Vec<Token> = Vec::new();
    accumulate_tokens(&mut verbs, &mut inflections, &tokens);
    assert_eq!(verbs.rows().len(), 0);
    assert_eq!(inflections.rows().len(), 0);
}

#[test]
fn repeated_fragments_accumulate() {
    let mut verbs = SurfaceTable::new();
    let mut inflections = InflectionTable::new();
    let tokens = vec![tok("見", "動詞", "見る"), tok("た", "助動詞", "た")];
    accumulate_tokens(&mut verbs, &mut inflections, &tokens);
    accumulate_tokens(&mut verbs, &mut inflections, &tokens);
    assert_eq!(verbs.frequency_of("見た"), 2);
    assert_eq!(inflections.count_of("た"), 2);
}
