use verbfreq::surface::SurfaceTable;
use verbfreq::tally::InflectionTable;
use verbfreq::token::Token;

fn tok(text: &str, pos: &str, dict: &str) -> Token {
    Token { text: text.to_string(), pos: pos.to_string(), dictionary_form: dict.to_string() }
}

fn surface_with(text: &str, pos: &str, dict: &str, n: u64) -> SurfaceTable {
    let mut t = SurfaceTable::new();
    let token = tok(text, pos, dict);
    for _ in 0..n {
        t.record(&token);
    }
    t
}

#[test]
fn record_inserts_then_increments() {
    let mut t = SurfaceTable::new();
    t.record(&tok("食べた", "動詞", "食べる"));
    assert_eq!(t.frequency_of("食べた"), 1);
    t.record(&tok("食べた", "動詞", "食べる"));
    assert_eq!(t.frequency_of("食べた"), 2);
    assert_eq!(t.frequency_of("見た"), 0);
}

#[test]
fn first_seen_fields_are_kept() {
    let mut t = SurfaceTable::new();
    t.record(&tok("食べた", "動詞", "食べる"));
    // A later occurrence with different fields only raises the count.
    t.record(&tok("食べた", "名詞", "ほかの"));
    let rows = t.rows();
    assert_eq!(rows.len(), 1);
    assert_eq!(rows[0].pos, "動詞");
    assert_eq!(rows[0].dictionary_form, "食べる");
    assert_eq!(rows[0].frequency, 2);
}

#[test]
fn surface_merge_is_order_independent() {
    // {A:(pos,lemma,3)} then {A:(pos,lemma,2)} into an empty target gives
    // {A:(pos,lemma,5)}, in either merge order.
    let a = surface_with("食べた", "動詞", "食べる", 3);
    let b = surface_with("食べた", "動詞", "食べる", 2);

    let mut t1 = SurfaceTable::new();
    verbfreq::surface::merge_into(&mut t1, &a);
    verbfreq::surface::merge_into(&mut t1, &b);

    let mut t2 = SurfaceTable::new();
    verbfreq::surface::merge_into(&mut t2, &b);
    verbfreq::surface::merge_into(&mut t2, &a);

    assert_eq!(t1.frequency_of("食べた"), 5);
    assert_eq!(t2.frequency_of("食べた"), 5);
    let r1 = t1.rows();
    let r2 = t2.rows();
    assert_eq!(r1.len(), 1);
    assert_eq!(r2.len(), 1);
    assert_eq!(r1[0].pos, r2[0].pos);
    assert_eq!(r1[0].dictionary_form, r2[0].dictionary_form);
}

#[test]
fn surface_merge_disjoint_keys_union() {
    let a = surface_with("食べた", "動詞", "食べる", 1);
    let b = surface_with("見た", "動詞", "見る", 4);
    let mut t = SurfaceTable::new();
    verbfreq::surface::merge_into(&mut t, &a);
    verbfreq::surface::merge_into(&mut t, &b);
    assert_eq!(t.frequency_of("食べた"), 1);
    assert_eq!(t.frequency_of("見た"), 4);
}

#[test]
fn inflection_merge_is_order_independent() {
    let mut a = InflectionTable::new();
    for _ in 0..3 {
        a.record_inflection("ました");
    }
    let mut b = InflectionTable::new();
    b.record_inflection("ました");
    b.record_inflection("ません");

    let mut t1 = InflectionTable::new();
    verbfreq::tally::merge_into(&mut t1, &a);
    verbfreq::tally::merge_into(&mut t1, &b);

    let mut t2 = InflectionTable::new();
    verbfreq::tally::merge_into(&mut t2, &b);
    verbfreq::tally::merge_into(&mut t2, &a);

    assert_eq!(t1.count_of("ました"), 4);
    assert_eq!(t2.count_of("ました"), 4);
    assert_eq!(t1.count_of("ません"), 1);
    assert_eq!(t2.count_of("ません"), 1);
}

#[test]
fn latin_and_digit_surfaces_are_filtered_out() {
    let mut t = SurfaceTable::new();
    t.record(&tok("Abた", "動詞", "ある"));
    t.record(&tok("食べた3", "動詞", "食べる"));
    t.record(&tok("test", "動詞", "test"));
    assert_eq!(t.frequency_of("Abた"), 0);
    assert_eq!(t.frequency_of("食べた3"), 0);
    assert_eq!(t.frequency_of("test"), 0);
    assert_eq!(t.rows().len(), 0);
}

#[test]
fn japanese_scripts_pass_the_filter() {
    let mut t = SurfaceTable::new();
    t.record(&tok("食べた", "動詞", "食べる"));
    t.record(&tok("カタカナ", "名詞", "カタカナ"));
    t.record(&tok("ひらがな", "名詞", "ひらがな"));
    assert_eq!(t.frequency_of("食べた"), 1);
    assert_eq!(t.frequency_of("カタカナ"), 1);
    assert_eq!(t.frequency_of("ひらがな"), 1);
}

#[test]
fn empty_surface_is_filtered_out() {
    let mut t = SurfaceTable::new();
    t.record(&tok("", "動詞", ""));
    assert_eq!(t.rows().len(), 0);
}

#[test]
fn mixed_script_with_punctuation_is_filtered_out() {
    let mut t = SurfaceTable::new();
    t.record(&tok("食べ~た", "動詞", "食べる"));
    assert_eq!(t.frequency_of("食べ~た"), 0);
}
