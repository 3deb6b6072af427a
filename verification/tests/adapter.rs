use verbfreq::token::{str_eq, token_from_feature};

#[test]
fn feature_fields_are_extracted() {
    let t = token_from_feature("食べ".to_string(), "動詞,自立,*,*,一段,食べる,余り");
    assert_eq!(t.text, "食べ");
    assert_eq!(t.pos, "動詞");
    assert_eq!(t.dictionary_form, "食べる");
}

#[test]
fn short_feature_string_defaults_dictionary_form() {
    let t = token_from_feature("ん".to_string(), "助動詞,非自立");
    assert_eq!(t.pos, "助動詞");
    assert_eq!(t.dictionary_form, "");
}

#[test]
fn exactly_six_fields_uses_the_sixth() {
    let t = token_from_feature("見".to_string(), "動詞,a,b,c,d,見る");
    assert_eq!(t.pos, "動詞");
    assert_eq!(t.dictionary_form, "見る");
}

#[test]
fn five_fields_defaults_dictionary_form() {
    let t = token_from_feature("見".to_string(), "動詞,a,b,c,d");
    assert_eq!(t.dictionary_form, "");
}

#[test]
fn empty_fields_are_kept_in_position() {
    let t = token_from_feature("x".to_string(), ",a,,c,,食べる");
    assert_eq!(t.pos, "");
    assert_eq!(t.dictionary_form, "食べる");
}

#[test]
fn str_eq_compares_by_characters() {
    assert!(str_eq("食べた", "食べた"));
    assert!(!str_eq("食べた", "食べ"));
    assert!(!str_eq("食べ", "食べた"));
    assert!(!str_eq("", "a"));
    assert!(str_eq("", ""));
}
