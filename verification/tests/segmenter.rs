use verbfreq::segment::{is_separator, split_fragments};

#[test]
fn separator_classes() {
    assert!(is_separator(' '));
    assert!(is_separator('\t'));
    assert!(is_separator('\n'));
    assert!(is_separator('\u{3000}')); // ideographic space
    assert!(is_separator('.'));
    assert!(is_separator(','));
    assert!(is_separator('!'));
    assert!(is_separator('~'));
    assert!(is_separator('，'));
    assert!(is_separator('…'));
    assert!(is_separator('‥'));
    assert!(is_separator('。'));
    assert!(is_separator('！'));
    assert!(is_separator('？'));
    assert!(!is_separator('a'));
    assert!(!is_separator('0'));
    assert!(!is_separator('食'));
    assert!(!is_separator('は'));
    assert!(!is_separator('カ'));
}

#[test]
fn splits_at_boundaries_dropping_empties() {
    let fragments = split_fragments("今日は 良い天気,,です!ね？");
    assert_eq!(fragments, vec!["今日は", "良い天気", "です", "ね"]);
}

#[test]
fn all_boundary_text_yields_no_fragment() {
    let fragments = split_fragments("。。！？ ，,,!  …");
    assert_eq!(fragments.len(), 0);
}

#[test]
fn empty_text_yields_no_fragment() {
    let fragments = split_fragments("");
    assert_eq!(fragments.len(), 0);
}

#[test]
fn text_without_boundaries_is_one_fragment() {
    let fragments = split_fragments("食べませんでした");
    assert_eq!(fragments, vec!["食べませんでした"]);
}

#[test]
fn leading_and_trailing_boundaries_are_dropped() {
    let fragments = split_fragments("。食べた。");
    assert_eq!(fragments, vec!["食べた"]);
}
