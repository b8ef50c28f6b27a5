use mtrd::manifest_format::{
    inline_name_scalars, locale_flow_line,
    canonicalize_yaml, indentation, inline_yaml_names, inline_yaml_positions, is_sequence_item,
    try_canonicalize_yaml,
};

#[test]
fn inlines_positions_and_localized_names_only() {
    let yaml = "stations:\n- id: munich\n  names:\n    de:\n    - München\n    en:\n    - Munich\n    - 'yes'\n    fr:\n    - Greater Paris, France\n    zh-TW:\n    - 慕尼黑\n  position:\n  - 754.0\n  - 323.0\nlines:\n- red\n";

    assert_eq!(
        canonicalize_yaml(yaml.to_owned()),
        "stations:\n- id: munich\n  names:\n    de: [München]\n    en: [Munich, 'yes']\n    fr: [\"Greater Paris, France\"]\n    zh-TW: [慕尼黑]\n  position: [754.0, 323.0]\nlines:\n- red\n"
    );
}

#[test]
fn inlines_an_indented_position() {
    let yaml = "a:\n    position:\n    - 1\n    - 2\n";
    assert_eq!(inline_yaml_positions(yaml.to_owned()), "a:\n    position: [1, 2]\n");
}

#[test]
fn keeps_a_position_with_one_item() {
    let yaml = "position:\n- 1\nx: 2\n";
    assert_eq!(inline_yaml_positions(yaml.to_owned()), "position:\n- 1\nx: 2\n");
}

#[test]
fn reads_crlf_line_endings() {
    let yaml = "position:\r\n- 1\r\n- 2\r\n";
    assert_eq!(inline_yaml_positions(yaml.to_owned()), "position: [1, 2]\n");
}

#[test]
fn terminates_the_last_line() {
    assert_eq!(inline_yaml_positions("a: b".to_owned()), "a: b\n");
    assert_eq!(inline_yaml_positions(String::new()), "");
}

#[test]
fn quotes_a_name_with_a_flow_indicator() {
    let yaml = "names:\n  en:\n  - 'a, b'\n";
    assert_eq!(inline_yaml_names(yaml.to_owned()), "names:\n  en: [\"a, b\"]\n");
}

#[test]
fn escapes_a_quoted_name() {
    let yaml = "names:\n  en:\n  - 'a\\b: c'\n";
    assert_eq!(inline_yaml_names(yaml.to_owned()), "names:\n  en: [\"a\\\\b: c\"]\n");
}

#[test]
fn quotes_all_names_of_a_multi_line_item() {
    let yaml = "names:\n  en:\n  - a\n    b\n";
    assert_eq!(inline_yaml_names(yaml.to_owned()), "names:\n  en: [\"a b\"]\n");
}

#[test]
fn ends_the_names_block_at_a_shallower_line() {
    let yaml = "names:\n  en:\n  - a\nother: 1\n";
    assert_eq!(inline_yaml_names(yaml.to_owned()), "names:\n  en: [a]\nother: 1\n");
}

#[test]
fn keeps_a_locale_at_the_wrong_depth() {
    let yaml = "names:\n    en:\n    - a\n";
    assert_eq!(inline_yaml_names(yaml.to_owned()), "names:\n    en:\n    - a\n");
}

#[test]
fn reports_names_that_yaml_rejects() {
    let yaml = "names:\n  en:\n  - [\n";
    assert_eq!(try_canonicalize_yaml(yaml.to_owned()), None);
}

#[test]
fn canonicalizes_when_yaml_accepts_the_names() {
    let yaml = "names:\n  en:\n  - a\nposition:\n- 1\n- 2\n";
    assert_eq!(
        try_canonicalize_yaml(yaml.to_owned()),
        Some("names:\n  en: [a]\nposition: [1, 2]\n".to_owned())
    );
}

#[test]
fn measures_indentation_in_bytes() {
    assert_eq!(indentation("\u{3000}\u{3000}x"), 6);
    assert_eq!(indentation("  - a"), 2);
    assert_eq!(indentation("\t x"), 2);
    assert_eq!(indentation(""), 0);
}

#[test]
fn recognizes_sequence_items() {
    assert!(is_sequence_item("  -"));
    assert!(is_sequence_item("- a"));
    assert!(is_sequence_item("-"));
    assert!(!is_sequence_item("-a"));
    assert!(!is_sequence_item("  x"));
}

#[test]
fn leaves_text_without_keys_line_by_line() {
    let yaml = "lines:\n- red\n- blue\n";
    assert_eq!(canonicalize_yaml(yaml.to_owned()), yaml);
}

fn chars(s: &str) -> Vec<char> {
    s.chars().collect()
}

#[test]
fn keeps_plain_scalars_and_quotes_the_others() {
    let lines = vec![chars("  - a"), chars("  - 'b, c'")];
    let names = vec!["a".to_owned(), "b, c".to_owned()];
    assert_eq!(
        inline_name_scalars(&lines, 0, 2, 2, &names),
        vec![chars("a"), chars("\"b, c\"")]
    );
}

#[test]
fn quotes_every_name_when_lines_and_names_differ_in_number() {
    let lines = vec![chars("  - a"), chars("    b")];
    let names = vec!["a b".to_owned()];
    assert_eq!(inline_name_scalars(&lines, 0, 2, 2, &names), vec![chars("\"a b\"")]);
}

#[test]
fn writes_a_locale_line_in_flow_style() {
    let entries = vec![chars("a"), chars("\"b\"")];
    assert_eq!(locale_flow_line(&chars("  en:"), &entries), chars("  en: [a, \"b\"]\n"));
    assert_eq!(locale_flow_line(&chars("de:"), &vec![]), chars("de: []\n"));
}

#[test]
fn inlining_positions_twice_changes_nothing() {
    let yaml = "a:\n  position:\n  - 1\n  - 2\nposition:\n- 3\n";
    let once = inline_yaml_positions(yaml.to_owned());
    assert_eq!(once, "a:\n  position: [1, 2]\nposition:\n- 3\n");
    assert_eq!(inline_yaml_positions(once.clone()), once);
}

#[test]
fn inlining_names_twice_changes_nothing() {
    let yaml = "names:\n  en:\n  - a\n  - 'b: c'\n  de:\n  - x\n";
    let once = inline_yaml_names(yaml.to_owned());
    assert_eq!(once, "names:\n  en: [a, \"b: c\"]\n  de: [x]\n");
    assert_eq!(inline_yaml_names(once.clone()), once);
}

#[test]
fn canonical_text_is_canonical() {
    let yaml = "stations:\n- id: a\n  names:\n    en:\n    - A\n  position:\n  - 1.0\n  - 2.0\n";
    let once = canonicalize_yaml(yaml.to_owned());
    assert_eq!(once, "stations:\n- id: a\n  names:\n    en: [A]\n  position: [1.0, 2.0]\n");
    assert_eq!(canonicalize_yaml(once.clone()), once);
}

#[test]
fn a_lone_position_key_can_gain_items_from_the_names_step() {
    let yaml = "names:\n    position:\n  - de:\n  -\n    x\n- fr:\n";
    let once = canonicalize_yaml(yaml.to_owned());
    assert_eq!(once, "names:\n    position:\n  - de: [\"x\"]\n- fr:\n");
    assert_eq!(
        canonicalize_yaml(once),
        "names:\n    position: [de: [\"x\"], fr:]\n"
    );
}

#[test]
fn a_locale_named_position_stays_canonical() {
    let yaml = "stations:\n- id: x\n  names:\n    position:\n    - A\n";
    let once = canonicalize_yaml(yaml.to_owned());
    assert_eq!(once, "stations:\n- id: x\n  names:\n    position: [A]\n");
    assert_eq!(canonicalize_yaml(once.clone()), once);
}
