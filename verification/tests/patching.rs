use alco::color::{lookup, selector, ColorValue};
use alco::patch::{apply_text, parse_colors, patch_text};
use alco::Error;

#[test]
fn selective_substitution_changes_only_the_value_span() {
    let config = "colors:\n  primary:\n    background: '0x000000'\n";
    let scheme = "colors:\n  primary:\n    background: \"0x1a1b26\"\n";
    let out = apply_text(config, scheme).unwrap();
    assert_eq!(out, "colors:\n  primary:\n    background: '0x1a1b26'\n");
}

#[test]
fn round_trip_identity_when_nothing_matches() {
    let config = "colors:\n  primary:\n    background: '0x000000'\n  cursor: '0xffffff'\n";
    let scheme = "unrelated:\n  keys: here\n";
    let out = apply_text(config, scheme).unwrap();
    assert_eq!(out, config);
}

#[test]
fn round_trip_keeps_comments_and_blank_lines() {
    let config = "# a comment\n\nwindow:\n  padding: none\n";
    let scheme = "colors:\n  primary: '#000'\n";
    let out = apply_text(config, scheme).unwrap();
    assert_eq!(out, config);
}

#[test]
fn mapping_node_is_not_substituted() {
    let config = "colors:\n  primary:\n    background: '0x000000'\n";
    let scheme = "colors:\n  primary:\n    background:\n      deep: 1\n";
    let out = apply_text(config, scheme).unwrap();
    assert_eq!(out, config);
}

#[test]
fn sequence_node_is_not_substituted() {
    let config = "colors:\n  primary:\n    background: '0x000000'\n";
    let scheme = "colors:\n  primary:\n    background:\n      - 1\n      - 2\n";
    let out = apply_text(config, scheme).unwrap();
    assert_eq!(out, config);
}

#[test]
fn applying_twice_is_idempotent() {
    let config = "colors:\n  primary:\n    background: '0x000000'\n    foreground: '0xcccccc'\n";
    let scheme = "colors:\n  primary:\n    background: \"0x1a1b26\"\n    foreground: \"0xc0caf5\"\n";
    let once = apply_text(config, scheme).unwrap();
    let twice = apply_text(&once, scheme).unwrap();
    assert_eq!(once, twice);
}

#[test]
fn sibling_reset_after_dedent() {
    let config = "colors:\n  primary:\n    background: '0x000000'\n  cursor: '0x111111'\n";
    let scheme = "colors:\n  primary:\n    background: \"0xaaaaaa\"\n  cursor: \"0xbbbbbb\"\n";
    let out = apply_text(config, scheme).unwrap();
    assert_eq!(out, "colors:\n  primary:\n    background: '0xaaaaaa'\n  cursor: '0xbbbbbb'\n");
}

#[test]
fn missing_final_newline_is_added() {
    let out = apply_text("a: 1", "unrelated: 2\n").unwrap();
    assert_eq!(out, "a: 1\n");
}

#[test]
fn integer_and_boolean_replacements() {
    let config = "settings:\n  size: 10\n  bold: false\n";
    let scheme = "settings:\n  size: 14\n  bold: true\n";
    let out = apply_text(config, scheme).unwrap();
    assert_eq!(out, "settings:\n  size: 14\n  bold: true\n");
}

#[test]
fn unparsable_scheme_is_a_parse_error() {
    let config = "a: 1\n";
    let scheme = "a: [unclosed\n";
    assert_eq!(apply_text(config, scheme).unwrap_err(), Error::Parse);
}

#[test]
fn empty_scheme_is_a_parse_error() {
    assert_eq!(apply_text("a: 1\n", "").unwrap_err(), Error::Parse);
}

#[test]
fn unparsable_config_is_a_parse_error() {
    let tree = parse_colors("a: 1\n").unwrap();
    assert_eq!(patch_text("a: [unclosed\n", &tree).unwrap_err(), Error::Parse);
}

#[test]
fn stringify_wraps_strings_in_single_quotes() {
    let node = ColorValue::Str(String::from("0x1a1b26"));
    assert_eq!(alco::color::stringify(&node).unwrap(), "'0x1a1b26'");
}

#[test]
fn stringify_renders_integers_and_booleans() {
    assert_eq!(alco::color::stringify(&ColorValue::Int(42)).unwrap(), "42");
    assert_eq!(alco::color::stringify(&ColorValue::Int(-7)).unwrap(), "-7");
    assert_eq!(alco::color::stringify(&ColorValue::Int(0)).unwrap(), "0");
    assert_eq!(
        alco::color::stringify(&ColorValue::Int(i64::MIN)).unwrap(),
        "-9223372036854775808"
    );
    assert_eq!(alco::color::stringify(&ColorValue::Bool(true)).unwrap(), "true");
    assert_eq!(alco::color::stringify(&ColorValue::Bool(false)).unwrap(), "false");
}

#[test]
fn stringify_yields_nothing_for_other_nodes() {
    assert!(alco::color::stringify(&ColorValue::Null).is_none());
    assert!(alco::color::stringify(&ColorValue::Mapping(Vec::new())).is_none());
    assert!(alco::color::stringify(&ColorValue::Sequence(Vec::new())).is_none());
    assert!(alco::color::stringify(&ColorValue::Real(String::from("1.5"))).is_none());
}

#[test]
fn lookup_descends_string_keys() {
    let tree = parse_colors("colors:\n  primary:\n    background: \"0x1a1b26\"\n").unwrap();
    let path = vec![
        String::from("colors"),
        String::from("primary"),
        String::from("background"),
    ];
    let found = lookup(&tree, &path).unwrap();
    assert_eq!(alco::color::stringify(found).unwrap(), "'0x1a1b26'");
}

#[test]
fn lookup_missing_key_yields_nothing() {
    let tree = parse_colors("colors:\n  primary: 1\n").unwrap();
    let path = vec![String::from("colors"), String::from("missing")];
    assert!(lookup(&tree, &path).is_none());
}

#[test]
fn lookup_degrades_on_a_path_deeper_than_the_tree() {
    let tree = parse_colors("a:\n  b: 5\n").unwrap();
    let path = vec![
        String::from("a"),
        String::from("b"),
        String::from("c"),
        String::from("d"),
    ];
    let found = lookup(&tree, &path).unwrap();
    assert_eq!(alco::color::stringify(found).unwrap(), "5");
}

#[test]
fn lookup_empty_path_yields_the_whole_tree() {
    let tree = parse_colors("a: 1\n").unwrap();
    let found = lookup(&tree, &Vec::new()).unwrap();
    assert!(matches!(found, ColorValue::Mapping(_)));
}

#[test]
fn selector_resolves_exact_match_and_else() {
    let tree = parse_colors("night: dark.conf\nelse: fallback.conf\n").unwrap();
    let key = String::from("night");
    assert_eq!(selector(&tree, &key).unwrap().as_str(), "dark.conf");
    let other = String::from("day");
    assert_eq!(selector(&tree, &other).unwrap().as_str(), "fallback.conf");
}

#[test]
fn selector_without_else_yields_nothing() {
    let tree = parse_colors("night: dark.conf\n").unwrap();
    let key = String::from("day");
    assert!(selector(&tree, &key).is_none());
}

#[test]
fn selector_stops_on_a_key_that_is_no_string() {
    let tree = parse_colors("1: one.conf\nelse: fallback.conf\n").unwrap();
    let key = String::from("day");
    assert!(selector(&tree, &key).is_none());
}
