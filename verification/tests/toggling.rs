use alco::schemes::{parse_marker_secs, sort_names, status, toggle, Current, Status};
use alco::Error;

fn names(list: &[&str]) -> Vec<String> {
    list.iter().map(|s| String::from(*s)).collect()
}

#[test]
fn toggle_wraps_forward_from_the_last_scheme() {
    let available = names(&["a", "b", "c"]);
    let next = toggle(&available, &Some(String::from("c")), false).unwrap();
    assert_eq!(next, "a");
}

#[test]
fn toggle_wraps_backward_from_the_first_scheme() {
    let available = names(&["a", "b", "c"]);
    let prev = toggle(&available, &Some(String::from("a")), true).unwrap();
    assert_eq!(prev, "c");
}

#[test]
fn toggle_steps_to_the_next_sorted_name() {
    let available = names(&["c", "a", "b"]);
    let next = toggle(&available, &Some(String::from("a")), false).unwrap();
    assert_eq!(next, "b");
}

#[test]
fn toggle_with_unknown_current_selects_the_first() {
    let available = names(&["b", "a", "c"]);
    let next = toggle(&available, &Some(String::from("gone")), false).unwrap();
    assert_eq!(next, "a");
}

#[test]
fn toggle_without_current_selects_the_first() {
    let available = names(&["b", "a"]);
    let next = toggle(&available, &None, false).unwrap();
    assert_eq!(next, "a");
}

#[test]
fn toggle_with_one_scheme_stays_there() {
    let available = names(&["only"]);
    let next = toggle(&available, &Some(String::from("only")), false).unwrap();
    assert_eq!(next, "only");
    let prev = toggle(&available, &Some(String::from("only")), true).unwrap();
    assert_eq!(prev, "only");
}

#[test]
fn toggle_with_no_schemes_fails() {
    let available: Vec<String> = Vec::new();
    assert_eq!(toggle(&available, &None, false).unwrap_err(), Error::NotFound);
}

#[test]
fn sort_names_orders_lexicographically() {
    let sorted = sort_names(&names(&["tokyonight", "ayu", "gruvbox"]));
    assert_eq!(sorted, names(&["ayu", "gruvbox", "tokyonight"]));
}

#[test]
fn reload_stubs_report_unsupported() {
    assert_eq!(
        alco::reload_tmux("f", "s", "scheme").unwrap_err(),
        Error::Unsupported
    );
    assert_eq!(
        alco::reload_delta("f", "s", "scheme").unwrap_err(),
        Error::Unsupported
    );
    assert_eq!(
        alco::reload_cmus("s", "scheme").unwrap_err(),
        Error::Unsupported
    );
}

#[test]
fn marker_text_yields_its_timestamp_in_seconds() {
    let secs = parse_marker_secs("changed: \"2021-01-01T00:00:00Z\"\n");
    assert_eq!(secs, Some(1609459200));
}

#[test]
fn marker_with_bad_timestamp_yields_nothing() {
    assert_eq!(parse_marker_secs("changed: \"not a time\"\n"), None);
    assert_eq!(parse_marker_secs("other: 1\n"), None);
    assert_eq!(parse_marker_secs("not yaml: [\n"), None);
}

#[test]
fn status_reports_elapsed_whole_seconds() {
    let s = status(String::from("dark.yml"), Some(100), 160);
    assert_eq!(s.file_name, "dark.yml");
    assert_eq!(s.duration, 60);
}

#[test]
fn status_degrades_to_zero_without_a_marker_time() {
    let s = status(String::from("dark.yml"), None, 160);
    assert_eq!(s.duration, 0);
}

#[test]
fn status_degrades_to_zero_when_the_marker_is_in_the_future() {
    let s = status(String::from("dark.yml"), Some(200), 160);
    assert_eq!(s.duration, 0);
}

#[test]
fn builders_keep_their_fields() {
    let c = Current::new(String::from("2021-01-01T00:00:00Z"));
    assert_eq!(c.changed, "2021-01-01T00:00:00Z");
    let s = Status::new(String::from("dark.yml"), 5);
    assert_eq!(s.file_name, "dark.yml");
    assert_eq!(s.duration, 5);
}
