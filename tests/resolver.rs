use codeswitch::config::{parse_config, Config};
use codeswitch::resolve::{
    basenames, file_name, keep_matching, matches_name, parse_index, render_path, resolve,
    resolve_default, split_name, Query, Resolution,
};

fn b(s: &str) -> Vec<u8> {
    s.as_bytes().to_vec()
}

fn list(v: &[&str]) -> Vec<Vec<u8>> {
    v.iter().map(|s| b(s)).collect()
}

fn query(name: &str, filter: &str) -> Query {
    Query { name: b(name), subdir: None, filter: b(filter) }
}

fn config(lines: &[&str]) -> Config {
    parse_config(&list(lines)).unwrap()
}

#[test]
fn wildcard_lists_each_name_once() {
    let r = resolve(&list(&["foo/proj1", "bar/proj1"]), false, &query("_", ""), &Config::new());
    assert_eq!(r, Resolution::Names(list(&["proj1"])));
}

#[test]
fn wildcard_lists_distinct_names() {
    let mut names = basenames(&list(&["a/x", "y", "b/x", "c/z/y", "w"]));
    names.sort();
    assert_eq!(names, list(&["w", "x", "y"]));
}

#[test]
fn index_filter_selects_in_current_order() {
    let entries = list(&["a/proj", "b/proj", "c/proj", "d/other"]);
    let r = resolve(&entries, false, &query("proj", "2"), &Config::new());
    assert_eq!(r, Resolution::Chosen(b("b/proj")));
}

#[test]
fn index_filter_out_of_range_lists_candidates() {
    let entries = list(&["a/proj", "b/proj", "c/proj", "d/other"]);
    let all = list(&["a/proj", "b/proj", "c/proj"]);
    let r0 = resolve(&entries, false, &query("proj", "0"), &Config::new());
    assert_eq!(r0, Resolution::OutOfRange(0, all.clone()));
    let r4 = resolve(&entries, false, &query("proj", "4"), &Config::new());
    assert_eq!(r4, Resolution::OutOfRange(4, all));
}

#[test]
fn literal_default_decides_in_either_order() {
    let c = config(&["proj = foo/proj"]);
    let one = resolve(&list(&["foo/proj", "bar/proj"]), false, &query("proj", ""), &c);
    let two = resolve(&list(&["bar/proj", "foo/proj"]), false, &query("proj", ""), &c);
    assert_eq!(one, Resolution::Chosen(b("foo/proj")));
    assert_eq!(two, Resolution::Chosen(b("foo/proj")));
}

#[test]
fn patterns_are_tried_in_order_over_all_candidates() {
    let c = config(&["nowhere/*", "bar/*"]);
    let cands = list(&["foo/proj", "bar/proj"]);
    assert_eq!(resolve_default(&c, &b("proj"), &cands), Some(1));
    let r = resolve(&cands, false, &query("proj", ""), &c);
    assert_eq!(r, Resolution::Chosen(b("bar/proj")));
}

#[test]
fn earlier_pattern_wins_over_earlier_candidate() {
    let c = config(&["bar/*", "foo/*"]);
    let cands = list(&["foo/proj", "bar/proj"]);
    assert_eq!(resolve_default(&c, &b("proj"), &cands), Some(1));
}

#[test]
fn literal_default_not_among_candidates_falls_back_to_patterns() {
    let c = config(&["proj = gone/proj", "foo/*"]);
    let cands = list(&["bar/proj", "foo/proj"]);
    assert_eq!(resolve_default(&c, &b("proj"), &cands), Some(1));
}

#[test]
fn ambiguous_without_rules() {
    let entries = list(&["foo/proj", "bar/proj"]);
    let r = resolve(&entries, false, &query("proj", ""), &Config::new());
    assert_eq!(r, Resolution::Ambiguous(entries));
}

#[test]
fn single_match_is_chosen() {
    let r = resolve(&list(&["a/one", "b/two"]), true, &query("two", ""), &Config::new());
    assert_eq!(r, Resolution::Chosen(b("b/two")));
}

#[test]
fn no_match_from_cache_asks_for_rescan() {
    let entries = list(&["a/one"]);
    assert_eq!(resolve(&entries, true, &query("two", ""), &Config::new()), Resolution::Rescan);
    assert_eq!(resolve(&entries, false, &query("two", ""), &Config::new()), Resolution::NoMatches);
}

#[test]
fn substring_filter_looks_before_the_name() {
    let entries = list(&["work/proj", "play/proj", "projects/x/proj"]);
    let r = resolve(&entries, false, &query("proj", "wor"), &Config::new());
    assert_eq!(r, Resolution::Chosen(b("work/proj")));
    let none = resolve(&list(&["a/proj"]), false, &query("proj", "proj"), &Config::new());
    assert_eq!(none, Resolution::NoMatches);
    let both = resolve(&entries, false, &query("proj", "j"), &Config::new());
    assert_eq!(both, Resolution::Chosen(b("projects/x/proj")));
}

#[test]
fn name_matches_whole_final_components() {
    assert!(matches_name(&b("a/proj"), &b("proj")));
    assert!(matches_name(&b("proj"), &b("proj")));
    assert!(!matches_name(&b("a/myproj"), &b("proj")));
    assert!(!matches_name(&b("proj/a"), &b("proj")));
    assert!(matches_name(&b("x/y"), &b("")));
    assert_eq!(keep_matching(&list(&["a/p", "b/xp", "p"]), &b("p")), list(&["a/p", "p"]));
}

#[test]
fn index_parsing() {
    assert_eq!(parse_index(&b("2")), Some(2));
    assert_eq!(parse_index(&b("+7")), Some(7));
    assert_eq!(parse_index(&b("0")), Some(0));
    assert_eq!(parse_index(&b("")), None);
    assert_eq!(parse_index(&b("+")), None);
    assert_eq!(parse_index(&b("-1")), None);
    assert_eq!(parse_index(&b("1a")), None);
    assert_eq!(parse_index(&b("18446744073709551615")), Some(usize::MAX));
    assert_eq!(parse_index(&b("18446744073709551616")), None);
    assert_eq!(parse_index(&b("99999999999999999999999")), None);
}

#[test]
fn non_numeric_filter_is_a_substring() {
    let entries = list(&["x1/proj", "y2/proj"]);
    let r = resolve(&entries, false, &query("proj", "y2"), &Config::new());
    assert_eq!(r, Resolution::Chosen(b("y2/proj")));
}

#[test]
fn query_splits_at_first_separator() {
    assert_eq!(split_name(&b("proj/src/lib")), (b("proj"), Some(b("/src/lib"))));
    assert_eq!(split_name(&b("proj")), (b("proj"), None));
    assert_eq!(split_name(&b("/x")), (b(""), Some(b("/x"))));
}

#[test]
fn rendered_path_joins_root_and_suffix() {
    assert_eq!(render_path(&b("/code"), &b("foo/proj"), &Some(b("/src"))), b("/code/foo/proj/src"));
    assert_eq!(render_path(&b("/code/"), &b("foo"), &None), b("/code/foo"));
    assert_eq!(render_path(&b(""), &b("foo"), &None), b("foo"));
}

#[test]
fn alias_and_target_render_under_root() {
    let entries = list(&["S", "T"]);
    assert_eq!(resolve(&entries, false, &query("S", ""), &Config::new()), Resolution::Chosen(b("S")));
    assert_eq!(resolve(&entries, false, &query("T", ""), &Config::new()), Resolution::Chosen(b("T")));
}

#[test]
fn file_name_is_last_component() {
    assert_eq!(file_name(&b("a/b/c")), b("c"));
    assert_eq!(file_name(&b("c")), b("c"));
    assert_eq!(file_name(&b("")), b(""));
}
