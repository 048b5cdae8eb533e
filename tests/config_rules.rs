use codeswitch::config::{parse_config, Config, ConfigError};

fn lines(v: &[&str]) -> Vec<Vec<u8>> {
    v.iter().map(|s| s.as_bytes().to_vec()).collect()
}

#[test]
fn literal_default_is_trimmed() {
    let c = parse_config(&lines(&["  proj =  foo/proj  "])).unwrap();
    assert_eq!(c.default_path(&b"proj".to_vec()), Some(&b"foo/proj".to_vec()));
    assert_eq!(c.pattern_count(), 0);
}

#[test]
fn comments_and_blank_lines_are_ignored() {
    let c = parse_config(&lines(&["# a = b", "", "   ", "\t# note"])).unwrap();
    assert_eq!(c.default_path(&b"a".to_vec()), None);
    assert_eq!(c.pattern_count(), 0);
}

#[test]
fn later_default_wins() {
    let c = parse_config(&lines(&["p = one", "p = two"])).unwrap();
    assert_eq!(c.default_path(&b"p".to_vec()), Some(&b"two".to_vec()));
}

#[test]
fn default_with_empty_side_is_ignored() {
    let c = parse_config(&lines(&["p =", "= x"])).unwrap();
    assert_eq!(c.default_path(&b"p".to_vec()), None);
    assert_eq!(c.pattern_count(), 0);
}

#[test]
fn pattern_lines_are_kept_in_order() {
    let c = parse_config(&lines(&["work/*", "  play/**  "])).unwrap();
    assert_eq!(c.pattern_count(), 2);
    assert!(c.pattern_matches(0, &b"work/x".to_vec()));
    assert!(!c.pattern_matches(0, &b"play/x".to_vec()));
    assert!(c.pattern_matches(1, &b"play/a/b".to_vec()));
}

#[test]
fn bad_pattern_is_refused() {
    let r = parse_config(&lines(&["ok = fine", "a***b"]));
    assert!(matches!(r, Err(ConfigError::BadPattern(_))));
}

#[test]
fn non_text_pattern_is_refused() {
    let r = parse_config(&vec![vec![0xff, b'*']]);
    assert!(matches!(r, Err(ConfigError::NotText)));
}

#[test]
fn non_text_path_matches_no_pattern() {
    let mut c = Config::new();
    assert!(c.add_pattern("*").is_ok());
    assert!(c.pattern_matches(0, &b"abc".to_vec()));
    assert!(!c.pattern_matches(0, &vec![0xff]));
}
