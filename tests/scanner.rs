use codeswitch::scan::{join_path, plan_children, DirListing, GitMarker, Link, Scan};

fn b(s: &str) -> Vec<u8> {
    s.as_bytes().to_vec()
}

fn listing(subdirs: &[&str], links: &[(&str, &str)]) -> DirListing {
    DirListing {
        subdirs: subdirs.iter().map(|s| b(s)).collect(),
        links: links.iter().map(|(n, t)| Link { name: b(n), target: b(t) }).collect(),
    }
}

/// Runs a scan over a directory tree described by `dir`, which gives the
/// `.git` kind and the listing of a directory from its physical path.
fn run_scan(dir: &dyn Fn(&str) -> (GitMarker, DirListing), alias: &[(&str, &str)]) -> Vec<String> {
    let mut scan = Scan::new();
    let mut steps = 0;
    while let Some(p) = scan.next_dir() {
        let mut shown = String::from_utf8(p).unwrap();
        for (from, to) in alias {
            if shown == *from || shown.starts_with(&format!("{}/", from)) {
                shown = format!("{}{}", to, &shown[from.len()..]);
            }
        }
        let (marker, list) = dir(&shown);
        scan.visit(marker, &list);
        steps += 1;
        assert!(steps < 1000);
    }
    let mut found: Vec<String> = scan.found().into_iter().map(|v| String::from_utf8(v).unwrap()).collect();
    found.sort();
    found
}

#[test]
fn nested_repository_is_found_once() {
    let dir = |p: &str| match p {
        "" => (GitMarker::Absent, listing(&["A"], &[])),
        "A" => (GitMarker::Absent, listing(&["B"], &[])),
        "A/B" => (GitMarker::Directory, listing(&["src"], &[])),
        _ => panic!("visited {}", p),
    };
    assert_eq!(run_scan(&dir, &[]), vec!["A/B".to_string()]);
}

#[test]
fn shorter_alias_records_both_paths() {
    let dir = |p: &str| match p {
        "" => (GitMarker::Absent, listing(&["Target"], &[("S", "Target")])),
        "Target" => (GitMarker::Directory, listing(&[], &[])),
        _ => panic!("visited {}", p),
    };
    assert_eq!(run_scan(&dir, &[("S", "Target")]), vec!["S".to_string(), "Target".to_string()]);
}

#[test]
fn alias_not_shorter_is_not_traversed() {
    let dir = |p: &str| match p {
        "" => (GitMarker::Absent, listing(&["T"], &[("SS", "T")])),
        "T" => (GitMarker::Directory, listing(&[], &[])),
        _ => panic!("visited {}", p),
    };
    assert_eq!(run_scan(&dir, &[]), vec!["T".to_string()]);
}

#[test]
fn equal_length_alias_is_dropped() {
    let plan = plan_children(&listing(&["ab"], &[("cd", "ab")]));
    assert!(plan.aliases.is_empty());
    assert_eq!(plan.plain, vec![b("ab")]);
}

#[test]
fn dead_alias_is_dropped() {
    let plan = plan_children(&listing(&["a"], &[("s", "elsewhere")]));
    assert!(plan.aliases.is_empty());
    assert_eq!(plan.plain, vec![b("a")]);
}

#[test]
fn alias_target_leaves_plain_list() {
    let plan = plan_children(&listing(&["target", "other"], &[("t", "target")]));
    assert_eq!(plan.aliases.len(), 1);
    assert_eq!(plan.aliases[0].name, b("t"));
    assert_eq!(plan.aliases[0].target, b("target"));
    assert_eq!(plan.plain, vec![b("other")]);
}

#[test]
fn gitlink_file_is_a_dead_end() {
    let dir = |p: &str| match p {
        "" => (GitMarker::Absent, listing(&["sub", "repo"], &[])),
        "sub" => (GitMarker::Other, listing(&["inner"], &[])),
        "repo" => (GitMarker::Directory, listing(&[], &[])),
        _ => panic!("visited {}", p),
    };
    assert_eq!(run_scan(&dir, &[]), vec!["repo".to_string()]);
}

#[test]
fn alias_above_repository_records_alias_path_only() {
    let dir = |p: &str| match p {
        "" => (GitMarker::Absent, listing(&["projects"], &[("p", "projects")])),
        "projects" => (GitMarker::Absent, listing(&["one"], &[])),
        "projects/one" => (GitMarker::Directory, listing(&[], &[])),
        _ => panic!("visited {}", p),
    };
    assert_eq!(run_scan(&dir, &[("p", "projects")]), vec!["p/one".to_string()]);
}

#[test]
fn root_repository_is_the_empty_path() {
    let mut scan = Scan::new();
    assert_eq!(scan.next_dir(), Some(Vec::new()));
    scan.visit(GitMarker::Directory, &listing(&["x"], &[]));
    assert_eq!(scan.next_dir(), None);
    assert_eq!(scan.found(), vec![Vec::<u8>::new()]);
}

#[test]
fn join_path_inserts_separator() {
    assert_eq!(join_path(&b(""), &b("a")), b("a"));
    assert_eq!(join_path(&b("a/b"), &b("c")), b("a/b/c"));
}

#[test]
fn empty_tree_finds_nothing() {
    let dir = |p: &str| match p {
        "" => (GitMarker::Absent, listing(&[], &[])),
        _ => panic!("visited {}", p),
    };
    assert!(run_scan(&dir, &[]).is_empty());
}
