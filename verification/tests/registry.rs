use tmux_leap::registry::{
    add_project, decimal_string, delete_project, parse_depth, set_depth, sort_lines, RegistryEntry,
    MAX_DEPTH,
};

const HOME: &str = "/home/u";

fn lines(items: &[&str]) -> Vec<String> {
    items.iter().map(|s| s.to_string()).collect()
}

fn parts(e: &RegistryEntry) -> (String, Option<u32>) {
    match e {
        RegistryEntry::Plain(p) => (p.clone(), None),
        RegistryEntry::Depth(p, n) => (p.clone(), Some(*n)),
    }
}

fn parsed(line: &str) -> (String, Option<u32>) {
    parts(&RegistryEntry::parse(line))
}

#[test]
fn bare_path_is_plain() {
    assert_eq!(parsed("~/a"), ("~/a".to_string(), None));
    assert_eq!(parsed(""), ("".to_string(), None));
    assert_eq!(parsed("/tmp/with space"), ("/tmp/with space".to_string(), None));
}

#[test]
fn path_with_depth_is_read() {
    assert_eq!(parsed("~/a --depth 2"), ("~/a".to_string(), Some(2)));
    assert_eq!(parsed("/tmp/b --depth 0"), ("/tmp/b".to_string(), Some(0)));
    assert_eq!(parsed("/tmp/b --depth 15"), ("/tmp/b".to_string(), Some(15)));
}

#[test]
fn malformed_depth_is_a_plain_path() {
    assert_eq!(parsed("~/a --depth x"), ("~/a --depth x".to_string(), None));
    assert_eq!(parsed("~/a --depth 2x"), ("~/a --depth 2x".to_string(), None));
    assert_eq!(parsed("~/a --depth "), ("~/a --depth ".to_string(), None));
    assert_eq!(parsed("~/a --depth -1"), ("~/a --depth -1".to_string(), None));
    assert_eq!(parsed("~/a --depth 2 "), ("~/a --depth 2 ".to_string(), None));
    assert_eq!(parsed("~/a--depth 2"), ("~/a--depth 2".to_string(), None));
    assert_eq!(parsed("~/a --depth  2"), ("~/a --depth  2".to_string(), None));
    assert_eq!(parsed("~/a -depth 2"), ("~/a -depth 2".to_string(), None));
    assert_eq!(parsed("~/a --depth ٣"), ("~/a --depth ٣".to_string(), None));
    assert_eq!(parsed("12"), ("12".to_string(), None));
    assert_eq!(parsed("--depth 1"), ("--depth 1".to_string(), None));
}

#[test]
fn depth_limits() {
    assert_eq!(MAX_DEPTH, u32::MAX);
    assert_eq!(parsed("a --depth 4294967295"), ("a".to_string(), Some(u32::MAX)));
    assert_eq!(parsed("a --depth 4294967296"), ("a --depth 4294967296".to_string(), None));
    assert_eq!(
        parsed("a --depth 99999999999999999999999999"),
        ("a --depth 99999999999999999999999999".to_string(), None)
    );
    assert_eq!(parsed("a --depth 007"), ("a".to_string(), Some(7)));
    assert_eq!(parsed("a --depth 0000000000000000000000001"), ("a".to_string(), Some(1)));
}

#[test]
fn empty_path_with_depth() {
    assert_eq!(parsed(" --depth 3"), ("".to_string(), Some(3)));
}

#[test]
fn last_marker_decides() {
    assert_eq!(parsed("a --depth 1 --depth 2"), ("a --depth 1".to_string(), Some(2)));
}

#[test]
fn entry_path_is_the_path() {
    assert_eq!(RegistryEntry::parse("~/a --depth 2").path(), "~/a");
    assert_eq!(RegistryEntry::parse("~/a").path(), "~/a");
}

#[test]
fn entries_are_written_as_lines() {
    assert_eq!(RegistryEntry::Plain("~/a".to_string()).to_line(), "~/a");
    assert_eq!(RegistryEntry::Depth("~/a".to_string(), 2).to_line(), "~/a --depth 2");
    assert_eq!(RegistryEntry::Depth("~/a".to_string(), 0).to_line(), "~/a --depth 0");
    assert_eq!(
        RegistryEntry::Depth("/x".to_string(), u32::MAX).to_line(),
        "/x --depth 4294967295"
    );
}

#[test]
fn written_entry_reads_back() {
    for n in [0u32, 1, 9, 10, 11, 99, 100, 12345, u32::MAX] {
        let line = RegistryEntry::Depth("~/some dir".to_string(), n).to_line();
        assert_eq!(parsed(&line), ("~/some dir".to_string(), Some(n)));
    }
}

#[test]
fn decimal_digits() {
    assert_eq!(decimal_string(0), "0");
    assert_eq!(decimal_string(7), "7");
    assert_eq!(decimal_string(10), "10");
    assert_eq!(decimal_string(909), "909");
    assert_eq!(decimal_string(u32::MAX), "4294967295");
}

#[test]
fn depth_input() {
    assert_eq!(parse_depth("3"), Some(3));
    assert_eq!(parse_depth("0"), Some(0));
    assert_eq!(parse_depth("0012"), Some(12));
    assert_eq!(parse_depth("4294967295"), Some(u32::MAX));
    assert_eq!(parse_depth("4294967296"), None);
    assert_eq!(parse_depth(""), None);
    assert_eq!(parse_depth("abc"), None);
    assert_eq!(parse_depth("1a"), None);
    assert_eq!(parse_depth(" 1"), None);
    assert_eq!(parse_depth("+1"), None);
    assert_eq!(parse_depth("-1"), None);
}

#[test]
fn add_appends_the_short_path() {
    let out = add_project(&lines(&["~/a"]), "/home/u/b", None, HOME);
    assert_eq!(out, lines(&["~/a", "~/b"]));
}

#[test]
fn add_with_depth_writes_the_depth() {
    let out = add_project(&Vec::new(), "/tmp/b/", Some(1), HOME);
    assert_eq!(out, lines(&["/tmp/b --depth 1"]));
}

#[test]
fn add_twice_leaves_one_line() {
    let once = add_project(&lines(&["~/a", "~/b"]), "~/b", None, HOME);
    let twice = add_project(&once, "~/b", None, HOME);
    assert_eq!(once, lines(&["~/a", "~/b"]));
    assert_eq!(twice, lines(&["~/a", "~/b"]));
    assert_eq!(twice.iter().filter(|l| RegistryEntry::parse(l).path() == "~/b").count(), 1);
}

#[test]
fn add_replaces_an_entry_with_depth() {
    let start = lines(&["~/b --depth 3", "~/a", "~/b", "~/b --depth 1"]);
    let out = add_project(&start, "/home/u/b", Some(2), HOME);
    assert_eq!(out, lines(&["~/a", "~/b --depth 2"]));
    let back = add_project(&out, "~/b/", None, HOME);
    assert_eq!(back, lines(&["~/a", "~/b"]));
}

#[test]
fn add_keeps_paths_that_only_begin_alike() {
    let start = lines(&["~/bb", "~/b/c", "~/bb --depth 1"]);
    let out = add_project(&start, "~/b", None, HOME);
    assert_eq!(out, lines(&["~/bb", "~/b/c", "~/bb --depth 1", "~/b"]));
}

#[test]
fn delete_removes_the_exact_line() {
    let start = lines(&["~/a", "~/b --depth 1", "~/b", "~/a"]);
    assert_eq!(delete_project(&start, "~/a"), lines(&["~/b --depth 1", "~/b"]));
    assert_eq!(delete_project(&start, "~/b"), lines(&["~/a", "~/b --depth 1", "~/a"]));
    assert_eq!(delete_project(&start, "~/b --depth 1"), lines(&["~/a", "~/b", "~/a"]));
    assert_eq!(delete_project(&start, "~/c"), start);
    assert_eq!(delete_project(&Vec::new(), "~/c"), Vec::<String>::new());
}

#[test]
fn set_depth_sets_and_sorts() {
    let start = lines(&["~/c", "~/a", "~/b"]);
    assert_eq!(set_depth(&start, "~/c", Some(2)), lines(&["~/a", "~/b", "~/c --depth 2"]));
}

#[test]
fn set_depth_replaces_the_old_depth() {
    let start = lines(&["~/b --depth 1", "~/a"]);
    assert_eq!(set_depth(&start, "~/b --depth 1", Some(5)), lines(&["~/a", "~/b --depth 5"]));
    assert_eq!(set_depth(&start, "~/b", Some(5)), lines(&["~/a", "~/b --depth 5"]));
}

#[test]
fn set_depth_without_depth_removes_it() {
    let start = lines(&["~/b --depth 1", "~/a"]);
    assert_eq!(set_depth(&start, "~/b --depth 1", None), lines(&["~/a", "~/b"]));
    assert_eq!(set_depth(&start, "~/a", None), lines(&["~/a", "~/b --depth 1"]));
}

#[test]
fn set_depth_leaves_longer_paths_alone() {
    let start = lines(&["~/bb --depth 1", "~/b --depth 1"]);
    assert_eq!(set_depth(&start, "~/b", Some(2)), lines(&["~/b --depth 2", "~/bb --depth 1"]));
}

#[test]
fn sort_is_by_code_point() {
    let start = lines(&["b", "a", "", "B", "ab", "a", "é", "z", "~", "/"]);
    let mut expected = start.clone();
    expected.sort();
    assert_eq!(sort_lines(&start), expected);
    assert_eq!(sort_lines(&start), lines(&["", "/", "B", "a", "a", "ab", "b", "z", "~", "é"]));
}

#[test]
fn sort_keeps_every_line() {
    let start = lines(&["x", "x", "w", "x"]);
    assert_eq!(sort_lines(&start), lines(&["w", "x", "x", "x"]));
    assert_eq!(sort_lines(&Vec::new()), Vec::<String>::new());
}
