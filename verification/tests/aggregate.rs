use tmux_leap::aggregate::{
    exclude_current, expand_root, filter_exists, get_projects, get_tmux_sessions, lies_within,
    load_and_filter_projects, prepare_fzf_content, prepare_fzf_content_from_cache,
    unique_projects, RootListing,
};
use tmux_leap::project::{Directories, Project};

const HOME: &str = "/home/u";

fn lines(items: &[&str]) -> Vec<String> {
    items.iter().map(|s| s.to_string()).collect()
}

fn root(line: &str, found: &[&str]) -> RootListing {
    RootListing { line: line.to_string(), found: lines(found) }
}

fn paths(ps: &Vec<Project>) -> Vec<String> {
    ps.iter().map(|p| p.expanded_path().to_string()).collect()
}

fn shown(ps: &Vec<Project>) -> Vec<String> {
    ps.iter().map(|p| p.to_fzf_display().to_string()).collect()
}

#[test]
fn depth_counts_levels() {
    assert!(lies_within("/root", "/root", 0));
    assert!(!lies_within("/root", "/root/a", 0));
    assert!(lies_within("/root", "/root/a", 1));
    assert!(!lies_within("/root", "/root/a/b", 1));
    assert!(lies_within("/root", "/root/a/b", 2));
    assert!(!lies_within("/root", "/root/a/b/c", 2));
    assert!(lies_within("/root", "/root/a/b/c", 3));
    assert!(lies_within("/root", "/root/a/b/c", u32::MAX));
}

#[test]
fn depth_needs_the_path_below_the_root() {
    assert!(!lies_within("/root", "/rootx", 5));
    assert!(!lies_within("/root", "/roo", 5));
    assert!(!lies_within("/root", "/other/a", 5));
    assert!(!lies_within("/root", "", 5));
    assert!(lies_within("", "/usr", 1));
    assert!(lies_within("", "", 0));
}

#[test]
fn plain_line_gives_itself() {
    let out = expand_root(&root("~/a", &["/home/u/a/x"]), HOME);
    assert_eq!(paths(&out), lines(&["/home/u/a"]));
}

#[test]
fn depth_two_takes_two_levels_and_no_more() {
    let found = [
        "/root",
        "/root/a",
        "/root/a/b",
        "/root/a/b/c",
        "/root/d",
        "/root/d/e/f/g",
        "/elsewhere",
        "/root/h/i",
    ];
    let out = expand_root(&root("/root --depth 2", &found), HOME);
    assert_eq!(
        paths(&out),
        lines(&["/root", "/root", "/root/a", "/root/a/b", "/root/d", "/root/h/i"])
    );
}

#[test]
fn depth_zero_takes_the_root_only() {
    let out = expand_root(&root("/root --depth 0", &["/root", "/root/a"]), HOME);
    assert_eq!(paths(&out), lines(&["/root", "/root"]));
}

#[test]
fn depth_is_counted_from_the_expanded_root() {
    let out = expand_root(&root("~/w --depth 1", &["/home/u/w", "/home/u/w/x", "/home/u/w/x/y"]), HOME);
    assert_eq!(paths(&out), lines(&["/home/u/w", "/home/u/w", "/home/u/w/x"]));
    assert_eq!(shown(&out), lines(&["~/w", "~/w", "~/w/x"]));
}

#[test]
fn malformed_depth_line_is_one_path() {
    let out = expand_root(&root("/root --depth x", &["/root/a"]), HOME);
    assert_eq!(paths(&out), lines(&["/root --depth x"]));
}

#[test]
fn sessions_become_projects() {
    let out = get_tmux_sessions(&lines(&["~/a", "/tmp/b", "~/c_d"]), HOME);
    assert_eq!(paths(&out), lines(&["/home/u/a", "/tmp/b", "/home/u/c_d"]));
    assert_eq!(get_tmux_sessions(&Vec::new(), HOME).len(), 0);
}

#[test]
fn first_of_each_path_stays() {
    let all = get_tmux_sessions(&lines(&["~/a", "/tmp/b", "/home/u/a", "~/a/", "/tmp/c", "/tmp/b"]), HOME);
    let out = unique_projects(&all);
    assert_eq!(paths(&out), lines(&["/home/u/a", "/tmp/b", "/tmp/c"]));
}

#[test]
fn registry_comes_before_sessions() {
    let roots = vec![root("/tmp/a", &[]), root("/tmp/b --depth 1", &["/tmp/b", "/tmp/b/c"])];
    let out = get_projects(&roots, &lines(&["/tmp/z", "/tmp/b/c", "/tmp/a"]), HOME);
    assert_eq!(paths(&out), lines(&["/tmp/a", "/tmp/b", "/tmp/b/c", "/tmp/z"]));
}

#[test]
fn path_in_registry_and_session_appears_once() {
    let roots = vec![root("~/x", &[]), root("~/y", &[])];
    let out = get_projects(&roots, &lines(&["~/y", "~/x"]), HOME);
    assert_eq!(paths(&out), lines(&["/home/u/x", "/home/u/y"]));
}

#[test]
fn only_existing_directories_stay() {
    let all = get_tmux_sessions(&lines(&["/tmp/a", "/tmp/b", "/tmp/c"]), HOME);
    let dirs = Directories::new(lines(&["/tmp/c", "/tmp/a"]));
    assert_eq!(paths(&filter_exists(&all, &dirs)), lines(&["/tmp/a", "/tmp/c"]));
    assert_eq!(filter_exists(&all, &Directories::new(Vec::new())).len(), 0);
}

#[test]
fn current_session_is_left_out() {
    let all = get_tmux_sessions(&lines(&["~/a.b", "/tmp/b", "/tmp/c"]), HOME);
    let out = exclude_current(&all, &Some("~/a_b".to_string()));
    assert_eq!(paths(&out), lines(&["/tmp/b", "/tmp/c"]));
    let same = exclude_current(&all, &None);
    assert_eq!(paths(&same), paths(&all));
    let other = exclude_current(&all, &Some("~/a.b".to_string()));
    assert_eq!(paths(&other), paths(&all));
}

#[test]
fn registry_with_depth_end_to_end() {
    let roots = vec![root("/tmp/a", &[]), root("/tmp/b --depth 1", &["/tmp/b", "/tmp/b/c"])];
    let dirs = Directories::new(lines(&["/tmp/a", "/tmp/b", "/tmp/b/c"]));
    let out = load_and_filter_projects(&roots, &Vec::new(), HOME, &dirs, &None);
    assert_eq!(paths(&out), lines(&["/tmp/a", "/tmp/b", "/tmp/b/c"]));
    assert_eq!(shown(&out), lines(&["/tmp/a", "/tmp/b", "/tmp/b/c"]));
    assert_eq!(prepare_fzf_content(&out), lines(&["/tmp/a", "/tmp/b", "/tmp/b/c"]));
}

#[test]
fn end_to_end_drops_what_does_not_exist() {
    let roots = vec![root("/tmp/a", &[]), root("/tmp/b --depth 1", &["/tmp/b", "/tmp/b/c"])];
    let dirs = Directories::new(lines(&["/tmp/b", "/tmp/b/c"]));
    let out = load_and_filter_projects(&roots, &Vec::new(), HOME, &dirs, &None);
    assert_eq!(paths(&out), lines(&["/tmp/b", "/tmp/b/c"]));
}

#[test]
fn candidates_never_hold_the_current_session() {
    let roots = vec![root("~/a.b", &[]), root("~/c", &[])];
    let dirs = Directories::new(lines(&["/home/u/a.b", "/home/u/c", "/home/u/d"]));
    let sessions = lines(&["~/a.b", "~/d"]);
    let out = load_and_filter_projects(&roots, &sessions, HOME, &dirs, &Some("~/a_b".to_string()));
    assert_eq!(shown(&out), lines(&["~/c", "~/d"]));
    assert!(out.iter().all(|p| p.session_name() != "~/a_b"));
}

#[test]
fn fzf_content_is_one_line_for_each_path() {
    let all = get_tmux_sessions(&lines(&["~/a", "/home/u/a", "/tmp/b"]), HOME);
    assert_eq!(prepare_fzf_content(&all), lines(&["~/a", "/tmp/b"]));
    assert_eq!(prepare_fzf_content(&Vec::new()), Vec::<String>::new());
}

#[test]
fn seed_keeps_the_order_of_the_cache() {
    let cache = lines(&["~/c", "~/gone", "~/a.b", "/tmp/x", "/home/u/c", "~/here"]);
    let dirs = Directories::new(lines(&["/home/u/a.b", "/home/u/c", "/tmp/x", "/home/u/here"]));
    let out = prepare_fzf_content_from_cache(&cache, &Some("~/here".to_string()), &dirs, HOME);
    assert_eq!(out, lines(&["~/c", "~/a.b", "/tmp/x"]));
}

#[test]
fn seed_without_current_session() {
    let cache = lines(&["/tmp/a"]);
    let dirs = Directories::new(lines(&["/tmp/a"]));
    assert_eq!(prepare_fzf_content_from_cache(&cache, &None, &dirs, HOME), lines(&["/tmp/a"]));
    assert_eq!(
        prepare_fzf_content_from_cache(&Vec::new(), &None, &dirs, HOME),
        Vec::<String>::new()
    );
}
