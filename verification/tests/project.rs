use tmux_leap::project::{Directories, Project};

const HOME: &str = "/home/u";

fn names(p: &Project) -> (String, String, String) {
    (
        p.expanded_path().to_string(),
        p.to_fzf_display().to_string(),
        p.session_name().to_string(),
    )
}

fn triple(a: &str, b: &str, c: &str) -> (String, String, String) {
    (a.to_string(), b.to_string(), c.to_string())
}

#[test]
fn tilde_path_is_expanded_and_shown_short() {
    let p = Project::new("~/code/app", HOME);
    assert_eq!(names(&p), triple("/home/u/code/app", "~/code/app", "~/code/app"));
}

#[test]
fn expansion_changes_the_path() {
    let p = Project::new("~/x", "/srv/people/ann");
    assert_eq!(p.expanded_path(), "/srv/people/ann/x");
    assert_ne!(p.expanded_path(), "~/x");
}

#[test]
fn full_path_below_home_is_shortened() {
    let p = Project::new("/home/u/my.proj/", HOME);
    assert_eq!(names(&p), triple("/home/u/my.proj", "~/my.proj", "~/my_proj"));
}

#[test]
fn path_outside_home_stays() {
    let p = Project::new("/tmp/a", HOME);
    assert_eq!(names(&p), triple("/tmp/a", "/tmp/a", "/tmp/a"));
}

#[test]
fn tilde_alone_is_home() {
    let p = Project::new("~", HOME);
    assert_eq!(names(&p), triple("/home/u", "~", "~"));
}

#[test]
fn home_itself_is_the_tilde() {
    let p = Project::new("/home/u/", HOME);
    assert_eq!(names(&p), triple("/home/u", "~", "~"));
}

#[test]
fn sibling_of_home_is_not_below_it() {
    let p = Project::new("/home/user2/x", HOME);
    assert_eq!(names(&p), triple("/home/user2/x", "/home/user2/x", "/home/user2/x"));
}

#[test]
fn tilde_of_another_user_is_left_alone() {
    let p = Project::new("~other/x.y", HOME);
    assert_eq!(names(&p), triple("~other/x.y", "~other/x.y", "~other/x_y"));
}

#[test]
fn tilde_before_backslash_is_left_alone() {
    let p = Project::new("~\\x", HOME);
    assert_eq!(p.expanded_path(), "~\\x");
}

#[test]
fn all_trailing_slashes_go() {
    let p = Project::new("/tmp/a///", HOME);
    assert_eq!(p.expanded_path(), "/tmp/a");
    let q = Project::new("/", HOME);
    assert_eq!(q.expanded_path(), "");
}

#[test]
fn empty_path_gives_empty_names() {
    let p = Project::new("", HOME);
    assert_eq!(names(&p), triple("", "", ""));
}

#[test]
fn display_path_names_the_same_project_again() {
    let first = Project::new("/home/u/work/site", HOME);
    let again = Project::new(first.to_fzf_display(), HOME);
    assert_eq!(names(&first), names(&again));
}

#[test]
fn dots_become_underscores() {
    assert_eq!(Project::format_for_tmux("a.b.c"), "a_b_c");
    assert_eq!(Project::format_for_tmux("~/.config/nvim"), "~/_config/nvim");
    assert_eq!(Project::format_for_tmux("plain"), "plain");
    assert_eq!(Project::format_for_tmux(""), "");
    assert_eq!(Project::format_for_tmux("..."), "___");
}

#[test]
fn session_name_keeps_its_length() {
    let name = Project::format_for_tmux("~/a.b/c.d");
    assert_eq!(name.chars().count(), "~/a.b/c.d".chars().count());
}

#[test]
fn shorten_path_cases() {
    assert_eq!(Project::shorten_path("/home/u/a/b", HOME), "~/a/b");
    assert_eq!(Project::shorten_path("/home/u", HOME), "~");
    assert_eq!(Project::shorten_path("/home/ux", HOME), "/home/ux");
    assert_eq!(Project::shorten_path("/var/www", HOME), "/var/www");
    assert_eq!(Project::shorten_path("relative/home/u", HOME), "relative/home/u");
    assert_eq!(Project::shorten_path("/héllo/wörld", "/héllo"), "~/wörld");
}

#[test]
fn expand_path_cases() {
    assert_eq!(tmux_leap::project::expand_path("~", HOME), "/home/u");
    assert_eq!(tmux_leap::project::expand_path("~/", HOME), "/home/u/");
    assert_eq!(tmux_leap::project::expand_path("~/a", HOME), "/home/u/a");
    assert_eq!(tmux_leap::project::expand_path("~a", HOME), "~a");
    assert_eq!(tmux_leap::project::expand_path("a/~/b", HOME), "a/~/b");
    assert_eq!(tmux_leap::project::expand_path("", HOME), "");
}

#[test]
fn trim_trailing_slashes_cases() {
    assert_eq!(tmux_leap::project::trim_trailing_slashes("a/b/"), "a/b");
    assert_eq!(tmux_leap::project::trim_trailing_slashes("a/b"), "a/b");
    assert_eq!(tmux_leap::project::trim_trailing_slashes("///"), "");
    assert_eq!(tmux_leap::project::trim_trailing_slashes("/a//b//"), "/a//b");
}

#[test]
fn duplicate_is_the_same_project() {
    let p = Project::new("~/x.y", HOME);
    assert_eq!(names(&p), names(&p.duplicate()));
}

#[test]
fn directories_hold_what_was_given() {
    let dirs = Directories::new(vec!["/tmp/a".to_string(), "/home/u/x".to_string()]);
    assert!(dirs.contains("/tmp/a"));
    assert!(dirs.contains("/home/u/x"));
    assert!(!dirs.contains("/tmp"));
    assert!(!dirs.contains("/tmp/a/"));
    assert!(!Directories::new(Vec::new()).contains(""));
}

#[test]
fn project_exists_by_its_full_path() {
    let dirs = Directories::new(vec!["/home/u/x".to_string()]);
    assert!(Project::new("~/x", HOME).exists_in(&dirs));
    assert!(Project::new("/home/u/x/", HOME).exists_in(&dirs));
    assert!(!Project::new("~/y", HOME).exists_in(&dirs));
}
