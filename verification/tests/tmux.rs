use tmux_leap::tmux::{get_current_session, get_sessions, session_exists};

fn lines(items: &[&str]) -> Vec<String> {
    items.iter().map(|s| s.to_string()).collect()
}

#[test]
fn sessions_are_the_lines_of_the_answer() {
    assert_eq!(get_sessions(true, "~/a\n/tmp/b\n"), lines(&["~/a", "/tmp/b"]));
    assert_eq!(get_sessions(true, ""), Vec::<String>::new());
    assert_eq!(get_sessions(true, "one"), lines(&["one"]));
}

#[test]
fn failed_listing_has_no_sessions() {
    assert_eq!(get_sessions(false, "~/a\n/tmp/b\n"), Vec::<String>::new());
}

#[test]
fn session_is_found_by_name_and_colon() {
    let listing = "~/a: 1 windows (created Mon)\n/tmp/b: 2 windows (created Tue) (attached)\n";
    assert!(session_exists(listing, "~/a"));
    assert!(session_exists(listing, "/tmp/b"));
    assert!(!session_exists(listing, "/tmp"));
    assert!(!session_exists(listing, "a"));
    assert!(!session_exists(listing, "~/a: 1"));
    assert!(!session_exists("", "~/a"));
    assert!(session_exists("x:\n", "x"));
    assert!(!session_exists("x\n", "x"));
}

#[test]
fn current_session_is_the_trimmed_answer() {
    assert_eq!(get_current_session(true, "~/a_b\n"), Some("~/a_b".to_string()));
    assert_eq!(get_current_session(true, "  main \r\n"), Some("main".to_string()));
    assert_eq!(get_current_session(true, ""), Some(String::new()));
    assert_eq!(get_current_session(false, "~/a_b\n"), None);
}
