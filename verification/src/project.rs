//! Projects: a directory named by its full path, by its path relative to the
//! home directory, and by the session name that stands for it.

use crate::text::{chars_of, string_of_range};
use vstd::prelude::*;

verus! {

/// `s` without the slashes at its end.
pub open spec fn trim_slashes(s: Seq<char>) -> Seq<char>
    decreases s.len(),
{
    if s.len() > 0 && s.last() == '/' {
        trim_slashes(s.drop_last())
    } else {
        s
    }
}

/// Whether `path` is the tilde alone or begins with a tilde and a slash.
pub open spec fn names_home(path: Seq<char>) -> bool {
    path.len() >= 1 && path[0] == '~' && (path.len() == 1 || path[1] == '/')
}

/// `path` with a leading tilde replaced by `home`, where the tilde stands
/// alone or before a slash; any other path is left as it is.
pub open spec fn tilde_expansion(path: Seq<char>, home: Seq<char>) -> Seq<char> {
    if names_home(path) {
        home + path.skip(1)
    } else {
        path
    }
}

/// Whether `path` is `home` itself or lies below it.
pub open spec fn under_home(path: Seq<char>, home: Seq<char>) -> bool {
    home.is_prefix_of(path) && (path.len() == home.len() || path[home.len() as int] == '/')
}

/// The short form of `path`: the home directory at its start is written as a
/// tilde, and a path elsewhere is left as it is.
pub open spec fn display_of(path: Seq<char>, home: Seq<char>) -> Seq<char> {
    if under_home(path, home) {
        seq!['~'] + path.skip(home.len() as int)
    } else {
        path
    }
}

/// The session name for a short path: every dot becomes an underscore.
pub open spec fn session_name_of(display: Seq<char>) -> Seq<char> {
    display.map_values(|c: char| if c == '.' { '_' } else { c })
}

/// What a project is: its three names.
pub ghost struct ProjectModel {
    pub expanded: Seq<char>,
    pub shortened: Seq<char>,
    pub session: Seq<char>,
}

/// The project that the raw path `path` stands for, given the home directory.
pub open spec fn project_of(path: Seq<char>, home: Seq<char>) -> ProjectModel {
    let expanded = trim_slashes(tilde_expansion(path, home));
    let shortened = trim_slashes(display_of(expanded, home));
    ProjectModel { expanded, shortened, session: trim_slashes(session_name_of(shortened)) }
}

/// `shellexpand::tilde_with_context`, with a home directory that is always
/// known. A path that is the tilde alone, or a tilde and then a slash, comes
/// back with `home` in place of the tilde. A path that does not begin with a
/// tilde, or has after it anything but a slash or a backslash, comes back
/// unchanged. A tilde and then a backslash is expanded on some platforms and
/// left alone on others.
#[verifier::external_body]
fn expand_tilde(path: &str, home: &str) -> (r: String)
    ensures
        names_home(path@) ==> r@ == home@ + path@.skip(1),
        path@.len() == 0 || path@[0] != '~' || (path@.len() > 1 && path@[1] != '/' && path@[1]
            != '\\') ==> r@ == path@,
        r@ == path@ || r@ == home@ + path@.skip(1),
{
    shellexpand::tilde_with_context(path, || Some(home)).into_owned()
}

/// `path` with its home directory written out.
pub fn expand_path(path: &str, home: &str) -> (r: String)
    ensures
        r@ == tilde_expansion(path@, home@),
{
    let chars = chars_of(path);
    if chars.len() > 1 && chars[0] == '~' && chars[1] == '\\' {
        path.to_owned()
    } else {
        expand_tilde(path, home)
    }
}

/// `s` without the slashes at its end.
pub fn trim_trailing_slashes(s: &str) -> (r: String)
    ensures
        r@ == trim_slashes(s@),
{
    let chars = chars_of(s);
    let mut end: usize = chars.len();
    assert(chars@.take(end as int) == chars@);
    while end > 0 && chars[end - 1] == '/'
        invariant
            end <= chars.len(),
            trim_slashes(chars@) == trim_slashes(chars@.take(end as int)),
        decreases end,
    {
        assert(chars@.take(end as int).drop_last() == chars@.take(end - 1));
        end -= 1;
    }
    string_of_range(&chars, 0, end)
}

/// A directory that the launcher can jump to.
#[derive(Debug, Clone)]
pub struct Project {
    shortened_path: String,
    expanded_path: String,
    tmux_display_path: String,
}

impl View for Project {
    type V = ProjectModel;

    closed spec fn view(&self) -> ProjectModel {
        ProjectModel {
            expanded: self.expanded_path@,
            shortened: self.shortened_path@,
            session: self.tmux_display_path@,
        }
    }
}

impl Project {
    /// The project for a raw path: the home directory is written out, then
    /// shortened again for display, and the session name is derived from
    /// the short form. No name ends in a slash.
    pub fn new(path: &str, home: &str) -> (r: Project)
        ensures
            r@ == project_of(path@, home@),
    {
        let expanded = expand_path(path, home);
        let expanded_path = trim_trailing_slashes(expanded.as_str());
        let shortened = Self::shorten_path(expanded_path.as_str(), home);
        let shortened_path = trim_trailing_slashes(shortened.as_str());
        let session = Self::format_for_tmux(shortened_path.as_str());
        let tmux_display_path = trim_trailing_slashes(session.as_str());
        Project { shortened_path, expanded_path, tmux_display_path }
    }

    /// The short form of a full path: below the home directory the home
    /// directory is written as a tilde; elsewhere the path stays as it is.
    pub fn shorten_path(path_str: &str, home: &str) -> (r: String)
        ensures
            r@ == display_of(path_str@, home@),
    {
        let path = chars_of(path_str);
        let base = chars_of(home);
        if crate::text::starts_with(&path, &base) && (path.len() == base.len() || path[base.len()]
            == '/') {
            let mut out = String::new();
            out.push('~');
            let mut i: usize = base.len();
            assert(path@.subrange(base.len() as int, i as int) == Seq::<char>::empty());
            while i < path.len()
                invariant
                    base.len() <= i <= path.len(),
                    out@ == seq!['~'] + path@.subrange(base.len() as int, i as int),
                decreases path.len() - i,
            {
                out.push(path[i]);
                i += 1;
                assert(path@.subrange(base.len() as int, i as int) == path@.subrange(
                    base.len() as int,
                    i - 1,
                ).push(path@[i - 1]));
            }
            assert(path@.subrange(base.len() as int, path.len() as int) == path@.skip(
                base.len() as int,
            ));
            out
        } else {
            path_str.to_owned()
        }
    }

    /// The session name for a short path: every dot is replaced by an
    /// underscore and every other character is kept.
    pub fn format_for_tmux(path: &str) -> (r: String)
        ensures
            r@ == session_name_of(path@),
            r@.len() == path@.len(),
    {
        let chars = chars_of(path);
        let mut out = String::new();
        let mut i: usize = 0;
        while i < chars.len()
            invariant
                i <= chars.len(),
                out@ == session_name_of(chars@.take(i as int)),
            decreases chars.len() - i,
        {
            let c: char = chars[i];
            out.push(if c == '.' { '_' } else { c });
            i += 1;
            assert(chars@.take(i as int) == chars@.take(i - 1).push(c));
        }
        assert(chars@.take(chars.len() as int) == chars@);
        out
    }

    /// The line under which the project is offered for selection: its short
    /// path.
    pub fn to_fzf_display(&self) -> (r: &str)
        ensures
            r@ == self@.shortened,
    {
        self.shortened_path.as_str()
    }

    /// The full path of the project's directory.
    pub fn expanded_path(&self) -> (r: &str)
        ensures
            r@ == self@.expanded,
    {
        self.expanded_path.as_str()
    }

    /// The name of the session that stands for the project.
    pub fn session_name(&self) -> (r: &str)
        ensures
            r@ == self@.session,
    {
        self.tmux_display_path.as_str()
    }

    /// Whether two projects are the same directory: whether their full
    /// paths are equal.
    pub fn same_path(&self, other: &Project) -> (r: bool)
        ensures
            r == (self@.expanded == other@.expanded),
    {
        self.expanded_path == other.expanded_path
    }

    /// A second value for the same project.
    pub fn duplicate(&self) -> (r: Project)
        ensures
            r@ == self@,
    {
        Project {
            shortened_path: self.shortened_path.clone(),
            expanded_path: self.expanded_path.clone(),
            tmux_display_path: self.tmux_display_path.clone(),
        }
    }
}

/// The directories that a probe of the file system found to exist.
#[derive(Debug)]
pub struct Directories {
    paths: Vec<String>,
}

impl View for Directories {
    type V = Set<Seq<char>>;

    closed spec fn view(&self) -> Set<Seq<char>> {
        self.paths.deep_view().to_set()
    }
}

impl Directories {
    /// The set of the paths in `paths`.
    pub fn new(paths: Vec<String>) -> (r: Directories)
        ensures
            r@ == paths.deep_view().to_set(),
    {
        Directories { paths }
    }

    /// Whether `path` is one of the directories.
    pub fn contains(&self, path: &str) -> (r: bool)
        ensures
            r == self@.contains(path@),
    {
        let wanted = path.to_owned();
        let mut i: usize = 0;
        while i < self.paths.len()
            invariant
                i <= self.paths.len(),
                wanted@ == path@,
                forall|j: int| 0 <= j < i ==> self.paths.deep_view()[j] != path@,
            decreases self.paths.len() - i,
        {
            if self.paths[i] == wanted {
                assert(self.paths.deep_view()[i as int] == path@);
                return true;
            }
            i += 1;
        }
        false
    }
}

impl Project {
    /// Whether the project's directory is among those found to exist.
    pub fn exists_in(&self, dirs: &Directories) -> (r: bool)
        ensures
            r == dirs@.contains(self@.expanded),
    {
        dirs.contains(self.expanded_path.as_str())
    }
}

/// What trimming gives does not end in a slash, and trimming it again
/// changes nothing.
pub proof fn lemma_trim_slashes(s: Seq<char>)
    ensures
        trim_slashes(s).len() == 0 || trim_slashes(s).last() != '/',
        trim_slashes(trim_slashes(s)) == trim_slashes(s),
        trim_slashes(s).is_prefix_of(s),
    decreases s.len(),
{
    if s.len() > 0 && s.last() == '/' {
        lemma_trim_slashes(s.drop_last());
    }
}

/// The short path of a project names the same project again, where the
/// home directory is a path from the root: a line that was offered, or kept
/// among the earlier choices, is read back as the project it was made from.
pub proof fn lemma_display_resolves(path: Seq<char>, home: Seq<char>)
    requires
        home.len() > 0,
        home[0] == '/',
    ensures
        project_of(project_of(path, home).shortened, home) == project_of(path, home),
{
    let p = project_of(path, home);
    let e = p.expanded;
    let shown = display_of(e, home);
    let d = p.shortened;
    lemma_trim_slashes(tilde_expansion(path, home));
    lemma_trim_slashes(shown);
    assert(!names_home(e)) by {
        let full = tilde_expansion(path, home);
        if e.len() > 0 {
            assert(e[0] == full[0]);
            if names_home(path) {
                assert(full[0] == home[0]);
            } else if e[0] == '~' {
                assert(path[0] == '~');
                if e.len() > 1 {
                    assert(e[1] == full[1]);
                } else {
                    if full.len() > 1 {
                        lemma_trim_keeps_inner(full, 1);
                    }
                }
            }
        }
    }
    if under_home(e, home) {
        let rest = e.skip(home.len() as int);
        assert(shown == seq!['~'] + rest);
        assert(shown.last() != '/') by {
            if rest.len() > 0 {
                assert(shown.last() == e.last());
            }
        }
        assert(d == shown);
        assert(names_home(d)) by {
            if rest.len() > 0 {
                assert(d[1] == rest[0]);
                assert(rest[0] == e[home.len() as int]);
            }
        }
        assert(d.skip(1) =~= rest);
        assert(home + rest =~= e);
        assert(tilde_expansion(d, home) == e);
    } else {
        assert(d == e);
        assert(tilde_expansion(d, home) == e);
    }
}

/// Trimming takes nothing away before a character that is no slash.
pub proof fn lemma_trim_keeps_inner(s: Seq<char>, i: int)
    requires
        0 <= i < s.len(),
        s[i] != '/',
    ensures
        trim_slashes(s).len() > i,
    decreases s.len(),
{
    if s.len() > 0 && s.last() == '/' {
        lemma_trim_keeps_inner(s.drop_last(), i);
    }
}

/// The short path is a key: with a home directory that is a path from the
/// root, two raw paths that are shown alike stand for one project, so that
/// no two directories are ever offered under one line.
pub proof fn lemma_display_is_a_key(a: Seq<char>, b: Seq<char>, home: Seq<char>)
    requires
        home.len() > 0,
        home[0] == '/',
        project_of(a, home).shortened == project_of(b, home).shortened,
    ensures
        project_of(a, home) == project_of(b, home),
{
    lemma_display_resolves(a, home);
    lemma_display_resolves(b, home);
}

} // verus!
