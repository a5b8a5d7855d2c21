//! Where the launcher keeps its files: the registry and the list of earlier
//! choices, both directly in the home directory.

use vstd::prelude::*;
use vstd::string::StringExecFns;

verus! {

/// The name of the registry file, below the home directory.
pub const PROJECTS_FILE: &'static str = ".projects";

/// The name of the file of earlier choices, below the home directory.
pub const CACHE_FILE: &'static str = ".projects_cache";

/// `file` as a path below `home`. A tilde at the start of `file` is dropped
/// first. What is left replaces `home` if it begins with a slash; otherwise
/// it follows `home`, after a slash unless `home` is empty or ends in one.
pub open spec fn home_path_of(home: Seq<char>, file: Seq<char>) -> Seq<char> {
    let rest = if file.len() > 0 && file[0] == '~' {
        file.skip(1)
    } else {
        file
    };
    if rest.len() > 0 && rest[0] == '/' {
        rest
    } else if home.len() == 0 || home.last() == '/' {
        home + rest
    } else {
        home.push('/') + rest
    }
}

/// `dirs::home_dir`: the home directory of the current user, as the
/// environment and the user database give it, or nothing where neither
/// knows one or the path is not valid Unicode. Nothing is claimed of it.
#[verifier::external_body]
fn home_directory() -> (r: Option<String>) {
    dirs::home_dir().and_then(|p| p.to_str().map(|s| s.to_owned()))
}

/// `file` as a path below `home`; see `home_path_of`.
pub fn get_home_path(home: &str, file: &str) -> (r: String)
    ensures
        r@ == home_path_of(home@, file@),
{
    let name = crate::text::chars_of(file);
    let base = crate::text::chars_of(home);
    let from: usize = if name.len() > 0 && name[0] == '~' {
        1
    } else {
        0
    };
    let rest = crate::text::string_of_range(&name, from, name.len());
    assert(name@.subrange(from as int, name.len() as int) == name@.skip(from as int));
    assert(name@.skip(0) == name@);
    if name.len() > from && name[from] == '/' {
        rest
    } else {
        let mut out = home.to_owned();
        if base.len() > 0 && base[base.len() - 1] != '/' {
            out.push('/');
        }
        out.append(rest.as_str());
        out
    }
}

/// The places that the launcher works with.
#[derive(Debug)]
pub struct Config {
    pub home: String,
    pub projects_file: String,
    pub cache_file: String,
}

impl Config {
    /// Whether both files are named as they are below `self.home`.
    pub open spec fn wf(&self) -> bool {
        &&& self.projects_file@ == home_path_of(self.home@, PROJECTS_FILE@)
        &&& self.cache_file@ == home_path_of(self.home@, CACHE_FILE@)
    }

    /// The places for a given home directory.
    pub fn new(home: &str) -> (r: Config)
        ensures
            r.wf(),
            r.home@ == home@,
    {
        Config {
            home: home.to_owned(),
            projects_file: get_home_path(home, PROJECTS_FILE),
            cache_file: get_home_path(home, CACHE_FILE),
        }
    }

    /// The places for the home directory of the current user, or nothing
    /// where no home directory can be found.
    pub fn load() -> (r: Option<Config>)
        ensures
            r is Some ==> r->0.wf(),
    {
        Config::for_home(home_directory())
    }

    /// The places for what a search for the home directory gave: those of
    /// the directory that was found, and nothing where none was found.
    pub fn for_home(found: Option<String>) -> (r: Option<Config>)
        ensures
            found is None ==> r is None,
            found is Some ==> r is Some && r->0.wf() && r->0.home@ == found->0@,
    {
        match found {
            Some(home) => Some(Config::new(home.as_str())),
            None => None,
        }
    }
}

} // verus!
