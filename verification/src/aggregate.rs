//! The candidates offered for selection: the roots of the registry with what
//! lies below them, and the live sessions, each directory once, without
//! what does not exist and without the session one is in.

use crate::project::{project_of, Directories, Project, ProjectModel};
use crate::registry::{parse_entry, EntryModel, RegistryEntry};
use crate::text::chars_of;
use vstd::prelude::*;

verus! {

/// What each project of a sequence is.
pub open spec fn models(ps: Seq<Project>) -> Seq<ProjectModel> {
    Seq::new(ps.len(), |i: int| ps[i]@)
}

/// The projects that raw paths stand for, one for each, in their order.
pub open spec fn projects_of(paths: Seq<Seq<char>>, home: Seq<char>) -> Seq<ProjectModel> {
    Seq::new(paths.len(), |i: int| project_of(paths[i], home))
}

/// The lines under which projects are offered: their short paths.
pub open spec fn displays(ps: Seq<ProjectModel>) -> Seq<Seq<char>> {
    Seq::new(ps.len(), |i: int| ps[i].shortened)
}

/// How many slashes `s` holds.
pub open spec fn count_slashes(s: Seq<char>) -> nat
    decreases s.len(),
{
    if s.len() == 0 {
        0
    } else {
        count_slashes(s.drop_last()) + if s.last() == '/' {
            1nat
        } else {
            0nat
        }
    }
}

/// How many levels `path` lies below `root`: none for `root` itself, one
/// for what stands directly in it, and one more for each further slash.
/// A path that does not lie below `root` has no such number.
pub open spec fn depth_below(root: Seq<char>, path: Seq<char>) -> Option<nat> {
    if path == root {
        Some(0)
    } else if root.push('/').is_prefix_of(path) {
        Some(1 + count_slashes(path.skip(root.len() as int + 1)))
    } else {
        None
    }
}

/// The test that a project lies at most `depth` levels below `root`.
pub open spec fn within_depth(root: Seq<char>, depth: nat) -> spec_fn(ProjectModel) -> bool {
    |p: ProjectModel| depth_below(root, p.expanded) is Some && depth_below(root, p.expanded)->0 <= depth
}

/// The test that a project's directory is one of `dirs`.
pub open spec fn in_dirs(dirs: Set<Seq<char>>) -> spec_fn(ProjectModel) -> bool {
    |p: ProjectModel| dirs.contains(p.expanded)
}

/// The test that a project's session is not the session `current`.
pub open spec fn outside(current: Option<Seq<char>>) -> spec_fn(ProjectModel) -> bool {
    |p: ProjectModel| current != Some(p.session)
}

/// A line of the registry with the directories that were found below its
/// path.
pub ghost struct RootModel {
    pub line: Seq<char>,
    pub found: Seq<Seq<char>>,
}

/// The projects that one line of the registry gives. A bare path gives
/// itself. A path with a depth gives itself and then, of the directories
/// found below it, those that lie within that many levels.
pub open spec fn root_projects(root: RootModel, home: Seq<char>) -> Seq<ProjectModel> {
    match parse_entry(root.line) {
        EntryModel::Plain(p) => seq![project_of(p, home)],
        EntryModel::Depth(p, n) => seq![project_of(p, home)] + projects_of(root.found, home).filter(
            within_depth(project_of(p, home).expanded, n),
        ),
    }
}

/// The projects of all lines of the registry, in the order of the lines.
pub open spec fn registry_projects(roots: Seq<RootModel>, home: Seq<char>) -> Seq<ProjectModel>
    decreases roots.len(),
{
    if roots.len() == 0 {
        Seq::empty()
    } else {
        registry_projects(roots.drop_last(), home) + root_projects(roots.last(), home)
    }
}

/// Everything that can be offered: the projects of the registry, and after
/// them those of the live sessions.
pub open spec fn gathered(roots: Seq<RootModel>, sessions: Seq<Seq<char>>, home: Seq<char>) -> Seq<
    ProjectModel,
> {
    registry_projects(roots, home) + projects_of(sessions, home)
}

/// Whether one of `ps` has the full path `path`.
pub open spec fn has_path(ps: Seq<ProjectModel>, path: Seq<char>) -> bool {
    exists|i: int| 0 <= i < ps.len() && (#[trigger] ps[i]).expanded == path
}

/// Whether no two of `ps` have the same full path.
pub open spec fn distinct_paths(ps: Seq<ProjectModel>) -> bool {
    forall|i: int, j: int|
        0 <= i < ps.len() && 0 <= j < ps.len() && i != j ==> (#[trigger] ps[i]).expanded != (
        #[trigger] ps[j]).expanded
}

/// `ps` with each full path once: of the projects with one path the first
/// stays, and what stays keeps its order.
pub open spec fn dedup_by_path(ps: Seq<ProjectModel>) -> Seq<ProjectModel>
    decreases ps.len(),
{
    if ps.len() == 0 {
        ps
    } else {
        let head = dedup_by_path(ps.drop_last());
        if has_path(head, ps.last().expanded) {
            head
        } else {
            head.push(ps.last())
        }
    }
}

/// The candidates: each directory once, then only those that exist, then
/// without the one whose session is the current one.
pub open spec fn candidates(
    all: Seq<ProjectModel>,
    dirs: Set<Seq<char>>,
    current: Option<Seq<char>>,
) -> Seq<ProjectModel> {
    dedup_by_path(all).filter(in_dirs(dirs)).filter(outside(current))
}

/// The lines shown at once, from the list of earlier choices: the projects
/// of its lines without the current session's and without what does not
/// exist, each directory once, by their short paths.
pub open spec fn seed_lines(
    cache: Seq<Seq<char>>,
    current: Option<Seq<char>>,
    dirs: Set<Seq<char>>,
    home: Seq<char>,
) -> Seq<Seq<char>> {
    displays(dedup_by_path(projects_of(cache, home).filter(outside(current)).filter(in_dirs(dirs))))
}

/// A line of the registry together with the directories that a listing of
/// its path found: for a bare path none are needed.
#[derive(Debug)]
pub struct RootListing {
    pub line: String,
    pub found: Vec<String>,
}

impl View for RootListing {
    type V = RootModel;

    open spec fn view(&self) -> RootModel {
        RootModel { line: self.line@, found: self.found.deep_view() }
    }
}

/// What each listing of a sequence is.
pub open spec fn root_models(roots: Seq<RootListing>) -> Seq<RootModel> {
    Seq::new(roots.len(), |i: int| roots[i]@)
}

/// Whether `path` lies at most `depth` levels below `root`.
pub fn lies_within(root: &str, path: &str, depth: u32) -> (r: bool)
    ensures
        r == (depth_below(root@, path@) is Some && depth_below(root@, path@)->0 <= depth),
{
    let base = chars_of(root);
    let full = chars_of(path);
    if crate::text::chars_equal(&base, &full) {
        return true;
    }
    let mut lead = base;
    lead.push('/');
    if !crate::text::starts_with(&full, &lead) {
        return false;
    }
    if depth == 0 {
        return false;
    }
    let from: usize = lead.len();
    let ghost tail = full@.skip(from as int);
    let mut levels: u64 = 1;
    let mut i: usize = from;
    assert(tail.take(0) == Seq::<char>::empty());
    assert(depth_below(root@, path@) == Some(1 + count_slashes(tail)));
    while i < full.len()
        invariant
            from <= i <= full.len(),
            tail == full@.skip(from as int),
            depth_below(root@, path@) == Some(1 + count_slashes(tail)),
            levels == 1 + count_slashes(tail.take(i - from)),
            levels <= depth,
            levels <= 1 + (i - from),
        decreases full.len() - i,
    {
        assert(tail.take(i - from + 1).drop_last() == tail.take(i - from));
        assert(tail.take(i - from + 1).last() == full@[i as int]);
        if full[i] == '/' {
            levels += 1;
            assert(levels == 1 + count_slashes(tail.take(i - from + 1)));
            if levels > depth as u64 {
                proof {
                    lemma_count_slashes_grows(tail, i - from + 1);
                    assert(depth_below(root@, path@) == Some(1 + count_slashes(tail)));
                }
                return false;
            }
        }
        i += 1;
    }
    assert(tail.take(i - from) == tail);
    true
}

/// Further characters never take slashes away.
pub proof fn lemma_count_slashes_grows(s: Seq<char>, i: int)
    requires
        0 <= i <= s.len(),
    ensures
        count_slashes(s.take(i)) <= count_slashes(s),
    decreases s.len() - i,
{
    if i < s.len() {
        lemma_count_slashes_grows(s, i + 1);
        assert(s.take(i + 1).drop_last() == s.take(i));
    } else {
        assert(s.take(i) == s);
    }
}

/// The projects that the names of the live sessions stand for, one for each
/// name, in their order.
pub fn get_tmux_sessions(sessions: &Vec<String>, home: &str) -> (r: Vec<Project>)
    ensures
        models(r@) == projects_of(sessions.deep_view(), home@),
{
    let mut out: Vec<Project> = Vec::new();
    let mut i: usize = 0;
    while i < sessions.len()
        invariant
            i <= sessions.len(),
            models(out@) == projects_of(sessions.deep_view(), home@).take(i as int),
        decreases sessions.len() - i,
    {
        let ghost before = models(out@);
        let ghost all = projects_of(sessions.deep_view(), home@);
        let next = Project::new(sessions[i].as_str(), home);
        assert(next@ == all[i as int]);
        out.push(next);
        assert(models(out@) =~= before.push(all[i as int]));
        assert(all.take(i + 1) =~= all.take(i as int).push(all[i as int]));
        i += 1;
    }
    assert(models(out@) =~= projects_of(sessions.deep_view(), home@));
    out
}

/// The projects that one line of the registry gives: its path, and for a
/// path with a depth also the directories found within that many levels
/// below it.
pub fn expand_root(root: &RootListing, home: &str) -> (r: Vec<Project>)
    ensures
        models(r@) == root_projects(root@, home@),
{
    let mut out: Vec<Project> = Vec::new();
    match RegistryEntry::parse(root.line.as_str()) {
        RegistryEntry::Plain(p) => {
            out.push(Project::new(p.as_str(), home));
            assert(models(out@) =~= seq![project_of(p@, home@)]);
        },
        RegistryEntry::Depth(p, n) => {
            let top = Project::new(p.as_str(), home);
            let ghost all = projects_of(root.found.deep_view(), home@);
            let ghost keep = within_depth(top@.expanded, n as nat);
            let ghost first = top@;
            out.push(top.duplicate());
            let mut i: usize = 0;
            proof {
                all.take(0).lemma_filter_len(keep);
                assert(models(out@) =~= seq![first] + all.take(0).filter(keep));
            }
            while i < root.found.len()
                invariant
                    i <= root.found.len(),
                    all == projects_of(root.found.deep_view(), home@),
                    keep == within_depth(top@.expanded, n as nat),
                    first == top@,
                    models(out@) == seq![first] + all.take(i as int).filter(keep),
                decreases root.found.len() - i,
            {
                let ghost before = models(out@);
                let sub = Project::new(root.found[i].as_str(), home);
                proof {
                    assert(all.take(i + 1) =~= all.take(i as int).push(all[i as int]));
                    all.take(i as int).lemma_filter_push(all[i as int], keep);
                    assert(sub@ == all[i as int]);
                }
                if lies_within(top.expanded_path(), sub.expanded_path(), n) {
                    out.push(sub);
                    assert(models(out@) =~= before.push(all[i as int]));
                }
                i += 1;
            }
            assert(all.take(root.found.len() as int) =~= all);
        },
    }
    out
}

/// Whether one of `projects` is the same directory as `wanted`.
fn contains_path(projects: &Vec<Project>, wanted: &Project) -> (r: bool)
    ensures
        r == has_path(models(projects@), wanted@.expanded),
{
    let mut i: usize = 0;
    while i < projects.len()
        invariant
            i <= projects.len(),
            forall|j: int|
                0 <= j < i ==> (#[trigger] models(projects@)[j]).expanded != wanted@.expanded,
        decreases projects.len() - i,
    {
        if projects[i].same_path(wanted) {
            assert(models(projects@)[i as int].expanded == wanted@.expanded);
            return true;
        }
        i += 1;
    }
    false
}

/// `projects` with each full path once: the first project of each path
/// stays, in the order in which they came.
pub fn unique_projects(projects: &Vec<Project>) -> (r: Vec<Project>)
    ensures
        models(r@) == dedup_by_path(models(projects@)),
{
    let ghost all = models(projects@);
    let mut out: Vec<Project> = Vec::new();
    let mut i: usize = 0;
    assert(all.take(0) =~= models(out@));
    while i < projects.len()
        invariant
            i <= projects.len(),
            all == models(projects@),
            models(out@) == dedup_by_path(all.take(i as int)),
        decreases projects.len() - i,
    {
        let ghost before = models(out@);
        assert(all.take(i + 1).drop_last() =~= all.take(i as int));
        assert(all.take(i + 1).last() == all[i as int]);
        if !contains_path(&out, &projects[i]) {
            out.push(projects[i].duplicate());
            assert(models(out@) =~= before.push(all[i as int]));
        }
        i += 1;
    }
    assert(all.take(projects.len() as int) =~= all);
    out
}

/// Everything that can be offered, each directory once: the projects of the
/// registry in the order of its lines, then those of the live sessions. Of
/// the projects with one full path the first stays.
pub fn get_projects(roots: &Vec<RootListing>, sessions: &Vec<String>, home: &str) -> (r: Vec<
    Project,
>)
    ensures
        models(r@) == dedup_by_path(
            gathered(root_models(roots@), sessions.deep_view(), home@),
        ),
{
    let ghost lines = root_models(roots@);
    let mut all: Vec<Project> = Vec::new();
    let mut i: usize = 0;
    assert(models(all@) =~= registry_projects(lines.take(0), home@));
    while i < roots.len()
        invariant
            i <= roots.len(),
            lines == root_models(roots@),
            models(all@) == registry_projects(lines.take(i as int), home@),
        decreases roots.len() - i,
    {
        let ghost before = models(all@);
        let mut more = expand_root(&roots[i], home);
        let ghost added = models(more@);
        assert(lines.take(i + 1).drop_last() =~= lines.take(i as int));
        assert(lines.take(i + 1).last() == roots@[i as int]@);
        all.append(&mut more);
        assert(models(all@) =~= before + added);
        i += 1;
    }
    assert(lines.take(roots.len() as int) =~= lines);
    let ghost before = models(all@);
    let mut live = get_tmux_sessions(sessions, home);
    let ghost added = models(live@);
    all.append(&mut live);
    assert(models(all@) =~= before + added);
    unique_projects(&all)
}

/// Of `projects`, those whose directory is among `dirs`, in their order.
pub fn filter_exists(projects: &Vec<Project>, dirs: &Directories) -> (r: Vec<Project>)
    ensures
        models(r@) == models(projects@).filter(in_dirs(dirs@)),
{
    let ghost all = models(projects@);
    let ghost keep = in_dirs(dirs@);
    let mut out: Vec<Project> = Vec::new();
    let mut i: usize = 0;
    proof {
        all.take(0).lemma_filter_len(keep);
        assert(models(out@) =~= all.take(0).filter(keep));
    }
    while i < projects.len()
        invariant
            i <= projects.len(),
            all == models(projects@),
            keep == in_dirs(dirs@),
            models(out@) == all.take(i as int).filter(keep),
        decreases projects.len() - i,
    {
        let ghost before = models(out@);
        proof {
            assert(all.take(i + 1) =~= all.take(i as int).push(all[i as int]));
            all.take(i as int).lemma_filter_push(all[i as int], keep);
        }
        if projects[i].exists_in(dirs) {
            out.push(projects[i].duplicate());
            assert(models(out@) =~= before.push(all[i as int]));
        }
        i += 1;
    }
    assert(all.take(projects.len() as int) =~= all);
    out
}

/// Of `projects`, those whose session is not `current`, in their order;
/// with no current session, all of them.
pub fn exclude_current(projects: &Vec<Project>, current: &Option<String>) -> (r: Vec<Project>)
    ensures
        models(r@) == models(projects@).filter(outside(current.deep_view())),
{
    let ghost all = models(projects@);
    let ghost keep = outside(current.deep_view());
    let mut out: Vec<Project> = Vec::new();
    let mut i: usize = 0;
    proof {
        all.take(0).lemma_filter_len(keep);
        assert(models(out@) =~= all.take(0).filter(keep));
    }
    while i < projects.len()
        invariant
            i <= projects.len(),
            all == models(projects@),
            keep == outside(current.deep_view()),
            models(out@) == all.take(i as int).filter(keep),
        decreases projects.len() - i,
    {
        let ghost before = models(out@);
        proof {
            assert(all.take(i + 1) =~= all.take(i as int).push(all[i as int]));
            all.take(i as int).lemma_filter_push(all[i as int], keep);
        }
        let here = match current {
            Some(name) => crate::text::str_equal(projects[i].session_name(), name.as_str()),
            None => false,
        };
        if !here {
            out.push(projects[i].duplicate());
            assert(models(out@) =~= before.push(all[i as int]));
        }
        i += 1;
    }
    assert(all.take(projects.len() as int) =~= all);
    out
}

/// The short paths of `projects`, in their order.
fn display_lines(projects: &Vec<Project>) -> (r: Vec<String>)
    ensures
        r.deep_view() == displays(models(projects@)),
{
    let mut out: Vec<String> = Vec::new();
    let mut i: usize = 0;
    while i < projects.len()
        invariant
            i <= projects.len(),
            out.deep_view() == displays(models(projects@)).take(i as int),
        decreases projects.len() - i,
    {
        let ghost before = out.deep_view();
        let ghost all = displays(models(projects@));
        let line = projects[i].to_fzf_display().to_owned();
        assert(line@ == all[i as int]);
        out.push(line);
        assert(out.deep_view() =~= before.push(all[i as int]));
        assert(all.take(i + 1) =~= all.take(i as int).push(all[i as int]));
        i += 1;
    }
    assert(out.deep_view() =~= displays(models(projects@)));
    out
}

/// The lines to offer for `projects`: the short path of each directory,
/// once for each full path, in the order in which they came.
pub fn prepare_fzf_content(projects: &Vec<Project>) -> (r: Vec<String>)
    ensures
        r.deep_view() == displays(dedup_by_path(models(projects@))),
{
    let unique = unique_projects(projects);
    display_lines(&unique)
}

/// The lines to show before anything else is known, taken from the list of
/// earlier choices: the project of each line, without the one of the current
/// session and without those whose directory does not exist, each full path
/// once, by their short paths and in the order of the list.
pub fn prepare_fzf_content_from_cache(
    cache_lines: &Vec<String>,
    current: &Option<String>,
    dirs: &Directories,
    home: &str,
) -> (r: Vec<String>)
    ensures
        r.deep_view() == seed_lines(
            cache_lines.deep_view(),
            current.deep_view(),
            dirs@,
            home@,
        ),
{
    let all = get_tmux_sessions(cache_lines, home);
    let elsewhere = exclude_current(&all, current);
    let present = filter_exists(&elsewhere, dirs);
    prepare_fzf_content(&present)
}

/// The candidates to offer: what the registry and the live sessions give,
/// each directory once with the first project of each full path kept, then
/// only the directories that exist, then without the project whose session
/// is the current one.
pub fn load_and_filter_projects(
    roots: &Vec<RootListing>,
    sessions: &Vec<String>,
    home: &str,
    dirs: &Directories,
    current: &Option<String>,
) -> (r: Vec<Project>)
    ensures
        models(r@) == candidates(
            gathered(root_models(roots@), sessions.deep_view(), home@),
            dirs@,
            current.deep_view(),
        ),
        distinct_paths(models(r@)),
        forall|k: int|
            0 <= k < r.len() ==> dirs@.contains((#[trigger] models(r@)[k]).expanded)
                && current.deep_view() != Some(models(r@)[k].session),
{
    proof {
        lemma_candidates(
            gathered(root_models(roots@), sessions.deep_view(), home@),
            dirs@,
            current.deep_view(),
        );
    }
    let all = get_projects(roots, sessions, home);
    let present = filter_exists(&all, dirs);
    exclude_current(&present, current)
}

/// Where in `ps` the projects stand that `dedup_by_path` keeps, in the
/// order in which it keeps them.
pub open spec fn first_indices(ps: Seq<ProjectModel>) -> Seq<int>
    decreases ps.len(),
{
    if ps.len() == 0 {
        Seq::empty()
    } else {
        let head = first_indices(ps.drop_last());
        if has_path(dedup_by_path(ps.drop_last()), ps.last().expanded) {
            head
        } else {
            head.push(ps.len() - 1)
        }
    }
}

/// What is kept of projects with equal paths: each full path of `ps` stays
/// exactly once, by the first project that has it, and what stays is in the
/// order of `ps`.
pub proof fn lemma_first_occurrences(ps: Seq<ProjectModel>)
    ensures
        distinct_paths(dedup_by_path(ps)),
        forall|i: int| 0 <= i < ps.len() ==> has_path(dedup_by_path(ps), (#[trigger] ps[i]).expanded),
        first_indices(ps).len() == dedup_by_path(ps).len(),
        forall|k: int|
            0 <= k < dedup_by_path(ps).len() ==> 0 <= (#[trigger] first_indices(ps)[k]) < ps.len()
                && dedup_by_path(ps)[k] == ps[first_indices(ps)[k]],
        forall|k: int, l: int|
            0 <= k < l < dedup_by_path(ps).len() ==> (#[trigger] first_indices(ps)[k]) < (
            #[trigger] first_indices(ps)[l]),
        forall|k: int, j: int|
            0 <= k < dedup_by_path(ps).len() && 0 <= j < first_indices(ps)[k] ==> (
            #[trigger] ps[j]).expanded != (#[trigger] dedup_by_path(ps)[k]).expanded,
    decreases ps.len(),
{
    if ps.len() > 0 {
        let t = ps.drop_last();
        let x = ps.last();
        let dt = dedup_by_path(t);
        let it = first_indices(t);
        let d = dedup_by_path(ps);
        let idx = first_indices(ps);
        lemma_first_occurrences(t);
        assert forall|k: int| 0 <= k < dt.len() implies dt[k] == ps[#[trigger] it[k]] by {
            assert(dt[k] == t[it[k]]);
        }
        if has_path(dt, x.expanded) {
            assert forall|i: int| 0 <= i < ps.len() implies has_path(
                d,
                (#[trigger] ps[i]).expanded,
            ) by {
                if i < t.len() {
                    assert(ps[i] == t[i]);
                }
            }
            assert forall|k: int, j: int| 0 <= k < d.len() && 0 <= j < idx[k] implies (
            #[trigger] ps[j]).expanded != (#[trigger] d[k]).expanded by {
                assert(ps[j] == t[j]);
            }
        } else {
            assert forall|i: int| 0 <= i < ps.len() implies has_path(
                d,
                (#[trigger] ps[i]).expanded,
            ) by {
                if i < t.len() {
                    assert(ps[i] == t[i]);
                    let w = choose|w: int| 0 <= w < dt.len() && (#[trigger] dt[w]).expanded
                        == t[i].expanded;
                    assert(d[w].expanded == ps[i].expanded);
                } else {
                    assert(d[d.len() - 1].expanded == ps[i].expanded);
                }
            }
            assert forall|i: int, j: int|
                0 <= i < d.len() && 0 <= j < d.len() && i != j implies (#[trigger] d[i]).expanded
                != (#[trigger] d[j]).expanded by {
                if i < dt.len() && j < dt.len() {
                    assert(d[i] == dt[i] && d[j] == dt[j]);
                } else if i < dt.len() {
                    assert(d[i] == dt[i]);
                } else {
                    assert(d[j] == dt[j]);
                }
            }
            assert forall|k: int|
                0 <= k < d.len() implies 0 <= (#[trigger] idx[k]) < ps.len() && d[k]
                == ps[idx[k]] by {
                if k < dt.len() {
                    assert(idx[k] == it[k]);
                }
            }
            assert forall|k: int, l: int| 0 <= k < l < d.len() implies (#[trigger] idx[k]) < (
            #[trigger] idx[l]) by {
                assert(idx[k] == it[k]);
                if l < dt.len() {
                    assert(idx[l] == it[l]);
                }
            }
            assert forall|k: int, j: int| 0 <= k < d.len() && 0 <= j < idx[k] implies (
            #[trigger] ps[j]).expanded != (#[trigger] d[k]).expanded by {
                assert(ps[j] == t[j]);
                if k < dt.len() {
                    assert(idx[k] == it[k]);
                    assert(d[k] == dt[k]);
                } else {
                    if t[j].expanded == x.expanded {
                        assert(has_path(dt, t[j].expanded));
                    }
                }
            }
        }
    }
}

/// A filter of projects with different paths holds projects with different
/// paths.
pub proof fn lemma_filter_distinct_paths(ps: Seq<ProjectModel>, keep: spec_fn(ProjectModel) -> bool)
    requires
        distinct_paths(ps),
    ensures
        distinct_paths(ps.filter(keep)),
    decreases ps.len(),
{
    reveal(Seq::filter);
    if ps.len() > 0 {
        let t = ps.drop_last();
        let x = ps.last();
        assert forall|i: int, j: int|
            0 <= i < t.len() && 0 <= j < t.len() && i != j implies (#[trigger] t[i]).expanded != (
            #[trigger] t[j]).expanded by {
            assert(t[i] == ps[i] && t[j] == ps[j]);
        }
        lemma_filter_distinct_paths(t, keep);
        if keep(x) {
            let f = t.filter(keep);
            assert forall|i: int| 0 <= i < f.len() implies (#[trigger] f[i]).expanded
                != x.expanded by {
                assert(f.contains(f[i]));
                t.lemma_filter_contains_rev(keep, f[i]);
                let j = choose|j: int| 0 <= j < t.len() && t[j] == f[i];
                assert(ps[j] == t[j]);
                assert(ps[j].expanded != ps[ps.len() - 1].expanded);
            }
        }
    }
}

/// Whether no project before the one at `i` has its full path.
pub open spec fn first_of_its_path(ps: Seq<ProjectModel>, i: int) -> bool {
    forall|j: int| 0 <= j < i ==> (#[trigger] ps[j]).expanded != ps[i].expanded
}

/// What the candidates are. No two have the same full path; each is one of
/// the projects gathered, exists, and is not the project of the current
/// session; and each project gathered that is the first of its path,
/// exists and is not the project of the current session is a candidate.
pub proof fn lemma_candidates(
    all: Seq<ProjectModel>,
    dirs: Set<Seq<char>>,
    current: Option<Seq<char>>,
)
    ensures
        distinct_paths(candidates(all, dirs, current)),
        forall|k: int|
            0 <= k < candidates(all, dirs, current).len() ==> {
                let c = #[trigger] candidates(all, dirs, current)[k];
                all.contains(c) && dirs.contains(c.expanded) && current != Some(c.session)
            },
        forall|i: int|
            0 <= i < all.len() && first_of_its_path(all, i) && dirs.contains(
                (#[trigger] all[i]).expanded,
            ) && current != Some(all[i].session) ==> candidates(all, dirs, current).contains(
                all[i],
            ),
{
    let d = dedup_by_path(all);
    let e = d.filter(in_dirs(dirs));
    let c = e.filter(outside(current));
    let idx = first_indices(all);
    lemma_first_occurrences(all);
    lemma_filter_distinct_paths(d, in_dirs(dirs));
    lemma_filter_distinct_paths(e, outside(current));
    assert forall|k: int| 0 <= k < c.len() implies {
        let x = #[trigger] c[k];
        all.contains(x) && dirs.contains(x.expanded) && current != Some(x.session)
    } by {
        let x = c[k];
        e.lemma_filter_pred(outside(current), k);
        assert(c.contains(x));
        e.lemma_filter_contains_rev(outside(current), x);
        let m = choose|m: int| 0 <= m < e.len() && e[m] == x;
        d.lemma_filter_pred(in_dirs(dirs), m);
        assert(e.contains(x));
        d.lemma_filter_contains_rev(in_dirs(dirs), x);
        let w = choose|w: int| 0 <= w < d.len() && d[w] == x;
        assert(x == all[idx[w]]);
    }
    assert forall|i: int|
        0 <= i < all.len() && first_of_its_path(all, i) && dirs.contains(
            (#[trigger] all[i]).expanded,
        ) && current != Some(all[i].session) implies c.contains(all[i]) by {
        let w = choose|w: int| 0 <= w < d.len() && (#[trigger] d[w]).expanded == all[i].expanded;
        assert(d[w] == all[idx[w]]);
        if idx[w] < i {
            assert(all[idx[w]].expanded != all[i].expanded);
        }
        if i < idx[w] {
            assert(all[i].expanded != d[w].expanded);
        }
        assert(d[w] == all[i]);
        d.lemma_filter_contains(in_dirs(dirs), w);
        let m = choose|m: int| 0 <= m < e.len() && e[m] == all[i];
        e.lemma_filter_contains(outside(current), m);
    }
}

/// What a path with a depth gives: the path itself comes first; every
/// project after it lies at most that many levels below the path; and each
/// directory found that lies at most that many levels below it is among the
/// projects.
pub proof fn lemma_depth_expansion(root: RootModel, home: Seq<char>)
    requires
        parse_entry(root.line) is Depth,
    ensures
        ({
            let top = project_of(entry_path_of(root.line), home);
            let depth = parse_entry(root.line)->Depth_1;
            let out = root_projects(root, home);
            &&& out.len() >= 1
            &&& out[0] == top
            &&& forall|k: int|
                1 <= k < out.len() ==> within_depth(top.expanded, depth)(#[trigger] out[k])
            &&& forall|j: int|
                0 <= j < root.found.len() && within_depth(top.expanded, depth)(
                    project_of(#[trigger] root.found[j], home),
                ) ==> out.contains(project_of(root.found[j], home))
        }),
{
    let top = project_of(entry_path_of(root.line), home);
    let depth = parse_entry(root.line)->Depth_1;
    let keep = within_depth(top.expanded, depth);
    let found = projects_of(root.found, home);
    let rest = found.filter(keep);
    let out = root_projects(root, home);
    assert(out == seq![top] + rest);
    assert forall|k: int| 1 <= k < out.len() implies keep(#[trigger] out[k]) by {
        found.lemma_filter_pred(keep, k - 1);
        assert(out[k] == rest[k - 1]);
    }
    assert forall|j: int|
        0 <= j < root.found.len() && keep(project_of(#[trigger] root.found[j], home)) implies out.contains(
        project_of(root.found[j], home),
    ) by {
        assert(found[j] == project_of(root.found[j], home));
        found.lemma_filter_contains(keep, j);
        let m = choose|m: int| 0 <= m < rest.len() && rest[m] == found[j];
        assert(out[m + 1] == rest[m]);
    }
}

/// The path that the entry of a line speaks of.
pub open spec fn entry_path_of(line: Seq<char>) -> Seq<char> {
    crate::registry::entry_path(parse_entry(line))
}

} // verus!
