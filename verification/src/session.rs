//! From a selection to a session: which project was meant, and the steps
//! that bring the terminal into its session.

use crate::aggregate::{first_of_its_path, has_path, models};
use crate::project::{project_of, Project, ProjectModel};
use vstd::prelude::*;

verus! {

/// Why a run of steps ended without reaching the session.
#[derive(Debug, Clone, Copy, PartialEq, Eq, Structural)]
pub enum Failure {
    /// The session could not be created.
    Create,
    /// The client could not be switched to the session.
    Switch,
    /// No client could be attached to the session.
    Attach,
}

/// Where a run of steps stands.
#[derive(Debug, Clone, Copy, PartialEq, Eq, Structural)]
pub enum Stage {
    /// The session is being created.
    Creating,
    /// The terminal is being brought into the session.
    Connecting,
    /// Nothing is left to do.
    Finished,
}

/// What is to be done next.
pub ghost enum StepModel {
    Create { name: Seq<char>, root: Seq<char> },
    Switch { target: Seq<char> },
    Attach { name: Seq<char> },
    Fail(Failure),
    Done,
}

/// A run of steps: the session aimed at, the directory it is rooted in,
/// whether the terminal is inside the multiplexer, and the stage reached.
pub ghost struct AttachmentModel {
    pub session: Seq<char>,
    pub root: Seq<char>,
    pub inside: bool,
    pub stage: Stage,
}

/// The name by which a client is switched to a session: the tilde alone is
/// written with a backslash before it, every other name as it is.
pub open spec fn switch_target(session: Seq<char>) -> Seq<char> {
    if session == seq!['~'] {
        seq!['\\', '~']
    } else {
        session
    }
}

/// The step that brings the terminal into the session: inside the
/// multiplexer the client is switched, outside it a client is attached.
pub open spec fn connect_step(session: Seq<char>, inside: bool) -> StepModel {
    if inside {
        StepModel::Switch { target: switch_target(session) }
    } else {
        StepModel::Attach { name: session }
    }
}

/// How a run begins: a session that does not exist is created first, in the
/// project's directory; one that exists is entered at once.
pub open spec fn started(p: ProjectModel, session_exists: bool, inside: bool) -> (
    AttachmentModel,
    StepModel,
) {
    if session_exists {
        (
            AttachmentModel {
                session: p.session,
                root: p.expanded,
                inside,
                stage: Stage::Connecting,
            },
            connect_step(p.session, inside),
        )
    } else {
        (
            AttachmentModel { session: p.session, root: p.expanded, inside, stage: Stage::Creating },
            StepModel::Create { name: p.session, root: p.expanded },
        )
    }
}

/// How a run goes on once the last step has succeeded or failed. After a
/// creation that succeeded the session is entered; after one that failed
/// the run ends with that failure. After the terminal was brought into the
/// session the run is done; if that failed it ends with the failure of the
/// switch or of the attachment. A run that has ended stays ended.
pub open spec fn advanced(m: AttachmentModel, ok: bool) -> (AttachmentModel, StepModel) {
    let ended = AttachmentModel { stage: Stage::Finished, ..m };
    match m.stage {
        Stage::Creating => if ok {
            (AttachmentModel { stage: Stage::Connecting, ..m }, connect_step(m.session, m.inside))
        } else {
            (ended, StepModel::Fail(Failure::Create))
        },
        Stage::Connecting => if ok {
            (ended, StepModel::Done)
        } else if m.inside {
            (ended, StepModel::Fail(Failure::Switch))
        } else {
            (ended, StepModel::Fail(Failure::Attach))
        },
        Stage::Finished => (ended, StepModel::Done),
    }
}

/// Whether a step ends a run.
pub open spec fn is_last(step: StepModel) -> bool {
    step is Done || step is Fail
}

/// The steps of a run from `step` on, where `results` says of each step
/// that is carried out whether it succeeded.
pub open spec fn trace(m: AttachmentModel, step: StepModel, results: Seq<bool>) -> Seq<StepModel>
    decreases results.len(),
{
    if is_last(step) || results.len() == 0 {
        seq![step]
    } else {
        let next = advanced(m, results[0]);
        seq![step] + trace(next.0, next.1, results.drop_first())
    }
}

/// The whole run for a project. Where the session exists, the terminal is
/// brought into it and nothing else is done. Where it does not, it is
/// created exactly once; if that fails nothing follows, and otherwise the
/// terminal is brought into it exactly once. The terminal is brought in by
/// a switch inside the multiplexer and by an attachment outside it, never
/// by both.
pub proof fn lemma_attach_trace(p: ProjectModel, session_exists: bool, inside: bool, results: Seq<bool>)
    requires
        results.len() >= 2,
    ensures
        ({
            let (m, first) = started(p, session_exists, inside);
            let connect = connect_step(p.session, inside);
            let failure = if inside {
                Failure::Switch
            } else {
                Failure::Attach
            };
            let create = StepModel::Create { name: p.session, root: p.expanded };
            &&& session_exists && results[0] ==> trace(m, first, results) == seq![
                connect,
                StepModel::Done,
            ]
            &&& session_exists && !results[0] ==> trace(m, first, results) == seq![
                connect,
                StepModel::Fail(failure),
            ]
            &&& !session_exists && !results[0] ==> trace(m, first, results) == seq![
                create,
                StepModel::Fail(Failure::Create),
            ]
            &&& !session_exists && results[0] && results[1] ==> trace(m, first, results) == seq![
                create,
                connect,
                StepModel::Done,
            ]
            &&& !session_exists && results[0] && !results[1] ==> trace(m, first, results) == seq![
                create,
                connect,
                StepModel::Fail(failure),
            ]
            &&& (connect is Switch) == inside
            &&& (connect is Attach) == !inside
        }),
{
    let (m, first) = started(p, session_exists, inside);
    let second = advanced(m, results[0]);
    let rest = results.drop_first();
    assert(trace(m, first, results) == seq![first] + trace(second.0, second.1, rest));
    if is_last(second.1) {
        assert(trace(second.0, second.1, rest) == seq![second.1]);
        assert(seq![first] + seq![second.1] =~= seq![first, second.1]);
    } else {
        let third = advanced(second.0, rest[0]);
        assert(rest[0] == results[1]);
        assert(trace(second.0, second.1, rest) == seq![second.1] + trace(
            third.0,
            third.1,
            rest.drop_first(),
        ));
        assert(is_last(third.1));
        assert(trace(third.0, third.1, rest.drop_first()) == seq![third.1]);
        assert(seq![first] + (seq![second.1] + seq![third.1]) =~= seq![first, second.1, third.1]);
    }
}

/// What is to be done next.
#[derive(Debug)]
pub enum Step {
    /// Create the session `name`, rooted in the directory `root`.
    Create { name: String, root: String },
    /// Switch the client to the session `target`.
    Switch { target: String },
    /// Attach a client to the session `name`.
    Attach { name: String },
    /// Report the failure; the run has ended.
    Fail(Failure),
    /// Nothing: the run has ended.
    Done,
}

impl View for Step {
    type V = StepModel;

    open spec fn view(&self) -> StepModel {
        match self {
            Step::Create { name, root } => StepModel::Create { name: name@, root: root@ },
            Step::Switch { target } => StepModel::Switch { target: target@ },
            Step::Attach { name } => StepModel::Attach { name: name@ },
            Step::Fail(f) => StepModel::Fail(*f),
            Step::Done => StepModel::Done,
        }
    }
}

/// A run of steps towards the session of one project.
#[derive(Debug)]
pub struct Attachment {
    session: String,
    root: String,
    inside: bool,
    stage: Stage,
}

impl View for Attachment {
    type V = AttachmentModel;

    closed spec fn view(&self) -> AttachmentModel {
        AttachmentModel {
            session: self.session@,
            root: self.root@,
            inside: self.inside,
            stage: self.stage,
        }
    }
}

fn connect(session: &str, inside: bool) -> (r: Step)
    ensures
        r@ == connect_step(session@, inside),
{
    if inside {
        proof {
            reveal_strlit("~");
            reveal_strlit("\\~");
            assert("~"@ =~= seq!['~']);
            assert("\\~"@ =~= seq!['\\', '~']);
        }
        if crate::text::str_equal(session, "~") {
            Step::Switch { target: "\\~".to_owned() }
        } else {
            Step::Switch { target: session.to_owned() }
        }
    } else {
        Step::Attach { name: session.to_owned() }
    }
}

impl Project {
    /// Begins the run that brings the terminal into the project's session,
    /// and says what to do first: create the session, if it does not exist
    /// yet, or else enter it. `session_exists` is what the multiplexer
    /// answered for the project's session name; `inside_tmux` says whether
    /// the terminal is inside the multiplexer already.
    pub fn attach(&self, session_exists: bool, inside_tmux: bool) -> (r: (Attachment, Step))
        ensures
            (r.0@, r.1@) == started(self@, session_exists, inside_tmux),
    {
        let session = self.session_name().to_owned();
        let root = self.expanded_path().to_owned();
        if session_exists {
            let step = connect(session.as_str(), inside_tmux);
            (Attachment { session, root, inside: inside_tmux, stage: Stage::Connecting }, step)
        } else {
            let step = Step::Create { name: session.clone(), root: root.clone() };
            (Attachment { session, root, inside: inside_tmux, stage: Stage::Creating }, step)
        }
    }
}

impl Attachment {
    /// Where the run stands.
    pub fn stage(&self) -> (r: Stage)
        ensures
            r == self@.stage,
    {
        self.stage
    }

    /// Takes the outcome of the step handed out last, `ok` if it succeeded,
    /// and says what to do next.
    pub fn advance(&mut self, ok: bool) -> (r: Step)
        ensures
            (final(self)@, r@) == advanced(old(self)@, ok),
    {
        match self.stage {
            Stage::Creating => {
                if ok {
                    self.stage = Stage::Connecting;
                    connect(self.session.as_str(), self.inside)
                } else {
                    self.stage = Stage::Finished;
                    Step::Fail(Failure::Create)
                }
            },
            Stage::Connecting => {
                self.stage = Stage::Finished;
                if ok {
                    Step::Done
                } else if self.inside {
                    Step::Fail(Failure::Switch)
                } else {
                    Step::Fail(Failure::Attach)
                }
            },
            Stage::Finished => Step::Done,
        }
    }
}

/// What a selection came to.
#[derive(Debug)]
pub enum Resolution {
    /// Nothing was selected.
    NoSelection,
    /// The selection is none of the candidates any more.
    NotFound,
    /// The candidate that was selected.
    Found(Project),
}

/// Finds the candidate that a selected line stands for. An empty line is no
/// selection. Any other line is read as a path, and the first candidate
/// with that full path is the one meant; if there is none, the selection is
/// none of the candidates any more.
pub fn resolve_selection(selected: &str, candidates: &Vec<Project>, home: &str) -> (r: Resolution)
    ensures
        selected@.len() == 0 ==> r is NoSelection,
        selected@.len() > 0 && !has_path(
            models(candidates@),
            project_of(selected@, home@).expanded,
        ) ==> r is NotFound,
        selected@.len() > 0 && has_path(models(candidates@), project_of(selected@, home@).expanded)
            ==> r is Found && r->Found_0@.expanded == project_of(selected@, home@).expanded
            && exists|i: int|
            0 <= i < candidates.len() && first_of_its_path(models(candidates@), i) && (
            #[trigger] models(candidates@)[i]) == r->Found_0@,
{
    if selected.is_empty() {
        return Resolution::NoSelection;
    }
    let wanted = Project::new(selected, home);
    let ghost all = models(candidates@);
    let mut i: usize = 0;
    while i < candidates.len()
        invariant
            i <= candidates.len(),
            all == models(candidates@),
            selected@.len() > 0,
            wanted@ == project_of(selected@, home@),
            forall|j: int| 0 <= j < i ==> (#[trigger] all[j]).expanded != wanted@.expanded,
        decreases candidates.len() - i,
    {
        if candidates[i].same_path(&wanted) {
            let found = candidates[i].duplicate();
            assert(all[i as int] == found@);
            assert(first_of_its_path(all, i as int));
            return Resolution::Found(found);
        }
        i += 1;
    }
    Resolution::NotFound
}

} // verus!
