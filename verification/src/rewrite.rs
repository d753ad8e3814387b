//! The atomic rewrite coordinator: where the output of a run goes, and the
//! order in which an in-place rewrite writes, and only then replaces, a file.

use vstd::prelude::*;
use vstd::string::{StrSliceExecFns, StringExecFns};
use crate::config::{ConfigError, JfmtConfig};

verus! {

/// What is appended to the input's path to name the temporary file of an
/// in-place rewrite.
pub const BACKUP_EXT: &'static str = ".inplace~";

/// The name that stands for standard input.
pub open spec fn stdin_name() -> Seq<char> {
    seq!['-']
}

/// The path of the temporary file beside `name`.
pub open spec fn temp_name(name: Seq<char>) -> Seq<char> {
    name + BACKUP_EXT@
}

/// Where the output of a run goes.
#[derive(Clone, Debug, PartialEq, Eq)]
pub enum OutputTarget {
    /// To standard output.
    Stdout,
    /// To the file at this path.
    NamedFile(String),
    /// To the temporary file at the first path, which takes the place of the
    /// file at the second once it is complete.
    TemporaryFile(String, String),
}

/// An output target as a mathematical value.
pub enum TargetView {
    Stdout,
    NamedFile(Seq<char>),
    TemporaryFile(Seq<char>, Seq<char>),
}

impl View for OutputTarget {
    type V = TargetView;

    open spec fn view(&self) -> TargetView {
        match self {
            OutputTarget::Stdout => TargetView::Stdout,
            OutputTarget::NamedFile(p) => TargetView::NamedFile(p@),
            OutputTarget::TemporaryFile(t, f) => TargetView::TemporaryFile(t@, f@),
        }
    }
}

impl TargetView {
    /// The path that is written to; none for standard output.
    pub open spec fn written_path(self) -> Option<Seq<char>> {
        match self {
            TargetView::Stdout => None,
            TargetView::NamedFile(p) => Some(p),
            TargetView::TemporaryFile(t, _) => Some(t),
        }
    }
}

/// The target of a run. An in-place rewrite needs an input file and excludes
/// an output file; it writes to the temporary file beside its input. Any other
/// run writes to its output file, or to standard output where it has none.
pub open spec fn target_of(in_place: bool, input: Seq<char>, output: Option<Seq<char>>) -> Result<
    TargetView,
    ConfigError,
> {
    if in_place {
        if input == stdin_name() {
            Err(ConfigError::InPlaceWithStdin)
        } else if output is Some {
            Err(ConfigError::InPlaceWithOutput)
        } else {
            Ok(TargetView::TemporaryFile(temp_name(input), input))
        }
    } else {
        match output {
            Some(p) => Ok(TargetView::NamedFile(p)),
            None => Ok(TargetView::Stdout),
        }
    }
}

/// The view of an optional path.
pub open spec fn path_view(p: Option<String>) -> Option<Seq<char>> {
    match p {
        Some(s) => Some(s@),
        None => None,
    }
}

/// Whether `name` stands for standard input.
pub fn is_stdin(name: &str) -> (r: bool)
    ensures
        r == (name@ == stdin_name()),
{
    if name.unicode_len() == 1 {
        let c: char = name.get_char(0);
        assert(c == '-' ==> name@ =~= stdin_name());
        c == '-'
    } else {
        false
    }
}

/// The path of the temporary file beside `name`.
pub fn get_temp_file_name(name: &str) -> (r: String)
    ensures
        r@ == temp_name(name@),
{
    let mut new_name = String::from_str(name);
    new_name.append(BACKUP_EXT);
    new_name
}

/// Decides where the output goes, before anything is opened.
pub fn plan(in_place: bool, input: &str, output: &Option<String>) -> (r: Result<
    OutputTarget,
    ConfigError,
>)
    ensures
        match r {
            Ok(t) => target_of(in_place, input@, path_view(*output)) == Ok::<
                TargetView,
                ConfigError,
            >(t@),
            Err(e) => target_of(in_place, input@, path_view(*output)) == Err::<
                TargetView,
                ConfigError,
            >(e),
        },
{
    if in_place {
        if is_stdin(input) {
            Err(ConfigError::InPlaceWithStdin)
        } else if output.is_some() {
            Err(ConfigError::InPlaceWithOutput)
        } else {
            Ok(OutputTarget::TemporaryFile(get_temp_file_name(input), String::from_str(input)))
        }
    } else {
        match output {
            Some(p) => Ok(OutputTarget::NamedFile(p.clone())),
            None => Ok(OutputTarget::Stdout),
        }
    }
}

/// The path of the file that a run writes to, or none where it writes to
/// standard output.
pub fn get_output_file_name(in_place: bool, output: &Option<String>, input: &str) -> (r: Result<
    Option<String>,
    ConfigError,
>)
    ensures
        match r {
            Ok(p) => target_of(in_place, input@, path_view(*output)) matches Ok(t)
                && path_view(p) == t.written_path(),
            Err(e) => target_of(in_place, input@, path_view(*output)) == Err::<
                TargetView,
                ConfigError,
            >(e),
        },
{
    match plan(in_place, input, output) {
        Ok(OutputTarget::Stdout) => Ok(None),
        Ok(OutputTarget::NamedFile(p)) => Ok(Some(p)),
        Ok(OutputTarget::TemporaryFile(t, _)) => Ok(Some(t)),
        Err(e) => Err(e),
    }
}

/// Where a run stands.
#[derive(Clone, Copy, Debug, PartialEq, Eq, Structural)]
pub enum RewriteState {
    /// Nothing has been decided or opened.
    Planning,
    /// The document is being written to its target.
    Writing,
    /// The temporary file is complete and is to replace the input file.
    Promoting,
    /// The run has succeeded.
    Done,
    /// The run has failed.
    Failed,
}

/// What has happened since the last action was handed out.
#[derive(Clone, Copy, Debug, PartialEq, Eq, Structural)]
pub enum Event {
    /// The run begins.
    Begin,
    /// The input is open for reading.
    Opened,
    /// The whole document was transcoded and written to the target.
    Written,
    /// The temporary file was renamed onto the input file.
    Promoted,
    /// The last action failed: the input could not be opened or read or is
    /// no JSON document, or the target could not be written or renamed.
    Fault,
}

/// What is to be done next.
#[derive(Clone, Debug, PartialEq, Eq)]
pub enum Action {
    /// Open the input for reading; `-` stands for standard input.
    Open { input: String },
    /// Transcode the input to the target. A target that is a file may take
    /// the place of an existing file only where `may_overwrite` allows it.
    Write { target: OutputTarget, may_overwrite: bool },
    /// Rename the file at `from` onto the path `to`.
    Promote { from: String, to: String },
    /// Report that the options contradict each other. Nothing was opened.
    Reject(ConfigError),
    /// Nothing is left to do: the run has succeeded.
    Finish,
    /// Nothing is left to do: the run has failed, and every file stays as it
    /// is.
    Halt,
}

/// An action as a mathematical value.
pub enum ActionView {
    Open { input: Seq<char> },
    Write { target: TargetView, may_overwrite: bool },
    Promote { from: Seq<char>, to: Seq<char> },
    Reject(ConfigError),
    Finish,
    Halt,
}

impl View for Action {
    type V = ActionView;

    open spec fn view(&self) -> ActionView {
        match self {
            Action::Open { input } => ActionView::Open { input: input@ },
            Action::Write { target, may_overwrite } => ActionView::Write {
                target: target@,
                may_overwrite: *may_overwrite,
            },
            Action::Promote { from, to } => ActionView::Promote { from: from@, to: to@ },
            Action::Reject(e) => ActionView::Reject(*e),
            Action::Finish => ActionView::Finish,
            Action::Halt => ActionView::Halt,
        }
    }
}

impl ActionView {
    /// Whether the action opens, writes or renames a file.
    pub open spec fn touches_files(self) -> bool {
        self is Open || self is Write || self is Promote
    }
}

/// What a run needs to know of its configuration.
pub struct RunView {
    pub in_place: bool,
    pub input: Seq<char>,
    pub output: Option<Seq<char>>,
    pub may_overwrite: bool,
}

impl RunView {
    /// The target of the run.
    pub open spec fn target(self) -> Result<TargetView, ConfigError> {
        target_of(self.in_place, self.input, self.output)
    }

    /// Whether the output file is named by the path of the input file.
    pub open spec fn writes_onto_input(self) -> bool {
        self.input != stdin_name() && self.output == Some(self.input)
    }

    /// Whether the target may take the place of a file that exists: only
    /// where the run was allowed to overwrite, and then neither the
    /// temporary file of an in-place rewrite nor the input file itself.
    pub open spec fn may_replace(self) -> bool {
        self.may_overwrite && !self.in_place && !self.writes_onto_input()
    }
}

impl JfmtConfig {
    /// What the coordinator reads of the configuration.
    pub open spec fn run_view(&self) -> RunView {
        RunView {
            in_place: self.in_place,
            input: self.input@,
            output: path_view(self.output),
            may_overwrite: self.may_overwrite,
        }
    }
}

/// Whether the target of the run may take the place of a file that exists.
pub fn may_replace(cfg: &JfmtConfig) -> (r: bool)
    ensures
        r == cfg.run_view().may_replace(),
{
    if !cfg.may_overwrite || cfg.in_place {
        return false;
    }
    match &cfg.output {
        Some(p) => is_stdin(cfg.input.as_str()) || !(*p == cfg.input),
        None => true,
    }
}

/// The coordinator's rule: the state and the action that follow a state and
/// an event.
///
/// Planning decides the target before anything is opened, and then has the
/// input opened; nothing else is attempted until it is open. Writing goes to
/// the temporary file of an in-place rewrite, or straight to the target of
/// any other run. A file that exists is replaced only where the run was
/// allowed to overwrite, and the temporary file and the input file not even
/// then: a Writing that meets such a file fails and leaves it as it is. Only a
/// complete Writing of an in-place rewrite leads to Promoting, whose one
/// action is the rename. A fault, or an event that the state does not expect,
/// ends the run in `Failed`; `Done` and `Failed` are never left.
pub open spec fn step(run: RunView, state: RewriteState, event: Event) -> (
    RewriteState,
    ActionView,
) {
    match (state, event) {
        (RewriteState::Planning, Event::Begin) => match run.target() {
            Ok(_) => (RewriteState::Planning, ActionView::Open { input: run.input }),
            Err(e) => (RewriteState::Failed, ActionView::Reject(e)),
        },
        (RewriteState::Planning, Event::Opened) => match run.target() {
            Ok(t) => (
                RewriteState::Writing,
                ActionView::Write { target: t, may_overwrite: run.may_replace() },
            ),
            Err(e) => (RewriteState::Failed, ActionView::Reject(e)),
        },
        (RewriteState::Writing, Event::Written) => match run.target() {
            Ok(TargetView::TemporaryFile(from, to)) => (
                RewriteState::Promoting,
                ActionView::Promote { from, to },
            ),
            Ok(_) => (RewriteState::Done, ActionView::Finish),
            Err(_) => (RewriteState::Failed, ActionView::Halt),
        },
        (RewriteState::Promoting, Event::Promoted) => (RewriteState::Done, ActionView::Finish),
        (RewriteState::Done, _) => (RewriteState::Done, ActionView::Finish),
        _ => (RewriteState::Failed, ActionView::Halt),
    }
}

/// Decides what a run does next.
pub fn next_action(cfg: &JfmtConfig, state: RewriteState, event: Event) -> (r: (
    RewriteState,
    Action,
))
    ensures
        (r.0, r.1@) == step(cfg.run_view(), state, event),
{
    match (state, event) {
        (RewriteState::Planning, Event::Begin) => {
            match plan(cfg.in_place, cfg.input.as_str(), &cfg.output) {
                Ok(_) => (RewriteState::Planning, Action::Open { input: cfg.input.clone() }),
                Err(e) => (RewriteState::Failed, Action::Reject(e)),
            }
        },
        (RewriteState::Planning, Event::Opened) => {
            match plan(cfg.in_place, cfg.input.as_str(), &cfg.output) {
                Ok(target) => (
                    RewriteState::Writing,
                    Action::Write { target, may_overwrite: may_replace(cfg) },
                ),
                Err(e) => (RewriteState::Failed, Action::Reject(e)),
            }
        },
        (RewriteState::Writing, Event::Written) => {
            match plan(cfg.in_place, cfg.input.as_str(), &cfg.output) {
                Ok(OutputTarget::TemporaryFile(from, to)) => (
                    RewriteState::Promoting,
                    Action::Promote { from, to },
                ),
                Ok(_) => (RewriteState::Done, Action::Finish),
                Err(_) => (RewriteState::Failed, Action::Halt),
            }
        },
        (RewriteState::Promoting, Event::Promoted) => (RewriteState::Done, Action::Finish),
        (RewriteState::Done, _) => (RewriteState::Done, Action::Finish),
        _ => (RewriteState::Failed, Action::Halt),
    }
}

/// The state that a run is in behind the events `events`.
pub open spec fn state_behind(run: RunView, events: Seq<Event>) -> RewriteState
    decreases events.len(),
{
    if events.len() == 0 {
        RewriteState::Planning
    } else {
        step(run, state_behind(run, events.drop_last()), events.last()).0
    }
}

/// The action that answers the last of the events `events`.
pub open spec fn action_behind(run: RunView, events: Seq<Event>) -> ActionView
    recommends
        events.len() > 0,
{
    step(run, state_behind(run, events.drop_last()), events.last()).1
}

/// A run that has failed stays failed, whatever happens.
pub proof fn theorem_failed_is_final(run: RunView, events: Seq<Event>, k: int)
    requires
        0 <= k <= events.len(),
        state_behind(run, events.take(k)) is Failed,
    ensures
        state_behind(run, events) is Failed,
    decreases events.len() - k,
{
    if k < events.len() {
        assert(events.take(k + 1).drop_last() =~= events.take(k));
        theorem_failed_is_final(run, events, k + 1);
    } else {
        assert(events.take(k) =~= events);
    }
}

/// A run is still planning only while nothing but its beginning has
/// happened.
pub proof fn lemma_planning_has_only_begun(run: RunView, events: Seq<Event>)
    requires
        state_behind(run, events) is Planning,
    ensures
        forall|i: int| 0 <= i < events.len() ==> events[i] == Event::Begin,
    decreases events.len(),
{
    if events.len() > 0 {
        let before = events.drop_last();
        lemma_planning_has_only_begun(run, before);
        assert forall|i: int| 0 <= i < events.len() implies events[i] == Event::Begin by {
            if i < before.len() {
                assert(before[i] == Event::Begin);
            }
        }
    }
}

/// Nothing is attempted before the input is open: whatever the events, the
/// target is written only in answer to the opening of the input, behind
/// which nothing but the beginning of the run has happened.
pub proof fn theorem_write_only_after_open(run: RunView, events: Seq<Event>)
    requires
        events.len() > 0,
        action_behind(run, events) is Write,
    ensures
        events.last() == Event::Opened,
        forall|i: int| 0 <= i < events.len() - 1 ==> events[i] == Event::Begin,
        run.target() == Ok::<TargetView, ConfigError>(action_behind(run, events)->Write_target),
{
    let before = events.drop_last();
    lemma_planning_has_only_begun(run, before);
    assert forall|i: int| 0 <= i < events.len() - 1 implies events[i] == Event::Begin by {
        assert(before[i] == Event::Begin);
    }
}

/// The input file is replaced only by a complete rewrite: whatever the
/// events, a rename is handed out only in an in-place rewrite, in answer to
/// a Writing that went through, which itself answered the opening of the
/// input; no fault has happened before it; and it moves the temporary file
/// onto the input path.
pub proof fn theorem_promote_only_after_write(run: RunView, events: Seq<Event>)
    requires
        events.len() > 0,
        action_behind(run, events) is Promote,
    ensures
        events.len() >= 2,
        events.last() == Event::Written,
        events[events.len() - 2] == Event::Opened,
        forall|i: int| 0 <= i < events.len() ==> events[i] != Event::Fault,
        run.in_place,
        action_behind(run, events) == (ActionView::Promote {
            from: temp_name(run.input),
            to: run.input,
        }),
{
    let before = events.drop_last();
    assert(state_behind(run, before) is Writing);
    assert(before.len() > 0);
    assert(before.last() == Event::Opened);
    let first = before.drop_last();
    lemma_planning_has_only_begun(run, first);
    assert forall|i: int| 0 <= i < events.len() implies events[i] != Event::Fault by {
        if i < events.len() - 2 {
            assert(first[i] == Event::Begin);
            assert(first[i] == events[i]);
        }
    }
}

/// The temporary file is never the input file.
pub proof fn lemma_temp_name_differs(name: Seq<char>)
    ensures
        temp_name(name) != name,
{
    reveal_strlit(".inplace~");
    assert(temp_name(name).len() == name.len() + 9);
}

/// An in-place rewrite never writes to its input file: whatever the events,
/// the one file that it is told to write is the temporary file beside the
/// input, which is another file and must not exist before.
pub proof fn theorem_in_place_writes_beside(run: RunView, events: Seq<Event>)
    requires
        run.in_place,
        events.len() > 0,
        action_behind(run, events) is Write,
    ensures
        action_behind(run, events) == (ActionView::Write {
            target: TargetView::TemporaryFile(temp_name(run.input), run.input),
            may_overwrite: false,
        }),
        temp_name(run.input) != run.input,
{
    lemma_temp_name_differs(run.input);
}

/// No file is replaced unless that was allowed: whatever the events, a run
/// that was not allowed to overwrite is never told that its target may take
/// the place of a file that exists.
pub proof fn theorem_no_overwrite_unless_allowed(run: RunView, events: Seq<Event>)
    requires
        !run.may_overwrite,
        events.len() > 0,
        action_behind(run, events) is Write,
    ensures
        !action_behind(run, events)->Write_may_overwrite,
{
}

/// The input file is never written over: whatever the events and whatever
/// was allowed, a run that is told to write to the path of its input file is
/// told that it may not take the place of a file that exists; and the input
/// file exists, since the target is written only once the input is open.
pub proof fn theorem_input_is_not_overwritten(run: RunView, events: Seq<Event>)
    requires
        run.input != stdin_name(),
        events.len() > 0,
        action_behind(run, events) is Write,
        action_behind(run, events)->Write_target.written_path() == Some(run.input),
    ensures
        !action_behind(run, events)->Write_may_overwrite,
        events.last() == Event::Opened,
{
    lemma_temp_name_differs(run.input);
    theorem_write_only_after_open(run, events);
}

/// Options that contradict each other are refused before any file is
/// touched: the first action reports them, the run has failed, and no action
/// of the run, whatever the events, opens, writes or renames a file.
pub proof fn theorem_rejected_touches_nothing(run: RunView, events: Seq<Event>)
    requires
        run.target() is Err,
        events.len() > 0,
    ensures
        !action_behind(run, events).touches_files(),
        events == seq![Event::Begin] ==> action_behind(run, events) == ActionView::Reject(
            run.target()->Err_0,
        ) && state_behind(run, events) is Failed,
        !(state_behind(run, events) is Done),
    decreases events.len(),
{
    let before = events.drop_last();
    if before.len() > 0 {
        theorem_rejected_touches_nothing(run, before);
    }
    if events == seq![Event::Begin] {
        assert(before.len() == 0);
    }
}

/// An in-place rewrite together with an output file, or of standard input,
/// is refused before any file is touched, and leaves no temporary file: no
/// action of such a run opens, writes or renames a file.
pub proof fn theorem_in_place_conflicts_rejected(run: RunView, events: Seq<Event>)
    requires
        run.in_place,
        run.output is Some || run.input == stdin_name(),
        events.len() > 0,
    ensures
        run.target() is Err,
        !action_behind(run, events).touches_files(),
        !(state_behind(run, events) is Done),
        events == seq![Event::Begin] ==> action_behind(run, events) is Reject && state_behind(
            run,
            events,
        ) is Failed,
{
    theorem_rejected_touches_nothing(run, events);
}

} // verus!
