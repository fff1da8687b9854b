//! What a connection tab knows, and the steps of the worker behind it.
//!
//! User input is bound to the connection and the view in which it originated,
//! queued within bounds and sent at most once. A worker whose connection was
//! replaced publishes nothing into the next one.
use std::collections::VecDeque;

use vstd::prelude::*;
use vstd::slice::slice_subrange;
use vstd::string::*;

use crate::input::{
    act_error, act_size, acts_of, ordinary, Act, Action, Error as InputError, Resize, MAX_INPUT_BYTES,
};
use crate::session::Access;
use crate::snapshot;
use crate::snapshot::{applied_all, pane_index, suits, Models, Status};
use crate::ssh;
use crate::ssh_config::opt_text;
use crate::text::{chars_of, string_of};
use crate::tmux::{Notification, PaneId, SessionId};
use crate::values::SessionName;

verus! {

pub const MAX_PENDING_ACTIONS: usize = 64;

pub const MAX_PENDING_BYTES: usize = 131_072;

/// The most keystrokes that share one transaction.
pub const MAX_RUN: usize = 32;

/// The most characters that are shown of an error.
pub const MAX_ERROR_CHARS: usize = 2048;

/// Where a tab connects to, and as what.
#[derive(Debug)]
pub struct Connection {
    pub options: ssh::Options,
    pub session: SessionName,
    pub socket: Option<String>,
    pub history: usize,
    pub access: Access,
    pub reconnect: bool,
}

#[derive(Clone, Copy, Debug, PartialEq, Eq, Structural)]
pub enum Phase {
    Idle,
    Connecting,
    Watching,
    Resynchronizing,
    Disconnected,
    Failed,
    Demo,
}

pub open spec fn phase_label(phase: Phase) -> Seq<char> {
    match phase {
        Phase::Idle => "Not connected"@,
        Phase::Connecting => "Connecting"@,
        Phase::Watching => "Connected"@,
        Phase::Resynchronizing => "Resynchronizing"@,
        Phase::Disconnected => "Disconnected"@,
        Phase::Failed => "Connection failed"@,
        Phase::Demo => "Demo data"@,
    }
}

impl Phase {
    pub fn label(self) -> (r: &'static str)
        ensures
            r@ == phase_label(self),
    {
        match self {
            Phase::Idle => "Not connected",
            Phase::Connecting => "Connecting",
            Phase::Watching => "Connected",
            Phase::Resynchronizing => "Resynchronizing",
            Phase::Disconnected => "Disconnected",
            Phase::Failed => "Connection failed",
            Phase::Demo => "Demo data",
        }
    }
}

/// A pane of the exact connection and view in which an action originated. The
/// number of a pane alone means nothing across connections.
#[derive(Clone, Copy, Debug, PartialEq, Eq, Structural)]
pub struct Target {
    epoch: u64,
    generation: u64,
    pane: PaneId,
}

impl Target {
    pub closed spec fn spec_epoch(self) -> nat {
        self.epoch as nat
    }

    pub closed spec fn spec_generation(self) -> nat {
        self.generation as nat
    }

    pub closed spec fn spec_pane(self) -> PaneId {
        self.pane
    }

    pub fn pane(self) -> (r: PaneId)
        ensures
            r == self.spec_pane(),
    {
        self.pane
    }
}

/// An action that waits to be sent.
#[derive(Debug)]
pub struct Pending {
    pub target: Target,
    pub action: Action,
}

#[derive(Clone, Copy, Debug, PartialEq, Eq, Structural)]
pub enum Error {
    Stale,
    ResizeDisabled,
    Action(InputError),
    Full,
    BatchFull,
    BatchStale,
    BatchResizeDisabled,
}

pub open spec fn error_text(error: Error) -> Seq<char> {
    match error {
        Error::Stale => "input was not sent: the connection or layout is no longer current"@,
        Error::ResizeDisabled => "remote resizing is disabled; it changes the shared tmux layout"@,
        Error::Action(error) => crate::input::error_text(error),
        Error::Full => "input queue is full; this action was not sent"@,
        Error::BatchFull => "input queue is full; this frame's actions were not sent"@,
        Error::BatchStale => "input target changed; nothing was sent"@,
        Error::BatchResizeDisabled => "remote resizing is disabled"@,
    }
}

impl Error {
    pub fn message(self) -> (r: &'static str)
        ensures
            r@ == error_text(self),
    {
        match self {
            Error::Stale => "input was not sent: the connection or layout is no longer current",
            Error::ResizeDisabled =>
                "remote resizing is disabled; it changes the shared tmux layout",
            Error::Action(error) => error.message(),
            Error::Full => "input queue is full; this action was not sent",
            Error::BatchFull => "input queue is full; this frame's actions were not sent",
            Error::BatchStale => "input target changed; nothing was sent",
            Error::BatchResizeDisabled => "remote resizing is disabled",
        }
    }
}

/// What a tab knows of its connection.
pub struct State {
    pub epoch: u64,
    pub pending: Option<Connection>,
    pub stopping: bool,
    pub generation: u64,
    pub phase: Phase,
    pub view: Option<snapshot::View>,
    pub view_label: String,
    pub error: Option<String>,
    pub access: Access,
    pub allow_resize: bool,
    pub actions: VecDeque<Pending>,
    pub action_bytes: usize,
}

/// The contents of a state.
pub struct Desk {
    pub epoch: nat,
    pub pending: Option<Connection>,
    pub stopping: bool,
    pub generation: nat,
    pub phase: Phase,
    pub view: Option<(SessionId, Models)>,
    pub label: Seq<char>,
    pub error: Option<Seq<char>>,
    pub access: Access,
    pub allow_resize: bool,
    pub queue: Seq<(Target, Act)>,
}

pub open spec fn queue_of(actions: Seq<Pending>) -> Seq<(Target, Act)> {
    actions.map_values(|pending: Pending| (pending.target, pending.action@))
}

pub open spec fn view_of(view: Option<snapshot::View>) -> Option<(SessionId, Models)> {
    match view {
        Some(view) => Some((view.spec_session(), view.models())),
        None => None,
    }
}

impl View for State {
    type V = Desk;

    open spec fn view(&self) -> Desk {
        Desk {
            epoch: self.epoch as nat,
            pending: self.pending,
            stopping: self.stopping,
            generation: self.generation as nat,
            phase: self.phase,
            view: view_of(self.view),
            label: self.view_label@,
            error: opt_text(self.error),
            access: self.access,
            allow_resize: self.allow_resize,
            queue: queue_of(self.actions@),
        }
    }
}

/// What the actions of a queue count.
pub open spec fn queue_bytes(queue: Seq<(Target, Act)>) -> nat
    decreases queue.len(),
{
    if queue.len() == 0 {
        0
    } else {
        queue_bytes(queue.drop_last()) + act_size(queue.last().1)
    }
}

pub open spec fn bounded(queue: Seq<(Target, Act)>) -> bool {
    queue.len() <= MAX_PENDING_ACTIONS && queue_bytes(queue) <= MAX_PENDING_BYTES
}

proof fn queue_bytes_concat(a: Seq<(Target, Act)>, b: Seq<(Target, Act)>)
    ensures
        queue_bytes(a + b) == queue_bytes(a) + queue_bytes(b),
    decreases b.len(),
{
    if b.len() == 0 {
        assert(a + b =~= a);
    } else {
        queue_bytes_concat(a, b.drop_last());
        assert((a + b).drop_last() =~= a + b.drop_last());
    }
}

/// A new tab.
pub open spec fn blank() -> Desk {
    Desk {
        epoch: 0,
        pending: None,
        stopping: false,
        generation: 0,
        phase: Phase::Idle,
        view: None,
        label: seq![],
        error: None,
        access: Access::ReadOnly,
        allow_resize: false,
        queue: seq![],
    }
}

/// Input is taken only while the models are current and the attachment is one
/// that may write.
pub open spec fn ready(d: Desk) -> bool {
    d.phase == Phase::Watching && d.access == Access::Interactive && (d.view matches Some(
        (_, models),
    ) && models.status == Status::Watching)
}

pub open spec fn has_pane(d: Desk, pane: PaneId) -> bool {
    d.view matches Some((_, models)) && pane_index(models.panes, pane) >= 0
}

/// Whether an action that originated at a target may still be sent.
pub open spec fn current(d: Desk, target: Target) -> bool {
    ready(d) && has_pane(d, target.spec_pane()) && target.spec_epoch() == d.epoch
        && target.spec_generation() == d.generation
}

/// Why an action is refused before the queue is looked at.
pub open spec fn refusal(d: Desk, target: Target, act: Act) -> Option<Error> {
    if !current(d, target) {
        Some(Error::Stale)
    } else if act is Resize && !d.allow_resize {
        Some(Error::ResizeDisabled)
    } else {
        match act_error(act) {
            Some(error) => Some(Error::Action(error)),
            None => None,
        }
    }
}

pub open spec fn enqueue_error(d: Desk, target: Target, act: Act) -> Option<Error> {
    match refusal(d, target, act) {
        Some(error) => Some(error),
        None => if d.queue.len() < MAX_PENDING_ACTIONS && queue_bytes(d.queue) + act_size(act)
            <= MAX_PENDING_BYTES {
            None
        } else {
            Some(Error::Full)
        },
    }
}

/// The queue with one more action. Text behind text for the same target is one
/// action, as long as one request carries it; it never moves past anything else.
pub open spec fn queued(queue: Seq<(Target, Act)>, target: Target, act: Act) -> Seq<(Target, Act)> {
    if queue.len() > 0 && queue.last().0 == target && (act matches Act::Bytes(bytes) && (
    queue.last().1 matches Act::Bytes(before) && before.len() + bytes.len() <= MAX_INPUT_BYTES)) {
        queue.drop_last().push((target, Act::Bytes(queue.last().1->Bytes_0 + act->Bytes_0)))
    } else {
        queue.push((target, act))
    }
}

/// A queue with more actions, in their order.
pub open spec fn queued_all(queue: Seq<(Target, Act)>, more: Seq<(Target, Act)>) -> Seq<
    (Target, Act),
>
    decreases more.len(),
{
    if more.len() == 0 {
        queue
    } else {
        queued(queued_all(queue, more.drop_last()), more.last().0, more.last().1)
    }
}

/// One action adds its size to the queue, and at most one entry.
pub proof fn queued_facts(queue: Seq<(Target, Act)>, target: Target, act: Act)
    ensures
        queue_bytes(queued(queue, target, act)) == queue_bytes(queue) + act_size(act),
        queue.len() <= queued(queue, target, act).len() <= queue.len() + 1,
{
    let now = queued(queue, target, act);
    if now.len() == queue.len() {
        assert(now.drop_last() =~= queue.drop_last());
    } else {
        assert(now.drop_last() =~= queue);
    }
}

proof fn queued_all_facts(queue: Seq<(Target, Act)>, more: Seq<(Target, Act)>)
    ensures
        queue_bytes(queued_all(queue, more)) == queue_bytes(queue) + queue_bytes(more),
        queue.len() <= queued_all(queue, more).len() <= queue.len() + more.len(),
    decreases more.len(),
{
    if more.len() > 0 {
        queued_all_facts(queue, more.drop_last());
        queued_facts(queued_all(queue, more.drop_last()), more.last().0, more.last().1);
    }
}

/// Why a frame's actions are refused.
pub open spec fn batch_error(d: Desk, batch: Seq<(Target, Act)>) -> Option<Error> {
    if d.queue.len() + batch.len() > MAX_PENDING_ACTIONS || queue_bytes(d.queue) + queue_bytes(
        batch,
    ) > MAX_PENDING_BYTES {
        Some(Error::BatchFull)
    } else {
        batch_refusal(d, batch)
    }
}

/// The refusal of the first action that is refused.
pub open spec fn batch_refusal(d: Desk, batch: Seq<(Target, Act)>) -> Option<Error>
    decreases batch.len(),
{
    if batch.len() == 0 {
        None
    } else {
        match batch_refusal(d, batch.drop_last()) {
            Some(error) => Some(error),
            None => match refusal(d, batch.last().0, batch.last().1) {
                Some(Error::Stale) => Some(Error::BatchStale),
                Some(Error::ResizeDisabled) => Some(Error::BatchResizeDisabled),
                other => other,
            },
        }
    }
}

proof fn batch_refusal_prefix(d: Desk, batch: Seq<(Target, Act)>, n: int)
    requires
        0 <= n <= batch.len(),
        batch_refusal(d, batch.take(n)) is Some,
    ensures
        batch_refusal(d, batch) == batch_refusal(d, batch.take(n)),
    decreases batch.len() - n,
{
    if n == batch.len() {
        assert(batch.take(n) =~= batch);
    } else {
        assert(batch.take(n + 1).drop_last() =~= batch.take(n));
        batch_refusal_prefix(d, batch, n + 1);
    }
}

pub open spec fn disconnected(view: Option<(SessionId, Models)>) -> Option<(SessionId, Models)> {
    match view {
        Some((session, models)) => Some(
            (session, Models { status: Status::Disconnected, ..models }),
        ),
        None => None,
    }
}

/// The state behind a connection that was given up: nothing of it can be sent or
/// published any more, and its models stay readable.
pub open spec fn cancelled(d: Desk) -> Desk {
    Desk {
        epoch: d.epoch + 1,
        pending: None,
        error: None,
        queue: seq![],
        access: Access::ReadOnly,
        allow_resize: false,
        view: disconnected(d.view),
        ..d
    }
}

/// Whether the worker of an epoch may still publish.
pub open spec fn accepted(d: Desk, epoch: nat) -> bool {
    !d.stopping && d.epoch == epoch
}

/// The first characters of an error, which is shown as plain text.
pub open spec fn shortened(text: Seq<char>) -> Seq<char> {
    if text.len() > MAX_ERROR_CHARS {
        text.take(MAX_ERROR_CHARS as int)
    } else {
        text
    }
}

/// The label of a view.
pub open spec fn label_text(user: Seq<char>, host: Seq<char>, session: Seq<char>) -> Seq<char> {
    user + "@"@ + host + " / "@ + session
}

pub open spec fn layout_changed_text() -> Seq<char> {
    "Layout changed; queued input was discarded, not replayed."@
}

pub open spec fn resize_started_text() -> Seq<char> {
    "Resize started; queued input was discarded, not replayed."@
}

pub open spec fn blocked_text() -> Seq<char> {
    "tmux blocked this action: the pane changed, is in a mode, or synchronize-panes/zoom is enabled. Nothing was retried."@
}

/// How many actions at the front of a queue share a transaction: adjacent text
/// and keys for one target.
pub open spec fn run_length(queue: Seq<(Target, Act)>, target: Target, max: nat) -> nat
    decreases max,
{
    if max == 0 || queue.len() == 0 || queue[0].0 != target || !ordinary(queue[0].1) {
        0
    } else {
        1 + run_length(queue.drop_first(), target, (max - 1) as nat)
    }
}

/// What the worker does next.
#[derive(Debug)]
pub enum Step {
    /// Another connection took this one's place.
    Stop,
    /// The attachment ended.
    Ended,
    /// Take a new snapshot.
    Resync,
    /// An action was dropped; ask again.
    Again,
    /// Send these actions to a pane, once.
    Send {
        pane: PaneId,
        actions: Vec<Action>,
    },
    /// Wait for notifications.
    Poll,
}

/// The contents of a step.
pub enum Move {
    Stop,
    Ended,
    Resync,
    Again,
    Send(PaneId, Seq<Act>),
    Poll,
}

impl View for Step {
    type V = Move;

    open spec fn view(&self) -> Move {
        match *self {
            Step::Stop => Move::Stop,
            Step::Ended => Move::Ended,
            Step::Resync => Move::Resync,
            Step::Again => Move::Again,
            Step::Send { pane, actions } => Move::Send(pane, acts_of(actions@)),
            Step::Poll => Move::Poll,
        }
    }
}

pub open spec fn acts_in(queue: Seq<(Target, Act)>) -> Seq<Act> {
    queue.map_values(|entry: (Target, Act)| entry.1)
}

/// The number of actions that leave the queue together.
pub open spec fn leaving(queue: Seq<(Target, Act)>) -> nat {
    if ordinary(queue[0].1) {
        1 + run_length(queue.drop_first(), queue[0].0, (MAX_RUN - 1) as nat)
    } else {
        1
    }
}

/// What is sent of a queue that is not empty, and what is left behind it. What
/// leaves the queue is never put back.
pub open spec fn dispatched(d: Desk) -> (Desk, Move) {
    let target = d.queue[0].0;
    let act = d.queue[0].1;
    let popped = Desk { queue: d.queue.drop_first(), ..d };
    if !current(popped, target) || (act is Resize && !d.allow_resize) {
        (popped, Move::Again)
    } else {
        let n = leaving(d.queue) as int;
        let rest = d.queue.skip(n);
        let sent = Move::Send(target.spec_pane(), acts_in(d.queue.take(n)));
        if act is Resize {
            (
                Desk {
                    queue: seq![],
                    phase: Phase::Resynchronizing,
                    error: if rest.len() > 0 {
                        Some(resize_started_text())
                    } else {
                        d.error
                    },
                    view: invalidated(d.view),
                    ..d
                },
                sent,
            )
        } else {
            (Desk { queue: rest, ..d }, sent)
        }
    }
}

pub open spec fn invalidated(view: Option<(SessionId, Models)>) -> Option<(SessionId, Models)> {
    match view {
        Some((session, models)) => Some(
            (
                session,
                if models.status == Status::Watching {
                    Models { status: Status::NeedsResync, ..models }
                } else {
                    models
                },
            ),
        ),
        None => None,
    }
}

/// The next step of the worker of an epoch.
pub open spec fn stepped(d: Desk, epoch: nat) -> (Desk, Move) {
    if !accepted(d, epoch) {
        (d, Move::Stop)
    } else {
        match (d.view->0).1.status {
            Status::Disconnected => (
                Desk { queue: seq![], phase: Phase::Disconnected, ..d },
                Move::Ended,
            ),
            Status::NeedsResync => (
                Desk {
                    error: if d.queue.len() > 0 {
                        Some(layout_changed_text())
                    } else {
                        d.error
                    },
                    queue: seq![],
                    phase: Phase::Resynchronizing,
                    ..d
                },
                Move::Resync,
            ),
            Status::Watching => if d.queue.len() == 0 {
                (d, Move::Poll)
            } else {
                dispatched(d)
            },
        }
    }
}

/// What the worker of a connection comes back with.
pub enum Report {
    /// It asks for the next step.
    Step,
    /// It has attached to this session.
    Attached(SessionId, Models, Access, Seq<char>),
    /// It has taken a new snapshot of this session.
    Resynced(SessionId, Models),
    /// Actions were sent, or held back by the host, and this came meanwhile.
    Interacted(Seq<Notification>, bool),
    Polled(Seq<Notification>),
    Failed(Seq<char>),
}

/// What is shown behind a report of the worker of an epoch. One that was replaced
/// reports to nobody.
pub open spec fn reported(d: Desk, epoch: nat, report: Report) -> Desk {
    if !accepted(d, epoch) {
        d
    } else {
        match report {
            Report::Step => stepped(d, epoch).0,
            Report::Attached(session, models, access, label) => Desk {
                view: Some((session, models)),
                access,
                generation: d.generation + 1,
                label,
                phase: Phase::Watching,
                ..d
            },
            Report::Resynced(session, models) => Desk {
                view: Some((session, models)),
                generation: d.generation + 1,
                phase: Phase::Watching,
                ..d
            },
            Report::Interacted(notifications, applied) => {
                let (session, models) = d.view->0;
                let now = Some((session, applied_all(models, notifications)));
                if applied {
                    Desk { view: now, ..d }
                } else {
                    Desk { view: invalidated(now), error: Some(blocked_text()), ..d }
                }
            },
            Report::Polled(notifications) => if notifications.len() == 0 {
                d
            } else {
                let (session, models) = d.view->0;
                Desk { view: Some((session, applied_all(models, notifications))), ..d }
            },
            Report::Failed(error) => Desk {
                view: disconnected(d.view),
                queue: seq![],
                phase: Phase::Failed,
                error: Some(shortened(error)),
                ..d
            },
        }
    }
}

/// What is shown behind several reports.
pub open spec fn reported_all(d: Desk, epoch: nat, reports: Seq<Report>) -> Desk
    decreases reports.len(),
{
    if reports.len() == 0 {
        d
    } else {
        reported(reported_all(d, epoch, reports.drop_last()), epoch, reports.last())
    }
}

impl Default for State {
    fn default() -> (r: Self)
        ensures
            r@ == blank(),
            r.wf(),
    {
        let r = State {
            epoch: 0,
            pending: None,
            stopping: false,
            generation: 0,
            phase: Phase::Idle,
            view: None,
            view_label: String::new(),
            error: None,
            access: Access::ReadOnly,
            allow_resize: false,
            actions: VecDeque::new(),
            action_bytes: 0,
        };
        proof {
            assert(queue_of(r.actions@) =~= Seq::<(Target, Act)>::empty());
        }
        r
    }
}

impl State {
    /// The queue is within its bounds and counted, and the models are sound.
    pub open spec fn wf(self) -> bool {
        &&& bounded(queue_of(self.actions@))
        &&& self.action_bytes == queue_bytes(queue_of(self.actions@))
        &&& self.view matches Some(view) ==> view.wf()
    }

    fn discard_actions(&mut self)
        ensures
            final(self)@ == (Desk { queue: seq![], ..old(self)@ }),
            final(self).view == old(self).view,
            final(self).action_bytes == 0,
            final(self).actions@.len() == 0,
            final(self).epoch == old(self).epoch,
            final(self).generation == old(self).generation,
    {
        self.actions = VecDeque::new();
        self.action_bytes = 0;
        proof {
            assert(queue_of(self.actions@) =~= Seq::<(Target, Act)>::empty());
        }
    }

    /// Give up the connection.
    pub fn cancel(&mut self)
        requires
            old(self).wf(),
            old(self).epoch < u64::MAX,
        ensures
            final(self).wf(),
            final(self)@ == cancelled(old(self)@),
            final(self).generation == old(self).generation,
    {
        self.epoch = self.epoch + 1;
        self.pending = None;
        self.error = None;
        self.discard_actions();
        self.access = Access::ReadOnly;
        self.allow_resize = false;
        match self.view.take() {
            Some(mut view) => {
                let ghost before = view;
                view.disconnect();
                proof {
                    assert(view.models().panes == before.models().panes);
                }
                self.view = Some(view);
            },
            None => {},
        }
    }

    pub fn epoch(&self) -> (r: u64)
        ensures
            r == self.epoch,
    {
        self.epoch
    }

    pub fn input_ready(&self) -> (r: bool)
        ensures
            r == ready(self@),
    {
        self.phase == Phase::Watching && self.access == Access::Interactive && match &self.view {
            Some(view) => view.status() == Status::Watching,
            None => false,
        }
    }

    /// A token for a pane, which is had only while input is taken. It is kept
    /// with a delayed action and never made anew for it.
    pub fn target(&self, pane: PaneId) -> (r: Option<Target>)
        ensures
            match r {
                Some(target) => current(self@, target) && target.spec_pane() == pane,
                None => !(ready(self@) && has_pane(self@, pane)),
            },
    {
        if !self.input_ready() {
            return None;
        }
        match &self.view {
            None => None,
            Some(view) => {
                proof {
                    snapshot::pane_index_facts(view.models().panes, pane);
                }
                match view.pane(pane) {
                    None => None,
                    Some(_) => Some(
                        Target { epoch: self.epoch, generation: self.generation, pane },
                    ),
                }
            },
        }
    }

    /// Whether a target is the one that this state would hand out.
    pub fn is_current(&self, target: Target) -> (r: bool)
        ensures
            r == current(self@, target),
    {
        match self.target(target.pane) {
            Some(now) => now == target,
            None => false,
        }
    }

    fn check(&self, target: Target, action: &Action) -> (r: Option<Error>)
        ensures
            r == refusal(self@, target, action@),
    {
        if !self.is_current(target) {
            return Some(Error::Stale);
        }
        if action.is_resize() && !self.allow_resize {
            return Some(Error::ResizeDisabled);
        }
        match action.validate() {
            Ok(()) => None,
            Err(error) => Some(Error::Action(error)),
        }
    }

    /// Put an action behind the others.
    fn append(&mut self, target: Target, action: Action)
        requires
            old(self).wf(),
            old(self).actions@.len() < MAX_PENDING_ACTIONS,
            old(self).action_bytes + act_size(action@) <= MAX_PENDING_BYTES,
        ensures
            final(self).wf(),
            final(self)@ == (Desk { queue: queued(old(self)@.queue, target, action@), ..old(self)@ }),
            final(self).epoch == old(self).epoch,
            final(self).generation == old(self).generation,
            final(self).view == old(self).view,
    {
        let size = action.size();
        let ghost before = queue_of(self.actions@);
        let ghost act = action@;
        proof {
            queued_facts(before, target, act);
        }
        let bytes = match action {
            Action::Bytes(bytes) => bytes,
            other => {
                self.actions.push_back(Pending { target, action: other });
                self.action_bytes = self.action_bytes + size;
                proof {
                    assert(queue_of(self.actions@) =~= before.push((target, act)));
                }
                return;
            },
        };
        match self.actions.pop_back() {
            None => {
                self.actions.push_back(Pending { target, action: Action::Bytes(bytes) });
                proof {
                    assert(queue_of(self.actions@) =~= before.push((target, act)));
                }
            },
            Some(last) => {
                proof {
                    assert(queue_of(self.actions@) =~= before.drop_last());
                    assert(before.last() == (last.target, last.action@));
                }
                let Pending { target: previous, action: waiting } = last;
                match waiting {
                    Action::Bytes(mut text) => {
                        if previous == target && text.len() <= MAX_INPUT_BYTES && bytes.len()
                            <= MAX_INPUT_BYTES - text.len() {
                            let ghost front = text@;
                            text.extend_from_slice(bytes.as_slice());
                            proof {
                                assert(text@ =~= front + bytes@);
                            }
                            self.actions.push_back(Pending { target, action: Action::Bytes(text) });
                            proof {
                                assert(queue_of(self.actions@) =~= before.drop_last().push(
                                    (target, Act::Bytes(front + bytes@)),
                                ));
                            }
                        } else {
                            self.actions.push_back(
                                Pending { target: previous, action: Action::Bytes(text) },
                            );
                            self.actions.push_back(Pending { target, action: Action::Bytes(bytes) });
                            proof {
                                assert(queue_of(self.actions@) =~= before.push((target, act)));
                            }
                        }
                    },
                    other => {
                        self.actions.push_back(Pending { target: previous, action: other });
                        self.actions.push_back(Pending { target, action: Action::Bytes(bytes) });
                        proof {
                            assert(queue_of(self.actions@) =~= before.push((target, act)));
                        }
                    },
                }
            },
        }
        self.action_bytes = self.action_bytes + size;
    }

    /// Queue one action for the target in which it originated.
    pub fn enqueue(&mut self, target: Target, action: Action) -> (r: Result<(), Error>)
        requires
            old(self).wf(),
        ensures
            final(self).wf(),
            match enqueue_error(old(self)@, target, action@) {
                Some(error) => r == Err::<(), Error>(error) && final(self)@ == old(self)@,
                None => r is Ok && final(self)@ == (Desk {
                    queue: queued(old(self)@.queue, target, action@),
                    ..old(self)@
                }),
            },
    {
        if let Some(error) = self.check(target, &action) {
            return Err(error);
        }
        let size = action.size();
        if self.actions.len() >= MAX_PENDING_ACTIONS || size > MAX_PENDING_BYTES
            - self.action_bytes {
            return Err(Error::Full);
        }
        self.append(target, action);
        Ok(())
    }
}

/// The actions of a frame.
pub open spec fn batch_of(batch: Seq<(Target, Action)>) -> Seq<(Target, Act)> {
    batch.map_values(|entry: (Target, Action)| (entry.0, entry.1@))
}

proof fn queue_bytes_prefix(queue: Seq<(Target, Act)>, n: int)
    requires
        0 <= n <= queue.len(),
    ensures
        queue_bytes(queue.take(n)) <= queue_bytes(queue),
{
    queue_bytes_concat(queue.take(n), queue.skip(n));
    assert(queue.take(n) + queue.skip(n) =~= queue);
}

impl State {
    /// What the actions of a frame count together, or `None` if that is more than
    /// the queue could ever hold.
    fn batch_size(batch: &Vec<(Target, Action)>) -> (r: Option<usize>)
        ensures
            match r {
                Some(size) => size == queue_bytes(batch_of(batch@)) && size <= MAX_PENDING_BYTES,
                None => queue_bytes(batch_of(batch@)) > MAX_PENDING_BYTES,
            },
    {
        let ghost all = batch_of(batch@);
        let mut total: usize = 0;
        let mut i: usize = 0;
        while i < batch.len()
            invariant
                i <= batch.len(),
                all == batch_of(batch@),
                total == queue_bytes(all.take(i as int)),
                total <= MAX_PENDING_BYTES,
            decreases batch.len() - i,
        {
            let size = batch[i].1.size();
            proof {
                assert(all.take(i + 1).drop_last() =~= all.take(i as int));
                queue_bytes_prefix(all, i + 1);
            }
            if size > MAX_PENDING_BYTES - total {
                return None;
            }
            total = total + size;
            i += 1;
        }
        proof {
            assert(all.take(i as int) =~= all);
        }
        Some(total)
    }

    /// Queue the actions of a frame, all of them or none: a full queue takes no
    /// half of a text, and no action overtakes another.
    pub fn submit_batch(&mut self, batch: Vec<(Target, Action)>) -> (r: Result<(), Error>)
        requires
            old(self).wf(),
        ensures
            final(self).wf(),
            match batch_error(old(self)@, batch_of(batch@)) {
                Some(error) => r == Err::<(), Error>(error) && final(self)@ == old(self)@,
                None => r is Ok && final(self)@ == (Desk {
                    queue: queued_all(old(self)@.queue, batch_of(batch@)),
                    ..old(self)@
                }),
            },
    {
        let ghost all = batch_of(batch@);
        let ghost start = self@;
        if batch.len() > MAX_PENDING_ACTIONS - self.actions.len() {
            return Err(Error::BatchFull);
        }
        match Self::batch_size(&batch) {
            None => return Err(Error::BatchFull),
            Some(size) => {
                if size > MAX_PENDING_BYTES - self.action_bytes {
                    return Err(Error::BatchFull);
                }
            },
        }
        let mut i: usize = 0;
        while i < batch.len()
            invariant
                i <= batch.len(),
                all == batch_of(batch@),
                start == self@,
                self.wf(),
                batch_refusal(start, all.take(i as int)) is None,
                start.queue.len() + all.len() <= MAX_PENDING_ACTIONS,
                queue_bytes(start.queue) + queue_bytes(all) <= MAX_PENDING_BYTES,
                *self == *old(self),
            decreases batch.len() - i,
        {
            proof {
                assert(all.take(i + 1).drop_last() =~= all.take(i as int));
                assert(all.take(i + 1).last() == (batch@[i as int].0, batch@[i as int].1@));
                if batch_refusal(start, all.take(i + 1)) is Some {
                    batch_refusal_prefix(start, all, i + 1);
                }
            }
            match self.check(batch[i].0, &batch[i].1) {
                Some(Error::Stale) => return Err(Error::BatchStale),
                Some(Error::ResizeDisabled) => return Err(Error::BatchResizeDisabled),
                Some(error) => return Err(error),
                None => {},
            }
            i += 1;
        }
        proof {
            assert(all.take(i as int) =~= all);
        }
        let mut left = batch;
        let ghost mut done: int = 0;
        proof {
            assert(all.skip(0) =~= all);
            assert(all.take(0) =~= Seq::<(Target, Act)>::empty());
        }
        while left.len() > 0
            invariant
                0 <= done <= all.len(),
                batch_of(left@) == all.skip(done),
                self.wf(),
                self@ == (Desk { queue: queued_all(start.queue, all.take(done)), ..start }),
                start.queue.len() + all.len() <= MAX_PENDING_ACTIONS,
                queue_bytes(start.queue) + queue_bytes(all) <= MAX_PENDING_BYTES,
                start == old(self)@,
            decreases left@.len(),
        {
            let ghost before = left@;
            let (target, action) = left.remove(0);
            proof {
                assert(batch_of(before).len() == before.len());
                assert(done < all.len());
                assert(batch_of(before)[0] == (target, action@));
                assert(all.skip(done)[0] == all[done]);
                assert(batch_of(left@) =~= all.skip(done + 1)) by {
                    assert(batch_of(left@) =~= batch_of(before).skip(1));
                    assert(all.skip(done).skip(1) =~= all.skip(done + 1));
                }
                assert(all.take(done + 1).drop_last() =~= all.take(done));
                queued_all_facts(start.queue, all.take(done));
                queue_bytes_prefix(all, done + 1);
                assert(queue_bytes(all.take(done + 1)) == queue_bytes(all.take(done)) + act_size(
                    action@,
                ));
            }
            self.append(target, action);
            proof {
                done = done + 1;
            }
        }
        proof {
            assert(all.take(done) =~= all);
        }
        Ok(())
    }

    pub fn accepts(&self, epoch: u64) -> (r: bool)
        ensures
            r == accepted(self@, epoch as nat),
    {
        !self.stopping && self.epoch == epoch
    }

    /// Ask for a connection, in place of the one before it.
    pub fn connect(&mut self, connection: Connection) -> (r: Result<(), ssh::Error>)
        requires
            old(self).wf(),
            old(self).epoch < u64::MAX,
        ensures
            final(self).wf(),
            match ssh::fault(connection.options) {
                Some(fault) => final(self)@ == old(self)@ && (r matches Err(error)
                    && ssh::is_error(error, ssh::Kind::Configuration, ssh::fault_text(fault))),
                None => if connection.history > snapshot::MAX_HISTORY_LINES {
                    final(self)@ == old(self)@ && (r matches Err(error) && ssh::is_error(
                        error,
                        ssh::Kind::Configuration,
                        "history exceeds budget"@,
                    ))
                } else {
                    r is Ok && final(self)@ == (Desk {
                        phase: Phase::Connecting,
                        pending: Some(connection),
                        ..cancelled(old(self)@)
                    })
                },
            },
    {
        connection.options.validate()?;
        if connection.history > snapshot::MAX_HISTORY_LINES {
            return Err(ssh::Error::new(ssh::Kind::Configuration, "history exceeds budget"));
        }
        self.cancel();
        self.phase = Phase::Connecting;
        self.pending = Some(connection);
        Ok(())
    }

    pub fn disconnect(&mut self)
        requires
            old(self).wf(),
            old(self).epoch < u64::MAX,
        ensures
            final(self).wf(),
            final(self)@ == (Desk { phase: Phase::Disconnected, ..cancelled(old(self)@) }),
    {
        self.cancel();
        self.phase = Phase::Disconnected;
    }

    /// Show built-in models, which are no session.
    pub fn demo(&mut self, view: snapshot::View)
        requires
            old(self).wf(),
            old(self).epoch < u64::MAX,
            old(self).generation < u64::MAX,
            view.wf(),
        ensures
            final(self).wf(),
            final(self)@ == (Desk {
                view: Some((view.spec_session(), view.models())),
                generation: old(self)@.generation + 1,
                label: "Local demo / work"@,
                phase: Phase::Demo,
                ..cancelled(old(self)@)
            }),
    {
        self.cancel();
        self.view = Some(view);
        self.generation = self.generation + 1;
        self.view_label = "Local demo / work".to_owned();
        self.phase = Phase::Demo;
    }

    /// Explicit consent to change the shared layout, for this connection.
    pub fn allow_remote_resize(&mut self, allow: bool)
        requires
            old(self).wf(),
        ensures
            final(self).wf(),
            final(self)@ == (Desk { allow_resize: allow && ready(old(self)@), ..old(self)@ }),
    {
        self.allow_resize = allow && self.input_ready();
    }

    /// End the worker. Whatever it was doing is given up.
    pub fn stop(&mut self)
        requires
            old(self).wf(),
            old(self).epoch < u64::MAX,
        ensures
            final(self).wf(),
            final(self)@ == (Desk { stopping: true, ..cancelled(old(self)@) }),
    {
        self.cancel();
        self.stopping = true;
    }

    /// Take the request that the worker is to serve, with its epoch.
    pub fn take_request(&mut self) -> (r: Option<(u64, Connection)>)
        requires
            old(self).wf(),
        ensures
            final(self).wf(),
            match r {
                Some((epoch, connection)) => !old(self).stopping && old(self)@.pending == Some(
                    connection,
                ) && epoch == old(self).epoch && final(self)@ == (Desk {
                    pending: None,
                    ..old(self)@
                }),
                None => (old(self).stopping || old(self)@.pending is None) && final(self)@ == old(self)@,
            },
    {
        if self.stopping {
            return None;
        }
        match self.pending.take() {
            Some(connection) => Some((self.epoch, connection)),
            None => None,
        }
    }

    /// The worker's connection failed; whether that is shown.
    pub fn failed(&mut self, epoch: u64, error: &str) -> (r: bool)
        requires
            old(self).wf(),
        ensures
            final(self).wf(),
            r == accepted(old(self)@, epoch as nat),
            final(self)@ == reported(old(self)@, epoch as nat, Report::Failed(error@)),
    {
        if !self.accepts(epoch) {
            return false;
        }
        match self.view.take() {
            Some(mut view) => {
                view.disconnect();
                self.view = Some(view);
            },
            None => {},
        }
        self.discard_actions();
        self.phase = Phase::Failed;
        let chars = chars_of(error);
        let shown = if chars.len() > MAX_ERROR_CHARS {
            let front = slice_subrange(chars.as_slice(), 0, MAX_ERROR_CHARS);
            proof {
                assert(front@ =~= error@.take(MAX_ERROR_CHARS as int));
            }
            string_of(front)
        } else {
            error.to_owned()
        };
        self.error = Some(shown);
        true
    }

    /// Publish the view of a new attachment; whether it still may be.
    pub fn attached(&mut self, epoch: u64, view: snapshot::View, connection: &Connection) -> (r:
        bool)
        requires
            old(self).wf(),
            old(self).generation < u64::MAX,
            view.wf(),
        ensures
            final(self).wf(),
            r == accepted(old(self)@, epoch as nat),
            final(self)@ == reported(
                old(self)@,
                epoch as nat,
                Report::Attached(
                    view.spec_session(),
                    view.models(),
                    connection.access,
                    label_text(
                        connection.options.user@,
                        connection.options.host@,
                        connection.session@,
                    ),
                ),
            ),
    {
        if !self.accepts(epoch) {
            return false;
        }
        self.view = Some(view);
        self.access = connection.access;
        self.generation = self.generation + 1;
        let mut label = connection.options.user.clone();
        label.append("@");
        label.append(connection.options.host.as_str());
        label.append(" / ");
        label.append(connection.session.as_str());
        self.view_label = label;
        self.phase = Phase::Watching;
        true
    }

    /// Publish a view that was restored; whether it still may be.
    pub fn resynced(&mut self, epoch: u64, view: snapshot::View) -> (r: bool)
        requires
            old(self).wf(),
            old(self).generation < u64::MAX,
            view.wf(),
        ensures
            final(self).wf(),
            r == accepted(old(self)@, epoch as nat),
            final(self)@ == reported(
                old(self)@,
                epoch as nat,
                Report::Resynced(view.spec_session(), view.models()),
            ),
    {
        if !self.accepts(epoch) {
            return false;
        }
        self.view = Some(view);
        self.generation = self.generation + 1;
        self.phase = Phase::Watching;
        true
    }

    /// Take what came back from an action that was sent; whether anything is
    /// published.
    pub fn interacted(&mut self, epoch: u64, notifications: Vec<Notification>, applied: bool) -> (r:
        bool)
        requires
            old(self).wf(),
            accepted(old(self)@, epoch as nat) ==> old(self).view is Some && forall|i: int|
                0 <= i < notifications@.len() ==> suits(
                    (old(self)@.view->0).1.panes,
                    #[trigger] notifications@[i],
                ),
        ensures
            final(self).wf(),
            r == accepted(old(self)@, epoch as nat),
            final(self)@ == reported(
                old(self)@,
                epoch as nat,
                Report::Interacted(notifications@, applied),
            ),
    {
        if !self.accepts(epoch) {
            return false;
        }
        match self.view.take() {
            Some(mut view) => {
                view.apply_all(notifications);
                if !applied {
                    self.error = Some(
                        "tmux blocked this action: the pane changed, is in a mode, or synchronize-panes/zoom is enabled. Nothing was retried.".to_owned(),
                    );
                    view.invalidate();
                }
                self.view = Some(view);
            },
            None => {},
        }
        true
    }

    /// Take notifications; whether anything is published. None of them wakes
    /// nobody.
    pub fn polled(&mut self, epoch: u64, notifications: Vec<Notification>) -> (r: bool)
        requires
            old(self).wf(),
            accepted(old(self)@, epoch as nat) ==> old(self).view is Some && forall|i: int|
                0 <= i < notifications@.len() ==> suits(
                    (old(self)@.view->0).1.panes,
                    #[trigger] notifications@[i],
                ),
        ensures
            final(self).wf(),
            r == (accepted(old(self)@, epoch as nat) && notifications@.len() > 0),
            final(self)@ == reported(old(self)@, epoch as nat, Report::Polled(notifications@)),
    {
        if notifications.len() == 0 || !self.accepts(epoch) {
            return false;
        }
        match self.view.take() {
            Some(mut view) => {
                view.apply_all(notifications);
                self.view = Some(view);
            },
            None => {},
        }
        true
    }
}

/// Actions that share a transaction are text and keys of one target.
pub proof fn run_length_facts(queue: Seq<(Target, Act)>, target: Target, max: nat)
    ensures
        run_length(queue, target, max) <= max,
        run_length(queue, target, max) <= queue.len(),
        forall|i: int|
            0 <= i < run_length(queue, target, max) ==> (#[trigger] queue[i]).0 == target
                && ordinary(queue[i].1),
        run_length(queue, target, max) < max && run_length(queue, target, max) < queue.len() ==> {
            let next = queue[run_length(queue, target, max) as int];
            next.0 != target || !ordinary(next.1)
        },
    decreases max,
{
    if !(max == 0 || queue.len() == 0 || queue[0].0 != target || !ordinary(queue[0].1)) {
        let rest = queue.drop_first();
        run_length_facts(rest, target, (max - 1) as nat);
        let n = run_length(queue, target, max);
        assert forall|i: int| 0 <= i < n implies (#[trigger] queue[i]).0 == target && ordinary(
            queue[i].1,
        ) by {
            if i > 0 {
                assert(queue[i] == rest[i - 1]);
            }
        }
        if n < max && n < queue.len() {
            assert(queue[n as int] == rest[n - 1]);
        }
    }
}

/// The length of a run is told by where it ends.
proof fn run_length_unique(queue: Seq<(Target, Act)>, target: Target, max: nat, n: nat)
    requires
        n <= max,
        n <= queue.len(),
        forall|i: int| 0 <= i < n ==> (#[trigger] queue[i]).0 == target && ordinary(queue[i].1),
        n == max || n == queue.len() || queue[n as int].0 != target || !ordinary(
            queue[n as int].1,
        ),
    ensures
        run_length(queue, target, max) == n,
{
    run_length_facts(queue, target, max);
    let k = run_length(queue, target, max);
    if k < n {
        assert(queue[k as int].0 == target && ordinary(queue[k as int].1));
    } else if n < k {
        assert(queue[n as int].0 == target && ordinary(queue[n as int].1));
    }
}

impl State {
    /// Take the action at the front.
    fn pop(&mut self) -> (r: Option<Pending>)
        requires
            old(self).wf(),
        ensures
            final(self).wf(),
            final(self).epoch == old(self).epoch,
            final(self).view == old(self).view,
            match r {
                None => old(self)@.queue.len() == 0 && final(self)@ == old(self)@,
                Some(pending) => old(self)@.queue.len() > 0 && (pending.target, pending.action@)
                    == old(self)@.queue[0] && final(self)@ == (Desk {
                    queue: old(self)@.queue.drop_first(),
                    ..old(self)@
                }),
            },
    {
        let ghost before = queue_of(self.actions@);
        match self.actions.pop_front() {
            None => None,
            Some(pending) => {
                let size = pending.action.size();
                proof {
                    assert(queue_of(self.actions@) =~= before.drop_first());
                    assert(before =~= seq![before[0]] + before.drop_first());
                    queue_bytes_concat(seq![before[0]], before.drop_first());
                    assert(seq![before[0]].drop_last() =~= Seq::<(Target, Act)>::empty());
                    reveal_with_fuel(queue_bytes, 2);
                    assert(queue_bytes(seq![before[0]]) == act_size(before[0].1));
                }
                self.action_bytes = self.action_bytes - size;
                Some(pending)
            },
        }
    }

    /// Whether the action at the front belongs to a run for this target.
    fn continues(&self, target: Target) -> (r: bool)
        ensures
            r == (self@.queue.len() > 0 && self@.queue[0].0 == target && ordinary(
                self@.queue[0].1,
            )),
    {
        if self.actions.len() == 0 {
            return false;
        }
        let front = &self.actions[0];
        front.target == target && front.action.is_ordinary()
    }

    /// Take what is to be sent, from a queue that is not empty.
    fn dispatch(&mut self) -> (r: Step)
        requires
            old(self).wf(),
            old(self)@.queue.len() > 0,
            old(self).view is Some,
        ensures
            final(self).wf(),
            (final(self)@, r@) == dispatched(old(self)@),
    {
        let ghost d = self@;
        let ghost q = self@.queue;
        let Pending { target, action } = match self.pop() {
            Some(pending) => pending,
            None => return Step::Poll,
        };
        let ghost popped = self@;
        let resizing = action.is_resize();
        let ordinary_first = action.is_ordinary();
        if !self.is_current(target) || (resizing && !self.allow_resize) {
            return Step::Again;
        }
        let mut actions: Vec<Action> = Vec::new();
        actions.push(action);
        proof {
            assert(acts_of(actions@) =~= acts_in(q.take(1)));
            assert(q.skip(1) =~= q.drop_first());
        }
        while ordinary_first && actions.len() < MAX_RUN && self.continues(target)
            invariant
                self.wf(),
                1 <= actions@.len() <= MAX_RUN,
                actions@.len() <= q.len(),
                acts_of(actions@) == acts_in(q.take(actions@.len() as int)),
                self@ == (Desk { queue: q.skip(actions@.len() as int), ..popped }),
                popped == (Desk { queue: q.drop_first(), ..d }),
                q == d.queue,
                q.len() > 0,
                self.view == old(self).view,
                old(self).view is Some,
                ordinary_first == ordinary(q[0].1),
                !ordinary_first ==> actions@.len() == 1,
                target == q[0].0,
                forall|i: int|
                    1 <= i < actions@.len() ==> (#[trigger] q[i]).0 == target && ordinary(q[i].1),
            decreases MAX_RUN - actions@.len(),
        {
            let ghost n = actions@.len() as int;
            let ghost before = actions@;
            match self.pop() {
                Some(pending) => {
                    proof {
                        assert(q.skip(n)[0] == q[n]);
                        assert(q.skip(n).drop_first() =~= q.skip(n + 1));
                        assert(q.take(n + 1) =~= q.take(n).push(q[n]));
                    }
                    actions.push(pending.action);
                    proof {
                        assert(acts_of(actions@) =~= acts_of(before).push(pending.action@));
                        assert(acts_in(q.take(n + 1)) =~= acts_in(q.take(n)).push(q[n].1));
                    }
                },
                None => {},
            }
        }
        proof {
            let n = actions@.len();
            if ordinary(q[0].1) {
                let rest = q.drop_first();
                assert forall|i: int| 0 <= i < n - 1 implies (#[trigger] rest[i]).0 == target
                    && ordinary(rest[i].1) by {
                    assert(rest[i] == q[i + 1]);
                }
                if n < q.len() {
                    assert(rest[n - 1] == q[n as int]);
                    assert(q.skip(n as int)[0] == q[n as int]);
                }
                run_length_unique(rest, target, (MAX_RUN - 1) as nat, (n - 1) as nat);
            }
            assert(leaving(q) == n);
        }
        if resizing {
            match self.view.take() {
                Some(mut view) => {
                    view.invalidate();
                    self.view = Some(view);
                },
                None => {},
            }
            self.phase = Phase::Resynchronizing;
            if self.actions.len() > 0 {
                self.error = Some(
                    "Resize started; queued input was discarded, not replayed.".to_owned(),
                );
            }
            self.discard_actions();
        }
        Step::Send { pane: target.pane, actions }
    }

    /// The next step of the worker of an epoch.
    pub fn step(&mut self, epoch: u64) -> (r: Step)
        requires
            old(self).wf(),
            accepted(old(self)@, epoch as nat) ==> old(self).view is Some,
        ensures
            final(self).wf(),
            (final(self)@, r@) == stepped(old(self)@, epoch as nat),
            final(self)@ == reported(old(self)@, epoch as nat, Report::Step),
    {
        if !self.accepts(epoch) {
            return Step::Stop;
        }
        let status = match &self.view {
            Some(view) => view.status(),
            None => return Step::Stop,
        };
        match status {
            Status::Disconnected => {
                self.discard_actions();
                self.phase = Phase::Disconnected;
                Step::Ended
            },
            Status::NeedsResync => {
                if self.actions.len() > 0 {
                    self.error = Some(
                        "Layout changed; queued input was discarded, not replayed.".to_owned(),
                    );
                }
                self.discard_actions();
                self.phase = Phase::Resynchronizing;
                Step::Resync
            },
            Status::Watching => {
                if self.actions.len() == 0 {
                    Step::Poll
                } else {
                    self.dispatch()
                }
            },
        }
    }
}

/// Nothing that is typed while no coherent view is followed is kept for later.
pub proof fn nothing_is_queued_offline(d: Desk, target: Target, act: Act)
    requires
        !ready(d),
    ensures
        enqueue_error(d, target, act) == Some(Error::Stale),
{
}

/// The shared layout is changed only where that was allowed.
pub proof fn resizes_are_opt_in(d: Desk, target: Target, resize: Resize)
    requires
        !d.allow_resize,
    ensures
        enqueue_error(d, target, Act::Resize(resize)) is Some,
{
}


/// The queue is bounded, whatever is submitted: an action is refused rather than
/// let it grow.
pub proof fn the_queue_is_bounded(d: Desk, target: Target, act: Act)
    requires
        bounded(d.queue),
        enqueue_error(d, target, act) is None,
    ensures
        bounded(queued(d.queue, target, act)),
{
    queued_facts(d.queue, target, act);
}

/// Cancelling a connection invalidates every action and every token of it.
pub proof fn cancelling_invalidates(d: Desk, target: Target, act: Act)
    requires
        current(d, target),
    ensures
        cancelled(d).queue.len() == 0,
        !current(cancelled(d), target),
        enqueue_error(cancelled(d), target, act) == Some(Error::Stale),
{
}

/// A token stays stale: no later view and no later connection makes one current
/// that was handed out before.
pub proof fn tokens_are_not_revived(d: Desk, later: Desk, target: Target)
    requires
        current(d, target),
        later.epoch > d.epoch || (later.epoch == d.epoch && later.generation > d.generation),
    ensures
        !current(later, target),
{
}

/// The worker of a connection that was replaced, or that is to stop, changes
/// nothing that is shown, whatever it comes back with, and is told to stop.
pub proof fn replaced_workers_publish_nothing(d: Desk, epoch: nat, reports: Seq<Report>)
    requires
        !accepted(d, epoch),
    ensures
        reported_all(d, epoch, reports) == d,
        stepped(d, epoch) == (d, Move::Stop),
    decreases reports.len(),
{
    if reports.len() > 0 {
        replaced_workers_publish_nothing(d, epoch, reports.drop_last());
    }
}

/// A queue that is the end of another one.
pub open spec fn ends(queue: Seq<(Target, Act)>, whole: Seq<(Target, Act)>) -> bool {
    queue.len() <= whole.len() && queue == whole.skip(whole.len() - queue.len())
}

/// A worker takes actions from the front of the queue or gives all of them up, and
/// puts none back, whatever it comes back with.
pub proof fn workers_put_nothing_back(d: Desk, epoch: nat, reports: Seq<Report>)
    ensures
        ends(reported_all(d, epoch, reports).queue, d.queue),
        reported_all(d, epoch, reports).epoch == d.epoch,
        reported_all(d, epoch, reports).generation >= d.generation,
    decreases reports.len(),
{
    if reports.len() == 0 {
        assert(d.queue.skip(0) =~= d.queue);
    } else {
        workers_put_nothing_back(d, epoch, reports.drop_last());
        let middle = reported_all(d, epoch, reports.drop_last());
        let last = reported_all(d, epoch, reports);
        assert(ends(last.queue, middle.queue)) by {
            let q = middle.queue;
            assert(q.skip(0) =~= q);
            assert(q.skip(q.len() as int) =~= seq![]);
            if q.len() > 0 {
                run_length_facts(q.drop_first(), q[0].0, (MAX_RUN - 1) as nat);
                assert(q.drop_first() =~= q.skip(1));
            }
        }
        assert(last.queue =~= d.queue.skip(d.queue.len() - last.queue.len()));
    }
}

/// An action that was taken to be sent is sent that once: it is no longer queued,
/// and nothing the worker comes back with queues it again.
pub proof fn taken_actions_stay_taken(
    d: Desk,
    epoch: nat,
    pane: PaneId,
    sent: Seq<Act>,
    reports: Seq<Report>,
)
    requires
        accepted(d, epoch),
        d.view is Some,
        stepped(d, epoch).1 == Move::Send(pane, sent),
    ensures
        ends(
            reported_all(stepped(d, epoch).0, epoch, reports).queue,
            d.queue.skip(sent.len() as int),
        ),
{
    let after = stepped(d, epoch).0;
    let rest = d.queue.skip(sent.len() as int);
    actions_are_sent_once(d, epoch, pane, sent);
    workers_put_nothing_back(after, epoch, reports);
    let last = reported_all(after, epoch, reports).queue;
    assert(last =~= rest.skip(rest.len() - last.len()));
}

/// What text a target is sent, in the order of the queue.
pub open spec fn text_for(queue: Seq<(Target, Act)>, target: Target) -> Seq<u8>
    decreases queue.len(),
{
    if queue.len() == 0 {
        seq![]
    } else {
        let front = text_for(queue.drop_last(), target);
        if queue.last().0 == target && queue.last().1 is Bytes {
            front + queue.last().1->Bytes_0
        } else {
            front
        }
    }
}

/// Coalescing neither loses text nor reorders it, and leaves the text of every
/// other target as it was.
pub proof fn coalescing_keeps_text(
    queue: Seq<(Target, Act)>,
    target: Target,
    act: Act,
    other: Target,
)
    ensures
        text_for(queued(queue, target, act), other) == if other == target && act is Bytes {
            text_for(queue, other) + act->Bytes_0
        } else {
            text_for(queue, other)
        },
{
    let now = queued(queue, target, act);
    if now.len() == queue.len() {
        assert(now.drop_last() =~= queue.drop_last());
        if other == target {
            assert(text_for(now, other) =~= text_for(queue, other) + act->Bytes_0);
        }
    } else {
        assert(now.drop_last() =~= queue);
    }
}

/// Whatever the worker sends was at the front of the queue, in that order, and
/// what is left behind it never holds it again.
pub proof fn actions_are_sent_once(d: Desk, epoch: nat, pane: PaneId, sent: Seq<Act>)
    requires
        accepted(d, epoch),
        d.view is Some,
        stepped(d, epoch).1 == Move::Send(pane, sent),
    ensures
        0 < sent.len() <= MAX_RUN,
        sent.len() <= d.queue.len(),
        sent == acts_in(d.queue.take(sent.len() as int)),
        stepped(d, epoch).0.queue == d.queue.skip(sent.len() as int) || stepped(
            d,
            epoch,
        ).0.queue.len() == 0,
        forall|i: int| 0 <= i < sent.len() ==> (#[trigger] d.queue[i]).0 == d.queue[0].0,
{
    let q = d.queue;
    run_length_facts(q.drop_first(), q[0].0, (MAX_RUN - 1) as nat);
    let n = leaving(q);
    assert(sent.len() == n);
    assert forall|i: int| 0 <= i < sent.len() implies (#[trigger] q[i]).0 == q[0].0 by {
        if i > 0 {
            assert(q.drop_first()[i - 1] == q[i]);
        }
    }
}

#[derive(Clone, Copy, Debug, PartialEq, Eq, Structural)]
pub enum Startup {
    ConnectionForm,
    Demo,
}

} // verus!
