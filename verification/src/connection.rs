//! Connection policy without sockets, clocks, sleeps, or an offline input queue.
use vstd::prelude::*;

verus! {

/// One attempt to connect. A later attempt has a larger number.
#[derive(Clone, Copy, Debug, PartialEq, Eq, Structural)]
pub struct Epoch(u64);

impl View for Epoch {
    type V = nat;

    closed spec fn view(&self) -> nat {
        self.0 as nat
    }
}

#[derive(Clone, Copy, Debug, PartialEq, Eq, Structural)]
pub enum State {
    Disconnected,
    Connecting,
    Restoring,
    Live,
    Backoff,
    NeedsAttention(Failure),
}

impl Default for State {
    fn default() -> (r: Self)
        ensures
            r == State::Disconnected,
    {
        State::Disconnected
    }
}

#[derive(Clone, Copy, Debug, PartialEq, Eq, Structural)]
pub enum Failure {
    Transport,
    Authentication,
    HostKey,
    MissingSession,
    Protocol,
}

#[derive(Debug)]
pub struct Connection {
    epoch: Epoch,
    state: State,
}

/// The number of the current attempt, and where it stands.
pub struct Policy {
    pub epoch: nat,
    pub state: State,
}

impl View for Connection {
    type V = Policy;

    closed spec fn view(&self) -> Policy {
        Policy { epoch: self.epoch@, state: self.state }
    }
}

/// Something that happens to a connection.
pub enum Step {
    Begin,
    TransportReady(nat),
    Restored(nat),
    Fail(nat, Failure),
    Disconnect,
}

/// Attempts that can fail.
pub open spec fn active(state: State) -> bool {
    state == State::Connecting || state == State::Restoring || state == State::Live
}

/// Whether the step changes the connection. Steps of an attempt that is no
/// longer current never do.
pub open spec fn takes(p: Policy, step: Step) -> bool {
    match step {
        Step::Begin => true,
        Step::TransportReady(epoch) => epoch == p.epoch && p.state == State::Connecting,
        Step::Restored(epoch) => epoch == p.epoch && p.state == State::Restoring,
        Step::Fail(epoch, _) => epoch == p.epoch && active(p.state),
        Step::Disconnect => true,
    }
}

pub open spec fn after(p: Policy, step: Step) -> Policy {
    if !takes(p, step) {
        p
    } else {
        match step {
            Step::Begin => Policy { epoch: p.epoch + 1, state: State::Connecting },
            Step::TransportReady(_) => Policy { state: State::Restoring, ..p },
            Step::Restored(_) => Policy { state: State::Live, ..p },
            Step::Fail(_, Failure::Transport) => Policy { state: State::Backoff, ..p },
            Step::Fail(_, failure) => Policy { state: State::NeedsAttention(failure), ..p },
            Step::Disconnect => Policy { state: State::Disconnected, ..p },
        }
    }
}

/// Whether output of an attempt is shown.
pub open spec fn takes_output(p: Policy, epoch: nat) -> bool {
    epoch == p.epoch && (p.state == State::Restoring || p.state == State::Live)
}

/// Whether input may be sent over an attempt.
pub open spec fn takes_input(p: Policy, epoch: nat) -> bool {
    epoch == p.epoch && p.state == State::Live
}

impl Default for Connection {
    fn default() -> (r: Self)
        ensures
            r@ == (Policy { epoch: 0, state: State::Disconnected }),
    {
        Connection { epoch: Epoch(0), state: State::Disconnected }
    }
}

impl Connection {
    /// Explicitly start or supersede an attempt. The transport owner must close
    /// the old channel and fail its pending commands before replacing it.
    pub fn begin_connect(&mut self) -> (r: Epoch)
        requires
            old(self)@.epoch < u64::MAX,
        ensures
            final(self)@ == after(old(self)@, Step::Begin),
            r@ == final(self)@.epoch,
    {
        self.epoch = Epoch(self.epoch.0 + 1);
        self.state = State::Connecting;
        self.epoch
    }

    pub fn state(&self) -> (r: State)
        ensures
            r == self@.state,
    {
        self.state
    }

    pub fn transport_ready(&mut self, epoch: Epoch) -> (r: bool)
        ensures
            r == takes(old(self)@, Step::TransportReady(epoch@)),
            final(self)@ == after(old(self)@, Step::TransportReady(epoch@)),
    {
        if epoch != self.epoch || self.state != State::Connecting {
            return false;
        }
        self.state = State::Restoring;
        true
    }

    /// Call only after a coherent topology, screen and mode restoration. An SSH
    /// handshake alone must never enable input.
    pub fn restored(&mut self, epoch: Epoch) -> (r: bool)
        ensures
            r == takes(old(self)@, Step::Restored(epoch@)),
            final(self)@ == after(old(self)@, Step::Restored(epoch@)),
    {
        if epoch != self.epoch || self.state != State::Restoring {
            return false;
        }
        self.state = State::Live;
        true
    }

    pub fn fail(&mut self, epoch: Epoch, failure: Failure) -> (r: bool)
        ensures
            r == takes(old(self)@, Step::Fail(epoch@, failure)),
            final(self)@ == after(old(self)@, Step::Fail(epoch@, failure)),
    {
        if epoch != self.epoch || !(self.state == State::Connecting || self.state
            == State::Restoring || self.state == State::Live) {
            return false;
        }
        self.state = match failure {
            Failure::Transport => State::Backoff,
            _ => State::NeedsAttention(failure),
        };
        true
    }

    pub fn disconnect(&mut self)
        ensures
            final(self)@ == after(old(self)@, Step::Disconnect),
    {
        self.state = State::Disconnected;
    }

    pub fn accepts_output(&self, epoch: Epoch) -> (r: bool)
        ensures
            r == takes_output(self@, epoch@),
    {
        epoch == self.epoch && (self.state == State::Restoring || self.state == State::Live)
    }

    pub fn accepts_input(&self, epoch: Epoch) -> (r: bool)
        ensures
            r == takes_input(self@, epoch@),
    {
        epoch == self.epoch && self.state == State::Live
    }
}

/// A history of steps, from a connection that was just made.
pub open spec fn history(steps: Seq<Step>) -> Policy
    decreases steps.len(),
{
    if steps.len() == 0 {
        Policy { epoch: 0, state: State::Disconnected }
    } else {
        after(history(steps.drop_last()), steps.last())
    }
}

/// Callbacks of an attempt that was superseded change nothing.
pub proof fn stale_steps_change_nothing(p: Policy, epoch: nat, failure: Failure)
    requires
        epoch != p.epoch,
    ensures
        after(p, Step::TransportReady(epoch)) == p,
        after(p, Step::Restored(epoch)) == p,
        after(p, Step::Fail(epoch, failure)) == p,
{
}

/// Only a transport failure leads to a retry; every other failure waits for the
/// user, and no later step of the same attempt leads out of that.
pub proof fn only_transport_failures_retry(p: Policy, step: Step)
    ensures
        after(p, step).state == State::Backoff && p.state != State::Backoff ==> step matches
            Step::Fail(_, Failure::Transport),
        p.state matches State::NeedsAttention(_) && !(step is Begin) && !(step is Disconnect)
            ==> after(p, step) == p,
{
}

/// Whether a step of a history changed the connection.
pub open spec fn taken(steps: Seq<Step>, k: int) -> bool {
    takes(history(steps.take(k)), steps[k])
}

/// An attempt that began at `b`, was not superseded, became ready at `i` and was
/// restored at `j`, and neither failed nor was disconnected since.
pub open spec fn restored_run(steps: Seq<Step>, epoch: nat, b: int, i: int, j: int) -> bool {
    &&& ready_run(steps, epoch, b, i)
    &&& i < j < steps.len()
    &&& steps[j] == Step::Restored(epoch) && taken(steps, j)
    &&& forall|k: int|
        j < k < steps.len() ==> !(#[trigger] steps[k] is Disconnect) && !(steps[k] matches
            Step::Fail(failed, _) && failed == epoch && taken(steps, k))
}

/// An attempt that began at `b`, was not superseded, and became ready at `i`.
pub open spec fn ready_run(steps: Seq<Step>, epoch: nat, b: int, i: int) -> bool {
    &&& latest_begin(steps, epoch, b)
    &&& b < i < steps.len()
    &&& steps[i] == Step::TransportReady(epoch) && taken(steps, i)
}

/// The latest attempt is the one with this number, and it began at `b`.
pub open spec fn latest_begin(steps: Seq<Step>, epoch: nat, b: int) -> bool {
    &&& 0 <= b < steps.len()
    &&& steps[b] is Begin && history(steps.take(b + 1)).epoch == epoch
    &&& forall|k: int| b < k < steps.len() ==> !(#[trigger] steps[k] is Begin)
}

proof fn prefix_facts(steps: Seq<Step>)
    requires
        steps.len() > 0,
    ensures
        forall|k: int| 0 <= k < steps.len() - 1 ==> #[trigger] steps.drop_last()[k] == steps[k],
        forall|k: int|
            0 <= k < steps.len() ==> #[trigger] steps.drop_last().take(k) == steps.take(k),
        steps.take(steps.len() - 1) == steps.drop_last(),
        steps.take(steps.len() as int) == steps,
{
    assert forall|k: int| 0 <= k < steps.len() implies #[trigger] steps.drop_last().take(k)
        == steps.take(k) by {
        assert(steps.drop_last().take(k) =~= steps.take(k));
    }
    assert(steps.take(steps.len() - 1) =~= steps.drop_last());
    assert(steps.take(steps.len() as int) =~= steps);
}

proof fn begun(steps: Seq<Step>) -> (b: int)
    requires
        active(history(steps).state),
    ensures
        latest_begin(steps, history(steps).epoch, b),
    decreases steps.len(),
{
    prefix_facts(steps);
    if steps.last() is Begin {
        steps.len() - 1
    } else {
        let b = begun(steps.drop_last());
        assert(steps.drop_last().take(b + 1) == steps.take(b + 1));
        assert forall|k: int| b < k < steps.len() implies !(#[trigger] steps[k] is Begin) by {
            if k < steps.len() - 1 {
                assert(steps.drop_last()[k] == steps[k]);
            }
        }
        b
    }
}

proof fn made_ready(steps: Seq<Step>) -> (r: (int, int))
    requires
        history(steps).state == State::Restoring || history(steps).state == State::Live,
    ensures
        ready_run(steps, history(steps).epoch, r.0, r.1),
    decreases steps.len(),
{
    prefix_facts(steps);
    let b = begun(steps);
    let last = steps.len() - 1;
    if taken(steps, last) && steps[last] is TransportReady {
        (b, last)
    } else {
        let before = steps.drop_last();
        let (c, i) = made_ready(before);
        assert(before.take(i) == steps.take(i));
        assert(before[i] == steps[i] && before[c] == steps[c]);
        if b < c {
            assert(!(steps[c] is Begin));
        } else if c < b {
            assert(before[b] == steps[b]);
            assert(!(before[b] is Begin));
        }
        (b, i)
    }
}

proof fn made_live(steps: Seq<Step>) -> (r: (int, int, int))
    requires
        history(steps).state == State::Live,
    ensures
        restored_run(steps, history(steps).epoch, r.0, r.1, r.2),
    decreases steps.len(),
{
    prefix_facts(steps);
    let (b, i) = made_ready(steps);
    let last = steps.len() - 1;
    let before = steps.drop_last();
    if taken(steps, last) && steps[last] is Restored {
        (b, i, last)
    } else {
        let (c, h, j) = made_live(before);
        assert(before.take(j) == steps.take(j) && before.take(h) == steps.take(h));
        assert(before[c] == steps[c] && before[h] == steps[h] && before[j] == steps[j]);
        if b < c {
            assert(!(steps[c] is Begin));
        } else if c < b {
            assert(before[b] == steps[b]);
            assert(!(before[b] is Begin));
        }
        assert forall|k: int| j < k < steps.len() implies !(#[trigger] steps[k] is Disconnect)
            && !(steps[k] matches Step::Fail(failed, _) && failed == history(steps).epoch && taken(
            steps,
            k,
        )) by {
            if k < last {
                assert(before[k] == steps[k]);
                assert(before.take(k) == steps.take(k));
            }
        }
        (b, h, j)
    }
}

proof fn stays_live(steps: Seq<Step>, epoch: nat, b: int, i: int, j: int)
    requires
        restored_run(steps, epoch, b, i, j),
    ensures
        takes_input(history(steps), epoch),
    decreases steps.len(),
{
    prefix_facts(steps);
    let last = steps.len() - 1;
    if j < last {
        let before = steps.drop_last();
        assert(before.take(b + 1) == steps.take(b + 1));
        assert(before.take(i) == steps.take(i) && before.take(j) == steps.take(j));
        assert(before[b] == steps[b] && before[i] == steps[i] && before[j] == steps[j]);
        assert forall|k: int| b < k < before.len() implies !(#[trigger] before[k] is Begin) by {
            assert(before[k] == steps[k]);
        }
        assert forall|k: int| j < k < before.len() implies !(#[trigger] before[k] is Disconnect)
            && !(before[k] matches Step::Fail(failed, _) && failed == epoch && taken(before, k)) by {
            assert(before[k] == steps[k]);
            assert(before.take(k) == steps.take(k));
        }
        stays_live(before, epoch, b, i, j);
        assert(!(steps[last] is Begin) && !(steps[last] is Disconnect));
    }
}

/// Input is accepted for an attempt if and only if it is the latest one, it became
/// ready and was then restored, and there was no disconnect and no failure of it
/// since. A handshake alone never enables input.
pub proof fn input_is_restoration(steps: Seq<Step>, epoch: nat)
    ensures
        takes_input(history(steps), epoch) <==> exists|b: int, i: int, j: int|
            restored_run(steps, epoch, b, i, j),
        takes_input(history(steps), epoch) ==> takes_output(history(steps), epoch),
{
    if takes_input(history(steps), epoch) {
        let (b, i, j) = made_live(steps);
        assert(restored_run(steps, epoch, b, i, j));
    }
    if exists|b: int, i: int, j: int| restored_run(steps, epoch, b, i, j) {
        let (b, i, j) = choose|b: int, i: int, j: int| restored_run(steps, epoch, b, i, j);
        stays_live(steps, epoch, b, i, j);
    }
}

} // verus!
