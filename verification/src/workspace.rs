//! The tabs of a window. Each has its own connection, form, selection and input
//! tokens; a new one shows a form and touches no other.
use std::sync::Arc;

use vstd::prelude::*;
use vstd::string::*;

use crate::desktop::{
    self, batch_error, batch_of, blank, cancelled, queued_all, Desk, Phase, Startup, Target,
};
use crate::dialog::BrokenStore;
use crate::form::{copy_option, Local};
use crate::input::{Act, Action as Input};
use crate::snapshot;
use crate::ssh;
use crate::ssh_config::{opt_text, Config};
use crate::store::{self, fps_in_effect, tab_facts, Saved, TabFacts};
use crate::text::{chars_of, string_of, trim_both, trimmed};
use crate::ui::{self, clipped, opened, refreshed, reopened, wishes, DesktopUi, Front, Step, Wish};

verus! {

pub const MAX_TABS: usize = 16;

/// What is found out about the machine before a tab is opened.
#[derive(Clone, Copy, Debug, PartialEq, Eq, Structural)]
pub struct Probe {
    /// Whether an agent was found.
    pub agent: bool,
    /// The time, in milliseconds.
    pub now: u64,
}

pub struct Tab {
    pub id: u64,
    pub label: String,
    pub state: desktop::State,
    pub ui: DesktopUi,
}

/// The contents of a tab.
pub struct Slot {
    pub id: nat,
    pub label: Seq<char>,
    pub desk: Desk,
    pub front: Front,
}

impl View for Tab {
    type V = Slot;

    open spec fn view(&self) -> Slot {
        Slot {
            id: self.id as nat,
            label: self.label@,
            desk: self.state@,
            front: self.ui@,
        }
    }
}

#[derive(Debug)]
pub enum Action {
    Idle,
    New,
    Select(u64),
    Close(u64),
    Tab(u64, ui::Action),
}

/// What is left to do behind an action.
#[derive(Debug)]
pub enum Effect {
    Idle,
    ReloadConfig,
    ListSessions(u64, desktop::Connection),
    CreateSession(u64, desktop::Connection),
    /// The worker of this tab ends.
    Closed(u64),
}

#[derive(Debug)]
pub struct Outcome {
    /// Whether the window is drawn again.
    pub wake: bool,
    /// Whether the tabs are saved.
    pub persist: bool,
    pub effect: Effect,
}

pub struct Workspace {
    pub tabs: Vec<Tab>,
    pub active: usize,
    pub next: u64,
    pub config: Arc<Config>,
    pub config_error: Option<String>,
    pub notice: Option<String>,
    /// Where the tabs are saved, if they are.
    pub store: Option<String>,
    pub restore_tabs: bool,
    pub fps: u32,
    pub idle: u32,
    pub open_secs: u64,
    pub local: Local,
}

/// The contents of a workspace.
pub struct Room {
    pub tabs: Seq<Slot>,
    pub active: nat,
    pub next: nat,
    pub config: Config,
    pub config_error: Option<Seq<char>>,
    pub notice: Option<Seq<char>>,
    pub store: Option<Seq<char>>,
    pub restore_tabs: bool,
    pub fps: nat,
    pub idle: nat,
    pub open_secs: nat,
    pub user: Seq<char>,
    pub home: Option<Seq<char>>,
}

pub open spec fn slots(tabs: Seq<Tab>) -> Seq<Slot> {
    tabs.map_values(|tab: Tab| tab@)
}

impl View for Workspace {
    type V = Room;

    open spec fn view(&self) -> Room {
        Room {
            tabs: slots(self.tabs@),
            active: self.active as nat,
            next: self.next as nat,
            config: *self.config,
            config_error: opt_text(self.config_error),
            notice: opt_text(self.notice),
            store: opt_text(self.store),
            restore_tabs: self.restore_tabs,
            fps: self.fps as nat,
            idle: self.idle as nat,
            open_secs: self.open_secs as nat,
            user: self.local.user@,
            home: opt_text(self.local.home),
        }
    }
}

/// A workspace without tabs.
pub open spec fn vacant(
    config: Config,
    store: Option<Seq<char>>,
    user: Seq<char>,
    home: Option<Seq<char>>,
) -> Room {
    Room {
        tabs: seq![],
        active: 0,
        next: 1,
        config,
        config_error: None,
        notice: None,
        store,
        restore_tabs: true,
        fps: store::DEFAULT_FPS as nat,
        idle: store::DEFAULT_IDLE as nat,
        open_secs: 0,
        user,
        home,
    }
}

/// A restored tab is labelled by where it points, not by a connection.
pub open spec fn tab_label(tab: TabFacts) -> Seq<char> {
    let destination = if trim_both(tab.destination).len() == 0 {
        trim_both(tab.host)
    } else {
        trim_both(tab.destination)
    };
    let session = trim_both(tab.session);
    if destination.len() == 0 && session.len() == 0 {
        "New connection"@
    } else if destination.len() == 0 {
        session
    } else if session.len() == 0 {
        destination
    } else {
        destination + " / "@ + session
    }
}

pub fn label(tab: &store::Tab) -> (r: String)
    ensures
        r@ == tab_label(tab@),
{
    let destination = chars_of(tab.destination.as_str());
    let host = chars_of(tab.host.as_str());
    let session = chars_of(tab.session.as_str());
    let place = if trimmed(destination.as_slice()).len() == 0 {
        trimmed(host.as_slice())
    } else {
        trimmed(destination.as_slice())
    };
    let name = trimmed(session.as_slice());
    if place.len() == 0 && name.len() == 0 {
        "New connection".to_owned()
    } else if place.len() == 0 {
        string_of(name)
    } else if name.len() == 0 {
        string_of(place)
    } else {
        let mut out = string_of(place);
        out.append(" / ");
        out.append(string_of(name).as_str());
        out
    }
}

/// Tabs without anything that waits for an answer.
pub open spec fn calmed(tabs: Seq<Slot>) -> Seq<Slot> {
    tabs.map_values(
        |tab: Slot| Slot { front: Front { pending: None, ..tab.front }, ..tab },
    )
}

pub open spec fn full_text() -> Seq<char> {
    "at most 16 connection tabs may be open"@
}

/// A tab that was just opened.
pub open spec fn new_slot(room: Room, probe: Probe) -> Slot {
    Slot {
        id: room.next,
        label: "New connection"@,
        desk: blank(),
        front: opened(
            room.config,
            room.config_error,
            room.user,
            room.home,
            probe.agent,
            probe.now as nat,
        ),
    }
}

/// A workspace with one more tab, which is shown.
pub open spec fn with_new(room: Room, probe: Probe) -> Room {
    Room {
        tabs: calmed(room.tabs).push(new_slot(room, probe)),
        active: room.tabs.len(),
        next: room.next + 1,
        ..room
    }
}

/// The place of a tab, or -1.
pub open spec fn place_of(tabs: Seq<Slot>, id: nat) -> int
    decreases tabs.len(),
{
    if tabs.len() == 0 {
        -1
    } else {
        let i = place_of(tabs.drop_last(), id);
        if i >= 0 {
            i
        } else if tabs.last().id == id {
            tabs.len() - 1
        } else {
            -1
        }
    }
}

proof fn place_prefix(tabs: Seq<Slot>, id: nat, n: int)
    requires
        0 <= n <= tabs.len(),
        place_of(tabs.take(n), id) >= 0,
    ensures
        place_of(tabs, id) == place_of(tabs.take(n), id),
    decreases tabs.len() - n,
{
    if n == tabs.len() {
        assert(tabs.take(n) =~= tabs);
    } else {
        assert(tabs.take(n + 1).drop_last() =~= tabs.take(n));
        place_prefix(tabs, id, n + 1);
    }
}

pub proof fn place_facts(tabs: Seq<Slot>, id: nat)
    ensures
        -1 <= place_of(tabs, id) < tabs.len(),
        place_of(tabs, id) >= 0 ==> tabs[place_of(tabs, id)].id == id,
        place_of(tabs, id) == -1 ==> forall|i: int|
            0 <= i < tabs.len() ==> (#[trigger] tabs[i]).id != id,
    decreases tabs.len(),
{
    if tabs.len() > 0 {
        place_facts(tabs.drop_last(), id);
        assert forall|i: int| place_of(tabs, id) == -1 && 0 <= i < tabs.len() implies (
        #[trigger] tabs[i]).id != id by {
            if i < tabs.len() - 1 {
                assert(tabs.drop_last()[i] == tabs[i]);
            }
        }
    }
}

/// A workspace that shows another tab.
pub open spec fn switched(room: Room, id: nat) -> Room {
    let i = place_of(room.tabs, id);
    if i < 0 {
        room
    } else {
        Room { tabs: calmed(room.tabs), active: i as nat, ..room }
    }
}

/// A workspace without a tab. The tab that was shown stays, or its neighbour
/// comes; the last one leaves a new one behind.
pub open spec fn without(room: Room, id: nat, probe: Probe) -> Room {
    let i = place_of(room.tabs, id);
    if i < 0 {
        room
    } else {
        let tabs = calmed(room.tabs).remove(i);
        let active = if i < room.active {
            room.active - 1
        } else {
            room.active as int
        };
        let left = Room {
            tabs,
            active: if active < tabs.len() {
                active as nat
            } else if tabs.len() == 0 {
                0
            } else {
                (tabs.len() - 1) as nat
            },
            ..room
        };
        if tabs.len() == 0 {
            with_new(left, probe)
        } else {
            left
        }
    }
}

/// A tab under another configuration.
pub open spec fn reconfigured(tab: Slot, config: Config, error: Option<Seq<char>>) -> Slot {
    Slot { front: refreshed(Front { config, config_error: error, ..tab.front }), ..tab }
}

pub open spec fn with_config(room: Room, config: Config, error: Option<Seq<char>>) -> Room {
    Room {
        config,
        config_error: error,
        tabs: room.tabs.map_values(|tab: Slot| reconfigured(tab, config, error)),
        ..room
    }
}

/// A saved tab, reopened on its form.
pub open spec fn reopened_slot(room: Room, tab: TabFacts, probe: Probe) -> Slot {
    let slot = new_slot(room, probe);
    Slot { label: tab_label(tab), front: reopened(slot.front, tab), ..slot }
}

/// A workspace with one saved tab more, if there is room for it.
pub open spec fn with_reopened(room: Room, tab: TabFacts, probe: Probe) -> Room {
    if room.tabs.len() >= MAX_TABS {
        room
    } else {
        let more = with_new(room, probe);
        Room { tabs: more.tabs.drop_last().push(reopened_slot(room, tab, probe)), ..more }
    }
}

/// Saved tabs, reopened in order, as many as there is room for.
pub open spec fn with_saved(room: Room, tabs: Seq<TabFacts>, probe: Probe) -> Room
    decreases tabs.len(),
{
    if tabs.len() == 0 {
        room
    } else {
        with_reopened(with_saved(room, tabs.drop_last(), probe), tabs.last(), probe)
    }
}

/// A workspace as it was saved.
pub open spec fn resumed(room: Room, saved: Saved, probe: Probe) -> Room {
    let next = with_saved(room, saved.tabs, probe);
    Room {
        active: if saved.active < next.tabs.len() {
            saved.active
        } else if next.tabs.len() == 0 {
            0
        } else {
            (next.tabs.len() - 1) as nat
        },
        restore_tabs: saved.restore_tabs,
        fps: fps_in_effect(saved.fps),
        idle: saved.idle,
        open_secs: saved.open_secs,
        ..next
    }
}

/// What is saved of tabs.
pub open spec fn saved_tabs(tabs: Seq<Slot>) -> Seq<TabFacts> {
    tabs.map_values(|tab: Slot| crate::form::saved_tab(tab.front.form))
}

pub open spec fn saved_room(room: Room) -> Saved {
    Saved {
        tabs: saved_tabs(room.tabs),
        active: room.active,
        restore_tabs: room.restore_tabs,
        fps: fps_in_effect(room.fps),
        idle: room.idle,
        open_secs: room.open_secs,
    }
}

/// The requests for the clipboard among steps.
pub open spec fn requests(steps: Seq<Wish>) -> nat
    decreases steps.len(),
{
    if steps.len() == 0 {
        0
    } else {
        requests(steps.drop_last()) + if steps.last() is RequestPaste {
            1nat
        } else {
            0
        }
    }
}

pub open spec fn clip_at(clips: Seq<Option<Seq<char>>>, n: nat) -> Option<Seq<char>> {
    if n < clips.len() {
        clips[n as int]
    } else {
        None
    }
}

pub open spec fn clip_texts(clips: Seq<Option<String>>) -> Seq<Option<Seq<char>>> {
    clips.map_values(|clip: Option<String>| opt_text(clip))
}

/// The actions of a frame, with what the clipboard gave in the places where it
/// was asked for.
pub open spec fn resolved_steps(
    front: Front,
    desk: Desk,
    steps: Seq<Wish>,
    clips: Seq<Option<Seq<char>>>,
) -> (Front, Seq<(Target, Act)>)
    decreases steps.len(),
{
    if steps.len() == 0 {
        (front, seq![])
    } else {
        let (f, batch) = resolved_steps(front, desk, steps.drop_last(), clips);
        match steps.last() {
            Wish::Send(target, act) => (f, batch.push((target, act))),
            Wish::RequestPaste(target) => match clip_at(clips, requests(steps.drop_last())) {
                None => (f, batch),
                Some(text) => {
                    let (g, act) = clipped(f, desk, target, text);
                    match act {
                        Some(act) => (g, batch.push((target, act))),
                        None => (g, batch),
                    }
                },
            },
        }
    }
}

/// The label of a tab that connects.
pub open spec fn connecting_label(front: Front, session: Seq<char>) -> Seq<char> {
    ui::destination_of(front.form) + " / "@ + session
}

/// The error that a connection is refused with, if it is.
pub open spec fn connect_error(c: desktop::Connection) -> Option<Seq<char>> {
    match ssh::fault(c.options) {
        Some(fault) => Some(ssh::error_text(ssh::Kind::Configuration, ssh::fault_text(fault))),
        None => if c.history > snapshot::MAX_HISTORY_LINES {
            Some(ssh::error_text(ssh::Kind::Configuration, "history exceeds budget"@))
        } else {
            None
        },
    }
}

/// A tab after an action of its own.
pub open spec fn slot_after(tab: Slot, action: ui::Action, clips: Seq<Option<Seq<char>>>) -> Slot {
    match action {
        ui::Action::Connect(c) => match connect_error(c) {
            Some(text) => Slot { desk: Desk { error: Some(text), ..tab.desk }, ..tab },
            None => Slot {
                label: connecting_label(tab.front, c.session@),
                desk: Desk {
                    phase: Phase::Connecting,
                    pending: Some(c),
                    ..cancelled(tab.desk)
                },
                front: Front { cells: None, pending_cells: None, ..tab.front },
                ..tab
            },
        },
        ui::Action::Disconnect => Slot {
            desk: Desk { phase: Phase::Disconnected, ..cancelled(tab.desk) },
            ..tab
        },
        ui::Action::Frame(steps) => {
            let (front, batch) = resolved_steps(tab.front, tab.desk, wishes(steps@), clips);
            Slot {
                front,
                desk: if batch.len() == 0 {
                    tab.desk
                } else {
                    match batch_error(tab.desk, batch) {
                        Some(error) => Desk {
                            error: Some(desktop::error_text(error)),
                            ..tab.desk
                        },
                        None => Desk { queue: queued_all(tab.desk.queue, batch), ..tab.desk },
                    }
                },
                ..tab
            }
        },
        _ => tab,
    }
}

/// Whether an action is one of the tab that is shown. One of any other tab is
/// out of date and changes nothing.
pub open spec fn concerns(room: Room, id: nat) -> bool {
    room.active < room.tabs.len() && room.tabs[room.active as int].id == id
}

/// A workspace after an action.
pub open spec fn room_after(
    room: Room,
    action: Action,
    clips: Seq<Option<Seq<char>>>,
    probe: Probe,
) -> Room {
    match action {
        Action::Idle => room,
        Action::New => if room.tabs.len() >= MAX_TABS {
            Room { notice: Some(full_text()), ..room }
        } else {
            with_new(room, probe)
        },
        Action::Select(id) => switched(room, id as nat),
        Action::Close(id) => without(room, id as nat, probe),
        Action::Tab(id, action) => if concerns(room, id as nat) {
            Room {
                tabs: room.tabs.update(
                    room.active as int,
                    slot_after(room.tabs[room.active as int], action, clips),
                ),
                ..room
            }
        } else {
            room
        },
    }
}

/// Whether the window is drawn again behind an action.
pub open spec fn wakes(action: Action) -> bool {
    !(action is Idle || action matches Action::Tab(_, ui::Action::Idle))
}

/// Whether the tabs are saved behind an action.
pub open spec fn persists(room: Room, action: Action) -> bool {
    match action {
        Action::Idle => false,
        Action::New => room.tabs.len() < MAX_TABS,
        Action::Select(id) => place_of(room.tabs, id as nat) >= 0,
        Action::Close(id) => place_of(room.tabs, id as nat) >= 0,
        Action::Tab(id, ui::Action::Connect(c)) => concerns(room, id as nat) && connect_error(c)
            is None,
        Action::Tab(_, _) => false,
    }
}

pub open spec fn effect_of(room: Room, action: Action) -> Effect {
    match action {
        Action::Close(id) => if place_of(room.tabs, id as nat) >= 0 {
            Effect::Closed(id)
        } else {
            Effect::Idle
        },
        Action::Tab(id, action) => if !concerns(room, id as nat) {
            Effect::Idle
        } else {
            match action {
                ui::Action::ListSessions(c) => Effect::ListSessions(id, c),
                ui::Action::CreateSession(c) => Effect::CreateSession(id, c),
                ui::Action::ReloadConfig => Effect::ReloadConfig,
                _ => Effect::Idle,
            }
        },
        _ => Effect::Idle,
    }
}

/// Tabs with numbers of their own, all below the next one.
pub open spec fn numbered(tabs: Seq<Slot>, next: nat) -> bool {
    &&& forall|i: int| 0 <= i < tabs.len() ==> (#[trigger] tabs[i]).id < next
    &&& forall|i: int, j: int|
        0 <= i < j < tabs.len() ==> (#[trigger] tabs[i]).id < (#[trigger] tabs[j]).id
}

fn copy_local(local: &Local) -> (r: Local)
    ensures
        r.user@ == local.user@,
        opt_text(r.home) == opt_text(local.home),
{
    Local { user: local.user.clone(), home: copy_option(&local.home) }
}

fn find_tab(tabs: &Vec<Tab>, id: u64) -> (r: Option<usize>)
    ensures
        match r {
            Some(i) => i == place_of(slots(tabs@), id as nat) && i < tabs@.len(),
            None => place_of(slots(tabs@), id as nat) == -1,
        },
{
    let ghost all = slots(tabs@);
    let mut i: usize = 0;
    while i < tabs.len()
        invariant
            i <= tabs.len(),
            all == slots(tabs@),
            place_of(all.take(i as int), id as nat) == -1,
        decreases tabs.len() - i,
    {
        proof {
            assert(all.take(i + 1).drop_last() =~= all.take(i as int));
        }
        if tabs[i].id == id {
            proof {
                place_prefix(all, id as nat, i + 1);
            }
            return Some(i);
        }
        i += 1;
    }
    proof {
        assert(all.take(i as int) =~= all);
    }
    None
}

fn push_pair(batch: &mut Vec<(Target, Input)>, target: Target, action: Input)
    ensures
        batch_of(final(batch)@) == batch_of(old(batch)@).push((target, action@)),
{
    let ghost before = batch@;
    batch.push((target, action));
    proof {
        assert(batch_of(batch@) =~= batch_of(before).push((target, action@)));
    }
}

/// The requests for the clipboard in an action.
pub fn clipboard_requests(action: &Action) -> (r: usize)
    ensures
        r == match *action {
            Action::Tab(_, ui::Action::Frame(steps)) => requests(wishes(steps@)),
            _ => 0,
        },
{
    match action {
        Action::Tab(_, ui::Action::Frame(steps)) => {
            let ghost all = wishes(steps@);
            let mut count: usize = 0;
            let mut i: usize = 0;
            while i < steps.len()
                invariant
                    i <= steps.len(),
                    count <= i,
                    all == wishes(steps@),
                    count == requests(all.take(i as int)),
                decreases steps.len() - i,
            {
                proof {
                    assert(all.take(i + 1).drop_last() =~= all.take(i as int));
                    assert(all[i as int] == steps@[i as int]@);
                }
                if let Step::RequestPaste(_) = &steps[i] {
                    count += 1;
                }
                i += 1;
            }
            proof {
                assert(all.take(i as int) =~= all);
            }
            count
        },
        _ => 0,
    }
}

impl Workspace {
    pub open spec fn wf(self) -> bool {
        &&& self.tabs@.len() <= MAX_TABS
        &&& self.active < self.tabs@.len() || (self.tabs@.len() == 0 && self.active == 0)
        &&& numbered(slots(self.tabs@), self.next as nat)
        &&& forall|i: int| 0 <= i < self.tabs@.len() ==> (#[trigger] self.tabs@[i]).state.wf()
    }

    /// A workspace without tabs. The demo neither reads nor writes saved tabs.
    pub fn empty(startup: Startup, config: Arc<Config>, store: Option<String>, local: Local) -> (r:
        Self)
        ensures
            r.wf(),
            r@ == vacant(
                *config,
                if startup == Startup::Demo {
                    None
                } else {
                    opt_text(store)
                },
                local.user@,
                opt_text(local.home),
            ),
    {
        let r = Workspace {
            tabs: Vec::new(),
            active: 0,
            next: 1,
            config,
            config_error: None,
            notice: None,
            store: match startup {
                Startup::Demo => None,
                Startup::ConnectionForm => store,
            },
            restore_tabs: true,
            fps: store::DEFAULT_FPS,
            idle: store::DEFAULT_IDLE,
            open_secs: 0,
            local,
        };
        proof {
            assert(slots(r.tabs@) =~= Seq::<Slot>::empty());
        }
        r
    }

    pub fn cancel_transient(&mut self)
        requires
            old(self).wf(),
        ensures
            final(self).wf(),
            final(self)@ == (Room { tabs: calmed(old(self)@.tabs), ..old(self)@ }),
            final(self).tabs@.len() == old(self).tabs@.len(),
            forall|i: int|
                0 <= i < old(self).tabs@.len() ==> (#[trigger] final(self).tabs@[i]).state
                    == old(self).tabs@[i].state,
    {
        let ghost before = self.tabs@;
        let ghost room = self@;
        let mut i: usize = 0;
        while i < self.tabs.len()
            invariant
                i <= self.tabs@.len(),
                self.tabs@.len() == before.len(),
                self@ == (Room { tabs: slots(self.tabs@), ..room }),
                forall|j: int|
                    0 <= j < i ==> (#[trigger] self.tabs@[j])@ == calmed(slots(before))[j],
                forall|j: int| i <= j < before.len() ==> #[trigger] self.tabs@[j] == before[j],
                forall|j: int|
                    0 <= j < before.len() ==> (#[trigger] self.tabs@[j]).state == before[j].state,
            decreases self.tabs@.len() - i,
        {
            self.tabs[i].ui.cancel_transient();
            i += 1;
        }
        proof {
            assert(slots(self.tabs@) =~= calmed(slots(before)));
            calmed_is_numbered(slots(before), self.next as nat);
        }
    }

    /// Open a tab and show it.
    pub fn new_tab(&mut self, probe: Probe) -> (r: Result<(), ()>)
        requires
            old(self).wf(),
            old(self).next < u64::MAX,
        ensures
            final(self).wf(),
            if old(self).tabs@.len() >= MAX_TABS {
                r is Err && final(self)@ == old(self)@
            } else {
                r is Ok && final(self)@ == with_new(old(self)@, probe)
            },
            final(self).tabs@.len() == if old(self).tabs@.len() >= MAX_TABS {
                old(self).tabs@.len()
            } else {
                old(self).tabs@.len() + 1
            },
            forall|i: int|
                0 <= i < old(self).tabs@.len() ==> (#[trigger] final(self).tabs@[i]).state
                    == old(self).tabs@[i].state,
    {
        if self.tabs.len() >= MAX_TABS {
            return Err(());
        }
        self.cancel_transient();
        let ghost before = self.tabs@;
        let id = self.next;
        self.next = self.next + 1;
        let tab = Tab {
            id,
            label: "New connection".to_owned(),
            state: desktop::State::default(),
            ui: DesktopUi::with_config(
                self.config.clone(),
                copy_option(&self.config_error),
                copy_local(&self.local),
                probe.agent,
                probe.now,
            ),
        };
        self.tabs.push(tab);
        self.active = self.tabs.len() - 1;
        proof {
            assert(slots(self.tabs@) =~= slots(before).push(tab@));
        }
        Ok(())
    }

    /// Show the built-in demo in the first tab.
    pub fn demo(&mut self, view: snapshot::View)
        requires
            old(self).wf(),
            old(self).tabs@.len() > 0,
            old(self).tabs@[0].state.epoch < u64::MAX,
            old(self).tabs@[0].state.generation < u64::MAX,
            view.wf(),
        ensures
            final(self).wf(),
            final(self)@ == ({
                let first = old(self)@.tabs[0];
                Room {
                    tabs: old(self)@.tabs.update(
                        0,
                        Slot {
                            label: "Demo"@,
                            desk: Desk {
                                view: Some((view.spec_session(), view.models())),
                                generation: first.desk.generation + 1,
                                label: "Local demo / work"@,
                                phase: Phase::Demo,
                                ..cancelled(first.desk)
                            },
                            front: ui::at_terminal(first.front),
                            ..first
                        },
                    ),
                    ..old(self)@
                }
            }),
    {
        let ghost before = self.tabs@;
        self.tabs[0].state.demo(view);
        self.tabs[0].label = "Demo".to_owned();
        self.tabs[0].ui.open_terminal();
        proof {
            assert(slots(self.tabs@) =~= slots(before).update(0, self.tabs@[0]@));
        }
    }

    /// Read a configuration, or learn why it could not be read. Every tab takes
    /// its form from it anew.
    pub fn reload_config(&mut self, loaded: Result<Config, String>)
        requires
            old(self).wf(),
        ensures
            final(self).wf(),
            final(self)@ == match loaded {
                Ok(config) => with_config(old(self)@, config, None),
                Err(error) => with_config(
                    old(self)@,
                    old(self)@.config,
                    Some("Could not load SSH config: "@ + error@),
                ),
            },
    {
        match loaded {
            Ok(config) => {
                self.config = Arc::new(config);
                self.config_error = None;
            },
            Err(error) => {
                let mut text = "Could not load SSH config: ".to_owned();
                text.append(error.as_str());
                self.config_error = Some(text);
            },
        }
        let ghost before = self.tabs@;
        let ghost room = self@;
        let mut i: usize = 0;
        while i < self.tabs.len()
            invariant
                i <= self.tabs@.len(),
                self.tabs@.len() == before.len(),
                room.tabs == slots(before),
                self@ == (Room { tabs: slots(self.tabs@), ..room }),
                forall|j: int|
                    0 <= j < i ==> (#[trigger] self.tabs@[j])@ == reconfigured(
                        slots(before)[j],
                        room.config,
                        room.config_error,
                    ),
                forall|j: int| i <= j < before.len() ==> #[trigger] self.tabs@[j] == before[j],
                forall|j: int|
                    0 <= j < before.len() ==> (#[trigger] self.tabs@[j]).state == before[j].state,
            decreases self.tabs@.len() - i,
        {
            self.tabs[i].ui.config = self.config.clone();
            self.tabs[i].ui.config_load_error = copy_option(&self.config_error);
            self.tabs[i].ui.refresh_profile();
            i += 1;
        }
        proof {
            let all = slots(before);
            assert(slots(self.tabs@) =~= all.map_values(
                |tab: Slot| reconfigured(tab, room.config, room.config_error),
            ));
            assert forall|j: int, k: int| 0 <= j < k < all.len() implies (#[trigger] slots(
                self.tabs@,
            )[j]).id < (#[trigger] slots(self.tabs@)[k]).id by {
                assert(all[j].id < all[k].id);
            }
            assert forall|j: int| 0 <= j < all.len() implies (#[trigger] slots(self.tabs@)[j]).id
                < self.next by {
                assert(all[j].id < self.next);
            }
        }
    }

    /// Reopen a saved tab on its form, if there is room for it.
    fn reopen(&mut self, tab: store::Tab, probe: Probe)
        requires
            old(self).wf(),
            old(self).next < u64::MAX,
        ensures
            final(self).wf(),
            final(self).next <= old(self).next + 1,
            final(self)@ == with_reopened(old(self)@, tab@, probe),
    {
        let ghost before = self@;
        let name = label(&tab);
        if self.new_tab(probe).is_ok() {
            let ghost opened = self.tabs@;
            let index = self.tabs.len() - 1;
            self.tabs[index].label = name;
            self.tabs[index].ui.restore(tab);
            proof {
                let more = with_new(before, probe);
                let slot = reopened_slot(before, tab@, probe);
                let all = slots(self.tabs@);
                assert(slots(opened) == more.tabs);
                assert(slots(opened)[index as int] == new_slot(before, probe));
                assert(self.tabs@[index as int]@ == slot);
                assert(all =~= more.tabs.drop_last().push(slot));
                assert forall|j: int, k: int| 0 <= j < k < all.len() implies (
                #[trigger] all[j]).id < (#[trigger] all[k]).id by {
                    assert(slots(opened)[j].id < slots(opened)[k].id);
                }
                assert forall|j: int| 0 <= j < all.len() implies (#[trigger] all[j]).id
                    < self.next by {
                    assert(slots(opened)[j].id < self.next);
                }
            }
        }
    }

    /// Reopen saved tabs on their forms. None of them connects.
    pub fn restore(&mut self, saved: store::Workspace, probe: Probe)
        requires
            old(self).wf(),
            old(self).next + saved.tabs@.len() <= u64::MAX,
        ensures
            final(self).wf(),
            final(self)@ == resumed(old(self)@, saved@, probe),
    {
        let ghost all = tab_facts(saved.tabs@);
        let ghost room = self@;
        let mut left = saved.tabs;
        let ghost mut done: int = 0;
        proof {
            assert(all.take(0) =~= Seq::<TabFacts>::empty());
            assert(left@ =~= saved.tabs@.skip(0));
        }
        while left.len() > 0
            invariant
                self.wf(),
                0 <= done <= all.len(),
                all == tab_facts(saved.tabs@),
                left@ == saved.tabs@.skip(done),
                self.next + left@.len() <= u64::MAX,
                self@ == with_saved(room, all.take(done), probe),
            decreases left@.len(),
        {
            let tab = left.remove(0);
            proof {
                assert(all.take(done + 1).drop_last() =~= all.take(done));
                assert(all[done] == tab@);
                assert(left@ =~= saved.tabs@.skip(done + 1));
            }
            self.reopen(tab, probe);
            proof {
                done = done + 1;
            }
        }
        proof {
            assert(all.take(done) =~= all);
        }
        self.active = if saved.active < self.tabs.len() {
            saved.active
        } else if self.tabs.len() == 0 {
            0
        } else {
            self.tabs.len() - 1
        };
        self.restore_tabs = saved.restore_tabs;
        self.fps = store::clamp_fps(saved.fps);
        self.idle = saved.idle;
        self.open_secs = saved.open_secs;
    }

    /// What the user chose for saved tabs that cannot be read; whether to go on.
    /// A file that was not cleared is not written over either.
    pub fn unreadable(&mut self, answer: BrokenStore) -> (r: bool)
        requires
            old(self).wf(),
        ensures
            final(self).wf(),
            r == (answer == BrokenStore::Clear),
            final(self)@ == match answer {
                BrokenStore::Exit => Room { store: None, ..old(self)@ },
                BrokenStore::Clear => old(self)@,
            },
    {
        match answer {
            BrokenStore::Exit => {
                self.store = None;
                false
            },
            BrokenStore::Clear => true,
        }
    }

    /// What is saved.
    pub fn saved(&self) -> (r: store::Workspace)
        requires
            self.wf(),
        ensures
            r@ == saved_room(self@),
    {
        let ghost all = slots(self.tabs@);
        let mut tabs: Vec<store::Tab> = Vec::new();
        let mut i: usize = 0;
        proof {
            assert(tab_facts(tabs@) =~= saved_tabs(all.take(0)));
        }
        while i < self.tabs.len()
            invariant
                i <= self.tabs.len(),
                all == slots(self.tabs@),
                tab_facts(tabs@) == saved_tabs(all.take(i as int)),
            decreases self.tabs.len() - i,
        {
            let ghost before = tabs@;
            let tab = self.tabs[i].ui.saved();
            tabs.push(tab);
            proof {
                assert(tab_facts(tabs@) =~= tab_facts(before).push(tab@));
                assert(saved_tabs(all.take(i + 1)) =~= saved_tabs(all.take(i as int)).push(tab@));
            }
            i += 1;
        }
        proof {
            assert(all.take(i as int) =~= all);
        }
        store::Workspace {
            tabs,
            active: self.active,
            restore_tabs: self.restore_tabs,
            fps: store::clamp_fps(self.fps),
            idle: self.idle,
            open_secs: self.open_secs,
        }
    }

    /// The tabs could not be saved. That is said once, and saving ends.
    pub fn save_failed(&mut self, error: &str)
        requires
            old(self).wf(),
        ensures
            final(self).wf(),
            final(self)@ == (Room {
                notice: Some("Could not save tabs: "@ + error@),
                store: None,
                ..old(self)@
            }),
    {
        let mut text = "Could not save tabs: ".to_owned();
        text.append(error);
        self.notice = Some(text);
        self.store = None;
    }

    /// How long a frame of live output lasts, to the nearest nanosecond.
    pub fn repaint_interval(&self) -> (r: u64)
        ensures
            ({
                let fps = store::fps_in_effect(self.fps as nat);
                r == (2_000_000_000 + fps) / (2 * fps)
            }),
    {
        let fps: u64 = store::clamp_fps(self.fps) as u64;
        (2_000_000_000 + fps) / (2 * fps)
    }


    pub fn set_fps(&mut self, fps: u32)
        requires
            old(self).wf(),
        ensures
            final(self).wf(),
            final(self)@ == (Room { fps: fps_in_effect(fps as nat), ..old(self)@ }),
    {
        self.fps = store::clamp_fps(fps);
    }

    fn select(&mut self, id: u64) -> (r: bool)
        requires
            old(self).wf(),
        ensures
            final(self).wf(),
            final(self)@ == switched(old(self)@, id as nat),
            r == (place_of(old(self)@.tabs, id as nat) >= 0),
    {
        match find_tab(&self.tabs, id) {
            Some(index) => {
                self.cancel_transient();
                self.active = index;
                true
            },
            None => false,
        }
    }

    fn close(&mut self, id: u64, probe: Probe) -> (r: bool)
        requires
            old(self).wf(),
            old(self).next < u64::MAX,
        ensures
            final(self).wf(),
            final(self)@ == without(old(self)@, id as nat, probe),
            r == (place_of(old(self)@.tabs, id as nat) >= 0),
    {
        match find_tab(&self.tabs, id) {
            Some(index) => {
                self.cancel_transient();
                let ghost before = self.tabs@;
                let tab = self.tabs.remove(index);
                proof {
                    let all = slots(before);
                    assert(slots(self.tabs@) =~= all.remove(index as int));
                    assert forall|j: int, k: int| 0 <= j < k < self.tabs@.len() implies (
                    #[trigger] slots(self.tabs@)[j]).id < (#[trigger] slots(self.tabs@)[k]).id by {
                        let a = if j < index {
                            j
                        } else {
                            j + 1
                        };
                        let b = if k < index {
                            k
                        } else {
                            k + 1
                        };
                        assert(all[a].id < all[b].id);
                    }
                    assert forall|j: int| 0 <= j < self.tabs@.len() implies (#[trigger] slots(
                        self.tabs@,
                    )[j]).id < self.next by {
                        let a = if j < index {
                            j
                        } else {
                            j + 1
                        };
                        assert(all[a].id < self.next);
                    }
                }
                if index < self.active {
                    self.active = self.active - 1;
                }
                if self.active >= self.tabs.len() {
                    self.active = if self.tabs.len() == 0 {
                        0
                    } else {
                        self.tabs.len() - 1
                    };
                }
                if self.tabs.len() == 0 {
                    let opened = self.new_tab(probe);
                }
                true
            },
            None => false,
        }
    }

    /// End the tabs. Saving comes before.
    pub fn clear(&mut self)
        requires
            old(self).wf(),
        ensures
            final(self).wf(),
            final(self)@ == (Room { tabs: seq![], active: 0, ..old(self)@ }),
    {
        self.tabs = Vec::new();
        self.active = 0;
        proof {
            assert(slots(self.tabs@) =~= Seq::<Slot>::empty());
        }
    }
}

pub proof fn calmed_is_numbered(tabs: Seq<Slot>, next: nat)
    requires
        numbered(tabs, next),
    ensures
        numbered(calmed(tabs), next),
{
    let all = calmed(tabs);
    assert forall|i: int, j: int| 0 <= i < j < all.len() implies (#[trigger] all[i]).id < (
    #[trigger] all[j]).id by {
        assert(tabs[i].id < tabs[j].id);
    }
    assert forall|i: int| 0 <= i < all.len() implies (#[trigger] all[i]).id < next by {
        assert(tabs[i].id < next);
    }
}

/// Send the actions of a frame, all of them or none.
fn run_frame(tab: &mut Tab, steps: Vec<Step>, clips: &Vec<Option<String>>)
    requires
        old(tab).state.wf(),
    ensures
        final(tab).state.wf(),
        final(tab)@ == slot_after(old(tab)@, ui::Action::Frame(steps), clip_texts(clips@)),
{
    let ghost all = wishes(steps@);
    let ghost texts = clip_texts(clips@);
    let ghost start = tab@;
    let count = steps.len();
    let mut left = steps;
    let mut batch: Vec<(Target, Input)> = Vec::new();
    let mut asked: usize = 0;
    let ghost mut done: int = 0;
    proof {
        assert(all.take(0) =~= Seq::<Wish>::empty());
        assert(left@ =~= steps@.skip(0));
        assert(batch_of(batch@) =~= Seq::<(Target, Act)>::empty());
    }
    while left.len() > 0
        invariant
            0 <= done <= all.len(),
            all == wishes(steps@),
            texts == clip_texts(clips@),
            left@ == steps@.skip(done),
            asked == requests(all.take(done)),
            asked <= done,
            all.len() == count,
            tab.state.wf(),
            tab@ == (Slot {
                front: resolved_steps(start.front, start.desk, all.take(done), texts).0,
                ..start
            }),
            batch_of(batch@) == resolved_steps(start.front, start.desk, all.take(done), texts).1,
        decreases left@.len(),
    {
        let step = left.remove(0);
        proof {
            assert(all.take(done + 1).drop_last() =~= all.take(done));
            assert(all[done] == step@);
            assert(left@ =~= steps@.skip(done + 1));
        }
        match step {
            Step::Send(target, action) => {
                push_pair(&mut batch, target, action);
            },
            Step::RequestPaste(target) => {
                if asked < clips.len() {
                    proof {
                        assert(texts[asked as int] == opt_text(clips@[asked as int]));
                    }
                    if let Some(text) = &clips[asked] {
                        if let Some(action) = tab.ui.clipboard_paste(
                            &tab.state,
                            target,
                            text.as_str(),
                        ) {
                            push_pair(&mut batch, target, action);
                        }
                    }
                }
                asked += 1;
            },
        }
        proof {
            done = done + 1;
        }
    }
    proof {
        assert(all.take(done) =~= all);
        assert(batch_of(batch@).len() == batch@.len());
    }
    if batch.len() > 0 {
        match tab.state.submit_batch(batch) {
            Ok(()) => {},
            Err(error) => {
                tab.state.error = Some(error.message().to_owned());
            },
        }
    }
}

/// Perform an action of a tab; whether the tabs are saved, and what is left.
fn run_tab(tab: &mut Tab, action: ui::Action, clips: &Vec<Option<String>>) -> (r: (bool, Effect))
    requires
        old(tab).state.wf(),
        old(tab).state.epoch < u64::MAX,
    ensures
        final(tab).state.wf(),
        final(tab)@ == slot_after(old(tab)@, action, clip_texts(clips@)),
        r.0 == (action matches ui::Action::Connect(c) && connect_error(c) is None),
        r.1 == match action {
            ui::Action::ListSessions(c) => Effect::ListSessions(old(tab).id, c),
            ui::Action::CreateSession(c) => Effect::CreateSession(old(tab).id, c),
            ui::Action::ReloadConfig => Effect::ReloadConfig,
            _ => Effect::Idle,
        },
{
    match action {
        ui::Action::Idle => (false, Effect::Idle),
        ui::Action::Connect(connection) => {
            let mut label = tab.ui.form.destination();
            label.append(" / ");
            label.append(connection.session.as_str());
            match tab.state.connect(connection) {
                Ok(()) => {
                    tab.label = label;
                    tab.ui.reset_client_size();
                    (true, Effect::Idle)
                },
                Err(error) => {
                    tab.state.error = Some(error.message());
                    (false, Effect::Idle)
                },
            }
        },
        ui::Action::ListSessions(connection) => (false, Effect::ListSessions(tab.id, connection)),
        ui::Action::CreateSession(connection) => (false, Effect::CreateSession(tab.id, connection)),
        ui::Action::Disconnect => {
            tab.state.disconnect();
            (false, Effect::Idle)
        },
        ui::Action::Frame(steps) => {
            run_frame(tab, steps, clips);
            (false, Effect::Idle)
        },
        ui::Action::ReloadConfig => (false, Effect::ReloadConfig),
    }
}

impl Workspace {
    fn apply_tab(&mut self, id: u64, action: ui::Action, clips: &Vec<Option<String>>) -> (r: (
        bool,
        Effect,
    ))
        requires
            old(self).wf(),
            forall|i: int|
                0 <= i < old(self).tabs@.len() ==> (#[trigger] old(self).tabs@[i]).state.epoch
                    < u64::MAX,
        ensures
            final(self).wf(),
            final(self)@ == room_after(
                old(self)@,
                Action::Tab(id, action),
                clip_texts(clips@),
                Probe { agent: false, now: 0 },
            ),
            r.0 == persists(old(self)@, Action::Tab(id, action)),
            r.1 == effect_of(old(self)@, Action::Tab(id, action)),
    {
        let active = self.active;
        if active >= self.tabs.len() || self.tabs[active].id != id {
            return (false, Effect::Idle);
        }
        let ghost before = self.tabs@;
        let r = run_tab(&mut self.tabs[active], action, clips);
        proof {
            let all = slots(before);
            let now = slots(self.tabs@);
            assert(now =~= all.update(active as int, self.tabs@[active as int]@));
            assert(all[active as int].id == before[active as int].id);
            assert forall|j: int, k: int| 0 <= j < k < now.len() implies (#[trigger] now[j]).id < (
            #[trigger] now[k]).id by {
                assert(all[j].id < all[k].id);
            }
            assert forall|j: int| 0 <= j < now.len() implies (#[trigger] now[j]).id
                < self.next by {
                assert(all[j].id < self.next);
            }
        }
        r
    }

    /// Apply what a frame came to, once. `clips` holds what the clipboard gave to
    /// each request for it, in order.
    pub fn apply(&mut self, action: Action, clips: &Vec<Option<String>>, probe: Probe) -> (r:
        Outcome)
        requires
            old(self).wf(),
            old(self).next < u64::MAX,
            forall|i: int|
                0 <= i < old(self).tabs@.len() ==> (#[trigger] old(self).tabs@[i]).state.epoch
                    < u64::MAX,
        ensures
            final(self).wf(),
            final(self)@ == room_after(old(self)@, action, clip_texts(clips@), probe),
            r.wake == wakes(action),
            r.persist == persists(old(self)@, action),
            r.effect == effect_of(old(self)@, action),
    {
        match action {
            Action::Idle => Outcome { wake: false, persist: false, effect: Effect::Idle },
            Action::New => match self.new_tab(probe) {
                Ok(()) => Outcome { wake: true, persist: true, effect: Effect::Idle },
                Err(()) => {
                    self.notice = Some("at most 16 connection tabs may be open".to_owned());
                    Outcome { wake: true, persist: false, effect: Effect::Idle }
                },
            },
            Action::Select(id) => {
                let persist = self.select(id);
                Outcome { wake: true, persist, effect: Effect::Idle }
            },
            Action::Close(id) => {
                let persist = self.close(id, probe);
                Outcome {
                    wake: true,
                    persist,
                    effect: if persist {
                        Effect::Closed(id)
                    } else {
                        Effect::Idle
                    },
                }
            },
            Action::Tab(id, action) => {
                let wake = match &action {
                    ui::Action::Idle => false,
                    _ => true,
                };
                let (persist, effect) = self.apply_tab(id, action, clips);
                Outcome { wake, persist, effect }
            },
        }
    }

    /// What a frame navigates to, in place of what the tab asks for: the keyboard
    /// and the clipboard events that were meant for the old tab reach no other.
    pub fn navigate(&self, navigation: Action, action: ui::Action) -> (r: Action)
        requires
            self.wf(),
        ensures
            r == if !(navigation is Idle) {
                navigation
            } else if self@.tabs.len() == 0 {
                Action::New
            } else {
                Action::Tab(self.tabs@[self.active as int].id, action)
            },
    {
        match navigation {
            Action::Idle => {
                if self.tabs.len() == 0 {
                    Action::New
                } else {
                    Action::Tab(self.tabs[self.active].id, action)
                }
            },
            other => other,
        }
    }
}

/// What a workspace keeps once it has a tab: there are between one and sixteen,
/// one of them is shown, and each has a number of its own below the next one.
pub open spec fn housed(room: Room) -> bool {
    &&& 1 <= room.tabs.len() <= MAX_TABS
    &&& room.active < room.tabs.len()
    &&& numbered(room.tabs, room.next)
}

/// An action, with the clipboard and the machine as they are then.
pub struct Deed {
    pub action: Action,
    pub clips: Seq<Option<Seq<char>>>,
    pub probe: Probe,
}

/// A workspace after several actions.
pub open spec fn room_after_all(room: Room, acts: Seq<Deed>) -> Room
    decreases acts.len(),
{
    if acts.len() == 0 {
        room
    } else {
        let act = acts.last();
        room_after(room_after_all(room, acts.drop_last()), act.action, act.clips, act.probe)
    }
}

/// A tab that is opened in a workspace with room for it, be it the first one, leaves it
/// housed.
pub proof fn opening_houses(room: Room, probe: Probe)
    requires
        room.tabs.len() < MAX_TABS,
        numbered(room.tabs, room.next),
    ensures
        housed(with_new(room, probe)),
{
    calmed_is_numbered(room.tabs, room.next);
    let before = calmed(room.tabs);
    let all = with_new(room, probe).tabs;
    assert forall|i: int| 0 <= i < all.len() implies (#[trigger] all[i]).id < room.next + 1 by {
        if i < before.len() {
            assert(before[i].id < room.next);
        }
    }
    assert forall|i: int, j: int| 0 <= i < j < all.len() implies (#[trigger] all[i]).id < (
    #[trigger] all[j]).id by {
        assert(before[i].id < room.next);
        if j < before.len() {
            assert(before[i].id < before[j].id);
        }
    }
}

/// Every action leaves the workspace housed, and the numbers go up: one that was
/// given is not given again.
pub proof fn tabs_stay_housed(
    room: Room,
    action: Action,
    clips: Seq<Option<Seq<char>>>,
    probe: Probe,
)
    requires
        housed(room),
    ensures
        housed(room_after(room, action, clips, probe)),
        room_after(room, action, clips, probe).next >= room.next,
{
    match action {
        Action::Idle => {},
        Action::New => {
            if room.tabs.len() < MAX_TABS {
                opening_houses(room, probe);
            }
        },
        Action::Select(id) => {
            place_facts(room.tabs, id as nat);
            calmed_is_numbered(room.tabs, room.next);
        },
        Action::Close(id) => {
            place_facts(room.tabs, id as nat);
            let at = place_of(room.tabs, id as nat);
            if at >= 0 {
                calmed_is_numbered(room.tabs, room.next);
                let before = calmed(room.tabs);
                let left = before.remove(at);
                assert forall|i: int| 0 <= i < left.len() implies (#[trigger] left[i]).id
                    < room.next by {
                    assert(left[i] == before[if i < at {
                        i
                    } else {
                        i + 1
                    }]);
                }
                assert forall|i: int, j: int| 0 <= i < j < left.len() implies (#[trigger] left[i]).id
                    < (#[trigger] left[j]).id by {
                    assert(left[i] == before[if i < at {
                        i
                    } else {
                        i + 1
                    }]);
                    assert(left[j] == before[if j < at {
                        j
                    } else {
                        j + 1
                    }]);
                }
                if left.len() == 0 {
                    opening_houses(Room { tabs: left, active: 0, ..room }, probe);
                }
            }
        },
        Action::Tab(id, action) => {
            if concerns(room, id as nat) {
                let all = room_after(room, Action::Tab(id, action), clips, probe).tabs;
                assert forall|i: int| 0 <= i < all.len() implies (#[trigger] all[i]).id
                    == room.tabs[i].id by {}
                assert forall|i: int, j: int| 0 <= i < j < all.len() implies (
                #[trigger] all[i]).id < (#[trigger] all[j]).id by {
                    assert(room.tabs[i].id < room.tabs[j].id);
                }
                assert forall|i: int| 0 <= i < all.len() implies (#[trigger] all[i]).id
                    < room.next by {
                    assert(room.tabs[i].id < room.next);
                }
            }
        },
    }
}

/// The tab with a number after an action is the one that had it before, and the
/// epoch of its connection is no lower; a number that no tab had is a new one.
pub proof fn a_tab_is_the_same_behind_an_action(
    room: Room,
    action: Action,
    clips: Seq<Option<Seq<char>>>,
    probe: Probe,
    i: int,
)
    requires
        housed(room),
        0 <= i < room_after(room, action, clips, probe).tabs.len(),
    ensures
        ({
            let tab = room_after(room, action, clips, probe).tabs[i];
            let j = place_of(room.tabs, tab.id);
            if j >= 0 {
                tab.desk.epoch >= room.tabs[j].desk.epoch
            } else {
                tab.id >= room.next
            }
        }),
{
    let tab = room_after(room, action, clips, probe).tabs[i];
    place_facts(room.tabs, tab.id);
    let j = place_of(room.tabs, tab.id);
    let source = match action {
        Action::Close(id) => {
            place_facts(room.tabs, id as nat);
            let at = place_of(room.tabs, id as nat);
            if at >= 0 && i >= at {
                i + 1
            } else {
                i
            }
        },
        Action::Select(id) => {
            place_facts(room.tabs, id as nat);
            i
        },
        _ => i,
    };
    if 0 <= source < room.tabs.len() {
        assert(room.tabs[source].id == tab.id);
        if j < source {
            assert(room.tabs[j].id < room.tabs[source].id);
        } else if source < j {
            assert(room.tabs[source].id < room.tabs[j].id);
        }
    } else if j >= 0 {
        assert(room.tabs[j].id < room.next);
    }
}

/// Whatever is done to a workspace, it stays housed, the number of a tab that was
/// closed is never given to another one, and the connection of a tab that stays
/// never returns to an earlier epoch.
pub proof fn numbers_and_epochs_only_grow(room: Room, acts: Seq<Deed>, id: nat)
    requires
        housed(room),
        id < room.next,
    ensures
        housed(room_after_all(room, acts)),
        room_after_all(room, acts).next >= room.next,
        ({
            let before = place_of(room.tabs, id);
            let after = place_of(room_after_all(room, acts).tabs, id);
            after >= 0 ==> before >= 0 && room_after_all(room, acts).tabs[after].desk.epoch
                >= room.tabs[before].desk.epoch
        }),
    decreases acts.len(),
{
    if acts.len() > 0 {
        let act = acts.last();
        let middle = room_after_all(room, acts.drop_last());
        numbers_and_epochs_only_grow(room, acts.drop_last(), id);
        tabs_stay_housed(middle, act.action, act.clips, act.probe);
        let last = room_after_all(room, acts);
        place_facts(last.tabs, id);
        let after = place_of(last.tabs, id);
        if after >= 0 {
            a_tab_is_the_same_behind_an_action(middle, act.action, act.clips, act.probe, after);
        }
    }
}

/// A tab that is not there is neither shown nor closed: nothing changes, nothing
/// is saved and no worker ends.
pub proof fn unknown_tabs_change_nothing(
    room: Room,
    id: u64,
    clips: Seq<Option<Seq<char>>>,
    probe: Probe,
)
    requires
        forall|i: int| 0 <= i < room.tabs.len() ==> (#[trigger] room.tabs[i]).id != id,
    ensures
        room_after(room, Action::Select(id), clips, probe) == room,
        room_after(room, Action::Close(id), clips, probe) == room,
        !persists(room, Action::Select(id)),
        !persists(room, Action::Close(id)),
        effect_of(room, Action::Close(id)) is Idle,
{
    place_facts(room.tabs, id as nat);
}

/// An idle action changes nothing and draws nothing.
pub proof fn idle_actions_change_nothing(
    room: Room,
    id: u64,
    clips: Seq<Option<Seq<char>>>,
    probe: Probe,
)
    ensures
        room_after(room, Action::Idle, clips, probe) == room,
        room_after(room, Action::Tab(id, ui::Action::Idle), clips, probe) == room,
        !wakes(Action::Idle),
        !wakes(Action::Tab(id, ui::Action::Idle)),
        effect_of(room, Action::Idle) is Idle,
        effect_of(room, Action::Tab(id, ui::Action::Idle)) is Idle,
{
    if concerns(room, id as nat) {
        assert(room.tabs.update(room.active as int, room.tabs[room.active as int]) =~= room.tabs);
    }
}

/// Every action, in every workspace, leaves between one tab and the greatest number of
/// them, one of which is shown. No two tabs have the same number, and the number of a
/// tab that was not there before was never given. A tab that is not there cannot be
/// shown or closed, and an idle action changes nothing and draws nothing.
pub proof fn every_action_keeps_the_tabs(
    room: Room,
    action: Action,
    clips: Seq<Option<Seq<char>>>,
    probe: Probe,
)
    requires
        housed(room),
    ensures
        ({
            let next = room_after(room, action, clips, probe);
            &&& 1 <= next.tabs.len() <= MAX_TABS
            &&& next.active < next.tabs.len()
            &&& forall|i: int, j: int|
                0 <= i < next.tabs.len() && 0 <= j < next.tabs.len() && i != j ==> (
                #[trigger] next.tabs[i]).id != (#[trigger] next.tabs[j]).id
            &&& forall|i: int|
                0 <= i < next.tabs.len() ==> place_of(room.tabs, (#[trigger] next.tabs[i]).id) >= 0
                    || next.tabs[i].id >= room.next
            &&& action matches Action::Select(id) ==> place_of(room.tabs, id as nat) < 0 ==> next
                == room
            &&& action matches Action::Close(id) ==> place_of(room.tabs, id as nat) < 0 ==> next
                == room
            &&& action is Idle ==> next == room && !wakes(action)
            &&& action matches Action::Tab(_, ui::Action::Idle) ==> next == room && !wakes(action)
        }),
{
    let next = room_after(room, action, clips, probe);
    tabs_stay_housed(room, action, clips, probe);
    assert forall|i: int| 0 <= i < next.tabs.len() implies place_of(
        room.tabs,
        (#[trigger] next.tabs[i]).id,
    ) >= 0 || next.tabs[i].id >= room.next by {
        a_tab_is_the_same_behind_an_action(room, action, clips, probe, i);
    }
    if let Action::Select(id) = action {
        place_facts(room.tabs, id as nat);
        if place_of(room.tabs, id as nat) < 0 {
            unknown_tabs_change_nothing(room, id, clips, probe);
        }
    }
    if let Action::Close(id) = action {
        place_facts(room.tabs, id as nat);
        if place_of(room.tabs, id as nat) < 0 {
            unknown_tabs_change_nothing(room, id, clips, probe);
        }
    }
    if action is Idle {
        idle_actions_change_nothing(room, 0, clips, probe);
    }
    if let Action::Tab(id, ui::Action::Idle) = action {
        idle_actions_change_nothing(room, id, clips, probe);
    }
}

/// Opening a tab leaves the connections of all others as they are.
pub proof fn a_new_tab_touches_no_other(room: Room, probe: Probe, i: int)
    requires
        0 <= i < room.tabs.len(),
    ensures
        with_new(room, probe).tabs[i].desk == room.tabs[i].desk,
        with_new(room, probe).tabs[i].id == room.tabs[i].id,
        with_new(room, probe).tabs[i].label == room.tabs[i].label,
{
}

/// Closing a tab leaves every other tab, in its place among the rest, with its
/// connection.
pub proof fn closing_touches_no_other(room: Room, id: nat, probe: Probe, i: int)
    requires
        0 <= i < room.tabs.len(),
        i != place_of(room.tabs, id),
        place_of(room.tabs, id) >= 0,
    ensures
        ({
            let j = if i < place_of(room.tabs, id) {
                i
            } else {
                i - 1
            };
            &&& without(room, id, probe).tabs[j].desk == room.tabs[i].desk
            &&& without(room, id, probe).tabs[j].id == room.tabs[i].id
        }),
{
    place_facts(room.tabs, id);
}

/// An action of a tab that is not shown changes nothing.
pub proof fn stale_actions_change_nothing(
    room: Room,
    id: u64,
    action: ui::Action,
    clips: Seq<Option<Seq<char>>>,
    probe: Probe,
)
    requires
        !concerns(room, id as nat),
    ensures
        room_after(room, Action::Tab(id, action), clips, probe) == room,
        effect_of(room, Action::Tab(id, action)) is Idle,
{
}

/// A workspace that was saved and resumed has the same tabs: each reopens on its
/// form, with what was saved of it, and none of them is connected.
pub proof fn saved_tabs_reopen_unconnected(room: Room, saved: Saved, probe: Probe, i: int)
    requires
        room.tabs.len() == 0,
        saved.tabs.len() <= MAX_TABS,
        0 <= i < saved.tabs.len(),
    ensures
        resumed(room, saved, probe).tabs.len() == saved.tabs.len(),
        resumed(room, saved, probe).tabs[i].desk == blank(),
        resumed(room, saved, probe).tabs[i].label == tab_label(saved.tabs[i]),
        resumed(room, saved, probe).tabs[i].front.screen == ui::Screen::Connection,
        !resumed(room, saved, probe).tabs[i].front.auto_list,
        resumed(room, saved, probe).tabs[i].front.form.session == saved.tabs[i].session,
        resumed(room, saved, probe).tabs[i].front.form.host == saved.tabs[i].host,
{
    reopened_tabs(room, saved.tabs, probe);
    reveal(reopens);
    assert(reopens(with_saved(room, saved.tabs, probe).tabs[i], saved.tabs[i]));
}

/// A tab that shows the connection form of a saved one and nothing else.
#[verifier::opaque]
spec fn reopens(slot: Slot, tab: TabFacts) -> bool {
    &&& slot.desk == blank()
    &&& slot.label == tab_label(tab)
    &&& slot.front.screen == ui::Screen::Connection
    &&& !slot.front.auto_list
    &&& slot.front.form.session == tab.session
    &&& slot.front.form.host == tab.host
}

proof fn reopened_slot_reopens(room: Room, tab: TabFacts, probe: Probe)
    ensures
        reopens(reopened_slot(room, tab, probe), tab),
{
    reveal(reopens);
}

proof fn reopened_comes_last(room: Room, tab: TabFacts, probe: Probe)
    requires
        room.tabs.len() < MAX_TABS,
    ensures
        with_reopened(room, tab, probe).tabs == calmed(room.tabs).push(
            reopened_slot(room, tab, probe),
        ),
{
    assert(with_new(room, probe).tabs.drop_last() =~= calmed(room.tabs));
}

/// A tab that let go of a pending request shows the same form.
proof fn calmed_tabs_reopen(tabs: Seq<Slot>, i: int, tab: TabFacts)
    requires
        0 <= i < tabs.len(),
        reopens(tabs[i], tab),
    ensures
        reopens(calmed(tabs)[i], tab),
{
    reveal(reopens);
}

proof fn reopened_tabs(room: Room, tabs: Seq<TabFacts>, probe: Probe)
    requires
        room.tabs.len() == 0,
        tabs.len() <= MAX_TABS,
    ensures
        with_saved(room, tabs, probe).tabs.len() == tabs.len(),
        forall|i: int|
            0 <= i < tabs.len() ==> reopens(
                #[trigger] with_saved(room, tabs, probe).tabs[i],
                tabs[i],
            ),
    decreases tabs.len(),
{
    if tabs.len() > 0 {
        let front = tabs.drop_last();
        let before = with_saved(room, front, probe);
        let after = with_saved(room, tabs, probe);
        reopened_tabs(room, front, probe);
        reopened_comes_last(before, tabs.last(), probe);
        assert(after.tabs == calmed(before.tabs).push(reopened_slot(before, tabs.last(), probe)));
        assert forall|i: int| 0 <= i < tabs.len() implies reopens(
            #[trigger] after.tabs[i],
            tabs[i],
        ) by {
            if i < front.len() {
                assert(front[i] == tabs[i]);
                assert(reopens(before.tabs[i], front[i]));
                calmed_tabs_reopen(before.tabs, i, tabs[i]);
                assert(after.tabs[i] == calmed(before.tabs)[i]);
            } else {
                reopened_slot_reopens(before, tabs.last(), probe);
            }
        }
    }
}

} // verus!
