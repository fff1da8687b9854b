//! A connection tab as the user sees it: the connection form and the panes, and
//! what a frame's events do to them. Drawing happens elsewhere.
use std::sync::Arc;

use vstd::prelude::*;
use vstd::slice::slice_subrange;
use vstd::string::*;

use crate::desktop::{self, current, Connection, Desk, Phase, Target};
use crate::form::{self, asks_for, profiled, ready, refusal, routed, Fields, Form, Local, Routing};
use crate::input::{acts_of, valid_paste, Act, Action as Input, Paste};
use crate::layout::{layout_or_zoom, leaves, rect_of, rects, Node, PaneRect};
use crate::paint;
use crate::snapshot;
use crate::ssh_config::{
    self, opt_text, profile_view, profile_views, resolved, Config, Profile, Resolved,
};
use crate::store::{Tab, TabFacts};
use crate::terminal::{all_readable, row_string, shown_row, shown_rows_end_in_text};
use crate::text::{
    byte_len, chars_of, decimal, lines, pieces, push_decimal, rows, same_str, separated,
    separated_grows, separated_reads_back, split_lines, string_of, texts, trim_both, trimmed,
    utf8_len,
};
use crate::tmux::{PaneId, WindowId};
use crate::values::{valid_size, Size};

verus! {

/// The most host aliases that are offered.
pub const MAX_ALIASES: usize = 32;

/// How long the size of the window must stay the same before it is reported.
pub const STABLE_MILLIS: u64 = 200;

/// How often the agent is looked for.
pub const PROBE_MILLIS: u64 = 1000;

/// How much of a text is shown before it is pasted.
pub const PREVIEW_CHARS: usize = 320;

pub const SMALLEST_TEXT: u32 = 10;

pub const LARGEST_TEXT: u32 = 28;

#[derive(Clone, Copy, Debug, PartialEq, Eq, Structural)]
pub enum Screen {
    Connection,
    Terminal,
}

/// A session that the host runs.
#[derive(Debug)]
pub struct Summary {
    pub name: String,
    pub windows: u32,
    pub attached: u32,
}

/// What asking the host for its sessions came to.
#[derive(Debug)]
pub enum Discovery {
    Running,
    Failed(String),
    Created(String),
    Sessions(Vec<Summary>),
}

/// How the connection ended, as far as the form needs to know.
#[derive(Clone, Copy, Debug, PartialEq, Eq, Structural)]
pub enum Failure {
    Detached,
    MissingSession,
    Other,
}

/// One terminal step, in the order in which the user produced it. The clipboard
/// is read later, so a request for it keeps its place among the steps.
#[derive(Debug)]
pub enum Step {
    Send(Target, Input),
    RequestPaste(Target),
}

/// What a step holds.
pub enum Wish {
    Send(Target, Act),
    RequestPaste(Target),
}

impl View for Step {
    type V = Wish;

    open spec fn view(&self) -> Wish {
        match *self {
            Step::Send(target, action) => Wish::Send(target, action@),
            Step::RequestPaste(target) => Wish::RequestPaste(target),
        }
    }
}

pub open spec fn wishes(steps: Seq<Step>) -> Seq<Wish> {
    steps.map_values(|step: Step| step@)
}

fn push_step(steps: &mut Vec<Step>, step: Step)
    ensures
        wishes(final(steps)@) == wishes(old(steps)@).push(step@),
{
    let ghost before = steps@;
    steps.push(step);
    proof {
        assert(wishes(steps@) =~= wishes(before).push(step@));
    }
}

#[derive(Debug)]
pub enum Action {
    Idle,
    Connect(Connection),
    /// Ask the host which sessions exist. This starts no tmux server.
    ListSessions(Connection),
    /// Create a session, which may start a server. Only ever from a button.
    CreateSession(Connection),
    Disconnect,
    /// Every terminal step of a frame, in order. Never a part of them.
    Frame(Vec<Step>),
    ReloadConfig,
}

/// A key event, as the terminal understands it.
#[derive(Debug)]
pub enum Event {
    Input(Vec<Input>),
    Copy,
    Paste(Paste),
    RequestPaste,
    /// Input that cannot be sent, with the reason.
    Refused(String),
}

/// The tab.
pub struct DesktopUi {
    pub form: Form,
    pub config: Arc<Config>,
    pub config_load_error: Option<String>,
    pub local: Local,
    pub screen: Screen,
    /// The destination that the profile in the form belongs to.
    pub profile_source: String,
    pub font_points: u32,
    /// The view that the layout was made from.
    pub generation: u64,
    pub window: Option<WindowId>,
    pub layout: Option<Node>,
    pub focused: Option<PaneId>,
    pub pending_paste: Option<(Target, Paste)>,
    pub notice: Option<String>,
    /// When the notice goes away by itself, in milliseconds.
    pub notice_until: Option<u64>,
    /// Hand the keyboard back to the pane when it is drawn again.
    pub restore_focus: bool,
    /// The name of a session that does not exist yet, apart from the selected
    /// one so that a listing does not overwrite it.
    pub create_name: String,
    pub agent_available: bool,
    pub agent_checked: u64,
    /// The destination whose sessions were asked for last. A restored tab holds
    /// its own here, so that opening a workspace authenticates nowhere.
    pub listed_destination: String,
    /// List the sessions as soon as the host can be asked.
    pub auto_list: bool,
    /// The size that tmux was told last.
    pub client_cells: Option<Size>,
    /// A size that was not told yet, and since when it is the same.
    pub pending_client_cells: Option<(Size, u64)>,
}

/// The contents of a tab.
pub struct Front {
    pub form: Fields,
    pub config: Config,
    pub config_error: Option<Seq<char>>,
    pub user: Seq<char>,
    pub home: Option<Seq<char>>,
    pub screen: Screen,
    pub source: Seq<char>,
    pub points: nat,
    pub generation: nat,
    pub window: Option<WindowId>,
    pub layout: Option<Node>,
    pub focused: Option<PaneId>,
    pub pending: Option<(Target, Seq<char>)>,
    pub notice: Option<Seq<char>>,
    pub notice_until: Option<u64>,
    pub restore_focus: bool,
    pub create_name: Seq<char>,
    pub agent: bool,
    pub agent_checked: nat,
    pub listed: Seq<char>,
    pub auto_list: bool,
    pub cells: Option<Size>,
    pub pending_cells: Option<(Size, u64)>,
}

pub open spec fn paste_of(pending: Option<(Target, Paste)>) -> Option<(Target, Seq<char>)> {
    match pending {
        Some((target, paste)) => Some((target, paste@)),
        None => None,
    }
}

impl View for DesktopUi {
    type V = Front;

    open spec fn view(&self) -> Front {
        Front {
            form: self.form@,
            config: *self.config,
            config_error: opt_text(self.config_load_error),
            user: self.local.user@,
            home: opt_text(self.local.home),
            screen: self.screen,
            source: self.profile_source@,
            points: self.font_points as nat,
            generation: self.generation as nat,
            window: self.window,
            layout: self.layout,
            focused: self.focused,
            pending: paste_of(self.pending_paste),
            notice: opt_text(self.notice),
            notice_until: self.notice_until,
            restore_focus: self.restore_focus,
            create_name: self.create_name@,
            agent: self.agent_available,
            agent_checked: self.agent_checked as nat,
            listed: self.listed_destination@,
            auto_list: self.auto_list,
            cells: self.client_cells,
            pending_cells: self.pending_client_cells,
        }
    }
}

/// A tab that was just opened.
pub open spec fn opened(
    config: Config,
    config_error: Option<Seq<char>>,
    user: Seq<char>,
    home: Option<Seq<char>>,
    agent: bool,
    now: nat,
) -> Front {
    Front {
        form: form::blank(user, form::known_hosts_in(home)),
        config,
        config_error,
        user,
        home,
        screen: Screen::Connection,
        source: seq![],
        points: 14,
        generation: u64::MAX as nat,
        window: None,
        layout: None,
        focused: None,
        pending: None,
        notice: None,
        notice_until: None,
        restore_focus: false,
        create_name: seq![],
        agent,
        agent_checked: now,
        listed: seq![],
        auto_list: false,
        cells: None,
        pending_cells: None,
    }
}

pub open spec fn destination_of(f: Fields) -> Seq<char> {
    trim_both(f.destination)
}

/// What a form takes of a resolved host.
pub open spec fn routing_in(p: Resolved) -> Routing {
    Routing {
        host: p.host,
        user: p.user,
        port: p.port,
        identities: p.identities,
        identities_only: p.identities_only,
        host_key_alias: p.host_key_alias,
        known_hosts: p.known_hosts,
        unsupported: p.unsupported,
        jumps: p.jumps.len(),
    }
}

proof fn profile_views_len(v: Seq<Profile>)
    ensures
        profile_views(v).len() == v.len(),
    decreases v.len(),
{
    if v.len() > 0 {
        profile_views_len(v.drop_last());
    }
}

proof fn routing_is_read(p: Profile)
    ensures
        form::routing_of(p) == routing_in(profile_view(p)),
{
    profile_views_len(p.jumps@);
}

/// A tab whose form was filled from the configuration.
pub open spec fn refreshed(f: Front) -> Front {
    let destination = destination_of(f.form);
    let clean = Fields { unsupported: seq![], profile_error: None, ..f.form };
    Front {
        source: destination,
        form: if destination.len() == 0 {
            Fields {
                host: seq![],
                identity_files: seq![],
                identities_only: false,
                host_key_alias: None,
                ..clean
            }
        } else {
            match resolved(f.config.spec_lines(), f.config.place(), destination) {
                Ok(profile) => profiled(clean, routing_in(profile), f.config.spec_defaults(), f.user),
                Err(error) => Fields {
                    host: destination,
                    profile_error: Some(ssh_config::error_text(error)),
                    ..clean
                },
            }
        },
        ..f
    }
}

/// A tab that a saved one was restored into. Restoring contacts no host: the
/// sessions count as listed, and only the policy of the configuration is read.
pub open spec fn reopened(f: Front, tab: TabFacts) -> Front {
    let form = form::restored(tab, f.user);
    let destination = destination_of(form);
    Front {
        source: destination,
        listed: destination,
        auto_list: false,
        screen: Screen::Connection,
        form: if destination.len() == 0 {
            form
        } else {
            match resolved(f.config.spec_lines(), f.config.place(), destination) {
                Ok(profile) => routed(form, routing_in(profile), f.config.spec_defaults()),
                Err(_) => form,
            }
        },
        ..f
    }
}

pub open spec fn at_terminal(f: Front) -> Front {
    Front { screen: Screen::Terminal, pending: None, ..f }
}

pub open spec fn at_form(f: Front) -> Front {
    Front { screen: Screen::Connection, pending: None, ..f }
}

/// What became of text from the clipboard. What is not sent is never dropped
/// without a notice.
pub open spec fn clipped(f: Front, d: Desk, target: Target, text: Seq<char>) -> (Front, Option<Act>) {
    if !current(d, target) {
        (Front { notice: Some("Paste target changed; nothing was sent."@), ..f }, None)
    } else if !valid_paste(text) {
        (Front { notice: Some(bad_paste_text()), ..f }, None)
    } else if multiline(text) {
        (Front { pending: Some((target, text)), ..f }, None)
    } else {
        (f, Some(Act::Paste(text)))
    }
}

pub open spec fn bad_paste_text() -> Seq<char> {
    "Clipboard text is empty or contains control characters; nothing was sent."@
}

pub open spec fn multiline(text: Seq<char>) -> bool {
    text.contains('\n') || text.contains('\r')
}

/// What is shown in a frame.
#[derive(Clone, Copy, Debug, PartialEq, Eq, Structural)]
pub enum Shown {
    Form,
    Panes,
    /// The session is gone: the tab disconnects and shows its form, as if the
    /// user had left it.
    Gone,
}

/// The panes replace the form once a view exists, not when a connection is asked
/// for, and only once for each view. A connection that failed before it had a
/// view has nothing to show there.
pub open spec fn turned(f: Front, d: Desk) -> Front {
    if d.view is Some && f.screen == Screen::Connection && f.generation != d.generation {
        at_terminal(f)
    } else if f.screen == Screen::Terminal && d.view is None && over(d.phase) {
        Front { screen: Screen::Connection, ..f }
    } else {
        f
    }
}

pub open spec fn over(phase: Phase) -> bool {
    phase == Phase::Failed || phase == Phase::Disconnected
}

pub open spec fn shown(f: Front, d: Desk, failure: Option<Failure>) -> (Front, Shown) {
    let filled = if f.source != destination_of(f.form) {
        refreshed(f)
    } else {
        f
    };
    let next = turned(filled, d);
    if next.screen == Screen::Connection {
        (next, Shown::Form)
    } else if (failure == Some(Failure::Detached) || failure == Some(Failure::MissingSession))
        && over(d.phase) {
        (at_form(next), Shown::Gone)
    } else {
        (next, Shown::Panes)
    }
}

/// What the buttons of the form go by, as it was when the frame began.
#[derive(Clone, Copy, Debug, PartialEq, Eq, Structural)]
pub struct Gates {
    /// No connection is up or on its way.
    pub idle: bool,
    /// The host is being asked for its sessions.
    pub busy: bool,
    pub host_ready: bool,
    /// The listing is one of this destination.
    pub listing_here: bool,
}

pub open spec fn idle(phase: Phase) -> bool {
    phase != Phase::Connecting && phase != Phase::Watching && phase != Phase::Resynchronizing
}

pub open spec fn gates_of(f: Front, d: Desk, discovery: Option<Discovery>) -> Gates {
    Gates {
        idle: idle(d.phase),
        busy: discovery matches Some(Discovery::Running),
        host_ready: ready(f.form),
        listing_here: f.listed == destination_of(f.form),
    }
}

pub open spec fn names_of(found: Seq<Summary>) -> Seq<Seq<char>> {
    found.map_values(|summary: Summary| summary.name@)
}

/// The session that a listing selects by itself: the one that was just created,
/// or the first where the selected one is not among them.
pub open spec fn preselected(f: Front, gates: Gates, discovery: Option<Discovery>) -> Option<
    Seq<char>,
> {
    if !gates.listing_here {
        None
    } else {
        match discovery {
            Some(Discovery::Created(name)) => Some(name@),
            Some(Discovery::Sessions(found)) => if found@.len() > 0 && !names_of(found@).contains(
                f.form.session,
            ) {
                Some(found@[0].name@)
            } else {
                None
            },
            _ => None,
        }
    }
}

/// Whether the sessions of the host are asked for when a frame ends.
pub open spec fn lists(f: Front, d: Desk, discovery: Option<Discovery>) -> bool {
    f.auto_list && destination_of(f.form).len() > 0 && destination_of(f.form) != f.listed && ready(
        f.form,
    ) && idle(d.phase) && !(discovery matches Some(Discovery::Running))
}

/// The tab with the session that a frame selected.
pub open spec fn selecting(f: Front, chosen: Option<Seq<char>>) -> Front {
    match chosen {
        Some(name) => Front { form: Fields { session: name, ..f.form }, ..f },
        None => f,
    }
}

/// A request for a connection to a session, from a form: what it asks for, or a
/// notice that says why it does not.
pub open spec fn requested(
    before: Front,
    after: Front,
    session: Seq<char>,
    r: Option<Connection>,
) -> bool {
    match r {
        Some(c) => {
            &&& refusal(before.form, session, before.user, before.home) is None
            &&& asks_for(before.form, session, before.user, before.home, c)
            &&& after == (Front { notice: None, ..before })
        },
        None => match refusal(before.form, session, before.user, before.home) {
            Some(why) => after == (Front { notice: Some(form::refusal_text(why)), ..before }),
            None => false,
        },
    }
}

/// The windows among panes.
pub open spec fn has_window(panes: Seq<snapshot::Pane>, id: WindowId) -> bool {
    exists|i: int| 0 <= i < panes.len() && (#[trigger] panes[i]).state.window == id
}

/// The lowest window among panes.
pub open spec fn first_window(panes: Seq<snapshot::Pane>) -> Option<WindowId>
    decreases panes.len(),
{
    if panes.len() == 0 {
        None
    } else {
        match first_window(panes.drop_last()) {
            Some(id) => if panes.last().state.window.0 < id.0 {
                Some(panes.last().state.window)
            } else {
                Some(id)
            },
            None => Some(panes.last().state.window),
        }
    }
}

/// A tab shows one window: the one that it shows, while it exists, or else the
/// first.
pub open spec fn window_of(panes: Seq<snapshot::Pane>, window: Option<WindowId>) -> Option<WindowId> {
    match window {
        Some(id) => if has_window(panes, id) {
            Some(id)
        } else {
            first_window(panes)
        },
        None => first_window(panes),
    }
}

/// The rectangles of the panes of a window.
pub open spec fn rects_in(panes: Seq<snapshot::Pane>, id: WindowId) -> Seq<PaneRect>
    decreases panes.len(),
{
    if panes.len() == 0 {
        seq![]
    } else if panes.last().state.window == id {
        rects_in(panes.drop_last(), id).push(rect_of(panes.last().state))
    } else {
        rects_in(panes.drop_last(), id)
    }
}

pub open spec fn panes_of(view: Option<snapshot::View>) -> Seq<snapshot::Pane> {
    match view {
        Some(view) => view.spec_panes(),
        None => seq![],
    }
}

/// The focus stays with its pane, or goes to the only one.
pub open spec fn focus_in(visible: Seq<PaneId>, focused: Option<PaneId>) -> Option<PaneId> {
    match focused {
        Some(pane) => if visible.contains(pane) {
            Some(pane)
        } else if visible.len() == 1 {
            Some(visible[0])
        } else {
            None
        },
        None => if visible.len() == 1 {
            Some(visible[0])
        } else {
            None
        },
    }
}

pub open spec fn no_layout_text(id: WindowId) -> Seq<char> {
    "Cannot reconstruct the pane layout in window @"@ + decimal(id.0 as nat)
}

/// A tab whose layout was made from a view.
pub open spec fn laid_out(f: Front, panes: Seq<snapshot::Pane>, generation: nat) -> Front {
    if f.generation == generation {
        f
    } else {
        let blank = Front { generation, window: None, layout: None, focused: None, ..f };
        match window_of(panes, f.window) {
            None => blank,
            Some(id) => match layout_or_zoom(rects_in(panes, id)) {
                Some(node) => Front {
                    window: Some(id),
                    layout: Some(node),
                    focused: focus_in(leaves(node), f.focused),
                    ..blank
                },
                None => Front {
                    window: Some(id),
                    notice: Some(no_layout_text(id)),
                    ..blank
                },
            },
        }
    }
}

fn has_window_in(panes: &Vec<snapshot::Pane>, id: WindowId) -> (r: bool)
    ensures
        r == has_window(panes@, id),
{
    let mut i: usize = 0;
    while i < panes.len()
        invariant
            i <= panes.len(),
            forall|j: int| 0 <= j < i ==> (#[trigger] panes@[j]).state.window != id,
        decreases panes.len() - i,
    {
        if panes[i].state.window == id {
            assert(panes@[i as int].state.window == id);
            return true;
        }
        i += 1;
    }
    false
}

fn find_first_window(panes: &Vec<snapshot::Pane>) -> (r: Option<WindowId>)
    ensures
        r == first_window(panes@),
{
    let mut best: Option<WindowId> = None;
    let mut i: usize = 0;
    while i < panes.len()
        invariant
            i <= panes.len(),
            best == first_window(panes@.take(i as int)),
        decreases panes.len() - i,
    {
        proof {
            assert(panes@.take(i + 1).drop_last() =~= panes@.take(i as int));
        }
        let id = panes[i].state.window;
        match best {
            Some(other) => if id.0 < other.0 {
                best = Some(id);
            },
            None => {
                best = Some(id);
            },
        }
        i += 1;
    }
    proof {
        assert(panes@.take(i as int) =~= panes@);
    }
    best
}

fn layout_in(panes: &Vec<snapshot::Pane>, id: WindowId) -> (r: Option<Node>)
    ensures
        r == layout_or_zoom(rects_in(panes@, id)),
{
    let mut chosen: Vec<&snapshot::Pane> = Vec::new();
    let mut i: usize = 0;
    proof {
        assert(rects(chosen@) =~= rects_in(panes@.take(0), id));
    }
    while i < panes.len()
        invariant
            i <= panes.len(),
            rects(chosen@) == rects_in(panes@.take(i as int), id),
        decreases panes.len() - i,
    {
        proof {
            assert(panes@.take(i + 1).drop_last() =~= panes@.take(i as int));
        }
        if panes[i].state.window == id {
            let ghost before = chosen@;
            chosen.push(&panes[i]);
            proof {
                assert(rects(chosen@) =~= rects(before).push(rect_of(panes@[i as int].state)));
            }
        }
        i += 1;
    }
    proof {
        assert(panes@.take(i as int) =~= panes@);
    }
    Node::from_panes_or_zoom(chosen.as_slice())
}

fn has_id(visible: &Vec<PaneId>, pane: PaneId) -> (r: bool)
    ensures
        r == visible@.contains(pane),
{
    let mut i: usize = 0;
    while i < visible.len()
        invariant
            i <= visible.len(),
            forall|j: int| 0 <= j < i ==> visible@[j] != pane,
        decreases visible.len() - i,
    {
        if visible[i] == pane {
            assert(visible@[i as int] == pane);
            return true;
        }
        i += 1;
    }
    false
}

fn find_focus(visible: &Vec<PaneId>, focused: Option<PaneId>) -> (r: Option<PaneId>)
    ensures
        r == focus_in(visible@, focused),
{
    if let Some(pane) = focused {
        if has_id(visible, pane) {
            return Some(pane);
        }
    }
    if visible.len() == 1 {
        Some(visible[0])
    } else {
        None
    }
}

fn is_running(discovery: &Option<Discovery>) -> (r: bool)
    ensures
        r == (discovery matches Some(Discovery::Running)),
{
    match discovery {
        Some(Discovery::Running) => true,
        _ => false,
    }
}

fn is_idle(phase: Phase) -> (r: bool)
    ensures
        r == idle(phase),
{
    phase != Phase::Connecting && phase != Phase::Watching && phase != Phase::Resynchronizing
}

fn is_over(phase: Phase) -> (r: bool)
    ensures
        r == over(phase),
{
    phase == Phase::Failed || phase == Phase::Disconnected
}

fn has_name(found: &Vec<Summary>, name: &str) -> (r: bool)
    ensures
        r == names_of(found@).contains(name@),
{
    let ghost all = names_of(found@);
    let mut i: usize = 0;
    while i < found.len()
        invariant
            i <= found.len(),
            all == names_of(found@),
            forall|j: int| 0 <= j < i ==> all[j] != name@,
        decreases found.len() - i,
    {
        assert(all[i as int] == found@[i as int].name@);
        if same_str(found[i].name.as_str(), name) {
            return true;
        }
        i += 1;
    }
    false
}

impl DesktopUi {
    pub fn with_config(
        config: Arc<Config>,
        config_load_error: Option<String>,
        local: Local,
        agent_available: bool,
        now: u64,
    ) -> (r: Self)
        ensures
            r@ == opened(
                *config,
                opt_text(config_load_error),
                local.user@,
                opt_text(local.home),
                agent_available,
                now as nat,
            ),
    {
        DesktopUi {
            form: Form::new(&local),
            config,
            config_load_error,
            local,
            screen: Screen::Connection,
            profile_source: String::new(),
            font_points: 14,
            generation: u64::MAX,
            window: None,
            layout: None,
            focused: None,
            pending_paste: None,
            notice: None,
            notice_until: None,
            restore_focus: false,
            create_name: String::new(),
            agent_available,
            agent_checked: now,
            listed_destination: String::new(),
            auto_list: false,
            client_cells: None,
            pending_client_cells: None,
        }
    }

    /// Whether the agent is to be looked for again. The form is drawn in every
    /// frame, and a warning may be a second old.
    pub fn probe_due(&self, now: u64) -> (r: bool)
        ensures
            r == (now - self@.agent_checked >= PROBE_MILLIS),
    {
        now >= self.agent_checked && now - self.agent_checked >= PROBE_MILLIS
    }

    pub fn probed(&mut self, available: bool, now: u64)
        ensures
            final(self)@ == (Front {
                agent: available,
                agent_checked: now as nat,
                ..old(self)@
            }),
    {
        self.agent_available = available;
        self.agent_checked = now;
    }

    /// Restore a saved tab. The form is shown, and no host is contacted.
    pub fn restore(&mut self, saved: Tab)
        ensures
            final(self)@ == reopened(old(self)@, saved@),
    {
        self.form = Form::restore(saved, self.local.user.as_str());
        self.profile_source = self.form.destination();
        self.listed_destination = self.form.destination();
        self.auto_list = false;
        self.screen = Screen::Connection;
        if chars_of(self.profile_source.as_str()).len() > 0 {
            match self.config.resolve(self.profile_source.as_str()) {
                Ok(profile) => {
                    proof {
                        routing_is_read(profile);
                    }
                    let defaults = self.config.default_identities();
                    self.form.apply_routing(&profile, defaults);
                },
                Err(_) => {},
            }
        }
    }

    pub fn saved(&self) -> (r: Tab)
        ensures
            r@ == form::saved_tab(self@.form),
    {
        self.form.saved()
    }

    pub fn open_terminal(&mut self)
        ensures
            final(self)@ == at_terminal(old(self)@),
    {
        self.screen = Screen::Terminal;
        self.pending_paste = None;
    }

    pub fn showing_form(&self) -> (r: bool)
        ensures
            r == (self@.screen == Screen::Connection),
    {
        self.screen == Screen::Connection
    }

    /// Show the form again. What was entered stays.
    pub fn return_to_form(&mut self)
        ensures
            final(self)@ == at_form(old(self)@),
    {
        self.screen = Screen::Connection;
        self.cancel_transient();
    }

    pub fn reset_client_size(&mut self)
        ensures
            final(self)@ == (Front { cells: None, pending_cells: None, ..old(self)@ }),
    {
        self.client_cells = None;
        self.pending_client_cells = None;
    }

    pub fn cancel_transient(&mut self)
        ensures
            final(self)@ == (Front { pending: None, ..old(self)@ }),
    {
        self.pending_paste = None;
    }

    pub fn arm_focus_restore(&mut self)
        ensures
            final(self)@ == (Front { restore_focus: true, ..old(self)@ }),
    {
        self.restore_focus = true;
    }

    /// Fill the form from the configuration.
    pub fn refresh_profile(&mut self)
        ensures
            final(self)@ == refreshed(old(self)@),
    {
        let destination = self.form.destination();
        self.profile_source = destination.clone();
        self.form.unsupported = Vec::new();
        self.form.profile_error = None;
        proof {
            assert(texts(self.form.unsupported@) =~= Seq::<Seq<char>>::empty());
        }
        if chars_of(destination.as_str()).len() == 0 {
            self.form.host = String::new();
            self.form.identity_files = Vec::new();
            self.form.identities_only = false;
            self.form.host_key_alias = None;
            proof {
                assert(texts(self.form.identity_files@) =~= Seq::<Seq<char>>::empty());
                assert(self.form.host@ =~= Seq::<char>::empty());
            }
            return ;
        }
        match self.config.resolve(destination.as_str()) {
            Ok(profile) => {
                proof {
                    routing_is_read(profile);
                }
                let defaults = self.config.default_identities();
                self.form.apply_profile(&profile, defaults, self.local.user.as_str());
            },
            Err(error) => {
                self.form.host = destination;
                self.form.profile_error = Some(error.message().to_owned());
            },
        }
    }

    /// Turn text from the clipboard into an action, or ask whether lines are to
    /// be pasted.
    pub fn clipboard_paste(&mut self, state: &desktop::State, target: Target, text: &str) -> (r:
        Option<Input>)
        ensures
            final(self)@ == clipped(old(self)@, state@, target, text@).0,
            match r {
                Some(action) => clipped(old(self)@, state@, target, text@).1 == Some(action@),
                None => clipped(old(self)@, state@, target, text@).1 is None,
            },
    {
        if !state.is_current(target) {
            self.notice = Some("Paste target changed; nothing was sent.".to_owned());
            return None;
        }
        match Paste::new(text) {
            Ok(paste) => if paste.is_multiline() {
                self.pending_paste = Some((target, paste));
                None
            } else {
                Some(Input::Paste(paste))
            },
            Err(_) => {
                self.notice = Some(
                    "Clipboard text is empty or contains control characters; nothing was sent.".to_owned(),
                );
                None
            },
        }
    }

    /// Begin a frame.
    pub fn show(&mut self, state: &desktop::State, failure: Option<Failure>) -> (r: Shown)
        ensures
            final(self)@ == shown(old(self)@, state@, failure).0,
            r == shown(old(self)@, state@, failure).1,
    {
        let destination = self.form.destination();
        if !same_str(self.profile_source.as_str(), destination.as_str()) {
            self.refresh_profile();
        }
        if state.view.is_some() && self.screen == Screen::Connection && self.generation
            != state.generation {
            self.open_terminal();
        } else if self.screen == Screen::Terminal && state.view.is_none() && is_over(state.phase) {
            self.screen = Screen::Connection;
        }
        if self.screen == Screen::Connection {
            return Shown::Form;
        }
        let gone = match failure {
            Some(Failure::Detached) => true,
            Some(Failure::MissingSession) => true,
            _ => false,
        };
        if gone && is_over(state.phase) {
            self.return_to_form();
            Shown::Gone
        } else {
            Shown::Panes
        }
    }

    /// What the buttons go by in this frame.
    pub fn gates(&self, state: &desktop::State, discovery: &Option<Discovery>) -> (r: Gates)
        ensures
            r == gates_of(self@, state@, *discovery),
    {
        let destination = self.form.destination();
        Gates {
            idle: is_idle(state.phase),
            busy: is_running(discovery),
            host_ready: self.form.host_ready(),
            listing_here: same_str(self.listed_destination.as_str(), destination.as_str()),
        }
    }

    /// The aliases that are offered.
    pub fn aliases(&self) -> (r: Vec<String>)
        ensures
            texts(r@) == if self@.config.spec_aliases().len() > MAX_ALIASES {
                self@.config.spec_aliases().take(MAX_ALIASES as int)
            } else {
                self@.config.spec_aliases()
            },
    {
        let all = self.config.aliases();
        let ghost names = texts(all@);
        let mut out: Vec<String> = Vec::new();
        let mut i: usize = 0;
        proof {
            assert(texts(out@) =~= names.take(0));
        }
        while i < all.len() && i < MAX_ALIASES
            invariant
                i <= all.len(),
                i <= MAX_ALIASES,
                names == texts(all@),
                texts(out@) == names.take(i as int),
            decreases all.len() - i,
        {
            let ghost before = out@;
            let name = all[i].clone();
            out.push(name);
            proof {
                assert(texts(out@) =~= texts(before).push(name@));
                assert(names.take(i + 1) =~= names.take(i as int).push(names[i as int]));
            }
            i += 1;
        }
        proof {
            assert(names.take(names.len() as int) =~= names);
        }
        out
    }

    /// A host was picked. Picking it again asks it again.
    pub fn pick_alias(&mut self, alias: &str)
        ensures
            final(self)@ == ({
                let f = old(self)@;
                Front {
                    listed: if destination_of(f.form) == alias@ {
                        seq![]
                    } else {
                        f.listed
                    },
                    auto_list: true,
                    ..refreshed(Front { form: Fields { destination: alias@, ..f.form }, ..f })
                }
            }),
    {
        if same_str(self.form.destination().as_str(), alias) {
            self.listed_destination = String::new();
            proof {
                assert(self.listed_destination@ =~= Seq::<char>::empty());
            }
        }
        self.form.destination = alias.to_owned();
        self.refresh_profile();
        self.auto_list = true;
    }

    /// The destination was edited.
    pub fn destination_changed(&mut self)
        ensures
            final(self)@ == (Front { auto_list: false, ..refreshed(old(self)@) }),
    {
        self.refresh_profile();
        self.auto_list = false;
    }

    /// The destination was left, with or without the enter key.
    pub fn destination_left(&mut self, enter: bool)
        ensures
            final(self)@ == (Front {
                auto_list: old(self)@.auto_list || enter || destination_of(old(self)@.form).len()
                    > 0,
                ..old(self)@
            }),
    {
        let destination = self.form.destination();
        if enter || chars_of(destination.as_str()).len() > 0 {
            self.auto_list = true;
        }
    }

    /// The sessions were asked for.
    pub fn ask_again(&mut self, gates: Gates)
        ensures
            final(self)@ == if gates.host_ready && gates.idle && !gates.busy {
                Front { listed: seq![], auto_list: true, ..old(self)@ }
            } else {
                old(self)@
            },
    {
        if gates.host_ready && gates.idle && !gates.busy {
            self.listed_destination = String::new();
            self.auto_list = true;
            proof {
                assert(self.listed_destination@ =~= Seq::<char>::empty());
            }
        }
    }

    /// The session that the listing selects by itself.
    pub fn preselect(&self, gates: Gates, discovery: &Option<Discovery>) -> (r: Option<String>)
        ensures
            opt_text(r) == preselected(self@, gates, *discovery),
    {
        if !gates.listing_here {
            return None;
        }
        match discovery {
            Some(Discovery::Created(name)) => Some(name.clone()),
            Some(Discovery::Sessions(found)) => if found.len() > 0 && !has_name(
                found,
                self.form.session.as_str(),
            ) {
                Some(found[0].name.clone())
            } else {
                None
            },
            _ => None,
        }
    }

    fn noted(&mut self, result: Result<Connection, form::Error>) -> (r: Option<Connection>)
        ensures
            match result {
                Ok(c) => r == Some(c) && final(self)@ == (Front { notice: None, ..old(self)@ }),
                Err(error) => r is None && final(self)@ == (Front {
                    notice: Some(form::refusal_text(error@)),
                    ..old(self)@
                }),
            },
    {
        match result {
            Ok(connection) => {
                self.notice = None;
                Some(connection)
            },
            Err(error) => {
                self.notice = Some(error.message());
                None
            },
        }
    }

    /// A listed session was opened.
    pub fn open_session(&mut self, gates: Gates, name: &str) -> (r: Option<Connection>)
        ensures
            ({
                let f = old(self)@;
                let named = Front { form: Fields { session: name@, ..f.form }, ..f };
                if !gates.idle || gates.busy {
                    r is None && final(self)@ == f
                } else if trim_both(name@).len() == 0 {
                    r is None && final(self)@ == (Front {
                        notice: Some(form::refusal_text(form::Refusal::NoSession)),
                        ..named
                    })
                } else {
                    requested(named, final(self)@, trim_both(name@), r)
                }
            }),
    {
        if !gates.idle || gates.busy {
            return None;
        }
        self.form.session = name.to_owned();
        let result = self.form.connection(&self.local);
        self.noted(result)
    }

    /// Whether a session may be created.
    pub fn can_create(&self, gates: Gates) -> (r: bool)
        ensures
            r == (gates.host_ready && gates.idle && !gates.busy && trim_both(
                self@.create_name,
            ).len() > 0),
    {
        let chars = chars_of(self.create_name.as_str());
        gates.host_ready && gates.idle && !gates.busy && trimmed(chars.as_slice()).len() > 0
    }

    /// The button that creates a session was pressed.
    pub fn create(&mut self, gates: Gates) -> (r: Option<Connection>)
        ensures
            if gates.host_ready && gates.idle && !gates.busy && trim_both(
                old(self)@.create_name,
            ).len() > 0 {
                requested(old(self)@, final(self)@, trim_both(old(self)@.create_name), r)
            } else {
                r is None && final(self)@ == old(self)@
            },
    {
        if !self.can_create(gates) {
            return None;
        }
        let chars = chars_of(self.create_name.as_str());
        let name = string_of(trimmed(chars.as_slice()));
        let result = self.form.connection_named(name.as_str(), &self.local);
        self.noted(result)
    }

    /// Whether a connection may be asked for.
    pub fn can_connect(&self, gates: Gates) -> (r: bool)
        ensures
            r == (gates.host_ready && gates.idle && trim_both(self@.form.session).len() > 0),
    {
        let chars = chars_of(self.form.session.as_str());
        gates.host_ready && gates.idle && trimmed(chars.as_slice()).len() > 0
    }

    /// The button that connects was pressed.
    pub fn connect(&mut self, gates: Gates) -> (r: Option<Connection>)
        ensures
            if gates.host_ready && gates.idle && trim_both(old(self)@.form.session).len() > 0 {
                requested(old(self)@, final(self)@, trim_both(old(self)@.form.session), r)
            } else {
                r is None && final(self)@ == old(self)@
            },
    {
        if !self.can_connect(gates) {
            return None;
        }
        let result = self.form.connection(&self.local);
        self.noted(result)
    }

    /// The panes were asked for while a connection is up or on its way.
    pub fn back_to_terminal(&mut self, state: &desktop::State)
        ensures
            final(self)@ == if idle(state@.phase) {
                old(self)@
            } else {
                at_terminal(old(self)@)
            },
    {
        if !is_idle(state.phase) {
            self.open_terminal();
        }
    }

    /// End a frame of the form: take the session that was selected, and ask the
    /// host for its sessions where that is due and nothing else is asked for.
    pub fn finish_form(
        &mut self,
        state: &desktop::State,
        discovery: &Option<Discovery>,
        chosen: Option<String>,
        action: Action,
    ) -> (r: Action)
        ensures
            ({
                let f = selecting(old(self)@, opt_text(chosen));
                let asked = Front { auto_list: false, ..f };
                let listing = Front { listed: destination_of(f.form), ..asked };
                if !(action is Idle) {
                    r == action && final(self)@ == f
                } else if !lists(f, state@, *discovery) {
                    r is Idle && final(self)@ == asked
                } else {
                    match r {
                        Action::ListSessions(c) => requested(listing, final(self)@, "_"@, Some(c)),
                        Action::Idle => requested(listing, final(self)@, "_"@, None),
                        _ => false,
                    }
                }
            }),
    {
        if let Some(name) = chosen {
            self.form.session = name;
        }
        match action {
            Action::Idle => {},
            other => return other,
        }
        if !self.auto_list {
            return Action::Idle;
        }
        self.auto_list = false;
        let destination = self.form.destination();
        if chars_of(destination.as_str()).len() == 0 || same_str(
            destination.as_str(),
            self.listed_destination.as_str(),
        ) || !self.form.host_ready() || !is_idle(state.phase) || is_running(discovery) {
            return Action::Idle;
        }
        self.listed_destination = destination;
        let result = self.form.listing(&self.local);
        match self.noted(result) {
            Some(connection) => Action::ListSessions(connection),
            None => Action::Idle,
        }
    }
}

/// How the host of a form is shown.
pub open spec fn endpoint_text(f: Fields) -> Seq<char> {
    let place = f.user + "@"@ + f.host + ":"@ + decimal(f.port);
    match f.host_key_alias {
        Some(alias) => place + " (host key "@ + alias + ")"@,
        None => place,
    }
}

/// The keys of a form as they are shown, each once: the entered one before those
/// of the configuration.
pub open spec fn key_list(entered: Seq<char>, files: Seq<Seq<char>>) -> Seq<Seq<char>>
    decreases files.len(),
{
    if files.len() == 0 {
        if trim_both(entered).len() == 0 {
            seq![]
        } else {
            seq![trim_both(entered)]
        }
    } else {
        let before = key_list(entered, files.drop_last());
        if before.contains(files.last()) {
            before
        } else {
            before.push(files.last())
        }
    }
}

fn has_text(items: &Vec<String>, text: &str) -> (r: bool)
    ensures
        r == texts(items@).contains(text@),
{
    let ghost all = texts(items@);
    let mut i: usize = 0;
    while i < items.len()
        invariant
            i <= items.len(),
            all == texts(items@),
            forall|j: int| 0 <= j < i ==> all[j] != text@,
        decreases items.len() - i,
    {
        assert(all[i as int] == items@[i as int]@);
        if same_str(items[i].as_str(), text) {
            return true;
        }
        i += 1;
    }
    false
}

fn push_item(items: &mut Vec<String>, text: String)
    ensures
        texts(final(items)@) == texts(old(items)@).push(text@),
{
    let ghost before = items@;
    items.push(text);
    proof {
        assert(texts(items@) =~= texts(before).push(text@));
    }
}

impl DesktopUi {
    /// Where the form connects to, once the host is known.
    pub fn endpoint(&self) -> (r: Option<String>)
        ensures
            opt_text(r) == if self@.form.host.len() == 0 {
                None
            } else {
                Some(endpoint_text(self@.form))
            },
    {
        if chars_of(self.form.host.as_str()).len() == 0 {
            return None;
        }
        let mut out = self.form.user.clone();
        out.append("@");
        out.append(self.form.host.as_str());
        out.append(":");
        push_decimal(&mut out, self.form.port as u64);
        if let Some(alias) = &self.form.host_key_alias {
            out.append(" (host key ");
            out.append(alias.as_str());
            out.append(")");
        }
        Some(out)
    }

    /// The keys that the form offers, as they are shown.
    pub fn shown_keys(&self) -> (r: Vec<String>)
        ensures
            texts(r@) == key_list(self@.form.identity, self@.form.identity_files),
    {
        let ghost all = texts(self.form.identity_files@);
        let ghost entered = self.form.identity@;
        let mut out: Vec<String> = Vec::new();
        proof {
            assert(texts(out@) =~= Seq::<Seq<char>>::empty());
            assert(all.take(0) =~= Seq::<Seq<char>>::empty());
        }
        let chars = chars_of(self.form.identity.as_str());
        let identity = trimmed(chars.as_slice());
        if identity.len() > 0 {
            push_item(&mut out, string_of(identity));
            proof {
                assert(texts(out@) =~= seq![trim_both(entered)]);
            }
        }
        let mut i: usize = 0;
        while i < self.form.identity_files.len()
            invariant
                i <= self.form.identity_files.len(),
                all == texts(self.form.identity_files@),
                texts(out@) == key_list(entered, all.take(i as int)),
            decreases self.form.identity_files.len() - i,
        {
            proof {
                assert(all.take(i + 1).drop_last() =~= all.take(i as int));
            }
            let path = &self.form.identity_files[i];
            if !has_text(&out, path.as_str()) {
                push_item(&mut out, path.clone());
            }
            i += 1;
        }
        proof {
            assert(all.take(i as int) =~= all);
        }
        out
    }

    /// Whether the form has neither an agent nor a key to offer.
    pub fn lacks_keys(&self) -> (r: bool)
        ensures
            r == (!self@.form.identities_only && !self@.agent
                && self@.form.identity_files.len() == 0),
    {
        proof {
            assert(texts(self.form.identity_files@).len() == self.form.identity_files@.len());
        }
        !self.form.identities_only && !self.agent_available && self.form.identity_files.len() == 0
    }
}

/// The notice of a frame that both navigated and typed.
pub open spec fn collided_text() -> Seq<char> {
    "Terminal input was not sent because this frame changed the connection instead. Nothing was retried."@
}

/// A tab at a time: a notice that is over is gone.
pub open spec fn at_time(f: Front, now: u64) -> Front {
    match f.notice_until {
        Some(until) => if until <= now {
            Front { notice: None, notice_until: None, ..f }
        } else {
            f
        },
        None => f,
    }
}

/// The pane through which the size of the client is told: the focused one, or
/// the first of the window.
pub open spec fn reporting_pane(f: Front, panes: Seq<snapshot::Pane>) -> Option<PaneId> {
    match f.focused {
        Some(pane) => Some(pane),
        None => first_pane_in(panes, f.window),
    }
}

pub open spec fn first_pane_in(panes: Seq<snapshot::Pane>, window: Option<WindowId>) -> Option<
    PaneId,
>
    decreases panes.len(),
{
    if panes.len() == 0 {
        None
    } else {
        match first_pane_in(panes.drop_last(), window) {
            Some(pane) => Some(pane),
            None => if Some(panes.last().state.window) == window {
                Some(panes.last().state.pane)
            } else {
                None
            },
        }
    }
}

/// Whether a size was the same for long enough.
pub open spec fn settled(f: Front, size: Size, now: u64) -> bool {
    f.pending_cells matches Some((pending, at)) && pending == size && now - at >= STABLE_MILLIS
}

/// The size of the client, once it is known and has settled: the tab, the step
/// that tells it, and whether to look again soon.
pub open spec fn reported(
    f: Front,
    d: Desk,
    panes: Seq<snapshot::Pane>,
    size: Option<Size>,
    now: u64,
) -> (Front, Option<(PaneId, Size)>, bool) {
    if !desktop::ready(d) {
        (f, None, false)
    } else if size is None || f.cells == size {
        (Front { pending_cells: None, ..f }, None, false)
    } else if !settled(f, size->0, now) {
        (
            Front {
                pending_cells: match f.pending_cells {
                    Some((pending, at)) => if pending == size->0 {
                        Some((pending, at))
                    } else {
                        Some((size->0, now))
                    },
                    None => Some((size->0, now)),
                },
                ..f
            },
            None,
            true,
        )
    } else {
        match reporting_pane(f, panes) {
            Some(pane) => if desktop::has_pane(d, pane) {
                (
                    Front { cells: size, pending_cells: None, ..f },
                    Some((pane, size->0)),
                    false,
                )
            } else {
                (f, None, false)
            },
            None => (f, None, false),
        }
    }
}

/// Steps with one more that goes to a pane, where input is taken.
pub open spec fn sent_to(
    before: Seq<Wish>,
    after: Seq<Wish>,
    d: Desk,
    pane: Option<PaneId>,
    act: Act,
) -> bool {
    match pane {
        Some(pane) => if desktop::ready(d) && desktop::has_pane(d, pane) {
            exists|target: Target| #[trigger]
                current(d, target) && target.spec_pane() == pane && after == before.push(
                    Wish::Send(target, act),
                )
        } else {
            after == before
        },
        None => after == before,
    }
}

/// Steps with sends of actions to a target behind them.
pub open spec fn sends(target: Target, acts: Seq<Act>) -> Seq<Wish> {
    acts.map_values(|act: Act| Wish::Send(target, act))
}

/// What a key event adds: the tab, the steps, and whether the pane is copied.
pub open spec fn typed_at(f: Front, target: Target, event: Event) -> (Front, Seq<Wish>, bool) {
    match event {
        Event::Input(actions) => (f, sends(target, acts_of(actions@)), false),
        Event::Copy => (f, seq![], true),
        Event::Paste(paste) => if multiline(paste@) {
            (Front { pending: Some((target, paste@)), ..f }, seq![], false)
        } else {
            (f, seq![Wish::Send(target, Act::Paste(paste@))], false)
        },
        Event::RequestPaste => (f, seq![Wish::RequestPaste(target)], false),
        Event::Refused(why) => (Front { notice: Some(why@), ..f }, seq![], false),
    }
}

/// The answer to whether lines are to be pasted.
#[derive(Clone, Copy, Debug, PartialEq, Eq, Structural)]
pub enum Choice {
    Wait,
    Cancel,
    Send,
}

/// What the status line says.
pub open spec fn status_text(f: Front, d: Desk) -> Seq<char> {
    match f.notice {
        Some(text) => text,
        None => if d.phase == Phase::Demo {
            "Local demo — no SSH connection"@
        } else if desktop::ready(d) {
            "Click a pane to type · Wheel to scroll · Drag to select · Right-click to copy"@
        } else {
            "Wheel to scroll · Drag to select · Right-click to copy"@
        },
    }
}

/// The panes of a window, counted.
pub open spec fn panes_in(panes: Seq<snapshot::Pane>, window: Option<WindowId>) -> nat
    decreases panes.len(),
{
    if panes.len() == 0 {
        0
    } else {
        panes_in(panes.drop_last(), window) + if Some(panes.last().state.window) == window {
            1nat
        } else {
            0
        }
    }
}

/// Lines with a line ending between them.
pub open spec fn screen_text(ls: Seq<Seq<char>>) -> Seq<char>
    decreases ls.len(),
{
    if ls.len() == 0 {
        seq![]
    } else if ls.len() == 1 {
        ls[0]
    } else {
        screen_text(ls.drop_last()).push('\n') + ls.last()
    }
}

/// A screen that was copied reads back: cut at its line endings, the text is the rows
/// of the screen, in order.
pub proof fn copied_screens_read_back(ls: Seq<Seq<char>>)
    requires
        ls.len() > 0,
        forall|i: int| 0 <= i < ls.len() ==> !(#[trigger] ls[i]).contains('\n'),
    ensures
        pieces(screen_text(ls), '\n') == ls,
{
    screen_is_separated(ls);
    separated_reads_back(ls, '\n');
}

proof fn screen_is_separated(ls: Seq<Seq<char>>)
    ensures
        screen_text(ls) == separated(ls, '\n'),
    decreases ls.len(),
{
    if ls.len() > 1 {
        screen_is_separated(ls.drop_last());
        separated_grows(ls, '\n');
    }
}

fn join_screen(ls: &Vec<String>) -> (r: String)
    ensures
        r@ == screen_text(texts(ls@)),
        ls@.len() > 0 && (forall|i: int|
            0 <= i < ls@.len() ==> !(#[trigger] ls@[i])@.contains('\n')) ==> pieces(r@, '\n')
            == texts(ls@),
{
    let ghost all = texts(ls@);
    let mut out = String::new();
    let mut i: usize = 0;
    proof {
        assert(all.take(0) =~= Seq::<Seq<char>>::empty());
    }
    while i < ls.len()
        invariant
            i <= ls.len(),
            all == texts(ls@),
            out@ == screen_text(all.take(i as int)),
        decreases ls.len() - i,
    {
        if i > 0 {
            out.push('\n');
        }
        out.append(ls[i].as_str());
        i += 1;
        proof {
            assert(all.take(i as int).drop_last() =~= all.take(i - 1));
            assert(all.take(i as int).last() == ls@[i - 1]@);
            assert(out@ =~= screen_text(all.take(i as int)));
        }
    }
    proof {
        assert(all.take(i as int) =~= all);
        if ls@.len() > 0 && (forall|i: int|
            0 <= i < ls@.len() ==> !(#[trigger] ls@[i])@.contains('\n')) {
            assert forall|k: int| 0 <= k < all.len() implies !(#[trigger] all[k]).contains(
                '\n',
            ) by {
                assert(!ls@[k]@.contains('\n'));
            }
            copied_screens_read_back(all);
        }
    }
    out
}

fn find_first_pane(panes: &Vec<snapshot::Pane>, window: Option<WindowId>) -> (r: Option<PaneId>)
    ensures
        r == first_pane_in(panes@, window),
{
    let mut best: Option<PaneId> = None;
    let mut i: usize = 0;
    while i < panes.len()
        invariant
            i <= panes.len(),
            best == first_pane_in(panes@.take(i as int), window),
        decreases panes.len() - i,
    {
        proof {
            assert(panes@.take(i + 1).drop_last() =~= panes@.take(i as int));
        }
        if best.is_none() {
            if let Some(id) = window {
                if panes[i].state.window == id {
                    best = Some(panes[i].state.pane);
                }
            }
        }
        i += 1;
    }
    proof {
        assert(panes@.take(i as int) =~= panes@);
    }
    best
}

/// What copying a pane comes to.
pub enum Copied {
    NoPane,
    /// A row of the screen is half a character, and nothing is selected.
    Unreadable,
    Text(Seq<char>),
}

/// What is copied of a pane: the selection, or else the screen.
pub open spec fn copied_text(
    f: Front,
    view: Option<snapshot::View>,
    selected: Option<Seq<char>>,
) -> Copied {
    match (f.focused, view) {
        (Some(pane), Some(view)) => {
            let i = snapshot::pane_index(view.models().panes, pane);
            if i < 0 {
                Copied::NoPane
            } else {
                match selected {
                    Some(text) => Copied::Text(text),
                    None => if all_readable(
                        view.spec_panes()[i].terminal.shape(),
                        view.spec_panes()[i].terminal.inputs(),
                    ) {
                        Copied::Text(screen_text(view.spec_panes()[i].terminal.screen()))
                    } else {
                        Copied::Unreadable
                    },
                }
            }
        },
        _ => Copied::NoPane,
    }
}

/// What copying takes of the pane that has the focus. A selection goes to the clipboard
/// as it is. Without one it is the whole screen: cut at its line endings, the text has as
/// many lines as the terminal has rows, and each is what the terminal shows in that row,
/// without the blanks at its end.
pub proof fn the_focused_pane_is_copied(
    f: Front,
    view: snapshot::View,
    i: int,
    selected: Option<Seq<char>>,
)
    requires
        0 <= i < view.spec_panes().len(),
        f.focused == Some(view.spec_panes()[i].state.pane),
        forall|j: int|
            0 <= j < view.spec_panes().len() && j != i ==> (
            #[trigger] view.spec_panes()[j]).state.pane != view.spec_panes()[i].state.pane,
    ensures
        ({
            let shape = view.spec_panes()[i].terminal.shape();
            let inputs = view.spec_panes()[i].terminal.inputs();
            match selected {
                Some(text) => copied_text(f, Some(view), selected) == Copied::Text(text),
                None => if all_readable(shape, inputs) {
                    &&& copied_text(f, Some(view), selected) matches Copied::Text(text)
                    &&& shape.rows > 0 && (forall|row: nat|
                        row < shape.rows ==> !shown_row(
                            #[trigger] row_string(shape, inputs, row),
                        ).contains('\n')) ==> {
                        &&& pieces(text, '\n').len() == shape.rows
                        &&& forall|row: nat|
                            row < shape.rows ==> pieces(text, '\n')[row as int] == shown_row(
                                #[trigger] row_string(shape, inputs, row),
                            )
                    }
                } else {
                    copied_text(f, Some(view), selected) is Unreadable
                },
            }
        }),
{
    let panes = view.models().panes;
    let pane = view.spec_panes()[i].state.pane;
    assert(panes.len() == view.spec_panes().len());
    snapshot::pane_index_facts(panes, pane);
    let k = snapshot::pane_index(panes, pane);
    assert(panes[i].facts.pane == pane.0);
    if k >= 0 {
        assert(panes[k].facts.pane == view.spec_panes()[k].state.pane.0);
        assert(k == i);
    }
    let shape = view.spec_panes()[i].terminal.shape();
    let inputs = view.spec_panes()[i].terminal.inputs();
    let screen = view.spec_panes()[i].terminal.screen();
    assert forall|row: nat| row < shape.rows implies screen[row as int] == shown_row(
        #[trigger] row_string(shape, inputs, row),
    ) by {
        shown_rows_end_in_text(row_string(shape, inputs, row));
    }
    if shape.rows > 0 && (forall|row: nat|
        row < shape.rows ==> !shown_row(#[trigger] row_string(shape, inputs, row)).contains(
            '\n',
        )) {
        assert forall|j: int| 0 <= j < screen.len() implies !(#[trigger] screen[j]).contains(
            '\n',
        ) by {
            assert(!shown_row(row_string(shape, inputs, j as nat)).contains('\n'));
        }
        copied_screens_read_back(screen);
    }
}

impl DesktopUi {
    /// Make the layout anew where the view is another one.
    pub fn rebuild_layout(&mut self, state: &desktop::State)
        ensures
            final(self)@ == laid_out(
                old(self)@,
                panes_of(state.view),
                state.generation as nat,
            ),
    {
        if self.generation == state.generation {
            return ;
        }
        let previous = self.focused;
        self.layout = None;
        self.focused = None;
        match &state.view {
            Some(view) => {
                let panes = view.panes();
                let id = match self.window {
                    Some(id) => if has_window_in(panes, id) {
                        Some(id)
                    } else {
                        find_first_window(panes)
                    },
                    None => find_first_window(panes),
                };
                self.window = id;
                if let Some(id) = id {
                    match layout_in(panes, id) {
                        Some(node) => {
                            let visible = node.pane_ids();
                            self.focused = find_focus(&visible, previous);
                            self.layout = Some(node);
                        },
                        None => {
                            let mut text =
                                "Cannot reconstruct the pane layout in window @".to_owned();
                            push_decimal(&mut text, id.0 as u64);
                            self.notice = Some(text);
                        },
                    }
                }
            },
            None => {
                self.window = None;
            },
        }
        self.generation = state.generation;
    }

    /// Begin a frame of the panes: the pane that the keyboard is handed to, if
    /// that is due.
    pub fn begin_terminal(&mut self, state: &desktop::State, now: u64) -> (r: Option<PaneId>)
        ensures
            ({
                let f = old(self)@;
                let next = laid_out(f, panes_of(state.view), state.generation as nat);
                &&& final(self)@ == at_time(Front { restore_focus: false, ..next }, now)
                &&& r == if f.generation != state.generation || f.restore_focus {
                    next.focused
                } else {
                    None
                }
            }),
    {
        let changed = self.generation != state.generation;
        self.rebuild_layout(state);
        let focus = if changed || self.restore_focus {
            self.focused
        } else {
            None
        };
        self.restore_focus = false;
        if let Some(until) = self.notice_until {
            if until <= now {
                self.notice = None;
                self.notice_until = None;
            }
        }
        focus
    }

    /// The user leaves the session. Remote jobs keep running.
    pub fn exit(&mut self) -> (r: Action)
        ensures
            r is Disconnect,
            final(self)@ == at_form(old(self)@),
    {
        self.return_to_form();
        Action::Disconnect
    }

    pub fn smaller_text(&mut self)
        ensures
            final(self)@ == (Front {
                points: if old(self)@.points > SMALLEST_TEXT {
                    (old(self)@.points - 1) as nat
                } else {
                    SMALLEST_TEXT as nat
                },
                cells: None,
                pending_cells: None,
                ..old(self)@
            }),
    {
        self.font_points = if self.font_points > SMALLEST_TEXT {
            self.font_points - 1
        } else {
            SMALLEST_TEXT
        };
        self.reset_client_size();
    }

    pub fn larger_text(&mut self)
        ensures
            final(self)@ == (Front {
                points: if old(self)@.points < LARGEST_TEXT {
                    old(self)@.points + 1
                } else {
                    LARGEST_TEXT as nat
                },
                cells: None,
                pending_cells: None,
                ..old(self)@
            }),
    {
        self.font_points = if self.font_points < LARGEST_TEXT {
            self.font_points + 1
        } else {
            LARGEST_TEXT
        };
        self.reset_client_size();
    }

    /// The target of the focused pane, where input is taken.
    pub fn focused_target(&self, state: &desktop::State) -> (r: Option<Target>)
        ensures
            match r {
                Some(target) => current(state@, target) && self@.focused == Some(
                    target.spec_pane(),
                ),
                None => self@.focused matches Some(pane) ==> !(desktop::ready(state@)
                    && desktop::has_pane(state@, pane)),
            },
    {
        match self.focused {
            Some(pane) => state.target(pane),
            None => None,
        }
    }

    /// The button that pastes was pressed.
    pub fn request_paste(&self, state: &desktop::State, steps: &mut Vec<Step>)
        ensures
            match self@.focused {
                Some(pane) => if desktop::ready(state@) && desktop::has_pane(state@, pane) {
                    exists|target: Target| #[trigger]
                        current(state@, target) && target.spec_pane() == pane && wishes(
                            final(steps)@,
                        ) == wishes(old(steps)@).push(Wish::RequestPaste(target))
                } else {
                    wishes(final(steps)@) == wishes(old(steps)@)
                },
                None => wishes(final(steps)@) == wishes(old(steps)@),
            },
    {
        if let Some(target) = self.focused_target(state) {
            push_step(steps, Step::RequestPaste(target));
        }
    }

    /// An action that a pane or a divider produced.
    pub fn send(
        &self,
        state: &desktop::State,
        pane: PaneId,
        action: Input,
        steps: &mut Vec<Step>,
    )
        ensures
            sent_to(wishes(old(steps)@), wishes(final(steps)@), state@, Some(pane), action@),
    {
        if let Some(target) = state.target(pane) {
            push_step(steps, Step::Send(target, action));
        }
    }

    /// The size that the window offers now. It is told once it has settled.
    pub fn report_size(
        &mut self,
        state: &desktop::State,
        columns: usize,
        rows: usize,
        now: u64,
        steps: &mut Vec<Step>,
    ) -> (r: bool)
        ensures
            exists|size: Option<Size>|
                {
                    &&& (size matches Some(s) && s.spec_columns() == columns && s.spec_rows()
                        == rows) || (size is None && !valid_size(columns as int, rows as int))
                    &&& ({
                        let (next, told, wait) = #[trigger] reported(
                            old(self)@,
                            state@,
                            panes_of(state.view),
                            size,
                            now,
                        );
                        &&& final(self)@ == next
                        &&& r == wait
                        &&& match told {
                            Some((pane, s)) => sent_to(
                                wishes(old(steps)@),
                                wishes(final(steps)@),
                                state@,
                                Some(pane),
                                Act::ClientSize(s),
                            ),
                            None => wishes(final(steps)@) == wishes(old(steps)@),
                        }
                    })
                },
    {
        let size = match Size::new(columns, rows) {
            Ok(size) => Some(size),
            Err(_) => None,
        };
        let ghost before = self@;
        assert(reported(before, state@, panes_of(state.view), size, now) == reported(
            before,
            state@,
            panes_of(state.view),
            size,
            now,
        ));
        if !state.input_ready() {
            return false;
        }
        let size = match size {
            Some(size) => size,
            None => {
                self.pending_client_cells = None;
                return false;
            },
        };
        if let Some(told) = self.client_cells {
            if told == size {
                self.pending_client_cells = None;
                return false;
            }
        }
        match self.pending_client_cells {
            Some((pending, at)) => {
                if pending != size {
                    self.pending_client_cells = Some((size, now));
                    return true;
                }
                if now < at || now - at < STABLE_MILLIS {
                    return true;
                }
            },
            None => {
                self.pending_client_cells = Some((size, now));
                return true;
            },
        }
        let pane = match self.focused {
            Some(pane) => Some(pane),
            None => match &state.view {
                Some(view) => find_first_pane(view.panes(), self.window),
                None => None,
            },
        };
        if let Some(pane) = pane {
            if let Some(target) = state.target(pane) {
                self.client_cells = Some(size);
                self.pending_client_cells = None;
                push_step(steps, Step::Send(target, Input::ClientSize(size)));
            }
        }
        false
    }

    /// A key event while the terminal has the keyboard: the answer is whether
    /// the pane is to be copied.
    pub fn typed(&mut self, state: &desktop::State, event: Event, steps: &mut Vec<Step>) -> (r: bool)
        ensures
            match old(self)@.focused {
                Some(pane) => if desktop::ready(state@) && desktop::has_pane(state@, pane) {
                    exists|target: Target| #[trigger]
                        current(state@, target) && target.spec_pane() == pane && ({
                            let (next, more, copy) = typed_at(old(self)@, target, event);
                            &&& final(self)@ == next
                            &&& wishes(final(steps)@) == wishes(old(steps)@) + more
                            &&& r == copy
                        })
                } else {
                    !r && final(self)@ == old(self)@ && wishes(final(steps)@) == wishes(
                        old(steps)@,
                    )
                },
                None => !r && final(self)@ == old(self)@ && wishes(final(steps)@) == wishes(
                    old(steps)@,
                ),
            },
    {
        let target = match self.focused_target(state) {
            Some(target) => target,
            None => return false,
        };
        let ghost before = wishes(steps@);
        let ghost more = typed_at(self@, target, event).1;
        match event {
            Event::Input(actions) => {
                let ghost all = actions@;
                let ghost acts = acts_of(all);
                let mut rest = actions;
                let ghost mut done: int = 0;
                proof {
                    assert(before =~= before + sends(target, acts.take(0)));
                    assert(rest@ =~= all.skip(0));
                }
                while rest.len() > 0
                    invariant
                        0 <= done <= all.len(),
                        rest@ == all.skip(done),
                        acts == acts_of(all),
                        wishes(steps@) == before + sends(target, acts.take(done)),
                    decreases rest.len(),
                {
                    let action = rest.remove(0);
                    push_step(steps, Step::Send(target, action));
                    proof {
                        assert(acts[done] == action@);
                        assert(acts.take(done + 1) =~= acts.take(done).push(acts[done]));
                        assert(sends(target, acts.take(done + 1)) =~= sends(
                            target,
                            acts.take(done),
                        ).push(Wish::Send(target, acts[done])));
                        assert(wishes(steps@) =~= before + sends(target, acts.take(done + 1)));
                        assert(rest@ =~= all.skip(done + 1));
                        done = done + 1;
                    }
                }
                proof {
                    assert(acts.take(done) =~= acts);
                }
                false
            },
            Event::Copy => {
                proof {
                    assert(before =~= before + more);
                }
                true
            },
            Event::Paste(paste) => {
                if paste.is_multiline() {
                    self.pending_paste = Some((target, paste));
                    proof {
                        assert(before =~= before + more);
                    }
                } else {
                    push_step(steps, Step::Send(target, Input::Paste(paste)));
                    proof {
                        assert(wishes(steps@) =~= before + more);
                    }
                }
                false
            },
            Event::RequestPaste => {
                push_step(steps, Step::RequestPaste(target));
                proof {
                    assert(wishes(steps@) =~= before + more);
                }
                false
            },
            Event::Refused(why) => {
                self.notice = Some(why);
                proof {
                    assert(before =~= before + more);
                }
                false
            },
        }
    }

    /// The answer to the question whether lines are to be pasted.
    pub fn confirm(&mut self, choice: Choice, steps: &mut Vec<Step>)
        ensures
            match (choice, old(self)@.pending) {
                (Choice::Cancel, _) => final(self)@ == (Front { pending: None, ..old(self)@ })
                    && wishes(final(steps)@) == wishes(old(steps)@),
                (Choice::Send, Some((target, text))) => final(self)@ == (Front {
                    pending: None,
                    ..old(self)@
                }) && wishes(final(steps)@) == wishes(old(steps)@).push(
                    Wish::Send(target, Act::Paste(text)),
                ),
                _ => final(self)@ == old(self)@ && wishes(final(steps)@) == wishes(old(steps)@),
            },
    {
        match choice {
            Choice::Wait => {},
            Choice::Cancel => {
                self.pending_paste = None;
            },
            Choice::Send => {
                if let Some((target, paste)) = self.pending_paste.take() {
                    push_step(steps, Step::Send(target, Input::Paste(paste)));
                }
            },
        }
    }

    /// End a frame of the panes. Every step is handed on, in order, or the user
    /// is told that none was.
    pub fn finish_terminal(&mut self, action: Action, steps: Vec<Step>) -> (r: Action)
        ensures
            if steps@.len() == 0 {
                r == action && final(self)@ == old(self)@
            } else if action is Idle {
                r == Action::Frame(steps) && final(self)@ == old(self)@
            } else {
                r == action && final(self)@ == (Front {
                    notice: Some(collided_text()),
                    ..old(self)@
                })
            },
    {
        if steps.len() == 0 {
            return action;
        }
        match action {
            Action::Idle => Action::Frame(steps),
            other => {
                self.notice = Some(
                    "Terminal input was not sent because this frame changed the connection instead. Nothing was retried.".to_owned(),
                );
                other
            },
        }
    }

    /// What goes to the clipboard when the pane is copied.
    pub fn copy_pane(&mut self, state: &desktop::State, selected: Option<String>) -> (r: Option<
        String,
    >)
        requires
            state.wf(),
        ensures
            match copied_text(old(self)@, state.view, opt_text(selected)) {
                Copied::NoPane => r is None && final(self)@ == (Front {
                    notice: Some("Click a pane first."@),
                    notice_until: None,
                    ..old(self)@
                }),
                Copied::Unreadable => r is None && final(self)@ == (Front {
                    notice: Some("A row shows half a character. Select the text to copy."@),
                    ..old(self)@
                }),
                Copied::Text(text) => if utf8_len(text) <= paint::MAX_COPY_BYTES {
                    opt_text(r) == Some(text) && final(self)@ == (Front {
                        notice: Some("Copied."@),
                        ..old(self)@
                    })
                } else {
                    r is None && final(self)@ == (Front {
                        notice: Some("Selection exceeds the 1 MiB clipboard limit."@),
                        ..old(self)@
                    })
                },
            },
    {
        let text = match (self.focused, &state.view) {
            (Some(id), Some(view)) => {
                proof {
                    snapshot::pane_index_facts(view.models().panes, id);
                }
                match view.pane(id) {
                    Some(pane) => match selected {
                        Some(text) => Some(text),
                        None => match pane.terminal.try_screen_lines() {
                            Some(ls) => Some(join_screen(&ls)),
                            None => {
                                self.notice = Some(
                                    "A row shows half a character. Select the text to copy.".to_owned(),
                                );
                                return None;
                            },
                        },
                    },
                    None => None,
                }
            },
            _ => None,
        };
        match text {
            None => {
                self.notice = Some("Click a pane first.".to_owned());
                self.notice_until = None;
                None
            },
            Some(text) => {
                let (fits, notice) = paint::copy(text.as_str());
                self.notice = Some(notice.to_owned());
                if fits {
                    Some(text)
                } else {
                    None
                }
            },
        }
    }

    pub fn status(&self, state: &desktop::State) -> (r: String)
        ensures
            r@ == status_text(self@, state@),
    {
        match &self.notice {
            Some(text) => text.clone(),
            None => if state.phase == Phase::Demo {
                "Local demo — no SSH connection".to_owned()
            } else if state.input_ready() {
                "Click a pane to type · Wheel to scroll · Drag to select · Right-click to copy".to_owned()
            } else {
                "Wheel to scroll · Drag to select · Right-click to copy".to_owned()
            },
        }
    }

    /// Whether a pane may be closed: the window has another one.
    pub fn can_kill(&self, state: &desktop::State) -> (r: bool)
        ensures
            r == (panes_in(panes_of(state.view), self@.window) > 1),
    {
        match &state.view {
            None => false,
            Some(view) => {
                let panes = view.panes();
                let mut count: usize = 0;
                let mut i: usize = 0;
                while i < panes.len()
                    invariant
                        i <= panes.len(),
                        count <= i,
                        count == panes_in(panes@.take(i as int), self@.window),
                    decreases panes.len() - i,
                {
                    proof {
                        assert(panes@.take(i + 1).drop_last() =~= panes@.take(i as int));
                    }
                    if let Some(id) = self.window {
                        if panes[i].state.window == id {
                            count += 1;
                        }
                    }
                    i += 1;
                }
                proof {
                    assert(panes@.take(i as int) =~= panes@);
                }
                count > 1
            },
        }
    }
}

/// The question before lines are pasted.
pub open spec fn question_text(text: Seq<char>) -> Seq<char> {
    "Send "@ + decimal(utf8_len(text)) + " bytes across "@ + decimal(lines(text).len()) + " lines?"@
}

pub fn paste_question(paste: &Paste) -> (r: String)
    ensures
        r@ == question_text(paste@),
{
    let text = paste.as_str();
    let chars = chars_of(text);
    let found = split_lines(chars.as_slice());
    proof {
        assert(rows(found@).len() == found@.len());
    }
    let mut out = "Send ".to_owned();
    push_decimal(&mut out, byte_len(text) as u64);
    out.append(" bytes across ");
    push_decimal(&mut out, found.len() as u64);
    out.append(" lines?");
    out
}

/// The beginning of a text that is about to be pasted.
pub fn paste_preview(paste: &Paste) -> (r: String)
    ensures
        r@ == if paste@.len() > PREVIEW_CHARS {
            paste@.take(PREVIEW_CHARS as int)
        } else {
            paste@
        },
{
    let chars = chars_of(paste.as_str());
    let n = if chars.len() > PREVIEW_CHARS {
        PREVIEW_CHARS
    } else {
        chars.len()
    };
    let front = slice_subrange(chars.as_slice(), 0, n);
    proof {
        assert(paste@.take(paste@.len() as int) =~= paste@);
        assert(front@ =~= paste@.take(n as int));
    }
    string_of(front)
}

/// A restored tab asks no host for anything by itself, whatever the connection
/// and the listing are.
pub proof fn restoring_contacts_nobody(
    f: Front,
    tab: TabFacts,
    d: Desk,
    discovery: Option<Discovery>,
    chosen: Option<Seq<char>>,
)
    ensures
        !lists(selecting(reopened(f, tab), chosen), d, discovery),
        reopened(f, tab).screen == Screen::Connection,
{
}

/// A view that was shown once does not take the form away again.
pub proof fn a_view_is_shown_once(
    f: Front,
    d: Desk,
    panes: Seq<snapshot::Pane>,
    failure: Option<Failure>,
)
    requires
        f.source == destination_of(f.form),
    ensures
        shown(at_form(laid_out(f, panes, d.generation)), d, failure).1 == Shown::Form,
{
    let g = laid_out(f, panes, d.generation);
    assert(g.generation == d.generation);
    assert(g.form == f.form && g.source == f.source);
}

/// Lines are never pasted unasked: an action that comes of the clipboard holds
/// one line, and goes to the view in which it was asked for.
pub proof fn lines_are_pasted_only_when_confirmed(
    f: Front,
    d: Desk,
    target: Target,
    text: Seq<char>,
)
    ensures
        clipped(f, d, target, text).1 matches Some(act) ==> current(d, target) && act == Act::Paste(
            text,
        ) && !multiline(text),
        clipped(f, d, target, text).1 is None ==> clipped(f, d, target, text).0.notice is Some
            || clipped(f, d, target, text).0.pending == Some((target, text)),
{
}

} // verus!
