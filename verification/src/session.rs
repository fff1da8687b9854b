//! The transaction that turns a batch of captures into a live view.
//!
//! A failed restore publishes nothing: the previous view stays for reading, and
//! the channel is aborted by its owner.
use vstd::prelude::*;
use vstd::string::*;

use crate::command::pane_text;
use crate::inspect;
use crate::order::{increasing, insert_ordered, place, place_facts, Keyed};
use crate::snapshot::{
    all_feedable, applied_all, inputs_of, restore_ops, suits, Op, budget_error, coherent, facts_of,
    facts_panes, last_repeats, model_of, models_of, output_of, pane_cells, pane_ids, pane_index,
    pane_index_facts, read_state, restore_inputs, session_cells, session_error, sorted_panes,
    takes_output, topology_is_never_guessed, validate_budget, view_error, Error as SnapshotError,
    Facts, Models, Pane, PaneModel, State, Status, MAX_HISTORY_LINES, MAX_PANES, STATE_FORMAT,
};
use crate::terminal::{feedable, is_feedable, kept_history, narrow, Shape};
use crate::text::{
    chars_of, decimal, find_char, first_index, is_text, pieces, push_decimal, rows, same, split_on,
    split_words, texts, words,
};
use crate::tmux::{Notification, PaneId, SessionId, WindowId};

verus! {

#[derive(Clone, Copy, Debug, PartialEq, Eq, Structural)]
pub enum Error {
    History,
    TooManyPanes,
    /// A command alias overrides this command, which the snapshot relies on.
    Alias(SnapshotCommand),
    /// This hook prevents a synchronous snapshot.
    Hook(SnapshotHook),
    /// A pane state that is not exactly one line.
    StateReply,
    Snapshot(SnapshotError),
    /// The panes are no longer those that were asked for.
    PaneChanged,
    DuplicateFinal,
    TopologyChanged,
    StateChanged,
    SessionChanged,
    /// Pane output came before the snapshot boundary.
    EarlyOutput,
    /// The client's metadata or the listing of its panes cannot be read.
    Inspect(inspect::Error),
}

/// What an error is shown as.
pub open spec fn error_text(error: Error) -> Seq<char> {
    match error {
        Error::History => "history exceeds budget"@,
        Error::TooManyPanes => "too many panes for live snapshot"@,
        Error::Alias(named) => "a command alias overrides snapshot command "@ + named.spec_name(),
        Error::Hook(named) => "configured "@ + named.spec_name() + " hook prevents a synchronous snapshot"@,
        Error::StateReply => "invalid pane-state reply"@,
        Error::Snapshot(inner) => crate::snapshot::error_text(inner),
        Error::PaneChanged => "pane identity changed during snapshot"@,
        Error::DuplicateFinal => "duplicate pane in final topology"@,
        Error::TopologyChanged => "topology changed during snapshot"@,
        Error::StateChanged => "state changed inside snapshot batch"@,
        Error::SessionChanged => "attached session changed during restore"@,
        Error::EarlyOutput => "pane output appeared before the snapshot boundary"@,
        Error::Inspect(inner) => crate::inspect::error_text(inner),
    }
}

impl Error {
    pub fn message(&self) -> (r: String)
        ensures
            r@ == error_text(*self),
    {
        match self {
            Error::History => "history exceeds budget".to_owned(),
            Error::TooManyPanes => "too many panes for live snapshot".to_owned(),
            Error::Alias(named) => {
                let mut out = "a command alias overrides snapshot command ".to_owned();
                out.append(named.name());
                out
            },
            Error::Hook(named) => {
                let mut out = "configured ".to_owned();
                out.append(named.name());
                out.append(" hook prevents a synchronous snapshot");
                out
            },
            Error::StateReply => "invalid pane-state reply".to_owned(),
            Error::Snapshot(inner) => inner.message(),
            Error::PaneChanged => "pane identity changed during snapshot".to_owned(),
            Error::DuplicateFinal => "duplicate pane in final topology".to_owned(),
            Error::TopologyChanged => "topology changed during snapshot".to_owned(),
            Error::StateChanged => "state changed inside snapshot batch".to_owned(),
            Error::SessionChanged => "attached session changed during restore".to_owned(),
            Error::EarlyOutput => "pane output appeared before the snapshot boundary".to_owned(),
            Error::Inspect(inner) => inner.message(),
        }
    }
}

/// The hooks that would yield inside of a snapshot.
#[derive(Clone, Copy, Debug, PartialEq, Eq, Structural)]
pub enum SnapshotHook {
    CapturePane,
    DisplayMessage,
    ListPanes,
    RefreshClient,
}

impl SnapshotHook {
    pub open spec fn spec_name(self) -> Seq<char> {
        match self {
            SnapshotHook::CapturePane => "after-capture-pane"@,
            SnapshotHook::DisplayMessage => "after-display-message"@,
            SnapshotHook::ListPanes => "after-list-panes"@,
            SnapshotHook::RefreshClient => "after-refresh-client"@,
        }
    }

    pub fn name(&self) -> (r: &'static str)
        ensures
            r@ == self.spec_name(),
    {
        match self {
            SnapshotHook::CapturePane => "after-capture-pane",
            SnapshotHook::DisplayMessage => "after-display-message",
            SnapshotHook::ListPanes => "after-list-panes",
            SnapshotHook::RefreshClient => "after-refresh-client",
        }
    }
}

/// The commands that a snapshot relies on.
#[derive(Clone, Copy, Debug, PartialEq, Eq, Structural)]
pub enum SnapshotCommand {
    CapturePane,
    DisplayMessage,
    ListPanes,
    RefreshClient,
    ShowHooks,
    ShowOptions,
}

impl SnapshotCommand {
    pub open spec fn spec_name(self) -> Seq<char> {
        match self {
            SnapshotCommand::CapturePane => "capture-pane"@,
            SnapshotCommand::DisplayMessage => "display-message"@,
            SnapshotCommand::ListPanes => "list-panes"@,
            SnapshotCommand::RefreshClient => "refresh-client"@,
            SnapshotCommand::ShowHooks => "show-hooks"@,
            SnapshotCommand::ShowOptions => "show-options"@,
        }
    }

    pub fn name(&self) -> (r: &'static str)
        ensures
            r@ == self.spec_name(),
    {
        match self {
            SnapshotCommand::CapturePane => "capture-pane",
            SnapshotCommand::DisplayMessage => "display-message",
            SnapshotCommand::ListPanes => "list-panes",
            SnapshotCommand::RefreshClient => "refresh-client",
            SnapshotCommand::ShowHooks => "show-hooks",
            SnapshotCommand::ShowOptions => "show-options",
        }
    }
}

/// What the attachment may do.
#[derive(Clone, Copy, Debug, PartialEq, Eq, Structural)]
pub enum Access {
    ReadOnly,
    Interactive,
}

pub open spec fn window_text(window: WindowId) -> Seq<char> {
    seq!['@'] + decimal(window.0 as nat)
}

pub open spec fn session_text(session: SessionId) -> Seq<char> {
    seq!['$'] + decimal(session.0 as nat)
}

fn push_pane(out: &mut String, pane: PaneId)
    ensures
        final(out)@ == old(out)@ + pane_text(pane),
{
    out.push('%');
    push_decimal(out, pane.0 as u64);
    assert(out@ =~= old(out)@ + pane_text(pane));
}

/// The state of one pane, then its screen with history, its saved screen, and
/// the bytes of an unfinished escape sequence. Wrapped lines are joined, and a
/// missing saved screen is an empty capture.
pub open spec fn pane_commands(pane: PaneId, history: nat) -> Seq<Seq<char>> {
    seq![
        "display-message -p -t "@ + pane_text(pane) + " '"@ + STATE_FORMAT@ + "'"@,
        "capture-pane -p -e -C -J -N -t "@ + pane_text(pane) + " -S -"@ + decimal(history)
            + " -E -"@,
        "capture-pane -p -a -q -e -C -J -N -t "@ + pane_text(pane) + " -S -"@ + decimal(history)
            + " -E -"@,
        "capture-pane -p -P -C -t "@ + pane_text(pane),
    ]
}

pub open spec fn all_pane_commands(panes: Seq<PaneId>, history: nat) -> Seq<Seq<char>>
    decreases panes.len(),
{
    if panes.len() == 0 {
        seq![]
    } else {
        all_pane_commands(panes.drop_last(), history) + pane_commands(panes.last(), history)
    }
}

/// The commands of a snapshot. The reply to the last one is the boundary between
/// snapshot and live output.
pub open spec fn snapshot_texts(panes: Seq<PaneId>, history: nat) -> Seq<Seq<char>> {
    all_pane_commands(panes, history) + seq![
        "list-panes -s -F '"@ + STATE_FORMAT@ + "'"@,
        "display-message -p '#{session_id}'"@,
        "refresh-client -f '!no-output'"@,
    ]
}

fn push_string(out: &mut Vec<String>, text: String)
    ensures
        texts(final(out)@) == texts(old(out)@).push(text@),
{
    let ghost before = out@;
    let ghost shown = text@;
    out.push(text);
    assert(texts(out@) =~= texts(before).push(shown));
}

fn push_literal(out: &mut Vec<String>, text: &str)
    ensures
        texts(final(out)@) == texts(old(out)@).push(text@),
{
    push_string(out, text.to_owned());
}

fn push_capture(out: &mut Vec<String>, command: &str, pane: PaneId, history: usize)
    ensures
        texts(final(out)@) == texts(old(out)@).push(
            command@ + pane_text(pane) + " -S -"@ + decimal(history as nat) + " -E -"@,
        ),
{
    let mut text = String::new();
    text.append(command);
    push_pane(&mut text, pane);
    text.append(" -S -");
    push_decimal(&mut text, history as u64);
    text.append(" -E -");
    assert(text@ =~= command@ + pane_text(pane) + " -S -"@ + decimal(history as nat) + " -E -"@);
    push_string(out, text);
}

pub fn snapshot_commands(panes: &[PaneId], history: usize) -> (r: Vec<String>)
    ensures
        texts(r@) == snapshot_texts(panes@, history as nat),
{
    let mut commands: Vec<String> = Vec::new();
    let mut i: usize = 0;
    assert(texts(commands@) =~= all_pane_commands(panes@.take(0), history as nat));
    while i < panes.len()
        invariant
            i <= panes@.len(),
            texts(commands@) == all_pane_commands(panes@.take(i as int), history as nat),
        decreases panes@.len() - i,
    {
        let pane = panes[i];
        let ghost before = texts(commands@);
        let mut state = String::new();
        state.append("display-message -p -t ");
        push_pane(&mut state, pane);
        state.append(" '");
        state.append(STATE_FORMAT);
        state.append("'");
        push_string(&mut commands, state);
        push_capture(&mut commands, "capture-pane -p -e -C -J -N -t ", pane, history);
        push_capture(&mut commands, "capture-pane -p -a -q -e -C -J -N -t ", pane, history);
        let mut pending = String::new();
        pending.append("capture-pane -p -P -C -t ");
        push_pane(&mut pending, pane);
        push_string(&mut commands, pending);
        i += 1;
        proof {
            assert(panes@.take(i as int).drop_last() =~= panes@.take(i - 1));
            assert(texts(commands@) =~= before + pane_commands(pane, history as nat));
        }
    }
    assert(panes@.take(i as int) =~= panes@);
    let mut list = String::new();
    list.append("list-panes -s -F '");
    list.append(STATE_FORMAT);
    list.append("'");
    push_string(&mut commands, list);
    push_literal(&mut commands, "display-message -p '#{session_id}'");
    push_literal(&mut commands, "refresh-client -f '!no-output'");
    assert(texts(commands@) =~= snapshot_texts(panes@, history as nat));
    commands
}

pub proof fn pane_commands_count(panes: Seq<PaneId>, history: nat)
    ensures
        all_pane_commands(panes, history).len() == 4 * panes.len(),
    decreases panes.len(),
{
    if panes.len() > 0 {
        pane_commands_count(panes.drop_last(), history);
    }
}

/// The last command of every snapshot switches output back on, and no command
/// before it does.
pub proof fn output_resumes_last(panes: Seq<PaneId>, history: nat)
    ensures
        snapshot_texts(panes, history).len() == 4 * panes.len() + 3,
        snapshot_texts(panes, history).last() == "refresh-client -f '!no-output'"@,
        forall|i: int|
            0 <= i < snapshot_texts(panes, history).len() - 1 ==> #[trigger] snapshot_texts(
                panes,
                history,
            )[i] != "refresh-client -f '!no-output'"@,
{
    pane_commands_count(panes, history);
    reveal_strlit("refresh-client -f '!no-output'");
    reveal_strlit("list-panes -s -F '");
    reveal_strlit("display-message -p '#{session_id}'");
    pane_commands_start(panes, history);
    let all = snapshot_texts(panes, history);
    assert forall|i: int| 0 <= i < all.len() - 1 implies #[trigger] all[i]
        != "refresh-client -f '!no-output'"@ by {
        if i < 4 * panes.len() {
            assert(all[i] == all_pane_commands(panes, history)[i]);
        } else if i == 4 * panes.len() {
            assert(all[i][0] == 'l');
        } else {
            assert(all[i][0] == 'd');
        }
    }
}

proof fn pane_commands_start(panes: Seq<PaneId>, history: nat)
    ensures
        forall|i: int|
            0 <= i < all_pane_commands(panes, history).len() ==> {
                let c = #[trigger] all_pane_commands(panes, history)[i];
                c.len() > 0 && (c[0] == 'd' || c[0] == 'c')
            },
    decreases panes.len(),
{
    if panes.len() > 0 {
        pane_commands_start(panes.drop_last(), history);
        reveal_strlit("display-message -p -t ");
        reveal_strlit("capture-pane -p -e -C -J -N -t ");
        reveal_strlit("capture-pane -p -a -q -e -C -J -N -t ");
        reveal_strlit("capture-pane -p -P -C -t ");
        let all = all_pane_commands(panes, history);
        let head = all_pane_commands(panes.drop_last(), history);
        let last = pane_commands(panes.last(), history);
        assert forall|i: int| 0 <= i < all.len() implies {
            let c = #[trigger] all[i];
            c.len() > 0 && (c[0] == 'd' || c[0] == 'c')
        } by {
            if i < head.len() {
                assert(all[i] == head[i]);
            } else {
                assert(all[i] == last[i - head.len()]);
            }
        }
    }
}

/// The hook with this name, where it would yield inside of a snapshot.
pub open spec fn hook_named(name: Seq<char>) -> Option<SnapshotHook> {
    if name == SnapshotHook::CapturePane.spec_name() {
        Some(SnapshotHook::CapturePane)
    } else if name == SnapshotHook::DisplayMessage.spec_name() {
        Some(SnapshotHook::DisplayMessage)
    } else if name == SnapshotHook::ListPanes.spec_name() {
        Some(SnapshotHook::ListPanes)
    } else if name == SnapshotHook::RefreshClient.spec_name() {
        Some(SnapshotHook::RefreshClient)
    } else {
        None
    }
}

/// The hook that a line of `show-hooks` is about.
pub open spec fn hook_name(line: Seq<char>) -> Seq<char> {
    if words(line).len() == 0 {
        seq![]
    } else {
        pieces(words(line)[0], '[')[0]
    }
}

/// The configured hook that a line shows. One without a command is shown by its
/// bare name.
pub open spec fn blocking_hook(line: Seq<char>) -> Option<SnapshotHook> {
    if line == hook_name(line) {
        None
    } else {
        hook_named(hook_name(line))
    }
}

/// The first configured hook of a reply.
pub open spec fn first_hook(lines: Seq<Seq<char>>) -> Option<SnapshotHook>
    decreases lines.len(),
{
    if lines.len() == 0 {
        None
    } else {
        match first_hook(lines.drop_last()) {
            Some(hook) => Some(hook),
            None => blocking_hook(lines.last()),
        }
    }
}

proof fn first_hook_stays(lines: Seq<Seq<char>>, n: int)
    requires
        0 <= n <= lines.len(),
        first_hook(lines.take(n)) is Some,
    ensures
        first_hook(lines) == first_hook(lines.take(n)),
    decreases lines.len(),
{
    if n == lines.len() {
        assert(lines.take(n) =~= lines);
    } else {
        assert(lines.drop_last().take(n) =~= lines.take(n));
        first_hook_stays(lines.drop_last(), n);
    }
}

fn read_hook(line: &str) -> (r: Option<SnapshotHook>)
    ensures
        r == blocking_hook(line@),
{
    let chars = chars_of(line);
    let found = split_words(chars.as_slice());
    if found.len() == 0 {
        assert(words(line@).len() == 0);
        proof {
            hooks_have_names();
        }
        return None;
    }
    assert(rows(found@)[0] == found@[0]@);
    let parts = split_on(found[0].as_slice(), '[');
    assert(rows(parts@)[0] == parts@[0]@);
    let hook = parts[0].as_slice();
    if same(chars.as_slice(), hook) {
        None
    } else if is_text(hook, SnapshotHook::CapturePane.name()) {
        Some(SnapshotHook::CapturePane)
    } else if is_text(hook, SnapshotHook::DisplayMessage.name()) {
        Some(SnapshotHook::DisplayMessage)
    } else if is_text(hook, SnapshotHook::ListPanes.name()) {
        Some(SnapshotHook::ListPanes)
    } else if is_text(hook, SnapshotHook::RefreshClient.name()) {
        Some(SnapshotHook::RefreshClient)
    } else {
        None
    }
}

proof fn hooks_have_names()
    ensures
        hook_named(seq![]) is None,
{
    reveal_strlit("after-capture-pane");
    reveal_strlit("after-display-message");
    reveal_strlit("after-list-panes");
    reveal_strlit("after-refresh-client");
    assert("after-capture-pane"@.len() > 0);
    assert("after-display-message"@.len() > 0);
    assert("after-list-panes"@.len() > 0);
    assert("after-refresh-client"@.len() > 0);
    assert(Seq::<char>::empty().len() == 0);
}

/// User hooks can yield between otherwise synchronous commands. Reject known
/// hazards rather than silently claiming a coherent snapshot.
pub fn reject_snapshot_hooks(lines: &[String]) -> (r: Result<(), Error>)
    ensures
        r == match first_hook(texts(lines@)) {
            Some(hook) => Err::<(), Error>(Error::Hook(hook)),
            None => Ok(()),
        },
{
    let ghost all = texts(lines@);
    let mut i: usize = 0;
    while i < lines.len()
        invariant
            i <= lines@.len(),
            all == texts(lines@),
            first_hook(all.take(i as int)) is None,
        decreases lines@.len() - i,
    {
        assert(all.take(i + 1).drop_last() =~= all.take(i as int));
        assert(all.take(i + 1).last() == lines@[i as int]@);
        match read_hook(lines[i].as_str()) {
            Some(hook) => {
                proof {
                    first_hook_stays(all, i + 1);
                }
                return Err(Error::Hook(hook));
            },
            None => {},
        }
        i += 1;
    }
    assert(all.take(i as int) =~= all);
    Ok(())
}

/// The command with this name, where a snapshot relies on it.
pub open spec fn command_named(name: Seq<char>) -> Option<SnapshotCommand> {
    if name == SnapshotCommand::CapturePane.spec_name() {
        Some(SnapshotCommand::CapturePane)
    } else if name == SnapshotCommand::DisplayMessage.spec_name() {
        Some(SnapshotCommand::DisplayMessage)
    } else if name == SnapshotCommand::ListPanes.spec_name() {
        Some(SnapshotCommand::ListPanes)
    } else if name == SnapshotCommand::RefreshClient.spec_name() {
        Some(SnapshotCommand::RefreshClient)
    } else if name == SnapshotCommand::ShowHooks.spec_name() {
        Some(SnapshotCommand::ShowHooks)
    } else if name == SnapshotCommand::ShowOptions.spec_name() {
        Some(SnapshotCommand::ShowOptions)
    } else {
        None
    }
}

/// The command that an alias overrides, where a snapshot relies on it.
pub open spec fn blocking_alias(alias: Seq<char>) -> Option<SnapshotCommand> {
    if first_index(alias, '=') < alias.len() {
        command_named(alias.take(first_index(alias, '=')))
    } else {
        None
    }
}

/// The first such command of a list of aliases.
pub open spec fn first_alias(aliases: Seq<Seq<char>>) -> Option<SnapshotCommand>
    decreases aliases.len(),
{
    if aliases.len() == 0 {
        None
    } else {
        match first_alias(aliases.drop_last()) {
            Some(command) => Some(command),
            None => blocking_alias(aliases.last()),
        }
    }
}

proof fn first_alias_stays(aliases: Seq<Seq<char>>, n: int)
    requires
        0 <= n <= aliases.len(),
        first_alias(aliases.take(n)) is Some,
    ensures
        first_alias(aliases) == first_alias(aliases.take(n)),
    decreases aliases.len(),
{
    if n == aliases.len() {
        assert(aliases.take(n) =~= aliases);
    } else {
        assert(aliases.drop_last().take(n) =~= aliases.take(n));
        first_alias_stays(aliases.drop_last(), n);
    }
}

fn read_alias(alias: &str) -> (r: Option<SnapshotCommand>)
    ensures
        r == blocking_alias(alias@),
{
    let chars = chars_of(alias);
    let at = find_char(chars.as_slice(), '=');
    if at >= chars.len() {
        return None;
    }
    let name = vstd::slice::slice_subrange(chars.as_slice(), 0, at);
    assert(name@ =~= chars@.take(at as int));
    if is_text(name, SnapshotCommand::CapturePane.name()) {
        Some(SnapshotCommand::CapturePane)
    } else if is_text(name, SnapshotCommand::DisplayMessage.name()) {
        Some(SnapshotCommand::DisplayMessage)
    } else if is_text(name, SnapshotCommand::ListPanes.name()) {
        Some(SnapshotCommand::ListPanes)
    } else if is_text(name, SnapshotCommand::RefreshClient.name()) {
        Some(SnapshotCommand::RefreshClient)
    } else if is_text(name, SnapshotCommand::ShowHooks.name()) {
        Some(SnapshotCommand::ShowHooks)
    } else if is_text(name, SnapshotCommand::ShowOptions.name()) {
        Some(SnapshotCommand::ShowOptions)
    } else {
        None
    }
}

pub fn reject_aliases(aliases: &[String]) -> (r: Result<(), Error>)
    ensures
        r == match first_alias(texts(aliases@)) {
            Some(command) => Err::<(), Error>(Error::Alias(command)),
            None => Ok(()),
        },
{
    let ghost all = texts(aliases@);
    let mut i: usize = 0;
    while i < aliases.len()
        invariant
            i <= aliases@.len(),
            all == texts(aliases@),
            first_alias(all.take(i as int)) is None,
        decreases aliases@.len() - i,
    {
        assert(all.take(i + 1).drop_last() =~= all.take(i as int));
        assert(all.take(i + 1).last() == aliases@[i as int]@);
        match read_alias(aliases[i].as_str()) {
            Some(command) => {
                proof {
                    first_alias_stays(all, i + 1);
                }
                return Err(Error::Alias(command));
            },
            None => {},
        }
        i += 1;
    }
    assert(all.take(i as int) =~= all);
    Ok(())
}

impl Keyed for WindowId {
    open spec fn key(self) -> int {
        self.0 as int
    }

    fn get_key(&self) -> (r: u64) {
        self.0 as u64
    }
}

/// Exactly the windows of the panes, in order, each once.
pub open spec fn windows_of(windows: Seq<WindowId>, panes: Seq<inspect::Pane>) -> bool {
    &&& increasing(windows)
    &&& forall|i: int| 0 <= i < panes.len() ==> windows.contains((#[trigger] panes[i]).window)
    &&& forall|k: int|
        0 <= k < windows.len() ==> exists|i: int|
            0 <= i < panes.len() && (#[trigger] panes[i]).window == #[trigger] windows[k]
}

fn collect_windows(panes: &[inspect::Pane]) -> (r: Vec<WindowId>)
    ensures
        windows_of(r@, panes@),
{
    let mut windows: Vec<WindowId> = Vec::new();
    let mut i: usize = 0;
    while i < panes.len()
        invariant
            i <= panes@.len(),
            windows_of(windows@, panes@.take(i as int)),
        decreases panes@.len() - i,
    {
        let ghost before = windows@;
        let ghost seen = panes@.take(i as int);
        let window = panes[i].window;
        insert_ordered(&mut windows, window);
        i += 1;
        proof {
            let now = panes@.take(i as int);
            assert(now[i - 1].window == window);
            place_facts(before, window.key());
            let at = place(before, window.key());
            assert forall|k: int| 0 <= k < now.len() implies windows@.contains(
                (#[trigger] now[k]).window,
            ) by {
                if k < i - 1 {
                    assert(seen[k] == now[k]);
                    assert(before.contains(seen[k].window));
                    let z = choose|z: int| 0 <= z < before.len() && before[z] == seen[k].window;
                    if windows@ != before {
                        assert(windows@[if z < at {
                            z
                        } else {
                            z + 1
                        }] == before[z]);
                    }
                } else if windows@ == before {
                    let z = choose|z: int|
                        0 <= z < before.len() && (#[trigger] before[z]).key() == window.key();
                    assert(before[z] == window);
                } else {
                    assert(windows@[at] == window);
                }
            }
            assert forall|k: int| 0 <= k < windows@.len() implies exists|m: int|
                0 <= m < now.len() && (#[trigger] now[m]).window == #[trigger] windows@[k] by {
                if windows@ != before && k == at {
                    assert(now[i - 1].window == windows@[k]);
                } else {
                    let z = if windows@ != before && k > at {
                        k - 1
                    } else {
                        k
                    };
                    assert(windows@[k] == before[z]);
                    let m = choose|m: int|
                        0 <= m < seen.len() && (#[trigger] seen[m]).window == before[z];
                    assert(now[m] == seen[m]);
                }
            }
        }
    }
    assert(panes@.take(i as int) =~= panes@);
    windows
}

pub open spec fn window_hooks(windows: Seq<WindowId>) -> Seq<Seq<char>> {
    windows.map_values(|w: WindowId| "show-hooks -w -t "@ + window_text(w))
}

pub open spec fn pane_hooks(panes: Seq<inspect::Pane>) -> Seq<Seq<char>> {
    panes.map_values(|p: inspect::Pane| "show-hooks -p -t "@ + pane_text(p.id))
}

/// The commands that show every hook that a snapshot could run into.
pub open spec fn hook_commands(
    session: SessionId,
    windows: Seq<WindowId>,
    panes: Seq<inspect::Pane>,
) -> Seq<Seq<char>> {
    seq![
        "show-hooks -g"@,
        "show-hooks -gw"@,
        "show-hooks -t '"@ + session_text(session) + "'"@,
    ] + window_hooks(windows) + pane_hooks(panes)
}

pub fn environment_commands(session: SessionId, panes: &[inspect::Pane]) -> (r: Vec<String>)
    ensures
        exists|windows: Seq<WindowId>|
            windows_of(windows, panes@) && texts(r@) == #[trigger] hook_commands(
                session,
                windows,
                panes@,
            ),
{
    let windows = collect_windows(panes);
    let mut commands: Vec<String> = Vec::new();
    assert(texts(commands@) =~= Seq::<Seq<char>>::empty());
    push_literal(&mut commands, "show-hooks -g");
    push_literal(&mut commands, "show-hooks -gw");
    let mut text = String::new();
    text.append("show-hooks -t '");
    text.push('$');
    push_decimal(&mut text, session.0 as u64);
    text.append("'");
    assert(text@ =~= "show-hooks -t '"@ + session_text(session) + "'"@);
    push_string(&mut commands, text);
    let ghost start = texts(commands@);
    let mut i: usize = 0;
    assert(start + window_hooks(windows@.take(0)) =~= start);
    while i < windows.len()
        invariant
            i <= windows@.len(),
            texts(commands@) == start + window_hooks(windows@.take(i as int)),
        decreases windows@.len() - i,
    {
        let mut text = String::new();
        text.append("show-hooks -w -t ");
        text.push('@');
        push_decimal(&mut text, windows[i].0 as u64);
        assert(text@ =~= "show-hooks -w -t "@ + window_text(windows@[i as int]));
        push_string(&mut commands, text);
        i += 1;
        assert(texts(commands@) =~= start + window_hooks(windows@.take(i as int)));
    }
    assert(windows@.take(i as int) =~= windows@);
    let ghost middle = texts(commands@);
    let mut j: usize = 0;
    assert(middle + pane_hooks(panes@.take(0)) =~= middle);
    while j < panes.len()
        invariant
            j <= panes@.len(),
            texts(commands@) == middle + pane_hooks(panes@.take(j as int)),
        decreases panes@.len() - j,
    {
        let mut text = String::new();
        text.append("show-hooks -p -t ");
        push_pane(&mut text, panes[j].id);
        push_string(&mut commands, text);
        j += 1;
        assert(texts(commands@) =~= middle + pane_hooks(panes@.take(j as int)));
    }
    assert(panes@.take(j as int) =~= panes@);
    assert(texts(commands@) =~= hook_commands(session, windows@, panes@));
    commands
}

/// The states that the first reply for each of so many panes gives.
pub open spec fn read_states(replies: Seq<Seq<Seq<char>>>, n: nat) -> Result<Seq<Facts>, Error>
    decreases n,
{
    if n == 0 {
        Ok(seq![])
    } else {
        match read_states(replies, (n - 1) as nat) {
            Err(error) => Err(error),
            Ok(states) => if replies[4 * (n - 1)].len() != 1 {
                Err(Error::StateReply)
            } else {
                match read_state(replies[4 * (n - 1)][0]) {
                    Err(error) => Err(Error::Snapshot(error)),
                    Ok(facts) => Ok(states.push(facts)),
                }
            },
        }
    }
}

/// The states of the closing listing, none of them twice.
pub open spec fn read_final(lines: Seq<Seq<char>>) -> Result<Seq<Facts>, Error>
    decreases lines.len(),
{
    if lines.len() == 0 {
        Ok(seq![])
    } else {
        match read_final(lines.drop_last()) {
            Err(error) => Err(error),
            Ok(states) => match read_state(lines.last()) {
                Err(error) => Err(Error::Snapshot(error)),
                Ok(facts) => if facts_panes(states).contains(facts.pane) {
                    Err(Error::DuplicateFinal)
                } else {
                    Ok(states.push(facts))
                },
            },
        }
    }
}

/// The models that the captures of so many panes give.
pub open spec fn read_models(
    states: Seq<Facts>,
    replies: Seq<Seq<Seq<char>>>,
    history: nat,
    n: nat,
) -> Result<Seq<PaneModel>, Error>
    decreases n,
{
    if n == 0 {
        Ok(seq![])
    } else {
        match read_models(states, replies, history, (n - 1) as nat) {
            Err(error) => Err(error),
            Ok(models) => match restored_inputs(states, replies, n - 1) {
                Err(error) => Err(Error::Snapshot(error)),
                Ok(inputs) => Ok(
                    models.push(restored_model(states[n - 1], history, inputs)),
                ),
            },
        }
    }
}

pub open spec fn restored_inputs(
    states: Seq<Facts>,
    replies: Seq<Seq<Seq<char>>>,
    i: int,
) -> Result<Seq<crate::terminal::Input>, SnapshotError> {
    restore_inputs(states[i], replies[4 * i + 1], replies[4 * i + 2], replies[4 * i + 3])
}

#[verifier::opaque]
pub open spec fn restored_model(
    facts: Facts,
    history: nat,
    inputs: Seq<crate::terminal::Input>,
) -> PaneModel {
    let kept = kept_history(facts.columns as int, facts.rows as int, history as int) as nat;
    PaneModel {
        facts,
        shape: Shape { columns: facts.columns, rows: facts.rows, history: kept },
        inputs,
        truncated: facts.alternate || facts.history_size > kept,
    }
}

/// The panes asked for, described by these states.
pub open spec fn identified(states: Seq<Facts>, ids: Seq<PaneId>) -> bool {
    forall|i: int| 0 <= i < ids.len() ==> (#[trigger] states[i]).pane == ids[i].0
}

/// The states that a batch of replies agrees on, or the first thing that is
/// wrong with it: the panes are still those that were asked for, they fit the
/// budget, the closing listing repeats their states, and the session is the
/// same.
pub open spec fn read_checked(
    session: SessionId,
    ids: Seq<PaneId>,
    history: nat,
    replies: Seq<Seq<Seq<char>>>,
) -> Result<Seq<Facts>, Error> {
    let n = ids.len() as int;
    match read_states(replies, ids.len()) {
        Err(error) => Err(error),
        Ok(states) => if !identified(states, ids) {
            Err(Error::PaneChanged)
        } else {
            match session_error(states, history as int) {
                Some(error) => Err(Error::Snapshot(error)),
                None => match read_final(replies[4 * n]) {
                    Err(error) => Err(error),
                    Ok(finals) => if finals.len() != states.len() {
                        Err(Error::TopologyChanged)
                    } else if exists|i: int|
                        0 <= i < states.len() && !finals.contains(#[trigger] states[i]) {
                        Err(Error::StateChanged)
                    } else if replies[4 * n + 1].len() != 1 || replies[4 * n + 1][0]
                        != session_text(session) {
                        Err(Error::SessionChanged)
                    } else {
                        Ok(states)
                    },
                },
            }
        },
    }
}

/// The models that a batch of replies gives.
pub open spec fn read_batch(
    session: SessionId,
    ids: Seq<PaneId>,
    history: nat,
    replies: Seq<Seq<Seq<char>>>,
) -> Result<Seq<PaneModel>, Error> {
    match read_checked(session, ids, history, replies) {
        Err(error) => Err(error),
        Ok(states) => read_models(states, replies, history, ids.len()),
    }
}

/// Pane output before the boundary.
pub open spec fn early_output(notes: Seq<(usize, Notification)>, boundary: nat) -> bool {
    exists|i: int|
        0 <= i < notes.len() && (#[trigger] notes[i]).0 < boundary && output_of(notes[i].1) is Some
}

/// The notifications from the boundary on.
pub open spec fn live_notes(notes: Seq<(usize, Notification)>, boundary: nat) -> Seq<Notification>
    decreases notes.len(),
{
    if notes.len() == 0 {
        seq![]
    } else if notes.last().0 < boundary {
        live_notes(notes.drop_last(), boundary)
    } else {
        live_notes(notes.drop_last(), boundary).push(notes.last().1)
    }
}

/// The same models in the order of their numbers.
pub open spec fn arranged(panes: Seq<PaneModel>, models: Seq<PaneModel>) -> bool {
    &&& panes.len() == models.len()
    &&& forall|i: int| 0 <= i < models.len() ==> panes.contains(#[trigger] models[i])
    &&& forall|i: int, j: int|
        0 <= i < j < panes.len() ==> (#[trigger] panes[i]).facts.pane < (
        #[trigger] panes[j]).facts.pane
}

/// Every output for a pane is narrow.
pub open spec fn narrow_outputs(notes: Seq<(usize, Notification)>, pane: nat) -> bool {
    forall|k: int|
        0 <= k < notes.len() ==> (output_of((#[trigger] notes[k]).1) matches Some((target, bytes))
            ==> target.0 == pane ==> narrow(bytes))
}

/// Panes of a single column are given no character that takes up more.
pub open spec fn narrow_panes_fit(
    n: nat,
    replies: Seq<Seq<Seq<char>>>,
    notes: Seq<(usize, Notification)>,
) -> bool {
    read_states(replies, n) matches Ok(states) ==> forall|i: int|
        0 <= i < n ==> (#[trigger] states[i]).columns >= 2 || (narrow_outputs(
            notes,
            states[i].pane,
        ) && (restored_inputs(states, replies, i) matches Ok(inputs) ==> all_feedable(
            states[i].columns as int,
            inputs,
        )))
}

proof fn states_prefix(replies: Seq<Seq<Seq<char>>>, k: nat, n: nat)
    requires
        k <= n,
    ensures
        read_states(replies, k) is Err ==> read_states(replies, n) == read_states(replies, k),
        read_states(replies, n) matches Ok(states) ==> states.len() == n && read_states(replies, k)
            == Ok::<Seq<Facts>, Error>(states.take(k as int)) && forall|i: int|
            0 <= i < n ==> coherent(#[trigger] states[i]),
    decreases n,
{
    if n > 0 {
        if k < n {
            states_prefix(replies, k, (n - 1) as nat);
        } else {
            states_prefix(replies, (n - 1) as nat, (n - 1) as nat);
        }
        if let Ok(states) = read_states(replies, n) {
            let before = read_states(replies, (n - 1) as nat)->Ok_0;
            crate::snapshot::parsed_states_are_coherent(replies[4 * (n - 1)][0]);
            assert(states =~= before.push(states.last()));
            assert(states.take(k as int) =~= if k < n {
                before.take(k as int)
            } else {
                states
            });
            assert forall|i: int| 0 <= i < n implies coherent(#[trigger] states[i]) by {
                if i < n - 1 {
                    assert(states[i] == before[i]);
                }
            }
        }
    } else if let Ok(states) = read_states(replies, n) {
        assert(states.take(0) =~= states);
    }
}

fn parse_states(replies: &Vec<Vec<String>>, n: usize) -> (r: Result<Vec<State>, Error>)
    requires
        4 * n <= replies@.len(),
    ensures
        match read_states(inspect::reply_texts(replies@), n as nat) {
            Ok(states) => r matches Ok(v) && facts_of(v@) == states,
            Err(error) => r == Err::<Vec<State>, Error>(error),
        },
{
    let ghost all = inspect::reply_texts(replies@);
    let count = replies.len();
    let mut states: Vec<State> = Vec::new();
    let mut i: usize = 0;
    assert(facts_of(states@) =~= Seq::<Facts>::empty());
    while i < n
        invariant
            i <= n,
            count == replies@.len(),
            4 * n <= replies@.len(),
            all == inspect::reply_texts(replies@),
            read_states(all, i as nat) == Ok::<Seq<Facts>, Error>(facts_of(states@)),
        decreases n - i,
    {
        proof {
            states_prefix(all, (i + 1) as nat, n as nat);
            assert(all[4 * i as int] == texts(replies@[4 * i as int]@));
        }
        let reply = &replies[4 * i];
        if reply.len() != 1 {
            return Err(Error::StateReply);
        }
        assert(texts(reply@)[0] == reply@[0]@);
        match State::parse(reply[0].as_str()) {
            Ok(state) => {
                let ghost before = states@;
                let ghost shown = state@;
                states.push(state);
                assert(facts_of(states@) =~= facts_of(before).push(shown));
            },
            Err(error) => return Err(Error::Snapshot(error)),
        }
        i += 1;
    }
    Ok(states)
}

proof fn final_prefix(lines: Seq<Seq<char>>, n: int)
    requires
        0 <= n <= lines.len(),
    ensures
        read_final(lines.take(n)) is Err ==> read_final(lines) == read_final(lines.take(n)),
    decreases lines.len() - n,
{
    if n == lines.len() {
        assert(lines.take(n) =~= lines);
    } else {
        final_prefix(lines, n + 1);
        assert(lines.take(n + 1).drop_last() =~= lines.take(n));
    }
}

fn parse_final(lines: &Vec<String>) -> (r: Result<Vec<State>, Error>)
    ensures
        match read_final(texts(lines@)) {
            Ok(states) => r matches Ok(v) && facts_of(v@) == states,
            Err(error) => r == Err::<Vec<State>, Error>(error),
        },
{
    let ghost all = texts(lines@);
    let mut states: Vec<State> = Vec::new();
    let mut i: usize = 0;
    assert(facts_of(states@) =~= Seq::<Facts>::empty());
    assert(all.take(0) =~= Seq::<Seq<char>>::empty());
    while i < lines.len()
        invariant
            i <= lines@.len(),
            all == texts(lines@),
            read_final(all.take(i as int)) == Ok::<Seq<Facts>, Error>(facts_of(states@)),
        decreases lines@.len() - i,
    {
        let ghost head = all.take(i + 1);
        proof {
            assert(head.drop_last() =~= all.take(i as int));
            assert(head.last() == lines@[i as int]@);
            final_prefix(all, i + 1);
        }
        let state = match State::parse(lines[i].as_str()) {
            Ok(state) => state,
            Err(error) => return Err(Error::Snapshot(error)),
        };
        let mut k: usize = 0;
        while k < states.len()
            invariant
                k <= states@.len(),
                read_final(head.drop_last()) == Ok::<Seq<Facts>, Error>(facts_of(states@)),
                read_state(head.last()) == Ok::<Facts, SnapshotError>(state@),
                head.len() > 0,
                read_final(head) is Err ==> read_final(all) == read_final(head),
                all == texts(lines@),
                forall|m: int| 0 <= m < k ==> (#[trigger] states@[m]).pane != state.pane,
            decreases states@.len() - k,
        {
            if states[k].pane == state.pane {
                assert(facts_panes(facts_of(states@))[k as int] == state@.pane);
                return Err(Error::DuplicateFinal);
            }
            k += 1;
        }
        proof {
            if facts_panes(facts_of(states@)).contains(state@.pane) {
                let m = choose|m: int|
                    0 <= m < facts_panes(facts_of(states@)).len() && facts_panes(
                        facts_of(states@),
                    )[m] == state@.pane;
                assert(states@[m].pane == state.pane);
            }
        }
        let ghost before = states@;
        let ghost shown = state@;
        states.push(state);
        assert(facts_of(states@) =~= facts_of(before).push(shown));
        i += 1;
    }
    assert(all.take(i as int) =~= all);
    Ok(states)
}

fn all_repeated(states: &Vec<State>, finals: &Vec<State>) -> (r: bool)
    ensures
        r == !(exists|i: int|
            0 <= i < facts_of(states@).len() && !facts_of(finals@).contains(
                #[trigger] facts_of(states@)[i],
            )),
{
    let ghost a = facts_of(states@);
    let ghost b = facts_of(finals@);
    let mut i: usize = 0;
    while i < states.len()
        invariant
            i <= states@.len(),
            a == facts_of(states@),
            b == facts_of(finals@),
            forall|k: int| 0 <= k < i ==> b.contains(#[trigger] a[k]),
        decreases states@.len() - i,
    {
        let mut found = false;
        let mut k: usize = 0;
        while k < finals.len()
            invariant
                k <= finals@.len(),
                i < states@.len(),
                a == facts_of(states@),
                b == facts_of(finals@),
                found == exists|m: int| 0 <= m < k && #[trigger] b[m] == a[i as int],
            decreases finals@.len() - k,
        {
            let ghost was = found;
            if states[i].same(&finals[k]) {
                found = true;
            }
            proof {
                assert(b[k as int] == finals@[k as int]@);
                assert(a[i as int] == states@[i as int]@);
            }
            k += 1;
        }
        if !found {
            assert(!b.contains(a[i as int]));
            return false;
        }
        i += 1;
    }
    true
}

/// The panes of a session that fits its budget also fit a view.
proof fn budget_covers_view(panes: Seq<Pane>, states: Seq<Facts>, history: int)
    requires
        panes.len() == states.len(),
        budget_error(states, history) is None,
        forall|i: int|
            0 <= i < panes.len() ==> (#[trigger] panes[i]).wf() && panes[i].state@ == states[i]
                && panes[i].terminal.shape().history == kept_history(
                states[i].columns as int,
                states[i].rows as int,
                history,
            ),
    ensures
        view_error(panes) is None,
        pane_cells(panes) == session_cells(states, history),
    decreases panes.len(),
{
    if panes.len() > 0 {
        let p = panes.drop_last();
        let s = states.drop_last();
        assert forall|i: int| 0 <= i < p.len() implies (#[trigger] p[i]).wf() && p[i].state@ == s[i]
            && p[i].terminal.shape().history == kept_history(
            s[i].columns as int,
            s[i].rows as int,
            history,
        ) by {
            assert(p[i] == panes[i]);
        }
        budget_covers_view(p, s, history);
        let last = panes.len() - 1;
        assert(panes[last].wf());
        assert(panes.last() == panes[last]);
        if last_repeats(pane_ids(panes)) {
            let j = choose|j: int|
                0 <= j < pane_ids(panes).len() - 1 && #[trigger] pane_ids(panes)[j] == pane_ids(
                    panes,
                ).last();
            assert(panes[j].state@ == states[j]);
            assert(facts_panes(states)[j] == facts_panes(states).last());
        }
    }
}

proof fn models_prefix(
    states: Seq<Facts>,
    replies: Seq<Seq<Seq<char>>>,
    history: nat,
    k: nat,
    n: nat,
)
    requires
        k <= n,
    ensures
        read_models(states, replies, history, k) is Err ==> read_models(
            states,
            replies,
            history,
            n,
        ) == read_models(states, replies, history, k),
    decreases n,
{
    if k < n {
        models_prefix(states, replies, history, k, (n - 1) as nat);
    }
}

fn restore_panes(
    states: Vec<State>,
    replies: &Vec<Vec<String>>,
    history: usize,
) -> (r: Result<Vec<Pane>, Error>)
    requires
        4 * states@.len() <= replies@.len(),
        history <= MAX_HISTORY_LINES,
        forall|i: int| 0 <= i < states@.len() ==> coherent((#[trigger] states@[i])@),
        forall|i: int|
            0 <= i < states@.len() ==> (restored_inputs(
                facts_of(states@),
                inspect::reply_texts(replies@),
                i,
            ) matches Ok(inputs) ==> all_feedable(
                (#[trigger] states@[i])@.columns as int,
                inputs,
            )),
    ensures
        match read_models(
            facts_of(states@),
            inspect::reply_texts(replies@),
            history as nat,
            states@.len(),
        ) {
            Err(error) => r == Err::<Vec<Pane>, Error>(error),
            Ok(models) => {
                &&& r matches Ok(panes)
                &&& models_of(panes@) == models
                &&& panes@.len() == states@.len()
                &&& forall|i: int|
                    0 <= i < panes@.len() ==> (#[trigger] panes@[i]).wf() && panes@[i].state
                        == states@[i] && panes@[i].terminal.shape().history == kept_history(
                        states@[i]@.columns as int,
                        states@[i]@.rows as int,
                        history as int,
                    )
            },
        },
{
    let ghost given = states@;
    let ghost facts = facts_of(given);
    let ghost all = inspect::reply_texts(replies@);
    let n = states.len();
    let count = replies.len();
    let mut left = states;
    let mut panes: Vec<Pane> = Vec::new();
    let mut i: usize = 0;
    assert(given.skip(0) =~= given);
    assert(models_of(panes@) =~= Seq::<PaneModel>::empty());
    while i < n
        invariant
            i <= n,
            n == given.len(),
            given == states@,
            facts == facts_of(given),
            all == inspect::reply_texts(replies@),
            left@ == given.skip(i as int),
            count == replies@.len(),
            4 * n <= replies@.len(),
            history <= MAX_HISTORY_LINES,
            forall|k: int| 0 <= k < given.len() ==> coherent((#[trigger] given[k])@),
            forall|k: int|
                0 <= k < given.len() ==> (restored_inputs(facts, all, k) matches Ok(inputs)
                    ==> all_feedable((#[trigger] given[k])@.columns as int, inputs)),
            read_models(facts, all, history as nat, i as nat) == Ok::<Seq<PaneModel>, Error>(
                models_of(panes@),
            ),
            panes@.len() == i,
            forall|k: int|
                0 <= k < i ==> (#[trigger] panes@[k]).wf() && panes@[k].state == given[k]
                    && panes@[k].terminal.shape().history == kept_history(
                    given[k]@.columns as int,
                    given[k]@.rows as int,
                    history as int,
                ),
        decreases n - i,
    {
        proof {
            models_prefix(facts, all, history as nat, (i + 1) as nat, n as nat);
            assert(facts[i as int] == given[i as int]@);
            assert(all[4 * i + 1] == texts(replies@[4 * i + 1]@));
            assert(all[4 * i + 2] == texts(replies@[4 * i + 2]@));
            assert(all[4 * i + 3] == texts(replies@[4 * i + 3]@));
            assert(restored_inputs(facts, all, i as int) matches Ok(inputs) ==> all_feedable(
                given[i as int]@.columns as int,
                inputs,
            ));
        }
        let state = left.remove(0);
        assert(state == given[i as int]);
        assert(left@ =~= given.skip(i + 1));
        assert(restored_inputs(facts, all, i as int) == restore_inputs(
            state@,
            texts(replies@[4 * i + 1]@),
            texts(replies@[4 * i + 2]@),
            texts(replies@[4 * i + 3]@),
        ));
        match Pane::restore(
            state,
            replies[4 * i + 1].as_slice(),
            replies[4 * i + 2].as_slice(),
            replies[4 * i + 3].as_slice(),
            history,
        ) {
            Ok(pane) => {
                let ghost before = panes@;
                let ghost shown = model_of(pane);
                proof {
                    reveal(restored_model);
                    pane.terminal.shape_is_size();
                    let kept = pane.terminal.shape().history;
                    assert(shown.shape == (Shape {
                        columns: facts[i as int].columns,
                        rows: facts[i as int].rows,
                        history: kept,
                    }));
                }
                panes.push(pane);
                assert(models_of(panes@) =~= models_of(before).push(shown));
            },
            Err(error) => return Err(Error::Snapshot(error)),
        }
        i += 1;
    }
    Ok(panes)
}

fn is_session(lines: &Vec<String>, session: SessionId) -> (r: bool)
    ensures
        r == (texts(lines@).len() == 1 && texts(lines@)[0] == session_text(session)),
{
    if lines.len() != 1 {
        return false;
    }
    let mut text = String::new();
    text.push('$');
    push_decimal(&mut text, session.0 as u64);
    assert(text@ =~= session_text(session));
    crate::text::same_str(lines[0].as_str(), text.as_str())
}

/// Replay what stood behind the boundary. Everything before it is superseded by
/// the captures, and pane output there breaks the boundary.
fn go_live(
    view: &mut crate::snapshot::View,
    boundary: usize,
    notifications: Vec<(usize, Notification)>,
) -> (r: Result<(), Error>)
    requires
        old(view).wf(),
        forall|i: int|
            0 <= i < old(view).models().panes.len() ==> (
            #[trigger] old(view).models().panes[i]).shape.columns >= 2 || narrow_outputs(
                notifications@,
                old(view).models().panes[i].facts.pane,
            ),
    ensures
        final(view).wf(),
        final(view).spec_session() == old(view).spec_session(),
        if early_output(notifications@, boundary as nat) {
            r == Err::<(), Error>(Error::EarlyOutput)
        } else {
            r is Ok && final(view).models() == applied_all(
                old(view).models(),
                live_notes(notifications@, boundary as nat),
            )
        },
{
    let ghost notes = notifications@;
    let ghost start = view.models();
    let mut left = notifications;
    let ghost mut done: int = 0;
    assert(notes.skip(0) =~= notes);
    assert(notes.take(0) =~= Seq::<(usize, Notification)>::empty());
    while left.len() > 0
        invariant
            0 <= done <= notes.len(),
            notes == notifications@,
            left@ == notes.skip(done),
            view.wf(),
            view.spec_session() == old(view).spec_session(),
            start == old(view).models(),
            forall|i: int|
                0 <= i < start.panes.len() ==> (#[trigger] start.panes[i]).shape.columns >= 2
                    || narrow_outputs(notes, start.panes[i].facts.pane),
            view.models() == applied_all(start, live_notes(notes.take(done), boundary as nat)),
            forall|k: int|
                0 <= k < done ==> !((#[trigger] notes[k]).0 < boundary && output_of(notes[k].1)
                    is Some),
        decreases left@.len(),
    {
        let (at, notification) = left.remove(0);
        assert((at, notification) == notes[done]);
        assert(left@ =~= notes.skip(done + 1));
        assert(notes.take(done + 1).drop_last() =~= notes.take(done));
        if at < boundary {
            let output = match &notification {
                Notification::Output { .. } => true,
                Notification::ExtendedOutput { .. } => true,
                _ => false,
            };
            if output {
                assert(early_output(notes, boundary as nat));
                return Err(Error::EarlyOutput);
            }
        } else {
            proof {
                let so_far = live_notes(notes.take(done), boundary as nat);
                topology_is_never_guessed(start, so_far);
                let m = view.models();
                if let Some((pane, bytes)) = output_of(notification) {
                    pane_index_facts(m.panes, pane);
                    let i = pane_index(m.panes, pane);
                    if i >= 0 {
                        assert(m.panes[i].shape == start.panes[i].shape);
                        assert(m.panes[i].facts == start.panes[i].facts);
                        if start.panes[i].shape.columns < 2 {
                            assert(narrow(bytes)) by {
                                assert(output_of(notes[done].1) is Some);
                            }
                        }
                        assert(feedable(m.panes[i].shape.columns as int, bytes));
                    }
                }
                assert(takes_output(m, notification));
                let next = live_notes(notes.take(done + 1), boundary as nat);
                assert(next == so_far.push(notification));
                assert(next.drop_last() =~= so_far);
            }
            view.apply(notification);
        }
        proof {
            done = done + 1;
        }
    }
    assert(notes.take(done) =~= notes);
    Ok(())
}

/// The boundary stands behind the last of the snapshot's commands.
pub open spec fn boundary(panes: nat) -> nat {
    4 * panes + 3
}

/// What a batch of captures comes to: the first thing that is wrong with it, or a
/// view of its models that took the live output behind the boundary.
pub open spec fn restores(
    session: SessionId,
    ids: Seq<PaneId>,
    history: nat,
    batch: inspect::Batch,
    r: Result<crate::snapshot::View, Error>,
) -> bool {
    if history > MAX_HISTORY_LINES {
        r == Err::<crate::snapshot::View, Error>(Error::History)
    } else if ids.len() > MAX_PANES {
        r == Err::<crate::snapshot::View, Error>(Error::TooManyPanes)
    } else {
        match read_batch(session, ids, history, inspect::reply_texts(batch.replies@)) {
            Err(error) => r == Err::<crate::snapshot::View, Error>(error),
            Ok(models) => if early_output(batch.notifications@, boundary(ids.len())) {
                r == Err::<crate::snapshot::View, Error>(Error::EarlyOutput)
            } else {
                &&& r matches Ok(view)
                &&& view.wf()
                &&& view.spec_session() == session
                &&& exists|panes: Seq<PaneModel>|
                    #![trigger arranged(panes, models)]
                    arranged(panes, models) && view.models() == applied_all(
                        Models { status: Status::Watching, panes },
                        live_notes(batch.notifications@, boundary(ids.len())),
                    )
            },
        }
    }
}

/// Replace all pane models by what one batch of captures gives. No model is
/// published as current while the transaction is incomplete.
pub fn restore(
    session: SessionId,
    ids: &[PaneId],
    history: usize,
    batch: inspect::Batch,
) -> (r: Result<crate::snapshot::View, Error>)
    requires
        batch.replies@.len() == boundary(ids@.len()),
        narrow_panes_fit(
            ids@.len(),
            inspect::reply_texts(batch.replies@),
            batch.notifications@,
        ),
    ensures
        restores(session, ids@, history as nat, batch, r),
{
    if history > MAX_HISTORY_LINES {
        return Err(Error::History);
    }
    if ids.len() > MAX_PANES {
        return Err(Error::TooManyPanes);
    }
    let n = ids.len();
    let replies = batch.replies;
    let notifications = batch.notifications;
    let states = checked_states(session, ids, history, &replies)?;
    let mut view = publish(session, states, history, &replies, Ghost(notifications@))?;
    go_live(&mut view, 4 * n + 3, notifications)?;
    Ok(view)
}

fn checked_states(
    session: SessionId,
    ids: &[PaneId],
    history: usize,
    replies: &Vec<Vec<String>>,
) -> (r: Result<Vec<State>, Error>)
    requires
        replies@.len() == boundary(ids@.len()),
        ids@.len() <= MAX_PANES,
    ensures
        match read_checked(session, ids@, history as nat, inspect::reply_texts(replies@)) {
            Err(error) => r == Err::<Vec<State>, Error>(error),
            Ok(facts) => {
                &&& r matches Ok(states)
                &&& facts_of(states@) == facts
                &&& facts.len() == ids@.len()
                &&& read_states(inspect::reply_texts(replies@), ids@.len()) == Ok::<
                    Seq<Facts>,
                    Error,
                >(facts)
                &&& budget_error(facts, history as int) is None
                &&& forall|k: int| 0 <= k < facts.len() ==> coherent(#[trigger] facts[k])
            },
        },
{
    let n = ids.len();
    let ghost all = inspect::reply_texts(replies@);
    let states = parse_states(replies, n)?;
    let ghost facts = facts_of(states@);
    proof {
        states_prefix(all, n as nat, n as nat);
    }
    if !same_ids(&states, ids) {
        return Err(Error::PaneChanged);
    }
    match validate_budget(states.as_slice(), history) {
        Ok(()) => {},
        Err(error) => return Err(Error::Snapshot(error)),
    }
    assert(all[4 * n as int] == texts(replies@[4 * n as int]@));
    assert(all[4 * n + 1] == texts(replies@[4 * n + 1]@));
    let finals = parse_final(&replies[4 * n])?;
    if finals.len() != states.len() {
        return Err(Error::TopologyChanged);
    }
    if !all_repeated(&states, &finals) {
        return Err(Error::StateChanged);
    }
    if !is_session(&replies[4 * n + 1], session) {
        return Err(Error::SessionChanged);
    }
    Ok(states)
}

fn same_ids(states: &Vec<State>, ids: &[PaneId]) -> (r: bool)
    requires
        states@.len() == ids@.len(),
    ensures
        r == identified(facts_of(states@), ids@),
{
    let ghost facts = facts_of(states@);
    let mut i: usize = 0;
    while i < ids.len()
        invariant
            i <= ids@.len(),
            ids@.len() == states@.len(),
            facts == facts_of(states@),
            forall|k: int| 0 <= k < i ==> (#[trigger] facts[k]).pane == ids@[k].0,
        decreases ids@.len() - i,
    {
        if states[i].pane != ids[i] {
            assert(facts[i as int].pane != ids@[i as int].0);
            return false;
        }
        i += 1;
    }
    true
}

/// Build the models of the checked states and arrange them in a view.
fn publish(
    session: SessionId,
    states: Vec<State>,
    history: usize,
    replies: &Vec<Vec<String>>,
    notes: Ghost<Seq<(usize, Notification)>>,
) -> (r: Result<crate::snapshot::View, Error>)
    requires
        0 < states@.len() <= MAX_PANES,
        replies@.len() == boundary(states@.len()),
        history <= MAX_HISTORY_LINES,
        read_states(inspect::reply_texts(replies@), states@.len()) == Ok::<Seq<Facts>, Error>(
            facts_of(states@),
        ),
        budget_error(facts_of(states@), history as int) is None,
        forall|k: int|
            0 <= k < facts_of(states@).len() ==> coherent(#[trigger] facts_of(states@)[k]),
        narrow_panes_fit(states@.len(), inspect::reply_texts(replies@), notes@),
    ensures
        match read_models(
            facts_of(states@),
            inspect::reply_texts(replies@),
            history as nat,
            states@.len(),
        ) {
            Err(error) => r == Err::<crate::snapshot::View, Error>(error),
            Ok(models) => {
                &&& r matches Ok(view)
                &&& view.wf()
                &&& view.spec_session() == session
                &&& view.spec_status() == Status::Watching
                &&& arranged(view.models().panes, models)
                &&& forall|k: int|
                    0 <= k < view.models().panes.len() ==> (
                    #[trigger] view.models().panes[k]).shape.columns >= 2 || narrow_outputs(
                        notes@,
                        view.models().panes[k].facts.pane,
                    )
            },
        },
{
    let ghost all = inspect::reply_texts(replies@);
    let ghost facts = facts_of(states@);
    let ghost given = states@;
    proof {
        assert forall|k: int| 0 <= k < given.len() implies coherent((#[trigger] given[k])@) by {
            assert(facts[k] == given[k]@);
            assert(coherent(facts[k]));
        }
        assert forall|k: int| 0 <= k < given.len() implies (restored_inputs(facts, all, k) matches Ok(
            inputs,
        ) ==> all_feedable((#[trigger] given[k])@.columns as int, inputs)) by {
            assert(facts[k] == given[k]@);
            assert(facts[k].columns >= 2 || (narrow_outputs(notes@, facts[k].pane) && (restored_inputs(
                facts,
                all,
                k,
            ) matches Ok(inputs) ==> all_feedable(facts[k].columns as int, inputs))));
        }
    }
    let panes = restore_panes(states, replies, history)?;
    let ghost models = models_of(panes@);
    let ghost restored = panes@;
    proof {
        assert forall|k: int| 0 <= k < restored.len() implies (#[trigger] restored[k]).wf()
            && restored[k].state@ == facts[k] && restored[k].terminal.shape().history
            == kept_history(
            facts[k].columns as int,
            facts[k].rows as int,
            history as int,
        ) by {
            assert(facts[k] == given[k]@);
        }
        budget_covers_view(restored, facts, history as int);
    }
    let view = match crate::snapshot::View::new(session, panes) {
        Ok(view) => view,
        Err(error) => return Err(Error::Snapshot(error)),
    };
    proof {
        view_is_arranged(view, restored);
        let shown = view.models().panes;
        assert forall|k: int| 0 <= k < shown.len() implies (#[trigger] shown[k]).shape.columns >= 2
            || narrow_outputs(notes@, shown[k].facts.pane) by {
            assert forall|i: int, j: int| 0 <= i < j < models.len() implies (
            #[trigger] models[i]).facts.pane != (#[trigger] models[j]).facts.pane by {
                crate::snapshot::accepted_panes_differ(restored, i, j);
            }
            arranged_back(shown, models, k);
            let m = choose|m: int| 0 <= m < models.len() && models[m] == shown[k];
            assert(restored[m].state@ == facts[m]);
            restored[m].terminal.shape_is_size();
            assert(models[m].shape.columns == facts[m].columns);
            assert(models[m].facts == facts[m]);
            assert(facts[m].columns >= 2 || narrow_outputs(notes@, facts[m].pane));
        }
    }
    Ok(view)
}

proof fn view_is_arranged(view: crate::snapshot::View, restored: Seq<Pane>)
    requires
        sorted_panes(view.spec_panes()),
        view.spec_panes().len() == restored.len(),
        forall|i: int|
            0 <= i < restored.len() ==> view.spec_panes().contains(#[trigger] restored[i]),
    ensures
        arranged(view.models().panes, models_of(restored)),
{
    let placed = view.spec_panes();
    let shown = view.models().panes;
    let models = models_of(restored);
    assert forall|k: int| 0 <= k < models.len() implies shown.contains(#[trigger] models[k]) by {
        assert(placed.contains(restored[k]));
        let z = choose|z: int| 0 <= z < placed.len() && placed[z] == restored[k];
        assert(shown[z] == models[k]);
    }
    assert forall|a: int, b: int| 0 <= a < b < shown.len() implies (#[trigger] shown[a]).facts.pane
        < (#[trigger] shown[b]).facts.pane by {
        assert(placed[a].state.pane.0 < placed[b].state.pane.0);
    }
}

/// Of as many different panes, each is one of the models.
proof fn arranged_back(panes: Seq<PaneModel>, models: Seq<PaneModel>, k: int)
    requires
        arranged(panes, models),
        0 <= k < panes.len(),
        forall|i: int, j: int|
            0 <= i < j < models.len() ==> (#[trigger] models[i]).facts.pane != (
            #[trigger] models[j]).facts.pane,
    ensures
        models.contains(panes[k]),
{
    let target = panes[k];
    if !models.contains(target) {
        let places = Seq::new(
            models.len(),
            |i: int| choose|z: int| 0 <= z < panes.len() && panes[z] == models[i],
        );
        assert forall|i: int| 0 <= i < models.len() implies 0 <= #[trigger] places[i] < panes.len()
            && panes[places[i]] == models[i] && places[i] != k by {
            assert(panes.contains(models[i]));
        }
        pigeon(places, panes.len() as int, k);
        let (i, j) = choose|i: int, j: int|
            0 <= i < j < places.len() && #[trigger] places[i] == #[trigger] places[j];
        assert(models[i] == models[j]);
    }
}

/// So many places among as many, none of them the given one: two are the same.
proof fn pigeon(places: Seq<int>, n: int, hole: int)
    requires
        places.len() == n,
        0 <= hole < n,
        forall|i: int|
            0 <= i < places.len() ==> 0 <= #[trigger] places[i] < n && places[i] != hole,
    ensures
        exists|i: int, j: int|
            0 <= i < j < places.len() && #[trigger] places[i] == #[trigger] places[j],
{
    if places.no_duplicates() {
        places.unique_seq_to_set();
        let all = vstd::set_lib::set_int_range(0, n);
        vstd::set_lib::lemma_int_range(0, n);
        assert(places.to_set().subset_of(all.remove(hole)));
        vstd::set_lib::lemma_len_subset(places.to_set(), all.remove(hole));
    }
}

fn has_narrow_outputs(notes: &Vec<(usize, Notification)>, pane: PaneId) -> (r: bool)
    ensures
        r == narrow_outputs(notes@, pane.0 as nat),
{
    let mut i: usize = 0;
    while i < notes.len()
        invariant
            i <= notes@.len(),
            forall|k: int|
                0 <= k < i ==> (output_of((#[trigger] notes@[k]).1) matches Some((target, bytes))
                    ==> target.0 == pane.0 ==> narrow(bytes)),
        decreases notes@.len() - i,
    {
        let fits = match &notes[i].1 {
            Notification::Output { pane: target, bytes } => target.0 != pane.0 || is_feedable(
                1,
                bytes.as_slice(),
            ),
            Notification::ExtendedOutput { pane: target, bytes } => target.0 != pane.0
                || is_feedable(1, bytes.as_slice()),
            _ => true,
        };
        if !fits {
            assert(!(output_of(notes@[i as int].1) matches Some((target, bytes)) ==> target.0
                == pane.0 ==> narrow(bytes)));
            return false;
        }
        i += 1;
    }
    true
}

fn feeds_all(ops: &Vec<Op>, columns: usize) -> (r: bool)
    ensures
        r == all_feedable(columns as int, inputs_of(ops@)),
{
    let ghost inputs = inputs_of(ops@);
    let mut i: usize = 0;
    while i < ops.len()
        invariant
            i <= ops@.len(),
            inputs == inputs_of(ops@),
            forall|k: int|
                0 <= k < i ==> (#[trigger] inputs[k] matches crate::terminal::Input::Bytes(bytes)
                    ==> feedable(columns as int, bytes)),
        decreases ops@.len() - i,
    {
        assert(inputs[i as int] == ops@[i as int]@);
        if let Op::Bytes(bytes) = &ops[i] {
            if !is_feedable(columns, bytes.as_slice()) {
                return false;
            }
        }
        i += 1;
    }
    true
}

/// Whether a batch of captures can be restored: a pane of one column is given no
/// character that may take up more.
pub fn is_restorable(count: usize, batch: &inspect::Batch) -> (r: bool)
    requires
        batch.replies@.len() == boundary(count as nat),
    ensures
        r == narrow_panes_fit(
            count as nat,
            inspect::reply_texts(batch.replies@),
            batch.notifications@,
        ),
{
    let ghost all = inspect::reply_texts(batch.replies@);
    let states = match parse_states(&batch.replies, count) {
        Ok(states) => states,
        Err(_) => return true,
    };
    let ghost facts = facts_of(states@);
    proof {
        states_prefix(all, count as nat, count as nat);
    }
    let length = batch.replies.len();
    let mut i: usize = 0;
    while i < count
        invariant
            i <= count,
            length == batch.replies@.len(),
            batch.replies@.len() == boundary(count as nat),
            all == inspect::reply_texts(batch.replies@),
            facts == facts_of(states@),
            facts.len() == count,
            read_states(all, count as nat) == Ok::<Seq<Facts>, Error>(facts),
            forall|k: int| 0 <= k < count ==> coherent(#[trigger] facts[k]),
            forall|k: int|
                0 <= k < i ==> (#[trigger] facts[k]).columns >= 2 || (narrow_outputs(
                    batch.notifications@,
                    facts[k].pane,
                ) && (restored_inputs(facts, all, k) matches Ok(inputs) ==> all_feedable(
                    facts[k].columns as int,
                    inputs,
                ))),
        decreases count - i,
    {
        let columns = states[i].size.columns();
        assert(facts[i as int] == states@[i as int]@);
        if columns < 2 {
            assert(all[4 * i + 1] == texts(batch.replies@[4 * i + 1]@));
            assert(all[4 * i + 2] == texts(batch.replies@[4 * i + 2]@));
            assert(all[4 * i + 3] == texts(batch.replies@[4 * i + 3]@));
            let fits = match restore_ops(
                &states[i],
                batch.replies[4 * i + 1].as_slice(),
                batch.replies[4 * i + 2].as_slice(),
                batch.replies[4 * i + 3].as_slice(),
            ) {
                Ok(ops) => feeds_all(&ops, columns),
                Err(_) => true,
            };
            if !fits || !has_narrow_outputs(&batch.notifications, states[i].pane) {
                return false;
            }
        }
        i += 1;
    }
    true
}

/// The request whose reply a restore waits for.
#[derive(Clone, Copy, Debug, PartialEq, Eq, Structural)]
pub enum Stage {
    /// Output stops; what was ordered before this reply is drained.
    Silence,
    Panes,
    Aliases,
    Hooks,
    Captures,
}

/// A restore between two of its requests.
#[derive(Debug)]
pub struct Restoring {
    pub session: SessionId,
    pub history: usize,
    pub stage: Stage,
    pub panes: Vec<inspect::Pane>,
}

/// What a restore does next.
pub enum Next {
    /// Write these commands as one list.
    Ask(Restoring, Vec<String>),
    Done(crate::snapshot::View),
}

pub open spec fn listed_ids(panes: Seq<inspect::Pane>) -> Seq<PaneId> {
    panes.map_values(|pane: inspect::Pane| pane.id)
}

fn ids_of(panes: &Vec<inspect::Pane>) -> (r: Vec<PaneId>)
    ensures
        r@ == listed_ids(panes@),
{
    let mut ids: Vec<PaneId> = Vec::new();
    let mut i: usize = 0;
    while i < panes.len()
        invariant
            i <= panes@.len(),
            ids@ == listed_ids(panes@.take(i as int)),
        decreases panes@.len() - i,
    {
        ids.push(panes[i].id);
        i += 1;
        assert(ids@ =~= listed_ids(panes@.take(i as int)));
    }
    assert(panes@.take(i as int) =~= panes@);
    ids
}

fn one(text: &str) -> (r: Vec<String>)
    ensures
        texts(r@) == seq![text@],
{
    let mut commands: Vec<String> = Vec::new();
    commands.push(text.to_owned());
    assert(texts(commands@) =~= seq![text@]);
    commands
}

/// The first configured hook of several replies.
pub open spec fn first_hook_of(replies: Seq<Seq<Seq<char>>>) -> Option<SnapshotHook>
    decreases replies.len(),
{
    if replies.len() == 0 {
        None
    } else {
        match first_hook_of(replies.drop_last()) {
            Some(hook) => Some(hook),
            None => first_hook(replies.last()),
        }
    }
}

proof fn first_hook_of_stays(replies: Seq<Seq<Seq<char>>>, n: int)
    requires
        0 <= n <= replies.len(),
        first_hook_of(replies.take(n)) is Some,
    ensures
        first_hook_of(replies) == first_hook_of(replies.take(n)),
    decreases replies.len(),
{
    if n == replies.len() {
        assert(replies.take(n) =~= replies);
    } else {
        assert(replies.drop_last().take(n) =~= replies.take(n));
        first_hook_of_stays(replies.drop_last(), n);
    }
}

fn reject_hooks(replies: &Vec<Vec<String>>) -> (r: Result<(), Error>)
    ensures
        r == match first_hook_of(inspect::reply_texts(replies@)) {
            Some(hook) => Err::<(), Error>(Error::Hook(hook)),
            None => Ok(()),
        },
{
    let ghost all = inspect::reply_texts(replies@);
    let mut k: usize = 0;
    while k < replies.len()
        invariant
            k <= replies@.len(),
            all == inspect::reply_texts(replies@),
            first_hook_of(all.take(k as int)) is None,
        decreases replies@.len() - k,
    {
        assert(all.take(k + 1).drop_last() =~= all.take(k as int));
        assert(all.take(k + 1).last() == texts(replies@[k as int]@));
        match reject_snapshot_hooks(replies[k].as_slice()) {
            Ok(()) => {},
            Err(error) => {
                proof {
                    first_hook_of_stays(all, k + 1);
                }
                return Err(error);
            },
        }
        k += 1;
    }
    assert(all.take(k as int) =~= all);
    Ok(())
}

impl Restoring {
    pub open spec fn wf(self) -> bool {
        self.history <= MAX_HISTORY_LINES && self.panes@.len() <= MAX_PANES
    }

    /// The commands of the last request were answered, each by one reply.
    pub open spec fn answered(self, batch: inspect::Batch) -> bool {
        match self.stage {
            Stage::Hooks => true,
            Stage::Captures => batch.replies@.len() == boundary(self.panes@.len())
                && narrow_panes_fit(
                self.panes@.len(),
                inspect::reply_texts(batch.replies@),
                batch.notifications@,
            ),
            _ => batch.replies@.len() == 1,
        }
    }

    /// Begin a restore. The first request changes nothing but the own client.
    pub fn begin(session: SessionId, history: usize) -> (r: Result<(Self, Vec<String>), Error>)
        ensures
            match r {
                Ok((restoring, commands)) => {
                    &&& history <= MAX_HISTORY_LINES
                    &&& restoring.wf()
                    &&& restoring.stage == Stage::Silence
                    &&& restoring.session == session
                    &&& restoring.history == history
                    &&& texts(commands@) == seq!["refresh-client -f no-output\n"@]
                },
                Err(error) => error == Error::History && history > MAX_HISTORY_LINES,
            },
    {
        if history > MAX_HISTORY_LINES {
            return Err(Error::History);
        }
        let restoring = Restoring { session, history, stage: Stage::Silence, panes: Vec::new() };
        Ok((restoring, one("refresh-client -f no-output\n")))
    }

    /// Take the replies to the last request. Panes are captured only behind
    /// silence, a listing and an environment that leaves the captures together.
    pub fn answer(self, batch: inspect::Batch) -> (r: Result<Next, Error>)
        requires
            self.wf(),
            self.answered(batch),
        ensures
            r matches Ok(Next::Ask(next, _)) ==> next.wf() && next.session == self.session
                && next.history == self.history,
            ({
                let replies = inspect::reply_texts(batch.replies@);
                match self.stage {
                    Stage::Silence => r matches Ok(Next::Ask(next, commands)) && next.stage
                        == Stage::Panes && texts(commands@) == seq![inspect::PANES_COMMAND@],
                    Stage::Panes => match inspect::read_listing(replies[0]) {
                        Err(error) => r == Err::<Next, Error>(Error::Inspect(error)),
                        Ok(listed) => if listed.len() > MAX_PANES {
                            r == Err::<Next, Error>(Error::TooManyPanes)
                        } else {
                            r matches Ok(Next::Ask(next, commands)) && next.stage == Stage::Aliases
                                && inspect::lists(next.panes@, listed) && texts(commands@)
                                == seq!["show-options -s -v command-alias\n"@]
                        },
                    },
                    Stage::Aliases => match first_alias(replies[0]) {
                        Some(command) => r == Err::<Next, Error>(Error::Alias(command)),
                        None => r matches Ok(Next::Ask(next, commands)) && next.stage == Stage::Hooks
                            && next.panes == self.panes && exists|windows: Seq<WindowId>|
                            windows_of(windows, self.panes@) && texts(commands@)
                                == #[trigger] hook_commands(self.session, windows, self.panes@),
                    },
                    Stage::Hooks => match first_hook_of(replies) {
                        Some(hook) => r == Err::<Next, Error>(Error::Hook(hook)),
                        None => r matches Ok(Next::Ask(next, commands)) && next.stage
                            == Stage::Captures && next.panes == self.panes && texts(commands@)
                            == snapshot_texts(listed_ids(self.panes@), self.history as nat),
                    },
                    Stage::Captures => {
                        let ids = listed_ids(self.panes@);
                        match r {
                            Ok(Next::Done(view)) => restores(
                                self.session,
                                ids,
                                self.history as nat,
                                batch,
                                Ok(view),
                            ),
                            Ok(Next::Ask(..)) => false,
                            Err(error) => restores(
                                self.session,
                                ids,
                                self.history as nat,
                                batch,
                                Err(error),
                            ),
                        }
                    },
                }
            }),
    {
        match self.stage {
            Stage::Silence => {
                let next = Restoring {
                    session: self.session,
                    history: self.history,
                    stage: Stage::Panes,
                    panes: self.panes,
                };
                Ok(Next::Ask(next, one(inspect::PANES_COMMAND)))
            },
            Stage::Panes => {
                assert(inspect::reply_texts(batch.replies@)[0] == texts(batch.replies@[0]@));
                let panes = match inspect::parse_panes(batch.replies[0].as_slice()) {
                    Ok(panes) => panes,
                    Err(error) => return Err(Error::Inspect(error)),
                };
                if panes.len() > MAX_PANES {
                    return Err(Error::TooManyPanes);
                }
                let next = Restoring {
                    session: self.session,
                    history: self.history,
                    stage: Stage::Aliases,
                    panes,
                };
                Ok(Next::Ask(next, one("show-options -s -v command-alias\n")))
            },
            Stage::Aliases => {
                let aliases = batch.replies[0].as_slice();
                assert(inspect::reply_texts(batch.replies@)[0] == texts(aliases@));
                match reject_aliases(aliases) {
                    Ok(()) => {},
                    Err(error) => return Err(error),
                }
                let commands = environment_commands(self.session, self.panes.as_slice());
                let next = Restoring {
                    session: self.session,
                    history: self.history,
                    stage: Stage::Hooks,
                    panes: self.panes,
                };
                Ok(Next::Ask(next, commands))
            },
            Stage::Hooks => {
                match reject_hooks(&batch.replies) {
                    Ok(()) => {},
                    Err(error) => return Err(error),
                }
                let ids = ids_of(&self.panes);
                let commands = snapshot_commands(ids.as_slice(), self.history);
                let next = Restoring {
                    session: self.session,
                    history: self.history,
                    stage: Stage::Captures,
                    panes: self.panes,
                };
                Ok(Next::Ask(next, commands))
            },
            Stage::Captures => {
                let ids = ids_of(&self.panes);
                match restore(self.session, ids.as_slice(), self.history, batch) {
                    Ok(view) => Ok(Next::Done(view)),
                    Err(error) => Err(error),
                }
            },
        }
    }
}

/// What an action depends on: the identities of the pane's session and window,
/// and whether the pane is dead, takes no input, is in a mode, shares its input
/// with other panes, or hides them.
pub const GUARD_FORMAT: &'static str =
    "#{session_id}|#{window_id}|#{pane_dead}|#{pane_input_off}|#{pane_in_mode}|#{pane_synchronized}|#{window_zoomed_flag}";

/// Ask for what an action on a pane depends on.
pub fn guard_command(pane: PaneId) -> (r: String)
    ensures
        r@ == "display-message -p -t "@ + pane_text(pane) + " '"@ + GUARD_FORMAT@ + "'"@,
{
    let mut text = String::new();
    text.append("display-message -p -t ");
    push_pane(&mut text, pane);
    text.append(" '");
    text.append(GUARD_FORMAT);
    text.append("'");
    assert(text@ =~= "display-message -p -t "@ + pane_text(pane) + " '"@ + GUARD_FORMAT@ + "'"@);
    text
}

/// The pane is where it was seen, and what is sent to it reaches it alone. A
/// zoomed window only keeps its panes from being resized.
pub open spec fn unguarded(
    lines: Seq<Seq<char>>,
    session: SessionId,
    window: WindowId,
    resizing: bool,
) -> bool {
    let f = pieces(lines[0], '|');
    &&& lines.len() == 1
    &&& f.len() == 7
    &&& f[0] == session_text(session)
    &&& f[1] == window_text(window)
    &&& f[2] == "0"@
    &&& f[3] == "0"@
    &&& f[4] == "0"@
    &&& f[5] == "0"@
    &&& !resizing || f[6] == "0"@
}

/// Whether an action may be sent, by the reply to the guard's question. Input
/// that other panes would share is blocked; the option is never changed.
pub fn may_act(lines: &[String], session: SessionId, window: WindowId, resizing: bool) -> (r: bool)
    ensures
        r == unguarded(texts(lines@), session, window, resizing),
{
    if lines.len() != 1 {
        return false;
    }
    let chars = chars_of(lines[0].as_str());
    assert(texts(lines@)[0] == chars@);
    let fields = split_on(chars.as_slice(), '|');
    if fields.len() != 7 {
        return false;
    }
    let ghost f = rows(fields@);
    assert(f[0] == fields@[0]@ && f[1] == fields@[1]@ && f[2] == fields@[2]@ && f[3] == fields@[3]@
        && f[4] == fields@[4]@ && f[5] == fields@[5]@ && f[6] == fields@[6]@);
    let mut own = String::new();
    own.push('$');
    push_decimal(&mut own, session.0 as u64);
    assert(own@ =~= session_text(session));
    let mut place = String::new();
    place.push('@');
    push_decimal(&mut place, window.0 as u64);
    assert(place@ =~= window_text(window));
    is_text(fields[0].as_slice(), own.as_str()) && is_text(fields[1].as_slice(), place.as_str())
        && is_text(fields[2].as_slice(), "0") && is_text(fields[3].as_slice(), "0") && is_text(
        fields[4].as_slice(),
        "0",
    ) && is_text(fields[5].as_slice(), "0") && (!resizing || is_text(fields[6].as_slice(), "0"))
}

/// A read-only view of a session that follows its output.
pub struct Session {
    view: crate::snapshot::View,
    history: usize,
}

impl Session {
    pub closed spec fn wf(self) -> bool {
        self.view.wf()
    }

    pub closed spec fn spec_view(self) -> crate::snapshot::View {
        self.view
    }

    pub closed spec fn spec_history(self) -> usize {
        self.history
    }

    /// Begin with the metadata that the own client reports: which session it is
    /// attached to, and how it is restored.
    pub fn attach(info: &[String], history: usize) -> (r: Result<(Restoring, Vec<String>), Error>)
        ensures
            match inspect::read_info(texts(info@)) {
                Err(error) => r == Err::<(Restoring, Vec<String>), Error>(Error::Inspect(error)),
                Ok((_, session)) => match r {
                    Ok((restoring, commands)) => {
                        &&& history <= MAX_HISTORY_LINES
                        &&& restoring.wf()
                        &&& restoring.stage == Stage::Silence
                        &&& restoring.session.0 == session
                        &&& restoring.history == history
                        &&& texts(commands@) == seq!["refresh-client -f no-output\n"@]
                    },
                    Err(error) => error == Error::History && history > MAX_HISTORY_LINES,
                },
            },
    {
        match inspect::parse_info(info) {
            Ok((_, session)) => Restoring::begin(session, history),
            Err(error) => Err(Error::Inspect(error)),
        }
    }

    /// A session with the view that its restore gave.
    pub fn new(view: crate::snapshot::View, history: usize) -> (r: Self)
        requires
            view.wf(),
        ensures
            r.wf(),
            r.spec_view() == view,
            r.spec_history() == history,
    {
        Session { view, history }
    }

    pub fn view(&self) -> (r: &crate::snapshot::View)
        ensures
            *r == self.spec_view(),
    {
        &self.view
    }

    /// Whether a notification can be taken.
    pub fn suits(&self, notification: &Notification) -> (r: bool)
        requires
            self.wf(),
        ensures
            r == suits(self.spec_view().models().panes, *notification),
    {
        self.view.suits(notification)
    }

    /// Take live output, or the failure to read any: then the view is kept for
    /// reading and is no longer followed.
    pub fn poll(&mut self, brought: Result<Vec<Notification>, inspect::Error>) -> (r: Result<
        (),
        inspect::Error,
    >)
        requires
            old(self).wf(),
            brought matches Ok(notifications) ==> forall|i: int|
                0 <= i < notifications@.len() ==> suits(
                    old(self).spec_view().models().panes,
                    #[trigger] notifications@[i],
                ),
        ensures
            final(self).wf(),
            final(self).spec_history() == old(self).spec_history(),
            final(self).spec_view().spec_session() == old(self).spec_view().spec_session(),
            match brought {
                Ok(notifications) => r is Ok && final(self).spec_view().models() == applied_all(
                    old(self).spec_view().models(),
                    notifications@,
                ),
                Err(error) => r == Err::<(), inspect::Error>(error)
                    && final(self).spec_view().models() == (Models {
                    status: Status::Disconnected,
                    ..old(self).spec_view().models()
                }),
            },
    {
        match brought {
            Ok(notifications) => {
                self.view.apply_all(notifications);
                Ok(())
            },
            Err(error) => {
                self.view.disconnect();
                Err(error)
            },
        }
    }

    /// How the view is restored anew.
    pub fn resume(&self) -> (r: Result<(Restoring, Vec<String>), Error>)
        ensures
            match r {
                Ok((restoring, commands)) => {
                    &&& self.spec_history() <= MAX_HISTORY_LINES
                    &&& restoring.wf()
                    &&& restoring.stage == Stage::Silence
                    &&& restoring.session == self.spec_view().spec_session()
                    &&& restoring.history == self.spec_history()
                    &&& texts(commands@) == seq!["refresh-client -f no-output\n"@]
                },
                Err(error) => error == Error::History && self.spec_history() > MAX_HISTORY_LINES,
            },
    {
        Restoring::begin(self.view.session_id(), self.history)
    }

    /// Replace all pane models by those of a restore. After one that failed the
    /// old models are kept for reading and are no longer followed.
    pub fn synchronize(&mut self, restored: Result<crate::snapshot::View, Error>) -> (r: Result<
        (),
        Error,
    >)
        requires
            old(self).wf(),
            restored matches Ok(view) ==> view.wf(),
        ensures
            final(self).wf(),
            final(self).spec_history() == old(self).spec_history(),
            match restored {
                Ok(view) => r is Ok && final(self).spec_view() == view,
                Err(error) => r == Err::<(), Error>(error)
                    && final(self).spec_view().spec_session()
                    == old(self).spec_view().spec_session() && final(self).spec_view().models() == (Models {
                    status: Status::Disconnected,
                    ..old(self).spec_view().models()
                }),
            },
    {
        match restored {
            Ok(view) => {
                self.view = view;
                Ok(())
            },
            Err(error) => {
                self.view.disconnect();
                Err(error)
            },
        }
    }
}

} // verus!
