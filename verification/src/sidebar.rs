use vstd::prelude::*;

use crate::model::{AgentState, DiagnosticSource};
use crate::protocol::{
    agent_view, diagnostic_view, snapshot_view, AgentSnapshot, AgentSnapshotView, Diagnostic,
    Snapshot, SnapshotView, TabSnapshot, PROTOCOL_VERSION,
};
use crate::state::sat_add;
use crate::text::{chars_of, decimal, push_decimal, string_of};
use crate::view::{
    agent_line, build_rows, built_rows, lemma_moves_step, lemma_moves_stay_listed, lemma_reconciled_is_listed,
    lemma_selectable_ignores_age, next_of, previous_of, reconciled, selectable_ids,
    selectable_pane_ids, Row, RowView, Selection, rows_view, agents_view, tabs_view,
};

verus! {

/// Whether the host granted the sidebar its permissions.
#[derive(Clone, Copy, Debug, PartialEq, Eq, Structural)]
pub enum PermissionState {
    Pending,
    Granted,
    Denied,
}

impl Default for PermissionState {
    fn default() -> (r: Self)
        ensures
            r == PermissionState::Pending,
    {
        PermissionState::Pending
    }
}

/// What the sidebar asks its host to do.
#[derive(Clone, Copy, Debug, PartialEq, Eq, Structural)]
pub enum SidebarAction {
    NoAction,
    SendHello,
    SendReload,
    Focus(u32),
    Hide,
}

/// The keys the sidebar acts on.
#[derive(Clone, Copy, Debug, PartialEq, Eq, Structural)]
pub enum SidebarKey {
    Up,
    Down,
    Enter,
    Reload,
    Quit,
}

/// A key press as the host reports it, as far as the sidebar reads it.
#[derive(Clone, Copy, Debug, PartialEq, Eq, Structural)]
pub enum KeyPress {
    Up,
    Down,
    Enter,
    Esc,
    Char(char),
    Other,
}

/// The sidebar's key bindings: arrows or `k`/`j` move, Enter focuses, `r` reloads,
/// `q` or Esc quits; a key pressed with a modifier is not bound.
pub open spec fn key_binding(key: KeyPress, has_no_modifiers: bool) -> Option<SidebarKey> {
    if !has_no_modifiers {
        None
    } else {
        match key {
            KeyPress::Up => Some(SidebarKey::Up),
            KeyPress::Char('k') => Some(SidebarKey::Up),
            KeyPress::Down => Some(SidebarKey::Down),
            KeyPress::Char('j') => Some(SidebarKey::Down),
            KeyPress::Enter => Some(SidebarKey::Enter),
            KeyPress::Char('r') => Some(SidebarKey::Reload),
            KeyPress::Char('q') => Some(SidebarKey::Quit),
            KeyPress::Esc => Some(SidebarKey::Quit),
            _ => None,
        }
    }
}

/// The sidebar key a key press is bound to, if any.
pub fn map_key(key: KeyPress, has_no_modifiers: bool) -> (r: Option<SidebarKey>)
    ensures
        r == key_binding(key, has_no_modifiers),
{
    if !has_no_modifiers {
        return None;
    }
    match key {
        KeyPress::Up => Some(SidebarKey::Up),
        KeyPress::Down => Some(SidebarKey::Down),
        KeyPress::Enter => Some(SidebarKey::Enter),
        KeyPress::Esc => Some(SidebarKey::Quit),
        KeyPress::Char(c) => {
            if c == 'k' {
                Some(SidebarKey::Up)
            } else if c == 'j' {
                Some(SidebarKey::Down)
            } else if c == 'r' {
                Some(SidebarKey::Reload)
            } else if c == 'q' {
                Some(SidebarKey::Quit)
            } else {
                None
            }
        },
        KeyPress::Other => None,
    }
}

/// The sidebar: the engine's last snapshot and the user's selection.
#[derive(Debug)]
pub struct Sidebar {
    permission: PermissionState,
    snapshot: Option<Snapshot>,
    incompatible_version: Option<u8>,
    parse_error: Option<String>,
    selection: Selection,
    heartbeat_elapsed_ms: u64,
    last_selectable: Vec<u32>,
}

/// The sidebar as plain values.
#[verifier::ext_equal]
pub struct SidebarView {
    pub permission: PermissionState,
    pub snapshot: Option<SnapshotView>,
    pub incompatible_version: Option<u8>,
    pub parse_error: Option<Seq<char>>,
    pub selected: Option<u32>,
    pub heartbeat_elapsed_ms: u64,
    pub last_selectable: Seq<u32>,
}

/// The panes a snapshot lets the user select, in list order.
pub open spec fn selectable_in(s: Option<SnapshotView>) -> Seq<u32> {
    match s {
        Some(snap) => selectable_ids(built_rows(snap.agents, snap.tabs)),
        None => Seq::empty(),
    }
}

/// The sidebar's list is that of the snapshot it shows, and its selection is a pane of
/// that list.
pub open spec fn selection_listed(s: SidebarView) -> bool {
    &&& s.last_selectable == selectable_in(s.snapshot)
    &&& (s.selected matches Some(id) ==> selectable_in(s.snapshot).contains(id))
}

/// The answer to the permission request; only the first counts.
pub open spec fn sidebar_permitted(s: SidebarView, granted: bool) -> (SidebarView, SidebarAction) {
    if s.permission != PermissionState::Pending {
        (s, SidebarAction::NoAction)
    } else if granted {
        (SidebarView { permission: PermissionState::Granted, ..s }, SidebarAction::SendHello)
    } else {
        (SidebarView { permission: PermissionState::Denied, ..s }, SidebarAction::NoAction)
    }
}

/// A snapshot's states aged by `ms`.
pub open spec fn snapshot_aged(s: SnapshotView, ms: u64) -> SnapshotView {
    SnapshotView {
        agents: s.agents.map_values(
            |a: AgentSnapshotView| AgentSnapshotView { since_ms: sat_add(a.since_ms, ms), ..a },
        ),
        ..s
    }
}

/// A timer tick: the shown states age, and every thirty seconds the sidebar greets the
/// engine again.
pub open spec fn sidebar_ticked(s: SidebarView, ms: u64) -> (SidebarView, SidebarAction) {
    if s.permission != PermissionState::Granted {
        (s, SidebarAction::NoAction)
    } else {
        let snap = match s.snapshot {
            Some(x) => Some(snapshot_aged(x, ms)),
            None => None,
        };
        let beat = sat_add(s.heartbeat_elapsed_ms, ms);
        if beat >= 30000 {
            (
                SidebarView {
                    snapshot: snap,
                    heartbeat_elapsed_ms: (beat % 30000) as u64,
                    ..s
                },
                SidebarAction::SendHello,
            )
        } else {
            (SidebarView { snapshot: snap, heartbeat_elapsed_ms: beat, ..s }, SidebarAction::NoAction)
        }
    }
}

/// A key press: quitting always hides; the others act only with permission.
pub open spec fn sidebar_keyed(s: SidebarView, key: SidebarKey) -> (SidebarView, SidebarAction) {
    if key == SidebarKey::Quit {
        (s, SidebarAction::Hide)
    } else if s.permission != PermissionState::Granted {
        (s, SidebarAction::NoAction)
    } else {
        match key {
            SidebarKey::Up => (
                SidebarView { selected: previous_of(s.selected, selectable_in(s.snapshot)), ..s },
                SidebarAction::NoAction,
            ),
            SidebarKey::Down => (
                SidebarView { selected: next_of(s.selected, selectable_in(s.snapshot)), ..s },
                SidebarAction::NoAction,
            ),
            SidebarKey::Enter => (
                s,
                match s.selected {
                    Some(id) => SidebarAction::Focus(id),
                    None => SidebarAction::NoAction,
                },
            ),
            SidebarKey::Reload => (s, SidebarAction::SendReload),
            SidebarKey::Quit => (s, SidebarAction::Hide),
        }
    }
}

/// A snapshot from the engine (`None` for one that could not be read): a current one
/// replaces the shown one and the selection follows it; another version is reported.
pub open spec fn sidebar_received(s: SidebarView, payload: Option<SnapshotView>) -> SidebarView {
    if s.permission != PermissionState::Granted {
        s
    } else {
        match payload {
            Some(snap) => if snap.v == PROTOCOL_VERSION {
                let ids = selectable_in(Some(snap));
                SidebarView {
                    incompatible_version: None,
                    parse_error: None,
                    selected: reconciled(s.selected, s.last_selectable, ids),
                    last_selectable: ids,
                    snapshot: Some(snap),
                    ..s
                }
            } else {
                SidebarView { incompatible_version: Some(snap.v), ..s }
            },
            None => SidebarView { parse_error: Some("malformed snapshot"@), ..s },
        }
    }
}

/// Ageing the shown states leaves the list the user selects from as it is.
proof fn lemma_aged_selectable(s: SnapshotView, ms: u64)
    ensures
        selectable_in(Some(snapshot_aged(s, ms))) == selectable_in(Some(s)),
{
    let b = snapshot_aged(s, ms).agents;
    assert forall|i: int| 0 <= i < s.agents.len() implies #[trigger] b[i] == AgentSnapshotView {
        since_ms: b[i].since_ms,
        ..s.agents[i]
    } by {}
    lemma_selectable_ignores_age(s.agents, b, s.tabs);
}

/// Keys move the selection one row: with permission and the selection on the pane found
/// first at position `i` of the shown list, Down selects the pane at `i + 1` (the first
/// one after the last), Up the pane at `i - 1` (the last one before the first), Enter
/// focuses the selected pane, `r` asks for a reload and `q` hides the sidebar.
pub proof fn lemma_keys_step(s: SidebarView, i: int)
    requires
        s.permission == PermissionState::Granted,
        0 <= i < selectable_in(s.snapshot).len(),
        s.selected == Some(selectable_in(s.snapshot)[i]),
        forall|j: int| 0 <= j < i ==> selectable_in(s.snapshot)[j] != selectable_in(s.snapshot)[i],
    ensures
        ({
            let ids = selectable_in(s.snapshot);
            let n = ids.len() as int;
            &&& sidebar_keyed(s, SidebarKey::Down).0.selected == Some(ids[(i + 1) % n])
            &&& sidebar_keyed(s, SidebarKey::Up).0.selected == Some(ids[(i + n - 1) % n])
            &&& sidebar_keyed(s, SidebarKey::Enter) == (s, SidebarAction::Focus(ids[i]))
            &&& sidebar_keyed(s, SidebarKey::Reload) == (s, SidebarAction::SendReload)
            &&& sidebar_keyed(s, SidebarKey::Quit) == (s, SidebarAction::Hide)
        }),
{
    lemma_moves_step(selectable_in(s.snapshot), i);
}

/// A snapshot from the engine: without permission nothing changes; one of the current
/// protocol version is shown and clears any earlier refusal or error; one of another
/// version is refused, its version noted, and the shown snapshot and selection stay; an
/// unreadable one is noted as an error and changes nothing else.
pub proof fn lemma_snapshot_received(s: SidebarView, payload: Option<SnapshotView>)
    ensures
        s.permission != PermissionState::Granted ==> sidebar_received(s, payload) == s,
        s.permission == PermissionState::Granted ==> match payload {
            Some(snap) => if snap.v == PROTOCOL_VERSION {
                &&& sidebar_received(s, payload).snapshot == Some(snap)
                &&& sidebar_received(s, payload).incompatible_version is None
                &&& sidebar_received(s, payload).parse_error is None
                &&& sidebar_received(s, payload).last_selectable == selectable_in(Some(snap))
            } else {
                sidebar_received(s, payload) == (SidebarView { incompatible_version: Some(snap.v), ..s })
            },
            None => {
                &&& sidebar_received(s, payload).parse_error is Some
                &&& sidebar_received(s, payload) == (SidebarView {
                    parse_error: sidebar_received(s, payload).parse_error,
                    ..s
                })
            },
        },
{
}

/// The sidebar greets the engine again once thirty seconds have gathered since the last
/// greeting, and not before; the shown states age by the time that passed.
pub proof fn lemma_heartbeat(s: SidebarView, ms: u64)
    requires
        s.permission == PermissionState::Granted,
    ensures
        (sidebar_ticked(s, ms).1 == SidebarAction::SendHello) == (sat_add(s.heartbeat_elapsed_ms, ms)
            >= 30000),
        sidebar_ticked(s, ms).1 != SidebarAction::SendHello ==> sidebar_ticked(s, ms).1
            == SidebarAction::NoAction,
        sidebar_ticked(s, ms).0.heartbeat_elapsed_ms < 30000,
        sidebar_ticked(s, ms).0.snapshot == match s.snapshot {
            Some(x) => Some(snapshot_aged(x, ms)),
            None => None::<SnapshotView>,
        },
{
}

/// Every event keeps the selection on a pane of the shown list.
proof fn lemma_events_keep_selection(s: SidebarView, granted: bool, ms: u64, key: SidebarKey, payload: Option<SnapshotView>)
    requires
        selection_listed(s),
    ensures
        selection_listed(sidebar_permitted(s, granted).0),
        selection_listed(sidebar_ticked(s, ms).0),
        selection_listed(sidebar_keyed(s, key).0),
        selection_listed(sidebar_received(s, payload)),
{
    if let Some(snap) = s.snapshot {
        lemma_aged_selectable(snap, ms);
    }
    let ids = selectable_in(s.snapshot);
    if ids.len() > 0 {
        lemma_moves_stay_listed(s.selected, ids);
    }
    if let Some(snap) = payload {
        lemma_reconciled_is_listed(s.selected, s.last_selectable, selectable_in(Some(snap)));
    }
}

impl Sidebar {
    pub closed spec fn view(&self) -> SidebarView {
        SidebarView {
            permission: self.permission,
            snapshot: match self.snapshot {
                Some(s) => Some(snapshot_view(s)),
                None => None,
            },
            incompatible_version: self.incompatible_version,
            parse_error: match self.parse_error {
                Some(e) => Some(e@),
                None => None,
            },
            selected: self.selection.pane_id(),
            heartbeat_elapsed_ms: self.heartbeat_elapsed_ms,
            last_selectable: self.last_selectable@,
        }
    }

    #[verifier::type_invariant]
    closed spec fn inv(self) -> bool {
        selection_listed(self@)
    }

    pub fn new() -> (r: Self)
        ensures
            r@ == (SidebarView {
                permission: PermissionState::Pending,
                snapshot: None,
                incompatible_version: None,
                parse_error: None,
                selected: None,
                heartbeat_elapsed_ms: 0,
                last_selectable: Seq::empty(),
            }),
            selection_listed(r@),
    {
        let r = Sidebar {
            permission: PermissionState::Pending,
            snapshot: None,
            incompatible_version: None,
            parse_error: None,
            selection: Selection::new(),
            heartbeat_elapsed_ms: 0,
            last_selectable: Vec::new(),
        };
        assert(r@.last_selectable =~= Seq::<u32>::empty());
        r
    }

    pub fn permission(&self) -> (r: PermissionState)
        ensures
            r == self@.permission,
    {
        self.permission
    }

    /// The engine protocol version of the last snapshot refused for its version.
    pub fn incompatible_version(&self) -> (r: Option<u8>)
        ensures
            r == self@.incompatible_version,
    {
        self.incompatible_version
    }

    /// Whether a snapshot is shown.
    pub fn has_snapshot(&self) -> (r: bool)
        ensures
            r == self@.snapshot is Some,
    {
        self.snapshot.is_some()
    }

    pub fn on_permission(&mut self, granted: bool) -> (r: SidebarAction)
        ensures
            final(self)@ == sidebar_permitted(old(self)@, granted).0,
            r == sidebar_permitted(old(self)@, granted).1,
            selection_listed(final(self)@),
    {
        proof {
            use_type_invariant(&*self);
            lemma_events_keep_selection(self@, granted, 0, SidebarKey::Quit, None);
        }
        if self.permission != PermissionState::Pending {
            return SidebarAction::NoAction;
        }
        if granted {
            self.permission = PermissionState::Granted;
            SidebarAction::SendHello
        } else {
            self.permission = PermissionState::Denied;
            SidebarAction::NoAction
        }
    }

    pub fn on_timer(&mut self, elapsed_ms: u64) -> (r: SidebarAction)
        ensures
            final(self)@ == sidebar_ticked(old(self)@, elapsed_ms).0,
            r == sidebar_ticked(old(self)@, elapsed_ms).1,
            selection_listed(final(self)@),
    {
        proof {
            use_type_invariant(&*self);
            lemma_events_keep_selection(self@, false, elapsed_ms, SidebarKey::Quit, None);
        }
        if self.permission != PermissionState::Granted {
            return SidebarAction::NoAction;
        }
        let aged = match &self.snapshot {
            Some(s) => Some(aged_snapshot(s, elapsed_ms)),
            None => None,
        };
        self.snapshot = aged;
        self.heartbeat_elapsed_ms = self.heartbeat_elapsed_ms.saturating_add(elapsed_ms);
        if self.heartbeat_elapsed_ms >= 30000 {
            self.heartbeat_elapsed_ms = self.heartbeat_elapsed_ms % 30000;
            assert(self@ =~= sidebar_ticked(old(self)@, elapsed_ms).0);
            SidebarAction::SendHello
        } else {
            assert(self@ =~= sidebar_ticked(old(self)@, elapsed_ms).0);
            SidebarAction::NoAction
        }
    }

    pub fn on_key(&mut self, key: SidebarKey) -> (r: SidebarAction)
        ensures
            final(self)@ == sidebar_keyed(old(self)@, key).0,
            r == sidebar_keyed(old(self)@, key).1,
            selection_listed(final(self)@),
            r matches SidebarAction::Focus(id) ==> selectable_in(old(self)@.snapshot).contains(id),
    {
        proof {
            use_type_invariant(&*self);
            lemma_events_keep_selection(self@, false, 0, key, None);
        }
        if key == SidebarKey::Quit {
            return SidebarAction::Hide;
        }
        if self.permission != PermissionState::Granted {
            return SidebarAction::NoAction;
        }
        match key {
            SidebarKey::Up => {
                let ids = self.selectable();
                let mut selection = Selection::new();
                selection.set(self.selection.pane_id());
                selection.previous(ids.as_slice());
                self.selection = selection;
                assert(self@ =~= sidebar_keyed(old(self)@, key).0);
                SidebarAction::NoAction
            },
            SidebarKey::Down => {
                let ids = self.selectable();
                let mut selection = Selection::new();
                selection.set(self.selection.pane_id());
                selection.next(ids.as_slice());
                self.selection = selection;
                assert(self@ =~= sidebar_keyed(old(self)@, key).0);
                SidebarAction::NoAction
            },
            SidebarKey::Enter => {
                match self.selection.pane_id() {
                    Some(id) => SidebarAction::Focus(id),
                    None => SidebarAction::NoAction,
                }
            },
            SidebarKey::Reload => SidebarAction::SendReload,
            SidebarKey::Quit => SidebarAction::Hide,
        }
    }

    /// A snapshot from the engine; `payload` is what the JSON reader made of the pipe
    /// message, `None` where it is not a snapshot.
    pub fn on_snapshot_payload(&mut self, payload: Option<Snapshot>)
        ensures
            final(self)@ == sidebar_received(old(self)@, match payload {
                Some(s) => Some(snapshot_view(s)),
                None => None,
            }),
            selection_listed(final(self)@),
    {
        proof {
            use_type_invariant(&*self);
            lemma_events_keep_selection(self@, false, 0, SidebarKey::Quit, match &payload {
                Some(s) => Some(snapshot_view(*s)),
                None => None,
            });
        }
        if self.permission != PermissionState::Granted {
            return;
        }
        match payload {
            Some(snapshot) => {
                if snapshot.v == PROTOCOL_VERSION {
                    let rows = build_rows(&snapshot);
                    let new_ids = selectable_pane_ids(rows.as_slice());
                    let mut selection = Selection::new();
                    selection.set(self.selection.pane_id());
                    selection.reconcile(self.last_selectable.as_slice(), new_ids.as_slice());
                    proof {
                        assert(agents_view(snapshot.agents@) =~= snapshot_view(snapshot).agents);
                        assert(tabs_view(snapshot.tabs@) =~= snapshot_view(snapshot).tabs);
                    }
                    *self = Sidebar {
                        permission: self.permission,
                        snapshot: Some(snapshot),
                        incompatible_version: None,
                        parse_error: None,
                        selection,
                        heartbeat_elapsed_ms: self.heartbeat_elapsed_ms,
                        last_selectable: new_ids,
                    };
                } else {
                    self.incompatible_version = Some(snapshot.v);
                }
            },
            None => {
                self.parse_error = Some("malformed snapshot".to_owned());
            },
        }
        assert(self@ =~= sidebar_received(old(self)@, match payload {
            Some(s) => Some(snapshot_view(s)),
            None => None,
        }));
    }

    /// The panes the user can select, in list order.
    fn selectable(&self) -> (r: Vec<u32>)
        ensures
            r@ == selectable_in(self@.snapshot),
    {
        match &self.snapshot {
            Some(s) => {
                let rows = build_rows(s);
                proof {
                    assert(agents_view(s.agents@) =~= snapshot_view(*s).agents);
                    assert(tabs_view(s.tabs@) =~= snapshot_view(*s).tabs);
                }
                selectable_pane_ids(rows.as_slice())
            },
            None => {
                let r: Vec<u32> = Vec::new();
                assert(r@ =~= Seq::<u32>::empty());
                r
            },
        }
    }
}

impl Default for Sidebar {
    fn default() -> (r: Self)
        ensures
            r@ == (SidebarView {
                permission: PermissionState::Pending,
                snapshot: None,
                incompatible_version: None,
                parse_error: None,
                selected: None,
                heartbeat_elapsed_ms: 0,
                last_selectable: Seq::empty(),
            }),
            selection_listed(r@),
    {
        Sidebar::new()
    }
}

fn aged_snapshot(s: &Snapshot, ms: u64) -> (r: Snapshot)
    ensures
        snapshot_view(r) == snapshot_aged(snapshot_view(*s), ms),
{
    let mut tabs: Vec<TabSnapshot> = Vec::new();
    let n = s.tabs.len();
    for i in 0..n
        invariant
            n == s.tabs@.len(),
            tabs@.len() == i,
            forall|j: int|
                0 <= j < i ==> (#[trigger] tabs@[j]).position == s.tabs@[j].position && tabs@[j].name@
                    == s.tabs@[j].name@,
    {
        tabs.push(TabSnapshot { position: s.tabs[i].position, name: s.tabs[i].name.clone() });
    }
    let mut agents: Vec<AgentSnapshot> = Vec::new();
    let m = s.agents.len();
    for i in 0..m
        invariant
            m == s.agents@.len(),
            agents@.len() == i,
            forall|j: int|
                0 <= j < i ==> agent_view(#[trigger] agents@[j]) == (AgentSnapshotView {
                    since_ms: sat_add(s.agents@[j].since_ms, ms),
                    ..agent_view(s.agents@[j])
                }),
    {
        let a = &s.agents[i];
        agents.push(
            AgentSnapshot {
                pane_id: a.pane_id,
                tab_position: a.tab_position,
                agent: a.agent.clone(),
                agent_label: a.agent_label.clone(),
                display: a.display.clone(),
                state: a.state,
                since_ms: a.since_ms.saturating_add(ms),
                fallback_used: a.fallback_used,
            },
        );
    }
    let mut diagnostics: Vec<Diagnostic> = Vec::new();
    let k = s.diagnostics.len();
    for i in 0..k
        invariant
            k == s.diagnostics@.len(),
            diagnostics@.len() == i,
            forall|j: int|
                0 <= j < i ==> diagnostic_view(#[trigger] diagnostics@[j]) == diagnostic_view(
                    s.diagnostics@[j],
                ),
    {
        diagnostics.push(Diagnostic::new(s.diagnostics[i].source, s.diagnostics[i].message.as_str()));
    }
    let r = Snapshot { v: s.v, tabs, agents, diagnostics };
    proof {
        let want = snapshot_aged(snapshot_view(*s), ms);
        assert(snapshot_view(r).tabs =~= want.tabs);
        assert(snapshot_view(r).agents =~= want.agents);
        assert(snapshot_view(r).diagnostics =~= want.diagnostics);
    }
    r
}

// ---------------------------------------------------------------------------
// Rendering
// ---------------------------------------------------------------------------

/// One line of the sidebar's screen.
#[derive(Debug, PartialEq, Eq)]
pub struct RenderLine {
    pub text: String,
    pub selected: bool,
    pub color: Option<u8>,
}

/// A screen line as plain values.
pub struct LineView {
    pub text: Seq<char>,
    pub selected: bool,
    pub color: Option<u8>,
}

pub open spec fn line_view(l: RenderLine) -> LineView {
    LineView { text: l.text@, selected: l.selected, color: l.color }
}

pub open spec fn lines_view(s: Seq<RenderLine>) -> Seq<LineView> {
    s.map_values(|l: RenderLine| line_view(l))
}

/// The first `cols` characters of a text, at least one.
pub open spec fn clip(text: Seq<char>, cols: usize) -> Seq<char> {
    let w: int = if cols == 0 {
        1
    } else {
        cols as int
    };
    if text.len() <= w {
        text
    } else {
        text.take(w)
    }
}

pub open spec fn line_of(text: Seq<char>, selected: bool, color: Option<u8>, cols: usize) -> LineView {
    LineView { text: clip(text, cols), selected, color }
}

/// The terminal color of a state.
pub open spec fn color_of(s: AgentState) -> u8 {
    match s {
        AgentState::Unknown => 8,
        AgentState::Idle => 7,
        AgentState::Working => 4,
        AgentState::Blocked => 1,
        AgentState::Done => 2,
    }
}

pub open spec fn source_name(s: DiagnosticSource) -> Seq<char> {
    match s {
        DiagnosticSource::Inventory => "inventory"@,
        DiagnosticSource::Manifest => "manifest"@,
        DiagnosticSource::Host => "host"@,
        DiagnosticSource::Notification => "notification"@,
        DiagnosticSource::Protocol => "protocol"@,
        DiagnosticSource::Detection => "detection"@,
    }
}

/// The screen line of a list row; the selected agent is marked.
pub open spec fn row_line(r: RowView, selected: Option<u32>, cols: usize) -> LineView {
    match r {
        RowView::Section(name) => line_of(name, false, None, cols),
        RowView::Tab(position, name) => line_of(
            "Tab "@ + decimal(position as nat) + ": "@ + name,
            false,
            None,
            cols,
        ),
        RowView::Agent(a) => line_of(
            agent_line(a),
            selected == Some(a.pane_id),
            Some(color_of(a.state)),
            cols,
        ),
    }
}

pub open spec fn denied_text() -> Seq<char> {
    "Sidebar permissions denied; engine connection and pane focus unavailable."@
}

pub open spec fn connecting_text() -> Seq<char> {
    "Connecting to zj-agents engine…"@
}

/// Every line the sidebar would show: a notice while it cannot show agents; otherwise
/// a title, the read error, the diagnostics and the agent list.
pub open spec fn plan_lines(s: SidebarView, cols: usize) -> Seq<LineView> {
    if s.permission == PermissionState::Denied {
        seq![line_of(denied_text(), false, None, cols)]
    } else if s.incompatible_version is Some {
        seq![
            line_of(
                "Incompatible engine protocol version "@ + decimal(s.incompatible_version->0 as nat),
                false,
                None,
                cols,
            ),
        ]
    } else if s.snapshot is None {
        seq![line_of(connecting_text(), false, None, cols)]
    } else {
        let snap = s.snapshot->0;
        let head = seq![line_of("zj-agents"@, false, None, cols)] + (match s.parse_error {
            Some(e) => seq![line_of(e, false, Some(1u8), cols)],
            None => Seq::empty(),
        }) + snap.diagnostics.map_values(
            |d: (DiagnosticSource, Seq<char>)|
                line_of("["@ + source_name(d.0) + "] "@ + d.1, false, Some(1u8), cols),
        );
        let built = built_rows(snap.agents, snap.tabs);
        if built.len() == 0 {
            head.push(line_of("No agent panes detected."@, false, None, cols))
        } else {
            head + built.map_values(|r: RowView| row_line(r, s.selected, cols))
        }
    }
}

/// The position of the first selected line, or -1.
pub open spec fn first_selected(lines: Seq<LineView>) -> int
    decreases lines.len(),
{
    if lines.len() == 0 {
        -1
    } else if lines[0].selected {
        0
    } else {
        let k = first_selected(lines.drop_first());
        if k < 0 {
            -1
        } else {
            k + 1
        }
    }
}

/// The lines that fit `rows`: all of them where they fit; otherwise the first line and
/// the selected one (or the second line where none is selected), within `rows`.
pub open spec fn fitted(lines: Seq<LineView>, rows: usize) -> Seq<LineView> {
    if rows == 0 {
        Seq::empty()
    } else if lines.len() <= rows {
        lines
    } else {
        let k = first_selected(lines);
        let out = seq![lines[0]] + if k > 0 {
            seq![lines[k]]
        } else if k < 0 && lines.len() > 1 {
            seq![lines[1]]
        } else {
            Seq::empty()
        };
        if out.len() > rows {
            out.take(rows as int)
        } else {
            out
        }
    }
}

/// The sidebar's screen for a viewport of `rows` by `cols`.
pub open spec fn rendered(s: SidebarView, rows: usize, cols: usize) -> Seq<LineView> {
    fitted(plan_lines(s, cols), rows)
}

pub fn state_color(state: AgentState) -> (r: Option<u8>)
    ensures
        r == Some(color_of(state)),
{
    Some(
        match state {
            AgentState::Unknown => 8,
            AgentState::Idle => 7,
            AgentState::Working => 4,
            AgentState::Blocked => 1,
            AgentState::Done => 2,
        },
    )
}

fn source_label(s: DiagnosticSource) -> (r: &'static str)
    ensures
        r@ == source_name(s),
{
    match s {
        DiagnosticSource::Inventory => "inventory",
        DiagnosticSource::Manifest => "manifest",
        DiagnosticSource::Host => "host",
        DiagnosticSource::Notification => "notification",
        DiagnosticSource::Protocol => "protocol",
        DiagnosticSource::Detection => "detection",
    }
}

/// A screen line: the text cut to the width.
pub fn line(text: &str, selected: bool, color: Option<u8>, cols: usize) -> (r: RenderLine)
    ensures
        line_view(r) == line_of(text@, selected, color, cols),
{
    let chars = chars_of(text);
    let w = if cols == 0 {
        1
    } else {
        cols
    };
    let n = if chars.len() <= w {
        chars.len()
    } else {
        w
    };
    let mut kept: Vec<char> = Vec::new();
    for i in 0..n
        invariant
            n <= chars@.len(),
            kept@ == chars@.take(i as int),
    {
        kept.push(chars[i]);
        assert(kept@ =~= chars@.take(i + 1));
    }
    assert(n == chars@.len() ==> chars@.take(n as int) =~= chars@);
    RenderLine { text: string_of(kept.as_slice()), selected, color }
}

fn copy_line(l: &RenderLine) -> (r: RenderLine)
    ensures
        line_view(r) == line_view(*l),
{
    RenderLine { text: l.text.clone(), selected: l.selected, color: l.color }
}

/// The lines that fit the viewport.
pub fn trim_viewport(lines: Vec<RenderLine>, rows: usize) -> (r: Vec<RenderLine>)
    ensures
        lines_view(r@) == fitted(lines_view(lines@), rows),
{
    let ghost lv = lines_view(lines@);
    if rows == 0 {
        let r: Vec<RenderLine> = Vec::new();
        assert(lines_view(r@) =~= Seq::<LineView>::empty());
        return r;
    }
    if lines.len() <= rows {
        return lines;
    }
    let n = lines.len();
    let mut k: usize = 0;
    while k < n && !lines[k].selected
        invariant
            k <= n,
            n == lines@.len(),
            lv == lines_view(lines@),
            forall|j: int| 0 <= j < k ==> !(#[trigger] lv[j]).selected,
        decreases n - k,
    {
        k = k + 1;
    }
    proof {
        lemma_first_selected(lv, k as int);
    }
    let mut out: Vec<RenderLine> = Vec::new();
    out.push(copy_line(&lines[0]));
    if k < n {
        if k != 0 {
            out.push(copy_line(&lines[k]));
        }
    } else if n > 1 {
        out.push(copy_line(&lines[1]));
    }
    let ghost before = lines_view(out@);
    if out.len() > rows {
        out.truncate(rows);
    }
    proof {
        let want = fitted(lv, rows);
        assert(lines_view(out@) =~= want);
    }
    out
}

proof fn lemma_first_selected(lines: Seq<LineView>, k: int)
    requires
        0 <= k <= lines.len(),
        forall|j: int| 0 <= j < k ==> !(#[trigger] lines[j]).selected,
        k < lines.len() ==> lines[k].selected,
    ensures
        first_selected(lines) == if k < lines.len() {
            k
        } else {
            -1
        },
    decreases k,
{
    if k > 0 {
        assert forall|j: int| 0 <= j < k - 1 implies !(#[trigger] lines.drop_first()[j]).selected by {
            assert(lines.drop_first()[j] == lines[j + 1]);
        }
        assert(!lines[0].selected);
        lemma_first_selected(lines.drop_first(), k - 1);
    }
}

fn append_line(lines: &mut Vec<RenderLine>, l: RenderLine)
    ensures
        lines_view(final(lines)@) == lines_view(old(lines)@).push(line_view(l)),
{
    lines.push(l);
    assert(lines_view(lines@) =~= lines_view(old(lines)@).push(line_view(l)));
}

/// What the sidebar shows in a viewport of `rows` by `cols`.
pub fn render_plan(sidebar: &Sidebar, rows: usize, cols: usize) -> (r: Vec<RenderLine>)
    ensures
        lines_view(r@) == rendered(sidebar@, rows, cols),
{
    let mut lines: Vec<RenderLine> = Vec::new();
    assert(lines_view(lines@) =~= Seq::<LineView>::empty());
    if sidebar.permission == PermissionState::Denied {
        append_line(
            &mut lines,
            line(
                "Sidebar permissions denied; engine connection and pane focus unavailable.",
                false,
                None,
                cols,
            ),
        );
        assert(lines_view(lines@) =~= plan_lines(sidebar@, cols));
        return trim_viewport(lines, rows);
    }
    if let Some(v) = sidebar.incompatible_version {
        let mut text = "Incompatible engine protocol version ".to_owned();
        push_decimal(&mut text, v as u64);
        append_line(&mut lines, line(text.as_str(), false, None, cols));
        assert(lines_view(lines@) =~= plan_lines(sidebar@, cols));
        return trim_viewport(lines, rows);
    }
    let snapshot = match &sidebar.snapshot {
        Some(s) => s,
        None => {
            append_line(&mut lines, line("Connecting to zj-agents engine…", false, None, cols));
            assert(lines_view(lines@) =~= plan_lines(sidebar@, cols));
            return trim_viewport(lines, rows);
        },
    };
    let ghost snap = snapshot_view(*snapshot);
    append_line(&mut lines, line("zj-agents", false, None, cols));
    if let Some(err) = &sidebar.parse_error {
        append_line(&mut lines, line(err.as_str(), false, Some(1u8), cols));
    }
    let ghost head0 = lines_view(lines@);
    let nd = snapshot.diagnostics.len();
    for i in 0..nd
        invariant
            nd == snapshot.diagnostics@.len(),
            snap == snapshot_view(*snapshot),
            lines_view(lines@) == head0 + snap.diagnostics.take(i as int).map_values(
                |d: (DiagnosticSource, Seq<char>)|
                    line_of("["@ + source_name(d.0) + "] "@ + d.1, false, Some(1u8), cols),
            ),
    {
        let d = &snapshot.diagnostics[i];
        let mut text = "[".to_owned();
        text.append(source_label(d.source));
        text.append("] ");
        text.append(d.message.as_str());
        let ghost before = lines_view(lines@);
        append_line(&mut lines, line(text.as_str(), false, Some(1u8), cols));
        proof {
            assert(snap.diagnostics[i as int] == diagnostic_view(snapshot.diagnostics@[i as int]));
            assert(snap.diagnostics.take(i + 1) =~= snap.diagnostics.take(i as int).push(
                snap.diagnostics[i as int],
            ));
            assert(lines_view(lines@) =~= head0 + snap.diagnostics.take(i + 1).map_values(
                |d: (DiagnosticSource, Seq<char>)|
                    line_of("["@ + source_name(d.0) + "] "@ + d.1, false, Some(1u8), cols),
            ));
        }
    }
    proof {
        assert(snap.diagnostics.take(nd as int) =~= snap.diagnostics);
    }
    let ghost head = lines_view(lines@);
    let built = build_rows(snapshot);
    proof {
        assert(agents_view(snapshot.agents@) =~= snap.agents);
        assert(tabs_view(snapshot.tabs@) =~= snap.tabs);
    }
    let ghost bv = rows_view(built@);
    if built.len() == 0 {
        append_line(&mut lines, line("No agent panes detected.", false, None, cols));
        assert(lines_view(lines@) =~= plan_lines(sidebar@, cols));
        return trim_viewport(lines, rows);
    }
    let selected = sidebar.selection.pane_id();
    let nb = built.len();
    for i in 0..nb
        invariant
            nb == built@.len(),
            bv == rows_view(built@),
            selected == sidebar@.selected,
            lines_view(lines@) == head + bv.take(i as int).map_values(
                |r: RowView| row_line(r, selected, cols),
            ),
    {
        let l = match &built[i] {
            Row::Section(name) => line(name, false, None, cols),
            Row::Tab { position, name } => {
                let mut text = "Tab ".to_owned();
                push_decimal(&mut text, *position as u64);
                text.append(": ");
                text.append(name.as_str());
                line(text.as_str(), false, None, cols)
            },
            Row::Agent(agent) => {
                let text = agent.line_text();
                let is_selected = match selected {
                    Some(id) => id == agent.pane_id,
                    None => false,
                };
                line(text.as_str(), is_selected, state_color(agent.state), cols)
            },
        };
        proof {
            assert(line_view(l) == row_line(bv[i as int], selected, cols));
            assert(bv.take(i + 1) =~= bv.take(i as int).push(bv[i as int]));
        }
        append_line(&mut lines, l);
        assert(lines_view(lines@) =~= head + bv.take(i + 1).map_values(
            |r: RowView| row_line(r, selected, cols),
        ));
    }
    proof {
        assert(bv.take(nb as int) =~= bv);
        assert(lines_view(lines@) =~= plan_lines(sidebar@, cols));
    }
    trim_viewport(lines, rows)
}

/// The screen never holds more lines than the viewport has rows, nor a line wider than
/// its columns (one column at least).
pub proof fn lemma_screen_fits(s: SidebarView, rows: usize, cols: usize)
    ensures
        rendered(s, rows, cols).len() <= rows,
        forall|i: int|
            0 <= i < rendered(s, rows, cols).len() ==> (#[trigger] rendered(s, rows, cols)[i]).text.len()
                <= if cols == 0 {
                1
            } else {
                cols as int
            },
{
    let w: int = if cols == 0 {
        1
    } else {
        cols as int
    };
    let lines = plan_lines(s, cols);
    assert forall|i: int| 0 <= i < lines.len() implies (#[trigger] lines[i]).text.len() <= w by {
        if s.permission != PermissionState::Denied && s.incompatible_version is None && s.snapshot is Some {
            let snap = s.snapshot->0;
            let head = seq![line_of("zj-agents"@, false, None, cols)] + (match s.parse_error {
                Some(e) => seq![line_of(e, false, Some(1u8), cols)],
                None => Seq::empty(),
            });
            let diags = snap.diagnostics.map_values(
                |d: (DiagnosticSource, Seq<char>)|
                    line_of("["@ + source_name(d.0) + "] "@ + d.1, false, Some(1u8), cols),
            );
            let built = built_rows(snap.agents, snap.tabs);
            let body = built.map_values(|r: RowView| row_line(r, s.selected, cols));
            if i < head.len() {
            } else if i < head.len() + diags.len() {
                assert(lines[i] == diags[i - head.len()]);
            } else if built.len() > 0 {
                assert(lines[i] == body[i - head.len() - diags.len()]);
                let r = built[i - head.len() - diags.len()];
                match r {
                    RowView::Section(n) => {},
                    RowView::Tab(p, n) => {},
                    RowView::Agent(a) => {},
                }
            }
        }
    }
    let out = rendered(s, rows, cols);
    if rows > 0 && lines.len() > rows {
        let k = first_selected(lines);
        lemma_first_selected_bound(lines);
    }
}

proof fn lemma_first_selected_bound(lines: Seq<LineView>)
    ensures
        -1 <= first_selected(lines) < lines.len(),
    decreases lines.len(),
{
    if lines.len() > 0 {
        lemma_first_selected_bound(lines.drop_first());
    }
}

} // verus!
