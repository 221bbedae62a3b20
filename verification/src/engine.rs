use vstd::prelude::*;
use vstd::utf8::valid_utf8;

use crate::idmap::{
    keys_of, lemma_listing_keys, lemma_map_of_map_pairs, lemma_map_of_value, lemma_map_pairs_ascending,
    map_of, map_pairs, sorted_entries, IdMap,
};
use crate::inventory::{
    candidate_view, candidates_by_pane, candidates_view, live_terminals, merged_in, parse_pane_list_json,
    CandidateView, Inventory, PaneListRow, TerminalCandidate,
};
use crate::manifest::{
    classification_of, classify, claimants, detect, manifests_view, names_of, sort_lex,
    CompiledManifest, Detection, ManifestSetError, ManifestView, RawManifest,
};
use crate::model::{AgentState, DiagnosticSource};
use crate::notification::{
    batch_body, labels_displayable, lemma_body_displayable, batch_window_ms, default_argv, default_notify_argv, event_view, host_named,
    instantiated, is_stale, json_strings, kept, opt_view, verdict, parse_host_os, pending_view, queue_wf, slot_entries,
    slot_message, source_index, strings_view, template_error, upsert, without, AttentionQueue,
    AttentionEvent, DiagnosticSlots, NotifyTemplate, PendingAttention, PendingView, QueueView,
};
use crate::overrides::{
    adopt_overrides, adopted, first_named, frame_records, lemma_first_named, manifest_dir_for,
    manifest_record_view,
    parse_manifest_frame, record_error, records_of, records_view, resolve_manifest_dir,
    ManifestRecord, RecordView, ReloadController, READ_MANIFESTS_SH,
};
use crate::protocol::{
    agent_view, diagnostic_view, snapshot_eq, snapshot_view, tab_view, AgentSnapshot,
    AgentSnapshotView, Diagnostic, Hello, Reload, Snapshot, SnapshotView, TabSnapshot,
    PROTOCOL_VERSION,
};
use crate::sanitize::{
    choose_display, display_name, displayable, sanitize_label, sanitize_metadata, sanitized,
    sanitized_label,
};
use crate::state::{
    after_observation, after_read_failure, bumped_failures, focus_cleared, observation_attention,
    sat_add, AttentionKind, PaneState, PaneView,
};
use crate::strmap::StringMap;
use crate::text::{
    chars_of, decimal, decimal_string, lossy_utf8, str_eq, string_of, trim_chars, trimmed, utf8_lossy,
};

verus! {

broadcast use {crate::sanitize::group_displayable, crate::notification::group_labels};

// ---------------------------------------------------------------------------
// Host permission and host commands
// ---------------------------------------------------------------------------

/// Whether the host granted the plugin its permissions.
#[derive(Clone, Copy, Debug, PartialEq, Eq, Structural)]
pub enum PermissionState {
    Pending,
    Granted,
    Denied,
}

impl Default for PermissionState {
    fn default() -> (r: Self)
        ensures
            r == PermissionState::Pending,
    {
        PermissionState::Pending
    }
}

/// The host commands the engine runs.
#[derive(Clone, Copy, Debug, PartialEq, Eq, Structural)]
pub enum HostKind {
    PaneInventory,
    ManifestRead,
    HostDetect,
    Notify,
}

pub open spec fn kind_name(k: HostKind) -> Seq<char> {
    match k {
        HostKind::PaneInventory => "pane-inventory"@,
        HostKind::ManifestRead => "manifest-read"@,
        HostKind::HostDetect => "host-detect"@,
        HostKind::Notify => "notify"@,
    }
}

pub open spec fn kind_named(s: Seq<char>) -> Option<HostKind> {
    if s == "pane-inventory"@ {
        Some(HostKind::PaneInventory)
    } else if s == "manifest-read"@ {
        Some(HostKind::ManifestRead)
    } else if s == "host-detect"@ {
        Some(HostKind::HostDetect)
    } else if s == "notify"@ {
        Some(HostKind::Notify)
    } else {
        None
    }
}

impl HostKind {
    pub fn as_str(self) -> (r: &'static str)
        ensures
            r@ == kind_name(self),
    {
        match self {
            HostKind::PaneInventory => "pane-inventory",
            HostKind::ManifestRead => "manifest-read",
            HostKind::HostDetect => "host-detect",
            HostKind::Notify => "notify",
        }
    }

    pub fn parse(s: &str) -> (r: Option<Self>)
        ensures
            r == kind_named(s@),
    {
        if str_eq(s, "pane-inventory") {
            Some(HostKind::PaneInventory)
        } else if str_eq(s, "manifest-read") {
            Some(HostKind::ManifestRead)
        } else if str_eq(s, "host-detect") {
            Some(HostKind::HostDetect)
        } else if str_eq(s, "notify") {
            Some(HostKind::Notify)
        } else {
            None
        }
    }
}

/// The context that travels with a host command and comes back with its result.
pub open spec fn context_map(kind: HostKind, request_id: Seq<char>) -> Map<Seq<char>, Seq<char>> {
    Map::empty().insert("kind"@, kind_name(kind)).insert("request_id"@, request_id)
}

pub fn context(kind: HostKind, request_id: &str) -> (r: StringMap)
    ensures
        r@ == context_map(kind, request_id@),
{
    let mut map = StringMap::new();
    map.insert("kind".to_owned(), kind.as_str().to_owned());
    map.insert("request_id".to_owned(), request_id.to_owned());
    map
}

/// The host commands in flight, as plain values.
pub struct RequestsView {
    pub next_id: u64,
    pub active: Map<HostKind, Seq<char>>,
    pub notify: Set<Seq<char>>,
}

pub open spec fn sat_inc64(n: u64) -> u64 {
    if n == u64::MAX {
        n
    } else {
        (n + 1) as u64
    }
}

/// The requests after starting a command of `kind`, and the context it was given, if
/// it could start: one command of each kind at a time, notifications excepted.
pub open spec fn started(r: RequestsView, kind: HostKind) -> (RequestsView, Option<
    Map<Seq<char>, Seq<char>>,
>) {
    let id = sat_inc64(r.next_id);
    let name = decimal(id as nat);
    if kind == HostKind::Notify {
        (RequestsView { next_id: id, notify: r.notify.insert(name), ..r }, Some(context_map(kind, name)))
    } else if r.active.dom().contains(kind) {
        (r, None)
    } else {
        (
            RequestsView { next_id: id, active: r.active.insert(kind, name), ..r },
            Some(context_map(kind, name)),
        )
    }
}

/// The requests after a result came back with `ctx`, and the command it answers, if it
/// answers the one in flight.
pub open spec fn resolved(r: RequestsView, ctx: Map<Seq<char>, Seq<char>>) -> (
    RequestsView,
    Option<HostKind>,
) {
    if !ctx.dom().contains("kind"@) || kind_named(ctx["kind"@]) is None || !ctx.dom().contains(
        "request_id"@,
    ) {
        (r, None)
    } else {
        let kind = kind_named(ctx["kind"@])->0;
        let id = ctx["request_id"@];
        if kind == HostKind::Notify {
            if r.notify.contains(id) {
                (RequestsView { notify: r.notify.remove(id), ..r }, Some(kind))
            } else {
                (r, None)
            }
        } else if r.active.dom().contains(kind) && r.active[kind] == id {
            (RequestsView { active: r.active.remove(kind), ..r }, Some(kind))
        } else {
            (r, None)
        }
    }
}

/// Correlates host commands with their results.
#[derive(Debug)]
pub struct HostRequests {
    next_id: u64,
    inventory: Option<String>,
    manifest_read: Option<String>,
    host_detect: Option<String>,
    notify_active: Vec<String>,
}

pub open spec fn slot_entry(m: Map<HostKind, Seq<char>>, k: HostKind, s: Option<String>) -> Map<
    HostKind,
    Seq<char>,
> {
    match s {
        Some(id) => m.insert(k, id@),
        None => m,
    }
}

impl HostRequests {
    #[verifier::type_invariant]
    closed spec fn inv(self) -> bool {
        forall|i: int, j: int|
            0 <= i < j < self.notify_active@.len() ==> (#[trigger] self.notify_active@[i])@
                != (#[trigger] self.notify_active@[j])@
    }

    pub closed spec fn view(&self) -> RequestsView {
        RequestsView {
            next_id: self.next_id,
            active: slot_entry(
                slot_entry(
                    slot_entry(Map::empty(), HostKind::PaneInventory, self.inventory),
                    HostKind::ManifestRead,
                    self.manifest_read,
                ),
                HostKind::HostDetect,
                self.host_detect,
            ),
            notify: self.notify_active@.map_values(|s: String| s@).to_set(),
        }
    }

    pub fn new() -> (r: Self)
        ensures
            r@.next_id == 0,
            r@.active == Map::<HostKind, Seq<char>>::empty(),
            r@.notify == Set::<Seq<char>>::empty(),
    {
        let r = HostRequests {
            next_id: 0,
            inventory: None,
            manifest_read: None,
            host_detect: None,
            notify_active: Vec::new(),
        };
        assert(r@.active =~= Map::<HostKind, Seq<char>>::empty());
        assert(r@.notify =~= Set::<Seq<char>>::empty());
        r
    }

    fn slot(&self, kind: HostKind) -> (r: &Option<String>)
        requires
            kind != HostKind::Notify,
        ensures
            r is Some <==> self@.active.dom().contains(kind),
            r matches Some(id) ==> self@.active[kind] == id@,
    {
        match kind {
            HostKind::PaneInventory => &self.inventory,
            HostKind::ManifestRead => &self.manifest_read,
            _ => &self.host_detect,
        }
    }

    fn set_slot(&mut self, kind: HostKind, value: Option<String>)
        requires
            kind != HostKind::Notify,
        ensures
            final(self)@.next_id == old(self)@.next_id,
            final(self)@.notify == old(self)@.notify,
            final(self)@.active == match value {
                Some(id) => old(self)@.active.insert(kind, id@),
                None => old(self)@.active.remove(kind),
            },
    {
        proof {
            use_type_invariant(&*self);
        }
        match kind {
            HostKind::PaneInventory => {
                self.inventory = value;
            },
            HostKind::ManifestRead => {
                self.manifest_read = value;
            },
            _ => {
                self.host_detect = value;
            },
        }
        assert(self@.active =~= match value {
            Some(id) => old(self)@.active.insert(kind, id@),
            None => old(self)@.active.remove(kind),
        });
    }

    fn allocate_id(&mut self) -> (r: String)
        ensures
            final(self)@ == (RequestsView { next_id: sat_inc64(old(self)@.next_id), ..old(self)@ }),
            r@ == decimal(sat_inc64(old(self)@.next_id) as nat),
    {
        proof {
            use_type_invariant(&*self);
        }
        self.next_id = self.next_id.saturating_add(1);
        decimal_string(self.next_id)
    }

    fn notify_position(&self, id: &str) -> (r: Option<usize>)
        ensures
            match r {
                Some(i) => i < self.notify_active@.len() && self.notify_active@[i as int]@ == id@,
                None => !self@.notify.contains(id@),
            },
    {
        let n = self.notify_active.len();
        for i in 0..n
            invariant
                n == self.notify_active@.len(),
                forall|j: int| 0 <= j < i ==> (#[trigger] self.notify_active@[j])@ != id@,
        {
            if str_eq(self.notify_active[i].as_str(), id) {
                return Some(i);
            }
        }
        proof {
            let s = self.notify_active@.map_values(|s: String| s@);
            if s.to_set().contains(id@) {
                let j = choose|j: int| 0 <= j < s.len() && s[j] == id@;
                assert(self.notify_active@[j]@ == id@);
            }
        }
        None
    }

    /// Starts a command of `kind` and gives the context to send with it; `None` while
    /// a command of that kind is in flight, notifications excepted.
    pub fn start(&mut self, kind: HostKind) -> (r: Option<StringMap>)
        ensures
            final(self)@ == started(old(self)@, kind).0,
            match started(old(self)@, kind).1 {
                Some(c) => r matches Some(m) && m@ == c,
                None => r is None,
            },
    {
        proof {
            use_type_invariant(&*self);
        }
        if kind == HostKind::Notify {
            let id = self.allocate_id();
            proof {
                use_type_invariant(&*self);
            }
            let ghost lst = self.notify_active@;
            let ghost s = lst.map_values(|s: String| s@);
            match self.notify_position(id.as_str()) {
                Some(_) => {
                    proof {
                        assert(s.to_set().insert(id@) =~= s.to_set()) by {
                            let i = choose|i: int| 0 <= i < lst.len() && lst[i]@ == id@;
                            assert(s[i] == id@);
                        }
                    }
                },
                None => {
                    let mut list: Vec<String> = Vec::new();
                    std::mem::swap(&mut list, &mut self.notify_active);
                    list.push(id.clone());
                    proof {
                        assert forall|a: int, b: int| 0 <= a < b < list@.len() implies (#[trigger] list@[a])@
                            != (#[trigger] list@[b])@ by {
                            assert(list@[a] == lst[a]);
                            if b == list@.len() - 1 {
                                assert(s.contains(lst[a]@)) by {
                                    assert(s[a] == lst[a]@);
                                }
                            } else {
                                assert(list@[b] == lst[b]);
                            }
                        }
                    }
                    self.notify_active = list;
                    proof {
                        assert(self.notify_active@.map_values(|s: String| s@) =~= s.push(id@));
                        s.lemma_push_to_set_commute(id@);
                    }
                },
            }
            assert(self@ =~= started(old(self)@, kind).0);
            return Some(context(kind, id.as_str()));
        }
        if self.slot(kind).is_some() {
            return None;
        }
        let id = self.allocate_id();
        let ctx = context(kind, id.as_str());
        self.set_slot(kind, Some(id));
        Some(ctx)
    }

    /// Matches a result's context to the command in flight and retires it; `None` for
    /// a context that names no command in flight, which is then ignored.
    pub fn resolve(&mut self, ctx: &StringMap) -> (r: Option<HostKind>)
        ensures
            final(self)@ == resolved(old(self)@, ctx@).0,
            r == resolved(old(self)@, ctx@).1,
    {
        proof {
            use_type_invariant(&*self);
        }
        let kind = match ctx.get("kind") {
            Some(k) => match HostKind::parse(k) {
                Some(kind) => kind,
                None => {
                    return None;
                },
            },
            None => {
                return None;
            },
        };
        let request_id = match ctx.get("request_id") {
            Some(id) => id,
            None => {
                return None;
            },
        };
        if kind == HostKind::Notify {
            match self.notify_position(request_id) {
                Some(i) => {
                    let ghost lst = self.notify_active@;
                    let ghost s = lst.map_values(|s: String| s@);
                    let mut list: Vec<String> = Vec::new();
                    std::mem::swap(&mut list, &mut self.notify_active);
                    list.remove(i);
                    proof {
                        assert forall|a: int, b: int| 0 <= a < b < list@.len() implies (#[trigger] list@[a])@
                            != (#[trigger] list@[b])@ by {
                            let a2 = if a < i { a } else { a + 1 };
                            let b2 = if b < i { b } else { b + 1 };
                            assert(list@[a] == lst[a2]);
                            assert(list@[b] == lst[b2]);
                        }
                    }
                    self.notify_active = list;
                    proof {
                        let t = self.notify_active@.map_values(|s: String| s@);
                        assert(t =~= s.remove(i as int));
                        assert(t.to_set() =~= s.to_set().remove(request_id@)) by {
                            assert forall|x: Seq<char>| #[trigger] t.to_set().contains(x) == s.to_set().remove(request_id@).contains(x) by {
                                if t.contains(x) {
                                    let j = choose|j: int| 0 <= j < t.len() && t[j] == x;
                                    if j < i {
                                        assert(s[j] == x);
                                        assert(j != i);
                                    } else {
                                        assert(s[j + 1] == x);
                                    }
                                    assert(x != request_id@);
                                }
                                if s.contains(x) && x != request_id@ {
                                    let j = choose|j: int| 0 <= j < s.len() && s[j] == x;
                                    if j < i {
                                        assert(t[j] == x);
                                    } else {
                                        assert(j != i);
                                        assert(t[j - 1] == x);
                                    }
                                }
                            }
                        }
                    }
                    proof {
                        assert(s[i as int] == request_id@);
                        assert(old(self)@.notify.contains(request_id@));
                        assert(self@.active =~= old(self)@.active);
                    }
                    return Some(HostKind::Notify);
                },
                None => {
                    return None;
                },
            }
        }
        let matches = match self.slot(kind) {
            Some(active) => str_eq(active.as_str(), request_id),
            None => false,
        };
        if matches {
            self.set_slot(kind, None);
            Some(kind)
        } else {
            None
        }
    }
}

impl Default for HostRequests {
    fn default() -> (r: Self)
        ensures
            r@.next_id == 0,
            r@.active == Map::<HostKind, Seq<char>>::empty(),
            r@.notify == Set::<Seq<char>>::empty(),
    {
        HostRequests::new()
    }
}

// ---------------------------------------------------------------------------
// Effects, timer plans and observations
// ---------------------------------------------------------------------------

/// What the engine asks its host to do.
#[derive(Debug)]
pub enum Effect {
    RequestInventory { argv: Vec<String>, context: StringMap },
    ReadOverrides { argv: Vec<String>, env: StringMap, context: StringMap },
    DetectHost { argv: Vec<String>, context: StringMap },
    Notify { argv: Vec<String>, context: StringMap },
    SendSnapshot { plugin_id: u32, payload: Snapshot },
}

/// An effect as plain values.
pub enum EffectView {
    RequestInventory { argv: Seq<Seq<char>>, context: Map<Seq<char>, Seq<char>> },
    ReadOverrides {
        argv: Seq<Seq<char>>,
        env: Map<Seq<char>, Seq<char>>,
        context: Map<Seq<char>, Seq<char>>,
    },
    DetectHost { argv: Seq<Seq<char>>, context: Map<Seq<char>, Seq<char>> },
    Notify { argv: Seq<Seq<char>>, context: Map<Seq<char>, Seq<char>> },
    SendSnapshot { plugin_id: u32, payload: SnapshotView },
}

pub open spec fn effect_view(e: Effect) -> EffectView {
    match e {
        Effect::RequestInventory { argv, context } => EffectView::RequestInventory {
            argv: strings_view(argv@),
            context: context@,
        },
        Effect::ReadOverrides { argv, env, context } => EffectView::ReadOverrides {
            argv: strings_view(argv@),
            env: env@,
            context: context@,
        },
        Effect::DetectHost { argv, context } => EffectView::DetectHost {
            argv: strings_view(argv@),
            context: context@,
        },
        Effect::Notify { argv, context } => EffectView::Notify {
            argv: strings_view(argv@),
            context: context@,
        },
        Effect::SendSnapshot { plugin_id, payload } => EffectView::SendSnapshot {
            plugin_id,
            payload: snapshot_view(payload),
        },
    }
}

pub open spec fn effects_view(s: Seq<Effect>) -> Seq<EffectView> {
    s.map_values(|e: Effect| effect_view(e))
}

/// The work a timer tick asks of the host before the engine can finish it.
#[derive(Debug)]
pub struct TimerPlan {
    pub elapsed_ms: u64,
    pub effects: Vec<Effect>,
    pub reconcile_pane_ids: Vec<u32>,
    pub viewport_pane_ids: Vec<u32>,
}

/// A host read that failed.
#[derive(Clone, Copy, Debug, PartialEq, Eq, Structural)]
pub enum HostError {
    Failed,
}

/// What the host read for a timer tick: the focused pane, the foreground commands of
/// the panes due for reconciliation, and the viewports of the tracked panes.
#[derive(Debug)]
pub struct TimerObservations {
    pub focused_pane_id: Option<u32>,
    pub reconciled_commands: IdMap<u32, Result<Vec<String>, HostError>>,
    pub viewports: IdMap<u32, Result<Vec<String>, HostError>>,
}

/// A host read as plain values: the lines read, or nothing where the read failed.
pub open spec fn read_view(r: Result<Vec<String>, HostError>) -> Option<Seq<Seq<char>>> {
    match r {
        Ok(v) => Some(strings_view(v@)),
        Err(_) => None,
    }
}

/// The reads of a map of host reads, in ascending pane order.
pub open spec fn reads_view(m: IdMap<u32, Result<Vec<String>, HostError>>) -> Seq<
    (u32, Option<Seq<Seq<char>>>),
> {
    map_pairs(m.entries(), |r: Result<Vec<String>, HostError>| read_view(r))
}

// ---------------------------------------------------------------------------
// Configuration
// ---------------------------------------------------------------------------

/// The plugin configuration the engine uses.
#[derive(Debug)]
pub struct EngineConfig {
    pub manifest_dir: Option<String>,
    pub notify: bool,
    pub notify_command: Option<NotifyTemplate>,
    pub notify_disabled_reason: Option<&'static str>,
}

/// A configuration as plain values.
pub struct ConfigView {
    pub manifest_dir: Option<Seq<char>>,
    pub notify: bool,
    pub notify_command: Option<Seq<Seq<char>>>,
    pub notify_disabled_reason: Option<Seq<char>>,
}

pub open spec fn template_view(t: Option<NotifyTemplate>) -> Option<Seq<Seq<char>>> {
    match t {
        Some(t) => Some(t.argv_view()),
        None => None,
    }
}

pub open spec fn config_view(c: EngineConfig) -> ConfigView {
    ConfigView {
        manifest_dir: opt_view(c.manifest_dir),
        notify: c.notify,
        notify_command: template_view(c.notify_command),
        notify_disabled_reason: match c.notify_disabled_reason {
            Some(r) => Some(r@),
            None => None,
        },
    }
}

/// The command a `notify_command` setting spells, if it is a valid template.
pub open spec fn template_of(json: Seq<char>) -> Option<Seq<Seq<char>>> {
    match json_strings(json) {
        None => None,
        Some(a) => if template_error(a) is None {
            Some(a)
        } else {
            None
        },
    }
}

/// The configuration read from the plugin's settings: `manifest_dir` where not empty;
/// `notify` on unless set to `false`, and off with a reason for any value but `true`
/// and `false`; a `notify_command` that is not a valid template switches notifications
/// off with its own reason. Other keys are ignored.
pub open spec fn config_of(m: Map<Seq<char>, Seq<char>>) -> ConfigView {
    let dir = if m.dom().contains("manifest_dir"@) && m["manifest_dir"@].len() > 0 {
        Some(m["manifest_dir"@])
    } else {
        None
    };
    let set = m.dom().contains("notify"@);
    let notify = if set {
        m["notify"@] == "true"@
    } else {
        true
    };
    let reason = if set && m["notify"@] != "true"@ && m["notify"@] != "false"@ {
        Some("invalid notify"@)
    } else {
        None
    };
    if m.dom().contains("notify_command"@) {
        match template_of(m["notify_command"@]) {
            Some(a) => ConfigView {
                manifest_dir: dir,
                notify,
                notify_command: Some(a),
                notify_disabled_reason: reason,
            },
            None => ConfigView {
                manifest_dir: dir,
                notify: false,
                notify_command: None,
                notify_disabled_reason: Some("invalid notify_command"@),
            },
        }
    } else {
        ConfigView { manifest_dir: dir, notify, notify_command: None, notify_disabled_reason: reason }
    }
}

impl EngineConfig {
    pub fn parse(configuration: StringMap) -> (r: Self)
        ensures
            config_view(r) == config_of(configuration@),
    {
        let mut notify = true;
        let mut notify_command: Option<NotifyTemplate> = None;
        let mut notify_disabled_reason: Option<&'static str> = None;
        let mut manifest_dir: Option<String> = None;
        if let Some(v) = configuration.get("manifest_dir") {
            if !v.is_empty() {
                manifest_dir = Some(v.to_owned());
            }
        }
        if let Some(v) = configuration.get("notify") {
            if str_eq(v, "true") {
                notify = true;
            } else if str_eq(v, "false") {
                notify = false;
            } else {
                notify = false;
                notify_disabled_reason = Some("invalid notify");
            }
        }
        if let Some(raw) = configuration.get("notify_command") {
            match NotifyTemplate::parse(raw) {
                Ok(t) => {
                    notify_command = Some(t);
                },
                Err(_) => {
                    notify = false;
                    notify_disabled_reason = Some("invalid notify_command");
                },
            }
        }
        EngineConfig { manifest_dir, notify, notify_command, notify_disabled_reason }
    }
}

impl Clone for EngineConfig {
    fn clone(&self) -> (r: Self)
        ensures
            config_view(r) == config_view(*self),
    {
        EngineConfig {
            manifest_dir: match &self.manifest_dir {
                Some(d) => Some(d.clone()),
                None => None,
            },
            notify: self.notify,
            notify_command: match &self.notify_command {
                Some(t) => Some(t.clone()),
                None => None,
            },
            notify_disabled_reason: self.notify_disabled_reason,
        }
    }
}

// ---------------------------------------------------------------------------
// The engine
// ---------------------------------------------------------------------------

/// A pane the engine tracks as running a known agent.
#[derive(Debug)]
struct TrackedPane {
    agent: String,
    agent_label: String,
    display: String,
    tab_position: usize,
    state: PaneState,
    fallback_used: bool,
    cwd_basename: Option<String>,
    title: Option<String>,
}

/// A tracked pane as plain values.
pub struct TrackedView {
    pub agent: Seq<char>,
    pub agent_label: Seq<char>,
    pub display: Seq<char>,
    pub tab_position: usize,
    pub state: PaneView,
    pub fallback_used: bool,
    pub cwd_basename: Option<Seq<char>>,
    pub title: Option<Seq<char>>,
}

spec fn tracked_view(t: TrackedPane) -> TrackedView {
    TrackedView {
        agent: t.agent@,
        agent_label: t.agent_label@,
        display: t.display@,
        tab_position: t.tab_position,
        state: t.state@,
        fallback_used: t.fallback_used,
        cwd_basename: opt_view(t.cwd_basename),
        title: opt_view(t.title),
    }
}

fn copy_opt(s: &Option<String>) -> (r: Option<String>)
    ensures
        opt_view(r) == opt_view(*s),
{
    match s {
        Some(v) => Some(v.clone()),
        None => None,
    }
}

fn copy_tracked(t: &TrackedPane) -> (r: TrackedPane)
    ensures
        tracked_view(r) == tracked_view(*t),
{
    TrackedPane {
        agent: t.agent.clone(),
        agent_label: t.agent_label.clone(),
        display: t.display.clone(),
        tab_position: t.tab_position,
        state: t.state.clone(),
        fallback_used: t.fallback_used,
        cwd_basename: copy_opt(&t.cwd_basename),
        title: copy_opt(&t.title),
    }
}

/// The engine's state as plain values.
#[verifier::ext_equal]
pub struct EngineView {
    pub permission: PermissionState,
    pub config: ConfigView,
    /// The bundled manifests, or `None` where they failed to compile.
    pub bundled: Option<Seq<ManifestView>>,
    pub manifests: Seq<ManifestView>,
    pub inventory: Map<u32, CandidateView>,
    pub panes: Map<u32, TrackedView>,
    pub tabs: Map<usize, Seq<char>>,
    pub sidebars: Map<u32, ()>,
    pub diagnostics: Seq<Option<Seq<char>>>,
    pub attention: QueueView,
    pub requests: RequestsView,
    pub reload_active: bool,
    pub reload_pending: bool,
    pub inventory_bootstrapped: bool,
    pub inventory_retry_ms: u64,
    pub reconcile_elapsed_ms: u64,
    pub last_sent: Option<SnapshotView>,
    pub notify_template: Option<Seq<Seq<char>>>,
    pub home: Option<Seq<char>>,
}

/// The engine: tracks agent panes, classifies their viewports, batches notifications
/// and publishes snapshots to the sidebars. Host work goes out as effects.
#[derive(Debug)]
pub struct Engine {
    permission: PermissionState,
    config: EngineConfig,
    bundled: Result<Vec<CompiledManifest>, ManifestSetError>,
    manifests: Vec<CompiledManifest>,
    inventory: Inventory,
    panes: IdMap<u32, TrackedPane>,
    tabs: IdMap<usize, String>,
    sidebars: IdMap<u32, ()>,
    diagnostics: DiagnosticSlots,
    attention: AttentionQueue,
    host_requests: HostRequests,
    reload: ReloadController,
    inventory_bootstrapped: bool,
    inventory_retry_ms: u64,
    reconcile_elapsed_ms: u64,
    last_sent_semantic: Option<Snapshot>,
    notify_template: Option<NotifyTemplate>,
    home: Option<String>,
}

/// Every name the engine keeps for showing is fit to be shown: the tab names, each
/// tracked pane's display name and agent label, each diagnostic message, and the label
/// of each pending notification.
pub open spec fn shows_clean(e: EngineView) -> bool {
    &&& forall|k: usize| #[trigger] e.tabs.dom().contains(k) ==> displayable(e.tabs[k])
    &&& forall|k: u32|
        #[trigger] e.panes.dom().contains(k) ==> displayable(e.panes[k].display) && displayable(
            e.panes[k].agent_label,
        )
    &&& forall|i: int|
        0 <= i < e.diagnostics.len() && (#[trigger] e.diagnostics[i]) is Some ==> displayable(
            e.diagnostics[i]->0,
        )
    &&& labels_displayable(e.attention.pending)
}

/// Replacing one tracked pane with one whose names are fit to be shown keeps the
/// engine's names fit to be shown.
proof fn lemma_pane_update_shows_clean(e: EngineView, pane_id: u32, t: TrackedView)
    requires
        shows_clean(e),
        displayable(t.display),
        displayable(t.agent_label),
    ensures
        shows_clean(EngineView { panes: e.panes.insert(pane_id, t), ..e }),
{
    let e2 = EngineView { panes: e.panes.insert(pane_id, t), ..e };
    assert forall|k: u32| #[trigger] e2.panes.dom().contains(k) implies displayable(
        e2.panes[k].display,
    ) && displayable(e2.panes[k].agent_label) by {
        if k != pane_id {
            assert(e.panes.dom().contains(k));
        }
    }
}

pub open spec fn six_empty_slots() -> Seq<Option<Seq<char>>> {
    Seq::new(6, |i: int| None::<Seq<char>>)
}

/// The engine a configuration starts: nothing tracked, waiting for permission.
pub open spec fn initial(c: ConfigView, bundled: Option<Seq<ManifestView>>, home: Option<Seq<char>>) -> EngineView {
    EngineView {
        permission: PermissionState::Pending,
        config: c,
        bundled,
        manifests: match bundled {
            Some(b) => b,
            None => Seq::empty(),
        },
        inventory: Map::empty(),
        panes: Map::empty(),
        tabs: Map::empty(),
        sidebars: Map::empty(),
        diagnostics: match c.notify_disabled_reason {
            Some(r) => six_empty_slots().update(
                source_index(DiagnosticSource::Notification),
                slot_message(r),
            ),
            None => six_empty_slots(),
        },
        attention: QueueView { pending: Seq::empty(), remaining_ms: None },
        requests: RequestsView { next_id: 0, active: Map::empty(), notify: Set::empty() },
        reload_active: false,
        reload_pending: false,
        inventory_bootstrapped: false,
        inventory_retry_ms: 0,
        reconcile_elapsed_ms: 0,
        last_sent: None,
        notify_template: None,
        home,
    }
}

pub open spec fn bundled_view(b: Result<Vec<CompiledManifest>, ManifestSetError>) -> Option<Seq<ManifestView>> {
    match b {
        Ok(v) => Some(manifests_view(v@)),
        Err(_) => None,
    }
}

/// `e` with a diagnostic slot set.
pub open spec fn with_diag(e: EngineView, s: DiagnosticSource, m: Seq<char>) -> EngineView {
    EngineView { diagnostics: e.diagnostics.update(source_index(s), slot_message(m)), ..e }
}

/// `e` with a diagnostic slot cleared.
pub open spec fn without_diag(e: EngineView, s: DiagnosticSource) -> EngineView {
    EngineView { diagnostics: e.diagnostics.update(source_index(s), None), ..e }
}

/// The queue once a pane's pending notification is dropped.
pub open spec fn queue_without(q: QueueView, pane_id: u32) -> QueueView {
    let p = without(q.pending, pane_id);
    QueueView {
        pending: p,
        remaining_ms: if p.len() == 0 {
            None
        } else {
            q.remaining_ms
        },
    }
}

/// A pane no longer tracked, and its pending notification dropped.
pub open spec fn demoted(e: EngineView, pane_id: u32) -> EngineView {
    EngineView {
        panes: e.panes.remove(pane_id),
        attention: queue_without(e.attention, pane_id),
        ..e
    }
}

pub open spec fn fresh_pane() -> PaneView {
    PaneView {
        state: AgentState::Unknown,
        baseline_pending: true,
        completion_pending: false,
        read_failures: 0,
        generation: 0,
        since_ms: 0,
    }
}

/// A pane tracked as running the agent `name`: a new pane starts from its inventory
/// row; a tracked pane that changes agent keeps its display and starts a new baseline.
pub open spec fn promoted(e: EngineView, pane_id: u32, name: Seq<char>, label: Seq<char>) -> EngineView {
    if e.panes.dom().contains(pane_id) {
        let p = e.panes[pane_id];
        if p.agent != name {
            EngineView {
                panes: e.panes.insert(
                    pane_id,
                    TrackedView {
                        agent: name,
                        agent_label: sanitized_label(label, 60, pane_id),
                        state: PaneView {
                            baseline_pending: true,
                            completion_pending: false,
                            read_failures: 0,
                            ..p.state
                        },
                        ..p
                    },
                ),
                ..e
            }
        } else {
            e
        }
    } else {
        let known = e.inventory.dom().contains(pane_id);
        let title = if known {
            Some(e.inventory[pane_id].title)
        } else {
            None
        };
        EngineView {
            panes: e.panes.insert(
                pane_id,
                TrackedView {
                    agent: name,
                    agent_label: sanitized_label(label, 60, pane_id),
                    display: display_name(None, title, pane_id),
                    tab_position: if known {
                        e.inventory[pane_id].tab_position
                    } else {
                        0
                    },
                    state: fresh_pane(),
                    fallback_used: false,
                    cwd_basename: None,
                    title,
                },
            ),
            ..e
        }
    }
}

/// The strings joined by `sep`.
pub open spec fn joined_with(s: Seq<Seq<char>>, sep: Seq<char>) -> Seq<char>
    decreases s.len(),
{
    if s.len() == 0 {
        Seq::empty()
    } else if s.len() == 1 {
        s[0]
    } else {
        joined_with(s.drop_last(), sep) + sep + s.last()
    }
}

/// The engine after a pane's foreground command was seen: one claiming manifest
/// tracks it (where promotion is allowed), none untracks it, several untrack it and
/// report the ambiguity.
pub open spec fn applied(e: EngineView, pane_id: u32, argv: Seq<Seq<char>>, allow_promote: bool) -> EngineView {
    let c = claimants(e.manifests, argv);
    if c.len() == 0 {
        demoted(e, pane_id)
    } else if c.len() == 1 {
        without_diag(
            if allow_promote {
                promoted(e, pane_id, c[0].name, c[0].label)
            } else {
                e
            },
            DiagnosticSource::Detection,
        )
    } else {
        with_diag(
            demoted(e, pane_id),
            DiagnosticSource::Detection,
            "ambiguous manifests: "@ + joined_with(sort_lex(names_of(c)), ","@),
        )
    }
}

impl Engine {
    pub closed spec fn wf(&self) -> bool {
        &&& self.panes.wf()
        &&& self.tabs.wf()
        &&& self.sidebars.wf()
        &&& self.diagnostics@.len() == 6
        &&& queue_wf(self.attention@)
        &&& shows_clean(self@)
    }

    pub closed spec fn view(&self) -> EngineView {
        EngineView {
            permission: self.permission,
            config: config_view(self.config),
            bundled: bundled_view(self.bundled),
            manifests: manifests_view(self.manifests@),
            inventory: self.inventory@,
            panes: self.panes.view().map_values(|t: TrackedPane| tracked_view(t)),
            tabs: self.tabs.view().map_values(|s: String| s@),
            sidebars: self.sidebars.view(),
            diagnostics: self.diagnostics@,
            attention: self.attention@,
            requests: self.host_requests@,
            reload_active: self.reload.is_active(),
            reload_pending: self.reload.has_pending(),
            inventory_bootstrapped: self.inventory_bootstrapped,
            inventory_retry_ms: self.inventory_retry_ms,
            reconcile_elapsed_ms: self.reconcile_elapsed_ms,
            last_sent: match self.last_sent_semantic {
                Some(s) => Some(snapshot_view(s)),
                None => None,
            },
            notify_template: template_view(self.notify_template),
            home: opt_view(self.home),
        }
    }

    /// An engine for a configuration, the bundled manifests as compiled, and the
    /// user's home directory.
    pub fn new(
        config: EngineConfig,
        bundled: Result<Vec<CompiledManifest>, ManifestSetError>,
        home: Option<String>,
    ) -> (r: Self)
        ensures
            r.wf(),
            r@ == initial(config_view(config), bundled_view(bundled), opt_view(home)),
    {
        let mut diagnostics = DiagnosticSlots::new();
        if let Some(reason) = config.notify_disabled_reason {
            diagnostics.set(DiagnosticSource::Notification, reason);
        }
        let manifests = match &bundled {
            Ok(b) => copy_manifests(b),
            Err(_) => Vec::new(),
        };
        let attention = AttentionQueue::new();
        let _ = attention.is_well_formed();
        let r = Engine {
            permission: PermissionState::Pending,
            config,
            bundled,
            manifests,
            inventory: Inventory::new(),
            panes: IdMap::new(),
            tabs: IdMap::new(),
            sidebars: IdMap::new(),
            diagnostics,
            attention,
            host_requests: HostRequests::new(),
            reload: ReloadController::new(),
            inventory_bootstrapped: false,
            inventory_retry_ms: 0,
            reconcile_elapsed_ms: 0,
            last_sent_semantic: None,
            notify_template: None,
            home,
        };
        proof {
            let i = initial(config_view(r.config), bundled_view(r.bundled), opt_view(r.home));
            assert(r@.panes =~= i.panes);
            assert(r@.tabs =~= i.tabs);
            assert(r@.manifests =~= i.manifests);
            assert(r@.diagnostics =~= i.diagnostics);
            assert(r@.attention.pending =~= i.attention.pending);
            assert(r@ =~= i);
        }
        r
    }

    pub fn permission_is_granted(&self) -> (r: bool)
        ensures
            r == (self@.permission == PermissionState::Granted),
    {
        self.permission == PermissionState::Granted
    }

    /// A pane closed: it leaves the inventory, the tracked panes and the queue.
    pub fn on_pane_closed(&mut self, pane_id: u32)
        requires
            old(self).wf(),
        ensures
            final(self).wf(),
            final(self)@ == (EngineView { inventory: old(self)@.inventory.remove(pane_id), ..demoted(old(self)@, pane_id) }),
    {
        self.inventory.remove(pane_id);
        self.demote(pane_id);
    }

    /// Stops tracking a pane.
    fn demote(&mut self, pane_id: u32)
        requires
            old(self).wf(),
        ensures
            final(self).wf(),
            final(self)@ == demoted(old(self)@, pane_id),
    {
        self.panes.remove(&pane_id);
        self.attention.on_focused(pane_id);
        let _ = self.attention.is_well_formed();
        proof {
            assert(self@.panes =~= old(self)@.panes.remove(pane_id));
            assert(self@ =~= demoted(old(self)@, pane_id));
        }
    }

    pub fn on_unknown_pipe(&mut self)
        requires
            old(self).wf(),
        ensures
            final(self).wf(),
            final(self)@ == with_diag(old(self)@, DiagnosticSource::Protocol, "unknown pipe message"@),
    {
        self.diagnostics.set(DiagnosticSource::Protocol, "unknown pipe message");
        assert(self@ =~= with_diag(old(self)@, DiagnosticSource::Protocol, "unknown pipe message"@));
    }
}

fn copy_manifests(v: &Vec<CompiledManifest>) -> (r: Vec<CompiledManifest>)
    ensures
        manifests_view(r@) == manifests_view(v@),
{
    let mut r: Vec<CompiledManifest> = Vec::new();
    let n = v.len();
    for i in 0..n
        invariant
            n == v@.len(),
            r@.len() == i,
            forall|j: int| 0 <= j < i ==> (#[trigger] r@[j])@ == v@[j]@,
    {
        r.push(v[i].duplicate());
    }
    assert(manifests_view(r@) =~= manifests_view(v@));
    r
}

// ---------------------------------------------------------------------------
// Host commands the engine starts
// ---------------------------------------------------------------------------

pub open spec fn inventory_argv() -> Seq<Seq<char>> {
    seq!["zellij"@, "action"@, "list-panes"@, "--all"@, "--json"@]
}

pub open spec fn detect_argv() -> Seq<Seq<char>> {
    seq!["uname"@, "-s"@]
}

pub open spec fn read_argv() -> Seq<Seq<char>> {
    seq!["sh"@, "-c"@, trimmed(READ_MANIFESTS_SH@)]
}

/// Starts the pane listing, unless one is in flight.
pub open spec fn start_inventory(e: EngineView) -> (EngineView, Seq<EffectView>) {
    let (r, c) = started(e.requests, HostKind::PaneInventory);
    match c {
        None => (e, Seq::empty()),
        Some(ctx) => (
            EngineView { requests: r, ..e },
            seq![EffectView::RequestInventory { argv: inventory_argv(), context: ctx }],
        ),
    }
}

/// Starts reading the override manifests, unless a read is in flight; a manifest
/// directory that cannot be resolved is reported instead.
pub open spec fn start_manifest_read(e: EngineView) -> (EngineView, Seq<EffectView>) {
    let (r, c) = started(e.requests, HostKind::ManifestRead);
    match c {
        None => (e, Seq::empty()),
        Some(ctx) => {
            let e1 = EngineView { requests: r, ..e };
            match manifest_dir_for(e.config.manifest_dir, e.home) {
                None => (
                    with_diag(e1, DiagnosticSource::Manifest, "invalid manifest_dir"@),
                    Seq::empty(),
                ),
                Some(dir) => (
                    e1,
                    seq![
                        EffectView::ReadOverrides {
                            argv: read_argv(),
                            env: Map::empty().insert("ZJA_DIR"@, dir),
                            context: ctx,
                        },
                    ],
                ),
            }
        },
    }
}

/// Starts the host detection, unless one is in flight.
pub open spec fn start_host_detect(e: EngineView) -> (EngineView, Seq<EffectView>) {
    let (r, c) = started(e.requests, HostKind::HostDetect);
    match c {
        None => (e, Seq::empty()),
        Some(ctx) => (
            EngineView { requests: r, ..e },
            seq![EffectView::DetectHost { argv: detect_argv(), context: ctx }],
        ),
    }
}

/// The answer to the permission request: a grant starts the pane listing, the manifest
/// read and, where notifications are on without a configured command, the host
/// detection; a configured command is adopted at once. Only the first answer counts.
pub open spec fn permitted(e: EngineView, granted: bool) -> (EngineView, Seq<EffectView>) {
    if e.permission != PermissionState::Pending {
        (e, Seq::empty())
    } else if granted {
        let (e1, f1) = start_inventory(EngineView { permission: PermissionState::Granted, ..e });
        let (e2, f2) = start_manifest_read(e1);
        if e2.config.notify && e2.config.notify_command is None {
            let (e3, f3) = start_host_detect(e2);
            (e3, f1 + f2 + f3)
        } else if e2.config.notify {
            (EngineView { notify_template: e2.config.notify_command, ..e2 }, f1 + f2)
        } else {
            (e2, f1 + f2)
        }
    } else {
        (EngineView { permission: PermissionState::Denied, ..e }, Seq::empty())
    }
}

fn strings_of(items: &[&str]) -> (r: Vec<String>)
    ensures
        strings_view(r@) == items@.map_values(|s: &str| s@),
{
    let mut r: Vec<String> = Vec::new();
    let n = items.len();
    for i in 0..n
        invariant
            n == items@.len(),
            strings_view(r@) == items@.take(i as int).map_values(|s: &str| s@),
    {
        let ghost before = strings_view(r@);
        let x: &str = items[i];
        let owned = x.to_owned();
        r.push(owned);
        assert(strings_view(r@) =~= before.push(x@));
        assert(items@.take(i + 1) =~= items@.take(i as int).push(x));
        assert(strings_view(r@) =~= items@.take(i + 1).map_values(|s: &str| s@));
    }
    assert(items@.take(n as int) =~= items@);
    r
}

fn join_commas(names: &Vec<&str>) -> (r: String)
    ensures
        r@ == joined_with(names@.map_values(|s: &str| s@), ","@),
{
    let ghost a = names@.map_values(|s: &str| s@);
    let mut s = String::new();
    let n = names.len();
    for i in 0..n
        invariant
            n == names@.len(),
            a == names@.map_values(|s: &str| s@),
            s@ == joined_with(a.take(i as int), ","@),
    {
        assert(a.take(i + 1).drop_last() =~= a.take(i as int));
        if i > 0 {
            s.append(",");
        }
        s.append(names[i]);
        proof {
            if i == 0 {
                assert(s@ =~= a.take(1)[0]);
            }
        }
    }
    assert(a.take(n as int) =~= a);
    s
}

impl Engine {
    fn start_inventory_request(&mut self) -> (r: Vec<Effect>)
        requires
            old(self).wf(),
        ensures
            final(self).wf(),
            final(self)@ == start_inventory(old(self)@).0,
            effects_view(r@) == start_inventory(old(self)@).1,
    {
        let context = match self.host_requests.start(HostKind::PaneInventory) {
            Some(c) => c,
            None => {
                let r: Vec<Effect> = Vec::new();
                assert(effects_view(r@) =~= Seq::<EffectView>::empty());
                return r;
            },
        };
        let argv = strings_of(&["zellij", "action", "list-panes", "--all", "--json"]);
        proof {
            reveal_strlit("zellij");
        }
        let r = vec![Effect::RequestInventory { argv, context }];
        proof {
            assert(strings_view(argv@) =~= inventory_argv());
            assert(effects_view(r@) =~= start_inventory(old(self)@).1);
            assert(self@ =~= start_inventory(old(self)@).0);
        }
        r
    }
}

/// Whether the engine acts on host events.
pub open spec fn granted(e: EngineView) -> bool {
    e.permission == PermissionState::Granted
}

/// The engine after a pane's foreground command changed.
pub open spec fn command_changed(e: EngineView, pane_id: u32, argv: Seq<Seq<char>>, foreground: bool) -> EngineView {
    if !granted(e) {
        e
    } else if !foreground {
        demoted(e, pane_id)
    } else {
        applied(e, pane_id, argv, true)
    }
}

/// A listed pane with its names sanitized.
pub open spec fn cleaned(c: CandidateView) -> CandidateView {
    CandidateView { tab_name: sanitized(c.tab_name, 60), title: sanitized(c.title, 60), ..c }
}

/// The cleaned rows keyed by pane, a later row for a pane replacing an earlier one.
pub open spec fn cleaned_by_pane(rows: Seq<CandidateView>) -> Map<u32, CandidateView>
    decreases rows.len(),
{
    if rows.len() == 0 {
        Map::empty()
    } else {
        cleaned_by_pane(rows.drop_last()).insert(rows.last().pane_id, cleaned(rows.last()))
    }
}

/// A tracked pane brought in line with its inventory row.
pub open spec fn synced_pane(t: TrackedView, c: CandidateView, pane_id: u32) -> TrackedView {
    let title = if c.title.len() == 0 {
        None
    } else {
        Some(c.title)
    };
    TrackedView {
        tab_position: c.tab_position,
        title,
        display: display_name(t.cwd_basename, title, pane_id),
        ..t
    }
}

/// Every tracked pane with an inventory row brought in line with it.
pub open spec fn synced(panes: Map<u32, TrackedView>, inv: Map<u32, CandidateView>) -> Map<
    u32,
    TrackedView,
> {
    Map::new(
        |k: u32| panes.dom().contains(k),
        |k: u32|
            if inv.dom().contains(k) {
                synced_pane(panes[k], inv[k], k)
            } else {
                panes[k]
            },
    )
}

/// The engine after the host reported its panes.
pub open spec fn event_inventory(e: EngineView, rows: Seq<CandidateView>) -> EngineView {
    if !granted(e) {
        e
    } else {
        let inv = cleaned_by_pane(rows);
        EngineView { inventory: inv, panes: synced(e.panes, inv), ..e }
    }
}

/// The tracked pane after its working directory changed.
pub open spec fn cwd_changed_pane(t: TrackedView, pane_id: u32, basename: Seq<char>) -> TrackedView {
    let clean = sanitized(basename, 60);
    let cwd = if clean.len() == 0 {
        None
    } else {
        Some(clean)
    };
    TrackedView { cwd_basename: cwd, display: display_name(cwd, t.title, pane_id), ..t }
}

proof fn lemma_cleaned_by_pane(rows: Seq<TerminalCandidate>, clean: Seq<TerminalCandidate>)
    requires
        clean.len() == rows.len(),
        forall|i: int| 0 <= i < rows.len() ==> candidate_view(#[trigger] clean[i]) == cleaned(candidate_view(rows[i])),
    ensures
        candidates_by_pane(clean) == cleaned_by_pane(candidates_view(rows)),
    decreases rows.len(),
{
    if rows.len() > 0 {
        lemma_cleaned_by_pane(rows.drop_last(), clean.drop_last());
        assert(candidates_view(rows).drop_last() =~= candidates_view(rows.drop_last()));
        assert(clean.last() == clean[clean.len() - 1]);
    }
}

impl Engine {
    fn start_manifest_read(&mut self) -> (r: Vec<Effect>)
        requires
            old(self).wf(),
        ensures
            final(self).wf(),
            final(self)@ == start_manifest_read(old(self)@).0,
            effects_view(r@) == start_manifest_read(old(self)@).1,
    {
        let context = match self.host_requests.start(HostKind::ManifestRead) {
            Some(c) => c,
            None => {
                let r: Vec<Effect> = Vec::new();
                assert(effects_view(r@) =~= Seq::<EffectView>::empty());
                return r;
            },
        };
        let configured = match &self.config.manifest_dir {
            Some(d) => Some(d.as_str()),
            None => None,
        };
        let home = match &self.home {
            Some(h) => Some(h.as_str()),
            None => None,
        };
        let dir = match resolve_manifest_dir(configured, home) {
            Ok(p) => p,
            Err(_) => {
                self.diagnostics.set(DiagnosticSource::Manifest, "invalid manifest_dir");
                let r: Vec<Effect> = Vec::new();
                assert(effects_view(r@) =~= Seq::<EffectView>::empty());
                assert(self@ =~= start_manifest_read(old(self)@).0);
                return r;
            },
        };
        let mut env = StringMap::new();
        env.insert("ZJA_DIR".to_owned(), dir);
        let script = chars_of(READ_MANIFESTS_SH);
        let trimmed_script = string_of(trim_chars(script.as_slice()).as_slice());
        let mut argv: Vec<String> = Vec::new();
        argv.push("sh".to_owned());
        argv.push("-c".to_owned());
        argv.push(trimmed_script);
        let r = vec![Effect::ReadOverrides { argv, env, context }];
        proof {
            assert(strings_view(argv@) =~= read_argv());
            assert(effects_view(r@) =~= start_manifest_read(old(self)@).1);
            assert(self@ =~= start_manifest_read(old(self)@).0);
        }
        r
    }

    fn start_host_detect(&mut self) -> (r: Vec<Effect>)
        requires
            old(self).wf(),
        ensures
            final(self).wf(),
            final(self)@ == start_host_detect(old(self)@).0,
            effects_view(r@) == start_host_detect(old(self)@).1,
    {
        let context = match self.host_requests.start(HostKind::HostDetect) {
            Some(c) => c,
            None => {
                let r: Vec<Effect> = Vec::new();
                assert(effects_view(r@) =~= Seq::<EffectView>::empty());
                return r;
            },
        };
        let argv = strings_of(&["uname", "-s"]);
        let r = vec![Effect::DetectHost { argv, context }];
        proof {
            assert(strings_view(argv@) =~= detect_argv());
            assert(effects_view(r@) =~= start_host_detect(old(self)@).1);
            assert(self@ =~= start_host_detect(old(self)@).0);
        }
        r
    }

    /// The host answered the permission request.
    pub fn on_permission(&mut self, granted: bool) -> (r: Vec<Effect>)
        requires
            old(self).wf(),
        ensures
            final(self).wf(),
            final(self)@ == permitted(old(self)@, granted).0,
            effects_view(r@) == permitted(old(self)@, granted).1,
    {
        if self.permission != PermissionState::Pending {
            let r: Vec<Effect> = Vec::new();
            assert(effects_view(r@) =~= Seq::<EffectView>::empty());
            return r;
        }
        if granted {
            self.permission = PermissionState::Granted;
            assert(self@ == EngineView { permission: PermissionState::Granted, ..old(self)@ });
            let mut effects = self.start_inventory_request();
            let ghost f1 = effects_view(effects@);
            let mut more = self.start_manifest_read();
            let ghost f2 = effects_view(more@);
            effects.append(&mut more);
            assert(effects_view(effects@) =~= f1 + f2);
            if self.config.notify && self.config.notify_command.is_none() {
                let mut detect = self.start_host_detect();
                let ghost f3 = effects_view(detect@);
                effects.append(&mut detect);
                assert(effects_view(effects@) =~= f1 + f2 + f3);
            } else if self.config.notify {
                self.notify_template = match &self.config.notify_command {
                    Some(t) => Some(t.clone()),
                    None => None,
                };
                assert(self@ =~= permitted(old(self)@, granted).0);
            }
            effects
        } else {
            self.permission = PermissionState::Denied;
            let r: Vec<Effect> = Vec::new();
            assert(effects_view(r@) =~= Seq::<EffectView>::empty());
            assert(self@ =~= permitted(old(self)@, granted).0);
            r
        }
    }

    /// Tracks a pane as running the agent `name`.
    fn promote_named(&mut self, pane_id: u32, name: &str, label: &str)
        requires
            old(self).wf(),
        ensures
            final(self).wf(),
            final(self)@ == promoted(old(self)@, pane_id, name@, label@),
    {
        let ghost f = |t: TrackedPane| tracked_view(t);
        match self.panes.get(&pane_id) {
            Some(p) => {
                if !str_eq(p.agent.as_str(), name) {
                    let mut t = copy_tracked(p);
                    t.agent = name.to_owned();
                    t.agent_label = sanitize_label(label, 60, pane_id);
                    t.state.set_baseline_pending();
                    let ghost tv = tracked_view(t);
                    self.panes.insert(pane_id, t);
                    assert(self@.panes =~= old(self)@.panes.insert(pane_id, tv));
                }
                assert(self@ =~= promoted(old(self)@, pane_id, name@, label@));
                return;
            },
            None => {},
        }
        let (tab_position, title) = match self.inventory.get(pane_id) {
            Some(c) => (c.tab_position, Some(c.title.clone())),
            None => (0usize, None),
        };
        let display = choose_display(
            None,
            match &title {
                Some(t) => Some(t.as_str()),
                None => None,
            },
            pane_id,
        );
        let t = TrackedPane {
            agent: name.to_owned(),
            agent_label: sanitize_label(label, 60, pane_id),
            display,
            tab_position,
            state: PaneState::new(),
            fallback_used: false,
            cwd_basename: None,
            title,
        };
        let ghost tv = tracked_view(t);
        self.panes.insert(pane_id, t);
        assert(self@.panes =~= old(self)@.panes.insert(pane_id, tv));
        assert(self@ =~= promoted(old(self)@, pane_id, name@, label@));
    }

    /// Acts on a pane's foreground command: track it, untrack it, or report that
    /// several manifests claim it.
    fn apply_command(&mut self, pane_id: u32, argv: &[String], allow_promote: bool)
        requires
            old(self).wf(),
        ensures
            final(self).wf(),
            final(self)@ == applied(old(self)@, pane_id, strings_view(argv@), allow_promote),
    {
        let decision: Result<Option<(String, String)>, String> = match detect(
            self.manifests.as_slice(),
            argv,
        ) {
            Detection::One(m) => Ok(Some((m.name().to_owned(), m.label().to_owned()))),
            Detection::NoMatch => Ok(None),
            Detection::Ambiguous(names) => Err(join_commas(&names)),
        };
        match decision {
            Ok(Some((name, label))) => {
                if allow_promote {
                    self.promote_named(pane_id, name.as_str(), label.as_str());
                }
                self.diagnostics.clear(DiagnosticSource::Detection);
                assert(self@ =~= applied(old(self)@, pane_id, strings_view(argv@), allow_promote));
            },
            Ok(None) => {
                self.demote(pane_id);
            },
            Err(joined) => {
                self.demote(pane_id);
                let mut message = "ambiguous manifests: ".to_owned();
                message.append(joined.as_str());
                self.diagnostics.set(DiagnosticSource::Detection, message.as_str());
                assert(self@ =~= applied(old(self)@, pane_id, strings_view(argv@), allow_promote));
            },
        }
    }

    /// The host reported a pane's foreground command.
    pub fn on_command_changed(&mut self, pane_id: u32, argv: &[String], is_foreground: bool)
        requires
            old(self).wf(),
        ensures
            final(self).wf(),
            final(self)@ == command_changed(old(self)@, pane_id, strings_view(argv@), is_foreground),
    {
        if !self.permission_is_granted() {
            return;
        }
        if !is_foreground {
            self.demote(pane_id);
            return;
        }
        self.apply_command(pane_id, argv, true);
    }

    /// The host reported its panes: they replace the inventory, names sanitized, and
    /// the tracked panes follow their rows.
    pub fn on_event_inventory(&mut self, rows: Vec<TerminalCandidate>)
        requires
            old(self).wf(),
        ensures
            final(self).wf(),
            final(self)@ == event_inventory(old(self)@, candidates_view(rows@)),
    {
        if !self.permission_is_granted() {
            return;
        }
        let mut clean: Vec<TerminalCandidate> = Vec::new();
        let n = rows.len();
        for i in 0..n
            invariant
                n == rows@.len(),
                clean@.len() == i,
                forall|j: int|
                    0 <= j < i ==> candidate_view(#[trigger] clean@[j]) == cleaned(
                        candidate_view(rows@[j]),
                    ),
        {
            let row = &rows[i];
            clean.push(
                TerminalCandidate {
                    pane_id: row.pane_id,
                    tab_position: row.tab_position,
                    tab_name: sanitize_metadata(row.tab_name.as_str(), 60),
                    title: sanitize_metadata(row.title.as_str(), 60),
                },
            );
        }
        proof {
            lemma_cleaned_by_pane(rows@, clean@);
        }
        self.inventory.apply_event_manifest(clean);
        self.sync_tracked_from_inventory();
        assert(self@ =~= event_inventory(old(self)@, candidates_view(rows@)));
    }

    /// Brings every tracked pane in line with its inventory row.
    fn sync_tracked_from_inventory(&mut self)
        requires
            old(self).wf(),
        ensures
            final(self).wf(),
            final(self)@ == (EngineView { panes: synced(old(self)@.panes, old(self)@.inventory), ..old(self)@ }),
    {
        let ids = self.panes.keys();
        let ghost p0 = old(self)@.panes;
        let ghost inv = old(self)@.inventory;
        proof {
            self.panes.lemma_entries();
            let e = self.panes.entries();
            assert forall|a: int, b: int| 0 <= a < b < ids@.len() implies ids@[a] < ids@[b] by {
                assert(ids@[a] == e[a].0 && ids@[b] == e[b].0);
            }
            assert forall|k: u32| #[trigger] p0.dom().contains(k) <==> ids@.contains(k) by {
                if p0.dom().contains(k) {
                    let j = choose|j: int| 0 <= j < e.len() && (#[trigger] e[j]).0 == k;
                    assert(ids@[j] == k);
                }
                if ids@.contains(k) {
                    let j = choose|j: int| 0 <= j < ids@.len() && ids@[j] == k;
                    assert(e[j].0 == k);
                }
            }
        }
        let n = ids.len();
        for i in 0..n
            invariant
                n == ids@.len(),
                self.wf(),
                p0 == old(self)@.panes,
                inv == old(self)@.inventory,
                forall|a: int, b: int| 0 <= a < b < n ==> ids@[a] < ids@[b],
                forall|k: u32| #[trigger] p0.dom().contains(k) <==> ids@.contains(k),
                self@ == (EngineView { panes: self@.panes, ..old(self)@ }),
                self@.panes.dom() == p0.dom(),
                forall|k: u32|
                    #[trigger] p0.dom().contains(k) ==> self@.panes[k] == if ids@.take(i as int).contains(k)
                        && inv.dom().contains(k) {
                        synced_pane(p0[k], inv[k], k)
                    } else {
                        p0[k]
                    },
        {
            let id = ids[i];
            proof {
                assert(ids@.take(i + 1) =~= ids@.take(i as int).push(id));
                assert(ids@.contains(id));
                if ids@.take(i as int).contains(id) {
                    let j = choose|j: int| 0 <= j < i && ids@.take(i as int)[j] == id;
                    assert(ids@[j] < ids@[i as int]);
                }
                assert(!ids@.take(i as int).contains(id));
                assert(p0.dom().contains(id));
                assert(self@.panes[id] == p0[id]);
            }
            let ghost pre = self@.panes;
            match self.inventory.get(id) {
                Some(c) => {
                    let tab_position = c.tab_position;
                    let title_text = c.title.clone();
                    match self.panes.get(&id) {
                        Some(p) => {
                            proof {
                                assert(tracked_view(*p) == self@.panes[id]);
                                assert(candidate_view(*c) == inv[id]);
                            }
                            let mut t = copy_tracked(p);
                            t.tab_position = tab_position;
                            t.title = if title_text.as_str().is_empty() {
                                None
                            } else {
                                Some(title_text)
                            };
                            t.display = choose_display(
                                match &t.cwd_basename {
                                    Some(x) => Some(x.as_str()),
                                    None => None,
                                },
                                match &t.title {
                                    Some(x) => Some(x.as_str()),
                                    None => None,
                                },
                                id,
                            );
                            let ghost tv = tracked_view(t);
                            let ghost before = self@.panes;
                            proof {
                                assert(before.dom().contains(id));
                                assert(tv.agent_label == before[id].agent_label);
                                lemma_pane_update_shows_clean(
                                    EngineView { panes: before, ..old(self)@ },
                                    id,
                                    tv,
                                );
                            }
                            self.panes.insert(id, t);
                            proof {
                                assert(self@.panes =~= before.insert(id, tv));
                                assert(tv == synced_pane(p0[id], inv[id], id));
                            }
                        },
                        None => {},
                    }
                },
                None => {},
            }
            assert(self@ =~= (EngineView { panes: self@.panes, ..old(self)@ }));
            proof {
                assert forall|k: u32| #[trigger] p0.dom().contains(k) implies self@.panes[k] == if ids@.take(
                    i + 1,
                ).contains(k) && inv.dom().contains(k) {
                    synced_pane(p0[k], inv[k], k)
                } else {
                    p0[k]
                } by {
                    if k != id {
                        assert(self@.panes[k] == pre[k]);
                        if ids@.take(i + 1).contains(k) {
                            let j = choose|j: int| 0 <= j < i + 1 && #[trigger] ids@.take(i + 1)[j] == k;
                            assert(j != i);
                            assert(ids@.take(i as int)[j] == k);
                        }
                        if ids@.take(i as int).contains(k) {
                            let j = choose|j: int| 0 <= j < i && #[trigger] ids@.take(i as int)[j] == k;
                            assert(ids@.take(i + 1)[j] == k);
                        }
                    } else {
                        assert(ids@.take(i + 1)[i as int] == id);
                    }
                }
            }
        }
        proof {
            assert(ids@.take(n as int) =~= ids@);
            assert(self@.panes =~= synced(p0, inv));
        }
        assert(self@ =~= (EngineView { panes: synced(old(self)@.panes, old(self)@.inventory), ..old(self)@ }));
    }
}

// ---------------------------------------------------------------------------
// Snapshots
// ---------------------------------------------------------------------------

/// The snapshot row of a tracked pane.
pub open spec fn agent_row(pane_id: u32, t: TrackedView) -> AgentSnapshotView {
    AgentSnapshotView {
        pane_id,
        tab_position: t.tab_position,
        agent: t.agent,
        agent_label: t.agent_label,
        display: t.display,
        state: t.state.state,
        since_ms: t.state.since_ms,
        fallback_used: t.fallback_used,
    }
}

/// What the sidebars are shown: the tabs and the tracked panes in ascending order, and
/// the current diagnostics.
pub open spec fn snapshot_of(e: EngineView) -> SnapshotView {
    SnapshotView {
        v: PROTOCOL_VERSION,
        tabs: sorted_entries(e.tabs),
        agents: sorted_entries(e.panes).map_values(|p: (u32, TrackedView)| agent_row(p.0, p.1)),
        diagnostics: slot_entries(e.diagnostics, 6),
    }
}

/// A snapshot without the ages of the states: what decides whether it is news.
pub open spec fn semantic_key(s: SnapshotView) -> SnapshotView {
    SnapshotView {
        agents: s.agents.map_values(|a: AgentSnapshotView| AgentSnapshotView { since_ms: 0, ..a }),
        ..s
    }
}

/// The snapshot goes to every sidebar, in ascending order, unless it tells nothing new.
pub open spec fn emitted(e: EngineView) -> (EngineView, Seq<EffectView>) {
    let s = snapshot_of(e);
    let key = semantic_key(s);
    if e.last_sent == Some(key) {
        (e, Seq::empty())
    } else {
        (
            EngineView { last_sent: Some(key), ..e },
            sorted_entries(e.sidebars).map_values(
                |p: (u32, ())| EffectView::SendSnapshot { plugin_id: p.0, payload: s },
            ),
        )
    }
}

/// The engine after a sidebar's greeting carrying protocol version `v` (`None` for a
/// greeting that could not be read): a current sidebar is registered and sent the
/// snapshot at once.
pub open spec fn greeted(e: EngineView, plugin_id: u32, v: Option<u8>) -> (EngineView, Seq<EffectView>) {
    if !granted(e) {
        (e, Seq::empty())
    } else {
        match v {
            Some(version) => if version == PROTOCOL_VERSION {
                let e1 = EngineView {
                    sidebars: e.sidebars.insert(plugin_id, ()),
                    ..without_diag(e, DiagnosticSource::Protocol)
                };
                (e1, seq![EffectView::SendSnapshot { plugin_id, payload: snapshot_of(e1) }])
            } else {
                (
                    with_diag(e, DiagnosticSource::Protocol, "unsupported protocol version"@),
                    Seq::empty(),
                )
            },
            None => (with_diag(e, DiagnosticSource::Protocol, "malformed hello"@), Seq::empty()),
        }
    }
}

/// The engine after a reload request carrying protocol version `v` (`None` for one that
/// could not be read): a read starts unless one runs, which then runs once more.
pub open spec fn reload_requested(e: EngineView, v: Option<u8>) -> (EngineView, Seq<EffectView>) {
    if !granted(e) {
        (e, Seq::empty())
    } else {
        match v {
            Some(version) => if version == PROTOCOL_VERSION {
                let e1 = without_diag(e, DiagnosticSource::Protocol);
                if !e1.reload_active {
                    start_manifest_read(EngineView { reload_active: true, ..e1 })
                } else {
                    (EngineView { reload_pending: true, ..e1 }, Seq::empty())
                }
            } else {
                (
                    with_diag(e, DiagnosticSource::Protocol, "unsupported protocol version"@),
                    Seq::empty(),
                )
            },
            None => (with_diag(e, DiagnosticSource::Protocol, "malformed reload"@), Seq::empty()),
        }
    }
}

fn copy_snapshot(s: &Snapshot) -> (r: Snapshot)
    ensures
        snapshot_view(r) == snapshot_view(*s),
{
    let mut tabs: Vec<TabSnapshot> = Vec::new();
    let n = s.tabs.len();
    for i in 0..n
        invariant
            n == s.tabs@.len(),
            tabs@.len() == i,
            forall|j: int| 0 <= j < i ==> tab_view(#[trigger] tabs@[j]) == tab_view(s.tabs@[j]),
    {
        tabs.push(TabSnapshot { position: s.tabs[i].position, name: s.tabs[i].name.clone() });
    }
    let mut agents: Vec<AgentSnapshot> = Vec::new();
    let m = s.agents.len();
    for i in 0..m
        invariant
            m == s.agents@.len(),
            agents@.len() == i,
            forall|j: int| 0 <= j < i ==> agent_view(#[trigger] agents@[j]) == agent_view(s.agents@[j]),
    {
        agents.push(copy_agent(&s.agents[i], s.agents[i].since_ms));
    }
    let mut diagnostics: Vec<Diagnostic> = Vec::new();
    let k = s.diagnostics.len();
    for i in 0..k
        invariant
            k == s.diagnostics@.len(),
            diagnostics@.len() == i,
            forall|j: int|
                0 <= j < i ==> diagnostic_view(#[trigger] diagnostics@[j]) == diagnostic_view(
                    s.diagnostics@[j],
                ),
    {
        diagnostics.push(Diagnostic::new(s.diagnostics[i].source, s.diagnostics[i].message.as_str()));
    }
    let r = Snapshot { v: s.v, tabs, agents, diagnostics };
    proof {
        assert(snapshot_view(r).tabs =~= snapshot_view(*s).tabs);
        assert(snapshot_view(r).agents =~= snapshot_view(*s).agents);
        assert(snapshot_view(r).diagnostics =~= snapshot_view(*s).diagnostics);
    }
    r
}

fn copy_agent(a: &AgentSnapshot, since_ms: u64) -> (r: AgentSnapshot)
    ensures
        agent_view(r) == (AgentSnapshotView { since_ms, ..agent_view(*a) }),
{
    AgentSnapshot {
        pane_id: a.pane_id,
        tab_position: a.tab_position,
        agent: a.agent.clone(),
        agent_label: a.agent_label.clone(),
        display: a.display.clone(),
        state: a.state,
        since_ms,
        fallback_used: a.fallback_used,
    }
}

fn semantic_copy(s: &Snapshot) -> (r: Snapshot)
    ensures
        snapshot_view(r) == semantic_key(snapshot_view(*s)),
{
    let c = copy_snapshot(s);
    let mut agents: Vec<AgentSnapshot> = Vec::new();
    let m = s.agents.len();
    for i in 0..m
        invariant
            m == s.agents@.len(),
            agents@.len() == i,
            forall|j: int|
                0 <= j < i ==> agent_view(#[trigger] agents@[j]) == (AgentSnapshotView {
                    since_ms: 0,
                    ..agent_view(s.agents@[j])
                }),
    {
        agents.push(copy_agent(&s.agents[i], 0));
    }
    let r = Snapshot { v: c.v, tabs: c.tabs, agents, diagnostics: c.diagnostics };
    proof {
        assert(snapshot_view(r).agents =~= semantic_key(snapshot_view(*s)).agents);
    }
    r
}

impl Engine {
    /// The current snapshot.
    fn build_snapshot(&self) -> (r: Snapshot)
        requires
            self.wf(),
        ensures
            snapshot_view(r) == snapshot_of(self@),
    {
        let ghost tv = |s: String| s@;
        let ghost pv = |t: TrackedPane| tracked_view(t);
        proof {
            self.tabs.lemma_sorted_entries_mapped(tv);
            self.panes.lemma_sorted_entries_mapped(pv);
        }
        let te = self.tabs.as_slice();
        let mut tabs: Vec<TabSnapshot> = Vec::new();
        let n = te.len();
        for i in 0..n
            invariant
                n == te@.len(),
                te@ == self.tabs.entries(),
                tabs@.len() == i,
                forall|j: int| 0 <= j < i ==> tab_view(#[trigger] tabs@[j]) == (te@[j].0, te@[j].1@),
        {
            tabs.push(TabSnapshot { position: te[i].0, name: te[i].1.clone() });
        }
        let pe = self.panes.as_slice();
        let mut agents: Vec<AgentSnapshot> = Vec::new();
        let m = pe.len();
        for i in 0..m
            invariant
                m == pe@.len(),
                pe@ == self.panes.entries(),
                agents@.len() == i,
                forall|j: int|
                    0 <= j < i ==> agent_view(#[trigger] agents@[j]) == agent_row(
                        pe@[j].0,
                        tracked_view(pe@[j].1),
                    ),
        {
            let (id, t) = &pe[i];
            agents.push(
                AgentSnapshot {
                    pane_id: *id,
                    tab_position: t.tab_position,
                    agent: t.agent.clone(),
                    agent_label: t.agent_label.clone(),
                    display: t.display.clone(),
                    state: t.state.state(),
                    since_ms: t.state.since_ms(),
                    fallback_used: t.fallback_used,
                },
            );
        }
        let diagnostics = self.diagnostics.snapshot();
        let r = Snapshot { v: PROTOCOL_VERSION, tabs, agents, diagnostics };
        proof {
            let want = snapshot_of(self@);
            assert(snapshot_view(r).tabs =~= want.tabs);
            assert(snapshot_view(r).agents =~= want.agents);
        }
        r
    }

    /// Sends the snapshot to every sidebar when it tells something new.
    fn emit_snapshot_if_dirty(&mut self) -> (r: Vec<Effect>)
        requires
            old(self).wf(),
        ensures
            final(self).wf(),
            final(self)@ == emitted(old(self)@).0,
            effects_view(r@) == emitted(old(self)@).1,
    {
        let snapshot = self.build_snapshot();
        let key = semantic_copy(&snapshot);
        let same = match &self.last_sent_semantic {
            Some(last) => snapshot_eq(last, &key),
            None => false,
        };
        if same {
            let r: Vec<Effect> = Vec::new();
            assert(effects_view(r@) =~= Seq::<EffectView>::empty());
            return r;
        }
        self.last_sent_semantic = Some(key);
        proof {
            self.sidebars.lemma_sorted_entries();
        }
        let se = self.sidebars.as_slice();
        let mut out: Vec<Effect> = Vec::new();
        let n = se.len();
        for i in 0..n
            invariant
                n == se@.len(),
                se@ == self.sidebars.entries(),
                out@.len() == i,
                forall|j: int|
                    0 <= j < i ==> effect_view(#[trigger] out@[j]) == (EffectView::SendSnapshot {
                        plugin_id: se@[j].0,
                        payload: snapshot_view(snapshot),
                    }),
        {
            out.push(Effect::SendSnapshot { plugin_id: se[i].0, payload: copy_snapshot(&snapshot) });
        }
        proof {
            assert(effects_view(out@) =~= emitted(old(self)@).1);
            assert(self@ =~= emitted(old(self)@).0);
        }
        out
    }

    /// A sidebar's greeting; `hello` is what the JSON reader made of the payload, `None`
    /// where it is not a greeting.
    pub fn on_hello(&mut self, plugin_id: u32, hello: Option<Hello>) -> (r: Vec<Effect>)
        requires
            old(self).wf(),
        ensures
            final(self).wf(),
            final(self)@ == greeted(old(self)@, plugin_id, match hello {
                Some(h) => Some(h.v),
                None => None,
            }).0,
            effects_view(r@) == greeted(old(self)@, plugin_id, match hello {
                Some(h) => Some(h.v),
                None => None,
            }).1,
    {
        let empty: Vec<Effect> = Vec::new();
        assert(effects_view(empty@) =~= Seq::<EffectView>::empty());
        if !self.permission_is_granted() {
            return empty;
        }
        match hello {
            Some(h) => {
                if h.v == PROTOCOL_VERSION {
                    self.diagnostics.clear(DiagnosticSource::Protocol);
                    self.sidebars.insert(plugin_id, ());
                    let payload = self.build_snapshot();
                    let ghost e1 = self@;
                    assert(e1 =~= (EngineView {
                        sidebars: old(self)@.sidebars.insert(plugin_id, ()),
                        ..without_diag(old(self)@, DiagnosticSource::Protocol)
                    }));
                    let r = vec![Effect::SendSnapshot { plugin_id, payload }];
                    assert(effects_view(r@) =~= seq![EffectView::SendSnapshot { plugin_id, payload: snapshot_of(e1) }]);
                    r
                } else {
                    self.diagnostics.set(DiagnosticSource::Protocol, "unsupported protocol version");
                    assert(self@ =~= with_diag(old(self)@, DiagnosticSource::Protocol, "unsupported protocol version"@));
                    empty
                }
            },
            None => {
                self.diagnostics.set(DiagnosticSource::Protocol, "malformed hello");
                assert(self@ =~= with_diag(old(self)@, DiagnosticSource::Protocol, "malformed hello"@));
                empty
            },
        }
    }

    /// A sidebar's reload request; `reload` is what the JSON reader made of the
    /// payload, `None` where it is not a reload request.
    pub fn on_reload(&mut self, reload: Option<Reload>) -> (r: Vec<Effect>)
        requires
            old(self).wf(),
        ensures
            final(self).wf(),
            final(self)@ == reload_requested(old(self)@, match reload {
                Some(x) => Some(x.v),
                None => None,
            }).0,
            effects_view(r@) == reload_requested(old(self)@, match reload {
                Some(x) => Some(x.v),
                None => None,
            }).1,
    {
        let empty: Vec<Effect> = Vec::new();
        assert(effects_view(empty@) =~= Seq::<EffectView>::empty());
        if !self.permission_is_granted() {
            return empty;
        }
        match reload {
            Some(x) => {
                if x.v == PROTOCOL_VERSION {
                    self.diagnostics.clear(DiagnosticSource::Protocol);
                    let start = self.reload.request_start();
                    if start {
                        assert(self@ =~= (EngineView { reload_active: true, ..without_diag(old(self)@, DiagnosticSource::Protocol) }));
                        self.start_manifest_read()
                    } else {
                        assert(self@ =~= (EngineView { reload_pending: true, ..without_diag(old(self)@, DiagnosticSource::Protocol) }));
                        empty
                    }
                } else {
                    self.diagnostics.set(DiagnosticSource::Protocol, "unsupported protocol version");
                    assert(self@ =~= with_diag(old(self)@, DiagnosticSource::Protocol, "unsupported protocol version"@));
                    empty
                }
            },
            None => {
                self.diagnostics.set(DiagnosticSource::Protocol, "malformed reload");
                assert(self@ =~= with_diag(old(self)@, DiagnosticSource::Protocol, "malformed reload"@));
                empty
            },
        }
    }

    /// The host's tab list, by position; names are sanitized.
    pub fn on_tab_update(&mut self, tabs: IdMap<usize, String>)
        requires
            old(self).wf(),
            tabs.wf(),
        ensures
            final(self).wf(),
            final(self)@ == (EngineView {
                tabs: tabs.view().map_values(|s: String| sanitized(s@, 60)),
                ..old(self)@
            }),
    {
        let ghost f = |s: String| sanitized(s@, 60);
        let ghost g = |s: String| s@;
        proof {
            tabs.lemma_entries();
        }
        let te = tabs.as_slice();
        let mut m: IdMap<usize, String> = IdMap::new();
        let n = te.len();
        assert(m.view().map_values(g) =~= map_of(map_pairs(te@.take(0), f)));
        for i in 0..n
            invariant
                n == te@.len(),
                te@ == tabs.entries(),
                m.wf(),
                f == (|s: String| sanitized(s@, 60)),
                g == (|s: String| s@),
                m.view().map_values(g) == map_of(map_pairs(te@.take(i as int), f)),
        {
            let (k, v) = &te[i];
            let clean = sanitize_metadata(v.as_str(), 60);
            let ghost before = m.view();
            let ghost cv = clean@;
            m.insert(*k, clean);
            proof {
                assert(cv == sanitized(v@, 60));
                assert(f(*v) == sanitized(v@, 60));
                assert(m.view() == before.insert(*k, m.view()[*k]));
                assert(te@.take(i + 1) =~= te@.take(i as int).push(te@[i as int]));
                assert(map_pairs(te@.take(i + 1), f) =~= map_pairs(te@.take(i as int), f).push(
                    (*k, f(*v)),
                ));
                assert(map_pairs(te@.take(i + 1), f).drop_last() =~= map_pairs(te@.take(i as int), f));
                assert(m.view().map_values(g) =~= before.map_values(g).insert(*k, f(*v)));
            }
        }
        proof {
            assert(te@.take(n as int) =~= te@);
            lemma_map_of_map_pairs(te@, f);
        }
        self.tabs = m;
        assert(self@ =~= (EngineView {
            tabs: tabs.view().map_values(|s: String| sanitized(s@, 60)),
            ..old(self)@
        }));
    }

    /// A pane's working directory changed: a tracked pane shows its sanitized basename.
    pub fn on_cwd_changed(&mut self, pane_id: u32, basename: String)
        requires
            old(self).wf(),
        ensures
            final(self).wf(),
            final(self)@ == if old(self)@.panes.dom().contains(pane_id) {
                EngineView {
                    panes: old(self)@.panes.insert(
                        pane_id,
                        cwd_changed_pane(old(self)@.panes[pane_id], pane_id, basename@),
                    ),
                    ..old(self)@
                }
            } else {
                old(self)@
            },
    {
        match self.panes.get(&pane_id) {
            Some(p) => {
                let mut t = copy_tracked(p);
                let clean = sanitize_metadata(basename.as_str(), 60);
                t.cwd_basename = if clean.as_str().is_empty() {
                    None
                } else {
                    Some(clean)
                };
                t.display = choose_display(
                    match &t.cwd_basename {
                        Some(x) => Some(x.as_str()),
                        None => None,
                    },
                    match &t.title {
                        Some(x) => Some(x.as_str()),
                        None => None,
                    },
                    pane_id,
                );
                let ghost tv = tracked_view(t);
                proof {
                    assert(tv == cwd_changed_pane(old(self)@.panes[pane_id], pane_id, basename@));
                    assert(old(self)@.panes.dom().contains(pane_id));
                    lemma_pane_update_shows_clean(old(self)@, pane_id, tv);
                }
                self.panes.insert(pane_id, t);
                proof {
                    assert(tv == cwd_changed_pane(old(self)@.panes[pane_id], pane_id, basename@));
                    assert(self@.panes =~= old(self)@.panes.insert(pane_id, tv));
                }
                assert(self@ =~= (EngineView {
                    panes: old(self)@.panes.insert(
                        pane_id,
                        cwd_changed_pane(old(self)@.panes[pane_id], pane_id, basename@),
                    ),
                    ..old(self)@
                }));
            },
            None => {},
        }
    }
}

// ---------------------------------------------------------------------------
// Timer ticks
// ---------------------------------------------------------------------------

/// A timer plan as plain values.
pub struct PlanView {
    pub elapsed_ms: u64,
    pub effects: Seq<EffectView>,
    pub reconcile_pane_ids: Seq<u32>,
    pub viewport_pane_ids: Seq<u32>,
}

pub open spec fn plan_view(p: TimerPlan) -> PlanView {
    PlanView {
        elapsed_ms: p.elapsed_ms,
        effects: effects_view(p.effects@),
        reconcile_pane_ids: p.reconcile_pane_ids@,
        viewport_pane_ids: p.viewport_pane_ids@,
    }
}

/// Every tracked pane's state aged by `ms`.
pub open spec fn aged(panes: Map<u32, TrackedView>, ms: u64) -> Map<u32, TrackedView> {
    panes.map_values(
        |t: TrackedView|
            TrackedView {
                state: PaneView { since_ms: sat_add(t.state.since_ms, ms), ..t.state },
                ..t
            },
    )
}

/// A timer tick of `ms`: the tracked panes age; without a first pane listing, one is
/// retried every five seconds; every five seconds the listed panes are due for
/// reconciliation; every tracked pane's viewport is to be read.
pub open spec fn timer_begun(e: EngineView, ms: u64) -> (EngineView, Option<PlanView>) {
    if !granted(e) {
        (e, None)
    } else {
        let e1 = EngineView { panes: aged(e.panes, ms), ..e };
        let (e2, f) = if !e1.inventory_bootstrapped {
            let retry = sat_add(e1.inventory_retry_ms, ms);
            if retry >= 5000 {
                start_inventory(EngineView { inventory_retry_ms: 0, ..e1 })
            } else {
                (EngineView { inventory_retry_ms: retry, ..e1 }, Seq::empty())
            }
        } else {
            (e1, Seq::empty())
        };
        let rec = sat_add(e2.reconcile_elapsed_ms, ms);
        let due = rec >= 5000;
        let e3 = EngineView {
            reconcile_elapsed_ms: if due {
                (rec % 5000) as u64
            } else {
                rec
            },
            ..e2
        };
        (
            e3,
            Some(
                PlanView {
                    elapsed_ms: ms,
                    effects: f,
                    reconcile_pane_ids: if due {
                        keys_of(e3.inventory)
                    } else {
                        Seq::empty()
                    },
                    viewport_pane_ids: keys_of(e3.panes),
                },
            ),
        )
    }
}

impl Engine {
    /// The tracked panes in ascending order.
    fn tracked_ids(&self) -> (r: Vec<u32>)
        requires
            self.wf(),
        ensures
            r@ == keys_of(self@.panes),
            forall|a: int, b: int| 0 <= a < b < r@.len() ==> r@[a] < r@[b],
            forall|k: u32| #[trigger] r@.contains(k) <==> self@.panes.dom().contains(k),
    {
        let r = self.panes.keys();
        proof {
            let f = |t: TrackedPane| tracked_view(t);
            self.panes.lemma_sorted_entries_mapped(f);
            self.panes.lemma_entries();
            let e = self.panes.entries();
            assert(r@ =~= keys_of(self@.panes));
            assert forall|a: int, b: int| 0 <= a < b < r@.len() implies r@[a] < r@[b] by {
                assert(r@[a] == e[a].0 && r@[b] == e[b].0);
            }
            assert forall|k: u32| #[trigger] r@.contains(k) <==> self@.panes.dom().contains(k) by {
                if self@.panes.dom().contains(k) {
                    let j = choose|j: int| 0 <= j < e.len() && (#[trigger] e[j]).0 == k;
                    assert(r@[j] == k);
                }
                if r@.contains(k) {
                    let j = choose|j: int| 0 <= j < r@.len() && r@[j] == k;
                    assert(e[j].0 == k);
                }
            }
        }
        r
    }

    /// Ages every tracked pane by `ms`.
    fn age_panes(&mut self, ms: u64)
        requires
            old(self).wf(),
        ensures
            final(self).wf(),
            final(self)@ == (EngineView { panes: aged(old(self)@.panes, ms), ..old(self)@ }),
    {
        let ids = self.tracked_ids();
        let ghost p0 = old(self)@.panes;
        let n = ids.len();
        for i in 0..n
            invariant
                n == ids@.len(),
                self.wf(),
                p0 == old(self)@.panes,
                forall|a: int, b: int| 0 <= a < b < n ==> ids@[a] < ids@[b],
                forall|k: u32| #[trigger] p0.dom().contains(k) <==> ids@.contains(k),
                self@ == (EngineView { panes: self@.panes, ..old(self)@ }),
                self@.panes.dom() == p0.dom(),
                forall|k: u32|
                    #[trigger] p0.dom().contains(k) ==> self@.panes[k] == if ids@.take(i as int).contains(k) {
                        aged(p0, ms)[k]
                    } else {
                        p0[k]
                    },
        {
            let id = ids[i];
            proof {
                assert(ids@.take(i + 1) =~= ids@.take(i as int).push(id));
                assert(ids@.contains(id));
                if ids@.take(i as int).contains(id) {
                    let j = choose|j: int| 0 <= j < i && #[trigger] ids@.take(i as int)[j] == id;
                    assert(ids@[j] < ids@[i as int]);
                }
                assert(!ids@.take(i as int).contains(id));
                assert(p0.dom().contains(id));
            }
            let ghost pre = self@.panes;
            match self.panes.get(&id) {
                Some(p) => {
                    let mut t = copy_tracked(p);
                    t.state.advance(ms);
                    let ghost tv = tracked_view(t);
                    proof {
                        assert(pre.dom().contains(id));
                        assert(tv.display == pre[id].display && tv.agent_label == pre[id].agent_label);
                        lemma_pane_update_shows_clean(EngineView { panes: pre, ..old(self)@ }, id, tv);
                    }
                    self.panes.insert(id, t);
                    proof {
                        assert(self@.panes =~= pre.insert(id, tv));
                        assert(tv == aged(p0, ms)[id]);
                    }
                },
                None => {},
            }
            assert(self@ =~= (EngineView { panes: self@.panes, ..old(self)@ }));
            proof {
                assert forall|k: u32| #[trigger] p0.dom().contains(k) implies self@.panes[k] == if ids@.take(
                    i + 1,
                ).contains(k) {
                    aged(p0, ms)[k]
                } else {
                    p0[k]
                } by {
                    if k != id {
                        assert(self@.panes[k] == pre[k]);
                        if ids@.take(i + 1).contains(k) {
                            let j = choose|j: int| 0 <= j < i + 1 && #[trigger] ids@.take(i + 1)[j] == k;
                            assert(j != i);
                            assert(ids@.take(i as int)[j] == k);
                        }
                        if ids@.take(i as int).contains(k) {
                            let j = choose|j: int| 0 <= j < i && #[trigger] ids@.take(i as int)[j] == k;
                            assert(ids@.take(i + 1)[j] == k);
                        }
                    } else {
                        assert(ids@.take(i + 1)[i as int] == id);
                    }
                }
            }
        }
        proof {
            assert(ids@.take(n as int) =~= ids@);
            assert(self@.panes =~= aged(p0, ms));
        }
        assert(self@ =~= (EngineView { panes: aged(old(self)@.panes, ms), ..old(self)@ }));
    }

    /// Starts a timer tick of `elapsed_ms`; `None` without permission.
    pub fn begin_timer(&mut self, elapsed_ms: u64) -> (r: Option<TimerPlan>)
        requires
            old(self).wf(),
        ensures
            final(self).wf(),
            final(self)@ == timer_begun(old(self)@, elapsed_ms).0,
            match timer_begun(old(self)@, elapsed_ms).1 {
                Some(p) => r matches Some(plan) && plan_view(plan) == p,
                None => r is None,
            },
    {
        if !self.permission_is_granted() {
            return None;
        }
        self.age_panes(elapsed_ms);
        let mut effects: Vec<Effect> = Vec::new();
        assert(effects_view(effects@) =~= Seq::<EffectView>::empty());
        if !self.inventory_bootstrapped {
            self.inventory_retry_ms = self.inventory_retry_ms.saturating_add(elapsed_ms);
            if self.inventory_retry_ms >= 5000 {
                self.inventory_retry_ms = 0;
                effects = self.start_inventory_request();
            }
        }
        self.reconcile_elapsed_ms = self.reconcile_elapsed_ms.saturating_add(elapsed_ms);
        let mut reconcile_pane_ids: Vec<u32> = Vec::new();
        let due = self.reconcile_elapsed_ms >= 5000;
        if due {
            self.reconcile_elapsed_ms = self.reconcile_elapsed_ms % 5000;
            reconcile_pane_ids = self.inventory.pane_ids();
            proof {
                lemma_listing_keys(reconcile_pane_ids@, self@.inventory);
            }
        }
        let viewport_pane_ids = self.tracked_ids();
        let plan = TimerPlan { elapsed_ms, effects, reconcile_pane_ids, viewport_pane_ids };
        proof {
            let want = timer_begun(old(self)@, elapsed_ms);
            assert(self@ =~= want.0);
            if !due {
                assert(plan.reconcile_pane_ids@ =~= Seq::<u32>::empty());
            }
        }
        Some(plan)
    }
}

// ---------------------------------------------------------------------------
// Host results
// ---------------------------------------------------------------------------

/// Listed candidates added where their panes are not known yet.
pub open spec fn merged_views(m: Map<u32, CandidateView>, rows: Seq<CandidateView>) -> Map<
    u32,
    CandidateView,
>
    decreases rows.len(),
{
    if rows.len() == 0 {
        m
    } else {
        let p = merged_views(m, rows.drop_last());
        if p.dom().contains(rows.last().pane_id) {
            p
        } else {
            p.insert(rows.last().pane_id, rows.last())
        }
    }
}

proof fn lemma_merged_views(m: Map<u32, CandidateView>, v: Seq<TerminalCandidate>)
    ensures
        merged_in(m, v) == merged_views(m, candidates_view(v)),
    decreases v.len(),
{
    if v.len() > 0 {
        lemma_merged_views(m, v.drop_last());
        assert(candidates_view(v).drop_last() =~= candidates_view(v.drop_last()));
    }
}

/// The engine after the pane listing came back.
pub open spec fn inventory_result(e: EngineView, exit_code: Option<i32>, stdout: Seq<u8>, rows: Option<Seq<PaneListRow>>) -> EngineView {
    if exit_code != Some(0i32) {
        with_diag(e, DiagnosticSource::Inventory, "list-panes failed"@)
    } else if valid_utf8(stdout) && rows is Some {
        EngineView {
            inventory: merged_views(e.inventory, live_terminals(rows->0)),
            inventory_bootstrapped: true,
            ..without_diag(e, DiagnosticSource::Inventory)
        }
    } else {
        with_diag(e, DiagnosticSource::Inventory, "list-panes invalid"@)
    }
}

/// The override records of a frame, each with the document read from its content.
pub open spec fn frame_record_views(
    records: Seq<(Seq<char>, Seq<u8>)>,
    documents: Seq<Option<RawManifest>>,
) -> Seq<RecordView> {
    Seq::new(
        records.len(),
        |i: int|
            RecordView {
                file_name: records[i].0,
                content: records[i].1,
                document: if i < documents.len() {
                    documents[i]
                } else {
                    None
                },
            },
    )
}

/// Every tracked pane due for a new baseline.
pub open spec fn rebaselined(panes: Map<u32, TrackedView>) -> Map<u32, TrackedView> {
    panes.map_values(
        |t: TrackedView|
            TrackedView {
                state: PaneView {
                    baseline_pending: true,
                    completion_pending: false,
                    read_failures: 0,
                    ..t.state
                },
                ..t
            },
    )
}

/// The manifests after an override read: a failed read, a broken frame or any refused
/// record keeps the current set and reports it; otherwise the overrides are adopted
/// over the bundled set, every tracked pane starts a new baseline and the queue empties.
pub open spec fn overrides_read(e: EngineView, exit_code: Option<i32>, stdout: Seq<u8>, documents: Seq<Option<RawManifest>>) -> EngineView {
    if exit_code != Some(0i32) {
        with_diag(e, DiagnosticSource::Manifest, "override read failed"@)
    } else {
        match frame_records(stdout) {
            Err(_) => with_diag(e, DiagnosticSource::Manifest, "invalid override framing"@),
            Ok(records) => {
                let rs = frame_record_views(records, documents);
                if e.bundled is None || exists|i: int|
                    0 <= i < rs.len() && record_error(#[trigger] rs[i]) is Some {
                    with_diag(e, DiagnosticSource::Manifest, "invalid override manifest"@)
                } else {
                    EngineView {
                        manifests: adopted(e.bundled->0, rs),
                        panes: rebaselined(e.panes),
                        attention: QueueView { pending: Seq::empty(), remaining_ms: None },
                        ..without_diag(e, DiagnosticSource::Manifest)
                    }
                }
            },
        }
    }
}

/// The engine after the override read came back: a reload requested meanwhile starts
/// the next read, and the sidebars hear of any change.
pub open spec fn manifest_result(e: EngineView, exit_code: Option<i32>, stdout: Seq<u8>, documents: Seq<Option<RawManifest>>) -> (EngineView, Seq<EffectView>) {
    let follow = e.reload_pending;
    let e1 = EngineView { reload_active: e.reload_pending, reload_pending: false, ..e };
    let e2 = overrides_read(e1, exit_code, stdout, documents);
    let (e3, f) = if follow {
        start_manifest_read(e2)
    } else {
        (e2, Seq::empty())
    };
    let (e4, g) = emitted(e3);
    (e4, f + g)
}

/// Notifications stop where the host cannot be told apart.
pub open spec fn notify_off(e: EngineView) -> EngineView {
    EngineView { config: ConfigView { notify: false, ..e.config }, ..e }
}

/// The engine after the host detection came back: a known host's own command becomes
/// the notification command.
pub open spec fn host_detected(e: EngineView, exit_code: Option<i32>, stdout: Seq<u8>) -> EngineView {
    if exit_code != Some(0i32) {
        with_diag(notify_off(e), DiagnosticSource::Host, "host detection failed"@)
    } else {
        match host_named(lossy_utf8(stdout)) {
            Some(os) => EngineView {
                notify_template: if template_error(default_argv(os)) is None {
                    Some(default_argv(os))
                } else {
                    None
                },
                ..without_diag(e, DiagnosticSource::Host)
            },
            None => with_diag(notify_off(e), DiagnosticSource::Host, "unsupported host"@),
        }
    }
}

/// The engine after a host command's result came back with `ctx`; results that answer
/// no command in flight are ignored.
pub open spec fn host_result(
    e: EngineView,
    ctx: Map<Seq<char>, Seq<char>>,
    exit_code: Option<i32>,
    stdout: Seq<u8>,
    rows: Option<Seq<PaneListRow>>,
    documents: Seq<Option<RawManifest>>,
) -> (EngineView, Seq<EffectView>) {
    let (r, k) = resolved(e.requests, ctx);
    match k {
        None => (e, Seq::empty()),
        Some(kind) => {
            let e1 = EngineView { requests: r, ..e };
            match kind {
                HostKind::PaneInventory => (inventory_result(e1, exit_code, stdout, rows), Seq::empty()),
                HostKind::ManifestRead => manifest_result(e1, exit_code, stdout, documents),
                HostKind::HostDetect => (host_detected(e1, exit_code, stdout), Seq::empty()),
                HostKind::Notify => (
                    if exit_code != Some(0i32) {
                        with_diag(e1, DiagnosticSource::Notification, "notification dispatch failed"@)
                    } else {
                        without_diag(e1, DiagnosticSource::Notification)
                    },
                    Seq::empty(),
                ),
            }
        },
    }
}

impl Engine {
    fn handle_inventory_result(&mut self, exit_code: Option<i32>, stdout: &[u8], rows: Option<Vec<PaneListRow>>)
        requires
            old(self).wf(),
        ensures
            final(self).wf(),
            final(self)@ == inventory_result(old(self)@, exit_code, stdout@, match rows {
                Some(v) => Some(v@),
                None => None,
            }),
    {
        if exit_code != Some(0i32) {
            self.diagnostics.set(DiagnosticSource::Inventory, "list-panes failed");
            assert(self@ =~= with_diag(old(self)@, DiagnosticSource::Inventory, "list-panes failed"@));
            return;
        }
        match parse_pane_list_json(stdout, rows) {
            Ok(candidates) => {
                self.diagnostics.clear(DiagnosticSource::Inventory);
                self.inventory_bootstrapped = true;
                proof {
                    lemma_merged_views(self@.inventory, candidates@);
                }
                self.inventory.merge_cli_candidates(candidates);
            },
            Err(_) => {
                self.diagnostics.set(DiagnosticSource::Inventory, "list-panes invalid");
            },
        }
        assert(self@ =~= inventory_result(old(self)@, exit_code, stdout@, match rows {
            Some(v) => Some(v@),
            None => None,
        }));
    }

    /// Starts a new baseline for every tracked pane.
    fn rebaseline_panes(&mut self)
        requires
            old(self).wf(),
        ensures
            final(self).wf(),
            final(self)@ == (EngineView { panes: rebaselined(old(self)@.panes), ..old(self)@ }),
    {
        let ids = self.tracked_ids();
        let ghost p0 = old(self)@.panes;
        let n = ids.len();
        for i in 0..n
            invariant
                n == ids@.len(),
                self.wf(),
                p0 == old(self)@.panes,
                forall|a: int, b: int| 0 <= a < b < n ==> ids@[a] < ids@[b],
                forall|k: u32| #[trigger] p0.dom().contains(k) <==> ids@.contains(k),
                self@ == (EngineView { panes: self@.panes, ..old(self)@ }),
                self@.panes.dom() == p0.dom(),
                forall|k: u32|
                    #[trigger] p0.dom().contains(k) ==> self@.panes[k] == if ids@.take(i as int).contains(k) {
                        rebaselined(p0)[k]
                    } else {
                        p0[k]
                    },
        {
            let id = ids[i];
            proof {
                assert(ids@.take(i + 1) =~= ids@.take(i as int).push(id));
                assert(ids@.contains(id));
                if ids@.take(i as int).contains(id) {
                    let j = choose|j: int| 0 <= j < i && #[trigger] ids@.take(i as int)[j] == id;
                    assert(ids@[j] < ids@[i as int]);
                }
                assert(!ids@.take(i as int).contains(id));
                assert(p0.dom().contains(id));
            }
            let ghost pre = self@.panes;
            match self.panes.get(&id) {
                Some(p) => {
                    let mut t = copy_tracked(p);
                    t.state.set_baseline_pending();
                    let ghost tv = tracked_view(t);
                    proof {
                        assert(pre.dom().contains(id));
                        assert(tv.display == pre[id].display && tv.agent_label == pre[id].agent_label);
                        lemma_pane_update_shows_clean(EngineView { panes: pre, ..old(self)@ }, id, tv);
                    }
                    self.panes.insert(id, t);
                    proof {
                        assert(self@.panes =~= pre.insert(id, tv));
                        assert(tv == rebaselined(p0)[id]);
                    }
                },
                None => {},
            }
            assert(self@ =~= (EngineView { panes: self@.panes, ..old(self)@ }));
            proof {
                assert forall|k: u32| #[trigger] p0.dom().contains(k) implies self@.panes[k] == if ids@.take(
                    i + 1,
                ).contains(k) {
                    rebaselined(p0)[k]
                } else {
                    p0[k]
                } by {
                    if k != id {
                        assert(self@.panes[k] == pre[k]);
                        if ids@.take(i + 1).contains(k) {
                            let j = choose|j: int| 0 <= j < i + 1 && #[trigger] ids@.take(i + 1)[j] == k;
                            assert(j != i);
                            assert(ids@.take(i as int)[j] == k);
                        }
                        if ids@.take(i as int).contains(k) {
                            let j = choose|j: int| 0 <= j < i && #[trigger] ids@.take(i as int)[j] == k;
                            assert(ids@.take(i + 1)[j] == k);
                        }
                    } else {
                        assert(ids@.take(i + 1)[i as int] == id);
                    }
                }
            }
        }
        proof {
            assert(ids@.take(n as int) =~= ids@);
            assert(self@.panes =~= rebaselined(p0));
        }
        assert(self@ =~= (EngineView { panes: rebaselined(old(self)@.panes), ..old(self)@ }));
    }

    /// Adopts a framed override read.
    fn read_overrides(&mut self, exit_code: Option<i32>, stdout: &[u8], documents: Vec<Option<RawManifest>>)
        requires
            old(self).wf(),
        ensures
            final(self).wf(),
            final(self)@ == overrides_read(old(self)@, exit_code, stdout@, documents@),
    {
        if exit_code != Some(0i32) {
            self.diagnostics.set(DiagnosticSource::Manifest, "override read failed");
            assert(self@ =~= with_diag(old(self)@, DiagnosticSource::Manifest, "override read failed"@));
            return;
        }
        let mut frame = match parse_manifest_frame(stdout) {
            Ok(f) => f,
            Err(_) => {
                self.diagnostics.set(DiagnosticSource::Manifest, "invalid override framing");
                assert(self@ =~= with_diag(old(self)@, DiagnosticSource::Manifest, "invalid override framing"@));
                return;
            },
        };
        let ghost fv = records_view(frame@);
        let ghost dv = documents@;
        let ghost want = frame_record_views(fv, dv);
        let mut docs = documents;
        let mut records: Vec<ManifestRecord> = Vec::new();
        let n = frame.len();
        for i in 0..n
            invariant
                n == fv.len(),
                frame@.len() == n - i,
                records_view(frame@) == fv.skip(i as int),
                docs@ == if i <= dv.len() { dv.skip(i as int) } else { Seq::empty() },
                want == frame_record_views(fv, dv),
                records@.len() == i,
                forall|j: int| 0 <= j < i ==> manifest_record_view(#[trigger] records@[j]) == want[j],
        {
            let ghost fb = frame@;
            let ghost db = docs@;
            let (file_name, content) = frame.remove(0);
            let document = if docs.len() > 0 {
                docs.remove(0)
            } else {
                None
            };
            proof {
                assert(frame@ =~= fb.remove(0));
                assert(records_view(fb)[0] == fv.skip(i as int)[0]);
                assert(fv.skip(i as int)[0] == fv[i as int]);
                assert(file_name@ == fv[i as int].0 && content@ == fv[i as int].1);
                assert(document == if i < dv.len() { dv[i as int] } else { None::<RawManifest> });
                assert(want[i as int] == (RecordView { file_name: file_name@, content: content@, document }));
                assert forall|j: int| 0 <= j < frame@.len() implies #[trigger] records_view(frame@)[j]
                    == fv.skip(i + 1)[j] by {
                    assert(frame@[j] == fb[j + 1]);
                    assert(records_view(fb)[j + 1] == fv.skip(i as int)[j + 1]);
                }
                assert(records_view(frame@) =~= fv.skip(i + 1));
                if i + 1 <= dv.len() {
                    assert(docs@ =~= dv.skip(i + 1));
                } else {
                    assert(docs@ =~= Seq::<Option<RawManifest>>::empty());
                }
            }
            records.push(ManifestRecord { file_name, content, document });
        }
        assert(records_of(records@) =~= want);
        match adopt_overrides(&self.bundled, records.as_slice()) {
            Ok(set) => {
                self.diagnostics.clear(DiagnosticSource::Manifest);
                self.manifests = set;
                self.rebaseline_panes();
                let q = AttentionQueue::new();
                let _ = q.is_well_formed();
                self.attention = q;
                proof {
                    assert(self@.attention.pending =~= Seq::<PendingView>::empty());
                    assert(self@ =~= overrides_read(old(self)@, exit_code, stdout@, documents@));
                }
            },
            Err(_) => {
                self.diagnostics.set(DiagnosticSource::Manifest, "invalid override manifest");
                assert(self@ =~= overrides_read(old(self)@, exit_code, stdout@, documents@));
            },
        }
    }

    fn handle_manifest_result(&mut self, exit_code: Option<i32>, stdout: &[u8], documents: Vec<Option<RawManifest>>) -> (r: Vec<Effect>)
        requires
            old(self).wf(),
        ensures
            final(self).wf(),
            final(self)@ == manifest_result(old(self)@, exit_code, stdout@, documents@).0,
            effects_view(r@) == manifest_result(old(self)@, exit_code, stdout@, documents@).1,
    {
        let follow_up = self.reload.complete();
        self.read_overrides(exit_code, stdout, documents);
        let mut effects: Vec<Effect> = Vec::new();
        assert(effects_view(effects@) =~= Seq::<EffectView>::empty());
        if follow_up {
            effects = self.start_manifest_read();
        }
        let ghost f = effects_view(effects@);
        let mut more = self.emit_snapshot_if_dirty();
        let ghost g = effects_view(more@);
        effects.append(&mut more);
        assert(effects_view(effects@) =~= f + g);
        effects
    }

    fn handle_host_detect(&mut self, exit_code: Option<i32>, stdout: &[u8])
        requires
            old(self).wf(),
        ensures
            final(self).wf(),
            final(self)@ == host_detected(old(self)@, exit_code, stdout@),
    {
        if exit_code != Some(0i32) {
            self.config.notify = false;
            self.diagnostics.set(DiagnosticSource::Host, "host detection failed");
            assert(self@ =~= host_detected(old(self)@, exit_code, stdout@));
            return;
        }
        let text = utf8_lossy(stdout);
        match parse_host_os(text.as_str()) {
            Some(os) => {
                self.diagnostics.clear(DiagnosticSource::Host);
                self.notify_template = match NotifyTemplate::from_argv(default_notify_argv(os)) {
                    Ok(t) => Some(t),
                    Err(_) => None,
                };
                assert(self@ =~= host_detected(old(self)@, exit_code, stdout@));
            },
            None => {
                self.config.notify = false;
                self.diagnostics.set(DiagnosticSource::Host, "unsupported host");
                assert(self@ =~= host_detected(old(self)@, exit_code, stdout@));
            },
        }
    }

    /// A host command's result: `context` as sent with the command, its exit code and
    /// output, and what the readers made of that output: `pane_rows` as a JSON pane
    /// listing, `documents` as the TOML document of each framed record, in order.
    pub fn on_host_result(
        &mut self,
        context: &StringMap,
        exit_code: Option<i32>,
        stdout: &[u8],
        pane_rows: Option<Vec<PaneListRow>>,
        documents: Vec<Option<RawManifest>>,
    ) -> (r: Vec<Effect>)
        requires
            old(self).wf(),
        ensures
            final(self).wf(),
            ({
                let rows = match pane_rows {
                    Some(v) => Some(v@),
                    None => None,
                };
                &&& final(self)@ == host_result(old(self)@, context@, exit_code, stdout@, rows, documents@).0
                &&& effects_view(r@) == host_result(old(self)@, context@, exit_code, stdout@, rows, documents@).1
            }),
    {
        let empty: Vec<Effect> = Vec::new();
        assert(effects_view(empty@) =~= Seq::<EffectView>::empty());
        let kind = match self.host_requests.resolve(context) {
            Some(k) => k,
            None => {
                return empty;
            },
        };
        assert(self@ == EngineView { requests: self@.requests, ..old(self)@ });
        match kind {
            HostKind::PaneInventory => {
                self.handle_inventory_result(exit_code, stdout, pane_rows);
                empty
            },
            HostKind::ManifestRead => self.handle_manifest_result(exit_code, stdout, documents),
            HostKind::HostDetect => {
                self.handle_host_detect(exit_code, stdout);
                empty
            },
            HostKind::Notify => {
                if exit_code != Some(0i32) {
                    self.diagnostics.set(DiagnosticSource::Notification, "notification dispatch failed");
                } else {
                    self.diagnostics.clear(DiagnosticSource::Notification);
                }
                assert(self@ =~= host_result(old(self)@, context@, exit_code, stdout@, match pane_rows {
                    Some(v) => Some(v@),
                    None => None,
                }, documents@).0);
                empty
            },
        }
    }
}

// ---------------------------------------------------------------------------
// Finishing a timer tick
// ---------------------------------------------------------------------------

/// The engine after the due foreground commands were seen, in ascending pane order;
/// failed reads are skipped.
pub open spec fn reconciled(e: EngineView, cmds: Seq<(u32, Option<Seq<Seq<char>>>)>) -> EngineView
    decreases cmds.len(),
{
    if cmds.len() == 0 {
        e
    } else {
        let e1 = reconciled(e, cmds.drop_last());
        match cmds.last().1 {
            Some(argv) => applied(e1, cmds.last().0, argv, true),
            None => e1,
        }
    }
}

/// The first manifest of a name.
pub open spec fn manifest_named(ms: Seq<ManifestView>, name: Seq<char>) -> Option<ManifestView> {
    let k = first_named(ms, name);
    if k < 0 {
        None
    } else {
        Some(ms[k])
    }
}

/// The queue with a notification added.
pub open spec fn queue_enqueued(q: QueueView, ev: PendingView) -> QueueView {
    QueueView {
        pending: upsert(q.pending, ev),
        remaining_ms: if q.pending.len() == 0 {
            Some(batch_window_ms())
        } else {
            q.remaining_ms
        },
    }
}

/// The queue with a pane's notification dropped where it is stale.
pub open spec fn queue_invalidated(q: QueueView, pane_id: u32, generation: u64, state: AttentionKind) -> QueueView {
    let p = if exists|i: int|
        0 <= i < q.pending.len() && is_stale(#[trigger] q.pending[i], pane_id, generation, state) {
        without(q.pending, pane_id)
    } else {
        q.pending
    };
    QueueView {
        pending: p,
        remaining_ms: if p.len() == 0 {
            None
        } else {
            q.remaining_ms
        },
    }
}

/// The engine after one tracked pane's viewport read: a read viewport is classified by
/// the pane's agent manifest and observed; a failed read counts as one.
pub open spec fn viewport_read(e: EngineView, focused: Option<u32>, pane_id: u32, read: Option<Seq<Seq<char>>>) -> EngineView {
    if !e.panes.dom().contains(pane_id) {
        e
    } else {
        let t = e.panes[pane_id];
        let f = focused == Some(pane_id);
        let p = focus_cleared(t.state, f);
        match read {
            Some(lines) => match manifest_named(e.manifests, t.agent) {
                None => e,
                Some(m) => {
                    let (o, fb) = classification_of(m, lines);
                    let ns = after_observation(p, o, f);
                    let e1 = EngineView {
                        panes: e.panes.insert(pane_id, TrackedView { fallback_used: fb, state: ns, ..t }),
                        ..e
                    };
                    match observation_attention(p, o, f) {
                        Some(kind) => EngineView {
                            attention: queue_enqueued(
                                e1.attention,
                                PendingView { pane_id, state: kind, generation: ns.generation, label: t.display },
                            ),
                            ..e1
                        },
                        None => e1,
                    }
                },
            },
            None => {
                let ns = after_read_failure(p);
                let e1 = EngineView { panes: e.panes.insert(pane_id, TrackedView { state: ns, ..t }), ..e };
                if bumped_failures(p.read_failures) >= 3 && p.state != AgentState::Unknown {
                    EngineView {
                        attention: queue_invalidated(e1.attention, pane_id, ns.generation, AttentionKind::Done),
                        ..e1
                    }
                } else {
                    e1
                }
            },
        }
    }
}

/// The engine after the viewport reads, in ascending pane order.
pub open spec fn viewed(e: EngineView, focused: Option<u32>, reads: Seq<(u32, Option<Seq<Seq<char>>>)>) -> EngineView
    decreases reads.len(),
{
    if reads.len() == 0 {
        e
    } else {
        viewport_read(viewed(e, focused, reads.drop_last()), focused, reads.last().0, reads.last().1)
    }
}

/// A pending notification still describes its pane: the pane is tracked, in the
/// notified state of the same transition, and not focused.
pub open spec fn still_current(panes: Map<u32, TrackedView>, focused: Option<u32>, p: PendingView) -> bool {
    &&& panes.dom().contains(p.pane_id)
    &&& panes[p.pane_id].state.state == match p.state {
        AttentionKind::Blocked => AgentState::Blocked,
        AttentionKind::Done => AgentState::Done,
    }
    &&& panes[p.pane_id].state.generation == p.generation
    &&& focused != Some(p.pane_id)
}

/// The queue after `ms`: when the batching window closes it empties, and the entries
/// still current come out.
pub open spec fn flushed(e: EngineView, ms: u64, focused: Option<u32>) -> (EngineView, Option<Seq<PendingView>>) {
    match e.attention.remaining_ms {
        None => (e, None),
        Some(rem) => if rem > ms {
            (
                EngineView {
                    attention: QueueView { remaining_ms: Some((rem - ms) as u64), ..e.attention },
                    ..e
                },
                None,
            )
        } else {
            (
                EngineView { attention: QueueView { pending: Seq::empty(), remaining_ms: None }, ..e },
                Some(
                    kept(
                        e.attention.pending,
                        e.attention.pending.map_values(|p: PendingView| still_current(e.panes, focused, p)),
                    ),
                ),
            )
        },
    }
}

/// A notification for a batch of events, where there is a command and something to say.
pub open spec fn notified(e: EngineView, events: Option<Seq<PendingView>>) -> (EngineView, Seq<EffectView>) {
    match events {
        None => (e, Seq::empty()),
        Some(evs) => match e.notify_template {
            None => (e, Seq::empty()),
            Some(t) => {
                let body = batch_body(evs);
                if body.len() == 0 {
                    (e, Seq::empty())
                } else {
                    let (r, c) = started(e.requests, HostKind::Notify);
                    (
                        EngineView { requests: r, ..e },
                        seq![EffectView::Notify { argv: instantiated(t, body), context: c->0 }],
                    )
                }
            },
        },
    }
}

/// A timer tick finished with what the host read: commands reconciled, the focused
/// pane's notification dropped, viewports observed, the batching window advanced, and
/// the sidebars told of any change. The plan's effects come first.
pub open spec fn timer_finished(
    e: EngineView,
    plan: PlanView,
    focused: Option<u32>,
    cmds: Seq<(u32, Option<Seq<Seq<char>>>)>,
    reads: Seq<(u32, Option<Seq<Seq<char>>>)>,
) -> (EngineView, Seq<EffectView>) {
    if !granted(e) {
        (e, Seq::empty())
    } else {
        let e1 = reconciled(e, cmds);
        let e2 = match focused {
            Some(fid) => EngineView { attention: queue_without(e1.attention, fid), ..e1 },
            None => e1,
        };
        let e3 = viewed(e2, focused, reads);
        let (e4, events) = flushed(e3, plan.elapsed_ms, focused);
        let (e5, n) = notified(e4, events);
        let (e6, s) = emitted(e5);
        (e6, plan.effects + n + s)
    }
}

impl Engine {
    /// Where the first manifest of a name sits.
    fn manifest_index(&self, name: &str) -> (r: Option<usize>)
        ensures
            match r {
                Some(k) => k < self.manifests@.len() && first_named(self@.manifests, name@) == k,
                None => first_named(self@.manifests, name@) < 0,
            },
    {
        let ghost ms = self@.manifests;
        let n = self.manifests.len();
        for i in 0..n
            invariant
                n == self.manifests@.len(),
                ms == self@.manifests,
                forall|j: int| 0 <= j < i ==> (#[trigger] ms[j]).name != name@,
        {
            assert(ms[i as int] == self.manifests@[i as int]@);
            if str_eq(self.manifests[i].name(), name) {
                proof {
                    lemma_first_named(ms, name@, i as int);
                }
                return Some(i);
            }
        }
        proof {
            lemma_first_named(ms, name@, n as int);
        }
        None
    }

    /// Observes one tracked pane's viewport read.
    fn read_viewport(&mut self, pane_id: u32, read: &Result<Vec<String>, HostError>, focused: Option<u32>)
        requires
            old(self).wf(),
        ensures
            final(self).wf(),
            final(self)@ == viewport_read(old(self)@, focused, pane_id, read_view(*read)),
    {
        let mut t = match self.panes.get(&pane_id) {
            Some(p) => copy_tracked(p),
            None => {
                return;
            },
        };
        let ghost t0 = tracked_view(t);
        assert(t0 == old(self)@.panes[pane_id]);
        let is_focused = match focused {
            Some(f) => f == pane_id,
            None => false,
        };
        match read {
            Ok(lines) => {
                let k = match self.manifest_index(t.agent.as_str()) {
                    Some(k) => k,
                    None => {
                        return;
                    },
                };
                let c = classify(&self.manifests[k], lines.as_slice());
                t.fallback_used = c.fallback_used;
                let change = t.state.observe(c.observation, is_focused);
                let label = t.display.clone();
                let ghost tv = tracked_view(t);
                self.panes.insert(pane_id, t);
                assert(self@.panes =~= old(self)@.panes.insert(pane_id, tv));
                match change.attention {
                    Some(kind) => {
                        self.attention.enqueue(
                            PendingAttention { pane_id, state: kind, generation: change.generation, label },
                        );
                        let _ = self.attention.is_well_formed();
                    },
                    None => {},
                }
                assert(self@ =~= viewport_read(old(self)@, focused, pane_id, read_view(*read)));
            },
            Err(_) => {
                let change = t.state.read_failed(is_focused);
                let ghost tv = tracked_view(t);
                self.panes.insert(pane_id, t);
                assert(self@.panes =~= old(self)@.panes.insert(pane_id, tv));
                if change.changed {
                    self.attention.invalidate_if_stale(pane_id, change.generation, AttentionKind::Done);
                    let _ = self.attention.is_well_formed();
                }
                assert(self@ =~= viewport_read(old(self)@, focused, pane_id, read_view(*read)));
            },
        }
    }

    /// Acts on the due foreground commands, in ascending pane order.
    fn reconcile_commands(&mut self, commands: &IdMap<u32, Result<Vec<String>, HostError>>)
        requires
            old(self).wf(),
            commands.wf(),
        ensures
            final(self).wf(),
            final(self)@ == reconciled(old(self)@, reads_view(*commands)),
    {
        let ghost cmds = reads_view(*commands);
        let ghost e0 = self@;
        let ce = commands.as_slice();
        let n = ce.len();
        assert(cmds.take(0) =~= Seq::<(u32, Option<Seq<Seq<char>>>)>::empty());
        for i in 0..n
            invariant
                n == ce@.len(),
                ce@ == commands.entries(),
                cmds == reads_view(*commands),
                self.wf(),
                e0 == old(self)@,
                self@ == reconciled(e0, cmds.take(i as int)),
        {
            proof {
                assert(cmds.take(i + 1).drop_last() =~= cmds.take(i as int));
                assert(cmds.take(i + 1).last() == (ce@[i as int].0, read_view(ce@[i as int].1)));
            }
            match &ce[i].1 {
                Ok(argv) => {
                    self.apply_command(ce[i].0, argv.as_slice(), true);
                },
                Err(_) => {},
            }
        }
        assert(cmds.take(n as int) =~= cmds);
    }

    /// Observes the viewport reads, in ascending pane order.
    fn read_viewports(&mut self, viewports: &IdMap<u32, Result<Vec<String>, HostError>>, focused: Option<u32>)
        requires
            old(self).wf(),
            viewports.wf(),
        ensures
            final(self).wf(),
            final(self)@ == viewed(old(self)@, focused, reads_view(*viewports)),
    {
        let ghost reads = reads_view(*viewports);
        let ghost e0 = self@;
        let ve = viewports.as_slice();
        let m = ve.len();
        assert(reads.take(0) =~= Seq::<(u32, Option<Seq<Seq<char>>>)>::empty());
        for i in 0..m
            invariant
                m == ve@.len(),
                ve@ == viewports.entries(),
                reads == reads_view(*viewports),
                self.wf(),
                e0 == old(self)@,
                self@ == viewed(e0, focused, reads.take(i as int)),
        {
            proof {
                assert(reads.take(i + 1).drop_last() =~= reads.take(i as int));
                assert(reads.take(i + 1).last() == (ve@[i as int].0, read_view(ve@[i as int].1)));
            }
            self.read_viewport(ve[i].0, &ve[i].1, focused);
        }
        assert(reads.take(m as int) =~= reads);
    }

    /// Lets the batching window advance by `ms`.
    fn flush_attention(&mut self, ms: u64, focused: Option<u32>) -> (r: Option<Vec<AttentionEvent>>)
        requires
            old(self).wf(),
        ensures
            final(self).wf(),
            final(self)@ == flushed(old(self)@, ms, focused).0,
            match flushed(old(self)@, ms, focused).1 {
                Some(evs) => r matches Some(v) && v@.map_values(|e: AttentionEvent| event_view(e)) == evs,
                None => r is None,
            },
    {
        let ghost e3 = self@;
        let panes_ref = &self.panes;
        let still = (|p: &PendingAttention| -> (ok: bool)
            requires
                panes_ref.wf(),
            ensures
                ok == current_in(panes_ref, focused, p),
            { pane_still_current(panes_ref, focused, p) });
        let events = self.attention.advance(ms, still);
        let _ = self.attention.is_well_formed();
        proof {
            let q = e3.attention;
            assert(e3.panes == panes_ref.view().map_values(|t: TrackedPane| tracked_view(t)));
            if q.remaining_ms is Some && q.remaining_ms->0 <= ms {
                let evs = events->0;
                let keep = choose|keep: Seq<bool>|
                    {
                        &&& keep.len() == q.pending.len()
                        &&& (forall|i: int|
                            0 <= i < keep.len() ==> #[trigger] verdict(still, q.pending[i], keep[i]))
                        &&& evs@.map_values(|e: AttentionEvent| event_view(e)) == kept(q.pending, keep)
                    };
                assert forall|i: int| 0 <= i < keep.len() implies keep[i] == still_current(
                    e3.panes,
                    focused,
                    q.pending[i],
                ) by {
                    assert(verdict(still, q.pending[i], keep[i]));
                    let p = choose|p: &PendingAttention|
                        pending_view(*p) == q.pending[i] && #[trigger] still.ensures((p,), keep[i]);
                }
                assert(keep =~= q.pending.map_values(|p: PendingView| still_current(e3.panes, focused, p)));
                assert(self@.attention.pending =~= Seq::<PendingView>::empty());
            }
            assert(self@ =~= flushed(e3, ms, focused).0);
        }
        events
    }

    /// Sends a notification for a batch of events.
    fn notify_events(&mut self, events: Option<Vec<AttentionEvent>>) -> (r: Vec<Effect>)
        requires
            old(self).wf(),
        ensures
            final(self).wf(),
            ({
                let evs = match events {
                    Some(v) => Some(v@.map_values(|e: AttentionEvent| event_view(e))),
                    None => None,
                };
                &&& final(self)@ == notified(old(self)@, evs).0
                &&& effects_view(r@) == notified(old(self)@, evs).1
            }),
    {
        let mut out: Vec<Effect> = Vec::new();
        assert(effects_view(out@) =~= Seq::<EffectView>::empty());
        if let Some(evs) = &events {
            if let Some(template) = &self.notify_template {
                let body = AttentionQueue::format_body(evs.as_slice());
                if !body.as_str().is_empty() {
                    if let Some(ctx) = self.host_requests.start(HostKind::Notify) {
                        let argv = template.instantiate(body.as_str());
                        out.push(Effect::Notify { argv, context: ctx });
                    }
                }
            }
        }
        proof {
            let evs = match events {
                Some(v) => Some(v@.map_values(|e: AttentionEvent| event_view(e))),
                None => None,
            };
            assert(self@ =~= notified(old(self)@, evs).0);
            assert(effects_view(out@) =~= notified(old(self)@, evs).1);
        }
        out
    }

    /// Finishes a timer tick with what the host read for its plan.
    pub fn finish_timer(&mut self, plan: TimerPlan, observations: TimerObservations) -> (r: Vec<Effect>)
        requires
            old(self).wf(),
            observations.reconciled_commands.wf(),
            observations.viewports.wf(),
        ensures
            final(self).wf(),
            final(self)@ == timer_finished(
                old(self)@,
                plan_view(plan),
                observations.focused_pane_id,
                reads_view(observations.reconciled_commands),
                reads_view(observations.viewports),
            ).0,
            effects_view(r@) == timer_finished(
                old(self)@,
                plan_view(plan),
                observations.focused_pane_id,
                reads_view(observations.reconciled_commands),
                reads_view(observations.viewports),
            ).1,
    {
        if !self.permission_is_granted() {
            let r: Vec<Effect> = Vec::new();
            assert(effects_view(r@) =~= Seq::<EffectView>::empty());
            return r;
        }
        let elapsed_ms = plan.elapsed_ms;
        let mut effects = plan.effects;
        let focused = observations.focused_pane_id;
        self.reconcile_commands(&observations.reconciled_commands);
        let ghost e1 = self@;
        if let Some(fid) = focused {
            self.attention.on_focused(fid);
            let _ = self.attention.is_well_formed();
            assert(self@ =~= (EngineView { attention: queue_without(e1.attention, fid), ..e1 }));
        }
        self.read_viewports(&observations.viewports, focused);
        let events = self.flush_attention(elapsed_ms, focused);
        let mut notify_effects = self.notify_events(events);
        let ghost f0 = effects_view(effects@);
        let ghost f1 = effects_view(notify_effects@);
        effects.append(&mut notify_effects);
        let mut snapshot_effects = self.emit_snapshot_if_dirty();
        let ghost f2 = effects_view(snapshot_effects@);
        effects.append(&mut snapshot_effects);
        assert(effects_view(effects@) =~= f0 + f1 + f2);
        effects
    }
}

/// Whether a pending notification is still current for the tracked panes.
spec fn current_in(panes: &IdMap<u32, TrackedPane>, focused: Option<u32>, p: &PendingAttention) -> bool {
    still_current(panes.view().map_values(|t: TrackedPane| tracked_view(t)), focused, pending_view(*p))
}

fn pane_still_current(panes: &IdMap<u32, TrackedPane>, focused: Option<u32>, p: &PendingAttention) -> (ok: bool)
    requires
        panes.wf(),
    ensures
        ok == current_in(panes, focused, p),
{
    match panes.get(&p.pane_id) {
        Some(t) => {
            let state_ok = match p.state {
                AttentionKind::Blocked => t.state.state() == AgentState::Blocked,
                AttentionKind::Done => t.state.state() == AgentState::Done,
            };
            let not_focused = match focused {
                Some(f) => f != p.pane_id,
                None => true,
            };
            state_ok && t.state.generation() == p.generation && not_focused
        },
        None => false,
    }
}

impl Engine {
    /// The snapshot the sidebars are shown.
    pub fn snapshot(&self) -> (r: Snapshot)
        requires
            self.wf(),
        ensures
            snapshot_view(r) == snapshot_of(self@),
    {
        self.build_snapshot()
    }

    /// The title a tracked pane shows, if it is tracked and has one.
    pub fn pane_title(&self, pane_id: u32) -> (r: Option<String>)
        requires
            self.wf(),
        ensures
            match r {
                Some(t) => self@.panes.dom().contains(pane_id) && self@.panes[pane_id].title == Some(t@),
                None => !self@.panes.dom().contains(pane_id) || self@.panes[pane_id].title is None,
            },
    {
        match self.panes.get(&pane_id) {
            Some(p) => copy_opt(&p.title),
            None => None,
        }
    }

    /// The names of the manifests in use, in order.
    pub fn manifest_names(&self) -> (r: Vec<String>)
        ensures
            strings_view(r@) == self@.manifests.map_values(|m: ManifestView| m.name),
    {
        let mut r: Vec<String> = Vec::new();
        let n = self.manifests.len();
        for i in 0..n
            invariant
                n == self.manifests@.len(),
                strings_view(r@) == manifests_view(self.manifests@).take(i as int).map_values(
                    |m: ManifestView| m.name,
                ),
        {
            let ghost before = strings_view(r@);
            let nm = self.manifests[i].name().to_owned();
            assert(nm@ == manifests_view(self.manifests@)[i as int].name);
            r.push(nm);
            assert(strings_view(r@) =~= before.push(nm@));
            assert(manifests_view(self.manifests@).take(i + 1) =~= manifests_view(self.manifests@).take(
                i as int,
            ).push(manifests_view(self.manifests@)[i as int]));
            assert(strings_view(r@) =~= manifests_view(self.manifests@).take(i + 1).map_values(
                |m: ManifestView| m.name,
            ));
        }
        assert(manifests_view(self.manifests@).take(n as int) =~= manifests_view(self.manifests@));
        r
    }
}

// ---------------------------------------------------------------------------
// Laws
// ---------------------------------------------------------------------------

/// A started command is answered exactly once: its result resolves to its kind, and
/// the same result coming back again is ignored.
pub proof fn lemma_request_resolves_once(r: RequestsView, kind: HostKind)
    requires
        started(r, kind).1 is Some,
    ensures
        ({
            let (r1, c) = started(r, kind);
            let (r2, k) = resolved(r1, c->0);
            &&& k == Some(kind)
            &&& resolved(r2, c->0).1 is None
        }),
{
    reveal_strlit("kind");
    reveal_strlit("request_id");
    reveal_strlit("pane-inventory");
    reveal_strlit("manifest-read");
    reveal_strlit("host-detect");
    reveal_strlit("notify");
    let (r1, c) = started(r, kind);
    let ctx = c->0;
    assert(ctx.dom().contains("kind"@));
    assert(ctx.dom().contains("request_id"@));
    assert("kind"@.len() != "request_id"@.len());
    assert("kind"@ != "request_id"@);
    assert(ctx["kind"@] == kind_name(kind));
}

/// Request ids only grow, up to the largest one.
pub proof fn lemma_request_ids_grow(r: RequestsView, kind: HostKind)
    ensures
        started(r, kind).0.next_id >= r.next_id,
        started(r, kind).1 is Some && r.next_id < u64::MAX ==> started(r, kind).0.next_id == r.next_id + 1,
{
}

/// Notification commands may overlap: each start succeeds, whatever is in flight.
pub proof fn lemma_notify_always_starts(r: RequestsView)
    ensures
        started(r, HostKind::Notify).1 is Some,
{
}

/// A snapshot that told the sidebars something is not sent again until something
/// changes.
pub proof fn lemma_snapshot_sent_once(e: EngineView)
    ensures
        emitted(emitted(e).0).1.len() == 0,
        emitted(emitted(e).0).0 == emitted(e).0,
{
    let e1 = emitted(e).0;
    assert(snapshot_of(e1) == snapshot_of(e));
}

/// Without permission the engine does nothing: timer ticks, greetings, reloads,
/// commands and pane listings leave it as it is and ask nothing of the host.
pub proof fn lemma_denied_is_inert(
    e: EngineView,
    ms: u64,
    plugin_id: u32,
    v: Option<u8>,
    pane_id: u32,
    argv: Seq<Seq<char>>,
    foreground: bool,
    rows: Seq<CandidateView>,
)
    requires
        e.permission == PermissionState::Denied,
    ensures
        timer_begun(e, ms) == (e, None::<PlanView>),
        greeted(e, plugin_id, v) == (e, Seq::<EffectView>::empty()),
        reload_requested(e, v) == (e, Seq::<EffectView>::empty()),
        command_changed(e, pane_id, argv, foreground) == e,
        event_inventory(e, rows) == e,
        permitted(e, true) == (e, Seq::<EffectView>::empty()),
{
}

/// Only the first answer to the permission request counts.
pub proof fn lemma_permission_answered_once(e: EngineView, first: bool, second: bool)
    requires
        e.permission == PermissionState::Pending,
    ensures
        permitted(permitted(e, first).0, second) == (permitted(e, first).0, Seq::<EffectView>::empty()),
{
}

/// A failed or garbled override read keeps the manifest set, the tracked panes and
/// the queue.
pub proof fn lemma_failed_read_keeps_manifests(
    e: EngineView,
    exit_code: Option<i32>,
    stdout: Seq<u8>,
    documents: Seq<Option<RawManifest>>,
)
    requires
        exit_code != Some(0i32) || frame_records(stdout) is Err,
    ensures
        overrides_read(e, exit_code, stdout, documents).manifests == e.manifests,
        overrides_read(e, exit_code, stdout, documents).panes == e.panes,
        overrides_read(e, exit_code, stdout, documents).attention == e.attention,
{
}

/// Every text of a snapshot is fit to be shown: tab names, agent labels, display
/// names and diagnostic messages.
pub open spec fn snapshot_shows_clean(s: SnapshotView) -> bool {
    &&& forall|i: int| 0 <= i < s.tabs.len() ==> displayable((#[trigger] s.tabs[i]).1)
    &&& forall|i: int|
        0 <= i < s.agents.len() ==> displayable((#[trigger] s.agents[i]).display) && displayable(
            s.agents[i].agent_label,
        )
    &&& forall|i: int| 0 <= i < s.diagnostics.len() ==> displayable((#[trigger] s.diagnostics[i]).1)
}

proof fn lemma_slot_entries_show_clean(slots: Seq<Option<Seq<char>>>, k: int)
    requires
        0 <= k <= slots.len(),
        forall|i: int| 0 <= i < slots.len() && (#[trigger] slots[i]) is Some ==> displayable(slots[i]->0),
    ensures
        forall|i: int|
            0 <= i < slot_entries(slots, k).len() ==> displayable((#[trigger] slot_entries(slots, k)[i]).1),
    decreases k,
{
    if k > 0 {
        lemma_slot_entries_show_clean(slots, k - 1);
        let prev = slot_entries(slots, k - 1);
        let cur = slot_entries(slots, k);
        assert forall|i: int| 0 <= i < cur.len() implies displayable((#[trigger] cur[i]).1) by {
            if i < prev.len() {
                assert(cur[i] == prev[i]);
            } else {
                assert(slots[k - 1] is Some);
            }
        }
    }
}

/// Snapshots carry sanitized display text only: whatever happened to an engine, every
/// tab name, agent label, display name and diagnostic message of its snapshot is free of
/// control, bidirectional and zero-width characters. Pane contents never reach it.
pub proof fn lemma_snapshots_show_clean(engine: Engine)
    requires
        engine.wf(),
    ensures
        snapshot_shows_clean(snapshot_of(engine@)),
{
    let e = engine@;
    let snap = snapshot_of(e);
    let g = |s: String| s@;
    let h = |t: TrackedPane| tracked_view(t);
    engine.tabs.lemma_entries();
    engine.tabs.lemma_sorted_entries_mapped(g);
    lemma_map_of_map_pairs(engine.tabs.entries(), g);
    lemma_map_pairs_ascending(engine.tabs.entries(), g);
    let ts = sorted_entries(e.tabs);
    assert(e.tabs == engine.tabs.view().map_values(g));
    assert forall|i: int| 0 <= i < snap.tabs.len() implies displayable((#[trigger] snap.tabs[i]).1) by {
        lemma_map_of_value(ts, i);
        assert(e.tabs.dom().contains(ts[i].0));
    }
    engine.panes.lemma_entries();
    engine.panes.lemma_sorted_entries_mapped(h);
    lemma_map_of_map_pairs(engine.panes.entries(), h);
    lemma_map_pairs_ascending(engine.panes.entries(), h);
    let ps = sorted_entries(e.panes);
    assert(e.panes == engine.panes.view().map_values(h));
    assert forall|i: int| 0 <= i < snap.agents.len() implies displayable(
        (#[trigger] snap.agents[i]).display,
    ) && displayable(snap.agents[i].agent_label) by {
        lemma_map_of_value(ps, i);
        assert(e.panes.dom().contains(ps[i].0));
        assert(snap.agents[i] == agent_row(ps[i].0, ps[i].1));
    }
    lemma_slot_entries_show_clean(e.diagnostics, 6);
}

/// Notifications carry no pane contents: when the batching window closes, the body of
/// the notification for the entries that come out holds only display names fit to be
/// shown, state words and counts.
pub proof fn lemma_notification_bodies_show_clean(engine: Engine, ms: u64, focused: Option<u32>)
    requires
        engine.wf(),
    ensures
        flushed(engine@, ms, focused).1 matches Some(evs) ==> displayable(batch_body(evs)),
{
    if let Some(evs) = flushed(engine@, ms, focused).1 {
        assert(labels_displayable(evs));
        lemma_body_displayable(evs);
    }
}

/// A foreground command that exactly one manifest claims tracks the pane as that
/// manifest's agent: a pane not tracked before, or tracked as another agent, takes the
/// manifest's name and sanitized label and starts a new baseline, so the manifest's own
/// rules classify it from then on; a pane already tracked as this agent stays as it was.
/// No other pane changes.
pub proof fn lemma_claimed_command_tracks(e: EngineView, pane_id: u32, argv: Seq<Seq<char>>)
    requires
        granted(e),
        claimants(e.manifests, argv).len() == 1,
    ensures
        ({
            let m = claimants(e.manifests, argv)[0];
            let e2 = command_changed(e, pane_id, argv, true);
            &&& e2.panes.dom().contains(pane_id)
            &&& e2.panes[pane_id].agent == m.name
            &&& (!e.panes.dom().contains(pane_id) || e.panes[pane_id].agent != m.name) ==> {
                &&& e2.panes[pane_id].agent_label == sanitized_label(m.label, 60, pane_id)
                &&& e2.panes[pane_id].state.baseline_pending
            }
            &&& (e.panes.dom().contains(pane_id) && e.panes[pane_id].agent == m.name) ==> e2.panes[pane_id]
                == e.panes[pane_id]
            &&& forall|k: u32|
                k != pane_id ==> (#[trigger] e2.panes.dom().contains(k) == e.panes.dom().contains(k)
                    && (e.panes.dom().contains(k) ==> e2.panes[k] == e.panes[k]))
        }),
{
}

/// A pane whose foreground command no manifest claims, or several claim, or that is no
/// longer in the foreground, is not tracked afterwards; no other pane changes.
pub proof fn lemma_unclaimed_command_untracks(
    e: EngineView,
    pane_id: u32,
    argv: Seq<Seq<char>>,
    foreground: bool,
)
    requires
        granted(e),
        !foreground || claimants(e.manifests, argv).len() != 1,
    ensures
        ({
            let e2 = command_changed(e, pane_id, argv, foreground);
            &&& !e2.panes.dom().contains(pane_id)
            &&& forall|k: u32|
                k != pane_id ==> (#[trigger] e2.panes.dom().contains(k) == e.panes.dom().contains(k)
                    && (e.panes.dom().contains(k) ==> e2.panes[k] == e.panes[k]))
        }),
{
}

} // verus!
