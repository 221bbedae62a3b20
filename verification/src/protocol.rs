use vstd::prelude::*;

use crate::model::{AgentState, DiagnosticSource};
use crate::text::str_eq;

verus! {

/// The version of the engine/sidebar pipe protocol.
pub const PROTOCOL_VERSION: u8 = 1;

/// The sidebar's greeting; the engine answers it with a snapshot.
#[derive(Clone, Debug, PartialEq, Eq, Structural)]
pub struct Hello {
    pub v: u8,
}

impl Hello {
    pub fn v1() -> (r: Self)
        ensures
            r.v == PROTOCOL_VERSION,
    {
        Hello { v: PROTOCOL_VERSION }
    }
}

/// The sidebar's request to re-read the override manifests.
#[derive(Clone, Debug, PartialEq, Eq, Structural)]
pub struct Reload {
    pub v: u8,
}

impl Reload {
    pub fn v1() -> (r: Self)
        ensures
            r.v == PROTOCOL_VERSION,
    {
        Reload { v: PROTOCOL_VERSION }
    }
}

/// Everything the sidebar shows, as the engine last computed it.
#[derive(Clone, Debug, PartialEq, Eq)]
pub struct Snapshot {
    pub v: u8,
    pub tabs: Vec<TabSnapshot>,
    pub agents: Vec<AgentSnapshot>,
    pub diagnostics: Vec<Diagnostic>,
}

#[derive(Clone, Debug, PartialEq, Eq)]
pub struct TabSnapshot {
    pub position: usize,
    pub name: String,
}

#[derive(Clone, Debug, PartialEq, Eq)]
pub struct AgentSnapshot {
    pub pane_id: u32,
    pub tab_position: usize,
    pub agent: String,
    pub agent_label: String,
    pub display: String,
    pub state: AgentState,
    pub since_ms: u64,
    pub fallback_used: bool,
}

#[derive(Clone, Debug, PartialEq, Eq)]
pub struct Diagnostic {
    pub source: DiagnosticSource,
    pub message: String,
}

impl Diagnostic {
    pub fn new(source: DiagnosticSource, message: &str) -> (r: Self)
        ensures
            r.source == source,
            r.message@ == message@,
    {
        Diagnostic { source, message: message.to_owned() }
    }
}

/// A tab as plain values.
pub open spec fn tab_view(t: TabSnapshot) -> (usize, Seq<char>) {
    (t.position, t.name@)
}

/// An agent row as plain values.
pub struct AgentSnapshotView {
    pub pane_id: u32,
    pub tab_position: usize,
    pub agent: Seq<char>,
    pub agent_label: Seq<char>,
    pub display: Seq<char>,
    pub state: AgentState,
    pub since_ms: u64,
    pub fallback_used: bool,
}

pub open spec fn agent_view(a: AgentSnapshot) -> AgentSnapshotView {
    AgentSnapshotView {
        pane_id: a.pane_id,
        tab_position: a.tab_position,
        agent: a.agent@,
        agent_label: a.agent_label@,
        display: a.display@,
        state: a.state,
        since_ms: a.since_ms,
        fallback_used: a.fallback_used,
    }
}

pub open spec fn diagnostic_view(d: Diagnostic) -> (DiagnosticSource, Seq<char>) {
    (d.source, d.message@)
}

/// A snapshot as plain values.
pub struct SnapshotView {
    pub v: u8,
    pub tabs: Seq<(usize, Seq<char>)>,
    pub agents: Seq<AgentSnapshotView>,
    pub diagnostics: Seq<(DiagnosticSource, Seq<char>)>,
}

pub open spec fn snapshot_view(s: Snapshot) -> SnapshotView {
    SnapshotView {
        v: s.v,
        tabs: s.tabs@.map_values(|t: TabSnapshot| tab_view(t)),
        agents: s.agents@.map_values(|a: AgentSnapshot| agent_view(a)),
        diagnostics: s.diagnostics@.map_values(|d: Diagnostic| diagnostic_view(d)),
    }
}

fn agent_eq(a: &AgentSnapshot, b: &AgentSnapshot) -> (r: bool)
    ensures
        r == (agent_view(*a) == agent_view(*b)),
{
    a.pane_id == b.pane_id && a.tab_position == b.tab_position && str_eq(
        a.agent.as_str(),
        b.agent.as_str(),
    ) && str_eq(a.agent_label.as_str(), b.agent_label.as_str()) && str_eq(
        a.display.as_str(),
        b.display.as_str(),
    ) && a.state == b.state && a.since_ms == b.since_ms && a.fallback_used == b.fallback_used
}

/// Whether two snapshots carry the same values.
pub fn snapshot_eq(a: &Snapshot, b: &Snapshot) -> (r: bool)
    ensures
        r == (snapshot_view(*a) == snapshot_view(*b)),
{
    let ghost va = snapshot_view(*a);
    let ghost vb = snapshot_view(*b);
    if a.v != b.v || a.tabs.len() != b.tabs.len() || a.agents.len() != b.agents.len()
        || a.diagnostics.len() != b.diagnostics.len() {
        proof {
            if va == vb {
                assert(va.tabs.len() == vb.tabs.len());
                assert(va.agents.len() == vb.agents.len());
                assert(va.diagnostics.len() == vb.diagnostics.len());
            }
        }
        return false;
    }
    let n = a.tabs.len();
    for i in 0..n
        invariant
            n == a.tabs@.len(),
            n == b.tabs@.len(),
            va == snapshot_view(*a),
            vb == snapshot_view(*b),
            forall|j: int| 0 <= j < i ==> va.tabs[j] == vb.tabs[j],
    {
        if a.tabs[i].position != b.tabs[i].position || !str_eq(
            a.tabs[i].name.as_str(),
            b.tabs[i].name.as_str(),
        ) {
            assert(va.tabs[i as int] != vb.tabs[i as int]);
            return false;
        }
    }
    let m = a.agents.len();
    for i in 0..m
        invariant
            m == a.agents@.len(),
            m == b.agents@.len(),
            va == snapshot_view(*a),
            vb == snapshot_view(*b),
            forall|j: int| 0 <= j < i ==> va.agents[j] == vb.agents[j],
    {
        if !agent_eq(&a.agents[i], &b.agents[i]) {
            assert(va.agents[i as int] != vb.agents[i as int]);
            return false;
        }
    }
    let k = a.diagnostics.len();
    for i in 0..k
        invariant
            k == a.diagnostics@.len(),
            k == b.diagnostics@.len(),
            va == snapshot_view(*a),
            vb == snapshot_view(*b),
            forall|j: int| 0 <= j < i ==> va.diagnostics[j] == vb.diagnostics[j],
    {
        if a.diagnostics[i].source != b.diagnostics[i].source || !str_eq(
            a.diagnostics[i].message.as_str(),
            b.diagnostics[i].message.as_str(),
        ) {
            assert(va.diagnostics[i as int] != vb.diagnostics[i as int]);
            return false;
        }
    }
    assert(va.tabs =~= vb.tabs);
    assert(va.agents =~= vb.agents);
    assert(va.diagnostics =~= vb.diagnostics);
    true
}

} // verus!
