use vstd::prelude::*;

verus! {

/// The state the engine reports for one agent pane.
#[derive(Clone, Copy, Debug, PartialEq, Eq, Structural, PartialOrd, Ord, Hash)]
pub enum AgentState {
    Unknown,
    Idle,
    Working,
    Blocked,
    Done,
}

/// What one successful classification of a viewport saw.
#[derive(Clone, Copy, Debug, PartialEq, Eq, Structural, Hash)]
pub enum Observation {
    Unknown,
    Idle,
    Working,
    Blocked,
}

/// The subsystem a diagnostic slot belongs to, in protocol order.
#[derive(Clone, Copy, Debug, PartialEq, Eq, Structural, PartialOrd, Ord, Hash)]
pub enum DiagnosticSource {
    Inventory,
    Manifest,
    Host,
    Notification,
    Protocol,
    Detection,
}

/// The agent state that an observation stands for.
pub open spec fn observed_state(o: Observation) -> AgentState {
    match o {
        Observation::Unknown => AgentState::Unknown,
        Observation::Idle => AgentState::Idle,
        Observation::Working => AgentState::Working,
        Observation::Blocked => AgentState::Blocked,
    }
}

impl Default for AgentState {
    fn default() -> (s: Self)
        ensures
            s == AgentState::Unknown,
    {
        AgentState::Unknown
    }
}

impl From<Observation> for AgentState {
    fn from(value: Observation) -> (s: Self) {
        match value {
            Observation::Unknown => AgentState::Unknown,
            Observation::Idle => AgentState::Idle,
            Observation::Working => AgentState::Working,
            Observation::Blocked => AgentState::Blocked,
        }
    }
}

impl vstd::std_specs::convert::FromSpecImpl<Observation> for AgentState {
    open spec fn obeys_from_spec() -> bool {
        true
    }

    open spec fn from_spec(v: Observation) -> AgentState {
        observed_state(v)
    }
}

/// The lower-case wire name of a state.
pub open spec fn state_name(s: AgentState) -> Seq<char> {
    match s {
        AgentState::Unknown => "unknown"@,
        AgentState::Idle => "idle"@,
        AgentState::Working => "working"@,
        AgentState::Blocked => "blocked"@,
        AgentState::Done => "done"@,
    }
}

/// The one-character marker shown before a state in the sidebar.
pub open spec fn state_glyph(s: AgentState) -> Seq<char> {
    match s {
        AgentState::Unknown => "?"@,
        AgentState::Idle => "\u{b7}"@,
        AgentState::Working => "\u{203a}"@,
        AgentState::Blocked => "!"@,
        AgentState::Done => "\u{2713}"@,
    }
}

impl AgentState {
    pub fn as_str(self) -> (r: &'static str)
        ensures
            r@ == state_name(self),
    {
        match self {
            AgentState::Unknown => "unknown",
            AgentState::Idle => "idle",
            AgentState::Working => "working",
            AgentState::Blocked => "blocked",
            AgentState::Done => "done",
        }
    }

    pub fn glyph(self) -> (r: &'static str)
        ensures
            r@ == state_glyph(self),
    {
        match self {
            AgentState::Unknown => "?",
            AgentState::Idle => "\u{b7}",
            AgentState::Working => "\u{203a}",
            AgentState::Blocked => "!",
            AgentState::Done => "\u{2713}",
        }
    }
}

} // verus!
