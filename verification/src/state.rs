use vstd::prelude::*;

use crate::model::{observed_state, AgentState, Observation};

verus! {

/// Why a pane asks for the user's attention.
#[derive(Clone, Copy, Debug, PartialEq, Eq, Structural)]
pub enum AttentionKind {
    Blocked,
    Done,
}

/// What one observation or read failure did to a pane.
#[derive(Clone, Copy, Debug, PartialEq, Eq, Structural)]
pub struct StateChange {
    pub changed: bool,
    pub generation: u64,
    pub attention: Option<AttentionKind>,
}

/// The per-pane agent state machine.
#[derive(Debug)]
pub struct PaneState {
    state: AgentState,
    baseline_pending: bool,
    completion_pending: bool,
    consecutive_read_failures: u8,
    transition_generation: u64,
    since_ms: u64,
}

/// The abstract contents of a [`PaneState`].
pub struct PaneView {
    pub state: AgentState,
    pub baseline_pending: bool,
    pub completion_pending: bool,
    pub read_failures: u8,
    pub generation: u64,
    pub since_ms: u64,
}

impl View for PaneState {
    type V = PaneView;

    closed spec fn view(&self) -> PaneView {
        PaneView {
            state: self.state,
            baseline_pending: self.baseline_pending,
            completion_pending: self.completion_pending,
            read_failures: self.consecutive_read_failures,
            generation: self.transition_generation,
            since_ms: self.since_ms,
        }
    }
}

/// A completion is only ever pending for a settled, working pane.
pub open spec fn pane_view_wf(p: PaneView) -> bool {
    p.completion_pending ==> (p.state == AgentState::Working && !p.baseline_pending)
}

pub open spec fn sat_inc(g: u64) -> u64 {
    if g == u64::MAX {
        g
    } else {
        (g + 1) as u64
    }
}

pub open spec fn sat_add(a: u64, b: u64) -> u64 {
    if a + b > u64::MAX {
        u64::MAX
    } else {
        (a + b) as u64
    }
}

/// Focusing a pane that finished acknowledges the completion: it becomes idle.
pub open spec fn focus_cleared(p: PaneView, focused: bool) -> PaneView {
    if focused && p.state == AgentState::Done {
        PaneView {
            state: AgentState::Idle,
            completion_pending: false,
            generation: sat_inc(p.generation),
            since_ms: 0,
            ..p
        }
    } else {
        p
    }
}

/// The transition table of a settled (baselined) pane.
pub open spec fn next_state(
    s: AgentState,
    o: Observation,
    focused: bool,
    completion_pending: bool,
) -> AgentState {
    match (s, o) {
        (_, Observation::Working) => AgentState::Working,
        (_, Observation::Blocked) => AgentState::Blocked,
        (AgentState::Working, Observation::Idle) => {
            if focused {
                AgentState::Idle
            } else if completion_pending {
                AgentState::Done
            } else {
                AgentState::Working
            }
        },
        (AgentState::Done, _) => {
            if focused {
                observed_state(o)
            } else {
                AgentState::Done
            }
        },
        (_, _) => observed_state(o),
    }
}

/// The state a pane holds after an observation (focus already accounted for).
pub open spec fn settled_state(p: PaneView, o: Observation, focused: bool) -> AgentState {
    if p.baseline_pending {
        observed_state(o)
    } else {
        next_state(p.state, o, focused, p.completion_pending)
    }
}

/// The notification an observation asks for: only a real, unfocused transition into
/// `Blocked`, or the transition into `Done`; never the baseline observation.
pub open spec fn observation_attention(p: PaneView, o: Observation, focused: bool) -> Option<
    AttentionKind,
> {
    let n = settled_state(p, o, focused);
    if p.baseline_pending || n == p.state {
        None
    } else if n == AgentState::Blocked && !focused {
        Some(AttentionKind::Blocked)
    } else if n == AgentState::Done {
        Some(AttentionKind::Done)
    } else {
        None
    }
}

/// The pane after an observation (focus already accounted for).
pub open spec fn after_observation(p: PaneView, o: Observation, focused: bool) -> PaneView {
    let n = settled_state(p, o, focused);
    let changed = n != p.state;
    PaneView {
        state: n,
        baseline_pending: false,
        completion_pending: !p.baseline_pending && p.state == AgentState::Working && o
            == Observation::Idle && !focused && !p.completion_pending,
        read_failures: 0,
        generation: if changed {
            sat_inc(p.generation)
        } else {
            p.generation
        },
        since_ms: if changed {
            0
        } else {
            p.since_ms
        },
    }
}

/// The failure count after one more failed read.
pub open spec fn bumped_failures(f: u8) -> u8 {
    if f == u8::MAX {
        f
    } else {
        (f + 1) as u8
    }
}

/// The pane after a failed viewport read (focus already accounted for): the third
/// consecutive failure makes it operationally unknown and due for a new baseline.
pub open spec fn after_read_failure(p: PaneView) -> PaneView {
    let f = bumped_failures(p.read_failures);
    if f >= 3 {
        let changed = p.state != AgentState::Unknown;
        PaneView {
            state: AgentState::Unknown,
            baseline_pending: true,
            completion_pending: false,
            read_failures: f,
            generation: if changed {
                sat_inc(p.generation)
            } else {
                p.generation
            },
            since_ms: if changed {
                0
            } else {
                p.since_ms
            },
        }
    } else {
        PaneView { completion_pending: false, read_failures: f, ..p }
    }
}


/// A pane the user is looking at, or one starting a new baseline, takes the observed
/// state as it is, and a finished pane the user looks at counts as acknowledged.
pub proof fn lemma_watched_pane_shows_observation(p: PaneView, o: Observation, focused: bool)
    requires
        focused || p.baseline_pending,
    ensures
        after_observation(focus_cleared(p, focused), o, focused).state == observed_state(o),
        focused && p.state == AgentState::Done ==> focus_cleared(p, focused).state == AgentState::Idle,
{
}

/// A settled pane that sees the agent blocked becomes `Blocked`, whatever state it was in
/// (a finished pane the user is looking at included), and the change is reported; unless
/// the user is looking at the pane, it asks for attention as blocked.
pub proof fn lemma_blocked_is_reported(p: PaneView, focused: bool)
    requires
        !p.baseline_pending,
        p.state != AgentState::Blocked,
    ensures
        ({
            let q = focus_cleared(p, focused);
            &&& after_observation(q, Observation::Blocked, focused).state == AgentState::Blocked
            &&& settled_state(q, Observation::Blocked, focused) != q.state
            &&& !focused ==> observation_attention(q, Observation::Blocked, focused) == Some(
                AttentionKind::Blocked,
            )
        }),
{
}

/// The first observation after a (re)baseline never asks for attention, whatever it sees.
pub proof fn lemma_baseline_observation_is_silent(p: PaneView, o: Observation, focused: bool)
    requires
        p.baseline_pending,
    ensures
        observation_attention(focus_cleared(p, focused), o, focused) is None,
{
}

/// An observation of the focused pane never asks for attention.
pub proof fn lemma_focused_observation_is_silent(p: PaneView, o: Observation)
    ensures
        observation_attention(focus_cleared(p, true), o, true) is None,
{
}

/// Attention is asked for exactly on entering the state it names: `Blocked` from any
/// other state, or `Done`, which is only entered from `Working` on an unfocused idle
/// observation while a completion was already pending.
pub proof fn lemma_attention_names_the_new_state(p: PaneView, o: Observation, focused: bool)
    requires
        pane_view_wf(p),
    ensures
        ({
            let q = focus_cleared(p, focused);
            let r = after_observation(q, o, focused);
            &&& observation_attention(q, o, focused) == Some(AttentionKind::Blocked) ==> r.state
                == AgentState::Blocked && q.state != AgentState::Blocked && !focused
            &&& observation_attention(q, o, focused) == Some(AttentionKind::Done) ==> r.state
                == AgentState::Done
            &&& (r.state == AgentState::Done && q.state != AgentState::Done) ==> (q.state
                == AgentState::Working && q.completion_pending && o == Observation::Idle
                && !focused)
            &&& (r.state == AgentState::Done && q.state != AgentState::Done) ==> observation_attention(q, o, focused)
                == Some(AttentionKind::Done)
        }),
{
}

/// A settled working pane needs two consecutive unfocused idle observations to finish:
/// the first is held back, the second derives `Done` and asks for attention.
pub proof fn lemma_two_unfocused_idles_finish(p: PaneView)
    requires
        pane_view_wf(p),
        p.state == AgentState::Working,
        !p.baseline_pending,
        !p.completion_pending,
    ensures
        ({
            let q1 = focus_cleared(p, false);
            let p1 = after_observation(q1, Observation::Idle, false);
            let q2 = focus_cleared(p1, false);
            let p2 = after_observation(q2, Observation::Idle, false);
            &&& p1.state == AgentState::Working
            &&& observation_attention(q1, Observation::Idle, false) is None
            &&& p2.state == AgentState::Done
            &&& observation_attention(q2, Observation::Idle, false) == Some(AttentionKind::Done)
        }),
{
}

/// A finished pane stays finished under unfocused idle or unknown observations.
pub proof fn lemma_done_is_sticky(p: PaneView, o: Observation)
    requires
        p.state == AgentState::Done,
        !p.baseline_pending,
        o == Observation::Idle || o == Observation::Unknown,
    ensures
        after_observation(focus_cleared(p, false), o, false).state == AgentState::Done,
{
}

/// Seeing the agent work always makes the pane `Working`.
pub proof fn lemma_working_supersedes(p: PaneView, focused: bool)
    ensures
        after_observation(focus_cleared(p, focused), Observation::Working, focused).state
            == AgentState::Working,
{
}

/// Generations never go back, and every real transition restarts the age of the state.
pub proof fn lemma_generation_monotone(p: PaneView, o: Observation, focused: bool)
    ensures
        ({
            let q = focus_cleared(p, focused);
            let r = after_observation(q, o, focused);
            let f = after_read_failure(q);
            &&& q.generation >= p.generation
            &&& r.generation >= q.generation
            &&& f.generation >= q.generation
            &&& r.state != q.state ==> r.since_ms == 0
            &&& r.state == q.state ==> r.generation == q.generation && r.since_ms == q.since_ms
            &&& (r.state != q.state && q.generation < u64::MAX) ==> r.generation == q.generation
                + 1
        }),
{
}

/// Three consecutive failed reads leave the pane operationally unknown and due for a
/// silent baseline, whatever it was and whatever the focus was.
pub proof fn lemma_three_failures_rebaseline(p: PaneView, f1: bool, f2: bool, f3: bool)
    ensures
        ({
            let p1 = after_read_failure(focus_cleared(p, f1));
            let p2 = after_read_failure(focus_cleared(p1, f2));
            let p3 = after_read_failure(focus_cleared(p2, f3));
            &&& p3.state == AgentState::Unknown
            &&& p3.baseline_pending
            &&& !p3.completion_pending
        }),
{
}

/// Every transition keeps the pane well formed.
pub proof fn lemma_transitions_keep_wf(p: PaneView, o: Observation, focused: bool)
    requires
        pane_view_wf(p),
    ensures
        pane_view_wf(focus_cleared(p, focused)),
        pane_view_wf(after_observation(focus_cleared(p, focused), o, focused)),
        pane_view_wf(after_read_failure(focus_cleared(p, focused))),
{
}

impl PaneState {
    #[verifier::type_invariant]
    closed spec fn inv(self) -> bool {
        pane_view_wf(self@)
    }

    /// A fresh pane: unknown, waiting for its baseline observation.
    pub fn new() -> (r: Self)
        ensures
            r@ == (PaneView {
                state: AgentState::Unknown,
                baseline_pending: true,
                completion_pending: false,
                read_failures: 0,
                generation: 0,
                since_ms: 0,
            }),
    {
        PaneState {
            state: AgentState::Unknown,
            baseline_pending: true,
            completion_pending: false,
            consecutive_read_failures: 0,
            transition_generation: 0,
            since_ms: 0,
        }
    }

    /// A pane that has already settled in `state`.
    pub fn baseline(state: AgentState) -> (r: Self)
        ensures
            r@ == (PaneView {
                state,
                baseline_pending: false,
                completion_pending: false,
                read_failures: 0,
                generation: 1,
                since_ms: 0,
            }),
    {
        PaneState {
            state,
            baseline_pending: false,
            completion_pending: false,
            consecutive_read_failures: 0,
            transition_generation: 1,
            since_ms: 0,
        }
    }

    pub fn state(&self) -> (r: AgentState)
        ensures
            r == self@.state,
    {
        self.state
    }

    pub fn baseline_pending(&self) -> (r: bool)
        ensures
            r == self@.baseline_pending,
    {
        self.baseline_pending
    }

    pub fn generation(&self) -> (r: u64)
        ensures
            r == self@.generation,
    {
        self.transition_generation
    }

    pub fn since_ms(&self) -> (r: u64)
        ensures
            r == self@.since_ms,
    {
        self.since_ms
    }

    /// Drops what the pane learned, so that its next observation is a silent baseline.
    pub fn set_baseline_pending(&mut self)
        ensures
            final(self)@ == (PaneView {
                baseline_pending: true,
                completion_pending: false,
                read_failures: 0,
                ..old(self)@
            }),
    {
        *self = PaneState {
            state: self.state,
            baseline_pending: true,
            completion_pending: false,
            consecutive_read_failures: 0,
            transition_generation: self.transition_generation,
            since_ms: self.since_ms,
        };
    }

    /// Ages the current state by `elapsed_ms`.
    pub fn advance(&mut self, elapsed_ms: u64)
        ensures
            final(self)@ == (PaneView {
                since_ms: sat_add(old(self)@.since_ms, elapsed_ms),
                ..old(self)@
            }),
    {
        proof {
            use_type_invariant(&*self);
        }
        *self = PaneState {
            state: self.state,
            baseline_pending: self.baseline_pending,
            completion_pending: self.completion_pending,
            consecutive_read_failures: self.consecutive_read_failures,
            transition_generation: self.transition_generation,
            since_ms: self.since_ms.saturating_add(elapsed_ms),
        };
    }

    /// Feeds one successful classification of the pane's viewport.
    pub fn observe(&mut self, observation: Observation, focused: bool) -> (change: StateChange)
        ensures
            ({
                let p = focus_cleared(old(self)@, focused);
                &&& final(self)@ == after_observation(p, observation, focused)
                &&& change.changed == (settled_state(p, observation, focused) != p.state)
                &&& change.generation == final(self)@.generation
                &&& change.attention == observation_attention(p, observation, focused)
            }),
    {
        self.clear_done_on_focus(focused);
        self.apply_observation(observation, focused)
    }

    /// Records a failed viewport read.
    pub fn read_failed(&mut self, focused: bool) -> (change: StateChange)
        ensures
            ({
                let p = focus_cleared(old(self)@, focused);
                &&& final(self)@ == after_read_failure(p)
                &&& change.changed == (bumped_failures(p.read_failures) >= 3 && p.state
                    != AgentState::Unknown)
                &&& change.generation == final(self)@.generation
                &&& change.attention is None
            }),
    {
        self.clear_done_on_focus(focused);
        proof {
            use_type_invariant(&*self);
        }
        let failures = self.consecutive_read_failures.saturating_add(1);
        if failures >= 3 {
            let previous = self.state;
            let changed = previous != AgentState::Unknown;
            let generation = if changed {
                self.transition_generation.saturating_add(1)
            } else {
                self.transition_generation
            };
            let since_ms = if changed {
                0
            } else {
                self.since_ms
            };
            *self = PaneState {
                state: AgentState::Unknown,
                baseline_pending: true,
                completion_pending: false,
                consecutive_read_failures: failures,
                transition_generation: generation,
                since_ms,
            };
            return StateChange { changed, generation, attention: None };
        }
        *self = PaneState {
            state: self.state,
            baseline_pending: self.baseline_pending,
            completion_pending: false,
            consecutive_read_failures: failures,
            transition_generation: self.transition_generation,
            since_ms: self.since_ms,
        };
        StateChange { changed: false, generation: self.transition_generation, attention: None }
    }

    fn clear_done_on_focus(&mut self, focused: bool)
        ensures
            final(self)@ == focus_cleared(old(self)@, focused),
    {
        if focused && self.state == AgentState::Done {
            *self = PaneState {
                state: AgentState::Idle,
                baseline_pending: self.baseline_pending,
                completion_pending: false,
                consecutive_read_failures: self.consecutive_read_failures,
                transition_generation: self.transition_generation.saturating_add(1),
                since_ms: 0,
            };
        }
    }

    fn apply_observation(&mut self, observation: Observation, focused: bool) -> (change:
        StateChange)
        ensures
            ({
                let p = old(self)@;
                &&& final(self)@ == after_observation(p, observation, focused)
                &&& change.changed == (settled_state(p, observation, focused) != p.state)
                &&& change.generation == final(self)@.generation
                &&& change.attention == observation_attention(p, observation, focused)
            }),
    {
        proof {
            use_type_invariant(&*self);
        }
        if self.baseline_pending {
            let next = AgentState::from(observation);
            let pending = false;
            if next != self.state {
                return self.record_change_to(next, pending, None);
            }
            return self.settle(pending);
        }
        match (self.state, observation) {
            (AgentState::Unknown, Observation::Unknown) => self.settle(false),
            (AgentState::Unknown, Observation::Idle) => {
                self.record_change_to(AgentState::Idle, false, None)
            },
            (AgentState::Unknown, Observation::Working) => {
                self.record_change_to(AgentState::Working, false, None)
            },
            (AgentState::Unknown, Observation::Blocked) => self.attention_blocked(focused),
            (AgentState::Idle, Observation::Working) => {
                self.record_change_to(AgentState::Working, false, None)
            },
            (AgentState::Idle, Observation::Blocked) => self.attention_blocked(focused),
            (AgentState::Idle, Observation::Idle) => self.settle(false),
            (AgentState::Idle, Observation::Unknown) => {
                self.record_change_to(AgentState::Unknown, false, None)
            },
            (AgentState::Working, Observation::Working) => self.settle(false),
            (AgentState::Working, Observation::Idle) => {
                if focused {
                    self.record_change_to(AgentState::Idle, false, None)
                } else if !self.completion_pending {
                    self.settle(true)
                } else {
                    self.record_change_to(AgentState::Done, false, Some(AttentionKind::Done))
                }
            },
            (AgentState::Working, Observation::Blocked) => self.attention_blocked(focused),
            (AgentState::Working, Observation::Unknown) => {
                self.record_change_to(AgentState::Unknown, false, None)
            },
            (AgentState::Blocked, Observation::Working) => {
                self.record_change_to(AgentState::Working, false, None)
            },
            (AgentState::Blocked, Observation::Idle) => {
                self.record_change_to(AgentState::Idle, false, None)
            },
            (AgentState::Blocked, Observation::Blocked) => self.settle(false),
            (AgentState::Blocked, Observation::Unknown) => {
                self.record_change_to(AgentState::Unknown, false, None)
            },
            (AgentState::Done, Observation::Working) => {
                self.record_change_to(AgentState::Working, false, None)
            },
            (AgentState::Done, Observation::Blocked) => self.attention_blocked(focused),
            (AgentState::Done, _) => {
                if !focused {
                    self.settle(false)
                } else {
                    self.record_change_to(AgentState::from(observation), false, None)
                }
            },
        }
    }

    fn attention_blocked(&mut self, focused: bool) -> (change: StateChange)
        requires
            !old(self)@.baseline_pending,
        ensures
            ({
                let p = old(self)@;
                let changed = p.state != AgentState::Blocked;
                &&& final(self)@ == (PaneView {
                    state: AgentState::Blocked,
                    baseline_pending: false,
                    completion_pending: false,
                    read_failures: 0,
                    generation: if changed {
                        sat_inc(p.generation)
                    } else {
                        p.generation
                    },
                    since_ms: if changed {
                        0
                    } else {
                        p.since_ms
                    },
                })
                &&& change.changed == changed
                &&& change.generation == final(self)@.generation
                &&& change.attention == (if changed && !focused {
                    Some(AttentionKind::Blocked)
                } else {
                    None
                })
            }),
    {
        let attention = if focused {
            None
        } else {
            Some(AttentionKind::Blocked)
        };
        if self.state != AgentState::Blocked {
            self.record_change_to(AgentState::Blocked, false, attention)
        } else {
            self.settle(false)
        }
    }

    /// Keeps the state, leaving the pane baselined with the given completion flag.
    fn settle(&mut self, completion_pending: bool) -> (change: StateChange)
        requires
            completion_pending ==> old(self)@.state == AgentState::Working,
        ensures
            final(self)@ == (PaneView {
                baseline_pending: false,
                completion_pending,
                read_failures: 0,
                ..old(self)@
            }),
            change == (StateChange {
                changed: false,
                generation: old(self)@.generation,
                attention: None,
            }),
    {
        *self = PaneState {
            state: self.state,
            baseline_pending: false,
            completion_pending,
            consecutive_read_failures: 0,
            transition_generation: self.transition_generation,
            since_ms: self.since_ms,
        };
        StateChange { changed: false, generation: self.transition_generation, attention: None }
    }

    fn record_change_to(
        &mut self,
        next: AgentState,
        completion_pending: bool,
        attention: Option<AttentionKind>,
    ) -> (change: StateChange)
        requires
            completion_pending ==> next == AgentState::Working,
        ensures
            final(self)@ == (PaneView {
                state: next,
                baseline_pending: false,
                completion_pending,
                read_failures: 0,
                generation: sat_inc(old(self)@.generation),
                since_ms: 0,
            }),
            change == (StateChange {
                changed: true,
                generation: sat_inc(old(self)@.generation),
                attention,
            }),
    {
        let generation = self.transition_generation.saturating_add(1);
        *self = PaneState {
            state: next,
            baseline_pending: false,
            completion_pending,
            consecutive_read_failures: 0,
            transition_generation: generation,
            since_ms: 0,
        };
        StateChange { changed: true, generation, attention }
    }
}

impl Clone for PaneState {
    fn clone(&self) -> (r: Self)
        ensures
            r@ == self@,
    {
        proof {
            use_type_invariant(self);
        }
        PaneState {
            state: self.state,
            baseline_pending: self.baseline_pending,
            completion_pending: self.completion_pending,
            consecutive_read_failures: self.consecutive_read_failures,
            transition_generation: self.transition_generation,
            since_ms: self.since_ms,
        }
    }
}

impl Default for PaneState {
    fn default() -> (r: Self)
        ensures
            r@ == (PaneView {
                state: AgentState::Unknown,
                baseline_pending: true,
                completion_pending: false,
                read_failures: 0,
                generation: 0,
                since_ms: 0,
            }),
    {
        PaneState::new()
    }
}

} // verus!
