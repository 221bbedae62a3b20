use vstd::prelude::*;

use crate::model::{state_glyph, state_name, AgentState};
use crate::protocol::{agent_view, tab_view, AgentSnapshot, AgentSnapshotView, Snapshot, TabSnapshot};
use crate::text::{decimal, push_decimal};

verus! {

/// One line of the sidebar's list.
#[derive(Clone, Debug, PartialEq, Eq)]
pub enum Row {
    Section(&'static str),
    Tab { position: usize, name: String },
    Agent(AgentRow),
}

#[derive(Clone, Debug, PartialEq, Eq)]
pub struct AgentRow {
    pub pane_id: u32,
    pub tab_position: usize,
    pub tab_name: String,
    pub agent: String,
    pub agent_label: String,
    pub display: String,
    pub state: AgentState,
    pub since_ms: u64,
    pub fallback_used: bool,
    pub in_attention: bool,
}

/// An agent row as plain values.
pub struct AgentRowView {
    pub pane_id: u32,
    pub tab_position: usize,
    pub tab_name: Seq<char>,
    pub agent: Seq<char>,
    pub agent_label: Seq<char>,
    pub display: Seq<char>,
    pub state: AgentState,
    pub since_ms: u64,
    pub fallback_used: bool,
    pub in_attention: bool,
}

pub open spec fn agent_row_view(r: AgentRow) -> AgentRowView {
    AgentRowView {
        pane_id: r.pane_id,
        tab_position: r.tab_position,
        tab_name: r.tab_name@,
        agent: r.agent@,
        agent_label: r.agent_label@,
        display: r.display@,
        state: r.state,
        since_ms: r.since_ms,
        fallback_used: r.fallback_used,
        in_attention: r.in_attention,
    }
}

/// A row as plain values.
pub enum RowView {
    Section(Seq<char>),
    Tab(usize, Seq<char>),
    Agent(AgentRowView),
}

pub open spec fn row_view(r: Row) -> RowView {
    match r {
        Row::Section(s) => RowView::Section(s@),
        Row::Tab { position, name } => RowView::Tab(position, name@),
        Row::Agent(a) => RowView::Agent(agent_row_view(a)),
    }
}

pub open spec fn rows_view(rows: Seq<Row>) -> Seq<RowView> {
    rows.map_values(|r: Row| row_view(r))
}

/// `m` minutes and `s` seconds: `"<m>m<ss>s"`, or just `"<s>s"` under a minute.
pub open spec fn duration_text(ms: u64) -> Seq<char> {
    let total = ms / 1000;
    let mins = total / 60;
    let secs = total % 60;
    if mins > 0 {
        decimal(mins as nat) + "m"@ + (if secs < 10 {
            "0"@
        } else {
            Seq::empty()
        }) + decimal(secs as nat) + "s"@
    } else {
        decimal(secs as nat) + "s"@
    }
}

pub fn format_duration(ms: u64) -> (r: String)
    ensures
        r@ == duration_text(ms),
{
    let total = ms / 1000;
    let mins = total / 60;
    let secs = total % 60;
    let mut s = String::new();
    if mins > 0 {
        push_decimal(&mut s, mins);
        s.append("m");
        if secs < 10 {
            s.append("0");
        }
        push_decimal(&mut s, secs);
        s.append("s");
    } else {
        push_decimal(&mut s, secs);
        s.append("s");
    }
    proof {
        assert(s@ =~= duration_text(ms));
    }
    s
}

/// The text of an agent line: glyph, state, display name, agent label and age.
pub open spec fn agent_line(r: AgentRowView) -> Seq<char> {
    state_glyph(r.state) + " "@ + state_name(r.state) + "  "@ + r.display + "  "@ + r.agent_label
        + "  "@ + duration_text(r.since_ms)
}

impl AgentRow {
    pub fn pane_id(&self) -> (r: u32)
        ensures
            r == self.pane_id,
    {
        self.pane_id
    }

    pub fn line_text(&self) -> (r: String)
        ensures
            r@ == agent_line(agent_row_view(*self)),
    {
        let mut s = String::new();
        s.append(self.state.glyph());
        s.append(" ");
        s.append(self.state.as_str());
        s.append("  ");
        s.append(self.display.as_str());
        s.append("  ");
        s.append(self.agent_label.as_str());
        s.append("  ");
        let d = format_duration(self.since_ms);
        s.append(d.as_str());
        proof {
            assert(s@ =~= agent_line(agent_row_view(*self)));
        }
        s
    }
}

// ---------------------------------------------------------------------------
// Selection
// ---------------------------------------------------------------------------

/// The sidebar's selected pane, if any.
#[derive(Clone, Debug)]
pub struct Selection {
    pane_id: Option<u32>,
}

/// The first position of `x` in `s`, or `s.len()`.
pub open spec fn position_of(s: Seq<u32>, x: u32) -> int
    decreases s.len(),
{
    if s.len() == 0 {
        0
    } else if s[0] == x {
        0
    } else {
        1 + position_of(s.drop_first(), x)
    }
}

proof fn lemma_position_of(s: Seq<u32>, x: u32)
    ensures
        0 <= position_of(s, x) <= s.len(),
        position_of(s, x) < s.len() <==> s.contains(x),
        position_of(s, x) < s.len() ==> s[position_of(s, x)] == x,
        forall|j: int| 0 <= j < position_of(s, x) ==> s[j] != x,
    decreases s.len(),
{
    if s.len() > 0 {
        lemma_position_of(s.drop_first(), x);
        if s[0] != x {
            assert forall|j: int| 0 <= j < position_of(s, x) implies s[j] != x by {
                if j > 0 {
                    assert(s[j] == s.drop_first()[j - 1]);
                }
            }
            if s.contains(x) {
                let k = choose|k: int| 0 <= k < s.len() && s[k] == x;
                assert(s.drop_first()[k - 1] == x);
            }
            if s.drop_first().contains(x) {
                let k = choose|k: int| 0 <= k < s.drop_first().len() && s.drop_first()[k] == x;
                assert(s[k + 1] == x);
            }
        } else {
            assert(s.contains(s[0]));
        }
    }
}

fn find(s: &[u32], x: u32) -> (r: Option<usize>)
    ensures
        match r {
            Some(i) => i == position_of(s@, x) && i < s@.len() && s@.contains(x) && s@[i as int]
                == x,
            None => !s@.contains(x) && position_of(s@, x) == s@.len(),
        },
{
    proof {
        lemma_position_of(s@, x);
    }
    let n = s.len();
    for i in 0..n
        invariant
            n == s@.len(),
            0 <= position_of(s@, x) <= s@.len(),
            position_of(s@, x) < s@.len() ==> s@[position_of(s@, x)] == x,
            forall|j: int| 0 <= j < position_of(s@, x) ==> s@[j] != x,
            position_of(s@, x) < s@.len() <==> s@.contains(x),
            forall|j: int| 0 <= j < i ==> s@[j] != x,
    {
        if s[i] == x {
            return Some(i);
        }
    }
    None
}

/// Where the selection goes when the list changes from `old_ids` to `new_ids`: it stays
/// on a pane still listed; a pane that left hands it to the pane now nearest its old
/// position; otherwise it goes to the first pane; nothing to select clears it.
pub open spec fn reconciled(current: Option<u32>, old_ids: Seq<u32>, new_ids: Seq<u32>) -> Option<
    u32,
> {
    if new_ids.len() == 0 {
        None
    } else {
        match current {
            Some(c) => if new_ids.contains(c) {
                Some(c)
            } else if old_ids.contains(c) {
                let i = position_of(old_ids, c);
                Some(
                    new_ids[if i < new_ids.len() - 1 {
                        i
                    } else {
                        new_ids.len() - 1
                    }],
                )
            } else {
                Some(new_ids[0])
            },
            None => Some(new_ids[0]),
        }
    }
}

/// The pane before the selected one, wrapping to the last.
pub open spec fn previous_of(current: Option<u32>, ids: Seq<u32>) -> Option<u32> {
    if ids.len() == 0 {
        None
    } else {
        let i = match current {
            Some(c) => if ids.contains(c) {
                position_of(ids, c)
            } else {
                0
            },
            None => 0,
        };
        Some(
            ids[if i == 0 {
                ids.len() - 1
            } else {
                i - 1
            }],
        )
    }
}

/// The pane after the selected one, wrapping to the first.
pub open spec fn next_of(current: Option<u32>, ids: Seq<u32>) -> Option<u32> {
    if ids.len() == 0 {
        None
    } else {
        match current {
            Some(c) => if ids.contains(c) && position_of(ids, c) + 1 < ids.len() {
                Some(ids[position_of(ids, c) + 1])
            } else {
                Some(ids[0])
            },
            None => Some(ids[0]),
        }
    }
}

impl Selection {
    pub fn new() -> (r: Self)
        ensures
            r.pane_id() is None,
    {
        Selection { pane_id: None }
    }

    pub closed spec fn spec_pane_id(&self) -> Option<u32> {
        self.pane_id
    }

    #[verifier::when_used_as_spec(spec_pane_id)]
    pub fn pane_id(&self) -> (r: Option<u32>)
        ensures
            r == self.spec_pane_id(),
    {
        self.pane_id
    }

    pub fn set(&mut self, pane_id: Option<u32>)
        ensures
            final(self).pane_id() == pane_id,
    {
        self.pane_id = pane_id;
    }

    pub fn reconcile(&mut self, old_ids: &[u32], new_ids: &[u32])
        ensures
            final(self).pane_id() == reconciled(old(self).pane_id(), old_ids@, new_ids@),
    {
        if new_ids.len() == 0 {
            self.pane_id = None;
            return;
        }
        if let Some(current) = self.pane_id {
            if let Some(_) = find(new_ids, current) {
                return;
            }
            if let Some(old_idx) = find(old_ids, current) {
                let last = new_ids.len() - 1;
                let nearest = if old_idx < last {
                    old_idx
                } else {
                    last
                };
                self.pane_id = Some(new_ids[nearest]);
                return;
            }
        }
        self.pane_id = Some(new_ids[0]);
    }

    pub fn previous(&mut self, selectable: &[u32])
        ensures
            final(self).pane_id() == previous_of(old(self).pane_id(), selectable@),
    {
        if selectable.len() == 0 {
            self.pane_id = None;
            return;
        }
        let idx = match self.pane_id {
            Some(id) => match find(selectable, id) {
                Some(i) => i,
                None => 0,
            },
            None => 0,
        };
        let next = if idx == 0 {
            selectable.len() - 1
        } else {
            idx - 1
        };
        self.pane_id = Some(selectable[next]);
    }

    pub fn next(&mut self, selectable: &[u32])
        ensures
            final(self).pane_id() == next_of(old(self).pane_id(), selectable@),
    {
        if selectable.len() == 0 {
            self.pane_id = None;
            return;
        }
        let next = match self.pane_id {
            Some(id) => match find(selectable, id) {
                Some(i) => if i + 1 < selectable.len() {
                    i + 1
                } else {
                    0
                },
                None => 0,
            },
            None => 0,
        };
        self.pane_id = Some(selectable[next]);
    }
}

impl Default for Selection {
    fn default() -> (r: Self)
        ensures
            r.pane_id() is None,
    {
        Selection::new()
    }
}

/// Where the selection goes when the list changes: nothing listed clears it; a pane
/// still listed keeps it; a selected pane that left, found first at position `i` of the
/// old list, hands it to the pane at position `i` of the new list, or to the last pane
/// where the new list is shorter.
pub proof fn lemma_reconcile_nearest(c: u32, old_ids: Seq<u32>, new_ids: Seq<u32>, i: int)
    requires
        0 <= i < old_ids.len(),
        old_ids[i] == c,
        forall|j: int| 0 <= j < i ==> old_ids[j] != c,
    ensures
        new_ids.len() == 0 ==> reconciled(Some(c), old_ids, new_ids) is None,
        new_ids.contains(c) ==> reconciled(Some(c), old_ids, new_ids) == Some(c),
        new_ids.len() > 0 && !new_ids.contains(c) ==> reconciled(Some(c), old_ids, new_ids) == Some(
            new_ids[if i <= new_ids.len() - 1 {
                i
            } else {
                new_ids.len() - 1
            }],
        ),
{
    lemma_position_of(old_ids, c);
    assert(old_ids.contains(c));
    let k = position_of(old_ids, c);
    if k < i {
        assert(old_ids[k] != c);
    }
    if k > i {
        assert(old_ids[i] != c);
    }
}

/// Moving the selection: from the pane found first at position `i` of the list, Down
/// selects the pane at `i + 1`, wrapping to the first, and Up the pane at `i - 1`,
/// wrapping to the last.
pub proof fn lemma_moves_step(ids: Seq<u32>, i: int)
    requires
        0 <= i < ids.len(),
        forall|j: int| 0 <= j < i ==> ids[j] != ids[i],
    ensures
        next_of(Some(ids[i]), ids) == Some(ids[(i + 1) % (ids.len() as int)]),
        previous_of(Some(ids[i]), ids) == Some(ids[(i + ids.len() - 1) % (ids.len() as int)]),
{
    let n = ids.len() as int;
    lemma_position_of(ids, ids[i]);
    assert(ids.contains(ids[i]));
    let k = position_of(ids, ids[i]);
    if k < i {
        assert(ids[k] != ids[i]);
    }
    if k > i {
        assert(ids[i] != ids[i]);
    }
    assert(k == i);
    if i + 1 < n {
        vstd::arithmetic::div_mod::lemma_small_mod((i + 1) as nat, n as nat);
    } else {
        vstd::arithmetic::div_mod::lemma_mod_self_0(n);
    }
    if i == 0 {
        vstd::arithmetic::div_mod::lemma_small_mod((n - 1) as nat, n as nat);
    } else {
        vstd::arithmetic::div_mod::lemma_mod_multiples_vanish(1, i - 1, n);
        vstd::arithmetic::div_mod::lemma_small_mod((i - 1) as nat, n as nat);
        assert(i + n - 1 == n * 1 + (i - 1));
    }
}

/// After a list change, the selection is cleared exactly when nothing is selectable, and
/// otherwise names a listed pane.
pub proof fn lemma_reconciled_is_listed(current: Option<u32>, old_ids: Seq<u32>, new_ids: Seq<u32>)
    ensures
        reconciled(current, old_ids, new_ids) is None <==> new_ids.len() == 0,
        reconciled(current, old_ids, new_ids) matches Some(id) ==> new_ids.contains(id),
{
    if let Some(c) = current {
        lemma_position_of(old_ids, c);
    }
    if new_ids.len() > 0 {
        assert(new_ids.contains(new_ids[0]));
        if let Some(c) = current {
            if !new_ids.contains(c) && old_ids.contains(c) {
                let i = position_of(old_ids, c);
                let j = if i < new_ids.len() - 1 {
                    i
                } else {
                    new_ids.len() - 1
                };
                assert(new_ids.contains(new_ids[j]));
            }
        }
    }
}

/// Moving down then up through a list without repeats returns to the selected pane.
pub proof fn lemma_next_then_previous(current: u32, ids: Seq<u32>)
    requires
        ids.contains(current),
        ids.no_duplicates(),
    ensures
        previous_of(next_of(Some(current), ids), ids) == Some(current),
        next_of(previous_of(Some(current), ids), ids) == Some(current),
{
    lemma_position_of(ids, current);
    let i = position_of(ids, current);
    let n = ids.len();
    let nx = if i + 1 < n {
        i + 1
    } else {
        0
    };
    lemma_position_of(ids, ids[nx]);
    assert(ids.contains(ids[nx]));
    assert(position_of(ids, ids[nx]) == nx) by {
        if position_of(ids, ids[nx]) != nx {
            assert(ids[position_of(ids, ids[nx])] == ids[nx]);
        }
    }
    let pv = if i == 0 {
        n - 1
    } else {
        i - 1
    };
    lemma_position_of(ids, ids[pv]);
    assert(ids.contains(ids[pv]));
    assert(position_of(ids, ids[pv]) == pv) by {
        if position_of(ids, ids[pv]) != pv {
            assert(ids[position_of(ids, ids[pv])] == ids[pv]);
        }
    }
}

/// Moving through a non-empty list always selects a listed pane.
pub proof fn lemma_moves_stay_listed(current: Option<u32>, ids: Seq<u32>)
    requires
        ids.len() > 0,
    ensures
        previous_of(current, ids) matches Some(id) && ids.contains(id),
        next_of(current, ids) matches Some(id) && ids.contains(id),
{
    if let Some(c) = current {
        lemma_position_of(ids, c);
    }
    let p = previous_of(current, ids)->0;
    let q = next_of(current, ids)->0;
    assert(exists|k: int| 0 <= k < ids.len() && ids[k] == p);
    assert(exists|k: int| 0 <= k < ids.len() && ids[k] == q);
}

// ---------------------------------------------------------------------------
// Building the rows of a snapshot
// ---------------------------------------------------------------------------

/// The name a snapshot gives the tab at `pos` (its last listing wins), or nothing.
pub open spec fn tab_name_for(tabs: Seq<(usize, Seq<char>)>, pos: usize) -> Seq<char>
    decreases tabs.len(),
{
    if tabs.len() == 0 {
        Seq::empty()
    } else if tabs.last().0 == pos {
        tabs.last().1
    } else {
        tab_name_for(tabs.drop_last(), pos)
    }
}

/// States that put a pane in the attention section.
pub open spec fn needs_attention(s: AgentState) -> bool {
    s == AgentState::Blocked || s == AgentState::Done
}

pub open spec fn attention_rank(s: AgentState) -> int {
    match s {
        AgentState::Blocked => 0,
        AgentState::Done => 1,
        _ => 2,
    }
}

/// The row shown for an agent.
pub open spec fn row_of(a: AgentSnapshotView, tabs: Seq<(usize, Seq<char>)>) -> AgentRowView {
    AgentRowView {
        pane_id: a.pane_id,
        tab_position: a.tab_position,
        tab_name: tab_name_for(tabs, a.tab_position),
        agent: a.agent,
        agent_label: a.agent_label,
        display: a.display,
        state: a.state,
        since_ms: a.since_ms,
        fallback_used: a.fallback_used,
        in_attention: needs_attention(a.state),
    }
}

/// The rows of the agents whose attention flag is `attention`, in snapshot order.
pub open spec fn rows_where(
    agents: Seq<AgentSnapshotView>,
    tabs: Seq<(usize, Seq<char>)>,
    attention: bool,
) -> Seq<AgentRowView>
    decreases agents.len(),
{
    if agents.len() == 0 {
        Seq::empty()
    } else if needs_attention(agents.last().state) == attention {
        rows_where(agents.drop_last(), tabs, attention).push(row_of(agents.last(), tabs))
    } else {
        rows_where(agents.drop_last(), tabs, attention)
    }
}

/// The ordering key of a row: attention rows by state (blocked first), then tab, then
/// pane; the others by tab, then pane. (Tab names follow tab positions within one
/// snapshot, so they never decide between two rows.)
pub open spec fn row_key(r: AgentRowView) -> (int, int, int) {
    (
        if r.in_attention {
            attention_rank(r.state)
        } else {
            0
        },
        r.tab_position as int,
        r.pane_id as int,
    )
}

pub open spec fn key_le(a: (int, int, int), b: (int, int, int)) -> bool {
    a.0 < b.0 || (a.0 == b.0 && (a.1 < b.1 || (a.1 == b.1 && a.2 <= b.2)))
}

pub open spec fn sorted_by_key(s: Seq<AgentRowView>) -> bool {
    forall|i: int, j: int| 0 <= i < j < s.len() ==> key_le(row_key(s[i]), row_key(s[j]))
}

/// `x` placed after every row whose key is not greater than its own.
pub open spec fn insert_by_key(s: Seq<AgentRowView>, x: AgentRowView) -> Seq<AgentRowView> {
    let k = s.filter(|e: AgentRowView| key_le(row_key(e), row_key(x))).len();
    s.take(k as int).push(x) + s.skip(k as int)
}

/// The stable sort of `s` by row key.
pub open spec fn sort_by_key(s: Seq<AgentRowView>) -> Seq<AgentRowView>
    decreases s.len(),
{
    if s.len() == 0 {
        s
    } else {
        insert_by_key(sort_by_key(s.drop_last()), s.last())
    }
}

/// Agent rows under a tab header wherever the tab changes.
pub open spec fn grouped(s: Seq<AgentRowView>) -> Seq<RowView>
    decreases s.len(),
{
    if s.len() == 0 {
        Seq::empty()
    } else {
        let prev = s.drop_last();
        let x = s.last();
        let head = if prev.len() == 0 || prev.last().tab_position != x.tab_position
            || prev.last().tab_name != x.tab_name {
            seq![RowView::Tab(x.tab_position, x.tab_name)]
        } else {
            Seq::empty()
        };
        grouped(prev) + head + seq![RowView::Agent(x)]
    }
}

/// The sidebar list of a snapshot: an attention section with blocked, then finished
/// agents, followed by the remaining agents grouped by tab.
pub open spec fn built_rows(agents: Seq<AgentSnapshotView>, tabs: Seq<(usize, Seq<char>)>) -> Seq<
    RowView,
> {
    let attention = sort_by_key(rows_where(agents, tabs, true));
    let rest = sort_by_key(rows_where(agents, tabs, false));
    (if attention.len() > 0 {
        seq![RowView::Section("Attention"@)] + attention.map_values(|r: AgentRowView| RowView::Agent(r))
    } else {
        Seq::empty()
    }) + grouped(rest)
}

/// The panes of the agent rows, in order.
pub open spec fn selectable_ids(rows: Seq<RowView>) -> Seq<u32>
    decreases rows.len(),
{
    if rows.len() == 0 {
        Seq::empty()
    } else {
        let prev = selectable_ids(rows.drop_last());
        match rows.last() {
            RowView::Agent(a) => prev.push(a.pane_id),
            _ => prev,
        }
    }
}

proof fn lemma_key_le_total(a: (int, int, int), b: (int, int, int), c: (int, int, int))
    ensures
        key_le(a, a),
        key_le(a, b) || key_le(b, a),
        key_le(a, b) && key_le(b, c) ==> key_le(a, c),
        key_le(a, b) && !key_le(c, b) ==> !key_le(c, a),
{
}

proof fn lemma_filter_all_rows(s: Seq<AgentRowView>, f: spec_fn(AgentRowView) -> bool)
    requires
        forall|i: int| 0 <= i < s.len() ==> f(s[i]),
    ensures
        s.filter(f) == s,
    decreases s.len(),
{
    reveal(Seq::filter);
    if s.len() > 0 {
        lemma_filter_all_rows(s.drop_last(), f);
        assert(s.drop_last().push(s.last()) =~= s);
    }
}

proof fn lemma_filter_no_rows(s: Seq<AgentRowView>, f: spec_fn(AgentRowView) -> bool)
    requires
        forall|i: int| 0 <= i < s.len() ==> !f(s[i]),
    ensures
        s.filter(f).len() == 0,
    decreases s.len(),
{
    reveal(Seq::filter);
    if s.len() > 0 {
        lemma_filter_no_rows(s.drop_last(), f);
    }
}

/// Inserting at the first greater key: where it goes, and that order is kept.
proof fn lemma_insert_by_key(s: Seq<AgentRowView>, x: AgentRowView, k: int)
    requires
        sorted_by_key(s),
        0 <= k <= s.len(),
        forall|j: int| 0 <= j < k ==> key_le(row_key(#[trigger] s[j]), row_key(x)),
        k < s.len() ==> !key_le(row_key(s[k]), row_key(x)),
    ensures
        insert_by_key(s, x) == s.take(k).push(x) + s.skip(k),
        sorted_by_key(insert_by_key(s, x)),
{
    let f = |e: AgentRowView| key_le(row_key(e), row_key(x));
    assert forall|j: int| k <= j < s.len() implies !key_le(row_key(#[trigger] s[j]), row_key(x)) by {
        if j > k {
            lemma_key_le_total(row_key(s[k]), row_key(s[j]), row_key(x));
        }
    }
    assert(s =~= s.take(k) + s.skip(k));
    lemma_filter_all_rows(s.take(k), f);
    lemma_filter_no_rows(s.skip(k), f);
    Seq::filter_distributes_over_add(s.take(k), s.skip(k), f);
    lemma_insert_keeps_order(s, x, k);
}

proof fn lemma_insert_keeps_order(s: Seq<AgentRowView>, x: AgentRowView, k: int)
    requires
        sorted_by_key(s),
        0 <= k <= s.len(),
        forall|j: int| 0 <= j < k ==> key_le(row_key(#[trigger] s[j]), row_key(x)),
        forall|j: int| k <= j < s.len() ==> !key_le(row_key(#[trigger] s[j]), row_key(x)),
    ensures
        sorted_by_key(s.take(k).push(x) + s.skip(k)),
{
    let u = s.take(k).push(x) + s.skip(k);
    assert forall|j: int| 0 <= j < u.len() implies #[trigger] u[j] == if j < k {
        s[j]
    } else if j == k {
        x
    } else {
        s[j - 1]
    } by {
        if j > k {
            assert(u[j] == s.skip(k)[j - k - 1]);
        }
    }
    assert forall|i: int, j: int| 0 <= i < j < u.len() implies key_le(
        row_key(#[trigger] u[i]),
        row_key(#[trigger] u[j]),
    ) by {
        let a = u[i];
        let b = u[j];
        if j < k {
        } else if j == k {
        } else if i < k {
            lemma_key_le_total(row_key(s[j - 1]), row_key(x), row_key(s[i]));
            lemma_key_le_total(row_key(s[i]), row_key(x), row_key(s[j - 1]));
        } else if i == k {
            lemma_key_le_total(row_key(s[j - 1]), row_key(x), row_key(x));
        } else {
        }
    }
}

/// Sorting orders the rows by key and keeps every row.
pub proof fn lemma_sort_by_key(s: Seq<AgentRowView>)
    ensures
        sorted_by_key(sort_by_key(s)),
        sort_by_key(s).to_multiset() == s.to_multiset(),
        sort_by_key(s).len() == s.len(),
    decreases s.len(),
{
    if s.len() > 0 {
        let t = sort_by_key(s.drop_last());
        let x = s.last();
        lemma_sort_by_key(s.drop_last());
        // the first position with a greater key
        let k = choose_first_greater(t, x);
        lemma_first_greater(t, x, 0);
        lemma_insert_by_key(t, x, k);
        let u = t.take(k).push(x) + t.skip(k);
        vstd::seq_lib::lemma_multiset_commutative(t.take(k).push(x), t.skip(k));
        vstd::seq_lib::lemma_multiset_commutative(t.take(k), t.skip(k));
        assert(t =~= t.take(k) + t.skip(k));
        t.take(k).to_multiset_ensures();
        t.take(k).push(x).to_multiset_ensures();
        s.drop_last().to_multiset_ensures();
        assert(s =~= s.drop_last().push(x));
        s.drop_last().push(x).to_multiset_ensures();
        assert(u.to_multiset() =~= t.to_multiset().insert(x));
    }
}

spec fn choose_first_greater(t: Seq<AgentRowView>, x: AgentRowView) -> int {
    first_greater(t, x, 0)
}

spec fn first_greater(t: Seq<AgentRowView>, x: AgentRowView, i: int) -> int
    decreases t.len() - i,
{
    if i >= t.len() {
        t.len() as int
    } else if !key_le(row_key(t[i]), row_key(x)) {
        i
    } else {
        first_greater(t, x, i + 1)
    }
}

proof fn lemma_first_greater(t: Seq<AgentRowView>, x: AgentRowView, i: int)
    requires
        0 <= i <= t.len(),
        forall|j: int| 0 <= j < i ==> key_le(row_key(#[trigger] t[j]), row_key(x)),
    ensures
        i <= first_greater(t, x, i) <= t.len(),
        forall|j: int|
            0 <= j < first_greater(t, x, i) ==> key_le(row_key(#[trigger] t[j]), row_key(x)),
        first_greater(t, x, i) < t.len() ==> !key_le(row_key(t[first_greater(t, x, i)]), row_key(x)),
    decreases t.len() - i,
{
    if i < t.len() && key_le(row_key(t[i]), row_key(x)) {
        lemma_first_greater(t, x, i + 1);
    }
}

pub open spec fn tabs_view(tabs: Seq<TabSnapshot>) -> Seq<(usize, Seq<char>)> {
    tabs.map_values(|t: TabSnapshot| tab_view(t))
}

pub open spec fn agents_view(agents: Seq<AgentSnapshot>) -> Seq<AgentSnapshotView> {
    agents.map_values(|a: AgentSnapshot| agent_view(a))
}

pub open spec fn row_views(rows: Seq<AgentRow>) -> Seq<AgentRowView> {
    rows.map_values(|r: AgentRow| agent_row_view(r))
}

fn tab_name_lookup(tabs: &Vec<TabSnapshot>, pos: usize) -> (r: String)
    ensures
        r@ == tab_name_for(tabs_view(tabs@), pos),
{
    let ghost tv = tabs_view(tabs@);
    let n = tabs.len();
    let mut i = n;
    assert(tv.take(n as int) =~= tv);
    while i > 0
        invariant
            i <= n,
            n == tabs@.len(),
            tv == tabs_view(tabs@),
            tab_name_for(tv, pos) == tab_name_for(tv.take(i as int), pos),
        decreases i,
    {
        assert(tv.take(i as int).drop_last() =~= tv.take(i - 1));
        assert(tv.take(i as int).last() == tab_view(tabs@[i - 1]));
        if tabs[i - 1].position == pos {
            return tabs[i - 1].name.clone();
        }
        i = i - 1;
    }
    String::new()
}

fn copy_row(r: &AgentRow) -> (c: AgentRow)
    ensures
        agent_row_view(c) == agent_row_view(*r),
{
    AgentRow {
        pane_id: r.pane_id,
        tab_position: r.tab_position,
        tab_name: r.tab_name.clone(),
        agent: r.agent.clone(),
        agent_label: r.agent_label.clone(),
        display: r.display.clone(),
        state: r.state,
        since_ms: r.since_ms,
        fallback_used: r.fallback_used,
        in_attention: r.in_attention,
    }
}

/// The panes of some rows, in order.
pub open spec fn row_ids(s: Seq<AgentRowView>) -> Seq<u32> {
    s.map_values(|r: AgentRowView| r.pane_id)
}

/// The panes of a snapshot's agents, in order.
pub open spec fn agent_ids(agents: Seq<AgentSnapshotView>) -> Seq<u32> {
    agents.map_values(|a: AgentSnapshotView| a.pane_id)
}

proof fn lemma_selectable_concat(a: Seq<RowView>, b: Seq<RowView>)
    ensures
        selectable_ids(a + b) == selectable_ids(a) + selectable_ids(b),
    decreases b.len(),
{
    if b.len() == 0 {
        assert(a + b =~= a);
        assert(selectable_ids(a) + selectable_ids(b) =~= selectable_ids(a));
    } else {
        lemma_selectable_concat(a, b.drop_last());
        assert((a + b).drop_last() =~= a + b.drop_last());
        assert((a + b).last() == b.last());
        match b.last() {
            RowView::Agent(r) => {
                assert(selectable_ids(a) + selectable_ids(b) =~= (selectable_ids(a) + selectable_ids(
                    b.drop_last(),
                )).push(r.pane_id));
            },
            _ => {},
        }
    }
}

proof fn lemma_selectable_agents(s: Seq<AgentRowView>)
    ensures
        selectable_ids(s.map_values(|r: AgentRowView| RowView::Agent(r))) == row_ids(s),
    decreases s.len(),
{
    let f = |r: AgentRowView| RowView::Agent(r);
    if s.len() > 0 {
        lemma_selectable_agents(s.drop_last());
        assert(s.map_values(f).drop_last() =~= s.drop_last().map_values(f));
        assert(row_ids(s) =~= row_ids(s.drop_last()).push(s.last().pane_id));
    } else {
        assert(row_ids(s) =~= Seq::<u32>::empty());
    }
}

proof fn lemma_selectable_grouped(s: Seq<AgentRowView>)
    ensures
        selectable_ids(grouped(s)) == row_ids(s),
    decreases s.len(),
{
    if s.len() == 0 {
        assert(row_ids(s) =~= Seq::<u32>::empty());
    } else {
        let prev = s.drop_last();
        let x = s.last();
        lemma_selectable_grouped(prev);
        let head = if prev.len() == 0 || prev.last().tab_position != x.tab_position
            || prev.last().tab_name != x.tab_name {
            seq![RowView::Tab(x.tab_position, x.tab_name)]
        } else {
            Seq::empty()
        };
        lemma_selectable_concat(grouped(prev), head);
        lemma_selectable_concat(grouped(prev) + head, seq![RowView::Agent(x)]);
        assert(selectable_ids(head) =~= Seq::<u32>::empty()) by {
            reveal_with_fuel(selectable_ids, 2);
            if head.len() > 0 {
                assert(head.drop_last() =~= Seq::<RowView>::empty());
                assert(head.last() == RowView::Tab(x.tab_position, x.tab_name));
            }
        }
        assert(selectable_ids(seq![RowView::Agent(x)]) =~= seq![x.pane_id]) by {
            reveal_with_fuel(selectable_ids, 2);
            assert(seq![RowView::Agent(x)].drop_last() =~= Seq::<RowView>::empty());
            assert(seq![RowView::Agent(x)].last() == RowView::Agent(x));
        }
        assert(row_ids(s) =~= row_ids(prev).push(x.pane_id));
    }
}

proof fn lemma_ids_insert(t: Seq<AgentRowView>, x: AgentRowView, k: int)
    requires
        0 <= k <= t.len(),
    ensures
        row_ids(t.take(k).push(x) + t.skip(k)).to_multiset() == row_ids(t).to_multiset().insert(
            x.pane_id,
        ),
{
    let a = row_ids(t.take(k));
    let b = row_ids(t.skip(k));
    assert(row_ids(t.take(k).push(x) + t.skip(k)) =~= a.push(x.pane_id) + b);
    assert(row_ids(t) =~= a + b);
    vstd::seq_lib::lemma_multiset_commutative(a.push(x.pane_id), b);
    vstd::seq_lib::lemma_multiset_commutative(a, b);
    a.to_multiset_ensures();
    assert(a.push(x.pane_id).to_multiset().add(b.to_multiset()) =~= a.to_multiset().add(
        b.to_multiset(),
    ).insert(x.pane_id));
}

proof fn lemma_sorted_ids(s: Seq<AgentRowView>)
    ensures
        row_ids(sort_by_key(s)).to_multiset() == row_ids(s).to_multiset(),
    decreases s.len(),
{
    if s.len() == 0 {
    } else {
        let t = sort_by_key(s.drop_last());
        let x = s.last();
        lemma_sorted_ids(s.drop_last());
        lemma_sort_by_key(s.drop_last());
        let k = choose_first_greater(t, x);
        lemma_first_greater(t, x, 0);
        lemma_insert_by_key(t, x, k);
        lemma_ids_insert(t, x, k);
        assert(row_ids(s) =~= row_ids(s.drop_last()).push(x.pane_id));
        row_ids(s.drop_last()).to_multiset_ensures();
    }
}

proof fn lemma_rows_partition(agents: Seq<AgentSnapshotView>, tabs: Seq<(usize, Seq<char>)>)
    ensures
        row_ids(rows_where(agents, tabs, true)).to_multiset().add(
            row_ids(rows_where(agents, tabs, false)).to_multiset(),
        ) == agent_ids(agents).to_multiset(),
    decreases agents.len(),
{
    if agents.len() == 0 {
        assert(row_ids(rows_where(agents, tabs, true)) =~= Seq::<u32>::empty());
        assert(row_ids(rows_where(agents, tabs, false)) =~= Seq::<u32>::empty());
        assert(agent_ids(agents) =~= Seq::<u32>::empty());
        assert(Seq::<u32>::empty().to_multiset().add(Seq::<u32>::empty().to_multiset())
            =~= Seq::<u32>::empty().to_multiset()) by {
            Seq::<u32>::empty().to_multiset_ensures();
        }
    } else {
        let prev = agents.drop_last();
        let a = agents.last();
        lemma_rows_partition(prev, tabs);
        let at = rows_where(prev, tabs, true);
        let rs = rows_where(prev, tabs, false);
        assert(agent_ids(agents) =~= agent_ids(prev).push(a.pane_id));
        agent_ids(prev).to_multiset_ensures();
        row_ids(at).to_multiset_ensures();
        row_ids(rs).to_multiset_ensures();
        if needs_attention(a.state) {
            assert(row_ids(rows_where(agents, tabs, true)) =~= row_ids(at).push(a.pane_id));
            assert(row_ids(rows_where(agents, tabs, false)) =~= row_ids(rs));
            assert(row_ids(at).to_multiset().insert(a.pane_id).add(row_ids(rs).to_multiset())
                =~= row_ids(at).to_multiset().add(row_ids(rs).to_multiset()).insert(a.pane_id));
        } else {
            assert(row_ids(rows_where(agents, tabs, true)) =~= row_ids(at));
            assert(row_ids(rows_where(agents, tabs, false)) =~= row_ids(rs).push(a.pane_id));
            assert(row_ids(at).to_multiset().add(row_ids(rs).to_multiset().insert(a.pane_id))
                =~= row_ids(at).to_multiset().add(row_ids(rs).to_multiset()).insert(a.pane_id));
        }
    }
}

/// The panes a sidebar list offers: the attention rows' panes, then the other rows'.
proof fn lemma_selectable_split(agents: Seq<AgentSnapshotView>, tabs: Seq<(usize, Seq<char>)>)
    ensures
        selectable_ids(built_rows(agents, tabs)) == row_ids(sort_by_key(rows_where(agents, tabs, true)))
            + row_ids(sort_by_key(rows_where(agents, tabs, false))),
{
    let attention = sort_by_key(rows_where(agents, tabs, true));
    let rest = sort_by_key(rows_where(agents, tabs, false));
    let first = if attention.len() > 0 {
        seq![RowView::Section("Attention"@)] + attention.map_values(|r: AgentRowView| RowView::Agent(r))
    } else {
        Seq::empty()
    };
    lemma_selectable_concat(first, grouped(rest));
    lemma_selectable_grouped(rest);
    lemma_selectable_agents(attention);
    if attention.len() > 0 {
        lemma_selectable_concat(
            seq![RowView::Section("Attention"@)],
            attention.map_values(|r: AgentRowView| RowView::Agent(r)),
        );
        assert(selectable_ids(seq![RowView::Section("Attention"@)]) =~= Seq::<u32>::empty()) by {
            reveal_with_fuel(selectable_ids, 2);
            assert(seq![RowView::Section("Attention"@)].drop_last() =~= Seq::<RowView>::empty());
            assert(seq![RowView::Section("Attention"@)].last() == RowView::Section("Attention"@));
        }
        assert(selectable_ids(first) =~= row_ids(attention));
    } else {
        assert(row_ids(attention) =~= Seq::<u32>::empty());
        assert(selectable_ids(first) =~= row_ids(attention));
    }
}

/// Every agent of a snapshot is listed once: the panes of the sidebar's agent rows are
/// the snapshot's agent panes, each as often as the snapshot names it; an agent in the
/// attention section is not listed again under its tab.
pub proof fn lemma_each_agent_listed_once(agents: Seq<AgentSnapshotView>, tabs: Seq<(usize, Seq<char>)>)
    ensures
        selectable_ids(built_rows(agents, tabs)).to_multiset() == agent_ids(agents).to_multiset(),
{
    let attention = sort_by_key(rows_where(agents, tabs, true));
    let rest = sort_by_key(rows_where(agents, tabs, false));
    lemma_selectable_split(agents, tabs);
    vstd::seq_lib::lemma_multiset_commutative(row_ids(attention), row_ids(rest));
    lemma_sorted_ids(rows_where(agents, tabs, true));
    lemma_sorted_ids(rows_where(agents, tabs, false));
    lemma_rows_partition(agents, tabs);
}

/// `b` is `a` with only the ages of the states changed.
pub open spec fn aged_agents(a: Seq<AgentSnapshotView>, b: Seq<AgentSnapshotView>) -> bool {
    &&& a.len() == b.len()
    &&& forall|i: int|
        0 <= i < a.len() ==> #[trigger] b[i] == AgentSnapshotView { since_ms: b[i].since_ms, ..a[i] }
}

/// `b` is the rows `a` with only the ages of the states changed.
pub open spec fn aged_rows(a: Seq<AgentRowView>, b: Seq<AgentRowView>) -> bool {
    &&& a.len() == b.len()
    &&& forall|i: int|
        0 <= i < a.len() ==> #[trigger] b[i] == AgentRowView { since_ms: b[i].since_ms, ..a[i] }
}

proof fn lemma_rows_where_aged(
    a: Seq<AgentSnapshotView>,
    b: Seq<AgentSnapshotView>,
    tabs: Seq<(usize, Seq<char>)>,
    attention: bool,
)
    requires
        aged_agents(a, b),
    ensures
        aged_rows(rows_where(a, tabs, attention), rows_where(b, tabs, attention)),
    decreases a.len(),
{
    if a.len() > 0 {
        let ad = a.drop_last();
        let bd = b.drop_last();
        assert forall|i: int| 0 <= i < ad.len() implies #[trigger] bd[i] == AgentSnapshotView {
            since_ms: bd[i].since_ms,
            ..ad[i]
        } by {
            assert(bd[i] == b[i] && ad[i] == a[i]);
        }
        lemma_rows_where_aged(ad, bd, tabs, attention);
        assert(b.last() == b[b.len() - 1] && a.last() == a[a.len() - 1]);
        let ra = rows_where(a, tabs, attention);
        let rb = rows_where(b, tabs, attention);
        let pa = rows_where(ad, tabs, attention);
        let pb = rows_where(bd, tabs, attention);
        if needs_attention(a.last().state) == attention {
            assert forall|i: int| 0 <= i < ra.len() implies #[trigger] rb[i] == AgentRowView {
                since_ms: rb[i].since_ms,
                ..ra[i]
            } by {
                if i < pa.len() {
                    assert(ra[i] == pa[i] && rb[i] == pb[i]);
                }
            }
        }
    }
}

proof fn lemma_first_greater_aged(s: Seq<AgentRowView>, t: Seq<AgentRowView>, x: AgentRowView, y: AgentRowView, i: int)
    requires
        aged_rows(s, t),
        y == (AgentRowView { since_ms: y.since_ms, ..x }),
        0 <= i <= s.len(),
    ensures
        first_greater(t, y, i) == first_greater(s, x, i),
    decreases s.len() - i,
{
    if i < s.len() {
        assert(t[i] == AgentRowView { since_ms: t[i].since_ms, ..s[i] });
        lemma_first_greater_aged(s, t, x, y, i + 1);
    }
}

proof fn lemma_sort_aged(s: Seq<AgentRowView>, t: Seq<AgentRowView>)
    requires
        aged_rows(s, t),
    ensures
        aged_rows(sort_by_key(s), sort_by_key(t)),
    decreases s.len(),
{
    if s.len() > 0 {
        let sd = s.drop_last();
        let td = t.drop_last();
        assert forall|i: int| 0 <= i < sd.len() implies #[trigger] td[i] == AgentRowView {
            since_ms: td[i].since_ms,
            ..sd[i]
        } by {
            assert(td[i] == t[i] && sd[i] == s[i]);
        }
        lemma_sort_aged(sd, td);
        let ss = sort_by_key(sd);
        let ts = sort_by_key(td);
        let x = s.last();
        let y = t.last();
        assert(x == s[s.len() - 1] && y == t[t.len() - 1]);
        lemma_sort_by_key(sd);
        lemma_sort_by_key(td);
        let k = choose_first_greater(ss, x);
        lemma_first_greater(ss, x, 0);
        lemma_first_greater(ts, y, 0);
        lemma_first_greater_aged(ss, ts, x, y, 0);
        lemma_insert_by_key(ss, x, k);
        lemma_insert_by_key(ts, y, k);
        let u = ss.take(k).push(x) + ss.skip(k);
        let v = ts.take(k).push(y) + ts.skip(k);
        assert forall|i: int| 0 <= i < u.len() implies #[trigger] v[i] == AgentRowView {
            since_ms: v[i].since_ms,
            ..u[i]
        } by {
            if i < k {
                assert(u[i] == ss[i] && v[i] == ts[i]);
            } else if i > k {
                assert(u[i] == ss[i - 1] && v[i] == ts[i - 1]);
            }
        }
    }
}

/// The panes a sidebar list offers do not depend on how long the agents have been in
/// their states.
pub proof fn lemma_selectable_ignores_age(
    a: Seq<AgentSnapshotView>,
    b: Seq<AgentSnapshotView>,
    tabs: Seq<(usize, Seq<char>)>,
)
    requires
        aged_agents(a, b),
    ensures
        selectable_ids(built_rows(b, tabs)) == selectable_ids(built_rows(a, tabs)),
{
    lemma_selectable_split(a, tabs);
    lemma_selectable_split(b, tabs);
    lemma_rows_where_aged(a, b, tabs, true);
    lemma_rows_where_aged(a, b, tabs, false);
    lemma_sort_aged(rows_where(a, tabs, true), rows_where(b, tabs, true));
    lemma_sort_aged(rows_where(a, tabs, false), rows_where(b, tabs, false));
    let s1 = sort_by_key(rows_where(a, tabs, true));
    let t1 = sort_by_key(rows_where(b, tabs, true));
    let s2 = sort_by_key(rows_where(a, tabs, false));
    let t2 = sort_by_key(rows_where(b, tabs, false));
    assert(row_ids(s1) =~= row_ids(t1)) by {
        assert forall|i: int| 0 <= i < s1.len() implies row_ids(s1)[i] == row_ids(t1)[i] by {
            assert(t1[i] == AgentRowView { since_ms: t1[i].since_ms, ..s1[i] });
        }
    }
    assert(row_ids(s2) =~= row_ids(t2)) by {
        assert forall|i: int| 0 <= i < s2.len() implies row_ids(s2)[i] == row_ids(t2)[i] by {
            assert(t2[i] == AgentRowView { since_ms: t2[i].since_ms, ..s2[i] });
        }
    }
}

/// The tab named by the nearest tab header before position `i`, if any.
pub open spec fn header_before(rows: Seq<RowView>, i: int) -> Option<(usize, Seq<char>)>
    decreases i,
{
    if i <= 0 {
        None
    } else {
        match rows[i - 1] {
            RowView::Tab(p, n) => Some((p, n)),
            _ => header_before(rows, i - 1),
        }
    }
}

proof fn lemma_header_prefix(a: Seq<RowView>, b: Seq<RowView>, i: int)
    requires
        0 <= i <= a.len(),
    ensures
        header_before(a + b, i) == header_before(a, i),
    decreases i,
{
    if i > 0 {
        assert((a + b)[i - 1] == a[i - 1]);
        lemma_header_prefix(a, b, i - 1);
    }
}

proof fn lemma_grouped_headers(s: Seq<AgentRowView>)
    ensures
        s.len() > 0 ==> grouped(s).len() > 0 && grouped(s).last() == RowView::Agent(s.last()),
        forall|i: int|
            0 <= i < grouped(s).len() ==> match #[trigger] grouped(s)[i] {
                RowView::Agent(r) => header_before(grouped(s), i) == Some((r.tab_position, r.tab_name)),
                RowView::Tab(_, _) => i + 1 < grouped(s).len() && grouped(s)[i + 1] is Agent,
                RowView::Section(_) => false,
            },
    decreases s.len(),
{
    if s.len() > 0 {
        let prev = s.drop_last();
        let x = s.last();
        lemma_grouped_headers(prev);
        let g = grouped(prev);
        let head = if prev.len() == 0 || prev.last().tab_position != x.tab_position
            || prev.last().tab_name != x.tab_name {
            seq![RowView::Tab(x.tab_position, x.tab_name)]
        } else {
            Seq::empty()
        };
        let t = g + head + seq![RowView::Agent(x)];
        assert(grouped(s) == t);
        let n = t.len() as int;
        assert forall|i: int| 0 <= i < n implies match #[trigger] t[i] {
            RowView::Agent(r) => header_before(t, i) == Some((r.tab_position, r.tab_name)),
            RowView::Tab(_, _) => i + 1 < n && t[i + 1] is Agent,
            RowView::Section(_) => false,
        } by {
            if i < g.len() {
                assert(t[i] == g[i]);
                lemma_header_prefix(g, head + seq![RowView::Agent(x)], i);
                assert(t == g + (head + seq![RowView::Agent(x)]));
                if g[i] is Tab {
                    if i + 1 < g.len() {
                        assert(t[i + 1] == g[i + 1]);
                    } else {
                        assert(false);
                    }
                }
            } else if i < n - 1 {
                assert(head.len() == 1);
                assert(t[i] == RowView::Tab(x.tab_position, x.tab_name));
                assert(t[i + 1] == RowView::Agent(x));
            } else {
                assert(t[i] == RowView::Agent(x));
                if head.len() == 1 {
                    assert(t[i - 1] == RowView::Tab(x.tab_position, x.tab_name));
                } else {
                    assert(prev.len() > 0);
                    assert(t[i - 1] == g[g.len() - 1]);
                    assert(g.last() == RowView::Agent(prev.last()));
                    lemma_header_prefix(g, head + seq![RowView::Agent(x)], g.len() - 1);
                    assert(t == g + (head + seq![RowView::Agent(x)]));
                    assert(header_before(g, g.len() - 1) == Some((prev.last().tab_position, prev.last().tab_name)));
                }
            }
        }
    }
}

/// Row `i` of a tab-grouped list is in place: a header names the tab of the agent row
/// right after it and stands first or right after an agent row of another tab; an agent
/// row follows its tab's header or an agent row of its own tab.
pub open spec fn header_in_place(rows: Seq<RowView>, i: int) -> bool {
    match rows[i] {
        RowView::Tab(p, n) => {
            &&& i + 1 < rows.len()
            &&& rows[i + 1] matches RowView::Agent(r) && r.tab_position == p && r.tab_name == n
            &&& (i == 0 || (rows[i - 1] matches RowView::Agent(q) && (q.tab_position != p || q.tab_name
                != n)))
        },
        RowView::Agent(r) => {
            &&& i > 0
            &&& (rows[i - 1] == RowView::Tab(r.tab_position, r.tab_name) || (rows[i - 1] matches RowView::Agent(
                q,
            ) && q.tab_position == r.tab_position && q.tab_name == r.tab_name))
        },
        RowView::Section(_) => false,
    }
}

proof fn lemma_in_place_extends(g: Seq<RowView>, tail: Seq<RowView>, i: int)
    requires
        0 <= i < g.len(),
        header_in_place(g, i),
    ensures
        header_in_place(g + tail, i),
{
    let t = g + tail;
    assert(t[i] == g[i]);
    if i > 0 {
        assert(t[i - 1] == g[i - 1]);
    }
    if i + 1 < g.len() {
        assert(t[i + 1] == g[i + 1]);
    }
}

/// Tab headers in the tab-grouped rows stand exactly where the tab changes: each names
/// the tab of the agent row after it and comes first or after an agent of another tab,
/// and every other agent row follows an agent of its own tab. A tab's run of agents thus
/// gets one header, never two in a row.
pub proof fn lemma_headers_only_on_tab_change(s: Seq<AgentRowView>)
    ensures
        forall|i: int| 0 <= i < grouped(s).len() ==> #[trigger] header_in_place(grouped(s), i),
    decreases s.len(),
{
    if s.len() > 0 {
        let prev = s.drop_last();
        let x = s.last();
        lemma_headers_only_on_tab_change(prev);
        lemma_grouped_headers(prev);
        let g = grouped(prev);
        let changed = prev.len() == 0 || prev.last().tab_position != x.tab_position
            || prev.last().tab_name != x.tab_name;
        let head = if changed {
            seq![RowView::Tab(x.tab_position, x.tab_name)]
        } else {
            Seq::empty()
        };
        let tail = head + seq![RowView::Agent(x)];
        let t = g + tail;
        assert(grouped(s) == g + head + seq![RowView::Agent(x)]);
        assert(g + head + seq![RowView::Agent(x)] =~= t);
        assert(prev.len() == 0 ==> g.len() == 0);
        let n = t.len() as int;
        assert forall|i: int| 0 <= i < n implies #[trigger] header_in_place(t, i) by {
            if i < g.len() {
                lemma_in_place_extends(g, tail, i);
            } else if changed && i == g.len() {
                assert(t[i] == RowView::Tab(x.tab_position, x.tab_name));
                assert(t[i + 1] == RowView::Agent(x));
                if i > 0 {
                    assert(t[i - 1] == g[g.len() - 1]);
                }
            } else {
                assert(t[i] == RowView::Agent(x));
                if !changed {
                    assert(t[i - 1] == g[g.len() - 1]);
                }
            }
        }
    }
}

proof fn lemma_grouped_agents_from(s: Seq<AgentRowView>)
    ensures
        forall|j: int|
            0 <= j < grouped(s).len() && (#[trigger] grouped(s)[j]) is Agent ==> s.contains(
                grouped(s)[j]->Agent_0,
            ),
    decreases s.len(),
{
    if s.len() > 0 {
        let prev = s.drop_last();
        let x = s.last();
        lemma_grouped_agents_from(prev);
        let g = grouped(prev);
        let head = if prev.len() == 0 || prev.last().tab_position != x.tab_position
            || prev.last().tab_name != x.tab_name {
            seq![RowView::Tab(x.tab_position, x.tab_name)]
        } else {
            Seq::empty()
        };
        let t = g + head + seq![RowView::Agent(x)];
        assert(grouped(s) == t);
        assert forall|j: int| 0 <= j < t.len() && (#[trigger] t[j]) is Agent implies s.contains(
            t[j]->Agent_0,
        ) by {
            if j < g.len() {
                assert(t[j] == g[j]);
                let r = g[j]->Agent_0;
                assert(prev.contains(r));
                let k = choose|k: int| 0 <= k < prev.len() && prev[k] == r;
                assert(s[k] == prev[k]);
            } else if j == t.len() - 1 {
                assert(s[s.len() - 1] == x);
            } else {
                assert(t[j] == head[j - g.len()]);
            }
        }
    }
}

/// A tab header in the sidebar list names the tab of the non-attention agent row right
/// after it, and comes first or right after the Attention section's last row or an agent
/// row of another tab.
pub open spec fn tab_header_in_place(rows: Seq<RowView>, i: int) -> bool {
    rows[i] matches RowView::Tab(p, n) ==> {
        &&& i + 1 < rows.len()
        &&& rows[i + 1] matches RowView::Agent(r) && r.tab_position == p && r.tab_name == n
            && !r.in_attention
        &&& (i == 0 || (rows[i - 1] matches RowView::Agent(q) && (q.in_attention || q.tab_position
            != p || q.tab_name != n)))
    }
}

/// An agent row outside the Attention section follows its tab's header or an agent row
/// of the same tab.
pub open spec fn agent_under_header(rows: Seq<RowView>, i: int) -> bool {
    match rows[i] {
        RowView::Agent(r) => !r.in_attention ==> {
            &&& i > 0
            &&& (rows[i - 1] == RowView::Tab(r.tab_position, r.tab_name) || (rows[i
                - 1] matches RowView::Agent(q) && !q.in_attention && q.tab_position == r.tab_position
                && q.tab_name == r.tab_name))
        },
        _ => true,
    }
}

proof fn lemma_list_row(agents: Seq<AgentSnapshotView>, tabs: Seq<(usize, Seq<char>)>, i: int)
    requires
        0 <= i < built_rows(agents, tabs).len(),
    ensures
        tab_header_in_place(built_rows(agents, tabs), i),
        agent_under_header(built_rows(agents, tabs), i),
{
    let att = sort_by_key(rows_where(agents, tabs, true));
    let rest = sort_by_key(rows_where(agents, tabs, false));
    lemma_rows_where_flagged(agents, tabs, true);
    lemma_rows_where_flagged(agents, tabs, false);
    lemma_sorted_flagged(rows_where(agents, tabs, true), true);
    lemma_sorted_flagged(rows_where(agents, tabs, false), false);
    lemma_headers_only_on_tab_change(rest);
    lemma_grouped_agents_from(rest);
    let first = if att.len() > 0 {
        seq![RowView::Section("Attention"@)] + att.map_values(|r: AgentRowView| RowView::Agent(r))
    } else {
        Seq::empty()
    };
    let g = grouped(rest);
    let rows = built_rows(agents, tabs);
    assert(rows == first + g);
    let f = first.len() as int;
    assert forall|j: int| 0 <= j < g.len() && (#[trigger] g[j]) is Agent implies !(g[j]->Agent_0).in_attention by {
        let r = g[j]->Agent_0;
        let k = choose|k: int| 0 <= k < rest.len() && rest[k] == r;
        assert(!rest[k].in_attention);
    }
    if i < f {
        assert(rows[i] == first[i]);
        if i > 0 {
            assert(first[i] == RowView::Agent(att[i - 1]));
        }
    } else {
        let j = i - f;
        assert(rows[i] == g[j]);
        assert(header_in_place(g, j));
        if j + 1 < g.len() {
            assert(rows[i + 1] == g[j + 1]);
        }
        if j > 0 {
            assert(rows[i - 1] == g[j - 1]);
        } else if i > 0 {
            assert(rows[i - 1] == first[f - 1]);
            assert(f >= 2);
            assert(first[f - 1] == RowView::Agent(att[f - 2]));
        }
    }
}

/// In the sidebar list every tab header stands where the tab changes among the agents
/// below the Attention section, and every such agent sits under its own tab's header:
/// one header per run of agents of one tab.
pub proof fn lemma_list_headers(agents: Seq<AgentSnapshotView>, tabs: Seq<(usize, Seq<char>)>)
    ensures
        forall|i: int|
            0 <= i < built_rows(agents, tabs).len() ==> #[trigger] tab_header_in_place(
                built_rows(agents, tabs),
                i,
            ),
        forall|i: int|
            0 <= i < built_rows(agents, tabs).len() ==> #[trigger] agent_under_header(
                built_rows(agents, tabs),
                i,
            ),
{
    assert forall|i: int| 0 <= i < built_rows(agents, tabs).len() implies #[trigger] tab_header_in_place(
        built_rows(agents, tabs),
        i,
    ) by {
        lemma_list_row(agents, tabs, i);
    }
    assert forall|i: int| 0 <= i < built_rows(agents, tabs).len() implies #[trigger] agent_under_header(
        built_rows(agents, tabs),
        i,
    ) by {
        lemma_list_row(agents, tabs, i);
    }
}

proof fn lemma_rows_where_flagged(agents: Seq<AgentSnapshotView>, tabs: Seq<(usize, Seq<char>)>, attention: bool)
    ensures
        forall|i: int|
            0 <= i < rows_where(agents, tabs, attention).len() ==> (#[trigger] rows_where(
                agents,
                tabs,
                attention,
            )[i]).in_attention == attention,
        rows_where(agents, tabs, attention).len() > 0 <==> exists|j: int|
            0 <= j < agents.len() && needs_attention((#[trigger] agents[j]).state) == attention,
    decreases agents.len(),
{
    if agents.len() > 0 {
        let d = agents.drop_last();
        lemma_rows_where_flagged(d, tabs, attention);
        let r = rows_where(agents, tabs, attention);
        let p = rows_where(d, tabs, attention);
        assert forall|i: int| 0 <= i < r.len() implies (#[trigger] r[i]).in_attention == attention by {
            if i < p.len() {
                assert(r[i] == p[i]);
            }
        }
        if exists|j: int| 0 <= j < agents.len() && needs_attention((#[trigger] agents[j]).state) == attention {
            let j = choose|j: int| 0 <= j < agents.len() && needs_attention((#[trigger] agents[j]).state)
                == attention;
            if j < d.len() {
                assert(d[j] == agents[j]);
            } else {
                assert(agents.last() == agents[j]);
            }
        }
        if exists|j: int| 0 <= j < d.len() && needs_attention((#[trigger] d[j]).state) == attention {
            let j = choose|j: int| 0 <= j < d.len() && needs_attention((#[trigger] d[j]).state) == attention;
            assert(agents[j] == d[j]);
        }
        if needs_attention(agents.last().state) == attention {
            assert(agents[agents.len() - 1] == agents.last());
        }
    }
}

proof fn lemma_sorted_flagged(s: Seq<AgentRowView>, attention: bool)
    requires
        forall|i: int| 0 <= i < s.len() ==> (#[trigger] s[i]).in_attention == attention,
    ensures
        forall|i: int| 0 <= i < sort_by_key(s).len() ==> (#[trigger] sort_by_key(s)[i]).in_attention
            == attention,
        sort_by_key(s).len() == s.len(),
{
    lemma_sort_by_key(s);
    let t = sort_by_key(s);
    assert forall|i: int| 0 <= i < t.len() implies (#[trigger] t[i]).in_attention == attention by {
        t.to_multiset_ensures();
        s.to_multiset_ensures();
        assert(t.contains(t[i]));
        assert(s.to_multiset().count(t[i]) > 0);
        assert(s.contains(t[i]));
    }
}

/// The sidebar list's layout: it opens with the attention section exactly when some agent
/// is blocked or finished, whose rows come in key order (blocked before finished, then
/// by tab, then by pane) and are all marked for attention; the other agents follow in
/// (tab, pane) order, none marked, every agent row under a header naming its own tab,
/// and every header followed by an agent row.
pub proof fn lemma_rows_layout(agents: Seq<AgentSnapshotView>, tabs: Seq<(usize, Seq<char>)>)
    ensures
        ({
            let att = sort_by_key(rows_where(agents, tabs, true));
            let rest = sort_by_key(rows_where(agents, tabs, false));
            let rows = built_rows(agents, tabs);
            &&& (rows.len() > 0 && rows[0] == RowView::Section("Attention"@)) <==> exists|j: int|
                0 <= j < agents.len() && needs_attention((#[trigger] agents[j]).state)
            &&& sorted_by_key(att)
            &&& sorted_by_key(rest)
            &&& forall|i: int| 0 <= i < att.len() ==> (#[trigger] att[i]).in_attention
            &&& forall|i: int| 0 <= i < rest.len() ==> !(#[trigger] rest[i]).in_attention
            &&& forall|i: int|
                0 <= i < grouped(rest).len() ==> match #[trigger] grouped(rest)[i] {
                    RowView::Agent(r) => header_before(grouped(rest), i) == Some(
                        (r.tab_position, r.tab_name),
                    ),
                    RowView::Tab(_, _) => i + 1 < grouped(rest).len() && grouped(rest)[i + 1] is Agent,
                    RowView::Section(_) => false,
                }
        }),
{
    let att = sort_by_key(rows_where(agents, tabs, true));
    let rest = sort_by_key(rows_where(agents, tabs, false));
    lemma_sort_by_key(rows_where(agents, tabs, true));
    lemma_sort_by_key(rows_where(agents, tabs, false));
    lemma_rows_where_flagged(agents, tabs, true);
    lemma_rows_where_flagged(agents, tabs, false);
    lemma_sorted_flagged(rows_where(agents, tabs, true), true);
    lemma_sorted_flagged(rows_where(agents, tabs, false), false);
    lemma_grouped_headers(rest);
    let rows = built_rows(agents, tabs);
    if att.len() > 0 {
        assert(rows[0] == RowView::Section("Attention"@));
    } else {
        assert(rows == grouped(rest));
        if rows.len() > 0 {
            assert(!(rows[0] is Section));
        }
    }
}

/// The row of an agent under the given tab name, not yet marked for attention.
fn agent_row(agent: &AgentSnapshot, tab_name: String) -> (r: AgentRow)
    ensures
        agent_row_view(r) == (AgentRowView { in_attention: false, ..row_of(agent_view(*agent), Seq::empty()) }).with_tab(tab_name@),
{
    AgentRow {
        pane_id: agent.pane_id,
        tab_position: agent.tab_position,
        tab_name,
        agent: agent.agent.clone(),
        agent_label: agent.agent_label.clone(),
        display: agent.display.clone(),
        state: agent.state,
        since_ms: agent.since_ms,
        fallback_used: agent.fallback_used,
        in_attention: false,
    }
}

impl AgentRowView {
    pub open spec fn with_tab(self, tab_name: Seq<char>) -> AgentRowView {
        AgentRowView { tab_name, ..self }
    }
}

fn rank(s: AgentState) -> (r: u8)
    ensures
        r as int == attention_rank(s),
{
    match s {
        AgentState::Blocked => 0,
        AgentState::Done => 1,
        _ => 2,
    }
}

fn row_key_le(a: &AgentRow, b: &AgentRow) -> (r: bool)
    ensures
        r == key_le(row_key(agent_row_view(*a)), row_key(agent_row_view(*b))),
{
    let ka = if a.in_attention {
        rank(a.state)
    } else {
        0
    };
    let kb = if b.in_attention {
        rank(b.state)
    } else {
        0
    };
    ka < kb || (ka == kb && (a.tab_position < b.tab_position || (a.tab_position == b.tab_position
        && a.pane_id <= b.pane_id)))
}

/// The rows in key order, equal keys keeping their order.
fn sort_rows(v: &Vec<AgentRow>) -> (out: Vec<AgentRow>)
    ensures
        row_views(out@) == sort_by_key(row_views(v@)),
{
    let ghost vv = row_views(v@);
    let mut out: Vec<AgentRow> = Vec::new();
    let n = v.len();
    for i in 0..n
        invariant
            n == v@.len(),
            vv == row_views(v@),
            row_views(out@) == sort_by_key(vv.take(i as int)),
    {
        proof {
            lemma_sort_by_key(vv.take(i as int));
        }
        let x = &v[i];
        let ghost t = row_views(out@);
        let m = out.len();
        let mut k: usize = 0;
        while k < m
            invariant
                m == out@.len(),
                k <= m,
                t == row_views(out@),
                forall|j: int| 0 <= j < k ==> key_le(row_key(#[trigger] t[j]), row_key(agent_row_view(*x))),
            ensures
                k <= m,
                forall|j: int| 0 <= j < k ==> key_le(row_key(#[trigger] t[j]), row_key(agent_row_view(*x))),
                k < m ==> !key_le(row_key(t[k as int]), row_key(agent_row_view(*x))),
            decreases m - k,
        {
            assert(t[k as int] == agent_row_view(out@[k as int]));
            if !row_key_le(&out[k], x) {
                break;
            }
            k = k + 1;
        }
        proof {
            lemma_insert_by_key(t, agent_row_view(*x), k as int);
            assert(vv.take(i + 1).drop_last() =~= vv.take(i as int));
            assert(vv.take(i + 1).last() == agent_row_view(*x));
        }
        let ghost before = out@;
        out.insert(k, copy_row(x));
        proof {
            let u = t.take(k as int).push(agent_row_view(*x)) + t.skip(k as int);
            assert forall|j: int| 0 <= j < u.len() implies #[trigger] agent_row_view(out@[j]) == u[j] by {
                if j < k {
                    assert(out@[j] == before[j]);
                } else if j > k {
                    assert(out@[j] == before[j - 1]);
                    assert(u[j] == t.skip(k as int)[j - k - 1]);
                }
            }
            assert(row_views(out@) =~= u);
        }
    }
    assert(vv.take(n as int) =~= vv);
    out
}

/// The sidebar rows of a snapshot.
pub fn build_rows(snapshot: &Snapshot) -> (rows: Vec<Row>)
    ensures
        rows_view(rows@) == built_rows(agents_view(snapshot.agents@), tabs_view(snapshot.tabs@)),
{
    let ghost av = agents_view(snapshot.agents@);
    let ghost tv = tabs_view(snapshot.tabs@);
    let mut attention: Vec<AgentRow> = Vec::new();
    let mut rest: Vec<AgentRow> = Vec::new();
    let n = snapshot.agents.len();
    for i in 0..n
        invariant
            n == snapshot.agents@.len(),
            av == agents_view(snapshot.agents@),
            tv == tabs_view(snapshot.tabs@),
            row_views(attention@) == rows_where(av.take(i as int), tv, true),
            row_views(rest@) == rows_where(av.take(i as int), tv, false),
    {
        let agent = &snapshot.agents[i];
        let tab_name = tab_name_lookup(&snapshot.tabs, agent.tab_position);
        let mut row = agent_row(agent, tab_name);
        proof {
            assert(av.take(i + 1).drop_last() =~= av.take(i as int));
            assert(av.take(i + 1).last() == agent_view(*agent));
        }
        match agent.state {
            AgentState::Blocked | AgentState::Done => {
                row.in_attention = true;
                let ghost before = attention@;
                attention.push(row);
                assert(row_views(attention@) =~= row_views(before).push(row_of(agent_view(*agent), tv)));
            },
            _ => {
                let ghost before = rest@;
                rest.push(row);
                assert(row_views(rest@) =~= row_views(before).push(row_of(agent_view(*agent), tv)));
            },
        }
    }
    assert(av.take(n as int) =~= av);
    let attention = sort_rows(&attention);
    let rest = sort_rows(&rest);
    let ghost at = row_views(attention@);
    let ghost rt = row_views(rest@);
    let mut rows: Vec<Row> = Vec::new();
    if attention.len() > 0 {
        rows.push(Row::Section("Attention"));
        let m = attention.len();
        for i in 0..m
            invariant
                m == attention@.len(),
                at == row_views(attention@),
                rows_view(rows@) == seq![RowView::Section("Attention"@)] + at.take(i as int).map_values(
                    |r: AgentRowView| RowView::Agent(r),
                ),
        {
            let ghost before = rows@;
            let c = copy_row(&attention[i]);
            assert(agent_row_view(c) == at[i as int]);
            rows.push(Row::Agent(c));
            assert(rows_view(rows@) =~= rows_view(before).push(RowView::Agent(at[i as int])));
            assert(at.take(i + 1).map_values(|r: AgentRowView| RowView::Agent(r)) =~= at.take(
                i as int,
            ).map_values(|r: AgentRowView| RowView::Agent(r)).push(RowView::Agent(at[i as int])));
            assert(rows_view(rows@) =~= seq![RowView::Section("Attention"@)] + at.take(i + 1).map_values(
                |r: AgentRowView| RowView::Agent(r),
            ));
        }
        assert(at.take(m as int) =~= at);
    }
    let ghost head = rows_view(rows@);
    assert(head =~= (if at.len() > 0 {
        seq![RowView::Section("Attention"@)] + at.map_values(|r: AgentRowView| RowView::Agent(r))
    } else {
        Seq::empty()
    }));
    let k = rest.len();
    for i in 0..k
        invariant
            k == rest@.len(),
            rt == row_views(rest@),
            rows_view(rows@) == head + grouped(rt.take(i as int)),
    {
        let x = &rest[i];
        proof {
            assert(rt.take(i + 1).drop_last() =~= rt.take(i as int));
            assert(rt.take(i + 1).last() == agent_row_view(*x));
            if i > 0 {
                assert(rt.take(i as int).last() == agent_row_view(rest@[i - 1]));
            }
        }
        let new_tab = i == 0 || rest[i - 1].tab_position != x.tab_position || !crate::text::str_eq(
            rest[i - 1].tab_name.as_str(),
            x.tab_name.as_str(),
        );
        let ghost before = rows_view(rows@);
        let ghost xv = agent_row_view(*x);
        let ghost hd = if new_tab {
            seq![RowView::Tab(xv.tab_position, xv.tab_name)]
        } else {
            Seq::<RowView>::empty()
        };
        proof {
            assert(grouped(rt.take(i + 1)) == grouped(rt.take(i as int)) + hd + seq![RowView::Agent(xv)]);
        }
        if new_tab {
            rows.push(Row::Tab { position: x.tab_position, name: x.tab_name.clone() });
        }
        let c = copy_row(x);
        rows.push(Row::Agent(c));
        assert(rows_view(rows@) =~= before + hd + seq![RowView::Agent(xv)]);
        assert(rows_view(rows@) =~= head + grouped(rt.take(i + 1)));
    }
    assert(rt.take(k as int) =~= rt);
    rows
}

pub fn selectable_pane_ids(rows: &[Row]) -> (ids: Vec<u32>)
    ensures
        ids@ == selectable_ids(rows_view(rows@)),
{
    let ghost rv = rows_view(rows@);
    let mut ids: Vec<u32> = Vec::new();
    let n = rows.len();
    for i in 0..n
        invariant
            n == rows@.len(),
            rv == rows_view(rows@),
            ids@ == selectable_ids(rv.take(i as int)),
    {
        assert(rv.take(i + 1).drop_last() =~= rv.take(i as int));
        assert(rv.take(i + 1).last() == row_view(rows@[i as int]));
        match &rows[i] {
            Row::Agent(a) => ids.push(a.pane_id),
            _ => {},
        }
    }
    assert(rv.take(n as int) =~= rv);
    ids
}

} // verus!
