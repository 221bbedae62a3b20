use vstd::prelude::*;
use vstd::utf8::valid_utf8;

use crate::idmap::{ascending, IdMap};
use crate::sanitize::{sanitize_metadata, sanitized};
use crate::text::utf8_text;

verus! {

/// A live terminal pane as the host lists it.
#[derive(Clone, Debug, PartialEq, Eq)]
pub struct TerminalCandidate {
    pub pane_id: u32,
    pub tab_position: usize,
    pub tab_name: String,
    pub title: String,
}

/// A terminal candidate as plain values.
pub struct CandidateView {
    pub pane_id: u32,
    pub tab_position: usize,
    pub tab_name: Seq<char>,
    pub title: Seq<char>,
}

pub open spec fn candidate_view(c: TerminalCandidate) -> CandidateView {
    CandidateView {
        pane_id: c.pane_id,
        tab_position: c.tab_position,
        tab_name: c.tab_name@,
        title: c.title@,
    }
}

/// The candidates keyed by pane, a later candidate for a pane replacing an earlier one.
pub open spec fn candidates_by_pane(rows: Seq<TerminalCandidate>) -> Map<u32, CandidateView>
    decreases rows.len(),
{
    if rows.len() == 0 {
        Map::empty()
    } else {
        candidates_by_pane(rows.drop_last()).insert(rows.last().pane_id, candidate_view(rows.last()))
    }
}

/// `m` with each candidate added whose pane it does not hold yet.
pub open spec fn merged_in(m: Map<u32, CandidateView>, rows: Seq<TerminalCandidate>) -> Map<
    u32,
    CandidateView,
>
    decreases rows.len(),
{
    if rows.len() == 0 {
        m
    } else {
        let p = merged_in(m, rows.drop_last());
        if p.dom().contains(rows.last().pane_id) {
            p
        } else {
            p.insert(rows.last().pane_id, candidate_view(rows.last()))
        }
    }
}

/// The position of the first candidate for pane `id`, or -1.
pub open spec fn first_for_pane(rows: Seq<TerminalCandidate>, id: u32) -> int
    decreases rows.len(),
{
    if rows.len() == 0 {
        -1
    } else if first_for_pane(rows.drop_last(), id) >= 0 {
        first_for_pane(rows.drop_last(), id)
    } else if rows.last().pane_id == id {
        rows.len() - 1
    } else {
        -1
    }
}

/// Event rows win over the command line's: a pane the inventory holds keeps its row, a
/// pane it does not hold gets the first candidate named for it, and no other pane comes
/// in.
pub proof fn lemma_event_rows_win(m: Map<u32, CandidateView>, rows: Seq<TerminalCandidate>, id: u32)
    ensures
        -1 <= first_for_pane(rows, id) < rows.len(),
        first_for_pane(rows, id) >= 0 ==> rows[first_for_pane(rows, id)].pane_id == id && forall|j: int|
            0 <= j < first_for_pane(rows, id) ==> #[trigger] rows[j].pane_id != id,
        first_for_pane(rows, id) == -1 ==> forall|j: int| 0 <= j < rows.len() ==> #[trigger] rows[j].pane_id != id,
        merged_in(m, rows).dom().contains(id) <==> (m.dom().contains(id) || first_for_pane(rows, id) >= 0),
        m.dom().contains(id) ==> merged_in(m, rows)[id] == m[id],
        !m.dom().contains(id) && first_for_pane(rows, id) >= 0 ==> merged_in(m, rows)[id] == candidate_view(
            rows[first_for_pane(rows, id)],
        ),
    decreases rows.len(),
{
    if rows.len() > 0 {
        let d = rows.drop_last();
        lemma_event_rows_win(m, d, id);
        assert forall|j: int| 0 <= j < d.len() implies #[trigger] d[j] == rows[j] by {}
        assert(rows.last() == rows[rows.len() - 1]);
        let p = merged_in(m, d);
        if first_for_pane(d, id) == -1 && rows.last().pane_id != id {
            assert forall|j: int| 0 <= j < rows.len() implies #[trigger] rows[j].pane_id != id by {
                if j < d.len() {
                    assert(d[j] == rows[j]);
                }
            }
        }
        if first_for_pane(d, id) >= 0 {
            let f = first_for_pane(d, id);
            assert(d[f] == rows[f]);
            assert forall|j: int| 0 <= j < f implies #[trigger] rows[j].pane_id != id by {
                assert(d[j] == rows[j]);
            }
        }
        if first_for_pane(d, id) == -1 && rows.last().pane_id == id {
            assert forall|j: int| 0 <= j < rows.len() - 1 implies #[trigger] rows[j].pane_id != id by {
                assert(d[j] == rows[j]);
            }
        }
    }
}

pub fn copy_candidate(c: &TerminalCandidate) -> (r: TerminalCandidate)
    ensures
        candidate_view(r) == candidate_view(*c),
{
    TerminalCandidate {
        pane_id: c.pane_id,
        tab_position: c.tab_position,
        tab_name: c.tab_name.clone(),
        title: c.title.clone(),
    }
}

/// The terminal panes known to the engine, by pane id.
#[derive(Debug)]
pub struct Inventory {
    rows: IdMap<u32, TerminalCandidate>,
}

impl Inventory {
    #[verifier::type_invariant]
    closed spec fn inv(self) -> bool {
        &&& self.rows.wf()
        &&& forall|i: int|
            0 <= i < self.rows.entries().len() ==> (#[trigger] self.rows.entries()[i]).0
                == self.rows.entries()[i].1.pane_id
    }

    pub closed spec fn view(&self) -> Map<u32, CandidateView> {
        self.rows.view().map_values(|c: TerminalCandidate| candidate_view(c))
    }

    pub fn new() -> (r: Self)
        ensures
            r@ == Map::<u32, CandidateView>::empty(),
    {
        let r = Inventory { rows: IdMap::new() };
        assert(r@ =~= Map::<u32, CandidateView>::empty());
        r
    }

    /// Replaces the inventory with the host's event rows; of two rows for one pane the
    /// later wins.
    pub fn apply_event_manifest(&mut self, rows: Vec<TerminalCandidate>)
        ensures
            final(self)@ == candidates_by_pane(rows@),
    {
        let mut m: IdMap<u32, TerminalCandidate> = IdMap::new();
        let n = rows.len();
        for i in 0..n
            invariant
                n == rows@.len(),
                m.wf(),
                m.view().map_values(|c: TerminalCandidate| candidate_view(c)) == candidates_by_pane(
                    rows@.take(i as int),
                ),
                forall|k: u32| #[trigger] m.view().dom().contains(k) ==> m.view()[k].pane_id == k,
        {
            let c = copy_candidate(&rows[i]);
            let id = c.pane_id;
            let ghost before = m.view();
            m.insert(id, c);
            proof {
                assert(rows@.take(i + 1).drop_last() =~= rows@.take(i as int));
                assert(rows@.take(i + 1).last() == rows@[i as int]);
                assert(m.view().map_values(|c: TerminalCandidate| candidate_view(c)) =~= before.map_values(
                    |c: TerminalCandidate| candidate_view(c),
                ).insert(id, candidate_view(rows@[i as int])));
            }
        }
        assert(rows@.take(n as int) =~= rows@);
        proof {
            m.lemma_entries();
        }
        self.rows = m;
    }

    /// Adds the candidates of a full listing whose panes are not known yet; known panes
    /// keep their event rows.
    pub fn merge_cli_candidates(&mut self, candidates: Vec<TerminalCandidate>)
        ensures
            final(self)@ == merged_in(old(self)@, candidates@),
    {
        let n = candidates.len();
        for i in 0..n
            invariant
                n == candidates@.len(),
                self@ == merged_in(old(self)@, candidates@.take(i as int)),
        {
            proof {
                assert(candidates@.take(i + 1).drop_last() =~= candidates@.take(i as int));
                assert(candidates@.take(i + 1).last() == candidates@[i as int]);
            }
            let id = candidates[i].pane_id;
            if !self.contains(id) {
                let c = copy_candidate(&candidates[i]);
                self.put(c);
            }
        }
        assert(candidates@.take(n as int) =~= candidates@);
    }

    fn contains(&self, pane_id: u32) -> (r: bool)
        ensures
            r == self@.dom().contains(pane_id),
    {
        proof {
            use_type_invariant(self);
        }
        self.rows.contains(&pane_id)
    }

    /// Stores a candidate under its pane.
    fn put(&mut self, c: TerminalCandidate)
        ensures
            final(self)@ == old(self)@.insert(c.pane_id, candidate_view(c)),
    {
        proof {
            use_type_invariant(&*self);
        }
        let ghost before = self.rows.view();
        let id = c.pane_id;
        let ghost cv = candidate_view(c);
        let mut rows = IdMap::new();
        std::mem::swap(&mut rows, &mut self.rows);
        rows.insert(id, c);
        proof {
            rows.lemma_entries();
            let e = rows.entries();
            assert forall|i: int| 0 <= i < e.len() implies (#[trigger] e[i]).0 == e[i].1.pane_id by {
                if e[i].0 != id {
                    old(self).rows.lemma_entries();
                    let j = choose|j: int|
                        0 <= j < old(self).rows.entries().len() && (#[trigger] old(
                            self,
                        ).rows.entries()[j]).0 == e[i].0;
                }
            }
        }
        self.rows = rows;
        assert(self@ =~= old(self)@.insert(id, cv));
    }

    /// Forgets a pane.
    pub fn remove(&mut self, pane_id: u32)
        ensures
            final(self)@ == old(self)@.remove(pane_id),
    {
        proof {
            use_type_invariant(&*self);
        }
        let mut rows = IdMap::new();
        std::mem::swap(&mut rows, &mut self.rows);
        rows.remove(&pane_id);
        proof {
            rows.lemma_entries();
            let e = rows.entries();
            assert forall|i: int| 0 <= i < e.len() implies (#[trigger] e[i]).0 == e[i].1.pane_id by {
                old(self).rows.lemma_entries();
                let j = choose|j: int|
                    0 <= j < old(self).rows.entries().len() && (#[trigger] old(
                        self,
                    ).rows.entries()[j]).0 == e[i].0;
            }
        }
        self.rows = rows;
        assert(self@ =~= old(self)@.remove(pane_id));
    }

    /// The candidate of a pane.
    pub fn get(&self, pane_id: u32) -> (r: Option<&TerminalCandidate>)
        ensures
            match r {
                Some(c) => self@.dom().contains(pane_id) && candidate_view(*c) == self@[pane_id]
                    && c.pane_id == pane_id,
                None => !self@.dom().contains(pane_id),
            },
    {
        proof {
            use_type_invariant(self);
            self.rows.lemma_entries();
        }
        let r = self.rows.get(&pane_id);
        proof {
            if r is Some {
                let e = self.rows.entries();
                let j = choose|j: int| 0 <= j < e.len() && (#[trigger] e[j]).0 == pane_id;
            }
        }
        r
    }

    /// The candidates in ascending pane order.
    pub fn iter(&self) -> (r: Vec<&TerminalCandidate>)
        ensures
            r@.len() == self@.dom().len(),
            forall|i: int, j: int| 0 <= i < j < r@.len() ==> (#[trigger] r@[i]).pane_id < (#[trigger] r@[j]).pane_id,
            forall|i: int|
                0 <= i < r@.len() ==> self@.dom().contains((#[trigger] r@[i]).pane_id) && self@[r@[i].pane_id]
                    == candidate_view(*r@[i]),
    {
        proof {
            use_type_invariant(self);
            self.rows.lemma_entries();
            assert(self@.dom() =~= self.rows.view().dom());
        }
        let e = self.rows.as_slice();
        let mut r: Vec<&TerminalCandidate> = Vec::new();
        let n = e.len();
        for i in 0..n
            invariant
                n == e@.len(),
                e@ == self.rows.entries(),
                r@.len() == i,
                forall|j: int| 0 <= j < i ==> #[trigger] r@[j] == &e@[j].1,
        {
            r.push(&e[i].1);
        }
        proof {
            assert forall|a: int, b: int| 0 <= a < b < r@.len() implies (#[trigger] r@[a]).pane_id < (
            #[trigger] r@[b]).pane_id by {
                assert(r@[a] == &e@[a].1 && r@[b] == &e@[b].1);
            }
            assert forall|a: int| 0 <= a < r@.len() implies self@.dom().contains((#[trigger] r@[a]).pane_id)
                && self@[r@[a].pane_id] == candidate_view(*r@[a]) by {
                assert(r@[a] == &e@[a].1);
            }
        }
        r
    }

    /// The panes in ascending order.
    pub fn pane_ids(&self) -> (r: Vec<u32>)
        ensures
            forall|i: int, j: int| 0 <= i < j < r@.len() ==> r@[i] < r@[j],
            forall|id: u32| #[trigger] r@.contains(id) <==> self@.dom().contains(id),
            r@.len() == self@.dom().len(),
    {
        proof {
            use_type_invariant(self);
            self.rows.lemma_entries();
        }
        let r = self.rows.keys();
        proof {
            assert(self@.dom() =~= self.rows.view().dom());
            let e = self.rows.entries();
            assert forall|id: u32| #[trigger] r@.contains(id) <==> self@.dom().contains(id) by {
                if self@.dom().contains(id) {
                    let j = choose|j: int| 0 <= j < e.len() && (#[trigger] e[j]).0 == id;
                    assert(r@[j] == id);
                }
                if r@.contains(id) {
                    let j = choose|j: int| 0 <= j < r@.len() && r@[j] == id;
                    assert(e[j].0 == id);
                }
            }
        }
        r
    }

    /// Sets a known pane's title, sanitized; unknown panes are left alone.
    pub fn update_title(&mut self, pane_id: u32, title: String)
        ensures
            old(self)@.dom().contains(pane_id) ==> final(self)@ == old(self)@.insert(
                pane_id,
                CandidateView { title: sanitized(title@, 60), ..old(self)@[pane_id] },
            ),
            !old(self)@.dom().contains(pane_id) ==> final(self)@ == old(self)@,
    {
        let updated = match self.get(pane_id) {
            Some(row) => {
                let mut c = copy_candidate(row);
                c.title = sanitize_metadata(title.as_str(), 60);
                Some(c)
            },
            None => None,
        };
        if let Some(c) = updated {
            self.put(c);
            assert(self@ =~= old(self)@.insert(
                pane_id,
                CandidateView { title: sanitized(title@, 60), ..old(self)@[pane_id] },
            ));
        }
    }

    /// Moves a known pane to another tab, its name sanitized; unknown panes are left
    /// alone.
    pub fn update_tab(&mut self, pane_id: u32, tab_position: usize, tab_name: String)
        ensures
            old(self)@.dom().contains(pane_id) ==> final(self)@ == old(self)@.insert(
                pane_id,
                CandidateView {
                    tab_position,
                    tab_name: sanitized(tab_name@, 60),
                    ..old(self)@[pane_id]
                },
            ),
            !old(self)@.dom().contains(pane_id) ==> final(self)@ == old(self)@,
    {
        let updated = match self.get(pane_id) {
            Some(row) => {
                let mut c = copy_candidate(row);
                c.tab_position = tab_position;
                c.tab_name = sanitize_metadata(tab_name.as_str(), 60);
                Some(c)
            },
            None => None,
        };
        if let Some(c) = updated {
            self.put(c);
            assert(self@ =~= old(self)@.insert(
                pane_id,
                CandidateView {
                    tab_position,
                    tab_name: sanitized(tab_name@, 60),
                    ..old(self)@[pane_id]
                },
            ));
        }
    }
}

impl Default for Inventory {
    fn default() -> (r: Self)
        ensures
            r@ == Map::<u32, CandidateView>::empty(),
    {
        Inventory::new()
    }
}

// ---------------------------------------------------------------------------
// The host's pane listing
// ---------------------------------------------------------------------------

/// One pane of the host's JSON pane listing; fields it may omit read as defaults.
#[derive(Clone, Debug)]
pub struct PaneListRow {
    pub id: u32,
    pub is_plugin: bool,
    pub exited: bool,
    pub tab_position: usize,
    pub tab_name: String,
    pub title: String,
}

/// The listing could not be read.
#[derive(Debug)]
pub struct PaneListError;

/// The candidate a listed pane stands for, if it is a live terminal.
pub open spec fn listed_candidate(r: PaneListRow) -> CandidateView {
    CandidateView {
        pane_id: r.id,
        tab_position: r.tab_position,
        tab_name: sanitized(r.tab_name@, 60),
        title: sanitized(r.title@, 60),
    }
}

/// The live terminals of a listing, in order, with sanitized names.
pub open spec fn live_terminals(rows: Seq<PaneListRow>) -> Seq<CandidateView>
    decreases rows.len(),
{
    if rows.len() == 0 {
        Seq::empty()
    } else {
        let prev = live_terminals(rows.drop_last());
        let r = rows.last();
        if !r.is_plugin && !r.exited {
            prev.push(listed_candidate(r))
        } else {
            prev
        }
    }
}

pub open spec fn candidates_view(v: Seq<TerminalCandidate>) -> Seq<CandidateView> {
    v.map_values(|c: TerminalCandidate| candidate_view(c))
}

/// The live terminals among listed panes, in order, with sanitized names: plugins and
/// exited panes are dropped.
pub fn live_candidates(rows: &[PaneListRow]) -> (v: Vec<TerminalCandidate>)
    ensures
        candidates_view(v@) == live_terminals(rows@),
{
    let mut out: Vec<TerminalCandidate> = Vec::new();
    let n = rows.len();
    for i in 0..n
        invariant
            n == rows@.len(),
            candidates_view(out@) == live_terminals(rows@.take(i as int)),
    {
        proof {
            assert(rows@.take(i + 1).drop_last() =~= rows@.take(i as int));
            assert(rows@.take(i + 1).last() == rows@[i as int]);
        }
        let row = &rows[i];
        if !row.is_plugin && !row.exited {
            let c = TerminalCandidate {
                pane_id: row.id,
                tab_position: row.tab_position,
                tab_name: sanitize_metadata(row.tab_name.as_str(), 60),
                title: sanitize_metadata(row.title.as_str(), 60),
            };
            out.push(c);
            assert(candidates_view(out@) =~= live_terminals(rows@.take(i as int)).push(
                listed_candidate(rows@[i as int]),
            ));
        }
    }
    assert(rows@.take(n as int) =~= rows@);
    out
}

/// Reads the host's pane listing: `stdout` as printed, and `rows`, what the JSON reader
/// made of it as a list of panes (`None` where it is not one). Plugins and exited panes
/// are dropped.
pub fn parse_pane_list_json(stdout: &[u8], rows: Option<Vec<PaneListRow>>) -> (r: Result<
    Vec<TerminalCandidate>,
    PaneListError,
>)
    ensures
        match r {
            Ok(v) => valid_utf8(stdout@) && rows is Some && candidates_view(v@) == live_terminals(
                rows->0@,
            ),
            Err(_) => !valid_utf8(stdout@) || rows is None,
        },
{
    if utf8_text(stdout).is_none() {
        return Err(PaneListError);
    }
    let rows = match rows {
        Some(r) => r,
        None => {
            return Err(PaneListError);
        },
    };
    Ok(live_candidates(rows.as_slice()))
}

} // verus!
