use vstd::prelude::*;

verus! {

/// An integer key: ordered by its value.
pub trait SortKey: Copy + Sized {
    spec fn rank(self) -> int;

    proof fn lemma_rank_injective(a: Self, b: Self)
        ensures
            a.rank() == b.rank() ==> a == b,
    ;

    fn precedes(&self, other: &Self) -> (r: bool)
        ensures
            r == (self.rank() < other.rank()),
    ;

    fn same(&self, other: &Self) -> (r: bool)
        ensures
            r == (*self == *other),
    ;
}

impl SortKey for u32 {
    open spec fn rank(self) -> int {
        self as int
    }

    proof fn lemma_rank_injective(a: Self, b: Self) {
    }

    fn precedes(&self, other: &Self) -> (r: bool) {
        *self < *other
    }

    fn same(&self, other: &Self) -> (r: bool) {
        *self == *other
    }
}

impl SortKey for usize {
    open spec fn rank(self) -> int {
        self as int
    }

    proof fn lemma_rank_injective(a: Self, b: Self) {
    }

    fn precedes(&self, other: &Self) -> (r: bool) {
        *self < *other
    }

    fn same(&self, other: &Self) -> (r: bool) {
        *self == *other
    }
}

/// The map that a list of entries spells, later entries winning.
pub open spec fn map_of<K, V>(s: Seq<(K, V)>) -> Map<K, V>
    decreases s.len(),
{
    if s.len() == 0 {
        Map::empty()
    } else {
        map_of(s.drop_last()).insert(s.last().0, s.last().1)
    }
}

/// Keys strictly increasing.
pub open spec fn ascending<K: SortKey, V>(s: Seq<(K, V)>) -> bool {
    forall|i: int, j: int| 0 <= i < j < s.len() ==> (#[trigger] s[i]).0.rank() < (#[trigger] s[j]).0.rank()
}

pub proof fn lemma_map_of_dom<K, V>(s: Seq<(K, V)>, k: K)
    ensures
        map_of(s).dom().contains(k) <==> exists|i: int| 0 <= i < s.len() && (#[trigger] s[i]).0 == k,
    decreases s.len(),
{
    if s.len() > 0 {
        lemma_map_of_dom(s.drop_last(), k);
        if map_of(s.drop_last()).dom().contains(k) {
            let i = choose|i: int| 0 <= i < s.drop_last().len() && (#[trigger] s.drop_last()[i]).0 == k;
            assert(s[i].0 == k);
        }
        if exists|i: int| 0 <= i < s.len() && (#[trigger] s[i]).0 == k {
            let i = choose|i: int| 0 <= i < s.len() && (#[trigger] s[i]).0 == k;
            if i < s.len() - 1 {
                assert(s.drop_last()[i].0 == k);
            }
        }
    }
}

pub proof fn lemma_map_of_value<K: SortKey, V>(s: Seq<(K, V)>, i: int)
    requires
        ascending(s),
        0 <= i < s.len(),
    ensures
        map_of(s).dom().contains(s[i].0),
        map_of(s)[s[i].0] == s[i].1,
    decreases s.len(),
{
    if i < s.len() - 1 {
        let t = s.drop_last();
        assert(t[i] == s[i]);
        assert forall|a: int, b: int| 0 <= a < b < t.len() implies (#[trigger] t[a]).0.rank() < (
        #[trigger] t[b]).0.rank() by {
            assert(t[a] == s[a] && t[b] == s[b]);
        }
        lemma_map_of_value(t, i);
        assert(s[i].0.rank() < s[s.len() - 1].0.rank());
    }
}

/// Keys pairwise distinct.
pub open spec fn distinct_keys<K, V>(s: Seq<(K, V)>) -> bool {
    forall|i: int, j: int| 0 <= i < j < s.len() ==> (#[trigger] s[i]).0 != (#[trigger] s[j]).0
}

pub proof fn lemma_map_of_value_distinct<K, V>(s: Seq<(K, V)>, i: int)
    requires
        distinct_keys(s),
        0 <= i < s.len(),
    ensures
        map_of(s).dom().contains(s[i].0),
        map_of(s)[s[i].0] == s[i].1,
    decreases s.len(),
{
    if i < s.len() - 1 {
        let t = s.drop_last();
        assert(t[i] == s[i]);
        assert forall|a: int, b: int| 0 <= a < b < t.len() implies (#[trigger] t[a]).0 != (
        #[trigger] t[b]).0 by {
            assert(t[a] == s[a] && t[b] == s[b]);
        }
        lemma_map_of_value_distinct(t, i);
        assert(s[i].0 != s[s.len() - 1].0);
    }
}

/// Two ascending lists spell the same map when each key of one sits in the other with
/// the same value.
pub proof fn lemma_same_map<K: SortKey, V>(s: Seq<(K, V)>, m: Map<K, V>)
    requires
        ascending(s),
        forall|i: int| 0 <= i < s.len() ==> m.dom().contains((#[trigger] s[i]).0) && m[s[i].0] == s[i].1,
        forall|k: K| m.dom().contains(k) ==> exists|i: int| 0 <= i < s.len() && (#[trigger] s[i]).0 == k,
    ensures
        map_of(s) == m,
{
    assert forall|k: K| #[trigger] map_of(s).dom().contains(k) == m.dom().contains(k) by {
        lemma_map_of_dom(s, k);
    }
    assert forall|k: K| map_of(s).dom().contains(k) implies #[trigger] map_of(s)[k] == m[k] by {
        lemma_map_of_dom(s, k);
        let i = choose|i: int| 0 <= i < s.len() && (#[trigger] s[i]).0 == k;
        lemma_map_of_value(s, i);
    }
    assert(map_of(s) =~= m);
}

/// The ascending listing of a map's entries.
pub open spec fn sorted_entries<K: SortKey, V>(m: Map<K, V>) -> Seq<(K, V)> {
    choose|s: Seq<(K, V)>| ascending(s) && map_of(s) == m
}

/// The entries with each value mapped.
pub open spec fn map_pairs<K, V, W>(s: Seq<(K, V)>, f: spec_fn(V) -> W) -> Seq<(K, W)> {
    s.map_values(|e: (K, V)| (e.0, f(e.1)))
}

pub proof fn lemma_map_of_map_pairs<K, V, W>(s: Seq<(K, V)>, f: spec_fn(V) -> W)
    ensures
        map_of(map_pairs(s, f)) == map_of(s).map_values(f),
    decreases s.len(),
{
    if s.len() == 0 {
        assert(map_of(s).map_values(f) =~= Map::<K, W>::empty());
    } else {
        lemma_map_of_map_pairs(s.drop_last(), f);
        assert(map_pairs(s, f).drop_last() =~= map_pairs(s.drop_last(), f));
        assert(map_of(s).map_values(f) =~= map_of(s.drop_last()).map_values(f).insert(
            s.last().0,
            f(s.last().1),
        ));
    }
}

pub proof fn lemma_map_pairs_ascending<K: SortKey, V, W>(s: Seq<(K, V)>, f: spec_fn(V) -> W)
    requires
        ascending(s),
    ensures
        ascending(map_pairs(s, f)),
{
    let t = map_pairs(s, f);
    assert forall|i: int, j: int| 0 <= i < j < t.len() implies (#[trigger] t[i]).0.rank() < (
    #[trigger] t[j]).0.rank() by {
        assert(t[i].0 == s[i].0 && t[j].0 == s[j].0);
    }
}

/// An ascending listing is determined by its map.
pub proof fn lemma_ascending_unique<K: SortKey, V>(s: Seq<(K, V)>, t: Seq<(K, V)>)
    requires
        ascending(s),
        ascending(t),
        map_of(s) == map_of(t),
    ensures
        s == t,
    decreases s.len(),
{
    lemma_len_of_ascending(s);
    lemma_len_of_ascending(t);
    if s.len() > 0 {
        let m = map_of(s);
        let a = s.last().0;
        let b = t.last().0;
        lemma_map_of_value(s, s.len() - 1);
        lemma_map_of_value(t, t.len() - 1);
        lemma_map_of_dom(s, b);
        lemma_map_of_dom(t, a);
        let i = choose|i: int| 0 <= i < s.len() && (#[trigger] s[i]).0 == b;
        let j = choose|j: int| 0 <= j < t.len() && (#[trigger] t[j]).0 == a;
        if i < s.len() - 1 {
            assert(s[i].0.rank() < s[s.len() - 1].0.rank());
        }
        if j < t.len() - 1 {
            assert(t[j].0.rank() < t[t.len() - 1].0.rank());
        }
        K::lemma_rank_injective(a, b);
        assert(s.last() == t.last());
        let s2 = s.drop_last();
        let t2 = t.drop_last();
        assert forall|x: int, y: int| 0 <= x < y < s2.len() implies (#[trigger] s2[x]).0.rank() < (
        #[trigger] s2[y]).0.rank() by {
            assert(s2[x] == s[x] && s2[y] == s[y]);
        }
        assert forall|x: int, y: int| 0 <= x < y < t2.len() implies (#[trigger] t2[x]).0.rank() < (
        #[trigger] t2[y]).0.rank() by {
            assert(t2[x] == t[x] && t2[y] == t[y]);
        }
        lemma_not_in_prefix(s, a);
        lemma_not_in_prefix(t, a);
        assert(map_of(s2) =~= m.remove(a));
        assert(map_of(t2) =~= m.remove(a));
        lemma_ascending_unique(s2, t2);
        assert(s =~= s2.push(s.last()));
        assert(t =~= t2.push(t.last()));
    }
}

/// The last key of an ascending list does not occur before it.
proof fn lemma_not_in_prefix<K: SortKey, V>(s: Seq<(K, V)>, a: K)
    requires
        ascending(s),
        s.len() > 0,
        a == s.last().0,
    ensures
        !map_of(s.drop_last()).dom().contains(a),
        map_of(s.drop_last()) == map_of(s).remove(a),
{
    let t = s.drop_last();
    lemma_map_of_dom(t, a);
    if exists|i: int| 0 <= i < t.len() && (#[trigger] t[i]).0 == a {
        let i = choose|i: int| 0 <= i < t.len() && (#[trigger] t[i]).0 == a;
        assert(s[i].0.rank() < s[s.len() - 1].0.rank());
    }
    assert(map_of(s).remove(a) =~= map_of(t));
}

/// The keys of a map's ascending listing.
pub open spec fn keys_of<K: SortKey, V>(m: Map<K, V>) -> Seq<K> {
    sorted_entries(m).map_values(|e: (K, V)| e.0)
}

/// A strictly increasing list of exactly the keys of a finite map is its key listing.
pub proof fn lemma_listing_keys<V>(ids: Seq<u32>, m: Map<u32, V>)
    requires
        forall|i: int, j: int| 0 <= i < j < ids.len() ==> ids[i] < ids[j],
        forall|k: u32| #[trigger] ids.contains(k) <==> m.dom().contains(k),
    ensures
        ids == keys_of(m),
{
    let s = ids.map_values(|k: u32| (k, m[k]));
    assert forall|a: int, b: int| 0 <= a < b < s.len() implies (#[trigger] s[a]).0.rank() < (
    #[trigger] s[b]).0.rank() by {
        assert(s[a].0 == ids[a] && s[b].0 == ids[b]);
    }
    assert forall|i: int| 0 <= i < s.len() implies m.dom().contains((#[trigger] s[i]).0) && m[s[i].0]
        == s[i].1 by {
        assert(ids.contains(ids[i]));
    }
    assert forall|k: u32| m.dom().contains(k) implies exists|i: int|
        0 <= i < s.len() && (#[trigger] s[i]).0 == k by {
        assert(ids.contains(k));
        let i = choose|i: int| 0 <= i < ids.len() && ids[i] == k;
        assert(s[i].0 == k);
    }
    lemma_same_map(s, m);
    let c = sorted_entries(m);
    assert(ascending(s) && map_of(s) == m);
    lemma_ascending_unique(s, c);
    assert(ids =~= keys_of(m));
}

/// A map with keys kept in ascending order.
#[derive(Debug)]
pub struct IdMap<K, V> {
    entries: Vec<(K, V)>,
}

impl<K: SortKey, V> IdMap<K, V> {
    /// The entries in ascending key order.
    pub closed spec fn entries(&self) -> Seq<(K, V)> {
        self.entries@
    }

    pub closed spec fn view(&self) -> Map<K, V> {
        map_of(self.entries@)
    }

    pub closed spec fn wf(&self) -> bool {
        ascending(self.entries@)
    }

    /// The entries spell the map, in ascending key order.
    pub proof fn lemma_entries(&self)
        requires
            self.wf(),
        ensures
            ascending(self.entries()),
            map_of(self.entries()) == self.view(),
            self.entries().len() == self.view().dom().len(),
            forall|i: int|
                0 <= i < self.entries().len() ==> self.view().dom().contains(
                    (#[trigger] self.entries()[i]).0,
                ) && self.view()[self.entries()[i].0] == self.entries()[i].1,
            forall|k: K|
                #[trigger] self.view().dom().contains(k) ==> exists|i: int|
                    0 <= i < self.entries().len() && (#[trigger] self.entries()[i]).0 == k,
    {
        let s = self.entries@;
        assert forall|i: int| 0 <= i < s.len() implies map_of(s).dom().contains((#[trigger] s[i]).0)
            && map_of(s)[s[i].0] == s[i].1 by {
            lemma_map_of_value(s, i);
        }
        assert forall|k: K| #[trigger] map_of(s).dom().contains(k) implies exists|i: int|
            0 <= i < s.len() && (#[trigger] s[i]).0 == k by {
            lemma_map_of_dom(s, k);
        }
        lemma_len_of_ascending(s);
    }

    /// The entries are the ascending listing of the map.
    pub proof fn lemma_sorted_entries(&self)
        requires
            self.wf(),
        ensures
            self.entries() == sorted_entries(self.view()),
    {
        let s = self.entries@;
        let c = sorted_entries(map_of(s));
        assert(ascending(s) && map_of(s) == map_of(s));
        lemma_ascending_unique(s, c);
    }

    /// The ascending listing of the map with its values mapped.
    pub proof fn lemma_sorted_entries_mapped<W>(&self, f: spec_fn(V) -> W)
        requires
            self.wf(),
        ensures
            sorted_entries(self.view().map_values(f)) == map_pairs(self.entries(), f),
    {
        let s = self.entries@;
        let t = map_pairs(s, f);
        lemma_map_of_map_pairs(s, f);
        lemma_map_pairs_ascending(s, f);
        let c = sorted_entries(map_of(s).map_values(f));
        assert(ascending(t) && map_of(t) == map_of(s).map_values(f));
        lemma_ascending_unique(t, c);
    }

    pub fn new() -> (r: Self)
        ensures
            r.wf(),
            r.view() == Map::<K, V>::empty(),
            r.entries().len() == 0,
    {
        IdMap { entries: Vec::new() }
    }

    pub fn len(&self) -> (r: usize)
        ensures
            r == self.entries().len(),
    {
        self.entries.len()
    }

    /// The entries, in ascending key order.
    pub fn as_slice(&self) -> (r: &[(K, V)])
        ensures
            r@ == self.entries(),
    {
        self.entries.as_slice()
    }

    /// Where `k` sits, or where it would go.
    fn locate(&self, k: &K) -> (r: (usize, bool))
        requires
            self.wf(),
        ensures
            r.0 <= self.entries@.len(),
            forall|j: int| 0 <= j < r.0 ==> (#[trigger] self.entries@[j]).0.rank() < k.rank(),
            r.1 ==> r.0 < self.entries@.len() && self.entries@[r.0 as int].0 == *k,
            !r.1 ==> r.0 == self.entries@.len() || k.rank() < self.entries@[r.0 as int].0.rank(),
    {
        let n = self.entries.len();
        let mut i: usize = 0;
        while i < n
            invariant
                n == self.entries@.len(),
                i <= n,
                forall|j: int| 0 <= j < i ==> (#[trigger] self.entries@[j]).0.rank() < k.rank(),
            decreases n - i,
        {
            let key = &self.entries[i].0;
            if key.same(k) {
                return (i, true);
            }
            if !key.precedes(k) {
                proof {
                    K::lemma_rank_injective(*key, *k);
                }
                return (i, false);
            }
            i = i + 1;
        }
        (n, false)
    }

    pub fn contains(&self, k: &K) -> (r: bool)
        requires
            self.wf(),
        ensures
            r == self.view().dom().contains(*k),
    {
        let (i, found) = self.locate(k);
        proof {
            lemma_map_of_dom(self.entries@, *k);
            if !found {
                self.lemma_absent(*k, i as int);
            }
        }
        found
    }

    pub fn get(&self, k: &K) -> (r: Option<&V>)
        requires
            self.wf(),
        ensures
            match r {
                Some(v) => self.view().dom().contains(*k) && self.view()[*k] == *v,
                None => !self.view().dom().contains(*k),
            },
    {
        let (i, found) = self.locate(k);
        if found {
            proof {
                lemma_map_of_value(self.entries@, i as int);
            }
            Some(&self.entries[i].1)
        } else {
            proof {
                self.lemma_absent(*k, i as int);
            }
            None
        }
    }

    proof fn lemma_absent(&self, k: K, i: int)
        requires
            self.wf(),
            0 <= i <= self.entries@.len(),
            forall|j: int| 0 <= j < i ==> (#[trigger] self.entries@[j]).0.rank() < k.rank(),
            i == self.entries@.len() || k.rank() < self.entries@[i].0.rank(),
        ensures
            !self.view().dom().contains(k),
    {
        let s = self.entries@;
        lemma_map_of_dom(s, k);
        if exists|j: int| 0 <= j < s.len() && (#[trigger] s[j]).0 == k {
            let j = choose|j: int| 0 <= j < s.len() && (#[trigger] s[j]).0 == k;
            if j > i {
                assert(s[i].0.rank() < s[j].0.rank());
            }
        }
    }

    /// Sets the value of `k`, adding the key where it is new.
    pub fn insert(&mut self, k: K, v: V)
        requires
            old(self).wf(),
        ensures
            final(self).wf(),
            final(self).view() == old(self).view().insert(k, v),
    {
        let (i, found) = self.locate(&k);
        let ghost s = self.entries@;
        if found {
            self.entries.set(i, (k, v));
            proof {
                assert(self.entries@ =~= s.update(i as int, (k, v)));
                lemma_update_entry(s, i as int, k, v);
                lemma_insert_view(s, self.entries@, k, v);
            }
        } else {
            self.entries.insert(i, (k, v));
            proof {
                assert(self.entries@ =~= s.insert(i as int, (k, v)));
                lemma_insert_entry(s, i as int, k, v);
                lemma_insert_view(s, self.entries@, k, v);
            }
        }
    }

    /// Drops `k` and its value, if present.
    pub fn remove(&mut self, k: &K)
        requires
            old(self).wf(),
        ensures
            final(self).wf(),
            final(self).view() == old(self).view().remove(*k),
    {
        let (i, found) = self.locate(k);
        let ghost s = self.entries@;
        let ghost m = map_of(s);
        if found {
            self.entries.remove(i);
            proof {
                let t = self.entries@;
                assert(t =~= s.remove(i as int));
                s.remove_ensures(i as int);
                assert(ascending(t)) by {
                    assert forall|a: int, b: int| 0 <= a < b < t.len() implies (#[trigger] t[a]).0.rank()
                        < (#[trigger] t[b]).0.rank() by {
                        let a2 = if a < i { a } else { a + 1 };
                        let b2 = if b < i { b } else { b + 1 };
                        assert(t[a] == s[a2]);
                        assert(t[b] == s[b2]);
                        assert(s[a2].0.rank() < s[b2].0.rank());
                    }
                }
                let n = m.remove(*k);
                assert forall|x: int| 0 <= x < t.len() implies n.dom().contains((#[trigger] t[x]).0)
                    && n[t[x].0] == t[x].1 by {
                    let x2 = if x < i { x } else { x + 1 };
                    assert(t[x] == s[x2]);
                    lemma_map_of_value(s, x2);
                    assert(s[x2].0.rank() != s[i as int].0.rank());
                }
                assert forall|key: K| n.dom().contains(key) implies exists|x: int|
                    0 <= x < t.len() && (#[trigger] t[x]).0 == key by {
                    lemma_map_of_dom(s, key);
                    let j = choose|j: int| 0 <= j < s.len() && (#[trigger] s[j]).0 == key;
                    if j < i {
                        assert(t[j].0 == key);
                    } else {
                        assert(j != i);
                        assert(t[j - 1] == s[j]);
                        assert(t[j - 1].0 == key);
                    }
                }
                lemma_same_map(t, n);
            }
        } else {
            proof {
                self.lemma_absent(*k, i as int);
                assert(m.remove(*k) =~= m);
            }
        }
    }

    /// The keys, in ascending order.
    pub fn keys(&self) -> (r: Vec<K>)
        ensures
            r@ == self.entries().map_values(|e: (K, V)| e.0),
    {
        let mut r: Vec<K> = Vec::new();
        let n = self.entries.len();
        for i in 0..n
            invariant
                n == self.entries@.len(),
                r@ == self.entries@.take(i as int).map_values(|e: (K, V)| e.0),
        {
            r.push(self.entries[i].0);
            assert(r@ =~= self.entries@.take(i + 1).map_values(|e: (K, V)| e.0));
        }
        assert(self.entries@.take(n as int) =~= self.entries@);
        r
    }
}

/// An ascending list has as many entries as its map has keys.
proof fn lemma_len_of_ascending<K: SortKey, V>(s: Seq<(K, V)>)
    requires
        ascending(s),
    ensures
        map_of(s).dom().len() == s.len(),
        map_of(s).dom().finite(),
    decreases s.len(),
{
    if s.len() > 0 {
        let t = s.drop_last();
        assert forall|a: int, b: int| 0 <= a < b < t.len() implies (#[trigger] t[a]).0.rank() < (
        #[trigger] t[b]).0.rank() by {
            assert(t[a] == s[a] && t[b] == s[b]);
        }
        lemma_len_of_ascending(t);
        lemma_map_of_dom(t, s.last().0);
        if map_of(t).dom().contains(s.last().0) {
            let j = choose|j: int| 0 <= j < t.len() && (#[trigger] t[j]).0 == s.last().0;
            assert(s[j].0.rank() < s[s.len() - 1].0.rank());
        }
    }
}

/// Overwriting the entry of `k` keeps the list ascending.
#[verifier::spinoff_prover]
proof fn lemma_update_entry<K: SortKey, V>(s: Seq<(K, V)>, i: int, k: K, v: V)
    requires
        ascending(s),
        0 <= i < s.len(),
        s[i].0 == k,
    ensures
        ascending(s.update(i, (k, v))),
        forall|x: int| 0 <= x < s.len() ==> (#[trigger] s.update(i, (k, v))[x]).0 == k || exists|j: int|
            0 <= j < s.len() && (#[trigger] s[j]) == s.update(i, (k, v))[x],
        exists|x: int| 0 <= x < s.len() && (#[trigger] s.update(i, (k, v))[x]) == (k, v),
        forall|j: int| 0 <= j < s.len() && (#[trigger] s[j]).0 != k ==> exists|x: int|
            0 <= x < s.len() && (#[trigger] s.update(i, (k, v))[x]) == s[j],
{
    let t = s.update(i, (k, v));
    assert forall|a: int, b: int| 0 <= a < b < t.len() implies (#[trigger] t[a]).0.rank() < (
    #[trigger] t[b]).0.rank() by {
        assert(s[a].0.rank() < s[b].0.rank());
    }
    assert forall|x: int| 0 <= x < t.len() implies (#[trigger] t[x]).0 == k || exists|j: int|
        0 <= j < s.len() && (#[trigger] s[j]) == t[x] by {
        if x != i {
            assert(s[x] == t[x]);
        }
    }
    assert(t[i] == (k, v));
    assert forall|j: int| 0 <= j < s.len() && (#[trigger] s[j]).0 != k implies exists|x: int|
        0 <= x < t.len() && (#[trigger] t[x]) == s[j] by {
        assert(t[j] == s[j]);
    }
}

/// Placing a new key at its place keeps the list ascending.
#[verifier::spinoff_prover]
#[verifier::rlimit(50)]
proof fn lemma_insert_entry<K: SortKey, V>(s: Seq<(K, V)>, i: int, k: K, v: V)
    requires
        ascending(s),
        0 <= i <= s.len(),
        forall|j: int| 0 <= j < i ==> (#[trigger] s[j]).0.rank() < k.rank(),
        i == s.len() || k.rank() < s[i].0.rank(),
    ensures
        ascending(s.insert(i, (k, v))),
        forall|x: int| 0 <= x < s.len() + 1 ==> (#[trigger] s.insert(i, (k, v))[x]).0 == k || exists|j: int|
            0 <= j < s.len() && (#[trigger] s[j]) == s.insert(i, (k, v))[x],
        exists|x: int| 0 <= x < s.len() + 1 && (#[trigger] s.insert(i, (k, v))[x]) == (k, v),
        forall|j: int| 0 <= j < s.len() && (#[trigger] s[j]).0 != k ==> exists|x: int|
            0 <= x < s.len() + 1 && (#[trigger] s.insert(i, (k, v))[x]) == s[j],
{
    let t = s.insert(i, (k, v));
    s.insert_ensures(i, (k, v));
    assert forall|a: int, b: int| 0 <= a < b < t.len() implies (#[trigger] t[a]).0.rank() < (
    #[trigger] t[b]).0.rank() by {
        if a < i {
            assert(t[a] == s[a]);
        } else if a > i {
            assert(t[a] == s[a - 1]);
        }
        if b < i {
            assert(t[b] == s[b]);
        } else if b > i {
            assert(t[b] == s[b - 1]);
        }
        if a < i && b > i && b - 1 > i {
            assert(s[i].0.rank() < s[b - 1].0.rank());
        }
        if a < i && b > i && b - 1 >= i {
            assert(s[a].0.rank() < k.rank());
        }
        if a == i && b - 1 > i {
            assert(s[i].0.rank() < s[b - 1].0.rank());
        }
    }
    assert forall|x: int| 0 <= x < t.len() implies (#[trigger] t[x]).0 == k || exists|j: int|
        0 <= j < s.len() && (#[trigger] s[j]) == t[x] by {
        if x < i {
            assert(s[x] == t[x]);
        } else if x > i {
            assert(s[x - 1] == t[x]);
        }
    }
    assert(t[i] == (k, v));
    assert forall|j: int| 0 <= j < s.len() && (#[trigger] s[j]).0 != k implies exists|x: int|
        0 <= x < t.len() && (#[trigger] t[x]) == s[j] by {
        if j < i {
            assert(t[j] == s[j]);
        } else {
            assert(t[j + 1] == s[j]);
        }
    }
}

/// A list holding `(k, v)`, and otherwise exactly the entries of `s` for other keys,
/// spells the map of `s` with `k` set to `v`.
proof fn lemma_insert_view<K: SortKey, V>(s: Seq<(K, V)>, t: Seq<(K, V)>, k: K, v: V)
    requires
        ascending(s),
        ascending(t),
        forall|i: int| 0 <= i < t.len() ==> (#[trigger] t[i]).0 == k || exists|j: int|
            0 <= j < s.len() && (#[trigger] s[j]) == t[i],
        exists|i: int| 0 <= i < t.len() && (#[trigger] t[i]) == (k, v),
        forall|j: int| 0 <= j < s.len() && (#[trigger] s[j]).0 != k ==> exists|i: int|
            0 <= i < t.len() && (#[trigger] t[i]) == s[j],
    ensures
        map_of(t) == map_of(s).insert(k, v),
{
    let m = map_of(s);
    let n = m.insert(k, v);
    assert forall|i: int| 0 <= i < t.len() implies n.dom().contains((#[trigger] t[i]).0) && n[t[i].0]
        == t[i].1 by {
        if t[i].0 != k {
            let j = choose|j: int| 0 <= j < s.len() && (#[trigger] s[j]) == t[i];
            lemma_map_of_value(s, j);
        } else {
            let w = choose|w: int| 0 <= w < t.len() && (#[trigger] t[w]) == (k, v);
            if w != i {
                assert(t[i].0.rank() != t[w].0.rank());
            }
        }
    }
    assert forall|key: K| n.dom().contains(key) implies exists|i: int|
        0 <= i < t.len() && (#[trigger] t[i]).0 == key by {
        if key != k {
            lemma_map_of_dom(s, key);
            let j = choose|j: int| 0 <= j < s.len() && (#[trigger] s[j]).0 == key;
            let i = choose|i: int| 0 <= i < t.len() && (#[trigger] t[i]) == s[j];
            assert(t[i].0 == key);
        } else {
            let w = choose|w: int| 0 <= w < t.len() && (#[trigger] t[w]) == (k, v);
            assert(t[w].0 == key);
        }
    }
    lemma_same_map(t, n);
}

} // verus!
