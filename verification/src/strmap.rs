use vstd::prelude::*;

use crate::idmap::{distinct_keys, lemma_map_of_dom, lemma_map_of_value_distinct, map_of};
use crate::text::str_eq;

verus! {

pub open spec fn pair_view(e: (String, String)) -> (Seq<char>, Seq<char>) {
    (e.0@, e.1@)
}

pub open spec fn pairs_view(s: Seq<(String, String)>) -> Seq<(Seq<char>, Seq<char>)> {
    s.map_values(|e: (String, String)| pair_view(e))
}

/// A map from strings to strings, each key held once.
#[derive(Debug)]
pub struct StringMap {
    entries: Vec<(String, String)>,
}

impl StringMap {
    #[verifier::type_invariant]
    closed spec fn inv(self) -> bool {
        distinct_keys(pairs_view(self.entries@))
    }

    pub closed spec fn view(&self) -> Map<Seq<char>, Seq<char>> {
        map_of(pairs_view(self.entries@))
    }

    /// The entries, in the order their keys were first set.
    pub closed spec fn pairs(&self) -> Seq<(Seq<char>, Seq<char>)> {
        pairs_view(self.entries@)
    }

    pub fn new() -> (r: Self)
        ensures
            r@ == Map::<Seq<char>, Seq<char>>::empty(),
            r.pairs().len() == 0,
    {
        let r = StringMap { entries: Vec::new() };
        assert(pairs_view(r.entries@) =~= Seq::empty());
        r
    }

    /// Where the key sits, if present.
    fn find(&self, key: &str) -> (r: Option<usize>)
        ensures
            match r {
                Some(i) => i < self.entries@.len() && self.entries@[i as int].0@ == key@,
                None => forall|j: int| 0 <= j < self.entries@.len() ==> (#[trigger] self.entries@[j]).0@ != key@,
            },
    {
        let n = self.entries.len();
        for i in 0..n
            invariant
                n == self.entries@.len(),
                forall|j: int| 0 <= j < i ==> (#[trigger] self.entries@[j]).0@ != key@,
        {
            if str_eq(self.entries[i].0.as_str(), key) {
                return Some(i);
            }
        }
        None
    }

    /// The value of `key`.
    pub fn get(&self, key: &str) -> (r: Option<&str>)
        ensures
            match r {
                Some(v) => self@.dom().contains(key@) && self@[key@] == v@,
                None => !self@.dom().contains(key@),
            },
    {
        proof {
            use_type_invariant(self);
        }
        let ghost p = pairs_view(self.entries@);
        match self.find(key) {
            Some(i) => {
                proof {
                    assert(p[i as int] == pair_view(self.entries@[i as int]));
                    lemma_map_of_value_distinct(p, i as int);
                }
                Some(self.entries[i].1.as_str())
            },
            None => {
                proof {
                    lemma_map_of_dom(p, key@);
                    if exists|j: int| 0 <= j < p.len() && (#[trigger] p[j]).0 == key@ {
                        let j = choose|j: int| 0 <= j < p.len() && (#[trigger] p[j]).0 == key@;
                        assert(p[j] == pair_view(self.entries@[j]));
                    }
                }
                None
            },
        }
    }

    /// Sets the value of `key`, adding the key where it is new.
    pub fn insert(&mut self, key: String, value: String)
        ensures
            final(self)@ == old(self)@.insert(key@, value@),
    {
        proof {
            use_type_invariant(&*self);
        }
        let ghost p = pairs_view(self.entries@);
        let ghost kv = (key@, value@);
        let found = self.find(key.as_str());
        let mut entries = Vec::new();
        std::mem::swap(&mut entries, &mut self.entries);
        match found {
            Some(i) => {
                entries.set(i, (key, value));
                proof {
                    let q = pairs_view(entries@);
                    assert(q =~= p.update(i as int, kv));
                    assert(distinct_keys(q)) by {
                        assert forall|a: int, b: int| 0 <= a < b < q.len() implies (#[trigger] q[a]).0 != (
                        #[trigger] q[b]).0 by {
                            assert(p[a].0 != p[b].0);
                        }
                    }
                    assert(q[i as int] == kv);
                    assert forall|x: int| 0 <= x < q.len() implies (#[trigger] q[x]).0 == kv.0 || p.contains(q[x]) by {
                        if x != i {
                            assert(q[x] == p[x]);
                        }
                    }
                    assert forall|x: int| 0 <= x < p.len() && (#[trigger] p[x]).0 != kv.0 implies q.contains(p[x]) by {
                        assert(q[x] == p[x]);
                    }
                    lemma_set_view(p, q, kv);
                }
            },
            None => {
                entries.push((key, value));
                proof {
                    let q = pairs_view(entries@);
                    assert(q =~= p.push(kv));
                    assert(distinct_keys(q)) by {
                        assert forall|a: int, b: int| 0 <= a < b < q.len() implies (#[trigger] q[a]).0 != (
                        #[trigger] q[b]).0 by {
                            if b == p.len() {
                                assert(p[a] == pair_view(old(self).entries@[a]));
                            }
                        }
                    }
                    assert(q[p.len() as int] == kv);
                    assert forall|x: int| 0 <= x < q.len() implies (#[trigger] q[x]).0 == kv.0 || p.contains(q[x]) by {
                        if x < p.len() {
                            assert(q[x] == p[x]);
                        }
                    }
                    assert forall|x: int| 0 <= x < p.len() && (#[trigger] p[x]).0 != kv.0 implies q.contains(p[x]) by {
                        assert(q[x] == p[x]);
                    }
                    lemma_set_view(p, q, kv);
                }
            },
        }
        self.entries = entries;
    }

    /// The entries, in the order their keys were first set.
    pub fn as_slice(&self) -> (r: &[(String, String)])
        ensures
            pairs_view(r@) == self.pairs(),
    {
        self.entries.as_slice()
    }
}

proof fn lemma_set_view(
        p: Seq<(Seq<char>, Seq<char>)>,
        q: Seq<(Seq<char>, Seq<char>)>,
        kv: (Seq<char>, Seq<char>),
    )
        requires
            distinct_keys(p),
            distinct_keys(q),
            q.contains(kv),
            forall|i: int| 0 <= i < q.len() ==> (#[trigger] q[i]).0 == kv.0 || p.contains(q[i]),
            forall|i: int| 0 <= i < p.len() && (#[trigger] p[i]).0 != kv.0 ==> q.contains(p[i]),
        ensures
            map_of(q) == map_of(p).insert(kv.0, kv.1),
    {
        let m = map_of(p).insert(kv.0, kv.1);
        assert forall|k: Seq<char>| #[trigger] map_of(q).dom().contains(k) == m.dom().contains(k) by {
            lemma_map_of_dom(q, k);
            lemma_map_of_dom(p, k);
            if k != kv.0 && m.dom().contains(k) {
                let j = choose|j: int| 0 <= j < p.len() && (#[trigger] p[j]).0 == k;
                assert(q.contains(p[j]));
            }
            if k != kv.0 && map_of(q).dom().contains(k) {
                let j = choose|j: int| 0 <= j < q.len() && (#[trigger] q[j]).0 == k;
                assert(p.contains(q[j]));
            }
        }
        assert forall|k: Seq<char>| map_of(q).dom().contains(k) implies #[trigger] map_of(q)[k] == m[k] by {
            lemma_map_of_dom(q, k);
            let j = choose|j: int| 0 <= j < q.len() && (#[trigger] q[j]).0 == k;
            lemma_map_of_value_distinct(q, j);
            if k == kv.0 {
                let w = choose|w: int| 0 <= w < q.len() && q[w] == kv;
                if w != j {
                    assert(q[w].0 != q[j].0);
                }
            } else {
                let a = choose|a: int| 0 <= a < p.len() && p[a] == q[j];
                lemma_map_of_value_distinct(p, a);
            }
        }
        assert(map_of(q) =~= m);
    }


} // verus!
