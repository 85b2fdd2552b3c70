//! A map from strings to strings, kept as entries with distinct keys.
use crate::text::same_text;
use vstd::prelude::*;

verus! {

/// One entry of a map: key and value.
pub type PairView = (Seq<char>, Seq<char>);

/// The map that results from inserting the pairs in order.
pub open spec fn pairs_map(pairs: Seq<PairView>) -> Map<Seq<char>, Seq<char>>
    decreases pairs.len(),
{
    if pairs.len() == 0 {
        Map::empty()
    } else {
        pairs_map(pairs.drop_last()).insert(pairs.last().0, pairs.last().1)
    }
}

/// No two pairs have the same key.
pub open spec fn distinct_keys(pairs: Seq<PairView>) -> bool {
    forall|i: int, j: int|
        0 <= i < j < pairs.len() ==> (#[trigger] pairs[i]).0 != (#[trigger] pairs[j]).0
}

/// The pairs are the entries of the map, each once.
pub open spec fn lists(pairs: Seq<PairView>, map: Map<Seq<char>, Seq<char>>) -> bool {
    &&& distinct_keys(pairs)
    &&& forall|i: int|
        #![trigger pairs[i]]
        0 <= i < pairs.len() ==> map.contains_key(pairs[i].0) && map[pairs[i].0] == pairs[i].1
    &&& forall|k: Seq<char>| #[trigger]
        map.contains_key(k) ==> exists|i: int| 0 <= i < pairs.len() && (#[trigger] pairs[i]).0 == k
}

/// A map from strings to strings.
#[derive(Debug)]
pub struct StringMap {
    entries: Vec<(String, String)>,
}

impl View for StringMap {
    type V = Map<Seq<char>, Seq<char>>;

    open spec fn view(&self) -> Map<Seq<char>, Seq<char>> {
        pairs_map(self.pairs())
    }
}

proof fn lemma_pairs_map(pairs: Seq<PairView>)
    requires
        distinct_keys(pairs),
    ensures
        pairs_map(pairs).dom().finite(),
        pairs_map(pairs).dom().len() == pairs.len(),
        forall|i: int|
            #![trigger pairs[i]]
            0 <= i < pairs.len() ==> pairs_map(pairs).contains_key(pairs[i].0) && pairs_map(
                pairs,
            )[pairs[i].0] == pairs[i].1,
        forall|k: Seq<char>| #[trigger]
            pairs_map(pairs).contains_key(k) ==> exists|i: int|
                0 <= i < pairs.len() && (#[trigger] pairs[i]).0 == k,
    decreases pairs.len(),
{
    if pairs.len() > 0 {
        let front = pairs.drop_last();
        assert forall|i: int, j: int| 0 <= i < j < front.len() implies (#[trigger] front[i]).0 != (
        #[trigger] front[j]).0 by {
            assert(front[i] == pairs[i] && front[j] == pairs[j]);
        }
        lemma_pairs_map(front);
        let last = pairs.last();
        assert(!pairs_map(front).contains_key(last.0)) by {
            if pairs_map(front).contains_key(last.0) {
                let i = choose|i: int| 0 <= i < front.len() && (#[trigger] front[i]).0 == last.0;
                assert(pairs[i] == front[i]);
                assert(pairs[pairs.len() - 1] == last);
            }
        }
        assert forall|i: int| #![trigger pairs[i]] 0 <= i < pairs.len() implies pairs_map(
            pairs,
        ).contains_key(pairs[i].0) && pairs_map(pairs)[pairs[i].0] == pairs[i].1 by {
            if i < front.len() {
                assert(front[i] == pairs[i]);
                assert(pairs[i].0 != pairs[pairs.len() - 1].0);
            }
        }
        assert forall|k: Seq<char>| #[trigger] pairs_map(pairs).contains_key(k) implies exists|
            i: int,
        |
            0 <= i < pairs.len() && (#[trigger] pairs[i]).0 == k by {
            if k == last.0 {
                assert(pairs[pairs.len() - 1].0 == k);
            } else {
                assert(pairs_map(front).contains_key(k));
                let i = choose|i: int| 0 <= i < front.len() && (#[trigger] front[i]).0 == k;
                assert(pairs[i] == front[i]);
            }
        }
    }
}

impl StringMap {
    /// The entries in storage order.
    pub closed spec fn pairs(&self) -> Seq<PairView> {
        self.entries@.map_values(|e: (String, String)| (e.0@, e.1@))
    }

    #[verifier::type_invariant]
    spec fn keys_are_distinct(self) -> bool {
        distinct_keys(self.pairs())
    }

    /// The empty map.
    pub fn new() -> (m: StringMap)
        ensures
            m@ == Map::<Seq<char>, Seq<char>>::empty(),
            m.pairs() == Seq::<PairView>::empty(),
    {
        let entries: Vec<(String, String)> = Vec::new();
        assert(entries@.map_values(|e: (String, String)| (e.0@, e.1@)) =~= Seq::<
            PairView,
        >::empty());
        StringMap { entries }
    }

    /// How many keys the map has.
    pub fn len(&self) -> (n: usize)
        ensures
            n == self@.dom().len(),
            n == self.pairs().len(),
            self@.dom().finite(),
            lists(self.pairs(), self@),
    {
        proof {
            use_type_invariant(self);
            lemma_pairs_map(self.pairs());
        }
        self.entries.len()
    }

    /// Whether the map has no key.
    pub fn is_empty(&self) -> (r: bool)
        ensures
            r == (self@ == Map::<Seq<char>, Seq<char>>::empty()),
    {
        proof {
            use_type_invariant(self);
            lemma_pairs_map(self.pairs());
        }
        let r = self.entries.len() == 0;
        proof {
            if !r {
                assert(self@.contains_key(self.pairs()[0].0));
            }
        }
        r
    }

    /// The entry at position `i`.
    pub fn entry(&self, i: usize) -> (e: (&String, &String))
        requires
            i < self.pairs().len(),
        ensures
            (e.0@, e.1@) == self.pairs()[i as int],
    {
        let e = &self.entries[i];
        (&e.0, &e.1)
    }

    /// Looks a key up.
    pub fn get(&self, key: &str) -> (r: Option<&String>)
        ensures
            r is Some <==> self@.contains_key(key@),
            r matches Some(v) ==> v@ == self@[key@],
    {
        proof {
            use_type_invariant(self);
            lemma_pairs_map(self.pairs());
        }
        let mut i: usize = 0;
        while i < self.entries.len()
            invariant
                i <= self.entries@.len(),
                self.pairs().len() == self.entries@.len(),
                forall|j: int| 0 <= j < i ==> (#[trigger] self.pairs()[j]).0 != key@,
                forall|j: int|
                    #![trigger self.pairs()[j]]
                    0 <= j < self.pairs().len() ==> self@.contains_key(self.pairs()[j].0)
                        && self@[self.pairs()[j].0] == self.pairs()[j].1,
            decreases self.entries@.len() - i,
        {
            assert(self.pairs()[i as int] == (
                self.entries@[i as int].0@,
                self.entries@[i as int].1@,
            ));
            if same_text(self.entries[i].0.as_str(), key) {
                return Some(&self.entries[i].1);
            }
            i = i + 1;
        }
        None
    }

    /// Puts a value under a key, replacing what was there.
    pub fn insert(&mut self, key: String, value: String)
        ensures
            final(self)@ == old(self)@.insert(key@, value@),
    {
        proof {
            use_type_invariant(&*self);
        }
        let ghost before = self.pairs();
        let mut entries: Vec<(String, String)> = Vec::new();
        std::mem::swap(&mut entries, &mut self.entries);
        let ghost start = entries@;
        let n = entries.len();
        let mut i: usize = 0;
        while i < n && !same_text(entries[i].0.as_str(), key.as_str())
            invariant
                i <= n,
                n == entries@.len(),
                entries@ == start,
                forall|j: int| 0 <= j < i ==> (#[trigger] entries@[j]).0@ != key@,
            decreases n - i,
        {
            i = i + 1;
        }
        let ghost k = key@;
        let ghost v = value@;
        if i < n {
            let mut kept: Vec<(String, String)> = Vec::new();
            std::mem::swap(&mut kept, &mut entries);
            kept.set(i, (key, value));
            entries = kept;
        } else {
            entries.push((key, value));
        }
        proof {
            let after = entries@.map_values(|e: (String, String)| (e.0@, e.1@));
            lemma_pairs_map(before);
            if i < n {
                assert(before[i as int].0 == k);
                assert(after =~= before.update(i as int, (k, v)));
                assert forall|a: int, b: int| 0 <= a < b < after.len() implies (
                #[trigger] after[a]).0 != (#[trigger] after[b]).0 by {
                    assert(before[a].0 != before[b].0);
                }
            } else {
                assert(after =~= before.push((k, v)));
                assert forall|a: int, b: int| 0 <= a < b < after.len() implies (
                #[trigger] after[a]).0 != (#[trigger] after[b]).0 by {
                    assert(before[a].0 == start[a].0@);
                    if b < before.len() {
                        assert(before[a].0 != before[b].0);
                    }
                }
            }
            assert(distinct_keys(after));
            lemma_pairs_map(after);
            let p = if i < n { i as int } else { before.len() as int };
            assert(after[p] == (k, v));
            let m = pairs_map(after);
            let w = pairs_map(before).insert(k, v);
            assert forall|q: Seq<char>| #[trigger] m.dom().contains(q) implies w.dom().contains(q)
                && m[q] == w[q] by {
                assert(m.contains_key(q));
                let a = choose|a: int| 0 <= a < after.len() && (#[trigger] after[a]).0 == q;
                if a != p {
                    assert(before[a] == after[a]);
                    assert(before[a].0 != k) by {
                        if i < n {
                            assert(before[a].0 != before[i as int].0);
                        } else {
                            assert(start[a].0@ != k);
                        }
                    }
                }
            }
            assert forall|q: Seq<char>| #[trigger] w.dom().contains(q) implies m.dom().contains(
                q,
            ) by {
                if q == k {
                    assert(m.contains_key(after[p].0));
                } else {
                    assert(pairs_map(before).contains_key(q));
                    let a = choose|a: int| 0 <= a < before.len() && (#[trigger] before[a]).0 == q;
                    assert(a != p);
                    assert(after[a] == before[a]);
                }
            }
            assert(m.dom() =~= w.dom());
            assert(m =~= w);
        }
        self.entries = entries;
    }

    /// Whether every entry of `self` is in `other`.
    fn within(&self, other: &StringMap) -> (r: bool)
        ensures
            r == self@.submap_of(other@),
    {
        proof {
            use_type_invariant(self);
            lemma_pairs_map(self.pairs());
        }
        let mut i: usize = 0;
        while i < self.entries.len()
            invariant
                i <= self.entries@.len(),
                self.pairs().len() == self.entries@.len(),
                forall|j: int|
                    0 <= j < i ==> other@.contains_key((#[trigger] self.pairs()[j]).0)
                        && other@[self.pairs()[j].0] == self.pairs()[j].1,
                forall|j: int|
                    #![trigger self.pairs()[j]]
                    0 <= j < self.pairs().len() ==> self@.contains_key(self.pairs()[j].0)
                        && self@[self.pairs()[j].0] == self.pairs()[j].1,
            decreases self.entries@.len() - i,
        {
            assert(self.pairs()[i as int] == (
                self.entries@[i as int].0@,
                self.entries@[i as int].1@,
            ));
            match other.get(self.entries[i].0.as_str()) {
                Some(v) => {
                    if !same_text(v.as_str(), self.entries[i].1.as_str()) {
                        return false;
                    }
                },
                None => {
                    return false;
                },
            }
            i = i + 1;
        }
        proof {
            assert forall|k: Seq<char>| self@.dom().contains(k) implies other@.dom().contains(k)
                && self@[k] == other@[k] by {
                assert(self@.contains_key(k));
                let j = choose|j: int|
                    0 <= j < self.pairs().len() && (#[trigger] self.pairs()[j]).0 == k;
                assert(self.pairs()[j].0 == k);
            }
        }
        true
    }

    /// Whether two maps hold the same values under the same keys.
    pub fn equals(&self, other: &StringMap) -> (r: bool)
        ensures
            r == (self@ == other@),
    {
        let r = self.within(other) && other.within(self);
        proof {
            if r {
                assert forall|k: Seq<char>| self@.dom().contains(k) == other@.dom().contains(k) by {
                    assert(self@.dom().contains(k) ==> other@.dom().contains(k));
                    assert(other@.dom().contains(k) ==> self@.dom().contains(k));
                }
                assert(self@.dom() =~= other@.dom());
                assert(self@ =~= other@);
            }
        }
        r
    }
}

impl Clone for StringMap {
    fn clone(&self) -> (r: StringMap)
        ensures
            r@ == self@,
            r.pairs() == self.pairs(),
    {
        proof {
            use_type_invariant(self);
        }
        let mut entries: Vec<(String, String)> = Vec::new();
        let mut i: usize = 0;
        while i < self.entries.len()
            invariant
                i <= self.entries@.len(),
                entries@.len() == i,
                forall|j: int|
                    0 <= j < i ==> (#[trigger] entries@[j]).0@ == self.entries@[j].0@
                        && entries@[j].1@ == self.entries@[j].1@,
            decreases self.entries@.len() - i,
        {
            entries.push((self.entries[i].0.clone(), self.entries[i].1.clone()));
            i = i + 1;
        }
        assert(entries@.map_values(|e: (String, String)| (e.0@, e.1@)) =~= self.pairs());
        StringMap { entries }
    }
}

impl vstd::std_specs::cmp::PartialEqSpecImpl for StringMap {
    open spec fn obeys_eq_spec() -> bool {
        true
    }

    open spec fn eq_spec(&self, other: &StringMap) -> bool {
        self@ == other@
    }
}

impl PartialEq for StringMap {
    fn eq(&self, other: &StringMap) -> (r: bool) {
        self.equals(other)
    }
}

} // verus!
