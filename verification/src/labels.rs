//! `Labels`: a finite map from label names to label values, with at most one
//! value per name.
use vstd::prelude::*;

use crate::text::str_eq;

verus! {

/// A label set: names mapped to values.
pub struct Labels {
    items: Vec<(String, String)>,
}

/// The character view of each pair.
pub open spec fn pair_views(v: Seq<(String, String)>) -> Seq<(Seq<char>, Seq<char>)> {
    v.map_values(|p: (String, String)| p@)
}

/// Whether no name occurs twice in a list of pairs.
pub open spec fn keys_unique(e: Seq<(Seq<char>, Seq<char>)>) -> bool {
    forall|i: int, j: int| 0 <= i < e.len() && 0 <= j < e.len() && i != j ==> e[i].0 != e[j].0
}

/// Whether `k` is the name of some pair.
pub open spec fn has_key(e: Seq<(Seq<char>, Seq<char>)>, k: Seq<char>) -> bool {
    exists|i: int| 0 <= i < e.len() && #[trigger] e[i].0 == k
}

/// The position of a pair named `k`.
pub open spec fn key_index(e: Seq<(Seq<char>, Seq<char>)>, k: Seq<char>) -> int {
    choose|i: int| 0 <= i < e.len() && #[trigger] e[i].0 == k
}

/// The map that a list of pairs with distinct names stands for.
pub open spec fn pairs_map(e: Seq<(Seq<char>, Seq<char>)>) -> Map<Seq<char>, Seq<char>> {
    Map::new(|k: Seq<char>| has_key(e, k), |k: Seq<char>| e[key_index(e, k)].1)
}

/// The map built by inserting the pairs one after the other, a later pair
/// replacing an earlier one with the same name.
pub open spec fn insert_all(e: Seq<(Seq<char>, Seq<char>)>) -> Map<Seq<char>, Seq<char>>
    decreases e.len(),
{
    if e.len() == 0 {
        Map::empty()
    } else {
        insert_all(e.drop_last()).insert(e.last().0, e.last().1)
    }
}

pub proof fn lemma_pairs_map_index(e: Seq<(Seq<char>, Seq<char>)>, i: int)
    requires
        keys_unique(e),
        0 <= i < e.len(),
    ensures
        pairs_map(e).contains_key(e[i].0),
        pairs_map(e)[e[i].0] == e[i].1,
{
    assert(has_key(e, e[i].0));
    let j = key_index(e, e[i].0);
    assert(e[j].0 == e[i].0);
}

pub proof fn lemma_pairs_map_take_step(e: Seq<(Seq<char>, Seq<char>)>, i: int)
    requires
        keys_unique(e),
        0 <= i < e.len(),
    ensures
        !pairs_map(e.take(i)).contains_key(e[i].0),
        pairs_map(e.take(i + 1)) == pairs_map(e.take(i)).insert(e[i].0, e[i].1),
{
    let a = e.take(i);
    let b = e.take(i + 1);
    assert(keys_unique(a));
    assert(keys_unique(b));
    if has_key(a, e[i].0) {
        let j = choose|j: int| 0 <= j < a.len() && #[trigger] a[j].0 == e[i].0;
        assert(e[j].0 == e[i].0);
    }
    assert forall|k: Seq<char>| #![trigger has_key(b, k)] has_key(b, k) == (has_key(a, k) || k == e[i].0) by {
        if has_key(a, k) {
            let j = choose|j: int| 0 <= j < a.len() && #[trigger] a[j].0 == k;
            assert(b[j].0 == k);
        }
        if k == e[i].0 {
            assert(b[i].0 == k);
        }
        if has_key(b, k) && k != e[i].0 {
            let j = choose|j: int| 0 <= j < b.len() && #[trigger] b[j].0 == k;
            assert(a[j].0 == k);
        }
    }
    assert forall|k: Seq<char>| #[trigger] pairs_map(b).contains_key(k) implies pairs_map(b)[k] == pairs_map(a).insert(e[i].0, e[i].1)[k] by {
        let j = key_index(b, k);
        assert(b[j].0 == k);
        lemma_pairs_map_index(b, j);
        if k != e[i].0 {
            lemma_pairs_map_index(a, j);
        } else {
            lemma_pairs_map_index(b, i);
        }
    }
    assert(pairs_map(b) =~= pairs_map(a).insert(e[i].0, e[i].1));
}

impl View for Labels {
    type V = Map<Seq<char>, Seq<char>>;

    closed spec fn view(&self) -> Map<Seq<char>, Seq<char>> {
        pairs_map(self.entries())
    }
}

impl Labels {
    /// The pairs in the order the library keeps them.
    pub closed spec fn entries(&self) -> Seq<(Seq<char>, Seq<char>)> {
        pair_views(self.items@)
    }

    #[verifier::type_invariant]
    closed spec fn inv(&self) -> bool {
        keys_unique(self.entries())
    }

    /// An empty label set.
    pub fn new() -> (r: Labels)
        ensures
            r@ == Map::<Seq<char>, Seq<char>>::empty(),
            r.entries().len() == 0,
    {
        let r = Labels { items: Vec::new() };
        assert(r@ =~= Map::<Seq<char>, Seq<char>>::empty());
        r
    }

    /// The number of names; the pairs have distinct names and make up the map.
    pub fn len(&self) -> (r: usize)
        ensures
            r == self.entries().len(),
            keys_unique(self.entries()),
            self@ == pairs_map(self.entries()),
    {
        proof {
            use_type_invariant(self);
        }
        self.items.len()
    }

    /// Whether the set has no names.
    pub fn is_empty(&self) -> (r: bool)
        ensures
            r == (self.entries().len() == 0),
            r == (self@ == Map::<Seq<char>, Seq<char>>::empty()),
    {
        proof {
            if self.entries().len() > 0 {
                use_type_invariant(self);
                lemma_pairs_map_index(self.entries(), 0);
                assert(self@.contains_key(self.entries()[0].0));
            } else {
                assert(self@ =~= Map::<Seq<char>, Seq<char>>::empty());
            }
        }
        self.items.len() == 0
    }

    /// The name of the `i`-th pair.
    pub fn key_at(&self, i: usize) -> (r: &String)
        requires
            i < self.entries().len(),
        ensures
            r@ == self.entries()[i as int].0,
    {
        &self.items[i].0
    }

    /// The value of the `i`-th pair.
    pub fn value_at(&self, i: usize) -> (r: &String)
        requires
            i < self.entries().len(),
        ensures
            r@ == self.entries()[i as int].1,
    {
        &self.items[i].1
    }

    /// The position of the pair named `key`, if there is one.
    fn find(&self, key: &str) -> (r: Option<usize>)
        ensures
            match r {
                Some(i) => i < self.entries().len() && self.entries()[i as int].0 == key@,
                None => !has_key(self.entries(), key@),
            },
    {
        let mut i: usize = 0;
        while i < self.items.len()
            invariant
                i <= self.items.len(),
                forall|j: int| 0 <= j < i ==> self.entries()[j].0 != key@,
            decreases self.items.len() - i,
        {
            if str_eq(self.items[i].0.as_str(), key) {
                return Some(i);
            }
            i = i + 1;
        }
        None
    }

    /// The value of `key` (`HashMap::get`).
    pub fn get(&self, key: &str) -> (r: Option<&String>)
        ensures
            match r {
                Some(v) => self@.contains_key(key@) && v@ == self@[key@],
                None => !self@.contains_key(key@),
            },
    {
        proof {
            use_type_invariant(self);
        }
        match self.find(key) {
            Some(i) => {
                proof {
                    lemma_pairs_map_index(self.entries(), i as int);
                }
                Some(&self.items[i].1)
            },
            None => None,
        }
    }

    /// Whether `key` has a value (`HashMap::contains_key`).
    pub fn contains_key(&self, key: &str) -> (r: bool)
        ensures
            r == self@.contains_key(key@),
    {
        match self.get(key) {
            Some(_) => true,
            None => false,
        }
    }

    /// Sets the value of `key` (`HashMap::insert`): a new name is appended,
    /// an existing one keeps its place and gets the new value.
    pub fn insert(&mut self, key: String, value: String)
        ensures
            final(self)@ == old(self)@.insert(key@, value@),
            has_key(old(self).entries(), key@) ==> final(self).entries().len() == old(
                self,
            ).entries().len(),
            !has_key(old(self).entries(), key@) ==> final(self).entries() == old(
                self,
            ).entries().push((key@, value@)),
    {
        proof {
            use_type_invariant(&*self);
        }
        let ghost old_e = self.entries();
        match self.find(key.as_str()) {
            Some(i) => {
                let ghost kv = key@;
                let ghost vv = value@;
                let mut items: Vec<(String, String)> = Vec::new();
                std::mem::swap(&mut items, &mut self.items);
                items.set(i, (key, value));
                proof {
                    assert(pair_views(items@) =~= old_e.update(
                        i as int,
                        (kv, vv),
                    ));
                    let ue = old_e.update(i as int, (kv, vv));
                    assert(keys_unique(ue));
                }
                self.items = items;
                proof {
                    assert(self.entries() =~= old_e.update(i as int, (kv, vv)));
                    let ne = self.entries();
                    assert forall|k: Seq<char>|
                        #![trigger has_key(ne, k)]
                        has_key(ne, k) == (has_key(old_e, k) || k == kv) by {
                        if has_key(old_e, k) {
                            let j = choose|j: int| 0 <= j < old_e.len() && #[trigger] old_e[j].0 == k;
                            assert(ne[j].0 == k);
                        }
                        if has_key(ne, k) {
                            let j = choose|j: int| 0 <= j < ne.len() && #[trigger] ne[j].0 == k;
                            assert(old_e[j].0 == k);
                        }
                    }
                    assert forall|k: Seq<char>| #[trigger] pairs_map(ne).contains_key(k) implies pairs_map(ne)[k] == old(self)@.insert(kv, vv)[k] by {
                        let j = key_index(ne, k);
                        assert(ne[j].0 == k);
                        if k != kv {
                            lemma_pairs_map_index(old_e, j);
                        }
                    }
                    assert(self@ =~= old(self)@.insert(kv, vv));
                }
            },
            None => {
                let ghost kv = key@;
                let ghost vv = value@;
                let mut items: Vec<(String, String)> = Vec::new();
                std::mem::swap(&mut items, &mut self.items);
                items.push((key, value));
                proof {
                    assert(pair_views(items@) =~= old_e.push((kv, vv)));
                }
                self.items = items;
                proof {
                    assert(self.entries() =~= old_e.push((kv, vv)));
                    let ne = self.entries();
                    assert forall|k: Seq<char>|
                        #![trigger has_key(ne, k)]
                        has_key(ne, k) == (has_key(old_e, k) || k == kv) by {
                        if has_key(old_e, k) {
                            let j = choose|j: int| 0 <= j < old_e.len() && #[trigger] old_e[j].0 == k;
                            assert(ne[j].0 == k);
                        }
                        if k == kv {
                            assert(ne[old_e.len() as int].0 == k);
                        }
                    }
                    assert forall|k: Seq<char>| #[trigger] pairs_map(ne).contains_key(k) implies pairs_map(ne)[k] == old(self)@.insert(kv, vv)[k] by {
                        let j = key_index(ne, k);
                        assert(ne[j].0 == k);
                        if k != kv {
                            lemma_pairs_map_index(old_e, j);
                        }
                    }
                    assert(self@ =~= old(self)@.insert(kv, vv));
                }
            },
        }
    }

    /// Drops the value of `key` (`HashMap::remove`); the other pairs keep their order.
    pub fn remove(&mut self, key: &str)
        ensures
            final(self)@ == old(self)@.remove(key@),
            has_key(old(self).entries(), key@) ==> final(self).entries() == old(self).entries().remove(
                key_index(old(self).entries(), key@),
            ),
            !has_key(old(self).entries(), key@) ==> final(self).entries() == old(self).entries(),
    {
        proof {
            use_type_invariant(&*self);
        }
        let ghost old_e = self.entries();
        match self.find(key) {
            Some(i) => {
                let mut items: Vec<(String, String)> = Vec::new();
                std::mem::swap(&mut items, &mut self.items);
                items.remove(i);
                proof {
                    assert(pair_views(items@) =~= old_e.remove(i as int));
                    assert(has_key(old_e, key@));
                    assert(key_index(old_e, key@) == i);
                }
                self.items = items;
                proof {
                    let ne = self.entries();
                    assert forall|k: Seq<char>|
                        #![trigger has_key(ne, k)]
                        has_key(ne, k) == (has_key(old_e, k) && k != key@) by {
                        if has_key(old_e, k) && k != key@ {
                            let j = choose|j: int| 0 <= j < old_e.len() && #[trigger] old_e[j].0 == k;
                            if j < i {
                                assert(ne[j].0 == k);
                            } else {
                                assert(ne[j - 1].0 == k);
                            }
                        }
                        if has_key(ne, k) {
                            let j = choose|j: int| 0 <= j < ne.len() && #[trigger] ne[j].0 == k;
                            if j < i {
                                assert(old_e[j].0 == k);
                            } else {
                                assert(old_e[j + 1].0 == k);
                            }
                        }
                    }
                    assert forall|k: Seq<char>| #[trigger] pairs_map(ne).contains_key(k) implies pairs_map(ne)[k] == old(self)@.remove(key@)[k] by {
                        let j = key_index(ne, k);
                        assert(ne[j].0 == k);
                        if j < i {
                            lemma_pairs_map_index(old_e, j);
                        } else {
                            lemma_pairs_map_index(old_e, j + 1);
                        }
                    }
                    assert(self@ =~= old(self)@.remove(key@));
                }
            },
            None => {
                assert(self@ =~= old(self)@.remove(key@));
            },
        }
    }

    /// A copy with the same pairs in the same order.
    pub fn duplicate(&self) -> (r: Labels)
        ensures
            r.entries() == self.entries(),
            r@ == self@,
    {
        proof {
            use_type_invariant(self);
        }
        let mut items: Vec<(String, String)> = Vec::new();
        let mut i: usize = 0;
        while i < self.items.len()
            invariant
                i <= self.items.len(),
                pair_views(items@) =~= self.entries().take(i as int),
            decreases self.items.len() - i,
        {
            let k = self.items[i].0.clone();
            let v = self.items[i].1.clone();
            let ghost before = items@;
            items.push((k, v));
            proof {
                assert(items@ == before.push((k, v)));
                assert((k, v)@ == self.entries()[i as int]);
                assert(pair_views(items@) =~= pair_views(before).push((k, v)@));
                assert(pair_views(items@) =~= self.entries().take(
                    i + 1,
                ));
            }
            i = i + 1;
        }
        proof {
            assert(self.entries().take(i as int) =~= self.entries());
        }
        Labels { items }
    }

    /// The label set holding the given pairs, a later pair replacing an earlier one
    /// with the same name (`HashMap::from`).
    pub fn from_pairs(pairs: Vec<(String, String)>) -> (r: Labels)
        ensures
            r@ == insert_all(pair_views(pairs@)),
    {
        let ghost pv = pair_views(pairs@);
        let mut r = Labels::new();
        let mut i: usize = 0;
        while i < pairs.len()
            invariant
                i <= pairs.len(),
                pv == pair_views(pairs@),
                r@ == insert_all(pv.take(i as int)),
            decreases pairs.len() - i,
        {
            let k = pairs[i].0.clone();
            let v = pairs[i].1.clone();
            proof {
                let t = pv.take(i + 1);
                assert(t.drop_last() =~= pv.take(i as int));
                assert(t.last() == pairs@[i as int]@);
            }
            r.insert(k, v);
            i = i + 1;
        }
        proof {
            assert(pv.take(i as int) =~= pv);
        }
        r
    }

    /// Whether every pair of `self` is in `other` with the same value.
    pub fn contained_in(&self, other: &Labels) -> (r: bool)
        ensures
            r == (forall|k: Seq<char>| #[trigger] self@.contains_key(k) ==> other@.contains_key(k)
                && other@[k] == self@[k]),
    {
        let n = self.len();
        let mut i: usize = 0;
        while i < n
            invariant
                n == self.entries().len(),
                i <= n,
                keys_unique(self.entries()),
                self@ == pairs_map(self.entries()),
                forall|j: int|
                    0 <= j < i ==> other@.contains_key(#[trigger] self.entries()[j].0) && other@[self.entries()[j].0]
                        == self.entries()[j].1,
            decreases n - i,
        {
            let k = self.key_at(i);
            match other.get(k.as_str()) {
                Some(v) => {
                    if !(*v == *self.value_at(i)) {
                        proof {
                            lemma_pairs_map_index(self.entries(), i as int);
                        }
                        return false;
                    }
                },
                None => {
                    proof {
                        lemma_pairs_map_index(self.entries(), i as int);
                    }
                    return false;
                },
            }
            i = i + 1;
        }
        proof {
            assert forall|k: Seq<char>| #[trigger] self@.contains_key(k) implies other@.contains_key(k)
                && other@[k] == self@[k] by {
                let j = key_index(self.entries(), k);
                assert(self.entries()[j].0 == k);
                lemma_pairs_map_index(self.entries(), j);
            }
        }
        true
    }

    /// Whether the two label sets are the same map.
    pub fn same_as(&self, other: &Labels) -> (r: bool)
        ensures
            r == (self@ == other@),
    {
        let a = self.contained_in(other);
        let b = other.contained_in(self);
        proof {
            if a && b {
                assert(self@ =~= other@);
            }
        }
        a && b
    }
}

} // verus!