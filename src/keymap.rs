//! A map keyed by `StateKey`, kept sorted by key so that every walk over it
//! visits keys in the same total order.
use vstd::prelude::*;
use crate::key::{StateKey, key_lt, lemma_key_order};

verus! {

broadcast use vstd::seq::group_seq_axioms;

/// Every earlier key sorts strictly before every later one.
pub open spec fn keys_sorted(ks: Seq<Seq<char>>) -> bool {
    forall|i: int, j: int| 0 <= i < j < ks.len() ==> key_lt(#[trigger] ks[i], #[trigger] ks[j])
}

pub proof fn lemma_sorted_distinct(ks: Seq<Seq<char>>, i: int, j: int)
    requires
        keys_sorted(ks),
        0 <= i < ks.len(),
        0 <= j < ks.len(),
        i != j,
    ensures
        ks[i] != ks[j],
{
    lemma_key_order(ks[i], ks[j], ks[j]);
}

pub struct KeyMap<T> {
    entries: Vec<(StateKey, T)>,
}

impl<T> KeyMap<T> {
    /// The entries in walk order, keys given by their view.
    pub closed spec fn entries(self) -> Seq<(Seq<char>, T)> {
        self.entries@.map_values(|e: (StateKey, T)| (e.0@, e.1))
    }

    pub open spec fn key_seq(self) -> Seq<Seq<char>> {
        self.entries().map_values(|e: (Seq<char>, T)| e.0)
    }

    pub open spec fn wf(self) -> bool {
        keys_sorted(self.key_seq())
    }

    pub open spec fn contains(self, k: Seq<char>) -> bool {
        self.key_seq().contains(k)
    }

    pub open spec fn index_of(self, k: Seq<char>) -> int {
        choose|i: int| 0 <= i < self.key_seq().len() && self.key_seq()[i] == k
    }

    pub open spec fn map(self) -> Map<Seq<char>, T> {
        Map::new(|k: Seq<char>| self.contains(k), |k: Seq<char>| self.entries()[self.index_of(k)].1)
    }

    pub proof fn lemma_index(self, i: int)
        requires
            self.wf(),
            0 <= i < self.key_seq().len(),
        ensures
            self.contains(self.key_seq()[i]),
            self.index_of(self.key_seq()[i]) == i,
            self.map().contains_key(self.key_seq()[i]),
            self.map()[self.key_seq()[i]] == self.entries()[i].1,
    {
        let k = self.key_seq()[i];
        assert(self.key_seq()[i] == k);
        let j = self.index_of(k);
        if j != i {
            lemma_sorted_distinct(self.key_seq(), i, j);
        }
    }

    pub proof fn lemma_map_dom(self)
        requires
            self.wf(),
        ensures
            self.map().dom() == self.key_seq().to_set(),
            self.map().dom().finite(),
            self.map().dom().len() == self.key_seq().len(),
    {
        assert(self.map().dom() =~= self.key_seq().to_set());
        self.lemma_no_duplicates();
        self.key_seq().unique_seq_to_set();
    }

    pub proof fn lemma_no_duplicates(self)
        requires
            self.wf(),
        ensures
            self.key_seq().no_duplicates(),
    {
        assert forall|i: int, j: int|
            0 <= i < self.key_seq().len() && 0 <= j < self.key_seq().len() && i != j implies
            self.key_seq()[i] != self.key_seq()[j] by {
            lemma_sorted_distinct(self.key_seq(), i, j);
        }
    }

    pub fn new() -> (r: KeyMap<T>)
        ensures
            r.wf(),
            r.entries() == Seq::<(Seq<char>, T)>::empty(),
            r.map() == Map::<Seq<char>, T>::empty(),
    {
        let r = KeyMap { entries: Vec::new() };
        assert(r.entries() =~= Seq::<(Seq<char>, T)>::empty());
        assert(r.map() =~= Map::<Seq<char>, T>::empty());
        r
    }

    pub fn len(&self) -> (r: usize)
        ensures
            r == self.entries().len(),
    {
        self.entries.len()
    }

    pub fn key_at(&self, i: usize) -> (r: &StateKey)
        requires
            i < self.entries().len(),
        ensures
            r@ == self.key_seq()[i as int],
    {
        &self.entries[i].0
    }

    pub fn value_at(&self, i: usize) -> (r: &T)
        requires
            i < self.entries().len(),
        ensures
            *r == self.entries()[i as int].1,
    {
        &self.entries[i].1
    }

    /// Position of `k`, if present.
    pub fn find(&self, k: &StateKey) -> (r: Option<usize>)
        requires
            self.wf(),
        ensures
            r.is_some() == self.contains(k@),
            r.is_some() ==> r.unwrap() < self.entries().len() && self.key_seq()[r.unwrap() as int]
                == k@ && self.index_of(k@) == r.unwrap(),
    {
        let mut i: usize = 0;
        while i < self.entries.len()
            invariant
                self.wf(),
                i <= self.entries().len(),
                forall|j: int| 0 <= j < i ==> self.key_seq()[j] != k@,
            decreases self.entries().len() - i,
        {
            if self.entries[i].0.same(k) {
                proof {
                    self.lemma_index(i as int);
                }
                return Some(i);
            }
            i = i + 1;
        }
        None
    }

    pub fn contains_key(&self, k: &StateKey) -> (r: bool)
        requires
            self.wf(),
        ensures
            r == self.map().contains_key(k@),
    {
        self.find(k).is_some()
    }

    pub fn get(&self, k: &StateKey) -> (r: Option<&T>)
        requires
            self.wf(),
        ensures
            r.is_some() == self.map().contains_key(k@),
            r.is_some() ==> *r.unwrap() == self.map()[k@],
    {
        match self.find(k) {
            Some(i) => Some(&self.entries[i].1),
            None => None,
        }
    }

    /// Mutable access to the value at position `i`; the key stays.
    pub fn value_at_mut(&mut self, i: usize) -> (r: &mut T)
        requires
            i < old(self).entries().len(),
        ensures
            *r == old(self).entries()[i as int].1,
            final(self).entries() == old(self).entries().update(
                i as int,
                (old(self).key_seq()[i as int], *final(r)),
            ),
    {
        &mut self.entries[i].1
    }

    /// The keys in walk order.
    pub fn keys(&self) -> (r: Vec<StateKey>)
        ensures
            r@.map_values(|k: StateKey| k@) == self.key_seq(),
    {
        let mut r: Vec<StateKey> = Vec::new();
        let mut i: usize = 0;
        while i < self.entries.len()
            invariant
                i <= self.entries().len(),
                r@.map_values(|k: StateKey| k@) == self.key_seq().subrange(0, i as int),
            decreases self.entries().len() - i,
        {
            let ghost prev = r@;
            let k = self.entries[i].0.duplicate();
            assert(self.key_seq()[i as int] == self.entries@[i as int].0@);
            r.push(k);
            assert(r@ == prev.push(k));
            assert(r@.map_values(|k: StateKey| k@) =~= prev.map_values(|k: StateKey| k@).push(k@));
            assert(r@.map_values(|k: StateKey| k@) =~= self.key_seq().subrange(0, i + 1));
            i = i + 1;
        }
        assert(self.key_seq().subrange(0, i as int) =~= self.key_seq());
        r
    }

    /// Adds `k` with value `v`, replacing any earlier value of `k`.
    pub fn insert(&mut self, k: StateKey, v: T)
        requires
            old(self).wf(),
        ensures
            final(self).wf(),
            final(self).map() == old(self).map().insert(k@, v),
    {
        let mut p: usize = 0;
        while p < self.entries.len() && self.entries[p].0.less_than(&k)
            invariant
                self.wf(),
                p <= self.entries().len(),
                forall|j: int| 0 <= j < p ==> key_lt(#[trigger] self.key_seq()[j], k@),
            decreases self.entries().len() - p,
        {
            p = p + 1;
        }
        let ghost ks = self.key_seq();
        let ghost es = self.entries();
        let ghost m = self.map();
        proof {
            assert forall|j: int| p <= j < ks.len() implies key_lt(k@, #[trigger] ks[j]) || ks[j] == k@ by {
                lemma_key_order(ks[p as int], k@, ks[j]);
                lemma_key_order(k@, ks[p as int], ks[j]);
            }
        }
        if p < self.entries.len() && self.entries[p].0.same(&k) {
            let _ = self.entries.remove(p);
            self.entries.insert(p, (k, v));
            proof {
                assert(self.entries() =~= es.update(p as int, (k@, v)));
                assert(self.key_seq() =~= ks);
                assert forall|x: Seq<char>| #[trigger] self.map().contains_key(x) == m.insert(k@, v).contains_key(x)
                    && (self.map().contains_key(x) ==> self.map()[x] == m.insert(k@, v)[x]) by {
                    self.lemma_index(p as int);
                    if self.contains(x) {
                        let i = choose|i: int| 0 <= i < ks.len() && ks[i] == x;
                        self.lemma_index(i);
                        old(self).lemma_index(i);
                        if i != p {
                            lemma_sorted_distinct(ks, i, p as int);
                        }
                    }
                    if old(self).contains(x) {
                        let i = choose|i: int| 0 <= i < ks.len() && ks[i] == x;
                        assert(self.key_seq()[i] == x);
                    }
                }
                assert(self.map() =~= m.insert(k@, v));
            }
        } else {
            self.entries.insert(p, (k, v));
            proof {
                assert(self.entries() =~= es.insert(p as int, (k@, v)));
                assert(self.key_seq() =~= ks.insert(p as int, k@));
                assert forall|j: int| p <= j < ks.len() implies key_lt(k@, #[trigger] ks[j]) by {
                    if ks[j] == k@ {
                        lemma_key_order(ks[p as int], k@, k@);
                    }
                }
                assert forall|i: int, j: int| 0 <= i < j < self.key_seq().len() implies key_lt(
                    #[trigger] self.key_seq()[i],
                    #[trigger] self.key_seq()[j],
                ) by {
                    if j < p {
                    } else if j == p {
                    } else if i < p {
                        lemma_key_order(ks[i], k@, ks[j - 1]);
                    } else if i == p {
                    } else {
                    }
                }
                assert forall|x: Seq<char>| #[trigger] self.map().contains_key(x) == m.insert(k@, v).contains_key(x)
                    && (self.map().contains_key(x) ==> self.map()[x] == m.insert(k@, v)[x]) by {
                    self.lemma_index(p as int);
                    if self.contains(x) {
                        let i = choose|i: int| 0 <= i < self.key_seq().len() && self.key_seq()[i] == x;
                        self.lemma_index(i);
                        if i < p {
                            old(self).lemma_index(i);
                            lemma_sorted_distinct(self.key_seq(), i, p as int);
                        } else if i > p {
                            old(self).lemma_index(i - 1);
                            lemma_sorted_distinct(self.key_seq(), i, p as int);
                        }
                    }
                    if old(self).contains(x) {
                        let i = choose|i: int| 0 <= i < ks.len() && ks[i] == x;
                        if i < p {
                            assert(self.key_seq()[i] == x);
                        } else {
                            assert(self.key_seq()[i + 1] == x);
                        }
                    }
                }
                assert(self.map() =~= m.insert(k@, v));
            }
        }
    }

    /// Takes `k` out, with its value if it was present.
    pub fn remove(&mut self, k: &StateKey) -> (r: Option<T>)
        requires
            old(self).wf(),
        ensures
            final(self).wf(),
            final(self).map() == old(self).map().remove(k@),
            r.is_some() == old(self).map().contains_key(k@),
            r.is_some() ==> r.unwrap() == old(self).map()[k@],
    {
        match self.find(k) {
            None => {
                proof {
                    assert(self.map() =~= self.map().remove(k@));
                }
                None
            },
            Some(p) => {
                let ghost ks = self.key_seq();
                let ghost m = self.map();
                proof {
                    old(self).lemma_index(p as int);
                }
                let e = self.entries.remove(p);
                proof {
                    assert(self.key_seq() =~= ks.remove(p as int));
                    assert forall|x: Seq<char>| #[trigger] self.map().contains_key(x) == m.remove(k@).contains_key(x)
                        && (self.map().contains_key(x) ==> self.map()[x] == m.remove(k@)[x]) by {
                        if self.contains(x) {
                            let i = choose|i: int| 0 <= i < self.key_seq().len() && self.key_seq()[i] == x;
                            self.lemma_index(i);
                            if i < p {
                                old(self).lemma_index(i);
                                lemma_sorted_distinct(ks, i, p as int);
                            } else {
                                old(self).lemma_index(i + 1);
                                lemma_sorted_distinct(ks, i + 1, p as int);
                            }
                        }
                        if old(self).contains(x) && x != k@ {
                            let i = choose|i: int| 0 <= i < ks.len() && ks[i] == x;
                            if i < p {
                                assert(self.key_seq()[i] == x);
                            } else {
                                assert(self.key_seq()[i - 1] == x);
                            }
                        }
                    }
                    assert(self.map() =~= m.remove(k@));
                }
                Some(e.1)
            },
        }
    }

    /// Empties the map, handing back its entries in walk order.
    pub fn drain(&mut self) -> (r: Vec<(StateKey, T)>)
        requires
            old(self).wf(),
        ensures
            final(self).wf(),
            final(self).map() == Map::<Seq<char>, T>::empty(),
            r@.map_values(|e: (StateKey, T)| (e.0@, e.1)) == old(self).entries(),
    {
        let r = self.entries.split_off(0);
        proof {
            assert(self.map() =~= Map::<Seq<char>, T>::empty());
        }
        r
    }

    /// Changing the value at a position keeps the keys and order.
    pub proof fn lemma_update(old_m: Self, new_m: Self, i: int, v: T)
        requires
            old_m.wf(),
            0 <= i < old_m.key_seq().len(),
            new_m.entries() == old_m.entries().update(i, (old_m.key_seq()[i], v)),
        ensures
            new_m.wf(),
            new_m.key_seq() == old_m.key_seq(),
            new_m.map() == old_m.map().insert(old_m.key_seq()[i], v),
    {
        assert(new_m.key_seq() =~= old_m.key_seq());
        let ks = old_m.key_seq();
        let want = old_m.map().insert(ks[i], v);
        assert forall|x: Seq<char>| #[trigger] new_m.map().contains_key(x) == want.contains_key(x)
            && (new_m.map().contains_key(x) ==> new_m.map()[x] == want[x]) by {
            old_m.lemma_index(i);
            if new_m.contains(x) {
                let j = choose|j: int| 0 <= j < ks.len() && ks[j] == x;
                new_m.lemma_index(j);
                old_m.lemma_index(j);
                if j != i {
                    lemma_sorted_distinct(ks, i, j);
                }
            }
        }
        assert(new_m.map() =~= want);
    }

    /// Adds `k`, which sorts after every key present, at the end.
    pub fn push_last(&mut self, k: StateKey, v: T)
        requires
            old(self).wf(),
            forall|i: int| 0 <= i < old(self).key_seq().len() ==> key_lt(#[trigger] old(self).key_seq()[i], k@),
        ensures
            final(self).wf(),
            final(self).entries() == old(self).entries().push((k@, v)),
    {
        let ghost kk = k@;
        self.entries.push((k, v));
        proof {
            assert(self.entries() =~= old(self).entries().push((kk, v)));
            assert(self.key_seq() =~= old(self).key_seq().push(kk));
        }
    }
}

} // verus!
