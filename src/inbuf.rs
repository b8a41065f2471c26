//! Items buffered per epoch until the operator is ready to apply them in
//! epoch order.
use vstd::prelude::*;

verus! {

broadcast use vstd::seq::group_seq_axioms;

/// Epochs ascend strictly along the sequence.
pub open spec fn epochs_ascending(es: Seq<u64>) -> bool {
    forall|i: int, j: int| 0 <= i < j < es.len() ==> #[trigger] es[i] < #[trigger] es[j]
}

pub struct InBuffer<T> {
    slots: Vec<(u64, Vec<T>)>,
}

impl<T> InBuffer<T> {
    pub closed spec fn entries(self) -> Seq<(u64, Seq<T>)> {
        self.slots@.map_values(|e: (u64, Vec<T>)| (e.0, e.1@))
    }

    pub open spec fn epoch_seq(self) -> Seq<u64> {
        self.entries().map_values(|e: (u64, Seq<T>)| e.0)
    }

    pub open spec fn wf(self) -> bool {
        epochs_ascending(self.epoch_seq())
    }

    pub open spec fn index_of(self, e: u64) -> int {
        choose|i: int| 0 <= i < self.epoch_seq().len() && self.epoch_seq()[i] == e
    }

    /// What is buffered, by epoch.
    pub open spec fn map(self) -> Map<u64, Seq<T>> {
        Map::new(
            |e: u64| self.epoch_seq().contains(e),
            |e: u64| self.entries()[self.index_of(e)].1,
        )
    }

    /// What is buffered at `e`; empty if nothing is.
    pub open spec fn at(self, e: u64) -> Seq<T> {
        if self.map().contains_key(e) {
            self.map()[e]
        } else {
            Seq::empty()
        }
    }

    pub proof fn lemma_index(self, i: int)
        requires
            self.wf(),
            0 <= i < self.epoch_seq().len(),
        ensures
            self.map().contains_key(self.epoch_seq()[i]),
            self.index_of(self.epoch_seq()[i]) == i,
            self.map()[self.epoch_seq()[i]] == self.entries()[i].1,
    {
        let e = self.epoch_seq()[i];
        assert(self.epoch_seq()[i] == e);
        let j = self.index_of(e);
        assert(self.epoch_seq()[j] == e);
    }

    pub fn new() -> (r: InBuffer<T>)
        ensures
            r.wf(),
            r.map() == Map::<u64, Seq<T>>::empty(),
    {
        let r = InBuffer { slots: Vec::new() };
        assert(r.map() =~= Map::<u64, Seq<T>>::empty());
        r
    }

    /// Appends `items` after whatever is buffered at `epoch`.
    pub fn extend(&mut self, epoch: u64, items: Vec<T>)
        requires
            old(self).wf(),
        ensures
            final(self).wf(),
            final(self).map() == old(self).map().insert(epoch, old(self).at(epoch) + items@),
    {
        let mut items = items;
        let mut p: usize = 0;
        while p < self.slots.len() && self.slots[p].0 < epoch
            invariant
                self.wf(),
                *self == *old(self),
                p <= self.epoch_seq().len(),
                forall|j: int| 0 <= j < p ==> #[trigger] self.epoch_seq()[j] < epoch,
            decreases self.epoch_seq().len() - p,
        {
            p = p + 1;
        }
        let ghost es = self.epoch_seq();
        let ghost en = self.entries();
        let ghost m = self.map();
        let ghost want = m.insert(epoch, old(self).at(epoch) + items@);
        if p < self.slots.len() && self.slots[p].0 == epoch {
            let (_, mut cur) = self.slots.remove(p);
            proof {
                old(self).lemma_index(p as int);
            }
            let ghost cur0 = cur@;
            let ghost it = items@;
            cur.append(&mut items);
            self.slots.insert(p, (epoch, cur));
            proof {
                assert(self.entries() =~= en.update(p as int, (epoch, cur0 + it)));
                assert(self.epoch_seq() =~= es);
                assert forall|x: u64| #[trigger] self.map().contains_key(x) == want.contains_key(x)
                    && (self.map().contains_key(x) ==> self.map()[x] == want[x]) by {
                    self.lemma_index(p as int);
                    if self.epoch_seq().contains(x) {
                        let i = choose|i: int| 0 <= i < es.len() && es[i] == x;
                        self.lemma_index(i);
                        old(self).lemma_index(i);
                    }
                    if old(self).epoch_seq().contains(x) {
                        let i = choose|i: int| 0 <= i < es.len() && es[i] == x;
                        assert(self.epoch_seq()[i] == x);
                    }
                }
                assert(self.map() =~= want);
            }
        } else {
            let ghost it = items@;
            self.slots.insert(p, (epoch, items));
            proof {
                assert(!m.contains_key(epoch)) by {
                    if es.contains(epoch) {
                        let i = choose|i: int| 0 <= i < es.len() && es[i] == epoch;
                        if i >= p {
                            assert(es[p as int] <= es[i]);
                        }
                    }
                }
                assert(old(self).at(epoch) + it =~= it);
                assert(self.entries() =~= en.insert(p as int, (epoch, it)));
                assert(self.epoch_seq() =~= es.insert(p as int, epoch));
                assert forall|j: int| p <= j < es.len() implies epoch < #[trigger] es[j] by {
                    assert(es[p as int] <= es[j]);
                }
                assert forall|x: u64| #[trigger] self.map().contains_key(x) == want.contains_key(x)
                    && (self.map().contains_key(x) ==> self.map()[x] == want[x]) by {
                    self.lemma_index(p as int);
                    if self.epoch_seq().contains(x) {
                        let i = choose|i: int| 0 <= i < self.epoch_seq().len() && self.epoch_seq()[i] == x;
                        self.lemma_index(i);
                        if i < p {
                            old(self).lemma_index(i);
                        } else if i > p {
                            old(self).lemma_index(i - 1);
                        }
                    }
                    if old(self).epoch_seq().contains(x) {
                        let i = choose|i: int| 0 <= i < es.len() && es[i] == x;
                        if i < p {
                            assert(self.epoch_seq()[i] == x);
                        } else {
                            assert(self.epoch_seq()[i + 1] == x);
                        }
                    }
                }
                assert(self.map() =~= want);
            }
        }
    }

    /// Takes out everything buffered at `epoch`.
    pub fn remove(&mut self, epoch: u64) -> (r: Option<Vec<T>>)
        requires
            old(self).wf(),
        ensures
            final(self).wf(),
            final(self).map() == old(self).map().remove(epoch),
            r.is_some() == old(self).map().contains_key(epoch),
            r.is_some() ==> r.unwrap()@ == old(self).map()[epoch],
    {
        let mut p: usize = 0;
        while p < self.slots.len()
            invariant
                self.wf(),
                *self == *old(self),
                p <= self.epoch_seq().len(),
                forall|j: int| 0 <= j < p ==> #[trigger] self.epoch_seq()[j] != epoch,
            decreases self.epoch_seq().len() - p,
        {
            if self.slots[p].0 == epoch {
                let ghost es = self.epoch_seq();
                let ghost m = self.map();
                proof {
                    old(self).lemma_index(p as int);
                }
                let (_, items) = self.slots.remove(p);
                proof {
                    assert(self.epoch_seq() =~= es.remove(p as int));
                    assert forall|x: u64| #[trigger] self.map().contains_key(x) == m.remove(epoch).contains_key(x)
                        && (self.map().contains_key(x) ==> self.map()[x] == m.remove(epoch)[x]) by {
                        if self.epoch_seq().contains(x) {
                            let i = choose|i: int| 0 <= i < self.epoch_seq().len() && self.epoch_seq()[i] == x;
                            self.lemma_index(i);
                            if i < p {
                                old(self).lemma_index(i);
                            } else {
                                old(self).lemma_index(i + 1);
                            }
                        }
                        if old(self).epoch_seq().contains(x) && x != epoch {
                            let i = choose|i: int| 0 <= i < es.len() && es[i] == x;
                            if i < p {
                                assert(self.epoch_seq()[i] == x);
                            } else {
                                assert(self.epoch_seq()[i - 1] == x);
                            }
                        }
                    }
                    assert(self.map() =~= m.remove(epoch));
                }
                return Some(items);
            }
            p = p + 1;
        }
        proof {
            assert(self.map() =~= self.map().remove(epoch));
        }
        None
    }

    /// The epochs holding items, ascending.
    pub fn epochs(&self) -> (r: Vec<u64>)
        requires
            self.wf(),
        ensures
            r@ == self.epoch_seq(),
            epochs_ascending(r@),
            r@.to_set() == self.map().dom(),
    {
        let mut r: Vec<u64> = Vec::new();
        let mut i: usize = 0;
        while i < self.slots.len()
            invariant
                i <= self.epoch_seq().len(),
                r@ == self.epoch_seq().subrange(0, i as int),
            decreases self.epoch_seq().len() - i,
        {
            r.push(self.slots[i].0);
            assert(r@ =~= self.epoch_seq().subrange(0, i + 1));
            i = i + 1;
        }
        assert(self.epoch_seq().subrange(0, i as int) =~= self.epoch_seq());
        assert(r@.to_set() =~= self.map().dom());
        r
    }
}

} // verus!
