//! The partitioned output: per-step partition writers, which worker is the
//! primary for each partition, and where each item goes.
use vstd::prelude::*;
use crate::key::{StateKey, StepId, key_lt};
use crate::keymap::{KeyMap, keys_sorted};
use crate::logic::{Callback, FixedPartitionedSink, LogicError, SinkPartition, logic_error};
use crate::snapshot::{SerializedSnapshot, SnapshotMode};
use crate::stateful::{ResumeState, key_views, snap_keys, snaps_of};
use crate::operator::{group_by_key, into_reversed, item_keys, strip_routes};

verus! {

broadcast use vstd::seq::group_seq_axioms;

/// A snapshot names a partition that the sink does not list.
#[derive(Debug)]
pub struct UnknownPartition {
    pub step_id: StepId,
    pub key: StateKey,
    pub known: Vec<StateKey>,
}

/// Why building or writing a partition failed.
#[derive(Debug)]
pub enum OutputError {
    /// A user callback failed.
    Logic(LogicError),
    /// Fixed partitions changed between executions.
    Unknown(UnknownPartition),
    /// An item reached a worker that is not its partition's primary.
    Misrouted { part: StateKey, worker: usize, this_worker: usize },
    /// The sink lists no partitions to route to.
    NoPartitions,
    /// The sink's `list_parts` failed.
    ListParts { step_id: StepId, message: String },
}

/// Whether `key` is one of `parts`.
pub fn is_listed(parts: &Vec<StateKey>, key: &StateKey) -> (r: bool)
    ensures
        r == key_views(parts@).contains(key@),
{
    let mut i: usize = 0;
    while i < parts.len()
        invariant
            i <= parts@.len(),
            forall|j: int| 0 <= j < i ==> (#[trigger] parts@[j])@ != key@,
        decreases parts@.len() - i,
    {
        if parts[i].same(key) {
            assert(key_views(parts@)[i as int] == key@);
            return true;
        }
        i = i + 1;
    }
    proof {
        if key_views(parts@).contains(key@) {
            let j = choose|j: int| 0 <= j < key_views(parts@).len() && key_views(parts@)[j] == key@;
            assert(parts@[j]@ == key@);
        }
    }
    false
}

/// Every snapshot key must be a listed partition: partitions cannot change
/// between executions. Names the first key that is not.
pub fn check_known_parts(
    step_id: &StepId,
    parts: &Vec<StateKey>,
    snaps: &Vec<(StateKey, Option<Vec<u8>>)>,
) -> (r: Result<(), UnknownPartition>)
    ensures
        r is Ok == (forall|i: int| 0 <= i < snaps@.len() ==> key_views(parts@).contains(#[trigger] snaps@[i].0@)),
        r is Err ==> !key_views(parts@).contains(r->Err_0.key@) && key_views(r->Err_0.known@) == key_views(parts@)
            && r->Err_0.step_id@ == step_id@ && (exists|i: int| 0 <= i < snaps@.len() && (#[trigger] snaps@[i]).0@ == r->Err_0.key@),
{
    let mut i: usize = 0;
    while i < snaps.len()
        invariant
            i <= snaps@.len(),
            forall|j: int| 0 <= j < i ==> key_views(parts@).contains(#[trigger] snaps@[j].0@),
        decreases snaps@.len() - i,
    {
        if !is_listed(parts, &snaps[i].0) {
            let known = copy_keys(parts);
            return Err(UnknownPartition { step_id: step_id.duplicate(), key: snaps[i].0.duplicate(), known });
        }
        i = i + 1;
    }
    Ok(())
}

/// A copy of a list of keys.
pub fn copy_keys(keys: &Vec<StateKey>) -> (r: Vec<StateKey>)
    ensures
        key_views(r@) == key_views(keys@),
{
    let mut r: Vec<StateKey> = Vec::new();
    let mut i: usize = 0;
    while i < keys.len()
        invariant
            i <= keys@.len(),
            key_views(r@) == key_views(keys@).subrange(0, i as int),
        decreases keys@.len() - i,
    {
        let ghost prev = r@;
        r.push(keys[i].duplicate());
        assert(key_views(r@) =~= key_views(keys@).subrange(0, i + 1)) by {
            assert(key_views(r@) =~= key_views(prev).push(keys@[i as int]@));
        }
        i = i + 1;
    }
    assert(key_views(keys@).subrange(0, i as int) =~= key_views(keys@));
    r
}

/// The partition an item goes to, from what `part_fn` returned for its key:
/// that index modulo the number of partitions.
pub fn partition_for(parts: &Vec<StateKey>, part_index: usize) -> (r: &StateKey)
    requires
        parts@.len() > 0,
    ensures
        r@ == parts@[(part_index as int) % (parts@.len() as int)]@,
{
    &parts[part_index % parts.len()]
}

/// The workers that listed partition `p`.
pub open spec fn listers(listed: Seq<(StateKey, usize)>, p: Seq<char>) -> Set<usize> {
    Set::new(|w: usize| listed_pairs(listed).contains((p, w)))
}

/// The workers that listed partition `p`, ascending.
pub open spec fn ascending_listers(listed: Seq<(StateKey, usize)>, p: Seq<char>) -> Seq<usize> {
    choose|ws: Seq<usize>| ascending_workers(ws) && ws.to_set() == listers(listed, p)
}

/// Elects one primary worker per partition. `listed` holds `(partition,
/// worker)` for each partition each worker can reach, in any order. The
/// partitions are taken in key order; the `i`-th goes to the worker at
/// position `i` modulo the count among the ascending workers that listed it.
pub fn assign_primaries(listed: &Vec<(StateKey, usize)>) -> (r: KeyMap<usize>)
    ensures
        r.wf(),
        forall|p: Seq<char>| #[trigger] r.map().contains_key(p) == listed_parts(listed@).contains(p),
        forall|p: Seq<char>| r.map().contains_key(p) ==> listed_pairs(listed@).contains((p, #[trigger] r.map()[p])),
        forall|p: Seq<char>| #[trigger] r.map().contains_key(p) ==> ascending_listers(listed@, p).len() > 0
            && r.map()[p] == ascending_listers(listed@, p)[r.index_of(p) % (ascending_listers(listed@, p).len() as int)],
{
    // Partition -> ascending distinct workers that listed it.
    let mut workers: KeyMap<Vec<usize>> = KeyMap::new();
    let mut i: usize = 0;
    proof {
        assert forall|p: Seq<char>| !workers.map().contains_key(p) implies #[trigger] listers(listed@.subrange(0, 0), p).is_empty() by {
            assert(listers(listed@.subrange(0, 0), p) =~= Set::<usize>::empty());
        }
    }
    while i < listed.len()
        invariant
            i <= listed@.len(),
            workers.wf(),
            forall|p: Seq<char>| #[trigger] workers.map().contains_key(p) == listed_parts(listed@.subrange(0, i as int)).contains(p),
            forall|p: Seq<char>, w: usize| workers.map().contains_key(p) && (#[trigger] workers.map()[p])@.contains(w)
                ==> #[trigger] listed_pairs(listed@).contains((p, w)),
            forall|p: Seq<char>| workers.map().contains_key(p) ==> (#[trigger] workers.map()[p])@.len() > 0,
            forall|p: Seq<char>| workers.map().contains_key(p) ==> ascending_workers((#[trigger] workers.map()[p])@),
            forall|p: Seq<char>| workers.map().contains_key(p) ==> (#[trigger] workers.map()[p])@.to_set()
                == listers(listed@.subrange(0, i as int), p),
            forall|p: Seq<char>| !workers.map().contains_key(p) ==> #[trigger] listers(listed@.subrange(0, i as int), p).is_empty(),
        decreases listed@.len() - i,
    {
        let key = &listed[i].0;
        let w = listed[i].1;
        proof {
            assert(listed_pairs(listed@)[i as int] == (key@, w));
            assert(listed_pairs(listed@).contains((key@, w)));
            assert(listed@.subrange(0, i + 1) =~= listed@.subrange(0, i as int).push(listed@[i as int]));
            assert(listed_parts(listed@.subrange(0, i + 1)) =~= listed_parts(listed@.subrange(0, i as int)).push(key@));
        }
        let ghost m0 = workers.map();
        match workers.find(key) {
            Some(j) => {
                let ghost before = workers;
                proof {
                    workers.lemma_index(j as int);
                    assert(ascending_workers(workers.map()[key@]@));
                }
                let slot = workers.value_at_mut(j);
                insert_ascending_usize(slot, w);
                proof {
                    KeyMap::lemma_update(before, workers, j as int, workers.entries()[j as int].1);
                }
            },
            None => {
                let mut fresh: Vec<usize> = Vec::new();
                fresh.push(w);
                workers.insert(key.duplicate(), fresh);
                proof {
                    assert(workers.map()[key@]@[0] == w);
                }
            },
        }
        proof {
            let l0 = listed_parts(listed@.subrange(0, i as int));
            let l1 = listed_parts(listed@.subrange(0, i + 1));
            assert forall|p: Seq<char>| #[trigger] workers.map().contains_key(p) == l1.contains(p) by {
                if l1.contains(p) && p != key@ {
                    let j = choose|j: int| 0 <= j < l1.len() && l1[j] == p;
                    assert(l0[j] == p);
                }
                if l0.contains(p) {
                    let j = choose|j: int| 0 <= j < l0.len() && l0[j] == p;
                    assert(l1[j] == p);
                }
                assert(l1[i as int] == key@);
            }
            assert forall|p: Seq<char>| workers.map().contains_key(p) implies (#[trigger] workers.map()[p])@.len() > 0 by {
                if p == key@ && m0.contains_key(p) {
                    assert(workers.map()[p]@.contains(w));
                }
            }
            let pre = listed@.subrange(0, i as int);
            let pre1 = listed@.subrange(0, i + 1);
            assert forall|p: Seq<char>, x: usize| #[trigger] listers(pre1, p).contains(x) == (listers(pre, p).contains(x) || (p == key@ && x == w)) by {
                assert(listed_pairs(pre1) =~= listed_pairs(pre).push((key@, w)));
                if listed_pairs(pre1).contains((p, x)) && !(p == key@ && x == w) {
                    let t = choose|t: int| 0 <= t < listed_pairs(pre1).len() && listed_pairs(pre1)[t] == (p, x);
                    assert(listed_pairs(pre)[t] == (p, x));
                }
                if listed_pairs(pre).contains((p, x)) {
                    let t = choose|t: int| 0 <= t < listed_pairs(pre).len() && listed_pairs(pre)[t] == (p, x);
                    assert(listed_pairs(pre1)[t] == (p, x));
                }
                assert(listed_pairs(pre1)[i as int] == (key@, w));
            }
            assert forall|p: Seq<char>| workers.map().contains_key(p) implies (#[trigger] workers.map()[p])@.to_set()
                == listers(pre1, p) by {
                assert forall|x: usize| workers.map()[p]@.to_set().contains(x) == listers(pre1, p).contains(x) by {
                    assert(listers(pre1, p).contains(x) == (listers(pre, p).contains(x) || (p == key@ && x == w)));
                    if p != key@ {
                        assert(workers.map()[p] == m0[p]);
                        assert(m0[p]@.to_set() == listers(pre, p));
                    } else if m0.contains_key(p) {
                        assert(m0[p]@.to_set() == listers(pre, p));
                        assert(workers.map()[p]@.contains(x) == (m0[p]@.contains(x) || x == w));
                    } else {
                        assert(listers(pre, p).is_empty());
                        assert(!listers(pre, p).contains(x));
                        assert(workers.map()[p]@ == seq![w]);
                        assert(workers.map()[p]@.contains(x) == (x == w)) by {
                            if x == w { assert(workers.map()[p]@[0] == w); }
                        }
                    }
                }
                assert(workers.map()[p]@.to_set() =~= listers(pre1, p));
            }
            assert forall|p: Seq<char>| !workers.map().contains_key(p) implies #[trigger] listers(pre1, p).is_empty() by {
                assert(p != key@);
                assert(!m0.contains_key(p));
                assert(listers(pre, p).is_empty());
                assert forall|x: usize| !listers(pre1, p).contains(x) by {
                    assert(listers(pre1, p).contains(x) == (listers(pre, p).contains(x) || (p == key@ && x == w)));
                    assert(!listers(pre, p).contains(x));
                }
                assert(listers(pre1, p) =~= Set::<usize>::empty());
            }
        }
        i = i + 1;
    }
    proof {
        assert(listed@.subrange(0, i as int) =~= listed@);
        assert forall|p: Seq<char>| workers.map().contains_key(p) implies (#[trigger] workers.map()[p])@ == ascending_listers(listed@, p) by {
            let ws = workers.map()[p]@;
            assert(ascending_workers(ws) && ws.to_set() == listers(listed@, p));
            let c = ascending_listers(listed@, p);
            lemma_ascending_unique(ws, c);
        }
    }
    let mut r: KeyMap<usize> = KeyMap::new();
    let n = workers.len();
    let mut j: usize = 0;
    while j < n
        invariant
            n == workers.entries().len(),
            workers.wf(),
            j <= n,
            r.wf(),
            forall|p: Seq<char>| #[trigger] r.map().contains_key(p) == workers.key_seq().subrange(0, j as int).contains(p),
            forall|p: Seq<char>| r.map().contains_key(p) ==> workers.map().contains_key(p) && workers.map()[p]@.contains(#[trigger] r.map()[p]),
            forall|p: Seq<char>| #[trigger] workers.map().contains_key(p) == listed_parts(listed@).contains(p),
            forall|p: Seq<char>| workers.map().contains_key(p) ==> (#[trigger] workers.map()[p])@.len() > 0,
            forall|p: Seq<char>| workers.map().contains_key(p) ==> (#[trigger] workers.map()[p])@ == ascending_listers(listed@, p),
            r.key_seq() == workers.key_seq().subrange(0, j as int),
            forall|t: int| 0 <= t < j ==> (#[trigger] r.entries()[t]).1 == workers.entries()[t].1@[t % (workers.entries()[t].1@.len() as int)],
        decreases n - j,
    {
        proof {
            workers.lemma_index(j as int);
            assert forall|t: int| 0 <= t < r.key_seq().len() implies key_lt(#[trigger] r.key_seq()[t], workers.key_seq()[j as int]) by {
                assert(r.key_seq()[t] == workers.key_seq()[t]);
            }
        }
        let ws = workers.value_at(j);
        let primary = ws[j % ws.len()];
        let ghost kj = workers.key_seq()[j as int];
        let ghost r0 = r;
        r.push_last(workers.key_at(j).duplicate(), primary);
        proof {
            assert(r.key_seq() =~= workers.key_seq().subrange(0, j + 1));
            assert forall|t: int| 0 <= t < j + 1 implies (#[trigger] r.entries()[t]).1 == workers.entries()[t].1@[t % (workers.entries()[t].1@.len() as int)] by {
                if t < j {
                    assert(r.entries()[t] == r0.entries()[t]);
                }
            }
            assert forall|p: Seq<char>| #[trigger] r.map().contains_key(p) ==> workers.map().contains_key(p) && workers.map()[p]@.contains(r.map()[p]) by {
                if r.map().contains_key(p) {
                    let t = choose|t: int| 0 <= t < r.key_seq().len() && r.key_seq()[t] == p;
                    r.lemma_index(t);
                    workers.lemma_index(t);
                    assert(r.key_seq()[t] == workers.key_seq()[t]);
                    let wt = workers.entries()[t].1@;
                    assert(wt.len() > 0);
                    assert(wt.contains(wt[t % (wt.len() as int)]));
                }
            }
        }
        proof {
            let s0 = workers.key_seq().subrange(0, j as int);
            let s1 = workers.key_seq().subrange(0, j + 1);
            assert(s1 =~= s0.push(kj));
            assert(ws@.contains(primary));
            assert forall|p: Seq<char>| #[trigger] r.map().contains_key(p) == s1.contains(p) by {
                if s1.contains(p) && p != kj {
                    let x = choose|x: int| 0 <= x < s1.len() && s1[x] == p;
                    assert(s0[x] == p);
                }
                if s0.contains(p) {
                    let x = choose|x: int| 0 <= x < s0.len() && s0[x] == p;
                    assert(s1[x] == p);
                }
                assert(s1[j as int] == kj);
            }
        }
        j = j + 1;
    }
    proof {
        assert(workers.key_seq().subrange(0, j as int) =~= workers.key_seq());
        assert forall|p: Seq<char>| #[trigger] r.map().contains_key(p) implies ascending_listers(listed@, p).len() > 0
            && r.map()[p] == ascending_listers(listed@, p)[r.index_of(p) % (ascending_listers(listed@, p).len() as int)] by {
            let t = choose|t: int| 0 <= t < r.key_seq().len() && r.key_seq()[t] == p;
            r.lemma_index(t);
            workers.lemma_index(t);
            assert(r.key_seq()[t] == workers.key_seq()[t]);
        }
        workers.lemma_map_dom();
        assert forall|p: Seq<char>| #[trigger] r.map().contains_key(p) == listed_parts(listed@).contains(p) by {
            assert(workers.map().dom().contains(p) == workers.key_seq().to_set().contains(p));
        }
    }
    r
}

/// The partitions of a listing, in order, repeats included.
pub open spec fn listed_parts(listed: Seq<(StateKey, usize)>) -> Seq<Seq<char>> {
    listed.map_values(|l: (StateKey, usize)| l.0@)
}

/// The `(partition, worker)` pairs of a listing.
pub open spec fn listed_pairs(listed: Seq<(StateKey, usize)>) -> Seq<(Seq<char>, usize)> {
    listed.map_values(|l: (StateKey, usize)| (l.0@, l.1))
}

/// Two ascending runs of the same workers are the same run.
proof fn lemma_ascending_unique(a: Seq<usize>, b: Seq<usize>)
    requires
        ascending_workers(a),
        ascending_workers(b),
        a.to_set() == b.to_set(),
    ensures
        a == b,
    decreases a.len(),
{
    if a.len() == 0 {
        if b.len() > 0 {
            assert(b.to_set().contains(b[0]));
        }
        assert(a =~= b);
    } else {
        assert(a.to_set().contains(a[0]));
        assert(b.to_set().contains(a[0]));
        assert(b.len() > 0);
        assert(b.to_set().contains(b[0]));
        assert(a.to_set().contains(b[0]));
        let i = choose|i: int| 0 <= i < b.len() && b[i] == a[0];
        let j = choose|j: int| 0 <= j < a.len() && a[j] == b[0];
        if i > 0 {
            assert(b[0] < b[i]);
            if j > 0 {
                assert(a[0] < a[j]);
            }
        }
        assert(a[0] == b[0]);
        let a1 = a.drop_first();
        let b1 = b.drop_first();
        assert forall|x: usize| a1.to_set().contains(x) == b1.to_set().contains(x) by {
            if a1.contains(x) {
                let t = choose|t: int| 0 <= t < a1.len() && a1[t] == x;
                assert(a[t + 1] == x);
                assert(a[0] < a[t + 1]);
                assert(a.to_set().contains(x));
                let u = choose|u: int| 0 <= u < b.len() && b[u] == x;
                assert(u != 0);
                assert(b1[u - 1] == x);
            }
            if b1.contains(x) {
                let t = choose|t: int| 0 <= t < b1.len() && b1[t] == x;
                assert(b[t + 1] == x);
                assert(b[0] < b[t + 1]);
                assert(b.to_set().contains(x));
                let u = choose|u: int| 0 <= u < a.len() && a[u] == x;
                assert(u != 0);
                assert(a1[u - 1] == x);
            }
        }
        assert(a1.to_set() =~= b1.to_set());
        lemma_ascending_unique(a1, b1);
        assert(a =~= seq![a[0]] + a1);
        assert(b =~= seq![b[0]] + b1);
    }
}

pub open spec fn ascending_workers(s: Seq<usize>) -> bool {
    forall|i: int, j: int| 0 <= i < j < s.len() ==> #[trigger] s[i] < #[trigger] s[j]
}

/// Adds `w` to an ascending run of workers, unless already there.
fn insert_ascending_usize(v: &mut Vec<usize>, w: usize)
    requires
        ascending_workers(old(v)@),
    ensures
        ascending_workers(final(v)@),
        forall|x: usize| #[trigger] final(v)@.contains(x) == (old(v)@.contains(x) || x == w),
{
    let mut p: usize = 0;
    while p < v.len() && v[p] < w
        invariant
            ascending_workers(v@),
            *v == *old(v),
            p <= v@.len(),
            forall|j: int| 0 <= j < p ==> #[trigger] v@[j] < w,
        decreases v@.len() - p,
    {
        p = p + 1;
    }
    if p < v.len() && v[p] == w {
        assert(v@.contains(w)) by {
            assert(v@[p as int] == w);
        }
        return;
    }
    let ghost s = v@;
    assert(s == old(v)@);
    v.insert(p, w);
    proof {
        assert(v@ =~= s.insert(p as int, w));
        assert forall|j: int| p <= j < s.len() implies w < #[trigger] s[j] by {
            assert(s[p as int] <= s[j]);
        }
        assert forall|x: usize| #[trigger] v@.contains(x) == (s.contains(x) || x == w) by {
            if s.contains(x) {
                let j = choose|j: int| 0 <= j < s.len() && s[j] == x;
                if j < p {
                    assert(v@[j] == x);
                } else {
                    assert(v@[j + 1] == x);
                }
            }
            if v@.contains(x) {
                let j = choose|j: int| 0 <= j < v@.len() && v@[j] == x;
                if j < p {
                    assert(s[j] == x);
                } else if j > p {
                    assert(s[j - 1] == x);
                }
            }
            assert(v@[p as int] == w);
        }
    }
}

pub struct OutputState<P, S> {
    step_id: StepId,
    sink: S,
    parts: KeyMap<P>,
    awoken: KeyMap<()>,
    snapshot_mode: SnapshotMode,
}

impl<P: SinkPartition, S: FixedPartitionedSink<P>> OutputState<P, S> {
    pub closed spec fn step(self) -> Seq<char> {
        self.step_id@
    }

    pub closed spec fn mode(self) -> SnapshotMode {
        self.snapshot_mode
    }

    /// Live partition writers by partition key.
    pub closed spec fn parts(self) -> Map<Seq<char>, P> {
        self.parts.map()
    }

    /// Partitions written since their last snapshot.
    pub closed spec fn awoken_set(self) -> Set<Seq<char>> {
        self.awoken.map().dom()
    }

    pub closed spec fn wf(self) -> bool {
        self.parts.wf() && self.awoken.wf()
    }

    /// Registers the step and rebuilds the partitions it resumes from; fails
    /// if a snapshot names a partition the sink does not list.
    pub fn init(step_id: StepId, resume: Option<ResumeState>, sink: S, snapshot_mode: SnapshotMode) -> (r:
        Result<Self, OutputError>)
        ensures
            resume is None ==> r is Ok,
            r is Ok ==> {
                let s = r.unwrap();
                &&& s.wf()
                &&& s.step() == step_id@
                &&& s.mode() == snapshot_mode
                &&& s.awoken_set().is_empty()
                &&& forall|k: Seq<char>|
                    s.parts().contains_key(k) == (match resume {
                        Some(rs) => crate::stateful::restored(crate::stateful::snaps_view(rs.snaps@), k),
                        None => false,
                    })
            },
    {
        let mut this = OutputState {
            step_id,
            sink,
            parts: KeyMap::new(),
            awoken: KeyMap::new(),
            snapshot_mode,
        };
        proof {
            assert(this.awoken_set() =~= Set::empty());
        }
        match resume {
            None => Ok(this),
            Some(rs) => {
                let listed = match this.sink.list_parts() {
                    Ok(l) => l,
                    Err(message) => {
                        return Err(OutputError::ListParts { step_id: this.step_id.duplicate(), message });
                    },
                };
                match check_known_parts(&this.step_id, &listed, &rs.snaps) {
                    Ok(()) => {},
                    Err(u) => {
                        return Err(OutputError::Unknown(u));
                    },
                }
                let ghost all = crate::stateful::snaps_view(rs.snaps@);
                let mut i: usize = 0;
                while i < rs.snaps.len()
                    invariant
                        this.wf(),
                        this.step() == step_id@,
                        this.mode() == snapshot_mode,
                        this.awoken_set().is_empty(),
                        all == crate::stateful::snaps_view(rs.snaps@),
                        resume is Some,
                        i <= rs.snaps@.len(),
                        forall|k: Seq<char>|
                            this.parts().contains_key(k) == crate::stateful::restored(all.subrange(0, i as int), k),
                    decreases rs.snaps@.len() - i,
                {
                    let key = rs.snaps[i].0.duplicate();
                    proof {
                        assert(all.subrange(0, i + 1).drop_last() =~= all.subrange(0, i as int));
                        assert(all.subrange(0, i + 1).last() == all[i as int]);
                        assert(all[i as int] == (rs.snaps@[i as int].0@, rs.snaps@[i as int].1.is_some()));
                    }
                    match &rs.snaps[i].1 {
                        Some(bytes) => {
                            match this.sink.build_part(&this.step_id, &key, Some(bytes.clone())) {
                                Ok(part) => {
                                    this.parts.insert(key, part);
                                },
                                Err(message) => {
                                    return Err(OutputError::Logic(logic_error(&this.step_id, &key, Callback::Build, message)));
                                },
                            }
                        },
                        None => {
                            match this.parts.remove(&key) {
                                Some(part) => match part.close() {
                                    Ok(()) => {},
                                    Err(message) => {
                                        return Err(OutputError::Logic(logic_error(&this.step_id, &key, Callback::Close, message)));
                                    },
                                },
                                None => {},
                            }
                        },
                    }
                    proof {
                        let next = all.subrange(0, i + 1);
                        assert forall|k: Seq<char>|
                            this.parts().contains_key(k) == crate::stateful::restored(next, k) by {
                            assert(next.len() > 0);
                            assert(crate::stateful::restored(next, k) == if next.last().0 == k {
                                next.last().1
                            } else {
                                crate::stateful::restored(next.drop_last(), k)
                            });
                        }
                    }
                    i = i + 1;
                }
                proof {
                    assert(all.subrange(0, i as int) =~= all);
                }
                Ok(this)
            },
        }
    }

    pub fn step_id(&self) -> (r: &StepId)
        ensures
            r@ == self.step(),
    {
        &self.step_id
    }

    /// Builds the writer of partition `state_key` (from `state` if given)
    /// and stores it; the partition must be one the sink lists.
    pub fn insert(&mut self, state_key: StateKey, state: Option<Vec<u8>>) -> (r: Result<(), OutputError>)
        requires
            old(self).wf(),
        ensures
            final(self).wf(),
            final(self).step() == old(self).step(),
            final(self).mode() == old(self).mode(),
            final(self).awoken_set() == old(self).awoken_set(),
            r is Ok ==> final(self).parts().dom() == old(self).parts().dom().insert(state_key@),
            r is Err ==> final(self).parts() == old(self).parts(),
            r matches Err(OutputError::Unknown(u)) ==> u.key@ == state_key@ && !key_views(u.known@).contains(state_key@),
            !(r matches Err(OutputError::Misrouted { .. })),
    {
        let listed = match self.sink.list_parts() {
            Ok(l) => l,
            Err(message) => {
                return Err(OutputError::ListParts { step_id: self.step_id.duplicate(), message });
            },
        };
        if !is_listed(&listed, &state_key) {
            return Err(OutputError::Unknown(UnknownPartition { step_id: self.step_id.duplicate(), key: state_key, known: listed }));
        }
        match self.sink.build_part(&self.step_id, &state_key, state) {
            Ok(part) => {
                let ghost k = state_key@;
                self.parts.insert(state_key, part);
                proof {
                    assert(self.parts().dom() =~= old(self).parts().dom().insert(k));
                }
                Ok(())
            },
            Err(message) => Err(OutputError::Logic(logic_error(&self.step_id, &state_key, Callback::Build, message))),
        }
    }

    /// Whether partition `key` has a live writer.
    pub fn contains_key(&self, key: &StateKey) -> (r: bool)
        requires
            self.wf(),
        ensures
            r == self.parts().contains_key(key@),
    {
        self.parts.contains_key(key)
    }

    /// Marks partition `key` written and hands it `batch`.
    pub fn write_batch(&mut self, key: &StateKey, batch: Vec<P::Value>) -> (r: Result<(), LogicError>)
        requires
            old(self).wf(),
            old(self).parts().contains_key(key@),
        ensures
            final(self).wf(),
            final(self).parts().dom() == old(self).parts().dom(),
            final(self).step() == old(self).step(),
            final(self).mode() == old(self).mode(),
            final(self).awoken_set() == old(self).awoken_set().insert(key@),
            r is Err ==> r->Err_0.step_id@ == old(self).step() && r->Err_0.key@ == key@,
    {
        self.awoken.insert(key.duplicate(), ());
        let i = match self.parts.find(key) {
            Some(i) => i,
            None => {
                return Err(logic_error(&self.step_id, key, Callback::WriteBatch, String::new()));
            },
        };
        let ghost before = self.parts;
        let res = {
            let part = self.parts.value_at_mut(i);
            part.write_batch(batch)
        };
        proof {
            KeyMap::lemma_update(before, self.parts, i as int, self.parts.entries()[i as int].1);
            assert(self.parts().dom() =~= old(self).parts().dom());
        }
        match res {
            Ok(()) => Ok(()),
            Err(message) => Err(logic_error(&self.step_id, key, Callback::WriteBatch, message)),
        }
    }

    /// The snapshot of partition `key` at `epoch`; a tombstone when it has
    /// no writer.
    pub fn snap(&self, key: StateKey, epoch: u64) -> (r: Result<SerializedSnapshot, LogicError>)
        requires
            self.wf(),
        ensures
            !self.parts().contains_key(key@) ==> r is Ok,
            r is Err ==> r->Err_0.step_id@ == self.step() && r->Err_0.key@ == key@,
            r is Ok ==> r.unwrap().step_id@ == self.step() && r.unwrap().state_key@ == key@
                && r.unwrap().epoch == epoch && r.unwrap().payload.is_some()
                == self.parts().contains_key(key@),
    {
        let payload = match self.parts.get(&key) {
            Some(part) => match part.snapshot() {
                Ok(bytes) => Some(bytes),
                Err(message) => {
                    return Err(logic_error(&self.step_id, &key, Callback::Snapshot, message));
                },
            },
            None => None,
        };
        Ok(SerializedSnapshot::new(self.step_id.duplicate(), key, epoch, payload))
    }

    /// Snapshots of every written partition at `epoch`, in key order; the
    /// written set is emptied.
    fn drain_snapshots(&mut self, epoch: u64) -> (r: Result<Vec<SerializedSnapshot>, LogicError>)
        requires
            old(self).wf(),
        ensures
            final(self).wf(),
            final(self).parts() == old(self).parts(),
            final(self).step() == old(self).step(),
            final(self).mode() == old(self).mode(),
            r is Ok ==> snaps_of(r.unwrap()@, old(self).step(), epoch, old(self).parts()),
            r is Ok ==> keys_sorted(snap_keys(r.unwrap()@)) && snap_keys(r.unwrap()@).to_set()
                == old(self).awoken_set() && final(self).awoken_set().is_empty(),
            (forall|k: Seq<char>| #[trigger] old(self).awoken_set().contains(k) ==> !old(self).parts().contains_key(k))
                ==> r is Ok,
            r is Err ==> r->Err_0.step_id@ == old(self).step(),
    {
        let mut res: Vec<SerializedSnapshot> = Vec::new();
        let keys = self.awoken.keys();
        proof {
            self.awoken.lemma_map_dom();
        }
        let ghost kv = key_views(keys@);
        let mut i: usize = 0;
        while i < keys.len()
            invariant
                self.wf(),
                *self == *old(self),
                kv == key_views(keys@),
                kv == self.awoken.key_seq(),
                i <= keys@.len(),
                snaps_of(res@, self.step(), epoch, self.parts()),
                snap_keys(res@) == kv.subrange(0, i as int),
                kv.to_set() == self.awoken_set(),
            decreases keys@.len() - i,
        {
            proof {
                assert(kv.to_set().contains(kv[i as int]));
            }
            let snap = self.snap(keys[i].duplicate(), epoch)?;
            let ghost prev = res@;
            res.push(snap);
            proof {
                assert(snap_keys(res@) =~= snap_keys(prev).push(kv[i as int]));
                assert(kv.subrange(0, i + 1) =~= kv.subrange(0, i as int).push(kv[i as int]));
            }
            i = i + 1;
        }
        proof {
            assert(kv.subrange(0, i as int) =~= kv);
        }
        let _ = self.awoken.drain();
        proof {
            assert(self.awoken_set() =~= Set::empty());
        }
        Ok(res)
    }

    /// In immediate mode, drains the written partitions into snapshots at
    /// `epoch`; otherwise takes none.
    pub fn immediate_snapshots(&mut self, epoch: u64) -> (r: Result<Vec<SerializedSnapshot>, LogicError>)
        requires
            old(self).wf(),
        ensures
            final(self).wf(),
            final(self).parts() == old(self).parts(),
            final(self).step() == old(self).step(),
            final(self).mode() == old(self).mode(),
            r is Ok ==> snaps_of(r.unwrap()@, old(self).step(), epoch, old(self).parts()),
            r is Ok && old(self).mode() == SnapshotMode::Immediate ==> keys_sorted(snap_keys(r.unwrap()@))
                && snap_keys(r.unwrap()@).to_set() == old(self).awoken_set() && final(self).awoken_set().is_empty(),
            r is Ok && old(self).mode() == SnapshotMode::Batch ==> r.unwrap()@.len() == 0
                && final(self).awoken_set() == old(self).awoken_set(),
            old(self).mode() == SnapshotMode::Batch ==> r is Ok,
            (forall|k: Seq<char>| #[trigger] old(self).awoken_set().contains(k) ==> !old(self).parts().contains_key(k))
                ==> r is Ok,
            r is Err ==> r->Err_0.step_id@ == old(self).step(),
    {
        if self.snapshot_mode.immediate() {
            self.drain_snapshots(epoch)
        } else {
            Ok(Vec::new())
        }
    }

    /// In batch mode, drains the written partitions into snapshots at
    /// `epoch`; otherwise takes none.
    pub fn batch_snapshots(&mut self, epoch: u64) -> (r: Result<Vec<SerializedSnapshot>, LogicError>)
        requires
            old(self).wf(),
        ensures
            final(self).wf(),
            final(self).parts() == old(self).parts(),
            final(self).step() == old(self).step(),
            final(self).mode() == old(self).mode(),
            r is Ok ==> snaps_of(r.unwrap()@, old(self).step(), epoch, old(self).parts()),
            r is Ok && old(self).mode() == SnapshotMode::Batch ==> keys_sorted(snap_keys(r.unwrap()@))
                && snap_keys(r.unwrap()@).to_set() == old(self).awoken_set() && final(self).awoken_set().is_empty(),
            r is Ok && old(self).mode() == SnapshotMode::Immediate ==> r.unwrap()@.len() == 0
                && final(self).awoken_set() == old(self).awoken_set(),
            old(self).mode() == SnapshotMode::Immediate ==> r is Ok,
            (forall|k: Seq<char>| #[trigger] old(self).awoken_set().contains(k) ==> !old(self).parts().contains_key(k))
                ==> r is Ok,
            r is Err ==> r->Err_0.step_id@ == old(self).step(),
    {
        if self.snapshot_mode.batch() {
            self.drain_snapshots(epoch)
        } else {
            Ok(Vec::new())
        }
    }
}

/// Routes items to partitions and partitions to their primary workers.
pub struct Router {
    parts: Vec<StateKey>,
    primaries: KeyMap<usize>,
}

impl Router {
    /// The partitions, in key order.
    pub closed spec fn part_seq(self) -> Seq<Seq<char>> {
        key_views(self.parts@)
    }

    /// The primary worker of each partition.
    pub closed spec fn primary(self) -> Map<Seq<char>, usize> {
        self.primaries.map()
    }

    pub closed spec fn wf(self) -> bool {
        &&& self.primaries.wf()
        &&& key_views(self.parts@) == self.primaries.key_seq()
    }

    /// Elects the primaries from what each worker listed, as `assign_primaries` does.
    pub fn new(listed: &Vec<(StateKey, usize)>) -> (r: Router)
        ensures
            r.wf(),
            keys_sorted(r.part_seq()),
            r.part_seq().to_set() == r.primary().dom(),
            forall|p: Seq<char>| #[trigger] r.primary().contains_key(p) == listed_parts(listed@).contains(p),
            forall|p: Seq<char>| r.primary().contains_key(p) ==> listed_pairs(listed@).contains((p, #[trigger] r.primary()[p])),
    {
        let primaries = assign_primaries(listed);
        let parts = primaries.keys();
        proof {
            primaries.lemma_map_dom();
        }
        Router { parts, primaries }
    }

    /// The partitions, in key order.
    pub fn parts(&self) -> (r: &Vec<StateKey>)
        ensures
            key_views(r@) == self.part_seq(),
    {
        &self.parts
    }

    /// Where an item goes, given what `part_fn` returned for its key: the
    /// partition at that index modulo the number of partitions, and that
    /// partition's primary worker.
    pub fn route(&self, part_index: usize) -> (r: Result<(usize, StateKey), OutputError>)
        requires
            self.wf(),
        ensures
            r is Err == (self.part_seq().len() == 0),
            r is Err ==> r matches Err(OutputError::NoPartitions),
            r is Ok ==> {
                let (w, p) = r.unwrap();
                &&& p@ == self.part_seq()[(part_index as int) % (self.part_seq().len() as int)]
                &&& self.primary().contains_key(p@)
                &&& w == self.primary()[p@]
            },
    {
        if self.parts.len() == 0 {
            return Err(OutputError::NoPartitions);
        }
        let part = partition_for(&self.parts, part_index);
        proof {
            let i = (part_index as int) % (self.parts@.len() as int);
            assert(key_views(self.parts@)[i] == self.parts@[i]@);
            self.primaries.lemma_index(i);
        }
        match self.primaries.get(part) {
            Some(w) => Ok((*w, part.duplicate())),
            None => Err(OutputError::NoPartitions),
        }
    }
}

/// The stateful sink operator of one worker.
pub struct PartitionedOutputOperator<P, S> {
    state: OutputState<P, S>,
    this_worker: usize,
}

/// The partitions that `items` are routed to.
pub open spec fn written_parts<V>(items: Seq<(usize, StateKey, V)>) -> Set<Seq<char>> {
    Set::new(|p: Seq<char>| exists|j: int| 0 <= j < items.len() && (#[trigger] items[j]).1@ == p)
}

/// Some item is routed to another worker than `this_worker`.
pub open spec fn misrouted_parts<V>(items: Seq<(usize, StateKey, V)>, this_worker: usize) -> bool {
    exists|i: int| 0 <= i < items.len() && (#[trigger] items[i]).0 != this_worker
}

impl<P: SinkPartition, S: FixedPartitionedSink<P>> PartitionedOutputOperator<P, S> {
    pub closed spec fn state_model(self) -> OutputState<P, S> {
        self.state
    }

    pub closed spec fn worker(self) -> usize {
        self.this_worker
    }

    pub fn new(state: OutputState<P, S>, this_worker: usize) -> (r: Self)
        ensures
            r.state_model() == state,
            r.worker() == this_worker,
    {
        PartitionedOutputOperator { state, this_worker }
    }

    pub fn state(&self) -> (r: &OutputState<P, S>)
        ensures
            *r == self.state_model(),
    {
        &self.state
    }

    /// The eager phase of `epoch`: hands each partition, in key order, the
    /// values routed to it (`(worker, partition, value)`), building writers
    /// it lacks; in immediate mode, returns the snapshots of the written
    /// partitions.
    pub fn write_epoch(&mut self, epoch: u64, items: Vec<(usize, StateKey, P::Value)>) -> (r: Result<
        Vec<SerializedSnapshot>,
        OutputError,
    >)
        requires
            old(self).state_model().wf(),
        ensures
            r matches Err(OutputError::Misrouted { .. }) <==> misrouted_parts(items@, old(self).worker()),
            r matches Err(OutputError::Misrouted { .. }) ==> *final(self) == *old(self),
            r is Ok ==> {
                let st = final(self).state_model();
                &&& st.wf()
                &&& st.step() == old(self).state_model().step()
                &&& st.mode() == old(self).state_model().mode()
                &&& snaps_of(r.unwrap()@, st.step(), epoch, st.parts())
                &&& forall|i: int| 0 <= i < items@.len() ==> st.parts().contains_key((#[trigger] items@[i]).1@)
                &&& forall|i: int| 0 <= i < items@.len() ==> (st.mode() == SnapshotMode::Immediate ==> snap_keys(
                    r.unwrap()@,
                ).contains((#[trigger] items@[i]).1@))
                &&& forall|i: int| 0 <= i < items@.len() ==> (st.mode() == SnapshotMode::Batch ==> st.awoken_set().contains(
                    (#[trigger] items@[i]).1@,
                ))
                &&& st.mode() == SnapshotMode::Immediate ==> keys_sorted(snap_keys(r.unwrap()@))
                &&& st.mode() == SnapshotMode::Immediate ==> snap_keys(r.unwrap()@).to_set()
                    == old(self).state_model().awoken_set() + written_parts(items@) && st.awoken_set().is_empty()
                &&& st.mode() == SnapshotMode::Batch ==> r.unwrap()@.len() == 0 && st.awoken_set()
                    == old(self).state_model().awoken_set() + written_parts(items@)
            },
            items@.len() == 0 && (old(self).state_model().mode() == SnapshotMode::Batch
                || old(self).state_model().awoken_set().is_empty()) ==> r is Ok,
    {
        let mut i: usize = 0;
        while i < items.len()
            invariant
                i <= items@.len(),
                forall|j: int| 0 <= j < i ==> (#[trigger] items@[j]).0 == self.this_worker,
            decreases items@.len() - i,
        {
            if items[i].0 != self.this_worker {
                return Err(
                    OutputError::Misrouted {
                        part: items[i].1.duplicate(),
                        worker: items[i].0,
                        this_worker: self.this_worker,
                    },
                );
            }
            i = i + 1;
        }
        let ghost all = items@;
        let stripped = strip_routes(items);
        let ghost sv = stripped@;
        proof {
            assert forall|j: int| 0 <= j < all.len() implies item_keys(sv).contains((#[trigger] all[j]).1@) by {
                assert(item_keys(sv)[j] == all[j].1@);
            }
        }
        let mut keyed = group_by_key(stripped);
        let ghost k0 = keyed;
        let groups = keyed.drain();
        let ghost gk = groups@.map_values(|g: (StateKey, Vec<P::Value>)| g.0@);
        proof {
            let ge = groups@.map_values(|e: (StateKey, Vec<P::Value>)| (e.0@, e.1));
            assert(ge == k0.entries());
            assert forall|j: int| 0 <= j < gk.len() implies gk[j] == k0.key_seq()[j] by {
                assert(ge[j].0 == gk[j]);
            }
            assert(gk =~= k0.key_seq());
            k0.lemma_map_dom();
        }
        let mut rev = into_reversed(groups);
        let ghost mut done: int = 0;
        proof {
            assert(gk.to_set() =~= written_parts(all)) by {
                assert forall|p: Seq<char>| gk.to_set().contains(p) == written_parts(all).contains(p) by {
                    assert(k0.map().dom().contains(p) == item_keys(sv).contains(p));
                    if item_keys(sv).contains(p) {
                        let j = choose|j: int| 0 <= j < item_keys(sv).len() && item_keys(sv)[j] == p;
                        assert(all[j].1@ == p);
                    }
                    if written_parts(all).contains(p) {
                        let j = choose|j: int| 0 <= j < all.len() && (#[trigger] all[j]).1@ == p;
                        assert(item_keys(sv)[j] == p);
                    }
                }
            }
            assert(self.state.awoken_set() =~= old(self).state.awoken_set() + gk.subrange(0, 0).to_set());
            if gk.len() > 0 {
                assert(gk.to_set().contains(gk[0]));
            }
        }
        while rev.len() > 0
            invariant
                self.state.awoken_set() == old(self).state.awoken_set() + gk.subrange(0, done).to_set(),
                gk.len() > 0 ==> all.len() > 0,
                all == items@,
                !misrouted_parts(all, old(self).worker()),
                self.this_worker == old(self).this_worker,
                self.state.wf(),
                self.state.step() == old(self).state.step(),
                self.state.mode() == old(self).state.mode(),
                0 <= done <= gk.len(),
                rev@.len() == gk.len() - done,
                forall|j: int| 0 <= j < rev@.len() ==> (#[trigger] rev@[j]).0@ == gk[gk.len() - 1 - j],
                forall|j: int| 0 <= j < done ==> self.state.parts().contains_key(#[trigger] gk[j]) && self.state.awoken_set().contains(gk[j]),
            decreases rev@.len(),
        {
            proof {
                assert(rev@[rev@.len() - 1].0@ == gk[done]);
            }
            let (part, values) = rev.pop().unwrap();
            if !self.state.contains_key(&part) {
                self.state.insert(part.duplicate(), None)?;
            }
            match self.state.write_batch(&part, values) {
                Ok(()) => {},
                Err(e) => {
                    return Err(OutputError::Logic(e));
                },
            }
            proof {
                let sub = gk.subrange(0, done);
                let sub1 = gk.subrange(0, done + 1);
                assert(sub1 =~= sub.push(gk[done]));
                assert forall|p: Seq<char>| sub1.to_set().contains(p) == sub.to_set().insert(gk[done]).contains(p) by {
                    if sub1.contains(p) && p != gk[done] {
                        let j = choose|j: int| 0 <= j < sub1.len() && sub1[j] == p;
                        assert(sub[j] == p);
                    }
                    if sub.contains(p) {
                        let j = choose|j: int| 0 <= j < sub.len() && sub[j] == p;
                        assert(sub1[j] == p);
                    }
                    assert(sub1[done] == gk[done]);
                }
                assert(sub1.to_set() =~= sub.to_set().insert(gk[done]));
                done = done + 1;
            }
        }
        proof {
            assert(gk.subrange(0, done) =~= gk);
        }
        proof {
            assert forall|j: int| 0 <= j < all.len() implies self.state.parts().contains_key((#[trigger] all[j]).1@)
                && self.state.awoken_set().contains(all[j].1@) by {
                assert(item_keys(sv).contains(all[j].1@));
                assert(k0.map().dom().contains(all[j].1@));
                assert(gk.to_set().contains(all[j].1@));
                let x = choose|x: int| 0 <= x < gk.len() && gk[x] == all[j].1@;
                assert(self.state.parts().contains_key(gk[x]));
            }
        }
        let snaps = match self.state.immediate_snapshots(epoch) {
            Ok(s) => s,
            Err(e) => {
                return Err(OutputError::Logic(e));
            },
        };
        proof {
            assert forall|j: int| 0 <= j < all.len() implies (self.state.mode() == SnapshotMode::Immediate ==> snap_keys(
                snaps@,
            ).contains((#[trigger] all[j]).1@)) by {
                if self.state.mode() == SnapshotMode::Immediate {
                    assert(snap_keys(snaps@).to_set().contains(all[j].1@));
                }
            }
        }
        Ok(snaps)
    }

    /// The closing phase of `epoch`: in batch mode, the snapshots of every
    /// partition written since the last ones.
    pub fn close_epoch(&mut self, epoch: u64) -> (r: Result<Vec<SerializedSnapshot>, OutputError>)
        requires
            old(self).state_model().wf(),
        ensures
            r is Ok ==> {
                let st = final(self).state_model();
                let st0 = old(self).state_model();
                &&& st.wf()
                &&& st.parts() == st0.parts()
                &&& snaps_of(r.unwrap()@, st0.step(), epoch, st0.parts())
                &&& st0.mode() == SnapshotMode::Batch ==> keys_sorted(snap_keys(r.unwrap()@))
                    && snap_keys(r.unwrap()@).to_set() == st0.awoken_set() && st.awoken_set().is_empty()
                &&& st0.mode() == SnapshotMode::Immediate ==> r.unwrap()@.len() == 0
            },
            old(self).state_model().mode() == SnapshotMode::Immediate ==> r is Ok,
            r matches Err(OutputError::Logic(e)) ==> e.step_id@ == old(self).state_model().step(),
    {
        match self.state.batch_snapshots(epoch) {
            Ok(s) => Ok(s),
            Err(e) => Err(OutputError::Logic(e)),
        }
    }
}

} // verus!
