//! Which epochs an activation of the stateful operator works on.
use vstd::prelude::*;
use crate::inbuf::epochs_ascending;

verus! {

broadcast use vstd::seq::group_seq_axioms;

/// An epoch is closed once the input frontier has passed it; at end of
/// input (no frontier) every epoch is closed.
pub open spec fn is_closed(frontier: Option<u64>, e: u64) -> bool {
    match frontier {
        Some(f) => e < f,
        None => true,
    }
}

/// The epoch the input currently sits at; at end of input, the last epoch
/// output was produced at.
pub open spec fn frontier_epoch(frontier: Option<u64>, last_output_epoch: u64) -> u64 {
    match frontier {
        Some(f) => f,
        None => last_output_epoch,
    }
}

/// Whether an activation works on epoch `e`: the last output epoch and every
/// buffered epoch, if closed; and the current frontier epoch, eagerly, once
/// it has reached the resume epoch.
pub open spec fn selected(
    last_output_epoch: u64,
    buffered: Seq<u64>,
    frontier: Option<u64>,
    resume_epoch: u64,
    e: u64,
) -> bool {
    ||| (e == last_output_epoch || buffered.contains(e)) && is_closed(frontier, e)
    ||| e == frontier_epoch(frontier, last_output_epoch) && frontier_epoch(frontier, last_output_epoch)
        >= resume_epoch
}

/// Adds `e` to an ascending run of epochs, unless already there.
pub fn insert_ascending(v: &mut Vec<u64>, e: u64)
    requires
        epochs_ascending(old(v)@),
    ensures
        epochs_ascending(final(v)@),
        forall|x: u64| final(v)@.contains(x) == (old(v)@.contains(x) || x == e),
{
    let mut p: usize = 0;
    while p < v.len() && v[p] < e
        invariant
            epochs_ascending(v@),
            *v == *old(v),
            p <= v@.len(),
            forall|j: int| 0 <= j < p ==> #[trigger] v@[j] < e,
        decreases v@.len() - p,
    {
        p = p + 1;
    }
    if p < v.len() && v[p] == e {
        assert(v@.contains(e)) by {
            assert(v@[p as int] == e);
        }
        return;
    }
    let ghost s = v@;
    v.insert(p, e);
    proof {
        assert(v@ =~= s.insert(p as int, e));
        assert forall|j: int| p <= j < s.len() implies e < #[trigger] s[j] by {
            assert(s[p as int] <= s[j]);
        }
        assert forall|x: u64| v@.contains(x) == (s.contains(x) || x == e) by {
            if s.contains(x) {
                let j = choose|j: int| 0 <= j < s.len() && s[j] == x;
                if j < p {
                    assert(v@[j] == x);
                } else {
                    assert(v@[j + 1] == x);
                }
            }
            if v@.contains(x) {
                let j = choose|j: int| 0 <= j < v@.len() && v@[j] == x;
                if j < p {
                    assert(s[j] == x);
                } else if j > p {
                    assert(s[j - 1] == x);
                }
            }
            assert(v@[p as int] == e);
        }
    }
}

/// The epochs to process, ascending.
pub fn select_epochs(
    last_output_epoch: u64,
    buffered: &Vec<u64>,
    frontier: Option<u64>,
    resume_epoch: u64,
) -> (r: Vec<u64>)
    ensures
        epochs_ascending(r@),
        forall|e: u64|
            r@.contains(e) == selected(last_output_epoch, buffered@, frontier, resume_epoch, e),
{
    let mut r: Vec<u64> = Vec::new();
    let closed_last = match frontier {
        Some(f) => last_output_epoch < f,
        None => true,
    };
    if closed_last {
        insert_ascending(&mut r, last_output_epoch);
    }
    let mut i: usize = 0;
    while i < buffered.len()
        invariant
            i <= buffered@.len(),
            epochs_ascending(r@),
            forall|e: u64|
                #[trigger] r@.contains(e) == ((e == last_output_epoch || buffered@.subrange(0, i as int).contains(e))
                    && is_closed(frontier, e)),
        decreases buffered@.len() - i,
    {
        let e = buffered[i];
        let closed = match frontier {
            Some(f) => e < f,
            None => true,
        };
        let ghost r0 = r@;
        if closed {
            insert_ascending(&mut r, e);
        }
        assert(forall|x: u64| r@.contains(x) == (r0.contains(x) || (closed && x == e)));
        proof {
            let sub = buffered@.subrange(0, i as int);
            let sub1 = buffered@.subrange(0, i + 1);
            assert(sub1 =~= sub.push(e));
            assert forall|x: u64| sub1.contains(x) == (sub.contains(x) || x == e) by {
                if sub1.contains(x) {
                    let j = choose|j: int| 0 <= j < sub1.len() && sub1[j] == x;
                    if j < i {
                        assert(sub[j] == x);
                    }
                }
                if sub.contains(x) {
                    let j = choose|j: int| 0 <= j < sub.len() && sub[j] == x;
                    assert(sub1[j] == x);
                }
                assert(sub1[i as int] == e);
            }
            assert forall|x: u64| r@.contains(x) == ((x == last_output_epoch || sub1.contains(x))
                && is_closed(frontier, x)) by {
                assert(r0.contains(x) == ((x == last_output_epoch || sub.contains(x)) && is_closed(frontier, x)));
            }
        }
        i = i + 1;
    }
    proof {
        assert(buffered@.subrange(0, i as int) =~= buffered@);
    }
    let fe = match frontier {
        Some(f) => f,
        None => last_output_epoch,
    };
    let ghost r0 = r@;
    if fe >= resume_epoch {
        insert_ascending(&mut r, fe);
    }
    assert(forall|x: u64| r@.contains(x) == (r0.contains(x) || (fe >= resume_epoch && x == fe)));
    assert forall|x: u64| r@.contains(x) == selected(last_output_epoch, buffered@, frontier, resume_epoch, x) by {
        assert(r0.contains(x) == ((x == last_output_epoch || buffered@.contains(x)) && is_closed(frontier, x)));
    }
    r
}

/// Of the selected epochs, only the largest can still be open.
pub proof fn lemma_selected_open_is_last(
    last_output_epoch: u64,
    buffered: Seq<u64>,
    frontier: Option<u64>,
    resume_epoch: u64,
    r: Seq<u64>,
)
    requires
        epochs_ascending(r),
        forall|e: u64| r.contains(e) == selected(last_output_epoch, buffered, frontier, resume_epoch, e),
    ensures
        forall|i: int| 0 <= i < r.len() && !is_closed(frontier, #[trigger] r[i]) ==> i == r.len() - 1,
{
    assert forall|i: int| 0 <= i < r.len() && !is_closed(frontier, #[trigger] r[i]) implies i == r.len() - 1 by {
        assert(r.contains(r[i]));
        if i < r.len() - 1 {
            assert(r.contains(r[r.len() - 1]));
            assert(r[i] < r[r.len() - 1]);
        }
    }
}

/// Whether epoch `e` is closed under `frontier`.
pub fn epoch_closed(frontier: Option<u64>, e: u64) -> (r: bool)
    ensures
        r == is_closed(frontier, e),
{
    match frontier {
        Some(f) => e < f,
        None => true,
    }
}

/// The epochs a partitioned-output activation visits, ascending: those with
/// items that the frontier allows writing (at or below it, or all at end of
/// input), and those written earlier whose closing is still owed. An epoch
/// visited is closed there exactly when `epoch_closed` says so.
pub fn output_epochs(pending: &Vec<u64>, unclosed: &Vec<u64>, frontier: Option<u64>) -> (r: Vec<u64>)
    ensures
        epochs_ascending(r@),
        forall|e: u64| #[trigger] r@.contains(e) == ((pending@.contains(e) && match frontier {
            Some(f) => e <= f,
            None => true,
        }) || unclosed@.contains(e)),
{
    let mut r: Vec<u64> = Vec::new();
    let mut i: usize = 0;
    while i < pending.len()
        invariant
            i <= pending@.len(),
            epochs_ascending(r@),
            forall|e: u64| #[trigger] r@.contains(e) == (pending@.subrange(0, i as int).contains(e) && match frontier {
                Some(f) => e <= f,
                None => true,
            }),
        decreases pending@.len() - i,
    {
        let e = pending[i];
        let allowed = match frontier {
            Some(f) => e <= f,
            None => true,
        };
        let ghost r0 = r@;
        if allowed {
            insert_ascending(&mut r, e);
        }
        proof {
            let sub = pending@.subrange(0, i as int);
            let sub1 = pending@.subrange(0, i + 1);
            assert(sub1 =~= sub.push(e));
            assert forall|x: u64| #[trigger] sub1.contains(x) == (sub.contains(x) || x == e) by {
                if sub1.contains(x) {
                    let j = choose|j: int| 0 <= j < sub1.len() && sub1[j] == x;
                    if j < i { assert(sub[j] == x); }
                }
                if sub.contains(x) {
                    let j = choose|j: int| 0 <= j < sub.len() && sub[j] == x;
                    assert(sub1[j] == x);
                }
                assert(sub1[i as int] == e);
            }
            assert forall|x: u64| #[trigger] r@.contains(x) == (sub1.contains(x) && match frontier {
                Some(f) => x <= f,
                None => true,
            }) by {
                assert(r0.contains(x) == (sub.contains(x) && match frontier {
                    Some(f) => x <= f,
                    None => true,
                }));
            }
        }
        i = i + 1;
    }
    proof {
        assert(pending@.subrange(0, i as int) =~= pending@);
    }
    let mut j: usize = 0;
    while j < unclosed.len()
        invariant
            j <= unclosed@.len(),
            epochs_ascending(r@),
            forall|e: u64| #[trigger] r@.contains(e) == ((pending@.contains(e) && match frontier {
                Some(f) => e <= f,
                None => true,
            }) || unclosed@.subrange(0, j as int).contains(e)),
        decreases unclosed@.len() - j,
    {
        let e = unclosed[j];
        let ghost r0 = r@;
        insert_ascending(&mut r, e);
        proof {
            let sub = unclosed@.subrange(0, j as int);
            let sub1 = unclosed@.subrange(0, j + 1);
            assert(sub1 =~= sub.push(e));
            assert forall|x: u64| #[trigger] sub1.contains(x) == (sub.contains(x) || x == e) by {
                if sub1.contains(x) {
                    let t = choose|t: int| 0 <= t < sub1.len() && sub1[t] == x;
                    if t < j { assert(sub[t] == x); }
                }
                if sub.contains(x) {
                    let t = choose|t: int| 0 <= t < sub.len() && sub[t] == x;
                    assert(sub1[t] == x);
                }
                assert(sub1[j as int] == e);
            }
            assert forall|x: u64| #[trigger] r@.contains(x) == ((pending@.contains(x) && match frontier {
                Some(f) => x <= f,
                None => true,
            }) || sub1.contains(x)) by {
                assert(r0.contains(x) == ((pending@.contains(x) && match frontier {
                    Some(f) => x <= f,
                    None => true,
                }) || sub.contains(x)));
            }
        }
        j = j + 1;
    }
    proof {
        assert(unclosed@.subrange(0, j as int) =~= unclosed@);
    }
    r
}

} // verus!
