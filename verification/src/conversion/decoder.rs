//! Reading a decoded path back out of the decoder's trail of steps.
//!
//! Every step of the k-best search is recorded once, with the index of the
//! step it extends; index 0 is the start of the sentence.

use vstd::prelude::*;

verus! {

/// Whether the first recorded step is the start, and every other step extends
/// an earlier one.
pub open spec fn trails_wf<T>(trails: Seq<(usize, T)>) -> bool {
    &&& trails.len() > 0 ==> trails[0].0 == 0
    &&& forall|i: int| 0 < i < trails.len() ==> (#[trigger] trails[i]).0 < i
}

/// The steps of the path that ends at step `tid`, from the first one on: the
/// chain of steps back to (and not including) the start, or just the start
/// itself when the path is empty.
pub open spec fn spec_path<T>(trails: Seq<(usize, T)>, tid: int) -> Seq<T>
    decreases tid,
{
    if tid < 0 || tid >= trails.len() {
        Seq::empty()
    } else if trails[tid].0 == 0 || trails[tid].0 >= tid {
        seq![trails[tid].1]
    } else {
        spec_path(trails, trails[tid].0 as int).push(trails[tid].1)
    }
}

/// The steps of the path that ends at step `tid`, in input order: the chain
/// of steps is followed back from `tid` and each step is put in front.
pub fn reconstruct<T: Copy>(trails: &[(usize, T)], tid: usize) -> (r: Vec<T>)
    requires
        trails_wf(trails@),
    ensures
        r@ == spec_path(trails@, tid as int),
{
    let mut index = tid;
    let mut acc: Vec<T> = Vec::new();
    let ghost mut done: Seq<T> = Seq::empty();
    while index < trails.len()
        invariant_except_break
            trails_wf(trails@),
            acc@ == done,
            spec_path(trails@, index as int) + done == spec_path(trails@, tid as int),
        ensures
            acc@ == spec_path(trails@, tid as int),
        decreases index,
    {
        let (parent, step) = trails[index];
        let ghost before = acc@;
        acc.insert(0, step);
        proof {
            assert(acc@ =~= seq![step] + before);
        }
        if parent == 0 {
            proof {
                assert(spec_path(trails@, index as int) == seq![step]);
            }
            break;
        }
        proof {
            assert(spec_path(trails@, index as int) == spec_path(trails@, parent as int).push(step));
            assert(spec_path(trails@, parent as int) + (seq![step] + done) =~= spec_path(
                trails@,
                index as int,
            ) + done);
            done = seq![step] + done;
        }
        index = parent;
    }
    acc
}

/// The path to a step is the whole chain of steps back to the start: its
/// last step is `tid`, each step's parent is the step before it, the first
/// step's parent is the start, and each element is its step's value; a
/// step whose parent is not the start extends the path to its parent,
/// however far back that parent lies.
pub proof fn lemma_path_chain<T>(trails: Seq<(usize, T)>, tid: int) -> (idx: Seq<int>)
    requires
        trails_wf(trails),
        0 <= tid < trails.len(),
    ensures
        idx.len() == spec_path(trails, tid).len(),
        idx.len() >= 1,
        idx.last() == tid,
        trails[idx[0]].0 == 0,
        forall|j: int| 0 <= j < idx.len() ==> 0 <= #[trigger] idx[j] < trails.len(),
        forall|j: int| 0 < j < idx.len() ==> idx[j - 1] == trails[#[trigger] idx[j]].0,
        forall|j: int| 0 <= j < idx.len() ==> #[trigger] spec_path(trails, tid)[j] == trails[idx[j]].1,
        spec_path(trails, tid).last() == trails[tid].1,
        trails[tid].0 != 0 ==> spec_path(trails, tid) == spec_path(trails, trails[tid].0 as int).push(
            trails[tid].1,
        ),
    decreases tid,
{
    let p = trails[tid].0 as int;
    if p == 0 {
        assert(tid == 0 || p < tid);
        seq![tid]
    } else {
        assert(p < tid);
        let prev = lemma_path_chain(trails, p);
        let idx = prev.push(tid);
        let path = spec_path(trails, tid);
        assert(path == spec_path(trails, p).push(trails[tid].1));
        assert forall|j: int| 0 < j < idx.len() implies idx[j - 1] == trails[#[trigger] idx[j]].0 by {
            if j < prev.len() {
                assert(idx[j] == prev[j] && idx[j - 1] == prev[j - 1]);
            }
        }
        assert forall|j: int| 0 <= j < idx.len() implies #[trigger] path[j] == trails[idx[j]].1 by {
            if j < prev.len() {
                assert(idx[j] == prev[j]);
                assert(path[j] == spec_path(trails, p)[j]);
            }
        }
        assert(idx[0] == prev[0]);
        idx
    }
}

} // verus!
