//! How a runner replays a mutation script: edits pile up until a restyle mark, and a
//! mark restyles only when edits are pending.
use vstd::prelude::*;
use crate::model::{muts_view, Mut, MutModel};
use crate::mutations::restyle_count;

verus! {

/// What the runner does with one entry of the script.
pub enum Step {
    /// Apply the edit to the document.
    Apply,
    /// Restyle the document and clear the pending edits.
    Restyle,
    /// A restyle mark with nothing pending: nothing to do.
    Skip,
}

/// The runner's next step and whether edits are pending after it.
pub fn batch_step(pending: bool, m: &Mut) -> (r: (Step, bool))
    ensures
        m is Restyle ==> !r.1 && if pending {
            r.0 is Restyle
        } else {
            r.0 is Skip
        },
        !(m is Restyle) ==> r.0 is Apply && r.1,
{
    match m {
        Mut::Restyle => if pending {
            (Step::Restyle, false)
        } else {
            (Step::Skip, false)
        },
        _ => (Step::Apply, true),
    }
}

/// The restyles a runner performs over the script, and whether edits are left pending.
pub open spec fn replay(ms: Seq<MutModel>) -> (int, bool)
    decreases ms.len(),
{
    if ms.len() == 0 {
        (0, false)
    } else {
        let (n, pending) = replay(ms.drop_last());
        if ms.last() is Restyle {
            if pending {
                (n + 1, false)
            } else {
                (n, false)
            }
        } else {
            (n, true)
        }
    }
}

/// The number of restyles a runner performs when it replays the script.
pub fn replayed_restyles(muts: &[Mut]) -> (count: usize)
    ensures
        count == replay(muts_view(muts@)).0,
{
    let ghost ms = muts_view(muts@);
    let mut count: usize = 0;
    let mut pending = false;
    let mut i: usize = 0;
    while i < muts.len()
        invariant
            i <= muts@.len(),
            ms == muts_view(muts@),
            replay(ms.take(i as int)) == (count as int, pending),
            count <= i,
        decreases muts@.len() - i,
    {
        proof {
            assert(ms.take(i + 1).drop_last() =~= ms.take(i as int));
            assert(ms.take(i + 1).last() == muts@[i as int]@);
        }
        let (step, now) = batch_step(pending, &muts[i]);
        match step {
            Step::Restyle => {
                count = count + 1;
            },
            _ => {},
        }
        pending = now;
        i = i + 1;
    }
    proof {
        assert(ms.take(i as int) =~= ms);
    }
    count
}

/// A runner restyles at most once per restyle mark.
pub proof fn lemma_replay_bound(ms: Seq<MutModel>)
    ensures
        0 <= replay(ms).0 <= restyle_count(ms),
    decreases ms.len(),
{
    if ms.len() > 0 {
        lemma_replay_bound(ms.drop_last());
    }
}

} // verus!
