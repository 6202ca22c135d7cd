//! The read-only view of scheduled sequences that batch preparation consumes.
use vstd::prelude::*;

verus! {

/// One generation sequence: its id, its token ids so far, the block size it
/// was created with, and whether it is still in its prompt phase.
pub struct Sequence {
    pub id: usize,
    pub token_ids: Vec<usize>,
    pub block_size: usize,
    pub is_prompt: bool,
}

/// Sequences that share one originating request.
pub struct SequenceGroup {
    pub group_id: usize,
    pub arrival_time: u64,
    pub seqs: Vec<Sequence>,
}

/// The sequences of `groups` in traversal order: group by group, and in each
/// group sequence by sequence.
pub open spec fn flat_seqs(groups: Seq<SequenceGroup>) -> Seq<Sequence>
    decreases groups.len(),
{
    if groups.len() == 0 {
        Seq::empty()
    } else {
        flat_seqs(groups.drop_last()) + groups.last().seqs@
    }
}

/// The flat sequences of a prefix one group longer add that group's sequences.
pub proof fn lemma_flat_seqs_step(groups: Seq<SequenceGroup>, g: int)
    requires
        0 <= g < groups.len(),
    ensures
        flat_seqs(groups.take(g + 1)) == flat_seqs(groups.take(g)) + groups[g].seqs@,
{
    assert(groups.take(g + 1).drop_last() =~= groups.take(g));
}

/// Where each sequence of the traversal order stands: its group index and its
/// index inside that group.
pub fn sequence_order(groups: &Vec<SequenceGroup>) -> (r: Vec<(usize, usize)>)
    ensures
        r@.len() == flat_seqs(groups@).len(),
        forall|k: int|
            0 <= k < r@.len() ==> {
                let (g, j) = #[trigger] r@[k];
                &&& g < groups@.len()
                &&& j < groups@[g as int].seqs@.len()
                &&& groups@[g as int].seqs@[j as int] == flat_seqs(groups@)[k]
            },
{
    let mut r: Vec<(usize, usize)> = Vec::new();
    let mut g: usize = 0;
    while g < groups.len()
        invariant
            g <= groups@.len(),
            r@.len() == flat_seqs(groups@.take(g as int)).len(),
            forall|k: int|
                0 <= k < r@.len() ==> {
                    let (gi, j) = #[trigger] r@[k];
                    &&& gi < groups@.len()
                    &&& j < groups@[gi as int].seqs@.len()
                    &&& groups@[gi as int].seqs@[j as int] == flat_seqs(groups@.take(g as int))[k]
                },
        decreases groups@.len() - g,
    {
        let ghost before = flat_seqs(groups@.take(g as int));
        let n = groups[g].seqs.len();
        let mut j: usize = 0;
        while j < n
            invariant
                g < groups@.len(),
                n == groups@[g as int].seqs@.len(),
                j <= n,
                r@.len() == before.len() + j,
                forall|k: int|
                    0 <= k < r@.len() ==> {
                        let (gi, jj) = #[trigger] r@[k];
                        &&& gi < groups@.len()
                        &&& jj < groups@[gi as int].seqs@.len()
                        &&& groups@[gi as int].seqs@[jj as int] == (before
                            + groups@[g as int].seqs@)[k]
                    },
            decreases n - j,
        {
            r.push((g, j));
            j = j + 1;
        }
        proof {
            lemma_flat_seqs_step(groups@, g as int);
        }
        g = g + 1;
    }
    assert(groups@.take(g as int) =~= groups@);
    r
}

} // verus!
