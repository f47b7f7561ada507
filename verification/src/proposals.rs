//! Unsigned proposal batches as the election loop sees them: an opaque
//! canonical encoding, the content hash that identifies the signing task, an
//! age timestamp, and the typed chain identifier whose absence marks a
//! rotation-priority batch.  Batches are processed oldest first, so a
//! stable, verified insertion sort by timestamp lives here too.

use vstd::prelude::*;

use crate::types::TaskHash;

verus! {

/// One batch of unsigned proposals awaiting a signature.
#[derive(Debug)]
pub struct UnsignedProposalBatch {
    /// Canonical 32-byte content hash; a batch that cannot be hashed is
    /// skipped by the election loop.
    pub hash: Option<TaskHash>,
    /// The batch's canonical encoding, used verbatim in seed derivation.
    pub encoded: Vec<u8>,
    /// Creation time; older batches are signed first.
    pub timestamp: u64,
    /// Typed chain identifier of the proposals; `None` is the sentinel of a
    /// rotation-priority batch, which is force-started.
    pub typed_chain_id: Option<u32>,
}

/// Where a stable insertion by timestamp puts `b`: after every element no
/// younger than it, before the first strictly younger one.
pub open spec fn spec_insert_pos(s: Seq<UnsignedProposalBatch>, b: UnsignedProposalBatch) -> int
    decreases s.len(),
{
    if s.len() == 0 || s.last().timestamp <= b.timestamp {
        s.len() as int
    } else {
        spec_insert_pos(s.drop_last(), b)
    }
}

/// `s` with `b` inserted at its stable position.
pub open spec fn spec_insert_batch(
    s: Seq<UnsignedProposalBatch>,
    b: UnsignedProposalBatch,
) -> Seq<UnsignedProposalBatch> {
    s.insert(spec_insert_pos(s, b), b)
}

/// The stable insertion sort of `s` by ascending timestamp.
pub open spec fn spec_sort_batches(s: Seq<UnsignedProposalBatch>) -> Seq<UnsignedProposalBatch>
    decreases s.len(),
{
    if s.len() == 0 {
        Seq::empty()
    } else {
        spec_insert_batch(spec_sort_batches(s.drop_last()), s.last())
    }
}

/// Ascending by timestamp.
pub open spec fn sorted_by_timestamp(s: Seq<UnsignedProposalBatch>) -> bool {
    forall|i: int, j: int| 0 <= i < j < s.len() ==> s[i].timestamp <= s[j].timestamp
}

/// The insertion position is in range, everything at or after it is
/// strictly younger than `b`, and its left neighbour is not.
pub proof fn lemma_insert_pos_props(s: Seq<UnsignedProposalBatch>, b: UnsignedProposalBatch)
    ensures
        0 <= spec_insert_pos(s, b) <= s.len(),
        forall|k: int|
            spec_insert_pos(s, b) <= k < s.len() ==> #[trigger] s[k].timestamp > b.timestamp,
        spec_insert_pos(s, b) > 0 ==> s[spec_insert_pos(s, b) - 1].timestamp <= b.timestamp,
    decreases s.len(),
{
    if !(s.len() == 0 || s.last().timestamp <= b.timestamp) {
        lemma_insert_pos_props(s.drop_last(), b);
        assert forall|k: int| spec_insert_pos(s, b) <= k < s.len() implies #[trigger] s[k].timestamp
            > b.timestamp by {
            if k < s.len() - 1 {
                assert(s.drop_last()[k] == s[k]);
            }
        }
        if spec_insert_pos(s, b) > 0 {
            assert(s.drop_last()[spec_insert_pos(s, b) - 1] == s[spec_insert_pos(s, b) - 1]);
        }
    }
}

/// The loop's exit condition pins the insertion position.
proof fn lemma_insert_pos_of(s: Seq<UnsignedProposalBatch>, b: UnsignedProposalBatch, pos: int)
    requires
        0 <= pos <= s.len(),
        forall|k: int| pos <= k < s.len() ==> #[trigger] s[k].timestamp > b.timestamp,
        pos == 0 || s[pos - 1].timestamp <= b.timestamp,
    ensures
        spec_insert_pos(s, b) == pos,
    decreases s.len(),
{
    if s.len() == 0 {
    } else if s.last().timestamp <= b.timestamp {
        assert(pos == s.len());
    } else {
        assert(pos < s.len());
        lemma_insert_pos_of(s.drop_last(), b, pos);
    }
}

/// Stable insertion keeps a sorted sequence sorted.
pub proof fn lemma_insert_batch_sorted(s: Seq<UnsignedProposalBatch>, b: UnsignedProposalBatch)
    requires
        sorted_by_timestamp(s),
    ensures
        sorted_by_timestamp(spec_insert_batch(s, b)),
        spec_insert_batch(s, b).len() == s.len() + 1,
{
    lemma_insert_pos_props(s, b);
    let pos = spec_insert_pos(s, b);
    let r = s.insert(pos, b);
    assert forall|i: int, j: int| 0 <= i < j < r.len() implies r[i].timestamp <= r[j].timestamp by {
        if i < pos && j < pos {
            assert(r[i] == s[i] && r[j] == s[j]);
        } else if i < pos && j == pos {
            assert(r[i] == s[i]);
            assert(s[i].timestamp <= s[pos - 1].timestamp);
        } else if i < pos {
            assert(r[i] == s[i] && r[j] == s[j - 1]);
            assert(s[j - 1].timestamp > b.timestamp);
            assert(s[i].timestamp <= s[pos - 1].timestamp);
        } else if i == pos {
            assert(r[j] == s[j - 1]);
            assert(s[j - 1].timestamp > b.timestamp);
        } else {
            assert(r[i] == s[i - 1] && r[j] == s[j - 1]);
        }
    }
}

/// The sort returns a sorted sequence of the same length.
pub proof fn lemma_sort_batches_sorted(s: Seq<UnsignedProposalBatch>)
    ensures
        sorted_by_timestamp(spec_sort_batches(s)),
        spec_sort_batches(s).len() == s.len(),
    decreases s.len(),
{
    if s.len() > 0 {
        lemma_sort_batches_sorted(s.drop_last());
        lemma_insert_batch_sorted(spec_sort_batches(s.drop_last()), s.last());
    }
}

/// Sorts batches by ascending timestamp (oldest first), stably.
pub fn sort_batches_by_timestamp(batches: Vec<UnsignedProposalBatch>) -> (r: Vec<
    UnsignedProposalBatch,
>)
    ensures
        r@ == spec_sort_batches(batches@),
{
    let ghost b0 = batches@;
    let mut out: Vec<UnsignedProposalBatch> = Vec::new();
    let mut rest = batches;
    let ghost mut i: int = 0;
    proof {
        assert(b0.take(0) =~= Seq::<UnsignedProposalBatch>::empty());
        assert(out@ =~= spec_sort_batches(b0.take(0)));
    }
    while rest.len() > 0
        invariant
            0 <= i <= b0.len(),
            rest@ == b0.skip(i),
            out@ == spec_sort_batches(b0.take(i)),
        decreases rest.len(),
    {
        let ghost rest0 = rest@;
        let ghost out0 = out@;
        let b = rest.remove(0);
        proof {
            assert(b == b0[i]);
            assert(rest@ =~= b0.skip(i + 1));
        }
        let mut pos: usize = out.len();
        while pos > 0 && out[pos - 1].timestamp > b.timestamp
            invariant
                out@ == out0,
                b == b0[i],
                0 <= pos <= out@.len(),
                forall|k: int| pos <= k < out@.len() ==> #[trigger] out@[k].timestamp > b.timestamp,
            decreases pos,
        {
            pos -= 1;
        }
        proof {
            lemma_insert_pos_of(out@, b, pos as int);
        }
        out.insert(pos, b);
        proof {
            assert(b0.take(i + 1).drop_last() =~= b0.take(i));
            assert(b0.take(i + 1).last() == b0[i]);
            assert(out@ == spec_insert_batch(out0, b));
            assert(out@ =~= spec_sort_batches(b0.take(i + 1)));
            i = i + 1;
        }
    }
    proof {
        assert(b0.take(i) =~= b0);
    }
    out
}

} // verus!
