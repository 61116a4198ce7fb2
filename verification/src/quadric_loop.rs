//! The **closed cut loop** of a quadric window: which σ nodes it is built on, and the order its
//! vertices are traversed in. The nodes, the branches and the tangent vertices are exact-rational
//! work for the caller; their order keys decide here.
use vstd::prelude::*;
use crate::cut::CutFitFault;

verus! {

/// Node `i` starts a run: it is the first node, or differs from the one before.
pub open spec fn starts_run(keys: Seq<u64>, i: int) -> bool {
    i == 0 || keys[i] != keys[i - 1]
}

/// The nodes of the first `m` that start a run, in order.
pub open spec fn run_starts(keys: Seq<u64>, m: nat) -> Seq<usize>
    decreases m,
{
    if m == 0 {
        Seq::empty()
    } else {
        let prev = run_starts(keys, (m - 1) as nat);
        if starts_run(keys, m - 1) {
            prev.push((m - 1) as usize)
        } else {
            prev
        }
    }
}

/// The σ nodes of a quadric window's loop: the √-graded nodes from the window's low end, then
/// from its high end, as order keys in the order they were produced; a node equal to the one
/// before it is dropped. Fewer than three nodes left is a window too narrow to carry a loop,
/// [`CutFitFault::DegenerateSpan`]. Returns the positions of the nodes kept.
pub fn window_nodes(keys: &Vec<u64>) -> (res: Result<Vec<usize>, CutFitFault>)
    ensures
        run_starts(keys@, keys@.len() as nat).len() < 3 <==> res == Err::<Vec<usize>, CutFitFault>(
            CutFitFault::DegenerateSpan,
        ),
        res matches Ok(v) ==> v@ == run_starts(keys@, keys@.len() as nat),
        res matches Err(f) ==> f == CutFitFault::DegenerateSpan,
{
    let mut out: Vec<usize> = Vec::new();
    let mut i: usize = 0;
    while i < keys.len()
        invariant
            i <= keys@.len(),
            out@ == run_starts(keys@, i as nat),
        decreases keys@.len() - i,
    {
        if i == 0 || keys[i] != keys[i - 1] {
            out.push(i);
        }
        i = i + 1;
    }
    if out.len() < 3 {
        return Err(CutFitFault::DegenerateSpan);
    }
    Ok(out)
}

/// A vertex of the closed loop.
#[derive(Clone, Copy, PartialEq, Eq, Debug, Structural)]
pub enum LoopVertex {
    /// The tangent vertex at the window's low end.
    LowTangent,
    /// The far branch at interior node `k`.
    Far(usize),
    /// The tangent vertex at the window's high end.
    HighTangent,
    /// The near branch at interior node `k`.
    Near(usize),
}

/// The far branch over the first `m` interior nodes, σ ascending.
pub open spec fn far_run(m: nat) -> Seq<LoopVertex>
    decreases m,
{
    if m == 0 {
        Seq::empty()
    } else {
        far_run((m - 1) as nat).push(LoopVertex::Far((m - 1) as usize))
    }
}

/// The near branch over the first `m` interior nodes, σ descending.
pub open spec fn near_run(m: nat) -> Seq<LoopVertex>
    decreases m,
{
    if m == 0 {
        Seq::empty()
    } else {
        seq![LoopVertex::Near((m - 1) as usize)] + near_run((m - 1) as nat)
    }
}

/// One closed traversal: low tangent, the far branch up, high tangent, the near branch back.
pub open spec fn loop_order(m: nat) -> Seq<LoopVertex> {
    seq![LoopVertex::LowTangent] + far_run(m) + seq![LoopVertex::HighTangent] + near_run(m)
}

/// The vertex order of the closed loop over `m` interior nodes where the ruling meets the cut
/// (both branches at each); piece `k` of the loop runs from vertex `k` to vertex `k + 1`, the last
/// closing back to the first. No interior node is [`CutFitFault::DegenerateSpan`].
pub fn loop_vertices(m: usize) -> (res: Result<Vec<LoopVertex>, CutFitFault>)
    requires
        m < usize::MAX / 2,
    ensures
        m == 0 <==> res == Err::<Vec<LoopVertex>, CutFitFault>(CutFitFault::DegenerateSpan),
        res matches Ok(v) ==> v@ == loop_order(m as nat) && v@.len() == 2 * m + 2,
{
    if m == 0 {
        return Err(CutFitFault::DegenerateSpan);
    }
    let mut v: Vec<LoopVertex> = Vec::new();
    v.push(LoopVertex::LowTangent);
    let mut k: usize = 0;
    while k < m
        invariant
            k <= m,
            v@ == seq![LoopVertex::LowTangent] + far_run(k as nat),
        decreases m - k,
    {
        v.push(LoopVertex::Far(k));
        proof {
            assert(seq![LoopVertex::LowTangent] + far_run((k + 1) as nat) =~= (seq![LoopVertex::LowTangent]
                + far_run(k as nat)).push(LoopVertex::Far(k)));
        }
        k = k + 1;
    }
    v.push(LoopVertex::HighTangent);
    let ghost head = v@;
    let mut k: usize = m;
    while k > 0
        invariant
            k <= m,
            head == seq![LoopVertex::LowTangent] + far_run(m as nat) + seq![LoopVertex::HighTangent],
            v@ + near_run(k as nat) == head + near_run(m as nat),
        decreases k,
    {
        v.push(LoopVertex::Near(k - 1));
        proof {
            let before = v@.drop_last();
            assert(near_run(k as nat) == seq![LoopVertex::Near((k - 1) as usize)] + near_run((k - 1) as nat));
            assert(v@ + near_run((k - 1) as nat) =~= before + near_run(k as nat));
        }
        k = k - 1;
    }
    proof {
        assert(v@ + near_run(0) =~= v@);
        lemma_run_lengths(m as nat);
    }
    Ok(v)
}

proof fn lemma_run_lengths(m: nat)
    ensures
        far_run(m).len() == m,
        near_run(m).len() == m,
    decreases m,
{
    if m > 0 {
        lemma_run_lengths((m - 1) as nat);
    }
}

} // verus!
