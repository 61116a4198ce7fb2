//! **Parametric domain curves** — the root scan every p-curve query is built on, the split of a
//! curve at its σ-turning points, and the sub-span check of a restriction.
//!
//! The function values are exact rationals; what the scan decides is where roots are, from the
//! signs of the function at the scan nodes.

use vstd::prelude::*;

verus! {

/// Where a scan found a root.
#[derive(Clone, Copy, Debug, PartialEq, Eq, Structural)]
pub enum RootSite {
    /// The function vanishes exactly at node `k`.
    AtNode(usize),
    /// The function changes sign strictly between nodes `k − 1` and `k`: a bracket to bisect.
    Between(usize),
}

/// What the scan reports at node `k`, if anything.
pub open spec fn site_at(signs: Seq<i8>, k: int) -> Option<RootSite> {
    if signs[k] == 0 {
        Some(RootSite::AtNode(k as usize))
    } else if k > 0 && signs[k - 1] != 0 && signs[k - 1] != signs[k] {
        Some(RootSite::Between(k as usize))
    } else {
        None
    }
}

/// The sites of the first `m` nodes, in node order.
pub open spec fn sites(signs: Seq<i8>, m: nat) -> Seq<RootSite>
    decreases m,
{
    if m == 0 {
        Seq::empty()
    } else {
        let prev = sites(signs, (m - 1) as nat);
        match site_at(signs, m - 1) {
            Some(s) => prev.push(s),
            None => prev,
        }
    }
}

/// The sites of the first `m` nodes are exactly what each of those nodes reports, in node order.
proof fn lemma_sites_are_node_reports(signs: Seq<i8>, m: nat)
    requires
        m <= signs.len(),
        signs.len() <= usize::MAX,
    ensures
        forall|k: int| 0 <= k < m && #[trigger] site_at(signs, k) is Some ==> sites(signs, m).contains(
            site_at(signs, k)->0,
        ),
        forall|i: int|
            #![trigger sites(signs, m)[i]]
            0 <= i < sites(signs, m).len() ==> exists|k: int|
                0 <= k < m && #[trigger] site_at(signs, k) == Some(sites(signs, m)[i]),
        forall|i: int, j: int|
            0 <= i < j < sites(signs, m).len() ==> node_of(#[trigger] sites(signs, m)[i]) < node_of(
                #[trigger] sites(signs, m)[j],
            ),
        forall|i: int| 0 <= i < sites(signs, m).len() ==> node_of(#[trigger] sites(signs, m)[i]) < m,
    decreases m,
{
    if m > 0 {
        let km = (m - 1) as nat;
        lemma_sites_are_node_reports(signs, km);
        let prev = sites(signs, km);
        let cur = sites(signs, m);
        assert forall|k: int| 0 <= k < m && #[trigger] site_at(signs, k) is Some implies cur.contains(
            site_at(signs, k)->0,
        ) by {
            if k < km {
                let i = choose|i: int| 0 <= i < prev.len() && prev[i] == site_at(signs, k)->0;
                assert(cur[i] == prev[i]);
            } else {
                assert(cur[cur.len() - 1] == site_at(signs, k)->0);
            }
        }
        assert forall|i: int| #![trigger cur[i]] 0 <= i < cur.len() implies exists|k: int|
            0 <= k < m && #[trigger] site_at(signs, k) == Some(cur[i]) by {
            if i < prev.len() {
                assert(cur[i] == prev[i]);
                let k = choose|k: int| 0 <= k < km && #[trigger] site_at(signs, k) == Some(prev[i]);
            } else {
                assert(site_at(signs, m - 1) == Some(cur[i]));
            }
        }
        assert forall|i: int| 0 <= i < cur.len() implies node_of(#[trigger] cur[i]) < m by {
            if i < prev.len() {
                assert(cur[i] == prev[i]);
            }
        }
        assert forall|i: int, j: int| 0 <= i < j < cur.len() implies node_of(#[trigger] cur[i]) < node_of(
            #[trigger] cur[j],
        ) by {
            assert(cur[i] == prev[i]);
            if j < prev.len() {
                assert(cur[j] == prev[j]);
            } else {
                assert(site_at(signs, m - 1) == Some(cur[j]));
                assert(node_of(cur[j]) == m - 1);
            }
        }
    }
}

/// The node a site is at.
pub open spec fn node_of(s: RootSite) -> int {
    match s {
        RootSite::AtNode(k) => k as int,
        RootSite::Between(k) => k as int,
    }
}

/// **Every root the signs show is found.** A node where the function vanishes is reported as a
/// root there, and every sign change between two nonzero neighbours — rising or falling — is
/// reported as a bracket ending at the later node.
pub proof fn lemma_scan_finds_every_root(signs: Seq<i8>, k: int)
    requires
        0 <= k < signs.len(),
        signs.len() <= usize::MAX,
    ensures
        signs[k] == 0 ==> sites(signs, signs.len()).contains(RootSite::AtNode(k as usize)),
        k > 0 && signs[k - 1] != 0 && signs[k] != 0 && signs[k - 1] != signs[k] ==> sites(
            signs,
            signs.len(),
        ).contains(RootSite::Between(k as usize)),
{
    lemma_sites_are_node_reports(signs, signs.len());
    assert(site_at(signs, k) is Some ==> sites(signs, signs.len()).contains(site_at(signs, k)->0));
}

/// **Nothing but a root is found**, and in node order: every reported site is a node where the
/// function vanishes, or a bracket across a sign change between nonzero neighbours; and the sites
/// come at strictly increasing nodes.
pub proof fn lemma_scan_finds_only_roots(signs: Seq<i8>, i: int)
    requires
        0 <= i < sites(signs, signs.len()).len(),
        signs.len() <= usize::MAX,
    ensures
        match sites(signs, signs.len())[i] {
            RootSite::AtNode(k) => k < signs.len() && signs[k as int] == 0,
            RootSite::Between(k) => 0 < k < signs.len() && signs[k - 1] != 0 && signs[k as int] != 0 && signs[k - 1]
                != signs[k as int],
        },
        forall|j: int| i < j < sites(signs, signs.len()).len() ==> node_of(sites(signs, signs.len())[i]) < node_of(
            #[trigger] sites(signs, signs.len())[j],
        ),
{
    lemma_sites_are_node_reports(signs, signs.len());
    let x = sites(signs, signs.len())[i];
    let k = choose|k: int| 0 <= k < signs.len() && #[trigger] site_at(signs, k) == Some(x);
    if signs[k] == 0 {
        assert(x == RootSite::AtNode(k as usize));
    } else {
        assert(x == RootSite::Between(k as usize));
    }
}

/// The roots a scan finds from the signs (`−1`, `0`, `1`) of the function at its nodes, in
/// order: a node where the function vanishes **exactly** is a root as it stands, and a sign
/// change between two nonzero neighbours is a bracket to bisect. A node on a zero does not start
/// a bracket — symmetric geometry puts roots exactly on nodes, and the cells flanking such a node
/// are not sign changes.
pub fn scan_sites(signs: &Vec<i8>) -> (res: Vec<RootSite>)
    ensures
        res@ == sites(signs@, signs@.len()),
        // Every exact zero and every sign change between nonzero neighbours, either way, is found.
        forall|k: int| 0 <= k < signs@.len() && signs@[k] == 0 ==> #[trigger] res@.contains(RootSite::AtNode(k as usize)),
        forall|k: int|
            0 < k < signs@.len() && signs@[k - 1] != 0 && signs@[k] != 0 && signs@[k - 1] != signs@[k]
                ==> #[trigger] res@.contains(RootSite::Between(k as usize)),
        // Nothing else is, and the sites come in node order.
        forall|i: int| 0 <= i < res@.len() ==> match #[trigger] res@[i] {
            RootSite::AtNode(k) => k < signs@.len() && signs@[k as int] == 0,
            RootSite::Between(k) => 0 < k < signs@.len() && signs@[k - 1] != 0 && signs@[k as int] != 0
                && signs@[k - 1] != signs@[k as int],
        },
        forall|i: int, j: int| 0 <= i < j < res@.len() ==> node_of(#[trigger] res@[i]) < node_of(#[trigger] res@[j]),
{
    let mut out: Vec<RootSite> = Vec::new();
    let mut k: usize = 0;
    while k < signs.len()
        invariant
            k <= signs@.len(),
            out@ == sites(signs@, k as nat),
        decreases signs@.len() - k,
    {
        let s = signs[k];
        if s == 0 {
            out.push(RootSite::AtNode(k));
        } else if k > 0 && signs[k - 1] != 0 && signs[k - 1] != s {
            out.push(RootSite::Between(k));
        }
        k = k + 1;
    }
    proof {
        assert forall|k: int| 0 <= k < signs@.len() && signs@[k] == 0 implies #[trigger] out@.contains(
            RootSite::AtNode(k as usize),
        ) by {
            lemma_scan_finds_every_root(signs@, k);
        }
        assert forall|k: int|
            0 < k < signs@.len() && signs@[k - 1] != 0 && signs@[k] != 0 && signs@[k - 1] != signs@[k]
                implies #[trigger] out@.contains(RootSite::Between(k as usize)) by {
            lemma_scan_finds_every_root(signs@, k);
        }
        assert forall|i: int| 0 <= i < out@.len() implies match #[trigger] out@[i] {
            RootSite::AtNode(k) => k < signs@.len() && signs@[k as int] == 0,
            RootSite::Between(k) => 0 < k < signs@.len() && signs@[k - 1] != 0 && signs@[k as int] != 0
                && signs@[k - 1] != signs@[k as int],
        } by {
            lemma_scan_finds_only_roots(signs@, i);
        }
        assert forall|i: int, j: int| 0 <= i < j < out@.len() implies node_of(#[trigger] out@[i]) < node_of(
            #[trigger] out@[j],
        ) by {
            lemma_scan_finds_only_roots(signs@, i);
        }
    }
    out
}

/// Whether `[span_lo, span_hi]` is a non-degenerate sub-interval of the domain
/// `[dom_lo, dom_hi]` — the condition for restricting a curve to it. All four are order keys.
pub fn restricts(dom_lo: u64, dom_hi: u64, span_lo: u64, span_hi: u64) -> (ok: bool)
    ensures
        ok == (span_lo < span_hi && dom_lo <= span_lo && span_hi <= dom_hi),
{
    span_lo < span_hi && dom_lo <= span_lo && span_hi <= dom_hi
}

/// The first `m` roots that lie strictly inside `(lo, hi)`, in order.
pub open spec fn interior_of(lo: u64, hi: u64, roots: Seq<u64>, m: nat) -> Seq<u64>
    decreases m,
{
    if m == 0 {
        Seq::empty()
    } else {
        let prev = interior_of(lo, hi, roots, (m - 1) as nat);
        if lo < roots[m - 1] && roots[m - 1] < hi {
            prev.push(roots[m - 1])
        } else {
            prev
        }
    }
}

/// The spans between consecutive cuts of `[lo, hi]`: from `lo` to the first cut, between each
/// pair of cuts, and from the last cut to `hi`.
pub open spec fn chain(lo: u64, cuts: Seq<u64>, hi: u64) -> Seq<(u64, u64)> {
    Seq::new(
        cuts.len() + 1,
        |i: int|
            (if i == 0 {
                lo
            } else {
                cuts[i - 1]
            }, if i == cuts.len() {
                hi
            } else {
                cuts[i]
            }),
    )
}

/// `[a, b]` is a non-degenerate sub-interval of `[lo, hi]`.
pub open spec fn sub_span(lo: u64, hi: u64, a: u64, b: u64) -> bool {
    a < b && lo <= a && b <= hi
}

/// Split a curve's domain `[lo, hi]` at its σ-turning points: of the roots of `σ′` found by the
/// scan (`roots`, in parameter order), those strictly inside the domain — a curve that merely
/// arrives at an extremum at its end does not turn there — cut it into σ-monotone pieces, in
/// parameter order. `None` when a piece is not a non-degenerate sub-span (the restriction refuses
/// it). A domain with no interior turn comes back whole.
pub fn turn_spans(lo: u64, hi: u64, roots: &Vec<u64>) -> (res: Option<Vec<(u64, u64)>>)
    ensures
        ({
            let pieces = chain(lo, interior_of(lo, hi, roots@, roots@.len() as nat), hi);
            &&& res is Some <==> forall|i: int| 0 <= i < pieces.len() ==> #[trigger] sub_span(lo, hi, pieces[i].0, pieces[i].1)
            &&& res matches Some(v) ==> v@ == pieces
        }),
{
    let mut cuts: Vec<u64> = Vec::new();
    let mut k: usize = 0;
    while k < roots.len()
        invariant
            k <= roots@.len(),
            cuts@ == interior_of(lo, hi, roots@, k as nat),
        decreases roots@.len() - k,
    {
        if lo < roots[k] && roots[k] < hi {
            cuts.push(roots[k]);
        }
        k = k + 1;
    }
    let ghost pieces = chain(lo, cuts@, hi);
    let mut out: Vec<(u64, u64)> = Vec::new();
    let mut start = lo;
    let mut i: usize = 0;
    while i < cuts.len()
        invariant
            i <= cuts@.len(),
            cuts@ == interior_of(lo, hi, roots@, roots@.len() as nat),
            pieces == chain(lo, cuts@, hi),
            out@ == pieces.subrange(0, i as int),
            start == pieces[i as int].0,
            forall|j: int| 0 <= j < i ==> #[trigger] sub_span(lo, hi, pieces[j].0, pieces[j].1),
        decreases cuts@.len() - i,
    {
        let end = cuts[i];
        if !(start < end && lo <= start && end <= hi) {
            assert(!sub_span(lo, hi, pieces[i as int].0, pieces[i as int].1));
            return None;
        }
        out.push((start, end));
        proof {
            assert(out@ =~= pieces.subrange(0, i + 1));
        }
        start = end;
        i = i + 1;
    }
    if !(start < hi && lo <= start) {
        assert(!sub_span(lo, hi, pieces[i as int].0, pieces[i as int].1));
        return None;
    }
    out.push((start, hi));
    proof {
        assert(out@ =~= pieces);
    }
    Some(out)
}

} // verus!
