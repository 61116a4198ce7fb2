//! The **piecewise-support gluing** — regions sharing one frame, glued into one connected
//! development. The developments themselves are exact-rational; what is decided here is whether
//! a list of σ-bands glues, which region a σ falls in, and how a span splits at region joins.
//!
//! σ values are given as order keys: integers that compare exactly as the rationals they stand
//! for.

use vstd::prelude::*;

verus! {

/// A region's σ-band `[lo, hi]`, as order keys.
#[derive(Clone, Copy, Debug, PartialEq, Eq, Structural)]
pub struct Band {
    /// The band's lower end.
    pub lo: u64,
    /// The band's upper end.
    pub hi: u64,
}

/// The bands **tile** a σ-domain and every region shares the first's frame: there is at least
/// one band, each is non-degenerate, each region's frame matches, and consecutive bands meet
/// exactly — no gap, no overlap.
pub open spec fn glues(bands: Seq<Band>, frame_matches: Seq<bool>) -> bool {
    &&& bands.len() > 0
    &&& forall|k: int| 0 <= k < bands.len() ==> #[trigger] bands[k].lo < bands[k].hi
    &&& forall|k: int| 0 <= k < bands.len() ==> #[trigger] frame_matches[k]
    &&& forall|k: int| 0 <= k < bands.len() - 1 ==> #[trigger] bands[k].hi == bands[k + 1].lo
}

/// **Glued bands are ordered**: an earlier band ends no later than a later one begins.
pub proof fn lemma_glued_bands_ordered(bands: Seq<Band>, frame_matches: Seq<bool>, i: int, j: int)
    requires
        glues(bands, frame_matches),
        0 <= i < j < bands.len(),
    ensures
        bands[i].hi <= bands[j].lo,
    decreases j - i,
{
    if j > i + 1 {
        lemma_glued_bands_ordered(bands, frame_matches, i, j - 1);
        assert(bands[j - 1].lo < bands[j - 1].hi);
        assert(bands[j - 1].hi == bands[j].lo);
    } else {
        assert(bands[i].hi == bands[i + 1].lo);
    }
}

/// **Glued bands leave no gap**: every σ from the first band's start to the last band's end lies
/// in some band.
pub proof fn lemma_glued_bands_cover(bands: Seq<Band>, frame_matches: Seq<bool>, sigma: u64)
    requires
        glues(bands, frame_matches),
        bands[0].lo <= sigma <= bands.last().hi,
    ensures
        exists|k: int| 0 <= k < bands.len() && #[trigger] in_band(bands[k], sigma),
{
    lemma_cover_prefix(bands, frame_matches, sigma, bands.len() as int);
}

proof fn lemma_cover_prefix(bands: Seq<Band>, frame_matches: Seq<bool>, sigma: u64, m: int)
    requires
        glues(bands, frame_matches),
        1 <= m <= bands.len(),
        bands[0].lo <= sigma <= bands[m - 1].hi,
    ensures
        exists|k: int| 0 <= k < m && #[trigger] in_band(bands[k], sigma),
    decreases m,
{
    if in_band(bands[m - 1], sigma) {
    } else {
        assert(m > 1) by {
            if m == 1 {
                assert(in_band(bands[0], sigma));
            }
        }
        assert(bands[m - 2].hi == bands[m - 1].lo);
        lemma_cover_prefix(bands, frame_matches, sigma, m - 1);
        let k = choose|k: int| 0 <= k < m - 1 && #[trigger] in_band(bands[k], sigma);
        assert(0 <= k < m && in_band(bands[k], sigma));
    }
}

/// Whether regions with these bands glue into one development — the check that gates building
/// a piecewise development. `frame_matches[k]` says whether region `k`'s frame (its angle
/// coefficient and `ρ²`) equals the first region's.
pub fn glue_check(bands: &Vec<Band>, frame_matches: &Vec<bool>) -> (ok: bool)
    requires
        bands@.len() == frame_matches@.len(),
    ensures
        ok == glues(bands@, frame_matches@),
        // Glued exactly when there is a band, every band has width and shares the frame, and each
        // band ends where the next begins.
        ok <==> bands@.len() > 0 && (forall|k: int|
            0 <= k < bands@.len() ==> #[trigger] bands@[k].lo < bands@[k].hi && frame_matches@[k]) && (forall|k: int|
            0 <= k < bands@.len() - 1 ==> #[trigger] bands@[k].hi == bands@[k + 1].lo),
{
    let n = bands.len();
    if n == 0 {
        return false;
    }
    let mut k: usize = 0;
    while k < n
        invariant
            k <= n,
            n == bands@.len(),
            n == frame_matches@.len(),
            forall|i: int| 0 <= i < k ==> #[trigger] bands@[i].lo < bands@[i].hi,
            forall|i: int| 0 <= i < k ==> #[trigger] frame_matches@[i],
        decreases n - k,
    {
        if bands[k].lo >= bands[k].hi || !frame_matches[k] {
            return false;
        }
        k = k + 1;
    }
    let mut k: usize = 0;
    while k + 1 < n
        invariant
            k < n,
            n == bands@.len(),
            forall|i: int| 0 <= i < k ==> #[trigger] bands@[i].hi == bands@[i + 1].lo,
        decreases n - k,
    {
        if bands[k].hi != bands[k + 1].lo {
            return false;
        }
        k = k + 1;
    }
    true
}

/// σ lies in band `k` (ends included).
pub open spec fn in_band(b: Band, sigma: u64) -> bool {
    b.lo <= sigma <= b.hi
}

/// The index of the region whose band contains σ — a **join goes to the earlier region** — or
/// `None` outside every band.
pub fn region_of(bands: &Vec<Band>, sigma: u64) -> (res: Option<usize>)
    ensures
        res is None <==> forall|k: int| 0 <= k < bands@.len() ==> !in_band(#[trigger] bands@[k], sigma),
        res matches Some(k) ==> k < bands@.len() && in_band(bands@[k as int], sigma) && forall|
            i: int,
        |
            0 <= i < k ==> !in_band(#[trigger] bands@[i], sigma),
{
    let mut k: usize = 0;
    while k < bands.len()
        invariant
            k <= bands@.len(),
            forall|i: int| 0 <= i < k ==> !in_band(#[trigger] bands@[i], sigma),
        decreases bands@.len() - k,
    {
        if bands[k].lo <= sigma && sigma <= bands[k].hi {
            return Some(k);
        }
        k = k + 1;
    }
    None
}

/// The larger of two keys.
pub open spec fn key_max(a: u64, b: u64) -> u64 {
    if a < b {
        b
    } else {
        a
    }
}

/// The smaller of two keys.
pub open spec fn key_min(a: u64, b: u64) -> u64 {
    if a > b {
        b
    } else {
        a
    }
}

/// One piece of a span split at region joins: the region, and the sub-span `[lo, hi]` it covers.
#[derive(Clone, Copy, Debug, PartialEq, Eq, Structural)]
pub struct SpanPiece {
    /// The region the piece lies in.
    pub region: usize,
    /// The piece's lower end.
    pub lo: u64,
    /// The piece's upper end.
    pub hi: u64,
}

/// The regions a span overlaps non-degenerately, in order, each with its overlap.
pub open spec fn overlap_pieces(bands: Seq<Band>, lo: u64, hi: u64, n: nat) -> Seq<SpanPiece>
    decreases n,
{
    if n == 0 {
        Seq::empty()
    } else {
        let k = (n - 1) as int;
        let prev = overlap_pieces(bands, lo, hi, (n - 1) as nat);
        let a = key_max(bands[k].lo, lo);
        let b = key_min(bands[k].hi, hi);
        if a < b {
            prev.push(SpanPiece { region: k as usize, lo: a, hi: b })
        } else {
            prev
        }
    }
}

/// Every piece of the split lies in the requested span and in its region's band, clipped to the
/// later of the two starts and the earlier of the two ends; the regions come in increasing order.
pub proof fn lemma_overlap_pieces_clipped(bands: Seq<Band>, lo: u64, hi: u64, n: nat)
    requires
        n <= bands.len(),
        bands.len() <= usize::MAX,
    ensures
        forall|i: int| 0 <= i < overlap_pieces(bands, lo, hi, n).len() ==> #[trigger] clipped_to(
            bands,
            lo,
            hi,
            overlap_pieces(bands, lo, hi, n)[i],
        ) && overlap_pieces(bands, lo, hi, n)[i].region < n,
        forall|i: int, j: int|
            0 <= i < j < overlap_pieces(bands, lo, hi, n).len() ==> (#[trigger] overlap_pieces(bands, lo, hi, n)[i]).region
                < (#[trigger] overlap_pieces(bands, lo, hi, n)[j]).region,
    decreases n,
{
    if n > 0 {
        lemma_overlap_pieces_clipped(bands, lo, hi, (n - 1) as nat);
        let prev = overlap_pieces(bands, lo, hi, (n - 1) as nat);
        let cur = overlap_pieces(bands, lo, hi, n);
        assert forall|i: int| 0 <= i < cur.len() implies #[trigger] clipped_to(bands, lo, hi, cur[i]) && cur[i].region
            < n by {
            if i < prev.len() {
                assert(cur[i] == prev[i]);
            }
        }
        assert forall|i: int, j: int| 0 <= i < j < cur.len() implies (#[trigger] cur[i]).region < (
        #[trigger] cur[j]).region by {
            assert(cur[i] == prev[i]);
            if j < prev.len() {
                assert(cur[j] == prev[j]);
            } else {
                assert(cur[j].region == n - 1);
                assert(clipped_to(bands, lo, hi, prev[i]));
            }
        }
    }
}

/// Every region the span overlaps with some width appears in the split.
pub proof fn lemma_overlap_pieces_complete(bands: Seq<Band>, lo: u64, hi: u64, n: nat, k: int)
    requires
        n <= bands.len(),
        bands.len() <= usize::MAX,
        0 <= k < n,
        bands[k].lo < hi && lo < bands[k].hi && lo < hi && bands[k].lo < bands[k].hi,
    ensures
        exists|i: int| 0 <= i < overlap_pieces(bands, lo, hi, n).len() && (#[trigger] overlap_pieces(bands, lo, hi, n)[i]).region == k,
    decreases n,
{
    let prev = overlap_pieces(bands, lo, hi, (n - 1) as nat);
    let cur = overlap_pieces(bands, lo, hi, n);
    if k < n - 1 {
        lemma_overlap_pieces_complete(bands, lo, hi, (n - 1) as nat, k);
        let i = choose|i: int| 0 <= i < prev.len() && (#[trigger] prev[i]).region == k;
        assert(cur[i] == prev[i]);
    } else {
        assert(cur[cur.len() - 1].region == k);
    }
}

/// Some piece is in region `k`.
pub open spec fn has_region(v: Seq<SpanPiece>, k: int) -> bool {
    exists|i: int| 0 <= i < v.len() && (#[trigger] v[i]).region == k
}

/// Piece `p` lies in the span `[lo, hi]` and in its region's band, with width, and runs from the
/// later of the span's and the band's starts to the earlier of their ends.
pub open spec fn clipped_to(bands: Seq<Band>, lo: u64, hi: u64, p: SpanPiece) -> bool {
    let b = bands[p.region as int];
    &&& lo <= p.lo && b.lo <= p.lo && (p.lo == lo || p.lo == b.lo)
    &&& p.hi <= hi && p.hi <= b.hi && (p.hi == hi || p.hi == b.hi)
    &&& p.lo < p.hi
}

/// The single-region decomposition of a σ-span `[lo, hi]`: `None` when the span escapes the
/// glued domain `[first.lo, last.hi]` (an authoring error); otherwise every region the span
/// overlaps non-degenerately, in order, with the overlap.
pub fn anchor_piece_spans(bands: &Vec<Band>, lo: u64, hi: u64) -> (res: Option<Vec<SpanPiece>>)
    requires
        bands@.len() > 0,
    ensures
        res is None <==> (lo < bands@[0].lo || bands@.last().hi < hi),
        res matches Some(v) ==> v@ == overlap_pieces(bands@, lo, hi, bands@.len()),
        // Each piece is its region's band clipped to the span, with width; regions increase; and
        // every region the span overlaps with width has its piece.
        res matches Some(v) ==> forall|i: int|
            0 <= i < v@.len() ==> (#[trigger] v@[i]).region < bands@.len() && clipped_to(bands@, lo, hi, v@[i]),
        res matches Some(v) ==> forall|i: int, j: int| 0 <= i < j < v@.len() ==> (#[trigger] v@[i]).region < (#[trigger] v@[j]).region,
        res matches Some(v) ==> forall|k: int|
            0 <= k < bands@.len() && #[trigger] bands@[k].lo < hi && lo < bands@[k].hi && lo < hi && bands@[k].lo
                < bands@[k].hi ==> has_region(v@, k),
{
    let n = bands.len();
    if lo < bands[0].lo || bands[n - 1].hi < hi {
        return None;
    }
    let mut out: Vec<SpanPiece> = Vec::new();
    let mut k: usize = 0;
    while k < n
        invariant
            k <= n,
            n == bands@.len(),
            out@ == overlap_pieces(bands@, lo, hi, k as nat),
        decreases n - k,
    {
        let a = if bands[k].lo < lo { lo } else { bands[k].lo };
        let b = if bands[k].hi > hi { hi } else { bands[k].hi };
        if a < b {
            out.push(SpanPiece { region: k, lo: a, hi: b });
        }
        k = k + 1;
    }
    proof {
        lemma_overlap_pieces_clipped(bands@, lo, hi, n as nat);
        assert(out@ == overlap_pieces(bands@, lo, hi, n as nat));
        assert forall|i: int| 0 <= i < out@.len() implies (#[trigger] out@[i]).region < bands@.len() && clipped_to(
            bands@,
            lo,
            hi,
            out@[i],
        ) by {
            assert(clipped_to(bands@, lo, hi, overlap_pieces(bands@, lo, hi, n as nat)[i]));
        }
        assert forall|i: int, j: int| 0 <= i < j < out@.len() implies (#[trigger] out@[i]).region < (
        #[trigger] out@[j]).region by {
            assert(overlap_pieces(bands@, lo, hi, n as nat)[i].region < overlap_pieces(bands@, lo, hi, n as nat)[j].region);
        }
        assert forall|k: int|
            0 <= k < bands@.len() && #[trigger] bands@[k].lo < hi && lo < bands@[k].hi && lo < hi && bands@[k].lo
                < bands@[k].hi implies has_region(out@, k) by {
            lemma_overlap_pieces_complete(bands@, lo, hi, n as nat, k);
            let i = choose|i: int|
                0 <= i < overlap_pieces(bands@, lo, hi, n as nat).len() && (#[trigger] overlap_pieces(
                    bands@,
                    lo,
                    hi,
                    n as nat,
                )[i]).region == k;
            assert(out@[i].region == k);
            assert(0 <= i < out@.len());
        }
    }
    Some(out)
}

/// `k` is the region σ falls in: the first band containing it.
pub open spec fn region_at(bands: Seq<Band>, sigma: u64, k: int) -> bool {
    0 <= k < bands.len() && in_band(bands[k], sigma) && forall|i: int| 0 <= i < k ==> !in_band(#[trigger] bands[i], sigma)
}

/// The regions `a..=b`, each with the part of `[lo, hi]` clipped to its band.
pub open spec fn clipped(bands: Seq<Band>, lo: u64, hi: u64, a: int, b: int) -> Seq<SpanPiece> {
    Seq::new(
        (b - a + 1) as nat,
        |i: int|
            SpanPiece { region: (a + i) as usize, lo: key_max(bands[a + i].lo, lo), hi: key_min(bands[a + i].hi, hi) },
    )
}

/// The pieces an interval `[lo, hi]` of σ develops through: from the region of `lo` to the region
/// of `hi`, each clipped to its band — the split at region joins whose per-region developments are
/// hulled. `None` when an end falls in no region, or the two ends' regions are out of order.
pub fn interval_pieces(bands: &Vec<Band>, lo: u64, hi: u64) -> (res: Option<Vec<SpanPiece>>)
    ensures
        res is None <==> !(exists|a: int, b: int| #[trigger] region_at(bands@, lo, a) && #[trigger] region_at(bands@, hi, b) && a <= b),
        res matches Some(v) ==> exists|a: int, b: int| region_at(bands@, lo, a) && region_at(bands@, hi, b) && a <= b
            && v@ == clipped(bands@, lo, hi, a, b),
        // Each piece is its region's band clipped to the interval, the regions running on from the
        // region of `lo` one at a time.
        res matches Some(v) ==> v@.len() > 0 && region_at(bands@, lo, v@[0].region as int) && region_at(
            bands@,
            hi,
            v@.last().region as int,
        ),
        res matches Some(v) ==> forall|i: int|
            0 <= i < v@.len() ==> (#[trigger] v@[i]).region == v@[0].region + i && v@[i].region < bands@.len() && {
                let b = bands@[v@[i].region as int];
                &&& lo <= v@[i].lo && b.lo <= v@[i].lo && (v@[i].lo == lo || v@[i].lo == b.lo)
                &&& v@[i].hi <= hi && v@[i].hi <= b.hi && (v@[i].hi == hi || v@[i].hi == b.hi)
            },
{
    let ka = match region_of(bands, lo) {
        Some(k) => k,
        None => {
            proof {
                assert forall|a: int, b: int| region_at(bands@, lo, a) && region_at(bands@, hi, b) implies a > b by {
                    assert(!in_band(bands@[a], lo));
                }
            }
            return None;
        },
    };
    let kb = match region_of(bands, hi) {
        Some(k) => k,
        None => {
            proof {
                assert forall|a: int, b: int| region_at(bands@, lo, a) && region_at(bands@, hi, b) implies a > b by {
                    assert(!in_band(bands@[b], hi));
                }
            }
            return None;
        },
    };
    proof {
        assert forall|a: int, b: int| #[trigger] region_at(bands@, lo, a) && #[trigger] region_at(bands@, hi, b) implies a
            == ka && b == kb by {
            if a < ka {
                assert(!in_band(bands@[a], lo));
            }
            if ka < a {
                assert(!in_band(bands@[ka as int], lo));
            }
            if b < kb {
                assert(!in_band(bands@[b], hi));
            }
            if kb < b {
                assert(!in_band(bands@[kb as int], hi));
            }
        }
        assert(region_at(bands@, lo, ka as int));
        assert(region_at(bands@, hi, kb as int));
    }
    if ka > kb {
        return None;
    }
    let nb = bands.len();
    let mut out: Vec<SpanPiece> = Vec::new();
    let mut k = ka;
    while k <= kb
        invariant
            ka <= k <= kb + 1,
            kb < nb,
            nb == bands@.len(),
            out@ == clipped(bands@, lo, hi, ka as int, k - 1),
        decreases kb + 1 - k,
    {
        let a = if bands[k].lo < lo { lo } else { bands[k].lo };
        let b = if bands[k].hi > hi { hi } else { bands[k].hi };
        out.push(SpanPiece { region: k, lo: a, hi: b });
        proof {
            assert(out@ =~= clipped(bands@, lo, hi, ka as int, k as int));
        }
        k = k + 1;
    }
    Some(out)
}

} // verus!
