//! **Stable ordering** by order keys — how the pipeline puts crossings in ray order, pieces and
//! brackets in σ order, and sampled σ values in increasing order without repeats.
use vstd::prelude::*;

verus! {

/// Item `a` comes before item `b`: a smaller key, or an equal key and an earlier position.
pub open spec fn before(keys: Seq<u64>, a: usize, b: usize) -> bool {
    keys[a as int] < keys[b as int] || (keys[a as int] == keys[b as int] && a < b)
}

/// `p` lists items of `keys` in strictly increasing stable order.
pub open spec fn stably_sorted(keys: Seq<u64>, p: Seq<usize>) -> bool {
    &&& forall|i: int| 0 <= i < p.len() ==> (#[trigger] p[i]) < keys.len()
    &&& forall|i: int, j: int| 0 <= i < j < p.len() ==> before(keys, #[trigger] p[i], #[trigger] p[j])
}

/// The **stable order** of items by key: the positions of `keys`, sorted by key, equal keys kept
/// in the order they came — what a stable sort of the items by key produces. Every position
/// appears exactly once.
pub fn stable_order(keys: &Vec<u64>) -> (p: Vec<usize>)
    ensures
        p@.len() == keys@.len(),
        stably_sorted(keys@, p@),
        forall|i: int| 0 <= i < keys@.len() ==> #[trigger] p@.contains(i as usize),
{
    let n = keys.len();
    let mut p: Vec<usize> = Vec::new();
    let mut i: usize = 0;
    while i < n
        invariant
            i <= n,
            n == keys@.len(),
            p@.len() == i,
            forall|j: int| 0 <= j < p@.len() ==> (#[trigger] p@[j]) < i,
            stably_sorted(keys@, p@),
            forall|j: int| 0 <= j < i ==> #[trigger] p@.contains(j as usize),
        decreases n - i,
    {
        // The first position whose item has a greater key: `i` goes there, after every item
        // whose key is at most its own (all of which come earlier).
        let mut pos: usize = 0;
        while pos < p.len() && keys[p[pos]] <= keys[i]
            invariant
                pos <= p@.len(),
                n == keys@.len(),
                i < n,
                stably_sorted(keys@, p@),
                forall|j: int| 0 <= j < pos ==> keys@[#[trigger] p@[j] as int] <= keys@[i as int],
            decreases p@.len() - pos,
        {
            pos = pos + 1;
        }
        let ghost old_p = p@;
        p.insert(pos, i);
        proof {
            assert(p@ == old_p.subrange(0, pos as int).push(i).add(old_p.subrange(pos as int, old_p.len() as int)));
            assert forall|j: int| 0 <= j < p@.len() implies (#[trigger] p@[j]) < i + 1 by {
                if j < pos {
                    assert(p@[j] == old_p[j]);
                } else if j > pos {
                    assert(p@[j] == old_p[j - 1]);
                }
            }
            assert forall|a: int, b: int| 0 <= a < b < p@.len() implies before(keys@, #[trigger] p@[a], #[trigger] p@[b]) by {
                if pos < old_p.len() {
                    assert(keys@[i as int] < keys@[old_p[pos as int] as int]);
                }
                if b < pos {
                    assert(p@[a] == old_p[a] && p@[b] == old_p[b]);
                } else if b == pos {
                    assert(p@[a] == old_p[a]);
                    assert(old_p[a] < i);
                } else if a == pos {
                    assert(p@[b] == old_p[b - 1]);
                    assert(before(keys@, old_p[pos as int], old_p[b - 1]) || b - 1 == pos);
                } else if a < pos {
                    assert(p@[a] == old_p[a] && p@[b] == old_p[b - 1]);
                } else {
                    assert(p@[a] == old_p[a - 1] && p@[b] == old_p[b - 1]);
                }
            }
            assert forall|j: int| 0 <= j < i + 1 implies #[trigger] p@.contains(j as usize) by {
                if j == i {
                    assert(p@[pos as int] == i);
                } else {
                    assert(old_p.contains(j as usize));
                    let w = choose|w: int| 0 <= w < old_p.len() && old_p[w] == j as usize;
                    if w < pos {
                        assert(p@[w] == j as usize);
                    } else {
                        assert(p@[w + 1] == j as usize);
                    }
                }
            }
        }
        i = i + 1;
    }
    p
}

/// `r` lists, in increasing key order, one item for each distinct key of `keys` within
/// `[lo, hi]` — the earliest item with that key.
pub open spec fn distinct_within_spec(keys: Seq<u64>, lo: u64, hi: u64, r: Seq<usize>) -> bool {
    &&& forall|j: int| 0 <= j < r.len() ==> (#[trigger] r[j]) < keys.len() && lo <= keys[r[j] as int] <= hi
    &&& forall|a: int, b: int| 0 <= a < b < r.len() ==> keys[#[trigger] r[a] as int] < keys[#[trigger] r[b] as int]
    &&& forall|j: int, i: int| #![trigger keys[i], r[j]]
        0 <= j < r.len() && 0 <= i < keys.len() && keys[i] == keys[r[j] as int] ==> r[j] <= i
    &&& forall|i: int| 0 <= i < keys.len() && lo <= #[trigger] keys[i] <= hi ==> exists|j: int|
        0 <= j < r.len() && keys[#[trigger] r[j] as int] == keys[i]
}

/// The sampled values to keep: of the items whose key lies in `[lo, hi]`, one per distinct key —
/// the earliest — in increasing key order. This is the retain, stable sort and dedup that turns
/// the raw σ samples of every cell into the tracer's columns.
pub fn distinct_within(keys: &Vec<u64>, lo: u64, hi: u64) -> (r: Vec<usize>)
    ensures
        distinct_within_spec(keys@, lo, hi, r@),
{
    let p = stable_order(keys);
    let n = p.len();
    let mut r: Vec<usize> = Vec::new();
    let mut t: usize = 0;
    while t < n
        invariant
            t <= n,
            n == p@.len(),
            n == keys@.len(),
            stably_sorted(keys@, p@),
            forall|i: int| 0 <= i < keys@.len() ==> #[trigger] p@.contains(i as usize),
            forall|j: int| 0 <= j < r@.len() ==> (#[trigger] r@[j]) < keys@.len() && lo <= keys@[r@[j] as int] <= hi,
            forall|a: int, b: int| 0 <= a < b < r@.len() ==> keys@[#[trigger] r@[a] as int] < keys@[#[trigger] r@[b] as int],
            forall|j: int, i: int| #![trigger keys@[i], r@[j]]
                0 <= j < r@.len() && 0 <= i < keys@.len() && keys@[i] == keys@[r@[j] as int] ==> r@[j] <= i,
            // Every in-range item already passed has its key kept, the last kept being the greatest.
            forall|s: int| 0 <= s < t && lo <= #[trigger] keys@[p@[s] as int] <= hi ==> exists|j: int|
                0 <= j < r@.len() && keys@[#[trigger] r@[j] as int] == keys@[p@[s] as int],
            r@.len() > 0 ==> exists|s: int| 0 <= s < t && p@[s] == r@.last(),
            r@.len() > 0 ==> forall|s: int| 0 <= s < t && lo <= #[trigger] keys@[p@[s] as int] <= hi
                ==> keys@[p@[s] as int] <= keys@[r@.last() as int],
        decreases n - t,
    {
        let cur = p[t];
        let k = keys[cur];
        let ghost old_r = r@;
        if lo <= k && k <= hi {
            let fresh = r.len() == 0 || keys[r[r.len() - 1]] != k;
            if fresh {
                proof {
                    // `cur` is the earliest item with its key: any earlier one would come before
                    // it in the stable order, and so would already have been kept.
                    assert forall|i: int| 0 <= i < keys@.len() && keys@[i] == k implies cur <= i by {
                        if (i as usize) < cur {
                            let w = choose|w: int| 0 <= w < p@.len() && p@[w] == i as usize;
                            assert(p@.contains(i as usize));
                            if w > t {
                                assert(before(keys@, p@[t as int], p@[w]));
                            }
                            if w < t {
                                assert(lo <= keys@[p@[w] as int] <= hi);
                                let j = choose|j: int| 0 <= j < r@.len() && keys@[#[trigger] r@[j] as int] == keys@[p@[w] as int];
                                if r@.len() > 0 {
                                    if j < r@.len() - 1 {
                                        assert(keys@[r@[j] as int] < keys@[r@.last() as int]);
                                    }
                                }
                            }
                        }
                    }
                    if r@.len() > 0 {
                        let s0 = choose|s: int| 0 <= s < t && p@[s] == r@.last();
                        assert(before(keys@, p@[s0], p@[t as int]));
                    }
                }
                r.push(cur);
            }
        }
        proof {
            assert forall|s: int| 0 <= s < t + 1 && lo <= #[trigger] keys@[p@[s] as int] <= hi implies exists|j: int|
                0 <= j < r@.len() && keys@[#[trigger] r@[j] as int] == keys@[p@[s] as int] by {
                if s < t {
                    let j = choose|j: int| 0 <= j < old_r.len() && keys@[#[trigger] old_r[j] as int] == keys@[p@[s] as int];
                    assert(r@[j] == old_r[j]);
                } else {
                    assert(keys@[r@[r@.len() - 1] as int] == keys@[p@[s] as int]);
                }
            }
            if r@.len() > 0 {
                if r@.len() == old_r.len() {
                    let s0 = choose|s: int| 0 <= s < t && p@[s] == old_r.last();
                    assert(0 <= s0 < t + 1 && p@[s0] == r@.last());
                } else {
                    assert(p@[t as int] == r@.last());
                }
                assert forall|s: int| 0 <= s < t + 1 && lo <= #[trigger] keys@[p@[s] as int] <= hi
                    implies keys@[p@[s] as int] <= keys@[r@.last() as int] by {
                    if s < t && old_r.len() > 0 {
                        assert(keys@[p@[s] as int] <= keys@[old_r.last() as int]);
                        if r@.len() > old_r.len() {
                            let s0 = choose|s: int| 0 <= s < t && p@[s] == old_r.last();
                            assert(before(keys@, p@[s0], p@[t as int]));
                        }
                    } else if s < t {
                        let j = choose|j: int| 0 <= j < old_r.len() && keys@[#[trigger] old_r[j] as int] == keys@[p@[s] as int];
                    } else {
                    }
                }
            }
        }
        t = t + 1;
    }
    proof {
        assert forall|i: int| 0 <= i < keys@.len() && lo <= #[trigger] keys@[i] <= hi implies exists|j: int|
            0 <= j < r@.len() && keys@[#[trigger] r@[j] as int] == keys@[i] by {
            assert(p@.contains(i as usize));
            let w = choose|w: int| 0 <= w < p@.len() && p@[w] == i as usize;
            assert(lo <= keys@[p@[w] as int] <= hi);
        }
    }
    r
}

} // verus!
