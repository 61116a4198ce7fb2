# develop

The decision kernels of the flat side of a geometry pipeline — developing ruled surfaces into
the plane, tracing the holes a cutter leaves in them, folding flat points back, picking frames
on them — written in Verus and proved against their contracts.

The pipeline computes in exact rationals and rational interval enclosures. What it *decides*
from those numbers is what lives here, on plain values: indices, counts, signs, and integer
**order keys** that stand for rationals (two keys compare exactly as the rationals they stand
for). Every function in `src/` is verified; the tests in `tests/` run the same functions on
concrete values.

The exact arithmetic itself — rationals, polynomials and rational functions, interval
enclosures, Sturm root isolation, and the geometry computed with them (charts, cutter walls,
developments, placements, distances) — belongs to the pipeline's own arithmetic crates, which
are not part of this library and are not among its dependencies. The kernels here take what
that arithmetic produces, ranked into keys, and are verified for every value of it.

## Layout

- `src/verdict.rs`, `src/drc.rs` — the three-valued verdict, the design-rule check (a bound is
  fabricable when under half the clearance) and the certificates it gates.
- `src/counters.rs` — the work counters, with the law that a run of bumps counts each kind of
  work exactly.
- `src/union_find.rs` — union-find with path halving over the tracer's boundary ends.
- `src/cut.rs`, `src/columns.rs`, `src/loops.rs`, `src/shadow.rs` — the shadow footprint tracer:
  event brackets and the cells between them, the stretches of one ruling, matching stretches
  across columns (births, deaths, merges, splits, and the refusal of a tangle), the closed loops
  read off the boundary graph, nesting by an exact even-odd cast, and the final verdict.
- `src/quadric_loop.rs`, `src/turn_arc.rs` — the closed loop of a quadric window, and the turn
  arc of a loop between two junctions.
- `src/fold.rs`, `src/part.rs`, `src/pcurve.rs` — folding flat points back (the σ = 0 split,
  faithfulness pieces, the choice among candidate preimages), piecewise gluing of regions, and
  p-curve root scans and splits.
- `src/pick.rs`, `src/order.rs` — selecting crossings along a ray, orienting a picked frame, the
  best-conditioned solve, and stable ordering by key.
- `src/bonded.rs`, `src/anchor.rs` — the bonded-seam and ANCHOR compositions of sub-verdicts.
- `src/cone.rs`, `src/seam_frame.rs`, `src/extrude.rs` — the closed-form angle integrator's
  road and its deferrals, the seam-frame verdict, and the refusals of a wall build.
- `app/` — host glue: per-thread counters, and the ranking of exact values into order keys
  before they reach the kernels.
