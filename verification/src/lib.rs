//! `develop` — the decision kernels of the flat side of the geometry pipeline.
//!
//! Every function here works on plain values: indices, counts, signs, and integer
//! *order keys* that stand for exact rationals (two keys compare exactly as the
//! rationals they stand for). The exact-rational arithmetic itself is the caller's;
//! what is decided from its results is proved here.

pub mod anchor;
pub mod columns;
pub mod bonded;
pub mod cone;
pub mod counters;
pub mod cut;
pub mod drc;
pub mod extrude;
pub mod part;
pub mod pcurve;
pub mod fold;
pub mod loops;
pub mod order;
pub mod pick;
pub mod quadric_loop;
pub mod seam_frame;
pub mod shadow;
pub mod turn_arc;
pub mod union_find;
pub mod verdict;
