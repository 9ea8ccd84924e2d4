//! Exact soundness bookkeeping for hiding FRI proofs, and the randomization that makes them hiding.
pub mod air;
pub mod baby_bear;
pub mod deep;
pub mod domain;
pub mod field;
pub mod hidden_openings;
pub mod hiding_pcs;
pub mod interpolation;
pub mod ledger_laws;
pub mod matrix;
pub mod natural;
pub mod openings;
pub mod powers;
pub mod proximity;
pub mod quotient;
pub mod quotient_lde;
pub mod quotient_recomposition;
pub mod rational;
pub mod rbr;
pub mod recomposition;
pub mod selectors;
pub mod shape;
pub mod slices;
pub mod split_quotient;
pub mod trace;
