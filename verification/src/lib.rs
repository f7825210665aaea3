//! Verified peephole and loop-transformation gates for a small GPU IR:
//! identity elimination of fused multiply-adds, the LICM purity gate, and the
//! scalar-dependency analysis that guards loop fusion.

pub mod fma;
pub mod fusion;
pub mod licm;
