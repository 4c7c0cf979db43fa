//! A Gage Repeatability & Reproducibility (Gage R&R) study library.
//!
//! Measurement values are held as exact rationals, so every quantity of the
//! one-way ANOVA decomposition — sums of squares, mean squares, F-ratio and
//! variance components — is computed and specified exactly.

pub mod anova;
pub mod data;
pub mod laws;
pub mod rat;
