//! An equality-saturation engine for strand-displacement structures.
//!
//! Terms are hash-consed into an e-graph whose eclasses are kept by a
//! union-find, carry an analysis value that every member agrees on, and are
//! closed under congruence by `rebuild`. Rewrite rules (double-complement
//! cancellation, toehold binding, and binding of the next complementary
//! domains) are searched against a snapshot of the graph and applied in
//! rounds until the graph stops growing.

pub mod domain;
pub mod language;
pub mod egraph;
pub mod search;
pub mod rewrites;
pub mod strand;
