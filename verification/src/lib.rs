//! A hierarchy of composable boolean logic gates.
//!
//! A gate exposes named, indexed single-bit pins and is either *primitive*
//! (its behaviour is supplied by an attached implementor) or *composite*
//! (its behaviour derives entirely from child gates and the wiring between
//! its own pins and theirs).  A composite gate is compiled once into a flat,
//! dependency-ordered execution plan; a run walks that plan,
//! pushing values into children and pulling their outputs back out.

pub mod pins;
pub mod graph;
pub mod gate;
pub mod compile;
pub mod primitives;
pub mod logics;
pub mod factory;

