//! A memoized equivalence-class rewriting engine for relational expression
//! trees: structurally identical sub-expressions are deduplicated by
//! hash-consing, semantically equivalent alternatives are grouped together,
//! structural rewrite rules discover new alternatives, and equivalence
//! classes are merged under congruence closure.

pub mod binding;
pub mod explore;
pub mod memo;
pub mod rel;
pub mod repr;
pub mod shape;
