//! Verified core of a small scripting-host utility library.
//!
//! Two components, independent of each other and free of shared state:
//!
//! * [`tree`] — structural randomization of a nested keyed tree: every leaf
//!   value is collected in traversal order, the collected values are permuted,
//!   and a tree of the same shape is rebuilt with the permuted values in the
//!   original leaf positions.
//! * [`sampler`] — constrained retry-sampling over a pool of candidates:
//!   candidates are drawn with a caller-supplied deterministic draw source
//!   until an acceptance rule is satisfied or a retry budget runs out, with a
//!   fixed fallback when the budget runs out under the strict mode.
//!
//! Both consume draws from a [`stream::DrawStream`], an explicit, caller-seeded
//! stand-in for the host's global pseudo-random state: the caller controls the
//! whole draw sequence, so every result here is a function of its inputs.

pub mod sampler;
pub mod shuffler;
pub mod stream;
pub mod tree;
