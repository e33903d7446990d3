//! A FRI (fast Reed-Solomon folding) commitment protocol over the
//! BLS12-381 scalar field.
//!
//! A prover commits to a polynomial by repeatedly folding it into
//! half-degree polynomials, committing each intermediate polynomial's
//! evaluation-domain values into a binary combining tree; a verifier
//! checks an opening at a queried domain position by replaying the
//! trees' authentication paths and the algebraic folding recurrence,
//! gaining confidence that the committed object is close to a low-degree
//! polynomial without seeing it.
//!
//! - [`field`] models the scalar field: canonical elements, their integer
//!   values, and the arithmetic done by `ark-ff` behind trusted wrappers.
//! - [`utils`] holds the polynomial primitives: evaluation, domain
//!   generators, blown-up evaluation domains, folding and path replay.
//! - [`merkle`] is the per-round binding commitment structure.
//! - [`fri`] is the protocol engine with its `commit`, `query` and
//!   `verify` phases, and the laws proved about them.
use vstd::prelude::*;

pub mod field;
pub mod fri;
pub mod merkle;
pub mod utils;

verus! {

} // verus!
