//! Inner-product arguments over a prime-order group, with the transcript
//! discipline that makes them non-interactive, and the rank-1 constraint
//! gadgets that a recursion circuit is built from.
//!
//! The arguments are generic over a `Group` and its scalar `PrimeField`;
//! `mersenne` holds a small field and group on which they can be run.

pub mod commitments;
pub mod errors;
pub mod field;
pub mod final_ipa;
pub mod final_ipa_aux;
pub mod gadgets;
pub mod group;
pub mod ipa;
pub mod mersenne;
pub mod r1cs;
pub mod reduction;
pub mod transcript;
