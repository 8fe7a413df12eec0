//! PLONK over BLS12-381, with KZG commitments and a Fiat-Shamir transcript.

pub mod field;
pub mod circuit;
pub mod permutation;
pub mod poly;
pub mod evaluation;
pub mod curve;
pub mod transcript;
pub mod kzg;
pub mod ceremony;
pub mod preprocess;
pub mod proof_format;
pub mod rounds;
pub mod proof_check;
pub mod prover;
pub mod completeness;

pub use circuit::{Circuit, Variable};
pub use field::Scalar;
pub use kzg::Srs;
pub use preprocess::{preprocess, required_srs_degree, PreprocessError, ProverKey, VerifierKey};
pub use proof_format::Proof;
pub use prover::{prove, ProveError};
pub use proof_check::verify;
