//! The scheme: parameters, a prover, a verifier, and the values that pass between them.
pub mod binding;
pub mod commitment;
pub mod completeness;
pub mod dropped_laws;
pub mod laws;
pub mod messages;
pub mod params;
pub mod prover;
pub mod public;
pub mod recursive;
pub mod script;
pub mod soundness;
pub mod verify;
pub mod witness;

pub use commitment::{Commitment, CommitmentValue, EvaluationPoint, FoldedWitness, RowEvaluation};
pub use messages::{
    CommitmentOpening, FoldedCommitment, FoldingChallenges, FoldingSource, LeftExpansionCommitment,
    OpeningMessage, OpeningProof, VerificationError,
};
pub use params::{FoldCap, Opening, ParamError, Params, Suite};
pub use prover::{OpeningError, Prover};
pub use public::PublicParameters;
pub use verify::Verifier;
pub use witness::{Witness, WitnessError};
