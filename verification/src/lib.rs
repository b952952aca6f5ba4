//! A statistical n-gram language model: it learns token-transition counts
//! from a text corpus and generates new token sequences by weighted,
//! deterministic pseudo-random sampling (top-k truncation and temperature
//! scaling included), with an exact, integer-only account of every step.
#![verifier::loop_isolation(false)]

pub mod arith;
pub mod model;
pub mod rng;
pub mod sample;
pub mod table;
pub mod text;

pub use model::BuildError;
pub use model::ConfigError;
pub use model::LidstoneConfig;
pub use model::LidstoneModel;
pub use model::PersistenceError;
pub use model::Ratio;
pub use model::SavedModel;
pub use model::SmoothingType;
pub use model::UnseenPolicy;
pub use table::Candidate;
pub use table::ContextEntry;
pub use text::LowerCasePreProcessor;
pub use text::PreProcessor;
pub use text::PreStage;
pub use text::StartEndTokensPreProcessor;
