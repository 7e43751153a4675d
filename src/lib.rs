//! Multi-token phrase matching over pre-tokenized documents.
//!
//! Token-id sequences are encoded into a byte stream in which every token is
//! followed by a reserved separator id, so that a byte-level Aho–Corasick
//! automaton finds token phrases only at token boundaries. Raw hits are joined
//! with a fixed-width payload table and resolved under one of three overlap
//! policies.

pub mod automaton;
pub mod builder;
pub mod encoding;
pub mod manifest;
pub mod matcher;
pub mod payload;
pub mod policy;

pub use encoding::encode_tokens;
pub use payload::{load_payloads, score_order_key, write_payloads, Payload, PayloadError};
pub use policy::{resolve_overlaps, Match, MatchPolicy};
pub use manifest::{Manifest, ManifestError};
pub use matcher::{match_tokens_named, Matcher, MatcherError};
pub use automaton::RawHit;
pub use builder::{build_artifacts, select_phrases, Artifacts, BuildConfig, BuildError, BuildStats, Phrase, Verdict};
