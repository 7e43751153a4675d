use vstd::prelude::*;

verus! {

/// Versioned descriptor of a set of artifacts. The salience threshold, an
/// `f32`, is held as its IEEE-754 bits.
#[derive(Clone, Debug)]
pub struct Manifest {
    pub version: String,
    pub tokenizer: String,
    pub num_patterns: usize,
    pub min_count: Option<u32>,
    pub salience_threshold_bits: Option<u32>,
    pub built_at: String,
    pub separator_id: u32,
}

/// Why a manifest was refused.
#[derive(Clone, Debug, PartialEq, Eq)]
pub enum ManifestError {
    /// The manifest could not be read.
    Io(String),
    /// The manifest is not valid JSON of the expected shape.
    Json(String),
    /// The separator id is zero.
    ZeroSeparator,
    /// Two manifests name different tokenizers.
    TokenizerMismatch { expected: String, got: String },
    /// Two manifests name different separator ids.
    SeparatorMismatch { expected: u32, got: u32 },
}

/// Two manifests agree on what the artifacts depend on: the tokenizer and
/// the separator id. The version is informational.
pub open spec fn compatible(a: Manifest, b: Manifest) -> bool {
    a.tokenizer@ == b.tokenizer@ && a.separator_id == b.separator_id
}

impl Manifest {
    /// Checks a manifest just read: its separator id must be non-zero.
    pub fn validate(&self) -> (r: Result<(), ManifestError>)
        ensures
            self.separator_id == 0 ==> r == Err::<(), ManifestError>(ManifestError::ZeroSeparator),
            self.separator_id != 0 ==> r is Ok,
    {
        if self.separator_id == 0 {
            Err(ManifestError::ZeroSeparator)
        } else {
            Ok(())
        }
    }

    /// Checks that artifacts described by `other` can be used with those
    /// described by `self`.
    pub fn validate_compatible(&self, other: &Manifest) -> (r: Result<(), ManifestError>)
        ensures
            r is Ok <==> compatible(*self, *other),
            self.tokenizer@ != other.tokenizer@ ==> r == Err::<(), ManifestError>(
                ManifestError::TokenizerMismatch {
                    expected: self.tokenizer,
                    got: other.tokenizer,
                },
            ),
            self.tokenizer@ == other.tokenizer@ && self.separator_id != other.separator_id ==> r
                == Err::<(), ManifestError>(
                ManifestError::SeparatorMismatch {
                    expected: self.separator_id,
                    got: other.separator_id,
                },
            ),
    {
        if self.tokenizer != other.tokenizer {
            return Err(
                ManifestError::TokenizerMismatch {
                    expected: self.tokenizer.clone(),
                    got: other.tokenizer.clone(),
                },
            );
        }
        if self.separator_id != other.separator_id {
            return Err(
                ManifestError::SeparatorMismatch {
                    expected: self.separator_id,
                    got: other.separator_id,
                },
            );
        }
        Ok(())
    }
}

/// Compatibility is reflexive and symmetric.
pub proof fn lemma_compatible_reflexive_symmetric(a: Manifest, b: Manifest)
    ensures
        compatible(a, a),
        compatible(a, b) == compatible(b, a),
{
}

} // verus!
