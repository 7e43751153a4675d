use phrasekit::{Manifest, ManifestError};

fn manifest(tokenizer: &str, separator_id: u32, version: &str) -> Manifest {
    Manifest {
        version: version.to_string(),
        tokenizer: tokenizer.to_string(),
        num_patterns: 1287345,
        min_count: Some(20),
        salience_threshold_bits: Some(1.0f32.to_bits()),
        built_at: "2025-09-25T18:44:00Z".to_string(),
        separator_id,
    }
}

#[test]
fn zero_separator_is_refused() {
    assert_eq!(manifest("t", 0, "v").validate(), Err(ManifestError::ZeroSeparator));
    assert_eq!(manifest("t", 4294967294, "v").validate(), Ok(()));
}

#[test]
fn compatibility_ignores_version() {
    let a = manifest("scientist-v1", 4294967294, "pk-2025-09-25-01");
    let b = manifest("scientist-v1", 4294967294, "pk-2025-10-01-01");
    assert_eq!(a.validate_compatible(&b), Ok(()));
    assert_eq!(a.validate_compatible(&a), Ok(()));
}

#[test]
fn compatibility_mismatches() {
    let a = manifest("scientist-v1", 4294967294, "v");
    let b = manifest("other", 4294967294, "v");
    let c = manifest("scientist-v1", 7, "v");
    assert_eq!(
        a.validate_compatible(&b),
        Err(ManifestError::TokenizerMismatch {
            expected: "scientist-v1".to_string(),
            got: "other".to_string()
        })
    );
    assert_eq!(
        a.validate_compatible(&c),
        Err(ManifestError::SeparatorMismatch { expected: 4294967294, got: 7 })
    );
    assert_eq!(b.validate_compatible(&a).is_ok(), a.validate_compatible(&b).is_ok());
    assert_eq!(c.validate_compatible(&a).is_ok(), a.validate_compatible(&c).is_ok());
}
