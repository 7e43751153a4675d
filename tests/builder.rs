use phrasekit::{
    build_artifacts, load_payloads, select_phrases, BuildConfig, BuildError, Payload, Phrase,
};

const SEP: u32 = 4294967294;

fn phrase(tokens: &[u32], phrase_id: u32, salience: f32, count: u32) -> Phrase {
    Phrase { tokens: tokens.to_vec(), phrase_id, salience_bits: salience.to_bits(), count }
}

fn config(min_count: Option<u32>, threshold: Option<f32>) -> BuildConfig {
    BuildConfig {
        version: "v1".to_string(),
        tokenizer: "tok".to_string(),
        separator_id: SEP,
        min_count,
        salience_threshold_bits: threshold.map(f32::to_bits),
    }
}

#[test]
fn rules_filter_and_count() {
    let long: Vec<u32> = (1..=256).collect();
    let phrases = vec![
        phrase(&[1, 2], 10, 2.0, 50),   // accepted
        phrase(&[3], 11, 2.0, 5),       // count below 10
        phrase(&[4], 12, 0.5, 50),      // salience below 1.0
        phrase(&[], 13, 2.0, 50),       // no tokens
        phrase(&[5, SEP], 14, 2.0, 50), // holds the separator
        phrase(&long, 15, 2.0, 50),     // more than 255 tokens
        phrase(&[6], 10, 2.0, 50),      // id 10 taken
        phrase(&[7], 11, 2.0, 50),      // id 11 was filtered, so it is free
        phrase(&[8], 16, 1.0, 10),      // at both thresholds: kept
    ];
    let (selected, stats) = select_phrases(&phrases, &config(Some(10), Some(1.0)));
    assert_eq!(selected, vec![0, 7, 8]);
    assert_eq!(stats.total_input, 9);
    assert_eq!(stats.built, 3);
    assert_eq!(stats.filtered_low_count, 1);
    assert_eq!(stats.filtered_low_salience, 1);
    assert_eq!(stats.invalid_tokens, 3);
    assert_eq!(stats.duplicate_phrase_ids, 1);
}

#[test]
fn thresholds_apply_only_when_set() {
    let phrases = vec![phrase(&[1], 1, 0.0, 0), phrase(&[2], 2, -1.0, 0)];
    let (selected, _) = select_phrases(&phrases, &config(None, None));
    assert_eq!(selected, vec![0, 1]);
    let (selected, stats) = select_phrases(&phrases, &config(None, Some(-0.0)));
    assert_eq!(selected, vec![0]);
    assert_eq!(stats.filtered_low_salience, 1);
    let (selected, _) = select_phrases(&[phrase(&[1], 1, f32::NAN, 0)].to_vec(), &config(None, Some(1.0)));
    assert_eq!(selected, vec![0]);
}

#[test]
fn artifacts_hold_the_survivors_in_order() {
    let phrases = vec![phrase(&[1, 2], 10, 2.5, 50), phrase(&[], 11, 1.0, 1), phrase(&[3], 12, 1.5, 7)];
    let a = build_artifacts(&phrases, &config(None, None), "2025-01-01T00:00:00Z".to_string()).unwrap();
    assert_eq!(
        a.payloads,
        vec![
            Payload::new(10, 2.5f32.to_bits(), 50, 2),
            Payload::new(12, 1.5f32.to_bits(), 7, 1)
        ]
    );
    assert_eq!(a.payload_bytes.len(), 34);
    assert_eq!(load_payloads(&a.payload_bytes), Ok(a.payloads.clone()));
    assert!(!a.automaton_bytes.is_empty());
    assert_eq!(a.manifest.num_patterns, 2);
    assert_eq!(a.manifest.separator_id, SEP);
    assert_eq!(a.manifest.tokenizer, "tok");
    assert_eq!(a.manifest.version, "v1");
    assert_eq!(a.manifest.built_at, "2025-01-01T00:00:00Z");
    assert_eq!(a.stats.invalid_tokens, 1);
    assert_eq!(a.stats.built, 2);
}

#[test]
fn the_automaton_blob_is_deterministic() {
    let phrases = vec![phrase(&[1, 2], 10, 2.5, 50), phrase(&[3], 12, 1.5, 7)];
    let a = build_artifacts(&phrases, &config(None, None), "a".to_string()).unwrap();
    let b = build_artifacts(&phrases, &config(None, None), "b".to_string()).unwrap();
    assert_eq!(a.automaton_bytes, b.automaton_bytes);
    let c = build_artifacts(&phrases[..1].to_vec(), &config(None, None), "c".to_string()).unwrap();
    assert_ne!(a.automaton_bytes, c.automaton_bytes);
}

#[test]
fn build_errors() {
    let mut zero = config(None, None);
    zero.separator_id = 0;
    assert_eq!(
        build_artifacts(&vec![phrase(&[1], 1, 1.0, 1)], &zero, "t".to_string()).err(),
        Some(BuildError::ZeroSeparator)
    );
    assert_eq!(
        build_artifacts(&vec![phrase(&[], 1, 1.0, 1)], &config(None, None), "t".to_string()).err(),
        Some(BuildError::NoPhrases)
    );
    assert_eq!(
        build_artifacts(
            &vec![phrase(&[1, 2], 1, 1.0, 1), phrase(&[1, 2], 2, 1.0, 1)],
            &config(None, None),
            "t".to_string()
        )
        .err(),
        Some(BuildError::Automaton)
    );
}
