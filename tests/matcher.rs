use phrasekit::{
    build_artifacts, match_tokens_named, score_order_key, BuildConfig, Manifest, ManifestError,
    Match, MatchPolicy, Matcher, MatcherError, Payload, Phrase,
};

const SEP: u32 = 4294967294;

fn phrase(tokens: &[u32], phrase_id: u32, salience: f32, count: u32) -> Phrase {
    Phrase { tokens: tokens.to_vec(), phrase_id, salience_bits: salience.to_bits(), count }
}

fn config() -> BuildConfig {
    BuildConfig {
        version: "test-v1".to_string(),
        tokenizer: "test-tokenizer".to_string(),
        separator_id: SEP,
        min_count: None,
        salience_threshold_bits: None,
    }
}

fn score_of(p: &Payload) -> u32 {
    let s = f32::from_bits(p.salience_bits) * ((p.count + 1) as f32).ln();
    score_order_key(s.to_bits())
}

fn matcher_from(phrases: Vec<Phrase>) -> Matcher {
    let a = build_artifacts(&phrases, &config(), "2025-01-01T00:00:00Z".to_string()).unwrap();
    let scores: Vec<u32> = a.payloads.iter().map(score_of).collect();
    Matcher::new(a.automaton, a.payloads, scores, a.manifest, 0).unwrap()
}

fn fixture() -> Matcher {
    matcher_from(vec![
        phrase(&[100, 101], 100, 2.5, 150),
        phrase(&[200, 101], 200, 2.0, 100),
        phrase(&[100, 101, 102], 300, 3.0, 200),
    ])
}

fn spans(ms: &[Match]) -> Vec<(usize, usize, u32)> {
    ms.iter().map(|m| (m.start, m.end, m.payload.phrase_id)).collect()
}

#[test]
fn test_matcher_load() {
    let matcher = matcher_from(vec![phrase(&[1, 2], 100, 1.5, 50), phrase(&[2, 3], 200, 2.0, 100)]);

    assert_eq!(matcher.num_patterns(), 2);
    assert_eq!(matcher.manifest().version, "test-v1");
}

#[test]
fn test_matcher_match_tokens() {
    let matcher = matcher_from(vec![phrase(&[1, 2], 100, 1.5, 50), phrase(&[2, 3], 200, 2.0, 100)]);

    let token_ids = vec![1, 2, 3, 4];
    let matches = matcher.match_tokens(&token_ids, MatchPolicy::LeftmostLongest, 10);

    // [1,2) overlaps the leftmost hit [0,2) and is discarded by the cursor.
    assert_eq!(matches.len(), 1);
    assert_eq!(matches[0].start, 0);
    assert_eq!(matches[0].end, 2);
    let raw: Vec<(usize, usize)> =
        matcher.raw_hits(&token_ids).iter().map(|h| (h.start, h.end)).collect();
    assert_eq!(raw.len(), 2);
    assert!(raw.contains(&(0, 16)) && raw.contains(&(8, 24)));
}

#[test]
fn leftmost_longest_prefers_the_longer_phrase() {
    let m = fixture();
    let r = m.match_tokens(&[100, 101, 102], MatchPolicy::LeftmostLongest, 10);
    assert_eq!(spans(&r), vec![(0, 3, 300)]);
}

#[test]
fn leftmost_longest_on_the_short_phrase() {
    let m = fixture();
    let r = m.match_tokens(&[100, 101], MatchPolicy::LeftmostLongest, 10);
    assert_eq!(spans(&r), vec![(0, 2, 100)]);
}

#[test]
fn leftmost_first_prefers_the_earlier_hit() {
    let m = fixture();
    let r = m.match_tokens(&[100, 101, 102], MatchPolicy::LeftmostFirst, 10);
    assert_eq!(spans(&r), vec![(0, 2, 100)]);
}

#[test]
fn salience_max_prefers_the_higher_score() {
    let m = matcher_from(vec![phrase(&[1, 2], 1, 1.0, 100), phrase(&[1, 2, 3], 2, 2.0, 200)]);
    let r = m.match_tokens(&[1, 2, 3], MatchPolicy::SalienceMax, 10);
    assert_eq!(spans(&r), vec![(0, 3, 2)]);
    assert_eq!(r[0].payload.n, 3);
    assert_eq!(r[0].payload.count, 200);
}

#[test]
fn empty_input_gives_no_matches() {
    let m = fixture();
    for policy in [MatchPolicy::LeftmostLongest, MatchPolicy::LeftmostFirst, MatchPolicy::SalienceMax] {
        assert!(m.match_tokens(&[], policy, 10).is_empty());
    }
}

#[test]
fn cap_keeps_the_first_matches() {
    let m = matcher_from(vec![phrase(&[5, 6], 56, 1.0, 10), phrase(&[7], 7, 1.0, 10)]);
    let one = m.match_tokens(&[5, 6, 5, 6], MatchPolicy::LeftmostLongest, 1);
    assert_eq!(spans(&one), vec![(0, 2, 56)]);
    let ten = m.match_tokens(&[5, 6, 5, 6], MatchPolicy::LeftmostLongest, 10);
    assert_eq!(spans(&ten), vec![(0, 2, 56), (2, 4, 56)]);
    assert!(m.match_tokens(&[5, 6, 5, 6], MatchPolicy::LeftmostLongest, 0).is_empty());
}

#[test]
fn truncation_is_a_prefix_of_any_wider_cap() {
    let m = fixture();
    let input = [100, 101, 9, 200, 101, 100, 101, 102, 100, 101];
    for policy in [MatchPolicy::LeftmostLongest, MatchPolicy::LeftmostFirst, MatchPolicy::SalienceMax] {
        let full = m.match_tokens(&input, policy, 100);
        assert_eq!(full.len(), 4);
        for max in 0..6 {
            let r = m.match_tokens(&input, policy, max);
            assert!(r.len() <= max);
            assert_eq!(r, full[..max.min(full.len())].to_vec());
        }
    }
}

#[test]
fn repeated_queries_agree() {
    let m = fixture();
    let input = [100, 101, 102, 200, 101, 100, 101];
    for policy in [MatchPolicy::LeftmostLongest, MatchPolicy::LeftmostFirst, MatchPolicy::SalienceMax] {
        let first = m.match_tokens(&input, policy, 10);
        let second = m.match_tokens(&input, policy, 10);
        assert_eq!(first, second);
    }
}

#[test]
fn query_results_never_overlap() {
    let m = matcher_from(vec![
        phrase(&[1, 2], 1, 1.0, 5),
        phrase(&[2, 3], 2, 4.0, 5),
        phrase(&[3, 4, 5], 3, 2.0, 5),
        phrase(&[1, 2, 3, 4], 4, 0.5, 5),
        phrase(&[5], 5, 1.0, 1),
    ]);
    let input = [1, 2, 3, 4, 5, 1, 2, 3, 2, 3, 4, 5];
    for policy in [MatchPolicy::LeftmostLongest, MatchPolicy::LeftmostFirst, MatchPolicy::SalienceMax] {
        let r = m.match_tokens(&input, policy, 100);
        assert!(!r.is_empty());
        for a in 0..r.len() {
            for b in 0..r.len() {
                if a != b {
                    assert!(!(r[a].start < r[b].end && r[b].start < r[a].end));
                }
            }
            assert_eq!(r[a].end - r[a].start, r[a].payload.n as usize);
        }
    }
}

#[test]
fn raw_hits_fall_on_token_boundaries() {
    let m = matcher_from(vec![
        phrase(&[0xffff_fffe_u32.wrapping_sub(1), 0xffff], 1, 1.0, 1),
        phrase(&[0xff, 0xfeff], 2, 1.0, 1),
        phrase(&[0xffff_ff00], 3, 1.0, 1),
    ]);
    let input = [0xffff, 0xff, 0xfeff, 0xffff_fffd, 0xffff, 0xffff_ff00, SEP, 0xff];
    let hits = m.raw_hits(&input);
    assert!(!hits.is_empty());
    for h in hits {
        assert_eq!(h.start % 8, 0);
        assert_eq!(h.end % 8, 0);
        let n = [2usize, 2, 1][h.value];
        assert_eq!((h.end - h.start) / 8, n);
    }
}

#[test]
fn raw_hits_on_concatenated_phrases_include_each_phrase() {
    let phrases = vec![
        phrase(&[10, 11], 1, 1.0, 1),
        phrase(&[12], 2, 1.0, 1),
        phrase(&[11, 12, 13], 3, 1.0, 1),
        phrase(&[10], 4, 1.0, 1),
    ];
    let m = matcher_from(phrases.clone());
    let mut input = Vec::new();
    let mut expected = Vec::new();
    for (i, p) in phrases.iter().enumerate() {
        expected.push((i, 8 * input.len(), 8 * (input.len() + p.tokens.len())));
        input.extend_from_slice(&p.tokens);
    }
    let hits: Vec<(usize, usize, usize)> =
        m.raw_hits(&input).iter().map(|h| (h.value, h.start, h.end)).collect();
    for e in expected {
        assert!(hits.contains(&e));
    }
}

#[test]
fn matcher_refuses_mismatched_payloads() {
    let a = build_artifacts(
        &vec![phrase(&[1], 1, 1.0, 1), phrase(&[2], 2, 1.0, 1)],
        &config(),
        "t".to_string(),
    )
    .unwrap();
    let mut payloads = a.payloads.clone();
    payloads.pop();
    let scores = vec![0; payloads.len()];
    let r = Matcher::new(a.automaton, payloads, scores, a.manifest, 0);
    assert_eq!(r.err(), Some(MatcherError::PayloadCountMismatch { expected: 2, got: 1 }));
}

#[test]
fn matcher_refuses_zero_separator() {
    let a = build_artifacts(&vec![phrase(&[1], 1, 1.0, 1)], &config(), "t".to_string()).unwrap();
    let mut manifest: Manifest = a.manifest.clone();
    manifest.separator_id = 0;
    let scores = vec![0; a.payloads.len()];
    let r = Matcher::new(a.automaton, a.payloads, scores, manifest, 0);
    assert_eq!(r.err(), Some(MatcherError::Manifest(ManifestError::ZeroSeparator)));
}

#[test]
fn matcher_reports_load_time() {
    let a = build_artifacts(&vec![phrase(&[1], 1, 1.0, 1)], &config(), "t".to_string()).unwrap();
    let scores = vec![0; a.payloads.len()];
    let m = Matcher::new(a.automaton, a.payloads, scores, a.manifest, 1234).unwrap();
    assert_eq!(m.loaded_at(), 1234);
    assert_eq!(m.manifest().built_at, "t");
}

#[test]
fn named_queries() {
    let m = fixture();
    let r = match_tokens_named(Some(&m), &[100, 101], "leftmost_first", 10).unwrap();
    assert_eq!(spans(&r), vec![(0, 2, 100)]);
    assert_eq!(
        match_tokens_named(Some(&m), &[100, 101], "greedy", 10).err(),
        Some(MatcherError::InvalidPolicy("greedy".to_string()))
    );
    assert_eq!(
        match_tokens_named(None, &[100, 101], "leftmost_first", 10).err(),
        Some(MatcherError::NotLoaded)
    );
}

#[test]
fn raw_hits_come_by_end_then_longest_first() {
    let m = fixture();
    let hits: Vec<(usize, usize, usize)> =
        m.raw_hits(&[100, 101, 102]).iter().map(|h| (h.value, h.start, h.end)).collect();
    assert_eq!(hits, vec![(0, 0, 16), (2, 0, 24)]);
    let m = matcher_from(vec![phrase(&[1, 2], 1, 1.0, 1), phrase(&[2], 2, 1.0, 1)]);
    let hits: Vec<(usize, usize, usize)> =
        m.raw_hits(&[1, 2]).iter().map(|h| (h.value, h.start, h.end)).collect();
    assert_eq!(hits, vec![(0, 0, 16), (1, 8, 16)]);
}
