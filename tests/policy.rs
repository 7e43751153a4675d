use phrasekit::{resolve_overlaps, score_order_key, Match, MatchPolicy, Payload};

fn score_key(salience: f32, count: u32) -> u32 {
    score_order_key((salience * ((count + 1) as f32).ln()).to_bits())
}

fn make_match(start: usize, end: usize, salience: f32, count: u32) -> Match {
    Match::new(
        start,
        end,
        0,
        Payload::new(0, salience.to_bits(), count, (end - start) as u8),
        score_key(salience, count),
    )
}

fn make_indexed(start: usize, end: usize, pattern_id: usize, salience: f32, count: u32) -> Match {
    Match::new(
        start,
        end,
        pattern_id,
        Payload::new(pattern_id as u32, salience.to_bits(), count, (end - start) as u8),
        score_key(salience, count),
    )
}

#[test]
fn test_leftmost_longest() {
    let matches = vec![
        make_match(0, 2, 1.0, 100),
        make_match(0, 3, 1.0, 100),
        make_match(5, 7, 1.0, 100),
    ];

    let resolved = resolve_overlaps(matches, MatchPolicy::LeftmostLongest);
    assert_eq!(resolved.len(), 2);
    assert_eq!(resolved[0].len(), 3);
    assert_eq!(resolved[1].start, 5);
}

#[test]
fn test_leftmost_first() {
    let matches = vec![
        make_match(0, 2, 1.0, 100),
        make_match(1, 3, 1.0, 100),
        make_match(3, 5, 1.0, 100),
    ];

    let resolved = resolve_overlaps(matches, MatchPolicy::LeftmostFirst);
    assert_eq!(resolved.len(), 2);
    assert_eq!(resolved[0].end, 2);
    assert_eq!(resolved[1].start, 3);
}

#[test]
fn test_salience_max() {
    let matches = vec![
        make_match(0, 2, 1.0, 100),
        make_match(0, 3, 2.0, 200),
        make_match(5, 7, 1.0, 100),
    ];

    let resolved = resolve_overlaps(matches, MatchPolicy::SalienceMax);
    assert_eq!(resolved.len(), 2);
    assert_eq!(resolved[0].len(), 3);
}

#[test]
fn policy_names_parse() {
    assert_eq!(MatchPolicy::from_str("leftmost_longest"), Some(MatchPolicy::LeftmostLongest));
    assert_eq!(MatchPolicy::from_str("leftmost_first"), Some(MatchPolicy::LeftmostFirst));
    assert_eq!(MatchPolicy::from_str("salience_max"), Some(MatchPolicy::SalienceMax));
    assert_eq!(MatchPolicy::from_str("longest"), None);
    assert_eq!(MatchPolicy::from_str(""), None);
}

#[test]
fn resolving_nothing_gives_nothing() {
    for policy in [MatchPolicy::LeftmostLongest, MatchPolicy::LeftmostFirst, MatchPolicy::SalienceMax] {
        assert!(resolve_overlaps(Vec::new(), policy).is_empty());
    }
}

#[test]
fn leftmost_longest_ties_go_to_greater_pattern_index() {
    let matches = vec![make_indexed(0, 2, 1, 1.0, 1), make_indexed(0, 2, 4, 1.0, 1)];
    let resolved = resolve_overlaps(matches, MatchPolicy::LeftmostLongest);
    assert_eq!(resolved.len(), 1);
    assert_eq!(resolved[0].pattern_id, 4);
}

#[test]
fn leftmost_longest_discards_later_overlaps() {
    // [0,3) wins its start; [2,5) starts before the cursor and is dropped;
    // [3,4) starts at the cursor and is kept.
    let matches = vec![
        make_indexed(2, 5, 0, 1.0, 1),
        make_indexed(0, 3, 1, 1.0, 1),
        make_indexed(3, 4, 2, 1.0, 1),
    ];
    let resolved = resolve_overlaps(matches, MatchPolicy::LeftmostLongest);
    let spans: Vec<(usize, usize)> = resolved.iter().map(|m| (m.start, m.end)).collect();
    assert_eq!(spans, vec![(0, 3), (3, 4)]);
}

#[test]
fn leftmost_first_keeps_input_order_among_equal_starts() {
    let matches = vec![make_indexed(0, 2, 7, 1.0, 1), make_indexed(0, 3, 3, 1.0, 1)];
    let resolved = resolve_overlaps(matches, MatchPolicy::LeftmostFirst);
    assert_eq!(resolved.len(), 1);
    assert_eq!(resolved[0].pattern_id, 7);
    assert_eq!(resolved[0].end, 2);
}

#[test]
fn salience_max_breaks_ties_by_length_then_start() {
    // Equal scores: the longer match wins.
    let resolved = resolve_overlaps(
        vec![make_indexed(0, 2, 0, 1.0, 9), make_indexed(1, 4, 1, 1.0, 9)],
        MatchPolicy::SalienceMax,
    );
    assert_eq!(resolved.len(), 1);
    assert_eq!(resolved[0].pattern_id, 1);
    // Equal scores and lengths: the earlier start wins.
    let resolved = resolve_overlaps(
        vec![make_indexed(1, 3, 0, 1.0, 9), make_indexed(0, 2, 1, 1.0, 9)],
        MatchPolicy::SalienceMax,
    );
    assert_eq!(resolved.len(), 1);
    assert_eq!(resolved[0].start, 0);
}

#[test]
fn salience_max_follows_a_chain_of_overlaps() {
    // [0,2) overlaps [1,3), which overlaps [2,4): one component whose best is
    // the last; then [4,5) starts a new component.
    let matches = vec![
        make_indexed(0, 2, 0, 1.0, 1),
        make_indexed(1, 3, 1, 1.0, 1),
        make_indexed(2, 4, 2, 5.0, 1),
        make_indexed(4, 5, 3, 1.0, 1),
    ];
    let resolved = resolve_overlaps(matches, MatchPolicy::SalienceMax);
    let spans: Vec<(usize, usize)> = resolved.iter().map(|m| (m.start, m.end)).collect();
    assert_eq!(spans, vec![(2, 4), (4, 5)]);
}

#[test]
fn resolved_matches_never_overlap() {
    let matches = vec![
        make_indexed(3, 6, 0, 2.0, 3),
        make_indexed(0, 2, 1, 1.0, 1),
        make_indexed(1, 4, 2, 3.0, 9),
        make_indexed(5, 7, 3, 1.0, 1),
        make_indexed(0, 5, 4, 0.5, 2),
        make_indexed(6, 8, 5, 4.0, 2),
    ];
    for policy in [MatchPolicy::LeftmostLongest, MatchPolicy::LeftmostFirst, MatchPolicy::SalienceMax] {
        let resolved = resolve_overlaps(matches.clone(), policy);
        assert!(!resolved.is_empty());
        for a in 0..resolved.len() {
            for b in 0..resolved.len() {
                if a != b {
                    assert!(!resolved[a].overlaps(&resolved[b]));
                }
            }
        }
        for w in resolved.windows(2) {
            assert!(w[0].start < w[1].start);
        }
    }
}

#[test]
fn match_overlap_is_half_open() {
    let a = make_match(0, 2, 1.0, 1);
    let b = make_match(2, 4, 1.0, 1);
    let c = make_match(1, 3, 1.0, 1);
    assert!(!a.overlaps(&b));
    assert!(a.overlaps(&c));
    assert!(c.overlaps(&b));
}

#[test]
fn score_keys_order_like_floats() {
    let values = [-3.5f32, -1.0, -0.0, 0.5, 1.0, 2.0, 1.0e30];
    for w in values.windows(2) {
        assert!(score_order_key(w[0].to_bits()) < score_order_key(w[1].to_bits()));
    }
    assert_eq!(score_order_key(0), 0x8000_0000);
    assert_eq!(score_order_key(0x8000_0000), 0x7fff_ffff);
    assert_eq!(score_order_key(0xffff_ffff), 0);
}
