use vstd::prelude::*;
use daachorse::DoubleArrayAhoCorasick;
use crate::automaton::{
    automaton_patterns, find_overlapping, hits_complete, hits_ordered, hits_sound, overlapping_hits,
    searches_overlapping, RawHit,
};
use crate::encoding::{encode, encode_tokens};
use crate::manifest::{Manifest, ManifestError};
use crate::payload::{Payload, PayloadError};
use crate::policy::{
    chained, lemma_resolved_non_overlapping, lemma_resolved_within, non_overlapping, policy_named,
    resolve, resolve_overlaps, spans_within, well_formed, Match, MatchPolicy,
};
use crate::encoding::{lemma_encode_layout, lemma_occurrence_aligned, separator_unbordered};
use crate::builder::tokens_valid;
use crate::automaton::occurs_at;
use crate::policy::lemma_resolved_members;

verus! {

/// Why loading or querying a matcher failed.
#[derive(Clone, Debug, PartialEq, Eq)]
pub enum MatcherError {
    /// An artifact could not be read.
    Io(String),
    /// The manifest was refused.
    Manifest(ManifestError),
    /// The payload table was refused.
    Payload(PayloadError),
    /// The payload table does not hold one record per pattern.
    PayloadCountMismatch { expected: usize, got: usize },
    /// No matcher is loaded.
    NotLoaded,
    /// The policy name is none of the three policies'.
    InvalidPolicy(String),
}

/// A loaded set of artifacts, immutable once built.
pub struct Matcher {
    automaton: DoubleArrayAhoCorasick<u32>,
    payloads: Vec<Payload>,
    scores: Vec<u32>,
    manifest: Manifest,
    loaded_at_ms: u64,
}

/// The match that a raw hit denotes: byte offsets become token offsets, the
/// end rounded up, and the pattern's payload and score are attached.
pub open spec fn hit_match(h: RawHit, payloads: Seq<Payload>, scores: Seq<u32>) -> Match {
    Match {
        start: (h.start / 8) as usize,
        end: ((h.end + 7) / 8) as usize,
        pattern_id: h.value,
        payload: payloads[h.value as int],
        score: scores[h.value as int],
    }
}

/// The matches of the hits, in order; a hit whose pattern has no payload is
/// dropped.
pub open spec fn hit_matches(hits: Seq<RawHit>, payloads: Seq<Payload>, scores: Seq<u32>) -> Seq<
    Match,
>
    decreases hits.len(),
{
    if hits.len() == 0 {
        Seq::empty()
    } else {
        let rest = hit_matches(hits.drop_last(), payloads, scores);
        if hits.last().value < payloads.len() {
            rest.push(hit_match(hits.last(), payloads, scores))
        } else {
            rest
        }
    }
}

/// At most the first `max` matches.
pub open spec fn truncated(s: Seq<Match>, max: usize) -> Seq<Match> {
    if s.len() > max {
        s.subrange(0, max as int)
    } else {
        s
    }
}

/// The result of a query: encode, search, join with payloads, resolve under
/// `policy`, keep at most `max`.
pub open spec fn matches_for(
    patterns: Seq<Seq<u8>>,
    payloads: Seq<Payload>,
    scores: Seq<u32>,
    separator: u32,
    tokens: Seq<u32>,
    policy: MatchPolicy,
    max: usize,
) -> Seq<Match> {
    if tokens.len() == 0 {
        Seq::empty()
    } else {
        let hits = overlapping_hits(patterns, encode(tokens, separator));
        truncated(resolve(hit_matches(hits, payloads, scores), policy), max)
    }
}

proof fn lemma_hit_matches_within(
    hits: Seq<RawHit>,
    payloads: Seq<Payload>,
    scores: Seq<u32>,
    n: int,
)
    requires
        forall|k: int|
            0 <= k < hits.len() ==> #[trigger] hits[k].start < hits[k].end && hits[k].end <= 8 * n,
    ensures
        spans_within(hit_matches(hits, payloads, scores), n),
        well_formed(hit_matches(hits, payloads, scores)),
    decreases hits.len(),
{
    if hits.len() > 0 {
        let init = hits.drop_last();
        assert forall|k: int| 0 <= k < init.len() implies #[trigger] init[k].start < init[k].end
            && init[k].end <= 8 * n by {
            assert(init[k] == hits[k]);
        }
        lemma_hit_matches_within(init, payloads, scores, n);
        let h = hits.last();
        assert(hits[hits.len() - 1].start < hits[hits.len() - 1].end);
        assert(h.start < h.end && h.end <= 8 * n);
        assert(h.start / 8 < (h.end + 7) / 8);
        assert((h.end + 7) / 8 <= n);
        assert((h.end + 7) / 8 <= usize::MAX);
        let rest = hit_matches(init, payloads, scores);
        if h.value < payloads.len() {
            let m = hit_match(h, payloads, scores);
            assert(m.start < m.end && m.end <= n);
            assert forall|k: int| 0 <= k < rest.push(m).len() implies #[trigger] rest.push(m)[k].start
                < rest.push(m)[k].end && rest.push(m)[k].end <= n by {
                if k < rest.len() {
                    assert(rest.push(m)[k] == rest[k]);
                }
            }
            assert(hit_matches(hits, payloads, scores) == rest.push(m));
        } else {
            assert(hit_matches(hits, payloads, scores) == rest);
        }
        assert(spans_within(rest, n));
    }
}

/// `pattern` is the encoding of `n` tokens that can form a pattern.
pub open spec fn encodes_tokens(pattern: Seq<u8>, separator: u32, n: u8) -> bool {
    exists|t: Seq<u32>|
        #[trigger] encode(t, separator) == pattern && tokens_valid(t, separator) && t.len() == n
}

proof fn lemma_hit_matches_members(hits: Seq<RawHit>, payloads: Seq<Payload>, scores: Seq<u32>)
    ensures
        forall|x: Match| #[trigger]
            hit_matches(hits, payloads, scores).contains(x) ==> exists|k: int|
                0 <= k < hits.len() && hits[k].value < payloads.len() && x == hit_match(
                    #[trigger] hits[k],
                    payloads,
                    scores,
                ),
    decreases hits.len(),
{
    if hits.len() > 0 {
        let init = hits.drop_last();
        lemma_hit_matches_members(init, payloads, scores);
        let rest = hit_matches(init, payloads, scores);
        let n = hits.len() - 1;
        assert forall|x: Match| #[trigger]
            hit_matches(hits, payloads, scores).contains(x) implies exists|k: int|
            0 <= k < hits.len() && hits[k].value < payloads.len() && x == hit_match(
                #[trigger] hits[k],
                payloads,
                scores,
            ) by {
            let all = hit_matches(hits, payloads, scores);
            let j = choose|j: int| 0 <= j < all.len() && all[j] == x;
            if j < rest.len() {
                if hits.last().value < payloads.len() {
                    assert(all[j] == rest.push(hit_match(hits.last(), payloads, scores))[j]);
                }
                assert(rest[j] == x);
                assert(rest.contains(x));
                let k = choose|k: int|
                    0 <= k < init.len() && init[k].value < payloads.len() && x == hit_match(
                        #[trigger] init[k],
                        payloads,
                        scores,
                    );
                assert(hits[k] == init[k]);
            } else {
                assert(hits[n] == hits.last());
            }
        }
    }
}

impl Matcher {
    /// The artifacts agree the way a build makes them: pattern `i` encodes
    /// `payload_table()[i].n` tokens, none of them the separator, and the
    /// separator's bytes cannot overlap themselves.
    pub open spec fn consistent(self) -> bool {
        &&& separator_unbordered(self.manifest_spec().separator_id)
        &&& forall|i: int|
            0 <= i < self.payload_table().len() ==> i < self.patterns().len() && encodes_tokens(
                #[trigger] self.patterns()[i],
                self.manifest_spec().separator_id,
                self.payload_table()[i].n,
            )
    }

    /// The automaton's patterns.
    pub closed spec fn patterns(self) -> Seq<Seq<u8>> {
        automaton_patterns(self.automaton)
    }

    /// The payload table, by pattern index.
    pub closed spec fn payload_table(self) -> Seq<Payload> {
        self.payloads@
    }

    /// The score order keys, by pattern index.
    pub closed spec fn score_table(self) -> Seq<u32> {
        self.scores@
    }

    pub closed spec fn manifest_spec(self) -> Manifest {
        self.manifest
    }

    pub closed spec fn loaded_at_spec(self) -> u64 {
        self.loaded_at_ms
    }

    /// The matcher's invariant: one payload and one score per pattern that
    /// the manifest counts, a non-zero separator, and an automaton that can
    /// search for overlapping hits.
    pub closed spec fn wf(self) -> bool {
        &&& searches_overlapping(self.automaton)
        &&& self.payloads@.len() == self.manifest.num_patterns
        &&& self.scores@.len() == self.payloads@.len()
        &&& self.manifest.separator_id != 0
    }

    /// What `match_tokens` returns.
    pub open spec fn matches(self, tokens: Seq<u32>, policy: MatchPolicy, max: usize) -> Seq<
        Match,
    > {
        matches_for(
            self.patterns(),
            self.payload_table(),
            self.score_table(),
            self.manifest_spec().separator_id,
            tokens,
            policy,
            max,
        )
    }

    /// Assembles a matcher from loaded artifacts. `scores[i]` is the order key
    /// of pattern `i`'s derived salience score. Fails when the manifest's
    /// separator id is zero or the payload table does not hold
    /// `manifest.num_patterns` records.
    pub fn new(
        automaton: DoubleArrayAhoCorasick<u32>,
        payloads: Vec<Payload>,
        scores: Vec<u32>,
        manifest: Manifest,
        loaded_at_ms: u64,
    ) -> (r: Result<Matcher, MatcherError>)
        requires
            searches_overlapping(automaton),
            scores@.len() == payloads@.len(),
        ensures
            manifest.separator_id == 0 ==> r == Err::<Matcher, MatcherError>(
                MatcherError::Manifest(ManifestError::ZeroSeparator),
            ),
            manifest.separator_id != 0 && payloads@.len() != manifest.num_patterns ==> r == Err::<
                Matcher,
                MatcherError,
            >(
                MatcherError::PayloadCountMismatch {
                    expected: manifest.num_patterns,
                    got: payloads@.len() as usize,
                },
            ),
            manifest.separator_id != 0 && payloads@.len() == manifest.num_patterns ==> r is Ok,
            r is Ok ==> {
                let m = r->Ok_0;
                &&& m.wf()
                &&& m.patterns() == automaton_patterns(automaton)
                &&& m.payload_table() == payloads@
                &&& m.score_table() == scores@
                &&& m.manifest_spec() == manifest
                &&& m.loaded_at_spec() == loaded_at_ms
            },
    {
        if manifest.separator_id == 0 {
            return Err(MatcherError::Manifest(ManifestError::ZeroSeparator));
        }
        if payloads.len() != manifest.num_patterns {
            return Err(
                MatcherError::PayloadCountMismatch {
                    expected: manifest.num_patterns,
                    got: payloads.len(),
                },
            );
        }
        Ok(Matcher { automaton, payloads, scores, manifest, loaded_at_ms })
    }

    /// The raw hits of the automaton on the encoded input: every occurrence of
    /// every pattern, and nothing else.
    pub fn raw_hits(&self, token_ids: &[u32]) -> (r: Vec<RawHit>)
        requires
            self.wf(),
        ensures
            r@ == overlapping_hits(
                self.patterns(),
                encode(token_ids@, self.manifest_spec().separator_id),
            ),
            hits_sound(self.patterns(), encode(token_ids@, self.manifest_spec().separator_id), r@),
            hits_complete(
                self.patterns(),
                encode(token_ids@, self.manifest_spec().separator_id),
                r@,
            ),
            hits_ordered(r@),
    {
        let bytes = encode_tokens(token_ids, self.manifest.separator_id);
        find_overlapping(&self.automaton, bytes.as_slice())
    }

    /// Finds the phrases in `token_ids`, resolves overlaps under `policy` and
    /// returns at most `max` matches, in ascending start order.
    pub fn match_tokens(&self, token_ids: &[u32], policy: MatchPolicy, max: usize) -> (r: Vec<
        Match,
    >)
        requires
            self.wf(),
        ensures
            r@ == self.matches(token_ids@, policy, max),
            r@.len() <= max,
            non_overlapping(r@),
            spans_within(r@, token_ids@.len() as int),
            forall|k: int|
                0 <= k < r@.len() ==> {
                    let m = #[trigger] r@[k];
                    &&& m.pattern_id < self.payload_table().len()
                    &&& m.payload == self.payload_table()[m.pattern_id as int]
                    &&& m.score == self.score_table()[m.pattern_id as int]
                },
            self.consistent() ==> forall|k: int|
                0 <= k < r@.len() ==> #[trigger] r@[k].end - r@[k].start == r@[k].payload.n,
    {
        if token_ids.len() == 0 {
            return Vec::new();
        }
        let hits = self.raw_hits(token_ids);
        let mut matches: Vec<Match> = Vec::new();
        let mut i: usize = 0;
        while i < hits.len()
            invariant
                i <= hits@.len(),
                self.wf(),
                forall|k: int| 0 <= k < hits@.len() ==> #[trigger] hits@[k].start < hits@[k].end,
                hits_sound(
                    self.patterns(),
                    encode(token_ids@, self.manifest.separator_id),
                    hits@,
                ),
                matches@ == hit_matches(hits@.subrange(0, i as int), self.payloads@, self.scores@),
            decreases hits.len() - i,
        {
            let h = hits[i];
            assert(h.start < h.end);
            assert(hits@.subrange(0, i + 1).drop_last() =~= hits@.subrange(0, i as int));
            if h.value < self.payloads.len() {
                let end = h.end / 8 + if h.end % 8 == 0 {
                    0
                } else {
                    1
                };
                assert(end == (h.end + 7) / 8);
                let m = Match::new(
                    h.start / 8,
                    end,
                    h.value,
                    self.payloads[h.value],
                    self.scores[h.value],
                );
                matches.push(m);
            }
            i = i + 1;
        }
        assert(hits@.subrange(0, hits@.len() as int) =~= hits@);
        proof {
            let bytes = encode(token_ids@, self.manifest.separator_id);
            lemma_encode_layout(token_ids@, self.manifest.separator_id);
            assert forall|k: int| 0 <= k < hits@.len() implies #[trigger] hits@[k].start
                < hits@[k].end && hits@[k].end <= 8 * token_ids@.len() by {
                assert(hits@[k].end <= bytes.len());
            }
            lemma_hit_matches_within(hits@, self.payloads@, self.scores@, token_ids@.len() as int);
        }
        let ghost all = matches@;
        let mut resolved = resolve_overlaps(matches, policy);
        proof {
            lemma_resolved_non_overlapping(all, policy);
            lemma_resolved_within(all, policy, token_ids@.len() as int);
            lemma_resolved_members(all, policy);
            lemma_hit_matches_members(hits@, self.payloads@, self.scores@);
        }
        resolved.truncate(max);
        proof {
            let full = resolve(all, policy);
            assert(chained(resolved@)) by {
                assert forall|a: int, b: int| 0 <= a < b < resolved@.len() implies #[trigger] resolved@[a].end
                    <= #[trigger] resolved@[b].start by {
                    assert(resolved@[a] == full[a] && resolved@[b] == full[b]);
                }
            }
            assert forall|k: int| 0 <= k < resolved@.len() implies #[trigger] resolved@[k].start
                < resolved@[k].end && resolved@[k].end <= token_ids@.len() by {
                assert(resolved@[k] == full[k]);
            }
            assert(spans_within(resolved@, token_ids@.len() as int));
            assert forall|k: int| 0 <= k < resolved@.len() implies {
                let m = #[trigger] resolved@[k];
                &&& m.pattern_id < self.payload_table().len()
                &&& m.payload == self.payload_table()[m.pattern_id as int]
                &&& m.score == self.score_table()[m.pattern_id as int]
                &&& (self.consistent() ==> m.end - m.start == m.payload.n)
            } by {
                assert(resolved@[k] == full[k]);
                assert(all.contains(full[k]));
                self.lemma_match_from_hit(token_ids@, hits@, full[k]);
            }
            assert forall|a: int, b: int|
                0 <= a < resolved@.len() && 0 <= b < resolved@.len() && a != b implies !crate::policy::overlap(
                #[trigger] resolved@[a],
                #[trigger] resolved@[b],
            ) by {
                if a < b {
                    assert(resolved@[a].end <= resolved@[b].start);
                } else {
                    assert(resolved@[b].end <= resolved@[a].start);
                }
            }
        }
        resolved
    }

    proof fn lemma_match_from_hit(self, tokens: Seq<u32>, hits: Seq<RawHit>, x: Match)
        requires
            self.wf(),
            hits_sound(self.patterns(), encode(tokens, self.manifest.separator_id), hits),
            hit_matches(hits, self.payloads@, self.scores@).contains(x),
        ensures
            x.pattern_id < self.payloads@.len(),
            x.payload == self.payloads@[x.pattern_id as int],
            x.score == self.scores@[x.pattern_id as int],
            self.consistent() ==> x.end - x.start == x.payload.n,
    {
        lemma_hit_matches_members(hits, self.payloads@, self.scores@);
        let j = choose|j: int|
            0 <= j < hits.len() && hits[j].value < self.payloads@.len() && x == hit_match(
                #[trigger] hits[j],
                self.payloads@,
                self.scores@,
            );
        let h = hits[j];
        if self.consistent() {
            let sep = self.manifest.separator_id;
            let v = h.value as int;
            let pats = self.patterns();
            assert(v < pats.len());
            assert(encodes_tokens(pats[v], sep, self.payloads@[v].n));
            let t = choose|t: Seq<u32>|
                #[trigger] encode(t, sep) == pats[v] && tokens_valid(t, sep) && t.len()
                    == self.payloads@[v].n;
            lemma_encode_layout(t, sep);
            lemma_encode_layout(tokens, sep);
            assert(occurs_at(pats[v], encode(tokens, sep), h.start as int));
            lemma_occurrence_aligned(t, tokens, sep, h.start as int);
            assert(h.end == h.start + 8 * t.len());
            assert(h.start / 8 + t.len() == (h.end + 7) / 8);
        }
    }

    pub fn manifest(&self) -> (r: &Manifest)
        ensures
            *r == self.manifest_spec(),
    {
        &self.manifest
    }

    pub fn num_patterns(&self) -> (r: usize)
        ensures
            r == self.payload_table().len(),
    {
        self.payloads.len()
    }

    /// When the matcher was loaded, in milliseconds since the Unix epoch.
    pub fn loaded_at(&self) -> (r: u64)
        ensures
            r == self.loaded_at_spec(),
    {
        self.loaded_at_ms
    }
}

/// Answers a host's query, where the matcher may not be loaded yet and the
/// policy comes by name.
pub fn match_tokens_named(
    matcher: Option<&Matcher>,
    token_ids: &[u32],
    policy: &str,
    max: usize,
) -> (r: Result<Vec<Match>, MatcherError>)
    requires
        matcher is Some ==> matcher->Some_0.wf(),
    ensures
        matcher is None ==> r == Err::<Vec<Match>, MatcherError>(MatcherError::NotLoaded),
        matcher is Some && policy_named(policy@) is None ==> r is Err && r->Err_0 is InvalidPolicy
            && r->Err_0->InvalidPolicy_0@ == policy@,
        matcher is Some && policy_named(policy@) is Some ==> r is Ok && r->Ok_0@
            == matcher->Some_0.matches(token_ids@, policy_named(policy@)->Some_0, max),
{
    match matcher {
        None => Err(MatcherError::NotLoaded),
        Some(m) => match MatchPolicy::from_str(policy) {
            None => Err(MatcherError::InvalidPolicy(policy.to_owned())),
            Some(p) => Ok(m.match_tokens(token_ids, p, max)),
        },
    }
}

/// A query's result is fixed by the matcher, the input, the policy and the
/// cap: any two calls with the same arguments return the same matches.
pub proof fn lemma_match_tokens_deterministic(
    m: Matcher,
    tokens: Seq<u32>,
    policy: MatchPolicy,
    max: usize,
    first: Seq<Match>,
    second: Seq<Match>,
)
    requires
        first == m.matches(tokens, policy, max),
        second == m.matches(tokens, policy, max),
    ensures
        first == second,
{
}

/// A query returns at most `max` matches, and they are the first `max` of
/// what the same query returns under any greater cap.
pub proof fn lemma_truncation(
    m: Matcher,
    tokens: Seq<u32>,
    policy: MatchPolicy,
    max: usize,
    wider: usize,
)
    requires
        max <= wider,
    ensures
        m.matches(tokens, policy, max).len() <= max,
        m.matches(tokens, policy, max) == truncated(m.matches(tokens, policy, wider), max),
{
    if tokens.len() > 0 {
        let full = resolve(
            hit_matches(
                overlapping_hits(m.patterns(), encode(tokens, m.manifest_spec().separator_id)),
                m.payload_table(),
                m.score_table(),
            ),
            policy,
        );
        if full.len() > wider {
            assert(full.subrange(0, wider as int).subrange(0, max as int) =~= full.subrange(
                0,
                max as int,
            ));
        }
    }
}

} // verus!
