use vstd::prelude::*;
use std::collections::HashSet;
use daachorse::DoubleArrayAhoCorasick;
use crate::automaton::{
    automaton_blob, automaton_patterns, build_automaton, has_duplicate, has_empty, hits_complete,
    hits_sound, occurs_at, searches_overlapping, serialize_automaton, total_len, RawHit,
};
use crate::encoding::{
    encode, encode_tokens, lemma_encode_append, lemma_encode_injective, lemma_encode_layout,
    lemma_occurrence_aligned, separator_unbordered,
};
use crate::manifest::Manifest;
use crate::matcher::encodes_tokens;
use crate::payload::{order_key, table_bytes, write_payloads, Payload};

verus! {

broadcast use vstd::std_specs::hash::group_hash_axioms;

/// A validated phrase record offered to the builder. The salience, an `f32`,
/// is held as its IEEE-754 bits.
#[derive(Clone, Debug)]
pub struct Phrase {
    pub tokens: Vec<u32>,
    pub phrase_id: u32,
    pub salience_bits: u32,
    pub count: u32,
}

/// What the artifacts are built with.
#[derive(Clone, Debug)]
pub struct BuildConfig {
    pub version: String,
    pub tokenizer: String,
    pub separator_id: u32,
    pub min_count: Option<u32>,
    pub salience_threshold_bits: Option<u32>,
}

/// What became of one phrase.
#[derive(Clone, Copy, Debug, PartialEq, Eq, Structural)]
pub enum Verdict {
    Accepted,
    LowCount,
    LowSalience,
    InvalidTokens,
    DuplicateId,
}

/// Aggregate counters of a build.
#[derive(Clone, Copy, Debug, PartialEq, Eq, Structural)]
pub struct BuildStats {
    pub total_input: usize,
    pub filtered_low_count: usize,
    pub filtered_low_salience: usize,
    pub duplicate_phrase_ids: usize,
    pub invalid_tokens: usize,
    pub built: usize,
}

/// Why a build failed.
#[derive(Clone, Copy, Debug, PartialEq, Eq, Structural)]
pub enum BuildError {
    /// The separator id is zero.
    ZeroSeparator,
    /// No phrase survived validation.
    NoPhrases,
    /// The automaton could not be built from the surviving phrases.
    Automaton,
}

/// The artifacts of a build: the automaton and its blob, the payloads and
/// their table, the manifest, and the counters.
pub struct Artifacts {
    pub automaton: DoubleArrayAhoCorasick<u32>,
    pub automaton_bytes: Vec<u8>,
    pub payloads: Vec<Payload>,
    pub payload_bytes: Vec<u8>,
    pub manifest: Manifest,
    pub stats: BuildStats,
}

/// The `f32` with these bits is a NaN.
pub open spec fn is_nan_bits(b: u32) -> bool {
    b & 0x7fff_ffffu32 > 0x7f80_0000u32
}

/// The `f32` with these bits is `+0.0` or `-0.0`.
pub open spec fn is_zero_bits(b: u32) -> bool {
    b & 0x7fff_ffffu32 == 0
}

/// `a < b` on the `f32` values with bits `a` and `b`, as IEEE 754 orders
/// them: false when either is a NaN or both are zeros.
pub open spec fn f32_less(a: u32, b: u32) -> bool {
    !is_nan_bits(a) && !is_nan_bits(b) && !(is_zero_bits(a) && is_zero_bits(b)) && order_key(a)
        < order_key(b)
}

/// Whether the phrase's tokens can form a pattern: one to 255 of them, none
/// equal to the separator.
pub open spec fn tokens_valid(tokens: Seq<u32>, separator: u32) -> bool {
    0 < tokens.len() <= 255 && !tokens.contains(separator)
}

/// The verdict on `p`, given whether its phrase id was already accepted. The
/// rules apply in order: count, salience, tokens, duplicate id.
pub open spec fn verdict(p: Phrase, cfg: BuildConfig, id_taken: bool) -> Verdict {
    if cfg.min_count is Some && p.count < cfg.min_count->Some_0 {
        Verdict::LowCount
    } else if cfg.salience_threshold_bits is Some && f32_less(
        p.salience_bits,
        cfg.salience_threshold_bits->Some_0,
    ) {
        Verdict::LowSalience
    } else if !tokens_valid(p.tokens@, cfg.separator_id) {
        Verdict::InvalidTokens
    } else if id_taken {
        Verdict::DuplicateId
    } else {
        Verdict::Accepted
    }
}

/// Some phrase before position `n` with an accepted verdict has this id.
pub open spec fn id_accepted_before(ps: Seq<Phrase>, vs: Seq<Verdict>, n: int, id: u32) -> bool {
    exists|k: int| 0 <= k < n && vs[k] == Verdict::Accepted && #[trigger] ps[k].phrase_id == id
}

/// The verdicts on the phrases, in input order.
pub open spec fn verdicts(ps: Seq<Phrase>, cfg: BuildConfig) -> Seq<Verdict>
    decreases ps.len(),
{
    if ps.len() == 0 {
        Seq::empty()
    } else {
        let prev = verdicts(ps.drop_last(), cfg);
        prev.push(
            verdict(ps.last(), cfg, id_accepted_before(ps, prev, ps.len() - 1, ps.last().phrase_id)),
        )
    }
}

/// Positions in `vs[0..n)` that hold `v`, in order.
pub open spec fn positions_of(vs: Seq<Verdict>, v: Verdict, n: int) -> Seq<usize>
    decreases n,
{
    if n <= 0 {
        Seq::empty()
    } else if vs[n - 1] == v {
        positions_of(vs, v, n - 1).push((n - 1) as usize)
    } else {
        positions_of(vs, v, n - 1)
    }
}

/// Positions of the accepted phrases, in input order.
pub open spec fn accepted_positions(ps: Seq<Phrase>, cfg: BuildConfig) -> Seq<usize> {
    positions_of(verdicts(ps, cfg), Verdict::Accepted, ps.len() as int)
}

/// How many phrases received verdict `v`.
pub open spec fn verdict_count(ps: Seq<Phrase>, cfg: BuildConfig, v: Verdict) -> nat {
    positions_of(verdicts(ps, cfg), v, ps.len() as int).len()
}

proof fn lemma_verdicts_len(ps: Seq<Phrase>, cfg: BuildConfig)
    ensures
        verdicts(ps, cfg).len() == ps.len(),
    decreases ps.len(),
{
    if ps.len() > 0 {
        lemma_verdicts_len(ps.drop_last(), cfg);
    }
}

proof fn lemma_verdicts_prefix(ps: Seq<Phrase>, cfg: BuildConfig, n: int)
    requires
        0 <= n <= ps.len(),
    ensures
        verdicts(ps.subrange(0, n), cfg) == verdicts(ps, cfg).subrange(0, n),
    decreases ps.len(),
{
    lemma_verdicts_len(ps, cfg);
    if n < ps.len() {
        let init = ps.drop_last();
        assert(ps.subrange(0, n) =~= init.subrange(0, n));
        lemma_verdicts_prefix(init, cfg, n);
        lemma_verdicts_len(init, cfg);
        assert(verdicts(ps, cfg).subrange(0, n) =~= verdicts(init, cfg).subrange(0, n));
    } else {
        assert(ps.subrange(0, n) =~= ps);
        assert(verdicts(ps, cfg).subrange(0, n) =~= verdicts(ps, cfg));
    }
}

proof fn lemma_positions_bounded(vs: Seq<Verdict>, v: Verdict, n: int)
    ensures
        positions_of(vs, v, n).len() <= if n < 0 { 0 } else { n },
        forall|k: int|
            0 <= k < positions_of(vs, v, n).len() ==> #[trigger] positions_of(vs, v, n)[k] < n,
        n <= vs.len() && n <= usize::MAX ==> forall|k: int|
            0 <= k < positions_of(vs, v, n).len() ==> vs[#[trigger] positions_of(vs, v, n)[k] as int]
                == v,
    decreases n,
{
    if n > 0 {
        lemma_positions_bounded(vs, v, n - 1);
        let prev = positions_of(vs, v, n - 1);
        assert forall|k: int| 0 <= k < prev.len() implies #[trigger] positions_of(vs, v, n)[k]
            == prev[k] by {}
        if n <= vs.len() && n <= usize::MAX {
            assert forall|k: int| 0 <= k < positions_of(vs, v, n).len() implies vs[
                #[trigger] positions_of(vs, v, n)[k] as int] == v by {
                if k < prev.len() {
                    assert(vs[prev[k] as int] == v);
                }
            }
        }
    }
}

/// Whether `a < b` for the `f32` values with these bits.
fn f32_bits_less(a: u32, b: u32) -> (r: bool)
    ensures
        r == f32_less(a, b),
{
    let a_abs = a & 0x7fff_ffffu32;
    let b_abs = b & 0x7fff_ffffu32;
    if a_abs > 0x7f80_0000u32 || b_abs > 0x7f80_0000u32 {
        return false;
    }
    if a_abs == 0 && b_abs == 0 {
        return false;
    }
    let ka = if a >= 0x8000_0000u32 {
        0xffff_ffffu32 - a
    } else {
        a + 0x8000_0000u32
    };
    let kb = if b >= 0x8000_0000u32 {
        0xffff_ffffu32 - b
    } else {
        b + 0x8000_0000u32
    };
    ka < kb
}

fn contains_token(tokens: &Vec<u32>, t: u32) -> (r: bool)
    ensures
        r == tokens@.contains(t),
{
    let mut i: usize = 0;
    while i < tokens.len()
        invariant
            i <= tokens@.len(),
            forall|k: int| 0 <= k < i ==> tokens@[k] != t,
        decreases tokens.len() - i,
    {
        if tokens[i] == t {
            return true;
        }
        i = i + 1;
    }
    false
}

/// Validates the phrases in input order and counts what each rule filtered.
/// Returns the positions of the accepted phrases.
pub fn select_phrases(phrases: &Vec<Phrase>, config: &BuildConfig) -> (r: (Vec<usize>, BuildStats))
    ensures
        r.0@ == accepted_positions(phrases@, *config),
        r.1.total_input == phrases@.len(),
        r.1.built == verdict_count(phrases@, *config, Verdict::Accepted),
        r.1.filtered_low_count == verdict_count(phrases@, *config, Verdict::LowCount),
        r.1.filtered_low_salience == verdict_count(phrases@, *config, Verdict::LowSalience),
        r.1.invalid_tokens == verdict_count(phrases@, *config, Verdict::InvalidTokens),
        r.1.duplicate_phrase_ids == verdict_count(phrases@, *config, Verdict::DuplicateId),
{
    let ghost ps = phrases@;
    let ghost cfg = *config;
    let mut seen: HashSet<u32> = HashSet::new();
    let mut selected: Vec<usize> = Vec::new();
    let mut stats = BuildStats {
        total_input: 0,
        filtered_low_count: 0,
        filtered_low_salience: 0,
        duplicate_phrase_ids: 0,
        invalid_tokens: 0,
        built: 0,
    };
    let ghost mut vs: Seq<Verdict> = Seq::empty();
    let mut i: usize = 0;
    while i < phrases.len()
        invariant
            ps == phrases@,
            cfg == *config,
            i <= ps.len(),
            vs == verdicts(ps.subrange(0, i as int), cfg),
            vs.len() == i,
            forall|id: u32| #[trigger]
                seen@.contains(id) <==> id_accepted_before(ps, vs, i as int, id),
            selected@ == positions_of(vs, Verdict::Accepted, i as int),
            stats.total_input == i,
            stats.built == positions_of(vs, Verdict::Accepted, i as int).len(),
            stats.filtered_low_count == positions_of(vs, Verdict::LowCount, i as int).len(),
            stats.filtered_low_salience == positions_of(vs, Verdict::LowSalience, i as int).len(),
            stats.invalid_tokens == positions_of(vs, Verdict::InvalidTokens, i as int).len(),
            stats.duplicate_phrase_ids == positions_of(vs, Verdict::DuplicateId, i as int).len(),
        decreases phrases.len() - i,
    {
        let p = &phrases[i];
        proof {
            lemma_positions_bounded(vs, Verdict::Accepted, i as int);
            lemma_positions_bounded(vs, Verdict::LowCount, i as int);
            lemma_positions_bounded(vs, Verdict::LowSalience, i as int);
            lemma_positions_bounded(vs, Verdict::InvalidTokens, i as int);
            lemma_positions_bounded(vs, Verdict::DuplicateId, i as int);
        }
        let ghost taken = id_accepted_before(ps, vs, i as int, p.phrase_id);
        let low_count = match config.min_count {
            Some(min) => p.count < min,
            None => false,
        };
        let low_salience = match config.salience_threshold_bits {
            Some(threshold) => f32_bits_less(p.salience_bits, threshold),
            None => false,
        };
        let v = if low_count {
            Verdict::LowCount
        } else if low_salience {
            Verdict::LowSalience
        } else if p.tokens.len() == 0 || p.tokens.len() > 255 || contains_token(
            &p.tokens,
            config.separator_id,
        ) {
            Verdict::InvalidTokens
        } else if !seen.insert(p.phrase_id) {
            Verdict::DuplicateId
        } else {
            Verdict::Accepted
        };
        assert(v == verdict(ps[i as int], cfg, taken));
        let ghost nvs = vs.push(v);
        proof {
            assert(ps.subrange(0, i + 1).drop_last() =~= ps.subrange(0, i as int));
            assert(id_accepted_before(ps.subrange(0, i + 1), vs, i as int, p.phrase_id) == taken)
                by {
                if taken {
                    let k = choose|k: int|
                        0 <= k < i && vs[k] == Verdict::Accepted && #[trigger] ps[k].phrase_id
                            == p.phrase_id;
                    assert(ps.subrange(0, i + 1)[k].phrase_id == p.phrase_id);
                }
                if id_accepted_before(ps.subrange(0, i + 1), vs, i as int, p.phrase_id) {
                    let k = choose|k: int|
                        0 <= k < i && vs[k] == Verdict::Accepted && #[trigger] ps.subrange(
                            0,
                            i + 1,
                        )[k].phrase_id == p.phrase_id;
                    assert(ps[k].phrase_id == p.phrase_id);
                }
            }
            assert(nvs == verdicts(ps.subrange(0, i + 1), cfg));
            assert forall|n: int, w: Verdict| 0 <= n <= i implies positions_of(nvs, w, n)
                == #[trigger] positions_of(vs, w, n) by {
                lemma_positions_prefix(vs, nvs, w, n);
            }
            assert forall|id: u32| #[trigger]
                id_accepted_before(ps, nvs, i + 1, id) <==> (id_accepted_before(ps, vs, i as int, id)
                    || (v == Verdict::Accepted && id == p.phrase_id)) by {
                if id_accepted_before(ps, nvs, i + 1, id) {
                    let k = choose|k: int|
                        0 <= k < i + 1 && nvs[k] == Verdict::Accepted && #[trigger] ps[k].phrase_id
                            == id;
                    if k < i {
                        assert(vs[k] == nvs[k]);
                    }
                }
                if id_accepted_before(ps, vs, i as int, id) {
                    let k = choose|k: int|
                        0 <= k < i && vs[k] == Verdict::Accepted && #[trigger] ps[k].phrase_id == id;
                    assert(nvs[k] == vs[k]);
                }
                if v == Verdict::Accepted && id == p.phrase_id {
                    assert(nvs[i as int] == Verdict::Accepted);
                }
            }
        }
        match v {
            Verdict::Accepted => {
                selected.push(i);
                stats.built = stats.built + 1;
            },
            Verdict::LowCount => {
                stats.filtered_low_count = stats.filtered_low_count + 1;
            },
            Verdict::LowSalience => {
                stats.filtered_low_salience = stats.filtered_low_salience + 1;
            },
            Verdict::InvalidTokens => {
                stats.invalid_tokens = stats.invalid_tokens + 1;
            },
            Verdict::DuplicateId => {
                stats.duplicate_phrase_ids = stats.duplicate_phrase_ids + 1;
            },
        }
        stats.total_input = stats.total_input + 1;
        proof {
            vs = nvs;
        }
        i = i + 1;
    }
    proof {
        assert(ps.subrange(0, ps.len() as int) =~= ps);
    }
    (selected, stats)
}

proof fn lemma_positions_prefix(vs: Seq<Verdict>, nvs: Seq<Verdict>, w: Verdict, n: int)
    requires
        0 <= n <= vs.len(),
        vs.len() <= nvs.len(),
        forall|k: int| 0 <= k < vs.len() ==> nvs[k] == vs[k],
    ensures
        positions_of(nvs, w, n) == positions_of(vs, w, n),
    decreases n,
{
    if n > 0 {
        lemma_positions_prefix(vs, nvs, w, n - 1);
    }
}

/// The payload of an accepted phrase.
pub open spec fn phrase_payload(p: Phrase) -> Payload {
    Payload {
        phrase_id: p.phrase_id,
        salience_bits: p.salience_bits,
        count: p.count,
        n: p.tokens@.len() as u8,
    }
}

/// The byte patterns of the accepted phrases, in input order.
pub open spec fn built_patterns(ps: Seq<Phrase>, cfg: BuildConfig) -> Seq<Seq<u8>> {
    accepted_positions(ps, cfg).map_values(|i: usize| encode(ps[i as int].tokens@, cfg.separator_id))
}

/// The payloads of the accepted phrases, in input order.
pub open spec fn built_payloads(ps: Seq<Phrase>, cfg: BuildConfig) -> Seq<Payload> {
    accepted_positions(ps, cfg).map_values(|i: usize| phrase_payload(ps[i as int]))
}

/// Every accepted phrase has valid tokens.
pub proof fn lemma_accepted_valid(ps: Seq<Phrase>, cfg: BuildConfig)
    requires
        ps.len() <= usize::MAX,
    ensures
        forall|k: int|
            0 <= k < accepted_positions(ps, cfg).len() ==> {
                let i = #[trigger] accepted_positions(ps, cfg)[k] as int;
                &&& 0 <= i < ps.len()
                &&& tokens_valid(ps[i].tokens@, cfg.separator_id)
            },
{
    let vs = verdicts(ps, cfg);
    lemma_verdicts_len(ps, cfg);
    lemma_positions_bounded(vs, Verdict::Accepted, ps.len() as int);
    assert forall|k: int| 0 <= k < accepted_positions(ps, cfg).len() implies {
        let i = #[trigger] accepted_positions(ps, cfg)[k] as int;
        &&& 0 <= i < ps.len()
        &&& tokens_valid(ps[i].tokens@, cfg.separator_id)
    } by {
        let i = accepted_positions(ps, cfg)[k] as int;
        let pre = ps.subrange(0, i + 1);
        lemma_verdicts_prefix(ps, cfg, i + 1);
        assert(pre.drop_last() =~= ps.subrange(0, i));
        lemma_verdicts_len(pre.drop_last(), cfg);
        assert(verdicts(pre, cfg)[i] == vs[i]);
        assert(pre.last() == ps[i]);
        assert(vs[i] == Verdict::Accepted);
        let prev = verdicts(pre.drop_last(), cfg);
        assert(verdicts(pre, cfg)[i] == verdict(
            ps[i],
            cfg,
            id_accepted_before(pre, prev, i, ps[i].phrase_id),
        ));
    }
}

/// Builds the artifacts from the phrases: validates them, encodes the
/// survivors, builds and serializes the automaton, writes the payload table
/// in the same order, and describes it all in a manifest.
pub fn build_artifacts(phrases: &Vec<Phrase>, config: &BuildConfig, built_at: String) -> (r:
    Result<Artifacts, BuildError>)
    ensures
        config.separator_id == 0 ==> r == Err::<Artifacts, BuildError>(BuildError::ZeroSeparator),
        config.separator_id != 0 && accepted_positions(phrases@, *config).len() == 0 ==> r == Err::<
            Artifacts,
            BuildError,
        >(BuildError::NoPhrases),
        config.separator_id != 0 && has_duplicate(built_patterns(phrases@, *config)) ==> r is Err,
        r == Err::<Artifacts, BuildError>(BuildError::ZeroSeparator) ==> config.separator_id == 0,
        r == Err::<Artifacts, BuildError>(BuildError::NoPhrases) ==> config.separator_id != 0
            && accepted_positions(phrases@, *config).len() == 0,
        r == Err::<Artifacts, BuildError>(BuildError::Automaton) ==> config.separator_id != 0
            && accepted_positions(phrases@, *config).len() > 0,
        config.separator_id != 0 && accepted_positions(phrases@, *config).len() > 0 && !has_duplicate(
            built_patterns(phrases@, *config),
        ) && built_patterns(phrases@, *config).len() <= 0xff_ffff && total_len(
            built_patterns(phrases@, *config),
        ) <= 0xff_ff00 ==> r is Ok,
        r is Ok ==> {
            let a = r->Ok_0;
            let pats = built_patterns(phrases@, *config);
            &&& automaton_patterns(a.automaton) == pats
            &&& searches_overlapping(a.automaton)
            &&& a.automaton_bytes@ == automaton_blob(pats)
            &&& a.payloads@ == built_payloads(phrases@, *config)
            &&& a.payload_bytes@ == table_bytes(a.payloads@)
            &&& a.manifest.version == config.version
            &&& a.manifest.tokenizer == config.tokenizer
            &&& a.manifest.num_patterns == pats.len()
            &&& a.manifest.min_count == config.min_count
            &&& a.manifest.salience_threshold_bits == config.salience_threshold_bits
            &&& a.manifest.built_at == built_at
            &&& a.manifest.separator_id == config.separator_id
            &&& a.stats.total_input == phrases@.len()
            &&& a.stats.built == pats.len()
            &&& a.stats.filtered_low_count == verdict_count(phrases@, *config, Verdict::LowCount)
            &&& a.stats.filtered_low_salience == verdict_count(
                phrases@,
                *config,
                Verdict::LowSalience,
            )
            &&& a.stats.invalid_tokens == verdict_count(phrases@, *config, Verdict::InvalidTokens)
            &&& a.stats.duplicate_phrase_ids == verdict_count(
                phrases@,
                *config,
                Verdict::DuplicateId,
            )
        },
{
    if config.separator_id == 0 {
        return Err(BuildError::ZeroSeparator);
    }
    let (selected, stats) = select_phrases(phrases, config);
    if selected.len() == 0 {
        return Err(BuildError::NoPhrases);
    }
    let ghost ps = phrases@;
    let ghost cfg = *config;
    proof {
        lemma_accepted_valid(ps, cfg);
    }
    let mut patterns: Vec<Vec<u8>> = Vec::new();
    let mut payloads: Vec<Payload> = Vec::new();
    let mut j: usize = 0;
    while j < selected.len()
        invariant
            ps == phrases@,
            cfg == *config,
            selected@ == accepted_positions(ps, cfg),
            j <= selected@.len(),
            forall|k: int|
                0 <= k < selected@.len() ==> 0 <= #[trigger] selected@[k] < ps.len(),
            patterns@.map_values(|p: Vec<u8>| p@) == built_patterns(ps, cfg).subrange(0, j as int),
            payloads@ == built_payloads(ps, cfg).subrange(0, j as int),
        decreases selected.len() - j,
    {
        let idx = selected[j];
        assert(0 <= idx < ps.len());
        let p = &phrases[idx];
        let bytes = encode_tokens(p.tokens.as_slice(), config.separator_id);
        let payload = Payload::new(p.phrase_id, p.salience_bits, p.count, p.tokens.len() as u8);
        let ghost old_patterns = patterns@;
        patterns.push(bytes);
        payloads.push(payload);
        assert(patterns@.map_values(|p: Vec<u8>| p@) =~= old_patterns.map_values(|p: Vec<u8>| p@).push(
            bytes@,
        ));
        assert(patterns@.map_values(|p: Vec<u8>| p@) =~= built_patterns(ps, cfg).subrange(
            0,
            j + 1,
        ));
        assert(payloads@ =~= built_payloads(ps, cfg).subrange(0, j + 1));
        j = j + 1;
    }
    assert(built_patterns(ps, cfg).subrange(0, j as int) =~= built_patterns(ps, cfg));
    assert(built_payloads(ps, cfg).subrange(0, j as int) =~= built_payloads(ps, cfg));
    proof {
        let pats = built_patterns(ps, cfg);
        assert forall|k: int| 0 <= k < pats.len() implies #[trigger] pats[k].len() != 0 by {
            let i = accepted_positions(ps, cfg)[k] as int;
            lemma_encode_layout(ps[i].tokens@, cfg.separator_id);
        }
        assert(!has_empty(pats));
    }
    let automaton = match build_automaton(&patterns) {
        Ok(a) => a,
        Err(_) => {
            return Err(BuildError::Automaton);
        },
    };
    let automaton_bytes = serialize_automaton(&automaton);
    let payload_bytes = write_payloads(payloads.as_slice());
    let manifest = Manifest {
        version: config.version.clone(),
        tokenizer: config.tokenizer.clone(),
        num_patterns: selected.len(),
        min_count: config.min_count,
        salience_threshold_bits: config.salience_threshold_bits,
        built_at,
        separator_id: config.separator_id,
    };
    Ok(Artifacts { automaton, automaton_bytes, payloads, payload_bytes, manifest, stats })
}

/// The token sequences of the accepted phrases, in input order.
pub open spec fn built_token_seqs(ps: Seq<Phrase>, cfg: BuildConfig) -> Seq<Seq<u32>> {
    accepted_positions(ps, cfg).map_values(|i: usize| ps[i as int].tokens@)
}

/// The token sequences laid end to end.
pub open spec fn concat_tokens(ts: Seq<Seq<u32>>) -> Seq<u32>
    decreases ts.len(),
{
    if ts.len() == 0 {
        Seq::empty()
    } else {
        concat_tokens(ts.drop_last()) + ts.last()
    }
}

proof fn lemma_concat_append(x: Seq<Seq<u32>>, y: Seq<Seq<u32>>)
    ensures
        concat_tokens(x + y) == concat_tokens(x) + concat_tokens(y),
    decreases y.len(),
{
    if y.len() == 0 {
        assert(x + y =~= x);
        assert(concat_tokens(x) + concat_tokens(y) =~= concat_tokens(x));
    } else {
        lemma_concat_append(x, y.drop_last());
        assert((x + y).drop_last() =~= x + y.drop_last());
        assert(concat_tokens(x + y) =~= concat_tokens(x) + concat_tokens(y));
    }
}

/// Every raw hit of an automaton built from phrases, on an encoded input,
/// starts and ends on a token boundary and spans as many tokens as its
/// payload's `n`, provided the separator's bytes cannot overlap themselves.
pub proof fn lemma_hits_aligned(ps: Seq<Phrase>, cfg: BuildConfig, text: Seq<u32>, hits: Seq<RawHit>)
    requires
        ps.len() <= usize::MAX,
        separator_unbordered(cfg.separator_id),
        hits_sound(built_patterns(ps, cfg), encode(text, cfg.separator_id), hits),
    ensures
        forall|k: int|
            0 <= k < hits.len() ==> {
                let h = #[trigger] hits[k];
                &&& h.start % 8 == 0
                &&& h.end % 8 == 0
                &&& (h.end - h.start) / 8 == built_payloads(ps, cfg)[h.value as int].n
            },
{
    let sep = cfg.separator_id;
    lemma_accepted_valid(ps, cfg);
    lemma_encode_layout(text, sep);
    assert forall|k: int| 0 <= k < hits.len() implies {
        let h = #[trigger] hits[k];
        &&& h.start % 8 == 0
        &&& h.end % 8 == 0
        &&& (h.end - h.start) / 8 == built_payloads(ps, cfg)[h.value as int].n
    } by {
        let h = hits[k];
        let v = h.value as int;
        let i = accepted_positions(ps, cfg)[v] as int;
        let toks = ps[i].tokens@;
        lemma_encode_layout(toks, sep);
        assert(built_patterns(ps, cfg)[v] == encode(toks, sep));
        assert(tokens_valid(toks, sep));
        lemma_occurrence_aligned(toks, text, sep, h.start as int);
        assert(h.end - h.start == 8 * toks.len());
        assert(built_payloads(ps, cfg)[v] == phrase_payload(ps[i]));
    }
}

/// The raw hits of an automaton built from phrases, on the phrases' tokens
/// laid end to end, include every phrase at the token offsets where it was
/// laid.
pub proof fn lemma_hits_include_phrases(ps: Seq<Phrase>, cfg: BuildConfig, hits: Seq<RawHit>)
    requires
        hits_complete(
            built_patterns(ps, cfg),
            encode(concat_tokens(built_token_seqs(ps, cfg)), cfg.separator_id),
            hits,
        ),
    ensures
        forall|j: int|
            #![trigger built_token_seqs(ps, cfg)[j]]
            0 <= j < built_token_seqs(ps, cfg).len() ==> exists|k: int|
                0 <= k < hits.len() && #[trigger] hits[k] == (RawHit {
                    value: j as usize,
                    start: (8 * concat_tokens(built_token_seqs(ps, cfg).subrange(0, j)).len()) as usize,
                    end: (8 * concat_tokens(built_token_seqs(ps, cfg).subrange(0, j)).len() + 8
                        * built_token_seqs(ps, cfg)[j].len()) as usize,
                }),
{
    let sep = cfg.separator_id;
    let ts = built_token_seqs(ps, cfg);
    let pats = built_patterns(ps, cfg);
    let all = concat_tokens(ts);
    let hay = encode(all, sep);
    assert forall|j: int| #![trigger ts[j]] 0 <= j < ts.len() implies exists|k: int|
        0 <= k < hits.len() && #[trigger] hits[k] == (RawHit {
            value: j as usize,
            start: (8 * concat_tokens(ts.subrange(0, j)).len()) as usize,
            end: (8 * concat_tokens(ts.subrange(0, j)).len() + 8 * ts[j].len()) as usize,
        }) by {
        let before = ts.subrange(0, j);
        let after = ts.subrange(j + 1, ts.len() as int);
        let pre = concat_tokens(before);
        let post = concat_tokens(after);
        assert(ts =~= before.push(ts[j]) + after);
        lemma_concat_append(before.push(ts[j]), after);
        assert(before.push(ts[j]).drop_last() =~= before);
        assert(all == pre + ts[j] + post);
        lemma_encode_append(pre + ts[j], post, sep);
        lemma_encode_append(pre, ts[j], sep);
        lemma_encode_layout(pre, sep);
        lemma_encode_layout(ts[j], sep);
        let s: int = 8 * pre.len() as int;
        let p = encode(ts[j], sep);
        assert(hay == encode(pre, sep) + p + encode(post, sep));
        assert(hay.subrange(s, s + p.len()) =~= p);
        assert(pats[j] == p);
        assert(occurs_at(pats[j], hay, s));
    }
}

/// The phrases pass every rule: valid tokens, thresholds met where set, and
/// pairwise distinct phrase ids.
pub open spec fn all_pass(ps: Seq<Phrase>, cfg: BuildConfig) -> bool {
    &&& forall|i: int| 0 <= i < ps.len() ==> tokens_valid(#[trigger] ps[i].tokens@, cfg.separator_id)
    &&& forall|i: int|
        0 <= i < ps.len() ==> (cfg.min_count is Some ==> #[trigger] ps[i].count >= cfg.min_count->Some_0)
    &&& forall|i: int|
        0 <= i < ps.len() ==> (cfg.salience_threshold_bits is Some ==> !f32_less(
            #[trigger] ps[i].salience_bits,
            cfg.salience_threshold_bits->Some_0,
        ))
    &&& forall|i: int, j: int|
        0 <= i < j < ps.len() ==> #[trigger] ps[i].phrase_id != #[trigger] ps[j].phrase_id
}

proof fn lemma_all_pass_prefix(ps: Seq<Phrase>, cfg: BuildConfig)
    requires
        ps.len() > 0,
        all_pass(ps, cfg),
    ensures
        all_pass(ps.drop_last(), cfg),
{
    let init = ps.drop_last();
    assert forall|i: int, j: int| 0 <= i < j < init.len() implies #[trigger] init[i].phrase_id
        != #[trigger] init[j].phrase_id by {
        assert(init[i] == ps[i] && init[j] == ps[j]);
    }
    assert forall|i: int| 0 <= i < init.len() implies tokens_valid(
        #[trigger] init[i].tokens@,
        cfg.separator_id,
    ) by {
        assert(init[i] == ps[i]);
    }
    assert forall|i: int| 0 <= i < init.len() implies (cfg.min_count is Some ==> #[trigger] init[i].count
        >= cfg.min_count->Some_0) by {
        assert(init[i] == ps[i]);
    }
    assert forall|i: int| 0 <= i < init.len() implies (cfg.salience_threshold_bits is Some ==> !f32_less(
        #[trigger] init[i].salience_bits,
        cfg.salience_threshold_bits->Some_0,
    )) by {
        assert(init[i] == ps[i]);
    }
}

proof fn lemma_all_pass_verdicts(ps: Seq<Phrase>, cfg: BuildConfig)
    requires
        all_pass(ps, cfg),
    ensures
        verdicts(ps, cfg).len() == ps.len(),
        forall|k: int| 0 <= k < ps.len() ==> #[trigger] verdicts(ps, cfg)[k] == Verdict::Accepted,
    decreases ps.len(),
{
    if ps.len() > 0 {
        let init = ps.drop_last();
        lemma_all_pass_prefix(ps, cfg);
        lemma_all_pass_verdicts(init, cfg);
        let prev = verdicts(init, cfg);
        let n = ps.len() - 1;
        let last = ps.last();
        assert(ps[n] == last);
        if id_accepted_before(ps, prev, n, last.phrase_id) {
            let k = choose|k: int|
                0 <= k < n && prev[k] == Verdict::Accepted && #[trigger] ps[k].phrase_id
                    == last.phrase_id;
            assert(ps[k].phrase_id != ps[n].phrase_id);
        }
        assert(verdict(last, cfg, false) == Verdict::Accepted);
        assert forall|k: int| 0 <= k < ps.len() implies #[trigger] verdicts(ps, cfg)[k]
            == Verdict::Accepted by {
            if k < n {
                assert(verdicts(ps, cfg)[k] == prev[k]);
            }
        }
    }
}

proof fn lemma_positions_all(vs: Seq<Verdict>, v: Verdict, n: int)
    requires
        0 <= n <= vs.len(),
        n <= usize::MAX + 1,
        forall|k: int| 0 <= k < n ==> #[trigger] vs[k] == v,
    ensures
        positions_of(vs, v, n) == Seq::new(n as nat, |i: int| i as usize),
    decreases n,
{
    if n > 0 {
        lemma_positions_all(vs, v, n - 1);
        assert(positions_of(vs, v, n) =~= Seq::new(n as nat, |i: int| i as usize));
    } else {
        assert(positions_of(vs, v, n) =~= Seq::new(n as nat, |i: int| i as usize));
    }
}

/// When every phrase passes the rules, every phrase is accepted, in input
/// order, and distinct token sequences make distinct patterns.
pub proof fn lemma_every_phrase_accepted(ps: Seq<Phrase>, cfg: BuildConfig)
    requires
        ps.len() <= usize::MAX,
        all_pass(ps, cfg),
    ensures
        accepted_positions(ps, cfg) == Seq::new(ps.len(), |i: int| i as usize),
        built_token_seqs(ps, cfg) == ps.map_values(|p: Phrase| p.tokens@),
        (forall|i: int, j: int|
            0 <= i < j < ps.len() ==> #[trigger] ps[i].tokens@ != #[trigger] ps[j].tokens@)
            ==> !has_duplicate(built_patterns(ps, cfg)),
{
    lemma_all_pass_verdicts(ps, cfg);
    lemma_positions_all(verdicts(ps, cfg), Verdict::Accepted, ps.len() as int);
    let acc = accepted_positions(ps, cfg);
    assert(built_token_seqs(ps, cfg) =~= ps.map_values(|p: Phrase| p.tokens@));
    if forall|i: int, j: int|
        0 <= i < j < ps.len() ==> #[trigger] ps[i].tokens@ != #[trigger] ps[j].tokens@ {
        let pats = built_patterns(ps, cfg);
        if has_duplicate(pats) {
            let (i, j) = choose|i: int, j: int| 0 <= i < j < pats.len() && pats[i] == pats[j];
            assert(acc[i] as int == i && acc[j] as int == j);
            lemma_encode_injective(ps[i].tokens@, ps[j].tokens@, cfg.separator_id);
        }
    }
}

/// The raw hits of an automaton built from phrases that all pass the rules,
/// on all their tokens laid end to end, include every phrase at the token
/// offset where it was laid.
pub proof fn lemma_hits_include_every_phrase(ps: Seq<Phrase>, cfg: BuildConfig, hits: Seq<RawHit>)
    requires
        ps.len() <= usize::MAX,
        all_pass(ps, cfg),
        hits_complete(
            built_patterns(ps, cfg),
            encode(concat_tokens(ps.map_values(|p: Phrase| p.tokens@)), cfg.separator_id),
            hits,
        ),
    ensures
        forall|j: int|
            0 <= j < ps.len() ==> exists|k: int|
                0 <= k < hits.len() && #[trigger] hits[k] == (RawHit {
                    value: j as usize,
                    start: (8 * concat_tokens(
                        ps.map_values(|p: Phrase| p.tokens@).subrange(0, j),
                    ).len()) as usize,
                    end: (8 * concat_tokens(
                        ps.map_values(|p: Phrase| p.tokens@).subrange(0, j),
                    ).len() + 8 * (#[trigger] ps[j]).tokens@.len()) as usize,
                }),
{
    lemma_every_phrase_accepted(ps, cfg);
    lemma_hits_include_phrases(ps, cfg, hits);
    let ts = built_token_seqs(ps, cfg);
    assert forall|j: int| 0 <= j < ps.len() implies exists|k: int|
        0 <= k < hits.len() && #[trigger] hits[k] == (RawHit {
            value: j as usize,
            start: (8 * concat_tokens(ps.map_values(|p: Phrase| p.tokens@).subrange(0, j)).len()) as usize,
            end: (8 * concat_tokens(ps.map_values(|p: Phrase| p.tokens@).subrange(0, j)).len() + 8 * (
            #[trigger] ps[j]).tokens@.len()) as usize,
        }) by {
        assert(ts[j] == ps[j].tokens@);
    }
}

/// A build's artifacts agree: pattern `i` encodes `n` valid tokens, where
/// `n` is payload `i`'s length. A matcher assembled from them is therefore
/// `consistent` whenever the separator's bytes cannot overlap themselves.
pub proof fn lemma_built_consistent(ps: Seq<Phrase>, cfg: BuildConfig)
    requires
        ps.len() <= usize::MAX,
    ensures
        built_patterns(ps, cfg).len() == built_payloads(ps, cfg).len(),
        forall|i: int|
            0 <= i < built_payloads(ps, cfg).len() ==> encodes_tokens(
                #[trigger] built_patterns(ps, cfg)[i],
                cfg.separator_id,
                built_payloads(ps, cfg)[i].n,
            ),
{
    lemma_accepted_valid(ps, cfg);
    assert forall|i: int| 0 <= i < built_payloads(ps, cfg).len() implies encodes_tokens(
        #[trigger] built_patterns(ps, cfg)[i],
        cfg.separator_id,
        built_payloads(ps, cfg)[i].n,
    ) by {
        let k = accepted_positions(ps, cfg)[i] as int;
        let t = ps[k].tokens@;
        assert(tokens_valid(t, cfg.separator_id));
        assert(built_payloads(ps, cfg)[i].n == t.len() as u8);
        assert(encode(t, cfg.separator_id) == built_patterns(ps, cfg)[i]);
    }
}

} // verus!
