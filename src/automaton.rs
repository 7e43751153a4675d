use vstd::prelude::*;
use daachorse::errors::DaachorseError;
use daachorse::DoubleArrayAhoCorasick;

verus! {

#[verifier::external_type_specification]
#[verifier::external_body]
#[verifier::reject_recursive_types(V)]
pub struct ExDoubleArrayAhoCorasick<V>(DoubleArrayAhoCorasick<V>);

#[verifier::external_type_specification]
#[verifier::external_body]
pub struct ExDaachorseError(DaachorseError);

/// A raw hit of the automaton: pattern `value` occupies bytes `[start, end)`.
#[derive(Clone, Copy, Debug, PartialEq, Eq, Structural)]
pub struct RawHit {
    pub value: usize,
    pub start: usize,
    pub end: usize,
}

/// The byte patterns of an automaton, by value: pattern `i` has value `i`.
pub uninterp spec fn automaton_patterns(a: DoubleArrayAhoCorasick<u32>) -> Seq<Seq<u8>>;

/// Whether the automaton was built for the standard match kind, the one that
/// overlapping search requires.
pub uninterp spec fn searches_overlapping(a: DoubleArrayAhoCorasick<u32>) -> bool;

/// The hits that overlapping search over `haystack` reports, in the order it
/// reports them, for an automaton built from `patterns`.
pub uninterp spec fn overlapping_hits(patterns: Seq<Seq<u8>>, haystack: Seq<u8>) -> Seq<RawHit>;

/// The serialized form of the automaton built from `patterns`.
pub uninterp spec fn automaton_blob(patterns: Seq<Seq<u8>>) -> Seq<u8>;

/// `pattern` occurs in `haystack` at byte offset `s`.
pub open spec fn occurs_at(pattern: Seq<u8>, haystack: Seq<u8>, s: int) -> bool {
    0 <= s && s + pattern.len() <= haystack.len() && haystack.subrange(s, s + pattern.len())
        == pattern
}

/// Every hit is a non-empty occurrence of the pattern it names.
pub open spec fn hits_sound(patterns: Seq<Seq<u8>>, haystack: Seq<u8>, hits: Seq<RawHit>) -> bool {
    forall|k: int|
        0 <= k < hits.len() ==> {
            let h = #[trigger] hits[k];
            &&& h.value < patterns.len()
            &&& h.start < h.end
            &&& h.end == h.start + patterns[h.value as int].len()
            &&& occurs_at(patterns[h.value as int], haystack, h.start as int)
        }
}

/// Every occurrence of every pattern is among the hits.
pub open spec fn hits_complete(patterns: Seq<Seq<u8>>, haystack: Seq<u8>, hits: Seq<RawHit>) -> bool {
    forall|v: int, s: int|
        0 <= v < patterns.len() && #[trigger] occurs_at(patterns[v], haystack, s) ==> exists|k: int|
            0 <= k < hits.len() && #[trigger] hits[k] == (RawHit {
                value: v as usize,
                start: s as usize,
                end: (s + patterns[v].len()) as usize,
            })
}

/// Hits come by end ascending; hits with the same end come longest first.
/// So no two hits are equal.
pub open spec fn hits_ordered(hits: Seq<RawHit>) -> bool {
    forall|a: int, b: int|
        0 <= a < b < hits.len() ==> #[trigger] hits[a].end < #[trigger] hits[b].end || (hits[a].end
            == hits[b].end && hits[a].start < hits[b].start)
}

/// Total length in bytes of the patterns.
pub open spec fn total_len(patterns: Seq<Seq<u8>>) -> nat
    decreases patterns.len(),
{
    if patterns.len() == 0 {
        0
    } else {
        total_len(patterns.drop_last()) + patterns.last().len()
    }
}

pub open spec fn has_duplicate(patterns: Seq<Seq<u8>>) -> bool {
    exists|i: int, j: int| 0 <= i < j < patterns.len() && patterns[i] == patterns[j]
}

pub open spec fn has_empty(patterns: Seq<Seq<u8>>) -> bool {
    exists|i: int| 0 <= i < patterns.len() && #[trigger] patterns[i].len() == 0
}

/// Relies on `DoubleArrayAhoCorasick::new`: it gives pattern `i` the value `i`,
/// builds for the standard match kind, and fails on an empty list, an empty
/// pattern or a duplicate pattern, and on scale limits: more than 2^24 - 1
/// patterns, or a double array past `u32::MAX` entries. The array starts at
/// one 256-entry block and grows by one block at most once per trie state
/// with children, and there are at most one more such states than pattern
/// bytes; so at most 0xff_ff00 pattern bytes stay clear of that limit.
#[verifier::external_body]
pub(crate) fn build_automaton(patterns: &Vec<Vec<u8>>) -> (r: Result<
    DoubleArrayAhoCorasick<u32>,
    DaachorseError,
>)
    ensures
        r is Ok ==> automaton_patterns(r->Ok_0) == patterns@.map_values(|p: Vec<u8>| p@),
        r is Ok ==> searches_overlapping(r->Ok_0),
        patterns@.len() == 0 ==> r is Err,
        has_empty(patterns@.map_values(|p: Vec<u8>| p@)) ==> r is Err,
        has_duplicate(patterns@.map_values(|p: Vec<u8>| p@)) ==> r is Err,
        patterns@.len() > 0 && !has_empty(patterns@.map_values(|p: Vec<u8>| p@)) && !has_duplicate(
            patterns@.map_values(|p: Vec<u8>| p@),
        ) && patterns@.len() <= 0xff_ffff && total_len(patterns@.map_values(|p: Vec<u8>| p@))
            <= 0xff_ff00 ==> r is Ok,
{
    DoubleArrayAhoCorasick::new(patterns)
}

/// Relies on `DoubleArrayAhoCorasick::find_overlapping_iter`: it reports every
/// occurrence of every pattern, with its value and byte offsets. After each
/// haystack byte it walks the output chain of the current state, from the
/// longest pattern ending there through ever shorter suffixes, so hits come by
/// end ascending and, at one end, longest first. It panics unless the
/// automaton was built for the standard match kind.
#[verifier::external_body]
pub(crate) fn find_overlapping(a: &DoubleArrayAhoCorasick<u32>, haystack: &[u8]) -> (r: Vec<RawHit>)
    requires
        searches_overlapping(*a),
    ensures
        r@ == overlapping_hits(automaton_patterns(*a), haystack@),
        hits_sound(automaton_patterns(*a), haystack@, r@),
        hits_complete(automaton_patterns(*a), haystack@, r@),
        hits_ordered(r@),
{
    a.find_overlapping_iter(haystack).map(
        |m| RawHit { value: m.value() as usize, start: m.start(), end: m.end() },
    ).collect()
}

/// Relies on `DoubleArrayAhoCorasick::serialize`: the blob depends on the
/// automaton alone, which depends on its patterns alone.
#[verifier::external_body]
pub(crate) fn serialize_automaton(a: &DoubleArrayAhoCorasick<u32>) -> (r: Vec<u8>)
    ensures
        r@ == automaton_blob(automaton_patterns(*a)),
{
    a.serialize()
}

} // verus!
