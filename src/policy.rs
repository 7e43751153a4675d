use vstd::prelude::*;
use crate::payload::Payload;

verus! {

/// How overlapping raw matches are resolved.
#[derive(Clone, Copy, Debug, PartialEq, Eq, Structural)]
pub enum MatchPolicy {
    LeftmostLongest,
    LeftmostFirst,
    SalienceMax,
}

/// The policy that a policy name denotes, if any.
pub open spec fn policy_named(name: Seq<char>) -> Option<MatchPolicy> {
    if name == "leftmost_longest"@ {
        Some(MatchPolicy::LeftmostLongest)
    } else if name == "leftmost_first"@ {
        Some(MatchPolicy::LeftmostFirst)
    } else if name == "salience_max"@ {
        Some(MatchPolicy::SalienceMax)
    } else {
        None
    }
}

impl MatchPolicy {
    /// Parses a policy name; any name but the three policies' gives `None`.
    pub fn from_str(s: &str) -> (r: Option<MatchPolicy>)
        ensures
            r == policy_named(s@),
    {
        let name = s.to_owned();
        if name == "leftmost_longest".to_owned() {
            Some(MatchPolicy::LeftmostLongest)
        } else if name == "leftmost_first".to_owned() {
            Some(MatchPolicy::LeftmostFirst)
        } else if name == "salience_max".to_owned() {
            Some(MatchPolicy::SalienceMax)
        } else {
            None
        }
    }
}

/// An occurrence of a pattern at token offsets `[start, end)`, with the
/// pattern's payload and the order key of its derived salience score
/// (`salience · ln(count + 1)`; see `score_order_key`).
#[derive(Clone, Copy, Debug, PartialEq, Eq, Structural)]
pub struct Match {
    pub start: usize,
    pub end: usize,
    pub pattern_id: usize,
    pub payload: Payload,
    pub score: u32,
}

/// Half-open intervals `[a.start, a.end)` and `[b.start, b.end)` intersect.
pub open spec fn overlap(a: Match, b: Match) -> bool {
    a.start < b.end && b.start < a.end
}

impl Match {
    pub fn new(start: usize, end: usize, pattern_id: usize, payload: Payload, score: u32) -> (m:
        Match)
        ensures
            m == (Match { start, end, pattern_id, payload, score }),
    {
        Match { start, end, pattern_id, payload, score }
    }

    /// Length in tokens.
    pub fn len(&self) -> (r: usize)
        requires
            self.start <= self.end,
        ensures
            r == self.end - self.start,
    {
        self.end - self.start
    }

    pub fn overlaps(&self, other: &Match) -> (r: bool)
        ensures
            r == overlap(*self, *other),
    {
        !(self.end <= other.start || other.end <= self.start)
    }
}

// ---------------------------------------------------------------------------
// Stable sort by start.
/// `s` with `m` inserted after every element whose start is at most `m.start`.
pub open spec fn insert_by_start(s: Seq<Match>, m: Match) -> Seq<Match>
    decreases s.len(),
{
    if s.len() == 0 {
        seq![m]
    } else if s.last().start <= m.start {
        s.push(m)
    } else {
        insert_by_start(s.drop_last(), m).push(s.last())
    }
}

/// The stable sort of `s` by start: equal starts keep their order.
pub open spec fn sort_by_start(s: Seq<Match>) -> Seq<Match>
    decreases s.len(),
{
    if s.len() == 0 {
        s
    } else {
        insert_by_start(sort_by_start(s.drop_last()), s.last())
    }
}

pub open spec fn sorted_by_start(s: Seq<Match>) -> bool {
    forall|a: int, b: int| 0 <= a < b < s.len() ==> s[a].start <= s[b].start
}

proof fn lemma_insert_sorted(s: Seq<Match>, m: Match)
    requires
        sorted_by_start(s),
    ensures
        sorted_by_start(insert_by_start(s, m)),
        insert_by_start(s, m).len() == s.len() + 1,
        forall|x: Match| #[trigger]
            insert_by_start(s, m).contains(x) ==> x == m || s.contains(x),
    decreases s.len(),
{
    if s.len() > 0 && s.last().start > m.start {
        let init = s.drop_last();
        lemma_insert_sorted(init, m);
        let r = insert_by_start(init, m);
        assert forall|x: Match| #[trigger] r.contains(x) implies x.start <= s.last().start by {
            if x == m {
            } else {
                let k = choose|k: int| 0 <= k < init.len() && init[k] == x;
                assert(s[k] == x);
            }
        }
        assert forall|x: Match| #[trigger]
            insert_by_start(s, m).contains(x) implies x == m || s.contains(x) by {
            let t = insert_by_start(s, m);
            let k = choose|k: int| 0 <= k < t.len() && t[k] == x;
            if k < r.len() {
                assert(r.contains(x));
                if x != m {
                    let k2 = choose|k2: int| 0 <= k2 < init.len() && init[k2] == x;
                    assert(s[k2] == x);
                }
            } else {
                assert(s[s.len() - 1] == x);
            }
        }
        assert forall|a: int, b: int|
            0 <= a < b < insert_by_start(s, m).len() implies #[trigger] insert_by_start(s, m)[a].start
            <= #[trigger] insert_by_start(s, m)[b].start by {
            if b == r.len() {
                assert(r.contains(r[a]));
            }
        }
    } else if s.len() > 0 {
        assert forall|x: Match| #[trigger]
            insert_by_start(s, m).contains(x) implies x == m || s.contains(x) by {
            let t = insert_by_start(s, m);
            let k = choose|k: int| 0 <= k < t.len() && t[k] == x;
            if k < s.len() {
                assert(s[k] == x);
            }
        }
    } else {
        assert forall|x: Match| #[trigger]
            insert_by_start(s, m).contains(x) implies x == m || s.contains(x) by {
            assert(insert_by_start(s, m)[0] == m);
        }
    }
}

/// The stable sort is sorted, keeps the length, and holds only input matches.
pub proof fn lemma_sort_sorted(s: Seq<Match>)
    ensures
        sorted_by_start(sort_by_start(s)),
        sort_by_start(s).len() == s.len(),
        forall|x: Match| #[trigger] sort_by_start(s).contains(x) ==> s.contains(x),
    decreases s.len(),
{
    if s.len() > 0 {
        let init = s.drop_last();
        lemma_sort_sorted(init);
        lemma_insert_sorted(sort_by_start(init), s.last());
        assert forall|x: Match| #[trigger] sort_by_start(s).contains(x) implies s.contains(x) by {
            if x == s.last() {
                assert(s[s.len() - 1] == x);
            } else {
                assert(sort_by_start(init).contains(x));
                let k = choose|k: int| 0 <= k < init.len() && init[k] == x;
                assert(s[k] == x);
            }
        }
    }
}

/// Sorts `v` by start, stably.
fn sort_matches_by_start(v: &mut Vec<Match>)
    ensures
        final(v)@ == sort_by_start(old(v)@),
{
    let ghost orig = v@;
    let n = v.len();
    let mut k: usize = 0;
    while k < n
        invariant
            n == orig.len(),
            v@.len() == n,
            k <= n,
            v@.subrange(0, k as int) == sort_by_start(orig.subrange(0, k as int)),
            v@.subrange(k as int, n as int) == orig.subrange(k as int, n as int),
        decreases n - k,
    {
        let x = v[k];
        let ghost t = v@.subrange(0, k as int);
        assert(x == orig[k as int]) by {
            assert(v@.subrange(k as int, n as int)[0] == orig.subrange(k as int, n as int)[0]);
        }
        let mut j: usize = k;
        assert(v@.subrange(k + 1, n as int) =~= orig.subrange(k + 1, n as int)) by {
            assert forall|i: int| k + 1 <= i < n implies v@[i] == orig[i] by {
                assert(v@.subrange(k as int, n as int)[i - k] == orig.subrange(k as int, n as int)[i
                    - k]);
            }
        }
        assert(v@.subrange(k + 1, k + 1) =~= t.subrange(k as int, k as int));
        assert(t.subrange(0, k as int) =~= t);
        assert(insert_by_start(t, x) =~= insert_by_start(t.subrange(0, k as int), x) + t.subrange(
            k as int,
            k as int,
        ));
        while j > 0 && v[j - 1].start > x.start
            invariant
                n == orig.len(),
                v@.len() == n,
                k < n,
                j <= k,
                t.len() == k,
                v@.subrange(k + 1, n as int) == orig.subrange(k + 1, n as int),
                v@.subrange(0, j as int) == t.subrange(0, j as int),
                v@[j as int] == x,
                v@.subrange(j + 1, k + 1) == t.subrange(j as int, k as int),
                insert_by_start(t, x) == insert_by_start(t.subrange(0, j as int), x) + t.subrange(
                    j as int,
                    k as int,
                ),
            decreases j,
        {
            let prev = v[j - 1];
            assert(prev == t[j - 1]) by {
                assert(v@.subrange(0, j as int)[j - 1] == t.subrange(0, j as int)[j - 1]);
            }
            let ghost tj = t.subrange(0, j as int);
            assert(tj.drop_last() =~= t.subrange(0, j - 1));
            assert(insert_by_start(tj, x) == insert_by_start(t.subrange(0, j - 1), x).push(prev));
            assert(insert_by_start(t.subrange(0, j - 1), x).push(prev) + t.subrange(j as int, k as int)
                =~= insert_by_start(t.subrange(0, j - 1), x) + t.subrange(j - 1, k as int));
            let ghost vo = v@;
            let ghost oj = j as int;
            v.set(j, prev);
            v.set(j - 1, x);
            j = j - 1;
            assert forall|i: int| oj + 1 <= i < k + 1 implies v@[i] == t[i - 1] by {
                assert(vo.subrange(oj + 1, k + 1)[i - oj - 1] == t.subrange(oj, k as int)[i - oj
                    - 1]);
            }
            assert forall|i: int| 0 <= i < j implies v@[i] == t[i] by {
                assert(vo.subrange(0, oj)[i] == t.subrange(0, oj)[i]);
            }
            assert forall|i: int| k + 1 <= i < n implies v@[i] == orig[i] by {
                assert(vo.subrange(k + 1, n as int)[i - k - 1] == orig.subrange(k + 1, n as int)[i
                    - k - 1]);
            }
            assert(v@.subrange(0, j as int) =~= t.subrange(0, j as int));
            assert(v@.subrange(j + 1, k + 1) =~= t.subrange(j as int, k as int));
            assert(v@.subrange(k + 1, n as int) =~= orig.subrange(k + 1, n as int));
        }
        proof {
            let tj = t.subrange(0, j as int);
            if j == 0 {
                assert(insert_by_start(tj, x) == seq![x]);
            } else {
                assert(v@.subrange(0, j as int)[j - 1] == tj[j - 1]);
                assert(insert_by_start(tj, x) == tj.push(x));
            }
            assert(v@.subrange(0, k + 1) =~= insert_by_start(tj, x) + t.subrange(j as int, k as int));
            assert(orig.subrange(0, k + 1).drop_last() =~= orig.subrange(0, k as int));
            assert(orig.subrange(0, k + 1).last() == x);
        }
        k = k + 1;
        assert(v@.subrange(k as int, n as int) =~= orig.subrange(k as int, n as int));
    }
    assert(v@ =~= v@.subrange(0, n as int));
    assert(orig =~= orig.subrange(0, n as int));
}

// ---------------------------------------------------------------------------
// The three policies, over matches sorted by start.
/// Under `leftmost_longest`, `a` is preferred to `b` among matches that share a
/// start: greater end, then greater pattern index.
pub open spec fn longer(a: Match, b: Match) -> bool {
    a.end > b.end || (a.end == b.end && a.pattern_id > b.pattern_id)
}

/// Under `salience_max`, `a` is preferred to `b` within a component: greater
/// score, then greater length `n`, then smaller start, then smaller pattern
/// index.
pub open spec fn more_salient(a: Match, b: Match) -> bool {
    a.score > b.score || (a.score == b.score && (a.payload.n > b.payload.n || (a.payload.n
        == b.payload.n && (a.start < b.start || (a.start == b.start && a.pattern_id
        < b.pattern_id)))))
}

/// Index of the first match of `s[lo..hi)` that no later one is `longer` than.
pub open spec fn longest_in(s: Seq<Match>, lo: int, hi: int) -> int
    decreases hi - lo,
{
    if hi <= lo + 1 {
        lo
    } else {
        let b = longest_in(s, lo, hi - 1);
        if longer(s[hi - 1], s[b]) {
            hi - 1
        } else {
            b
        }
    }
}

/// Index of the first match of `s[lo..hi)` that no later one is `more_salient`
/// than.
pub open spec fn most_salient_in(s: Seq<Match>, lo: int, hi: int) -> int
    decreases hi - lo,
{
    if hi <= lo + 1 {
        lo
    } else {
        let b = most_salient_in(s, lo, hi - 1);
        if more_salient(s[hi - 1], s[b]) {
            hi - 1
        } else {
            b
        }
    }
}

/// First index from `k` on whose match does not start at `start`.
pub open spec fn run_end(s: Seq<Match>, start: usize, k: int) -> int
    decreases s.len() - k,
{
    if k >= s.len() {
        s.len() as int
    } else if s[k].start != start {
        k
    } else {
        run_end(s, start, k + 1)
    }
}

/// First index from `k` on whose match does not overlap the one before it.
pub open spec fn chain_end(s: Seq<Match>, k: int) -> int
    decreases s.len() - k,
{
    if k >= s.len() {
        s.len() as int
    } else if !overlap(s[k], s[k - 1]) {
        k
    } else {
        chain_end(s, k + 1)
    }
}

/// `leftmost_longest` on `s[i..]` with every match that starts before
/// `cursor` discarded: the first remaining start's run yields its longest
/// match, and the cursor moves to its end.
pub open spec fn leftmost_longest_from(s: Seq<Match>, i: int, cursor: int) -> Seq<Match>
    decreases s.len() - i,
{
    if i >= s.len() {
        Seq::empty()
    } else if s[i].start < cursor {
        leftmost_longest_from(s, i + 1, cursor)
    } else {
        let b = longest_in(s, i, run_end(s, s[i].start, i + 1));
        seq![s[b]] + leftmost_longest_from(s, i + 1, s[b].end as int)
    }
}

/// `leftmost_first` on `s[i..]`: every match that starts at or after the
/// cursor is taken, and the cursor moves to its end.
pub open spec fn leftmost_first_from(s: Seq<Match>, i: int, cursor: int) -> Seq<Match>
    decreases s.len() - i,
{
    if i >= s.len() {
        Seq::empty()
    } else if s[i].start < cursor {
        leftmost_first_from(s, i + 1, cursor)
    } else {
        seq![s[i]] + leftmost_first_from(s, i + 1, s[i].end as int)
    }
}

/// `salience_max` on `s[i..]`: the chain of consecutively overlapping matches
/// that begins at the first match starting at or after the cursor yields its
/// most salient match, and the cursor moves to its end.
pub open spec fn salience_max_from(s: Seq<Match>, i: int, cursor: int) -> Seq<Match>
    decreases s.len() - i,
{
    if i >= s.len() {
        Seq::empty()
    } else if s[i].start < cursor {
        salience_max_from(s, i + 1, cursor)
    } else {
        let b = most_salient_in(s, i, chain_end(s, i + 1));
        seq![s[b]] + salience_max_from(s, i + 1, s[b].end as int)
    }
}

/// The resolved matches: the stable sort by start, then the policy.
pub open spec fn resolve(matches: Seq<Match>, policy: MatchPolicy) -> Seq<Match> {
    let s = sort_by_start(matches);
    match policy {
        MatchPolicy::LeftmostLongest => leftmost_longest_from(s, 0, 0),
        MatchPolicy::LeftmostFirst => leftmost_first_from(s, 0, 0),
        MatchPolicy::SalienceMax => salience_max_from(s, 0, 0),
    }
}

fn is_longer(a: &Match, b: &Match) -> (r: bool)
    ensures
        r == longer(*a, *b),
{
    a.end > b.end || (a.end == b.end && a.pattern_id > b.pattern_id)
}

fn is_more_salient(a: &Match, b: &Match) -> (r: bool)
    ensures
        r == more_salient(*a, *b),
{
    a.score > b.score || (a.score == b.score && (a.payload.n > b.payload.n || (a.payload.n
        == b.payload.n && (a.start < b.start || (a.start == b.start && a.pattern_id
        < b.pattern_id)))))
}

fn resolve_leftmost_longest(s: &Vec<Match>) -> (r: Vec<Match>)
    ensures
        r@ == leftmost_longest_from(s@, 0, 0),
{
    let mut result: Vec<Match> = Vec::new();
    let mut cursor: usize = 0;
    let mut i: usize = 0;
    while i < s.len()
        invariant
            i <= s@.len(),
            result@ + leftmost_longest_from(s@, i as int, cursor as int) == leftmost_longest_from(
                s@,
                0,
                0,
            ),
        decreases s.len() - i,
    {
        if s[i].start >= cursor {
            let start = s[i].start;
            let mut best: usize = i;
            let mut k: usize = i + 1;
            while k < s.len() && s[k].start == start
                invariant
                    i < k <= s@.len(),
                    i <= best < k,
                    start == s@[i as int].start,
                    best == longest_in(s@, i as int, k as int),
                    run_end(s@, start, k as int) == run_end(s@, start, i + 1),
                decreases s.len() - k,
            {
                if is_longer(&s[k], &s[best]) {
                    best = k;
                }
                k = k + 1;
            }
            let m = s[best];
            proof {
                assert(run_end(s@, start, k as int) == k);
                let rest = leftmost_longest_from(s@, i + 1, m.end as int);
                assert(result@.push(m) + rest =~= result@ + (seq![m] + rest));
            }
            result.push(m);
            cursor = m.end;
        }
        i = i + 1;
    }
    assert(result@ + leftmost_longest_from(s@, i as int, cursor as int) =~= result@);
    result
}

fn resolve_leftmost_first(s: &Vec<Match>) -> (r: Vec<Match>)
    ensures
        r@ == leftmost_first_from(s@, 0, 0),
{
    let mut result: Vec<Match> = Vec::new();
    let mut cursor: usize = 0;
    let mut i: usize = 0;
    while i < s.len()
        invariant
            i <= s@.len(),
            result@ + leftmost_first_from(s@, i as int, cursor as int) == leftmost_first_from(
                s@,
                0,
                0,
            ),
        decreases s.len() - i,
    {
        let m = s[i];
        if m.start >= cursor {
            proof {
                let rest = leftmost_first_from(s@, i + 1, m.end as int);
                assert(result@.push(m) + rest =~= result@ + (seq![m] + rest));
            }
            result.push(m);
            cursor = m.end;
        }
        i = i + 1;
    }
    assert(result@ + leftmost_first_from(s@, i as int, cursor as int) =~= result@);
    result
}

fn resolve_salience_max(s: &Vec<Match>) -> (r: Vec<Match>)
    ensures
        r@ == salience_max_from(s@, 0, 0),
{
    let mut result: Vec<Match> = Vec::new();
    let mut cursor: usize = 0;
    let mut i: usize = 0;
    while i < s.len()
        invariant
            i <= s@.len(),
            result@ + salience_max_from(s@, i as int, cursor as int) == salience_max_from(
                s@,
                0,
                0,
            ),
        decreases s.len() - i,
    {
        if s[i].start >= cursor {
            let mut best: usize = i;
            let mut k: usize = i + 1;
            while k < s.len() && s[k].overlaps(&s[k - 1])
                invariant
                    i < k <= s@.len(),
                    i <= best < k,
                    best == most_salient_in(s@, i as int, k as int),
                    chain_end(s@, k as int) == chain_end(s@, i + 1),
                decreases s.len() - k,
            {
                if is_more_salient(&s[k], &s[best]) {
                    best = k;
                }
                k = k + 1;
            }
            let m = s[best];
            proof {
                assert(chain_end(s@, k as int) == k);
                let rest = salience_max_from(s@, i + 1, m.end as int);
                assert(result@.push(m) + rest =~= result@ + (seq![m] + rest));
            }
            result.push(m);
            cursor = m.end;
        }
        i = i + 1;
    }
    assert(result@ + salience_max_from(s@, i as int, cursor as int) =~= result@);
    result
}

/// Sorts the matches by start, stably, and resolves their overlaps under
/// `policy`.
pub fn resolve_overlaps(matches: Vec<Match>, policy: MatchPolicy) -> (r: Vec<Match>)
    ensures
        r@ == resolve(matches@, policy),
{
    let mut matches = matches;
    sort_matches_by_start(&mut matches);
    match policy {
        MatchPolicy::LeftmostLongest => resolve_leftmost_longest(&matches),
        MatchPolicy::LeftmostFirst => resolve_leftmost_first(&matches),
        MatchPolicy::SalienceMax => resolve_salience_max(&matches),
    }
}

// ---------------------------------------------------------------------------
// Resolved matches do not overlap.
/// Every match starts no later than it ends.
pub open spec fn well_formed(s: Seq<Match>) -> bool {
    forall|k: int| 0 <= k < s.len() ==> #[trigger] s[k].start <= s[k].end
}

/// Each match ends no later than any later one starts.
pub open spec fn chained(o: Seq<Match>) -> bool {
    forall|a: int, b: int| 0 <= a < b < o.len() ==> #[trigger] o[a].end <= #[trigger] o[b].start
}

/// No two distinct positions hold overlapping matches.
pub open spec fn non_overlapping(o: Seq<Match>) -> bool {
    forall|a: int, b: int|
        0 <= a < o.len() && 0 <= b < o.len() && a != b ==> !overlap(#[trigger] o[a], #[trigger] o[b])
}

pub open spec fn starts_from(o: Seq<Match>, cursor: int) -> bool {
    forall|k: int| 0 <= k < o.len() ==> #[trigger] o[k].start >= cursor
}

proof fn lemma_chained_non_overlapping(o: Seq<Match>)
    requires
        chained(o),
    ensures
        non_overlapping(o),
{
    assert forall|a: int, b: int|
        0 <= a < o.len() && 0 <= b < o.len() && a != b implies !overlap(
        #[trigger] o[a],
        #[trigger] o[b],
    ) by {
        if a < b {
            assert(o[a].end <= o[b].start);
        } else {
            assert(o[b].end <= o[a].start);
        }
    }
}

proof fn lemma_prepend_chained(x: Match, rest: Seq<Match>, cursor: int)
    requires
        x.start >= cursor,
        x.start <= x.end,
        chained(rest),
        starts_from(rest, x.end as int),
    ensures
        chained(seq![x] + rest),
        starts_from(seq![x] + rest, cursor),
{
    let o = seq![x] + rest;
    assert forall|a: int, b: int| 0 <= a < b < o.len() implies #[trigger] o[a].end
        <= #[trigger] o[b].start by {
        if a == 0 {
            assert(o[b] == rest[b - 1]);
        } else {
            assert(o[a] == rest[a - 1] && o[b] == rest[b - 1]);
        }
    }
    assert forall|k: int| 0 <= k < o.len() implies #[trigger] o[k].start >= cursor by {
        if k > 0 {
            assert(o[k] == rest[k - 1]);
        }
    }
}

proof fn lemma_longest_in_range(s: Seq<Match>, lo: int, hi: int)
    requires
        lo < hi,
    ensures
        lo <= longest_in(s, lo, hi) < hi,
    decreases hi - lo,
{
    if hi > lo + 1 {
        lemma_longest_in_range(s, lo, hi - 1);
    }
}

proof fn lemma_most_salient_in_range(s: Seq<Match>, lo: int, hi: int)
    requires
        lo < hi,
    ensures
        lo <= most_salient_in(s, lo, hi) < hi,
    decreases hi - lo,
{
    if hi > lo + 1 {
        lemma_most_salient_in_range(s, lo, hi - 1);
    }
}

proof fn lemma_run_end(s: Seq<Match>, start: usize, k: int)
    requires
        k <= s.len(),
    ensures
        k <= run_end(s, start, k) <= s.len(),
        forall|m: int| k <= m < run_end(s, start, k) ==> #[trigger] s[m].start == start,
    decreases s.len() - k,
{
    if k < s.len() && s[k].start == start {
        lemma_run_end(s, start, k + 1);
    }
}

proof fn lemma_chain_end(s: Seq<Match>, k: int)
    requires
        k <= s.len(),
    ensures
        k <= chain_end(s, k) <= s.len(),
    decreases s.len() - k,
{
    if k < s.len() && overlap(s[k], s[k - 1]) {
        lemma_chain_end(s, k + 1);
    }
}

proof fn lemma_leftmost_longest_chained(s: Seq<Match>, i: int, cursor: int)
    requires
        0 <= i,
        well_formed(s),
    ensures
        chained(leftmost_longest_from(s, i, cursor)),
        starts_from(leftmost_longest_from(s, i, cursor), cursor),
    decreases s.len() - i,
{
    if i < s.len() {
        if s[i].start < cursor {
            lemma_leftmost_longest_chained(s, i + 1, cursor);
        } else {
            let g = run_end(s, s[i].start, i + 1);
            lemma_run_end(s, s[i].start, i + 1);
            lemma_longest_in_range(s, i, g);
            let b = longest_in(s, i, g);
            assert(s[b].start == s[i].start);
            lemma_leftmost_longest_chained(s, i + 1, s[b].end as int);
            lemma_prepend_chained(s[b], leftmost_longest_from(s, i + 1, s[b].end as int), cursor);
        }
    }
}

proof fn lemma_leftmost_first_chained(s: Seq<Match>, i: int, cursor: int)
    requires
        0 <= i,
        well_formed(s),
    ensures
        chained(leftmost_first_from(s, i, cursor)),
        starts_from(leftmost_first_from(s, i, cursor), cursor),
    decreases s.len() - i,
{
    if i < s.len() {
        if s[i].start < cursor {
            lemma_leftmost_first_chained(s, i + 1, cursor);
        } else {
            lemma_leftmost_first_chained(s, i + 1, s[i].end as int);
            lemma_prepend_chained(s[i], leftmost_first_from(s, i + 1, s[i].end as int), cursor);
        }
    }
}

proof fn lemma_salience_max_chained(s: Seq<Match>, i: int, cursor: int)
    requires
        0 <= i,
        well_formed(s),
        sorted_by_start(s),
    ensures
        chained(salience_max_from(s, i, cursor)),
        starts_from(salience_max_from(s, i, cursor), cursor),
    decreases s.len() - i,
{
    if i < s.len() {
        if s[i].start < cursor {
            lemma_salience_max_chained(s, i + 1, cursor);
        } else {
            let g = chain_end(s, i + 1);
            lemma_chain_end(s, i + 1);
            lemma_most_salient_in_range(s, i, g);
            let b = most_salient_in(s, i, g);
            assert(s[b].start >= s[i].start);
            lemma_salience_max_chained(s, i + 1, s[b].end as int);
            lemma_prepend_chained(s[b], salience_max_from(s, i + 1, s[b].end as int), cursor);
        }
    }
}

/// Under every policy the resolved matches come in ascending start order,
/// each ending before the next starts, so no two of them overlap.
pub proof fn lemma_resolved_non_overlapping(matches: Seq<Match>, policy: MatchPolicy)
    requires
        well_formed(matches),
    ensures
        chained(resolve(matches, policy)),
        non_overlapping(resolve(matches, policy)),
{
    let s = sort_by_start(matches);
    lemma_sort_sorted(matches);
    assert forall|k: int| 0 <= k < s.len() implies #[trigger] s[k].start <= s[k].end by {
        assert(s.contains(s[k]));
        let j = choose|j: int| 0 <= j < matches.len() && matches[j] == s[k];
        assert(matches[j].start <= matches[j].end);
    }
    match policy {
        MatchPolicy::LeftmostLongest => lemma_leftmost_longest_chained(s, 0, 0),
        MatchPolicy::LeftmostFirst => lemma_leftmost_first_chained(s, 0, 0),
        MatchPolicy::SalienceMax => lemma_salience_max_chained(s, 0, 0),
    }
    lemma_chained_non_overlapping(resolve(matches, policy));
}

/// Every match is non-empty and ends by token offset `n`.
pub open spec fn spans_within(s: Seq<Match>, n: int) -> bool {
    forall|k: int| 0 <= k < s.len() ==> #[trigger] s[k].start < s[k].end && s[k].end <= n
}

proof fn lemma_prepend_within(x: Match, rest: Seq<Match>, n: int)
    requires
        x.start < x.end <= n,
        spans_within(rest, n),
    ensures
        spans_within(seq![x] + rest, n),
{
    assert forall|k: int| 0 <= k < (seq![x] + rest).len() implies #[trigger] (seq![x]
        + rest)[k].start < (seq![x] + rest)[k].end && (seq![x] + rest)[k].end <= n by {
        if k > 0 {
            assert((seq![x] + rest)[k] == rest[k - 1]);
        }
    }
}

proof fn lemma_from_within(s: Seq<Match>, policy: MatchPolicy, i: int, cursor: int, n: int)
    requires
        0 <= i,
        spans_within(s, n),
    ensures
        policy == MatchPolicy::LeftmostLongest ==> spans_within(
            leftmost_longest_from(s, i, cursor),
            n,
        ),
        policy == MatchPolicy::LeftmostFirst ==> spans_within(leftmost_first_from(s, i, cursor), n),
        policy == MatchPolicy::SalienceMax ==> spans_within(salience_max_from(s, i, cursor), n),
    decreases s.len() - i,
{
    if i < s.len() {
        if s[i].start < cursor {
            lemma_from_within(s, policy, i + 1, cursor, n);
        } else {
            match policy {
                MatchPolicy::LeftmostLongest => {
                    let g = run_end(s, s[i].start, i + 1);
                    lemma_run_end(s, s[i].start, i + 1);
                    lemma_longest_in_range(s, i, g);
                    let b = longest_in(s, i, g);
                    lemma_from_within(s, policy, i + 1, s[b].end as int, n);
                    lemma_prepend_within(
                        s[b],
                        leftmost_longest_from(s, i + 1, s[b].end as int),
                        n,
                    );
                },
                MatchPolicy::LeftmostFirst => {
                    lemma_from_within(s, policy, i + 1, s[i].end as int, n);
                    lemma_prepend_within(s[i], leftmost_first_from(s, i + 1, s[i].end as int), n);
                },
                MatchPolicy::SalienceMax => {
                    let g = chain_end(s, i + 1);
                    lemma_chain_end(s, i + 1);
                    lemma_most_salient_in_range(s, i, g);
                    let b = most_salient_in(s, i, g);
                    lemma_from_within(s, policy, i + 1, s[b].end as int, n);
                    lemma_prepend_within(s[b], salience_max_from(s, i + 1, s[b].end as int), n);
                },
            }
        }
    }
}

/// Resolution only selects among its input: non-empty matches that end by
/// token offset `n` stay so.
pub proof fn lemma_resolved_within(matches: Seq<Match>, policy: MatchPolicy, n: int)
    requires
        spans_within(matches, n),
    ensures
        spans_within(resolve(matches, policy), n),
{
    let s = sort_by_start(matches);
    lemma_sort_sorted(matches);
    assert forall|k: int| 0 <= k < s.len() implies #[trigger] s[k].start < s[k].end && s[k].end
        <= n by {
        assert(s.contains(s[k]));
        let j = choose|j: int| 0 <= j < matches.len() && matches[j] == s[k];
        assert(matches[j].start < matches[j].end);
    }
    lemma_from_within(s, policy, 0, 0, n);
}

proof fn lemma_from_members(s: Seq<Match>, policy: MatchPolicy, i: int, cursor: int)
    requires
        0 <= i,
    ensures
        policy == MatchPolicy::LeftmostLongest ==> forall|k: int|
            0 <= k < leftmost_longest_from(s, i, cursor).len() ==> s.contains(
                #[trigger] leftmost_longest_from(s, i, cursor)[k],
            ),
        policy == MatchPolicy::LeftmostFirst ==> forall|k: int|
            0 <= k < leftmost_first_from(s, i, cursor).len() ==> s.contains(
                #[trigger] leftmost_first_from(s, i, cursor)[k],
            ),
        policy == MatchPolicy::SalienceMax ==> forall|k: int|
            0 <= k < salience_max_from(s, i, cursor).len() ==> s.contains(
                #[trigger] salience_max_from(s, i, cursor)[k],
            ),
    decreases s.len() - i,
{
    if i < s.len() {
        if s[i].start < cursor {
            lemma_from_members(s, policy, i + 1, cursor);
            assert(leftmost_longest_from(s, i, cursor) == leftmost_longest_from(s, i + 1, cursor));
            assert(leftmost_first_from(s, i, cursor) == leftmost_first_from(s, i + 1, cursor));
            assert(salience_max_from(s, i, cursor) == salience_max_from(s, i + 1, cursor));
        } else {
            match policy {
                MatchPolicy::LeftmostLongest => {
                    let g = run_end(s, s[i].start, i + 1);
                    lemma_run_end(s, s[i].start, i + 1);
                    lemma_longest_in_range(s, i, g);
                    let b = longest_in(s, i, g);
                    let rest = leftmost_longest_from(s, i + 1, s[b].end as int);
                    lemma_from_members(s, policy, i + 1, s[b].end as int);
                    assert(leftmost_longest_from(s, i, cursor) == seq![s[b]] + rest);
                    assert(s.contains(s[b]));
                    assert forall|k: int| 0 <= k < (seq![s[b]] + rest).len() implies s.contains(
                        #[trigger] (seq![s[b]] + rest)[k],
                    ) by {
                        if k == 0 {
                            assert(s[b] == (seq![s[b]] + rest)[k]);
                        } else {
                            assert(rest[k - 1] == (seq![s[b]] + rest)[k]);
                        }
                    }
                },
                MatchPolicy::LeftmostFirst => {
                    let rest = leftmost_first_from(s, i + 1, s[i].end as int);
                    lemma_from_members(s, policy, i + 1, s[i].end as int);
                    assert(leftmost_first_from(s, i, cursor) == seq![s[i]] + rest);
                    assert(s.contains(s[i]));
                    assert forall|k: int| 0 <= k < (seq![s[i]] + rest).len() implies s.contains(
                        #[trigger] (seq![s[i]] + rest)[k],
                    ) by {
                        if k == 0 {
                            assert(s[i] == (seq![s[i]] + rest)[k]);
                        } else {
                            assert(rest[k - 1] == (seq![s[i]] + rest)[k]);
                        }
                    }
                },
                MatchPolicy::SalienceMax => {
                    let g = chain_end(s, i + 1);
                    lemma_chain_end(s, i + 1);
                    lemma_most_salient_in_range(s, i, g);
                    let b = most_salient_in(s, i, g);
                    let rest = salience_max_from(s, i + 1, s[b].end as int);
                    lemma_from_members(s, policy, i + 1, s[b].end as int);
                    assert(salience_max_from(s, i, cursor) == seq![s[b]] + rest);
                    assert(s.contains(s[b]));
                    assert forall|k: int| 0 <= k < (seq![s[b]] + rest).len() implies s.contains(
                        #[trigger] (seq![s[b]] + rest)[k],
                    ) by {
                        if k == 0 {
                            assert(s[b] == (seq![s[b]] + rest)[k]);
                        } else {
                            assert(rest[k - 1] == (seq![s[b]] + rest)[k]);
                        }
                    }
                },
            }
        }
    }
}

/// Resolution only selects among its input.
pub proof fn lemma_resolved_members(matches: Seq<Match>, policy: MatchPolicy)
    ensures
        forall|k: int|
            0 <= k < resolve(matches, policy).len() ==> matches.contains(
                #[trigger] resolve(matches, policy)[k],
            ),
{
    let s = sort_by_start(matches);
    lemma_sort_sorted(matches);
    lemma_from_members(s, policy, 0, 0);
    assert forall|k: int| 0 <= k < resolve(matches, policy).len() implies matches.contains(
        #[trigger] resolve(matches, policy)[k],
    ) by {
        assert(s.contains(resolve(matches, policy)[k]));
    }
}

} // verus!
