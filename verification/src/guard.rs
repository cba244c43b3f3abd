//! Repetition-avoidance heuristics for the greedy decode loop.
//!
//! Scores are fixed-point numbers: one unit is one hundredth of a raw model
//! score. Risk values live on the same scale over `[0, 1]`, so a risk of `r`
//! hundredths stands for the real value `r / 100`.
//!
//! [`penalize`] applies two passes to a candidate score vector: a direct
//! repetition penalty that damps the score of every token already emitted,
//! and a look-ahead pass that probes each of the top candidate tokens for the
//! repetition risk the extended sequence would carry and subtracts a scaled
//! penalty where that risk is significant.

use vstd::prelude::*;
use vstd::pervasive::VecAdditionalExecFns;

verus! {

/// Largest score magnitude the guard accepts; callers clamp into this range.
pub const SCORE_BOUND: i64 = 1_000_000_000;

/// How many of the highest-scoring candidate tokens the look-ahead pass probes.
pub const RISK_TOP_K: usize = 100;

/// Risk threshold (in hundredths) above which a candidate is penalized.
pub const RISK_THRESHOLD: u32 = 10;

/// An n-gram of size `n` repeats: the last `n` tokens also occur as a
/// contiguous run ending at least `n` positions earlier.
pub open spec fn spec_has_repeated_ngram(s: Seq<usize>, n: int) -> bool {
    &&& s.len() >= 2 * n
    &&& exists|i: int|
        0 <= i <= s.len() - 2 * n && #[trigger] s.subrange(i, i + n) == s.subrange(
            s.len() - n,
            s.len() as int,
        )
}

/// Risk contribution of repeated n-grams, weighted by n-gram size.
pub open spec fn ngram_risk(s: Seq<usize>) -> int {
    (if spec_has_repeated_ngram(s, 2) { 10int } else { 0int })
        + (if spec_has_repeated_ngram(s, 3) { 30int } else { 0int })
        + (if spec_has_repeated_ngram(s, 4) { 60int } else { 0int })
        + (if spec_has_repeated_ngram(s, 5) { 90int } else { 0int })
}

/// Risk contribution of sheer sequence length, past 15 tokens.
pub open spec fn length_risk(s: Seq<usize>) -> int {
    if s.len() > 15 {
        (s.len() - 15) * 2
    } else {
        0
    }
}

/// How many of the `i` tokens before the last one equal the last token.
pub open spec fn recent_repeats(s: Seq<usize>, i: int) -> int
    decreases i when i >= 0
{
    if i <= 0 {
        0
    } else {
        recent_repeats(s, i - 1) + if i < s.len() && s[s.len() - 1 - i] == s[s.len() - 1] {
            1int
        } else {
            0int
        }
    }
}

pub proof fn lemma_recent_repeats_bounds(s: Seq<usize>, i: int)
    requires
        i >= 0,
    ensures
        0 <= recent_repeats(s, i) <= i,
    decreases i,
{
    if i > 0 {
        lemma_recent_repeats_bounds(s, i - 1);
    }
}

/// Risk contribution of the last token recurring within the last 8 tokens.
pub open spec fn recent_risk(s: Seq<usize>) -> int {
    20 * recent_repeats(s, (if s.len() < 8 { s.len() as int } else { 8 }) - 1)
}

/// Risk contribution of a trailing A-B-A-B alternating pattern.
pub open spec fn alternation_risk(s: Seq<usize>) -> int {
    if s.len() >= 4 && s[s.len() - 1] == s[s.len() - 3] && s[s.len() - 2] == s[s.len() - 4] {
        40int
    } else {
        0int
    }
}

pub open spec fn raw_risk(s: Seq<usize>) -> int {
    ngram_risk(s) + length_risk(s) + recent_risk(s) + alternation_risk(s)
}

/// The repetition risk of a token sequence, in hundredths, clamped to `[0, 1]`.
pub open spec fn spec_risk(s: Seq<usize>) -> int {
    if s.len() < 3 {
        0
    } else if raw_risk(s) > 100 {
        100
    } else {
        raw_risk(s)
    }
}

/// Whether the last `n` tokens match the `n` tokens starting at `i`.
fn ngram_matches(tokens: &Vec<usize>, i: usize, n: usize) -> (r: bool)
    requires
        1 <= n <= tokens@.len(),
        i + n <= tokens@.len(),
    ensures
        r == (tokens@.subrange(i as int, i + n) == tokens@.subrange(
            tokens@.len() - n,
            tokens@.len() as int,
        )),
{
    let len = tokens.len();
    let mut j: usize = 0;
    while j < n
        invariant
            j <= n,
            1 <= n <= len,
            i + n <= len,
            len == tokens@.len(),
            forall|t: int| 0 <= t < j ==> #[trigger] tokens@[i + t] == tokens@[len - n + t],
        decreases n - j,
    {
        if tokens[i + j] != tokens[len - n + j] {
            proof {
                let s1 = tokens@.subrange(i as int, i + n);
                let s2 = tokens@.subrange(tokens@.len() - n, tokens@.len() as int);
                assert(s1[j as int] != s2[j as int]);
            }
            return false;
        }
        j = j + 1;
    }
    proof {
        let s1 = tokens@.subrange(i as int, i + n);
        let s2 = tokens@.subrange(tokens@.len() - n, tokens@.len() as int);
        assert forall|t: int| 0 <= t < n implies s1[t] == s2[t] by {
            assert(tokens@[i + t] == tokens@[len - n + t]);
        }
        assert(s1 =~= s2);
    }
    true
}

/// Whether the trailing `n`-gram of `tokens` occurs again earlier on.
pub fn has_repeated_ngram(tokens: &Vec<usize>, n: usize) -> (r: bool)
    requires
        1 <= n,
    ensures
        r == spec_has_repeated_ngram(tokens@, n as int),
{
    let len = tokens.len();
    if len / 2 < n {
        return false;
    }
    let limit = len - 2 * n;
    let mut i: usize = 0;
    while i <= limit
        invariant
            1 <= n,
            2 * n <= len,
            limit == len - 2 * n,
            len == tokens@.len(),
            i <= limit + 1,
            forall|p: int|
                0 <= p < i ==> #[trigger] tokens@.subrange(p, p + n) != tokens@.subrange(
                    tokens@.len() - n,
                    tokens@.len() as int,
                ),
        decreases limit + 1 - i,
    {
        if ngram_matches(tokens, i, n) {
            return true;
        }
        i = i + 1;
    }
    false
}

/// The repetition risk of `tokens`, in hundredths, clamped to `[0, 1]`.
///
/// The result is always within the unit interval: at most 100 hundredths.
pub fn assess_future_repetition_risk(tokens: &Vec<usize>) -> (r: u32)
    ensures
        r as int == spec_risk(tokens@),
        r <= 100,
{
    let len = tokens.len();
    if len < 3 {
        return 0;
    }
    if len > 65 {
        proof {
            lemma_recent_repeats_bounds(
                tokens@,
                (if tokens@.len() < 8 { tokens@.len() as int } else { 8 }) - 1,
            );
        }
        return 100;
    }
    let mut risk: u32 = 0;
    if has_repeated_ngram(tokens, 2) {
        risk = risk + 10;
    }
    if has_repeated_ngram(tokens, 3) {
        risk = risk + 30;
    }
    if has_repeated_ngram(tokens, 4) {
        risk = risk + 60;
    }
    if has_repeated_ngram(tokens, 5) {
        risk = risk + 90;
    }
    if len > 15 {
        risk = risk + ((len - 15) as u32) * 2;
    }
    let window: usize = if len < 8 { len } else { 8 };
    let last = tokens[len - 1];
    let mut cnt: u32 = 0;
    let mut i: usize = 1;
    while i < window
        invariant
            1 <= i <= window,
            window == (if tokens@.len() < 8 { tokens@.len() } else { 8 }),
            3 <= len <= 65,
            len == tokens@.len(),
            last == tokens@[len - 1],
            cnt as int == recent_repeats(tokens@, i - 1),
            cnt <= i - 1,
        decreases window - i,
    {
        if tokens[len - 1 - i] == last {
            cnt = cnt + 1;
        }
        i = i + 1;
    }
    proof {
        assert(recent_risk(tokens@) == 20 * recent_repeats(tokens@, window - 1));
    }
    risk = risk + 20 * cnt;
    if len >= 4 && tokens[len - 1] == tokens[len - 3] && tokens[len - 2] == tokens[len - 4] {
        risk = risk + 40;
    }
    if risk > 100 {
        100
    } else {
        risk
    }
}

/// One application of the direct repetition penalty to a single score:
/// positive scores shrink by the penalty factor 1.2, non-positive scores grow
/// in magnitude by it (saturating at the score floor).
pub open spec fn damp_score(s: int) -> int {
    if s > 0 {
        s * 5 / 6
    } else {
        let d = -((-s) * 6 / 5);
        if d < -(SCORE_BOUND as int) {
            -(SCORE_BOUND as int)
        } else {
            d
        }
    }
}

fn damp(s: i64) -> (r: i64)
    requires
        -SCORE_BOUND <= s <= SCORE_BOUND,
    ensures
        r as int == damp_score(s as int),
        -SCORE_BOUND <= r <= SCORE_BOUND,
        r <= s,
{
    if s > 0 {
        let m: u64 = (s as u64) * 5 / 6;
        proof {
            assert(m as int == s as int * 5 / 6);
        }
        m as i64
    } else {
        let m: u64 = ((-s) as u64) * 6 / 5;
        if m > (SCORE_BOUND as u64) {
            -SCORE_BOUND
        } else {
            -(m as i64)
        }
    }
}

/// The direct repetition pass: for every token of `gen` from position `k` on
/// (the seed at position 0 is skipped by the caller), damp that token's score.
pub open spec fn damp_pass(sc: Seq<i64>, gen: Seq<usize>, k: int) -> Seq<i64>
    decreases gen.len() - k when 0 <= k
{
    if k >= gen.len() {
        sc
    } else {
        let t = gen[k] as int;
        let sc2 = if t < sc.len() {
            sc.update(t, damp_score(sc[t] as int) as i64)
        } else {
            sc
        };
        damp_pass(sc2, gen, k + 1)
    }
}

/// Stable insertion of candidate `x` after every candidate whose score is
/// not smaller: the list stays in descending score order, lower token ids
/// first among equal scores.
pub open spec fn insert_by_score(sc: Seq<i64>, t: Seq<int>, x: int) -> Seq<int>
    decreases t.len()
{
    if t.len() == 0 {
        seq![x]
    } else if sc[x] > sc[t.last()] {
        insert_by_score(sc, t.drop_last(), x) + seq![t.last()]
    } else {
        t + seq![x]
    }
}

/// The candidate token ids below `n`, in descending score order (stable).
pub open spec fn rank_by_score(sc: Seq<i64>, n: int) -> Seq<int>
    decreases n when n >= 0
{
    if n <= 0 {
        Seq::empty()
    } else {
        insert_by_score(sc, rank_by_score(sc, n - 1), n - 1)
    }
}

/// The candidates the look-ahead pass probes: the highest-scoring token ids,
/// at most [`RISK_TOP_K`] of them.
pub open spec fn top_k_candidates(sc: Seq<i64>) -> Seq<int> {
    let ranked = rank_by_score(sc, sc.len() as int);
    if ranked.len() <= RISK_TOP_K {
        ranked
    } else {
        ranked.subrange(0, RISK_TOP_K as int)
    }
}

/// The look-ahead pass: for each probed candidate in turn, compute the risk
/// of the sequence extended by that candidate and subtract three times the
/// risk from its score when the risk exceeds the threshold.
pub open spec fn risk_pass(sc: Seq<i64>, gen: Seq<usize>, idxs: Seq<int>, j: int) -> Seq<i64>
    decreases idxs.len() - j when 0 <= j
{
    if j >= idxs.len() {
        sc
    } else {
        let cand = idxs[j];
        let risk = spec_risk(gen.push(cand as usize));
        let sc2 = if 0 <= cand < sc.len() && risk > RISK_THRESHOLD {
            sc.update(cand, (sc[cand] - 3 * risk) as i64)
        } else {
            sc
        };
        risk_pass(sc2, gen, idxs, j + 1)
    }
}

/// The whole guard: the direct pass always runs; the look-ahead pass runs,
/// over the highest-scoring candidates of the damped scores, once at least
/// one non-seed token has been generated.
pub open spec fn spec_penalize(sc: Seq<i64>, gen: Seq<usize>) -> Seq<i64> {
    let d = damp_pass(sc, gen, 1);
    if gen.len() >= 2 {
        risk_pass(d, gen, top_k_candidates(d), 0)
    } else {
        d
    }
}

proof fn lemma_insert_by_score_range(sc: Seq<i64>, t: Seq<int>, x: int, b: int)
    requires
        forall|q: int| 0 <= q < t.len() ==> 0 <= #[trigger] t[q] < b,
        0 <= x < b,
    ensures
        insert_by_score(sc, t, x).len() == t.len() + 1,
        forall|q: int|
            0 <= q < insert_by_score(sc, t, x).len() ==> 0 <= #[trigger] insert_by_score(
                sc,
                t,
                x,
            )[q] < b,
    decreases t.len(),
{
    if t.len() > 0 && sc[x] > sc[t.last()] {
        lemma_insert_by_score_range(sc, t.drop_last(), x, b);
    }
}

proof fn lemma_rank_range(sc: Seq<i64>, n: int)
    requires
        0 <= n,
    ensures
        rank_by_score(sc, n).len() == n,
        forall|q: int|
            0 <= q < rank_by_score(sc, n).len() ==> 0 <= #[trigger] rank_by_score(sc, n)[q] < n,
    decreases n,
{
    if n > 0 {
        lemma_rank_range(sc, n - 1);
        lemma_insert_by_score_range(sc, rank_by_score(sc, n - 1), n - 1, n);
    }
}

proof fn lemma_insert_by_score_at(sc: Seq<i64>, t: Seq<int>, x: int, p: int)
    requires
        0 <= p <= t.len(),
        forall|q: int| p <= q < t.len() ==> sc[x] > sc[#[trigger] t[q]],
        p == 0 || !(sc[x] > sc[t[p - 1]]),
    ensures
        insert_by_score(sc, t, x) =~= t.subrange(0, p) + seq![x] + t.subrange(p, t.len() as int),
    decreases t.len(),
{
    if t.len() == 0 {
    } else if sc[x] > sc[t.last()] {
        assert(p < t.len());
        lemma_insert_by_score_at(sc, t.drop_last(), x, p);
        assert(t.drop_last().subrange(0, p) =~= t.subrange(0, p));
        assert(t.drop_last().subrange(p, t.len() - 1) =~= t.subrange(p, t.len() - 1));
        assert(insert_by_score(sc, t, x) =~= t.subrange(0, p) + seq![x] + t.subrange(
            p,
            t.len() as int,
        ));
    } else {
        assert(p == t.len());
        assert(t.subrange(0, p) =~= t);
        assert(t.subrange(p, t.len() as int) =~= Seq::<int>::empty());
    }
}

/// The token ids a candidate list stands for.
pub open spec fn candidate_models(v: Seq<usize>) -> Seq<int> {
    v.map(|_q: int, x: usize| x as int)
}

proof fn lemma_damp_pass_bounds(sc: Seq<i64>, gen: Seq<usize>, k: int)
    requires
        0 <= k,
        forall|i: int| 0 <= i < sc.len() ==> -SCORE_BOUND <= #[trigger] sc[i] <= SCORE_BOUND,
    ensures
        damp_pass(sc, gen, k).len() == sc.len(),
        forall|i: int|
            0 <= i < sc.len() ==> -SCORE_BOUND <= #[trigger] damp_pass(sc, gen, k)[i]
                <= SCORE_BOUND,
    decreases gen.len() - k,
{
    if k < gen.len() {
        let t = gen[k] as int;
        if t < sc.len() {
            let v = sc[t] as int;
            assert(-(SCORE_BOUND as int) <= damp_score(v) <= SCORE_BOUND as int);
            let sc2 = sc.update(t, damp_score(v) as i64);
            lemma_damp_pass_bounds(sc2, gen, k + 1);
        } else {
            lemma_damp_pass_bounds(sc, gen, k + 1);
        }
    }
}

/// Apply the repetition guard to a candidate score vector in place.
pub fn penalize(scores: &mut Vec<i64>, generated: &Vec<usize>)
    requires
        forall|i: int|
            0 <= i < old(scores)@.len() ==> -SCORE_BOUND <= #[trigger] old(scores)@[i]
                <= SCORE_BOUND,
    ensures
        final(scores)@ == spec_penalize(old(scores)@, generated@),
        final(scores)@.len() == old(scores)@.len(),
{
    let ghost orig = scores@;
    let mut k: usize = 1;
    while k < generated.len()
        invariant
            1 <= k,
            scores@.len() == orig.len(),
            forall|i: int| 0 <= i < scores@.len() ==> -SCORE_BOUND <= #[trigger] scores@[i]
                <= SCORE_BOUND,
            damp_pass(orig, generated@, 1) == damp_pass(scores@, generated@, k as int),
        decreases generated@.len() - k,
    {
        let t = generated[k];
        let ghost pre = scores@;
        if t < scores.len() {
            let v = scores[t];
            let nv = damp(v);
            scores.set(t, nv);
            proof {
                assert(scores@ =~= pre.update(t as int, damp_score(pre[t as int] as int) as i64));
            }
        }
        proof {
            assert(damp_pass(pre, generated@, k as int) == damp_pass(scores@, generated@, k + 1));
        }
        k = k + 1;
    }
    proof {
        assert(damp_pass(scores@, generated@, k as int) == scores@);
        lemma_damp_pass_bounds(orig, generated@, 1);
    }
    let ghost damped = scores@;
    if generated.len() >= 2 {
        let mut ranked: Vec<usize> = Vec::new();
        let mut i: usize = 0;
        while i < scores.len()
            invariant
                i <= scores@.len(),
                scores@ == damped,
                candidate_models(ranked@) == rank_by_score(damped, i as int),
                ranked@.len() == i,
                forall|q: int| 0 <= q < ranked@.len() ==> #[trigger] ranked@[q] < i,
            decreases scores@.len() - i,
        {
            let mut p: usize = ranked.len();
            while p > 0 && scores[i] > scores[ranked[p - 1]]
                invariant
                    p <= ranked@.len(),
                    i < scores@.len(),
                    ranked@.len() == i,
                    forall|q: int| 0 <= q < ranked@.len() ==> #[trigger] ranked@[q] < i,
                    forall|q: int|
                        p <= q < ranked@.len() ==> damped[i as int] > damped[
                            #[trigger] candidate_models(ranked@)[q]
                        ],
                    scores@ == damped,
                decreases p,
            {
                p = p - 1;
            }
            let ghost pre = candidate_models(ranked@);
            ranked.insert(p, i);
            proof {
                lemma_insert_by_score_at(damped, pre, i as int, p as int);
                assert(candidate_models(ranked@) =~= pre.subrange(0, p as int) + seq![i as int]
                    + pre.subrange(p as int, pre.len() as int));
                assert(candidate_models(ranked@) =~= insert_by_score(damped, pre, i as int));
                assert(candidate_models(ranked@) =~= rank_by_score(damped, i + 1));
            }
            i = i + 1;
        }
        if ranked.len() > RISK_TOP_K {
            ranked.truncate(RISK_TOP_K);
        }
        let ghost idxs = top_k_candidates(damped);
        proof {
            lemma_rank_range(damped, damped.len() as int);
            assert(candidate_models(ranked@) =~= idxs);
        }
        let mut j: usize = 0;
        while j < ranked.len()
            invariant
                j <= ranked@.len(),
                ranked@.len() <= RISK_TOP_K,
                generated@.len() >= 2,
                scores@.len() == damped.len(),
                candidate_models(ranked@) == idxs,
                forall|q: int| 0 <= q < ranked@.len() ==> #[trigger] ranked@[q] < scores@.len(),
                forall|t: int|
                    0 <= t < scores@.len() ==> -SCORE_BOUND - 300 * (j as int)
                        <= #[trigger] scores@[t] <= SCORE_BOUND,
                risk_pass(damped, generated@, idxs, 0) == risk_pass(
                    scores@,
                    generated@,
                    idxs,
                    j as int,
                ),
            decreases ranked@.len() - j,
        {
            let cand = ranked[j];
            let mut test = copy_tokens(generated);
            test.push(cand);
            let risk = assess_future_repetition_risk(&test);
            let ghost pre = scores@;
            if risk > RISK_THRESHOLD {
                let v = scores[cand];
                scores.set(cand, v - 3 * (risk as i64));
                proof {
                    assert(scores@ =~= pre.update(
                        cand as int,
                        (pre[cand as int] - 3 * (risk as int)) as i64,
                    ));
                }
            }
            proof {
                assert(test@ == generated@.push(cand));
                assert(idxs[j as int] == cand as int);
                assert(risk_pass(pre, generated@, idxs, j as int) == risk_pass(
                    scores@,
                    generated@,
                    idxs,
                    j + 1,
                ));
            }
            j = j + 1;
        }
        proof {
            assert(risk_pass(scores@, generated@, idxs, ranked@.len() as int) == scores@);
        }
    }
}

/// An element-wise copy of a token vector.
fn copy_tokens(src: &Vec<usize>) -> (r: Vec<usize>)
    ensures
        r@ == src@,
{
    let mut r: Vec<usize> = Vec::new();
    let mut i: usize = 0;
    while i < src.len()
        invariant
            i <= src@.len(),
            r@ == src@.subrange(0, i as int),
        decreases src@.len() - i,
    {
        r.push(src[i]);
        proof {
            assert(r@ =~= src@.subrange(0, i + 1));
        }
        i = i + 1;
    }
    proof {
        assert(r@ =~= src@);
    }
    r
}

} // verus!
