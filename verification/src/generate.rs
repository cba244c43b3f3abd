//! The greedy autoregressive decode loop.
//!
//! The next-token scorer (an inference engine) is a collaborator behind the
//! [`ScoreSource`] trait: given the tokens generated so far it may return a
//! score vector, or fail. The loop itself is verified for *every*
//! implementation of the trait: whatever the scorer returns, the produced
//! sequence starts with the seed token, never contains the end token, never
//! exceeds the step budget plus the seed, and the loop always terminates.

use vstd::prelude::*;
use vstd::pervasive::VecAdditionalExecFns;
use crate::guard;

verus! {

/// Longest tokenized input accepted before generation starts.
pub const TOKEN_CAP: usize = 256;

/// A source of next-token scores: the encoder context it carries is its own
/// business; the decode loop only hands it the tokens generated so far.
/// `None` stands for any failure of the underlying engine.
pub trait ScoreSource {
    fn next_scores(&mut self, tokens: &Vec<usize>) -> Option<Vec<i64>>;
}

/// Clamp of a score into the range the repetition guard accepts.
pub open spec fn clamp_score(s: int) -> int {
    if s < -(guard::SCORE_BOUND as int) {
        -(guard::SCORE_BOUND as int)
    } else if s > guard::SCORE_BOUND as int {
        guard::SCORE_BOUND as int
    } else {
        s
    }
}

/// Clamp every score into the guard's accepted range, in place.
pub fn clamp_scores(scores: &mut Vec<i64>)
    ensures
        final(scores)@.len() == old(scores)@.len(),
        forall|i: int|
            0 <= i < old(scores)@.len() ==> #[trigger] final(scores)@[i] as int == clamp_score(
                old(scores)@[i] as int,
            ),
        forall|i: int|
            0 <= i < final(scores)@.len() ==> -guard::SCORE_BOUND <= #[trigger] final(scores)@[i]
                <= guard::SCORE_BOUND,
{
    let ghost orig = scores@;
    let mut i: usize = 0;
    while i < scores.len()
        invariant
            i <= scores@.len(),
            scores@.len() == orig.len(),
            forall|k: int| i <= k < orig.len() ==> scores@[k] == orig[k],
            forall|k: int|
                0 <= k < i ==> #[trigger] scores@[k] as int == clamp_score(orig[k] as int),
            forall|k: int|
                0 <= k < i ==> -guard::SCORE_BOUND <= #[trigger] scores@[k] <= guard::SCORE_BOUND,
        decreases scores@.len() - i,
    {
        let v = scores[i];
        if v < -guard::SCORE_BOUND {
            scores.set(i, -guard::SCORE_BOUND);
        } else if v > guard::SCORE_BOUND {
            scores.set(i, guard::SCORE_BOUND);
        }
        i = i + 1;
    }
}

/// Index of the maximal score; among equal maxima, the last one.
pub fn argmax(scores: &Vec<i64>) -> (idx: usize)
    requires
        scores@.len() > 0,
    ensures
        idx < scores@.len(),
        forall|j: int| 0 <= j < scores@.len() ==> scores@[j] <= scores@[idx as int],
        forall|j: int| idx < j < scores@.len() ==> scores@[j] < scores@[idx as int],
{
    let mut best: usize = 0;
    let mut i: usize = 1;
    while i < scores.len()
        invariant
            best < i <= scores@.len(),
            forall|j: int| 0 <= j < i ==> scores@[j] <= scores@[best as int],
            forall|j: int| best < j < i ==> scores@[j] < scores@[best as int],
        decreases scores@.len() - i,
    {
        if scores[i] >= scores[best] {
            best = i;
        }
        i = i + 1;
    }
    best
}

/// Whether a tokenized input fits under the fixed cap enforced before
/// generation starts.
pub fn input_within_cap(ids: &Vec<usize>) -> (ok: bool)
    ensures
        ok == (ids@.len() <= TOKEN_CAP),
{
    ids.len() <= TOKEN_CAP
}

/// Truncate a tokenized input to the cap, keeping the leading tokens.
pub fn truncate_to_cap(ids: &mut Vec<usize>)
    ensures
        final(ids)@ == if old(ids)@.len() <= TOKEN_CAP {
            old(ids)@
        } else {
            old(ids)@.subrange(0, TOKEN_CAP as int)
        },
{
    if ids.len() > TOKEN_CAP {
        ids.truncate(TOKEN_CAP);
    }
    proof {
        if old(ids)@.len() <= TOKEN_CAP {
            assert(ids@ =~= old(ids)@);
        }
    }
}

/// The greedy decode loop: seed with `start_token`, then repeatedly ask the
/// scorer, apply the repetition guard, take the arg-max, and stop at the end
/// token or when the step budget runs out. A scorer failure (or an empty
/// score vector) aborts generation, returning what was produced so far.
///
/// The returned sequence always holds the seed plus at most `max_steps`
/// generated tokens, and never the end token.
pub fn generate<S: ScoreSource>(
    source: &mut S,
    max_steps: usize,
    start_token: usize,
    end_token: usize,
) -> (r: Vec<usize>)
    ensures
        1 <= r@.len() <= max_steps + 1,
        r@[0] == start_token,
        forall|i: int| 1 <= i < r@.len() ==> r@[i] != end_token,
{
    let mut tokens: Vec<usize> = Vec::new();
    tokens.push(start_token);
    let mut step: usize = 0;
    while step < max_steps
        invariant
            step <= max_steps,
            1 <= tokens@.len() <= step + 1,
            tokens@[0] == start_token,
            forall|i: int| 1 <= i < tokens@.len() ==> tokens@[i] != end_token,
        decreases max_steps - step,
    {
        let scores_opt = source.next_scores(&tokens);
        match scores_opt {
            None => {
                return tokens;
            },
            Some(mut scores) => {
                if scores.len() == 0 {
                    return tokens;
                }
                clamp_scores(&mut scores);
                guard::penalize(&mut scores, &tokens);
                if scores.len() == 0 {
                    return tokens;
                }
                let next = argmax(&scores);
                if next == end_token {
                    return tokens;
                }
                tokens.push(next);
            },
        }
        step = step + 1;
    }
    tokens
}

/// The decode loop for models whose pad token doubles as the start token:
/// plain greedy arg-max with no repetition guard, stopping at the end token
/// *or* the pad token, appending neither. Everything else is as in
/// [`generate`]: a scorer failure or empty score vector aborts generation,
/// and the result holds the seed plus at most `max_steps` generated tokens.
pub fn generate_with_pad<S: ScoreSource>(
    source: &mut S,
    max_steps: usize,
    start_token: usize,
    end_token: usize,
    pad_token: usize,
) -> (r: Vec<usize>)
    ensures
        1 <= r@.len() <= max_steps + 1,
        r@[0] == start_token,
        forall|i: int| 1 <= i < r@.len() ==> r@[i] != end_token && r@[i] != pad_token,
{
    let mut tokens: Vec<usize> = Vec::new();
    tokens.push(start_token);
    let mut step: usize = 0;
    while step < max_steps
        invariant
            step <= max_steps,
            1 <= tokens@.len() <= step + 1,
            tokens@[0] == start_token,
            forall|i: int|
                1 <= i < tokens@.len() ==> tokens@[i] != end_token && tokens@[i] != pad_token,
        decreases max_steps - step,
    {
        let scores_opt = source.next_scores(&tokens);
        match scores_opt {
            None => {
                return tokens;
            },
            Some(scores) => {
                if scores.len() == 0 {
                    return tokens;
                }
                let next = argmax(&scores);
                if next == end_token || next == pad_token {
                    return tokens;
                }
                tokens.push(next);
            },
        }
        step = step + 1;
    }
    tokens
}

/// Drop the seed token before detokenization: the first token of a
/// generated sequence is the start token, not model output.
pub fn strip_seed(tokens: &Vec<usize>) -> (r: Vec<usize>)
    ensures
        r@ == if tokens@.len() >= 1 {
            tokens@.subrange(1, tokens@.len() as int)
        } else {
            tokens@
        },
{
    let mut r: Vec<usize> = Vec::new();
    if tokens.len() == 0 {
        proof {
            assert(r@ =~= tokens@);
        }
        return r;
    }
    let mut i: usize = 1;
    while i < tokens.len()
        invariant
            1 <= i <= tokens@.len(),
            r@ == tokens@.subrange(1, i as int),
        decreases tokens@.len() - i,
    {
        r.push(tokens[i]);
        proof {
            assert(r@ =~= tokens@.subrange(1, i + 1));
        }
        i = i + 1;
    }
    r
}

} // verus!
