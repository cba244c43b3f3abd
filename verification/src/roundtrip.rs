//! The round-trip law of the aligner: applying the spans that
//! [`crate::align::JSONSuggestion::find_multiple_diffs`] returns to the
//! original text, in their ascending-offset order with exact running offset
//! adjustment, yields a text with exactly the corrected text's words.
//!
//! The proof rests on a characterization of word spans: a span list that is
//! in bounds, strictly ordered, space-free inside and space-covered outside
//! is *the* word span list of the text. Splicing a word (replacing,
//! deleting, or appending one) then reshapes the span list predictably.

use vstd::prelude::*;
use crate::textutil::{
    is_space_char, skip_spaces, scan_word, word_spans, word_spans_from, words_of,
    lemma_skip_spaces, lemma_scan_word, lemma_word_spans_from,
};
use crate::align::{
    spec_diffs, sub_edits, del_edits, ins_edit, ins_rep, rephrase_edit, min_len, is_rewrite,
    EditModel,
};
use crate::pipeline::{apply_from, suggestion_triples, sort_by_offset, insert_by_offset, off_lt, materialized_suggestions};

verus! {

/// Position `m` lies inside one of the spans.
pub open spec fn in_some_span(sp: Seq<(int, int)>, m: int) -> bool {
    exists|t: int| 0 <= t < sp.len() && (#[trigger] sp[t]).0 <= m < sp[t].1
}

/// A span list that word-span characterization accepts for `z` from `p` on.
pub open spec fn describes_spans(z: Seq<char>, p: int, e: Seq<(int, int)>) -> bool {
    &&& forall|t: int| 0 <= t < e.len() ==> p <= (#[trigger] e[t]).0 < e[t].1 <= z.len()
    &&& forall|t: int, m: int|
        #![trigger e[t], z[m]]
        0 <= t < e.len() && e[t].0 <= m < e[t].1 ==> !is_space_char(z[m])
    &&& forall|t1: int, t2: int|
        0 <= t1 < t2 < e.len() ==> (#[trigger] e[t1]).1 < (#[trigger] e[t2]).0
    &&& forall|m: int| p <= m < z.len() && !in_some_span(e, m) ==> is_space_char(#[trigger] z[m])
}

proof fn lemma_skip_to(x: Seq<char>, p: int, j: int)
    requires
        0 <= p <= j <= x.len(),
        forall|m: int| p <= m < j ==> is_space_char(#[trigger] x[m]),
        j == x.len() || !is_space_char(x[j]),
    ensures
        skip_spaces(x, p) == j,
    decreases j - p,
{
    if p < j {
        lemma_skip_to(x, p + 1, j);
    }
}

proof fn lemma_scan_to(x: Seq<char>, p: int, j: int)
    requires
        0 <= p <= j <= x.len(),
        forall|m: int| p <= m < j ==> !is_space_char(#[trigger] x[m]),
        j == x.len() || is_space_char(x[j]),
    ensures
        scan_word(x, p) == j,
    decreases j - p,
{
    if p < j {
        lemma_scan_to(x, p + 1, j);
    }
}

/// Uniqueness: a list that satisfies [`describes_spans`] is the word span
/// list.
proof fn lemma_spans_unique(z: Seq<char>, p: int, e: Seq<(int, int)>)
    requires
        0 <= p <= z.len(),
        describes_spans(z, p, e),
    ensures
        word_spans_from(z, p) == e,
    decreases e.len(),
{
    if e.len() == 0 {
        assert forall|m: int| p <= m < z.len() implies is_space_char(z[m]) by {
            assert(!in_some_span(e, m));
        }
        lemma_skip_to(z, p, z.len() as int);
        assert(word_spans_from(z, p) =~= e);
    } else {
        let a = e[0].0;
        let b = e[0].1;
        assert forall|m: int| p <= m < a implies is_space_char(z[m]) by {
            assert forall|t: int| 0 <= t < e.len() implies !((#[trigger] e[t]).0 <= m < e[t].1) by {
                if t > 0 {
                    assert(e[0].1 < e[t].0);
                }
            }
            assert(!in_some_span(e, m));
        }
        lemma_skip_to(z, p, a);
        assert(b == z.len() || is_space_char(z[b])) by {
            if b < z.len() {
                assert forall|t: int| 0 <= t < e.len() implies !((#[trigger] e[t]).0 <= b < e[t].1) by {
                    if t > 0 {
                        assert(e[0].1 < e[t].0);
                    }
                }
                assert(!in_some_span(e, b));
            }
        }
        lemma_scan_to(z, a, b);
        let rest = e.drop_first();
        assert forall|m: int| b <= m < z.len() && !in_some_span(rest, m) implies is_space_char(
            z[m],
        ) by {
            assert forall|t: int| 0 <= t < e.len() implies !((#[trigger] e[t]).0 <= m < e[t].1) by {
                if t == 0 {
                    assert(m >= e[0].1);
                } else {
                    assert(rest[t - 1] == e[t]);
                    assert(!(rest[t - 1].0 <= m < rest[t - 1].1));
                }
            }
            assert(!in_some_span(e, m));
        }
        assert(describes_spans(z, b, rest)) by {
            assert(forall|t: int| 0 <= t < rest.len() ==> (#[trigger] rest[t]) == e[t + 1]);
        }
        lemma_spans_unique(z, b, rest);
        assert(word_spans_from(z, p) =~= seq![(a, b)] + rest);
        assert(seq![(a, b)] + rest =~= e);
    }
}

/// The word span list itself satisfies its characterization.
proof fn lemma_spans_describe(z: Seq<char>, p: int)
    requires
        0 <= p <= z.len(),
    ensures
        describes_spans(z, p, word_spans_from(z, p)),
    decreases z.len() - p,
{
    lemma_word_spans_from(z, p);
    lemma_skip_spaces(z, p);
    let j = skip_spaces(z, p);
    let e = word_spans_from(z, p);
    if j >= z.len() {
        assert forall|m: int| p <= m < z.len() && !in_some_span(e, m) implies is_space_char(
            z[m],
        ) by {}
    } else {
        lemma_scan_word(z, j);
        let k = scan_word(z, j);
        lemma_spans_describe(z, k);
        let tail = word_spans_from(z, k);
        assert forall|m: int| p <= m < z.len() && !in_some_span(e, m) implies is_space_char(
            z[m],
        ) by {
            if m < j {
            } else if m < k {
                assert(e[0] == (j, k));
                assert(in_some_span(e, m));
            } else {
                assert forall|t: int| 0 <= t < tail.len() implies !((#[trigger] tail[t]).0 <= m < tail[t].1) by {
                    assert(e[t + 1] == tail[t]);
                    assert(!(e[t + 1].0 <= m < e[t + 1].1));
                }
                assert(!in_some_span(tail, m));
            }
        }
    }
}


/// Replacing word `k` of `y` by the non-empty space-free word `w` keeps the
/// word structure: earlier spans stay, span `k` takes `w`'s length, later
/// spans shift by the length difference, and the words are updated at `k`.
proof fn lemma_splice(y: Seq<char>, k: int, w: Seq<char>)
    requires
        0 <= k < word_spans(y).len(),
        w.len() > 0,
        forall|t: int| 0 <= t < w.len() ==> !is_space_char(#[trigger] w[t]),
    ensures
        ({
            let s = word_spans(y);
            let a = s[k].0;
            let b = s[k].1;
            let z = y.subrange(0, a) + w + y.subrange(b, y.len() as int);
            let delta = w.len() - (b - a);
            &&& word_spans(z).len() == s.len()
            &&& forall|t: int| 0 <= t < k ==> word_spans(z)[t] == s[t]
            &&& word_spans(z)[k] == (a, a + w.len())
            &&& forall|t: int|
                k < t < s.len() ==> word_spans(z)[t] == ((#[trigger] s[t]).0 + delta, s[t].1 + delta)
            &&& words_of(z) == words_of(y).update(k, w)
        }),
{
    lemma_spans_describe(y, 0);
    let s = word_spans(y);
    let a = s[k].0;
    let b = s[k].1;
    let z = y.subrange(0, a) + w + y.subrange(b, y.len() as int);
    let delta = w.len() - (b - a);
    let e = Seq::new(
        s.len(),
        |t: int|
            if t < k {
                s[t]
            } else if t == k {
                (a, a + w.len())
            } else {
                (s[t].0 + delta, s[t].1 + delta)
            },
    );
    assert(z.len() == y.len() + delta);
    assert(forall|m: int| 0 <= m < a ==> z[m] == y[m]);
    assert(forall|m: int| a <= m < a + w.len() ==> z[m] == w[m - a]);
    assert(forall|m: int| a + w.len() <= m < z.len() ==> z[m] == y[m - delta]);
    assert(forall|t: int| 0 <= t < k ==> (#[trigger] s[t]).1 < a) by {
        assert(forall|t: int| 0 <= t < k ==> (#[trigger] s[t]).1 < s[k].0);
    }
    assert(forall|t: int| k < t < s.len() ==> b < (#[trigger] s[t]).0) by {
        assert(forall|t: int| k < t < s.len() ==> s[k].1 < (#[trigger] s[t]).0);
    }
    assert(describes_spans(z, 0, e)) by {
        assert forall|t: int| 0 <= t < e.len() implies 0 <= (#[trigger] e[t]).0 < e[t].1
            <= z.len() by {
            if t < k {
                assert(s[t].1 < a);
            } else if t > k {
                assert(b < s[t].0);
            }
        }
        assert forall|t: int, m: int|
            #![trigger e[t], z[m]]
            0 <= t < e.len() && e[t].0 <= m < e[t].1 implies !is_space_char(z[m]) by {
            if t < k {
                assert(z[m] == y[m]);
            } else if t == k {
                assert(z[m] == w[m - a]);
            } else {
                assert(b < s[t].0);
                assert(z[m] == y[m - delta]);
            }
        }
        assert forall|t1: int, t2: int| 0 <= t1 < t2 < e.len() implies (#[trigger] e[t1]).1
            < (#[trigger] e[t2]).0 by {
            assert(s[t1].1 < s[t2].0);
            if t1 < k && t2 > k {
                assert(s[t1].1 < s[k].0);
            }
            if t1 == k {
                assert(s[k].1 < s[t2].0);
            }
        }
        assert forall|m: int| 0 <= m < z.len() && !in_some_span(e, m) implies is_space_char(
            #[trigger] z[m],
        ) by {
            if m < a {
                assert forall|t: int| 0 <= t < s.len() implies !((#[trigger] s[t]).0 <= m
                    < s[t].1) by {
                    if t < k {
                        if s[t].0 <= m < s[t].1 {
                            assert(e[t] == s[t]);
                            assert(in_some_span(e, m));
                        }
                    } else if t == k {
                        assert(s[k].0 == a);
                    } else {
                        assert(b < s[t].0);
                    }
                }
                assert(!in_some_span(s, m));
                assert(z[m] == y[m]);
            } else if m < a + w.len() {
                assert(e[k].0 <= m < e[k].1);
                assert(in_some_span(e, m));
            } else {
                let m2 = m - delta;
                assert(b <= m2 < y.len());
                assert forall|t: int| 0 <= t < s.len() implies !((#[trigger] s[t]).0 <= m2
                    < s[t].1) by {
                    if t < k {
                        assert(s[t].1 < a <= b);
                    } else if t == k {
                    } else {
                        if s[t].0 <= m2 < s[t].1 {
                            assert(e[t] == (s[t].0 + delta, s[t].1 + delta));
                            assert(e[t].0 <= m < e[t].1);
                            assert(in_some_span(e, m));
                        }
                    }
                }
                assert(!in_some_span(s, m2));
                assert(z[m] == y[m2]);
            }
        }
    }
    lemma_spans_unique(z, 0, e);
    assert forall|t: int| 0 <= t < e.len() implies #[trigger] words_of(z)[t] == words_of(
        y,
    ).update(k, w)[t] by {
        assert(words_of(z)[t] == z.subrange(e[t].0, e[t].1));
        assert(words_of(y)[t] == y.subrange(s[t].0, s[t].1));
        if t < k {
            assert(s[t].1 < a);
            assert(z.subrange(e[t].0, e[t].1) =~= y.subrange(s[t].0, s[t].1));
        } else if t == k {
            assert(z.subrange(a, a + w.len()) =~= w);
        } else {
            assert(b < s[t].0);
            assert(z.subrange(e[t].0, e[t].1) =~= y.subrange(s[t].0, s[t].1));
        }
    }
    assert(words_of(z) =~= words_of(y).update(k, w));
}

/// Deleting word `k` of `y` (replacing its span by nothing) removes exactly
/// that word: earlier spans stay, later spans shift left by the word's
/// length.
proof fn lemma_delete_word(y: Seq<char>, k: int)
    requires
        0 <= k < word_spans(y).len(),
    ensures
        ({
            let s = word_spans(y);
            let a = s[k].0;
            let b = s[k].1;
            let z = y.subrange(0, a) + y.subrange(b, y.len() as int);
            let delta = a - b;
            &&& word_spans(z).len() == s.len() - 1
            &&& forall|t: int| 0 <= t < k ==> word_spans(z)[t] == s[t]
            &&& forall|t: int|
                k <= t < s.len() - 1 ==> word_spans(z)[t] == (
                    (#[trigger] s[t + 1]).0 + delta,
                    s[t + 1].1 + delta,
                )
            &&& words_of(z) == words_of(y).remove(k)
        }),
{
    lemma_spans_describe(y, 0);
    let s = word_spans(y);
    let a = s[k].0;
    let b = s[k].1;
    let z = y.subrange(0, a) + y.subrange(b, y.len() as int);
    let delta = a - b;
    let e = Seq::new(
        (s.len() - 1) as nat,
        |t: int|
            if t < k {
                s[t]
            } else {
                (s[t + 1].0 + delta, s[t + 1].1 + delta)
            },
    );
    assert(z.len() == y.len() + delta);
    assert(forall|m: int| 0 <= m < a ==> z[m] == y[m]);
    assert(forall|m: int| a <= m < z.len() ==> z[m] == y[m - delta]);
    assert(forall|t: int| 0 <= t < k ==> (#[trigger] s[t]).1 < a) by {
        assert(forall|t: int| 0 <= t < k ==> (#[trigger] s[t]).1 < s[k].0);
    }
    assert(forall|t: int| k < t < s.len() ==> b < (#[trigger] s[t]).0) by {
        assert(forall|t: int| k < t < s.len() ==> s[k].1 < (#[trigger] s[t]).0);
    }
    assert(describes_spans(z, 0, e)) by {
        assert forall|t: int| 0 <= t < e.len() implies 0 <= (#[trigger] e[t]).0 < e[t].1
            <= z.len() by {
            if t < k {
                assert(s[t].1 < a);
            } else {
                assert(b < s[t + 1].0);
            }
        }
        assert forall|t: int, m: int|
            #![trigger e[t], z[m]]
            0 <= t < e.len() && e[t].0 <= m < e[t].1 implies !is_space_char(z[m]) by {
            if t < k {
                assert(z[m] == y[m]);
            } else {
                assert(b < s[t + 1].0);
                assert(z[m] == y[m - delta]);
            }
        }
        assert forall|t1: int, t2: int| 0 <= t1 < t2 < e.len() implies (#[trigger] e[t1]).1
            < (#[trigger] e[t2]).0 by {
            if t1 < k && t2 < k {
                assert(s[t1].1 < s[t2].0);
            } else if t1 < k {
                assert(s[t1].1 < a <= b < s[t2 + 1].0);
            } else {
                assert(s[t1 + 1].1 < s[t2 + 1].0);
            }
        }
        assert forall|m: int| 0 <= m < z.len() && !in_some_span(e, m) implies is_space_char(
            #[trigger] z[m],
        ) by {
            if m < a {
                assert forall|t: int| 0 <= t < s.len() implies !((#[trigger] s[t]).0 <= m
                    < s[t].1) by {
                    if t < k {
                        if s[t].0 <= m < s[t].1 {
                            assert(e[t] == s[t]);
                            assert(in_some_span(e, m));
                        }
                    } else if t == k {
                        assert(s[k].0 == a);
                    } else {
                        assert(b < s[t].0);
                    }
                }
                assert(!in_some_span(s, m));
                assert(z[m] == y[m]);
            } else {
                let m2 = m - delta;
                assert(b <= m2 < y.len());
                assert forall|t: int| 0 <= t < s.len() implies !((#[trigger] s[t]).0 <= m2
                    < s[t].1) by {
                    if t < k {
                        assert(s[t].1 < a <= b);
                    } else if t == k {
                    } else {
                        if s[t].0 <= m2 < s[t].1 {
                            assert(e[t - 1] == (s[t].0 + delta, s[t].1 + delta));
                            assert(e[t - 1].0 <= m < e[t - 1].1);
                            assert(in_some_span(e, m));
                        }
                    }
                }
                assert(!in_some_span(s, m2));
                assert(z[m] == y[m2]);
            }
        }
    }
    lemma_spans_unique(z, 0, e);
    assert forall|t: int| 0 <= t < e.len() implies #[trigger] words_of(z)[t] == words_of(
        y,
    ).remove(k)[t] by {
        assert(words_of(z)[t] == z.subrange(e[t].0, e[t].1));
        if t < k {
            assert(s[t].1 < a);
            assert(words_of(y)[t] == y.subrange(s[t].0, s[t].1));
            assert(z.subrange(e[t].0, e[t].1) =~= y.subrange(s[t].0, s[t].1));
        } else {
            assert(b < s[t + 1].0);
            assert(words_of(y)[t + 1] == y.subrange(s[t + 1].0, s[t + 1].1));
            assert(z.subrange(e[t].0, e[t].1) =~= y.subrange(s[t + 1].0, s[t + 1].1));
        }
    }
    assert(words_of(z) =~= words_of(y).remove(k));
}

/// Appending a space and a non-empty space-free word to `y` appends exactly
/// that word: existing spans stay, one span is added at the end.
proof fn lemma_append_spaced_word(y: Seq<char>, w: Seq<char>)
    requires
        w.len() > 0,
        forall|t: int| 0 <= t < w.len() ==> !is_space_char(#[trigger] w[t]),
    ensures
        words_of(y + seq![' '] + w) == words_of(y).push(w),
        word_spans(y + seq![' '] + w) == word_spans(y).push(
            (y.len() + 1int, y.len() + 1 + w.len() as int),
        ),
{
    lemma_spans_describe(y, 0);
    lemma_word_spans_from(y, 0);
    let s = word_spans(y);
    let n = y.len() as int;
    let z = y + seq![' '] + w;
    let e = s.push((n + 1, n + 1 + w.len()));
    assert(z.len() == n + 1 + w.len());
    assert(forall|m: int| 0 <= m < n ==> z[m] == y[m]);
    assert(z[n] == ' ');
    assert(forall|m: int| n + 1 <= m < z.len() ==> z[m] == w[m - (n + 1)]);
    assert(describes_spans(z, 0, e)) by {
        assert forall|t: int| 0 <= t < e.len() implies 0 <= (#[trigger] e[t]).0 < e[t].1
            <= z.len() by {
            if t < s.len() {
                assert(e[t] == s[t]);
            }
        }
        assert forall|t: int, m: int|
            #![trigger e[t], z[m]]
            0 <= t < e.len() && e[t].0 <= m < e[t].1 implies !is_space_char(z[m]) by {
            if t < s.len() {
                assert(e[t] == s[t]);
                assert(z[m] == y[m]);
            } else {
                assert(z[m] == w[m - (n + 1)]);
            }
        }
        assert forall|t1: int, t2: int| 0 <= t1 < t2 < e.len() implies (#[trigger] e[t1]).1
            < (#[trigger] e[t2]).0 by {
            if t2 < s.len() {
                assert(s[t1].1 < s[t2].0);
            } else {
                assert(e[t1] == s[t1]);
                assert(s[t1].1 <= n);
            }
        }
        assert forall|m: int| 0 <= m < z.len() && !in_some_span(e, m) implies is_space_char(
            #[trigger] z[m],
        ) by {
            if m < n {
                assert forall|t: int| 0 <= t < s.len() implies !((#[trigger] s[t]).0 <= m
                    < s[t].1) by {
                    if s[t].0 <= m < s[t].1 {
                        assert(e[t] == s[t]);
                        assert(in_some_span(e, m));
                    }
                }
                assert(!in_some_span(s, m));
                assert(z[m] == y[m]);
            } else if m == n {
            } else {
                assert(e[s.len() as int].0 <= m < e[s.len() as int].1);
                assert(in_some_span(e, m));
            }
        }
    }
    lemma_spans_unique(z, 0, e);
    assert forall|t: int| 0 <= t < e.len() implies #[trigger] words_of(z)[t] == words_of(
        y,
    ).push(w)[t] by {
        assert(words_of(z)[t] == z.subrange(e[t].0, e[t].1));
        if t < s.len() {
            assert(e[t] == s[t]);
            assert(s[t].1 <= n);
            assert(words_of(y)[t] == y.subrange(s[t].0, s[t].1));
            assert(z.subrange(e[t].0, e[t].1) =~= y.subrange(s[t].0, s[t].1));
        } else {
            assert(z.subrange(n + 1, n + 1 + w.len()) =~= w);
        }
    }
    assert(words_of(z) =~= words_of(y).push(w));
}


/// [`apply_from`] together with its final drift.
pub open spec fn apply_state(
    cur: Seq<char>,
    ts: Seq<(int, int, Seq<char>)>,
    i: int,
    drift: int,
) -> (Seq<char>, int)
    decreases ts.len() - i when i >= 0
{
    if i >= ts.len() {
        (cur, drift)
    } else {
        let a = ts[i].0 + drift;
        let b = a + ts[i].1;
        if 0 <= a && b <= cur.len() {
            apply_state(
                cur.subrange(0, a) + ts[i].2 + cur.subrange(b, cur.len() as int),
                ts,
                i + 1,
                drift + ts[i].2.len() - ts[i].1,
            )
        } else {
            apply_state(cur, ts, i + 1, drift)
        }
    }
}

proof fn lemma_apply_state_is_apply_from(
    cur: Seq<char>,
    ts: Seq<(int, int, Seq<char>)>,
    i: int,
    drift: int,
)
    requires
        i >= 0,
    ensures
        apply_state(cur, ts, i, drift).0 == apply_from(cur, ts, i, drift),
    decreases ts.len() - i,
{
    if i < ts.len() {
        let a = ts[i].0 + drift;
        let b = a + ts[i].1;
        if 0 <= a && b <= cur.len() {
            lemma_apply_state_is_apply_from(
                cur.subrange(0, a) + ts[i].2 + cur.subrange(b, cur.len() as int),
                ts,
                i + 1,
                drift + ts[i].2.len() - ts[i].1,
            );
        } else {
            lemma_apply_state_is_apply_from(cur, ts, i + 1, drift);
        }
    }
}

proof fn lemma_apply_state_shift(
    cur: Seq<char>,
    a: Seq<(int, int, Seq<char>)>,
    b: Seq<(int, int, Seq<char>)>,
    j: int,
    drift: int,
)
    requires
        0 <= j,
    ensures
        apply_state(cur, a + b, a.len() + j, drift) == apply_state(cur, b, j, drift),
    decreases b.len() - j,
{
    let ts = a + b;
    if j < b.len() {
        assert(ts[a.len() + j] == b[j]);
        let x = b[j].0 + drift;
        let y = x + b[j].1;
        if 0 <= x && y <= cur.len() {
            lemma_apply_state_shift(
                cur.subrange(0, x) + b[j].2 + cur.subrange(y, cur.len() as int),
                a,
                b,
                j + 1,
                drift + b[j].2.len() - b[j].1,
            );
        } else {
            lemma_apply_state_shift(cur, a, b, j + 1, drift);
        }
    }
}

proof fn lemma_apply_state_append(
    cur: Seq<char>,
    a: Seq<(int, int, Seq<char>)>,
    b: Seq<(int, int, Seq<char>)>,
    i: int,
    drift: int,
)
    requires
        0 <= i <= a.len(),
    ensures
        apply_state(cur, a + b, i, drift) == apply_state(
            apply_state(cur, a, i, drift).0,
            b,
            0,
            apply_state(cur, a, i, drift).1,
        ),
    decreases a.len() - i,
{
    let ts = a + b;
    if i == a.len() {
        lemma_apply_state_shift(cur, a, b, 0, drift);
    } else {
        assert(ts[i] == a[i]);
        let x = a[i].0 + drift;
        let y = x + a[i].1;
        if 0 <= x && y <= cur.len() {
            lemma_apply_state_append(
                cur.subrange(0, x) + a[i].2 + cur.subrange(y, cur.len() as int),
                a,
                b,
                i + 1,
                drift + a[i].2.len() - a[i].1,
            );
        } else {
            lemma_apply_state_append(cur, a, b, i + 1, drift);
        }
    }
}

/// The edit triples of the word substitutions for positions `[k, m)`.
pub open spec fn sub_triples_from(o: Seq<char>, c: Seq<char>, k: int) -> Seq<(int, int, Seq<char>)>
    decreases min_len(words_of(o), words_of(c)) - k when k >= 0
{
    let m = min_len(words_of(o), words_of(c));
    if k >= m {
        Seq::empty()
    } else {
        (if words_of(o)[k] != words_of(c)[k] {
            seq![(word_spans(o)[k].0, word_spans(o)[k].1 - word_spans(o)[k].0, words_of(c)[k])]
        } else {
            Seq::empty()
        }) + sub_triples_from(o, c, k + 1)
    }
}

/// The edit triples of the trailing deletions for word positions `[k, |W|)`.
pub open spec fn del_triples_from(o: Seq<char>, c: Seq<char>, k: int) -> Seq<(int, int, Seq<char>)>
    decreases words_of(o).len() - k when k >= 0
{
    if k >= words_of(o).len() {
        Seq::empty()
    } else {
        seq![
            (
                word_spans(o)[k].0,
                word_spans(o)[k].1 - word_spans(o)[k].0,
                Seq::<char>::empty(),
            ),
        ] + del_triples_from(o, c, k + 1)
    }
}

proof fn lemma_suggestion_triples_prefix(e1: Seq<EditModel>, e2: Seq<EditModel>, i: int)
    requires
        0 <= i <= e1.len(),
        i <= e2.len(),
        forall|q: int| 0 <= q < i ==> e1[q] == e2[q],
    ensures
        suggestion_triples(e1, i) == suggestion_triples(e2, i),
    decreases i,
{
    if i > 0 {
        lemma_suggestion_triples_prefix(e1, e2, i - 1);
    }
}

proof fn lemma_suggestion_triples_concat(a: Seq<EditModel>, b: Seq<EditModel>)
    ensures
        suggestion_triples(a + b, a.len() + b.len() as int) == suggestion_triples(a, a.len() as int)
            + suggestion_triples(b, b.len() as int),
    decreases b.len(),
{
    if b.len() == 0 {
        assert(a + b =~= a);
        assert(suggestion_triples(b, 0) =~= Seq::<(int, int, Seq<char>)>::empty());
        assert(suggestion_triples(a + b, a.len() + b.len() as int) =~= suggestion_triples(
            a,
            a.len() as int,
        ) + suggestion_triples(b, b.len() as int));
    } else {
        lemma_suggestion_triples_concat(a, b.drop_last());
        assert(a + b.drop_last() =~= (a + b).drop_last());
        assert((a + b)[a.len() + b.len() - 1] == b.last());
        lemma_suggestion_triples_prefix(a + b, a + b.drop_last(), a.len() + b.len() - 1 as int);
        lemma_suggestion_triples_prefix(b, b.drop_last(), b.len() - 1 as int);
        assert(suggestion_triples(a + b, a.len() + b.len() as int) =~= suggestion_triples(
            a,
            a.len() as int,
        ) + suggestion_triples(b, b.len() as int));
    }
}

proof fn lemma_sub_edit_triples(o: Seq<char>, c: Seq<char>, i: int)
    requires
        0 <= i,
    ensures
        suggestion_triples(sub_edits(o, c, i), sub_edits(o, c, i).len() as int)
            == sub_triples_upto(o, c, i),
    decreases i,
{
    if i > 0 {
        lemma_sub_edit_triples(o, c, i - 1);
        let prev = sub_edits(o, c, i - 1);
        if words_of(o)[i - 1] != words_of(c)[i - 1] {
            let e = sub_edits(o, c, i).last();
            assert(sub_edits(o, c, i) =~= prev.push(e));
            assert(prev.push(e).drop_last() =~= prev);
            assert(e.replacements.len() > 0);
            lemma_suggestion_triples_prefix(prev.push(e), prev, prev.len() as int);
            assert(suggestion_triples(sub_edits(o, c, i), sub_edits(o, c, i).len() as int)
                =~= sub_triples_upto(o, c, i));
        } else {
            assert(sub_edits(o, c, i) =~= prev);
            assert(sub_triples_upto(o, c, i) =~= sub_triples_upto(o, c, i - 1));
        }
    }
}

/// The substitution triples for positions `[0, i)`, built from the left.
pub open spec fn sub_triples_upto(o: Seq<char>, c: Seq<char>, i: int) -> Seq<(int, int, Seq<char>)>
    decreases i when i >= 0
{
    if i <= 0 {
        Seq::empty()
    } else {
        sub_triples_upto(o, c, i - 1) + (if words_of(o)[i - 1] != words_of(c)[i - 1] {
            seq![
                (
                    word_spans(o)[i - 1].0,
                    word_spans(o)[i - 1].1 - word_spans(o)[i - 1].0,
                    words_of(c)[i - 1],
                ),
            ]
        } else {
            Seq::empty()
        })
    }
}

proof fn lemma_sub_triples_front(o: Seq<char>, c: Seq<char>, k: int)
    requires
        0 <= k <= min_len(words_of(o), words_of(c)),
    ensures
        sub_triples_upto(o, c, min_len(words_of(o), words_of(c))) == sub_triples_upto(o, c, k)
            + sub_triples_from(o, c, k),
    decreases min_len(words_of(o), words_of(c)) - k,
{
    let m = min_len(words_of(o), words_of(c));
    if k == m {
        assert(sub_triples_from(o, c, k) =~= Seq::<(int, int, Seq<char>)>::empty());
        assert(sub_triples_upto(o, c, m) =~= sub_triples_upto(o, c, k) + sub_triples_from(
            o,
            c,
            k,
        ));
    } else {
        lemma_sub_triples_front(o, c, k + 1);
        assert(sub_triples_upto(o, c, k + 1) =~= sub_triples_upto(o, c, k) + (if words_of(o)[k]
            != words_of(c)[k] {
            seq![(word_spans(o)[k].0, word_spans(o)[k].1 - word_spans(o)[k].0, words_of(c)[k])]
        } else {
            Seq::empty()
        }));
        assert(sub_triples_upto(o, c, m) =~= sub_triples_upto(o, c, k) + sub_triples_from(
            o,
            c,
            k,
        ));
    }
}

/// The deletion triples for positions `[|Wc|, i)`, built from the left.
pub open spec fn del_triples_upto(o: Seq<char>, c: Seq<char>, i: int) -> Seq<(int, int, Seq<char>)>
    decreases i when i >= 0
{
    if i <= words_of(c).len() || i <= 0 {
        Seq::empty()
    } else {
        del_triples_upto(o, c, i - 1) + seq![
            (
                word_spans(o)[i - 1].0,
                word_spans(o)[i - 1].1 - word_spans(o)[i - 1].0,
                Seq::<char>::empty(),
            ),
        ]
    }
}

proof fn lemma_del_edit_triples(o: Seq<char>, c: Seq<char>, i: int)
    requires
        0 <= i,
    ensures
        suggestion_triples(del_edits(o, c, i), del_edits(o, c, i).len() as int)
            == del_triples_upto(o, c, i),
    decreases i,
{
    if i > 0 {
        lemma_del_edit_triples(o, c, i - 1);
        if i <= words_of(c).len() {
        } else {
            let prev = del_edits(o, c, i - 1);
            let e = del_edits(o, c, i).last();
            assert(del_edits(o, c, i) =~= prev.push(e));
            assert(prev.push(e).drop_last() =~= prev);
            assert(e.replacements.len() > 0);
            assert(e.replacements[0] =~= Seq::<char>::empty());
            lemma_suggestion_triples_prefix(prev.push(e), prev, prev.len() as int);
            assert(suggestion_triples(del_edits(o, c, i), del_edits(o, c, i).len() as int)
                =~= del_triples_upto(o, c, i));
        }
    }
}

proof fn lemma_del_triples_front(o: Seq<char>, c: Seq<char>, k: int)
    requires
        words_of(c).len() <= k <= words_of(o).len(),
    ensures
        del_triples_upto(o, c, words_of(o).len() as int) == del_triples_upto(o, c, k)
            + del_triples_from(o, c, k),
    decreases words_of(o).len() - k,
{
    let n = words_of(o).len() as int;
    if k == n {
        assert(del_triples_from(o, c, k) =~= Seq::<(int, int, Seq<char>)>::empty());
        assert(del_triples_upto(o, c, n) =~= del_triples_upto(o, c, k) + del_triples_from(
            o,
            c,
            k,
        ));
    } else {
        lemma_del_triples_front(o, c, k + 1);
        assert(del_triples_upto(o, c, k + 1) =~= del_triples_upto(o, c, k) + seq![
            (
                word_spans(o)[k].0,
                word_spans(o)[k].1 - word_spans(o)[k].0,
                Seq::<char>::empty(),
            ),
        ]);
        assert(del_triples_upto(o, c, n) =~= del_triples_upto(o, c, k) + del_triples_from(
            o,
            c,
            k,
        ));
    }
}


/// The words of `o` with every mismatched position below `k` replaced by the
/// corrected word.
pub open spec fn merged(o: Seq<char>, c: Seq<char>, k: int) -> Seq<Seq<char>> {
    Seq::new(
        words_of(o).len(),
        |i: int|
            if i < k && words_of(o)[i] != words_of(c)[i] {
                words_of(c)[i]
            } else {
                words_of(o)[i]
            },
    )
}

proof fn lemma_apply_subs(o: Seq<char>, c: Seq<char>, k: int, x: Seq<char>, d: int)
    requires
        0 <= k <= min_len(words_of(o), words_of(c)),
        x.len() == o.len() + d,
        words_of(x).len() == words_of(o).len(),
        forall|t: int|
            0 <= t < words_of(o).len() ==> #[trigger] words_of(x)[t] == merged(o, c, k)[t],
        forall|t: int|
            k <= t < words_of(o).len() ==> #[trigger] word_spans(x)[t] == (
                word_spans(o)[t].0 + d,
                word_spans(o)[t].1 + d,
            ),
    ensures
        ({
            let st = apply_state(x, sub_triples_from(o, c, k), 0, d);
            let m = min_len(words_of(o), words_of(c));
            &&& st.0.len() == o.len() + st.1
            &&& words_of(st.0).len() == words_of(o).len()
            &&& forall|t: int|
                0 <= t < words_of(o).len() ==> #[trigger] words_of(st.0)[t] == merged(o, c, m)[t]
            &&& forall|t: int|
                m <= t < words_of(o).len() ==> #[trigger] word_spans(st.0)[t] == (
                    word_spans(o)[t].0 + st.1,
                    word_spans(o)[t].1 + st.1,
                )
        }),
    decreases min_len(words_of(o), words_of(c)) - k,
{
    let w = words_of(o);
    let wc = words_of(c);
    let m = min_len(w, wc);
    let s = word_spans(o);
    if k == m {
        assert(sub_triples_from(o, c, k) =~= Seq::<(int, int, Seq<char>)>::empty());
        assert(forall|t: int| 0 <= t < w.len() ==> merged(o, c, k)[t] == #[trigger] merged(
            o,
            c,
            m,
        )[t]);
    } else {
        if w[k] == wc[k] {
            assert(sub_triples_from(o, c, k) =~= sub_triples_from(o, c, k + 1));
            assert forall|t: int| 0 <= t < w.len() implies #[trigger] words_of(x)[t] == merged(
                o,
                c,
                k + 1,
            )[t] by {
                assert(words_of(x)[t] == merged(o, c, k)[t]);
            }
            lemma_apply_subs(o, c, k + 1, x, d);
        } else {
            let rest = sub_triples_from(o, c, k + 1);
            let trip = (s[k].0, s[k].1 - s[k].0, wc[k]);
            let ts = sub_triples_from(o, c, k);
            assert(ts =~= seq![trip] + rest);
            let a = s[k].0 + d;
            let b = s[k].1 + d;
            assert(word_spans(x)[k] == (a, b));
            lemma_word_spans_from(x, 0);
            assert(0 <= a < b <= x.len());
            lemma_word_spans_from(c, 0);
            assert(wc[k] == c.subrange(word_spans(c)[k].0, word_spans(c)[k].1));
            assert(wc[k].len() > 0);
            assert forall|t: int| 0 <= t < wc[k].len() implies !is_space_char(
                #[trigger] wc[k][t],
            ) by {
                assert(wc[k][t] == c[word_spans(c)[k].0 + t]);
            }
            lemma_splice(x, k, wc[k]);
            let x2 = x.subrange(0, a) + wc[k] + x.subrange(b, x.len() as int);
            let d2 = d + wc[k].len() - (s[k].1 - s[k].0);
            assert(a + trip.1 == b);
            assert(apply_state(x, ts, 0, d) == apply_state(x2, ts, 1, d2)) by {
                assert(ts[0] == trip);
            }
            lemma_apply_state_shift(x2, seq![trip], rest, 0, d2);
            assert(apply_state(x2, seq![trip] + rest, 1, d2) == apply_state(x2, rest, 0, d2));
            assert(apply_state(x2, ts, 1, d2) == apply_state(x2, seq![trip] + rest, 1, d2));
            let delta = wc[k].len() - (b - a);
            assert(delta == d2 - d);
            assert(words_of(x2) == words_of(x).update(k, wc[k]));
            assert(x2.len() == o.len() + d2);
            assert forall|t: int| 0 <= t < w.len() implies #[trigger] words_of(x2)[t] == merged(
                o,
                c,
                k + 1,
            )[t] by {
                if t == k {
                } else {
                    assert(words_of(x)[t] == merged(o, c, k)[t]);
                }
            }
            assert forall|t: int| k + 1 <= t < w.len() implies #[trigger] word_spans(x2)[t] == (
                word_spans(o)[t].0 + d2,
                word_spans(o)[t].1 + d2,
            ) by {
                assert(word_spans(x)[t] == (s[t].0 + d, s[t].1 + d));
                assert(word_spans(x2)[t] == (word_spans(x)[t].0 + delta, word_spans(x)[t].1
                    + delta));
            }
            lemma_apply_subs(o, c, k + 1, x2, d2);
        }
    }
}

proof fn lemma_apply_dels(o: Seq<char>, c: Seq<char>, k: int, x: Seq<char>, d: int)
    requires
        words_of(c).len() <= k <= words_of(o).len(),
        x.len() == o.len() + d,
        words_of(x).len() == words_of(o).len() - (k - words_of(c).len()),
        forall|t: int|
            0 <= t < words_of(c).len() ==> #[trigger] words_of(x)[t] == merged(
                o,
                c,
                words_of(c).len() as int,
            )[t],
        forall|i: int|
            words_of(c).len() <= i < words_of(x).len() ==> #[trigger] word_spans(x)[i] == (
                word_spans(o)[i + (k - words_of(c).len())].0 + d,
                word_spans(o)[i + (k - words_of(c).len())].1 + d,
            ),
    ensures
        ({
            let st = apply_state(x, del_triples_from(o, c, k), 0, d);
            &&& words_of(st.0).len() == words_of(c).len()
            &&& forall|t: int|
                0 <= t < words_of(c).len() ==> #[trigger] words_of(st.0)[t] == merged(
                    o,
                    c,
                    words_of(c).len() as int,
                )[t]
        }),
    decreases words_of(o).len() - k,
{
    let w = words_of(o);
    let wc = words_of(c);
    let m = wc.len() as int;
    let s = word_spans(o);
    if k == w.len() {
        assert(del_triples_from(o, c, k) =~= Seq::<(int, int, Seq<char>)>::empty());
    } else {
        let rest = del_triples_from(o, c, k + 1);
        let trip = (s[k].0, s[k].1 - s[k].0, Seq::<char>::empty());
        let ts = del_triples_from(o, c, k);
        assert(ts =~= seq![trip] + rest);
        let a = s[k].0 + d;
        let b = s[k].1 + d;
        assert(m + (k - m) == k);
        assert(word_spans(x)[m] == (a, b));
        lemma_word_spans_from(x, 0);
        assert(m < words_of(x).len());
        assert(0 <= a < b <= x.len());
        lemma_delete_word(x, m);
        let x2 = x.subrange(0, a) + x.subrange(b, x.len() as int);
        let d2 = d - (s[k].1 - s[k].0);
        assert(a + trip.1 == b);
        assert(x.subrange(0, a) + Seq::<char>::empty() + x.subrange(b, x.len() as int) =~= x2);
        assert(apply_state(x, ts, 0, d) == apply_state(x2, ts, 1, d2)) by {
            assert(ts[0] == trip);
        }
        lemma_apply_state_shift(x2, seq![trip], rest, 0, d2);
        assert(apply_state(x2, ts, 1, d2) == apply_state(x2, rest, 0, d2));
        let delta = a - b;
        assert(delta == d2 - d);
        assert(words_of(x2) == words_of(x).remove(m));
        assert(x2.len() == o.len() + d2);
        assert forall|t: int| 0 <= t < wc.len() implies #[trigger] words_of(x2)[t] == merged(
            o,
            c,
            m,
        )[t] by {
            assert(words_of(x2)[t] == words_of(x)[t]);
        }
        assert forall|i: int| m <= i < words_of(x2).len() implies #[trigger] word_spans(x2)[i]
            == (word_spans(o)[i + (k + 1 - m)].0 + d2, word_spans(o)[i + (k + 1 - m)].1 + d2) by {
            assert(word_spans(x2)[i] == (word_spans(x)[i + 1].0 + delta, word_spans(x)[i + 1].1
                + delta));
            assert(word_spans(x)[i + 1] == (
                word_spans(o)[i + 1 + (k - m)].0 + d,
                word_spans(o)[i + 1 + (k - m)].1 + d,
            ));
            assert(i + 1 + (k - m) == i + (k + 1 - m));
        }
        lemma_apply_dels(o, c, k + 1, x2, d2);
    }
}

proof fn lemma_append_run(x: Seq<char>, cw: Seq<Seq<char>>, from: int)
    requires
        0 <= from <= cw.len(),
        forall|q: int| from <= q < cw.len() ==> (#[trigger] cw[q]).len() > 0,
        forall|q: int, t: int|
            #![trigger cw[q][t]]
            from <= q < cw.len() && 0 <= t < cw[q].len() ==> !is_space_char(cw[q][t]),
    ensures
        words_of(x + ins_rep(cw, from)) == words_of(x) + cw.subrange(from, cw.len() as int),
    decreases cw.len() - from,
{
    if from == cw.len() {
        assert(ins_rep(cw, from) =~= Seq::<char>::empty());
        assert(x + ins_rep(cw, from) =~= x);
        assert(cw.subrange(from, cw.len() as int) =~= Seq::<Seq<char>>::empty());
        assert(words_of(x) + cw.subrange(from, cw.len() as int) =~= words_of(x));
    } else {
        let x2 = x + seq![' '] + cw[from];
        assert(x + ins_rep(cw, from) =~= x2 + ins_rep(cw, from + 1));
        lemma_append_spaced_word(x, cw[from]);
        lemma_append_run(x2, cw, from + 1);
        assert(words_of(x2) + cw.subrange(from + 1, cw.len() as int) =~= words_of(x)
            + cw.subrange(from, cw.len() as int));
    }
}

/// The round-trip law: applying every span the aligner returns, in its given
/// ascending-offset order with exact running offset adjustment, yields a
/// text whose words are exactly the corrected text's words.
pub proof fn lemma_align_round_trip(o: Seq<char>, c: Seq<char>)
    ensures
        words_of(
            apply_from(
                o,
                suggestion_triples(spec_diffs(o, c), spec_diffs(o, c).len() as int),
                0,
                0,
            ),
        ) == words_of(c),
{
    let w = words_of(o);
    let wc = words_of(c);
    let m = min_len(w, wc);
    let s = word_spans(o);
    let es = spec_diffs(o, c);
    let ts = suggestion_triples(es, es.len() as int);
    lemma_apply_state_is_apply_from(o, ts, 0, 0);
    if is_rewrite(w, wc) {
        assert(es =~= seq![rephrase_edit(o, c)]);
        assert(es[0] == rephrase_edit(o, c));
        assert(es[0].replacements.len() > 0);
        assert(es[0].replacements[0] == c);
        assert(suggestion_triples(es, 0) =~= Seq::<(int, int, Seq<char>)>::empty());
        assert(ts =~= seq![(0int, o.len() as int, c)]);
        let x2 = o.subrange(0, 0) + c + o.subrange(o.len() as int, o.len() as int);
        assert(apply_state(o, ts, 0, 0) == apply_state(x2, ts, 1, c.len() - o.len()));
        assert(x2 =~= c);
    } else {
        let subs = sub_edits(o, c, m);
        let ins_part: Seq<EditModel> = if wc.len() > w.len() {
            seq![ins_edit(o, c)]
        } else {
            Seq::empty()
        };
        let del_part: Seq<EditModel> = if w.len() > wc.len() {
            del_edits(o, c, w.len() as int)
        } else {
            Seq::empty()
        };
        assert(es == subs + ins_part + del_part);
        lemma_suggestion_triples_concat(subs + ins_part, del_part);
        lemma_suggestion_triples_concat(subs, ins_part);
        lemma_sub_edit_triples(o, c, m);
        lemma_sub_triples_front(o, c, 0);
        assert(sub_triples_upto(o, c, 0) =~= Seq::<(int, int, Seq<char>)>::empty());
        let subs_t = sub_triples_from(o, c, 0);
        assert(suggestion_triples(subs, subs.len() as int) =~= subs_t);
        assert forall|t: int| 0 <= t < w.len() implies #[trigger] words_of(o)[t] == merged(
            o,
            c,
            0,
        )[t] by {}
        assert forall|t: int| 0 <= t < w.len() implies #[trigger] word_spans(o)[t] == (
            word_spans(o)[t].0 + 0,
            word_spans(o)[t].1 + 0,
        ) by {}
        lemma_apply_subs(o, c, 0, o, 0);
        let st1 = apply_state(o, subs_t, 0, 0);
        if wc.len() == w.len() {
            assert(ins_part =~= Seq::<EditModel>::empty());
            assert(del_part =~= Seq::<EditModel>::empty());
            assert(es =~= subs);
            lemma_suggestion_triples_prefix(es, subs, es.len() as int);
            assert(ts =~= subs_t);
            assert(apply_state(o, ts, 0, 0) == st1);
            assert forall|t: int| 0 <= t < wc.len() implies #[trigger] words_of(st1.0)[t]
                == wc[t] by {
                assert(words_of(st1.0)[t] == merged(o, c, m)[t]);
            }
            assert(words_of(st1.0) =~= wc);
        } else if wc.len() > w.len() {
            assert(del_part =~= Seq::<EditModel>::empty());
            assert(es =~= subs + ins_part);
            lemma_suggestion_triples_prefix(es, subs + ins_part, es.len() as int);
            let ins_t = suggestion_triples(ins_part, ins_part.len() as int);
            assert(ins_part[0] == ins_edit(o, c));
            assert(ins_part[0].replacements.len() > 0);
            assert(ins_part[0].replacements[0] == ins_rep(wc, w.len() as int));
            assert(suggestion_triples(ins_part, 0) =~= Seq::<(int, int, Seq<char>)>::empty());
            assert(ins_t =~= seq![(o.len() as int, 0int, ins_rep(wc, w.len() as int))]);
            assert(ts == suggestion_triples(subs, subs.len() as int) + ins_t);
            assert(ts =~= subs_t + ins_t);
            lemma_apply_state_append(o, subs_t, ins_t, 0, 0);
            assert(apply_state(o, subs_t + ins_t, 0, 0) == apply_state(st1.0, ins_t, 0, st1.1));
            assert(apply_state(o, ts, 0, 0) == apply_state(st1.0, ins_t, 0, st1.1));
            let a = o.len() + st1.1;
            assert(a == st1.0.len());
            let x2 = st1.0.subrange(0, a) + ins_rep(wc, w.len() as int) + st1.0.subrange(
                a,
                st1.0.len() as int,
            );
            assert(apply_state(st1.0, ins_t, 0, st1.1) == apply_state(
                x2,
                ins_t,
                1,
                st1.1 + ins_rep(wc, w.len() as int).len(),
            ));
            assert(x2 =~= st1.0 + ins_rep(wc, w.len() as int));
            lemma_word_spans_from(c, 0);
            assert forall|q: int| w.len() <= q < wc.len() implies (#[trigger] wc[q]).len()
                > 0 by {
                assert(wc[q] == c.subrange(word_spans(c)[q].0, word_spans(c)[q].1));
            }
            assert forall|q: int, t: int|
                #![trigger wc[q][t]]
                w.len() <= q < wc.len() && 0 <= t < wc[q].len() implies !is_space_char(
                wc[q][t],
            ) by {
                assert(wc[q] == c.subrange(word_spans(c)[q].0, word_spans(c)[q].1));
                assert(wc[q][t] == c[word_spans(c)[q].0 + t]);
            }
            lemma_append_run(st1.0, wc, w.len() as int);
            assert(words_of(x2) == words_of(st1.0) + wc.subrange(w.len() as int, wc.len() as int));
            assert forall|t: int| 0 <= t < w.len() implies #[trigger] words_of(st1.0)[t]
                == wc[t] by {
                assert(words_of(st1.0)[t] == merged(o, c, m)[t]);
            }
            assert(words_of(st1.0) =~= wc.subrange(0, w.len() as int));
            assert(words_of(x2) =~= wc);
        } else {
            assert(ins_part =~= Seq::<EditModel>::empty());
            assert(es =~= subs + del_part);
            assert(subs + ins_part =~= subs);
            lemma_suggestion_triples_prefix(es, subs + del_part, es.len() as int);
            lemma_suggestion_triples_concat(subs, del_part);
            lemma_del_edit_triples(o, c, w.len() as int);
            lemma_del_triples_front(o, c, wc.len() as int);
            assert(del_triples_upto(o, c, wc.len() as int) =~= Seq::<(int, int, Seq<char>)>::empty());
            let del_t = del_triples_from(o, c, wc.len() as int);
            assert(suggestion_triples(del_part, del_part.len() as int) =~= del_t);
            assert(ts == suggestion_triples(subs, subs.len() as int) + suggestion_triples(
                del_part,
                del_part.len() as int,
            ));
            assert(ts =~= subs_t + del_t);
            lemma_apply_state_append(o, subs_t, del_t, 0, 0);
            assert(apply_state(o, ts, 0, 0) == apply_state(st1.0, del_t, 0, st1.1));
            assert forall|i: int|
                wc.len() <= i < words_of(st1.0).len() implies #[trigger] word_spans(st1.0)[i]
                == (
                word_spans(o)[i + (wc.len() as int - wc.len())].0 + st1.1,
                word_spans(o)[i + (wc.len() as int - wc.len())].1 + st1.1,
            ) by {
                assert(word_spans(st1.0)[i] == (word_spans(o)[i].0 + st1.1, word_spans(o)[i].1
                    + st1.1));
                assert(i + (wc.len() as int - wc.len()) == i);
            }
            lemma_apply_dels(o, c, wc.len() as int, st1.0, st1.1);
            let st2 = apply_state(st1.0, del_t, 0, st1.1);
            assert forall|t: int| 0 <= t < wc.len() implies #[trigger] words_of(st2.0)[t]
                == wc[t] by {
                assert(words_of(st2.0)[t] == merged(o, c, wc.len() as int)[t]);
            }
            assert(words_of(st2.0) =~= wc);
        }
    }
}


/// Edit offsets never decrease along the list.
pub open spec fn sorted_triples(ts: Seq<(int, int, Seq<char>)>) -> bool {
    forall|i: int, j: int| 0 <= i < j < ts.len() ==> (#[trigger] ts[i]).0 <= (#[trigger] ts[j]).0
}

proof fn lemma_sorted_sort_identity(ts: Seq<(int, int, Seq<char>)>)
    requires
        sorted_triples(ts),
    ensures
        sort_by_offset(ts) == ts,
    decreases ts.len(),
{
    if ts.len() > 0 {
        let front = ts.drop_last();
        assert(sorted_triples(front)) by {
            assert(forall|i: int| 0 <= i < front.len() ==> front[i] == ts[i]);
        }
        lemma_sorted_sort_identity(front);
        if front.len() > 0 {
            assert(!off_lt(ts.last(), front.last())) by {
                assert(ts[front.len() - 1].0 <= ts[ts.len() - 1].0);
            }
        }
        assert(sort_by_offset(ts) =~= ts);
    }
}

proof fn lemma_sorted_concat(a: Seq<(int, int, Seq<char>)>, b: Seq<(int, int, Seq<char>)>)
    requires
        sorted_triples(a),
        sorted_triples(b),
        forall|i: int, j: int|
            0 <= i < a.len() && 0 <= j < b.len() ==> (#[trigger] a[i]).0 <= (#[trigger] b[j]).0,
    ensures
        sorted_triples(a + b),
{
    let c = a + b;
    assert forall|i: int, j: int| 0 <= i < j < c.len() implies (#[trigger] c[i]).0
        <= (#[trigger] c[j]).0 by {
        if i < a.len() && j < a.len() {
            assert(a[i].0 <= a[j].0);
        } else if i < a.len() {
            assert(a[i].0 <= b[j - a.len()].0);
        } else {
            assert(b[i - a.len()].0 <= b[j - a.len()].0);
        }
    }
}

proof fn lemma_sub_triples_sorted(o: Seq<char>, c: Seq<char>, k: int)
    requires
        0 <= k,
    ensures
        sorted_triples(sub_triples_from(o, c, k)),
        forall|i: int|
            0 <= i < sub_triples_from(o, c, k).len() ==> exists|t: int|
                k <= t < min_len(words_of(o), words_of(c)) && (#[trigger] sub_triples_from(
                    o,
                    c,
                    k,
                )[i]).0 == word_spans(o)[t].0,
    decreases min_len(words_of(o), words_of(c)) - k,
{
    let m = min_len(words_of(o), words_of(c));
    let s = word_spans(o);
    if k < m {
        lemma_sub_triples_sorted(o, c, k + 1);
        lemma_word_spans_from(o, 0);
        let rest = sub_triples_from(o, c, k + 1);
        let ts = sub_triples_from(o, c, k);
        if words_of(o)[k] != words_of(c)[k] {
            assert(ts =~= seq![(s[k].0, s[k].1 - s[k].0, words_of(c)[k])] + rest);
            assert forall|i: int| 0 <= i < ts.len() implies exists|t: int|
                k <= t < m && (#[trigger] ts[i]).0 == word_spans(o)[t].0 by {
                if i == 0 {
                    assert(k <= k < m && ts[0].0 == word_spans(o)[k].0);
                } else {
                    let t = choose|t: int|
                        k + 1 <= t < m && (#[trigger] rest[i - 1]).0 == word_spans(o)[t].0;
                    assert(k <= t < m && ts[i].0 == word_spans(o)[t].0);
                }
            }
            assert forall|i: int, j: int| 0 <= i < j < ts.len() implies (#[trigger] ts[i]).0
                <= (#[trigger] ts[j]).0 by {
                if i == 0 {
                    let t = choose|t: int|
                        k + 1 <= t < m && (#[trigger] rest[j - 1]).0 == word_spans(o)[t].0;
                    assert(s[k].1 < s[t].0);
                } else {
                    assert(rest[i - 1].0 <= rest[j - 1].0);
                }
            }
        } else {
            assert(ts =~= rest);
            assert forall|i: int| 0 <= i < ts.len() implies exists|t: int|
                k <= t < m && (#[trigger] ts[i]).0 == word_spans(o)[t].0 by {
                let t = choose|t: int|
                    k + 1 <= t < m && (#[trigger] rest[i]).0 == word_spans(o)[t].0;
                assert(k <= t < m && ts[i].0 == word_spans(o)[t].0);
            }
        }
    } else {
        assert(sub_triples_from(o, c, k) =~= Seq::<(int, int, Seq<char>)>::empty());
    }
}

proof fn lemma_del_triples_sorted(o: Seq<char>, c: Seq<char>, k: int)
    requires
        0 <= k,
    ensures
        sorted_triples(del_triples_from(o, c, k)),
        forall|i: int|
            0 <= i < del_triples_from(o, c, k).len() ==> exists|t: int|
                k <= t < words_of(o).len() && (#[trigger] del_triples_from(o, c, k)[i]).0
                    == word_spans(o)[t].0,
    decreases words_of(o).len() - k,
{
    let s = word_spans(o);
    if k < words_of(o).len() {
        lemma_del_triples_sorted(o, c, k + 1);
        lemma_word_spans_from(o, 0);
        let rest = del_triples_from(o, c, k + 1);
        let ts = del_triples_from(o, c, k);
        assert(ts =~= seq![(s[k].0, s[k].1 - s[k].0, Seq::<char>::empty())] + rest);
        assert forall|i: int| 0 <= i < ts.len() implies exists|t: int|
            k <= t < words_of(o).len() && (#[trigger] ts[i]).0 == word_spans(o)[t].0 by {
            if i == 0 {
                assert(k <= k < words_of(o).len() && ts[0].0 == word_spans(o)[k].0);
            } else {
                let t = choose|t: int|
                    k + 1 <= t < words_of(o).len() && (#[trigger] rest[i - 1]).0 == word_spans(
                        o,
                    )[t].0;
                assert(k <= t < words_of(o).len() && ts[i].0 == word_spans(o)[t].0);
            }
        }
        assert forall|i: int, j: int| 0 <= i < j < ts.len() implies (#[trigger] ts[i]).0
            <= (#[trigger] ts[j]).0 by {
            if i == 0 {
                let t = choose|t: int|
                    k + 1 <= t < words_of(o).len() && (#[trigger] rest[j - 1]).0 == word_spans(
                        o,
                    )[t].0;
                assert(s[k].1 < s[t].0);
            } else {
                assert(rest[i - 1].0 <= rest[j - 1].0);
            }
        }
    } else {
        assert(del_triples_from(o, c, k) =~= Seq::<(int, int, Seq<char>)>::empty());
    }
}

/// The aligner's edits come out in ascending-offset order.
proof fn lemma_diff_triples_sorted(o: Seq<char>, c: Seq<char>)
    ensures
        sorted_triples(suggestion_triples(spec_diffs(o, c), spec_diffs(o, c).len() as int)),
{
    let w = words_of(o);
    let wc = words_of(c);
    let m = min_len(w, wc);
    let s = word_spans(o);
    let es = spec_diffs(o, c);
    let ts = suggestion_triples(es, es.len() as int);
    lemma_word_spans_from(o, 0);
    if is_rewrite(w, wc) {
        assert(es =~= seq![rephrase_edit(o, c)]);
        assert(es[0].replacements.len() > 0);
        assert(suggestion_triples(es, 0) =~= Seq::<(int, int, Seq<char>)>::empty());
        assert(ts =~= seq![(0int, o.len() as int, c)]);
    } else {
        let subs = sub_edits(o, c, m);
        let ins_part: Seq<EditModel> = if wc.len() > w.len() {
            seq![ins_edit(o, c)]
        } else {
            Seq::empty()
        };
        let del_part: Seq<EditModel> = if w.len() > wc.len() {
            del_edits(o, c, w.len() as int)
        } else {
            Seq::empty()
        };
        assert(es == subs + ins_part + del_part);
        lemma_suggestion_triples_concat(subs + ins_part, del_part);
        lemma_suggestion_triples_concat(subs, ins_part);
        lemma_sub_edit_triples(o, c, m);
        lemma_sub_triples_front(o, c, 0);
        assert(sub_triples_upto(o, c, 0) =~= Seq::<(int, int, Seq<char>)>::empty());
        let subs_t = sub_triples_from(o, c, 0);
        assert(suggestion_triples(subs, subs.len() as int) =~= subs_t);
        lemma_sub_triples_sorted(o, c, 0);
        assert forall|i: int| 0 <= i < subs_t.len() implies (#[trigger] subs_t[i]).0
            < o.len() by {
            let t = choose|t: int| 0 <= t < m && (#[trigger] subs_t[i]).0 == word_spans(o)[t].0;
            assert(s[t].0 < s[t].1 <= o.len());
        }
        if wc.len() > w.len() {
            let ins_t = suggestion_triples(ins_part, ins_part.len() as int);
            assert(ins_part[0] == ins_edit(o, c));
            assert(ins_part[0].replacements.len() > 0);
            assert(suggestion_triples(ins_part, 0) =~= Seq::<(int, int, Seq<char>)>::empty());
            assert(ins_t =~= seq![(o.len() as int, 0int, ins_rep(wc, w.len() as int))]);
            assert(ts == suggestion_triples(subs, subs.len() as int) + ins_t);
            lemma_sorted_concat(subs_t, ins_t);
            assert(del_part =~= Seq::<EditModel>::empty());
            assert(suggestion_triples(del_part, del_part.len() as int)
                =~= Seq::<(int, int, Seq<char>)>::empty());
            assert(ts =~= subs_t + ins_t);
            assert(sorted_triples(ts));
        } else if w.len() > wc.len() {
            assert(ins_part =~= Seq::<EditModel>::empty());
            assert(subs + ins_part =~= subs);
            lemma_suggestion_triples_prefix(subs + ins_part, subs, (subs + ins_part).len() as int);
            lemma_del_edit_triples(o, c, w.len() as int);
            lemma_del_triples_front(o, c, wc.len() as int);
            assert(del_triples_upto(o, c, wc.len() as int)
                =~= Seq::<(int, int, Seq<char>)>::empty());
            let del_t = del_triples_from(o, c, wc.len() as int);
            assert(suggestion_triples(del_part, del_part.len() as int) =~= del_t);
            lemma_del_triples_sorted(o, c, wc.len() as int);
            assert forall|i: int, j: int|
                0 <= i < subs_t.len() && 0 <= j < del_t.len() implies (#[trigger] subs_t[i]).0
                <= (#[trigger] del_t[j]).0 by {
                let t1 = choose|t: int|
                    0 <= t < m && (#[trigger] subs_t[i]).0 == word_spans(o)[t].0;
                let t2 = choose|t: int|
                    wc.len() <= t < w.len() && (#[trigger] del_t[j]).0 == word_spans(o)[t].0;
                assert(s[t1].1 < s[t2].0);
            }
            lemma_sorted_concat(subs_t, del_t);
            assert(ts =~= subs_t + del_t);
            assert(sorted_triples(ts));
        } else {
            assert(ins_part =~= Seq::<EditModel>::empty());
            assert(del_part =~= Seq::<EditModel>::empty());
            assert(es =~= subs);
            lemma_suggestion_triples_prefix(es, subs, es.len() as int);
            assert(ts =~= subs_t);
            assert(sorted_triples(ts));
        }
    }
}

/// The executable round trip: materializing the aligner's suggestions onto
/// the original text yields a text whose words are exactly the corrected
/// text's words.
pub proof fn lemma_materialize_round_trip(o: Seq<char>, c: Seq<char>)
    ensures
        words_of(materialized_suggestions(o, spec_diffs(o, c))) == words_of(c),
{
    let es = spec_diffs(o, c);
    let ts = suggestion_triples(es, es.len() as int);
    lemma_diff_triples_sorted(o, c);
    lemma_sorted_sort_identity(ts);
    lemma_align_round_trip(o, c);
}

} // verus!
