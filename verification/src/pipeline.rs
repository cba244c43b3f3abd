//! Multi-stage orchestration: materializing corrections into text, chaining
//! correction stages, and assembling the final response.
//!
//! The stages themselves (a rule-based linter, generator-backed rewriters)
//! are collaborators: the caller runs them and hands their outputs in as
//! plain strings. Everything decided here — how corrections are applied to
//! the text, which stage contributes which suggestions, when the aggregate
//! multi-stage suggestion appears, and how the result is deduplicated — is
//! verified.

use vstd::prelude::*;
use crate::textutil::{
    trim_spec, trimmed, trim_eq, str_eq, words_of, word_spans, lemma_word_count_bound,
    lemma_words_nonempty, split_words, join_words, join_range, tok_texts, spaced_tail,
    strip_trailing_commas, stripped_trailing_commas, upper_char, to_upper_char, tok_matches,
};
use crate::align::{JSONSuggestion, EditModel, edit_models, spec_diffs};
use crate::correction::{
    GrammarCorrection, CorrectionModel, correction_models, LintRecord, LintModel, LintFix,
    LintFixModel, GrammarResponse, harper_correction, clamp_to, spec_dedup,
    deduplicate_corrections, calculate_stats, count_severity, ai_diffs, pairwise_disjoint,
    copy_strings,
};

verus! {

/// One plain edit against a base text: replace `length` characters at
/// `offset` with `replacement`.
pub struct EditApp {
    pub offset: usize,
    pub length: usize,
    pub replacement: String,
}

pub open spec fn edit_app_models(es: Seq<EditApp>) -> Seq<(int, int, Seq<char>)> {
    es.map(|_q: int, e: EditApp| (e.offset as int, e.length as int, e.replacement@))
}

/// Apply the edits from position `i` on to `cur`. `drift` is the running
/// offset adjustment: offsets address the original base text, while `cur`
/// has already been reshaped by the earlier edits. An edit whose adjusted
/// span does not fit the current text is skipped.
pub open spec fn apply_from(
    cur: Seq<char>,
    ts: Seq<(int, int, Seq<char>)>,
    i: int,
    drift: int,
) -> Seq<char>
    decreases ts.len() - i when i >= 0
{
    if i >= ts.len() {
        cur
    } else {
        let a = ts[i].0 + drift;
        let b = a + ts[i].1;
        if 0 <= a && b <= cur.len() {
            apply_from(
                cur.subrange(0, a) + ts[i].2 + cur.subrange(b, cur.len() as int),
                ts,
                i + 1,
                drift + ts[i].2.len() - ts[i].1,
            )
        } else {
            apply_from(cur, ts, i + 1, drift)
        }
    }
}

pub open spec fn off_lt(a: (int, int, Seq<char>), b: (int, int, Seq<char>)) -> bool {
    a.0 < b.0
}

/// Stable insertion of `x` after every edit whose offset is not greater.
pub open spec fn insert_by_offset(t: Seq<(int, int, Seq<char>)>, x: (int, int, Seq<char>))
    -> Seq<(int, int, Seq<char>)>
    decreases t.len()
{
    if t.len() == 0 {
        seq![x]
    } else if off_lt(x, t.last()) {
        insert_by_offset(t.drop_last(), x) + seq![t.last()]
    } else {
        t + seq![x]
    }
}

/// Stable insertion sort by ascending offset.
pub open spec fn sort_by_offset(s: Seq<(int, int, Seq<char>)>) -> Seq<(int, int, Seq<char>)>
    decreases s.len()
{
    if s.len() == 0 {
        Seq::empty()
    } else {
        insert_by_offset(sort_by_offset(s.drop_last()), s.last())
    }
}

proof fn lemma_insert_by_offset_at(t: Seq<(int, int, Seq<char>)>, x: (int, int, Seq<char>), p: int)
    requires
        0 <= p <= t.len(),
        forall|q: int| p <= q < t.len() ==> off_lt(x, #[trigger] t[q]),
        p == 0 || !off_lt(x, t[p - 1]),
    ensures
        insert_by_offset(t, x) =~= t.subrange(0, p) + seq![x] + t.subrange(p, t.len() as int),
    decreases t.len(),
{
    if t.len() == 0 {
    } else if off_lt(x, t.last()) {
        assert(p < t.len());
        lemma_insert_by_offset_at(t.drop_last(), x, p);
        assert(t.drop_last().subrange(0, p) =~= t.subrange(0, p));
        assert(t.drop_last().subrange(p, t.len() - 1) =~= t.subrange(p, t.len() - 1));
        assert(insert_by_offset(t, x) =~= t.subrange(0, p) + seq![x] + t.subrange(
            p,
            t.len() as int,
        ));
    } else {
        assert(p == t.len());
        assert(t.subrange(0, p) =~= t);
        assert(t.subrange(p, t.len() as int) =~= Seq::<(int, int, Seq<char>)>::empty());
    }
}

fn clone_edit(e: &EditApp) -> (r: EditApp)
    ensures
        r.offset == e.offset,
        r.length == e.length,
        r.replacement@ == e.replacement@,
{
    EditApp { offset: e.offset, length: e.length, replacement: e.replacement.clone() }
}

/// Sort the edits by ascending offset (stable) and apply them to `text` in
/// order, tracking the running offset adjustment exactly.
#[verifier::loop_isolation(false)]
pub fn apply_edit_list(text: &str, edits: &Vec<EditApp>) -> (r: String)
    ensures
        r@ == apply_from(text@, sort_by_offset(edit_app_models(edits@)), 0, 0),
{
    let mut sorted: Vec<EditApp> = Vec::new();
    let mut i: usize = 0;
    while i < edits.len()
        invariant
            i <= edits@.len(),
            edit_app_models(sorted@) == sort_by_offset(
                edit_app_models(edits@).subrange(0, i as int),
            ),
        decreases edits@.len() - i,
    {
        let x = &edits[i];
        let mut p: usize = sorted.len();
        while p > 0 && x.offset < sorted[p - 1].offset
            invariant
                p <= sorted@.len(),
                forall|q: int| p <= q < sorted@.len() ==> off_lt(
                    (x.offset as int, x.length as int, x.replacement@),
                    #[trigger] edit_app_models(sorted@)[q],
                ),
            decreases p,
        {
            p = p - 1;
        }
        let ghost pre = edit_app_models(sorted@);
        sorted.insert(p, clone_edit(x));
        proof {
            let ghost xm = (x.offset as int, x.length as int, x.replacement@);
            lemma_insert_by_offset_at(pre, xm, p as int);
            assert(edit_app_models(sorted@) =~= pre.subrange(0, p as int) + seq![xm]
                + pre.subrange(p as int, pre.len() as int));
            assert(edit_app_models(edits@).subrange(0, i + 1).drop_last()
                =~= edit_app_models(edits@).subrange(0, i as int));
            assert(edit_app_models(edits@).subrange(0, i + 1).last() == xm);
            assert(edit_app_models(sorted@) =~= sort_by_offset(
                edit_app_models(edits@).subrange(0, i + 1),
            ));
        }
        i = i + 1;
    }
    proof {
        assert(edit_app_models(edits@).subrange(0, edits@.len() as int)
            =~= edit_app_models(edits@));
    }
    let ghost ts = sort_by_offset(edit_app_models(edits@));
    let text_len = text.unicode_len();
    let mut cur: String = text.to_owned();
    let mut i: usize = 0;
    while i < sorted.len()
        invariant
            i <= sorted@.len(),
            ts == edit_app_models(sorted@),
            apply_from(cur@, ts, i as int, cur@.len() - text@.len()) == apply_from(text@, ts, 0, 0),
        decreases sorted@.len() - i,
    {
        let ghost pre = cur@;
        let e = &sorted[i];
        let cur_len = cur.as_str().unicode_len();
        let a_i: i128 = e.offset as i128 + (cur_len as i128 - text_len as i128);
        let b_i: i128 = a_i + e.length as i128;
        if 0 <= a_i && b_i <= cur_len as i128 {
            let a = a_i as usize;
            let b = b_i as usize;
            let mut next = cur.as_str().substring_char(0, a).to_owned();
            next.append(e.replacement.as_str());
            next.append(cur.as_str().substring_char(b, cur_len));
            proof {
                assert(next@ =~= pre.subrange(0, a as int) + ts[i as int].2 + pre.subrange(
                    b as int,
                    pre.len() as int,
                ));
            }
            cur = next;
        }
        i = i + 1;
    }
    cur
}

/// The edits a correction list stands for: one per correction with a
/// non-empty primary suggestion, in list order.
pub open spec fn correction_triples(ms: Seq<CorrectionModel>, i: int) -> Seq<(int, int, Seq<char>)>
    decreases i when i >= 0
{
    if i <= 0 {
        Seq::empty()
    } else {
        correction_triples(ms, i - 1) + if ms[i - 1].primary_suggestion.len() > 0 {
            seq![(ms[i - 1].offset, ms[i - 1].length, ms[i - 1].primary_suggestion)]
        } else {
            Seq::empty()
        }
    }
}

/// The text produced by applying every correction with a non-empty primary
/// suggestion to `text`, in ascending-offset order.
pub open spec fn materialized_corrections(text: Seq<char>, ms: Seq<CorrectionModel>) -> Seq<char> {
    apply_from(text, sort_by_offset(correction_triples(ms, ms.len() as int)), 0, 0)
}

/// Materialize the corrections into the corrected text.
#[verifier::loop_isolation(false)]
pub fn materialize_corrections(text: &str, corrections: &Vec<GrammarCorrection>) -> (r: String)
    ensures
        r@ == materialized_corrections(text@, correction_models(corrections@)),
{
    let ghost ms = correction_models(corrections@);
    let mut edits: Vec<EditApp> = Vec::new();
    let mut i: usize = 0;
    while i < corrections.len()
        invariant
            i <= corrections@.len(),
            edit_app_models(edits@) == correction_triples(ms, i as int),
        decreases corrections@.len() - i,
    {
        let c = &corrections[i];
        if c.primary_suggestion.as_str().unicode_len() > 0 {
            edits.push(
                EditApp {
                    offset: c.offset,
                    length: c.length,
                    replacement: c.primary_suggestion.clone(),
                },
            );
            proof {
                assert(edit_app_models(edits@) =~= correction_triples(ms, i + 1));
            }
        } else {
            proof {
                assert(correction_triples(ms, i + 1) =~= correction_triples(ms, i as int));
            }
        }
        i = i + 1;
    }
    apply_edit_list(text, &edits)
}

/// The edits a suggestion list stands for: one per suggestion that has any
/// replacement, using the first replacement, in list order.
pub open spec fn suggestion_triples(es: Seq<EditModel>, i: int) -> Seq<(int, int, Seq<char>)>
    decreases i when i >= 0
{
    if i <= 0 {
        Seq::empty()
    } else {
        suggestion_triples(es, i - 1) + if es[i - 1].replacements.len() > 0 {
            seq![(es[i - 1].offset, es[i - 1].length, es[i - 1].replacements[0])]
        } else {
            Seq::empty()
        }
    }
}

/// The text produced by applying every suggestion that has a replacement to
/// `text`, in ascending-offset order.
pub open spec fn materialized_suggestions(text: Seq<char>, es: Seq<EditModel>) -> Seq<char> {
    apply_from(text, sort_by_offset(suggestion_triples(es, es.len() as int)), 0, 0)
}

/// Materialize the suggestions into the corrected text.
#[verifier::loop_isolation(false)]
pub fn materialize_suggestions(text: &str, suggestions: &Vec<JSONSuggestion>) -> (r: String)
    ensures
        r@ == materialized_suggestions(text@, edit_models(suggestions@)),
{
    let ghost es = edit_models(suggestions@);
    let mut edits: Vec<EditApp> = Vec::new();
    let mut i: usize = 0;
    while i < suggestions.len()
        invariant
            i <= suggestions@.len(),
            edit_app_models(edits@) == suggestion_triples(es, i as int),
        decreases suggestions@.len() - i,
    {
        let s = &suggestions[i];
        if s.replacements.len() > 0 {
            edits.push(
                EditApp { offset: s.offset, length: s.length, replacement: s.replacements[0].clone() },
            );
            proof {
                assert(edit_app_models(edits@) =~= suggestion_triples(es, i + 1));
            }
        } else {
            proof {
                assert(suggestion_triples(es, i + 1) =~= suggestion_triples(es, i as int));
            }
        }
        i = i + 1;
    }
    apply_edit_list(text, &edits)
}

/// The text a stage hands to the next one: its trimmed output when that
/// output differs from the stage's input (up to whitespace), otherwise the
/// input unchanged.
pub open spec fn stage_text_spec(base: Seq<char>, out: Seq<char>) -> Seq<char> {
    if trim_spec(out) != trim_spec(base) {
        trim_spec(out)
    } else {
        base
    }
}

pub fn stage_text(base: &str, out: &str) -> (r: String)
    ensures
        r@ == stage_text_spec(base@, out@),
{
    if !trim_eq(out, base) {
        trimmed(out)
    } else {
        base.to_owned()
    }
}

/// Prefix a text with the task marker the rewrite models expect.
pub fn add_grammar_prefix(text: &str) -> (r: String)
    ensures
        r@ == "grammar: "@ + text@,
{
    let mut r = String::from_str("grammar: ");
    r.append(text);
    r
}

/// `s` without a leading task marker, if one is there.
pub open spec fn strip_prefix_spec(s: Seq<char>) -> Seq<char> {
    if s.len() >= 9 && s.subrange(0, 9) == "grammar: "@ {
        s.subrange(9, s.len() as int)
    } else {
        s
    }
}

/// Remove the task marker a rewrite model may echo back in its output.
pub fn strip_grammar_prefix(s: &str) -> (r: String)
    ensures
        r@ == strip_prefix_spec(s@),
{
    let len = s.unicode_len();
    if len >= 9 {
        let head = s.substring_char(0, 9);
        if str_eq(head, "grammar: ") {
            return s.substring_char(9, len).to_owned();
        }
    }
    s.to_owned()
}

/// Whether a stage output counts as a change: it differs from the input up
/// to surrounding whitespace and is not empty.
pub fn output_changed(text: &str, result: &str) -> (r: bool)
    ensures
        r == (trim_spec(result@) != trim_spec(text@) && result@.len() > 0),
{
    !trim_eq(result, text) && !str_is_empty(result)
}

fn str_is_empty(s: &str) -> (r: bool)
    ensures
        r == (s@.len() == 0),
{
    s.unicode_len() == 0
}


/// The views of a lint record list.
pub open spec fn lint_models(ls: Seq<LintRecord>) -> Seq<LintModel> {
    ls.map(|_q: int, l: LintRecord| l@)
}

/// The corrections of the first `i` linter findings, ids numbered from
/// `n0 + 1` on.
pub open spec fn harper_models(text: Seq<char>, lints: Seq<LintModel>, n0: int, i: int)
    -> Seq<CorrectionModel>
    decreases i when i >= 0
{
    if i <= 0 {
        Seq::empty()
    } else {
        harper_models(text, lints, n0, i - 1) + seq![
            harper_correction(text, lints[i - 1], n0 + i - 1),
        ]
    }
}

/// Convert every linter finding into a categorized correction.
#[verifier::loop_isolation(false)]
pub fn harper_stage(text: &str, lints: &Vec<LintRecord>, id_counter: &mut u128) -> (r: Vec<
    GrammarCorrection,
>)
    requires
        forall|q: int|
            0 <= q < lints@.len() ==> (#[trigger] lints@[q]@).start <= lints@[q]@.end
                && lints@[q]@.start <= text@.len(),
        *old(id_counter) + lints@.len() <= u128::MAX,
    ensures
        correction_models(r@) == harper_models(
            text@,
            lint_models(lints@),
            *old(id_counter) as int,
            lints@.len() as int,
        ),
        r@.len() == lints@.len(),
        *final(id_counter) == *old(id_counter) + lints@.len(),
{
    let ghost n0 = *id_counter as int;
    let mut r: Vec<GrammarCorrection> = Vec::new();
    let mut i: usize = 0;
    while i < lints.len()
        invariant
            i <= lints@.len(),
            r@.len() == i,
            *id_counter as int == n0 + i,
            correction_models(r@) == harper_models(text@, lint_models(lints@), n0, i as int),
        decreases lints@.len() - i,
    {
        let c = GrammarCorrection::from_harper_lint(text, &lints[i], id_counter);
        let ghost pre = correction_models(r@);
        r.push(c);
        proof {
            assert(lint_models(lints@)[i as int] == lints@[i as int]@);
            assert(correction_models(r@) =~= pre.push(
                harper_correction(text@, lint_models(lints@)[i as int], n0 + i),
            ));
            assert(harper_models(text@, lint_models(lints@), n0, i + 1)
                =~= harper_models(text@, lint_models(lints@), n0, i as int).push(
                harper_correction(text@, lint_models(lints@)[i as int], n0 + i),
            ));
        }
        i = i + 1;
    }
    r
}

/// What one generator stage contributes: nothing when its output equals its
/// input up to whitespace, otherwise the stage's alignment diffs.
pub open spec fn stage_models(base: Seq<char>, out: Seq<char>, src: Seq<char>, n0: int)
    -> Seq<CorrectionModel> {
    if trim_spec(base) == trim_spec(out) {
        Seq::empty()
    } else {
        ai_diffs(base, out, src, n0)
    }
}

/// The aggregate multi-stage correction: spans the whole text and carries
/// the intermediate text after each stage.
pub open spec fn summary_model(
    text: Seq<char>,
    h1: Seq<char>,
    g: Seq<char>,
    f: Seq<char>,
    n: int,
) -> CorrectionModel {
    CorrectionModel {
        id: "three_stage_"@ + crate::textutil::dec_str(n),
        category: "summary"@,
        subcategory: "three_stage"@,
        severity: "enhancement"@,
        confidence: 85,
        visual_treatment: "none"@,
        offset: 0,
        length: text.len() as int,
        original_text: text,
        suggestions: seq![h1, g, f],
        primary_suggestion: f,
        explanation: "Complete writing improvement:\nSpelling -> Grammar -> Style"@,
        source_stage: "three_stage"@,
        auto_apply: false,
    }
}

/// Every correction the pipeline gathers before deduplication: the linter's,
/// then each configured generator stage's against its own input text, then —
/// only when some generator stage changed its input — the aggregate
/// multi-stage correction.
///
/// `None` stands for a stage that is not configured. A stage that *fails* is
/// not `None`: its failure is recovered as unchanged output, so the caller
/// hands the stage's own input onward as its output; the stage then
/// contributes nothing while every downstream stage still runs on that text.
pub open spec fn pipeline_models(
    text: Seq<char>,
    lints: Seq<LintModel>,
    gram: Option<Seq<char>>,
    flan: Option<Seq<char>>,
) -> Seq<CorrectionModel> {
    let h = harper_models(text, lints, 0, lints.len() as int);
    match gram {
        Option::None => h,
        Option::Some(g) => {
            let h1 = materialized_corrections(text, h);
            let gd = stage_models(h1, g, "gramformer"@, lints.len() as int);
            match flan {
                Option::None => h + gd,
                Option::Some(f) => {
                    let fd = stage_models(g, f, "flan_t5"@, lints.len() + gd.len() as int);
                    if trim_spec(g) != trim_spec(h1) || trim_spec(f) != trim_spec(g) {
                        h + gd + fd + seq![
                            summary_model(text, h1, g, f, lints.len() + gd.len() + fd.len() + 1int),
                        ]
                    } else {
                        h + gd + fd
                    }
                },
            }
        },
    }
}

pub open spec fn opt_str_view(o: Option<&String>) -> Option<Seq<char>> {
    match o {
        Option::None => Option::None,
        Option::Some(s) => Option::Some(s@),
    }
}

/// Run the whole correction pipeline over outputs the caller gathered:
/// `gram_out` must be the second stage's output on the materialized linter
/// text, `flan_out` the third stage's output on `gram_out`. `None` stands
/// for a stage that is not configured. A stage call that fails is recovered
/// as unchanged output — the caller passes the stage's input as its output —
/// so downstream stages still run on that same text and no failure ever
/// aborts the pipeline. The result is deduplicated — no two kept corrections
/// overlap — and the statistics count the kept corrections by severity.
#[verifier::loop_isolation(false)]
pub fn check_grammar_professional(
    text: &str,
    lints: &Vec<LintRecord>,
    gram_out: Option<&String>,
    flan_out: Option<&String>,
) -> (r: GrammarResponse)
    requires
        forall|q: int|
            0 <= q < lints@.len() ==> (#[trigger] lints@[q]@).start <= lints@[q]@.end
                && lints@[q]@.start <= text@.len(),
    ensures
        correction_models(r.corrections@) == spec_dedup(
            pipeline_models(
                text@,
                lint_models(lints@),
                opt_str_view(gram_out),
                opt_str_view(flan_out),
            ),
        ),
        pairwise_disjoint(correction_models(r.corrections@)),
        r.stats.total_issues == r.corrections@.len(),
        r.stats.critical as int == count_severity(
            correction_models(r.corrections@),
            "critical"@,
            r.corrections@.len() as int,
        ),
        r.stats.important as int == count_severity(
            correction_models(r.corrections@),
            "important"@,
            r.corrections@.len() as int,
        ),
        r.stats.enhancement as int == count_severity(
            correction_models(r.corrections@),
            "enhancement"@,
            r.corrections@.len() as int,
        ),
{
    let ghost lm = lint_models(lints@);
    let lint_count: usize = lints.len();
    let mut counter: u128 = 0;
    let mut all = harper_stage(text, lints, &mut counter);
    let ghost h = correction_models(all@);
    if let Some(g) = gram_out {
        let h1 = materialize_corrections(text, &all);
        let h1_len = h1.as_str().unicode_len();
        let g_len = g.as_str().unicode_len();
        proof {
            lemma_word_count_bound(h1@, 0);
            assert(words_of(h1@).len() <= h1_len);
            assert(counter == lints@.len());
        }
        let mut gd = GrammarCorrection::from_ai_correction(
            h1.as_str(),
            g.as_str(),
            "gramformer",
            &mut counter,
        );
        let ghost gdm = correction_models(gd@);
        proof {
            reveal_strlit("gramformer");
            assert(gdm =~= stage_models(h1@, g@, "gramformer"@, lints@.len() as int));
        }
        if let Some(f) = flan_out {
            let gd_count: usize = gd.len();
            proof {
                lemma_word_count_bound(g@, 0);
                assert(words_of(g@).len() <= g_len);
                assert(counter <= lints@.len() + gd_count);
            }
            let mut fd = GrammarCorrection::from_ai_correction(
                g.as_str(),
                f.as_str(),
                "flan_t5",
                &mut counter,
            );
            let ghost fdm = correction_models(fd@);
            proof {
                reveal_strlit("flan_t5");
                assert(fdm =~= stage_models(g@, f@, "flan_t5"@, lints@.len() + gdm.len() as int));
            }
            let changed = !trim_eq(g.as_str(), h1.as_str()) || !trim_eq(f.as_str(), g.as_str());
            let fd_count: usize = fd.len();
            all.append(&mut gd);
            all.append(&mut fd);
            if changed {
                proof {
                    assert(counter <= lints@.len() + gd_count + fd_count);
                }
                counter = counter + 1;
                let mut id = String::from_str("three_stage_");
                crate::textutil::append_dec(&mut id, counter);
                let mut suggestions: Vec<String> = Vec::new();
                suggestions.push(h1);
                suggestions.push(g.clone());
                suggestions.push(f.clone());
                let summary = GrammarCorrection {
                    id,
                    category: String::from_str("summary"),
                    subcategory: String::from_str("three_stage"),
                    severity: String::from_str("enhancement"),
                    confidence: 85,
                    visual_treatment: String::from_str("none"),
                    offset: 0,
                    length: text.unicode_len(),
                    original_text: text.to_owned(),
                    suggestions,
                    primary_suggestion: f.clone(),
                    explanation: String::from_str(
                        "Complete writing improvement:\nSpelling -> Grammar -> Style",
                    ),
                    source_stage: String::from_str("three_stage"),
                    auto_apply: false,
                };
                let ghost pre = correction_models(all@);
                all.push(summary);
                proof {
                    let ghost sm = summary_model(
                        text@,
                        h1@,
                        g@,
                        f@,
                        lm.len() + gdm.len() + fdm.len() + 1int,
                    );
                    assert(all@.last()@.suggestions =~= seq![h1@, g@, f@]);
                    assert(all@.last()@ == sm);
                    assert(correction_models(all@) =~= pre.push(sm));
                    assert(correction_models(all@) =~= pipeline_models(
                        text@,
                        lm,
                        opt_str_view(gram_out),
                        opt_str_view(flan_out),
                    ));
                }
            } else {
                proof {
                    assert(correction_models(all@) =~= h + gdm + fdm);
                    assert(correction_models(all@) =~= pipeline_models(
                        text@,
                        lm,
                        opt_str_view(gram_out),
                        opt_str_view(flan_out),
                    ));
                }
            }
        } else {
            all.append(&mut gd);
            proof {
                assert(correction_models(all@) =~= h + gdm);
                assert(correction_models(all@) =~= pipeline_models(
                    text@,
                    lm,
                    opt_str_view(gram_out),
                    opt_str_view(flan_out),
                ));
            }
        }
    } else {
        proof {
            assert(correction_models(all@) =~= pipeline_models(
                text@,
                lm,
                opt_str_view(gram_out),
                opt_str_view(flan_out),
            ));
        }
    }
    let corrections = deduplicate_corrections(all);
    let stats = calculate_stats(&corrections);
    GrammarResponse { corrections, stats }
}

/// Generator stages that change nothing contribute nothing: when both stage
/// outputs equal their inputs up to whitespace, the pipeline gathers exactly
/// the linter's corrections and no aggregate multi-stage correction.
pub proof fn lemma_identity_stages_add_nothing(
    text: Seq<char>,
    lints: Seq<LintModel>,
    g: Seq<char>,
    f: Seq<char>,
)
    requires
        trim_spec(g) == trim_spec(
            materialized_corrections(text, harper_models(text, lints, 0, lints.len() as int)),
        ),
        trim_spec(f) == trim_spec(g),
    ensures
        pipeline_models(text, lints, Option::Some(g), Option::Some(f)) == harper_models(
            text,
            lints,
            0,
            lints.len() as int,
        ),
{
    let h = harper_models(text, lints, 0, lints.len() as int);
    assert(pipeline_models(text, lints, Option::Some(g), Option::Some(f)) =~= h);
}


/// The replacement strings of the compact legacy suggestion shape: removals
/// are dropped, insertions are marked with a leading tag.
pub open spec fn fix_strings_legacy(fs: Seq<LintFixModel>, i: int) -> Seq<Seq<char>>
    decreases i when i >= 0
{
    if i <= 0 {
        Seq::empty()
    } else {
        fix_strings_legacy(fs, i - 1) + match fs[i - 1] {
            LintFixModel::ReplaceWith(t) => seq![t],
            LintFixModel::Remove => Seq::empty(),
            LintFixModel::InsertAfter(t) => seq!["INSERT_AFTER: "@ + t],
        }
    }
}

fn fixes_to_strings_legacy(fs: &Vec<LintFix>) -> (r: Vec<String>)
    ensures
        r.deep_view() == fix_strings_legacy(fs.deep_view(), fs@.len() as int),
{
    let ghost fm = fs.deep_view();
    let mut r: Vec<String> = Vec::new();
    let mut i: usize = 0;
    while i < fs.len()
        invariant
            i <= fs@.len(),
            fm == fs.deep_view(),
            r.deep_view() == fix_strings_legacy(fm, i as int),
        decreases fs@.len() - i,
    {
        let ghost pre = r.deep_view();
        match &fs[i] {
            LintFix::ReplaceWith(t) => {
                r.push(t.clone());
                proof {
                    assert(r.deep_view() =~= pre.push(t@));
                    assert(r.deep_view() =~= fix_strings_legacy(fm, i + 1));
                }
            },
            LintFix::Remove => {
                proof {
                    assert(fix_strings_legacy(fm, i + 1) =~= fix_strings_legacy(fm, i as int));
                }
            },
            LintFix::InsertAfter(t) => {
                let mut tagged = String::from_str("INSERT_AFTER: ");
                tagged.append(t.as_str());
                r.push(tagged);
                proof {
                    assert(r.deep_view() =~= pre.push("INSERT_AFTER: "@ + t@));
                    assert(r.deep_view() =~= fix_strings_legacy(fm, i + 1));
                }
            },
        }
        i = i + 1;
    }
    r
}

/// The compact suggestion derived from one linter finding.
pub open spec fn legacy_suggestion(text: Seq<char>, lint: LintModel) -> EditModel {
    EditModel {
        kind: lint.kind,
        message: lint.message,
        offset: lint.start,
        length: clamp_to(lint.end, text.len() as int) - lint.start,
        replacements: fix_strings_legacy(lint.fixes, lint.fixes.len() as int),
    }
}

/// The compact suggestions of the first `i` linter findings.
pub open spec fn legacy_suggestions(text: Seq<char>, lints: Seq<LintModel>, i: int)
    -> Seq<EditModel>
    decreases i when i >= 0
{
    if i <= 0 {
        Seq::empty()
    } else {
        legacy_suggestions(text, lints, i - 1) + seq![legacy_suggestion(text, lints[i - 1])]
    }
}

impl JSONSuggestion {
    /// Convert one linter finding into a compact suggestion.
    pub fn from_lint(text: &str, lint: &LintRecord) -> (r: JSONSuggestion)
        requires
            lint@.start <= lint@.end,
            lint@.start <= text@.len(),
        ensures
            r@ == legacy_suggestion(text@, lint@),
    {
        let len = text.unicode_len();
        let end = if lint.end <= len {
            lint.end
        } else {
            len
        };
        let r = JSONSuggestion {
            kind: lint.kind.clone(),
            message: lint.message.clone(),
            offset: lint.start,
            length: end - lint.start,
            replacements: fixes_to_strings_legacy(&lint.fixes),
        };
        r
    }

    /// Convert every linter finding into a compact suggestion.
    #[verifier::loop_isolation(false)]
    pub fn many_from_lints(text: &str, lints: &Vec<LintRecord>) -> (r: Vec<JSONSuggestion>)
        requires
            forall|q: int|
                0 <= q < lints@.len() ==> (#[trigger] lints@[q]@).start <= lints@[q]@.end
                    && lints@[q]@.start <= text@.len(),
        ensures
            edit_models(r@) == legacy_suggestions(
                text@,
                lint_models(lints@),
                lints@.len() as int,
            ),
    {
        let mut r: Vec<JSONSuggestion> = Vec::new();
        let mut i: usize = 0;
        while i < lints.len()
            invariant
                i <= lints@.len(),
                edit_models(r@) == legacy_suggestions(text@, lint_models(lints@), i as int),
            decreases lints@.len() - i,
        {
            let sg = JSONSuggestion::from_lint(text, &lints[i]);
            let ghost pre = edit_models(r@);
            r.push(sg);
            proof {
                assert(lint_models(lints@)[i as int] == lints@[i as int]@);
                assert(edit_models(r@) =~= pre.push(
                    legacy_suggestion(text@, lint_models(lints@)[i as int]),
                ));
                assert(legacy_suggestions(text@, lint_models(lints@), i + 1)
                    =~= legacy_suggestions(text@, lint_models(lints@), i as int).push(
                    legacy_suggestion(text@, lint_models(lints@)[i as int]),
                ));
            }
            i = i + 1;
        }
        r
    }
}

/// The suggestions that carry at least one replacement, among the first `i`.
pub open spec fn keep_content(es: Seq<EditModel>, i: int) -> Seq<EditModel>
    decreases i when i >= 0
{
    if i <= 0 {
        Seq::empty()
    } else {
        keep_content(es, i - 1) + if es[i - 1].replacements.len() > 0 {
            seq![es[i - 1]]
        } else {
            Seq::empty()
        }
    }
}

/// Whether some suggestion is a readability finding with no replacement.
pub open spec fn has_empty_readability(es: Seq<EditModel>) -> bool {
    exists|q: int|
        0 <= q < es.len() && (#[trigger] es[q]).kind == "readability"@ && es[q].replacements.len()
            == 0
}

fn clone_suggestion(s: &JSONSuggestion) -> (r: JSONSuggestion)
    ensures
        r@ == s@,
{
    JSONSuggestion {
        kind: s.kind.clone(),
        message: s.message.clone(),
        offset: s.offset,
        length: s.length,
        replacements: copy_strings(&s.replacements),
    }
}

#[verifier::loop_isolation(false)]
fn push_content(out: &mut Vec<JSONSuggestion>, src: &Vec<JSONSuggestion>)
    ensures
        edit_models(final(out)@) == edit_models(old(out)@) + keep_content(
            edit_models(src@),
            src@.len() as int,
        ),
{
    let ghost es = edit_models(src@);
    let ghost base = edit_models(out@);
    let mut i: usize = 0;
    while i < src.len()
        invariant
            i <= src@.len(),
            base == edit_models(old(out)@),
            es == edit_models(src@),
            edit_models(out@) == base + keep_content(es, i as int),
        decreases src@.len() - i,
    {
        let ghost pre = edit_models(out@);
        if src[i].replacements.len() > 0 {
            out.push(clone_suggestion(&src[i]));
            proof {
                assert(edit_models(out@) =~= pre.push(es[i as int]));
                assert(edit_models(out@) =~= base + keep_content(es, i + 1));
            }
        } else {
            proof {
                assert(keep_content(es, i + 1) =~= keep_content(es, i as int));
            }
        }
        i = i + 1;
    }
}

#[verifier::loop_isolation(false)]
fn any_empty_readability(suggestions: &Vec<JSONSuggestion>) -> (r: bool)
    ensures
        r == has_empty_readability(edit_models(suggestions@)),
{
    let ghost es = edit_models(suggestions@);
    let mut i: usize = 0;
    while i < suggestions.len()
        invariant
            i <= suggestions@.len(),
            forall|q: int|
                0 <= q < i ==> !((#[trigger] es[q]).kind == "readability"@
                    && es[q].replacements.len() == 0),
        decreases suggestions@.len() - i,
    {
        if str_eq(suggestions[i].kind.as_str(), "readability") && suggestions[i].replacements.len()
            == 0 {
            proof {
                assert(es[i as int].kind == "readability"@ && es[i as int].replacements.len() == 0);
            }
            return true;
        }
        i = i + 1;
    }
    false
}

/// A word after which a long sentence may be split: it ends with a comma or
/// is one of the short conjunctions.
pub open spec fn split_word_here(w: Seq<char>) -> bool {
    (w.len() > 0 && w.last() == ',') || w == "and"@ || w == "but"@ || w == "so"@
}

/// The split position of a long sentence: one past the first splittable word
/// strictly inside the sentence, or the middle when none is found.
pub open spec fn find_split(ws: Seq<Seq<char>>, i: int) -> int
    decreases ws.len() - i when i >= 0
{
    if i >= ws.len() - 10 {
        ws.len() as int / 2
    } else if split_word_here(ws[i]) {
        i + 1
    } else {
        find_split(ws, i + 1)
    }
}

proof fn lemma_find_split_bounds(ws: Seq<Seq<char>>, i: int)
    requires
        ws.len() > 30,
        11 <= i <= ws.len() - 10,
    ensures
        1 <= find_split(ws, i) <= ws.len() - 10,
    decreases ws.len() - i,
{
    if i < ws.len() - 10 && !split_word_here(ws[i]) {
        lemma_find_split_bounds(ws, i + 1);
    }
}

/// The rephrasing of an over-long sentence: split at the found position,
/// drop the first part's trailing commas, and start the second part with a
/// capital letter.
pub open spec fn split_sentence(text: Seq<char>) -> Seq<char> {
    let ws = words_of(text);
    let sp = find_split(ws, 11);
    let second = join_range(ws, sp, ws.len() as int);
    strip_trailing_commas(join_range(ws, 0, sp)) + ". "@ + seq![upper_char(second[0])]
        + second.drop_first()
}

/// Split an over-long sentence in two, as [`split_sentence`] describes.
#[verifier::loop_isolation(false)]
fn long_sentence_split(text: &str) -> (r: String)
    requires
        words_of(text@).len() > 30,
    ensures
        r@ == split_sentence(text@),
{
    let toks = split_words(text);
    let ghost ws = words_of(text@);
    proof {
        assert forall|q: int| 0 <= q < ws.len() implies tok_texts(toks@)[q] == ws[q] by {
            assert(ws[q] == text@.subrange(word_spans(text@)[q].0, word_spans(text@)[q].1));
        }
        assert(tok_texts(toks@) =~= ws);
        lemma_words_nonempty(text@);
    }
    let len = toks.len();
    let mut sp: usize = len / 2;
    let mut i: usize = 11;
    #[verifier::loop_isolation(true)]
    loop
        invariant_except_break
            sp == len / 2,
        invariant
            len == ws.len(),
            len == toks@.len(),
            len > 30,
            ws == words_of(text@),
            forall|q: int| 0 <= q < toks@.len() ==> tok_matches(
                text@,
                #[trigger] toks@[q],
                word_spans(text@)[q],
            ),
            11 <= i <= len - 10,
            find_split(ws, 11) == find_split(ws, i as int),
        ensures
            len == ws.len(),
            len > 30,
            sp as int == find_split(ws, 11),
            1 <= sp <= len - 10,
        decreases len - 10 - i,
    {
        if i >= len - 10 {
            proof {
                assert(find_split(ws, i as int) == ws.len() as int / 2);
            }
            break;
        }
        let w = &toks[i].text;
        let wl = w.as_str().unicode_len();
        let ghost wq = ws[i as int];
        proof {
            assert(wq == text@.subrange(word_spans(text@)[i as int].0, word_spans(text@)[i as int].1));
            assert(w@ == wq);
        }
        let ends_comma = wl > 0 && char_eq(w.as_str().get_char(wl - 1), ',');
        if ends_comma || str_eq(w.as_str(), "and") || str_eq(w.as_str(), "but") || str_eq(
            w.as_str(),
            "so",
        ) {
            sp = i + 1;
            proof {
                assert(split_word_here(ws[i as int]));
                assert(find_split(ws, i as int) == i + 1);
            }
            break;
        }
        proof {
            assert(!split_word_here(ws[i as int]));
            assert(find_split(ws, i as int) == find_split(ws, i + 1));
        }
        i = i + 1;
    }
    let first_part = join_words(&toks, 0, sp);
    let second = join_words(&toks, sp, len);
    proof {
        assert(ws.subrange(0, len as int) =~= ws);
        assert(join_range(ws, sp as int, len as int) == ws[sp as int] + spaced_tail(
            ws,
            sp + 1,
        ));
        assert(ws[sp as int].len() > 0);
    }
    let second_len = second.as_str().unicode_len();
    let c0 = second.as_str().get_char(0);
    let mut reph = stripped_trailing_commas(first_part.as_str());
    reph.append(". ");
    reph.push(to_upper_char(c0));
    let rest = second.as_str().substring_char(1, second_len);
    reph.append(rest);
    proof {
        reveal_strlit(". ");
        assert(". "@ =~= seq!['.', ' ']);
        assert(second@.subrange(1, second@.len() as int) =~= second@.drop_first());
        assert(reph@ =~= split_sentence(text@));
    }
    reph
}

fn char_eq(a: char, b: char) -> (r: bool)
    ensures
        r == (a == b),
{
    a == b
}

/// The aggregate suggestion showing the text after each stage.
pub open spec fn three_stage_suggestion(
    text: Seq<char>,
    fully: Seq<char>,
    gtext: Seq<char>,
    ftext: Seq<char>,
) -> EditModel {
    EditModel {
        kind: "three_stage"@,
        message: "Writing improvement:\nSpelling -> Grammar -> Style"@,
        offset: 0,
        length: text.len() as int,
        replacements: seq![fully, gtext, ftext],
    }
}

/// The whole-text rephrase suggested when a readability finding has no fix.
pub open spec fn rephrase_suggestion(text: Seq<char>, replacement: Seq<char>) -> EditModel {
    EditModel {
        kind: "rephrase"@,
        message: "Suggested rephrase for clarity and style"@,
        offset: 0,
        length: text.len() as int,
        replacements: seq![replacement],
    }
}

/// The suggestions a direct generated correction of `text` stands for.
pub open spec fn t5_models(text: Seq<char>, corrected: Seq<char>) -> Seq<EditModel> {
    if trim_spec(text) == trim_spec(corrected) {
        Seq::empty()
    } else {
        spec_diffs(text, corrected)
    }
}

pub open spec fn opt_flan_view(o: Option<(&String, bool)>) -> Option<(Seq<char>, bool)> {
    match o {
        Option::None => Option::None,
        Option::Some((s, c)) => Option::Some((s@, c)),
    }
}

/// The enhanced suggestion list, exactly as [`JSONSuggestion::new_with_t5_outputs`]
/// computes it.
pub open spec fn enhanced_spec(
    text: Seq<char>,
    es: Seq<EditModel>,
    corrected: Seq<char>,
    gram: Option<Seq<char>>,
    flan: Option<(Seq<char>, bool)>,
) -> Seq<EditModel> {
    let t5 = t5_models(text, corrected);
    let content = keep_content(es, es.len() as int);
    let base = if content.len() > 0 {
        match gram {
            Option::Some(g) => {
                let fully = materialized_suggestions(text, es);
                let gtext = stage_text_spec(fully, g);
                let ftext = match flan {
                    Option::Some((f, ch)) => if ch {
                        f
                    } else {
                        gtext
                    },
                    Option::None => gtext,
                };
                seq![three_stage_suggestion(text, fully, gtext, ftext)] + content
            },
            Option::None => content,
        }
    } else {
        es
    };
    let extra = if has_empty_readability(es) && t5.len() == 0 {
        if trim_spec(corrected) != trim_spec(text) {
            seq![rephrase_suggestion(text, trim_spec(corrected))]
        } else if words_of(text).len() > 30 {
            seq![rephrase_suggestion(text, split_sentence(text))]
        } else {
            Seq::empty()
        }
    } else {
        t5
    };
    let combined = base + extra;
    if combined.len() > 0 {
        keep_content(combined, combined.len() as int)
    } else {
        es
    }
}

impl JSONSuggestion {
    /// Enhance the linter's suggestions with the outputs of the generated
    /// correction stages, which the caller has already run: `corrected` is
    /// the direct rewrite of `text`, `gram_out` the second stage's output on
    /// the materialized linter text, and `flan_out` the third stage's output
    /// on the second stage's text together with its changed flag. `None`
    /// stands for a stage that is not configured; a stage call that fails is
    /// recovered as unchanged output, the caller handing the stage's input
    /// onward, so later stages still run. Suggestions without replacements
    /// are dropped from a non-empty enhanced list.
    #[verifier::loop_isolation(false)]
    #[verifier::spinoff_prover]
    #[verifier::rlimit(100)]
    pub fn new_with_t5_outputs(
        text: &str,
        suggestions: &Vec<JSONSuggestion>,
        corrected: &str,
        gram_out: Option<&String>,
        flan_out: Option<(&String, bool)>,
    ) -> (r: Vec<JSONSuggestion>)
        ensures
            edit_models(r@) == enhanced_spec(
                text@,
                edit_models(suggestions@),
                corrected@,
                opt_str_view(gram_out),
                opt_flan_view(flan_out),
            ),
    {
        let ghost es = edit_models(suggestions@);
        let t5_suggestions = JSONSuggestion::from_t5_correction(text, corrected);
        proof {
            assert(edit_models(t5_suggestions@) =~= t5_models(text@, corrected@));
        }
        let mut has_content = false;
        let mut i: usize = 0;
        while i < suggestions.len()
            invariant
                i <= suggestions@.len(),
                has_content == (keep_content(es, i as int).len() > 0),
            decreases suggestions@.len() - i,
        {
            if suggestions[i].replacements.len() > 0 {
                has_content = true;
            }
            proof {
                if es[i as int].replacements.len() > 0 {
                    assert(keep_content(es, i + 1) =~= keep_content(es, i as int).push(
                        es[i as int],
                    ));
                } else {
                    assert(keep_content(es, i + 1) =~= keep_content(es, i as int));
                }
            }
            i = i + 1;
        }
        let mut enhanced: Vec<JSONSuggestion> = Vec::new();
        if has_content {
            match gram_out {
                Some(g) => {
                    let fully = materialize_suggestions(text, suggestions);
                    let gtext = stage_text(fully.as_str(), g.as_str());
                    let ftext: String = match flan_out {
                        Some((f, ch)) => if ch {
                            f.clone()
                        } else {
                            gtext.clone()
                        },
                        None => gtext.clone(),
                    };
                    let mut reps: Vec<String> = Vec::new();
                    reps.push(fully);
                    reps.push(gtext);
                    reps.push(ftext);
                    let three = JSONSuggestion {
                        kind: String::from_str("three_stage"),
                        message: String::from_str(
                            "Writing improvement:\nSpelling -> Grammar -> Style",
                        ),
                        offset: 0,
                        length: text.unicode_len(),
                        replacements: reps,
                    };
                    enhanced.push(three);
                    proof {
                        let fullym = materialized_suggestions(text@, es);
                        let gtextm = stage_text_spec(fullym, g@);
                        let ftextm = match opt_flan_view(flan_out) {
                            Option::Some((fm, ch)) => if ch {
                                fm
                            } else {
                                gtextm
                            },
                            Option::None => gtextm,
                        };
                        assert(ftext@ == ftextm);
                        assert(enhanced@[0]@.replacements =~= seq![fullym, gtextm, ftextm]);
                        assert(enhanced@[0]@ == three_stage_suggestion(
                            text@,
                            fullym,
                            gtextm,
                            ftextm,
                        ));
                        assert(edit_models(enhanced@) =~= seq![
                            three_stage_suggestion(text@, fullym, gtextm, ftextm),
                        ]);
                    }
                    push_content(&mut enhanced, suggestions);
                },
                None => {
                    push_content(&mut enhanced, suggestions);
                },
            }
        } else {
            let mut i: usize = 0;
            while i < suggestions.len()
                invariant
                    i <= suggestions@.len(),
                    edit_models(enhanced@) == es.subrange(0, i as int),
                decreases suggestions@.len() - i,
            {
                let ghost pre = edit_models(enhanced@);
                enhanced.push(clone_suggestion(&suggestions[i]));
                proof {
                    assert(edit_models(enhanced@) =~= pre.push(es[i as int]));
                    assert(edit_models(enhanced@) =~= es.subrange(0, i + 1));
                }
                i = i + 1;
            }
            proof {
                assert(es.subrange(0, suggestions@.len() as int) =~= es);
            }
        }
        let mut extra: Vec<JSONSuggestion> = t5_suggestions;
        if any_empty_readability(suggestions) && extra.len() == 0 {
            if !trim_eq(corrected, text) {
                let mut reps: Vec<String> = Vec::new();
                reps.push(trimmed(corrected));
                let ghost pre = edit_models(extra@);
                extra.push(
                    JSONSuggestion {
                        kind: String::from_str("rephrase"),
                        message: String::from_str("Suggested rephrase for clarity and style"),
                        offset: 0,
                        length: text.unicode_len(),
                        replacements: reps,
                    },
                );
                proof {
                    assert(extra@[0]@.replacements =~= seq![trim_spec(corrected@)]);
                    assert(edit_models(extra@) =~= seq![
                        rephrase_suggestion(text@, trim_spec(corrected@)),
                    ]);
                }
            } else {
                let toks = split_words(text);
                if toks.len() > 30 {
                    let reph = long_sentence_split(text);
                    let mut reps: Vec<String> = Vec::new();
                    reps.push(reph);
                    extra.push(
                        JSONSuggestion {
                            kind: String::from_str("rephrase"),
                            message: String::from_str("Suggested rephrase for clarity and style"),
                            offset: 0,
                            length: text.unicode_len(),
                            replacements: reps,
                        },
                    );
                    proof {
                        assert(extra@[0]@.replacements =~= seq![split_sentence(text@)]);
                        assert(edit_models(extra@) =~= seq![
                            rephrase_suggestion(text@, split_sentence(text@)),
                        ]);
                    }
                }
            }
        }
        let ghost base_models = edit_models(enhanced@);
        let ghost extra_models = edit_models(extra@);
        let mut combined = enhanced;
        let mut extra_mut = extra;
        combined.append(&mut extra_mut);
        proof {
            assert(edit_models(combined@) =~= base_models + extra_models);
        }
        if combined.len() > 0 {
            let mut kept: Vec<JSONSuggestion> = Vec::new();
            push_content(&mut kept, &combined);
            proof {
                assert(edit_models(kept@) =~= keep_content(
                    edit_models(combined@),
                    combined@.len() as int,
                ));
            }
            kept
        } else {
            let mut r: Vec<JSONSuggestion> = Vec::new();
            let mut i: usize = 0;
            while i < suggestions.len()
                invariant
                    i <= suggestions@.len(),
                    edit_models(r@) == es.subrange(0, i as int),
                decreases suggestions@.len() - i,
            {
                let ghost pre = edit_models(r@);
                r.push(clone_suggestion(&suggestions[i]));
                proof {
                    assert(edit_models(r@) =~= pre.push(es[i as int]));
                    assert(edit_models(r@) =~= es.subrange(0, i + 1));
                }
                i = i + 1;
            }
            proof {
                assert(es.subrange(0, suggestions@.len() as int) =~= es);
            }
            r
        }
    }
}

} // verus!
