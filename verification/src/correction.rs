//! Categorized corrections: converting linter records and generated rewrites
//! into rich suggestions, removing overlaps, and computing statistics.

use vstd::prelude::*;
use crate::textutil::{
    word_spans, words_of, split_words, str_eq, trim_eq, trim_spec, dec_str, append_dec,
};
use crate::align::{count_changes, min_len, is_rewrite, ins_rep, lemma_count_changes_self};

verus! {

/// One fix a linter proposes for a finding: replace the span, remove it, or
/// insert text after it.
pub enum LintFix {
    ReplaceWith(String),
    Remove,
    InsertAfter(String),
}

/// The mathematical shadow of a [`LintFix`].
pub enum LintFixModel {
    ReplaceWith(Seq<char>),
    Remove,
    InsertAfter(Seq<char>),
}

impl View for LintFix {
    type V = LintFixModel;

    open spec fn view(&self) -> LintFixModel {
        match self {
            LintFix::ReplaceWith(s) => LintFixModel::ReplaceWith(s@),
            LintFix::Remove => LintFixModel::Remove,
            LintFix::InsertAfter(s) => LintFixModel::InsertAfter(s@),
        }
    }
}

impl DeepView for LintFix {
    type V = LintFixModel;

    open spec fn deep_view(&self) -> LintFixModel {
        self.view()
    }
}

/// A linter finding, as plain values: a span of the linted text, the kind of
/// the finding, a human-readable message, and the proposed fixes.
pub struct LintRecord {
    pub start: usize,
    pub end: usize,
    pub kind: String,
    pub message: String,
    pub fixes: Vec<LintFix>,
}

/// The mathematical shadow of a [`LintRecord`].
pub struct LintModel {
    pub start: int,
    pub end: int,
    pub kind: Seq<char>,
    pub message: Seq<char>,
    pub fixes: Seq<LintFixModel>,
}

impl View for LintRecord {
    type V = LintModel;

    open spec fn view(&self) -> LintModel {
        LintModel {
            start: self.start as int,
            end: self.end as int,
            kind: self.kind@,
            message: self.message@,
            fixes: self.fixes.deep_view(),
        }
    }
}

/// The replacement string each fix stands for when every fix is kept: a
/// removal becomes the empty replacement.
pub open spec fn fix_strings_full(fs: Seq<LintFixModel>) -> Seq<Seq<char>> {
    fs.map(
        |_q: int, f: LintFixModel|
            match f {
                LintFixModel::ReplaceWith(s) => s,
                LintFixModel::Remove => Seq::<char>::empty(),
                LintFixModel::InsertAfter(s) => s,
            },
    )
}

/// Turn the fixes of a finding into plain replacement strings, keeping every
/// fix and writing a removal as the empty string.
pub fn fixes_to_strings_full(fs: &Vec<LintFix>) -> (r: Vec<String>)
    ensures
        r.deep_view() == fix_strings_full(fs.deep_view()),
        r@.len() == fs@.len(),
{
    let mut r: Vec<String> = Vec::new();
    let mut i: usize = 0;
    while i < fs.len()
        invariant
            i <= fs@.len(),
            r@.len() == i,
            forall|q: int| 0 <= q < i ==> #[trigger] r@[q].deep_view() == fix_strings_full(
                fs.deep_view(),
            )[q],
        decreases fs@.len() - i,
    {
        match &fs[i] {
            LintFix::ReplaceWith(s) => {
                r.push(s.clone());
            },
            LintFix::Remove => {
                r.push(String::new());
            },
            LintFix::InsertAfter(s) => {
                r.push(s.clone());
            },
        }
        i = i + 1;
    }
    proof {
        assert(r.deep_view() =~= fix_strings_full(fs.deep_view()));
    }
    r
}

/// A categorized correction. `confidence` is a fixed-point number in
/// hundredths of the unit interval.
pub struct GrammarCorrection {
    pub id: String,
    pub category: String,
    pub subcategory: String,
    pub severity: String,
    pub confidence: u32,
    pub visual_treatment: String,
    pub offset: usize,
    pub length: usize,
    pub original_text: String,
    pub suggestions: Vec<String>,
    pub primary_suggestion: String,
    pub explanation: String,
    pub source_stage: String,
    pub auto_apply: bool,
}

/// The mathematical shadow of a [`GrammarCorrection`].
pub struct CorrectionModel {
    pub id: Seq<char>,
    pub category: Seq<char>,
    pub subcategory: Seq<char>,
    pub severity: Seq<char>,
    pub confidence: int,
    pub visual_treatment: Seq<char>,
    pub offset: int,
    pub length: int,
    pub original_text: Seq<char>,
    pub suggestions: Seq<Seq<char>>,
    pub primary_suggestion: Seq<char>,
    pub explanation: Seq<char>,
    pub source_stage: Seq<char>,
    pub auto_apply: bool,
}

impl View for GrammarCorrection {
    type V = CorrectionModel;

    open spec fn view(&self) -> CorrectionModel {
        CorrectionModel {
            id: self.id@,
            category: self.category@,
            subcategory: self.subcategory@,
            severity: self.severity@,
            confidence: self.confidence as int,
            visual_treatment: self.visual_treatment@,
            offset: self.offset as int,
            length: self.length as int,
            original_text: self.original_text@,
            suggestions: self.suggestions.deep_view(),
            primary_suggestion: self.primary_suggestion@,
            explanation: self.explanation@,
            source_stage: self.source_stage@,
            auto_apply: self.auto_apply,
        }
    }
}

pub open spec fn correction_models(v: Seq<GrammarCorrection>) -> Seq<CorrectionModel> {
    v.map(|_q: int, c: GrammarCorrection| c@)
}

/// Statistics over the emitted corrections, bucketed by severity.
pub struct GrammarStats {
    pub total_issues: usize,
    pub critical: usize,
    pub important: usize,
    pub enhancement: usize,
}

/// The full result of a correction run.
pub struct GrammarResponse {
    pub corrections: Vec<GrammarCorrection>,
    pub stats: GrammarStats,
}

/// The compact legacy suggestion shape, kept for callers of the older API.
pub struct GrammarSuggestion {
    pub kind: String,
    pub message: String,
    pub replacements: Vec<String>,
}

/// Classification of a linter finding by its kind:
/// (category, subcategory, severity, visual treatment, confidence, auto-apply).
pub open spec fn harper_class(kind: Seq<char>) -> (Seq<char>, Seq<char>, Seq<char>, Seq<char>, int, bool) {
    if kind == "spelling"@ {
        ("correctness"@, "spelling"@, "critical"@, "highlight"@, 99int, true)
    } else if kind == "capitalization"@ {
        ("correctness"@, "capitalization"@, "critical"@, "highlight"@, 99int, true)
    } else if kind == "punctuation"@ {
        ("correctness"@, "basic_punctuation"@, "critical"@, "highlight"@, 95int, false)
    } else {
        ("correctness"@, "grammar"@, "important"@, "underline"@, 90int, false)
    }
}

pub open spec fn clamp_to(e: int, len: int) -> int {
    if e <= len {
        e
    } else {
        len
    }
}

/// The correction derived from one linter finding, numbered `n + 1`.
pub open spec fn harper_correction(text: Seq<char>, lint: LintModel, n: int) -> CorrectionModel {
    let end = clamp_to(lint.end, text.len() as int);
    let cls = harper_class(lint.kind);
    CorrectionModel {
        id: "harper_"@ + dec_str(n + 1),
        category: cls.0,
        subcategory: cls.1,
        severity: cls.2,
        confidence: cls.4,
        visual_treatment: cls.3,
        offset: lint.start,
        length: end - lint.start,
        original_text: text.subrange(lint.start, end),
        suggestions: fix_strings_full(lint.fixes),
        primary_suggestion: if lint.fixes.len() > 0 {
            fix_strings_full(lint.fixes)[0]
        } else {
            Seq::empty()
        },
        explanation: lint.message,
        source_stage: "harper"@,
        auto_apply: cls.5,
    }
}

/// An element-wise copy of a string vector.
pub fn copy_strings(v: &Vec<String>) -> (r: Vec<String>)
    ensures
        r.deep_view() == v.deep_view(),
        r@.len() == v@.len(),
{
    let mut r: Vec<String> = Vec::new();
    let mut i: usize = 0;
    while i < v.len()
        invariant
            i <= v@.len(),
            r@.len() == i,
            forall|q: int| 0 <= q < i ==> #[trigger] r@[q]@ == v@[q]@,
        decreases v@.len() - i,
    {
        r.push(v[i].clone());
        i = i + 1;
    }
    proof {
        assert(r.deep_view() =~= v.deep_view());
    }
    r
}

impl GrammarCorrection {
    /// Convert one linter finding into a categorized correction, advancing
    /// the id counter.
    pub fn from_harper_lint(text: &str, lint: &LintRecord, id_counter: &mut u128) -> (r:
        GrammarCorrection)
        requires
            lint@.start <= lint@.end,
            lint@.start <= text@.len(),
            *old(id_counter) < u128::MAX,
        ensures
            r@ == harper_correction(text@, lint@, *old(id_counter) as int),
            *final(id_counter) == *old(id_counter) + 1,
    {
        let len = text.unicode_len();
        let end = if lint.end <= len {
            lint.end
        } else {
            len
        };
        let original_text = text.substring_char(lint.start, end).to_owned();
        let replacements = fixes_to_strings_full(&lint.fixes);
        let primary_suggestion = if replacements.len() > 0 {
            replacements[0].clone()
        } else {
            String::new()
        };
        let is_spelling = str_eq(lint.kind.as_str(), "spelling");
        let is_capitalization = str_eq(lint.kind.as_str(), "capitalization");
        let is_punctuation = str_eq(lint.kind.as_str(), "punctuation");
        let category = String::from_str("correctness");
        let (subcategory, severity, visual, confidence, auto_apply): (
            String,
            String,
            String,
            u32,
            bool,
        ) = if is_spelling {
            (String::from_str("spelling"), String::from_str("critical"), String::from_str(
                "highlight",
            ), 99, true)
        } else if is_capitalization {
            (String::from_str("capitalization"), String::from_str("critical"), String::from_str(
                "highlight",
            ), 99, true)
        } else if is_punctuation {
            (String::from_str("basic_punctuation"), String::from_str("critical"), String::from_str(
                "highlight",
            ), 95, false)
        } else {
            (String::from_str("grammar"), String::from_str("important"), String::from_str(
                "underline",
            ), 90, false)
        };
        *id_counter = *id_counter + 1;
        let mut id = String::from_str("harper_");
        append_dec(&mut id, *id_counter);
        let r = GrammarCorrection {
            id,
            category,
            subcategory,
            severity,
            confidence,
            visual_treatment: visual,
            offset: lint.start,
            length: end - lint.start,
            original_text,
            suggestions: replacements,
            primary_suggestion,
            explanation: lint.message.clone(),
            source_stage: String::from_str("harper"),
            auto_apply,
        };
        proof {
            assert(r@.suggestions == fix_strings_full(lint@.fixes));
            assert(r@ == harper_correction(text@, lint@, *old(id_counter) as int));
        }
        r
    }
}

/// Classification of a generated-stage correction, by stage name and by
/// whether the change counts as a wholesale rewrite:
/// (category, subcategory, severity, visual treatment, confidence).
pub open spec fn ai_class(source: Seq<char>, rewrite: bool) -> (
    Seq<char>,
    Seq<char>,
    Seq<char>,
    Seq<char>,
    int,
) {
    if source == "gramformer"@ {
        if rewrite {
            ("clarity"@, "sentence_structure"@, "important"@, "underline"@, 80int)
        } else {
            ("correctness"@, "grammar"@, "important"@, "underline"@, 85int)
        }
    } else if source == "flan_t5"@ {
        if rewrite {
            ("engagement"@, "flow"@, "enhancement"@, "subtle"@, 70int)
        } else {
            ("clarity"@, "word_choice"@, "enhancement"@, "subtle"@, 75int)
        }
    } else {
        ("correctness"@, "grammar"@, "important"@, "underline"@, 80int)
    }
}

/// Explanation attached to a wholesale rewrite, by stage name.
pub open spec fn ai_rewrite_expl(source: Seq<char>) -> Seq<char> {
    if source == "gramformer"@ {
        "Grammar and structure improvements"@
    } else if source == "flan_t5"@ {
        "Enhanced clarity and natural flow"@
    } else {
        "AI-suggested improvements"@
    }
}

/// Leading part of a word-level explanation, by stage name.
pub open spec fn ai_word_expl_prefix(source: Seq<char>) -> Seq<char> {
    if source == "gramformer"@ {
        "Grammar: '"@
    } else if source == "flan_t5"@ {
        "Style: '"@
    } else {
        "Correction: '"@
    }
}

/// Explanation of one word substitution: the old and the new word.
pub open spec fn ai_word_expl(source: Seq<char>, a: Seq<char>, b: Seq<char>) -> Seq<char> {
    ai_word_expl_prefix(source) + a + "' → '"@ + b + "'"@
}

/// The single correction emitted for a wholesale rewrite, numbered `n`.
pub open spec fn ai_rephrase(o: Seq<char>, c: Seq<char>, source: Seq<char>, n: int)
    -> CorrectionModel {
    let cls = ai_class(source, true);
    CorrectionModel {
        id: source + "_"@ + dec_str(n),
        category: cls.0,
        subcategory: cls.1,
        severity: cls.2,
        confidence: cls.4,
        visual_treatment: cls.3,
        offset: 0,
        length: o.len() as int,
        original_text: o,
        suggestions: seq![c],
        primary_suggestion: c,
        explanation: ai_rewrite_expl(source),
        source_stage: source,
        auto_apply: false,
    }
}

/// The correction for a substitution at word position `q`, numbered `n`.
pub open spec fn ai_sub_edit(o: Seq<char>, c: Seq<char>, source: Seq<char>, q: int, n: int)
    -> CorrectionModel {
    let cls = ai_class(source, false);
    CorrectionModel {
        id: source + "_"@ + dec_str(n),
        category: cls.0,
        subcategory: cls.1,
        severity: cls.2,
        confidence: cls.4,
        visual_treatment: cls.3,
        offset: word_spans(o)[q].0,
        length: word_spans(o)[q].1 - word_spans(o)[q].0,
        original_text: words_of(o)[q],
        suggestions: seq![words_of(c)[q]],
        primary_suggestion: words_of(c)[q],
        explanation: ai_word_expl(source, words_of(o)[q], words_of(c)[q]),
        source_stage: source,
        auto_apply: false,
    }
}

/// The word substitutions among the first `i` aligned positions, numbered
/// consecutively from `n0 + 1`.
pub open spec fn ai_sub_edits(o: Seq<char>, c: Seq<char>, source: Seq<char>, n0: int, i: int)
    -> Seq<CorrectionModel>
    decreases i when i >= 0
{
    if i <= 0 {
        Seq::empty()
    } else {
        let prev = ai_sub_edits(o, c, source, n0, i - 1);
        prev + if words_of(o)[i - 1] != words_of(c)[i - 1] {
            seq![ai_sub_edit(o, c, source, i - 1, n0 + prev.len() + 1)]
        } else {
            Seq::empty()
        }
    }
}

/// The trailing insertion a stage contributes when its output has more
/// words: the extra words, each preceded by a space, inserted at the end of
/// the base text. Numbered `n`.
pub open spec fn ai_ins_edit(o: Seq<char>, c: Seq<char>, source: Seq<char>, n: int)
    -> CorrectionModel {
    let cls = ai_class(source, false);
    CorrectionModel {
        id: source + "_"@ + dec_str(n),
        category: cls.0,
        subcategory: cls.1,
        severity: cls.2,
        confidence: cls.4,
        visual_treatment: cls.3,
        offset: o.len() as int,
        length: 0,
        original_text: Seq::empty(),
        suggestions: seq![ins_rep(words_of(c), words_of(o).len() as int)],
        primary_suggestion: ins_rep(words_of(c), words_of(o).len() as int),
        explanation: "Add missing text"@,
        source_stage: source,
        auto_apply: false,
    }
}

/// The deletion of the extra trailing base word at position `q`, numbered `n`.
pub open spec fn ai_del_edit(o: Seq<char>, c: Seq<char>, source: Seq<char>, q: int, n: int)
    -> CorrectionModel {
    let cls = ai_class(source, false);
    CorrectionModel {
        id: source + "_"@ + dec_str(n),
        category: cls.0,
        subcategory: cls.1,
        severity: cls.2,
        confidence: cls.4,
        visual_treatment: cls.3,
        offset: word_spans(o)[q].0,
        length: word_spans(o)[q].1 - word_spans(o)[q].0,
        original_text: words_of(o)[q],
        suggestions: seq![Seq::<char>::empty()],
        primary_suggestion: Seq::empty(),
        explanation: "Remove extra word"@,
        source_stage: source,
        auto_apply: false,
    }
}

/// One deletion per extra trailing base word among positions below `i`,
/// numbered consecutively from `n0 + 1`.
pub open spec fn ai_del_edits(o: Seq<char>, c: Seq<char>, source: Seq<char>, n0: int, i: int)
    -> Seq<CorrectionModel>
    decreases i when i >= 0
{
    if i <= words_of(c).len() || i <= 0 {
        Seq::empty()
    } else {
        let prev = ai_del_edits(o, c, source, n0, i - 1);
        prev + seq![ai_del_edit(o, c, source, i - 1, n0 + prev.len() + 1)]
    }
}

/// The corrections a generated stage contributes for `(o, c)`: one rephrase
/// for a wholesale rewrite; otherwise one substitution per changed word,
/// plus one trailing insertion when the output has more words, or one
/// deletion per extra trailing base word when it has fewer.
pub open spec fn ai_diffs(o: Seq<char>, c: Seq<char>, source: Seq<char>, n0: int)
    -> Seq<CorrectionModel> {
    let ow = words_of(o);
    let cw = words_of(c);
    if is_rewrite(ow, cw) {
        seq![ai_rephrase(o, c, source, n0 + 1)]
    } else {
        let subs = ai_sub_edits(o, c, source, n0, min_len(ow, cw));
        subs + (if cw.len() > ow.len() {
            seq![ai_ins_edit(o, c, source, n0 + subs.len() + 1)]
        } else {
            Seq::empty()
        }) + (if ow.len() > cw.len() {
            ai_del_edits(o, c, source, n0 + subs.len(), ow.len() as int)
        } else {
            Seq::empty()
        })
    }
}

/// A stage whose output is its own input contributes no corrections.
pub proof fn lemma_ai_self_align_empty(o: Seq<char>, source: Seq<char>, n0: int)
    ensures
        ai_diffs(o, o, source, n0).len() == 0,
{
    let w = words_of(o);
    lemma_count_changes_self(w, min_len(w, w));
    lemma_ai_sub_edits_self(o, source, n0, min_len(w, w));
    assert(ai_diffs(o, o, source, n0) =~= Seq::<CorrectionModel>::empty());
}

proof fn lemma_ai_sub_edits_self(o: Seq<char>, source: Seq<char>, n0: int, i: int)
    requires
        i >= 0,
    ensures
        ai_sub_edits(o, o, source, n0, i).len() == 0,
    decreases i,
{
    if i > 0 {
        lemma_ai_sub_edits_self(o, source, n0, i - 1);
        assert(ai_sub_edits(o, o, source, n0, i) =~= ai_sub_edits(o, o, source, n0, i - 1));
    }
}

proof fn lemma_ai_sub_edits_len(o: Seq<char>, c: Seq<char>, source: Seq<char>, n0: int, i: int)
    requires
        i >= 0,
    ensures
        ai_sub_edits(o, c, source, n0, i).len() <= i,
    decreases i,
{
    if i > 0 {
        lemma_ai_sub_edits_len(o, c, source, n0, i - 1);
    }
}

impl GrammarCorrection {
    /// Word-granularity alignment of a generated correction, with stage-aware
    /// categorization: substitutions at matched word positions, one trailing
    /// insertion when the output has more words, one deletion per extra
    /// trailing base word when it has fewer. Ids continue from the counter,
    /// which advances by the number of corrections emitted.
    #[verifier::loop_isolation(false)]
    pub fn find_ai_diffs(original: &str, corrected: &str, source: &str, id_counter: &mut u128)
        -> (r: Vec<GrammarCorrection>)
        requires
            *old(id_counter) + words_of(original@).len() + 1 <= u128::MAX,
        ensures
            correction_models(r@) == ai_diffs(
                original@,
                corrected@,
                source@,
                *old(id_counter) as int,
            ),
            *final(id_counter) == *old(id_counter) + ai_diffs(
                original@,
                corrected@,
                source@,
                *old(id_counter) as int,
            ).len(),
    {
        let ghost n0 = *id_counter as int;
        let o_toks = split_words(original);
        let c_toks = split_words(corrected);
        let ghost ow = words_of(original@);
        let ghost cw = words_of(corrected@);
        let olen = o_toks.len();
        let clen = c_toks.len();
        let m = if olen <= clen {
            olen
        } else {
            clen
        };
        let mut changes: usize = 0;
        let mut i: usize = 0;
        while i < m
            invariant
                i <= m,
                changes <= i,
                changes as int == count_changes(ow, cw, i as int),
            decreases m - i,
        {
            proof {
                assert(ow[i as int] == original@.subrange(
                    word_spans(original@)[i as int].0,
                    word_spans(original@)[i as int].1,
                ));
                assert(cw[i as int] == corrected@.subrange(
                    word_spans(corrected@)[i as int].0,
                    word_spans(corrected@)[i as int].1,
                ));
            }
            if !str_eq(o_toks[i].text.as_str(), c_toks[i].text.as_str()) {
                changes = changes + 1;
            }
            i = i + 1;
        }
        let word_gap = if olen <= clen {
            clen - olen
        } else {
            olen - clen
        };
        let rewrite = 2 * (changes as u128 + word_gap as u128) > (if olen >= 1 {
            olen as u128
        } else {
            1u128
        });
        proof {
            assert(rewrite == is_rewrite(ow, cw));
        }
        if rewrite {
            *id_counter = *id_counter + 1;
            let cls = ai_class_exec(source, true);
            let mut id = String::from_str(source);
            id.append("_");
            append_dec(&mut id, *id_counter);
            let mut suggestions: Vec<String> = Vec::new();
            suggestions.push(corrected.to_owned());
            let expl = ai_rewrite_expl_exec(source);
            let sg = GrammarCorrection {
                id,
                category: cls.0,
                subcategory: cls.1,
                severity: cls.2,
                confidence: cls.4,
                visual_treatment: cls.3,
                offset: 0,
                length: original.unicode_len(),
                original_text: original.to_owned(),
                suggestions,
                primary_suggestion: corrected.to_owned(),
                explanation: expl,
                source_stage: String::from_str(source),
                auto_apply: false,
            };
            let mut r: Vec<GrammarCorrection> = Vec::new();
            r.push(sg);
            proof {
                reveal_strlit("_");
                assert("_"@ =~= seq!['_']);
                assert(r@[0]@.id =~= source@ + "_"@ + dec_str(n0 + 1));
                assert(r@[0]@.suggestions =~= seq![corrected@]);
                assert(r@[0]@ == ai_rephrase(original@, corrected@, source@, n0 + 1));
                assert(correction_models(r@) =~= seq![
                    ai_rephrase(original@, corrected@, source@, n0 + 1),
                ]);
            }
            return r;
        }
        let mut r: Vec<GrammarCorrection> = Vec::new();
        let mut i: usize = 0;
        while i < m
            invariant
                i <= m,
                correction_models(r@) == ai_sub_edits(original@, corrected@, source@, n0, i as int),
                r@.len() <= i,
                *id_counter as int == n0 + r@.len(),
            decreases m - i,
        {
            proof {
                assert(ow[i as int] == original@.subrange(
                    word_spans(original@)[i as int].0,
                    word_spans(original@)[i as int].1,
                ));
                assert(cw[i as int] == corrected@.subrange(
                    word_spans(corrected@)[i as int].0,
                    word_spans(corrected@)[i as int].1,
                ));
            }
            if !str_eq(o_toks[i].text.as_str(), c_toks[i].text.as_str()) {
                *id_counter = *id_counter + 1;
                let cls = ai_class_exec(source, false);
                let mut id = String::from_str(source);
                id.append("_");
                append_dec(&mut id, *id_counter);
                let mut suggestions: Vec<String> = Vec::new();
                suggestions.push(c_toks[i].text.clone());
                let mut expl = ai_word_expl_prefix_exec(source);
                expl.append(o_toks[i].text.as_str());
                expl.append("' → '");
                expl.append(c_toks[i].text.as_str());
                expl.append("'");
                let sg = GrammarCorrection {
                    id,
                    category: cls.0,
                    subcategory: cls.1,
                    severity: cls.2,
                    confidence: cls.4,
                    visual_treatment: cls.3,
                    offset: o_toks[i].start,
                    length: o_toks[i].text.as_str().unicode_len(),
                    original_text: o_toks[i].text.clone(),
                    suggestions,
                    primary_suggestion: c_toks[i].text.clone(),
                    explanation: expl,
                    source_stage: String::from_str(source),
                    auto_apply: false,
                };
                let ghost pre = r@;
                r.push(sg);
                proof {
                    reveal_strlit("_");
                    assert("_"@ =~= seq!['_']);
                    let ghost model = ai_sub_edit(
                        original@,
                        corrected@,
                        source@,
                        i as int,
                        n0 + pre.len() + 1,
                    );
                    assert(r@[pre.len() as int]@.id =~= model.id);
                    assert(r@[pre.len() as int]@.suggestions =~= model.suggestions);
                    assert(r@[pre.len() as int]@.explanation =~= model.explanation);
                    assert(r@[pre.len() as int]@ == model);
                    assert(correction_models(r@) =~= correction_models(pre).push(model));
                    assert(ai_sub_edits(original@, corrected@, source@, n0, i + 1)
                        =~= ai_sub_edits(original@, corrected@, source@, n0, i as int).push(model));
                }
            } else {
                proof {
                    assert(ai_sub_edits(original@, corrected@, source@, n0, i + 1)
                        =~= ai_sub_edits(original@, corrected@, source@, n0, i as int));
                }
            }
            i = i + 1;
        }
        let ghost subs_len = r@.len() as int;
        if clen > olen {
            let mut rep = String::new();
            let mut q: usize = olen;
            while q < clen
                invariant
                    olen <= q <= clen,
                    ins_rep(cw, olen as int) == rep@ + ins_rep(cw, q as int),
                decreases clen - q,
            {
                proof {
                    assert(cw[q as int] == corrected@.subrange(
                        word_spans(corrected@)[q as int].0,
                        word_spans(corrected@)[q as int].1,
                    ));
                }
                rep.append(" ");
                rep.append(c_toks[q].text.as_str());
                proof {
                    reveal_strlit(" ");
                    assert(" "@ =~= seq![' ']);
                    assert(ins_rep(cw, q as int) =~= seq![' '] + cw[q as int] + ins_rep(
                        cw,
                        q + 1,
                    ));
                    assert(ins_rep(cw, olen as int) =~= rep@ + ins_rep(cw, q + 1));
                }
                q = q + 1;
            }
            proof {
                assert(ins_rep(cw, clen as int) =~= Seq::<char>::empty());
                assert(rep@ =~= ins_rep(cw, olen as int));
            }
            *id_counter = *id_counter + 1;
            let cls = ai_class_exec(source, false);
            let mut id = String::from_str(source);
            id.append("_");
            append_dec(&mut id, *id_counter);
            let mut suggestions: Vec<String> = Vec::new();
            suggestions.push(rep.clone());
            let sg = GrammarCorrection {
                id,
                category: cls.0,
                subcategory: cls.1,
                severity: cls.2,
                confidence: cls.4,
                visual_treatment: cls.3,
                offset: original.unicode_len(),
                length: 0,
                original_text: String::new(),
                suggestions,
                primary_suggestion: rep,
                explanation: String::from_str("Add missing text"),
                source_stage: String::from_str(source),
                auto_apply: false,
            };
            let ghost pre = r@;
            r.push(sg);
            proof {
                reveal_strlit("_");
                assert("_"@ =~= seq!['_']);
                let ghost model = ai_ins_edit(original@, corrected@, source@, n0 + subs_len + 1);
                assert(r@[pre.len() as int]@.id =~= model.id);
                assert(r@[pre.len() as int]@.suggestions =~= model.suggestions);
                assert(r@[pre.len() as int]@.original_text =~= model.original_text);
                assert(r@[pre.len() as int]@ == model);
                assert(correction_models(r@) =~= correction_models(pre).push(model));
                assert(correction_models(r@) =~= ai_diffs(original@, corrected@, source@, n0));
            }
        } else if olen > clen {
            let ghost nd = n0 + subs_len;
            proof {
                assert(ai_del_edits(original@, corrected@, source@, nd, clen as int)
                    =~= Seq::<CorrectionModel>::empty());
                assert(correction_models(r@) =~= ai_sub_edits(
                    original@,
                    corrected@,
                    source@,
                    n0,
                    m as int,
                ) + ai_del_edits(original@, corrected@, source@, nd, clen as int));
            }
            let mut i: usize = clen;
            while i < olen
                invariant
                    clen <= i <= olen,
                    r@.len() == subs_len + (i - clen),
                    *id_counter as int == n0 + r@.len(),
                    correction_models(r@) == ai_sub_edits(
                        original@,
                        corrected@,
                        source@,
                        n0,
                        m as int,
                    ) + ai_del_edits(original@, corrected@, source@, nd, i as int),
                decreases olen - i,
            {
                proof {
                    assert(ow[i as int] == original@.subrange(
                        word_spans(original@)[i as int].0,
                        word_spans(original@)[i as int].1,
                    ));
                }
                *id_counter = *id_counter + 1;
                let cls = ai_class_exec(source, false);
                let mut id = String::from_str(source);
                id.append("_");
                append_dec(&mut id, *id_counter);
                let mut suggestions: Vec<String> = Vec::new();
                suggestions.push(String::new());
                let sg = GrammarCorrection {
                    id,
                    category: cls.0,
                    subcategory: cls.1,
                    severity: cls.2,
                    confidence: cls.4,
                    visual_treatment: cls.3,
                    offset: o_toks[i].start,
                    length: o_toks[i].text.as_str().unicode_len(),
                    original_text: o_toks[i].text.clone(),
                    suggestions,
                    primary_suggestion: String::new(),
                    explanation: String::from_str("Remove extra word"),
                    source_stage: String::from_str(source),
                    auto_apply: false,
                };
                let ghost pre = r@;
                r.push(sg);
                proof {
                    reveal_strlit("_");
                    assert("_"@ =~= seq!['_']);
                    let ghost model = ai_del_edit(
                        original@,
                        corrected@,
                        source@,
                        i as int,
                        nd + (i - clen) + 1,
                    );
                    assert(r@[pre.len() as int]@.id =~= model.id);
                    assert(r@[pre.len() as int]@.suggestions =~= model.suggestions);
                    assert(r@[pre.len() as int]@ == model);
                    assert(correction_models(r@) =~= correction_models(pre).push(model));
                    assert(ai_del_edits(original@, corrected@, source@, nd, i + 1)
                        =~= ai_del_edits(original@, corrected@, source@, nd, i as int).push(
                        model,
                    ));
                }
                i = i + 1;
            }
            proof {
                assert(correction_models(r@) =~= ai_diffs(original@, corrected@, source@, n0));
            }
        } else {
            proof {
                assert(ai_del_edits(original@, corrected@, source@, n0 + subs_len, olen as int)
                    =~= Seq::<CorrectionModel>::empty());
                assert(correction_models(r@) =~= ai_diffs(original@, corrected@, source@, n0));
            }
        }
        r
    }

    /// Corrections for one generated stage: none when the stage output agrees
    /// with its input up to surrounding whitespace, otherwise the alignment.
    pub fn from_ai_correction(original: &str, corrected: &str, source: &str, id_counter: &mut u128)
        -> (r: Vec<GrammarCorrection>)
        requires
            *old(id_counter) + words_of(original@).len() + 1 <= u128::MAX,
        ensures
            trim_spec(original@) == trim_spec(corrected@) ==> r@.len() == 0 && *final(id_counter)
                == *old(id_counter),
            trim_spec(original@) != trim_spec(corrected@) ==> correction_models(r@) == ai_diffs(
                original@,
                corrected@,
                source@,
                *old(id_counter) as int,
            ) && *final(id_counter) == *old(id_counter) + ai_diffs(
                original@,
                corrected@,
                source@,
                *old(id_counter) as int,
            ).len(),
    {
        if trim_eq(original, corrected) {
            Vec::new()
        } else {
            GrammarCorrection::find_ai_diffs(original, corrected, source, id_counter)
        }
    }
}

fn ai_class_exec(source: &str, rewrite: bool) -> (r: (String, String, String, String, u32))
    ensures
        r.0@ == ai_class(source@, rewrite).0,
        r.1@ == ai_class(source@, rewrite).1,
        r.2@ == ai_class(source@, rewrite).2,
        r.3@ == ai_class(source@, rewrite).3,
        r.4 as int == ai_class(source@, rewrite).4,
{
    if str_eq(source, "gramformer") {
        if rewrite {
            (String::from_str("clarity"), String::from_str("sentence_structure"), String::from_str(
                "important",
            ), String::from_str("underline"), 80)
        } else {
            (String::from_str("correctness"), String::from_str("grammar"), String::from_str(
                "important",
            ), String::from_str("underline"), 85)
        }
    } else if str_eq(source, "flan_t5") {
        if rewrite {
            (String::from_str("engagement"), String::from_str("flow"), String::from_str(
                "enhancement",
            ), String::from_str("subtle"), 70)
        } else {
            (String::from_str("clarity"), String::from_str("word_choice"), String::from_str(
                "enhancement",
            ), String::from_str("subtle"), 75)
        }
    } else {
        (String::from_str("correctness"), String::from_str("grammar"), String::from_str(
            "important",
        ), String::from_str("underline"), 80)
    }
}

fn ai_rewrite_expl_exec(source: &str) -> (r: String)
    ensures
        r@ == ai_rewrite_expl(source@),
{
    if str_eq(source, "gramformer") {
        String::from_str("Grammar and structure improvements")
    } else if str_eq(source, "flan_t5") {
        String::from_str("Enhanced clarity and natural flow")
    } else {
        String::from_str("AI-suggested improvements")
    }
}

fn ai_word_expl_prefix_exec(source: &str) -> (r: String)
    ensures
        r@ == ai_word_expl_prefix(source@),
{
    if str_eq(source, "gramformer") {
        String::from_str("Grammar: '")
    } else if str_eq(source, "flan_t5") {
        String::from_str("Style: '")
    } else {
        String::from_str("Correction: '")
    }
}

/// Sort key of the deduplication pass: ascending offset, then descending
/// confidence.
pub open spec fn key_lt(a: CorrectionModel, b: CorrectionModel) -> bool {
    a.offset < b.offset || (a.offset == b.offset && a.confidence > b.confidence)
}

/// Stable insertion of `x` after every element it is not key-less than.
pub open spec fn insert_sorted(t: Seq<CorrectionModel>, x: CorrectionModel)
    -> Seq<CorrectionModel>
    decreases t.len()
{
    if t.len() == 0 {
        seq![x]
    } else if key_lt(x, t.last()) {
        insert_sorted(t.drop_last(), x) + seq![t.last()]
    } else {
        t + seq![x]
    }
}

/// Stable insertion sort by [`key_lt`].
pub open spec fn sort_corrections(s: Seq<CorrectionModel>) -> Seq<CorrectionModel>
    decreases s.len()
{
    if s.len() == 0 {
        Seq::empty()
    } else {
        insert_sorted(sort_corrections(s.drop_last()), s.last())
    }
}

/// Two corrections overlap when their half-open character intervals do.
pub open spec fn overlaps(a: CorrectionModel, b: CorrectionModel) -> bool {
    a.offset < b.offset + b.length && b.offset < a.offset + a.length
}

/// The greedy pass of the deduplication: walk `s` from position `i` keeping
/// an element only when it overlaps nothing already kept.
pub open spec fn dedup_from(s: Seq<CorrectionModel>, i: int, kept: Seq<CorrectionModel>)
    -> Seq<CorrectionModel>
    decreases s.len() - i when i >= 0
{
    if i >= s.len() {
        kept
    } else {
        let kept2 = if exists|e: int| 0 <= e < kept.len() && overlaps(s[i], #[trigger] kept[e]) {
            kept
        } else {
            kept.push(s[i])
        };
        dedup_from(s, i + 1, kept2)
    }
}

/// What deduplication returns: the greedy pass over the sorted corrections.
pub open spec fn spec_dedup(s: Seq<CorrectionModel>) -> Seq<CorrectionModel> {
    dedup_from(sort_corrections(s), 0, Seq::empty())
}

pub open spec fn pairwise_disjoint(s: Seq<CorrectionModel>) -> bool {
    forall|i: int, j: int| 0 <= i < s.len() && 0 <= j < s.len() && i != j ==> !overlaps(
        #[trigger] s[i],
        #[trigger] s[j],
    )
}

proof fn lemma_dedup_from_disjoint(s: Seq<CorrectionModel>, i: int, kept: Seq<CorrectionModel>)
    requires
        i >= 0,
        pairwise_disjoint(kept),
    ensures
        pairwise_disjoint(dedup_from(s, i, kept)),
    decreases s.len() - i,
{
    if i < s.len() {
        if exists|e: int| 0 <= e < kept.len() && overlaps(s[i], #[trigger] kept[e]) {
            lemma_dedup_from_disjoint(s, i + 1, kept);
        } else {
            let kept2 = kept.push(s[i]);
            assert forall|a: int, b: int|
                0 <= a < kept2.len() && 0 <= b < kept2.len() && a != b implies !overlaps(
                kept2[a],
                kept2[b],
            ) by {
                if a < kept.len() && b < kept.len() {
                    assert(!overlaps(kept[a], kept[b]));
                } else if a == kept.len() {
                    assert(!overlaps(kept2[a], kept[b]));
                } else {
                    assert(!overlaps(kept2[b], kept[a]));
                    assert(overlaps(kept2[a], kept2[b]) ==> overlaps(kept2[b], kept2[a]));
                }
            }
            lemma_dedup_from_disjoint(s, i + 1, kept2);
        }
    }
}

/// The deduplicated corrections never hold two overlapping intervals.
pub proof fn lemma_dedup_disjoint(s: Seq<CorrectionModel>)
    ensures
        pairwise_disjoint(spec_dedup(s)),
{
    lemma_dedup_from_disjoint(sort_corrections(s), 0, Seq::empty());
}

proof fn lemma_dedup_from_prefix(s: Seq<CorrectionModel>, i: int, kept: Seq<CorrectionModel>)
    requires
        i >= 0,
    ensures
        kept.len() <= dedup_from(s, i, kept).len(),
        forall|q: int| 0 <= q < kept.len() ==> #[trigger] dedup_from(s, i, kept)[q] == kept[q],
    decreases s.len() - i,
{
    if i < s.len() {
        if exists|e: int| 0 <= e < kept.len() && overlaps(s[i], #[trigger] kept[e]) {
            lemma_dedup_from_prefix(s, i + 1, kept);
        } else {
            lemma_dedup_from_prefix(s, i + 1, kept.push(s[i]));
        }
    }
}

proof fn lemma_dedup_from_witness(s: Seq<CorrectionModel>, i: int, kept: Seq<CorrectionModel>)
    requires
        i >= 0,
    ensures
        forall|j: int|
            i <= j < s.len() ==> dedup_from(s, i, kept).contains(#[trigger] s[j]) || exists|e: int|
                0 <= e < dedup_from(s, i, kept).len() && overlaps(
                    s[j],
                    #[trigger] dedup_from(s, i, kept)[e],
                ),
    decreases s.len() - i,
{
    if i < s.len() {
        let r = dedup_from(s, i, kept);
        if exists|e: int| 0 <= e < kept.len() && overlaps(s[i], #[trigger] kept[e]) {
            lemma_dedup_from_witness(s, i + 1, kept);
            lemma_dedup_from_prefix(s, i + 1, kept);
            let e = choose|e: int| 0 <= e < kept.len() && overlaps(s[i], #[trigger] kept[e]);
            assert(r[e] == kept[e]);
            assert(overlaps(s[i as int], r[e]));
        } else {
            let kept2 = kept.push(s[i]);
            lemma_dedup_from_witness(s, i + 1, kept2);
            lemma_dedup_from_prefix(s, i + 1, kept2);
            assert(r[kept.len() as int] == s[i]);
            assert(r.contains(s[i]));
        }
    }
}

/// Nothing is dropped silently: every correction of the sorted list that the
/// deduplication does not keep overlaps one of the kept corrections.
pub proof fn lemma_dedup_dropped_overlap(ms: Seq<CorrectionModel>)
    ensures
        forall|j: int|
            0 <= j < sort_corrections(ms).len() ==> spec_dedup(ms).contains(
                #[trigger] sort_corrections(ms)[j],
            ) || exists|e: int|
                0 <= e < spec_dedup(ms).len() && overlaps(
                    sort_corrections(ms)[j],
                    #[trigger] spec_dedup(ms)[e],
                ),
{
    lemma_dedup_from_witness(sort_corrections(ms), 0, Seq::empty());
}

proof fn lemma_insert_sorted_at(t: Seq<CorrectionModel>, x: CorrectionModel, p: int)
    requires
        0 <= p <= t.len(),
        forall|q: int| p <= q < t.len() ==> key_lt(x, #[trigger] t[q]),
        p == 0 || !key_lt(x, t[p - 1]),
    ensures
        insert_sorted(t, x) =~= t.subrange(0, p) + seq![x] + t.subrange(p, t.len() as int),
    decreases t.len(),
{
    if t.len() == 0 {
    } else if key_lt(x, t.last()) {
        assert(p < t.len());
        lemma_insert_sorted_at(t.drop_last(), x, p);
        assert(t.drop_last().subrange(0, p) =~= t.subrange(0, p));
        assert(t.drop_last().subrange(p, t.len() - 1) =~= t.subrange(p, t.len() - 1));
        assert(insert_sorted(t, x) =~= t.subrange(0, p) + seq![x] + t.subrange(
            p,
            t.len() as int,
        ));
    } else {
        assert(p == t.len());
        assert(t.subrange(0, p) =~= t);
        assert(t.subrange(p, t.len() as int) =~= Seq::<CorrectionModel>::empty());
    }
}

/// Whether `x` overlaps any element of `kept`.
#[verifier::loop_isolation(false)]
fn overlaps_any(kept: &Vec<GrammarCorrection>, x: &GrammarCorrection) -> (r: bool)
    ensures
        r == exists|e: int|
            0 <= e < kept@.len() && overlaps(x@, #[trigger] correction_models(kept@)[e]),
{
    let mut e: usize = 0;
    while e < kept.len()
        invariant
            e <= kept@.len(),
            forall|q: int| 0 <= q < e ==> !overlaps(x@, #[trigger] correction_models(kept@)[q]),
        decreases kept@.len() - e,
    {
        let a = kept[e].offset as u128 + kept[e].length as u128;
        let b = x.offset as u128 + x.length as u128;
        if (x.offset as u128) < a && (kept[e].offset as u128) < b {
            proof {
                assert(overlaps(x@, correction_models(kept@)[e as int]));
            }
            return true;
        }
        e = e + 1;
    }
    false
}

/// Remove overlapping corrections: sort by ascending offset and descending
/// confidence, then keep each correction only if it overlaps nothing kept
/// before it. The result never holds two overlapping intervals.
#[verifier::loop_isolation(false)]
pub fn deduplicate_corrections(corrections: Vec<GrammarCorrection>) -> (r: Vec<GrammarCorrection>)
    ensures
        correction_models(r@) == spec_dedup(correction_models(corrections@)),
        pairwise_disjoint(correction_models(r@)),
{
    let ghost input = correction_models(corrections@);
    let mut sorted: Vec<GrammarCorrection> = Vec::new();
    let mut i: usize = 0;
    while i < corrections.len()
        invariant
            i <= corrections@.len(),
            correction_models(sorted@) == sort_corrections(
                correction_models(corrections@).subrange(0, i as int),
            ),
        decreases corrections@.len() - i,
    {
        let x = &corrections[i];
        let mut p: usize = sorted.len();
        while p > 0 && key_lt_exec(x, &sorted[p - 1])
            invariant
                p <= sorted@.len(),
                forall|q: int| p <= q < sorted@.len() ==> key_lt(
                    x@,
                    #[trigger] correction_models(sorted@)[q],
                ),
            decreases p,
        {
            p = p - 1;
        }
        let ghost pre = correction_models(sorted@);
        sorted.insert(p, clone_correction(x));
        proof {
            lemma_insert_sorted_at(pre, x@, p as int);
            assert(correction_models(sorted@) =~= pre.subrange(0, p as int) + seq![x@]
                + pre.subrange(p as int, pre.len() as int));
            assert(correction_models(corrections@).subrange(0, i + 1).drop_last()
                =~= correction_models(corrections@).subrange(0, i as int));
            assert(correction_models(corrections@).subrange(0, i + 1).last() == x@);
            assert(correction_models(sorted@) =~= sort_corrections(
                correction_models(corrections@).subrange(0, i + 1),
            ));
        }
        i = i + 1;
    }
    proof {
        assert(correction_models(corrections@).subrange(0, corrections@.len() as int)
            =~= correction_models(corrections@));
    }
    let mut kept: Vec<GrammarCorrection> = Vec::new();
    proof {
        assert(correction_models(kept@) =~= Seq::<CorrectionModel>::empty());
    }
    let mut i: usize = 0;
    while i < sorted.len()
        invariant
            i <= sorted@.len(),
            dedup_from(correction_models(sorted@), i as int, correction_models(kept@))
                == dedup_from(correction_models(sorted@), 0, Seq::empty()),
        decreases sorted@.len() - i,
    {
        let ghost pre_kept = correction_models(kept@);
        if !overlaps_any(&kept, &sorted[i]) {
            kept.push(clone_correction(&sorted[i]));
            proof {
                assert(correction_models(kept@) =~= pre_kept.push(
                    correction_models(sorted@)[i as int],
                ));
            }
        }
        i = i + 1;
    }
    proof {
        lemma_dedup_disjoint(input);
    }
    kept
}

fn key_lt_exec(a: &GrammarCorrection, b: &GrammarCorrection) -> (r: bool)
    ensures
        r == key_lt(a@, b@),
{
    a.offset < b.offset || (a.offset == b.offset && a.confidence > b.confidence)
}

/// A field-for-field copy of a correction.
fn clone_correction(c: &GrammarCorrection) -> (r: GrammarCorrection)
    ensures
        r@ == c@,
{
    let r = GrammarCorrection {
        id: c.id.clone(),
        category: c.category.clone(),
        subcategory: c.subcategory.clone(),
        severity: c.severity.clone(),
        confidence: c.confidence,
        visual_treatment: c.visual_treatment.clone(),
        offset: c.offset,
        length: c.length,
        original_text: c.original_text.clone(),
        suggestions: copy_strings(&c.suggestions),
        primary_suggestion: c.primary_suggestion.clone(),
        explanation: c.explanation.clone(),
        source_stage: c.source_stage.clone(),
        auto_apply: c.auto_apply,
    };
    r
}

/// How many of the first `i` corrections carry the given severity.
pub open spec fn count_severity(s: Seq<CorrectionModel>, sev: Seq<char>, i: int) -> int
    decreases i when i >= 0
{
    if i <= 0 {
        0
    } else {
        count_severity(s, sev, i - 1) + if s[i - 1].severity == sev {
            1int
        } else {
            0int
        }
    }
}

/// Statistics over the corrections: the total and one bucket per severity.
#[verifier::loop_isolation(false)]
pub fn calculate_stats(corrections: &Vec<GrammarCorrection>) -> (r: GrammarStats)
    ensures
        r.total_issues == corrections@.len(),
        r.critical as int == count_severity(
            correction_models(corrections@),
            "critical"@,
            corrections@.len() as int,
        ),
        r.important as int == count_severity(
            correction_models(corrections@),
            "important"@,
            corrections@.len() as int,
        ),
        r.enhancement as int == count_severity(
            correction_models(corrections@),
            "enhancement"@,
            corrections@.len() as int,
        ),
{
    proof {
        reveal_strlit("critical");
        reveal_strlit("important");
        reveal_strlit("enhancement");
        assert("critical"@.len() == 8 && "important"@.len() == 9 && "enhancement"@.len() == 11);
    }
    let mut critical: usize = 0;
    let mut important: usize = 0;
    let mut enhancement: usize = 0;
    let mut i: usize = 0;
    while i < corrections.len()
        invariant
            i <= corrections@.len(),
            critical <= i,
            important <= i,
            enhancement <= i,
            critical as int == count_severity(correction_models(corrections@), "critical"@, i as int),
            important as int == count_severity(
                correction_models(corrections@),
                "important"@,
                i as int,
            ),
            enhancement as int == count_severity(
                correction_models(corrections@),
                "enhancement"@,
                i as int,
            ),
        decreases corrections@.len() - i,
    {
        if str_eq(corrections[i].severity.as_str(), "critical") {
            critical = critical + 1;
        } else if str_eq(corrections[i].severity.as_str(), "important") {
            important = important + 1;
        } else if str_eq(corrections[i].severity.as_str(), "enhancement") {
            enhancement = enhancement + 1;
        }
        i = i + 1;
    }
    GrammarStats { total_issues: corrections.len(), critical, important, enhancement }
}

} // verus!
