use lserver::align::JSONSuggestion;
use lserver::correction::{
    deduplicate_corrections, calculate_stats, GrammarCorrection, LintFix, LintRecord,
};
use lserver::generate::{generate, generate_with_pad, ScoreSource};
use lserver::guard::{assess_future_repetition_risk, has_repeated_ngram, penalize};
use lserver::generate::{input_within_cap, strip_seed, truncate_to_cap};
use lserver::pipeline::{
    add_grammar_prefix, check_grammar_professional, materialize_corrections,
    materialize_suggestions, output_changed, stage_text, strip_grammar_prefix,
};

fn lint(start: usize, end: usize, kind: &str, message: &str, fixes: Vec<LintFix>) -> LintRecord {
    LintRecord {
        start,
        end,
        kind: kind.to_string(),
        message: message.to_string(),
        fixes,
    }
}

fn correction(id: &str, offset: usize, length: usize, confidence: u32, severity: &str, primary: &str) -> GrammarCorrection {
    GrammarCorrection {
        id: id.to_string(),
        category: "correctness".to_string(),
        subcategory: "grammar".to_string(),
        severity: severity.to_string(),
        confidence,
        visual_treatment: "underline".to_string(),
        offset,
        length,
        original_text: String::new(),
        suggestions: vec![primary.to_string()],
        primary_suggestion: primary.to_string(),
        explanation: String::new(),
        source_stage: "harper".to_string(),
        auto_apply: false,
    }
}

#[test]
fn align_identical_texts_yields_no_spans() {
    let r = JSONSuggestion::find_multiple_diffs("The cat sat.", "The cat sat.");
    assert!(r.is_empty());
    let r = JSONSuggestion::from_t5_correction("The cat sat.", "The cat sat.");
    assert!(r.is_empty());
}

#[test]
fn align_trim_equal_texts_yields_no_spans() {
    let r = JSONSuggestion::from_t5_correction("  hello world ", "hello world");
    assert!(r.is_empty());
}

#[test]
fn align_single_substitution_and_trailing_insertion() {
    let original = "The cat sit on the mat.";
    let corrected = "The cat sits on the mat. today";
    let r = JSONSuggestion::find_multiple_diffs(original, corrected);
    assert_eq!(r.len(), 2);
    assert_eq!(r[0].kind, "contextual");
    assert_eq!(r[0].offset, 8);
    assert_eq!(r[0].length, 3);
    assert_eq!(r[0].replacements, vec!["sits".to_string()]);
    assert_eq!(r[1].kind, "contextual");
    assert_eq!(r[1].offset, original.len());
    assert_eq!(r[1].length, 0);
    assert_eq!(r[1].replacements, vec![" today".to_string()]);
}

#[test]
fn align_heavy_rewrite_yields_single_whole_span() {
    // 3 of 5 word positions change: the change ratio exceeds one half.
    let original = "The cat sit on mat.";
    let corrected = "The cat sits on the mat.";
    let r = JSONSuggestion::find_multiple_diffs(original, corrected);
    assert_eq!(r.len(), 1);
    assert_eq!(r[0].kind, "rephrase");
    assert_eq!(r[0].offset, 0);
    assert_eq!(r[0].length, original.len());
    assert_eq!(r[0].replacements, vec![corrected.to_string()]);
}

#[test]
fn align_trailing_deletions_one_span_per_extra_word() {
    let r = JSONSuggestion::find_multiple_diffs("a b c d", "a b");
    assert_eq!(r.len(), 2);
    assert_eq!(r[0].offset, 4);
    assert_eq!(r[0].length, 1);
    assert_eq!(r[0].replacements, vec![String::new()]);
    assert_eq!(r[1].offset, 6);
    assert_eq!(r[1].length, 1);
    assert_eq!(r[1].replacements, vec![String::new()]);
}

#[test]
fn applying_substitution_spans_round_trips() {
    let original = "a b c";
    let corrected = "a x c";
    let spans = JSONSuggestion::find_multiple_diffs(original, corrected);
    let rebuilt = materialize_suggestions(original, &spans);
    assert_eq!(rebuilt, corrected);
}

#[test]
fn applying_rephrase_span_round_trips() {
    let original = "one two three four";
    let corrected = "entirely different words here now";
    let spans = JSONSuggestion::find_multiple_diffs(original, corrected);
    let rebuilt = materialize_suggestions(original, &spans);
    assert_eq!(rebuilt, corrected);
}

fn words_of_text(text: &str) -> Vec<String> {
    lserver::textutil::split_words(text)
        .into_iter()
        .map(|t| t.text)
        .collect()
}

#[test]
fn applying_insertion_span_round_trips_at_word_level() {
    let original = "a b";
    let corrected = "a b c d";
    let spans = JSONSuggestion::find_multiple_diffs(original, corrected);
    let rebuilt = materialize_suggestions(original, &spans);
    assert_eq!(words_of_text(&rebuilt), words_of_text(corrected));
}

#[test]
fn applying_deletion_spans_round_trips_at_word_level() {
    let original = "a b c d";
    let corrected = "a b";
    let spans = JSONSuggestion::find_multiple_diffs(original, corrected);
    let rebuilt = materialize_suggestions(original, &spans);
    assert_eq!(words_of_text(&rebuilt), words_of_text(corrected));
}

#[test]
fn risk_is_zero_for_short_benign_sequence() {
    let r = assess_future_repetition_risk(&vec![1usize, 2, 3]);
    assert_eq!(r, 0);
}

#[test]
fn risk_is_clamped_to_unit_interval() {
    // Alternating tokens stack every risk component far past the cap.
    let tokens: Vec<usize> = vec![5, 6, 5, 6, 5, 6, 5, 6];
    let r = assess_future_repetition_risk(&tokens);
    assert_eq!(r, 100);
    let long: Vec<usize> = (0..200).map(|i| if i % 2 == 0 { 7 } else { 8 }).collect();
    let r = assess_future_repetition_risk(&long);
    assert!(r <= 100);
    assert_eq!(r, 100);
}

#[test]
fn repeated_ngram_detection() {
    assert!(has_repeated_ngram(&vec![1usize, 2, 3, 1, 2], 2));
    assert!(!has_repeated_ngram(&vec![1usize, 2, 3, 4, 5], 2));
    assert!(!has_repeated_ngram(&vec![1usize, 2], 2));
}

#[test]
fn penalize_damps_generated_tokens_and_risky_candidates() {
    // Token 2 was generated (position past the seed): its positive score
    // shrinks by the 1.2 factor to 500, and the look-ahead pass charges it
    // another 3 * 0.20 for recurring within the recent window. Candidate 0
    // (the seed) is not damped but carries the same look-ahead charge;
    // candidates 1 and 3 are untouched.
    let mut scores: Vec<i64> = vec![600, 600, 600, 600];
    let generated: Vec<usize> = vec![0, 2];
    penalize(&mut scores, &generated);
    assert_eq!(scores[0], 540);
    assert_eq!(scores[1], 600);
    assert_eq!(scores[2], 440);
    assert_eq!(scores[3], 600);
}

struct EndImmediately;

impl ScoreSource for EndImmediately {
    fn next_scores(&mut self, _tokens: &Vec<usize>) -> Option<Vec<i64>> {
        // Token 1 always scores highest.
        Some(vec![0, 1000, 0])
    }
}

struct NeverEnds;

impl ScoreSource for NeverEnds {
    fn next_scores(&mut self, _tokens: &Vec<usize>) -> Option<Vec<i64>> {
        Some(vec![0, 0, 1000, 0])
    }
}

struct AlwaysFails;

impl ScoreSource for AlwaysFails {
    fn next_scores(&mut self, _tokens: &Vec<usize>) -> Option<Vec<i64>> {
        None
    }
}

#[test]
fn generation_stops_before_appending_end_token() {
    let mut source = EndImmediately;
    let r = generate(&mut source, 80, 0, 1);
    assert_eq!(r, vec![0usize]);
}

#[test]
fn generation_never_exceeds_budget_plus_seed() {
    let mut source = NeverEnds;
    let r = generate(&mut source, 5, 0, 1);
    assert_eq!(r.len(), 6);
    assert_eq!(r[0], 0);
    for &t in &r[1..] {
        assert_ne!(t, 1);
    }
}

#[test]
fn generation_aborts_on_scorer_failure() {
    let mut source = AlwaysFails;
    let r = generate(&mut source, 80, 0, 1);
    assert_eq!(r, vec![0usize]);
}

struct FavorsPad;

impl ScoreSource for FavorsPad {
    fn next_scores(&mut self, _tokens: &Vec<usize>) -> Option<Vec<i64>> {
        // The pad token (0) always scores highest.
        Some(vec![1000, 0, 0])
    }
}

#[test]
fn pad_sharing_generation_stops_at_pad_without_appending_it() {
    let mut source = FavorsPad;
    let r = generate_with_pad(&mut source, 50, 0, 1, 0);
    assert_eq!(r, vec![0usize]);
}

#[test]
fn pad_sharing_generation_never_appends_either_stop_token() {
    let mut source = NeverEnds;
    let r = generate_with_pad(&mut source, 5, 0, 1, 0);
    assert_eq!(r.len(), 6);
    assert_eq!(r[0], 0);
    for &t in &r[1..] {
        assert_ne!(t, 1);
        assert_ne!(t, 0);
    }
}

#[test]
fn look_ahead_probes_high_scoring_candidates_beyond_low_ids() {
    // Candidate 120 carries the top damped score, so it is among the probed
    // top-scoring candidates even though its id is past 100, and its
    // recurrence in the generated tail costs it the risk penalty.
    let mut scores: Vec<i64> = vec![600; 150];
    scores[120] = 1200;
    let generated: Vec<usize> = vec![0, 120];
    penalize(&mut scores, &generated);
    assert_eq!(scores[120], 940);
    assert_eq!(scores[0], 540);
    assert_eq!(scores[1], 600);
}

#[test]
fn failed_stage_passes_its_input_on_and_downstream_still_runs() {
    // The second stage failed: per the recovery policy its input (the
    // materialized linter text, here the request text) is handed on as its
    // output. The third stage still runs and its rewrite reaches the
    // response as the aggregate suggestion.
    let text = "one two three";
    let lints = vec![];
    let gram = text.to_string();
    let flan = "completely different words now".to_string();
    let r = check_grammar_professional(text, &lints, Some(&gram), Some(&flan));
    assert_eq!(r.corrections.len(), 1);
    assert_eq!(r.corrections[0].source_stage, "three_stage");
    assert_eq!(
        r.corrections[0].suggestions,
        vec![text.to_string(), text.to_string(), flan.clone()]
    );
}

#[test]
fn byte_offsets_follow_utf8_lengths() {
    assert_eq!(lserver::textutil::byte_offset_of("plain text", 6), 6);
    let s = "h\u{e9}llo world";
    assert_eq!(lserver::textutil::byte_offset_of(s, 0), 0);
    assert_eq!(lserver::textutil::byte_offset_of(s, 2), 3);
    assert_eq!(lserver::textutil::byte_offset_of(s, 5), 6);
}

#[test]
fn deduplication_never_keeps_overlapping_spans() {
    let a = correction("a", 0, 5, 90, "important", "x");
    let b = correction("b", 3, 5, 99, "critical", "y");
    let c = correction("c", 10, 2, 80, "enhancement", "z");
    let kept = deduplicate_corrections(vec![a, b, c]);
    assert_eq!(kept.len(), 2);
    for i in 0..kept.len() {
        for j in 0..kept.len() {
            if i != j {
                let (ki, kj) = (&kept[i], &kept[j]);
                assert!(ki.offset + ki.length <= kj.offset || kj.offset + kj.length <= ki.offset);
            }
        }
    }
}

#[test]
fn deduplication_prefers_higher_confidence_at_equal_offset() {
    let a = correction("low", 4, 3, 70, "enhancement", "x");
    let b = correction("high", 4, 3, 95, "critical", "y");
    let kept = deduplicate_corrections(vec![a, b]);
    assert_eq!(kept.len(), 1);
    assert_eq!(kept[0].id, "high");
}

#[test]
fn stats_count_by_severity() {
    let cs = vec![
        correction("a", 0, 1, 90, "critical", "x"),
        correction("b", 2, 1, 90, "critical", "x"),
        correction("c", 4, 1, 90, "important", "x"),
        correction("d", 6, 1, 90, "enhancement", "x"),
    ];
    let stats = calculate_stats(&cs);
    assert_eq!(stats.total_issues, 4);
    assert_eq!(stats.critical, 2);
    assert_eq!(stats.important, 1);
    assert_eq!(stats.enhancement, 1);
}

#[test]
fn harper_lint_conversion_classifies_spelling_as_critical() {
    let mut counter: u128 = 0;
    let l = lint(0, 3, "spelling", "Did you mean 'the'?", vec![
        LintFix::ReplaceWith("the".to_string()),
    ]);
    let c = GrammarCorrection::from_harper_lint("teh cat", &l, &mut counter);
    assert_eq!(c.id, "harper_1");
    assert_eq!(c.category, "correctness");
    assert_eq!(c.subcategory, "spelling");
    assert_eq!(c.severity, "critical");
    assert_eq!(c.confidence, 99);
    assert_eq!(c.visual_treatment, "highlight");
    assert!(c.auto_apply);
    assert_eq!(c.offset, 0);
    assert_eq!(c.length, 3);
    assert_eq!(c.original_text, "teh");
    assert_eq!(c.primary_suggestion, "the");
    assert_eq!(counter, 1);
}

#[test]
fn harper_ids_number_consecutively_past_one_digit() {
    let mut counter: u128 = 11;
    let l = lint(0, 3, "spelling", "m", vec![LintFix::ReplaceWith("the".to_string())]);
    let c = GrammarCorrection::from_harper_lint("teh cat", &l, &mut counter);
    assert_eq!(c.id, "harper_12");
    assert_eq!(counter, 12);
}

#[test]
fn harper_lint_span_end_is_clamped_to_the_text() {
    let mut counter: u128 = 0;
    let l = lint(4, 99, "spelling", "m", vec![LintFix::ReplaceWith("cap".to_string())]);
    let c = GrammarCorrection::from_harper_lint("teh cat", &l, &mut counter);
    assert_eq!(c.offset, 4);
    assert_eq!(c.length, 3);
    assert_eq!(c.original_text, "cat");
}

#[test]
fn harper_lint_conversion_defaults_to_important_grammar() {
    let mut counter: u128 = 6;
    let l = lint(4, 7, "wordchoice", "Pick another word.", vec![
        LintFix::ReplaceWith("dog".to_string()),
    ]);
    let c = GrammarCorrection::from_harper_lint("the cat", &l, &mut counter);
    assert_eq!(c.id, "harper_7");
    assert_eq!(c.subcategory, "grammar");
    assert_eq!(c.severity, "important");
    assert_eq!(c.confidence, 90);
    assert_eq!(c.visual_treatment, "underline");
    assert!(!c.auto_apply);
}

#[test]
fn legacy_lint_conversion_drops_removals_and_tags_insertions() {
    let l = lint(0, 3, "spelling", "msg", vec![
        LintFix::ReplaceWith("the".to_string()),
        LintFix::Remove,
        LintFix::InsertAfter("!".to_string()),
    ]);
    let s = JSONSuggestion::from_lint("teh cat", &l);
    assert_eq!(s.kind, "spelling");
    assert_eq!(s.offset, 0);
    assert_eq!(s.length, 3);
    assert_eq!(
        s.replacements,
        vec!["the".to_string(), "INSERT_AFTER: !".to_string()]
    );
}

#[test]
fn materialize_applies_corrections_in_offset_order() {
    let mut counter: u128 = 0;
    let text = "teh cat siz";
    let l1 = lint(0, 3, "spelling", "m", vec![LintFix::ReplaceWith("the".to_string())]);
    let l2 = lint(8, 11, "spelling", "m", vec![LintFix::ReplaceWith("sits".to_string())]);
    let c1 = GrammarCorrection::from_harper_lint(text, &l1, &mut counter);
    let c2 = GrammarCorrection::from_harper_lint(text, &l2, &mut counter);
    // Later offset first: materialization sorts by offset before applying.
    let out = materialize_corrections(text, &vec![c2, c1]);
    assert_eq!(out, "the cat sits");
}

#[test]
fn identity_stages_add_no_aggregate_suggestion() {
    // Both generator stages hand back their input: the response holds only
    // the linter's correction and no multi-stage aggregate.
    let text = "teh cat";
    let l = lint(0, 3, "spelling", "m", vec![LintFix::ReplaceWith("the".to_string())]);
    let lints = vec![l];
    let stage1 = "the cat".to_string();
    let r = check_grammar_professional(text, &lints, Some(&stage1), Some(&stage1));
    assert_eq!(r.corrections.len(), 1);
    assert_eq!(r.corrections[0].source_stage, "harper");
    assert!(r.corrections.iter().all(|c| c.source_stage != "three_stage"));
    assert_eq!(r.stats.total_issues, 1);
    assert_eq!(r.stats.critical, 1);
}

#[test]
fn rewriting_stage_survives_as_aggregate_suggestion() {
    // With no linter findings and a wholesale rewrite, the aggregate
    // multi-stage suggestion outranks the stage's own rephrase at the same
    // offset and is the one kept by deduplication.
    let text = "one two three";
    let lints = vec![];
    let gram = "completely different words now".to_string();
    let r = check_grammar_professional(text, &lints, Some(&gram), Some(&gram));
    assert_eq!(r.corrections.len(), 1);
    assert_eq!(r.corrections[0].source_stage, "three_stage");
    assert_eq!(r.corrections[0].offset, 0);
    assert_eq!(r.corrections[0].length, text.len());
    assert_eq!(
        r.corrections[0].suggestions,
        vec![text.to_string(), gram.clone(), gram.clone()]
    );
    assert_eq!(r.stats.enhancement, 1);
}

#[test]
fn seed_token_is_stripped_before_detokenization() {
    assert_eq!(strip_seed(&vec![0usize, 7, 9]), vec![7usize, 9]);
    assert_eq!(strip_seed(&vec![0usize]), Vec::<usize>::new());
    assert_eq!(strip_seed(&Vec::new()), Vec::<usize>::new());
}

#[test]
fn tokenized_input_cap_is_enforced() {
    let short: Vec<usize> = (0..256).collect();
    assert!(input_within_cap(&short));
    let mut long: Vec<usize> = (0..300).collect();
    assert!(!input_within_cap(&long));
    truncate_to_cap(&mut long);
    assert_eq!(long.len(), 256);
    assert_eq!(long[255], 255);
}

#[test]
fn task_marker_round_trips() {
    let prefixed = add_grammar_prefix("the cat");
    assert_eq!(prefixed, "grammar: the cat");
    assert_eq!(strip_grammar_prefix(&prefixed), "the cat");
    assert_eq!(strip_grammar_prefix("no marker here"), "no marker here");
}

#[test]
fn output_changed_ignores_surrounding_whitespace_and_empty_output() {
    assert!(!output_changed("the cat", " the cat "));
    assert!(output_changed("the cat", "the dog"));
    assert!(!output_changed("the cat", ""));
}

#[test]
fn stage_text_keeps_base_when_output_matches() {
    let base = "the cat".to_string();
    let same = " the cat ".to_string();
    assert_eq!(stage_text(&base, &same), "the cat");
    let changed = "the dog".to_string();
    assert_eq!(stage_text(&base, &changed), "the dog");
}
