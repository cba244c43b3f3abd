use lserver::align::JSONSuggestion;
use lserver::correction::GrammarCorrection;

#[test]
fn ai_stage_identity_output_contributes_nothing() {
    let mut counter: u128 = 3;
    let r = GrammarCorrection::from_ai_correction("the cat", " the cat ", "gramformer", &mut counter);
    assert!(r.is_empty());
    assert_eq!(counter, 3);
}

#[test]
fn ai_stage_word_substitution_is_classified_by_stage() {
    let mut counter: u128 = 0;
    let r = GrammarCorrection::find_ai_diffs(
        "the cat sat down here",
        "the dog sat down here",
        "gramformer",
        &mut counter,
    );
    assert_eq!(r.len(), 1);
    assert_eq!(r[0].id, "gramformer_1");
    assert_eq!(r[0].category, "correctness");
    assert_eq!(r[0].subcategory, "grammar");
    assert_eq!(r[0].severity, "important");
    assert_eq!(r[0].confidence, 85);
    assert_eq!(r[0].visual_treatment, "underline");
    assert_eq!(r[0].offset, 4);
    assert_eq!(r[0].length, 3);
    assert_eq!(r[0].original_text, "cat");
    assert_eq!(r[0].primary_suggestion, "dog");
    assert_eq!(r[0].explanation, "Grammar: 'cat' → 'dog'");
    assert_eq!(counter, 1);
}

#[test]
fn ai_stage_rewrite_is_one_softly_marked_rephrase() {
    let mut counter: u128 = 0;
    let original = "one two three";
    let corrected = "completely new phrasing appears";
    let r = GrammarCorrection::find_ai_diffs(original, corrected, "flan_t5", &mut counter);
    assert_eq!(r.len(), 1);
    assert_eq!(r[0].id, "flan_t5_1");
    assert_eq!(r[0].category, "engagement");
    assert_eq!(r[0].subcategory, "flow");
    assert_eq!(r[0].severity, "enhancement");
    assert_eq!(r[0].confidence, 70);
    assert_eq!(r[0].visual_treatment, "subtle");
    assert_eq!(r[0].offset, 0);
    assert_eq!(r[0].length, original.len());
    assert_eq!(r[0].primary_suggestion, corrected);
}

fn harper_suggestion(offset: usize, length: usize, replacement: &str) -> JSONSuggestion {
    JSONSuggestion {
        kind: "spelling".to_string(),
        message: "m".to_string(),
        offset,
        length,
        replacements: vec![replacement.to_string()],
    }
}

#[test]
fn enhancement_builds_three_stage_suggestion() {
    let text = "teh cat";
    let suggestions = vec![harper_suggestion(0, 3, "the")];
    let corrected = "the cat";
    let gram = "the cats".to_string();
    let flan = "the cats!".to_string();
    let r = JSONSuggestion::new_with_t5_outputs(
        text,
        &suggestions,
        corrected,
        Some(&gram),
        Some((&flan, true)),
    );
    assert!(r.len() >= 2);
    assert_eq!(r[0].kind, "three_stage");
    assert_eq!(r[0].offset, 0);
    assert_eq!(r[0].length, text.len());
    assert_eq!(
        r[0].replacements,
        vec!["the cat".to_string(), "the cats".to_string(), "the cats!".to_string()]
    );
    assert!(r.iter().any(|s| s.kind == "spelling"));
    assert!(r.iter().all(|s| !s.replacements.is_empty()));
}

#[test]
fn empty_readability_on_long_sentence_suggests_a_split() {
    let mut words: Vec<String> = Vec::new();
    for i in 0..32 {
        if i == 11 {
            words.push("and".to_string());
        } else if i == 12 {
            words.push("bb".to_string());
        } else {
            words.push("aa".to_string());
        }
    }
    let text = words.join(" ");
    let readability = JSONSuggestion {
        kind: "readability".to_string(),
        message: "long sentence".to_string(),
        offset: 0,
        length: text.len(),
        replacements: vec![],
    };
    let suggestions = vec![readability];
    let r = JSONSuggestion::new_with_t5_outputs(&text, &suggestions, &text, None, None);
    assert_eq!(r.len(), 1);
    assert_eq!(r[0].kind, "rephrase");
    let first: String = words[..12].join(" ");
    let mut second: String = words[12..].join(" ");
    second.replace_range(0..1, "B");
    let expected = format!("{}. {}", first, second);
    assert_eq!(r[0].replacements, vec![expected]);
}

#[test]
fn enhancement_without_stages_keeps_linter_suggestions() {
    let text = "teh cat";
    let suggestions = vec![harper_suggestion(0, 3, "the")];
    let r = JSONSuggestion::new_with_t5_outputs(text, &suggestions, text, None, None);
    assert_eq!(r.len(), 1);
    assert_eq!(r[0].kind, "spelling");
    assert_eq!(r[0].replacements, vec!["the".to_string()]);
}
