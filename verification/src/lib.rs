//! Verified core of a grammar-correction service.
//!
//! The crate covers the three parts of such a service that carry real logic:
//! the repetition-avoidance heuristics and the greedy decode loop that turn
//! next-token scores into a rewritten candidate, the word-granularity text
//! aligner that reconciles a rewritten string against its base text as
//! byte-anchored edit spans, and the multi-stage orchestration that merges,
//! deduplicates and classifies the resulting suggestions.
//!
//! Everything outside this core (the neural scorer, the sub-word tokenizer,
//! the rule-based linter, HTTP transport) is a collaborator reached through
//! narrow interfaces: the scorer through the [`generate::ScoreSource`] trait,
//! the linter through plain [`correction::LintRecord`] values.

pub mod textutil;
pub mod align;
pub mod guard;
pub mod generate;
pub mod correction;
pub mod pipeline;
pub mod roundtrip;
