//! Word-granularity text alignment.
//!
//! [`find_multiple_diffs`] reconciles a corrected string against its base
//! text and returns position-anchored edit suggestions. The algorithm is
//! deliberately word-granular rather than a minimum-edit-distance alignment:
//! texts whose change ratio exceeds one half become a single whole-string
//! "rephrase" span, anything closer becomes per-word substitutions plus one
//! trailing insertion or per-word trailing deletions.
//!
//! Offsets and lengths count characters of the base text (for ASCII text,
//! equivalently bytes).

use vstd::prelude::*;
use crate::textutil::{
    word_spans, words_of, split_words, str_eq, trim_eq, trim_spec, tok_matches,
};

verus! {

/// An edit suggestion against a specific base text.
pub struct JSONSuggestion {
    pub kind: String,
    pub message: String,
    pub offset: usize,
    pub length: usize,
    pub replacements: Vec<String>,
}

/// The mathematical shadow of a [`JSONSuggestion`].
pub struct EditModel {
    pub kind: Seq<char>,
    pub message: Seq<char>,
    pub offset: int,
    pub length: int,
    pub replacements: Seq<Seq<char>>,
}

impl View for JSONSuggestion {
    type V = EditModel;

    open spec fn view(&self) -> EditModel {
        EditModel {
            kind: self.kind@,
            message: self.message@,
            offset: self.offset as int,
            length: self.length as int,
            replacements: self.replacements.deep_view(),
        }
    }
}

pub open spec fn edit_models(v: Seq<JSONSuggestion>) -> Seq<EditModel> {
    v.map(|_q: int, sg: JSONSuggestion| sg@)
}

/// Number of index positions below `i` whose words differ.
pub open spec fn count_changes(ow: Seq<Seq<char>>, cw: Seq<Seq<char>>, i: int) -> int
    decreases i when i >= 0
{
    if i <= 0 {
        0
    } else {
        count_changes(ow, cw, i - 1) + if ow[i - 1] != cw[i - 1] {
            1int
        } else {
            0int
        }
    }
}

pub open spec fn min_len(ow: Seq<Seq<char>>, cw: Seq<Seq<char>>) -> int {
    if ow.len() <= cw.len() {
        ow.len() as int
    } else {
        cw.len() as int
    }
}

/// Changed word positions plus the word-count mismatch.
pub open spec fn total_changes(ow: Seq<Seq<char>>, cw: Seq<Seq<char>>) -> int {
    count_changes(ow, cw, min_len(ow, cw)) + if ow.len() <= cw.len() {
        cw.len() - ow.len()
    } else {
        ow.len() - cw.len()
    }
}

/// The change ratio exceeds one half: the correction counts as a wholesale
/// rewrite rather than a set of word-level edits.
pub open spec fn is_rewrite(ow: Seq<Seq<char>>, cw: Seq<Seq<char>>) -> bool {
    2 * total_changes(ow, cw) > (if ow.len() >= 1 {
        ow.len() as int
    } else {
        1int
    })
}

/// The single whole-string replacement emitted for a wholesale rewrite.
pub open spec fn rephrase_edit(o: Seq<char>, c: Seq<char>) -> EditModel {
    EditModel {
        kind: "rephrase"@,
        message: "Suggested rephrase for clarity and style"@,
        offset: 0,
        length: o.len() as int,
        replacements: seq![c],
    }
}

/// The word substitutions among the first `i` aligned word positions.
pub open spec fn sub_edits(o: Seq<char>, c: Seq<char>, i: int) -> Seq<EditModel>
    decreases i when i >= 0
{
    if i <= 0 {
        Seq::empty()
    } else {
        sub_edits(o, c, i - 1) + if words_of(o)[i - 1] != words_of(c)[i - 1] {
            seq![
                EditModel {
                    kind: "contextual"@,
                    message: "Grammar correction"@,
                    offset: word_spans(o)[i - 1].0,
                    length: word_spans(o)[i - 1].1 - word_spans(o)[i - 1].0,
                    replacements: seq![words_of(c)[i - 1]],
                },
            ]
        } else {
            Seq::empty()
        }
    }
}

/// The text of the trailing insertion: each extra corrected word from
/// position `from` on, preceded by a space.
pub open spec fn ins_rep(cw: Seq<Seq<char>>, from: int) -> Seq<char>
    decreases cw.len() - from when from >= 0
{
    if from >= cw.len() {
        Seq::empty()
    } else {
        seq![' '] + cw[from] + ins_rep(cw, from + 1)
    }
}

/// The single trailing insertion emitted when the correction has more words.
pub open spec fn ins_edit(o: Seq<char>, c: Seq<char>) -> EditModel {
    EditModel {
        kind: "contextual"@,
        message: "Add missing text"@,
        offset: o.len() as int,
        length: 0,
        replacements: seq![ins_rep(words_of(c), words_of(o).len() as int)],
    }
}

/// One deletion per extra trailing base word, up to word position `i`.
pub open spec fn del_edits(o: Seq<char>, c: Seq<char>, i: int) -> Seq<EditModel>
    decreases i when i >= 0
{
    if i <= words_of(c).len() || i <= 0 {
        Seq::empty()
    } else {
        del_edits(o, c, i - 1) + seq![
            EditModel {
                kind: "contextual"@,
                message: "Remove extra word"@,
                offset: word_spans(o)[i - 1].0,
                length: word_spans(o)[i - 1].1 - word_spans(o)[i - 1].0,
                replacements: seq![Seq::<char>::empty()],
            },
        ]
    }
}

/// The full word-granularity alignment of `c` against `o`.
pub open spec fn spec_diffs(o: Seq<char>, c: Seq<char>) -> Seq<EditModel> {
    let ow = words_of(o);
    let cw = words_of(c);
    if is_rewrite(ow, cw) {
        seq![rephrase_edit(o, c)]
    } else {
        sub_edits(o, c, min_len(ow, cw)) + (if cw.len() > ow.len() {
            seq![ins_edit(o, c)]
        } else {
            Seq::empty()
        }) + (if ow.len() > cw.len() {
            del_edits(o, c, ow.len() as int)
        } else {
            Seq::empty()
        })
    }
}

impl JSONSuggestion {
    /// Align `corrected` against `original` and return the edit suggestions,
    /// exactly as [`spec_diffs`] describes them.
    #[verifier::loop_isolation(false)]
    pub fn find_multiple_diffs(original: &str, corrected: &str) -> (r: Vec<JSONSuggestion>)
        ensures
            edit_models(r@) == spec_diffs(original@, corrected@),
    {
        let o_toks = split_words(original);
        let c_toks = split_words(corrected);
        let ghost ow = words_of(original@);
        let ghost cw = words_of(corrected@);
        proof {
            assert(o_toks@.len() == ow.len());
            assert(c_toks@.len() == cw.len());
            assert(forall|q: int| 0 <= q < ow.len() ==> #[trigger] ow[q] == original@.subrange(
                word_spans(original@)[q].0,
                word_spans(original@)[q].1,
            ));
            assert(forall|q: int| 0 <= q < cw.len() ==> #[trigger] cw[q] == corrected@.subrange(
                word_spans(corrected@)[q].0,
                word_spans(corrected@)[q].1,
            ));
        }
        let olen = o_toks.len();
        let clen = c_toks.len();
        let m = if olen <= clen {
            olen
        } else {
            clen
        };
        let mut changes: usize = 0;
        let mut i: usize = 0;
        while i < m
            invariant
                i <= m,
                m == min_len(ow, cw),
                olen == ow.len(),
                clen == cw.len(),
                o_toks@.len() == olen,
                c_toks@.len() == clen,
                changes <= i,
                changes as int == count_changes(ow, cw, i as int),
                forall|q: int| 0 <= q < olen ==> tok_matches(
                    original@,
                    #[trigger] o_toks@[q],
                    word_spans(original@)[q],
                ),
                forall|q: int| 0 <= q < clen ==> tok_matches(
                    corrected@,
                    #[trigger] c_toks@[q],
                    word_spans(corrected@)[q],
                ),
            decreases m - i,
        {
            proof {
                assert(ow[i as int] == original@.subrange(
                    word_spans(original@)[i as int].0,
                    word_spans(original@)[i as int].1,
                ));
                assert(cw[i as int] == corrected@.subrange(
                    word_spans(corrected@)[i as int].0,
                    word_spans(corrected@)[i as int].1,
                ));
            }
            if !str_eq(o_toks[i].text.as_str(), c_toks[i].text.as_str()) {
                changes = changes + 1;
            }
            i = i + 1;
        }
        let word_gap = if olen <= clen {
            clen - olen
        } else {
            olen - clen
        };
        let rewrite = 2 * (changes as u128 + word_gap as u128) > (if olen >= 1 {
            olen as u128
        } else {
            1u128
        });
        proof {
            assert(rewrite == is_rewrite(ow, cw));
        }
        if rewrite {
            let mut reps: Vec<String> = Vec::new();
            reps.push(corrected.to_owned());
            let sg = JSONSuggestion {
                kind: String::from_str("rephrase"),
                message: String::from_str("Suggested rephrase for clarity and style"),
                offset: 0,
                length: original.unicode_len(),
                replacements: reps,
            };
            let mut r: Vec<JSONSuggestion> = Vec::new();
            r.push(sg);
            proof {
                assert(r@[0]@.replacements =~= seq![corrected@]);
                assert(r@[0]@ == rephrase_edit(original@, corrected@));
                assert(edit_models(r@) =~= seq![rephrase_edit(original@, corrected@)]);
            }
            return r;
        }
        let mut r: Vec<JSONSuggestion> = Vec::new();
        let mut i: usize = 0;
        while i < m
            invariant
                i <= m,
                m == min_len(ow, cw),
                olen == ow.len(),
                clen == cw.len(),
                o_toks@.len() == olen,
                c_toks@.len() == clen,
                edit_models(r@) == sub_edits(original@, corrected@, i as int),
                forall|q: int| 0 <= q < olen ==> tok_matches(
                    original@,
                    #[trigger] o_toks@[q],
                    word_spans(original@)[q],
                ),
                forall|q: int| 0 <= q < clen ==> tok_matches(
                    corrected@,
                    #[trigger] c_toks@[q],
                    word_spans(corrected@)[q],
                ),
            decreases m - i,
        {
            proof {
                assert(ow[i as int] == original@.subrange(
                    word_spans(original@)[i as int].0,
                    word_spans(original@)[i as int].1,
                ));
                assert(cw[i as int] == corrected@.subrange(
                    word_spans(corrected@)[i as int].0,
                    word_spans(corrected@)[i as int].1,
                ));
            }
            if !str_eq(o_toks[i].text.as_str(), c_toks[i].text.as_str()) {
                let mut reps: Vec<String> = Vec::new();
                reps.push(c_toks[i].text.clone());
                let sg = JSONSuggestion {
                    kind: String::from_str("contextual"),
                    message: String::from_str("Grammar correction"),
                    offset: o_toks[i].start,
                    length: o_toks[i].text.as_str().unicode_len(),
                    replacements: reps,
                };
                let ghost pre = r@;
                r.push(sg);
                proof {
                    assert(r@[pre.len() as int]@.replacements =~= seq![cw[i as int]]);
                    assert(r@[pre.len() as int]@ == sub_edits(original@, corrected@, i + 1).last());
                    assert(edit_models(r@) =~= sub_edits(original@, corrected@, i + 1));
                }
            } else {
                proof {
                    assert(sub_edits(original@, corrected@, i + 1) =~= sub_edits(
                        original@,
                        corrected@,
                        i as int,
                    ));
                }
            }
            i = i + 1;
        }
        if clen > olen {
            let mut rep = String::new();
            let mut q: usize = olen;
            while q < clen
                invariant
                    olen <= q <= clen,
                    clen == cw.len(),
                    c_toks@.len() == clen,
                    ins_rep(cw, olen as int) == rep@ + ins_rep(cw, q as int),
                    forall|t: int| 0 <= t < clen ==> tok_matches(
                        corrected@,
                        #[trigger] c_toks@[t],
                        word_spans(corrected@)[t],
                    ),
                decreases clen - q,
            {
                proof {
                    assert(cw[q as int] == corrected@.subrange(
                        word_spans(corrected@)[q as int].0,
                        word_spans(corrected@)[q as int].1,
                    ));
                }
                rep.append(" ");
                rep.append(c_toks[q].text.as_str());
                proof {
                    reveal_strlit(" ");
                    assert(" "@ =~= seq![' ']);
                    assert(ins_rep(cw, q as int) =~= seq![' '] + cw[q as int] + ins_rep(
                        cw,
                        q + 1,
                    ));
                    assert(ins_rep(cw, olen as int) =~= rep@ + ins_rep(cw, q + 1));
                }
                q = q + 1;
            }
            proof {
                assert(ins_rep(cw, clen as int) =~= Seq::<char>::empty());
                assert(rep@ =~= ins_rep(cw, olen as int));
            }
            let mut reps: Vec<String> = Vec::new();
            reps.push(rep);
            let sg = JSONSuggestion {
                kind: String::from_str("contextual"),
                message: String::from_str("Add missing text"),
                offset: original.unicode_len(),
                length: 0,
                replacements: reps,
            };
            let ghost pre = r@;
            r.push(sg);
            proof {
                assert(r@[pre.len() as int]@.replacements =~= seq![
                    ins_rep(cw, words_of(original@).len() as int),
                ]);
                assert(r@[pre.len() as int]@ == ins_edit(original@, corrected@));
                assert(edit_models(r@) =~= sub_edits(original@, corrected@, m as int) + seq![
                    ins_edit(original@, corrected@),
                ]);
                assert(edit_models(r@) =~= spec_diffs(original@, corrected@));
            }
        } else if olen > clen {
            let mut i: usize = clen;
            while i < olen
                invariant
                    clen <= i <= olen,
                    olen == ow.len(),
                    clen == cw.len(),
                    o_toks@.len() == olen,
                    edit_models(r@) == sub_edits(original@, corrected@, min_len(ow, cw))
                        + del_edits(original@, corrected@, i as int),
                    forall|q: int| 0 <= q < olen ==> tok_matches(
                        original@,
                        #[trigger] o_toks@[q],
                        word_spans(original@)[q],
                    ),
                decreases olen - i,
            {
                proof {
                    assert(ow[i as int] == original@.subrange(
                        word_spans(original@)[i as int].0,
                        word_spans(original@)[i as int].1,
                    ));
                }
                let mut reps: Vec<String> = Vec::new();
                reps.push(String::new());
                let sg = JSONSuggestion {
                    kind: String::from_str("contextual"),
                    message: String::from_str("Remove extra word"),
                    offset: o_toks[i].start,
                    length: o_toks[i].text.as_str().unicode_len(),
                    replacements: reps,
                };
                let ghost pre = r@;
                r.push(sg);
                proof {
                    assert(r@[pre.len() as int]@.replacements =~= seq![Seq::<char>::empty()]);
                    assert(r@[pre.len() as int]@ == del_edits(original@, corrected@, i + 1).last());
                    assert(edit_models(r@) =~= edit_models(pre).push(r@[pre.len() as int]@));
                    assert(del_edits(original@, corrected@, i + 1) =~= del_edits(
                        original@,
                        corrected@,
                        i as int,
                    ).push(r@[pre.len() as int]@));
                    assert(edit_models(r@) =~= sub_edits(original@, corrected@, min_len(ow, cw))
                        + del_edits(original@, corrected@, i + 1));
                }
                i = i + 1;
            }
            proof {
                assert(edit_models(r@) =~= spec_diffs(original@, corrected@));
            }
        } else {
            proof {
                assert(del_edits(original@, corrected@, olen as int) =~= Seq::<EditModel>::empty());
                assert(edit_models(r@) =~= spec_diffs(original@, corrected@));
            }
        }
        r
    }

    /// Suggestions for a generated correction of `text`: none when the two
    /// texts agree up to surrounding whitespace, otherwise the full alignment.
    pub fn from_t5_correction(text: &str, corrected: &str) -> (r: Vec<JSONSuggestion>)
        ensures
            trim_spec(text@) == trim_spec(corrected@) ==> r@.len() == 0,
            trim_spec(text@) != trim_spec(corrected@) ==> edit_models(r@) == spec_diffs(
                text@,
                corrected@,
            ),
    {
        if trim_eq(text, corrected) {
            Vec::new()
        } else {
            JSONSuggestion::find_multiple_diffs(text, corrected)
        }
    }
}

/// Aligning a text with itself yields no suggestions.
pub proof fn lemma_self_align_empty(s: Seq<char>)
    ensures
        spec_diffs(s, s).len() == 0,
{
    let w = words_of(s);
    lemma_count_changes_self(w, min_len(w, w));
    lemma_sub_edits_self(s, min_len(w, w));
    assert(spec_diffs(s, s) =~= Seq::<EditModel>::empty());
}

pub proof fn lemma_count_changes_self(w: Seq<Seq<char>>, i: int)
    requires
        i >= 0,
    ensures
        count_changes(w, w, i) == 0,
    decreases i,
{
    if i > 0 {
        lemma_count_changes_self(w, i - 1);
    }
}

proof fn lemma_sub_edits_self(s: Seq<char>, i: int)
    requires
        i >= 0,
    ensures
        sub_edits(s, s, i).len() == 0,
    decreases i,
{
    if i > 0 {
        lemma_sub_edits_self(s, i - 1);
        assert(sub_edits(s, s, i) =~= sub_edits(s, s, i - 1));
    }
}

/// A wholesale rewrite yields exactly one suggestion spanning the entire
/// base text.
pub proof fn lemma_rewrite_single_span(o: Seq<char>, c: Seq<char>)
    requires
        is_rewrite(words_of(o), words_of(c)),
    ensures
        spec_diffs(o, c).len() == 1,
        spec_diffs(o, c)[0].offset == 0,
        spec_diffs(o, c)[0].length == o.len(),
        spec_diffs(o, c)[0].replacements == seq![c],
{
}

} // verus!
