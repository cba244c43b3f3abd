//! Word-level text utilities shared by the aligner and the orchestrator.
//!
//! Text is modelled as a sequence of characters. A *word* is a maximal run of
//! non-whitespace characters; [`word_spans_from`] gives the half-open index
//! spans of the words of a text, and [`split_words`] is the executable
//! tokenizer proved to return exactly those spans.

use vstd::prelude::*;

verus! {

/// The whitespace characters on which texts are split into words.
pub open spec fn is_space_char(c: char) -> bool {
    c == ' ' || c == '\t' || c == '\n' || c == '\r'
}

pub fn is_space(c: char) -> (r: bool)
    ensures
        r == is_space_char(c),
{
    c == ' ' || c == '\t' || c == '\n' || c == '\r'
}

/// Index of the first non-space character at or after `i` (or the length).
pub open spec fn skip_spaces(s: Seq<char>, i: int) -> int
    decreases s.len() - i when 0 <= i <= s.len()
{
    if i >= s.len() || !is_space_char(s[i]) {
        i
    } else {
        skip_spaces(s, i + 1)
    }
}

pub proof fn lemma_skip_spaces(s: Seq<char>, i: int)
    requires
        0 <= i <= s.len(),
    ensures
        i <= skip_spaces(s, i) <= s.len(),
        skip_spaces(s, i) < s.len() ==> !is_space_char(s[skip_spaces(s, i)]),
        forall|k: int| i <= k < skip_spaces(s, i) ==> is_space_char(s[k]),
    decreases s.len() - i,
{
    if i < s.len() && is_space_char(s[i]) {
        lemma_skip_spaces(s, i + 1);
    }
}

/// Index just past the run of non-space characters starting at `i`.
pub open spec fn scan_word(s: Seq<char>, i: int) -> int
    decreases s.len() - i when 0 <= i <= s.len()
{
    if i >= s.len() || is_space_char(s[i]) {
        i
    } else {
        scan_word(s, i + 1)
    }
}

pub proof fn lemma_scan_word(s: Seq<char>, i: int)
    requires
        0 <= i <= s.len(),
    ensures
        i <= scan_word(s, i) <= s.len(),
        scan_word(s, i) < s.len() ==> is_space_char(s[scan_word(s, i)]),
        forall|k: int| i <= k < scan_word(s, i) ==> !is_space_char(s[k]),
        i < s.len() && !is_space_char(s[i]) ==> scan_word(s, i) > i,
    decreases s.len() - i,
{
    if i < s.len() && !is_space_char(s[i]) {
        lemma_scan_word(s, i + 1);
    }
}

/// The word spans of `s` from position `i` on: each span `(a, b)` is a maximal
/// run of non-space characters, listed left to right.
pub open spec fn word_spans_from(s: Seq<char>, i: int) -> Seq<(int, int)>
    decreases s.len() - i when 0 <= i <= s.len() via word_spans_from_decreases
{
    let j = skip_spaces(s, i);
    if j >= s.len() {
        Seq::empty()
    } else {
        seq![(j, scan_word(s, j))] + word_spans_from(s, scan_word(s, j))
    }
}

#[via_fn]
proof fn word_spans_from_decreases(s: Seq<char>, i: int) {
    lemma_skip_spaces(s, i);
    let j = skip_spaces(s, i);
    if j < s.len() {
        lemma_scan_word(s, j);
    }
}

pub open spec fn word_spans(s: Seq<char>) -> Seq<(int, int)> {
    word_spans_from(s, 0)
}

/// The words of `s`: the text of each word span.
pub open spec fn words_of(s: Seq<char>) -> Seq<Seq<char>> {
    word_spans(s).map(|_q: int, sp: (int, int)| s.subrange(sp.0, sp.1))
}

/// Shape of the span list: spans are in bounds, non-empty, strictly ordered,
/// hold no spaces, and are flanked by spaces (maximality).
pub proof fn lemma_word_spans_from(s: Seq<char>, i: int)
    requires
        0 <= i <= s.len(),
    ensures
        forall|q: int| 0 <= q < word_spans_from(s, i).len()
            ==> i <= (#[trigger] word_spans_from(s, i)[q]).0 < word_spans_from(s, i)[q].1 <= s.len(),
        forall|q: int, m: int|
            #![trigger word_spans_from(s, i)[q], s[m]]
            0 <= q < word_spans_from(s, i).len()
            && word_spans_from(s, i)[q].0 <= m < word_spans_from(s, i)[q].1
            ==> !is_space_char(s[m]),
        forall|q1: int, q2: int| 0 <= q1 < q2 < word_spans_from(s, i).len()
            ==> (#[trigger] word_spans_from(s, i)[q1]).1 < (#[trigger] word_spans_from(s, i)[q2]).0,
        forall|q: int| 0 <= q < word_spans_from(s, i).len()
            && (#[trigger] word_spans_from(s, i)[q]).1 < s.len()
            ==> is_space_char(s[word_spans_from(s, i)[q].1]),
    decreases s.len() - i,
{
    lemma_skip_spaces(s, i);
    let j = skip_spaces(s, i);
    if j < s.len() {
        lemma_scan_word(s, j);
        let k = scan_word(s, j);
        lemma_word_spans_from(s, k);
        let sp = word_spans_from(s, i);
        let tail = word_spans_from(s, k);
        assert(forall|q: int| 0 <= q < tail.len() ==> sp[q + 1] == tail[q]);
        assert(forall|q: int| 1 <= q < sp.len() ==> sp[q] == tail[q - 1]);
    }
}

/// An executable word token: the word's start index in the base text and its text.
pub struct WordTok {
    pub start: usize,
    pub text: String,
}

/// `t` is the word of `s` at span `sp`.
pub open spec fn tok_matches(s: Seq<char>, t: WordTok, sp: (int, int)) -> bool {
    &&& t.start as int == sp.0
    &&& t.text@ == s.subrange(sp.0, sp.1)
}

/// The spans described by a token list.
pub open spec fn tok_spans(toks: Seq<WordTok>) -> Seq<(int, int)> {
    Seq::new(toks.len(), |q: int| (toks[q].start as int, toks[q].start + toks[q].text@.len()))
}

/// Split `s` into its words, returning each word with its start index.
pub fn split_words(s: &str) -> (r: Vec<WordTok>)
    ensures
        tok_spans(r@) == word_spans(s@),
        r@.len() == word_spans(s@).len(),
        forall|q: int| 0 <= q < r@.len() ==> tok_matches(s@, #[trigger] r@[q], word_spans(s@)[q]),
{
    let len = s.unicode_len();
    let mut r: Vec<WordTok> = Vec::new();
    let mut pos: usize = 0;
    loop
        invariant
            len == s@.len(),
            pos <= len,
            word_spans(s@) == tok_spans(r@) + word_spans_from(s@, pos as int),
            forall|q: int| 0 <= q < r@.len() ==> tok_matches(s@, #[trigger] r@[q], tok_spans(r@)[q]),
        ensures
            word_spans(s@) == tok_spans(r@),
            forall|q: int| 0 <= q < r@.len() ==> tok_matches(s@, #[trigger] r@[q], tok_spans(r@)[q]),
        decreases len - pos,
    {
        let mut j = pos;
        while j < len && is_space(s.get_char(j))
            invariant
                len == s@.len(),
                pos <= j <= len,
                skip_spaces(s@, pos as int) == skip_spaces(s@, j as int),
            decreases len - j,
        {
            j = j + 1;
        }
        assert(skip_spaces(s@, j as int) == j);
        if j == len {
            proof {
                assert(word_spans_from(s@, pos as int) =~= Seq::<(int, int)>::empty());
                assert(word_spans(s@) =~= tok_spans(r@));
            }
            break;
        }
        let mut k = j + 1;
        assert(scan_word(s@, j as int) == scan_word(s@, j + 1));
        while k < len && !is_space(s.get_char(k))
            invariant
                len == s@.len(),
                j < k <= len,
                scan_word(s@, j as int) == scan_word(s@, k as int),
            decreases len - k,
        {
            k = k + 1;
        }
        assert(scan_word(s@, k as int) == k);
        let word = s.substring_char(j, k).to_owned();
        let ghost old_r = r@;
        r.push(WordTok { start: j, text: word });
        proof {
            assert(tok_spans(r@) =~= tok_spans(old_r) + seq![(j as int, k as int)]);
            assert(word_spans_from(s@, pos as int)
                =~= seq![(j as int, k as int)] + word_spans_from(s@, k as int));
            assert(word_spans(s@) =~= tok_spans(r@) + word_spans_from(s@, k as int));
            assert(forall|q: int| 0 <= q < old_r.len()
                ==> r@[q] == old_r[q] && tok_spans(r@)[q] == tok_spans(old_r)[q]);
        }
        pos = k;
    }
    r
}

/// Character-by-character string equality, specified over the views.
pub fn str_eq(a: &str, b: &str) -> (r: bool)
    ensures
        r == (a@ == b@),
{
    let alen = a.unicode_len();
    let blen = b.unicode_len();
    if alen != blen {
        return false;
    }
    let mut i: usize = 0;
    while i < alen
        invariant
            alen == a@.len(),
            alen == b@.len(),
            i <= alen,
            forall|k: int| 0 <= k < i ==> a@[k] == b@[k],
        decreases alen - i,
    {
        if s_ne(a.get_char(i), b.get_char(i)) {
            return false;
        }
        i = i + 1;
    }
    proof {
        assert(a@ =~= b@);
    }
    true
}

fn s_ne(a: char, b: char) -> (r: bool)
    ensures
        r == (a != b),
{
    a != b
}

/// Index just past the last non-space character in `s[..j]` (or 0).
pub open spec fn rskip_spaces(s: Seq<char>, j: int) -> int
    decreases j when 0 <= j <= s.len()
{
    if j <= 0 || !is_space_char(s[j - 1]) {
        j
    } else {
        rskip_spaces(s, j - 1)
    }
}

pub proof fn lemma_rskip_spaces(s: Seq<char>, j: int)
    requires
        0 <= j <= s.len(),
    ensures
        0 <= rskip_spaces(s, j) <= j,
        rskip_spaces(s, j) > 0 ==> !is_space_char(s[rskip_spaces(s, j) - 1]),
        forall|m: int| rskip_spaces(s, j) <= m < j ==> is_space_char(s[m]),
    decreases j,
{
    if j > 0 && is_space_char(s[j - 1]) {
        lemma_rskip_spaces(s, j - 1);
    }
}

/// `s` with leading and trailing whitespace removed.
pub open spec fn trim_spec(s: Seq<char>) -> Seq<char> {
    let a = skip_spaces(s, 0);
    if a >= s.len() {
        Seq::empty()
    } else {
        s.subrange(a, rskip_spaces(s, s.len() as int))
    }
}

/// Executable trim, proved to match [`trim_spec`].
pub fn trimmed(s: &str) -> (r: String)
    ensures
        r@ == trim_spec(s@),
{
    let len = s.unicode_len();
    let mut a: usize = 0;
    while a < len && is_space(s.get_char(a))
        invariant
            len == s@.len(),
            a <= len,
            skip_spaces(s@, 0) == skip_spaces(s@, a as int),
        decreases len - a,
    {
        a = a + 1;
    }
    assert(skip_spaces(s@, a as int) == a);
    if a == len {
        return String::new();
    }
    let mut b: usize = len;
    while b > 0 && is_space(s.get_char(b - 1))
        invariant
            len == s@.len(),
            b <= len,
            rskip_spaces(s@, len as int) == rskip_spaces(s@, b as int),
        decreases b,
    {
        b = b - 1;
    }
    assert(rskip_spaces(s@, b as int) == b);
    proof {
        lemma_rskip_spaces(s@, len as int);
        if b <= a {
            assert(is_space_char(s@[a as int]));
        }
    }
    s.substring_char(a, b).to_owned()
}

/// Whether two texts are equal after trimming surrounding whitespace.
pub fn trim_eq(a: &str, b: &str) -> (r: bool)
    ensures
        r == (trim_spec(a@) == trim_spec(b@)),
{
    let ta = trimmed(a);
    let tb = trimmed(b);
    str_eq(ta.as_str(), tb.as_str())
}

pub open spec fn digit_char(d: int) -> char {
    if d == 0 { '0' }
    else if d == 1 { '1' }
    else if d == 2 { '2' }
    else if d == 3 { '3' }
    else if d == 4 { '4' }
    else if d == 5 { '5' }
    else if d == 6 { '6' }
    else if d == 7 { '7' }
    else if d == 8 { '8' }
    else { '9' }
}

/// Decimal digits of `n`, most significant first.
pub open spec fn dec_str(n: int) -> Seq<char>
    decreases n when n >= 0
{
    if n < 10 {
        seq![digit_char(n)]
    } else {
        dec_str(n / 10) + seq![digit_char(n % 10)]
    }
}

fn push_digit(out: &mut String, d: usize)
    requires
        d < 10,
    ensures
        final(out)@ == old(out)@ + seq![digit_char(d as int)],
{
    proof {
        reveal_strlit("0");
        reveal_strlit("1");
        reveal_strlit("2");
        reveal_strlit("3");
        reveal_strlit("4");
        reveal_strlit("5");
        reveal_strlit("6");
        reveal_strlit("7");
        reveal_strlit("8");
        reveal_strlit("9");
    }
    if d == 0 { out.append("0"); }
    else if d == 1 { out.append("1"); }
    else if d == 2 { out.append("2"); }
    else if d == 3 { out.append("3"); }
    else if d == 4 { out.append("4"); }
    else if d == 5 { out.append("5"); }
    else if d == 6 { out.append("6"); }
    else if d == 7 { out.append("7"); }
    else if d == 8 { out.append("8"); }
    else { out.append("9"); }
    proof {
        assert(out@ =~= old(out)@ + seq![digit_char(d as int)]);
    }
}

/// Append the decimal digits of `n` to `out`.
pub fn append_dec(out: &mut String, n: u128)
    ensures
        final(out)@ == old(out)@ + dec_str(n as int),
    decreases n,
{
    if n < 10 {
        push_digit(out, (n % 10) as usize);
    } else {
        append_dec(out, n / 10);
        push_digit(out, (n % 10) as usize);
        proof {
            assert(out@ =~= old(out)@ + dec_str(n as int));
        }
    }
}


/// No text has more words than characters.
pub proof fn lemma_word_count_bound(s: Seq<char>, i: int)
    requires
        0 <= i <= s.len(),
    ensures
        word_spans_from(s, i).len() <= s.len() - i,
    decreases s.len() - i,
{
    lemma_skip_spaces(s, i);
    let j = skip_spaces(s, i);
    if j < s.len() {
        lemma_scan_word(s, j);
        lemma_word_count_bound(s, scan_word(s, j));
    }
}

/// The words from position `q` on, each preceded by one space.
pub open spec fn spaced_tail(ws: Seq<Seq<char>>, q: int) -> Seq<char>
    decreases ws.len() - q when q >= 0
{
    if q >= ws.len() {
        Seq::empty()
    } else {
        seq![' '] + ws[q] + spaced_tail(ws, q + 1)
    }
}

/// The words of positions `[i, j)` joined with single spaces.
pub open spec fn join_range(ws: Seq<Seq<char>>, i: int, j: int) -> Seq<char> {
    if i >= j {
        Seq::empty()
    } else {
        ws[i] + spaced_tail(ws.subrange(0, j), i + 1)
    }
}

/// Join the token texts of positions `[from, to)` with single spaces.
#[verifier::loop_isolation(false)]
pub fn join_words(toks: &Vec<WordTok>, from: usize, to: usize) -> (r: String)
    requires
        to <= toks@.len(),
    ensures
        r@ == join_range(tok_texts(toks@), from as int, to as int),
{
    let ghost ws = tok_texts(toks@);
    let ghost wsj = ws.subrange(0, to as int);
    if from >= to {
        return String::new();
    }
    let mut r = toks[from].text.clone();
    let mut q: usize = from + 1;
    while q < to
        invariant
            from + 1 <= q <= to,
            r@ + spaced_tail(wsj, q as int) == join_range(ws, from as int, to as int),
        decreases to - q,
    {
        r.append(" ");
        r.append(toks[q].text.as_str());
        proof {
            reveal_strlit(" ");
            assert(" "@ =~= seq![' ']);
            assert(wsj[q as int] == toks@[q as int].text@);
            assert(spaced_tail(wsj, q as int) =~= seq![' '] + wsj[q as int] + spaced_tail(
                wsj,
                q + 1,
            ));
            assert(r@ + spaced_tail(wsj, q + 1) =~= join_range(ws, from as int, to as int));
        }
        q = q + 1;
    }
    proof {
        assert(spaced_tail(wsj, to as int) =~= Seq::<char>::empty());
        assert(r@ =~= r@ + spaced_tail(wsj, to as int));
    }
    r
}

/// The texts of a token list.
pub open spec fn tok_texts(toks: Seq<WordTok>) -> Seq<Seq<char>> {
    toks.map(|_q: int, t: WordTok| t.text@)
}

/// `s` without its trailing commas.
pub open spec fn strip_trailing_commas(s: Seq<char>) -> Seq<char>
    decreases s.len()
{
    if s.len() > 0 && s.last() == ',' {
        strip_trailing_commas(s.drop_last())
    } else {
        s
    }
}

/// Remove every trailing comma, as the spec function describes.
#[verifier::loop_isolation(false)]
pub fn stripped_trailing_commas(s: &str) -> (r: String)
    ensures
        r@ == strip_trailing_commas(s@),
{
    let len = s.unicode_len();
    let mut b: usize = len;
    proof {
        assert(s@.subrange(0, len as int) =~= s@);
    }
    while b > 0 && c_eq(s.get_char(b - 1), ',')
        invariant
            b <= len,
            strip_trailing_commas(s@) == strip_trailing_commas(s@.subrange(0, b as int)),
        decreases b,
    {
        proof {
            assert(s@.subrange(0, b as int).drop_last() =~= s@.subrange(0, b - 1));
        }
        b = b - 1;
    }
    proof {
        assert(strip_trailing_commas(s@.subrange(0, b as int)) == s@.subrange(0, b as int));
    }
    s.substring_char(0, b).to_owned()
}

fn c_eq(a: char, b: char) -> (r: bool)
    ensures
        r == (a == b),
{
    a == b
}

/// An ASCII lowercase letter turned uppercase; any other character unchanged.
pub open spec fn upper_char(c: char) -> char {
    if 'a' <= c <= 'z' {
        ((c as u8) - 32) as char
    } else {
        c
    }
}

pub fn to_upper_char(c: char) -> (r: char)
    ensures
        r == upper_char(c),
{
    if 'a' <= c && c <= 'z' {
        ((c as u8) - 32) as char
    } else {
        c
    }
}


/// Relies on String::push: appends the given character to the end of the
/// string, as its documentation states.
pub assume_specification[ String::push ](s: &mut String, c: char)
    ensures
        final(s)@ == old(s)@.push(c),
;

/// The byte offset that character position `chars` of `s` stands at: the
/// UTF-8 byte length of the leading `chars` characters. For ASCII text it
/// equals `chars`.
pub fn byte_offset_of(s: &str, chars: usize) -> (r: usize)
    requires
        chars <= s@.len(),
    ensures
        r == vstd::utf8::encode_utf8(s@.subrange(0, chars as int)).len() as usize,
{
    s.substring_char(0, chars).len()
}

/// Every word of a text is non-empty.
pub proof fn lemma_words_nonempty(s: Seq<char>)
    ensures
        forall|q: int| 0 <= q < words_of(s).len() ==> (#[trigger] words_of(s)[q]).len() > 0,
{
    lemma_word_spans_from(s, 0);
    assert forall|q: int| 0 <= q < words_of(s).len() implies (#[trigger] words_of(s)[q]).len()
        > 0 by {
        assert(words_of(s)[q] == s.subrange(word_spans(s)[q].0, word_spans(s)[q].1));
    }
}

} // verus!
