//! Unicode-aware tokenization with byte offsets for entity span reporting.
//!
//! Words keep embedded apostrophes (contractions, possessives) and hyphens
//! between alphanumerics; numbers may contain `.`, `,` and letters (then they
//! are mixed); punctuation is one character per token.

use vstd::prelude::*;

use vstd::utf8::encode_utf8;

use crate::text::{
    byte_len, byte_offset, byte_offsets, char_is_alphabetic, char_is_alphanumeric, char_is_whitespace,
    lemma_byte_offset_mono, lemma_encode_subrange,
    is_ascii_digit, ascii_digit, string_from_chars, str_chars, unicode_alphabetic,
    unicode_alphanumeric, unicode_white_space,
};

verus! {

/// Token kind classification
#[derive(Debug, Clone, Copy, PartialEq, Eq, Hash, Structural)]
pub enum TokenKind {
    /// Alphabetic word (may include contractions like "don't")
    Word,
    /// Numeric sequence (digits, may include decimal point)
    Number,
    /// Mixed alphanumeric (e.g., "COVID-19", "B52")
    Mixed,
    /// Punctuation character
    Punctuation,
    /// Whitespace (space, tab, newline)
    Whitespace,
}

/// A single token with byte offsets
#[derive(Debug)]
pub struct Token {
    /// The token text
    pub text: String,
    /// Token classification
    pub kind: TokenKind,
    /// Start byte offset in source text
    pub byte_start: usize,
    /// End byte offset in source text (exclusive)
    pub byte_end: usize,
}

impl Token {
    pub fn new(text: &str, kind: TokenKind, byte_start: usize, byte_end: usize) -> (t: Token)
        ensures
            t.text@ == text@,
            t.kind == kind,
            t.byte_start == byte_start,
            t.byte_end == byte_end,
    {
        Token { text: text.to_owned(), kind, byte_start, byte_end }
    }

    /// Length in bytes.
    pub fn len(&self) -> (n: usize)
        requires
            self.byte_start <= self.byte_end,
        ensures
            n == self.byte_end - self.byte_start,
    {
        self.byte_end - self.byte_start
    }

    /// True when the token covers no bytes.
    pub fn is_empty(&self) -> (b: bool)
        ensures
            b == (self.byte_start == self.byte_end),
    {
        self.byte_start == self.byte_end
    }

    /// A copy of the token.
    pub fn duplicate(&self) -> (t: Token)
        ensures
            t.text@ == self.text@,
            t.kind == self.kind,
            t.byte_start == self.byte_start,
            t.byte_end == self.byte_end,
    {
        Token { text: self.text.clone(), kind: self.kind, byte_start: self.byte_start, byte_end: self.byte_end }
    }
}

// =============================================================================
// Character classes of the lexer
// =============================================================================

/// Punctuation characters: ASCII punctuation and common Unicode quotes,
/// dashes, ellipsis, guillemets and inverted marks.
pub open spec fn punct_char(c: char) -> bool {
    c == '!' || c == '"' || c == '#' || c == '$' || c == '%' || c == '&' || c == '\'' || c
        == '(' || c == ')' || c == '*' || c == '+' || c == ',' || c == '-' || c == '.' || c
        == '/' || c == ':' || c == ';' || c == '<' || c == '=' || c == '>' || c == '?' || c
        == '@' || c == '[' || c == '\\' || c == ']' || c == '^' || c == '_' || c == '`' || c
        == '{' || c == '|' || c == '}' || c == '~' || c == '\u{201C}' || c == '\u{201D}' || c
        == '\u{2018}' || c == '\u{2019}' || c == '\u{2013}' || c == '\u{2014}' || c
        == '\u{2026}' || c == '\u{00AB}' || c == '\u{00BB}' || c == '\u{00A1}' || c
        == '\u{00BF}' || c == '\u{2039}' || c == '\u{203A}' || c == '\u{201E}' || c
        == '\u{201A}'
}

/// Straight or curly apostrophe (may sit inside a word).
pub open spec fn apostrophe(c: char) -> bool {
    c == '\'' || c == '\u{2019}'
}

fn is_punctuation_char(c: char) -> (r: bool)
    ensures
        r == punct_char(c),
{
    c == '!' || c == '"' || c == '#' || c == '$' || c == '%' || c == '&' || c == '\'' || c
        == '(' || c == ')' || c == '*' || c == '+' || c == ',' || c == '-' || c == '.' || c
        == '/' || c == ':' || c == ';' || c == '<' || c == '=' || c == '>' || c == '?' || c
        == '@' || c == '[' || c == '\\' || c == ']' || c == '^' || c == '_' || c == '`' || c
        == '{' || c == '|' || c == '}' || c == '~' || c == '\u{201C}' || c == '\u{201D}' || c
        == '\u{2018}' || c == '\u{2019}' || c == '\u{2013}' || c == '\u{2014}' || c
        == '\u{2026}' || c == '\u{00AB}' || c == '\u{00BB}' || c == '\u{00A1}' || c
        == '\u{00BF}' || c == '\u{2039}' || c == '\u{203A}' || c == '\u{201E}' || c
        == '\u{201A}'
}

pub(crate) fn is_contraction_apostrophe(c: char) -> (r: bool)
    ensures
        r == apostrophe(c),
{
    c == '\'' || c == '\u{2019}'
}

// =============================================================================
// Lexer specification (character indices)
// =============================================================================

/// End of the whitespace run starting at `i`.
pub open spec fn white_end(s: Seq<char>, i: int) -> int
    decreases s.len() - i,
{
    if 0 <= i < s.len() && unicode_white_space(s[i]) {
        white_end(s, i + 1)
    } else {
        i
    }
}

/// End of the alphabetic run starting at `i`.
pub open spec fn alpha_end(s: Seq<char>, i: int) -> int
    decreases s.len() - i,
{
    if 0 <= i < s.len() && unicode_alphabetic(s[i]) {
        alpha_end(s, i + 1)
    } else {
        i
    }
}

/// Number scan from `i`: digits, `.` and `,`; letters (making it mixed); a
/// hyphen when an alphanumeric follows (also mixed). Returns the end and
/// whether letters were seen.
pub open spec fn number_end(s: Seq<char>, i: int, mixed: bool) -> (int, bool)
    decreases s.len() - i,
{
    if i < 0 || i >= s.len() {
        (i, mixed)
    } else if ascii_digit(s[i]) || s[i] == '.' || s[i] == ',' {
        number_end(s, i + 1, mixed)
    } else if unicode_alphabetic(s[i]) {
        number_end(s, i + 1, true)
    } else if s[i] == '-' && i + 1 < s.len() && unicode_alphanumeric(s[i + 1]) {
        number_end(s, i + 1, true)
    } else {
        (i, mixed)
    }
}

/// Word scan from `i`: stops at whitespace and at punctuation other than
/// apostrophes and hyphens; an apostrophe is kept when a letter follows, a
/// hyphen when an alphanumeric follows. Returns the end and whether an ASCII
/// digit was seen.
pub open spec fn word_end(s: Seq<char>, i: int, digit: bool) -> (int, bool)
    decreases s.len() - i,
{
    if i < 0 || i >= s.len() {
        (i, digit)
    } else if unicode_white_space(s[i]) || (punct_char(s[i]) && !apostrophe(s[i]) && s[i]
        != '-') {
        (i, digit)
    } else if apostrophe(s[i]) {
        if i + 1 < s.len() && unicode_alphabetic(s[i + 1]) {
            word_end(s, i + 1, digit)
        } else {
            (i, digit)
        }
    } else if s[i] == '-' {
        if i + 1 < s.len() && unicode_alphanumeric(s[i + 1]) {
            word_end(s, i + 1, digit)
        } else {
            (i, digit)
        }
    } else {
        word_end(s, i + 1, digit || ascii_digit(s[i]))
    }
}

/// The token starting at character `i`: its length in characters and kind.
pub open spec fn lex_at(s: Seq<char>, i: int) -> (int, TokenKind) {
    if i < 0 || i >= s.len() {
        (0, TokenKind::Punctuation)
    } else if unicode_white_space(s[i]) {
        (white_end(s, i) - i, TokenKind::Whitespace)
    } else if ascii_digit(s[i]) {
        let r = number_end(s, i, false);
        (r.0 - i, if r.1 {
            TokenKind::Mixed
        } else {
            TokenKind::Number
        })
    } else if punct_char(s[i]) && !apostrophe(s[i]) {
        (1, TokenKind::Punctuation)
    } else {
        let r = word_end(s, i, false);
        if r.0 == i {
            if apostrophe(s[i]) && alpha_end(s, i + 1) > i + 1 {
                (alpha_end(s, i + 1) - i, TokenKind::Word)
            } else {
                (1, TokenKind::Punctuation)
            }
        } else {
            (r.0 - i, if r.1 {
                TokenKind::Mixed
            } else {
                TokenKind::Word
            })
        }
    }
}

/// All tokens of `s` from character `i` on: `(start, end, kind)` in characters.
pub open spec fn token_spans_from(s: Seq<char>, i: int) -> Seq<(int, int, TokenKind)>
    decreases s.len() - i,
{
    if i < 0 || i >= s.len() {
        seq![]
    } else {
        let t = lex_at(s, i);
        if t.0 <= 0 || i + t.0 > s.len() {
            seq![]
        } else {
            seq![(i, i + t.0, t.1)] + token_spans_from(s, i + t.0)
        }
    }
}

/// Tokens from character `i` on, leaving out whitespace unless asked to keep it.
pub open spec fn visible_spans_from(s: Seq<char>, i: int, with_ws: bool) -> Seq<(int, int, TokenKind)>
    decreases s.len() - i,
{
    if i < 0 || i >= s.len() {
        seq![]
    } else {
        let t = lex_at(s, i);
        if t.0 <= 0 || i + t.0 > s.len() {
            seq![]
        } else {
            let rest = visible_spans_from(s, i + t.0, with_ws);
            if with_ws || t.1 != TokenKind::Whitespace {
                seq![(i, i + t.0, t.1)] + rest
            } else {
                rest
            }
        }
    }
}

/// `t` is the token of `s` covering the character span `sp`.
pub open spec fn token_of(s: Seq<char>, sp: (int, int, TokenKind), t: Token) -> bool {
    &&& t.text@ == s.subrange(sp.0, sp.1)
    &&& t.kind == sp.2
    &&& t.byte_start == byte_offset(s, sp.0)
    &&& t.byte_end == byte_offset(s, sp.1)
}

pub open spec fn tokens_match(s: Seq<char>, spans: Seq<(int, int, TokenKind)>, toks: Seq<Token>) -> bool {
    &&& toks.len() == spans.len()
    &&& forall|k: int| 0 <= k < toks.len() ==> token_of(s, spans[k], #[trigger] toks[k])
}

pub open spec fn is_word_kind(k: TokenKind) -> bool {
    k == TokenKind::Word || k == TokenKind::Mixed
}

/// The word and mixed tokens among `spans`.
pub open spec fn word_spans(spans: Seq<(int, int, TokenKind)>) -> Seq<(int, int, TokenKind)> {
    spans.filter(|sp: (int, int, TokenKind)| is_word_kind(sp.2))
}

/// Lexing consumes at least one character and stays inside the text.
pub proof fn lemma_lex_bounds(s: Seq<char>, i: int)
    requires
        0 <= i < s.len(),
    ensures
        1 <= lex_at(s, i).0 <= s.len() - i,
{
    if unicode_white_space(s[i]) {
        lemma_white_end(s, i);
    } else if ascii_digit(s[i]) {
        lemma_number_end(s, i, false);
        lemma_number_end(s, i + 1, false);
    } else if punct_char(s[i]) && !apostrophe(s[i]) {
    } else {
        lemma_word_end(s, i, false);
        lemma_alpha_end(s, i + 1);
    }
}

/// What a token says: its text, kind and byte offsets.
pub open spec fn token_view(t: Token) -> (Seq<char>, TokenKind, int, int) {
    (t.text@, t.kind, t.byte_start as int, t.byte_end as int)
}

/// What the token for span `sp` of `s` says.
pub open spec fn span_view(s: Seq<char>, sp: (int, int, TokenKind)) -> (Seq<char>, TokenKind, int, int) {
    (s.subrange(sp.0, sp.1), sp.2, byte_offset(s, sp.0) as int, byte_offset(s, sp.1) as int)
}

proof fn lemma_match_views(s: Seq<char>, spans: Seq<(int, int, TokenKind)>, toks: Seq<Token>)
    requires
        tokens_match(s, spans, toks),
    ensures
        toks.map_values(|t: Token| token_view(t)) == spans.map_values(
            |sp: (int, int, TokenKind)| span_view(s, sp),
        ),
{
    let a = toks.map_values(|t: Token| token_view(t));
    let b = spans.map_values(|sp: (int, int, TokenKind)| span_view(s, sp));
    assert forall|k: int| 0 <= k < a.len() implies #[trigger] a[k] == b[k] by {
        assert(token_of(s, spans[k], toks[k]));
    }
    assert(a =~= b);
}

proof fn lemma_filter_views(s: Seq<char>, spans: Seq<(int, int, TokenKind)>)
    ensures
        word_spans(spans).map_values(|sp: (int, int, TokenKind)| span_view(s, sp)) == spans.map_values(
            |sp: (int, int, TokenKind)| span_view(s, sp),
        ).filter(|v: (Seq<char>, TokenKind, int, int)| is_word_kind(v.1)),
    decreases spans.len(),
{
    reveal(Seq::filter);
    let f = |sp: (int, int, TokenKind)| span_view(s, sp);
    let q = |v: (Seq<char>, TokenKind, int, int)| is_word_kind(v.1);
    if spans.len() == 0 {
        assert(word_spans(spans) =~= spans);
        assert(spans.map_values(f) =~= Seq::<(Seq<char>, TokenKind, int, int)>::empty());
    } else {
        let d = spans.drop_last();
        lemma_filter_views(s, d);
        assert(spans.map_values(f).drop_last() =~= d.map_values(f));
        assert(spans.map_values(f).last() == f(spans.last()));
        if is_word_kind(spans.last().2) {
            assert(word_spans(spans).map_values(f) =~= word_spans(d).map_values(f).push(f(spans.last())));
        } else {
            assert(word_spans(spans).map_values(f) =~= word_spans(d).map_values(f));
        }
    }
}

/// The word tokens are the tokens filtered to words: `tokenize_words` gives
/// exactly the word and mixed tokens of `tokenize`, in the same order.
pub proof fn law_words_are_filtered(text: Seq<char>, with_ws: bool, toks: Seq<Token>, words: Seq<Token>)
    requires
        tokens_match(text, visible_spans_from(text, 0, with_ws), toks),
        tokens_match(text, word_spans(visible_spans_from(text, 0, with_ws)), words),
    ensures
        words.map_values(|t: Token| token_view(t)) == toks.map_values(|t: Token| token_view(t)).filter(
            |v: (Seq<char>, TokenKind, int, int)| is_word_kind(v.1),
        ),
{
    let sp = visible_spans_from(text, 0, with_ws);
    lemma_match_views(text, sp, toks);
    lemma_match_views(text, word_spans(sp), words);
    lemma_filter_views(text, sp);
}

/// The texts of the tokens, joined in order.
pub open spec fn joined_text(toks: Seq<Token>) -> Seq<char>
    decreases toks.len(),
{
    if toks.len() == 0 {
        seq![]
    } else {
        toks[0].text@ + joined_text(toks.drop_first())
    }
}

/// The text under the spans, joined in order.
pub open spec fn spans_text(s: Seq<char>, spans: Seq<(int, int, TokenKind)>) -> Seq<char>
    decreases spans.len(),
{
    if spans.len() == 0 {
        seq![]
    } else {
        s.subrange(spans[0].0, spans[0].1) + spans_text(s, spans.drop_first())
    }
}

proof fn lemma_joined_spans(s: Seq<char>, spans: Seq<(int, int, TokenKind)>, toks: Seq<Token>)
    requires
        tokens_match(s, spans, toks),
    ensures
        joined_text(toks) == spans_text(s, spans),
    decreases toks.len(),
{
    if toks.len() > 0 {
        assert(token_of(s, spans[0], toks[0]));
        let sd = spans.drop_first();
        let td = toks.drop_first();
        assert forall|k: int| 0 <= k < td.len() implies token_of(s, sd[k], #[trigger] td[k]) by {
            assert(token_of(s, spans[k + 1], toks[k + 1]));
        }
        lemma_joined_spans(s, sd, td);
    }
}

proof fn lemma_all_spans_text(s: Seq<char>, i: int)
    requires
        0 <= i <= s.len(),
    ensures
        spans_text(s, visible_spans_from(s, i, true)) == s.subrange(i, s.len() as int),
    decreases s.len() - i,
{
    if i < s.len() {
        lemma_lex_bounds(s, i);
        let t = lex_at(s, i);
        lemma_all_spans_text(s, i + t.0);
        let rest = visible_spans_from(s, i + t.0, true);
        let v = seq![(i, i + t.0, t.1)] + rest;
        assert(visible_spans_from(s, i, true) == v);
        assert(v[0] == (i, i + t.0, t.1));
        assert(v.drop_first() =~= rest);
        assert(s.subrange(i, s.len() as int) =~= s.subrange(i, i + t.0) + s.subrange(i + t.0, s.len() as int));
    } else {
        assert(s.subrange(i, s.len() as int) =~= Seq::<char>::empty());
    }
}

/// Kept whitespace and all, the tokens give back the text: joining the texts
/// of the tokens of a tokenizer that keeps whitespace yields the input.
pub proof fn law_tokens_rebuild_text(text: Seq<char>, toks: Seq<Token>)
    requires
        tokens_match(text, visible_spans_from(text, 0, true), toks),
    ensures
        joined_text(toks) == text,
{
    lemma_joined_spans(text, visible_spans_from(text, 0, true), toks);
    lemma_all_spans_text(text, 0);
    assert(text.subrange(0, text.len() as int) =~= text);
}

proof fn lemma_white_run(s: Seq<char>, i: int)
    requires
        0 <= i <= s.len(),
    ensures
        forall|k: int| i <= k < white_end(s, i) ==> unicode_white_space(#[trigger] s[k]),
    decreases s.len() - i,
{
    if i < s.len() && unicode_white_space(s[i]) {
        lemma_white_run(s, i + 1);
    }
}

/// A token is whitespace exactly when its first character is, and then every
/// character it covers is whitespace; every token covers at least one
/// character and stays inside the text; past the end there is no token.
pub proof fn law_lex_whitespace(s: Seq<char>, i: int)
    ensures
        0 <= i < s.len() ==> 1 <= lex_at(s, i).0 <= s.len() - i,
        0 <= i < s.len() ==> (lex_at(s, i).1 == TokenKind::Whitespace <==> unicode_white_space(s[i])),
        0 <= i < s.len() && lex_at(s, i).1 == TokenKind::Whitespace ==> forall|k: int|
            i <= k < i + lex_at(s, i).0 ==> unicode_white_space(#[trigger] s[k]),
        !(0 <= i < s.len()) ==> lex_at(s, i) == (0int, TokenKind::Punctuation),
{
    if 0 <= i < s.len() {
        lemma_lex_bounds(s, i);
        if unicode_white_space(s[i]) {
            lemma_white_run(s, i);
        }
    }
}

proof fn lemma_white_end(s: Seq<char>, i: int)
    requires
        0 <= i <= s.len(),
    ensures
        i <= white_end(s, i) <= s.len(),
        i < s.len() && unicode_white_space(s[i]) ==> white_end(s, i) > i,
    decreases s.len() - i,
{
    if i < s.len() && unicode_white_space(s[i]) {
        lemma_white_end(s, i + 1);
    }
}

proof fn lemma_alpha_end(s: Seq<char>, i: int)
    requires
        0 <= i <= s.len(),
    ensures
        i <= alpha_end(s, i) <= s.len(),
    decreases s.len() - i,
{
    if i < s.len() && unicode_alphabetic(s[i]) {
        lemma_alpha_end(s, i + 1);
    }
}

proof fn lemma_number_end(s: Seq<char>, i: int, m: bool)
    requires
        0 <= i <= s.len(),
    ensures
        i <= number_end(s, i, m).0 <= s.len(),
        i < s.len() && ascii_digit(s[i]) ==> number_end(s, i, m).0 > i,
    decreases s.len() - i,
{
    if i < s.len() {
        if ascii_digit(s[i]) || s[i] == '.' || s[i] == ',' {
            lemma_number_end(s, i + 1, m);
        } else if unicode_alphabetic(s[i]) {
            lemma_number_end(s, i + 1, true);
        } else if s[i] == '-' && i + 1 < s.len() && unicode_alphanumeric(s[i + 1]) {
            lemma_number_end(s, i + 1, true);
        }
    }
}

proof fn lemma_word_end(s: Seq<char>, i: int, d: bool)
    requires
        0 <= i <= s.len(),
    ensures
        i <= word_end(s, i, d).0 <= s.len(),
    decreases s.len() - i,
{
    if i < s.len() {
        if unicode_white_space(s[i]) || (punct_char(s[i]) && !apostrophe(s[i]) && s[i] != '-') {
        } else if apostrophe(s[i]) {
            if i + 1 < s.len() && unicode_alphabetic(s[i + 1]) {
                lemma_word_end(s, i + 1, d);
            }
        } else if s[i] == '-' {
            if i + 1 < s.len() && unicode_alphanumeric(s[i + 1]) {
                lemma_word_end(s, i + 1, d);
            }
        } else {
            lemma_word_end(s, i + 1, d || ascii_digit(s[i]));
        }
    }
}

// =============================================================================
// Lexer
// =============================================================================

/// Lex the token starting at character `i`: its length in characters and kind.
fn lex_next(chars: &Vec<char>, i: usize) -> (r: (usize, TokenKind))
    requires
        i <= chars@.len(),
    ensures
        r.0 as int == lex_at(chars@, i as int).0,
        r.1 == lex_at(chars@, i as int).1,
{
    let ghost s = chars@;
    let n = chars.len();
    if i >= n {
        return (0, TokenKind::Punctuation);
    }
    let first = chars[i];

    // Whitespace: consume all contiguous whitespace
    if char_is_whitespace(first) {
        let mut k = i;
        while k < n && char_is_whitespace(chars[k])
            invariant
                i <= k <= n,
                n == s.len(),
                s == chars@,
                white_end(s, i as int) == white_end(s, k as int),
            decreases n - k,
        {
            k = k + 1;
        }
        return (k - i, TokenKind::Whitespace);
    }

    // Pure number sequence
    if is_ascii_digit(first) {
        let mut k = i;
        let mut has_alpha = false;
        while k < n
            invariant
                i <= k <= n,
                n == s.len(),
                s == chars@,
                number_end(s, i as int, false) == number_end(s, k as int, has_alpha),
            ensures
                number_end(s, i as int, false) == (k as int, has_alpha),
            decreases n - k,
        {
            let c = chars[k];
            if is_ascii_digit(c) || c == '.' || c == ',' {
                k = k + 1;
            } else if char_is_alphabetic(c) {
                // Mixed alphanumeric like "B52" or "COVID-19"
                has_alpha = true;
                k = k + 1;
            } else if c == '-' && k + 1 < n && char_is_alphanumeric(chars[k + 1]) {
                has_alpha = true;
                k = k + 1;
            } else {
                assert(number_end(s, k as int, has_alpha) == (k as int, has_alpha));
                break;
            }
        }
        return (k - i, if has_alpha {
            TokenKind::Mixed
        } else {
            TokenKind::Number
        });
    }

    // Punctuation (but not apostrophe at start of word like 'twas)
    if is_punctuation_char(first) && !is_contraction_apostrophe(first) {
        return (1, TokenKind::Punctuation);
    }

    // Word: letters, embedded apostrophes (contractions), hyphens
    let mut k = i;
    let mut has_digit = false;
    while k < n
        invariant
            i <= k <= n,
            n == s.len(),
            s == chars@,
            word_end(s, i as int, false) == word_end(s, k as int, has_digit),
        ensures
            word_end(s, i as int, false) == (k as int, has_digit),
        decreases n - k,
    {
        let c = chars[k];
        if char_is_whitespace(c) || (is_punctuation_char(c) && !is_contraction_apostrophe(c) && c
            != '-') {
            assert(word_end(s, k as int, has_digit) == (k as int, has_digit));
            break;
        }
        if is_contraction_apostrophe(c) {
            // a contraction like "don't" keeps its apostrophe
            if k + 1 < n && char_is_alphabetic(chars[k + 1]) {
                k = k + 1;
                continue;
            }
            assert(word_end(s, k as int, has_digit) == (k as int, has_digit));
            break;
        }
        if c == '-' {
            // a compound word keeps its hyphen
            if k + 1 < n && char_is_alphanumeric(chars[k + 1]) {
                k = k + 1;
                continue;
            }
            assert(word_end(s, k as int, has_digit) == (k as int, has_digit));
            break;
        }
        if is_ascii_digit(c) {
            has_digit = true;
        }
        k = k + 1;
    }

    if k == i {
        // apostrophe at the start of a word (like 'twas)
        if is_contraction_apostrophe(first) {
            let mut e = i + 1;
            while e < n && char_is_alphabetic(chars[e])
                invariant
                    i + 1 <= e <= n,
                    n == s.len(),
                    s == chars@,
                    alpha_end(s, i + 1) == alpha_end(s, e as int),
                decreases n - e,
            {
                e = e + 1;
            }
            if e > i + 1 {
                return (e - i, TokenKind::Word);
            }
        }
        return (1, TokenKind::Punctuation);
    }
    (k - i, if has_digit {
        TokenKind::Mixed
    } else {
        TokenKind::Word
    })
}

// =============================================================================
// Tokenizer
// =============================================================================

/// Unicode-aware tokenizer with byte offset tracking
pub struct Tokenizer {
    /// Whether to include whitespace tokens in output
    include_whitespace: bool,
}

impl Default for Tokenizer {
    fn default() -> (t: Self)
        ensures
            !t.keeps_whitespace(),
    {
        Self::new()
    }
}

impl Tokenizer {
    /// Whether whitespace tokens are reported.
    pub closed spec fn keeps_whitespace(&self) -> bool {
        self.include_whitespace
    }

    /// A tokenizer that leaves out whitespace tokens.
    pub fn new() -> (t: Self)
        ensures
            !t.keeps_whitespace(),
    {
        Tokenizer { include_whitespace: false }
    }

    /// A tokenizer that reports whitespace tokens too.
    pub fn with_whitespace() -> (t: Self)
        ensures
            t.keeps_whitespace(),
    {
        Tokenizer { include_whitespace: true }
    }

    /// Tokenize text into tokens with byte offsets.
    pub fn tokenize(&self, text: &str) -> (tokens: Vec<Token>)
        ensures
            tokens_match(text@, visible_spans_from(text@, 0, self.keeps_whitespace()), tokens@),
    {
        let chars = str_chars(text);
        let ghost s = chars@;
        let bytes = text.as_bytes();
        let blen = bytes.len();
        assert(blen == crate::text::byte_len(s));
        let offs = byte_offsets(&chars);
        let n = chars.len();
        let mut tokens: Vec<Token> = Vec::new();
        let ghost mut done: Seq<(int, int, TokenKind)> = seq![];
        let mut i: usize = 0;
        while i < n
            invariant
                i <= n,
                n == s.len(),
                s == chars@,
                offs@.len() == s.len() + 1,
                forall|k: int| 0 <= k <= s.len() ==> offs@[k] == byte_offset(s, k),
                visible_spans_from(s, 0, self.include_whitespace) == done + visible_spans_from(
                    s,
                    i as int,
                    self.include_whitespace,
                ),
                tokens_match(s, done, tokens@),
            decreases n - i,
        {
            proof {
                lemma_lex_bounds(s, i as int);
            }
            let (len, kind) = lex_next(&chars, i);
            if kind != TokenKind::Whitespace || self.include_whitespace {
                let t = Token {
                    text: string_from_chars(&chars, i, i + len),
                    kind,
                    byte_start: offs[i],
                    byte_end: offs[i + len],
                };
                let ghost sp = (i as int, (i + len) as int, kind);
                let ghost old_tokens = tokens@;
                tokens.push(t);
                proof {
                    assert(done + visible_spans_from(s, i as int, self.include_whitespace) =~= done.push(sp)
                        + visible_spans_from(s, (i + len) as int, self.include_whitespace));
                    done = done.push(sp);
                    assert forall|k: int| 0 <= k < tokens@.len() implies token_of(
                        s,
                        done[k],
                        #[trigger] tokens@[k],
                    ) by {
                        if k < old_tokens.len() {
                            assert(tokens@[k] == old_tokens[k]);
                        }
                    }
                }
            }
            i = i + len;
        }
        assert(visible_spans_from(s, i as int, self.include_whitespace) =~= Seq::<(int, int, TokenKind)>::empty());
        assert(done + Seq::<(int, int, TokenKind)>::empty() =~= done);
        tokens
    }

    /// Tokenize and keep only word and mixed tokens (for entity recognition).
    pub fn tokenize_words(&self, text: &str) -> (tokens: Vec<Token>)
        ensures
            tokens_match(
                text@,
                word_spans(visible_spans_from(text@, 0, self.keeps_whitespace())),
                tokens@,
            ),
    {
        let all = self.tokenize(text);
        let ghost spans = visible_spans_from(text@, 0, self.keeps_whitespace());
        let mut out: Vec<Token> = Vec::new();
        let mut k: usize = 0;
        while k < all.len()
            invariant
                k <= all@.len(),
                tokens_match(text@, spans, all@),
                tokens_match(text@, word_spans(spans.take(k as int)), out@),
            decreases all@.len() - k,
        {
            proof {
                reveal(Seq::filter);
                assert(spans.take(k + 1).drop_last() =~= spans.take(k as int));
                assert(spans.take(k + 1).last() == spans[k as int]);
                assert(token_of(text@, spans[k as int], all@[k as int]));
                assert(is_word_kind(spans[k as int].2) == (all@[k as int].kind == TokenKind::Word
                    || all@[k as int].kind == TokenKind::Mixed));
            }
            if all[k].kind == TokenKind::Word || all[k].kind == TokenKind::Mixed {
                let ghost old_out = out@;
                out.push(all[k].duplicate());
                proof {
                    reveal(Seq::filter);
                }
                assert(word_spans(spans.take(k + 1)) == word_spans(spans.take(k as int)).push(spans[k as int]));
                assert forall|q: int| 0 <= q < out@.len() implies token_of(
                    text@,
                    word_spans(spans.take(k + 1))[q],
                    #[trigger] out@[q],
                ) by {
                    if q < old_out.len() {
                        assert(out@[q] == old_out[q]);
                    }
                }
            } else {
                proof {
                    reveal(Seq::filter);
                }
                assert(word_spans(spans.take(k + 1)) == word_spans(spans.take(k as int)));
            }
            k = k + 1;
        }
        assert(spans.take(all@.len() as int) =~= spans);
        out
    }
}

/// Visible spans lie inside the text, are not empty, and come in order
/// without overlapping.
pub proof fn lemma_visible_spans_ordered(s: Seq<char>, i: int, with_ws: bool)
    requires
        0 <= i,
    ensures
        ({
            let sp = visible_spans_from(s, i, with_ws);
            &&& forall|k: int| 0 <= k < sp.len() ==> i <= (#[trigger] sp[k]).0 < sp[k].1 <= s.len()
            &&& forall|a: int, b: int| 0 <= a < b < sp.len() ==> (#[trigger] sp[a]).1 <= (#[trigger] sp[b]).0
        }),
    decreases s.len() - i,
{
    if i < s.len() {
        let t = lex_at(s, i);
        if !(t.0 <= 0 || i + t.0 > s.len()) {
            lemma_visible_spans_ordered(s, i + t.0, with_ws);
            let rest = visible_spans_from(s, i + t.0, with_ws);
            if with_ws || t.1 != TokenKind::Whitespace {
                let sp = seq![(i, i + t.0, t.1)] + rest;
                assert forall|k: int| 0 <= k < sp.len() implies i <= (#[trigger] sp[k]).0 < sp[k].1
                    <= s.len() by {
                    if k > 0 {
                        assert(sp[k] == rest[k - 1]);
                    }
                }
                assert forall|a: int, b: int| 0 <= a < b < sp.len() implies (#[trigger] sp[a]).1 <= (
                #[trigger] sp[b]).0 by {
                    assert(sp[b] == rest[b - 1]);
                    if a > 0 {
                        assert(sp[a] == rest[a - 1]);
                    }
                }
            }
        }
    }
}

/// A later character index has a larger byte offset.
proof fn lemma_offset_strict(s: Seq<char>, i: int, j: int)
    requires
        0 <= i < j <= s.len(),
    ensures
        byte_offset(s, i) < byte_offset(s, j),
{
    crate::text::lemma_byte_offset_step(s, i);
    lemma_byte_offset_mono(s, i + 1, j);
}

proof fn lemma_gaps_white(s: Seq<char>, i: int, with_ws: bool)
    requires
        0 <= i,
    ensures
        forall|c: int|
            i <= c < s.len() && (forall|k: int|
                0 <= k < visible_spans_from(s, i, with_ws).len() ==> !(visible_spans_from(s, i, with_ws)[k].0
                    <= c < #[trigger] visible_spans_from(s, i, with_ws)[k].1)) ==> unicode_white_space(
                #[trigger] s[c],
            ),
        !with_ws ==> forall|k: int|
            0 <= k < visible_spans_from(s, i, with_ws).len() ==> (#[trigger] visible_spans_from(
                s,
                i,
                with_ws,
            )[k]).2 != TokenKind::Whitespace,
    decreases s.len() - i,
{
    if i < s.len() {
        lemma_lex_bounds(s, i);
        law_lex_whitespace(s, i);
        let t = lex_at(s, i);
        lemma_gaps_white(s, i + t.0, with_ws);
        let rest = visible_spans_from(s, i + t.0, with_ws);
        let v = visible_spans_from(s, i, with_ws);
        if with_ws || t.1 != TokenKind::Whitespace {
            assert(v == seq![(i, i + t.0, t.1)] + rest);
            assert forall|c: int|
                i <= c < s.len() && (forall|k: int| 0 <= k < v.len() ==> !(v[k].0 <= c < #[trigger] v[k].1))
                    implies unicode_white_space(#[trigger] s[c]) by {
                assert(!(v[0].0 <= c < v[0].1));
                assert forall|k: int| 0 <= k < rest.len() implies !(rest[k].0 <= c < #[trigger] rest[k].1) by {
                    assert(v[k + 1] == rest[k]);
                }
            }
            if !with_ws {
                assert forall|k: int| 0 <= k < v.len() implies (#[trigger] v[k]).2 != TokenKind::Whitespace by {
                    if k > 0 {
                        assert(v[k] == rest[k - 1]);
                    }
                }
            }
        } else {
            assert(v == rest);
        }
    }
}

/// Tokens are never empty, and every character outside the tokens is
/// whitespace; a tokenizer that drops whitespace gives no whitespace token,
/// and an empty text gives no token.
pub proof fn law_tokens_cover_text(text: Seq<char>, with_ws: bool, toks: Seq<Token>)
    requires
        tokens_match(text, visible_spans_from(text, 0, with_ws), toks),
    ensures
        forall|k: int| 0 <= k < toks.len() ==> (#[trigger] toks[k]).byte_start < toks[k].byte_end
            && toks[k].text@.len() > 0,
        forall|c: int|
            0 <= c < text.len() && (forall|k: int|
                0 <= k < toks.len() ==> !((#[trigger] toks[k]).byte_start <= byte_offset(text, c)
                    < toks[k].byte_end)) ==> unicode_white_space(#[trigger] text[c]),
        !with_ws ==> forall|k: int| 0 <= k < toks.len() ==> (#[trigger] toks[k]).kind != TokenKind::Whitespace,
        text.len() == 0 ==> toks.len() == 0,
{
    let sp = visible_spans_from(text, 0, with_ws);
    lemma_visible_spans_ordered(text, 0, with_ws);
    lemma_gaps_white(text, 0, with_ws);
    assert forall|k: int| 0 <= k < toks.len() implies (#[trigger] toks[k]).byte_start < toks[k].byte_end
        && toks[k].text@.len() > 0 by {
        assert(token_of(text, sp[k], toks[k]));
        lemma_offset_strict(text, sp[k].0, sp[k].1);
    }
    assert forall|c: int|
        0 <= c < text.len() && (forall|k: int|
            0 <= k < toks.len() ==> !((#[trigger] toks[k]).byte_start <= byte_offset(text, c)
                < toks[k].byte_end)) implies unicode_white_space(#[trigger] text[c]) by {
        assert forall|k: int| 0 <= k < sp.len() implies !(sp[k].0 <= c < #[trigger] sp[k].1) by {
            if sp[k].0 <= c < sp[k].1 {
                assert(token_of(text, sp[k], toks[k]));
                lemma_byte_offset_mono(text, sp[k].0, c);
                lemma_offset_strict(text, c, sp[k].1);
                assert(!(toks[k].byte_start <= byte_offset(text, c) < toks[k].byte_end));
            }
        }
    }
    if !with_ws {
        assert forall|k: int| 0 <= k < toks.len() implies (#[trigger] toks[k]).kind != TokenKind::Whitespace by {
            assert(token_of(text, sp[k], toks[k]));
        }
    }
}

proof fn lemma_visible_filter(s: Seq<char>, i: int)
    requires
        0 <= i,
    ensures
        visible_spans_from(s, i, false) == visible_spans_from(s, i, true).filter(
            |sp: (int, int, TokenKind)| sp.2 != TokenKind::Whitespace,
        ),
    decreases s.len() - i,
{
    let p = |sp: (int, int, TokenKind)| sp.2 != TokenKind::Whitespace;
    reveal(Seq::filter);
    if i < s.len() {
        lemma_lex_bounds(s, i);
        let t = lex_at(s, i);
        lemma_visible_filter(s, i + t.0);
        let h = seq![(i, i + t.0, t.1)];
        let rt = visible_spans_from(s, i + t.0, true);
        Seq::filter_distributes_over_add(h, rt, p);
        assert(h.drop_last() =~= Seq::<(int, int, TokenKind)>::empty());
        assert(h.last() == (i, i + t.0, t.1));
        assert(Seq::<(int, int, TokenKind)>::empty().filter(p) =~= Seq::<(int, int, TokenKind)>::empty());
        if t.1 != TokenKind::Whitespace {
            assert(h.filter(p) =~= h);
        } else {
            assert(h.filter(p) =~= Seq::<(int, int, TokenKind)>::empty());
            assert(Seq::<(int, int, TokenKind)>::empty() + rt.filter(p) =~= rt.filter(p));
        }
    } else {
        assert(visible_spans_from(s, i, true) =~= Seq::<(int, int, TokenKind)>::empty());
    }
}

proof fn lemma_filter_ws_views(s: Seq<char>, spans: Seq<(int, int, TokenKind)>)
    ensures
        spans.filter(|sp: (int, int, TokenKind)| sp.2 != TokenKind::Whitespace).map_values(
            |sp: (int, int, TokenKind)| span_view(s, sp),
        ) == spans.map_values(|sp: (int, int, TokenKind)| span_view(s, sp)).filter(
            |v: (Seq<char>, TokenKind, int, int)| v.1 != TokenKind::Whitespace,
        ),
    decreases spans.len(),
{
    reveal(Seq::filter);
    let f = |sp: (int, int, TokenKind)| span_view(s, sp);
    let p = |sp: (int, int, TokenKind)| sp.2 != TokenKind::Whitespace;
    if spans.len() == 0 {
        assert(spans.filter(p) =~= spans);
        assert(spans.map_values(f) =~= Seq::<(Seq<char>, TokenKind, int, int)>::empty());
    } else {
        let d = spans.drop_last();
        lemma_filter_ws_views(s, d);
        assert(spans.map_values(f).drop_last() =~= d.map_values(f));
        assert(spans.map_values(f).last() == f(spans.last()));
        if spans.last().2 != TokenKind::Whitespace {
            assert(spans.filter(p).map_values(f) =~= d.filter(p).map_values(f).push(f(spans.last())));
        } else {
            assert(spans.filter(p).map_values(f) =~= d.filter(p).map_values(f));
        }
    }
}

/// Dropping whitespace is the only difference between the two tokenizers:
/// the tokens without whitespace are those with it, whitespace tokens taken
/// out, in the same order.
pub proof fn law_tokens_without_whitespace(text: Seq<char>, with_ws: Seq<Token>, without: Seq<Token>)
    requires
        tokens_match(text, visible_spans_from(text, 0, true), with_ws),
        tokens_match(text, visible_spans_from(text, 0, false), without),
    ensures
        without.map_values(|t: Token| token_view(t)) == with_ws.map_values(|t: Token| token_view(t)).filter(
            |v: (Seq<char>, TokenKind, int, int)| v.1 != TokenKind::Whitespace,
        ),
{
    let sp = visible_spans_from(text, 0, true);
    lemma_match_views(text, sp, with_ws);
    lemma_visible_filter(text, 0);
    lemma_match_views(text, visible_spans_from(text, 0, false), without);
    lemma_filter_ws_views(text, sp);
}

proof fn lemma_spans_contiguous(s: Seq<char>, i: int)
    requires
        0 <= i <= s.len(),
    ensures
        ({
            let v = visible_spans_from(s, i, true);
            &&& i < s.len() ==> v.len() > 0 && v[0].0 == i && v.last().1 == s.len()
            &&& i == s.len() ==> v.len() == 0
            &&& forall|k: int| 0 <= k < v.len() - 1 ==> (#[trigger] v[k]).1 == v[k + 1].0
        }),
    decreases s.len() - i,
{
    if i < s.len() {
        lemma_lex_bounds(s, i);
        let t = lex_at(s, i);
        lemma_spans_contiguous(s, i + t.0);
        let rest = visible_spans_from(s, i + t.0, true);
        let v = seq![(i, i + t.0, t.1)] + rest;
        assert(visible_spans_from(s, i, true) == v);
        assert forall|k: int| 0 <= k < v.len() - 1 implies (#[trigger] v[k]).1 == v[k + 1].0 by {
            assert(v[k + 1] == rest[k]);
            if k > 0 {
                assert(v[k] == rest[k - 1]);
            }
        }
        if rest.len() > 0 {
            assert(v.last() == rest.last());
        }
    }
}

/// With whitespace kept the tokens tile the text: the first starts at byte
/// 0, each ends where the next starts, and the last ends at the text's end.
pub proof fn law_whitespace_tokens_tile(text: Seq<char>, toks: Seq<Token>)
    requires
        tokens_match(text, visible_spans_from(text, 0, true), toks),
    ensures
        text.len() > 0 <==> toks.len() > 0,
        toks.len() > 0 ==> toks[0].byte_start == 0 && toks.last().byte_end == byte_len(text),
        forall|k: int| 0 <= k < toks.len() - 1 ==> (#[trigger] toks[k]).byte_end == toks[k + 1].byte_start,
{
    let v = visible_spans_from(text, 0, true);
    lemma_spans_contiguous(text, 0);
    if toks.len() > 0 {
        assert(token_of(text, v[0], toks[0]));
        assert(token_of(text, v[v.len() - 1], toks[toks.len() - 1]));
        assert(text.take(0) =~= Seq::<char>::empty());
        assert(text.take(text.len() as int) =~= text);
    }
    assert forall|k: int| 0 <= k < toks.len() - 1 implies (#[trigger] toks[k]).byte_end == toks[k + 1].byte_start by {
        assert(token_of(text, v[k], toks[k]));
        assert(token_of(text, v[k + 1], toks[k + 1]));
    }
}

/// Each token's text is exactly the text between its byte offsets, and the
/// tokens come in order without overlapping.
pub proof fn law_token_offsets(text: Seq<char>, with_ws: bool, toks: Seq<Token>)
    requires
        tokens_match(text, visible_spans_from(text, 0, with_ws), toks),
    ensures
        forall|k: int|
            0 <= k < toks.len() ==> (#[trigger] toks[k]).byte_start < toks[k].byte_end && encode_utf8(
                toks[k].text@,
            ) == encode_utf8(text).subrange(toks[k].byte_start as int, toks[k].byte_end as int),
        forall|a: int, b: int|
            0 <= a < b < toks.len() ==> (#[trigger] toks[a]).byte_end <= (#[trigger] toks[b]).byte_start,
{
    let sp = visible_spans_from(text, 0, with_ws);
    lemma_visible_spans_ordered(text, 0, with_ws);
    assert forall|k: int| 0 <= k < toks.len() implies (#[trigger] toks[k]).byte_start
        < toks[k].byte_end && encode_utf8(toks[k].text@) == encode_utf8(text).subrange(
        toks[k].byte_start as int,
        toks[k].byte_end as int,
    ) by {
        assert(token_of(text, sp[k], toks[k]));
        assert(0 <= sp[k].0 < sp[k].1 <= text.len());
        lemma_encode_subrange(text, sp[k].0, sp[k].1);
        lemma_offset_strict(text, sp[k].0, sp[k].1);
    }
    assert forall|a: int, b: int| 0 <= a < b < toks.len() implies (#[trigger] toks[a]).byte_end <= (
    #[trigger] toks[b]).byte_start by {
        assert(token_of(text, sp[a], toks[a]));
        assert(token_of(text, sp[b], toks[b]));
        assert(sp[a].1 <= sp[b].0);
        assert(0 <= sp[b].0 < sp[b].1 <= text.len());
        lemma_byte_offset_mono(text, sp[a].1, sp[b].0);
    }
}

} // verus!
