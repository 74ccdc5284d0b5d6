//! Shape-based token classification by capitalization patterns, used as an
//! entity heuristic (a capitalized word mid-sentence is a strong signal).

use vstd::prelude::*;

use crate::text::{
    ascii_digit, ascii_punctuation, char_is_alphabetic, char_is_lowercase, char_is_uppercase,
    is_ascii_digit, is_ascii_punctuation, str_chars, unicode_alphabetic, unicode_lowercase,
    unicode_uppercase,
};
use crate::tokenizer::{apostrophe, is_contraction_apostrophe};

verus! {

/// Orthographic shape classification
#[derive(Debug, Clone, Copy, PartialEq, Eq, Hash, Structural)]
pub enum OrthographicShape {
    /// All uppercase: "NASA", "MORDOR", "WHO"
    AllCaps,
    /// Initial capital: "Zorian", "Cyoria", "Sally", "O'Brien"
    InitCap,
    /// Mixed case (internal caps): "McDonald", "iPhone", "MacBook"
    MixedCaps,
    /// All lowercase: "the", "wizard", "ancient"
    AllLower,
    /// Contains digits: "Chapter3", "M16", "2nd"
    HasDigit,
    /// Single character
    SingleChar,
    /// Punctuation only
    Punctuation,
    /// Unknown/other
    Other,
}

/// The short code of each shape.
pub open spec fn shape_code(s: OrthographicShape) -> Seq<char> {
    match s {
        OrthographicShape::AllCaps => seq!['A', 'A'],
        OrthographicShape::InitCap => seq!['A', 'a'],
        OrthographicShape::MixedCaps => seq!['a', 'A'],
        OrthographicShape::AllLower => seq!['a', 'a'],
        OrthographicShape::HasDigit => seq!['d'],
        OrthographicShape::SingleChar => seq!['x'],
        OrthographicShape::Punctuation => seq!['.'],
        OrthographicShape::Other => seq!['?'],
    }
}

impl OrthographicShape {
    /// Get a short code for the shape
    pub fn code(&self) -> (r: &'static str)
        ensures
            r@ == shape_code(*self),
    {
        match self {
            OrthographicShape::AllCaps => {
                proof {
                    reveal_strlit("AA");
                }
                "AA"
            },
            OrthographicShape::InitCap => {
                proof {
                    reveal_strlit("Aa");
                }
                "Aa"
            },
            OrthographicShape::MixedCaps => {
                proof {
                    reveal_strlit("aA");
                }
                "aA"
            },
            OrthographicShape::AllLower => {
                proof {
                    reveal_strlit("aa");
                }
                "aa"
            },
            OrthographicShape::HasDigit => {
                proof {
                    reveal_strlit("d");
                }
                "d"
            },
            OrthographicShape::SingleChar => {
                proof {
                    reveal_strlit("x");
                }
                "x"
            },
            OrthographicShape::Punctuation => {
                proof {
                    reveal_strlit(".");
                }
                "."
            },
            OrthographicShape::Other => {
                proof {
                    reveal_strlit("?");
                }
                "?"
            },
        }
    }

    /// Is this shape likely to be an entity?
    pub fn is_entity_candidate(&self) -> (b: bool)
        ensures
            b == (*self == OrthographicShape::AllCaps || *self == OrthographicShape::InitCap
                || *self == OrthographicShape::MixedCaps),
    {
        match self {
            OrthographicShape::AllCaps | OrthographicShape::InitCap
            | OrthographicShape::MixedCaps => true,
            _ => false,
        }
    }
}

// =============================================================================
// Shape specification
// =============================================================================

/// Typographic punctuation outside ASCII: curly quotes, dashes, ellipsis,
/// guillemets and inverted marks.
pub open spec fn unicode_punctuation(c: char) -> bool {
    c == '\u{201C}' || c == '\u{201D}' || c == '\u{2018}' || c == '\u{2019}' || c == '\u{2013}'
        || c == '\u{2014}' || c == '\u{2026}' || c == '\u{00AB}' || c == '\u{00BB}' || c
        == '\u{00A1}' || c == '\u{00BF}' || c == '\u{2039}' || c == '\u{203A}' || c
        == '\u{201E}' || c == '\u{201A}'
}

pub open spec fn punctuation_like(c: char) -> bool {
    ascii_punctuation(c) || unicode_punctuation(c)
}

pub open spec fn has_ascii_digit(s: Seq<char>) -> bool {
    exists|i: int| 0 <= i < s.len() && ascii_digit(#[trigger] s[i])
}

pub open spec fn all_punctuation(s: Seq<char>) -> bool {
    forall|i: int| 0 <= i < s.len() ==> punctuation_like(#[trigger] s[i])
}

pub open spec fn no_alphabetic(s: Seq<char>) -> bool {
    forall|i: int| 0 <= i < s.len() ==> !unicode_alphabetic(#[trigger] s[i])
}

/// Every letter is uppercase.
pub open spec fn letters_upper(s: Seq<char>) -> bool {
    forall|i: int| 0 <= i < s.len() && unicode_alphabetic(#[trigger] s[i]) ==> unicode_uppercase(s[i])
}

/// Every letter is lowercase.
pub open spec fn letters_lower(s: Seq<char>) -> bool {
    forall|i: int| 0 <= i < s.len() && unicode_alphabetic(#[trigger] s[i]) ==> unicode_lowercase(s[i])
}

/// `f` is the index of the first letter of `s`.
pub open spec fn is_first_letter(s: Seq<char>, f: int) -> bool {
    &&& 0 <= f < s.len()
    &&& unicode_alphabetic(s[f])
    &&& forall|j: int| 0 <= j < f ==> !unicode_alphabetic(#[trigger] s[j])
}

/// Index of the first letter of `s` (meaningful when there is one).
pub open spec fn first_letter(s: Seq<char>) -> int {
    choose|f: int| is_first_letter(s, f)
}

/// An uppercase letter after index `f`. With `after_apostrophe_starts` a
/// capital right after an apostrophe (the `B` of "O'Brien") begins a new name
/// part and is not counted.
pub open spec fn capital_after(s: Seq<char>, f: int, after_apostrophe_starts: bool) -> bool {
    exists|i: int|
        f < i < s.len() && unicode_alphabetic(#[trigger] s[i]) && unicode_uppercase(s[i]) && !(
        after_apostrophe_starts && apostrophe(s[i - 1]))
}

/// The orthographic shape of a token.
pub open spec fn shape_of(s: Seq<char>) -> OrthographicShape {
    if s.len() == 0 {
        OrthographicShape::Other
    } else if s.len() == 1 {
        if punctuation_like(s[0]) {
            OrthographicShape::Punctuation
        } else {
            OrthographicShape::SingleChar
        }
    } else if has_ascii_digit(s) {
        OrthographicShape::HasDigit
    } else if no_alphabetic(s) {
        if all_punctuation(s) {
            OrthographicShape::Punctuation
        } else {
            OrthographicShape::Other
        }
    } else if letters_upper(s) {
        OrthographicShape::AllCaps
    } else if letters_lower(s) {
        OrthographicShape::AllLower
    } else {
        let f = first_letter(s);
        if unicode_uppercase(s[f]) {
            if capital_after(s, f, true) {
                OrthographicShape::MixedCaps
            } else {
                OrthographicShape::InitCap
            }
        } else if capital_after(s, f, false) {
            OrthographicShape::MixedCaps
        } else {
            OrthographicShape::Other
        }
    }
}

pub proof fn lemma_first_letter(s: Seq<char>, f: int)
    requires
        is_first_letter(s, f),
    ensures
        first_letter(s) == f,
{
    let g = first_letter(s);
    assert(is_first_letter(s, g));
    if g < f {
        assert(!unicode_alphabetic(s[g]));
    }
    if f < g {
        assert(!unicode_alphabetic(s[f]));
    }
}

/// The shape signature of a token sequence: the codes joined by spaces.
pub open spec fn signature_of(tokens: Seq<&str>) -> Seq<char>
    decreases tokens.len(),
{
    if tokens.len() == 0 {
        seq![]
    } else if tokens.len() == 1 {
        shape_code(shape_of(tokens[0]@))
    } else {
        signature_of(tokens.drop_last()) + seq![' '] + shape_code(shape_of(tokens.last()@))
    }
}

fn is_unicode_punctuation(c: char) -> (r: bool)
    ensures
        r == unicode_punctuation(c),
{
    c == '\u{201C}' || c == '\u{201D}' || c == '\u{2018}' || c == '\u{2019}' || c == '\u{2013}'
        || c == '\u{2014}' || c == '\u{2026}' || c == '\u{00AB}' || c == '\u{00BB}' || c
        == '\u{00A1}' || c == '\u{00BF}' || c == '\u{2039}' || c == '\u{203A}' || c
        == '\u{201E}' || c == '\u{201A}'
}

// =============================================================================
// Classifier
// =============================================================================

/// Orthographic shape classifier
pub struct OrthographicClassifier {}

impl Default for OrthographicClassifier {
    fn default() -> (c: Self)
        ensures
            c == (OrthographicClassifier {}),
    {
        Self::new()
    }
}

impl OrthographicClassifier {
    pub fn new() -> (c: Self)
        ensures
            c == (OrthographicClassifier {}),
    {
        OrthographicClassifier {}
    }

    /// Classify a single token's orthographic shape
    pub fn classify(&self, text: &str) -> (shape: OrthographicShape)
        ensures
            shape == shape_of(text@),
    {
        let chars = str_chars(text);
        let ghost s = text@;
        let n = chars.len();
        if n == 0 {
            return OrthographicShape::Other;
        }
        if n == 1 {
            let c = chars[0];
            if is_ascii_punctuation(c) || is_unicode_punctuation(c) {
                return OrthographicShape::Punctuation;
            }
            return OrthographicShape::SingleChar;
        }
        let mut k: usize = 0;
        while k < n
            invariant
                k <= n,
                n == chars@.len(),
                n >= 2,
                chars@ == s,
                s == text@,
                forall|i: int| 0 <= i < k ==> !ascii_digit(#[trigger] s[i]),
            decreases n - k,
        {
            if is_ascii_digit(chars[k]) {
                assert(ascii_digit(s[k as int]));
                assert(has_ascii_digit(s));
                return OrthographicShape::HasDigit;
            }
            k = k + 1;
        }
        assert(!has_ascii_digit(s));
        let mut first: Option<usize> = None;
        let mut all_upper = true;
        let mut all_lower = true;
        let mut all_punct = true;
        let mut k: usize = 0;
        while k < n
            invariant
                k <= n,
                n == chars@.len(),
                chars@ == s,
                all_punct == (forall|i: int| 0 <= i < k ==> punctuation_like(#[trigger] s[i])),
                all_upper == (forall|i: int|
                    0 <= i < k && unicode_alphabetic(#[trigger] s[i]) ==> unicode_uppercase(s[i])),
                all_lower == (forall|i: int|
                    0 <= i < k && unicode_alphabetic(#[trigger] s[i]) ==> unicode_lowercase(s[i])),
                first is None <==> (forall|i: int| 0 <= i < k ==> !unicode_alphabetic(#[trigger] s[i])),
                first matches Some(f) ==> f < k && is_first_letter(s, f as int),
            decreases n - k,
        {
            let c = chars[k];
            if !(is_ascii_punctuation(c) || is_unicode_punctuation(c)) {
                all_punct = false;
            }
            if char_is_alphabetic(c) {
                if first.is_none() {
                    first = Some(k);
                }
                if !char_is_uppercase(c) {
                    all_upper = false;
                }
                if !char_is_lowercase(c) {
                    all_lower = false;
                }
            }
            k = k + 1;
        }
        match first {
            None => {
                if all_punct {
                    OrthographicShape::Punctuation
                } else {
                    OrthographicShape::Other
                }
            },
            Some(f) => {
                assert(!no_alphabetic(s)) by {
                    assert(unicode_alphabetic(s[f as int]));
                }
                if all_upper {
                    return OrthographicShape::AllCaps;
                }
                if all_lower {
                    return OrthographicShape::AllLower;
                }
                proof {
                    lemma_first_letter(s, f as int);
                }
                let first_upper = char_is_uppercase(chars[f]);
                let mut k: usize = f + 1;
                while k < n
                    invariant
                        f < k <= n,
                        n == chars@.len(),
                        n >= 2,
                        chars@ == s,
                        s == text@,
                        !has_ascii_digit(s),
                        !no_alphabetic(s),
                        !letters_upper(s),
                        !letters_lower(s),
                        first_letter(s) == f,
                        first_upper == unicode_uppercase(s[f as int]),
                        forall|i: int|
                            f < i < k ==> !(unicode_alphabetic(#[trigger] s[i]) && unicode_uppercase(
                                s[i],
                            ) && !(first_upper && apostrophe(s[i - 1]))),
                    decreases n - k,
                {
                    let c = chars[k];
                    if char_is_alphabetic(c) && char_is_uppercase(c) && !(first_upper
                        && is_contraction_apostrophe(chars[k - 1])) {
                        assert(unicode_alphabetic(s[k as int]));
                        return OrthographicShape::MixedCaps;
                    }
                    k = k + 1;
                }
                if first_upper {
                    OrthographicShape::InitCap
                } else {
                    OrthographicShape::Other
                }
            },
        }
    }

    /// Classify a sequence of tokens and return shapes
    pub fn classify_sequence(&self, tokens: &[&str]) -> (shapes: Vec<OrthographicShape>)
        ensures
            shapes@.len() == tokens@.len(),
            forall|i: int| 0 <= i < tokens@.len() ==> shapes@[i] == shape_of(#[trigger] tokens@[i]@),
    {
        let mut shapes: Vec<OrthographicShape> = Vec::new();
        let mut k: usize = 0;
        while k < tokens.len()
            invariant
                k <= tokens@.len(),
                shapes@.len() == k,
                forall|i: int| 0 <= i < k ==> shapes@[i] == shape_of(#[trigger] tokens@[i]@),
            decreases tokens@.len() - k,
        {
            shapes.push(self.classify(tokens[k]));
            k = k + 1;
        }
        shapes
    }

    /// Check if a token at position is likely an entity based on context
    pub fn is_likely_entity(&self, text: &str, is_sentence_start: bool) -> (b: bool)
        ensures
            b == match shape_of(text@) {
                OrthographicShape::AllCaps => text.len() >= 2,
                OrthographicShape::InitCap => !is_sentence_start,
                OrthographicShape::MixedCaps => true,
                _ => false,
            },
    {
        match self.classify(text) {
            OrthographicShape::AllCaps => text.len() >= 2,
            OrthographicShape::InitCap => !is_sentence_start,
            OrthographicShape::MixedCaps => true,
            _ => false,
        }
    }

    /// Generate a shape signature for a sequence of words
    /// Useful for pattern matching (e.g., "Aa Aa" = two InitCap words)
    pub fn sequence_signature(&self, tokens: &[&str]) -> (sig: String)
        ensures
            sig@ == signature_of(tokens@),
    {
        let mut sig = String::new();
        let mut k: usize = 0;
        while k < tokens.len()
            invariant
                k <= tokens@.len(),
                sig@ == signature_of(tokens@.take(k as int)),
            decreases tokens@.len() - k,
        {
            let code = self.classify(tokens[k]).code();
            if k > 0 {
                proof {
                    reveal_strlit(" ");
                }
                sig.append(" ");
            }
            sig.append(code);
            proof {
                let t = tokens@.take(k + 1);
                assert(t.drop_last() =~= tokens@.take(k as int));
                assert(t.last() == tokens@[k as int]);
                if k == 0 {
                    assert(t.len() == 1);
                }
            }
            k = k + 1;
        }
        assert(tokens@.take(tokens@.len() as int) =~= tokens@);
        sig
    }
}

} // verus!
