//! Character-level helpers shared by the text modules: UTF-8 widths,
//! Unicode character classes, and conversions between `str` and `Vec<char>`.

use vstd::prelude::*;
use vstd::string::StringSliceAdditionalSpecFns;
use vstd::utf8::*;

verus! {

/// Number of bytes of the UTF-8 encoding of `c`.
pub open spec fn char_width(c: char) -> nat {
    let v = c as u32;
    if v < 0x80 {
        1
    } else if v < 0x800 {
        2
    } else if v < 0x10000 {
        3
    } else {
        4
    }
}

/// Byte length of the UTF-8 encoding of a character sequence (what `str::len` returns).
pub open spec fn byte_len(s: Seq<char>) -> nat {
    encode_utf8(s).len()
}

pub proof fn lemma_scalar_width(c: char)
    ensures
        encode_scalar(c as u32).len() == char_width(c),
{
    char_is_scalar(c);
}

pub proof fn lemma_byte_len_concat(a: Seq<char>, b: Seq<char>)
    ensures
        byte_len(a + b) == byte_len(a) + byte_len(b),
    decreases a.len(),
{
    if a.len() == 0 {
        assert(a + b =~= b);
    } else {
        assert((a + b).drop_first() =~= a.drop_first() + b);
        lemma_byte_len_concat(a.drop_first(), b);
    }
}

pub proof fn lemma_byte_len_push(a: Seq<char>, c: char)
    ensures
        byte_len(a.push(c)) == byte_len(a) + char_width(c),
{
    lemma_byte_len_concat(a, seq![c]);
    assert(a.push(c) =~= a + seq![c]);
    lemma_scalar_width(c);
    assert(seq![c].drop_first() =~= Seq::<char>::empty());
    assert(encode_utf8(Seq::<char>::empty()) =~= Seq::<u8>::empty());
    assert(encode_utf8(seq![c]) =~= encode_scalar(c as u32) + encode_utf8(seq![c].drop_first()));
}

/// Byte offset of character index `i` in `s`.
pub open spec fn byte_offset(s: Seq<char>, i: int) -> nat {
    byte_len(s.take(i))
}

/// The UTF-8 width of `c`, as `char::len_utf8` computes it.
pub fn char_len_utf8(c: char) -> (n: usize)
    ensures
        n == char_width(c),
        1 <= n <= 4,
{
    let v = c as u32;
    if v < 0x80 {
        1
    } else if v < 0x800 {
        2
    } else if v < 0x10000 {
        3
    } else {
        4
    }
}

/// The characters of `s`, in order.
pub fn str_chars(s: &str) -> (v: Vec<char>)
    ensures
        v@ == s@,
{
    let mut v: Vec<char> = Vec::new();
    for c in it: s.chars()
        invariant
            v@ == it.seq().take(it.index() as int),
            it.seq() == s@,
    {
        v.push(c);
    }
    v
}


/// Unicode `White_Space` property of a non-ASCII character: U+0085,
/// U+00A0, U+1680, U+2000..=U+200A, U+2028, U+2029, U+202F, U+205F, U+3000.
pub open spec fn non_ascii_white_space(c: char) -> bool {
    let x = c as u32;
    ||| x == 0x85
    ||| x == 0xA0
    ||| x == 0x1680
    ||| 0x2000 <= x <= 0x200A
    ||| x == 0x2028
    ||| x == 0x2029
    ||| x == 0x202F
    ||| x == 0x205F
    ||| x == 0x3000
}

/// Unicode `White_Space` property (what `char::is_whitespace` reports): among
/// ASCII characters exactly U+0009..=U+000D and the space.
pub open spec fn unicode_white_space(c: char) -> bool {
    if (c as u32) < 0x80 {
        c == ' ' || (9 <= (c as u32) && (c as u32) <= 13)
    } else {
        non_ascii_white_space(c)
    }
}

/// Whether `c` is whitespace (what `char::is_whitespace` reports): the
/// Unicode `White_Space` property, decided from its table.
pub fn char_is_whitespace(c: char) -> (r: bool)
    ensures
        r == unicode_white_space(c),
{
    let x = c as u32;
    if x < 0x80 {
        x == 0x20 || (9 <= x && x <= 13)
    } else {
        x == 0x85 || x == 0xA0 || x == 0x1680 || (0x2000 <= x && x <= 0x200A) || x == 0x2028
            || x == 0x2029 || x == 0x202F || x == 0x205F || x == 0x3000
    }
}

/// True when every character of `s` is whitespace (so `trim` would leave nothing).
pub open spec fn all_white(s: Seq<char>) -> bool {
    forall|i: int| 0 <= i < s.len() ==> unicode_white_space(#[trigger] s[i])
}

pub proof fn lemma_byte_offset_step(s: Seq<char>, i: int)
    requires
        0 <= i < s.len(),
    ensures
        byte_offset(s, i + 1) == byte_offset(s, i) + char_width(s[i]),
{
    assert(s.take(i + 1) =~= s.take(i).push(s[i]));
    lemma_byte_len_push(s.take(i), s[i]);
}

/// The byte offset of a character index is a character boundary of the
/// encoded text.
pub proof fn lemma_offset_boundary(s: Seq<char>, i: int)
    requires
        0 <= i <= s.len(),
    ensures
        is_char_boundary(encode_utf8(s), byte_offset(s, i) as int),
    decreases i,
{
    let bytes = encode_utf8(s);
    encode_utf8_valid_utf8(s);
    if i == 0 {
        assert(s.take(0) =~= Seq::<char>::empty());
        assert(byte_offset(s, 0) == 0);
    } else {
        encode_utf8_first_scalar(s);
        assert(pop_first_scalar(bytes) =~= encode_utf8(s.drop_first()));
        lemma_offset_boundary(s.drop_first(), i - 1);
        assert(s.take(i).drop_first() =~= s.drop_first().take(i - 1));
        assert(s.take(i)[0] == s[0]);
        lemma_byte_offset_mono(s, i, s.len() as int);
        assert(s.take(s.len() as int) =~= s);
        lemma_scalar_width(s[0]);
        assert(byte_offset(s, i) == encode_scalar(s[0] as u32).len() + byte_offset(s.drop_first(), i - 1));
        assert(byte_offset(s, i) > 0);
    }
}

pub proof fn lemma_byte_offset_mono(s: Seq<char>, i: int, j: int)
    requires
        0 <= i <= j <= s.len(),
    ensures
        byte_offset(s, i) <= byte_offset(s, j),
        byte_offset(s, j) <= byte_len(s),
{
    assert(s.take(j) =~= s.take(i) + s.subrange(i, j));
    lemma_byte_len_concat(s.take(i), s.subrange(i, j));
    assert(s =~= s.take(j) + s.skip(j));
    lemma_byte_len_concat(s.take(j), s.skip(j));
}

/// The bytes of a character range are the corresponding byte range of the whole encoding.
pub proof fn lemma_encode_subrange(s: Seq<char>, i: int, j: int)
    requires
        0 <= i <= j <= s.len(),
    ensures
        encode_utf8(s).subrange(byte_offset(s, i) as int, byte_offset(s, j) as int)
            == encode_utf8(s.subrange(i, j)),
        byte_offset(s, j) - byte_offset(s, i) == byte_len(s.subrange(i, j)),
{
    assert(s.take(j) =~= s.take(i) + s.subrange(i, j));
    assert(s =~= s.take(j) + s.skip(j));
    lemma_encode_concat(s.take(i), s.subrange(i, j));
    lemma_encode_concat(s.take(j), s.skip(j));
    let e = encode_utf8(s);
    let ej = encode_utf8(s.take(j));
    let ei = encode_utf8(s.take(i));
    assert(e.subrange(byte_offset(s, i) as int, byte_offset(s, j) as int) =~= ej.subrange(
        ei.len() as int,
        ej.len() as int,
    ));
}

pub proof fn lemma_encode_concat(a: Seq<char>, b: Seq<char>)
    ensures
        encode_utf8(a + b) == encode_utf8(a) + encode_utf8(b),
    decreases a.len(),
{
    if a.len() == 0 {
        assert(a + b =~= b);
        assert(encode_utf8(a) =~= Seq::<u8>::empty());
        assert(encode_utf8(a) + encode_utf8(b) =~= encode_utf8(b));
    } else {
        assert((a + b).drop_first() =~= a.drop_first() + b);
        lemma_encode_concat(a.drop_first(), b);
        assert(encode_utf8(a + b) =~= encode_scalar(a[0] as u32) + encode_utf8(a.drop_first() + b));
    }
}

/// Byte offsets of every character boundary of `s`: entry `i` is the byte
/// offset of character `i`, and the last entry is the byte length.
pub fn byte_offsets(s: &Vec<char>) -> (offs: Vec<usize>)
    requires
        byte_len(s@) <= usize::MAX,
    ensures
        offs@.len() == s@.len() + 1,
        forall|i: int| 0 <= i <= s@.len() ==> offs@[i] == byte_offset(s@, i),
{
    let mut offs: Vec<usize> = Vec::new();
    offs.push(0);
    assert(s@.take(0) =~= Seq::<char>::empty());
    assert(encode_utf8(Seq::<char>::empty()) =~= Seq::<u8>::empty());
    let mut acc: usize = 0;
    let mut i: usize = 0;
    while i < s.len()
        invariant
            i <= s@.len(),
            byte_len(s@) <= usize::MAX,
            offs@.len() == i + 1,
            acc == byte_offset(s@, i as int),
            forall|k: int| 0 <= k <= i ==> offs@[k] == byte_offset(s@, k),
        decreases s@.len() - i,
    {
        proof {
            lemma_byte_offset_step(s@, i as int);
            lemma_byte_offset_mono(s@, i as int + 1, s@.len() as int);
            assert(s@.take(s@.len() as int) =~= s@);
        }
        acc = acc + char_len_utf8(s[i]);
        offs.push(acc);
        i = i + 1;
    }
    offs
}


/// The substring with bytes `[a, b)`, for character boundaries `a <= b`
/// (what `&text[a..b]` gives).
pub fn str_slice<'a>(text: &'a str, a: usize, b: usize) -> (r: &'a str)
    requires
        a <= b <= text.spec_bytes().len(),
        is_char_boundary(text.spec_bytes(), a as int),
        is_char_boundary(text.spec_bytes(), b as int),
    ensures
        r.spec_bytes() == text.spec_bytes().subrange(a as int, b as int),
{
    let ghost bytes = text.spec_bytes();
    proof {
        encode_utf8_valid_utf8(text@);
    }
    let (_, rest) = text.split_at(a);
    let ghost rb = rest.spec_bytes();
    assert(rb =~= bytes.subrange(a as int, bytes.len() as int));
    proof {
        valid_utf8_split(bytes, a as int);
        if b < bytes.len() {
            is_char_boundary_iff_not_is_continuation_byte(bytes, b as int);
            is_char_boundary_iff_not_is_continuation_byte(rb, (b - a) as int);
            assert(rb[(b - a) as int] == bytes[b as int]);
        } else {
            is_char_boundary_start_end_of_seq(rb);
        }
    }
    let (mid, _) = rest.split_at(b - a);
    assert(mid.spec_bytes() =~= bytes.subrange(a as int, b as int));
    mid
}


// =============================================================================
// Character classes
// =============================================================================

pub open spec fn is_ascii_char(c: char) -> bool {
    (c as u32) < 0x80
}

pub open spec fn ascii_digit(c: char) -> bool {
    '0' <= c && c <= '9'
}

pub open spec fn ascii_upper(c: char) -> bool {
    'A' <= c && c <= 'Z'
}

pub open spec fn ascii_lower(c: char) -> bool {
    'a' <= c && c <= 'z'
}

/// `char::is_ascii_punctuation`: the ASCII graphic characters that are neither
/// letters nor digits.
pub open spec fn ascii_punctuation(c: char) -> bool {
    ('!' <= c && c <= '/') || (':' <= c && c <= '@') || ('[' <= c && c <= '`') || ('{' <= c
        && c <= '~')
}

/// Unicode `Alphabetic` property of a non-ASCII character.
pub uninterp spec fn non_ascii_alphabetic(c: char) -> bool;

/// Unicode `Numeric` (general categories Nd, Nl, No) of a non-ASCII character.
pub uninterp spec fn non_ascii_numeric(c: char) -> bool;

/// Unicode `Uppercase` property of a non-ASCII character.
pub uninterp spec fn non_ascii_uppercase(c: char) -> bool;

/// Unicode `Lowercase` property of a non-ASCII character.
pub uninterp spec fn non_ascii_lowercase(c: char) -> bool;

/// `char::is_alphabetic`.
pub open spec fn unicode_alphabetic(c: char) -> bool {
    if is_ascii_char(c) {
        ascii_upper(c) || ascii_lower(c)
    } else {
        non_ascii_alphabetic(c)
    }
}

/// `char::is_alphanumeric`: alphabetic or numeric.
pub open spec fn unicode_alphanumeric(c: char) -> bool {
    if is_ascii_char(c) {
        ascii_upper(c) || ascii_lower(c) || ascii_digit(c)
    } else {
        non_ascii_alphabetic(c) || non_ascii_numeric(c)
    }
}

/// `char::is_uppercase`.
pub open spec fn unicode_uppercase(c: char) -> bool {
    if is_ascii_char(c) {
        ascii_upper(c)
    } else {
        non_ascii_uppercase(c)
    }
}

/// `char::is_lowercase`.
pub open spec fn unicode_lowercase(c: char) -> bool {
    if is_ascii_char(c) {
        ascii_lower(c)
    } else {
        non_ascii_lowercase(c)
    }
}

/// `char::is_alphabetic`: the Unicode `Alphabetic` property; among ASCII
/// characters exactly the letters. The non-ASCII table is only named.
#[verifier::external_body]
pub(crate) fn char_is_alphabetic(c: char) -> (r: bool)
    ensures
        r == unicode_alphabetic(c),
        !is_ascii_char(c) ==> r == non_ascii_alphabetic(c),
{
    c.is_alphabetic()
}

/// `char::is_alphanumeric`: `Alphabetic` or `Numeric`; among ASCII characters
/// exactly letters and digits. The non-ASCII tables are only named.
#[verifier::external_body]
pub(crate) fn char_is_alphanumeric(c: char) -> (r: bool)
    ensures
        r == unicode_alphanumeric(c),
        !is_ascii_char(c) ==> r == (non_ascii_alphabetic(c) || non_ascii_numeric(c)),
{
    c.is_alphanumeric()
}

/// `char::is_uppercase`: the Unicode `Uppercase` property; among ASCII
/// characters exactly `A`..=`Z`. The non-ASCII table is only named.
#[verifier::external_body]
pub(crate) fn char_is_uppercase(c: char) -> (r: bool)
    ensures
        r == unicode_uppercase(c),
        !is_ascii_char(c) ==> r == non_ascii_uppercase(c),
{
    c.is_uppercase()
}

/// `char::is_lowercase`: the Unicode `Lowercase` property; among ASCII
/// characters exactly `a`..=`z`. The non-ASCII table is only named.
#[verifier::external_body]
pub(crate) fn char_is_lowercase(c: char) -> (r: bool)
    ensures
        r == unicode_lowercase(c),
        !is_ascii_char(c) ==> r == non_ascii_lowercase(c),
{
    c.is_lowercase()
}

pub fn is_ascii_digit(c: char) -> (r: bool)
    ensures
        r == ascii_digit(c),
{
    '0' <= c && c <= '9'
}

pub fn is_ascii_punctuation(c: char) -> (r: bool)
    ensures
        r == ascii_punctuation(c),
{
    ('!' <= c && c <= '/') || (':' <= c && c <= '@') || ('[' <= c && c <= '`') || ('{' <= c
        && c <= '~')
}

// =============================================================================
// Strings from characters
// =============================================================================

/// `String::push`: appends one character.
#[verifier::external_body]
pub(crate) fn string_push(s: &mut String, c: char)
    ensures
        final(s)@ == old(s)@.push(c),
{
    s.push(c)
}

/// The string made of `chars[a..b]`.
pub fn string_from_chars(chars: &Vec<char>, a: usize, b: usize) -> (r: String)
    requires
        a <= b <= chars@.len(),
    ensures
        r@ == chars@.subrange(a as int, b as int),
{
    let mut r = String::new();
    let mut k = a;
    while k < b
        invariant
            a <= k <= b <= chars@.len(),
            r@ == chars@.subrange(a as int, k as int),
        decreases b - k,
    {
        string_push(&mut r, chars[k]);
        assert(r@ =~= chars@.subrange(a as int, k + 1));
        k = k + 1;
    }
    r
}

// =============================================================================
// ASCII case folding
// =============================================================================

/// The code of `c` with `A`..=`Z` mapped to `a`..=`z` (other characters kept).
pub open spec fn ascii_fold(c: char) -> u32 {
    if ascii_upper(c) {
        (c as u32 + 32) as u32
    } else {
        c as u32
    }
}

/// ASCII case-insensitive equality (what `str::eq_ignore_ascii_case` decides):
/// same characters after folding ASCII letters to lowercase.
pub open spec fn ascii_ci_eq(a: Seq<char>, b: Seq<char>) -> bool {
    &&& a.len() == b.len()
    &&& forall|i: int| 0 <= i < a.len() ==> ascii_fold(#[trigger] a[i]) == ascii_fold(b[i])
}

fn fold_code(c: char) -> (r: u32)
    ensures
        r == ascii_fold(c),
{
    if 'A' <= c && c <= 'Z' {
        c as u32 + 32
    } else {
        c as u32
    }
}

/// True when `a` and `b` match ignoring ASCII case.
pub fn eq_ignore_ascii_case(a: &str, b: &str) -> (r: bool)
    ensures
        r == ascii_ci_eq(a@, b@),
{
    let ca = str_chars(a);
    let cb = str_chars(b);
    if ca.len() != cb.len() {
        return false;
    }
    let mut k: usize = 0;
    while k < ca.len()
        invariant
            k <= ca@.len(),
            ca@.len() == cb@.len(),
            ca@ == a@,
            cb@ == b@,
            forall|i: int| 0 <= i < k ==> ascii_fold(#[trigger] a@[i]) == ascii_fold(b@[i]),
        decreases ca@.len() - k,
    {
        if fold_code(ca[k]) != fold_code(cb[k]) {
            return false;
        }
        k = k + 1;
    }
    true
}

// =============================================================================
// Unicode case mapping
// =============================================================================

/// Every character of `s` is ASCII.
pub open spec fn ascii_text(s: Seq<char>) -> bool {
    forall|i: int| 0 <= i < s.len() ==> (#[trigger] s[i] as u32) < 0x80
}

/// `s` with the ASCII capitals `A..=Z` made small, all else unchanged.
pub open spec fn ascii_lowered(s: Seq<char>) -> Seq<char> {
    s.map_values(|c: char| if ascii_upper(c) { ((c as u32) + 32) as char } else { c })
}

/// `s` with the ASCII small letters `a..=z` made capital, all else unchanged.
pub open spec fn ascii_uppered(s: Seq<char>) -> Seq<char> {
    s.map_values(|c: char| if ascii_lower(c) { ((c as u32) - 32) as char } else { c })
}

/// The Unicode lowercase mapping of a string that is not all ASCII (what
/// `str::to_lowercase` returns for it).
pub uninterp spec fn lowercase_mapping(s: Seq<char>) -> Seq<char>;

/// The Unicode uppercase mapping of a string that is not all ASCII (what
/// `str::to_uppercase` returns for it).
pub uninterp spec fn uppercase_mapping(s: Seq<char>) -> Seq<char>;

/// Unicode lowercase mapping of a string (what `str::to_lowercase` returns):
/// on ASCII text exactly `A..=Z` become small.
pub open spec fn unicode_lower_text(s: Seq<char>) -> Seq<char> {
    if ascii_text(s) {
        ascii_lowered(s)
    } else {
        lowercase_mapping(s)
    }
}

/// Unicode uppercase mapping of a string (what `str::to_uppercase` returns):
/// on ASCII text exactly `a..=z` become capital.
pub open spec fn unicode_upper_text(s: Seq<char>) -> Seq<char> {
    if ascii_text(s) {
        ascii_uppered(s)
    } else {
        uppercase_mapping(s)
    }
}

/// `str::to_lowercase`: the lowercase equivalent under the Unicode
/// `Lowercase` mapping. On ASCII text that maps exactly `A..=Z` to
/// `a..=z` (the Unicode mapping agrees with the ASCII one there); for other
/// text the mapping is only named.
#[verifier::external_body]
pub(crate) fn str_to_lowercase(s: &str) -> (r: String)
    ensures
        r@ == unicode_lower_text(s@),
        ascii_text(s@) ==> r@ == ascii_lowered(s@),
        !ascii_text(s@) ==> r@ == lowercase_mapping(s@),
{
    s.to_lowercase()
}

/// `str::to_uppercase`: the uppercase equivalent under the Unicode
/// `Uppercase` mapping. On ASCII text that maps exactly `a..=z` to
/// `A..=Z`; for other text the mapping is only named.
#[verifier::external_body]
pub(crate) fn str_to_uppercase(s: &str) -> (r: String)
    ensures
        r@ == unicode_upper_text(s@),
        ascii_text(s@) ==> r@ == ascii_uppered(s@),
        !ascii_text(s@) ==> r@ == uppercase_mapping(s@),
{
    s.to_uppercase()
}

/// A copy of an optional string.
pub fn clone_opt_string(o: &Option<String>) -> (r: Option<String>)
    ensures
        r == *o,
{
    match o {
        Some(s) => Some(s.clone()),
        None => None,
    }
}

/// The views of optional strings.
pub open spec fn opt_view(o: Option<String>) -> Option<Seq<char>> {
    match o {
        Some(s) => Some(s@),
        None => None,
    }
}

// =============================================================================
// Words and string lists
// =============================================================================

/// The texts of a list of strings.
pub open spec fn string_views(v: Seq<String>) -> Seq<Seq<char>> {
    Seq::new(v.len(), |i: int| v[i]@)
}

/// The maximal runs of non-whitespace characters of `s[i..]`, the run being
/// built so far being `cur`.
pub open spec fn words_from(s: Seq<char>, i: int, cur: Seq<char>) -> Seq<Seq<char>>
    decreases s.len() - i,
{
    if i < 0 || i >= s.len() {
        if cur.len() > 0 {
            seq![cur]
        } else {
            seq![]
        }
    } else if unicode_white_space(s[i]) {
        (if cur.len() > 0 {
            seq![cur]
        } else {
            seq![]
        }) + words_from(s, i + 1, seq![])
    } else {
        words_from(s, i + 1, cur.push(s[i]))
    }
}

/// The whitespace-separated words of `s` (what `str::split_whitespace` yields).
pub open spec fn ws_words(s: Seq<char>) -> Seq<Seq<char>> {
    words_from(s, 0, seq![])
}

/// The whitespace-separated words of `s`.
pub fn split_whitespace(s: &str) -> (words: Vec<String>)
    ensures
        string_views(words@) == ws_words(s@),
{
    let chars = str_chars(s);
    let mut words: Vec<String> = Vec::new();
    let mut cur = String::new();
    let mut k: usize = 0;
    while k < chars.len()
        invariant
            k <= chars@.len(),
            chars@ == s@,
            ws_words(s@) == string_views(words@) + words_from(s@, k as int, cur@),
        decreases chars@.len() - k,
    {
        let c = chars[k];
        let ghost before = string_views(words@);
        if char_is_whitespace(c) {
            if !cur.as_str().is_empty() {
                let mut w = String::new();
                std::mem::swap(&mut w, &mut cur);
                words.push(w);
                proof {
                    assert(string_views(words@) =~= before + seq![w@]);
                }
            }
            proof {
                assert(cur@ =~= Seq::<char>::empty());
            }
        } else {
            string_push(&mut cur, c);
        }
        proof {
            if !unicode_white_space(c) {
                assert(string_views(words@) =~= before);
            }
        }
        assert(ws_words(s@) =~= string_views(words@) + words_from(s@, k + 1, cur@));
        k = k + 1;
    }
    if !cur.as_str().is_empty() {
        let ghost before = string_views(words@);
        words.push(cur);
        assert(string_views(words@) =~= before + seq![words@.last()@]);
    }
    assert(ws_words(s@) =~= string_views(words@));
    words
}

/// Exact equality of two strings' texts.
pub fn str_eq(a: &str, b: &str) -> (r: bool)
    ensures
        r == (a@ == b@),
{
    let ca = str_chars(a);
    let cb = str_chars(b);
    if ca.len() != cb.len() {
        return false;
    }
    let mut k: usize = 0;
    while k < ca.len()
        invariant
            k <= ca@.len(),
            ca@.len() == cb@.len(),
            ca@ == a@,
            cb@ == b@,
            forall|i: int| 0 <= i < k ==> a@[i] == b@[i],
        decreases ca@.len() - k,
    {
        if ca[k] != cb[k] {
            return false;
        }
        k = k + 1;
    }
    assert(a@ =~= b@);
    true
}

/// `w` is one of the texts of `list`.
pub open spec fn in_list(w: Seq<char>, list: Seq<&str>) -> bool {
    exists|i: int| 0 <= i < list.len() && (#[trigger] list[i])@ == w
}

/// True when `w` is one of `list`.
pub fn is_in_list(w: &str, list: &[&str]) -> (r: bool)
    ensures
        r == in_list(w@, list@),
{
    let mut i: usize = 0;
    while i < list.len()
        invariant
            i <= list@.len(),
            forall|j: int| 0 <= j < i ==> (#[trigger] list@[j])@ != w@,
        decreases list@.len() - i,
    {
        if str_eq(list[i], w) {
            assert(list@[i as int]@ == w@);
            return true;
        }
        i = i + 1;
    }
    false
}

/// True when `s` takes at least `k` bytes in UTF-8 (what `s.len() >= k`
/// decides).
pub fn has_min_bytes(s: &str, k: usize) -> (r: bool)
    ensures
        r == (byte_len(s@) >= k),
{
    str_byte_len(s) >= k
}

/// The UTF-8 length of `s` in bytes (what `str::len` returns).
pub fn str_byte_len(s: &str) -> (n: usize)
    ensures
        n == byte_len(s@),
        n == s.spec_bytes().len(),
{
    let bytes = s.as_bytes();
    bytes.len()
}

/// Text `[start, end)` is delimited by non-alphanumeric characters (or the
/// ends of the text) on both sides.
pub open spec fn at_word_boundaries(s: Seq<char>, start: int, end: int) -> bool {
    &&& start > 0 ==> forall|i: int|
        0 <= i < s.len() && byte_offset(s, i + 1) == start ==> !unicode_alphanumeric(
            #[trigger] s[i],
        )
    &&& end < byte_len(s) ==> forall|i: int|
        0 <= i < s.len() && byte_offset(s, i) == end ==> !unicode_alphanumeric(#[trigger] s[i])
}

/// Check that the bytes `[start, end)` of `text` sit at word boundaries.
pub fn is_word_boundary(text: &str, start: usize, end: usize) -> (b: bool)
    ensures
        b == at_word_boundaries(text@, start as int, end as int),
{
    let n_bytes = str_byte_len(text);
    let chars = str_chars(text);
    let offs = byte_offsets(&chars);
    let n = chars.len();
    let mut i: usize = 0;
    while i < n
        invariant
            i <= n == chars@.len(),
            chars@ == text@,
            n_bytes == byte_len(text@),
            offs@.len() == n + 1,
            forall|j: int| 0 <= j <= n ==> offs@[j] == byte_offset(text@, j),
            start > 0 ==> forall|j: int|
                0 <= j < i && byte_offset(text@, j + 1) == start ==> !unicode_alphanumeric(
                    #[trigger] text@[j],
                ),
            end < n_bytes ==> forall|j: int|
                0 <= j < i && byte_offset(text@, j) == end ==> !unicode_alphanumeric(
                    #[trigger] text@[j],
                ),
        decreases n - i,
    {
        let c = chars[i];
        if start > 0 && offs[i + 1] == start && char_is_alphanumeric(c) {
            return false;
        }
        if end < n_bytes && offs[i] == end && char_is_alphanumeric(c) {
            return false;
        }
        i = i + 1;
    }
    true
}

// =============================================================================
// Decimal numerals
// =============================================================================

pub open spec fn digit_char(d: nat) -> char {
    (('0' as u32) + d) as char
}

/// The decimal numeral of `n` (no leading zeros).
pub open spec fn decimal(n: nat) -> Seq<char>
    decreases n,
{
    if n < 10 {
        seq![digit_char(n)]
    } else {
        decimal(n / 10).push(digit_char(n % 10))
    }
}

fn digit(d: usize) -> (c: char)
    requires
        d < 10,
    ensures
        c == digit_char(d as nat),
{
    if d == 0 {
        '0'
    } else if d == 1 {
        '1'
    } else if d == 2 {
        '2'
    } else if d == 3 {
        '3'
    } else if d == 4 {
        '4'
    } else if d == 5 {
        '5'
    } else if d == 6 {
        '6'
    } else if d == 7 {
        '7'
    } else if d == 8 {
        '8'
    } else {
        '9'
    }
}

/// Append the decimal numeral of `n` to `s` (what `format!("{}", n)` writes).
pub fn push_decimal(s: &mut String, n: usize)
    ensures
        final(s)@ == old(s)@ + decimal(n as nat),
    decreases n,
{
    if n >= 10 {
        push_decimal(s, n / 10);
    }
    string_push(s, digit(n % 10));
    proof {
        if n < 10 {
            assert(n % 10 == n);
        }
    }
}

// =============================================================================
// Trimming
// =============================================================================

/// Index of the first non-whitespace character at or after `i` (or the length).
pub open spec fn skip_leading(s: Seq<char>, i: int) -> int
    decreases s.len() - i,
{
    if i < 0 || i >= s.len() || !unicode_white_space(s[i]) {
        i
    } else {
        skip_leading(s, i + 1)
    }
}

/// One past the last non-whitespace character before `j`, not below `lo`.
pub open spec fn skip_trailing(s: Seq<char>, lo: int, j: int) -> int
    decreases j - lo,
{
    if j <= lo || j > s.len() || !unicode_white_space(s[j - 1]) {
        j
    } else {
        skip_trailing(s, lo, j - 1)
    }
}

/// `s` without leading and trailing whitespace (what `str::trim` leaves).
pub open spec fn trimmed(s: Seq<char>) -> Seq<char> {
    let a = skip_leading(s, 0);
    s.subrange(a, skip_trailing(s, a, s.len() as int))
}

/// The text of `s` without leading and trailing whitespace.
pub fn trim_text(s: &str) -> (r: String)
    ensures
        r@ == trimmed(s@),
{
    let chars = str_chars(s);
    let n = chars.len();
    let mut a: usize = 0;
    while a < n && char_is_whitespace(chars[a])
        invariant
            a <= n == s@.len(),
            chars@ == s@,
            skip_leading(s@, 0) == skip_leading(s@, a as int),
        decreases n - a,
    {
        a = a + 1;
    }
    let mut b: usize = n;
    while b > a && char_is_whitespace(chars[b - 1])
        invariant
            a <= b <= n == s@.len(),
            chars@ == s@,
            skip_leading(s@, 0) == a,
            skip_trailing(s@, a as int, n as int) == skip_trailing(s@, a as int, b as int),
        decreases b,
    {
        b = b - 1;
    }
    string_from_chars(&chars, a, b)
}

} // verus!
