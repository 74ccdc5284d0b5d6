//! Incremental scanning: paragraph chunking, chunk alignment between two
//! versions of a document, dirty-region computation and position shifting.
//!
//! Text is split into paragraphs at `"\n\n"` (oversized paragraphs fall back to
//! sentences). Chunks of the new text are aligned to the old chunks by content,
//! the longest order-preserving alignment is kept, and everything else is dirty.

use std::collections::hash_map::DefaultHasher;
use std::hash::Hasher;
use std::ops::Range;
use vstd::prelude::*;
use vstd::std_specs::hash::DefaultHasherAdditionalSpecFns;
use vstd::string::StringSliceAdditionalSpecFns;
use vstd::utf8::*;

use crate::text::{
    all_white, byte_len, byte_offset, byte_offsets, char_is_whitespace, lemma_byte_len_concat,
    lemma_byte_offset_mono, lemma_encode_subrange,
    str_chars, str_slice, unicode_white_space,
};

verus! {

/// Paragraphs longer than this many bytes are split by sentences.
pub const MAX_CHUNK_SIZE: usize = 2000;

/// Above this many dirty chunks a full rescan is preferred.
pub const MAX_DIRTY_CHUNKS: usize = 10;

/// How many neighbouring chunks are added around a dirty chunk.
pub const CONTEXT_PADDING_PARAGRAPHS: usize = 1;

// =============================================================================
// Hashing
// =============================================================================

/// Hash of a text with the given UTF-8 bytes, as `str::hash` feeds a
/// `DefaultHasher`: the bytes followed by the terminator byte `0xff`.
pub open spec fn content_hash(bytes: Seq<u8>) -> u64 {
    DefaultHasher::spec_finish(seq![bytes, seq![0xffu8]])
}

fn hash_bytes(bytes: &[u8]) -> (h: u64)
    ensures
        h == content_hash(bytes@),
{
    let mut hasher = DefaultHasher::new();
    hasher.write(bytes);
    let mut term: Vec<u8> = Vec::new();
    term.push(0xffu8);
    assert(term@ =~= seq![0xffu8]);
    hasher.write(term.as_slice());
    assert(hasher@ =~= seq![bytes@, seq![0xffu8]]);
    hasher.finish()
}

/// Hash of a text (same value as hashing the `&str` with a `DefaultHasher`).
pub fn compute_hash(text: &str) -> (h: u64)
    ensures
        h == content_hash(text.spec_bytes()),
{
    hash_bytes(text.as_bytes())
}

fn bytes_between(bytes: &[u8], a: usize, b: usize) -> (v: Vec<u8>)
    requires
        a <= b <= bytes@.len(),
    ensures
        v@ == bytes@.subrange(a as int, b as int),
{
    let mut v: Vec<u8> = Vec::new();
    let mut k = a;
    while k < b
        invariant
            a <= k <= b <= bytes@.len(),
            v@ == bytes@.subrange(a as int, k as int),
        decreases b - k,
    {
        v.push(bytes[k]);
        k = k + 1;
    }
    v
}

// =============================================================================
// Chunks
// =============================================================================

/// A chunk of text with its absolute byte range and content hash.
#[derive(Debug, Clone, Copy)]
pub struct Chunk {
    /// Absolute start position (bytes) in the source text
    pub start: usize,
    /// Absolute end position (bytes) in the source text
    pub end: usize,
    /// Content hash
    pub hash: u64,
}

impl Chunk {
    /// Chunk for `text` placed at byte offset `start`.
    pub fn new(text: &str, start: usize) -> (c: Chunk)
        requires
            start + text.spec_bytes().len() <= usize::MAX,
        ensures
            c.start == start,
            c.end == start + text.spec_bytes().len(),
            c.hash == content_hash(text.spec_bytes()),
    {
        let bytes = text.as_bytes();
        Chunk { start, end: start + bytes.len(), hash: hash_bytes(bytes) }
    }

    /// Byte length of the chunk.
    pub fn len(&self) -> (n: usize)
        requires
            self.start <= self.end,
        ensures
            n == self.end - self.start,
    {
        self.end - self.start
    }

    /// True when the chunk covers no bytes.
    pub fn is_empty(&self) -> (b: bool)
        ensures
            b == (self.start == self.end),
    {
        self.start == self.end
    }
}

// =============================================================================
// Chunking specification
// =============================================================================

pub open spec fn is_sentence_end(c: char) -> bool {
    c == '.' || c == '!' || c == '?'
}

/// First index at or after `i` that is not whitespace (or the length).
pub open spec fn skip_white(p: Seq<char>, i: int) -> int
    decreases p.len() - i,
{
    if 0 <= i < p.len() && unicode_white_space(p[i]) {
        skip_white(p, i + 1)
    } else {
        i
    }
}

/// Sentence spans of `p`, scanning from index `i` with the current sentence
/// beginning at `start`: a sentence ends at `.`, `!` or `?` followed by
/// whitespace or the end of the text, and the whitespace after it is skipped.
pub open spec fn sentence_spans_from(p: Seq<char>, i: int, start: int) -> Seq<(int, int)>
    decreases p.len() - i,
{
    if i >= p.len() {
        if start < p.len() && !all_white(p.subrange(start, p.len() as int)) {
            seq![(start, p.len() as int)]
        } else {
            seq![]
        }
    } else if is_sentence_end(p[i]) && (i + 1 == p.len() || unicode_white_space(p[i + 1])) {
        let head = if !all_white(p.subrange(start, i + 1)) {
            seq![(start, i + 1)]
        } else {
            seq![]
        };
        head + sentence_spans_from(p, i + 1, skip_white(p, i + 1))
    } else {
        sentence_spans_from(p, i + 1, start)
    }
}

/// Sentence spans of `p` (character indices); a non-blank text without any
/// sentence break is one sentence.
pub open spec fn sentence_spans(p: Seq<char>) -> Seq<(int, int)> {
    let r = sentence_spans_from(p, 0, 0);
    if r.len() == 0 && !all_white(p) {
        seq![(0, p.len() as int)]
    } else {
        r
    }
}

/// Paragraph spans of `s` (what `split("\n\n")` yields), scanning from `i`
/// with the current paragraph beginning at `start`.
pub open spec fn paragraph_spans_from(s: Seq<char>, i: int, start: int) -> Seq<(int, int)>
    decreases s.len() - i,
{
    if i + 1 >= s.len() {
        seq![(start, s.len() as int)]
    } else if s[i] == '\n' && s[i + 1] == '\n' {
        seq![(start, i)] + paragraph_spans_from(s, i + 2, i + 2)
    } else {
        paragraph_spans_from(s, i + 1, start)
    }
}

pub open spec fn shift_spans(v: Seq<(int, int)>, a: int) -> Seq<(int, int)> {
    v.map_values(|sp: (int, int)| (sp.0 + a, sp.1 + a))
}

/// Chunk spans of one paragraph `[a, b)`: none when empty, the paragraph itself
/// when it fits, otherwise its sentences.
pub open spec fn part_chunk_spans(s: Seq<char>, a: int, b: int) -> Seq<(int, int)> {
    if a == b {
        seq![]
    } else if byte_len(s.subrange(a, b)) <= MAX_CHUNK_SIZE {
        seq![(a, b)]
    } else {
        shift_spans(sentence_spans(s.subrange(a, b)), a)
    }
}

pub open spec fn chunk_spans_of(s: Seq<char>, parts: Seq<(int, int)>) -> Seq<(int, int)>
    decreases parts.len(),
{
    if parts.len() == 0 {
        seq![]
    } else {
        chunk_spans_of(s, parts.drop_last()) + part_chunk_spans(
            s,
            parts.last().0,
            parts.last().1,
        )
    }
}

/// Character spans of the chunks of `s`.
pub open spec fn chunk_spans(s: Seq<char>) -> Seq<(int, int)> {
    chunk_spans_of(s, paragraph_spans_from(s, 0, 0))
}

/// The chunk covering characters `[sp.0, sp.1)` of `s`.
pub open spec fn chunk_of(s: Seq<char>, sp: (int, int)) -> Chunk {
    Chunk {
        start: byte_offset(s, sp.0) as usize,
        end: byte_offset(s, sp.1) as usize,
        hash: content_hash(encode_utf8(s.subrange(sp.0, sp.1))),
    }
}

/// The chunks of a text.
pub open spec fn spec_chunk_text(s: Seq<char>) -> Seq<Chunk> {
    chunk_spans(s).map_values(|sp: (int, int)| chunk_of(s, sp))
}

pub open spec fn int_spans(v: Seq<(usize, usize)>) -> Seq<(int, int)> {
    v.map_values(|sp: (usize, usize)| (sp.0 as int, sp.1 as int))
}


// =============================================================================
// Chunking
// =============================================================================

/// Whether `chars[a..b]` is all whitespace.
fn white_range(chars: &Vec<char>, a: usize, b: usize) -> (r: bool)
    requires
        a <= b <= chars@.len(),
    ensures
        r == all_white(chars@.subrange(a as int, b as int)),
{
    let mut k = a;
    while k < b
        invariant
            a <= k <= b <= chars@.len(),
            all_white(chars@.subrange(a as int, k as int)),
        decreases b - k,
    {
        if !char_is_whitespace(chars[k]) {
            assert(chars@.subrange(a as int, b as int)[k - a] == chars@[k as int]);
            return false;
        }
        assert forall|j: int| 0 <= j < k + 1 - a implies unicode_white_space(
            #[trigger] chars@.subrange(a as int, k + 1)[j],
        ) by {
            if j < k - a {
                assert(chars@.subrange(a as int, k + 1)[j] == chars@.subrange(a as int, k as int)[j]);
            }
        }
        k = k + 1;
    }
    true
}

/// Index (relative to `a`) of the first non-whitespace character of
/// `chars[a..b]` at or after relative index `i`.
fn skip_white_exec(chars: &Vec<char>, a: usize, b: usize, i: usize) -> (r: usize)
    requires
        a <= b <= chars@.len(),
        i <= b - a,
    ensures
        r == skip_white(chars@.subrange(a as int, b as int), i as int),
        i <= r <= b - a,
{
    let ghost p = chars@.subrange(a as int, b as int);
    let mut k = i;
    while k < b - a && char_is_whitespace(chars[a + k])
        invariant
            a <= b <= chars@.len(),
            i <= k <= b - a,
            p == chars@.subrange(a as int, b as int),
            skip_white(p, i as int) == skip_white(p, k as int),
        decreases b - a - k,
    {
        k = k + 1;
    }
    k
}

/// Sentence spans of `chars[a..b]`, as absolute character indices.
fn split_sentences(chars: &Vec<char>, a: usize, b: usize) -> (out: Vec<(usize, usize)>)
    requires
        a <= b <= chars@.len(),
    ensures
        int_spans(out@) == shift_spans(sentence_spans(chars@.subrange(a as int, b as int)), a as int),
{
    let ghost p = chars@.subrange(a as int, b as int);
    let n = b - a;
    let mut out: Vec<(usize, usize)> = Vec::new();
    let mut start: usize = 0;
    let mut i: usize = 0;
    while i < n
        invariant
            a <= b <= chars@.len(),
            n == b - a,
            p == chars@.subrange(a as int, b as int),
            i <= n,
            start <= n,
            forall|k: int| i <= k < start ==> unicode_white_space(#[trigger] p[k]),
            shift_spans(sentence_spans_from(p, 0, 0), a as int) == int_spans(out@) + shift_spans(
                sentence_spans_from(p, i as int, start as int),
                a as int,
            ),
        decreases n - i,
    {
        let c = chars[a + i];
        let ends = (c == '.' || c == '!' || c == '?') && (i + 1 == n || char_is_whitespace(
            chars[a + i + 1],
        ));
        if ends {
            let ghost old_out = out@;
            let ghost next = sentence_spans_from(p, i as int + 1, skip_white(p, i as int + 1));
            if start > i {
                assert(unicode_white_space(p[i as int]));
                assert(false);
            }
            if !white_range(chars, a + start, a + i + 1) {
                assert(chars@.subrange(a + start, a + i + 1) =~= p.subrange(
                    start as int,
                    i + 1,
                ));
                out.push((a + start, a + i + 1));
                assert(sentence_spans_from(p, i as int, start as int) == seq![
                    (start as int, i + 1),
                ] + next);
                assert(int_spans(out@) =~= int_spans(old_out) + seq![
                    ((a + start) as int, (a + i + 1) as int),
                ]);
                assert(shift_spans(seq![(start as int, i + 1)] + next, a as int) =~= seq![
                    ((a + start) as int, (a + i + 1) as int),
                ] + shift_spans(next, a as int));
            } else {
                assert(chars@.subrange(a + start, a + i + 1) =~= p.subrange(
                    start as int,
                    i + 1,
                ));
                assert(sentence_spans_from(p, i as int, start as int) =~= Seq::<(int, int)>::empty() + next);
                assert(Seq::<(int, int)>::empty() + next =~= next);
            }
            start = skip_white_exec(chars, a, b, i + 1);
            proof {
                lemma_skip_white_ws(p, i + 1);
            }
        }
        i = i + 1;
    }
    // trailing text after the last sentence break
    let ghost before = out@;
    if start < n && !white_range(chars, a + start, b) {
        assert(chars@.subrange(a + start, b as int) =~= p.subrange(start as int, n as int));
        out.push((a + start, b));
        assert(int_spans(out@) =~= int_spans(before) + seq![((a + start) as int, b as int)]);
        assert(shift_spans(seq![(start as int, n as int)], a as int) =~= seq![
            ((a + start) as int, b as int),
        ]);
    } else {
        if start < n {
            assert(chars@.subrange(a + start, b as int) =~= p.subrange(start as int, n as int));
        }
        assert(shift_spans(Seq::<(int, int)>::empty(), a as int) =~= Seq::<(int, int)>::empty());
        assert(int_spans(out@) =~= int_spans(before) + Seq::<(int, int)>::empty());
    }
    assert(shift_spans(sentence_spans_from(p, 0, 0), a as int) == int_spans(out@));
    if out.len() == 0 {
        assert(shift_spans(sentence_spans_from(p, 0, 0), a as int).len() == 0);
        if !white_range(chars, a, b) {
            assert(chars@.subrange(a as int, b as int) =~= p);
            out.push((a, b));
            assert(int_spans(out@) =~= seq![(a as int, b as int)]);
            assert(shift_spans(seq![(0int, n as int)], a as int) =~= seq![(a as int, b as int)]);
        } else {
            assert(chars@.subrange(a as int, b as int) =~= p);
        }
    }
    out
}

/// Appends the chunks of paragraph `[a, b)` (character indices) to `chunks`.
fn push_part_chunks(
    chunks: &mut Vec<Chunk>,
    chars: &Vec<char>,
    offs: &Vec<usize>,
    bytes: &[u8],
    a: usize,
    b: usize,
)
    requires
        a <= b <= chars@.len(),
        offs@.len() == chars@.len() + 1,
        forall|i: int| 0 <= i <= chars@.len() ==> offs@[i] == byte_offset(chars@, i),
        bytes@ == encode_utf8(chars@),
    ensures
        final(chunks)@ == old(chunks)@ + part_chunk_spans(chars@, a as int, b as int).map_values(
            |sp: (int, int)| chunk_of(chars@, sp),
        ),
{
    let ghost s = chars@;
    let ghost old_chunks = chunks@;
    if a == b {
        assert(chunks@ =~= old_chunks + Seq::<(int, int)>::empty().map_values(
            |sp: (int, int)| chunk_of(s, sp),
        ));
        return;
    }
    proof {
        lemma_encode_subrange(s, a as int, b as int);
        crate::text::lemma_byte_offset_mono(s, b as int, s.len() as int);
    }
    if offs[b] - offs[a] <= MAX_CHUNK_SIZE {
        let v = bytes_between(bytes, offs[a], offs[b]);
        let h = hash_bytes(v.as_slice());
        chunks.push(Chunk { start: offs[a], end: offs[b], hash: h });
        assert(chunks@ =~= old_chunks + seq![(a as int, b as int)].map_values(
            |sp: (int, int)| chunk_of(s, sp),
        ));
    } else {
        let spans = split_sentences(chars, a, b);
        let ghost target = part_chunk_spans(s, a as int, b as int);
        assert(target == int_spans(spans@));
        assert(target.len() == spans@.len());
        assert(target.len() == sentence_spans(chars@.subrange(a as int, b as int)).len());
        let mut k: usize = 0;
        while k < spans.len()
            invariant
                a <= b <= chars@.len(),
                s == chars@,
                offs@.len() == chars@.len() + 1,
                forall|i: int| 0 <= i <= chars@.len() ==> offs@[i] == byte_offset(chars@, i),
                bytes@ == encode_utf8(chars@),
                target == int_spans(spans@),
                target == shift_spans(sentence_spans(chars@.subrange(a as int, b as int)), a as int),
                target.len() == spans@.len(),
                target.len() == sentence_spans(chars@.subrange(a as int, b as int)).len(),
                k <= spans@.len(),
                chunks@ == old_chunks + target.take(k as int).map_values(
                    |sp: (int, int)| chunk_of(s, sp),
                ),
            decreases spans@.len() - k,
        {
            let (x, y) = spans[k];
            assert(target[k as int] == (x as int, y as int));
            proof {
                split_sentence_bounds(chars@.subrange(a as int, b as int), k as int);
                let sp = sentence_spans(chars@.subrange(a as int, b as int))[k as int];
                assert(target[k as int] == (sp.0 + a, sp.1 + a));
                lemma_encode_subrange(s, x as int, y as int);
                crate::text::lemma_byte_offset_mono(s, y as int, s.len() as int);
            }
            let v = bytes_between(bytes, offs[x], offs[y]);
            let h = hash_bytes(v.as_slice());
            chunks.push(Chunk { start: offs[x], end: offs[y], hash: h });
            assert(target.take(k + 1) =~= target.take(k as int).push(target[k as int]));
            assert(chunks@ =~= old_chunks + target.take(k + 1).map_values(
                |sp: (int, int)| chunk_of(s, sp),
            ));
            k = k + 1;
        }
        assert(target.take(spans@.len() as int) =~= target);
    }
}

/// Sentence spans lie inside the text and are ordered.
proof fn split_sentence_bounds(p: Seq<char>, k: int)
    requires
        0 <= k < sentence_spans(p).len(),
    ensures
        0 <= sentence_spans(p)[k].0 <= sentence_spans(p)[k].1 <= p.len(),
{
    lemma_sentence_spans_from_bounds(p, 0, 0);
}

proof fn lemma_skip_white_bounds(p: Seq<char>, i: int)
    requires
        0 <= i <= p.len(),
    ensures
        i <= skip_white(p, i) <= p.len(),
    decreases p.len() - i,
{
    if i < p.len() && unicode_white_space(p[i]) {
        lemma_skip_white_bounds(p, i + 1);
    }
}

proof fn lemma_sentence_spans_from_bounds(p: Seq<char>, i: int, start: int)
    requires
        0 <= i <= p.len(),
        0 <= start <= p.len(),
        start <= i || (forall|k: int| i <= k < start ==> unicode_white_space(#[trigger] p[k])),
    ensures
        forall|k: int|
            0 <= k < sentence_spans_from(p, i, start).len() ==> 0 <= (
            #[trigger] sentence_spans_from(p, i, start)[k]).0 <= sentence_spans_from(
                p,
                i,
                start,
            )[k].1 <= p.len(),
    decreases p.len() - i,
{
    if i >= p.len() {
    } else if is_sentence_end(p[i]) && (i + 1 == p.len() || unicode_white_space(p[i + 1])) {
        lemma_skip_white_bounds(p, i + 1);
        lemma_skip_white_ws(p, i + 1);
        lemma_sentence_spans_from_bounds(p, i + 1, skip_white(p, i + 1));
        if start > i {
            assert(unicode_white_space(p[i]));
        }
        let head = if !all_white(p.subrange(start, i + 1)) {
            seq![(start, i + 1)]
        } else {
            seq![]
        };
        let rest = sentence_spans_from(p, i + 1, skip_white(p, i + 1));
        assert(sentence_spans_from(p, i, start) == head + rest);
        assert forall|k: int| 0 <= k < (head + rest).len() implies 0 <= (#[trigger] (head
            + rest)[k]).0 <= (head + rest)[k].1 <= p.len() by {
            if k >= head.len() {
                assert((head + rest)[k] == rest[k - head.len()]);
            }
        }
    } else {
        lemma_sentence_spans_from_bounds(p, i + 1, start);
        assert(sentence_spans_from(p, i, start) == sentence_spans_from(p, i + 1, start));
    }
}

proof fn lemma_skip_white_ws(p: Seq<char>, i: int)
    requires
        0 <= i <= p.len(),
    ensures
        forall|k: int| i <= k < skip_white(p, i) ==> unicode_white_space(#[trigger] p[k]),
    decreases p.len() - i,
{
    if i < p.len() && unicode_white_space(p[i]) {
        lemma_skip_white_ws(p, i + 1);
    }
}

/// Split text into chunks: paragraphs separated by `"\n\n"`, with paragraphs
/// over `MAX_CHUNK_SIZE` bytes split into sentences. Positions are byte offsets.
pub fn chunk_text(text: &str) -> (chunks: Vec<Chunk>)
    ensures
        chunks@ == spec_chunk_text(text@),
        byte_len(text@) <= i64::MAX ==> chunks_in_order(chunks@),
{
    let chars = str_chars(text);
    let bytes = text.as_bytes();
    let blen = bytes.len();
    assert(blen == bytes@.len());
    let ghost s = chars@;
    let n = chars.len();
    let offs = byte_offsets(&chars);
    let mut chunks: Vec<Chunk> = Vec::new();
    let mut i: usize = 0;
    let mut start: usize = 0;
    let ghost mut parts: Seq<(int, int)> = seq![];
    while n > 0 && i < n - 1
        invariant
            s == chars@,
            n == s.len(),
            bytes@ == encode_utf8(s),
            offs@.len() == s.len() + 1,
            forall|k: int| 0 <= k <= s.len() ==> offs@[k] == byte_offset(s, k),
            start <= i <= n,
            paragraph_spans_from(s, 0, 0) == parts + paragraph_spans_from(s, i as int, start as int),
            chunks@ == chunk_spans_of(s, parts).map_values(|sp: (int, int)| chunk_of(s, sp)),
        decreases n - i,
    {
        if chars[i] == '\n' && chars[i + 1] == '\n' {
            push_part_chunks(&mut chunks, &chars, &offs, bytes, start, i);
            proof {
                let np = parts.push((start as int, i as int));
                assert(np.drop_last() =~= parts);
                assert(chunk_spans_of(s, np) == chunk_spans_of(s, parts) + part_chunk_spans(
                    s,
                    start as int,
                    i as int,
                ));
                assert(chunks@ =~= chunk_spans_of(s, np).map_values(
                    |sp: (int, int)| chunk_of(s, sp),
                ));
                assert(parts + paragraph_spans_from(s, i as int, start as int) =~= np
                    + paragraph_spans_from(s, i + 2, i + 2));
                parts = np;
            }
            i = i + 2;
            start = i;
        } else {
            i = i + 1;
        }
    }
    push_part_chunks(&mut chunks, &chars, &offs, bytes, start, n);
    proof {
        let np = parts.push((start as int, n as int));
        assert(np.drop_last() =~= parts);
        assert(paragraph_spans_from(s, i as int, start as int) == seq![(start as int, n as int)]);
        assert(parts + seq![(start as int, n as int)] =~= np);
        assert(chunks@ =~= chunk_spans_of(s, np).map_values(|sp: (int, int)| chunk_of(s, sp)));
        lemma_chunks_well_formed(s);
        lemma_chunks_ordered(s);
        assert(chunks@ == spec_chunk_text(s));
        if byte_len(s) <= i64::MAX {
            let cs = chunks@;
            assert forall|k: int| 0 <= k < cs.len() implies (#[trigger] cs[k]).start <= cs[k].end <= i64::MAX by {
                assert(cs[k] == spec_chunk_text(s)[k]);
            }
            assert forall|a: int, b: int| 0 <= a < b < cs.len() implies (#[trigger] cs[a]).end <= (
            #[trigger] cs[b]).start by {
                assert(cs[a] == spec_chunk_text(s)[a] && cs[b] == spec_chunk_text(s)[b]);
            }
        }
    }
    chunks
}


// =============================================================================
// Chunk alignment specification
// =============================================================================

/// Chunks are compared by content hash and byte length.
pub open spec fn chunk_key(c: Chunk) -> (u64, int) {
    (c.hash, c.end - c.start)
}

/// Number of chunks of `cs` with key `k`.
pub open spec fn key_count(cs: Seq<Chunk>, k: (u64, int)) -> nat
    decreases cs.len(),
{
    if cs.len() == 0 {
        0
    } else {
        key_count(cs.drop_last(), k) + if chunk_key(cs.last()) == k {
            1nat
        } else {
            0nat
        }
    }
}

/// Index of the `c`-th (0-based) chunk with key `k` in `cs`, searching from `i`.
pub open spec fn nth_with_key(cs: Seq<Chunk>, k: (u64, int), c: nat, i: int) -> Option<int>
    decreases cs.len() - i,
{
    if i < 0 || i >= cs.len() {
        None
    } else if chunk_key(cs[i]) == k {
        if c == 0 {
            Some(i)
        } else {
            nth_with_key(cs, k, (c - 1) as nat, i + 1)
        }
    } else {
        nth_with_key(cs, k, c, i + 1)
    }
}

/// The old chunk matched to new chunk `j`: chunks with equal keys are paired
/// in order, so the n-th new chunk with a key takes the n-th old chunk with it.
pub open spec fn aligned_index(old: Seq<Chunk>, new: Seq<Chunk>, j: int) -> Option<int> {
    nth_with_key(old, chunk_key(new[j]), key_count(new.take(j), chunk_key(new[j])), 0)
}

pub open spec fn alignment(old: Seq<Chunk>, new: Seq<Chunk>) -> Seq<Option<int>> {
    Seq::new(new.len(), |j: int| aligned_index(old, new, j))
}

/// `(new index, old index)` for every matched position, in order.
pub open spec fn matched_pairs(ms: Seq<Option<int>>) -> Seq<(int, int)>
    decreases ms.len(),
{
    if ms.len() == 0 {
        seq![]
    } else {
        let r = matched_pairs(ms.drop_last());
        match ms.last() {
            Some(o) => r.push(((ms.len() - 1) as int, o)),
            None => r,
        }
    }
}

// =============================================================================
// Longest increasing subsequence specification
// =============================================================================

/// Length of the longest chain of pairs ending at `i` whose second
/// components strictly increase (the quadratic dynamic program).
pub open spec fn lis_dp(v: Seq<(int, int)>, i: int) -> nat
    decreases i, 1int, 0int,
{
    1 + lis_best(v, i, i)
}

/// Best chain length over predecessors `k < j` of `i`.
pub open spec fn lis_best(v: Seq<(int, int)>, i: int, j: int) -> nat
    decreases i, 0int, j,
{
    if j <= 0 || j > i {
        0
    } else {
        let b = lis_best(v, i, j - 1);
        if v[j - 1].1 < v[i].1 && lis_dp(v, j - 1) > b {
            lis_dp(v, j - 1)
        } else {
            b
        }
    }
}

/// The predecessor the dynamic program records for `i` after looking at `k < j`
/// (the first predecessor reaching the best length).
pub open spec fn lis_prev(v: Seq<(int, int)>, i: int, j: int) -> Option<int>
    decreases j,
{
    if j <= 0 || j > i {
        None
    } else if v[j - 1].1 < v[i].1 && lis_dp(v, j - 1) > lis_best(v, i, j - 1) {
        Some(j - 1)
    } else {
        lis_prev(v, i, j - 1)
    }
}

/// The chain ending at `i`, as the first components of its pairs.
pub open spec fn lis_chain(v: Seq<(int, int)>, i: int) -> Seq<int>
    decreases i,
{
    if i < 0 {
        seq![]
    } else {
        match lis_prev(v, i, i) {
            Some(j) => if 0 <= j < i {
                lis_chain(v, j).push(v[i].0)
            } else {
                seq![v[i].0]
            },
            None => seq![v[i].0],
        }
    }
}

/// Last index among the first `k` with the greatest chain length.
pub open spec fn lis_argmax(v: Seq<(int, int)>, k: int) -> int
    decreases k,
{
    if k <= 1 {
        0
    } else {
        let a = lis_argmax(v, k - 1);
        if lis_dp(v, k - 1) >= lis_dp(v, a) {
            k - 1
        } else {
            a
        }
    }
}

/// The longest increasing subsequence the alignment keeps (first components).
pub open spec fn spec_lis(v: Seq<(int, int)>) -> Seq<int> {
    if v.len() == 0 {
        seq![]
    } else {
        lis_chain(v, lis_argmax(v, v.len() as int))
    }
}


pub open spec fn opt_ints(ms: Seq<Option<usize>>) -> Seq<Option<int>> {
    ms.map_values(
        |o: Option<usize>|
            match o {
                Some(x) => Some(x as int),
                None => None,
            },
    )
}

pub open spec fn pair_ints(v: Seq<(usize, usize)>) -> Seq<(int, int)> {
    v.map_values(|p: (usize, usize)| (p.0 as int, p.1 as int))
}

pub open spec fn usize_ints(v: Seq<usize>) -> Seq<int> {
    v.map_values(|x: usize| x as int)
}

proof fn lemma_lis_prev_bound(v: Seq<(int, int)>, i: int, j: int)
    ensures
        lis_prev(v, i, j) matches Some(k) ==> 0 <= k < j && k < i,
    decreases j,
{
    if j <= 0 || j > i {
    } else if v[j - 1].1 < v[i].1 && lis_dp(v, j - 1) > lis_best(v, i, j - 1) {
    } else {
        lis_prev_bound_step(v, i, j);
    }
}

proof fn lis_prev_bound_step(v: Seq<(int, int)>, i: int, j: int)
    requires
        0 < j <= i,
        !(v[j - 1].1 < v[i].1 && lis_dp(v, j - 1) > lis_best(v, i, j - 1)),
    ensures
        lis_prev(v, i, j) matches Some(k) ==> 0 <= k < j && k < i,
    decreases j, 0int,
{
    lemma_lis_prev_bound(v, i, j - 1);
}

/// `c` lists positions of `v` in increasing order whose second components
/// strictly increase.
pub open spec fn is_increasing_chain(v: Seq<(int, int)>, c: Seq<int>) -> bool {
    &&& forall|k: int| 0 <= k < c.len() ==> 0 <= #[trigger] c[k] < v.len()
    &&& forall|a: int, b: int|
        0 <= a < b < c.len() ==> #[trigger] c[a] < #[trigger] c[b] && v[c[a]].1 < v[c[b]].1
}

/// The first components of the pairs at positions `c`.
pub open spec fn chain_firsts(v: Seq<(int, int)>, c: Seq<int>) -> Seq<int> {
    Seq::new(c.len(), |k: int| v[c[k]].0)
}

proof fn lemma_best_ge(v: Seq<(int, int)>, i: int, m: int, j: int)
    requires
        0 <= j < m <= i,
        v[j].1 < v[i].1,
    ensures
        lis_best(v, i, m) >= lis_dp(v, j),
    decreases m,
{
    if m - 1 > j {
        lemma_best_ge(v, i, m - 1, j);
    }
}

/// Every increasing chain ending at `i` is at most as long as the dynamic
/// program's value at `i`.
proof fn lemma_dp_bounds_chains(v: Seq<(int, int)>, c: Seq<int>)
    requires
        c.len() > 0,
        is_increasing_chain(v, c),
    ensures
        lis_dp(v, c.last()) >= c.len(),
    decreases c.len(),
{
    if c.len() > 1 {
        let d = c.drop_last();
        assert(is_increasing_chain(v, d)) by {
            assert forall|a: int, b: int| 0 <= a < b < d.len() implies #[trigger] d[a] < #[trigger] d[b]
                && v[d[a]].1 < v[d[b]].1 by {
                assert(d[a] == c[a] && d[b] == c[b]);
            }
        }
        lemma_dp_bounds_chains(v, d);
        let j = c[c.len() - 2];
        let i = c.last();
        assert(c[c.len() - 2] < c[c.len() - 1] && v[c[c.len() - 2]].1 < v[c[c.len() - 1]].1);
        lemma_best_ge(v, i, i, j);
    }
}

proof fn lemma_prev_facts(v: Seq<(int, int)>, i: int, j: int)
    requires
        0 <= i < v.len(),
        j <= i,
    ensures
        lis_prev(v, i, j) matches Some(p) ==> 0 <= p < j && v[p].1 < v[i].1 && lis_dp(v, p)
            == lis_best(v, i, j),
        lis_prev(v, i, j) is None ==> lis_best(v, i, j) == 0,
    decreases j,
{
    if j > 0 {
        lemma_prev_facts(v, i, j - 1);
    }
}

/// The chain the dynamic program records for `i`: an increasing chain ending
/// at `i`, as long as the program's value, whose first components are
/// `lis_chain(v, i)`.
proof fn lemma_chain_witness(v: Seq<(int, int)>, i: int) -> (c: Seq<int>)
    requires
        0 <= i < v.len(),
    ensures
        is_increasing_chain(v, c),
        c.len() == lis_dp(v, i),
        c.len() > 0 && c.last() == i,
        chain_firsts(v, c) == lis_chain(v, i),
    decreases i,
{
    lemma_prev_facts(v, i, i);
    match lis_prev(v, i, i) {
        Some(p) => {
            let d = lemma_chain_witness(v, p);
            let c = d.push(i);
            assert(is_increasing_chain(v, c)) by {
                assert forall|a: int, b: int| 0 <= a < b < c.len() implies #[trigger] c[a]
                    < #[trigger] c[b] && v[c[a]].1 < v[c[b]].1 by {
                    if b < d.len() {
                        assert(c[a] == d[a] && c[b] == d[b]);
                    } else if a < d.len() - 1 {
                        assert(d[a] < d[d.len() - 1] && v[d[a]].1 < v[d[d.len() - 1]].1);
                    }
                }
            }
            assert(chain_firsts(v, c) =~= chain_firsts(v, d).push(v[i].0));
            c
        },
        None => {
            let c = seq![i];
            assert(chain_firsts(v, c) =~= seq![v[i].0]);
            c
        },
    }
}

proof fn lemma_argmax(v: Seq<(int, int)>, k: int, t: int)
    requires
        0 <= t < k <= v.len(),
    ensures
        0 <= lis_argmax(v, k) < k,
        lis_dp(v, lis_argmax(v, k)) >= lis_dp(v, t),
    decreases k,
{
    if k > 1 {
        if t < k - 1 {
            lemma_argmax(v, k - 1, t);
        } else {
            if k - 1 > 0 {
                lemma_argmax(v, k - 1, 0);
            }
        }
    }
}

/// The kept subsequence is an increasing chain of the matched pairs, and no
/// increasing chain is longer: it is a longest order-preserving alignment.
pub proof fn law_lis_is_longest(v: Seq<(int, int)>, c: Seq<int>)
    requires
        is_increasing_chain(v, c),
    ensures
        exists|w: Seq<int>| is_increasing_chain(v, w) && chain_firsts(v, w) == spec_lis(v),
        c.len() <= spec_lis(v).len(),
{
    if v.len() == 0 {
        let w: Seq<int> = seq![];
        assert(chain_firsts(v, w) =~= spec_lis(v));
        assert(is_increasing_chain(v, w));
        if c.len() > 0 {
            assert(0 <= c[0] < v.len());
        }
    } else {
        let m = lis_argmax(v, v.len() as int);
        lemma_argmax(v, v.len() as int, 0);
        let w = lemma_chain_witness(v, m);
        assert(spec_lis(v).len() == w.len());
        if c.len() > 0 {
            lemma_dp_bounds_chains(v, c);
            lemma_argmax(v, v.len() as int, c.last());
        }
    }
}

/// Indices (first components) of the longest subsequence of matched pairs whose
/// old indices strictly increase: the chunks that kept their relative order.
pub fn longest_increasing_subsequence(matches: &Vec<Option<usize>>) -> (path: Vec<usize>)
    ensures
        usize_ints(path@) == spec_lis(matched_pairs(opt_ints(matches@))),
{
    let ghost ms = opt_ints(matches@);
    let mut valid: Vec<(usize, usize)> = Vec::new();
    let mut k: usize = 0;
    while k < matches.len()
        invariant
            k <= matches@.len(),
            ms == opt_ints(matches@),
            pair_ints(valid@) == matched_pairs(ms.take(k as int)),
            forall|t: int| 0 <= t < valid@.len() ==> (#[trigger] valid@[t]).0 < k,
        decreases matches@.len() - k,
    {
        assert(ms.take(k + 1).drop_last() =~= ms.take(k as int));
        match matches[k] {
            Some(o) => {
                valid.push((k, o));
                assert(pair_ints(valid@) =~= matched_pairs(ms.take(k as int)).push((k as int, o as int)));
            },
            None => {},
        }
        k = k + 1;
    }
    assert(ms.take(matches@.len() as int) =~= ms);
    let ghost v = pair_ints(valid@);
    let n = valid.len();
    if n == 0 {
        let empty: Vec<usize> = Vec::new();
        assert(usize_ints(empty@) =~= Seq::<int>::empty());
        return empty;
    }
    let mut dp: Vec<usize> = Vec::new();
    let mut prev: Vec<Option<usize>> = Vec::new();
    let mut t: usize = 0;
    while t < n
        invariant
            t <= n,
            n == valid@.len(),
            dp@.len() == t,
            prev@.len() == t,
            forall|q: int| 0 <= q < t ==> dp@[q] == 1 && prev@[q] == None::<usize>,
        decreases n - t,
    {
        dp.push(1);
        prev.push(None);
        t = t + 1;
    }
    let mut i: usize = 1;
    while i < n
        invariant
            1 <= i <= n,
            n == valid@.len(),
            v == pair_ints(valid@),
            dp@.len() == n,
            prev@.len() == n,
            forall|q: int| 0 <= q < i ==> #[trigger] dp@[q] == lis_dp(v, q),
            forall|q: int| 0 <= q < i ==> opt_ints(prev@)[q] == lis_prev(v, q, q),
            forall|q: int| 0 <= q < n ==> #[trigger] dp@[q] <= q + 1,
            forall|q: int| i <= q < n ==> dp@[q] == 1 && prev@[q] == None::<usize>,
        decreases n - i,
    {
        let mut j: usize = 0;
        while j < i
            invariant
                1 <= i < n,
                j <= i,
                n == valid@.len(),
                v == pair_ints(valid@),
                dp@.len() == n,
                prev@.len() == n,
                forall|q: int| 0 <= q < i ==> #[trigger] dp@[q] == lis_dp(v, q),
                forall|q: int| 0 <= q < i ==> opt_ints(prev@)[q] == lis_prev(v, q, q),
                forall|q: int| 0 <= q < n ==> #[trigger] dp@[q] <= q + 1,
                forall|q: int| i < q < n ==> dp@[q] == 1 && prev@[q] == None::<usize>,
                dp@[i as int] == 1 + lis_best(v, i as int, j as int),
                opt_ints(prev@)[i as int] == lis_prev(v, i as int, j as int),
            decreases i - j,
        {
            assert(dp@[j as int] == lis_dp(v, j as int));
            if valid[j].1 < valid[i].1 && dp[j] + 1 > dp[i] {
                let nv = dp[j] + 1;
                dp.set(i, nv);
                prev.set(i, Some(j));
            }
            assert(opt_ints(prev@)[i as int] == lis_prev(v, i as int, j + 1));
            j = j + 1;
        }
        i = i + 1;
    }
    let mut max_idx: usize = 0;
    let mut q: usize = 1;
    while q < n
        invariant
            1 <= q <= n,
            n == valid@.len(),
            v == pair_ints(valid@),
            dp@.len() == n,
            forall|r: int| 0 <= r < n ==> #[trigger] dp@[r] == lis_dp(v, r),
            max_idx < q,
            max_idx == lis_argmax(v, q as int),
        decreases n - q,
    {
        if dp[q] >= dp[max_idx] {
            max_idx = q;
        }
        q = q + 1;
    }
    // Follow predecessors from the end of the longest chain.
    let mut rpath: Vec<usize> = Vec::new();
    let ghost mut tail: Seq<int> = seq![];
    let mut cur: usize = max_idx;
    loop
        invariant_except_break
            spec_lis(v) == lis_chain(v, cur as int) + tail,
        invariant
            n == valid@.len(),
            v == pair_ints(valid@),
            prev@.len() == n,
            forall|r: int| 0 <= r < n ==> opt_ints(prev@)[r] == lis_prev(v, r, r),
            cur < n,
            rpath@.len() == tail.len(),
            forall|r: int| 0 <= r < tail.len() ==> rpath@[r] as int == tail[tail.len() - 1 - r],
        ensures
            spec_lis(v) == tail,
            rpath@.len() == tail.len(),
            forall|r: int| 0 <= r < tail.len() ==> rpath@[r] as int == tail[tail.len() - 1 - r],
        decreases cur,
    {
        let x = valid[cur].0;
        proof {
            lemma_lis_prev_bound(v, cur as int, cur as int);
        }
        let ghost old_tail = tail;
        rpath.push(x);
        proof {
            tail = seq![x as int] + old_tail;
        }
        match prev[cur] {
            Some(pj) => {
                assert(opt_ints(prev@)[cur as int] == Some(pj as int));
                assert(lis_chain(v, cur as int) == lis_chain(v, pj as int).push(v[cur as int].0));
                assert(lis_chain(v, pj as int).push(x as int) + old_tail =~= lis_chain(v, pj as int) + tail);
                cur = pj;
            },
            None => {
                assert(lis_chain(v, cur as int) == seq![v[cur as int].0]);
                assert(seq![x as int] + old_tail =~= tail);
                break;
            },
        }
    }
    let mut path: Vec<usize> = Vec::new();
    let len = rpath.len();
    let mut r: usize = 0;
    while r < len
        invariant
            r <= len,
            len == rpath@.len(),
            rpath@.len() == tail.len(),
            forall|z: int| 0 <= z < tail.len() ==> rpath@[z] as int == tail[tail.len() - 1 - z],
            usize_ints(path@) == tail.take(r as int),
        decreases len - r,
    {
        let x = rpath[len - 1 - r];
        assert(x as int == tail[r as int]);
        let ghost old_path = path@;
        path.push(x);
        assert(usize_ints(path@) =~= usize_ints(old_path).push(x as int));
        assert(tail.take(r + 1) =~= tail.take(r as int).push(tail[r as int]));
        r = r + 1;
    }
    assert(tail.take(len as int) =~= tail);
    path
}


// =============================================================================
// Chunk span facts
// =============================================================================

pub open spec fn spans_within(v: Seq<(int, int)>, lo: int, hi: int) -> bool {
    forall|k: int| 0 <= k < v.len() ==> lo <= (#[trigger] v[k]).0 <= v[k].1 <= hi
}

proof fn lemma_paragraph_spans_within(s: Seq<char>, i: int, start: int)
    requires
        0 <= start <= i <= s.len(),
    ensures
        spans_within(paragraph_spans_from(s, i, start), 0, s.len() as int),
    decreases s.len() - i,
{
    if i + 1 >= s.len() {
    } else if s[i] == '\n' && s[i + 1] == '\n' {
        lemma_paragraph_spans_within(s, i + 2, i + 2);
        let rest = paragraph_spans_from(s, i + 2, i + 2);
        assert forall|k: int| 0 <= k < (seq![(start, i)] + rest).len() implies 0 <= (
        #[trigger] (seq![(start, i)] + rest)[k]).0 <= (seq![(start, i)] + rest)[k].1 <= s.len() by {
            if k > 0 {
                assert((seq![(start, i)] + rest)[k] == rest[k - 1]);
            }
        }
    } else {
        lemma_paragraph_spans_within(s, i + 1, start);
    }
}

proof fn lemma_part_spans_within(s: Seq<char>, a: int, b: int)
    requires
        0 <= a <= b <= s.len(),
    ensures
        spans_within(part_chunk_spans(s, a, b), a, b),
{
    if a == b {
    } else if byte_len(s.subrange(a, b)) <= MAX_CHUNK_SIZE {
    } else {
        let p = s.subrange(a, b);
        assert forall|k: int| 0 <= k < part_chunk_spans(s, a, b).len() implies a <= (
        #[trigger] part_chunk_spans(s, a, b)[k]).0 <= part_chunk_spans(s, a, b)[k].1 <= b by {
            split_sentence_bounds(p, k);
        }
    }
}

proof fn lemma_chunk_spans_of_within(s: Seq<char>, parts: Seq<(int, int)>)
    requires
        spans_within(parts, 0, s.len() as int),
    ensures
        spans_within(chunk_spans_of(s, parts), 0, s.len() as int),
    decreases parts.len(),
{
    if parts.len() > 0 {
        let init = parts.drop_last();
        assert(spans_within(init, 0, s.len() as int)) by {
            assert forall|k: int| 0 <= k < init.len() implies 0 <= (#[trigger] init[k]).0
                <= init[k].1 <= s.len() by {
                assert(init[k] == parts[k]);
            }
        }
        lemma_chunk_spans_of_within(s, init);
        let last = parts.last();
        assert(parts[parts.len() - 1] == last);
        lemma_part_spans_within(s, last.0, last.1);
        let a = chunk_spans_of(s, init);
        let b = part_chunk_spans(s, last.0, last.1);
        assert forall|k: int| 0 <= k < (a + b).len() implies 0 <= (#[trigger] (a + b)[k]).0 <= (a
            + b)[k].1 <= s.len() by {
            if k >= a.len() {
                assert((a + b)[k] == b[k - a.len()]);
            }
        }
    }
}

/// Every chunk span lies within the text.
pub proof fn lemma_chunk_spans_within(s: Seq<char>)
    ensures
        spans_within(chunk_spans(s), 0, s.len() as int),
{
    lemma_paragraph_spans_within(s, 0, 0);
    lemma_chunk_spans_of_within(s, paragraph_spans_from(s, 0, 0));
}

/// Every chunk of a text covers a valid byte range of it.
pub proof fn lemma_chunks_well_formed(s: Seq<char>)
    requires
        byte_len(s) <= usize::MAX,
    ensures
        forall|k: int|
            0 <= k < spec_chunk_text(s).len() ==> (#[trigger] spec_chunk_text(s)[k]).start
                <= spec_chunk_text(s)[k].end <= byte_len(s),
{
    lemma_chunk_spans_within(s);
    assert forall|k: int| 0 <= k < spec_chunk_text(s).len() implies (
    #[trigger] spec_chunk_text(s)[k]).start <= spec_chunk_text(s)[k].end <= byte_len(s) by {
        let sp = chunk_spans(s)[k];
        assert(spec_chunk_text(s)[k] == chunk_of(s, sp));
        crate::text::lemma_byte_offset_mono(s, sp.0, sp.1);
        crate::text::lemma_byte_offset_mono(s, sp.1, s.len() as int);
    }
}


/// Every span is non-empty.
pub open spec fn spans_nonempty(v: Seq<(int, int)>) -> bool {
    forall|k: int| 0 <= k < v.len() ==> (#[trigger] v[k]).0 < v[k].1
}

proof fn lemma_sentence_spans_from_nonempty(p: Seq<char>, i: int, start: int)
    requires
        0 <= i <= p.len(),
        0 <= start <= p.len(),
        start <= i || (forall|k: int| i <= k < start ==> unicode_white_space(#[trigger] p[k])),
    ensures
        spans_nonempty(sentence_spans_from(p, i, start)),
    decreases p.len() - i,
{
    if i >= p.len() {
        if start < p.len() && !all_white(p.subrange(start, p.len() as int)) {
        }
    } else if is_sentence_end(p[i]) && (i + 1 == p.len() || unicode_white_space(p[i + 1])) {
        lemma_skip_white_bounds(p, i + 1);
        lemma_skip_white_ws(p, i + 1);
        lemma_sentence_spans_from_nonempty(p, i + 1, skip_white(p, i + 1));
        if start > i {
            assert(unicode_white_space(p[i]));
        }
        let head = if !all_white(p.subrange(start, i + 1)) {
            seq![(start, i + 1)]
        } else {
            seq![]
        };
        let rest = sentence_spans_from(p, i + 1, skip_white(p, i + 1));
        assert(sentence_spans_from(p, i, start) == head + rest);
        assert forall|k: int| 0 <= k < (head + rest).len() implies (#[trigger] (head + rest)[k]).0 < (head
            + rest)[k].1 by {
            if k >= head.len() {
                assert((head + rest)[k] == rest[k - head.len()]);
            }
        }
    } else {
        lemma_sentence_spans_from_nonempty(p, i + 1, start);
        assert(sentence_spans_from(p, i, start) == sentence_spans_from(p, i + 1, start));
    }
}

proof fn lemma_chunk_spans_of_nonempty(s: Seq<char>, parts: Seq<(int, int)>)
    requires
        spans_within(parts, 0, s.len() as int),
    ensures
        spans_nonempty(chunk_spans_of(s, parts)),
    decreases parts.len(),
{
    if parts.len() > 0 {
        let init = parts.drop_last();
        assert forall|k: int| 0 <= k < init.len() implies 0 <= (#[trigger] init[k]).0 <= init[k].1
            <= s.len() by {
            assert(init[k] == parts[k]);
        }
        lemma_chunk_spans_of_nonempty(s, init);
        let last = parts.last();
        assert(parts[parts.len() - 1] == last);
        let a = chunk_spans_of(s, init);
        let b = part_chunk_spans(s, last.0, last.1);
        if last.0 != last.1 && byte_len(s.subrange(last.0, last.1)) > MAX_CHUNK_SIZE {
            let q = s.subrange(last.0, last.1);
            lemma_sentence_spans_from_nonempty(q, 0, 0);
            let v = sentence_spans(q);
            assert(spans_nonempty(v));
            assert forall|k: int| 0 <= k < b.len() implies (#[trigger] b[k]).0 < b[k].1 by {
                assert(b[k] == (v[k].0 + last.0, v[k].1 + last.0));
            }
        }
        assert forall|k: int| 0 <= k < (a + b).len() implies (#[trigger] (a + b)[k]).0 < (a + b)[k].1 by {
            if k >= a.len() {
                assert((a + b)[k] == b[k - a.len()]);
            } else {
                assert((a + b)[k] == a[k]);
            }
        }
    }
}

proof fn lemma_part_in_chunks(s: Seq<char>, parts: Seq<(int, int)>, j: int)
    requires
        0 <= j < parts.len(),
        parts[j].0 < parts[j].1,
        byte_len(s.subrange(parts[j].0, parts[j].1)) <= MAX_CHUNK_SIZE,
    ensures
        chunk_spans_of(s, parts).contains(parts[j]),
    decreases parts.len(),
{
    let init = parts.drop_last();
    let a = chunk_spans_of(s, init);
    let b = part_chunk_spans(s, parts.last().0, parts.last().1);
    assert(chunk_spans_of(s, parts) == a + b);
    if j < init.len() {
        assert(init[j] == parts[j]);
        lemma_part_in_chunks(s, init, j);
        let k = choose|k: int| 0 <= k < a.len() && a[k] == parts[j];
        assert((a + b)[k] == a[k]);
    } else {
        assert(parts.last() == parts[j]);
        assert(b == seq![parts[j]]);
        assert((a + b)[a.len() as int] == parts[j]);
    }
}

/// A non-empty paragraph (a piece between blank-line separators) of at most
/// `MAX_CHUNK_SIZE` bytes is one chunk, exactly its text.
pub proof fn law_short_paragraph_one_chunk(s: Seq<char>, j: int)
    requires
        0 <= j < paragraph_spans_from(s, 0, 0).len(),
        paragraph_spans_from(s, 0, 0)[j].0 < paragraph_spans_from(s, 0, 0)[j].1,
        byte_len(s.subrange(paragraph_spans_from(s, 0, 0)[j].0, paragraph_spans_from(s, 0, 0)[j].1))
            <= MAX_CHUNK_SIZE,
    ensures
        chunk_spans(s).contains(paragraph_spans_from(s, 0, 0)[j]),
        spec_chunk_text(s).contains(chunk_of(s, paragraph_spans_from(s, 0, 0)[j])),
{
    let parts = paragraph_spans_from(s, 0, 0);
    lemma_part_in_chunks(s, parts, j);
    let v = chunk_spans(s);
    let k = choose|k: int| 0 <= k < v.len() && v[k] == parts[j];
    assert(spec_chunk_text(s)[k] == chunk_of(s, v[k]));
}

/// Every chunk of a text is non-empty; an empty text has no chunk.
pub proof fn lemma_chunks_nonempty(s: Seq<char>)
    requires
        byte_len(s) <= usize::MAX,
    ensures
        forall|k: int| 0 <= k < spec_chunk_text(s).len() ==> (#[trigger] spec_chunk_text(s)[k]).start
            < spec_chunk_text(s)[k].end,
        s.len() == 0 ==> spec_chunk_text(s).len() == 0,
{
    lemma_paragraph_spans_within(s, 0, 0);
    lemma_chunk_spans_of_nonempty(s, paragraph_spans_from(s, 0, 0));
    lemma_chunk_spans_within(s);
    let v = chunk_spans(s);
    assert forall|k: int| 0 <= k < spec_chunk_text(s).len() implies (#[trigger] spec_chunk_text(s)[k]).start
        < spec_chunk_text(s)[k].end by {
        assert(spec_chunk_text(s)[k] == chunk_of(s, v[k]));
        crate::text::lemma_byte_offset_step(s, v[k].0);
        crate::text::lemma_byte_offset_mono(s, v[k].0 + 1, v[k].1);
        crate::text::lemma_byte_offset_mono(s, v[k].1, s.len() as int);
        assert(s.take(s.len() as int) =~= s);
    }
    if s.len() == 0 {
        assert(paragraph_spans_from(s, 0, 0) == seq![(0int, 0int)]);
        let ps = paragraph_spans_from(s, 0, 0);
        assert(ps.drop_last() =~= Seq::<(int, int)>::empty());
        assert(ps.last() == (0int, 0int));
        assert(chunk_spans_of(s, ps.drop_last()) == Seq::<(int, int)>::empty());
        assert(part_chunk_spans(s, 0, 0) == Seq::<(int, int)>::empty());
        assert(chunk_spans_of(s, ps) =~= Seq::<(int, int)>::empty());
    }
}

/// Spans in order, each ending no later than the next begins.
pub open spec fn spans_ordered(v: Seq<(int, int)>) -> bool {
    forall|a: int, b: int| 0 <= a < b < v.len() ==> (#[trigger] v[a]).1 <= (#[trigger] v[b]).0
}

proof fn lemma_concat_ordered(a: Seq<(int, int)>, b: Seq<(int, int)>, mid: int)
    requires
        spans_ordered(a),
        spans_ordered(b),
        forall|k: int| 0 <= k < a.len() ==> (#[trigger] a[k]).1 <= mid,
        forall|k: int| 0 <= k < b.len() ==> mid <= (#[trigger] b[k]).0,
    ensures
        spans_ordered(a + b),
{
    assert forall|x: int, y: int| 0 <= x < y < (a + b).len() implies (#[trigger] (a + b)[x]).1 <= (
    #[trigger] (a + b)[y]).0 by {
        if y < a.len() {
            assert((a + b)[x] == a[x] && (a + b)[y] == a[y]);
        } else if x >= a.len() {
            assert((a + b)[x] == b[x - a.len()] && (a + b)[y] == b[y - a.len()]);
        } else {
            assert((a + b)[x] == a[x] && (a + b)[y] == b[y - a.len()]);
        }
    }
}

proof fn lemma_sentence_spans_from_ordered(p: Seq<char>, i: int, start: int)
    requires
        0 <= i <= p.len(),
        0 <= start <= p.len(),
        start <= i || (forall|k: int| i <= k < start ==> unicode_white_space(#[trigger] p[k])),
    ensures
        spans_ordered(sentence_spans_from(p, i, start)),
        forall|k: int|
            0 <= k < sentence_spans_from(p, i, start).len() ==> (if start <= i {
                start
            } else {
                i
            }) <= (#[trigger] sentence_spans_from(p, i, start)[k]).0,
    decreases p.len() - i,
{
    if i >= p.len() {
    } else if is_sentence_end(p[i]) && (i + 1 == p.len() || unicode_white_space(p[i + 1])) {
        lemma_skip_white_bounds(p, i + 1);
        lemma_skip_white_ws(p, i + 1);
        lemma_sentence_spans_from_ordered(p, i + 1, skip_white(p, i + 1));
        if start > i {
            assert(unicode_white_space(p[i]));
        }
        let head = if !all_white(p.subrange(start, i + 1)) {
            seq![(start, i + 1)]
        } else {
            seq![]
        };
        let rest = sentence_spans_from(p, i + 1, skip_white(p, i + 1));
        assert(sentence_spans_from(p, i, start) == head + rest);
        lemma_concat_ordered(head, rest, i + 1);
        assert forall|k: int| 0 <= k < (head + rest).len() implies start <= (#[trigger] (head
            + rest)[k]).0 by {
            if k >= head.len() {
                assert((head + rest)[k] == rest[k - head.len()]);
            }
        }
    } else {
        lemma_sentence_spans_from_ordered(p, i + 1, start);
        assert(sentence_spans_from(p, i, start) == sentence_spans_from(p, i + 1, start));
    }
}

proof fn lemma_part_spans_ordered(s: Seq<char>, a: int, b: int)
    requires
        0 <= a <= b <= s.len(),
    ensures
        spans_ordered(part_chunk_spans(s, a, b)),
        spans_within(part_chunk_spans(s, a, b), a, b),
{
    lemma_part_spans_within(s, a, b);
    if a != b && byte_len(s.subrange(a, b)) > MAX_CHUNK_SIZE {
        let p = s.subrange(a, b);
        lemma_sentence_spans_from_ordered(p, 0, 0);
        let v = sentence_spans(p);
        assert(spans_ordered(v));
        let w = shift_spans(v, a);
        assert forall|x: int, y: int| 0 <= x < y < w.len() implies (#[trigger] w[x]).1 <= (
        #[trigger] w[y]).0 by {
            assert(v[x].1 <= v[y].0);
        }
    }
}

proof fn lemma_chunk_spans_of_ordered(s: Seq<char>, parts: Seq<(int, int)>)
    requires
        spans_within(parts, 0, s.len() as int),
        spans_ordered(parts),
    ensures
        spans_ordered(chunk_spans_of(s, parts)),
        parts.len() > 0 ==> forall|k: int|
            0 <= k < chunk_spans_of(s, parts).len() ==> (#[trigger] chunk_spans_of(s, parts)[k]).1
                <= parts.last().1,
    decreases parts.len(),
{
    if parts.len() > 0 {
        let init = parts.drop_last();
        assert forall|k: int| 0 <= k < init.len() implies 0 <= (#[trigger] init[k]).0 <= init[k].1
            <= s.len() by {
            assert(init[k] == parts[k]);
        }
        assert forall|x: int, y: int| 0 <= x < y < init.len() implies (#[trigger] init[x]).1 <= (
        #[trigger] init[y]).0 by {
            assert(init[x] == parts[x] && init[y] == parts[y]);
        }
        lemma_chunk_spans_of_ordered(s, init);
        let last = parts.last();
        assert(parts[parts.len() - 1] == last);
        lemma_part_spans_ordered(s, last.0, last.1);
        let a = chunk_spans_of(s, init);
        let b = part_chunk_spans(s, last.0, last.1);
        if init.len() > 0 {
            assert(init.last() == parts[parts.len() - 2]);
            assert(parts[parts.len() - 2].1 <= last.0);
        }
        lemma_concat_ordered(a, b, last.0);
        assert forall|k: int| 0 <= k < (a + b).len() implies (#[trigger] (a + b)[k]).1 <= last.1 by {
            if k >= a.len() {
                assert((a + b)[k] == b[k - a.len()]);
            } else {
                assert((a + b)[k] == a[k]);
                if init.len() > 0 {
                    assert(init.last().1 <= last.0);
                }
            }
        }
    }
}

proof fn lemma_paragraph_spans_ordered(s: Seq<char>, i: int, start: int)
    requires
        0 <= start <= i <= s.len(),
    ensures
        spans_ordered(paragraph_spans_from(s, i, start)),
        spans_within(paragraph_spans_from(s, i, start), start, s.len() as int),
    decreases s.len() - i,
{
    if i + 1 >= s.len() {
    } else if s[i] == '\n' && s[i + 1] == '\n' {
        lemma_paragraph_spans_ordered(s, i + 2, i + 2);
        let rest = paragraph_spans_from(s, i + 2, i + 2);
        lemma_concat_ordered(seq![(start, i)], rest, i + 2);
        assert forall|k: int| 0 <= k < (seq![(start, i)] + rest).len() implies start <= (
        #[trigger] (seq![(start, i)] + rest)[k]).0 <= (seq![(start, i)] + rest)[k].1 <= s.len() by {
            if k > 0 {
                assert((seq![(start, i)] + rest)[k] == rest[k - 1]);
            }
        }
    } else {
        lemma_paragraph_spans_ordered(s, i + 1, start);
    }
}

/// The chunks of a text come in order: each ends no later than the next
/// begins.
pub proof fn lemma_chunks_ordered(s: Seq<char>)
    requires
        byte_len(s) <= usize::MAX,
    ensures
        forall|a: int, b: int|
            0 <= a < b < spec_chunk_text(s).len() ==> (#[trigger] spec_chunk_text(s)[a]).end
                <= (#[trigger] spec_chunk_text(s)[b]).start,
{
    lemma_paragraph_spans_ordered(s, 0, 0);
    lemma_chunk_spans_of_ordered(s, paragraph_spans_from(s, 0, 0));
    lemma_chunk_spans_within(s);
    let v = chunk_spans(s);
    assert forall|a: int, b: int| 0 <= a < b < spec_chunk_text(s).len() implies (
    #[trigger] spec_chunk_text(s)[a]).end <= (#[trigger] spec_chunk_text(s)[b]).start by {
        assert(v[a].1 <= v[b].0);
        assert(spec_chunk_text(s)[a] == chunk_of(s, v[a]));
        assert(spec_chunk_text(s)[b] == chunk_of(s, v[b]));
        crate::text::lemma_byte_offset_mono(s, v[a].1, v[b].0);
        crate::text::lemma_byte_offset_mono(s, v[b].0, s.len() as int);
        crate::text::lemma_byte_offset_mono(s, v[a].1, s.len() as int);
        assert(0 <= v[a].1 && v[b].0 <= s.len());
        assert(byte_offset(s, v[a].1) <= byte_offset(s, v[b].0) <= usize::MAX);
    }
}

// =============================================================================
// Delta
// =============================================================================

/// A single change record for shift calculation
#[derive(Debug, Clone, Copy)]
pub struct Change {
    /// Original end position (for shift calculation)
    pub old_end: usize,
    /// Net shift caused by this change
    pub shift: i64,
}

impl Default for Change {
    fn default() -> (c: Self)
        ensures
            c.old_end == 0,
            c.shift == 0,
    {
        Change { old_end: 0, shift: 0 }
    }
}

/// Delta result from comparing old chunks to new text
#[derive(Debug, Clone)]
pub struct Delta {
    /// Ranges in the NEW text that need rescanning (sorted, non-overlapping)
    pub dirty_ranges: Vec<Range<usize>>,
    /// Individual change records
    pub changes: Vec<Change>,
    /// Total number of chunks in the new text
    pub total_chunks: usize,
    /// Number of dirty (unmatched) chunks
    pub dirty_chunks: usize,
}

impl Default for Delta {
    fn default() -> (d: Self)
        ensures
            d.dirty_ranges@.len() == 0,
            d.changes@.len() == 0,
            d.total_chunks == 0,
            d.dirty_chunks == 0,
    {
        Delta { dirty_ranges: Vec::new(), changes: Vec::new(), total_chunks: 0, dirty_chunks: 0 }
    }
}

pub open spec fn range_ints(v: Seq<Range<usize>>) -> Seq<(int, int)> {
    v.map_values(|r: Range<usize>| (r.start as int, r.end as int))
}

/// The mathematical content of a `Delta`.
pub struct DeltaModel {
    pub dirty_ranges: Seq<(int, int)>,
    pub changes: Seq<Change>,
    pub total_chunks: nat,
    pub dirty_chunks: nat,
}

pub open spec fn delta_model(d: Delta) -> DeltaModel {
    DeltaModel {
        dirty_ranges: range_ints(d.dirty_ranges@),
        changes: d.changes@,
        total_chunks: d.total_chunks as nat,
        dirty_chunks: d.dirty_chunks as nat,
    }
}

/// Indices in `[0, n)` that are not in `kept`, in increasing order.
pub open spec fn dirty_indices(n: int, kept: Seq<int>) -> Seq<int>
    decreases n,
{
    if n <= 0 {
        seq![]
    } else {
        let r = dirty_indices(n - 1, kept);
        if kept.contains(n - 1) {
            r
        } else {
            r.push(n - 1)
        }
    }
}

/// Range of new chunk `d` widened by one neighbouring chunk on each side
/// (from the text start when `d` is the first chunk), clipped to the text.
pub open spec fn padded_range(new: Seq<Chunk>, d: int, text_len: int) -> (int, int) {
    let ps: int = if d >= 1 {
        new[d - 1].start as int
    } else {
        0
    };
    let pe: int = if d + 1 < new.len() {
        new[d + 1].end as int
    } else {
        new[d].end as int
    };
    (ps, if pe < text_len {
        pe
    } else {
        text_len
    })
}

/// Ranges merged left to right: a range starting at or before the end of the
/// previous merged range extends it.
pub open spec fn merge_ranges(rs: Seq<(int, int)>) -> Seq<(int, int)>
    decreases rs.len(),
{
    if rs.len() == 0 {
        seq![]
    } else {
        let m = merge_ranges(rs.drop_last());
        let r = rs.last();
        if m.len() > 0 && r.0 <= m.last().1 {
            m.update(
                m.len() - 1,
                (m.last().0, if m.last().1 >= r.1 {
                    m.last().1
                } else {
                    r.1
                }),
            )
        } else {
            m.push(r)
        }
    }
}

/// `x` as an `i64`, saturating at the bounds.
pub open spec fn clamp_i64(x: int) -> i64 {
    if x > i64::MAX {
        i64::MAX
    } else if x < i64::MIN {
        i64::MIN
    } else {
        x as i64
    }
}

/// Shift records for the first `k` kept new chunks (`kept`, in order), with
/// the shift they leave in force. A kept chunk has moved by its new start
/// minus the start of the old chunk aligned with it; where that differs from
/// the shift in force, a record at that old chunk's start makes up the
/// difference, so that every position from there on moves with it.
pub open spec fn anchor_changes(old: Seq<Chunk>, new: Seq<Chunk>, kept: Seq<int>, k: int) -> (Seq<Change>, int)
    decreases k,
{
    if k <= 0 || k > kept.len() {
        (seq![], 0)
    } else {
        let (r, prev) = anchor_changes(old, new, kept, k - 1);
        let i = kept[k - 1];
        match aligned_index(old, new, i) {
            Some(o) => {
                let cur = new[i].start - old[o].start;
                if cur == prev {
                    (r, prev)
                } else {
                    (r.push(Change { old_end: old[o].start, shift: clamp_i64(cur - prev) }), cur)
                }
            },
            None => (r, prev),
        }
    }
}

/// The shift records of a delta: for the chunks kept by the alignment.
pub open spec fn delta_changes(old: Seq<Chunk>, new: Seq<Chunk>) -> Seq<Change> {
    let kept = spec_lis(matched_pairs(alignment(old, new)));
    anchor_changes(old, new, kept, kept.len() as int).0
}

/// The new chunks that are not kept by the longest order-preserving alignment.
pub open spec fn dirty_chunk_indices(old: Seq<Chunk>, new: Seq<Chunk>) -> Seq<int> {
    dirty_indices(new.len() as int, spec_lis(matched_pairs(alignment(old, new))))
}

/// What `compute_delta` returns for old chunks `old` and new text `s`.
pub open spec fn spec_delta(old: Seq<Chunk>, s: Seq<char>) -> DeltaModel {
    let new = spec_chunk_text(s);
    let len = byte_len(s) as int;
    if old.len() == 0 {
        DeltaModel {
            dirty_ranges: if s.len() > 0 {
                seq![(0, len)]
            } else {
                seq![]
            },
            changes: seq![],
            total_chunks: new.len(),
            dirty_chunks: if s.len() > 0 {
                new.len()
            } else {
                0
            },
        }
    } else if new.len() == 0 {
        DeltaModel { dirty_ranges: seq![], changes: seq![], total_chunks: 0, dirty_chunks: 0 }
    } else {
        let dirty = dirty_chunk_indices(old, new);
        DeltaModel {
            dirty_ranges: merge_ranges(dirty.map_values(|d: int| padded_range(new, d, len))),
            changes: delta_changes(old, new),
            total_chunks: new.len(),
            dirty_chunks: dirty.len(),
        }
    }
}

/// Old chunks that can have come from a text: each covers a byte range whose
/// size fits an `i64`.
pub open spec fn old_chunks_valid(old: Seq<Chunk>) -> bool {
    forall|k: int| 0 <= k < old.len() ==> (#[trigger] old[k]).start <= old[k].end && old[k].end
        - old[k].start <= i64::MAX
}

fn same_key(a: &Chunk, b: &Chunk) -> (r: bool)
    requires
        a.start <= a.end,
        b.start <= b.end,
    ensures
        r == (chunk_key(*a) == chunk_key(*b)),
{
    a.hash == b.hash && a.end - a.start == b.end - b.start
}

/// For each new chunk, the old chunk it is paired with (see `aligned_index`).
fn align_chunks(old: &[Chunk], new: &Vec<Chunk>) -> (ms: Vec<Option<usize>>)
    requires
        forall|k: int| 0 <= k < old@.len() ==> (#[trigger] old@[k]).start <= old@[k].end,
        forall|k: int| 0 <= k < new@.len() ==> (#[trigger] new@[k]).start <= new@[k].end,
    ensures
        opt_ints(ms@) == alignment(old@, new@),
{
    let mut ms: Vec<Option<usize>> = Vec::new();
    let mut j: usize = 0;
    while j < new.len()
        invariant
            j <= new@.len(),
            forall|k: int| 0 <= k < old@.len() ==> (#[trigger] old@[k]).start <= old@[k].end,
            forall|k: int| 0 <= k < new@.len() ==> (#[trigger] new@[k]).start <= new@[k].end,
            ms@.len() == j,
            forall|t: int| 0 <= t < j ==> opt_ints(ms@)[t] == aligned_index(old@, new@, t),
        decreases new@.len() - j,
    {
        let ghost key = chunk_key(new@[j as int]);
        let mut c: usize = 0;
        let mut t: usize = 0;
        while t < j
            invariant
                t <= j < new@.len(),
                forall|k: int| 0 <= k < new@.len() ==> (#[trigger] new@[k]).start <= new@[k].end,
                key == chunk_key(new@[j as int]),
                c == key_count(new@.take(j as int).take(t as int), key),
                c <= t,
            decreases j - t,
        {
            assert(new@.take(j as int).take(t + 1).drop_last() =~= new@.take(j as int).take(t as int));
            if same_key(&new[t], &new[j]) {
                c = c + 1;
            }
            t = t + 1;
        }
        assert(new@.take(j as int).take(j as int) =~= new@.take(j as int));
        let mut remaining: usize = c;
        let mut i: usize = 0;
        let mut found: Option<usize> = None;
        while i < old.len()
            invariant_except_break
                nth_with_key(old@, key, c as nat, 0) == nth_with_key(old@, key, remaining as nat, i as int),
                found.is_none(),
            invariant
                i <= old@.len(),
                forall|k: int| 0 <= k < old@.len() ==> (#[trigger] old@[k]).start <= old@[k].end,
                j < new@.len(),
                new@[j as int].start <= new@[j as int].end,
                key == chunk_key(new@[j as int]),
            ensures
                match found {
                    Some(x) => nth_with_key(old@, key, c as nat, 0) == Some(x as int),
                    None => nth_with_key(old@, key, c as nat, 0) == None::<int>,
                },
            decreases old@.len() - i,
        {
            if same_key(&old[i], &new[j]) {
                if remaining == 0 {
                    found = Some(i);
                    break;
                }
                remaining = remaining - 1;
            }
            i = i + 1;
        }
        let ghost old_ms = ms@;
        ms.push(found);
        assert(opt_ints(ms@)[j as int] == aligned_index(old@, new@, j as int));
        assert forall|t: int| 0 <= t < j + 1 implies opt_ints(ms@)[t] == aligned_index(
            old@,
            new@,
            t,
        ) by {
            if t < j {
                assert(ms@[t] == old_ms[t]);
                assert(opt_ints(ms@)[t] == opt_ints(old_ms)[t]);
            }
        }
        j = j + 1;
    }
    assert(opt_ints(ms@) =~= alignment(old@, new@));
    ms
}


fn contains_index(v: &Vec<usize>, x: usize) -> (r: bool)
    ensures
        r == usize_ints(v@).contains(x as int),
{
    let mut k: usize = 0;
    while k < v.len()
        invariant
            k <= v@.len(),
            forall|t: int| 0 <= t < k ==> v@[t] != x,
        decreases v@.len() - k,
    {
        if v[k] == x {
            assert(usize_ints(v@)[k as int] == x as int);
            return true;
        }
        k = k + 1;
    }
    proof {
        if usize_ints(v@).contains(x as int) {
            let t = choose|t: int| 0 <= t < usize_ints(v@).len() && usize_ints(v@)[t] == x as int;
            assert(v@[t] == x);
        }
    }
    false
}

/// Compute the delta between the chunks of an old text and a new text.
///
/// New chunks are paired with old chunks of equal content; the longest
/// order-preserving set of pairs is kept and every other new chunk is dirty.
/// Dirty chunks are widened by one neighbouring chunk on each side and merged
/// into ranges, which come out in order and apart. Shift records come from
/// the kept chunks: wherever their displacement (new start minus the start
/// of the aligned old chunk) changes, a record at that old chunk's start.
pub fn compute_delta(old_chunks: &[Chunk], new_text: &str) -> (delta: Delta)
    requires
        old_chunks_valid(old_chunks@),
        byte_len(new_text@) <= i64::MAX,
    ensures
        delta_model(delta) == spec_delta(old_chunks@, new_text@),
        ranges_sorted(delta.dirty_ranges@),
        forall|k: int| 0 <= k < delta.dirty_ranges@.len() ==> (#[trigger] delta.dirty_ranges@[k]).end
            <= byte_len(new_text@),
        dirty_on_boundaries(delta.dirty_ranges@, new_text.spec_bytes()),
        forall|k: int| 0 <= k < delta.dirty_ranges@.len() ==> (#[trigger] delta.dirty_ranges@[k]).start
            < delta.dirty_ranges@[k].end,
        chunks_in_order(old_chunks@) ==> running_sums_fit(sort_by_end(delta.changes@)),
{
    let delta = delta_of(old_chunks, new_text);
    let text_len = new_text.as_bytes().len();
    assert(text_len == byte_len(new_text@));
    proof {
        law_delta_ranges_ordered(old_chunks@, new_text@);
        law_delta_on_boundaries(old_chunks@, new_text@);
        law_delta_ranges_cover(old_chunks@, new_text@);
        if chunks_in_order(old_chunks@) {
            law_delta_changes_fit(old_chunks@, new_text@);
        }
        let ri = range_ints(delta.dirty_ranges@);
        let sd = spec_delta(old_chunks@, new_text@).dirty_ranges;
        assert(ri == sd);
        assert forall|k: int| 0 <= k < delta.dirty_ranges@.len() implies (
        #[trigger] delta.dirty_ranges@[k]).start <= delta.dirty_ranges@[k].end <= byte_len(new_text@) by {
            assert(ri[k] == (delta.dirty_ranges@[k].start as int, delta.dirty_ranges@[k].end as int));
            assert(0 <= sd[k].0 <= sd[k].1 <= byte_len(new_text@));
        }
        assert forall|k: int| 0 <= k < delta.dirty_ranges@.len() implies (#[trigger] delta.dirty_ranges@[k]).start
            < delta.dirty_ranges@[k].end by {
            assert(ri[k] == (delta.dirty_ranges@[k].start as int, delta.dirty_ranges@[k].end as int));
            assert(sd[k].0 < sd[k].1);
        }
        assert forall|a: int, b: int| 0 <= a < b < delta.dirty_ranges@.len() implies (
        #[trigger] delta.dirty_ranges@[a]).end <= (#[trigger] delta.dirty_ranges@[b]).start by {
            assert(sd[a].1 < sd[b].0);
            assert(ri[a] == (delta.dirty_ranges@[a].start as int, delta.dirty_ranges@[a].end as int));
            assert(ri[b] == (delta.dirty_ranges@[b].start as int, delta.dirty_ranges@[b].end as int));
        }
        let bytes = new_text.spec_bytes();
        assert forall|k: int|
            0 <= k < delta.dirty_ranges@.len() && clamp_to((#[trigger] delta.dirty_ranges@[k]).start as int, bytes.len() as int)
                < clamp_to(delta.dirty_ranges@[k].end as int, bytes.len() as int) implies is_char_boundary(
            bytes,
            clamp_to(delta.dirty_ranges@[k].start as int, bytes.len() as int),
        ) && is_char_boundary(bytes, clamp_to(delta.dirty_ranges@[k].end as int, bytes.len() as int)) by {
            assert(ri[k] == (delta.dirty_ranges@[k].start as int, delta.dirty_ranges@[k].end as int));
            assert(sd[k] == ri[k]);
            assert(0 <= sd[k].0 <= sd[k].1 <= byte_len(new_text@));
        }
    }
    delta
}

fn delta_of(old_chunks: &[Chunk], new_text: &str) -> (delta: Delta)
    requires
        old_chunks_valid(old_chunks@),
        byte_len(new_text@) <= i64::MAX,
    ensures
        delta_model(delta) == spec_delta(old_chunks@, new_text@),
{
    let ghost s = new_text@;
    let new_chunks = chunk_text(new_text);
    let ghost new = new_chunks@;
    let bytes = new_text.as_bytes();
    let text_len = bytes.len();
    assert(text_len == byte_len(s));
    proof {
        lemma_chunks_well_formed(s);
    }
    let n = new_chunks.len();
    let mut delta = Delta {
        dirty_ranges: Vec::new(),
        changes: Vec::new(),
        total_chunks: n,
        dirty_chunks: 0,
    };
    if old_chunks.len() == 0 {
        if !new_text.is_empty() {
            delta.dirty_ranges.push(Range { start: 0, end: text_len });
            delta.dirty_chunks = n;
            assert(range_ints(delta.dirty_ranges@) =~= seq![(0int, byte_len(s) as int)]);
        } else {
            assert(range_ints(delta.dirty_ranges@) =~= Seq::<(int, int)>::empty());
        }
        assert(delta.changes@ =~= Seq::<Change>::empty());
        return delta;
    }
    if n == 0 {
        assert(range_ints(delta.dirty_ranges@) =~= Seq::<(int, int)>::empty());
        assert(delta.changes@ =~= Seq::<Change>::empty());
        return delta;
    }
    let matches = align_chunks(old_chunks, &new_chunks);
    let lis = longest_increasing_subsequence(&matches);
    let ghost kept = usize_ints(lis@);
    assert(kept == spec_lis(matched_pairs(alignment(old_chunks@, new))));

    // New chunks outside the kept alignment are dirty.
    let mut dirty: Vec<usize> = Vec::new();
    let mut k: usize = 0;
    while k < n
        invariant
            k <= n,
            usize_ints(dirty@) == dirty_indices(k as int, kept),
            kept == usize_ints(lis@),
            forall|t: int| 0 <= t < dirty@.len() ==> (#[trigger] dirty@[t]) < k,
        decreases n - k,
    {
        if !contains_index(&lis, k) {
            let ghost od = dirty@;
            dirty.push(k);
            assert(usize_ints(dirty@) =~= usize_ints(od).push(k as int));
        }
        k = k + 1;
    }
    let ghost dirty_spec = dirty_chunk_indices(old_chunks@, new);
    assert(usize_ints(dirty@) == dirty_spec);
    delta.dirty_chunks = dirty.len();

    // Dirty ranges with context padding, merged left to right.
    let ghost padded = dirty_spec.map_values(|d: int| padded_range(new, d, byte_len(s) as int));
    let mut ranges: Vec<Range<usize>> = Vec::new();
    let mut t: usize = 0;
    while t < dirty.len()
        invariant
            t <= dirty@.len(),
            n == new.len(),
            new == new_chunks@,
            text_len == byte_len(s),
            usize_ints(dirty@) == dirty_spec,
            forall|q: int| 0 <= q < dirty@.len() ==> (#[trigger] dirty@[q]) < n,
            padded == dirty_spec.map_values(|d: int| padded_range(new, d, byte_len(s) as int)),
            range_ints(ranges@) == merge_ranges(padded.take(t as int)),
        decreases dirty@.len() - t,
    {
        let d = dirty[t];
        assert(dirty_spec[t as int] == d as int);
        let ps: usize = if d >= CONTEXT_PADDING_PARAGRAPHS {
            new_chunks[d - CONTEXT_PADDING_PARAGRAPHS].start
        } else {
            0
        };
        let pe0: usize = if d + CONTEXT_PADDING_PARAGRAPHS < n {
            new_chunks[d + CONTEXT_PADDING_PARAGRAPHS].end
        } else {
            new_chunks[d].end
        };
        let pe: usize = if pe0 < text_len {
            pe0
        } else {
            text_len
        };
        assert(padded[t as int] == (ps as int, pe as int));
        assert(padded.take(t + 1).drop_last() =~= padded.take(t as int));
        let ghost prev_ranges = ranges@;
        let len = ranges.len();
        if len > 0 && ps <= ranges[len - 1].end {
            let last_start = ranges[len - 1].start;
            let last_end = ranges[len - 1].end;
            let ne = if last_end >= pe {
                last_end
            } else {
                pe
            };
            ranges.set(len - 1, Range { start: last_start, end: ne });
            assert(range_ints(ranges@) =~= range_ints(prev_ranges).update(
                len - 1,
                (last_start as int, ne as int),
            ));
        } else {
            ranges.push(Range { start: ps, end: pe });
            assert(range_ints(ranges@) =~= range_ints(prev_ranges).push((ps as int, pe as int)));
        }
        t = t + 1;
    }
    assert(padded.take(dirty@.len() as int) =~= padded);
    delta.dirty_ranges = ranges;

    // Shift records, one where the kept chunks' displacement changes.
    let ghost old = old_chunks@;
    proof {
        lemma_kept_in_range(old, new);
    }
    let mut changes: Vec<Change> = Vec::new();
    let mut prev: i128 = 0;
    let mut u: usize = 0;
    while u < lis.len()
        invariant
            u <= lis@.len(),
            n == new.len(),
            new == new_chunks@,
            old == old_chunks@,
            opt_ints(matches@) == alignment(old, new),
            kept == usize_ints(lis@),
            kept == spec_lis(matched_pairs(alignment(old, new))),
            forall|t: int| 0 <= t < kept.len() ==> 0 <= #[trigger] kept[t] < new.len(),
            (changes@, prev as int) == anchor_changes(old, new, kept, u as int),
            -0x1_0000_0000_0000_0000 < prev < 0x1_0000_0000_0000_0000,
        decreases lis@.len() - u,
    {
        let i = lis[u];
        assert(kept[u as int] == i as int);
        assert(matches@.len() == new.len());
        match matches[i] {
            Some(o) => {
                assert(alignment(old, new)[i as int] == Some(o as int));
                proof {
                    lemma_nth_bound(old, chunk_key(new[i as int]), key_count(new.take(i as int), chunk_key(new[i as int])), 0);
                }
                let cur: i128 = new_chunks[i].start as i128 - old_chunks[o].start as i128;
                if cur != prev {
                    let d: i128 = cur - prev;
                    let sh: i64 = if d > i64::MAX as i128 {
                        i64::MAX
                    } else if d < i64::MIN as i128 {
                        i64::MIN
                    } else {
                        d as i64
                    };
                    changes.push(Change { old_end: old_chunks[o].start, shift: sh });
                    prev = cur;
                }
            },
            None => {
                assert(alignment(old, new)[i as int] == None::<int>);
            },
        }
        u = u + 1;
    }
    delta.changes = changes;
    delta
}


proof fn lemma_nth_bound(cs: Seq<Chunk>, k: (u64, int), c: nat, i: int)
    ensures
        nth_with_key(cs, k, c, i) matches Some(x) ==> 0 <= x < cs.len(),
    decreases cs.len() - i, c,
{
    if 0 <= i < cs.len() {
        if chunk_key(cs[i]) == k {
            if c > 0 {
                lemma_nth_bound(cs, k, (c - 1) as nat, i + 1);
            }
        } else {
            lemma_nth_bound(cs, k, c, i + 1);
        }
    }
}

proof fn lemma_matched_pairs_in_range(ms: Seq<Option<int>>)
    ensures
        forall|t: int|
            0 <= t < matched_pairs(ms).len() ==> 0 <= (#[trigger] matched_pairs(ms)[t]).0 < ms.len(),
    decreases ms.len(),
{
    if ms.len() > 0 {
        let d = ms.drop_last();
        lemma_matched_pairs_in_range(d);
        let r = matched_pairs(d);
        assert forall|t: int| 0 <= t < matched_pairs(ms).len() implies 0 <= (
        #[trigger] matched_pairs(ms)[t]).0 < ms.len() by {
            if t < r.len() {
                assert(matched_pairs(ms)[t] == r[t]);
            }
        }
    }
}

/// With every kept chunk where its aligned old chunk was, nothing shifts.
proof fn lemma_no_anchor_shift(old: Seq<Chunk>, new: Seq<Chunk>, kept: Seq<int>, k: int)
    requires
        0 <= k <= kept.len(),
        forall|t: int|
            0 <= t < k ==> #[trigger] aligned_index(old, new, kept[t]) == Some(kept[t])
                && old[kept[t]] == new[kept[t]],
    ensures
        anchor_changes(old, new, kept, k) == (Seq::<Change>::empty(), 0int),
    decreases k,
{
    if k > 0 {
        lemma_no_anchor_shift(old, new, kept, k - 1);
        assert(aligned_index(old, new, kept[k - 1]) == Some(kept[k - 1]));
    }
}

/// The kept chunks are chunks of the new text.
proof fn lemma_kept_in_range(old: Seq<Chunk>, new: Seq<Chunk>)
    ensures
        forall|t: int|
            0 <= t < spec_lis(matched_pairs(alignment(old, new))).len() ==> 0 <= #[trigger] spec_lis(
                matched_pairs(alignment(old, new)),
            )[t] < new.len(),
{
    let v = matched_pairs(alignment(old, new));
    lemma_matched_pairs_in_range(alignment(old, new));
    law_lis_is_longest(v, seq![]);
    let w = choose|w: Seq<int>| is_increasing_chain(v, w) && chain_firsts(v, w) == spec_lis(v);
    assert forall|t: int| 0 <= t < spec_lis(v).len() implies 0 <= #[trigger] spec_lis(v)[t] < new.len() by {
        assert(spec_lis(v)[t] == v[w[t]].0);
        assert(0 <= w[t] < v.len());
    }
}

proof fn lemma_dirty_increasing(n: int, kept: Seq<int>)
    ensures
        forall|k: int| 0 <= k < dirty_indices(n, kept).len() ==> 0 <= #[trigger] dirty_indices(n, kept)[k] < n,
        forall|a: int, b: int|
            0 <= a < b < dirty_indices(n, kept).len() ==> #[trigger] dirty_indices(n, kept)[a]
                < #[trigger] dirty_indices(n, kept)[b],
    decreases n,
{
    if n > 0 {
        lemma_dirty_increasing(n - 1, kept);
        let r = dirty_indices(n - 1, kept);
        if !kept.contains(n - 1) {
            let r2 = r.push(n - 1);
            assert forall|k: int| 0 <= k < r2.len() implies 0 <= #[trigger] r2[k] < n by {
                if k < r.len() {
                    assert(r2[k] == r[k]);
                }
            }
            assert forall|a: int, b: int| 0 <= a < b < r2.len() implies #[trigger] r2[a] < #[trigger] r2[b] by {
                assert(r2[a] == r[a]);
                if b < r.len() {
                    assert(r2[b] == r[b]);
                }
            }
        }
    }
}

proof fn lemma_merge_sorted(rs: Seq<(int, int)>, len: int)
    requires
        forall|k: int| 0 <= k < rs.len() ==> 0 <= (#[trigger] rs[k]).0 <= rs[k].1 <= len,
        forall|a: int, b: int| 0 <= a < b < rs.len() ==> (#[trigger] rs[a]).0 <= (#[trigger] rs[b]).0,
    ensures
        forall|k: int| 0 <= k < merge_ranges(rs).len() ==> 0 <= (#[trigger] merge_ranges(rs)[k]).0
            <= merge_ranges(rs)[k].1 <= len,
        forall|a: int, b: int|
            0 <= a < b < merge_ranges(rs).len() ==> (#[trigger] merge_ranges(rs)[a]).1 < (
            #[trigger] merge_ranges(rs)[b]).0,
        rs.len() > 0 ==> merge_ranges(rs).len() > 0 && merge_ranges(rs).last().0 <= rs.last().0,
    decreases rs.len(),
{
    if rs.len() > 0 {
        let d = rs.drop_last();
        assert forall|a: int, b: int| 0 <= a < b < d.len() implies (#[trigger] d[a]).0 <= (#[trigger] d[b]).0 by {
            assert(d[a] == rs[a] && d[b] == rs[b]);
        }
        assert forall|k: int| 0 <= k < d.len() implies 0 <= (#[trigger] d[k]).0 <= d[k].1 <= len by {
            assert(d[k] == rs[k]);
        }
        lemma_merge_sorted(d, len);
        let m = merge_ranges(d);
        let r = rs.last();
        assert(r == rs[rs.len() - 1]);
        if d.len() > 0 {
            assert(d.last() == rs[rs.len() - 2]);
        }
        if m.len() > 0 && r.0 <= m.last().1 {
            let m2 = merge_ranges(rs);
            assert forall|k: int| 0 <= k < m2.len() implies 0 <= (#[trigger] m2[k]).0 <= m2[k].1 <= len by {
                if k < m.len() - 1 {
                    assert(m2[k] == m[k]);
                } else {
                    assert(m[m.len() - 1] == m.last());
                }
            }
            assert forall|a: int, b: int| 0 <= a < b < m2.len() implies (#[trigger] m2[a]).1 < (#[trigger] m2[b]).0 by {
                assert(m2[a] == m[a]);
                if b < m.len() - 1 {
                    assert(m2[b] == m[b]);
                } else {
                    assert(m2[b].0 == m[b].0);
                }
            }
        } else {
            let m2 = merge_ranges(rs);
            assert(m2 == m.push(r));
            assert forall|k: int| 0 <= k < m2.len() implies 0 <= (#[trigger] m2[k]).0 <= m2[k].1 <= len by {
                if k < m.len() {
                    assert(m2[k] == m[k]);
                }
            }
            assert forall|a: int, b: int| 0 <= a < b < m2.len() implies (#[trigger] m2[a]).1 < (#[trigger] m2[b]).0 by {
                assert(m2[a] == m[a]);
                if b < m.len() {
                    assert(m2[b] == m[b]);
                } else {
                    assert(m[m.len() - 1] == m.last());
                    if a < m.len() - 1 {
                        assert(m[a].1 < m[m.len() - 1].0);
                    }
                }
            }
        }
    }
}

proof fn lemma_merge_boundaries(rs: Seq<(int, int)>, bytes: Seq<u8>)
    requires
        forall|k: int| 0 <= k < rs.len() ==> is_char_boundary(bytes, (#[trigger] rs[k]).0)
            && is_char_boundary(bytes, rs[k].1),
    ensures
        forall|k: int| 0 <= k < merge_ranges(rs).len() ==> is_char_boundary(
            bytes,
            (#[trigger] merge_ranges(rs)[k]).0,
        ) && is_char_boundary(bytes, merge_ranges(rs)[k].1),
    decreases rs.len(),
{
    if rs.len() > 0 {
        let d = rs.drop_last();
        assert forall|k: int| 0 <= k < d.len() implies is_char_boundary(bytes, (#[trigger] d[k]).0)
            && is_char_boundary(bytes, d[k].1) by {
            assert(d[k] == rs[k]);
        }
        lemma_merge_boundaries(d, bytes);
        let m = merge_ranges(d);
        let r = rs.last();
        assert(r == rs[rs.len() - 1]);
        let m2 = merge_ranges(rs);
        assert forall|k: int| 0 <= k < m2.len() implies is_char_boundary(bytes, (#[trigger] m2[k]).0)
            && is_char_boundary(bytes, m2[k].1) by {
            if m.len() > 0 && r.0 <= m.last().1 {
                if k < m.len() - 1 {
                    assert(m2[k] == m[k]);
                } else {
                    assert(m[m.len() - 1] == m.last());
                }
            } else {
                if k < m.len() {
                    assert(m2[k] == m[k]);
                }
            }
        }
    }
}

proof fn lemma_merge_covers(rs: Seq<(int, int)>, len: int)
    requires
        forall|k: int| 0 <= k < rs.len() ==> 0 <= (#[trigger] rs[k]).0 < rs[k].1 <= len,
        forall|a: int, b: int| 0 <= a < b < rs.len() ==> (#[trigger] rs[a]).0 <= (#[trigger] rs[b]).0,
    ensures
        forall|k: int| 0 <= k < merge_ranges(rs).len() ==> (#[trigger] merge_ranges(rs)[k]).0 < merge_ranges(
            rs,
        )[k].1,
        forall|j: int|
            0 <= j < rs.len() ==> exists|k: int|
                0 <= k < merge_ranges(rs).len() && (#[trigger] merge_ranges(rs)[k]).0 <= (#[trigger] rs[j]).0
                    && rs[j].1 <= merge_ranges(rs)[k].1,
    decreases rs.len(),
{
    lemma_merge_sorted(rs, len);
    if rs.len() > 0 {
        let d = rs.drop_last();
        assert forall|a: int, b: int| 0 <= a < b < d.len() implies (#[trigger] d[a]).0 <= (#[trigger] d[b]).0 by {
            assert(d[a] == rs[a] && d[b] == rs[b]);
        }
        assert forall|k: int| 0 <= k < d.len() implies 0 <= (#[trigger] d[k]).0 < d[k].1 <= len by {
            assert(d[k] == rs[k]);
        }
        lemma_merge_covers(d, len);
        lemma_merge_sorted(d, len);
        let m = merge_ranges(d);
        let r = rs.last();
        assert(r == rs[rs.len() - 1]);
        if d.len() > 0 {
            assert(d.last() == rs[rs.len() - 2]);
        }
        let m2 = merge_ranges(rs);
        if m.len() > 0 && r.0 <= m.last().1 {
            let lk = m.len() - 1;
            assert(m[lk] == m.last());
            assert forall|k: int| 0 <= k < m2.len() implies (#[trigger] m2[k]).0 < m2[k].1 by {
                if k < lk {
                    assert(m2[k] == m[k]);
                }
            }
            assert forall|j: int| 0 <= j < rs.len() implies exists|k: int|
                0 <= k < m2.len() && (#[trigger] m2[k]).0 <= (#[trigger] rs[j]).0 && rs[j].1 <= m2[k].1 by {
                if j < d.len() {
                    assert(rs[j] == d[j]);
                    let k = choose|k: int| 0 <= k < m.len() && (#[trigger] m[k]).0 <= (#[trigger] d[j]).0
                        && d[j].1 <= m[k].1;
                    if k < lk {
                        assert(m2[k] == m[k]);
                    } else {
                        assert(m2[lk].0 == m[lk].0 && m2[lk].1 >= m[lk].1);
                    }
                } else {
                    assert(m.last().0 <= d.last().0 <= r.0);
                    assert(m2[lk].0 <= rs[j].0 && rs[j].1 <= m2[lk].1);
                }
            }
        } else {
            assert(m2 == m.push(r));
            assert forall|k: int| 0 <= k < m2.len() implies (#[trigger] m2[k]).0 < m2[k].1 by {
                if k < m.len() {
                    assert(m2[k] == m[k]);
                }
            }
            assert forall|j: int| 0 <= j < rs.len() implies exists|k: int|
                0 <= k < m2.len() && (#[trigger] m2[k]).0 <= (#[trigger] rs[j]).0 && rs[j].1 <= m2[k].1 by {
                if j < d.len() {
                    assert(rs[j] == d[j]);
                    let k = choose|k: int| 0 <= k < m.len() && (#[trigger] m[k]).0 <= (#[trigger] d[j]).0
                        && d[j].1 <= m[k].1;
                    assert(m2[k] == m[k]);
                } else {
                    assert(m2[m.len() as int] == r);
                }
            }
        }
    }
}

/// The new chunks a delta marks dirty: all of them against no old chunks,
/// else those outside the kept alignment.
pub open spec fn dirty_chunks_of(old: Seq<Chunk>, s: Seq<char>) -> Seq<int> {
    let new = spec_chunk_text(s);
    if old.len() == 0 {
        Seq::new(new.len(), |i: int| i)
    } else if new.len() == 0 {
        seq![]
    } else {
        dirty_chunk_indices(old, new)
    }
}

/// Every dirty range of a delta is non-empty, the delta counts exactly the
/// dirty chunks, and each dirty chunk lies inside one of the ranges.
pub proof fn law_delta_ranges_cover(old: Seq<Chunk>, s: Seq<char>)
    requires
        byte_len(s) <= usize::MAX,
    ensures
        forall|k: int|
            0 <= k < spec_delta(old, s).dirty_ranges.len() ==> (#[trigger] spec_delta(old, s).dirty_ranges[k]).0
                < spec_delta(old, s).dirty_ranges[k].1,
        spec_delta(old, s).dirty_chunks == dirty_chunks_of(old, s).len(),
        forall|t: int|
            0 <= t < dirty_chunks_of(old, s).len() ==> exists|k: int|
                0 <= k < spec_delta(old, s).dirty_ranges.len() && (#[trigger] spec_delta(old, s).dirty_ranges[k]).0
                    <= spec_chunk_text(s)[#[trigger] dirty_chunks_of(old, s)[t]].start
                    && spec_chunk_text(s)[dirty_chunks_of(old, s)[t]].end <= spec_delta(old, s).dirty_ranges[k].1,
{
    let new = spec_chunk_text(s);
    let len = byte_len(s) as int;
    lemma_chunks_nonempty(s);
    lemma_chunks_well_formed(s);
    lemma_chunks_ordered(s);
    let r = spec_delta(old, s).dirty_ranges;
    let ds = dirty_chunks_of(old, s);
    if old.len() == 0 {
        if s.len() > 0 {
            assert(r == seq![(0int, len)]);
            assert(s.take(1) =~= seq![s[0]]);
            crate::text::lemma_byte_offset_step(s, 0);
            crate::text::lemma_byte_offset_mono(s, 1, s.len() as int);
            assert(s.take(0) =~= Seq::<char>::empty());
            assert(s.take(s.len() as int) =~= s);
            assert forall|t: int| 0 <= t < ds.len() implies exists|k: int|
                0 <= k < r.len() && (#[trigger] r[k]).0 <= new[#[trigger] ds[t]].start && new[ds[t]].end <= r[k].1 by {
                assert(ds[t] == t);
                assert(r[0].0 <= new[ds[t]].start && new[ds[t]].end <= r[0].1);
            }
        }
    } else if new.len() > 0 {
        let dirty = dirty_chunk_indices(old, new);
        lemma_dirty_increasing(new.len() as int, spec_lis(matched_pairs(alignment(old, new))));
        let padded = dirty.map_values(|d: int| padded_range(new, d, len));
        assert forall|k: int| 0 <= k < padded.len() implies 0 <= (#[trigger] padded[k]).0 <= new[dirty[k]].start
            && new[dirty[k]].end <= padded[k].1 <= len by {
            let d = dirty[k];
            assert(0 <= d < new.len());
            if d >= 1 {
                assert(new[d - 1].end <= new[d].start);
            }
            if d + 1 < new.len() {
                assert(new[d].end <= new[d + 1].start);
            }
        }
        assert forall|k: int| 0 <= k < padded.len() implies 0 <= (#[trigger] padded[k]).0 < padded[k].1 <= len by {
            assert(new[dirty[k]].start < new[dirty[k]].end);
        }
        assert forall|a: int, b: int| 0 <= a < b < padded.len() implies (#[trigger] padded[a]).0 <= (
        #[trigger] padded[b]).0 by {
            let da = dirty[a];
            let db = dirty[b];
            assert(da < db);
            if da >= 1 {
                assert(new[da - 1].start <= new[da - 1].end);
                if da - 1 < db - 1 {
                    assert(new[da - 1].end <= new[db - 1].start);
                }
            }
        }
        lemma_merge_covers(padded, len);
        assert forall|t: int| 0 <= t < ds.len() implies exists|k: int|
            0 <= k < r.len() && (#[trigger] r[k]).0 <= new[#[trigger] ds[t]].start && new[ds[t]].end <= r[k].1 by {
            assert(ds[t] == dirty[t]);
            assert(padded[t] == padded_range(new, dirty[t], len));
            let k = choose|k: int| 0 <= k < r.len() && (#[trigger] r[k]).0 <= (#[trigger] padded[t]).0
                && padded[t].1 <= r[k].1;
        }
    }
    assert forall|t: int| 0 <= t < dirty_chunks_of(old, s).len() implies exists|k: int|
        0 <= k < spec_delta(old, s).dirty_ranges.len() && (#[trigger] spec_delta(old, s).dirty_ranges[k]).0
            <= spec_chunk_text(s)[#[trigger] dirty_chunks_of(old, s)[t]].start
            && spec_chunk_text(s)[dirty_chunks_of(old, s)[t]].end <= spec_delta(old, s).dirty_ranges[k].1 by {
        if ds.len() > 0 {
            assert(exists|k: int|
                0 <= k < r.len() && (#[trigger] r[k]).0 <= new[ds[t]].start && new[ds[t]].end <= r[k].1);
            let k = choose|k: int|
                0 <= k < r.len() && (#[trigger] r[k]).0 <= new[ds[t]].start && new[ds[t]].end <= r[k].1;
            assert(spec_delta(old, s).dirty_ranges[k] == r[k]);
        }
    }
}

/// The dirty ranges of a delta start and end on character boundaries of
/// the new text, so each can be sliced out of it.
pub proof fn law_delta_on_boundaries(old: Seq<Chunk>, s: Seq<char>)
    requires
        byte_len(s) <= usize::MAX,
    ensures
        forall|k: int|
            0 <= k < spec_delta(old, s).dirty_ranges.len() ==> is_char_boundary(
                encode_utf8(s),
                (#[trigger] spec_delta(old, s).dirty_ranges[k]).0,
            ) && is_char_boundary(encode_utf8(s), spec_delta(old, s).dirty_ranges[k].1),
{
    let new = spec_chunk_text(s);
    let len = byte_len(s) as int;
    let bytes = encode_utf8(s);
    crate::text::lemma_offset_boundary(s, 0);
    crate::text::lemma_offset_boundary(s, s.len() as int);
    assert(s.take(0) =~= Seq::<char>::empty());
    assert(s.take(s.len() as int) =~= s);
    if old.len() == 0 {
        if s.len() > 0 {
            assert(spec_delta(old, s).dirty_ranges == seq![(0int, len)]);
        }
    } else if new.len() > 0 {
        lemma_chunk_spans_within(s);
        let v = chunk_spans(s);
        assert forall|q: int| 0 <= q < new.len() implies is_char_boundary(bytes, (#[trigger] new[q]).start as int)
            && is_char_boundary(bytes, new[q].end as int) by {
            assert(new[q] == chunk_of(s, v[q]));
            crate::text::lemma_offset_boundary(s, v[q].0);
            crate::text::lemma_offset_boundary(s, v[q].1);
            crate::text::lemma_byte_offset_mono(s, v[q].0, s.len() as int);
            crate::text::lemma_byte_offset_mono(s, v[q].1, s.len() as int);
        }
        let dirty = dirty_chunk_indices(old, new);
        lemma_dirty_increasing(new.len() as int, spec_lis(matched_pairs(alignment(old, new))));
        let padded = dirty.map_values(|d: int| padded_range(new, d, len));
        assert forall|k: int| 0 <= k < padded.len() implies is_char_boundary(bytes, (#[trigger] padded[k]).0)
            && is_char_boundary(bytes, padded[k].1) by {
            let d = dirty[k];
            assert(0 <= d < new.len());
            if d >= 1 {
                assert(is_char_boundary(bytes, new[d - 1].start as int));
            }
            if d + 1 < new.len() {
                assert(is_char_boundary(bytes, new[d + 1].end as int));
            }
            assert(is_char_boundary(bytes, new[d].end as int));
        }
        lemma_merge_boundaries(padded, bytes);
    }
}

/// The dirty ranges of a delta lie within the new text, in order and apart:
/// each ends before the next begins.
pub proof fn law_delta_ranges_ordered(old: Seq<Chunk>, s: Seq<char>)
    requires
        byte_len(s) <= usize::MAX,
    ensures
        forall|k: int|
            0 <= k < spec_delta(old, s).dirty_ranges.len() ==> 0 <= (
            #[trigger] spec_delta(old, s).dirty_ranges[k]).0 <= spec_delta(old, s).dirty_ranges[k].1
                <= byte_len(s),
        forall|a: int, b: int|
            0 <= a < b < spec_delta(old, s).dirty_ranges.len() ==> (
            #[trigger] spec_delta(old, s).dirty_ranges[a]).1 < (
            #[trigger] spec_delta(old, s).dirty_ranges[b]).0,
{
    let new = spec_chunk_text(s);
    let len = byte_len(s) as int;
    if old.len() > 0 && new.len() > 0 {
        lemma_chunks_well_formed(s);
        lemma_chunks_ordered(s);
        let dirty = dirty_chunk_indices(old, new);
        lemma_dirty_increasing(new.len() as int, spec_lis(matched_pairs(alignment(old, new))));
        let padded = dirty.map_values(|d: int| padded_range(new, d, len));
        assert forall|k: int| 0 <= k < padded.len() implies 0 <= (#[trigger] padded[k]).0 <= padded[k].1 <= len by {
            let d = dirty[k];
            assert(0 <= d < new.len());
            if d >= 1 {
                assert(new[d - 1].end <= new[d].start);
            }
            if d + 1 < new.len() {
                assert(new[d].end <= new[d + 1].start);
            }
        }
        assert forall|a: int, b: int| 0 <= a < b < padded.len() implies (#[trigger] padded[a]).0 <= (
        #[trigger] padded[b]).0 by {
            let da = dirty[a];
            let db = dirty[b];
            assert(da < db);
            if da >= 1 {
                assert(new[da - 1].start <= new[da - 1].end);
                if da - 1 < db - 1 {
                    assert(new[da - 1].end <= new[db - 1].start);
                }
            }
        }
        lemma_merge_sorted(padded, len);
    }
}

proof fn lemma_matched_pairs_from(ms: Seq<Option<int>>)
    ensures
        forall|t: int|
            0 <= t < matched_pairs(ms).len() ==> 0 <= (#[trigger] matched_pairs(ms)[t]).0 < ms.len()
                && ms[matched_pairs(ms)[t].0] == Some(matched_pairs(ms)[t].1),
    decreases ms.len(),
{
    if ms.len() > 0 {
        let d = ms.drop_last();
        lemma_matched_pairs_from(d);
        let r = matched_pairs(d);
        let m = matched_pairs(ms);
        assert forall|t: int| 0 <= t < m.len() implies 0 <= (#[trigger] m[t]).0 < ms.len() && ms[m[t].0]
            == Some(m[t].1) by {
            if t < r.len() {
                assert(m[t] == r[t]);
                assert(d[r[t].0] == ms[r[t].0]);
            } else {
                assert(ms[ms.len() - 1] == ms.last());
            }
        }
    }
}

/// Chunks in order, each ending no later than the next begins, all within
/// `i64` offsets.
pub open spec fn chunks_in_order(cs: Seq<Chunk>) -> bool {
    &&& forall|k: int| 0 <= k < cs.len() ==> (#[trigger] cs[k]).start <= cs[k].end <= i64::MAX
    &&& forall|a: int, b: int| 0 <= a < b < cs.len() ==> (#[trigger] cs[a]).end <= (#[trigger] cs[b]).start
}

proof fn lemma_anchor_changes_fit(
    old: Seq<Chunk>,
    new: Seq<Chunk>,
    kept: Seq<int>,
    os: Seq<int>,
    k: int,
)
    requires
        chunks_in_order(old),
        chunks_in_order(new),
        0 <= k <= kept.len(),
        os.len() == kept.len(),
        forall|t: int| 0 <= t < kept.len() ==> 0 <= #[trigger] kept[t] < new.len(),
        forall|t: int| 0 <= t < kept.len() ==> 0 <= #[trigger] os[t] < old.len(),
        forall|t: int| 0 <= t < kept.len() ==> #[trigger] aligned_index(old, new, kept[t]) == Some(os[t]),
        forall|a: int, b: int| 0 <= a < b < kept.len() ==> #[trigger] kept[a] < #[trigger] kept[b] && os[a] < os[b],
    ensures
        ({
            let (r, prev) = anchor_changes(old, new, kept, k);
            &&& sorted_by_end(r)
            &&& total_shift(r) == prev
            &&& running_sums_fit(r)
            &&& k == 0 ==> prev == 0 && r.len() == 0
            &&& k > 0 ==> prev == new[kept[k - 1]].start - old[os[k - 1]].start
            &&& k > 0 && r.len() > 0 ==> r.last().old_end <= old[os[k - 1]].start
        }),
    decreases k,
{
    if k > 0 {
        lemma_anchor_changes_fit(old, new, kept, os, k - 1);
        let (r, prev) = anchor_changes(old, new, kept, k - 1);
        let i = kept[k - 1];
        let o = os[k - 1];
        assert(aligned_index(old, new, i) == Some(o));
        assert(new[i].start <= new[i].end <= i64::MAX);
        assert(old[o].start <= old[o].end <= i64::MAX);
        let cur = new[i].start - old[o].start;
        if k >= 2 {
            let i0 = kept[k - 2];
            let o0 = os[k - 2];
            assert(i0 < i && o0 < o);
            assert(new[i0].start <= new[i0].end <= new[i].start);
            assert(old[o0].start <= old[o0].end <= old[o].start);
        }
        if cur != prev {
            let c = Change { old_end: old[o].start, shift: clamp_i64(cur - prev) };
            assert(clamp_i64(cur - prev) == cur - prev);
            let r2 = r.push(c);
            assert(r2.drop_last() =~= r);
            assert forall|j: int| 0 < j <= r2.len() implies i64::MIN <= #[trigger] total_shift(r2.take(j))
                <= i64::MAX by {
                if j <= r.len() {
                    assert(r2.take(j) =~= r.take(j));
                } else {
                    assert(r2.take(j) =~= r2);
                }
            }
            assert forall|a: int, b: int| 0 <= a <= b < r2.len() implies r2[a].old_end <= r2[b].old_end by {
                if b < r.len() {
                    assert(r2[a] == r[a] && r2[b] == r[b]);
                } else if a < r.len() {
                    assert(r2[a] == r[a]);
                    assert(r[a].old_end <= r.last().old_end);
                    assert(old[os[k - 2]].start <= old[os[k - 2]].end <= old[o].start);
                }
            }
        }
    }
}

proof fn lemma_sorted_sort_by_end(cs: Seq<Change>)
    requires
        sorted_by_end(cs),
    ensures
        sort_by_end(cs) == cs,
    decreases cs.len(),
{
    if cs.len() > 0 {
        let d = cs.drop_last();
        assert(sorted_by_end(d));
        lemma_sorted_sort_by_end(d);
        let x = cs.last();
        assert forall|i: int| 0 <= i < d.len() implies (#[trigger] d[i]).old_end <= x.old_end by {
            assert(d[i] == cs[i]);
            assert(cs[cs.len() - 1] == x);
        }
        lemma_count_ending_by(d, x.old_end, d.len() as int);
        assert(d.insert(d.len() as int, x) =~= cs);
    }
}

/// When the old chunks are in order (as `chunk_text` gives them) and their
/// offsets fit an `i64`, the shift records of a delta can be indexed: summed
/// in order of their ends, no running sum overflows, and no record's shift
/// was clamped (each running sum is the displacement of a kept chunk).
pub proof fn law_delta_changes_fit(old: Seq<Chunk>, s: Seq<char>)
    requires
        chunks_in_order(old),
        byte_len(s) <= i64::MAX,
        byte_len(s) <= usize::MAX,
    ensures
        running_sums_fit(sort_by_end(spec_delta(old, s).changes)),
{
    let new = spec_chunk_text(s);
    if old.len() > 0 && new.len() > 0 {
        lemma_chunks_well_formed(s);
        lemma_chunks_ordered(s);
        assert(chunks_in_order(new));
        let ms = alignment(old, new);
        let v = matched_pairs(ms);
        let kept = spec_lis(v);
        lemma_matched_pairs_from(ms);
        law_lis_is_longest(v, seq![]);
        let w = choose|w: Seq<int>| is_increasing_chain(v, w) && chain_firsts(v, w) == spec_lis(v);
        lemma_matched_firsts_increase(ms);
        let os = Seq::new(kept.len(), |t: int| v[w[t]].1);
        assert forall|t: int| 0 <= t < kept.len() implies #[trigger] aligned_index(old, new, kept[t]) == Some(os[t])
            && 0 <= kept[t] < new.len() by {
            assert(kept[t] == v[w[t]].0);
            assert(ms[v[w[t]].0] == Some(v[w[t]].1));
        }
        assert forall|t: int| 0 <= t < kept.len() implies 0 <= #[trigger] kept[t] < new.len() by {
            assert(aligned_index(old, new, kept[t]) == Some(os[t]));
        }
        assert forall|t: int| 0 <= t < kept.len() implies 0 <= #[trigger] os[t] < old.len() by {
            assert(aligned_index(old, new, kept[t]) == Some(os[t]));
            lemma_nth_bound(old, chunk_key(new[kept[t]]), key_count(new.take(kept[t]), chunk_key(new[kept[t]])), 0);
        }
        assert forall|a: int, b: int| 0 <= a < b < kept.len() implies #[trigger] kept[a] < #[trigger] kept[b]
            && os[a] < os[b] by {
            assert(w[a] < w[b]);
            assert(v[w[a]].1 < v[w[b]].1);
        }
        lemma_anchor_changes_fit(old, new, kept, os, kept.len() as int);
        lemma_sorted_sort_by_end(spec_delta(old, s).changes);
    }
}

/// How many entries of `kept` are below `n`.
pub open spec fn count_below(kept: Seq<int>, n: int) -> nat
    decreases kept.len(),
{
    if kept.len() == 0 {
        0
    } else {
        count_below(kept.drop_last(), n) + if kept.last() < n {
            1nat
        } else {
            0nat
        }
    }
}

proof fn lemma_count_below_step(kept: Seq<int>, n: int)
    requires
        kept.no_duplicates(),
    ensures
        count_below(kept, n + 1) == count_below(kept, n) + if kept.contains(n) {
            1nat
        } else {
            0nat
        },
    decreases kept.len(),
{
    if kept.len() > 0 {
        let d = kept.drop_last();
        assert(d.no_duplicates());
        lemma_count_below_step(d, n);
        if kept.last() == n {
            assert(!d.contains(n)) by {
                if d.contains(n) {
                    let j = choose|j: int| 0 <= j < d.len() && d[j] == n;
                    assert(kept[j] == kept[kept.len() - 1]);
                }
            }
        } else {
            assert(kept.contains(n) == d.contains(n)) by {
                if kept.contains(n) {
                    let j = choose|j: int| 0 <= j < kept.len() && kept[j] == n;
                    assert(d[j] == n);
                }
                if d.contains(n) {
                    let j = choose|j: int| 0 <= j < d.len() && d[j] == n;
                    assert(kept[j] == n);
                }
            }
        }
    }
}

proof fn lemma_count_below_all(kept: Seq<int>, n: int)
    requires
        forall|j: int| 0 <= j < kept.len() ==> #[trigger] kept[j] < n,
    ensures
        count_below(kept, n) == kept.len(),
    decreases kept.len(),
{
    if kept.len() > 0 {
        let d = kept.drop_last();
        assert forall|j: int| 0 <= j < d.len() implies #[trigger] d[j] < n by {
            assert(d[j] == kept[j]);
        }
        lemma_count_below_all(d, n);
        assert(kept[kept.len() - 1] < n);
    }
}

proof fn lemma_count_below_none(kept: Seq<int>)
    requires
        forall|j: int| 0 <= j < kept.len() ==> #[trigger] kept[j] >= 0,
    ensures
        count_below(kept, 0) == 0,
    decreases kept.len(),
{
    if kept.len() > 0 {
        let d = kept.drop_last();
        assert forall|j: int| 0 <= j < d.len() implies #[trigger] d[j] >= 0 by {
            assert(d[j] == kept[j]);
        }
        lemma_count_below_none(d);
        assert(kept[kept.len() - 1] >= 0);
    }
}

proof fn lemma_dirty_count(n: int, kept: Seq<int>)
    requires
        n >= 0,
        kept.no_duplicates(),
        forall|j: int| 0 <= j < kept.len() ==> #[trigger] kept[j] >= 0,
    ensures
        dirty_indices(n, kept).len() + count_below(kept, n) == n,
    decreases n,
{
    if n == 0 {
        lemma_count_below_none(kept);
    } else {
        lemma_dirty_count(n - 1, kept);
        lemma_count_below_step(kept, n - 1);
    }
}

proof fn lemma_matched_firsts_increase(ms: Seq<Option<int>>)
    ensures
        forall|a: int, b: int|
            0 <= a < b < matched_pairs(ms).len() ==> (#[trigger] matched_pairs(ms)[a]).0 < (
            #[trigger] matched_pairs(ms)[b]).0,
    decreases ms.len(),
{
    if ms.len() > 0 {
        let d = ms.drop_last();
        lemma_matched_firsts_increase(d);
        lemma_matched_pairs_in_range(d);
        let r = matched_pairs(d);
        let m = matched_pairs(ms);
        assert forall|a: int, b: int| 0 <= a < b < m.len() implies (#[trigger] m[a]).0 < (#[trigger] m[b]).0 by {
            assert(m[a] == r[a]);
            if b < r.len() {
                assert(m[b] == r[b]);
            }
        }
    }
}

/// How a delta counts chunks: it has one per chunk of the new text; against
/// no old chunks all of them are dirty and the whole text is one range;
/// otherwise the dirty ones are exactly those outside the longest
/// order-preserving alignment, so no order-preserving alignment of matched
/// chunks keeps more than the clean ones.
pub proof fn law_delta_counts(old: Seq<Chunk>, s: Seq<char>, c: Seq<int>)
    requires
        is_increasing_chain(matched_pairs(alignment(old, spec_chunk_text(s))), c),
    ensures
        spec_delta(old, s).total_chunks == spec_chunk_text(s).len(),
        spec_delta(old, s).dirty_chunks <= spec_delta(old, s).total_chunks,
        old.len() == 0 && s.len() > 0 ==> spec_delta(old, s).dirty_chunks == spec_chunk_text(s).len()
            && spec_delta(old, s).dirty_ranges == seq![(0int, byte_len(s) as int)],
        old.len() == 0 && s.len() == 0 ==> spec_delta(old, s).dirty_chunks == 0
            && spec_delta(old, s).dirty_ranges.len() == 0,
        old.len() > 0 && spec_chunk_text(s).len() > 0 ==> spec_delta(old, s).dirty_chunks
            + spec_lis(matched_pairs(alignment(old, spec_chunk_text(s)))).len() == spec_chunk_text(s).len(),
        old.len() > 0 && spec_chunk_text(s).len() > 0 ==> c.len() <= spec_chunk_text(s).len()
            - spec_delta(old, s).dirty_chunks,
{
    let new = spec_chunk_text(s);
    if old.len() > 0 && new.len() > 0 {
        let v = matched_pairs(alignment(old, new));
        let kept = spec_lis(v);
        law_lis_is_longest(v, c);
        lemma_kept_in_range(old, new);
        let w = choose|w: Seq<int>| is_increasing_chain(v, w) && chain_firsts(v, w) == spec_lis(v);
        lemma_matched_firsts_increase(alignment(old, new));
        assert forall|a: int, b: int| 0 <= a < b < kept.len() implies kept[a] != kept[b] by {
            assert(kept[a] == v[w[a]].0 && kept[b] == v[w[b]].0);
            assert(w[a] < w[b]);
        }
        assert(kept.no_duplicates());
        assert forall|j: int| 0 <= j < kept.len() implies #[trigger] kept[j] >= 0 by {}
        lemma_dirty_count(new.len() as int, kept);
        lemma_count_below_all(kept, new.len() as int);
    }
}

// =============================================================================
// Shift index
// =============================================================================

/// Sum of the shifts of all changes.
pub open spec fn total_shift(cs: Seq<Change>) -> int
    decreases cs.len(),
{
    if cs.len() == 0 {
        0
    } else {
        total_shift(cs.drop_last()) + cs.last().shift
    }
}

/// Net shift at position `pos`: the sum of the shifts of all changes that end
/// at or before `pos`.
pub open spec fn shift_sum(cs: Seq<Change>, pos: int) -> int
    decreases cs.len(),
{
    if cs.len() == 0 {
        0
    } else {
        shift_sum(cs.drop_last(), pos) + if cs.last().old_end <= pos {
            cs.last().shift as int
        } else {
            0
        }
    }
}

pub open spec fn sorted_by_end(cs: Seq<Change>) -> bool {
    forall|i: int, j: int| 0 <= i <= j < cs.len() ==> cs[i].old_end <= cs[j].old_end
}

proof fn lemma_sums_concat(a: Seq<Change>, b: Seq<Change>, pos: int)
    ensures
        shift_sum(a + b, pos) == shift_sum(a, pos) + shift_sum(b, pos),
        total_shift(a + b) == total_shift(a) + total_shift(b),
    decreases b.len(),
{
    if b.len() == 0 {
        assert(a + b =~= a);
    } else {
        assert((a + b).drop_last() =~= a + b.drop_last());
        lemma_sums_concat(a, b.drop_last(), pos);
    }
}

proof fn lemma_sums_insert(a: Seq<Change>, p: int, x: Change)
    requires
        0 <= p <= a.len(),
    ensures
        forall|pos: int|
            shift_sum(a.insert(p, x), pos) == shift_sum(a, pos) + if x.old_end <= pos {
                x.shift as int
            } else {
                0
            },
{
    let l = a.take(p);
    let r = a.skip(p);
    assert(a =~= l + r);
    assert(a.insert(p, x) =~= (l + seq![x]) + r);
    assert(seq![x].drop_last() =~= Seq::<Change>::empty());
    assert(seq![x].last() == x);
    assert forall|pos: int|
        shift_sum(a.insert(p, x), pos) == shift_sum(a, pos) + if x.old_end <= pos {
            x.shift as int
        } else {
            0
        } by {
        lemma_sums_concat(l + seq![x], r, pos);
        lemma_sums_concat(l, seq![x], pos);
        lemma_sums_concat(l, r, pos);
        assert(shift_sum(seq![x], pos) == shift_sum(Seq::<Change>::empty(), pos) + if x.old_end
            <= pos {
            x.shift as int
        } else {
            0
        });
    }
}

/// How many of `cs` end at or before `e`.
pub open spec fn count_ending_by(cs: Seq<Change>, e: usize) -> int
    decreases cs.len(),
{
    if cs.len() == 0 {
        0
    } else {
        count_ending_by(cs.drop_last(), e) + if cs.last().old_end <= e {
            1int
        } else {
            0int
        }
    }
}

/// The changes stably sorted by end: each, in turn, goes after those already
/// placed that end no later.
pub open spec fn sort_by_end(cs: Seq<Change>) -> Seq<Change>
    decreases cs.len(),
{
    if cs.len() == 0 {
        seq![]
    } else {
        let r = sort_by_end(cs.drop_last());
        r.insert(count_ending_by(r, cs.last().old_end), cs.last())
    }
}

/// Every running sum of the shifts, in the order given, fits an `i64`.
pub open spec fn running_sums_fit(cs: Seq<Change>) -> bool {
    forall|k: int| 0 < k <= cs.len() ==> i64::MIN <= #[trigger] total_shift(cs.take(k)) <= i64::MAX
}

proof fn lemma_count_ending_by(cs: Seq<Change>, e: usize, p: int)
    requires
        0 <= p <= cs.len(),
        forall|i: int| 0 <= i < p ==> (#[trigger] cs[i]).old_end <= e,
        forall|i: int| p <= i < cs.len() ==> (#[trigger] cs[i]).old_end > e,
    ensures
        count_ending_by(cs, e) == p,
    decreases cs.len(),
{
    if cs.len() > 0 {
        let d = cs.drop_last();
        if p == cs.len() {
            assert(cs[cs.len() - 1].old_end <= e);
            lemma_count_ending_by(d, e, p - 1);
        } else {
            assert(cs[cs.len() - 1].old_end > e);
            lemma_count_ending_by(d, e, p);
        }
    }
}

/// For entries sorted by end, the changes ending at or before `pos` are
/// exactly a prefix.
proof fn lemma_sorted_prefix_sum(cs: Seq<Change>, pos: int, k: int)
    requires
        sorted_by_end(cs),
        0 <= k <= cs.len(),
        forall|i: int| 0 <= i < k ==> cs[i].old_end <= pos,
        forall|i: int| k <= i < cs.len() ==> cs[i].old_end > pos,
    ensures
        shift_sum(cs, pos) == total_shift(cs.take(k)),
    decreases cs.len(),
{
    if cs.len() == 0 {
        assert(cs.take(k) =~= cs);
    } else if k == cs.len() {
        assert(cs.take(k) =~= cs);
        let d = cs.drop_last();
        assert(sorted_by_end(d));
        lemma_sorted_prefix_sum(d, pos, k - 1);
        assert(d.take(k - 1) =~= d);
    } else {
        let d = cs.drop_last();
        assert(sorted_by_end(d));
        assert(cs.take(k) =~= d.take(k));
        lemma_sorted_prefix_sum(d, pos, k);
    }
}

/// The shift at a position does not depend on the order of the changes:
/// the same changes in any order give the same shift, and so do the indexes
/// built from them.
pub proof fn law_shift_order_free(a: Seq<Change>, b: Seq<Change>, pos: int)
    requires
        a.to_multiset() == b.to_multiset(),
    ensures
        shift_sum(a, pos) == shift_sum(b, pos),
    decreases a.len(),
{
    broadcast use vstd::multiset::group_multiset_axioms;

    a.to_multiset_ensures();
    b.to_multiset_ensures();
    if a.len() == 0 {
        assert(b.len() == 0);
        assert(b =~= a);
    } else {
        let x = a.last();
        let a0 = a.drop_last();
        assert(a0.push(x) =~= a);
        a0.to_multiset_ensures();
        assert(a.contains(x)) by {
            assert(a[a.len() - 1] == x);
        }
        assert(a.to_multiset().count(x) > 0);
        assert(b.to_multiset().count(x) > 0);
        assert(b.contains(x));
        let i = choose|i: int| 0 <= i < b.len() && b[i] == x;
        let b0 = b.remove(i);
        assert(b0.to_multiset() =~= b.to_multiset().remove(x));
        assert(a0.to_multiset() =~= a.to_multiset().remove(x));
        law_shift_order_free(a0, b0, pos);
        assert(b0.insert(i, x) =~= b);
        lemma_sums_insert(b0, i, x);
    }
}

/// Pre-computed index for logarithmic shift queries.
pub struct ShiftIndex {
    /// Sorted old_end positions
    ends: Vec<usize>,
    /// Cumulative shift up to ends[i]
    prefix_shift: Vec<i64>,
    /// The changes in the order the index holds them
    entries: Ghost<Seq<Change>>,
}

impl ShiftIndex {
    #[verifier::type_invariant]
    spec fn well_formed(self) -> bool {
        &&& sorted_by_end(self.entries@)
        &&& self.ends@.len() == self.entries@.len()
        &&& self.prefix_shift@.len() == self.entries@.len()
        &&& forall|i: int| 0 <= i < self.ends@.len() ==> #[trigger] self.ends@[i] == self.entries@[i].old_end
        &&& forall|i: int| 0 <= i < self.prefix_shift@.len() ==> #[trigger] self.prefix_shift@[i]
            == total_shift(self.entries@.take(i + 1))
    }

    /// Net shift at `pos` recorded by this index.
    pub closed spec fn shift_model(self, pos: int) -> int {
        shift_sum(self.entries@, pos)
    }

    /// Build from changes (in any order); they are stably sorted by end and
    /// their shifts summed in that order, each running sum fitting an `i64`.
    pub fn from_changes(changes: &[Change]) -> (idx: ShiftIndex)
        requires
            running_sums_fit(sort_by_end(changes@)),
        ensures
            forall|pos: int| #[trigger] idx.shift_model(pos) == shift_sum(changes@, pos),
    {
        // insertion sort by old_end (stable)
        let mut sorted: Vec<Change> = Vec::new();
        let mut k: usize = 0;
        while k < changes.len()
            invariant
                k <= changes@.len(),
                sorted_by_end(sorted@),
                forall|pos: int| shift_sum(sorted@, pos) == shift_sum(changes@.take(k as int), pos),
                sorted@ == sort_by_end(changes@.take(k as int)),
            decreases changes@.len() - k,
        {
            let c = changes[k];
            let mut p: usize = sorted.len();
            while p > 0 && sorted[p - 1].old_end > c.old_end
                invariant
                    p <= sorted@.len(),
                    sorted_by_end(sorted@),
                    forall|i: int| p <= i < sorted@.len() ==> sorted@[i].old_end > c.old_end,
                decreases p,
            {
                p = p - 1;
            }
            let ghost before = sorted@;
            proof {
                lemma_sums_insert(before, p as int, c);
                assert(changes@.take(k + 1).drop_last() =~= changes@.take(k as int));
                assert forall|i: int| 0 <= i < p implies (#[trigger] before[i]).old_end <= c.old_end by {
                    if p > 0 {
                        assert(before[p - 1].old_end <= c.old_end);
                        assert(before[i].old_end <= before[p - 1].old_end);
                    }
                }
                lemma_count_ending_by(before, c.old_end, p as int);
                assert(changes@.take(k + 1).last() == c);
            }
            sorted.insert(p, c);
            assert(sorted@ == before.insert(p as int, c));
            k = k + 1;
        }
        assert(changes@.take(changes@.len() as int) =~= changes@);
        let mut ends: Vec<usize> = Vec::new();
        let mut prefix_shift: Vec<i64> = Vec::new();
        let mut cumulative: i64 = 0;
        let mut q: usize = 0;
        while q < sorted.len()
            invariant
                q <= sorted@.len(),
                running_sums_fit(sorted@),
                ends@.len() == q,
                prefix_shift@.len() == q,
                cumulative == total_shift(sorted@.take(q as int)),
                forall|i: int| 0 <= i < q ==> #[trigger] ends@[i] == sorted@[i].old_end,
                forall|i: int| 0 <= i < q ==> #[trigger] prefix_shift@[i] == total_shift(
                    sorted@.take(i + 1),
                ),
            decreases sorted@.len() - q,
        {
            proof {
                assert(sorted@.take(q + 1).drop_last() =~= sorted@.take(q as int));
                assert(i64::MIN <= total_shift(sorted@.take(q + 1)) <= i64::MAX);
            }
            cumulative = cumulative + sorted[q].shift;
            ends.push(sorted[q].old_end);
            prefix_shift.push(cumulative);
            q = q + 1;
        }
        ShiftIndex { ends, prefix_shift, entries: Ghost(sorted@) }
    }

    /// Net shift at `pos`: the sum of the shifts of the changes ending at or
    /// before `pos` (binary search over the sorted ends).
    pub fn shift_at(&self, pos: usize) -> (s: i64)
        ensures
            s == self.shift_model(pos as int),
    {
        proof {
            use_type_invariant(self);
        }
        if self.ends.len() == 0 {
            assert(self.entries@ =~= Seq::<Change>::empty());
            return 0;
        }
        // rightmost change with old_end <= pos: first index whose end exceeds pos
        let mut lo: usize = 0;
        let mut hi: usize = self.ends.len();
        while lo < hi
            invariant
                lo <= hi <= self.ends@.len(),
                self.ends@.len() == self.entries@.len(),
                sorted_by_end(self.entries@),
                forall|i: int| 0 <= i < self.ends@.len() ==> #[trigger] self.ends@[i] == self.entries@[i].old_end,
                forall|i: int| 0 <= i < lo ==> self.entries@[i].old_end <= pos,
                forall|i: int| hi <= i < self.entries@.len() ==> self.entries@[i].old_end > pos,
            decreases hi - lo,
        {
            let mid = lo + (hi - lo) / 2;
            if self.ends[mid] <= pos {
                lo = mid + 1;
            } else {
                hi = mid;
            }
        }
        proof {
            lemma_sorted_prefix_sum(self.entries@, pos as int, lo as int);
        }
        if lo == 0 {
            assert(self.entries@.take(0) =~= Seq::<Change>::empty());
            0
        } else {
            self.prefix_shift[lo - 1]
        }
    }
}

impl Default for ShiftIndex {
    fn default() -> (idx: Self)
        ensures
            forall|pos: int| #[trigger] idx.shift_model(pos) == 0,
    {
        ShiftIndex { ends: Vec::new(), prefix_shift: Vec::new(), entries: Ghost(Seq::empty()) }
    }
}


// =============================================================================
// Delta queries
// =============================================================================

/// Ranges in ascending order, each well formed and none overlapping the next.
pub open spec fn ranges_sorted(rs: Seq<Range<usize>>) -> bool {
    &&& forall|i: int| 0 <= i < rs.len() ==> (#[trigger] rs[i]).start <= rs[i].end
    &&& forall|i: int, j: int| 0 <= i < j < rs.len() ==> rs[i].end <= rs[j].start
}

/// Whether `[start, end)` overlaps one of the ranges.
pub open spec fn overlaps_any(rs: Seq<Range<usize>>, start: int, end: int) -> bool {
    exists|i: int| 0 <= i < rs.len() && start < (#[trigger] rs[i]).end && end > rs[i].start
}

impl Delta {
    /// Incremental scanning pays off when under 30% of the chunks (and fewer
    /// than `MAX_DIRTY_CHUNKS` chunks) are dirty.
    pub fn should_use_incremental(&self) -> (b: bool)
        ensures
            b == (self.total_chunks > 0 && 10 * self.dirty_chunks < 3 * self.total_chunks
                && self.dirty_chunks < MAX_DIRTY_CHUNKS),
    {
        if self.total_chunks == 0 {
            return false;
        }
        let dirty = self.dirty_chunks as u128;
        let total = self.total_chunks as u128;
        dirty * 10 < total * 3 && self.dirty_chunks < MAX_DIRTY_CHUNKS
    }

    /// Build a `ShiftIndex` over this delta's changes.
    pub fn build_shift_index(&self) -> (idx: ShiftIndex)
        requires
            running_sums_fit(sort_by_end(self.changes@)),
        ensures
            forall|pos: int| #[trigger] idx.shift_model(pos) == shift_sum(self.changes@, pos),
    {
        ShiftIndex::from_changes(self.changes.as_slice())
    }

    /// Whether `[start, end)` overlaps a dirty range (binary search; the dirty
    /// ranges are sorted and non-overlapping).
    pub fn overlaps_dirty(&self, start: usize, end: usize) -> (b: bool)
        requires
            ranges_sorted(self.dirty_ranges@),
        ensures
            b == overlaps_any(self.dirty_ranges@, start as int, end as int),
    {
        let rs = &self.dirty_ranges;
        // first range whose end is past `start`
        let mut lo: usize = 0;
        let mut hi: usize = rs.len();
        while lo < hi
            invariant
                lo <= hi <= rs@.len(),
                ranges_sorted(rs@),
                forall|i: int| 0 <= i < lo ==> rs@[i].end <= start,
                forall|i: int| hi <= i < rs@.len() ==> rs@[i].end > start,
            decreases hi - lo,
        {
            let mid = lo + (hi - lo) / 2;
            if rs[mid].end <= start {
                lo = mid + 1;
            } else {
                hi = mid;
            }
        }
        if lo < rs.len() {
            let r = start < rs[lo].end && end > rs[lo].start;
            proof {
                if !r {
                    assert forall|i: int| 0 <= i < rs@.len() implies !(start < (
                    #[trigger] rs@[i]).end && end > rs@[i].start) by {
                        if i > lo {
                            assert(rs@[lo as int].end <= rs@[i].start);
                        }
                    }
                }
            }
            return r;
        }
        false
    }
}


// =============================================================================
// Law: an unchanged text has nothing dirty
// =============================================================================

proof fn lemma_key_count_concat(a: Seq<Chunk>, b: Seq<Chunk>, k: (u64, int))
    ensures
        key_count(a + b, k) == key_count(a, k) + key_count(b, k),
    decreases b.len(),
{
    if b.len() == 0 {
        assert(a + b =~= a);
    } else {
        assert((a + b).drop_last() =~= a + b.drop_last());
        lemma_key_count_concat(a, b.drop_last(), k);
    }
}

proof fn lemma_nth_self(cs: Seq<Chunk>, i: int, j: int)
    requires
        0 <= i <= j < cs.len(),
    ensures
        nth_with_key(cs, chunk_key(cs[j]), key_count(cs.subrange(i, j), chunk_key(cs[j])), i)
            == Some(j),
    decreases j - i,
{
    let k = chunk_key(cs[j]);
    if i == j {
        assert(cs.subrange(i, j) =~= Seq::<Chunk>::empty());
    } else {
        assert(cs.subrange(i, j) =~= seq![cs[i]] + cs.subrange(i + 1, j));
        lemma_key_count_concat(seq![cs[i]], cs.subrange(i + 1, j), k);
        assert(seq![cs[i]].drop_last() =~= Seq::<Chunk>::empty());
        assert(seq![cs[i]].last() == cs[i]);
        assert(key_count(Seq::<Chunk>::empty(), k) == 0);
        assert(key_count(seq![cs[i]], k) == if chunk_key(cs[i]) == k {
            1nat
        } else {
            0nat
        });
        lemma_nth_self(cs, i + 1, j);
    }
}

proof fn lemma_self_alignment(cs: Seq<Chunk>)
    ensures
        alignment(cs, cs) == Seq::new(cs.len(), |j: int| Some(j)),
{
    assert forall|j: int| 0 <= j < cs.len() implies #[trigger] aligned_index(cs, cs, j) == Some(
        j,
    ) by {
        lemma_nth_self(cs, 0, j);
        assert(cs.subrange(0, j) =~= cs.take(j));
    }
    assert(alignment(cs, cs) =~= Seq::new(cs.len(), |j: int| Some(j)));
}

proof fn lemma_identity_pairs(n: nat)
    ensures
        matched_pairs(Seq::new(n, |j: int| Some(j))) == Seq::new(n, |j: int| (j, j)),
    decreases n,
{
    if n > 0 {
        lemma_identity_pairs((n - 1) as nat);
        assert(Seq::new(n, |j: int| Some(j)).drop_last() =~= Seq::new(
            (n - 1) as nat,
            |j: int| Some(j),
        ));
        assert(Seq::new(n, |j: int| (j, j)) =~= Seq::new((n - 1) as nat, |j: int| (j, j)).push(
            ((n - 1) as int, (n - 1) as int),
        ));
    }
}

pub open spec fn is_identity(v: Seq<(int, int)>) -> bool {
    forall|t: int| 0 <= t < v.len() ==> #[trigger] v[t] == (t, t)
}

proof fn lemma_identity_dp(v: Seq<(int, int)>, i: int)
    requires
        is_identity(v),
        0 <= i < v.len(),
    ensures
        lis_dp(v, i) == i + 1,
    decreases i, 1int,
{
    lemma_identity_best(v, i, i);
}

proof fn lemma_identity_best(v: Seq<(int, int)>, i: int, j: int)
    requires
        is_identity(v),
        0 <= j <= i < v.len(),
    ensures
        lis_best(v, i, j) == j,
        j > 0 ==> lis_prev(v, i, j) == Some(j - 1),
    decreases i, 0int, j,
{
    if j > 0 {
        lemma_identity_best(v, i, j - 1);
        lemma_identity_dp(v, j - 1);
        assert(v[j - 1] == (j - 1, j - 1));
        assert(v[i] == (i, i));
    }
}

proof fn lemma_identity_argmax(v: Seq<(int, int)>, k: int)
    requires
        is_identity(v),
        1 <= k <= v.len(),
    ensures
        lis_argmax(v, k) == k - 1,
    decreases k,
{
    if k > 1 {
        lemma_identity_argmax(v, k - 1);
        lemma_identity_dp(v, k - 1);
        lemma_identity_dp(v, k - 2);
    }
}

proof fn lemma_identity_chain(v: Seq<(int, int)>, i: int)
    requires
        is_identity(v),
        0 <= i < v.len(),
    ensures
        lis_chain(v, i) == Seq::new((i + 1) as nat, |t: int| t),
    decreases i,
{
    if i == 0 {
        assert(lis_prev(v, 0, 0) == None::<int>);
        assert(v[0] == (0int, 0int));
        assert(lis_chain(v, 0) =~= Seq::new(1, |t: int| t));
    } else {
        lemma_identity_best(v, i, i);
        lemma_identity_chain(v, i - 1);
        assert(v[i] == (i, i));
        assert(Seq::new((i + 1) as nat, |t: int| t) =~= Seq::new(i as nat, |t: int| t).push(i));
    }
}

proof fn lemma_nothing_dirty(n: int, kept: Seq<int>)
    requires
        n >= 0,
        forall|t: int| 0 <= t < n ==> kept.contains(t),
    ensures
        dirty_indices(n, kept).len() == 0,
    decreases n,
{
    if n > 0 {
        lemma_nothing_dirty(n - 1, kept);
    }
}

/// Rescanning an unchanged text finds nothing dirty: diffing the chunks of a
/// text against the same text yields no dirty chunk, no dirty range and no
/// change (for any text that has chunks, or is empty).
pub proof fn law_unchanged_text_is_clean(s: Seq<char>)
    requires
        spec_chunk_text(s).len() > 0 || s.len() == 0,
    ensures
        spec_delta(spec_chunk_text(s), s).dirty_chunks == 0,
        spec_delta(spec_chunk_text(s), s).dirty_ranges.len() == 0,
        spec_delta(spec_chunk_text(s), s).changes.len() == 0,
        spec_delta(spec_chunk_text(s), s).total_chunks == spec_chunk_text(s).len(),
{
    let cs = spec_chunk_text(s);
    if cs.len() > 0 {
        lemma_self_alignment(cs);
        lemma_identity_pairs(cs.len());
        let v = Seq::new(cs.len(), |j: int| (j, j));
        assert(is_identity(v));
        lemma_identity_argmax(v, v.len() as int);
        lemma_identity_chain(v, v.len() - 1);
        let kept = spec_lis(v);
        assert(kept == Seq::new(cs.len(), |t: int| t));
        assert forall|t: int| 0 <= t < cs.len() implies kept.contains(t) by {
            assert(kept[t] == t);
        }
        lemma_nothing_dirty(cs.len() as int, kept);
        assert(alignment(cs, cs) == Seq::new(cs.len(), |j: int| Some(j)));
        assert(matched_pairs(alignment(cs, cs)) == v);
        assert forall|t: int| 0 <= t < kept.len() implies #[trigger] aligned_index(cs, cs, kept[t])
            == Some(kept[t]) && cs[kept[t]] == cs[kept[t]] by {
            assert(kept[t] == t);
            assert(alignment(cs, cs)[t] == aligned_index(cs, cs, t));
        }
        lemma_no_anchor_shift(cs, cs, kept, kept.len() as int);
        let dirty = dirty_chunk_indices(cs, cs);
        assert(dirty.len() == 0);
        let padded = dirty.map_values(|d: int| padded_range(cs, d, byte_len(s) as int));
        assert(padded =~= Seq::<(int, int)>::empty());
    }
}


// =============================================================================
// Shiftable items
// =============================================================================

/// Items that carry a byte span in the scanned text.
pub trait HasSpan: Sized {
    /// Start of the span.
    spec fn span_start(&self) -> usize;

    /// End of the span.
    spec fn span_end(&self) -> usize;

    /// The same item with its span replaced.
    spec fn with_span(&self, start: usize, end: usize) -> Self;

    /// Replacing the span sets exactly the span; a second replacement
    /// overrides the first.
    proof fn lemma_with_span(&self, s1: usize, e1: usize, s2: usize, e2: usize)
        ensures
            self.with_span(s1, e1).span_start() == s1,
            self.with_span(s1, e1).span_end() == e1,
            self.with_span(s1, e1).with_span(s2, e2) == self.with_span(s2, e2),
            self.with_span(self.span_start(), self.span_end()) == *self,
    ;

    fn start(&self) -> (r: usize)
        ensures
            r == self.span_start(),
    ;

    fn end(&self) -> (r: usize)
        ensures
            r == self.span_end(),
    ;

    fn set_start(&mut self, start: usize)
        ensures
            *final(self) == old(self).with_span(start, old(self).span_end()),
    ;

    fn set_end(&mut self, end: usize)
        ensures
            *final(self) == old(self).with_span(old(self).span_start(), end),
    ;
}

pub open spec fn clamp_nonneg(x: int) -> int {
    if x < 0 {
        0
    } else {
        x
    }
}

/// An item moved by the net shift at its start (unchanged when the shift is 0).
pub open spec fn shift_item<T: HasSpan>(x: T, changes: Seq<Change>) -> T {
    let sh = shift_sum(changes, x.span_start() as int);
    if sh == 0 {
        x
    } else {
        x.with_span(
            clamp_nonneg(x.span_start() + sh) as usize,
            clamp_nonneg(x.span_end() + sh) as usize,
        )
    }
}

/// Items outside the dirty ranges, each shifted; items touching a dirty range
/// are dropped.
pub open spec fn shift_all<T: HasSpan>(
    items: Seq<T>,
    ranges: Seq<Range<usize>>,
    changes: Seq<Change>,
) -> Seq<T>
    decreases items.len(),
{
    if items.len() == 0 {
        seq![]
    } else {
        let r = shift_all(items.drop_last(), ranges, changes);
        let x = items.last();
        if overlaps_any(ranges, x.span_start() as int, x.span_end() as int) {
            r
        } else {
            r.push(shift_item(x, changes))
        }
    }
}

/// Items whose shifted span fits in an `i64`.
pub open spec fn shiftable<T: HasSpan>(items: Seq<T>, delta: Delta) -> bool {
    forall|k: int|
        0 <= k < items.len() && !overlaps_any(
            delta.dirty_ranges@,
            (#[trigger] items[k]).span_start() as int,
            items[k].span_end() as int,
        ) ==> {
            let sh = shift_sum(delta.changes@, items[k].span_start() as int);
            &&& items[k].span_start() <= i64::MAX
            &&& items[k].span_end() <= i64::MAX
            &&& items[k].span_start() + sh <= i64::MAX
            &&& items[k].span_end() + sh <= i64::MAX
        }
}

/// Drop the items that touch a dirty range and shift the others by the net
/// shift of the changes before them.
pub fn shift_items<T: HasSpan>(items: &mut Vec<T>, delta: &Delta)
    requires
        ranges_sorted(delta.dirty_ranges@),
        running_sums_fit(sort_by_end(delta.changes@)),
        shiftable(old(items)@, *delta),
    ensures
        final(items)@ == shift_all(old(items)@, delta.dirty_ranges@, delta.changes@),
{
    let shift_index = delta.build_shift_index();
    let ghost all = items@;
    let total = items.len();
    let mut src: Vec<T> = Vec::new();
    std::mem::swap(items, &mut src);
    assert(src@ == all);
    // reverse into a stack so that popping yields the original order
    let mut stack: Vec<T> = Vec::new();
    while src.len() > 0
        invariant
            src@.len() + stack@.len() == all.len(),
            forall|t: int| 0 <= t < src@.len() ==> #[trigger] src@[t] == all[t],
            forall|t: int| 0 <= t < stack@.len() ==> #[trigger] stack@[t] == all[(all.len() - 1 - t) as int],
        decreases src@.len(),
    {
        let ghost before = src@;
        match src.pop() {
            Some(x) => {
                let ghost old_stack = stack@;
                stack.push(x);
                assert forall|t: int| 0 <= t < stack@.len() implies #[trigger] stack@[t] == all[(
                all.len() - 1 - t) as int] by {
                    if t < old_stack.len() {
                        assert(stack@[t] == old_stack[t]);
                    }
                }
            },
            None => {},
        }
    }
    let mut k: usize = 0;
    while stack.len() > 0
        invariant
            ranges_sorted(delta.dirty_ranges@),
            forall|pos: int| #[trigger] shift_index.shift_model(pos) == shift_sum(delta.changes@, pos),
            shiftable(all, *delta),
            total == all.len(),
            k + stack@.len() == all.len(),
            forall|t: int| 0 <= t < stack@.len() ==> #[trigger] stack@[t] == all[(all.len() - 1 - t) as int],
            items@ == shift_all(all.take(k as int), delta.dirty_ranges@, delta.changes@),
            0 <= k <= all.len(),
        decreases stack@.len(),
    {
        let ghost before_stack = stack@;
        let mut x = stack.pop().unwrap();
        assert(x == all[k as int]) by {
            assert(before_stack[before_stack.len() - 1] == all[(all.len() - 1 - (before_stack.len()
                - 1)) as int]);
        }
        assert forall|t: int| 0 <= t < stack@.len() implies #[trigger] stack@[t] == all[(all.len()
            - 1 - t) as int] by {
            assert(stack@[t] == before_stack[t]);
        }
        assert(all.take(k + 1).drop_last() =~= all.take(k as int));
        assert(all.take(k + 1).last() == all[k as int]);
        let s0 = x.start();
        let e0 = x.end();
        if !delta.overlaps_dirty(s0, e0) {
            let shift = shift_index.shift_at(s0);
            if shift != 0 {
                let ns = s0 as i64 + shift;
                let ne = e0 as i64 + shift;
                let new_start: usize = if ns < 0 {
                    0
                } else {
                    #[verifier::truncate]
                    (ns as usize)
                };
                let new_end: usize = if ne < 0 {
                    0
                } else {
                    #[verifier::truncate]
                    (ne as usize)
                };
                let ghost x0 = x;
                x.set_start(new_start);
                x.set_end(new_end);
                proof {
                    x0.lemma_with_span(new_start, x0.span_end(), new_start, new_end);
                    x0.with_span(new_start, x0.span_end()).lemma_with_span(new_start, new_end, 0, 0);
                }
                assert(x == x0.with_span(new_start, new_end));
            }
            items.push(x);
        }
        k = k + 1;
    }
    assert(all.take(all.len() as int) =~= all);
}


// =============================================================================
// Dirty text extraction
// =============================================================================

pub open spec fn clamp_to(x: int, len: int) -> int {
    if x < len {
        x
    } else {
        len
    }
}

/// The dirty ranges clipped to the text length, keeping the non-empty ones.
pub open spec fn dirty_slices(rs: Seq<Range<usize>>, len: int) -> Seq<(int, int)>
    decreases rs.len(),
{
    if rs.len() == 0 {
        seq![]
    } else {
        let r = dirty_slices(rs.drop_last(), len);
        let a = clamp_to(rs.last().start as int, len);
        let b = clamp_to(rs.last().end as int, len);
        if a < b {
            r.push((a, b))
        } else {
            r
        }
    }
}

/// Every non-empty clipped dirty range starts and ends on a character boundary.
pub open spec fn dirty_on_boundaries(rs: Seq<Range<usize>>, bytes: Seq<u8>) -> bool {
    forall|k: int|
        0 <= k < rs.len() && clamp_to((#[trigger] rs[k]).start as int, bytes.len() as int)
            < clamp_to(rs[k].end as int, bytes.len() as int) ==> is_char_boundary(
            bytes,
            clamp_to(rs[k].start as int, bytes.len() as int),
        ) && is_char_boundary(bytes, clamp_to(rs[k].end as int, bytes.len() as int))
}

/// The text of each dirty range (clipped to the text, empty ranges skipped).
pub fn extract_dirty_text<'a>(text: &'a str, delta: &Delta) -> (out: Vec<(Range<usize>, &'a str)>)
    requires
        dirty_on_boundaries(delta.dirty_ranges@, text.spec_bytes()),
    ensures
        out@.len() == dirty_slices(delta.dirty_ranges@, text.spec_bytes().len() as int).len(),
        forall|k: int|
            0 <= k < out@.len() ==> {
                let sl = dirty_slices(delta.dirty_ranges@, text.spec_bytes().len() as int)[k];
                &&& (#[trigger] out@[k]).0.start == sl.0
                &&& out@[k].0.end == sl.1
                &&& out@[k].1.spec_bytes() == text.spec_bytes().subrange(sl.0, sl.1)
            },
{
    let ghost bytes = text.spec_bytes();
    let len = text.as_bytes().len();
    let rs = &delta.dirty_ranges;
    let mut out: Vec<(Range<usize>, &'a str)> = Vec::new();
    let mut k: usize = 0;
    while k < rs.len()
        invariant
            k <= rs@.len(),
            len == bytes.len(),
            bytes == text.spec_bytes(),
            dirty_on_boundaries(rs@, bytes),
            out@.len() == dirty_slices(rs@.take(k as int), len as int).len(),
            forall|q: int|
                0 <= q < out@.len() ==> {
                    let sl = dirty_slices(rs@.take(k as int), len as int)[q];
                    &&& (#[trigger] out@[q]).0.start == sl.0
                    &&& out@[q].0.end == sl.1
                    &&& out@[q].1.spec_bytes() == bytes.subrange(sl.0, sl.1)
                },
        decreases rs@.len() - k,
    {
        assert(rs@.take(k + 1).drop_last() =~= rs@.take(k as int));
        assert(rs@.take(k + 1).last() == rs@[k as int]);
        let start = if rs[k].start < len {
            rs[k].start
        } else {
            len
        };
        let end = if rs[k].end < len {
            rs[k].end
        } else {
            len
        };
        if start < end {
            let piece = str_slice(text, start, end);
            out.push((Range { start, end }, piece));
        }
        k = k + 1;
    }
    assert(rs@.take(rs@.len() as int) =~= rs@);
    out
}

// =============================================================================
// Persisted state
// =============================================================================

/// Cached extracted items from a previous scan
#[derive(Debug, Clone, Default)]
pub struct ExtractedItems {
    pub implicit: Vec<crate::implicit::ImplicitMention>,
}

/// Full incremental state persisted between scans
#[derive(Debug, Clone, Default)]
pub struct IncrementalState {
    /// Chunked representation of the last scanned text
    pub chunks: Vec<Chunk>,
    /// Cached extracted items
    pub extracted_items: ExtractedItems,
}

// =============================================================================
// Inserting a paragraph at the top
// =============================================================================

/// Paragraph splitting only looks ahead: after a prefix `x`, it splits `x + y`
/// as it splits `y`, shifted.
proof fn lemma_paragraphs_shift(x: Seq<char>, y: Seq<char>, i: int, st: int)
    requires
        0 <= i,
    ensures
        paragraph_spans_from(x + y, x.len() + i, x.len() + st) == shift_spans(
            paragraph_spans_from(y, i, st),
            x.len() as int,
        ),
    decreases y.len() - i,
{
    let t = x + y;
    let m = x.len() as int;
    if i + 1 >= y.len() {
        assert(shift_spans(seq![(st, y.len() as int)], m) =~= seq![(st + m, t.len() as int)]);
    } else {
        assert(t[m + i] == y[i]);
        assert(t[m + i + 1] == y[i + 1]);
        if y[i] == '\n' && y[i + 1] == '\n' {
            lemma_paragraphs_shift(x, y, i + 2, i + 2);
            let rest = paragraph_spans_from(y, i + 2, i + 2);
            assert(shift_spans(seq![(st, i)] + rest, m) =~= seq![(st + m, i + m)] + shift_spans(rest, m));
        } else {
            lemma_paragraphs_shift(x, y, i + 1, st);
        }
    }
}

/// A first line without line breaks is a paragraph of its own.
proof fn lemma_first_paragraph(t: Seq<char>, plen: int, i: int)
    requires
        0 <= i <= plen,
        plen + 2 <= t.len(),
        forall|k: int| 0 <= k < plen ==> t[k] != '\n',
        t[plen] == '\n',
        t[plen + 1] == '\n',
    ensures
        paragraph_spans_from(t, i, 0) == seq![(0, plen)] + paragraph_spans_from(t, plen + 2, plen + 2),
    decreases plen - i,
{
    if i < plen {
        lemma_first_paragraph(t, plen, i + 1);
    }
}

proof fn lemma_shift_concat(a: Seq<(int, int)>, b: Seq<(int, int)>, m: int)
    ensures
        shift_spans(a + b, m) == shift_spans(a, m) + shift_spans(b, m),
{
    assert(shift_spans(a + b, m) =~= shift_spans(a, m) + shift_spans(b, m));
}

proof fn lemma_part_shift(x: Seq<char>, y: Seq<char>, a: int, b: int)
    requires
        0 <= a <= b <= y.len(),
    ensures
        part_chunk_spans(x + y, a + x.len(), b + x.len()) == shift_spans(part_chunk_spans(y, a, b), x.len() as int),
{
    let m = x.len() as int;
    let t = x + y;
    assert(t.subrange(a + m, b + m) =~= y.subrange(a, b));
    if a == b {
        assert(shift_spans(seq![], m) =~= Seq::<(int, int)>::empty());
    } else if byte_len(y.subrange(a, b)) <= MAX_CHUNK_SIZE {
        assert(shift_spans(seq![(a, b)], m) =~= seq![(a + m, b + m)]);
    } else {
        let ss = sentence_spans(y.subrange(a, b));
        assert(shift_spans(ss, a + m) =~= shift_spans(shift_spans(ss, a), m));
    }
}

proof fn lemma_chunk_spans_shift(x: Seq<char>, y: Seq<char>, head: (int, int), parts: Seq<(int, int)>)
    requires
        spans_within(parts, 0, y.len() as int),
    ensures
        chunk_spans_of(x + y, seq![head] + shift_spans(parts, x.len() as int)) == part_chunk_spans(
            x + y,
            head.0,
            head.1,
        ) + shift_spans(chunk_spans_of(y, parts), x.len() as int),
    decreases parts.len(),
{
    let m = x.len() as int;
    let t = x + y;
    let q = seq![head] + shift_spans(parts, m);
    if parts.len() == 0 {
        assert(q =~= seq![head]);
        assert(q.drop_last() =~= Seq::<(int, int)>::empty());
        assert(shift_spans(chunk_spans_of(y, parts), m) =~= Seq::<(int, int)>::empty());
        assert(q.last() == head);
        assert(chunk_spans_of(t, q.drop_last()) =~= Seq::<(int, int)>::empty());
        assert(chunk_spans_of(t, q) == chunk_spans_of(t, q.drop_last()) + part_chunk_spans(t, head.0, head.1));
        assert(Seq::<(int, int)>::empty() + part_chunk_spans(t, head.0, head.1) =~= part_chunk_spans(t, head.0, head.1));
        assert(part_chunk_spans(t, head.0, head.1) + Seq::<(int, int)>::empty() =~= part_chunk_spans(t, head.0, head.1));
    } else {
        let init = parts.drop_last();
        assert(spans_within(init, 0, y.len() as int)) by {
            assert forall|k: int| 0 <= k < init.len() implies 0 <= (#[trigger] init[k]).0 <= init[k].1 <= y.len() by {
                assert(init[k] == parts[k]);
            }
        }
        lemma_chunk_spans_shift(x, y, head, init);
        let last = parts.last();
        assert(last == parts[parts.len() - 1]);
        assert(q.drop_last() =~= seq![head] + shift_spans(init, m));
        assert(q.last() == (last.0 + m, last.1 + m));
        lemma_part_shift(x, y, last.0, last.1);
        lemma_shift_concat(chunk_spans_of(y, init), part_chunk_spans(y, last.0, last.1), m);
        assert(chunk_spans_of(t, q) =~= part_chunk_spans(t, head.0, head.1) + shift_spans(
            chunk_spans_of(y, parts),
            m,
        ));
    }
}

/// The chunk spans of a one-line paragraph `p` put before `s`: `p` itself,
/// then the spans of `s`, shifted.
proof fn lemma_prepended_spans(p: Seq<char>, s: Seq<char>)
    requires
        p.len() > 0,
        forall|k: int| 0 <= k < p.len() ==> p[k] != '\n',
        byte_len(p) <= MAX_CHUNK_SIZE,
    ensures
        chunk_spans(p + seq!['\n', '\n'] + s) == seq![(0, p.len() as int)] + shift_spans(
            chunk_spans(s),
            (p.len() + 2) as int,
        ),
{
    let x = p + seq!['\n', '\n'];
    let t = x + s;
    let m = x.len() as int;
    assert forall|k: int| 0 <= k < p.len() implies t[k] != '\n' by {
        assert(t[k] == p[k]);
    }
    assert(t[p.len() as int] == '\n');
    assert(t[(p.len() + 1) as int] == '\n');
    lemma_first_paragraph(t, p.len() as int, 0);
    lemma_paragraphs_shift(x, s, 0, 0);
    lemma_paragraph_spans_within(s, 0, 0);
    let parts = paragraph_spans_from(s, 0, 0);
    lemma_chunk_spans_shift(x, s, (0, p.len() as int), parts);
    assert(t.subrange(0, p.len() as int) =~= p);
    assert(part_chunk_spans(t, 0, p.len() as int) =~= seq![(0, p.len() as int)]);
}

/// The key of the chunk over `[a, b)`: the hash and byte length of its text.
proof fn lemma_chunk_key(s: Seq<char>, a: int, b: int)
    requires
        0 <= a <= b <= s.len(),
        byte_len(s) <= usize::MAX,
    ensures
        chunk_key(chunk_of(s, (a, b))) == (content_hash(encode_utf8(s.subrange(a, b))), byte_len(
            s.subrange(a, b),
        ) as int),
{
    lemma_encode_subrange(s, a, b);
    lemma_byte_offset_mono(s, a, b);
}

/// Putting a one-line paragraph `p` before `s` adds its chunk in front and
/// keeps the keys of the chunks of `s`.
proof fn lemma_prepended_keys(p: Seq<char>, s: Seq<char>)
    requires
        p.len() > 0,
        forall|k: int| 0 <= k < p.len() ==> p[k] != '\n',
        byte_len(p) <= MAX_CHUNK_SIZE,
        byte_len(p + seq!['\n', '\n'] + s) <= usize::MAX,
    ensures
        ({
            let new = spec_chunk_text(p + seq!['\n', '\n'] + s);
            let old = spec_chunk_text(s);
            &&& new.len() == old.len() + 1
            &&& chunk_key(new[0]) == (content_hash(encode_utf8(p)), byte_len(p) as int)
            &&& forall|j: int| 0 <= j < old.len() ==> chunk_key(#[trigger] new[j + 1]) == chunk_key(old[j])
        }),
{
    let x = p + seq!['\n', '\n'];
    let t = x + s;
    let m = x.len() as int;
    lemma_prepended_spans(p, s);
    lemma_chunk_spans_within(s);
    lemma_byte_len_concat(x, s);
    let st = chunk_spans(t);
    let ss = chunk_spans(s);
    let new = spec_chunk_text(t);
    let old = spec_chunk_text(s);
    assert(st == seq![(0, p.len() as int)] + shift_spans(ss, m));
    assert(new[0] == chunk_of(t, st[0]));
    assert(st[0] == (0int, p.len() as int));
    lemma_chunk_key(t, 0, p.len() as int);
    assert(t.subrange(0, p.len() as int) =~= p);
    assert forall|j: int| 0 <= j < old.len() implies chunk_key(#[trigger] new[j + 1]) == chunk_key(old[j]) by {
        let (a, b) = ss[j];
        assert(0 <= a <= b <= s.len());
        assert(st[j + 1] == (a + m, b + m));
        assert(new[j + 1] == chunk_of(t, st[j + 1]));
        assert(old[j] == chunk_of(s, ss[j]));
        lemma_chunk_key(t, a + m, b + m);
        lemma_chunk_key(s, a, b);
        assert(t.subrange(a + m, b + m) =~= s.subrange(a, b));
    }
}

proof fn lemma_key_count_prepend(c: Chunk, a: Seq<Chunk>, k: (u64, int))
    ensures
        key_count(seq![c] + a, k) == (if chunk_key(c) == k {
            1nat
        } else {
            0nat
        }) + key_count(a, k),
{
    lemma_key_count_concat(seq![c], a, k);
    assert(seq![c].drop_last() =~= Seq::<Chunk>::empty());
    assert(seq![c].last() == c);
    assert(key_count(Seq::<Chunk>::empty(), k) == 0);
}

proof fn lemma_key_count_keys(a: Seq<Chunk>, b: Seq<Chunk>, k: (u64, int))
    requires
        a.len() == b.len(),
        forall|i: int| 0 <= i < a.len() ==> chunk_key(#[trigger] a[i]) == chunk_key(b[i]),
    ensures
        key_count(a, k) == key_count(b, k),
    decreases a.len(),
{
    if a.len() > 0 {
        assert forall|i: int| 0 <= i < a.drop_last().len() implies chunk_key(#[trigger] a.drop_last()[i])
            == chunk_key(b.drop_last()[i]) by {
            assert(a.drop_last()[i] == a[i] && b.drop_last()[i] == b[i]);
        }
        lemma_key_count_keys(a.drop_last(), b.drop_last(), k);
        assert(chunk_key(a.last()) == chunk_key(b.last()));
    }
}

proof fn lemma_nth_absent(cs: Seq<Chunk>, k: (u64, int), c: nat, i: int)
    requires
        forall|q: int| 0 <= q < cs.len() ==> chunk_key(#[trigger] cs[q]) != k,
    ensures
        nth_with_key(cs, k, c, i) is None,
    decreases cs.len() - i,
{
    if 0 <= i < cs.len() {
        lemma_nth_absent(cs, k, c, i + 1);
    }
}

/// When the new chunks are one fresh chunk followed by chunks with the keys
/// of the old ones, the fresh one is unmatched and each other is matched to
/// the old chunk it repeats.
proof fn lemma_shifted_alignment(old: Seq<Chunk>, new: Seq<Chunk>)
    requires
        new.len() == old.len() + 1,
        forall|j: int| 0 <= j < old.len() ==> chunk_key(#[trigger] new[j + 1]) == chunk_key(old[j]),
        forall|j: int| 0 <= j < old.len() ==> chunk_key(#[trigger] old[j]) != chunk_key(new[0]),
    ensures
        matched_pairs(alignment(old, new)) == Seq::new(old.len(), |j: int| (j + 1, j)),
{
    let al = alignment(old, new);
    lemma_nth_absent(old, chunk_key(new[0]), 0, 0);
    assert(key_count(new.take(0), chunk_key(new[0])) == 0) by {
        assert(new.take(0) =~= Seq::<Chunk>::empty());
    }
    assert(al[0] is None);
    assert forall|j: int| 0 <= j < old.len() implies #[trigger] al[j + 1] == Some(j) by {
        let k = chunk_key(old[j]);
        assert(new.take(j + 1) =~= seq![new[0]] + new.subrange(1, j + 1));
        lemma_key_count_prepend(new[0], new.subrange(1, j + 1), k);
        assert forall|i: int| 0 <= i < j implies chunk_key(#[trigger] new.subrange(1, j + 1)[i]) == chunk_key(
            old.subrange(0, j)[i],
        ) by {
            assert(new.subrange(1, j + 1)[i] == new[i + 1]);
            assert(old.subrange(0, j)[i] == old[i]);
        }
        lemma_key_count_keys(new.subrange(1, j + 1), old.subrange(0, j), k);
        lemma_nth_self(old, 0, j);
    }
    lemma_pairs_prefix(al, old.len() as int, old.len() as int);
    assert(al.take((old.len() + 1) as int) =~= al);
}

proof fn lemma_pairs_prefix(al: Seq<Option<int>>, n: int, q: int)
    requires
        al.len() == n + 1,
        0 <= q <= n,
        al[0] is None,
        forall|j: int| 0 <= j < n ==> #[trigger] al[j + 1] == Some(j),
    ensures
        matched_pairs(al.take(q + 1)) == Seq::new(q as nat, |j: int| (j + 1, j)),
    decreases q,
{
    if q == 0 {
        assert(al.take(1).drop_last() =~= Seq::<Option<int>>::empty());
        assert(al.take(1).last() == al[0]);
        assert(matched_pairs(Seq::<Option<int>>::empty()) =~= Seq::<(int, int)>::empty());
        assert(matched_pairs(al.take(1)) =~= Seq::<(int, int)>::empty());
    } else {
        lemma_pairs_prefix(al, n, q - 1);
        assert(al.take(q + 1).drop_last() =~= al.take(q));
        assert(al.take(q + 1).last() == al[q]);
        assert(al[(q - 1) + 1] == Some(q - 1));
        assert(matched_pairs(al.take(q + 1)) =~= Seq::new(q as nat, |j: int| (j + 1, j)));
    }
}

/// A strictly increasing list of at least `n` positions below `n` is
/// `0, 1, ..., n - 1`.
proof fn lemma_full_chain(w: Seq<int>, n: int)
    requires
        0 <= n,
        forall|k: int| 0 <= k < w.len() ==> 0 <= #[trigger] w[k] < n,
        forall|a: int, b: int| 0 <= a < b < w.len() ==> #[trigger] w[a] < #[trigger] w[b],
        w.len() >= n,
    ensures
        w.len() == n,
        forall|k: int| 0 <= k < w.len() ==> #[trigger] w[k] == k,
{
    if w.len() > n {
        lemma_chain_floor(w, n);
        assert(w[n] < n);
    }
    assert(w.len() == n);
    assert forall|k: int| 0 <= k < w.len() implies #[trigger] w[k] == k by {
        lemma_chain_floor(w, k);
        lemma_chain_ceiling(w, n, k);
    }
}

proof fn lemma_chain_floor(w: Seq<int>, k: int)
    requires
        0 <= k < w.len(),
        forall|q: int| 0 <= q < w.len() ==> 0 <= #[trigger] w[q],
        forall|a: int, b: int| 0 <= a < b < w.len() ==> #[trigger] w[a] < #[trigger] w[b],
    ensures
        w[k] >= k,
    decreases k,
{
    if k > 0 {
        lemma_chain_floor(w, k - 1);
        assert(w[k - 1] < w[k]);
    }
}

proof fn lemma_chain_ceiling(w: Seq<int>, n: int, k: int)
    requires
        0 <= k < w.len(),
        w.len() == n,
        forall|q: int| 0 <= q < w.len() ==> #[trigger] w[q] < n,
        forall|a: int, b: int| 0 <= a < b < w.len() ==> #[trigger] w[a] < #[trigger] w[b],
    ensures
        w[k] <= k,
    decreases w.len() - k,
{
    if k < w.len() - 1 {
        lemma_chain_ceiling(w, n, k + 1);
        assert(w[k] < w[k + 1]);
    }
}

proof fn lemma_dirty_just_first(kept: Seq<int>, n: int, q: int)
    requires
        kept == Seq::new(n as nat, |k: int| k + 1),
        1 <= q <= n + 1,
    ensures
        dirty_indices(q, kept) == seq![0int],
    decreases q,
{
    if q == 1 {
        assert(!kept.contains(0)) by {
            if kept.contains(0) {
                let i = choose|i: int| 0 <= i < kept.len() && kept[i] == 0;
            }
        }
        assert(dirty_indices(0, kept) =~= Seq::<int>::empty());
        assert(dirty_indices(1, kept) =~= seq![0int]);
    } else {
        lemma_dirty_just_first(kept, n, q - 1);
        assert(kept[q - 2] == q - 1);
        assert(kept.contains(q - 1));
    }
}

/// Inserting a paragraph at the top dirties only that paragraph: when a
/// one-line paragraph `p` (whose content no existing chunk repeats) is put
/// before `s` with a blank line, the delta against the chunks of `s` has one
/// more chunk and exactly one dirty chunk.
pub proof fn law_insert_at_top_dirties_one(p: Seq<char>, s: Seq<char>)
    requires
        p.len() > 0,
        forall|k: int| 0 <= k < p.len() ==> p[k] != '\n',
        byte_len(p) <= MAX_CHUNK_SIZE,
        byte_len(p + seq!['\n', '\n'] + s) <= usize::MAX,
        spec_chunk_text(s).len() > 0,
        forall|j: int|
            0 <= j < spec_chunk_text(s).len() ==> chunk_key(#[trigger] spec_chunk_text(s)[j]) != (
            content_hash(encode_utf8(p)),
            byte_len(p) as int,
        ),
    ensures
        spec_delta(spec_chunk_text(s), p + seq!['\n', '\n'] + s).dirty_chunks == 1,
        spec_delta(spec_chunk_text(s), p + seq!['\n', '\n'] + s).total_chunks == spec_chunk_text(s).len() + 1,
{
    let t = p + seq!['\n', '\n'] + s;
    let old = spec_chunk_text(s);
    let new = spec_chunk_text(t);
    let n = old.len() as int;
    lemma_prepended_keys(p, s);
    lemma_shifted_alignment(old, new);
    let v = matched_pairs(alignment(old, new));
    assert(v == Seq::new(n as nat, |j: int| (j + 1, j)));
    let c = Seq::new(n as nat, |j: int| j);
    assert(is_increasing_chain(v, c));
    law_lis_is_longest(v, c);
    let w = choose|w: Seq<int>| is_increasing_chain(v, w) && chain_firsts(v, w) == spec_lis(v);
    lemma_full_chain(w, n);
    let kept = spec_lis(v);
    assert(kept =~= Seq::new(n as nat, |k: int| k + 1)) by {
        assert forall|k: int| 0 <= k < kept.len() implies kept[k] == k + 1 by {
            assert(kept[k] == v[w[k]].0);
        }
    }
    lemma_dirty_just_first(kept, n, n + 1);
    assert(dirty_chunk_indices(old, new) == seq![0int]);
}

} // verus!
