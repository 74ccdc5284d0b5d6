//! Retrieval support: overlapping chunks of a document for embedding, and the
//! embedding models offered.
//!
//! Chunk positions are character indices.

use vstd::prelude::*;

use crate::text::{
    byte_len, char_is_whitespace, decimal, push_decimal, str_byte_len, str_chars, str_eq,
    string_from_chars, string_push, unicode_white_space,
};

verus! {

/// A chunk of text with position information
#[derive(Debug, Clone)]
pub struct Chunk {
    pub text: String,
    pub start: usize,
    pub end: usize,
    pub index: usize,
}

/// Text chunking configuration
#[derive(Debug, Clone, Copy)]
pub struct ChunkConfig {
    /// Maximum chunk size in characters
    pub max_size: usize,
    /// Overlap between chunks in characters
    pub overlap: usize,
    /// Minimum chunk size (avoid tiny chunks), compared with the chunk's
    /// length in bytes
    pub min_size: usize,
}

impl Default for ChunkConfig {
    fn default() -> (c: Self)
        ensures
            c == (ChunkConfig { max_size: 512, overlap: 64, min_size: 50 }),
    {
        ChunkConfig { max_size: 512, overlap: 64, min_size: 50 }
    }
}

// =============================================================================
// Specification
// =============================================================================

pub open spec fn para_break_at(s: Seq<char>, i: int) -> bool {
    i + 1 < s.len() && s[i] == '\n' && s[i + 1] == '\n'
}

pub open spec fn sentence_break_at(s: Seq<char>, i: int) -> bool {
    (s[i] == '.' || s[i] == '!' || s[i] == '?') && i + 1 < s.len() && unicode_white_space(s[i + 1])
}

pub open spec fn word_break_at(s: Seq<char>, i: int) -> bool {
    unicode_white_space(s[i])
}

/// The last index in `[lo, j)` where a break of kind `kind` (0 paragraph,
/// 1 sentence, 2 word) sits.
pub open spec fn last_break(s: Seq<char>, kind: int, lo: int, j: int) -> Option<int>
    decreases j - lo,
{
    if j <= lo {
        None
    } else {
        let i = j - 1;
        let hit = if kind == 0 {
            para_break_at(s, i)
        } else if kind == 1 {
            sentence_break_at(s, i)
        } else {
            word_break_at(s, i)
        };
        if hit {
            Some(i)
        } else {
            last_break(s, kind, lo, i)
        }
    }
}

/// `i + 2` (just past a two-character break at `i`), but no further than `end`.
pub open spec fn past_break(i: int, end: int) -> int {
    if i + 2 <= end {
        i + 2
    } else {
        end
    }
}

/// Where a chunk `[start, end)` ends: after the last paragraph break in its
/// second half, else after the last sentence end followed by whitespace,
/// else after the last whitespace, else at `end`; never past `end`, so a
/// chunk holds at most `max_size` characters.
pub open spec fn break_point(s: Seq<char>, start: int, end: int, max_size: int) -> int {
    let lo = start + max_size / 2;
    match last_break(s, 0, lo, end) {
        Some(i) => past_break(i, end),
        None => match last_break(s, 1, lo, end) {
            Some(i) => past_break(i, end),
            None => match last_break(s, 2, lo, end) {
                Some(i) => i + 1,
                None => end,
            },
        },
    }
}

/// The chunks from character `start` on, numbered from `index`, as
/// (start, end, index): each ends `max_size` characters on (moved back to a
/// break when the text goes on), is kept when it has at least `min_size`
/// bytes or is the last, and the next starts `max_size - overlap` (at least
/// 1) characters on.
pub open spec fn rag_chunks_from(s: Seq<char>, cfg: ChunkConfig, start: int, index: int) -> Seq<
    (int, int, int),
>
    decreases if start < s.len() { s.len() - start } else { 0 },
{
    if start < 0 || start >= s.len() {
        seq![]
    } else {
        let total = s.len() as int;
        let end0 = if start + cfg.max_size >= total {
            total
        } else {
            start + cfg.max_size
        };
        let end = if end0 < total {
            break_point(s, start, end0, cfg.max_size as int)
        } else {
            end0
        };
        let keep = byte_len(s.subrange(start, end)) >= cfg.min_size || start + cfg.max_size
            >= total;
        let step = if cfg.max_size > cfg.overlap {
            cfg.max_size - cfg.overlap
        } else {
            1
        };
        let rest = rag_chunks_from(s, cfg, start + step, if keep {
            index + 1
        } else {
            index
        });
        if keep {
            seq![(start, end, index)] + rest
        } else {
            rest
        }
    }
}

/// The chunks of `s`: none for empty text, the whole text when it fits, else
/// the overlapping chunks from the start.
pub open spec fn rag_chunks(s: Seq<char>, cfg: ChunkConfig) -> Seq<(int, int, int)> {
    if s.len() == 0 {
        seq![]
    } else if s.len() <= cfg.max_size {
        seq![(0, s.len() as int, 0)]
    } else {
        rag_chunks_from(s, cfg, 0, 0)
    }
}

/// `c` is the chunk `sp` of `s`.
pub open spec fn chunk_is(c: Chunk, s: Seq<char>, sp: (int, int, int)) -> bool {
    &&& c.text@ == s.subrange(sp.0, sp.1)
    &&& c.start == sp.0
    &&& c.end == sp.1
    &&& c.index == sp.2
}

proof fn lemma_break_hit(s: Seq<char>, kind: int, lo: int, j: int)
    ensures
        last_break(s, kind, lo, j) matches Some(i) ==> lo <= i < j && (if kind == 0 {
            para_break_at(s, i)
        } else if kind == 1 {
            sentence_break_at(s, i)
        } else {
            word_break_at(s, i)
        }),
    decreases j - lo,
{
    if j > lo {
        lemma_break_hit(s, kind, lo, j - 1);
    }
}

/// Whether a break of kind `kind` (0 paragraph, 1 sentence, 2 word) sits at `i`.
pub open spec fn break_kind_at(s: Seq<char>, kind: int, i: int) -> bool {
    if kind == 0 {
        para_break_at(s, i)
    } else if kind == 1 {
        sentence_break_at(s, i)
    } else {
        word_break_at(s, i)
    }
}

proof fn lemma_last_break_exact(s: Seq<char>, kind: int, lo: int, j: int)
    ensures
        last_break(s, kind, lo, j) matches Some(i) ==> lo <= i < j && break_kind_at(s, kind, i) && forall|x: int|
            i < x < j ==> !#[trigger] break_kind_at(s, kind, x),
        last_break(s, kind, lo, j) is None ==> forall|x: int| lo <= x < j ==> !#[trigger] break_kind_at(s, kind, x),
    decreases j - lo,
{
    if j > lo {
        lemma_last_break_exact(s, kind, lo, j - 1);
        assert(break_kind_at(s, kind, j - 1) == (if kind == 0 {
            para_break_at(s, j - 1)
        } else if kind == 1 {
            sentence_break_at(s, j - 1)
        } else {
            word_break_at(s, j - 1)
        }));
    }
}

/// Where a chunk whose window is `[start, end)` ends, said directly over the
/// characters of its second half `[start + max_size / 2, end)`: just past
/// the last blank line there if there is one; else just past the
/// last sentence end (`.`, `!` or `?` followed by whitespace); else just past
/// the last whitespace; else at `end`. A two-character break is cut off at
/// `end`.
pub proof fn law_break_point(s: Seq<char>, start: int, end: int, max_size: int)
    requires
        0 <= start <= end <= s.len(),
        0 <= max_size,
    ensures
        ({
            let lo = start + max_size / 2;
            let b = break_point(s, start, end, max_size);
            &&& (exists|i: int| lo <= i < end && #[trigger] para_break_at(s, i)) ==> exists|i: int|
                lo <= i < end && #[trigger] para_break_at(s, i) && b == (if i + 2 <= end {
                    i + 2
                } else {
                    end
                }) && forall|x: int| i < x < end ==> !#[trigger] para_break_at(s, x)
            &&& (!exists|i: int| lo <= i < end && #[trigger] para_break_at(s, i)) && (exists|i: int|
                lo <= i < end && #[trigger] sentence_break_at(s, i)) ==> exists|i: int|
                lo <= i < end && #[trigger] sentence_break_at(s, i) && b == (if i + 2 <= end {
                    i + 2
                } else {
                    end
                }) && forall|x: int| i < x < end ==> !#[trigger] sentence_break_at(s, x)
            &&& (!exists|i: int| lo <= i < end && #[trigger] para_break_at(s, i)) && (!exists|i: int|
                lo <= i < end && #[trigger] sentence_break_at(s, i)) && (exists|i: int|
                lo <= i < end && #[trigger] word_break_at(s, i)) ==> exists|i: int|
                lo <= i < end && #[trigger] word_break_at(s, i) && b == i + 1 && forall|x: int|
                i < x < end ==> !#[trigger] word_break_at(s, x)
            &&& (!exists|i: int| lo <= i < end && #[trigger] para_break_at(s, i)) && (!exists|i: int|
                lo <= i < end && #[trigger] sentence_break_at(s, i)) && (!exists|i: int|
                lo <= i < end && #[trigger] word_break_at(s, i)) ==> b == end
        }),
{
    let lo = start + max_size / 2;
    lemma_last_break_exact(s, 0, lo, end);
    lemma_last_break_exact(s, 1, lo, end);
    lemma_last_break_exact(s, 2, lo, end);
    let b = break_point(s, start, end, max_size);
    match last_break(s, 0, lo, end) {
        Some(i) => {
            assert(para_break_at(s, i));
            assert forall|x: int| i < x < end implies !#[trigger] para_break_at(s, x) by {
                assert(!break_kind_at(s, 0, x));
            }
            assert(b == past_break(i, end));
        },
        None => {
            assert forall|x: int| lo <= x < end implies !#[trigger] para_break_at(s, x) by {
                assert(!break_kind_at(s, 0, x));
            }
            match last_break(s, 1, lo, end) {
                Some(i) => {
                    assert(sentence_break_at(s, i));
                    assert forall|x: int| i < x < end implies !#[trigger] sentence_break_at(s, x) by {
                        assert(!break_kind_at(s, 1, x));
                    }
                    assert(b == past_break(i, end));
                },
                None => {
                    assert forall|x: int| lo <= x < end implies !#[trigger] sentence_break_at(s, x) by {
                        assert(!break_kind_at(s, 1, x));
                    }
                    match last_break(s, 2, lo, end) {
                        Some(i) => {
                            assert(word_break_at(s, i));
                            assert forall|x: int| i < x < end implies !#[trigger] word_break_at(s, x) by {
                                assert(!break_kind_at(s, 2, x));
                            }
                            assert(b == i + 1);
                        },
                        None => {
                            assert forall|x: int| lo <= x < end implies !#[trigger] word_break_at(s, x) by {
                                assert(!break_kind_at(s, 2, x));
                            }
                            assert(b == end);
                        },
                    }
                },
            }
        },
    }
}

proof fn lemma_break_point_bounds(s: Seq<char>, start: int, end: int, max_size: int)
    requires
        0 <= start <= end <= s.len(),
        0 <= max_size,
    ensures
        start <= break_point(s, start, end, max_size) <= end,
        start < end ==> start < break_point(s, start, end, max_size),
{
    let lo = start + max_size / 2;
    lemma_break_hit(s, 0, lo, end);
    lemma_break_hit(s, 1, lo, end);
    lemma_break_hit(s, 2, lo, end);
}

proof fn lemma_chunks_from(s: Seq<char>, cfg: ChunkConfig, start: int, index: int)
    requires
        0 <= start,
    ensures
        forall|k: int|
            0 <= k < rag_chunks_from(s, cfg, start, index).len() ==> {
                let c = #[trigger] rag_chunks_from(s, cfg, start, index)[k];
                c.2 == index + k && start <= c.0 <= c.1 <= s.len() && c.1 - c.0 <= cfg.max_size
                    && (cfg.max_size >= 1 ==> c.0 < c.1)
            },
        forall|a: int, b: int|
            0 <= a < b < rag_chunks_from(s, cfg, start, index).len() ==> (#[trigger] rag_chunks_from(
                s,
                cfg,
                start,
                index,
            )[a]).0 < (#[trigger] rag_chunks_from(s, cfg, start, index)[b]).0,
    decreases if start < s.len() {
        s.len() - start
    } else {
        0
    },
{
    if start < s.len() {
        let total = s.len() as int;
        let end0 = if start + cfg.max_size >= total {
            total
        } else {
            start + cfg.max_size
        };
        if end0 < total {
            lemma_break_point_bounds(s, start, end0, cfg.max_size as int);
        }
        let end = if end0 < total {
            break_point(s, start, end0, cfg.max_size as int)
        } else {
            end0
        };
        let keep = byte_len(s.subrange(start, end)) >= cfg.min_size || start + cfg.max_size >= total;
        let step = if cfg.max_size > cfg.overlap {
            cfg.max_size - cfg.overlap
        } else {
            1
        };
        let next = if keep {
            index + 1
        } else {
            index
        };
        lemma_chunks_from(s, cfg, start + step, next);
        let rest = rag_chunks_from(s, cfg, start + step, next);
        let out = rag_chunks_from(s, cfg, start, index);
        if keep {
            assert(out == seq![(start, end, index)] + rest);
            assert forall|k: int| 0 <= k < out.len() implies {
                let c = #[trigger] out[k];
                c.2 == index + k && start <= c.0 <= c.1 <= s.len() && c.1 - c.0 <= cfg.max_size
                    && (cfg.max_size >= 1 ==> c.0 < c.1)
            } by {
                if k > 0 {
                    assert(out[k] == rest[k - 1]);
                }
            }
            assert forall|a: int, b: int| 0 <= a < b < out.len() implies (#[trigger] out[a]).0 < (
            #[trigger] out[b]).0 by {
                assert(out[b] == rest[b - 1]);
                if a > 0 {
                    assert(out[a] == rest[a - 1]);
                }
            }
        } else {
            assert(out == rest);
        }
    }
}

/// Chunks are numbered 0, 1, 2, ... in order, each lies within the text and
/// holds at most `max_size` characters (and at least one when `max_size` is
/// at least 1), and each starts after the one before; an empty text has no
/// chunk, and a text of at most `max_size` characters is one chunk.
pub proof fn law_chunk_numbering(s: Seq<char>, cfg: ChunkConfig)
    ensures
        forall|k: int|
            0 <= k < rag_chunks(s, cfg).len() ==> {
                let c = #[trigger] rag_chunks(s, cfg)[k];
                c.2 == k && 0 <= c.0 <= c.1 <= s.len() && c.1 - c.0 <= cfg.max_size && (cfg.max_size
                    >= 1 ==> c.0 < c.1)
            },
        s.len() == 0 ==> rag_chunks(s, cfg).len() == 0,
        0 < s.len() <= cfg.max_size ==> rag_chunks(s, cfg) == seq![(0int, s.len() as int, 0int)],
        forall|a: int, b: int|
            0 <= a < b < rag_chunks(s, cfg).len() ==> (#[trigger] rag_chunks(s, cfg)[a]).0 < (
            #[trigger] rag_chunks(s, cfg)[b]).0,
{
    if s.len() > cfg.max_size {
        lemma_chunks_from(s, cfg, 0, 0);
    }
}

// =============================================================================
// Chunker
// =============================================================================

/// Retrieval text chunker
pub struct RagChunker {
    config: ChunkConfig,
}

impl Default for RagChunker {
    fn default() -> (c: Self)
        ensures
            c.config() == (ChunkConfig { max_size: 512, overlap: 64, min_size: 50 }),
    {
        Self::new()
    }
}

impl RagChunker {
    /// The configuration in use.
    pub closed spec fn config(self) -> ChunkConfig {
        self.config
    }

    pub fn new() -> (c: Self)
        ensures
            c.config() == (ChunkConfig { max_size: 512, overlap: 64, min_size: 50 }),
    {
        RagChunker { config: ChunkConfig::default() }
    }

    pub fn with_config(config: ChunkConfig) -> (c: Self)
        ensures
            c.config() == config,
    {
        RagChunker { config }
    }

    /// Chunk text into overlapping segments
    pub fn chunk(&self, text: &str) -> (chunks: Vec<Chunk>)
        ensures
            chunks@.len() == rag_chunks(text@, self.config()).len(),
            forall|k: int|
                0 <= k < chunks@.len() ==> chunk_is(
                    #[trigger] chunks@[k],
                    text@,
                    rag_chunks(text@, self.config())[k],
                ),
    {
        let ghost s = text@;
        let cfg = self.config;
        let chars = str_chars(text);
        let total_len = chars.len();
        if total_len == 0 {
            return Vec::new();
        }
        if total_len <= cfg.max_size {
            // Single chunk for short text
            let mut v: Vec<Chunk> = Vec::new();
            v.push(Chunk { text: text.to_owned(), start: 0, end: total_len, index: 0 });
            assert(s.subrange(0, s.len() as int) =~= s);
            return v;
        }
        let mut chunks: Vec<Chunk> = Vec::new();
        let mut start: usize = 0;
        let mut index: usize = 0;
        let step: usize = if cfg.max_size > cfg.overlap {
            cfg.max_size - cfg.overlap
        } else {
            1
        };
        while start < total_len
            invariant
                chars@ == s,
                total_len == s.len(),
                total_len > cfg.max_size,
                cfg == self.config(),
                step == (if cfg.max_size > cfg.overlap {
                    cfg.max_size - cfg.overlap
                } else {
                    1
                }),
                index <= start,
                rag_chunks_from(s, cfg, 0, 0) == chunks_view(chunks@) + rag_chunks_from(
                    s,
                    cfg,
                    start as int,
                    index as int,
                ),
                forall|k: int| 0 <= k < chunks@.len() ==> chunk_is(#[trigger] chunks@[k], s, chunks_view(chunks@)[k]),
            decreases if start < total_len { total_len - start } else { 0 },
        {
            // Calculate end position
            let mut end = if cfg.max_size >= total_len - start {
                total_len
            } else {
                start + cfg.max_size
            };
            // Try to break at sentence or word boundary
            if end < total_len {
                end = self.find_break_point(&chars, start, end);
            }
            // Extract chunk text
            let chunk_text = string_from_chars(&chars, start, end);
            let is_last = cfg.max_size >= total_len - start;
            // Skip if chunk is too small (unless it's the last one)
            let keep = str_byte_len(chunk_text.as_str()) >= cfg.min_size || is_last;
            let ghost before = chunks@;
            if keep {
                chunks.push(Chunk { text: chunk_text, start, end, index });
                proof {
                    assert(chunks_view(chunks@) =~= chunks_view(before).push(
                        (start as int, end as int, index as int),
                    ));
                }
                index = index + 1;
            }
            let ghost idx_next = index as int;
            proof {
                let idx_before = if keep {
                    index - 1
                } else {
                    index as int
                };
                assert(rag_chunks_from(s, cfg, start as int, idx_before) == (if keep {
                    seq![(start as int, end as int, idx_before)]
                } else {
                    Seq::<(int, int, int)>::empty()
                }) + rag_chunks_from(s, cfg, start + step, idx_next));
            }
            // Move to next chunk with overlap
            let ghost old_start = start;
            start = start.saturating_add(step);
            proof {
                assert(rag_chunks_from(s, cfg, old_start + step, idx_next) == rag_chunks_from(
                    s,
                    cfg,
                    start as int,
                    idx_next,
                ));
                assert(rag_chunks_from(s, cfg, 0, 0) =~= chunks_view(chunks@) + rag_chunks_from(
                    s,
                    cfg,
                    start as int,
                    index as int,
                ));
            }
        }
        assert(chunks_view(chunks@) + Seq::<(int, int, int)>::empty() =~= chunks_view(chunks@));
        chunks
    }

    /// Find a good break point (paragraph, sentence end, or word boundary)
    fn find_break_point(&self, chars: &Vec<char>, start: usize, end: usize) -> (b: usize)
        requires
            start + self.config().max_size == end,
            end < chars@.len(),
        ensures
            b == break_point(chars@, start as int, end as int, self.config().max_size as int),
            start <= b <= end,
    {
        let ghost s = chars@;
        let search_start = start + self.config.max_size / 2;
        // Look for paragraph break first
        let mut i = end;
        while i > search_start
            invariant
                search_start <= i <= end < s.len(),
                s == chars@,
                start + self.config().max_size == end,
                search_start == start + self.config().max_size / 2,
                last_break(s, 0, search_start as int, end as int) == last_break(
                    s,
                    0,
                    search_start as int,
                    i as int,
                ),
            decreases i,
        {
            let j = i - 1;
            if j + 1 < chars.len() && chars[j] == '\n' && chars[j + 1] == '\n' {
                return if j + 2 <= end {
                    j + 2
                } else {
                    end
                };
            }
            i = j;
        }
        // Look for sentence end
        let mut i = end;
        while i > search_start
            invariant
                search_start <= i <= end < s.len(),
                s == chars@,
                start + self.config().max_size == end,
                search_start == start + self.config().max_size / 2,
                last_break(s, 0, search_start as int, end as int) is None,
                last_break(s, 1, search_start as int, end as int) == last_break(
                    s,
                    1,
                    search_start as int,
                    i as int,
                ),
            decreases i,
        {
            let j = i - 1;
            let c = chars[j];
            if (c == '.' || c == '!' || c == '?') && j + 1 < chars.len() && char_is_whitespace(
                chars[j + 1],
            ) {
                return if j + 2 <= end {
                    j + 2
                } else {
                    end
                };
            }
            i = j;
        }
        // Fall back to word boundary
        let mut i = end;
        while i > search_start
            invariant
                search_start <= i <= end < s.len(),
                s == chars@,
                start + self.config().max_size == end,
                search_start == start + self.config().max_size / 2,
                last_break(s, 0, search_start as int, end as int) is None,
                last_break(s, 1, search_start as int, end as int) is None,
                last_break(s, 2, search_start as int, end as int) == last_break(
                    s,
                    2,
                    search_start as int,
                    i as int,
                ),
            decreases i,
        {
            let j = i - 1;
            if char_is_whitespace(chars[j]) {
                return j + 1;
            }
            i = j;
        }
        end
    }
}

pub open spec fn chunks_view(cs: Seq<Chunk>) -> Seq<(int, int, int)> {
    Seq::new(cs.len(), |k: int| (cs[k].start as int, cs[k].end as int, cs[k].index as int))
}

// =============================================================================
// Embedding models
// =============================================================================

/// Supported embedding models
#[derive(Debug, Clone, Copy, PartialEq, Eq, Structural)]
pub enum EmbeddingModel {
    /// BAAI/bge-small-en-v1.5, 384 dimensions
    BGESmallEN,
    /// BAAI/bge-base-en-v1.5, 768 dimensions
    BGEBaseEN,
}

pub open spec fn model_dimensions(m: EmbeddingModel) -> usize {
    match m {
        EmbeddingModel::BGESmallEN => 384,
        EmbeddingModel::BGEBaseEN => 768,
    }
}

pub open spec fn model_name(m: EmbeddingModel) -> Seq<char> {
    match m {
        EmbeddingModel::BGESmallEN => "BAAI/bge-small-en-v1.5"@,
        EmbeddingModel::BGEBaseEN => "BAAI/bge-base-en-v1.5"@,
    }
}

/// The identifiers that select the small model.
pub open spec fn small_ids() -> Seq<&'static str> {
    seq!["bge-small-tauri", "bge-small", "BAAI/bge-small-en-v1.5", "BGESmallENV15"]
}

/// The identifiers that select the base model (the ModernBERT names map to
/// it as a model of similar quality).
pub open spec fn base_ids() -> Seq<&'static str> {
    seq![
        "bge-base-tauri",
        "bge-base",
        "BAAI/bge-base-en-v1.5",
        "BGEBaseENV15",
        "modernbert-tauri",
        "modernbert",
    ]
}

/// The model an identifier selects.
pub open spec fn model_for_id(id: Seq<char>) -> Option<EmbeddingModel> {
    if crate::text::in_list(id, small_ids()) {
        Some(EmbeddingModel::BGESmallEN)
    } else if crate::text::in_list(id, base_ids()) {
        Some(EmbeddingModel::BGEBaseEN)
    } else {
        None
    }
}

/// A model's identifier selects that model again.
pub proof fn law_model_id_round_trip(m: EmbeddingModel)
    ensures
        model_for_id(model_name(m)) == Some(m),
{
    reveal_strlit("bge-small-tauri");
    reveal_strlit("bge-small");
    reveal_strlit("BAAI/bge-small-en-v1.5");
    reveal_strlit("BGESmallENV15");
    reveal_strlit("BAAI/bge-base-en-v1.5");
    let n = model_name(m);
    match m {
        EmbeddingModel::BGESmallEN => {
            assert(small_ids()[2]@ == n);
        },
        EmbeddingModel::BGEBaseEN => {
            assert(base_ids()[2]@ == n);
            assert forall|i: int| 0 <= i < small_ids().len() implies (#[trigger] small_ids()[i])@ != n by {
                if i == 2 {
                    assert(n[5] != small_ids()[2]@[5] || n[9] != small_ids()[2]@[9]);
                }
            }
        },
    }
}

impl EmbeddingModel {
    pub fn dimensions(&self) -> (d: usize)
        ensures
            d == model_dimensions(*self),
    {
        match self {
            EmbeddingModel::BGESmallEN => 384,
            EmbeddingModel::BGEBaseEN => 768,
        }
    }

    pub fn model_id(&self) -> (r: &'static str)
        ensures
            r@ == model_name(*self),
    {
        match self {
            EmbeddingModel::BGESmallEN => "BAAI/bge-small-en-v1.5",
            EmbeddingModel::BGEBaseEN => "BAAI/bge-base-en-v1.5",
        }
    }

    pub fn from_id(id: &str) -> (r: Option<Self>)
        ensures
            r == model_for_id(id@),
    {
        let small: [&str; 4] = ["bge-small-tauri", "bge-small", "BAAI/bge-small-en-v1.5", "BGESmallENV15"];
        let base: [&str; 6] = [
            "bge-base-tauri",
            "bge-base",
            "BAAI/bge-base-en-v1.5",
            "BGEBaseENV15",
            "modernbert-tauri",
            "modernbert",
        ];
        assert(small@ == small_ids());
        assert(base@ == base_ids());
        if crate::text::is_in_list(id, &small) {
            Some(EmbeddingModel::BGESmallEN)
        } else if crate::text::is_in_list(id, &base) {
            Some(EmbeddingModel::BGEBaseEN)
        } else {
            None
        }
    }
}

// =============================================================================
// Embedding service
// =============================================================================

/// The message for an identifier that names no model.
pub open spec fn unknown_model_message(id: Seq<char>) -> Seq<char> {
    "Unknown model: "@ + id + ". Supported: bge-small-tauri, bge-base-tauri"@
}

/// The model an identifier names, or the message listing the supported ones.
pub fn select_model(model_id: &str) -> (r: Result<EmbeddingModel, String>)
    ensures
        match model_for_id(model_id@) {
            Some(m) => r == Ok::<EmbeddingModel, String>(m),
            None => r matches Err(msg) && msg@ == unknown_model_message(model_id@),
        },
{
    match EmbeddingModel::from_id(model_id) {
        Some(m) => Ok(m),
        None => {
            let mut msg = "Unknown model: ".to_owned();
            msg.append(model_id);
            msg.append(". Supported: bge-small-tauri, bge-base-tauri");
            proof {
                reveal_strlit("Unknown model: ");
                reveal_strlit(". Supported: bge-small-tauri, bge-base-tauri");
            }
            Err(msg)
        },
    }
}

/// The embedding service: the model it runs and, once initialized, the
/// loaded embedder `E` of the embedding library.
pub struct EmbeddingService<E> {
    model_type: EmbeddingModel,
    embedder: Option<E>,
    initialized: bool,
}

impl<E> EmbeddingService<E> {
    /// The model the service runs.
    pub closed spec fn model(self) -> EmbeddingModel {
        self.model_type
    }

    /// The loaded embedder, if any.
    pub closed spec fn loaded(self) -> Option<E> {
        self.embedder
    }

    /// Whether initialization has completed.
    pub closed spec fn initialized(self) -> bool {
        self.initialized
    }

    /// A service for `model`, not yet initialized.
    pub fn new(model: EmbeddingModel) -> (s: Self)
        ensures
            s.model() == model,
            s.loaded() is None,
            !s.initialized(),
    {
        EmbeddingService { model_type: model, embedder: None, initialized: false }
    }

    /// Whether initializing still has to load the model.
    pub fn needs_init(&self) -> (b: bool)
        ensures
            b == !self.initialized(),
    {
        !self.initialized
    }

    /// Initialize with what loading the model gave: nothing changes once
    /// initialized; else a loaded embedder is kept and the service is ready,
    /// and a load failure is reported as "Failed to load embedding model: "
    /// and the library's message.
    pub fn init(&mut self, loaded: Result<E, String>) -> (r: Result<(), String>)
        ensures
            old(self).initialized() ==> r is Ok && *final(self) == *old(self),
            !old(self).initialized() ==> match loaded {
                Ok(e) => r is Ok && final(self).model() == old(self).model() && final(self).loaded()
                    == Some(e) && final(self).initialized(),
                Err(m) => r matches Err(msg) && msg@ == "Failed to load embedding model: "@ + m@
                    && *final(self) == *old(self),
            },
    {
        if self.initialized {
            return Ok(());
        }
        match loaded {
            Ok(e) => {
                self.embedder = Some(e);
                self.initialized = true;
                Ok(())
            },
            Err(m) => {
                let mut msg = "Failed to load embedding model: ".to_owned();
                msg.append(m.as_str());
                proof {
                    reveal_strlit("Failed to load embedding model: ");
                }
                Err(msg)
            },
        }
    }

    /// Check if the service is ready
    pub fn is_ready(&self) -> (b: bool)
        ensures
            b == (self.initialized() && self.loaded() is Some),
    {
        self.initialized && self.embedder.is_some()
    }

    /// Get model dimensions
    pub fn dimensions(&self) -> (d: usize)
        ensures
            d == model_dimensions(self.model()),
    {
        self.model_type.dimensions()
    }

    /// Get model ID
    pub fn model_id(&self) -> (id: &'static str)
        ensures
            id@ == model_name(self.model()),
    {
        self.model_type.model_id()
    }

    /// The embedder to run a batch on, or the message for a service not yet
    /// initialized.
    pub fn embedder(&self) -> (r: Result<&E, String>)
        ensures
            match self.loaded() {
                Some(e) => r == Ok::<&E, String>(&e),
                None => r matches Err(msg) && msg@ == "Embedding service not initialized"@,
            },
    {
        match &self.embedder {
            Some(e) => Ok(e),
            None => {
                proof {
                    reveal_strlit("Embedding service not initialized");
                }
                Err("Embedding service not initialized".to_owned())
            },
        }
    }
}

/// What initializing through `init_embedder` leaves, once model `m` was
/// selected and loading it gave `res`: on success the slot holds a ready
/// service for `m` and the answer is its dimensions and identifier; on a load
/// failure the slot is unchanged and the message names the failure.
pub open spec fn init_outcome<E>(
    m: EmbeddingModel,
    res: Result<E, String>,
    before: Option<EmbeddingService<E>>,
    after: Option<EmbeddingService<E>>,
    r: Result<(usize, String), String>,
) -> bool {
    match res {
        Ok(e) => {
            &&& r matches Ok((d, id)) && d == model_dimensions(m) && id@ == model_name(m)
            &&& after matches Some(svc) && svc.model() == m && svc.loaded() == Some(e)
                && svc.initialized()
        },
        Err(msg) => {
            &&& r matches Err(x) && x@ == "Failed to load embedding model: "@ + msg@
            &&& after == before
        },
    }
}

/// Initialize the embedding service held in `slot` (the process-wide one)
/// for the model `model_id` names, loading it with `load`. An identifier
/// that names no model is refused before anything is loaded, and the slot
/// changes only when loading succeeds.
pub fn init_embedder<E, F: FnOnce(EmbeddingModel) -> Result<E, String>>(
    slot: &mut Option<EmbeddingService<E>>,
    model_id: &str,
    load: F,
) -> (r: Result<(usize, String), String>)
    requires
        forall|m: EmbeddingModel| call_requires(load, (m,)),
    ensures
        match model_for_id(model_id@) {
            None => r matches Err(msg) && msg@ == unknown_model_message(model_id@) && *final(slot)
                == *old(slot),
            Some(m) => exists|res: Result<E, String>|
                call_ensures(load, (m,), res) && init_outcome(m, res, *old(slot), *final(slot), r),
        },
{
    let model = match select_model(model_id) {
        Ok(m) => m,
        Err(msg) => {
            return Err(msg);
        },
    };
    let mut service = EmbeddingService::new(model);
    let loaded = load(model);
    let ghost res = loaded;
    match service.init(loaded) {
        Ok(()) => {},
        Err(msg) => {
            assert(init_outcome(model, res, *old(slot), *slot, Err::<(usize, String), String>(msg)));
            return Err(msg);
        },
    }
    let dimensions = service.dimensions();
    let model_id_out = service.model_id().to_owned();
    *slot = Some(service);
    let r: Result<(usize, String), String> = Ok((dimensions, model_id_out));
    assert(init_outcome(model, res, *old(slot), *slot, r));
    r
}

/// Whether the embedding service held in `slot` is ready.
pub fn is_embedder_ready<E>(slot: &Option<EmbeddingService<E>>) -> (b: bool)
    ensures
        b == (slot matches Some(s) && s.initialized() && s.loaded() is Some),
{
    match slot {
        Some(s) => s.is_ready(),
        None => false,
    }
}

/// The dimensions of the model of the embedding service held in `slot`.
pub fn get_embedder_dimensions<E>(slot: &Option<EmbeddingService<E>>) -> (d: Option<usize>)
    ensures
        d == (match slot {
            Some(s) => Some(model_dimensions(s.model())),
            None => None::<usize>,
        }),
{
    match slot {
        Some(s) => Some(s.dimensions()),
        None => None,
    }
}

// =============================================================================
// Chunking notes for indexing
// =============================================================================

/// A note to index
#[derive(Debug, Clone)]
pub struct NoteInput {
    pub id: String,
    pub title: String,
    pub content: String,
}

/// A chunk of a note, ready for embedding
#[derive(Debug, Clone)]
pub struct ChunkOutput {
    pub chunk_id: String,
    pub note_id: String,
    pub chunk_index: usize,
    pub text: String,
    pub start: usize,
    pub end: usize,
}

/// Result of indexing a note
#[derive(Debug, Clone)]
pub struct IndexResult {
    pub chunks_created: usize,
    pub note_id: String,
}

/// Response to initializing the embedder
#[derive(Debug, Clone)]
pub struct InitEmbedderResponse {
    pub dimensions: usize,
    pub model_id: String,
}

/// A stored chunk with its note
#[derive(Debug, Clone)]
pub struct ChunkData {
    pub chunk_id: String,
    pub note_id: String,
    pub chunk_index: usize,
    pub text: String,
    pub note_title: String,
    pub start: usize,
    pub end: usize,
}

/// The configuration used for a requested chunk size: that size, an eighth
/// of it as overlap, and 50 bytes minimum; the default without one.
pub open spec fn config_for(max_chunk_size: Option<usize>) -> ChunkConfig {
    match max_chunk_size {
        Some(size) => ChunkConfig { max_size: size, overlap: size / 8, min_size: 50 },
        None => ChunkConfig { max_size: 512, overlap: 64, min_size: 50 },
    }
}

/// `o` is chunk `sp` of the note `note_id` with text `s`; its ID is the note
/// ID, a colon and the chunk number.
pub open spec fn chunk_output_is(o: ChunkOutput, note_id: Seq<char>, s: Seq<char>, sp: (int, int, int)) -> bool {
    &&& o.chunk_id@ == note_id + seq![':'] + decimal(sp.2 as nat)
    &&& o.note_id@ == note_id
    &&& o.chunk_index == sp.2
    &&& o.text@ == s.subrange(sp.0, sp.1)
    &&& o.start == sp.0
    &&& o.end == sp.1
}

/// Chunk a note's text for indexing (embedding happens separately)
pub fn rag_chunk_text(note_id: &str, text: &str, max_chunk_size: Option<usize>) -> (out: Vec<
    ChunkOutput,
>)
    ensures
        out@.len() == rag_chunks(text@, config_for(max_chunk_size)).len(),
        forall|k: int|
            0 <= k < out@.len() ==> chunk_output_is(
                #[trigger] out@[k],
                note_id@,
                text@,
                rag_chunks(text@, config_for(max_chunk_size))[k],
            ),
{
    let chunker = match max_chunk_size {
        Some(size) => RagChunker::with_config(
            ChunkConfig { max_size: size, overlap: size / 8, min_size: 50 },
        ),
        None => RagChunker::new(),
    };
    let chunks = chunker.chunk(text);
    let ghost cs = chunks@;
    let ghost model = rag_chunks(text@, config_for(max_chunk_size));
    let mut chunks = chunks;
    let mut out: Vec<ChunkOutput> = Vec::new();
    let ghost mut k: int = 0;
    while chunks.len() > 0
        invariant
            0 <= k <= cs.len(),
            cs.len() == model.len(),
            forall|q: int| 0 <= q < cs.len() ==> chunk_is(#[trigger] cs[q], text@, model[q]),
            chunks@ == cs.subrange(k, cs.len() as int),
            out@.len() == k,
            forall|q: int| 0 <= q < k ==> chunk_output_is(#[trigger] out@[q], note_id@, text@, model[q]),
        decreases chunks@.len(),
    {
        let c = chunks.remove(0);
        assert(c == cs[k]);
        assert(chunk_is(c, text@, model[k]));
        let mut id = note_id.to_owned();
        string_push(&mut id, ':');
        push_decimal(&mut id, c.index);
        assert(id@ =~= note_id@ + seq![':'] + decimal(c.index as nat));
        let ghost before = out@;
        out.push(
            ChunkOutput {
                chunk_id: id,
                note_id: note_id.to_owned(),
                chunk_index: c.index,
                text: c.text,
                start: c.start,
                end: c.end,
            },
        );
        proof {
            assert(chunk_output_is(out@[k], note_id@, text@, model[k]));
            assert forall|q: int| 0 <= q < k + 1 implies chunk_output_is(
                #[trigger] out@[q],
                note_id@,
                text@,
                model[q],
            ) by {
                if q < k {
                    assert(out@[q] == before[q]);
                }
            }
            k = k + 1;
            assert(chunks@ =~= cs.subrange(k, cs.len() as int));
        }
    }
    out
}

} // verus!
