# varant

The text-analysis core of a narrative writing assistant, written in Verus.
Functions in `src/` carry contracts over mathematical models and are proved
against them, except a few small trusted wrappers, marked
`#[verifier::external_body]`, around calls into std (character classes, case
mapping, `String::push`, the clock) and into the `aho-corasick` crate; their
contracts state what those libraries document.

## Layout

- `src/text.rs` — character classes, UTF-8 offsets, trimming, case folding.
- `src/incremental.rs` — paragraph/sentence chunking, chunk alignment by
  longest increasing subsequence, change deltas, position shifting.
- `src/tokenizer.rs`, `src/orthographic.rs`, `src/rules.rs`,
  `src/gazetteer.rs`, `src/pipeline.rs`, `src/fst.rs` — the entity
  recognition pipeline: tokens, capitalization shapes, contextual rules,
  known-name matching, overlap resolution and confidence filtering.
- `src/ranking.rs` — the overlap resolution shared by the matchers.
- `src/implicit.rs`, `src/mention.rs` — implicit entity mentions, aliases,
  and merging mentions into suggestions.
- `src/rag.rs` — retrieval chunking, the embedding-model table and the
  embedding service's state.
- `src/graph.rs`, `src/communities.rs`, `src/traversal.rs`,
  `src/folders.rs`, `src/content.rs` — graph and content types, community
  detection, connected components, degree ranking, traversals
  (neighbourhoods, shortest paths, all paths, subgraphs), and the folder
  tree.
- `src/matcher.rs` — the Aho-Corasick automaton, behind trusted wrappers.
- `tests/` — executable tests of the library.
- `app/` — the host side: process-wide state behind locks, serializable
  copies of exchanged types, and the floating-point side of graph scores.

Laws of the library are public proof functions named `law_*`.

## What is not here

The assistant this library serves also stores its graph and its notes in an
embedded database (CozoDB), ranks nodes with floating-point algorithms
(PageRank, betweenness), embeds text with a neural model, and exposes all of
this to a desktop shell. None of that is in this crate:

- the database repositories, the database graph backend and the stored graph
  registry are input/output; the library works on snapshots of them
  (`traversal::GraphView`, adjacency lists, folder lists);
- floating-point scores stay outside the verified code; the library ranks and
  groups nodes by number, and `app/` only normalises degree scores;
- the narrative engine is absent: it is built on phrase-chunking,
  dependency-attachment, coreference and dialogue components that this crate
  does not have.
