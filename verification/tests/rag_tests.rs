use varant::rag::{
    get_embedder_dimensions, init_embedder, is_embedder_ready, rag_chunk_text, select_model,
    ChunkConfig, EmbeddingModel, EmbeddingService, RagChunker,
};

#[test]
fn test_chunk_short_text() {
    let chunker = RagChunker::new();
    let chunks = chunker.chunk("Hello world");

    assert_eq!(chunks.len(), 1);
    assert_eq!(chunks[0].text, "Hello world");
    assert_eq!(chunks[0].start, 0);
    assert_eq!(chunks[0].index, 0);
}

#[test]
fn test_chunk_long_text() {
    let chunker = RagChunker::with_config(ChunkConfig { max_size: 100, overlap: 20, min_size: 10 });

    let text = "a".repeat(250);
    let chunks = chunker.chunk(&text);

    assert!(chunks.len() >= 2);
    if chunks.len() >= 2 {
        assert!(chunks[1].start < chunks[0].end);
    }
}

#[test]
fn test_chunk_empty_text() {
    let chunker = RagChunker::new();
    let chunks = chunker.chunk("");
    assert!(chunks.is_empty());
}

#[test]
fn test_chunk_preserves_order() {
    let chunker = RagChunker::with_config(ChunkConfig { max_size: 50, overlap: 10, min_size: 5 });

    let text = "First sentence. Second sentence. Third sentence. Fourth sentence.";
    let chunks = chunker.chunk(text);

    for (i, chunk) in chunks.iter().enumerate() {
        assert_eq!(chunk.index, i);
    }
}

#[test]
fn test_embedding_model_dimensions() {
    assert_eq!(EmbeddingModel::BGESmallEN.dimensions(), 384);
    assert_eq!(EmbeddingModel::BGEBaseEN.dimensions(), 768);
}

#[test]
fn test_model_from_id() {
    assert_eq!(EmbeddingModel::from_id("bge-small-tauri"), Some(EmbeddingModel::BGESmallEN));
    assert_eq!(EmbeddingModel::from_id("bge-base-tauri"), Some(EmbeddingModel::BGEBaseEN));
    assert_eq!(EmbeddingModel::from_id("unknown"), None);
}

#[test]
fn model_ids_round_trip() {
    for m in [EmbeddingModel::BGESmallEN, EmbeddingModel::BGEBaseEN] {
        assert_eq!(EmbeddingModel::from_id(m.model_id()), Some(m));
    }
    assert_eq!(EmbeddingModel::from_id("modernbert"), Some(EmbeddingModel::BGEBaseEN));
}

#[test]
fn long_text_chunks_exactly() {
    let chunker = RagChunker::with_config(ChunkConfig { max_size: 100, overlap: 20, min_size: 10 });
    let text = "a".repeat(250);
    let chunks = chunker.chunk(&text);
    let spans: Vec<(usize, usize)> = chunks.iter().map(|c| (c.start, c.end)).collect();
    assert_eq!(spans, vec![(0, 100), (80, 180), (160, 250), (240, 250)]);
}

#[test]
fn chunks_break_at_sentences() {
    let chunker = RagChunker::with_config(ChunkConfig { max_size: 20, overlap: 0, min_size: 1 });
    let chunks = chunker.chunk("Alpha beta gamma. Delta epsilon zeta");
    assert_eq!(chunks[0].text, "Alpha beta gamma. ");
    assert_eq!(chunks[0].end, 18);
}

#[test]
fn chunk_outputs_have_ids() {
    let out = rag_chunk_text("note7", "Hello world", None);
    assert_eq!(out.len(), 1);
    assert_eq!(out[0].chunk_id, "note7:0");
    assert_eq!(out[0].note_id, "note7");
    assert_eq!(out[0].text, "Hello world");
    let many = rag_chunk_text("n", &"b".repeat(1000), Some(80));
    assert_eq!(many.len(), 15);
    assert_eq!(many[11].chunk_id, "n:11");
    assert_eq!(many[11].start, 770);
}

#[test]
fn select_model_names_the_supported_models_on_failure() {
    assert_eq!(select_model("bge-small").unwrap(), EmbeddingModel::BGESmallEN);
    assert_eq!(select_model("modernbert").unwrap(), EmbeddingModel::BGEBaseEN);
    assert_eq!(
        select_model("gpt").unwrap_err(),
        "Unknown model: gpt. Supported: bge-small-tauri, bge-base-tauri"
    );
}

#[test]
fn embedding_service_initializes_once() {
    let mut service: EmbeddingService<u32> = EmbeddingService::new(EmbeddingModel::BGEBaseEN);
    assert!(service.needs_init());
    assert!(!service.is_ready());
    assert_eq!(service.embedder().unwrap_err(), "Embedding service not initialized");
    assert_eq!(
        service.init(Err("no network".to_string())).unwrap_err(),
        "Failed to load embedding model: no network"
    );
    assert!(!service.is_ready());
    assert!(service.init(Ok(7)).is_ok());
    assert!(service.is_ready());
    assert!(!service.needs_init());
    // A second init keeps the first embedder
    assert!(service.init(Ok(9)).is_ok());
    assert_eq!(*service.embedder().unwrap(), 7);
    assert_eq!(service.dimensions(), 768);
    assert_eq!(service.model_id(), "BAAI/bge-base-en-v1.5");
}

#[test]
fn init_embedder_fills_the_slot_on_success() {
    let mut slot: Option<EmbeddingService<u32>> = None;
    assert!(!is_embedder_ready(&slot));
    assert_eq!(get_embedder_dimensions(&slot), None);
    let r = init_embedder(&mut slot, "bge-base", |m| {
        assert_eq!(m, EmbeddingModel::BGEBaseEN);
        Ok(7u32)
    });
    assert_eq!(r, Ok((768, "BAAI/bge-base-en-v1.5".to_string())));
    assert!(is_embedder_ready(&slot));
    assert_eq!(get_embedder_dimensions(&slot), Some(768));
}

#[test]
fn init_embedder_refuses_unknown_models_without_loading() {
    let mut slot: Option<EmbeddingService<u32>> = None;
    let r = init_embedder(&mut slot, "gpt", |_| -> Result<u32, String> {
        panic!("no model should be loaded")
    });
    assert_eq!(
        r,
        Err("Unknown model: gpt. Supported: bge-small-tauri, bge-base-tauri".to_string())
    );
    assert!(slot.is_none());
}

#[test]
fn init_embedder_keeps_the_slot_when_loading_fails() {
    let mut slot: Option<EmbeddingService<u32>> = None;
    let r = init_embedder(&mut slot, "bge-small-tauri", |_| Err("no file".to_string()));
    assert_eq!(r, Err("Failed to load embedding model: no file".to_string()));
    assert!(!is_embedder_ready(&slot));
    assert_eq!(get_embedder_dimensions(&slot), None);
}

#[test]
fn chunks_never_exceed_max_size() {
    let chunker = RagChunker::with_config(ChunkConfig { max_size: 4, overlap: 0, min_size: 0 });
    let chunks = chunker.chunk("abc. defgh");
    assert_eq!(chunks.len(), 3);
    assert_eq!((chunks[0].start, chunks[0].end), (0, 4));
    assert_eq!(chunks[0].text, "abc.");
    for c in &chunks {
        assert!(c.end - c.start <= 4);
    }
}

#[test]
fn short_text_is_one_whole_chunk() {
    let chunker = RagChunker::with_config(ChunkConfig { max_size: 20, overlap: 5, min_size: 0 });
    let chunks = chunker.chunk("short text");
    assert_eq!(chunks.len(), 1);
    assert_eq!((chunks[0].start, chunks[0].end, chunks[0].index), (0, 10, 0));
    assert_eq!(chunks[0].text, "short text");
    let long = RagChunker::with_config(ChunkConfig { max_size: 8, overlap: 2, min_size: 0 })
        .chunk("one two three four five");
    assert!(long.iter().all(|c| c.start < c.end));
}
