use langextract::chunking::{ChunkIterator, ChunkingConfig, ChunkingStrategy, TextChunk, TextChunker, TokenChunk};
use langextract::data::Document;
use langextract::tokenizer::{TokenInterval, Tokenizer};

fn create_tokenizer() -> Tokenizer {
    Tokenizer::new().expect("Failed to create tokenizer")
}

fn create_document(text: &str) -> Document {
    Document::new(text.to_string())
}

#[test]
fn test_fixed_size_chunking() {
    let chunker = TextChunker::with_config(ChunkingConfig {
        max_chunk_size: 20,
        overlap_size: 5,
        strategy: ChunkingStrategy::FixedSize,
        ..Default::default()
    });
    let text = "This is a test document with some text that needs to be chunked into smaller pieces.";
    let chunks = chunker.chunk_text(text, None).unwrap();
    assert!(chunks.len() > 1);
    for chunk in &chunks {
        assert!(chunk.char_length <= 20);
    }
}

#[test]
fn test_sentence_chunking() {
    let chunker = TextChunker::with_config(ChunkingConfig {
        max_chunk_size: 50,
        strategy: ChunkingStrategy::Sentence,
        ..Default::default()
    });
    let text = "First sentence. Second sentence! Third sentence? Fourth sentence.";
    let chunks = chunker.chunk_text(text, None).unwrap();
    assert!(chunks.len() > 0);
}

#[test]
fn test_small_text_no_chunking() {
    let chunker = TextChunker::new();
    let text = "Short text.";
    let chunks = chunker.chunk_text(text, None).unwrap();
    assert_eq!(chunks.len(), 1);
    assert_eq!(chunks[0].text, text);
}

#[test]
fn test_chunk_char_interval() {
    let chunk = TextChunk::new(0, "test".to_string(), 10, None);
    let interval = chunk.char_interval();
    assert_eq!(interval.start_pos, Some(10));
    assert_eq!(interval.end_pos, Some(14));
}

#[test]
fn test_chunk_with_overlap() {
    let chunk = TextChunk::with_overlap(0, "overlap test text".to_string(), 0, None, 3, 4);
    assert!(chunk.has_overlap);
    assert_eq!(chunk.overlap_info, Some((3, 4)));
    assert_eq!(chunk.core_text(), "rlap test ");
}

#[test]
fn test_multi_sentence_chunk() {
    let tokenizer = create_tokenizer();
    let text = "This is a sentence. This is a longer sentence.";
    let tokenized = tokenizer.tokenize(text).expect("Tokenization failed");
    let document = create_document(text);
    let mut chunk_iter = ChunkIterator::new(&tokenized, &tokenizer, 50, Some(&document)).expect("iterator");
    let first_chunk = chunk_iter.next().expect("Should have a chunk").expect("Chunk creation should succeed");
    let chunk_text = first_chunk.chunk_text(&tokenizer).expect("Failed to get chunk text");
    assert!(chunk_text.contains("This is a sentence."));
    assert!(chunk_text.contains("This is a longer sentence."));
}

#[test]
fn test_sentence_breaking() {
    let tokenizer = create_tokenizer();
    let text = "This is a very long sentence that definitely exceeds the buffer.";
    let tokenized = tokenizer.tokenize(text).expect("Tokenization failed");
    let document = create_document(text);
    let mut chunk_iter = ChunkIterator::new(&tokenized, &tokenizer, 20, Some(&document)).expect("iterator");
    let chunks = chunk_iter.collect_all().expect("Chunk iteration should succeed");
    assert!(chunks.len() > 1, "Should break long sentence into multiple chunks");
    for chunk in &chunks {
        let chunk_text = chunk.chunk_text(&tokenizer).expect("Failed to get chunk text");
        assert!(chunk_text.len() <= 25, "Chunk should not vastly exceed buffer: '{}'", chunk_text);
    }
}

#[test]
fn test_oversized_token() {
    let tokenizer = create_tokenizer();
    let text = "Short antidisestablishmentarianism word.";
    let tokenized = tokenizer.tokenize(text).expect("Tokenization failed");
    let document = create_document(text);
    let mut chunk_iter = ChunkIterator::new(&tokenized, &tokenizer, 10, Some(&document)).expect("iterator");
    let chunks = chunk_iter.collect_all().expect("Chunk iteration should succeed");
    assert!(chunks.len() > 1, "Should break into multiple chunks");
    let long_word_chunk = chunks.iter().find(|chunk| {
        chunk
            .chunk_text(&tokenizer)
            .map(|text| text.contains("antidisestablishmentarianism"))
            .unwrap_or(false)
    });
    assert!(long_word_chunk.is_some(), "Should find chunk containing the long word");
}

#[test]
fn test_newline_preference_for_breaking() {
    let tokenizer = create_tokenizer();
    let text = "First part of sentence\nSecond part of sentence continues here";
    let tokenized = tokenizer.tokenize(text).expect("Tokenization failed");
    let document = create_document(text);
    let mut chunk_iter = ChunkIterator::new(&tokenized, &tokenizer, 25, Some(&document)).expect("iterator");
    let chunks = chunk_iter.collect_all().expect("Chunk iteration should succeed");
    assert!(chunks.len() > 1, "Should break into multiple chunks");
    let first_chunk_text = chunks[0].chunk_text(&tokenizer).expect("Failed to get first chunk text");
    assert!(!first_chunk_text.contains("continues"), "First chunk should not contain text after newline: '{}'", first_chunk_text);
}

#[test]
fn chunking_test_empty_text_handling() {
    let tokenizer = create_tokenizer();
    let text = "";
    let tokenized = tokenizer.tokenize(text).expect("Tokenization failed");
    let document = create_document(text);
    let mut chunk_iter = ChunkIterator::new(&tokenized, &tokenizer, 100, Some(&document)).expect("iterator");
    let result = chunk_iter.next();
    assert!(result.is_none(), "Empty text should produce no chunks");
}

#[test]
fn test_single_sentence_chunk() {
    let tokenizer = create_tokenizer();
    let text = "Short sentence.";
    let tokenized = tokenizer.tokenize(text).expect("Tokenization failed");
    let document = create_document(text);
    let mut chunk_iter = ChunkIterator::new(&tokenized, &tokenizer, 100, Some(&document)).expect("iterator");
    let chunk = chunk_iter.next().expect("Should have a chunk").expect("Chunk creation should succeed");
    let chunk_text = chunk.chunk_text(&tokenizer).expect("Failed to get chunk text");
    assert_eq!(chunk_text, text);
    assert!(chunk_iter.next().is_none(), "Should have only one chunk");
}

#[test]
fn test_token_chunk_properties() {
    let tokenizer = create_tokenizer();
    let text = "Test sentence.";
    let tokenized = tokenizer.tokenize(text).expect("Tokenization failed");
    let document = create_document(text);
    let token_interval = TokenInterval::new(0, tokenized.tokens.len()).expect("Failed to create token interval");
    let chunk = TokenChunk::new(token_interval, Some(document));
    let chunk_text = chunk.chunk_text(&tokenizer).expect("Failed to get chunk text");
    assert_eq!(chunk_text, text);
    let sanitized = chunk.sanitized_chunk_text(&tokenizer).expect("Failed to get sanitized text");
    assert_eq!(sanitized, text);
    let char_interval = chunk.char_interval(&tokenizer).expect("Failed to get char interval");
    assert_eq!(char_interval.start_pos, Some(0));
    assert_eq!(char_interval.end_pos, Some(text.len()));
}

#[test]
fn test_progressive_chunking() {
    let tokenizer = create_tokenizer();
    let text = "Short. Medium length sentence here. Very long sentence that might need to be broken up depending on buffer size.";
    let tokenized = tokenizer.tokenize(text).expect("Tokenization failed");
    let document = create_document(text);
    let mut chunk_iter = ChunkIterator::new(&tokenized, &tokenizer, 40, Some(&document)).expect("iterator");
    let chunks = chunk_iter.collect_all().expect("Chunk iteration should succeed");
    assert!(chunks.len() > 1, "Should produce multiple chunks");
    assert!(chunks.len() >= 2, "Should produce multiple chunks for long text");
}

#[test]
fn chunks_cover_tokens_contiguously() {
    let tokenizer = create_tokenizer();
    let text = "Short. Medium length sentence here. Very long sentence that might need to be broken up depending on buffer size.";
    let tokenized = tokenizer.tokenize(text).expect("Tokenization failed");
    let mut chunk_iter = ChunkIterator::new(&tokenized, &tokenizer, 40, None).expect("iterator");
    let chunks = chunk_iter.collect_all().expect("chunks");
    let mut expected_start = 0;
    for chunk in &chunks {
        assert_eq!(chunk.token_interval.start_index, expected_start);
        assert!(chunk.token_interval.end_index > chunk.token_interval.start_index);
        expected_start = chunk.token_interval.end_index;
    }
    assert_eq!(expected_start, tokenized.tokens.len());
}

#[test]
fn test_chunk_without_document() {
    let tokenizer = create_tokenizer();
    let token_interval = TokenInterval::new(0, 1).expect("Failed to create token interval");
    let chunk = TokenChunk::new(token_interval, None);
    let result = chunk.chunk_text(&tokenizer);
    assert!(result.is_err(), "Should return error when no document is set");
    assert!(chunk.document_id().is_none());
    assert!(chunk.additional_context().is_none());
}

#[test]
fn test_semantic_chunking_basic() {
    let chunker = TextChunker::with_config(ChunkingConfig {
        strategy: ChunkingStrategy::Semantic,
        max_chunk_size: 1000,
        semantic_similarity_threshold_percent: 70,
        ..Default::default()
    });
    let text = "Machine learning is a subset of artificial intelligence. It involves training algorithms on data to make predictions. Deep learning uses neural networks with multiple layers. Natural language processing helps computers understand human language.";
    let chunks = chunker.chunk_text(text, Some("test_doc".to_string())).unwrap();
    assert!(chunks.len() > 0, "Should create at least one chunk");
    assert!(chunks.len() <= 10, "Should not create too many chunks");
    for (i, chunk) in chunks.iter().enumerate() {
        assert_eq!(chunk.id, i);
        assert!(!chunk.text.is_empty());
        assert!(chunk.char_length > 0);
        assert_eq!(chunk.document_id, Some("test_doc".to_string()));
    }
    for i in 0..chunks.len() - 1 {
        let current_end = chunks[i].char_offset + chunks[i].char_length;
        let next_start = chunks[i + 1].char_offset;
        assert!(current_end <= next_start, "Chunks should not overlap");
    }
}

#[test]
fn test_semantic_chunking_empty_text() {
    let chunker = TextChunker::with_config(ChunkingConfig { strategy: ChunkingStrategy::Semantic, ..Default::default() });
    let chunks = chunker.chunk_text("", None).unwrap();
    assert_eq!(chunks.len(), 1);
    assert_eq!(chunks[0].text, "");
    assert_eq!(chunks[0].char_length, 0);
    assert_eq!(chunks[0].char_offset, 0);
}

#[test]
fn test_semantic_chunking_small_text() {
    let chunker = TextChunker::with_config(ChunkingConfig {
        strategy: ChunkingStrategy::Semantic,
        max_chunk_size: 1000,
        ..Default::default()
    });
    let text = "Short text that fits in one chunk.";
    let chunks = chunker.chunk_text(text, None).unwrap();
    assert_eq!(chunks.len(), 1);
    assert_eq!(chunks[0].text, text);
    assert_eq!(chunks[0].char_offset, 0);
    assert_eq!(chunks[0].char_length, text.len());
}

#[test]
fn test_semantic_chunking_with_max_chunks() {
    let chunker = TextChunker::with_config(ChunkingConfig {
        strategy: ChunkingStrategy::Semantic,
        max_chunk_size: 500,
        semantic_similarity_threshold_percent: 50,
        semantic_max_chunks: Some(3),
        ..Default::default()
    });
    let text = "This is a very long text about artificial intelligence and machine learning. It contains multiple paragraphs with different topics. The first paragraph discusses AI fundamentals. The second paragraph covers machine learning techniques. The third paragraph explores deep learning applications. The fourth paragraph examines natural language processing. This should create multiple semantic chunks that will need to be merged due to the max_chunks limit.";
    let chunks = chunker.chunk_text(text, None).unwrap();
    assert!(chunks.len() <= 3, "Should not exceed max_chunks limit: got {}, limit is 3", chunks.len());
    assert!(!chunks.is_empty(), "Should create at least one chunk");
}

#[test]
fn test_semantic_chunking_similarity_threshold() {
    let text = "Python is a programming language. Java is also a programming language. The weather is nice today. I like to eat pizza. Programming involves writing code. Food is essential for life.";
    let low = TextChunker::with_config(ChunkingConfig {
        strategy: ChunkingStrategy::Semantic,
        max_chunk_size: 200,
        semantic_similarity_threshold_percent: 30,
        ..Default::default()
    });
    let high = TextChunker::with_config(ChunkingConfig {
        strategy: ChunkingStrategy::Semantic,
        max_chunk_size: 200,
        semantic_similarity_threshold_percent: 90,
        ..Default::default()
    });
    assert!(!low.chunk_text(text, None).unwrap().is_empty());
    assert!(!high.chunk_text(text, None).unwrap().is_empty());
}

#[test]
fn test_semantic_chunking_preserves_text() {
    let chunker = TextChunker::with_config(ChunkingConfig {
        strategy: ChunkingStrategy::Semantic,
        max_chunk_size: 100,
        semantic_similarity_threshold_percent: 70,
        ..Default::default()
    });
    let text = "The quick brown fox jumps over the lazy dog. This is a test sentence. Machine learning is fascinating.";
    let chunks = chunker.chunk_text(text, None).unwrap();
    let mut reconstructed = String::new();
    for chunk in &chunks {
        reconstructed.push_str(&chunk.text);
    }
    assert_eq!(reconstructed.trim(), text.trim());
}

#[test]
fn test_semantic_chunking_error_handling() {
    let chunker = TextChunker::with_config(ChunkingConfig {
        strategy: ChunkingStrategy::Semantic,
        max_chunk_size: 10,
        semantic_similarity_threshold_percent: 200,
        ..Default::default()
    });
    let text = "This is a test text for semantic chunking error handling.";
    match chunker.chunk_text(text, None) {
        Ok(chunks) => {
            assert!(!chunks.is_empty());
            for chunk in chunks {
                assert!(!chunk.text.is_empty());
            }
        }
        Err(e) => {
            println!("Expected error occurred: {}", e.to_string());
        }
    }
}

#[test]
fn test_semantic_vs_fixed_size_chunking() {
    let text = "Natural language processing is a field of artificial intelligence. It focuses on the interaction between computers and human language. Machine learning algorithms power many NLP applications. Deep learning has revolutionized computer vision and NLP.";
    let semantic = TextChunker::with_config(ChunkingConfig {
        strategy: ChunkingStrategy::Semantic,
        max_chunk_size: 150,
        semantic_similarity_threshold_percent: 70,
        ..Default::default()
    });
    let fixed = TextChunker::with_config(ChunkingConfig {
        strategy: ChunkingStrategy::FixedSize,
        max_chunk_size: 150,
        ..Default::default()
    });
    assert!(!semantic.chunk_text(text, None).unwrap().is_empty());
    assert!(!fixed.chunk_text(text, None).unwrap().is_empty());
}

#[test]
fn test_semantic_chunking_integration() {
    let mut config = ChunkingConfig::default();
    config.strategy = ChunkingStrategy::Semantic;
    config.max_chunk_size = 100;
    let chunker = TextChunker::with_config(config);
    let text = "This is a test document. It has multiple sentences with different topics. The first sentence introduces the topic. The second sentence provides more details. The third sentence concludes the discussion.";
    let chunks = chunker.chunk_text(text, Some("integration_test".to_string())).unwrap();
    assert!(!chunks.is_empty());
    assert!(chunks.len() <= 10);
    for chunk in &chunks {
        assert!(!chunk.text.is_empty());
        assert!(chunk.char_length > 0);
        assert_eq!(chunk.document_id, Some("integration_test".to_string()));
    }
    for i in 0..chunks.len() - 1 {
        let current_end = chunks[i].char_offset + chunks[i].char_length;
        let next_start = chunks[i + 1].char_offset;
        assert!(current_end <= next_start, "Chunks should not overlap");
    }
}

#[test]
fn test_semantic_chunking_with_document_id() {
    let chunker = TextChunker::with_config(ChunkingConfig {
        strategy: ChunkingStrategy::Semantic,
        max_chunk_size: 100,
        ..Default::default()
    });
    let text = "This is a test document with multiple sentences. Each sentence should be processed correctly. The document ID should be preserved.";
    let document_id = Some("doc_123".to_string());
    let chunks = chunker.chunk_text(text, document_id.clone()).unwrap();
    for chunk in &chunks {
        assert_eq!(chunk.document_id, document_id);
    }
}

#[test]
fn fixed_size_chunks_cover_text() {
    let chunker = TextChunker::with_config(ChunkingConfig {
        max_chunk_size: 10,
        overlap_size: 0,
        strategy: ChunkingStrategy::FixedSize,
        ..Default::default()
    });
    let text = "abcdefghijklmnopqrstuvwxy";
    let chunks = chunker.chunk_text(text, None).unwrap();
    let joined: String = chunks.iter().map(|c| c.text.clone()).collect();
    assert_eq!(joined, text);
    assert_eq!(chunks[0].text, "abcdefghij");
}
