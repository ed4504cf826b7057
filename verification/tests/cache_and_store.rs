use seekr::cache::{FileCache, FileStatus};
use seekr::chunker::{Chunker, ChunkType};
use seekr::semantic::{batch_count, embedding_text, project_hit};
use seekr::vector_store::{ChunkMetadata, VectorStore};

#[test]
fn cache_classifies_new_then_unchanged() {
    // a file seen for the first time is new; once its time is recorded and
    // nothing moves, the next check reports it unchanged
    let mut cache = FileCache::new();
    let path = "/w/a.rs".to_string();
    assert_eq!(cache.check_file(&path, Some(100)), FileStatus::New);
    cache.update_file(&path, 100);
    assert_eq!(cache.check_file(&path, Some(100)), FileStatus::Unchanged);
}

#[test]
fn cache_detects_modification() {
    // a strictly newer on-disk time means modified; recording it brings the
    // file back to unchanged
    let mut cache = FileCache::new();
    let path = "/w/a.rs".to_string();
    cache.update_file(&path, 100);
    assert_eq!(cache.check_file(&path, Some(101)), FileStatus::Modified);
    cache.update_file(&path, 101);
    assert_eq!(cache.check_file(&path, Some(101)), FileStatus::Unchanged);
}

#[test]
fn cache_unreadable_time_is_new() {
    let mut cache = FileCache::new();
    let path = "/w/gone.rs".to_string();
    cache.update_file(&path, 100);
    assert_eq!(cache.check_file(&path, None), FileStatus::New);
}

#[test]
fn cache_clear_forgets() {
    let mut cache = FileCache::new();
    let path = "/w/a.rs".to_string();
    cache.update_file(&path, 100);
    cache.clear();
    assert_eq!(cache.check_file(&path, Some(100)), FileStatus::New);
}

#[test]
fn cache_round_trips_through_entries() {
    let mut cache = FileCache::new();
    cache.update_file(&"/w/a.rs".to_string(), 7);
    cache.update_file(&"/w/b.rs".to_string(), 9);
    cache.update_file(&"/w/a.rs".to_string(), 8);
    let entries = cache.entries().clone();
    let reloaded = FileCache::from_entries(entries);
    assert_eq!(reloaded.check_file(&"/w/a.rs".to_string(), Some(8)), FileStatus::Unchanged);
    assert_eq!(reloaded.check_file(&"/w/b.rs".to_string(), Some(10)), FileStatus::Modified);
}

fn sample_metadata(path: &str) -> ChunkMetadata {
    ChunkMetadata {
        file_path: path.to_string(),
        chunk_type: ChunkType::Function,
        name: Some(b"f".to_vec()),
        start_line: 1,
        end_line: 3,
        language: seekr::language::Language::Rust,
        content_preview: b"fn f() {}".to_vec(),
    }
}

#[test]
fn store_keys_match_metadata_positions() {
    // every add returns the index at which its metadata row now resides
    let mut store = VectorStore::new(384);
    let mut keys = Vec::new();
    for i in 0..5 {
        keys.push(store.add(sample_metadata(&format!("f{}.rs", i))));
    }
    assert_eq!(store.len(), 5);
    for (i, k) in keys.iter().enumerate() {
        assert_eq!(*k, i as u64);
    }
    assert!(!store.is_empty());
}

#[test]
fn store_reserve_grows_by_step() {
    let mut store = VectorStore::new(384);
    assert_eq!(store.reserve_needed(), Some(1000));
    store.set_capacity(1000);
    assert_eq!(store.reserve_needed(), None);
}

#[test]
fn store_clear_empties() {
    let mut store = VectorStore::new(384);
    store.add(sample_metadata("a.rs"));
    store.clear();
    assert!(store.is_empty());
    assert_eq!(store.reserve_needed(), Some(1000));
}

#[test]
fn resolve_hits_drops_unknown_keys() {
    let mut store = VectorStore::new(384);
    store.add(sample_metadata("a.rs"));
    store.add(sample_metadata("b.rs"));
    let keys = vec![1u64, 7u64, 0u64];
    let scores = vec![900_000i64, 800_000i64, 700_000i64];
    let hits = store.resolve_hits(&keys, &scores);
    assert_eq!(hits.len(), 2);
    assert_eq!(hits[0].score, 900_000);
    assert_eq!(hits[0].metadata.file_path, "b.rs");
    assert_eq!(hits[1].score, 700_000);
    assert_eq!(hits[1].metadata.file_path, "a.rs");
}

#[test]
fn metadata_preview_is_cut_to_two_hundred_characters() {
    let source_body: String = "x".repeat(300);
    let source = format!("fn big_function_name() {{ let s = \"{}\"; }}", source_body);
    let chunker = Chunker::default();
    let path = "p.rs".to_string();
    let chunks = chunker.chunk_file(&path, source.as_bytes());
    assert_eq!(chunks.len(), 1);
    let row = ChunkMetadata::from_chunk(&chunks[0]);
    assert_eq!(row.content_preview.len(), 200);
    assert_eq!(row.content_preview.as_slice(), &chunks[0].content[..200]);
    assert_eq!(row.start_line, chunks[0].start_line);
}

#[test]
fn metadata_preview_never_splits_a_character() {
    // 300 two-byte characters: the preview takes the first 200 of them,
    // 400 bytes, ending on a character boundary
    let body: String = "\u{e9}".repeat(300);
    let source = format!("fn accented_name() {{ let s = \"{}\"; }}", body);
    let chunker = Chunker::default();
    let path = "q.rs".to_string();
    let chunks = chunker.chunk_file(&path, source.as_bytes());
    assert_eq!(chunks.len(), 1);
    let row = ChunkMetadata::from_chunk(&chunks[0]);
    let preview = String::from_utf8(row.content_preview).unwrap();
    assert_eq!(preview.chars().count(), 200);
    let expected: String = String::from_utf8(chunks[0].content.clone())
        .unwrap()
        .chars()
        .take(200)
        .collect();
    assert_eq!(preview, expected);
}

#[test]
fn embedding_text_has_language_and_type_prefix() {
    let chunker = Chunker::default();
    let path = "p.py".to_string();
    let source = "def some_function_with_a_name():\n    return \"a reasonably long body here\"\n";
    let chunks = chunker.chunk_file(&path, source.as_bytes());
    assert_eq!(chunks.len(), 1);
    let text = embedding_text(&chunks[0]);
    let mut expected = b"[python] function: ".to_vec();
    expected.extend_from_slice(&chunks[0].content);
    assert_eq!(text, expected);
}

#[test]
fn embedding_text_cuts_content_at_five_hundred_bytes() {
    let chunker = Chunker::new(2000, 0);
    let path = "big.txt".to_string();
    let content = vec![b'y'; 800];
    let chunks = chunker.chunk_file(&path, &content);
    let text = embedding_text(&chunks[0]);
    let prefix = b"[unknown] block: ".len();
    assert_eq!(text.len(), prefix + 500);
}

#[test]
fn batch_counts_round_up() {
    assert_eq!(batch_count(0), 0);
    assert_eq!(batch_count(1), 1);
    assert_eq!(batch_count(32), 1);
    assert_eq!(batch_count(33), 2);
    assert_eq!(batch_count(64), 2);
    assert_eq!(batch_count(65), 3);
}

#[test]
fn project_hit_copies_all_fields() {
    let mut store = VectorStore::new(384);
    store.add(sample_metadata("a.rs"));
    let hits = store.resolve_hits(&vec![0u64], &vec![640_000i64]);
    let sem = project_hit(&hits[0]);
    assert_eq!(sem.file_path, "a.rs");
    assert_eq!(sem.similarity_score, 640_000);
    assert!(matches!(sem.chunk_type, ChunkType::Function));
    assert_eq!(sem.start_line, 1);
    assert_eq!(sem.end_line, 3);
    assert_eq!(sem.content_preview, b"fn f() {}".to_vec());
}
