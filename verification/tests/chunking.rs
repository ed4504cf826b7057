use seekr::chunker::{Chunker, ChunkType};
use seekr::language::Language;

#[test]
fn rust_function_chunk_round_trip() {
    let source = "fn hello_world() {\n    println!(\"a reasonably long greeting\");\n    println!(\"again\");\n}\n";
    let chunker = Chunker::default();
    let path = "src/a.rs".to_string();
    let chunks = chunker.chunk_file(&path, source.as_bytes());
    assert_eq!(chunks.len(), 1);
    let c = &chunks[0];
    assert!(matches!(c.chunk_type, ChunkType::Function));
    assert!(matches!(c.language, Language::Rust));
    // round trip: content equals the source bytes of its span
    assert_eq!(&source.as_bytes()[c.start_byte..c.end_byte], c.content.as_slice());
    assert!(c.content.len() >= 50);
    assert_eq!(c.start_line, 1);
    assert_eq!(c.end_line, 4);
    assert_eq!(c.name.as_deref(), Some(b"hello_world".as_slice()));
}

#[test]
fn python_two_functions_two_chunks() {
    let source = "def first_function():\n    return \"some reasonably long string value\"\n\n\ndef second_function():\n    return \"another reasonably long string value\"\n";
    let chunker = Chunker::default();
    let path = "b.py".to_string();
    let chunks = chunker.chunk_file(&path, source.as_bytes());
    assert_eq!(chunks.len(), 2);
    assert!(matches!(chunks[0].chunk_type, ChunkType::Function));
    assert!(matches!(chunks[1].chunk_type, ChunkType::Function));
    assert_eq!(chunks[0].name.as_deref(), Some(b"first_function".as_slice()));
    assert_eq!(chunks[1].name.as_deref(), Some(b"second_function".as_slice()));
    for c in &chunks {
        assert_eq!(&source.as_bytes()[c.start_byte..c.end_byte], c.content.as_slice());
    }
}

#[test]
fn nested_rust_items_emit_independently() {
    let source = "mod outer_module_name {\n    fn inner_function_here() {\n        println!(\"nested body with enough bytes to count\");\n    }\n}\n";
    let chunker = Chunker::default();
    let path = "m.rs".to_string();
    let chunks = chunker.chunk_file(&path, source.as_bytes());
    // the module and the nested function are both emitted, module first
    assert_eq!(chunks.len(), 2);
    assert!(matches!(chunks[0].chunk_type, ChunkType::Module));
    assert!(matches!(chunks[1].chunk_type, ChunkType::Function));
}

#[test]
fn tiny_syntax_chunks_fall_back_to_window() {
    // one short function: under 50 bytes, so the syntax pass emits nothing
    // and the sliding window takes over
    let source = "fn a() {}\n";
    let chunker = Chunker::default();
    let path = "t.rs".to_string();
    let chunks = chunker.chunk_file(&path, source.as_bytes());
    assert_eq!(chunks.len(), 1);
    assert!(matches!(chunks[0].chunk_type, ChunkType::Block));
    assert_eq!(chunks[0].content.as_slice(), source.as_bytes());
}

#[test]
fn sliding_window_no_overlap_tiles_input() {
    // unknown extension forces the sliding window; with overlap zero the
    // windows tile the input: each chunk begins where the one before ended
    let mut content = Vec::new();
    for i in 0..100u8 {
        content.push(if i % 10 == 9 { b'\n' } else { b'a' });
    }
    let chunker = Chunker::new(40, 0);
    let path = "notes.txt".to_string();
    let chunks = chunker.chunk_file(&path, &content);
    assert_eq!(chunks.len(), 3);
    assert_eq!((chunks[0].start_byte, chunks[0].end_byte), (0, 40));
    assert_eq!((chunks[1].start_byte, chunks[1].end_byte), (40, 80));
    assert_eq!((chunks[2].start_byte, chunks[2].end_byte), (80, 100));
    // concatenation of the contents equals the input prefix covered
    let mut joined = Vec::new();
    for c in &chunks {
        assert!(matches!(c.chunk_type, ChunkType::Block));
        joined.extend_from_slice(&c.content);
    }
    assert_eq!(joined, content);
    assert_eq!(chunks[0].name.as_deref(), Some(b"block_0".as_slice()));
    assert_eq!(chunks[1].name.as_deref(), Some(b"block_1".as_slice()));
    assert_eq!(chunks[2].name.as_deref(), Some(b"block_2".as_slice()));
    // line numbers are 1-indexed newline counts
    assert_eq!(chunks[0].start_line, 1);
    assert_eq!(chunks[1].start_line, 5);
    assert_eq!(chunks[2].start_line, 9);
}

#[test]
fn sliding_window_overlap_steps_back() {
    // 2000-byte window at twenty percent overlap steps 1600 bytes forward
    let content = vec![b'x'; 4000];
    let chunker = Chunker::default();
    let path = "data.log".to_string();
    let chunks = chunker.chunk_file(&path, &content);
    assert!(chunks.len() >= 2);
    assert_eq!((chunks[0].start_byte, chunks[0].end_byte), (0, 2000));
    assert_eq!((chunks[1].start_byte, chunks[1].end_byte), (1600, 3600));
}

#[test]
fn empty_input_yields_no_chunks() {
    let chunker = Chunker::default();
    let path = "empty.txt".to_string();
    let chunks = chunker.chunk_file(&path, b"");
    assert_eq!(chunks.len(), 0);
}

#[test]
fn language_from_path_table() {
    assert!(matches!(Language::from_path("src/a.rs"), Language::Rust));
    assert!(matches!(Language::from_path("b.py"), Language::Python));
    assert!(matches!(Language::from_path("c.js"), Language::JavaScript));
    assert!(matches!(Language::from_path("c.jsx"), Language::JavaScript));
    assert!(matches!(Language::from_path("c.mjs"), Language::JavaScript));
    assert!(matches!(Language::from_path("c.cjs"), Language::JavaScript));
    assert!(matches!(Language::from_path("d.ts"), Language::TypeScript));
    assert!(matches!(Language::from_path("d.tsx"), Language::TypeScript));
    assert!(matches!(Language::from_path("e.go"), Language::Go));
    assert!(matches!(Language::from_path("f.txt"), Language::Unknown));
    assert!(matches!(Language::from_path("noext"), Language::Unknown));
    assert!(matches!(Language::from_path(".gitignore"), Language::Unknown));
    assert!(matches!(Language::from_path("dir.rs/file"), Language::Unknown));
}

#[test]
fn language_names() {
    assert_eq!(Language::Rust.name(), "rust");
    assert_eq!(Language::Python.name(), "python");
    assert_eq!(Language::JavaScript.name(), "javascript");
    assert_eq!(Language::TypeScript.name(), "typescript");
    assert_eq!(Language::Go.name(), "go");
    assert_eq!(Language::Unknown.name(), "unknown");
    assert_eq!(Language::Rust.name_bytes(), b"rust".to_vec());
}

#[test]
fn labels_read_back() {
    assert!(matches!(Language::from_label("rust"), Language::Rust));
    assert!(matches!(Language::from_label("python"), Language::Python));
    assert!(matches!(Language::from_label("javascript"), Language::JavaScript));
    assert!(matches!(Language::from_label("typescript"), Language::TypeScript));
    assert!(matches!(Language::from_label("go"), Language::Go));
    assert!(matches!(Language::from_label("basic"), Language::Unknown));
    assert!(matches!(ChunkType::from_label("function"), ChunkType::Function));
    assert!(matches!(ChunkType::from_label("class"), ChunkType::Class));
    assert!(matches!(ChunkType::from_label("method"), ChunkType::Method));
    assert!(matches!(ChunkType::from_label("struct"), ChunkType::Struct));
    assert!(matches!(ChunkType::from_label("impl"), ChunkType::Impl));
    assert!(matches!(ChunkType::from_label("module"), ChunkType::Module));
    assert!(matches!(ChunkType::from_label("anything else"), ChunkType::Block));
}

#[test]
fn chunk_type_names() {
    assert_eq!(ChunkType::Function.name(), "function");
    assert_eq!(ChunkType::Class.name(), "class");
    assert_eq!(ChunkType::Method.name(), "method");
    assert_eq!(ChunkType::Struct.name(), "struct");
    assert_eq!(ChunkType::Impl.name(), "impl");
    assert_eq!(ChunkType::Module.name(), "module");
    assert_eq!(ChunkType::Block.name(), "block");
}
