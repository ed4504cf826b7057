use seekr::lexical::{find_matching_lines, lexical_language_of, line_count, plan_document, IndexStats};
use seekr::watcher::{EventClass, FileWatcher, WatcherState};

#[test]
fn search_scenario_single_matching_line() {
    // one stored document holding one function; the query term names it
    let content = b"fn hello_world() { println!(\"hi\"); }";
    let matches = find_matching_lines(content, b"hello_world");
    assert_eq!(matches.len(), 1);
    assert_eq!(matches[0].0, 1);
    assert_eq!(matches[0].1, b"fn hello_world() { println!(\"hi\"); }".to_vec());
}

#[test]
fn matching_is_case_insensitive() {
    let content = b"First Line\nSECOND LINE\nthird line\n";
    let matches = find_matching_lines(content, b"LINE");
    assert_eq!(matches.len(), 3);
    assert_eq!(matches[0].0, 1);
    assert_eq!(matches[1].0, 2);
    assert_eq!(matches[2].0, 3);
    assert_eq!(matches[1].1, b"SECOND LINE".to_vec());
}

#[test]
fn matching_takes_any_term_and_stops_at_ten() {
    let mut content = Vec::new();
    for i in 0..15 {
        content.extend_from_slice(format!("needle number {}\n", i).as_bytes());
    }
    content.extend_from_slice(b"haystack only\n");
    let matches = find_matching_lines(&content, b"needle bale");
    assert_eq!(matches.len(), 10);
    assert_eq!(matches[9].0, 10);
}

#[test]
fn matching_skips_non_matching_lines() {
    let content = b"alpha\nbeta\ngamma\nbeta again\n";
    let matches = find_matching_lines(content, b"beta");
    assert_eq!(matches.len(), 2);
    assert_eq!(matches[0].0, 2);
    assert_eq!(matches[1].0, 4);
    assert_eq!(matches[1].1, b"beta again".to_vec());
}

#[test]
fn lexical_language_table() {
    assert_eq!(lexical_language_of("a.rs"), Some("rust"));
    assert_eq!(lexical_language_of("a.py"), Some("python"));
    assert_eq!(lexical_language_of("a.ts"), Some("typescript"));
    assert_eq!(lexical_language_of("a.tsx"), Some("typescript"));
    assert_eq!(lexical_language_of("a.js"), Some("javascript"));
    assert_eq!(lexical_language_of("a.jsx"), Some("javascript"));
    assert_eq!(lexical_language_of("a.go"), Some("go"));
    assert_eq!(lexical_language_of("a.java"), Some("java"));
    assert_eq!(lexical_language_of("a.c"), Some("c"));
    assert_eq!(lexical_language_of("a.h"), Some("c"));
    assert_eq!(lexical_language_of("a.cpp"), Some("cpp"));
    assert_eq!(lexical_language_of("a.hpp"), Some("cpp"));
    assert_eq!(lexical_language_of("a.cc"), Some("cpp"));
    assert_eq!(lexical_language_of("a.rb"), Some("ruby"));
    assert_eq!(lexical_language_of("a.md"), Some("markdown"));
    assert_eq!(lexical_language_of("a.toml"), Some("toml"));
    assert_eq!(lexical_language_of("a.yaml"), Some("yaml"));
    assert_eq!(lexical_language_of("a.yml"), Some("yaml"));
    assert_eq!(lexical_language_of("a.json"), Some("json"));
    assert_eq!(lexical_language_of("a.exe"), None);
    assert_eq!(lexical_language_of("Makefile"), None);
}

#[test]
fn line_counts() {
    assert_eq!(line_count(b""), 0);
    assert_eq!(line_count(b"one line"), 1);
    assert_eq!(line_count(b"one line\n"), 1);
    assert_eq!(line_count(b"a\nb"), 2);
    assert_eq!(line_count(b"a\nb\n"), 2);
}

#[test]
fn document_plans() {
    let plan = plan_document("src/a.rs", b"fn main() {}\nfn other() {}\n").unwrap();
    assert_eq!(plan.language, "rust");
    assert_eq!(plan.line_count, 2);
    assert!(plan_document("a.bin", b"whatever").is_none());
}

#[test]
fn stats_accumulate() {
    let mut stats = IndexStats::default();
    stats.record_file(10);
    stats.record_file(5);
    assert_eq!(stats.files_indexed, 2);
    assert_eq!(stats.total_lines, 15);
}

#[test]
fn watcher_filters_paths() {
    assert!(FileWatcher::is_indexable("src/main.rs"));
    assert!(FileWatcher::is_indexable("doc/readme.md"));
    assert!(!FileWatcher::is_indexable(".git/config.toml"));
    assert!(!FileWatcher::is_indexable("src/.hidden/a.rs"));
    assert!(!FileWatcher::is_indexable("src/binary.exe"));
    assert!(!FileWatcher::is_indexable("no_extension"));
}

#[test]
fn watcher_debounce_fires_once_for_a_burst() {
    // five files created within one debounce window coalesce into a single
    // reindex at the next quiet period
    let mut state = WatcherState::new();
    for i in 0..5 {
        let paths = vec![format!("src/f{}.rs", i)];
        state.note_event(EventClass::Create, &paths);
    }
    assert_eq!(state.pending_count(), 5);
    assert!(state.take_pending());
    assert_eq!(state.pending_count(), 0);
    assert!(!state.take_pending());
}

#[test]
fn watcher_coalesces_repeated_paths() {
    let mut state = WatcherState::new();
    let paths = vec!["src/a.rs".to_string(), "src/a.rs".to_string()];
    state.note_event(EventClass::Modify, &paths);
    state.note_event(EventClass::Modify, &paths);
    assert_eq!(state.pending_count(), 1);
}

#[test]
fn watcher_ignores_other_events_and_junk_paths() {
    let mut state = WatcherState::new();
    state.note_event(EventClass::Other, &vec!["src/a.rs".to_string()]);
    state.note_event(EventClass::Create, &vec![".cache/a.rs".to_string()]);
    state.note_event(EventClass::Remove, &vec!["target/x.bin".to_string()]);
    assert_eq!(state.pending_count(), 0);
    assert!(!state.take_pending());
}

#[test]
fn watcher_default_debounce() {
    let w = FileWatcher::default();
    assert_eq!(w.debounce_ms(), 500);
}

#[test]
fn carriage_returns_are_stripped_before_newlines() {
    let content = b"alpha\r\nbeta\r\ngamma";
    let matches = find_matching_lines(content, b"alpha beta gamma");
    assert_eq!(matches.len(), 3);
    assert_eq!(matches[0].1, b"alpha".to_vec());
    assert_eq!(matches[1].1, b"beta".to_vec());
    // the final unterminated line is kept whole
    assert_eq!(matches[2].1, b"gamma".to_vec());
}

#[test]
fn matching_folds_unicode_case() {
    // the fold is the full Unicode one: a capital A-umlaut line matches a
    // lower-case a-umlaut query, and the Greek line matches its upper-case
    // query; an unchanged fold would match neither
    let content = "K\u{c4}SE kuchen\n\u{3b1}\u{3b2}\u{3b3} soup\n".as_bytes();
    let matches = find_matching_lines(content, "k\u{e4}se".as_bytes());
    assert_eq!(matches.len(), 1);
    assert_eq!(matches[0].0, 1);
    assert_eq!(matches[0].1, "K\u{c4}SE kuchen".as_bytes().to_vec());
    let greek = find_matching_lines(content, "\u{391}\u{392}\u{393}".as_bytes());
    assert_eq!(greek.len(), 1);
    assert_eq!(greek[0].0, 2);
}

#[test]
fn query_terms_split_on_any_whitespace() {
    let content = b"only the second word appears\n";
    let matches = find_matching_lines(content, b"  missing\tsecond \n");
    assert_eq!(matches.len(), 1);
    assert_eq!(matches[0].0, 1);
}
