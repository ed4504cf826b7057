use seekr::ranker::{HybridConfig, HybridRanker, RankedResult, SearchSource};

fn make_result(path: &str, score: u64, source: SearchSource) -> RankedResult {
    RankedResult {
        file_path: path.to_string(),
        score,
        source,
        start_line: 1,
        end_line: 10,
        content_preview: "test".to_string(),
        name: None,
    }
}

#[test]
fn test_rrf_fusion() {
    let ranker = HybridRanker::new(HybridConfig::default());

    let lexical = vec![
        make_result("a.rs", 10_000_000, SearchSource::Lexical),
        make_result("b.rs", 8_000_000, SearchSource::Lexical),
    ];

    let semantic = vec![
        make_result("b.rs", 900_000, SearchSource::Semantic),
        make_result("c.rs", 800_000, SearchSource::Semantic),
    ];

    let results = ranker.fuse(lexical, semantic, 10);

    // b.rs should be first since it appears in both
    assert!(results[0].file_path == "b.rs" || results[1].file_path == "b.rs");
}

#[test]
fn hybrid_fusion_ordering() {
    // lexical x > y > z, semantic y > z > w, default reciprocal-rank fusion:
    // y fuses contributions from both lists and tops the ranking, and x
    // (rank 0 of one list) stays above w (rank 2 of one list).
    let ranker = HybridRanker::new(HybridConfig::default());
    let lexical = vec![
        make_result("x", 10_000_000, SearchSource::Lexical),
        make_result("y", 8_000_000, SearchSource::Lexical),
        make_result("z", 6_000_000, SearchSource::Lexical),
    ];
    let semantic = vec![
        make_result("y", 900_000, SearchSource::Semantic),
        make_result("z", 800_000, SearchSource::Semantic),
        make_result("w", 700_000, SearchSource::Semantic),
    ];
    let results = ranker.fuse(lexical, semantic, 10);
    assert_eq!(results.len(), 4);
    assert_eq!(results[0].file_path, "y");
    let pos_x = results.iter().position(|r| r.file_path == "x").unwrap();
    let pos_w = results.iter().position(|r| r.file_path == "w").unwrap();
    assert!(pos_x < pos_w);
    for r in &results {
        assert!(matches!(r.source, SearchSource::Hybrid));
    }
}

#[test]
fn rrf_fused_scores_exact() {
    // With k=60 and alpha one half, rank r contributes
    // (500000 * (1000000/(61+r))) / 1000000 millionths.
    let ranker = HybridRanker::new(HybridConfig::default());
    let lexical = vec![make_result("a", 5_000_000, SearchSource::Lexical)];
    let semantic = vec![make_result("a", 900_000, SearchSource::Semantic)];
    let results = ranker.fuse(lexical, semantic, 10);
    assert_eq!(results.len(), 1);
    // 1000000/61 = 16393; both weights are 500000, so each side adds 8196.
    assert_eq!(results[0].score, 2 * 8196);
}

#[test]
fn fusion_truncates_and_sorts() {
    let ranker = HybridRanker::new(HybridConfig::default());
    let lexical = vec![
        make_result("a", 3_000_000, SearchSource::Lexical),
        make_result("b", 2_000_000, SearchSource::Lexical),
        make_result("c", 1_000_000, SearchSource::Lexical),
    ];
    let results = ranker.fuse(lexical, Vec::new(), 2);
    assert_eq!(results.len(), 2);
    assert!(results[0].score >= results[1].score);
    assert_eq!(results[0].file_path, "a");
    assert_eq!(results[1].file_path, "b");
}

#[test]
fn linear_fusion_uses_normalized_scores() {
    let config = HybridConfig { alpha: 500_000, rrf_k: 60, use_rrf: false };
    let ranker = HybridRanker::new(config);
    let lexical = vec![
        make_result("a", 30, SearchSource::Lexical),
        make_result("b", 20, SearchSource::Lexical),
        make_result("c", 10, SearchSource::Lexical),
    ];
    let results = ranker.fuse(lexical, Vec::new(), 10);
    assert_eq!(results.len(), 3);
    // normalized scores 1000000, 500000, 0, weighted by one half
    assert_eq!(results[0].file_path, "a");
    assert_eq!(results[0].score, 500_000);
    assert_eq!(results[1].score, 250_000);
    assert_eq!(results[2].score, 0);
}

#[test]
fn normalize_scores_min_max() {
    let input = vec![
        make_result("a", 10, SearchSource::Lexical),
        make_result("b", 20, SearchSource::Lexical),
        make_result("c", 30, SearchSource::Lexical),
    ];
    let out = seekr::ranker::normalize_scores(input);
    assert_eq!(out[0].score, 0);
    assert_eq!(out[1].score, 500_000);
    assert_eq!(out[2].score, 1_000_000);
}

#[test]
fn normalize_scores_idempotent() {
    // Normalizing an already normalized list changes nothing.
    let input = vec![
        make_result("a", 7, SearchSource::Lexical),
        make_result("b", 19, SearchSource::Lexical),
        make_result("c", 4, SearchSource::Lexical),
    ];
    let once = seekr::ranker::normalize_scores(input);
    let once_scores: Vec<u64> = once.iter().map(|r| r.score).collect();
    let twice = seekr::ranker::normalize_scores(once);
    let twice_scores: Vec<u64> = twice.iter().map(|r| r.score).collect();
    assert_eq!(once_scores, twice_scores);
}

#[test]
fn normalize_scores_all_equal() {
    let input = vec![
        make_result("a", 5, SearchSource::Lexical),
        make_result("b", 5, SearchSource::Lexical),
    ];
    let out = seekr::ranker::normalize_scores(input);
    assert_eq!(out[0].score, 1_000_000);
    assert_eq!(out[1].score, 1_000_000);
}

#[test]
fn shared_path_keeps_the_lexical_record() {
    // y occurs in both lists; the retained record fields are those of its
    // first lexical occurrence, with the source set to Hybrid
    let ranker = HybridRanker::new(HybridConfig::default());
    let mut lex_y = make_result("y", 8_000_000, SearchSource::Lexical);
    lex_y.start_line = 11;
    lex_y.end_line = 22;
    lex_y.content_preview = "lexical preview".to_string();
    let mut sem_y = make_result("y", 900_000, SearchSource::Semantic);
    sem_y.start_line = 33;
    sem_y.end_line = 44;
    sem_y.content_preview = "semantic preview".to_string();
    let results = ranker.fuse(vec![lex_y], vec![sem_y], 10);
    assert_eq!(results.len(), 1);
    assert_eq!(results[0].start_line, 11);
    assert_eq!(results[0].end_line, 22);
    assert_eq!(results[0].content_preview, "lexical preview");
    assert!(matches!(results[0].source, SearchSource::Hybrid));
}

#[test]
fn equal_scores_keep_insertion_order() {
    // two documents at the same lexical rank structure fuse to equal
    // scores; the one seen first stays first
    let config = HybridConfig { alpha: 1_000_000, rrf_k: 60, use_rrf: false };
    let ranker = HybridRanker::new(config);
    let lexical = vec![
        make_result("first", 5, SearchSource::Lexical),
        make_result("second", 5, SearchSource::Lexical),
    ];
    let results = ranker.fuse(lexical, Vec::new(), 10);
    assert_eq!(results.len(), 2);
    assert_eq!(results[0].score, results[1].score);
    assert_eq!(results[0].file_path, "first");
    assert_eq!(results[1].file_path, "second");
}

#[test]
fn rrf_score_stays_under_reciprocal_bound() {
    // Every fused score stays at or below 1000000/(k+1) = 16393 millionths
    // when each path occurs at most once per list.
    let ranker = HybridRanker::new(HybridConfig::default());
    let lexical: Vec<RankedResult> =
        (0..20).map(|i| make_result(&format!("f{}", i), 1000 - i, SearchSource::Lexical)).collect();
    let semantic: Vec<RankedResult> =
        (0..20).map(|i| make_result(&format!("f{}", i), 900 - i, SearchSource::Semantic)).collect();
    let results = ranker.fuse(lexical, semantic, 100);
    for r in &results {
        assert!(r.score > 0);
        assert!(r.score <= 16393);
    }
}
