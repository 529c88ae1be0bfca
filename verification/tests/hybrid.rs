use rag_personal::retrieve::hybrid_retriever::{rrf_fuse, DEFAULT_RRF_K};
use rag_personal::store::{Hit, SCORE_SCALE};

fn hit(chunk_id: &str) -> Hit {
    Hit {
        chunk_id: chunk_id.to_string(),
        page_id: "p".to_string(),
        title: "t".to_string(),
        url: "u".to_string(),
        text: "x".to_string(),
        score: 0,
    }
}

fn as_float(score: i64) -> f64 {
    score as f64 / SCORE_SCALE as f64
}

#[test]
fn doc_in_both_lists_outranks_doc_in_one() {
    let dense = vec![hit("a"), hit("b"), hit("c")];
    let lexical = vec![hit("d"), hit("a"), hit("e")];

    let fused = rrf_fuse(vec![dense, lexical], 60, 5);
    assert_eq!(fused[0].chunk_id, "a", "a is in both, should rank first");
}

#[test]
fn rrf_score_matches_formula() {
    // a: rank 1 in list1 + rank 2 in list2 => 1/61 + 1/62
    let dense = vec![hit("a"), hit("b")];
    let lexical = vec![hit("b"), hit("a")];

    let fused = rrf_fuse(vec![dense, lexical], 60, 2);
    let a = fused.iter().find(|h| h.chunk_id == "a").unwrap();
    let expected = 1.0 / 61.0 + 1.0 / 62.0;
    assert!(
        (as_float(a.score) - expected).abs() < 1e-6,
        "got {}, want {}",
        as_float(a.score),
        expected
    );
}

#[test]
fn tiebreak_is_stable_on_chunk_id() {
    // x and y appear at identical ranks → equal fused scores → tiebreak by chunk_id asc
    let l1 = vec![hit("y"), hit("x")];
    let l2 = vec![hit("y"), hit("x")];

    let fused = rrf_fuse(vec![l1, l2], 60, 2);
    assert_eq!(fused[0].chunk_id, "y", "y wins rank 1 in both");
    // For a true tie test:
    let m1 = vec![hit("zeta"), hit("alpha")];
    let m2 = vec![hit("alpha"), hit("zeta")];
    let fused = rrf_fuse(vec![m1, m2], 60, 2);
    // both got rank1+rank2 → identical score → alpha < zeta lexicographically wins
    assert_eq!(fused[0].chunk_id, "alpha");
    assert_eq!(fused[1].chunk_id, "zeta");
}

#[test]
fn top_k_truncates() {
    let l1: Vec<Hit> = (0..10).map(|i| hit(&format!("c{i}"))).collect();
    let fused = rrf_fuse(vec![l1], 60, 3);
    assert_eq!(fused.len(), 3);
}

#[test]
fn fused_scores_are_exact_fixed_point_sums() {
    let fused = rrf_fuse(vec![vec![hit("a"), hit("b")], vec![hit("b")]], DEFAULT_RRF_K, 5);
    assert_eq!(fused.len(), 2);
    // b: 1/62 + 1/61, a: 1/61, each term rounded down to the scale.
    assert_eq!(fused[0].chunk_id, "b");
    assert_eq!(fused[0].score, SCORE_SCALE / 62 + SCORE_SCALE / 61);
    assert_eq!(fused[1].chunk_id, "a");
    assert_eq!(fused[1].score, SCORE_SCALE / 61);
}

#[test]
fn first_copy_of_a_chunk_is_kept() {
    let mut first = hit("a");
    first.text = "dense text".to_string();
    let mut second = hit("a");
    second.text = "lexical text".to_string();
    let fused = rrf_fuse(vec![vec![first], vec![second]], 60, 5);
    assert_eq!(fused.len(), 1);
    assert_eq!(fused[0].text, "dense text");
}

#[test]
fn empty_inputs_give_no_hits() {
    assert!(rrf_fuse(vec![], 60, 5).is_empty());
    assert!(rrf_fuse(vec![vec![], vec![]], 60, 5).is_empty());
    assert!(rrf_fuse(vec![vec![hit("a")]], 60, 0).is_empty());
}

#[test]
fn results_are_sorted_and_distinct() {
    let l1 = vec![hit("c"), hit("a"), hit("b"), hit("a")];
    let l2 = vec![hit("b"), hit("d")];
    let fused = rrf_fuse(vec![l1, l2], 60, 10);
    assert_eq!(fused.len(), 4);
    for w in fused.windows(2) {
        assert!(
            w[0].score > w[1].score || (w[0].score == w[1].score && w[0].chunk_id < w[1].chunk_id)
        );
    }
    let mut ids: Vec<&str> = fused.iter().map(|h| h.chunk_id.as_str()).collect();
    ids.sort();
    ids.dedup();
    assert_eq!(ids.len(), 4);
}

#[test]
fn fusion_is_reproducible() {
    let make = || {
        vec![
            vec![hit("b"), hit("a"), hit("c")],
            vec![hit("c"), hit("b"), hit("d")],
        ]
    };
    let first = rrf_fuse(make(), 60, 3);
    let second = rrf_fuse(make(), 60, 3);
    let key = |v: &Vec<Hit>| {
        v.iter()
            .map(|h| (h.chunk_id.clone(), h.score))
            .collect::<Vec<_>>()
    };
    assert_eq!(key(&first), key(&second));
    assert_eq!(
        first.iter().map(|h| h.chunk_id.as_str()).collect::<Vec<_>>(),
        vec!["b", "c", "a"]
    );
}
