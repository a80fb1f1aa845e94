use face_prediction::config::Config;
use face_prediction::embedding::{
    calculate_distance, isqrt, normalize_embedding, norm_squared, Embedding, COMPONENT_LIMIT,
    EMBEDDING_SCALE, MAX_EMBEDDING_LEN,
};
use face_prediction::gallery::{
    calculate_distances, rank_matches, GalleryEntry, MatchResult, DISTANCE_SENTINEL,
};

fn emb(components: Vec<i64>) -> Embedding {
    Embedding::new(components).unwrap()
}

#[test]
fn isqrt_matches_exact_roots_and_floors() {
    assert_eq!(isqrt(0), 0);
    assert_eq!(isqrt(1), 1);
    assert_eq!(isqrt(2), 1);
    assert_eq!(isqrt(3), 1);
    assert_eq!(isqrt(4), 2);
    assert_eq!(isqrt(999_999), 999);
    assert_eq!(isqrt(1_000_000), 1_000);
    assert_eq!(isqrt(250_000_000_000), 500_000);
    assert_eq!(isqrt(0x4000_0000_0000_0000 - 1), 0x7fff_ffff);
}

#[test]
fn norm_squared_sums_component_squares() {
    let e = emb(vec![300_000, -400_000]);
    assert_eq!(norm_squared(&e), 250_000_000_000);
}

#[test]
fn normalize_of_a_three_four_vector_is_exact() {
    // (0.3, 0.4) scaled: its norm is 0.5, so the unit vector is (0.6, 0.8).
    let e = emb(vec![300_000, 400_000]);
    let n = normalize_embedding(&e).unwrap();
    // Each component is c * EMBEDDING_SCALE / 500_000 rounded toward zero.
    assert_eq!(n.components[0], 300_000 * EMBEDDING_SCALE / 500_000);
    assert_eq!(n.components[1], 400_000 * EMBEDDING_SCALE / 500_000);
    assert_eq!(n.components[0], 629_145);
    assert_eq!(n.components[1], 838_860);
}

#[test]
fn normalize_keeps_signs_and_rounds_toward_zero() {
    let e = emb(vec![-300_000, 400_000]);
    let n = normalize_embedding(&e).unwrap();
    assert_eq!(n.components[0], -629_145);
    assert_eq!(n.components[1], 838_860);
}

#[test]
fn normalized_norm_is_one_within_tolerance() {
    // The squared norm of the normalized vector is EMBEDDING_SCALE^2 up to
    // the rounding of each component.
    let one = EMBEDDING_SCALE * EMBEDDING_SCALE;
    let vectors = vec![
        vec![300_000, 400_000],
        vec![-5, 12],
        vec![1_000_000, 1_000_000, 1_000_000],
        vec![7, 0, 0, 0],
        vec![123_456, -654_321, 999_999],
    ];
    for v in vectors {
        let n = normalize_embedding(&emb(v)).unwrap();
        let norm_sq: i64 = n.components.iter().map(|c| c * c).sum();
        let diff = (norm_sq - one).abs();
        // Tolerance analogous to 1e-5 on the unit norm: 2e-5 on its square.
        assert!(
            diff <= one / 50_000,
            "norm squared {} too far from {}",
            norm_sq,
            one
        );
    }
}

#[test]
fn normalize_of_the_zero_vector_is_rejected() {
    let e = emb(vec![0, 0, 0]);
    assert!(normalize_embedding(&e).is_none());
    let empty = emb(vec![]);
    assert!(normalize_embedding(&empty).is_none());
}

#[test]
fn embedding_new_rejects_out_of_range_components() {
    assert!(Embedding::new(vec![COMPONENT_LIMIT + 1]).is_none());
    assert!(Embedding::new(vec![-COMPONENT_LIMIT - 1]).is_none());
    assert!(Embedding::new(vec![COMPONENT_LIMIT, -COMPONENT_LIMIT]).is_some());
}

#[test]
fn embedding_new_rejects_an_overlong_vector() {
    assert!(Embedding::new(vec![0; MAX_EMBEDDING_LEN + 1]).is_none());
    assert!(Embedding::new(vec![0; MAX_EMBEDDING_LEN]).is_some());
}

#[test]
fn distance_to_itself_is_zero() {
    let v = emb(vec![17, -23, 42, 0, 8_000_000]);
    assert_eq!(calculate_distance(&v, &v), 0);
}

#[test]
fn distance_is_symmetric() {
    let a = emb(vec![10, 20, -30]);
    let b = emb(vec![-5, 200, 7]);
    assert_eq!(calculate_distance(&a, &b), calculate_distance(&b, &a));
}

#[test]
fn distance_of_a_known_pair_is_exact() {
    let a = emb(vec![1, 2]);
    let b = emb(vec![4, 6]);
    assert_eq!(calculate_distance(&a, &b), 25);
}

#[test]
fn gallery_entry_without_embeddings_gets_the_sentinel() {
    let query = emb(vec![100, 200]);
    let gallery = vec![GalleryEntry { path: String::from("empty.jpg"), embeddings: vec![] }];
    let results = calculate_distances(&query, &gallery);
    assert_eq!(results.len(), 1);
    assert_eq!(results[0].path, "empty.jpg");
    assert_eq!(results[0].distance, DISTANCE_SENTINEL);
}

#[test]
fn gallery_keeps_the_closest_face_per_image() {
    let query = emb(vec![0, 0]);
    let gallery = vec![GalleryEntry {
        path: String::from("two_faces.jpg"),
        embeddings: vec![emb(vec![3, 4]), emb(vec![1, 1])],
    }];
    let results = calculate_distances(&query, &gallery);
    assert_eq!(results.len(), 1);
    assert_eq!(results[0].distance, 2);
}

#[test]
fn exact_match_ranks_first() {
    // One image holds an embedding identical to the query (distance zero),
    // the other holds none (sentinel distance): the exact match wins even
    // though it comes last in the input.
    let query = emb(vec![300, -400]);
    let gallery = vec![
        GalleryEntry { path: String::from("no_faces.jpg"), embeddings: vec![] },
        GalleryEntry {
            path: String::from("same_face.jpg"),
            embeddings: vec![emb(vec![300, -400])],
        },
    ];
    let results = calculate_distances(&query, &gallery);
    let ranked = rank_matches(results);
    assert_eq!(ranked.len(), 2);
    assert_eq!(ranked[0].path, "same_face.jpg");
    assert_eq!(ranked[0].distance, 0);
    assert_eq!(ranked[1].path, "no_faces.jpg");
    assert_eq!(ranked[1].distance, DISTANCE_SENTINEL);
}

#[test]
fn ranking_is_ascending_and_stable_on_ties() {
    let results = vec![
        MatchResult { path: String::from("c"), distance: 9 },
        MatchResult { path: String::from("a"), distance: 4 },
        MatchResult { path: String::from("b"), distance: 4 },
    ];
    let ranked = rank_matches(results);
    assert_eq!(ranked[0].path, "a");
    assert_eq!(ranked[1].path, "b");
    assert_eq!(ranked[2].path, "c");
}

#[test]
fn config_rejects_too_few_arguments() {
    let args = vec![
        String::from("face_prediction"),
        String::from("ultra.onnx"),
        String::from("arc.onnx"),
    ];
    assert!(matches!(Config::new(&args), Err("Not enough arguments")));
}

#[test]
fn config_reads_the_five_paths_in_order() {
    let args = vec![
        String::from("face_prediction"),
        String::from("ultra.onnx"),
        String::from("arc.onnx"),
        String::from("input_folder"),
        String::from("output_folder"),
        String::from("reference.jpg"),
    ];
    let config = Config::new(&args).unwrap();
    assert_eq!(config.ultra_model_path, "ultra.onnx");
    assert_eq!(config.arc_model_path, "arc.onnx");
    assert_eq!(config.folder_path, "input_folder");
    assert_eq!(config.result_folder, "output_folder");
    assert_eq!(config.test_case_path, "reference.jpg");
}
