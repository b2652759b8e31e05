use rust_embedding::{normalize_model, EmbeddingService, StoreError};

fn bits(v: &[f64]) -> Vec<u64> {
    v.iter().map(|x| x.to_bits()).collect()
}

fn cosine(a: &[f64], b: &[f64]) -> f64 {
    let dot: f64 = a.iter().zip(b.iter()).map(|(x, y)| x * y).sum();
    let na: f64 = a.iter().map(|x| x * x).sum::<f64>().sqrt();
    let nb: f64 = b.iter().map(|x| x * x).sum::<f64>().sqrt();
    if na == 0.0 || nb == 0.0 {
        0.0
    } else {
        dot / (na * nb)
    }
}

fn sims_for(service: &EmbeddingService, query: &[f64]) -> Vec<u64> {
    service
        .read_all()
        .iter()
        .map(|rec| {
            let stored: Vec<f64> = rec.embedding.iter().map(|b| f64::from_bits(*b)).collect();
            cosine(query, &stored).to_bits()
        })
        .collect()
}

#[test]
fn test_store_embedding() {
    let mut service = EmbeddingService::new();
    let model = normalize_model(Some("text-embedding-3-large".to_string()));
    assert_eq!(model, "text-embedding-3-large");
    let vec = bits(&[0.1, 0.2, 0.3]);
    let result = service.save_embedding("Hello world", &vec, &model, "test");
    let stored = result.is_ok();
    assert!(stored);
    assert_eq!(service.read_all().len(), 1);
    assert_eq!(service.read_all()[0].embedding, vec);
}

#[test]
fn test_compare_embeddings() {
    let mut service = EmbeddingService::new();
    service.clear_data();

    let entries = vec![
        ("This is a user bio", "user", vec![1.0, 0.0, 0.0]),
        ("Another user bio", "user", vec![0.8, 0.6, 0.0]),
        ("This is a product title", "title", vec![0.0, 1.0, 0.0]),
        ("Another product title", "title", vec![0.0, 0.8, 0.6]),
    ];
    let mut stored_texts = Vec::new();
    let mut stored_types = Vec::new();
    for (text, embedding_type, v) in &entries {
        let result = service.save_embedding(
            text,
            &bits(v),
            "text-embedding-3-large",
            embedding_type,
        );
        assert!(result.is_ok());
        stored_texts.push(*text);
        stored_types.push(*embedding_type);
    }

    // Compare within the "user" type.
    let query = [0.9, 0.1, 0.0];
    let results = service
        .compare_embeddings(
            "A new user biography",
            &bits(&query),
            &sims_for(&service, &query),
            Some(5),
            true,
            Some("user".to_string()),
        )
        .unwrap();
    assert!(!results.is_empty(), "Should have user type results");
    for result in &results {
        assert_eq!(result.embedding_type, "user");
        assert!(stored_texts.contains(&result.text.as_str()));
    }

    // Compare within the "title" type.
    let query = [0.1, 0.9, 0.0];
    let results = service
        .compare_embeddings(
            "A new product title",
            &bits(&query),
            &sims_for(&service, &query),
            Some(5),
            true,
            Some("title".to_string()),
        )
        .unwrap();
    assert!(!results.is_empty(), "Should have title type results");
    for result in &results {
        assert_eq!(result.embedding_type, "title");
        assert!(stored_texts.contains(&result.text.as_str()));
    }

    // Compare across all types (no type filter).
    let query = [0.5, 0.5, 0.1];
    let results = service
        .compare_embeddings(
            "Something to compare with everything",
            &bits(&query),
            &sims_for(&service, &query),
            None,
            true,
            None,
        )
        .unwrap();
    assert!(!results.is_empty(), "Should have results when comparing across all types");
    for result in &results {
        assert!(stored_texts.contains(&result.text.as_str()));
        assert!(stored_types.contains(&result.embedding_type.as_str()));
    }
    let user_count = results.iter().filter(|r| r.embedding_type == "user").count();
    let title_count = results.iter().filter(|r| r.embedding_type == "title").count();
    assert!(user_count > 0, "Should have at least one user type result");
    assert!(title_count > 0, "Should have at least one title type result");
    assert_eq!(
        user_count + title_count,
        results.len(),
        "All results should be either user or title type"
    );
}

#[test]
fn test_default_model() {
    let model = normalize_model(None);
    assert_eq!(model, "text-embedding-3-large");
    let unknown = normalize_model(Some("some-other-model".to_string()));
    assert_eq!(unknown, "text-embedding-3-large");
    let mut service = EmbeddingService::new();
    let result = service.save_embedding(
        "Testing default model",
        &bits(&[0.4, 0.5]),
        &model,
        "test",
    );
    assert!(result.is_ok());
    assert_eq!(service.read_all()[0].model, "text-embedding-3-large");
}

#[test]
fn test_duplicate_prevention() {
    let mut service = EmbeddingService::new();
    service.clear_data();

    let first = service.save_embedding(
        "Duplicate text",
        &bits(&[0.1, 0.2]),
        "text-embedding-3-large",
        "test_type",
    );
    assert!(first.is_ok());

    // Same text with the same type is refused.
    let duplicate = service.save_embedding(
        "Duplicate text",
        &bits(&[0.1, 0.2]),
        "text-embedding-3-large",
        "test_type",
    );
    assert!(duplicate.is_err());
    match duplicate {
        Err(StoreError::Duplicate { embedding_type }) => {
            assert_eq!(embedding_type, "test_type");
        }
        _ => panic!("expected a duplicate error"),
    }

    // Same text with a different type succeeds.
    let different_type = service.save_embedding(
        "Duplicate text",
        &bits(&[0.1, 0.2]),
        "text-embedding-3-large",
        "different_type",
    );
    assert!(different_type.is_ok());
    assert_eq!(service.read_all().len(), 2);
}
