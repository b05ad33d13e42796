//! The storage engine: import, enrichment, embeddings, browsing and the
//! catalog invariants.

use ook::catalog::Database;
use ook::json::parse_json_array;
use ook::types::{EnrichmentData, Filter, ImportedBook};
use ook::EMBEDDING_DIM;

fn record(asin: &str, title: &str, authors: &[&str]) -> ImportedBook {
    ImportedBook {
        asin: asin.to_string(),
        title: title.to_string(),
        authors: authors.iter().map(|a| a.to_string()).collect(),
        cover_url: None,
        percentage_read: 0,
        resource_type: "EBOOK".to_string(),
        origin_type: "PURCHASE".to_string(),
    }
}

fn metadata(desc: &str) -> EnrichmentData {
    EnrichmentData {
        openlibrary_key: "/works/OL1W".to_string(),
        description: desc.to_string(),
        subjects: vec!["Fiction".to_string(), "Space".to_string()],
        isbn: Some("111".to_string()),
        publish_year: Some(1985),
    }
}

#[test]
fn import_is_idempotent() {
    let mut db = Database::new();
    let records = vec![
        record("B001", "Ender", &["Orson Scott Card"]),
        record("B002", "Dune", &["Frank Herbert"]),
    ];
    let first = db.import_books(&records).unwrap();
    assert_eq!(first, 2);
    let second = db.import_books(&records).unwrap();
    assert_eq!(second, 0);
    let stats = db.get_stats().unwrap();
    assert_eq!(stats.total_books, 2);
}

#[test]
fn import_never_overwrites() {
    let mut db = Database::new();
    db.import_books(&vec![record("B001", "Original", &["A"])]).unwrap();
    db.import_books(&vec![record("B001", "Replacement", &["B"])]).unwrap();
    let book = db.get_book_by_asin("B001").unwrap().unwrap();
    assert_eq!(book.title, "Original");
}

#[test]
fn clear_metadata_restores_the_dependency_invariant() {
    let mut db = Database::new();
    db.import_books(&vec![record("B001", "Ender", &["Card"])]).unwrap();
    db.save_metadata("B001", &metadata("a story")).unwrap();
    let pending = db.get_books_for_embedding().unwrap();
    assert_eq!(pending.len(), 1);
    db.save_embedding("B001", &vec![0u32; EMBEDDING_DIM]).unwrap();
    assert_eq!(db.get_stats().unwrap().with_embeddings, 1);

    let removed = db.clear_metadata().unwrap();
    assert_eq!(removed, 1);
    assert!(db.get_books_for_embedding().unwrap().is_empty());
    let stats = db.get_stats().unwrap();
    assert_eq!(stats.enriched, 0);
    assert_eq!(stats.with_embeddings, 0);
    assert_eq!(stats.total_books, 1);
}

#[test]
fn end_to_end_single_book_pipeline() {
    let mut db = Database::new();
    let imported = db.import_books(&vec![record("B001", "Ender", &["Card"])]).unwrap();
    assert_eq!(imported, 1);

    let without = db.get_books_without_metadata().unwrap();
    assert_eq!(without.len(), 1);
    assert_eq!(without[0].asin, "B001");

    db.save_metadata("B001", &metadata("a long description")).unwrap();
    assert!(db.get_books_without_metadata().unwrap().is_empty());

    let pending = db.get_books_for_embedding().unwrap();
    assert_eq!(pending.len(), 1);
    assert_eq!(pending[0].asin, "B001");
    assert_eq!(pending[0].description, "a long description");

    db.save_embedding("B001", &vec![7u32; EMBEDDING_DIM]).unwrap();
    assert!(db.get_books_without_metadata().unwrap().is_empty());
    assert!(db.get_books_for_embedding().unwrap().is_empty());
}

#[test]
fn tombstone_marks_enrichment_attempted() {
    let mut db = Database::new();
    db.import_books(&vec![record("B001", "Obscure", &[])]).unwrap();
    let tomb = EnrichmentData {
        openlibrary_key: String::new(),
        description: String::new(),
        subjects: vec![],
        isbn: None,
        publish_year: None,
    };
    db.save_metadata("B001", &tomb).unwrap();
    // The record's existence, not its content, marks "attempted": the book
    // leaves the enrichment queue but never reaches the embedding queue.
    assert!(db.get_books_without_metadata().unwrap().is_empty());
    assert!(db.get_books_for_embedding().unwrap().is_empty());
}

#[test]
fn browse_sorts_by_title_by_default() {
    let mut db = Database::new();
    db.import_books(&vec![
        record("B002", "Zebra", &["A"]),
        record("B001", "Apple", &["B"]),
        record("B003", "Mango", &["C"]),
    ])
    .unwrap();
    let rows = db.get_all_books(10, 0, None, None, &vec![]).unwrap();
    let titles: Vec<&str> = rows.iter().map(|r| r.title.as_str()).collect();
    assert_eq!(titles, vec!["Apple", "Mango", "Zebra"]);

    let rows_desc = db.get_all_books(10, 0, None, Some("desc"), &vec![]).unwrap();
    let titles_desc: Vec<&str> = rows_desc.iter().map(|r| r.title.as_str()).collect();
    assert_eq!(titles_desc, vec!["Zebra", "Mango", "Apple"]);
}

#[test]
fn browse_sorts_years_with_nulls_last() {
    let mut db = Database::new();
    db.import_books(&vec![
        record("B001", "Old", &[]),
        record("B002", "New", &[]),
        record("B003", "Unknown", &[]),
    ])
    .unwrap();
    let mut early = metadata("d");
    early.publish_year = Some(1950);
    let mut late = metadata("d");
    late.publish_year = Some(2000);
    db.save_metadata("B001", &early).unwrap();
    db.save_metadata("B002", &late).unwrap();

    let rows = db.get_all_books(10, 0, Some("year"), None, &vec![]).unwrap();
    let asins: Vec<&str> = rows.iter().map(|r| r.asin.as_str()).collect();
    assert_eq!(asins, vec!["B001", "B002", "B003"]);

    let rows_desc = db.get_all_books(10, 0, Some("year"), Some("desc"), &vec![]).unwrap();
    let asins_desc: Vec<&str> = rows_desc.iter().map(|r| r.asin.as_str()).collect();
    assert_eq!(asins_desc, vec!["B002", "B001", "B003"]);
}

#[test]
fn browse_filters_are_case_insensitive_substrings() {
    let mut db = Database::new();
    db.import_books(&vec![
        record("B001", "The Ender Saga", &["Card"]),
        record("B002", "Dune", &["Herbert"]),
    ])
    .unwrap();
    let chip = Filter {
        field: "title".to_string(),
        op: "contains".to_string(),
        value: "ENDER".to_string(),
    };
    let rows = db.get_all_books(10, 0, None, None, &vec![chip.clone()]).unwrap();
    assert_eq!(rows.len(), 1);
    assert_eq!(rows[0].asin, "B001");
    assert_eq!(db.get_book_count_filtered(&vec![chip]).unwrap(), 1);

    // A filter on enrichment text rejects books without enrichment.
    let desc_chip = Filter {
        field: "description".to_string(),
        op: "contains".to_string(),
        value: "any".to_string(),
    };
    assert_eq!(db.get_book_count_filtered(&vec![desc_chip]).unwrap(), 0);

    // An unknown field contributes no predicate.
    let unknown = Filter {
        field: "publisher".to_string(),
        op: "contains".to_string(),
        value: "x".to_string(),
    };
    assert_eq!(db.get_book_count_filtered(&vec![unknown]).unwrap(), 2);
}

#[test]
fn browse_pagination_slices_the_sorted_rows() {
    let mut db = Database::new();
    db.import_books(&vec![
        record("B001", "A", &[]),
        record("B002", "B", &[]),
        record("B003", "C", &[]),
        record("B004", "D", &[]),
    ])
    .unwrap();
    let page = db.get_all_books(2, 1, None, None, &vec![]).unwrap();
    let titles: Vec<&str> = page.iter().map(|r| r.title.as_str()).collect();
    assert_eq!(titles, vec!["B", "C"]);
    let past_end = db.get_all_books(2, 9, None, None, &vec![]).unwrap();
    assert!(past_end.is_empty());
}

#[test]
fn subjects_are_distinct_and_sorted() {
    let mut db = Database::new();
    db.import_books(&vec![record("B001", "X", &[]), record("B002", "Y", &[])]).unwrap();
    let mut m1 = metadata("d");
    m1.subjects = vec!["Space".to_string(), "Fiction".to_string()];
    let mut m2 = metadata("d");
    m2.subjects = vec!["Fiction".to_string(), "Aliens".to_string()];
    db.save_metadata("B001", &m1).unwrap();
    db.save_metadata("B002", &m2).unwrap();
    let subjects = db.get_subjects().unwrap();
    assert_eq!(subjects, vec!["Aliens", "Fiction", "Space"]);
}

#[test]
fn lexical_documents_follow_the_join() {
    let mut db = Database::new();
    db.import_books(&vec![record("B001", "Ender", &["Card"])]).unwrap();
    db.rebuild_fts().unwrap();
    {
        let docs = db.fts_documents();
        assert_eq!(docs.len(), 1);
        assert_eq!(docs[0].asin, "B001");
        assert_eq!(docs[0].title, "Ender");
        assert_eq!(docs[0].authors, "[\"Card\"]");
        assert_eq!(docs[0].description, "");
    }
    db.save_metadata("B001", &metadata("found it")).unwrap();
    db.rebuild_fts().unwrap();
    {
        let docs = db.fts_documents();
        assert_eq!(docs[0].description, "found it");
        assert_eq!(docs[0].subjects, "[\"Fiction\",\"Space\"]");
    }
}

#[test]
fn test_parse_json_array() {
    let result = parse_json_array(r#"["Alice", "Bob"]"#.to_string());
    assert_eq!(result, vec!["Alice", "Bob"]);

    // Invalid JSON returns empty
    let result = parse_json_array("not json".to_string());
    assert!(result.is_empty());
}

#[test]
fn corrupt_stored_lists_never_block_reads() {
    let empty = ook::json::parse_optional_json_array(None);
    assert!(empty.is_empty());
    let bad = ook::json::parse_optional_json_array(Some("{broken".to_string()));
    assert!(bad.is_empty());
}
