//! Sync pipeline stepping and progress reporting.

use ook::catalog::Database;
use ook::sync::{
    apply_enrichment, complete_message, estimate_eta, format_duration, progress_message,
    sync_import, truncate_title,
};
use ook::types::{EnrichmentData, ImportedBook, SyncStats};

fn record(asin: &str, title: &str) -> ImportedBook {
    ImportedBook {
        asin: asin.to_string(),
        title: title.to_string(),
        authors: vec![],
        cover_url: None,
        percentage_read: 0,
        resource_type: "EBOOK".to_string(),
        origin_type: "PURCHASE".to_string(),
    }
}

#[test]
fn eta_is_linear_and_zero_without_progress() {
    assert_eq!(estimate_eta(0, 10, 5000), 0);
    assert_eq!(estimate_eta(5, 10, 0), 0);
    // 5 of 10 done in 5 seconds: 5 more seconds remain.
    assert_eq!(estimate_eta(5, 10, 5000), 5000);
    // 1 of 4 done in 3 seconds: 9 more seconds remain.
    assert_eq!(estimate_eta(1, 4, 3000), 9000);
}

#[test]
fn durations_format_for_people() {
    assert_eq!(format_duration(45), "45s");
    assert_eq!(format_duration(90), "1m30s");
    assert_eq!(format_duration(3725), "1h2m");
}

#[test]
fn titles_truncate_with_an_ellipsis() {
    assert_eq!(truncate_title("short", 40), "short");
    assert_eq!(truncate_title("abcdefghij", 8), "abcde...");
}

#[test]
fn progress_lines_quote_and_time_the_title() {
    let line = progress_message("A Book", 65000, 2000);
    assert_eq!(line, "\"A Book\" (1m5s elapsed, ~2s remaining)");
}

#[test]
fn import_stage_reports_and_rebuilds_only_on_new_rows() {
    let mut db = Database::new();
    let batch = vec![record("B001", "Ender"), record("B002", "Dune")];
    let (imported, events) = sync_import(&mut db, &batch).unwrap();
    assert_eq!(imported, 2);
    let messages: Vec<&str> = events.iter().map(|e| e.message.as_str()).collect();
    assert_eq!(messages, vec!["Found 2 books", "Imported 2 new books"]);
    assert!(events.iter().all(|e| e.stage == "import"));

    let (again, events2) = sync_import(&mut db, &batch).unwrap();
    assert_eq!(again, 0);
    let messages2: Vec<&str> = events2.iter().map(|e| e.message.as_str()).collect();
    assert_eq!(messages2, vec!["Found 2 books", "No new books to import"]);

    let (none, events3) = sync_import(&mut db, &vec![]).unwrap();
    assert_eq!(none, 0);
    let messages3: Vec<&str> = events3.iter().map(|e| e.message.as_str()).collect();
    assert_eq!(messages3, vec!["Found 0 books"]);
}

#[test]
fn enrichment_results_and_tombstones_are_persisted() {
    let mut db = Database::new();
    sync_import(&mut db, &vec![record("B001", "Ender"), record("B002", "Dune")]).unwrap();

    let found = EnrichmentData {
        openlibrary_key: "/works/OL1W".to_string(),
        description: "a story".to_string(),
        subjects: vec![],
        isbn: None,
        publish_year: None,
    };
    assert_eq!(apply_enrichment(&mut db, "B001", Some(&found)).unwrap(), true);
    assert_eq!(apply_enrichment(&mut db, "B002", None).unwrap(), false);

    // Both books now count as attempted; only the one with a description
    // reaches the embedding queue.
    assert!(db.get_books_without_metadata().unwrap().is_empty());
    let queue = db.get_books_for_embedding().unwrap();
    assert_eq!(queue.len(), 1);
    assert_eq!(queue[0].asin, "B001");

    // An empty result does not count as enriched with a description.
    let empty_found = EnrichmentData {
        openlibrary_key: String::new(),
        description: String::new(),
        subjects: vec![],
        isbn: None,
        publish_year: None,
    };
    assert_eq!(apply_enrichment(&mut db, "B002", Some(&empty_found)).unwrap(), false);
}

#[test]
fn the_terminal_summary_counts_all_three_stages() {
    let stats = SyncStats { imported: 3, enriched: 2, embedded: 1 };
    assert_eq!(
        complete_message(&stats),
        "Sync complete: 3 imported, 2 enriched, 1 embedded"
    );
}
