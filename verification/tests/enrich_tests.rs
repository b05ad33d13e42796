//! Enrichment client decisions: normalization, query building and the
//! rate-limit backoff.

use ook::enrich::{
    backoff_step, enrichment_from_doc, normalize_author, normalize_title, search_attempts,
    search_url, work_url, Backoff, FetchEvent, FetchStep, SearchDoc,
};

#[test]
fn test_normalize_title() {
    assert_eq!(normalize_title("The Book (Series #1)"), "The Book");
    assert_eq!(normalize_title("Title: A Subtitle"), "Title");
    assert_eq!(normalize_title("Book (Edition 2): More Stuff"), "Book");
}

#[test]
fn test_normalize_author() {
    assert_eq!(normalize_author("Doe, John"), "John Doe");
    assert_eq!(normalize_author("Jane Smith"), "Jane Smith");
}

#[test]
fn search_attempts_try_author_then_title_only() {
    let attempts = search_attempts("The Book (S #1)", &vec!["Doe, John".to_string()]);
    assert_eq!(attempts.len(), 2);
    assert_eq!(attempts[0].0, "The Book");
    assert_eq!(attempts[0].1.as_deref(), Some("John Doe"));
    assert_eq!(attempts[1].0, "The Book");
    assert_eq!(attempts[1].1, None);

    let no_author = search_attempts("Solo", &vec![]);
    assert_eq!(no_author.len(), 1);
    assert_eq!(no_author[0].1, None);
}

#[test]
fn search_url_percent_encodes_the_terms() {
    let url = search_url("a b", Some("c&d"));
    assert_eq!(
        url,
        "https://openlibrary.org/search.json?title=a%20b&limit=5&fields=key,title,author_name,subject,isbn,first_publish_year&author=c%26d"
    );
    assert_eq!(
        work_url("/works/OL1W"),
        "https://openlibrary.org/works/OL1W.json"
    );
}

#[test]
fn enrichment_keeps_at_most_twenty_subjects() {
    let doc = SearchDoc {
        key: "/works/OL1W".to_string(),
        subjects: (0..25).map(|i| format!("s{}", i)).collect(),
        isbns: vec!["111".to_string(), "222".to_string()],
        publish_year: Some(1999),
    };
    let data = enrichment_from_doc(&doc, "desc".to_string());
    assert_eq!(data.openlibrary_key, "/works/OL1W");
    assert_eq!(data.description, "desc");
    assert_eq!(data.subjects.len(), 20);
    assert_eq!(data.subjects[0], "s0");
    assert_eq!(data.isbn.as_deref(), Some("111"));
    assert_eq!(data.publish_year, Some(1999));
}

#[test]
fn backoff_honors_retry_after_and_gives_up_after_five() {
    // A run of 429 responses with increasing Retry-After headers: the
    // client waits at least each specified duration and, after the fifth
    // attempt, reports "no match" instead of an error.
    let retry_after = [1u64, 2, 3, 4, 5];
    let mut st = Backoff::new();
    for (i, secs) in retry_after.iter().enumerate() {
        let step = backoff_step(&mut st, FetchEvent::RateLimited(Some(*secs)));
        if i < 4 {
            match step {
                FetchStep::Retry(ms) => assert!(ms >= secs * 1000),
                other => panic!("expected a retry, got {:?}", other),
            }
        } else {
            assert_eq!(step, FetchStep::NoMatch);
        }
    }
}

#[test]
fn backoff_doubles_its_fallback_delay() {
    let mut st = Backoff::new();
    assert_eq!(
        backoff_step(&mut st, FetchEvent::RateLimited(None)),
        FetchStep::Retry(1000)
    );
    assert_eq!(
        backoff_step(&mut st, FetchEvent::RateLimited(None)),
        FetchStep::Retry(2000)
    );
    assert_eq!(
        backoff_step(&mut st, FetchEvent::TransportError),
        FetchStep::Retry(4000)
    );
}

#[test]
fn backoff_treats_other_statuses_as_no_match() {
    let mut st = Backoff::new();
    assert_eq!(backoff_step(&mut st, FetchEvent::HttpFailure), FetchStep::NoMatch);
    let mut st2 = Backoff::new();
    assert_eq!(backoff_step(&mut st2, FetchEvent::Success), FetchStep::Deliver);
}

#[test]
fn backoff_aborts_on_persistent_transport_failure() {
    let mut st = Backoff::new();
    for i in 0..5 {
        let step = backoff_step(&mut st, FetchEvent::TransportError);
        if i < 4 {
            assert!(matches!(step, FetchStep::Retry(_)));
        } else {
            assert_eq!(step, FetchStep::Abort);
        }
    }
}
