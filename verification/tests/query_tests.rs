//! The query builder, held against a real lexical engine.

use ook::query::{build_filter_clause, build_filter_clause_with_offset, build_match_query, order_clause};
use ook::types::{Filter, SearchFilter};

fn chip(field: &str, value: &str) -> SearchFilter {
    SearchFilter {
        field: field.to_string(),
        value: value.to_string(),
    }
}

fn fts_conn() -> rusqlite::Connection {
    let conn = rusqlite::Connection::open_in_memory().unwrap();
    conn.execute_batch(
        "CREATE VIRTUAL TABLE docs USING fts5(title, authors, description, subjects);",
    )
    .unwrap();
    conn
}

fn insert_doc(conn: &rusqlite::Connection, title: &str, authors: &str, description: &str) {
    conn.execute(
        "INSERT INTO docs (title, authors, description, subjects) VALUES (?1, ?2, ?3, ?4)",
        (title, authors, description, ""),
    )
    .unwrap();
}

fn count_matching(conn: &rusqlite::Connection, query: &str) -> i64 {
    conn.query_row(
        "SELECT COUNT(*) FROM docs WHERE docs MATCH ?1",
        [query],
        |row| row.get(0),
    )
    .unwrap()
}

#[test]
fn author_chips_become_per_token_terms() {
    let q = build_match_query(&vec![chip("author", "orson card")]);
    assert_eq!(q, "authors:\"orson\" authors:\"card\"");
}

#[test]
fn field_chips_become_quoted_phrases() {
    let q = build_match_query(&vec![
        chip("title", "the ender saga"),
        chip("subject", "science fiction"),
        chip("all", "space"),
    ]);
    assert_eq!(
        q,
        "title:\"the ender saga\" subjects:\"science fiction\" \"space\""
    );
}

#[test]
fn quotes_in_chip_values_are_doubled() {
    let q = build_match_query(&vec![chip("title", "say \"hi\"")]);
    assert_eq!(q, "title:\"say \"\"hi\"\"\"");
}

#[test]
fn author_filter_tokenization_matches_reordered_names() {
    // Author names are stored as list elements whose words are not
    // adjacent across the whole field, so the author chip must contribute
    // one term per word rather than a phrase.
    let conn = fts_conn();
    insert_doc(&conn, "Ender", "[\"Orson Scott Card\"]", "");

    let per_token = build_match_query(&vec![chip("author", "orson card")]);
    assert_eq!(count_matching(&conn, &per_token), 1);

    // The same value as one phrase term does not match: the two words are
    // not adjacent in the stored field.
    let as_phrase = build_match_query(&vec![chip("all", "orson card")]);
    assert_eq!(count_matching(&conn, &as_phrase), 0);
}

#[test]
fn escaped_quotes_stay_syntactically_valid_and_literal() {
    // A value with a quote character must never break the query and must
    // match the literal value when present.
    let conn = fts_conn();
    insert_doc(&conn, "they say \"hi\" often", "[]", "");
    insert_doc(&conn, "they say hello often", "[]", "");

    let q = build_match_query(&vec![chip("title", "say \"hi\"")]);
    assert_eq!(count_matching(&conn, &q), 1);

    let lone = build_match_query(&vec![chip("all", "\"")]);
    // A value that is just a quote still parses; it holds no token, so it
    // matches every row rather than erroring.
    let parsed: Result<i64, _> = conn.query_row(
        "SELECT COUNT(*) FROM docs WHERE docs MATCH ?1",
        [&lone],
        |row| row.get(0),
    );
    assert!(parsed.is_ok());
}

#[test]
fn browse_clause_keeps_values_out_of_the_text() {
    let filters = vec![
        Filter {
            field: "title".to_string(),
            op: "contains".to_string(),
            value: "'); DROP TABLE books; --".to_string(),
        },
        Filter {
            field: "subject".to_string(),
            op: "has".to_string(),
            value: "Fiction".to_string(),
        },
        Filter {
            field: "publisher".to_string(),
            op: "contains".to_string(),
            value: "skipped".to_string(),
        },
    ];
    let (clause, params) = build_filter_clause(&filters);
    assert_eq!(
        clause,
        "WHERE b.title LIKE '%' || ?3 || '%' AND m.subjects LIKE '%\"' || ?4 || '\"%'"
    );
    assert_eq!(params, vec!["'); DROP TABLE books; --", "Fiction"]);
    assert!(!clause.contains("DROP"));

    let (empty_clause, empty_params) = build_filter_clause_with_offset(&vec![], 1);
    assert_eq!(empty_clause, "");
    assert!(empty_params.is_empty());
}

#[test]
fn order_clauses_render_per_sort_request() {
    assert_eq!(order_clause(None, None, false), "b.title ASC");
    assert_eq!(order_clause(Some("title"), Some("desc"), false), "b.title DESC");
    assert_eq!(
        order_clause(Some("author"), None, false),
        "json_extract(b.authors, '$[0]') ASC"
    );
    assert_eq!(
        order_clause(Some("year"), Some("desc"), false),
        "m.publish_year DESC NULLS LAST"
    );
    assert_eq!(order_clause(Some("rank"), None, true), "rank");
    assert_eq!(order_clause(Some("rank"), None, false), "b.title ASC");
}
