//! Pasted-listing ingestion: title parsing, author deduplication and the
//! line scanner.

use ook::ingest::{parse_paste, Candidate};

fn lines_of(text: &str) -> Vec<String> {
    text.lines().map(|l| l.to_string()).collect()
}

#[test]
fn test_extract_parts() {
    let c = Candidate::new(
        "Stiletto: A Novel (The Rook Files Book 2)",
        vec![
            "O'Malley, Daniel".to_string(),
            "O'Malley, Daniel".to_string(),
        ],
    );
    assert_eq!(c.authors(), vec!["O'Malley, Daniel".to_string()]); // removed dup author
    assert_eq!(c.title(), "Stiletto: A Novel");
    assert_eq!(c.series(), Some(("The Rook Files".to_string(), Some(2))));
}

#[test]
fn test_safari() {
    let lines = lines_of(SAFARI);
    let vals = parse_paste(&lines);
    assert_eq!(vals, expected());
}

#[test]
fn test_chrome() {
    let lines = lines_of(CHROME);
    let vals = parse_paste(&lines);
    assert_eq!(vals, expected());
}

#[test]
fn titles_without_series_pass_through() {
    let c = Candidate::new("Plain Title", vec!["A".to_string()]);
    assert_eq!(c.title(), "Plain Title");
    assert_eq!(c.series(), None);
}

fn expected() -> Vec<Candidate> {
    vec![
        Candidate::new(
            "Stiletto: A Novel (The Rook Files Book 2)",
            vec![
                "O'Malley, Daniel".to_string(),
                "O'Malley, Daniel".to_string(),
            ],
        ),
        Candidate::new(
            "The Joy of Abstraction: An Exploration of Math, Category Theory, and Life",
            vec!["Cheng, Eugenia".to_string()],
        ),
        Candidate::new(
            "Assassin's Apprentice (The Farseer Trilogy, Book 1)",
            vec!["Hobb, Robin".to_string()],
        ),
    ]
}

static SAFARI: &str = r#"
"Skip to the book library"


Filter

Sort by:
Recent

View


Library
All Titles
Books
Comics
Samples

Notes & Highlights
Stiletto: A Novel (The Rook Files Book 2)
Stiletto: A Novel (The Rook Files Book 2)
Stiletto: A Novel (The Rook Files Book 2)
O'Malley, Daniel; O'Malley, Daniel
The Joy of Abstraction: An Exploration of Math, Category Theory, and Life
The Joy of Abstraction: An Exploration of Math, Category Theory, and Life
The Joy of Abstraction: An Exploration of Math, Category Theory, and Life
Cheng, Eugenia
Assassin's Apprentice (The Farseer Trilogy, Book 1)
Hobb, Robin
"#;

static CHROME: &str = r#"
"Skip to the book library"
Search your Kindle

Filter

Sort by:
Recent

View


Library
All Titles
Books
Comics
Samples

Notes & Highlights
Stiletto: A Novel (The Rook Files Book 2)

O'Malley, Daniel; O'Malley, Daniel

The Joy of Abstraction: An Exploration of Math, Category Theory, and Life

Cheng, Eugenia

Assassin's Apprentice (The Farseer Trilogy, Book 1)

Hobb, Robin

"#;
