//! Importer text processing: format sniffing, encodings, markup
//! extraction and the author CSV.

use ook::import::{
    decode_quoted_printable, detect_format, extract_books_from_dom, html_decode,
    parse_author_csv_line, parse_mhtml_data,
};
use ook::types::ImportFormat;

#[test]
fn test_parse_author_csv_line() {
    let line = r#""Test Book","B001234567","John Doe""#;
    let result = parse_author_csv_line(line);
    assert_eq!(
        result,
        Some(("B001234567".to_string(), "John Doe".to_string()))
    );
}

#[test]
fn test_parse_author_csv_line_with_comma_in_name() {
    let line = r#""Test Book","B001234567","Doe, John""#;
    let result = parse_author_csv_line(line);
    assert_eq!(
        result,
        Some(("B001234567".to_string(), "Doe, John".to_string()))
    );
}

#[test]
fn test_parse_author_csv_line_empty() {
    let line = r#""","","""#;
    let result = parse_author_csv_line(line);
    assert_eq!(result, None);
}

#[test]
fn test_parse_author_csv_line_insufficient_fields() {
    let line = r#""Only One Field""#;
    let result = parse_author_csv_line(line);
    assert_eq!(result, None);
}

#[test]
fn test_detect_format_webarchive() {
    let data = b"bplist00...";
    assert_eq!(detect_format(data), ImportFormat::WebArchive);
}

#[test]
fn test_detect_format_mhtml() {
    let data = b"From: <Saved by Blink>\nMIME-Version: 1.0\nContent-Type: multipart/related;";
    assert_eq!(detect_format(data), ImportFormat::Mhtml);
}

#[test]
fn test_detect_format_html() {
    let data = b"<!DOCTYPE html><html>...";
    assert_eq!(detect_format(data), ImportFormat::Html);
}

#[test]
fn test_decode_quoted_printable() {
    assert_eq!(decode_quoted_printable("hello=20world"), "hello world");
    assert_eq!(decode_quoted_printable("line1=\r\nline2"), "line1line2");
    assert_eq!(decode_quoted_printable("foo=3Dbar"), "foo=bar");
}

#[test]
fn test_extract_books_from_dom() {
    let html = r#"
        <div id="title-B0TESTBOOK1"><p class="title">My Test Book</p></div>
        <div id="author-B0TESTBOOK1"><p class="author">Test Author</p></div>
    "#;

    let books = extract_books_from_dom(html).unwrap();
    assert_eq!(books.len(), 1);
    assert_eq!(books[0].asin, "B0TESTBOOK1");
    assert_eq!(books[0].title, "My Test Book");
    assert_eq!(books[0].authors, vec!["Test Author"]);
    assert!(books[0].cover_url.is_none());
}

#[test]
fn test_html_decode() {
    assert_eq!(html_decode("Tom &amp; Jerry"), "Tom & Jerry");
    assert_eq!(html_decode("It&#39;s great"), "It's great");
}

#[test]
fn dom_extraction_splits_and_dedups() {
    let html = "<div id=\"title-B0AAAA0001\"><p>First</p></div>\
        <div id=\"author-B0AAAA0001\"><p>Doe, John: Smith, Jane</p></div>\
        <div id=\"title-B0AAAA0001\"><p>First Again</p></div>\
        <div id=\"title-B0AAAA0002\"><p>Tom &amp; Jerry</p></div>";
    let books = extract_books_from_dom(html).unwrap();
    assert_eq!(books.len(), 2);
    // A repeated item id keeps its first position but the later capture
    // replaces the stored title.
    assert_eq!(books[0].asin, "B0AAAA0001");
    assert_eq!(books[0].title, "First Again");
    assert_eq!(
        books[0].authors,
        vec!["Doe", "John", "Smith", "Jane"]
    );
    assert_eq!(books[1].asin, "B0AAAA0002");
    assert_eq!(books[1].title, "Tom & Jerry");
    assert_eq!(books[1].resource_type, "EBOOK");
    assert_eq!(books[1].origin_type, "PURCHASE");
    assert_eq!(books[1].percentage_read, 0);
}

#[test]
fn mhtml_parse_decodes_quoted_printable() {
    let raw = "MIME-Version: 1.0\r\n\r\n<div id=3D\"title-B0AAAA0003\"><p>Quoted</p></div>";
    assert_eq!(detect_format(raw.as_bytes()), ImportFormat::Mhtml);
    let books = parse_mhtml_data(raw.as_bytes()).unwrap();
    assert_eq!(books.len(), 1);
    assert_eq!(books[0].asin, "B0AAAA0003");
    assert_eq!(books[0].title, "Quoted");
}
