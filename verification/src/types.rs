//! The data model: book records, enrichment records, search filters and the
//! ephemeral pipeline values, together with their mathematical views.

use vstd::prelude::*;

verus! {

/// The view of an optional owned string.
pub open spec fn view_opt(o: Option<String>) -> Option<Seq<char>> {
    match o {
        Some(s) => Some(s@),
        None => None,
    }
}

/// Book data from the primary record table.
#[derive(Debug, Clone)]
pub struct Book {
    pub asin: String,
    pub title: String,
    pub authors: Vec<String>,
    pub cover_url: Option<String>,
    pub percent_read: i32,
    pub resource_type: Option<String>,
    pub origin_type: Option<String>,
}

/// The mathematical view of a [`Book`].
#[verifier::ext_equal]
pub ghost struct BookView {
    pub asin: Seq<char>,
    pub title: Seq<char>,
    pub authors: Seq<Seq<char>>,
    pub cover_url: Option<Seq<char>>,
    pub percent_read: i32,
    pub resource_type: Option<Seq<char>>,
    pub origin_type: Option<Seq<char>>,
}

impl View for Book {
    type V = BookView;

    open spec fn view(&self) -> BookView {
        BookView {
            asin: self.asin@,
            title: self.title@,
            authors: crate::text::views(self.authors@),
            cover_url: view_opt(self.cover_url),
            percent_read: self.percent_read,
            resource_type: view_opt(self.resource_type),
            origin_type: view_opt(self.origin_type),
        }
    }
}

/// A book joined with whatever enrichment it has, for display and browsing.
#[derive(Debug, Clone)]
pub struct BookWithMeta {
    pub asin: String,
    pub title: String,
    pub authors: Vec<String>,
    pub cover_url: Option<String>,
    pub percent_read: i32,
    pub resource_type: Option<String>,
    pub origin_type: Option<String>,
    pub description: Option<String>,
    pub subjects: Vec<String>,
    pub publish_year: Option<i32>,
    pub isbn: Option<String>,
    pub openlibrary_key: Option<String>,
}

/// The mathematical view of a [`BookWithMeta`].
#[verifier::ext_equal]
pub ghost struct BookWithMetaView {
    pub asin: Seq<char>,
    pub title: Seq<char>,
    pub authors: Seq<Seq<char>>,
    pub cover_url: Option<Seq<char>>,
    pub percent_read: i32,
    pub resource_type: Option<Seq<char>>,
    pub origin_type: Option<Seq<char>>,
    pub description: Option<Seq<char>>,
    pub subjects: Seq<Seq<char>>,
    pub publish_year: Option<i32>,
    pub isbn: Option<Seq<char>>,
    pub openlibrary_key: Option<Seq<char>>,
}

impl View for BookWithMeta {
    type V = BookWithMetaView;

    open spec fn view(&self) -> BookWithMetaView {
        BookWithMetaView {
            asin: self.asin@,
            title: self.title@,
            authors: crate::text::views(self.authors@),
            cover_url: view_opt(self.cover_url),
            percent_read: self.percent_read,
            resource_type: view_opt(self.resource_type),
            origin_type: view_opt(self.origin_type),
            description: view_opt(self.description),
            subjects: crate::text::views(self.subjects@),
            publish_year: self.publish_year,
            isbn: view_opt(self.isbn),
            openlibrary_key: view_opt(self.openlibrary_key),
        }
    }
}

/// A book that is ready for the embedding stage: it has enriched metadata
/// with a non-empty description and no stored vector yet.
#[derive(Debug, Clone)]
pub struct BookForEmbedding {
    pub asin: String,
    pub title: String,
    pub authors: Vec<String>,
    pub description: String,
}

/// The mathematical view of a [`BookForEmbedding`].
#[verifier::ext_equal]
pub ghost struct BookForEmbeddingView {
    pub asin: Seq<char>,
    pub title: Seq<char>,
    pub authors: Seq<Seq<char>>,
    pub description: Seq<char>,
}

impl View for BookForEmbedding {
    type V = BookForEmbeddingView;

    open spec fn view(&self) -> BookForEmbeddingView {
        BookForEmbeddingView {
            asin: self.asin@,
            title: self.title@,
            authors: crate::text::views(self.authors@),
            description: self.description@,
        }
    }
}

/// Database statistics.
#[derive(Debug, Clone, PartialEq, Eq, Structural)]
pub struct Stats {
    pub total_books: usize,
    pub enriched: usize,
    pub with_embeddings: usize,
}

/// One enrichment record, as returned by the catalog client and stored
/// keyed by item id.
#[derive(Debug, Clone)]
pub struct EnrichmentData {
    pub openlibrary_key: String,
    pub description: String,
    pub subjects: Vec<String>,
    pub isbn: Option<String>,
    pub publish_year: Option<i32>,
}

/// The mathematical view of an [`EnrichmentData`].
#[verifier::ext_equal]
pub ghost struct EnrichmentDataView {
    pub openlibrary_key: Seq<char>,
    pub description: Seq<char>,
    pub subjects: Seq<Seq<char>>,
    pub isbn: Option<Seq<char>>,
    pub publish_year: Option<i32>,
}

impl View for EnrichmentData {
    type V = EnrichmentDataView;

    open spec fn view(&self) -> EnrichmentDataView {
        EnrichmentDataView {
            openlibrary_key: self.openlibrary_key@,
            description: self.description@,
            subjects: crate::text::views(self.subjects@),
            isbn: view_opt(self.isbn),
            publish_year: self.publish_year,
        }
    }
}

/// A single search filter chip: a field name and the term to require there.
#[derive(Debug, Clone)]
pub struct SearchFilter {
    /// Field to search: "all", "title", "author", "description", "subject".
    pub field: String,
    /// Search term.
    pub value: String,
}

/// The mathematical view of a [`SearchFilter`].
#[verifier::ext_equal]
pub ghost struct SearchFilterView {
    pub field: Seq<char>,
    pub value: Seq<char>,
}

impl View for SearchFilter {
    type V = SearchFilterView;

    open spec fn view(&self) -> SearchFilterView {
        SearchFilterView { field: self.field@, value: self.value@ }
    }
}

/// A filter condition for plain browsing: substring or exact-element match.
#[derive(Debug, Clone)]
pub struct Filter {
    /// One of "title", "author", "description", "subject".
    pub field: String,
    /// One of "contains", "has".
    pub op: String,
    /// The value to match.
    pub value: String,
}

/// The mathematical view of a [`Filter`].
#[verifier::ext_equal]
pub ghost struct FilterView {
    pub field: Seq<char>,
    pub op: Seq<char>,
    pub value: Seq<char>,
}

impl View for Filter {
    type V = FilterView;

    open spec fn view(&self) -> FilterView {
        FilterView { field: self.field@, op: self.op@, value: self.value@ }
    }
}

/// A normalized record handed over by an importer.
#[derive(Debug, Clone, PartialEq)]
pub struct ImportedBook {
    pub asin: String,
    pub title: String,
    pub authors: Vec<String>,
    pub cover_url: Option<String>,
    pub percentage_read: i32,
    pub resource_type: String,
    pub origin_type: String,
}

/// The mathematical view of an [`ImportedBook`].
#[verifier::ext_equal]
pub ghost struct ImportedBookView {
    pub asin: Seq<char>,
    pub title: Seq<char>,
    pub authors: Seq<Seq<char>>,
    pub cover_url: Option<Seq<char>>,
    pub percentage_read: i32,
    pub resource_type: Seq<char>,
    pub origin_type: Seq<char>,
}

impl View for ImportedBook {
    type V = ImportedBookView;

    open spec fn view(&self) -> ImportedBookView {
        ImportedBookView {
            asin: self.asin@,
            title: self.title@,
            authors: crate::text::views(self.authors@),
            cover_url: view_opt(self.cover_url),
            percentage_read: self.percentage_read,
            resource_type: self.resource_type@,
            origin_type: self.origin_type@,
        }
    }
}

/// Availability of the inference model on disk.
#[derive(Debug, Clone, PartialEq, Eq, Structural)]
pub struct ModelStatus {
    pub available: bool,
    pub size_mb: u64,
}

/// One progress update emitted while a sync runs.
#[derive(Debug, Clone)]
pub struct SyncProgress {
    pub stage: String,
    pub message: String,
    pub current: Option<usize>,
    pub total: Option<usize>,
}

/// The mathematical view of a [`SyncProgress`].
#[verifier::ext_equal]
pub ghost struct SyncProgressView {
    pub stage: Seq<char>,
    pub message: Seq<char>,
    pub current: Option<usize>,
    pub total: Option<usize>,
}

impl View for SyncProgress {
    type V = SyncProgressView;

    open spec fn view(&self) -> SyncProgressView {
        SyncProgressView {
            stage: self.stage@,
            message: self.message@,
            current: self.current,
            total: self.total,
        }
    }
}

/// Final statistics from one sync run.
#[derive(Debug, Clone, PartialEq, Eq, Structural)]
pub struct SyncStats {
    pub imported: usize,
    pub enriched: usize,
    pub embedded: usize,
}

/// Detected import file format.
#[derive(Debug, Clone, Copy, PartialEq, Eq, Structural)]
pub enum ImportFormat {
    /// Safari webarchive (binary property list).
    WebArchive,
    /// MHTML ("save as single file").
    Mhtml,
    /// Plain HTML.
    Html,
}

/// Bibliographic data as assembled from one catalog search result.
#[derive(Debug, Clone, Default)]
pub struct BookData {
    pub title: String,
    pub authors: Vec<String>,
    pub description: String,
}

/// The library's error taxonomy. Storage, inference, network and format
/// problems are distinguished; each carries a plain description.
#[derive(Debug, Clone)]
pub enum OokError {
    /// Storage-engine failure: query, connection or schema.
    Database(String),
    /// Inference-runtime failure, including "model not initialized".
    Onnx(String),
    /// Tokenizer load or run failure.
    Tokenizer(String),
    /// HTTP failure from enrichment or asset download.
    Http(String),
    /// Unparseable webarchive input.
    Webarchive(String),
    /// Input/output failure.
    Io(String),
    /// Unparseable JSON.
    Json(String),
    /// Malformed vendor data export.
    AmazonImport(String),
}

/// The library's result type.
pub type Result<T> = core::result::Result<T, OokError>;

/// Copies a vector of strings, preserving its view.
pub fn clone_strings(v: &Vec<String>) -> (r: Vec<String>)
    ensures
        crate::text::views(r@) == crate::text::views(v@),
{
    let mut r: Vec<String> = Vec::new();
    let mut i: usize = 0;
    while i < v.len()
        invariant
            i <= v@.len(),
            crate::text::views(r@) == crate::text::views(v@).take(i as int),
        decreases v@.len() - i,
    {
        let ghost prev = crate::text::views(r@);
        r.push(v[i].clone());
        proof {
            assert(crate::text::views(r@) =~= prev.push(v@[i as int]@));
            assert(crate::text::views(v@).take(i + 1 as int) =~= crate::text::views(v@).take(
                i as int,
            ).push(v@[i as int]@));
        }
        i = i + 1;
    }
    proof {
        assert(crate::text::views(v@).take(v@.len() as int) =~= crate::text::views(v@));
    }
    r
}

/// Copies an optional string, preserving its view.
pub fn clone_opt_string(v: &Option<String>) -> (r: Option<String>)
    ensures
        view_opt(r) == view_opt(*v),
{
    match v {
        Some(s) => Some(s.clone()),
        None => None,
    }
}

/// Copies an optional 32-bit integer.
pub fn clone_opt_i32(v: &Option<i32>) -> (r: Option<i32>)
    ensures
        r == *v,
{
    match v {
        Some(x) => Some(*x),
        None => None,
    }
}

impl Book {
    /// Copies the record, preserving its view.
    pub fn duplicate(&self) -> (r: Book)
        ensures
            r@ == self@,
    {
        Book {
            asin: self.asin.clone(),
            title: self.title.clone(),
            authors: clone_strings(&self.authors),
            cover_url: clone_opt_string(&self.cover_url),
            percent_read: self.percent_read,
            resource_type: clone_opt_string(&self.resource_type),
            origin_type: clone_opt_string(&self.origin_type),
        }
    }
}

impl BookWithMeta {
    /// Copies the row, preserving its view.
    pub fn duplicate(&self) -> (r: BookWithMeta)
        ensures
            r@ == self@,
    {
        BookWithMeta {
            asin: self.asin.clone(),
            title: self.title.clone(),
            authors: clone_strings(&self.authors),
            cover_url: clone_opt_string(&self.cover_url),
            percent_read: self.percent_read,
            resource_type: clone_opt_string(&self.resource_type),
            origin_type: clone_opt_string(&self.origin_type),
            description: clone_opt_string(&self.description),
            subjects: clone_strings(&self.subjects),
            publish_year: clone_opt_i32(&self.publish_year),
            isbn: clone_opt_string(&self.isbn),
            openlibrary_key: clone_opt_string(&self.openlibrary_key),
        }
    }
}

impl EnrichmentData {
    /// Copies the record, preserving its view.
    pub fn duplicate(&self) -> (r: EnrichmentData)
        ensures
            r@ == self@,
    {
        EnrichmentData {
            openlibrary_key: self.openlibrary_key.clone(),
            description: self.description.clone(),
            subjects: clone_strings(&self.subjects),
            isbn: clone_opt_string(&self.isbn),
            publish_year: clone_opt_i32(&self.publish_year),
        }
    }
}

} // verus!
