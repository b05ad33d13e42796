//! The storage and retrieval engine.
//!
//! The engine owns the catalog's persisted entities: the primary book
//! records, the 1:1 enrichment records, the per-record embedding vectors and
//! the derived lexical-index documents. All mutation goes through the
//! methods here; every method states exactly how the new state relates to
//! the old one.
//!
//! The lexical index is a derived, rebuildable cache: bulk mutations leave
//! it stale until [`Database::rebuild_fts`] recomputes it wholesale, while
//! the vector index is an additive per-record cache updated in place.

use vstd::prelude::*;

use crate::text::{contains_seq, lex_le, matches_at};
use crate::types::{
    Book, BookForEmbedding, BookForEmbeddingView, BookView, BookWithMeta, BookWithMetaView,
    EnrichmentData, EnrichmentDataView, Filter, FilterView, ImportedBook, ImportedBookView,
    Result, Stats,
};
use crate::EMBEDDING_DIM;

verus! {

/// One enrichment record, keyed by the item id it belongs to.
pub struct MetaRow {
    pub asin: String,
    pub data: EnrichmentData,
}

/// The mathematical view of a [`MetaRow`].
#[verifier::ext_equal]
pub ghost struct MetaRowView {
    pub asin: Seq<char>,
    pub data: EnrichmentDataView,
}

impl View for MetaRow {
    type V = MetaRowView;

    open spec fn view(&self) -> MetaRowView {
        MetaRowView { asin: self.asin@, data: self.data@ }
    }
}

/// One stored embedding, keyed by the item id it belongs to.
pub struct VecRow {
    pub asin: String,
    pub embedding: Vec<u32>,
}

/// The mathematical view of a [`VecRow`].
#[verifier::ext_equal]
pub ghost struct VecRowView {
    pub asin: Seq<char>,
    pub embedding: Seq<u32>,
}

impl View for VecRow {
    type V = VecRowView;

    open spec fn view(&self) -> VecRowView {
        VecRowView { asin: self.asin@, embedding: self.embedding@ }
    }
}

/// One document of the lexical full-text index.
pub struct FtsDoc {
    pub asin: String,
    pub title: String,
    pub authors: String,
    pub description: String,
    pub subjects: String,
}

/// The mathematical view of an [`FtsDoc`].
#[verifier::ext_equal]
pub ghost struct FtsDocView {
    pub asin: Seq<char>,
    pub title: Seq<char>,
    pub authors: Seq<char>,
    pub description: Seq<char>,
    pub subjects: Seq<char>,
}

impl View for FtsDoc {
    type V = FtsDocView;

    open spec fn view(&self) -> FtsDocView {
        FtsDocView {
            asin: self.asin@,
            title: self.title@,
            authors: self.authors@,
            description: self.description@,
            subjects: self.subjects@,
        }
    }
}

/// The first enrichment record for `a`, if any.
pub open spec fn find_meta(meta: Seq<MetaRowView>, a: Seq<char>) -> Option<EnrichmentDataView>
    decreases meta.len(),
{
    if meta.len() == 0 {
        None
    } else if meta[0].asin == a {
        Some(meta[0].data)
    } else {
        find_meta(meta.drop_first(), a)
    }
}

/// The first stored embedding for `a`, if any.
pub open spec fn find_vec(vecs: Seq<VecRowView>, a: Seq<char>) -> Option<Seq<u32>>
    decreases vecs.len(),
{
    if vecs.len() == 0 {
        None
    } else if vecs[0].asin == a {
        Some(vecs[0].embedding)
    } else {
        find_vec(vecs.drop_first(), a)
    }
}

/// The first book record with item id `a`, if any.
pub open spec fn find_book(books: Seq<BookView>, a: Seq<char>) -> Option<BookView>
    decreases books.len(),
{
    if books.len() == 0 {
        None
    } else if books[0].asin == a {
        Some(books[0])
    } else {
        find_book(books.drop_first(), a)
    }
}

/// Some book record carries item id `a`.
pub open spec fn has_book(books: Seq<BookView>, a: Seq<char>) -> bool {
    find_book(books, a) is Some
}

/// A found book is a member, and a member is found.
pub proof fn lemma_find_book_exists(books: Seq<BookView>, a: Seq<char>)
    ensures
        has_book(books, a) <==> exists|i: int| 0 <= i < books.len() && books[i].asin == a,
    decreases books.len(),
{
    if books.len() > 0 {
        lemma_find_book_exists(books.drop_first(), a);
        if books[0].asin == a {
        } else if exists|i: int| 0 <= i < books.drop_first().len() && books.drop_first()[i].asin
            == a {
            let i = choose|i: int|
                0 <= i < books.drop_first().len() && books.drop_first()[i].asin == a;
            assert(books[i + 1].asin == a);
        } else {
            assert(forall|i: int|
                1 <= i < books.len() ==> #[trigger] books[i].asin == books.drop_first()[i
                    - 1].asin);
        }
    }
}

/// The book record made from one imported record.
pub open spec fn book_of_import(b: ImportedBookView) -> BookView {
    BookView {
        asin: b.asin,
        title: b.title,
        authors: b.authors,
        cover_url: b.cover_url,
        percent_read: b.percentage_read,
        resource_type: Some(b.resource_type),
        origin_type: Some(b.origin_type),
    }
}

/// The books after inserting each imported record in turn, skipping any
/// whose item id is already present. Import never overwrites.
pub open spec fn import_fold(books: Seq<BookView>, items: Seq<ImportedBookView>) -> Seq<BookView>
    decreases items.len(),
{
    if items.len() == 0 {
        books
    } else {
        let next = if has_book(books, items[0].asin) {
            books
        } else {
            books.push(book_of_import(items[0]))
        };
        import_fold(next, items.drop_first())
    }
}

/// Folding one more record steps the fold once at the end.
pub proof fn lemma_import_fold_snoc(
    books: Seq<BookView>,
    items: Seq<ImportedBookView>,
    x: ImportedBookView,
)
    ensures
        import_fold(books, items.push(x)) == {
            let mid = import_fold(books, items);
            if has_book(mid, x.asin) {
                mid
            } else {
                mid.push(book_of_import(x))
            }
        },
    decreases items.len(),
{
    let single = items.push(x);
    if items.len() == 0 {
        assert(single.len() == 1);
        assert(single[0] == x);
        assert(single.drop_first() =~= Seq::<ImportedBookView>::empty());
        let nx = if has_book(books, x.asin) {
            books
        } else {
            books.push(book_of_import(x))
        };
        assert(import_fold(nx, single.drop_first()) == nx);
        assert(import_fold(books, single) == nx);
        assert(import_fold(books, items) == books);
    } else {
        let next = if has_book(books, items[0].asin) {
            books
        } else {
            books.push(book_of_import(items[0]))
        };
        assert(single[0] == items[0]);
        assert(single.drop_first() =~= items.drop_first().push(x));
        assert(import_fold(books, single) == import_fold(next, single.drop_first()));
        assert(import_fold(books, items) == import_fold(next, items.drop_first()));
        lemma_import_fold_snoc(next, items.drop_first(), x);
    }
}

/// Importing never removes or changes existing records: the old books are a
/// prefix of the result.
pub proof fn lemma_import_fold_extends(books: Seq<BookView>, items: Seq<ImportedBookView>)
    ensures
        import_fold(books, items).len() >= books.len(),
        forall|i: int|
            0 <= i < books.len() ==> import_fold(books, items)[i] == books[i],
    decreases items.len(),
{
    if items.len() > 0 {
        let next = if has_book(books, items[0].asin) {
            books
        } else {
            books.push(book_of_import(items[0]))
        };
        assert(import_fold(books, items) == import_fold(next, items.drop_first()));
        lemma_import_fold_extends(next, items.drop_first());
        assert forall|i: int| 0 <= i < books.len() implies import_fold(books, items)[i]
            == books[i] by {
            assert(import_fold(next, items.drop_first())[i] == next[i]);
        }
    }
}

/// The books that have no enrichment record yet: the leaves of the
/// enrichment join, for the enrich stage to process.
pub open spec fn books_without_meta(books: Seq<BookView>, meta: Seq<MetaRowView>) -> Seq<BookView>
    decreases books.len(),
{
    if books.len() == 0 {
        Seq::empty()
    } else {
        let rest = books_without_meta(books.drop_last(), meta);
        if find_meta(meta, books.last().asin) is None {
            rest.push(books.last())
        } else {
            rest
        }
    }
}

/// The embedding-stage view of a book together with its description.
pub open spec fn embed_candidate_of(b: BookView, description: Seq<char>) -> BookForEmbeddingView {
    BookForEmbeddingView { asin: b.asin, title: b.title, authors: b.authors, description }
}

/// The books that have an enrichment record with a non-empty description
/// but no stored embedding yet.
pub open spec fn embed_candidates(
    books: Seq<BookView>,
    meta: Seq<MetaRowView>,
    vecs: Seq<VecRowView>,
) -> Seq<BookForEmbeddingView>
    decreases books.len(),
{
    if books.len() == 0 {
        Seq::empty()
    } else {
        let rest = embed_candidates(books.drop_last(), meta, vecs);
        let b = books.last();
        match find_meta(meta, b.asin) {
            Some(d) => {
                if d.description.len() > 0 && find_vec(vecs, b.asin) is None {
                    rest.push(embed_candidate_of(b, d.description))
                } else {
                    rest
                }
            },
            None => rest,
        }
    }
}

/// The enrichment records after an insert-or-replace of (`a`, `d`).
pub open spec fn upsert_meta(
    meta: Seq<MetaRowView>,
    a: Seq<char>,
    d: EnrichmentDataView,
) -> Seq<MetaRowView>
    decreases meta.len(),
{
    if meta.len() == 0 {
        seq![MetaRowView { asin: a, data: d }]
    } else if meta[0].asin == a {
        seq![MetaRowView { asin: a, data: d }] + meta.drop_first()
    } else {
        seq![meta[0]] + upsert_meta(meta.drop_first(), a, d)
    }
}

/// The stored embeddings after an insert-or-replace of (`a`, `e`).
pub open spec fn upsert_vec(vecs: Seq<VecRowView>, a: Seq<char>, e: Seq<u32>) -> Seq<VecRowView>
    decreases vecs.len(),
{
    if vecs.len() == 0 {
        seq![VecRowView { asin: a, embedding: e }]
    } else if vecs[0].asin == a {
        seq![VecRowView { asin: a, embedding: e }] + vecs.drop_first()
    } else {
        seq![vecs[0]] + upsert_vec(vecs.drop_first(), a, e)
    }
}

/// The lexical-index document derived from one book and its enrichment.
/// The authors and subjects columns carry the stored list encoding; a book
/// without enrichment gets empty description and subjects text.
pub open spec fn fts_doc_of(b: BookView, meta: Seq<MetaRowView>) -> FtsDocView {
    FtsDocView {
        asin: b.asin,
        title: b.title,
        authors: crate::json::json_of_list(b.authors),
        description: match find_meta(meta, b.asin) {
            Some(d) => d.description,
            None => Seq::empty(),
        },
        subjects: match find_meta(meta, b.asin) {
            Some(d) => crate::json::json_of_list(d.subjects),
            None => Seq::empty(),
        },
    }
}

/// The whole derived lexical index: one document per book, in book order.
pub open spec fn fts_docs_spec(books: Seq<BookView>, meta: Seq<MetaRowView>) -> Seq<FtsDocView>
    decreases books.len(),
{
    if books.len() == 0 {
        Seq::empty()
    } else {
        fts_docs_spec(books.drop_last(), meta).push(fts_doc_of(books.last(), meta))
    }
}

/// ASCII lower case, as the browse engine's default pattern matching
/// folds letters.
pub open spec fn ascii_lower(c: char) -> char {
    if ('A' as u32) <= (c as u32) && (c as u32) <= ('Z' as u32) {
        ((c as u32) + 32) as char
    } else {
        c
    }
}

/// ASCII lower case of a whole text.
pub open spec fn lower_seq(s: Seq<char>) -> Seq<char> {
    s.map_values(|c: char| ascii_lower(c))
}

/// Case-insensitive (ASCII) substring match.
pub open spec fn contains_ci(h: Seq<char>, n: Seq<char>) -> bool {
    contains_seq(lower_seq(h), lower_seq(n))
}

/// The text a browse filter's column holds for one book: the title, the
/// stored author-list encoding, or the enrichment description or subject
/// encoding — absent when the book has no enrichment record.
pub open spec fn browse_column_text(
    field: Seq<char>,
    b: BookView,
    m: Option<EnrichmentDataView>,
) -> Option<Seq<char>> {
    if field == "title"@ {
        Some(b.title)
    } else if field == "author"@ {
        Some(crate::json::json_of_list(b.authors))
    } else if field == "description"@ {
        match m {
            Some(d) => Some(d.description),
            None => None,
        }
    } else if field == "subject"@ {
        match m {
            Some(d) => Some(crate::json::json_of_list(d.subjects)),
            None => None,
        }
    } else {
        None
    }
}

/// Whether one browse filter accepts a book. A filter with an unknown
/// field or operation contributes no predicate and accepts everything; a
/// filter on enrichment text rejects a book that has none; "contains" is a
/// case-insensitive substring test and "has" requires the value quoted as
/// an exact element of the stored list encoding.
pub open spec fn browse_filter_matches(
    f: FilterView,
    b: BookView,
    m: Option<EnrichmentDataView>,
) -> bool {
    if !crate::query::filter_applies(f) {
        true
    } else {
        match browse_column_text(f.field, b, m) {
            None => false,
            Some(t) => {
                if f.op == "contains"@ {
                    contains_ci(t, f.value)
                } else {
                    contains_ci(t, seq!['"'] + f.value + seq!['"'])
                }
            },
        }
    }
}

/// Whether every filter of a list accepts a book: filters are AND-composed.
pub open spec fn all_browse_match(
    fs: Seq<FilterView>,
    b: BookView,
    m: Option<EnrichmentDataView>,
) -> bool {
    forall|i: int| 0 <= i < fs.len() ==> browse_filter_matches(#[trigger] fs[i], b, m)
}

/// A book joined with its enrichment, as one browse row.
pub open spec fn with_meta_of(b: BookView, m: Option<EnrichmentDataView>) -> BookWithMetaView {
    BookWithMetaView {
        asin: b.asin,
        title: b.title,
        authors: b.authors,
        cover_url: b.cover_url,
        percent_read: b.percent_read,
        resource_type: b.resource_type,
        origin_type: b.origin_type,
        description: match m {
            Some(d) => Some(d.description),
            None => None,
        },
        subjects: match m {
            Some(d) => d.subjects,
            None => Seq::empty(),
        },
        publish_year: match m {
            Some(d) => d.publish_year,
            None => None,
        },
        isbn: match m {
            Some(d) => d.isbn,
            None => None,
        },
        openlibrary_key: match m {
            Some(d) => Some(d.openlibrary_key),
            None => None,
        },
    }
}

/// The joined rows that pass every filter, in book order.
pub open spec fn matching_books(
    books: Seq<BookView>,
    meta: Seq<MetaRowView>,
    fs: Seq<FilterView>,
) -> Seq<BookWithMetaView>
    decreases books.len(),
{
    if books.len() == 0 {
        Seq::empty()
    } else {
        let rest = matching_books(books.drop_last(), meta, fs);
        let b = books.last();
        let m = find_meta(meta, b.asin);
        if all_browse_match(fs, b, m) {
            rest.push(with_meta_of(b, m))
        } else {
            rest
        }
    }
}

/// The recognized sort keys for browsing.
#[derive(Debug, Clone, Copy, PartialEq, Eq, Structural)]
pub enum SortMode {
    /// By the first element of the author list.
    Author,
    /// By publish year, nulls last regardless of direction.
    Year,
    /// By title (the default).
    Title,
}

/// The sort key a request selects: author, year, or the title default.
pub open spec fn sort_mode_spec(sort_by: Option<Seq<char>>) -> SortMode {
    if sort_by == Some("author"@) {
        SortMode::Author
    } else if sort_by == Some("year"@) {
        SortMode::Year
    } else {
        SortMode::Title
    }
}

/// Descending exactly when the direction is "desc".
pub open spec fn sort_desc_spec(sort_dir: Option<Seq<char>>) -> bool {
    sort_dir == Some("desc"@)
}

/// The author sort key of a row: its first author, when it has any.
pub open spec fn author_key(v: BookWithMetaView) -> Option<Seq<char>> {
    if v.authors.len() > 0 {
        Some(v.authors[0])
    } else {
        None
    }
}

/// Ascending order on an optional text key, with absent keys first — how
/// the engine orders nulls ascending.
pub open spec fn opt_lex_le_asc(x: Option<Seq<char>>, y: Option<Seq<char>>) -> bool {
    match x {
        None => true,
        Some(a) => match y {
            None => false,
            Some(b) => lex_le(a, b),
        },
    }
}

/// Descending order on an optional text key, with absent keys last — how
/// the engine orders nulls descending.
pub open spec fn opt_lex_le_desc(x: Option<Seq<char>>, y: Option<Seq<char>>) -> bool {
    match x {
        None => y is None,
        Some(a) => match y {
            None => true,
            Some(b) => lex_le(b, a),
        },
    }
}

/// Order on optional years: nulls last regardless of direction.
pub open spec fn year_le(x: Option<i32>, y: Option<i32>, desc: bool) -> bool {
    match x {
        None => y is None,
        Some(a) => match y {
            None => true,
            Some(b) => if desc {
                b <= a
            } else {
                a <= b
            },
        },
    }
}

/// Row `a` sorts at or before row `b` under the requested key and
/// direction.
pub open spec fn book_le(mode: SortMode, desc: bool, a: BookWithMetaView, b: BookWithMetaView) -> bool {
    match mode {
        SortMode::Author => if desc {
            opt_lex_le_desc(author_key(a), author_key(b))
        } else {
            opt_lex_le_asc(author_key(a), author_key(b))
        },
        SortMode::Year => year_le(a.publish_year, b.publish_year, desc),
        SortMode::Title => if desc {
            lex_le(b.title, a.title)
        } else {
            lex_le(a.title, b.title)
        },
    }
}

/// The row order is total.
pub proof fn lemma_book_le_total(mode: SortMode, desc: bool, a: BookWithMetaView, b: BookWithMetaView)
    ensures
        book_le(mode, desc, a, b) || book_le(mode, desc, b, a),
{
    match mode {
        SortMode::Author => {
            match author_key(a) {
                None => {},
                Some(x) => match author_key(b) {
                    None => {},
                    Some(y) => crate::text::lemma_lex_total(x, y),
                },
            }
        },
        SortMode::Year => {},
        SortMode::Title => crate::text::lemma_lex_total(a.title, b.title),
    }
}

/// The row order is transitive.
pub proof fn lemma_book_le_trans(
    mode: SortMode,
    desc: bool,
    a: BookWithMetaView,
    b: BookWithMetaView,
    c: BookWithMetaView,
)
    requires
        book_le(mode, desc, a, b),
        book_le(mode, desc, b, c),
    ensures
        book_le(mode, desc, a, c),
{
    match mode {
        SortMode::Author => {
            match author_key(a) {
                None => {},
                Some(x) => match author_key(b) {
                    None => {},
                    Some(y) => match author_key(c) {
                        None => {},
                        Some(z) => {
                            if desc {
                                crate::text::lemma_lex_trans(z, y, x);
                            } else {
                                crate::text::lemma_lex_trans(x, y, z);
                            }
                        },
                    },
                },
            }
        },
        SortMode::Year => {},
        SortMode::Title => {
            if desc {
                crate::text::lemma_lex_trans(c.title, b.title, a.title);
            } else {
                crate::text::lemma_lex_trans(a.title, b.title, c.title);
            }
        },
    }
}

/// `x` placed into an already-sorted row list: after every row that sorts
/// at or before it, before the rest.
pub open spec fn insert_sorted(
    mode: SortMode,
    desc: bool,
    x: BookWithMetaView,
    s: Seq<BookWithMetaView>,
) -> Seq<BookWithMetaView>
    decreases s.len(),
{
    if s.len() == 0 {
        seq![x]
    } else if book_le(mode, desc, s[0], x) {
        seq![s[0]] + insert_sorted(mode, desc, x, s.drop_first())
    } else {
        seq![x] + s
    }
}

/// The rows sorted by repeated insertion, in input order: the unique
/// stable insertion-sort result.
pub open spec fn sort_books(mode: SortMode, desc: bool, s: Seq<BookWithMetaView>) -> Seq<
    BookWithMetaView,
>
    decreases s.len(),
{
    if s.len() == 0 {
        Seq::empty()
    } else {
        insert_sorted(mode, desc, s.last(), sort_books(mode, desc, s.drop_last()))
    }
}

/// Every pair of rows stands in order.
pub open spec fn rows_sorted(mode: SortMode, desc: bool, s: Seq<BookWithMetaView>) -> bool {
    forall|i: int, j: int|
        0 <= i < j < s.len() ==> book_le(mode, desc, #[trigger] s[i], #[trigger] s[j])
}

/// Insertion adds the new row and keeps the old ones.
proof fn lemma_insert_sorted_membership(
    mode: SortMode,
    desc: bool,
    x: BookWithMetaView,
    s: Seq<BookWithMetaView>,
)
    ensures
        insert_sorted(mode, desc, x, s).len() == s.len() + 1,
        forall|k: int|
            0 <= k < insert_sorted(mode, desc, x, s).len() ==> insert_sorted(
                mode,
                desc,
                x,
                s,
            )[k] == x || s.contains(#[trigger] insert_sorted(mode, desc, x, s)[k]),
    decreases s.len(),
{
    let r = insert_sorted(mode, desc, x, s);
    if s.len() == 0 {
    } else if book_le(mode, desc, s[0], x) {
        lemma_insert_sorted_membership(mode, desc, x, s.drop_first());
        let inner = insert_sorted(mode, desc, x, s.drop_first());
        assert forall|k: int| 0 <= k < r.len() implies r[k] == x || s.contains(#[trigger] r[k]) by {
            if k == 0 {
                assert(s.contains(s[0]));
            } else {
                assert(r[k] == inner[k - 1]);
                if inner[k - 1] != x {
                    let j = choose|j: int|
                        0 <= j < s.drop_first().len() && s.drop_first()[j] == inner[k - 1];
                    assert(s[j + 1] == inner[k - 1]);
                    assert(s.contains(s[j + 1]));
                }
            }
        }
    } else {
        assert forall|k: int| 0 <= k < r.len() implies r[k] == x || s.contains(#[trigger] r[k]) by {
            if k > 0 {
                assert(r[k] == s[k - 1]);
                assert(s.contains(s[k - 1]));
            }
        }
    }
}

/// Insertion into a sorted row list keeps it sorted.
proof fn lemma_insert_sorted_sorted(
    mode: SortMode,
    desc: bool,
    x: BookWithMetaView,
    s: Seq<BookWithMetaView>,
)
    requires
        rows_sorted(mode, desc, s),
    ensures
        rows_sorted(mode, desc, insert_sorted(mode, desc, x, s)),
    decreases s.len(),
{
    let r = insert_sorted(mode, desc, x, s);
    if s.len() == 0 {
    } else if book_le(mode, desc, s[0], x) {
        let rest = s.drop_first();
        assert(rows_sorted(mode, desc, rest)) by {
            assert(forall|i: int, j: int|
                0 <= i < j < rest.len() ==> rest[i] == s[i + 1] && rest[j] == s[j + 1]);
        }
        lemma_insert_sorted_sorted(mode, desc, x, rest);
        lemma_insert_sorted_membership(mode, desc, x, rest);
        let inner = insert_sorted(mode, desc, x, rest);
        assert forall|i: int, j: int| 0 <= i < j < r.len() implies book_le(
            mode,
            desc,
            #[trigger] r[i],
            #[trigger] r[j],
        ) by {
            if i == 0 {
                assert(r[j] == inner[j - 1]);
                if inner[j - 1] == x {
                } else {
                    let t = choose|t: int| 0 <= t < rest.len() && rest[t] == inner[j - 1];
                    assert(rest[t] == s[t + 1]);
                    assert(book_le(mode, desc, s[0], s[t + 1]));
                }
            } else {
                assert(r[i] == inner[i - 1] && r[j] == inner[j - 1]);
            }
        }
    } else {
        lemma_book_le_total(mode, desc, s[0], x);
        assert forall|i: int, j: int| 0 <= i < j < r.len() implies book_le(
            mode,
            desc,
            #[trigger] r[i],
            #[trigger] r[j],
        ) by {
            if i == 0 {
                assert(r[j] == s[j - 1]);
                if j > 1 {
                    lemma_book_le_trans(mode, desc, x, s[0], s[j - 1]);
                }
            } else {
                assert(r[i] == s[i - 1] && r[j] == s[j - 1]);
            }
        }
    }
}

/// The browse order really orders: the insertion-sorted rows are pairwise
/// ordered under the requested key and direction, and none are lost.
pub proof fn lemma_sort_books_sorted(mode: SortMode, desc: bool, s: Seq<BookWithMetaView>)
    ensures
        rows_sorted(mode, desc, sort_books(mode, desc, s)),
        sort_books(mode, desc, s).len() == s.len(),
    decreases s.len(),
{
    if s.len() > 0 {
        lemma_sort_books_sorted(mode, desc, s.drop_last());
        lemma_insert_sorted_sorted(mode, desc, s.last(), sort_books(mode, desc, s.drop_last()));
        lemma_insert_sorted_membership(
            mode,
            desc,
            s.last(),
            sort_books(mode, desc, s.drop_last()),
        );
    }
}

/// One page of a row list: `limit` rows starting at `offset`.
pub open spec fn page_of(s: Seq<BookWithMetaView>, offset: int, limit: int) -> Seq<
    BookWithMetaView,
> {
    if offset >= s.len() || offset < 0 || limit < 0 {
        Seq::empty()
    } else if offset + limit <= s.len() {
        s.subrange(offset, offset + limit)
    } else {
        s.subrange(offset, s.len() as int)
    }
}

/// All subject tags across the enrichment records, in record order.
pub open spec fn all_subjects(meta: Seq<MetaRowView>) -> Seq<Seq<char>>
    decreases meta.len(),
{
    if meta.len() == 0 {
        Seq::empty()
    } else {
        all_subjects(meta.drop_last()) + meta.last().data.subjects
    }
}

/// The distinct elements of a list, keeping first occurrences in order.
pub open spec fn dedup_fold(acc: Seq<Seq<char>>, xs: Seq<Seq<char>>) -> Seq<Seq<char>>
    decreases xs.len(),
{
    if xs.len() == 0 {
        acc
    } else {
        let next = if acc.contains(xs[0]) {
            acc
        } else {
            acc.push(xs[0])
        };
        dedup_fold(next, xs.drop_first())
    }
}

/// A text placed into an already-sorted text list.
pub open spec fn insert_sorted_str(x: Seq<char>, s: Seq<Seq<char>>) -> Seq<Seq<char>>
    decreases s.len(),
{
    if s.len() == 0 {
        seq![x]
    } else if lex_le(s[0], x) {
        seq![s[0]] + insert_sorted_str(x, s.drop_first())
    } else {
        seq![x] + s
    }
}

/// Texts sorted by repeated insertion.
pub open spec fn sort_strings(s: Seq<Seq<char>>) -> Seq<Seq<char>>
    decreases s.len(),
{
    if s.len() == 0 {
        Seq::empty()
    } else {
        insert_sorted_str(s.last(), sort_strings(s.drop_last()))
    }
}

/// Every pair of texts stands in order.
pub open spec fn strings_sorted(s: Seq<Seq<char>>) -> bool {
    forall|i: int, j: int| 0 <= i < j < s.len() ==> lex_le(#[trigger] s[i], #[trigger] s[j])
}

/// Insertion adds the new text and keeps the old ones.
proof fn lemma_insert_str_membership(x: Seq<char>, s: Seq<Seq<char>>)
    ensures
        insert_sorted_str(x, s).len() == s.len() + 1,
        forall|k: int|
            0 <= k < insert_sorted_str(x, s).len() ==> insert_sorted_str(x, s)[k] == x
                || s.contains(#[trigger] insert_sorted_str(x, s)[k]),
    decreases s.len(),
{
    let r = insert_sorted_str(x, s);
    if s.len() == 0 {
    } else if lex_le(s[0], x) {
        lemma_insert_str_membership(x, s.drop_first());
        let inner = insert_sorted_str(x, s.drop_first());
        assert forall|k: int| 0 <= k < r.len() implies r[k] == x || s.contains(#[trigger] r[k]) by {
            if k == 0 {
                assert(s.contains(s[0]));
            } else {
                assert(r[k] == inner[k - 1]);
                if inner[k - 1] != x {
                    let j = choose|j: int|
                        0 <= j < s.drop_first().len() && s.drop_first()[j] == inner[k - 1];
                    assert(s[j + 1] == inner[k - 1]);
                    assert(s.contains(s[j + 1]));
                }
            }
        }
    } else {
        assert forall|k: int| 0 <= k < r.len() implies r[k] == x || s.contains(#[trigger] r[k]) by {
            if k > 0 {
                assert(r[k] == s[k - 1]);
                assert(s.contains(s[k - 1]));
            }
        }
    }
}

/// Insertion into a sorted text list keeps it sorted.
proof fn lemma_insert_str_sorted(x: Seq<char>, s: Seq<Seq<char>>)
    requires
        strings_sorted(s),
    ensures
        strings_sorted(insert_sorted_str(x, s)),
    decreases s.len(),
{
    let r = insert_sorted_str(x, s);
    if s.len() == 0 {
    } else if lex_le(s[0], x) {
        let rest = s.drop_first();
        assert(strings_sorted(rest)) by {
            assert(forall|i: int, j: int|
                0 <= i < j < rest.len() ==> rest[i] == s[i + 1] && rest[j] == s[j + 1]);
        }
        lemma_insert_str_sorted(x, rest);
        lemma_insert_str_membership(x, rest);
        let inner = insert_sorted_str(x, rest);
        assert forall|i: int, j: int| 0 <= i < j < r.len() implies lex_le(
            #[trigger] r[i],
            #[trigger] r[j],
        ) by {
            if i == 0 {
                assert(r[j] == inner[j - 1]);
                if inner[j - 1] != x {
                    let t = choose|t: int| 0 <= t < rest.len() && rest[t] == inner[j - 1];
                    assert(rest[t] == s[t + 1]);
                    assert(lex_le(s[0], s[t + 1]));
                }
            } else {
                assert(r[i] == inner[i - 1] && r[j] == inner[j - 1]);
            }
        }
    } else {
        crate::text::lemma_lex_total(s[0], x);
        assert forall|i: int, j: int| 0 <= i < j < r.len() implies lex_le(
            #[trigger] r[i],
            #[trigger] r[j],
        ) by {
            if i == 0 {
                assert(r[j] == s[j - 1]);
                if j > 1 {
                    crate::text::lemma_lex_trans(x, s[0], s[j - 1]);
                }
            } else {
                assert(r[i] == s[i - 1] && r[j] == s[j - 1]);
            }
        }
    }
}

/// The subject list really is an ordered list of the distinct tags: the
/// insertion-sorted distinct texts are pairwise ordered and none are lost.
pub proof fn lemma_sort_strings_sorted(s: Seq<Seq<char>>)
    ensures
        strings_sorted(sort_strings(s)),
        sort_strings(s).len() == s.len(),
    decreases s.len(),
{
    if s.len() > 0 {
        lemma_sort_strings_sorted(s.drop_last());
        lemma_insert_str_sorted(s.last(), sort_strings(s.drop_last()));
        lemma_insert_str_membership(s.last(), sort_strings(s.drop_last()));
    }
}

/// The distinct fold never holds a text twice.
pub proof fn lemma_dedup_fold_distinct(acc: Seq<Seq<char>>, xs: Seq<Seq<char>>)
    requires
        forall|i: int, j: int| 0 <= i < j < acc.len() ==> #[trigger] acc[i] != #[trigger] acc[j],
    ensures
        forall|i: int, j: int|
            0 <= i < j < dedup_fold(acc, xs).len() ==> #[trigger] dedup_fold(acc, xs)[i]
                != #[trigger] dedup_fold(acc, xs)[j],
    decreases xs.len(),
{
    if xs.len() > 0 {
        let next = if acc.contains(xs[0]) {
            acc
        } else {
            acc.push(xs[0])
        };
        assert forall|i: int, j: int| 0 <= i < j < next.len() implies #[trigger] next[i]
            != #[trigger] next[j] by {
            if !acc.contains(xs[0]) && j == next.len() - 1 {
                assert(next[i] == acc[i]);
                if acc[i] == xs[0] {
                    assert(acc.contains(acc[i]));
                }
            }
        }
        lemma_dedup_fold_distinct(next, xs.drop_first());
        assert(dedup_fold(acc, xs) == dedup_fold(next, xs.drop_first()));
    }
}

/// The mathematical view of the whole store.
#[verifier::ext_equal]
pub ghost struct DbView {
    pub books: Seq<BookView>,
    pub meta: Seq<MetaRowView>,
    pub vecs: Seq<VecRowView>,
    pub fts: Seq<FtsDocView>,
}

/// The storage engine: primary records, enrichment records, the vector
/// index and the derived lexical-index documents.
pub struct Database {
    books: Vec<Book>,
    meta: Vec<MetaRow>,
    vecs: Vec<VecRow>,
    fts: Vec<FtsDoc>,
}

impl View for Database {
    type V = DbView;

    closed spec fn view(&self) -> DbView {
        DbView {
            books: self.books@.map_values(|b: Book| b@),
            meta: self.meta@.map_values(|m: MetaRow| m@),
            vecs: self.vecs@.map_values(|v: VecRow| v@),
            fts: self.fts@.map_values(|d: FtsDoc| d@),
        }
    }
}

impl Database {
    /// Internal consistency: item ids are unique per table and every stored
    /// vector has the fixed dimension.
    pub open spec fn wf(&self) -> bool {
        let v = self@;
        &&& forall|i: int, j: int|
            0 <= i < j < v.books.len() ==> (#[trigger] v.books[i]).asin != (
            #[trigger] v.books[j]).asin
        &&& forall|i: int, j: int|
            0 <= i < j < v.meta.len() ==> (#[trigger] v.meta[i]).asin != (#[trigger] v.meta[j]).asin
        &&& forall|i: int, j: int|
            0 <= i < j < v.vecs.len() ==> (#[trigger] v.vecs[i]).asin != (#[trigger] v.vecs[j]).asin
        &&& forall|i: int|
            0 <= i < v.vecs.len() ==> (#[trigger] v.vecs[i]).embedding.len() == EMBEDDING_DIM
    }

    /// An empty store.
    pub fn new() -> (r: Database)
        ensures
            r.wf(),
            r@.books.len() == 0,
            r@.meta.len() == 0,
            r@.vecs.len() == 0,
            r@.fts.len() == 0,
    {
        let r = Database { books: Vec::new(), meta: Vec::new(), vecs: Vec::new(), fts: Vec::new() };
        proof {
            assert(r@.books =~= Seq::<BookView>::empty());
            assert(r@.meta =~= Seq::<MetaRowView>::empty());
            assert(r@.vecs =~= Seq::<VecRowView>::empty());
            assert(r@.fts =~= Seq::<FtsDocView>::empty());
        }
        r
    }

    /// The position of the book record with the given item id, if any.
    fn book_index(&self, asin: &str) -> (r: Option<usize>)
        ensures
            match r {
                Some(i) => i < self@.books.len() && self@.books[i as int].asin == asin@
                    && find_book(self@.books, asin@) == Some(self@.books[i as int]) && forall|k:
                    int| 0 <= k < i ==> (#[trigger] self@.books[k]).asin != asin@,
                None => find_book(self@.books, asin@) is None,
            },
    {
        let ghost bs = self@.books;
        let mut i: usize = 0;
        proof {
            assert(bs.skip(0) =~= bs);
        }
        while i < self.books.len()
            invariant
                i <= bs.len(),
                bs == self@.books,
                self@.books == self.books@.map_values(|b: Book| b@),
                bs.len() == self.books@.len(),
                find_book(bs, asin@) == find_book(bs.skip(i as int), asin@),
                forall|k: int| 0 <= k < i ==> (#[trigger] bs[k]).asin != asin@,
            decreases bs.len() - i,
        {
            proof {
                assert(bs.skip(i as int)[0] == bs[i as int]);
            }
            if crate::text::str_eq_string(asin, &self.books[i].asin) {
                return Some(i);
            }
            proof {
                assert(bs.skip(i as int).drop_first() =~= bs.skip(i + 1 as int));
            }
            i = i + 1;
        }
        None
    }

    /// The position of the enrichment record with the given item id, if any.
    fn meta_index(&self, asin: &str) -> (r: Option<usize>)
        ensures
            match r {
                Some(i) => i < self@.meta.len() && self@.meta[i as int].asin == asin@
                    && find_meta(self@.meta, asin@) == Some(self@.meta[i as int].data) && forall|k:
                    int| 0 <= k < i ==> (#[trigger] self@.meta[k]).asin != asin@,
                None => find_meta(self@.meta, asin@) is None,
            },
    {
        let ghost ms = self@.meta;
        let mut i: usize = 0;
        proof {
            assert(ms.skip(0) =~= ms);
        }
        while i < self.meta.len()
            invariant
                i <= ms.len(),
                ms == self@.meta,
                self@.meta == self.meta@.map_values(|m: MetaRow| m@),
                ms.len() == self.meta@.len(),
                find_meta(ms, asin@) == find_meta(ms.skip(i as int), asin@),
                forall|k: int| 0 <= k < i ==> (#[trigger] ms[k]).asin != asin@,
            decreases ms.len() - i,
        {
            proof {
                assert(ms.skip(i as int)[0] == ms[i as int]);
            }
            if crate::text::str_eq_string(asin, &self.meta[i].asin) {
                return Some(i);
            }
            proof {
                assert(ms.skip(i as int).drop_first() =~= ms.skip(i + 1 as int));
            }
            i = i + 1;
        }
        None
    }

    /// The position of the stored embedding with the given item id, if any.
    fn vec_index(&self, asin: &str) -> (r: Option<usize>)
        ensures
            match r {
                Some(i) => i < self@.vecs.len() && self@.vecs[i as int].asin == asin@
                    && find_vec(self@.vecs, asin@) == Some(self@.vecs[i as int].embedding) && forall|k:
                    int| 0 <= k < i ==> (#[trigger] self@.vecs[k]).asin != asin@,
                None => find_vec(self@.vecs, asin@) is None,
            },
    {
        let ghost vs = self@.vecs;
        let mut i: usize = 0;
        proof {
            assert(vs.skip(0) =~= vs);
        }
        while i < self.vecs.len()
            invariant
                i <= vs.len(),
                vs == self@.vecs,
                self@.vecs == self.vecs@.map_values(|v: VecRow| v@),
                vs.len() == self.vecs@.len(),
                find_vec(vs, asin@) == find_vec(vs.skip(i as int), asin@),
                forall|k: int| 0 <= k < i ==> (#[trigger] vs[k]).asin != asin@,
            decreases vs.len() - i,
        {
            proof {
                assert(vs.skip(i as int)[0] == vs[i as int]);
            }
            if crate::text::str_eq_string(asin, &self.vecs[i].asin) {
                return Some(i);
            }
            proof {
                assert(vs.skip(i as int).drop_first() =~= vs.skip(i + 1 as int));
            }
            i = i + 1;
        }
        None
    }

    /// Inserts the imported records, ignoring any whose item id already has
    /// a record: import never overwrites. Returns the count of newly
    /// inserted rows. The lexical index is left untouched (and therefore
    /// possibly stale) until [`Database::rebuild_fts`] is called.
    pub fn import_books(&mut self, books: &Vec<ImportedBook>) -> (r: Result<usize>)
        requires
            old(self).wf(),
        ensures
            final(self).wf(),
            final(self)@.books == import_fold(
                old(self)@.books,
                books@.map_values(|b: ImportedBook| b@),
            ),
            final(self)@.meta == old(self)@.meta,
            final(self)@.vecs == old(self)@.vecs,
            final(self)@.fts == old(self)@.fts,
            old(self)@.books.len() <= final(self)@.books.len(),
            final(self)@.books.len() - old(self)@.books.len() <= books@.len(),
            r == Result::<usize>::Ok(
                (final(self)@.books.len() - old(self)@.books.len()) as usize,
            ),
    {
        let ghost items = books@.map_values(|b: ImportedBook| b@);
        let ghost start = self@.books;
        let mut count: usize = 0;
        let mut i: usize = 0;
        while i < books.len()
            invariant
                i <= items.len(),
                items == books@.map_values(|b: ImportedBook| b@),
                items.len() == books@.len(),
                self.wf(),
                self@.books == import_fold(start, items.take(i as int)),
                self@.books.len() == start.len() + count,
                count <= i,
                self@.meta == old(self)@.meta,
                self@.vecs == old(self)@.vecs,
                self@.fts == old(self)@.fts,
            decreases items.len() - i,
        {
            let item = &books[i];
            proof {
                assert(items.take(i + 1 as int) =~= items.take(i as int).push(items[i as int]));
                lemma_import_fold_snoc(start, items.take(i as int), items[i as int]);
            }
            match self.book_index(item.asin.as_str()) {
                Some(_) => {
                    proof {
                        assert(has_book(self@.books, items[i as int].asin));
                    }
                },
                None => {
                    let book = Book {
                        asin: item.asin.clone(),
                        title: item.title.clone(),
                        authors: crate::types::clone_strings(&item.authors),
                        cover_url: crate::types::clone_opt_string(&item.cover_url),
                        percent_read: item.percentage_read,
                        resource_type: Some(item.resource_type.clone()),
                        origin_type: Some(item.origin_type.clone()),
                    };
                    proof {
                        assert(book@ == book_of_import(items[i as int]));
                        assert(!has_book(self@.books, items[i as int].asin));
                        lemma_find_book_exists(self@.books, items[i as int].asin);
                    }
                    let ghost prev = self@.books;
                    self.books.push(book);
                    proof {
                        assert(self@.books =~= prev.push(book_of_import(items[i as int])));
                    }
                    count = count + 1;
                },
            }
            i = i + 1;
        }
        proof {
            assert(items.take(items.len() as int) =~= items);
        }
        Ok(count)
    }

    /// Counts of books, enrichment records and stored embeddings.
    pub fn get_stats(&self) -> (r: Result<Stats>)
        ensures
            r == Result::<Stats>::Ok(
                Stats {
                    total_books: self@.books.len() as usize,
                    enriched: self@.meta.len() as usize,
                    with_embeddings: self@.vecs.len() as usize,
                },
            ),
    {
        Ok(
            Stats {
                total_books: self.books.len(),
                enriched: self.meta.len(),
                with_embeddings: self.vecs.len(),
            },
        )
    }

    /// The total book count, for pagination.
    pub fn get_book_count(&self) -> (r: Result<usize>)
        ensures
            r == Result::<usize>::Ok(self@.books.len() as usize),
    {
        Ok(self.books.len())
    }

    /// The books that have no enrichment record, for the enrich stage.
    pub fn get_books_without_metadata(&self) -> (r: Result<Vec<Book>>)
        ensures
            match r {
                Ok(v) => v@.map_values(|b: Book| b@) == books_without_meta(
                    self@.books,
                    self@.meta,
                ),
                Err(_) => false,
            },
    {
        let ghost bs = self@.books;
        let mut out: Vec<Book> = Vec::new();
        let mut i: usize = 0;
        while i < self.books.len()
            invariant
                i <= bs.len(),
                bs == self@.books,
                self@.books == self.books@.map_values(|b: Book| b@),
                bs.len() == self.books@.len(),
                out@.map_values(|b: Book| b@) == books_without_meta(
                    bs.take(i as int),
                    self@.meta,
                ),
            decreases bs.len() - i,
        {
            proof {
                assert(bs.take(i + 1 as int).drop_last() =~= bs.take(i as int));
                assert(bs.take(i + 1 as int).last() == bs[i as int]);
            }
            let ghost prev = out@.map_values(|b: Book| b@);
            match self.meta_index(self.books[i].asin.as_str()) {
                Some(_) => {},
                None => {
                    out.push(self.books[i].duplicate());
                    proof {
                        assert(out@.map_values(|b: Book| b@) =~= prev.push(bs[i as int]));
                    }
                },
            }
            i = i + 1;
        }
        proof {
            assert(bs.take(bs.len() as int) =~= bs);
        }
        Ok(out)
    }

    /// The books that have an enrichment record with a non-empty
    /// description but no stored embedding yet.
    pub fn get_books_for_embedding(&self) -> (r: Result<Vec<BookForEmbedding>>)
        ensures
            match r {
                Ok(v) => v@.map_values(|b: BookForEmbedding| b@) == embed_candidates(
                    self@.books,
                    self@.meta,
                    self@.vecs,
                ),
                Err(_) => false,
            },
    {
        let ghost bs = self@.books;
        let mut out: Vec<BookForEmbedding> = Vec::new();
        let mut i: usize = 0;
        while i < self.books.len()
            invariant
                i <= bs.len(),
                bs == self@.books,
                self@.books == self.books@.map_values(|b: Book| b@),
                bs.len() == self.books@.len(),
                out@.map_values(|b: BookForEmbedding| b@) == embed_candidates(
                    bs.take(i as int),
                    self@.meta,
                    self@.vecs,
                ),
            decreases bs.len() - i,
        {
            proof {
                assert(bs.take(i + 1 as int).drop_last() =~= bs.take(i as int));
                assert(bs.take(i + 1 as int).last() == bs[i as int]);
            }
            let ghost prev = out@.map_values(|b: BookForEmbedding| b@);
            let book = &self.books[i];
            match self.meta_index(book.asin.as_str()) {
                Some(mi) => {
                    if self.meta[mi].data.description.unicode_len() > 0 {
                        match self.vec_index(book.asin.as_str()) {
                            Some(_) => {},
                            None => {
                                let cand = BookForEmbedding {
                                    asin: book.asin.clone(),
                                    title: book.title.clone(),
                                    authors: crate::types::clone_strings(&book.authors),
                                    description: self.meta[mi].data.description.clone(),
                                };
                                out.push(cand);
                                proof {
                                    assert(out@.map_values(|b: BookForEmbedding| b@) =~= prev.push(
                                        embed_candidate_of(
                                            bs[i as int],
                                            find_meta(self@.meta, bs[i as int].asin).unwrap().description,
                                        ),
                                    ));
                                }
                            },
                        }
                    }
                },
                None => {},
            }
            i = i + 1;
        }
        proof {
            assert(bs.take(bs.len() as int) =~= bs);
        }
        Ok(out)
    }

    /// Saves one enrichment record, replacing any previous record for the
    /// same item id. An empty record is a valid "attempted, nothing found"
    /// tombstone.
    pub fn save_metadata(&mut self, asin: &str, data: &EnrichmentData) -> (r: Result<()>)
        requires
            old(self).wf(),
        ensures
            final(self).wf(),
            final(self)@.meta == upsert_meta(old(self)@.meta, asin@, data@),
            final(self)@.books == old(self)@.books,
            final(self)@.vecs == old(self)@.vecs,
            final(self)@.fts == old(self)@.fts,
            r is Ok,
            find_meta(final(self)@.meta, asin@) == Some(data@),
    {
        let ghost ms = self@.meta;
        let row = MetaRow { asin: asin.to_owned(), data: data.duplicate() };
        match self.meta_index(asin) {
            Some(i) => {
                let ghost prev = self.meta@;
                self.meta.set(i, row);
                proof {
                    lemma_upsert_meta_at(ms, asin@, data@, i as int);
                    assert(self@.meta =~= ms.update(
                        i as int,
                        MetaRowView { asin: asin@, data: data@ },
                    ));
                    lemma_upsert_find(ms, asin@, data@);
                    lemma_upsert_meta_wf(ms, asin@, data@, i as int);
                    assert(self@.books == old(self)@.books);
                    assert(self@.vecs == old(self)@.vecs);
                    assert(forall|x: int, y: int|
                        0 <= x < y < self@.books.len() ==> (#[trigger] self@.books[x]).asin != (
                        #[trigger] self@.books[y]).asin);
                    assert(forall|x: int, y: int|
                        0 <= x < y < self@.vecs.len() ==> (#[trigger] self@.vecs[x]).asin != (
                        #[trigger] self@.vecs[y]).asin);
                    assert(forall|x: int|
                        0 <= x < self@.vecs.len() ==> (#[trigger] self@.vecs[x]).embedding.len()
                        == EMBEDDING_DIM);
                    assert(forall|x: int, y: int|
                        0 <= x < y < self@.meta.len() ==> (#[trigger] self@.meta[x]).asin != (
                        #[trigger] self@.meta[y]).asin);
                    assert(self.wf());
                }
            },
            None => {
                let ghost prev = self.meta@;
                self.meta.push(row);
                proof {
                    lemma_upsert_meta_missing(ms, asin@, data@);
                    assert(self@.meta =~= ms.push(MetaRowView { asin: asin@, data: data@ }));
                    lemma_upsert_find(ms, asin@, data@);
                    lemma_find_meta_none_all_differ(ms, asin@);
                    let m2 = ms.push(MetaRowView { asin: asin@, data: data@ });
                    assert forall|x: int, y: int|
                        0 <= x < y < m2.len() implies m2[x].asin != m2[y].asin by {
                        if y == m2.len() - 1 {
                            assert(m2[x] == ms[x]);
                            assert(ms[x].asin != asin@);
                        } else {
                            assert(m2[x] == ms[x]);
                            assert(m2[y] == ms[y]);
                        }
                    }
                    assert(self@.books == old(self)@.books);
                    assert(self@.vecs == old(self)@.vecs);
                    assert(forall|x: int, y: int|
                        0 <= x < y < self@.books.len() ==> (#[trigger] self@.books[x]).asin != (
                        #[trigger] self@.books[y]).asin);
                    assert(forall|x: int, y: int|
                        0 <= x < y < self@.vecs.len() ==> (#[trigger] self@.vecs[x]).asin != (
                        #[trigger] self@.vecs[y]).asin);
                    assert(forall|x: int|
                        0 <= x < self@.vecs.len() ==> (#[trigger] self@.vecs[x]).embedding.len()
                        == EMBEDDING_DIM);
                    assert(forall|x: int, y: int|
                        0 <= x < y < self@.meta.len() ==> (#[trigger] self@.meta[x]).asin != (
                        #[trigger] self@.meta[y]).asin);
                    assert(self.wf());
                }
            },
        }
        Ok(())
    }

    /// Saves one embedding, replacing any previous vector for the same item
    /// id. The vector must have the fixed dimension; a mismatch is a caller
    /// programming error, not a recoverable condition.
    pub fn save_embedding(&mut self, asin: &str, embedding: &Vec<u32>) -> (r: Result<()>)
        requires
            old(self).wf(),
            embedding@.len() == EMBEDDING_DIM,
        ensures
            final(self).wf(),
            final(self)@.vecs == upsert_vec(old(self)@.vecs, asin@, embedding@),
            final(self)@.books == old(self)@.books,
            final(self)@.meta == old(self)@.meta,
            final(self)@.fts == old(self)@.fts,
            r is Ok,
            find_vec(final(self)@.vecs, asin@) == Some(embedding@),
    {
        let ghost vs = self@.vecs;
        let mut copy: Vec<u32> = Vec::new();
        let mut k: usize = 0;
        while k < embedding.len()
            invariant
                k <= embedding@.len(),
                copy@ == embedding@.take(k as int),
            decreases embedding@.len() - k,
        {
            copy.push(embedding[k]);
            proof {
                assert(embedding@.take(k + 1 as int) =~= embedding@.take(k as int).push(
                    embedding@[k as int],
                ));
            }
            k = k + 1;
        }
        proof {
            assert(embedding@.take(embedding@.len() as int) =~= embedding@);
        }
        let row = VecRow { asin: asin.to_owned(), embedding: copy };
        match self.vec_index(asin) {
            Some(i) => {
                self.vecs.set(i, row);
                proof {
                    lemma_upsert_vec_at(vs, asin@, embedding@, i as int);
                    assert(self@.vecs =~= vs.update(
                        i as int,
                        VecRowView { asin: asin@, embedding: embedding@ },
                    ));
                    lemma_upsert_vec_find(vs, asin@, embedding@);
                    lemma_upsert_vec_wf(vs, asin@, embedding@, i as int);
                    let v2 = vs.update(i as int, VecRowView { asin: asin@, embedding: embedding@ });
                    assert forall|k: int|
                        0 <= k < v2.len() implies (#[trigger] v2[k]).embedding.len()
                        == EMBEDDING_DIM by {
                        if k != i {
                            assert(v2[k] == vs[k]);
                        }
                    }
                    assert(self@.books == old(self)@.books);
                    assert(self@.meta == old(self)@.meta);
                    assert(forall|x: int, y: int|
                        0 <= x < y < self@.books.len() ==> (#[trigger] self@.books[x]).asin != (
                        #[trigger] self@.books[y]).asin);
                    assert(forall|x: int, y: int|
                        0 <= x < y < self@.meta.len() ==> (#[trigger] self@.meta[x]).asin != (
                        #[trigger] self@.meta[y]).asin);
                    assert(self.wf());
                }
            },
            None => {
                self.vecs.push(row);
                proof {
                    lemma_upsert_vec_missing(vs, asin@, embedding@);
                    assert(self@.vecs =~= vs.push(VecRowView { asin: asin@, embedding: embedding@ }));
                    lemma_upsert_vec_find(vs, asin@, embedding@);
                    lemma_find_vec_none_all_differ(vs, asin@);
                    let v2 = vs.push(VecRowView { asin: asin@, embedding: embedding@ });
                    assert forall|x: int, y: int|
                        0 <= x < y < v2.len() implies v2[x].asin != v2[y].asin by {
                        if y == v2.len() - 1 {
                            assert(v2[x] == vs[x]);
                            assert(vs[x].asin != asin@);
                        } else {
                            assert(v2[x] == vs[x]);
                            assert(v2[y] == vs[y]);
                        }
                    }
                    assert forall|i: int|
                        0 <= i < v2.len() implies (#[trigger] v2[i]).embedding.len()
                        == EMBEDDING_DIM by {
                        if i < v2.len() - 1 {
                            assert(v2[i] == vs[i]);
                        }
                    }
                    assert(self@.books == old(self)@.books);
                    assert(self@.meta == old(self)@.meta);
                    assert(forall|x: int, y: int|
                        0 <= x < y < self@.books.len() ==> (#[trigger] self@.books[x]).asin != (
                        #[trigger] self@.books[y]).asin);
                    assert(forall|x: int, y: int|
                        0 <= x < y < self@.meta.len() ==> (#[trigger] self@.meta[x]).asin != (
                        #[trigger] self@.meta[y]).asin);
                    assert(self.wf());
                }
            },
        }
        Ok(())
    }

    /// Deletes all enrichment records and stored embeddings, then rebuilds
    /// the lexical index to match: the invariant "embeddings require
    /// enrichment" is restored by deleting, never by leaving dangling
    /// embeddings. Returns the number of enrichment records removed.
    pub fn clear_metadata(&mut self) -> (r: Result<usize>)
        requires
            old(self).wf(),
        ensures
            final(self).wf(),
            final(self)@.books == old(self)@.books,
            final(self)@.meta.len() == 0,
            final(self)@.vecs.len() == 0,
            final(self)@.fts == fts_docs_spec(final(self)@.books, final(self)@.meta),
            r == Result::<usize>::Ok(old(self)@.meta.len() as usize),
    {
        let count = self.meta.len();
        self.meta = Vec::new();
        self.vecs = Vec::new();
        proof {
            assert(self@.meta =~= Seq::<MetaRowView>::empty());
            assert(self@.vecs =~= Seq::<VecRowView>::empty());
        }
        self.rebuild_fts_inner();
        Ok(count)
    }

    /// Fully repopulates the lexical index from the current join of books
    /// and enrichment records. Must be called after any bulk mutation of
    /// those tables to keep lexical search consistent.
    pub fn rebuild_fts(&mut self) -> (r: Result<()>)
        requires
            old(self).wf(),
        ensures
            final(self).wf(),
            final(self)@.books == old(self)@.books,
            final(self)@.meta == old(self)@.meta,
            final(self)@.vecs == old(self)@.vecs,
            final(self)@.fts == fts_docs_spec(old(self)@.books, old(self)@.meta),
            r is Ok,
    {
        self.rebuild_fts_inner();
        Ok(())
    }

    /// Recomputes the derived lexical-index documents.
    fn rebuild_fts_inner(&mut self)
        requires
            old(self).wf(),
        ensures
            final(self).wf(),
            final(self)@.books == old(self)@.books,
            final(self)@.meta == old(self)@.meta,
            final(self)@.vecs == old(self)@.vecs,
            final(self)@.fts == fts_docs_spec(old(self)@.books, old(self)@.meta),
    {
        let ghost bs = self@.books;
        let mut docs: Vec<FtsDoc> = Vec::new();
        let mut i: usize = 0;
        proof {
            assert(docs@.map_values(|d: FtsDoc| d@) =~= Seq::<FtsDocView>::empty());
        }
        while i < self.books.len()
            invariant
                i <= bs.len(),
                bs == self@.books,
                self@.books == self.books@.map_values(|b: Book| b@),
                bs.len() == self.books@.len(),
                self.wf(),
                docs@.map_values(|d: FtsDoc| d@) == fts_docs_spec(bs.take(i as int), self@.meta),
            decreases bs.len() - i,
        {
            proof {
                assert(bs.take(i + 1 as int).drop_last() =~= bs.take(i as int));
                assert(bs.take(i + 1 as int).last() == bs[i as int]);
            }
            let ghost prev = docs@.map_values(|d: FtsDoc| d@);
            let book = &self.books[i];
            let authors_json = crate::json::json_encode_strings(&book.authors);
            let (description, subjects) = match self.meta_index(book.asin.as_str()) {
                Some(mi) => {
                    let d = self.meta[mi].data.description.clone();
                    let s = crate::json::json_encode_strings(&self.meta[mi].data.subjects);
                    (d, s)
                },
                None => (String::new(), String::new()),
            };
            let doc = FtsDoc {
                asin: book.asin.clone(),
                title: book.title.clone(),
                authors: authors_json,
                description,
                subjects,
            };
            proof {
                assert(doc@ == fts_doc_of(bs[i as int], self@.meta));
            }
            docs.push(doc);
            proof {
                assert(docs@.map_values(|d: FtsDoc| d@) =~= prev.push(
                    fts_doc_of(bs[i as int], self@.meta),
                ));
            }
            i = i + 1;
        }
        proof {
            assert(bs.take(bs.len() as int) =~= bs);
        }
        self.fts = docs;
        proof {
            assert(self@.books == old(self)@.books);
            assert(self@.meta == old(self)@.meta);
            assert(self@.vecs == old(self)@.vecs);
            assert(forall|x: int, y: int|
                0 <= x < y < self@.books.len() ==> (#[trigger] self@.books[x]).asin != (
                #[trigger] self@.books[y]).asin);
            assert(forall|x: int, y: int|
                0 <= x < y < self@.meta.len() ==> (#[trigger] self@.meta[x]).asin != (
                #[trigger] self@.meta[y]).asin);
            assert(forall|x: int, y: int|
                0 <= x < y < self@.vecs.len() ==> (#[trigger] self@.vecs[x]).asin != (
                #[trigger] self@.vecs[y]).asin);
            assert(forall|x: int|
                0 <= x < self@.vecs.len() ==> (#[trigger] self@.vecs[x]).embedding.len()
                == EMBEDDING_DIM);
            assert(self.wf());
        }
    }

    /// The current lexical-index documents, in index order.
    pub fn fts_documents(&self) -> (r: &Vec<FtsDoc>)
        ensures
            r@.map_values(|d: FtsDoc| d@) == self@.fts,
    {
        &self.fts
    }

    /// A single book by item id, joined with its enrichment, if present.
    pub fn get_book_by_asin(&self, asin: &str) -> (r: Result<Option<BookWithMeta>>)
        ensures
            match r {
                Ok(opt) => match find_book(self@.books, asin@) {
                    Some(b) => match opt {
                        Some(row) => row@ == with_meta_of(b, find_meta(self@.meta, b.asin)),
                        None => false,
                    },
                    None => opt is None,
                },
                Err(_) => false,
            },
    {
        match self.book_index(asin) {
            Some(i) => {
                let book = &self.books[i];
                let row = match self.meta_index(book.asin.as_str()) {
                    Some(mi) => join_one(book, Some(&self.meta[mi].data)),
                    None => join_one(book, None),
                };
                Ok(Some(row))
            },
            None => Ok(None),
        }
    }

    /// A page of the joined, filtered and sorted catalog: the rows that
    /// pass every filter, in the requested order, `limit` rows from
    /// `offset` on.
    pub fn get_all_books(
        &self,
        limit: usize,
        offset: usize,
        sort_by: Option<&str>,
        sort_dir: Option<&str>,
        filters: &Vec<Filter>,
    ) -> (r: Result<Vec<BookWithMeta>>)
        ensures
            match r {
                Ok(v) => v@.map_values(|b: BookWithMeta| b@) == page_of(
                    sort_books(
                        sort_mode_spec(crate::query::view_opt_str(sort_by)),
                        sort_desc_spec(crate::query::view_opt_str(sort_dir)),
                        matching_books(
                            self@.books,
                            self@.meta,
                            filters@.map_values(|f: Filter| f@),
                        ),
                    ),
                    offset as int,
                    limit as int,
                ),
                Err(_) => false,
            },
    {
        let ghost bs = self@.books;
        let ghost fsv = filters@.map_values(|f: Filter| f@);
        let mode = sort_mode(sort_by);
        let desc = sort_desc(sort_dir);
        let mut sorted: Vec<BookWithMeta> = Vec::new();
        let mut i: usize = 0;
        proof {
            assert(sorted@.map_values(|b: BookWithMeta| b@) =~= Seq::<BookWithMetaView>::empty());
        }
        while i < self.books.len()
            invariant
                i <= bs.len(),
                bs == self@.books,
                self@.books == self.books@.map_values(|b: Book| b@),
                bs.len() == self.books@.len(),
                fsv == filters@.map_values(|f: Filter| f@),
                sorted@.map_values(|b: BookWithMeta| b@) == sort_books(
                    mode,
                    desc,
                    matching_books(bs.take(i as int), self@.meta, fsv),
                ),
            decreases bs.len() - i,
        {
            proof {
                assert(bs.take(i + 1 as int).drop_last() =~= bs.take(i as int));
                assert(bs.take(i + 1 as int).last() == bs[i as int]);
            }
            let book = &self.books[i];
            let ghost mprev = matching_books(bs.take(i as int), self@.meta, fsv);
            match self.meta_index(book.asin.as_str()) {
                Some(mi) => {
                    if browse_match_all(filters, book, Some(&self.meta[mi].data)) {
                        let row = join_one(book, Some(&self.meta[mi].data));
                        insert_row_sorted(&mut sorted, row, mode, desc);
                        proof {
                            assert(mprev.push(
                                with_meta_of(bs[i as int], find_meta(self@.meta, bs[i as int].asin)),
                            ).drop_last() =~= mprev);
                        }
                    }
                },
                None => {
                    if browse_match_all(filters, book, None) {
                        let row = join_one(book, None);
                        insert_row_sorted(&mut sorted, row, mode, desc);
                        proof {
                            assert(mprev.push(
                                with_meta_of(bs[i as int], find_meta(self@.meta, bs[i as int].asin)),
                            ).drop_last() =~= mprev);
                        }
                    }
                },
            }
            i = i + 1;
        }
        proof {
            assert(bs.take(bs.len() as int) =~= bs);
        }
        let ghost full = sorted@.map_values(|b: BookWithMeta| b@);
        let total = sorted.len();
        let start = if offset < total {
            offset
        } else {
            total
        };
        let end = if limit < total - start {
            start + limit
        } else {
            total
        };
        let mut out: Vec<BookWithMeta> = Vec::new();
        let mut k: usize = start;
        proof {
            assert(out@.map_values(|b: BookWithMeta| b@) =~= Seq::<BookWithMetaView>::empty());
        }
        while k < end
            invariant
                start <= k <= end <= full.len(),
                full == sorted@.map_values(|b: BookWithMeta| b@),
                full.len() == sorted@.len(),
                out@.map_values(|b: BookWithMeta| b@) == full.subrange(start as int, k as int),
            decreases end - k,
        {
            let ghost prev = out@.map_values(|b: BookWithMeta| b@);
            out.push(sorted[k].duplicate());
            proof {
                assert(out@.map_values(|b: BookWithMeta| b@) =~= prev.push(full[k as int]));
                assert(full.subrange(start as int, k + 1 as int) =~= full.subrange(
                    start as int,
                    k as int,
                ).push(full[k as int]));
            }
            k = k + 1;
        }
        proof {
            assert(out@.map_values(|b: BookWithMeta| b@) =~= page_of(
                full,
                offset as int,
                limit as int,
            ));
        }
        Ok(out)
    }

    /// How many books pass every filter.
    pub fn get_book_count_filtered(&self, filters: &Vec<Filter>) -> (r: Result<usize>)
        ensures
            r == Result::<usize>::Ok(
                matching_books(
                    self@.books,
                    self@.meta,
                    filters@.map_values(|f: Filter| f@),
                ).len() as usize,
            ),
    {
        let ghost bs = self@.books;
        let ghost fsv = filters@.map_values(|f: Filter| f@);
        let mut count: usize = 0;
        let mut i: usize = 0;
        while i < self.books.len()
            invariant
                i <= bs.len(),
                bs == self@.books,
                self@.books == self.books@.map_values(|b: Book| b@),
                bs.len() == self.books@.len(),
                fsv == filters@.map_values(|f: Filter| f@),
                count == matching_books(bs.take(i as int), self@.meta, fsv).len(),
                count <= i,
            decreases bs.len() - i,
        {
            proof {
                assert(bs.take(i + 1 as int).drop_last() =~= bs.take(i as int));
                assert(bs.take(i + 1 as int).last() == bs[i as int]);
            }
            let book = &self.books[i];
            let matched = match self.meta_index(book.asin.as_str()) {
                Some(mi) => browse_match_all(filters, book, Some(&self.meta[mi].data)),
                None => browse_match_all(filters, book, None),
            };
            if matched {
                count = count + 1;
            }
            i = i + 1;
        }
        proof {
            assert(bs.take(bs.len() as int) =~= bs);
        }
        Ok(count)
    }

    /// The distinct subject tags across all enrichment records, sorted.
    pub fn get_subjects(&self) -> (r: Result<Vec<String>>)
        ensures
            match r {
                Ok(v) => crate::text::views(v@) == sort_strings(
                    dedup_fold(Seq::empty(), all_subjects(self@.meta)),
                ),
                Err(_) => false,
            },
    {
        let ghost ms = self@.meta;
        let mut distinct: Vec<String> = Vec::new();
        let mut r: usize = 0;
        proof {
            assert(crate::text::views(distinct@) =~= Seq::<Seq<char>>::empty());
            assert(all_subjects(ms.take(0)) =~= Seq::<Seq<char>>::empty());
        }
        while r < self.meta.len()
            invariant
                r <= ms.len(),
                ms == self@.meta,
                self@.meta == self.meta@.map_values(|m: MetaRow| m@),
                ms.len() == self.meta@.len(),
                crate::text::views(distinct@) == dedup_fold(
                    Seq::empty(),
                    all_subjects(ms.take(r as int)),
                ),
            decreases ms.len() - r,
        {
            proof {
                assert(ms.take(r + 1 as int).drop_last() =~= ms.take(r as int));
                assert(ms.take(r + 1 as int).last() == ms[r as int]);
            }
            let ghost base = all_subjects(ms.take(r as int));
            let ghost subj = ms[r as int].data.subjects;
            let subjects = &self.meta[r].data.subjects;
            let mut j: usize = 0;
            proof {
                assert(base + subj.take(0) =~= base);
            }
            while j < subjects.len()
                invariant
                    j <= subj.len(),
                    subj.len() == subjects@.len(),
                    forall|t: int| 0 <= t < subj.len() ==> subj[t] == subjects@.map_values(
                        |s: String| s@,
                    )[t],
                    crate::text::views(distinct@) == dedup_fold(
                        Seq::empty(),
                        base + subj.take(j as int),
                    ),
                decreases subj.len() - j,
            {
                proof {
                    assert(subj[j as int] == subjects@[j as int]@);
                    assert((base + subj.take(j as int)).push(subj[j as int]) =~= base + subj.take(
                        j + 1 as int,
                    ));
                    lemma_dedup_snoc(Seq::empty(), base + subj.take(j as int), subj[j as int]);
                }
                let ghost dv = crate::text::views(distinct@);
                if !strings_contain(&distinct, &subjects[j]) {
                    distinct.push(subjects[j].clone());
                    proof {
                        assert(crate::text::views(distinct@) =~= dv.push(subj[j as int]));
                    }
                }
                j = j + 1;
            }
            proof {
                assert(subj.take(subj.len() as int) =~= subj);
                assert(base + subj =~= all_subjects(ms.take(r + 1 as int)));
            }
            r = r + 1;
        }
        proof {
            assert(ms.take(ms.len() as int) =~= ms);
        }
        let ghost dd = crate::text::views(distinct@);
        let mut sorted: Vec<String> = Vec::new();
        let mut k: usize = 0;
        proof {
            assert(crate::text::views(sorted@) =~= Seq::<Seq<char>>::empty());
        }
        while k < distinct.len()
            invariant
                k <= dd.len(),
                dd == crate::text::views(distinct@),
                dd.len() == distinct@.len(),
                crate::text::views(sorted@) == sort_strings(dd.take(k as int)),
            decreases dd.len() - k,
        {
            proof {
                assert(dd.take(k + 1 as int).drop_last() =~= dd.take(k as int));
                assert(dd.take(k + 1 as int).last() == dd[k as int]);
                assert(dd[k as int] == distinct@[k as int]@);
            }
            insert_string_sorted(&mut sorted, distinct[k].clone());
            k = k + 1;
        }
        proof {
            assert(dd.take(dd.len() as int) =~= dd);
        }
        Ok(sorted)
    }
}

/// The view of an optional borrowed enrichment record.
pub open spec fn view_opt_meta(m: Option<&EnrichmentData>) -> Option<EnrichmentDataView> {
    match m {
        Some(d) => Some(d@),
        None => None,
    }
}

/// ASCII lower case of a character vector.
fn to_lower_chars(v: &Vec<char>) -> (r: Vec<char>)
    ensures
        r@ == lower_seq(v@),
{
    let mut out: Vec<char> = Vec::new();
    let mut i: usize = 0;
    proof {
        assert(out@ =~= lower_seq(v@.take(0)));
    }
    while i < v.len()
        invariant
            i <= v@.len(),
            out@ == lower_seq(v@.take(i as int)),
        decreases v@.len() - i,
    {
        let c = v[i];
        let cv = c as u32;
        let lc: char = if 65 <= cv && cv <= 90 {
            ((cv as u8) + 32) as char
        } else {
            c
        };
        proof {
            assert(lc == ascii_lower(v@[i as int]));
        }
        out.push(lc);
        proof {
            assert(out@ =~= lower_seq(v@.take(i + 1 as int))) by {
                assert(lower_seq(v@.take(i + 1 as int)) =~= lower_seq(v@.take(i as int)).push(
                    ascii_lower(v@[i as int]),
                ));
            }
        }
        i = i + 1;
    }
    proof {
        assert(v@.take(v@.len() as int) =~= v@);
    }
    out
}

/// Case-insensitive substring test.
fn contains_ci_exec(h: &Vec<char>, n: &Vec<char>) -> (r: bool)
    ensures
        r == contains_ci(h@, n@),
{
    let lh = to_lower_chars(h);
    let ln = to_lower_chars(n);
    match crate::text::find_from(&lh, 0, &ln) {
        Some(_) => true,
        None => {
            proof {
                assert(forall|k: int| !matches_at(lh@, k, ln@)) by {
                    assert(forall|k: int| k < 0 ==> !matches_at(lh@, k, ln@));
                }
            }
            false
        },
    }
}

/// Whether one browse filter accepts a book.
fn browse_match(f: &Filter, book: &Book, meta: Option<&EnrichmentData>) -> (r: bool)
    ensures
        r == browse_filter_matches(f@, book@, view_opt_meta(meta)),
{
    let field_title = String::from_str("title");
    let field_author = String::from_str("author");
    let field_description = String::from_str("description");
    let field_subject = String::from_str("subject");
    let op_contains = String::from_str("contains");
    let op_has = String::from_str("has");
    let field_known = f.field == field_title || f.field == field_author || f.field
        == field_description || f.field == field_subject;
    let is_contains = f.op == op_contains;
    let is_has = f.op == op_has;
    if !field_known || (!is_contains && !is_has) {
        proof {
            assert(!crate::query::filter_applies(f@));
        }
        return true;
    }
    let text: Option<Vec<char>> = if f.field == field_title {
        Some(crate::text::chars_of(book.title.as_str()))
    } else if f.field == field_author {
        let enc = crate::json::json_encode_strings(&book.authors);
        Some(crate::text::chars_of(enc.as_str()))
    } else {
        match meta {
            Some(d) => {
                if f.field == field_description {
                    Some(crate::text::chars_of(d.description.as_str()))
                } else {
                    let enc = crate::json::json_encode_strings(&d.subjects);
                    Some(crate::text::chars_of(enc.as_str()))
                }
            },
            None => None,
        }
    };
    match text {
        None => false,
        Some(t) => {
            let value = crate::text::chars_of(f.value.as_str());
            if is_contains {
                contains_ci_exec(&t, &value)
            } else {
                let mut quoted: Vec<char> = Vec::new();
                quoted.push('"');
                quoted.extend_from_slice(value.as_slice());
                quoted.push('"');
                proof {
                    assert(quoted@ =~= seq!['"'] + f@.value + seq!['"']);
                }
                contains_ci_exec(&t, &quoted)
            }
        },
    }
}

/// Whether every filter of a list accepts a book.
fn browse_match_all(fs: &Vec<Filter>, book: &Book, meta: Option<&EnrichmentData>) -> (r: bool)
    ensures
        r == all_browse_match(fs@.map_values(|f: Filter| f@), book@, view_opt_meta(meta)),
{
    let ghost fsv = fs@.map_values(|f: Filter| f@);
    let mut i: usize = 0;
    while i < fs.len()
        invariant
            i <= fsv.len(),
            fsv == fs@.map_values(|f: Filter| f@),
            fsv.len() == fs@.len(),
            forall|k: int|
                0 <= k < i ==> browse_filter_matches(#[trigger] fsv[k], book@, view_opt_meta(meta)),
        decreases fsv.len() - i,
    {
        if !browse_match(&fs[i], book, meta) {
            proof {
                assert(!browse_filter_matches(fsv[i as int], book@, view_opt_meta(meta)));
            }
            return false;
        }
        i = i + 1;
    }
    true
}

/// Joins one book with its (possibly absent) enrichment.
fn join_one(book: &Book, meta: Option<&EnrichmentData>) -> (r: BookWithMeta)
    ensures
        r@ == with_meta_of(book@, view_opt_meta(meta)),
{
    match meta {
        Some(d) => BookWithMeta {
            asin: book.asin.clone(),
            title: book.title.clone(),
            authors: crate::types::clone_strings(&book.authors),
            cover_url: crate::types::clone_opt_string(&book.cover_url),
            percent_read: book.percent_read,
            resource_type: crate::types::clone_opt_string(&book.resource_type),
            origin_type: crate::types::clone_opt_string(&book.origin_type),
            description: Some(d.description.clone()),
            subjects: crate::types::clone_strings(&d.subjects),
            publish_year: crate::types::clone_opt_i32(&d.publish_year),
            isbn: crate::types::clone_opt_string(&d.isbn),
            openlibrary_key: Some(d.openlibrary_key.clone()),
        },
        None => BookWithMeta {
            asin: book.asin.clone(),
            title: book.title.clone(),
            authors: crate::types::clone_strings(&book.authors),
            cover_url: crate::types::clone_opt_string(&book.cover_url),
            percent_read: book.percent_read,
            resource_type: crate::types::clone_opt_string(&book.resource_type),
            origin_type: crate::types::clone_opt_string(&book.origin_type),
            description: None,
            subjects: Vec::new(),
            publish_year: None,
            isbn: None,
            openlibrary_key: None,
        },
    }
}

/// Parses the requested sort key.
fn sort_mode(sort_by: Option<&str>) -> (m: SortMode)
    ensures
        m == sort_mode_spec(crate::query::view_opt_str(sort_by)),
{
    match sort_by {
        Some(s) => {
            if crate::text::str_eq_string(s, &String::from_str("author")) {
                SortMode::Author
            } else if crate::text::str_eq_string(s, &String::from_str("year")) {
                SortMode::Year
            } else {
                SortMode::Title
            }
        },
        None => SortMode::Title,
    }
}

/// Parses the requested sort direction.
fn sort_desc(sort_dir: Option<&str>) -> (d: bool)
    ensures
        d == sort_desc_spec(crate::query::view_opt_str(sort_dir)),
{
    match sort_dir {
        Some(s) => crate::text::str_eq_string(s, &String::from_str("desc")),
        None => false,
    }
}

/// Compares two rows under the requested key and direction.
fn book_le_exec(mode: SortMode, desc: bool, a: &BookWithMeta, b: &BookWithMeta) -> (r: bool)
    ensures
        r == book_le(mode, desc, a@, b@),
{
    match mode {
        SortMode::Author => {
            proof {
                if a@.authors.len() > 0 {
                    assert(a@.authors[0] == a.authors@[0]@);
                }
                if b@.authors.len() > 0 {
                    assert(b@.authors[0] == b.authors@[0]@);
                }
            }
            if desc {
                if a.authors.len() == 0 {
                    b.authors.len() == 0
                } else if b.authors.len() == 0 {
                    true
                } else {
                    let ka = crate::text::chars_of(a.authors[0].as_str());
                    let kb = crate::text::chars_of(b.authors[0].as_str());
                    crate::text::lex_le_chars(&kb, &ka)
                }
            } else {
                if a.authors.len() == 0 {
                    true
                } else if b.authors.len() == 0 {
                    false
                } else {
                    let ka = crate::text::chars_of(a.authors[0].as_str());
                    let kb = crate::text::chars_of(b.authors[0].as_str());
                    crate::text::lex_le_chars(&ka, &kb)
                }
            }
        },
        SortMode::Year => match a.publish_year {
            None => b.publish_year.is_none(),
            Some(x) => match b.publish_year {
                None => true,
                Some(y) => if desc {
                    y <= x
                } else {
                    x <= y
                },
            },
        },
        SortMode::Title => {
            let ta = crate::text::chars_of(a.title.as_str());
            let tb = crate::text::chars_of(b.title.as_str());
            if desc {
                crate::text::lex_le_chars(&tb, &ta)
            } else {
                crate::text::lex_le_chars(&ta, &tb)
            }
        },
    }
}

/// Inserts a row into an already-sorted vector at its ordered position.
fn insert_row_sorted(v: &mut Vec<BookWithMeta>, x: BookWithMeta, mode: SortMode, desc: bool)
    ensures
        final(v)@.map_values(|b: BookWithMeta| b@) == insert_sorted(
            mode,
            desc,
            x@,
            old(v)@.map_values(|b: BookWithMeta| b@),
        ),
{
    let ghost s = v@.map_values(|b: BookWithMeta| b@);
    let mut j: usize = 0;
    proof {
        assert(s.skip(0) =~= s);
        assert(s.take(0) =~= Seq::<BookWithMetaView>::empty());
    }
    while j < v.len() && book_le_exec(mode, desc, &v[j], &x)
        invariant
            j <= s.len(),
            s == v@.map_values(|b: BookWithMeta| b@),
            s.len() == v@.len(),
            insert_sorted(mode, desc, x@, s) == s.take(j as int) + insert_sorted(
                mode,
                desc,
                x@,
                s.skip(j as int),
            ),
        decreases s.len() - j,
    {
        proof {
            assert(s.skip(j as int)[0] == s[j as int]);
            assert(s.skip(j as int).drop_first() =~= s.skip(j + 1 as int));
            assert(insert_sorted(mode, desc, x@, s.skip(j as int)) == seq![s[j as int]]
                + insert_sorted(mode, desc, x@, s.skip(j + 1 as int)));
            assert(s.take(j + 1 as int) =~= s.take(j as int).push(s[j as int]));
            assert(s.take(j as int) + (seq![s[j as int]] + insert_sorted(
                mode,
                desc,
                x@,
                s.skip(j + 1 as int),
            )) =~= s.take(j + 1 as int) + insert_sorted(mode, desc, x@, s.skip(j + 1 as int)));
        }
        j = j + 1;
    }
    proof {
        if j < s.len() {
            assert(s.skip(j as int)[0] == s[j as int]);
            assert(insert_sorted(mode, desc, x@, s.skip(j as int)) == seq![x@] + s.skip(j as int));
        } else {
            assert(s.skip(j as int) =~= Seq::<BookWithMetaView>::empty());
            assert(insert_sorted(mode, desc, x@, s.skip(j as int)) == seq![x@]);
            assert(seq![x@] =~= seq![x@] + s.skip(j as int));
        }
    }
    let ghost xv = x@;
    v.insert(j, x);
    proof {
        assert(v@.map_values(|b: BookWithMeta| b@) =~= s.take(j as int) + (seq![xv] + s.skip(
            j as int,
        )));
    }
}

/// Whether a list of strings holds the given text.
pub(crate) fn strings_contain(v: &Vec<String>, x: &String) -> (r: bool)
    ensures
        r == crate::text::views(v@).contains(x@),
{
    let ghost vv = crate::text::views(v@);
    let mut i: usize = 0;
    while i < v.len()
        invariant
            i <= vv.len(),
            vv == crate::text::views(v@),
            vv.len() == v@.len(),
            forall|k: int| 0 <= k < i ==> vv[k] != x@,
        decreases vv.len() - i,
    {
        proof {
            assert(vv[i as int] == v@[i as int]@);
        }
        if v[i] == *x {
            proof {
                assert(vv.contains(x@)) by {
                    assert(vv[i as int] == x@);
                }
            }
            return true;
        }
        i = i + 1;
    }
    proof {
        if vv.contains(x@) {
            let k = choose|k: int| 0 <= k < vv.len() && vv[k] == x@;
            assert(false);
        }
    }
    false
}

/// Inserts a text into an already-sorted vector at its ordered position.
fn insert_string_sorted(v: &mut Vec<String>, x: String)
    ensures
        crate::text::views(final(v)@) == insert_sorted_str(x@, crate::text::views(old(v)@)),
{
    let ghost s = crate::text::views(v@);
    let xc = crate::text::chars_of(x.as_str());
    let mut j: usize = 0;
    proof {
        assert(s.skip(0) =~= s);
        assert(s.take(0) =~= Seq::<Seq<char>>::empty());
    }
    while j < v.len() && crate::text::lex_le_chars(&crate::text::chars_of(v[j].as_str()), &xc)
        invariant
            j <= s.len(),
            s == crate::text::views(v@),
            s.len() == v@.len(),
            xc@ == x@,
            insert_sorted_str(x@, s) == s.take(j as int) + insert_sorted_str(x@, s.skip(j as int)),
        decreases s.len() - j,
    {
        proof {
            assert(s.skip(j as int)[0] == s[j as int]);
            assert(s[j as int] == v@[j as int]@);
            assert(s.skip(j as int).drop_first() =~= s.skip(j + 1 as int));
            assert(insert_sorted_str(x@, s.skip(j as int)) == seq![s[j as int]]
                + insert_sorted_str(x@, s.skip(j + 1 as int)));
            assert(s.take(j + 1 as int) =~= s.take(j as int).push(s[j as int]));
            assert(s.take(j as int) + (seq![s[j as int]] + insert_sorted_str(
                x@,
                s.skip(j + 1 as int),
            )) =~= s.take(j + 1 as int) + insert_sorted_str(x@, s.skip(j + 1 as int)));
        }
        j = j + 1;
    }
    proof {
        if j < s.len() {
            assert(s.skip(j as int)[0] == s[j as int]);
            assert(s[j as int] == v@[j as int]@);
            assert(insert_sorted_str(x@, s.skip(j as int)) == seq![x@] + s.skip(j as int));
        } else {
            assert(s.skip(j as int) =~= Seq::<Seq<char>>::empty());
            assert(insert_sorted_str(x@, s.skip(j as int)) == seq![x@]);
            assert(seq![x@] =~= seq![x@] + s.skip(j as int));
        }
    }
    let ghost xv = x@;
    v.insert(j, x);
    proof {
        assert(crate::text::views(v@) =~= s.take(j as int) + (seq![xv] + s.skip(j as int)));
    }
}

/// Folding one more element steps the distinct fold once at the end.
pub(crate) proof fn lemma_dedup_snoc(acc: Seq<Seq<char>>, xs: Seq<Seq<char>>, x: Seq<char>)
    ensures
        dedup_fold(acc, xs.push(x)) == {
            let d = dedup_fold(acc, xs);
            if d.contains(x) {
                d
            } else {
                d.push(x)
            }
        },
    decreases xs.len(),
{
    let single = xs.push(x);
    if xs.len() == 0 {
        assert(single.len() == 1);
        assert(single[0] == x);
        assert(single.drop_first() =~= Seq::<Seq<char>>::empty());
        let nx = if acc.contains(x) {
            acc
        } else {
            acc.push(x)
        };
        assert(dedup_fold(nx, single.drop_first()) == nx);
        assert(dedup_fold(acc, single) == nx);
        assert(dedup_fold(acc, xs) == acc);
    } else {
        let next = if acc.contains(xs[0]) {
            acc
        } else {
            acc.push(xs[0])
        };
        assert(single[0] == xs[0]);
        assert(single.drop_first() =~= xs.drop_first().push(x));
        assert(dedup_fold(acc, single) == dedup_fold(next, single.drop_first()));
        assert(dedup_fold(acc, xs) == dedup_fold(next, xs.drop_first()));
        lemma_dedup_snoc(next, xs.drop_first(), x);
    }
}

/// A page of joined rows together with its pagination frame.
pub struct PaginatedBooks {
    pub books: Vec<BookWithMeta>,
    pub page: usize,
    pub per_page: usize,
    pub total: usize,
    pub total_pages: usize,
}

/// The requested page number, at least one.
pub open spec fn page_norm(page: Option<usize>) -> int {
    match page {
        Some(p) => if p < 1 {
            1
        } else {
            p as int
        },
        None => 1,
    }
}

/// The requested page size, fifty by default.
pub open spec fn per_page_norm(per_page: Option<usize>) -> int {
    match per_page {
        Some(p) => p as int,
        None => 50,
    }
}

/// Normalizes a pagination request into page, page size and row offset.
pub fn page_offset(page: Option<usize>, per_page: Option<usize>) -> (r: (usize, usize, usize))
    requires
        (page_norm(page) - 1) * per_page_norm(per_page) <= usize::MAX,
    ensures
        r.0 == page_norm(page),
        r.1 == per_page_norm(per_page),
        r.2 == (page_norm(page) - 1) * per_page_norm(per_page),
{
    let p = match page {
        Some(p) => if p < 1 {
            1
        } else {
            p
        },
        None => 1,
    };
    let pp = match per_page {
        Some(p) => p,
        None => 50,
    };
    let offset = (p - 1) * pp;
    (p, pp, offset)
}

/// How many pages a total of rows spans: the total divided by the page
/// size, rounded up.
pub fn total_pages(total: usize, per_page: usize) -> (r: usize)
    requires
        per_page > 0,
        total + per_page <= usize::MAX,
    ensures
        r == (total + per_page - 1) / (per_page as int),
{
    (total + per_page - 1) / per_page
}

/// A present item id stays present through any further import.
pub proof fn lemma_has_book_fold_mono(
    books: Seq<BookView>,
    items: Seq<ImportedBookView>,
    a: Seq<char>,
)
    requires
        has_book(books, a),
    ensures
        has_book(import_fold(books, items), a),
{
    lemma_find_book_exists(books, a);
    lemma_import_fold_extends(books, items);
    let i = choose|i: int| 0 <= i < books.len() && books[i].asin == a;
    assert(import_fold(books, items)[i].asin == a);
    lemma_find_book_exists(import_fold(books, items), a);
}

/// After an import, every imported item id has a record.
pub proof fn lemma_fold_contains_items(
    books: Seq<BookView>,
    items: Seq<ImportedBookView>,
    k: int,
)
    requires
        0 <= k < items.len(),
    ensures
        has_book(import_fold(books, items), items[k].asin),
    decreases items.len(),
{
    let next = if has_book(books, items[0].asin) {
        books
    } else {
        books.push(book_of_import(items[0]))
    };
    assert(import_fold(books, items) == import_fold(next, items.drop_first()));
    if k == 0 {
        if !has_book(books, items[0].asin) {
            lemma_find_book_exists(next, items[0].asin);
            assert(next[next.len() - 1].asin == items[0].asin);
        }
        lemma_has_book_fold_mono(next, items.drop_first(), items[0].asin);
    } else {
        lemma_fold_contains_items(next, items.drop_first(), k - 1);
        assert(items.drop_first()[k - 1] == items[k]);
    }
}

/// Importing items whose ids are all present changes nothing.
pub proof fn lemma_import_fold_stable(books: Seq<BookView>, items: Seq<ImportedBookView>)
    requires
        forall|k: int| 0 <= k < items.len() ==> has_book(books, (#[trigger] items[k]).asin),
    ensures
        import_fold(books, items) == books,
    decreases items.len(),
{
    if items.len() > 0 {
        assert(has_book(books, items[0].asin));
        assert(import_fold(books, items) == import_fold(books, items.drop_first()));
        assert(forall|k: int|
            0 <= k < items.drop_first().len() ==> has_book(
                books,
                (#[trigger] items.drop_first()[k]).asin,
            )) by {
            assert(forall|k: int|
                0 <= k < items.drop_first().len() ==> items.drop_first()[k] == items[k + 1]);
        }
        lemma_import_fold_stable(books, items.drop_first());
    }
}

/// Import is idempotent: importing the same record set twice leaves the
/// books exactly as after the first import, so the second import inserts
/// zero new rows and the book count is unaffected.
pub proof fn lemma_import_idempotent(books: Seq<BookView>, items: Seq<ImportedBookView>)
    ensures
        import_fold(import_fold(books, items), items) == import_fold(books, items),
        import_fold(import_fold(books, items), items).len() == import_fold(books, items).len(),
{
    let once = import_fold(books, items);
    assert(forall|k: int| 0 <= k < items.len() ==> has_book(once, (#[trigger] items[k]).asin))
        by {
        assert forall|k: int| 0 <= k < items.len() implies has_book(
            once,
            (#[trigger] items[k]).asin,
        ) by {
            lemma_fold_contains_items(books, items, k);
        }
    }
    lemma_import_fold_stable(once, items);
}

/// Clearing metadata restores the dependency invariant: with no enrichment
/// records and no stored vectors, no book is a candidate for embedding and
/// no embedding exists for any item id.
pub proof fn lemma_clear_metadata_invariant(books: Seq<BookView>)
    ensures
        embed_candidates(books, Seq::empty(), Seq::empty()) == Seq::<BookForEmbeddingView>::empty(),
        forall|a: Seq<char>| find_vec(Seq::empty(), a) is None,
    decreases books.len(),
{
    if books.len() > 0 {
        lemma_clear_metadata_invariant(books.drop_last());
    }
}

/// Replacing the record at the position where the key already sits is the
/// same as the insert-or-replace fold.
proof fn lemma_upsert_meta_at(meta: Seq<MetaRowView>, a: Seq<char>, d: EnrichmentDataView, i: int)
    requires
        0 <= i < meta.len(),
        meta[i].asin == a,
        forall|k: int| 0 <= k < i ==> (#[trigger] meta[k]).asin != a,
    ensures
        upsert_meta(meta, a, d) == meta.update(i, MetaRowView { asin: a, data: d }),
    decreases i,
{
    if i == 0 {
        assert(upsert_meta(meta, a, d) =~= meta.update(0, MetaRowView { asin: a, data: d }));
    } else {
        lemma_upsert_meta_at(meta.drop_first(), a, d, i - 1);
        assert(meta.drop_first().update(i - 1, MetaRowView { asin: a, data: d }) =~= meta.update(
            i,
            MetaRowView { asin: a, data: d },
        ).drop_first());
        assert(upsert_meta(meta, a, d) =~= meta.update(i, MetaRowView { asin: a, data: d }));
    }
}

/// When the key is absent, insert-or-replace appends.
proof fn lemma_upsert_meta_missing(meta: Seq<MetaRowView>, a: Seq<char>, d: EnrichmentDataView)
    requires
        find_meta(meta, a) is None,
    ensures
        upsert_meta(meta, a, d) == meta.push(MetaRowView { asin: a, data: d }),
    decreases meta.len(),
{
    if meta.len() == 0 {
        assert(upsert_meta(meta, a, d) =~= meta.push(MetaRowView { asin: a, data: d }));
    } else {
        lemma_upsert_meta_missing(meta.drop_first(), a, d);
        assert(upsert_meta(meta, a, d) =~= meta.push(MetaRowView { asin: a, data: d }));
    }
}

/// After an insert-or-replace the key maps to the new record.
proof fn lemma_upsert_find(meta: Seq<MetaRowView>, a: Seq<char>, d: EnrichmentDataView)
    ensures
        find_meta(upsert_meta(meta, a, d), a) == Some(d),
    decreases meta.len(),
{
    if meta.len() > 0 && meta[0].asin != a {
        lemma_upsert_find(meta.drop_first(), a, d);
        assert(upsert_meta(meta, a, d).drop_first() =~= upsert_meta(meta.drop_first(), a, d));
    }
}

/// A key that is not found differs from every record's key.
proof fn lemma_find_meta_none_all_differ(meta: Seq<MetaRowView>, a: Seq<char>)
    requires
        find_meta(meta, a) is None,
    ensures
        forall|i: int| 0 <= i < meta.len() ==> (#[trigger] meta[i]).asin != a,
    decreases meta.len(),
{
    if meta.len() > 0 {
        lemma_find_meta_none_all_differ(meta.drop_first(), a);
        assert(forall|i: int|
            1 <= i < meta.len() ==> (#[trigger] meta[i]).asin == meta.drop_first()[i - 1].asin);
    }
}

/// Replacing in place at the key's position preserves key uniqueness.
proof fn lemma_upsert_meta_wf(meta: Seq<MetaRowView>, a: Seq<char>, d: EnrichmentDataView, i: int)
    requires
        0 <= i < meta.len(),
        meta[i].asin == a,
        forall|x: int, y: int|
            0 <= x < y < meta.len() ==> (#[trigger] meta[x]).asin != (#[trigger] meta[y]).asin,
    ensures
        forall|x: int, y: int|
            0 <= x < y < meta.update(i, MetaRowView { asin: a, data: d }).len() ==> (
            #[trigger] meta.update(i, MetaRowView { asin: a, data: d })[x]).asin != (
            #[trigger] meta.update(i, MetaRowView { asin: a, data: d })[y]).asin,
{
    let m2 = meta.update(i, MetaRowView { asin: a, data: d });
    assert forall|x: int, y: int| 0 <= x < y < m2.len() implies m2[x].asin != m2[y].asin by {
        assert(meta[x].asin != meta[y].asin);
        if x == i {
            assert(m2[x].asin == meta[i].asin);
        } else if y == i {
            assert(m2[y].asin == meta[i].asin);
        }
    }
}

/// Replacing the vector at the position where the key already sits is the
/// same as the insert-or-replace fold.
proof fn lemma_upsert_vec_at(vecs: Seq<VecRowView>, a: Seq<char>, e: Seq<u32>, i: int)
    requires
        0 <= i < vecs.len(),
        vecs[i].asin == a,
        forall|k: int| 0 <= k < i ==> (#[trigger] vecs[k]).asin != a,
    ensures
        upsert_vec(vecs, a, e) == vecs.update(i, VecRowView { asin: a, embedding: e }),
    decreases i,
{
    if i == 0 {
        assert(upsert_vec(vecs, a, e) =~= vecs.update(0, VecRowView { asin: a, embedding: e }));
    } else {
        lemma_upsert_vec_at(vecs.drop_first(), a, e, i - 1);
        assert(vecs.drop_first().update(i - 1, VecRowView { asin: a, embedding: e })
            =~= vecs.update(i, VecRowView { asin: a, embedding: e }).drop_first());
        assert(upsert_vec(vecs, a, e) =~= vecs.update(i, VecRowView { asin: a, embedding: e }));
    }
}

/// When the key is absent, insert-or-replace appends.
proof fn lemma_upsert_vec_missing(vecs: Seq<VecRowView>, a: Seq<char>, e: Seq<u32>)
    requires
        find_vec(vecs, a) is None,
    ensures
        upsert_vec(vecs, a, e) == vecs.push(VecRowView { asin: a, embedding: e }),
    decreases vecs.len(),
{
    if vecs.len() == 0 {
        assert(upsert_vec(vecs, a, e) =~= vecs.push(VecRowView { asin: a, embedding: e }));
    } else {
        lemma_upsert_vec_missing(vecs.drop_first(), a, e);
        assert(upsert_vec(vecs, a, e) =~= vecs.push(VecRowView { asin: a, embedding: e }));
    }
}

/// After an insert-or-replace the key maps to the new vector.
proof fn lemma_upsert_vec_find(vecs: Seq<VecRowView>, a: Seq<char>, e: Seq<u32>)
    ensures
        find_vec(upsert_vec(vecs, a, e), a) == Some(e),
    decreases vecs.len(),
{
    if vecs.len() > 0 && vecs[0].asin != a {
        lemma_upsert_vec_find(vecs.drop_first(), a, e);
        assert(upsert_vec(vecs, a, e).drop_first() =~= upsert_vec(vecs.drop_first(), a, e));
    }
}

/// A key that is not found differs from every row's key.
proof fn lemma_find_vec_none_all_differ(vecs: Seq<VecRowView>, a: Seq<char>)
    requires
        find_vec(vecs, a) is None,
    ensures
        forall|i: int| 0 <= i < vecs.len() ==> (#[trigger] vecs[i]).asin != a,
    decreases vecs.len(),
{
    if vecs.len() > 0 {
        lemma_find_vec_none_all_differ(vecs.drop_first(), a);
        assert(forall|i: int|
            1 <= i < vecs.len() ==> (#[trigger] vecs[i]).asin == vecs.drop_first()[i - 1].asin);
    }
}

/// Replacing in place at the key's position preserves key uniqueness and
/// the dimension bound.
proof fn lemma_upsert_vec_wf(vecs: Seq<VecRowView>, a: Seq<char>, e: Seq<u32>, i: int)
    requires
        0 <= i < vecs.len(),
        vecs[i].asin == a,
        forall|x: int, y: int|
            0 <= x < y < vecs.len() ==> (#[trigger] vecs[x]).asin != (#[trigger] vecs[y]).asin,
    ensures
        forall|x: int, y: int|
            0 <= x < y < vecs.update(i, VecRowView { asin: a, embedding: e }).len() ==> (
            #[trigger] vecs.update(i, VecRowView { asin: a, embedding: e })[x]).asin != (
            #[trigger] vecs.update(i, VecRowView { asin: a, embedding: e })[y]).asin,
{
    let v2 = vecs.update(i, VecRowView { asin: a, embedding: e });
    assert forall|x: int, y: int| 0 <= x < y < v2.len() implies v2[x].asin != v2[y].asin by {
        assert(vecs[x].asin != vecs[y].asin);
        if x == i {
            assert(v2[x].asin == vecs[i].asin);
        } else if y == i {
            assert(v2[y].asin == vecs[i].asin);
        }
    }
}

} // verus!
