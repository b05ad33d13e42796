//! The sync pipeline's decisions and reporting.
//!
//! A sync runs import, enrich and embed in order, each stage skippable
//! based on what work remains. The storage transitions and the progress
//! events are computed here; the caller performs the file parsing, the
//! catalog requests, the inter-request sleeps and the model inference, and
//! feeds the results back between steps.

use vstd::prelude::*;

use crate::catalog::{import_fold, upsert_meta, Database};
use crate::enrich::empty_enrichment;
use crate::text::{chars_of, dec_str, string_from_chars, u64_to_chars};
use crate::types::{
    EnrichmentData, ImportedBook, Result, SyncProgress, SyncProgressView, SyncStats,
};

verus! {

/// The fixed delay observed between enrichment requests for consecutive
/// books, in milliseconds.
pub const ENRICH_DELAY_MS: u64 = 250;

/// The linear remaining-time estimate in milliseconds: zero when nothing
/// is done yet or no time has passed, else remaining units divided by the
/// observed rate, saturating at the largest representable value.
pub open spec fn estimate_eta_spec(current: int, total: int, elapsed_ms: int) -> int {
    if current == 0 || elapsed_ms == 0 {
        0
    } else {
        let e = (total - current) * elapsed_ms / current;
        if e > u64::MAX {
            u64::MAX as int
        } else {
            e
        }
    }
}

/// Estimates remaining time from progress so far.
pub fn estimate_eta(current: usize, total: usize, elapsed_ms: u64) -> (r: u64)
    requires
        current <= total,
    ensures
        r == estimate_eta_spec(current as int, total as int, elapsed_ms as int),
{
    if current == 0 || elapsed_ms == 0 {
        return 0;
    }
    let remaining: u128 = (total - current) as u128;
    proof {
        assert(remaining <= u64::MAX);
        assert(remaining * (elapsed_ms as u128) <= u64::MAX * (u64::MAX as u128)) by (nonlinear_arith)
            requires
                remaining <= u64::MAX,
                elapsed_ms <= u64::MAX,
        ;
    }
    let num: u128 = remaining * (elapsed_ms as u128);
    let q: u128 = num / (current as u128);
    if q > u64::MAX as u128 {
        u64::MAX
    } else {
        q as u64
    }
}

/// A duration rendered for people: seconds below a minute, minutes and
/// seconds below an hour, else hours and minutes.
pub open spec fn format_duration_spec(secs: nat) -> Seq<char> {
    if secs < 60 {
        dec_str(secs) + seq!['s']
    } else if secs < 3600 {
        dec_str(secs / 60) + seq!['m'] + dec_str(secs % 60) + seq!['s']
    } else {
        dec_str(secs / 3600) + seq!['h'] + dec_str((secs % 3600) / 60) + seq!['m']
    }
}

/// Formats a duration given in seconds.
pub fn format_duration(secs: u64) -> (r: String)
    ensures
        r@ == format_duration_spec(secs as nat),
{
    if secs < 60 {
        let mut v = u64_to_chars(secs);
        v.push('s');
        proof {
            assert(v@ =~= format_duration_spec(secs as nat));
        }
        string_from_chars(&v)
    } else if secs < 3600 {
        let mut v = u64_to_chars(secs / 60);
        v.push('m');
        let rest = u64_to_chars(secs % 60);
        v.extend_from_slice(rest.as_slice());
        v.push('s');
        proof {
            assert(v@ =~= format_duration_spec(secs as nat));
        }
        string_from_chars(&v)
    } else {
        let mut v = u64_to_chars(secs / 3600);
        v.push('h');
        let rest = u64_to_chars((secs % 3600) / 60);
        v.extend_from_slice(rest.as_slice());
        v.push('m');
        proof {
            assert(v@ =~= format_duration_spec(secs as nat));
        }
        string_from_chars(&v)
    }
}

/// A title cut to at most `max_len` characters, the last three replaced by
/// an ellipsis when it was longer.
pub open spec fn truncate_title_spec(t: Seq<char>, max_len: int) -> Seq<char> {
    if t.len() <= max_len {
        t
    } else {
        t.take(max_len - 3) + "..."@
    }
}

/// Truncates a title for display.
pub fn truncate_title(title: &str, max_len: usize) -> (r: String)
    requires
        max_len >= 3,
    ensures
        r@ == truncate_title_spec(title@, max_len as int),
{
    let v = chars_of(title);
    if v.len() <= max_len {
        string_from_chars(&v)
    } else {
        let mut head = crate::text::slice_chars(&v, 0, max_len - 3);
        let dots = chars_of("...");
        head.extend_from_slice(dots.as_slice());
        proof {
            assert(v@.subrange(0, max_len - 3) =~= v@.take(max_len - 3));
            assert(head@ =~= truncate_title_spec(title@, max_len as int));
        }
        string_from_chars(&head)
    }
}

/// The per-book progress line: the truncated title in quotes, the elapsed
/// time and the estimated remainder.
pub open spec fn progress_message_spec(title: Seq<char>, elapsed_ms: nat, eta_ms: nat) -> Seq<
    char,
> {
    seq!['"'] + truncate_title_spec(title, 40) + "\" ("@ + format_duration_spec(elapsed_ms / 1000)
        + " elapsed, ~"@ + format_duration_spec(eta_ms / 1000) + " remaining)"@
}

/// Builds the progress line shown after one enriched or embedded book.
pub fn progress_message(title: &str, elapsed_ms: u64, eta_ms: u64) -> (r: String)
    ensures
        r@ == progress_message_spec(title@, elapsed_ms as nat, eta_ms as nat),
{
    let mut v: Vec<char> = Vec::new();
    v.push('"');
    let t = truncate_title(title, 40);
    let tc = chars_of(t.as_str());
    v.extend_from_slice(tc.as_slice());
    let mid = chars_of("\" (");
    v.extend_from_slice(mid.as_slice());
    let el = format_duration(elapsed_ms / 1000);
    let elc = chars_of(el.as_str());
    v.extend_from_slice(elc.as_slice());
    let mid2 = chars_of(" elapsed, ~");
    v.extend_from_slice(mid2.as_slice());
    let et = format_duration(eta_ms / 1000);
    let etc = chars_of(et.as_str());
    v.extend_from_slice(etc.as_slice());
    let tail = chars_of(" remaining)");
    v.extend_from_slice(tail.as_slice());
    proof {
        assert(v@ =~= progress_message_spec(title@, elapsed_ms as nat, eta_ms as nat));
    }
    string_from_chars(&v)
}

/// "Reading <name>...": announced before an import file is parsed.
pub fn reading_message(filename: &str) -> (r: String)
    ensures
        r@ == "Reading "@ + filename@ + "..."@,
{
    let mut v = chars_of("Reading ");
    let f = chars_of(filename);
    v.extend_from_slice(f.as_slice());
    let tail = chars_of("...");
    v.extend_from_slice(tail.as_slice());
    proof {
        assert(v@ =~= "Reading "@ + filename@ + "..."@);
    }
    string_from_chars(&v)
}

/// "Found <n> books": announced after an import file is parsed.
pub fn found_message(n: usize) -> (r: String)
    ensures
        r@ == "Found "@ + dec_str(n as nat) + " books"@,
{
    let mut v = chars_of("Found ");
    let num = u64_to_chars(n as u64);
    v.extend_from_slice(num.as_slice());
    let tail = chars_of(" books");
    v.extend_from_slice(tail.as_slice());
    proof {
        assert(v@ =~= "Found "@ + dec_str(n as nat) + " books"@);
    }
    string_from_chars(&v)
}

/// "Imported <n> new books": announced after new rows were inserted.
pub fn imported_message(n: usize) -> (r: String)
    ensures
        r@ == "Imported "@ + dec_str(n as nat) + " new books"@,
{
    let mut v = chars_of("Imported ");
    let num = u64_to_chars(n as u64);
    v.extend_from_slice(num.as_slice());
    let tail = chars_of(" new books");
    v.extend_from_slice(tail.as_slice());
    proof {
        assert(v@ =~= "Imported "@ + dec_str(n as nat) + " new books"@);
    }
    string_from_chars(&v)
}

/// "Enriching <n> books...": announced before the enrich loop.
pub fn enriching_message(n: usize) -> (r: String)
    ensures
        r@ == "Enriching "@ + dec_str(n as nat) + " books..."@,
{
    let mut v = chars_of("Enriching ");
    let num = u64_to_chars(n as u64);
    v.extend_from_slice(num.as_slice());
    let tail = chars_of(" books...");
    v.extend_from_slice(tail.as_slice());
    proof {
        assert(v@ =~= "Enriching "@ + dec_str(n as nat) + " books..."@);
    }
    string_from_chars(&v)
}

/// "Enriched <e>/<t> with descriptions": announced after the enrich loop.
pub fn enriched_message(enriched: usize, total: usize) -> (r: String)
    ensures
        r@ == "Enriched "@ + dec_str(enriched as nat) + "/"@ + dec_str(total as nat)
            + " with descriptions"@,
{
    let mut v = chars_of("Enriched ");
    let e = u64_to_chars(enriched as u64);
    v.extend_from_slice(e.as_slice());
    v.push('/');
    let t = u64_to_chars(total as u64);
    v.extend_from_slice(t.as_slice());
    let tail = chars_of(" with descriptions");
    v.extend_from_slice(tail.as_slice());
    proof {
        assert(seq!['/'] =~= "/"@) by {
            reveal_strlit("/");
        }
        assert(v@ =~= "Enriched "@ + dec_str(enriched as nat) + "/"@ + dec_str(total as nat)
            + " with descriptions"@);
    }
    string_from_chars(&v)
}

/// "Generating embeddings for <n> books...": announced before the embed
/// loop.
pub fn generating_message(n: usize) -> (r: String)
    ensures
        r@ == "Generating embeddings for "@ + dec_str(n as nat) + " books..."@,
{
    let mut v = chars_of("Generating embeddings for ");
    let num = u64_to_chars(n as u64);
    v.extend_from_slice(num.as_slice());
    let tail = chars_of(" books...");
    v.extend_from_slice(tail.as_slice());
    proof {
        assert(v@ =~= "Generating embeddings for "@ + dec_str(n as nat) + " books..."@);
    }
    string_from_chars(&v)
}

/// "Generated <n> embeddings": announced after the embed loop.
pub fn generated_message(n: usize) -> (r: String)
    ensures
        r@ == "Generated "@ + dec_str(n as nat) + " embeddings"@,
{
    let mut v = chars_of("Generated ");
    let num = u64_to_chars(n as u64);
    v.extend_from_slice(num.as_slice());
    let tail = chars_of(" embeddings");
    v.extend_from_slice(tail.as_slice());
    proof {
        assert(v@ =~= "Generated "@ + dec_str(n as nat) + " embeddings"@);
    }
    string_from_chars(&v)
}

/// The terminal summary, emitted even when every stage was skipped.
pub fn complete_message(stats: &SyncStats) -> (r: String)
    ensures
        r@ == "Sync complete: "@ + dec_str(stats.imported as nat) + " imported, "@ + dec_str(
            stats.enriched as nat,
        ) + " enriched, "@ + dec_str(stats.embedded as nat) + " embedded"@,
{
    let mut v = chars_of("Sync complete: ");
    let a = u64_to_chars(stats.imported as u64);
    v.extend_from_slice(a.as_slice());
    let m1 = chars_of(" imported, ");
    v.extend_from_slice(m1.as_slice());
    let b = u64_to_chars(stats.enriched as u64);
    v.extend_from_slice(b.as_slice());
    let m2 = chars_of(" enriched, ");
    v.extend_from_slice(m2.as_slice());
    let c = u64_to_chars(stats.embedded as u64);
    v.extend_from_slice(c.as_slice());
    let tail = chars_of(" embedded");
    v.extend_from_slice(tail.as_slice());
    proof {
        assert(v@ =~= "Sync complete: "@ + dec_str(stats.imported as nat) + " imported, "@
            + dec_str(stats.enriched as nat) + " enriched, "@ + dec_str(stats.embedded as nat)
            + " embedded"@);
    }
    string_from_chars(&v)
}

/// Assembles one progress event.
pub fn progress_event(stage: &str, message: String, current: Option<usize>, total: Option<
    usize,
>) -> (r: SyncProgress)
    ensures
        r@ == (SyncProgressView { stage: stage@, message: message@, current, total }),
{
    SyncProgress { stage: stage.to_owned(), message, current, total }
}

/// The import stage on already-parsed records: inserts them (ignoring item
/// ids already present), rebuilds the lexical index only when at least one
/// new row was inserted, and reports what happened. Returns the count of
/// newly inserted rows and the events to emit, in order.
pub fn sync_import(db: &mut Database, books: &Vec<ImportedBook>) -> (r: Result<(
    usize,
    Vec<SyncProgress>,
)>)
    requires
        old(db).wf(),
    ensures
        final(db).wf(),
        final(db)@.books == import_fold(
            old(db)@.books,
            books@.map_values(|b: ImportedBook| b@),
        ),
        final(db)@.meta == old(db)@.meta,
        final(db)@.vecs == old(db)@.vecs,
        match r {
            Ok((imported, events)) => {
                let found = SyncProgressView {
                    stage: "import"@,
                    message: "Found "@ + dec_str(books@.len() as nat) + " books"@,
                    current: None,
                    total: None,
                };
                &&& imported == final(db)@.books.len() - old(db)@.books.len()
                &&& if books@.len() == 0 {
                    final(db)@.fts == old(db)@.fts && events@.map_values(|e: SyncProgress| e@)
                        == seq![found]
                } else if imported > 0 {
                    final(db)@.fts == crate::catalog::fts_docs_spec(
                        final(db)@.books,
                        final(db)@.meta,
                    ) && events@.map_values(|e: SyncProgress| e@) == seq![
                        found,
                        SyncProgressView {
                            stage: "import"@,
                            message: "Imported "@ + dec_str(imported as nat) + " new books"@,
                            current: None,
                            total: None,
                        },
                    ]
                } else {
                    final(db)@.fts == old(db)@.fts && events@.map_values(|e: SyncProgress| e@)
                        == seq![
                        found,
                        SyncProgressView {
                            stage: "import"@,
                            message: "No new books to import"@,
                            current: None,
                            total: None,
                        },
                    ]
                }
            },
            Err(_) => false,
        },
{
    let mut events: Vec<SyncProgress> = Vec::new();
    let found = progress_event("import", found_message(books.len()), None, None);
    events.push(found);
    if books.len() == 0 {
        proof {
            assert(books@.map_values(|b: ImportedBook| b@) =~= Seq::<
                crate::types::ImportedBookView,
            >::empty());
            assert(events@.map_values(|e: SyncProgress| e@) =~= seq![
                SyncProgressView {
                    stage: "import"@,
                    message: "Found "@ + dec_str(books@.len() as nat) + " books"@,
                    current: None,
                    total: None,
                },
            ]);
            assert(import_fold(
                old(db)@.books,
                books@.map_values(|b: ImportedBook| b@),
            ) == old(db)@.books);
            assert(db@.books == old(db)@.books);
        }
        return Ok((0, events));
    }
    let imported = match db.import_books(books) {
        Ok(n) => n,
        Err(e) => {
            return Err(e);
        },
    };
    if imported > 0 {
        match db.rebuild_fts() {
            Ok(_) => {},
            Err(e) => {
                return Err(e);
            },
        }
        let ghost pre = events@.map_values(|e: SyncProgress| e@);
        events.push(progress_event("import", imported_message(imported), None, None));
        proof {
            assert(events@.map_values(|e: SyncProgress| e@) =~= seq![
                SyncProgressView {
                    stage: "import"@,
                    message: "Found "@ + dec_str(books@.len() as nat) + " books"@,
                    current: None,
                    total: None,
                },
                SyncProgressView {
                    stage: "import"@,
                    message: "Imported "@ + dec_str(imported as nat) + " new books"@,
                    current: None,
                    total: None,
                },
            ]);
        }
        Ok((imported, events))
    } else {
        let ghost pre = events@.map_values(|e: SyncProgress| e@);
        events.push(
            progress_event("import", String::from_str("No new books to import"), None, None),
        );
        proof {
            assert(events@.map_values(|e: SyncProgress| e@) =~= seq![
                SyncProgressView {
                    stage: "import"@,
                    message: "Found "@ + dec_str(books@.len() as nat) + " books"@,
                    current: None,
                    total: None,
                },
                SyncProgressView {
                    stage: "import"@,
                    message: "No new books to import"@,
                    current: None,
                    total: None,
                },
            ]);
        }
        Ok((imported, events))
    }
}

/// The enrich stage's step for one book: persists what the catalog
/// returned, or the "attempted, nothing found" tombstone on no match, so
/// the book is never queried again. Returns whether the book now counts as
/// enriched with a description.
pub fn apply_enrichment(db: &mut Database, asin: &str, found: Option<&EnrichmentData>) -> (r:
    Result<bool>)
    requires
        old(db).wf(),
    ensures
        final(db).wf(),
        final(db)@.books == old(db)@.books,
        final(db)@.vecs == old(db)@.vecs,
        final(db)@.fts == old(db)@.fts,
        match r {
            Ok(counted) => match found {
                Some(d) => final(db)@.meta == upsert_meta(old(db)@.meta, asin@, d@) && counted
                    == (d@.description.len() > 0),
                None => final(db)@.meta == upsert_meta(
                    old(db)@.meta,
                    asin@,
                    crate::types::EnrichmentDataView {
                        openlibrary_key: Seq::empty(),
                        description: Seq::empty(),
                        subjects: Seq::empty(),
                        isbn: None,
                        publish_year: None,
                    },
                ) && counted == false,
            },
            Err(_) => false,
        },
{
    match found {
        Some(d) => {
            let counted = d.description.unicode_len() > 0;
            match db.save_metadata(asin, d) {
                Ok(_) => Ok(counted),
                Err(e) => Err(e),
            }
        },
        None => {
            let tomb = empty_enrichment();
            proof {
                assert(tomb@ =~= (crate::types::EnrichmentDataView {
                    openlibrary_key: Seq::<char>::empty(),
                    description: Seq::<char>::empty(),
                    subjects: Seq::<Seq<char>>::empty(),
                    isbn: None,
                    publish_year: None,
                }));
            }
            match db.save_metadata(asin, &tomb) {
                Ok(_) => Ok(false),
                Err(e) => Err(e),
            }
        },
    }
}

} // verus!
