//! The metadata enrichment client's decision logic.
//!
//! The client queries an external bibliographic catalog by normalized title
//! and author. Everything that can be decided without the network lives
//! here: title and author normalization, the queries to attempt and their
//! URLs, the rate-limit backoff state machine, and the assembly of an
//! enrichment record from a search document. The caller performs the HTTP
//! requests and feeds each outcome back into [`backoff_step`].

use vstd::prelude::*;

use crate::text::{
    chars_of, is_ws, is_ws_char, string_from_chars, trim_chars, trim_spec, views,
};
use crate::types::EnrichmentData;

verus! {

/// The fixed courtesy delay between independent catalog requests, in
/// milliseconds.
pub const ENRICH_REQUEST_DELAY_MS: u64 = 250;

/// How many attempts the backoff loop makes before giving up.
pub const MAX_FETCH_ATTEMPTS: u8 = 5;

/// The length of the whitespace run starting at `i`.
pub open spec fn ws_run_len(s: Seq<char>, i: int) -> nat
    decreases s.len() - i,
{
    if 0 <= i && i < s.len() && is_ws(s[i]) {
        1 + ws_run_len(s, i + 1)
    } else {
        0
    }
}

/// A whitespace run stays inside the text.
pub proof fn lemma_ws_run_bound(s: Seq<char>, i: int)
    requires
        0 <= i <= s.len(),
    ensures
        i + ws_run_len(s, i) <= s.len(),
    decreases s.len() - i,
{
    if i < s.len() && is_ws(s[i]) {
        lemma_ws_run_bound(s, i + 1);
    }
}

/// The position of the first closing parenthesis at or after `i`, if any.
pub open spec fn first_close(s: Seq<char>, i: int) -> Option<int>
    decreases s.len() - i,
{
    if i < 0 || i >= s.len() {
        None
    } else if s[i] == ')' {
        Some(i)
    } else {
        first_close(s, i + 1)
    }
}

/// A found closing parenthesis lies at or after the start, inside the text.
pub proof fn lemma_first_close_bounds(s: Seq<char>, i: int)
    ensures
        match first_close(s, i) {
            Some(k) => i <= k < s.len() && s[k] == ')',
            None => true,
        },
    decreases s.len() - i,
{
    if 0 <= i && i < s.len() && s[i] != ')' {
        lemma_first_close_bounds(s, i + 1);
    }
}

/// The text from `i` on with every parenthetical group removed, appended
/// to `acc`. A group is optional whitespace, an opening parenthesis, any
/// characters short of a closing parenthesis, and the closing parenthesis;
/// an unclosed opening parenthesis is kept.
pub open spec fn strip_parens_from(s: Seq<char>, i: int, acc: Seq<char>) -> Seq<char>
    decreases s.len() - i,
    via strip_parens_via
{
    if i < 0 || i >= s.len() {
        acc
    } else {
        let w = ws_run_len(s, i) as int;
        if i + w < s.len() && s[i + w] == '(' {
            match first_close(s, i + w + 1) {
                Some(k) => strip_parens_from(s, k + 1, acc),
                None => strip_parens_from(s, i + 1, acc.push(s[i])),
            }
        } else {
            strip_parens_from(s, i + 1, acc.push(s[i]))
        }
    }
}

#[via_fn]
proof fn strip_parens_via(s: Seq<char>, i: int, acc: Seq<char>) {
    if 0 <= i && i < s.len() {
        lemma_first_close_bounds(s, i + ws_run_len(s, i) + 1);
    }
}

/// The text with every parenthetical group removed.
pub open spec fn strip_parens(s: Seq<char>) -> Seq<char> {
    strip_parens_from(s, 0, Seq::empty())
}

/// The text up to (and not including) its first colon.
pub open spec fn cut_at_colon(s: Seq<char>) -> Seq<char>
    decreases s.len(),
{
    if s.len() == 0 {
        Seq::empty()
    } else if s[0] == ':' {
        Seq::empty()
    } else {
        seq![s[0]] + cut_at_colon(s.drop_first())
    }
}

/// A title normalized for catalog search: parenthetical series annotations
/// removed, any colon subtitle cut off, surrounding whitespace trimmed.
pub open spec fn normalize_title_spec(t: Seq<char>) -> Seq<char> {
    trim_spec(cut_at_colon(strip_parens(t)))
}

/// The length of the whitespace run starting at `i`.
fn ws_run(v: &Vec<char>, i: usize) -> (r: usize)
    requires
        i <= v@.len(),
    ensures
        r == ws_run_len(v@, i as int),
        i + r <= v@.len(),
{
    let mut j: usize = i;
    while j < v.len() && is_ws_char(v[j])
        invariant
            i <= j <= v@.len(),
            ws_run_len(v@, i as int) == (j - i) + ws_run_len(v@, j as int),
        decreases v@.len() - j,
    {
        j = j + 1;
    }
    j - i
}

/// The position of the first closing parenthesis at or after `i`, if any.
fn close_from(v: &Vec<char>, i: usize) -> (r: Option<usize>)
    ensures
        match r {
            Some(k) => first_close(v@, i as int) == Some(k as int) && i <= k < v@.len(),
            None => first_close(v@, i as int) is None,
        },
{
    let mut j: usize = i;
    while j < v.len()
        invariant
            i <= j,
            first_close(v@, i as int) == first_close(v@, j as int),
        decreases v@.len() - j,
    {
        if v[j] == ')' {
            return Some(j);
        }
        j = j + 1;
    }
    None
}

/// Normalizes a title for catalog search: removes parenthetical series
/// annotations, cuts any colon subtitle, and trims whitespace.
pub fn normalize_title(title: &str) -> (r: String)
    ensures
        r@ == normalize_title_spec(title@),
{
    let v = chars_of(title);
    let mut acc: Vec<char> = Vec::new();
    let mut i: usize = 0;
    while i < v.len()
        invariant
            i <= v@.len(),
            strip_parens(v@) == strip_parens_from(v@, i as int, acc@),
        decreases v@.len() - i,
    {
        let w = ws_run(&v, i);
        let mut consumed = false;
        if i + w < v.len() && v[i + w] == '(' {
            match close_from(&v, i + w + 1) {
                Some(k) => {
                    proof {
                        assert(strip_parens_from(v@, i as int, acc@) == strip_parens_from(
                            v@,
                            k + 1 as int,
                            acc@,
                        ));
                    }
                    i = k + 1;
                    consumed = true;
                },
                None => {},
            }
        }
        if !consumed {
            proof {
                assert(strip_parens_from(v@, i as int, acc@) == strip_parens_from(
                    v@,
                    i + 1 as int,
                    acc@.push(v@[i as int]),
                ));
            }
            acc.push(v[i]);
            i = i + 1;
        }
    }
    let stripped = acc;
    let ghost sv = strip_parens(v@);
    proof {
        assert(stripped@ == sv);
    }
    let mut cut: Vec<char> = Vec::new();
    let mut j: usize = 0;
    proof {
        assert(sv.skip(0) =~= sv);
        assert(cut_at_colon(sv) == cut@ + cut_at_colon(sv.skip(0)));
    }
    while j < stripped.len() && stripped[j] != ':'
        invariant
            j <= sv.len(),
            stripped@ == sv,
            sv.len() == stripped@.len(),
            cut@.len() == j,
            cut_at_colon(sv) == cut@ + cut_at_colon(sv.skip(j as int)),
        decreases sv.len() - j,
    {
        proof {
            assert(sv.skip(j as int)[0] == sv[j as int]);
            assert(sv.skip(j as int).drop_first() =~= sv.skip(j + 1 as int));
            assert(cut@ + (seq![sv[j as int]] + cut_at_colon(sv.skip(j + 1 as int))) =~= cut@.push(
                sv[j as int],
            ) + cut_at_colon(sv.skip(j + 1 as int)));
        }
        cut.push(stripped[j]);
        j = j + 1;
    }
    proof {
        if j < sv.len() {
            assert(sv.skip(j as int)[0] == sv[j as int]);
            assert(cut_at_colon(sv.skip(j as int)) =~= Seq::<char>::empty());
        } else {
            assert(sv.skip(j as int) =~= Seq::<char>::empty());
        }
        assert(cut_at_colon(sv) =~= cut@);
    }
    let trimmed = trim_chars(&cut);
    string_from_chars(&trimmed)
}

/// The position of the first comma, if any.
pub open spec fn first_comma(s: Seq<char>, i: int) -> Option<int>
    decreases s.len() - i,
{
    if i < 0 || i >= s.len() {
        None
    } else if s[i] == ',' {
        Some(i)
    } else {
        first_comma(s, i + 1)
    }
}

/// An author name normalized for catalog search: "Last, First" becomes
/// "First Last" (split at the first comma, both parts trimmed); a name
/// without a comma is trimmed as it is.
pub open spec fn normalize_author_spec(a: Seq<char>) -> Seq<char> {
    match first_comma(a, 0) {
        Some(ix) => trim_spec(a.skip(ix + 1)) + seq![' '] + trim_spec(a.take(ix)),
        None => trim_spec(a),
    }
}

/// Normalizes an author name: converts "Last, First" to "First Last".
pub fn normalize_author(author: &str) -> (r: String)
    ensures
        r@ == normalize_author_spec(author@),
{
    let v = chars_of(author);
    let mut ix: usize = 0;
    let mut found = false;
    while ix < v.len() && !found
        invariant
            ix <= v@.len(),
            !found ==> first_comma(v@, 0) == first_comma(v@, ix as int),
            found ==> ix < v@.len() && first_comma(v@, 0) == Some(ix as int),
        decreases v@.len() - ix + (if found {
            0int
        } else {
            1int
        }),
    {
        proof {
            assert(v@.skip(ix as int)[0] == v@[ix as int]);
        }
        if v[ix] == ',' {
            found = true;
        } else {
            ix = ix + 1;
        }
    }
    if found {
        let left = crate::text::slice_chars(&v, 0, ix);
        let right = crate::text::slice_chars(&v, ix + 1, v.len());
        let lt = trim_chars(&left);
        let rt = trim_chars(&right);
        let mut out = rt;
        out.push(' ');
        out.extend_from_slice(lt.as_slice());
        proof {
            assert(v@.subrange(0, ix as int) =~= v@.take(ix as int));
            assert(v@.subrange(ix + 1 as int, v@.len() as int) =~= v@.skip(ix + 1 as int));
            assert(out@ =~= trim_spec(v@.skip(ix + 1 as int)) + seq![' '] + trim_spec(
                v@.take(ix as int),
            ));
        }
        string_from_chars(&out)
    } else {
        let t = trim_chars(&v);
        string_from_chars(&t)
    }
}

/// The search attempts for one book, in order: first by normalized title
/// and normalized primary author (when there is an author), then by title
/// alone.
pub open spec fn search_attempts_spec(title: Seq<char>, authors: Seq<Seq<char>>) -> Seq<
    (Seq<char>, Option<Seq<char>>),
> {
    let t = normalize_title_spec(title);
    if authors.len() > 0 {
        seq![(t, Some(normalize_author_spec(authors[0]))), (t, None)]
    } else {
        seq![(t, None)]
    }
}

/// The queries to attempt for one book, in order. The caller tries each in
/// turn and keeps the first match.
pub fn search_attempts(title: &str, authors: &Vec<String>) -> (r: Vec<(String, Option<String>)>)
    ensures
        r@.map_values(|q: (String, Option<String>)| (q.0@, crate::types::view_opt(q.1)))
            == search_attempts_spec(title@, views(authors@)),
{
    let t = normalize_title(title);
    let mut out: Vec<(String, Option<String>)> = Vec::new();
    if authors.len() > 0 {
        let a = normalize_author(authors[0].as_str());
        out.push((t.clone(), Some(a)));
        out.push((t, None));
        proof {
            assert(views(authors@)[0] == authors@[0]@);
            assert(out@.map_values(|q: (String, Option<String>)| (q.0@, crate::types::view_opt(q.1)))
                =~= search_attempts_spec(title@, views(authors@)));
        }
    } else {
        out.push((t, None));
        proof {
            assert(out@.map_values(|q: (String, Option<String>)| (q.0@, crate::types::view_opt(q.1)))
                =~= search_attempts_spec(title@, views(authors@)));
        }
    }
    out
}

/// An unreserved byte passes through percent-encoding unchanged:
/// alphanumerics and `-`, `.`, `_`, `~`.
pub open spec fn url_unreserved(b: u8) -> bool {
    (48 <= b && b <= 57) || (65 <= b && b <= 90) || (97 <= b && b <= 122) || b == 45 || b == 46
        || b == 95 || b == 126
}

/// The upper-case hexadecimal digit for a nibble.
pub open spec fn hex_upper(d: u8) -> char {
    if d < 10 {
        ((48 + d) as u8) as char
    } else {
        ((55 + d) as u8) as char
    }
}

/// Percent-encoding of a byte string: unreserved bytes pass through, every
/// other byte becomes a percent sign and two upper-case hex digits.
pub open spec fn percent_encode(bytes: Seq<u8>) -> Seq<char>
    decreases bytes.len(),
{
    if bytes.len() == 0 {
        Seq::empty()
    } else {
        let b = bytes[0];
        let head = if url_unreserved(b) {
            seq![b as char]
        } else {
            seq!['%', hex_upper(b / 16), hex_upper(b % 16)]
        };
        head + percent_encode(bytes.drop_first())
    }
}

/// Relies on urlencoding::encode: percent-encodes every byte of the UTF-8
/// encoding except alphanumerics and `-`, `.`, `_`, `~`, with upper-case
/// hex digits.
#[verifier::external_body]
fn url_encode(s: &str) -> (r: String)
    ensures
        r@ == percent_encode(vstd::utf8::encode_utf8(s@)),
{
    urlencoding::encode(s).into_owned()
}

/// The catalog search URL for a normalized title and optional author.
pub open spec fn search_url_spec(title: Seq<char>, author: Option<Seq<char>>) -> Seq<char> {
    let base = "https://openlibrary.org/search.json?title="@ + percent_encode(
        vstd::utf8::encode_utf8(title),
    ) + "&limit=5&fields=key,title,author_name,subject,isbn,first_publish_year"@;
    match author {
        Some(a) => base + "&author="@ + percent_encode(vstd::utf8::encode_utf8(a)),
        None => base,
    }
}

/// Builds the catalog search URL for one attempt.
pub fn search_url(title: &str, author: Option<&str>) -> (r: String)
    ensures
        r@ == search_url_spec(title@, crate::query::view_opt_str(author)),
{
    let mut url = chars_of("https://openlibrary.org/search.json?title=");
    let et = url_encode(title);
    let etc = chars_of(et.as_str());
    url.extend_from_slice(etc.as_slice());
    let fields = chars_of("&limit=5&fields=key,title,author_name,subject,isbn,first_publish_year");
    url.extend_from_slice(fields.as_slice());
    match author {
        Some(a) => {
            let amp = chars_of("&author=");
            url.extend_from_slice(amp.as_slice());
            let ea = url_encode(a);
            let eac = chars_of(ea.as_str());
            url.extend_from_slice(eac.as_slice());
            proof {
                assert(url@ =~= search_url_spec(title@, crate::query::view_opt_str(author)));
            }
        },
        None => {
            proof {
                assert(url@ =~= search_url_spec(title@, crate::query::view_opt_str(author)));
            }
        },
    }
    string_from_chars(&url)
}

/// The catalog URL of a work's own record.
pub open spec fn work_url_spec(key: Seq<char>) -> Seq<char> {
    "https://openlibrary.org"@ + key + ".json"@
}

/// Builds the catalog URL for fetching one work's description.
pub fn work_url(key: &str) -> (r: String)
    ensures
        r@ == work_url_spec(key@),
{
    let mut url = chars_of("https://openlibrary.org");
    let kc = chars_of(key);
    url.extend_from_slice(kc.as_slice());
    let tail = chars_of(".json");
    url.extend_from_slice(tail.as_slice());
    proof {
        assert(url@ =~= work_url_spec(key@));
    }
    string_from_chars(&url)
}

/// One catalog search document, as plain values: the work key, the subject
/// tags, the ISBN list and the first publish year.
#[derive(Debug, Clone)]
pub struct SearchDoc {
    pub key: String,
    pub subjects: Vec<String>,
    pub isbns: Vec<String>,
    pub publish_year: Option<i32>,
}

/// The enrichment record assembled from one search document and a
/// separately fetched description: at most twenty subjects are kept, the
/// first listed ISBN is used, and the publish year carries over.
pub fn enrichment_from_doc(doc: &SearchDoc, description: String) -> (r: EnrichmentData)
    ensures
        r@.openlibrary_key == doc.key@,
        r@.description == description@,
        r@.subjects == if views(doc.subjects@).len() <= 20 {
            views(doc.subjects@)
        } else {
            views(doc.subjects@).take(20)
        },
        r@.isbn == if doc.isbns@.len() > 0 {
            Some(doc.isbns@[0]@)
        } else {
            None::<Seq<char>>
        },
        r@.publish_year == doc.publish_year,
{
    let mut subjects: Vec<String> = Vec::new();
    let mut i: usize = 0;
    let limit = if doc.subjects.len() < 20 {
        doc.subjects.len()
    } else {
        20
    };
    while i < limit
        invariant
            i <= limit,
            limit <= doc.subjects@.len(),
            views(subjects@) == views(doc.subjects@).take(i as int),
        decreases limit - i,
    {
        let ghost prev = views(subjects@);
        subjects.push(doc.subjects[i].clone());
        proof {
            assert(views(subjects@) =~= prev.push(doc.subjects@[i as int]@));
            assert(views(doc.subjects@).take(i + 1 as int) =~= views(doc.subjects@).take(
                i as int,
            ).push(doc.subjects@[i as int]@));
        }
        i = i + 1;
    }
    proof {
        if doc.subjects@.len() <= 20 {
            assert(views(doc.subjects@).take(limit as int) =~= views(doc.subjects@));
        }
    }
    let isbn = if doc.isbns.len() > 0 {
        Some(doc.isbns[0].clone())
    } else {
        None
    };
    EnrichmentData {
        openlibrary_key: doc.key.clone(),
        description,
        subjects,
        isbn,
        publish_year: crate::types::clone_opt_i32(&doc.publish_year),
    }
}

/// The tombstone record saved when a book's search found nothing: empty
/// key, description and subjects, no ISBN, no year. Its existence marks
/// "enrichment attempted".
pub fn empty_enrichment() -> (r: EnrichmentData)
    ensures
        r@.openlibrary_key == Seq::<char>::empty(),
        r@.description == Seq::<char>::empty(),
        r@.subjects == Seq::<Seq<char>>::empty(),
        r@.isbn is None,
        r@.publish_year is None,
{
    let r = EnrichmentData {
        openlibrary_key: String::new(),
        description: String::new(),
        subjects: Vec::new(),
        isbn: None,
        publish_year: None,
    };
    proof {
        assert(views(r.subjects@) =~= Seq::<Seq<char>>::empty());
    }
    r
}

/// The backoff state of one fetch: how many requests were made and the
/// delay to wait before the next retry when no Retry-After header says
/// otherwise.
#[derive(Debug, Clone, Copy, PartialEq, Eq, Structural)]
pub struct Backoff {
    pub attempt: u8,
    pub delay_ms: u64,
}

/// The outcome of one HTTP request, as the caller observed it.
#[derive(Debug, Clone, Copy, PartialEq, Eq, Structural)]
pub enum FetchEvent {
    /// A success status: the response body is usable.
    Success,
    /// Status 429, with the Retry-After header in seconds when it was
    /// present and parsed.
    RateLimited(Option<u64>),
    /// Any other non-success status.
    HttpFailure,
    /// A transport-level failure.
    TransportError,
}

/// What the caller must do next.
#[derive(Debug, Clone, Copy, PartialEq, Eq, Structural)]
pub enum FetchStep {
    /// Use the response.
    Deliver,
    /// Treat the book as having no match; not an error.
    NoMatch,
    /// Sleep this many milliseconds, then send the request again.
    Retry(u64),
    /// Propagate a network error.
    Abort,
}

/// Doubling a delay saturates instead of overflowing.
pub open spec fn sat_double(d: u64) -> u64 {
    if d <= u64::MAX / 2 {
        (2 * d) as u64
    } else {
        u64::MAX
    }
}

/// Seconds to milliseconds, saturating.
pub open spec fn sat_secs_to_ms(s: u64) -> u64 {
    if s <= u64::MAX / 1000 {
        (1000 * s) as u64
    } else {
        u64::MAX
    }
}

/// One transition of the backoff machine: what the state becomes and what
/// the caller does after one request's outcome. A success is delivered; a
/// non-success status other than 429 is "no match", never an error; a 429
/// waits the Retry-After duration when given, else the current delay, and
/// doubles the delay for next time; a transport failure retries after the
/// current delay. After the fifth attempt a 429 gives up as "no match" and
/// a transport failure propagates the error.
pub open spec fn backoff_step_spec(st: Backoff, ev: FetchEvent) -> (Backoff, FetchStep) {
    match ev {
        FetchEvent::Success => (st, FetchStep::Deliver),
        FetchEvent::HttpFailure => (st, FetchStep::NoMatch),
        FetchEvent::RateLimited(ra) => {
            let d = match ra {
                Some(secs) => sat_secs_to_ms(secs),
                None => st.delay_ms,
            };
            let st2 = Backoff { attempt: (st.attempt + 1) as u8, delay_ms: sat_double(d) };
            if st.attempt + 1 >= MAX_FETCH_ATTEMPTS {
                (st2, FetchStep::NoMatch)
            } else {
                (st2, FetchStep::Retry(d))
            }
        },
        FetchEvent::TransportError => {
            let st2 = Backoff {
                attempt: (st.attempt + 1) as u8,
                delay_ms: sat_double(st.delay_ms),
            };
            if st.attempt + 1 >= MAX_FETCH_ATTEMPTS {
                (st2, FetchStep::Abort)
            } else {
                (st2, FetchStep::Retry(st.delay_ms))
            }
        },
    }
}

impl Backoff {
    /// The state before the first request: no attempts made, a one-second
    /// base delay.
    pub fn new() -> (r: Backoff)
        ensures
            r.attempt == 0,
            r.delay_ms == 1000,
    {
        Backoff { attempt: 0, delay_ms: 1000 }
    }
}

/// Feeds one request outcome into the backoff machine.
pub fn backoff_step(st: &mut Backoff, ev: FetchEvent) -> (r: FetchStep)
    requires
        old(st).attempt < MAX_FETCH_ATTEMPTS,
    ensures
        *final(st) == backoff_step_spec(*old(st), ev).0,
        r == backoff_step_spec(*old(st), ev).1,
        final(st).attempt <= MAX_FETCH_ATTEMPTS,
{
    match ev {
        FetchEvent::Success => FetchStep::Deliver,
        FetchEvent::HttpFailure => FetchStep::NoMatch,
        FetchEvent::RateLimited(ra) => {
            let d = match ra {
                Some(secs) => {
                    if secs <= u64::MAX / 1000 {
                        1000 * secs
                    } else {
                        u64::MAX
                    }
                },
                None => st.delay_ms,
            };
            let doubled = if d <= u64::MAX / 2 {
                2 * d
            } else {
                u64::MAX
            };
            let next_attempt = st.attempt + 1;
            st.attempt = next_attempt;
            st.delay_ms = doubled;
            if next_attempt >= MAX_FETCH_ATTEMPTS {
                FetchStep::NoMatch
            } else {
                FetchStep::Retry(d)
            }
        },
        FetchEvent::TransportError => {
            let d = st.delay_ms;
            let doubled = if d <= u64::MAX / 2 {
                2 * d
            } else {
                u64::MAX
            };
            let next_attempt = st.attempt + 1;
            st.attempt = next_attempt;
            st.delay_ms = doubled;
            if next_attempt >= MAX_FETCH_ATTEMPTS {
                FetchStep::Abort
            } else {
                FetchStep::Retry(d)
            }
        },
    }
}

/// The actions of running the backoff machine over a sequence of outcomes.
pub open spec fn run_backoff(st: Backoff, evs: Seq<FetchEvent>) -> Seq<FetchStep>
    decreases evs.len(),
{
    if evs.len() == 0 {
        Seq::empty()
    } else {
        let next = backoff_step_spec(st, evs[0]);
        seq![next.1] + run_backoff(next.0, evs.drop_first())
    }
}

/// Enrichment backoff: over any run of five rate-limited responses with
/// Retry-After headers, the client waits at least each header's duration
/// (it retries after exactly that many seconds, doubling its fallback
/// delay as it goes) for the first four, and after the fifth attempt gives
/// up with "no match" rather than an error.
pub proof fn lemma_backoff_rate_limited_gives_up(rs: Seq<u64>)
    requires
        rs.len() == 5,
    ensures
        ({
            let evs = rs.map_values(|r: u64| FetchEvent::RateLimited(Some(r)));
            let acts = run_backoff(Backoff { attempt: 0, delay_ms: 1000 }, evs);
            acts.len() == 5 && (forall|i: int|
                0 <= i < 4 ==> acts[i] == FetchStep::Retry(sat_secs_to_ms(rs[i]))) && acts[4]
                == FetchStep::NoMatch
        }),
{
    let evs = rs.map_values(|r: u64| FetchEvent::RateLimited(Some(r)));
    let st0 = Backoff { attempt: 0, delay_ms: 1000 };
    let s1 = backoff_step_spec(st0, evs[0]);
    let e1 = evs.drop_first();
    let s2 = backoff_step_spec(s1.0, e1[0]);
    let e2 = e1.drop_first();
    let s3 = backoff_step_spec(s2.0, e2[0]);
    let e3 = e2.drop_first();
    let s4 = backoff_step_spec(s3.0, e3[0]);
    let e4 = e3.drop_first();
    let s5 = backoff_step_spec(s4.0, e4[0]);
    let e5 = e4.drop_first();
    assert(e1[0] == evs[1] && e2[0] == evs[2] && e3[0] == evs[3] && e4[0] == evs[4]);
    assert(e5 =~= Seq::<FetchEvent>::empty());
    let acts = run_backoff(st0, evs);
    assert(run_backoff(st0, evs) == seq![s1.1] + run_backoff(s1.0, e1));
    assert(run_backoff(s1.0, e1) == seq![s2.1] + run_backoff(s2.0, e2));
    assert(run_backoff(s2.0, e2) == seq![s3.1] + run_backoff(s3.0, e3));
    assert(run_backoff(s3.0, e3) == seq![s4.1] + run_backoff(s4.0, e4));
    assert(run_backoff(s4.0, e4) == seq![s5.1] + run_backoff(s5.0, e5));
    assert(run_backoff(s5.0, e5) == Seq::<FetchStep>::empty());
    assert(acts =~= seq![s1.1, s2.1, s3.1, s4.1, s5.1]);
    assert(s1.1 == FetchStep::Retry(sat_secs_to_ms(rs[0])));
    assert(s2.1 == FetchStep::Retry(sat_secs_to_ms(rs[1])));
    assert(s3.1 == FetchStep::Retry(sat_secs_to_ms(rs[2])));
    assert(s4.1 == FetchStep::Retry(sat_secs_to_ms(rs[3])));
    assert(s5.1 == FetchStep::NoMatch);
}

} // verus!
