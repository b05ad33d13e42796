//! The importers' text processing.
//!
//! Vendor export files arrive as webarchives, MHTML saves or plain HTML.
//! Everything past the raw file access is here: format detection,
//! quoted-printable decoding, entity decoding, the extraction of book
//! records from rendered markup, the assembly of records from the embedded
//! item listing, and the author CSV of the vendor data export.

use vstd::prelude::*;

use crate::text::{
    chars_of, matches_at, slice_chars, string_from_chars, trim_chars, trim_spec, views,
};
use crate::types::{ImportedBook, ImportedBookView, ImportFormat, Result};

verus! {

/// `n` occurs in `h` starting at position `i`.
pub open spec fn bytes_match_at(h: Seq<u8>, i: int, n: Seq<u8>) -> bool {
    0 <= i && i + n.len() <= h.len() && h.subrange(i, i + n.len()) == n
}

/// `n` occurs somewhere in `h`.
pub open spec fn bytes_contain(h: Seq<u8>, n: Seq<u8>) -> bool {
    exists|i: int| bytes_match_at(h, i, n)
}

/// The magic prefix of a binary property list.
pub open spec fn bplist_magic() -> Seq<u8> {
    seq![98u8, 112u8, 108u8, 105u8, 115u8, 116u8]
}

/// The bytes of "MIME-Version:".
pub open spec fn mime_marker() -> Seq<u8> {
    seq![77u8, 73u8, 77u8, 69u8, 45u8, 86u8, 101u8, 114u8, 115u8, 105u8, 111u8, 110u8, 58u8]
}

/// The bytes of "multipart/related".
pub open spec fn multipart_marker() -> Seq<u8> {
    seq![
        109u8, 117u8, 108u8, 116u8, 105u8, 112u8, 97u8, 114u8, 116u8, 47u8, 114u8, 101u8, 108u8,
        97u8, 116u8, 101u8, 100u8,
    ]
}

/// The first 500 bytes (or all of them, if fewer): the header window the
/// format sniffing looks at.
pub open spec fn header_window(data: Seq<u8>) -> Seq<u8> {
    if data.len() <= 500 {
        data
    } else {
        data.take(500)
    }
}

/// The detected format: a binary-plist magic means a webarchive, a MIME
/// marker in the header window means MHTML, anything else is plain HTML.
pub open spec fn detect_format_spec(data: Seq<u8>) -> ImportFormat {
    if data.len() >= 6 && data.take(6) == bplist_magic() {
        ImportFormat::WebArchive
    } else if bytes_contain(header_window(data), mime_marker()) || bytes_contain(
        header_window(data),
        multipart_marker(),
    ) {
        ImportFormat::Mhtml
    } else {
        ImportFormat::Html
    }
}

/// Whether `n` occurs in `h` at position `i`.
fn bytes_match_at_exec(h: &[u8], i: usize, n: &Vec<u8>) -> (r: bool)
    ensures
        r == bytes_match_at(h@, i as int, n@),
{
    if i > h.len() || h.len() - i < n.len() {
        return false;
    }
    let mut j: usize = 0;
    while j < n.len()
        invariant
            j <= n@.len(),
            i + n@.len() <= h@.len(),
            h@.len() <= usize::MAX,
            forall|k: int| 0 <= k < j ==> h@[i + k] == n@[k],
        decreases n@.len() - j,
    {
        if h[i + j] != n[j] {
            proof {
                assert(h@.subrange(i as int, i + n@.len()) != n@) by {
                    assert(h@.subrange(i as int, i + n@.len())[j as int] == h@[i + j]);
                }
            }
            return false;
        }
        j = j + 1;
    }
    proof {
        assert(h@.subrange(i as int, i + n@.len()) =~= n@);
    }
    true
}

/// Whether `n` occurs anywhere in the first `limit` bytes of `h`.
fn bytes_contain_exec(h: &[u8], limit: usize, n: &Vec<u8>) -> (r: bool)
    requires
        limit <= h@.len(),
        limit < usize::MAX,
    ensures
        r == bytes_contain(h@.take(limit as int), n@),
{
    let ghost w = h@.take(limit as int);
    let mut i: usize = 0;
    while i <= limit
        invariant
            i <= limit + 1,
            limit <= h@.len(),
            limit < usize::MAX,
            w == h@.take(limit as int),
            forall|k: int| 0 <= k < i ==> !bytes_match_at(w, k, n@),
        decreases limit + 1 - i,
    {
        if n.len() <= limit - i && bytes_match_at_exec(h, i, n) {
            proof {
                assert(w.subrange(i as int, i + n@.len()) =~= h@.subrange(i as int, i + n@.len()));
                assert(bytes_match_at(w, i as int, n@));
            }
            return true;
        }
        proof {
            if n@.len() <= limit - i {
                assert(w.subrange(i as int, i + n@.len()) =~= h@.subrange(i as int, i + n@.len()));
                assert(!bytes_match_at(w, i as int, n@));
            } else {
                assert(!bytes_match_at(w, i as int, n@));
            }
        }
        i = i + 1;
    }
    proof {
        assert(forall|k: int| k > limit ==> !bytes_match_at(w, k, n@));
        assert(forall|k: int| k < 0 ==> !bytes_match_at(w, k, n@));
    }
    false
}

/// Detects the import file format from its content.
pub fn detect_format(data: &[u8]) -> (r: ImportFormat)
    ensures
        r == detect_format_spec(data@),
{
    let mut magic: Vec<u8> = Vec::new();
    magic.push(98u8);
    magic.push(112u8);
    magic.push(108u8);
    magic.push(105u8);
    magic.push(115u8);
    magic.push(116u8);
    proof {
        assert(magic@ =~= bplist_magic());
    }
    if data.len() >= 6 && bytes_match_at_exec(data, 0, &magic) {
        proof {
            assert(data@.subrange(0, 6) =~= data@.take(6));
        }
        return ImportFormat::WebArchive;
    }
    proof {
        if data@.len() >= 6 {
            assert(data@.subrange(0, 6) =~= data@.take(6));
        }
    }
    let limit = if data.len() < 500 {
        data.len()
    } else {
        500
    };
    proof {
        assert(header_window(data@) =~= data@.take(limit as int));
    }
    let mut mime: Vec<u8> = Vec::new();
    mime.push(77u8);
    mime.push(73u8);
    mime.push(77u8);
    mime.push(69u8);
    mime.push(45u8);
    mime.push(86u8);
    mime.push(101u8);
    mime.push(114u8);
    mime.push(115u8);
    mime.push(105u8);
    mime.push(111u8);
    mime.push(110u8);
    mime.push(58u8);
    proof {
        assert(mime@ =~= mime_marker());
    }
    if bytes_contain_exec(data, limit, &mime) {
        return ImportFormat::Mhtml;
    }
    let mut multi: Vec<u8> = Vec::new();
    multi.push(109u8);
    multi.push(117u8);
    multi.push(108u8);
    multi.push(116u8);
    multi.push(105u8);
    multi.push(112u8);
    multi.push(97u8);
    multi.push(114u8);
    multi.push(116u8);
    multi.push(47u8);
    multi.push(114u8);
    multi.push(101u8);
    multi.push(108u8);
    multi.push(97u8);
    multi.push(116u8);
    multi.push(101u8);
    multi.push(100u8);
    proof {
        assert(multi@ =~= multipart_marker());
    }
    if bytes_contain_exec(data, limit, &multi) {
        return ImportFormat::Mhtml;
    }
    ImportFormat::Html
}

/// `c` is a hexadecimal digit.
pub open spec fn is_hex_digit(c: char) -> bool {
    (('0' as u32) <= (c as u32) && (c as u32) <= ('9' as u32)) || (('a' as u32) <= (c as u32) && (
    c as u32) <= ('f' as u32)) || (('A' as u32) <= (c as u32) && (c as u32) <= ('F' as u32))
}

/// The value of a hexadecimal digit.
pub open spec fn hex_digit_val(c: char) -> int {
    if ('0' as u32) <= (c as u32) && (c as u32) <= ('9' as u32) {
        (c as u32) - ('0' as u32)
    } else if ('a' as u32) <= (c as u32) && (c as u32) <= ('f' as u32) {
        (c as u32) - ('a' as u32) + 10
    } else {
        (c as u32) - ('A' as u32) + 10
    }
}

/// Quoted-printable decoding from position `i` on, appended to `acc`. An
/// equals sign before a line break is a soft break and disappears with the
/// break; before two hex digits it decodes to that byte; anything else
/// after an equals sign is kept as it stands.
pub open spec fn qp_decode_from(s: Seq<char>, i: int, acc: Seq<char>) -> Seq<char>
    decreases s.len() - i,
{
    if i < 0 || i >= s.len() {
        acc
    } else if s[i] == '=' {
        if i + 1 < s.len() && s[i + 1] == '\r' {
            if i + 2 < s.len() && s[i + 2] == '\n' {
                qp_decode_from(s, i + 3, acc)
            } else {
                qp_decode_from(s, i + 2, acc)
            }
        } else if i + 1 < s.len() && s[i + 1] == '\n' {
            qp_decode_from(s, i + 2, acc)
        } else if i + 2 < s.len() && is_hex_digit(s[i + 1]) && is_hex_digit(s[i + 2]) {
            let b = (16 * hex_digit_val(s[i + 1]) + hex_digit_val(s[i + 2])) as u8;
            qp_decode_from(s, i + 3, acc.push(b as char))
        } else {
            // Failed decode: the equals sign and the characters looked at
            // are kept.
            if i + 2 < s.len() {
                qp_decode_from(s, i + 3, acc.push('=').push(s[i + 1]).push(s[i + 2]))
            } else if i + 1 < s.len() {
                qp_decode_from(s, i + 2, acc.push('=').push(s[i + 1]))
            } else {
                qp_decode_from(s, i + 1, acc.push('='))
            }
        }
    } else {
        qp_decode_from(s, i + 1, acc.push(s[i]))
    }
}

/// Quoted-printable decoding of a whole text.
pub open spec fn qp_decode_spec(s: Seq<char>) -> Seq<char> {
    qp_decode_from(s, 0, Seq::empty())
}

/// Whether `c` is a hexadecimal digit.
fn is_hex_digit_exec(c: char) -> (r: bool)
    ensures
        r == is_hex_digit(c),
{
    let v = c as u32;
    (48 <= v && v <= 57) || (97 <= v && v <= 102) || (65 <= v && v <= 70)
}

/// The value of a hexadecimal digit.
fn hex_digit_val_exec(c: char) -> (r: u32)
    requires
        is_hex_digit(c),
    ensures
        r == hex_digit_val(c),
        r < 16,
{
    let v = c as u32;
    if 48 <= v && v <= 57 {
        v - 48
    } else if 97 <= v && v <= 102 {
        v - 97 + 10
    } else {
        v - 65 + 10
    }
}

/// Decodes the quoted-printable encoding used in MHTML saves.
pub fn decode_quoted_printable(input: &str) -> (r: String)
    ensures
        r@ == qp_decode_spec(input@),
{
    let v = chars_of(input);
    let vlen = v.len();
    let mut acc: Vec<char> = Vec::new();
    let mut i: usize = 0;
    while i < v.len()
        invariant
            i <= v@.len(),
            v@.len() == vlen,
            qp_decode_spec(input@) == qp_decode_from(v@, i as int, acc@),
            v@ == input@,
        decreases v@.len() - i,
    {
        let c = v[i];
        if c == '=' {
            if v.len() - i > 1 && v[i + 1] == '\r' {
                if v.len() - i > 2 && v[i + 2] == '\n' {
                    i = i + 3;
                } else {
                    i = i + 2;
                }
            } else if v.len() - i > 1 && v[i + 1] == '\n' {
                i = i + 2;
            } else if v.len() - i > 2 && is_hex_digit_exec(v[i + 1]) && is_hex_digit_exec(
                v[i + 2],
            ) {
                let b: u8 = (16 * hex_digit_val_exec(v[i + 1]) + hex_digit_val_exec(
                    v[i + 2],
                )) as u8;
                acc.push(b as char);
                i = i + 3;
            } else {
                if v.len() - i > 2 {
                    acc.push('=');
                    acc.push(v[i + 1]);
                    acc.push(v[i + 2]);
                    i = i + 3;
                } else if v.len() - i > 1 {
                    acc.push('=');
                    acc.push(v[i + 1]);
                    i = i + 2;
                } else {
                    acc.push('=');
                    i = i + 1;
                }
            }
        } else {
            acc.push(c);
            i = i + 1;
        }
    }
    string_from_chars(&acc)
}

/// Basic HTML entity decoding: the five named entities and the apostrophe
/// reference, replaced in a fixed order.
pub open spec fn html_decode_spec(s: Seq<char>) -> Seq<char> {
    let s1 = crate::text::replace_seq(s, "&amp;"@, "&"@);
    let s2 = crate::text::replace_seq(s1, "&lt;"@, "<"@);
    let s3 = crate::text::replace_seq(s2, "&gt;"@, ">"@);
    let s4 = crate::text::replace_seq(s3, "&quot;"@, "\""@);
    let s5 = crate::text::replace_seq(s4, "&#39;"@, "'"@);
    crate::text::replace_seq(s5, "&apos;"@, "'"@)
}

/// Decodes basic HTML entities.
pub fn html_decode(s: &str) -> (r: String)
    ensures
        r@ == html_decode_spec(s@),
{
    proof {
        reveal_strlit("&amp;");
        reveal_strlit("&lt;");
        reveal_strlit("&gt;");
        reveal_strlit("&quot;");
        reveal_strlit("&#39;");
        reveal_strlit("&apos;");
    }
    let v = chars_of(s);
    let s1 = crate::text::replace_chars(&v, &chars_of("&amp;"), &chars_of("&"));
    let s2 = crate::text::replace_chars(&s1, &chars_of("&lt;"), &chars_of("<"));
    let s3 = crate::text::replace_chars(&s2, &chars_of("&gt;"), &chars_of(">"));
    let s4 = crate::text::replace_chars(&s3, &chars_of("&quot;"), &chars_of("\""));
    let s5 = crate::text::replace_chars(&s4, &chars_of("&#39;"), &chars_of("'"));
    let s6 = crate::text::replace_chars(&s5, &chars_of("&apos;"), &chars_of("'"));
    string_from_chars(&s6)
}

/// The anchor before a title element's item id.
pub open spec fn title_anchor() -> Seq<char> {
    seq!['i', 'd', '=', '"', 't', 'i', 't', 'l', 'e', '-']
}

/// The anchor before an author element's item id.
pub open spec fn author_anchor() -> Seq<char> {
    seq!['i', 'd', '=', '"', 'a', 'u', 't', 'h', 'o', 'r', '-']
}

/// A character an item id may contain.
pub open spec fn is_asin_char(c: char) -> bool {
    (('A' as u32) <= (c as u32) && (c as u32) <= ('Z' as u32)) || (('0' as u32) <= (c as u32) && (
    c as u32) <= ('9' as u32))
}

/// `n` item-id characters stand at `i`.
pub open spec fn asin_body_at(s: Seq<char>, i: int, n: int) -> bool {
    0 <= i && i + n <= s.len() && forall|k: int| i <= k < i + n ==> is_asin_char(#[trigger] s[k])
}

/// An item id starting at `i`: the vendor prefix and then nine (preferred)
/// or eight id characters, closed by a quote. Returns the position of the
/// closing quote.
pub open spec fn asin_end(s: Seq<char>, i: int) -> Option<int> {
    if 0 <= i && i + 2 <= s.len() && s[i] == 'B' && s[i + 1] == '0' {
        if asin_body_at(s, i + 2, 9) && i + 11 < s.len() && s[i + 11] == '"' {
            Some(i + 11)
        } else if asin_body_at(s, i + 2, 8) && i + 10 < s.len() && s[i + 10] == '"' {
            Some(i + 10)
        } else {
            None
        }
    } else {
        None
    }
}

/// The first `>` at or after `i`, if any.
pub open spec fn first_gt(s: Seq<char>, i: int) -> Option<int>
    decreases s.len() - i,
{
    if i < 0 || i >= s.len() {
        None
    } else if s[i] == '>' {
        Some(i)
    } else {
        first_gt(s, i + 1)
    }
}

/// The first `<` at or after `i`, if any.
pub open spec fn first_lt(s: Seq<char>, i: int) -> Option<int>
    decreases s.len() - i,
{
    if i < 0 || i >= s.len() {
        None
    } else if s[i] == '<' {
        Some(i)
    } else {
        first_lt(s, i + 1)
    }
}

/// A found `>` lies at or after the start, inside the text.
pub proof fn lemma_first_gt_bounds(s: Seq<char>, i: int)
    ensures
        match first_gt(s, i) {
            Some(k) => i <= k < s.len() && s[k] == '>',
            None => true,
        },
    decreases s.len() - i,
{
    if 0 <= i && i < s.len() && s[i] != '>' {
        lemma_first_gt_bounds(s, i + 1);
    }
}

/// A found `<` lies at or after the start, inside the text.
pub proof fn lemma_first_lt_bounds(s: Seq<char>, i: int)
    ensures
        match first_lt(s, i) {
            Some(k) => i <= k < s.len() && s[k] == '<',
            None => true,
        },
    decreases s.len() - i,
{
    if 0 <= i && i < s.len() && s[i] != '<' {
        lemma_first_lt_bounds(s, i + 1);
    }
}

/// A full element capture at `p`: the anchor, an item id in quotes, the
/// element opening `><p ...>`, the text up to the closing tag, and the
/// closing tag. Returns the position after the match, the item id and the
/// raw text.
pub open spec fn capture_at(s: Seq<char>, p: int, anchor: Seq<char>) -> Option<
    (int, Seq<char>, Seq<char>),
> {
    if !matches_at(s, p, anchor) {
        None
    } else {
        let a = p + anchor.len();
        match asin_end(s, a) {
            None => None,
            Some(q) => {
                if matches_at(s, q + 1, seq!['>', '<', 'p']) {
                    match first_gt(s, q + 4) {
                        None => None,
                        Some(g) => match first_lt(s, g + 1) {
                            None => None,
                            Some(t) => {
                                if t > g + 1 && matches_at(s, t, seq!['<', '/', 'p', '>']) {
                                    Some((t + 4, s.subrange(a, q), s.subrange(g + 1, t)))
                                } else {
                                    None
                                }
                            },
                        },
                    }
                } else {
                    None
                }
            },
        }
    }
}

/// A capture moves the scan forward and stays inside the text.
pub proof fn lemma_capture_at_bounds(s: Seq<char>, p: int, anchor: Seq<char>)
    ensures
        match capture_at(s, p, anchor) {
            Some(r) => p < r.0 <= s.len(),
            None => true,
        },
{
    if matches_at(s, p, anchor) {
        let a = p + anchor.len();
        match asin_end(s, a) {
            None => {},
            Some(q) => {
                lemma_first_gt_bounds(s, q + 4);
                match first_gt(s, q + 4) {
                    None => {},
                    Some(g) => {
                        lemma_first_lt_bounds(s, g + 1);
                    },
                }
            },
        }
    }
}

/// Every (item id, raw text) capture from `p` on, scanning left to right,
/// continuing after each whole match.
pub open spec fn captures_from(s: Seq<char>, p: int, anchor: Seq<char>) -> Seq<
    (Seq<char>, Seq<char>),
>
    decreases s.len() - p,
    via captures_from_via
{
    if p < 0 || p >= s.len() {
        Seq::empty()
    } else {
        match capture_at(s, p, anchor) {
            Some(r) => seq![(r.1, r.2)] + captures_from(s, r.0, anchor),
            None => captures_from(s, p + 1, anchor),
        }
    }
}

#[via_fn]
proof fn captures_from_via(s: Seq<char>, p: int, anchor: Seq<char>) {
    lemma_capture_at_bounds(s, p, anchor);
}

/// An item-id anchor occurrence at `p`: the title anchor and a quoted item
/// id. Returns the position after the closing quote and the id.
pub open spec fn asin_at(s: Seq<char>, p: int) -> Option<(int, Seq<char>)> {
    if !matches_at(s, p, title_anchor()) {
        None
    } else {
        let a = p + title_anchor().len();
        match asin_end(s, a) {
            None => None,
            Some(q) => Some((q + 1, s.subrange(a, q))),
        }
    }
}

/// An id occurrence moves the scan forward and stays inside the text.
pub proof fn lemma_asin_at_bounds(s: Seq<char>, p: int)
    ensures
        match asin_at(s, p) {
            Some(r) => p < r.0 <= s.len(),
            None => true,
        },
{
}

/// Every item id cited by a title anchor from `p` on, in order, with
/// repeats.
pub open spec fn asins_from(s: Seq<char>, p: int) -> Seq<Seq<char>>
    decreases s.len() - p,
    via asins_from_via
{
    if p < 0 || p >= s.len() {
        Seq::empty()
    } else {
        match asin_at(s, p) {
            Some(r) => seq![r.1] + asins_from(s, r.0),
            None => asins_from(s, p + 1),
        }
    }
}

#[via_fn]
proof fn asins_from_via(s: Seq<char>, p: int) {
    lemma_asin_at_bounds(s, p);
}

/// The stored text of the last capture for an item id, if any: a later
/// capture for the same id replaces an earlier one.
pub open spec fn lookup_last(pairs: Seq<(Seq<char>, Seq<char>)>, key: Seq<char>) -> Option<
    Seq<char>,
>
    decreases pairs.len(),
{
    if pairs.len() == 0 {
        None
    } else if pairs.last().0 == key {
        Some(pairs.last().1)
    } else {
        lookup_last(pairs.drop_last(), key)
    }
}

/// A captured text cleaned for storage: trimmed, then entity-decoded.
pub open spec fn clean_capture(t: Seq<char>) -> Seq<char> {
    html_decode_spec(trim_spec(t))
}

/// An author field split into names: tokens between colons and commas,
/// trimmed, empties dropped.
pub open spec fn split_authors_from(s: Seq<char>, i: int, cur: Seq<char>, acc: Seq<Seq<char>>) -> Seq<
    Seq<char>,
>
    decreases s.len() - i,
{
    if i < 0 || i >= s.len() {
        let t = trim_spec(cur);
        if t.len() > 0 {
            acc.push(t)
        } else {
            acc
        }
    } else if s[i] == ':' || s[i] == ',' {
        let t = trim_spec(cur);
        split_authors_from(s, i + 1, Seq::empty(), if t.len() > 0 {
            acc.push(t)
        } else {
            acc
        })
    } else {
        split_authors_from(s, i + 1, cur.push(s[i]), acc)
    }
}

/// The author names of one author field.
pub open spec fn split_authors(s: Seq<char>) -> Seq<Seq<char>> {
    split_authors_from(s, 0, Seq::empty(), Seq::empty())
}

/// The record built for one item id found in the rendered markup.
pub open spec fn dom_book_of(html: Seq<char>, asin: Seq<char>) -> ImportedBookView {
    let title = match lookup_last(captures_from(html, 0, title_anchor()), asin) {
        Some(t) => clean_capture(t),
        None => Seq::empty(),
    };
    let author_field = match lookup_last(captures_from(html, 0, author_anchor()), asin) {
        Some(t) => clean_capture(t),
        None => Seq::empty(),
    };
    ImportedBookView {
        asin: asin,
        title: title,
        authors: split_authors(author_field),
        cover_url: None,
        percentage_read: 0,
        resource_type: "EBOOK"@,
        origin_type: "PURCHASE"@,
    }
}

/// The records extracted from rendered markup: one per distinct item id,
/// first occurrences first.
pub open spec fn dom_books_spec(html: Seq<char>) -> Seq<ImportedBookView> {
    crate::catalog::dedup_fold(Seq::empty(), asins_from(html, 0)).map_values(
        |a: Seq<char>| dom_book_of(html, a),
    )
}

/// Whether `c` may stand in an item id.
fn is_asin_char_exec(c: char) -> (r: bool)
    ensures
        r == is_asin_char(c),
{
    let u = c as u32;
    (65 <= u && u <= 90) || (48 <= u && u <= 57)
}

/// Whether an item id (the vendor prefix and eight or nine id characters,
/// closed by a quote) starts at `i`; returns the closing quote's position.
fn asin_end_exec(v: &Vec<char>, i: usize) -> (r: Option<usize>)
    ensures
        match r {
            Some(q) => asin_end(v@, i as int) == Some(q as int) && i < q < v@.len(),
            None => asin_end(v@, i as int) is None,
        },
{
    let n = v.len();
    if i >= n || n - i < 2 || v[i] != 'B' || v[i + 1] != '0' {
        return None;
    }
    let mut k: usize = 0;
    while k < 9 && n - (i + 2) > k && is_asin_char_exec(v[i + 2 + k])
        invariant
            k <= 9,
            i + 2 <= n == v@.len(),
            v@.len() <= usize::MAX,
            forall|t: int| i + 2 <= t < i + 2 + k ==> is_asin_char(#[trigger] v@[t]),
        decreases 9 - k,
    {
        k = k + 1;
    }
    // k is the length (at most 9) of the id-character run after the prefix.
    if k == 9 && n - i > 11 && v[i + 11] == '"' {
        proof {
            assert(asin_body_at(v@, i + 2, 9));
        }
        Some(i + 11)
    } else if k >= 8 && n - i > 10 && v[i + 10] == '"' {
        proof {
            assert(asin_body_at(v@, i + 2, 8));
            if asin_body_at(v@, i + 2, 9) && i + 11 < v@.len() && v@[i + 11] == '"' {
                if k < 9 {
                    assert(is_asin_char(v@[i + 2 + k]));
                }
                assert(false);
            }
        }
        Some(i + 10)
    } else {
        proof {
            if asin_body_at(v@, i + 2, 9) && i + 11 < v@.len() && v@[i + 11] == '"' {
                if k < 9 {
                    assert(is_asin_char(v@[i + 2 + k]));
                    assert(false);
                }
            }
            if asin_body_at(v@, i + 2, 8) && i + 10 < v@.len() && v@[i + 10] == '"' {
                if k < 8 {
                    assert(is_asin_char(v@[i + 2 + k]));
                    assert(false);
                }
            }
        }
        None
    }
}

/// The first `>` at or after `i`, if any.
fn gt_from(v: &Vec<char>, i: usize) -> (r: Option<usize>)
    ensures
        match r {
            Some(k) => first_gt(v@, i as int) == Some(k as int) && i <= k < v@.len(),
            None => first_gt(v@, i as int) is None,
        },
{
    let mut j: usize = i;
    while j < v.len()
        invariant
            i <= j,
            first_gt(v@, i as int) == first_gt(v@, j as int),
        decreases v@.len() - j,
    {
        if v[j] == '>' {
            return Some(j);
        }
        j = j + 1;
    }
    None
}

/// The first `<` at or after `i`, if any.
fn lt_from(v: &Vec<char>, i: usize) -> (r: Option<usize>)
    ensures
        match r {
            Some(k) => first_lt(v@, i as int) == Some(k as int) && i <= k < v@.len(),
            None => first_lt(v@, i as int) is None,
        },
{
    let mut j: usize = i;
    while j < v.len()
        invariant
            i <= j,
            first_lt(v@, i as int) == first_lt(v@, j as int),
        decreases v@.len() - j,
    {
        if v[j] == '<' {
            return Some(j);
        }
        j = j + 1;
    }
    None
}

/// Attempts one full element capture at `p`.
fn capture_at_exec(v: &Vec<char>, p: usize, anchor: &Vec<char>) -> (r: Option<
    (usize, Vec<char>, Vec<char>),
>)
    ensures
        match r {
            Some(t) => capture_at(v@, p as int, anchor@) == Some(
                (t.0 as int, t.1@, t.2@),
            ) && p < t.0 <= v@.len(),
            None => capture_at(v@, p as int, anchor@) is None,
        },
{
    let n = v.len();
    if !crate::text::match_at(v, p, anchor) {
        return None;
    }
    let a = p + anchor.len();
    let q = match asin_end_exec(v, a) {
        Some(q) => q,
        None => {
            return None;
        },
    };
    let mut opening: Vec<char> = Vec::new();
    opening.push('>');
    opening.push('<');
    opening.push('p');
    proof {
        assert(opening@ =~= seq!['>', '<', 'p']);
    }
    if !crate::text::match_at(v, q + 1, &opening) {
        return None;
    }
    proof {
        assert(q + 4 <= v@.len());
    }
    let g = match gt_from(v, q + 4) {
        Some(g) => g,
        None => {
            return None;
        },
    };
    let t = match lt_from(v, g + 1) {
        Some(t) => t,
        None => {
            return None;
        },
    };
    let mut closing: Vec<char> = Vec::new();
    closing.push('<');
    closing.push('/');
    closing.push('p');
    closing.push('>');
    proof {
        assert(closing@ =~= seq!['<', '/', 'p', '>']);
    }
    if t > g + 1 && crate::text::match_at(v, t, &closing) {
        let asin = slice_chars(v, a, q);
        let text = slice_chars(v, g + 1, t);
        Some((t + 4, asin, text))
    } else {
        None
    }
}

/// Every (item id, raw text) capture in the markup, in scan order.
fn scan_captures(v: &Vec<char>, anchor: &Vec<char>) -> (r: Vec<(Vec<char>, Vec<char>)>)
    ensures
        r@.map_values(|c: (Vec<char>, Vec<char>)| (c.0@, c.1@)) == captures_from(
            v@,
            0,
            anchor@,
        ),
{
    let mut out: Vec<(Vec<char>, Vec<char>)> = Vec::new();
    let mut p: usize = 0;
    proof {
        assert(out@.map_values(|c: (Vec<char>, Vec<char>)| (c.0@, c.1@)) =~= Seq::<
            (Seq<char>, Seq<char>),
        >::empty());
    }
    while p < v.len()
        invariant
            captures_from(v@, 0, anchor@) == out@.map_values(
                |c: (Vec<char>, Vec<char>)| (c.0@, c.1@),
            ) + captures_from(v@, p as int, anchor@),
        decreases v@.len() - p,
    {
        let ghost pre = out@.map_values(|c: (Vec<char>, Vec<char>)| (c.0@, c.1@));
        match capture_at_exec(v, p, anchor) {
            Some(cap) => {
                let (next, asin, text) = cap;
                let ghost av = asin@;
                let ghost tv = text@;
                out.push((asin, text));
                proof {
                    assert(out@.map_values(|c: (Vec<char>, Vec<char>)| (c.0@, c.1@)) =~= pre.push(
                        (av, tv),
                    ));
                    assert(pre + (seq![(av, tv)] + captures_from(v@, next as int, anchor@))
                        =~= pre.push((av, tv)) + captures_from(v@, next as int, anchor@));
                }
                p = next;
            },
            None => {
                p = p + 1;
            },
        }
    }
    proof {
        assert(captures_from(v@, p as int, anchor@) == Seq::<(Seq<char>, Seq<char>)>::empty());
        assert(captures_from(v@, 0, anchor@) =~= out@.map_values(
            |c: (Vec<char>, Vec<char>)| (c.0@, c.1@),
        ));
    }
    out
}

/// Every item id cited by a title anchor, in scan order, with repeats.
fn scan_asins(v: &Vec<char>) -> (r: Vec<String>)
    ensures
        crate::text::views(r@) == asins_from(v@, 0),
{
    let anchor = chars_of("id=\"title-");
    proof {
        reveal_strlit("id=\"title-");
        assert(anchor@ =~= title_anchor());
    }
    let mut out: Vec<String> = Vec::new();
    let mut p: usize = 0;
    proof {
        assert(crate::text::views(out@) =~= Seq::<Seq<char>>::empty());
    }
    while p < v.len()
        invariant
            anchor@ == title_anchor(),
            asins_from(v@, 0) == crate::text::views(out@) + asins_from(v@, p as int),
        decreases v@.len() - p,
    {
        let ghost pre = crate::text::views(out@);
        let mut stepped = false;
        if crate::text::match_at(v, p, &anchor) {
            match asin_end_exec(v, p + anchor.len()) {
                Some(q) => {
                    let asin = slice_chars(v, p + anchor.len(), q);
                    let ghost av = asin@;
                    out.push(string_from_chars(&asin));
                    proof {
                        assert(crate::text::views(out@) =~= pre.push(av));
                        assert(asin_at(v@, p as int) == Some((q + 1 as int, av)));
                        assert(pre + (seq![av] + asins_from(v@, q + 1 as int)) =~= pre.push(av)
                            + asins_from(v@, q + 1 as int));
                    }
                    p = q + 1;
                    stepped = true;
                },
                None => {
                    proof {
                        assert(asin_at(v@, p as int) is None);
                    }
                },
            }
        } else {
            proof {
                assert(asin_at(v@, p as int) is None);
            }
        }
        if !stepped {
            p = p + 1;
        }
    }
    proof {
        assert(asins_from(v@, p as int) == Seq::<Seq<char>>::empty());
        assert(asins_from(v@, 0) =~= crate::text::views(out@));
    }
    out
}

/// The stored text of the last capture for an item id, if any.
fn lookup_last_exec(pairs: &Vec<(Vec<char>, Vec<char>)>, key: &Vec<char>) -> (r: Option<
    Vec<char>,
>)
    ensures
        match r {
            Some(t) => lookup_last(
                pairs@.map_values(|c: (Vec<char>, Vec<char>)| (c.0@, c.1@)),
                key@,
            ) == Some(t@),
            None => lookup_last(
                pairs@.map_values(|c: (Vec<char>, Vec<char>)| (c.0@, c.1@)),
                key@,
            ) is None,
        },
{
    let ghost pv = pairs@.map_values(|c: (Vec<char>, Vec<char>)| (c.0@, c.1@));
    let mut best: Option<Vec<char>> = None;
    let mut i: usize = 0;
    while i < pairs.len()
        invariant
            i <= pv.len(),
            pv == pairs@.map_values(|c: (Vec<char>, Vec<char>)| (c.0@, c.1@)),
            pv.len() == pairs@.len(),
            match best {
                Some(t) => lookup_last(pv.take(i as int), key@) == Some(t@),
                None => lookup_last(pv.take(i as int), key@) is None,
            },
        decreases pv.len() - i,
    {
        proof {
            assert(pv.take(i + 1 as int).drop_last() =~= pv.take(i as int));
            assert(pv.take(i + 1 as int).last() == pv[i as int]);
        }
        if crate::text::chars_eq(&pairs[i].0, key) {
            best = Some(slice_chars(&pairs[i].1, 0, pairs[i].1.len()));
            proof {
                assert(pairs[i as int].1@.subrange(0, pairs[i as int].1@.len() as int)
                    =~= pairs[i as int].1@);
            }
        }
        i = i + 1;
    }
    proof {
        assert(pv.take(pv.len() as int) =~= pv);
    }
    best
}

/// Splits one author field into names on colons and commas, trimming each
/// and dropping empties.
fn split_authors_exec(v: &Vec<char>) -> (r: Vec<String>)
    ensures
        crate::text::views(r@) == split_authors(v@),
{
    let mut acc: Vec<String> = Vec::new();
    let mut cur: Vec<char> = Vec::new();
    let mut i: usize = 0;
    proof {
        assert(crate::text::views(acc@) =~= Seq::<Seq<char>>::empty());
    }
    while i < v.len()
        invariant
            i <= v@.len(),
            split_authors(v@) == split_authors_from(
                v@,
                i as int,
                cur@,
                crate::text::views(acc@),
            ),
        decreases v@.len() - i,
    {
        let c = v[i];
        if c == ':' || c == ',' {
            let t = trim_chars(&cur);
            if t.len() > 0 {
                let ghost pre = crate::text::views(acc@);
                acc.push(string_from_chars(&t));
                proof {
                    assert(crate::text::views(acc@) =~= pre.push(trim_spec(cur@)));
                }
            }
            cur = Vec::new();
        } else {
            cur.push(c);
        }
        i = i + 1;
    }
    let t = trim_chars(&cur);
    if t.len() > 0 {
        let ghost pre = crate::text::views(acc@);
        acc.push(string_from_chars(&t));
        proof {
            assert(crate::text::views(acc@) =~= pre.push(trim_spec(cur@)));
        }
    }
    acc
}

/// Extracts book records from rendered markup: the title anchors name the
/// item ids; each id's last title and author captures are trimmed and
/// entity-decoded; the author field splits on colons and commas; duplicate
/// ids keep their first occurrence.
pub fn extract_books_from_dom(html: &str) -> (r: Result<Vec<ImportedBook>>)
    ensures
        match r {
            Ok(books) => books@.map_values(|b: ImportedBook| b@) == dom_books_spec(html@),
            Err(_) => false,
        },
{
    let v = chars_of(html);
    let title_anchor_v = chars_of("id=\"title-");
    let author_anchor_v = chars_of("id=\"author-");
    proof {
        reveal_strlit("id=\"title-");
        reveal_strlit("id=\"author-");
        assert(title_anchor_v@ =~= title_anchor());
        assert(author_anchor_v@ =~= author_anchor());
    }
    let titles = scan_captures(&v, &title_anchor_v);
    let authors = scan_captures(&v, &author_anchor_v);
    let raw_asins = scan_asins(&v);
    let ghost all = asins_from(v@, 0);
    let mut asins: Vec<String> = Vec::new();
    let mut i: usize = 0;
    proof {
        assert(crate::text::views(asins@) =~= Seq::<Seq<char>>::empty());
    }
    while i < raw_asins.len()
        invariant
            i <= all.len(),
            all == crate::text::views(raw_asins@),
            all.len() == raw_asins@.len(),
            crate::text::views(asins@) == crate::catalog::dedup_fold(
                Seq::empty(),
                all.take(i as int),
            ),
        decreases all.len() - i,
    {
        proof {
            assert(all.take(i + 1 as int) =~= all.take(i as int).push(all[i as int]));
            assert(all[i as int] == raw_asins@[i as int]@);
            crate::catalog::lemma_dedup_snoc(Seq::empty(), all.take(i as int), all[i as int]);
        }
        let ghost pre = crate::text::views(asins@);
        if !crate::catalog::strings_contain(&asins, &raw_asins[i]) {
            asins.push(raw_asins[i].clone());
            proof {
                assert(crate::text::views(asins@) =~= pre.push(all[i as int]));
            }
        }
        i = i + 1;
    }
    proof {
        assert(all.take(all.len() as int) =~= all);
    }
    let ghost uniq = crate::catalog::dedup_fold(Seq::empty(), all);
    let mut books: Vec<ImportedBook> = Vec::new();
    let mut k: usize = 0;
    proof {
        assert(books@.map_values(|b: ImportedBook| b@) =~= Seq::<ImportedBookView>::empty());
        assert(uniq.take(0).map_values(|a: Seq<char>| dom_book_of(v@, a)) =~= Seq::<
            ImportedBookView,
        >::empty());
    }
    while k < asins.len()
        invariant
            k <= uniq.len(),
            uniq == crate::text::views(asins@),
            uniq.len() == asins@.len(),
            v@ == html@,
            title_anchor_v@ == title_anchor(),
            author_anchor_v@ == author_anchor(),
            titles@.map_values(|c: (Vec<char>, Vec<char>)| (c.0@, c.1@)) == captures_from(
                v@,
                0,
                title_anchor(),
            ),
            authors@.map_values(|c: (Vec<char>, Vec<char>)| (c.0@, c.1@)) == captures_from(
                v@,
                0,
                author_anchor(),
            ),
            books@.map_values(|b: ImportedBook| b@) == uniq.take(k as int).map_values(
                |a: Seq<char>| dom_book_of(v@, a),
            ),
        decreases uniq.len() - k,
    {
        let asin_chars = chars_of(asins[k].as_str());
        proof {
            assert(asin_chars@ == uniq[k as int]);
        }
        let title = match lookup_last_exec(&titles, &asin_chars) {
            Some(t) => {
                let trimmed = trim_chars(&t);
                html_decode(string_from_chars(&trimmed).as_str())
            },
            None => String::new(),
        };
        let author_field = match lookup_last_exec(&authors, &asin_chars) {
            Some(t) => {
                let trimmed = trim_chars(&t);
                html_decode(string_from_chars(&trimmed).as_str())
            },
            None => String::new(),
        };
        let author_chars = chars_of(author_field.as_str());
        let names = split_authors_exec(&author_chars);
        let book = ImportedBook {
            asin: asins[k].clone(),
            title,
            authors: names,
            cover_url: None,
            percentage_read: 0,
            resource_type: String::from_str("EBOOK"),
            origin_type: String::from_str("PURCHASE"),
        };
        proof {
            if lookup_last(captures_from(v@, 0, author_anchor()), uniq[k as int]) is None {
                assert(split_authors(author_field@) =~= split_authors(Seq::<char>::empty()));
            }
            assert(book@ =~= dom_book_of(v@, uniq[k as int]));
        }
        let ghost pre = books@.map_values(|b: ImportedBook| b@);
        books.push(book);
        proof {
            assert(books@.map_values(|b: ImportedBook| b@) =~= pre.push(
                dom_book_of(v@, uniq[k as int]),
            ));
            assert(uniq.take(k + 1 as int).map_values(|a: Seq<char>| dom_book_of(v@, a))
                =~= uniq.take(k as int).map_values(|a: Seq<char>| dom_book_of(v@, a)).push(
                dom_book_of(v@, uniq[k as int]),
            ));
        }
        k = k + 1;
    }
    proof {
        assert(uniq.take(uniq.len() as int) =~= uniq);
        assert(books@.map_values(|b: ImportedBook| b@) =~= dom_books_spec(html@));
    }
    Ok(books)
}

/// What a byte string reads as when decoded as UTF-8 with invalid
/// sequences replaced.
pub uninterp spec fn utf8_lossy(bytes: Seq<u8>) -> Seq<char>;

/// Relies on String::from_utf8_lossy: the decoding depends on the bytes
/// alone, and valid UTF-8 decodes exactly.
#[verifier::external_body]
fn from_utf8_lossy(data: &[u8]) -> (r: String)
    ensures
        r@ == utf8_lossy(data@),
        vstd::utf8::valid_utf8(data@) ==> r@ == vstd::utf8::decode_utf8(data@),
{
    String::from_utf8_lossy(data).into_owned()
}

/// `s` with leading quote characters removed.
pub open spec fn trim_quotes_start(s: Seq<char>) -> Seq<char>
    decreases s.len(),
{
    if s.len() > 0 && s[0] == '"' {
        trim_quotes_start(s.drop_first())
    } else {
        s
    }
}

/// `s` with trailing quote characters removed.
pub open spec fn trim_quotes_end(s: Seq<char>) -> Seq<char>
    decreases s.len(),
{
    if s.len() > 0 && s.last() == '"' {
        trim_quotes_end(s.drop_last())
    } else {
        s
    }
}

/// `s` with surrounding quote characters removed.
pub open spec fn trim_quotes(s: Seq<char>) -> Seq<char> {
    trim_quotes_end(trim_quotes_start(s))
}

/// Removes leading and trailing quote characters.
fn trim_quote_chars(v: &Vec<char>) -> (r: Vec<char>)
    ensures
        r@ == trim_quotes(v@),
{
    let mut lo: usize = 0;
    proof {
        assert(v@.skip(0) =~= v@);
    }
    while lo < v.len() && v[lo] == '"'
        invariant
            lo <= v@.len(),
            trim_quotes_start(v@) == trim_quotes_start(v@.skip(lo as int)),
        decreases v@.len() - lo,
    {
        proof {
            assert(v@.skip(lo as int).drop_first() =~= v@.skip(lo + 1 as int));
        }
        lo = lo + 1;
    }
    proof {
        assert(trim_quotes_start(v@) == v@.skip(lo as int));
    }
    let ghost s2: Seq<char> = v@.skip(lo as int);
    let mut hi: usize = v.len() - lo;
    proof {
        assert(s2.take(hi as int) =~= s2);
    }
    while hi > 0 && v[lo + hi - 1] == '"'
        invariant
            lo + hi <= v@.len(),
            v@.len() <= usize::MAX,
            s2 == v@.skip(lo as int),
            trim_quotes_end(s2) == trim_quotes_end(s2.take(hi as int)),
        decreases hi,
    {
        proof {
            assert(s2.take(hi as int).last() == v@[lo + hi - 1]);
            assert(s2.take(hi as int).drop_last() =~= s2.take(hi - 1 as int));
        }
        hi = hi - 1;
    }
    proof {
        if hi > 0 {
            assert(s2.take(hi as int).last() == v@[lo + hi - 1]);
        }
        assert(trim_quotes_end(s2.take(hi as int)) == s2.take(hi as int));
        assert(s2.take(hi as int) =~= v@.subrange(lo as int, lo + hi as int));
    }
    slice_chars(v, lo, lo + hi)
}

/// A CSV field cleaned: whitespace trimmed, then surrounding quotes
/// removed.
pub open spec fn csv_field(s: Seq<char>) -> Seq<char> {
    trim_quotes(trim_spec(s))
}

/// One line of the vendor export's author CSV, parsed: the second field is
/// the item id; everything after the second comma is the author name,
/// commas and all. A line with fewer than three fields, or an empty id or
/// name, yields nothing.
pub open spec fn author_csv_spec(l: Seq<char>) -> Option<(Seq<char>, Seq<char>)> {
    match crate::enrich::first_comma(l, 0) {
        None => None,
        Some(i1) => match crate::enrich::first_comma(l, i1 + 1) {
            None => None,
            Some(i2) => {
                let asin = csv_field(l.subrange(i1 + 1, i2));
                let author = csv_field(l.skip(i2 + 1));
                if asin.len() == 0 || author.len() == 0 {
                    None
                } else {
                    Some((asin, author))
                }
            },
        },
    }
}

/// A found comma lies at or after the start, inside the text.
proof fn lemma_first_comma_bounds(s: Seq<char>, i: int)
    ensures
        match crate::enrich::first_comma(s, i) {
            Some(k) => i <= k < s.len() && s[k] == ',',
            None => true,
        },
    decreases s.len() - i,
{
    if 0 <= i && i < s.len() && s[i] != ',' {
        lemma_first_comma_bounds(s, i + 1);
    }
}

/// The position of the first comma at or after `start`, if any.
fn comma_from(v: &Vec<char>, start: usize) -> (r: Option<usize>)
    ensures
        match r {
            Some(k) => crate::enrich::first_comma(v@, start as int) == Some(k as int) && start
                <= k < v@.len(),
            None => crate::enrich::first_comma(v@, start as int) is None,
        },
{
    let mut j: usize = start;
    while j < v.len()
        invariant
            start <= j,
            crate::enrich::first_comma(v@, start as int) == crate::enrich::first_comma(
                v@,
                j as int,
            ),
        decreases v@.len() - j,
    {
        if v[j] == ',' {
            return Some(j);
        }
        j = j + 1;
    }
    None
}

/// Parses one line of the vendor export's author CSV into an (item id,
/// author name) pair, if the line carries both.
pub fn parse_author_csv_line(line: &str) -> (r: Option<(String, String)>)
    ensures
        match r {
            Some(p) => author_csv_spec(line@) == Some((p.0@, p.1@)),
            None => author_csv_spec(line@) is None,
        },
{
    let v = chars_of(line);
    let n = v.len();
    let i1 = match comma_from(&v, 0) {
        Some(i) => i,
        None => {
            return None;
        },
    };
    let i2 = match comma_from(&v, i1 + 1) {
        Some(i) => i,
        None => {
            return None;
        },
    };
    let asin_raw = slice_chars(&v, i1 + 1, i2);
    let author_raw = slice_chars(&v, i2 + 1, n);
    let asin = trim_quote_chars(&trim_chars(&asin_raw));
    let author = trim_quote_chars(&trim_chars(&author_raw));
    proof {
        assert(v@.subrange(i2 + 1 as int, v@.len() as int) =~= v@.skip(i2 + 1 as int));
        assert(asin@ == csv_field(v@.subrange(i1 + 1 as int, i2 as int)));
        assert(author@ == csv_field(v@.skip(i2 + 1 as int)));
    }
    if asin.len() == 0 || author.len() == 0 {
        return None;
    }
    Some((string_from_chars(&asin), string_from_chars(&author)))
}

/// `s` with trailing colons removed.
pub open spec fn trim_colons_end(s: Seq<char>) -> Seq<char>
    decreases s.len(),
{
    if s.len() > 0 && s.last() == ':' {
        trim_colons_end(s.drop_last())
    } else {
        s
    }
}

/// An author name as the item listing cleans it: trailing colons removed,
/// then whitespace trimmed.
pub open spec fn clean_author_spec(s: Seq<char>) -> Seq<char> {
    trim_spec(trim_colons_end(s))
}

/// Cleans one author name from the embedded item listing.
pub fn clean_author(s: &str) -> (r: String)
    ensures
        r@ == clean_author_spec(s@),
{
    let v = chars_of(s);
    let mut hi: usize = v.len();
    proof {
        assert(v@.take(hi as int) =~= v@);
    }
    while hi > 0 && v[hi - 1] == ':'
        invariant
            hi <= v@.len(),
            v@.len() <= usize::MAX,
            trim_colons_end(v@) == trim_colons_end(v@.take(hi as int)),
        decreases hi,
    {
        proof {
            assert(v@.take(hi as int).last() == v@[hi - 1]);
            assert(v@.take(hi as int).drop_last() =~= v@.take(hi - 1 as int));
        }
        hi = hi - 1;
    }
    proof {
        if hi > 0 {
            assert(v@.take(hi as int).last() == v@[hi - 1]);
        }
        assert(trim_colons_end(v@.take(hi as int)) == v@.take(hi as int));
        assert(v@.take(hi as int) =~= v@.subrange(0, hi as int));
    }
    let cut = slice_chars(&v, 0, hi);
    let t = trim_chars(&cut);
    string_from_chars(&t)
}

/// Parses an MHTML save: decodes the text, undoes its quoted-printable
/// encoding, and extracts book records from the rendered markup.
pub fn parse_mhtml_data(data: &[u8]) -> (r: Result<Vec<ImportedBook>>)
    ensures
        match r {
            Ok(books) => books@.map_values(|b: ImportedBook| b@) == dom_books_spec(
                qp_decode_spec(utf8_lossy(data@)),
            ),
            Err(_) => false,
        },
{
    let content = from_utf8_lossy(data);
    let decoded = decode_quoted_printable(content.as_str());
    extract_books_from_dom(decoded.as_str())
}

} // verus!
