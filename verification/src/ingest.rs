//! Ingesting a pasted library listing.
//!
//! A paste of the vendor's library page is a run of lines: after a marker
//! line, titles and author lines alternate, blank lines are skipped and a
//! line repeating its predecessor is ignored. Each title may carry a
//! trailing series annotation that can be split off, and the author line
//! may repeat names, which are deduplicated preserving order.

use vstd::prelude::*;

use crate::text::{
    chars_of, digits_val, is_digit, parse_u32, slice_chars, string_from_chars, trim_chars,
    trim_spec, views,
};

verus! {

/// One candidate book from a pasted listing: the raw title line and the
/// raw author names.
#[derive(Debug, PartialEq)]
pub struct Candidate {
    pub raw_title: String,
    pub raw_authors: Vec<String>,
}

/// The mathematical view of a [`Candidate`].
#[verifier::ext_equal]
pub ghost struct CandidateView {
    pub raw_title: Seq<char>,
    pub raw_authors: Seq<Seq<char>>,
}

impl View for Candidate {
    type V = CandidateView;

    open spec fn view(&self) -> CandidateView {
        CandidateView { raw_title: self.raw_title@, raw_authors: views(self.raw_authors@) }
    }
}

/// A title line split into title, series name and number, when it ends
/// with a series annotation: the last " (" opens a group whose text ends
/// with an optional comma, the word Book, a number, and the closing
/// parenthesis at the end of the line.
///
/// The pieces, derived from the line's shape:
/// - the line must end with `)`, preceded by a non-empty digit run;
/// - " Book " must stand directly before the digits;
/// - the title is everything before the last " (" that still leaves room
///   for the group; the series is what sits between that "(" and the
///   optional comma before " Book".
pub open spec fn digits_start(s: Seq<char>, i: int) -> int
    decreases i,
{
    if i <= 0 || !(i - 1 >= 0 && i - 1 < s.len() && is_digit(s[i - 1])) {
        i
    } else {
        digits_start(s, i - 1)
    }
}

/// The digit-run start lies between zero and the end.
pub proof fn lemma_digits_start_bounds(s: Seq<char>, i: int)
    requires
        0 <= i <= s.len(),
    ensures
        0 <= digits_start(s, i) <= i,
        forall|k: int| digits_start(s, i) <= k < i ==> is_digit(#[trigger] s[k]),
        digits_start(s, i) > 0 ==> !is_digit(s[digits_start(s, i) - 1]) || digits_start(s, i)
            == 0,
    decreases i,
{
    if i > 0 && i - 1 < s.len() && is_digit(s[i - 1]) {
        lemma_digits_start_bounds(s, i - 1);
    }
}

/// The last position `q <= bound` where " (" stands, if any.
pub open spec fn last_open(s: Seq<char>, q: int) -> Option<int>
    decreases q + 1,
{
    if q < 0 {
        None
    } else if q + 1 < s.len() && s[q] == ' ' && s[q + 1] == '(' {
        Some(q)
    } else {
        last_open(s, q - 1)
    }
}

/// The marker word between the series name and its number.
pub open spec fn book_marker() -> Seq<char> {
    seq![' ', 'B', 'o', 'o', 'k', ' ']
}

/// The title, series and number read from one raw title line.
pub open spec fn parse_title_spec(l: Seq<char>) -> (Seq<char>, Option<Seq<char>>, Option<u32>) {
    if l.len() < 2 || l.last() != ')' {
        (l, None, None)
    } else {
        let ds = digits_start(l, l.len() - 1);
        if ds >= l.len() - 1 || ds < 6 {
            (l, None, None)
        } else if l.subrange(ds - 6, ds) != book_marker() {
            (l, None, None)
        } else {
            let digits = l.subrange(ds, l.len() - 1);
            if digits_val(digits) > u32::MAX {
                (l, None, None)
            } else {
                let xend = if ds >= 7 && l[ds - 7] == ',' {
                    ds - 7
                } else {
                    ds - 6
                };
                match last_open(l, xend - 2) {
                    None => (l, None, None),
                    Some(q) => (
                        l.take(q),
                        Some(l.subrange(q + 2, xend)),
                        Some(digits_val(digits) as u32),
                    ),
                }
            }
        }
    }
}

/// A found " (" lies inside the text at or before the bound.
pub proof fn lemma_last_open_bounds(s: Seq<char>, q: int)
    ensures
        match last_open(s, q) {
            Some(k) => 0 <= k <= q && k + 1 < s.len() && s[k] == ' ' && s[k + 1] == '(',
            None => true,
        },
    decreases q + 1,
{
    if q >= 0 && !(q + 1 < s.len() && s[q] == ' ' && s[q + 1] == '(') {
        lemma_last_open_bounds(s, q - 1);
    }
}

/// Finds the last " (" at or before `bound`, if any.
fn last_open_exec(v: &Vec<char>, bound: usize) -> (r: Option<usize>)
    requires
        bound < v@.len(),
    ensures
        match r {
            Some(k) => last_open(v@, bound as int) == Some(k as int) && k <= bound && k + 1
                < v@.len(),
            None => last_open(v@, bound as int) is None,
        },
{
    let mut q: usize = bound;
    loop
        invariant
            q <= bound < v@.len(),
            last_open(v@, bound as int) == last_open(v@, q as int),
        decreases q + 1,
    {
        if v.len() - q > 1 && v[q] == ' ' && v[q + 1] == '(' {
            return Some(q);
        }
        if q == 0 {
            proof {
                assert(last_open(v@, -1) is None);
            }
            return None;
        }
        q = q - 1;
    }
}

/// Splits one raw title line into title, series and number.
fn parse_title(line: &str) -> (r: (String, Option<String>, Option<u32>))
    ensures
        ({
            let s = parse_title_spec(line@);
            r.0@ == s.0 && crate::types::view_opt(r.1) == s.1 && r.2 == s.2
        }),
{
    let v = chars_of(line);
    let n = v.len();
    if n < 2 || v[n - 1] != ')' {
        return (line.to_owned(), None, None);
    }
    let mut ds: usize = n - 1;
    while ds > 0 && crate::text::is_digit_char(v[ds - 1])
        invariant
            ds <= n - 1,
            n == v@.len(),
            v@.len() <= usize::MAX,
            digits_start(v@, n - 1 as int) == digits_start(v@, ds as int),
        decreases ds,
    {
        ds = ds - 1;
    }
    proof {
        assert(digits_start(v@, ds as int) == ds as int);
    }
    if ds >= n - 1 || ds < 6 {
        return (line.to_owned(), None, None);
    }
    let marker = chars_of(" Book ");
    proof {
        reveal_strlit(" Book ");
        assert(marker@ =~= book_marker());
    }
    let mseg = slice_chars(&v, ds - 6, ds);
    if !crate::text::chars_eq(&mseg, &marker) {
        return (line.to_owned(), None, None);
    }
    let digits = slice_chars(&v, ds, n - 1);
    let num = match parse_u32(&digits) {
        Some(x) => x,
        None => {
            proof {
                assert(forall|k: int|
                    0 <= k < digits@.len() ==> is_digit(#[trigger] digits@[k])) by {
                    lemma_digits_start_bounds(v@, n - 1 as int);
                }
                assert(digits@.len() > 0);
            }
            return (line.to_owned(), None, None);
        },
    };
    let xend = if ds >= 7 && v[ds - 7] == ',' {
        ds - 7
    } else {
        ds - 6
    };
    if xend < 2 {
        proof {
            assert(last_open(v@, xend as int - 2) is None);
        }
        return (line.to_owned(), None, None);
    }
    match last_open_exec(&v, xend - 2) {
        Some(q) => {
            let title = slice_chars(&v, 0, q);
            let series = slice_chars(&v, q + 2, xend);
            proof {
                assert(v@.subrange(0, q as int) =~= v@.take(q as int));
            }
            (string_from_chars(&title), Some(string_from_chars(&series)), Some(num))
        },
        None => (line.to_owned(), None, None),
    }
}

impl Candidate {
    /// Wraps one raw title line and its raw author names.
    pub fn new(raw_line: &str, authors: Vec<String>) -> (r: Candidate)
        ensures
            r@.raw_title == raw_line@,
            r@.raw_authors == views(authors@),
    {
        Candidate { raw_title: String::from_str(raw_line), raw_authors: authors }
    }

    /// The title with any trailing series annotation removed.
    pub fn title(&self) -> (r: String)
        ensures
            r@ == parse_title_spec(self@.raw_title).0,
    {
        let (title, _, _) = parse_title(self.raw_title.as_str());
        title
    }

    /// The series name and number, when the raw title carries them.
    pub fn series(&self) -> (r: Option<(String, Option<u32>)>)
        ensures
            match r {
                Some(p) => parse_title_spec(self@.raw_title).1 == Some(p.0@) && p.1
                    == parse_title_spec(self@.raw_title).2,
                None => parse_title_spec(self@.raw_title).1 is None,
            },
    {
        let (_, series, num) = parse_title(self.raw_title.as_str());
        match series {
            Some(s) => Some((s, num)),
            None => None,
        }
    }

    /// The raw author names with duplicates removed. A repeated name keeps
    /// its latest position, as the order-keeping set the list is poured
    /// through moves a re-inserted element to the back.
    pub fn authors(&self) -> (r: Vec<String>)
        ensures
            views(r@) == dedup_move_back(Seq::empty(), self@.raw_authors),
    {
        let ghost raw = views(self.raw_authors@);
        let mut set = lhs_new();
        let mut i: usize = 0;
        while i < self.raw_authors.len()
            invariant
                i <= raw.len(),
                raw == views(self.raw_authors@),
                raw.len() == self.raw_authors@.len(),
                lhs_elems(&set) == dedup_move_back(Seq::empty(), raw.take(i as int)),
            decreases raw.len() - i,
        {
            proof {
                assert(raw.take(i + 1 as int) =~= raw.take(i as int).push(raw[i as int]));
                assert(raw[i as int] == self.raw_authors@[i as int]@);
                lemma_dedup_move_back_snoc(Seq::empty(), raw.take(i as int), raw[i as int]);
            }
            lhs_insert(&mut set, self.raw_authors[i].clone());
            i = i + 1;
        }
        proof {
            assert(raw.take(raw.len() as int) =~= raw);
        }
        lhs_into_vec(set)
    }
}

/// The first occurrence of `x` removed from `s`.
pub open spec fn seq_remove_first(s: Seq<Seq<char>>, x: Seq<char>) -> Seq<Seq<char>>
    decreases s.len(),
{
    if s.len() == 0 {
        Seq::empty()
    } else if s[0] == x {
        s.drop_first()
    } else {
        seq![s[0]] + seq_remove_first(s.drop_first(), x)
    }
}

/// Deduplication where a repeated element moves to the back: the fold of
/// inserting each element into an order-keeping set.
pub open spec fn dedup_move_back(acc: Seq<Seq<char>>, xs: Seq<Seq<char>>) -> Seq<Seq<char>>
    decreases xs.len(),
{
    if xs.len() == 0 {
        acc
    } else {
        let next = if acc.contains(xs[0]) {
            seq_remove_first(acc, xs[0]).push(xs[0])
        } else {
            acc.push(xs[0])
        };
        dedup_move_back(next, xs.drop_first())
    }
}

/// Folding one more element steps the move-to-back fold once at the end.
proof fn lemma_dedup_move_back_snoc(acc: Seq<Seq<char>>, xs: Seq<Seq<char>>, x: Seq<char>)
    ensures
        dedup_move_back(acc, xs.push(x)) == {
            let d = dedup_move_back(acc, xs);
            if d.contains(x) {
                seq_remove_first(d, x).push(x)
            } else {
                d.push(x)
            }
        },
    decreases xs.len(),
{
    let single = xs.push(x);
    if xs.len() == 0 {
        assert(single[0] == x);
        assert(single.drop_first() =~= Seq::<Seq<char>>::empty());
        let nx = if acc.contains(x) {
            seq_remove_first(acc, x).push(x)
        } else {
            acc.push(x)
        };
        assert(dedup_move_back(nx, single.drop_first()) == nx);
        assert(dedup_move_back(acc, single) == nx);
        assert(dedup_move_back(acc, xs) == acc);
    } else {
        let next = if acc.contains(xs[0]) {
            seq_remove_first(acc, xs[0]).push(xs[0])
        } else {
            acc.push(xs[0])
        };
        assert(single[0] == xs[0]);
        assert(single.drop_first() =~= xs.drop_first().push(x));
        assert(dedup_move_back(acc, single) == dedup_move_back(next, single.drop_first()));
        assert(dedup_move_back(acc, xs) == dedup_move_back(next, xs.drop_first()));
        lemma_dedup_move_back_snoc(next, xs.drop_first(), x);
    }
}

/// What an order-keeping set holds, front to back.
pub uninterp spec fn lhs_elems(s: &linked_hash_set::LinkedHashSet<String>) -> Seq<Seq<char>>;

#[verifier::external_type_specification]
#[verifier::external_body]
#[verifier::reject_recursive_types(T)]
#[verifier::reject_recursive_types(S)]
pub struct ExLinkedHashSet<T, S>(linked_hash_set::LinkedHashSet<T, S>);

/// Relies on linked_hash_set::LinkedHashSet::new: a new set is empty.
#[verifier::external_body]
fn lhs_new() -> (r: linked_hash_set::LinkedHashSet<String>)
    ensures
        lhs_elems(&r) == Seq::<Seq<char>>::empty(),
{
    linked_hash_set::LinkedHashSet::new()
}

/// Relies on linked_hash_set::LinkedHashSet::insert (backed by
/// linked_hash_map's insert): inserting a value already present updates
/// its list position to the back and returns false; a new value is
/// appended at the back and true is returned.
#[verifier::external_body]
fn lhs_insert(s: &mut linked_hash_set::LinkedHashSet<String>, v: String) -> (r: bool)
    ensures
        r == !lhs_elems(old(s)).contains(v@),
        lhs_elems(final(s)) == if lhs_elems(old(s)).contains(v@) {
            seq_remove_first(lhs_elems(old(s)), v@).push(v@)
        } else {
            lhs_elems(old(s)).push(v@)
        },
{
    s.insert(v)
}

/// Relies on linked_hash_set::LinkedHashSet::into_iter: iteration yields
/// the elements in list order, front to back.
#[verifier::external_body]
fn lhs_into_vec(s: linked_hash_set::LinkedHashSet<String>) -> (r: Vec<String>)
    ensures
        views(r@) == lhs_elems(&s),
{
    s.into_iter().collect()
}

/// The marker line that opens the listing.
pub open spec fn notes_marker() -> Seq<char> {
    "Notes & Highlights"@
}

/// Where the paste scan stands: before the marker, expecting a title, or
/// expecting an author line for a title; the last line seen is kept to
/// skip immediate repeats.
pub ghost enum PasteStateView {
    /// Before the marker line.
    Await,
    /// Expecting a title; the previous line.
    ExpectTitle(Seq<char>),
    /// Expecting an author line; the pending title and the previous line.
    ExpectAuthor(Seq<char>, Seq<char>),
}

/// An author line split on semicolons, each name trimmed, empty names
/// kept.
pub open spec fn semi_names_from(s: Seq<char>, i: int, cur: Seq<char>, acc: Seq<Seq<char>>) -> Seq<
    Seq<char>,
>
    decreases s.len() - i,
{
    if i < 0 || i >= s.len() {
        acc.push(trim_spec(cur))
    } else if s[i] == ';' {
        semi_names_from(s, i + 1, Seq::empty(), acc.push(trim_spec(cur)))
    } else {
        semi_names_from(s, i + 1, cur.push(s[i]), acc)
    }
}

/// The author names of one author line.
pub open spec fn semi_names(s: Seq<char>) -> Seq<Seq<char>> {
    semi_names_from(s, 0, Seq::empty(), Seq::empty())
}

/// One step of the paste scan: the next state and the candidate finished
/// by this line, if any. Blank lines and lines repeating their predecessor
/// are skipped; otherwise titles and author lines alternate once the
/// marker line has passed.
pub open spec fn paste_step(st: PasteStateView, line: Seq<char>) -> (
    PasteStateView,
    Option<CandidateView>,
) {
    match st {
        PasteStateView::Await => {
            if line == notes_marker() {
                (PasteStateView::ExpectTitle(line), None)
            } else {
                (PasteStateView::Await, None)
            }
        },
        PasteStateView::ExpectTitle(prev) => {
            if line.len() == 0 || line == prev {
                (PasteStateView::ExpectTitle(prev), None)
            } else {
                (PasteStateView::ExpectAuthor(line, line), None)
            }
        },
        PasteStateView::ExpectAuthor(title, prev) => {
            if line.len() == 0 || line == prev {
                (PasteStateView::ExpectAuthor(title, prev), None)
            } else {
                (
                    PasteStateView::ExpectTitle(line),
                    Some(CandidateView { raw_title: title, raw_authors: semi_names(line) }),
                )
            }
        },
    }
}

/// The candidates of a whole paste, from line `i` on.
pub open spec fn paste_run(
    lines: Seq<Seq<char>>,
    i: int,
    st: PasteStateView,
    acc: Seq<CandidateView>,
) -> Seq<CandidateView>
    decreases lines.len() - i,
{
    if i < 0 || i >= lines.len() {
        acc
    } else {
        let step = paste_step(st, lines[i]);
        paste_run(lines, i + 1, step.0, match step.1 {
            Some(c) => acc.push(c),
            None => acc,
        })
    }
}

/// The candidates a whole paste yields.
pub open spec fn paste_candidates(lines: Seq<Seq<char>>) -> Seq<CandidateView> {
    paste_run(lines, 0, PasteStateView::Await, Seq::empty())
}

/// Splits one author line on semicolons, trimming each name.
fn split_semicolons(line: &str) -> (r: Vec<String>)
    ensures
        views(r@) == semi_names(line@),
{
    let v = chars_of(line);
    let mut acc: Vec<String> = Vec::new();
    let mut cur: Vec<char> = Vec::new();
    let mut i: usize = 0;
    proof {
        assert(views(acc@) =~= Seq::<Seq<char>>::empty());
    }
    while i < v.len()
        invariant
            i <= v@.len(),
            v@ == line@,
            semi_names(line@) == semi_names_from(v@, i as int, cur@, views(acc@)),
        decreases v@.len() - i,
    {
        let c = v[i];
        if c == ';' {
            let t = trim_chars(&cur);
            let ghost pre = views(acc@);
            acc.push(string_from_chars(&t));
            proof {
                assert(views(acc@) =~= pre.push(trim_spec(cur@)));
            }
            cur = Vec::new();
        } else {
            cur.push(c);
        }
        i = i + 1;
    }
    let t = trim_chars(&cur);
    let ghost pre = views(acc@);
    acc.push(string_from_chars(&t));
    proof {
        assert(views(acc@) =~= pre.push(trim_spec(cur@)));
    }
    acc
}

/// Scans the lines of a pasted library listing into candidates: after the
/// marker line, titles and author lines alternate; blank lines and lines
/// repeating their predecessor are skipped.
pub fn parse_paste(lines: &Vec<String>) -> (r: Vec<Candidate>)
    ensures
        r@.map_values(|c: Candidate| c@) == paste_candidates(views(lines@)),
{
    let ghost lv = views(lines@);
    let mut out: Vec<Candidate> = Vec::new();
    // The scan state: 0 awaits the marker, 1 expects a title, 2 expects an
    // author line for `pending`.
    let mut state: u8 = 0;
    let mut pending: String = String::new();
    let mut prev: String = String::new();
    let marker = String::from_str("Notes & Highlights");
    let ghost mut stv = PasteStateView::Await;
    let mut i: usize = 0;
    proof {
        assert(out@.map_values(|c: Candidate| c@) =~= Seq::<CandidateView>::empty());
    }
    while i < lines.len()
        invariant
            i <= lv.len(),
            lv == views(lines@),
            lv.len() == lines@.len(),
            marker@ == notes_marker(),
            paste_candidates(lv) == paste_run(
                lv,
                i as int,
                stv,
                out@.map_values(|c: Candidate| c@),
            ),
            stv == (if state == 0 {
                PasteStateView::Await
            } else if state == 1 {
                PasteStateView::ExpectTitle(prev@)
            } else {
                PasteStateView::ExpectAuthor(pending@, prev@)
            }),
            state <= 2,
        decreases lv.len() - i,
    {
        proof {
            assert(lv[i as int] == lines@[i as int]@);
            assert(paste_run(lv, i as int, stv, out@.map_values(|c: Candidate| c@)) == paste_run(
                lv,
                i + 1,
                paste_step(stv, lv[i as int]).0,
                match paste_step(stv, lv[i as int]).1 {
                    Some(c) => out@.map_values(|c2: Candidate| c2@).push(c),
                    None => out@.map_values(|c2: Candidate| c2@),
                },
            ));
        }
        let line = &lines[i];
        let ghost step = paste_step(stv, lv[i as int]);
        if state == 0 {
            if *line == marker {
                prev = line.clone();
                state = 1;
            }
        } else if state == 1 {
            if line.unicode_len() > 0 && !(*line == prev) {
                pending = line.clone();
                prev = line.clone();
                state = 2;
            }
        } else {
            if line.unicode_len() > 0 && !(*line == prev) {
                let names = split_semicolons(line.as_str());
                let cand = Candidate { raw_title: pending.clone(), raw_authors: names };
                let ghost pre = out@.map_values(|c: Candidate| c@);
                out.push(cand);
                proof {
                    assert(out@.map_values(|c: Candidate| c@) =~= pre.push(
                        CandidateView {
                            raw_title: pending@,
                            raw_authors: semi_names(lv[i as int]),
                        },
                    ));
                }
                prev = line.clone();
                state = 1;
            }
        }
        proof {
            stv = step.0;
        }
        i = i + 1;
    }
    out
}

} // verus!
