//! Character-level text utilities shared by the query builder, the
//! importers and the sync progress reporting.
//!
//! All executable functions work on `Vec<char>` so that every contract can
//! speak of the same `Seq<char>` view that `String` and `&str` have.

use vstd::prelude::*;

verus! {

/// The whitespace characters recognized when tokenizing filter values.
pub open spec fn is_ws(c: char) -> bool {
    c == ' ' || c == '\t' || c == '\n' || c == '\r'
}

/// The views of a sequence of owned strings.
pub open spec fn views(l: Seq<String>) -> Seq<Seq<char>> {
    l.map_values(|s: String| s@)
}

/// `n` occurs in `h` starting at position `i`.
pub open spec fn matches_at(h: Seq<char>, i: int, n: Seq<char>) -> bool {
    0 <= i && i + n.len() <= h.len() && h.subrange(i, i + n.len()) == n
}

/// `n` occurs somewhere in `h`.
pub open spec fn contains_seq(h: Seq<char>, n: Seq<char>) -> bool {
    exists|i: int| matches_at(h, i, n)
}

/// Appends one character to a `String`.
///
/// Relies on `String::push`: the standard library appends the given
/// character to the end of the string.
#[verifier::external_body]
pub(crate) fn push_char(s: &mut String, c: char)
    ensures
        final(s)@ == old(s)@.push(c),
{
    s.push(c);
}

/// The characters of a string slice, as an indexable vector.
pub fn chars_of(s: &str) -> (v: Vec<char>)
    ensures
        v@ == s@,
{
    let n = s.unicode_len();
    let mut v: Vec<char> = Vec::new();
    let mut i: usize = 0;
    while i < n
        invariant
            i <= n,
            n == s@.len(),
            v@ == s@.take(i as int),
        decreases n - i,
    {
        v.push(s.get_char(i));
        proof {
            assert(s@.take(i + 1 as int) == s@.take(i as int).push(s@[i as int]));
        }
        i = i + 1;
    }
    proof {
        assert(s@.take(n as int) == s@);
    }
    v
}

/// Builds an owned string out of a vector of characters.
pub fn string_from_chars(v: &Vec<char>) -> (s: String)
    ensures
        s@ == v@,
{
    let mut s = String::new();
    let mut i: usize = 0;
    while i < v.len()
        invariant
            i <= v@.len(),
            s@ == v@.take(i as int),
        decreases v@.len() - i,
    {
        push_char(&mut s, v[i]);
        proof {
            assert(v@.take(i + 1 as int) == v@.take(i as int).push(v@[i as int]));
        }
        i = i + 1;
    }
    proof {
        assert(v@.take(v@.len() as int) == v@);
    }
    s
}

/// Whether a string slice and an owned string hold the same characters.
pub fn str_eq_string(a: &str, b: &String) -> (r: bool)
    ensures
        r == (a@ == b@),
{
    let owned = a.to_owned();
    owned == *b
}

/// Character-wise equality of two vectors.
pub fn chars_eq(a: &Vec<char>, b: &Vec<char>) -> (r: bool)
    ensures
        r == (a@ == b@),
{
    if a.len() != b.len() {
        return false;
    }
    let mut i: usize = 0;
    while i < a.len()
        invariant
            i <= a@.len(),
            a@.len() == b@.len(),
            forall|k: int| 0 <= k < i ==> a@[k] == b@[k],
        decreases a@.len() - i,
    {
        if a[i] != b[i] {
            return false;
        }
        i = i + 1;
    }
    proof {
        assert(a@ =~= b@);
    }
    true
}

/// Whether `n` occurs in `h` at position `i`.
pub fn match_at(h: &Vec<char>, i: usize, n: &Vec<char>) -> (r: bool)
    ensures
        r == matches_at(h@, i as int, n@),
{
    if i > h.len() || h.len() - i < n.len() {
        return false;
    }
    let mut j: usize = 0;
    while j < n.len()
        invariant
            j <= n@.len(),
            i + n@.len() <= h@.len(),
            h@.len() <= usize::MAX,
            forall|k: int| 0 <= k < j ==> h@[i + k] == n@[k],
        decreases n@.len() - j,
    {
        if h[i + j] != n[j] {
            proof {
                assert(h@.subrange(i as int, i + n@.len()) != n@) by {
                    assert(h@.subrange(i as int, i + n@.len())[j as int] == h@[i + j]);
                }
            }
            return false;
        }
        j = j + 1;
    }
    proof {
        assert(h@.subrange(i as int, i + n@.len()) =~= n@);
    }
    true
}

/// The first position at or after `start` where `n` occurs in `h`, if any.
pub fn find_from(h: &Vec<char>, start: usize, n: &Vec<char>) -> (r: Option<usize>)
    ensures
        match r {
            Some(i) => start <= i && matches_at(h@, i as int, n@) && forall|k: int|
                start <= k < i ==> !matches_at(h@, k, n@),
            None => forall|k: int| start <= k ==> !matches_at(h@, k, n@),
        },
{
    let mut i: usize = start;
    while i < h.len()
        invariant
            start <= i,
            forall|k: int| start <= k < i ==> !matches_at(h@, k, n@),
        decreases h@.len() - i,
    {
        if match_at(h, i, n) {
            return Some(i);
        }
        i = i + 1;
    }
    if start <= h.len() && match_at(h, h.len(), n) {
        return Some(h.len());
    }
    proof {
        assert(forall|k: int| k > h@.len() ==> !matches_at(h@, k, n@));
    }
    None
}

/// A copy of the characters of `v` between `from` and `to`.
pub fn slice_chars(v: &Vec<char>, from: usize, to: usize) -> (r: Vec<char>)
    requires
        from <= to <= v@.len(),
    ensures
        r@ == v@.subrange(from as int, to as int),
{
    let mut r: Vec<char> = Vec::new();
    let mut i: usize = from;
    while i < to
        invariant
            from <= i <= to <= v@.len(),
            r@ == v@.subrange(from as int, i as int),
        decreases to - i,
    {
        r.push(v[i]);
        proof {
            assert(v@.subrange(from as int, i + 1 as int)
                =~= v@.subrange(from as int, i as int).push(v@[i as int]));
        }
        i = i + 1;
    }
    r
}

/// The whitespace-separated tokens of `s` from position `i` on, given the
/// token collected so far.
pub open spec fn ws_tokens_from(s: Seq<char>, i: int, cur: Seq<char>) -> Seq<Seq<char>>
    decreases s.len() - i,
{
    if i < 0 || i >= s.len() {
        if cur.len() > 0 {
            seq![cur]
        } else {
            Seq::empty()
        }
    } else if is_ws(s[i]) {
        if cur.len() > 0 {
            seq![cur] + ws_tokens_from(s, i + 1, Seq::empty())
        } else {
            ws_tokens_from(s, i + 1, Seq::empty())
        }
    } else {
        ws_tokens_from(s, i + 1, cur.push(s[i]))
    }
}

/// The whitespace-separated tokens of `s`.
pub open spec fn ws_tokens(s: Seq<char>) -> Seq<Seq<char>> {
    ws_tokens_from(s, 0, Seq::empty())
}

/// Splits on whitespace, dropping empty tokens.
pub fn split_ws(s: &Vec<char>) -> (r: Vec<Vec<char>>)
    ensures
        r@.map_values(|t: Vec<char>| t@) == ws_tokens(s@),
{
    let ghost whole: Seq<Seq<char>> = ws_tokens(s@);
    let mut out: Vec<Vec<char>> = Vec::new();
    let mut cur: Vec<char> = Vec::new();
    let mut i: usize = 0;
    while i < s.len()
        invariant
            i <= s@.len(),
            whole == ws_tokens(s@),
            whole == out@.map_values(|t: Vec<char>| t@) + ws_tokens_from(s@, i as int, cur@),
        decreases s@.len() - i,
    {
        let ghost curv = cur@;
        let ghost outv = out@.map_values(|t: Vec<char>| t@);
        let c = s[i];
        if c == ' ' || c == '\t' || c == '\n' || c == '\r' {
            proof {
                assert(is_ws(s@[i as int]));
            }
            if cur.len() > 0 {
                out.push(cur);
                proof {
                    assert(out@.map_values(|t: Vec<char>| t@) =~= outv.push(curv));
                    assert(ws_tokens_from(s@, i as int, curv)
                        == seq![curv] + ws_tokens_from(s@, i + 1, Seq::empty()));
                    assert(outv + (seq![curv] + ws_tokens_from(s@, i + 1, Seq::empty()))
                        =~= outv.push(curv) + ws_tokens_from(s@, i + 1, Seq::empty()));
                }
                cur = Vec::new();
            } else {
                proof {
                    assert(ws_tokens_from(s@, i as int, curv)
                        == ws_tokens_from(s@, i + 1, Seq::empty()));
                    assert(curv =~= Seq::<char>::empty());
                }
            }
        } else {
            proof {
                assert(!is_ws(s@[i as int]));
                assert(ws_tokens_from(s@, i as int, curv)
                    == ws_tokens_from(s@, i + 1, curv.push(s@[i as int])));
            }
            cur.push(c);
        }
        i = i + 1;
    }
    if cur.len() > 0 {
        let ghost prev = out@;
        out.push(cur);
        proof {
            assert(out@.map_values(|t: Vec<char>| t@)
                =~= prev.map_values(|t: Vec<char>| t@).push(cur@));
        }
    }
    proof {
        assert(whole =~= out@.map_values(|t: Vec<char>| t@));
    }
    out
}

/// The concatenation of `l` with `sep` between consecutive elements.
pub open spec fn join_sep(l: Seq<Seq<char>>, sep: Seq<char>) -> Seq<char>
    decreases l.len(),
{
    if l.len() == 0 {
        Seq::empty()
    } else if l.len() == 1 {
        l[0]
    } else {
        l[0] + sep + join_sep(l.drop_first(), sep)
    }
}

/// Appending one element to a joined list appends a separator and the element.
pub proof fn lemma_join_push(l: Seq<Seq<char>>, sep: Seq<char>, x: Seq<char>)
    ensures
        join_sep(l.push(x), sep) == if l.len() == 0 {
            x
        } else {
            join_sep(l, sep) + sep + x
        },
    decreases l.len(),
{
    if l.len() == 0 {
        assert(l.push(x)[0] == x);
    } else {
        lemma_join_push(l.drop_first(), sep, x);
        assert(l.push(x).drop_first() =~= l.drop_first().push(x));
        if l.len() == 1 {
            assert(join_sep(l.push(x), sep) =~= join_sep(l, sep) + sep + x);
        } else {
            assert(join_sep(l.push(x), sep) =~= join_sep(l, sep) + sep + x);
        }
    }
}

/// Joins a list of character vectors with the given separator.
pub fn join_chars(parts: &Vec<Vec<char>>, sep: &Vec<char>) -> (r: Vec<char>)
    ensures
        r@ == join_sep(parts@.map_values(|t: Vec<char>| t@), sep@),
{
    let ghost lv: Seq<Seq<char>> = parts@.map_values(|t: Vec<char>| t@);
    let mut r: Vec<char> = Vec::new();
    let mut i: usize = 0;
    while i < parts.len()
        invariant
            i <= parts@.len(),
            lv == parts@.map_values(|t: Vec<char>| t@),
            r@ == join_sep(lv.take(i as int), sep@),
        decreases parts@.len() - i,
    {
        if i > 0 {
            r.extend_from_slice(sep.as_slice());
        }
        r.extend_from_slice(parts[i].as_slice());
        proof {
            lemma_join_push(lv.take(i as int), sep@, lv[i as int]);
            assert(lv.take(i + 1 as int) =~= lv.take(i as int).push(lv[i as int]));
        }
        i = i + 1;
    }
    proof {
        assert(lv.take(parts@.len() as int) =~= lv);
    }
    r
}

/// `s` with leading whitespace removed.
pub open spec fn trim_start_spec(s: Seq<char>) -> Seq<char>
    decreases s.len(),
{
    if s.len() > 0 && is_ws(s[0]) {
        trim_start_spec(s.drop_first())
    } else {
        s
    }
}

/// `s` with trailing whitespace removed.
pub open spec fn trim_end_spec(s: Seq<char>) -> Seq<char>
    decreases s.len(),
{
    if s.len() > 0 && is_ws(s.last()) {
        trim_end_spec(s.drop_last())
    } else {
        s
    }
}

/// `s` with surrounding whitespace removed.
pub open spec fn trim_spec(s: Seq<char>) -> Seq<char> {
    trim_end_spec(trim_start_spec(s))
}

/// Whether `c` is one of the recognized whitespace characters.
pub fn is_ws_char(c: char) -> (r: bool)
    ensures
        r == is_ws(c),
{
    c == ' ' || c == '\t' || c == '\n' || c == '\r'
}

/// Removes leading and trailing whitespace.
pub fn trim_chars(v: &Vec<char>) -> (r: Vec<char>)
    ensures
        r@ == trim_spec(v@),
{
    let mut lo: usize = 0;
    proof {
        assert(v@.skip(0) =~= v@);
    }
    while lo < v.len() && is_ws_char(v[lo])
        invariant
            lo <= v@.len(),
            trim_start_spec(v@) == trim_start_spec(v@.skip(lo as int)),
        decreases v@.len() - lo,
    {
        proof {
            assert(v@.skip(lo as int).drop_first() =~= v@.skip(lo + 1 as int));
        }
        lo = lo + 1;
    }
    proof {
        assert(trim_start_spec(v@) == v@.skip(lo as int));
    }
    let ghost s2: Seq<char> = v@.skip(lo as int);
    let mut hi: usize = v.len() - lo;
    proof {
        assert(s2.take(hi as int) =~= s2);
    }
    while hi > 0 && is_ws_char(v[lo + hi - 1])
        invariant
            lo + hi <= v@.len(),
            v@.len() <= usize::MAX,
            s2 == v@.skip(lo as int),
            trim_end_spec(s2) == trim_end_spec(s2.take(hi as int)),
        decreases hi,
    {
        proof {
            assert(s2.take(hi as int).last() == v@[lo + hi - 1]);
            assert(s2.take(hi as int).drop_last() =~= s2.take(hi - 1 as int));
        }
        hi = hi - 1;
    }
    proof {
        if hi > 0 {
            assert(s2.take(hi as int).last() == v@[lo + hi - 1]);
        }
        assert(trim_end_spec(s2.take(hi as int)) == s2.take(hi as int));
        assert(s2.take(hi as int) =~= v@.subrange(lo as int, lo + hi as int));
    }
    slice_chars(v, lo, lo + hi)
}

/// `s` from position `i` on with every occurrence of `pat` replaced by
/// `rep`, appended to `acc`. Matches are found left to right and do not
/// overlap.
pub open spec fn replace_from(
    s: Seq<char>,
    i: int,
    pat: Seq<char>,
    rep: Seq<char>,
    acc: Seq<char>,
) -> Seq<char>
    decreases s.len() - i,
{
    if i < 0 || i >= s.len() {
        acc
    } else if pat.len() > 0 && matches_at(s, i, pat) {
        replace_from(s, i + pat.len(), pat, rep, acc + rep)
    } else {
        replace_from(s, i + 1, pat, rep, acc.push(s[i]))
    }
}

/// `s` with every occurrence of `pat` replaced by `rep`.
pub open spec fn replace_seq(s: Seq<char>, pat: Seq<char>, rep: Seq<char>) -> Seq<char> {
    replace_from(s, 0, pat, rep, Seq::empty())
}

/// Replaces every occurrence of `pat` in `v` with `rep`, left to right.
pub fn replace_chars(v: &Vec<char>, pat: &Vec<char>, rep: &Vec<char>) -> (r: Vec<char>)
    requires
        pat@.len() > 0,
    ensures
        r@ == replace_seq(v@, pat@, rep@),
{
    let mut acc: Vec<char> = Vec::new();
    let mut i: usize = 0;
    while i < v.len()
        invariant
            i <= v@.len(),
            pat@.len() > 0,
            replace_seq(v@, pat@, rep@) == replace_from(v@, i as int, pat@, rep@, acc@),
        decreases v@.len() - i,
    {
        let ghost accv = acc@;
        if match_at(v, i, pat) {
            proof {
                assert(replace_from(v@, i as int, pat@, rep@, accv)
                    == replace_from(v@, i + pat@.len(), pat@, rep@, accv + rep@));
            }
            acc.extend_from_slice(rep.as_slice());
            proof {
                assert(acc@ =~= accv + rep@);
            }
            i = i + pat.len();
        } else {
            proof {
                assert(replace_from(v@, i as int, pat@, rep@, accv)
                    == replace_from(v@, i + 1, pat@, rep@, accv.push(v@[i as int])));
            }
            acc.push(v[i]);
            i = i + 1;
        }
    }
    acc
}

/// The decimal digit character for `d`.
pub open spec fn dec_digit(d: nat) -> char {
    (('0' as u32) + d as u32) as char
}

/// The decimal rendering of `n`, most significant digit first.
pub open spec fn dec_str(n: nat) -> Seq<char>
    decreases n,
{
    if n < 10 {
        seq![dec_digit(n)]
    } else {
        dec_str(n / 10).push(dec_digit(n % 10))
    }
}

/// Renders `n` in decimal.
pub fn u64_to_chars(n: u64) -> (r: Vec<char>)
    ensures
        r@ == dec_str(n as nat),
{
    let mut digits: Vec<char> = Vec::new();
    let mut x: u64 = n;
    if x == 0 {
        digits.push('0');
        return digits;
    }
    while x > 0
        invariant
            x > 0 ==> dec_str(n as nat) == dec_str(x as nat) + digits@.reverse(),
            x == 0 ==> dec_str(n as nat) == digits@.reverse(),
        decreases x,
    {
        let d: u8 = (x % 10) as u8;
        let c: char = (48u8 + d) as char;
        proof {
            assert(c == dec_digit((x as nat) % 10));
            let ghost px = x as nat;
            let ghost pd = digits@;
            assert(pd.push(dec_digit(px % 10)).reverse()
                =~= seq![dec_digit(px % 10)] + pd.reverse());
            if px >= 10 {
                assert(dec_str(px) == dec_str(px / 10).push(dec_digit(px % 10)));
                assert(dec_str(px / 10) + pd.push(dec_digit(px % 10)).reverse()
                    =~= dec_str(px / 10).push(dec_digit(px % 10)) + pd.reverse());
            } else {
                assert(dec_str(px) =~= seq![dec_digit(px)]);
                assert(pd.push(dec_digit(px)).reverse() =~= dec_str(px) + pd.reverse());
            }
        }
        digits.push(c);
        x = x / 10;
    }
    let mut out: Vec<char> = Vec::new();
    let mut i: usize = digits.len();
    while i > 0
        invariant
            i <= digits@.len(),
            out@ == digits@.reverse().take(digits@.len() - i),
        decreases i,
    {
        i = i - 1;
        out.push(digits[i]);
        proof {
            assert(digits@.reverse().take(digits@.len() - i)
                =~= digits@.reverse().take(digits@.len() - (i + 1)).push(digits@[i as int]));
        }
    }
    proof {
        assert(digits@.reverse().take(digits@.len() as int) =~= digits@.reverse());
    }
    out
}

/// `c` is a decimal digit.
pub open spec fn is_digit(c: char) -> bool {
    ('0' as u32) <= (c as u32) && (c as u32) <= ('9' as u32)
}

/// Every character of `s` is a decimal digit.
pub open spec fn all_digits(s: Seq<char>) -> bool {
    forall|i: int| 0 <= i < s.len() ==> is_digit(#[trigger] s[i])
}

/// Whether `c` is a decimal digit.
pub fn is_digit_char(c: char) -> (r: bool)
    ensures
        r == is_digit(c),
{
    let v = c as u32;
    48 <= v && v <= 57
}

/// The numeric value of a digit string, most significant digit first.
pub open spec fn digits_val(s: Seq<char>) -> nat
    decreases s.len(),
{
    if s.len() == 0 {
        0
    } else {
        digits_val(s.drop_last()) * 10 + ((s.last() as u32) - ('0' as u32)) as nat
    }
}

/// Parses a non-empty all-digit vector as a `u32`; `None` when the input is
/// empty, contains a non-digit, or overflows.
pub fn parse_u32(v: &Vec<char>) -> (r: Option<u32>)
    ensures
        match r {
            Some(x) => v@.len() > 0 && all_digits(v@) && x as nat == digits_val(v@),
            None => v@.len() == 0 || !all_digits(v@) || digits_val(v@) > u32::MAX,
        },
{
    if v.len() == 0 {
        return None;
    }
    let mut acc: u32 = 0;
    let mut i: usize = 0;
    while i < v.len()
        invariant
            i <= v@.len(),
            acc as nat == digits_val(v@.take(i as int)),
            forall|k: int| 0 <= k < i ==> is_digit(#[trigger] v@[k]),
        decreases v@.len() - i,
    {
        let c = v[i];
        let cv = c as u32;
        if cv < '0' as u32 || cv > '9' as u32 {
            return None;
        }
        let d: u32 = cv - '0' as u32;
        let step = match acc.checked_mul(10) {
            Some(m) => m.checked_add(d),
            None => None,
        };
        match step {
            Some(x) => {
                proof {
                    assert(v@.take(i + 1 as int).drop_last() =~= v@.take(i as int));
                    assert(v@.take(i + 1 as int).last() == v@[i as int]);
                }
                acc = x;
            },
            None => {
                proof {
                    assert(v@.take(i + 1 as int).drop_last() =~= v@.take(i as int));
                    assert(v@.take(i + 1 as int).last() == v@[i as int]);
                    lemma_digits_val_monotonic(v@, i + 1 as int);
                }
                return None;
            },
        }
        i = i + 1;
    }
    proof {
        assert(v@.take(v@.len() as int) =~= v@);
    }
    Some(acc)
}

/// A digit string is worth at least as much as any of its prefixes.
pub proof fn lemma_digits_val_monotonic(s: Seq<char>, i: int)
    requires
        0 <= i <= s.len(),
    ensures
        digits_val(s.take(i)) <= digits_val(s),
    decreases s.len() - i,
{
    if i < s.len() {
        lemma_digits_val_monotonic(s, i + 1);
        assert(s.take(i + 1).drop_last() =~= s.take(i));
        assert(digits_val(s.take(i)) <= digits_val(s.take(i + 1)));
    } else {
        assert(s.take(i) =~= s);
    }
}

/// Byte-order (code point) lexicographic comparison: `a` sorts at or before
/// `b`.
pub open spec fn lex_le(a: Seq<char>, b: Seq<char>) -> bool
    decreases a.len(),
{
    if a.len() == 0 {
        true
    } else if b.len() == 0 {
        false
    } else if (a[0] as u32) < (b[0] as u32) {
        true
    } else if (a[0] as u32) > (b[0] as u32) {
        false
    } else {
        lex_le(a.drop_first(), b.drop_first())
    }
}

/// Lexicographic order is total.
pub proof fn lemma_lex_total(a: Seq<char>, b: Seq<char>)
    ensures
        lex_le(a, b) || lex_le(b, a),
    decreases a.len(),
{
    if a.len() == 0 {
        assert(lex_le(a, b));
    } else if b.len() == 0 {
        assert(lex_le(b, a));
    } else if (a[0] as u32) < (b[0] as u32) {
        assert(lex_le(a, b));
    } else if (a[0] as u32) > (b[0] as u32) {
        assert(lex_le(b, a));
    } else {
        lemma_lex_total(a.drop_first(), b.drop_first());
    }
}

/// Lexicographic order is transitive.
pub proof fn lemma_lex_trans(a: Seq<char>, b: Seq<char>, c: Seq<char>)
    requires
        lex_le(a, b),
        lex_le(b, c),
    ensures
        lex_le(a, c),
    decreases a.len(),
{
    if a.len() == 0 {
        assert(lex_le(a, c));
    } else if b.len() > 0 && c.len() > 0 {
        if (a[0] as u32) == (b[0] as u32) && (b[0] as u32) == (c[0] as u32) {
            lemma_lex_trans(a.drop_first(), b.drop_first(), c.drop_first());
        } else {
            assert((a[0] as u32) <= (b[0] as u32) && (b[0] as u32) <= (c[0] as u32));
            assert((a[0] as u32) < (c[0] as u32));
        }
    }
}

/// Compares two character vectors lexicographically.
pub fn lex_le_chars(a: &Vec<char>, b: &Vec<char>) -> (r: bool)
    ensures
        r == lex_le(a@, b@),
{
    let mut i: usize = 0;
    proof {
        assert(a@.skip(0) =~= a@);
        assert(b@.skip(0) =~= b@);
    }
    while i < a.len() && i < b.len()
        invariant
            i <= a@.len(),
            i <= b@.len(),
            lex_le(a@, b@) == lex_le(a@.skip(i as int), b@.skip(i as int)),
        decreases a@.len() - i,
    {
        let ca = a[i] as u32;
        let cb = b[i] as u32;
        proof {
            assert(a@.skip(i as int)[0] == a@[i as int]);
            assert(b@.skip(i as int)[0] == b@[i as int]);
        }
        if ca < cb {
            return true;
        }
        if ca > cb {
            return false;
        }
        proof {
            assert(a@.skip(i as int).drop_first() =~= a@.skip(i + 1 as int));
            assert(b@.skip(i as int).drop_first() =~= b@.skip(i + 1 as int));
        }
        i = i + 1;
    }
    i >= a.len()
}

} // verus!

