//! The query builder.
//!
//! Search filter chips are rendered to the lexical engine's match syntax,
//! and browse filters to parameterized predicate text. Escaping is
//! centralized here: a quote inside a chip value is doubled, never
//! stripped, so the rendered term stays syntactically valid and keeps the
//! literal value. Browse predicate text never embeds a filter value — the
//! values travel separately as parameters.

use vstd::prelude::*;

use crate::text::{
    chars_of, dec_str, is_ws_char, join_chars, join_sep, split_ws, string_from_chars,
    u64_to_chars, ws_tokens,
};
use crate::types::{Filter, FilterView, SearchFilter, SearchFilterView};

verus! {

/// A chip value with every quote doubled.
pub open spec fn fts_escape(v: Seq<char>) -> Seq<char>
    decreases v.len(),
{
    if v.len() == 0 {
        Seq::empty()
    } else {
        let head = if v[0] == '"' {
            seq!['"', '"']
        } else {
            seq![v[0]]
        };
        head + fts_escape(v.drop_first())
    }
}

/// A quoted-phrase term: the escaped value between two quotes.
pub open spec fn fts_phrase(v: Seq<char>) -> Seq<char> {
    seq!['"'] + fts_escape(v) + seq!['"']
}

/// The required terms one chip contributes. An author chip is tokenized on
/// whitespace and each token becomes its own term restricted to the authors
/// field; the other known fields contribute a single phrase term restricted
/// to that field; any other field contributes one unrestricted phrase term.
pub open spec fn chip_terms(f: SearchFilterView) -> Seq<Seq<char>> {
    if f.field == "author"@ {
        ws_tokens(f.value).map_values(|t: Seq<char>| "authors:"@ + fts_phrase(t))
    } else if f.field == "title"@ {
        seq!["title:"@ + fts_phrase(f.value)]
    } else if f.field == "description"@ {
        seq!["description:"@ + fts_phrase(f.value)]
    } else if f.field == "subject"@ {
        seq!["subjects:"@ + fts_phrase(f.value)]
    } else {
        seq![fts_phrase(f.value)]
    }
}

/// All terms of a chip list, in chip order. The terms are implicitly
/// AND-composed by the lexical engine.
pub open spec fn all_terms(fs: Seq<SearchFilterView>) -> Seq<Seq<char>>
    decreases fs.len(),
{
    if fs.len() == 0 {
        Seq::empty()
    } else {
        all_terms(fs.drop_last()) + chip_terms(fs.last())
    }
}

/// The whole match query: every term, space-separated.
pub open spec fn match_query_spec(fs: Seq<SearchFilterView>) -> Seq<char> {
    join_sep(all_terms(fs), seq![' '])
}

/// Renders the escaped form of one chip value.
fn escape_chars(v: &Vec<char>) -> (r: Vec<char>)
    ensures
        r@ == fts_escape(v@),
{
    let mut acc: Vec<char> = Vec::new();
    let mut i: usize = 0;
    proof {
        assert(v@.skip(0) =~= v@);
    }
    while i < v.len()
        invariant
            i <= v@.len(),
            fts_escape(v@) == acc@ + fts_escape(v@.skip(i as int)),
        decreases v@.len() - i,
    {
        let ghost pre = acc@;
        proof {
            assert(v@.skip(i as int)[0] == v@[i as int]);
            assert(v@.skip(i as int).drop_first() =~= v@.skip(i + 1 as int));
        }
        if v[i] == '"' {
            acc.push('"');
            acc.push('"');
            proof {
                assert(acc@ =~= pre + seq!['"', '"']);
                assert(pre + seq!['"', '"'] + fts_escape(v@.skip(i + 1 as int)) =~= pre
                    + (seq!['"', '"'] + fts_escape(v@.skip(i + 1 as int))));
            }
        } else {
            acc.push(v[i]);
            proof {
                assert(acc@ =~= pre + seq![v@[i as int]]);
                assert(pre + seq![v@[i as int]] + fts_escape(v@.skip(i + 1 as int)) =~= pre
                    + (seq![v@[i as int]] + fts_escape(v@.skip(i + 1 as int))));
            }
        }
        i = i + 1;
    }
    proof {
        assert(fts_escape(v@) =~= acc@);
    }
    acc
}

/// Renders one quoted-phrase term, optionally restricted to a column.
fn phrase_term(prefix: &str, v: &Vec<char>) -> (r: Vec<char>)
    ensures
        r@ == prefix@ + fts_phrase(v@),
{
    let mut t: Vec<char> = chars_of(prefix);
    t.push('"');
    let esc = escape_chars(v);
    t.extend_from_slice(esc.as_slice());
    t.push('"');
    proof {
        assert(t@ =~= prefix@ + fts_phrase(v@));
    }
    t
}

/// Builds the lexical match query for a chip list: each chip's required
/// terms in order, space-separated, with quotes doubled inside values.
pub fn build_match_query(filters: &Vec<SearchFilter>) -> (r: String)
    ensures
        r@ == match_query_spec(filters@.map_values(|f: SearchFilter| f@)),
{
    let ghost fv = filters@.map_values(|f: SearchFilter| f@);
    let mut parts: Vec<Vec<char>> = Vec::new();
    let mut i: usize = 0;
    proof {
        assert(parts@.map_values(|t: Vec<char>| t@) =~= Seq::<Seq<char>>::empty());
        assert(all_terms(fv.take(0)) =~= Seq::<Seq<char>>::empty());
    }
    while i < filters.len()
        invariant
            i <= fv.len(),
            fv == filters@.map_values(|f: SearchFilter| f@),
            fv.len() == filters@.len(),
            parts@.map_values(|t: Vec<char>| t@) == all_terms(fv.take(i as int)),
        decreases fv.len() - i,
    {
        let f = &filters[i];
        proof {
            assert(fv.take(i + 1 as int).drop_last() =~= fv.take(i as int));
            assert(fv.take(i + 1 as int).last() == fv[i as int]);
        }
        let ghost before = parts@.map_values(|t: Vec<char>| t@);
        let field_author = String::from_str("author");
        let field_title = String::from_str("title");
        let field_description = String::from_str("description");
        let field_subject = String::from_str("subject");
        let value = chars_of(f.value.as_str());
        if f.field == field_author {
            let tokens = split_ws(&value);
            let ghost toks = ws_tokens(fv[i as int].value);
            let ghost mapped = toks.map_values(|t: Seq<char>| "authors:"@ + fts_phrase(t));
            let mut j: usize = 0;
            while j < tokens.len()
                invariant
                    j <= toks.len(),
                    tokens@.map_values(|t: Vec<char>| t@) == toks,
                    toks.len() == tokens@.len(),
                    mapped == toks.map_values(|t: Seq<char>| "authors:"@ + fts_phrase(t)),
                    parts@.map_values(|t: Vec<char>| t@) == before + mapped.take(j as int),
                decreases toks.len() - j,
            {
                let ghost pre = parts@.map_values(|t: Vec<char>| t@);
                let term = phrase_term("authors:", &tokens[j]);
                parts.push(term);
                proof {
                    assert(parts@.map_values(|t: Vec<char>| t@) =~= pre.push(
                        "authors:"@ + fts_phrase(toks[j as int]),
                    ));
                    assert(mapped.take(j + 1 as int) =~= mapped.take(j as int).push(
                        mapped[j as int],
                    ));
                    assert(pre.push(mapped[j as int]) =~= before + mapped.take(j + 1 as int));
                }
                j = j + 1;
            }
            proof {
                assert(mapped.take(toks.len() as int) =~= mapped);
                assert(chip_terms(fv[i as int]) == mapped);
                assert(before + mapped =~= all_terms(fv.take(i + 1 as int)));
            }
        } else {
            let term = if f.field == field_title {
                phrase_term("title:", &value)
            } else if f.field == field_description {
                phrase_term("description:", &value)
            } else if f.field == field_subject {
                phrase_term("subjects:", &value)
            } else {
                phrase_term("", &value)
            };
            proof {
                if fv[i as int].field != "title"@ && fv[i as int].field != "description"@
                    && fv[i as int].field != "subject"@ {
                    reveal_strlit("");
                    assert(""@ =~= Seq::<char>::empty());
                    assert(Seq::<char>::empty() + fts_phrase(fv[i as int].value) =~= fts_phrase(
                        fv[i as int].value,
                    ));
                }
            }
            parts.push(term);
            proof {
                assert(parts@.map_values(|t: Vec<char>| t@) =~= before.push(
                    chip_terms(fv[i as int])[0],
                ));
                assert(chip_terms(fv[i as int]).len() == 1);
                assert(before.push(chip_terms(fv[i as int])[0]) =~= before + chip_terms(
                    fv[i as int],
                ));
            }
        }
        i = i + 1;
    }
    proof {
        assert(fv.take(fv.len() as int) =~= fv);
    }
    let mut space: Vec<char> = Vec::new();
    space.push(' ');
    let joined = join_chars(&parts, &space);
    proof {
        assert(space@ =~= seq![' ']);
    }
    string_from_chars(&joined)
}

/// The view of an optional string slice.
pub open spec fn view_opt_str(o: Option<&str>) -> Option<Seq<char>> {
    match o {
        Some(s) => Some(s@),
        None => None,
    }
}

/// The ORDER BY expression for a sort request. Author sorts by the first
/// element of the stored author list, year by publish year with nulls last
/// regardless of direction, rank (when allowed) by the lexical relevance
/// score, and anything else by title. Ascending unless the direction is
/// exactly "desc".
pub open spec fn order_clause_spec(
    sort_by: Option<Seq<char>>,
    sort_dir: Option<Seq<char>>,
    allow_rank: bool,
) -> Seq<char> {
    let desc = sort_dir == Some("desc"@);
    if sort_by == Some("author"@) {
        if desc {
            "json_extract(b.authors, '$[0]') DESC"@
        } else {
            "json_extract(b.authors, '$[0]') ASC"@
        }
    } else if sort_by == Some("year"@) {
        if desc {
            "m.publish_year DESC NULLS LAST"@
        } else {
            "m.publish_year ASC NULLS LAST"@
        }
    } else if allow_rank && sort_by == Some("rank"@) {
        "rank"@
    } else {
        if desc {
            "b.title DESC"@
        } else {
            "b.title ASC"@
        }
    }
}

/// Renders the ORDER BY expression for a sort request.
pub fn order_clause(sort_by: Option<&str>, sort_dir: Option<&str>, allow_rank: bool) -> (r: String)
    ensures
        r@ == order_clause_spec(view_opt_str(sort_by), view_opt_str(sort_dir), allow_rank),
{
    let desc = match sort_dir {
        Some(d) => crate::text::str_eq_string(d, &String::from_str("desc")),
        None => false,
    };
    match sort_by {
        Some(s) => {
            if crate::text::str_eq_string(s, &String::from_str("author")) {
                if desc {
                    String::from_str("json_extract(b.authors, '$[0]') DESC")
                } else {
                    String::from_str("json_extract(b.authors, '$[0]') ASC")
                }
            } else if crate::text::str_eq_string(s, &String::from_str("year")) {
                if desc {
                    String::from_str("m.publish_year DESC NULLS LAST")
                } else {
                    String::from_str("m.publish_year ASC NULLS LAST")
                }
            } else if allow_rank && crate::text::str_eq_string(s, &String::from_str("rank")) {
                String::from_str("rank")
            } else {
                if desc {
                    String::from_str("b.title DESC")
                } else {
                    String::from_str("b.title ASC")
                }
            }
        },
        None => {
            if desc {
                String::from_str("b.title DESC")
            } else {
                String::from_str("b.title ASC")
            }
        },
    }
}

/// The column a browse filter field selects, if the field is known.
pub open spec fn filter_column(field: Seq<char>) -> Option<Seq<char>> {
    if field == "title"@ {
        Some("b.title"@)
    } else if field == "author"@ {
        Some("b.authors"@)
    } else if field == "description"@ {
        Some("m.description"@)
    } else if field == "subject"@ {
        Some("m.subjects"@)
    } else {
        None
    }
}

/// A browse filter contributes a predicate only when both its field and its
/// operation are known; anything else is skipped.
pub open spec fn filter_applies(f: FilterView) -> bool {
    filter_column(f.field) is Some && (f.op == "contains"@ || f.op == "has"@)
}

/// The predicate text of one applicable filter, with parameter number
/// `idx`. The filter's value never appears in the text: it travels as the
/// numbered parameter, which keeps the clause immune to value content.
pub open spec fn filter_cond(f: FilterView, idx: nat) -> Seq<char> {
    let col = filter_column(f.field).unwrap();
    if f.op == "contains"@ {
        col + " LIKE '%' || ?"@ + dec_str(idx) + " || '%'"@
    } else {
        col + " LIKE '%\"' || ?"@ + dec_str(idx) + " || '\"%'"@
    }
}

/// The predicate texts of a filter list, numbering parameters from `idx`.
pub open spec fn filter_conds(fs: Seq<FilterView>, idx: nat) -> Seq<Seq<char>>
    decreases fs.len(),
{
    if fs.len() == 0 {
        Seq::empty()
    } else if filter_applies(fs[0]) {
        seq![filter_cond(fs[0], idx)] + filter_conds(fs.drop_first(), idx + 1)
    } else {
        filter_conds(fs.drop_first(), idx)
    }
}

/// The parameter values of a filter list: the values of the applicable
/// filters, in order.
pub open spec fn filter_params(fs: Seq<FilterView>) -> Seq<Seq<char>>
    decreases fs.len(),
{
    if fs.len() == 0 {
        Seq::empty()
    } else if filter_applies(fs[0]) {
        seq![fs[0].value] + filter_params(fs.drop_first())
    } else {
        filter_params(fs.drop_first())
    }
}

/// The WHERE clause of a filter list: empty when no filter applies.
pub open spec fn where_clause_spec(fs: Seq<FilterView>, start: nat) -> Seq<char> {
    let conds = filter_conds(fs, start);
    if conds.len() == 0 {
        Seq::empty()
    } else {
        "WHERE "@ + join_sep(conds, " AND "@)
    }
}

/// The predicate text never depends on the filters' values, only on their
/// fields and operations: values reach the engine exclusively as
/// parameters.
pub proof fn lemma_filter_conds_value_independent(
    a: Seq<FilterView>,
    b: Seq<FilterView>,
    idx: nat,
)
    requires
        a.len() == b.len(),
        forall|i: int|
            0 <= i < a.len() ==> (#[trigger] a[i]).field == (#[trigger] b[i]).field && a[i].op
                == b[i].op,
    ensures
        filter_conds(a, idx) == filter_conds(b, idx),
    decreases a.len(),
{
    if a.len() > 0 {
        assert(a[0].field == b[0].field && a[0].op == b[0].op);
        assert(forall|i: int|
            0 <= i < a.drop_first().len() ==> (#[trigger] a.drop_first()[i]).field == (
            #[trigger] b.drop_first()[i]).field && a.drop_first()[i].op == b.drop_first()[i].op)
            by {
            assert(forall|i: int|
                0 <= i < a.drop_first().len() ==> a.drop_first()[i] == a[i + 1] && b.drop_first()[i]
                    == b[i + 1]);
        }
        lemma_filter_conds_value_independent(a.drop_first(), b.drop_first(), idx + 1);
        lemma_filter_conds_value_independent(a.drop_first(), b.drop_first(), idx);
    }
}

/// Renders one applicable filter's predicate text.
fn render_cond(col: &str, op_contains: bool, idx: usize) -> (r: Vec<char>)
    ensures
        r@ == col@ + (if op_contains {
            " LIKE '%' || ?"@ + dec_str(idx as nat) + " || '%'"@
        } else {
            " LIKE '%\"' || ?"@ + dec_str(idx as nat) + " || '\"%'"@
        }),
{
    let mut t = chars_of(col);
    let num = u64_to_chars(idx as u64);
    if op_contains {
        let mid = chars_of(" LIKE '%' || ?");
        let tail = chars_of(" || '%'");
        t.extend_from_slice(mid.as_slice());
        t.extend_from_slice(num.as_slice());
        t.extend_from_slice(tail.as_slice());
        proof {
            assert(t@ =~= col@ + (" LIKE '%' || ?"@ + dec_str(idx as nat) + " || '%'"@));
        }
    } else {
        let mid = chars_of(" LIKE '%\"' || ?");
        let tail = chars_of(" || '\"%'");
        t.extend_from_slice(mid.as_slice());
        t.extend_from_slice(num.as_slice());
        t.extend_from_slice(tail.as_slice());
        proof {
            assert(t@ =~= col@ + (" LIKE '%\"' || ?"@ + dec_str(idx as nat) + " || '\"%'"@));
        }
    }
    t
}

/// Builds the WHERE clause and parameter list for a browse filter list,
/// numbering parameters from `start_idx`. Filter values appear only in the
/// parameter list, never in the clause text.
pub fn build_filter_clause_with_offset(filters: &Vec<Filter>, start_idx: usize) -> (r: (
    String,
    Vec<String>,
))
    requires
        start_idx + filters@.len() <= usize::MAX,
    ensures
        r.0@ == where_clause_spec(filters@.map_values(|f: Filter| f@), start_idx as nat),
        crate::text::views(r.1@) == filter_params(filters@.map_values(|f: Filter| f@)),
{
    let ghost fsv = filters@.map_values(|f: Filter| f@);
    let mut conds: Vec<Vec<char>> = Vec::new();
    let mut params: Vec<String> = Vec::new();
    let mut i: usize = 0;
    proof {
        assert(fsv.skip(0) =~= fsv);
        assert(conds@.map_values(|t: Vec<char>| t@) =~= Seq::<Seq<char>>::empty());
        assert(crate::text::views(params@) =~= Seq::<Seq<char>>::empty());
    }
    while i < filters.len()
        invariant
            i <= fsv.len(),
            fsv == filters@.map_values(|f: Filter| f@),
            fsv.len() == filters@.len(),
            params@.len() == conds@.len(),
            start_idx + fsv.len() <= usize::MAX,
            filter_conds(fsv, start_idx as nat) == conds@.map_values(|t: Vec<char>| t@)
                + filter_conds(fsv.skip(i as int), (start_idx + conds@.len()) as nat),
            filter_params(fsv) == crate::text::views(params@) + filter_params(
                fsv.skip(i as int),
            ),
            conds@.len() <= i,
        decreases fsv.len() - i,
    {
        let f = &filters[i];
        proof {
            assert(fsv.skip(i as int)[0] == fsv[i as int]);
            assert(fsv.skip(i as int).drop_first() =~= fsv.skip(i + 1 as int));
        }
        let ghost conds_pre = conds@.map_values(|t: Vec<char>| t@);
        let ghost params_pre = crate::text::views(params@);
        let field_title = String::from_str("title");
        let field_author = String::from_str("author");
        let field_description = String::from_str("description");
        let field_subject = String::from_str("subject");
        let op_contains = String::from_str("contains");
        let op_has = String::from_str("has");
        let col: Option<&str> = if f.field == field_title {
            Some("b.title")
        } else if f.field == field_author {
            Some("b.authors")
        } else if f.field == field_description {
            Some("m.description")
        } else if f.field == field_subject {
            Some("m.subjects")
        } else {
            None
        };
        match col {
            Some(c) => {
                let is_contains = f.op == op_contains;
                let is_has = f.op == op_has;
                if is_contains || is_has {
                    let idx = start_idx + conds.len();
                    let t = render_cond(c, is_contains, idx);
                    proof {
                        assert(filter_applies(fsv[i as int]));
                        assert(t@ == filter_cond(fsv[i as int], idx as nat));
                    }
                    conds.push(t);
                    params.push(f.value.clone());
                    proof {
                        assert(conds@.map_values(|t2: Vec<char>| t2@) =~= conds_pre.push(
                            filter_cond(fsv[i as int], idx as nat),
                        ));
                        assert(crate::text::views(params@) =~= params_pre.push(
                            fsv[i as int].value,
                        ));
                        assert(filter_conds(fsv.skip(i as int), idx as nat) == seq![
                            filter_cond(fsv[i as int], idx as nat),
                        ] + filter_conds(fsv.skip(i + 1 as int), (idx + 1) as nat));
                        assert(conds_pre.push(filter_cond(fsv[i as int], idx as nat))
                            + filter_conds(fsv.skip(i + 1 as int), (idx + 1) as nat)
                            =~= conds_pre + (seq![filter_cond(fsv[i as int], idx as nat)]
                            + filter_conds(fsv.skip(i + 1 as int), (idx + 1) as nat)));
                        assert(filter_params(fsv.skip(i as int)) == seq![fsv[i as int].value]
                            + filter_params(fsv.skip(i + 1 as int)));
                        assert(params_pre.push(fsv[i as int].value) + filter_params(
                            fsv.skip(i + 1 as int),
                        ) =~= params_pre + (seq![fsv[i as int].value] + filter_params(
                            fsv.skip(i + 1 as int),
                        )));
                    }
                } else {
                    proof {
                        assert(!filter_applies(fsv[i as int]));
                    }
                }
            },
            None => {
                proof {
                    assert(filter_column(fsv[i as int].field) is None);
                    assert(!filter_applies(fsv[i as int]));
                }
            },
        }
        i = i + 1;
    }
    proof {
        assert(fsv.skip(fsv.len() as int) =~= Seq::<FilterView>::empty());
        assert(filter_conds(fsv, start_idx as nat) =~= conds@.map_values(|t: Vec<char>| t@));
        assert(filter_params(fsv) =~= crate::text::views(params@));
    }
    if conds.len() == 0 {
        proof {
            assert(filter_conds(fsv, start_idx as nat).len() == 0);
        }
        let empty = String::new();
        return (empty, params);
    }
    let sep = chars_of(" AND ");
    let joined = join_chars(&conds, &sep);
    let mut clause = chars_of("WHERE ");
    clause.extend_from_slice(joined.as_slice());
    proof {
        assert(clause@ =~= "WHERE "@ + join_sep(conds@.map_values(|t: Vec<char>| t@), " AND "@));
    }
    (string_from_chars(&clause), params)
}

/// Builds the WHERE clause for browsing, whose statement uses parameters 1
/// and 2 for the page bounds: filter parameters start at 3.
pub fn build_filter_clause(filters: &Vec<Filter>) -> (r: (String, Vec<String>))
    requires
        filters@.len() <= usize::MAX - 3,
    ensures
        r.0@ == where_clause_spec(filters@.map_values(|f: Filter| f@), 3),
        crate::text::views(r.1@) == filter_params(filters@.map_values(|f: Filter| f@)),
{
    build_filter_clause_with_offset(filters, 3)
}

/// A phrase body in which every quote is immediately paired with a second
/// quote: the shape the lexical engine parses as literal quote characters
/// inside one string token.
pub open spec fn phrase_body_wf(b: Seq<char>) -> bool
    decreases b.len(),
{
    if b.len() == 0 {
        true
    } else if b[0] == '"' {
        b.len() >= 2 && b[1] == '"' && phrase_body_wf(b.skip(2))
    } else {
        phrase_body_wf(b.skip(1))
    }
}

/// The inverse of escaping: each doubled quote reads back as one quote.
pub open spec fn fts_unescape(b: Seq<char>) -> Seq<char>
    decreases b.len(),
{
    if b.len() == 0 {
        Seq::empty()
    } else if b[0] == '"' && b.len() >= 2 && b[1] == '"' {
        seq!['"'] + fts_unescape(b.skip(2))
    } else {
        seq![b[0]] + fts_unescape(b.skip(1))
    }
}

/// Escaping any value yields a well-formed phrase body.
pub proof fn lemma_escape_wf(v: Seq<char>)
    ensures
        phrase_body_wf(fts_escape(v)),
    decreases v.len(),
{
    if v.len() > 0 {
        lemma_escape_wf(v.drop_first());
        if v[0] == '"' {
            assert(fts_escape(v).skip(2) =~= fts_escape(v.drop_first()));
        } else {
            assert(fts_escape(v).skip(1) =~= fts_escape(v.drop_first()));
        }
    }
}

/// Escaping is lossless: the rendered phrase always stands for the literal
/// chip value.
pub proof fn lemma_unescape_escape(v: Seq<char>)
    ensures
        fts_unescape(fts_escape(v)) == v,
    decreases v.len(),
{
    if v.len() > 0 {
        lemma_unescape_escape(v.drop_first());
        if v[0] == '"' {
            assert(fts_escape(v).skip(2) =~= fts_escape(v.drop_first()));
            assert(fts_unescape(fts_escape(v)) =~= v);
        } else {
            assert(fts_escape(v).skip(1) =~= fts_escape(v.drop_first()));
            assert(fts_escape(v)[0] == v[0]);
            if fts_escape(v)[0] == '"' {
                assert(false);
            }
            assert(fts_unescape(fts_escape(v)) =~= v);
        }
    }
}

/// A chip value, whatever quotes it contains, renders to one syntactically
/// valid quoted phrase: it starts and ends with a quote, every quote of the
/// body is doubled, and the body reads back as exactly the original value.
pub proof fn lemma_phrase_well_formed(v: Seq<char>)
    ensures
        fts_phrase(v).len() >= 2,
        fts_phrase(v)[0] == '"',
        fts_phrase(v).last() == '"',
        fts_phrase(v).subrange(1, fts_phrase(v).len() - 1) == fts_escape(v),
        phrase_body_wf(fts_escape(v)),
        fts_unescape(fts_escape(v)) == v,
{
    lemma_escape_wf(v);
    lemma_unescape_escape(v);
    assert(fts_phrase(v).subrange(1, fts_phrase(v).len() - 1) =~= fts_escape(v));
}

} // verus!
