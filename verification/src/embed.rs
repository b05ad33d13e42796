//! Text composition for the embedding engine.
//!
//! The engine turns a book into one string — title, then "by" and the
//! comma-joined authors when there are any, then the description when it is
//! non-empty, all space-joined — and embeds exactly that string. Index and
//! query sides must compose identically, so the composition is pinned down
//! character by character.

use vstd::prelude::*;

use crate::text::{chars_of, join_chars, join_sep, string_from_chars, views};

verus! {

/// The separator between authors: a comma and a space.
pub open spec fn comma_space() -> Seq<char> {
    seq![',', ' ']
}

/// The parts that make up a book's embedding text, in order.
pub open spec fn embed_parts(
    title: Seq<char>,
    authors: Seq<Seq<char>>,
    description: Seq<char>,
) -> Seq<Seq<char>> {
    let base = seq![title];
    let with_authors = if authors.len() > 0 {
        base.push(seq!['b', 'y', ' '] + join_sep(authors, comma_space()))
    } else {
        base
    };
    if description.len() > 0 {
        with_authors.push(description)
    } else {
        with_authors
    }
}

/// The embedding text of a book: its parts joined by single spaces.
pub open spec fn compose_text_spec(
    title: Seq<char>,
    authors: Seq<Seq<char>>,
    description: Seq<char>,
) -> Seq<char> {
    join_sep(embed_parts(title, authors, description), seq![' '])
}

/// Combines book fields into the text that is embedded. The result is
/// the deterministic composition [`compose_text_spec`] of the inputs.
pub fn get_embedding_text(title: &str, authors: &[String], description: &str) -> (r: String)
    ensures
        r@ == compose_text_spec(title@, views(authors@), description@),
{
    let mut parts: Vec<Vec<char>> = Vec::new();
    parts.push(chars_of(title));
    if authors.len() > 0 {
        let mut names: Vec<Vec<char>> = Vec::new();
        let mut i: usize = 0;
        while i < authors.len()
            invariant
                i <= authors@.len(),
                names@.map_values(|t: Vec<char>| t@) == views(authors@).take(i as int),
            decreases authors@.len() - i,
        {
            let ghost prev = names@.map_values(|t: Vec<char>| t@);
            names.push(chars_of(authors[i].as_str()));
            proof {
                assert(names@.map_values(|t: Vec<char>| t@) =~= prev.push(authors@[i as int]@));
                assert(views(authors@).take(i + 1 as int) =~= views(authors@).take(
                    i as int,
                ).push(authors@[i as int]@));
            }
            i = i + 1;
        }
        proof {
            assert(views(authors@).take(authors@.len() as int) =~= views(authors@));
        }
        let mut sep: Vec<char> = Vec::new();
        sep.push(',');
        sep.push(' ');
        proof {
            assert(sep@ =~= comma_space());
        }
        let joined = join_chars(&names, &sep);
        let mut by_part: Vec<char> = Vec::new();
        by_part.push('b');
        by_part.push('y');
        by_part.push(' ');
        by_part.extend_from_slice(joined.as_slice());
        proof {
            assert(by_part@ =~= seq!['b', 'y', ' '] + join_sep(views(authors@), comma_space()));
        }
        let ghost prev = parts@.map_values(|t: Vec<char>| t@);
        parts.push(by_part);
        proof {
            assert(parts@.map_values(|t: Vec<char>| t@) =~= prev.push(
                seq!['b', 'y', ' '] + join_sep(views(authors@), comma_space()),
            ));
        }
    }
    if description.unicode_len() > 0 {
        let ghost prev = parts@.map_values(|t: Vec<char>| t@);
        parts.push(chars_of(description));
        proof {
            assert(parts@.map_values(|t: Vec<char>| t@) =~= prev.push(description@));
        }
    }
    let mut space: Vec<char> = Vec::new();
    space.push(' ');
    let all = join_chars(&parts, &space);
    proof {
        assert(space@ =~= seq![' ']);
        assert(parts@.map_values(|t: Vec<char>| t@) =~= embed_parts(
            title@,
            views(authors@),
            description@,
        ));
    }
    string_from_chars(&all)
}

} // verus!
