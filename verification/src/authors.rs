//! Commit authors as the version-control log prints them, one
//! `{name} <{email}>` record per line.  The log itself is read elsewhere;
//! this module turns the printed text into records.

use vstd::prelude::*;

verus! {

use itertools::Itertools;

use crate::template::{sp_find_sub, lemma_find_sub, find_sub};
use crate::text::{sp_trim, sp_lines, split_lines, trim_str};

/// A commit author: display name and email address.
#[derive(Debug)]
pub struct Author {
    pub name: String,
    pub email: String,
}

/// The mathematical value of an [`Author`].
#[verifier::ext_equal]
pub ghost struct AuthorView {
    pub name: Seq<char>,
    pub email: Seq<char>,
}

impl View for Author {
    type V = AuthorView;

    open spec fn view(&self) -> AuthorView {
        AuthorView { name: self.name@, email: self.email@ }
    }
}

/// What parsing one log line yields: the text between position one and the
/// first open bracket is the name, the text between the brackets the email,
/// both trimmed; a line without both brackets yields nothing.
pub open spec fn sp_parse_author(l: Seq<char>) -> Option<AuthorView> {
    match (sp_find_sub(l, "<"@), sp_find_sub(l, ">"@)) {
        (Some(s0), Some(e0)) => Some(
            AuthorView {
                name: sp_trim(l.subrange(1, s0)),
                email: sp_trim(l.subrange(s0 + 1, e0)),
            },
        ),
        _ => None,
    }
}

/// A line the author parser can take: when both brackets occur, the line
/// opens with a one-byte character (the quote of the log format), the first
/// open bracket comes after it, and the first closing bracket comes later
/// still.  Lines breaking this have no defined parse.
pub open spec fn sp_author_line_ok(l: Seq<char>) -> bool {
    match (sp_find_sub(l, "<"@), sp_find_sub(l, ">"@)) {
        (Some(s0), Some(e0)) => 1 <= s0 && s0 < e0 && (l[0] as u32) < 128,
        _ => true,
    }
}

/// Parses one log line into an author record.
pub fn parse_author(input: &str) -> (r: Option<Author>)
    requires
        sp_author_line_ok(input@),
    ensures
        match r {
            Some(a) => sp_parse_author(input@) == Some(a@),
            None => sp_parse_author(input@) is None,
        },
{
    proof {
        reveal_strlit("<");
        reveal_strlit(">");
    }
    let lt = find_sub(input, "<");
    let gt = find_sub(input, ">");
    match (lt, gt) {
        (Some(start), Some(end)) => {
            proof {
                lemma_find_sub(input@, "<"@);
                lemma_find_sub(input@, ">"@);
            }
            let name = trim_str(input.substring_char(1, start));
            let email = trim_str(input.substring_char(start + 1, end));
            Some(Author { name, email })
        },
        _ => None,
    }
}

/// Keeps the first occurrence of each distinct line, in order.
pub open spec fn sp_dedup_first(s: Seq<Seq<char>>) -> Seq<Seq<char>>
    decreases s.len(),
{
    if s.len() == 0 {
        Seq::empty()
    } else {
        let r = sp_dedup_first(s.drop_last());
        if s.drop_last().contains(s.last()) {
            r
        } else {
            r.push(s.last())
        }
    }
}

/// Deduplicated lines come from the original lines.
pub proof fn lemma_dedup_membership(s: Seq<Seq<char>>)
    ensures
        forall|l: Seq<char>| #[trigger] sp_dedup_first(s).contains(l) ==> s.contains(l),
    decreases s.len(),
{
    if s.len() > 0 {
        lemma_dedup_membership(s.drop_last());
        assert forall|l: Seq<char>| #[trigger] sp_dedup_first(s).contains(l) implies s.contains(
            l,
        ) by {
            let i = choose|i: int|
                0 <= i < sp_dedup_first(s).len() && sp_dedup_first(s)[i] == l;
            if i < sp_dedup_first(s.drop_last()).len() {
                assert(sp_dedup_first(s.drop_last()).contains(l));
                let j = choose|j: int|
                    0 <= j < s.drop_last().len() && s.drop_last()[j] == l;
                assert(s[j] == l);
            } else {
                assert(l == s.last());
            }
        }
    }
}

/// Relies on the `unique` adaptor of itertools: the result keeps exactly the
/// first occurrence of each distinct string, in the order encountered.
#[verifier::external_body]
fn unique_strings(v: Vec<String>) -> (r: Vec<String>)
    ensures
        r@.map_values(|s: String| s@) == sp_dedup_first(v@.map_values(|s: String| s@)),
{
    v.into_iter().unique().collect()
}

/// The author records that a block of log text yields: one per parseable
/// line, first occurrence of each distinct line only.
pub open spec fn sp_collect_authors(ls: Seq<Seq<char>>) -> Seq<AuthorView>
    decreases ls.len(),
{
    if ls.len() == 0 {
        Seq::empty()
    } else {
        match sp_parse_author(ls[0]) {
            Some(a) => seq![a] + sp_collect_authors(ls.drop_first()),
            None => sp_collect_authors(ls.drop_first()),
        }
    }
}

/// Turns the printed log into author records: every distinct line, first
/// occurrence first, parsed into a record where possible.
pub fn authors_from_log(text: &str) -> (r: Vec<Author>)
    requires
        forall|l: Seq<char>| #[trigger] sp_lines(text@).contains(l) ==> sp_author_line_ok(l),
    ensures
        r@.map_values(|a: Author| a@) == sp_collect_authors(sp_dedup_first(sp_lines(text@))),
{
    let lines = split_lines(text);
    let uniq = unique_strings(lines);
    let ghost ls = sp_dedup_first(sp_lines(text@));
    proof {
        lemma_dedup_membership(sp_lines(text@));
    }
    let mut out: Vec<Author> = Vec::new();
    let mut i: usize = 0;
    proof {
        assert(ls.skip(0) =~= ls);
        assert(out@.map_values(|a: Author| a@) + sp_collect_authors(ls) =~= sp_collect_authors(
            ls,
        ));
    }
    while i < uniq.len()
        invariant
            0 <= i <= uniq@.len(),
            ls == sp_dedup_first(sp_lines(text@)),
            ls == uniq@.map_values(|s: String| s@),
            forall|l: Seq<char>| #[trigger] ls.contains(l) ==> sp_author_line_ok(l),
            out@.map_values(|a: Author| a@) + sp_collect_authors(ls.skip(i as int))
                == sp_collect_authors(ls),
        decreases uniq@.len() - i,
    {
        proof {
            assert(ls.skip(i as int)[0] == ls[i as int]);
            assert(ls[i as int] == uniq@[i as int]@);
            assert(ls.contains(ls[i as int]));
            assert(ls.skip(i as int).drop_first() =~= ls.skip(i as int + 1));
        }
        match parse_author(uniq[i].as_str()) {
            Some(a) => {
                let ghost oldout = out@;
                let ghost av = a@;
                out.push(a);
                proof {
                    assert(out@.map_values(|x: Author| x@) =~= oldout.map_values(
                        |x: Author| x@,
                    ).push(av));
                }
            },
            None => {},
        }
        i += 1;
        proof {
            assert(out@.map_values(|a: Author| a@) + sp_collect_authors(ls.skip(i as int))
                =~= sp_collect_authors(ls));
        }
    }
    proof {
        assert(ls.skip(uniq@.len() as int) =~= Seq::<Seq<char>>::empty());
        assert(out@.map_values(|a: Author| a@) =~= sp_collect_authors(ls));
    }
    out
}

} // verus!
