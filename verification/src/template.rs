//! The managed block of the commit template.
//!
//! A template text is split into lines; a block delimited by two sentinel
//! marker lines holds one co-author trailer per active buddy.  The parser
//! reconstructs the active set by matching trailer emails against the
//! directory; the writer replaces the whole block, leaving every other line
//! untouched except for trailing-whitespace normalization.

use vstd::prelude::*;

verus! {

use crate::buddy::{Buddies, Buddy, BuddyView, co_author_line, sp_find_by_email};
use crate::text::{
    is_ws_char,
    sp_trim,
    sp_trim_start,
    sp_lines,
    sp_lines_from,
    sp_join_nl,
    sp_trim_end,
    strip_tail_cr,
    split_lines,
    trim_str,
    trim_end_str,
    str_eq,
    lemma_trim_end_shape,
    lemma_lines_append,
    lemma_line_complete,
};

/// First line of the managed block.
pub open spec fn sp_begin_marker() -> Seq<char> {
    "# BEGIN GIT-SQUAD"@
}

/// Last line of the managed block.
pub open spec fn sp_end_marker() -> Seq<char> {
    "# END GIT-SQUAD"@
}

/// A line opens the block when it equals the begin marker after trimming.
pub open spec fn is_begin_line(l: Seq<char>) -> bool {
    sp_trim(l) == sp_begin_marker()
}

/// A line closes the block when it equals the end marker after trimming.
pub open spec fn is_end_line(l: Seq<char>) -> bool {
    sp_trim(l) == sp_end_marker()
}

fn line_is_begin(l: &str) -> (r: bool)
    ensures
        r == is_begin_line(l@),
{
    let t = trim_str(l);
    str_eq(t.as_str(), "# BEGIN GIT-SQUAD")
}

fn line_is_end(l: &str) -> (r: bool)
    ensures
        r == is_end_line(l@),
{
    let t = trim_str(l);
    str_eq(t.as_str(), "# END GIT-SQUAD")
}

/// Index of the first occurrence of `pat` in `l`, if any.
pub open spec fn sp_find_sub(l: Seq<char>, pat: Seq<char>) -> Option<int>
    decreases l.len(),
{
    if pat.len() == 0 {
        Some(0)
    } else if l.len() < pat.len() {
        None
    } else if l.subrange(0, pat.len() as int) == pat {
        Some(0)
    } else {
        match sp_find_sub(l.drop_first(), pat) {
            None => None,
            Some(i) => Some(i + 1),
        }
    }
}

/// Index of the last occurrence of `pat` in `l`, if any.
pub open spec fn sp_rfind_sub(l: Seq<char>, pat: Seq<char>) -> Option<int>
    decreases l.len(),
{
    if pat.len() == 0 {
        Some(l.len() as int)
    } else if l.len() < pat.len() {
        None
    } else if l.subrange(l.len() - pat.len(), l.len() as int) == pat {
        Some(l.len() - pat.len())
    } else {
        sp_rfind_sub(l.drop_last(), pat)
    }
}

/// `sp_find_sub` returns exactly the least index where `pat` occurs.
pub proof fn lemma_find_sub(l: Seq<char>, pat: Seq<char>)
    ensures
        match sp_find_sub(l, pat) {
            None => forall|p: int|
                0 <= p <= l.len() - pat.len() ==> #[trigger] l.subrange(p, p + pat.len()) != pat,
            Some(i) => 0 <= i <= l.len() - pat.len() && l.subrange(i, i + pat.len()) == pat
                && forall|p: int|
                0 <= p < i ==> #[trigger] l.subrange(p, p + pat.len()) != pat,
        },
    decreases l.len(),
{
    if pat.len() > 0 && l.len() >= pat.len() && l.subrange(0, pat.len() as int) != pat {
        lemma_find_sub(l.drop_first(), pat);
        assert forall|p: int| 1 <= p <= l.len() - pat.len() implies #[trigger] l.subrange(
            p,
            p + pat.len(),
        ) == l.drop_first().subrange(p - 1, p - 1 + pat.len()) by {
            assert(l.subrange(p, p + pat.len()) =~= l.drop_first().subrange(
                p - 1,
                p - 1 + pat.len(),
            ));
        }
    }
}

/// `sp_rfind_sub` returns exactly the greatest index where `pat` occurs.
pub proof fn lemma_rfind_sub(l: Seq<char>, pat: Seq<char>)
    ensures
        match sp_rfind_sub(l, pat) {
            None => forall|p: int|
                0 <= p <= l.len() - pat.len() ==> #[trigger] l.subrange(p, p + pat.len()) != pat,
            Some(i) => 0 <= i <= l.len() - pat.len() && l.subrange(i, i + pat.len()) == pat
                && forall|p: int|
                i < p <= l.len() - pat.len() ==> #[trigger] l.subrange(p, p + pat.len()) != pat,
        },
    decreases l.len(),
{
    if pat.len() > 0 && l.len() >= pat.len() && l.subrange(l.len() - pat.len(), l.len() as int)
        != pat {
        lemma_rfind_sub(l.drop_last(), pat);
        assert forall|p: int| 0 <= p <= l.len() - 1 - pat.len() implies #[trigger] l.subrange(
            p,
            p + pat.len(),
        ) == l.drop_last().subrange(p, p + pat.len()) by {
            assert(l.subrange(p, p + pat.len()) =~= l.drop_last().subrange(p, p + pat.len()));
        }
    }
}

/// Finds the first occurrence of `pat` in `l`.
pub(crate) fn find_sub(l: &str, pat: &str) -> (r: Option<usize>)
    requires
        pat@.len() > 0,
    ensures
        match r {
            Some(i) => sp_find_sub(l@, pat@) == Some(i as int),
            None => sp_find_sub(l@, pat@) is None,
        },
{
    proof {
        lemma_find_sub(l@, pat@);
    }
    let n = l.unicode_len();
    let m = pat.unicode_len();
    if n < m {
        return None;
    }
    let mut p: usize = 0;
    while p <= n - m
        invariant
            m <= n,
            n == l@.len(),
            m == pat@.len(),
            1 <= m,
            0 <= p <= n - m + 1,
            forall|q: int| 0 <= q < p ==> #[trigger] l@.subrange(q, q + pat@.len()) != pat@,
        decreases n - m - p + 1,
    {
        if str_eq(l.substring_char(p, p + m), pat) {
            proof {
                lemma_find_sub(l@, pat@);
                assert(l@.subrange(p as int, p + pat@.len()) == pat@);
            }
            return Some(p);
        }
        p += 1;
    }
    proof {
        lemma_find_sub(l@, pat@);
    }
    None
}

/// Finds the last occurrence of `pat` in `l`.
fn rfind_sub(l: &str, pat: &str) -> (r: Option<usize>)
    requires
        pat@.len() > 0,
    ensures
        match r {
            Some(i) => sp_rfind_sub(l@, pat@) == Some(i as int),
            None => sp_rfind_sub(l@, pat@) is None,
        },
{
    proof {
        lemma_rfind_sub(l@, pat@);
    }
    let n = l.unicode_len();
    let m = pat.unicode_len();
    if n < m {
        return None;
    }
    let mut p: usize = n - m;
    loop
        invariant
            m <= n,
            n == l@.len(),
            m == pat@.len(),
            0 <= p <= n - m,
            forall|q: int| p < q <= n - m ==> #[trigger] l@.subrange(q, q + pat@.len()) != pat@,
        decreases p,
    {
        if str_eq(l.substring_char(p, p + m), pat) {
            proof {
                lemma_rfind_sub(l@, pat@);
                assert(l@.subrange(p as int, p + pat@.len()) == pat@);
            }
            return Some(p);
        }
        if p == 0 {
            proof {
                lemma_rfind_sub(l@, pat@);
            }
            return None;
        }
        p -= 1;
    }
}

/// The email that the trailer pattern captures from a line, if the line
/// matches.  A line matches when the trailer prefix occurs somewhere, a
/// space-and-open-bracket follows it, and a closing bracket follows that
/// with at least one character in between; the capture runs from after the
/// last such open bracket to the last closing bracket of the line.
pub open spec fn sp_captured_email(l: Seq<char>) -> Option<Seq<char>> {
    let lit = "Co-authored-by: "@;
    match sp_find_sub(l, lit) {
        None => None,
        Some(p) => match sp_rfind_sub(l, ">"@) {
            None => None,
            Some(r) => {
                if r >= 1 {
                    match sp_rfind_sub(l.take(r - 1), " <"@) {
                        Some(q) => if q >= p + lit.len() {
                            Some(l.subrange(q + 2, r))
                        } else {
                            None
                        },
                        None => None,
                    }
                } else {
                    None
                }
            },
        },
    }
}

/// Extracts the trailer email from one line.
pub fn capture_email(line: &str) -> (r: Option<String>)
    ensures
        match r {
            Some(e) => sp_captured_email(line@) == Some(e@),
            None => sp_captured_email(line@) is None,
        },
{
    proof {
        reveal_strlit("Co-authored-by: ");
        reveal_strlit(">");
        reveal_strlit(" <");
    }
    let p = match find_sub(line, "Co-authored-by: ") {
        Some(p) => p,
        None => { return None; },
    };
    let rr = match rfind_sub(line, ">") {
        Some(r) => r,
        None => { return None; },
    };
    proof {
        lemma_find_sub(line@, "Co-authored-by: "@);
        lemma_rfind_sub(line@, ">"@);
    }
    if rr < 1 {
        return None;
    }
    let prefix = line.substring_char(0, rr - 1);
    proof {
        assert(prefix@ =~= line@.take(rr - 1));
    }
    let q = match rfind_sub(prefix, " <") {
        Some(q) => q,
        None => { return None; },
    };
    let litlen = "Co-authored-by: ".unicode_len();
    let n = line.unicode_len();
    proof {
        assert(p + litlen <= n);
    }
    if q < p + litlen {
        return None;
    }
    proof {
        lemma_rfind_sub(line@.take(rr - 1), " <"@);
        reveal_strlit(" <");
    }
    Some(line.substring_char(q + 2, rr).to_owned())
}

/// The lines that survive a rewrite: everything outside the block, the
/// marker lines and the block's inside dropped.
pub open spec fn sp_kept_lines(ls: Seq<Seq<char>>, skipping: bool) -> Seq<Seq<char>>
    decreases ls.len(),
{
    if ls.len() == 0 {
        Seq::empty()
    } else if is_begin_line(ls[0]) {
        sp_kept_lines(ls.drop_first(), true)
    } else if is_end_line(ls[0]) {
        sp_kept_lines(ls.drop_first(), false)
    } else if skipping {
        sp_kept_lines(ls.drop_first(), true)
    } else {
        seq![ls[0]] + sp_kept_lines(ls.drop_first(), false)
    }
}

/// The members that the lines yield against directory `dir`: inside the
/// block, each line whose captured email the directory knows contributes
/// that record, in order.
pub open spec fn sp_active_lines(
    ls: Seq<Seq<char>>,
    dir: Seq<BuddyView>,
    inside: bool,
) -> Seq<BuddyView>
    decreases ls.len(),
{
    if ls.len() == 0 {
        Seq::empty()
    } else if is_begin_line(ls[0]) {
        sp_active_lines(ls.drop_first(), dir, true)
    } else if is_end_line(ls[0]) {
        sp_active_lines(ls.drop_first(), dir, false)
    } else if inside {
        match sp_captured_email(ls[0]) {
            Some(e) => match sp_find_by_email(dir, e) {
                Some(b) => seq![b] + sp_active_lines(ls.drop_first(), dir, true),
                None => sp_active_lines(ls.drop_first(), dir, true),
            },
            None => sp_active_lines(ls.drop_first(), dir, true),
        }
    } else {
        sp_active_lines(ls.drop_first(), dir, false)
    }
}

/// One trailer line with its line feed per member.
pub open spec fn sp_trailers(active: Seq<BuddyView>) -> Seq<char>
    decreases active.len(),
{
    if active.len() == 0 {
        Seq::empty()
    } else {
        co_author_line(active[0]) + seq!['\n'] + sp_trailers(active.drop_first())
    }
}

/// What a rewrite produces.  The old block is removed, trailing whitespace
/// is trimmed; a non-empty active set appends a blank line, the begin
/// marker, the trailers and the end marker; an empty one leaves only the
/// trimmed text, newline-terminated, with no trace of the markers.
pub open spec fn sp_body(t: Seq<char>) -> Seq<char> {
    sp_trim_end(sp_join_nl(sp_kept_lines(sp_lines(t), false)))
}

pub open spec fn sp_render(t: Seq<char>, active: Seq<BuddyView>) -> Seq<char> {
    let body = sp_body(t);
    if active.len() == 0 {
        if body.len() == 0 {
            body
        } else {
            body + seq!['\n']
        }
    } else {
        body + "\n\n"@ + sp_begin_marker() + seq!['\n'] + sp_trailers(active) + sp_end_marker()
            + seq!['\n']
    }
}

/// A member whose trailer line parses back to exactly its own email: name
/// and email hold no line feed, and the email is non-empty and free of the
/// space-and-open-bracket separator.
pub open spec fn sp_writable_member(b: BuddyView) -> bool {
    &&& !b.name.contains('\n')
    &&& !b.email.contains('\n')
    &&& b.email.len() > 0
    &&& forall|p: int|
        0 <= p < b.email.len() - 1 ==> !((#[trigger] b.email[p]) == ' ' && b.email[p + 1] == '<')
}

/// The trailer lines of an active set.
pub open spec fn sp_trailer_lines(active: Seq<BuddyView>) -> Seq<Seq<char>> {
    active.map_values(|b: BuddyView| co_author_line(b))
}

/// Shape of a well-formed member's trailer line: it is marker-free, free of
/// line feeds, and captures exactly the member's email.
pub proof fn lemma_trailer_line(b: BuddyView)
    requires
        sp_writable_member(b),
    ensures
        !co_author_line(b).contains('\n'),
        strip_tail_cr(co_author_line(b)) == co_author_line(b),
        !is_begin_line(co_author_line(b)),
        !is_end_line(co_author_line(b)),
        sp_captured_email(co_author_line(b)) == Some(b.email),
{
    reveal_strlit("Co-authored-by: ");
    reveal_strlit(" <");
    reveal_strlit(">");
    reveal_strlit("# BEGIN GIT-SQUAD");
    reveal_strlit("# END GIT-SQUAD");
    let lit = "Co-authored-by: "@;
    let t = co_author_line(b);
    let nl = b.name.len() as int;
    let el = b.email.len() as int;
    assert(t.len() == 19 + nl + el);
    assert forall|i: int| 0 <= i < 16 implies t[i] == lit[i] by {}
    assert forall|i: int| 0 <= i < nl implies t[16 + i] == b.name[i] by {}
    assert(t[16 + nl] == ' ');
    assert(t[16 + nl + 1] == '<');
    assert forall|i: int| 0 <= i < el implies t[18 + nl + i] == b.email[i] by {}
    assert(t[18 + nl + el] == '>');
    // no line feed anywhere
    assert forall|i: int| 0 <= i < t.len() implies t[i] != '\n' by {
        if 16 <= i < 16 + nl {
            if t[i] == '\n' {
                assert(b.name[i - 16] == '\n');
                assert(b.name.contains('\n'));
            }
        }
        if 18 + nl <= i < 18 + nl + el {
            if t[i] == '\n' {
                assert(b.email[i - 18 - nl] == '\n');
                assert(b.email.contains('\n'));
            }
        }
    }
    assert(!t.contains('\n')) by {
        if t.contains('\n') {
            let i = choose|i: int| 0 <= i < t.len() && t[i] == '\n';
        }
    }
    // the line survives trimming unchanged, and is no marker
    assert(t.first() == 'C');
    assert(t.last() == '>');
    assert(strip_tail_cr(t) == t);
    assert(sp_trim_end(t) == t);
    assert(sp_trim_start(t) == t);
    assert(sp_trim(t) == t);
    assert(t != sp_begin_marker()) by {
        assert(t[0] != sp_begin_marker()[0]);
    }
    assert(t != sp_end_marker()) by {
        assert(t[0] != sp_end_marker()[0]);
    }
    // the capture is the email
    assert(sp_find_sub(t, lit) == Some(0int)) by {
        assert(t.subrange(0, 16) =~= lit);
    }
    assert(sp_rfind_sub(t, ">"@) == Some(t.len() - 1)) by {
        assert(t.subrange(t.len() - 1, t.len() as int) =~= ">"@);
    }
    let pre = t.take(t.len() - 2);
    assert(pre.len() == 17 + nl + el);
    let q0 = 16 + nl;
    assert(pre.subrange(q0, q0 + 2) =~= " <"@);
    assert forall|p: int| q0 < p <= pre.len() - 2 implies #[trigger] pre.subrange(p, p + 2)
        != " <"@ by {
        if pre.subrange(p, p + 2) == " <"@ {
            assert(pre[p] == ' ' && pre[p + 1] == '<');
            assert(t[p] == ' ' && t[p + 1] == '<');
            if p == q0 + 1 {
                assert(t[p] == '<');
            } else {
                assert(b.email[p - 18 - nl] == ' ' && b.email[p - 18 - nl + 1] == '<');
            }
        }
    }
    assert(sp_rfind_sub(pre, " <"@) == Some(q0)) by {
        lemma_rfind_sub(pre, " <"@);
        match sp_rfind_sub(pre, " <"@) {
            None => {
                assert(pre.subrange(q0, q0 + 2) != " <"@);
            },
            Some(i) => {
                if i < q0 {
                    assert(pre.subrange(q0, q0 + 2) != " <"@);
                }
                if i > q0 {
                    assert(pre.subrange(i, i + 2) != " <"@);
                }
            },
        }
    }
    assert(t.subrange(q0 + 2, t.len() - 1) =~= b.email);
}

/// Reconstructs the active set from a template text: the lines between the
/// markers are matched as trailers and looked up in `buddies` by email;
/// anything unrecognized is ignored.
pub fn parse_active(template: &str, buddies: &Buddies) -> (r: Buddies)
    ensures
        r@ == sp_active_lines(sp_lines(template@), buddies@, false),
{
    let lines = split_lines(template);
    let ghost ls = lines@.map_values(|l: String| l@);
    let mut out: Vec<Buddy> = Vec::new();
    let mut inside = false;
    let mut i: usize = 0;
    proof {
        assert(ls.skip(0) =~= ls);
        assert(out@.map_values(|b: Buddy| b@) + sp_active_lines(ls, buddies@, false)
            =~= sp_active_lines(ls, buddies@, false));
    }
    while i < lines.len()
        invariant
            0 <= i <= lines@.len(),
            ls == lines@.map_values(|l: String| l@),
            out@.map_values(|b: Buddy| b@) + sp_active_lines(ls.skip(i as int), buddies@, inside)
                == sp_active_lines(ls, buddies@, false),
        decreases lines@.len() - i,
    {
        proof {
            assert(ls.skip(i as int)[0] == ls[i as int]);
            assert(ls[i as int] == lines@[i as int]@);
            assert(ls.skip(i as int).drop_first() =~= ls.skip(i as int + 1));
        }
        if line_is_begin(lines[i].as_str()) {
            inside = true;
        } else if line_is_end(lines[i].as_str()) {
            inside = false;
        } else if inside {
            match capture_email(lines[i].as_str()) {
                Some(email) => {
                    match buddies.get_buddy_by_email(email.as_str()) {
                        Some(b) => {
                            let ghost oldout = out@;
                            let nb = b.clone();
                            out.push(nb);
                            proof {
                                assert(out@.map_values(|b: Buddy| b@) =~= oldout.map_values(
                                    |b: Buddy| b@,
                                ).push(nb@));
                            }
                        },
                        None => {},
                    }
                },
                None => {},
            }
        }
        i += 1;
        proof {
            assert(out@.map_values(|b: Buddy| b@) + sp_active_lines(
                ls.skip(i as int),
                buddies@,
                inside,
            ) =~= sp_active_lines(ls, buddies@, false));
        }
    }
    proof {
        assert(ls.skip(lines@.len() as int) =~= Seq::<Seq<char>>::empty());
        assert(out@.map_values(|b: Buddy| b@) =~= sp_active_lines(ls, buddies@, false));
    }
    Buddies::new(out)
}

/// Rewrites a template text for the given active set, as the render
/// specification has it.
pub fn write_active(template: &str, active: &Buddies) -> (r: String)
    ensures
        r@ == sp_render(template@, active@),
{
    let lines = split_lines(template);
    let ghost ls = lines@.map_values(|l: String| l@);
    let mut joined = String::new();
    let mut skipping = false;
    let mut i: usize = 0;
    proof {
        assert(ls.skip(0) =~= ls);
        assert(joined@ + sp_join_nl(sp_kept_lines(ls, false)) =~= sp_join_nl(
            sp_kept_lines(ls, false),
        ));
    }
    while i < lines.len()
        invariant
            0 <= i <= lines@.len(),
            ls == lines@.map_values(|l: String| l@),
            joined@ + sp_join_nl(sp_kept_lines(ls.skip(i as int), skipping)) == sp_join_nl(
                sp_kept_lines(ls, false),
            ),
        decreases lines@.len() - i,
    {
        proof {
            assert(ls.skip(i as int)[0] == ls[i as int]);
            assert(ls[i as int] == lines@[i as int]@);
            assert(ls.skip(i as int).drop_first() =~= ls.skip(i as int + 1));
        }
        if line_is_begin(lines[i].as_str()) {
            skipping = true;
        } else if line_is_end(lines[i].as_str()) {
            skipping = false;
        } else if !skipping {
            let ghost oldjoined = joined@;
            joined.append(lines[i].as_str());
            joined.push('\n');
            proof {
                let kseq = sp_kept_lines(ls.skip(i as int), false);
                assert(kseq == seq![ls[i as int]] + sp_kept_lines(ls.skip(i as int + 1), false));
                assert(kseq[0] == ls[i as int]);
                assert(kseq.drop_first() =~= sp_kept_lines(ls.skip(i as int + 1), false));
                assert(joined@ =~= oldjoined + ls[i as int] + seq!['\n']);
            }
        }
        i += 1;
        proof {
            assert(joined@ + sp_join_nl(sp_kept_lines(ls.skip(i as int), skipping))
                =~= sp_join_nl(sp_kept_lines(ls, false)));
        }
    }
    proof {
        assert(ls.skip(lines@.len() as int) =~= Seq::<Seq<char>>::empty());
        assert(joined@ =~= sp_join_nl(sp_kept_lines(ls, false)));
    }
    let mut r = trim_end_str(joined.as_str());
    let ghost body = sp_trim_end(sp_join_nl(sp_kept_lines(sp_lines(template@), false)));
    if active.buddies.len() > 0 {
        r.append("\n\n");
        r.append("# BEGIN GIT-SQUAD");
        r.push('\n');
        let mut j: usize = 0;
        proof {
            assert(active@.skip(0) =~= active@);
            assert(r@ + sp_trailers(active@) + sp_end_marker() + seq!['\n'] =~= sp_render(
                template@,
                active@,
            ));
        }
        while j < active.buddies.len()
            invariant
                0 <= j <= active@.len(),
                active@.len() == active.buddies@.len(),
                r@ + sp_trailers(active@.skip(j as int)) + sp_end_marker() + seq!['\n']
                    == sp_render(template@, active@),
            decreases active@.len() - j,
        {
            proof {
                assert(active@.skip(j as int)[0] == active@[j as int]);
                assert(active@[j as int] == active.buddies@[j as int]@);
                assert(active@.skip(j as int).drop_first() =~= active@.skip(j as int + 1));
            }
            let line = active.buddies[j].format_co_author();
            r.append(line.as_str());
            r.push('\n');
            j += 1;
            proof {
                assert(r@ + sp_trailers(active@.skip(j as int)) + sp_end_marker() + seq!['\n']
                    =~= sp_render(template@, active@));
            }
        }
        r.append("# END GIT-SQUAD");
        r.push('\n');
        proof {
            assert(active@.skip(active@.len() as int) =~= Seq::<BuddyView>::empty());
            assert(r@ =~= sp_render(template@, active@));
        }
    } else {
        let blen = r.as_str().unicode_len();
        if blen > 0 {
            r.push('\n');
        }
        proof {
            assert(r@ =~= sp_render(template@, active@));
        }
    }
    r
}

} // verus!

verus! {

use crate::text::{
    lemma_join_concat,
    lemma_lines_no_nl,
    lemma_lines_add_final_nl,
    lemma_trim_end_lines,
    lemma_trim_end_append_ws,
    lemma_join_lines_roundtrip,
};

/// Lines kept by the rewrite walk are never marker lines, and hold no line
/// feed when the originals hold none.
proof fn lemma_kept_props(ls: Seq<Seq<char>>, skipping: bool)
    requires
        forall|i: int| 0 <= i < ls.len() ==> !(#[trigger] ls[i]).contains('\n'),
    ensures
        forall|l: Seq<char>|
            #[trigger] sp_kept_lines(ls, skipping).contains(l) ==> !is_begin_line(l)
                && !is_end_line(l) && !l.contains('\n'),
    decreases ls.len(),
{
    if ls.len() > 0 {
        assert forall|i: int| 0 <= i < ls.drop_first().len() implies !(
        #[trigger] ls.drop_first()[i]).contains('\n') by {
            assert(ls.drop_first()[i] == ls[i + 1]);
        }
        lemma_kept_props(ls.drop_first(), true);
        lemma_kept_props(ls.drop_first(), false);
        if !is_begin_line(ls[0]) && !is_end_line(ls[0]) && !skipping {
            assert forall|l: Seq<char>| #[trigger] sp_kept_lines(ls, skipping).contains(
                l,
            ) implies !is_begin_line(l) && !is_end_line(l) && !l.contains('\n') by {
                let i = choose|i: int|
                    0 <= i < sp_kept_lines(ls, skipping).len() && sp_kept_lines(ls, skipping)[i]
                        == l;
                if i == 0 {
                    assert(l == ls[0]);
                    assert(ls.contains(ls[0]));
                } else {
                    assert(sp_kept_lines(ls.drop_first(), false)[i - 1] == l);
                    assert(sp_kept_lines(ls.drop_first(), false).contains(l));
                }
            }
        } else {
            let flag = if is_begin_line(ls[0]) {
                true
            } else if is_end_line(ls[0]) {
                false
            } else {
                true
            };
            assert(sp_kept_lines(ls, skipping) == sp_kept_lines(ls.drop_first(), flag));
            assert forall|l: Seq<char>| #[trigger] sp_kept_lines(ls, skipping).contains(
                l,
            ) implies !is_begin_line(l) && !is_end_line(l) && !l.contains('\n') by {
                assert(sp_kept_lines(ls.drop_first(), flag).contains(l));
            }
        }
    }
}

/// The lines of a joined line sequence are the lines themselves, each less a
/// trailing carriage return.
proof fn lemma_lines_of_join(ls: Seq<Seq<char>>)
    requires
        forall|i: int| 0 <= i < ls.len() ==> !(#[trigger] ls[i]).contains('\n'),
    ensures
        sp_lines(sp_join_nl(ls)) == ls.map_values(|l: Seq<char>| strip_tail_cr(l)),
    decreases ls.len(),
{
    if ls.len() == 0 {
        assert(sp_lines(sp_join_nl(ls)) =~= ls.map_values(|l: Seq<char>| strip_tail_cr(l)));
    } else {
        assert forall|i: int| 0 <= i < ls.drop_first().len() implies !(
        #[trigger] ls.drop_first()[i]).contains('\n') by {
            assert(ls.drop_first()[i] == ls[i + 1]);
        }
        lemma_lines_of_join(ls.drop_first());
        assert(ls.contains(ls[0]));
        let l0 = ls[0];
        assert(sp_join_nl(ls) == l0 + seq!['\n'] + sp_join_nl(ls.drop_first()));
        assert((l0 + seq!['\n']) + sp_join_nl(ls.drop_first()) =~= sp_join_nl(ls));
        assert((l0 + seq!['\n']).last() == '\n');
        lemma_lines_append(l0 + seq!['\n'], sp_join_nl(ls.drop_first()), Seq::empty());
        lemma_line_complete(l0, Seq::empty());
        assert(Seq::empty() + l0 =~= l0);
        assert(sp_lines(sp_join_nl(ls)) =~= seq![strip_tail_cr(l0)] + sp_lines(
            sp_join_nl(ls.drop_first()),
        ));
        assert(sp_lines(sp_join_nl(ls)) =~= ls.map_values(|l: Seq<char>| strip_tail_cr(l)));
    }
}

/// No line of the newline-terminated body is a marker line.
proof fn lemma_body_lines_unmarked(t: Seq<char>)
    ensures
        forall|l: Seq<char>|
            #[trigger] sp_lines(sp_body(t) + seq!['\n']).contains(l) ==> !is_begin_line(l)
                && !is_end_line(l),
{
    let ls = sp_lines(t);
    let kept = sp_kept_lines(ls, false);
    let j = sp_join_nl(kept);
    let body = sp_body(t);
    lemma_lines_no_nl(t, Seq::empty());
    assert forall|i: int| 0 <= i < ls.len() implies !(#[trigger] ls[i]).contains('\n') by {}
    lemma_kept_props(ls, false);
    assert forall|i: int| 0 <= i < kept.len() implies !(#[trigger] kept[i]).contains('\n') by {
        assert(kept.contains(kept[i]));
    }
    lemma_lines_of_join(kept);
    lemma_trim_end_lines(j);
    lemma_trim_end_shape(j);
    if body.len() == 0 {
        reveal_strlit("# BEGIN GIT-SQUAD");
        reveal_strlit("# END GIT-SQUAD");
        assert(body + seq!['\n'] =~= seq!['\n']);
        assert((seq!['\n']).drop_first() =~= Seq::<char>::empty());
        assert(sp_lines_from(Seq::<char>::empty(), Seq::<char>::empty()) =~= Seq::<
            Seq<char>,
        >::empty());
        assert(sp_lines(seq!['\n']) =~= seq![Seq::<char>::empty()]);
        assert forall|l: Seq<char>| #[trigger] sp_lines(sp_body(t) + seq!['\n']).contains(
            l,
        ) implies !is_begin_line(l) && !is_end_line(l) by {
            assert(l =~= Seq::<char>::empty());
            assert(sp_trim_end(l) == l);
            assert(sp_trim(l).len() == 0);
            assert(sp_begin_marker().len() > 0);
            assert(sp_end_marker().len() > 0);
        }
    } else {
        assert(!is_ws_char(body.last())) by {
            assert(body[sp_trim_end(j).len() - 1] == j[sp_trim_end(j).len() - 1]);
        }
        lemma_lines_add_final_nl(body, Seq::empty());
        assert forall|l: Seq<char>| #[trigger] sp_lines(sp_body(t) + seq!['\n']).contains(
            l,
        ) implies !is_begin_line(l) && !is_end_line(l) by {
            assert(sp_lines(body).contains(l));
            let l2 = choose|l2: Seq<char>|
                #[trigger] sp_lines(j).contains(l2) && sp_trim(l2) == sp_trim(l);
            let i = choose|i: int| 0 <= i < sp_lines(j).len() && sp_lines(j)[i] == l2;
            assert(sp_lines(j)[i] == kept.map_values(|x: Seq<char>| strip_tail_cr(x))[i]);
            assert(l2 == strip_tail_cr(kept[i]));
            assert(kept.contains(kept[i]));
            assert(sp_trim_end(l2) == sp_trim_end(kept[i]));
            assert(sp_trim(l2) == sp_trim(kept[i]));
        }
    }
}

/// Marker-free lines ahead of the block contribute nothing to the parse.
proof fn lemma_active_prefix(xs: Seq<Seq<char>>, rest: Seq<Seq<char>>, dir: Seq<BuddyView>)
    requires
        forall|l: Seq<char>| #[trigger] xs.contains(l) ==> !is_begin_line(l) && !is_end_line(l),
    ensures
        sp_active_lines(xs + rest, dir, false) == sp_active_lines(rest, dir, false),
    decreases xs.len(),
{
    if xs.len() == 0 {
        assert(xs + rest =~= rest);
    } else {
        assert(xs.contains(xs[0]));
        assert((xs + rest)[0] == xs[0]);
        assert((xs + rest).drop_first() =~= xs.drop_first() + rest);
        assert forall|l: Seq<char>| #[trigger] xs.drop_first().contains(l) implies !is_begin_line(
            l,
        ) && !is_end_line(l) by {
            let i = choose|i: int| 0 <= i < xs.drop_first().len() && xs.drop_first()[i] == l;
            assert(xs[i + 1] == l);
            assert(xs.contains(l));
        }
        lemma_active_prefix(xs.drop_first(), rest, dir);
    }
}

/// Inside the block, the trailer lines of a set whose members the directory
/// resolves to themselves parse back to exactly that set.
proof fn lemma_active_block(active: Seq<BuddyView>, dir: Seq<BuddyView>)
    requires
        forall|i: int| 0 <= i < active.len() ==> sp_writable_member(#[trigger] active[i]),
        forall|i: int|
            0 <= i < active.len() ==> sp_find_by_email(dir, (#[trigger] active[i]).email)
                == Some(active[i]),
    ensures
        sp_active_lines(sp_trailer_lines(active) + seq![sp_end_marker()], dir, true) == active,
    decreases active.len(),
{
    reveal_strlit("# BEGIN GIT-SQUAD");
    reveal_strlit("# END GIT-SQUAD");
    let e = sp_end_marker();
    assert(sp_trim_end(e) == e);
    assert(sp_trim_start(e) == e);
    assert(is_end_line(e));
    assert(!is_begin_line(e)) by {
        assert(e[2] != sp_begin_marker()[2]);
    }
    if active.len() == 0 {
        assert(sp_trailer_lines(active) + seq![sp_end_marker()] =~= seq![e]);
        assert((seq![e]).drop_first() =~= Seq::<Seq<char>>::empty());
        assert(sp_active_lines(Seq::<Seq<char>>::empty(), dir, false) =~= Seq::<
            BuddyView,
        >::empty());
        assert(sp_active_lines(seq![e], dir, true) =~= active);
    } else {
        let b0 = active[0];
        lemma_trailer_line(b0);
        let all = sp_trailer_lines(active) + seq![sp_end_marker()];
        assert(all[0] == co_author_line(b0));
        assert(!is_begin_line(all[0]) && !is_end_line(all[0]));
        assert(sp_captured_email(all[0]) == Some(b0.email));
        assert(all.drop_first() =~= sp_trailer_lines(active.drop_first()) + seq![
            sp_end_marker(),
        ]);
        assert forall|i: int| 0 <= i < active.drop_first().len() implies sp_writable_member(
            #[trigger] active.drop_first()[i],
        ) && sp_find_by_email(dir, active.drop_first()[i].email) == Some(
            active.drop_first()[i],
        ) by {
            assert(active.drop_first()[i] == active[i + 1]);
        }
        lemma_active_block(active.drop_first(), dir);
        assert(sp_active_lines(all, dir, true) =~= seq![b0] + sp_active_lines(
            all.drop_first(),
            dir,
            true,
        ));
        assert(sp_active_lines(all, dir, true) =~= active);
    }
}

} // verus!

verus! {

use crate::text::{lemma_lines_no_cr, lemma_join_no_cr};

/// Kept lines come from the original lines.
proof fn lemma_kept_membership(ls: Seq<Seq<char>>, skipping: bool)
    ensures
        forall|l: Seq<char>| #[trigger] sp_kept_lines(ls, skipping).contains(l) ==> ls.contains(l),
    decreases ls.len(),
{
    if ls.len() > 0 {
        lemma_kept_membership(ls.drop_first(), true);
        lemma_kept_membership(ls.drop_first(), false);
        assert forall|l: Seq<char>| #[trigger] sp_kept_lines(ls, skipping).contains(
            l,
        ) implies ls.contains(l) by {
            let i = choose|i: int|
                0 <= i < sp_kept_lines(ls, skipping).len() && sp_kept_lines(ls, skipping)[i] == l;
            if !is_begin_line(ls[0]) && !is_end_line(ls[0]) && !skipping {
                if i == 0 {
                    assert(ls[0] == l);
                } else {
                    assert(sp_kept_lines(ls.drop_first(), false)[i - 1] == l);
                    assert(sp_kept_lines(ls.drop_first(), false).contains(l));
                }
            } else {
                let flag = if is_begin_line(ls[0]) {
                    true
                } else if is_end_line(ls[0]) {
                    false
                } else {
                    true
                };
                assert(sp_kept_lines(ls, skipping) == sp_kept_lines(ls.drop_first(), flag));
                assert(sp_kept_lines(ls.drop_first(), flag).contains(l));
            }
            if ls.drop_first().contains(l) {
                let j = choose|j: int|
                    0 <= j < ls.drop_first().len() && ls.drop_first()[j] == l;
                assert(ls[j + 1] == l);
            }
        }
    }
}

/// The body of a carriage-return-free template is carriage-return-free.
proof fn lemma_body_no_cr(t: Seq<char>)
    requires
        !t.contains('\r'),
    ensures
        !sp_body(t).contains('\r'),
{
    let ls = sp_lines(t);
    let kept = sp_kept_lines(ls, false);
    let j = sp_join_nl(kept);
    lemma_lines_no_cr(t, Seq::empty());
    lemma_kept_membership(ls, false);
    assert forall|i: int| 0 <= i < kept.len() implies !(#[trigger] kept[i]).contains('\r') by {
        assert(kept.contains(kept[i]));
        assert(ls.contains(kept[i]));
        let m = choose|m: int| 0 <= m < ls.len() && ls[m] == kept[i];
    }
    lemma_join_no_cr(kept);
    lemma_trim_end_shape(j);
    if sp_body(t).contains('\r') {
        let i = choose|i: int| 0 <= i < sp_body(t).len() && sp_body(t)[i] == '\r';
        assert(sp_body(t)[i] == j[i]);
        assert(j.contains('\r'));
    }
}

/// Marker-free lines ahead of the block are kept verbatim.
proof fn lemma_kept_prefix(xs: Seq<Seq<char>>, rest: Seq<Seq<char>>)
    requires
        forall|l: Seq<char>| #[trigger] xs.contains(l) ==> !is_begin_line(l) && !is_end_line(l),
    ensures
        sp_kept_lines(xs + rest, false) == xs + sp_kept_lines(rest, false),
    decreases xs.len(),
{
    if xs.len() == 0 {
        assert(xs + rest =~= rest);
        assert(xs + sp_kept_lines(rest, false) =~= sp_kept_lines(rest, false));
    } else {
        assert(xs.contains(xs[0]));
        assert((xs + rest)[0] == xs[0]);
        assert((xs + rest).drop_first() =~= xs.drop_first() + rest);
        assert forall|l: Seq<char>| #[trigger] xs.drop_first().contains(l) implies !is_begin_line(
            l,
        ) && !is_end_line(l) by {
            let i = choose|i: int| 0 <= i < xs.drop_first().len() && xs.drop_first()[i] == l;
            assert(xs[i + 1] == l);
            assert(xs.contains(l));
        }
        lemma_kept_prefix(xs.drop_first(), rest);
        assert(sp_kept_lines(xs + rest, false) =~= xs + sp_kept_lines(rest, false));
    }
}

/// The whole block is dropped by the rewrite walk.
proof fn lemma_kept_block(active: Seq<BuddyView>)
    requires
        forall|i: int| 0 <= i < active.len() ==> sp_writable_member(#[trigger] active[i]),
    ensures
        sp_kept_lines(sp_trailer_lines(active) + seq![sp_end_marker()], true) == Seq::<
            Seq<char>,
        >::empty(),
    decreases active.len(),
{
    reveal_strlit("# BEGIN GIT-SQUAD");
    reveal_strlit("# END GIT-SQUAD");
    let e = sp_end_marker();
    assert(sp_trim_end(e) == e);
    assert(sp_trim_start(e) == e);
    assert(is_end_line(e));
    assert(!is_begin_line(e)) by {
        assert(e[2] != sp_begin_marker()[2]);
    }
    if active.len() == 0 {
        assert(sp_trailer_lines(active) + seq![sp_end_marker()] =~= seq![e]);
        assert((seq![e]).drop_first() =~= Seq::<Seq<char>>::empty());
        assert(sp_kept_lines(Seq::<Seq<char>>::empty(), false) =~= Seq::<Seq<char>>::empty());
        assert(sp_kept_lines(seq![e], true) =~= Seq::<Seq<char>>::empty());
    } else {
        lemma_trailer_line(active[0]);
        let all = sp_trailer_lines(active) + seq![sp_end_marker()];
        assert(all[0] == co_author_line(active[0]));
        assert(all.drop_first() =~= sp_trailer_lines(active.drop_first()) + seq![
            sp_end_marker(),
        ]);
        assert forall|i: int| 0 <= i < active.drop_first().len() implies sp_writable_member(
            #[trigger] active.drop_first()[i],
        ) by {
            assert(active.drop_first()[i] == active[i + 1]);
        }
        lemma_kept_block(active.drop_first());
        assert(sp_kept_lines(all, true) =~= Seq::<Seq<char>>::empty());
    }
}

/// The lines of the rendered trailers followed by more text.
proof fn lemma_lines_of_trailers(active: Seq<BuddyView>, x: Seq<char>)
    requires
        forall|i: int| 0 <= i < active.len() ==> sp_writable_member(#[trigger] active[i]),
    ensures
        sp_lines(sp_trailers(active) + x) == sp_trailer_lines(active) + sp_lines(x),
    decreases active.len(),
{
    if active.len() == 0 {
        assert(sp_trailers(active) + x =~= x);
        assert(sp_trailer_lines(active) + sp_lines(x) =~= sp_lines(x));
    } else {
        let t0 = co_author_line(active[0]);
        lemma_trailer_line(active[0]);
        assert(sp_trailers(active) + x =~= (t0 + seq!['\n']) + (sp_trailers(active.drop_first())
            + x));
        assert((t0 + seq!['\n']).last() == '\n');
        lemma_lines_append(t0 + seq!['\n'], sp_trailers(active.drop_first()) + x, Seq::empty());
        lemma_line_complete(t0, Seq::empty());
        assert(Seq::empty() + t0 =~= t0);
        assert forall|i: int| 0 <= i < active.drop_first().len() implies sp_writable_member(
            #[trigger] active.drop_first()[i],
        ) by {
            assert(active.drop_first()[i] == active[i + 1]);
        }
        lemma_lines_of_trailers(active.drop_first(), x);
        assert(sp_lines(sp_trailers(active) + x) =~= sp_trailer_lines(active) + sp_lines(x));
    }
}

/// The lines of a rendered template with a non-empty active set: the body's
/// lines, a blank line, the begin marker, one trailer per member, the end
/// marker.
proof fn lemma_render_lines(t: Seq<char>, active: Seq<BuddyView>)
    requires
        active.len() > 0,
        forall|i: int| 0 <= i < active.len() ==> sp_writable_member(#[trigger] active[i]),
    ensures
        sp_lines(sp_render(t, active)) == sp_lines(sp_body(t) + seq!['\n']) + seq![
            Seq::<char>::empty(),
        ] + seq![sp_begin_marker()] + sp_trailer_lines(active) + seq![sp_end_marker()],
{
    reveal_strlit("\n\n");
    reveal_strlit("# BEGIN GIT-SQUAD");
    reveal_strlit("# END GIT-SQUAD");
    let body = sp_body(t);
    let bmk = sp_begin_marker();
    let emk = sp_end_marker();
    let rest3 = sp_trailers(active) + (emk + seq!['\n']);
    let rest2 = (bmk + seq!['\n']) + rest3;
    let rest1 = seq!['\n'] + rest2;
    assert(sp_render(t, active) =~= (body + seq!['\n']) + rest1);
    assert((body + seq!['\n']).last() == '\n');
    lemma_lines_append(body + seq!['\n'], rest1, Seq::empty());
    let nlseq: Seq<char> = seq!['\n'];
    assert(nlseq.last() == '\n');
    lemma_lines_append(nlseq, rest2, Seq::empty());
    assert(sp_lines(nlseq) =~= seq![Seq::<char>::empty()]) by {
        assert(nlseq.drop_first() =~= Seq::<char>::empty());
        assert(sp_lines_from(Seq::<char>::empty(), Seq::<char>::empty()) =~= Seq::<
            Seq<char>,
        >::empty());
        assert(strip_tail_cr(Seq::<char>::empty()) =~= Seq::<char>::empty());
    }
    assert(!bmk.contains('\n')) by {
        if bmk.contains('\n') {
            let i = choose|i: int| 0 <= i < bmk.len() && bmk[i] == '\n';
        }
    }
    assert(!emk.contains('\n')) by {
        if emk.contains('\n') {
            let i = choose|i: int| 0 <= i < emk.len() && emk[i] == '\n';
        }
    }
    assert((bmk + seq!['\n']).last() == '\n');
    lemma_lines_append(bmk + seq!['\n'], rest3, Seq::empty());
    lemma_line_complete(bmk, Seq::empty());
    assert(Seq::empty() + bmk =~= bmk);
    assert(strip_tail_cr(bmk) == bmk);
    lemma_lines_of_trailers(active, emk + seq!['\n']);
    lemma_line_complete(emk, Seq::empty());
    assert(Seq::empty() + emk =~= emk);
    assert(strip_tail_cr(emk) == emk);
    assert(sp_lines(emk + seq!['\n']) =~= seq![emk]);
    assert(sp_lines(sp_render(t, active)) =~= sp_lines(body + seq!['\n']) + seq![
        Seq::<char>::empty(),
    ] + seq![bmk] + sp_trailer_lines(active) + seq![emk]);
}

} // verus!

verus! {

/// Round trip: parsing a rendered template against a directory that resolves
/// every member of the active set to itself recovers exactly the active set,
/// whatever the starting text.
pub proof fn lemma_parse_write_round_trip(
    t: Seq<char>,
    active: Seq<BuddyView>,
    dir: Seq<BuddyView>,
)
    requires
        forall|i: int| 0 <= i < active.len() ==> sp_writable_member(#[trigger] active[i]),
        forall|i: int|
            0 <= i < active.len() ==> sp_find_by_email(dir, (#[trigger] active[i]).email)
                == Some(active[i]),
    ensures
        sp_active_lines(sp_lines(sp_render(t, active)), dir, false) == active,
{
    reveal_strlit("# BEGIN GIT-SQUAD");
    reveal_strlit("# END GIT-SQUAD");
    let body = sp_body(t);
    lemma_body_lines_unmarked(t);
    if active.len() == 0 {
        if body.len() == 0 {
            assert(sp_render(t, active) == body);
            assert(sp_lines(body) =~= Seq::<Seq<char>>::empty());
            assert(sp_active_lines(Seq::<Seq<char>>::empty(), dir, false) =~= active);
        } else {
            assert(sp_render(t, active) == body + seq!['\n']);
            let xs = sp_lines(body + seq!['\n']);
            assert forall|l: Seq<char>| #[trigger] xs.contains(l) implies !is_begin_line(l)
                && !is_end_line(l) by {}
            lemma_active_prefix(xs, Seq::empty(), dir);
            assert(xs + Seq::<Seq<char>>::empty() =~= xs);
            assert(sp_active_lines(Seq::<Seq<char>>::empty(), dir, false) =~= active);
        }
    } else {
        lemma_render_lines(t, active);
        let bmk = sp_begin_marker();
        let emk = sp_end_marker();
        let xs = sp_lines(body + seq!['\n']) + seq![Seq::<char>::empty()];
        let rest = seq![bmk] + (sp_trailer_lines(active) + seq![emk]);
        assert(sp_lines(sp_render(t, active)) =~= xs + rest);
        assert forall|l: Seq<char>| #[trigger] xs.contains(l) implies !is_begin_line(l)
            && !is_end_line(l) by {
            let i = choose|i: int| 0 <= i < xs.len() && xs[i] == l;
            if i < sp_lines(body + seq!['\n']).len() {
                assert(sp_lines(body + seq!['\n']).contains(l));
            } else {
                assert(l =~= Seq::<char>::empty());
                assert(sp_trim_end(l) == l);
                assert(sp_trim(l).len() == 0);
                assert(bmk.len() > 0 && emk.len() > 0);
            }
        }
        lemma_active_prefix(xs, rest, dir);
        assert(sp_trim_end(bmk) == bmk);
        assert(sp_trim_start(bmk) == bmk);
        assert(is_begin_line(bmk));
        assert(rest[0] == bmk);
        assert(rest.drop_first() =~= sp_trailer_lines(active) + seq![emk]);
        lemma_active_block(active, dir);
        assert(sp_active_lines(rest, dir, false) == sp_active_lines(
            sp_trailer_lines(active) + seq![emk],
            dir,
            true,
        ));
        assert(sp_active_lines(sp_lines(sp_render(t, active)), dir, false) == active);
    }
}

/// The body survives a rewrite: rendering a rendered template computes the
/// same body again.
proof fn lemma_body_of_render(t: Seq<char>, active: Seq<BuddyView>)
    requires
        !t.contains('\r'),
        forall|i: int| 0 <= i < active.len() ==> sp_writable_member(#[trigger] active[i]),
    ensures
        sp_body(sp_render(t, active)) == sp_body(t),
{
    reveal_strlit("# BEGIN GIT-SQUAD");
    reveal_strlit("# END GIT-SQUAD");
    let body = sp_body(t);
    let w = sp_render(t, active);
    lemma_body_lines_unmarked(t);
    lemma_body_no_cr(t);
    lemma_trim_end_shape(sp_join_nl(sp_kept_lines(sp_lines(t), false)));
    let j = sp_join_nl(sp_kept_lines(sp_lines(t), false));
    assert(body.len() > 0 ==> !is_ws_char(body.last())) by {
        if body.len() > 0 {
            assert(body[sp_trim_end(j).len() - 1] == j[sp_trim_end(j).len() - 1]);
        }
    }
    let bl = sp_lines(body + seq!['\n']);
    assert forall|i: int| 0 <= i < bl.len() implies !is_begin_line(#[trigger] bl[i])
        && !is_end_line(bl[i]) by {
        assert(bl.contains(bl[i]));
    }
    let emptyline: Seq<char> = Seq::empty();
    assert(!is_begin_line(emptyline) && !is_end_line(emptyline)) by {
        assert(sp_trim_end(emptyline) == emptyline);
        assert(sp_trim(emptyline).len() == 0);
        assert(sp_begin_marker().len() > 0 && sp_end_marker().len() > 0);
    }
    if active.len() == 0 {
        if body.len() == 0 {
            assert(w == body);
            assert(sp_lines(w) =~= Seq::<Seq<char>>::empty());
            assert(sp_kept_lines(Seq::<Seq<char>>::empty(), false) =~= Seq::<Seq<char>>::empty());
            assert(sp_join_nl(Seq::<Seq<char>>::empty()) =~= Seq::<char>::empty());
            assert(sp_body(w) =~= body);
        } else {
            assert(w == body + seq!['\n']);
            lemma_kept_prefix(bl, Seq::empty());
            assert(bl + Seq::<Seq<char>>::empty() =~= bl);
            assert(sp_kept_lines(Seq::<Seq<char>>::empty(), false) =~= Seq::<Seq<char>>::empty());
            assert(sp_kept_lines(sp_lines(w), false) =~= bl);
            assert(body.last() != '\n' && body.last() != '\r');
            lemma_lines_add_final_nl(body, Seq::empty());
            assert(bl == sp_lines(body));
            lemma_join_lines_roundtrip(body, Seq::empty());
            assert(Seq::empty() + body =~= body);
            assert(sp_join_nl(bl) == body + seq!['\n']);
            lemma_trim_end_append_ws(body, seq!['\n']);
            assert(sp_trim_end(body) == body);
            assert(sp_body(w) == body);
        }
    } else {
        lemma_render_lines(t, active);
        let bmk = sp_begin_marker();
        let emk = sp_end_marker();
        let xs = bl + seq![emptyline];
        let rest = seq![bmk] + (sp_trailer_lines(active) + seq![emk]);
        assert(sp_lines(w) =~= xs + rest);
        assert forall|l: Seq<char>| #[trigger] xs.contains(l) implies !is_begin_line(l)
            && !is_end_line(l) by {
            let i = choose|i: int| 0 <= i < xs.len() && xs[i] == l;
            if i < bl.len() {
                assert(bl[i] == l);
            } else {
                assert(l == emptyline);
            }
        }
        lemma_kept_prefix(xs, rest);
        assert(sp_trim_end(bmk) == bmk);
        assert(sp_trim_start(bmk) == bmk);
        assert(is_begin_line(bmk));
        assert(rest[0] == bmk);
        assert(rest.drop_first() =~= sp_trailer_lines(active) + seq![emk]);
        lemma_kept_block(active);
        assert(sp_kept_lines(rest, false) =~= Seq::<Seq<char>>::empty());
        assert(sp_kept_lines(sp_lines(w), false) =~= xs);
        lemma_join_concat(bl, seq![emptyline]);
        assert(sp_join_nl(seq![emptyline]) =~= seq!['\n']) by {
            assert((seq![emptyline]).drop_first() =~= Seq::<Seq<char>>::empty());
            assert(sp_join_nl(Seq::<Seq<char>>::empty()) =~= Seq::<char>::empty());
            assert(emptyline + seq!['\n'] + Seq::<char>::empty() =~= seq!['\n']);
        }
        if body.len() == 0 {
            assert(body + seq!['\n'] =~= seq!['\n']);
            let nlseq: Seq<char> = seq!['\n'];
            assert(sp_lines(nlseq) =~= seq![emptyline]) by {
                assert(nlseq.drop_first() =~= Seq::<char>::empty());
                assert(sp_lines_from(Seq::<char>::empty(), Seq::<char>::empty()) =~= Seq::<
                    Seq<char>,
                >::empty());
                assert(strip_tail_cr(emptyline) =~= emptyline);
            }
            assert(bl =~= seq![emptyline]);
            assert(sp_join_nl(xs) =~= seq!['\n'] + seq!['\n']);
            assert forall|i: int| 0 <= i < (seq!['\n'] + seq!['\n']).len() implies is_ws_char(
                #[trigger] (seq!['\n'] + seq!['\n'])[i],
            ) by {}
            lemma_trim_end_append_ws(Seq::empty(), seq!['\n'] + seq!['\n']);
            assert(Seq::empty() + (seq!['\n'] + seq!['\n']) =~= sp_join_nl(xs));
            assert(sp_trim_end(Seq::<char>::empty()) =~= Seq::<char>::empty());
            assert(sp_body(w) =~= body);
        } else {
            assert(body.last() != '\n' && body.last() != '\r');
            lemma_lines_add_final_nl(body, Seq::empty());
            assert(bl == sp_lines(body));
            lemma_join_lines_roundtrip(body, Seq::empty());
            assert(Seq::empty() + body =~= body);
            assert(sp_join_nl(bl) == body + seq!['\n']);
            assert(sp_join_nl(xs) =~= body + (seq!['\n'] + seq!['\n']));
            assert forall|i: int| 0 <= i < (seq!['\n'] + seq!['\n']).len() implies is_ws_char(
                #[trigger] (seq!['\n'] + seq!['\n'])[i],
            ) by {}
            lemma_trim_end_append_ws(body, seq!['\n'] + seq!['\n']);
            assert(sp_trim_end(body) == body);
            assert(sp_body(w) == body);
        }
    }
}

/// Rewriting twice with the same active set writes the same text: the
/// rewrite is idempotent.
pub proof fn lemma_write_idempotent(t: Seq<char>, active: Seq<BuddyView>)
    requires
        !t.contains('\r'),
        forall|i: int| 0 <= i < active.len() ==> sp_writable_member(#[trigger] active[i]),
    ensures
        sp_render(sp_render(t, active), active) == sp_render(t, active),
{
    lemma_body_of_render(t, active);
}

/// Clearing the session leaves no marker line behind.
pub proof fn lemma_clear_leaves_no_markers(t: Seq<char>)
    ensures
        forall|l: Seq<char>|
            #[trigger] sp_lines(sp_render(t, Seq::<BuddyView>::empty())).contains(l)
                ==> !is_begin_line(l) && !is_end_line(l),
{
    let body = sp_body(t);
    lemma_body_lines_unmarked(t);
    if body.len() == 0 {
        assert(sp_render(t, Seq::<BuddyView>::empty()) == body);
        assert(sp_lines(body) =~= Seq::<Seq<char>>::empty());
        assert forall|l: Seq<char>|
            #[trigger] sp_lines(sp_render(t, Seq::<BuddyView>::empty())).contains(
                l,
            ) implies !is_begin_line(l) && !is_end_line(l) by {}
    } else {
        assert(sp_render(t, Seq::<BuddyView>::empty()) == body + seq!['\n']);
    }
}

} // verus!
