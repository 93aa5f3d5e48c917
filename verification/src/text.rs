//! Character classification and small string utilities shared by the alias
//! suggester and the template engine.
//!
//! Whitespace means the Unicode White_Space characters, the set behind
//! `char::is_whitespace`: name splitting, marker-line trimming and the
//! writer's trailing trim all treat exactly these characters as blank.

use vstd::prelude::*;

verus! {

/// Relies on String::push: appends the given character to the end of the string.
pub assume_specification[ String::push ](s: &mut String, c: char)
    ensures
        final(s)@ == old(s)@.push(c),
;

/// The characters that the library treats as whitespace: the Unicode
/// White_Space set, as `char::is_whitespace` has it.
pub open spec fn is_ws_char(c: char) -> bool {
    ||| c as u32 == 32
    ||| (9 <= c as u32 && c as u32 <= 13)
    ||| c as u32 == 0x85
    ||| c as u32 == 0xA0
    ||| c as u32 == 0x1680
    ||| (0x2000 <= c as u32 && c as u32 <= 0x200A)
    ||| c as u32 == 0x2028
    ||| c as u32 == 0x2029
    ||| c as u32 == 0x202F
    ||| c as u32 == 0x205F
    ||| c as u32 == 0x3000
}

/// ASCII decimal digit.
pub open spec fn is_digit_char(c: char) -> bool {
    48 <= c as u32 && c as u32 <= 57
}

/// ASCII letter, either case.
pub open spec fn is_alpha_char(c: char) -> bool {
    (65 <= c as u32 && c as u32 <= 90) || (97 <= c as u32 && c as u32 <= 122)
}

/// An upper-case ASCII letter is mapped to its lower-case form; everything
/// else is left alone.
pub open spec fn lower_char(c: char) -> char {
    if 65 <= c as u32 && c as u32 <= 90 {
        ((c as u32 + 32) as u8) as char
    } else {
        c
    }
}

pub fn char_is_ws(c: char) -> (r: bool)
    ensures
        r == is_ws_char(c),
{
    let u = c as u32;
    u == 32 || (9 <= u && u <= 13) || u == 0x85 || u == 0xA0 || u == 0x1680 || (0x2000 <= u && u
        <= 0x200A) || u == 0x2028 || u == 0x2029 || u == 0x202F || u == 0x205F || u == 0x3000
}

pub fn char_is_alpha(c: char) -> (r: bool)
    ensures
        r == is_alpha_char(c),
{
    let u = c as u32;
    (65 <= u && u <= 90) || (97 <= u && u <= 122)
}

pub fn char_to_lower(c: char) -> (r: char)
    ensures
        r == lower_char(c),
{
    let u = c as u32;
    if 65 <= u && u <= 90 {
        let l: u8 = (u as u8) + 32;
        l as char
    } else {
        c
    }
}

/// String equality as equality of the character sequences.
pub fn str_eq(a: &str, b: &str) -> (r: bool)
    ensures
        r == (a@ == b@),
{
    let oa = a.to_owned();
    let ob = b.to_owned();
    oa == ob
}

/// A line accumulated before a line feed loses one trailing carriage return,
/// so that both line-feed and carriage-return-line-feed endings delimit lines.
pub open spec fn strip_tail_cr(l: Seq<char>) -> Seq<char> {
    if l.len() > 0 && l.last() == '\r' {
        l.drop_last()
    } else {
        l
    }
}

/// The lines of `s` continued from a partial line `cur`: a line feed ends a
/// line, a final partial line counts, a final line feed adds none.
pub open spec fn sp_lines_from(s: Seq<char>, cur: Seq<char>) -> Seq<Seq<char>>
    decreases s.len(),
{
    if s.len() == 0 {
        if cur.len() == 0 {
            Seq::empty()
        } else {
            seq![cur]
        }
    } else if s[0] == '\n' {
        seq![strip_tail_cr(cur)] + sp_lines_from(s.drop_first(), Seq::empty())
    } else {
        sp_lines_from(s.drop_first(), cur.push(s[0]))
    }
}

/// The lines of a text.
pub open spec fn sp_lines(s: Seq<char>) -> Seq<Seq<char>> {
    sp_lines_from(s, Seq::empty())
}

/// Each line followed by a line feed, concatenated.
pub open spec fn sp_join_nl(ls: Seq<Seq<char>>) -> Seq<char>
    decreases ls.len(),
{
    if ls.len() == 0 {
        Seq::empty()
    } else {
        ls[0] + seq!['\n'] + sp_join_nl(ls.drop_first())
    }
}

/// `s` without its leading whitespace.
pub open spec fn sp_trim_start(s: Seq<char>) -> Seq<char>
    decreases s.len(),
{
    if s.len() > 0 && is_ws_char(s.first()) {
        sp_trim_start(s.drop_first())
    } else {
        s
    }
}

/// `s` without its trailing whitespace.
pub open spec fn sp_trim_end(s: Seq<char>) -> Seq<char>
    decreases s.len(),
{
    if s.len() > 0 && is_ws_char(s.last()) {
        sp_trim_end(s.drop_last())
    } else {
        s
    }
}

/// `s` without surrounding whitespace.
pub open spec fn sp_trim(s: Seq<char>) -> Seq<char> {
    sp_trim_start(sp_trim_end(s))
}

/// The trimmed-at-the-end text is the prefix that ends at the last
/// non-whitespace character.
pub proof fn lemma_trim_end_shape(s: Seq<char>)
    ensures
        sp_trim_end(s).len() <= s.len(),
        sp_trim_end(s) == s.take(sp_trim_end(s).len() as int),
        forall|m: int| sp_trim_end(s).len() <= m < s.len() ==> is_ws_char(#[trigger] s[m]),
        sp_trim_end(s).len() > 0 ==> !is_ws_char(s[sp_trim_end(s).len() - 1]),
    decreases s.len(),
{
    if s.len() > 0 && is_ws_char(s.last()) {
        lemma_trim_end_shape(s.drop_last());
        assert(s.drop_last().take(sp_trim_end(s).len() as int) =~= s.take(
            sp_trim_end(s).len() as int,
        ));
        assert forall|m: int| sp_trim_end(s).len() <= m < s.len() implies is_ws_char(
            #[trigger] s[m],
        ) by {
            if m < s.len() - 1 {
                assert(is_ws_char(s.drop_last()[m]));
            }
        }
        if sp_trim_end(s).len() > 0 {
            assert(s.drop_last()[sp_trim_end(s).len() - 1] == s[sp_trim_end(s).len() - 1]);
        }
    } else {
        assert(s.take(s.len() as int) =~= s);
    }
}

/// The trimmed-at-the-start text is the suffix that starts at the first
/// non-whitespace character.
pub proof fn lemma_trim_start_shape(s: Seq<char>)
    ensures
        sp_trim_start(s).len() <= s.len(),
        sp_trim_start(s) == s.skip(s.len() - sp_trim_start(s).len()),
        forall|m: int| 0 <= m < s.len() - sp_trim_start(s).len() ==> is_ws_char(#[trigger] s[m]),
        sp_trim_start(s).len() > 0 ==> !is_ws_char(s[s.len() - sp_trim_start(s).len()]),
    decreases s.len(),
{
    if s.len() > 0 && is_ws_char(s.first()) {
        lemma_trim_start_shape(s.drop_first());
        assert(s.drop_first() =~= s.skip(1));
        assert(s.drop_first().skip(s.len() - 1 - sp_trim_start(s).len()) =~= s.skip(
            s.len() - sp_trim_start(s).len(),
        ));
        assert forall|m: int| 0 <= m < s.len() - sp_trim_start(s).len() implies is_ws_char(
            #[trigger] s[m],
        ) by {
            if m > 0 {
                assert(is_ws_char(s.drop_first()[m - 1]));
            }
        }
        if sp_trim_start(s).len() > 0 {
            assert(s.drop_first()[s.len() - 1 - sp_trim_start(s).len()] == s[s.len()
                - sp_trim_start(s).len()]);
        }
    } else {
        assert(s.skip(0) =~= s);
    }
}

/// Splitting distributes over concatenation at a line-feed boundary.
pub proof fn lemma_lines_append(a: Seq<char>, b: Seq<char>, cur: Seq<char>)
    requires
        a.len() > 0,
        a.last() == '\n',
    ensures
        sp_lines_from(a + b, cur) == sp_lines_from(a, cur) + sp_lines_from(b, Seq::empty()),
    decreases a.len(),
{
    if a.len() == 1 {
        assert(a[0] == '\n');
        assert((a + b).drop_first() =~= b);
        assert(a.drop_first() =~= Seq::<char>::empty());
        assert(sp_lines_from(Seq::<char>::empty(), Seq::<char>::empty()) =~= Seq::<
            Seq<char>,
        >::empty());
        assert(sp_lines_from(a, cur) =~= seq![strip_tail_cr(cur)]);
        assert(sp_lines_from(a + b, cur) =~= seq![strip_tail_cr(cur)] + sp_lines_from(
            b,
            Seq::empty(),
        ));
        assert(sp_lines_from(a, cur) + sp_lines_from(b, Seq::empty()) =~= sp_lines_from(
            a + b,
            cur,
        ));
    } else {
        let a2 = a.drop_first();
        assert(a2.last() == a.last());
        assert((a + b).drop_first() =~= a2 + b);
        if a[0] == '\n' {
            lemma_lines_append(a2, b, Seq::empty());
            assert(sp_lines_from(a, cur) + sp_lines_from(b, Seq::empty()) =~= sp_lines_from(
                a + b,
                cur,
            ));
        } else {
            lemma_lines_append(a2, b, cur.push(a[0]));
            assert(sp_lines_from(a, cur) + sp_lines_from(b, Seq::empty()) =~= sp_lines_from(
                a + b,
                cur,
            ));
        }
    }
}

/// A chunk without line feeds followed by one line feed is exactly one line.
pub proof fn lemma_line_complete(x: Seq<char>, cur: Seq<char>)
    requires
        !x.contains('\n'),
    ensures
        sp_lines_from(x + seq!['\n'], cur) == seq![strip_tail_cr(cur + x)],
    decreases x.len(),
{
    if x.len() == 0 {
        assert(x + seq!['\n'] =~= seq!['\n']);
        assert((seq!['\n']).drop_first() =~= Seq::<char>::empty());
        assert(cur + x =~= cur);
        assert(sp_lines_from(Seq::<char>::empty(), Seq::<char>::empty()) =~= Seq::<
            Seq<char>,
        >::empty());
        assert(sp_lines_from(x + seq!['\n'], cur) =~= seq![strip_tail_cr(cur + x)]);
    } else {
        assert(x[0] != '\n');
        assert((x + seq!['\n'])[0] == x[0]);
        assert((x + seq!['\n']).drop_first() =~= x.drop_first() + seq!['\n']);
        assert(!x.drop_first().contains('\n')) by {
            if x.drop_first().contains('\n') {
                let i = choose|i: int|
                    0 <= i < x.drop_first().len() && x.drop_first()[i] == '\n';
                assert(x[i + 1] == '\n');
            }
        }
        lemma_line_complete(x.drop_first(), cur.push(x[0]));
        assert(cur.push(x[0]) + x.drop_first() =~= cur + x);
    }
}

/// Joining distributes over concatenation of line sequences.
pub proof fn lemma_join_concat(a: Seq<Seq<char>>, b: Seq<Seq<char>>)
    ensures
        sp_join_nl(a + b) == sp_join_nl(a) + sp_join_nl(b),
    decreases a.len(),
{
    if a.len() == 0 {
        assert(a + b =~= b);
        assert(sp_join_nl(a) + sp_join_nl(b) =~= sp_join_nl(a + b));
    } else {
        assert((a + b).drop_first() =~= a.drop_first() + b);
        lemma_join_concat(a.drop_first(), b);
        assert(sp_join_nl(a) + sp_join_nl(b) =~= sp_join_nl(a + b));
    }
}

/// Every produced line is free of line feeds.
pub proof fn lemma_lines_no_nl(s: Seq<char>, cur: Seq<char>)
    requires
        !cur.contains('\n'),
    ensures
        forall|i: int|
            0 <= i < sp_lines_from(s, cur).len() ==> !(#[trigger] sp_lines_from(s, cur)[i]).contains(
                '\n',
            ),
    decreases s.len(),
{
    if s.len() == 0 {
        assert forall|i: int| 0 <= i < sp_lines_from(s, cur).len() implies !(
        #[trigger] sp_lines_from(s, cur)[i]).contains('\n') by {
            assert(sp_lines_from(s, cur)[i] == cur);
        }
    } else if s[0] == '\n' {
        lemma_lines_no_nl(s.drop_first(), Seq::empty());
        assert(!strip_tail_cr(cur).contains('\n')) by {
            if strip_tail_cr(cur).contains('\n') {
                let i = choose|i: int|
                    0 <= i < strip_tail_cr(cur).len() && strip_tail_cr(cur)[i] == '\n';
                assert(cur[i] == '\n');
                assert(cur.contains('\n'));
            }
        }
        assert forall|i: int| 0 <= i < sp_lines_from(s, cur).len() implies !(
        #[trigger] sp_lines_from(s, cur)[i]).contains('\n') by {
            if i > 0 {
                assert(sp_lines_from(s, cur)[i] == sp_lines_from(s.drop_first(), Seq::empty())[i
                    - 1]);
            }
        }
    } else {
        assert(!cur.push(s[0]).contains('\n')) by {
            if cur.push(s[0]).contains('\n') {
                let i = choose|i: int| 0 <= i < cur.push(s[0]).len() && cur.push(s[0])[i] == '\n';
                if i < cur.len() {
                    assert(cur[i] == '\n');
                    assert(cur.contains('\n'));
                }
            }
        }
        lemma_lines_no_nl(s.drop_first(), cur.push(s[0]));
        assert(sp_lines_from(s, cur) == sp_lines_from(s.drop_first(), cur.push(s[0])));
    }
}

/// Lines of a carriage-return-free text are carriage-return-free.
pub proof fn lemma_lines_no_cr(s: Seq<char>, cur: Seq<char>)
    requires
        !s.contains('\r'),
        !cur.contains('\r'),
    ensures
        forall|i: int|
            0 <= i < sp_lines_from(s, cur).len() ==> !(#[trigger] sp_lines_from(s, cur)[i]).contains(
                '\r',
            ),
    decreases s.len(),
{
    if s.len() == 0 {
        assert forall|i: int| 0 <= i < sp_lines_from(s, cur).len() implies !(
        #[trigger] sp_lines_from(s, cur)[i]).contains('\r') by {
            assert(sp_lines_from(s, cur)[i] == cur);
        }
    } else {
        assert(s[0] != '\r');
        assert(!s.drop_first().contains('\r')) by {
            if s.drop_first().contains('\r') {
                let i = choose|i: int|
                    0 <= i < s.drop_first().len() && s.drop_first()[i] == '\r';
                assert(s[i + 1] == '\r');
                assert(s.contains('\r'));
            }
        }
        if s[0] == '\n' {
            lemma_lines_no_cr(s.drop_first(), Seq::empty());
            assert(strip_tail_cr(cur) == cur) by {
                if cur.len() > 0 && cur.last() == '\r' {
                    assert(cur.contains('\r'));
                }
            }
            assert forall|i: int| 0 <= i < sp_lines_from(s, cur).len() implies !(
            #[trigger] sp_lines_from(s, cur)[i]).contains('\r') by {
                if i > 0 {
                    assert(sp_lines_from(s, cur)[i] == sp_lines_from(
                        s.drop_first(),
                        Seq::empty(),
                    )[i - 1]);
                }
            }
        } else {
            assert(!cur.push(s[0]).contains('\r')) by {
                if cur.push(s[0]).contains('\r') {
                    let i = choose|i: int|
                        0 <= i < cur.push(s[0]).len() && cur.push(s[0])[i] == '\r';
                    if i < cur.len() {
                        assert(cur[i] == '\r');
                        assert(cur.contains('\r'));
                    }
                }
            }
            lemma_lines_no_cr(s.drop_first(), cur.push(s[0]));
            assert(sp_lines_from(s, cur) == sp_lines_from(s.drop_first(), cur.push(s[0])));
        }
    }
}

/// A join of carriage-return-free lines is carriage-return-free.
pub proof fn lemma_join_no_cr(ls: Seq<Seq<char>>)
    requires
        forall|i: int| 0 <= i < ls.len() ==> !(#[trigger] ls[i]).contains('\r'),
    ensures
        !sp_join_nl(ls).contains('\r'),
    decreases ls.len(),
{
    if ls.len() == 0 {
        if sp_join_nl(ls).contains('\r') {
            let i = choose|i: int| 0 <= i < sp_join_nl(ls).len() && sp_join_nl(ls)[i] == '\r';
        }
    } else {
        assert forall|i: int| 0 <= i < ls.drop_first().len() implies !(
        #[trigger] ls.drop_first()[i]).contains('\r') by {
            assert(ls.drop_first()[i] == ls[i + 1]);
        }
        lemma_join_no_cr(ls.drop_first());
        if sp_join_nl(ls).contains('\r') {
            let i = choose|i: int| 0 <= i < sp_join_nl(ls).len() && sp_join_nl(ls)[i] == '\r';
            if i < ls[0].len() {
                assert(ls[0][i] == '\r');
                assert(ls.contains(ls[0]));
                assert(ls[0].contains('\r'));
            } else if i > ls[0].len() {
                assert(sp_join_nl(ls.drop_first())[i - ls[0].len() - 1] == '\r');
                assert(sp_join_nl(ls.drop_first()).contains('\r'));
            }
        }
    }
}

/// Appending a final line feed to a text that ends in neither line feed nor
/// carriage return leaves its lines unchanged.
pub proof fn lemma_lines_add_final_nl(s: Seq<char>, cur: Seq<char>)
    requires
        s.len() > 0,
        s.last() != '\n',
        s.last() != '\r',
    ensures
        sp_lines_from(s + seq!['\n'], cur) == sp_lines_from(s, cur),
    decreases s.len(),
{
    assert((s + seq!['\n'])[0] == s[0]);
    assert((s + seq!['\n']).drop_first() =~= s.drop_first() + seq!['\n']);
    if s.len() == 1 {
        let c = s[0];
        assert(c != '\n' && c != '\r');
        assert((s + seq!['\n']).drop_first() =~= seq!['\n']);
        assert((seq!['\n']).drop_first() =~= Seq::<char>::empty());
        assert(strip_tail_cr(cur.push(c)) =~= cur.push(c));
        assert(s.drop_first() =~= Seq::<char>::empty());
        assert(sp_lines_from(Seq::<char>::empty(), cur.push(c)) =~= seq![cur.push(c)]);
        assert(sp_lines_from(Seq::<char>::empty(), Seq::<char>::empty()) =~= Seq::<
            Seq<char>,
        >::empty());
        assert(sp_lines_from(seq!['\n'], cur.push(c)) =~= seq![strip_tail_cr(cur.push(c))]
            + sp_lines_from(Seq::<char>::empty(), Seq::<char>::empty()));
        assert(sp_lines_from(seq!['\n'], cur.push(c)) =~= seq![cur.push(c)]);
        assert(sp_lines_from(s + seq!['\n'], cur) =~= seq![cur.push(c)]);
        assert(sp_lines_from(s, cur) =~= seq![cur.push(c)]);
    } else {
        assert(s.drop_first().last() == s.last());
        if s[0] == '\n' {
            lemma_lines_add_final_nl(s.drop_first(), Seq::empty());
            assert(sp_lines_from(s + seq!['\n'], cur) =~= sp_lines_from(s, cur));
        } else {
            lemma_lines_add_final_nl(s.drop_first(), cur.push(s[0]));
            assert(sp_lines_from(s + seq!['\n'], cur) =~= sp_lines_from(s, cur));
        }
    }
}

/// Dropping one trailing whitespace character changes each line at most by
/// trailing whitespace: every line of the shorter text trims like a line of
/// the longer one.
pub proof fn lemma_drop_last_ws_lines(s: Seq<char>, cur: Seq<char>)
    requires
        s.len() > 0,
        is_ws_char(s.last()),
    ensures
        forall|l: Seq<char>|
            #[trigger] sp_lines_from(s.drop_last(), cur).contains(l) ==> exists|l2: Seq<char>|
                #[trigger] sp_lines_from(s, cur).contains(l2) && sp_trim(l2) == sp_trim(l),
    decreases s.len(),
{
    if s.len() == 1 {
        let c = s[0];
        assert(s.drop_last() =~= Seq::<char>::empty());
        assert forall|l: Seq<char>| #[trigger] sp_lines_from(s.drop_last(), cur).contains(
            l,
        ) implies exists|l2: Seq<char>|
            #[trigger] sp_lines_from(s, cur).contains(l2) && sp_trim(l2) == sp_trim(l) by {
            assert(l == cur);
            if c == '\n' {
                assert(s.drop_first() =~= Seq::<char>::empty());
                assert(sp_lines_from(Seq::<char>::empty(), Seq::<char>::empty()) =~= Seq::<
                    Seq<char>,
                >::empty());
                assert(sp_lines_from(s, cur) =~= seq![strip_tail_cr(cur)]);
                assert(sp_lines_from(s, cur)[0] == strip_tail_cr(cur));
                assert(sp_lines_from(s, cur).contains(strip_tail_cr(cur)));
                assert(strip_tail_cr(cur).len() > 0 ==> strip_tail_cr(cur) == cur.drop_last()
                    || strip_tail_cr(cur) == cur);
                assert(sp_trim_end(strip_tail_cr(cur)) == sp_trim_end(cur));
                assert(sp_trim(strip_tail_cr(cur)) == sp_trim(cur));
            } else {
                assert(s.drop_first() =~= Seq::<char>::empty());
                assert(sp_lines_from(Seq::<char>::empty(), cur.push(c)) =~= seq![cur.push(c)]);
                assert(sp_lines_from(s, cur) =~= seq![cur.push(c)]);
                assert(sp_lines_from(s, cur)[0] == cur.push(c));
                assert(sp_lines_from(s, cur).contains(cur.push(c)));
                assert(cur.push(c).drop_last() =~= cur);
                assert(sp_trim_end(cur.push(c)) == sp_trim_end(cur));
            }
        }
    } else {
        let c0 = s[0];
        assert(s.drop_last().len() > 0);
        assert(s.drop_last()[0] == c0);
        assert(s.drop_first().last() == s.last());
        assert(s.drop_last().drop_first() =~= s.drop_first().drop_last());
        if c0 == '\n' {
            lemma_drop_last_ws_lines(s.drop_first(), Seq::empty());
            assert forall|l: Seq<char>| #[trigger] sp_lines_from(s.drop_last(), cur).contains(
                l,
            ) implies exists|l2: Seq<char>|
                #[trigger] sp_lines_from(s, cur).contains(l2) && sp_trim(l2) == sp_trim(l) by {
                let i = choose|i: int|
                    0 <= i < sp_lines_from(s.drop_last(), cur).len() && sp_lines_from(
                        s.drop_last(),
                        cur,
                    )[i] == l;
                if i == 0 {
                    assert(sp_lines_from(s, cur)[0] == l);
                    assert(sp_lines_from(s, cur).contains(l));
                } else {
                    assert(sp_lines_from(s.drop_first().drop_last(), Seq::empty())[i - 1] == l);
                    assert(sp_lines_from(s.drop_first().drop_last(), Seq::empty()).contains(l));
                    let l2 = choose|l2: Seq<char>|
                        #[trigger] sp_lines_from(s.drop_first(), Seq::empty()).contains(l2)
                            && sp_trim(l2) == sp_trim(l);
                    let j = choose|j: int|
                        0 <= j < sp_lines_from(s.drop_first(), Seq::empty()).len()
                            && sp_lines_from(s.drop_first(), Seq::empty())[j] == l2;
                    assert(sp_lines_from(s, cur)[j + 1] == l2);
                    assert(sp_lines_from(s, cur).contains(l2));
                }
            }
        } else {
            lemma_drop_last_ws_lines(s.drop_first(), cur.push(c0));
            assert forall|l: Seq<char>| #[trigger] sp_lines_from(s.drop_last(), cur).contains(
                l,
            ) implies exists|l2: Seq<char>|
                #[trigger] sp_lines_from(s, cur).contains(l2) && sp_trim(l2) == sp_trim(l) by {
                assert(sp_lines_from(s.drop_last(), cur) == sp_lines_from(
                    s.drop_first().drop_last(),
                    cur.push(c0),
                ));
                assert(sp_lines_from(s.drop_first().drop_last(), cur.push(c0)).contains(l));
                let l2 = choose|l2: Seq<char>|
                    #[trigger] sp_lines_from(s.drop_first(), cur.push(c0)).contains(l2)
                        && sp_trim(l2) == sp_trim(l);
                assert(sp_lines_from(s, cur) == sp_lines_from(s.drop_first(), cur.push(c0)));
                assert(sp_lines_from(s, cur).contains(l2));
            }
        }
    }
}

/// Every line of the right-trimmed text trims like some line of the text.
pub proof fn lemma_trim_end_lines(s: Seq<char>)
    ensures
        forall|l: Seq<char>|
            #[trigger] sp_lines(sp_trim_end(s)).contains(l) ==> exists|l2: Seq<char>|
                #[trigger] sp_lines(s).contains(l2) && sp_trim(l2) == sp_trim(l),
    decreases s.len(),
{
    if s.len() > 0 && is_ws_char(s.last()) {
        lemma_trim_end_lines(s.drop_last());
        lemma_drop_last_ws_lines(s, Seq::empty());
        assert(sp_trim_end(s) == sp_trim_end(s.drop_last()));
        assert forall|l: Seq<char>| #[trigger] sp_lines(sp_trim_end(s)).contains(l) implies exists|
            l2: Seq<char>,
        |
            #[trigger] sp_lines(s).contains(l2) && sp_trim(l2) == sp_trim(l) by {
            assert(sp_lines(sp_trim_end(s.drop_last())).contains(l));
            let la = choose|la: Seq<char>|
                #[trigger] sp_lines(s.drop_last()).contains(la) && sp_trim(la) == sp_trim(l);
            assert(sp_lines_from(s.drop_last(), Seq::empty()).contains(la));
            let lb = choose|lb: Seq<char>|
                #[trigger] sp_lines_from(s, Seq::empty()).contains(lb) && sp_trim(lb) == sp_trim(
                    la,
                );
            assert(sp_lines(s).contains(lb));
        }
    } else {
        assert(sp_trim_end(s) == s);
        assert forall|l: Seq<char>| #[trigger] sp_lines(sp_trim_end(s)).contains(l) implies exists|
            l2: Seq<char>,
        |
            #[trigger] sp_lines(s).contains(l2) && sp_trim(l2) == sp_trim(l) by {
            assert(sp_lines(s).contains(l) && sp_trim(l) == sp_trim(l));
        }
    }
}

/// Trailing whitespace is invisible to the right trim.
pub proof fn lemma_trim_end_append_ws(x: Seq<char>, w: Seq<char>)
    requires
        forall|i: int| 0 <= i < w.len() ==> is_ws_char(#[trigger] w[i]),
    ensures
        sp_trim_end(x + w) == sp_trim_end(x),
    decreases w.len(),
{
    if w.len() == 0 {
        assert(x + w =~= x);
    } else {
        assert((x + w).last() == w.last());
        assert((x + w).drop_last() =~= x + w.drop_last());
        lemma_trim_end_append_ws(x, w.drop_last());
    }
}

/// Joining the lines of a carriage-return-free text restores it, up to the
/// final line feed.
pub proof fn lemma_join_lines_roundtrip(s: Seq<char>, cur: Seq<char>)
    requires
        !s.contains('\r'),
        !cur.contains('\r'),
    ensures
        sp_join_nl(sp_lines_from(s, cur)) == if s.len() > 0 && s.last() == '\n' {
            cur + s
        } else if cur.len() + s.len() > 0 {
            cur + s + seq!['\n']
        } else {
            Seq::<char>::empty()
        },
    decreases s.len(),
{
    if s.len() == 0 {
        if cur.len() > 0 {
            assert(sp_lines_from(s, cur) =~= seq![cur]);
            assert((seq![cur]).drop_first() =~= Seq::<Seq<char>>::empty());
            assert(sp_join_nl(Seq::<Seq<char>>::empty()) =~= Seq::<char>::empty());
            assert(sp_join_nl(seq![cur]) =~= cur + seq!['\n'] + Seq::<char>::empty());
            assert(sp_join_nl(sp_lines_from(s, cur)) =~= cur + s + seq!['\n']);
        }
    } else {
        assert(s[0] != '\r');
        assert(!s.drop_first().contains('\r')) by {
            if s.drop_first().contains('\r') {
                let i = choose|i: int|
                    0 <= i < s.drop_first().len() && s.drop_first()[i] == '\r';
                assert(s[i + 1] == '\r');
                assert(s.contains('\r'));
            }
        }
        if s[0] == '\n' {
            assert(strip_tail_cr(cur) == cur) by {
                if cur.len() > 0 && cur.last() == '\r' {
                    assert(cur.contains('\r'));
                }
            }
            lemma_join_lines_roundtrip(s.drop_first(), Seq::empty());
            assert((seq![cur] + sp_lines_from(s.drop_first(), Seq::empty())).drop_first()
                =~= sp_lines_from(s.drop_first(), Seq::empty()));
            if s.len() == 1 {
                assert(s.drop_first() =~= Seq::<char>::empty());
                assert(sp_join_nl(sp_lines_from(s, cur)) =~= cur + s);
            } else if s.drop_first().last() == '\n' {
                assert(s.last() == '\n');
                assert(sp_join_nl(sp_lines_from(s, cur)) =~= cur + s);
            } else {
                assert(s.last() != '\n');
                assert(sp_join_nl(sp_lines_from(s, cur)) =~= cur + s + seq!['\n']);
            }
        } else {
            assert(!cur.push(s[0]).contains('\r')) by {
                if cur.push(s[0]).contains('\r') {
                    let i = choose|i: int|
                        0 <= i < cur.push(s[0]).len() && cur.push(s[0])[i] == '\r';
                    if i < cur.len() {
                        assert(cur[i] == '\r');
                        assert(cur.contains('\r'));
                    }
                }
            }
            lemma_join_lines_roundtrip(s.drop_first(), cur.push(s[0]));
            assert(cur.push(s[0]) + s.drop_first() =~= cur + s);
            assert(sp_lines_from(s, cur) == sp_lines_from(s.drop_first(), cur.push(s[0])));
            if s.len() == 1 {
                assert(s.drop_first() =~= Seq::<char>::empty());
                assert(sp_join_nl(sp_lines_from(s, cur)) =~= cur + s + seq!['\n']);
            } else {
                assert(s.drop_first().last() == s.last());
                if s.last() == '\n' {
                    assert(sp_join_nl(sp_lines_from(s, cur)) =~= cur + s);
                } else {
                    assert(sp_join_nl(sp_lines_from(s, cur)) =~= cur + s + seq!['\n']);
                }
            }
        }
    }
}

/// Index of the first non-whitespace character, or the length if none.
fn first_non_ws(s: &str) -> (r: usize)
    ensures
        r <= s@.len(),
        forall|m: int| 0 <= m < r ==> is_ws_char(#[trigger] s@[m]),
        r < s@.len() ==> !is_ws_char(s@[r as int]),
{
    let n = s.unicode_len();
    let mut f: usize = 0;
    while f < n
        invariant
            0 <= f <= n,
            n == s@.len(),
            forall|m: int| 0 <= m < f ==> is_ws_char(#[trigger] s@[m]),
        decreases n - f,
    {
        if !char_is_ws(s.get_char(f)) {
            return f;
        }
        f += 1;
    }
    n
}

/// Index one past the last non-whitespace character, or zero if none.
fn end_non_ws(s: &str) -> (r: usize)
    ensures
        r <= s@.len(),
        forall|m: int| r <= m < s@.len() ==> is_ws_char(#[trigger] s@[m]),
        r > 0 ==> !is_ws_char(s@[r - 1]),
{
    let n = s.unicode_len();
    let mut l: usize = n;
    while l > 0
        invariant
            0 <= l <= n,
            n == s@.len(),
            forall|m: int| l <= m < n ==> is_ws_char(#[trigger] s@[m]),
        decreases l,
    {
        if !char_is_ws(s.get_char(l - 1)) {
            return l;
        }
        l -= 1;
    }
    0
}

/// `s` without surrounding whitespace, as the trim specification has it.
pub fn trim_str(s: &str) -> (r: String)
    ensures
        r@ == sp_trim(s@),
{
    let f = first_non_ws(s);
    proof {
        lemma_trim_end_shape(s@);
    }
    if f == s.unicode_len() {
        proof {
            assert(sp_trim_end(s@).len() == 0) by {
                if sp_trim_end(s@).len() > 0 {
                    assert(is_ws_char(s@[sp_trim_end(s@).len() - 1]));
                }
            }
            assert(sp_trim(s@) =~= Seq::<char>::empty());
        }
        return String::new();
    }
    let l = end_non_ws(s);
    proof {
        assert(l > f) by {
            if l <= f {
                assert(is_ws_char(s@[f as int]));
            }
        }
        assert(sp_trim_end(s@).len() == l) by {
            if sp_trim_end(s@).len() > l {
                assert(is_ws_char(s@[sp_trim_end(s@).len() - 1]));
            }
            if sp_trim_end(s@).len() < l {
                assert(is_ws_char(s@[l - 1]));
            }
        }
        let t = sp_trim_end(s@);
        lemma_trim_start_shape(t);
        assert(t == s@.take(l as int));
        assert(sp_trim_start(t).len() == l - f) by {
            if sp_trim_start(t).len() > l - f {
                assert(is_ws_char(t[t.len() - sp_trim_start(t).len()]));
                assert(t[t.len() - sp_trim_start(t).len()] == s@[l - sp_trim_start(t).len()]);
            }
            if sp_trim_start(t).len() < l - f {
                assert(is_ws_char(t[f as int]));
                assert(t[f as int] == s@[f as int]);
            }
        }
        assert(sp_trim(s@) =~= s@.subrange(f as int, l as int));
    }
    let r = s.substring_char(f, l).to_owned();
    r
}

/// `s` without trailing whitespace.
pub fn trim_end_str(s: &str) -> (r: String)
    ensures
        r@ == sp_trim_end(s@),
{
    let l = end_non_ws(s);
    proof {
        lemma_trim_end_shape(s@);
        assert(sp_trim_end(s@).len() == l) by {
            if sp_trim_end(s@).len() > l {
                assert(is_ws_char(s@[sp_trim_end(s@).len() - 1]));
            }
            if sp_trim_end(s@).len() < l {
                assert(is_ws_char(s@[l - 1]));
            }
        }
        assert(sp_trim_end(s@) =~= s@.subrange(0, l as int));
    }
    let r = s.substring_char(0, l).to_owned();
    r
}

/// Splits a text into its lines.
pub fn split_lines(s: &str) -> (r: Vec<String>)
    ensures
        r@.map_values(|l: String| l@) == sp_lines(s@),
{
    let n = s.unicode_len();
    let mut out: Vec<String> = Vec::new();
    let mut cur = String::new();
    let mut i: usize = 0;
    proof {
        assert(s@.skip(0) =~= s@);
        assert(out@.map_values(|l: String| l@) + sp_lines_from(s@, cur@) =~= sp_lines(s@));
    }
    while i < n
        invariant
            0 <= i <= n,
            n == s@.len(),
            out@.map_values(|l: String| l@) + sp_lines_from(s@.skip(i as int), cur@) == sp_lines(
                s@,
            ),
        decreases n - i,
    {
        let c = s.get_char(i);
        proof {
            assert(s@.skip(i as int)[0] == c);
            assert(s@.skip(i as int).drop_first() =~= s@.skip(i as int + 1));
        }
        if c == '\n' {
            let ghost oldcur = cur@;
            let ghost oldout = out@;
            let m = cur.as_str().unicode_len();
            let line: String;
            if m > 0 && cur.as_str().get_char(m - 1) == '\r' {
                line = cur.as_str().substring_char(0, m - 1).to_owned();
            } else {
                line = cur;
            }
            proof {
                assert(line@ =~= strip_tail_cr(oldcur));
            }
            out.push(line);
            cur = String::new();
            proof {
                assert(out@.map_values(|l: String| l@) =~= oldout.map_values(
                    |l: String| l@,
                ).push(line@));
            }
        } else {
            cur.push(c);
        }
        i += 1;
        proof {
            assert(out@.map_values(|l: String| l@) + sp_lines_from(s@.skip(i as int), cur@)
                =~= sp_lines(s@));
        }
    }
    if cur.as_str().unicode_len() > 0 {
        out.push(cur);
        proof {
            assert(out@.map_values(|l: String| l@) =~= sp_lines(s@));
        }
    } else {
        proof {
            assert(s@.skip(n as int) =~= Seq::<char>::empty());
            assert(out@.map_values(|l: String| l@) =~= sp_lines(s@));
        }
    }
    out
}

} // verus!
