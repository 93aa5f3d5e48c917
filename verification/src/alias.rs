//! Deterministic, collision-free alias suggestion.
//!
//! A suggested alias is built from the display name: split on whitespace,
//! keep only ASCII letters, take the first `k` letters of each word in lower
//! case, for the smallest budget `k` in `1..=4` whose result is unused.  A
//! name without letters falls back to `buddy`.  When every candidate is
//! taken, an increasing decimal counter is appended until the result is
//! free; the search provably stops before the counter can outgrow the
//! finite taken set.

use vstd::prelude::*;

verus! {

use crate::text::{
    is_ws_char,
    is_alpha_char,
    is_digit_char,
    lower_char,
    char_is_ws,
    char_is_alpha,
    char_to_lower,
    str_eq,
};
use crate::decimal::{sp_decimal, u128_to_decimal, lemma_decimal_digits, lemma_decimal_injective};

/// The alias that a budget of `k` letters per word yields, walking the name
/// left to right; `taken` counts the letters already kept from the current
/// word.
pub open spec fn sp_candidate_from(s: Seq<char>, k: nat, taken: nat) -> Seq<char>
    decreases s.len(),
{
    if s.len() == 0 {
        Seq::empty()
    } else if is_ws_char(s[0]) {
        sp_candidate_from(s.drop_first(), k, 0)
    } else if is_alpha_char(s[0]) && taken < k {
        seq![lower_char(s[0])] + sp_candidate_from(s.drop_first(), k, taken + 1)
    } else {
        sp_candidate_from(s.drop_first(), k, taken)
    }
}

/// The candidate alias for a whole name under budget `k`.
pub open spec fn sp_candidate(s: Seq<char>, k: nat) -> Seq<char> {
    sp_candidate_from(s, k, 0)
}

/// Whether the name holds any ASCII letter at all.
pub open spec fn sp_has_alpha(s: Seq<char>) -> bool {
    exists|i: int| 0 <= i < s.len() && is_alpha_char(#[trigger] s[i])
}

/// Lower-case ASCII letter or decimal digit: the only characters a
/// suggestion can contain.
pub open spec fn is_lower_or_digit_char(c: char) -> bool {
    (97 <= c as u32 && c as u32 <= 122) || is_digit_char(c)
}

/// Every character of a candidate is a lower-case letter.
pub proof fn lemma_candidate_chars(s: Seq<char>, k: nat, taken: nat)
    ensures
        forall|i: int|
            0 <= i < sp_candidate_from(s, k, taken).len() ==> 97 <= (
            #[trigger] sp_candidate_from(s, k, taken)[i]) as u32 <= 122,
    decreases s.len(),
{
    if s.len() > 0 {
        if is_ws_char(s[0]) {
            lemma_candidate_chars(s.drop_first(), k, 0);
            assert forall|i: int|
                0 <= i < sp_candidate_from(s, k, taken).len() implies 97 <= (
            #[trigger] sp_candidate_from(s, k, taken)[i]) as u32 <= 122 by {
                assert(sp_candidate_from(s, k, taken)[i] == sp_candidate_from(
                    s.drop_first(),
                    k,
                    0,
                )[i]);
            }
        } else if is_alpha_char(s[0]) && taken < k {
            lemma_candidate_chars(s.drop_first(), k, (taken + 1) as nat);
            let c = lower_char(s[0]);
            let rest = sp_candidate_from(s.drop_first(), k, (taken + 1) as nat);
            assert(97 <= c as u32 <= 122);
            assert forall|i: int|
                0 <= i < sp_candidate_from(s, k, taken).len() implies 97 <= (
            #[trigger] sp_candidate_from(s, k, taken)[i]) as u32 <= 122 by {
                if i > 0 {
                    assert(sp_candidate_from(s, k, taken)[i] == rest[i - 1]);
                }
            }
        } else {
            lemma_candidate_chars(s.drop_first(), k, taken);
            assert forall|i: int|
                0 <= i < sp_candidate_from(s, k, taken).len() implies 97 <= (
            #[trigger] sp_candidate_from(s, k, taken)[i]) as u32 <= 122 by {
                assert(sp_candidate_from(s, k, taken)[i] == sp_candidate_from(
                    s.drop_first(),
                    k,
                    taken,
                )[i]);
            }
        }
    }
}

/// With any budget at all, the candidate is non-empty exactly when the name
/// holds a letter.
pub proof fn lemma_candidate_nonempty(s: Seq<char>, k: nat, taken: nat)
    requires
        taken < k,
    ensures
        sp_candidate_from(s, k, taken).len() > 0 <==> sp_has_alpha(s),
    decreases s.len(),
{
    if s.len() > 0 {
        if is_ws_char(s[0]) {
            lemma_candidate_nonempty(s.drop_first(), k, 0);
        } else if is_alpha_char(s[0]) && taken < k {
        } else {
            lemma_candidate_nonempty(s.drop_first(), k, taken);
        }
        assert forall|i: int| 0 <= i < s.drop_first().len() implies s.drop_first()[i] == s[i + 1] by {}
        if sp_has_alpha(s) && !is_alpha_char(s[0]) {
            let w = choose|i: int| 0 <= i < s.len() && is_alpha_char(s[i]);
            assert(is_alpha_char(s.drop_first()[w - 1]));
        }
        if sp_has_alpha(s.drop_first()) {
            let w = choose|i: int|
                0 <= i < s.drop_first().len() && is_alpha_char(s.drop_first()[i]);
            assert(is_alpha_char(s[w + 1]));
        }
    }
}

/// `r` is `base` with a non-empty decimal suffix appended.
pub open spec fn sp_extended(base: Seq<char>, r: Seq<char>) -> bool {
    &&& r.len() > base.len()
    &&& r.subrange(0, base.len() as int) == base
    &&& forall|j: int| base.len() <= j < r.len() ==> is_digit_char(#[trigger] r[j])
}

/// What disambiguation promises: the result is unused, and it is `base`
/// itself whenever `base` is unused, else `base` plus the smallest counter
/// value whose candidate is unused.
pub open spec fn sp_disambiguated(ex: Seq<Seq<char>>, base: Seq<char>, r: Seq<char>) -> bool {
    &&& !ex.contains(r)
    &&& if !ex.contains(base) {
        r == base
    } else {
        sp_extended(base, r) && exists|k: nat|
            1 <= k && r == base + #[trigger] sp_decimal(k) && (forall|j: nat|
                1 <= j < k ==> ex.contains(base + #[trigger] sp_decimal(j)))
    }
}

/// The whole contract of suggestion: the fallback word when the name has no
/// letters, else the candidate under the smallest free budget, else the
/// largest candidate disambiguated by a counter.
pub open spec fn sp_suggestion(ex: Seq<Seq<char>>, name: Seq<char>, r: Seq<char>) -> bool {
    if name.len() == 0 || !sp_has_alpha(name) {
        sp_disambiguated(ex, "buddy"@, r)
    } else if !ex.contains(sp_candidate(name, 1)) {
        r == sp_candidate(name, 1)
    } else if !ex.contains(sp_candidate(name, 2)) {
        r == sp_candidate(name, 2)
    } else if !ex.contains(sp_candidate(name, 3)) {
        r == sp_candidate(name, 3)
    } else if !ex.contains(sp_candidate(name, 4)) {
        r == sp_candidate(name, 4)
    } else {
        sp_disambiguated(ex, sp_candidate(name, 4), r)
    }
}

/// Feeding a suggestion back into the taken set never yields it again:
/// successive suggestions are pairwise distinct.
pub proof fn lemma_suggest_never_repeats(
    ex: Seq<Seq<char>>,
    name: Seq<char>,
    r1: Seq<char>,
    r2: Seq<char>,
)
    requires
        sp_suggestion(ex, name, r1),
        !ex.contains(r1),
        sp_suggestion(ex.push(r1), name, r2),
        !ex.push(r1).contains(r2),
    ensures
        r2 != r1,
{
    assert(ex.push(r1)[ex.len() as int] == r1);
}

/// Two sequences sharing a prefix and equal as wholes agree past the prefix.
proof fn lemma_append_cancels(p: Seq<char>, x: Seq<char>, y: Seq<char>)
    requires
        p + x == p + y,
    ensures
        x == y,
{
    assert(x =~= (p + x).subrange(p.len() as int, (p + x).len() as int));
    assert(y =~= (p + y).subrange(p.len() as int, (p + y).len() as int));
}

/// Whether `s` occurs among the strings of `xs`.
fn contains_str(xs: &[String], s: &str) -> (r: bool)
    ensures
        r == xs@.map_values(|x: String| x@).contains(s@),
{
    let n = xs.len();
    let mut i: usize = 0;
    while i < n
        invariant
            0 <= i <= n,
            n == xs@.len(),
            forall|j: int| 0 <= j < i ==> (#[trigger] xs@[j])@ != s@,
        decreases n - i,
    {
        if str_eq(xs[i].as_str(), s) {
            proof {
                assert(xs@.map_values(|x: String| x@)[i as int] == s@);
            }
            return true;
        }
        i += 1;
    }
    proof {
        let m = xs@.map_values(|x: String| x@);
        assert forall|j: int| 0 <= j < m.len() implies #[trigger] m[j] != s@ by {
            assert(m[j] == xs@[j]@);
        }
        assert(!m.contains(s@));
    }
    false
}

pub trait AliasSuggester {
    fn suggest(&self, name: &str) -> String;
}

/// Suggests aliases that avoid a fixed set of existing ones.
pub struct UniqueAliasSuggester<'a> {
    pub existing_aliases: &'a [String],
}

impl<'a> UniqueAliasSuggester<'a> {
    /// The taken aliases as character sequences.
    pub open spec fn taken(&self) -> Seq<Seq<char>> {
        self.existing_aliases@.map_values(|x: String| x@)
    }

    pub fn new(existing_aliases: &'a [String]) -> (r: Self)
        ensures
            r.existing_aliases@ == existing_aliases@,
    {
        UniqueAliasSuggester { existing_aliases }
    }

    /// Appends an increasing decimal counter to `alias` until the result is
    /// unused; `alias` itself is returned when already unused.  The search
    /// terminates because distinct counter values yield distinct candidates
    /// while the taken set is finite.
    pub fn make_unique(&self, alias: String) -> (r: String)
        ensures
            sp_disambiguated(self.taken(), alias@, r@),
    {
        if !contains_str(self.existing_aliases, alias.as_str()) {
            return alias;
        }
        let n = self.existing_aliases.len();
        let ghost ex = self.taken();
        let ghost exset = ex.to_set();
        proof {
            broadcast use vstd::seq_lib::seq_to_set_is_finite;

            ex.lemma_cardinality_of_set();
        }
        let mut t: u128 = 1;
        let ghost mut seen: Set<Seq<char>> = Set::empty();
        loop
            invariant
                ex == self.taken(),
                exset == ex.to_set(),
                exset.finite(),
                exset.len() <= n,
                n == ex.len(),
                ex.contains(alias@),
                seen.finite(),
                seen.subset_of(exset),
                seen.len() <= exset.len(),
                1 <= t,
                t - 1 == seen.len(),
                forall|s: Seq<char>|
                    seen.contains(s) ==> exists|j: nat| 1 <= j < t && s == alias@ + sp_decimal(j),
                forall|j: nat| 1 <= j < t ==> ex.contains(alias@ + #[trigger] sp_decimal(j)),
            decreases exset.len() - seen.len(),
        {
            let suffix = u128_to_decimal(t);
            let mut candidate = alias.clone();
            candidate.append(suffix.as_str());
            if !contains_str(self.existing_aliases, candidate.as_str()) {
                proof {
                    assert(candidate@.subrange(0, alias@.len() as int) =~= alias@);
                    lemma_decimal_digits(t as nat);
                    assert forall|j: int|
                        alias@.len() <= j < candidate@.len() implies is_digit_char(
                        candidate@[j],
                    ) by {
                        assert(candidate@[j] == sp_decimal(t as nat)[j - alias@.len()]);
                    }
                    assert(1 <= t as nat && candidate@ == alias@ + sp_decimal(t as nat) && (
                    forall|j: nat|
                        1 <= j < t as nat ==> ex.contains(alias@ + #[trigger] sp_decimal(j))));
                }
                return candidate;
            }
            proof {
                broadcast use vstd::set::group_set_axioms;

                assert(exset.contains(candidate@));
                if seen.contains(candidate@) {
                    let j = choose|j: nat| 1 <= j < t && candidate@ == alias@ + sp_decimal(j);
                    lemma_append_cancels(alias@, sp_decimal(j), sp_decimal(t as nat));
                    lemma_decimal_injective(j, t as nat);
                    assert(false);
                }
                seen = seen.insert(candidate@);
                vstd::set_lib::lemma_len_subset(seen, exset);
            }
            t = t + 1;
        }
    }

    /// The word-compression step: the first `chars_per_word` ASCII letters
    /// of each whitespace-separated word, lower-cased and concatenated.
    pub fn create_alias_from_name(&self, name: &str, chars_per_word: usize) -> (r: String)
        ensures
            r@ == sp_candidate(name@, chars_per_word as nat),
    {
        let k = chars_per_word;
        let n = name.unicode_len();
        let mut r = String::new();
        let mut taken: usize = 0;
        let mut i: usize = 0;
        proof {
            assert(name@.skip(0) =~= name@);
            assert(r@ + sp_candidate_from(name@, k as nat, 0) =~= sp_candidate(
                name@,
                k as nat,
            ));
        }
        while i < n
            invariant
                0 <= i <= n,
                n == name@.len(),
                taken <= k,
                r@ + sp_candidate_from(name@.skip(i as int), k as nat, taken as nat)
                    == sp_candidate(name@, k as nat),
            decreases n - i,
        {
            let c = name.get_char(i);
            proof {
                assert(name@.skip(i as int)[0] == c);
                assert(name@.skip(i as int).drop_first() =~= name@.skip(i as int + 1));
            }
            if char_is_ws(c) {
                taken = 0;
            } else if char_is_alpha(c) && taken < k {
                r.push(char_to_lower(c));
                taken += 1;
            }
            i += 1;
            proof {
                assert(r@ + sp_candidate_from(name@.skip(i as int), k as nat, taken as nat)
                    =~= sp_candidate(name@, k as nat));
            }
        }
        proof {
            assert(name@.skip(n as int) =~= Seq::<char>::empty());
            assert(r@ =~= sp_candidate(name@, k as nat));
        }
        r
    }

    /// The full suggestion algorithm.  The result is never in the taken set,
    /// is non-empty, consists of lower-case letters and digits only (so it
    /// holds no whitespace), and is exactly what [`sp_suggestion`] describes.
    #[verifier::loop_isolation(false)]
    pub fn suggest(&self, name: &str) -> (r: String)
        ensures
            sp_suggestion(self.taken(), name@, r@),
            !self.taken().contains(r@),
            r@.len() > 0,
            forall|j: int| 0 <= j < r@.len() ==> is_lower_or_digit_char(#[trigger] r@[j]),
    {
        proof {
            lemma_buddy_chars();
        }
        if name.is_empty() {
            let r = self.make_unique("buddy".to_owned());
            proof {
                lemma_disambiguated_chars(self.taken(), "buddy"@, r@);
            }
            return r;
        }
        let mut k: usize = 1;
        while k <= 4
            invariant
                1 <= k <= 5,
                name@.len() > 0,
                forall|kk: nat|
                    1 <= kk < k ==> self.taken().contains(#[trigger] sp_candidate(name@, kk)),
                k > 1 ==> sp_has_alpha(name@),
            decreases 5 - k,
        {
            let alias = self.create_alias_from_name(name, k);
            if alias.as_str().is_empty() {
                proof {
                    lemma_candidate_nonempty(name@, k as nat, 0);
                }
                let r = self.make_unique("buddy".to_owned());
                proof {
                    lemma_disambiguated_chars(self.taken(), "buddy"@, r@);
                }
                return r;
            }
            proof {
                lemma_candidate_nonempty(name@, k as nat, 0);
            }
            if !contains_str(self.existing_aliases, alias.as_str()) {
                proof {
                    lemma_candidate_chars(name@, k as nat, 0);
                    assert(alias@ == sp_candidate(name@, k as nat));
                    assert(sp_suggestion(self.taken(), name@, alias@));
                }
                return alias;
            }
            k += 1;
        }
        let base = self.create_alias_from_name(name, 4);
        let r = self.make_unique(base);
        proof {
            assert(self.taken().contains(sp_candidate(name@, 1)));
            assert(self.taken().contains(sp_candidate(name@, 2)));
            assert(self.taken().contains(sp_candidate(name@, 3)));
            assert(self.taken().contains(sp_candidate(name@, 4)));
            lemma_candidate_chars(name@, 4, 0);
            lemma_candidate_nonempty(name@, 4, 0);
            lemma_disambiguated_chars(self.taken(), sp_candidate(name@, 4), r@);
            assert(sp_suggestion(self.taken(), name@, r@));
        }
        r
    }
}

/// The fallback word is non-empty and made of lower-case letters.
proof fn lemma_buddy_chars()
    ensures
        "buddy"@.len() == 5,
        forall|j: int| 0 <= j < "buddy"@.len() ==> is_lower_or_digit_char(#[trigger] "buddy"@[j]),
{
    reveal_strlit("buddy");
    assert forall|j: int| 0 <= j < "buddy"@.len() implies is_lower_or_digit_char(
        #[trigger] "buddy"@[j],
    ) by {
        assert("buddy"@[0] == 'b');
        assert("buddy"@[1] == 'u');
        assert("buddy"@[2] == 'd');
        assert("buddy"@[3] == 'd');
        assert("buddy"@[4] == 'y');
    }
}

/// A disambiguated result inherits its characters from the base plus decimal
/// digits, and is non-empty whenever the base is.
proof fn lemma_disambiguated_chars(ex: Seq<Seq<char>>, base: Seq<char>, r: Seq<char>)
    requires
        sp_disambiguated(ex, base, r),
        forall|j: int| 0 <= j < base.len() ==> is_lower_or_digit_char(#[trigger] base[j]),
        base.len() > 0,
    ensures
        r.len() > 0,
        forall|j: int| 0 <= j < r.len() ==> is_lower_or_digit_char(#[trigger] r[j]),
{
    if ex.contains(base) {
        assert forall|j: int| 0 <= j < r.len() implies is_lower_or_digit_char(r[j]) by {
            if j < base.len() {
                assert(r.subrange(0, base.len() as int)[j] == r[j]);
            }
        }
    }
}

impl<'a> AliasSuggester for UniqueAliasSuggester<'a> {
    fn suggest(&self, name: &str) -> String {
        UniqueAliasSuggester::suggest(self, name)
    }
}

/// One-shot convenience wrapper around [`UniqueAliasSuggester`].
pub fn suggest_alias(name: &str, aliases: &[String]) -> (r: String)
    ensures
        sp_suggestion(aliases@.map_values(|x: String| x@), name@, r@),
        !aliases@.map_values(|x: String| x@).contains(r@),
        r@.len() > 0,
        forall|j: int| 0 <= j < r@.len() ==> is_lower_or_digit_char(#[trigger] r@[j]),
{
    let suggester = UniqueAliasSuggester::new(aliases);
    suggester.suggest(name)
}

} // verus!
