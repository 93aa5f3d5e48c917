//! The identity model: a single collaborator record and an ordered,
//! alias-keyed directory of them.

use vstd::prelude::*;

verus! {

use crate::text::str_eq;

/// One collaborator.  `alias` is the lookup key inside a directory; `email`
/// is what co-author trailers are matched against.
pub struct Buddy {
    pub alias: String,
    pub name: String,
    pub email: String,
}

/// The mathematical value of a [`Buddy`]: its fields as character sequences.
#[verifier::ext_equal]
pub ghost struct BuddyView {
    pub alias: Seq<char>,
    pub name: Seq<char>,
    pub email: Seq<char>,
}

impl View for Buddy {
    type V = BuddyView;

    open spec fn view(&self) -> BuddyView {
        BuddyView { alias: self.alias@, name: self.name@, email: self.email@ }
    }
}

impl Clone for Buddy {
    fn clone(&self) -> (r: Self)
        ensures
            r@ == self@,
    {
        Buddy {
            alias: self.alias.clone(),
            name: self.name.clone(),
            email: self.email.clone(),
        }
    }
}

impl PartialEq for Buddy {
    fn eq(&self, other: &Buddy) -> (r: bool) {
        let same = str_eq(self.alias.as_str(), other.alias.as_str()) && str_eq(
            self.name.as_str(),
            other.name.as_str(),
        ) && str_eq(self.email.as_str(), other.email.as_str());
        proof {
            if same {
                assert(self@ =~= other@);
            }
        }
        same
    }
}

impl vstd::std_specs::cmp::PartialEqSpecImpl for Buddy {
    open spec fn obeys_eq_spec() -> bool {
        true
    }

    open spec fn eq_spec(&self, other: &Buddy) -> bool {
        self@ == other@
    }
}

/// `{name} <{email}>`.
pub open spec fn formatted_buddy(b: BuddyView) -> Seq<char> {
    b.name + " <"@ + b.email + ">"@
}

/// `Co-authored-by: {name} <{email}>`, the one line format the template
/// writer emits and the parser recognizes.
pub open spec fn co_author_line(b: BuddyView) -> Seq<char> {
    "Co-authored-by: "@ + formatted_buddy(b)
}

impl Buddy {
    pub fn format_buddy(&self) -> (r: String)
        ensures
            r@ == formatted_buddy(self@),
    {
        let mut r = String::new();
        r.append(self.name.as_str());
        r.append(" <");
        r.append(self.email.as_str());
        r.append(">");
        proof {
            assert(r@ =~= formatted_buddy(self@));
        }
        r
    }

    pub fn format_co_author(&self) -> (r: String)
        ensures
            r@ == co_author_line(self@),
    {
        let mut r = String::new();
        r.append("Co-authored-by: ");
        let tail = self.format_buddy();
        r.append(tail.as_str());
        proof {
            assert(r@ =~= co_author_line(self@));
        }
        r
    }
}

/// Why a directory operation was refused.
#[derive(Clone, Copy, Debug, PartialEq, Eq, Structural)]
pub enum BuddyError {
    /// `add` found the alias already taken.
    AliasExists,
    /// `forget` found no record under the alias.
    AliasUnknown,
}

/// Index of the first record carrying `alias`, if any.
pub open spec fn sp_first_alias_index(s: Seq<BuddyView>, alias: Seq<char>) -> Option<int>
    decreases s.len(),
{
    if s.len() == 0 {
        None
    } else if s[0].alias == alias {
        Some(0)
    } else {
        match sp_first_alias_index(s.drop_first(), alias) {
            None => None,
            Some(i) => Some(i + 1),
        }
    }
}

/// Index of the first record carrying `email`, if any.
pub open spec fn sp_first_email_index(s: Seq<BuddyView>, email: Seq<char>) -> Option<int>
    decreases s.len(),
{
    if s.len() == 0 {
        None
    } else if s[0].email == email {
        Some(0)
    } else {
        match sp_first_email_index(s.drop_first(), email) {
            None => None,
            Some(i) => Some(i + 1),
        }
    }
}

/// The first record carrying `alias`, if any.
pub open spec fn sp_find_by_alias(s: Seq<BuddyView>, alias: Seq<char>) -> Option<BuddyView> {
    match sp_first_alias_index(s, alias) {
        None => None,
        Some(i) => Some(s[i]),
    }
}

/// The first record carrying `email`, if any.
pub open spec fn sp_find_by_email(s: Seq<BuddyView>, email: Seq<char>) -> Option<BuddyView> {
    match sp_first_email_index(s, email) {
        None => None,
        Some(i) => Some(s[i]),
    }
}

/// `sp_first_alias_index` returns exactly the least index whose alias matches.
pub proof fn lemma_first_alias_index(s: Seq<BuddyView>, alias: Seq<char>)
    ensures
        match sp_first_alias_index(s, alias) {
            None => forall|j: int| 0 <= j < s.len() ==> s[j].alias != alias,
            Some(i) => 0 <= i < s.len() && s[i].alias == alias && forall|j: int|
                0 <= j < i ==> s[j].alias != alias,
        },
    decreases s.len(),
{
    if s.len() > 0 && s[0].alias != alias {
        lemma_first_alias_index(s.drop_first(), alias);
        assert forall|j: int| 1 <= j < s.len() implies s.drop_first()[j - 1] == s[j] by {}
    }
}

/// `sp_first_email_index` returns exactly the least index whose email matches.
pub proof fn lemma_first_email_index(s: Seq<BuddyView>, email: Seq<char>)
    ensures
        match sp_first_email_index(s, email) {
            None => forall|j: int| 0 <= j < s.len() ==> s[j].email != email,
            Some(i) => 0 <= i < s.len() && s[i].email == email && forall|j: int|
                0 <= j < i ==> s[j].email != email,
        },
    decreases s.len(),
{
    if s.len() > 0 && s[0].email != email {
        lemma_first_email_index(s.drop_first(), email);
        assert forall|j: int| 1 <= j < s.len() implies s.drop_first()[j - 1] == s[j] by {}
    }
}

/// The ordered directory of known buddies.  Lookups return the first record
/// under the key; `add` refuses duplicate aliases.
pub struct Buddies {
    pub buddies: Vec<Buddy>,
}

impl View for Buddies {
    type V = Seq<BuddyView>;

    open spec fn view(&self) -> Seq<BuddyView> {
        self.buddies@.map_values(|b: Buddy| b@)
    }
}

impl Default for Buddies {
    fn default() -> (r: Self)
        ensures
            r@ == Seq::<BuddyView>::empty(),
    {
        Buddies::empty()
    }
}

impl Buddies {
    pub fn new(buddies: Vec<Buddy>) -> (r: Self)
        ensures
            r@ == buddies@.map_values(|b: Buddy| b@),
    {
        Buddies { buddies }
    }

    /// The empty directory.
    pub fn empty() -> (r: Self)
        ensures
            r@ == Seq::<BuddyView>::empty(),
    {
        proof {
            assert(Seq::<Buddy>::empty().map_values(|b: Buddy| b@) =~= Seq::<
                BuddyView,
            >::empty());
        }
        Buddies { buddies: Vec::new() }
    }

    pub fn get(&self, alias: &str) -> (r: Option<&Buddy>)
        ensures
            match r {
                Some(b) => sp_find_by_alias(self@, alias@) == Some(b@),
                None => sp_find_by_alias(self@, alias@) is None,
            },
    {
        proof {
            lemma_first_alias_index(self@, alias@);
        }
        let n = self.buddies.len();
        let mut i: usize = 0;
        while i < n
            invariant
                n == self@.len(),
                0 <= i <= n,
                forall|j: int| 0 <= j < i ==> self@[j].alias != alias@,
                sp_first_alias_index(self@, alias@) is Some ==> sp_first_alias_index(
                    self@,
                    alias@,
                ).unwrap() >= i,
            decreases n - i,
        {
            proof {
                lemma_first_alias_index(self@, alias@);
            }
            if str_eq(self.buddies[i].alias.as_str(), alias) {
                proof {
                    assert(self@[i as int] == self.buddies@[i as int]@);
                    assert(self@[i as int].alias == alias@);
                    assert(sp_first_alias_index(self@, alias@) == Some(i as int));
                }
                return Some(&self.buddies[i]);
            }
            i += 1;
        }
        None
    }

    pub fn has(&self, alias: &str) -> (r: bool)
        ensures
            r == (sp_find_by_alias(self@, alias@) is Some),
    {
        self.get(alias).is_some()
    }

    pub fn get_buddy_by_email(&self, email: &str) -> (r: Option<&Buddy>)
        ensures
            match r {
                Some(b) => sp_find_by_email(self@, email@) == Some(b@),
                None => sp_find_by_email(self@, email@) is None,
            },
    {
        proof {
            lemma_first_email_index(self@, email@);
        }
        let n = self.buddies.len();
        let mut i: usize = 0;
        while i < n
            invariant
                n == self@.len(),
                0 <= i <= n,
                forall|j: int| 0 <= j < i ==> self@[j].email != email@,
                sp_first_email_index(self@, email@) is Some ==> sp_first_email_index(
                    self@,
                    email@,
                ).unwrap() >= i,
            decreases n - i,
        {
            proof {
                lemma_first_email_index(self@, email@);
            }
            if str_eq(self.buddies[i].email.as_str(), email) {
                proof {
                    assert(self@[i as int] == self.buddies@[i as int]@);
                    assert(self@[i as int].email == email@);
                    assert(sp_first_email_index(self@, email@) == Some(i as int));
                }
                return Some(&self.buddies[i]);
            }
            i += 1;
        }
        None
    }

    /// Appends a record, unless its alias is already taken.
    pub fn add(&mut self, buddy: Buddy) -> (r: Result<(), BuddyError>)
        ensures
            match r {
                Ok(()) => sp_find_by_alias(old(self)@, buddy@.alias) is None && final(self)@
                    == old(self)@.push(buddy@),
                Err(e) => e == BuddyError::AliasExists && sp_find_by_alias(
                    old(self)@,
                    buddy@.alias,
                ) is Some && final(self)@ == old(self)@,
            },
    {
        if self.has(buddy.alias.as_str()) {
            return Err(BuddyError::AliasExists);
        }
        self.buddies.push(buddy);
        proof {
            assert(self@ =~= old(self)@.push(self.buddies@.last()@));
        }
        Ok(())
    }

    /// Removes the first record under `alias` in place: the records around
    /// it keep their relative order, as the directory's insertion-order
    /// guarantee asks.
    pub fn forget(&mut self, alias: &str) -> (r: Result<(), BuddyError>)
        ensures
            match r {
                Ok(()) => sp_first_alias_index(old(self)@, alias@) is Some && final(self)@
                    == old(self)@.remove(
                    sp_first_alias_index(old(self)@, alias@).unwrap(),
                ),
                Err(e) => e == BuddyError::AliasUnknown && sp_first_alias_index(
                    old(self)@,
                    alias@,
                ) is None && final(self)@ == old(self)@,
            },
    {
        proof {
            lemma_first_alias_index(self@, alias@);
        }
        let n = self.buddies.len();
        let mut i: usize = 0;
        while i < n
            invariant
                n == self@.len(),
                0 <= i <= n,
                self.buddies == old(self).buddies,
                forall|j: int| 0 <= j < i ==> self@[j].alias != alias@,
                sp_first_alias_index(self@, alias@) is Some ==> sp_first_alias_index(
                    self@,
                    alias@,
                ).unwrap() >= i,
            decreases n - i,
        {
            proof {
                lemma_first_alias_index(self@, alias@);
            }
            if str_eq(self.buddies[i].alias.as_str(), alias) {
                proof {
                    assert(self@[i as int] == self.buddies@[i as int]@);
                    assert(self@[i as int].alias == alias@);
                    assert(sp_first_alias_index(self@, alias@) == Some(i as int));
                }
                self.buddies.remove(i);
                proof {
                    assert(self@ =~= old(self)@.remove(i as int));
                }
                return Ok(());
            }
            i += 1;
        }
        Err(BuddyError::AliasUnknown)
    }
}

} // verus!
