//! The session engine: loading the active set from a template text, applying
//! one add, remove, clear or forget operation, and producing the rewritten
//! text.  Everything here is pure text-to-text; reading and writing the
//! template file is the caller's business.

use vstd::prelude::*;

verus! {

use crate::buddy::{
    Buddies,
    Buddy,
    BuddyView,
    BuddyError,
    sp_find_by_email,
    sp_first_alias_index,
};
use crate::template::{parse_active, write_active, sp_active_lines, sp_render};
use crate::text::sp_lines;

/// Why a session operation was refused.
#[derive(Clone, Copy, Debug, PartialEq, Eq, Structural)]
pub enum SessionError {
    /// Adding a buddy whose email is already attributed.
    AlreadyActive,
    /// Removing a buddy that is not attributed.
    NotActive,
}

/// The active set that a template text yields against a directory.
pub open spec fn sp_session(t: Seq<char>, dir: Seq<BuddyView>) -> Seq<BuddyView> {
    sp_active_lines(sp_lines(t), dir, false)
}

/// Appends `buddy` to the session and returns the rewritten template text;
/// refused when a member already carries the buddy's email.
pub fn add_to_session(template: &str, buddies: &Buddies, buddy: &Buddy) -> (r: Result<
    String,
    SessionError,
>)
    ensures
        match r {
            Ok(out) => sp_find_by_email(sp_session(template@, buddies@), buddy@.email) is None
                && out@ == sp_render(template@, sp_session(template@, buddies@).push(buddy@)),
            Err(e) => e == SessionError::AlreadyActive && sp_find_by_email(
                sp_session(template@, buddies@),
                buddy@.email,
            ) is Some,
        },
{
    let mut active = parse_active(template, buddies);
    if active.get_buddy_by_email(buddy.email.as_str()).is_some() {
        return Err(SessionError::AlreadyActive);
    }
    let ghost before = active@;
    active.buddies.push(buddy.clone());
    proof {
        assert(active@ =~= before.push(buddy@));
    }
    Ok(write_active(template, &active))
}

/// Removes the member under `alias` from the session, the other members
/// keeping their order, and returns the rewritten template text; refused
/// when no member carries the alias.
pub fn remove_from_session(template: &str, buddies: &Buddies, alias: &str) -> (r: Result<
    String,
    SessionError,
>)
    ensures
        match r {
            Ok(out) => sp_first_alias_index(sp_session(template@, buddies@), alias@) is Some
                && out@ == sp_render(
                template@,
                sp_session(template@, buddies@).remove(
                    sp_first_alias_index(sp_session(template@, buddies@), alias@).unwrap(),
                ),
            ),
            Err(e) => e == SessionError::NotActive && sp_first_alias_index(
                sp_session(template@, buddies@),
                alias@,
            ) is None,
        },
{
    let mut active = parse_active(template, buddies);
    match active.forget(alias) {
        Ok(()) => Ok(write_active(template, &active)),
        Err(_) => Err(SessionError::NotActive),
    }
}

/// Empties the session: the rewritten text holds no managed block at all.
pub fn clear_session(template: &str) -> (r: String)
    ensures
        r@ == sp_render(template@, Seq::<BuddyView>::empty()),
{
    let none = Buddies::empty();
    write_active(template, &none)
}

/// What the session looks like after a directory-level forget: the member
/// under the alias is gone if it was there, untouched otherwise.
pub open spec fn sp_session_without(t: Seq<char>, dir: Seq<BuddyView>, alias: Seq<char>) -> Seq<
    BuddyView,
> {
    let act = sp_session(t, dir);
    match sp_first_alias_index(act, alias) {
        Some(i) => act.remove(i),
        None => act,
    }
}

/// Forgets a buddy for good: removes it from the directory and, as a
/// best-effort side cleanup, from the session; returns the rewritten
/// template text.  Refused, with nothing changed, when the directory does
/// not know the alias.
pub fn forget_buddy(template: &str, buddies: &mut Buddies, alias: &str) -> (r: Result<
    String,
    BuddyError,
>)
    ensures
        match r {
            Ok(out) => {
                &&& sp_first_alias_index(old(buddies)@, alias@) is Some
                &&& final(buddies)@ == old(buddies)@.remove(
                    sp_first_alias_index(old(buddies)@, alias@).unwrap(),
                )
                &&& out@ == sp_render(
                    template@,
                    sp_session_without(template@, old(buddies)@, alias@),
                )
            },
            Err(e) => e == BuddyError::AliasUnknown && sp_first_alias_index(
                old(buddies)@,
                alias@,
            ) is None && final(buddies)@ == old(buddies)@,
        },
{
    let mut active = parse_active(template, buddies);
    match active.forget(alias) {
        Ok(()) => {},
        Err(_) => {},
    }
    let out = write_active(template, &active);
    match buddies.forget(alias) {
        Ok(()) => Ok(out),
        Err(e) => Err(e),
    }
}

} // verus!
