//! Core of a co-author session manager for commit message templates.
//!
//! A *buddy* is a collaborator record (alias, display name, email); a
//! [`buddy::Buddies`] value is an ordered directory of them.  The active
//! subset for the next commit lives inside a marker-delimited block of the
//! commit template; [`template`] parses and rewrites that block, [`session`]
//! applies add/remove/clear/forget operations to it, and [`alias`] suggests
//! fresh aliases for new entries.

pub mod alias;
pub mod authors;
pub mod buddy;
pub mod decimal;
pub mod session;
pub mod template;
pub mod text;
