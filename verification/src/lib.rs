//! A directory-name resolver for an interactive shell helper.
//!
//! Given a partial or fuzzy token typed by a user, the library locates
//! candidate directories near a starting directory in a snapshot of the
//! directory tree and ranks them so the best candidate can be jumped to
//! immediately, with the rest offered as ordered completion suggestions.

pub mod budget;
pub mod classify;
pub mod finalize;
pub mod matches;
pub mod quality;
pub mod resolve;
pub mod search;
pub mod text;
pub mod tree;
pub mod walk_down;
pub mod walk_pattern;
pub mod walk_up;
