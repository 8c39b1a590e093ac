//! The match classifier: given a directory-entry name and a search token,
//! decides whether the entry matches and at what quality tier.
//!
//! Comparison is case-insensitive throughout; both sides are folded with
//! [`crate::text::lower_of`] before they are compared. An empty token
//! matches every entry (used when listing all children of a resolved
//! navigation-only directory).

use vstd::prelude::*;
use crate::quality::{MatchQuality, SearchDirection};
use crate::text::{lower_of, lowercase, prefix_matches_at, seq_contains_sub, str_contains_sub,
    str_eq_chars, str_starts_with_sub};

verus! {

/// Classification of a lowercase-folded entry name against a
/// lowercase-folded token, for the standard four tiers.
pub open spec fn classify_spec(name_l: Seq<char>, tok_l: Seq<char>, dir: SearchDirection)
    -> Option<MatchQuality> {
    if tok_l.len() == 0 {
        Some(MatchQuality::ExactDown)
    } else if name_l == tok_l {
        if dir == SearchDirection::Up {
            Some(MatchQuality::ExactUp)
        } else {
            Some(MatchQuality::ExactDown)
        }
    } else if seq_contains_sub(name_l, tok_l) {
        if dir == SearchDirection::Up {
            Some(MatchQuality::PartialUp)
        } else {
            Some(MatchQuality::PartialDown)
        }
    } else {
        None
    }
}

/// Classification used by absolute-path resolution: exact, then prefix,
/// then substring, all downward.
pub open spec fn classify_abs_spec(name_l: Seq<char>, tok_l: Seq<char>) -> Option<MatchQuality> {
    if tok_l.len() == 0 {
        Some(MatchQuality::ExactDown)
    } else if name_l == tok_l {
        Some(MatchQuality::ExactDown)
    } else if prefix_matches_at(name_l, tok_l, 0) {
        Some(MatchQuality::PrefixDown)
    } else if seq_contains_sub(name_l, tok_l) {
        Some(MatchQuality::PartialDown)
    } else {
        None
    }
}

/// Classifies an entry name whose lowercase folding is already at hand
/// against a token whose lowercase folding is already at hand.
pub fn classify_lowered(name_l: &str, tok_l: &str, dir: SearchDirection)
    -> (r: Option<MatchQuality>)
    ensures
        r == classify_spec(name_l@, tok_l@, dir),
{
    if tok_l.is_empty() {
        Some(MatchQuality::ExactDown)
    } else if str_eq_chars(name_l, tok_l) {
        match dir {
            SearchDirection::Up => Some(MatchQuality::ExactUp),
            SearchDirection::Down => Some(MatchQuality::ExactDown),
        }
    } else if str_contains_sub(name_l, tok_l) {
        match dir {
            SearchDirection::Up => Some(MatchQuality::PartialUp),
            SearchDirection::Down => Some(MatchQuality::PartialDown),
        }
    } else {
        None
    }
}

/// Absolute-path variant of [`classify_lowered`], with the prefix tier.
pub fn classify_abs_lowered(name_l: &str, tok_l: &str) -> (r: Option<MatchQuality>)
    ensures
        r == classify_abs_spec(name_l@, tok_l@),
{
    if tok_l.is_empty() {
        Some(MatchQuality::ExactDown)
    } else if str_eq_chars(name_l, tok_l) {
        Some(MatchQuality::ExactDown)
    } else if str_starts_with_sub(name_l, tok_l) {
        Some(MatchQuality::PrefixDown)
    } else if str_contains_sub(name_l, tok_l) {
        Some(MatchQuality::PartialDown)
    } else {
        None
    }
}

/// Classifies a raw entry name against a raw token: both are folded to
/// lowercase first, and an empty token matches every entry.
pub fn classify(entry_name: &str, token: &str, dir: SearchDirection) -> (r: Option<MatchQuality>)
    ensures
        r == classify_spec(lower_of(entry_name@), lower_of(token@), dir),
{
    let name_l = lowercase(entry_name);
    let tok_l = lowercase(token);
    classify_lowered(name_l.as_str(), tok_l.as_str(), dir)
}

} // verus!
