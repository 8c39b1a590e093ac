//! The quality tier assigned to a candidate match, and the direction a
//! walk was moving when it classified the candidate.

use vstd::prelude::*;

verus! {

/// Priority class of a match, from highest to lowest priority.
/// The ordering of the tiers is the primary sort key of the final
/// result list; no numeric score is stored once a match is classified.
#[derive(Debug, Clone, Copy, PartialEq, Eq, Structural)]
pub enum MatchQuality {
    /// Case-insensitive exact name match found while walking toward the root.
    ExactUp,
    /// Substring match found while walking toward the root.
    PartialUp,
    /// Case-insensitive exact name match found while walking into subtrees.
    ExactDown,
    /// Name starts with the token; used only by absolute-path resolution.
    PrefixDown,
    /// Substring match found while walking into subtrees.
    PartialDown,
}

/// Direction a tree walk is moving when it classifies an entry.
#[derive(Debug, Clone, Copy, PartialEq, Eq, Structural)]
pub enum SearchDirection {
    Up,
    Down,
}

/// Numeric position of a tier in the priority order: lower is better.
pub open spec fn rank(q: MatchQuality) -> int {
    match q {
        MatchQuality::ExactUp => 0,
        MatchQuality::PartialUp => 1,
        MatchQuality::ExactDown => 2,
        MatchQuality::PrefixDown => 3,
        MatchQuality::PartialDown => 4,
    }
}

/// The two tiers produced by walking toward the root.
pub open spec fn is_up_tier(q: MatchQuality) -> bool {
    q == MatchQuality::ExactUp || q == MatchQuality::PartialUp
}

/// The three tiers produced by walking into subtrees.
pub open spec fn is_down_tier(q: MatchQuality) -> bool {
    !is_up_tier(q)
}

/// Executable form of `rank`.
pub fn rank_of(q: &MatchQuality) -> (r: u8)
    ensures
        r as int == rank(*q),
{
    match q {
        MatchQuality::ExactUp => 0,
        MatchQuality::PartialUp => 1,
        MatchQuality::ExactDown => 2,
        MatchQuality::PrefixDown => 3,
        MatchQuality::PartialDown => 4,
    }
}

} // verus!
