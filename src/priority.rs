use vstd::prelude::*;

verus! {

/// How a document matched a query, best first.
#[derive(Debug, Clone, Copy, PartialEq, Eq, Hash, PartialOrd, Ord, Structural)]
pub enum MatchPriority {
    NameExact,
    AliasExact,
    NamePrefix,
    AliasPrefix,
    NamePartial,
    AliasPartial,
}

impl MatchPriority {
    /// The class's place in the order, from 1 (best) to 6.
    pub open spec fn spec_rank(self) -> nat {
        match self {
            MatchPriority::NameExact => 1,
            MatchPriority::AliasExact => 2,
            MatchPriority::NamePrefix => 3,
            MatchPriority::AliasPrefix => 4,
            MatchPriority::NamePartial => 5,
            MatchPriority::AliasPartial => 6,
        }
    }

    /// The class's place in the order, from 1 (best) to 6.
    pub fn rank(&self) -> (r: u8)
        ensures
            r == self.spec_rank(),
    {
        match self {
            MatchPriority::NameExact => 1,
            MatchPriority::AliasExact => 2,
            MatchPriority::NamePrefix => 3,
            MatchPriority::AliasPrefix => 4,
            MatchPriority::NamePartial => 5,
            MatchPriority::AliasPartial => 6,
        }
    }
}

/// The place of an optional class; no match comes after every class.
pub open spec fn rank_of(p: Option<MatchPriority>) -> nat {
    match p {
        Some(c) => c.spec_rank(),
        None => 7,
    }
}

/// The better of two classes; the first where they tie.
pub open spec fn better(a: Option<MatchPriority>, b: Option<MatchPriority>) -> Option<
    MatchPriority,
> {
    if rank_of(b) < rank_of(a) {
        b
    } else {
        a
    }
}

/// The better of two classes; the first where they tie.
pub fn best(a: Option<MatchPriority>, b: Option<MatchPriority>) -> (r: Option<MatchPriority>)
    ensures
        r == better(a, b),
{
    let ra: u8 = match a {
        Some(c) => c.rank(),
        None => 7,
    };
    let rb: u8 = match b {
        Some(c) => c.rank(),
        None => 7,
    };
    if rb < ra {
        b
    } else {
        a
    }
}

/// The ranking weight of a class: 100 for an exact name match down to 50 for
/// a partial alias match, and 0 for no match.
pub open spec fn priority_score(p: Option<MatchPriority>) -> nat {
    match p {
        Some(c) => (110 - 10 * c.spec_rank()) as nat,
        None => 0,
    }
}

/// The ranking weight of a class: higher is better.
pub fn calculate_priority(p: Option<MatchPriority>) -> (r: u8)
    ensures
        r == priority_score(p),
{
    match p {
        Some(MatchPriority::NameExact) => 100,
        Some(MatchPriority::AliasExact) => 90,
        Some(MatchPriority::NamePrefix) => 80,
        Some(MatchPriority::AliasPrefix) => 70,
        Some(MatchPriority::NamePartial) => 60,
        Some(MatchPriority::AliasPartial) => 50,
        None => 0,
    }
}

} // verus!
