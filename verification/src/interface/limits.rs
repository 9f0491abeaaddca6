//! The limits of a session: how deep the compiler recurses, how big things may get.

use vstd::prelude::*;

verus! {

/// A limit on a size. The biggest number stands for no limit.
#[derive(Clone, Copy, PartialEq, Eq, Structural, Debug)]
pub struct Limit(pub usize);

/// The limits of a session.
#[derive(Clone, Copy, PartialEq, Eq, Structural, Debug)]
pub struct Limits {
    pub recursion_limit: Limit,
    pub move_size_limit: Limit,
    pub type_length_limit: Limit,
    pub pattern_complexity_limit: Limit,
}

/// What a crate's attributes and the session's options say about limits.
#[derive(Clone, Copy, PartialEq, Eq, Structural, Debug)]
pub struct LimitFacts {
    pub recursion_limit: Option<usize>,
    pub min_recursion_limit: Option<usize>,
    pub move_size_limit: Option<usize>,
    pub option_move_size_limit: Option<usize>,
    pub type_length_limit: Option<usize>,
    pub pattern_complexity_limit: Option<usize>,
}

/// The crate's limit, 128 if it sets none, but no less than the session's minimum.
pub open spec fn recursion_limit(from_crate: Option<usize>, min: Option<usize>) -> usize {
    let wanted = match from_crate {
        Some(limit) => limit,
        None => 128,
    };
    match min {
        Some(min) => if min > wanted {
            min
        } else {
            wanted
        },
        None => wanted,
    }
}

/// The limit on recursion. It is read before macros are expanded.
pub fn get_recursion_limit(from_crate: Option<usize>, min: Option<usize>) -> (limit: Limit)
    ensures
        limit.0 == recursion_limit(from_crate, min),
{
    let wanted = match from_crate {
        Some(limit) => limit,
        None => 128,
    };
    match min {
        Some(min) => if min > wanted {
            Limit(min)
        } else {
            Limit(wanted)
        },
        None => Limit(wanted),
    }
}

/// The limits of a session: the crate's attributes decide, and then the defaults.
pub fn provide(facts: LimitFacts) -> (limits: Limits)
    ensures
        limits.recursion_limit.0 == recursion_limit(
            facts.recursion_limit,
            facts.min_recursion_limit,
        ),
        limits.move_size_limit.0 == (match facts.move_size_limit {
            Some(limit) => limit,
            None => match facts.option_move_size_limit {
                Some(limit) => limit,
                None => 0,
            },
        }),
        limits.type_length_limit.0 == (match facts.type_length_limit {
            Some(limit) => limit,
            None => 0x100_0000,
        }),
        limits.pattern_complexity_limit.0 == (match facts.pattern_complexity_limit {
            Some(limit) => limit,
            None => usize::MAX,
        }),
{
    Limits {
        recursion_limit: get_recursion_limit(facts.recursion_limit, facts.min_recursion_limit),
        move_size_limit: match facts.move_size_limit {
            Some(limit) => Limit(limit),
            None => match facts.option_move_size_limit {
                Some(limit) => Limit(limit),
                None => Limit(0),
            },
        },
        type_length_limit: match facts.type_length_limit {
            Some(limit) => Limit(limit),
            None => Limit(0x100_0000),
        },
        pattern_complexity_limit: match facts.pattern_complexity_limit {
            Some(limit) => Limit(limit),
            None => Limit(usize::MAX),
        },
    }
}

/// A crate gets the limit on recursion that it asks for, and one that asks for none gets 128; only a
/// minimum that is more than that counts instead.
pub proof fn law_a_crate_gets_its_recursion_limit(
    from_crate: Option<usize>,
    min: Option<usize>,
    limit: Limit,
)
    requires
        call_ensures(get_recursion_limit, (from_crate, min), limit),
    ensures
        forall|wanted: usize| from_crate == Some(wanted) ==> limit.0 >= wanted,
        from_crate is None ==> limit.0 >= 128,
        forall|least: usize| min == Some(least) ==> limit.0 >= least,
        from_crate == Some(limit.0) || min == Some(limit.0) || (from_crate is None && limit.0
            == 128),
{
}

} // verus!
