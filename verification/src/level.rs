use vstd::prelude::*;

verus! {

/// A real value by its place in the order of the reals.
///
/// `Some(k)` stands for an ordered value: of two such values the one with the
/// smaller key is the smaller real, and equal reals have equal keys.
/// `None` stands for a value that compares with nothing (not a number):
/// every comparison that involves it is false.
pub type Level = Option<u64>;

/// `a <= b` on the reals that the two levels stand for.
pub open spec fn level_le(a: Level, b: Level) -> bool {
    match (a, b) {
        (Some(x), Some(y)) => x <= y,
        _ => false,
    }
}

/// `a < b` on the reals that the two levels stand for.
pub open spec fn level_lt(a: Level, b: Level) -> bool {
    match (a, b) {
        (Some(x), Some(y)) => x < y,
        _ => false,
    }
}

/// Tests `a <= b`.
pub fn is_at_or_below(a: Level, b: Level) -> (r: bool)
    ensures
        r == level_le(a, b),
        r <==> (a is Some && b is Some && a->0 <= b->0),
{
    match (a, b) {
        (Some(x), Some(y)) => x <= y,
        _ => false,
    }
}

/// Tests `a < b`.
pub fn is_below(a: Level, b: Level) -> (r: bool)
    ensures
        r == level_lt(a, b),
        r <==> (a is Some && b is Some && a->0 < b->0),
{
    match (a, b) {
        (Some(x), Some(y)) => x < y,
        _ => false,
    }
}

} // verus!
