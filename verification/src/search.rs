use vstd::prelude::*;
use crate::level::{Level, level_le, is_at_or_below};

verus! {

/// How many entries of `s` lie at or below `h`.
pub open spec fn count_at_or_below(s: Seq<Level>, h: Level) -> nat
    decreases s.len(),
{
    if s.len() == 0 {
        0
    } else {
        count_at_or_below(s.drop_last(), h) + (if level_le(s.last(), h) { 1nat } else { 0nat })
    }
}

/// The entries of `s` that lie at or below `h` form a prefix of `s`.
pub open spec fn partitioned_at(s: Seq<Level>, h: Level) -> bool {
    forall|i: int, j: int|
        0 <= i < j < s.len() && #[trigger] level_le(s[j], h) ==> #[trigger] level_le(s[i], h)
}

/// Every entry of `s` is an ordered value, and the entries never decrease.
pub open spec fn ascending(s: Seq<Level>) -> bool {
    &&& forall|i: int| 0 <= i < s.len() ==> (#[trigger] s[i]) is Some
    &&& forall|i: int, j: int| 0 <= i <= j < s.len() ==> level_le(#[trigger] s[i], #[trigger] s[j])
}

/// Every entry of `s` is an ordered value, and the entries strictly increase.
pub open spec fn strictly_ascending(s: Seq<Level>) -> bool {
    &&& forall|i: int| 0 <= i < s.len() ==> (#[trigger] s[i]) is Some
    &&& forall|i: int, j: int| 0 <= i < j < s.len() ==> s[i]->0 < s[j]->0
}

/// In a partitioned sequence the entries at or below `h` are exactly the
/// first `count_at_or_below(s, h)` ones.
pub proof fn lemma_count_is_partition_point(s: Seq<Level>, h: Level)
    requires
        partitioned_at(s, h),
    ensures
        count_at_or_below(s, h) <= s.len(),
        forall|i: int| 0 <= i < count_at_or_below(s, h) ==> level_le(#[trigger] s[i], h),
        forall|i: int| count_at_or_below(s, h) <= i < s.len() ==> !level_le(#[trigger] s[i], h),
    decreases s.len(),
{
    if s.len() > 0 {
        let t = s.drop_last();
        assert(partitioned_at(t, h)) by {
            assert forall|i: int, j: int|
                0 <= i < j < t.len() && #[trigger] level_le(t[j], h) implies #[trigger] level_le(t[i], h) by {
                assert(t[i] == s[i] && t[j] == s[j]);
            }
        }
        lemma_count_is_partition_point(t, h);
        let c = count_at_or_below(t, h);
        if level_le(s.last(), h) {
            if c < t.len() {
                assert(level_le(s[c as int], h));
                assert(t[c as int] == s[c as int]);
            }
            assert forall|i: int| 0 <= i < count_at_or_below(s, h) implies level_le(#[trigger] s[i], h) by {
                if i < t.len() {
                    assert(t[i] == s[i]);
                }
            }
        } else {
            assert forall|i: int| count_at_or_below(s, h) <= i < s.len() implies !level_le(#[trigger] s[i], h) by {
                if i < t.len() {
                    assert(t[i] == s[i]);
                }
            }
            assert forall|i: int| 0 <= i < count_at_or_below(s, h) implies level_le(#[trigger] s[i], h) by {
                assert(t[i] == s[i]);
            }
        }
    }
}

/// When the first `r` entries of `s` lie at or below `h` and the rest do not,
/// exactly `r` entries lie at or below `h`.
pub proof fn lemma_count_of_split(s: Seq<Level>, h: Level, r: int)
    requires
        0 <= r <= s.len(),
        forall|i: int| 0 <= i < r ==> level_le(#[trigger] s[i], h),
        forall|i: int| r <= i < s.len() ==> !level_le(#[trigger] s[i], h),
    ensures
        count_at_or_below(s, h) == r,
{
    assert(partitioned_at(s, h));
    lemma_count_is_partition_point(s, h);
    let c = count_at_or_below(s, h) as int;
    if c < r {
        assert(level_le(s[c], h));
    }
    if r < c {
        assert(level_le(s[r], h));
    }
}

/// An ascending sequence is partitioned at every level.
pub proof fn lemma_ascending_partitioned(s: Seq<Level>, h: Level)
    requires
        ascending(s),
    ensures
        partitioned_at(s, h),
{
    assert forall|i: int, j: int|
        0 <= i < j < s.len() && #[trigger] level_le(s[j], h) implies #[trigger] level_le(s[i], h) by {
        assert(level_le(s[i], s[j]));
    }
}

/// The number of leading entries of `levels` that lie at or below `h`, found
/// by bisection.
///
/// Where the entries at or below `h` form a prefix of `levels` (as they do
/// when `levels` ascends), the result is the length of that prefix, which is
/// then the number of entries at or below `h`. Otherwise the result is some
/// index from `0` to `levels.len()`.
pub fn partition_point(levels: &Vec<Level>, h: Level) -> (r: usize)
    ensures
        r <= levels.len(),
        partitioned_at(levels@, h) ==> r == count_at_or_below(levels@, h),
        (forall|i: int, j: int|
            #![trigger levels@[i], levels@[j]]
            0 <= i <= j < levels.len() ==> levels@[i] is Some && levels@[j] is Some && levels@[i]->0
                <= levels@[j]->0) ==> {
            &&& forall|i: int|
                0 <= i < r ==> h is Some && (#[trigger] levels@[i]) is Some && levels@[i]->0 <= h->0
            &&& forall|i: int|
                r <= i < levels.len() ==> !(h is Some && (#[trigger] levels@[i])->0 <= h->0)
        },
{
    let mut lo: usize = 0;
    let mut hi: usize = levels.len();
    while lo < hi
        invariant
            lo <= hi <= levels.len(),
            partitioned_at(levels@, h) ==> forall|i: int| 0 <= i < lo ==> level_le(#[trigger] levels@[i], h),
            partitioned_at(levels@, h) ==> forall|i: int| hi <= i < levels.len() ==> !level_le(#[trigger] levels@[i], h),
        decreases hi - lo,
    {
        let mid: usize = lo + (hi - lo) / 2;
        if is_at_or_below(levels[mid], h) {
            lo = mid + 1;
        } else {
            hi = mid;
        }
    }
    proof {
        if partitioned_at(levels@, h) {
            lemma_count_of_split(levels@, h, lo as int);
        }
        if forall|i: int, j: int|
            #![trigger levels@[i], levels@[j]]
            0 <= i <= j < levels.len() ==> levels@[i] is Some && levels@[j] is Some && levels@[i]->0
                <= levels@[j]->0 {
            assert(ascending(levels@)) by {
                assert forall|i: int| 0 <= i < levels.len() implies (#[trigger] levels@[i]) is Some by {
                    assert(levels@[i] is Some && levels@[i] is Some && levels@[i]->0 <= levels@[i]->0);
                }
                assert forall|i: int, j: int| 0 <= i <= j < levels.len() implies level_le(
                    #[trigger] levels@[i],
                    #[trigger] levels@[j],
                ) by {}
            }
            lemma_ascending_partitioned(levels@, h);
            assert forall|i: int| 0 <= i < lo implies h is Some
                && (#[trigger] levels@[i]) is Some && levels@[i]->0 <= h->0 by {
                assert(level_le(levels@[i], h));
            }
            assert forall|i: int| lo <= i < levels.len() implies !(h is Some && (
            #[trigger] levels@[i])->0 <= h->0) by {
                assert(!level_le(levels@[i], h));
                assert(levels@[i] is Some && levels@[i] is Some && levels@[i]->0 <= levels@[i]->0);
            }
        }
    }
    lo
}

} // verus!
