use vstd::prelude::*;
use crate::level::{Level, level_le, level_lt, is_below};
use crate::search::{
    count_at_or_below, partitioned_at, ascending, strictly_ascending, partition_point,
    lemma_count_is_partition_point, lemma_count_of_split, lemma_ascending_partitioned,
};

verus! {

/// The layer that `count` boundaries at or below an altitude select: the
/// layer whose base is the last of those boundaries, kept within the first
/// and the last layer.
pub open spec fn layer_for_count(count: int, layers: int) -> int {
    if count <= 1 {
        0
    } else if count - 1 < layers - 1 {
        count - 1
    } else {
        layers - 1
    }
}

/// The layer of a table with boundaries `bounds` and `layers` layers that
/// the altitude `h` selects.
pub open spec fn layer_of(bounds: Seq<Level>, layers: int, h: Level) -> int {
    layer_for_count(count_at_or_below(bounds, h) as int, layers)
}

/// `h` lies below the first boundary of the table or above its last.
pub open spec fn outside(bounds: Seq<Level>, h: Level) -> bool {
    level_lt(h, bounds[0]) || level_lt(bounds.last(), h)
}

/// The layer table of a layered atmosphere, by the order of its boundary
/// altitudes: `layers` layers, the layer `i` reaching from boundary `i` to
/// boundary `i + 1`, and the batch size above which a column of altitudes
/// is evaluated in parallel.
pub struct LayerGrid {
    bounds: Vec<Level>,
    layers: usize,
    parallel_size: usize,
}

impl LayerGrid {
    /// The boundary altitudes, lowest first.
    pub closed spec fn boundaries(&self) -> Seq<Level> {
        self.bounds@
    }

    /// The number of layers.
    pub closed spec fn layer_count(&self) -> int {
        self.layers as int
    }

    /// The largest batch that is evaluated in sequence.
    pub closed spec fn parallel_limit(&self) -> int {
        self.parallel_size as int
    }

    /// At least one layer, and one boundary more than layers.
    pub open spec fn well_formed(&self) -> bool {
        &&& self.layer_count() >= 1
        &&& self.boundaries().len() == self.layer_count() + 1
    }

    /// A table with the boundaries `bounds` for `lapse_count` layers, one
    /// lapse rate per layer.
    pub fn new(bounds: Vec<Level>, lapse_count: usize, parallel_size: usize) -> (g: Self)
        requires
            bounds.len() == lapse_count + 1,
            lapse_count >= 1,
        ensures
            g.well_formed(),
            g.boundaries() == bounds@,
            g.layer_count() == lapse_count,
            g.parallel_limit() == parallel_size,
    {
        LayerGrid { bounds, layers: lapse_count, parallel_size }
    }

    /// The number of layers.
    pub fn layers(&self) -> (r: usize)
        ensures
            r == self.layer_count(),
    {
        self.layers
    }

    /// The layer that the altitude `h` selects: one below the number of
    /// boundaries at or below `h`, kept within the first and the last layer.
    /// Where the boundaries ascend, that is the layer that holds `h`; an
    /// altitude that compares with nothing selects the first layer.
    pub fn select(&self, h: Level) -> (r: usize)
        requires
            self.well_formed(),
        ensures
            r < self.layer_count(),
            partitioned_at(self.boundaries(), h) ==> r == layer_of(
                self.boundaries(),
                self.layer_count(),
                h,
            ),
            ({
                let b = self.boundaries();
                &&& forall|i: int| 0 <= i < b.len() ==> (#[trigger] b[i]) is Some
                &&& forall|i: int, j: int|
                    #![trigger b[i], b[j]]
                    0 <= i <= j < b.len() ==> b[i]->0 <= b[j]->0
                &&& h is Some
                &&& b[0]->0 <= h->0 <= b[b.len() - 1]->0
            }) ==> ({
                let b = self.boundaries();
                &&& b[r as int]->0 <= h->0
                &&& r + 1 < self.layer_count() ==> h->0 < b[r + 1]->0
            }),
    {
        let idx = partition_point(&self.bounds, h);
        let below: usize = if idx >= 1 { idx - 1 } else { 0 };
        let r = if below < self.layers - 1 {
            below
        } else {
            self.layers - 1
        };
        proof {
            let b = self.boundaries();
            let l = self.layer_count();
            if (forall|i: int| 0 <= i < b.len() ==> (#[trigger] b[i]) is Some)
                && (forall|i: int, j: int|
                #![trigger b[i], b[j]]
                0 <= i <= j < b.len() ==> b[i]->0 <= b[j]->0) && h is Some && b[0]->0 <= h->0
                <= b[b.len() - 1]->0 {
                assert(ascending(b)) by {
                    assert forall|i: int, j: int| 0 <= i <= j < b.len() implies level_le(
                        #[trigger] b[i],
                        #[trigger] b[j],
                    ) by {
                        assert(b[i] is Some && b[j] is Some);
                    }
                }
                assert(b[0] is Some && b[l] is Some);
                assert(b.last() == b[l]);
                lemma_ascending_partitioned(b, h);
                lemma_selected_layer_holds(b, l, h);
                assert(b[r as int] is Some);
                if r + 1 < l {
                    assert(b[r + 1] is Some);
                }
            }
        }
        r
    }

    /// The layer that serves the altitude `h`, or `None` where `h` lies
    /// below the first boundary or above the last.
    pub fn layer_at(&self, h: Level) -> (r: Option<usize>)
        requires
            self.well_formed(),
        ensures
            r is None <==> outside(self.boundaries(), h),
            r is None <==> (level_lt(h, self.boundaries()[0]) || level_lt(
                self.boundaries()[self.layer_count()],
                h,
            )),
            r is None ==> h is Some,
            (h matches Some(x) && self.boundaries()[0] matches Some(lo)
                && self.boundaries()[self.layer_count()] matches Some(hi) && lo <= x && x <= hi)
                ==> r is Some,
            (h matches Some(x) && self.boundaries()[0] matches Some(lo) && x < lo) ==> r is None,
            (h matches Some(x) && self.boundaries()[self.layer_count()] matches Some(hi) && hi < x)
                ==> r is None,
            r matches Some(i) ==> i < self.layer_count(),
            r matches Some(i) ==> ({
                let b = self.boundaries();
                &&& forall|k: int| 0 <= k < b.len() ==> (#[trigger] b[k]) is Some
                &&& forall|k: int, j: int|
                    #![trigger b[k], b[j]]
                    0 <= k <= j < b.len() ==> b[k]->0 <= b[j]->0
                &&& h is Some
            }) ==> ({
                let b = self.boundaries();
                &&& b[i as int]->0 <= h->0
                &&& i + 1 < self.layer_count() ==> h->0 < b[i + 1]->0
                &&& i + 1 == self.layer_count() ==> h->0 <= b[i + 1]->0
            }),
            r matches Some(i) ==> (partitioned_at(self.boundaries(), h) ==> i == layer_of(
                self.boundaries(),
                self.layer_count(),
                h,
            )),
    {
        if is_below(h, self.bounds[0]) || is_below(self.bounds[self.layers], h) {
            return None;
        }
        proof {
            assert(self.boundaries().last() == self.boundaries()[self.layer_count()]);
        }
        Some(self.select(h))
    }

    /// Whether a column of `n` altitudes is spread over threads: when it
    /// holds more altitudes than the parallel size.
    pub fn runs_parallel(&self, n: usize) -> (r: bool)
        ensures
            r == (n > self.parallel_limit()),
    {
        n > self.parallel_size
    }

    /// The boundary at which the first layer of constant temperature
    /// begins: the first `i` with `isothermal[i]`, where `isothermal[i]`
    /// tells whether the lapse rate of layer `i` is zero; `None` where no
    /// layer is isothermal.
    pub fn tropopause(&self, isothermal: &Vec<bool>) -> (r: Option<usize>)
        requires
            self.well_formed(),
            isothermal.len() == self.layer_count(),
        ensures
            r is None <==> forall|i: int| 0 <= i < isothermal.len() ==> !isothermal[i],
            r matches Some(i) ==> i < self.layer_count() && isothermal[i as int],
            r matches Some(i) ==> forall|j: int| 0 <= j < i ==> !isothermal[j],
    {
        let mut i: usize = 0;
        while i < isothermal.len()
            invariant
                i <= isothermal.len(),
                isothermal.len() == self.layer_count(),
                forall|j: int| 0 <= j < i ==> !isothermal[j],
            decreases isothermal.len() - i,
        {
            if isothermal[i] {
                return Some(i);
            }
            i = i + 1;
        }
        None
    }
}

/// An altitude is outside a table exactly when it is an ordered value that
/// lies below the first boundary or above the last, whatever the number of
/// boundaries; an ordered altitude between the first and the last boundary
/// (both included) is inside.
pub proof fn lemma_outside_exactly_beyond_ends(bounds: Seq<Level>, h: Level)
    requires
        bounds.len() >= 1,
    ensures
        outside(bounds, h) <==> (h matches Some(x) && ((bounds[0] matches Some(lo) && x < lo) || (
        bounds[bounds.len() - 1] matches Some(hi) && hi < x))),
        (h matches Some(x) && bounds[0] matches Some(lo) && bounds[bounds.len() - 1] matches Some(hi)
            && lo <= x && x <= hi) ==> !outside(bounds, h),
{
    assert(bounds.last() == bounds[bounds.len() - 1]);
}

/// Within an ascending table, every ordered altitude from the first
/// boundary up to the last, the last included, is inside the table.
pub proof fn lemma_ascending_range_is_inside(bounds: Seq<Level>, h: Level)
    requires
        bounds.len() >= 1,
        ascending(bounds),
        level_le(bounds[0], h),
        level_le(h, bounds[bounds.len() - 1]),
    ensures
        !outside(bounds, h),
{
    assert(bounds.last() == bounds[bounds.len() - 1]);
}

/// Within an ascending table, an ordered altitude inside the table selects
/// the layer that holds it: the layer's base lies at or below the altitude,
/// and the altitude lies below the layer's top, or at or below it for the
/// top layer.
pub proof fn lemma_selected_layer_holds(bounds: Seq<Level>, layers: int, h: Level)
    requires
        layers >= 1,
        bounds.len() == layers + 1,
        ascending(bounds),
        h is Some,
        !outside(bounds, h),
    ensures
        0 <= layer_of(bounds, layers, h) < layers,
        level_le(bounds[layer_of(bounds, layers, h)], h),
        layer_of(bounds, layers, h) + 1 < layers ==> level_lt(h, bounds[layer_of(bounds, layers, h) + 1]),
        layer_of(bounds, layers, h) + 1 == layers ==> level_le(h, bounds[layers]),
{
    lemma_ascending_partitioned(bounds, h);
    lemma_count_is_partition_point(bounds, h);
    let c = count_at_or_below(bounds, h) as int;
    assert(bounds[0] is Some);
    assert(level_le(bounds[0], h));
    assert(bounds[layers] is Some);
    assert(bounds.last() == bounds[layers]);
    if c == 0 {
        assert(!level_le(bounds[0], h));
    }
    let i = layer_of(bounds, layers, h);
    if c < layers {
        assert(i == c - 1);
        assert(!level_le(bounds[c], h));
        assert(bounds[c] is Some);
    }
}

/// Counting boundaries at or below a level never counts fewer at a higher level.
proof fn lemma_count_monotone(s: Seq<Level>, h1: Level, h2: Level)
    requires
        level_le(h1, h2),
    ensures
        count_at_or_below(s, h1) <= count_at_or_below(s, h2),
    decreases s.len(),
{
    if s.len() > 0 {
        lemma_count_monotone(s.drop_last(), h1, h2);
    }
}

/// A higher altitude never selects a lower layer.
pub proof fn lemma_layer_monotone(bounds: Seq<Level>, layers: int, h1: Level, h2: Level)
    requires
        layers >= 1,
        level_le(h1, h2),
    ensures
        layer_of(bounds, layers, h1) <= layer_of(bounds, layers, h2),
{
    lemma_count_monotone(bounds, h1, h2);
}

/// In a strictly ascending table, an altitude equal to a boundary selects the
/// layer that begins there; the top boundary selects the top layer.
pub proof fn lemma_boundary_starts_layer(bounds: Seq<Level>, layers: int, k: int)
    requires
        layers >= 1,
        bounds.len() == layers + 1,
        strictly_ascending(bounds),
        0 <= k <= layers,
    ensures
        layer_of(bounds, layers, bounds[k]) == if k < layers { k } else { layers - 1 },
{
    let h = bounds[k];
    assert(h is Some);
    assert forall|i: int| 0 <= i < k + 1 implies level_le(#[trigger] bounds[i], h) by {
        assert(bounds[i] is Some);
        if i < k {
            assert(bounds[i]->0 < bounds[k]->0);
        }
    }
    assert forall|i: int| k + 1 <= i < bounds.len() implies !level_le(#[trigger] bounds[i], h) by {
        assert(bounds[i] is Some);
        assert(bounds[k]->0 < bounds[i]->0);
    }
    lemma_count_of_split(bounds, h, k + 1);
}

} // verus!
