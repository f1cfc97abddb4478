use vstd::prelude::*;

use crate::find::{is_poi_list, limit_ns, times_spec, times_view, Person, POI};
use crate::graph::{AmenityID, Graph};
use crate::search::is_cost_list;

verus! {

spec fn increasing(x: Seq<int>) -> bool {
    forall|i: int, j: int| 0 <= i < j < x.len() ==> x[i] < x[j]
}

spec fn same_members(x: Seq<int>, y: Seq<int>) -> bool {
    &&& forall|i: int| 0 <= i < x.len() ==> y.contains(#[trigger] x[i])
    &&& forall|j: int| 0 <= j < y.len() ==> x.contains(#[trigger] y[j])
}

proof fn lemma_sorted_prefix(x: Seq<int>, y: Seq<int>, n: int)
    requires
        increasing(x),
        increasing(y),
        same_members(x, y),
        0 <= n <= x.len(),
    ensures
        n <= y.len(),
        forall|i: int| 0 <= i < n ==> x[i] == y[i],
    decreases n,
{
    if n > 0 {
        let i = n - 1;
        lemma_sorted_prefix(x, y, i);
        assert(y.contains(x[i]));
        let j = choose|j: int| 0 <= j < y.len() && y[j] == x[i];
        if j < i {
            assert(x[j] == y[j]);
        }
        assert(x.contains(y[i]));
        let k = choose|k: int| 0 <= k < x.len() && x[k] == y[i];
        if k < i {
            assert(x[k] == y[k]);
        }
    }
}

/// Two increasing sequences with the same members are equal.
proof fn lemma_sorted_unique(x: Seq<int>, y: Seq<int>)
    requires
        increasing(x),
        increasing(y),
        same_members(x, y),
    ensures
        x == y,
{
    lemma_sorted_prefix(x, y, x.len() as int);
    lemma_sorted_prefix(y, x, y.len() as int);
    assert(x =~= y);
}

spec fn cost_keys(r: Seq<(AmenityID, u128)>) -> Seq<int> {
    r.map_values(|e: (AmenityID, u128)| e.0 as int)
}

/// Determinism of the search: for one graph, origin and limit there is only one list that
/// meets the search's contract.
pub proof fn lemma_cost_list_unique(
    g: Graph,
    s: int,
    limit: int,
    r1: Seq<(AmenityID, u128)>,
    r2: Seq<(AmenityID, u128)>,
)
    requires
        is_cost_list(g, s, limit, r1),
        is_cost_list(g, s, limit, r2),
    ensures
        r1 == r2,
{
    let x = cost_keys(r1);
    let y = cost_keys(r2);
    assert forall|i: int| 0 <= i < x.len() implies y.contains(#[trigger] x[i]) by {
        assert(g.min_amenity_cost(s, limit, r1[i].0, r1[i].1 as int));
        assert(g.reaches_amenity(s, limit, r1[i].0, r1[i].1 as int));
        let j = choose|j: int| 0 <= j < r2.len() && #[trigger] r2[j].0 == r1[i].0;
        assert(y[j] == x[i]);
    }
    assert forall|j: int| 0 <= j < y.len() implies x.contains(#[trigger] y[j]) by {
        assert(g.min_amenity_cost(s, limit, r2[j].0, r2[j].1 as int));
        assert(g.reaches_amenity(s, limit, r2[j].0, r2[j].1 as int));
        let i = choose|i: int| 0 <= i < r1.len() && #[trigger] r1[i].0 == r2[j].0;
        assert(y[j] == x[i]);
    }
    lemma_sorted_unique(x, y);
    assert forall|i: int| 0 <= i < r1.len() implies r1[i] == r2[i] by {
        assert(x[i] == y[i]);
        assert(g.min_amenity_cost(s, limit, r1[i].0, r1[i].1 as int));
        assert(g.min_amenity_cost(s, limit, r2[i].0, r2[i].1 as int));
        assert(g.reaches_amenity(s, limit, r2[i].0, r2[i].1 as int));
        assert(g.reaches_amenity(s, limit, r1[i].0, r1[i].1 as int));
    }
    assert(r1 =~= r2);
}

/// Determinism of the whole query: for one graph and one list of people, all results that
/// meet the contract of `find_pois` hold the same amenities in the same order with the same
/// names and times.
pub proof fn lemma_poi_list_unique(g: Graph, ps: Seq<Person>, r1: Seq<POI>, r2: Seq<POI>)
    requires
        is_poi_list(g, ps, r1),
        is_poi_list(g, ps, r2),
    ensures
        r1.len() == r2.len(),
        forall|i: int|
            0 <= i < r1.len() ==> r1[i].amenity == r2[i].amenity && times_view(
                r1[i].times_per_person@,
            ) == times_view(r2[i].times_per_person@),
{
    let x = r1.map_values(|p: POI| p.amenity as int);
    let y = r2.map_values(|p: POI| p.amenity as int);
    assert forall|i: int| 0 <= i < x.len() implies y.contains(#[trigger] x[i]) by {
        assert(r1[i].amenity < g.num_amenities);
        let j = choose|j: int| 0 <= j < r2.len() && #[trigger] r2[j].amenity == r1[i].amenity;
        assert(y[j] == x[i]);
    }
    assert forall|j: int| 0 <= j < y.len() implies x.contains(#[trigger] y[j]) by {
        assert(r2[j].amenity < g.num_amenities);
        let i = choose|i: int| 0 <= i < r1.len() && #[trigger] r1[i].amenity == r2[j].amenity;
        assert(y[j] == x[i]);
    }
    lemma_sorted_unique(x, y);
    assert(x.len() == y.len());
    assert forall|i: int| 0 <= i < r1.len() implies r1[i].amenity == r2[i].amenity && times_view(
        r1[i].times_per_person@,
    ) == times_view(r2[i].times_per_person@) by {
        assert(x[i] == r1[i].amenity as int);
        assert(y[i] == r2[i].amenity as int);
        assert(x[i] == y[i]);
        assert(times_view(r1[i].times_per_person@) == times_spec(g, ps, r1[i].amenity));
        assert(times_view(r2[i].times_per_person@) == times_spec(g, ps, r2[i].amenity));
    }
}

/// Symmetry: two people whose homes snap to the same intersection and who have the same
/// time reach the same amenities at the same costs.
pub proof fn lemma_same_home_same_costs(
    g: Graph,
    p1: Person,
    p2: Person,
    r1: Seq<(AmenityID, u128)>,
    r2: Seq<(AmenityID, u128)>,
)
    requires
        p1.home == p2.home,
        p1.max_time_minutes == p2.max_time_minutes,
        is_cost_list(g, p1.home as int, limit_ns(p1), r1),
        is_cost_list(g, p2.home as int, limit_ns(p2), r2),
    ensures
        r1 == r2,
{
    lemma_cost_list_unique(g, p1.home as int, limit_ns(p1), r1, r2);
}

/// Monotonicity: with more time a person reaches every amenity reached with less, at no
/// higher cost. For the entry `i` of the shorter budget's list, the result is the position of
/// the same amenity in the longer budget's list.
pub proof fn lemma_more_time_reaches_more(
    g: Graph,
    p1: Person,
    p2: Person,
    r1: Seq<(AmenityID, u128)>,
    r2: Seq<(AmenityID, u128)>,
    i: int,
) -> (j: int)
    requires
        p1.home == p2.home,
        p1.max_time_minutes <= p2.max_time_minutes,
        is_cost_list(g, p1.home as int, limit_ns(p1), r1),
        is_cost_list(g, p2.home as int, limit_ns(p2), r2),
        0 <= i < r1.len(),
    ensures
        0 <= j < r2.len(),
        r2[j].0 == r1[i].0,
        r2[j].1 <= r1[i].1,
{
    vstd::arithmetic::mul::lemma_mul_inequality(
        p1.max_time_minutes as int,
        p2.max_time_minutes as int,
        60_000_000_000,
    );
    let s = p1.home as int;
    let l1 = limit_ns(p1);
    let l2 = limit_ns(p2);
    let a = r1[i].0;
    let c = r1[i].1 as int;
    assert(g.min_amenity_cost(s, l1, a, c));
    assert(g.reaches_amenity(s, l1, a, c));
    let (road, rs) = choose|road: int, rs: Seq<int>|
        #![trigger g.touches(road, g.walk_end(s, rs))]
        {
            &&& g.is_walk(s, rs)
            &&& g.walk_cost(rs) <= l1
            &&& g.touches(road, g.walk_end(s, rs))
            &&& g.roads@[road].amenities@.contains(a)
            &&& c == g.walk_cost(rs) + g.roads@[road].duration_ns
            &&& c <= l1
        };
    assert(g.touches(road, g.walk_end(s, rs)));
    assert(g.reaches_amenity(s, l2, a, c));
    let j = choose|j: int| 0 <= j < r2.len() && #[trigger] r2[j].0 == a;
    assert(g.min_amenity_cost(s, l2, r2[j].0, r2[j].1 as int));
    j
}

/// With no time at all, every amenity on a zero-length road that touches home is reached,
/// at cost zero.
pub proof fn lemma_zero_budget_reaches_zero_roads(
    g: Graph,
    p: Person,
    r: Seq<(AmenityID, u128)>,
    road: int,
    a: AmenityID,
)
    requires
        p.max_time_minutes == 0,
        is_cost_list(g, p.home as int, limit_ns(p), r),
        g.touches(road, p.home as int),
        g.roads@[road].duration_ns == 0,
        g.roads@[road].amenities@.contains(a),
    ensures
        exists|i: int| 0 <= i < r.len() && (#[trigger] r[i]).0 == a && r[i].1 == 0,
{
    let s = p.home as int;
    let rs = Seq::<int>::empty();
    assert(g.walk_end(s, rs) == s);
    assert(g.touches(road, g.walk_end(s, rs)));
    assert(g.reaches_amenity(s, 0, a, 0));
    let i = choose|i: int| 0 <= i < r.len() && #[trigger] r[i].0 == a;
    assert(g.min_amenity_cost(s, 0, r[i].0, r[i].1 as int));
}

/// With no time at all, nothing of positive cost is reported: every listed amenity costs zero
/// and lies on a zero-length road touching an intersection that a zero-cost walk from home
/// reaches.
pub proof fn lemma_zero_budget_only_zero_costs(
    g: Graph,
    p: Person,
    r: Seq<(AmenityID, u128)>,
    i: int,
) -> (w: (int, Seq<int>))
    requires
        p.max_time_minutes == 0,
        is_cost_list(g, p.home as int, limit_ns(p), r),
        0 <= i < r.len(),
    ensures
        r[i].1 == 0,
        g.is_walk(p.home as int, w.1),
        g.walk_cost(w.1) == 0,
        g.touches(w.0, g.walk_end(p.home as int, w.1)),
        g.roads@[w.0].duration_ns == 0,
        g.roads@[w.0].amenities@.contains(r[i].0),
{
    let s = p.home as int;
    let a = r[i].0;
    let c = r[i].1 as int;
    assert(g.min_amenity_cost(s, 0, a, c));
    assert(g.reaches_amenity(s, 0, a, c));
    let (road, rs) = choose|road: int, rs: Seq<int>|
        #![trigger g.touches(road, g.walk_end(s, rs))]
        {
            &&& g.is_walk(s, rs)
            &&& g.walk_cost(rs) <= 0
            &&& g.touches(road, g.walk_end(s, rs))
            &&& g.roads@[road].amenities@.contains(a)
            &&& c == g.walk_cost(rs) + g.roads@[road].duration_ns
            &&& c <= 0
        };
    lemma_walk_cost_nonneg(g, rs);
    (road, rs)
}

proof fn lemma_walk_cost_nonneg(g: Graph, rs: Seq<int>)
    ensures
        g.walk_cost(rs) >= 0,
    decreases rs.len(),
{
    if rs.len() > 0 {
        lemma_walk_cost_nonneg(g, rs.drop_last());
    }
}

} // verus!
