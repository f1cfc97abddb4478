use vstd::prelude::*;

use crate::graph::{AmenityID, Graph, IntersectionID};
use crate::search::{cost_search, is_cost_list};

verus! {

pub const NANOS_PER_SECOND: u128 = 1_000_000_000;

pub const NANOS_PER_MINUTE: u128 = 60_000_000_000;

/// Someone looking for amenities near home.
pub struct Person {
    pub name: String,
    /// The intersection that the home snaps to.
    pub home: IntersectionID,
    pub max_time_minutes: u64,
}

/// The people of one query, in order.
pub struct Request {
    pub people: Vec<Person>,
}

/// An amenity reached by at least one person.
pub struct POI {
    pub amenity: AmenityID,
    /// (Name, cost in whole seconds), in the order of the request.
    pub times_per_person: Vec<(String, u128)>,
}

/// A person's time budget, in nanoseconds.
pub open spec fn limit_ns(p: Person) -> int {
    p.max_time_minutes * 60_000_000_000
}

/// The least cost, in nanoseconds, at which `p` reaches amenity `a`.
pub open spec fn cost_of(g: Graph, p: Person, a: AmenityID) -> int {
    choose|c: int| g.min_amenity_cost(p.home as int, limit_ns(p), a, c)
}

/// For each person of `ps` who reaches `a`, in order: the name and the cost in whole seconds.
pub open spec fn times_spec(g: Graph, ps: Seq<Person>, a: AmenityID) -> Seq<(Seq<char>, int)>
    decreases ps.len(),
{
    if ps.len() == 0 {
        Seq::empty()
    } else {
        let prev = times_spec(g, ps.drop_last(), a);
        let p = ps.last();
        if g.reached(p.home as int, limit_ns(p), a) {
            prev.push((p.name@, cost_of(g, p, a) / 1_000_000_000))
        } else {
            prev
        }
    }
}

pub open spec fn times_view(t: Seq<(String, u128)>) -> Seq<(Seq<char>, int)> {
    t.map_values(|e: (String, u128)| (e.0@, e.1 as int))
}

/// `r` holds, by increasing amenity id, one record for each amenity that some person of
/// `ps` reaches, with the times of all who reach it.
pub open spec fn is_poi_list(g: Graph, ps: Seq<Person>, r: Seq<POI>) -> bool {
    &&& forall|i: int, j: int| 0 <= i < j < r.len() ==> r[i].amenity < r[j].amenity
    &&& forall|i: int|
        #![trigger r[i]]
        0 <= i < r.len() ==> {
            &&& r[i].amenity < g.num_amenities
            &&& times_view(r[i].times_per_person@) == times_spec(g, ps, r[i].amenity)
            &&& times_spec(g, ps, r[i].amenity).len() > 0
        }
    &&& forall|a: AmenityID|
        a < g.num_amenities && #[trigger] times_spec(g, ps, a).len() > 0 ==> exists|i: int|
            0 <= i < r.len() && #[trigger] r[i].amenity == a
}

/// The amenities that `person` reaches from home within their time, each with its least
/// cost in nanoseconds, by increasing amenity id.
pub fn get_costs(graph: &Graph, person: &Person) -> (r: Vec<(AmenityID, u128)>)
    requires
        graph.wf(),
        person.home < graph.num_intersections(),
    ensures
        is_cost_list(*graph, person.home as int, limit_ns(*person), r@),
{
    let limit = person.max_time_minutes as u128 * NANOS_PER_MINUTE;
    assert(limit <= u128::MAX / 2) by (nonlinear_arith)
        requires
            limit == person.max_time_minutes as u128 * 60_000_000_000,
            person.max_time_minutes <= u64::MAX,
    ;
    cost_search(graph, person.home, limit)
}

proof fn lemma_cost_of(g: Graph, p: Person, a: AmenityID, c: int)
    requires
        g.min_amenity_cost(p.home as int, limit_ns(p), a, c),
    ensures
        cost_of(g, p, a) == c,
{
    let c2 = cost_of(g, p, a);
    assert(g.min_amenity_cost(p.home as int, limit_ns(p), a, c2));
    assert(g.reaches_amenity(p.home as int, limit_ns(p), a, c2));
    assert(g.reaches_amenity(p.home as int, limit_ns(p), a, c));
}

proof fn lemma_times_view_push(t: Seq<(String, u128)>, e: (String, u128))
    ensures
        times_view(t.push(e)) == times_view(t).push((e.0@, e.1 as int)),
{
    assert(times_view(t.push(e)) =~= times_view(t).push((e.0@, e.1 as int)));
}

/// Runs the search for each person in turn and gathers, per amenity, who reached it and at
/// what cost in whole seconds.
#[verifier::loop_isolation(false)]
pub fn find_pois(graph: &Graph, req: Request) -> (r: Vec<POI>)
    requires
        graph.wf(),
        forall|k: int|
            0 <= k < req.people@.len() ==> (#[trigger] req.people@[k]).home
                < graph.num_intersections(),
    ensures
        is_poi_list(*graph, req.people@, r@),
{
    let ghost g = *graph;
    let ghost ps = req.people@;
    let m = graph.num_amenities;
    let mut acc: Vec<Vec<(String, u128)>> = Vec::new();
    let mut i: usize = 0;
    while i < m
        invariant
            i <= m,
            acc@.len() == i,
            forall|a: int| 0 <= a < i ==> (#[trigger] acc@[a])@.len() == 0,
        decreases m - i,
    {
        acc.push(Vec::new());
        i += 1;
    }
    proof {
        assert forall|a: int| 0 <= a < m implies times_view(#[trigger] acc@[a]@) == times_spec(
            g,
            ps.take(0),
            a as AmenityID,
        ) by {
            assert(times_view(acc@[a]@) =~= Seq::empty());
        }
    }
    let mut k: usize = 0;
    while k < req.people.len()
        invariant
            k <= ps.len(),
            acc@.len() == m,
            forall|a: int|
                0 <= a < m ==> times_view(#[trigger] acc@[a]@) == times_spec(
                    g,
                    ps.take(k as int),
                    a as AmenityID,
                ),
        decreases ps.len() - k,
    {
        let person = &req.people[k];
        let costs = get_costs(graph, person);
        let ghost tk = ps.take(k as int);
        let mut j: usize = 0;
        while j < costs.len()
            invariant
                j <= costs@.len(),
                acc@.len() == m,
                forall|jj: int|
                    0 <= jj < j ==> times_view(acc@[(#[trigger] costs@[jj]).0 as int]@)
                        == times_spec(g, tk, costs@[jj].0).push(
                        (person.name@, costs@[jj].1 as int / 1_000_000_000),
                    ),
                forall|a: int|
                    0 <= a < m && !(exists|jj: int|
                        0 <= jj < j && #[trigger] costs@[jj].0 == a) ==> times_view(
                        #[trigger] acc@[a]@,
                    ) == times_spec(g, tk, a as AmenityID),
            decreases costs@.len() - j,
        {
            let (a, c) = costs[j];
            let ghost before = acc@[a as int]@;
            let entry = (person.name.clone(), c / NANOS_PER_SECOND);
            let ghost ge = entry;
            acc[a].push(entry);
            proof {
                lemma_times_view_push(before, ge);
                assert forall|a2: int|
                    0 <= a2 < m && !(exists|jj: int|
                        0 <= jj < j + 1 && #[trigger] costs@[jj].0 == a2) implies times_view(
                    #[trigger] acc@[a2]@,
                ) == times_spec(g, tk, a2 as AmenityID) by {
                    assert(costs@[j as int].0 == a);
                }
                assert forall|jj: int|
                    0 <= jj < j + 1 implies times_view(acc@[(#[trigger] costs@[jj]).0 as int]@)
                    == times_spec(g, tk, costs@[jj].0).push(
                    (person.name@, costs@[jj].1 as int / 1_000_000_000),
                ) by {
                    if jj < j {
                        assert(costs@[jj].0 < costs@[j as int].0);
                    }
                }
            }
            j += 1;
        }
        proof {
            let tk1 = ps.take(k + 1);
            assert(tk1.drop_last() =~= tk);
            assert(tk1.last() == *person);
            assert forall|a: int|
                0 <= a < m implies times_view(#[trigger] acc@[a]@) == times_spec(
                g,
                tk1,
                a as AmenityID,
            ) by {
                let lim = limit_ns(*person);
                let h = person.home as int;
                if exists|jj: int| 0 <= jj < costs@.len() && #[trigger] costs@[jj].0 == a {
                    let jj = choose|jj: int| 0 <= jj < costs@.len() && #[trigger] costs@[jj].0 == a;
                    assert(g.min_amenity_cost(h, lim, costs@[jj].0, costs@[jj].1 as int));
                    lemma_cost_of(g, *person, costs@[jj].0, costs@[jj].1 as int);
                    assert(g.reaches_amenity(h, lim, costs@[jj].0, costs@[jj].1 as int));
                    assert(g.reached(h, lim, a as AmenityID));
                } else {
                    if g.reached(h, lim, a as AmenityID) {
                        let c = choose|c: int| #[trigger] g.reaches_amenity(h, lim, a as AmenityID, c);
                        assert(g.reaches_amenity(h, lim, a as AmenityID, c));
                    }
                }
            }
        }
        k += 1;
    }
    proof {
        assert(ps.take(ps.len() as int) =~= ps);
    }
    let mut r: Vec<POI> = Vec::new();
    let mut a: usize = 0;
    while a < m
        invariant
            a <= m,
            acc@.len() == m,
            forall|b: int|
                a <= b < m ==> times_view(#[trigger] acc@[b]@) == times_spec(g, ps, b as AmenityID),
            forall|i: int, j: int| 0 <= i < j < r@.len() ==> r@[i].amenity < r@[j].amenity,
            forall|i: int|
                #![trigger r@[i]]
                0 <= i < r@.len() ==> {
                    &&& r@[i].amenity < a
                    &&& times_view(r@[i].times_per_person@) == times_spec(g, ps, r@[i].amenity)
                    &&& times_spec(g, ps, r@[i].amenity).len() > 0
                },
            forall|b: AmenityID|
                b < a && #[trigger] times_spec(g, ps, b).len() > 0 ==> exists|i: int|
                    0 <= i < r@.len() && #[trigger] r@[i].amenity == b,
        decreases m - a,
    {
        let mut t: Vec<(String, u128)> = Vec::new();
        std::mem::swap(&mut acc[a], &mut t);
        if t.len() > 0 {
            let ghost r0 = r@;
            r.push(POI { amenity: a, times_per_person: t });
            proof {
                assert forall|b: AmenityID|
                    b < a + 1 && #[trigger] times_spec(g, ps, b).len() > 0 implies exists|i: int|
                    0 <= i < r@.len() && #[trigger] r@[i].amenity == b by {
                    if b < a {
                        let i = choose|i: int| 0 <= i < r0.len() && #[trigger] r0[i].amenity == b;
                        assert(r@[i] == r0[i]);
                    } else {
                        assert(r@[r0.len() as int].amenity == b);
                    }
                }
            }
        }
        a += 1;
    }
    r
}

} // verus!
