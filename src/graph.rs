use vstd::prelude::*;

verus! {

/// Index of an intersection in `Graph::intersections`.
pub type IntersectionID = usize;

/// Index of a road in `Graph::roads`.
pub type RoadID = usize;

/// Index of an amenity; amenities are numbered `0..Graph::num_amenities`.
pub type AmenityID = usize;

/// An undirected road between two intersections.
pub struct Road {
    pub i1: IntersectionID,
    pub i2: IntersectionID,
    /// Time to walk the whole road, in nanoseconds.
    pub duration_ns: u64,
    /// The amenities located along this road.
    pub amenities: Vec<AmenityID>,
}

/// A node of the walking network: the roads that touch it.
pub struct Intersection {
    pub roads: Vec<RoadID>,
}

/// The static walking network.
pub struct Graph {
    pub intersections: Vec<Intersection>,
    pub roads: Vec<Road>,
    pub num_amenities: usize,
}

impl Road {
    /// The endpoint of this road that is not `i` (the road's only endpoint for a loop).
    pub open spec fn other_side_spec(&self, i: int) -> int {
        if self.i1 == i {
            self.i2 as int
        } else {
            self.i1 as int
        }
    }

    pub fn other_side(&self, i: IntersectionID) -> (r: IntersectionID)
        ensures
            r == self.other_side_spec(i as int),
    {
        if self.i1 == i {
            self.i2
        } else {
            self.i1
        }
    }
}

impl Graph {
    pub open spec fn num_intersections(&self) -> int {
        self.intersections@.len() as int
    }

    /// Road `r` exists and has `i` as one of its endpoints.
    pub open spec fn touches(&self, r: int, i: int) -> bool {
        &&& 0 <= r < self.roads@.len()
        &&& (self.roads@[r].i1 == i || self.roads@[r].i2 == i)
    }

    /// Every id is in range and each intersection lists exactly the roads that touch it.
    pub open spec fn wf(&self) -> bool {
        &&& forall|r: int|
            #![trigger self.roads@[r]]
            0 <= r < self.roads@.len() ==> {
                &&& self.roads@[r].i1 < self.intersections@.len()
                &&& self.roads@[r].i2 < self.intersections@.len()
                &&& forall|k: int|
                    0 <= k < self.roads@[r].amenities@.len() ==> self.roads@[r].amenities@[k]
                        < self.num_amenities
            }
        &&& forall|i: int, k: int|
            #![trigger self.intersections@[i].roads@[k]]
            0 <= i < self.intersections@.len() && 0 <= k < self.intersections@[i].roads@.len()
                ==> self.touches(self.intersections@[i].roads@[k] as int, i)
        &&& forall|i: int, r: int|
            #![trigger self.touches(r, i)]
            0 <= i < self.intersections@.len() && self.touches(r, i)
                ==> self.intersections@[i].roads@.contains(r as RoadID)
    }

    /// The intersection reached by walking the roads `rs` in turn from `s`.
    pub open spec fn walk_end(&self, s: int, rs: Seq<int>) -> int
        decreases rs.len(),
    {
        if rs.len() == 0 {
            s
        } else {
            self.roads@[rs.last()].other_side_spec(self.walk_end(s, rs.drop_last()))
        }
    }

    /// Each road of `rs` touches the intersection where the walk from `s` stands before it.
    pub open spec fn is_walk(&self, s: int, rs: Seq<int>) -> bool
        decreases rs.len(),
    {
        rs.len() == 0 || (self.is_walk(s, rs.drop_last()) && self.touches(
            rs.last(),
            self.walk_end(s, rs.drop_last()),
        ))
    }

    /// Total walking time of the roads `rs`, in nanoseconds.
    pub open spec fn walk_cost(&self, rs: Seq<int>) -> int
        decreases rs.len(),
    {
        if rs.len() == 0 {
            0
        } else {
            self.walk_cost(rs.drop_last()) + self.roads@[rs.last()].duration_ns
        }
    }

    /// Amenity `a` can be reached from `s` at cost `c` within `limit`: some walk from `s` ends
    /// at an endpoint of a road carrying `a`, `c` is that walk's cost plus the road's duration,
    /// and `c` is at most `limit`.
    pub open spec fn reaches_amenity(&self, s: int, limit: int, a: AmenityID, c: int) -> bool {
        exists|r: int, rs: Seq<int>|
            #![trigger self.touches(r, self.walk_end(s, rs))]
            {
                &&& self.is_walk(s, rs)
                &&& self.walk_cost(rs) <= limit
                &&& self.touches(r, self.walk_end(s, rs))
                &&& self.roads@[r].amenities@.contains(a)
                &&& c == self.walk_cost(rs) + self.roads@[r].duration_ns
                &&& c <= limit
            }
    }

    /// `c` is the least cost at which `a` can be reached from `s` within `limit`.
    pub open spec fn min_amenity_cost(&self, s: int, limit: int, a: AmenityID, c: int) -> bool {
        &&& self.reaches_amenity(s, limit, a, c)
        &&& forall|c2: int| #[trigger] self.reaches_amenity(s, limit, a, c2) ==> c <= c2
    }

    /// Amenity `a` can be reached from `s` within `limit` at all.
    pub open spec fn reached(&self, s: int, limit: int, a: AmenityID) -> bool {
        exists|c: int| self.reaches_amenity(s, limit, a, c)
    }
}

impl Graph {
    /// Every road's endpoints are below `n` and its amenities below `m`.
    pub open spec fn ids_in_range(roads: Seq<Road>, n: int, m: int) -> bool {
        forall|r: int|
            #![trigger roads[r]]
            0 <= r < roads.len() ==> {
                &&& roads[r].i1 < n
                &&& roads[r].i2 < n
                &&& forall|k: int|
                    0 <= k < roads[r].amenities@.len() ==> roads[r].amenities@[k] < m
            }
    }

    /// Builds the graph of `num_intersections` intersections joined by `roads`, listing at
    /// each intersection the roads that touch it; `None` when some id is out of range.
    #[verifier::loop_isolation(false)]
    pub fn new(num_intersections: usize, roads: Vec<Road>, num_amenities: usize) -> (r: Option<Graph>)
        ensures
            r.is_some() <==> Self::ids_in_range(roads@, num_intersections as int, num_amenities as int),
            r.is_some() ==> {
                let g = r.unwrap();
                &&& g.wf()
                &&& g.roads@ == roads@
                &&& g.num_intersections() == num_intersections
                &&& g.num_amenities == num_amenities
            },
    {
        let n = num_intersections;
        let mut r: usize = 0;
        while r < roads.len()
            invariant
                r <= roads@.len(),
                Self::ids_in_range(roads@.take(r as int), n as int, num_amenities as int),
            decreases roads@.len() - r,
        {
            let road = &roads[r];
            if road.i1 >= n || road.i2 >= n {
                assert(roads@[r as int].i1 >= n || roads@[r as int].i2 >= n);
                assert(!Self::ids_in_range(roads@, n as int, num_amenities as int));
                return None;
            }
            let mut k: usize = 0;
            while k < road.amenities.len()
                invariant
                    k <= road.amenities@.len(),
                    forall|kk: int| 0 <= kk < k ==> road.amenities@[kk] < num_amenities,
                decreases road.amenities@.len() - k,
            {
                if road.amenities[k] >= num_amenities {
                    assert(roads@[r as int].amenities@[k as int] >= num_amenities);
                    assert(!Self::ids_in_range(roads@, n as int, num_amenities as int));
                    return None;
                }
                k += 1;
            }
            assert(roads@.take(r as int + 1)[r as int] == roads@[r as int]);
            r += 1;
        }
        assert(roads@.take(roads@.len() as int) =~= roads@);
        let mut intersections: Vec<Intersection> = Vec::new();
        let mut i: usize = 0;
        while i < n
            invariant
                i <= n,
                intersections@.len() == i,
                forall|j: int| 0 <= j < i ==> (#[trigger] intersections@[j]).roads@.len() == 0,
            decreases n - i,
        {
            intersections.push(Intersection { roads: Vec::new() });
            i += 1;
        }
        let mut r: usize = 0;
        while r < roads.len()
            invariant
                r <= roads@.len(),
                intersections@.len() == n,
                Self::ids_in_range(roads@, n as int, num_amenities as int),
                forall|i: int, k: int|
                    #![trigger intersections@[i].roads@[k]]
                    0 <= i < n && 0 <= k < intersections@[i].roads@.len() ==> {
                        let x = intersections@[i].roads@[k] as int;
                        &&& 0 <= x < r
                        &&& (roads@[x].i1 == i || roads@[x].i2 == i)
                    },
                forall|i: int, x: int|
                    #![trigger intersections@[i], roads@[x]]
                    0 <= i < n && 0 <= x < r && (roads@[x].i1 == i || roads@[x].i2 == i)
                        ==> intersections@[i].roads@.contains(x as RoadID),
            decreases roads@.len() - r,
        {
            let a = roads[r].i1;
            let b = roads[r].i2;
            let ghost before = intersections@;
            intersections[a].roads.push(r);
            if b != a {
                intersections[b].roads.push(r);
            }
            proof {
                assert forall|i: int, x: int|
                    #![trigger intersections@[i], roads@[x]]
                    0 <= i < n && 0 <= x < r + 1 && (roads@[x].i1 == i || roads@[x].i2 == i)
                        implies intersections@[i].roads@.contains(x as RoadID) by {
                    if x < r {
                        assert(before[i].roads@.contains(x as RoadID));
                        let k = choose|k: int|
                            0 <= k < before[i].roads@.len() && before[i].roads@[k] == x as RoadID;
                        assert(intersections@[i].roads@[k] == x as RoadID);
                    } else {
                        let l = intersections@[i].roads@.len() - 1;
                        assert(intersections@[i].roads@[l] == x as RoadID);
                    }
                }
            }
            r += 1;
        }
        let g = Graph { intersections, roads, num_amenities };
        assert(g.roads@.len() == roads@.len());
        Some(g)
    }
}

} // verus!
