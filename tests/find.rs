use backend::find::{find_pois, get_costs, Person, Request, POI};
use backend::graph::{Graph, Road};
use backend::search::cost_search;

const SECOND: u64 = 1_000_000_000;

fn road(i1: usize, i2: usize, seconds: u64, amenities: Vec<usize>) -> Road {
    Road {
        i1,
        i2,
        duration_ns: seconds * SECOND,
        amenities,
    }
}

fn person(name: &str, home: usize, max_time_minutes: u64) -> Person {
    Person {
        name: name.to_string(),
        home,
        max_time_minutes,
    }
}

fn times(poi: &POI) -> Vec<(String, u128)> {
    poi.times_per_person.clone()
}

/// I1 -- I2 by a 134.112 m road walked at 1.34112 m/s, carrying A1; I3 on its own, with a
/// loop road carrying A2.
fn two_junctions() -> Graph {
    Graph::new(
        3,
        vec![road(0, 1, 100, vec![0]), road(2, 2, 5, vec![1])],
        2,
    )
    .unwrap()
}

#[test]
fn amenity_within_two_minutes() {
    let g = two_junctions();
    let pois = find_pois(
        &g,
        Request {
            people: vec![person("alice", 0, 2)],
        },
    );
    assert_eq!(pois.len(), 1);
    assert_eq!(pois[0].amenity, 0);
    assert_eq!(times(&pois[0]), vec![("alice".to_string(), 100)]);
}

#[test]
fn road_past_the_budget_is_not_expanded() {
    // I0 -- I1 takes 100 s; A1 lies on I1 -- I2. With one minute I1 is never expanded.
    let g = Graph::new(
        3,
        vec![road(0, 1, 100, vec![]), road(1, 2, 10, vec![0])],
        1,
    )
    .unwrap();
    let pois = find_pois(
        &g,
        Request {
            people: vec![person("alice", 0, 1)],
        },
    );
    assert!(pois.is_empty());
    let pois = find_pois(
        &g,
        Request {
            people: vec![person("alice", 0, 2)],
        },
    );
    assert_eq!(pois.len(), 1);
    assert_eq!(times(&pois[0]), vec![("alice".to_string(), 110)]);
}

#[test]
fn amenity_over_one_minute_is_excluded() {
    // A1 costs 100 s, over the 60 s budget: no cost for the person, no record in the output.
    let g = two_junctions();
    let costs = get_costs(&g, &person("alice", 0, 1));
    assert!(costs.is_empty());
    let pois = find_pois(
        &g,
        Request {
            people: vec![person("alice", 0, 1)],
        },
    );
    assert!(pois.is_empty());
}

#[test]
fn zero_budget_reports_nothing_of_positive_cost() {
    let g = Graph::new(
        2,
        vec![road(0, 1, 100, vec![0]), road(0, 0, 0, vec![1])],
        2,
    )
    .unwrap();
    let costs = get_costs(&g, &person("alice", 0, 0));
    assert_eq!(costs, vec![(1, 0)]);
}

#[test]
fn reported_times_stay_within_each_budget() {
    let g = Graph::new(
        4,
        vec![road(0, 1, 50, vec![0]), road(1, 2, 50, vec![1]), road(2, 3, 50, vec![2])],
        3,
    )
    .unwrap();
    let people = vec![person("a", 0, 1), person("b", 0, 2), person("c", 0, 3)];
    let limits = [60u128, 120, 180];
    let pois = find_pois(&g, Request { people });
    for poi in &pois {
        for (name, secs) in &poi.times_per_person {
            let k = ["a", "b", "c"].iter().position(|n| n == name).unwrap();
            assert!(*secs <= limits[k]);
        }
    }
    let ids: Vec<usize> = pois.iter().map(|p| p.amenity).collect();
    assert_eq!(ids, vec![0, 1, 2]);
}

#[test]
fn isolated_junction_never_reached() {
    let g = two_junctions();
    for minutes in [0, 1, 60, 100_000, u64::MAX] {
        let costs = get_costs(&g, &person("alice", 0, minutes));
        assert!(costs.iter().all(|(a, _)| *a != 1));
        let costs = get_costs(&g, &person("bob", 1, minutes));
        assert!(costs.iter().all(|(a, _)| *a != 1));
    }
}

#[test]
fn zero_budget_keeps_zero_length_roads() {
    let g = Graph::new(
        3,
        vec![road(0, 1, 0, vec![0]), road(0, 2, 30, vec![]), road(2, 1, 0, vec![1])],
        2,
    )
    .unwrap();
    let costs = get_costs(&g, &person("alice", 0, 0));
    assert_eq!(costs, vec![(0, 0), (1, 0)]);
}

#[test]
fn more_time_never_loses_amenities() {
    let g = Graph::new(
        4,
        vec![
            road(0, 1, 50, vec![0]),
            road(1, 2, 50, vec![1]),
            road(2, 3, 50, vec![2]),
        ],
        3,
    )
    .unwrap();
    let mut previous: Vec<usize> = Vec::new();
    for minutes in 0..4 {
        let ids: Vec<usize> = get_costs(&g, &person("alice", 0, minutes))
            .iter()
            .map(|(a, _)| *a)
            .collect();
        assert!(previous.iter().all(|a| ids.contains(a)));
        previous = ids;
    }
    assert_eq!(previous, vec![0, 1, 2]);
}

#[test]
fn repeated_runs_agree() {
    let g = two_junctions();
    let run = || {
        find_pois(
            &g,
            Request {
                people: vec![person("alice", 0, 2), person("bob", 1, 3)],
            },
        )
    };
    let a = run();
    let b = run();
    assert_eq!(a.len(), b.len());
    for (x, y) in a.iter().zip(b.iter()) {
        assert_eq!(x.amenity, y.amenity);
        assert_eq!(times(x), times(y));
    }
}

#[test]
fn same_home_same_costs() {
    let g = two_junctions();
    let pois = find_pois(
        &g,
        Request {
            people: vec![person("alice", 1, 5), person("bob", 1, 5)],
        },
    );
    assert_eq!(pois.len(), 1);
    assert_eq!(
        times(&pois[0]),
        vec![("alice".to_string(), 100), ("bob".to_string(), 100)]
    );
    assert_eq!(get_costs(&g, &person("x", 1, 5)), get_costs(&g, &person("y", 1, 5)));
}

#[test]
fn one_record_per_amenity() {
    let g = Graph::new(
        3,
        vec![road(0, 1, 20, vec![0, 1]), road(1, 2, 40, vec![1])],
        2,
    )
    .unwrap();
    let pois = find_pois(
        &g,
        Request {
            people: vec![person("alice", 0, 10), person("bob", 2, 10), person("carol", 1, 10)],
        },
    );
    let ids: Vec<usize> = pois.iter().map(|p| p.amenity).collect();
    assert_eq!(ids, vec![0, 1]);
    assert_eq!(
        times(&pois[0]),
        vec![
            ("alice".to_string(), 20),
            ("bob".to_string(), 60),
            ("carol".to_string(), 20)
        ]
    );
    assert_eq!(
        times(&pois[1]),
        vec![
            ("alice".to_string(), 20),
            ("bob".to_string(), 40),
            ("carol".to_string(), 20)
        ]
    );
}

#[test]
fn road_scanned_from_both_ends_keeps_the_cheaper_cost() {
    // The road I1 -- I2 carries A; I1 settles at 10 s and I2 at 50 s by separate roads, so
    // A costs 10 + 100 s, not 50 + 100 s.
    let g = Graph::new(
        3,
        vec![road(0, 1, 10, vec![]), road(0, 2, 50, vec![]), road(1, 2, 100, vec![0])],
        1,
    )
    .unwrap();
    let costs = get_costs(&g, &person("alice", 0, 5));
    assert_eq!(costs, vec![(0, 110 * SECOND as u128)]);
}

#[test]
fn shorter_detour_wins() {
    // Direct road 0 -- 2 is 90 s, the detour through 1 is 30 + 30 s.
    let g = Graph::new(
        3,
        vec![road(0, 2, 90, vec![]), road(0, 1, 30, vec![]), road(1, 2, 30, vec![]), road(2, 2, 7, vec![0])],
        1,
    )
    .unwrap();
    let costs = cost_search(&g, 0, 1_000 * SECOND as u128);
    assert_eq!(costs, vec![(0, 67 * SECOND as u128)]);
}

#[test]
fn costs_are_truncated_to_whole_seconds() {
    let g = Graph::new(
        2,
        vec![Road {
            i1: 0,
            i2: 1,
            duration_ns: 1_999_999_999,
            amenities: vec![0],
        }],
        1,
    )
    .unwrap();
    let pois = find_pois(
        &g,
        Request {
            people: vec![person("alice", 0, 1)],
        },
    );
    assert_eq!(times(&pois[0]), vec![("alice".to_string(), 1)]);
}

#[test]
fn nobody_asks_nothing_found() {
    let g = two_junctions();
    assert!(find_pois(&g, Request { people: vec![] }).is_empty());
}

#[test]
fn graph_rejects_ids_out_of_range() {
    assert!(Graph::new(2, vec![road(0, 2, 1, vec![])], 0).is_none());
    assert!(Graph::new(2, vec![road(0, 1, 1, vec![3])], 3).is_none());
    assert!(Graph::new(2, vec![road(0, 1, 1, vec![2])], 3).is_some());
}

#[test]
fn graph_lists_roads_at_both_ends() {
    let g = Graph::new(3, vec![road(0, 1, 1, vec![]), road(1, 1, 1, vec![]), road(2, 1, 1, vec![])], 0)
        .unwrap();
    assert_eq!(g.intersections[0].roads, vec![0]);
    assert_eq!(g.intersections[1].roads, vec![0, 1, 2]);
    assert_eq!(g.intersections[2].roads, vec![2]);
    assert_eq!(g.roads[1].other_side(1), 1);
    assert_eq!(g.roads[2].other_side(1), 2);
}
