use conshash::hashing::{hash, replica_hash};
use conshash::node::Named;
use conshash::ring::{EmptyRingError, Ring};

fn positions(id: &str, n: usize) -> Vec<u64> {
    (0..n).map(|i| hash(&format!("{}{}", id, i))).collect()
}

#[test]
fn hash_is_deterministic_and_depends_on_input() {
    assert_eq!(hash("192.168.1.1420"), hash("192.168.1.1420"));
    assert_ne!(hash("192.168.1.1420"), hash("192.168.1.1421"));
    assert_eq!(hash(&String::from("abc")), hash("abc"));
}

#[test]
fn replica_hash_appends_decimal_index() {
    assert_eq!(replica_hash("192.168.1.142", 0), hash("192.168.1.1420"));
    assert_eq!(replica_hash("192.168.1.142", 7), hash("192.168.1.1427"));
    assert_eq!(replica_hash("10.0.1.1666", 12), hash("10.0.1.166612"));
    assert_eq!(replica_hash("n", 1234567), hash("n1234567"));
    assert_ne!(replica_hash("192.168.1.142", 0), hash("192.168.1.142"));
}

#[test]
fn new_ring_is_empty() {
    let ring: Ring<String> = Ring::new(5);
    assert_eq!(ring.num_replicas(), 5);
    assert_eq!(ring.len(), 0);
    assert!(ring.is_empty());
    assert!(ring.get_node(0).is_none());
}

#[test]
fn add_node_places_one_entry_per_replica() {
    let mut ring = Ring::new(3);
    ring.add_node(&String::from("192.168.1.142"));
    assert_eq!(ring.len(), 3);
    let mut ring = Ring::new(100);
    ring.add_node(&String::from("cache-a"));
    assert_eq!(ring.len(), 100);
}

#[test]
fn re_adding_a_node_overwrites_its_own_positions() {
    let mut ring = Ring::new(4);
    let a = String::from("alpha");
    ring.add_node(&a);
    ring.add_node(&a);
    assert_eq!(ring.len(), 4);
}

#[test]
fn zero_replicas_places_nothing() {
    let mut ring = Ring::new(0);
    ring.add_node(&String::from("alpha"));
    assert!(ring.is_empty());
    assert!(ring.get_node(42).is_none());
    assert_eq!(ring.remove_node(&String::from("alpha")), Err(EmptyRingError));
}

#[test]
fn remove_from_empty_ring_is_an_error() {
    let mut ring: Ring<String> = Ring::new(3);
    assert_eq!(ring.remove_node(&String::from("alpha")), Err(EmptyRingError));
    assert_eq!(ring.remove_nodes(&[String::from("alpha")]), Err(EmptyRingError));
    assert_eq!(ring.remove_nodes(&[]), Ok(()));
    assert!(ring.is_empty());
}

#[test]
fn remove_unknown_node_leaves_others() {
    let mut ring = Ring::new(3);
    ring.add_node(&String::from("alpha"));
    assert_eq!(ring.remove_node(&String::from("beta")), Ok(()));
    assert_eq!(ring.len(), 3);
}

#[test]
fn remove_nodes_stops_at_empty_ring() {
    let mut ring = Ring::new(2);
    let a = String::from("alpha");
    let b = String::from("beta");
    ring.add_node(&a);
    assert_eq!(ring.remove_nodes(&[a.clone(), b.clone(), a.clone()]), Err(EmptyRingError));
    assert!(ring.is_empty());
}

#[test]
fn add_remove_round_trip_empties_ring() {
    let mut ring = Ring::new(7);
    let nodes: Vec<String> = vec!["a", "b", "c", "d"].into_iter().map(String::from).collect();
    ring.add_nodes(&nodes);
    assert_eq!(ring.len(), 28);
    assert_eq!(ring.remove_nodes(&nodes), Ok(()));
    assert!(ring.is_empty());
}

#[test]
fn lookup_is_deterministic() {
    let mut ring = Ring::new(10);
    ring.add_nodes(&[String::from("a"), String::from("b"), String::from("c")]);
    for key in [0u64, 1, 12345, u64::MAX / 2, u64::MAX] {
        assert_eq!(ring.get_node(key), ring.get_node(key));
    }
}

#[test]
fn lookup_returns_clockwise_successor_with_wraparound() {
    let mut ring = Ring::new(5);
    let names = ["a", "b", "c"];
    let nodes: Vec<String> = names.iter().map(|s| String::from(*s)).collect();
    ring.add_nodes(&nodes);
    let mut all: Vec<(u64, &str)> = Vec::new();
    for name in names.iter() {
        for p in positions(name, 5) {
            all.push((p, name));
        }
    }
    all.sort();
    for (p, owner) in all.iter() {
        assert_eq!(ring.get_node(*p).unwrap().as_str(), *owner);
    }
    for w in all.windows(2) {
        if w[1].0 > w[0].0 + 1 {
            assert_eq!(ring.get_node(w[0].0 + 1).unwrap().as_str(), w[1].1);
        }
    }
    let (last, _) = all[all.len() - 1];
    if last < u64::MAX {
        assert_eq!(ring.get_node(last + 1).unwrap().as_str(), all[0].1);
    }
    assert_eq!(ring.get_node(0).unwrap().as_str(), all[0].1);
}

#[test]
fn load_is_spread_over_nodes() {
    let mut ring = Ring::new(100);
    let names = ["node-a", "node-b", "node-c", "node-d"];
    let nodes: Vec<String> = names.iter().map(|s| String::from(*s)).collect();
    ring.add_nodes(&nodes);
    let total = 20000usize;
    let mut counts = [0usize; 4];
    for k in 0..total {
        let owner = ring.get_node(hash(&format!("key-{}", k))).unwrap();
        let idx = names.iter().position(|n| *n == owner.as_str()).unwrap();
        counts[idx] += 1;
    }
    for c in counts.iter() {
        assert!(*c > total / 8, "share too small: {:?}", counts);
        assert!(*c < total / 2, "share too large: {:?}", counts);
    }
}

#[derive(Clone, Debug, PartialEq)]
struct Host {
    name: &'static str,
}

#[test]
fn end_to_end_scenario() {
    let a = Named::new(String::from("192.168.1.142"), Host { name: "A" });
    let b = Named::new(String::from("10.0.1.1666"), Host { name: "B" });
    let c = Named::new(String::from("127.0.0.11"), Host { name: "C" });

    let mut ring = Ring::new(3);
    ring.add_node(&a);
    let hit = ring.get_node(hash(&format!("{}{}", "192.168.1.142", "0"))).unwrap();
    assert_eq!(hit.value.name, "A");

    ring.add_nodes(&[a.clone(), b.clone(), c.clone()]);
    assert_eq!(ring.len(), 9);
    let mut all: Vec<(u64, &str)> = Vec::new();
    for (id, host) in [("192.168.1.142", "A"), ("10.0.1.1666", "B"), ("127.0.0.11", "C")] {
        for p in positions(id, 3) {
            all.push((p, host));
        }
    }
    all.sort();
    for w in all.windows(2) {
        if w[1].0 > w[0].0 + 1 {
            let owner = ring.get_node(w[0].0 + 1).unwrap();
            assert_eq!(owner.value.name, w[1].1);
            if w[0].1 == "B" && w[1].1 == "C" {
                assert_eq!(owner.value.name, "C");
            }
        }
    }

    assert_eq!(ring.remove_nodes(&[a, b, c]), Ok(()));
    assert!(ring.is_empty());
    assert!(ring.get_node(hash("anything")).is_none());
}
