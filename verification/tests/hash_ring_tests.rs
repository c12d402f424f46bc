use hash_ring::HashRing;

#[test]
fn one_server_insert_retrieve() {
    let mut ring = HashRing::new(32_567, 1);

    ring.insert_server("server1.com");

    assert_eq!("server1.com", &ring.hostname_for_key("k1").unwrap());
    assert_eq!("server1.com", &ring.hostname_for_key("k2").unwrap());
    assert_eq!("server1.com", &ring.hostname_for_key("k3").unwrap());
}

#[test]
fn two_servers_consistent_over() {
    let mut ring = HashRing::new(32_567, 1);

    ring.insert_server("server1.com");
    ring.insert_server("server2.com");

    for i in 0..ring.max_value() {
        // Make sure there's nothing stateful here
        assert_eq!(
            ring.hostname_for_node(i).unwrap(),
            ring.hostname_for_node(i).unwrap()
        )
    }
}

#[test]
fn two_servers_switchover() {
    let mut ring = HashRing::new(1028, 1);

    ring.insert_server("server1.com");
    ring.insert_server("server2.com");

    let mut num_flips = 0;
    let mut last = ring.hostname_for_node(0).unwrap();
    for i in 1..ring.max_value() {
        let new = ring.hostname_for_node(i).unwrap();
        if new != last {
            num_flips += 1;
            last = new;
        }
    }

    assert_eq!(num_flips, 2);
}

#[test]
pub fn two_servers_multi_insert_switchover() {
    let mut ring = HashRing::new(128_456, 1024);

    ring.insert_server("server1.com");
    ring.insert_server("server2.com");

    let mut num_flips = 0;
    let mut last = ring.hostname_for_node(0).unwrap();
    for i in 1..ring.max_value() {
        let new = ring.hostname_for_node(i).unwrap();
        if new != last {
            num_flips += 1;
            last = new;
        }
    }

    assert!(num_flips > (1024 / 2));
}

#[test]
pub fn add_server_rehash() {
    let mut ring = HashRing::new(128_456, 32);

    for i in 0..16 {
        let s = format!("server{}.com", i);
        ring.insert_server(&s);
    }

    let mut first_hash = vec![];
    for i in 0..ring.max_value() {
        first_hash.push(ring.hostname_for_node(i));
    }

    ring.insert_server("server16.com");

    let mut second_hash = vec![];
    for i in 0..ring.max_value() {
        second_hash.push(ring.hostname_for_node(i))
    }

    let num_differences: usize = first_hash
        .iter()
        .zip(second_hash.iter())
        .map(|(x1, x2)| {
            if x1.as_ref().unwrap() == x2.as_ref().unwrap() {
                0
            } else {
                1
            }
        })
        .sum();

    let average_differences = ring.max_value() / 17;
    let percent_difference = (num_differences as f64 - average_differences as f64).abs()
        / (average_differences as f64);

    assert!(percent_difference < 0.1);
}

#[test]
pub fn remove_server_rehash() {
    let mut ring = HashRing::new(128_456, 32);

    for i in 0..16 {
        let s = format!("server{}.com", i);
        ring.insert_server(&s);
    }

    let mut first_hash = vec![];
    for i in 0..ring.max_value() {
        first_hash.push(ring.hostname_for_node(i));
    }

    ring.remove_hostname("server15.com");

    let mut second_hash = vec![];
    for i in 0..ring.max_value() {
        second_hash.push(ring.hostname_for_node(i))
    }

    let num_differences: usize = first_hash
        .iter()
        .zip(second_hash.iter())
        .map(|(x1, x2)| {
            if x1.as_ref().unwrap() == x2.as_ref().unwrap() {
                0
            } else {
                1
            }
        })
        .sum();

    let average_differences = ring.max_value() / 16;
    let percent_difference = (num_differences as f64 - average_differences as f64).abs()
        / (average_differences as f64);

    assert!(percent_difference < 0.1);
}

#[test]
pub fn remove_hostname_removes_all_servers() {
    let mut ring = HashRing::new(128_456, 32);

    for i in 0..16 {
        let s = format!("server{}.com", i);
        ring.insert_server(&s);
    }

    ring.remove_hostname("server1.com");

    let contains_host = ring.has_hostname("server1.com");
    assert!(!contains_host);
}

#[test]
fn lookup_on_empty_ring_returns_none() {
    let ring = HashRing::new(1 << 20, 16);
    assert_eq!(ring.hostname_for_key("anything"), None);
    assert_eq!(ring.hostname_for_node(0), None);
    assert_eq!(ring.hostname_for_node((1 << 20) - 1), None);
}

#[test]
fn single_node_covers_every_position() {
    let mut ring = HashRing::new(64, 4);
    ring.insert_server("only.example");
    for i in 0..ring.max_value() {
        assert_eq!(ring.hostname_for_node(i).unwrap(), "only.example");
    }
    assert_eq!(ring.hostname_for_key("k").unwrap(), "only.example");
}

#[test]
fn every_position_covered_with_two_nodes() {
    let mut ring = HashRing::new(1028, 1);
    ring.insert_server("server1.com");
    ring.insert_server("server2.com");
    for i in 0..ring.max_value() {
        assert!(ring.hostname_for_node(i).is_some());
    }
}

#[test]
fn removed_host_never_returned() {
    let mut ring = HashRing::new(4096, 8);
    ring.insert_server("a.example");
    ring.insert_server("b.example");
    ring.remove_hostname("a.example");
    for i in 0..ring.max_value() {
        assert_eq!(ring.hostname_for_node(i).unwrap(), "b.example");
    }
}

#[test]
fn remove_unknown_host_is_noop() {
    let mut ring = HashRing::new(4096, 8);
    ring.insert_server("a.example");
    let before: Vec<Option<String>> = (0..ring.max_value()).map(|i| ring.hostname_for_node(i)).collect();
    ring.remove_hostname("never-inserted.example");
    let after: Vec<Option<String>> = (0..ring.max_value()).map(|i| ring.hostname_for_node(i)).collect();
    assert_eq!(before, after);
}

#[test]
fn replica_placement_is_reproducible() {
    let mut first = HashRing::new(32_567, 16);
    let mut second = HashRing::new(32_567, 16);
    first.insert_server("server1.com");
    first.insert_server("server2.com");
    second.insert_server("server1.com");
    second.insert_server("server2.com");
    for key in ["k1", "k2", "k3", "a-much-longer-key"] {
        assert_eq!(first.hostname_for_key(key), second.hostname_for_key(key));
    }
}

#[test]
fn distinct_hosts_share_the_keys() {
    // With many replicas each of two nodes owns some keys; if every replica
    // landed at one position, or the salts never varied, one node would own
    // everything.
    let mut ring = HashRing::new(128_456, 256);
    ring.insert_server("server1.com");
    ring.insert_server("server2.com");
    let mut saw_one = false;
    let mut saw_two = false;
    for i in 0..ring.max_value() {
        match ring.hostname_for_node(i).unwrap().as_str() {
            "server1.com" => saw_one = true,
            "server2.com" => saw_two = true,
            other => panic!("unexpected owner {}", other),
        }
    }
    assert!(saw_one && saw_two);
}
