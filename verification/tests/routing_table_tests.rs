use kademlia_dht::error::RoutingError;
use kademlia_dht::key::Key;
use kademlia_dht::node::NodeInfo;
use kademlia_dht::routing_table::RoutingTable;
use kademlia_dht::{K, KEY_BITS, KEY_LEN};

fn peer(port: u16) -> NodeInfo {
    NodeInfo::new("127.0.0.1".to_string(), port)
}

fn local_key() -> Key {
    Key::new("127.0.0.1:9000".to_string())
}

/// The key with bit `bit` set, counted from the least significant, and
/// `low` in the last byte besides.
fn key_at(bit: usize, low: u8) -> Key {
    let mut bytes = [0u8; KEY_LEN];
    bytes[KEY_LEN - 1] = low;
    bytes[KEY_LEN - 1 - bit / 8] |= 1u8 << (bit % 8);
    Key::from_bytes(bytes)
}

fn contact_at(bit: usize, low: u8) -> NodeInfo {
    let port = (bit as u16) * 16 + low as u16;
    NodeInfo { ip: "10.0.0.1".to_string(), port, id: key_at(bit, low) }
}

fn zero_key() -> Key {
    Key::from_bytes([0u8; KEY_LEN])
}

fn table_of_ten() -> RoutingTable {
    let mut table = RoutingTable::new(local_key());
    for port in 9001..=9010u16 {
        assert_eq!(table.observe(peer(port)), Ok(()));
    }
    table
}

fn ports_of(found: &Vec<(&NodeInfo, Key)>) -> Vec<u16> {
    found.iter().map(|pair| pair.0.port).collect()
}

fn by_sorting(all: &[NodeInfo], target: &Key, count: usize) -> Vec<NodeInfo> {
    let mut sorted: Vec<NodeInfo> = all.to_vec();
    sorted.sort_by(|a, b| a.id.distance(target).0.cmp(&b.id.distance(target).0));
    sorted.truncate(count);
    sorted
}

#[test]
fn constants_of_the_identifier_space() {
    assert_eq!(KEY_LEN, 32);
    assert_eq!(KEY_BITS, 256);
    assert_eq!(K, 20);
}

#[test]
fn a_new_table_is_empty() {
    let table = RoutingTable::new(local_key());
    assert_eq!(*table.local_id(), local_key());
    assert_eq!(table.bucket_size(), K);
    for index in 0..KEY_BITS {
        assert!(table.bucket(index).is_none());
    }
    assert!(table.get_closest_nodes(&local_key(), 5).is_empty());
}

#[test]
fn a_table_with_its_own_bucket_size() {
    let table = RoutingTable::with_bucket_size(local_key(), 4);
    assert_eq!(table.bucket_size(), 4);
    assert_eq!(*table.local_id(), local_key());
}

#[test]
fn the_local_identifier_has_no_bucket() {
    let table = RoutingTable::new(local_key());
    assert_eq!(table.lookup_bucket_index(&local_key()), Err(RoutingError::InvalidIdentifier));
}

#[test]
fn bucket_index_is_the_highest_differing_bit() {
    let table = RoutingTable::new(zero_key());
    assert_eq!(table.lookup_bucket_index(&key_at(0, 0)), Ok(0));
    assert_eq!(table.lookup_bucket_index(&key_at(1, 1)), Ok(1));
    assert_eq!(table.lookup_bucket_index(&key_at(7, 0x7f)), Ok(7));
    assert_eq!(table.lookup_bucket_index(&key_at(8, 0xff)), Ok(8));
    assert_eq!(table.lookup_bucket_index(&key_at(100, 3)), Ok(100));
    assert_eq!(table.lookup_bucket_index(&key_at(255, 0)), Ok(255));
    assert_eq!(table.lookup_bucket_index(&Key::from_bytes([0xff; KEY_LEN])), Ok(255));
}

#[test]
fn bucket_index_for_every_bit() {
    let local = Key::new("anchor".to_string());
    let table = RoutingTable::new(local);
    for bit in 0..KEY_BITS {
        let mut bytes = local.0;
        bytes[KEY_LEN - 1 - bit / 8] ^= 1u8 << (bit % 8);
        assert_eq!(table.lookup_bucket_index(&Key::from_bytes(bytes)), Ok(bit));
        if bit > 0 {
            bytes[KEY_LEN - 1] ^= 1;
            assert_eq!(table.lookup_bucket_index(&Key::from_bytes(bytes)), Ok(bit));
        }
    }
}

#[test]
fn bucket_index_is_relative_to_the_local_identifier() {
    let table = RoutingTable::new(local_key());
    assert_eq!(table.lookup_bucket_index(&peer(9001).id), Ok(255));
    assert_eq!(table.lookup_bucket_index(&peer(9002).id), Ok(253));
    assert_eq!(table.lookup_bucket_index(&peer(9005).id), Ok(251));
    assert_eq!(table.lookup_bucket_index(&peer(9009).id), Ok(252));
}

#[test]
fn bucket_index_matches_the_leading_zeros_of_the_distance() {
    let table = RoutingTable::new(local_key());
    for port in 9001..=9040u16 {
        let id = peer(port).id;
        let zeros = local_key().distance(&id).leading_zeros();
        assert_eq!(table.lookup_bucket_index(&id), Ok(KEY_BITS - 1 - zeros));
    }
}

#[test]
fn observe_refuses_the_local_node() {
    let mut table = RoutingTable::new(local_key());
    assert_eq!(table.observe(peer(9001)), Ok(()));
    assert_eq!(table.observe(peer(9000)), Err(RoutingError::InvalidIdentifier));
    let found = table.get_closest_nodes(&local_key(), 10);
    assert_eq!(ports_of(&found), vec![9001]);
}

#[test]
fn observe_refuses_the_local_identifier_under_another_address() {
    let mut table = RoutingTable::new(local_key());
    let disguised = NodeInfo { ip: "10.9.9.9".to_string(), port: 1, id: local_key() };
    assert_eq!(table.observe(disguised), Err(RoutingError::InvalidIdentifier));
    assert!(table.get_closest_nodes(&local_key(), 10).is_empty());
}

#[test]
fn observe_puts_a_contact_in_its_bucket() {
    let mut table = RoutingTable::new(local_key());
    assert_eq!(table.observe(peer(9002)), Ok(()));
    for index in 0..KEY_BITS {
        match table.bucket(index) {
            Some(bucket) => {
                assert_eq!(index, 253);
                assert_eq!(bucket.len(), 1);
                assert_eq!(bucket.capacity(), K);
                assert_eq!(bucket.least_recently_seen(), Some(&peer(9002)));
            }
            None => assert_ne!(index, 253),
        }
    }
}

#[test]
fn observe_groups_contacts_by_bucket_index() {
    let table = table_of_ten();
    let big = table.bucket(255).unwrap();
    assert_eq!(big.len(), 7);
    assert_eq!(big.least_recently_seen(), Some(&peer(9001)));
    assert_eq!(table.bucket(253).unwrap().len(), 1);
    assert_eq!(table.bucket(252).unwrap().len(), 1);
    assert_eq!(table.bucket(251).unwrap().len(), 1);
    assert!(table.bucket(254).is_none());
    assert!(table.bucket(0).is_none());
}

#[test]
fn observe_again_refreshes_without_duplicating() {
    let mut table = table_of_ten();
    assert_eq!(table.observe(peer(9001)), Ok(()));
    let big = table.bucket(255).unwrap();
    assert_eq!(big.len(), 7);
    assert_eq!(big.least_recently_seen(), Some(&peer(9003)));
    assert_eq!(table.get_closest_nodes(&local_key(), 20).len(), 10);
}

#[test]
fn a_full_bucket_of_the_table_keeps_its_least_recently_seen_contact() {
    let mut table = RoutingTable::with_bucket_size(zero_key(), 4);
    for low in 1..=5u8 {
        assert_eq!(table.observe(contact_at(200, low)), Ok(()));
    }
    let bucket = table.bucket(200).unwrap();
    assert_eq!(bucket.len(), 4);
    assert!(bucket.is_full());
    assert_eq!(bucket.least_recently_seen(), Some(&contact_at(200, 1)));
    assert!(!bucket.contains(&contact_at(200, 5).id));
    assert_eq!(table.observe(contact_at(199, 5)), Ok(()));
    assert_eq!(table.bucket(199).unwrap().len(), 1);
}

#[test]
fn the_scenario_of_five_contacts_for_four_places() {
    let mut table = RoutingTable::with_bucket_size(local_key(), 4);
    let same_bucket: [u16; 5] = [9001, 9003, 9004, 9006, 9007];
    for port in same_bucket.iter() {
        assert_eq!(table.lookup_bucket_index(&peer(*port).id), Ok(255));
        assert_eq!(table.observe(peer(*port)), Ok(()));
    }
    let bucket = table.bucket(255).unwrap();
    assert_eq!(bucket.len(), 4);
    assert_eq!(bucket.least_recently_seen(), Some(&peer(9001)));
    assert!(!bucket.contains(&peer(9007).id));
}

#[test]
fn remove_forgets_a_contact() {
    let mut table = table_of_ten();
    table.remove(&peer(9005));
    let found = table.get_closest_nodes(&local_key(), 20);
    assert_eq!(found.len(), 9);
    assert!(!ports_of(&found).contains(&9005));
    assert_eq!(table.bucket(251).unwrap().len(), 0);
}

#[test]
fn remove_twice_is_remove_once() {
    let mut table = table_of_ten();
    table.remove(&peer(9003));
    let once = ports_of(&table.get_closest_nodes(&local_key(), 20));
    let oldest_once = table.bucket(255).unwrap().least_recently_seen().cloned();
    table.remove(&peer(9003));
    let twice = ports_of(&table.get_closest_nodes(&local_key(), 20));
    assert_eq!(once, twice);
    assert_eq!(table.bucket(255).unwrap().least_recently_seen().cloned(), oldest_once);
    assert_eq!(twice.len(), 9);
}

#[test]
fn remove_of_an_unknown_contact_changes_nothing() {
    let mut table = table_of_ten();
    table.remove(&peer(9999));
    table.remove(&contact_at(3, 0));
    assert_eq!(table.get_closest_nodes(&local_key(), 20).len(), 10);
}

#[test]
fn remove_of_the_local_node_changes_nothing() {
    let mut table = table_of_ten();
    table.remove(&peer(9000));
    assert_eq!(table.get_closest_nodes(&local_key(), 20).len(), 10);
}

#[test]
fn remove_goes_by_identifier() {
    let mut table = table_of_ten();
    let moved = NodeInfo { ip: "192.168.0.1".to_string(), port: 1, id: peer(9002).id };
    table.remove(&moved);
    assert!(!ports_of(&table.get_closest_nodes(&local_key(), 20)).contains(&9002));
}

#[test]
fn replace_exchanges_contacts_of_one_bucket() {
    let mut table = RoutingTable::with_bucket_size(zero_key(), 2);
    assert_eq!(table.observe(contact_at(200, 1)), Ok(()));
    assert_eq!(table.observe(contact_at(200, 2)), Ok(()));
    assert_eq!(table.observe(contact_at(200, 3)), Ok(()));
    let stale = table.bucket(200).unwrap().least_recently_seen().cloned().unwrap();
    assert_eq!(stale, contact_at(200, 1));
    assert_eq!(table.replace(&stale, contact_at(200, 3)), Ok(true));
    let bucket = table.bucket(200).unwrap();
    assert_eq!(bucket.len(), 2);
    assert_eq!(bucket.least_recently_seen(), Some(&contact_at(200, 2)));
    assert!(bucket.contains(&contact_at(200, 3).id));
    assert!(!bucket.contains(&contact_at(200, 1).id));
}

#[test]
fn replace_across_buckets_is_declined() {
    let mut table = RoutingTable::with_bucket_size(zero_key(), 2);
    assert_eq!(table.observe(contact_at(200, 1)), Ok(()));
    assert_eq!(table.replace(&contact_at(200, 1), contact_at(100, 1)), Ok(false));
    assert_eq!(table.bucket(200).unwrap().len(), 1);
    assert!(table.bucket(100).is_none());
}

#[test]
fn replace_of_an_unknown_contact_is_declined() {
    let mut table = RoutingTable::with_bucket_size(zero_key(), 2);
    assert_eq!(table.observe(contact_at(200, 1)), Ok(()));
    assert_eq!(table.replace(&contact_at(200, 2), contact_at(200, 3)), Ok(false));
    assert_eq!(table.replace(&contact_at(150, 2), contact_at(150, 3)), Ok(false));
    let local = NodeInfo { ip: "10.0.0.1".to_string(), port: 1, id: zero_key() };
    assert_eq!(table.replace(&local, contact_at(150, 3)), Ok(false));
    assert_eq!(table.get_closest_nodes(&zero_key(), 10).len(), 1);
}

#[test]
fn replace_refuses_the_local_node() {
    let mut table = RoutingTable::with_bucket_size(zero_key(), 2);
    assert_eq!(table.observe(contact_at(200, 1)), Ok(()));
    let local = NodeInfo { ip: "10.0.0.1".to_string(), port: 1, id: zero_key() };
    assert_eq!(table.replace(&contact_at(200, 1), local), Err(RoutingError::InvalidIdentifier));
    assert_eq!(table.bucket(200).unwrap().len(), 1);
}

#[test]
fn closest_nodes_of_an_empty_table() {
    let table = RoutingTable::new(local_key());
    assert!(table.get_closest_nodes(&peer(9001).id, 3).is_empty());
    assert!(table.get_closest_nodes(&local_key(), 0).is_empty());
}

#[test]
fn closest_nodes_for_a_count_of_zero() {
    let table = table_of_ten();
    assert!(table.get_closest_nodes(&peer(9001).id, 0).is_empty());
}

#[test]
fn the_three_closest_to_the_local_identifier_among_ten() {
    let table = table_of_ten();
    let found = table.get_closest_nodes(&local_key(), 3);
    assert_eq!(found.len(), 3);
    assert_eq!(ports_of(&found), vec![9005, 9009, 9002]);
    for pair in found.iter() {
        assert_ne!(pair.0.id, local_key());
        assert_eq!(pair.1, pair.0.id.distance(&local_key()));
    }
    assert!(found[0].1.less_than(&found[1].1));
    assert!(found[1].1.less_than(&found[2].1));
}

#[test]
fn closest_nodes_returns_all_when_fewer_are_known() {
    let table = table_of_ten();
    let found = table.get_closest_nodes(&local_key(), 25);
    assert_eq!(ports_of(&found), vec![9005, 9009, 9002, 9004, 9003, 9001, 9010, 9006, 9008, 9007]);
}

#[test]
fn closest_nodes_to_a_known_contact_start_with_it() {
    let table = table_of_ten();
    let target = peer(9003).id;
    let found = table.get_closest_nodes(&target, 4);
    assert_eq!(ports_of(&found), vec![9003, 9001, 9010, 9004]);
    assert_eq!(found[0].1, zero_key());
    let only = table.get_closest_nodes(&target, 1);
    assert_eq!(ports_of(&only), vec![9003]);
}

#[test]
fn closest_nodes_to_an_arbitrary_key() {
    let table = table_of_ten();
    let target = Key::new("some key".to_string());
    let found = table.get_closest_nodes(&target, 10);
    assert_eq!(ports_of(&found), vec![9010, 9003, 9001, 9004, 9007, 9006, 9008, 9002, 9009, 9005]);
    let found = table.get_closest_nodes(&target, 2);
    assert_eq!(ports_of(&found), vec![9010, 9003]);
}

#[test]
fn closest_nodes_pairs_each_contact_with_its_distance() {
    let table = table_of_ten();
    let target = Key::new("some key".to_string());
    let found = table.get_closest_nodes(&target, 10);
    for pair in found.iter() {
        assert_eq!(pair.1, pair.0.id.distance(&target));
    }
    for i in 1..found.len() {
        assert!(found[i - 1].1.less_than(&found[i].1));
        assert_ne!(found[i - 1].0.id, found[i].0.id);
    }
}

#[test]
fn closest_nodes_agree_with_sorting_everything() {
    let mut table = RoutingTable::new(local_key());
    let mut all: Vec<NodeInfo> = Vec::new();
    for port in 9001..=9200u16 {
        assert_eq!(table.observe(peer(port)), Ok(()));
    }
    for index in 0..KEY_BITS {
        if let Some(bucket) = table.bucket(index) {
            for c in bucket.closest(&local_key(), bucket.len()) {
                all.push(c.clone());
            }
        }
    }
    assert!(all.len() > 40);
    let targets = [
        local_key(),
        peer(9001).id,
        peer(9005).id,
        Key::new("some key".to_string()),
        Key::new("another".to_string()),
        zero_key(),
        Key::from_bytes([0xff; KEY_LEN]),
    ];
    let counts: [usize; 8] = [0, 1, 2, 3, 7, 20, 50, 500];
    for target in targets.iter() {
        for count in counts.iter() {
            let found: Vec<NodeInfo> =
                table.get_closest_nodes(target, *count).iter().map(|pair| pair.0.clone()).collect();
            assert_eq!(found, by_sorting(&all, target, *count));
        }
    }
}

#[test]
fn closest_nodes_across_sparse_buckets() {
    let mut table = RoutingTable::with_bucket_size(zero_key(), 3);
    let mut all: Vec<NodeInfo> = Vec::new();
    for bit in [0usize, 1, 2, 5, 8, 9, 64, 100, 101, 128, 200, 254, 255].iter() {
        for low in [0u8, 1, 2, 3].iter() {
            let c = contact_at(*bit, *low);
            if table.lookup_bucket_index(&c.id) == Ok(*bit) {
                let held = table.bucket(*bit).map(|b| b.len()).unwrap_or(0);
                let known = table.bucket(*bit).map(|b| b.contains(&c.id)).unwrap_or(false);
                assert_eq!(table.observe(c.clone()), Ok(()));
                if held < 3 && !known {
                    all.push(c);
                }
            }
        }
    }
    let mut targets: Vec<Key> = vec![zero_key(), Key::from_bytes([0xff; KEY_LEN])];
    for bit in [0usize, 1, 3, 5, 9, 63, 64, 100, 129, 200, 255].iter() {
        targets.push(key_at(*bit, 0));
        targets.push(key_at(*bit, 2));
    }
    for target in targets.iter() {
        for count in 0..=all.len() + 1 {
            let found: Vec<NodeInfo> =
                table.get_closest_nodes(target, count).iter().map(|pair| pair.0.clone()).collect();
            assert_eq!(found, by_sorting(&all, target, count));
        }
    }
}

#[test]
fn closest_nodes_never_include_the_local_node() {
    let mut table = table_of_ten();
    assert_eq!(table.observe(peer(9000)), Err(RoutingError::InvalidIdentifier));
    let found = table.get_closest_nodes(&local_key(), 100);
    assert_eq!(found.len(), 10);
    for pair in found.iter() {
        assert_ne!(pair.0.id, local_key());
        assert_ne!(pair.1, zero_key());
    }
}

#[test]
fn peers_in_different_buckets_are_as_far_apart_as_the_higher_bucket() {
    let table = RoutingTable::new(local_key());
    for p in 9001..=9030u16 {
        for q in 9001..=9030u16 {
            let a = peer(p).id;
            let b = peer(q).id;
            let i = table.lookup_bucket_index(&a).unwrap();
            let j = table.lookup_bucket_index(&b).unwrap();
            let between = RoutingTable::new(a).lookup_bucket_index(&b);
            if i != j {
                assert_eq!(between, Ok(i.max(j)));
            } else if p != q {
                assert!(between.unwrap() < i);
            } else {
                assert_eq!(between, Err(RoutingError::InvalidIdentifier));
            }
        }
    }
}

#[test]
fn closest_nodes_are_the_same_for_any_order_of_observation() {
    let mut forward = RoutingTable::with_bucket_size(local_key(), 64);
    let mut backward = RoutingTable::with_bucket_size(local_key(), 64);
    for port in 9001..=9060u16 {
        assert_eq!(forward.observe(peer(port)), Ok(()));
        assert_eq!(backward.observe(peer(18061 - port)), Ok(()));
    }
    let target = Key::new("some key".to_string());
    for count in 0..=61usize {
        let a = ports_of(&forward.get_closest_nodes(&target, count));
        let b = ports_of(&backward.get_closest_nodes(&target, count));
        assert_eq!(a, b);
    }
}
