use kademlia_dht::node_id::{common_prefix_length, contacts_from_compact, distance, from_slice, from_vec, multiple_from_vec, random_node_id as library_random_id, NodeId};
use kademlia_dht::routing::{Bucket, ContactAddress, NodeContactInfo, NodeRating, RoutingEntry, RoutingTable, SeenIn};
use rand::RngCore;

const NOW: u64 = 1_000_000;

fn random_node_id() -> NodeId {
    let mut node_id = [0u8; 20];
    rand::thread_rng().fill_bytes(&mut node_id);

    node_id
}

fn build_contact() -> NodeContactInfo {
    NodeContactInfo {
        id: random_node_id(),
        address: ContactAddress { ip: [127, 0, 0, 1], port: 6881 },
    }
}

fn build_entry() -> RoutingEntry {
    RoutingEntry::new(build_contact())
}

fn build_contacts(count: usize) -> Vec<NodeContactInfo> {
    let mut result = Vec::with_capacity(count);

    for _ in 0..count {
        result.push(build_contact());
    }

    result
}

fn build_entries(count: usize) -> Vec<RoutingEntry> {
    let mut result = Vec::with_capacity(count);

    for _ in 0..count {
        result.push(build_entry());
    }

    result
}

fn bucket_contains(bucket: &Bucket, node: &NodeContactInfo) -> bool {
    let mut res = false;

    for i in 0..bucket.entries.len() {
        if &bucket.entries.as_slice()[i].node == node {
            res = true;
        }
    }

    res
}

#[test]
fn node_id_common_prefix_length() {
    let id1 = [0u8; 20];
    let id2 = [0u8; 20];
    assert_eq!(160, common_prefix_length(&id1, &id2));

    let mut id2 = [255u8; 20];
    assert_eq!(0, common_prefix_length(&id1, &id2));

    id2[0] = 0;
    id2[1] = 0b00100000;
    assert_eq!(10, common_prefix_length(&id1, &id2));
}

#[test]
fn common_prefix_length_is_symmetric_and_bounded() {
    let a = random_node_id();
    assert_eq!(160, common_prefix_length(&a, &a));
    let mut b = a;
    b[19] ^= 1;
    assert_eq!(159, common_prefix_length(&a, &b));
    assert_eq!(159, common_prefix_length(&b, &a));
}

#[test]
fn distance_is_xor() {
    let mut a = [0u8; 20];
    let mut b = [0u8; 20];
    a[0] = 0b1100_0000;
    b[0] = 0b1010_0000;
    a[19] = 7;
    let d = distance(&a, &b);
    assert_eq!(0b0110_0000, d[0]);
    assert_eq!(7, d[19]);
    assert_eq!(0, d[5]);
}

#[test]
fn node_id_parsing() {
    let bytes: Vec<u8> = (0u8..20).collect();
    let id = from_slice(&bytes).unwrap();
    assert_eq!(&bytes[..], &id[..]);
    assert!(from_slice(&bytes[..19]).is_err());
    assert_eq!(id, from_vec(bytes.clone()).unwrap());
    assert!(from_vec(vec![0; 21]).is_err());

    let mut two: Vec<u8> = (0u8..40).collect();
    let ids = multiple_from_vec(two.clone()).unwrap();
    assert_eq!(2, ids.len());
    assert_eq!(20, ids[1][0]);
    two.push(0);
    assert!(multiple_from_vec(two).is_err());
}

#[test]
fn compact_contacts() {
    let mut packed: Vec<u8> = (0u8..20).collect();
    packed.extend_from_slice(&[192, 168, 1, 2, 0x1A, 0xE1]);
    packed.extend(std::iter::repeat(9u8).take(26));
    let contacts = contacts_from_compact(&packed).unwrap();
    assert_eq!(2, contacts.len());
    assert_eq!(19, contacts[0].id[19]);
    assert_eq!([192, 168, 1, 2], contacts[0].address.ip);
    assert_eq!(6881, contacts[0].address.port);
    assert_eq!(9 * 256 + 9, contacts[1].address.port);
    packed.pop();
    assert!(contacts_from_compact(&packed).is_err());
    assert_eq!(0, contacts_from_compact(&[]).unwrap().len());
}

#[test]
fn find_node() {
    let mut rt = RoutingTable::new(random_node_id());
    let entry = build_entry();
    rt.buckets[0].entries.push(entry.clone());

    assert_eq!(&entry.node, rt.find_node(&entry.node.id).unwrap());
    assert!(rt.find_node(&build_contact().id).is_none());
}

#[test]
fn find_closest_when_prefix_bucket_is_full() {
    let mut nodes = build_contacts(8);
    nodes[0].id[0] = 0b00000001;
    nodes[1].id[0] = 0b00000010;
    nodes[2].id[0] = 0b00000100;
    nodes[3].id[0] = 0b00001000;
    nodes[4].id[0] = 0b00010000;
    nodes[5].id[0] = 0b00100000;
    nodes[6].id[0] = 0b01000000;
    nodes[7].id[0] = 0b10000000;

    let entries = nodes
        .iter()
        .map(|contact| RoutingEntry {
            node: contact.clone(),
            last_query: None,
            last_response: None,
        })
        .collect();

    let mut rt = RoutingTable::new(random_node_id());
    rt.buckets[0].entries.append_vec(entries);

    let mut needle = random_node_id();
    needle[0] = 0b11111111;
    let closest_contacts = rt.find_closest(&needle);
    assert!(closest_contacts.as_slice().contains(&nodes[0]));
    assert!(closest_contacts.as_slice().contains(&nodes[1]));
    assert!(closest_contacts.as_slice().contains(&nodes[2]));
    assert!(closest_contacts.as_slice().contains(&nodes[3]));
    assert!(closest_contacts.as_slice().contains(&nodes[4]));
    assert!(closest_contacts.as_slice().contains(&nodes[5]));
    assert!(closest_contacts.as_slice().contains(&nodes[6]));
    assert!(closest_contacts.as_slice().contains(&nodes[7]));
}

#[test]
fn find_closest_spanning_multiple_buckets() {
    let mut nodes = build_contacts(8);
    nodes[0].id[0] = 0b00000001;
    nodes[1].id[0] = 0b00000010;
    nodes[2].id[0] = 0b00000100;
    nodes[3].id[0] = 0b00001000;
    nodes[4].id[0] = 0b00010000;
    nodes[5].id[0] = 0b00100000;
    nodes[6].id[0] = 0b01000000;
    nodes[7].id[0] = 0b10000000;

    let mut entries: Vec<RoutingEntry> = nodes
        .iter()
        .map(|contact| RoutingEntry {
            node: contact.clone(),
            last_query: None,
            last_response: None,
        })
        .collect();

    let mut reference_id = random_node_id();
    let mut needle = random_node_id();
    reference_id[0] = 0b00001001;
    needle[0] = 0b00001011;

    let mut rt = RoutingTable::new(reference_id);
    rt.buckets[0].bounds = 0..2;
    rt.buckets.push(Bucket::new(2..5));
    rt.buckets.push(Bucket::new(5..100)); // this is the bucket the needle falls into (6 common prefix bits)
    rt.buckets.push(Bucket::new(100..160));

    // Entries are spread over the buckets regardless of their prefix lengths.
    rt.buckets[0].entries.push(entries.remove(0));
    rt.buckets[0].entries.push(entries.remove(0));
    rt.buckets[1].entries.push(entries.remove(0));
    rt.buckets[2].entries.push(entries.remove(0));
    rt.buckets[2].entries.push(entries.remove(0));
    rt.buckets[3].entries.push(entries.remove(0));
    rt.buckets[3].entries.push(entries.remove(0));
    rt.buckets[3].entries.push(entries.remove(0));

    let closest_contacts = rt.find_closest(&needle);
    assert!(closest_contacts.as_slice().contains(&nodes[0]));
    assert!(closest_contacts.as_slice().contains(&nodes[1]));
    assert!(closest_contacts.as_slice().contains(&nodes[2]));
    assert!(closest_contacts.as_slice().contains(&nodes[3]));
    assert!(closest_contacts.as_slice().contains(&nodes[4]));
    assert!(closest_contacts.as_slice().contains(&nodes[5]));
    assert!(closest_contacts.as_slice().contains(&nodes[6]));
    assert!(closest_contacts.as_slice().contains(&nodes[7]));
}

#[test]
fn find_closest_order_and_sparse_table() {
    let reference_id = [0u8; 20];
    let mut rt = RoutingTable::new(reference_id);
    rt.buckets[0].bounds = 0..1;
    rt.buckets.push(Bucket::new(1..2));
    rt.buckets.push(Bucket::new(2..160));
    let mut contacts = build_contacts(3);
    contacts[0].id[0] = 0x80;
    contacts[1].id[0] = 0x40;
    contacts[2].id[0] = 0x01;
    rt.buckets[0].entries.push(RoutingEntry::new(contacts[0]));
    rt.buckets[1].entries.push(RoutingEntry::new(contacts[1]));
    rt.buckets[2].entries.push(RoutingEntry::new(contacts[2]));

    // The needle falls into bucket 1; then bucket 0, then bucket 2.
    let mut needle = [0u8; 20];
    needle[0] = 0x40;
    let closest = rt.find_closest(&needle);
    assert_eq!(&[contacts[1], contacts[0], contacts[2]][..], closest.as_slice());

    // Fewer than 8 entries in total: all are returned, and the search ends.
    let own = rt.find_closest(&reference_id);
    assert_eq!(3, own.len());
}

#[test]
fn find_closest_returns_eight_when_table_has_more() {
    let reference_id = [0u8; 20];
    let mut rt = RoutingTable::new(reference_id);
    rt.buckets[0].bounds = 0..1;
    rt.buckets.push(Bucket::new(1..160));
    for i in 0..8u8 {
        let mut c = build_contact();
        c.id[0] = 0x80 | i;
        rt.buckets[0].entries.push(RoutingEntry::new(c));
    }
    for i in 0..3u8 {
        let mut c = build_contact();
        c.id[0] = 0x40;
        c.id[1] = i;
        rt.buckets[1].entries.push(RoutingEntry::new(c));
    }
    let mut needle = [0u8; 20];
    needle[0] = 0x40;
    let closest = rt.find_closest(&needle);
    assert_eq!(8, closest.len());
    assert_eq!(0x40, closest.as_slice()[0].id[0]);
    assert_eq!(0x80, closest.as_slice()[3].id[0]);
}

#[test]
fn add_and_update_single_node() {
    let mut reference_id = [0u8; 20];
    rand::thread_rng().fill_bytes(&mut reference_id);

    let node = build_contact();
    let mut rt = RoutingTable::new(reference_id);

    assert_eq!(1, rt.buckets.len());
    assert_eq!(0, rt.buckets[0].entries.len());

    rt.update(node.clone(), SeenIn::Referral, NOW);

    assert_eq!(1, rt.buckets.len());
    assert_eq!(1, rt.buckets[0].entries.len());
    assert_eq!(node, rt.buckets[0].entries.as_slice()[0].node);
    assert!(rt.buckets[0].entries.as_slice()[0].last_query.is_none());
    assert!(rt.buckets[0].entries.as_slice()[0].last_response.is_none());

    rt.update(node.clone(), SeenIn::Query, NOW);

    assert_eq!(1, rt.buckets.len());
    assert_eq!(1, rt.buckets[0].entries.len());
    assert_eq!(node, rt.buckets[0].entries.as_slice()[0].node);
    assert!(rt.buckets[0].entries.as_slice()[0].last_query.is_some());
    assert!(rt.buckets[0].entries.as_slice()[0].last_response.is_none());

    rt.update(node.clone(), SeenIn::Response, NOW);

    assert_eq!(1, rt.buckets.len());
    assert_eq!(1, rt.buckets[0].entries.len());
    assert_eq!(node, rt.buckets[0].entries.as_slice()[0].node);
    assert!(rt.buckets[0].entries.as_slice()[0].last_query.is_some());
    assert!(rt.buckets[0].entries.as_slice()[0].last_response.is_some());
}

#[test]
fn update_refreshes_address_and_time() {
    let mut rt = RoutingTable::new([0u8; 20]);
    let mut node = build_contact();
    node.id[0] = 0xFF;
    rt.update(node, SeenIn::Query, NOW);
    let mut moved = node;
    moved.address = ContactAddress { ip: [10, 0, 0, 1], port: 1 };
    rt.update(moved, SeenIn::Response, NOW + 5);
    let entry = rt.buckets[0].entries.as_slice()[0];
    assert_eq!(moved, entry.node);
    assert_eq!(Some(NOW), entry.last_query);
    assert_eq!(Some(NOW + 5), entry.last_response);
}

#[test]
fn update_ignores_own_id() {
    let reference_id = random_node_id();
    let mut rt = RoutingTable::new(reference_id);
    let own = NodeContactInfo {
        id: reference_id,
        address: ContactAddress { ip: [127, 0, 0, 1], port: 1 },
    };
    rt.update(own, SeenIn::Query, NOW);
    assert_eq!(0, rt.buckets[0].entries.len());
    assert!(rt.find_node(&reference_id).is_none());
}

#[test]
fn add_to_non_full_bucket() {
    let mut reference_id = [0u8; 20];
    rand::thread_rng().fill_bytes(&mut reference_id);

    let mut rt = RoutingTable::new(reference_id);
    // Leave one empty slot in bucket
    rt.buckets[0].entries.append_vec(build_entries(7));

    assert_eq!(1, rt.buckets.len());
    assert_eq!(7, rt.buckets[0].entries.len());

    rt.update(build_contact(), SeenIn::Referral, NOW);

    assert_eq!(1, rt.buckets.len());
    assert_eq!(8, rt.buckets[0].entries.len());
}

#[test]
fn replace_bad_node() {
    let mut reference_id = [0u8; 20];
    rand::thread_rng().fill_bytes(&mut reference_id);

    let mut rt = RoutingTable::new(reference_id);
    // Fill bucket
    for _ in 1..=8 {
        rt.buckets[0].entries.push(RoutingEntry {
            node: build_contact(),
            // Make sure this is a "good" entry
            last_query: Some(NOW),
            last_response: Some(NOW),
        });
    }
    // Make one node a "bad" one
    let bad_node = rt.buckets[0].entries.as_slice()[3].node.clone();
    let mut bad_entry = rt.buckets[0].entries.as_slice()[3];
    bad_entry.last_query = Some(NOW - 60 * 23);
    bad_entry.last_response = Some(NOW - 60 * 23);
    rt.buckets[0].entries.set(3, bad_entry);

    assert_eq!(1, rt.buckets.len());
    assert_eq!(8, rt.buckets[0].entries.len());
    assert!(rt.buckets[0]
        .entries
        .iter()
        .any(|entry| entry.rating(NOW) == NodeRating::Bad));

    let new_node = build_contact();
    rt.update(new_node.clone(), SeenIn::Referral, NOW);

    assert_eq!(1, rt.buckets.len());
    assert_eq!(8, rt.buckets[0].entries.len());
    assert!(!bucket_contains(&rt.buckets[0], &bad_node));
    assert!(bucket_contains(&rt.buckets[0], &new_node));
}

#[test]
fn split_bucket() {
    let mut reference_id = [0u8; 20];
    rand::thread_rng().fill_bytes(&mut reference_id);
    reference_id[0] = 0b11111111;
    let mut nodes = build_contacts(8);

    /* nodes near the reference */
    nodes[0].id[0] = 0b10000000;
    nodes[1].id[0] = 0b11000000;
    nodes[2].id[0] = 0b11100000;
    nodes[3].id[0] = 0b11110000;

    /* nodes further from the reference */
    nodes[4].id[0] = 0b00000000;
    nodes[5].id[0] = 0b01000000;
    nodes[6].id[0] = 0b01100000;
    nodes[7].id[0] = 0b01110000;

    let entries = nodes
        .iter()
        .map(|contact| RoutingEntry {
            node: contact.clone(),
            last_query: None,
            last_response: None,
        })
        .collect();

    let mut rt = RoutingTable::new(reference_id);
    rt.buckets[0].entries.append_vec(entries);

    let mut new_node = build_contact();
    new_node.id[0] = 0x00;

    rt.update(new_node.clone(), SeenIn::Referral, NOW);
    assert_eq!(2, rt.buckets.len());
    assert_eq!(0..1, rt.buckets[0].bounds);
    assert_eq!(1..160, rt.buckets[1].bounds);

    assert!(bucket_contains(&rt.buckets[0], &nodes[4]));
    assert!(bucket_contains(&rt.buckets[0], &nodes[5]));
    assert!(bucket_contains(&rt.buckets[0], &nodes[6]));
    assert!(bucket_contains(&rt.buckets[0], &nodes[7]));
    assert!(bucket_contains(&rt.buckets[0], &new_node));

    assert!(bucket_contains(&rt.buckets[1], &nodes[0]));
    assert!(bucket_contains(&rt.buckets[1], &nodes[1]));
    assert!(bucket_contains(&rt.buckets[1], &nodes[2]));
    assert!(bucket_contains(&rt.buckets[1], &nodes[3]));
}

#[test]
fn split_bucket_with_the_new_node_alone_in_one_half() {
    let mut reference_id = [0u8; 20];
    rand::thread_rng().fill_bytes(&mut reference_id);
    reference_id[0] = 0b11111111;
    let mut nodes = build_contacts(8);

    /* nodes near the reference */
    nodes[0].id[0] = 0b10000000;
    nodes[1].id[0] = 0b11000000;
    nodes[2].id[0] = 0b11100000;
    nodes[3].id[0] = 0b11110000;
    nodes[4].id[0] = 0b11111000;
    nodes[5].id[0] = 0b11111100;
    nodes[6].id[0] = 0b11111110;
    nodes[7].id[0] = 0b10000001;

    let entries = nodes
        .iter()
        .map(|contact| RoutingEntry {
            node: contact.clone(),
            last_query: None,
            last_response: None,
        })
        .collect();

    let mut rt = RoutingTable::new(reference_id);
    rt.buckets[0].entries.append_vec(entries);

    let mut new_node = build_contact();
    // new node is far from reference and will be alone in the new far bucket
    new_node.id[0] = 0x00;

    rt.update(new_node.clone(), SeenIn::Referral, NOW);
    assert_eq!(2, rt.buckets.len());
    assert_eq!(0..1, rt.buckets[0].bounds);
    assert_eq!(1..160, rt.buckets[1].bounds);

    assert!(bucket_contains(&rt.buckets[0], &new_node));

    assert!(bucket_contains(&rt.buckets[1], &nodes[0]));
    assert!(bucket_contains(&rt.buckets[1], &nodes[1]));
    assert!(bucket_contains(&rt.buckets[1], &nodes[2]));
    assert!(bucket_contains(&rt.buckets[1], &nodes[3]));
    assert!(bucket_contains(&rt.buckets[1], &nodes[4]));
    assert!(bucket_contains(&rt.buckets[1], &nodes[5]));
    assert!(bucket_contains(&rt.buckets[1], &nodes[6]));
    assert!(bucket_contains(&rt.buckets[1], &nodes[7]));
}

#[test]
fn split_keeps_halves_when_new_node_has_no_room() {
    let mut reference_id = [0u8; 20];
    reference_id[0] = 0b11111111;
    let mut rt = RoutingTable::new(reference_id);
    for i in 0..8u8 {
        let mut c = build_contact();
        c.id[0] = 0b10000000;
        c.id[1] = i;
        rt.buckets[0].entries.push(RoutingEntry::new(c));
    }
    let mut new_node = build_contact();
    new_node.id[0] = 0b10000000;
    new_node.id[1] = 0xFF;
    rt.update(new_node, SeenIn::Referral, NOW);
    assert_eq!(2, rt.buckets.len());
    assert_eq!(0, rt.buckets[0].entries.len());
    assert_eq!(8, rt.buckets[1].entries.len());
    assert!(!bucket_contains(&rt.buckets[1], &new_node));
}

#[test]
fn discard_node() {
    let reference_id = [0u8; 20];

    let mut rt = RoutingTable::new(reference_id);
    rt.buckets[0].bounds = 0..1;
    rt.buckets.push(Bucket::new(1..160));
    // Fill bucket
    for _ in 1..=8 {
        let mut node = build_contact();
        node.id[0] = 0xff;

        rt.buckets[0].entries.push(RoutingEntry {
            node,
            // Make sure this is a "good" entry
            last_query: Some(NOW),
            last_response: Some(NOW),
        });
    }

    assert_eq!(2, rt.buckets.len());
    assert_eq!(8, rt.buckets[0].entries.len());

    let mut new_node = build_contact();
    new_node.id[0] = 0xff;
    rt.update(new_node.clone(), SeenIn::Referral, NOW);

    assert_eq!(2, rt.buckets.len());
    assert_eq!(8, rt.buckets[0].entries.len());
    assert!(!bucket_contains(&rt.buckets[0], &new_node));
    assert!(!bucket_contains(&rt.buckets[1], &new_node));
}

#[test]
fn entry_rating() {
    let mut entry = RoutingEntry::new(build_contact());
    assert_eq!(NodeRating::Questionable, entry.rating(NOW));

    entry.last_response = Some(NOW - 60 * 10);
    assert_eq!(NodeRating::Good, entry.rating(NOW));

    entry.last_response = Some(NOW - 60 * 20);
    assert_eq!(NodeRating::Bad, entry.rating(NOW));

    entry.last_query = Some(NOW - 60 * 7);
    assert_eq!(NodeRating::Good, entry.rating(NOW));

    entry.last_query = Some(NOW - 60 * 16);
    assert_eq!(NodeRating::Bad, entry.rating(NOW));
}

#[test]
fn rating_never_improves_with_time() {
    let mut entry = RoutingEntry::new(build_contact());
    entry.last_response = Some(NOW);
    assert_eq!(NodeRating::Good, entry.rating(NOW + 60 * 15));
    assert_eq!(NodeRating::Bad, entry.rating(NOW + 60 * 16));
    assert_eq!(NodeRating::Bad, entry.rating(NOW + 60 * 1000));
    let fresh = RoutingEntry::new(build_contact());
    assert_eq!(NodeRating::Questionable, fresh.rating(NOW + 60 * 1000));
}

#[test]
fn many_updates_keep_table_sound() {
    let reference_id = random_node_id();
    let mut rt = RoutingTable::new(reference_id);
    let mut seen = Vec::new();
    for i in 0..300u64 {
        let c = build_contact();
        seen.push(c);
        rt.update(c, SeenIn::Response, NOW + i);
    }
    assert_eq!(0, rt.buckets[0].bounds.start);
    assert_eq!(160, rt.buckets[rt.buckets.len() - 1].bounds.end);
    let mut ids = Vec::new();
    for w in 0..rt.buckets.len() {
        if w + 1 < rt.buckets.len() {
            assert_eq!(rt.buckets[w].bounds.end, rt.buckets[w + 1].bounds.start);
        }
        assert!(rt.buckets[w].entries.len() <= 8);
        for e in rt.buckets[w].entries.iter() {
            let p = common_prefix_length(&reference_id, &e.node.id);
            assert!(rt.buckets[w].bounds.contains(&p));
            ids.push(e.node.id);
        }
    }
    let total = ids.len();
    ids.sort();
    ids.dedup();
    assert_eq!(total, ids.len());
    assert_eq!(8, rt.find_closest(&seen[0].id).len());
}

#[test]
fn random_tables_have_distinct_ids() {
    let a = RoutingTable::new_random();
    let b = RoutingTable::new_random();
    assert_ne!(a.reference_id, b.reference_id);
    assert_ne!(library_random_id(), library_random_id());
    assert_eq!(1, a.buckets.len());
    assert_eq!(0..160, a.buckets[0].bounds);
}
