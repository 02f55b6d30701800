use network_discovery::address::NetworkAddress;
use network_discovery::discovery::NetworkDiscovery;
use network_discovery::generator::ilog2_from;
use network_discovery::model::MAX_PEERS_PER_BUCKET;

fn address(text: &str) -> NetworkAddress {
    NetworkAddress::from_bytes(text.as_bytes().to_vec())
}

fn addresses(texts: &[&str]) -> Vec<NetworkAddress> {
    texts.iter().map(|text| address(text)).collect()
}

fn labelled(bucket: u32, texts: &[&str]) -> Vec<(u32, NetworkAddress)> {
    texts.iter().map(|text| (bucket, address(text))).collect()
}

fn local() -> NetworkAddress {
    address("local-node")
}

#[test]
fn capacity_is_five() {
    assert_eq!(MAX_PEERS_PER_BUCKET, 5);
}

#[test]
fn empty_batch_gives_an_empty_table() {
    let discovery = NetworkDiscovery::with_candidates(local(), Vec::new());
    assert_eq!(discovery.buckets_covered(), Vec::new());
    assert!(discovery.candidates().is_empty());
    assert_eq!(discovery.bucket(3), None);
    assert_eq!(discovery.self_address(), &local());
}

#[test]
fn first_candidate_makes_the_bucket() {
    let discovery = NetworkDiscovery::with_candidates(local(), labelled(7, &["A"]));
    assert_eq!(discovery.bucket(7), Some(addresses(&["A"])));
    assert_eq!(discovery.bucket(6), None);
    assert_eq!(discovery.buckets_covered(), vec![(7, 1)]);
}

#[test]
fn construction_keeps_the_first_five_of_a_bucket() {
    let discovery = NetworkDiscovery::with_candidates(
        local(),
        labelled(3, &["A", "B", "C", "D", "E", "F", "G"]),
    );
    assert_eq!(discovery.bucket(3), Some(addresses(&["A", "B", "C", "D", "E"])));
    assert_eq!(discovery.buckets_covered(), vec![(3, 5)]);
}

#[test]
fn construction_keeps_the_order_within_each_bucket() {
    let batch = vec![
        (9, address("a")),
        (2, address("b")),
        (9, address("c")),
        (2, address("d")),
        (9, address("e")),
        (9, address("f")),
        (9, address("g")),
        (9, address("h")),
        (2, address("i")),
        (200, address("j")),
    ];
    let discovery = NetworkDiscovery::with_candidates(local(), batch);
    assert_eq!(discovery.bucket(9), Some(addresses(&["a", "c", "e", "f", "g"])));
    assert_eq!(discovery.bucket(2), Some(addresses(&["b", "d", "i"])));
    assert_eq!(discovery.bucket(200), Some(addresses(&["j"])));
    assert_eq!(discovery.buckets_covered(), vec![(2, 3), (9, 5), (200, 1)]);
}

#[test]
fn construction_does_not_drop_a_repeated_address() {
    let discovery = NetworkDiscovery::with_candidates(local(), labelled(4, &["A", "A", "B"]));
    assert_eq!(discovery.bucket(4), Some(addresses(&["A", "A", "B"])));
}

#[test]
fn refresh_appends_below_capacity() {
    let mut discovery = NetworkDiscovery::with_candidates(local(), labelled(3, &["A", "B"]));
    discovery.refresh_with(labelled(3, &["C"]));
    assert_eq!(discovery.bucket(3), Some(addresses(&["A", "B", "C"])));
}

#[test]
fn refresh_makes_a_new_bucket() {
    let mut discovery = NetworkDiscovery::with_candidates(local(), labelled(3, &["A"]));
    discovery.refresh_with(labelled(11, &["Z"]));
    assert_eq!(discovery.bucket(3), Some(addresses(&["A"])));
    assert_eq!(discovery.bucket(11), Some(addresses(&["Z"])));
    assert_eq!(discovery.buckets_covered(), vec![(3, 1), (11, 1)]);
}

#[test]
fn refresh_slides_a_full_bucket() {
    let mut discovery =
        NetworkDiscovery::with_candidates(local(), labelled(3, &["A", "B", "C", "D", "E"]));
    discovery.refresh_with(labelled(3, &["H"]));
    assert_eq!(discovery.bucket(3), Some(addresses(&["B", "C", "D", "E", "H"])));
    assert_eq!(discovery.buckets_covered(), vec![(3, 5)]);
}

#[test]
fn refresh_slides_once_for_each_candidate() {
    let mut discovery =
        NetworkDiscovery::with_candidates(local(), labelled(3, &["A", "B", "C", "D", "E"]));
    discovery.refresh_with(labelled(3, &["F", "G", "H"]));
    assert_eq!(discovery.bucket(3), Some(addresses(&["D", "E", "F", "G", "H"])));
}

#[test]
fn refresh_does_not_look_for_duplicates() {
    let mut discovery =
        NetworkDiscovery::with_candidates(local(), labelled(3, &["A", "B", "C", "D", "E"]));
    discovery.refresh_with(labelled(3, &["E"]));
    assert_eq!(discovery.bucket(3), Some(addresses(&["B", "C", "D", "E", "E"])));
}

#[test]
fn refresh_leaves_other_buckets_alone() {
    let mut batch = labelled(3, &["A", "B", "C", "D", "E"]);
    batch.extend(labelled(8, &["x", "y"]));
    let mut discovery = NetworkDiscovery::with_candidates(local(), batch);
    discovery.refresh_with(labelled(3, &["H"]));
    assert_eq!(discovery.bucket(8), Some(addresses(&["x", "y"])));
}

#[test]
fn candidates_are_the_fronts_of_the_buckets() {
    let mut batch = labelled(3, &["A", "B", "C"]);
    batch.extend(labelled(8, &["x", "y"]));
    batch.extend(labelled(255, &["last"]));
    let mut discovery = NetworkDiscovery::with_candidates(local(), batch);

    let mut fronts: Vec<NetworkAddress> = discovery.candidates().into_iter().cloned().collect();
    fronts.sort_by_key(|front| front.as_bytes());
    assert_eq!(fronts, addresses(&["A", "last", "x"]));

    discovery.refresh_with(labelled(3, &["D", "E", "F"]));
    let mut fronts: Vec<NetworkAddress> = discovery.candidates().into_iter().cloned().collect();
    fronts.sort_by_key(|front| front.as_bytes());
    assert_eq!(fronts, addresses(&["B", "last", "x"]));
}

#[test]
fn candidates_can_be_asked_for_again() {
    let discovery = NetworkDiscovery::with_candidates(local(), labelled(3, &["A", "B"]));
    assert_eq!(discovery.candidates(), vec![&address("A")]);
    assert_eq!(discovery.candidates(), vec![&address("A")]);
}

#[test]
fn discovered_peer_without_a_bucket_is_left_out() {
    let mut discovery = NetworkDiscovery::with_candidates(local(), labelled(3, &["A"]));
    discovery.insert_discovered_peer(None, address("B"));
    assert_eq!(discovery.buckets_covered(), vec![(3, 1)]);
    assert_eq!(discovery.bucket(3), Some(addresses(&["A"])));
}

#[test]
fn discovered_peer_makes_a_new_bucket() {
    let mut discovery = NetworkDiscovery::with_candidates(local(), Vec::new());
    discovery.insert_discovered_peer(Some(12), address("P"));
    assert_eq!(discovery.bucket(12), Some(addresses(&["P"])));
}

#[test]
fn discovered_peer_is_appended_below_capacity() {
    let mut discovery = NetworkDiscovery::with_candidates(local(), labelled(3, &["A", "B"]));
    discovery.insert_discovered_peer(Some(3), address("P"));
    assert_eq!(discovery.bucket(3), Some(addresses(&["A", "B", "P"])));
    discovery.insert_discovered_peer(Some(3), address("A"));
    assert_eq!(discovery.bucket(3), Some(addresses(&["A", "B", "P", "A"])));
}

#[test]
fn discovered_peer_slides_a_full_bucket() {
    let mut discovery =
        NetworkDiscovery::with_candidates(local(), labelled(3, &["A", "B", "C", "D", "E"]));
    discovery.insert_discovered_peer(Some(3), address("P"));
    assert_eq!(discovery.bucket(3), Some(addresses(&["B", "C", "D", "E", "P"])));
}

#[test]
fn discovered_duplicate_overfills_a_full_bucket() {
    let mut discovery =
        NetworkDiscovery::with_candidates(local(), labelled(3, &["A", "B", "C", "D", "E"]));
    discovery.insert_discovered_peer(Some(3), address("C"));
    assert_eq!(discovery.bucket(3), Some(addresses(&["A", "B", "C", "D", "E", "C"])));
    assert_eq!(discovery.buckets_covered(), vec![(3, 6)]);
}

#[test]
fn end_to_end_scenario() {
    let mut discovery = NetworkDiscovery::with_candidates(
        local(),
        labelled(3, &["A", "B", "C", "D", "E", "F", "G"]),
    );
    assert_eq!(discovery.bucket(3), Some(addresses(&["A", "B", "C", "D", "E"])));

    discovery.refresh_with(labelled(3, &["H"]));
    assert_eq!(discovery.bucket(3), Some(addresses(&["B", "C", "D", "E", "H"])));

    discovery.insert_discovered_peer(Some(3), address("H"));
    assert_eq!(discovery.bucket(3), Some(addresses(&["B", "C", "D", "E", "H", "H"])));
    assert_eq!(discovery.buckets_covered(), vec![(3, 6)]);
    assert_eq!(discovery.candidates(), vec![&address("B")]);
}

#[test]
fn reported_peers_go_to_their_own_buckets() {
    let mut discovery = NetworkDiscovery::with_candidates(local(), Vec::new());
    discovery.handle_get_closest_query(addresses(&["peer-0", "peer-2", "peer-3", "peer-4", "peer-1"]));
    assert_eq!(discovery.bucket(254), Some(addresses(&["peer-0", "peer-1"])));
    assert_eq!(discovery.bucket(253), Some(addresses(&["peer-2"])));
    assert_eq!(discovery.bucket(250), Some(addresses(&["peer-3"])));
    assert_eq!(discovery.bucket(255), Some(addresses(&["peer-4"])));
    assert_eq!(discovery.buckets_covered(), vec![(250, 1), (253, 1), (254, 2), (255, 1)]);
}

#[test]
fn reporting_the_node_itself_changes_nothing() {
    let mut discovery = NetworkDiscovery::with_candidates(local(), labelled(3, &["A", "B"]));
    discovery.handle_get_closest_query(vec![local()]);
    assert_eq!(discovery.buckets_covered(), vec![(3, 2)]);
    assert_eq!(discovery.bucket(3), Some(addresses(&["A", "B"])));

    discovery.handle_get_closest_query(vec![local(), local()]);
    assert_eq!(discovery.buckets_covered(), vec![(3, 2)]);

    let mut empty = NetworkDiscovery::with_candidates(local(), Vec::new());
    empty.handle_get_closest_query(vec![local()]);
    assert_eq!(empty.buckets_covered(), Vec::new());
}

#[test]
fn reporting_nothing_changes_nothing() {
    let mut discovery = NetworkDiscovery::with_candidates(local(), labelled(3, &["A", "B"]));
    discovery.handle_get_closest_query(Vec::new());
    assert_eq!(discovery.bucket(3), Some(addresses(&["A", "B"])));
}

#[test]
fn the_node_itself_is_skipped_among_other_peers() {
    let mut discovery = NetworkDiscovery::with_candidates(local(), Vec::new());
    discovery.handle_get_closest_query(vec![address("peer-0"), local(), address("peer-8")]);
    assert_eq!(discovery.bucket(254), Some(addresses(&["peer-0", "peer-8"])));
    assert_eq!(discovery.buckets_covered(), vec![(254, 2)]);
}

#[test]
fn reported_peers_slide_a_full_bucket() {
    // All of these fall in bucket 255 as seen from the local node.
    let in_255 = ["peer-4", "peer-5", "peer-6", "peer-7", "peer-9", "peer-10", "peer-16"];
    for text in in_255 {
        assert_eq!(ilog2_from(&local(), &address(text)), Some(255));
    }
    let mut discovery = NetworkDiscovery::with_candidates(local(), Vec::new());
    discovery.handle_get_closest_query(addresses(&in_255[..5]));
    assert_eq!(discovery.bucket(255), Some(addresses(&in_255[..5])));

    discovery.handle_get_closest_query(addresses(&in_255[5..]));
    assert_eq!(
        discovery.bucket(255),
        Some(addresses(&["peer-6", "peer-7", "peer-9", "peer-10", "peer-16"]))
    );
}

#[test]
fn reported_duplicate_overfills_a_full_bucket() {
    let in_255 = ["peer-4", "peer-5", "peer-6", "peer-7", "peer-9"];
    let mut discovery = NetworkDiscovery::with_candidates(local(), Vec::new());
    discovery.handle_get_closest_query(addresses(&in_255));
    discovery.handle_get_closest_query(addresses(&["peer-6"]));
    assert_eq!(
        discovery.bucket(255),
        Some(addresses(&["peer-4", "peer-5", "peer-6", "peer-7", "peer-9", "peer-6"]))
    );
    // A bucket that went over its capacity slides at the length it has.
    discovery.handle_get_closest_query(addresses(&["peer-10"]));
    assert_eq!(
        discovery.bucket(255),
        Some(addresses(&["peer-5", "peer-6", "peer-7", "peer-9", "peer-6", "peer-10"]))
    );
}

#[test]
fn summary_lists_the_buckets_in_ascending_order() {
    let batch = vec![
        (255, address("a")),
        (0, address("b")),
        (17, address("c")),
        (255, address("d")),
        (3, address("e")),
        (16, address("f")),
        (4_000_000_000, address("g")),
    ];
    let discovery = NetworkDiscovery::with_candidates(local(), batch);
    assert_eq!(
        discovery.buckets_covered(),
        vec![(0, 1), (3, 1), (16, 1), (17, 1), (255, 2), (4_000_000_000, 1)]
    );
}
