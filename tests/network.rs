use hub_finder::network::{merge_networks, CountOverflow, FlightCountNetwork};

// Airports as (latitude, longitude) in degrees, matched to flight endpoints by
// the smallest distance between their points on the unit sphere.
fn point(lat: f32, long: f32) -> [f32; 3] {
    let lo = long.to_radians();
    let la = lat.to_radians();
    [lo.cos() * la.sin(), lo.sin() * la.sin(), la.cos()]
}

fn nearest(airports: &[(f32, f32)], lat: f32, long: f32) -> usize {
    let p = point(lat, long);
    let mut best = 0;
    let mut best_d = f32::MAX;
    for (i, &(alat, along)) in airports.iter().enumerate() {
        let q = point(alat, along);
        let d = (p[0] - q[0]).powi(2) + (p[1] - q[1]).powi(2) + (p[2] - q[2]).powi(2);
        if d < best_d {
            best_d = d;
            best = i;
        }
    }
    best
}

#[test]
fn flight_count_network_works() {
    let airports = vec![
        (59.3294_f32, 18.0686_f32),
        (40.641766_f32, -73.780968_f32),
        (-23.8067_f32, 133.9017_f32),
    ];
    // Gothenburg to New York, then Australia to Solna.
    let flights = [
        (57.6717_f32, 11.9810_f32, 40.730610_f32, -73.935242_f32),
        (-33.865143_f32, 151.209900_f32, 59.36004_f32, 18.00086_f32),
    ];
    let pairs: Vec<(usize, usize)> = flights
        .iter()
        .map(|f| (nearest(&airports, f.0, f.1), nearest(&airports, f.2, f.3)))
        .collect();
    let mut network = FlightCountNetwork::new(airports.len());
    assert_eq!(network.add_flights(&pairs), Ok(()));
    assert_eq!(network.connections(), &vec![1, 1, 0]);
}

#[test]
fn index_map_test() {
    // - 1 2 0 3 0
    // - - 4 0 0 5
    // - - - 6 0 7
    // - - - - 8 9
    // - - - - - 10
    let mut network = FlightCountNetwork::new(6);
    for _ in 0..1 { network.add_flight(0, 1); }
    for _ in 0..2 { network.add_flight(0, 2); }
    for _ in 0..3 { network.add_flight(0, 4); }
    for _ in 0..4 { network.add_flight(1, 2); }
    for _ in 0..5 { network.add_flight(1, 5); }
    for _ in 0..6 { network.add_flight(2, 3); }
    for _ in 0..7 { network.add_flight(2, 5); }
    for _ in 0..8 { network.add_flight(3, 4); }
    for _ in 0..9 { network.add_flight(3, 5); }
    for _ in 0..10 { network.add_flight(4, 5); }

    let theoretical = vec![1, 2, 0, 3, 0, 4, 0, 0, 5, 6, 0, 7, 8, 9, 10];
    assert_eq!(&theoretical, network.connections());
}

#[test]
fn new_network_is_zero_filled() {
    let network = FlightCountNetwork::new(5);
    assert_eq!(network.airport_count(), 5);
    assert_eq!(network.connections(), &vec![0; 10]);
    let single = FlightCountNetwork::new(1);
    assert!(single.connections().is_empty());
}

#[test]
fn flight_order_within_pair_is_ignored() {
    let mut network = FlightCountNetwork::new(4);
    network.add_flight(3, 1);
    network.add_flight(1, 3);
    // Pair (1, 3) of four airports sits at 1 * (8 - 1 - 1) / 2 + (3 - 1 - 1) = 4.
    assert_eq!(network.connections(), &vec![0, 0, 0, 0, 2, 0]);
}

#[test]
fn self_loop_changes_nothing() {
    let mut network = FlightCountNetwork::new(4);
    network.add_flight(0, 2);
    let before = network.connections().clone();
    for x in 0..4 {
        network.add_flight(x, x);
    }
    assert_eq!(network.connections(), &before);
    assert_eq!(network.add_flights(&[(2, 2), (3, 3)]), Ok(()));
    assert_eq!(network.connections(), &before);
}

#[test]
fn dissimilarity_is_shifted_by_largest_count() {
    let mut network = FlightCountNetwork::new(3);
    assert_eq!(network.add_flights(&[(0, 1), (0, 1), (0, 1), (1, 2)]), Ok(()));
    assert_eq!(network.connections(), &vec![3, 0, 1]);
    assert_eq!(network.to_dissimilarity_vec(), vec![0, 3, 2]);
}

#[test]
fn dissimilarity_of_empty_network_is_zero() {
    let network = FlightCountNetwork::new(4);
    assert_eq!(network.to_dissimilarity_vec(), vec![0; 6]);
    let single = FlightCountNetwork::new(1);
    assert_eq!(single.to_dissimilarity_vec(), Vec::<u32>::new());
}

#[test]
fn merged_groups_match_one_network() {
    let flights = [(0, 1), (2, 3), (1, 0), (3, 3), (0, 3), (2, 1), (1, 0)];
    let mut whole = FlightCountNetwork::new(4);
    assert_eq!(whole.add_flights(&flights), Ok(()));

    let groups: [&[(usize, usize)]; 3] = [&flights[0..2], &flights[2..3], &flights[3..]];
    for order in [[0, 1, 2], [2, 0, 1], [1, 2, 0]] {
        let mut combined = FlightCountNetwork::new(4);
        for g in order {
            let mut part = FlightCountNetwork::new(4);
            assert_eq!(part.add_flights(groups[g]), Ok(()));
            combined.add_network(part);
        }
        assert_eq!(combined.connections(), whole.connections());
    }
    assert_eq!(whole.connections(), &vec![3, 0, 1, 1, 0, 1]);
}

#[test]
fn overflowing_count_is_reported() {
    // Build a count of u32::MAX from powers of two.
    let mut power = FlightCountNetwork::new(2);
    power.add_flight(0, 1);
    let mut total = FlightCountNetwork::new(2);
    for _ in 0..31 {
        total.add_network(power.clone());
        power.add_network(power.clone());
    }
    total.add_network(power);
    assert_eq!(total.connections(), &vec![u32::MAX]);
    assert_eq!(total.add_flights(&[(0, 0)]), Ok(()));
    assert_eq!(total.add_flights(&[(1, 0)]), Err(CountOverflow));
    assert_eq!(total.to_dissimilarity_vec(), vec![0]);

    let mut one = FlightCountNetwork::new(2);
    one.add_flight(0, 1);
    assert_eq!(total.try_add_network(one.clone()), Err(CountOverflow));
    assert_eq!(total.connections(), &vec![u32::MAX]);
    let mut empty = FlightCountNetwork::new(2);
    assert_eq!(empty.try_add_network(one), Ok(()));
    assert_eq!(empty.connections(), &vec![1]);
}

#[test]
fn each_pair_once_gives_all_ones() {
    for n in 2..8usize {
        let mut pairs = vec![];
        for i in 0..n {
            for j in (i + 1)..n {
                pairs.push((i, j));
            }
        }
        pairs.reverse();
        let mut network = FlightCountNetwork::new(n);
        assert_eq!(network.add_flights(&pairs), Ok(()));
        assert_eq!(network.connections(), &vec![1u32; n * (n - 1) / 2]);
    }
}

#[test]
fn merging_worker_networks_sums_them() {
    let flights = [(0, 1), (2, 3), (1, 0), (3, 3), (0, 3), (2, 1), (1, 0)];
    let mut whole = FlightCountNetwork::new(4);
    assert_eq!(whole.add_flights(&flights), Ok(()));
    let mut parts = vec![];
    for group in [&flights[4..], &flights[..1], &flights[1..4]] {
        let mut part = FlightCountNetwork::new(4);
        assert_eq!(part.add_flights(group), Ok(()));
        parts.push(part);
    }
    let merged = merge_networks(4, parts).unwrap();
    assert_eq!(merged.connections(), whole.connections());
    assert_eq!(merge_networks(4, vec![]).unwrap().connections(), &vec![0; 6]);

    let mut power = FlightCountNetwork::new(2);
    power.add_flight(0, 1);
    for _ in 0..31 {
        power.add_network(power.clone());
    }
    assert_eq!(merge_networks(2, vec![power.clone()]).unwrap().connections(), &vec![1u32 << 31]);
    assert_eq!(merge_networks(2, vec![power.clone(), power]).err(), Some(CountOverflow));
}
