use hub_finder::airports::{Airport, FinderError, HashAirportFinder};

fn airport(name: &str, lat: f32, long: f32, id: usize) -> Airport {
    Airport {
        name: name.to_owned(),
        abr: name[..2].to_owned(),
        lat_bits: lat.to_bits(),
        long_bits: long.to_bits(),
        id,
    }
}

fn sample() -> Vec<Airport> {
    vec![
        airport("Stockholm", 59.3294, 18.0686, 0),
        airport("New York", 40.641766, -73.780968, 1),
        airport("Australia", -23.8067, 133.9017, 2),
    ]
}

// Brute-force nearest airport by distance between points on the unit sphere.
fn nearest_by_scan(airports: &[Airport], lat: f32, long: f32) -> usize {
    let point = |la: f32, lo: f32| {
        let (la, lo) = (la.to_radians(), lo.to_radians());
        [lo.cos() * la.sin(), lo.sin() * la.sin(), la.cos()]
    };
    let p = point(lat, long);
    let mut best = (f32::MAX, 0);
    for (i, a) in airports.iter().enumerate() {
        let q = point(f32::from_bits(a.lat_bits), f32::from_bits(a.long_bits));
        let d: f32 = (0..3).map(|k| (p[k] - q[k]) * (p[k] - q[k])).sum();
        if d < best.0 {
            best = (d, i);
        }
    }
    best.1
}

#[test]
fn exact_coordinates_find_their_airport() {
    let airports = sample();
    let finder = HashAirportFinder::new(&airports).unwrap();
    for (i, a) in airports.iter().enumerate() {
        assert_eq!(finder.closest_ind(a.lat_bits, a.long_bits), Some(i));
        let lat = f32::from_bits(a.lat_bits);
        let long = f32::from_bits(a.long_bits);
        assert_eq!(nearest_by_scan(&airports, lat, long), i);
    }
}

#[test]
fn other_coordinates_are_not_found() {
    let finder = HashAirportFinder::new(&sample()).unwrap();
    assert_eq!(finder.closest_ind(59.3295_f32.to_bits(), 18.0686_f32.to_bits()), None);
    // Latitude and longitude swapped.
    assert_eq!(finder.closest_ind(18.0686_f32.to_bits(), 59.3294_f32.to_bits()), None);
}

#[test]
fn empty_airport_set_is_refused() {
    assert!(matches!(HashAirportFinder::new(&vec![]), Err(FinderError::NoAirports)));
}

#[test]
fn shared_coordinates_are_refused() {
    let mut airports = sample();
    airports.push(airport("Arlanda", 59.3294, 18.0686, 3));
    assert!(matches!(HashAirportFinder::new(&airports), Err(FinderError::SharedCoordinates)));
}
