//! Airports and the exact-coordinate airport lookup.
//!
//! Coordinates are held as the IEEE-754 bit patterns of their 32-bit floating
//! point degrees, so that two coordinates are the same exactly when their
//! bits are.

use vstd::prelude::*;
use std::collections::HashMap;

verus! {

broadcast use vstd::std_specs::hash::group_hash_axioms;

/// An airport, with its position as the bit patterns of latitude and
/// longitude in degrees.
pub struct Airport {
    pub name: String,
    pub abr: String,
    pub lat_bits: u32,
    pub long_bits: u32,
    pub id: usize,
}

/// Why an exact-coordinate lookup could not be built.
#[derive(Debug, PartialEq, Eq, Structural)]
pub enum FinderError {
    /// No airport was given.
    NoAirports,
    /// Two airports have the same coordinates.
    SharedCoordinates,
}

/// Key of a coordinate pair: the latitude's bits in the low half, the
/// longitude's in the high half.
pub open spec fn bucket_of(lat_bits: u32, long_bits: u32) -> u64 {
    (lat_bits + long_bits * 0x1_0000_0000) as u64
}

/// Key of the coordinates of airport `a`.
pub open spec fn airport_bucket(a: Airport) -> u64 {
    bucket_of(a.lat_bits, a.long_bits)
}

/// Whether two of the airports have the same coordinates.
pub open spec fn shares_coordinates(airports: Seq<Airport>) -> bool {
    exists|i: int, j: int|
        0 <= i < j < airports.len() && #[trigger] airport_bucket(airports[i])
            == #[trigger] airport_bucket(airports[j])
}

fn bucket_coord(lat_bits: u32, long_bits: u32) -> (r: u64)
    ensures
        r == bucket_of(lat_bits, long_bits),
        r as int == lat_bits + long_bits * 0x1_0000_0000,
{
    lat_bits as u64 + (long_bits as u64) * 0x1_0000_0000
}

/// Lookup of airports by their exact coordinates. It finds an airport only
/// for coordinates bit-identical to that airport's: use it only where every
/// queried coordinate is one of the airports' own.
pub struct HashAirportFinder {
    map: HashMap<u64, usize>,
}

impl HashAirportFinder {
    /// Index of the airport found under each coordinate key.
    pub closed spec fn lookup(&self) -> Map<u64, usize> {
        self.map@
    }

    /// A lookup over `airports`, each found by its coordinates under its
    /// position in the sequence.
    pub fn new(airports: &Vec<Airport>) -> (r: Result<Self, FinderError>)
        ensures
            airports@.len() == 0 <==> r == Err::<Self, FinderError>(FinderError::NoAirports),
            r == Err::<Self, FinderError>(FinderError::SharedCoordinates) <==> airports@.len() > 0
                && shares_coordinates(airports@),
            r.is_ok() ==> {
                let m = r.unwrap().lookup();
                &&& forall|i: int|
                    0 <= i < airports@.len() ==> #[trigger] m.contains_key(
                        airport_bucket(airports@[i]),
                    ) && m[airport_bucket(airports@[i])] == i
                &&& forall|key: u64|
                    #[trigger] m.contains_key(key) ==> exists|i: int|
                        0 <= i < airports@.len() && #[trigger] airport_bucket(airports@[i])
                            == key
            },
    {
        if airports.len() == 0 {
            return Err(FinderError::NoAirports);
        }
        let mut map: HashMap<u64, usize> = HashMap::new();
        let mut i: usize = 0;
        while i < airports.len()
            invariant
                i <= airports@.len(),
                forall|t: int|
                    0 <= t < i ==> #[trigger] map@.contains_key(airport_bucket(airports@[t]))
                        && map@[airport_bucket(airports@[t])] == t,
                forall|key: u64|
                    #[trigger] map@.contains_key(key) ==> exists|t: int|
                        0 <= t < i && #[trigger] airport_bucket(airports@[t]) == key,
                forall|a: int, b: int|
                    0 <= a < b < i ==> #[trigger] airport_bucket(airports@[a])
                        != #[trigger] airport_bucket(airports@[b]),
            decreases airports@.len() - i,
        {
            let key = bucket_coord(airports[i].lat_bits, airports[i].long_bits);
            let ghost old_map = map@;
            let res = map.insert(key, i);
            if res.is_some() {
                proof {
                    let t = choose|t: int|
                        0 <= t < i && #[trigger] airport_bucket(airports@[t]) == key;
                    assert(airport_bucket(airports@[t]) == airport_bucket(airports@[i as int]));
                }
                return Err(FinderError::SharedCoordinates);
            }
            proof {
                assert forall|t: int| 0 <= t < i + 1 implies #[trigger] map@.contains_key(
                    airport_bucket(airports@[t]),
                ) && map@[airport_bucket(airports@[t])] == t by {
                    if t < i {
                        assert(old_map.contains_key(airport_bucket(airports@[t])));
                    }
                }
                assert forall|key2: u64| #[trigger] map@.contains_key(key2) implies exists|t: int|
                    0 <= t < i + 1 && #[trigger] airport_bucket(airports@[t]) == key2 by {
                    if key2 != key {
                        let t = choose|t: int|
                            0 <= t < i && #[trigger] airport_bucket(airports@[t]) == key2;
                        assert(0 <= t < i + 1 && airport_bucket(airports@[t]) == key2);
                    } else {
                        assert(airport_bucket(airports@[i as int]) == key2);
                    }
                }
                assert forall|a: int, b: int| 0 <= a < b < i + 1 implies #[trigger] airport_bucket(
                    airports@[a],
                ) != #[trigger] airport_bucket(airports@[b]) by {
                    if b == i {
                        assert(map@.contains_key(airport_bucket(airports@[a])) || a >= i);
                    }
                }
            }
            i = i + 1;
        }
        proof {
            if shares_coordinates(airports@) {
                let (a, b) = choose|a: int, b: int|
                    0 <= a < b < airports@.len() && #[trigger] airport_bucket(airports@[a])
                        == #[trigger] airport_bucket(airports@[b]);
                assert(airport_bucket(airports@[a]) != airport_bucket(airports@[b]));
            }
        }
        Ok(HashAirportFinder { map })
    }

    /// Index of the airport whose coordinates are exactly the given ones, or
    /// `None` when no airport has them.
    pub fn closest_ind(&self, lat_bits: u32, long_bits: u32) -> (r: Option<usize>)
        ensures
            r == (if self.lookup().contains_key(bucket_of(lat_bits, long_bits)) {
                Some(self.lookup()[bucket_of(lat_bits, long_bits)])
            } else {
                None
            }),
    {
        let key = bucket_coord(lat_bits, long_bits);
        match self.map.get(&key) {
            Some(v) => Some(*v),
            None => None,
        }
    }
}

} // verus!
