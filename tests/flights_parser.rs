use hub_finder::flights_parser::{flight_from_octets, Flight, FlightsParser};

fn record(from: (f32, f32), to: (f32, f32)) -> Vec<u8> {
    let mut r = vec![0x04, 20, 4, 8];
    r.extend_from_slice(&from.0.to_le_bytes());
    r.extend_from_slice(&from.1.to_le_bytes());
    r.extend_from_slice(&[4, 8]);
    r.extend_from_slice(&to.0.to_le_bytes());
    r.extend_from_slice(&to.1.to_le_bytes());
    r
}

#[test]
fn records_decode_in_order() {
    let mut bytes = record((57.6717, 11.9810), (40.730610, -73.935242));
    bytes.extend(record((-33.865143, 151.209900), (59.36004, 18.00086)));
    let flights = FlightsParser::parse(&bytes).unwrap();
    assert_eq!(
        flights,
        vec![
            Flight {
                from_lat_bits: 57.6717_f32.to_bits(),
                from_long_bits: 11.9810_f32.to_bits(),
                to_lat_bits: 40.730610_f32.to_bits(),
                to_long_bits: (-73.935242_f32).to_bits(),
            },
            Flight {
                from_lat_bits: (-33.865143_f32).to_bits(),
                from_long_bits: 151.209900_f32.to_bits(),
                to_lat_bits: 59.36004_f32.to_bits(),
                to_long_bits: 18.00086_f32.to_bits(),
            },
        ]
    );
}

#[test]
fn bytes_are_little_endian() {
    let mut bytes = vec![0x04, 20, 4, 8, 1, 2, 3, 4, 5, 6, 7, 8, 4, 8];
    bytes.extend_from_slice(&[9, 10, 11, 12, 13, 14, 15, 16]);
    let flights = FlightsParser::parse(&bytes).unwrap();
    assert_eq!(
        flights,
        vec![Flight {
            from_lat_bits: 0x04030201,
            from_long_bits: 0x08070605,
            to_lat_bits: 0x0c0b0a09,
            to_long_bits: 0x100f0e0d,
        }]
    );
}

#[test]
fn unreadable_tail_is_malformed() {
    let mut bytes = record((1.0, 2.0), (3.0, 4.0));
    bytes.extend_from_slice(&[0x02, 0x01, 0x05]);
    assert_eq!(FlightsParser::parse(&bytes), None);
    // A record cut short.
    let mut cut = record((1.0, 2.0), (3.0, 4.0));
    cut.extend_from_slice(&record((5.0, 6.0), (7.0, 8.0))[..10]);
    assert_eq!(FlightsParser::parse(&cut), None);
    assert_eq!(FlightsParser::parse(&[]), Some(vec![]));
}

#[test]
fn octets_of_one_record_decode() {
    let mut octets = vec![4, 8, 1, 0, 0, 0, 2, 0, 0, 0, 4, 8, 3, 0, 0, 0, 0, 0, 0, 0x80];
    assert_eq!(
        flight_from_octets(&octets),
        Some(Flight { from_lat_bits: 1, from_long_bits: 2, to_lat_bits: 3, to_long_bits: 0x8000_0000 })
    );
    octets.pop();
    assert_eq!(flight_from_octets(&octets), None);
}

#[test]
fn short_record_is_malformed() {
    let mut bytes = record((1.0, 2.0), (3.0, 4.0));
    bytes.extend_from_slice(&[0x04, 3, 4, 8, 0]);
    assert_eq!(FlightsParser::parse(&bytes), None);
}
