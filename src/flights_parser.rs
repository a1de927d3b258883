//! Decoding of flight records from a stream of BER-framed octet strings.
//!
//! Each record is an octet string of (at least) 20 octets: two octets of
//! framing, the departure latitude and longitude, two octets of framing,
//! then the arrival latitude and longitude, each a 32-bit float in little
//! endian order.

use vstd::prelude::*;

verus! {

/// A flight, with its endpoints' coordinates as the bit patterns of their
/// latitude and longitude in degrees.
#[derive(Clone, Copy, Debug, PartialEq, Eq, Structural)]
pub struct Flight {
    pub from_lat_bits: u32,
    pub from_long_bits: u32,
    pub to_lat_bits: u32,
    pub to_long_bits: u32,
}

/// Reading one BER octet-string element at the front of `bytes`: `None` where
/// none can be read; otherwise the number of bytes that follow the element
/// and, where its content is a plain octet string, the octets.
pub uninterp spec fn ber_octet_string(bytes: Seq<u8>) -> Option<(nat, Option<Seq<u8>>)>;

/// Relies on `der_parser::ber::parse_ber_octetstring`, which reads one
/// octet-string element from the front of `bytes` and hands back the bytes
/// after it together with the element; what it reads depends on the bytes
/// alone.
#[verifier::external_body]
fn read_octet_string(bytes: &[u8]) -> (r: Option<(usize, Option<Vec<u8>>)>)
    ensures
        ber_octet_string(bytes@) == match r {
            None => None,
            Some((rest, content)) => Some(
                (
                    rest as nat,
                    match content {
                        None => None,
                        Some(c) => Some(c@),
                    },
                ),
            ),
        },
{
    match der_parser::ber::parse_ber_octetstring(bytes) {
        Ok((rest, ber)) => match ber.content {
            der_parser::ber::BerObjectContent::OctetString(octets) => Some(
                (rest.len(), Some(octets.to_vec())),
            ),
            _ => Some((rest.len(), None)),
        },
        Err(_) => None,
    }
}

/// The little-endian 32-bit value of the four octets of `c` from `at`.
pub open spec fn le_u32(c: Seq<u8>, at: int) -> u32 {
    (c[at] + c[at + 1] * 0x100 + c[at + 2] * 0x1_0000 + c[at + 3] * 0x100_0000) as u32
}

/// The flight that a record's octets encode.
pub open spec fn flight_of(c: Seq<u8>) -> Flight {
    Flight {
        from_lat_bits: le_u32(c, 2),
        from_long_bits: le_u32(c, 6),
        to_lat_bits: le_u32(c, 12),
        to_long_bits: le_u32(c, 16),
    }
}

/// The flight that an element's octets encode, if they hold a record of at
/// least 20 octets.
pub open spec fn record_flight(c: Seq<u8>) -> Option<Flight> {
    if c.len() >= 20 {
        Some(flight_of(c))
    } else {
        None
    }
}

/// The flights of a stream: records are read one after the other until no
/// byte is left. `None` when bytes are left that no element can be read
/// from, when an element reads no byte, or when an element is not a plain
/// octet string holding a record.
pub open spec fn decode_flights(bytes: Seq<u8>) -> Option<Seq<Flight>>
    decreases bytes.len(),
{
    if bytes.len() == 0 {
        Some(Seq::empty())
    } else {
        match ber_octet_string(bytes) {
            None => None,
            Some((rest, content)) => {
                if rest >= bytes.len() {
                    None
                } else {
                    match content {
                        None => None,
                        Some(c) => match record_flight(c) {
                            None => None,
                            Some(f) => match decode_flights(
                                bytes.subrange(bytes.len() - rest, bytes.len() as int),
                            ) {
                                None => None,
                                Some(tail) => Some(seq![f] + tail),
                            },
                        },
                    }
                }
            },
        }
    }
}

/// `found` followed by the flights of `tail`, if those decode.
pub open spec fn prepend(found: Seq<Flight>, tail: Option<Seq<Flight>>) -> Option<Seq<Flight>> {
    match tail {
        None => None,
        Some(t) => Some(found + t),
    }
}

fn read_le_u32(c: &Vec<u8>, at: usize) -> (r: u32)
    requires
        at <= 16,
        at + 4 <= c@.len(),
    ensures
        r == le_u32(c@, at as int),
{
    c[at] as u32 + (c[at + 1] as u32) * 0x100 + (c[at + 2] as u32) * 0x1_0000 + (c[at + 3] as u32)
        * 0x100_0000
}

fn ber_to_flight(octets: &Vec<u8>) -> (r: Flight)
    requires
        octets@.len() >= 20,
    ensures
        r == flight_of(octets@),
{
    Flight {
        from_lat_bits: read_le_u32(octets, 2),
        from_long_bits: read_le_u32(octets, 6),
        to_lat_bits: read_le_u32(octets, 12),
        to_long_bits: read_le_u32(octets, 16),
    }
}

/// The flight that the octets of one record encode, or `None` when they are
/// fewer than 20.
pub fn flight_from_octets(octets: &Vec<u8>) -> (r: Option<Flight>)
    ensures
        r == record_flight(octets@),
{
    if octets.len() >= 20 {
        Some(ber_to_flight(octets))
    } else {
        None
    }
}

/// Decoder of flight-record streams.
pub struct FlightsParser {}

impl FlightsParser {
    /// The flights encoded in `binary`, or `None` when a record in it is
    /// malformed.
    pub fn parse(binary: &[u8]) -> (r: Option<Vec<Flight>>)
        ensures
            r.is_some() <==> decode_flights(binary@).is_some(),
            r.is_some() ==> r.unwrap()@ == decode_flights(binary@).unwrap(),
    {
        let mut flights: Vec<Flight> = Vec::new();
        let mut pos: usize = 0;
        let len = binary.len();
        proof {
            assert(binary@.subrange(0, len as int) == binary@);
            match decode_flights(binary@) {
                None => {},
                Some(t) => {
                    assert(flights@ + t == t);
                },
            }
        }
        while pos < len
            invariant
                pos <= len,
                len == binary@.len(),
                decode_flights(binary@) == prepend(
                    flights@,
                    decode_flights(binary@.subrange(pos as int, len as int)),
                ),
            decreases len - pos,
        {
            let stream = vstd::slice::slice_subrange(binary, pos, len);
            let ghost here = binary@.subrange(pos as int, len as int);
            let (rest, content) = match read_octet_string(stream) {
                None => {
                    return None;
                },
                Some(read) => read,
            };
            if rest >= len - pos {
                return None;
            }
            let octets = match content {
                None => {
                    return None;
                },
                Some(octets) => octets,
            };
            let f = match flight_from_octets(&octets) {
                None => {
                    return None;
                },
                Some(f) => f,
            };
            let ghost next = here.subrange(here.len() - rest, here.len() as int);
            assert(next == binary@.subrange(len - rest, len as int));
            let ghost before = flights@;
            flights.push(f);
            proof {
                match decode_flights(next) {
                    None => {},
                    Some(t) => {
                        assert(before + (seq![f] + t) == flights@ + t);
                    },
                }
            }
            pos = len - rest;
        }
        proof {
            assert(binary@.subrange(len as int, len as int) == Seq::<u8>::empty());
            assert(flights@ + Seq::<Flight>::empty() == flights@);
        }
        Some(flights)
    }
}

} // verus!
