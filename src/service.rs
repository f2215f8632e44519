use vstd::prelude::*;
use crate::schema::{lemma_squared_distance_non_negative, squared_distance, PlaintextCoordinate, PlaintextCoordinatesSchema};

verus! {

#[verifier::external_type_specification]
#[verifier::external_body]
pub struct ExBincodeErrorKind(bincode::ErrorKind);

/// The unsigned integer held little-endian in the first four bytes of `b`.
pub open spec fn le_word(b: Seq<u8>) -> int {
    b[0] + 0x100 * b[1] + 0x1_0000 * b[2] + 0x100_0000 * b[3]
}

/// The four little-endian bytes of `v`.
pub open spec fn le_bytes(v: u32) -> Seq<u8> {
    seq![
        (v % 0x100) as u8,
        ((v / 0x100) % 0x100) as u8,
        ((v / 0x1_0000) % 0x100) as u8,
        (v / 0x100_0000) as u8,
    ]
}

/// The two's-complement reading of a 32-bit word.
pub open spec fn signed_word(w: int) -> int {
    if w < 0x8000_0000 {
        w
    } else {
        w - 0x1_0000_0000
    }
}

/// The SHA-256 digest of a byte string.
pub uninterp spec fn sha256_of(data: Seq<u8>) -> Seq<u8>;

/// Relies on `bincode::deserialize::<i32>` (fixed-width, little-endian,
/// trailing bytes allowed): it reads the first four bytes as a `u32` and casts
/// it, and fails exactly when fewer than four bytes are there.
#[verifier::external_body]
fn decode_i32(bytes: &Vec<u8>) -> (r: Result<i32, Box<bincode::ErrorKind>>)
    ensures
        r is Ok <==> bytes@.len() >= 4,
        r matches Ok(v) ==> v == signed_word(le_word(bytes@)),
{
    bincode::deserialize::<i32>(bytes.as_slice())
}

/// Relies on `bincode::serialize::<u32>` (fixed-width, little-endian, no
/// size limit, written into a `Vec`): it succeeds, with the four
/// little-endian bytes of `v`.
#[verifier::external_body]
fn encode_u32(v: u32) -> (r: Result<Vec<u8>, Box<bincode::ErrorKind>>)
    ensures
        r is Ok,
        r matches Ok(b) ==> b@ == le_bytes(v),
{
    bincode::serialize(&v)
}

/// Relies on `sha2::Sha256::digest`: the 32-byte SHA-256 digest of `data`.
#[verifier::external_body]
fn sha256(data: &Vec<u8>) -> (r: Vec<u8>)
    ensures
        r@ == sha256_of(data@),
        r@.len() == 32,
{
    <sha2::Sha256 as sha2::Digest>::digest(data.as_slice()).to_vec()
}

/// Why a distance request was turned down.
#[derive(Debug, Clone, Copy, PartialEq, Eq, Structural)]
pub enum ServiceError {
    /// A coordinate was not four bytes long or more.
    Decoding,
    /// The squared distance does not fit in an `i32`.
    InvalidCoordinates,
}

/// A coordinate as a client sends it: each value a serialised `i32`.
#[derive(Debug, PartialEq, Eq)]
pub struct EncodedCoordinate {
    pub x: Vec<u8>,
    pub y: Vec<u8>,
}

/// The two serialised points of a distance request.
#[derive(Debug, PartialEq, Eq)]
pub struct EncodedCoordinatesSchema {
    pub coordinate_a: EncodedCoordinate,
    pub coordinate_b: EncodedCoordinate,
}

/// A distance request read and checked: the squared distance and the key
/// under which its root is cached.
pub struct PreparedRequest {
    pub radicand: i32,
    pub key: Vec<u8>,
}

/// A distance as the service returns it: the serialised single-precision
/// distance and its SHA-256 digest.
pub struct DistanceReply {
    pub distance: Vec<u8>,
    pub digest: Vec<u8>,
}

impl EncodedCoordinatesSchema {
    /// Every one of the four values is at least four bytes long.
    pub open spec fn complete(&self) -> bool {
        &&& self.coordinate_a.x@.len() >= 4
        &&& self.coordinate_a.y@.len() >= 4
        &&& self.coordinate_b.x@.len() >= 4
        &&& self.coordinate_b.y@.len() >= 4
    }

    /// The points that the four values stand for.
    pub open spec fn points(&self) -> PlaintextCoordinatesSchema {
        PlaintextCoordinatesSchema {
            coordinate_a: PlaintextCoordinate {
                x: signed_word(le_word(self.coordinate_a.x@)) as i32,
                y: signed_word(le_word(self.coordinate_a.y@)) as i32,
            },
            coordinate_b: PlaintextCoordinate {
                x: signed_word(le_word(self.coordinate_b.x@)) as i32,
                y: signed_word(le_word(self.coordinate_b.y@)) as i32,
            },
        }
    }
}

/// Reads the four serialised coordinates.
pub fn decode_coordinates(body: &EncodedCoordinatesSchema) -> (r: Result<
    PlaintextCoordinatesSchema,
    ServiceError,
>)
    ensures
        r is Ok <==> body.complete(),
        !body.complete() ==> r == Err::<PlaintextCoordinatesSchema, ServiceError>(
            ServiceError::Decoding,
        ),
        r matches Ok(p) ==> p == body.points(),
{
    let ax: i32 = match decode_i32(&body.coordinate_a.x) {
        Ok(v) => v,
        Err(_) => return Err(ServiceError::Decoding),
    };
    let ay: i32 = match decode_i32(&body.coordinate_a.y) {
        Ok(v) => v,
        Err(_) => return Err(ServiceError::Decoding),
    };
    let bx: i32 = match decode_i32(&body.coordinate_b.x) {
        Ok(v) => v,
        Err(_) => return Err(ServiceError::Decoding),
    };
    let by: i32 = match decode_i32(&body.coordinate_b.y) {
        Ok(v) => v,
        Err(_) => return Err(ServiceError::Decoding),
    };
    Ok(
        PlaintextCoordinatesSchema {
            coordinate_a: PlaintextCoordinate { x: ax, y: ay },
            coordinate_b: PlaintextCoordinate { x: bx, y: by },
        },
    )
}

/// The four little-endian bytes of `v`, as the service serialises a
/// 32-bit word.
fn serialize_word(v: u32) -> (r: Vec<u8>)
    ensures
        r@ == le_bytes(v),
{
    match encode_u32(v) {
        Ok(b) => b,
        Err(_) => Vec::new(),
    }
}

/// Reads a distance request: decodes the points, computes their squared
/// distance and serialises it as the cache key.
pub fn prepare_request(body: &EncodedCoordinatesSchema) -> (r: Result<PreparedRequest, ServiceError>)
    ensures
        !body.complete() ==> r matches Err(ServiceError::Decoding),
        body.complete() && squared_distance(body.points().coordinate_a, body.points().coordinate_b)
            > i32::MAX ==> r matches Err(ServiceError::InvalidCoordinates),
        body.complete() && squared_distance(body.points().coordinate_a, body.points().coordinate_b)
            <= i32::MAX ==> r is Ok,
        r matches Ok(req) ==> {
            &&& req.radicand == squared_distance(body.points().coordinate_a, body.points().coordinate_b)
            &&& req.key@ == le_bytes(req.radicand as u32)
        },
{
    let points: PlaintextCoordinatesSchema = match decode_coordinates(body) {
        Ok(p) => p,
        Err(e) => return Err(e),
    };
    let radicand: i32 = match points.distance_squared() {
        Some(v) => v,
        None => return Err(ServiceError::InvalidCoordinates),
    };
    proof {
        lemma_squared_distance_non_negative(points.coordinate_a, points.coordinate_b);
    }
    let key: Vec<u8> = serialize_word(radicand as u32);
    Ok(PreparedRequest { radicand, key })
}

/// The reply for a newly computed distance, given the bits of its
/// single-precision value: the serialised distance and its digest.
pub fn distance_reply(bits: u32) -> (r: DistanceReply)
    ensures
        r.distance@ == le_bytes(bits),
        r.digest@ == sha256_of(r.distance@),
{
    let distance: Vec<u8> = serialize_word(bits);
    let digest: Vec<u8> = sha256(&distance);
    DistanceReply { distance, digest }
}

/// The reply for a distance found in the cache: the stored bytes and their
/// digest.
pub fn cached_reply(distance: Vec<u8>) -> (r: DistanceReply)
    ensures
        r.distance@ == distance@,
        r.digest@ == sha256_of(distance@),
{
    let digest: Vec<u8> = sha256(&distance);
    DistanceReply { distance, digest }
}

} // verus!
