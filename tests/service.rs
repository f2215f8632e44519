use sha2::Digest;
use thesislib::schema::{PlaintextCoordinate, PlaintextCoordinatesSchema};
use thesislib::service::{
    cached_reply, decode_coordinates, distance_reply, prepare_request,
    EncodedCoordinate, EncodedCoordinatesSchema, ServiceError,
};

fn body(ax: i32, ay: i32, bx: i32, by: i32) -> EncodedCoordinatesSchema {
    EncodedCoordinatesSchema {
        coordinate_a: EncodedCoordinate {
            x: bincode::serialize(&ax).unwrap(),
            y: bincode::serialize(&ay).unwrap(),
        },
        coordinate_b: EncodedCoordinate {
            x: bincode::serialize(&bx).unwrap(),
            y: bincode::serialize(&by).unwrap(),
        },
    }
}

#[test]
fn decodes_little_endian_coordinates() {
    let b = EncodedCoordinatesSchema {
        coordinate_a: EncodedCoordinate { x: vec![3, 0, 0, 0], y: vec![0, 1, 0, 0, 99] },
        coordinate_b: EncodedCoordinate { x: vec![0xFF, 0xFF, 0xFF, 0xFF], y: vec![0, 0, 0, 0x80] },
    };
    let p = decode_coordinates(&b).unwrap();
    assert_eq!(
        p,
        PlaintextCoordinatesSchema {
            coordinate_a: PlaintextCoordinate { x: 3, y: 256 },
            coordinate_b: PlaintextCoordinate { x: -1, y: i32::MIN },
        }
    );
}

#[test]
fn short_coordinate_fails_to_decode() {
    let mut b = body(0, 0, 3, 4);
    b.coordinate_b.y = vec![4, 0, 0];
    assert_eq!(decode_coordinates(&b), Err(ServiceError::Decoding));
    assert!(matches!(prepare_request(&b), Err(ServiceError::Decoding)));
}

#[test]
fn prepares_radicand_and_key() {
    let req = prepare_request(&body(0, 0, 3, 4)).unwrap();
    assert_eq!(req.radicand, 25);
    assert_eq!(req.key, vec![25, 0, 0, 0]);
    assert_eq!(req.key, bincode::serialize(&25i32).unwrap());
    let req = prepare_request(&body(10, 1000, 0, 0)).unwrap();
    assert_eq!(req.radicand, 1_000_100);
    assert_eq!(req.key, 1_000_100i32.to_le_bytes().to_vec());
}

#[test]
fn negative_coordinates_are_accepted() {
    let req = prepare_request(&body(-1, 0, 2, 4)).unwrap();
    assert_eq!(req.radicand, 25);
    assert_eq!(req.key, bincode::serialize(&25i32).unwrap());
    let req = prepare_request(&body(-30000, -1, 10000, 0)).unwrap();
    assert_eq!(req.radicand, 1_600_000_001);
}

#[test]
fn oversized_distance_is_rejected() {
    assert!(matches!(
        prepare_request(&body(0, 0, 50000, 0)),
        Err(ServiceError::InvalidCoordinates)
    ));
    assert!(matches!(
        prepare_request(&body(i32::MIN, 0, i32::MAX, 0)),
        Err(ServiceError::InvalidCoordinates)
    ));
}

#[test]
fn wide_radicand_is_prepared() {
    let req = prepare_request(&body(0, 0, 5000, 0)).unwrap();
    assert_eq!(req.radicand, 25_000_000);
}

#[test]
fn reply_for_a_new_distance() {
    let bits = f32::sqrt(5.0f32).to_bits();
    assert_eq!(bits, 0x400F_1BBD);
    let reply = distance_reply(bits);
    assert_eq!(reply.distance, vec![0xBD, 0x1B, 0x0F, 0x40]);
    assert_eq!(reply.distance, bincode::serialize(&f32::sqrt(5.0f32)).unwrap());
    assert_eq!(reply.digest, sha2::Sha256::digest(&reply.distance).to_vec());
    assert_eq!(reply.digest.len(), 32);
}

#[test]
fn reply_for_a_cached_distance() {
    let reply = cached_reply(b"abc".to_vec());
    assert_eq!(reply.distance, b"abc".to_vec());
    assert_eq!(
        reply.digest,
        vec![
            0xba, 0x78, 0x16, 0xbf, 0x8f, 0x01, 0xcf, 0xea, 0x41, 0x41, 0x40, 0xde, 0x5d, 0xae,
            0x22, 0x23, 0xb0, 0x03, 0x61, 0xa3, 0x96, 0x17, 0x7a, 0x9c, 0xb4, 0x10, 0xff, 0x61,
            0xf2, 0x00, 0x15, 0xad
        ]
    );
}
