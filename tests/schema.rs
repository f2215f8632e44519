use thesislib::model::{CiphertextDistances, PlaintextDistances};
use thesislib::schema::{PlaintextCoordinate, PlaintextCoordinatesSchema};

fn request(ax: i32, ay: i32, bx: i32, by: i32) -> PlaintextCoordinatesSchema {
    PlaintextCoordinatesSchema {
        coordinate_a: PlaintextCoordinate { x: ax, y: ay },
        coordinate_b: PlaintextCoordinate { x: bx, y: by },
    }
}

#[test]
fn radicand_of_two_points() {
    assert_eq!(request(0, 0, 3, 4).radicand(), Some(25));
    assert_eq!(request(3, 4, 0, 0).radicand(), Some(25));
    assert_eq!(request(7, 7, 7, 7).radicand(), Some(0));
}

#[test]
fn radicand_rejects_negative_coordinates() {
    assert_eq!(request(-1, 0, 3, 4).radicand(), None);
    assert_eq!(request(0, 0, 3, -4).radicand(), None);
}

#[test]
fn radicand_rejects_overflow() {
    assert_eq!(request(0, 0, 46341, 0).radicand(), None);
    assert_eq!(request(0, 0, 46340, 0).radicand(), Some(46340 * 46340));
    assert_eq!(request(0, 0, i32::MAX, i32::MAX).radicand(), None);
}

#[test]
fn cache_rows() {
    let row = PlaintextDistances { id: Some(vec![25, 0, 0, 0]), distance: None };
    assert_eq!(row.id, Some(vec![25, 0, 0, 0]));
    assert_eq!(row.distance, None);
    let enc = CiphertextDistances { id: None, distance: Some(vec![1, 2]) };
    assert_eq!(enc.distance, Some(vec![1, 2]));
}
