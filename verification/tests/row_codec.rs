use sqlite_rs::constant::{EMAIL_SIZE, ROW_SIZE, USERNAME_SIZE};
use sqlite_rs::row::{deserialize_row, serialize_row, Row};

fn row(id: u32, username: &str, email: &str) -> Row {
    Row { id, username: username.as_bytes().to_vec(), email: email.as_bytes().to_vec() }
}

#[test]
fn serialize_row_layout() {
    let b = serialize_row(&row(1, "alice", "a@x"));
    assert_eq!(b.len(), ROW_SIZE);
    assert_eq!(&b[0..4], &[1, 0, 0, 0]);
    assert_eq!(&b[4..9], b"alice");
    assert_eq!(b[9], 0);
    assert_eq!(&b[36..39], b"a@x");
    assert_eq!(b[39], 0);
    assert_eq!(b[290], 0);
}

#[test]
fn round_trip_simple() {
    let r = row(7, "bob", "b@example.com");
    let b = serialize_row(&r);
    assert_eq!(deserialize_row(&b), r);
}

#[test]
fn round_trip_empty_strings() {
    let r = row(0, "", "");
    let b = serialize_row(&r);
    assert_eq!(deserialize_row(&b), r);
}

#[test]
fn round_trip_max_lengths() {
    let username = "u".repeat(USERNAME_SIZE - 1);
    let email = "e".repeat(EMAIL_SIZE - 1);
    let r = row(u32::MAX, &username, &email);
    let b = serialize_row(&r);
    assert_eq!(deserialize_row(&b), r);
}

#[test]
fn round_trip_id_boundaries() {
    for id in [0, 1, 255, 256, 65_536, u32::MAX - 1, u32::MAX] {
        let r = row(id, "x", "y");
        let b = serialize_row(&r);
        assert_eq!(deserialize_row(&b).id, id);
    }
}

#[test]
fn deserialize_trims_zero_padding() {
    let mut b = serialize_row(&row(3, "abc", "d@e"));
    // the username region is zero-padded past the string
    b[4 + 3] = 0;
    let r = deserialize_row(&b);
    assert_eq!(r.username, b"abc".to_vec());
    assert_eq!(r.email, b"d@e".to_vec());
}

#[test]
fn interior_zero_byte_survives() {
    let r = Row { id: 9, username: vec![97, 0, 98], email: vec![99] };
    let b = serialize_row(&r);
    assert_eq!(deserialize_row(&b), r);
}
