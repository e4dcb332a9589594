use lib_ot::attributes::{Attribute, Attributes};
use lib_ot::builder::DeltaBuilder;
use lib_ot::checksum::checksum_of_text;
use lib_ot::codec::{decode_delta, decode_revision, encode_delta, encode_revision};
use lib_ot::session::Revision;

fn formatted() -> Attributes {
    let mut a = Attributes::new();
    a.set(Attribute { key: "bold".to_string(), value: Some("true".to_string()) });
    a.set(Attribute { key: "colör".to_string(), value: None });
    a
}

#[test]
fn delta_round_trip() {
    let d = DeltaBuilder::new()
        .retain_with_attributes(3, formatted())
        .insert("héllo 😀")
        .delete(2)
        .retain(4)
        .build();
    let w = encode_delta(&d);
    assert_eq!(decode_delta(&w), Some(d));
}

#[test]
fn empty_delta_round_trip() {
    let d = DeltaBuilder::new().build();
    let w = encode_delta(&d);
    assert_eq!(w, vec![0]);
    assert_eq!(decode_delta(&w), Some(d));
}

#[test]
fn delta_encoding_layout() {
    let d = DeltaBuilder::new().delete(7).insert("a").build();
    assert_eq!(encode_delta(&d), vec![2, 0, 7, 2, 1, 97, 0]);
}

#[test]
fn revision_round_trip() {
    let rev = Revision {
        base_revision: 12,
        delta: DeltaBuilder::new().insert_with_attributes("x", formatted()).build(),
        md5: checksum_of_text("x"),
    };
    let w = encode_revision(&rev);
    let back = decode_revision(&w).unwrap();
    assert_eq!(back.base_revision, 12);
    assert_eq!(back.md5, rev.md5);
    assert_eq!(back.delta, rev.delta);
}

#[test]
fn decode_rejects_truncated_and_trailing_input() {
    let d = DeltaBuilder::new().insert("abc").build();
    let mut w = encode_delta(&d);
    w.push(9);
    assert_eq!(decode_delta(&w), None);
    w.truncate(3);
    assert_eq!(decode_delta(&w), None);
    assert_eq!(decode_delta(&vec![]), None);
}

#[test]
fn decode_rejects_surrogate_code() {
    assert_eq!(decode_delta(&vec![1, 2, 1, 0xD800, 0]), None);
}

#[test]
fn decode_rejects_non_canonical_delta() {
    assert_eq!(decode_delta(&vec![2, 0, 1, 0, 2]), None);
    assert_eq!(decode_delta(&vec![1, 0, 0]), None);
    assert_eq!(decode_delta(&vec![1, 7, 1]), None);
}
