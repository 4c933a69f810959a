use peermaps_ingest::encoder::{
    decode, encode_node, encode_relation, encode_way, id_key, Decoded, DecodedNode,
    DecodedRelation, DecodedWay, ID_PREFIX,
};
use peermaps_ingest::error::{IngestError, IngestErrorKind};
use peermaps_ingest::varint::{self, VarintError};

#[test]
fn encoder() {
    let (key, value) = encode_node(1312, 13.0f32.to_bits(), 37.0f32.to_bits(), 712, &[0]);
    let decoded = decode(&key, &value).unwrap();
    assert_eq!(
        decoded,
        Decoded::Node(DecodedNode {
            id: 1312,
            feature_type: 712,
            lon_bits: 13.0f32.to_bits(),
            lat_bits: 37.0f32.to_bits(),
            labels: vec![0],
        })
    );

    let (key, value) = encode_way(555, 47, false, &vec![600, 601, 602], &[0]);
    let decoded = decode(&key, &value).unwrap();
    assert_eq!(
        decoded,
        Decoded::Way(DecodedWay {
            id: 555,
            feature_type: 47,
            refs: vec![600, 601, 602],
            labels: vec![0],
            is_area: false,
        })
    );

    let labels: Vec<u8> = "\x0e=lake whatever\x05x=...\x00".into();
    let (key, value) =
        encode_relation(700, 644, false, &vec![701 * 2 + 0, 702 * 2 + 1, 703 * 2 + 0], &labels);
    let decoded = decode(&key, &value).unwrap();
    assert_eq!(
        decoded,
        Decoded::Relation(DecodedRelation {
            id: 700,
            feature_type: 644,
            members: vec![701 * 2 + 0, 702 * 2 + 1, 703 * 2 + 0],
            labels: "\x0e=lake whatever\x05x=...\x00".into(),
            is_area: false,
        })
    );
}

#[test]
fn node_value_layout() {
    let (key, value) = encode_node(1312, 0x4150_0000, 0x4214_0000, 47, &[9, 8]);
    assert_eq!(key, vec![ID_PREFIX, 0xe0, 0x1e]);
    assert_eq!(value, vec![0x41, 0x50, 0, 0, 0x42, 0x14, 0, 0, 47, 9, 8]);
}

#[test]
fn area_flag_round_trip() {
    let (key, value) = encode_way(555, 47, true, &vec![600, 601, 602, 600], &[0]);
    assert_eq!(value[0], 95);
    match decode(&key, &value).unwrap() {
        Decoded::Way(w) => {
            assert!(w.is_area);
            assert_eq!(w.feature_type, 47);
            assert_eq!(w.refs, vec![600, 601, 602, 600]);
        }
        _ => panic!("expected a way"),
    }
}

#[test]
fn id_key_layout() {
    let key = id_key(1666).unwrap();
    assert_eq!(key, vec![0, 0x82, 0x0d]);
}

#[test]
fn decode_rejects_other_prefix() {
    let r = decode(&[5, 1], &[0; 9]);
    assert_eq!(r, Err(IngestError { kind: IngestErrorKind::NonIdKey { prefix: 5 } }));
}

#[test]
fn decode_rejects_empty_key() {
    let r = decode(&[], &[]);
    assert_eq!(r, Err(IngestError { kind: IngestErrorKind::TruncatedInput }));
}

#[test]
fn decode_rejects_short_node_value() {
    let key = id_key(3).unwrap();
    let r = decode(&key, &[1, 2, 3]);
    assert_eq!(r, Err(IngestError { kind: IngestErrorKind::TruncatedInput }));
}

#[test]
fn decode_rejects_truncated_refs() {
    let key = id_key(4).unwrap();
    let r = decode(&key, &[2, 3, 1]);
    assert_eq!(r, Err(IngestError { kind: IngestErrorKind::TruncatedInput }));
}

#[test]
fn raise_gives_error() {
    let r: Result<u8, IngestError> = IngestErrorKind::NonIdKey { prefix: 7 }.raise();
    assert_eq!(r, Err(IngestError { kind: IngestErrorKind::NonIdKey { prefix: 7 } }));
    assert_eq!(
        IngestError::from_varint(VarintError::VarintOverflow).kind(),
        IngestErrorKind::VarintOverflow
    );
}

#[test]
fn varint_values() {
    assert_eq!(varint::encode(0), vec![0]);
    assert_eq!(varint::encode(127), vec![127]);
    assert_eq!(varint::encode(300), vec![0xac, 0x02]);
    assert_eq!(varint::length(300), 2);
    assert_eq!(varint::length(u64::MAX), 10);
    assert_eq!(varint::decode(&[0xac, 0x02, 0x99]), Ok((2, 300)));
    let max = varint::encode(u64::MAX);
    assert_eq!(varint::decode(&max), Ok((10, u64::MAX)));
}

#[test]
fn varint_truncated() {
    assert_eq!(varint::decode(&[]), Err(VarintError::TruncatedInput));
    assert_eq!(varint::decode(&[0x80, 0x80]), Err(VarintError::TruncatedInput));
}

#[test]
fn varint_overflow() {
    let too_big = [0xff, 0xff, 0xff, 0xff, 0xff, 0xff, 0xff, 0xff, 0xff, 0x02];
    assert_eq!(varint::decode(&too_big), Err(VarintError::VarintOverflow));
    let too_long = [0x80; 11];
    assert_eq!(varint::decode(&too_long), Err(VarintError::VarintOverflow));
}

#[test]
fn decode_rejects_overflowing_key() {
    let key = [0, 0xff, 0xff, 0xff, 0xff, 0xff, 0xff, 0xff, 0xff, 0xff, 0x02];
    let r = decode(&key, &[]);
    assert_eq!(r, Err(IngestError { kind: IngestErrorKind::VarintOverflow }));
}
