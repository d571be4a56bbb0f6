use mockchain_legacy::bytes::ReadError;
use mockchain_legacy::legacy::UtxoDeclaration;
use mockchain_legacy::value::Value;

fn sample() -> UtxoDeclaration {
    UtxoDeclaration {
        addrs: vec![
            (vec![0xaa, 0xbb, 0xcc], Value(0x0102030405060708)),
            (vec![], Value(7)),
        ],
    }
}

fn sample_bytes() -> Vec<u8> {
    vec![
        2, // count
        1, 2, 3, 4, 5, 6, 7, 8, // value
        0, 3, // address length
        0xaa, 0xbb, 0xcc, // address
        0, 0, 0, 0, 0, 0, 0, 7, // value
        0, 0, // address length
    ]
}

#[test]
fn encodes_to_exact_bytes() {
    assert_eq!(sample().serialize(), sample_bytes());
}

#[test]
fn decodes_exact_bytes() {
    let bytes = sample_bytes();
    assert_eq!(
        UtxoDeclaration::read(&bytes, 0),
        Ok((sample(), bytes.len()))
    );
}

#[test]
fn round_trip_keeps_declaration() {
    let d = UtxoDeclaration {
        addrs: vec![
            (vec![0x82, 0xd8, 0x18, 0x58], Value(u64::MAX)),
            (vec![1u8; 300], Value(0)),
            (vec![5, 1], Value(1_000_000)),
        ],
    };
    let bytes = d.serialize();
    assert_eq!(UtxoDeclaration::read(&bytes, 0), Ok((d, bytes.len())));
}

#[test]
fn round_trip_largest_count_and_address() {
    let mut addrs = Vec::new();
    for i in 0..254u64 {
        addrs.push((vec![i as u8, 1u8], Value(i * 1000)));
    }
    addrs[0].0 = vec![0x5a; 65535];
    let d = UtxoDeclaration { addrs };
    let bytes = d.serialize();
    assert_eq!(bytes[0], 254);
    assert_eq!(&bytes[9..11], &[0xff, 0xff]);
    assert_eq!(UtxoDeclaration::read(&bytes, 0), Ok((d, bytes.len())));
}

#[test]
fn count_255_is_invalid() {
    assert_eq!(
        UtxoDeclaration::read(&[0xff], 0),
        Err(ReadError::StructureInvalid)
    );
    let mut bytes = sample_bytes();
    bytes[0] = 0xff;
    assert_eq!(
        UtxoDeclaration::read(&bytes, 0),
        Err(ReadError::StructureInvalid)
    );
}

#[test]
fn count_254_is_accepted_and_needs_entries() {
    assert_eq!(
        UtxoDeclaration::read(&[0xfe], 0),
        Err(ReadError::NotEnoughBytes { available: 0, needed: 8 })
    );
}

#[test]
fn truncated_address_fails() {
    let bytes = vec![1, 0, 0, 0, 0, 0, 0, 0, 9, 0, 5, 0xde, 0xad, 0xbe];
    assert_eq!(
        UtxoDeclaration::read(&bytes, 0),
        Err(ReadError::NotEnoughBytes { available: 3, needed: 5 })
    );
}

#[test]
fn truncated_length_field_fails() {
    let bytes = vec![1, 0, 0, 0, 0, 0, 0, 0, 9, 0];
    assert_eq!(
        UtxoDeclaration::read(&bytes, 0),
        Err(ReadError::NotEnoughBytes { available: 1, needed: 2 })
    );
}

#[test]
fn truncated_value_fails() {
    let bytes = vec![1, 0, 0, 0];
    assert_eq!(
        UtxoDeclaration::read(&bytes, 0),
        Err(ReadError::NotEnoughBytes { available: 3, needed: 8 })
    );
}

#[test]
fn truncated_second_entry_fails() {
    let mut bytes = sample_bytes();
    bytes.pop();
    assert_eq!(
        UtxoDeclaration::read(&bytes, 0),
        Err(ReadError::NotEnoughBytes { available: 1, needed: 2 })
    );
}

#[test]
fn empty_buffer_fails() {
    assert_eq!(
        UtxoDeclaration::read(&[], 0),
        Err(ReadError::NotEnoughBytes { available: 0, needed: 1 })
    );
}

#[test]
fn zero_entries() {
    let empty = UtxoDeclaration { addrs: vec![] };
    assert_eq!(UtxoDeclaration::read(&[0x00], 0), Ok((empty.clone(), 1)));
    assert_eq!(empty.serialize(), vec![0x00]);
}

#[test]
fn trailing_bytes_are_ignored() {
    let mut bytes = sample_bytes();
    let end = bytes.len();
    bytes.extend_from_slice(&[9, 9, 9, 0xff]);
    assert_eq!(UtxoDeclaration::read(&bytes, 0), Ok((sample(), end)));
}

#[test]
fn reads_at_an_offset() {
    let mut bytes = vec![0x77, 0x66];
    bytes.extend_from_slice(&sample_bytes());
    let end = bytes.len();
    assert_eq!(UtxoDeclaration::read(&bytes, 2), Ok((sample(), end)));
}

#[test]
fn serialize_into_appends() {
    let mut out = vec![0x42];
    sample().serialize_into(&mut out);
    let mut expected = vec![0x42];
    expected.extend_from_slice(&sample_bytes());
    assert_eq!(out, expected);
}

#[test]
fn value_is_big_endian() {
    let mut out = Vec::new();
    Value(0x0102030405060708).serialize_into(&mut out);
    assert_eq!(out, vec![1, 2, 3, 4, 5, 6, 7, 8]);
    assert_eq!(
        Value::read(&out, 0),
        Ok((Value(0x0102030405060708), 8))
    );
    assert_eq!(
        Value::read(&out, 1),
        Err(ReadError::NotEnoughBytes { available: 7, needed: 8 })
    );
}
