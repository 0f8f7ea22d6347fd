use keyvalue::{KvError, VersionedObject, decode, encode};

#[test]
fn roundtrip_some() {
    let obj = VersionedObject { version: 42, value: Some(b"hello".to_vec()) };

    let encoded = encode(&obj);
    let decoded = decode(&encoded).unwrap();

    assert_eq!(obj, decoded);
}

#[test]
fn roundtrip_none() {
    let obj = VersionedObject { version: 7, value: None };

    let encoded = encode(&obj);
    let decoded = decode(&encoded).unwrap();

    assert_eq!(obj, decoded);
}

#[test]
fn reject_garbage() {
    assert!(decode(&[1, 2, 3]).is_err());
}

#[test]
fn garbage_is_invalid_data() {
    assert_eq!(decode(&[1, 2, 3]).unwrap_err(), KvError::InvalidData);
    // unknown tag
    assert_eq!(
        decode(&[9, 0, 0, 0, 0, 0, 0, 0, 0]).unwrap_err(),
        KvError::InvalidData
    );
    // tag promises a payload but the length field is cut off
    assert_eq!(
        decode(&[1, 0, 0, 0, 0, 0, 0, 0, 0, 2, 0]).unwrap_err(),
        KvError::InvalidData
    );
    // declared payload longer than the bytes that follow
    assert_eq!(
        decode(&[1, 0, 0, 0, 0, 0, 0, 0, 0, 2, 0, 0, 0, 77]).unwrap_err(),
        KvError::InvalidData
    );
}

#[test]
fn encoding_layout() {
    let obj = VersionedObject { version: 1, value: Some(vec![0xAA, 0xBB]) };
    let encoded = encode(&obj);
    assert_eq!(
        encoded,
        vec![1u8, 1, 0, 0, 0, 0, 0, 0, 0, 2, 0, 0, 0, 0xAA, 0xBB]
    );

    let tomb = VersionedObject { version: 258, value: None };
    assert_eq!(encode(&tomb), vec![0u8, 2, 1, 0, 0, 0, 0, 0, 0]);
}

#[test]
fn roundtrip_empty_payload() {
    let obj = VersionedObject { version: 0, value: Some(Vec::new()) };
    let decoded = decode(&encode(&obj)).unwrap();
    assert_eq!(decoded, obj);
}

#[test]
fn version_counter_bytes_roundtrip() {
    for v in [0u32, 1, 255, 256, 65_535, 0xDEAD_BEEF, u32::MAX] {
        let b = keyvalue::encode_u32_be(v);
        assert_eq!(b.len(), 4);
        assert_eq!(keyvalue::decode_u32_be(&b), Some(v));
    }
    assert_eq!(keyvalue::encode_u32_be(0x01020304), vec![1u8, 2, 3, 4]);
    assert_eq!(keyvalue::decode_u32_be(&vec![1u8, 2, 3]), None);
}
