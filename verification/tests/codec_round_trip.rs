use timestamping::codec::{CodecError, StorageValue};
use timestamping::digest::Digest;
use timestamping::model::{PaymentInfo, Timestamp, UserInfo, UserRecord};

#[test]
fn u32_round_trip_zero() {
    let v: Vec<u8> = 0u32.serialize();
    assert_eq!(v, vec![0, 0, 0, 0]);
    assert_eq!(u32::deserialize(v), Ok(0u32));
}

#[test]
fn u32_round_trip_max() {
    let v: Vec<u8> = u32::MAX.serialize();
    assert_eq!(v, vec![0xFF, 0xFF, 0xFF, 0xFF]);
    assert_eq!(u32::deserialize(v), Ok(u32::MAX));
}

#[test]
fn u32_big_endian_layout() {
    let v: Vec<u8> = 0x0102_0304u32.serialize();
    assert_eq!(v, vec![1, 2, 3, 4]);
    assert_eq!(u32::deserialize(v), Ok(0x0102_0304u32));
}

#[test]
fn u32_wrong_width_is_malformed() {
    assert_eq!(u32::deserialize(vec![1, 2, 3]), Err(CodecError::MalformedValue));
    assert_eq!(u32::deserialize(vec![1, 2, 3, 4, 5]), Err(CodecError::MalformedValue));
}

#[test]
fn u64_round_trip_zero_and_max() {
    assert_eq!(u64::deserialize(0u64.serialize()), Ok(0u64));
    assert_eq!(u64::deserialize(u64::MAX.serialize()), Ok(u64::MAX));
}

#[test]
fn u64_big_endian_layout() {
    let v: Vec<u8> = 0x0102_0304_0506_0708u64.serialize();
    assert_eq!(v, vec![1, 2, 3, 4, 5, 6, 7, 8]);
    assert_eq!(u64::deserialize(v), Ok(0x0102_0304_0506_0708u64));
}

#[test]
fn u64_wrong_width_is_malformed() {
    assert_eq!(u64::deserialize(vec![0; 7]), Err(CodecError::MalformedValue));
}

#[test]
fn raw_bytes_identity() {
    let v = vec![9u8, 8, 7, 0, 255];
    let enc: Vec<u8> = v.clone().serialize();
    assert_eq!(enc, v);
    assert_eq!(<Vec<u8>>::deserialize(enc), Ok(v));
}

#[test]
fn digest_round_trip() {
    let bytes: Vec<u8> = (0u8..32).collect();
    let d = Digest::from_bytes(bytes.clone()).unwrap();
    let enc = d.clone().serialize();
    assert_eq!(enc, bytes);
    assert_eq!(Digest::deserialize(enc), Ok(d));
}

#[test]
fn digest_wrong_width_is_malformed() {
    assert_eq!(Digest::from_bytes(vec![0u8; 31]), Err(CodecError::MalformedValue));
    assert_eq!(Digest::deserialize(vec![0u8; 33]), Err(CodecError::MalformedValue));
}

#[test]
fn timestamp_round_trip() {
    let t = Timestamp { user_id: b"alice".to_vec(), content: b"document-hash".to_vec() };
    let enc = t.clone().serialize();
    assert_eq!(Timestamp::deserialize(enc), Ok(t));
}

#[test]
fn timestamp_empty_fields_round_trip() {
    let t = Timestamp { user_id: Vec::new(), content: Vec::new() };
    let enc = t.clone().serialize();
    assert_eq!(enc.len(), 9);
    assert_eq!(Timestamp::deserialize(enc), Ok(t));
}

#[test]
fn timestamp_bad_tag_is_framing_error() {
    let t = Timestamp { user_id: b"alice".to_vec(), content: b"x".to_vec() };
    let mut enc = t.serialize();
    enc[0] = 0x7F;
    assert_eq!(Timestamp::deserialize(enc), Err(CodecError::FramingError));
}

#[test]
fn timestamp_truncated_is_framing_error() {
    let t = Timestamp { user_id: b"alice".to_vec(), content: b"x".to_vec() };
    let mut enc = t.serialize();
    enc.pop();
    assert_eq!(Timestamp::deserialize(enc), Err(CodecError::FramingError));
    assert_eq!(Timestamp::deserialize(vec![]), Err(CodecError::FramingError));
}

#[test]
fn payment_round_trip() {
    let p = PaymentInfo { user_id: b"alice".to_vec(), amount: 42_000_000_000 };
    let enc = p.clone().serialize();
    assert_eq!(PaymentInfo::deserialize(enc), Ok(p));
}

#[test]
fn payment_bad_length_is_framing_error() {
    let p = PaymentInfo { user_id: b"alice".to_vec(), amount: 7 };
    let mut enc = p.serialize();
    enc.push(0);
    assert_eq!(PaymentInfo::deserialize(enc), Err(CodecError::FramingError));
}

#[test]
fn user_record_round_trip() {
    let info =
        UserInfo::try_new(b"alice".to_vec(), vec![7u8; 32], b"encrypted".to_vec()).unwrap();
    let rec = UserRecord {
        info,
        available_timestamps: 10,
        timestamps_hash: Digest::zero(),
        payments_hash: Digest::from_bytes(vec![3u8; 32]).unwrap(),
    };
    let enc = rec.clone().serialize();
    assert_eq!(UserRecord::deserialize(enc), Ok(rec));
}

#[test]
fn user_record_garbage_is_malformed() {
    assert_eq!(UserRecord::deserialize(vec![0u8; 10]), Err(CodecError::MalformedValue));
    assert_eq!(UserRecord::deserialize(vec![0xABu8; 100]), Err(CodecError::MalformedValue));
}

#[test]
fn user_info_bounds_are_checked() {
    assert_eq!(
        UserInfo::try_new(b"a".to_vec(), vec![0u8; 31], Vec::new()),
        Err(CodecError::MalformedValue)
    );
    assert!(UserInfo::try_new(vec![1u8; 70_000], vec![0u8; 32], Vec::new()).is_err());
}
