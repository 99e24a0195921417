use timestamping::codec::StorageValue;
use timestamping::digest::Digest;
use timestamping::keys::{gen_prefix, IDX_USERS};
use timestamping::model::{PaymentInfo, Timestamp, UserInfo};
use timestamping::schema::Schema;
use timestamping::store::{Fork, StoreView};

fn sha(bytes: &[u8]) -> Vec<u8> {
    <sha2::Sha256 as sha2::Digest>::digest(bytes).to_vec()
}

fn chain(acc: &[u8], entry: &[u8]) -> Vec<u8> {
    let mut buf = acc.to_vec();
    buf.extend_from_slice(&sha(entry));
    sha(&buf)
}

fn user(id: &[u8], key_byte: u8) -> UserInfo {
    UserInfo::try_new(id.to_vec(), vec![key_byte; 32], b"encrypted-secret".to_vec()).unwrap()
}

#[test]
fn fresh_registration_gets_initial_quota_and_empty_digests() {
    let mut schema = Schema::new(Fork::new());
    schema.add_user(user(b"alice", 1));
    let rec = schema.get_user(&b"alice".to_vec()).unwrap().unwrap();
    assert_eq!(rec.available_timestamps, 10);
    assert_eq!(rec.timestamps_hash, Digest::zero());
    assert_eq!(rec.payments_hash, Digest::zero());
    assert_eq!(rec.info.id, b"alice".to_vec());
}

#[test]
fn timestamp_then_payment_cascade() {
    let mut schema = Schema::new(Fork::new());
    schema.add_user(user(b"alice", 1));

    let t1 = Timestamp { user_id: b"alice".to_vec(), content: b"T1".to_vec() };
    let t1_bytes = t1.clone().serialize();
    schema.add_timestamp(t1);

    let rec = schema.get_user(&b"alice".to_vec()).unwrap().unwrap();
    let expected_ts_root = chain(&[0u8; 32], &t1_bytes);
    assert_eq!(rec.timestamps_hash.bytes(), &expected_ts_root);
    assert_eq!(rec.payments_hash, Digest::zero());

    let ts_handle = schema.timestamps(&b"alice".to_vec());
    assert_eq!(ts_handle.len(schema.view_ref()), 1);
    assert_eq!(ts_handle.get(schema.view_ref(), 0), Some(t1_bytes));
    assert_eq!(ts_handle.root_hash(schema.view_ref()).bytes(), &expected_ts_root);

    let p1 = PaymentInfo { user_id: b"alice".to_vec(), amount: 5 };
    let p1_bytes = p1.clone().serialize();
    schema.add_payment(p1);

    let rec2 = schema.get_user(&b"alice".to_vec()).unwrap().unwrap();
    let expected_pay_root = chain(&[0u8; 32], &p1_bytes);
    assert_eq!(rec2.payments_hash.bytes(), &expected_pay_root);
    assert_eq!(rec2.timestamps_hash.bytes(), &expected_ts_root);
    let pay_handle = schema.payments(&b"alice".to_vec());
    assert_eq!(pay_handle.root_hash(schema.view_ref()).bytes(), &expected_pay_root);
}

#[test]
fn cascade_holds_after_many_operations() {
    let mut schema = Schema::new(Fork::new());
    schema.add_user(user(b"alice", 1));
    schema.add_user(user(b"bob", 2));
    for i in 0u8..4 {
        schema.add_timestamp(Timestamp { user_id: b"alice".to_vec(), content: vec![i] });
        schema.add_payment(PaymentInfo { user_id: b"bob".to_vec(), amount: i as u64 });
    }
    schema.add_user(user(b"alice", 1));
    for who in [b"alice".to_vec(), b"bob".to_vec()] {
        let rec = schema.get_user(&who).unwrap().unwrap();
        assert_eq!(
            &rec.timestamps_hash,
            &schema.timestamps(&who).root_hash(schema.view_ref())
        );
        assert_eq!(&rec.payments_hash, &schema.payments(&who).root_hash(schema.view_ref()));
    }
}

#[test]
fn reregistration_is_idempotent() {
    let mut schema = Schema::new(Fork::new());
    schema.add_user(user(b"alice", 1));
    schema.add_timestamp(Timestamp { user_id: b"alice".to_vec(), content: b"T1".to_vec() });
    let before = schema.get_user(&b"alice".to_vec()).unwrap().unwrap();
    schema.add_user(user(b"alice", 1));
    schema.add_user(user(b"alice", 1));
    let after = schema.get_user(&b"alice".to_vec()).unwrap().unwrap();
    assert_eq!(after.available_timestamps, before.available_timestamps);
    assert_eq!(after.timestamps_hash, before.timestamps_hash);
    assert_eq!(after.payments_hash, before.payments_hash);
}

#[test]
fn reregistration_upserts_known_key() {
    let mut schema = Schema::new(Fork::new());
    let alice = user(b"alice", 9);
    let pk = alice.pub_key.clone();
    schema.add_user(alice);
    let kk = schema.known_keys();
    assert_eq!(kk.get(schema.view_ref(), &pk), None);
    schema.add_user(user(b"alice", 9));
    assert_eq!(kk.get(schema.view_ref(), &pk), Some(b"encrypted-secret".to_vec()));
}

#[test]
fn unregistered_append_is_dropped() {
    let mut schema = Schema::new(Fork::new());
    schema.add_user(user(b"alice", 1));
    let users = schema.users();
    let root_before = users.root_hash(schema.view_ref());
    schema.add_timestamp(Timestamp { user_id: b"bob".to_vec(), content: b"T1".to_vec() });
    schema.add_payment(PaymentInfo { user_id: b"bob".to_vec(), amount: 3 });
    assert_eq!(users.root_hash(schema.view_ref()), root_before);
    assert_eq!(schema.get_user(&b"bob".to_vec()).unwrap(), None);
    assert_eq!(schema.timestamps(&b"bob".to_vec()).len(schema.view_ref()), 0);
}

#[test]
fn namespace_isolation_between_users() {
    let mut schema = Schema::new(Fork::new());
    schema.add_user(user(b"alice", 1));
    schema.add_user(user(b"bob", 2));
    let bob_rec_before = schema.get_user(&b"bob".to_vec()).unwrap().unwrap();
    let bob_ts_before = schema.timestamps(&b"bob".to_vec()).root_hash(schema.view_ref());
    schema.add_timestamp(Timestamp { user_id: b"alice".to_vec(), content: b"T1".to_vec() });
    let bob_rec_after = schema.get_user(&b"bob".to_vec()).unwrap().unwrap();
    assert_eq!(bob_rec_after, bob_rec_before);
    assert_eq!(
        schema.timestamps(&b"bob".to_vec()).root_hash(schema.view_ref()),
        bob_ts_before
    );
    assert_eq!(schema.timestamps(&b"bob".to_vec()).len(schema.view_ref()), 0);
}

#[test]
fn registry_slot_sits_at_sha256_of_id() {
    let mut schema = Schema::new(Fork::new());
    schema.add_user(user(b"alice", 1));
    let fork = schema.into_view();
    let mut key = gen_prefix(IDX_USERS, &Vec::new());
    key.extend_from_slice(&sha(b"alice"));
    assert!(fork.raw_get(&key).is_some());
    let mut wrong = gen_prefix(IDX_USERS, &Vec::new());
    wrong.extend_from_slice(b"alice");
    assert!(fork.raw_get(&wrong).is_none());
}

#[test]
fn snapshot_reads_match_fork_reads() {
    let mut schema = Schema::new(Fork::new());
    schema.add_user(user(b"alice", 1));
    schema.add_timestamp(Timestamp { user_id: b"alice".to_vec(), content: b"T1".to_vec() });
    let rec_on_fork = schema.get_user(&b"alice".to_vec()).unwrap().unwrap();
    let snapshot = schema.into_view().into_snapshot();
    let read_only = Schema::new(snapshot);
    let rec_on_snapshot = read_only.get_user(&b"alice".to_vec()).unwrap().unwrap();
    assert_eq!(rec_on_snapshot, rec_on_fork);
    assert_eq!(read_only.timestamps(&b"alice".to_vec()).len(read_only.view_ref()), 1);
}

#[test]
fn empty_list_root_is_zero_digest() {
    let schema = Schema::new(Fork::new());
    let root = schema.timestamps(&b"nobody".to_vec()).root_hash(schema.view_ref());
    assert_eq!(root, Digest::zero());
    assert_eq!(root.bytes().len(), 32);
}
