//! The stored value types: user identity, the per-user registry record, and
//! the two framed message kinds (timestamps and payments), each with its
//! exact byte encoding.

use vstd::prelude::*;
use crate::codec::{
    CodecError, StorageValue, be32, be64, be32_val, be64_val, read_be32, read_be64, push_be32,
    push_be64, extend_bytes, subvec,
};
use crate::digest::{Digest, DIGEST_LEN};

verus! {

/// Frame tag of a timestamp message.
pub const TAG_TIMESTAMP: u8 = 1;

/// Frame tag of a payment message.
pub const TAG_PAYMENT: u8 = 2;

/// Largest length of a variable-width field (id, secret blob, content) the
/// wire format carries.
pub const FIELD_MAX: usize = 0xFFFF;

/// A user's identity: logical id, public key, encrypted secret key blob.
#[derive(Debug, Clone, PartialEq, Eq)]
pub struct UserInfo {
    pub id: Vec<u8>,
    pub pub_key: Vec<u8>,
    pub encrypted_secret_key: Vec<u8>,
}

/// Mathematical view of a `UserInfo`.
#[verifier::ext_equal]
pub struct UserInfoV {
    pub id: Seq<u8>,
    pub pub_key: Seq<u8>,
    pub sec: Seq<u8>,
}

impl DeepView for UserInfo {
    type V = UserInfoV;

    open spec fn deep_view(&self) -> UserInfoV {
        UserInfoV { id: self.id@, pub_key: self.pub_key@, sec: self.encrypted_secret_key@ }
    }
}

/// Length bounds of an encodable identity.
pub open spec fn info_wf(v: UserInfoV) -> bool {
    v.id.len() <= FIELD_MAX && v.pub_key.len() == DIGEST_LEN && v.sec.len() <= FIELD_MAX
}

/// Byte encoding of an identity: id (length-prefixed), public key (fixed
/// width), secret blob (length-prefixed).
pub open spec fn info_enc(v: UserInfoV) -> Seq<u8> {
    be32(v.id.len() as u32) + v.id + v.pub_key + be32(v.sec.len() as u32) + v.sec
}

/// Total inverse of `info_enc`.
pub open spec fn info_parse(s: Seq<u8>) -> Option<UserInfoV> {
    if s.len() < 4 {
        None
    } else {
        let n = be32_val(s.subrange(0, 4)) as int;
        if n > FIELD_MAX || s.len() < n + 40 {
            None
        } else {
            let m = be32_val(s.subrange(4 + n + 32, 4 + n + 36)) as int;
            if m > FIELD_MAX || s.len() != n + 40 + m {
                None
            } else {
                Some(UserInfoV {
                    id: s.subrange(4, 4 + n),
                    pub_key: s.subrange(4 + n, 4 + n + 32),
                    sec: s.subrange(4 + n + 36, 4 + n + 36 + m),
                })
            }
        }
    }
}

pub proof fn lemma_info_print_parse(v: UserInfoV)
    requires
        info_wf(v),
    ensures
        info_parse(info_enc(v)) == Some(v),
{
    let s = info_enc(v);
    let n = v.id.len() as int;
    let m = v.sec.len() as int;
    crate::codec::lemma_be32_round_trip(v.id.len() as u32);
    crate::codec::lemma_be32_round_trip(v.sec.len() as u32);
    assert(s.len() == n + 40 + m);
    assert(s.subrange(0, 4) =~= be32(v.id.len() as u32));
    assert(s.subrange(4, 4 + n) =~= v.id);
    assert(s.subrange(4 + n, 4 + n + 32) =~= v.pub_key);
    assert(s.subrange(4 + n + 32, 4 + n + 36) =~= be32(v.sec.len() as u32));
    assert(s.subrange(4 + n + 36, 4 + n + 36 + m) =~= v.sec);
}

pub proof fn lemma_info_parse_print(s: Seq<u8>)
    requires
        info_parse(s) is Some,
    ensures
        info_wf(info_parse(s)->Some_0),
        info_enc(info_parse(s)->Some_0) == s,
{
    let v = info_parse(s)->Some_0;
    let n = be32_val(s.subrange(0, 4)) as int;
    let m = be32_val(s.subrange(4 + n + 32, 4 + n + 36)) as int;
    assert(v.id.len() == n && v.sec.len() == m && v.pub_key.len() == 32);
    crate::codec::lemma_be32_print_parse(s.subrange(0, 4));
    crate::codec::lemma_be32_print_parse(s.subrange(4 + n + 32, 4 + n + 36));
    assert(be32(v.id.len() as u32) == s.subrange(0, 4));
    assert(be32(v.sec.len() as u32) == s.subrange(4 + n + 32, 4 + n + 36));
    assert(info_enc(v) =~= s);
}

impl UserInfo {
    /// Builds an identity, rejecting fields beyond the wire format's bounds.
    pub fn try_new(id: Vec<u8>, pub_key: Vec<u8>, encrypted_secret_key: Vec<u8>) -> (r: Result<
        UserInfo,
        CodecError,
    >)
        ensures
            match r {
                Ok(u) => info_wf(u.deep_view()) && u.id@ == id@ && u.pub_key@ == pub_key@
                    && u.encrypted_secret_key@ == encrypted_secret_key@,
                Err(e) => e == CodecError::MalformedValue && !(id@.len() <= FIELD_MAX
                    && pub_key@.len() == DIGEST_LEN && encrypted_secret_key@.len() <= FIELD_MAX),
            },
    {
        if id.len() > FIELD_MAX || pub_key.len() != DIGEST_LEN || encrypted_secret_key.len()
            > FIELD_MAX {
            return Err(CodecError::MalformedValue);
        }
        Ok(UserInfo { id, pub_key, encrypted_secret_key })
    }

    /// Serialises the identity in its wire form.
    pub fn encode(&self) -> (r: Vec<u8>)
        ensures
            r@ == info_enc(self.deep_view()),
    {
        let mut out: Vec<u8> = Vec::new();
        push_be32(&mut out, self.id.len() as u32);
        extend_bytes(&mut out, &self.id);
        extend_bytes(&mut out, &self.pub_key);
        push_be32(&mut out, self.encrypted_secret_key.len() as u32);
        extend_bytes(&mut out, &self.encrypted_secret_key);
        proof {
            assert(out@ =~= info_enc(self.deep_view()));
        }
        out
    }

    /// Parses an identity from its wire form.
    pub fn decode(v: &Vec<u8>) -> (r: Result<UserInfo, CodecError>)
        ensures
            match r {
                Ok(x) => info_parse(v@) == Some(x.deep_view()),
                Err(e) => e == CodecError::MalformedValue && info_parse(v@) is None,
            },
    {
        if v.len() < 4 {
            return Err(CodecError::MalformedValue);
        }
        let n = read_be32(v, 0) as usize;
        if n > FIELD_MAX || v.len() < n + 40 {
            return Err(CodecError::MalformedValue);
        }
        let m = read_be32(v, 4 + n + 32) as usize;
        if m > FIELD_MAX || v.len() != n + 40 + m {
            return Err(CodecError::MalformedValue);
        }
        let id = subvec(v, 4, 4 + n);
        let pub_key = subvec(v, 4 + n, 4 + n + 32);
        let sec = subvec(v, 4 + n + 36, 4 + n + 36 + m);
        Ok(UserInfo { id, pub_key, encrypted_secret_key: sec })
    }
}

/// The per-user registry record: identity, remaining quota, and the cached
/// root digests of the user's two logs.
#[derive(Debug, Clone, PartialEq, Eq)]
pub struct UserRecord {
    pub info: UserInfo,
    pub available_timestamps: u64,
    pub timestamps_hash: Digest,
    pub payments_hash: Digest,
}

/// Mathematical view of a `UserRecord`.
#[verifier::ext_equal]
pub struct UserRecordV {
    pub info: UserInfoV,
    pub quota: u64,
    pub ts_hash: Seq<u8>,
    pub pay_hash: Seq<u8>,
}

impl DeepView for UserRecord {
    type V = UserRecordV;

    open spec fn deep_view(&self) -> UserRecordV {
        UserRecordV {
            info: self.info.deep_view(),
            quota: self.available_timestamps,
            ts_hash: self.timestamps_hash@,
            pay_hash: self.payments_hash@,
        }
    }
}

/// Length bounds of an encodable record.
pub open spec fn rec_wf(r: UserRecordV) -> bool {
    info_wf(r.info) && r.ts_hash.len() == DIGEST_LEN && r.pay_hash.len() == DIGEST_LEN
}

/// Byte encoding of a record: identity (length-prefixed), quota, timestamp
/// digest, payment digest.
pub open spec fn rec_enc(r: UserRecordV) -> Seq<u8> {
    be32(info_enc(r.info).len() as u32) + info_enc(r.info) + be64(r.quota) + r.ts_hash + r.pay_hash
}

/// Total inverse of `rec_enc`.
pub open spec fn rec_parse(s: Seq<u8>) -> Option<UserRecordV> {
    if s.len() < 76 {
        None
    } else {
        let il = be32_val(s.subrange(0, 4)) as int;
        if s.len() != il + 76 {
            None
        } else {
            match info_parse(s.subrange(4, 4 + il)) {
                Some(info) => Some(UserRecordV {
                    info,
                    quota: be64_val(s.subrange(4 + il, 4 + il + 8)),
                    ts_hash: s.subrange(4 + il + 8, 4 + il + 40),
                    pay_hash: s.subrange(4 + il + 40, 4 + il + 72),
                }),
                None => None,
            }
        }
    }
}

pub proof fn lemma_rec_print_parse(r: UserRecordV)
    requires
        rec_wf(r),
    ensures
        rec_parse(rec_enc(r)) == Some(r),
{
    let s = rec_enc(r);
    let il = info_enc(r.info).len() as int;
    assert(il <= 40 + 2 * FIELD_MAX);
    crate::codec::lemma_be32_round_trip(il as u32);
    crate::codec::lemma_be64_round_trip(r.quota);
    assert(s.len() == il + 76);
    assert(s.subrange(0, 4) =~= be32(il as u32));
    assert(s.subrange(4, 4 + il) =~= info_enc(r.info));
    lemma_info_print_parse(r.info);
    assert(s.subrange(4 + il, 4 + il + 8) =~= be64(r.quota));
    assert(s.subrange(4 + il + 8, 4 + il + 40) =~= r.ts_hash);
    assert(s.subrange(4 + il + 40, 4 + il + 72) =~= r.pay_hash);
}

#[verifier::rlimit(60)]
pub proof fn lemma_rec_parse_print(s: Seq<u8>)
    requires
        rec_parse(s) is Some,
    ensures
        rec_wf(rec_parse(s)->Some_0),
        rec_enc(rec_parse(s)->Some_0) == s,
{
    let r = rec_parse(s)->Some_0;
    let il = be32_val(s.subrange(0, 4)) as int;
    lemma_info_parse_print(s.subrange(4, 4 + il));
    assert(info_enc(r.info) == s.subrange(4, 4 + il));
    assert(info_enc(r.info).len() == il);
    crate::codec::lemma_be32_print_parse(s.subrange(0, 4));
    assert(be32(info_enc(r.info).len() as u32) == s.subrange(0, 4));
    crate::codec::lemma_be64_print_parse(s.subrange(4 + il, 4 + il + 8));
    assert(be64(r.quota) == s.subrange(4 + il, 4 + il + 8));
    assert(s =~= s.subrange(0, 4) + s.subrange(4, 4 + il) + s.subrange(4 + il, 4 + il + 8)
        + s.subrange(4 + il + 8, 4 + il + 40) + s.subrange(4 + il + 40, 4 + il + 72));
    assert(rec_enc(r) =~= s);
}

/// No encodable record encodes to a byte sequence that does not parse.
pub proof fn lemma_rec_no_encoding(s: Seq<u8>)
    requires
        rec_parse(s) is None,
    ensures
        forall|x: UserRecord| rec_wf(x.deep_view()) ==> #[trigger] rec_enc(x.deep_view()) != s,
{
    assert forall|x: UserRecord| rec_wf(x.deep_view()) implies #[trigger] rec_enc(x.deep_view())
        != s by {
        if rec_enc(x.deep_view()) == s {
            lemma_rec_print_parse(x.deep_view());
        }
    }
}

impl StorageValue for UserRecord {
    open spec fn encodable(&self) -> bool {
        rec_wf(self.deep_view())
    }

    open spec fn encoded(&self) -> Seq<u8> {
        rec_enc(self.deep_view())
    }

    open spec fn err_kind() -> CodecError {
        CodecError::MalformedValue
    }

    proof fn lemma_encoded_injective(a: &Self, b: &Self) {
        lemma_rec_print_parse(a.deep_view());
        lemma_rec_print_parse(b.deep_view());
    }

    fn serialize(self) -> (r: Vec<u8>) {
        let info_bytes = self.info.encode();
        let mut out: Vec<u8> = Vec::new();
        push_be32(&mut out, info_bytes.len() as u32);
        extend_bytes(&mut out, &info_bytes);
        push_be64(&mut out, self.available_timestamps);
        extend_bytes(&mut out, self.timestamps_hash.bytes());
        extend_bytes(&mut out, self.payments_hash.bytes());
        proof {
            assert(out@ =~= rec_enc(self.deep_view()));
        }
        out
    }

    fn deserialize(v: Vec<u8>) -> (r: Result<Self, CodecError>) {
        match decode_record(&v) {
            Ok(x) => {
                proof {
                    lemma_rec_parse_print(v@);
                }
                Ok(x)
            },
            Err(e) => {
                proof {
                    lemma_rec_no_encoding(v@);
                }
                Err(e)
            },
        }
    }
}

/// Parses a record from its wire form.
pub fn decode_record(v: &Vec<u8>) -> (r: Result<UserRecord, CodecError>)
    ensures
        match r {
            Ok(x) => rec_parse(v@) == Some(x.deep_view()),
            Err(e) => e == CodecError::MalformedValue && rec_parse(v@) is None,
        },
{
    if v.len() < 76 {
        return Err(CodecError::MalformedValue);
    }
    let il = read_be32(v, 0) as usize;
    if il != v.len() - 76 {
        return Err(CodecError::MalformedValue);
    }
    let info_bytes = subvec(v, 4, 4 + il);
    let info = match UserInfo::decode(&info_bytes) {
        Ok(i) => i,
        Err(_) => {
            return Err(CodecError::MalformedValue);
        },
    };
    let quota = read_be64(v, 4 + il);
    let ts = match Digest::from_bytes(subvec(v, 4 + il + 8, 4 + il + 40)) {
        Ok(d) => d,
        Err(_) => {
            proof {
                assert(false);
            }
            return Err(CodecError::MalformedValue);
        },
    };
    let pay = match Digest::from_bytes(subvec(v, 4 + il + 40, 4 + il + 72)) {
        Ok(d) => d,
        Err(_) => {
            proof {
                assert(false);
            }
            return Err(CodecError::MalformedValue);
        },
    };
    Ok(UserRecord { info, available_timestamps: quota, timestamps_hash: ts, payments_hash: pay })
}

/// A timestamp message: an externally-framed, self-delimiting record of one
/// timestamping event by one user.
#[derive(Debug, Clone, PartialEq, Eq)]
pub struct Timestamp {
    pub user_id: Vec<u8>,
    pub content: Vec<u8>,
}

/// Mathematical view of a `Timestamp`.
#[verifier::ext_equal]
pub struct TimestampV {
    pub user_id: Seq<u8>,
    pub content: Seq<u8>,
}

impl DeepView for Timestamp {
    type V = TimestampV;

    open spec fn deep_view(&self) -> TimestampV {
        TimestampV { user_id: self.user_id@, content: self.content@ }
    }
}

/// Length bounds of an encodable timestamp message.
pub open spec fn ts_wf(v: TimestampV) -> bool {
    v.user_id.len() <= FIELD_MAX && v.content.len() <= FIELD_MAX
}

/// Byte encoding: frame tag, total frame length, then the id-prefixed body.
pub open spec fn ts_enc(v: TimestampV) -> Seq<u8> {
    seq![TAG_TIMESTAMP] + be32((9 + v.user_id.len() + v.content.len()) as u32) + be32(
        v.user_id.len() as u32,
    ) + v.user_id + v.content
}

/// Total inverse of `ts_enc`.
pub open spec fn ts_parse(s: Seq<u8>) -> Option<TimestampV> {
    if s.len() < 9 || s[0] != TAG_TIMESTAMP || be32_val(s.subrange(1, 5)) as int != s.len() {
        None
    } else {
        let n = be32_val(s.subrange(5, 9)) as int;
        if n > FIELD_MAX || s.len() < 9 + n || s.len() - 9 - n > FIELD_MAX {
            None
        } else {
            Some(TimestampV { user_id: s.subrange(9, 9 + n), content: s.subrange(9 + n, s.len() as int) })
        }
    }
}

pub proof fn lemma_ts_print_parse(v: TimestampV)
    requires
        ts_wf(v),
    ensures
        ts_parse(ts_enc(v)) == Some(v),
{
    let s = ts_enc(v);
    let n = v.user_id.len() as int;
    crate::codec::lemma_be32_round_trip((9 + v.user_id.len() + v.content.len()) as u32);
    crate::codec::lemma_be32_round_trip(v.user_id.len() as u32);
    assert(s.len() == 9 + n + v.content.len());
    assert(s[0] == TAG_TIMESTAMP);
    assert(s.subrange(1, 5) =~= be32((9 + v.user_id.len() + v.content.len()) as u32));
    assert(s.subrange(5, 9) =~= be32(v.user_id.len() as u32));
    assert(s.subrange(9, 9 + n) =~= v.user_id);
    assert(s.subrange(9 + n, s.len() as int) =~= v.content);
}

pub proof fn lemma_ts_parse_print(s: Seq<u8>)
    requires
        ts_parse(s) is Some,
    ensures
        ts_wf(ts_parse(s)->Some_0),
        ts_enc(ts_parse(s)->Some_0) == s,
{
    let v = ts_parse(s)->Some_0;
    let n = be32_val(s.subrange(5, 9)) as int;
    assert(v.user_id.len() == n && v.content.len() == s.len() - 9 - n);
    crate::codec::lemma_be32_print_parse(s.subrange(1, 5));
    crate::codec::lemma_be32_print_parse(s.subrange(5, 9));
    assert(be32((9 + v.user_id.len() + v.content.len()) as u32) == s.subrange(1, 5));
    assert(be32(v.user_id.len() as u32) == s.subrange(5, 9));
    assert(ts_enc(v) =~= s);
}

/// No encodable timestamp encodes to a byte sequence that does not parse.
pub proof fn lemma_ts_no_encoding(s: Seq<u8>)
    requires
        ts_parse(s) is None,
    ensures
        forall|x: Timestamp| ts_wf(x.deep_view()) ==> #[trigger] ts_enc(x.deep_view()) != s,
{
    assert forall|x: Timestamp| ts_wf(x.deep_view()) implies #[trigger] ts_enc(x.deep_view())
        != s by {
        if ts_enc(x.deep_view()) == s {
            lemma_ts_print_parse(x.deep_view());
        }
    }
}

impl StorageValue for Timestamp {
    open spec fn encodable(&self) -> bool {
        ts_wf(self.deep_view())
    }

    open spec fn encoded(&self) -> Seq<u8> {
        ts_enc(self.deep_view())
    }

    open spec fn err_kind() -> CodecError {
        CodecError::FramingError
    }

    proof fn lemma_encoded_injective(a: &Self, b: &Self) {
        lemma_ts_print_parse(a.deep_view());
        lemma_ts_print_parse(b.deep_view());
    }

    fn serialize(self) -> (r: Vec<u8>) {
        let mut out: Vec<u8> = Vec::new();
        out.push(TAG_TIMESTAMP);
        push_be32(&mut out, (9 + self.user_id.len() + self.content.len()) as u32);
        push_be32(&mut out, self.user_id.len() as u32);
        extend_bytes(&mut out, &self.user_id);
        extend_bytes(&mut out, &self.content);
        proof {
            assert(out@ =~= ts_enc(self.deep_view()));
        }
        out
    }

    fn deserialize(v: Vec<u8>) -> (r: Result<Self, CodecError>) {
        if v.len() < 9 {
            proof {
                lemma_ts_no_encoding(v@);
            }
            return Err(CodecError::FramingError);
        }
        let total = read_be32(&v, 1) as usize;
        let n = read_be32(&v, 5) as usize;
        if v[0] != TAG_TIMESTAMP || total != v.len() || n > FIELD_MAX || v.len() < 9 + n || v.len()
            - 9 - n > FIELD_MAX {
            proof {
                lemma_ts_no_encoding(v@);
            }
            return Err(CodecError::FramingError);
        }
        let user_id = subvec(&v, 9, 9 + n);
        let content = subvec(&v, 9 + n, v.len());
        let x = Timestamp { user_id, content };
        proof {
            assert(ts_parse(v@) == Some(x.deep_view()));
            lemma_ts_parse_print(v@);
        }
        Ok(x)
    }
}

/// A payment message: an externally-framed record crediting one user.
#[derive(Debug, Clone, PartialEq, Eq)]
pub struct PaymentInfo {
    pub user_id: Vec<u8>,
    pub amount: u64,
}

/// Mathematical view of a `PaymentInfo`.
#[verifier::ext_equal]
pub struct PaymentInfoV {
    pub user_id: Seq<u8>,
    pub amount: u64,
}

impl DeepView for PaymentInfo {
    type V = PaymentInfoV;

    open spec fn deep_view(&self) -> PaymentInfoV {
        PaymentInfoV { user_id: self.user_id@, amount: self.amount }
    }
}

/// Length bound of an encodable payment message.
pub open spec fn pay_wf(v: PaymentInfoV) -> bool {
    v.user_id.len() <= FIELD_MAX
}

/// Byte encoding: frame tag, total frame length, id-prefixed body, amount.
pub open spec fn pay_enc(v: PaymentInfoV) -> Seq<u8> {
    seq![TAG_PAYMENT] + be32((17 + v.user_id.len()) as u32) + be32(v.user_id.len() as u32)
        + v.user_id + be64(v.amount)
}

/// Total inverse of `pay_enc`.
pub open spec fn pay_parse(s: Seq<u8>) -> Option<PaymentInfoV> {
    if s.len() < 17 || s[0] != TAG_PAYMENT || be32_val(s.subrange(1, 5)) as int != s.len() {
        None
    } else {
        let n = be32_val(s.subrange(5, 9)) as int;
        if n > FIELD_MAX || s.len() != 17 + n {
            None
        } else {
            Some(PaymentInfoV {
                user_id: s.subrange(9, 9 + n),
                amount: be64_val(s.subrange(9 + n, 17 + n)),
            })
        }
    }
}

pub proof fn lemma_pay_print_parse(v: PaymentInfoV)
    requires
        pay_wf(v),
    ensures
        pay_parse(pay_enc(v)) == Some(v),
{
    let s = pay_enc(v);
    let n = v.user_id.len() as int;
    crate::codec::lemma_be32_round_trip((17 + v.user_id.len()) as u32);
    crate::codec::lemma_be32_round_trip(v.user_id.len() as u32);
    crate::codec::lemma_be64_round_trip(v.amount);
    assert(s.len() == 17 + n);
    assert(s[0] == TAG_PAYMENT);
    assert(s.subrange(1, 5) =~= be32((17 + v.user_id.len()) as u32));
    assert(s.subrange(5, 9) =~= be32(v.user_id.len() as u32));
    assert(s.subrange(9, 9 + n) =~= v.user_id);
    assert(s.subrange(9 + n, 17 + n) =~= be64(v.amount));
}

pub proof fn lemma_pay_parse_print(s: Seq<u8>)
    requires
        pay_parse(s) is Some,
    ensures
        pay_wf(pay_parse(s)->Some_0),
        pay_enc(pay_parse(s)->Some_0) == s,
{
    let v = pay_parse(s)->Some_0;
    let n = be32_val(s.subrange(5, 9)) as int;
    assert(v.user_id.len() == n);
    crate::codec::lemma_be32_print_parse(s.subrange(1, 5));
    crate::codec::lemma_be32_print_parse(s.subrange(5, 9));
    crate::codec::lemma_be64_print_parse(s.subrange(9 + n, 17 + n));
    assert(be32((17 + v.user_id.len()) as u32) == s.subrange(1, 5));
    assert(be32(v.user_id.len() as u32) == s.subrange(5, 9));
    assert(be64(v.amount) == s.subrange(9 + n, 17 + n));
    assert(pay_enc(v) =~= s);
}

/// No encodable payment encodes to a byte sequence that does not parse.
pub proof fn lemma_pay_no_encoding(s: Seq<u8>)
    requires
        pay_parse(s) is None,
    ensures
        forall|x: PaymentInfo| pay_wf(x.deep_view()) ==> #[trigger] pay_enc(x.deep_view()) != s,
{
    assert forall|x: PaymentInfo| pay_wf(x.deep_view()) implies #[trigger] pay_enc(x.deep_view())
        != s by {
        if pay_enc(x.deep_view()) == s {
            lemma_pay_print_parse(x.deep_view());
        }
    }
}

impl StorageValue for PaymentInfo {
    open spec fn encodable(&self) -> bool {
        pay_wf(self.deep_view())
    }

    open spec fn encoded(&self) -> Seq<u8> {
        pay_enc(self.deep_view())
    }

    open spec fn err_kind() -> CodecError {
        CodecError::FramingError
    }

    proof fn lemma_encoded_injective(a: &Self, b: &Self) {
        lemma_pay_print_parse(a.deep_view());
        lemma_pay_print_parse(b.deep_view());
    }

    fn serialize(self) -> (r: Vec<u8>) {
        let mut out: Vec<u8> = Vec::new();
        out.push(TAG_PAYMENT);
        push_be32(&mut out, (17 + self.user_id.len()) as u32);
        push_be32(&mut out, self.user_id.len() as u32);
        extend_bytes(&mut out, &self.user_id);
        push_be64(&mut out, self.amount);
        proof {
            assert(out@ =~= pay_enc(self.deep_view()));
        }
        out
    }

    fn deserialize(v: Vec<u8>) -> (r: Result<Self, CodecError>) {
        if v.len() < 17 {
            proof {
                lemma_pay_no_encoding(v@);
            }
            return Err(CodecError::FramingError);
        }
        let total = read_be32(&v, 1) as usize;
        let n = read_be32(&v, 5) as usize;
        if v[0] != TAG_PAYMENT || total != v.len() || n > FIELD_MAX || v.len() != 17 + n {
            proof {
                lemma_pay_no_encoding(v@);
            }
            return Err(CodecError::FramingError);
        }
        let user_id = subvec(&v, 9, 9 + n);
        let amount = read_be64(&v, 9 + n);
        let x = PaymentInfo { user_id, amount };
        proof {
            assert(pay_parse(v@) == Some(x.deep_view()));
            lemma_pay_parse_print(v@);
        }
        Ok(x)
    }
}

impl StorageValue for u32 {
    open spec fn encodable(&self) -> bool {
        true
    }

    open spec fn encoded(&self) -> Seq<u8> {
        be32(*self)
    }

    open spec fn err_kind() -> CodecError {
        CodecError::MalformedValue
    }

    proof fn lemma_encoded_injective(a: &Self, b: &Self) {
        crate::codec::lemma_be32_injective(*a, *b);
    }

    fn serialize(self) -> (r: Vec<u8>) {
        crate::codec::encode_u32(self)
    }

    fn deserialize(v: Vec<u8>) -> (r: Result<Self, CodecError>) {
        let r = crate::codec::decode_u32(&v);
        proof {
            if v@.len() == 4 {
                crate::codec::lemma_be32_print_parse(v@);
            } else {
                assert(forall|x: u32| (#[trigger] be32(x)).len() == 4);
            }
        }
        r
    }
}

impl StorageValue for u64 {
    open spec fn encodable(&self) -> bool {
        true
    }

    open spec fn encoded(&self) -> Seq<u8> {
        be64(*self)
    }

    open spec fn err_kind() -> CodecError {
        CodecError::MalformedValue
    }

    proof fn lemma_encoded_injective(a: &Self, b: &Self) {
        crate::codec::lemma_be64_injective(*a, *b);
    }

    fn serialize(self) -> (r: Vec<u8>) {
        crate::codec::encode_u64(self)
    }

    fn deserialize(v: Vec<u8>) -> (r: Result<Self, CodecError>) {
        let r = crate::codec::decode_u64(&v);
        proof {
            if v@.len() == 8 {
                crate::codec::lemma_be64_print_parse(v@);
            } else {
                assert(forall|x: u64| (#[trigger] be64(x)).len() == 8);
            }
        }
        r
    }
}

impl StorageValue for Vec<u8> {
    open spec fn encodable(&self) -> bool {
        true
    }

    open spec fn encoded(&self) -> Seq<u8> {
        self@
    }

    open spec fn err_kind() -> CodecError {
        CodecError::MalformedValue
    }

    proof fn lemma_encoded_injective(a: &Self, b: &Self) {
    }

    fn serialize(self) -> (r: Vec<u8>) {
        self
    }

    fn deserialize(v: Vec<u8>) -> (r: Result<Self, CodecError>) {
        Ok(v)
    }
}

impl StorageValue for Digest {
    open spec fn encodable(&self) -> bool {
        self.wf()
    }

    open spec fn encoded(&self) -> Seq<u8> {
        self@
    }

    open spec fn err_kind() -> CodecError {
        CodecError::MalformedValue
    }

    proof fn lemma_encoded_injective(a: &Self, b: &Self) {
    }

    fn serialize(self) -> (r: Vec<u8>) {
        self.to_vec()
    }

    fn deserialize(v: Vec<u8>) -> (r: Result<Self, CodecError>) {
        Digest::from_bytes(v)
    }
}

} // verus!
