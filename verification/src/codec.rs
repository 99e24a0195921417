//! Value codec: fixed-width big-endian integers and byte-vector helpers.
//!
//! Every value stored in the keyspace is a plain byte vector; this module
//! gives the encodings their mathematical form (`be16`, `be32`, `be64`) and
//! proves the encode/decode round trips.

use vstd::prelude::*;

verus! {

/// Why a stored byte value failed to decode.
#[derive(Debug, Clone, Copy, PartialEq, Eq, Structural)]
pub enum CodecError {
    /// The byte length does not match the fixed width the type expects.
    MalformedValue,
    /// An externally-framed message buffer does not parse.
    FramingError,
}

/// Big-endian encoding of a 16-bit unsigned integer.
pub open spec fn be16(x: u16) -> Seq<u8> {
    seq![(x >> 8) as u8, x as u8]
}

/// Big-endian encoding of a 32-bit unsigned integer.
pub open spec fn be32(x: u32) -> Seq<u8> {
    seq![(x >> 24) as u8, (x >> 16) as u8, (x >> 8) as u8, x as u8]
}

/// Big-endian encoding of a 64-bit unsigned integer.
pub open spec fn be64(x: u64) -> Seq<u8> {
    seq![
        (x >> 56) as u8,
        (x >> 48) as u8,
        (x >> 40) as u8,
        (x >> 32) as u8,
        (x >> 24) as u8,
        (x >> 16) as u8,
        (x >> 8) as u8,
        x as u8,
    ]
}

/// The 32-bit value a 4-byte big-endian sequence denotes.
pub open spec fn be32_val(s: Seq<u8>) -> u32
    recommends
        s.len() == 4,
{
    (((s[0] as u32) << 24) | ((s[1] as u32) << 16) | ((s[2] as u32) << 8) | (s[3] as u32)) as u32
}

/// The 64-bit value an 8-byte big-endian sequence denotes.
pub open spec fn be64_val(s: Seq<u8>) -> u64
    recommends
        s.len() == 8,
{
    (((s[0] as u64) << 56) | ((s[1] as u64) << 48) | ((s[2] as u64) << 40) | ((s[3] as u64) << 32)
        | ((s[4] as u64) << 24) | ((s[5] as u64) << 16) | ((s[6] as u64) << 8) | (s[7] as u64)) as u64
}

pub proof fn lemma_be16_injective(x: u16, y: u16)
    requires
        be16(x) == be16(y),
    ensures
        x == y,
{
    assert(be16(x)[0] == be16(y)[0] && be16(x)[1] == be16(y)[1]);
    assert(((x >> 8) as u8 == (y >> 8) as u8 && x as u8 == y as u8) ==> x == y) by (bit_vector);
}

pub proof fn lemma_be32_round_trip(x: u32)
    ensures
        be32_val(be32(x)) == x,
{
    assert(((((x >> 24) as u8) as u32) << 24 | (((x >> 16) as u8) as u32) << 16
        | (((x >> 8) as u8) as u32) << 8 | ((x as u8) as u32)) as u32 == x) by (bit_vector);
}

pub proof fn lemma_be32_injective(x: u32, y: u32)
    requires
        be32(x) == be32(y),
    ensures
        x == y,
{
    lemma_be32_round_trip(x);
    lemma_be32_round_trip(y);
}

pub proof fn lemma_be64_round_trip(x: u64)
    ensures
        be64_val(be64(x)) == x,
{
    assert(((((x >> 56) as u8) as u64) << 56 | (((x >> 48) as u8) as u64) << 48
        | (((x >> 40) as u8) as u64) << 40 | (((x >> 32) as u8) as u64) << 32
        | (((x >> 24) as u8) as u64) << 24 | (((x >> 16) as u8) as u64) << 16
        | (((x >> 8) as u8) as u64) << 8 | ((x as u8) as u64)) as u64 == x) by (bit_vector);
}

/// Every 4-byte sequence is the big-endian form of the value it denotes.
pub proof fn lemma_be32_print_parse(s: Seq<u8>)
    requires
        s.len() == 4,
    ensures
        be32(be32_val(s)) == s,
{
    let a = s[0];
    let b = s[1];
    let c = s[2];
    let d = s[3];
    let w = be32_val(s);
    assert((w >> 24) as u8 == a && (w >> 16) as u8 == b && (w >> 8) as u8 == c && w as u8 == d)
        by (bit_vector)
        requires
            w == (((a as u32) << 24) | ((b as u32) << 16) | ((c as u32) << 8) | (d as u32)) as u32,
    ;
    assert(be32(w) =~= s);
}

/// Every 8-byte sequence is the big-endian form of the value it denotes.
pub proof fn lemma_be64_print_parse(s: Seq<u8>)
    requires
        s.len() == 8,
    ensures
        be64(be64_val(s)) == s,
{
    let b0 = s[0];
    let b1 = s[1];
    let b2 = s[2];
    let b3 = s[3];
    let b4 = s[4];
    let b5 = s[5];
    let b6 = s[6];
    let b7 = s[7];
    let w = be64_val(s);
    assert((w >> 56) as u8 == b0 && (w >> 48) as u8 == b1 && (w >> 40) as u8 == b2 && (w >> 32) as u8
        == b3 && (w >> 24) as u8 == b4 && (w >> 16) as u8 == b5 && (w >> 8) as u8 == b6
        && w as u8 == b7)
        by (bit_vector)
        requires
            w == (((b0 as u64) << 56) | ((b1 as u64) << 48) | ((b2 as u64) << 40) | ((b3 as u64)
                << 32) | ((b4 as u64) << 24) | ((b5 as u64) << 16) | ((b6 as u64) << 8)
                | (b7 as u64)) as u64,
    ;
    assert(be64(w) =~= s);
}

pub proof fn lemma_be64_injective(x: u64, y: u64)
    requires
        be64(x) == be64(y),
    ensures
        x == y,
{
    lemma_be64_round_trip(x);
    lemma_be64_round_trip(y);
}

/// Appends the big-endian bytes of `x` to `out`.
pub fn push_be16(out: &mut Vec<u8>, x: u16)
    ensures
        final(out)@ == old(out)@ + be16(x),
{
    out.push((x >> 8) as u8);
    out.push(x as u8);
    proof {
        assert(out@ =~= old(out)@ + be16(x));
    }
}

/// Appends the big-endian bytes of `x` to `out`.
pub fn push_be32(out: &mut Vec<u8>, x: u32)
    ensures
        final(out)@ == old(out)@ + be32(x),
{
    out.push((x >> 24) as u8);
    out.push((x >> 16) as u8);
    out.push((x >> 8) as u8);
    out.push(x as u8);
    proof {
        assert(out@ =~= old(out)@ + be32(x));
    }
}

/// Appends the big-endian bytes of `x` to `out`.
pub fn push_be64(out: &mut Vec<u8>, x: u64)
    ensures
        final(out)@ == old(out)@ + be64(x),
{
    out.push((x >> 56) as u8);
    out.push((x >> 48) as u8);
    out.push((x >> 40) as u8);
    out.push((x >> 32) as u8);
    out.push((x >> 24) as u8);
    out.push((x >> 16) as u8);
    out.push((x >> 8) as u8);
    out.push(x as u8);
    proof {
        assert(out@ =~= old(out)@ + be64(x));
    }
}

/// The 4-byte big-endian encoding of a 32-bit unsigned integer.
pub fn encode_u32(x: u32) -> (r: Vec<u8>)
    ensures
        r@ == be32(x),
{
    let mut out: Vec<u8> = Vec::new();
    push_be32(&mut out, x);
    proof {
        assert(out@ =~= be32(x));
    }
    out
}

/// The 8-byte big-endian encoding of a 64-bit unsigned integer.
pub fn encode_u64(x: u64) -> (r: Vec<u8>)
    ensures
        r@ == be64(x),
{
    let mut out: Vec<u8> = Vec::new();
    push_be64(&mut out, x);
    proof {
        assert(out@ =~= be64(x));
    }
    out
}

/// Reads a 32-bit big-endian integer from the bytes of `v` starting at `at`.
pub fn read_be32(v: &Vec<u8>, at: usize) -> (r: u32)
    requires
        at + 4 <= v@.len(),
    ensures
        r == be32_val(v@.subrange(at as int, at + 4)),
{
    let n = v.len();
    proof {
        assert(at + 4 <= n);
    }
    let r = ((v[at] as u32) << 24) | ((v[at + 1] as u32) << 16) | ((v[at + 2] as u32) << 8)
        | (v[at + 3] as u32);
    proof {
        let s = v@.subrange(at as int, at + 4);
        assert(s[0] == v@[at as int] && s[1] == v@[at as int + 1] && s[2] == v@[at as int + 2]
            && s[3] == v@[at as int + 3]);
    }
    r
}

/// Reads a 64-bit big-endian integer from the bytes of `v` starting at `at`.
pub fn read_be64(v: &Vec<u8>, at: usize) -> (r: u64)
    requires
        at + 8 <= v@.len(),
    ensures
        r == be64_val(v@.subrange(at as int, at + 8)),
{
    let n = v.len();
    proof {
        assert(at + 8 <= n);
    }
    let r = ((v[at] as u64) << 56) | ((v[at + 1] as u64) << 48) | ((v[at + 2] as u64) << 40)
        | ((v[at + 3] as u64) << 32) | ((v[at + 4] as u64) << 24) | ((v[at + 5] as u64) << 16)
        | ((v[at + 6] as u64) << 8) | (v[at + 7] as u64);
    proof {
        let s = v@.subrange(at as int, at + 8);
        assert(s[0] == v@[at as int] && s[1] == v@[at as int + 1] && s[2] == v@[at as int + 2]
            && s[3] == v@[at as int + 3] && s[4] == v@[at as int + 4] && s[5] == v@[at as int + 5]
            && s[6] == v@[at as int + 6] && s[7] == v@[at as int + 7]);
    }
    r
}

/// Decodes a fixed-width 32-bit unsigned integer; the byte length must be
/// exactly four.
pub fn decode_u32(v: &Vec<u8>) -> (r: Result<u32, CodecError>)
    ensures
        v@.len() == 4 ==> r == Ok::<u32, CodecError>(be32_val(v@)),
        v@.len() != 4 ==> r == Err::<u32, CodecError>(CodecError::MalformedValue),
{
    if v.len() != 4 {
        return Err(CodecError::MalformedValue);
    }
    let r = read_be32(v, 0);
    proof {
        assert(v@.subrange(0, 4) =~= v@);
    }
    Ok(r)
}

/// Decodes a fixed-width 64-bit unsigned integer; the byte length must be
/// exactly eight.
pub fn decode_u64(v: &Vec<u8>) -> (r: Result<u64, CodecError>)
    ensures
        v@.len() == 8 ==> r == Ok::<u64, CodecError>(be64_val(v@)),
        v@.len() != 8 ==> r == Err::<u64, CodecError>(CodecError::MalformedValue),
{
    if v.len() != 8 {
        return Err(CodecError::MalformedValue);
    }
    let r = read_be64(v, 0);
    proof {
        assert(v@.subrange(0, 8) =~= v@);
    }
    Ok(r)
}

/// Copies `v[from..to]` into a fresh vector.
pub fn subvec(v: &Vec<u8>, from: usize, to: usize) -> (r: Vec<u8>)
    requires
        from <= to,
        to <= v@.len(),
    ensures
        r@ == v@.subrange(from as int, to as int),
{
    let mut r: Vec<u8> = Vec::new();
    let mut i: usize = from;
    while i < to
        invariant
            from <= i <= to,
            to <= v@.len(),
            r@ == v@.subrange(from as int, i as int),
        decreases to - i,
    {
        r.push(v[i]);
        proof {
            assert(v@.subrange(from as int, i + 1) =~= v@.subrange(from as int, i as int).push(
                v@[i as int]));
        }
        i = i + 1;
    }
    r
}

/// Appends all bytes of `src` to `dst`.
pub fn extend_bytes(dst: &mut Vec<u8>, src: &Vec<u8>)
    ensures
        final(dst)@ == old(dst)@ + src@,
{
    let mut i: usize = 0;
    while i < src.len()
        invariant
            i <= src@.len(),
            dst@ == old(dst)@ + src@.subrange(0, i as int),
        decreases src@.len() - i,
    {
        dst.push(src[i]);
        proof {
            assert(src@.subrange(0, i + 1) =~= src@.subrange(0, i as int).push(src@[i as int]));
        }
        i = i + 1;
    }
    proof {
        assert(src@.subrange(0, src@.len() as int) =~= src@);
    }
}

/// Byte-for-byte equality of two vectors.
pub fn bytes_eq(a: &Vec<u8>, b: &Vec<u8>) -> (r: bool)
    ensures
        r <==> a@ == b@,
{
    if a.len() != b.len() {
        proof {
            assert(a@ != b@);
        }
        return false;
    }
    let mut i: usize = 0;
    while i < a.len()
        invariant
            i <= a@.len(),
            a@.len() == b@.len(),
            forall|j: int| 0 <= j < i ==> a@[j] == b@[j],
        decreases a@.len() - i,
    {
        if a[i] != b[i] {
            return false;
        }
        i = i + 1;
    }
    proof {
        assert(a@ =~= b@);
    }
    true
}

/// Whether `p` is a prefix of `k`.
pub open spec fn is_prefix(p: Seq<u8>, k: Seq<u8>) -> bool {
    p.len() <= k.len() && k.subrange(0, p.len() as int) == p
}

/// Byte-for-byte prefix test.
pub fn starts_with(k: &Vec<u8>, p: &Vec<u8>) -> (r: bool)
    ensures
        r <==> is_prefix(p@, k@),
{
    if p.len() > k.len() {
        return false;
    }
    let mut i: usize = 0;
    while i < p.len()
        invariant
            i <= p@.len(),
            p@.len() <= k@.len(),
            forall|j: int| 0 <= j < i ==> k@[j] == p@[j],
        decreases p@.len() - i,
    {
        if k[i] != p[i] {
            proof {
                assert(k@.subrange(0, p@.len() as int)[i as int] == k@[i as int]);
            }
            return false;
        }
        i = i + 1;
    }
    proof {
        assert(k@.subrange(0, p@.len() as int) =~= p@);
    }
    true
}

/// A value the schema can persist: a byte encoding together with its exact
/// mathematical statement and the proof that the encoding is injective.
pub trait StorageValue: Sized + DeepView {
    /// Validity bound for encodable values (the wire format's length limits).
    spec fn encodable(&self) -> bool;

    /// The byte encoding of the value.
    spec fn encoded(&self) -> Seq<u8>;

    /// The error a failed decode reports for this type.
    spec fn err_kind() -> CodecError;

    /// The encoding is injective on encodable values.
    proof fn lemma_encoded_injective(a: &Self, b: &Self)
        requires
            a.encodable(),
            b.encodable(),
            a.encoded() == b.encoded(),
        ensures
            a.deep_view() == b.deep_view(),
    ;

    /// Produces the byte encoding.
    fn serialize(self) -> (r: Vec<u8>)
        requires
            self.encodable(),
        ensures
            r@ == self.encoded(),
    ;

    /// Reconstructs a value from its byte encoding; fails exactly on byte
    /// sequences that no encodable value encodes to.
    fn deserialize(v: Vec<u8>) -> (r: Result<Self, CodecError>)
        ensures
            match r {
                Ok(x) => x.encodable() && x.encoded() == v@,
                Err(e) => e == Self::err_kind() && (forall|x: Self|
                    x.encodable() ==> #[trigger] x.encoded() != v@),
            },
    ;
}

/// Round trip: decoding the encoding of any encodable value yields the value
/// back. `d` stands for what `deserialize` returned on input `v.encoded()`;
/// its `requires` restates `deserialize`'s contract at that input.
pub proof fn lemma_round_trip<T: StorageValue>(v: T, d: Result<T, CodecError>)
    requires
        v.encodable(),
        match d {
            Ok(x) => x.encodable() && x.encoded() == v.encoded(),
            Err(e) => forall|x: T| x.encodable() ==> #[trigger] x.encoded() != v.encoded(),
        },
    ensures
        d is Ok,
        d->Ok_0.deep_view() == v.deep_view(),
{
    match d {
        Ok(x) => {
            T::lemma_encoded_injective(&x, &v);
        },
        Err(_) => {
            assert(v.encoded() == v.encoded());
        },
    }
}

} // verus!
