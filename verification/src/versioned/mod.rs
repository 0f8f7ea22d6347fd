use vstd::prelude::*;

use crate::error::KvError;

mod kvdb;
pub mod transactional;

pub use kvdb::VersionedKeyValueDB;
pub use kvdb::corrupt_at;
pub use kvdb::lemma_update_bumps_version;
pub use kvdb::stored_object;
pub use kvdb::table_decodable;
pub use kvdb::vpairs_decode_match;

verus! {

/// A value under optimistic versioning: the payload (`None` encodes a
/// tombstone) together with a per-key counter that only ever grows.
#[derive(Debug)]
pub struct VersionedObject {
    pub value: Option<Vec<u8>>,
    pub version: u64,
}

impl View for VersionedObject {
    type V = (Option<Seq<u8>>, u64);

    open spec fn view(&self) -> (Option<Seq<u8>>, u64) {
        (self.value.deep_view(), self.version)
    }
}

impl DeepView for VersionedObject {
    type V = (Option<Seq<u8>>, u64);

    open spec fn deep_view(&self) -> (Option<Seq<u8>>, u64) {
        self.view()
    }
}

impl VersionedObject {
    /// A copy of this object, equal to it in view.
    pub fn duplicate(&self) -> (r: Self)
        ensures
            r@ == self@,
    {
        let value = match &self.value {
            Some(v) => {
                let c = crate::smap::bytes_clone(v);
                proof {
                    assert(c.deep_view() =~= v.deep_view());
                }
                Some(c)
            },
            None => None,
        };
        VersionedObject { value, version: self.version }
    }
}

impl PartialEq for VersionedObject {
    fn eq(&self, other: &VersionedObject) -> (r: bool) {
        let values_equal = match (&self.value, &other.value) {
            (Some(a), Some(b)) => {
                let e = crate::strutil::bytes_eq(a, b);
                proof {
                    assert(a.deep_view() =~= a@);
                    assert(b.deep_view() =~= b@);
                    if a@ == b@ {
                        assert(a.deep_view() == b.deep_view());
                    }
                }
                e
            },
            (None, None) => true,
            _ => false,
        };
        values_equal && self.version == other.version
    }
}

impl vstd::std_specs::cmp::PartialEqSpecImpl for VersionedObject {
    open spec fn obeys_eq_spec() -> bool {
        true
    }

    open spec fn eq_spec(&self, other: &VersionedObject) -> bool {
        self@ == other@
    }
}

impl Eq for VersionedObject {

}

/// The little-endian bytes of a version counter.
pub open spec fn u64_le_bytes(v: u64) -> Seq<u8> {
    seq![
        v as u8,
        (v >> 8) as u8,
        (v >> 16) as u8,
        (v >> 24) as u8,
        (v >> 32) as u8,
        (v >> 40) as u8,
        (v >> 48) as u8,
        (v >> 56) as u8,
    ]
}

/// The counter eight little-endian bytes hold.
pub open spec fn u64_of_le(s: Seq<u8>) -> u64
    recommends
        s.len() == 8,
{
    (s[0] as u64) | ((s[1] as u64) << 8) | ((s[2] as u64) << 16) | ((s[3] as u64) << 24) | ((
    s[4] as u64) << 32) | ((s[5] as u64) << 40) | ((s[6] as u64) << 48) | ((s[7] as u64) << 56)
}

/// The little-endian bytes of a payload length.
pub open spec fn u32_le_bytes(v: u32) -> Seq<u8> {
    seq![v as u8, (v >> 8) as u8, (v >> 16) as u8, (v >> 24) as u8]
}

/// The length four little-endian bytes hold.
pub open spec fn u32_of_le(s: Seq<u8>) -> u32
    recommends
        s.len() == 4,
{
    (s[0] as u32) | ((s[1] as u32) << 8) | ((s[2] as u32) << 16) | ((s[3] as u32) << 24)
}

/// The byte encoding of a versioned object: a tag for presence, the version
/// in eight little-endian bytes, and for a present payload its length in
/// four bytes followed by the payload itself.
pub open spec fn spec_encode(value: Option<Seq<u8>>, version: u64) -> Seq<u8> {
    match value {
        None => seq![0u8] + u64_le_bytes(version),
        Some(v) => seq![1u8] + u64_le_bytes(version) + u32_le_bytes(v.len() as u32) + v,
    }
}

/// What a byte string decodes to, if anything: bytes shorter than a tag and
/// a version, an unknown tag, or a payload shorter than its declared length
/// decode to nothing. Trailing bytes beyond the declared payload are
/// tolerated.
pub open spec fn spec_decode(s: Seq<u8>) -> Option<(Option<Seq<u8>>, u64)> {
    if s.len() < 9 {
        None
    } else {
        let version = u64_of_le(s.subrange(1, 9));
        if s[0] == 0 {
            Some((None, version))
        } else if s[0] == 1 {
            if s.len() < 13 {
                None
            } else {
                let l = u32_of_le(s.subrange(9, 13)) as int;
                if s.len() - 13 < l {
                    None
                } else {
                    Some((Some(s.subrange(13, 13 + l)), version))
                }
            }
        } else {
            None
        }
    }
}

/// Encode a versioned object. The payload length must fit the four-byte
/// length field.
pub fn encode(obj: &VersionedObject) -> (r: Vec<u8>)
    requires
        obj@.0 is Some ==> (obj@.0->0).len() <= u32::MAX,
    ensures
        r@ == spec_encode(obj@.0, obj@.1),
        r.deep_view() == spec_encode(obj@.0, obj@.1),
{
    let mut buf: Vec<u8> = Vec::new();
    match &obj.value {
        None => {
            buf.push(0u8);
            push_u64_le(&mut buf, obj.version);
            proof {
                assert(buf@ =~= spec_encode(obj@.0, obj@.1));
            }
        },
        Some(v) => {
            buf.push(1u8);
            push_u64_le(&mut buf, obj.version);
            proof {
                assert(v.deep_view() =~= v@);
            }
            let len32: u32 = v.len() as u32;
            push_u32_le(&mut buf, len32);
            buf.extend_from_slice(v.as_slice());
            proof {
                assert(buf@ =~= spec_encode(obj@.0, obj@.1));
            }
        },
    }
    proof {
        assert(buf.deep_view() =~= buf@);
    }
    buf
}

/// Append a version counter in little-endian order.
fn push_u64_le(buf: &mut Vec<u8>, v: u64)
    ensures
        final(buf)@ == old(buf)@ + u64_le_bytes(v),
{
    buf.push(#[verifier::truncate] (v as u8));
    buf.push(#[verifier::truncate] ((v >> 8) as u8));
    buf.push(#[verifier::truncate] ((v >> 16) as u8));
    buf.push(#[verifier::truncate] ((v >> 24) as u8));
    buf.push(#[verifier::truncate] ((v >> 32) as u8));
    buf.push(#[verifier::truncate] ((v >> 40) as u8));
    buf.push(#[verifier::truncate] ((v >> 48) as u8));
    buf.push(#[verifier::truncate] ((v >> 56) as u8));
    proof {
        assert(final(buf)@ =~= old(buf)@ + u64_le_bytes(v));
    }
}

/// Append a payload length in little-endian order.
fn push_u32_le(buf: &mut Vec<u8>, v: u32)
    ensures
        final(buf)@ == old(buf)@ + u32_le_bytes(v),
{
    buf.push(#[verifier::truncate] (v as u8));
    buf.push(#[verifier::truncate] ((v >> 8) as u8));
    buf.push(#[verifier::truncate] ((v >> 16) as u8));
    buf.push(#[verifier::truncate] ((v >> 24) as u8));
    proof {
        assert(final(buf)@ =~= old(buf)@ + u32_le_bytes(v));
    }
}

/// Decode a byte string into a versioned object; bytes that no encoding
/// produces are malformed data.
pub fn decode(bytes: &[u8]) -> (r: Result<VersionedObject, KvError>)
    ensures
        match spec_decode(bytes@) {
            Some(p) => r is Ok && (r->Ok_0)@ == p,
            None => r == Err::<VersionedObject, KvError>(KvError::InvalidData),
        },
{
    let n = bytes.len();
    if n < 9 {
        return Err(KvError::InvalidData);
    }
    let version: u64 = (bytes[1] as u64) | ((bytes[2] as u64) << 8) | ((bytes[3] as u64) << 16) | ((
    bytes[4] as u64) << 24) | ((bytes[5] as u64) << 32) | ((bytes[6] as u64) << 40) | ((
    bytes[7] as u64) << 48) | ((bytes[8] as u64) << 56);
    proof {
        let vs = bytes@.subrange(1, 9);
        assert(vs[0] == bytes@[1] && vs[1] == bytes@[2] && vs[2] == bytes@[3] && vs[3] == bytes@[4]
            && vs[4] == bytes@[5] && vs[5] == bytes@[6] && vs[6] == bytes@[7] && vs[7]
            == bytes@[8]);
    }
    let tag = bytes[0];
    if tag == 0 {
        let obj = VersionedObject { value: None, version };
        proof {
            assert(obj@ == spec_decode(bytes@)->0);
        }
        return Ok(obj);
    }
    if tag != 1 {
        return Err(KvError::InvalidData);
    }
    if n < 13 {
        return Err(KvError::InvalidData);
    }
    let len32: u32 = (bytes[9] as u32) | ((bytes[10] as u32) << 8) | ((bytes[11] as u32) << 16) | ((
    bytes[12] as u32) << 24);
    proof {
        let ls = bytes@.subrange(9, 13);
        assert(ls[0] == bytes@[9] && ls[1] == bytes@[10] && ls[2] == bytes@[11] && ls[3]
            == bytes@[12]);
    }
    if ((n - 13) as u64) < (len32 as u64) {
        return Err(KvError::InvalidData);
    }
    let len: usize = len32 as usize;
    proof {
        assert(13 + len <= bytes@.len());
    }
    let mut value: Vec<u8> = Vec::new();
    let mut i: usize = 0;
    while i < len
        invariant
            i <= len,
            n == bytes@.len(),
            13 + len <= n,
            value@ == bytes@.subrange(13, 13 + i as int),
        decreases len - i,
    {
        value.push(bytes[13 + i]);
        proof {
            assert(value@ =~= bytes@.subrange(13, 13 + (i + 1) as int));
        }
        i = i + 1;
    }
    let obj = VersionedObject { value: Some(value), version };
    proof {
        assert(obj@.0 == (spec_decode(bytes@)->0).0);
        assert(obj@ == spec_decode(bytes@)->0);
    }
    Ok(obj)
}

/// Round trip of the version counter encoding.
pub proof fn lemma_u64_le_roundtrip(v: u64)
    ensures
        u64_of_le(u64_le_bytes(v)) == v,
{
    let s = u64_le_bytes(v);
    assert((v as u8) as u64 | (((v >> 8) as u8) as u64) << 8 | (((v >> 16) as u8) as u64) << 16 | ((
    (v >> 24) as u8) as u64) << 24 | (((v >> 32) as u8) as u64) << 32 | (((v >> 40) as u8) as u64)
        << 40 | (((v >> 48) as u8) as u64) << 48 | (((v >> 56) as u8) as u64) << 56 == v)
        by (bit_vector);
}

/// Round trip of the payload length encoding.
pub proof fn lemma_u32_le_roundtrip(v: u32)
    ensures
        u32_of_le(u32_le_bytes(v)) == v,
{
    let s = u32_le_bytes(v);
    assert((v as u8) as u32 | (((v >> 8) as u8) as u32) << 8 | (((v >> 16) as u8) as u32) << 16 | ((
    (v >> 24) as u8) as u32) << 24 == v) by (bit_vector);
}

/// Round trip of the versioned-object codec: decoding an encoding gives the
/// object back, for every payload that fits the length field.
pub proof fn lemma_codec_roundtrip(value: Option<Seq<u8>>, version: u64)
    requires
        value is Some ==> (value->0).len() <= u32::MAX,
    ensures
        spec_decode(spec_encode(value, version)) == Some((value, version)),
{
    let s = spec_encode(value, version);
    match value {
        None => {
            assert(s.len() == 9);
            assert(s[0] == 0);
            assert(s.subrange(1, 9) =~= u64_le_bytes(version));
            lemma_u64_le_roundtrip(version);
        },
        Some(v) => {
            assert(s.len() == 13 + v.len());
            assert(s[0] == 1);
            assert(s.subrange(1, 9) =~= u64_le_bytes(version));
            lemma_u64_le_roundtrip(version);
            assert(s.subrange(9, 13) =~= u32_le_bytes(v.len() as u32));
            lemma_u32_le_roundtrip(v.len() as u32);
            assert(s.subrange(13, 13 + v.len() as int) =~= v);
        },
    }
}

} // verus!
