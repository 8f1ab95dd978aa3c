//! Membership filters over key and edge hashes, and their versioned binary
//! layout: the signing bytes that are hashed and signed, and the envelope
//! that is written to disk.
use crate::codec::{
    append_bytes, le_u16, le_u32, le_u64, lemma_u32s_len, lemma_u16_round_trip, lemma_u32_round_trip, lemma_u64_round_trip, push_u16_le,
    push_u32_le, push_u32s_le, push_u64_le, read_u16_le, read_u32_le, read_u32s_le, read_u64_le, u16_le,
    u32_le, u32s_le, u64_le,
};
use crate::descriptor::{ascending, lemma_ascending_unique, strict_total, Descriptor};
use crate::error::Error;
use crate::keys::{edge_hash, edge_hash_of, public_key_hash, xxh64_of};
use sha2::{Digest, Sha256};
use vstd::prelude::*;
use xorf::{BinaryFuse32, Filter as _, Xor32};

verus! {

/// The envelope version that new filters are written in.
pub const FILTTER_VERSION: u8 = 2;

/// Whether the XOR filter with these fields reports `key` as a member.
pub uninterp spec fn xor_contains_of(
    seed: u64,
    block_length: u64,
    fingerprints: Seq<u32>,
    key: u64,
) -> bool;

/// Whether the binary fuse filter with these fields reports `key` as a member.
pub uninterp spec fn fuse_contains_of(
    seed: u64,
    segment_length: u32,
    segment_length_mask: u32,
    segment_count_length: u32,
    fingerprints: Seq<u32>,
    key: u64,
) -> bool;

/// The seed, block length and fingerprints of the XOR filter that xorf
/// builds over a list of distinct keys.
pub uninterp spec fn xor_build_of(keys: Seq<u64>) -> (u64, u64, Seq<u32>);

/// The SHA-256 digest of a byte string.
pub uninterp spec fn sha256_of(data: Seq<u8>) -> Seq<u8>;

/// A classic XOR filter with 32-bit fingerprints.
pub struct XorFilter {
    pub seed: u64,
    pub block_length: u64,
    pub fingerprints: Vec<u32>,
}

/// A binary fuse filter with 32-bit fingerprints.
pub struct FuseFilter {
    pub seed: u64,
    pub segment_length: u32,
    pub segment_length_mask: u32,
    pub segment_count_length: u32,
    pub fingerprints: Vec<u32>,
}

/// The two kinds of membership filter.
pub enum FilterData {
    Xor(XorFilter),
    BFuse(FuseFilter),
}

/// A filter with its serial and, once signed, its aggregate signature.
pub struct Filter {
    pub version: u8,
    pub signature: Vec<u8>,
    pub serial: u32,
    pub filter: FilterData,
}

impl XorFilter {
    /// Every position a lookup can reach lies inside the fingerprints.
    pub open spec fn shape_ok(&self) -> bool {
        &&& self.block_length <= u32::MAX
        &&& self.fingerprints@.len() >= 3 * self.block_length
        &&& self.fingerprints@.len() >= 1
    }

    /// The layout of the filter: seed, block length and fingerprint count as
    /// little-endian `u64`s, then each fingerprint as a little-endian `u32`.
    pub open spec fn payload(&self) -> Seq<u8> {
        u64_le(self.seed) + u64_le(self.block_length) + u64_le(self.fingerprints@.len() as u64)
            + u32s_le(self.fingerprints@)
    }
}

impl FuseFilter {
    /// Every position a lookup can reach lies inside the fingerprints: the
    /// segment length is a power of two with its mask, and the fingerprints
    /// cover every segment plus two more.
    pub open spec fn shape_ok(&self) -> bool {
        &&& self.segment_length > 0
        &&& self.segment_length & (self.segment_length - 1) as u32 == 0
        &&& self.segment_length_mask == self.segment_length - 1
        &&& self.segment_count_length > 0
        &&& self.segment_count_length % self.segment_length == 0
        &&& self.segment_count_length + 2 * self.segment_length <= u32::MAX
        &&& self.fingerprints@.len() >= self.segment_count_length + 2 * self.segment_length
    }

    /// The layout of the filter: seed as a little-endian `u64`, the three
    /// segment fields as little-endian `u32`s, the fingerprint count as a
    /// little-endian `u64`, then each fingerprint as a little-endian `u32`.
    pub open spec fn payload(&self) -> Seq<u8> {
        u64_le(self.seed) + u32_le(self.segment_length) + u32_le(self.segment_length_mask) + u32_le(
            self.segment_count_length,
        ) + u64_le(self.fingerprints@.len() as u64) + u32s_le(self.fingerprints@)
    }
}

impl FilterData {
    /// Every lookup stays inside the fingerprints.
    pub open spec fn shape_ok(&self) -> bool {
        match self {
            FilterData::Xor(x) => x.shape_ok(),
            FilterData::BFuse(f) => f.shape_ok(),
        }
    }

    /// Whether the filter reports the hash `h` as a member.
    pub open spec fn contains_hash(&self, h: u64) -> bool {
        match self {
            FilterData::Xor(x) => xor_contains_of(x.seed, x.block_length, x.fingerprints@, h),
            FilterData::BFuse(f) => fuse_contains_of(
                f.seed,
                f.segment_length,
                f.segment_length_mask,
                f.segment_count_length,
                f.fingerprints@,
                h,
            ),
        }
    }

    /// Whether the filter can be written in the given version: version 1
    /// holds only the XOR filter, version 2 either kind.
    pub open spec fn encodable(&self, version: u8) -> bool {
        version == 2 || (version == 1 && self is Xor)
    }

    /// The filter's bytes in the given version: the bare XOR filter in
    /// version 1; in version 2 a little-endian `u32` tag (0 for XOR, 1 for
    /// binary fuse) before the filter.
    pub open spec fn payload(&self, version: u8) -> Seq<u8> {
        match self {
            FilterData::Xor(x) => if version == 1 {
                x.payload()
            } else {
                u32_le(0) + x.payload()
            },
            FilterData::BFuse(f) => u32_le(1) + f.payload(),
        }
    }

    /// Whether the filter reports the hash as a member.
    pub fn contains(&self, hash: &u64) -> (r: bool)
        requires
            self.shape_ok(),
        ensures
            r == self.contains_hash(*hash),
    {
        match self {
            FilterData::Xor(x) => xor_contains(x, *hash),
            FilterData::BFuse(f) => fuse_contains(f, *hash),
        }
    }

    /// The number of fingerprints.
    pub fn len(&self) -> (r: usize)
        ensures
            r == match self {
                FilterData::Xor(x) => x.fingerprints@.len(),
                FilterData::BFuse(f) => f.fingerprints@.len(),
            },
    {
        match self {
            FilterData::Xor(x) => x.fingerprints.len(),
            FilterData::BFuse(f) => f.fingerprints.len(),
        }
    }

    /// The filter's bytes in the given version.
    pub fn to_signing_bytes(&self, version: u8) -> (r: Result<Vec<u8>, Error>)
        ensures
            match r {
                Ok(b) => self.encodable(version) && b@ == self.payload(version),
                Err(e) => !self.encodable(version) && e == Error::UnsupportedVersion,
            },
    {
        if !(version == 2 || (version == 1 && matches!(self, FilterData::Xor(_)))) {
            return Err(Error::UnsupportedVersion);
        }
        let mut out: Vec<u8> = Vec::new();
        self.write_payload(version, &mut out);
        assert(out@ =~= self.payload(version));
        Ok(out)
    }

    /// Reads a filter written in the given version from `data[pos..]`, which
    /// it must fill exactly.
    pub fn from_signing_bytes_at(data: &[u8], pos: usize, version: u8) -> (r: Result<
        FilterData,
        Error,
    >)
        requires
            pos <= data@.len(),
        ensures
            match r {
                Ok(fd) => fd.shape_ok() && fd.encodable(version) && fd.payload(version)
                    == data@.subrange(pos as int, data@.len() as int),
                Err(e) => e == Error::UnsupportedVersion && version != 1 && version != 2 || e
                    == Error::Decode && (version == 1 || version == 2),
            },
            (exists|fd: FilterData|
                fd.shape_ok() && fd.encodable(version) && fd.payload(version) == data@.subrange(
                    pos as int,
                    data@.len() as int,
                )) ==> r is Ok,
    {
        proof {
            lemma_payload_decodable(data@, pos as int, version);
        }
        if version == 1 {
            match decode_xor(data, pos) {
                Some(x) => Ok(FilterData::Xor(x)),
                None => Err(Error::Decode),
            }
        } else if version == 2 {
            if data.len() - pos < 4 {
                return Err(Error::Decode);
            }
            let tag = read_u32_le(data, pos);
            proof {
                lemma_u32_round_trip(tag, data@, pos as int);
                assert(data@.subrange(pos as int, data@.len() as int) =~= data@.subrange(
                    pos as int,
                    pos + 4,
                ) + data@.subrange(pos + 4, data@.len() as int));
            }
            if tag == 0 {
                match decode_xor(data, pos + 4) {
                    Some(x) => Ok(FilterData::Xor(x)),
                    None => Err(Error::Decode),
                }
            } else if tag == 1 {
                match decode_fuse(data, pos + 4) {
                    Some(f) => Ok(FilterData::BFuse(f)),
                    None => Err(Error::Decode),
                }
            } else {
                Err(Error::Decode)
            }
        } else {
            Err(Error::UnsupportedVersion)
        }
    }

    /// Appends the filter's bytes in the given version.
    fn write_payload(&self, version: u8, out: &mut Vec<u8>)
        ensures
            final(out)@ == old(out)@ + self.payload(version),
    {
        match self {
            FilterData::Xor(x) => {
                if version != 1 {
                    push_u32_le(out, 0);
                }
                push_u64_le(out, x.seed);
                push_u64_le(out, x.block_length);
                push_u64_le(out, x.fingerprints.len() as u64);
                push_u32s_le(out, x.fingerprints.as_slice());
                assert(final(out)@ =~= old(out)@ + self.payload(version));
            },
            FilterData::BFuse(f) => {
                push_u32_le(out, 1);
                push_u64_le(out, f.seed);
                push_u32_le(out, f.segment_length);
                push_u32_le(out, f.segment_length_mask);
                push_u32_le(out, f.segment_count_length);
                push_u64_le(out, f.fingerprints.len() as u64);
                push_u32s_le(out, f.fingerprints.as_slice());
                assert(final(out)@ =~= old(out)@ + self.payload(version));
            },
        }
    }
}

/// Relies on `<xorf::Xor32 as xorf::Filter<u64>>::contains`, which depends on
/// the filter's fields and the key alone. The lookup reads fingerprints at
/// positions below `3 * block_length` (and at 0 when the block length is 0)
/// after multiplying a `u32` by the block length in a `u64`: the shape rules
/// out every input on which it would index out of bounds or overflow.
#[verifier::external_body]
fn xor_contains(x: &XorFilter, key: u64) -> (r: bool)
    requires
        x.shape_ok(),
    ensures
        r == xor_contains_of(x.seed, x.block_length, x.fingerprints@, key),
{
    let filter = Xor32 {
        seed: x.seed,
        block_length: x.block_length as usize,
        fingerprints: x.fingerprints.clone().into_boxed_slice(),
    };
    filter.contains(&key)
}

/// Relies on `<xorf::BinaryFuse32 as xorf::Filter<u64>>::contains`, which
/// depends on the filter's fields and the key alone. Its three positions are
/// `h0 < segment_count_length` plus none, one and two segment lengths, each
/// with low bits flipped under the mask; with a power-of-two segment length,
/// its mask, and whole segments, they stay below `segment_count_length + 2 *
/// segment_length` and the `u32` sums do not overflow.
#[verifier::external_body]
fn fuse_contains(f: &FuseFilter, key: u64) -> (r: bool)
    requires
        f.shape_ok(),
    ensures
        r == fuse_contains_of(
            f.seed,
            f.segment_length,
            f.segment_length_mask,
            f.segment_count_length,
            f.fingerprints@,
            key,
        ),
{
    let filter = BinaryFuse32 {
        descriptor: xorf::Descriptor {
            seed: f.seed,
            segment_length: f.segment_length,
            segment_length_mask: f.segment_length_mask,
            segment_count_length: f.segment_count_length,
        },
        fingerprints: f.fingerprints.clone().into_boxed_slice(),
    };
    filter.contains(&key)
}

/// Relies on `xorf::Xor32::from(&Vec<u64>)`: built from distinct keys it
/// reports every one of them as a member (no false negatives). Its
/// fingerprints number `3 * block_length`, and the block length is a third of
/// `1.23 * n + 32` rounded down to a multiple of three: at least 10, and below
/// `u32::MAX` for fewer than 2^32 keys. The construction is deterministic
/// (its seed sequence starts from a fixed state), so the result depends on
/// the keys alone.
#[verifier::external_body]
fn build_xor(keys: &Vec<u64>) -> (r: XorFilter)
    requires
        keys@.len() < 0x1_0000_0000,
        forall|i: int, j: int| 0 <= i < j < keys@.len() ==> keys@[i] != keys@[j],
    ensures
        (r.seed, r.block_length, r.fingerprints@) == xor_build_of(keys@),
        r.fingerprints@.len() == 3 * r.block_length,
        1 <= r.block_length <= u32::MAX,
        forall|i: int|
            0 <= i < keys@.len() ==> xor_contains_of(
                r.seed,
                r.block_length,
                r.fingerprints@,
                #[trigger] keys@[i],
            ),
{
    let filter = Xor32::from(keys);
    XorFilter {
        seed: filter.seed,
        block_length: filter.block_length as u64,
        fingerprints: filter.fingerprints.to_vec(),
    }
}

/// Relies on `sha2::Sha256::digest`: the SHA-256 digest of the bytes, which
/// is 32 bytes long.
#[verifier::external_body]
fn sha256(data: &[u8]) -> (r: Vec<u8>)
    ensures
        r@ == sha256_of(data@),
        r@.len() == 32,
{
    Sha256::digest(data).to_vec()
}

/// Bytes that hold an XOR filter's layout from `pos` on pass every check of
/// `decode_xor`.
proof fn lemma_xor_decodable(s: Seq<u8>, pos: int, x: XorFilter)
    requires
        0 <= pos <= s.len(),
        s.len() <= usize::MAX,
        x.shape_ok(),
        x.payload() == s.subrange(pos, s.len() as int),
    ensures
        s.len() - pos >= 24,
        (s.len() - pos - 24) % 4 == 0,
        le_u64(s, pos + 16) == (s.len() - pos - 24) / 4,
        le_u64(s, pos + 8) == x.block_length,
        x.fingerprints@.len() == (s.len() - pos - 24) / 4,
{
    lemma_u32s_len(x.fingerprints@);
    let p = x.payload();
    assert(p.len() == s.len() - pos);
    assert forall|k: int| 0 <= k < p.len() implies s[pos + k] == #[trigger] p[k] by {
        assert(s.subrange(pos, s.len() as int)[k] == s[pos + k]);
    }
    lemma_u64_round_trip(x.block_length, s, pos + 8);
    lemma_u64_round_trip(x.fingerprints@.len() as u64, s, pos + 16);
    assert forall|k: int| 0 <= k < 8 implies s[pos + 8 + k] == #[trigger] u64_le(x.block_length)[k] by {
        assert(p[8 + k] == u64_le(x.block_length)[k]);
    }
    assert forall|k: int| 0 <= k < 8 implies s[pos + 16 + k] == #[trigger] u64_le(
        x.fingerprints@.len() as u64,
    )[k] by {
        assert(p[16 + k] == u64_le(x.fingerprints@.len() as u64)[k]);
    }
    assert(s.subrange(pos + 8, pos + 16) =~= u64_le(x.block_length));
    assert(s.subrange(pos + 16, pos + 24) =~= u64_le(x.fingerprints@.len() as u64));
    assert(le_u64(s, pos + 8) == le_u64(u64_le(x.block_length), 0));
    assert(le_u64(s, pos + 16) == le_u64(u64_le(x.fingerprints@.len() as u64), 0));
}

/// Bytes that hold a binary fuse filter's layout from `pos` on pass every
/// check of `decode_fuse`.
proof fn lemma_fuse_decodable(s: Seq<u8>, pos: int, f: FuseFilter)
    requires
        0 <= pos <= s.len(),
        s.len() <= usize::MAX,
        f.shape_ok(),
        f.payload() == s.subrange(pos, s.len() as int),
    ensures
        s.len() - pos >= 28,
        (s.len() - pos - 28) % 4 == 0,
        le_u64(s, pos + 20) == (s.len() - pos - 28) / 4,
        le_u32(s, pos + 8) == f.segment_length,
        le_u32(s, pos + 12) == f.segment_length_mask,
        le_u32(s, pos + 16) == f.segment_count_length,
        f.fingerprints@.len() == (s.len() - pos - 28) / 4,
{
    lemma_u32s_len(f.fingerprints@);
    let p = f.payload();
    assert(p.len() == s.len() - pos);
    assert forall|k: int| 0 <= k < p.len() implies s[pos + k] == #[trigger] p[k] by {
        assert(s.subrange(pos, s.len() as int)[k] == s[pos + k]);
    }
    lemma_u32_round_trip(f.segment_length, s, pos + 8);
    lemma_u32_round_trip(f.segment_length_mask, s, pos + 12);
    lemma_u32_round_trip(f.segment_count_length, s, pos + 16);
    lemma_u64_round_trip(f.fingerprints@.len() as u64, s, pos + 20);
    assert forall|k: int| 0 <= k < 4 implies s[pos + 8 + k] == #[trigger] u32_le(f.segment_length)[k] by {
        assert(p[8 + k] == u32_le(f.segment_length)[k]);
    }
    assert forall|k: int| 0 <= k < 4 implies s[pos + 12 + k] == #[trigger] u32_le(f.segment_length_mask)[k] by {
        assert(p[12 + k] == u32_le(f.segment_length_mask)[k]);
    }
    assert forall|k: int| 0 <= k < 4 implies s[pos + 16 + k] == #[trigger] u32_le(f.segment_count_length)[k] by {
        assert(p[16 + k] == u32_le(f.segment_count_length)[k]);
    }
    assert forall|k: int| 0 <= k < 8 implies s[pos + 20 + k] == #[trigger] u64_le(
        f.fingerprints@.len() as u64,
    )[k] by {
        assert(p[20 + k] == u64_le(f.fingerprints@.len() as u64)[k]);
    }
    assert(le_u32(s, pos + 8) == le_u32(u32_le(f.segment_length), 0));
    assert(le_u32(s, pos + 12) == le_u32(u32_le(f.segment_length_mask), 0));
    assert(le_u32(s, pos + 16) == le_u32(u32_le(f.segment_count_length), 0));
    assert(le_u64(s, pos + 20) == le_u64(u64_le(f.fingerprints@.len() as u64), 0));
}

/// Reads an XOR filter that fills `data[pos..]` exactly.
#[verifier::rlimit(40)]
fn decode_xor(data: &[u8], pos: usize) -> (r: Option<XorFilter>)
    requires
        pos <= data@.len(),
    ensures
        r matches Some(x) ==> x.shape_ok() && x.payload() == data@.subrange(
            pos as int,
            data@.len() as int,
        ),
        (exists|x: XorFilter| x.shape_ok() && x.payload() == data@.subrange(
            pos as int,
            data@.len() as int,
        )) ==> r is Some,
{
    let len = data.len();
    proof {
        if exists|x: XorFilter| x.shape_ok() && x.payload() == data@.subrange(
            pos as int,
            data@.len() as int,
        ) {
            let x = choose|x: XorFilter| x.shape_ok() && x.payload() == data@.subrange(
                pos as int,
                data@.len() as int,
            );
            lemma_xor_decodable(data@, pos as int, x);
        }
    }
    if len - pos < 24 {
        return None;
    }
    let seed = read_u64_le(data, pos);
    let block_length = read_u64_le(data, pos + 8);
    let count = read_u64_le(data, pos + 16);
    let rest = len - pos - 24;
    if rest % 4 != 0 || (rest / 4) as u64 != count {
        return None;
    }
    let n = rest / 4;
    if block_length > u32::MAX as u64 || (n as u64) < 3 * block_length || n == 0 {
        return None;
    }
    let fingerprints = read_u32s_le(data, pos + 24, n);
    let x = XorFilter { seed, block_length, fingerprints };
    proof {
        lemma_u64_round_trip(seed, data@, pos as int);
        lemma_u64_round_trip(block_length, data@, pos + 8);
        lemma_u64_round_trip(count, data@, pos + 16);
        let s = data@;
        assert(s.subrange(pos as int, len as int) =~= s.subrange(pos as int, pos + 8) + s.subrange(
            pos + 8,
            pos + 16,
        ) + s.subrange(pos + 16, pos + 24) + s.subrange(pos + 24, pos + 24 + 4 * n));
    }
    Some(x)
}

/// Reads a binary fuse filter that fills `data[pos..]` exactly.
#[verifier::rlimit(40)]
fn decode_fuse(data: &[u8], pos: usize) -> (r: Option<FuseFilter>)
    requires
        pos <= data@.len(),
    ensures
        r matches Some(f) ==> f.shape_ok() && f.payload() == data@.subrange(
            pos as int,
            data@.len() as int,
        ),
        (exists|f: FuseFilter| f.shape_ok() && f.payload() == data@.subrange(
            pos as int,
            data@.len() as int,
        )) ==> r is Some,
{
    let len = data.len();
    proof {
        if exists|f: FuseFilter| f.shape_ok() && f.payload() == data@.subrange(
            pos as int,
            data@.len() as int,
        ) {
            let f = choose|f: FuseFilter| f.shape_ok() && f.payload() == data@.subrange(
                pos as int,
                data@.len() as int,
            );
            lemma_fuse_decodable(data@, pos as int, f);
        }
    }
    if len - pos < 28 {
        return None;
    }
    let seed = read_u64_le(data, pos);
    let segment_length = read_u32_le(data, pos + 8);
    let segment_length_mask = read_u32_le(data, pos + 12);
    let segment_count_length = read_u32_le(data, pos + 16);
    let count = read_u64_le(data, pos + 20);
    let rest = len - pos - 28;
    if rest % 4 != 0 || (rest / 4) as u64 != count {
        return None;
    }
    let n = rest / 4;
    if segment_length == 0 || segment_length & (segment_length - 1) != 0 || segment_length_mask
        != segment_length - 1 || segment_count_length == 0 || segment_count_length % segment_length
        != 0 || segment_count_length as u64 + 2 * segment_length as u64 > u32::MAX as u64 || (n as u64)
        < segment_count_length as u64 + 2 * segment_length as u64 {
        return None;
    }
    let fingerprints = read_u32s_le(data, pos + 28, n);
    let f = FuseFilter {
        seed,
        segment_length,
        segment_length_mask,
        segment_count_length,
        fingerprints,
    };
    proof {
        lemma_u64_round_trip(seed, data@, pos as int);
        lemma_u32_round_trip(segment_length, data@, pos + 8);
        lemma_u32_round_trip(segment_length_mask, data@, pos + 12);
        lemma_u32_round_trip(segment_count_length, data@, pos + 16);
        lemma_u64_round_trip(count, data@, pos + 20);
        let s = data@;
        assert(s.subrange(pos as int, len as int) =~= s.subrange(pos as int, pos + 8) + s.subrange(
            pos + 8,
            pos + 12,
        ) + s.subrange(pos + 12, pos + 16) + s.subrange(pos + 16, pos + 20) + s.subrange(
            pos + 20,
            pos + 28,
        ) + s.subrange(pos + 28, pos + 28 + 4 * n));
    }
    Some(f)
}

/// What bytes that hold some filter's layout in `version` from `pos` on
/// look like to the decoder: the version is known, and after the tag (in
/// version 2) they hold an XOR or binary fuse filter's layout.
proof fn lemma_payload_decodable(s: Seq<u8>, pos: int, version: u8)
    requires
        0 <= pos <= s.len(),
    ensures
        (exists|fd: FilterData|
            fd.shape_ok() && fd.encodable(version) && fd.payload(version) == s.subrange(
                pos,
                s.len() as int,
            )) ==> {
            &&& version == 1 || version == 2
            &&& version == 1 ==> exists|x: XorFilter|
                x.shape_ok() && x.payload() == s.subrange(pos, s.len() as int)
            &&& version == 2 ==> s.len() - pos >= 4 && (le_u32(s, pos) == 0 || le_u32(s, pos) == 1)
            &&& version == 2 && le_u32(s, pos) == 0 ==> exists|x: XorFilter|
                x.shape_ok() && x.payload() == s.subrange(pos + 4, s.len() as int)
            &&& version == 2 && le_u32(s, pos) == 1 ==> exists|f: FuseFilter|
                f.shape_ok() && f.payload() == s.subrange(pos + 4, s.len() as int)
        },
{
    if exists|fd: FilterData|
        fd.shape_ok() && fd.encodable(version) && fd.payload(version) == s.subrange(
            pos,
            s.len() as int,
        ) {
        let fd = choose|fd: FilterData|
            fd.shape_ok() && fd.encodable(version) && fd.payload(version) == s.subrange(
                pos,
                s.len() as int,
            );
        match fd {
            FilterData::Xor(x) => {
                if version != 1 {
                    lemma_u32_then(s, pos, 0, x.payload());
                }
            },
            FilterData::BFuse(f) => {
                lemma_u32_then(s, pos, 1, f.payload());
            },
        }
    }
}

/// What an envelope of some encodable, well-shaped filter looks like to the
/// decoder.
proof fn lemma_envelope_decodable(s: Seq<u8>)
    ensures
        (exists|f: Filter| f.encodable() && f.filter.shape_ok() && f.envelope() == s) ==> {
            &&& s.len() >= 3
            &&& s[0] == 1 || s[0] == 2
            &&& s.len() - 3 >= le_u16(s, 1)
            &&& exists|g: Filter|
                g.version == s[0] && g.filter.shape_ok() && g.filter.encodable(s[0])
                    && g.signing_bytes() == s.subrange(3 + le_u16(s, 1), s.len() as int)
        },
{
    if exists|f: Filter| f.encodable() && f.filter.shape_ok() && f.envelope() == s {
        let f = choose|f: Filter| f.encodable() && f.filter.shape_ok() && f.envelope() == s;
        lemma_envelope_parts(s, f);
    }
}

/// A `u32` followed by other bytes: the `u32` reads back, and the rest follows it.
proof fn lemma_u32_then(s: Seq<u8>, pos: int, v: u32, rest: Seq<u8>)
    requires
        0 <= pos <= s.len(),
        s.subrange(pos, s.len() as int) == u32_le(v) + rest,
    ensures
        s.len() - pos >= 4,
        le_u32(s, pos) == v,
        s.subrange(pos + 4, s.len() as int) == rest,
{
    let p = u32_le(v) + rest;
    assert forall|k: int| 0 <= k < p.len() implies s[pos + k] == #[trigger] p[k] by {
        assert(s.subrange(pos, s.len() as int)[k] == s[pos + k]);
    }
    lemma_u32_round_trip(v, s, pos);
    assert(le_u32(s, pos) == le_u32(u32_le(v), 0));
    assert forall|k: int| 0 <= k < rest.len() implies s[pos + 4 + k] == #[trigger] rest[k] by {
        assert(p[4 + k] == rest[k]);
    }
    assert(s.subrange(pos + 4, s.len() as int) =~= rest);
}

/// The parts of an envelope read back as the filter's version, signature
/// length and signing bytes.
proof fn lemma_envelope_parts(s: Seq<u8>, f: Filter)
    requires
        f.encodable(),
        s == f.envelope(),
    ensures
        s.len() >= 3,
        s[0] == f.version,
        le_u16(s, 1) == f.signature@.len(),
        s.len() - 3 >= f.signature@.len(),
        s.subrange(3 + f.signature@.len() as int, s.len() as int) == f.signing_bytes(),
{
    let n = f.signature@.len();
    lemma_u16_round_trip(n as u16, s, 1);
    assert(s.subrange(1, 3) =~= u16_le(n as u16));
    assert(le_u16(s, 1) == le_u16(u16_le(n as u16), 0));
    assert(s.subrange(3 + n as int, s.len() as int) =~= f.signing_bytes());
}

/// Some node among the first `n` has a key that hashes to `h`.
pub open spec fn node_hash_in(d: Descriptor, h: u64, n: int) -> bool {
    exists|j: int| 0 <= j < n && xxh64_of((#[trigger] d.nodes@[j]).key@) == h
}

/// Some edge among the first `n` hashes to `h`.
pub open spec fn edge_hash_in(d: Descriptor, h: u64, n: int) -> bool {
    exists|j: int|
        0 <= j < n && edge_hash_of((#[trigger] d.edge_endpoints(j)).0, d.edge_endpoints(j).1) == h
}

/// The hashes a filter over the descriptor holds: one per node key, one per edge.
pub open spec fn hash_set(d: Descriptor) -> Set<u64> {
    Set::new(
        |h: u64|
            node_hash_in(d, h, d.nodes@.len() as int) || edge_hash_in(
                d,
                h,
                d.edge_list().len() as int,
            ),
    )
}

/// The hashes of a set, strictly ascending (each once).
pub open spec fn sorted_hashes(hs: Set<u64>) -> Seq<u64> {
    choose|s: Seq<u64>| strictly_increasing(s) && forall|h: u64| s.contains(h) <==> hs.contains(h)
}

/// The signing bytes of an unsigned version-2 XOR filter with the given
/// serial and built fields.
pub open spec fn xor_signing_bytes(serial: u32, built: (u64, u64, Seq<u32>)) -> Seq<u8> {
    u32_le(serial) + u32_le(0) + u64_le(built.0) + u64_le(built.1) + u64_le(built.2.len() as u64)
        + u32s_le(built.2)
}

/// The signing bytes of the filter that `from_descriptor` builds: the XOR
/// filter over the descriptor's hashes, sorted and each taken once.
pub open spec fn descriptor_signing_bytes(serial: u32, d: Descriptor) -> Seq<u8> {
    xor_signing_bytes(serial, xor_build_of(sorted_hashes(hash_set(d))))
}

/// Descriptors with the same hashes give the same signing bytes, whatever
/// the order, repetition or stored direction of their nodes and edges.
pub proof fn lemma_same_hashes_same_bytes(serial: u32, d1: Descriptor, d2: Descriptor)
    requires
        forall|h: u64| #[trigger] hash_set(d1).contains(h) <==> hash_set(d2).contains(h),
    ensures
        descriptor_signing_bytes(serial, d1) == descriptor_signing_bytes(serial, d2),
{
    assert(hash_set(d1) =~= hash_set(d2));
}

proof fn lemma_u64_strict_total()
    ensures
        strict_total(|a: u64, b: u64| a < b),
{
}

/// A strictly increasing list of exactly the hashes of a set is the one
/// `sorted_hashes` names.
proof fn lemma_sorted_hashes(s: Seq<u64>, hs: Set<u64>)
    requires
        strictly_increasing(s),
        forall|h: u64| s.contains(h) <==> hs.contains(h),
    ensures
        sorted_hashes(hs) == s,
{
    let c = sorted_hashes(hs);
    let lt = |a: u64, b: u64| a < b;
    lemma_u64_strict_total();
    assert(ascending(s, lt));
    assert(ascending(c, lt));
    lemma_ascending_unique(c, s, lt);
}

/// Whether a sequence of hashes is strictly increasing.
pub open spec fn strictly_increasing(s: Seq<u64>) -> bool {
    forall|i: int, j: int| 0 <= i < j < s.len() ==> s[i] < s[j]
}

/// Adds `h` to a strictly increasing list of hashes, where it belongs, unless
/// it is there already.
fn insert_sorted(v: &mut Vec<u64>, h: u64)
    requires
        strictly_increasing(old(v)@),
    ensures
        strictly_increasing(final(v)@),
        forall|x: u64| final(v)@.contains(x) <==> (old(v)@.contains(x) || x == h),
        final(v)@.len() <= old(v)@.len() + 1,
{
    let mut lo: usize = 0;
    let mut hi: usize = v.len();
    while lo < hi
        invariant
            lo <= hi <= v@.len(),
            v@ == old(v)@,
            strictly_increasing(v@),
            forall|i: int| 0 <= i < lo ==> v@[i] < h,
            forall|i: int| hi <= i < v@.len() ==> v@[i] > h,
        decreases hi - lo,
    {
        let mid = lo + (hi - lo) / 2;
        if v[mid] < h {
            lo = mid + 1;
        } else if v[mid] > h {
            hi = mid;
        } else {
            assert(v@[mid as int] == h);
            return;
        }
    }
    let ghost before = v@;
    v.insert(lo, h);
    proof {
        assert(v@ =~= before.subrange(0, lo as int) + seq![h] + before.subrange(
            lo as int,
            before.len() as int,
        ));
        assert forall|x: u64| v@.contains(x) <==> (before.contains(x) || x == h) by {
            if v@.contains(x) {
                let k = choose|k: int| 0 <= k < v@.len() && v@[k] == x;
                if k < lo {
                    assert(before[k] == x);
                } else if k > lo {
                    assert(before[k - 1] == x);
                }
            }
            if before.contains(x) {
                let k = choose|k: int| 0 <= k < before.len() && before[k] == x;
                if k < lo {
                    assert(v@[k] == x);
                } else {
                    assert(v@[k + 1] == x);
                }
            }
            if x == h {
                assert(v@[lo as int] == h);
            }
        }
    }
}

impl Filter {
    /// The bytes that are hashed and signed: the serial as a little-endian
    /// `u32`, then the filter in this filter's version.
    pub open spec fn signing_bytes(&self) -> Seq<u8> {
        u32_le(self.serial) + self.filter.payload(self.version)
    }

    /// The on-disk artifact: the version byte, the signature length as a
    /// little-endian `u16`, the signature, then the signing bytes.
    pub open spec fn envelope(&self) -> Seq<u8> {
        seq![self.version] + u16_le(self.signature@.len() as u16) + self.signature@
            + self.signing_bytes()
    }

    /// Whether the filter can be written: its version holds its kind of
    /// filter, and the signature length fits in two bytes.
    pub open spec fn encodable(&self) -> bool {
        self.filter.encodable(self.version) && self.signature@.len() <= u16::MAX
    }

    /// Whether the filter reports the key as a member.
    pub open spec fn contains_key(&self, key: Seq<u8>) -> bool {
        self.filter.contains_hash(xxh64_of(key))
    }

    /// Whether the filter reports the edge between the two keys as a member.
    pub open spec fn contains_edge_between(&self, a: Seq<u8>, b: Seq<u8>) -> bool {
        self.filter.contains_hash(edge_hash_of(a, b))
    }

    /// An unsigned filter in the current version.
    pub fn new(serial: u32, filter: FilterData) -> (r: Filter)
        ensures
            r.version == FILTTER_VERSION,
            r.serial == serial,
            r.signature@.len() == 0,
            r.filter == filter,
    {
        Filter { version: FILTTER_VERSION, signature: Vec::new(), serial, filter }
    }

    /// The number of fingerprints.
    pub fn len(&self) -> (r: usize)
        ensures
            r == match self.filter {
                FilterData::Xor(x) => x.fingerprints@.len(),
                FilterData::BFuse(f) => f.fingerprints@.len(),
            },
    {
        self.filter.len()
    }

    /// Whether the filter has no fingerprints.
    pub fn is_empty(&self) -> (r: bool)
        ensures
            r == (match self.filter {
                FilterData::Xor(x) => x.fingerprints@.len(),
                FilterData::BFuse(f) => f.fingerprints@.len(),
            } == 0),
    {
        self.filter.len() == 0
    }

    /// Builds an XOR filter over the hash of every node key and of every
    /// edge, in the current version, unsigned. Fails with `FilterBuild` when
    /// there is nothing to put in it.
    pub fn from_descriptor(serial: u32, descriptor: &Descriptor) -> (r: Result<Filter, Error>)
        requires
            descriptor.well_formed(),
            descriptor.nodes@.len() + descriptor.edge_list().len() < 0x1_0000_0000,
        ensures
            r is Ok <==> descriptor.nodes@.len() + descriptor.edge_list().len() > 0,
            r is Err ==> r == Err::<Filter, Error>(Error::FilterBuild),
            r matches Ok(f) ==> {
                &&& f.version == FILTTER_VERSION
                &&& f.serial == serial
                &&& f.signature@.len() == 0
                &&& f.filter is Xor
                &&& (f.filter->Xor_0.seed, f.filter->Xor_0.block_length, f.filter->Xor_0.fingerprints@)
                    == xor_build_of(sorted_hashes(hash_set(*descriptor)))
                &&& f.signing_bytes() == descriptor_signing_bytes(serial, *descriptor)
                &&& f.filter.shape_ok()
                &&& forall|i: int|
                    0 <= i < descriptor.nodes@.len() ==> f.contains_key(
                        (#[trigger] descriptor.nodes@[i]).key@,
                    )
                &&& forall|i: int|
                    0 <= i < descriptor.edge_list().len() ==> f.contains_edge_between(
                        (#[trigger] descriptor.edge_endpoints(i)).0,
                        descriptor.edge_endpoints(i).1,
                    )
            },
    {
        let mut hashes: Vec<u64> = Vec::new();
        let mut i: usize = 0;
        while i < descriptor.nodes.len()
            invariant
                i <= descriptor.nodes@.len(),
                strictly_increasing(hashes@),
                hashes@.len() <= i,
                forall|j: int|
                    0 <= j < i ==> hashes@.contains(
                        xxh64_of((#[trigger] descriptor.nodes@[j]).key@),
                    ),
                forall|h: u64| hashes@.contains(h) <==> node_hash_in(*descriptor, h, i as int),
            decreases descriptor.nodes@.len() - i,
        {
            let h = public_key_hash(descriptor.nodes[i].key.as_slice());
            insert_sorted(&mut hashes, h);
            proof {
                assert forall|x: u64| hashes@.contains(x) <==> node_hash_in(*descriptor, x, i + 1) by {
                    if node_hash_in(*descriptor, x, i + 1) {
                        let j = choose|j: int|
                            0 <= j < i + 1 && xxh64_of((#[trigger] descriptor.nodes@[j]).key@) == x;
                        if j < i {
                            assert(node_hash_in(*descriptor, x, i as int));
                        }
                    }
                    if x == h {
                        assert(xxh64_of(descriptor.nodes@[i as int].key@) == x);
                    }
                    if node_hash_in(*descriptor, x, i as int) {
                        let j = choose|j: int|
                            0 <= j < i && xxh64_of((#[trigger] descriptor.nodes@[j]).key@) == x;
                        assert(xxh64_of(descriptor.nodes@[j].key@) == x);
                    }
                }
            }
            i = i + 1;
        }
        let ghost node_count = descriptor.nodes@.len() as int;
        if let Some(edges) = &descriptor.edges {
            let mut j: usize = 0;
            while j < edges.edges.len()
                invariant
                    descriptor.edges == Some(*edges),
                    edges.well_formed(),
                    j <= edges.edges@.len(),
                    strictly_increasing(hashes@),
                    hashes@.len() <= node_count + j,
                    forall|k: int|
                        0 <= k < node_count ==> hashes@.contains(
                            xxh64_of((#[trigger] descriptor.nodes@[k]).key@),
                        ),
                    forall|k: int|
                        0 <= k < j ==> hashes@.contains(
                            edge_hash_of(
                                (#[trigger] edges.endpoints(k)).0,
                                edges.endpoints(k).1,
                            ),
                        ),
                    forall|h: u64|
                        hashes@.contains(h) <==> (node_hash_in(*descriptor, h, node_count)
                            || edge_hash_in(*descriptor, h, j as int)),
                decreases edges.edges@.len() - j,
            {
                let source = edges.edges[j].source as usize;
                let target = edges.edges[j].target as usize;
                let h = edge_hash(edges.keys[source].as_slice(), edges.keys[target].as_slice());
                insert_sorted(&mut hashes, h);
                proof {
                    assert(descriptor.edge_endpoints(j as int) == edges.endpoints(j as int));
                    assert forall|x: u64|
                        hashes@.contains(x) <==> (node_hash_in(*descriptor, x, node_count)
                            || edge_hash_in(*descriptor, x, j + 1)) by {
                        if edge_hash_in(*descriptor, x, j + 1) {
                            let k = choose|k: int|
                                0 <= k < j + 1 && edge_hash_of(
                                    (#[trigger] descriptor.edge_endpoints(k)).0,
                                    descriptor.edge_endpoints(k).1,
                                ) == x;
                            if k < j {
                                assert(edge_hash_in(*descriptor, x, j as int));
                            }
                        }
                        if x == h {
                            assert(edge_hash_of(
                                descriptor.edge_endpoints(j as int).0,
                                descriptor.edge_endpoints(j as int).1,
                            ) == x);
                        }
                        if edge_hash_in(*descriptor, x, j as int) {
                            let k = choose|k: int|
                                0 <= k < j && edge_hash_of(
                                    (#[trigger] descriptor.edge_endpoints(k)).0,
                                    descriptor.edge_endpoints(k).1,
                                ) == x;
                            assert(edge_hash_of(
                                descriptor.edge_endpoints(k).0,
                                descriptor.edge_endpoints(k).1,
                            ) == x);
                        }
                    }
                }
                j = j + 1;
            }
        }
        if hashes.len() == 0 {
            proof {
                if descriptor.nodes@.len() > 0 {
                    assert(hashes@.contains(xxh64_of(descriptor.nodes@[0].key@)));
                }
                if descriptor.edge_list().len() > 0 {
                    let e = descriptor.edges.unwrap();
                    assert(hashes@.contains(edge_hash_of(e.endpoints(0).0, e.endpoints(0).1)));
                }
            }
            return Err(Error::FilterBuild);
        }
        proof {
            assert forall|x: u64| hashes@.contains(x) <==> hash_set(*descriptor).contains(x) by {
                if descriptor.edges is None {
                    if edge_hash_in(*descriptor, x, descriptor.edge_list().len() as int) {
                        let k = choose|k: int|
                            0 <= k < descriptor.edge_list().len() && edge_hash_of(
                                (#[trigger] descriptor.edge_endpoints(k)).0,
                                descriptor.edge_endpoints(k).1,
                            ) == x;
                    }
                }
            }
            lemma_sorted_hashes(hashes@, hash_set(*descriptor));
        }
        let xor = build_xor(&hashes);
        let filter = Filter::new(serial, FilterData::Xor(xor));
        proof {
            lemma_u32s_len(xor.fingerprints@);
            assert(filter.signing_bytes() =~= descriptor_signing_bytes(serial, *descriptor));
            assert forall|k: int|
                0 <= k < descriptor.nodes@.len() implies filter.contains_key(
                (#[trigger] descriptor.nodes@[k]).key@,
            ) by {
                let h = xxh64_of(descriptor.nodes@[k].key@);
                assert(hashes@.contains(h));
                let m = choose|m: int| 0 <= m < hashes@.len() && hashes@[m] == h;
                assert(xor_contains_of(xor.seed, xor.block_length, xor.fingerprints@, hashes@[m]));
            }
            assert forall|k: int|
                0 <= k < descriptor.edge_list().len() implies filter.contains_edge_between(
                (#[trigger] descriptor.edge_endpoints(k)).0,
                descriptor.edge_endpoints(k).1,
            ) by {
                let e = descriptor.edges.unwrap();
                let h = edge_hash_of(e.endpoints(k).0, e.endpoints(k).1);
                assert(hashes@.contains(h));
                let m = choose|m: int| 0 <= m < hashes@.len() && hashes@[m] == h;
                assert(xor_contains_of(xor.seed, xor.block_length, xor.fingerprints@, hashes@[m]));
            }
        }
        Ok(filter)
    }

    /// The SHA-256 digest of the signing bytes: what a manifest records and
    /// what signers sign.
    pub fn hash(&self) -> (r: Result<Vec<u8>, Error>)
        ensures
            match r {
                Ok(h) => self.filter.encodable(self.version) && h@ == sha256_of(
                    self.signing_bytes(),
                ) && h@.len() == 32,
                Err(e) => !self.filter.encodable(self.version) && e == Error::UnsupportedVersion,
            },
    {
        let bytes = self.to_signing_bytes()?;
        Ok(sha256(bytes.as_slice()))
    }

    /// Whether the filter reports the key as a member.
    pub fn contains(&self, public_key: &[u8]) -> (r: bool)
        requires
            self.filter.shape_ok(),
        ensures
            r == self.contains_key(public_key@),
    {
        self.filter.contains(&public_key_hash(public_key))
    }

    /// Whether the filter reports the edge between the two keys as a member,
    /// whichever way round they are given.
    pub fn contains_edge(&self, source: &[u8], target: &[u8]) -> (r: bool)
        requires
            self.filter.shape_ok(),
        ensures
            r == self.contains_edge_between(source@, target@),
            r == self.contains_edge_between(target@, source@),
    {
        self.filter.contains(&edge_hash(source, target))
    }

    /// The serial followed by the filter in this filter's version.
    pub fn to_signing_bytes(&self) -> (r: Result<Vec<u8>, Error>)
        ensures
            match r {
                Ok(b) => self.filter.encodable(self.version) && b@ == self.signing_bytes(),
                Err(e) => !self.filter.encodable(self.version) && e == Error::UnsupportedVersion,
            },
    {
        let payload = self.filter.to_signing_bytes(self.version)?;
        let mut out: Vec<u8> = Vec::new();
        push_u32_le(&mut out, self.serial);
        append_bytes(&mut out, payload.as_slice());
        assert(out@ =~= self.signing_bytes());
        Ok(out)
    }

    /// Reads an unsigned filter of the given version from signing bytes,
    /// which it must use up exactly.
    pub fn from_signing_bytes(data: &[u8], version: u8) -> (r: Result<Filter, Error>)
        ensures
            match r {
                Ok(f) => f.version == version && f.signature@.len() == 0 && f.filter.shape_ok()
                    && f.filter.encodable(version) && f.signing_bytes() == data@,
                Err(e) => e == Error::UnsupportedVersion && version != 1 && version != 2 || e
                    == Error::Decode,
            },
            (version != 1 && version != 2) ==> r == Err::<Filter, Error>(Error::UnsupportedVersion),
            (exists|f: Filter|
                f.version == version && f.filter.shape_ok() && f.filter.encodable(version)
                    && f.signing_bytes() == data@) ==> r is Ok,
    {
        assert(data@.subrange(0, data@.len() as int) =~= data@);
        Filter::from_signing_bytes_at(data, 0, version)
    }

    /// Reads an unsigned filter of the given version from `data[pos..]`.
    fn from_signing_bytes_at(data: &[u8], pos: usize, version: u8) -> (r: Result<Filter, Error>)
        requires
            pos <= data@.len(),
        ensures
            match r {
                Ok(f) => f.version == version && f.signature@.len() == 0 && f.filter.shape_ok()
                    && f.filter.encodable(version) && f.signing_bytes() == data@.subrange(
                    pos as int,
                    data@.len() as int,
                ),
                Err(e) => e == Error::UnsupportedVersion && version != 1 && version != 2 || e
                    == Error::Decode,
            },
            (version != 1 && version != 2) ==> r == Err::<Filter, Error>(Error::UnsupportedVersion),
            (exists|f: Filter|
                f.version == version && f.filter.shape_ok() && f.filter.encodable(version)
                    && f.signing_bytes() == data@.subrange(pos as int, data@.len() as int)) ==> r is Ok,
    {
        proof {
            if exists|f: Filter|
                f.version == version && f.filter.shape_ok() && f.filter.encodable(version)
                    && f.signing_bytes() == data@.subrange(pos as int, data@.len() as int) {
                let f = choose|f: Filter|
                    f.version == version && f.filter.shape_ok() && f.filter.encodable(version)
                        && f.signing_bytes() == data@.subrange(pos as int, data@.len() as int);
                lemma_u32_then(data@, pos as int, f.serial, f.filter.payload(version));
            }
        }
        if version != 1 && version != 2 {
            return Err(Error::UnsupportedVersion);
        }
        if data.len() - pos < 4 {
            return Err(Error::Decode);
        }
        let serial = read_u32_le(data, pos);
        let filter = FilterData::from_signing_bytes_at(data, pos + 4, version)?;
        proof {
            lemma_u32_round_trip(serial, data@, pos as int);
            assert(data@.subrange(pos as int, data@.len() as int) =~= data@.subrange(
                pos as int,
                pos + 4,
            ) + data@.subrange(pos + 4, data@.len() as int));
        }
        Ok(Filter { version, signature: Vec::new(), serial, filter })
    }

    /// Reads a filter envelope: version, signature, then the signing bytes of
    /// that version, which must use up the rest exactly.
    pub fn from_bytes(data: &[u8]) -> (r: Result<Filter, Error>)
        ensures
            match r {
                Ok(f) => f.encodable() && f.filter.shape_ok() && f.envelope() == data@,
                Err(e) => e == Error::UnsupportedVersion || e == Error::Decode,
            },
            r == Err::<Filter, Error>(Error::UnsupportedVersion) <==> (data@.len() >= 1 && data@[0]
                != 1 && data@[0] != 2),
            (exists|f: Filter| f.encodable() && f.filter.shape_ok() && f.envelope() == data@) ==> r is Ok,
    {
        proof {
            lemma_envelope_decodable(data@);
        }
        if data.len() < 1 {
            return Err(Error::Decode);
        }
        let version = data[0];
        if version != 1 && version != 2 {
            return Err(Error::UnsupportedVersion);
        }
        if data.len() < 3 {
            return Err(Error::Decode);
        }
        let signature_len = read_u16_le(data, 1);
        if data.len() - 3 < signature_len as usize {
            return Err(Error::Decode);
        }
        let mut signature: Vec<u8> = Vec::new();
        let mut i: usize = 0;
        while i < signature_len as usize
            invariant
                3 + signature_len <= data@.len(),
                i <= signature_len,
                signature@ == data@.subrange(3, 3 + i),
            decreases signature_len - i,
        {
            signature.push(data[3 + i]);
            i = i + 1;
            assert(signature@ =~= data@.subrange(3, 3 + i));
        }
        let mut filter = Filter::from_signing_bytes_at(data, 3 + signature_len as usize, version)?;
        filter.signature = signature;
        proof {
            lemma_u16_round_trip(signature_len, data@, 1);
            assert(data@ =~= seq![data@[0]] + data@.subrange(1, 3) + data@.subrange(
                3,
                3 + signature_len,
            ) + data@.subrange(3 + signature_len, data@.len() as int));
        }
        Ok(filter)
    }

    /// Writes the envelope: version, signature length and signature, then
    /// the signing bytes.
    pub fn to_bytes(&self) -> (r: Result<Vec<u8>, Error>)
        ensures
            match r {
                Ok(b) => self.encodable() && b@ == self.envelope(),
                Err(e) => !self.encodable() && (e == Error::UnsupportedVersion
                    || e == Error::SignatureTooLong),
            },
            !self.filter.encodable(self.version) ==> r == Err::<Vec<u8>, Error>(
                Error::UnsupportedVersion,
            ),
            self.filter.encodable(self.version) && self.signature@.len() > u16::MAX ==> r == Err::<
                Vec<u8>,
                Error,
            >(Error::SignatureTooLong),
    {
        let signing = self.to_signing_bytes()?;
        if self.signature.len() > u16::MAX as usize {
            return Err(Error::SignatureTooLong);
        }
        let mut out: Vec<u8> = Vec::new();
        out.push(self.version);
        push_u16_le(&mut out, self.signature.len() as u16);
        append_bytes(&mut out, self.signature.as_slice());
        append_bytes(&mut out, signing.as_slice());
        assert(out@ =~= self.envelope());
        Ok(out)
    }
}

} // verus!
