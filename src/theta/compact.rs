//! The immutable compact Theta sketch and its canonical serialized form (serial version 3).
use vstd::prelude::*;

use crate::codec::le_nat;
use crate::codec::read_u32_le;
use crate::codec::read_u64_le;
use crate::codec::write_u32_le;
use crate::codec::write_u64_le;
use crate::error::Error;
use crate::error::ErrorKind;
use crate::hash::murmur3_spec;
use crate::hash::murmur3_x64_128;
use crate::hash::word_bytes;
use crate::hash::word_to_bytes;
use crate::bit_pack::bits_of;
use crate::bit_pack::block_bits;
use crate::bit_pack::fits;
use crate::bit_pack::stream;
use crate::bit_pack::value_of;
use crate::bit_pack::BitPacker;
use crate::bit_pack::BitUnpacker;
use crate::theta::hash_table::MAX_THETA;

verus! {

/// Serial version of the canonical uncompressed image.
pub const SER_VER: u8 = 3;

/// Family byte of a compact Theta sketch.
pub const FAMILY_ID: u8 = 3;

pub const FLAG_READ_ONLY: u8 = 2;

pub const FLAG_EMPTY: u8 = 4;

pub const FLAG_COMPACT: u8 = 8;

pub const FLAG_ORDERED: u8 = 16;

/// Most entries a compact sketch holds.
pub const MAX_ENTRIES: usize = 0x400_0000;

/// The 16-bit digest of a hash seed: the low bits of the seed's MurmurHash3 under seed 0.
pub open spec fn seed_hash_spec(seed: u64) -> u16 {
    (murmur3_spec(word_bytes(seed), 0).0 % 0x1_0000) as u16
}

/// Computes the digest of `seed`.
pub fn compute_seed_hash(seed: u64) -> (r: u16)
    ensures
        r == seed_hash_spec(seed),
{
    let bytes = word_to_bytes(seed);
    let h = murmur3_x64_128(bytes.as_slice(), 0);
    (h.0 % 0x1_0000) as u16
}

/// `s` is strictly increasing.
pub open spec fn increasing(s: Seq<u64>) -> bool {
    forall|i: int, j: int| 0 <= i < j < s.len() ==> #[trigger] s[i] < #[trigger] s[j]
}

/// An immutable Theta sketch: its retained hashes, θ and the digest of its seed.
pub struct CompactThetaSketch {
    entries: Vec<u64>,
    theta: u64,
    seed_hash: u16,
    ordered: bool,
    empty: bool,
}

/// Preamble size, in 8-byte words, of the canonical image of a sketch.
pub open spec fn preamble_longs_of(empty: bool, n: int, theta: u64) -> u8 {
    if empty || (n == 1 && theta == MAX_THETA) {
        1
    } else if theta == MAX_THETA {
        2
    } else {
        3
    }
}

pub open spec fn flags_of(empty: bool, ordered: bool) -> u8 {
    (FLAG_READ_ONLY + FLAG_COMPACT + if empty {
        FLAG_EMPTY
    } else {
        0u8
    } + if ordered {
        FLAG_ORDERED
    } else {
        0u8
    }) as u8
}

/// Where the entries of a canonical image start.
pub open spec fn image_start(empty: bool, n: int, theta: u64) -> int {
    if empty {
        8
    } else {
        8 * preamble_longs_of(empty, n, theta)
    }
}

/// `b` is the canonical image of a sketch with these fields.
pub open spec fn image(b: Seq<u8>, entries: Seq<u64>, theta: u64, seed_hash: u16, ordered: bool, empty: bool) -> bool {
    let p = preamble_longs_of(empty, entries.len() as int, theta);
    let start = image_start(empty, entries.len() as int, theta);
    &&& b.len() == start + 8 * entries.len()
    &&& b[0] == p
    &&& b[1] == SER_VER
    &&& b[2] == FAMILY_ID
    &&& b[3] == 0
    &&& b[4] == 0
    &&& b[5] == flags_of(empty, ordered)
    &&& le_nat(b.subrange(6, 8)) == seed_hash
    &&& p >= 2 ==> le_nat(b.subrange(8, 12)) == entries.len()
    &&& p >= 2 ==> b[12] == 0 && b[13] == 0 && b[14] == 0 && b[15] == 0
    &&& p == 3 ==> le_nat(b.subrange(16, 24)) == theta
    &&& forall|i: int| 0 <= i < entries.len() ==> le_nat(#[trigger] b.subrange(start + 8 * i, start + 8 * i + 8)) == entries[i]
}

/// What an image says: the number of entries.
pub open spec fn decoded_count(b: Seq<u8>) -> int {
    if b[0] == 1 {
        if b[5] & FLAG_EMPTY != 0 {
            0
        } else {
            1
        }
    } else {
        le_nat(b.subrange(8, 12)) as int
    }
}

pub open spec fn decoded_theta(b: Seq<u8>) -> u64 {
    if b[0] == 3 {
        le_nat(b.subrange(16, 24)) as u64
    } else {
        MAX_THETA
    }
}

pub open spec fn decoded_start(b: Seq<u8>) -> int {
    8 * b[0]
}

#[verifier::opaque]
pub open spec fn decoded_entries(b: Seq<u8>) -> Seq<u64> {
    Seq::new(
        decoded_count(b) as nat,
        |i: int| le_nat(b.subrange(decoded_start(b) + 8 * i, decoded_start(b) + 8 * i + 8)) as u64,
    )
}

impl CompactThetaSketch {
    pub closed spec fn entries_spec(&self) -> Seq<u64> {
        self.entries@
    }

    pub closed spec fn theta_spec(&self) -> u64 {
        self.theta
    }

    pub closed spec fn seed_hash_spec(&self) -> u16 {
        self.seed_hash
    }

    pub closed spec fn ordered_spec(&self) -> bool {
        self.ordered
    }

    pub closed spec fn empty_spec(&self) -> bool {
        self.empty
    }

    pub closed spec fn wf(&self) -> bool {
        &&& 0 < self.theta <= MAX_THETA
        &&& self.entries@.len() <= MAX_ENTRIES
        &&& forall|i: int| 0 <= i < self.entries@.len() ==> 0 < #[trigger] self.entries@[i] < self.theta
        &&& self.ordered ==> increasing(self.entries@)
        &&& self.empty ==> self.entries@.len() == 0 && self.theta == MAX_THETA
    }

    /// Makes a compact sketch from retained hashes; an empty one gets θ at its maximum.
    pub fn new(entries: Vec<u64>, theta: u64, seed_hash: u16, ordered: bool, empty: bool) -> (r: Self)
        requires
            0 < theta <= MAX_THETA,
            entries@.len() <= MAX_ENTRIES,
            forall|i: int| 0 <= i < entries@.len() ==> 0 < #[trigger] entries@[i] < theta,
            ordered ==> increasing(entries@),
            empty ==> entries@.len() == 0,
        ensures
            r.wf(),
            r.entries_spec() == entries@,
            r.theta_spec() == if empty {
                MAX_THETA
            } else {
                theta
            },
            r.seed_hash_spec() == seed_hash,
            r.ordered_spec() == ordered,
            r.empty_spec() == empty,
    {
        CompactThetaSketch {
            entries,
            theta: if empty {
                MAX_THETA
            } else {
                theta
            },
            seed_hash,
            ordered,
            empty,
        }
    }

    /// The retained hashes.
    pub fn entries(&self) -> (r: &Vec<u64>)
        ensures
            r@ == self.entries_spec(),
    {
        &self.entries
    }

    /// θ.
    pub fn theta64(&self) -> (r: u64)
        ensures
            r == self.theta_spec(),
    {
        self.theta
    }

    /// The number of retained hashes.
    pub fn num_retained(&self) -> (r: usize)
        ensures
            r == self.entries_spec().len(),
    {
        self.entries.len()
    }

    /// Whether the sketch was never updated.
    pub fn is_empty(&self) -> (r: bool)
        ensures
            r == self.empty_spec(),
    {
        self.empty
    }

    /// Whether the hashes are in increasing order.
    pub fn is_ordered(&self) -> (r: bool)
        ensures
            r == self.ordered_spec(),
    {
        self.ordered
    }

    /// Whether θ is below its maximum.
    pub fn is_estimation_mode(&self) -> (r: bool)
        ensures
            r == (self.theta_spec() < MAX_THETA),
    {
        self.theta < MAX_THETA
    }

    /// The digest of the seed.
    pub fn seed_hash(&self) -> (r: u16)
        ensures
            r == self.seed_hash_spec(),
    {
        self.seed_hash
    }

    /// Reads a canonical image, which must have been made with `seed` unless it is empty.
    fn deserialize_canonical(bytes: &[u8], seed: u64) -> (r: Result<Self, Error>)
        ensures
            r.is_ok() <==> acceptable(bytes@, seed),
            bytes@.len() >= 8 && bytes@[1] != SER_VER ==> (r matches Err(e) && e.kind == ErrorKind::InvalidData),
            bytes@.len() < 8 ==> (r matches Err(e) && e.kind == ErrorKind::InsufficientData),
            bytes@.len() >= 8 && bytes@[5] & FLAG_EMPTY == 0 && (bytes@[1] == SER_VER && bytes@[2]
                == FAMILY_ID && 1 <= bytes@[0] <= 3) && le_nat(bytes@.subrange(6, 8))
                != seed_hash_spec(seed) ==> (r matches Err(e) && e.kind == ErrorKind::InvalidData),
            r matches Ok(s) ==> {
                &&& s.wf()
                &&& s.empty_spec() == (bytes@[5] & FLAG_EMPTY != 0)
                &&& s.ordered_spec() == (bytes@[5] & FLAG_ORDERED != 0)
                &&& s.seed_hash_spec() == le_nat(bytes@.subrange(6, 8))
                &&& !s.empty_spec() ==> s.entries_spec() == decoded_entries(bytes@)
                    && s.theta_spec() == decoded_theta(bytes@)
                &&& s.empty_spec() ==> s.entries_spec().len() == 0 && s.theta_spec() == MAX_THETA
            },
    {
        if bytes.len() < 8 {
            return Err(Error::insufficient_data("preamble"));
        }
        let p = bytes[0];
        if bytes[1] != SER_VER {
            return Err(Error::deserial("unsupported serial version"));
        }
        if bytes[2] != FAMILY_ID {
            return Err(Error::deserial("invalid family"));
        }
        if p < 1 || p > 3 {
            return Err(Error::deserial("invalid preamble longs"));
        }
        let flags = bytes[5];
        let empty = flags & FLAG_EMPTY != 0;
        let ordered = flags & FLAG_ORDERED != 0;
        let stored = read_le_u16(bytes, 6);
        if empty {
            return Ok(CompactThetaSketch { entries: Vec::new(), theta: MAX_THETA, seed_hash: stored, ordered, empty });
        }
        if stored != compute_seed_hash(seed) {
            return Err(Error::deserial("seed hash mismatch"));
        }
        let len = bytes.len();
        let mut n: usize = 1;
        if p >= 2 {
            if len < 16 {
                return Err(Error::insufficient_data("num_entries"));
            }
            n = read_u32_le(bytes, 8) as usize;
        }
        let mut theta = MAX_THETA;
        if p == 3 {
            if len < 24 {
                return Err(Error::insufficient_data("theta_long"));
            }
            theta = read_u64_le(bytes, 16);
            if theta == 0 || theta > MAX_THETA {
                return Err(Error::deserial("invalid theta"));
            }
        }
        if n > MAX_ENTRIES {
            return Err(Error::deserial("too many entries"));
        }
        let start = 8 * (p as usize);
        if len < start || (len - start) / 8 < n {
            return Err(Error::insufficient_data("entries"));
        }
        proof {
            assert(decoded_count(bytes@) == n);
            assert(decoded_theta(bytes@) == theta);
            assert(decoded_start(bytes@) == start);
        }
        let mut entries: Vec<u64> = Vec::new();
        let mut i: usize = 0;
        proof {
            reveal(decoded_entries);
        }
        while i < n
            invariant
                len == bytes@.len(),
                bytes@[5] & FLAG_EMPTY == 0,
                ordered == (bytes@[5] & FLAG_ORDERED != 0),
                start + 8 * n <= len,
                n == decoded_count(bytes@),
                start == decoded_start(bytes@),
                theta == decoded_theta(bytes@),
                i <= n,
                entries@ == decoded_entries(bytes@).subrange(0, i as int),
                forall|q: int| 0 <= q < i ==> 0 < #[trigger] entries@[q] < theta,
                ordered ==> increasing(entries@),
            decreases n - i,
        {
            let e = read_u64_le(bytes, start + 8 * i);
            proof {
                reveal(decoded_entries);
                assert(decoded_entries(bytes@)[i as int] == e);
            }
            if e == 0 || e >= theta {
                proof {
                    if acceptable(bytes@, seed) {
                        assert(0 < decoded_entries(bytes@)[i as int] < decoded_theta(bytes@));
                    }
                }
                return Err(Error::deserial("invalid retained hash value"));
            }
            if ordered && i > 0 && entries[i - 1] >= e {
                proof {
                    let d = decoded_entries(bytes@);
                    assert(d[i - 1] == entries@[i - 1]);
                    assert(d[i as int] == e);
                    assert(!(d[i - 1] < d[i as int]));
                    assert(!increasing(d));
                    if acceptable(bytes@, seed) {
                        assert(increasing(d));
                    }
                }
                return Err(Error::deserial("entries out of order"));
            }
            entries.push(e);
            proof {
                reveal(decoded_entries);
                assert(entries@ =~= decoded_entries(bytes@).subrange(0, i + 1));
                if ordered {
                    assert forall|a: int, b: int| 0 <= a < b < entries@.len() implies #[trigger] entries@[a] < #[trigger] entries@[b] by {
                        if b == i && a < i - 1 {
                            assert(entries@[a] < entries@[i - 1]);
                        }
                    }
                }
            }
            i = i + 1;
        }
        proof {
            reveal(decoded_entries);
            assert(entries@ =~= decoded_entries(bytes@));
        }
        Ok(CompactThetaSketch { entries, theta, seed_hash: stored, ordered, empty })
    }

    /// Reads a canonical (version 3) or compressed (version 4) image, which must have been made
    /// with `seed` unless it is empty.
    pub fn deserialize_with_seed(bytes: &[u8], seed: u64) -> (r: Result<Self, Error>)
        ensures
            bytes@.len() < 8 ==> (r matches Err(e) && e.kind == ErrorKind::InsufficientData),
            bytes@.len() >= 8 && bytes@[1] != SER_VER && bytes@[1] != SER_VER_COMPRESSED && bytes@[1]
                != SER_VER_LEGACY_TRI_STATE && bytes@[1] != SER_VER_LEGACY_PRECISE ==> (r matches Err(
                e,
            ) && e.kind == ErrorKind::InvalidData),
            bytes@.len() >= 8 && bytes@[1] == SER_VER_LEGACY_TRI_STATE ==> (bytes@[0] == 1 ==> (r matches Ok(s) && s.empty_spec()))
                && (bytes@[0] != 1 ==> (r.is_ok() <==> acceptable(bytes@.update(1, SER_VER), seed))),
            bytes@.len() >= 24 && bytes@[1] == SER_VER_LEGACY_PRECISE ==> (r.is_ok() <==> acceptable(
                legacy_precise_as_canonical(bytes@, seed),
                seed,
            )),
            bytes@.len() >= 8 && bytes@[1] == SER_VER ==> (r.is_ok() <==> acceptable(bytes@, seed)),
            bytes@.len() >= 8 && bytes@[1] == SER_VER_COMPRESSED ==> (r.is_ok() <==> acceptable_v4(
                bytes@,
                seed,
            )),
            bytes@.len() >= 8 && (bytes@[1] == SER_VER || bytes@[1] == SER_VER_COMPRESSED) && bytes@[2]
                == FAMILY_ID && 1 <= bytes@[0] <= 3 && bytes@[5] & FLAG_EMPTY == 0 && (bytes@[1]
                == SER_VER_COMPRESSED ==> bytes@[0] <= 2 && 1 <= bytes@[3] <= 63 && 1 <= bytes@[4] <= 4) && le_nat(
                bytes@.subrange(6, 8),
            ) != seed_hash_spec(seed) ==> (r matches Err(e) && e.kind == ErrorKind::InvalidData),
            r matches Ok(s) ==> s.wf(),
            r matches Ok(s) ==> bytes@[1] == SER_VER_LEGACY_PRECISE ==> s.entries_spec() == decoded_entries(
                legacy_precise_as_canonical(bytes@, seed),
            ) && s.theta_spec() == decoded_theta(legacy_precise_as_canonical(bytes@, seed)),
            r matches Ok(s) ==> bytes@[1] == SER_VER ==> {
                &&& s.empty_spec() == (bytes@[5] & FLAG_EMPTY != 0)
                &&& s.ordered_spec() == (bytes@[5] & FLAG_ORDERED != 0)
                &&& s.seed_hash_spec() == le_nat(bytes@.subrange(6, 8))
                &&& !s.empty_spec() ==> s.entries_spec() == decoded_entries(bytes@)
                    && s.theta_spec() == decoded_theta(bytes@)
            },
            r matches Ok(s) ==> bytes@[1] == SER_VER_COMPRESSED ==> {
                &&& !s.empty_spec() && s.ordered_spec()
                &&& s.seed_hash_spec() == le_nat(bytes@.subrange(6, 8))
                &&& s.theta_spec() == v4_theta(bytes@)
                &&& s.entries_spec() == decoded_packed(v4_region(bytes@), v4_count(bytes@) as nat, bytes@[3] as nat)
            },
    {
        if bytes.len() < 8 {
            return Err(Error::insufficient_data("preamble"));
        }
        if bytes[1] == SER_VER_COMPRESSED {
            Self::deserialize_compressed(bytes, seed)
        } else if bytes[1] == SER_VER_LEGACY_TRI_STATE {
            if bytes[0] == 1 {
                let stored = read_le_u16(bytes, 6);
                return Ok(CompactThetaSketch { entries: Vec::new(), theta: MAX_THETA, seed_hash: stored, ordered: true, empty: true });
            }
            let mut canonical = slice_to_vec(bytes);
            canonical.set(1, SER_VER);
            proof {
                assert(canonical@ =~= bytes@.update(1, SER_VER));
            }
            Self::deserialize_canonical(canonical.as_slice(), seed)
        } else if bytes[1] == SER_VER_LEGACY_PRECISE {
            if bytes.len() < 24 {
                return Err(Error::insufficient_data("preamble"));
            }
            let mut canonical = slice_to_vec(bytes);
            canonical.set(0, 3);
            canonical.set(1, SER_VER);
            canonical.set(5, FLAG_READ_ONLY + FLAG_COMPACT + FLAG_ORDERED);
            let seed_hash = compute_seed_hash(seed);
            canonical.set(6, (seed_hash % 256) as u8);
            canonical.set(7, (seed_hash / 256) as u8);
            proof {
                assert(canonical@ =~= legacy_precise_as_canonical(bytes@, seed));
                assert(26u8 & 4u8 == 0) by (bit_vector);
                assert(canonical@[5] == 26);
            }
            Self::deserialize_canonical(canonical.as_slice(), seed)
        } else {
            Self::deserialize_canonical(bytes, seed)
        }
    }

    /// Reads a compressed image.
    fn deserialize_compressed(bytes: &[u8], seed: u64) -> (r: Result<Self, Error>)
        requires
            bytes@.len() >= 8,
            bytes@[1] == SER_VER_COMPRESSED,
        ensures
            r.is_ok() <==> acceptable_v4(bytes@, seed),
            bytes@[2] == FAMILY_ID && 1 <= bytes@[0] <= 2 && 1 <= bytes@[3] <= 63 && 1 <= bytes@[4] <= 4
                && le_nat(bytes@.subrange(6, 8)) != seed_hash_spec(seed) ==> (r matches Err(e)
                && e.kind == ErrorKind::InvalidData),
            r matches Ok(s) ==> {
                &&& s.wf()
                &&& !s.empty_spec() && s.ordered_spec()
                &&& s.seed_hash_spec() == le_nat(bytes@.subrange(6, 8))
                &&& s.theta_spec() == v4_theta(bytes@)
                &&& s.entries_spec() == decoded_packed(v4_region(bytes@), v4_count(bytes@) as nat, bytes@[3] as nat)
            },
    {
        let p = bytes[0];
        if bytes[2] != FAMILY_ID || p < 1 || p > 2 {
            return Err(Error::deserial("invalid preamble"));
        }
        let width = bytes[3];
        let neb = bytes[4];
        if width < 1 || width > 63 || neb < 1 || neb > 4 {
            return Err(Error::deserial("invalid entry widths"));
        }
        let stored = read_le_u16(bytes, 6);
        if stored != compute_seed_hash(seed) {
            return Err(Error::deserial("seed hash mismatch"));
        }
        let len = bytes.len();
        let mut theta = MAX_THETA;
        if p == 2 {
            if len < 16 {
                return Err(Error::insufficient_data("theta_long"));
            }
            theta = read_u64_le(bytes, 8);
            if theta == 0 || theta > MAX_THETA {
                return Err(Error::deserial("invalid theta"));
            }
        }
        let h = 8 * (p as usize);
        if len < h + (neb as usize) {
            return Err(Error::insufficient_data("num_entries"));
        }
        let n64 = crate::codec::read_le(bytes, h, neb as usize);
        if n64 > MAX_ENTRIES as u64 {
            return Err(Error::deserial("too many entries"));
        }
        let n = n64 as usize;
        let start = h + (neb as usize);
        let mut region: Vec<u8> = Vec::new();
        let mut t: usize = start;
        while t < len
            invariant
                len == bytes@.len(),
                start <= t <= len,
                region@ == bytes@.subrange(start as int, t as int),
            decreases len - t,
        {
            region.push(bytes[t]);
            t = t + 1;
            assert(region@ =~= bytes@.subrange(start as int, t as int));
        }
        proof {
            assert(v4_region(bytes@) == region@);
            assert(v4_count(bytes@) == n);
            assert(v4_theta(bytes@) == theta);
        }
        proof {
            assert(n * width + 7 < 0x1_0000_0000) by (nonlinear_arith)
                requires
                    n <= 0x400_0000,
                    width <= 63,
            ;
        }
        if (n * (width as usize) + 7) / 8 > region.len() {
            return Err(Error::insufficient_data("delta_tail"));
        }
        match unpack_deltas(region.as_slice(), n, width, theta) {
            Some(entries) => {
                proof {
                    let vals = packed_values(region@, n as nat, width as nat);
                    assert forall|i: int| 0 <= i < entries@.len() implies 0 < #[trigger] entries@[i] < theta by {
                        lemma_psum_pos(vals, i + 1, theta);
                        assert(entries@[i] == psum(vals, i + 1) as u64);
                    }
                    assert forall|i: int, j: int| 0 <= i < j < entries@.len() implies #[trigger] entries@[i] < #[trigger] entries@[j] by {
                        lemma_psum_mono(vals, i + 1, j + 1, theta);
                        lemma_psum_pos(vals, i + 1, theta);
                        lemma_psum_pos(vals, j + 1, theta);
                        assert(entries@[i] == psum(vals, i + 1) as u64);
                        assert(entries@[j] == psum(vals, j + 1) as u64);
                    }
                }
                Ok(CompactThetaSketch { entries, theta, seed_hash: stored, ordered: true, empty: false })
            },
            None => Err(Error::deserial("invalid retained hash value")),
        }
    }

    /// The compressed image (serial version 4) when the sketch is ordered, non-empty and not a
    /// single hash with θ at its maximum; the canonical image otherwise.
    pub fn serialize_compressed(&self) -> (r: Vec<u8>)
        requires
            self.wf(),
        ensures
            (self.ordered_spec() && !self.empty_spec() && !(self.entries_spec().len() == 1
                && self.theta_spec() == MAX_THETA)) ==> exists|w: u8|
                compressed_image(r@, self.entries_spec(), self.theta_spec(), self.seed_hash_spec(), w),
            !(self.ordered_spec() && !self.empty_spec() && !(self.entries_spec().len() == 1
                && self.theta_spec() == MAX_THETA)) ==> image(
                r@,
                self.entries_spec(),
                self.theta_spec(),
                self.seed_hash_spec(),
                self.ordered_spec(),
                self.empty_spec(),
            ),
    {
        let n = self.entries.len();
        if !self.ordered || self.empty || (n == 1 && self.theta == MAX_THETA) {
            return self.serialize();
        }
        let ghost d = deltas(self.entries@);
        let mut max_delta: u64 = 0;
        let mut i: usize = 0;
        while i < n
            invariant
                self.wf(),
                self.ordered,
                n == self.entries@.len(),
                d == deltas(self.entries@),
                i <= n,
                max_delta < MAX_THETA,
                forall|q: int| 0 <= q < i ==> #[trigger] d[q] <= max_delta,
                max_delta == 0 || exists|q: int| 0 <= q < i && #[trigger] d[q] == max_delta,
            decreases n - i,
        {
            let delta = if i == 0 {
                self.entries[0]
            } else {
                self.entries[i] - self.entries[i - 1]
            };
            proof {
                if i > 0 {
                    assert(self.entries@[i - 1] < self.entries@[i as int]);
                }
                assert(d[i as int] == delta);
            }
            if delta > max_delta {
                max_delta = delta;
            }
            i = i + 1;
        }
        let mut width: u8 = 1;
        while width < 63 && (max_delta >> (width as u64)) != 0
            invariant
                1 <= width <= 63,
                max_delta < MAX_THETA,
                width == 1 || (max_delta >> ((width - 1) as u64)) != 0,
            decreases 63 - width,
        {
            width = width + 1;
        }
        proof {
            if width > 1 {
                let w1 = (width - 1) as u64;
                assert(max_delta >= (1u64 << w1) && max_delta != 0) by (bit_vector)
                    requires
                        1 <= w1 <= 62,
                        (max_delta >> w1) != 0,
                ;
                crate::bit_pack::lemma_pow2_shl(w1);
                assert(max_delta != 0);
                let q = choose|q: int| 0 <= q < n && #[trigger] d[q] == max_delta;
                assert(!fits(d[q], (width - 1) as nat));
            }
        }
        proof {
            let w = width as u64;
            assert(max_delta < (1u64 << w)) by (bit_vector)
                requires
                    1 <= w <= 63,
                    max_delta < 0x7fff_ffff_ffff_ffff,
                    w == 63 || (max_delta >> w) == 0,
            ;
            crate::bit_pack::lemma_pow2_shl(w);
            assert forall|q: int| 0 <= q < n implies fits(#[trigger] d[q], width as nat) by {
                assert(d[q] <= max_delta);
            }
        }
        let neb: u8 = if n < 0x100 {
            1
        } else if n < 0x1_0000 {
            2
        } else if n < 0x100_0000 {
            3
        } else {
            4
        };
        let p: u8 = if self.theta == MAX_THETA {
            1
        } else {
            2
        };
        let h: usize = 8 * (p as usize);
        let mut out: Vec<u8> = Vec::new();
        while out.len() < h + (neb as usize)
            invariant
                h <= 16,
                1 <= neb <= 4,
                out@.len() <= h + neb,
            decreases h + neb - out@.len(),
        {
            out.push(0);
        }
        out.set(0, p);
        out.set(1, SER_VER_COMPRESSED);
        out.set(2, FAMILY_ID);
        out.set(3, width);
        out.set(4, neb);
        out.set(5, FLAG_READ_ONLY + FLAG_COMPACT + FLAG_ORDERED);
        write_le_u16(&mut out, 6, self.seed_hash);
        let ghost s1 = out@;
        if p == 2 {
            write_u64_le(&mut out, 8, self.theta);
        }
        let ghost s2 = out@;
        proof {
            assert(crate::codec::pow256(4) == 0x1_0000_0000 && crate::codec::pow256(3) == 0x100_0000
                && crate::codec::pow256(2) == 0x1_0000 && crate::codec::pow256(1) == 0x100) by {
                reveal_with_fuel(crate::codec::pow256, 5);
            }
        }
        crate::codec::write_le(&mut out, h, n as u64, neb as usize);
        proof {
            assert(out@.subrange(6, 8) =~= s1.subrange(6, 8));
            if p == 2 {
                assert(out@.subrange(8, 16) =~= s2.subrange(8, 16));
            }
        }
        let region = pack_deltas(&self.entries, width);
        let ghost head = out@;
        let mut t: usize = 0;
        while t < region.len()
            invariant
                t <= region@.len(),
                out@.len() == head.len() + t,
                out@.subrange(0, head.len() as int) == head,
                out@.subrange(head.len() as int, head.len() + t) == region@.subrange(0, t as int),
            decreases region@.len() - t,
        {
            out.push(region[t]);
            t = t + 1;
            assert(out@.subrange(0, head.len() as int) =~= head);
            assert(out@.subrange(head.len() as int, head.len() + t) =~= region@.subrange(0, t as int));
        }
        proof {
            assert(region@.subrange(0, region@.len() as int) =~= region@);
            assert(out@.subrange(6, 8) =~= head.subrange(6, 8));
            assert(out@.subrange(h as int, h + neb) =~= head.subrange(h as int, h + neb));
            if p == 2 {
                assert(out@.subrange(8, 16) =~= head.subrange(8, 16));
            }
            assert(out@[0] == head[0] && out@[1] == head[1] && out@[2] == head[2] && out@[3] == head[3]
                && out@[4] == head[4] && out@[5] == head[5]);
            assert(v4_region(out@) =~= region@);
            assert(flags_of(false, true) == 26);
            assert(compressed_image(out@, self.entries@, self.theta, self.seed_hash, width));
            assert(compressed_image(out@, self.entries_spec(), self.theta_spec(), self.seed_hash_spec(), width));
            assert(exists|w: u8| compressed_image(out@, self.entries_spec(), self.theta_spec(), self.seed_hash_spec(), w));
        }
        out
    }

    /// The canonical image (serial version 3).
    pub fn serialize(&self) -> (r: Vec<u8>)
        requires
            self.wf(),
        ensures
            image(r@, self.entries_spec(), self.theta_spec(), self.seed_hash_spec(), self.ordered_spec(), self.empty_spec()),
    {
        let n = self.entries.len();
        let p: u8 = if self.empty || (n == 1 && self.theta == MAX_THETA) {
            1
        } else if self.theta == MAX_THETA {
            2
        } else {
            3
        };
        let start: usize = if self.empty {
            8
        } else {
            8 * (p as usize)
        };
        let mut out: Vec<u8> = Vec::new();
        while out.len() < start
            invariant
                out@.len() <= start,
                forall|j: int| 0 <= j < out@.len() ==> #[trigger] out@[j] == 0,
            decreases start - out@.len(),
        {
            out.push(0);
        }
        let flags: u8 = FLAG_READ_ONLY + FLAG_COMPACT + if self.empty {
            FLAG_EMPTY
        } else {
            0
        } + if self.ordered {
            FLAG_ORDERED
        } else {
            0
        };
        out.set(0, p);
        out.set(1, SER_VER);
        out.set(2, FAMILY_ID);
        out.set(5, flags);
        write_le_u16(&mut out, 6, self.seed_hash);
        let ghost s1 = out@;
        if p >= 2 {
            write_u32_le(&mut out, 8, n as u32);
        }
        let ghost s2 = out@;
        if p == 3 {
            write_u64_le(&mut out, 16, self.theta);
        }
        proof {
            assert(out@.subrange(6, 8) =~= s1.subrange(6, 8));
            if p >= 2 {
                assert(out@.subrange(8, 12) =~= s2.subrange(8, 12));
                assert(out@[12] == 0 && out@[13] == 0 && out@[14] == 0 && out@[15] == 0);
            }
            assert(out@[3] == 0 && out@[4] == 0);
        }
        let ghost head = out@;
        let mut i: usize = 0;
        while i < n
            invariant
                self.wf(),
                n == self.entries@.len(),
                i <= n,
                start == if self.empty {
                    8
                } else {
                    8 * p
                },
                p == preamble_longs_of(self.empty, n as int, self.theta),
                out@.len() == start + 8 * i,
                out@.subrange(0, start as int) == head,
                forall|q: int| 0 <= q < i ==> le_nat(#[trigger] out@.subrange(start + 8 * q, start + 8 * q + 8)) == self.entries@[q],
            decreases n - i,
        {
            let ghost before = out@;
            let mut t: usize = 0;
            while t < 8
                invariant
                    t <= 8,
                    out@.len() == before.len() + t,
                    out@.subrange(0, before.len() as int) == before,
                decreases 8 - t,
            {
                out.push(0);
                t = t + 1;
                assert(out@.subrange(0, before.len() as int) =~= before);
            }
            write_u64_le(&mut out, start + 8 * i, self.entries[i]);
            proof {
                assert(out@.subrange(0, start as int) =~= head);
                assert forall|q: int| 0 <= q < i + 1 implies le_nat(#[trigger] out@.subrange(start + 8 * q, start + 8 * q + 8)) == self.entries@[q] by {
                    if q < i {
                        assert(out@.subrange(start + 8 * q, start + 8 * q + 8) =~= before.subrange(start + 8 * q, start + 8 * q + 8));
                    }
                }
            }
            i = i + 1;
        }
        proof {
            assert(out@[0] == head[0] && out@[1] == head[1] && out@[2] == head[2] && out@[5] == head[5]);
            assert(out@[3] == head[3] && out@[4] == head[4]);
            if p >= 2 {
                assert(out@[12] == head[12] && out@[13] == head[13] && out@[14] == head[14] && out@[15] == head[15]);
            }
            assert(out@.subrange(6, 8) =~= head.subrange(6, 8));
            if p >= 2 {
                assert(out@.subrange(8, 12) =~= head.subrange(8, 12));
            }
            if p == 3 {
                assert(out@.subrange(16, 24) =~= head.subrange(16, 24));
            }
        }
        out
    }
}

/// The checks that a canonical image passes when read with `seed`.
pub open spec fn acceptable(b: Seq<u8>, seed: u64) -> bool {
    &&& b.len() >= 8
    &&& b[1] == SER_VER
    &&& b[2] == FAMILY_ID
    &&& 1 <= b[0] <= 3
    &&& b[5] & FLAG_EMPTY == 0 ==> {
        &&& le_nat(b.subrange(6, 8)) == seed_hash_spec(seed)
        &&& b[0] >= 2 ==> b.len() >= 16
        &&& b[0] == 3 ==> b.len() >= 24 && 0 < le_nat(b.subrange(16, 24)) <= MAX_THETA
        &&& decoded_count(b) <= MAX_ENTRIES
        &&& b.len() >= decoded_start(b) + 8 * decoded_count(b)
        &&& forall|i: int| 0 <= i < decoded_count(b) ==> 0 < #[trigger] decoded_entries(b)[i] < decoded_theta(b)
        &&& b[5] & FLAG_ORDERED != 0 ==> increasing(decoded_entries(b))
    }
}

/// The canonical image of a valid sketch is read back as the same sketch, by a reader with the
/// same seed (any seed, when the sketch is empty).
pub proof fn lemma_round_trip(
    b: Seq<u8>,
    entries: Seq<u64>,
    theta: u64,
    seed_hash: u16,
    ordered: bool,
    empty: bool,
    seed: u64,
)
    requires
        image(b, entries, theta, seed_hash, ordered, empty),
        0 < theta <= MAX_THETA,
        entries.len() <= MAX_ENTRIES,
        forall|i: int| 0 <= i < entries.len() ==> 0 < #[trigger] entries[i] < theta,
        ordered ==> increasing(entries),
        empty ==> entries.len() == 0 && theta == MAX_THETA,
        !empty ==> seed_hash == seed_hash_spec(seed),
    ensures
        acceptable(b, seed),
        (b[5] & FLAG_EMPTY != 0) == empty,
        (b[5] & FLAG_ORDERED != 0) == ordered,
        !empty ==> decoded_entries(b) == entries && decoded_theta(b) == theta,
{
    let f = b[5];
    assert(f == flags_of(empty, ordered));
    assert((f & FLAG_EMPTY != 0) == empty && (f & FLAG_ORDERED != 0) == ordered) by {
        if empty && ordered {
            assert(f == 30);
            assert(30u8 & 4u8 != 0 && 30u8 & 16u8 != 0) by (bit_vector);
        } else if empty {
            assert(f == 14);
            assert(14u8 & 4u8 != 0 && 14u8 & 16u8 == 0) by (bit_vector);
        } else if ordered {
            assert(f == 26);
            assert(26u8 & 4u8 == 0 && 26u8 & 16u8 != 0) by (bit_vector);
        } else {
            assert(f == 10);
            assert(10u8 & 4u8 == 0 && 10u8 & 16u8 == 0) by (bit_vector);
        }
    }
    if !empty {
        assert(decoded_count(b) == entries.len());
        assert(decoded_start(b) == 8 * preamble_longs_of(empty, entries.len() as int, theta));
        if b[0] == 3 {
            assert(decoded_theta(b) == theta);
        }
        reveal(decoded_entries);
        assert(decoded_entries(b) =~= entries) by {
            assert forall|i: int| 0 <= i < entries.len() implies decoded_entries(b)[i] == entries[i] by {
                let st = decoded_start(b);
                let start = image_start(empty, entries.len() as int, theta);
                assert(le_nat(b.subrange(start + 8 * i, start + 8 * i + 8)) == entries[i]);
                assert(st == start);
                crate::codec::lemma_le_nat_bound(b.subrange(st + 8 * i, st + 8 * i + 8));
            }
        }
    }
}

/// Serial version of the legacy image with a fixed three-word preamble and no seed digest.
pub const SER_VER_LEGACY_PRECISE: u8 = 1;

/// Serial version of the legacy image whose preamble size tells empty, exact and estimating
/// sketches apart.
pub const SER_VER_LEGACY_TRI_STATE: u8 = 2;

/// A legacy version-1 image read as the canonical image it corresponds to: three preamble
/// words, an ordered sketch, and the digest of the reader's seed.
pub open spec fn legacy_precise_as_canonical(b: Seq<u8>, seed: u64) -> Seq<u8> {
    let d = seed_hash_spec(seed);
    b.update(0, 3).update(1, SER_VER).update(5, (FLAG_READ_ONLY + FLAG_COMPACT + FLAG_ORDERED) as u8)
        .update(6, (d % 256) as u8).update(7, (d / 256) as u8)
}

/// Serial version of the compressed image.
pub const SER_VER_COMPRESSED: u8 = 4;

/// The gaps between successive entries, the first taken from 0.
pub open spec fn deltas(e: Seq<u64>) -> Seq<u64> {
    Seq::new(e.len(), |i: int| if i == 0 {
        e[0]
    } else {
        (e[i] - e[i - 1]) as u64
    })
}

/// The sum of the first `n` values.
pub open spec fn psum(v: Seq<u64>, n: int) -> int
    decreases n,
{
    if n <= 0 {
        0
    } else {
        psum(v, n - 1) + v[n - 1]
    }
}

/// Summing the gaps of an increasing sequence gives it back.
pub proof fn lemma_psum_deltas(e: Seq<u64>, n: int)
    requires
        increasing(e),
        0 <= n <= e.len(),
    ensures
        n >= 1 ==> psum(deltas(e), n) == e[n - 1],
    decreases n,
{
    if n > 1 {
        lemma_psum_deltas(e, n - 1);
        assert(e[n - 2] < e[n - 1]);
    } else if n == 1 {
        assert(psum(deltas(e), 0) == 0);
    }
}

/// The packed region of a compressed image holds the gaps of `entries` at width `b`.
pub open spec fn packed_image(region: Seq<u8>, entries: Seq<u64>, b: nat) -> bool {
    &&& region.len() * 8 >= entries.len() * b
    &&& stream(region).subrange(0, (entries.len() * b) as int) == block_bits(deltas(entries), b)
}

/// The `n` values of `b` bits each at the start of a packed region.
pub open spec fn packed_values(region: Seq<u8>, n: nat, b: nat) -> Seq<u64> {
    Seq::new(n, |j: int| value_of(stream(region).subrange(j * b, (j + 1) * b)) as u64)
}

/// What a packed region says: `n` values of `b` bits each, summed in turn.
pub open spec fn decoded_packed(region: Seq<u8>, n: nat, b: nat) -> Seq<u64> {
    Seq::new(n, |i: int| psum(packed_values(region, n, b), i + 1) as u64)
}

/// Reading the packed gaps of an increasing sequence and summing them gives the sequence back.
pub proof fn lemma_packed_round_trip(region: Seq<u8>, entries: Seq<u64>, b: nat)
    requires
        packed_image(region, entries, b),
        1 <= b <= 63,
        increasing(entries),
        forall|i: int| 0 <= i < entries.len() ==> fits(#[trigger] deltas(entries)[i], b),
    ensures
        decoded_packed(region, entries.len(), b) == entries,
        packed_values(region, entries.len(), b) == deltas(entries),
{
    let n = entries.len();
    let d = deltas(entries);
    let vals = packed_values(region, n, b);
    assert(vals =~= d) by {
        assert forall|j: int| 0 <= j < n implies vals[j] == d[j] by {
            crate::bit_pack::lemma_block_bits_at(d, b, j);
            crate::bit_pack::lemma_bits_round_trip(d[j], b);
            assert((j + 1) * b <= n * b) by (nonlinear_arith)
                requires
                    j < n,
            ;
            assert(j * b >= 0) by (nonlinear_arith)
                requires
                    j >= 0,
            ;
            let st = stream(region);
            assert((j + 1) * b == j * b + b) by (nonlinear_arith);
            assert(st.len() == 8 * region.len());
            assert(n * b <= st.len());
            let pre = st.subrange(0, (n * b) as int);
            assert forall|t: int| 0 <= t < b implies #[trigger] st.subrange(j * b, (j + 1) * b)[t] == pre.subrange(j * b, (j + 1) * b)[t] by {
                assert(j * b + t < n * b) by (nonlinear_arith)
                    requires
                        j < n,
                        t < b,
                ;
            }
            assert(st.subrange(j * b, (j + 1) * b) =~= pre.subrange(j * b, (j + 1) * b));
        }
    }
    assert(decoded_packed(region, n, b) =~= entries) by {
        assert forall|i: int| 0 <= i < n implies decoded_packed(region, n, b)[i] == entries[i] by {
            lemma_psum_deltas(entries, i + 1);
        }
    }
}

/// Packs the gaps of `entries`, `b` bits each, into `ceil(n * b / 8)` bytes.
pub fn pack_deltas(entries: &Vec<u64>, b: u8) -> (r: Vec<u8>)
    requires
        1 <= b <= 63,
        entries@.len() <= MAX_ENTRIES,
        increasing(entries@),
    ensures
        packed_image(r@, entries@, b as nat),
        r@.len() == (entries@.len() * b + 7) / 8,
{
    let n = entries.len();
    assert(n * b + 7 < 0x1_0000_0000) by (nonlinear_arith)
        requires
            n <= 0x400_0000,
            b <= 63,
    ;
    let total = (n * (b as usize) + 7) / 8;
    let mut buf: Vec<u8> = Vec::new();
    while buf.len() < total
        invariant
            buf@.len() <= total,
        decreases total - buf@.len(),
    {
        buf.push(0);
    }
    let mut packer = BitPacker::new(buf);
    let mut i: usize = 0;
    let ghost d = deltas(entries@);
    while i < n
        invariant
            1 <= b <= 63,
            n == entries@.len(),
            n <= MAX_ENTRIES,
            total == (n * b + 7) / 8,
            i <= n,
            increasing(entries@),
            d == deltas(entries@),
            packer.wf(),
            packer.buffer().len() == total,
            packer.pos() == i * b,
            packer.written() == block_bits(d.subrange(0, i as int), b as nat),
        decreases n - i,
    {
        let delta = if i == 0 {
            entries[0]
        } else {
            entries[i] - entries[i - 1]
        };
        proof {
            if i > 0 {
                assert(entries@[i - 1] < entries@[i as int]);
            }
            assert(d[i as int] == delta);
            assert(d.subrange(0, i + 1).drop_last() =~= d.subrange(0, i as int));
            assert(d.subrange(0, i + 1).last() == delta);
            assert((i + 1) * b <= n * b) by (nonlinear_arith)
                requires
                    i < n,
            ;
            assert((i + 1) * b == i * b + b) by (nonlinear_arith);
        }
        packer.pack_value(delta, b);
        i = i + 1;
    }
    proof {
        assert(d.subrange(0, n as int) =~= d);
        crate::bit_pack::lemma_block_bits_len(d, b as nat);
    }
    packer.into_bytes()
}

/// Every value is positive and every running sum stays below `bound`.
pub open spec fn valid_sums(vals: Seq<u64>, bound: u64) -> bool {
    forall|i: int| 0 <= i < vals.len() ==> #[trigger] vals[i] > 0 && psum(vals, i + 1) < bound
}

/// Reads `n` values of `b` bits each and sums them in turn; `None` unless every value is
/// positive and every sum is below `bound`.
pub fn unpack_deltas(region: &[u8], n: usize, b: u8, bound: u64) -> (r: Option<Vec<u64>>)
    requires
        1 <= b <= 63,
        n <= MAX_ENTRIES,
        n * b <= region@.len() * 8,
        bound <= MAX_THETA,
    ensures
        r.is_some() <==> valid_sums(packed_values(region@, n as nat, b as nat), bound),
        r matches Some(v) ==> v@ == decoded_packed(region@, n as nat, b as nat),
{
    let ghost vals = packed_values(region@, n as nat, b as nat);
    let mut unpacker = BitUnpacker::new(region);
    let mut out: Vec<u64> = Vec::new();
    let mut acc: u64 = 0;
    let mut i: usize = 0;
    while i < n
        invariant
            1 <= b <= 63,
            n <= MAX_ENTRIES,
            n * b <= region@.len() * 8,
            bound <= MAX_THETA,
            i <= n,
            unpacker.wf(),
            unpacker.buffer() == region@,
            unpacker.pos() == i * b,
            out@.len() == i,
            acc == psum(vals, i as int),
            acc < bound || i == 0,
            vals == packed_values(region@, n as nat, b as nat),
            forall|q: int| 0 <= q < i ==> #[trigger] vals[q] > 0 && psum(vals, q + 1) < bound,
            forall|q: int| 0 <= q < i ==> #[trigger] out@[q] == psum(vals, q + 1) as u64,
        decreases n - i,
    {
        proof {
            assert((i + 1) * b <= n * b) by (nonlinear_arith)
                requires
                    i < n,
            ;
            assert((i + 1) * b == i * b + b) by (nonlinear_arith);
            crate::bit_pack::lemma_value_of_bound(stream(region@).subrange(i * b, i * b + b));
            crate::bit_pack::lemma_pow2_mono(b as nat, 63);
            reveal_with_fuel(crate::bit_pack::pow2, 64);
            assert(psum(vals, i + 1) == psum(vals, i as int) + vals[i as int]);
        }
        let v = unpacker.unpack_value(b);
        proof {
            assert(vals[i as int] == v);
        }
        if v == 0 || v >= bound || acc >= bound - v {
            proof {
                assert(!(vals[i as int] > 0 && psum(vals, i + 1) < bound));
            }
            return None;
        }
        acc = acc + v;
        out.push(acc);
        i = i + 1;
    }
    proof {
        assert(out@ =~= decoded_packed(region@, n as nat, b as nat));
    }
    Some(out)
}

/// Where the entry count of a compressed image starts.
pub open spec fn v4_count_start(b: Seq<u8>) -> int {
    8 * b[0]
}

/// The entry count of a compressed image.
pub open spec fn v4_count(b: Seq<u8>) -> int {
    le_nat(b.subrange(v4_count_start(b), v4_count_start(b) + b[4])) as int
}

/// θ of a compressed image.
pub open spec fn v4_theta(b: Seq<u8>) -> u64 {
    if b[0] == 2 {
        le_nat(b.subrange(8, 16)) as u64
    } else {
        MAX_THETA
    }
}

/// The packed gaps of a compressed image.
pub open spec fn v4_region(b: Seq<u8>) -> Seq<u8> {
    b.subrange(v4_count_start(b) + b[4], b.len() as int)
}

/// The checks that a compressed image passes when read with `seed`.
pub open spec fn acceptable_v4(b: Seq<u8>, seed: u64) -> bool {
    &&& b.len() >= 8
    &&& b[1] == SER_VER_COMPRESSED
    &&& b[2] == FAMILY_ID
    &&& 1 <= b[0] <= 2
    &&& 1 <= b[3] <= 63
    &&& 1 <= b[4] <= 4
    &&& le_nat(b.subrange(6, 8)) == seed_hash_spec(seed)
    &&& b[0] == 2 ==> b.len() >= 16 && 0 < le_nat(b.subrange(8, 16)) <= MAX_THETA
    &&& b.len() >= v4_count_start(b) + b[4]
    &&& v4_count(b) <= MAX_ENTRIES
    &&& v4_count(b) * b[3] <= 8 * v4_region(b).len()
    &&& valid_sums(packed_values(v4_region(b), v4_count(b) as nat, b[3] as nat), v4_theta(b))
}

/// Running sums of positive values stay positive and below the bound they were checked against.
proof fn lemma_psum_pos(vals: Seq<u64>, k: int, bound: u64)
    requires
        valid_sums(vals, bound),
        1 <= k <= vals.len(),
    ensures
        0 < psum(vals, k) < bound,
    decreases k,
{
    if k > 1 {
        lemma_psum_pos(vals, k - 1, bound);
    } else {
        assert(psum(vals, 0) == 0);
    }
    assert(psum(vals, k) == psum(vals, k - 1) + vals[k - 1]);
    assert(vals[k - 1] > 0 && psum(vals, k) < bound);
}

/// Running sums of positive values increase.
proof fn lemma_psum_mono(vals: Seq<u64>, a: int, b: int, bound: u64)
    requires
        valid_sums(vals, bound),
        1 <= a < b <= vals.len(),
    ensures
        psum(vals, a) < psum(vals, b),
    decreases b - a,
{
    lemma_psum_pos(vals, a, bound);
    assert(vals[b - 1] > 0);
    if a < b - 1 {
        lemma_psum_mono(vals, a, b - 1, bound);
    }
}

/// The compressed image of a valid ordered sketch is read back as the same sketch by a reader
/// with the same seed.
pub proof fn lemma_compressed_round_trip(
    b: Seq<u8>,
    entries: Seq<u64>,
    theta: u64,
    seed_hash: u16,
    width: u8,
    seed: u64,
)
    requires
        compressed_image(b, entries, theta, seed_hash, width),
        0 < theta <= MAX_THETA,
        entries.len() <= MAX_ENTRIES,
        forall|i: int| 0 <= i < entries.len() ==> 0 < #[trigger] entries[i] < theta,
        increasing(entries),
        seed_hash == seed_hash_spec(seed),
    ensures
        acceptable_v4(b, seed),
        v4_theta(b) == theta,
        decoded_packed(v4_region(b), v4_count(b) as nat, b[3] as nat) == entries,
{
    let n = entries.len();
    lemma_packed_round_trip(v4_region(b), entries, width as nat);
    let d = deltas(entries);
    assert forall|i: int| 0 <= i < d.len() implies #[trigger] d[i] > 0 && psum(d, i + 1) < theta by {
        lemma_psum_deltas(entries, i + 1);
        if i > 0 {
            assert(entries[i - 1] < entries[i]);
        }
    }
    assert(valid_sums(d, theta));
    crate::bit_pack::lemma_block_bits_len(d, width as nat);
}

/// `b` is the compressed image of an ordered sketch with these fields, gaps `width` bits wide.
pub open spec fn compressed_image(b: Seq<u8>, entries: Seq<u64>, theta: u64, seed_hash: u16, width: u8) -> bool {
    &&& b.len() >= 8
    &&& b[0] == if theta == MAX_THETA {
        1u8
    } else {
        2u8
    }
    &&& b[1] == SER_VER_COMPRESSED
    &&& b[2] == FAMILY_ID
    &&& b[3] == width
    &&& 1 <= width <= 63
    &&& 1 <= b[4] <= 4
    &&& b[5] == flags_of(false, true)
    &&& le_nat(b.subrange(6, 8)) == seed_hash
    &&& b.len() >= v4_count_start(b) + b[4]
    &&& b[0] == 2 ==> le_nat(b.subrange(8, 16)) == theta
    &&& v4_count(b) == entries.len()
    &&& packed_image(v4_region(b), entries, width as nat)
    &&& forall|i: int| 0 <= i < entries.len() ==> fits(#[trigger] deltas(entries)[i], width as nat)
    &&& width == 1 || exists|i: int| 0 <= i < entries.len() && !fits(#[trigger] deltas(entries)[i], (width - 1) as nat)
    &&& b[4] == count_width(entries.len() as int)
}

/// The fewest bytes that hold `n`, for `n` below `2^32`.
pub open spec fn count_width(n: int) -> u8 {
    if n < 0x100 {
        1
    } else if n < 0x1_0000 {
        2
    } else if n < 0x100_0000 {
        3
    } else {
        4
    }
}

fn slice_to_vec(b: &[u8]) -> (r: Vec<u8>)
    ensures
        r@ == b@,
{
    let mut out: Vec<u8> = Vec::new();
    let mut i: usize = 0;
    while i < b.len()
        invariant
            i <= b@.len(),
            out@ == b@.subrange(0, i as int),
        decreases b.len() - i,
    {
        out.push(b[i]);
        i = i + 1;
        assert(out@ =~= b@.subrange(0, i as int));
    }
    assert(out@ =~= b@);
    out
}

/// Reads two little-endian bytes at `offset`.
fn read_le_u16(bytes: &[u8], offset: usize) -> (r: u16)
    requires
        offset + 2 <= bytes@.len(),
    ensures
        r == le_nat(bytes@.subrange(offset as int, offset + 2)),
{
    proof {
        crate::codec::lemma_le_nat_bound(bytes@.subrange(offset as int, offset + 2));
        assert(crate::codec::pow256(2) == 0x1_0000) by {
            reveal_with_fuel(crate::codec::pow256, 3);
        }
    }
    crate::codec::read_le(bytes, offset, 2) as u16
}

/// Writes `value` as two little-endian bytes at `offset`.
fn write_le_u16(bytes: &mut Vec<u8>, offset: usize, value: u16)
    requires
        offset + 2 <= old(bytes)@.len(),
    ensures
        final(bytes)@.len() == old(bytes)@.len(),
        le_nat(final(bytes)@.subrange(offset as int, offset + 2)) == value,
        forall|j: int|
            0 <= j < old(bytes)@.len() && !(offset <= j < offset + 2) ==> #[trigger] final(bytes)@[j]
                == old(bytes)@[j],
{
    proof {
        assert(crate::codec::pow256(2) == 0x1_0000) by {
            reveal_with_fuel(crate::codec::pow256, 3);
        }
    }
    crate::codec::write_le(bytes, offset, value as u64, 2);
}

} // verus!
