//! A read-only view of a serialized compressed CPC sketch: its header fields, with the HIP
//! accumulator kept as the bit pattern of the stored double.
use vstd::prelude::*;

use crate::codec::le_nat;
use crate::codec::read_u32_le;
use crate::codec::read_u64_le;
use crate::error::Error;

verus! {

/// Family byte of a CPC sketch.
pub const FAMILY_ID: u8 = 16;

/// Serial version read.
pub const SERIAL_VERSION: u8 = 1;

/// Flag bit positions.
pub const FLAG_COMPRESSED: u8 = 1;

pub const FLAG_HAS_HIP: u8 = 2;

pub const FLAG_HAS_TABLE: u8 = 3;

pub const FLAG_HAS_WINDOW: u8 = 4;

/// Range of the base-2 logarithm of `k`.
pub const MIN_LG_K: u8 = 4;

pub const MAX_LG_K: u8 = 26;

/// The preamble size, in 4-byte words, that a sketch with these parts declares.
pub open spec fn preamble_ints_spec(num_coupons: u32, has_hip: bool, has_table: bool, has_window: bool) -> int {
    if num_coupons == 0 {
        2
    } else {
        3 + (if has_hip { 4int } else { 0int }) + (if has_table { 1int + if has_window { 1int } else { 0int } } else { 0int }) + (if has_window { 1int } else { 0int })
    }
}

/// The preamble size, in 4-byte words, that a sketch with these parts declares.
pub fn make_preamble_ints(num_coupons: u32, has_hip: bool, has_table: bool, has_window: bool) -> (r: u8)
    ensures
        r == preamble_ints_spec(num_coupons, has_hip, has_table, has_window),
{
    let mut p: u8 = 2;
    if num_coupons > 0 {
        p = p + 1;
        if has_hip {
            p = p + 4;
        }
        if has_table {
            p = p + 1;
            if has_window {
                p = p + 1;
            }
        }
        if has_window {
            p = p + 1;
        }
    }
    p
}

pub open spec fn flag(f: u8, bit: u8) -> bool {
    f & (1u8 << bit) != 0
}

/// Where the HIP accumulator sits: after the coupon count, one table or window field and the
/// stored `kxp` (or after the two table counts and `kxp`).
pub open spec fn hip_offset(has_table: bool, has_window: bool) -> int {
    24
}

/// How long a header with these parts is.
pub open spec fn header_len(has_hip: bool, has_table: bool, has_window: bool) -> int {
    if !(has_table || has_window) {
        8
    } else {
        12 + (if has_table && has_window { 4int } else { 0int }) + (if has_hip { 16int } else { 0int })
            + (if has_table { 4int } else { 0int }) + (if has_window { 4int } else { 0int })
    }
}

/// The stored coupon count of a header.
pub open spec fn coupons_of(b: Seq<u8>) -> u32 {
    if flag(b[5], FLAG_HAS_TABLE) || flag(b[5], FLAG_HAS_WINDOW) {
        le_nat(b.subrange(8, 12)) as u32
    } else {
        0
    }
}

/// `b` starts with a well-formed header of a compressed CPC sketch.
pub open spec fn header_ok(b: Seq<u8>) -> bool {
    let f = b[5];
    &&& b.len() >= 8
    &&& b[1] == SERIAL_VERSION
    &&& b[2] == FAMILY_ID
    &&& MIN_LG_K <= b[3] <= MAX_LG_K
    &&& b[4] <= 63
    &&& flag(f, FLAG_COMPRESSED)
    &&& b.len() >= header_len(flag(f, FLAG_HAS_HIP), flag(f, FLAG_HAS_TABLE), flag(f, FLAG_HAS_WINDOW))
    &&& b[0] == preamble_ints_spec(coupons_of(b), flag(f, FLAG_HAS_HIP), flag(f, FLAG_HAS_TABLE), flag(f, FLAG_HAS_WINDOW))
}

/// The header fields of a serialized CPC sketch.
pub struct CpcWrapper {
    lg_k: u8,
    merge_flag: bool,
    num_coupons: u32,
    hip_est_accum: u64,
}

impl CpcWrapper {
    pub closed spec fn lg_k_spec(&self) -> u8 {
        self.lg_k
    }

    pub closed spec fn merge_flag_spec(&self) -> bool {
        self.merge_flag
    }

    pub closed spec fn coupons_spec(&self) -> u32 {
        self.num_coupons
    }

    pub closed spec fn hip_spec(&self) -> u64 {
        self.hip_est_accum
    }

    /// Reads the header of a serialized compressed sketch.
    pub fn new(bytes: &[u8]) -> (r: Result<Self, Error>)
        ensures
            r.is_ok() <==> header_ok(bytes@),
            r matches Ok(w) ==> {
                let f = bytes@[5];
                &&& w.lg_k_spec() == bytes@[3]
                &&& w.merge_flag_spec() == !flag(f, FLAG_HAS_HIP)
                &&& w.coupons_spec() == coupons_of(bytes@)
                &&& w.hip_spec() == if flag(f, FLAG_HAS_HIP) && (flag(f, FLAG_HAS_TABLE) || flag(f, FLAG_HAS_WINDOW)) {
                    le_nat(bytes@.subrange(hip_offset(flag(f, FLAG_HAS_TABLE), flag(f, FLAG_HAS_WINDOW)), hip_offset(flag(f, FLAG_HAS_TABLE), flag(f, FLAG_HAS_WINDOW)) + 8)) as u64
                } else {
                    0u64
                }
            },
    {
        if bytes.len() < 8 {
            return Err(Error::insufficient_data("preamble"));
        }
        let preamble_ints = bytes[0];
        if bytes[2] != FAMILY_ID {
            return Err(Error::deserial("invalid family"));
        }
        if bytes[1] != SERIAL_VERSION {
            return Err(Error::deserial("unsupported serial version"));
        }
        let lg_k = bytes[3];
        let first_interesting_column = bytes[4];
        if lg_k < MIN_LG_K || lg_k > MAX_LG_K {
            return Err(Error::invalid_argument("lg_k out of range"));
        }
        if first_interesting_column > 63 {
            return Err(Error::invalid_argument("first_interesting_column out of range"));
        }
        let flags = bytes[5];
        let is_compressed = flags & (1u8 << FLAG_COMPRESSED) != 0;
        if !is_compressed {
            return Err(Error::deserial("only compressed sketches are supported"));
        }
        let has_hip = flags & (1u8 << FLAG_HAS_HIP) != 0;
        let has_table = flags & (1u8 << FLAG_HAS_TABLE) != 0;
        let has_window = flags & (1u8 << FLAG_HAS_WINDOW) != 0;
        let len = bytes.len();
        let mut num_coupons: u32 = 0;
        let mut hip_est_accum: u64 = 0;
        if has_table || has_window {
            if len < 12 {
                return Err(Error::insufficient_data("num_coupons"));
            }
            num_coupons = read_u32_le(bytes, 8);
            let mut pos: usize = 12;
            if has_table && has_window {
                if len < 16 {
                    return Err(Error::insufficient_data("table_num_entries"));
                }
                pos = 16;
                if has_hip {
                    if len < 32 {
                        return Err(Error::insufficient_data("hip_est_accum"));
                    }
                    hip_est_accum = read_u64_le(bytes, 24);
                    pos = 32;
                }
            }
            if has_table {
                if len < pos + 4 {
                    return Err(Error::insufficient_data("table_data_words"));
                }
                pos = pos + 4;
            }
            if has_window {
                if len < pos + 4 {
                    return Err(Error::insufficient_data("window_data_words"));
                }
                pos = pos + 4;
            }
            if has_hip && !(has_table && has_window) {
                if len < pos + 16 {
                    return Err(Error::insufficient_data("hip_est_accum"));
                }
                hip_est_accum = read_u64_le(bytes, pos + 8);
                pos = pos + 16;
            }
            proof {
                assert(pos == header_len(has_hip, has_table, has_window));
            }
        }
        let expected = make_preamble_ints(num_coupons, has_hip, has_table, has_window);
        if preamble_ints != expected {
            return Err(Error::deserial("invalid preamble ints"));
        }
        Ok(CpcWrapper { lg_k, merge_flag: !has_hip, num_coupons, hip_est_accum })
    }

    /// The base-2 logarithm of `k`.
    pub fn lg_k(&self) -> (r: u8)
        ensures
            r == self.lg_k_spec(),
    {
        self.lg_k
    }

    /// Whether the sketch came from merging, so that its HIP accumulator is not used.
    pub fn merge_flag(&self) -> (r: bool)
        ensures
            r == self.merge_flag_spec(),
    {
        self.merge_flag
    }

    /// The number of coupons collected.
    pub fn num_coupons(&self) -> (r: u32)
        ensures
            r == self.coupons_spec(),
    {
        self.num_coupons
    }

    /// The bit pattern of the HIP accumulator.
    pub fn hip_est_accum_bits(&self) -> (r: u64)
        ensures
            r == self.hip_spec(),
    {
        self.hip_est_accum
    }

    /// Whether the sketch saw no coupon.
    pub fn is_empty(&self) -> (r: bool)
        ensures
            r == (self.coupons_spec() == 0),
    {
        self.num_coupons == 0
    }
}

} // verus!
