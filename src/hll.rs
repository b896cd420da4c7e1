//! HyperLogLog register storage with one byte per register (the "HLL 8" layout).
//!
//! The registers, the count of zero registers and the wire format live here. The HIP estimator
//! state travels with the registers as the raw IEEE-754 bit patterns of its three accumulators,
//! which the caller updates from the register promotions that [`Array8::update`] reports.
use vstd::prelude::*;

use crate::codec::le_nat;
use crate::codec::read_u32_le;
use crate::codec::read_u64_le;
use crate::codec::write_u32_le;
use crate::codec::write_u64_le;
use crate::error::Error;
use crate::error::ErrorKind;

verus! {

/// Bits of a coupon that hold the register value.
pub const VALUE_BITS: u32 = 6;

/// Size in bytes of the HLL preamble.
pub const HLL_PREAMBLE_SIZE: usize = 40;

/// Preamble size in 4-byte words.
pub const HLL_PREINTS: u8 = 10;

/// Serial version written and read.
pub const SER_VER: u8 = 1;

/// Family byte of a serialized HLL sketch.
pub const HLL_FAMILY_ID: u8 = 7;

/// Flag bit of an image whose HIP estimate is no longer authoritative.
pub const OUT_OF_ORDER_FLAG_MASK: u8 = 16;

/// Mode byte of an image in HLL mode with one byte per register.
pub const MODE_HLL8: u8 = 10;

/// Smallest and largest base-2 logarithm of the number of registers.
pub const MIN_LG_K: u8 = 4;

pub const MAX_LG_K: u8 = 21;

/// Packs a register slot and a register value (6 bits) into a coupon.
pub fn pack_coupon(slot: u32, value: u8) -> (r: u32)
    requires
        slot < 0x400_0000,
        value < 64,
    ensures
        get_slot_spec(r) == slot,
        get_value_spec(r) == value,
{
    let r = (slot << 6u32) | (value as u32);
    proof {
        let v = value as u32;
        assert(((slot << 6u32) | v) >> 6u32 == slot && (((slot << 6u32) | v) & 63u32) == v) by (bit_vector)
            requires
                slot < 0x400_0000,
                v < 64,
        ;
    }
    r
}

pub open spec fn get_slot_spec(coupon: u32) -> u32 {
    coupon >> 6u32
}

pub open spec fn get_value_spec(coupon: u32) -> u32 {
    coupon & 63u32
}

/// The register slot of a coupon.
pub fn get_slot(coupon: u32) -> (r: u32)
    ensures
        r == get_slot_spec(coupon),
{
    coupon >> 6u32
}

/// The register value of a coupon.
pub fn get_value(coupon: u32) -> (r: u8)
    ensures
        r == get_value_spec(coupon),
        r < 64,
{
    proof {
        assert(coupon & 63u32 < 64) by (bit_vector);
    }
    (coupon & 63u32) as u8
}

/// The registers an image holds: `k` zeros for a compact image, else the `k` bytes after the
/// preamble.
pub open spec fn image_registers(b: Seq<u8>, k: int, compact: bool) -> Seq<u8> {
    if compact {
        Seq::new(k as nat, |i: int| 0u8)
    } else {
        b.subrange(40, 40 + k)
    }
}

/// The number of zero bytes in `s`.
pub open spec fn count_zeros(s: Seq<u8>) -> nat
    decreases s.len(),
{
    if s.len() == 0 {
        0
    } else {
        count_zeros(s.drop_last()) + if s.last() == 0 {
            1nat
        } else {
            0nat
        }
    }
}

/// Changing one byte changes the count of zeros by what that byte contributes.
pub proof fn lemma_count_zeros_update(s: Seq<u8>, i: int, v: u8)
    requires
        0 <= i < s.len(),
    ensures
        count_zeros(s.update(i, v)) + (if s[i] == 0 {
            1int
        } else {
            0int
        }) == count_zeros(s) + (if v == 0 {
            1int
        } else {
            0int
        }),
        count_zeros(s) <= s.len(),
    decreases s.len(),
{
    let t = s.update(i, v);
    if i == s.len() - 1 {
        assert(t.drop_last() =~= s.drop_last());
    } else {
        assert(t.drop_last() =~= s.drop_last().update(i, v));
        lemma_count_zeros_update(s.drop_last(), i, v);
    }
    lemma_count_zeros_le(s);
}

proof fn lemma_count_zeros_le(s: Seq<u8>)
    ensures
        count_zeros(s) <= s.len(),
    decreases s.len(),
{
    if s.len() > 0 {
        lemma_count_zeros_le(s.drop_last());
    }
}

/// A byte string of zeros counts all its bytes.
proof fn lemma_count_zeros_all(s: Seq<u8>)
    requires
        forall|i: int| 0 <= i < s.len() ==> s[i] == 0,
    ensures
        count_zeros(s) == s.len(),
    decreases s.len(),
{
    if s.len() > 0 {
        lemma_count_zeros_all(s.drop_last());
    }
}

/// The raw IEEE-754 bit patterns of the HIP estimator's state.
#[derive(Debug, Clone, Copy, PartialEq, Eq, Structural)]
pub struct HipBits {
    pub hip_accum: u64,
    pub kxq0: u64,
    pub kxq1: u64,
    pub out_of_order: bool,
}

/// One byte per register, with the count of zero registers and the HIP state.
pub struct Array8 {
    lg_config_k: u8,
    bytes: Vec<u8>,
    num_zeros: u32,
    hip: HipBits,
}

impl Array8 {
    /// The registers.
    pub closed spec fn regs(&self) -> Seq<u8> {
        self.bytes@
    }

    pub closed spec fn lg_k_spec(&self) -> int {
        self.lg_config_k as int
    }

    pub closed spec fn num_zeros_spec(&self) -> int {
        self.num_zeros as int
    }

    pub closed spec fn hip_spec(&self) -> HipBits {
        self.hip
    }

    /// The registers are `2^lg_k` bytes, `lg_k` is in range, and the zero count is exact.
    pub proof fn lemma_wf(&self)
        requires
            self.wf(),
        ensures
            MIN_LG_K <= self.lg_k_spec() <= MAX_LG_K,
            self.regs().len() == (1u32 << self.lg_k_spec() as u32),
            self.num_zeros_spec() == count_zeros(self.regs()),
    {
    }

    pub closed spec fn wf(&self) -> bool {
        &&& MIN_LG_K <= self.lg_config_k <= MAX_LG_K
        &&& self.bytes@.len() == (1u32 << self.lg_config_k as u32)
        &&& 16 <= self.bytes@.len() <= 0x20_0000
        &&& self.num_zeros == count_zeros(self.bytes@)
    }

    /// `2^lg_config_k` registers, all zero, with the HIP state of an empty sketch: a zero
    /// accumulator, `kxq0 = 2^lg_config_k` and `kxq1 = 0`.
    pub fn new(lg_config_k: u8) -> (r: Array8)
        requires
            MIN_LG_K <= lg_config_k <= MAX_LG_K,
        ensures
            r.wf(),
            r.lg_k_spec() == lg_config_k,
            r.regs().len() == (1u32 << lg_config_k as u32),
            forall|i: int| 0 <= i < r.regs().len() ==> #[trigger] r.regs()[i] == 0,
            r.num_zeros_spec() == r.regs().len(),
            r.hip_spec() == (HipBits {
                hip_accum: 0,
                kxq0: ((1023 + lg_config_k) * 0x10_0000_0000_0000) as u64,
                kxq1: 0,
                out_of_order: false,
            }),
    {
        let hip = HipBits {
            hip_accum: 0,
            kxq0: (1023 + lg_config_k as u64) * 0x10_0000_0000_0000,
            kxq1: 0,
            out_of_order: false,
        };
        let k: u32 = 1u32 << (lg_config_k as u32);
        proof {
            let l = lg_config_k as u32;
            assert(16 <= (1u32 << l) <= 0x20_0000) by (bit_vector)
                requires
                    4 <= l <= 21,
            ;
        }
        let mut bytes: Vec<u8> = Vec::new();
        while bytes.len() < k as usize
            invariant
                bytes@.len() <= k,
                forall|i: int| 0 <= i < bytes@.len() ==> #[trigger] bytes@[i] == 0,
            decreases k - bytes@.len(),
        {
            bytes.push(0);
        }
        proof {
            lemma_count_zeros_all(bytes@);
        }
        Array8 { lg_config_k, bytes, num_zeros: k, hip }
    }

    /// The value of register `slot`.
    pub fn get(&self, slot: u32) -> (r: u8)
        requires
            self.wf(),
            slot < self.regs().len(),
        ensures
            r == self.regs()[slot as int],
    {
        self.bytes[slot as usize]
    }

    /// Sets register `slot` to `value`, keeping the count of zero registers.
    pub fn put(&mut self, slot: u32, value: u8)
        requires
            old(self).wf(),
            slot < old(self).regs().len(),
        ensures
            final(self).wf(),
            final(self).regs() == old(self).regs().update(slot as int, value),
            final(self).lg_k_spec() == old(self).lg_k_spec(),
            final(self).hip_spec() == old(self).hip_spec(),
    {
        let old_value = self.bytes[slot as usize];
        proof {
            lemma_count_zeros_update(self.bytes@, slot as int, value);
            lemma_count_zeros_le(self.bytes@.update(slot as int, value));
        }
        self.bytes.set(slot as usize, value);
        if old_value == 0 && value != 0 {
            self.num_zeros = self.num_zeros - 1;
        } else if old_value != 0 && value == 0 {
            self.num_zeros = self.num_zeros + 1;
        }
    }

    /// The number of registers still zero.
    pub fn num_zeros(&self) -> (r: u32)
        requires
            self.wf(),
        ensures
            r == count_zeros(self.regs()),
    {
        self.num_zeros
    }

    /// The base-2 logarithm of the number of registers.
    pub fn lg_config_k(&self) -> (r: u8)
        ensures
            r == self.lg_k_spec(),
            self.wf() ==> MIN_LG_K <= r <= MAX_LG_K,
    {
        self.lg_config_k
    }

    /// The HIP state.
    pub fn hip(&self) -> (r: HipBits)
        ensures
            r == self.hip_spec(),
    {
        self.hip
    }

    /// Replaces the HIP state.
    pub fn set_hip(&mut self, hip: HipBits)
        ensures
            final(self).regs() == old(self).regs(),
            final(self).lg_k_spec() == old(self).lg_k_spec(),
            final(self).num_zeros_spec() == old(self).num_zeros_spec(),
            final(self).hip_spec() == hip,
            old(self).wf() ==> final(self).wf(),
    {
        self.hip = hip;
    }

    /// Applies a coupon: its register rises to the coupon's value if that is larger. Returns
    /// the old and the new value of a register that rose, for the HIP estimator.
    pub fn update(&mut self, coupon: u32) -> (r: Option<(u8, u8)>)
        requires
            old(self).wf(),
        ensures
            final(self).wf(),
            final(self).lg_k_spec() == old(self).lg_k_spec(),
            final(self).hip_spec() == old(self).hip_spec(),
            ({
                let slot = (get_slot_spec(coupon) % (old(self).regs().len() as u32)) as int;
                let v = get_value_spec(coupon) as u8;
                &&& final(self).regs() == old(self).regs().update(
                    slot,
                    if v > old(self).regs()[slot] {
                        v
                    } else {
                        old(self).regs()[slot]
                    },
                )
                &&& r == if v > old(self).regs()[slot] {
                    Some((old(self).regs()[slot], v))
                } else {
                    None::<(u8, u8)>
                }
            }),
            forall|i: int|
                0 <= i < old(self).regs().len() ==> #[trigger] final(self).regs()[i] >= old(
                    self,
                ).regs()[i],
    {
        let k = self.bytes.len() as u32;
        let slot = get_slot(coupon) % k;
        let new_value = get_value(coupon);
        let old_value = self.bytes[slot as usize];
        if new_value > old_value {
            self.put(slot, new_value);
            Some((old_value, new_value))
        } else {
            proof {
                assert(self.bytes@.update(slot as int, old_value) =~= self.bytes@);
            }
            None
        }
    }

    /// The image of the registers: the 40-byte HLL preamble, then one byte per register.
    pub fn serialize(&self) -> (r: Vec<u8>)
        requires
            self.wf(),
        ensures
            r@.len() == HLL_PREAMBLE_SIZE + self.regs().len(),
            r@[0] == HLL_PREINTS,
            r@[1] == SER_VER,
            r@[2] == HLL_FAMILY_ID,
            r@[3] == self.lg_k_spec(),
            r@[5] == if self.hip_spec().out_of_order {
                OUT_OF_ORDER_FLAG_MASK
            } else {
                0
            },
            r@[7] == MODE_HLL8,
            le_nat(r@.subrange(8, 16)) == self.hip_spec().hip_accum,
            le_nat(r@.subrange(16, 24)) == self.hip_spec().kxq0,
            le_nat(r@.subrange(24, 32)) == self.hip_spec().kxq1,
            le_nat(r@.subrange(32, 36)) == self.num_zeros_spec(),
            self.num_zeros_spec() == count_zeros(self.regs()),
            le_nat(r@.subrange(36, 40)) == 0,
            r@.subrange(40, r@.len() as int) == self.regs(),
    {
        let mut out: Vec<u8> = Vec::new();
        while out.len() < HLL_PREAMBLE_SIZE
            invariant
                out@.len() <= HLL_PREAMBLE_SIZE,
                forall|i: int| 0 <= i < out@.len() ==> #[trigger] out@[i] == 0,
            decreases HLL_PREAMBLE_SIZE - out@.len(),
        {
            out.push(0);
        }
        out.set(0, HLL_PREINTS);
        out.set(1, SER_VER);
        out.set(2, HLL_FAMILY_ID);
        out.set(3, self.lg_config_k);
        out.set(5, if self.hip.out_of_order {
            OUT_OF_ORDER_FLAG_MASK
        } else {
            0
        });
        out.set(7, MODE_HLL8);
        proof {
            assert(le_nat(out@.subrange(36, 40)) == 0) by {
                reveal_with_fuel(le_nat, 5);
            }
        }
        let ghost s0 = out@;
        write_u64_le(&mut out, 8, self.hip.hip_accum);
        let ghost s1 = out@;
        write_u64_le(&mut out, 16, self.hip.kxq0);
        let ghost s2 = out@;
        write_u64_le(&mut out, 24, self.hip.kxq1);
        let ghost s3 = out@;
        write_u32_le(&mut out, 32, self.num_zeros);
        proof {
            assert(out@.subrange(8, 16) =~= s1.subrange(8, 16));
            assert(out@.subrange(16, 24) =~= s2.subrange(16, 24));
            assert(out@.subrange(24, 32) =~= s3.subrange(24, 32));
            assert(out@.subrange(36, 40) =~= s0.subrange(36, 40));
        }
        let ghost head = out@;
        let mut i: usize = 0;
        while i < self.bytes.len()
            invariant
                self.wf(),
                i <= self.bytes@.len(),
                out@.len() == HLL_PREAMBLE_SIZE + i,
                out@.subrange(0, 40) == head,
                out@.subrange(40, 40 + i) == self.bytes@.subrange(0, i as int),
            decreases self.bytes@.len() - i,
        {
            out.push(self.bytes[i]);
            i = i + 1;
            assert(out@.subrange(0, 40) =~= head);
            assert(out@.subrange(40, 40 + i) =~= self.bytes@.subrange(0, i as int));
        }
        proof {
            assert(self.bytes@.subrange(0, self.bytes@.len() as int) =~= self.bytes@);
            assert(out@.subrange(8, 16) =~= head.subrange(8, 16));
            assert(out@.subrange(16, 24) =~= head.subrange(16, 24));
            assert(out@.subrange(24, 32) =~= head.subrange(24, 32));
            assert(out@.subrange(32, 36) =~= head.subrange(32, 36));
            assert(out@.subrange(36, 40) =~= head.subrange(36, 40));
            assert(out@[0] == head[0] && out@[1] == head[1] && out@[2] == head[2] && out@[3]
                == head[3] && out@[5] == head[5] && out@[7] == head[7]);
        }
        out
    }

    /// Reads registers from an image with `2^lg_config_k` registers; a compact image holds the
    /// preamble alone and stands for all-zero registers. The stored count of zero registers must
    /// match the registers.
    pub fn deserialize(bytes: &[u8], lg_config_k: u8, compact: bool, ooo: bool) -> (r: Result<
        Array8,
        Error,
    >)
        requires
            MIN_LG_K <= lg_config_k <= MAX_LG_K,
        ensures
            bytes@.len() < HLL_PREAMBLE_SIZE + if compact {
                0
            } else {
                (1u32 << lg_config_k as u32) as int
            } ==> (r matches Err(e) && e.kind == ErrorKind::InsufficientData),
            bytes@.len() >= HLL_PREAMBLE_SIZE + if compact {
                0
            } else {
                (1u32 << lg_config_k as u32) as int
            } ==> (r.is_ok() <==> le_nat(bytes@.subrange(32, 36)) == count_zeros(
                image_registers(bytes@, (1u32 << lg_config_k as u32) as int, compact),
            )),
            r matches Ok(a) ==> {
                &&& a.wf()
                &&& a.regs() == image_registers(bytes@, (1u32 << lg_config_k as u32) as int, compact)
                &&& a.lg_k_spec() == lg_config_k
                &&& compact ==> forall|i: int| 0 <= i < a.regs().len() ==> #[trigger] a.regs()[i] == 0
                &&& !compact ==> a.regs() == bytes@.subrange(40, 40 + a.regs().len() as int)
                &&& a.num_zeros_spec() == le_nat(bytes@.subrange(32, 36))
                &&& a.hip_spec().hip_accum == le_nat(bytes@.subrange(8, 16))
                &&& a.hip_spec().kxq0 == le_nat(bytes@.subrange(16, 24))
                &&& a.hip_spec().kxq1 == le_nat(bytes@.subrange(24, 32))
                &&& a.hip_spec().out_of_order == ooo
            },
    {
        let k: u32 = 1u32 << (lg_config_k as u32);
        proof {
            let l = lg_config_k as u32;
            assert(16 <= (1u32 << l) <= 0x20_0000) by (bit_vector)
                requires
                    4 <= l <= 21,
            ;
        }
        let expected_len = if compact {
            HLL_PREAMBLE_SIZE
        } else {
            HLL_PREAMBLE_SIZE + k as usize
        };
        if bytes.len() < expected_len {
            return Err(Error::insufficient_data("registers"));
        }
        let hip = HipBits {
            hip_accum: read_u64_le(bytes, 8),
            kxq0: read_u64_le(bytes, 16),
            kxq1: read_u64_le(bytes, 24),
            out_of_order: ooo,
        };
        let num_zeros = read_u32_le(bytes, 32);
        let mut data: Vec<u8> = Vec::new();
        let mut i: usize = 0;
        while i < k as usize
            invariant
                i <= k,
                data@.len() == i,
                bytes@.len() >= expected_len,
                expected_len == HLL_PREAMBLE_SIZE + if compact {
                    0
                } else {
                    k as int
                },
                compact ==> forall|j: int| 0 <= j < i ==> #[trigger] data@[j] == 0,
                !compact ==> data@ == bytes@.subrange(40, 40 + i),
            decreases k - i,
        {
            if compact {
                data.push(0);
            } else {
                data.push(bytes[HLL_PREAMBLE_SIZE + i]);
                assert(data@ =~= bytes@.subrange(40, 40 + i + 1));
            }
            i = i + 1;
        }
        proof {
            if compact {
                assert(data@ =~= image_registers(bytes@, k as int, compact));
            } else {
                assert(data@ =~= image_registers(bytes@, k as int, compact));
            }
            crate::codec::lemma_le_nat_bound(bytes@.subrange(32, 36));
        }
        let zeros = count_zero_bytes(&data);
        if zeros != num_zeros {
            return Err(Error::deserial("zero-register count mismatch"));
        }
        Ok(Array8 { lg_config_k, bytes: data, num_zeros, hip })
    }
}

/// The number of zero bytes in `data`.
fn count_zero_bytes(data: &Vec<u8>) -> (r: u32)
    requires
        data@.len() <= u32::MAX,
    ensures
        r == count_zeros(data@),
{
    let mut n: u32 = 0;
    let mut i: usize = 0;
    while i < data.len()
        invariant
            i <= data@.len(),
            data@.len() <= u32::MAX,
            n == count_zeros(data@.subrange(0, i as int)),
            n <= i,
        decreases data@.len() - i,
    {
        proof {
            assert(data@.subrange(0, i + 1).drop_last() =~= data@.subrange(0, i as int));
        }
        if data[i] == 0 {
            n = n + 1;
        }
        i = i + 1;
    }
    assert(data@.subrange(0, data@.len() as int) =~= data@);
    n
}

} // verus!
