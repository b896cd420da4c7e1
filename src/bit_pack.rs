//! Fixed-width bit packing: values of 0 to 64 bits written most significant bit first into a
//! byte stream, and the block form that packs eight values of one width.
use vstd::prelude::*;

verus! {

/// Number of values in a packed block.
pub const BLOCK_WIDTH: usize = 8;

/// Bit `i` of byte `x`, counting from the most significant bit.
pub open spec fn byte_bit(x: u8, i: u8) -> bool {
    ((x << i) >> 7u8) == 1u8
}

/// Bit `i` of `v`, counting from the least significant bit.
pub open spec fn low_bit(v: u64, i: u64) -> bool {
    ((v >> i) & 1u64) == 1u64
}

/// The bits of a byte string, most significant bit of each byte first.
pub open spec fn stream(s: Seq<u8>) -> Seq<bool> {
    Seq::new(8 * s.len(), |k: int| byte_bit(s[k / 8], (k % 8) as u8))
}

/// The low `b` bits of `v`, most significant first.
pub open spec fn bits_of(v: u64, b: nat) -> Seq<bool> {
    Seq::new(b, |j: int| low_bit(v, (b - 1 - j) as u64))
}

/// The number that a bit string spells, most significant bit first.
pub open spec fn value_of(bits: Seq<bool>) -> nat
    decreases bits.len(),
{
    if bits.len() == 0 {
        0
    } else {
        2 * value_of(bits.drop_last()) + if bits.last() {
            1nat
        } else {
            0nat
        }
    }
}

/// `v` fits in `b` bits.
pub open spec fn fits(v: u64, b: nat) -> bool {
    b >= 64 || v < pow2(b)
}

pub open spec fn pow2(b: nat) -> nat
    decreases b,
{
    if b == 0 {
        1
    } else {
        2 * pow2((b - 1) as nat)
    }
}

/// The bits that a block of values occupies at width `b`: each value's `b` low bits in turn.
pub open spec fn block_bits(values: Seq<u64>, b: nat) -> Seq<bool>
    decreases values.len(),
{
    if values.len() == 0 {
        Seq::empty()
    } else {
        block_bits(values.drop_last(), b) + bits_of(values.last(), b)
    }
}

proof fn lemma_full_byte(v: u64, s: u64, j: u8, t: u64)
    requires
        s <= 56,
        j < 8,
        t == s + 7 - (j as u64),
    ensures
        (((((v >> s) as u8) << j) >> 7u8) == 1u8) == (((v >> t) & 1u64) == 1u64),
{
    assert({
        &&& ((((((v >> s) as u8) << j) >> 7u8) == 1u8) == (((v >> t) & 1u64) == 1u64))
    }) by (bit_vector)
        requires
            s <= 56,
            j < 8,
            t == s + 7 - (j as u64),
    ;
}

proof fn lemma_last_byte(v: u64, bits: u8, sh: u64, j: u8, t: u64)
    requires
        1 <= bits < 8,
        sh == 8 - (bits as u64),
        j < bits,
        t == (bits as u64) - 1 - (j as u64),
    ensures
        (((((v << sh) as u8) << j) >> 7u8) == 1u8) == (((v >> t) & 1u64) == 1u64),
{
    assert({
        &&& ((((((v << sh) as u8) << j) >> 7u8) == 1u8) == (((v >> t) & 1u64) == 1u64))
    }) by (bit_vector)
        requires
            1 <= bits < 8,
            sh == 8 - (bits as u64),
            j < bits,
            t == (bits as u64) - 1 - (j as u64),
    ;
}

proof fn lemma_last_byte_tail(v: u64, bits: u8, sh: u64)
    requires
        1 <= bits < 8,
        sh == 8 - (bits as u64),
    ensures
        (((v << sh) as u8) << bits) == 0u8,
{
    assert({
        &&& ((((v << sh) as u8) << bits) == 0u8)
    }) by (bit_vector)
        requires
            1 <= bits < 8,
            sh == 8 - (bits as u64),
    ;
}

proof fn lemma_or_fast(old: u8, v: u64, used: u8, bits: u8, sh: u64, j: u8, t: u64)
    requires
        1 <= used < 8,
        bits < 8 - used,
        sh == 8u64 - (used as u64) - (bits as u64),
        (old << used) == 0u8,
        j < 8,
        used <= j < used + bits ==> t == (used as u64) + (bits as u64) - 1 - (j as u64),
    ensures
        j < used ==> (((old | (((v << sh) as u8) & (0xffu8 >> used))) << j) >> 7u8) == ((old
            << j) >> 7u8),
        used <= j < used + bits ==> (((((old | (((v << sh) as u8) & (0xffu8 >> used))) << j)
            >> 7u8) == 1u8) == (((v >> t) & 1u64) == 1u64)),
        ((old | (((v << sh) as u8) & (0xffu8 >> used))) << (used + bits)) == 0u8,
{
    assert({
        &&& (j < used ==> (((old | (((v << sh) as u8) & (0xffu8 >> used))) << j) >> 7u8) == ((old << j) >> 7u8))
        &&& (used <= j < used + bits ==> (((((old | (((v << sh) as u8) & (0xffu8 >> used))) << j) >> 7u8) == 1u8) == (((v >> t) & 1u64) == 1u64)))
        &&& (((old | (((v << sh) as u8) & (0xffu8 >> used))) << (used + bits)) == 0u8)
    }) by (bit_vector)
        requires
            1 <= used < 8,
            bits < 8 - used,
            sh == 8u64 - (used as u64) - (bits as u64),
            (old << used) == 0u8,
            j < 8,
            used <= j < used + bits ==> t == (used as u64) + (bits as u64) - 1 - (j as u64),
    ;
}

proof fn lemma_or_split(old: u8, v: u64, used: u8, bits: u8, sh: u64, j: u8, t: u64)
    requires
        1 <= used < 8,
        8 - used <= bits <= 64,
        sh == (bits as u64) - 8u64 + (used as u64),
        (old << used) == 0u8,
        j < 8,
        used <= j ==> t == (bits as u64) - 1 - (j as u64) + (used as u64),
    ensures
        j < used ==> (((old | (((v >> sh) as u8) & (0xffu8 >> used))) << j) >> 7u8) == ((old
            << j) >> 7u8),
        used <= j ==> (((((old | (((v >> sh) as u8) & (0xffu8 >> used))) << j) >> 7u8) == 1u8)
            == (((v >> t) & 1u64) == 1u64)),
{
    assert({
        &&& (j < used ==> (((old | (((v >> sh) as u8) & (0xffu8 >> used))) << j) >> 7u8) == ((old << j) >> 7u8))
        &&& (used <= j ==> (((((old | (((v >> sh) as u8) & (0xffu8 >> used))) << j) >> 7u8) == 1u8) == (((v >> t) & 1u64) == 1u64)))
    }) by (bit_vector)
        requires
            1 <= used < 8,
            8 - used <= bits <= 64,
            sh == (bits as u64) - 8u64 + (used as u64),
            (old << used) == 0u8,
            j < 8,
            used <= j ==> t == (bits as u64) - 1 - (j as u64) + (used as u64),
    ;
}

/// Returns a byte whose low `bits` bits are set.
fn low_bit_to_byte_mask(bits: u8) -> (r: u8)
    requires
        bits >= 1,
    ensures
        r == if bits >= 8 {
            0xffu8
        } else {
            0xffu8 >> ((8 - bits) as u8)
        },
{
    if bits >= 8 {
        0xff
    } else {
        0xffu8 >> (8 - bits)
    }
}

/// Writes values of arbitrary bit widths into an owned byte buffer.
pub struct BitPacker {
    bytes: Vec<u8>,
    byte_index: usize,
    byte_bit_used: u8,
}

impl BitPacker {
    /// Bits written so far.
    pub closed spec fn pos(&self) -> int {
        self.byte_index * 8 + self.byte_bit_used
    }

    /// The buffer.
    pub closed spec fn buffer(&self) -> Seq<u8> {
        self.bytes@
    }

    /// The bits written so far, in order.
    pub open spec fn written(&self) -> Seq<bool> {
        stream(self.buffer()).subrange(0, self.pos())
    }

    pub closed spec fn wf(&self) -> bool {
        &&& self.byte_bit_used < 8
        &&& self.bytes@.len() <= usize::MAX
        &&& self.pos() <= 8 * self.bytes@.len()
        &&& self.byte_bit_used > 0 ==> (self.bytes@[self.byte_index as int] << self.byte_bit_used)
            == 0u8
    }

    /// Starts packing at the first bit of `bytes`.
    pub fn new(bytes: Vec<u8>) -> (r: BitPacker)
        ensures
            r.wf(),
            r.pos() == 0,
            r.buffer() == bytes@,
    {
        // Reading the length records that it fits in a `usize`.
        let _len = bytes.len();
        BitPacker { bytes, byte_index: 0, byte_bit_used: 0 }
    }

    /// The index of the byte that the next bit goes to.
    pub fn byte_index(&self) -> (r: usize)
        requires
            self.wf(),
        ensures
            r == self.pos() / 8,
    {
        self.byte_index
    }

    /// Bits already used in the current byte.
    pub fn byte_bit_used(&self) -> (r: u8)
        requires
            self.wf(),
        ensures
            r == self.pos() % 8,
    {
        self.byte_bit_used
    }

    /// The smallest number of bytes that holds every bit written so far.
    pub fn byte_used(&self) -> (r: usize)
        requires
            self.wf(),
        ensures
            r == (self.pos() + 7) / 8,
    {
        if self.byte_bit_used == 0 {
            self.byte_index
        } else {
            self.byte_index + 1
        }
    }

    /// Gives the buffer back.
    pub fn into_bytes(self) -> (r: Vec<u8>)
        ensures
            r@ == self.buffer(),
    {
        self.bytes
    }

    /// Appends the low `bits` bits of `value`, most significant first.
    pub fn pack_value(&mut self, value: u64, bits: u8)
        requires
            old(self).wf(),
            bits <= 64,
            old(self).pos() + bits <= 8 * old(self).buffer().len(),
        ensures
            final(self).wf(),
            final(self).buffer().len() == old(self).buffer().len(),
            final(self).pos() == old(self).pos() + bits,
            final(self).written() == old(self).written() + bits_of(value, bits as nat),
            forall|j: int|
                (final(self).pos() + 7) / 8 <= j < old(self).buffer().len() ==> #[trigger] final(self).buffer()[j] == old(self).buffer()[j],
    {
        let ghost old_written = self.written();
        let ghost start = self.pos();
        let ghost total = bits;
        assert(old_written.len() == start);
        let len = self.bytes.len();
        let mut bits = bits;
        if self.byte_bit_used > 0 {
            let used = self.byte_bit_used;
            let remain_bits = 8 - used;
            let remain_mask = low_bit_to_byte_mask(remain_bits);
            assert(remain_mask == 0xffu8 >> used) by (bit_vector)
                requires
                    1 <= used < 8,
                    remain_bits == 8 - used,
                    remain_mask == 0xffu8 >> ((8 - remain_bits) as u8),
            ;
            let idx = self.byte_index;
            let old_byte = self.bytes[idx];
            if bits < remain_bits {
                let sh = (remain_bits - bits) as u64;
                let new_byte = old_byte | ((#[verifier::truncate] ((value << sh) as u8)) & remain_mask);
                self.bytes.set(idx, new_byte);
                self.byte_bit_used = used + bits;
                proof {
                    let s_old = stream(old(self).bytes@);
                    let s_new = stream(self.bytes@);
                    assert forall|k: int| 0 <= k < start + bits implies s_new[k] == (old_written
                        + bits_of(value, bits as nat))[k] by {
                        if k < idx * 8 {
                            assert(k / 8 < idx);
                        } else {
                            let j = (k - idx * 8) as u8;
                            assert(k / 8 == idx && k % 8 == j);
                            let t = if used <= j < used + bits {
                                (used + bits - 1 - j) as u64
                            } else {
                                0u64
                            };
                            lemma_or_fast(old_byte, value, used, bits, sh, j, t);
                        }
                    }
                    let tail_sh = used + bits;
                    lemma_or_fast(old_byte, value, used, bits, sh, 0, 0);
                    assert(self.written() =~= old_written + bits_of(value, bits as nat));
                }
                return ;
            }
            let sh = (bits - remain_bits) as u64;
            let new_byte = old_byte | ((#[verifier::truncate] ((value >> sh) as u8)) & remain_mask);
            self.bytes.set(idx, new_byte);
            bits = bits - remain_bits;
            self.byte_bit_used = 0;
            self.byte_index = idx + 1;
            proof {
                let s_new = stream(self.bytes@);
                assert forall|k: int| 0 <= k < (idx + 1) * 8 implies s_new[k] == (old_written
                    + bits_of(value, total as nat))[k] by {
                    if k < idx * 8 {
                        assert(k / 8 < idx);
                    } else {
                        let j = (k - idx * 8) as u8;
                        assert(k / 8 == idx && k % 8 == j);
                        let t = if used <= j {
                            (total - 1 - j + used) as u64
                        } else {
                            0u64
                        };
                        lemma_or_split(old_byte, value, used, total, sh, j, t);
                    }
                }
            }
        }
        while bits >= 8
            invariant
                self.byte_bit_used == 0,
                old_written.len() == start,
                self.bytes@.len() == len,
                len == old(self).bytes@.len(),
                total <= 64,
                bits <= total,
                self.pos() == start + total - bits,
                start + total <= 8 * len,
                forall|k: int|
                    0 <= k < self.pos() ==> #[trigger] stream(self.bytes@)[k] == (old_written
                        + bits_of(value, total as nat))[k],
                forall|j: int| self.byte_index <= j < len ==> #[trigger] self.bytes@[j] == old(self).bytes@[j],
            decreases bits,
        {
            let idx = self.byte_index;
            let ghost before = self.bytes@;
            let sh = (bits - 8) as u64;
            let b = #[verifier::truncate] ((value >> sh) as u8);
            self.bytes.set(idx, b);
            proof {
                let s_new = stream(self.bytes@);
                assert forall|k: int| 0 <= k < (idx + 1) * 8 implies #[trigger] s_new[k] == (
                old_written + bits_of(value, total as nat))[k] by {
                    if k < idx * 8 {
                        assert(k / 8 < idx);
                        assert(stream(before)[k] == s_new[k]);
                    } else {
                        let j = (k - idx * 8) as u8;
                        assert(k / 8 == idx && k % 8 == j);
                        assert(s_new[k] == byte_bit(b, j));
                        lemma_full_byte(value, sh, j, (sh + 7 - j) as u64);
                        assert(s_new[k] == low_bit(value, (sh + 7 - j) as u64));
                        assert(k >= old_written.len());
                        assert((old_written + bits_of(value, total as nat))[k] == bits_of(value, total as nat)[k - start]);
                    }
                }
            }
            self.byte_index = idx + 1;
            bits = bits - 8;
        }
        if bits > 0 {
            let idx = self.byte_index;
            let ghost before = self.bytes@;
            let sh = (8 - bits) as u64;
            let b = #[verifier::truncate] ((value << sh) as u8);
            self.bytes.set(idx, b);
            self.byte_bit_used = bits;
            proof {
                lemma_last_byte_tail(value, bits, sh);
                let s_new = stream(self.bytes@);
                assert forall|k: int| 0 <= k < idx * 8 + bits implies #[trigger] s_new[k] == (
                old_written + bits_of(value, total as nat))[k] by {
                    if k < idx * 8 {
                        assert(k / 8 < idx);
                        assert(stream(before)[k] == s_new[k]);
                    } else {
                        let j = (k - idx * 8) as u8;
                        assert(k / 8 == idx && k % 8 == j);
                        lemma_last_byte(value, bits, sh, j, (bits - 1 - j) as u64);
                    }
                }
            }
        }
        assert(self.written() =~= old_written + bits_of(value, total as nat));
    }
}


/// Bits `lo..hi` of byte `x` (most significant first), as a number.
pub open spec fn field(x: u8, lo: u8, hi: u8) -> u8 {
    ((x << lo) >> lo) >> ((8 - hi) as u8)
}

proof fn lemma_field_step(x: u8, lo: u8, hi: u8)
    requires
        lo < hi < 8,
    ensures
        field(x, lo, (hi + 1) as u8) == 2 * field(x, lo, hi) + ((x << hi) >> 7u8),
        ((x << hi) >> 7u8) <= 1,
{
    assert(((x << lo) >> lo) >> ((8 - (hi + 1)) as u8) == 2 * (((x << lo) >> lo) >> ((8 - hi) as u8))
        + ((x << hi) >> 7u8) && ((x << hi) >> 7u8) <= 1) by (bit_vector)
        requires
            lo < hi < 8,
    ;
}

proof fn lemma_field_one(x: u8, lo: u8)
    requires
        lo < 8,
    ensures
        field(x, lo, (lo + 1) as u8) == ((x << lo) >> 7u8),
        ((x << lo) >> 7u8) <= 1,
{
    assert(((x << lo) >> lo) >> ((8 - (lo + 1)) as u8) == ((x << lo) >> 7u8) && ((x << lo) >> 7u8)
        <= 1) by (bit_vector)
        requires
            lo < 8,
    ;
}

/// The bits `lo..hi` of byte `idx` of a stream spell the number `field(s[idx], lo, hi)`.
proof fn lemma_field_value(s: Seq<u8>, idx: int, lo: u8, hi: u8)
    requires
        0 <= idx < s.len(),
        lo < hi <= 8,
    ensures
        value_of(stream(s).subrange(8 * idx + lo, 8 * idx + hi)) == field(s[idx], lo, hi),
    decreases hi - lo,
{
    let sub = stream(s).subrange(8 * idx + lo, 8 * idx + hi);
    let k = 8 * idx + hi - 1;
    assert(k / 8 == idx && k % 8 == hi - 1);
    assert(sub.last() == byte_bit(s[idx], (hi - 1) as u8));
    if hi == lo + 1 {
        lemma_field_one(s[idx], lo);
        assert(sub.drop_last().len() == 0);
        assert(value_of(sub.drop_last()) == 0);
    } else {
        assert(sub.drop_last() =~= stream(s).subrange(8 * idx + lo, 8 * idx + hi - 1));
        lemma_field_value(s, idx, lo, (hi - 1) as u8);
        lemma_field_step(s[idx], lo, (hi - 1) as u8);
    }
}

/// Reading a concatenation: the first part moves up by the length of the second.
pub proof fn lemma_value_of_concat(a: Seq<bool>, b: Seq<bool>)
    ensures
        value_of(a + b) == value_of(a) * pow2(b.len()) + value_of(b),
    decreases b.len(),
{
    if b.len() == 0 {
        assert(a + b =~= a);
        assert(pow2(0) == 1);
        assert(value_of(b) == 0);
    } else {
        assert((a + b).drop_last() =~= a + b.drop_last());
        assert((a + b).last() == b.last());
        lemma_value_of_concat(a, b.drop_last());
        let x = value_of(a);
        let p = pow2((b.len() - 1) as nat);
        let y = value_of(b.drop_last());
        assert(pow2(b.len()) == 2 * p);
        assert(2 * (x * p + y) == x * (2 * p) + 2 * y) by (nonlinear_arith);
    }
}

/// A string of `n` bits spells a number below `2^n`.
pub proof fn lemma_value_of_bound(bits: Seq<bool>)
    ensures
        value_of(bits) < pow2(bits.len()),
    decreases bits.len(),
{
    if bits.len() > 0 {
        lemma_value_of_bound(bits.drop_last());
    }
}

pub proof fn lemma_pow2_shl(r: u64)
    requires
        r < 64,
    ensures
        pow2(r as nat) == (1u64 << r),
    decreases r,
{
    if r == 0 {
        assert((1u64 << 0u64) == 1) by (bit_vector);
    } else {
        lemma_pow2_shl((r - 1) as u64);
        let q = (r - 1) as u64;
        assert((1u64 << r) == 2 * (1u64 << q)) by (bit_vector)
            requires
                q < 63,
                r == q + 1,
        ;
    }
}

pub proof fn lemma_pow2_mono(a: nat, b: nat)
    requires
        a <= b,
    ensures
        pow2(a) <= pow2(b),
        pow2(a) >= 1,
    decreases b,
{
    if b > 0 && a < b {
        lemma_pow2_mono(a, (b - 1) as nat);
    } else if a > 0 {
        lemma_pow2_mono((a - 1) as nat, (a - 1) as nat);
    }
}

/// Reads values of arbitrary bit widths from a byte buffer.
pub struct BitUnpacker<'a> {
    bytes: &'a [u8],
    byte_index: usize,
    byte_bit_used: u8,
}

impl<'a> BitUnpacker<'a> {
    /// Bits read so far.
    pub closed spec fn pos(&self) -> int {
        self.byte_index * 8 + self.byte_bit_used
    }

    /// The buffer.
    pub closed spec fn buffer(&self) -> Seq<u8> {
        self.bytes@
    }

    pub closed spec fn wf(&self) -> bool {
        &&& self.byte_bit_used < 8
        &&& self.pos() <= 8 * self.bytes@.len()
    }

    /// Starts reading at the first bit of `bytes`.
    pub fn new(bytes: &'a [u8]) -> (r: BitUnpacker<'a>)
        ensures
            r.wf(),
            r.pos() == 0,
            r.buffer() == bytes@,
    {
        BitUnpacker { bytes, byte_index: 0, byte_bit_used: 0 }
    }

    /// The index of the byte that the next bit comes from.
    pub fn byte_index(&self) -> (r: usize)
        requires
            self.wf(),
        ensures
            r == self.pos() / 8,
    {
        self.byte_index
    }

    /// Bits already consumed in the current byte.
    pub fn byte_bit_used(&self) -> (r: u8)
        requires
            self.wf(),
        ensures
            r == self.pos() % 8,
    {
        self.byte_bit_used
    }

    /// Reads the next `bits` bits as a number, most significant first; zero bits read as 0.
    pub fn unpack_value(&mut self, bits: u8) -> (r: u64)
        requires
            old(self).wf(),
            bits <= 64,
            old(self).pos() + bits <= 8 * old(self).buffer().len(),
        ensures
            final(self).wf(),
            final(self).buffer() == old(self).buffer(),
            final(self).pos() == old(self).pos() + bits,
            r as nat == value_of(
                stream(old(self).buffer()).subrange(old(self).pos(), old(self).pos() + bits),
            ),
    {
        let ghost start = self.pos();
        let ghost total = bits;
        let ghost st = stream(self.bytes@);
        if bits == 0 {
            assert(st.subrange(start, start).len() == 0);
            return 0;
        }
        let mut bits = bits;
        let used = self.byte_bit_used;
        let avail_bits = 8 - used;
        let chunk_bits = if avail_bits < bits {
            avail_bits
        } else {
            bits
        };
        let chunk_mask = low_bit_to_byte_mask(chunk_bits);
        let idx = self.byte_index;
        let x = self.bytes[idx];
        let sh0 = avail_bits - chunk_bits;
        let mut value = ((x >> sh0) & chunk_mask) as u64;
        proof {
            let hi = (used + chunk_bits) as u8;
            assert(((x >> sh0) & chunk_mask) == field(x, used, hi)) by (bit_vector)
                requires
                    avail_bits == 8 - used,
                    sh0 == avail_bits - chunk_bits,
                    1 <= chunk_bits <= avail_bits,
                    hi == used + chunk_bits,
                    chunk_mask == if chunk_bits >= 8 {
                        0xffu8
                    } else {
                        0xffu8 >> ((8 - chunk_bits) as u8)
                    },
            ;
            lemma_field_value(self.bytes@, idx as int, used, hi);
            lemma_value_of_bound(st.subrange(start, start + chunk_bits));
        }
        if chunk_bits == avail_bits {
            self.byte_index = idx + 1;
        }
        let sum = used + chunk_bits;
        self.byte_bit_used = sum & 7;
        assert(sum & 7 == sum % 8) by (bit_vector);
        bits = bits - chunk_bits;
        while bits >= 8
            invariant
                self.bytes@ == old(self).bytes@,
                st == stream(self.bytes@),
                0 <= start,
                self.byte_bit_used == 0 || bits == 0,
                self.byte_bit_used < 8,
                total <= 64,
                bits <= total,
                self.pos() == start + total - bits,
                start + total <= 8 * self.bytes@.len(),
                value as nat == value_of(st.subrange(start, self.pos())),
                value < pow2((total - bits) as nat),
            decreases bits,
        {
            let ghost cur = self.pos();
            let i = self.byte_index;
            let y = self.bytes[i];
            proof {
                lemma_pow2_mono((total - bits) as nat, 56);
                lemma_pow2_shl(56);
                lemma_field_value(self.bytes@, i as int, 0, 8);
                assert(field(y, 0, 8) == y) by (bit_vector);
                assert(0 <= start <= cur);
                assert(cur + 8 <= st.len());
                assert(st.subrange(start, cur + 8) =~= st.subrange(start, cur) + st.subrange(cur, cur + 8));
                lemma_value_of_concat(st.subrange(start, cur), st.subrange(cur, cur + 8));
                reveal_with_fuel(pow2, 9);
                lemma_value_of_bound(st.subrange(start, cur + 8));
            }
            assert((value << 8u64) | (y as u64) == value * 256 + y) by (bit_vector)
                requires
                    value < (1u64 << 56u64),
            ;
            value = (value << 8u64) | (y as u64);
            self.byte_index = i + 1;
            bits = bits - 8;
        }
        if bits > 0 {
            let ghost cur = self.pos();
            let i = self.byte_index;
            let y = self.bytes[i];
            let sh = (8 - bits) as u8;
            let low = y >> sh;
            proof {
                lemma_pow2_mono((total - bits) as nat, (64 - bits) as nat);
                lemma_pow2_shl((64 - bits) as u64);
                lemma_pow2_shl(bits as u64);
                lemma_field_value(self.bytes@, i as int, 0, bits);
                assert(field(y, 0, bits) == low) by (bit_vector)
                    requires
                        1 <= bits < 8,
                        sh == 8 - bits,
                        low == y >> sh,
                ;
                assert(st.subrange(start, cur + bits) =~= st.subrange(start, cur) + st.subrange(cur, cur + bits));
                lemma_value_of_concat(st.subrange(start, cur), st.subrange(cur, cur + bits));
                lemma_value_of_bound(st.subrange(start, cur + bits));
            }
            let b64 = bits as u64;
            assert((value << b64) | (low as u64) == value * (1u64 << b64) + low) by (bit_vector)
                requires
                    1 <= b64 < 8,
                    value < (1u64 << ((64 - b64) as u64)),
                    low == y >> ((8 - b64) as u8),
            ;
            value = (value << b64) | (low as u64);
            self.byte_bit_used = bits;
        }
        value
    }
}


/// Packs eight values of `bits` bits each into the first `bits` bytes of `bytes`, in the same
/// layout as eight calls of [`BitPacker::pack_value`].
pub fn pack_bits_block(values: &[u64], bytes: &mut Vec<u8>, bits: u8)
    requires
        values@.len() == BLOCK_WIDTH,
        1 <= bits <= 63,
        old(bytes)@.len() >= bits,
    ensures
        final(bytes)@.len() == old(bytes)@.len(),
        stream(final(bytes)@).subrange(0, 8 * bits) == block_bits(values@, bits as nat),
        forall|j: int| bits <= j < old(bytes)@.len() ==> #[trigger] final(bytes)@[j] == old(bytes)@[j],
{
    let mut buf: Vec<u8> = Vec::new();
    std::mem::swap(&mut buf, bytes);
    let mut packer = BitPacker::new(buf);
    let mut i: usize = 0;
    while i < BLOCK_WIDTH
        invariant
            values@.len() == BLOCK_WIDTH,
            1 <= bits <= 63,
            i <= BLOCK_WIDTH,
            packer.wf(),
            packer.buffer().len() == old(bytes)@.len(),
            packer.buffer().len() >= bits,
            packer.pos() == i * bits,
            packer.written() == block_bits(values@.subrange(0, i as int), bits as nat),
            forall|j: int| (packer.pos() + 7) / 8 <= j < old(bytes)@.len() ==> #[trigger] packer.buffer()[j] == old(bytes)@[j],
        decreases BLOCK_WIDTH - i,
    {
        assert(values@.subrange(0, i + 1).drop_last() =~= values@.subrange(0, i as int));
        assert(values@.subrange(0, i + 1).last() == values@[i as int]);
        assert((i + 1) * bits <= 8 * bits) by (nonlinear_arith)
            requires
                i < 8,
        ;
        assert((i + 1) * bits == i * bits + bits) by (nonlinear_arith);
        packer.pack_value(values[i], bits);
        i = i + 1;
    }
    assert(values@.subrange(0, 8) =~= values@);
    let mut out = packer.into_bytes();
    std::mem::swap(&mut out, bytes);
}

/// Unpacks eight values of `bits` bits each from the first `bits` bytes of `bytes`.
pub fn unpack_bits_block(values: &mut Vec<u64>, bytes: &[u8], bits: u8)
    requires
        old(values)@.len() == BLOCK_WIDTH,
        1 <= bits <= 63,
        bytes@.len() >= bits,
    ensures
        final(values)@.len() == BLOCK_WIDTH,
        forall|i: int|
            0 <= i < BLOCK_WIDTH ==> #[trigger] final(values)@[i] as nat == value_of(
                stream(bytes@).subrange(i * bits, (i + 1) * bits),
            ),
{
    let mut unpacker = BitUnpacker::new(bytes);
    let mut i: usize = 0;
    while i < BLOCK_WIDTH
        invariant
            values@.len() == BLOCK_WIDTH,
            1 <= bits <= 63,
            i <= BLOCK_WIDTH,
            bytes@.len() >= bits,
            unpacker.wf(),
            unpacker.buffer() == bytes@,
            unpacker.pos() == i * bits,
            forall|j: int|
                0 <= j < i ==> #[trigger] values@[j] as nat == value_of(
                    stream(bytes@).subrange(j * bits, (j + 1) * bits),
                ),
        decreases BLOCK_WIDTH - i,
    {
        assert((i + 1) * bits <= 8 * bits) by (nonlinear_arith)
            requires
                i < 8,
        ;
        assert((i + 1) * bits == i * bits + bits) by (nonlinear_arith);
        let v = unpacker.unpack_value(bits);
        values.set(i, v);
        i = i + 1;
    }
}

proof fn lemma_shr1_bit(v: u64, t: u64)
    requires
        t < 63,
    ensures
        low_bit(v >> 1u64, t) == low_bit(v, (t + 1) as u64),
{
    let t1 = (t + 1) as u64;
    assert((((v >> 1u64) >> t) & 1u64) == ((v >> t1) & 1u64)) by (bit_vector)
        requires
            t < 63,
            t1 == t + 1,
    ;
}

proof fn lemma_pow2_64()
    ensures
        pow2(64) == 0x1_0000_0000_0000_0000nat,
{
    reveal_with_fuel(pow2, 65);
}

/// The low `b` bits of a value that fits in `b` bits spell that value again.
pub proof fn lemma_bits_round_trip(v: u64, b: nat)
    requires
        b <= 64,
        fits(v, b),
    ensures
        value_of(bits_of(v, b)) == v,
    decreases b,
{
    if b == 0 {
        assert(pow2(0) == 1);
    } else {
        let w = v >> 1u64;
        let bits = bits_of(v, b);
        assert(bits.drop_last() =~= bits_of(w, (b - 1) as nat)) by {
            assert forall|j: int| 0 <= j < b - 1 implies bits.drop_last()[j] == bits_of(
                w,
                (b - 1) as nat,
            )[j] by {
                lemma_shr1_bit(v, (b - 2 - j) as u64);
            }
        }
        assert(w == v / 2 && v == 2 * w + (v & 1u64) && (v & 1u64) <= 1 && ((v & 1u64) == 1u64)
            == (((v >> 0u64) & 1u64) == 1u64)) by (bit_vector)
            requires
                w == v >> 1u64,
        ;
        if b < 64 {
            assert(pow2(b) == 2 * pow2((b - 1) as nat));
        } else {
            lemma_pow2_64();
            reveal_with_fuel(pow2, 2);
            assert(pow2(63) * 2 == pow2(64));
        }
        lemma_bits_round_trip(w, (b - 1) as nat);
    }
}

/// Value `i` of a block occupies bits `i*b .. (i+1)*b` of the block's bit string.
pub proof fn lemma_block_bits_at(values: Seq<u64>, b: nat, i: int)
    requires
        0 <= i < values.len(),
    ensures
        block_bits(values, b).len() == values.len() * b,
        block_bits(values, b).subrange(i * b, (i + 1) * b) == bits_of(values[i], b),
    decreases values.len(),
{
    lemma_block_bits_len(values, b);
    let n = values.len();
    lemma_block_bits_len(values.drop_last(), b);
    assert((n - 1) * b + b == n * b) by (nonlinear_arith);
    assert((i + 1) * b == i * b + b) by (nonlinear_arith);
    if i == n - 1 {
        assert(block_bits(values, b).subrange(i * b, (i + 1) * b) =~= bits_of(values[i], b));
    } else {
        lemma_block_bits_at(values.drop_last(), b, i);
        assert((i + 1) * b <= (n - 1) * b) by (nonlinear_arith)
            requires
                i + 1 <= n - 1,
        ;
        assert(block_bits(values, b).subrange(i * b, (i + 1) * b) =~= block_bits(
            values.drop_last(),
            b,
        ).subrange(i * b, (i + 1) * b));
    }
}

pub proof fn lemma_block_bits_len(values: Seq<u64>, b: nat)
    ensures
        block_bits(values, b).len() == values.len() * b,
    decreases values.len(),
{
    if values.len() > 0 {
        lemma_block_bits_len(values.drop_last(), b);
        assert((values.len() - 1) * b + b == values.len() * b) by (nonlinear_arith);
    }
}

/// Unpacking a packed block gives the block back: read at width `b`, bits `i*b .. (i+1)*b` of
/// the packed bits spell value `i`, for every block of values that fit in `b` bits.
pub proof fn lemma_block_round_trip(values: Seq<u64>, b: nat)
    requires
        values.len() == BLOCK_WIDTH,
        1 <= b <= 63,
        forall|i: int| 0 <= i < values.len() ==> fits(#[trigger] values[i], b),
    ensures
        forall|i: int|
            0 <= i < values.len() ==> value_of(
                #[trigger] block_bits(values, b).subrange(i * b, (i + 1) * b),
            ) == values[i],
{
    assert forall|i: int| 0 <= i < values.len() implies value_of(
        #[trigger] block_bits(values, b).subrange(i * b, (i + 1) * b),
    ) == values[i] by {
        lemma_block_bits_at(values, b, i);
        lemma_bits_round_trip(values[i], b);
    }
}

proof fn lemma_stream_bit_eq(s1: Seq<u8>, s2: Seq<u8>, i: int, j: u8)
    requires
        s1.len() == s2.len(),
        0 <= i < s1.len(),
        j < 8,
        stream(s1) == stream(s2),
    ensures
        byte_bit(s1[i], j) == byte_bit(s2[i], j),
{
    let k = 8 * i + j;
    assert(k / 8 == i && k % 8 == j);
    assert(stream(s1)[k] == byte_bit(s1[i], j));
    assert(stream(s2)[k] == byte_bit(s2[i], j));
}

proof fn lemma_byte_from_bits(x: u8, y: u8)
    requires
        byte_bit(x, 0) == byte_bit(y, 0),
        byte_bit(x, 1) == byte_bit(y, 1),
        byte_bit(x, 2) == byte_bit(y, 2),
        byte_bit(x, 3) == byte_bit(y, 3),
        byte_bit(x, 4) == byte_bit(y, 4),
        byte_bit(x, 5) == byte_bit(y, 5),
        byte_bit(x, 6) == byte_bit(y, 6),
        byte_bit(x, 7) == byte_bit(y, 7),
    ensures
        x == y,
{
    assert(x == y) by (bit_vector)
        requires
            ((x << 0u8) >> 7u8 == 1u8) == ((y << 0u8) >> 7u8 == 1u8),
            ((x << 1u8) >> 7u8 == 1u8) == ((y << 1u8) >> 7u8 == 1u8),
            ((x << 2u8) >> 7u8 == 1u8) == ((y << 2u8) >> 7u8 == 1u8),
            ((x << 3u8) >> 7u8 == 1u8) == ((y << 3u8) >> 7u8 == 1u8),
            ((x << 4u8) >> 7u8 == 1u8) == ((y << 4u8) >> 7u8 == 1u8),
            ((x << 5u8) >> 7u8 == 1u8) == ((y << 5u8) >> 7u8 == 1u8),
            ((x << 6u8) >> 7u8 == 1u8) == ((y << 6u8) >> 7u8 == 1u8),
            ((x << 7u8) >> 7u8 == 1u8) == ((y << 7u8) >> 7u8 == 1u8),
    ;
}

/// A byte string is determined by its bits: the stateful packer and the block packer, which
/// both write exactly `block_bits(values, b)` into `b` bytes, produce the same bytes.
pub proof fn lemma_block_image_unique(s1: Seq<u8>, s2: Seq<u8>, values: Seq<u64>, b: nat)
    requires
        s1.len() == b,
        s2.len() == b,
        stream(s1) == block_bits(values, b),
        stream(s2) == block_bits(values, b),
    ensures
        s1 == s2,
{
    assert forall|i: int| 0 <= i < b implies s1[i] == s2[i] by {
        lemma_stream_bit_eq(s1, s2, i, 0);
        lemma_stream_bit_eq(s1, s2, i, 1);
        lemma_stream_bit_eq(s1, s2, i, 2);
        lemma_stream_bit_eq(s1, s2, i, 3);
        lemma_stream_bit_eq(s1, s2, i, 4);
        lemma_stream_bit_eq(s1, s2, i, 5);
        lemma_stream_bit_eq(s1, s2, i, 6);
        lemma_stream_bit_eq(s1, s2, i, 7);
        lemma_byte_from_bits(s1[i], s2[i]);
    }
    assert(s1 =~= s2);
}

} // verus!
