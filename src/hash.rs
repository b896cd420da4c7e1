//! The 128-bit MurmurHash3 (x64 variant) and the byte images of the values that sketches hash.
use vstd::prelude::*;

use crate::codec::le_nat;
use crate::codec::read_le;
use vstd::string::StringSliceAdditionalSpecFns;

verus! {

pub const C1: u64 = 0x87c3_7b91_1142_53d5;

pub const C2: u64 = 0x4cf5_ad43_2745_937f;

/// The seed that sketches hash with unless told otherwise.
pub const DEFAULT_UPDATE_SEED: u64 = 9001;

pub open spec fn rotl(x: u64, r: u64) -> u64 {
    (x << r) | (x >> ((64 - r) as u64))
}

pub open spec fn mix_k1_spec(k: u64) -> u64 {
    rotl(k.wrapping_mul(C1), 31).wrapping_mul(C2)
}

pub open spec fn mix_k2_spec(k: u64) -> u64 {
    rotl(k.wrapping_mul(C2), 33).wrapping_mul(C1)
}

pub open spec fn fmix_spec(k: u64) -> u64 {
    let a = k ^ (k >> 33u64);
    let b = a.wrapping_mul(0xff51_afd7_ed55_8ccd);
    let c = b ^ (b >> 33u64);
    let d = c.wrapping_mul(0xc4ce_b9fe_1a85_ec53);
    d ^ (d >> 33u64)
}

/// One 16-byte round of the hash on state `(h1, h2)` with the block's two words.
pub open spec fn mix_block_spec(h1: u64, h2: u64, k1: u64, k2: u64) -> (u64, u64) {
    let a1 = rotl(h1 ^ mix_k1_spec(k1), 27).wrapping_add(h2);
    let b1 = a1.wrapping_mul(5).wrapping_add(0x52dc_e729);
    let a2 = rotl(h2 ^ mix_k2_spec(k2), 31).wrapping_add(b1);
    let b2 = a2.wrapping_mul(5).wrapping_add(0x3849_5ab5);
    (b1, b2)
}

/// The little-endian word of `n` bytes (at most 8) at `off`.
pub open spec fn word(data: Seq<u8>, off: int, n: int) -> u64 {
    le_nat(data.subrange(off, off + n)) as u64
}

/// The state after the first `n` full blocks.
pub open spec fn body_spec(data: Seq<u8>, seed: u64, n: nat) -> (u64, u64)
    decreases n,
{
    if n == 0 {
        (seed, seed)
    } else {
        let (h1, h2) = body_spec(data, seed, (n - 1) as nat);
        let off = 16 * (n - 1);
        mix_block_spec(h1, h2, word(data, off, 8), word(data, off + 8, 8))
    }
}

/// MurmurHash3_x64_128 of `data` under `seed`.
#[verifier::opaque]
pub open spec fn murmur3_spec(data: Seq<u8>, seed: u64) -> (u64, u64) {
    let nblocks = data.len() / 16;
    let (h1, h2) = body_spec(data, seed, nblocks as nat);
    let base: int = 16 * nblocks as int;
    let rest: int = data.len() - base;
    let t2 = if rest > 8 {
        h2 ^ mix_k2_spec(word(data, base + 8, rest - 8))
    } else {
        h2
    };
    let t1 = if rest > 0 {
        h1 ^ mix_k1_spec(
            word(
                data,
                base,
                if rest > 8 {
                    8
                } else {
                    rest
                },
            ),
        )
    } else {
        h1
    };
    let len = data.len() as u64;
    let f1 = t1 ^ len;
    let f2 = t2 ^ len;
    let g1 = f1.wrapping_add(f2);
    let g2 = f2.wrapping_add(g1);
    let m1 = fmix_spec(g1);
    let m2 = fmix_spec(g2);
    let r1 = m1.wrapping_add(m2);
    (r1, m2.wrapping_add(r1))
}

fn mix_k1(k: u64) -> (r: u64)
    ensures
        r == mix_k1_spec(k),
{
    let a = k.wrapping_mul(C1);
    ((a << 31u64) | (a >> 33u64)).wrapping_mul(C2)
}

fn mix_k2(k: u64) -> (r: u64)
    ensures
        r == mix_k2_spec(k),
{
    let a = k.wrapping_mul(C2);
    ((a << 33u64) | (a >> 31u64)).wrapping_mul(C1)
}

fn fmix(k: u64) -> (r: u64)
    ensures
        r == fmix_spec(k),
{
    let a = k ^ (k >> 33u64);
    let b = a.wrapping_mul(0xff51_afd7_ed55_8ccd);
    let c = b ^ (b >> 33u64);
    let d = c.wrapping_mul(0xc4ce_b9fe_1a85_ec53);
    d ^ (d >> 33u64)
}

fn mix_block(h1: u64, h2: u64, k1: u64, k2: u64) -> (r: (u64, u64))
    ensures
        r == mix_block_spec(h1, h2, k1, k2),
{
    let x1 = h1 ^ mix_k1(k1);
    let a1 = ((x1 << 27u64) | (x1 >> 37u64)).wrapping_add(h2);
    let b1 = a1.wrapping_mul(5).wrapping_add(0x52dc_e729);
    let x2 = h2 ^ mix_k2(k2);
    let a2 = ((x2 << 31u64) | (x2 >> 33u64)).wrapping_add(b1);
    let b2 = a2.wrapping_mul(5).wrapping_add(0x3849_5ab5);
    (b1, b2)
}

/// MurmurHash3_x64_128 of `data` under `seed`, as its two 64-bit halves.
pub fn murmur3_x64_128(data: &[u8], seed: u64) -> (r: (u64, u64))
    ensures
        r == murmur3_spec(data@, seed),
{
    let len = data.len();
    let nblocks = len / 16;
    let mut h1 = seed;
    let mut h2 = seed;
    let mut i: usize = 0;
    while i < nblocks
        invariant
            len == data@.len(),
            nblocks == len / 16,
            i <= nblocks,
            (h1, h2) == body_spec(data@, seed, i as nat),
        decreases nblocks - i,
    {
        let off = 16 * i;
        let k1 = read_le(data, off, 8);
        let k2 = read_le(data, off + 8, 8);
        let r = mix_block(h1, h2, k1, k2);
        h1 = r.0;
        h2 = r.1;
        i = i + 1;
    }
    let base = 16 * nblocks;
    let rest = len - base;
    if rest > 8 {
        let k2 = read_le(data, base + 8, rest - 8);
        h2 = h2 ^ mix_k2(k2);
    }
    if rest > 0 {
        let n1 = if rest > 8 {
            8
        } else {
            rest
        };
        let k1 = read_le(data, base, n1);
        h1 = h1 ^ mix_k1(k1);
    }
    let l = len as u64;
    h1 = h1 ^ l;
    h2 = h2 ^ l;
    h1 = h1.wrapping_add(h2);
    h2 = h2.wrapping_add(h1);
    h1 = fmix(h1);
    h2 = fmix(h2);
    h1 = h1.wrapping_add(h2);
    h2 = h2.wrapping_add(h1);
    proof {
        reveal(murmur3_spec);
    }
    (h1, h2)
}

/// A value that sketches can hash and tell apart by its byte image.
pub trait HashInput: Sized {
    /// The bytes that identify the value and that the hash reads.
    spec fn key(&self) -> Seq<u8>;

    /// Returns the byte image.
    fn key_bytes(&self) -> (r: Vec<u8>)
        ensures
            r@ == self.key(),
    ;

    /// Whether two values are the same item.
    fn same_item(&self, other: &Self) -> (r: bool)
        ensures
            r == (self.key() == other.key()),
    ;

    /// A copy of the value.
    fn clone_item(&self) -> (r: Self)
        ensures
            r.key() == self.key(),
    ;
}

/// The 8-byte little-endian image of a 64-bit word.
pub open spec fn word_bytes(v: u64) -> Seq<u8> {
    Seq::new(8, |i: int| ((v as nat / crate::codec::pow256(i as nat)) % 256) as u8)
}

pub fn word_to_bytes(v: u64) -> (r: Vec<u8>)
    ensures
        r@ == word_bytes(v),
{
    let mut out: Vec<u8> = Vec::new();
    let mut x = v;
    let mut i: usize = 0;
    assert(crate::codec::pow256(0) == 1);
    while i < 8
        invariant
            i <= 8,
            out@.len() == i,
            x as nat == v as nat / crate::codec::pow256(i as nat),
            forall|j: int| 0 <= j < i ==> #[trigger] out@[j] == word_bytes(v)[j],
        decreases 8 - i,
    {
        out.push((x % 256) as u8);
        proof {
            crate::codec::lemma_pow256_pos(i as nat);
            vstd::arithmetic::div_mod::lemma_div_denominator(
                v as int,
                crate::codec::pow256(i as nat) as int,
                256,
            );
            assert(crate::codec::pow256((i + 1) as nat) == crate::codec::pow256(i as nat) * 256);
        }
        x = x / 256;
        i = i + 1;
    }
    assert(out@ =~= word_bytes(v));
    out
}

fn slice_to_vec(b: &[u8]) -> (r: Vec<u8>)
    ensures
        r@ == b@,
{
    let mut out: Vec<u8> = Vec::new();
    let mut i: usize = 0;
    while i < b.len()
        invariant
            i <= b@.len(),
            out@ == b@.subrange(0, i as int),
        decreases b.len() - i,
    {
        out.push(b[i]);
        i = i + 1;
        assert(out@ =~= b@.subrange(0, i as int));
    }
    assert(out@ =~= b@);
    out
}

fn seq_eq(a: &[u8], b: &[u8]) -> (r: bool)
    ensures
        r == (a@ == b@),
{
    if a.len() != b.len() {
        return false;
    }
    let mut i: usize = 0;
    while i < a.len()
        invariant
            a@.len() == b@.len(),
            i <= a@.len(),
            forall|j: int| 0 <= j < i ==> a@[j] == b@[j],
        decreases a.len() - i,
    {
        if a[i] != b[i] {
            return false;
        }
        i = i + 1;
    }
    assert(a@ =~= b@);
    true
}

impl HashInput for i64 {
    open spec fn key(&self) -> Seq<u8> {
        word_bytes(*self as u64)
    }

    fn key_bytes(&self) -> (r: Vec<u8>) {
        word_to_bytes(*self as u64)
    }

    fn same_item(&self, other: &Self) -> (r: bool) {
        proof {
            let a = *self;
            let b = *other;
            lemma_word_bytes_injective(a as u64, b as u64);
            assert((a as u64 == b as u64) ==> a == b) by (bit_vector);
        }
        *self == *other
    }

    fn clone_item(&self) -> (r: Self) {
        *self
    }
}

impl HashInput for u64 {
    open spec fn key(&self) -> Seq<u8> {
        word_bytes(*self)
    }

    fn key_bytes(&self) -> (r: Vec<u8>) {
        word_to_bytes(*self)
    }

    fn same_item(&self, other: &Self) -> (r: bool) {
        proof {
            lemma_word_bytes_injective(*self, *other);
        }
        *self == *other
    }

    fn clone_item(&self) -> (r: Self) {
        *self
    }
}

impl HashInput for String {
    open spec fn key(&self) -> Seq<u8> {
        vstd::utf8::encode_utf8(self@)
    }

    fn key_bytes(&self) -> (r: Vec<u8>) {
        slice_to_vec(self.as_str().as_bytes())
    }

    fn same_item(&self, other: &Self) -> (r: bool) {
        seq_eq(self.as_str().as_bytes(), other.as_str().as_bytes())
    }

    fn clone_item(&self) -> (r: Self) {
        self.as_str().to_owned()
    }
}

impl<'a> HashInput for &'a str {
    open spec fn key(&self) -> Seq<u8> {
        (*self).spec_bytes()
    }

    fn key_bytes(&self) -> (r: Vec<u8>) {
        slice_to_vec((*self).as_bytes())
    }

    fn same_item(&self, other: &Self) -> (r: bool) {
        seq_eq((*self).as_bytes(), (*other).as_bytes())
    }

    fn clone_item(&self) -> (r: Self) {
        *self
    }
}

proof fn lemma_word_bytes_injective(a: u64, b: u64)
    ensures
        word_bytes(a) == word_bytes(b) ==> a == b,
{
    if word_bytes(a) == word_bytes(b) {
        let sa = word_bytes(a);
        let sb = word_bytes(b);
        assert forall|i: int| 0 <= i < 8 implies #[trigger] sa[i] == sb[i] by {}
        lemma_word_bytes_value(a);
        lemma_word_bytes_value(b);
    }
}

/// The image of a word reads back as the word.
pub proof fn lemma_word_bytes_value(v: u64)
    ensures
        le_nat(word_bytes(v)) == v,
{
    lemma_digits_value(v as nat, 8);
    assert(crate::codec::pow256(8) == 0x1_0000_0000_0000_0000nat) by {
        reveal_with_fuel(crate::codec::pow256, 9);
    }
    assert(word_bytes(v) =~= Seq::new(8, |i: int| ((v as nat / crate::codec::pow256(i as nat)) % 256) as u8));
    vstd::arithmetic::div_mod::lemma_small_mod(v as nat, 0x1_0000_0000_0000_0000nat);
}

pub proof fn lemma_digits_value(v: nat, n: nat)
    ensures
        le_nat(Seq::new(n, |i: int| ((v / crate::codec::pow256(i as nat)) % 256) as u8)) == v
            % crate::codec::pow256(n),
    decreases n,
{
    let s = Seq::new(n, |i: int| ((v / crate::codec::pow256(i as nat)) % 256) as u8);
    if n == 0 {
        assert(crate::codec::pow256(0) == 1);
    } else {
        let t = Seq::new((n - 1) as nat, |i: int| (((v / 256) / crate::codec::pow256(i as nat)) % 256) as u8);
        assert forall|i: int| 0 <= i < n - 1 implies #[trigger] s.drop_first()[i] == t[i] by {
            crate::codec::lemma_pow256_pos(i as nat);
            vstd::arithmetic::div_mod::lemma_div_denominator(v as int, 256, crate::codec::pow256(i as nat) as int);
            assert(crate::codec::pow256((i + 1) as nat) == 256 * crate::codec::pow256(i as nat));
        }
        assert(s.drop_first() =~= t);
        lemma_digits_value(v / 256, (n - 1) as nat);
        assert(crate::codec::pow256(0) == 1);
        assert(v / 1 == v);
        assert(s[0] == (v % 256) as u8);
        crate::codec::lemma_pow256_pos((n - 1) as nat);
        let p = crate::codec::pow256((n - 1) as nat);
        assert(crate::codec::pow256(n) == 256 * p);
        vstd::arithmetic::div_mod::lemma_mod_mod(v as int, 256, p as int);
        vstd::arithmetic::div_mod::lemma_breakdown(v as int, 256, p as int);
    }
}

} // verus!
