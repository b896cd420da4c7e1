//! Little-endian byte codecs and the preamble checks shared by every family.
use vstd::prelude::*;

use crate::error::Error;
use crate::error::ErrorKind;

verus! {

/// `256^n`.
pub open spec fn pow256(n: nat) -> nat
    decreases n,
{
    if n == 0 {
        1
    } else {
        256 * pow256((n - 1) as nat)
    }
}

/// The unsigned integer that `s` encodes, least significant byte first.
pub open spec fn le_nat(s: Seq<u8>) -> nat
    decreases s.len(),
{
    if s.len() == 0 {
        0
    } else {
        s[0] as nat + 256 * le_nat(s.drop_first())
    }
}

pub proof fn lemma_pow256_pos(n: nat)
    ensures
        pow256(n) >= 1,
    decreases n,
{
    if n > 0 {
        lemma_pow256_pos((n - 1) as nat);
    }
}

/// A value of `n` bytes is below `256^n`.
pub proof fn lemma_le_nat_bound(s: Seq<u8>)
    ensures
        le_nat(s) < pow256(s.len()),
    decreases s.len(),
{
    if s.len() > 0 {
        lemma_le_nat_bound(s.drop_first());
        let a = s[0] as nat;
        let b = le_nat(s.drop_first());
        let p = pow256((s.len() - 1) as nat);
        assert(a + 256 * b < 256 * p) by (nonlinear_arith)
            requires
                a < 256,
                b < p,
        ;
    }
}

/// Appending a byte adds it at the next power of 256.
pub proof fn lemma_le_nat_push(s: Seq<u8>, b: u8)
    ensures
        le_nat(s.push(b)) == le_nat(s) + b as nat * pow256(s.len()),
    decreases s.len(),
{
    if s.len() == 0 {
        assert(s.push(b).drop_first() =~= Seq::<u8>::empty());
        assert(le_nat(s.push(b).drop_first()) == 0);
        assert(le_nat(s) == 0);
        assert(pow256(0) == 1);
        assert(s.push(b)[0] == b);
    } else {
        assert(s.push(b).drop_first() =~= s.drop_first().push(b));
        lemma_le_nat_push(s.drop_first(), b);
        let p = pow256((s.len() - 1) as nat);
        let x = le_nat(s.drop_first());
        assert(s.push(b)[0] == s[0]);
        assert(pow256(s.len()) == 256 * p);
        assert(256 * (x + b as nat * p) == 256 * x + b as nat * (256 * p)) by (nonlinear_arith);
    }
}

/// Reads the `n`-byte little-endian unsigned integer at `offset`.
pub fn read_le(bytes: &[u8], offset: usize, n: usize) -> (r: u64)
    requires
        n <= 8,
        offset + n <= bytes@.len(),
    ensures
        r as nat == le_nat(bytes@.subrange(offset as int, offset + n)),
{
    let len = bytes.len();
    let mut v: u64 = 0;
    let mut i: usize = n;
    while i > 0
        invariant
            len == bytes@.len(),
            n <= 8,
            offset + n <= bytes@.len(),
            i <= n,
            v as nat == le_nat(bytes@.subrange(offset + i, offset + n)),
        decreases i,
    {
        let ghost s = bytes@.subrange(offset + i - 1, offset + n);
        assert(s.drop_first() =~= bytes@.subrange(offset + i, offset + n));
        proof {
            lemma_le_nat_bound(bytes@.subrange(offset + i, offset + n));
            lemma_pow_le8((n - i) as nat);
        }
        let b = bytes[offset + i - 1];
        assert(v as nat * 256 + b as nat <= 0xffff_ffff_ffff_ffff) by (nonlinear_arith)
            requires
                (v as nat) < pow256((n - i) as nat),
                pow256((n - i) as nat) <= pow256(7),
                pow256(7) == 0x100_0000_0000_0000nat,
                b < 256,
        ;
        v = v * 256 + b as u64;
        i = i - 1;
    }
    v
}

proof fn lemma_pow_le8(k: nat)
    requires
        k <= 7,
    ensures
        pow256(k) <= pow256(7),
        pow256(7) == 0x100_0000_0000_0000nat,
        pow256(8) == 0x1_0000_0000_0000_0000nat,
        pow256(4) == 0x1_0000_0000nat,
        pow256(2) == 0x1_0000nat,
{
    reveal_with_fuel(pow256, 9);
    if k < 7 {
        lemma_pow_mono(k, 7);
    }
}

proof fn lemma_pow_mono(a: nat, b: nat)
    requires
        a <= b,
    ensures
        pow256(a) <= pow256(b),
    decreases b - a,
{
    if a < b {
        lemma_pow_mono(a, (b - 1) as nat);
        lemma_pow256_pos((b - 1) as nat);
    }
}

/// Writes `value` as `n` little-endian bytes at `offset`, leaving every other byte as it was.
pub fn write_le(bytes: &mut Vec<u8>, offset: usize, value: u64, n: usize)
    requires
        n <= 8,
        offset + n <= old(bytes)@.len(),
        (value as nat) < pow256(n as nat),
    ensures
        final(bytes)@.len() == old(bytes)@.len(),
        le_nat(final(bytes)@.subrange(offset as int, offset + n)) == value as nat,
        forall|j: int|
            0 <= j < old(bytes)@.len() && !(offset <= j < offset + n) ==> #[trigger] final(bytes)@[j]
                == old(bytes)@[j],
{
    let ghost orig = bytes@;
    let len = bytes.len();
    let mut x: u64 = value;
    let mut i: usize = 0;
    proof {
        assert(le_nat(bytes@.subrange(offset as int, offset as int)) == 0);
        assert(pow256(0) == 1);
    }
    while i < n
        invariant
            len == bytes@.len(),
            n <= 8,
            offset + n <= bytes@.len(),
            bytes@.len() == orig.len(),
            i <= n,
            (value as nat) < pow256(n as nat),
            le_nat(bytes@.subrange(offset as int, offset + i)) + pow256(i as nat) * x == value,
            forall|j: int|
                0 <= j < orig.len() && !(offset <= j < offset + i) ==> #[trigger] bytes@[j]
                    == orig[j],
        decreases n - i,
    {
        let d = (x % 256) as u8;
        let ghost before = bytes@;
        bytes.set(offset + i, d);
        proof {
            assert(bytes@.subrange(offset as int, offset + i + 1) =~= before.subrange(
                offset as int,
                offset + i,
            ).push(d));
            lemma_le_nat_push(before.subrange(offset as int, offset + i), d);
            let p = pow256(i as nat);
            let xx = x as nat;
            assert(d as nat * p + 256 * p * (xx / 256) == p * xx) by (nonlinear_arith)
                requires
                    d as nat == xx % 256,
            ;
        }
        x = x / 256;
        i = i + 1;
    }
    proof {
        let p = pow256(n as nat);
        let l = le_nat(bytes@.subrange(offset as int, offset + n));
        assert(x == 0) by (nonlinear_arith)
            requires
                l + p * x == value,
                (value as nat) < p,
                l >= 0,
        ;
    }
}

/// Reads a little-endian `u32` at `offset`.
pub fn read_u32_le(bytes: &[u8], offset: usize) -> (r: u32)
    requires
        offset + 4 <= bytes@.len(),
    ensures
        r as nat == le_nat(bytes@.subrange(offset as int, offset + 4)),
{
    let v = read_le(bytes, offset, 4);
    proof {
        lemma_le_nat_bound(bytes@.subrange(offset as int, offset + 4));
        lemma_pow_le8(4);
    }
    v as u32
}

/// Reads a little-endian `u64` at `offset`.
pub fn read_u64_le(bytes: &[u8], offset: usize) -> (r: u64)
    requires
        offset + 8 <= bytes@.len(),
    ensures
        r as nat == le_nat(bytes@.subrange(offset as int, offset + 8)),
{
    read_le(bytes, offset, 8)
}

/// Reads a little-endian two's-complement `i64` at `offset`.
pub fn read_i64_le(bytes: &[u8], offset: usize) -> (r: i64)
    requires
        offset + 8 <= bytes@.len(),
    ensures
        r == le_nat(bytes@.subrange(offset as int, offset + 8)) as u64 as i64,
{
    read_le(bytes, offset, 8) as i64
}

/// Writes `value` as a little-endian `u32` at `offset`.
pub fn write_u32_le(bytes: &mut Vec<u8>, offset: usize, value: u32)
    requires
        offset + 4 <= old(bytes)@.len(),
    ensures
        final(bytes)@.len() == old(bytes)@.len(),
        le_nat(final(bytes)@.subrange(offset as int, offset + 4)) == value as nat,
        forall|j: int|
            0 <= j < old(bytes)@.len() && !(offset <= j < offset + 4) ==> #[trigger] final(bytes)@[j]
                == old(bytes)@[j],
{
    proof {
        lemma_pow_le8(4);
    }
    write_le(bytes, offset, value as u64, 4);
}

/// Writes `value` as a little-endian `u64` at `offset`.
pub fn write_u64_le(bytes: &mut Vec<u8>, offset: usize, value: u64)
    requires
        offset + 8 <= old(bytes)@.len(),
    ensures
        final(bytes)@.len() == old(bytes)@.len(),
        le_nat(final(bytes)@.subrange(offset as int, offset + 8)) == value as nat,
        forall|j: int|
            0 <= j < old(bytes)@.len() && !(offset <= j < offset + 8) ==> #[trigger] final(bytes)@[j]
                == old(bytes)@[j],
{
    proof {
        lemma_pow_le8(0);
    }
    write_le(bytes, offset, value, 8);
}

/// Accepts `actual` only when it equals the one serial version that a family reads.
pub fn ensure_serial_version_is(expected: u8, actual: u8) -> (r: Result<(), Error>)
    ensures
        r.is_ok() <==> expected == actual,
        r matches Err(e) ==> e.kind == ErrorKind::InvalidData,
{
    if expected == actual {
        Ok(())
    } else {
        Err(Error::deserial("unsupported serial version"))
    }
}

/// Accepts `actual` only when it is one of the listed preamble sizes.
pub fn ensure_preamble_longs_in(expected: &[u8], actual: u8) -> (r: Result<(), Error>)
    ensures
        r.is_ok() <==> expected@.contains(actual),
        r matches Err(e) ==> e.kind == ErrorKind::InvalidData,
{
    let mut i: usize = 0;
    while i < expected.len()
        invariant
            i <= expected@.len(),
            forall|j: int| 0 <= j < i ==> expected@[j] != actual,
        decreases expected.len() - i,
    {
        if expected[i] == actual {
            return Ok(());
        }
        i = i + 1;
    }
    Err(Error::deserial("invalid preamble longs"))
}

/// Accepts `actual` only when it lies in `lo..=hi`.
pub fn ensure_preamble_longs_in_range(lo: u8, hi: u8, actual: u8) -> (r: Result<(), Error>)
    ensures
        r.is_ok() <==> lo <= actual <= hi,
        r matches Err(e) ==> e.kind == ErrorKind::InvalidData,
{
    if lo <= actual && actual <= hi {
        Ok(())
    } else {
        Err(Error::deserial("invalid preamble longs"))
    }
}

} // verus!
