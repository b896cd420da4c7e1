//! Byte codecs for the items of a Frequent-Items sketch: `i64` as eight little-endian bytes,
//! `String` as a little-endian `u32` length followed by its UTF-8 bytes.
use vstd::prelude::*;
use vstd::utf8::decode_utf8;
use vstd::utf8::valid_utf8;

use crate::codec::le_nat;
use crate::codec::read_u32_le;
use crate::codec::read_u64_le;
use crate::error::Error;
use crate::error::ErrorKind;
use crate::hash::word_bytes;
use crate::hash::word_to_bytes;
use crate::hash::HashInput;

verus! {

/// The images of `items`, one after another.
pub open spec fn i64s_bytes(items: Seq<i64>) -> Seq<u8>
    decreases items.len(),
{
    if items.len() == 0 {
        Seq::empty()
    } else {
        i64s_bytes(items.drop_last()) + word_bytes(items.last() as u64)
    }
}

/// The length-prefixed UTF-8 images of `items`, one after another.
pub open spec fn strings_bytes(items: Seq<Seq<u8>>) -> Seq<u8>
    decreases items.len(),
{
    if items.len() == 0 {
        Seq::empty()
    } else {
        strings_bytes(items.drop_last()) + word_bytes(items.last().len() as u64).subrange(0, 4)
            + items.last()
    }
}

/// One string's encoding: its length as four little-endian bytes, then its bytes.
pub open spec fn string_enc(x: Seq<u8>) -> Seq<u8> {
    word_bytes(x.len() as u64).subrange(0, 4) + x
}

/// The encoding of a list is its first string's encoding followed by the rest's.
pub proof fn lemma_strings_front(k: Seq<Seq<u8>>)
    requires
        k.len() >= 1,
    ensures
        strings_bytes(k) == string_enc(k[0]) + strings_bytes(k.drop_first()),
    decreases k.len(),
{
    if k.len() == 1 {
        assert(k.drop_last().len() == 0);
        assert(k.drop_first().len() == 0);
        assert(strings_bytes(k.drop_last()) == Seq::<u8>::empty());
        assert(strings_bytes(k.drop_first()) == Seq::<u8>::empty());
        assert(k.last() == k[0]);
        assert(strings_bytes(k) =~= string_enc(k[0]) + strings_bytes(k.drop_first()));
    } else {
        lemma_strings_front(k.drop_last());
        assert(k.drop_last().drop_first() =~= k.drop_first().drop_last());
        assert(k.drop_first().last() == k.last());
        assert(k.drop_last()[0] == k[0]);
        assert(strings_bytes(k) =~= string_enc(k[0]) + strings_bytes(k.drop_first()));
    }
}

/// Four length bytes spell the length back.
proof fn lemma_len_bytes(x: Seq<u8>)
    requires
        x.len() < 0x1_0000_0000,
    ensures
        le_nat(word_bytes(x.len() as u64).subrange(0, 4)) == x.len(),
        string_enc(x).len() == 4 + x.len(),
        string_enc(x).subrange(4, 4 + x.len() as int) == x,
{
    crate::hash::lemma_digits_value(x.len() as nat, 4);
    assert(crate::codec::pow256(4) == 0x1_0000_0000) by {
        reveal_with_fuel(crate::codec::pow256, 5);
    }
    assert(word_bytes(x.len() as u64).subrange(0, 4) =~= Seq::new(
        4,
        |i: int| ((x.len() as nat / crate::codec::pow256(i as nat)) % 256) as u8,
    ));
    vstd::arithmetic::div_mod::lemma_small_mod(x.len() as nat, 0x1_0000_0000);
    assert(string_enc(x).subrange(4, 4 + x.len() as int) =~= x);
}

/// Only one list of strings, each shorter than `2^32` bytes, has a given encoding.
pub proof fn lemma_strings_injective(k: Seq<Seq<u8>>, k2: Seq<Seq<u8>>)
    requires
        forall|i: int| 0 <= i < k.len() ==> (#[trigger] k[i]).len() < 0x1_0000_0000,
        forall|i: int| 0 <= i < k2.len() ==> (#[trigger] k2[i]).len() < 0x1_0000_0000,
        k2.len() == k.len(),
        strings_bytes(k2) == strings_bytes(k),
    ensures
        k2 == k,
    decreases k.len(),
{
    if k.len() == 0 {
        assert(k2 =~= k);
    } else {
        lemma_strings_front(k);
        lemma_strings_front(k2);
        let x = k[0];
        let y = k2[0];
        lemma_len_bytes(x);
        lemma_len_bytes(y);
        let b = strings_bytes(k);
        assert(b.subrange(0, 4) =~= word_bytes(x.len() as u64).subrange(0, 4));
        assert(b.subrange(0, 4) =~= word_bytes(y.len() as u64).subrange(0, 4));
        assert(y.len() == x.len());
        assert(b.subrange(4, 4 + x.len() as int) =~= x);
        assert(b.subrange(4, 4 + y.len() as int) =~= y);
        let e = 4 + x.len();
        assert(b.subrange(e as int, b.len() as int) =~= strings_bytes(k.drop_first()));
        assert(b.subrange(e as int, b.len() as int) =~= strings_bytes(k2.drop_first()));
        assert forall|i: int| 0 <= i < k.drop_first().len() implies (#[trigger] k.drop_first()[i]).len() < 0x1_0000_0000 by {
            assert(k.drop_first()[i] == k[i + 1]);
        }
        assert forall|i: int| 0 <= i < k2.drop_first().len() implies (#[trigger] k2.drop_first()[i]).len() < 0x1_0000_0000 by {
            assert(k2.drop_first()[i] == k2[i + 1]);
        }
        lemma_strings_injective(k.drop_first(), k2.drop_first());
        assert forall|i: int| 0 <= i < k.len() implies k2[i] == k[i] by {
            if i > 0 {
                assert(k2.drop_first()[i - 1] == k.drop_first()[i - 1]);
            }
        }
        assert(k2 =~= k);
    }
}

/// Reading from `off + p` in `b` is reading from `p` in `b2`, the bytes of `b` from `off` on.
proof fn lemma_strings_shift(b: Seq<u8>, off: int, b2: Seq<u8>, p: int, n: nat)
    requires
        0 <= off <= b.len(),
        0 <= p,
        b2 == b.subrange(off, b.len() as int),
    ensures
        strings_ok(b, off + p, n) == strings_ok(b2, p, n),
        strings_ok(b2, p, n) ==> strings_end(b, off + p, n) == off + strings_end(b2, p, n),
    decreases n,
{
    if n > 0 && off + p + 4 <= b.len() {
        assert(b.subrange(off + p, off + p + 4) =~= b2.subrange(p, p + 4));
        let l = le_nat(b2.subrange(p, p + 4)) as int;
        if off + p + 4 + l <= b.len() {
            assert(b.subrange(off + p + 4, off + p + 4 + l) =~= b2.subrange(p + 4, p + 4 + l));
        }
        lemma_strings_shift(b, off, b2, p + 4 + l, (n - 1) as nat);
    }
}

/// The encoding of valid UTF-8 strings, each shorter than `2^32` bytes, followed by anything,
/// reads back as that many strings ending where the encoding ends.
pub proof fn lemma_strings_readable(k: Seq<Seq<u8>>, tail: Seq<u8>)
    requires
        forall|i: int| 0 <= i < k.len() ==> (#[trigger] k[i]).len() < 0x1_0000_0000 && valid_utf8(k[i]),
    ensures
        strings_ok(strings_bytes(k) + tail, 0, k.len()),
        strings_end(strings_bytes(k) + tail, 0, k.len()) == strings_bytes(k).len(),
    decreases k.len(),
{
    if k.len() > 0 {
        lemma_strings_front(k);
        let x = k[0];
        lemma_len_bytes(x);
        let rest = k.drop_first();
        let b = strings_bytes(k) + tail;
        let b2 = strings_bytes(rest) + tail;
        let e = 4 + x.len();
        assert(b.subrange(0, 4) =~= word_bytes(x.len() as u64).subrange(0, 4));
        assert(b.subrange(4, e as int) =~= x);
        assert(b.subrange(e as int, b.len() as int) =~= b2);
        assert forall|i: int| 0 <= i < rest.len() implies (#[trigger] rest[i]).len() < 0x1_0000_0000 && valid_utf8(rest[i]) by {
            assert(rest[i] == k[i + 1]);
        }
        lemma_strings_readable(rest, tail);
        lemma_strings_shift(b, e as int, b2, 0, rest.len());
    } else {
        assert(strings_bytes(k).len() == 0);
    }
}

/// Relies on `String::from_utf8`: it accepts exactly the valid UTF-8 byte strings, and the
/// string it returns holds the characters that the bytes encode.
#[verifier::external_body]
fn utf8_to_string(bytes: &[u8]) -> (r: Option<String>)
    ensures
        r.is_some() <==> valid_utf8(bytes@),
        r matches Some(s) ==> s@ == decode_utf8(bytes@),
{
    String::from_utf8(bytes.to_vec()).ok()
}

fn append(out: &mut Vec<u8>, tail: &Vec<u8>)
    ensures
        final(out)@ == old(out)@ + tail@,
{
    let mut i: usize = 0;
    let ghost start = out@;
    while i < tail.len()
        invariant
            i <= tail@.len(),
            out@ == start + tail@.subrange(0, i as int),
        decreases tail.len() - i,
    {
        out.push(tail[i]);
        i = i + 1;
        assert(out@ =~= start + tail@.subrange(0, i as int));
    }
    assert(tail@.subrange(0, tail@.len() as int) =~= tail@);
}

/// Encodes `i64` items, eight little-endian bytes each.
pub fn serialize_i64_items(items: &[i64]) -> (r: Vec<u8>)
    ensures
        r@ == i64s_bytes(items@),
{
    let mut out: Vec<u8> = Vec::new();
    let mut i: usize = 0;
    while i < items.len()
        invariant
            i <= items@.len(),
            out@ == i64s_bytes(items@.subrange(0, i as int)),
        decreases items.len() - i,
    {
        let w = word_to_bytes(items[i] as u64);
        append(&mut out, &w);
        proof {
            assert(items@.subrange(0, i + 1).drop_last() =~= items@.subrange(0, i as int));
        }
        i = i + 1;
    }
    assert(items@.subrange(0, items@.len() as int) =~= items@);
    out
}

/// Decodes `num_items` `i64` items; returns them with the number of bytes read.
pub fn deserialize_i64_items(bytes: &[u8], num_items: usize) -> (r: Result<(Vec<i64>, usize), Error>)
    ensures
        r.is_ok() <==> num_items * 8 <= bytes@.len(),
        r matches Err(e) ==> e.kind == ErrorKind::InsufficientData,
        r matches Ok((items, consumed)) ==> consumed == num_items * 8 && items@.len() == num_items
            && forall|i: int|
            0 <= i < num_items ==> #[trigger] items@[i] == le_nat(
                bytes@.subrange(8 * i, 8 * i + 8),
            ) as u64 as i64,
{
    let len = bytes.len();
    if num_items > len / 8 {
        return Err(Error::insufficient_data("not enough bytes for i64 items"));
    }
    let mut items: Vec<i64> = Vec::new();
    let mut i: usize = 0;
    while i < num_items
        invariant
            num_items <= len / 8,
            len == bytes@.len(),
            i <= num_items,
            items@.len() == i,
            forall|j: int|
                0 <= j < i ==> #[trigger] items@[j] == le_nat(bytes@.subrange(8 * j, 8 * j + 8))
                    as u64 as i64,
        decreases num_items - i,
    {
        let v = crate::codec::read_i64_le(bytes, 8 * i);
        items.push(v);
        i = i + 1;
    }
    Ok((items, num_items * 8))
}

/// Encodes strings, each as its length (a little-endian `u32`) and its UTF-8 bytes.
pub fn serialize_string_items(items: &[String]) -> (r: Vec<u8>)
    requires
        forall|i: int| 0 <= i < items@.len() ==> (#[trigger] items@[i]).key().len() <= u32::MAX,
    ensures
        r@ == strings_bytes(items@.map_values(|s: String| s.key())),
{
    let mut out: Vec<u8> = Vec::new();
    let mut i: usize = 0;
    while i < items.len()
        invariant
            i <= items@.len(),
            forall|i: int| 0 <= i < items@.len() ==> (#[trigger] items@[i]).key().len() <= u32::MAX,
            out@ == strings_bytes(items@.subrange(0, i as int).map_values(|s: String| s.key())),
        decreases items.len() - i,
    {
        let b = items[i].key_bytes();
        let n = b.len();
        let w = word_to_bytes(n as u64);
        let mut head: Vec<u8> = Vec::new();
        head.push(w[0]);
        head.push(w[1]);
        head.push(w[2]);
        head.push(w[3]);
        append(&mut out, &head);
        append(&mut out, &b);
        proof {
            let prev = items@.subrange(0, i as int).map_values(|s: String| s.key());
            let next = items@.subrange(0, i + 1).map_values(|s: String| s.key());
            assert(next.drop_last() =~= prev);
            assert(head@ =~= w@.subrange(0, 4));
        }
        i = i + 1;
    }
    assert(items@.subrange(0, items@.len() as int) =~= items@);
    out
}

/// From `off` on, `b` holds `n` strings, each a little-endian `u32` length and that many bytes
/// of valid UTF-8.
pub open spec fn strings_ok(b: Seq<u8>, off: int, n: nat) -> bool
    decreases n,
{
    n == 0 || (0 <= off && off + 4 <= b.len() && off + 4 + le_nat(b.subrange(off, off + 4)) <= b.len()
        && valid_utf8(b.subrange(off + 4, off + 4 + le_nat(b.subrange(off, off + 4))))
        && strings_ok(b, off + 4 + le_nat(b.subrange(off, off + 4)), (n - 1) as nat))
}

/// Where `n` length-prefixed strings from `off` end.
pub open spec fn strings_end(b: Seq<u8>, off: int, n: nat) -> int
    decreases n,
{
    if n == 0 {
        off
    } else {
        strings_end(b, off + 4 + le_nat(b.subrange(off, off + 4)), (n - 1) as nat)
    }
}

/// Four bytes are the low four bytes of the word they spell.
proof fn lemma_le4_bytes(s: Seq<u8>)
    requires
        s.len() == 4,
    ensures
        le_nat(s) < 0x1_0000_0000,
        word_bytes(le_nat(s) as u64).subrange(0, 4) == s,
{
    reveal_with_fuel(le_nat, 5);
    reveal_with_fuel(crate::codec::pow256, 5);
    let a = s[0] as int;
    let b = s[1] as int;
    let c = s[2] as int;
    let d = s[3] as int;
    assert(s.drop_first().drop_first().drop_first().drop_first().len() == 0);
    let v = le_nat(s) as int;
    assert(v == a + 256 * (b + 256 * (c + 256 * d)));
    assert(v < 0x1_0000_0000);
    let w = word_bytes(v as u64);
    assert(w[0] == a) by {
        assert((v / 1) % 256 == a) by (nonlinear_arith)
            requires
                v == a + 256 * (b + 256 * (c + 256 * d)),
                0 <= a < 256,
                0 <= b < 256,
                0 <= c < 256,
                0 <= d < 256,
        ;
    }
    assert(w[1] == b) by {
        assert((v / 256) % 256 == b) by (nonlinear_arith)
            requires
                v == a + 256 * (b + 256 * (c + 256 * d)),
                0 <= a < 256,
                0 <= b < 256,
                0 <= c < 256,
                0 <= d < 256,
        ;
    }
    assert(w[2] == c) by {
        assert((v / 65536) % 256 == c) by (nonlinear_arith)
            requires
                v == a + 256 * (b + 256 * (c + 256 * d)),
                0 <= a < 256,
                0 <= b < 256,
                0 <= c < 256,
                0 <= d < 256,
        ;
    }
    assert(w[3] == d) by {
        assert((v / 16777216) % 256 == d) by (nonlinear_arith)
            requires
                v == a + 256 * (b + 256 * (c + 256 * d)),
                0 <= a < 256,
                0 <= b < 256,
                0 <= c < 256,
                0 <= d < 256,
        ;
    }
    assert(w.subrange(0, 4) =~= s);
}

/// Decodes `num_items` length-prefixed UTF-8 strings; returns them with the number of bytes
/// read.
pub fn deserialize_string_items(bytes: &[u8], num_items: usize) -> (r: Result<
    (Vec<String>, usize),
    Error,
>)
    ensures
        r.is_ok() <==> strings_ok(bytes@, 0, num_items as nat),
        r matches Ok((items, consumed)) ==> items@.len() == num_items && consumed <= bytes@.len()
            && consumed == strings_end(bytes@, 0, num_items as nat) && strings_bytes(
            items@.map_values(|s: String| s.key()),
        ) == bytes@.subrange(0, consumed as int) && forall|i: int|
            0 <= i < items@.len() ==> (#[trigger] items@[i]).key().len() < 0x1_0000_0000,
        r matches Err(e) ==> e.kind == ErrorKind::InsufficientData || e.kind
            == ErrorKind::InvalidData,
        num_items == 0 ==> (r matches Ok((items, consumed)) && consumed == 0),
{
    let mut items: Vec<String> = Vec::new();
    let mut offset: usize = 0;
    let len = bytes.len();
    let mut i: usize = 0;
    while i < num_items
        invariant
            len == bytes@.len(),
            offset <= len,
            i <= num_items,
            items@.len() == i,
            i == 0 ==> offset == 0,
            strings_ok(bytes@, 0, num_items as nat) == strings_ok(bytes@, offset as int, (num_items - i) as nat),
            strings_end(bytes@, 0, num_items as nat) == strings_end(bytes@, offset as int, (num_items - i) as nat),
            strings_bytes(items@.map_values(|s: String| s.key())) == bytes@.subrange(0, offset as int),
            forall|q: int| 0 <= q < items@.len() ==> (#[trigger] items@[q]).key().len() < 0x1_0000_0000,
        decreases num_items - i,
    {
        let ghost off0 = offset as int;
        let ghost before = items@;
        if len - offset < 4 {
            return Err(Error::insufficient_data("not enough bytes for string length"));
        }
        let n = read_u32_le(bytes, offset) as usize;
        offset = offset + 4;
        if len - offset < n {
            return Err(Error::insufficient_data("not enough bytes for string payload"));
        }
        let mut payload: Vec<u8> = Vec::new();
        let mut j: usize = 0;
        while j < n
            invariant
                len == bytes@.len(),
                offset + n <= len,
                j <= n,
                payload@ == bytes@.subrange(offset as int, offset + j),
            decreases n - j,
        {
            payload.push(bytes[offset + j]);
            j = j + 1;
            assert(payload@ =~= bytes@.subrange(offset as int, offset + j));
        }
        match utf8_to_string(payload.as_slice()) {
            Some(s) => {
                items.push(s);
                proof {
                    vstd::utf8::decode_utf8_encode_utf8(payload@);
                    assert(s.key() == payload@);
                    assert forall|q: int| 0 <= q < items@.len() implies (#[trigger] items@[q]).key().len() < 0x1_0000_0000 by {
                        if q < before.len() {
                            assert(items@[q] == before[q]);
                        }
                    }
                    let ks = items@.map_values(|t: String| t.key());
                    assert(ks.drop_last() =~= before.map_values(|t: String| t.key()));
                    assert(ks.last() == payload@);
                    lemma_le4_bytes(bytes@.subrange(off0, off0 + 4));
                    assert(word_bytes(payload@.len() as u64).subrange(0, 4) == bytes@.subrange(off0, off0 + 4));
                    assert(bytes@.subrange(0, offset + n) =~= bytes@.subrange(0, off0) + bytes@.subrange(off0, off0 + 4) + payload@);
                }
            },
            None => {
                return Err(Error::deserial("invalid UTF-8 string payload"));
            },
        }
        offset = offset + n;
        i = i + 1;
    }
    proof {
        assert(bytes@.subrange(0, offset as int).len() == offset);
    }
    Ok((items, offset))
}

} // verus!
