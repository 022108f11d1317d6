use vstd::prelude::*;
use vstd::arithmetic::power2::{lemma2_to64, lemma2_to64_rest, lemma_pow2_adds, lemma_pow2_pos, pow2};
use vstd::arithmetic::div_mod::lemma_fundamental_div_mod;
use byteorder::{BigEndian, ByteOrder, LittleEndian};
use crate::quadkey::{BoundingBox, DbKey, DbValue};

verus! {

/// `n` written in `len` bytes, most significant first.
pub open spec fn be_bytes(n: int, len: nat) -> Seq<u8> {
    Seq::new(len, |i: int| ((n / pow2((8 * (len - 1 - i)) as nat) as int) % 256) as u8)
}

/// `n` written in `len` bytes, least significant first.
pub open spec fn le_bytes(n: int, len: nat) -> Seq<u8> {
    Seq::new(len, |i: int| ((n / pow2((8 * i) as nat) as int) % 256) as u8)
}

/// The 10 bytes of a stored key: the quadkey, then the entity, both
/// big-endian, so that byte order is the order of the quadkeys.
pub open spec fn key_bytes(k: DbKey) -> Seq<u8> {
    be_bytes(k.quadkey as int, 8) + be_bytes(k.entity as int, 2)
}

/// The 17 bytes of a stored value: x, y, w, h little-endian, then the flag byte.
pub open spec fn value_bytes(v: DbValue) -> Seq<u8> {
    le_bytes(v.bbox.x as int, 4) + le_bytes(v.bbox.y as int, 4) + le_bytes(v.bbox.w as int, 4)
        + le_bytes(v.bbox.h as int, 4) + seq![v.is_black]
}

/// `s` comes before `t` in byte-wise lexicographic order: they agree up to
/// some index, where `s` holds the smaller byte.
pub open spec fn bytes_less(s: Seq<u8>, t: Seq<u8>) -> bool {
    exists|i: int|
        0 <= i < s.len() && i < t.len() && s.subrange(0, i) == t.subrange(0, i) && #[trigger] s[i]
            < t[i]
}

/// Stored keys sort by quadkey, then by entity, when their bytes are
/// compared lexicographically.
pub proof fn lemma_key_order(a: DbKey, b: DbKey)
    requires
        a.quadkey < b.quadkey || (a.quadkey == b.quadkey && a.entity < b.entity),
    ensures
        bytes_less(key_bytes(a), key_bytes(b)),
{
    let qa = be_bytes(a.quadkey as int, 8);
    let qb = be_bytes(b.quadkey as int, 8);
    let ea = be_bytes(a.entity as int, 2);
    let eb = be_bytes(b.entity as int, 2);
    let sa = qa + ea;
    let sb = qb + eb;
    if a.quadkey < b.quadkey {
        lemma2_to64();
        lemma2_to64_rest();
        lemma_be_less(a.quadkey as int, b.quadkey as int, 8);
        let i = choose|i: int|
            0 <= i < qa.len() && i < qb.len() && qa.subrange(0, i) == qb.subrange(0, i)
                && #[trigger] qa[i] < qb[i];
        assert(sa.subrange(0, i) =~= qa.subrange(0, i));
        assert(sb.subrange(0, i) =~= qb.subrange(0, i));
        assert(sa[i] == qa[i] && sb[i] == qb[i]);
    } else {
        lemma2_to64();
        lemma_be_less(a.entity as int, b.entity as int, 2);
        let i = choose|i: int|
            0 <= i < ea.len() && i < eb.len() && ea.subrange(0, i) == eb.subrange(0, i)
                && #[trigger] ea[i] < eb[i];
        assert(sa.subrange(0, 8 + i) =~= qa + ea.subrange(0, i));
        assert(sb.subrange(0, 8 + i) =~= qb + eb.subrange(0, i));
        assert(sa[8 + i] == ea[i] && sb[8 + i] == eb[i]);
    }
}

/// Writing a number in one more byte puts its last byte after the bytes of
/// the number divided by 256.
proof fn lemma_be_push(n: int, len: nat)
    requires
        0 <= n,
    ensures
        be_bytes(n, len + 1) =~= be_bytes(n / 256, len).push((n % 256) as u8),
{
    assert forall|i: int| 0 <= i < len implies #[trigger] be_bytes(n, len + 1)[i] == be_bytes(
        n / 256,
        len,
    )[i] by {
        let e = (8 * (len - 1 - i)) as nat;
        lemma_pow2_adds(8, e);
        lemma_pow2_pos(e);
        lemma2_to64();
        vstd::arithmetic::div_mod::lemma_div_denominator(n, 256, pow2(e) as int);
        assert((8 * (len + 1 - 1 - i)) as nat == 8 + e);
    }
    lemma2_to64();
    vstd::arithmetic::div_mod::lemma_div_basics(n);
}

/// A smaller number below `256^len` comes first in big-endian bytes.
proof fn lemma_be_less(a: int, b: int, len: nat)
    requires
        0 <= a < b < pow2(8 * len),
    ensures
        bytes_less(be_bytes(a, len), be_bytes(b, len)),
    decreases len,
{
    if len == 0 {
        lemma2_to64();
    } else {
        let l1 = (len - 1) as nat;
        lemma_be_push(a, l1);
        lemma_be_push(b, l1);
        let sa = be_bytes(a, len);
        let sb = be_bytes(b, len);
        let pa = be_bytes(a / 256, l1);
        let pb = be_bytes(b / 256, l1);
        lemma_pow2_adds(8 * l1, 8);
        lemma2_to64();
        vstd::arithmetic::div_mod::lemma_div_is_ordered(a, b, 256);
        if a / 256 < b / 256 {
            vstd::arithmetic::div_mod::lemma_multiply_divide_lt(b, 256, pow2(8 * l1) as int);
            lemma_be_less(a / 256, b / 256, l1);
            let i = choose|i: int|
                0 <= i < pa.len() && i < pb.len() && pa.subrange(0, i) == pb.subrange(0, i)
                    && #[trigger] pa[i] < pb[i];
            assert(sa.subrange(0, i) =~= pa.subrange(0, i));
            assert(sb.subrange(0, i) =~= pb.subrange(0, i));
            assert(sa[i] == pa[i] && sb[i] == pb[i]);
        } else {
            lemma_fundamental_div_mod(a, 256);
            lemma_fundamental_div_mod(b, 256);
            assert(sa.subrange(0, l1 as int) =~= pa);
            assert(sb.subrange(0, l1 as int) =~= pb);
            assert(sa[l1 as int] < sb[l1 as int]);
        }
    }
}

/// Relies on byteorder's `BigEndian::write_u64`, which copies `n.to_be_bytes()`
/// into the first 8 bytes of the buffer.
#[verifier::external_body]
fn u64_be(n: u64) -> (r: Vec<u8>)
    ensures
        r@ == be_bytes(n as int, 8),
{
    let mut buf = vec![0u8; 8];
    BigEndian::write_u64(&mut buf, n);
    buf
}

/// Relies on byteorder's `BigEndian::write_u16`, which copies `n.to_be_bytes()`
/// into the first 2 bytes of the buffer.
#[verifier::external_body]
fn u16_be(n: u16) -> (r: Vec<u8>)
    ensures
        r@ == be_bytes(n as int, 2),
{
    let mut buf = vec![0u8; 2];
    BigEndian::write_u16(&mut buf, n);
    buf
}

/// Relies on byteorder's `LittleEndian::write_u32`, which copies
/// `n.to_le_bytes()` into the first 4 bytes of the buffer.
#[verifier::external_body]
fn u32_le(n: u32) -> (r: Vec<u8>)
    ensures
        r@ == le_bytes(n as int, 4),
{
    let mut buf = vec![0u8; 4];
    LittleEndian::write_u32(&mut buf, n);
    buf
}

impl DbKey {
    /// The key as the store holds it.
    pub fn to_bytes(&self) -> (r: Vec<u8>)
        ensures
            r@ == key_bytes(*self),
            r@.len() == 10,
    {
        let mut r = u64_be(self.quadkey);
        let mut e = u16_be(self.entity);
        r.append(&mut e);
        r
    }
}

impl DbValue {
    /// The value as the store holds it.
    pub fn to_bytes(&self) -> (r: Vec<u8>)
        ensures
            r@ == value_bytes(*self),
            r@.len() == 17,
    {
        let b: BoundingBox = self.bbox;
        let mut r = u32_le(b.x);
        let mut y = u32_le(b.y);
        let mut w = u32_le(b.w);
        let mut h = u32_le(b.h);
        r.append(&mut y);
        r.append(&mut w);
        r.append(&mut h);
        r.push(self.is_black);
        r
    }
}

} // verus!
