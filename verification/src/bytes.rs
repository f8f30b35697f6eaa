//! Little-endian integer encoding and decoding over byte sequences.

use vstd::prelude::*;

verus! {

pub open spec fn le16(v: nat) -> Seq<u8> {
    seq![(v % 256) as u8, ((v / 256) % 256) as u8]
}

pub open spec fn le32(v: nat) -> Seq<u8> {
    seq![
        (v % 256) as u8,
        ((v / 256) % 256) as u8,
        ((v / 65536) % 256) as u8,
        ((v / 16777216) % 256) as u8,
    ]
}

pub open spec fn le64(v: nat) -> Seq<u8> {
    le32(v % 4294967296) + le32(v / 4294967296)
}

pub open spec fn read16(b: Seq<u8>, o: int) -> nat {
    (b[o] as nat) + 256 * (b[o + 1] as nat)
}

pub open spec fn read32(b: Seq<u8>, o: int) -> nat {
    read16(b, o) + 65536 * read16(b, o + 2)
}

pub open spec fn read64(b: Seq<u8>, o: int) -> nat {
    read32(b, o) + 4294967296 * read32(b, o + 4)
}

pub proof fn lemma_read16_le16(b: Seq<u8>, o: int, v: nat)
    requires
        0 <= o,
        o + 2 <= b.len(),
        b.subrange(o, o + 2) == le16(v),
        v < 65536,
    ensures
        read16(b, o) == v,
{
    assert(b[o] == b.subrange(o, o + 2)[0]);
    assert(b[o + 1] == b.subrange(o, o + 2)[1]);
    let x = v as u32;
    assert((x % 256) + 256 * ((x / 256) % 256) == x) by (bit_vector)
        requires x < 65536;
}

pub proof fn lemma_read32_le32(b: Seq<u8>, o: int, v: nat)
    requires
        0 <= o,
        o + 4 <= b.len(),
        b.subrange(o, o + 4) == le32(v),
        v < 4294967296,
    ensures
        read32(b, o) == v,
{
    let s = b.subrange(o, o + 4);
    assert(b[o] == s[0]);
    assert(b[o + 1] == s[1]);
    assert(b[o + 2] == s[2]);
    assert(b[o + 3] == s[3]);
    let x = v as u32;
    assert((x % 256) + 256 * ((x / 256) % 256) + 65536 * (((x / 65536) % 256) + 256 * ((x / 16777216) % 256)) == x) by (bit_vector);
}

pub proof fn lemma_read64_le64(b: Seq<u8>, o: int, v: nat)
    requires
        0 <= o,
        o + 8 <= b.len(),
        b.subrange(o, o + 8) == le64(v),
        v < 18446744073709551616,
    ensures
        read64(b, o) == v,
{
    let s = b.subrange(o, o + 8);
    assert(b.subrange(o, o + 4) =~= s.subrange(0, 4));
    assert(b.subrange(o + 4, o + 8) =~= s.subrange(4, 8));
    assert(s.subrange(0, 4) =~= le32(v % 4294967296));
    assert(s.subrange(4, 8) =~= le32(v / 4294967296));
    lemma_read32_le32(b, o, v % 4294967296);
    lemma_read32_le32(b, o + 4, v / 4294967296);
    assert(v == v % 4294967296 + 4294967296 * (v / 4294967296)) by (nonlinear_arith);
}

/// Reads are local: bytes outside the window do not matter.
pub proof fn lemma_read32_window(a: Seq<u8>, b: Seq<u8>, oa: int, ob: int)
    requires
        0 <= oa,
        oa + 4 <= a.len(),
        0 <= ob,
        ob + 4 <= b.len(),
        a.subrange(oa, oa + 4) == b.subrange(ob, ob + 4),
    ensures
        read32(a, oa) == read32(b, ob),
{
    assert(a[oa] == a.subrange(oa, oa + 4)[0]);
    assert(a[oa + 1] == a.subrange(oa, oa + 4)[1]);
    assert(a[oa + 2] == a.subrange(oa, oa + 4)[2]);
    assert(a[oa + 3] == a.subrange(oa, oa + 4)[3]);
    assert(b[ob] == b.subrange(ob, ob + 4)[0]);
    assert(b[ob + 1] == b.subrange(ob, ob + 4)[1]);
    assert(b[ob + 2] == b.subrange(ob, ob + 4)[2]);
    assert(b[ob + 3] == b.subrange(ob, ob + 4)[3]);
}

pub fn u16_at(bytes: &[u8], offset: usize) -> (r: u16)
    requires
        offset + 2 <= bytes@.len(),
    ensures
        r as nat == read16(bytes@, offset as int),
{
    bytes[offset] as u16 + (bytes[offset + 1] as u16) * 256
}

pub fn u32_at(bytes: &[u8], offset: usize) -> (r: u32)
    requires
        offset + 4 <= bytes@.len(),
    ensures
        r as nat == read32(bytes@, offset as int),
{
    let n = bytes.len();
    let low = u16_at(bytes, offset) as u32;
    let high = u16_at(bytes, offset + 2) as u32;
    low + high * 65536
}

pub fn u64_at(bytes: &[u8], offset: usize) -> (r: u64)
    requires
        offset + 8 <= bytes@.len(),
    ensures
        r as nat == read64(bytes@, offset as int),
{
    let n = bytes.len();
    let low = u32_at(bytes, offset) as u64;
    let high = u32_at(bytes, offset + 4) as u64;
    low + high * 4294967296
}

pub fn push_u16(out: &mut Vec<u8>, v: u16)
    ensures
        final(out)@ == old(out)@ + le16(v as nat),
{
    out.push((v % 256) as u8);
    out.push(((v / 256) % 256) as u8);
    assert(final(out)@ =~= old(out)@ + le16(v as nat));
}

pub fn push_u32(out: &mut Vec<u8>, v: u32)
    ensures
        final(out)@ == old(out)@ + le32(v as nat),
{
    out.push((v % 256) as u8);
    out.push(((v / 256) % 256) as u8);
    out.push(((v / 65536) % 256) as u8);
    out.push(((v / 16777216) % 256) as u8);
    assert(final(out)@ =~= old(out)@ + le32(v as nat));
}

pub fn push_u64(out: &mut Vec<u8>, v: u64)
    ensures
        final(out)@ == old(out)@ + le64(v as nat),
{
    push_u32(out, (v % 4294967296) as u32);
    push_u32(out, (v / 4294967296) as u32);
    assert(final(out)@ =~= old(out)@ + le64(v as nat));
}

pub fn push_bytes(out: &mut Vec<u8>, bytes: &[u8])
    ensures
        final(out)@ == old(out)@ + bytes@,
{
    let mut i: usize = 0;
    while i < bytes.len()
        invariant
            i <= bytes@.len(),
            out@ == old(out)@ + bytes@.subrange(0, i as int),
        decreases bytes@.len() - i,
    {
        out.push(bytes[i]);
        assert(old(out)@ + bytes@.subrange(0, i + 1) =~= (old(out)@ + bytes@.subrange(0, i as int)).push(bytes@[i as int]));
        i = i + 1;
    }
    assert(bytes@.subrange(0, bytes@.len() as int) =~= bytes@);
}

} // verus!
