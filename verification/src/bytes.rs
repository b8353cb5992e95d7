//! Big-endian integers inside byte sequences.

use vstd::prelude::*;
use vstd::slice::*;

verus! {

/// The unsigned 16-bit big-endian integer at position `i`.
pub open spec fn be_u16(s: Seq<u8>, i: int) -> int {
    s[i] as int * 256 + s[i + 1] as int
}

/// The unsigned 32-bit big-endian integer at position `i`.
pub open spec fn be_u32(s: Seq<u8>, i: int) -> int {
    s[i] as int * 16777216 + s[i + 1] as int * 65536 + s[i + 2] as int * 256 + s[i + 3] as int
}

/// The four bytes that encode `v` in big-endian order.
pub open spec fn u32_bytes(v: u32) -> Seq<u8> {
    seq![
        (v / 16777216) as u8,
        ((v / 65536) % 256) as u8,
        ((v / 256) % 256) as u8,
        (v % 256) as u8,
    ]
}

/// The two bytes that encode `v` in big-endian order.
pub open spec fn u16_bytes(v: u16) -> Seq<u8> {
    seq![(v / 256) as u8, (v % 256) as u8]
}

/// Reads the 16-bit big-endian integer at position `i`.
pub fn read_u16(b: &[u8], i: usize) -> (r: u16)
    requires
        i + 2 <= b@.len(),
    ensures
        r as int == be_u16(b@, i as int),
{
    let hi: u16 = b[i] as u16;
    let lo: u16 = b[i + 1] as u16;
    hi * 256 + lo
}

/// Reads the 32-bit big-endian integer at position `i`.
pub fn read_u32(b: &[u8], i: usize) -> (r: u32)
    requires
        i + 4 <= b@.len(),
    ensures
        r as int == be_u32(b@, i as int),
{
    let b0: u32 = b[i] as u32;
    let b1: u32 = b[i + 1] as u32;
    let b2: u32 = b[i + 2] as u32;
    let b3: u32 = b[i + 3] as u32;
    b0 * 16777216 + b1 * 65536 + b2 * 256 + b3
}

/// Appends the big-endian encoding of `v`.
pub fn push_u16(out: &mut Vec<u8>, v: u16)
    ensures
        final(out)@ == old(out)@ + u16_bytes(v),
{
    out.push((v / 256) as u8);
    out.push((v % 256) as u8);
    assert(out@ =~= old(out)@ + u16_bytes(v));
}

/// Appends the big-endian encoding of `v`.
pub fn push_u32(out: &mut Vec<u8>, v: u32)
    ensures
        final(out)@ == old(out)@ + u32_bytes(v),
{
    out.push((v / 16777216) as u8);
    out.push(((v / 65536) % 256) as u8);
    out.push(((v / 256) % 256) as u8);
    out.push((v % 256) as u8);
    assert(out@ =~= old(out)@ + u32_bytes(v));
}

/// A 16-bit value read back from its own encoding is unchanged.
pub proof fn lemma_u16_round_trip(v: u16)
    ensures
        be_u16(u16_bytes(v), 0) == v as int,
{
}

/// A 32-bit value read back from its own encoding is unchanged.
pub proof fn lemma_u32_round_trip(v: u32)
    ensures
        be_u32(u32_bytes(v), 0) == v as int,
{
}

/// Two bytes re-encoded from the value they hold are unchanged.
pub proof fn lemma_u16_bytes_of_read(s: Seq<u8>, i: int)
    requires
        0 <= i,
        i + 2 <= s.len(),
    ensures
        u16_bytes(be_u16(s, i) as u16) =~= s.subrange(i, i + 2),
{
}

/// Four bytes re-encoded from the value they hold are unchanged.
pub proof fn lemma_u32_bytes_of_read(s: Seq<u8>, i: int)
    requires
        0 <= i,
        i + 4 <= s.len(),
    ensures
        u32_bytes(be_u32(s, i) as u32) =~= s.subrange(i, i + 4),
{
    let a = s[i] as int;
    let b = s[i + 1] as int;
    let c = s[i + 2] as int;
    let d = s[i + 3] as int;
    let v = a * 16777216 + b * 65536 + c * 256 + d;
    assert(v / 16777216 == a) by (nonlinear_arith)
        requires
            v == a * 16777216 + b * 65536 + c * 256 + d,
            0 <= a < 256,
            0 <= b < 256,
            0 <= c < 256,
            0 <= d < 256,
    ;
    assert((v / 65536) % 256 == b) by (nonlinear_arith)
        requires
            v == a * 16777216 + b * 65536 + c * 256 + d,
            0 <= a < 256,
            0 <= b < 256,
            0 <= c < 256,
            0 <= d < 256,
    ;
    assert((v / 256) % 256 == c) by (nonlinear_arith)
        requires
            v == a * 16777216 + b * 65536 + c * 256 + d,
            0 <= a < 256,
            0 <= b < 256,
            0 <= c < 256,
            0 <= d < 256,
    ;
    assert(v % 256 == d) by (nonlinear_arith)
        requires
            v == a * 16777216 + b * 65536 + c * 256 + d,
            0 <= a < 256,
            0 <= b < 256,
            0 <= c < 256,
            0 <= d < 256,
    ;
    assert(be_u32(s, i) == v);
}

/// A copy of the bytes from `start` up to `end`.
pub fn copy_range(b: &[u8], start: usize, end: usize) -> (r: Vec<u8>)
    requires
        start <= end <= b@.len(),
    ensures
        r@ == b@.subrange(start as int, end as int),
{
    slice_to_vec(slice_subrange(b, start, end))
}

/// Whether two byte strings hold the same bytes.
pub fn same_bytes(a: &[u8], b: &[u8]) -> (r: bool)
    ensures
        r == (a@ == b@),
{
    if a.len() != b.len() {
        return false;
    }
    let mut i: usize = 0;
    while i < a.len()
        invariant
            a@.len() == b@.len(),
            i <= a@.len(),
            forall|k: int| 0 <= k < i ==> a@[k] == b@[k],
        decreases a@.len() - i,
    {
        if a[i] != b[i] {
            return false;
        }
        i += 1;
    }
    assert(a@ =~= b@);
    true
}

} // verus!
