//! The table checksum: a wrapping sum of big-endian 32-bit words, the last
//! word completed with zero bytes.

use vstd::prelude::*;

verus! {

/// The byte at `i`, or zero past the end.
pub open spec fn byte_or_zero(s: Seq<u8>, i: int) -> int {
    if 0 <= i < s.len() {
        s[i] as int
    } else {
        0
    }
}

/// The `k`-th big-endian word of `s`, the bytes past the end taken as zero.
pub open spec fn word_at(s: Seq<u8>, k: int) -> int {
    byte_or_zero(s, 4 * k) * 16777216 + byte_or_zero(s, 4 * k + 1) * 65536 + byte_or_zero(
        s,
        4 * k + 2,
    ) * 256 + byte_or_zero(s, 4 * k + 3)
}

/// The number of words that `s` occupies once padded to a multiple of four.
pub open spec fn word_count(s: Seq<u8>) -> nat {
    ((s.len() + 3) / 4) as nat
}

/// The sum of the first `n` words of `s`, modulo 2^32.
pub open spec fn word_sum(s: Seq<u8>, n: nat) -> int
    decreases n,
{
    if n == 0 {
        0
    } else {
        (word_sum(s, (n - 1) as nat) + word_at(s, n - 1)) % 0x1_0000_0000
    }
}

/// The checksum of a table: the sum of all words of its padded bytes.
pub open spec fn checksum_of(s: Seq<u8>) -> int {
    word_sum(s, word_count(s))
}

/// The sum of two checksums, modulo 2^32.
pub open spec fn wrapping_sum(a: int, b: int) -> int {
    (a + b) % 0x1_0000_0000
}

fn byte_at(b: &[u8], base: usize, d: usize) -> (r: u64)
    requires
        base <= b@.len(),
    ensures
        r as int == byte_or_zero(b@, base + d),
        r <= 255,
{
    if d < b.len() - base {
        b[base + d] as u64
    } else {
        0
    }
}

/// Computes the checksum of `b`.
pub fn table_checksum(b: &[u8]) -> (r: u32)
    ensures
        r as int == checksum_of(b@),
{
    let n: usize = b.len() / 4 + (if b.len() % 4 == 0 { 0 } else { 1 });
    let mut sum: u64 = 0;
    let mut k: usize = 0;
    while k < n
        invariant
            n as nat == word_count(b@),
            b@.len() <= usize::MAX,
            k <= n,
            sum as int == word_sum(b@, k as nat),
            sum < 0x1_0000_0000,
        decreases n - k,
    {
        let base: usize = 4 * k;
        let w: u64 = byte_at(b, base, 0) * 16777216 + byte_at(b, base, 1) * 65536 + byte_at(
            b,
            base,
            2,
        ) * 256 + byte_at(b, base, 3);
        sum = (sum + w) % 0x1_0000_0000;
        k += 1;
    }
    sum as u32
}

} // verus!
