//! The salted comparison of two 8-byte windows of a buffer.

use vstd::prelude::*;

verus! {

/// The unsigned 64-bit value of the eight bytes at `i`, the first byte being
/// the most significant.
pub open spec fn be_word(s: Seq<u8>, i: int) -> int {
    s[i] as int * 0x0100_0000_0000_0000
        + s[i + 1] as int * 0x0001_0000_0000_0000
        + s[i + 2] as int * 0x0000_0100_0000_0000
        + s[i + 3] as int * 0x0000_0001_0000_0000
        + s[i + 4] as int * 0x0000_0000_0100_0000
        + s[i + 5] as int * 0x0000_0000_0001_0000
        + s[i + 6] as int * 0x0000_0000_0000_0100
        + s[i + 7] as int
}

/// The key that the scan compares at position `i`: the window's value mixed
/// with the salt.
pub open spec fn salted_key(s: Seq<u8>, i: int, salt: u64) -> u64 {
    (be_word(s, i) as u64) ^ salt
}

/// Reads the eight bytes at `i` as a value whose first byte is the most
/// significant one.
fn word_at(buf: &[u8], i: usize) -> (r: u64)
    requires
        i + 8 <= buf@.len(),
    ensures
        r as int == be_word(buf@, i as int),
{
    (buf[i] as u64) * 0x0100_0000_0000_0000
        + (buf[i + 1] as u64) * 0x0001_0000_0000_0000
        + (buf[i + 2] as u64) * 0x0000_0100_0000_0000
        + (buf[i + 3] as u64) * 0x0000_0001_0000_0000
        + (buf[i + 4] as u64) * 0x0000_0000_0100_0000
        + (buf[i + 5] as u64) * 0x0000_0000_0001_0000
        + (buf[i + 6] as u64) * 0x0000_0000_0000_0100
        + (buf[i + 7] as u64)
}

/// Whether the salted key at `first` is strictly greater than the one at
/// `second`.
pub fn swapped_salted_isgt(buf: &[u8], first: usize, second: usize, salt: u64) -> (r: bool)
    requires
        first + 8 <= buf@.len(),
        second + 8 <= buf@.len(),
    ensures
        r == (salted_key(buf@, first as int, salt) > salted_key(buf@, second as int, salt)),
{
    let compare_first = word_at(buf, first) ^ salt;
    let compare_second = word_at(buf, second) ^ salt;
    compare_first > compare_second
}

} // verus!
