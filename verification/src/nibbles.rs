use vstd::prelude::*;

verus! {

/// Number of bits by which cell `i` (row-major, `0` first) is shifted left
/// inside a packed board.
pub open spec fn shift_of(i: u64) -> u64 {
    (60 - 4 * i) as u64
}

/// The four-bit value stored for cell `i` of the packed board `d`.
pub open spec fn nibble(d: u64, i: u64) -> u64 {
    (d >> shift_of(i)) & 0xF
}

/// The packed board `d` with the contents of cells `i` and `j` exchanged.
pub open spec fn swap_nibbles(d: u64, i: u64, j: u64) -> u64 {
    let si = shift_of(i);
    let sj = shift_of(j);
    let bi = d & (0xFu64 << si);
    let bj = d & (0xFu64 << sj);
    (((d & !(0xFu64 << si)) & !(0xFu64 << sj)) | ((bi >> si) << sj)) | ((bj >> sj) << si)
}

/// The sixteen cells of a packed board, first cell first.
pub open spec fn unpack(d: u64) -> Seq<u8> {
    Seq::new(16, |i: int| nibble(d, i as u64) as u8)
}

pub proof fn lemma_nibble_bound(d: u64, i: u64)
    by (bit_vector)
    requires
        i < 16,
    ensures
        nibble(d, i) < 16,
{
}

pub proof fn lemma_or_into_empty(d: u64, i: u64, v: u64, j: u64)
    by (bit_vector)
    requires
        i < 16,
        j < 16,
        v < 16,
        nibble(d, i) == 0,
    ensures
        nibble(d | (v << shift_of(i)), j) == if i == j { v } else { nibble(d, j) },
{
}

pub proof fn lemma_swap_nibbles(d: u64, i: u64, j: u64, k: u64)
    by (bit_vector)
    requires
        i < 16,
        j < 16,
        k < 16,
    ensures
        nibble(swap_nibbles(d, i, j), k) == if k == i {
            nibble(d, j)
        } else if k == j {
            nibble(d, i)
        } else {
            nibble(d, k)
        },
{
}

pub proof fn lemma_nibbles_determine(a: u64, b: u64)
    by (bit_vector)
    requires
        nibble(a, 0) == nibble(b, 0),
        nibble(a, 1) == nibble(b, 1),
        nibble(a, 2) == nibble(b, 2),
        nibble(a, 3) == nibble(b, 3),
        nibble(a, 4) == nibble(b, 4),
        nibble(a, 5) == nibble(b, 5),
        nibble(a, 6) == nibble(b, 6),
        nibble(a, 7) == nibble(b, 7),
        nibble(a, 8) == nibble(b, 8),
        nibble(a, 9) == nibble(b, 9),
        nibble(a, 10) == nibble(b, 10),
        nibble(a, 11) == nibble(b, 11),
        nibble(a, 12) == nibble(b, 12),
        nibble(a, 13) == nibble(b, 13),
        nibble(a, 14) == nibble(b, 14),
        nibble(a, 15) == nibble(b, 15),
    ensures
        a == b,
{
}

} // verus!
