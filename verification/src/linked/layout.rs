//! How a chunk is laid out in the space: the meta word with its flag bits,
//! the free-list links, the footer tag, and the table of bin heads.
use crate::words::word_at;
use vstd::prelude::*;

verus! {

/// Byte offset of the first chunk: the bin table comes before it.
pub const START: usize = 768;

/// The sentinel kept in byte 0 of an initialised space.
pub const SENTINEL: u8 = 0x82;

/// The size stored in a meta word.
pub closed spec fn meta_size(w: u64) -> u64 {
    w & 0xffff_ffff_ffff_fff8u64
}

/// The IN_USE flag of a meta word.
pub closed spec fn meta_in_use(w: u64) -> bool {
    w & 1 != 0
}

/// The LOWER_IN_USE flag of a meta word.
pub closed spec fn meta_lower(w: u64) -> bool {
    w & 2 != 0
}

/// A meta word with its IN_USE flag replaced.
pub closed spec fn with_in_use(w: u64, b: bool) -> u64 {
    (w & 0xffff_ffff_ffff_fffeu64) | (if b {
        1u64
    } else {
        0u64
    })
}

/// A meta word with its LOWER_IN_USE flag replaced.
pub closed spec fn with_lower(w: u64, b: bool) -> u64 {
    (w & 0xffff_ffff_ffff_fffdu64) | (if b {
        2u64
    } else {
        0u64
    })
}

/// A meta word with its size replaced.
pub closed spec fn with_size(w: u64, size: u64) -> u64 {
    (w & 7) | size
}

/// The flag and size fields as bit operations on the word.
pub(crate) proof fn lemma_meta_bits(w: u64)
    ensures
        (w & 1 != 0) == meta_in_use(w),
        (w & 2 != 0) == meta_lower(w),
        (w & 0xffff_ffff_ffff_fff8) == meta_size(w),
{
}

/// The replacement functions as bit operations on the word.
pub(crate) proof fn lemma_with_bits(w: u64, flag: bool, size: u64)
    ensures
        with_lower(w, flag) == (w & 0xffff_ffff_ffff_fffd) | (if flag {
            2u64
        } else {
            0u64
        }),
        with_in_use(w, flag) == (w & 0xffff_ffff_ffff_fffe) | (if flag {
            1u64
        } else {
            0u64
        }),
        with_size(w, size) == (w & 7) | size,
{
}

/// The size field is a multiple of 8 no larger than the word.
pub(crate) proof fn lemma_meta_size(w: u64)
    ensures
        meta_size(w) % 8 == 0,
        meta_size(w) <= w,
        w % 8 == 0 ==> meta_size(w) == w && !meta_in_use(w) && !meta_lower(w),
{
    assert((w & 0xffff_ffff_ffff_fff8u64) % 8 == 0) by (bit_vector);
    assert((w & 0xffff_ffff_ffff_fff8u64) <= w) by (bit_vector);
    assert(w % 8 == 0 ==> (w & 0xffff_ffff_ffff_fff8u64) == w && w & 1 == 0 && w & 2 == 0)
        by (bit_vector);
}

/// Replacing the IN_USE flag changes nothing else.
pub(crate) proof fn lemma_with_in_use(w: u64, b: bool)
    ensures
        meta_in_use(with_in_use(w, b)) == b,
        meta_lower(with_in_use(w, b)) == meta_lower(w),
        meta_size(with_in_use(w, b)) == meta_size(w),
{
    let f = if b {
        1u64
    } else {
        0u64
    };
    let v = (w & 0xffff_ffff_ffff_fffeu64) | f;
    assert(f <= 1 ==> ((v & 1 != 0) == (f == 1) && (v & 2 != 0) == (w & 2 != 0) && (v
        & 0xffff_ffff_ffff_fff8u64) == (w & 0xffff_ffff_ffff_fff8u64))) by (bit_vector)
        requires
            v == (w & 0xffff_ffff_ffff_fffeu64) | f,
    ;
}

/// Replacing the LOWER_IN_USE flag changes nothing else.
pub(crate) proof fn lemma_with_lower(w: u64, b: bool)
    ensures
        meta_lower(with_lower(w, b)) == b,
        meta_in_use(with_lower(w, b)) == meta_in_use(w),
        meta_size(with_lower(w, b)) == meta_size(w),
{
    let f = if b {
        2u64
    } else {
        0u64
    };
    let v = (w & 0xffff_ffff_ffff_fffdu64) | f;
    assert((f == 0 || f == 2) ==> ((v & 2 != 0) == (f == 2) && (v & 1 != 0) == (w & 1 != 0) && (v
        & 0xffff_ffff_ffff_fff8u64) == (w & 0xffff_ffff_ffff_fff8u64))) by (bit_vector)
        requires
            v == (w & 0xffff_ffff_ffff_fffdu64) | f,
    ;
}

/// Replacing the size by a multiple of 8 keeps both flags.
pub(crate) proof fn lemma_with_size(w: u64, size: u64)
    requires
        size % 8 == 0,
    ensures
        meta_size(with_size(w, size)) == size,
        meta_in_use(with_size(w, size)) == meta_in_use(w),
        meta_lower(with_size(w, size)) == meta_lower(w),
{
    let v = (w & 7) | size;
    assert(size % 8 == 0 ==> ((v & 0xffff_ffff_ffff_fff8u64) == size && (v & 1 != 0) == (w & 1
        != 0) && (v & 2 != 0) == (w & 2 != 0))) by (bit_vector)
        requires
            v == (w & 7) | size,
    ;
}

/// The size of the chunk that starts at offset `c`.
pub open spec fn size_at(s: Seq<u8>, c: int) -> int {
    meta_size(word_at(s, c)) as int
}

/// Whether the chunk at offset `c` is handed out to a user.
pub open spec fn in_use_at(s: Seq<u8>, c: int) -> bool {
    meta_in_use(word_at(s, c))
}

/// Whether the chunk just below the one at offset `c` is in use.
pub open spec fn lower_in_use_at(s: Seq<u8>, c: int) -> bool {
    meta_lower(word_at(s, c))
}

/// The offset of the previous chunk in the free list (0 for none).
pub open spec fn prev_at(s: Seq<u8>, c: int) -> int {
    word_at(s, c + 8) as int
}

/// The offset of the next chunk in the free list (0 for none).
pub open spec fn next_at(s: Seq<u8>, c: int) -> int {
    word_at(s, c + 16) as int
}

/// Offset of the footer word of the chunk at `c`.
pub open spec fn footer_pos(s: Seq<u8>, c: int) -> int {
    c + size_at(s, c) - 8
}

/// The head of bin `b` (0 when the bin is empty).
pub open spec fn bin_at(s: Seq<u8>, b: int) -> int {
    word_at(s, 8 * b) as int
}

} // verus!
