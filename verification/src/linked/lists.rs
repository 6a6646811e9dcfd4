//! The free list and the bin heads as plain values, and what putting a
//! chunk on the list and taking one off do to them.
use crate::linked::bins::bin_index;
use crate::linked::chunk::lower_of;
use crate::linked::layout::{bin_at, in_use_at, lower_in_use_at, size_at};
use crate::linked::model::index_of;
use vstd::prelude::*;

verus! {

/// The free list with its bin heads.
pub struct Lists {
    /// The offsets of the free chunks in list order; the top chunk is
    /// last.
    pub fl: Seq<int>,
    /// The head of each of the 96 bins, 0 for an empty bin.
    pub heads: Seq<int>,
}

/// The heads of the bins of the space `s`. The first three bins serve no
/// size and count as empty.
pub open spec fn heads_of(s: Seq<u8>) -> Seq<int> {
    Seq::new(
        96,
        |b: int|
            if b < 3 {
                0
            } else {
                bin_at(s, b)
            },
    )
}

/// The bin of a chunk of `size` bytes: the bin of the user size it can
/// serve.
pub open spec fn bin_for(size: int) -> int {
    bin_index((size - 8) as nat) as int
}

/// The first bin at or after `b` that is not empty; the last bin if all
/// before it are.
pub open spec fn first_head(heads: Seq<int>, b: int) -> int
    decreases 96 - b,
{
    if b >= 95 {
        95
    } else if heads[b] != 0 {
        b
    } else {
        first_head(heads, b + 1)
    }
}

/// The position on the list `fl`, at or after `j`, of the first chunk
/// larger than `size`; the last position if there is none before it.
/// Sizes are those of the space `s`.
pub open spec fn larger_from(s: Seq<u8>, fl: Seq<int>, j: int, size: int) -> int
    decreases fl.len() - j,
{
    if j < 0 || j >= fl.len() - 1 {
        fl.len() - 1
    } else if size_at(s, fl[j]) > size {
        j
    } else {
        larger_from(s, fl, j + 1, size)
    }
}

/// Where a chunk of `size` bytes goes on the list: before the first larger
/// chunk, counted from the head of its bin or, where that bin is empty,
/// from the head of the next bin that is not.
pub open spec fn insert_pos(s: Seq<u8>, l: Lists, size: int) -> int {
    larger_from(s, l.fl, index_of(l.fl, start_of(l, size)), size)
}

/// The chunk from which the search for the insert position of a chunk of
/// `size` bytes starts: the head of its bin or, where that bin is empty,
/// the head of the next bin that is not.
pub open spec fn start_of(l: Lists, size: int) -> int {
    let b = bin_for(size);
    if l.heads[b] != 0 {
        l.heads[b]
    } else {
        l.heads[first_head(l.heads, b + 1)]
    }
}

/// The lists after the chunk at `c`, of `size` bytes, went on: it stands
/// at its insert position, and heads its bin if the bin was empty.
pub open spec fn listed(s: Seq<u8>, l: Lists, c: int, size: int) -> Lists {
    Lists {
        fl: l.fl.insert(insert_pos(s, l, size), c),
        heads: if l.heads[bin_for(size)] == 0 {
            l.heads.update(bin_for(size), c)
        } else {
            l.heads
        },
    }
}

/// The lists after the chunk at `c` came off: where it headed its bin, the
/// bin passes to its successor if that one is of the same size class and
/// is not the top chunk, and is emptied otherwise.
pub open spec fn unlisted(s: Seq<u8>, l: Lists, c: int) -> Lists {
    let k = index_of(l.fl, c);
    let b = bin_for(size_at(s, c));
    let next = l.fl[k + 1];
    let heir = if k + 1 < l.fl.len() - 1 && bin_for(size_at(s, next)) == b {
        next
    } else {
        0
    };
    Lists {
        fl: l.fl.remove(k),
        heads: if l.heads[b] == c {
            l.heads.update(b, heir)
        } else {
            l.heads
        },
    }
}

/// The lists after the chunk at `n` took the top chunk's place.
pub open spec fn retopped(l: Lists, n: int) -> Lists {
    Lists { fl: l.fl.update(l.fl.len() - 1, n), heads: l.heads.update(95, n) }
}

/// The search for a larger chunk depends on the sizes of the list members
/// only.
pub(crate) proof fn lemma_larger_same(s: Seq<u8>, t: Seq<u8>, fl: Seq<int>, j: int, size: int)
    requires
        same_sizes(s, t, fl),
    ensures
        larger_from(s, fl, j, size) == larger_from(t, fl, j, size),
    decreases fl.len() - j,
{
    if 0 <= j < fl.len() - 1 {
        lemma_larger_same(s, t, fl, j + 1, size);
    }
}

/// Putting a chunk on the list depends on the space only for the sizes of
/// the list members.
pub(crate) proof fn lemma_listed_same(s: Seq<u8>, t: Seq<u8>, l: Lists, c: int, size: int)
    requires
        same_sizes(s, t, l.fl),
    ensures
        listed(s, l, c, size) == listed(t, l, c, size),
{
    lemma_larger_same(s, t, l.fl, index_of(l.fl, start_of(l, size)), size);
}

/// The first bin that is not empty lies in range.
pub(crate) proof fn lemma_first_head(heads: Seq<int>, b: int)
    requires
        0 <= b,
    ensures
        b <= first_head(heads, b) || first_head(heads, b) == 95,
        first_head(heads, b) <= 95,
        first_head(heads, b) < 95 ==> heads[first_head(heads, b)] != 0,
        forall|x: int| b <= x < first_head(heads, b) ==> heads[x] == 0,
    decreases 96 - b,
{
    if b < 95 && heads[b] == 0 {
        lemma_first_head(heads, b + 1);
    }
}

/// The members of the list `fl`, the last one aside, have the same sizes
/// in `s` and `t`.
pub open spec fn same_sizes(s: Seq<u8>, t: Seq<u8>, fl: Seq<int>) -> bool {
    forall|i: int| 0 <= i < fl.len() - 1 ==> size_at(t, #[trigger] fl[i]) == size_at(s, fl[i])
}

/// Taking a chunk off the list depends on the space only for the size of
/// the chunk and of its successor.
pub(crate) proof fn lemma_unlisted_same(s: Seq<u8>, t: Seq<u8>, l: Lists, c: int)
    requires
        size_at(t, c) == size_at(s, c),
        same_sizes(s, t, l.fl),
        0 <= index_of(l.fl, c) < l.fl.len() - 1,
    ensures
        unlisted(s, l, c) == unlisted(t, l, c),
{
    let k = index_of(l.fl, c);
    if k + 1 < l.fl.len() - 1 {
        assert(size_at(t, l.fl[k + 1]) == size_at(s, l.fl[k + 1]));
    }
}

/// The lists after an allocation took the chunk at `c` and cut it down to
/// `z` bytes: the chunk came off, and what was cut off, if anything, went
/// on.
pub open spec fn lists_after_take(s: Seq<u8>, l: Lists, c: int, z: int) -> Lists {
    let rest = unlisted(s, l, c);
    if size_at(s, c) - z >= 32 {
        listed(s, rest, c + z, size_at(s, c) - z)
    } else {
        rest
    }
}

/// The chunks after the chunk at `c` was cut down to `z` bytes.
pub open spec fn chunks_after_take(s: Seq<u8>, cs: Seq<int>, c: int, z: int) -> Seq<int> {
    if size_at(s, c) - z >= 32 {
        cs.insert(index_of(cs, c) + 1, c + z)
    } else {
        cs
    }
}

/// Whether the chunk above the chunk at `c` is free and is not the top
/// chunk, so that the two merge when `c` is given back.
pub open spec fn free_above(s: Seq<u8>, c: int) -> bool {
    let h = c + size_at(s, c);
    !in_use_at(s, h) && h != s.len() - 32
}

/// Where the free chunk begins that the chunk at `c` becomes part of when
/// it is given back: at the lower neighbour if that one is free.
pub open spec fn released_start(s: Seq<u8>, c: int) -> int {
    if lower_in_use_at(s, c) {
        c
    } else {
        lower_of(s, c)
    }
}

/// The size of the free chunk that the chunk at `c` becomes part of when
/// it is given back.
pub open spec fn released_size(s: Seq<u8>, c: int) -> int {
    let h = c + size_at(s, c);
    (if free_above(s, c) {
        h + size_at(s, h)
    } else {
        h
    }) - released_start(s, c)
}

/// The lists after the chunk at `c` was given back: the free neighbours
/// it merged with came off, and the merged chunk went on.
pub open spec fn lists_after_release(s: Seq<u8>, l: Lists, c: int) -> Lists {
    let l1 = if lower_in_use_at(s, c) {
        l
    } else {
        unlisted(s, l, lower_of(s, c))
    };
    let l2 = if free_above(s, c) {
        unlisted(s, l1, c + size_at(s, c))
    } else {
        l1
    };
    listed(s, l2, released_start(s, c), released_size(s, c))
}

/// The chunks after the chunk at `c` was given back: it is no chunk of
/// its own where its lower neighbour was free, and neither is a free
/// higher neighbour other than the top chunk.
pub open spec fn chunks_after_release(s: Seq<u8>, cs: Seq<int>, c: int) -> Seq<int> {
    let cs1 = if lower_in_use_at(s, c) {
        cs
    } else {
        cs.remove(index_of(cs, c))
    };
    if free_above(s, c) {
        cs1.remove(index_of(cs1, c + size_at(s, c)))
    } else {
        cs1
    }
}

/// The lists after the chunk at `c` swallowed its free higher neighbour
/// and was cut down to `z` bytes.
pub open spec fn lists_after_resize(s: Seq<u8>, l: Lists, c: int, z: int) -> Lists {
    let h = c + size_at(s, c);
    let big = size_at(s, c) + size_at(s, h);
    let rest = unlisted(s, l, h);
    if big - z >= 32 {
        listed(s, rest, c + z, big - z)
    } else {
        rest
    }
}

/// The chunks after the chunk at `c` swallowed its higher neighbour and
/// was cut down to `z` bytes.
pub open spec fn chunks_after_resize(s: Seq<u8>, cs: Seq<int>, c: int, z: int) -> Seq<int> {
    let h = c + size_at(s, c);
    let big = size_at(s, c) + size_at(s, h);
    let cs1 = cs.remove(index_of(cs, h));
    if big - z >= 32 {
        cs1.insert(index_of(cs1, c) + 1, c + z)
    } else {
        cs1
    }
}

/// The lists after a space that grew from `old_len` bytes was taken into
/// service: a new top chunk closes the list, and the old top chunk,
/// merged with its lower neighbour if that one is free, went on. `s` are
/// the grown bytes.
pub open spec fn lists_after_adopt(s: Seq<u8>, l: Lists, old_len: int) -> Lists {
    let old_top = old_len - 32;
    let new_top = s.len() - 32;
    let l1 = retopped(l, new_top);
    if lower_in_use_at(s, old_top) {
        listed(s, l1, old_top, new_top - old_top)
    } else {
        listed(
            s,
            unlisted(s, l1, lower_of(s, old_top)),
            lower_of(s, old_top),
            new_top - lower_of(s, old_top),
        )
    }
}

/// The chunks after a space that grew from `old_len` bytes was taken into
/// service: the old top chunk is no chunk of its own where its lower
/// neighbour was free, and the new top chunk is the last.
pub open spec fn chunks_after_adopt(s: Seq<u8>, cs: Seq<int>, old_len: int) -> Seq<int> {
    let kept = if lower_in_use_at(s, old_len - 32) {
        cs
    } else {
        cs.drop_last()
    };
    kept.push(s.len() - 32)
}

} // verus!
