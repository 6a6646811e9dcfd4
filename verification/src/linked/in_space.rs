//! The allocator's entry points on a space: setting one up, allocating,
//! giving back and resizing.
use crate::linked::bins::{META_SIZE, MIN_SIZE};
use crate::linked::chunk::{
    fits, lemma_user_addr, lower_of, owner, split_size, taken_size, user_addr,
};
use crate::linked::growth::lemma_regrown;
use crate::linked::layout::{footer_pos, in_use_at, lemma_meta_size, lower_in_use_at, size_at};
use crate::linked::lists::{
    chunks_after_adopt, chunks_after_release, chunks_after_resize, chunks_after_take,
    lists_after_adopt, lists_after_release, lists_after_resize, lists_after_take, released_size,
    released_start, unlisted, Lists,
};
use crate::linked::model::{
    carried, chunks, free_list, fresh_only, index_of, lemma_carried_trans, lemma_chunk_end,
    lemma_model, lemma_wf, live, model_of, next_start, payload_same, settled, shape, wf, Model,
};
use crate::linked::overlay::{lists, Overlay};
use crate::linked::reshape::lemma_payload_frame;
use crate::linked::service::{chosen, lemma_carried_weaken, may_absorb};
use crate::powers::{is_power_of_two, least_power_of_two};
use crate::space::{placed, resized, Space};
use crate::words::{same_outside, word_at};
use vstd::prelude::*;

verus! {

/// The address handed out for requests of size zero. It is never looked
/// up.
pub const DANGLING: usize = 1;

/// The free list and the bin heads of the well-formed space `s`.
pub open spec fn lists_of(s: Seq<u8>) -> Lists {
    lists(s, free_list(s))
}

/// `ptr` is the user address of an allocation of `size` bytes at alignment
/// `align` in the space `s` that starts at address `base`: the chunk that
/// owns it is in use, `ptr` is the lowest aligned address in it, and the
/// `size` bytes from `ptr` lie inside it.
pub open spec fn allocated(s: Seq<u8>, base: int, ptr: int, size: int, align: int) -> bool {
    let c = owner(s, base, ptr);
    &&& live(s, c)
    &&& ptr == user_addr(base, c, align)
    &&& fits(s, base, c, size, align)
}

/// The offset that stands for the chunk, or for no chunk at all.
pub open spec fn except(chunk: Option<int>) -> int {
    match chunk {
        Some(c) => c,
        None => -1,
    }
}

/// Every chunk in use in `s`, other than `gone`, is in use in `t` with the
/// same size and the same user bytes.
pub open spec fn survivors(s: Seq<u8>, t: Seq<u8>, gone: Option<int>) -> bool {
    carried(s, chunks(s), t, chunks(t), except(gone))
}

/// Every chunk in use in `t`, other than `new`, was in use in `s`.
pub open spec fn newcomers(s: Seq<u8>, t: Seq<u8>, new: Option<int>) -> bool {
    fresh_only(s, chunks(s), t, chunks(t), except(new))
}

/// What a successful allocation leaves behind: `ptr` is allocated in a
/// chunk that was not in use before, it is aligned and its bytes lie in
/// the space, and all earlier allocations are as they were.
pub open spec fn served(s: Seq<u8>, t: Seq<u8>, base: int, ptr: int, size: int,
    align: int) -> bool {
    &&& allocated(t, base, ptr, size, align)
    &&& ptr % align == 0
    &&& base <= ptr
    &&& ptr + size <= base + t.len()
    &&& !live(s, owner(t, base, ptr))
    &&& survivors(s, t, None)
    &&& newcomers(s, t, Some(owner(t, base, ptr)))
}

/// The `size` bytes at offset `offset` of the space `s` are held by a user:
/// they lie in the user bytes of a chunk in use.
pub open spec fn held(s: Seq<u8>, offset: int, size: int) -> bool {
    let c = owner(s, 0, offset);
    &&& live(s, c)
    &&& c + 8 <= offset
    &&& offset + size <= c + size_at(s, c)
}

/// Whether the allocation in chunk `c` can be resized to `size` bytes
/// without moving: the chunk is large enough, or becomes so by swallowing
/// its higher neighbour.
pub open spec fn stays(s: Seq<u8>, base: int, c: int, size: int, align: int) -> bool {
    fits(s, base, c, size, align) || (may_absorb(s, c, size) && user_addr(base, c, align) + size
        <= base + c + size_at(s, c) + size_at(s, c + size_at(s, c)))
}

/// What resizing in place leaves behind: the allocation is valid at its
/// new size in the same chunk, the bytes that fit both sizes are kept, and
/// all other allocations are as they were.
pub open spec fn resized_in_place(
    s: Seq<u8>,
    t: Seq<u8>,
    base: int,
    ptr: int,
    size: int,
    align: int,
    new_size: int,
) -> bool {
    let c = owner(s, base, ptr);
    &&& allocated(t, base, ptr, new_size, align)
    &&& owner(t, base, ptr) == c
    &&& fits(s, base, c, new_size, align) ==> t == s
    &&& !fits(s, base, c, new_size, align) ==> size_at(t, c) == taken_size(
        size_at(s, c) + size_at(s, c + size_at(s, c)),
        base,
        c,
        new_size,
        align,
    ) && lists_of(t) == lists_after_resize(
        s,
        lists_of(s),
        c,
        split_size(base, c, new_size, align),
    ) && chunks(t) == chunks_after_resize(s, chunks(s), c, split_size(base, c, new_size, align))
    &&& forall|k: int|
        0 <= k < size && k < new_size ==> #[trigger] t[ptr - base + k] == s[ptr - base + k]
    &&& survivors(s, t, Some(c))
    &&& newcomers(s, t, None)
}

/// What a resize that did not work in place leaves behind: the allocation
/// is valid as before, with the same bytes, and all other allocations are
/// as they were. Where the chunk and its free higher neighbour together
/// seemed large enough, the chunk has swallowed the neighbour; otherwise
/// nothing changed.
pub open spec fn kept_in_place(
    s: Seq<u8>,
    t: Seq<u8>,
    base: int,
    ptr: int,
    size: int,
    align: int,
    new_size: int,
) -> bool {
    let c = owner(s, base, ptr);
    let h = c + size_at(s, c);
    &&& allocated(t, base, ptr, size, align)
    &&& owner(t, base, ptr) == c
    &&& forall|k: int| 0 <= k < size ==> #[trigger] t[ptr - base + k] == s[ptr - base + k]
    &&& survivors(s, t, Some(c))
    &&& newcomers(s, t, None)
    &&& if may_absorb(s, c, new_size) {
        &&& size_at(t, c) == size_at(s, c) + size_at(s, h)
        &&& lists_of(t) == unlisted(s, lists_of(s), h)
        &&& chunks(t) == chunks(s).remove(index_of(chunks(s), h))
    } else {
        t == s
    }
}

/// What moving the `size` bytes held at `offset` in chunk `c` to a new
/// allocation leaves behind: the new allocation is valid, aligned and
/// inside the space, in a chunk that was not in use before; it holds the
/// bytes of the old one that fit; the old chunk is no longer in use; and
/// all other allocations are as they were.
pub open spec fn moved(
    s: Seq<u8>,
    t: Seq<u8>,
    base2: int,
    c: int,
    offset: int,
    new_ptr: int,
    size: int,
    align: int,
    new_size: int,
) -> bool {
    &&& served_part(t, base2, new_ptr, new_size, align)
    &&& forall|k: int|
        0 <= k < size && k < new_size ==> #[trigger] t[new_ptr - base2 + k] == s[offset + k]
    &&& !live(t, c)
    &&& !live(s, owner(t, base2, new_ptr))
    &&& survivors(s, t, Some(c))
    &&& newcomers(s, t, Some(owner(t, base2, new_ptr)))
}

/// What a failed move leaves behind: chunk `c` is still in use, no
/// smaller than before, and still owns `offset`; the `size` bytes at
/// `offset` are intact; and all other allocations are as they were.
pub open spec fn not_moved(s: Seq<u8>, t: Seq<u8>, c: int, offset: int, size: int) -> bool {
    &&& live(t, c)
    &&& owner(t, 0, offset) == c
    &&& size_at(t, c) >= size_at(s, c)
    &&& forall|k: int| 0 <= k < size ==> #[trigger] t[offset + k] == s[offset + k]
    &&& survivors(s, t, Some(c))
    &&& newcomers(s, t, None)
}

/// `ptr` is allocated, aligned, and its bytes lie in the space.
pub open spec fn served_part(t: Seq<u8>, base: int, ptr: int, size: int, align: int) -> bool {
    &&& allocated(t, base, ptr, size, align)
    &&& ptr % align == 0
    &&& base <= ptr
    &&& ptr + size <= base + t.len()
}

/// What an allocation of `size` bytes at alignment `align` in the space
/// as it is makes of `s`: nothing, with the null address, where the first
/// fitting chunk is the top chunk; otherwise `t`, in which that chunk is
/// cut to size and in use, with `ptr` the lowest aligned address in it.
pub open spec fn taken(s: Seq<u8>, t: Seq<u8>, base: int, size: int, align: int, ptr: int) -> bool {
    let c = chosen(s, free_list(s), base, size, align);
    let z = split_size(base, c, size, align);
    &&& wf(t)
    &&& t.len() == s.len()
    &&& if c == s.len() - 32 {
        ptr == 0 && t == s
    } else {
        &&& ptr == user_addr(base, c, align)
        &&& ptr != 0
        &&& owner(t, base, ptr) == c
        &&& size_at(t, c) == taken_size(size_at(s, c), base, c, size, align)
        &&& served(s, t, base, ptr, size, align)
        &&& lists_of(t) == lists_after_take(s, lists_of(s), c, z)
        &&& chunks(t) == chunks_after_take(s, chunks(s), c, z)
    }
}

/// What taking the grown bytes `s` into service leaves behind, where the
/// first `old_len` of them were a space before: the bytes from the old top
/// chunk on, or from its lower neighbour on if that one was free, are one
/// free chunk on the list, a new top chunk closes the list, and every
/// allocation is as it was.
pub open spec fn adopted(s: Seq<u8>, t: Seq<u8>, old_len: int) -> bool {
    let before = s.subrange(0, old_len);
    let start = if lower_in_use_at(s, old_len - 32) {
        old_len - 32
    } else {
        lower_of(s, old_len - 32)
    };
    &&& wf(t)
    &&& t.len() == s.len()
    &&& lists_of(t) == lists_after_adopt(s, lists_of(before), old_len)
    &&& chunks(t) == chunks_after_adopt(s, chunks(before), old_len)
    &&& !in_use_at(t, start)
    &&& size_at(t, start) == t.len() - 32 - start
    &&& survivors(before, t, None)
    &&& newcomers(before, t, None)
}

/// What a request makes of the space `s` when the space grew for it: the
/// space became as long as was asked, its length times the least power of
/// two above the number of times its length goes into the target; the old
/// bytes stayed, whatever the new ones were; the grown bytes were taken
/// into service; and the request was served in them as they then were.
#[verifier::opaque]
pub open spec fn served_grown(
    s: Seq<u8>,
    t: Seq<u8>,
    base: int,
    size: int,
    align: int,
    ptr: int,
) -> bool {
    &&& t.len() % s.len() == 0
    &&& least_power_of_two(
        t.len() as int / s.len() as int,
        grow_target(s.len() as int, size, align) / s.len() as int + 1,
    )
    &&& exists|grown: Seq<u8>, ready: Seq<u8>|
        resized(s, grown, t.len() as int) && #[trigger] adopted(grown, ready, s.len() as int)
            && taken(ready, t, base, size, align, ptr)
}

/// What giving back the chunk at `c` makes of the space `s`: the chunk
/// is no longer in use, it is one free chunk on the list together with the
/// free neighbours it merged with, and all other allocations are as they
/// were.
pub open spec fn released(s: Seq<u8>, t: Seq<u8>, c: int) -> bool {
    &&& !live(t, c)
    &&& survivors(s, t, Some(c))
    &&& newcomers(s, t, None)
    &&& lists_of(t) == lists_after_release(s, lists_of(s), c)
    &&& chunks(t) == chunks_after_release(s, chunks(s), c)
    &&& !in_use_at(t, released_start(s, c))
    &&& size_at(t, released_start(s, c)) == released_size(s, c)
}

/// What resizing the allocation at `ptr` from `size` to `new_size` bytes
/// makes of the space `s`, which starts at address `base`, where `t` is
/// the space afterwards, `base2` its address and `new_ptr` the result: the
/// allocation is resized in place where it can stay; otherwise it has
/// moved, or the result is the null address and it is valid as before.
/// Where its chunk had no neighbour to swallow and the space has a fitting
/// chunk, it has moved to the first of them and the space has not grown.
pub open spec fn reallocated(
    s: Seq<u8>,
    t: Seq<u8>,
    base: int,
    base2: int,
    ptr: int,
    size: int,
    align: int,
    new_size: int,
    new_ptr: int,
) -> bool {
    let c = owner(s, base, ptr);
    let d = chosen(s, free_list(s), base, new_size, align);
    &&& if stays(s, base, c, new_size, align) {
        &&& new_ptr == ptr
        &&& t.len() == s.len()
        &&& base2 == base
        &&& resized_in_place(s, t, base, ptr, size, align, new_size)
    } else if new_ptr != 0 {
        moved(s, t, base2, c, ptr - base, new_ptr, size, align, new_size)
    } else {
        &&& not_moved(s, t, c, ptr - base, size)
        &&& base2 == base ==> allocated(t, base, ptr, size, align)
    }
    &&& !stays(s, base, c, new_size, align) && !may_absorb(s, c, new_size) && d != s.len() - 32
        ==> new_ptr == user_addr(base, d, align) && new_ptr != 0 && t.len() == s.len() && base2
        == base
}

/// An exception that is not in use to begin with is no exception.
pub(crate) proof fn lemma_carried_all(s: Seq<u8>, m: Model, t: Seq<u8>, m2: Model, e: int, c: int)
    requires
        shape(s, m),
        carried(s, m.cs, t, m2.cs, e),
        !(m.cs.contains(e) && in_use_at(s, e)),
    ensures
        carried(s, m.cs, t, m2.cs, c),
{
}

/// An exception that is not in use in the end is no exception.
pub(crate) proof fn lemma_fresh_all(s: Seq<u8>, m: Model, t: Seq<u8>, m2: Model, e: int, c: int)
    requires
        fresh_only(s, m.cs, t, m2.cs, e),
        !(m2.cs.contains(e) && in_use_at(t, e)),
    ensures
        fresh_only(s, m.cs, t, m2.cs, c),
{
}

/// An allocation lies inside the space, at an aligned address above its
/// chunk's meta word.
pub proof fn lemma_allocated_bounds(s: Seq<u8>, base: int, ptr: int, size: int, align: int)
    requires
        wf(s),
        0 <= base,
        0 <= size,
        0 < align,
        allocated(s, base, ptr, size, align),
    ensures
        ptr % align == 0,
        768 <= owner(s, base, ptr),
        owner(s, base, ptr) % 8 == 0,
        base + owner(s, base, ptr) + 8 <= ptr,
        ptr + size <= base + owner(s, base, ptr) + size_at(s, owner(s, base, ptr)),
        owner(s, base, ptr) + size_at(s, owner(s, base, ptr)) <= s.len() - 32,
{
    lemma_wf(s);
    let m = model_of(s);
    let c = owner(s, base, ptr);
    let i = index_of(m.cs, c);
    lemma_chunk_end(s, m.cs, m.end, i);
    lemma_user_addr(base, c, align);
}

impl Overlay {
    /// The overlay for `space`.
    pub fn new<S: Space>(space: &S) -> (overlay: Overlay)
        ensures
            overlay.base == space.base_spec(),
            overlay.limit == space.view().len(),
    {
        Overlay { base: space.base(), limit: space.as_slice().len() }
    }

    /// Sets up the bytes `mem`, all `len` of them, as an empty space: one
    /// free chunk behind the bin table, the top chunk at the end, and the
    /// sentinel in byte 0.
    pub fn init(&self, mem: &mut [u8], len: usize)
        requires
            len == old(mem)@.len(),
            self.limit == len,
            len >= 768 + 64,
            len % 8 == 0,
        ensures
            final(mem)@.len() == len,
            wf(final(mem)@),
            chunks(final(mem)@) == seq![768int, len - 32],
            free_list(final(mem)@) == seq![768int, len - 32],
            size_at(final(mem)@, 768) == len - 800,
            final(mem)@[0] == 0x82,
            forall|c: int| !live(final(mem)@, c),
            forall|b: int|
                3 <= b < 96 ==> #[trigger] crate::linked::layout::bin_at(final(mem)@, b) == (if b
                    == 95 {
                    len - 32
                } else if b == crate::linked::bins::bin_index((len - 808) as nat) {
                    768
                } else {
                    0
                }),
    {
        let m = self.init_shape(mem, len);
        proof {
            lemma_model(mem@, m@);
            assert forall|c: int| !live(mem@, c) by {
                if live(mem@, c) {
                    let i = index_of(m@.cs, c);
                    assert(m@.cs[i] == c);
                }
            }
        }
    }

    /// Allocates `size` bytes at alignment `align` in `space` as it is,
    /// without asking it to grow: the first fitting chunk on the free
    /// list, counted from the head of the first non-empty bin for the
    /// size, comes off the list, is cut to size and marked as in use, and
    /// what was cut off goes back on the list. Returns 0, and changes
    /// nothing, where only the top chunk is left for the request.
    pub fn take<S: Space>(space: &mut S, size: usize, align: usize) -> (ptr: usize)
        requires
            wf(old(space).view()),
            placed(old(space).base_spec() as int, old(space).view().len() as int),
            is_power_of_two(align as int),
            0 < size,
        ensures
            final(space).base_spec() == old(space).base_spec(),
            taken(
                old(space).view(),
                final(space).view(),
                old(space).base_spec() as int,
                size as int,
                align as int,
                ptr as int,
            ),
    {
        let ghost s = space.view();
        let ghost m = model_of(s);
        let ghost base = space.base_spec() as int;
        proof {
            lemma_wf(s);
            lemma_model(s, m);
        }
        let overlay = Overlay::new(space);
        let mem = space.as_mut_slice();
        let (r, m1) = overlay.allocate(mem, size, align, Ghost(m));
        proof {
            lemma_model(mem@, m1@);
        }
        match r {
            Ok(ptr) => {
                proof {
                    let t = mem@;
                    let c = chosen(s, m.fl, base, size as int, align as int);
                    lemma_served(s, m, t, m1@, base, c, size as int, align as int);
                    lemma_user_addr(base, c, align as int);
                    let j = index_of(m.fl, c);
                    assert(m.fl[j] >= 768);
                }
                ptr
            },
            Err(_) => 0,
        }
    }

    /// Takes a space that grew from `old_len` bytes into service: a new
    /// top chunk goes to the end and closes the free list, and the bytes
    /// from the old top chunk up to it become a free chunk on the list,
    /// merged with the chunk below the old top chunk if that one is free.
    pub fn adopt<S: Space>(space: &mut S, old_len: usize)
        requires
            wf(old(space).view().subrange(0, old_len as int)),
            old_len + 32 <= old(space).view().len(),
            old(space).view().len() % 8 == 0,
        ensures
            final(space).base_spec() == old(space).base_spec(),
            adopted(old(space).view(), final(space).view(), old_len as int),
    {
        let ghost s = space.view();
        let ghost before = s.subrange(0, old_len as int);
        let ghost m = model_of(before);
        proof {
            lemma_wf(before);
            lemma_model(before, m);
        }
        let overlay = Overlay::new(space);
        let mem = space.as_mut_slice();
        proof {
            lemma_regrown(before, s, m);
        }
        let m2 = overlay.extend(mem, old_len, Ghost(m));
        proof {
            let t = mem@;
            lemma_model(t, m2@);
            lemma_carried_trans(before, m.cs, s, m.cs, t, m2@.cs, -1);
            assert(lists(s, m.fl) == lists(before, m.fl));
            // the free chunk at the end
            let i = m.cs.len() - 1;
            assert(m.cs[i] == old_len - 32);
            assert(lower_in_use_at(before, m.cs[i]) == in_use_at(before, m.cs[i - 1]));
            lemma_chunk_end(before, m.cs, m.end, i - 1);
            lemma_chunk_end(before, m.cs, m.end, i);
            assert(m.cs[i - 1 + 1] == next_start(before, m.cs, i - 1));
            if !in_use_at(before, m.cs[i - 1]) {
                assert(word_at(before, footer_pos(before, m.cs[i - 1])) == size_at(
                    before,
                    m.cs[i - 1],
                ));
            }
            let n2 = m2@.cs.len() - 1;
            assert(m2@.cs[n2] == t.len() - 32);
            lemma_chunk_end(t, m2@.cs, m2@.end, n2 - 1);
            assert(m2@.cs[n2 - 1 + 1] == next_start(t, m2@.cs, n2 - 1));
            assert(lower_in_use_at(s, old_len - 32) == lower_in_use_at(before, old_len - 32));
            assert(word_at(s, old_len - 32 - 8) == word_at(before, old_len - 32 - 8));
        }
    }

    /// Allocates `size` bytes at alignment `align` in `space`.
    ///
    /// A request of size zero gets the dangling address and changes
    /// nothing. Any other request is served as `take` serves it. Where
    /// only the top chunk is left for it, the space is asked to grow by
    /// what the request may need, and the request is tried once more in
    /// the grown space. Returns 0 where that fails too.
    pub fn alloc_in_space<S: Space>(space: &mut S, size: usize, align: usize) -> (ptr: usize)
        requires
            wf(old(space).view()),
            placed(old(space).base_spec() as int, old(space).view().len() as int),
            is_power_of_two(align as int),
        ensures
            wf(final(space).view()),
            placed(final(space).base_spec() as int, final(space).view().len() as int),
            size == 0 ==> ptr == DANGLING && final(space).view() == old(space).view()
                && final(space).base_spec() == old(space).base_spec(),
            size > 0 ==> ({
                let s = old(space).view();
                let t = final(space).view();
                let base = old(space).base_spec() as int;
                let c = chosen(s, free_list(s), base, size as int, align as int);
                let z = split_size(base, c, size as int, align as int);
                &&& t.len() >= s.len()
                &&& c != s.len() - 32 ==> {
                    &&& ptr == user_addr(base, c, align as int)
                    &&& ptr != 0
                    &&& t.len() == s.len()
                    &&& final(space).base_spec() == base
                    &&& owner(t, base, ptr as int) == c
                    &&& size_at(t, c)
                        == taken_size(size_at(s, c), base, c, size as int, align as int)
                    &&& lists_of(t) == lists_after_take(s, lists_of(s), c, z)
                    &&& chunks(t) == chunks_after_take(s, chunks(s), c, z)
                }
                &&& c == s.len() - 32 && grow_target(s.len() as int, size as int, align as int)
                    > usize::MAX ==> t.len() == s.len()
                &&& c == s.len() - 32 && t.len() == s.len() ==> ptr == 0 && t == s
                    && final(space).base_spec() == base
                &&& t.len() > s.len() ==> c == s.len() - 32 && served_grown(
                    s,
                    t,
                    final(space).base_spec() as int,
                    size as int,
                    align as int,
                    ptr as int,
                )
                &&& ptr != 0 ==> served(
                    s,
                    t,
                    final(space).base_spec() as int,
                    ptr as int,
                    size as int,
                    align as int,
                )
                &&& ptr == 0 ==> survivors(s, t, None) && newcomers(s, t, None)
            }),
    {
        if size == 0 {
            return DANGLING;
        }
        let ptr = Self::take(space, size, align);
        if ptr != 0 {
            ptr
        } else {
            Self::grow_and_retry(space, size, align)
        }
    }

    /// Allocates as `alloc_in_space` does, and sets the bytes of the
    /// allocation to zero.
    pub fn alloc_zeroed_in_space<S: Space>(space: &mut S, size: usize, align: usize) -> (ptr:
        usize)
        requires
            wf(old(space).view()),
            placed(old(space).base_spec() as int, old(space).view().len() as int),
            is_power_of_two(align as int),
        ensures
            wf(final(space).view()),
            placed(final(space).base_spec() as int, final(space).view().len() as int),
            size == 0 ==> ptr == DANGLING && final(space).view() == old(space).view()
                && final(space).base_spec() == old(space).base_spec(),
            size > 0 ==> ({
                let s = old(space).view();
                let t = final(space).view();
                let base = old(space).base_spec() as int;
                let base2 = final(space).base_spec() as int;
                let c = chosen(s, free_list(s), base, size as int, align as int);
                &&& t.len() >= s.len()
                &&& c != s.len() - 32 ==> ptr == user_addr(base, c, align as int) && ptr != 0
                    && t.len() == s.len() && base2 == base && owner(t, base, ptr as int) == c
                    && size_at(t, c) == taken_size(
                    size_at(s, c),
                    base,
                    c,
                    size as int,
                    align as int,
                )
                &&& ptr == 0 && t.len() == s.len() ==> t == s && base2 == base
                &&& ptr != 0 ==> served(s, t, base2, ptr as int, size as int, align as int)
                    && forall|k: int| 0 <= k < size ==> #[trigger] t[ptr - base2 + k] == 0
                &&& ptr == 0 ==> survivors(s, t, None) && newcomers(s, t, None)
            }),
    {
        let ghost s = space.view();
        let ptr = Self::alloc_in_space(space, size, align);
        if ptr != 0 && size != 0 {
            let ghost t1 = space.view();
            let ghost base2 = space.base_spec() as int;
            let ghost d = owner(t1, base2, ptr as int);
            proof {
                lemma_wf(s);
                lemma_allocated_bounds(t1, base2, ptr as int, size as int, align as int);
                assert(crate::linked::audit::lent_by(t1, d, ptr - base2, size as int));
            }
            Overlay::zero(space, ptr, size);
            proof {
                let t2 = space.view();
                let ms = model_of(s);
                lemma_model(s, ms);
                lemma_wf(t1);
                let m1 = model_of(t1);
                lemma_model(t1, m1);
                lemma_chunk_end(t1, m1.cs, m1.end, index_of(m1.cs, d));
                crate::linked::audit::lemma_write_lent(t1, t2, d, ptr - base2, size as int);
                lemma_owner_same(t1, t2, d, ptr - base2);
                assert(owner(t2, base2, ptr as int) == owner(t2, 0, ptr - base2));
                crate::linked::model::lemma_carried_refl(t2, m1.cs, -1);
                lemma_carry_chain(s, ms.cs, t1, m1.cs, t2, t2, m1.cs, -1, d);
                lemma_fresh_live(t1, m1.cs, t2, m1.cs, -1, d);
                lemma_fresh_trans(s, ms.cs, t1, m1.cs, t2, m1.cs, d);
            }
        }
        ptr
    }

    /// Asks `space`, in which only the top chunk is left for the request,
    /// to grow by what the request may need, takes the new bytes into
    /// service and tries the request once more. Returns 0 where the space
    /// does not grow or the request still finds no chunk. Whether the
    /// space grows is for the space to say; where it did, what is left
    /// behind is what `adopt` and then `take` make of the grown bytes.
    pub fn grow_and_retry<S: Space>(space: &mut S, size: usize, align: usize) -> (ptr: usize)
        requires
            wf(old(space).view()),
            placed(old(space).base_spec() as int, old(space).view().len() as int),
            is_power_of_two(align as int),
            0 < size,
        ensures
            wf(final(space).view()),
            placed(final(space).base_spec() as int, final(space).view().len() as int),
            ({
                let s = old(space).view();
                let t = final(space).view();
                &&& t.len() >= s.len()
                &&& grow_target(s.len() as int, size as int, align as int) > usize::MAX ==> t.len()
                    == s.len()
                &&& t.len() == s.len() ==> ptr == 0 && t == s
                    && final(space).base_spec() == old(space).base_spec()
                &&& t.len() > s.len() ==> served_grown(
                    s,
                    t,
                    final(space).base_spec() as int,
                    size as int,
                    align as int,
                    ptr as int,
                )
                &&& ptr != 0 ==> served(
                    s,
                    t,
                    final(space).base_spec() as int,
                    ptr as int,
                    size as int,
                    align as int,
                )
                &&& ptr == 0 ==> survivors(s, t, None) && newcomers(s, t, None)
            }),
    {
        let ghost s = space.view();
        let ghost m = model_of(s);
        proof {
            lemma_wf(s);
            lemma_model(s, m);
            crate::linked::model::lemma_carried_refl(s, m.cs, -1);
        }
        let len = space.as_slice().len();
        let want = match Self::grow_request(len, size, align) {
            Some(want) => want,
            None => {
                return 0;
            },
        };
        if !space.grow(want) {
            return 0;
        }
        let ghost s1 = space.view();
        proof {
            assert(s1.len() % 8 == 0) by (nonlinear_arith)
                requires
                    s1.len() % s.len() == 0,
                    s.len() % 8 == 0,
                    s.len() > 0,
            {
                let k = s1.len() / s.len();
                assert(s1.len() == k * s.len()) by {
                    vstd::arithmetic::div_mod::lemma_fundamental_div_mod(
                        s1.len() as int,
                        s.len() as int,
                    );
                }
                let j = s.len() / 8;
                assert(s.len() == 8 * j);
                assert(s1.len() == 8 * (k * j));
            }
            assert(s1.subrange(0, len as int) =~= s);
        }
        Self::adopt(space, len);
        let ghost s2 = space.view();
        let ghost base2 = space.base_spec() as int;
        let ptr = Self::take(space, size, align);
        proof {
            let t = space.view();
            assert(served_grown(s, t, base2, size as int, align as int, ptr as int)) by {
                reveal(served_grown);
                assert(adopted(s1, s2, s.len() as int));
            }
            lemma_wf(s2);
            let m2 = model_of(s2);
            lemma_model(s2, m2);
            lemma_wf(t);
            let m3 = model_of(t);
            lemma_model(t, m3);
            if ptr != 0 {
                let d = owner(t, base2, ptr as int);
                lemma_carry_trans(s, m.cs, s2, m2.cs, t, m3.cs, -1);
                lemma_fresh_live(s, m.cs, s2, m2.cs, -1, d);
                lemma_fresh_trans(s, m.cs, s2, m2.cs, t, m3.cs, d);
                assert(!live(s, d)) by {
                    if live(s, d) {
                        assert(m.cs.contains(d));
                        assert(live(s2, d));
                    }
                }
            }
        }
        ptr
    }

    /// Gives the allocation at `ptr` back: its chunk becomes free, merges
    /// with a free lower neighbour and with a free higher neighbour other
    /// than the top chunk, and goes on the free list. Giving back the
    /// dangling address of a request of size zero does nothing.
    pub fn dealloc_in_space<S: Space>(space: &mut S, ptr: usize, size: usize, align: usize)
        requires
            wf(old(space).view()),
            placed(old(space).base_spec() as int, old(space).view().len() as int),
            0 < align,
            size > 0 ==> allocated(
                old(space).view(),
                old(space).base_spec() as int,
                ptr as int,
                size as int,
                align as int,
            ),
        ensures
            wf(final(space).view()),
            final(space).view().len() == old(space).view().len(),
            final(space).base_spec() == old(space).base_spec(),
            size == 0 ==> final(space).view() == old(space).view(),
            size > 0 ==> released(
                old(space).view(),
                final(space).view(),
                owner(old(space).view(), old(space).base_spec() as int, ptr as int),
            ),
    {
        if size == 0 {
            return ;
        }
        let ghost s = space.view();
        let ghost m = model_of(s);
        let ghost base = space.base_spec() as int;
        let ghost c = owner(s, base, ptr as int);
        proof {
            lemma_wf(s);
            lemma_model(s, m);
            lemma_allocated_bounds(s, base, ptr as int, size as int, align as int);
        }
        let overlay = Overlay::new(space);
        let mem = space.as_mut_slice();
        let m2 = overlay.dealloc(mem, ptr, Ghost(m));
        proof {
            lemma_model(mem@, m2@);
            lemma_fresh_all(s, m, mem@, m2@, c, -1);
        }
    }

    /// Resizes the allocation at `ptr` from `size` to `new_size` bytes.
    ///
    /// The allocation stays where it is if its chunk is large enough, or
    /// becomes so by swallowing a free higher neighbour other than the top
    /// chunk. Otherwise a new allocation is made, the bytes that fit are
    /// copied over, and the old allocation is given back: where the chunk
    /// had no neighbour to swallow, the new allocation lies in the first
    /// fitting chunk of the space, if there is one. Returns 0, and leaves
    /// the old allocation valid, where no new allocation can be made.
    pub fn realloc_in_space<S: Space>(
        space: &mut S,
        ptr: usize,
        size: usize,
        align: usize,
        new_size: usize,
    ) -> (new_ptr: usize)
        requires
            wf(old(space).view()),
            placed(old(space).base_spec() as int, old(space).view().len() as int),
            is_power_of_two(align as int),
            0 < size,
            0 < new_size,
            allocated(
                old(space).view(),
                old(space).base_spec() as int,
                ptr as int,
                size as int,
                align as int,
            ),
        ensures
            wf(final(space).view()),
            placed(final(space).base_spec() as int, final(space).view().len() as int),
            reallocated(
                old(space).view(),
                final(space).view(),
                old(space).base_spec() as int,
                final(space).base_spec() as int,
                ptr as int,
                size as int,
                align as int,
                new_size as int,
                new_ptr as int,
            ),
    {
        let ghost s = space.view();
        let ghost base = space.base_spec() as int;
        let ghost c = owner(s, base, ptr as int);
        proof {
            lemma_wf(s);
            lemma_allocated_bounds(s, base, ptr as int, size as int, align as int);
        }
        if Self::resize_in_place(space, ptr, size, align, new_size) {
            return ptr;
        }
        let ghost s1 = space.view();
        proof {
            lemma_wf(s1);
            lemma_allocated_bounds(s1, base, ptr as int, size as int, align as int);
        }
        let base_now = space.base();
        let new_ptr = Self::relocate(space, ptr - base_now, size, align, new_size);
        proof {
            let t = space.view();
            let base2 = space.base_spec() as int;
            let m = model_of(s);
            lemma_model(s, m);
            let m1 = model_of(s1);
            lemma_model(s1, m1);
            lemma_wf(t);
            let mt = model_of(t);
            lemma_model(t, mt);
            if new_ptr == 0 {
                lemma_carried_weaken(s1, m1, t, mt, c);
            }
            lemma_carry_trans(s, m.cs, s1, m1.cs, t, mt.cs, c);
            if new_ptr != 0 {
                let d = owner(t, base2, new_ptr as int);
                lemma_fresh_live(s, m.cs, s1, m1.cs, -1, d);
                lemma_fresh_trans(s, m.cs, s1, m1.cs, t, mt.cs, d);
                assert(!live(s, d)) by {
                    if live(s, d) {
                        if d != c {
                            assert(m.cs.contains(d));
                        }
                    }
                }
            } else {
                lemma_fresh_trans(s, m.cs, s1, m1.cs, t, mt.cs, -1);
            }
        }
        new_ptr
    }

    /// Resizes the allocation at `ptr` from `size` to `new_size` bytes
    /// where that works without moving it: as it is where the chunk is
    /// large enough, or after the chunk swallowed a free higher neighbour
    /// other than the top chunk and was cut to size. Returns whether it
    /// worked. Where it did not, the allocation is as valid as before; its
    /// chunk has swallowed the neighbour where the two together seemed
    /// large enough and only the alignment stood in the way.
    pub fn resize_in_place<S: Space>(
        space: &mut S,
        ptr: usize,
        size: usize,
        align: usize,
        new_size: usize,
    ) -> (done: bool)
        requires
            wf(old(space).view()),
            placed(old(space).base_spec() as int, old(space).view().len() as int),
            is_power_of_two(align as int),
            0 < size,
            0 < new_size,
            allocated(
                old(space).view(),
                old(space).base_spec() as int,
                ptr as int,
                size as int,
                align as int,
            ),
        ensures
            wf(final(space).view()),
            final(space).view().len() == old(space).view().len(),
            final(space).base_spec() == old(space).base_spec(),
            ({
                let s = old(space).view();
                let t = final(space).view();
                let base = old(space).base_spec() as int;
                let c = owner(s, base, ptr as int);
                &&& done == stays(s, base, c, new_size as int, align as int)
                &&& done ==> resized_in_place(
                    s,
                    t,
                    base,
                    ptr as int,
                    size as int,
                    align as int,
                    new_size as int,
                )
                &&& !done ==> kept_in_place(
                    s,
                    t,
                    base,
                    ptr as int,
                    size as int,
                    align as int,
                    new_size as int,
                )
            }),
    {
        let ghost s = space.view();
        let ghost m = model_of(s);
        let ghost base = space.base_spec() as int;
        let ghost c = owner(s, base, ptr as int);
        proof {
            lemma_wf(s);
            lemma_model(s, m);
            lemma_allocated_bounds(s, base, ptr as int, size as int, align as int);
        }
        let overlay = Overlay::new(space);
        let mem = space.as_mut_slice();
        let (r, m1) = overlay.realloc(mem, ptr, align, new_size, Ghost(m));
        proof {
            let s1 = mem@;
            lemma_model(s1, m1@);
            let i = index_of(m1@.cs, c);
            lemma_chunk_end(s1, m1@.cs, m1@.end, i);
            lemma_fresh_live(s, m.cs, s1, m1@.cs, c, -1);
        }
        r.is_some()
    }

    /// Moves the `size` bytes held at offset `offset` of `space` to a new
    /// allocation of `new_size` bytes: allocates, copies the bytes that
    /// fit, and gives the old chunk back. The new allocation is made as
    /// `alloc_in_space` makes it: in the first fitting chunk of the space
    /// as it is, and only where there is none in a space that grew.
    /// Returns 0, and leaves everything held as it is, where the new
    /// allocation cannot be made.
    pub fn relocate<S: Space>(
        space: &mut S,
        offset: usize,
        size: usize,
        align: usize,
        new_size: usize,
    ) -> (new_ptr: usize)
        requires
            wf(old(space).view()),
            placed(old(space).base_spec() as int, old(space).view().len() as int),
            is_power_of_two(align as int),
            0 < size,
            0 < new_size,
            held(old(space).view(), offset as int, size as int),
        ensures
            wf(final(space).view()),
            placed(final(space).base_spec() as int, final(space).view().len() as int),
            ({
                let s = old(space).view();
                let t = final(space).view();
                let base = old(space).base_spec() as int;
                let d = chosen(s, free_list(s), base, new_size as int, align as int);
                &&& t.len() >= s.len()
                &&& d != s.len() - 32 ==> new_ptr == user_addr(base, d, align as int) && new_ptr
                    != 0 && t.len() == s.len()
                    && final(space).base_spec() == old(space).base_spec()
                &&& d == s.len() - 32 && grow_target(
                    s.len() as int,
                    new_size as int,
                    align as int,
                ) > usize::MAX ==> new_ptr == 0
            }),
            ({
                let s = old(space).view();
                let t = final(space).view();
                let c = owner(s, 0, offset as int);
                if new_ptr != 0 {
                    moved(
                        s,
                        t,
                        final(space).base_spec() as int,
                        c,
                        offset as int,
                        new_ptr as int,
                        size as int,
                        align as int,
                        new_size as int,
                    )
                } else {
                    &&& not_moved(s, t, c, offset as int, size as int)
                    &&& survivors(s, t, None)
                    &&& t.len() == s.len() ==> t == s && final(space).base_spec()
                        == old(space).base_spec()
                }
            }),
    {
        let ghost s = space.view();
        let ghost base = space.base_spec() as int;
        let ghost c = owner(s, 0, offset as int);
        let ghost ms = model_of(s);
        proof {
            lemma_wf(s);
            lemma_model(s, ms);
            lemma_chunk_end(s, ms.cs, ms.end, index_of(ms.cs, c));
        }
        let new_ptr = Self::alloc_in_space(space, new_size, align);
        let ghost t1 = space.view();
        let ghost base2 = space.base_spec() as int;
        let ghost m1 = model_of(t1);
        proof {
            lemma_wf(t1);
            lemma_model(t1, m1);
            lemma_held_kept(s, t1, offset as int, size as int);
            lemma_chunk_end(t1, m1.cs, m1.end, index_of(m1.cs, c));
        }
        if new_ptr == 0 {
            proof {
                lemma_carried_weaken(s, ms, t1, m1, c);
            }
            return 0;
        }
        let ghost d = owner(t1, base2, new_ptr as int);
        proof {
            lemma_allocated_bounds(t1, base2, new_ptr as int, new_size as int, align as int);
            lemma_chunk_end(t1, m1.cs, m1.end, index_of(m1.cs, d));
            if index_of(m1.cs, c) < index_of(m1.cs, d) {
                crate::linked::model::lemma_ordered(
                    t1,
                    m1.cs,
                    m1.end,
                    index_of(m1.cs, c),
                    index_of(m1.cs, d),
                );
            } else if index_of(m1.cs, d) < index_of(m1.cs, c) {
                crate::linked::model::lemma_ordered(
                    t1,
                    m1.cs,
                    m1.end,
                    index_of(m1.cs, d),
                    index_of(m1.cs, c),
                );
            }
        }
        let overlay = Overlay::new(space);
        let new_offset = new_ptr - overlay.base;
        let keep = if size < new_size {
            size
        } else {
            new_size
        };
        let mem = space.as_mut_slice();
        copy_bytes(mem, offset, new_offset, keep);
        let ghost t2 = mem@;
        proof {
            lemma_payload_frame(
                t1,
                t2,
                m1,
                index_of(m1.cs, d),
                new_offset as int,
                new_offset + keep,
            );
            lemma_owner_same(t1, t2, c, offset as int);
            lemma_owner_same(t1, t2, d, new_offset as int);
            assert(in_use_at(t2, c)) by {
                assert(word_at(t2, m1.cs[index_of(m1.cs, c)]) == word_at(
                    t1,
                    m1.cs[index_of(m1.cs, c)],
                ));
            }
        }
        let m3 = overlay.dealloc(mem, overlay.base + offset, Ghost(m1));
        proof {
            let t3 = mem@;
            lemma_model(t3, m3@);
            assert(m1.cs.contains(d) && in_use_at(t2, d) && d != c);
            assert(m3@.cs.contains(d) && in_use_at(t3, d) && size_at(t3, d) == size_at(t2, d)
                && payload_same(t2, t3, d));
            lemma_owner_same(t2, t3, d, new_offset as int);
            assert forall|k: int| 0 <= k < size && k < new_size
                implies #[trigger] t3[new_ptr - base2
                + k] == s[offset + k] by {
                assert(t3[new_offset + k] == t2[new_offset + k]);
                assert(t2[new_offset + k] == t1[offset + k]);
                assert(payload_same(s, t1, c));
                assert(t1[offset + k] == s[offset + k]);
            }
            lemma_carry_chain(s, ms.cs, t1, m1.cs, t2, t3, m3@.cs, c, d);
            assert(m1.cs.contains(c));
            lemma_fresh_live(t2, m1.cs, t3, m3@.cs, c, d);
            lemma_fresh_trans(t1, m1.cs, t2, m1.cs, t3, m3@.cs, d);
            lemma_fresh_trans(s, ms.cs, t1, m1.cs, t3, m3@.cs, d);
            lemma_user_addr(base2, d, align as int);
        }
        new_ptr
    }

    /// Gives the allocation at `ptr` back where `ptr` is the address of an
    /// allocation of `size` bytes at alignment `align`, and does nothing
    /// where it is not, or where `size` is zero. Returns whether it gave
    /// one back.
    pub fn try_dealloc<S: Space>(space: &mut S, ptr: usize, size: usize, align: usize) -> (done:
        bool)
        requires
            wf(old(space).view()),
            placed(old(space).base_spec() as int, old(space).view().len() as int),
            0 < align,
        ensures
            wf(final(space).view()),
            final(space).view().len() == old(space).view().len(),
            final(space).base_spec() == old(space).base_spec(),
            done == (size > 0 && allocated(
                old(space).view(),
                old(space).base_spec() as int,
                ptr as int,
                size as int,
                align as int,
            )),
            done ==> released(
                old(space).view(),
                final(space).view(),
                owner(old(space).view(), old(space).base_spec() as int, ptr as int),
            ),
            !done ==> final(space).view() == old(space).view(),
    {
        if size > 0 && Overlay::owns(space, ptr, size, align) {
            Self::dealloc_in_space(space, ptr, size, align);
            true
        } else {
            false
        }
    }

    /// Resizes the allocation at `ptr` as `realloc_in_space` does where
    /// `ptr` is the address of an allocation of `size` bytes at alignment
    /// `align` and neither size is zero. Returns 0, and does nothing, where
    /// that is not so.
    pub fn try_realloc<S: Space>(
        space: &mut S,
        ptr: usize,
        size: usize,
        align: usize,
        new_size: usize,
    ) -> (new_ptr: usize)
        requires
            wf(old(space).view()),
            placed(old(space).base_spec() as int, old(space).view().len() as int),
            is_power_of_two(align as int),
        ensures
            wf(final(space).view()),
            placed(final(space).base_spec() as int, final(space).view().len() as int),
            ({
                let s = old(space).view();
                let base = old(space).base_spec() as int;
                if size > 0 && new_size > 0 && allocated(
                    s,
                    base,
                    ptr as int,
                    size as int,
                    align as int,
                ) {
                    reallocated(
                        s,
                        final(space).view(),
                        base,
                        final(space).base_spec() as int,
                        ptr as int,
                        size as int,
                        align as int,
                        new_size as int,
                        new_ptr as int,
                    )
                } else {
                    &&& new_ptr == 0
                    &&& final(space).view() == s
                    &&& final(space).base_spec() == base
                }
            }),
    {
        if size > 0 && new_size > 0 && Overlay::owns(space, ptr, size, align) {
            Self::realloc_in_space(space, ptr, size, align, new_size)
        } else {
            0
        }
    }

    /// How long the space has to become to serve a request that found no
    /// chunk. `None` where that exceeds what a length can be.
    pub fn grow_request(len: usize, size: usize, align: usize) -> (want: Option<usize>)
        ensures
            want == (if grow_target(len as int, size as int, align as int) <= usize::MAX {
                Some(grow_target(len as int, size as int, align as int) as usize)
            } else {
                None
            }),
    {
        let sum = match size.checked_add(align) {
            Some(sum) => sum,
            None => {
                return None;
            },
        };
        let sum = match sum.checked_add(META_SIZE) {
            Some(sum) => sum,
            None => {
                return None;
            },
        };
        let extra = if sum < MIN_SIZE {
            MIN_SIZE
        } else {
            sum
        };
        len.checked_add(extra)
    }
}

/// The length a space of `len` bytes is asked to grow to for a request that
/// found no chunk: the request's size, alignment and meta word more, and
/// no less than a minimum chunk more.
pub open spec fn grow_target(len: int, size: int, align: int) -> int {
    if size + align + 8 < 32 {
        len + 32
    } else {
        len + size + align + 8
    }
}

/// What the shape-level result of an allocation means for the space.
pub(crate) proof fn lemma_served(
    s: Seq<u8>,
    m: Model,
    t: Seq<u8>,
    m2: Model,
    base: int,
    c: int,
    size: int,
    align: int,
)
    requires
        settled(s, m),
        settled(t, m2),
        s.len() == t.len(),
        0 <= base,
        0 < size,
        0 < align,
        m.fl.contains(c),
        m2.cs.contains(c),
        in_use_at(t, c),
        fits(t, base, c, size, align),
        owner(t, base, user_addr(base, c, align)) == c,
        carried(s, m.cs, t, m2.cs, c),
        fresh_only(s, m.cs, t, m2.cs, c),
    ensures
        served(s, t, base, user_addr(base, c, align), size, align),
{
    lemma_model(s, m);
    lemma_model(t, m2);
    let ptr = user_addr(base, c, align);
    lemma_user_addr(base, c, align);
    let i = index_of(m2.cs, c);
    lemma_chunk_end(t, m2.cs, m2.end, i);
    let j = index_of(m.fl, c);
    assert(!in_use_at(s, m.fl[j]));
    lemma_carried_all(s, m, t, m2, c, -1);
}

/// Copies `n` bytes inside `mem` from offset `src` to offset `dst`. The
/// two ranges do not overlap.
pub fn copy_bytes(mem: &mut [u8], src: usize, dst: usize, n: usize)
    requires
        src + n <= old(mem)@.len(),
        dst + n <= old(mem)@.len(),
        src + n <= dst || dst + n <= src,
    ensures
        same_outside(old(mem)@, final(mem)@, dst as int, dst + n),
        forall|k: int| 0 <= k < n ==> #[trigger] final(mem)@[dst + k] == old(mem)@[src + k],
{
    let ghost before = mem@;
    let len = mem.len();
    let mut k: usize = 0;
    while k < n
        invariant
            0 <= k <= n,
            len == before.len(),
            src + n <= len,
            dst + n <= len,
            src + n <= dst || dst + n <= src,
            mem@.len() == before.len(),
            forall|j: int| 0 <= j < before.len() && !(dst <= j < dst + k) ==> #[trigger] mem@[j]
                == before[j],
            forall|j: int| 0 <= j < k ==> #[trigger] mem@[dst + j] == before[src + j],
        decreases n - k,
    {
        let byte = mem[src + k];
        mem[dst + k] = byte;
        k = k + 1;
    }
}

/// Carrying composes.
pub(crate) proof fn lemma_carry_trans(
    s: Seq<u8>,
    cs: Seq<int>,
    t: Seq<u8>,
    cs2: Seq<int>,
    u: Seq<u8>,
    cs3: Seq<int>,
    e: int,
)
    requires
        carried(s, cs, t, cs2, e),
        carried(t, cs2, u, cs3, e),
    ensures
        carried(s, cs, u, cs3, e),
{
    assert forall|x: int| #[trigger] cs.contains(x) && in_use_at(s, x) && x != e
        implies cs3.contains(
        x,
    ) && in_use_at(u, x) && size_at(u, x) == size_at(s, x) && payload_same(s, u, x) by {
        assert(cs2.contains(x));
        assert(payload_same(s, t, x));
        assert(payload_same(t, u, x));
        assert forall|k: int| x + 8 <= k < x + size_at(s, x) implies #[trigger] u[k] == s[k] by {
            assert(t[k] == s[k]);
        }
    }
}

/// Being the only newcomer composes.
pub(crate) proof fn lemma_fresh_trans(
    s: Seq<u8>,
    cs: Seq<int>,
    t: Seq<u8>,
    cs2: Seq<int>,
    u: Seq<u8>,
    cs3: Seq<int>,
    e: int,
)
    requires
        fresh_only(s, cs, t, cs2, e),
        fresh_only(t, cs2, u, cs3, e),
    ensures
        fresh_only(s, cs, u, cs3, e),
{
    assert forall|x: int| #[trigger] cs3.contains(x) && in_use_at(u, x) && x != e
        implies cs.contains(
        x,
    ) && in_use_at(s, x) by {
        assert(cs2.contains(x));
    }
}

/// An exception that was in use before is no newcomer.
pub(crate) proof fn lemma_fresh_live(
    s: Seq<u8>,
    cs: Seq<int>,
    t: Seq<u8>,
    cs2: Seq<int>,
    e: int,
    c: int,
)
    requires
        fresh_only(s, cs, t, cs2, e),
        (cs.contains(e) && in_use_at(s, e)) || !(cs2.contains(e) && in_use_at(t, e)),
    ensures
        fresh_only(s, cs, t, cs2, c),
{
}

/// What is carried into a state, then past the filling of a chunk `d`
/// that was not in use to begin with, then past the release of `c`, is
/// carried all the way, `c` excepted.
pub(crate) proof fn lemma_carry_chain(
    s: Seq<u8>,
    cs: Seq<int>,
    t1: Seq<u8>,
    cs1: Seq<int>,
    t2: Seq<u8>,
    t3: Seq<u8>,
    cs3: Seq<int>,
    c: int,
    d: int,
)
    requires
        carried(s, cs, t1, cs1, -1),
        carried(t1, cs1, t2, cs1, d),
        carried(t2, cs1, t3, cs3, c),
        !(cs.contains(d) && in_use_at(s, d)),
        forall|x: int| cs.contains(x) ==> x != -1,
    ensures
        carried(s, cs, t3, cs3, c),
{
    assert forall|x: int| #[trigger] cs.contains(x) && in_use_at(s, x) && x != c
        implies cs3.contains(
        x,
    ) && in_use_at(t3, x) && size_at(t3, x) == size_at(s, x) && payload_same(s, t3, x) by {
        assert(cs1.contains(x));
        assert(payload_same(s, t1, x));
        assert(payload_same(t1, t2, x));
        assert(payload_same(t2, t3, x));
        assert forall|k: int| x + 8 <= k < x + size_at(s, x) implies #[trigger] t3[k] == s[k] by {
            assert(t1[k] == s[k]);
            assert(t2[k] == t1[k]);
        }
    }
}

/// The owner of an offset is the same in `t` as in `s` where the owning
/// chunk is in use in both and its user bytes below the offset are the
/// same.
pub(crate) proof fn lemma_owner_same(s: Seq<u8>, t: Seq<u8>, c: int, offset: int)
    requires
        owner(s, 0, offset) == c,
        0 <= c,
        c + 8 <= offset <= s.len(),
        offset <= t.len(),
        in_use_at(s, c),
        in_use_at(t, c),
        forall|k: int| c + 8 <= k < offset ==> #[trigger] t[k] == s[k],
    ensures
        owner(t, 0, offset) == c,
{
    let o = offset - 8;
    if o != c {
        lemma_meta_size(word_at(s, o));
        assert forall|k: int| o <= k < o + 8 implies s[k] == t[k] by {}
        crate::words::lemma_word_depends(s, t, o);
    }
}

/// Bytes that are held stay held, with the same contents, by whatever
/// keeps all chunks in use as they were.
pub(crate) proof fn lemma_held_kept(s: Seq<u8>, t: Seq<u8>, offset: int, size: int)
    requires
        wf(s),
        s.len() <= t.len(),
        0 <= size,
        held(s, offset, size),
        survivors(s, t, None),
    ensures
        held(t, offset, size),
        owner(t, 0, offset) == owner(s, 0, offset),
        size_at(t, owner(s, 0, offset)) == size_at(s, owner(s, 0, offset)),
        payload_same(s, t, owner(s, 0, offset)),
        forall|k: int| 0 <= k < size ==> #[trigger] t[offset + k] == s[offset + k],
{
    lemma_wf(s);
    let m = model_of(s);
    let c = owner(s, 0, offset);
    let i = index_of(m.cs, c);
    assert(m.cs[i] == c);
    lemma_chunk_end(s, m.cs, m.end, i);
    assert(chunks(s).contains(c));
    assert(payload_same(s, t, c));
    lemma_owner_same(s, t, c, offset);
    assert forall|k: int| 0 <= k < size implies #[trigger] t[offset + k] == s[offset + k] by {}
}

} // verus!
