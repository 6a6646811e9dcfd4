//! Serving requests on a space that is in shape: allocation, release and
//! resizing in place, each with the shape it leaves behind.
use crate::linked::bins::{bin_index, META_SIZE};
use crate::linked::chunk::{
    fits, lemma_gap_aligned, lemma_user_addr, lower_of, owner, split_size, taken_size, user_addr,
    Chunk,
};
use crate::linked::layout::{
    bin_at, footer_pos, in_use_at, lemma_meta_size, lower_in_use_at, next_at, size_at,
};
use crate::linked::lists::{
    chunks_after_release, chunks_after_resize, chunks_after_take, free_above, lemma_listed_same,
    lemma_unlisted_same, listed, lists_after_release, lists_after_resize, lists_after_take,
    released_size, released_start, same_sizes, unlisted,
};
use crate::linked::model::{
    both_free, carried, fresh_only, index_of, lemma_carried_refl, lemma_carried_trans,
    lemma_chunk_end, lemma_ordered, next_start, settled, shape, Model,
};
use crate::linked::overlay::{
    attached, detached, first_nonempty, lemma_list_sizes, lemma_same_flags, lemma_start_listed,
    lists, Overlay,
};
use crate::linked::reshape::{
    lemma_carried_free, lemma_index_unique, lemma_mark, lemma_merge, lemma_poke, lemma_split,
    marked, merged, splitted,
};
use crate::powers::is_power_of_two;
use crate::words::{store, word_at};
use vstd::prelude::*;

verus! {

/// The position on the list `fl`, at or after `k`, of the first chunk that
/// can serve the request; the last position if there is none before it.
pub open spec fn first_fit(s: Seq<u8>, fl: Seq<int>, base: int, k: int, size: int,
    align: int) -> int
    decreases fl.len() - k,
{
    if k >= fl.len() - 1 {
        fl.len() - 1
    } else if fits(s, base, fl[k], size, align) {
        k
    } else {
        first_fit(s, fl, base, k + 1, size, align)
    }
}

/// The chunk an allocation takes: the first fit on the list, counted from
/// the head of the first non-empty bin that can serve the size. The top
/// chunk stands for "none".
pub open spec fn chosen(s: Seq<u8>, fl: Seq<int>, base: int, size: int, align: int) -> int {
    let head = bin_at(s, first_nonempty(s, bin_index(size as nat) as int));
    fl[first_fit(s, fl, base, index_of(fl, head), size, align)]
}

/// The first `n` bytes of the chunk at `c`, meta word aside, are the same
/// in `s` and `t`.
pub open spec fn prefix_same(s: Seq<u8>, t: Seq<u8>, c: int, n: int) -> bool {
    forall|k: int| c + 8 <= k < c + n ==> #[trigger] t[k] == s[k]
}

/// Whether the chunk at `c`, which cannot hold `size` user bytes as it is,
/// may swallow its higher neighbour to try again: the neighbour is free,
/// is not the top chunk, and both together are large enough.
pub open spec fn may_absorb(s: Seq<u8>, c: int, size: int) -> bool {
    let h = c + size_at(s, c);
    &&& !in_use_at(s, h)
    &&& h != s.len() - 32
    &&& size_at(s, c) + size_at(s, h) >= size + 8
}

/// An allocation whose chunk is still in use, and whose bytes below the
/// user address are untouched, still belongs to that chunk.
pub(crate) proof fn lemma_owner_kept(s: Seq<u8>, t: Seq<u8>, base: int, ptr: int, n: int)
    requires
        s.len() == t.len(),
        0 <= owner(s, base, ptr),
        base + owner(s, base, ptr) + 8 <= ptr <= base + owner(s, base, ptr) + n,
        ptr - base <= s.len(),
        in_use_at(s, owner(s, base, ptr)),
        in_use_at(t, owner(s, base, ptr)),
        prefix_same(s, t, owner(s, base, ptr), n),
    ensures
        owner(t, base, ptr) == owner(s, base, ptr),
{
    let c = owner(s, base, ptr);
    let o = ptr - base - 8;
    if o != c {
        assert(!in_use_at(s, o));
        lemma_meta_size(word_at(s, o));
        assert forall|k: int| o <= k < o + 8 implies s[k] == t[k] by {}
        crate::words::lemma_word_depends(s, t, o);
    }
}

/// A weaker exception carries no less.
pub(crate) proof fn lemma_carried_weaken(
    s: Seq<u8>,
    m: Model,
    t: Seq<u8>,
    m2: Model,
    c: int,
)
    requires
        shape(s, m),
        shape(t, m2),
        carried(s, m.cs, t, m2.cs, -1),
        fresh_only(s, m.cs, t, m2.cs, -1),
    ensures
        carried(s, m.cs, t, m2.cs, c),
        fresh_only(s, m.cs, t, m2.cs, c),
{
    assert forall|x: int| #[trigger] m.cs.contains(x) implies x != -1 by {
        let j = index_of(m.cs, x);
        assert(m.cs[j] == x);
    }
    assert forall|x: int| #[trigger] m2.cs.contains(x) implies x != -1 by {
        let j = index_of(m2.cs, x);
        assert(m2.cs[j] == x);
    }
}

impl Overlay {
    /// Walks the free list from the head of the first non-empty bin that
    /// can serve `size` to the first chunk that fits, or to the top chunk.
    /// Returns the chunk and, unless it is the top chunk, the user address
    /// in it.
    pub(crate) fn search(&self, mem: &[u8], size: usize, align: usize,
        Ghost(m): Ghost<Model>) -> (r:
        (Chunk, Option<usize>))
        requires
            settled(mem@, m),
            self.limit == mem@.len(),
            self.base + mem@.len() <= usize::MAX,
            0 < align,
        ensures
            ({
                let c = chosen(mem@, m.fl, self.base as int, size as int, align as int);
                &&& m.fl.contains(c)
                &&& r.0 == (Chunk { data: c as usize, limit: self.limit })
                &&& c == m.top ==> r.1 is None
                &&& c != m.top ==> r.1 == Some(
                    user_addr(self.base as int, c, align as int) as usize,
                ) && fits(mem@, self.base as int, c, size as int, align as int) && user_addr(
                    self.base as int,
                    c,
                    align as int,
                ) <= self.base + c + size_at(mem@, c) <= usize::MAX
            }),
    {
        let ghost s = mem@;
        let ghost base = self.base as int;
        let ghost fl = m.fl;
        let ghost last = fl.len() - 1;
        proof {
            lemma_list_sizes(s, m);
        }
        let mut chunk = self.find_smallest(mem, size, Ghost(fl), Ghost(m.top));
        let ghost j0 = index_of(fl, chunk.data as int);
        let ghost mut j = j0;
        let mut user: Option<usize> = None;
        loop
            invariant_except_break
                user is None,
            invariant
                mem@ == s,
                settled(s, m),
                fl == m.fl,
                last == fl.len() - 1,
                crate::linked::model::list_sizes(s, fl),
                self.limit == s.len(),
                self.base + s.len() <= usize::MAX,
                0 < align,
                0 <= j0 <= j <= last,
                chunk.data == fl[j],
                chunk.limit == self.limit,
                first_fit(s, fl, base, j0, size as int, align as int) == first_fit(
                    s,
                    fl,
                    base,
                    j,
                    size as int,
                    align as int,
                ),
                base == self.base,
            ensures
                0 <= j <= last,
                chunk.data == fl[j],
                chunk.limit == self.limit,
                first_fit(s, fl, base, j0, size as int, align as int) == j,
                j < last ==> user == Some(user_addr(base, fl[j], align as int) as usize) && fits(
                    s,
                    base,
                    fl[j],
                    size as int,
                    align as int,
                ),
            decreases last - j,
        {
            assert(next_at(s, fl[j]) == (if j == fl.len() - 1 {
                0
            } else {
                fl[j + 1]
            }));
            proof {
                assert(m.cs.contains(fl[j]));
                lemma_chunk_end(s, m.cs, m.end, index_of(m.cs, fl[j]));
            }
            let found = chunk.get_user_data(mem, self.base, size, align);
            if found.is_some() {
                user = found;
                break ;
            }
            proof {
                if j < last {
                    assert(fl[j + 1] >= 768);
                }
            }
            match chunk.get_next(mem) {
                Some(next) => {
                    chunk = next;
                    proof {
                        j = j + 1;
                    }
                },
                None => {
                    break ;
                },
            }
        }
        assert(fl[j] == chunk.data);
        assert(next_at(s, fl[j]) == (if j == fl.len() - 1 {
            0
        } else {
            fl[j + 1]
        }));
        proof {
            if j < last {
                assert(fl[j + 1] >= 768);
                assert(crate::linked::model::apart(fl[j], fl[last]));
            }
        }
        assert(fl[last] == m.top);
        proof {
            assert(m.cs.contains(fl[j]));
            lemma_chunk_end(s, m.cs, m.end, index_of(m.cs, fl[j]));
        }
        if chunk.is_top(mem) {
            (chunk, None)
        } else {
            (chunk, user)
        }
    }

    /// Takes the fitting list member `chunk` off the list and cuts it to
    /// size; what is cut off goes back on the list.
    pub(crate) fn carve(
        &self,
        mem: &mut [u8],
        chunk: Chunk,
        size: usize,
        align: usize,
        Ghost(m): Ghost<Model>,
    ) -> (m3: Ghost<Model>)
        requires
            settled(old(mem)@, m),
            self.limit == old(mem)@.len(),
            self.base % 8 == 0,
            self.base + old(mem)@.len() <= usize::MAX,
            is_power_of_two(align as int),
            m.fl.contains(chunk.data as int),
            chunk.data != m.top,
            chunk.limit == self.limit,
            fits(old(mem)@, self.base as int, chunk.data as int, size as int, align as int),
        ensures
            final(mem)@.len() == old(mem)@.len(),
            final(mem)@[0] == old(mem)@[0],
            shape(final(mem)@, m3@),
            m3@.end == m.end,
            m3@.top == m.top,
            m3@.loose == set![chunk.data as int],
            lists(final(mem)@, m3@.fl) == lists_after_take(
                old(mem)@,
                lists(old(mem)@, m.fl),
                chunk.data as int,
                split_size(self.base as int, chunk.data as int, size as int, align as int),
            ),
            m3@.cs == chunks_after_take(
                old(mem)@,
                m.cs,
                chunk.data as int,
                split_size(self.base as int, chunk.data as int, size as int, align as int),
            ),
            !in_use_at(final(mem)@, chunk.data as int),
            fits(final(mem)@, self.base as int, chunk.data as int, size as int, align as int),
            size_at(final(mem)@, chunk.data as int) == taken_size(
                size_at(old(mem)@, chunk.data as int),
                self.base as int,
                chunk.data as int,
                size as int,
                align as int,
            ),
            carried(old(mem)@, m.cs, final(mem)@, m3@.cs, chunk.data as int),
            fresh_only(old(mem)@, m.cs, final(mem)@, m3@.cs, chunk.data as int),
    {
        let ghost s = mem@;
        let ghost base = self.base as int;
        let ghost cs = m.cs;
        let ghost c = chunk.data as int;
        let ghost i = index_of(cs, c);
        proof {
            let j = index_of(m.fl, c);
            assert(cs.contains(m.fl[j]));
            lemma_index_unique(s, cs, m.end, i);
            lemma_chunk_end(s, cs, m.end, i);
            assert(i < cs.len() - 1);
            assert(cs[i + 1] == next_start(s, cs, i));
            if i + 1 < cs.len() - 1 {
                if !in_use_at(s, cs[i + 1]) {
                    assert(both_free(s, cs, i));
                }
            }
        }
        self.detach(mem, chunk, Ghost(m));
        let ghost s1 = mem@;
        let ghost m1 = detached(m, c);
        proof {
            lemma_same_flags(s, s1, cs);
            lemma_carried_weaken(s, m, s1, m1, c);
            assert(m1.loose =~= set![c]);
        }
        let rest = chunk.split(mem, self.base, size, align);
        let ghost s2 = mem@;
        let ghost z = split_size(base, c, size as int, align as int);
        match rest {
            Some(remain) => {
                proof {
                    lemma_split(s1, m1, i, z);
                    let m2 = splitted(m1, i, z);
                    lemma_carried_trans(s, cs, s1, cs, s2, m2.cs, c);
                    assert(m2.cs[i + 1] == c + z);
                    assert(m2.cs[i] == c);
                    assert(m2.cs[i + 2] == cs[i + 1]);
                    lemma_index_unique(s2, m2.cs, m2.end, i + 1);
                    lemma_chunk_end(s2, m2.cs, m2.end, i + 1);
                }
                proof {
                    let m2 = splitted(m1, i, z);
                    let l1 = lists(s1, m1.fl);
                    assert(lists(s2, m2.fl) == l1);
                    assert forall|j: int| 0 <= j < l1.fl.len() implies size_at(
                        s,
                        #[trigger] l1.fl[j],
                    ) == size_at(s2, l1.fl[j]) by {
                        assert(m1.cs.contains(m1.fl[j]));
                        let b = index_of(m1.cs, m1.fl[j]);
                        assert(m1.cs[b] == m1.fl[j]);
                        assert(m1.fl.contains(m1.fl[j]));
                        assert(size_at(s2, m1.cs[b]) == size_at(s1, m1.cs[b]));
                    }
                    lemma_start_listed(s2, m2.fl, m2.top, size_at(s, c) - z);
                    lemma_listed_same(s2, s, l1, c + z, size_at(s, c) - z);
                }
                let k = self.attach(mem, remain, Ghost(splitted(m1, i, z)));
                proof {
                    let m2 = splitted(m1, i, z);
                    let m3 = attached(m2, c + z, k@);
                    lemma_carried_weaken(s2, m2, mem@, m3, c);
                    lemma_carried_trans(s, cs, s2, m2.cs, mem@, m2.cs, c);
                    lemma_same_flags(s2, mem@, m2.cs);
                    assert(m3.cs[i] == c);
                    assert(m3.loose =~= set![c]);
                }
                Ghost(attached(splitted(m1, i, z), c + z, k@))
            },
            None => Ghost(m1),
        }
    }

    /// Marks the loose chunk `chunk` as in use and, where the user address
    /// `ptr` lies above the first byte after the meta word, records the
    /// distance in the word below `ptr`.
    pub(crate) fn claim(
        &self,
        mem: &mut [u8],
        chunk: Chunk,
        ptr: usize,
        align: usize,
        Ghost(m): Ghost<Model>,
    ) -> (m2: Ghost<Model>)
        requires
            old(mem)@[0] == 0x82,
            shape(old(mem)@, m),
            m.end == old(mem)@.len(),
            m.top == old(mem)@.len() - 32,
            m.loose == set![chunk.data as int],
            self.limit == old(mem)@.len(),
            self.base % 8 == 0,
            self.base + old(mem)@.len() <= usize::MAX,
            is_power_of_two(align as int),
            chunk.data != m.top,
            chunk.limit == self.limit,
            !in_use_at(old(mem)@, chunk.data as int),
            ptr == user_addr(self.base as int, chunk.data as int, align as int),
            ptr <= self.base + chunk.data + size_at(old(mem)@, chunk.data as int),
        ensures
            final(mem)@.len() == old(mem)@.len(),
            settled(final(mem)@, m2@),
            m2@.cs == m.cs,
            lists(final(mem)@, m2@.fl) == lists(old(mem)@, m.fl),
            in_use_at(final(mem)@, chunk.data as int),
            size_at(final(mem)@, chunk.data as int) == size_at(old(mem)@, chunk.data as int),
            owner(final(mem)@, self.base as int, ptr as int) == chunk.data,
            carried(old(mem)@, m.cs, final(mem)@, m2@.cs, chunk.data as int),
            fresh_only(old(mem)@, m.cs, final(mem)@, m2@.cs, chunk.data as int),
    {
        let ghost s3 = mem@;
        let ghost base = self.base as int;
        let ghost c = chunk.data as int;
        let ghost i = index_of(m.cs, c);
        proof {
            assert(m.loose.contains(c));
            lemma_index_unique(s3, m.cs, m.end, i);
            lemma_chunk_end(s3, m.cs, m.end, i);
        }
        let whole = chunk.get_size(mem);
        chunk.set_in_use_and_size(mem, true, whole);
        let ghost s4 = mem@;
        let ghost m4 = marked(m, i, true);
        proof {
            lemma_mark(s3, m, i, true);
            assert(m4.loose =~= Set::<int>::empty());
            lemma_user_addr(base, c, align as int);
            lemma_gap_aligned(base, c, align as int);
        }
        let padding = ptr - self.base - 8 - chunk.data;
        if padding != 0 {
            store(mem, ptr - self.base - 8, padding as u64);
            proof {
                lemma_chunk_end(s4, m4.cs, m4.end, i);
                lemma_poke(s4, m4, i, ptr - self.base - 8, padding as u64);
                lemma_carried_trans(s3, m.cs, s4, m4.cs, mem@, m4.cs, c);
                lemma_meta_size(padding as u64);
                assert(word_at(mem@, m4.cs[i]) == word_at(s4, m4.cs[i]));
            }
        }
        Ghost(marked(m, i, true))
    }

    /// Takes the first fitting chunk off the list, cuts it to size, marks
    /// it as in use and returns the user address in it. Returns the top
    /// chunk where no chunk before it fits.
    pub(crate) fn allocate(&self, mem: &mut [u8], size: usize, align: usize,
        Ghost(m): Ghost<Model>) -> (r:
        (Result<usize, Chunk>, Ghost<Model>))
        requires
            settled(old(mem)@, m),
            self.limit == old(mem)@.len(),
            self.base % 8 == 0,
            self.base + old(mem)@.len() <= usize::MAX,
            is_power_of_two(align as int),
        ensures
            final(mem)@.len() == old(mem)@.len(),
            settled(final(mem)@, r.1@),
            ({
                let s = old(mem)@;
                let t = final(mem)@;
                let c = chosen(s, m.fl, self.base as int, size as int, align as int);
                &&& m.fl.contains(c)
                &&& c == m.top ==> r.0 == Err::<usize, Chunk>(
                    Chunk { data: c as usize, limit: self.limit },
                ) && t == s && r.1@ == m
                &&& c != m.top ==> {
                    &&& r.0 == Ok::<usize, Chunk>(
                        user_addr(self.base as int, c, align as int) as usize,
                    )
                    &&& fits(s, self.base as int, c, size as int, align as int)
                    &&& fits(t, self.base as int, c, size as int, align as int)
                    &&& size_at(t, c) == taken_size(
                        size_at(s, c),
                        self.base as int,
                        c,
                        size as int,
                        align as int,
                    )
                    &&& in_use_at(t, c)
                    &&& r.1@.cs.contains(c)
                    &&& owner(t, self.base as int, user_addr(self.base as int, c, align as int))
                        == c
                    &&& carried(s, m.cs, t, r.1@.cs, c)
                    &&& fresh_only(s, m.cs, t, r.1@.cs, c)
                    &&& lists(t, r.1@.fl) == lists_after_take(
                        s,
                        lists(s, m.fl),
                        c,
                        split_size(self.base as int, c, size as int, align as int),
                    )
                    &&& r.1@.cs == chunks_after_take(
                        s,
                        m.cs,
                        c,
                        split_size(self.base as int, c, size as int, align as int),
                    )
                }
            }),
    {
        let ghost s = mem@;
        let (chunk, user) = self.search(mem, size, align, Ghost(m));
        match user {
            None => (Err(chunk), Ghost(m)),
            Some(ptr) => {
                let m3 = self.carve(mem, chunk, size, align, Ghost(m));
                let ghost s3 = mem@;
                proof {
                    lemma_user_addr(self.base as int, chunk.data as int, align as int);
                }
                let m4 = self.claim(mem, chunk, ptr, align, m3);
                proof {
                    lemma_carried_trans(
                        s,
                        m.cs,
                        s3,
                        m3@.cs,
                        mem@,
                        m4@.cs,
                        chunk.data as int,
                    );
                    assert(m3@.loose.contains(chunk.data as int));
                    crate::linked::reshape::lemma_loose_chunk(s3, m3@, chunk.data as int);
                }
                (Ok(ptr), m4)
            },
        }
    }

    /// Marks the chunk `chunk`, which is in use, as free. Where its lower
    /// neighbour is free, that one is taken off the list and swallows the
    /// chunk. Returns the chunk that is now free and loose.
    pub(crate) fn release_lower(&self, mem: &mut [u8], chunk: Chunk, Ghost(m): Ghost<Model>) -> (r:
        (Chunk, Ghost<Model>))
        requires
            settled(old(mem)@, m),
            self.limit == old(mem)@.len(),
            chunk.limit == self.limit,
            m.cs.contains(chunk.data as int),
            in_use_at(old(mem)@, chunk.data as int),
        ensures
            final(mem)@.len() == old(mem)@.len(),
            final(mem)@[0] == old(mem)@[0],
            shape(final(mem)@, r.1@),
            r.1@.end == m.end,
            r.1@.top == m.top,
            r.1@.loose == set![r.0.data as int],
            r.0.limit == self.limit,
            r.0.data != r.1@.cs[r.1@.cs.len() - 1],
            !in_use_at(final(mem)@, r.0.data as int),
            !(r.1@.cs.contains(chunk.data as int) && in_use_at(final(mem)@, chunk.data as int)),
            r.0.data != chunk.data ==> !r.1@.cs.contains(chunk.data as int),
            r.0.data == released_start(old(mem)@, chunk.data as int),
            r.0.data + size_at(final(mem)@, r.0.data as int) == chunk.data + size_at(
                old(mem)@,
                chunk.data as int,
            ),
            lists(final(mem)@, r.1@.fl) == (if lower_in_use_at(old(mem)@, chunk.data as int) {
                lists(old(mem)@, m.fl)
            } else {
                unlisted(
                    old(mem)@,
                    lists(old(mem)@, m.fl),
                    lower_of(old(mem)@, chunk.data as int),
                )
            }),
            r.1@.cs == (if lower_in_use_at(old(mem)@, chunk.data as int) {
                m.cs
            } else {
                m.cs.remove(index_of(m.cs, chunk.data as int))
            }),
            same_sizes(old(mem)@, final(mem)@, r.1@.fl),
            forall|x: int|
                m.cs.contains(x) && x > chunk.data ==> size_at(final(mem)@, x) == size_at(
                    old(mem)@,
                    x,
                ) && in_use_at(final(mem)@, x) == in_use_at(old(mem)@, x),
            ({
                let a = index_of(r.1@.cs, r.0.data as int);
                a > 0 ==> in_use_at(final(mem)@, r.1@.cs[a - 1])
            }),
            carried(old(mem)@, m.cs, final(mem)@, r.1@.cs, chunk.data as int),
            fresh_only(old(mem)@, m.cs, final(mem)@, r.1@.cs, chunk.data as int),
    {
        let ghost s = mem@;
        let ghost cs = m.cs;
        let ghost c = chunk.data as int;
        let ghost i = index_of(cs, c);
        proof {
            lemma_index_unique(s, cs, m.end, i);
            lemma_chunk_end(s, cs, m.end, i);
            assert(!m.fl.contains(c)) by {
                if m.fl.contains(c) {
                    let j = index_of(m.fl, c);
                    assert(!in_use_at(s, m.fl[j]));
                }
            }
            if i > 0 {
                lemma_chunk_end(s, cs, m.end, i - 1);
                assert(cs[i - 1 + 1] == next_start(s, cs, i - 1));
                assert(lower_in_use_at(s, cs[i]) == in_use_at(s, cs[i - 1]));
                if !in_use_at(s, cs[i - 1]) {
                    assert(word_at(s, footer_pos(s, cs[i - 1])) == size_at(s, cs[i - 1]));
                    assert(m.fl.contains(cs[i - 1]));
                    lemma_index_unique(s, cs, m.end, i - 1);
                    if i > 1 {
                        if !in_use_at(s, cs[i - 2]) {
                            assert(both_free(s, cs, i - 2));
                        }
                    }
                }
            }
        }
        let lower = chunk.get_free_lower_chunk(mem);
        let size = chunk.get_size(mem);
        match lower {
            Some(free_lower) => {
                self.detach(mem, free_lower, Ghost(m));
                let ghost s1 = mem@;
                let ghost m1 = detached(m, cs[i - 1]);
                proof {
                    lemma_same_flags(s, s1, cs);
                    lemma_carried_weaken(s, m, s1, m1, c);
                    assert(m1.loose =~= set![cs[i - 1]]);
                    assert(m1.loose.contains(cs[i - 1]));
                }
                chunk.set_in_use_and_size(mem, false, size);
                let ghost s2 = mem@;
                let ghost m2 = marked(m1, i, false);
                proof {
                    lemma_mark(s1, m1, i, false);
                    lemma_carried_trans(s, cs, s1, cs, s2, cs, c);
                    assert(m2.loose.contains(cs[i - 1]));
                    assert(m2.loose.contains(c));
                    lemma_chunk_end(s2, cs, m.end, i);
                    lemma_chunk_end(s2, cs, m.end, i - 1);
                }
                free_lower.coalesce(mem, chunk);
                let ghost s3 = mem@;
                let ghost m3 = merged(m2, i - 1);
                proof {
                    lemma_merge(s2, m2, i - 1);
                    lemma_carried_free(s2, cs, s3, m3.cs, cs[i - 1], c);
                    lemma_carried_trans(s, cs, s2, cs, s3, m3.cs, c);
                    assert(m3.loose =~= set![cs[i - 1]]);
                    assert(m3.cs[i - 1] == cs[i - 1]);
                    lemma_index_unique(s3, m3.cs, m3.end, i - 1);
                    if i > 1 {
                        assert(m3.cs[i - 2] == cs[i - 2]);
                    }
                    assert(m3.cs =~= cs.remove(i));
                    assert forall|j: int| 0 <= j < m3.fl.len() implies size_at(
                        s3,
                        #[trigger] m3.fl[j],
                    ) == size_at(s, m3.fl[j]) by {
                        assert(m1.cs.contains(m1.fl[j]));
                        let b = index_of(cs, m1.fl[j]);
                        assert(cs[b] == m1.fl[j]);
                        assert(m1.fl.contains(m1.fl[j]));
                        assert(m2.loose.contains(cs[i - 1]) && m2.loose.contains(cs[i]));
                        assert(size_at(s2, cs[b]) == size_at(s1, cs[b]));
                        assert(size_at(s3, cs[b]) == size_at(s2, cs[b]));
                    }
                    assert forall|x: int| cs.contains(x) && x > c implies size_at(s3, x)
                        == size_at(s, x) && in_use_at(s3, x) == in_use_at(s, x) by {
                        let b = index_of(cs, x);
                        assert(cs[b] == x);
                        lemma_index_unique(s, cs, m.end, b);
                        if b <= i {
                            if b < i {
                                lemma_ordered(s, cs, m.end, b, i);
                            }
                        }
                        assert(size_at(s2, cs[b]) == size_at(s1, cs[b]));
                        assert(size_at(s3, cs[b]) == size_at(s2, cs[b]));
                    }
                }
                (free_lower, Ghost(merged(marked(detached(m, cs[i - 1]), i, false), i - 1)))
            },
            None => {
                chunk.set_in_use_and_size(mem, false, size);
                proof {
                    lemma_mark(s, m, i, false);
                    let m2 = marked(m, i, false);
                    assert(m2.loose =~= set![c]);
                    assert forall|j: int| 0 <= j < m2.fl.len() implies size_at(
                        mem@,
                        #[trigger] m2.fl[j],
                    ) == size_at(s, m2.fl[j]) by {
                        assert(cs.contains(m.fl[j]));
                        let b = index_of(cs, m.fl[j]);
                        assert(cs[b] == m.fl[j]);
                    }
                    assert forall|x: int| cs.contains(x) && x > c implies size_at(mem@, x)
                        == size_at(s, x) && in_use_at(mem@, x) == in_use_at(s, x) by {
                        let b = index_of(cs, x);
                        assert(cs[b] == x);
                    }
                }
                (chunk, Ghost(marked(m, i, false)))
            },
        }
    }

    /// Lets the loose free chunk `chunk` swallow its higher neighbour,
    /// unless that one is in use or is the top chunk.
    pub(crate) fn release_higher(&self, mem: &mut [u8], chunk: Chunk,
        Ghost(m): Ghost<Model>) -> (m2:
        Ghost<Model>)
        requires
            old(mem)@[0] == 0x82,
            shape(old(mem)@, m),
            m.end == old(mem)@.len(),
            m.top == old(mem)@.len() - 32,
            m.loose == set![chunk.data as int],
            self.limit == old(mem)@.len(),
            chunk.limit == self.limit,
            chunk.data != m.cs[m.cs.len() - 1],
            !in_use_at(old(mem)@, chunk.data as int),
            ({
                let a = index_of(m.cs, chunk.data as int);
                a > 0 ==> in_use_at(old(mem)@, m.cs[a - 1])
            }),
        ensures
            final(mem)@.len() == old(mem)@.len(),
            final(mem)@[0] == old(mem)@[0],
            shape(final(mem)@, m2@),
            m2@.end == m.end,
            m2@.top == m.top,
            m2@.loose == set![chunk.data as int],
            chunk.data != m2@.cs[m2@.cs.len() - 1],
            !in_use_at(final(mem)@, chunk.data as int),
            ({
                let a = index_of(m2@.cs, chunk.data as int);
                &&& a > 0 ==> in_use_at(final(mem)@, m2@.cs[a - 1])
                &&& a + 1 < m2@.cs.len() - 1 ==> in_use_at(final(mem)@, m2@.cs[a + 1])
            }),
            forall|x: int| m2@.cs.contains(x) ==> m.cs.contains(x),
            carried(old(mem)@, m.cs, final(mem)@, m2@.cs, chunk.data as int),
            fresh_only(old(mem)@, m.cs, final(mem)@, m2@.cs, chunk.data as int),
            lists(final(mem)@, m2@.fl) == (if free_above(old(mem)@, chunk.data as int) {
                unlisted(
                    old(mem)@,
                    lists(old(mem)@, m.fl),
                    chunk.data + size_at(old(mem)@, chunk.data as int),
                )
            } else {
                lists(old(mem)@, m.fl)
            }),
            m2@.cs == (if free_above(old(mem)@, chunk.data as int) {
                m.cs.remove(
                    index_of(m.cs, chunk.data + size_at(old(mem)@, chunk.data as int)),
                )
            } else {
                m.cs
            }),
            size_at(final(mem)@, chunk.data as int) == (if free_above(
                old(mem)@,
                chunk.data as int,
            ) {
                size_at(old(mem)@, chunk.data as int) + size_at(
                    old(mem)@,
                    chunk.data + size_at(old(mem)@, chunk.data as int),
                )
            } else {
                size_at(old(mem)@, chunk.data as int)
            }),
            same_sizes(old(mem)@, final(mem)@, m2@.fl),
    {
        let ghost s = mem@;
        let ghost cs = m.cs;
        let ghost c = chunk.data as int;
        let ghost a = index_of(cs, c);
        proof {
            assert(m.loose.contains(c));
            lemma_index_unique(s, cs, m.end, a);
            lemma_chunk_end(s, cs, m.end, a);
            lemma_chunk_end(s, cs, m.end, a + 1);
            assert(cs[a + 1] == next_start(s, cs, a));
            lemma_index_unique(s, cs, m.end, a + 1);
            lemma_carried_refl(s, cs, c);
            lemma_list_sizes(s, m);
            if !in_use_at(s, cs[a + 1]) {
                assert(m.fl.contains(cs[a + 1]) || m.loose.contains(cs[a + 1]));
                let j = index_of(m.fl, cs[a + 1]);
                assert(next_at(s, m.fl[j]) == (if j == m.fl.len() - 1 {
                    0
                } else {
                    m.fl[j + 1]
                }));
                if j < m.fl.len() - 1 {
                    assert(m.fl[j + 1] >= 768);
                    assert(crate::linked::model::apart(m.fl[j], m.fl[m.fl.len() - 1]));
                }
                if a + 2 < cs.len() - 1 {
                    if !in_use_at(s, cs[a + 2]) {
                        assert(both_free(s, cs, a + 1));
                        lemma_index_unique(s, cs, m.end, a + 2);
                    }
                }
            }
        }
        let higher = chunk.get_free_higher_chunk(mem);
        match higher {
            Some(free_higher) => {
                if !free_higher.is_top(mem) {
                    self.detach(mem, free_higher, Ghost(m));
                    let ghost s1 = mem@;
                    let ghost m1 = detached(m, cs[a + 1]);
                    proof {
                        lemma_same_flags(s, s1, cs);
                        lemma_carried_weaken(s, m, s1, m1, c);
                        assert(m1.loose.contains(c));
                        assert(m1.loose.contains(cs[a + 1]));
                        lemma_chunk_end(s1, cs, m.end, a);
                        lemma_chunk_end(s1, cs, m.end, a + 1);
                    }
                    chunk.coalesce(mem, free_higher);
                    proof {
                        let s2 = mem@;
                        let m2 = merged(m1, a);
                        lemma_merge(s1, m1, a);
                        lemma_carried_trans(s, cs, s1, cs, s2, m2.cs, c);
                        assert(m2.loose =~= set![c]);
                        assert(m2.cs[a] == c);
                        lemma_index_unique(s2, m2.cs, m2.end, a);
                        if a > 0 {
                            assert(m2.cs[a - 1] == cs[a - 1]);
                        }
                        if a + 1 < m2.cs.len() - 1 {
                            assert(m2.cs[a + 1] == cs[a + 2]);
                        }
                        assert forall|x: int| m2.cs.contains(x) implies cs.contains(x) by {
                            crate::linked::model::lemma_remove_contained(cs, a + 1, x);
                        }
                        assert forall|j: int| 0 <= j < m2.fl.len() implies size_at(
                            s2,
                            #[trigger] m2.fl[j],
                        ) == size_at(s, m2.fl[j]) by {
                            assert(cs.contains(m1.fl[j]));
                            let b = index_of(cs, m1.fl[j]);
                            assert(cs[b] == m1.fl[j]);
                            assert(m1.fl.contains(m1.fl[j]));
                            assert(size_at(s2, cs[b]) == size_at(s1, cs[b]));
                        }
                    }
                    return Ghost(merged(detached(m, cs[a + 1]), a));
                }
            },
            None => {},
        }
        Ghost(m)
    }

    /// Gives the chunk that owns the user address `ptr` back: marks it as
    /// free, merges it with a free lower neighbour and with a free higher
    /// neighbour other than the top chunk, and puts the result on the
    /// free list.
    pub(crate) fn dealloc(&self, mem: &mut [u8], ptr: usize, Ghost(m): Ghost<Model>) -> (m2: Ghost<
        Model,
    >)
        requires
            settled(old(mem)@, m),
            self.limit == old(mem)@.len(),
            self.base + 8 <= ptr,
            ptr - self.base <= old(mem)@.len(),
            m.cs.contains(owner(old(mem)@, self.base as int, ptr as int)),
            in_use_at(old(mem)@, owner(old(mem)@, self.base as int, ptr as int)),
        ensures
            final(mem)@.len() == old(mem)@.len(),
            settled(final(mem)@, m2@),
            ({
                let c = owner(old(mem)@, self.base as int, ptr as int);
                &&& !(m2@.cs.contains(c) && in_use_at(final(mem)@, c))
                &&& carried(old(mem)@, m.cs, final(mem)@, m2@.cs, c)
                &&& fresh_only(old(mem)@, m.cs, final(mem)@, m2@.cs, c)
                &&& lists(final(mem)@, m2@.fl) == lists_after_release(
                    old(mem)@,
                    lists(old(mem)@, m.fl),
                    c,
                )
                &&& m2@.cs == chunks_after_release(old(mem)@, m.cs, c)
                &&& size_at(final(mem)@, released_start(old(mem)@, c)) == released_size(
                    old(mem)@,
                    c,
                )
                &&& !in_use_at(final(mem)@, released_start(old(mem)@, c))
            }),
    {
        let ghost s = mem@;
        let ghost c = owner(s, self.base as int, ptr as int);
        proof {
            let i = index_of(m.cs, c);
            assert(m.cs[i] == c);
        }
        let chunk = Chunk::from_user_data(mem, self.base, ptr, self.limit);
        let (free, m1) = self.release_lower(mem, chunk, Ghost(m));
        let ghost s1 = mem@;
        let m2 = self.release_higher(mem, free, m1);
        let ghost s2 = mem@;
        proof {
            lemma_carried_free(s1, m1@.cs, s2, m2@.cs, free.data as int, c);
            lemma_carried_trans(s, m.cs, s1, m1@.cs, s2, m2@.cs, c);
            assert(m2@.loose.contains(free.data as int));
            // the lists, in terms of the bytes at the start
            let i = index_of(m.cs, c);
            lemma_index_unique(s, m.cs, m.end, i);
            lemma_chunk_end(s, m.cs, m.end, i);
            assert(m.cs[i + 1] == next_start(s, m.cs, i));
            let h = c + size_at(s, c);
            assert(m.cs.contains(h)) by {
                assert(m.cs[i + 1] == h);
            }
            assert(free_above(s1, free.data as int) == free_above(s, c));
            let l1 = lists(s1, m1@.fl);
            if free_above(s, c) {
                assert(m1@.fl.contains(h)) by {
                    assert(m1@.cs.contains(h)) by {
                        if !lower_in_use_at(s, c) {
                            crate::linked::model::lemma_remove_contains(m.cs, i, h);
                        }
                    }
                    let b = index_of(m1@.cs, h);
                    assert(m1@.cs[b] == h);
                    assert(m1@.fl.contains(m1@.cs[b]) || m1@.loose.contains(m1@.cs[b]));
                }
                let kh = index_of(m1@.fl, h);
                assert(m1@.fl[m1@.fl.len() - 1] == m1@.top);
                lemma_unlisted_same(s1, s, l1, h);
            }
            lemma_chunk_end(s2, m2@.cs, m2@.end, index_of(m2@.cs, free.data as int));
            lemma_start_listed(s2, m2@.fl, m2@.top, size_at(s2, free.data as int));
            assert(same_sizes(s, s2, m2@.fl)) by {
                assert forall|j: int| 0 <= j < m2@.fl.len() implies size_at(
                    s2,
                    #[trigger] m2@.fl[j],
                ) == size_at(s, m2@.fl[j]) by {
                    assert(size_at(s2, m2@.fl[j]) == size_at(s1, m2@.fl[j]));
                    if free_above(s, c) {
                        crate::linked::model::lemma_remove_contained(
                            m1@.fl,
                            index_of(m1@.fl, h),
                            m2@.fl[j],
                        );
                    }
                    let j1 = index_of(m1@.fl, m2@.fl[j]);
                    assert(m1@.fl[j1] == m2@.fl[j]);
                }
            }
            lemma_listed_same(
                s2,
                s,
                lists(s2, m2@.fl),
                free.data as int,
                size_at(s2, free.data as int),
            );
        }
        let k = self.attach(mem, free, m2);
        proof {
            let t = mem@;
            let m3 = attached(m2@, free.data as int, k@);
            lemma_carried_weaken(s2, m2@, t, m3, c);
            lemma_carried_trans(s, m.cs, s2, m2@.cs, t, m3.cs, c);
            assert(m3.loose =~= Set::<int>::empty());
            lemma_same_flags(s2, t, m2@.cs);
            if m3.cs.contains(c) {
                let j = index_of(m3.cs, c);
                assert(in_use_at(t, m3.cs[j]) == in_use_at(s2, m3.cs[j]));
            }
        }
        Ghost(attached(m2@, free.data as int, k@))
    }

    /// Lets the chunk `chunk`, which is in use, swallow its higher
    /// neighbour where `may_absorb` allows it. Returns whether it did.
    pub(crate) fn absorb_higher(
        &self,
        mem: &mut [u8],
        chunk: Chunk,
        new_size: usize,
        Ghost(m): Ghost<Model>,
    ) -> (r: (bool, Ghost<Model>))
        requires
            settled(old(mem)@, m),
            self.limit == old(mem)@.len(),
            chunk.limit == self.limit,
            m.cs.contains(chunk.data as int),
            in_use_at(old(mem)@, chunk.data as int),
        ensures
            final(mem)@.len() == old(mem)@.len(),
            settled(final(mem)@, r.1@),
            r.0 == may_absorb(old(mem)@, chunk.data as int, new_size as int),
            !r.0 ==> final(mem)@ == old(mem)@ && r.1@ == m,
            r.1@.cs.contains(chunk.data as int),
            in_use_at(final(mem)@, chunk.data as int),
            r.0 ==> size_at(final(mem)@, chunk.data as int) == size_at(
                old(mem)@,
                chunk.data as int,
            ) + size_at(old(mem)@, chunk.data + size_at(old(mem)@, chunk.data as int)),
            prefix_same(
                old(mem)@,
                final(mem)@,
                chunk.data as int,
                size_at(old(mem)@, chunk.data as int),
            ),
            ({
                let a = index_of(r.1@.cs, chunk.data as int);
                r.0 && a + 1 < r.1@.cs.len() - 1 ==> in_use_at(final(mem)@, r.1@.cs[a + 1])
            }),
            carried(old(mem)@, m.cs, final(mem)@, r.1@.cs, chunk.data as int),
            fresh_only(old(mem)@, m.cs, final(mem)@, r.1@.cs, chunk.data as int),
            r.0 ==> lists(final(mem)@, r.1@.fl) == unlisted(
                old(mem)@,
                lists(old(mem)@, m.fl),
                chunk.data + size_at(old(mem)@, chunk.data as int),
            ),
            r.0 ==> r.1@.cs == m.cs.remove(
                index_of(m.cs, chunk.data + size_at(old(mem)@, chunk.data as int)),
            ),
            same_sizes(old(mem)@, final(mem)@, r.1@.fl),
    {
        let ghost s = mem@;
        let ghost cs = m.cs;
        let ghost c = chunk.data as int;
        let ghost a = index_of(cs, c);
        proof {
            lemma_index_unique(s, cs, m.end, a);
            lemma_chunk_end(s, cs, m.end, a);
            assert(a < cs.len() - 1);
            lemma_chunk_end(s, cs, m.end, a + 1);
            assert(cs[a + 1] == next_start(s, cs, a));
            lemma_index_unique(s, cs, m.end, a + 1);
            lemma_carried_refl(s, cs, c);
            lemma_list_sizes(s, m);
            assert(!m.fl.contains(c)) by {
                if m.fl.contains(c) {
                    let j = index_of(m.fl, c);
                    assert(!in_use_at(s, m.fl[j]));
                }
            }
            if !in_use_at(s, cs[a + 1]) {
                assert(m.fl.contains(cs[a + 1]));
                let j = index_of(m.fl, cs[a + 1]);
                assert(next_at(s, m.fl[j]) == (if j == m.fl.len() - 1 {
                    0
                } else {
                    m.fl[j + 1]
                }));
                if j < m.fl.len() - 1 {
                    assert(m.fl[j + 1] >= 768);
                    assert(crate::linked::model::apart(m.fl[j], m.fl[m.fl.len() - 1]));
                }
                if a + 2 < cs.len() - 1 {
                    if !in_use_at(s, cs[a + 2]) {
                        assert(both_free(s, cs, a + 1));
                    }
                }
            }
        }
        let higher = chunk.get_free_higher_chunk(mem);
        let free_higher = match higher {
            Some(free_higher) => free_higher,
            None => {
                return (false, Ghost(m));
            },
        };
        if free_higher.is_top(mem) {
            return (false, Ghost(m));
        }
        let both = chunk.get_size(mem) + free_higher.get_size(mem);
        if both - META_SIZE < new_size {
            return (false, Ghost(m));
        }
        self.detach(mem, free_higher, Ghost(m));
        let ghost s1 = mem@;
        let ghost m1 = detached(m, cs[a + 1]);
        proof {
            lemma_same_flags(s, s1, cs);
            lemma_carried_weaken(s, m, s1, m1, c);
            assert(m1.loose =~= set![cs[a + 1]]);
            assert(m1.loose.contains(cs[a + 1]));
            lemma_chunk_end(s1, cs, m.end, a);
            lemma_chunk_end(s1, cs, m.end, a + 1);
            assert(crate::linked::model::payload_same(s, s1, c));
        }
        chunk.coalesce(mem, free_higher);
        proof {
            let s2 = mem@;
            let m2 = merged(m1, a);
            lemma_merge(s1, m1, a);
            lemma_carried_trans(s, cs, s1, cs, s2, m2.cs, c);
            assert(m2.loose =~= Set::<int>::empty());
            assert(m2.cs[a] == c);
            lemma_index_unique(s2, m2.cs, m2.end, a);
            if a + 1 < m2.cs.len() - 1 {
                assert(m2.cs[a + 1] == cs[a + 2]);
            }
            assert(crate::linked::model::payload_same(s1, s2, cs[a]));
            assert forall|j: int| 0 <= j < m2.fl.len() implies size_at(s2, #[trigger] m2.fl[j])
                == size_at(s, m2.fl[j]) by {
                assert(cs.contains(m1.fl[j]));
                let b = index_of(cs, m1.fl[j]);
                assert(cs[b] == m1.fl[j]);
                assert(m1.fl.contains(m1.fl[j]));
                assert(size_at(s2, cs[b]) == size_at(s1, cs[b]));
            }
        }
        (true, Ghost(merged(detached(m, cs[a + 1]), a)))
    }

    /// Cuts the chunk `chunk`, which is in use, down to what the request
    /// needs and puts what is cut off on the free list.
    pub(crate) fn trim(
        &self,
        mem: &mut [u8],
        chunk: Chunk,
        size: usize,
        align: usize,
        Ghost(m): Ghost<Model>,
    ) -> (m2: Ghost<Model>)
        requires
            settled(old(mem)@, m),
            self.limit == old(mem)@.len(),
            self.base % 8 == 0,
            self.base + old(mem)@.len() <= usize::MAX,
            is_power_of_two(align as int),
            chunk.limit == self.limit,
            m.cs.contains(chunk.data as int),
            in_use_at(old(mem)@, chunk.data as int),
            fits(old(mem)@, self.base as int, chunk.data as int, size as int, align as int),
            ({
                let a = index_of(m.cs, chunk.data as int);
                a + 1 < m.cs.len() - 1 ==> in_use_at(old(mem)@, m.cs[a + 1])
            }),
        ensures
            final(mem)@.len() == old(mem)@.len(),
            settled(final(mem)@, m2@),
            m2@.cs.contains(chunk.data as int),
            in_use_at(final(mem)@, chunk.data as int),
            fits(final(mem)@, self.base as int, chunk.data as int, size as int, align as int),
            size_at(final(mem)@, chunk.data as int) == taken_size(
                size_at(old(mem)@, chunk.data as int),
                self.base as int,
                chunk.data as int,
                size as int,
                align as int,
            ),
            size_at(final(mem)@, chunk.data as int) <= size_at(old(mem)@, chunk.data as int),
            lists(final(mem)@, m2@.fl) == (if size_at(old(mem)@, chunk.data as int) - split_size(
                self.base as int,
                chunk.data as int,
                size as int,
                align as int,
            ) >= 32 {
                listed(
                    old(mem)@,
                    lists(old(mem)@, m.fl),
                    chunk.data + split_size(
                        self.base as int,
                        chunk.data as int,
                        size as int,
                        align as int,
                    ),
                    size_at(old(mem)@, chunk.data as int) - split_size(
                        self.base as int,
                        chunk.data as int,
                        size as int,
                        align as int,
                    ),
                )
            } else {
                lists(old(mem)@, m.fl)
            }),
            m2@.cs == chunks_after_take(
                old(mem)@,
                m.cs,
                chunk.data as int,
                split_size(self.base as int, chunk.data as int, size as int, align as int),
            ),
            prefix_same(
                old(mem)@,
                final(mem)@,
                chunk.data as int,
                size_at(final(mem)@, chunk.data as int),
            ),
            carried(old(mem)@, m.cs, final(mem)@, m2@.cs, chunk.data as int),
            fresh_only(old(mem)@, m.cs, final(mem)@, m2@.cs, chunk.data as int),
    {
        let ghost s = mem@;
        let ghost base = self.base as int;
        let ghost cs = m.cs;
        let ghost c = chunk.data as int;
        let ghost i = index_of(cs, c);
        proof {
            lemma_index_unique(s, cs, m.end, i);
            lemma_chunk_end(s, cs, m.end, i);
            assert(i < cs.len() - 1);
            assert(cs[i + 1] == next_start(s, cs, i));
            lemma_carried_refl(s, cs, c);
            assert(!m.fl.contains(c)) by {
                if m.fl.contains(c) {
                    let j = index_of(m.fl, c);
                    assert(!in_use_at(s, m.fl[j]));
                }
            }
        }
        let rest = chunk.split(mem, self.base, size, align);
        let ghost s2 = mem@;
        let ghost z = split_size(base, c, size as int, align as int);
        match rest {
            Some(remain) => {
                proof {
                    lemma_split(s, m, i, z);
                    let m2 = splitted(m, i, z);
                    assert(m2.cs[i + 1] == c + z);
                    assert(m2.cs[i] == c);
                    assert(m2.cs[i + 2] == cs[i + 1]);
                    assert(m2.loose =~= set![c + z]);
                    lemma_index_unique(s2, m2.cs, m2.end, i + 1);
                    lemma_index_unique(s2, m2.cs, m2.end, i);
                    lemma_chunk_end(s2, m2.cs, m2.end, i + 1);
                }
                proof {
                    let m2 = splitted(m, i, z);
                    let l1 = lists(s, m.fl);
                    assert(lists(s2, m2.fl) == l1);
                    assert forall|j: int| 0 <= j < l1.fl.len() implies size_at(
                        s,
                        #[trigger] l1.fl[j],
                    ) == size_at(s2, l1.fl[j]) by {
                        assert(cs.contains(m.fl[j]));
                        let b = index_of(cs, m.fl[j]);
                        assert(cs[b] == m.fl[j]);
                        assert(m.fl.contains(m.fl[j]));
                    }
                    lemma_start_listed(s2, m2.fl, m2.top, size_at(s, c) - z);
                    lemma_listed_same(s2, s, l1, c + z, size_at(s, c) - z);
                }
                let k = self.attach(mem, remain, Ghost(splitted(m, i, z)));
                proof {
                    let m2 = splitted(m, i, z);
                    let m3 = attached(m2, c + z, k@);
                    lemma_carried_weaken(s2, m2, mem@, m3, c);
                    lemma_carried_trans(s, cs, s2, m2.cs, mem@, m2.cs, c);
                    lemma_same_flags(s2, mem@, m2.cs);
                    assert(m3.cs[i] == c);
                    assert(m3.loose =~= Set::<int>::empty());
                    assert(crate::linked::model::payload_same(s2, mem@, m2.cs[i]));
                }
                Ghost(attached(splitted(m, i, z), c + z, k@))
            },
            None => Ghost(m),
        }
    }

    /// Resizes the allocation at `ptr` without moving it: as it is where
    /// the chunk is large enough, or after the chunk swallowed a free
    /// higher neighbour. Returns `None` where neither works; the chunk may
    /// then have grown, and the allocation is as valid as before.
    pub(crate) fn realloc(
        &self,
        mem: &mut [u8],
        ptr: usize,
        align: usize,
        new_size: usize,
        Ghost(m): Ghost<Model>,
    ) -> (r: (Option<usize>, Ghost<Model>))
        requires
            settled(old(mem)@, m),
            self.limit == old(mem)@.len(),
            self.base % 8 == 0,
            self.base + old(mem)@.len() <= usize::MAX,
            is_power_of_two(align as int),
            self.base + 8 <= ptr,
            ptr - self.base <= old(mem)@.len(),
            m.cs.contains(owner(old(mem)@, self.base as int, ptr as int)),
            in_use_at(old(mem)@, owner(old(mem)@, self.base as int, ptr as int)),
            ptr == user_addr(
                self.base as int,
                owner(old(mem)@, self.base as int, ptr as int),
                align as int,
            ),
            ptr <= self.base + owner(old(mem)@, self.base as int, ptr as int) + size_at(
                old(mem)@,
                owner(old(mem)@, self.base as int, ptr as int),
            ),
        ensures
            final(mem)@.len() == old(mem)@.len(),
            settled(final(mem)@, r.1@),
            ({
                let s = old(mem)@;
                let t = final(mem)@;
                let c = owner(s, self.base as int, ptr as int);
                &&& r.1@.cs.contains(c)
                &&& in_use_at(t, c)
                &&& owner(t, self.base as int, ptr as int) == c
                &&& r.0 is None ==> size_at(t, c) >= size_at(s, c)
                &&& prefix_same(s, t, c, if size_at(t, c) < size_at(s, c) {
                    size_at(t, c)
                } else {
                    size_at(s, c)
                })
                &&& carried(s, m.cs, t, r.1@.cs, c)
                &&& fresh_only(s, m.cs, t, r.1@.cs, c)
                &&& r.0 is Some ==> r.0 == Some(ptr) && fits(
                    t,
                    self.base as int,
                    c,
                    new_size as int,
                    align as int,
                )
                &&& r.0 is Some && !fits(s, self.base as int, c, new_size as int, align as int)
                    ==> size_at(t, c) == taken_size(
                    size_at(s, c) + size_at(s, c + size_at(s, c)),
                    self.base as int,
                    c,
                    new_size as int,
                    align as int,
                )
                &&& r.0 is None && may_absorb(s, c, new_size as int) ==> size_at(t, c) == size_at(
                    s,
                    c,
                ) + size_at(s, c + size_at(s, c))
                &&& r.0 is None && !may_absorb(s, c, new_size as int) ==> t == s
                &&& r.0 is Some && !fits(s, self.base as int, c, new_size as int, align as int)
                    ==> lists(t, r.1@.fl) == lists_after_resize(
                    s,
                    lists(s, m.fl),
                    c,
                    split_size(self.base as int, c, new_size as int, align as int),
                ) && r.1@.cs == chunks_after_resize(
                    s,
                    m.cs,
                    c,
                    split_size(self.base as int, c, new_size as int, align as int),
                )
                &&& r.0 is None && may_absorb(s, c, new_size as int) ==> lists(t, r.1@.fl)
                    == unlisted(s, lists(s, m.fl), c + size_at(s, c)) && r.1@.cs == m.cs.remove(
                    index_of(m.cs, c + size_at(s, c)),
                )
                &&& fits(s, self.base as int, c, new_size as int, align as int) ==> r.1@ == m
                &&& r.0 is Some <==> fits(s, self.base as int, c, new_size as int, align as int)
                    || (may_absorb(s, c, new_size as int) && user_addr(
                    self.base as int,
                    c,
                    align as int,
                ) + new_size <= self.base + c + size_at(s, c) + size_at(s, c + size_at(s, c)))
                &&& fits(s, self.base as int, c, new_size as int, align as int) ==> t == s
            }),
    {
        let ghost s = mem@;
        let ghost base = self.base as int;
        let ghost c = owner(s, base, ptr as int);
        proof {
            let i = index_of(m.cs, c);
            assert(m.cs[i] == c);
            lemma_chunk_end(s, m.cs, m.end, i);
            lemma_carried_refl(s, m.cs, c);
            lemma_user_addr(base, c, align as int);
        }
        let chunk = Chunk::from_user_data(mem, self.base, ptr, self.limit);
        match chunk.get_user_data(mem, self.base, new_size, align) {
            Some(user) => {
                return (Some(user), Ghost(m));
            },
            None => {},
        }
        let (grown, m1) = self.absorb_higher(mem, chunk, new_size, Ghost(m));
        if !grown {
            return (None, m1);
        }
        let ghost s1 = mem@;
        proof {
            let i = index_of(m1@.cs, c);
            assert(m1@.cs[i] == c);
            lemma_chunk_end(s1, m1@.cs, m1@.end, i);
            lemma_owner_kept(s, s1, base, ptr as int, size_at(s, c));
        }
        match chunk.get_user_data(mem, self.base, new_size, align) {
            Some(user) => {
                proof {
                    let z = split_size(base, c, new_size as int, align as int);
                    if size_at(s1, c) - z >= 32 {
                        lemma_chunk_end(s1, m1@.cs, m1@.end, index_of(m1@.cs, c));
                        crate::linked::chunk::lemma_split_size(
                            base,
                            c,
                            new_size as int,
                            align as int,
                        );
                        lemma_start_listed(s1, m1@.fl, m1@.top, size_at(s1, c) - z);
                        lemma_listed_same(
                            s1,
                            s,
                            lists(s1, m1@.fl),
                            c + z,
                            size_at(s1, c) - z,
                        );
                    }
                }
                let m2 = self.trim(mem, chunk, new_size, align, m1);
                proof {
                    lemma_carried_trans(s, m.cs, s1, m1@.cs, mem@, m2@.cs, c);
                    lemma_owner_kept(s1, mem@, base, ptr as int, size_at(mem@, c));
                }
                (Some(user), m2)
            },
            None => (None, m1),
        }
    }
}

} // verus!
