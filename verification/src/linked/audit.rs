//! Looking a space over without changing it: listing its chunks, walking
//! its free list, checking its tiling, and telling whether an address is an
//! allocation.
use crate::linked::bins::MIN_SIZE;
use crate::linked::chunk::{lemma_user_addr, owner, Chunk};
use crate::linked::in_space::allocated;
use crate::linked::layout::{bin_at, in_use_at, lemma_meta_size, next_at, size_at, SENTINEL, START};
use crate::linked::model::{
    chunks, free_list, index_of, lemma_chunk_end, lemma_ordered, lemma_wf, live, model_of,
    next_start, settled, wf,
};
use crate::linked::overlay::{first_nonempty, lemma_list_sizes, Overlay};
use crate::space::Space;
use crate::words::word_at;
use vstd::prelude::*;

verus! {

/// Whether stepping from chunk to chunk, starting at offset `c`, stays
/// inside the space, meets only chunks of at least the minimum size, and
/// ends exactly at a free chunk of minimum size at the end of the space.
pub open spec fn tour(s: Seq<u8>, c: int) -> bool
    decreases s.len() - c,
{
    let size = size_at(s, c);
    if c < 0 || c + 32 > s.len() {
        false
    } else if c + 32 == s.len() {
        size == 32 && !in_use_at(s, c)
    } else if size < 32 || c + size + 32 > s.len() {
        false
    } else {
        tour(s, c + size)
    }
}

/// What the sanity check looks at: the sentinel, and the tour of all
/// chunks from the first one.
pub open spec fn sane(s: Seq<u8>) -> bool {
    s.len() >= 768 + 64 && s[0] == 0x82 && tour(s, 768)
}

/// The tour from any chunk of a well-formed space succeeds.
pub proof fn lemma_tour(s: Seq<u8>, i: int)
    requires
        wf(s),
        0 <= i < chunks(s).len(),
    ensures
        tour(s, chunks(s)[i]),
    decreases chunks(s).len() - i,
{
    lemma_wf(s);
    let m = model_of(s);
    lemma_chunk_end(s, m.cs, m.end, i);
    if i < m.cs.len() - 1 {
        assert(m.cs[i + 1] == next_start(s, m.cs, i));
        lemma_tour(s, i + 1);
    }
}

/// A well-formed space passes the sanity check.
pub proof fn lemma_wf_sane(s: Seq<u8>)
    requires
        wf(s),
    ensures
        sane(s),
{
    lemma_wf(s);
    lemma_tour(s, 0);
}

/// The `len` bytes from offset `offset` on lie in the user bytes of the
/// chunk at `c`, which is in use.
pub open spec fn lent_by(s: Seq<u8>, c: int, offset: int, len: int) -> bool {
    live(s, c) && c + 8 <= offset < c + size_at(s, c) && offset + len <= c + size_at(s, c)
}

/// The `len` bytes from offset `offset` on lie in the user bytes of some
/// chunk in use.
pub open spec fn lent(s: Seq<u8>, offset: int, len: int) -> bool {
    exists|c: int| lent_by(s, c, offset, len)
}

/// Writing into bytes that are lent out keeps the space well-formed with
/// the same chunks, and leaves every allocation in every other chunk as
/// it is.
pub proof fn lemma_write_lent(s: Seq<u8>, t: Seq<u8>, c: int, offset: int, len: int)
    requires
        wf(s),
        0 <= len,
        lent_by(s, c, offset, len),
        crate::words::same_outside(s, t, offset, offset + len),
    ensures
        wf(t),
        chunks(t) == chunks(s),
        free_list(t) == free_list(s),
        crate::linked::in_space::survivors(s, t, Some(c)),
        crate::linked::in_space::newcomers(s, t, None),
        live(t, c),
        size_at(t, c) == size_at(s, c),
        forall|k: int| c <= k < c + size_at(s, c) && !(offset <= k < offset + len) ==> t[k] == s[k],
{
    lemma_wf(s);
    let m = model_of(s);
    let i = index_of(m.cs, c);
    lemma_chunk_end(s, m.cs, m.end, i);
    crate::linked::reshape::lemma_payload_frame(s, t, m, i, offset, offset + len);
    crate::linked::model::lemma_model(t, m);
    crate::linked::in_space::lemma_fresh_live(s, m.cs, t, m.cs, c, -1);
    assert(word_at(t, m.cs[i]) == word_at(s, m.cs[i]));
}

/// What writing `data` at offset `offset` makes of the space `s`: the
/// bytes there are those of `data`, every other byte is as it was, and so
/// are the chunks, the free list and what is in use.
pub open spec fn written(s: Seq<u8>, t: Seq<u8>, offset: int, data: Seq<u8>) -> bool {
    &&& wf(t)
    &&& t.len() == s.len()
    &&& chunks(t) == chunks(s)
    &&& free_list(t) == free_list(s)
    &&& crate::words::same_outside(s, t, offset, offset + data.len())
    &&& forall|k: int| 0 <= k < data.len() ==> #[trigger] t[offset + k] == data[k]
    &&& forall|c: int| live(t, c) == live(s, c)
}

/// The views with the given offsets.
pub open spec fn offsets(views: Seq<Chunk>) -> Seq<int> {
    views.map_values(|chunk: Chunk| chunk.data as int)
}

/// `all` are the views of all chunks of the space `s`, in address order.
pub open spec fn all_views(s: Seq<u8>, all: Seq<Chunk>) -> bool {
    &&& offsets(all) == chunks(s)
    &&& forall|i: int| 0 <= i < all.len() ==> (#[trigger] all[i]).limit == s.len()
}

/// `free` are the views of the chunks on the free list of the space `s`,
/// from the head of the first bin that is not empty to the top chunk.
pub open spec fn free_views(s: Seq<u8>, free: Seq<Chunk>) -> bool {
    let fl = free_list(s);
    let k = index_of(fl, bin_at(s, first_nonempty(s, 3)));
    &&& 0 <= k < fl.len()
    &&& offsets(free) == fl.subrange(k, fl.len() as int)
    &&& forall|i: int| 0 <= i < free.len() ==> (#[trigger] free[i]).limit == s.len()
}

impl Overlay {
    /// Checks the sentinel and tours the chunks of `space`.
    pub fn sanity_check<S: Space>(space: &S) -> (ok: bool)
        ensures
            ok == sane(space.view()),
    {
        let mem = space.as_slice();
        let len = mem.len();
        if len < START + 2 * MIN_SIZE {
            return false;
        }
        if mem[0] != SENTINEL {
            return false;
        }
        let ghost s = mem@;
        let mut at: usize = START;
        loop
            invariant
                mem@ == s,
                s == space.view(),
                s[0] == 0x82,
                len == s.len(),
                len >= 768 + 64,
                768 <= at,
                at + 32 <= len,
                tour(s, 768) == tour(s, at as int),
            decreases len - at,
        {
            let chunk = Chunk { data: at, limit: len };
            proof {
                lemma_meta_size(word_at(s, at as int));
            }
            let meta_size = crate::words::load(mem, at) & 0xffff_ffff_ffff_fff8;
            proof {
                crate::linked::layout::lemma_meta_bits(word_at(s, at as int));
            }
            if at + MIN_SIZE == len {
                let in_use = chunk.get_in_use(mem);
                return meta_size == 32 && !in_use;
            }
            if meta_size < 32 || meta_size > (len - at) as u64 {
                return false;
            }
            let size = meta_size as usize;
            if len - at - size < MIN_SIZE {
                return false;
            }
            at = at + size;
        }
    }

    /// The views of all chunks of `space` in address order.
    pub fn iter_all_chunk<S: Space>(space: &S) -> (all: Vec<Chunk>)
        requires
            wf(space.view()),
        ensures
            all_views(space.view(), all@),
    {
        let mem = space.as_slice();
        let len = mem.len();
        let ghost s = mem@;
        let ghost m = model_of(s);
        proof {
            lemma_wf(s);
        }
        let mut all: Vec<Chunk> = Vec::new();
        let mut at: usize = START;
        let ghost mut i: int = 0;
        loop
            invariant_except_break
                all@.len() == i,
                forall|j: int| 0 <= j < i ==> (#[trigger] all@[j]).data == m.cs[j] && all@[j].limit
                    == len,
            invariant
                mem@ == s,
                len == s.len(),
                settled(s, m),
                0 <= i < m.cs.len(),
                at == m.cs[i],
            ensures
                all@.len() == m.cs.len(),
                forall|j: int|
                    0 <= j < m.cs.len() ==> (#[trigger] all@[j]).data == m.cs[j] && all@[j].limit
                        == len,
            decreases m.cs.len() - i,
        {
            proof {
                lemma_chunk_end(s, m.cs, m.end, i);
                if i < m.cs.len() - 1 {
                    assert(m.cs[i + 1] == next_start(s, m.cs, i));
                }
            }
            let chunk = Chunk { data: at, limit: len };
            all.push(chunk);
            if at + MIN_SIZE == len {
                proof {
                    if i < m.cs.len() - 1 {
                        lemma_chunk_end(s, m.cs, m.end, i + 1);
                    }
                }
                break ;
            }
            proof {
                if i == m.cs.len() - 1 {
                    assert(m.cs[i] == m.end - 32);
                }
            }
            at = at + chunk.get_size(mem);
            proof {
                i = i + 1;
            }
        }
        proof {
            assert(offsets(all@) =~= m.cs);
        }
        all
    }

    /// The views of the chunks on the free list of `space`, from the head
    /// of the first bin that is not empty to the top chunk.
    pub fn iter_free_chunk<S: Space>(space: &S) -> (free: Vec<Chunk>)
        requires
            wf(space.view()),
        ensures
            free_views(space.view(), free@),
    {
        let overlay = Overlay::new(space);
        let mem = space.as_slice();
        let len = mem.len();
        let ghost s = mem@;
        let ghost m = model_of(s);
        proof {
            lemma_wf(s);
            lemma_list_sizes(s, m);
        }
        let mut chunk = overlay.find_smallest(mem, 0, Ghost(m.fl), Ghost(m.top));
        let ghost k = index_of(m.fl, chunk.data as int);
        let ghost mut j: int = k;
        let mut free: Vec<Chunk> = Vec::new();
        loop
            invariant_except_break
                free@.len() == j - k,
                forall|i: int|
                    0 <= i < j - k ==> (#[trigger] free@[i]).data == m.fl[k + i] && free@[i].limit
                        == len,
            invariant
                mem@ == s,
                len == s.len(),
                settled(s, m),
                crate::linked::model::list_sizes(s, m.fl),
                0 <= k <= j < m.fl.len(),
                chunk.data == m.fl[j],
                chunk.limit == len,
            ensures
                free@.len() == m.fl.len() - k,
                forall|i: int|
                    0 <= i < m.fl.len() - k ==> (#[trigger] free@[i]).data == m.fl[k + i]
                        && free@[i].limit == len,
            decreases m.fl.len() - j,
        {
            assert(next_at(s, m.fl[j]) == (if j == m.fl.len() - 1 {
                0
            } else {
                m.fl[j + 1]
            }));
            proof {
                if j < m.fl.len() - 1 {
                    assert(m.fl[j + 1] >= 768);
                }
            }
            free.push(chunk);
            match chunk.get_next(mem) {
                Some(next) => {
                    chunk = next;
                    proof {
                        j = j + 1;
                    }
                },
                None => {
                    break ;
                },
            }
        }
        proof {
            assert(offsets(free@) =~= m.fl.subrange(k, m.fl.len() as int));
        }
        free
    }

    /// Whether `ptr` is the address of an allocation of `size` bytes at
    /// alignment `align` in `space`.
    pub fn owns<S: Space>(space: &S, ptr: usize, size: usize, align: usize) -> (ok: bool)
        requires
            wf(space.view()),
            space.base_spec() + space.view().len() <= usize::MAX,
            0 < align,
        ensures
            ok == allocated(
                space.view(),
                space.base_spec() as int,
                ptr as int,
                size as int,
                align as int,
            ),
    {
        let base = space.base();
        let mem = space.as_slice();
        let len = mem.len();
        let ghost s = mem@;
        let ghost m = model_of(s);
        let ghost c = owner(s, base as int, ptr as int);
        proof {
            lemma_wf(s);
            if live(s, c) {
                let i = index_of(m.cs, c);
                lemma_chunk_end(s, m.cs, m.end, i);
                lemma_user_addr(base as int, c, align as int);
            }
        }
        if ptr < base || ptr - base < START + 8 || ptr - base > len {
            return false;
        }
        let below = Chunk { data: ptr - base - 8, limit: len };
        let target = if below.get_in_use(mem) {
            below.data
        } else {
            proof {
                lemma_meta_size(word_at(s, below.data as int));
            }
            let padding = crate::words::load(mem, below.data) & 0xffff_ffff_ffff_fff8;
            proof {
                crate::linked::layout::lemma_meta_bits(word_at(s, below.data as int));
            }
            if padding > (below.data - START) as u64 {
                return false;
            }
            below.data - padding as usize
        };
        assert(target == c);
        // is `target` a chunk?
        let mut at: usize = START;
        let ghost mut i: int = 0;
        while at < target
            invariant
                mem@ == s,
                len == s.len(),
                settled(s, m),
                0 <= i < m.cs.len(),
                at == m.cs[i],
                target == c,
                c == owner(s, base as int, ptr as int),
                m == model_of(s),
                s == space.view(),
                base == space.base_spec(),
                forall|j: int| 0 <= j < i ==> #[trigger] m.cs[j] != target,
            decreases m.cs.len() - i,
        {
            proof {
                lemma_chunk_end(s, m.cs, m.end, i);
                if i < m.cs.len() - 1 {
                    assert(m.cs[i + 1] == next_start(s, m.cs, i));
                }
            }
            if at + MIN_SIZE == len {
                proof {
                    if i < m.cs.len() - 1 {
                        lemma_chunk_end(s, m.cs, m.end, i + 1);
                    }
                    assert forall|j: int| 0 <= j < m.cs.len() implies m.cs[j] != target by {
                        if j > i {
                            lemma_ordered(s, m.cs, m.end, i, j);
                        }
                    }
                }
                return false;
            }
            proof {
                if i == m.cs.len() - 1 {
                    assert(m.cs[i] == m.end - 32);
                }
            }
            at = at + Chunk { data: at, limit: len }.get_size(mem);
            proof {
                i = i + 1;
            }
        }
        if at != target {
            proof {
                assert forall|j: int| 0 <= j < m.cs.len() implies m.cs[j] != target by {
                    if j > i {
                        lemma_ordered(s, m.cs, m.end, i, j);
                    }
                }
            }
            return false;
        }
        proof {
            assert(m.cs[i] == c);
            lemma_chunk_end(s, m.cs, m.end, i);
            lemma_user_addr(base as int, c, align as int);
        }
        let chunk = Chunk { data: target, limit: len };
        if !chunk.get_in_use(mem) {
            return false;
        }
        match chunk.get_user_data(mem, base, size, align) {
            Some(user) => user == ptr,
            None => false,
        }
    }

    /// Whether the `len` bytes at address `ptr` are lent out: they lie in
    /// the user bytes of a chunk of `space` that is in use.
    pub fn holds<S: Space>(space: &S, ptr: usize, len: usize) -> (ok: bool)
        requires
            wf(space.view()),
        ensures
            ok ==> space.base_spec() <= ptr && ptr - space.base_spec() + len <= space.view().len(),
            ok == (space.base_spec() <= ptr && lent(
                space.view(),
                ptr - space.base_spec(),
                len as int,
            )),
    {
        let base = space.base();
        let mem = space.as_slice();
        let limit = mem.len();
        let ghost s = mem@;
        let ghost m = model_of(s);
        proof {
            lemma_wf(s);
        }
        if ptr < base {
            return false;
        }
        let offset = ptr - base;
        if offset < START + 8 || offset > limit || len > limit - offset {
            proof {
                if lent(s, offset as int, len as int) {
                    let c = choose|c: int| lent_by(s, c, offset as int, len as int);
                    let j = index_of(m.cs, c);
                    lemma_chunk_end(s, m.cs, m.end, j);
                }
            }
            return false;
        }
        let mut at: usize = START;
        let ghost mut i: int = 0;
        loop
            invariant
                mem@ == s,
                s == space.view(),
                base == space.base_spec(),
                limit == s.len(),
                offset == ptr - base,
                base <= ptr,
                settled(s, m),
                m == model_of(s),
                offset + len <= limit,
                0 <= i < m.cs.len(),
                at == m.cs[i],
                at <= offset,
            decreases m.cs.len() - i,
        {
            proof {
                lemma_chunk_end(s, m.cs, m.end, i);
                if i < m.cs.len() - 1 {
                    assert(m.cs[i + 1] == next_start(s, m.cs, i));
                }
            }
            let chunk = Chunk { data: at, limit };
            let size = chunk.get_size(mem);
            if at + MIN_SIZE == limit {
                proof {
                    if i < m.cs.len() - 1 {
                        lemma_chunk_end(s, m.cs, m.end, i + 1);
                    }
                    if lent(s, offset as int, len as int) {
                        let c = choose|c: int| lent_by(s, c, offset as int, len as int);
                        let j = index_of(m.cs, c);
                        lemma_chunk_end(s, m.cs, m.end, j);
                        if j < i {
                            lemma_ordered(s, m.cs, m.end, j, i);
                        }
                    }
                }
                return false;
            }
            if offset - at < size {
                let ok = chunk.get_in_use(mem) && offset - at >= 8 && len <= size - (offset - at);
                proof {
                    if ok {
                        assert(lent_by(s, at as int, offset as int, len as int));
                    } else if lent(s, offset as int, len as int) {
                        let c = choose|c: int| lent_by(s, c, offset as int, len as int);
                        let j = index_of(m.cs, c);
                        lemma_chunk_end(s, m.cs, m.end, j);
                        crate::linked::model::lemma_owner_unique(
                            s,
                            m.cs,
                            m.end,
                            i,
                            j,
                            offset as int,
                        );
                    }
                }
                return ok;
            }
            proof {
                if i == m.cs.len() - 1 {
                    assert(m.cs[i] == m.end - 32);
                }
            }
            at = at + size;
            proof {
                i = i + 1;
            }
        }
    }

    /// Copies `data` into the space at address `ptr`, which must lie in an
    /// allocation that has room for it.
    pub fn write<S: Space>(space: &mut S, ptr: usize, data: &[u8])
        requires
            wf(old(space).view()),
            old(space).base_spec() <= ptr,
            lent(old(space).view(), ptr - old(space).base_spec(), data@.len() as int),
        ensures
            final(space).base_spec() == old(space).base_spec(),
            written(old(space).view(), final(space).view(), ptr - old(space).base_spec(), data@),
    {
        let ghost s = space.view();
        let base = space.base();
        let offset = ptr - base;
        let ghost c = choose|c: int| lent_by(s, c, offset as int, data@.len() as int);
        proof {
            lemma_wf(s);
            let m = model_of(s);
            let j = index_of(m.cs, c);
            lemma_chunk_end(s, m.cs, m.end, j);
        }
        let mem = space.as_mut_slice();
        let n = data.len();
        let limit = mem.len();
        let mut k: usize = 0;
        while k < n
            invariant
                0 <= k <= n,
                n == data@.len(),
                mem@.len() == s.len(),
                limit == s.len(),
                offset + n <= limit,
                forall|j: int| 0 <= j < s.len() && !(offset <= j < offset + k)
                    ==> #[trigger] mem@[j]
                    == s[j],
                forall|j: int| 0 <= j < k ==> #[trigger] mem@[offset + j] == data@[j],
            decreases n - k,
        {
            mem[offset + k] = data[k];
            k = k + 1;
        }
        proof {
            let t = mem@;
            lemma_write_lent(s, t, c, offset as int, n as int);
            assert forall|x: int| live(t, x) == live(s, x) by {
                if x != c {
                    if live(s, x) {
                        assert(chunks(s).contains(x));
                    }
                    if live(t, x) {
                        assert(chunks(t).contains(x));
                    }
                }
            }
        }
    }

    /// Sets the `len` bytes of an allocation from address `ptr` on to
    /// zero.
    pub fn zero<S: Space>(space: &mut S, ptr: usize, len: usize)
        requires
            wf(old(space).view()),
            old(space).base_spec() <= ptr,
            lent(old(space).view(), ptr - old(space).base_spec(), len as int),
        ensures
            wf(final(space).view()),
            final(space).base_spec() == old(space).base_spec(),
            final(space).view().len() == old(space).view().len(),
            chunks(final(space).view()) == chunks(old(space).view()),
            free_list(final(space).view()) == free_list(old(space).view()),
            crate::words::same_outside(
                old(space).view(),
                final(space).view(),
                ptr - old(space).base_spec(),
                ptr - old(space).base_spec() + len,
            ),
            forall|k: int|
                0 <= k < len ==> #[trigger] final(space).view()[ptr - old(space).base_spec() + k]
                    == 0,
            forall|c: int| live(final(space).view(), c) == live(old(space).view(), c),
    {
        let ghost s = space.view();
        let base = space.base();
        let offset = ptr - base;
        let ghost c = choose|c: int| lent_by(s, c, offset as int, len as int);
        proof {
            lemma_wf(s);
            let m = model_of(s);
            let j = index_of(m.cs, c);
            lemma_chunk_end(s, m.cs, m.end, j);
        }
        let mem = space.as_mut_slice();
        let limit = mem.len();
        let mut k: usize = 0;
        while k < len
            invariant
                0 <= k <= len,
                mem@.len() == s.len(),
                limit == s.len(),
                offset + len <= limit,
                forall|j: int| 0 <= j < s.len() && !(offset <= j < offset + k)
                    ==> #[trigger] mem@[j]
                    == s[j],
                forall|j: int| 0 <= j < k ==> #[trigger] mem@[offset + j] == 0,
            decreases len - k,
        {
            mem[offset + k] = 0;
            k = k + 1;
        }
        proof {
            let t = mem@;
            lemma_write_lent(s, t, c, offset as int, len as int);
            assert forall|x: int| live(t, x) == live(s, x) by {
                if x != c {
                    if live(s, x) {
                        assert(chunks(s).contains(x));
                    }
                    if live(t, x) {
                        assert(chunks(t).contains(x));
                    }
                }
            }
        }
    }

    /// The `len` bytes of the space at address `ptr`.
    pub fn read<S: Space>(space: &S, ptr: usize, len: usize) -> (data: Vec<u8>)
        requires
            space.base_spec() <= ptr,
            ptr - space.base_spec() + len <= space.view().len(),
        ensures
            data@ == space.view().subrange(
                ptr - space.base_spec(),
                ptr - space.base_spec() + len,
            ),
    {
        let base = space.base();
        let offset = ptr - base;
        let mem = space.as_slice();
        let limit = mem.len();
        let mut data: Vec<u8> = Vec::new();
        let mut k: usize = 0;
        while k < len
            invariant
                0 <= k <= len,
                limit == mem@.len(),
                offset + len <= limit,
                data@.len() == k,
                forall|j: int| 0 <= j < k ==> #[trigger] data@[j] == mem@[offset + j],
            decreases len - k,
        {
            data.push(mem[offset + k]);
            k = k + 1;
        }
        proof {
            assert(data@ =~= mem@.subrange(offset as int, offset + len));
        }
        data
    }

    /// Copies `data` into the space at address `ptr` where the bytes from
    /// `ptr` on are lent out, and writes nothing where they are not.
    /// Returns whether it wrote.
    pub fn try_write<S: Space>(space: &mut S, ptr: usize, data: &[u8]) -> (done: bool)
        requires
            wf(old(space).view()),
        ensures
            final(space).base_spec() == old(space).base_spec(),
            done == (old(space).base_spec() <= ptr && lent(
                old(space).view(),
                ptr - old(space).base_spec(),
                data@.len() as int,
            )),
            done ==> written(
                old(space).view(),
                final(space).view(),
                ptr - old(space).base_spec(),
                data@,
            ),
            !done ==> final(space).view() == old(space).view(),
    {
        let done = Overlay::holds(space, ptr, data.len());
        if done {
            Overlay::write(space, ptr, data);
        }
        done
    }

    /// The `len` bytes of the space at address `ptr` where they are lent
    /// out, and nothing where they are not.
    pub fn try_read<S: Space>(space: &S, ptr: usize, len: usize) -> (data: Option<Vec<u8>>)
        requires
            wf(space.view()),
        ensures
            data is Some == (space.base_spec() <= ptr && lent(
                space.view(),
                ptr - space.base_spec(),
                len as int,
            )),
            data matches Some(bytes) ==> ptr - space.base_spec() + len <= space.view().len()
                && bytes@ == space.view().subrange(
                ptr - space.base_spec(),
                ptr - space.base_spec() + len,
            ),
    {
        if Overlay::holds(space, ptr, len) {
            Some(Overlay::read(space, ptr, len))
        } else {
            None
        }
    }

    /// Whether the address `ptr` lies in `space`.
    pub fn contains<S: Space>(space: &S, ptr: usize) -> (inside: bool)
        ensures
            inside == (space.base_spec() <= ptr && ptr - space.base_spec() < space.view().len()),
    {
        let base = space.base();
        let len = space.as_slice().len();
        base <= ptr && ptr - base < len
    }
}

} // verus!
