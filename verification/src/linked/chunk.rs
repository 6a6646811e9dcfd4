//! A chunk view: a position in the space together with the space's limit,
//! and the operations that read and rewrite the chunk's bookkeeping words.
use crate::linked::bins::{META_SIZE, MIN_SIZE};
use crate::linked::layout::{
    in_use_at, lemma_meta_size, lemma_with_in_use, lemma_with_lower, lemma_with_size,
    lower_in_use_at, meta_in_use, meta_lower, meta_size, next_at, prev_at, size_at, with_in_use,
    with_lower, with_size,
};
use crate::powers::{is_power_of_two, lemma_power_of_two_cases};
use crate::words::{
    lemma_modified_trans, lemma_modified_word, lemma_put_word_modified, load, modified_only,
    put_word, store, word_at,
};
use vstd::prelude::*;

verus! {

/// A view of the chunk that starts `data` bytes into a space of `limit`
/// bytes.
#[derive(Clone, Copy, PartialEq, Eq, Structural, Debug)]
pub struct Chunk {
    /// Offset of the chunk's meta word from the start of the space.
    pub data: usize,
    /// Length of the space the chunk lives in.
    pub limit: usize,
}

/// The bytes after the chunk at `c` was cut down to `z` bytes and the rest
/// of it became a free chunk of its own.
pub open spec fn after_split(s: Seq<u8>, c: int, z: int) -> Seq<u8> {
    after_set(after_set(s, c + z, false, size_at(s, c) - z), c, in_use_at(s, c), z)
}

/// The bytes after the chunk at `c` swallowed its higher neighbour.
pub open spec fn after_merge(s: Seq<u8>, c: int) -> Seq<u8> {
    after_set(s, c, in_use_at(s, c), size_at(s, c) + size_at(s, c + size_at(s, c)))
}

/// The bytes after the meta word of the chunk at `c` was rewritten with the
/// given flag and size: the higher neighbour, where there is one, learns the
/// flag, and a free chunk gets its footer.
#[verifier::opaque]
pub open spec fn after_set(s: Seq<u8>, c: int, in_use: bool, size: int) -> Seq<u8> {
    let s1 = put_word(s, c, with_size(with_in_use(word_at(s, c), in_use), size as u64));
    let s2 = if c + size < s.len() {
        put_word(s1, c + size, with_lower(word_at(s1, c + size), in_use))
    } else {
        s1
    };
    if !in_use {
        put_word(s2, c + size - 8, size as u64)
    } else {
        s2
    }
}

/// The aligned words that `after_set` may rewrite.
pub open spec fn set_words(s: Seq<u8>, c: int, in_use: bool, size: int) -> Set<int> {
    Set::new(
        |x: int|
            x == c || (x == c + size && c + size < s.len()) || (x == c + size - 8 && !in_use),
    )
}

/// What `after_set` establishes.
pub(crate) proof fn lemma_after_set(s: Seq<u8>, c: int, in_use: bool, size: int)
    requires
        0 <= c,
        c % 8 == 0,
        size % 8 == 0,
        32 <= size,
        c + size <= s.len(),
        s.len() % 8 == 0,
        s.len() <= u64::MAX,
    ensures
        ({
            let t = after_set(s, c, in_use, size);
            let h = c + size;
            &&& t.len() == s.len()
            &&& size_at(t, c) == size
            &&& in_use_at(t, c) == in_use
            &&& lower_in_use_at(t, c) == lower_in_use_at(s, c)
            &&& h < s.len() ==> {
                &&& size_at(t, h) == size_at(s, h)
                &&& in_use_at(t, h) == in_use_at(s, h)
                &&& lower_in_use_at(t, h) == in_use
            }
            &&& !in_use ==> word_at(t, h - 8) == size
            &&& modified_only(s, t, set_words(s, c, in_use, size))
        }),
{
    reveal(after_set);
    let w0 = word_at(s, c);
    let w1 = with_size(with_in_use(w0, in_use), size as u64);
    lemma_with_in_use(w0, in_use);
    lemma_with_size(with_in_use(w0, in_use), size as u64);
    let s1 = put_word(s, c, w1);
    lemma_put_word_modified(s, c, w1);
    let h = c + size;
    let xs = set_words(s, c, in_use, size);
    let s2 = if h < s.len() {
        put_word(s1, h, with_lower(word_at(s1, h), in_use))
    } else {
        s1
    };
    if h < s.len() {
        let wh = word_at(s1, h);
        lemma_modified_word(s, s1, set![c], h);
        lemma_with_lower(wh, in_use);
        lemma_put_word_modified(s1, h, with_lower(wh, in_use));
        lemma_modified_word(s1, s2, set![h], c);
        lemma_modified_trans(s, s1, s2, set![c], set![h], xs);
    } else {
        lemma_modified_trans(s, s1, s2, set![c], Set::empty(), xs);
    }
    if !in_use {
        let t = put_word(s2, h - 8, size as u64);
        lemma_put_word_modified(s2, h - 8, size as u64);
        lemma_modified_word(s2, t, set![h - 8], c);
        if h < s.len() {
            lemma_modified_word(s2, t, set![h - 8], h);
        }
        lemma_modified_trans(s, s2, t, xs, set![h - 8], xs);
    }
}

impl Chunk {
    /// A view of the chunk at offset `data` in a space of `limit` bytes.
    pub fn new(data: usize, limit: usize) -> (chunk: Chunk)
        requires
            data < limit,
        ensures
            chunk.data == data,
            chunk.limit == limit,
    {
        Chunk { data, limit }
    }

    /// Whether the chunk is handed out to a user.
    pub fn get_in_use(&self, mem: &[u8]) -> (in_use: bool)
        requires
            self.data + 8 <= mem@.len(),
        ensures
            in_use == in_use_at(mem@, self.data as int),
    {
        let meta = load(mem, self.data);
        assert((meta & 1 != 0) == meta_in_use(meta)) by {
            reveal_meta(meta);
        }
        meta & 1 != 0
    }

    /// Whether the chunk's lower neighbour is handed out to a user.
    pub fn get_lower_in_use(&self, mem: &[u8]) -> (lower_in_use: bool)
        requires
            self.data + 8 <= mem@.len(),
        ensures
            lower_in_use == lower_in_use_at(mem@, self.data as int),
    {
        let meta = load(mem, self.data);
        assert((meta & 2 != 0) == meta_lower(meta)) by {
            reveal_meta(meta);
        }
        meta & 2 != 0
    }

    /// Records whether the chunk's lower neighbour is in use.
    pub fn set_lower_in_use(&self, mem: &mut [u8], lower_in_use: bool)
        requires
            self.data + 8 <= old(mem)@.len(),
        ensures
            final(mem)@ == put_word(
                old(mem)@,
                self.data as int,
                with_lower(word_at(old(mem)@, self.data as int), lower_in_use),
            ),
    {
        let meta = load(mem, self.data);
        let flag: u64 = if lower_in_use {
            2
        } else {
            0
        };
        let word = (meta & 0xffff_ffff_ffff_fffd) | flag;
        assert(word == with_lower(meta, lower_in_use)) by {
            reveal_with(meta, lower_in_use, 0);
        }
        store(mem, self.data, word);
    }

    /// The chunk's size in bytes, meta word included.
    pub fn get_size(&self, mem: &[u8]) -> (size: usize)
        requires
            self.data + 8 <= mem@.len(),
            size_at(mem@, self.data as int) <= usize::MAX,
        ensures
            size == size_at(mem@, self.data as int),
    {
        let meta = load(mem, self.data);
        assert((meta & 0xffff_ffff_ffff_fff8) == meta_size(meta)) by {
            reveal_meta(meta);
        }
        (meta & 0xffff_ffff_ffff_fff8) as usize
    }

    /// Rewrites the chunk's IN_USE flag and size. The higher neighbour, if
    /// the chunk does not end at the limit, has its LOWER_IN_USE flag set
    /// to match; a free chunk gets its size repeated in its footer.
    pub fn set_in_use_and_size(&self, mem: &mut [u8], in_use: bool, size: usize)
        requires
            self.data % 8 == 0,
            size % 8 == 0,
            size >= 32,
            self.data + size <= old(mem)@.len(),
            old(mem)@.len() % 8 == 0,
        ensures
            final(mem)@ == after_set(old(mem)@, self.data as int, in_use, size as int),
    {
        proof {
            reveal(after_set);
        }
        let len = mem.len();
        let meta = load(mem, self.data);
        let flag: u64 = if in_use {
            1
        } else {
            0
        };
        let word = (((meta & 0xffff_ffff_ffff_fffe) | flag) & 7) | (size as u64);
        assert(word == with_size(with_in_use(meta, in_use), size as u64)) by {
            reveal_with(meta, in_use, size as u64);
        }
        store(mem, self.data, word);
        proof {
            crate::words::lemma_put_word(old(mem)@, self.data as int, word);
        }
        if self.data + size < len {
            let higher = Chunk { data: self.data + size, limit: self.limit };
            let ghost before = mem@;
            higher.set_lower_in_use(mem, in_use);
            proof {
                crate::words::lemma_put_word(
                    before,
                    self.data + size,
                    with_lower(word_at(before, self.data + size), in_use),
                );
            }
        }
        if !in_use {
            store(mem, self.data + size - 8, size as u64);
        }
    }

    /// The lowest address in this chunk that is a multiple of `align` and
    /// leaves `size` bytes up to the chunk's end, if there is one. `base`
    /// is the address of the space's first byte.
    pub fn get_user_data(&self, mem: &[u8], base: usize, size: usize,
        align: usize) -> (user: Option<
        usize,
    >)
        requires
            self.data + 8 <= mem@.len(),
            8 <= size_at(mem@, self.data as int),
            base + self.data + size_at(mem@, self.data as int) <= usize::MAX,
            0 < align,
        ensures
            user == (if fits(mem@, base as int, self.data as int, size as int, align as int) {
                Some(user_addr(base as int, self.data as int, align as int) as usize)
            } else {
                None
            }),
    {
        proof {
            lemma_user_addr(base as int, self.data as int, align as int);
        }
        let addr = base + self.data + 8;
        let rest = addr % align;
        let gap = if rest == 0 {
            0
        } else {
            align - rest
        };
        let room = self.get_size(mem) - META_SIZE;
        if gap > room || size > room - gap {
            None
        } else {
            Some(addr + gap)
        }
    }

    /// The chunk that owns the user address `user`. `base` is the address
    /// of the space's first byte.
    pub fn from_user_data(mem: &[u8], base: usize, user: usize, limit: usize) -> (chunk: Chunk)
        requires
            base + 8 <= user,
            user - base <= mem@.len(),
            0 <= owner(mem@, base as int, user as int),
        ensures
            chunk.data == owner(mem@, base as int, user as int),
            chunk.limit == limit,
    {
        let _len: usize = mem.len();
        let below = Chunk { data: user - base - 8, limit };
        if below.get_in_use(mem) {
            below
        } else {
            proof {
                lemma_meta_size(word_at(mem@, below.data as int));
            }
            let padding = below.get_size(mem);
            Chunk { data: below.data - padding, limit }
        }
    }

    /// The size this chunk is cut down to when it serves `size` user bytes
    /// at alignment `align`.
    pub fn cut_size(&self, base: usize, size: usize, align: usize) -> (z: usize)
        requires
            0 < align,
            base + self.data + 8 <= usize::MAX,
            8 + align_gap(base + self.data + 8, align as int) + size + 7 <= usize::MAX,
        ensures
            z == split_size(base as int, self.data as int, size as int, align as int),
    {
        proof {
            lemma_user_addr(base as int, self.data as int, align as int);
        }
        let addr = base + self.data + 8;
        let rest = addr % align;
        let gap = if rest == 0 {
            0
        } else {
            align - rest
        };
        let mut new_size = META_SIZE + gap + size;
        if new_size < MIN_SIZE {
            new_size = MIN_SIZE;
        }
        if new_size % 8 != 0 {
            new_size = new_size + (8 - new_size % 8);
        }
        new_size
    }

    /// Cuts the chunk down to what `size` user bytes at `align` need and
    /// turns the rest into a free chunk, which is returned. Where the
    /// rest would be smaller than a minimum chunk, nothing changes.
    pub fn split(&self, mem: &mut [u8], base: usize, size: usize, align: usize) -> (rest: Option<
        Chunk,
    >)
        requires
            self.data % 8 == 0,
            base % 8 == 0,
            is_power_of_two(align as int),
            old(mem)@.len() % 8 == 0,
            32 <= size_at(old(mem)@, self.data as int),
            self.data + size_at(old(mem)@, self.data as int) <= old(mem)@.len(),
            base + old(mem)@.len() <= usize::MAX,
            fits(old(mem)@, base as int, self.data as int, size as int, align as int),
        ensures
            ({
                let c = self.data as int;
                let z = split_size(base as int, c, size as int, align as int);
                &&& z % 8 == 0
                &&& 32 <= z <= size_at(old(mem)@, c)
                &&& user_addr(base as int, c, align as int) + size <= base + c + z
                &&& if size_at(old(mem)@, c) - z >= 32 {
                    &&& rest == Some(Chunk { data: (c + z) as usize, limit: self.limit })
                    &&& final(mem)@ == after_split(old(mem)@, c, z)
                } else {
                    &&& rest is None
                    &&& final(mem)@ == old(mem)@
                }
            }),
    {
        proof {
            lemma_user_addr(base as int, self.data as int, align as int);
            lemma_split_size(base as int, self.data as int, size as int, align as int);
            lemma_meta_size(word_at(mem@, self.data as int));
        }
        let whole = self.get_size(mem);
        let new_size = self.cut_size(base, size, align);
        let remain_size = whole - new_size;
        if remain_size < MIN_SIZE {
            None
        } else {
            let remain = Chunk { data: self.data + new_size, limit: self.limit };
            let in_use = self.get_in_use(mem);
            remain.set_in_use_and_size(mem, false, remain_size);
            proof {
                lemma_after_set(
                    old(mem)@,
                    self.data + new_size,
                    false,
                    remain_size as int,
                );
                lemma_modified_word(
                    old(mem)@,
                    mem@,
                    set_words(old(mem)@, self.data + new_size, false, remain_size as int),
                    self.data as int,
                );
            }
            self.set_in_use_and_size(mem, in_use, new_size);
            Some(remain)
        }
    }

    /// The lower neighbour, if it is free.
    pub fn get_free_lower_chunk(&self, mem: &[u8]) -> (lower: Option<Chunk>)
        requires
            8 <= self.data,
            self.data + 8 <= mem@.len(),
            !lower_in_use_at(mem@, self.data as int) ==> 0 <= lower_of(mem@, self.data as int),
        ensures
            lower == (if lower_in_use_at(mem@, self.data as int) {
                None
            } else {
                Some(Chunk { data: lower_of(mem@, self.data as int) as usize, limit: self.limit })
            }),
    {
        if self.get_lower_in_use(mem) {
            None
        } else {
            let lower_size = load(mem, self.data - 8);
            Some(Chunk { data: self.data - (lower_size as usize), limit: self.limit })
        }
    }

    /// The higher neighbour. The chunk must not end at the limit.
    pub fn get_higher_chunk(&self, mem: &[u8]) -> (higher: Chunk)
        requires
            self.data + 8 <= mem@.len(),
            self.data + size_at(mem@, self.data as int) < self.limit,
        ensures
            higher == (Chunk {
                data: (self.data + size_at(mem@, self.data as int)) as usize,
                limit: self.limit,
            }),
    {
        proof {
            lemma_meta_size(word_at(mem@, self.data as int));
        }
        Chunk::new(self.data + self.get_size(mem), self.limit)
    }

    /// The higher neighbour, if it is free.
    pub fn get_free_higher_chunk(&self, mem: &[u8]) -> (higher: Option<Chunk>)
        requires
            self.data + 8 <= mem@.len(),
            self.limit == mem@.len(),
            self.data + size_at(mem@, self.data as int) + 8 <= self.limit,
        ensures
            higher == (if in_use_at(mem@, self.data + size_at(mem@, self.data as int)) {
                None
            } else {
                Some(
                    Chunk {
                        data: (self.data + size_at(mem@, self.data as int)) as usize,
                        limit: self.limit,
                    },
                )
            }),
    {
        let higher = self.get_higher_chunk(mem);
        if higher.get_in_use(mem) {
            None
        } else {
            Some(higher)
        }
    }

    /// Grows this chunk over its higher neighbour `other`.
    pub fn coalesce(&self, mem: &mut [u8], other: Chunk)
        requires
            self.data % 8 == 0,
            old(mem)@.len() % 8 == 0,
            32 <= size_at(old(mem)@, self.data as int),
            other.data == self.data + size_at(old(mem)@, self.data as int),
            32 <= size_at(old(mem)@, other.data as int),
            other.data + size_at(old(mem)@, other.data as int) <= old(mem)@.len(),
        ensures
            final(mem)@ == after_merge(old(mem)@, self.data as int),
    {
        proof {
            lemma_meta_size(word_at(mem@, self.data as int));
            lemma_meta_size(word_at(mem@, other.data as int));
        }
        let _len: usize = mem.len();
        let in_use = self.get_in_use(mem);
        let size = self.get_size(mem) + other.get_size(mem);
        self.set_in_use_and_size(mem, in_use, size);
    }

    /// The chunk before this one on the free list.
    pub fn get_prev(&self, mem: &[u8]) -> (prev: Option<Chunk>)
        requires
            self.data + 16 <= mem@.len(),
            !in_use_at(mem@, self.data as int),
            prev_at(mem@, self.data as int) <= usize::MAX,
        ensures
            prev_at(mem@, self.data as int) == 0 ==> prev is None,
            prev_at(mem@, self.data as int) != 0 ==> prev == Some(
                Chunk { data: prev_at(mem@, self.data as int) as usize, limit: self.limit },
            ),
    {
        let _len: usize = mem.len();
        let word = load(mem, self.data + 8);
        if word == 0 {
            None
        } else {
            Some(Chunk { data: word as usize, limit: self.limit })
        }
    }

    /// Links `prev` in front of this chunk on the free list.
    pub fn set_prev(&self, mem: &mut [u8], prev: Option<Chunk>)
        requires
            self.data + 16 <= old(mem)@.len(),
            !in_use_at(old(mem)@, self.data as int),
        ensures
            final(mem)@ == put_word(old(mem)@, self.data + 8, link_word(prev)),
    {
        let _len: usize = mem.len();
        let word: u64 = match prev {
            Some(chunk) => chunk.data as u64,
            None => 0,
        };
        store(mem, self.data + 8, word);
    }

    /// The chunk after this one on the free list.
    pub fn get_next(&self, mem: &[u8]) -> (next: Option<Chunk>)
        requires
            self.data + 24 <= mem@.len(),
            !in_use_at(mem@, self.data as int),
            next_at(mem@, self.data as int) <= usize::MAX,
        ensures
            next_at(mem@, self.data as int) == 0 ==> next is None,
            next_at(mem@, self.data as int) != 0 ==> next == Some(
                Chunk { data: next_at(mem@, self.data as int) as usize, limit: self.limit },
            ),
    {
        let _len: usize = mem.len();
        let word = load(mem, self.data + 16);
        if word == 0 {
            None
        } else {
            Some(Chunk { data: word as usize, limit: self.limit })
        }
    }

    /// Links `next` behind this chunk on the free list.
    pub fn set_next(&self, mem: &mut [u8], next: Option<Chunk>)
        requires
            self.data + 24 <= old(mem)@.len(),
            !in_use_at(old(mem)@, self.data as int),
        ensures
            final(mem)@ == put_word(old(mem)@, self.data + 16, link_word(next)),
    {
        let _len: usize = mem.len();
        let word: u64 = match next {
            Some(chunk) => chunk.data as u64,
            None => 0,
        };
        store(mem, self.data + 16, word);
    }

    /// Whether this free chunk is the top chunk: the one with no successor
    /// on the free list.
    pub fn is_top(&self, mem: &[u8]) -> (top: bool)
        requires
            self.data + 24 <= mem@.len(),
            !in_use_at(mem@, self.data as int),
        ensures
            top == (next_at(mem@, self.data as int) == 0),
    {
        let _len: usize = mem.len();
        load(mem, self.data + 16) == 0
    }
}

/// How far `addr` is below the next multiple of `align`.
pub open spec fn align_gap(addr: int, align: int) -> int {
    (align - addr % align) % align
}

/// The lowest address that is a multiple of `align` and leaves room for the
/// meta word of the chunk at offset `c` of a space that starts at `base`.
pub open spec fn user_addr(base: int, c: int, align: int) -> int {
    base + c + 8 + align_gap(base + c + 8, align)
}

/// Whether the chunk at `c` can hold `size` user bytes at alignment `align`.
pub open spec fn fits(s: Seq<u8>, base: int, c: int, size: int, align: int) -> bool {
    user_addr(base, c, align) + size <= base + c + size_at(s, c)
}

/// The size a chunk is cut down to when it serves `size` user bytes at
/// alignment `align`: the meta word, the padding and the user bytes,
/// rounded up to a multiple of 8 and to the minimum chunk size.
pub open spec fn split_size(base: int, c: int, size: int, align: int) -> int {
    let need = 8 + align_gap(base + c + 8, align) + size;
    let need = if need < 32 {
        32
    } else {
        need
    };
    need + align_gap(need, 8)
}

/// The size a chunk of `whole` bytes has after it was cut to serve the
/// request: the cut size, unless what would be left is less than a minimum
/// chunk.
pub open spec fn taken_size(whole: int, base: int, c: int, size: int, align: int) -> int {
    let z = split_size(base, c, size, align);
    if whole - z >= 32 {
        z
    } else {
        whole
    }
}

/// The chunk that owns the user address `ptr`: the word just below `ptr` is
/// either the chunk's own meta word, or a padding word that holds the
/// distance down to it.
pub open spec fn owner(s: Seq<u8>, base: int, ptr: int) -> int {
    let o = ptr - base - 8;
    if in_use_at(s, o) {
        o
    } else {
        o - size_at(s, o)
    }
}

/// The chunk that ends where the chunk at `c` begins, going by its footer.
pub open spec fn lower_of(s: Seq<u8>, c: int) -> int {
    c - word_at(s, c - 8)
}

/// The user address is aligned and less than `align` above the first byte
/// after the meta word.
pub proof fn lemma_user_addr(base: int, c: int, align: int)
    requires
        0 <= base,
        0 <= c,
        0 < align,
    ensures
        user_addr(base, c, align) % align == 0,
        0 <= align_gap(base + c + 8, align) < align,
        align_gap(base + c + 8, align) == (if (base + c + 8) % align == 0 {
            0
        } else {
            align - (base + c + 8) % align
        }),
{
    let a = base + c + 8;
    let r = a % align;
    vstd::arithmetic::div_mod::lemma_mod_bound(a, align);
    vstd::arithmetic::div_mod::lemma_fundamental_div_mod(a, align);
    if r == 0 {
        vstd::arithmetic::div_mod::lemma_mod_self_0(align);
    } else {
        vstd::arithmetic::div_mod::lemma_small_mod((align - r) as nat, align as nat);
        assert(a + (align - r) == align * (a / align + 1)) by (nonlinear_arith)
            requires
                a == align * (a / align) + r,
        ;
        vstd::arithmetic::div_mod::lemma_mod_multiples_basic(a / align + 1, align);
    }
}

/// The remainder of a multiple of 8 by a multiple of 8 is a multiple of 8.
pub(crate) proof fn lemma_rest_aligned(a: int, align: int)
    requires
        0 <= a,
        a % 8 == 0,
        0 < align,
        align % 8 == 0,
    ensures
        (a % align) % 8 == 0,
{
    let q = a / align;
    let r = a % align;
    let k = align / 8;
    vstd::arithmetic::div_mod::lemma_fundamental_div_mod(a, align);
    assert(align * q == 8 * (k * q)) by (nonlinear_arith)
        requires
            align == 8 * k,
    ;
    assert(r == a - 8 * (k * q));
}

/// With an 8-aligned base and chunk and a power-of-two alignment, the
/// padding in front of the user address is a multiple of 8.
pub proof fn lemma_gap_aligned(base: int, c: int, align: int)
    requires
        0 <= base,
        0 <= c,
        base % 8 == 0,
        c % 8 == 0,
        is_power_of_two(align),
    ensures
        align_gap(base + c + 8, align) % 8 == 0,
{
    let a = base + c + 8;
    lemma_power_of_two_cases(align);
    lemma_user_addr(base, c, align);
    if align >= 8 {
        lemma_rest_aligned(a, align);
    } else if align == 2 {
        assert(a % 2 == 0);
    } else if align == 4 {
        assert(a % 4 == 0);
    } else {
        assert(a % 1 == 0);
    }
}

/// The size a chunk is cut down to is a multiple of 8, at least the
/// minimum, and covers the meta word, the padding and the user bytes.
pub(crate) proof fn lemma_split_size(base: int, c: int, size: int, align: int)
    requires
        0 <= base,
        0 <= c,
        0 <= size,
        0 < align,
    ensures
        split_size(base, c, size, align) % 8 == 0,
        32 <= split_size(base, c, size, align),
        8 + align_gap(base + c + 8, align) + size <= split_size(base, c, size, align) < 8
            + align_gap(base + c + 8, align) + size + 8 || split_size(base, c, size, align) == 32,
{
    lemma_user_addr(base, c, align);
    let need = 8 + align_gap(base + c + 8, align) + size;
    let need = if need < 32 {
        32
    } else {
        need
    };
    assert(align_gap(need, 8) == (if need % 8 == 0 {
        0
    } else {
        8 - need % 8
    }));
}

/// The word that stores a free-list link: the chunk's offset, or 0 for no
/// chunk.
pub open spec fn link_word(link: Option<Chunk>) -> u64 {
    match link {
        Some(chunk) => chunk.data as u64,
        None => 0,
    }
}

proof fn reveal_meta(meta: u64)
    ensures
        (meta & 1 != 0) == meta_in_use(meta),
        (meta & 2 != 0) == meta_lower(meta),
        (meta & 0xffff_ffff_ffff_fff8) == meta_size(meta),
{
    crate::linked::layout::lemma_meta_bits(meta);
}

proof fn reveal_with(meta: u64, flag: bool, size: u64)
    ensures
        with_lower(meta, flag) == (meta & 0xffff_ffff_ffff_fffd) | (if flag {
            2u64
        } else {
            0u64
        }),
        with_size(with_in_use(meta, flag), size) == (((meta & 0xffff_ffff_ffff_fffe) | (if flag {
            1u64
        } else {
            0u64
        })) & 7) | size,
{
    crate::linked::layout::lemma_with_bits(meta, flag, size);
    crate::linked::layout::lemma_with_bits(with_in_use(meta, flag), flag, size);
}

} // verus!
