//! The abstract shape of a managed space: which chunks tile it, which of
//! them are threaded on the free list, and the predicates that tie both to
//! the bytes.
use crate::linked::bins::bin_index;
use crate::linked::layout::{
    bin_at, footer_pos, in_use_at, lower_in_use_at, next_at, prev_at, size_at,
};
use crate::words::{modified_only, lemma_modified_word, word_at, word_start};
use vstd::prelude::*;

verus! {

/// The shape of a space.
pub struct Model {
    /// Offsets of all chunks in address order; the last one is the top chunk.
    pub cs: Seq<int>,
    /// Offsets of the chunks on the free list in link order; the last one
    /// is the top chunk.
    pub fl: Seq<int>,
    /// Chunks that are currently off the free list while an operation
    /// reshapes them.
    pub loose: Set<int>,
    /// Where the chunk region ends.
    pub end: int,
    /// The chunk that currently closes the free list.
    pub top: int,
}

/// Where the chunk after `cs[i]` begins.
pub open spec fn next_start(s: Seq<u8>, cs: Seq<int>, i: int) -> int {
    cs[i] + size_at(s, cs[i])
}

/// The chunks `cs` tile the region `[768, end)` of `s` without gaps, and the
/// last of them is a free chunk of minimum size.
pub open spec fn tiled(s: Seq<u8>, cs: Seq<int>, end: int) -> bool {
    &&& end % 8 == 0
    &&& 768 + 64 <= end <= s.len()
    &&& cs.len() >= 2
    &&& cs[0] == 768
    &&& cs[cs.len() - 1] == end - 32
    &&& forall|i: int|
        0 <= i < cs.len() ==> 768 <= #[trigger] cs[i] <= end - 32 && cs[i] % 8 == 0 && size_at(
            s,
            cs[i],
        ) >= 32
    &&& forall|i: int| 0 <= i < cs.len() - 1 ==> cs[i + 1] == #[trigger] next_start(s, cs, i)
    &&& size_at(s, end - 32) == 32
    &&& !in_use_at(s, end - 32)
}

/// Every chunk records whether its lower neighbour is in use, and every
/// free chunk ends in a footer that repeats its size.
pub open spec fn flags_ok(s: Seq<u8>, cs: Seq<int>) -> bool {
    &&& lower_in_use_at(s, cs[0])
    &&& forall|i: int|
        1 <= i < cs.len() ==> #[trigger] lower_in_use_at(s, cs[i]) == in_use_at(s, cs[i - 1])
    &&& forall|i: int|
        0 <= i < cs.len() && !in_use_at(s, cs[i]) ==> word_at(s, #[trigger] footer_pos(s, cs[i]))
            == size_at(s, cs[i])
}

/// Chunks `cs[i]` and `cs[i + 1]` are both free.
pub open spec fn both_free(s: Seq<u8>, cs: Seq<int>, i: int) -> bool {
    !in_use_at(s, cs[i]) && !in_use_at(s, cs[i + 1])
}

/// No two neighbours below the top chunk are both free, unless one of them
/// is loose.
pub open spec fn no_adjacent_free(s: Seq<u8>, cs: Seq<int>, loose: Set<int>) -> bool {
    forall|i: int|
        0 <= i < cs.len() - 2 && #[trigger] both_free(s, cs, i) ==> loose.contains(cs[i])
            || loose.contains(cs[i + 1])
}

/// Two chunk offsets are far enough from each other that neither chunk's
/// bookkeeping words overlap the other's.
pub open spec fn apart(a: int, b: int) -> bool {
    a + 32 <= b || b + 32 <= a
}

/// The chunks of `fl` form a doubly linked list that ends in `top`.
pub open spec fn list_ok(s: Seq<u8>, fl: Seq<int>, top: int) -> bool {
    &&& fl.len() >= 1
    &&& fl[fl.len() - 1] == top
    &&& forall|j: int|
        0 <= j < fl.len() ==> 768 <= #[trigger] fl[j] && fl[j] % 8 == 0 && fl[j] + 32 <= s.len()
    &&& forall|j: int, k: int|
        0 <= j < k < fl.len() ==> apart(#[trigger] fl[j], #[trigger] fl[k])
    &&& forall|j: int|
        0 <= j < fl.len() ==> #[trigger] prev_at(s, fl[j]) == (if j == 0 {
            0
        } else {
            fl[j - 1]
        })
    &&& forall|j: int|
        0 <= j < fl.len() ==> #[trigger] next_at(s, fl[j]) == (if j == fl.len() - 1 {
            0
        } else {
            fl[j + 1]
        })
}

/// The bin a free chunk belongs to: the top chunk counts as infinitely
/// large, every other chunk goes by the user size it can serve.
pub open spec fn bin_of(s: Seq<u8>, c: int, top: int) -> int {
    if c == top {
        95
    } else {
        bin_index((size_at(s, c) - 8) as nat) as int
    }
}

/// Every non-empty bin heads at a list member of its own size class, and
/// the last bin heads at the top chunk.
pub open spec fn bins_ok(s: Seq<u8>, fl: Seq<int>, top: int) -> bool {
    &&& bin_at(s, 95) == top
    &&& forall|b: int|
        3 <= b < 96 && #[trigger] bin_at(s, b) != 0 ==> fl.contains(bin_at(s, b)) && bin_of(
            s,
            bin_at(s, b),
            top,
        ) == b
}

/// List members are free chunks, and every free chunk is on the list or
/// loose.
pub open spec fn linked_ok(s: Seq<u8>, cs: Seq<int>, fl: Seq<int>, loose: Set<int>) -> bool {
    &&& forall|j: int| 0 <= j < fl.len() ==> cs.contains(#[trigger] fl[j]) && !in_use_at(s, fl[j])
    &&& forall|i: int|
        0 <= i < cs.len() && !in_use_at(s, #[trigger] cs[i]) ==> fl.contains(cs[i])
            || loose.contains(cs[i])
    &&& forall|c: int| #[trigger] loose.contains(c) ==> cs.contains(c) && !fl.contains(c)
}

/// List members are free and their sizes are sane.
pub open spec fn list_sizes(s: Seq<u8>, fl: Seq<int>) -> bool {
    forall|j: int|
        0 <= j < fl.len() ==> !in_use_at(s, #[trigger] fl[j]) && 32 <= size_at(s, fl[j])
            <= s.len()
}

/// Whether `x` is the offset of a word that list maintenance may rewrite:
/// a bin head, or a link word of a list member.
pub open spec fn list_word(fl: Seq<int>, x: int) -> bool {
    24 <= x < 768 || exists|j: int|
        0 <= j < fl.len() && (x == #[trigger] fl[j] + 8 || x == fl[j] + 16)
}

/// The set of all list words of `fl`.
pub open spec fn list_words(fl: Seq<int>) -> Set<int> {
    Set::new(|x: int| list_word(fl, x))
}

/// The bytes `s` have the shape `m`: all structural invariants that hold
/// also in the middle of an operation.
pub open spec fn shape(s: Seq<u8>, m: Model) -> bool {
    &&& s.len() <= usize::MAX
    &&& s.len() % 8 == 0
    &&& tiled(s, m.cs, m.end)
    &&& flags_ok(s, m.cs)
    &&& no_adjacent_free(s, m.cs, m.loose)
    &&& list_ok(s, m.fl, m.top)
    &&& bins_ok(s, m.fl, m.top)
    &&& linked_ok(s, m.cs, m.fl, m.loose)
}

/// The shape is at rest: no chunk is loose, the chunk region ends where the
/// space ends, and the list closes with the last chunk.
pub open spec fn settled(s: Seq<u8>, m: Model) -> bool {
    &&& s[0] == 0x82
    &&& shape(s, m)
    &&& m.loose == Set::<int>::empty()
    &&& m.end == s.len()
    &&& m.top == s.len() - 32
}

/// The meta word of every chunk is the same in `s` and `t`, and so is the
/// footer of every free chunk.
pub open spec fn metas_same(s: Seq<u8>, t: Seq<u8>, cs: Seq<int>) -> bool {
    &&& forall|i: int| 0 <= i < cs.len() ==> word_at(t, #[trigger] cs[i]) == word_at(s, cs[i])
    &&& forall|i: int|
        0 <= i < cs.len() && !in_use_at(s, cs[i]) ==> word_at(t, #[trigger] footer_pos(s, cs[i]))
            == word_at(s, footer_pos(s, cs[i]))
}

/// The bytes a user may hold in the chunk at `c` are the same in `s` and `t`.
pub open spec fn payload_same(s: Seq<u8>, t: Seq<u8>, c: int) -> bool {
    forall|k: int| c + 8 <= k < c + size_at(s, c) ==> #[trigger] t[k] == s[k]
}

/// Every chunk of `cs` that is in use in `s`, other than `except`, has the
/// same user bytes in `t`.
pub open spec fn live_kept(s: Seq<u8>, t: Seq<u8>, cs: Seq<int>, except: int) -> bool {
    forall|i: int|
        0 <= i < cs.len() && in_use_at(s, #[trigger] cs[i]) && cs[i] != except ==> payload_same(
            s,
            t,
            cs[i],
        )
}

/// The list words of `members` together with every word at or above `end`.
pub open spec fn far_words(members: Seq<int>, end: int) -> Set<int> {
    Set::new(|x: int| list_word(members, x) || x >= end)
}

/// A change confined to the list words is confined to `far_words` too.
pub(crate) proof fn lemma_far_words(s: Seq<u8>, t: Seq<u8>, members: Seq<int>, end: int)
    requires
        modified_only(s, t, list_words(members)),
    ensures
        modified_only(s, t, far_words(members, end)),
{
    assert forall|k: int|
        0 <= k < s.len() && !far_words(members, end).contains(word_start(k)) implies #[trigger] t[k]
        == s[k] by {
        assert(!list_words(members).contains(word_start(k)));
    }
}

/// Rewriting list words, and words above the chunk region, leaves the
/// tiling, the flags and all user bytes as they were.
pub(crate) proof fn lemma_list_frame(s: Seq<u8>, t: Seq<u8>, cs: Seq<int>, end: int, members: Seq<int>)
    requires
        tiled(s, cs, end),
        flags_ok(s, cs),
        modified_only(s, t, far_words(members, end)),
        forall|j: int|
            0 <= j < members.len() ==> cs.contains(#[trigger] members[j]) && !in_use_at(
                s,
                members[j],
            ),
    ensures
        metas_same(s, t, cs),
        tiled(t, cs, end),
        flags_ok(t, cs),
        t[0] == s[0],
        live_kept(s, t, cs, -1),
{
    let xs = far_words(members, end);
    assert forall|i: int| 0 <= i < cs.len() implies word_at(t, #[trigger] cs[i]) == word_at(
        s,
        cs[i],
    ) by {
        lemma_chunk_end(s, cs, end, i);
        if xs.contains(cs[i]) {
            let j = choose|j: int|
                0 <= j < members.len() && (cs[i] == #[trigger] members[j] + 8 || cs[i]
                    == members[j] + 16);
            assert(cs.contains(members[j]));
            let i2 = index_of(cs, members[j]);
            lemma_owner_unique(s, cs, end, i, i2, cs[i]);
        }
        lemma_modified_word(s, t, xs, cs[i]);
    }
    assert forall|i: int| 0 <= i < cs.len() && !in_use_at(s, cs[i]) implies word_at(
        t,
        #[trigger] footer_pos(s, cs[i]),
    ) == word_at(s, footer_pos(s, cs[i])) by {
        lemma_chunk_end(s, cs, end, i);
        let x = footer_pos(s, cs[i]);
        if xs.contains(x) {
            let j = choose|j: int|
                0 <= j < members.len() && (x == #[trigger] members[j] + 8 || x == members[j]
                    + 16);
            assert(cs.contains(members[j]));
            let i2 = index_of(cs, members[j]);
            lemma_owner_unique(s, cs, end, i, i2, x);
        }
        lemma_modified_word(s, t, xs, x);
    }
    assert forall|i: int| 0 <= i < cs.len() implies size_at(t, #[trigger] cs[i]) >= 32 by {
        assert(word_at(t, cs[i]) == word_at(s, cs[i]));
    }
    assert forall|i: int| 0 <= i < cs.len() - 1 implies cs[i + 1] == #[trigger] next_start(
        t,
        cs,
        i,
    ) by {
        assert(word_at(t, cs[i]) == word_at(s, cs[i]));
        assert(cs[i + 1] == next_start(s, cs, i));
    }
    assert(word_at(t, cs[cs.len() - 1]) == word_at(s, cs[cs.len() - 1]));
    assert(tiled(t, cs, end));
    assert(word_at(t, cs[0]) == word_at(s, cs[0]));
    assert forall|i: int| 1 <= i < cs.len() implies #[trigger] lower_in_use_at(t, cs[i])
        == in_use_at(t, cs[i - 1]) by {
        assert(word_at(t, cs[i]) == word_at(s, cs[i]));
        assert(word_at(t, cs[i - 1]) == word_at(s, cs[i - 1]));
        assert(lower_in_use_at(s, cs[i]) == in_use_at(s, cs[i - 1]));
    }
    assert forall|i: int| 0 <= i < cs.len() && !in_use_at(t, cs[i]) implies word_at(
        t,
        #[trigger] footer_pos(t, cs[i]),
    ) == size_at(t, cs[i]) by {
        assert(word_at(t, cs[i]) == word_at(s, cs[i]));
        assert(footer_pos(t, cs[i]) == footer_pos(s, cs[i]));
        assert(word_at(s, footer_pos(s, cs[i])) == size_at(s, cs[i]));
    }
    assert(word_start(0) == 0);
    assert(!xs.contains(0)) by {
        if xs.contains(0) {
            let j = choose|j: int|
                0 <= j < members.len() && (0 == #[trigger] members[j] + 8 || 0 == members[j]
                    + 16);
            assert(cs.contains(members[j]));
        }
    }
    assert forall|i: int|
        0 <= i < cs.len() && in_use_at(s, #[trigger] cs[i]) && cs[i] != -1 implies payload_same(
        s,
        t,
        cs[i],
    ) by {
        lemma_chunk_end(s, cs, end, i);
        assert forall|k: int| cs[i] + 8 <= k < cs[i] + size_at(s, cs[i]) implies #[trigger] t[k]
            == s[k] by {
            let x = word_start(k);
            if xs.contains(x) {
                let j = choose|j: int|
                    0 <= j < members.len() && (x == #[trigger] members[j] + 8 || x
                        == members[j] + 16);
                assert(cs.contains(members[j]));
                let i2 = index_of(cs, members[j]);
                lemma_owner_unique(s, cs, end, i, i2, x);
            }
        }
    }
}

/// Chunks are laid out in strictly increasing, non-overlapping order.
pub(crate) proof fn lemma_ordered(s: Seq<u8>, cs: Seq<int>, end: int, i: int, j: int)
    requires
        tiled(s, cs, end),
        0 <= i < j < cs.len(),
    ensures
        cs[i] + size_at(s, cs[i]) <= cs[j],
    decreases j - i,
{
    if i + 1 == j {
        assert(cs[i + 1] == next_start(s, cs, i));
    } else {
        lemma_ordered(s, cs, end, i, j - 1);
        assert(cs[j - 1 + 1] == next_start(s, cs, j - 1));
    }
}

/// A position inside a chunk belongs to no other chunk.
pub(crate) proof fn lemma_owner_unique(s: Seq<u8>, cs: Seq<int>, end: int, i: int, j: int, x: int)
    requires
        tiled(s, cs, end),
        0 <= i < cs.len(),
        0 <= j < cs.len(),
        cs[i] <= x < cs[i] + size_at(s, cs[i]),
        cs[j] <= x < cs[j] + size_at(s, cs[j]),
    ensures
        i == j,
{
    if i < j {
        lemma_ordered(s, cs, end, i, j);
    } else if j < i {
        lemma_ordered(s, cs, end, j, i);
    }
}

/// Every chunk ends inside the region.
pub(crate) proof fn lemma_chunk_end(s: Seq<u8>, cs: Seq<int>, end: int, i: int)
    requires
        tiled(s, cs, end),
        0 <= i < cs.len(),
    ensures
        cs[i] + size_at(s, cs[i]) <= end,
        i < cs.len() - 1 ==> cs[i] + size_at(s, cs[i]) <= end - 32,
        size_at(s, cs[i]) % 8 == 0,
{
    crate::linked::layout::lemma_meta_size(word_at(s, cs[i]));
    if i < cs.len() - 1 {
        assert(cs[i + 1] == next_start(s, cs, i));
    }
}

/// The index of the chunk that starts at `c`.
pub open spec fn index_of(cs: Seq<int>, c: int) -> int {
    choose|i: int| 0 <= i < cs.len() && cs[i] == c
}

/// Removing one element keeps every other element in the sequence.
pub(crate) proof fn lemma_remove_contains(fl: Seq<int>, k: int, x: int)
    requires
        0 <= k < fl.len(),
        fl.contains(x),
        x != fl[k],
    ensures
        fl.remove(k).contains(x),
{
    let j = choose|j: int| 0 <= j < fl.len() && fl[j] == x;
    if j < k {
        assert(fl.remove(k)[j] == x);
    } else {
        assert(fl.remove(k)[j - 1] == x);
    }
}

/// What is in a sequence after a removal was in it before.
pub(crate) proof fn lemma_remove_contained(fl: Seq<int>, k: int, x: int)
    requires
        0 <= k < fl.len(),
        fl.remove(k).contains(x),
    ensures
        fl.contains(x),
{
    let j = choose|j: int| 0 <= j < fl.remove(k).len() && fl.remove(k)[j] == x;
    if j < k {
        assert(fl[j] == x);
    } else {
        assert(fl[j + 1] == x);
    }
}

/// Inserting an element keeps every element and adds the new one.
pub(crate) proof fn lemma_insert_contains(fl: Seq<int>, k: int, c: int, x: int)
    requires
        0 <= k <= fl.len(),
    ensures
        fl.insert(k, c).contains(x) <==> (fl.contains(x) || x == c),
{
    let g = fl.insert(k, c);
    if fl.contains(x) {
        let j = choose|j: int| 0 <= j < fl.len() && fl[j] == x;
        if j < k {
            assert(g[j] == x);
        } else {
            assert(g[j + 1] == x);
        }
    }
    if x == c {
        assert(g[k] == x);
    }
    if g.contains(x) {
        let j = choose|j: int| 0 <= j < g.len() && g[j] == x;
        if j < k {
            assert(fl[j] == x);
        } else if j > k {
            assert(fl[j - 1] == x);
        }
    }
}

/// List maintenance never rewrites the meta word of a list member.
pub(crate) proof fn lemma_list_metas(s: Seq<u8>, t: Seq<u8>, fl: Seq<int>, top: int, j: int)
    requires
        list_ok(s, fl, top),
        modified_only(s, t, list_words(fl)),
        0 <= j < fl.len(),
    ensures
        word_at(t, fl[j]) == word_at(s, fl[j]),
{
    let xs = list_words(fl);
    let x = fl[j];
    if xs.contains(x) {
        let i = choose|i: int|
            0 <= i < fl.len() && (x == #[trigger] fl[i] + 8 || x == fl[i] + 16);
        if i < j {
            assert(apart(fl[i], fl[j]));
        } else if j < i {
            assert(apart(fl[j], fl[i]));
        }
    }
    lemma_modified_word(s, t, xs, x);
}

/// Every chunk that is in use in `s`, other than `except`, is still a chunk
/// in use in `t`, of the same size and with the same user bytes.
pub open spec fn carried(s: Seq<u8>, cs: Seq<int>, t: Seq<u8>, cs2: Seq<int>, except: int) -> bool {
    forall|x: int|
        #[trigger] cs.contains(x) && in_use_at(s, x) && x != except ==> cs2.contains(x)
            && in_use_at(t, x) && size_at(t, x) == size_at(s, x) && payload_same(s, t, x)
}

/// Every chunk that is in use in `t`, other than `except`, was a chunk in
/// use in `s`.
pub open spec fn fresh_only(s: Seq<u8>, cs: Seq<int>, t: Seq<u8>, cs2: Seq<int>,
    except: int) -> bool {
    forall|x: int|
        #[trigger] cs2.contains(x) && in_use_at(t, x) && x != except ==> cs.contains(x)
            && in_use_at(s, x)
}

/// Nothing changed carries everything.
pub(crate) proof fn lemma_carried_refl(s: Seq<u8>, cs: Seq<int>, except: int)
    ensures
        carried(s, cs, s, cs, except),
        fresh_only(s, cs, s, cs, except),
{
}

/// What is carried over two steps is carried over both together.
pub(crate) proof fn lemma_carried_trans(
    s: Seq<u8>,
    cs: Seq<int>,
    t: Seq<u8>,
    cs2: Seq<int>,
    u: Seq<u8>,
    cs3: Seq<int>,
    except: int,
)
    requires
        carried(s, cs, t, cs2, except),
        carried(t, cs2, u, cs3, except),
        fresh_only(s, cs, t, cs2, except),
        fresh_only(t, cs2, u, cs3, except),
    ensures
        carried(s, cs, u, cs3, except),
        fresh_only(s, cs, u, cs3, except),
{
    assert forall|x: int| #[trigger] cs.contains(x) && in_use_at(s, x) && x != except
        implies cs3.contains(
        x,
    ) && in_use_at(u, x) && size_at(u, x) == size_at(s, x) && payload_same(s, u, x) by {
        assert(cs2.contains(x));
        assert(payload_same(s, t, x));
        assert(payload_same(t, u, x));
        assert forall|k: int| x + 8 <= k < x + size_at(s, x) implies #[trigger] u[k] == s[k] by {
            assert(t[k] == s[k]);
        }
    }
    assert forall|x: int| #[trigger] cs3.contains(x) && in_use_at(u, x) && x != except
        implies cs.contains(
        x,
    ) && in_use_at(s, x) by {
        assert(cs2.contains(x));
    }
}

/// A step that keeps the chunks, their flags and sizes, and the user bytes
/// of those in use, carries everything.
pub(crate) proof fn lemma_carried_same(s: Seq<u8>, t: Seq<u8>, cs: Seq<int>, except: int)
    requires
        forall|j: int|
            0 <= j < cs.len() && cs[j] != except ==> size_at(t, #[trigger] cs[j]) == size_at(
                s,
                cs[j],
            ) && in_use_at(t, cs[j]) == in_use_at(s, cs[j]) && (in_use_at(s, cs[j])
                ==> payload_same(s, t, cs[j])),
    ensures
        carried(s, cs, t, cs, except),
        fresh_only(s, cs, t, cs, except),
{
    assert forall|x: int| #[trigger] cs.contains(x) && in_use_at(s, x) && x != except
        implies cs.contains(
        x,
    ) && in_use_at(t, x) && size_at(t, x) == size_at(s, x) && payload_same(s, t, x) by {
        let j = index_of(cs, x);
        assert(cs[j] == x);
    }
    assert forall|x: int| #[trigger] cs.contains(x) && in_use_at(t, x) && x != except
        implies cs.contains(
        x,
    ) && in_use_at(s, x) by {
        let j = index_of(cs, x);
        assert(cs[j] == x);
    }
}

/// Two tilings of the same bytes agree as far as both reach.
pub(crate) proof fn lemma_same_prefix(s: Seq<u8>, cs1: Seq<int>, cs2: Seq<int>, end: int, i: int)
    requires
        tiled(s, cs1, end),
        tiled(s, cs2, end),
        0 <= i < cs1.len(),
        i < cs2.len(),
    ensures
        cs1[i] == cs2[i],
    decreases i,
{
    if i > 0 {
        lemma_same_prefix(s, cs1, cs2, end, i - 1);
        assert(cs1[i - 1 + 1] == next_start(s, cs1, i - 1));
        assert(cs2[i - 1 + 1] == next_start(s, cs2, i - 1));
    }
}

/// The bytes determine the tiling.
pub(crate) proof fn lemma_unique_chunks(s: Seq<u8>, cs1: Seq<int>, cs2: Seq<int>, end: int)
    requires
        tiled(s, cs1, end),
        tiled(s, cs2, end),
    ensures
        cs1 == cs2,
{
    let n1 = cs1.len() as int;
    let n2 = cs2.len() as int;
    if n1 < n2 {
        lemma_same_prefix(s, cs1, cs2, end, n1 - 1);
        lemma_ordered(s, cs2, end, n1 - 1, n2 - 1);
    } else if n2 < n1 {
        lemma_same_prefix(s, cs1, cs2, end, n2 - 1);
        lemma_ordered(s, cs1, end, n2 - 1, n1 - 1);
    }
    assert forall|i: int| 0 <= i < n1 implies cs1[i] == cs2[i] by {
        lemma_same_prefix(s, cs1, cs2, end, i);
    }
    assert(cs1 =~= cs2);
}

/// Two lists over the same bytes agree from their common end backwards.
pub(crate) proof fn lemma_same_suffix(s: Seq<u8>, fl1: Seq<int>, fl2: Seq<int>, top: int, k: int)
    requires
        list_ok(s, fl1, top),
        list_ok(s, fl2, top),
        0 <= k < fl1.len(),
        k < fl2.len(),
    ensures
        fl1[fl1.len() - 1 - k] == fl2[fl2.len() - 1 - k],
    decreases k,
{
    if k > 0 {
        lemma_same_suffix(s, fl1, fl2, top, k - 1);
        let a = fl1.len() - k;
        let b = fl2.len() - k;
        assert(prev_at(s, fl1[a]) == fl1[a - 1]);
        assert(prev_at(s, fl2[b]) == fl2[b - 1]);
    }
}

/// The bytes determine the free list.
pub(crate) proof fn lemma_unique_list(s: Seq<u8>, fl1: Seq<int>, fl2: Seq<int>, top: int)
    requires
        list_ok(s, fl1, top),
        list_ok(s, fl2, top),
    ensures
        fl1 == fl2,
{
    let n1 = fl1.len() as int;
    let n2 = fl2.len() as int;
    if n1 < n2 {
        lemma_same_suffix(s, fl1, fl2, top, n1 - 1);
        assert(prev_at(s, fl1[0]) == 0);
        assert(prev_at(s, fl2[n2 - n1]) == fl2[n2 - n1 - 1]);
        assert(fl2[n2 - n1 - 1] >= 768);
    } else if n2 < n1 {
        lemma_same_suffix(s, fl1, fl2, top, n2 - 1);
        assert(prev_at(s, fl2[0]) == 0);
        assert(prev_at(s, fl1[n1 - n2]) == fl1[n1 - n2 - 1]);
        assert(fl1[n1 - n2 - 1] >= 768);
    }
    assert forall|i: int| 0 <= i < n1 implies fl1[i] == fl2[i] by {
        lemma_same_suffix(s, fl1, fl2, top, n1 - 1 - i);
    }
    assert(fl1 =~= fl2);
}

/// The bytes are those of an initialised space at rest: some shape fits
/// them.
pub closed spec fn wf(s: Seq<u8>) -> bool {
    exists|m: Model| settled(s, m)
}

/// The shape of a well-formed space.
pub closed spec fn model_of(s: Seq<u8>) -> Model {
    choose|m: Model| settled(s, m)
}

/// The offsets of the chunks of a well-formed space in address order. The
/// last one is the top chunk.
pub open spec fn chunks(s: Seq<u8>) -> Seq<int> {
    model_of(s).cs
}

/// The offsets of the free chunks of a well-formed space in the order of
/// the free list. The last one is the top chunk.
pub open spec fn free_list(s: Seq<u8>) -> Seq<int> {
    model_of(s).fl
}

/// Whether `c` is the offset of a chunk that is handed out to a user.
pub open spec fn live(s: Seq<u8>, c: int) -> bool {
    chunks(s).contains(c) && in_use_at(s, c)
}

/// A space that some shape fits is well-formed, and the shape is the one
/// its bytes determine.
pub(crate) proof fn lemma_model(s: Seq<u8>, m: Model)
    requires
        settled(s, m),
    ensures
        wf(s),
        settled(s, model_of(s)),
        chunks(s) == m.cs,
        free_list(s) == m.fl,
{
    let m2 = model_of(s);
    lemma_unique_chunks(s, m.cs, m2.cs, s.len() as int);
    lemma_unique_list(s, m.fl, m2.fl, s.len() - 32);
}

/// A well-formed space has the shape its bytes determine.
pub(crate) proof fn lemma_wf(s: Seq<u8>)
    requires
        wf(s),
    ensures
        settled(s, model_of(s)),
{
}

} // verus!
