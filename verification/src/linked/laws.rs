//! What holds of every well-formed space, and of every allocation across
//! the operations on other allocations.
use crate::linked::chunk::owner;
use crate::linked::in_space::{allocated, lemma_owner_same, newcomers, survivors};
use crate::linked::layout::{
    bin_at, footer_pos, in_use_at, lower_in_use_at, next_at, prev_at, size_at,
};
use crate::linked::model::{
    apart, bin_of, both_free, chunks, free_list, index_of, lemma_chunk_end, lemma_ordered,
    lemma_owner_unique, lemma_wf, live, model_of, next_start, payload_same, wf,
};
use crate::words::word_at;
use vstd::prelude::*;

verus! {

/// The chunks of a well-formed space tile it from behind the bin table to
/// its end: the first chunk starts at offset 768, every chunk is a
/// multiple of 8 and at least 32 bytes long and starts where the one
/// before it ends, and the last chunk is the top chunk, free and 32 bytes
/// long, at the end of the space.
pub proof fn lemma_tiling(s: Seq<u8>, i: int)
    requires
        wf(s),
        0 <= i < chunks(s).len(),
    ensures
        s.len() % 8 == 0,
        s.len() >= 768 + 64,
        s[0] == 0x82,
        chunks(s).len() >= 2,
        chunks(s)[0] == 768,
        chunks(s)[chunks(s).len() - 1] == s.len() - 32,
        size_at(s, s.len() - 32) == 32,
        !in_use_at(s, s.len() - 32),
        size_at(s, chunks(s)[i]) >= 32,
        size_at(s, chunks(s)[i]) % 8 == 0,
        chunks(s)[i] % 8 == 0,
        i + 1 < chunks(s).len() ==> chunks(s)[i + 1] == chunks(s)[i] + size_at(s, chunks(s)[i]),
{
    lemma_wf(s);
    let m = model_of(s);
    lemma_chunk_end(s, m.cs, m.end, i);
    if i + 1 < m.cs.len() {
        assert(m.cs[i + 1] == next_start(s, m.cs, i));
    }
}

/// No two neighbours are both free, the top chunk and the chunk below it
/// aside.
pub proof fn lemma_no_adjacent_free(s: Seq<u8>, i: int)
    requires
        wf(s),
        0 <= i < chunks(s).len() - 2,
    ensures
        in_use_at(s, chunks(s)[i]) || in_use_at(s, chunks(s)[i + 1]),
{
    lemma_wf(s);
    let m = model_of(s);
    if !in_use_at(s, m.cs[i]) && !in_use_at(s, m.cs[i + 1]) {
        assert(both_free(s, m.cs, i));
    }
}

/// The footer of every free chunk repeats the chunk's size.
pub proof fn lemma_footer(s: Seq<u8>, i: int)
    requires
        wf(s),
        0 <= i < chunks(s).len(),
        !in_use_at(s, chunks(s)[i]),
    ensures
        word_at(s, chunks(s)[i] + size_at(s, chunks(s)[i]) - 8) == size_at(s, chunks(s)[i]),
{
    lemma_wf(s);
    let m = model_of(s);
    assert(word_at(s, footer_pos(s, m.cs[i])) == size_at(s, m.cs[i]));
}

/// The LOWER_IN_USE flag of every chunk but the first equals the IN_USE
/// flag of the chunk before it. The first chunk's flag is set.
pub proof fn lemma_lower_flag(s: Seq<u8>, i: int)
    requires
        wf(s),
        0 <= i < chunks(s).len(),
    ensures
        i == 0 ==> lower_in_use_at(s, chunks(s)[i]),
        i > 0 ==> lower_in_use_at(s, chunks(s)[i]) == in_use_at(s, chunks(s)[i - 1]),
{
    lemma_wf(s);
    let m = model_of(s);
    if i > 0 {
        assert(lower_in_use_at(s, m.cs[i]) == in_use_at(s, m.cs[i - 1]));
    }
}

/// The free list of a well-formed space holds exactly its free chunks,
/// each once, doubly linked, with the top chunk last.
pub proof fn lemma_free_list(s: Seq<u8>, j: int)
    requires
        wf(s),
        0 <= j < free_list(s).len(),
    ensures
        free_list(s)[free_list(s).len() - 1] == s.len() - 32,
        chunks(s).contains(free_list(s)[j]),
        !in_use_at(s, free_list(s)[j]),
        forall|k: int| 0 <= k < free_list(s).len() && k != j ==> free_list(s)[k] != free_list(s)[j],
        forall|c: int| chunks(s).contains(c) && !in_use_at(s, c) ==> free_list(s).contains(c),
        prev_at(s, free_list(s)[j]) == (if j == 0 {
            0
        } else {
            free_list(s)[j - 1]
        }),
        next_at(s, free_list(s)[j]) == (if j == free_list(s).len() - 1 {
            0
        } else {
            free_list(s)[j + 1]
        }),
{
    lemma_wf(s);
    let m = model_of(s);
    assert forall|k: int| 0 <= k < m.fl.len() && k != j implies m.fl[k] != m.fl[j] by {
        if k < j {
            assert(apart(m.fl[k], m.fl[j]));
        } else {
            assert(apart(m.fl[j], m.fl[k]));
        }
    }
    assert forall|c: int| m.cs.contains(c) && !in_use_at(s, c) implies m.fl.contains(c) by {
        let i = index_of(m.cs, c);
        assert(m.fl.contains(m.cs[i]) || m.loose.contains(m.cs[i]));
    }
    assert(prev_at(s, m.fl[j]) == (if j == 0 {
        0
    } else {
        m.fl[j - 1]
    }));
    assert(next_at(s, m.fl[j]) == (if j == m.fl.len() - 1 {
        0
    } else {
        m.fl[j + 1]
    }));
}

/// A bin that is not empty heads at a free chunk of its own size class.
/// The last bin always heads at the top chunk.
pub proof fn lemma_bins(s: Seq<u8>, b: int)
    requires
        wf(s),
        3 <= b < 96,
    ensures
        bin_at(s, 95) == s.len() - 32,
        bin_at(s, b) != 0 ==> free_list(s).contains(bin_at(s, b)) && bin_of(
            s,
            bin_at(s, b),
            s.len() - 32,
        ) == b,
{
    lemma_wf(s);
}

/// A well-formed space in which no chunk is in use looks like a space
/// that was just set up: one free chunk from behind the bin table to the
/// top chunk, and the top chunk.
pub proof fn lemma_round_trip(s: Seq<u8>)
    requires
        wf(s),
        forall|c: int| !live(s, c),
    ensures
        chunks(s) == seq![768int, s.len() - 32],
        free_list(s) == seq![768int, s.len() - 32],
        size_at(s, 768) == s.len() - 800,
{
    lemma_wf(s);
    let m = model_of(s);
    let cs = m.cs;
    let fl = m.fl;
    assert forall|i: int| 0 <= i < cs.len() implies !in_use_at(s, #[trigger] cs[i]) by {
        assert(cs.contains(cs[i]));
        assert(!live(s, cs[i]));
    }
    if cs.len() > 2 {
        assert(!in_use_at(s, cs[0]));
        assert(!in_use_at(s, cs[1]));
        assert(both_free(s, cs, 0));
    }
    assert(cs[1] == next_start(s, cs, 0));
    assert(cs =~= seq![768int, s.len() - 32]);
    // the list holds the two chunks, each once, the top chunk last
    assert(fl.contains(cs[0]) || m.loose.contains(cs[0]));
    let a = index_of(fl, cs[0]);
    let last = fl.len() - 1;
    assert(fl[last] == cs[1]);
    assert forall|j: int| 0 <= j < fl.len() implies #[trigger] fl[j] == cs[0] || fl[j] == cs[1] by {
        assert(cs.contains(fl[j]));
        let i = index_of(cs, fl[j]);
    }
    if fl.len() > 2 {
        assert(fl[0] == cs[0] || fl[0] == cs[1]);
        assert(fl[1] == cs[0] || fl[1] == cs[1]);
        assert(apart(fl[0], fl[1]));
        assert(apart(fl[0], fl[last]));
        assert(apart(fl[1], fl[last]));
    }
    if a != 0 {
        assert(apart(fl[0], fl[a]));
        assert(fl[0] == cs[1]);
        assert(last == 0 || apart(fl[0], fl[last]));
    }
    assert(fl =~= seq![768int, s.len() - 32]);
}

/// Two well-formed spaces of the same length with the same chunks in use, of
/// the same sizes, agree up to chunk `i`.
proof fn lemma_same_layout_upto(s: Seq<u8>, t: Seq<u8>, i: int)
    requires
        wf(s),
        wf(t),
        s.len() == t.len(),
        forall|c: int| live(s, c) <==> live(t, c),
        forall|c: int| live(s, c) ==> size_at(s, c) == size_at(t, c),
        0 <= i < chunks(s).len(),
    ensures
        i < chunks(t).len(),
        chunks(t)[i] == chunks(s)[i],
        size_at(t, chunks(s)[i]) == size_at(s, chunks(s)[i]),
        in_use_at(t, chunks(s)[i]) == in_use_at(s, chunks(s)[i]),
    decreases i,
{
    lemma_wf(s);
    lemma_wf(t);
    let ms = model_of(s);
    let mt = model_of(t);
    let a = ms.cs;
    let b = mt.cs;
    if i > 0 {
        lemma_same_layout_upto(s, t, i - 1);
        assert(a[i - 1 + 1] == next_start(s, a, i - 1));
        lemma_chunk_end(s, a, ms.end, i - 1);
        lemma_chunk_end(t, b, mt.end, i - 1);
        lemma_chunk_end(s, a, ms.end, i);
        // the chunk before is not the last one of `t` either
        assert(b[i - 1] != t.len() - 32);
        if i - 1 == b.len() - 1 {
            assert(b[b.len() - 1] == t.len() - 32);
        }
        assert(b[i - 1 + 1] == next_start(t, b, i - 1));
    }
    let p = a[i];
    assert(b[i] == p);
    assert(a.contains(p) && b.contains(p));
    lemma_chunk_end(s, a, ms.end, i);
    lemma_chunk_end(t, b, mt.end, i);
    assert(in_use_at(t, p) == in_use_at(s, p)) by {
        assert(live(s, p) == live(t, p));
    }
    if in_use_at(s, p) {
        assert(live(s, p));
    } else if i == a.len() - 1 {
        // the top chunk
        assert(p == s.len() - 32);
    } else {
        // a free chunk ends where the next chunk in use, or the top
        // chunk, begins, and that one is a chunk of the other space too
        let x = size_at(s, p);
        let y = size_at(t, p);
        assert(a[i + 1] == next_start(s, a, i));
        lemma_chunk_end(s, a, ms.end, i + 1);
        if i == b.len() - 1 {
            assert(b[i] == t.len() - 32);
        }
        assert(b[i + 1] == next_start(t, b, i));
        lemma_chunk_end(t, b, mt.end, i + 1);
        if x < y {
            lemma_next_is_chunk(s, t, i);
            let j = index_of(b, p + x);
            lemma_chunk_end(t, b, mt.end, j);
            lemma_owner_unique(t, b, mt.end, i, j, p + x);
        } else if y < x {
            lemma_next_is_chunk(t, s, i);
            let j = index_of(a, p + y);
            lemma_chunk_end(s, a, ms.end, j);
            lemma_owner_unique(s, a, ms.end, i, j, p + y);
        }
    }
}

/// The chunk behind a free chunk that is not the top chunk is in use or is
/// the top chunk, and so is a chunk of every well-formed space of the
/// same length with the same chunks in use.
proof fn lemma_next_is_chunk(s: Seq<u8>, t: Seq<u8>, i: int)
    requires
        wf(s),
        wf(t),
        s.len() == t.len(),
        forall|c: int| live(s, c) <==> live(t, c),
        0 <= i < chunks(s).len() - 1,
        !in_use_at(s, chunks(s)[i]),
    ensures
        chunks(t).contains(chunks(s)[i] + size_at(s, chunks(s)[i])),
{
    lemma_wf(s);
    lemma_wf(t);
    let ms = model_of(s);
    let mt = model_of(t);
    let a = ms.cs;
    assert(a[i + 1] == next_start(s, a, i));
    let q = a[i + 1];
    if i + 1 == a.len() - 1 {
        assert(mt.cs[mt.cs.len() - 1] == q);
    } else {
        if !in_use_at(s, q) {
            assert(both_free(s, a, i));
        }
        assert(a.contains(q));
        assert(live(s, q));
        assert(live(t, q));
    }
}

/// The chunks in use determine the layout: two well-formed spaces of the
/// same length with the same chunks in use, of the same sizes, have the
/// same chunks.
pub proof fn lemma_layout_determined(s: Seq<u8>, t: Seq<u8>)
    requires
        wf(s),
        wf(t),
        s.len() == t.len(),
        forall|c: int| live(s, c) <==> live(t, c),
        forall|c: int| live(s, c) ==> size_at(s, c) == size_at(t, c),
    ensures
        chunks(t) == chunks(s),
        forall|i: int|
            0 <= i < chunks(s).len() ==> size_at(t, #[trigger] chunks(s)[i]) == size_at(
                s,
                chunks(s)[i],
            ) && in_use_at(t, chunks(s)[i]) == in_use_at(s, chunks(s)[i]),
{
    lemma_wf(s);
    lemma_wf(t);
    let a = chunks(s);
    let b = chunks(t);
    assert forall|i: int| 0 <= i < a.len() implies i < b.len() && b[i] == #[trigger] a[i]
        && size_at(t, a[i]) == size_at(s, a[i]) && in_use_at(t, a[i]) == in_use_at(s, a[i]) by {
        lemma_same_layout_upto(s, t, i);
    }
    if b.len() > a.len() {
        lemma_same_layout_upto(t, s, a.len() as int);
    }
    assert(a =~= b);
}

/// A chunk in use that is not the one excepted survives: it is in use
/// afterwards, with the same size and the same user bytes.
pub proof fn lemma_survives(s: Seq<u8>, t: Seq<u8>, gone: Option<int>, c: int)
    requires
        wf(s),
        survivors(s, t, gone),
        live(s, c),
        gone != Some(c),
    ensures
        live(t, c),
        size_at(t, c) == size_at(s, c),
        payload_same(s, t, c),
{
    lemma_tiling(s, index_of(chunks(s), c));
    assert(chunks(s).contains(c));
}

/// A chunk in use that is not the one excepted was in use before.
pub proof fn lemma_was_live(s: Seq<u8>, t: Seq<u8>, new: Option<int>, c: int)
    requires
        wf(t),
        newcomers(s, t, new),
        live(t, c),
        new != Some(c),
    ensures
        live(s, c),
{
    lemma_tiling(t, index_of(chunks(t), c));
    assert(chunks(t).contains(c));
}

/// An allocation outlives every operation that lets its chunk survive: it
/// is still allocated, at the same address, with the same bytes.
pub proof fn lemma_survivor(
    s: Seq<u8>,
    t: Seq<u8>,
    base: int,
    ptr: int,
    size: int,
    align: int,
    gone: Option<int>,
)
    requires
        wf(s),
        0 <= base,
        0 <= size,
        0 < align,
        s.len() <= t.len(),
        allocated(s, base, ptr, size, align),
        survivors(s, t, gone),
        gone != Some(owner(s, base, ptr)),
    ensures
        allocated(t, base, ptr, size, align),
        owner(t, base, ptr) == owner(s, base, ptr),
        forall|k: int| 0 <= k < size ==> #[trigger] t[ptr - base + k] == s[ptr - base + k],
{
    lemma_wf(s);
    let m = model_of(s);
    let c = owner(s, base, ptr);
    let i = index_of(m.cs, c);
    lemma_chunk_end(s, m.cs, m.end, i);
    crate::linked::chunk::lemma_user_addr(base, c, align);
    assert(chunks(s).contains(c));
    lemma_survives(s, t, gone, c);
    assert(owner(s, 0, ptr - base) == c);
    lemma_owner_same(s, t, c, ptr - base);
    assert(owner(t, 0, ptr - base) == owner(t, base, ptr));
    assert forall|k: int| 0 <= k < size implies #[trigger] t[ptr - base + k] == s[ptr - base
        + k] by {}
}

/// Two allocations in different chunks do not overlap.
pub proof fn lemma_disjoint(
    s: Seq<u8>,
    base: int,
    p: int,
    p_size: int,
    p_align: int,
    q: int,
    q_size: int,
    q_align: int,
)
    requires
        wf(s),
        0 <= base,
        0 <= p_size,
        0 <= q_size,
        0 < p_align,
        0 < q_align,
        allocated(s, base, p, p_size, p_align),
        allocated(s, base, q, q_size, q_align),
        owner(s, base, p) != owner(s, base, q),
    ensures
        p + p_size <= q || q + q_size <= p,
{
    lemma_wf(s);
    let m = model_of(s);
    let c = owner(s, base, p);
    let d = owner(s, base, q);
    let i = index_of(m.cs, c);
    let j = index_of(m.cs, d);
    lemma_chunk_end(s, m.cs, m.end, i);
    lemma_chunk_end(s, m.cs, m.end, j);
    crate::linked::chunk::lemma_user_addr(base, c, p_align);
    crate::linked::chunk::lemma_user_addr(base, d, q_align);
    if i < j {
        lemma_ordered(s, m.cs, m.end, i, j);
    } else if j < i {
        lemma_ordered(s, m.cs, m.end, j, i);
    }
}

} // verus!
