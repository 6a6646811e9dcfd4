//! Taking a longer space into service: a new top chunk goes to the new end,
//! and the bytes from the old top chunk up to it become free space.
use crate::linked::chunk::{after_set, lemma_after_set, set_words, Chunk};
use crate::linked::layout::{footer_pos, in_use_at, lower_in_use_at, size_at};
use crate::linked::model::{
    apart, bins_ok, both_free, carried, far_words, flags_ok, fresh_only, index_of,
    lemma_carried_same, lemma_carried_trans, lemma_chunk_end, lemma_list_frame, lemma_ordered,
    linked_ok, list_ok, list_word, next_start, payload_same, settled, shape, tiled, Model,
};
use crate::linked::overlay::{
    attached, detached, lemma_list_sizes, lemma_same_flags, top_words, Overlay,
};
use crate::linked::reshape::{
    lemma_carried_free, lemma_index_unique, lemma_lists_kept, lemma_merge, merged,
};

use crate::words::{lemma_modified_word, lemma_word_depends, modified_only, word_at, word_start};
use crate::linked::chunk::lower_of;
use crate::linked::lists::{
    chunks_after_adopt, heads_of, lemma_listed_same, lemma_unlisted_same, listed,
    lists_after_adopt, retopped, same_sizes, unlisted,
};
use crate::linked::overlay::lists;
use vstd::prelude::*;

verus! {

/// A space that grew, or changed above its chunk region only, keeps its
/// shape, its meta words and its user bytes.
pub(crate) proof fn lemma_regrown(s: Seq<u8>, t: Seq<u8>, m: Model)
    requires
        shape(s, m),
        m.top == m.end - 32,
        s.len() <= t.len() <= usize::MAX,
        t.len() % 8 == 0,
        forall|k: int| 0 <= k < m.end ==> #[trigger] t[k] == s[k],
    ensures
        shape(t, m),
        t[0] == s[0],
        heads_of(t) == heads_of(s),
        forall|x: int| 0 <= x && x + 8 <= m.end ==> #[trigger] word_at(t, x) == word_at(s, x),
        carried(s, m.cs, t, m.cs, -1),
        fresh_only(s, m.cs, t, m.cs, -1),
{
    let cs = m.cs;
    let fl = m.fl;
    assert forall|x: int| 0 <= x && x + 8 <= m.end implies #[trigger] word_at(t, x) == word_at(
        s,
        x,
    ) by {
        assert forall|k: int| x <= k < x + 8 implies s[k] == t[k] by {}
        lemma_word_depends(s, t, x);
    }
    assert forall|i: int| 0 <= i < cs.len() implies word_at(t, #[trigger] cs[i]) == word_at(
        s,
        cs[i],
    ) by {
        lemma_chunk_end(s, cs, m.end, i);
    }
    assert forall|i: int| 0 <= i < cs.len() - 1 implies cs[i + 1] == #[trigger] next_start(
        t,
        cs,
        i,
    ) by {
        assert(cs[i + 1] == next_start(s, cs, i));
    }
    assert(word_at(t, cs[cs.len() - 1]) == word_at(s, cs[cs.len() - 1]));
    assert(word_at(t, cs[0]) == word_at(s, cs[0]));
    assert(tiled(t, cs, m.end));
    assert forall|i: int| 1 <= i < cs.len() implies #[trigger] lower_in_use_at(t, cs[i])
        == in_use_at(t, cs[i - 1]) by {
        assert(lower_in_use_at(s, cs[i]) == in_use_at(s, cs[i - 1]));
        assert(word_at(t, cs[i - 1]) == word_at(s, cs[i - 1]));
    }
    assert forall|i: int| 0 <= i < cs.len() && !in_use_at(t, cs[i]) implies word_at(
        t,
        #[trigger] footer_pos(t, cs[i]),
    ) == size_at(t, cs[i]) by {
        lemma_chunk_end(s, cs, m.end, i);
        assert(footer_pos(t, cs[i]) == footer_pos(s, cs[i]));
        assert(word_at(s, footer_pos(s, cs[i])) == size_at(s, cs[i]));
    }
    assert forall|i: int|
        0 <= i < cs.len() - 2 && #[trigger] both_free(t, cs, i) implies m.loose.contains(cs[i])
        || m.loose.contains(cs[i + 1]) by {
        assert(both_free(s, cs, i));
    }
    assert(fl[fl.len() - 1] == m.top);
    assert forall|j: int| 0 <= j < fl.len() implies #[trigger] fl[j] + 32 <= m.end by {
        assert(cs.contains(fl[j]));
        let b = index_of(cs, fl[j]);
        lemma_chunk_end(s, cs, m.end, b);
    }
    assert forall|j: int| 0 <= j < fl.len() implies #[trigger] crate::linked::layout::prev_at(
        t,
        fl[j],
    ) == (if j == 0 {
        0
    } else {
        fl[j - 1]
    }) by {
        assert(fl[j] + 32 <= m.end);
        assert(crate::linked::layout::prev_at(s, fl[j]) == (if j == 0 {
            0
        } else {
            fl[j - 1]
        }));
    }
    assert forall|j: int| 0 <= j < fl.len() implies #[trigger] crate::linked::layout::next_at(
        t,
        fl[j],
    ) == (if j == fl.len() - 1 {
        0
    } else {
        fl[j + 1]
    }) by {
        assert(fl[j] + 32 <= m.end);
        assert(crate::linked::layout::next_at(s, fl[j]) == (if j == fl.len() - 1 {
            0
        } else {
            fl[j + 1]
        }));
    }
    assert(list_ok(t, fl, m.top));
    assert forall|b: int| 3 <= b < 96 implies #[trigger] crate::linked::layout::bin_at(t, b)
        == crate::linked::layout::bin_at(s, b) by {}
    assert forall|b: int|
        3 <= b < 96 && #[trigger] crate::linked::layout::bin_at(t, b) != 0 implies fl.contains(
        crate::linked::layout::bin_at(t, b),
    ) && crate::linked::model::bin_of(t, crate::linked::layout::bin_at(t, b), m.top) == b by {
        let h = crate::linked::layout::bin_at(s, b);
        assert(fl.contains(h));
        let j = index_of(fl, h);
        assert(fl[j] + 32 <= m.end);
    }
    assert(bins_ok(t, fl, m.top));
    assert(heads_of(t) =~= heads_of(s));
    assert forall|j: int| 0 <= j < fl.len() implies cs.contains(#[trigger] fl[j]) && !in_use_at(
        t,
        fl[j],
    ) by {
        assert(fl[j] + 32 <= m.end);
    }
    assert(linked_ok(t, cs, fl, m.loose));
    assert forall|j: int| 0 <= j < cs.len() && cs[j] != -1 implies size_at(t, #[trigger] cs[j])
        == size_at(s, cs[j]) && in_use_at(t, cs[j]) == in_use_at(s, cs[j]) && (in_use_at(s, cs[j])
        ==> payload_same(s, t, cs[j])) by {
        lemma_chunk_end(s, cs, m.end, j);
    }
    lemma_carried_same(s, t, cs, -1);
}

/// The shape once the new top chunk `n` closes the list and the old top
/// chunk, now loose, spans the bytes up to it.
pub open spec fn planted(m: Model, n: int) -> Model {
    Model {
        cs: m.cs.push(n),
        fl: m.fl.update(m.fl.len() - 1, n),
        loose: set![m.top],
        end: n + 32,
        top: n,
    }
}

/// The space is in shape again once the new top chunk has taken the old
/// one's place on the list and the old one was resized to end where the
/// new one begins.
pub(crate) proof fn lemma_plant(s3: Seq<u8>, s4: Seq<u8>, s5: Seq<u8>, m: Model, n: int)
    requires
        shape(s3, m),
        m.loose == Set::<int>::empty(),
        m.top == m.end - 32,
        s3.len() == n + 32,
        s4.len() == s3.len(),
        m.end + 32 <= s3.len(),
        size_at(s3, n) == 32,
        !in_use_at(s3, n),
        word_at(s3, n + 24) == 32,
        list_ok(s4, m.fl.update(m.fl.len() - 1, n), n),
        bins_ok(s4, m.fl.update(m.fl.len() - 1, n), n),
        modified_only(s3, s4, top_words(m.fl, n)),
        s5 == after_set(s4, m.top, false, n - m.top),
    ensures
        s5.len() == s3.len(),
        s5[0] == s3[0],
        shape(s5, planted(m, n)),
        !in_use_at(s5, m.top),
        size_at(s5, m.top) == n - m.top,
        heads_of(s5) == heads_of(s4),
        lower_in_use_at(s5, m.top) == lower_in_use_at(s3, m.top),
        forall|x: int| 0 <= x && x + 8 <= m.top ==> #[trigger] word_at(s5, x) == word_at(s4, x),
        forall|j: int|
            0 <= j < m.cs.len() - 1 ==> word_at(s5, #[trigger] m.cs[j]) == word_at(s3, m.cs[j]),
        carried(s3, m.cs, s5, planted(m, n).cs, -1),
        fresh_only(s3, m.cs, s5, planted(m, n).cs, -1),
{
    let cs = m.cs;
    let fl = m.fl;
    let last = fl.len() - 1;
    let top = m.top;
    let g = n - top;
    let m2 = planted(m, n);
    let cs2 = m2.cs;
    let fl2 = m2.fl;
    let count = cs.len() as int;
    assert(cs[count - 1] == top);
    assert(fl[last] == top);
    // the list step touched list words and words above the old region only
    assert forall|j: int| 0 <= j < fl.len() implies cs.contains(#[trigger] fl[j]) && !in_use_at(
        s3,
        fl[j],
    ) by {}
    assert(modified_only(s3, s4, far_words(fl, m.end))) by {
        assert forall|k: int|
            0 <= k < s3.len() && !far_words(fl, m.end).contains(word_start(k))
                implies #[trigger] s4[k]
            == s3[k] by {
            let x = word_start(k);
            if top_words(fl, n).contains(x) {
                if fl.len() > 1 && x == fl[fl.len() - 2] + 16 {
                    assert(list_word(fl, x));
                }
            }
        }
    }
    lemma_list_frame(s3, s4, cs, m.end, fl);
    lemma_same_flags(s3, s4, cs);
    assert(word_at(s4, n) == word_at(s3, n)) by {
        lemma_modified_word(s3, s4, top_words(fl, n), n);
    }
    assert(word_at(s4, n + 24) == word_at(s3, n + 24)) by {
        lemma_modified_word(s3, s4, top_words(fl, n), n + 24);
    }
    // the resize of the old top chunk
    lemma_after_set(s4, top, false, g);
    let xs = set_words(s4, top, false, g);
    assert forall|x: int| 0 <= x && x + 8 <= top implies #[trigger] word_at(s5, x) == word_at(
        s4,
        x,
    ) by {
        assert forall|k: int| x <= k < x + 8 implies s4[k] == s5[k] by {
            assert(word_start(k) < top);
        }
        lemma_word_depends(s4, s5, x);
    }
    assert forall|j: int| 0 <= j < count - 1 implies word_at(s5, #[trigger] cs[j]) == word_at(
        s3,
        cs[j],
    ) by {
        lemma_ordered(s3, cs, m.end, j, count - 1);
        lemma_chunk_end(s3, cs, m.end, j);
        assert(word_at(s4, cs[j]) == word_at(s3, cs[j]));
        lemma_modified_word(s4, s5, xs, cs[j]);
    }
    assert(word_at(s5, n + 24) == 32) by {
        lemma_modified_word(s4, s5, xs, n + 24);
    }
    assert forall|j: int| 0 <= j < cs2.len() implies 768 <= #[trigger] cs2[j] <= m2.end - 32
        && cs2[j] % 8 == 0 && size_at(s5, cs2[j]) >= 32 by {
        if j < count {
            assert(cs2[j] == cs[j]);
            if j < count - 1 {
                assert(word_at(s5, cs[j]) == word_at(s3, cs[j]));
            }
        }
    }
    assert forall|j: int| 0 <= j < cs2.len() - 1 implies cs2[j + 1] == #[trigger] next_start(
        s5,
        cs2,
        j,
    ) by {
        if j < count - 1 {
            assert(cs2[j] == cs[j] && cs2[j + 1] == cs[j + 1]);
            assert(cs[j + 1] == next_start(s3, cs, j));
            assert(word_at(s5, cs[j]) == word_at(s3, cs[j]));
        }
    }
    assert(tiled(s5, cs2, m2.end));
    assert(lower_in_use_at(s5, cs2[0])) by {
        assert(cs2[0] == cs[0]);
        assert(word_at(s5, cs[0]) == word_at(s3, cs[0]));
    }
    assert forall|j: int| 1 <= j < cs2.len() implies #[trigger] lower_in_use_at(s5, cs2[j])
        == in_use_at(s5, cs2[j - 1]) by {
        if j < count {
            assert(cs2[j] == cs[j] && cs2[j - 1] == cs[j - 1]);
            assert(lower_in_use_at(s3, cs[j]) == in_use_at(s3, cs[j - 1]));
            assert(word_at(s5, cs[j - 1]) == word_at(s3, cs[j - 1]));
            if j < count - 1 {
                assert(word_at(s5, cs[j]) == word_at(s3, cs[j]));
            } else {
                assert(word_at(s4, cs[j]) == word_at(s3, cs[j]));
            }
        }
    }
    assert forall|j: int| 0 <= j < cs2.len() && !in_use_at(s5, cs2[j]) implies word_at(
        s5,
        #[trigger] footer_pos(s5, cs2[j]),
    ) == size_at(s5, cs2[j]) by {
        if j < count - 1 {
            assert(cs2[j] == cs[j]);
            lemma_ordered(s3, cs, m.end, j, count - 1);
            lemma_chunk_end(s3, cs, m.end, j);
            assert(word_at(s5, cs[j]) == word_at(s3, cs[j]));
            assert(word_at(s3, footer_pos(s3, cs[j])) == size_at(s3, cs[j]));
            assert(word_at(s4, footer_pos(s3, cs[j])) == word_at(s3, footer_pos(s3, cs[j])));
            lemma_modified_word(s4, s5, xs, footer_pos(s3, cs[j]));
        }
    }
    assert(flags_ok(s5, cs2));
    assert forall|j: int|
        0 <= j < cs2.len() - 2 && #[trigger] both_free(s5, cs2, j) implies m2.loose.contains(
        cs2[j],
    ) || m2.loose.contains(cs2[j + 1]) by {
        assert(cs2[j] == cs[j] && cs2[j + 1] == cs[j + 1]);
        if j + 1 < count - 1 {
            assert(word_at(s5, cs[j]) == word_at(s3, cs[j]));
            assert(word_at(s5, cs[j + 1]) == word_at(s3, cs[j + 1]));
            assert(both_free(s3, cs, j));
        }
    }
    // list and bins
    assert forall|j: int| 0 <= j < fl2.len() implies #[trigger] fl2[j] == n || fl2[j] + 32
        <= top by {
        if j < last {
            assert(fl2[j] == fl[j]);
            assert(apart(fl[j], fl[last]));
            assert(cs.contains(fl[j]));
            let b = index_of(cs, fl[j]);
            lemma_chunk_end(s3, cs, m.end, b);
        }
    }
    assert forall|x: int| xs.contains(x) implies !list_word(fl2, x) by {
        if list_word(fl2, x) {
            let j = choose|j: int|
                0 <= j < fl2.len() && (x == #[trigger] fl2[j] + 8 || x == fl2[j] + 16);
            assert(fl2[j] == n || fl2[j] + 32 <= top);
        }
    }
    assert forall|j: int| 0 <= j < fl2.len() implies size_at(s5, #[trigger] fl2[j]) == size_at(
        s4,
        fl2[j],
    ) by {
        assert(fl2[j] == n || fl2[j] + 32 <= top);
        if fl2[j] != n {
            lemma_modified_word(s4, s5, xs, fl2[j]);
        }
    }
    lemma_lists_kept(s4, s5, fl2, n, xs);
    // membership
    assert forall|j: int| 0 <= j < fl2.len() implies cs2.contains(#[trigger] fl2[j])
        && !in_use_at(s5, fl2[j]) by {
        if j < last {
            assert(fl2[j] == fl[j]);
            assert(cs.contains(fl[j]));
            let b = index_of(cs, fl[j]);
            assert(cs2[b] == cs[b]);
            assert(b != count - 1) by {
                assert(apart(fl[j], fl[last]));
            }
            assert(word_at(s5, cs[b]) == word_at(s3, cs[b]));
        } else {
            assert(cs2[count] == n);
        }
    }
    assert forall|j: int| 0 <= j < cs2.len() && !in_use_at(s5, #[trigger] cs2[j])
        implies fl2.contains(
        cs2[j],
    ) || m2.loose.contains(cs2[j]) by {
        if j < count - 1 {
            assert(cs2[j] == cs[j]);
            assert(word_at(s5, cs[j]) == word_at(s3, cs[j]));
            assert(fl.contains(cs[j]) || m.loose.contains(cs[j]));
            let a = index_of(fl, cs[j]);
            lemma_ordered(s3, cs, m.end, j, count - 1);
            assert(a != last);
            assert(fl2[a] == fl[a]);
        } else if j == count {
            assert(fl2[last] == n);
        } else {
            assert(cs2[j] == top);
        }
    }
    assert forall|x: int| #[trigger] m2.loose.contains(x) implies cs2.contains(x) && !fl2.contains(
        x,
    ) by {
        assert(cs2[count - 1] == top);
        if fl2.contains(top) {
            let j = index_of(fl2, top);
            assert(fl2[j] == n || fl2[j] + 32 <= top);
        }
    }
    assert(linked_ok(s5, cs2, fl2, m2.loose));
    assert(s5[0] == s3[0]) by {
        assert(word_start(0) == 0);
        assert(!top_words(fl, n).contains(0)) by {
            if fl.len() > 1 {
                assert(fl[fl.len() - 2] >= 768);
            }
        }
    }
    // chunks in use
    assert forall|x: int| #[trigger] cs.contains(x) && in_use_at(s3, x) && x != -1
        implies cs2.contains(
        x,
    ) && in_use_at(s5, x) && size_at(s5, x) == size_at(s3, x) && payload_same(s3, s5, x) by {
        let j = index_of(cs, x);
        assert(cs[j] == x);
        assert(j < count - 1);
        assert(cs2[j] == x);
        assert(word_at(s5, cs[j]) == word_at(s3, cs[j]));
        lemma_ordered(s3, cs, m.end, j, count - 1);
        lemma_chunk_end(s3, cs, m.end, j);
        assert(payload_same(s3, s4, cs[j]));
        assert forall|k: int| x + 8 <= k < x + size_at(s3, x) implies #[trigger] s5[k] == s3[k] by {
            assert(s4[k] == s3[k]);
            assert(!xs.contains(word_start(k)));
        }
    }
    assert forall|x: int| #[trigger] cs2.contains(x) && in_use_at(s5, x) && x != -1
        implies cs.contains(
        x,
    ) && in_use_at(s3, x) by {
        let j = index_of(cs2, x);
        assert(cs2[j] == x);
        if j < count - 1 {
            assert(cs2[j] == cs[j]);
            assert(word_at(s5, cs[j]) == word_at(s3, cs[j]));
        } else if j == count - 1 {
            assert(cs2[j] == top);
        }
    }
}

impl Overlay {
    /// Sets up a top chunk at the end of the grown space, lets it take the
    /// old top chunk's place on the list, and resizes the old top chunk to
    /// span the bytes up to it. `old_len` is the length the space had
    /// before it grew.
    pub(crate) fn plant_top(&self, mem: &mut [u8], old_len: usize, Ghost(m): Ghost<Model>) -> (r:
        (Chunk, Ghost<Model>))
        requires
            old(mem)@[0] == 0x82,
            shape(old(mem)@, m),
            m.loose == Set::<int>::empty(),
            m.end == old_len,
            m.top == old_len - 32,
            self.limit == old(mem)@.len(),
            old_len + 32 <= old(mem)@.len(),
        ensures
            final(mem)@.len() == old(mem)@.len(),
            final(mem)@[0] == 0x82,
            shape(final(mem)@, r.1@),
            r.1@ == planted(m, old(mem)@.len() - 32),
            r.0 == (Chunk { data: (old_len - 32) as usize, limit: self.limit }),
            !in_use_at(final(mem)@, old_len - 32),
            size_at(final(mem)@, old_len - 32) == old(mem)@.len() - old_len,
            carried(old(mem)@, m.cs, final(mem)@, r.1@.cs, -1),
            fresh_only(old(mem)@, m.cs, final(mem)@, r.1@.cs, -1),
            lists(final(mem)@, r.1@.fl) == retopped(
                lists(old(mem)@, m.fl),
                old(mem)@.len() - 32,
            ),
            same_sizes(old(mem)@, final(mem)@, r.1@.fl),
            lower_in_use_at(final(mem)@, old_len - 32) == lower_in_use_at(
                old(mem)@,
                old_len - 32,
            ),
            lower_of(final(mem)@, old_len - 32) == lower_of(old(mem)@, old_len - 32),
            forall|j: int|
                0 <= j < m.cs.len() - 1 ==> size_at(final(mem)@, #[trigger] m.cs[j]) == size_at(
                    old(mem)@,
                    m.cs[j],
                ),
    {
        let ghost s = mem@;
        let len = mem.len();
        let ghost n = len - 32;
        let new_top = Chunk::new(len - crate::linked::bins::MIN_SIZE, self.limit);
        new_top.set_in_use_and_size(mem, false, crate::linked::bins::MIN_SIZE);
        let ghost s1 = mem@;
        proof {
            lemma_after_set(s, n, false, 32);
        }
        new_top.set_next(mem, None);
        let ghost s2 = mem@;
        proof {
            crate::words::lemma_put_word_modified(
                s1,
                n + 16,
                crate::linked::chunk::link_word(None),
            );
            lemma_modified_word(s1, s2, set![n + 16], n);
            lemma_modified_word(s1, s2, set![n + 16], n + 24);
        }
        new_top.set_prev(mem, None);
        let ghost s3 = mem@;
        proof {
            crate::words::lemma_put_word_modified(
                s2,
                n + 8,
                crate::linked::chunk::link_word(None),
            );
            lemma_modified_word(s2, s3, set![n + 8], n);
            lemma_modified_word(s2, s3, set![n + 8], n + 24);
            assert forall|k: int| 0 <= k < m.end implies #[trigger] s3[k] == s[k] by {
                assert(word_start(k) < n);
                assert(s1[k] == s[k]);
                assert(s2[k] == s1[k]);
            }
            lemma_regrown(s, s3, m);
            lemma_list_sizes(s3, m);
            assert forall|j: int| 0 <= j < m.fl.len() implies apart(#[trigger] m.fl[j], n) by {
                assert(m.cs.contains(m.fl[j]));
                let b = index_of(m.cs, m.fl[j]);
                lemma_chunk_end(s3, m.cs, m.end, b);
            }
        }
        let top = Chunk::new(old_len - crate::linked::bins::MIN_SIZE, self.limit);
        self.update_top_chunk(mem, top, new_top, Ghost(m.fl));
        let ghost s4 = mem@;
        proof {
            assert(m.fl[m.fl.len() - 1] == m.top);
            lemma_modified_word(s3, s4, top_words(m.fl, n), m.top as int);
            assert(m.cs[m.cs.len() - 1] == m.top);
        }
        top.set_in_use_and_size(mem, false, len - old_len);
        proof {
            let t = mem@;
            lemma_plant(s3, s4, t, m, n);
            lemma_carried_trans(s, m.cs, s3, m.cs, t, planted(m, n).cs, -1);
            assert(word_at(t, m.top - 8) == word_at(s, m.top - 8)) by {
                assert(word_at(s3, m.top - 8) == word_at(s, m.top - 8));
                if top_words(m.fl, n).contains(m.top - 8) {
                    let last = m.fl.len() - 1;
                    assert(m.fl.len() > 1 && m.top - 8 == m.fl[last - 1] + 16);
                    assert(apart(m.fl[last - 1], m.fl[last]));
                }
                crate::words::lemma_modified_word(s3, s4, top_words(m.fl, n), m.top - 8);
            }
            assert forall|j: int| 0 <= j < m.cs.len() - 1 implies size_at(
                t,
                #[trigger] m.cs[j],
            ) == size_at(s, m.cs[j]) by {
                lemma_chunk_end(s, m.cs, m.end, j);
                lemma_ordered(s, m.cs, m.end, j, m.cs.len() as int - 1);
            }
            let fl2 = planted(m, n).fl;
            assert forall|j: int| 0 <= j < fl2.len() - 1 implies size_at(t, #[trigger] fl2[j])
                == size_at(s, fl2[j]) by {
                assert(fl2[j] == m.fl[j]);
                assert(m.cs.contains(m.fl[j]));
                let b = index_of(m.cs, m.fl[j]);
                assert(m.cs[b] == m.fl[j]);
                assert(apart(m.fl[j], m.fl[m.fl.len() - 1]));
            }
        }
        (top, Ghost(planted(m, n)))
    }

    /// Puts the loose old top chunk on the free list, merged with its
    /// lower neighbour where that one is free.
    pub(crate) fn settle_old_top(&self, mem: &mut [u8], top: Chunk, Ghost(m): Ghost<Model>) -> (m2:
        Ghost<Model>)
        requires
            old(mem)@[0] == 0x82,
            shape(old(mem)@, m),
            m.end == old(mem)@.len(),
            m.top == old(mem)@.len() - 32,
            m.loose == set![top.data as int],
            m.cs.len() >= 3,
            m.cs[m.cs.len() - 2] == top.data,
            !in_use_at(old(mem)@, top.data as int),
            self.limit == old(mem)@.len(),
            top.limit == self.limit,
        ensures
            final(mem)@.len() == old(mem)@.len(),
            settled(final(mem)@, m2@),
            carried(old(mem)@, m.cs, final(mem)@, m2@.cs, -1),
            fresh_only(old(mem)@, m.cs, final(mem)@, m2@.cs, -1),
            lists(final(mem)@, m2@.fl) == (if lower_in_use_at(old(mem)@, top.data as int) {
                listed(
                    old(mem)@,
                    lists(old(mem)@, m.fl),
                    top.data as int,
                    size_at(old(mem)@, top.data as int),
                )
            } else {
                listed(
                    old(mem)@,
                    unlisted(
                        old(mem)@,
                        lists(old(mem)@, m.fl),
                        lower_of(old(mem)@, top.data as int),
                    ),
                    lower_of(old(mem)@, top.data as int),
                    top.data + size_at(old(mem)@, top.data as int) - lower_of(
                        old(mem)@,
                        top.data as int,
                    ),
                )
            }),
            m2@.cs == (if lower_in_use_at(old(mem)@, top.data as int) {
                m.cs
            } else {
                m.cs.remove(m.cs.len() - 2)
            }),
            !in_use_at(final(mem)@, m2@.cs[m2@.cs.len() - 2]),
    {
        let ghost s = mem@;
        let ghost cs = m.cs;
        let ghost c = top.data as int;
        let ghost i = cs.len() - 2;
        proof {
            assert(m.loose.contains(c));
            lemma_index_unique(s, cs, m.end, i);
            lemma_chunk_end(s, cs, m.end, i);
            assert(cs[i + 1] == next_start(s, cs, i));
            assert(lower_in_use_at(s, cs[i]) == in_use_at(s, cs[i - 1]));
            lemma_chunk_end(s, cs, m.end, i - 1);
            assert(cs[i - 1 + 1] == next_start(s, cs, i - 1));
            lemma_index_unique(s, cs, m.end, i - 1);
            if !in_use_at(s, cs[i - 1]) {
                assert(word_at(s, footer_pos(s, cs[i - 1])) == size_at(s, cs[i - 1]));
                assert(m.fl.contains(cs[i - 1]) || m.loose.contains(cs[i - 1]));
                assert(m.fl[m.fl.len() - 1] == m.top);
                if i > 1 {
                    if !in_use_at(s, cs[i - 2]) {
                        assert(both_free(s, cs, i - 2));
                        lemma_index_unique(s, cs, m.end, i - 2);
                    }
                }
            }
        }
        match top.get_free_lower_chunk(mem) {
            Some(free_lower) => {
                self.detach(mem, free_lower, Ghost(m));
                let ghost s1 = mem@;
                let ghost m1 = detached(m, cs[i - 1]);
                proof {
                    lemma_same_flags(s, s1, cs);
                    assert(m1.loose.contains(cs[i - 1]));
                    assert(m1.loose.contains(c));
                    lemma_chunk_end(s1, cs, m.end, i);
                    lemma_chunk_end(s1, cs, m.end, i - 1);
                }
                free_lower.coalesce(mem, top);
                let ghost s2 = mem@;
                let ghost m2 = merged(m1, i - 1);
                proof {
                    lemma_merge(s1, m1, i - 1);
                    lemma_carried_free(s1, cs, s2, m2.cs, cs[i - 1], -1);
                    lemma_carried_trans(s, cs, s1, cs, s2, m2.cs, -1);
                    assert(m2.loose =~= set![cs[i - 1]]);
                    assert(m2.loose.contains(cs[i - 1]));
                    assert(m2.cs[i - 1] == cs[i - 1]);
                    lemma_index_unique(s2, m2.cs, m2.end, i - 1);
                    if i > 1 {
                        assert(m2.cs[i - 2] == cs[i - 2]);
                    }
                    assert(m2.cs[m2.cs.len() - 1] == cs[cs.len() - 1]);
                    lemma_ordered(s, cs, m.end, i - 1, cs.len() as int - 1);
                    assert(m2.cs =~= cs.remove(cs.len() - 2));
                    assert forall|j: int| 0 <= j < m2.fl.len() - 1 implies size_at(
                        s2,
                        #[trigger] m2.fl[j],
                    ) == size_at(s, m2.fl[j]) by {
                        assert(cs.contains(m1.fl[j]));
                        let b = index_of(cs, m1.fl[j]);
                        assert(cs[b] == m1.fl[j]);
                        assert(m1.fl.contains(m1.fl[j]));
                        assert(size_at(s2, cs[b]) == size_at(s1, cs[b]));
                    }
                    lemma_listed_same(
                        s2,
                        s,
                        lists(s2, m2.fl),
                        cs[i - 1],
                        size_at(s2, cs[i - 1]),
                    );
                }
                let k = self.attach(mem, free_lower, Ghost(merged(detached(m, cs[i - 1]), i - 1)));
                proof {
                    let m3 = attached(m2, cs[i - 1], k@);
                    lemma_carried_trans(s, cs, s2, m2.cs, mem@, m3.cs, -1);
                    assert(m3.loose =~= Set::<int>::empty());
                    lemma_same_flags(s2, mem@, m2.cs);
                    assert(m3.cs[m3.cs.len() - 2] == cs[i - 1]);
                }
                Ghost(attached(merged(detached(m, cs[i - 1]), i - 1), cs[i - 1], k@))
            },
            None => {
                proof {
                    lemma_ordered(s, cs, m.end, i, cs.len() as int - 1);
                }
                let k = self.attach(mem, top, Ghost(m));
                proof {
                    let m3 = attached(m, c, k@);
                    assert(m3.loose =~= Set::<int>::empty());
                    lemma_same_flags(s, mem@, cs);
                }
                Ghost(attached(m, c, k@))
            },
        }
    }

    /// Takes a space that grew from `old_len` bytes into service: the
    /// bytes from the old top chunk up to a new top chunk at the end become
    /// free space on the list.
    pub(crate) fn extend(&self, mem: &mut [u8], old_len: usize, Ghost(m): Ghost<Model>) -> (m2:
        Ghost<Model>)
        requires
            old(mem)@[0] == 0x82,
            shape(old(mem)@, m),
            m.loose == Set::<int>::empty(),
            m.end == old_len,
            m.top == old_len - 32,
            self.limit == old(mem)@.len(),
            old_len + 32 <= old(mem)@.len(),
        ensures
            final(mem)@.len() == old(mem)@.len(),
            settled(final(mem)@, m2@),
            carried(old(mem)@, m.cs, final(mem)@, m2@.cs, -1),
            fresh_only(old(mem)@, m.cs, final(mem)@, m2@.cs, -1),
            lists(final(mem)@, m2@.fl) == lists_after_adopt(
                old(mem)@,
                lists(old(mem)@, m.fl),
                old_len as int,
            ),
            m2@.cs == chunks_after_adopt(old(mem)@, m.cs, old_len as int),
            !in_use_at(final(mem)@, m2@.cs[m2@.cs.len() - 2]),
    {
        let ghost s = mem@;
        let (top, m1) = self.plant_top(mem, old_len, Ghost(m));
        let ghost s1 = mem@;
        proof {
            assert(m1@.cs[m.cs.len() as int - 1] == m.cs[m.cs.len() - 1]);
            let l1 = lists(s1, m1@.fl);
            let t0 = old_len - 32;
            let n = s.len() - 32;
            if lower_in_use_at(s, t0) {
                lemma_listed_same(s1, s, l1, t0, n - t0);
            } else {
                // the free chunk below the old top chunk
                let i = m.cs.len() - 1;
                assert(m.cs[i] == t0);
                assert(lower_in_use_at(s, m.cs[i]) == in_use_at(s, m.cs[i - 1]));
                lemma_chunk_end(s, m.cs, m.end, i - 1);
                assert(m.cs[i - 1 + 1] == next_start(s, m.cs, i - 1));
                assert(word_at(s, footer_pos(s, m.cs[i - 1])) == size_at(s, m.cs[i - 1]));
                let p = m.cs[i - 1];
                assert(lower_of(s, t0) == p);
                assert(m.fl.contains(p) || m.loose.contains(p));
                let k = index_of(m.fl, p);
                assert(m.fl[k] == p);
                assert(m1@.fl[k] == p);
                crate::linked::overlay::lemma_index_in(s1, m1@.fl, m1@.top, k);
                lemma_unlisted_same(s1, s, l1, p);
                let l2 = unlisted(s, l1, p);
                assert(same_sizes(s, s1, l2.fl)) by {
                    assert forall|j: int| 0 <= j < l2.fl.len() - 1 implies size_at(
                        s1,
                        #[trigger] l2.fl[j],
                    ) == size_at(s, l2.fl[j]) by {
                        let a = if j < k {
                            j
                        } else {
                            j + 1
                        };
                        assert(l2.fl[j] == l1.fl[a]);
                        assert(size_at(s1, l1.fl[a]) == size_at(s, l1.fl[a]));
                    }
                }
                lemma_listed_same(s1, s, l2, p, n - p);
                assert(m1@.cs.remove(m1@.cs.len() - 2) =~= m.cs.drop_last().push(n));
            }
        }
        let m2 = self.settle_old_top(mem, top, m1);
        proof {
            lemma_carried_trans(s, m.cs, s1, m1@.cs, mem@, m2@.cs, -1);
        }
        m2
    }
}

} // verus!
