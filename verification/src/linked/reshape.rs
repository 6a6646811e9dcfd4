//! How rewriting a chunk's meta word reshapes a space: marking a chunk as
//! in use or free, splitting a chunk in two, and merging two neighbours.
use crate::linked::chunk::{after_merge, after_set, after_split, lemma_after_set, set_words};
use crate::linked::layout::{
    bin_at, footer_pos, in_use_at, lower_in_use_at, next_at, prev_at, size_at,
};
use crate::linked::lists::heads_of;
use crate::linked::model::{
    bin_of, bins_ok, both_free, carried, flags_ok, fresh_only, index_of, lemma_carried_same,
    lemma_chunk_end, lemma_insert_contains, shape, lemma_ordered, lemma_owner_unique,
    lemma_remove_contained, lemma_remove_contains, linked_ok, list_ok, list_word, next_start,
    payload_same, tiled, Model,
};
use crate::words::{lemma_modified_trans, lemma_modified_word, modified_only, word_at, word_start};
use vstd::prelude::*;

verus! {

/// No word inside a chunk that is off the list is a list word, and neither
/// is the meta word of any chunk.
pub(crate) proof fn lemma_not_list_word(s: Seq<u8>, m: Model, a: int, x: int)
    requires
        tiled(s, m.cs, m.end),
        linked_ok(s, m.cs, m.fl, m.loose),
        0 <= a < m.cs.len(),
        m.cs[a] <= x < m.cs[a] + size_at(s, m.cs[a]),
        x == m.cs[a] || !m.fl.contains(m.cs[a]),
    ensures
        !list_word(m.fl, x),
{
    if list_word(m.fl, x) {
        let j = choose|j: int|
            0 <= j < m.fl.len() && (x == #[trigger] m.fl[j] + 8 || x == m.fl[j] + 16);
        assert(m.cs.contains(m.fl[j]));
        let b = index_of(m.cs, m.fl[j]);
        lemma_owner_unique(s, m.cs, m.end, a, b, x);
    }
}

/// A change that touches no list word and keeps the size of every list
/// member leaves the list and the bins as they were.
pub(crate) proof fn lemma_lists_kept(s: Seq<u8>, t: Seq<u8>, fl: Seq<int>, top: int, xs: Set<int>)
    requires
        list_ok(s, fl, top),
        bins_ok(s, fl, top),
        modified_only(s, t, xs),
        forall|x: int| xs.contains(x) ==> !list_word(fl, x),
        forall|j: int| 0 <= j < fl.len() ==> size_at(t, #[trigger] fl[j]) == size_at(s, fl[j]),
    ensures
        list_ok(t, fl, top),
        bins_ok(t, fl, top),
        heads_of(t) == heads_of(s),
{
    assert forall|j: int| 0 <= j < fl.len() implies #[trigger] prev_at(t, fl[j]) == (if j == 0 {
        0
    } else {
        fl[j - 1]
    }) by {
        assert(list_word(fl, fl[j] + 8));
        lemma_modified_word(s, t, xs, fl[j] + 8);
        assert(prev_at(s, fl[j]) == (if j == 0 {
            0
        } else {
            fl[j - 1]
        }));
    }
    assert forall|j: int| 0 <= j < fl.len() implies #[trigger] next_at(t, fl[j]) == (if j
        == fl.len() - 1 {
        0
    } else {
        fl[j + 1]
    }) by {
        assert(list_word(fl, fl[j] + 16));
        lemma_modified_word(s, t, xs, fl[j] + 16);
        assert(next_at(s, fl[j]) == (if j == fl.len() - 1 {
            0
        } else {
            fl[j + 1]
        }));
    }
    assert forall|b: int| 3 <= b < 96 implies #[trigger] bin_at(t, b) == bin_at(s, b) by {
        assert(list_word(fl, 8 * b));
        lemma_modified_word(s, t, xs, 8 * b);
    }
    assert forall|b: int| 3 <= b < 96 && #[trigger] bin_at(t, b) != 0 implies fl.contains(
        bin_at(t, b),
    ) && bin_of(t, bin_at(t, b), top) == b by {
        let h = bin_at(s, b);
        assert(fl.contains(h));
        let j = choose|j: int| 0 <= j < fl.len() && fl[j] == h;
        assert(size_at(t, fl[j]) == size_at(s, fl[j]));
    }
    assert(heads_of(t) =~= heads_of(s));
}

/// The shape after the chunk `cs[i]`, which is off the list, was marked as
/// in use or as free.
pub open spec fn marked(m: Model, i: int, in_use: bool) -> Model {
    Model {
        loose: if in_use {
            m.loose.remove(m.cs[i])
        } else {
            m.loose.insert(m.cs[i])
        },
        ..m
    }
}

/// Marking a chunk that is off the list keeps the space in shape. Every
/// other chunk keeps its flag and size, and every other chunk's user bytes
/// stay as they are.
pub(crate) proof fn lemma_mark(s: Seq<u8>, m: Model, i: int, in_use: bool)
    requires
        shape(s, m),
        0 <= i < m.cs.len() - 1,
        !m.fl.contains(m.cs[i]),
    ensures
        ({
            let t = after_set(s, m.cs[i], in_use, size_at(s, m.cs[i]));
            &&& t.len() == s.len()
            &&& t[0] == s[0]
            &&& heads_of(t) == heads_of(s)
            &&& shape(t, marked(m, i, in_use))
            &&& in_use_at(t, m.cs[i]) == in_use
            &&& forall|j: int|
                0 <= j < m.cs.len() ==> size_at(t, #[trigger] m.cs[j]) == size_at(s, m.cs[j])
            &&& forall|j: int|
                0 <= j < m.cs.len() && j != i ==> in_use_at(t, #[trigger] m.cs[j]) == in_use_at(
                    s,
                    m.cs[j],
                )
            &&& forall|j: int|
                0 <= j < m.cs.len() && j != i ==> payload_same(s, t, #[trigger] m.cs[j])
            &&& forall|k: int| m.cs[i] + 8 <= k < m.cs[i] + size_at(s, m.cs[i]) - 8 ==> t[k] == s[k]
            &&& carried(s, m.cs, t, m.cs, m.cs[i])
            &&& fresh_only(s, m.cs, t, m.cs, m.cs[i])
        }),
{
    let cs = m.cs;
    let c = cs[i];
    let z = size_at(s, c);
    let h = c + z;
    let t = after_set(s, c, in_use, z);
    let xs = set_words(s, c, in_use, z);
    let m2 = marked(m, i, in_use);
    lemma_chunk_end(s, cs, m.end, i);
    assert(cs[i + 1] == next_start(s, cs, i));
    lemma_after_set(s, c, in_use, z);
    // every meta word but those of `c` and its higher neighbour is untouched
    assert forall|j: int| 0 <= j < cs.len() && j != i && j != i + 1 implies word_at(
        t,
        #[trigger] cs[j],
    ) == word_at(s, cs[j]) by {
        lemma_chunk_end(s, cs, m.end, j);
        if j < i {
            lemma_ordered(s, cs, m.end, j, i);
        } else {
            lemma_ordered(s, cs, m.end, i + 1, j);
        }
        lemma_modified_word(s, t, xs, cs[j]);
    }
    assert forall|j: int| 0 <= j < cs.len() implies size_at(t, #[trigger] cs[j]) == size_at(
        s,
        cs[j],
    ) by {}
    assert forall|j: int| 0 <= j < cs.len() && j != i implies in_use_at(t, #[trigger] cs[j])
        == in_use_at(s, cs[j]) by {}
    // tiling
    assert forall|j: int| 0 <= j < cs.len() - 1 implies cs[j + 1] == #[trigger] next_start(
        t,
        cs,
        j,
    ) by {
        assert(cs[j + 1] == next_start(s, cs, j));
        assert(size_at(t, cs[j]) == size_at(s, cs[j]));
    }
    assert(size_at(t, cs[cs.len() - 1]) == size_at(s, cs[cs.len() - 1]));
    assert(in_use_at(t, cs[cs.len() - 1]) == in_use_at(s, cs[cs.len() - 1]));
    assert(tiled(t, cs, m.end));
    // flags
    assert forall|j: int| 1 <= j < cs.len() implies #[trigger] lower_in_use_at(t, cs[j])
        == in_use_at(t, cs[j - 1]) by {
        assert(lower_in_use_at(s, cs[j]) == in_use_at(s, cs[j - 1]));
        if j != i + 1 && j != i {
            assert(word_at(t, cs[j]) == word_at(s, cs[j]));
            assert(in_use_at(t, cs[j - 1]) == in_use_at(s, cs[j - 1]));
        }
    }
    assert forall|j: int| 0 <= j < cs.len() && !in_use_at(t, cs[j]) implies word_at(
        t,
        #[trigger] footer_pos(t, cs[j]),
    ) == size_at(t, cs[j]) by {
        assert(size_at(t, cs[j]) == size_at(s, cs[j]));
        if j != i {
            lemma_chunk_end(s, cs, m.end, j);
            assert(word_at(s, footer_pos(s, cs[j])) == size_at(s, cs[j]));
            if j < i {
                lemma_ordered(s, cs, m.end, j, i);
            } else {
                if j > i + 1 {
                    lemma_ordered(s, cs, m.end, i + 1, j);
                }
            }
            lemma_modified_word(s, t, xs, footer_pos(s, cs[j]));
        }
    }
    assert(flags_ok(t, cs));
    // adjacency
    assert forall|j: int| 0 <= j < cs.len() - 2 && #[trigger] both_free(t, cs, j)
        implies m2.loose.contains(
        cs[j],
    ) || m2.loose.contains(cs[j + 1]) by {
        if j != i && j + 1 != i {
            assert(both_free(s, cs, j));
            if cs[j] == c {
                lemma_owner_unique(s, cs, m.end, i, j, c);
            }
            if cs[j + 1] == c {
                lemma_owner_unique(s, cs, m.end, i, j + 1, c);
            }
        }
    }
    // list and bins
    assert forall|x: int| xs.contains(x) implies !list_word(m.fl, x) by {
        if x == c {
            lemma_not_list_word(s, m, i, x);
        } else if x == h && h < s.len() {
            lemma_chunk_end(s, cs, m.end, i + 1);
            lemma_not_list_word(s, m, i + 1, x);
        } else {
            lemma_not_list_word(s, m, i, x);
        }
    }
    assert forall|j: int| 0 <= j < m.fl.len() implies size_at(t, #[trigger] m.fl[j]) == size_at(
        s,
        m.fl[j],
    ) && in_use_at(t, m.fl[j]) == in_use_at(s, m.fl[j]) by {
        assert(cs.contains(m.fl[j]));
        let b = index_of(cs, m.fl[j]);
        assert(size_at(t, cs[b]) == size_at(s, cs[b]));
        assert(m.fl.contains(m.fl[j]));
    }
    lemma_lists_kept(s, t, m.fl, m.top, xs);
    // membership
    assert forall|j: int| 0 <= j < cs.len() && !in_use_at(t, #[trigger] cs[j])
        implies m.fl.contains(
        cs[j],
    ) || m2.loose.contains(cs[j]) by {
        if j != i {
            if cs[j] == c {
                lemma_owner_unique(s, cs, m.end, i, j, c);
            }
        }
    }
    assert forall|x: int| #[trigger] m2.loose.contains(x) implies cs.contains(x) && !m.fl.contains(
        x,
    ) by {}
    assert(linked_ok(t, cs, m.fl, m2.loose));
    // the sentinel and the user bytes
    assert(t[0] == s[0]) by {
        assert(word_start(0) == 0);
    }
    assert forall|j: int| 0 <= j < cs.len() && j != i implies payload_same(
        s,
        t,
        #[trigger] cs[j],
    ) by {
        lemma_chunk_end(s, cs, m.end, j);
        assert forall|k: int| cs[j] + 8 <= k < cs[j] + size_at(s, cs[j]) implies #[trigger] t[k]
            == s[k] by {
            let x = word_start(k);
            if j < i {
                lemma_ordered(s, cs, m.end, j, i);
            } else if j > i + 1 {
                lemma_ordered(s, cs, m.end, i + 1, j);
            }
        }
    }
    assert forall|j: int| 0 <= j < cs.len() && cs[j] != c implies size_at(t, #[trigger] cs[j])
        == size_at(s, cs[j]) && in_use_at(t, cs[j]) == in_use_at(s, cs[j]) && (in_use_at(s, cs[j])
        ==> payload_same(s, t, cs[j])) by {}
    lemma_carried_same(s, t, cs, c);
}

/// The shape after `cs[i]` was cut down to `z` bytes.
pub open spec fn splitted(m: Model, i: int, z: int) -> Model {
    Model { cs: m.cs.insert(i + 1, m.cs[i] + z), loose: m.loose.insert(m.cs[i] + z), ..m }
}

/// Splitting a chunk that is off the list keeps the space in shape. The
/// remainder is a loose free chunk; every other chunk keeps its flag, its
/// size and its user bytes, and the chunk itself keeps the user bytes that
/// still belong to it.
pub(crate) proof fn lemma_split(s: Seq<u8>, m: Model, i: int, z: int)
    requires
        shape(s, m),
        0 <= i < m.cs.len() - 1,
        !m.fl.contains(m.cs[i]),
        z % 8 == 0,
        32 <= z,
        z + 32 <= size_at(s, m.cs[i]),
    ensures
        ({
            let t = after_split(s, m.cs[i], z);
            let c = m.cs[i];
            &&& t.len() == s.len()
            &&& t[0] == s[0]
            &&& heads_of(t) == heads_of(s)
            &&& shape(t, splitted(m, i, z))
            &&& in_use_at(t, c) == in_use_at(s, c)
            &&& size_at(t, c) == z
            &&& !in_use_at(t, c + z)
            &&& size_at(t, c + z) == size_at(s, c) - z
            &&& forall|j: int|
                0 <= j < m.cs.len() && j != i ==> size_at(t, #[trigger] m.cs[j]) == size_at(
                    s,
                    m.cs[j],
                ) && in_use_at(t, m.cs[j]) == in_use_at(s, m.cs[j]) && payload_same(s, t, m.cs[j])
            &&& forall|k: int|
                c + 8 <= k < c + z && (in_use_at(s, c) || k < c + z - 8) ==> t[k] == s[k]
            &&& carried(s, m.cs, t, splitted(m, i, z).cs, c)
            &&& fresh_only(s, m.cs, t, splitted(m, i, z).cs, c)
        }),
{
    let cs = m.cs;
    let c = cs[i];
    let big = size_at(s, c);
    let u = in_use_at(s, c);
    let r = c + z;
    let rz = big - z;
    let h = c + big;
    let s1 = after_set(s, r, false, rz);
    let t = after_set(s1, c, u, z);
    let xs1 = set_words(s, r, false, rz);
    let xs2 = set_words(s1, c, u, z);
    let xs = Set::new(|x: int| x == c || x == r || x == h || x == h - 8 || (x == r - 8 && !u));
    let m2 = splitted(m, i, z);
    let cs2 = m2.cs;
    lemma_chunk_end(s, cs, m.end, i);
    lemma_chunk_end(s, cs, m.end, i + 1);
    assert(cs[i + 1] == next_start(s, cs, i));
    lemma_after_set(s, r, false, rz);
    lemma_modified_word(s, s1, xs1, c);
    lemma_after_set(s1, c, u, z);
    lemma_modified_word(s1, t, xs2, h);
    lemma_modified_word(s1, t, xs2, h - 8);
    lemma_modified_trans(s, s1, t, xs1, xs2, xs);
    assert(cs2[i] == c && cs2[i + 1] == r && cs2[i + 2] == h);
    assert forall|j: int| 0 <= j < cs.len() && j != i && j != i + 1 implies word_at(
        t,
        #[trigger] cs[j],
    ) == word_at(s, cs[j]) by {
        lemma_chunk_end(s, cs, m.end, j);
        if j < i {
            lemma_ordered(s, cs, m.end, j, i);
        } else {
            lemma_ordered(s, cs, m.end, i + 1, j);
        }
        lemma_modified_word(s, t, xs, cs[j]);
    }
    assert forall|j: int| 0 <= j < cs.len() && j != i implies size_at(t, #[trigger] cs[j])
        == size_at(s, cs[j]) && in_use_at(t, cs[j]) == in_use_at(s, cs[j]) by {}
    // tiling
    assert forall|j: int| 0 <= j < cs2.len() implies 768 <= #[trigger] cs2[j] <= m.end - 32
        && cs2[j] % 8 == 0 && size_at(t, cs2[j]) >= 32 by {
        if j <= i {
            assert(cs2[j] == cs[j]);
        } else if j > i + 1 {
            assert(cs2[j] == cs[j - 1]);
        }
    }
    assert forall|j: int| 0 <= j < cs2.len() - 1 implies cs2[j + 1] == #[trigger] next_start(
        t,
        cs2,
        j,
    ) by {
        if j < i {
            assert(cs2[j] == cs[j] && cs2[j + 1] == cs[j + 1]);
            assert(cs[j + 1] == next_start(s, cs, j));
        } else if j > i + 1 {
            assert(cs2[j] == cs[j - 1] && cs2[j + 1] == cs[j]);
            assert(cs[j - 1 + 1] == next_start(s, cs, j - 1));
        }
    }
    assert(cs2[cs2.len() - 1] == cs[cs.len() - 1]);
    assert(tiled(t, cs2, m.end));
    // flags
    assert(lower_in_use_at(t, cs2[0])) by {
        assert(cs2[0] == cs[0]);
    }
    assert forall|j: int| 1 <= j < cs2.len() implies #[trigger] lower_in_use_at(t, cs2[j])
        == in_use_at(t, cs2[j - 1]) by {
        if j <= i {
            assert(cs2[j] == cs[j] && cs2[j - 1] == cs[j - 1]);
            assert(lower_in_use_at(s, cs[j]) == in_use_at(s, cs[j - 1]));
        } else if j > i + 2 {
            assert(cs2[j] == cs[j - 1] && cs2[j - 1] == cs[j - 2]);
            assert(lower_in_use_at(s, cs[j - 1]) == in_use_at(s, cs[j - 1 - 1]));
        }
    }
    assert forall|j: int| 0 <= j < cs2.len() && !in_use_at(t, cs2[j]) implies word_at(
        t,
        #[trigger] footer_pos(t, cs2[j]),
    ) == size_at(t, cs2[j]) by {
        if j < i {
            assert(cs2[j] == cs[j]);
            lemma_chunk_end(s, cs, m.end, j);
            lemma_ordered(s, cs, m.end, j, i);
            assert(word_at(s, footer_pos(s, cs[j])) == size_at(s, cs[j]));
            lemma_modified_word(s, t, xs, footer_pos(s, cs[j]));
        } else if j > i + 1 {
            assert(cs2[j] == cs[j - 1]);
            lemma_chunk_end(s, cs, m.end, j - 1);
            if j - 1 > i + 1 {
                lemma_ordered(s, cs, m.end, i + 1, j - 1);
            }
            assert(word_at(s, footer_pos(s, cs[j - 1])) == size_at(s, cs[j - 1]));
            lemma_modified_word(s, t, xs, footer_pos(s, cs[j - 1]));
        }
    }
    assert(flags_ok(t, cs2));
    // adjacency
    assert forall|j: int|
        0 <= j < cs2.len() - 2 && #[trigger] both_free(t, cs2, j) implies m2.loose.contains(cs2[j])
        || m2.loose.contains(cs2[j + 1]) by {
        if j < i {
            assert(cs2[j] == cs[j] && cs2[j + 1] == cs[j + 1]);
            assert(both_free(s, cs, j));
        } else if j > i + 1 {
            assert(cs2[j] == cs[j - 1] && cs2[j + 1] == cs[j]);
            assert(both_free(s, cs, j - 1));
        }
    }
    // list and bins
    assert forall|x: int| xs.contains(x) implies !list_word(m.fl, x) by {
        if x == h {
            lemma_not_list_word(s, m, i + 1, x);
        } else {
            lemma_not_list_word(s, m, i, x);
        }
    }
    assert forall|j: int| 0 <= j < m.fl.len() implies size_at(t, #[trigger] m.fl[j]) == size_at(
        s,
        m.fl[j],
    ) && in_use_at(t, m.fl[j]) == in_use_at(s, m.fl[j]) by {
        assert(cs.contains(m.fl[j]));
        let b = index_of(cs, m.fl[j]);
        assert(m.fl.contains(m.fl[j]));
        assert(size_at(t, cs[b]) == size_at(s, cs[b]));
    }
    lemma_lists_kept(s, t, m.fl, m.top, xs);
    // membership
    assert(!cs.contains(r)) by {
        if cs.contains(r) {
            let b = index_of(cs, r);
            lemma_chunk_end(s, cs, m.end, b);
            lemma_owner_unique(s, cs, m.end, i, b, r);
        }
    }
    assert forall|j: int| 0 <= j < m.fl.len() implies cs2.contains(#[trigger] m.fl[j])
        && !in_use_at(t, m.fl[j]) by {
        assert(cs.contains(m.fl[j]));
        lemma_insert_contains(cs, i + 1, r, m.fl[j]);
    }
    assert forall|j: int| 0 <= j < cs2.len() && !in_use_at(t, #[trigger] cs2[j])
        implies m.fl.contains(
        cs2[j],
    ) || m2.loose.contains(cs2[j]) by {
        if j < i {
            assert(cs2[j] == cs[j]);
        } else if j == i {
            assert(cs2[j] == cs[i]);
        } else if j > i + 1 {
            assert(cs2[j] == cs[j - 1]);
        }
    }
    assert forall|x: int| #[trigger] m2.loose.contains(x) implies cs2.contains(x) && !m.fl.contains(
        x,
    ) by {
        lemma_insert_contains(cs, i + 1, r, x);
        if x == r {
            if m.fl.contains(r) {
                let j = choose|j: int| 0 <= j < m.fl.len() && m.fl[j] == r;
                assert(cs.contains(m.fl[j]));
            }
        }
    }
    assert(linked_ok(t, cs2, m.fl, m2.loose));
    assert(t[0] == s[0]) by {
        assert(word_start(0) == 0);
    }
    assert forall|j: int| 0 <= j < cs.len() && j != i implies payload_same(
        s,
        t,
        #[trigger] cs[j],
    ) by {
        lemma_chunk_end(s, cs, m.end, j);
        assert forall|k: int| cs[j] + 8 <= k < cs[j] + size_at(s, cs[j]) implies #[trigger] t[k]
            == s[k] by {
            let x = word_start(k);
            if j < i {
                lemma_ordered(s, cs, m.end, j, i);
            } else if j > i + 1 {
                lemma_ordered(s, cs, m.end, i + 1, j);
            }
        }
    }
    assert forall|k: int| c + 8 <= k < c + z && (u || k < c + z - 8) implies t[k] == s[k] by {
        let x = word_start(k);
        assert(!xs.contains(x));
    }
    assert forall|x: int| #[trigger] cs.contains(x) && in_use_at(s, x) && x != c
        implies cs2.contains(
        x,
    ) && in_use_at(t, x) && size_at(t, x) == size_at(s, x) && payload_same(s, t, x) by {
        let j = index_of(cs, x);
        assert(cs[j] == x);
        lemma_insert_contains(cs, i + 1, r, x);
    }
    assert forall|x: int| #[trigger] cs2.contains(x) && in_use_at(t, x) && x != c
        implies cs.contains(
        x,
    ) && in_use_at(s, x) by {
        lemma_insert_contains(cs, i + 1, r, x);
        let j = index_of(cs, x);
        assert(cs[j] == x);
    }
}

/// The shape after `cs[i]` swallowed `cs[i + 1]`.
pub open spec fn merged(m: Model, i: int) -> Model {
    Model { cs: m.cs.remove(i + 1), loose: m.loose.remove(m.cs[i + 1]), ..m }
}

/// Merging a chunk with a free higher neighbour, both off the list, keeps
/// the space in shape. Every other chunk keeps its flag, its size and its
/// user bytes, and so does the chunk that grew.
pub(crate) proof fn lemma_merge(s: Seq<u8>, m: Model, i: int)
    requires
        shape(s, m),
        0 <= i,
        i + 1 < m.cs.len() - 1,
        !m.fl.contains(m.cs[i]),
        !m.fl.contains(m.cs[i + 1]),
        !in_use_at(s, m.cs[i + 1]),
    ensures
        ({
            let t = after_merge(s, m.cs[i]);
            let c = m.cs[i];
            &&& t.len() == s.len()
            &&& t[0] == s[0]
            &&& heads_of(t) == heads_of(s)
            &&& shape(t, merged(m, i))
            &&& in_use_at(t, c) == in_use_at(s, c)
            &&& size_at(t, c) == size_at(s, c) + size_at(s, m.cs[i + 1])
            &&& forall|j: int|
                0 <= j < m.cs.len() && j != i && j != i + 1 ==> size_at(t, #[trigger] m.cs[j])
                    == size_at(s, m.cs[j]) && in_use_at(t, m.cs[j]) == in_use_at(s, m.cs[j])
            &&& forall|j: int|
                0 <= j < m.cs.len() && j != i + 1 ==> payload_same(s, t, #[trigger] m.cs[j])
            &&& carried(s, m.cs, t, merged(m, i).cs, c)
            &&& fresh_only(s, m.cs, t, merged(m, i).cs, c)
            &&& !merged(m, i).cs.contains(m.cs[i + 1])
            &&& forall|j: int| 0 <= j <= i ==> merged(m, i).cs[j] == m.cs[j]
            &&& forall|j: int|
                i < j < merged(m, i).cs.len() ==> #[trigger] merged(m, i).cs[j] == m.cs[j + 1]
        }),
{
    let cs = m.cs;
    let c = cs[i];
    let h = cs[i + 1];
    let u = in_use_at(s, c);
    let z = size_at(s, c) + size_at(s, h);
    let h2 = c + z;
    let t = after_set(s, c, u, z);
    let xs = set_words(s, c, u, z);
    let m2 = merged(m, i);
    let cs2 = m2.cs;
    lemma_chunk_end(s, cs, m.end, i);
    lemma_chunk_end(s, cs, m.end, i + 1);
    lemma_chunk_end(s, cs, m.end, i + 2);
    assert(cs[i + 1] == next_start(s, cs, i));
    assert(cs[i + 1 + 1] == next_start(s, cs, i + 1));
    assert(h2 == cs[i + 2]);
    lemma_after_set(s, c, u, z);
    assert(cs2[i] == c && cs2[i + 1] == h2);
    assert forall|j: int| 0 <= j < cs.len() && j != i && j != i + 2 implies word_at(
        t,
        #[trigger] cs[j],
    ) == word_at(s, cs[j]) by {
        lemma_chunk_end(s, cs, m.end, j);
        if j < i {
            lemma_ordered(s, cs, m.end, j, i);
        } else if j > i + 2 {
            lemma_ordered(s, cs, m.end, i + 2, j);
        }
        lemma_modified_word(s, t, xs, cs[j]);
    }
    assert forall|j: int| 0 <= j < cs.len() && j != i && j != i + 1 implies size_at(
        t,
        #[trigger] cs[j],
    ) == size_at(s, cs[j]) && in_use_at(t, cs[j]) == in_use_at(s, cs[j]) by {}
    // tiling
    assert forall|j: int| 0 <= j < cs2.len() implies 768 <= #[trigger] cs2[j] <= m.end - 32
        && cs2[j] % 8 == 0 && size_at(t, cs2[j]) >= 32 by {
        if j <= i {
            assert(cs2[j] == cs[j]);
        } else {
            assert(cs2[j] == cs[j + 1]);
        }
    }
    assert forall|j: int| 0 <= j < cs2.len() - 1 implies cs2[j + 1] == #[trigger] next_start(
        t,
        cs2,
        j,
    ) by {
        if j < i {
            assert(cs2[j] == cs[j] && cs2[j + 1] == cs[j + 1]);
            assert(cs[j + 1] == next_start(s, cs, j));
        } else if j > i {
            assert(cs2[j] == cs[j + 1] && cs2[j + 1] == cs[j + 2]);
            assert(cs[j + 1 + 1] == next_start(s, cs, j + 1));
        }
    }
    assert(cs2[cs2.len() - 1] == cs[cs.len() - 1]);
    assert(size_at(t, cs[cs.len() - 1]) == size_at(s, cs[cs.len() - 1]));
    assert(in_use_at(t, cs[cs.len() - 1]) == in_use_at(s, cs[cs.len() - 1]));
    assert(tiled(t, cs2, m.end));
    // flags
    assert(lower_in_use_at(t, cs2[0])) by {
        assert(cs2[0] == cs[0]);
    }
    assert forall|j: int| 1 <= j < cs2.len() implies #[trigger] lower_in_use_at(t, cs2[j])
        == in_use_at(t, cs2[j - 1]) by {
        if j <= i {
            assert(cs2[j] == cs[j] && cs2[j - 1] == cs[j - 1]);
            assert(lower_in_use_at(s, cs[j]) == in_use_at(s, cs[j - 1]));
        } else if j > i + 1 {
            assert(cs2[j] == cs[j + 1] && cs2[j - 1] == cs[j]);
            assert(lower_in_use_at(s, cs[j + 1]) == in_use_at(s, cs[j + 1 - 1]));
        }
    }
    assert forall|j: int| 0 <= j < cs2.len() && !in_use_at(t, cs2[j]) implies word_at(
        t,
        #[trigger] footer_pos(t, cs2[j]),
    ) == size_at(t, cs2[j]) by {
        if j < i {
            assert(cs2[j] == cs[j]);
            lemma_chunk_end(s, cs, m.end, j);
            lemma_ordered(s, cs, m.end, j, i);
            assert(word_at(s, footer_pos(s, cs[j])) == size_at(s, cs[j]));
            lemma_modified_word(s, t, xs, footer_pos(s, cs[j]));
        } else if j > i {
            assert(cs2[j] == cs[j + 1]);
            lemma_chunk_end(s, cs, m.end, j + 1);
            if j + 1 > i + 2 {
                lemma_ordered(s, cs, m.end, i + 2, j + 1);
            }
            assert(word_at(s, footer_pos(s, cs[j + 1])) == size_at(s, cs[j + 1]));
            lemma_modified_word(s, t, xs, footer_pos(s, cs[j + 1]));
        }
    }
    assert(flags_ok(t, cs2));
    // the swallowed chunk is no chunk any more
    assert(!cs2.contains(h)) by {
        if cs2.contains(h) {
            let b = choose|b: int| 0 <= b < cs2.len() && cs2[b] == h;
            if b <= i {
                assert(cs2[b] == cs[b]);
                lemma_owner_unique(s, cs, m.end, b, i + 1, h);
            } else {
                assert(cs2[b] == cs[b + 1]);
                lemma_chunk_end(s, cs, m.end, b + 1);
                lemma_owner_unique(s, cs, m.end, b + 1, i + 1, h);
            }
        }
    }
    // adjacency
    assert forall|j: int|
        0 <= j < cs2.len() - 2 && #[trigger] both_free(t, cs2, j) implies m2.loose.contains(cs2[j])
        || m2.loose.contains(cs2[j + 1]) by {
        if j < i {
            assert(cs2[j] == cs[j] && cs2[j + 1] == cs[j + 1]);
            assert(both_free(s, cs, j));
            assert(cs2.contains(cs2[j]) && cs2.contains(cs2[j + 1]));
        } else if j > i {
            assert(cs2[j] == cs[j + 1] && cs2[j + 1] == cs[j + 2]);
            assert(both_free(s, cs, j + 1));
            assert(cs2.contains(cs2[j]) && cs2.contains(cs2[j + 1]));
        } else {
            assert(m.fl.contains(c) || m.loose.contains(c));
            assert(cs2.contains(cs2[i]));
        }
    }
    // list and bins
    assert forall|x: int| xs.contains(x) implies !list_word(m.fl, x) by {
        if x == c {
            lemma_not_list_word(s, m, i, x);
        } else if x == h2 {
            lemma_not_list_word(s, m, i + 2, x);
        } else {
            lemma_not_list_word(s, m, i + 1, x);
        }
    }
    assert forall|j: int| 0 <= j < m.fl.len() implies size_at(t, #[trigger] m.fl[j]) == size_at(
        s,
        m.fl[j],
    ) && in_use_at(t, m.fl[j]) == in_use_at(s, m.fl[j]) by {
        assert(cs.contains(m.fl[j]));
        let b = index_of(cs, m.fl[j]);
        assert(m.fl.contains(m.fl[j]));
        assert(size_at(t, cs[b]) == size_at(s, cs[b]));
    }
    lemma_lists_kept(s, t, m.fl, m.top, xs);
    // membership
    assert forall|j: int| 0 <= j < m.fl.len() implies cs2.contains(#[trigger] m.fl[j])
        && !in_use_at(t, m.fl[j]) by {
        assert(cs.contains(m.fl[j]));
        assert(m.fl.contains(m.fl[j]));
        lemma_remove_contains(cs, i + 1, m.fl[j]);
    }
    assert forall|j: int| 0 <= j < cs2.len() && !in_use_at(t, #[trigger] cs2[j])
        implies m.fl.contains(
        cs2[j],
    ) || m2.loose.contains(cs2[j]) by {
        assert(cs2.contains(cs2[j]));
        if j <= i {
            assert(cs2[j] == cs[j]);
        } else {
            assert(cs2[j] == cs[j + 1]);
        }
    }
    assert forall|x: int| #[trigger] m2.loose.contains(x) implies cs2.contains(x) && !m.fl.contains(
        x,
    ) by {
        lemma_remove_contains(cs, i + 1, x);
    }
    assert(linked_ok(t, cs2, m.fl, m2.loose));
    assert(t[0] == s[0]) by {
        assert(word_start(0) == 0);
    }
    assert forall|j: int| 0 <= j < cs.len() && j != i + 1 implies payload_same(
        s,
        t,
        #[trigger] cs[j],
    ) by {
        lemma_chunk_end(s, cs, m.end, j);
        assert forall|k: int| cs[j] + 8 <= k < cs[j] + size_at(s, cs[j]) implies #[trigger] t[k]
            == s[k] by {
            let x = word_start(k);
            if j < i {
                lemma_ordered(s, cs, m.end, j, i);
            } else if j > i + 2 {
                lemma_ordered(s, cs, m.end, i + 2, j);
            }
        }
    }
    assert forall|x: int| #[trigger] cs.contains(x) && in_use_at(s, x) && x != c
        implies cs2.contains(
        x,
    ) && in_use_at(t, x) && size_at(t, x) == size_at(s, x) && payload_same(s, t, x) by {
        let j = index_of(cs, x);
        assert(cs[j] == x);
        lemma_remove_contains(cs, i + 1, x);
    }
    assert forall|x: int| #[trigger] cs2.contains(x) && in_use_at(t, x) && x != c
        implies cs.contains(
        x,
    ) && in_use_at(s, x) by {
        lemma_remove_contained(cs, i + 1, x);
        let j = index_of(cs, x);
        assert(cs[j] == x);
    }
}

/// The index of a chunk is determined by its offset.
pub(crate) proof fn lemma_index_unique(s: Seq<u8>, cs: Seq<int>, end: int, i: int)
    requires
        tiled(s, cs, end),
        0 <= i < cs.len(),
    ensures
        index_of(cs, cs[i]) == i,
        cs.contains(cs[i]),
{
    let j = index_of(cs, cs[i]);
    lemma_chunk_end(s, cs, end, i);
    lemma_owner_unique(s, cs, end, i, j, cs[i]);
}

/// Writing a word into the user bytes of a chunk in use keeps the space in
/// shape and leaves every other chunk's user bytes alone.
pub(crate) proof fn lemma_poke(s: Seq<u8>, m: Model, i: int, x: int, v: u64)
    requires
        shape(s, m),
        0 <= i < m.cs.len(),
        in_use_at(s, m.cs[i]),
        x % 8 == 0,
        m.cs[i] + 8 <= x,
        x + 8 <= m.cs[i] + size_at(s, m.cs[i]),
    ensures
        ({
            let t = crate::words::put_word(s, x, v);
            &&& t.len() == s.len()
            &&& t[0] == s[0]
            &&& heads_of(t) == heads_of(s)
            &&& shape(t, m)
            &&& word_at(t, x) == v
            &&& forall|j: int|
                0 <= j < m.cs.len() ==> word_at(t, #[trigger] m.cs[j]) == word_at(s, m.cs[j])
            &&& carried(s, m.cs, t, m.cs, m.cs[i])
            &&& fresh_only(s, m.cs, t, m.cs, m.cs[i])
            &&& forall|k: int| 0 <= k < s.len() && !(x <= k < x + 8) ==> t[k] == s[k]
        }),
{
    let cs = m.cs;
    let c = cs[i];
    let t = crate::words::put_word(s, x, v);
    let xs = set![x];
    lemma_chunk_end(s, cs, m.end, i);
    crate::words::lemma_put_word_modified(s, x, v);
    crate::words::lemma_put_word(s, x, v);
    assert forall|j: int| 0 <= j < cs.len() implies word_at(t, #[trigger] cs[j]) == word_at(
        s,
        cs[j],
    ) by {
        lemma_chunk_end(s, cs, m.end, j);
        if cs[j] == x {
            lemma_owner_unique(s, cs, m.end, i, j, x);
        }
        lemma_modified_word(s, t, xs, cs[j]);
    }
    assert forall|j: int| 0 <= j < cs.len() && !in_use_at(s, cs[j]) implies word_at(
        t,
        #[trigger] footer_pos(s, cs[j]),
    ) == word_at(s, footer_pos(s, cs[j])) by {
        lemma_chunk_end(s, cs, m.end, j);
        if footer_pos(s, cs[j]) == x {
            lemma_owner_unique(s, cs, m.end, i, j, x);
        }
        lemma_modified_word(s, t, xs, footer_pos(s, cs[j]));
    }
    assert forall|j: int| 0 <= j < cs.len() - 1 implies cs[j + 1] == #[trigger] next_start(
        t,
        cs,
        j,
    ) by {
        assert(cs[j + 1] == next_start(s, cs, j));
    }
    assert(word_at(t, cs[cs.len() - 1]) == word_at(s, cs[cs.len() - 1]));
    assert(word_at(t, cs[0]) == word_at(s, cs[0]));
    assert(tiled(t, cs, m.end));
    assert forall|j: int| 1 <= j < cs.len() implies #[trigger] lower_in_use_at(t, cs[j])
        == in_use_at(t, cs[j - 1]) by {
        assert(lower_in_use_at(s, cs[j]) == in_use_at(s, cs[j - 1]));
        assert(word_at(t, cs[j - 1]) == word_at(s, cs[j - 1]));
    }
    assert forall|j: int| 0 <= j < cs.len() && !in_use_at(t, cs[j]) implies word_at(
        t,
        #[trigger] footer_pos(t, cs[j]),
    ) == size_at(t, cs[j]) by {
        assert(footer_pos(t, cs[j]) == footer_pos(s, cs[j]));
        assert(word_at(s, footer_pos(s, cs[j])) == size_at(s, cs[j]));
    }
    assert forall|j: int|
        0 <= j < cs.len() - 2 && #[trigger] both_free(t, cs, j) implies m.loose.contains(cs[j])
        || m.loose.contains(cs[j + 1]) by {
        assert(both_free(s, cs, j));
    }
    assert(!m.fl.contains(c)) by {
        if m.fl.contains(c) {
            let j = choose|j: int| 0 <= j < m.fl.len() && m.fl[j] == c;
            assert(!in_use_at(s, m.fl[j]));
        }
    }
    assert forall|y: int| xs.contains(y) implies !list_word(m.fl, y) by {
        lemma_not_list_word(s, m, i, y);
    }
    assert forall|j: int| 0 <= j < m.fl.len() implies size_at(t, #[trigger] m.fl[j]) == size_at(
        s,
        m.fl[j],
    ) && in_use_at(t, m.fl[j]) == in_use_at(s, m.fl[j]) by {
        assert(cs.contains(m.fl[j]));
        let b = index_of(cs, m.fl[j]);
        assert(word_at(t, cs[b]) == word_at(s, cs[b]));
    }
    lemma_lists_kept(s, t, m.fl, m.top, xs);
    assert forall|j: int| 0 <= j < cs.len() && !in_use_at(t, #[trigger] cs[j])
        implies m.fl.contains(
        cs[j],
    ) || m.loose.contains(cs[j]) by {}
    assert(linked_ok(t, cs, m.fl, m.loose));
    assert(t[0] == s[0]);
    assert forall|j: int| 0 <= j < cs.len() && cs[j] != c implies size_at(t, #[trigger] cs[j])
        == size_at(s, cs[j]) && in_use_at(t, cs[j]) == in_use_at(s, cs[j]) && (in_use_at(s, cs[j])
        ==> payload_same(s, t, cs[j])) by {
        lemma_chunk_end(s, cs, m.end, j);
        assert forall|k: int| cs[j] + 8 <= k < cs[j] + size_at(s, cs[j]) implies #[trigger] t[k]
            == s[k] by {
            if x <= k < x + 8 {
                lemma_owner_unique(s, cs, m.end, i, j, k);
            }
        }
    }
    lemma_carried_same(s, t, cs, c);
}

/// A loose chunk is a chunk.
pub(crate) proof fn lemma_loose_chunk(s: Seq<u8>, m: Model, c: int)
    requires
        shape(s, m),
        m.loose.contains(c),
    ensures
        m.cs.contains(c),
{
}

/// Where the excepted chunk is free before and after, nothing was
/// excepted at all.
pub(crate) proof fn lemma_carried_free(
    s: Seq<u8>,
    cs: Seq<int>,
    t: Seq<u8>,
    cs2: Seq<int>,
    e: int,
    c: int,
)
    requires
        carried(s, cs, t, cs2, e),
        fresh_only(s, cs, t, cs2, e),
        !in_use_at(s, e),
        !in_use_at(t, e),
    ensures
        carried(s, cs, t, cs2, c),
        fresh_only(s, cs, t, cs2, c),
{
}

/// A change confined to the user bytes of a chunk in use keeps the space
/// in shape and leaves every meta word and every other chunk's user bytes
/// alone.
pub(crate) proof fn lemma_payload_frame(s: Seq<u8>, t: Seq<u8>, m: Model, i: int, lo: int, hi: int)
    requires
        shape(s, m),
        0 <= i < m.cs.len(),
        in_use_at(s, m.cs[i]),
        m.cs[i] + 8 <= lo,
        hi <= m.cs[i] + size_at(s, m.cs[i]),
        crate::words::same_outside(s, t, lo, hi),
    ensures
        t[0] == s[0],
        heads_of(t) == heads_of(s),
        shape(t, m),
        forall|j: int| 0 <= j < m.cs.len() ==> word_at(t, #[trigger] m.cs[j])
            == word_at(s, m.cs[j]),
        carried(s, m.cs, t, m.cs, m.cs[i]),
        fresh_only(s, m.cs, t, m.cs, m.cs[i]),
{
    let cs = m.cs;
    let c = cs[i];
    let xs = Set::new(|x: int| c + 8 <= x < c + size_at(s, c));
    lemma_chunk_end(s, cs, m.end, i);
    assert(modified_only(s, t, xs)) by {
        assert forall|k: int| 0 <= k < s.len() && !xs.contains(word_start(k))
            implies #[trigger] t[k]
            == s[k] by {
            if lo <= k < hi {
                assert(c + 8 <= word_start(k) < c + size_at(s, c));
            }
        }
    }
    assert forall|j: int| 0 <= j < cs.len() implies word_at(t, #[trigger] cs[j]) == word_at(
        s,
        cs[j],
    ) by {
        lemma_chunk_end(s, cs, m.end, j);
        if xs.contains(cs[j]) {
            lemma_owner_unique(s, cs, m.end, i, j, cs[j]);
        }
        lemma_modified_word(s, t, xs, cs[j]);
    }
    assert forall|j: int| 0 <= j < cs.len() && !in_use_at(s, cs[j]) implies word_at(
        t,
        #[trigger] footer_pos(s, cs[j]),
    ) == word_at(s, footer_pos(s, cs[j])) by {
        lemma_chunk_end(s, cs, m.end, j);
        if xs.contains(footer_pos(s, cs[j])) {
            lemma_owner_unique(s, cs, m.end, i, j, footer_pos(s, cs[j]));
        }
        lemma_modified_word(s, t, xs, footer_pos(s, cs[j]));
    }
    assert forall|j: int| 0 <= j < cs.len() - 1 implies cs[j + 1] == #[trigger] next_start(
        t,
        cs,
        j,
    ) by {
        assert(cs[j + 1] == next_start(s, cs, j));
    }
    assert(word_at(t, cs[cs.len() - 1]) == word_at(s, cs[cs.len() - 1]));
    assert(word_at(t, cs[0]) == word_at(s, cs[0]));
    assert(tiled(t, cs, m.end));
    assert forall|j: int| 1 <= j < cs.len() implies #[trigger] lower_in_use_at(t, cs[j])
        == in_use_at(t, cs[j - 1]) by {
        assert(lower_in_use_at(s, cs[j]) == in_use_at(s, cs[j - 1]));
        assert(word_at(t, cs[j - 1]) == word_at(s, cs[j - 1]));
    }
    assert forall|j: int| 0 <= j < cs.len() && !in_use_at(t, cs[j]) implies word_at(
        t,
        #[trigger] footer_pos(t, cs[j]),
    ) == size_at(t, cs[j]) by {
        assert(footer_pos(t, cs[j]) == footer_pos(s, cs[j]));
        assert(word_at(s, footer_pos(s, cs[j])) == size_at(s, cs[j]));
    }
    assert forall|j: int|
        0 <= j < cs.len() - 2 && #[trigger] both_free(t, cs, j) implies m.loose.contains(cs[j])
        || m.loose.contains(cs[j + 1]) by {
        assert(both_free(s, cs, j));
    }
    assert(!m.fl.contains(c)) by {
        if m.fl.contains(c) {
            let j = choose|j: int| 0 <= j < m.fl.len() && m.fl[j] == c;
            assert(!in_use_at(s, m.fl[j]));
        }
    }
    assert forall|y: int| xs.contains(y) implies !list_word(m.fl, y) by {
        lemma_not_list_word(s, m, i, y);
    }
    assert forall|j: int| 0 <= j < m.fl.len() implies size_at(t, #[trigger] m.fl[j]) == size_at(
        s,
        m.fl[j],
    ) && in_use_at(t, m.fl[j]) == in_use_at(s, m.fl[j]) by {
        assert(cs.contains(m.fl[j]));
        let b = index_of(cs, m.fl[j]);
        assert(word_at(t, cs[b]) == word_at(s, cs[b]));
    }
    lemma_lists_kept(s, t, m.fl, m.top, xs);
    assert forall|j: int| 0 <= j < cs.len() && !in_use_at(t, #[trigger] cs[j])
        implies m.fl.contains(
        cs[j],
    ) || m.loose.contains(cs[j]) by {}
    assert(linked_ok(t, cs, m.fl, m.loose));
    assert(t[0] == s[0]);
    assert forall|j: int| 0 <= j < cs.len() && cs[j] != c implies size_at(t, #[trigger] cs[j])
        == size_at(s, cs[j]) && in_use_at(t, cs[j]) == in_use_at(s, cs[j]) && (in_use_at(s, cs[j])
        ==> payload_same(s, t, cs[j])) by {
        lemma_chunk_end(s, cs, m.end, j);
        assert forall|k: int| cs[j] + 8 <= k < cs[j] + size_at(s, cs[j]) implies #[trigger] t[k]
            == s[k] by {
            if lo <= k < hi {
                lemma_owner_unique(s, cs, m.end, i, j, k);
            }
        }
    }
    lemma_carried_same(s, t, cs, c);
}

} // verus!
