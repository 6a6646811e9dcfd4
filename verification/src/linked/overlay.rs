//! The overlay: the allocator's operations on a space, bound to the
//! address of the space's first byte.
use crate::linked::bins::{bin_index, BINS_LEN, META_SIZE, MIN_SIZE};
use crate::linked::chunk::{lemma_after_set, link_word, set_words, Chunk};
use crate::linked::layout::{
    bin_at, footer_pos, in_use_at, lemma_with_lower, lower_in_use_at, next_at, prev_at, size_at,
    SENTINEL, START,
};
use crate::linked::lists::{
    bin_for, first_head, heads_of, insert_pos, larger_from, lemma_larger_same, listed, start_of,
    unlisted, Lists,
};
use crate::linked::model::{
    apart, bin_of, bins_ok, both_free, carried, fresh_only, index_of, lemma_carried_same,
    lemma_chunk_end, lemma_insert_contains, lemma_list_frame, lemma_list_metas, lemma_ordered,
    lemma_remove_contained, lemma_remove_contains, linked_ok, list_ok, list_sizes, list_word,
    list_words, metas_same, next_start, settled, shape, tiled, flags_ok, Model,
};
use crate::words::{
    lemma_modified_trans, lemma_modified_word, lemma_put_word_modified, load, modified_only,
    put_word, store, word_at,
};
use vstd::prelude::*;

verus! {

/// The allocator's view of a space: the address of the space's first byte
/// and the space's length.
#[derive(Clone, Copy, Debug)]
pub struct Overlay {
    /// Address of the first byte of the space.
    pub base: usize,
    /// Length of the space in bytes.
    pub limit: usize,
}

impl Overlay {
    /// The head of bin `index`, if the bin is not empty.
    pub fn get_bin_chunk(&self, mem: &[u8], index: usize) -> (chunk: Option<Chunk>)
        requires
            index < 96,
            768 <= mem@.len(),
            bin_at(mem@, index as int) <= usize::MAX,
        ensures
            bin_at(mem@, index as int) == 0 ==> chunk is None,
            bin_at(mem@, index as int) != 0 ==> chunk == Some(
                Chunk { data: bin_at(mem@, index as int) as usize, limit: self.limit },
            ),
    {
        let word = load(mem, 8 * index);
        if word == 0 {
            None
        } else {
            Some(Chunk { data: word as usize, limit: self.limit })
        }
    }

    /// Makes `chunk` the head of bin `index`, or empties the bin.
    pub fn set_bin_chunk(&self, mem: &mut [u8], index: usize, chunk: Option<Chunk>)
        requires
            index < 96,
            768 <= old(mem)@.len(),
        ensures
            final(mem)@ == put_word(old(mem)@, 8 * index, link_word(chunk)),
    {
        let word: u64 = match chunk {
            Some(chunk) => chunk.data as u64,
            None => 0,
        };
        store(mem, 8 * index, word);
    }

    /// Unlinks `chunk`, which is not the top chunk, from the free list. If
    /// it headed its bin, the bin passes to its successor where that one
    /// is of the same size class, and is emptied otherwise.
    pub(crate) fn remove_chunk(
        &self,
        mem: &mut [u8],
        chunk: Chunk,
        Ghost(fl): Ghost<Seq<int>>,
        Ghost(top): Ghost<int>,
        Ghost(k): Ghost<int>,
    )
        requires
            list_ok(old(mem)@, fl, top),
            bins_ok(old(mem)@, fl, top),
            list_sizes(old(mem)@, fl),
            old(mem)@.len() <= usize::MAX,
            0 <= k < fl.len() - 1,
            fl[k] == chunk.data,
            chunk.limit == self.limit,
        ensures
            final(mem)@.len() == old(mem)@.len(),
            list_ok(final(mem)@, fl.remove(k), top),
            bins_ok(final(mem)@, fl.remove(k), top),
            modified_only(old(mem)@, final(mem)@, list_words(fl)),
            k == index_of(fl, chunk.data as int),
            heads_of(final(mem)@) == unlisted(
                old(mem)@,
                lists(old(mem)@, fl),
                chunk.data as int,
            ).heads,
    {
        let ghost s = mem@;
        let ghost fl2 = fl.remove(k);
        proof {
            lemma_index_in(s, fl, top, k);
        }
        let ghost c = chunk.data as int;
        assert(fl[k] == c);
        assert(apart(fl[k], fl[fl.len() - 1]));
        let size = chunk.get_size(mem);
        let index = Overlay::bin_index_of_size(size - META_SIZE);
        let next = self.unlink(mem, chunk, Ghost(fl), Ghost(top), Ghost(k));
        let ghost s2 = mem@;
        proof {
            let xs = unlink_words(fl, k);
            assert forall|x: int| xs.contains(x) implies list_words(fl).contains(x) by {
                if x == fl[k + 1] + 8 {
                    assert(list_word(fl, x));
                } else {
                    assert(x == fl[k - 1] + 16);
                    assert(list_word(fl, x));
                }
            }
            lemma_modified_trans(s, s2, s2, xs, Set::empty(), list_words(fl));
            assert forall|j: int| 0 <= j < fl.len() implies word_at(s2, #[trigger] fl[j])
                == word_at(s, fl[j]) by {
                lemma_list_metas(s, s2, fl, top, j);
            }
            assert forall|b: int| 0 <= b < 96 implies #[trigger] bin_at(s2, b) == bin_at(s, b) by {
                if xs.contains(8 * b) {
                    assert(fl[k + 1] >= 768);
                    if k > 0 {
                        assert(fl[k - 1] >= 768);
                    }
                }
                lemma_modified_word(s, s2, xs, 8 * b);
            }
            assert(bin_at(s, index as int) == 0 || fl.contains(bin_at(s, index as int)));
            assert(fl2[k] == fl[k + 1]);
            assert(fl[k + 1] == fl[fl.len() - 1] || apart(fl[k + 1], fl[fl.len() - 1]));
        }
        let head = self.get_bin_chunk(mem, index);
        let is_head = match head {
            Some(head) => head.data == chunk.data,
            None => false,
        };
        if is_head {
            let follows = if next.is_top(mem) {
                false
            } else {
                let next_size = next.get_size(mem);
                Overlay::bin_index_of_size(next_size - META_SIZE) == index
            };
            let heir = if follows {
                Some(next)
            } else {
                None
            };
            self.set_bin_chunk(mem, index, heir);
            proof {
                let s3 = mem@;
                lemma_put_word_modified(s2, 8 * index, link_word(heir));
                assert(list_word(fl, 8 * index));
                lemma_modified_trans(
                    s,
                    s2,
                    s3,
                    list_words(fl),
                    set![8 * index],
                    list_words(fl),
                );
                lemma_bins_frame(s2, s3, fl2, top, index as int);
                assert(index != 95);
                assert forall|b: int| 3 <= b < 96 && #[trigger] bin_at(s3, b) != 0
                    implies fl2.contains(
                    bin_at(s3, b),
                ) && bin_of(s3, bin_at(s3, b), top) == b by {
                    if b == index {
                        assert(bin_at(s3, b) == fl2[k]);
                    } else {
                        assert(bin_at(s3, b) == bin_at(s, b));
                        let h = bin_at(s, b);
                        assert(fl.contains(h));
                        assert(bin_of(s, h, top) == b);
                        lemma_remove_contains(fl, k, h);
                        let j = choose|j: int| 0 <= j < fl.len() && fl[j] == h;
                        assert(word_at(s2, fl[j]) == word_at(s, fl[j]));
                    }
                }
            }
        } else {
            proof {
                assert forall|b: int| 3 <= b < 96 && #[trigger] bin_at(s2, b) != 0
                    implies fl2.contains(
                    bin_at(s2, b),
                ) && bin_of(s2, bin_at(s2, b), top) == b by {
                    let h = bin_at(s, b);
                    assert(fl.contains(h));
                    assert(bin_of(s, h, top) == b);
                    lemma_remove_contains(fl, k, h);
                    let j = choose|j: int| 0 <= j < fl.len() && fl[j] == h;
                    assert(word_at(s2, fl[j]) == word_at(s, fl[j]));
                }
            }
        }
    }

    /// Threads the free chunk `chunk` into the list right before `at`.
    fn link_before(
        &self,
        mem: &mut [u8],
        chunk: Chunk,
        at: Chunk,
        Ghost(fl): Ghost<Seq<int>>,
        Ghost(top): Ghost<int>,
        Ghost(k): Ghost<int>,
    )
        requires
            list_ok(old(mem)@, fl, top),
            list_sizes(old(mem)@, fl),
            old(mem)@.len() <= usize::MAX,
            0 <= k < fl.len(),
            fl[k] == at.data,
            at.limit == self.limit,
            chunk.limit == self.limit,
            768 <= chunk.data,
            chunk.data % 8 == 0,
            chunk.data + 32 <= old(mem)@.len(),
            !in_use_at(old(mem)@, chunk.data as int),
            forall|j: int| 0 <= j < fl.len() ==> apart(#[trigger] fl[j], chunk.data as int),
        ensures
            final(mem)@.len() == old(mem)@.len(),
            list_ok(final(mem)@, fl.insert(k, chunk.data as int), top),
            modified_only(old(mem)@, final(mem)@, link_words(fl, k, chunk.data as int)),
    {
        let ghost s = mem@;
        let ghost c = chunk.data as int;
        let ghost fl2 = fl.insert(k, c);
        let ghost xs = list_words(fl2);
        assert(apart(fl[k], c));
        assert(prev_at(s, fl[k]) == (if k == 0 {
            0
        } else {
            fl[k - 1]
        }));
        proof {
            assert(fl2[k] == c);
            assert(fl2[k + 1] == fl[k]);
            assert(list_word(fl2, c + 8));
            assert(list_word(fl2, c + 16));
            assert(list_word(fl2, fl[k] + 8));
            if k > 0 {
                assert(fl2[k - 1] == fl[k - 1]);
                assert(list_word(fl2, fl[k - 1] + 16));
                assert(apart(fl[k - 1], c));
                assert(apart(fl[k - 1], fl[k]));
            }
        }
        chunk.set_next(mem, Some(at));
        let ghost s1 = mem@;
        proof {
            lemma_put_word_modified(s, c + 16, link_word(Some(at)));
            lemma_modified_word(s, s1, set![c + 16], fl[k]);
            lemma_modified_word(s, s1, set![c + 16], fl[k] + 8);
            lemma_modified_word(s, s1, set![c + 16], c);
        }
        let prev = at.get_prev(mem);
        chunk.set_prev(mem, prev);
        let ghost s2 = mem@;
        proof {
            lemma_put_word_modified(s1, c + 8, link_word(prev));
            lemma_modified_word(s1, s2, set![c + 8], fl[k]);
            lemma_modified_word(s1, s2, set![c + 8], c + 16);
            lemma_modified_trans(s, s1, s2, set![c + 16], set![c + 8], xs);
        }
        at.set_prev(mem, Some(chunk));
        let ghost s3 = mem@;
        proof {
            lemma_put_word_modified(s2, fl[k] + 8, link_word(Some(chunk)));
            lemma_modified_word(s2, s3, set![fl[k] + 8], c + 16);
            lemma_modified_word(s2, s3, set![fl[k] + 8], c + 8);
            lemma_modified_trans(s, s2, s3, xs, set![fl[k] + 8], xs);
        }
        match prev {
            Some(prev_chunk) => {
                proof {
                    assert(prev_chunk.data == fl[k - 1]);
                    lemma_not_own_word(s, fl, top, c, k, k - 1);
                    lemma_modified_word(s, s3, xs, fl[k - 1]);
                }
                prev_chunk.set_next(mem, Some(chunk));
                proof {
                    lemma_put_word_modified(s3, fl[k - 1] + 16, link_word(Some(chunk)));
                }
            },
            None => {},
        }
        let ghost s4 = mem@;
        proof {
            if k > 0 {
                lemma_modified_trans(s, s3, s4, xs, set![fl[k - 1] + 16], xs);
                lemma_modified_word(s3, s4, set![fl[k - 1] + 16], c + 16);
                lemma_modified_word(s3, s4, set![fl[k - 1] + 16], c + 8);
                lemma_modified_word(s3, s4, set![fl[k - 1] + 16], fl[k] + 8);
            }
            let changed = link_words(fl, k, c);
            if k > 0 {
                lemma_modified_trans(s, s1, s2, set![c + 16], set![c + 8], changed);
                lemma_modified_trans(s, s2, s3, changed, set![fl[k] + 8], changed);
                lemma_modified_trans(s, s3, s4, changed, set![fl[k - 1] + 16], changed);
            } else {
                lemma_modified_trans(s, s1, s2, set![c + 16], set![c + 8], changed);
                lemma_modified_trans(s, s2, s3, changed, set![fl[k] + 8], changed);
            }
            assert forall|j: int| 0 <= j < fl2.len() implies 768 <= #[trigger] fl2[j] && fl2[j] % 8
                == 0 && fl2[j] + 32 <= s4.len() by {
                if j < k {
                    assert(fl2[j] == fl[j]);
                } else if j > k {
                    assert(fl2[j] == fl[j - 1]);
                }
            }
            assert forall|j: int, i: int| 0 <= j < i < fl2.len() implies apart(
                #[trigger] fl2[j],
                #[trigger] fl2[i],
            ) by {
                let a = if j < k {
                    j
                } else {
                    j - 1
                };
                let b = if i < k {
                    i
                } else {
                    i - 1
                };
                if j == k {
                    assert(apart(fl[b], c));
                } else if i == k {
                    assert(apart(fl[a], c));
                } else {
                    assert(apart(fl[a], fl[b]));
                }
            }
            assert forall|j: int| 0 <= j < fl2.len() implies #[trigger] prev_at(s4, fl2[j]) == (if j
                == 0 {
                0
            } else {
                fl2[j - 1]
            }) by {
                if j == k {
                } else if j == k + 1 {
                } else {
                    let a = if j < k {
                        j
                    } else {
                        j - 1
                    };
                    assert(fl2[j] == fl[a]);
                    assert(apart(fl[a], c));
                    assert(apart(fl[a], fl[k]));
                    if k > 0 && a != k - 1 {
                        assert(apart(fl[a], fl[k - 1]));
                    }
                    lemma_modified_word(s, s4, changed, fl[a] + 8);
                    assert(prev_at(s, fl[a]) == (if a == 0 {
                        0
                    } else {
                        fl[a - 1]
                    }));
                }
            }
            assert forall|j: int| 0 <= j < fl2.len() implies #[trigger] next_at(s4, fl2[j]) == (if j
                == fl2.len() - 1 {
                0
            } else {
                fl2[j + 1]
            }) by {
                if j == k {
                } else if j == k - 1 {
                } else {
                    let a = if j < k {
                        j
                    } else {
                        j - 1
                    };
                    assert(fl2[j] == fl[a]);
                    assert(apart(fl[a], c));
                    assert(a == k || apart(fl[a], fl[k]));
                    if k > 0 {
                        assert(apart(fl[a], fl[k - 1]));
                    }
                    lemma_modified_word(s, s4, changed, fl[a] + 16);
                    assert(next_at(s, fl[a]) == (if a == fl.len() - 1 {
                        0
                    } else {
                        fl[a + 1]
                    }));
                }
            }
            assert(fl2[fl2.len() - 1] == fl[fl.len() - 1]);
        }
    }

    /// The head of the first non-empty bin that can serve `min_size`.
    pub(crate) fn find_smallest(
        &self,
        mem: &[u8],
        min_size: usize,
        Ghost(fl): Ghost<Seq<int>>,
        Ghost(top): Ghost<int>,
    ) -> (chunk: Chunk)
        requires
            list_ok(mem@, fl, top),
            bins_ok(mem@, fl, top),
            mem@.len() <= usize::MAX,
        ensures
            chunk.limit == self.limit,
            chunk.data == bin_at(mem@, first_nonempty(mem@, bin_index(min_size as nat) as int)),
            fl.contains(chunk.data as int),
    {
        let ghost s = mem@;
        let mut index = Overlay::bin_index_of_size(min_size);
        let ghost start = index as int;
        assert(fl[fl.len() - 1] == top);
        loop
            invariant
                3 <= index < 96,
                mem@ == s,
                list_ok(s, fl, top),
                bins_ok(s, fl, top),
                s.len() <= usize::MAX,
                start == bin_index(min_size as nat),
                first_nonempty(s, start) == first_nonempty(s, index as int),
            decreases 96 - index,
        {
            proof {
                lemma_head_bound(s, fl, top, index as int);
                lemma_first_nonempty(s, index as int);
            }
            match self.get_bin_chunk(mem, index) {
                Some(chunk) => {
                    return chunk;
                },
                None => {
                    index = index + 1;
                },
            }
        }
    }

    /// Puts the loose free chunk `chunk` on the free list: before the
    /// first entry, counted from the head of its bin, that is larger than
    /// it. An empty bin gets the chunk as its head, and the search starts
    /// at the next bin that is not empty.
    pub(crate) fn add_chunk(
        &self,
        mem: &mut [u8],
        chunk: Chunk,
        Ghost(fl): Ghost<Seq<int>>,
        Ghost(top): Ghost<int>,
    ) -> (k: Ghost<int>)
        requires
            list_ok(old(mem)@, fl, top),
            bins_ok(old(mem)@, fl, top),
            list_sizes(old(mem)@, fl),
            old(mem)@.len() <= usize::MAX,
            chunk.limit == self.limit,
            768 <= chunk.data,
            chunk.data % 8 == 0,
            !in_use_at(old(mem)@, chunk.data as int),
            32 <= size_at(old(mem)@, chunk.data as int),
            chunk.data + size_at(old(mem)@, chunk.data as int) <= old(mem)@.len(),
            forall|j: int| 0 <= j < fl.len() ==> apart(#[trigger] fl[j], chunk.data as int),
        ensures
            0 <= k@ < fl.len(),
            k@ == insert_pos(
                old(mem)@,
                lists(old(mem)@, fl),
                size_at(old(mem)@, chunk.data as int),
            ),
            heads_of(final(mem)@) == listed(
                old(mem)@,
                lists(old(mem)@, fl),
                chunk.data as int,
                size_at(old(mem)@, chunk.data as int),
            ).heads,
            final(mem)@.len() == old(mem)@.len(),
            list_ok(final(mem)@, fl.insert(k@, chunk.data as int), top),
            bins_ok(final(mem)@, fl.insert(k@, chunk.data as int), top),
            modified_only(old(mem)@, final(mem)@, list_words(fl.insert(k@, chunk.data as int))),
            forall|b: int|
                3 <= b < 96 ==> #[trigger] bin_at(final(mem)@, b) == (if b == bin_index(
                    (size_at(old(mem)@, chunk.data as int) - 8) as nat,
                ) && bin_at(old(mem)@, b) == 0 {
                    chunk.data as int
                } else {
                    bin_at(old(mem)@, b)
                }),
    {
        let ghost s = mem@;
        let ghost c = chunk.data as int;
        assert(apart(fl[fl.len() - 1], c));
        let size = chunk.get_size(mem);
        let index = Overlay::bin_index_of_size(size - META_SIZE);
        proof {
            lemma_head_bound(s, fl, top, index as int);
        }
        let own = self.get_bin_chunk(mem, index);
        let mut at = match own {
            Some(head) => head,
            None => {
                self.set_bin_chunk(mem, index, Some(chunk));
                proof {
                    lemma_put_word_modified(s, 8 * index, link_word(Some(chunk)));
                    lemma_bins_frame(s, mem@, fl, top, index as int);
                }
                let mut i = index + 1;
                let mut found: Option<Chunk> = None;
                while found.is_none()
                    invariant
                        3 <= index < i <= 96,
                        index < 95,
                        found is None ==> i < 96,
                        found is None ==> first_nonempty(s, index + 1) == first_nonempty(
                            s,
                            i as int,
                        ),
                        found matches Some(head) ==> head.data == bin_at(
                            s,
                            first_nonempty(s, index + 1),
                        ),
                        mem@.len() == s.len(),
                        s.len() <= usize::MAX,
                        list_ok(s, fl, top),
                        bins_ok(s, fl, top),
                        forall|b: int| 0 <= b < 96 && b != index ==> #[trigger] bin_at(mem@, b)
                            == bin_at(s, b),
                        found matches Some(head) ==> head.limit == self.limit && fl.contains(
                            head.data as int,
                        ),
                    decreases 96 - i,
                {
                    proof {
                        lemma_head_bound(s, fl, top, i as int);
                        assert(bin_at(mem@, i as int) == bin_at(s, i as int));
                        lemma_first_nonempty(s, i as int);
                    }
                    found = self.get_bin_chunk(mem, i);
                    i = i + 1;
                }
                match found {
                    Some(head) => head,
                    None => unreached(),
                }
            },
        };
        let ghost s1 = mem@;
        let ghost j0 = index_of(fl, at.data as int);
        let ghost mut j: int = j0;
        proof {
            let l = lists(s, fl);
            assert(bin_for(size as int) == index);
            assert(l.heads[index as int] == bin_at(s, index as int));
            if own is None {
                crate::linked::lists::lemma_first_head(l.heads, index + 1);
                assert(l.heads[first_head(l.heads, index + 1)] == bin_at(
                    s,
                    first_head(l.heads, index + 1),
                ));
            }
            assert(at.data == start_of(l, size as int));
        }
        proof {
            if own is None {
                lemma_put_word_modified(s, 8 * index, link_word(Some(chunk)));
                lemma_bins_frame(s, s1, fl, top, index as int);
                lemma_modified_word(s, s1, set![8 * index], c);
            }
            assert forall|i: int| 0 <= i < fl.len() implies !in_use_at(s1, #[trigger] fl[i]) && 32
                <= size_at(s1, fl[i]) <= s1.len() by {
                if own is None {
                    assert(word_at(s1, fl[i]) == word_at(s, fl[i]));
                }
            }
        }
        loop
            invariant
                0 <= j0 <= j < fl.len(),
                at.data == fl[j],
                at.limit == self.limit,
                mem@ == s1,
                s1.len() <= usize::MAX,
                list_ok(s1, fl, top),
                list_sizes(s1, fl),
                larger_from(s1, fl, j0, size as int) == larger_from(s1, fl, j, size as int),
            ensures
                0 <= j < fl.len(),
                at.data == fl[j],
                at.limit == self.limit,
                larger_from(s1, fl, j0, size as int) == j,
            decreases fl.len() - j,
        {
            assert(next_at(s1, fl[j]) == (if j == fl.len() - 1 {
                0
            } else {
                fl[j + 1]
            }));
            if at.is_top(mem) {
                break ;
            }
            if at.get_size(mem) > size {
                break ;
            }
            assert(fl[j + 1] >= 768);
            match at.get_next(mem) {
                Some(next) => {
                    at = next;
                    proof {
                        j = j + 1;
                    }
                },
                None => {
                    break ;
                },
            }
        }
        proof {
            lemma_larger_same(s, s1, fl, j0, size as int);
        }
        self.link_before(mem, chunk, at, Ghost(fl), Ghost(top), Ghost(j));
        proof {
            let t = mem@;
            let fl2 = fl.insert(j, c);
            let ws = link_words(fl, j, c);
            lemma_link_words(s1, fl, top, j, c);
            assert forall|j2: int| 0 <= j2 < fl.len() implies word_at(t, #[trigger] fl[j2])
                == word_at(s, fl[j2]) by {
                lemma_not_own_word(s1, fl, top, c, j, j2);
                lemma_modified_word(s1, t, ws, fl[j2]);
            }
            assert(word_at(t, c) == word_at(s, c)) by {
                lemma_not_own_word(s1, fl, top, c, j, 0);
                lemma_modified_word(s1, t, ws, c);
            }
            assert forall|b: int| 0 <= b < 96 implies #[trigger] bin_at(t, b) == bin_at(s1, b) by {
                lemma_modified_word(s1, t, ws, 8 * b);
            }
            if own is None {
                assert(list_word(fl2, 8 * index));
                lemma_modified_trans(
                    s,
                    s1,
                    t,
                    set![8 * index],
                    list_words(fl2),
                    list_words(fl2),
                );
            } else {
                lemma_modified_trans(s, s1, t, Set::empty(), list_words(fl2), list_words(fl2));
            }
            assert forall|b: int| 3 <= b < 96 && #[trigger] bin_at(t, b) != 0 implies fl2.contains(
                bin_at(t, b),
            ) && bin_of(t, bin_at(t, b), top) == b by {
                let h = bin_at(t, b);
                lemma_insert_contains(fl, j, c, h);
                if own is None && b == index {
                    assert(h == c);
                } else {
                    assert(h == bin_at(s, b));
                    assert(fl.contains(h));
                    let i = choose|i: int| 0 <= i < fl.len() && fl[i] == h;
                    assert(word_at(t, fl[i]) == word_at(s, fl[i]));
                }
            }
        }
        Ghost(j)
    }

    /// Replaces the top chunk `top` by `new_top` at the end of the free
    /// list and at the head of the last bin.
    pub(crate) fn update_top_chunk(
        &self,
        mem: &mut [u8],
        top: Chunk,
        new_top: Chunk,
        Ghost(fl): Ghost<Seq<int>>,
    )
        requires
            list_ok(old(mem)@, fl, top.data as int),
            bins_ok(old(mem)@, fl, top.data as int),
            list_sizes(old(mem)@, fl),
            old(mem)@.len() <= usize::MAX,
            top.limit == self.limit,
            new_top.limit == self.limit,
            768 <= new_top.data,
            new_top.data % 8 == 0,
            new_top.data + 32 <= old(mem)@.len(),
            !in_use_at(old(mem)@, new_top.data as int),
            forall|j: int| 0 <= j < fl.len() ==> apart(#[trigger] fl[j], new_top.data as int),
        ensures
            final(mem)@.len() == old(mem)@.len(),
            list_ok(final(mem)@, fl.update(fl.len() - 1, new_top.data as int), new_top.data as int),
            bins_ok(final(mem)@, fl.update(fl.len() - 1, new_top.data as int), new_top.data as int),
            modified_only(old(mem)@, final(mem)@, top_words(fl, new_top.data as int)),
            heads_of(final(mem)@) == heads_of(old(mem)@).update(95, new_top.data as int),
    {
        let ghost s = mem@;
        let ghost t0 = top.data as int;
        let ghost n = new_top.data as int;
        let ghost last = fl.len() - 1;
        let ghost fl2 = fl.update(last, n);
        let ghost ws = top_words(fl, n);
        assert(fl[last] == t0);
        assert(apart(fl[last], n));
        assert(prev_at(s, fl[last]) == (if last == 0 {
            0
        } else {
            fl[last - 1]
        }));
        proof {
            if last > 0 {
                assert(apart(fl[last - 1], n));
                assert(apart(fl[last - 1], fl[last]));
            }
        }
        new_top.set_next(mem, None);
        let ghost s1 = mem@;
        proof {
            lemma_put_word_modified(s, n + 16, link_word(None));
            lemma_modified_word(s, s1, set![n + 16], n);
            lemma_modified_word(s, s1, set![n + 16], t0);
            lemma_modified_word(s, s1, set![n + 16], t0 + 8);
        }
        let prev = top.get_prev(mem);
        new_top.set_prev(mem, prev);
        let ghost s2 = mem@;
        proof {
            lemma_put_word_modified(s1, n + 8, link_word(prev));
            lemma_modified_word(s1, s2, set![n + 8], n + 16);
            lemma_modified_trans(s, s1, s2, set![n + 16], set![n + 8], ws);
        }
        match prev {
            Some(prev_chunk) => {
                proof {
                    assert(prev_chunk.data == fl[last - 1]);
                    lemma_modified_word(s, s2, ws, fl[last - 1]);
                }
                prev_chunk.set_next(mem, Some(new_top));
                proof {
                    lemma_put_word_modified(s2, fl[last - 1] + 16, link_word(Some(new_top)));
                }
            },
            None => {},
        }
        let ghost s3 = mem@;
        proof {
            if last > 0 {
                lemma_modified_trans(s, s2, s3, ws, set![fl[last - 1] + 16], ws);
                lemma_modified_word(s2, s3, set![fl[last - 1] + 16], n + 16);
                lemma_modified_word(s2, s3, set![fl[last - 1] + 16], n + 8);
            }
        }
        self.set_bin_chunk(mem, BINS_LEN - 1, Some(new_top));
        proof {
            let t = mem@;
            lemma_put_word_modified(s3, 760, link_word(Some(new_top)));
            lemma_modified_trans(s, s3, t, ws, set![760int], ws);
            assert forall|x: int| 0 <= x && x % 8 == 0 && x + 8 <= s.len() && !ws.contains(
                x,
            ) implies word_at(t, x) == word_at(s, x) by {
                lemma_modified_word(s, t, ws, x);
            }
            lemma_modified_word(s3, t, set![760int], n + 16);
            lemma_modified_word(s3, t, set![760int], n + 8);
            if last > 0 {
                lemma_modified_word(s3, t, set![760int], fl[last - 1] + 16);
            }
            assert forall|j: int| 0 <= j < fl2.len() implies 768 <= #[trigger] fl2[j] && fl2[j] % 8
                == 0 && fl2[j] + 32 <= t.len() by {
                if j < last {
                    assert(fl2[j] == fl[j]);
                }
            }
            assert forall|j: int, i: int| 0 <= j < i < fl2.len() implies apart(
                #[trigger] fl2[j],
                #[trigger] fl2[i],
            ) by {
                if i == last {
                    assert(apart(fl[j], n));
                } else {
                    assert(apart(fl[j], fl[i]));
                }
            }
            assert forall|j: int| 0 <= j < fl2.len() implies #[trigger] prev_at(t, fl2[j]) == (if j
                == 0 {
                0
            } else {
                fl2[j - 1]
            }) by {
                if j < last {
                    assert(fl2[j] == fl[j]);
                    assert(apart(fl[j], n));
                    if j < last - 1 {
                        assert(apart(fl[j], fl[last - 1]));
                    }
                    assert(prev_at(s, fl[j]) == (if j == 0 {
                        0
                    } else {
                        fl[j - 1]
                    }));
                    assert(word_at(t, fl[j] + 8) == word_at(s, fl[j] + 8));
                }
            }
            assert forall|j: int| 0 <= j < fl2.len() implies #[trigger] next_at(t, fl2[j]) == (if j
                == fl2.len() - 1 {
                0
            } else {
                fl2[j + 1]
            }) by {
                if j < last - 1 {
                    assert(fl2[j] == fl[j]);
                    assert(apart(fl[j], n));
                    assert(apart(fl[j], fl[last - 1]));
                    assert(next_at(s, fl[j]) == fl[j + 1]);
                    assert(word_at(t, fl[j] + 16) == word_at(s, fl[j] + 16));
                }
            }
            assert forall|b: int| 3 <= b < 96 && #[trigger] bin_at(t, b) != 0 implies fl2.contains(
                bin_at(t, b),
            ) && bin_of(t, bin_at(t, b), n) == b by {
                if b == 95 {
                    assert(fl2[last] == n);
                } else {
                    assert(bin_at(t, b) == bin_at(s, b));
                    let h = bin_at(s, b);
                    assert(fl.contains(h));
                    assert(bin_of(s, h, t0) == b);
                    let j = choose|j: int| 0 <= j < fl.len() && fl[j] == h;
                    assert(fl2[j] == h);
                    assert(apart(fl[j], n));
                    assert(word_at(t, fl[j]) == word_at(s, fl[j]));
                }
            }
        }
    }

    /// The view of the first chunk, right behind the bin table.
    pub fn start_chunk(&self) -> (chunk: Chunk)
        requires
            768 < self.limit,
        ensures
            chunk == (Chunk { data: 768, limit: self.limit }),
    {
        Chunk::new(START, self.limit)
    }

    /// Empties every bin.
    fn clear_bins(&self, mem: &mut [u8])
        requires
            768 <= old(mem)@.len(),
        ensures
            final(mem)@.len() == old(mem)@.len(),
            forall|b: int| 0 <= b < 96 ==> #[trigger] bin_at(final(mem)@, b) == 0,
    {
        let mut index: usize = 0;
        while index < BINS_LEN
            invariant
                0 <= index <= 96,
                mem@.len() == old(mem)@.len(),
                768 <= mem@.len(),
                forall|b: int| 0 <= b < index ==> #[trigger] bin_at(mem@, b) == 0,
            decreases 96 - index,
        {
            let ghost before = mem@;
            self.set_bin_chunk(mem, index, None);
            proof {
                lemma_put_word_modified(before, 8 * index, link_word(None));
                assert forall|b: int| 0 <= b < index + 1 implies #[trigger] bin_at(mem@, b)
                    == 0 by {
                    if b < index {
                        lemma_modified_word(before, mem@, set![8 * index], 8 * b);
                        assert(bin_at(before, b) == 0);
                    }
                }
            }
            index = index + 1;
        }
    }

    /// Lays out an empty space: an empty bin table, one free chunk from
    /// behind the table up to the top chunk, the top chunk itself in the
    /// last bin, and the sentinel in byte 0.
    pub(crate) fn init_shape(&self, mem: &mut [u8], len: usize) -> (m: Ghost<Model>)
        requires
            len == old(mem)@.len(),
            self.limit == len,
            len >= 768 + 64,
            len % 8 == 0,
        ensures
            final(mem)@.len() == len,
            settled(final(mem)@, m@),
            m@.cs == seq![768int, len - 32],
            m@.fl == seq![768int, len - 32],
            !in_use_at(final(mem)@, 768),
            size_at(final(mem)@, 768) == len - 800,
            forall|b: int|
                3 <= b < 96 ==> #[trigger] bin_at(final(mem)@, b) == (if b == 95 {
                    len - 32
                } else if b == bin_index((len - 808) as nat) {
                    768
                } else {
                    0
                }),
    {
        let ghost top = len - 32;
        let ghost big = len - 800;
        self.clear_bins(mem);
        let ghost s1 = mem@;
        let chunk = self.start_chunk();
        let chunk_size = len - START - MIN_SIZE;
        chunk.set_in_use_and_size(mem, false, chunk_size);
        let ghost s2 = mem@;
        proof {
            lemma_after_set(s1, 768, false, big);
        }
        chunk.set_lower_in_use(mem, true);
        let ghost s3 = mem@;
        proof {
            lemma_with_lower(word_at(s2, 768), true);
            lemma_put_word_modified(s2, 768, crate::linked::layout::with_lower(word_at(s2, 768),
                true));
            lemma_modified_word(s2, s3, set![768int], top);
            lemma_modified_word(s2, s3, set![768int], top - 8);
        }
        let top_chunk = chunk.get_higher_chunk(mem);
        top_chunk.set_in_use_and_size(mem, false, MIN_SIZE);
        let ghost s4 = mem@;
        proof {
            lemma_after_set(s3, top, false, 32);
            let xs = set_words(s3, top, false, 32);
            lemma_modified_word(s3, s4, xs, 768);
            lemma_modified_word(s3, s4, xs, top - 8);
        }
        top_chunk.set_next(mem, None);
        let ghost s5 = mem@;
        proof {
            lemma_put_word_modified(s4, top + 16, link_word(None));
            lemma_modified_word(s4, s5, set![top + 16], 768);
            lemma_modified_word(s4, s5, set![top + 16], top - 8);
            lemma_modified_word(s4, s5, set![top + 16], top);
            lemma_modified_word(s4, s5, set![top + 16], top + 24);
        }
        top_chunk.set_prev(mem, None);
        let ghost s6 = mem@;
        proof {
            lemma_put_word_modified(s5, top + 8, link_word(None));
            lemma_modified_word(s5, s6, set![top + 8], 768);
            lemma_modified_word(s5, s6, set![top + 8], top - 8);
            lemma_modified_word(s5, s6, set![top + 8], top);
            lemma_modified_word(s5, s6, set![top + 8], top + 16);
            lemma_modified_word(s5, s6, set![top + 8], top + 24);
        }
        self.set_bin_chunk(mem, BINS_LEN - 1, Some(top_chunk));
        let ghost s7 = mem@;
        let ghost fl1 = seq![top];
        proof {
            lemma_put_word_modified(s6, 760, link_word(Some(top_chunk)));
            lemma_modified_word(s6, s7, set![760int], 768);
            lemma_modified_word(s6, s7, set![760int], top - 8);
            lemma_modified_word(s6, s7, set![760int], top);
            lemma_modified_word(s6, s7, set![760int], top + 8);
            lemma_modified_word(s6, s7, set![760int], top + 16);
            lemma_modified_word(s6, s7, set![760int], top + 24);
            assert forall|b: int| 0 <= b < 95 implies #[trigger] bin_at(s7, b) == 0 by {
                assert(bin_at(s1, b) == 0);
                lemma_modified_word(s1, s2, set_words(s1, 768, false, big), 8 * b);
                lemma_modified_word(s2, s3, set![768int], 8 * b);
                lemma_modified_word(s3, s4, set_words(s3, top, false, 32), 8 * b);
                lemma_modified_word(s4, s5, set![top + 16], 8 * b);
                lemma_modified_word(s5, s6, set![top + 8], 8 * b);
                lemma_modified_word(s6, s7, set![760int], 8 * b);
            }
            assert(fl1[0] == top);
            assert(list_ok(s7, fl1, top));
            assert(bins_ok(s7, fl1, top));
            assert(list_sizes(s7, fl1));
        }
        let k = self.add_chunk(mem, chunk, Ghost(fl1), Ghost(top));
        let ghost s8 = mem@;
        let ghost fl2 = fl1.insert(k@, 768);
        proof {
            assert(fl2 =~= seq![768int, top]);
            let cs = seq![768int, top];
            assert(cs[0] == 768 && cs[1] == top);
            assert(cs[1] == next_start(s7, cs, 0));
            assert forall|i: int| 0 <= i < cs.len() - 1 implies cs[i + 1] == #[trigger] next_start(
                s7,
                cs,
                i,
            ) by {}
            assert(tiled(s7, cs, len as int));
            assert(footer_pos(s7, 768) == top - 8);
            assert(footer_pos(s7, top) == top + 24);
            assert forall|i: int| 1 <= i < cs.len() implies #[trigger] lower_in_use_at(s7, cs[i])
                == in_use_at(s7, cs[i - 1]) by {}
            assert(flags_ok(s7, cs));
            assert forall|j: int| 0 <= j < fl2.len() implies cs.contains(#[trigger] fl2[j])
                && !in_use_at(s7, fl2[j]) by {
                if j == 0 {
                    assert(cs[0] == fl2[0]);
                } else {
                    assert(cs[1] == fl2[1]);
                }
            }
            crate::linked::model::lemma_far_words(s7, s8, fl2, len as int);
            lemma_list_frame(s7, s8, cs, len as int, fl2);
            lemma_same_flags(s7, s8, cs);
        }
        proof {
            assert forall|b: int| 3 <= b < 96 implies #[trigger] bin_at(s8, b) == (if b == 95 {
                top
            } else if b == bin_index((len - 808) as nat) {
                768
            } else {
                0
            }) by {
                assert(bin_at(s7, b) == (if b == 95 {
                    top
                } else {
                    0
                }));
            }
        }
        mem[0] = SENTINEL;
        proof {
            let t = mem@;
            let cs = seq![768int, top];
            let m = Model { cs, fl: fl2, loose: Set::empty(), end: len as int, top };
            assert(modified_only(s8, t, set![0int])) by {
                assert forall|k: int|
                    0 <= k < s8.len() && !set![0int].contains(
                        crate::words::word_start(k),
                    ) implies #[trigger] t[k] == s8[k] by {}
            }
            lemma_low_frame(s8, t, m, set![0int]);
            assert forall|b: int| 3 <= b < 96 implies #[trigger] bin_at(t, b) == bin_at(s8, b) by {
                lemma_modified_word(s8, t, set![0int], 8 * b);
            }
            assert forall|i: int|
                0 <= i < cs.len() - 2 && #[trigger] both_free(t, cs, i) implies m.loose.contains(
                cs[i],
            ) || m.loose.contains(cs[i + 1]) by {}
            assert forall|j: int| 0 <= j < fl2.len() implies cs.contains(#[trigger] fl2[j])
                && !in_use_at(t, fl2[j]) by {
                if j == 0 {
                    assert(cs[0] == fl2[0]);
                } else {
                    assert(cs[1] == fl2[1]);
                }
            }
            assert forall|i: int| 0 <= i < cs.len() && !in_use_at(t, #[trigger] cs[i])
                implies fl2.contains(
                cs[i],
            ) || m.loose.contains(cs[i]) by {
                if i == 0 {
                    assert(fl2[0] == cs[0]);
                } else {
                    assert(fl2[1] == cs[1]);
                }
            }
            assert(linked_ok(t, cs, fl2, m.loose));
            assert(shape(t, m));
        }
        Ghost(Model {
            cs: seq![768int, len - 32],
            fl: seq![768int, len - 32],
            loose: Set::empty(),
            end: len as int,
            top: len - 32,
        })
    }

    /// Takes the list member `chunk` off the free list and leaves it loose.
    pub(crate) fn detach(&self, mem: &mut [u8], chunk: Chunk, Ghost(m): Ghost<Model>)
        requires
            shape(old(mem)@, m),
            m.fl.contains(chunk.data as int),
            chunk.data != m.top,
            chunk.limit == self.limit,
        ensures
            final(mem)@.len() == old(mem)@.len(),
            final(mem)@[0] == old(mem)@[0],
            shape(final(mem)@, detached(m, chunk.data as int)),
            lists(final(mem)@, detached(m, chunk.data as int).fl) == unlisted(
                old(mem)@,
                lists(old(mem)@, m.fl),
                chunk.data as int,
            ),
            metas_same(old(mem)@, final(mem)@, m.cs),
            carried(old(mem)@, m.cs, final(mem)@, m.cs, -1),
            fresh_only(old(mem)@, m.cs, final(mem)@, m.cs, -1),
    {
        let ghost s = mem@;
        let ghost c = chunk.data as int;
        let ghost k = index_of(m.fl, c);
        let ghost m2 = detached(m, c);
        proof {
            lemma_list_sizes(s, m);
        }
        self.remove_chunk(mem, chunk, Ghost(m.fl), Ghost(m.top), Ghost(k));
        proof {
            let t = mem@;
            crate::linked::model::lemma_far_words(s, t, m.fl, m.end);
            lemma_list_frame(s, t, m.cs, m.end, m.fl);
            lemma_same_flags(s, t, m.cs);
            assert forall|j: int|
                0 <= j < m.cs.len() - 2 && #[trigger] both_free(t, m.cs, j)
                    implies m2.loose.contains(
                m.cs[j],
            ) || m2.loose.contains(m.cs[j + 1]) by {
                assert(both_free(s, m.cs, j));
            }
            assert forall|j: int| 0 <= j < m2.fl.len() implies m.cs.contains(#[trigger] m2.fl[j])
                && !in_use_at(t, m2.fl[j]) by {
                let a = if j < k {
                    j
                } else {
                    j + 1
                };
                assert(m2.fl[j] == m.fl[a]);
                assert(m.cs.contains(m.fl[a]));
                let b = index_of(m.cs, m.fl[a]);
                assert(in_use_at(t, m.cs[b]) == in_use_at(s, m.cs[b]));
            }
            assert forall|j: int| 0 <= j < m.cs.len()
                && !in_use_at(t, #[trigger] m.cs[j]) implies m2.fl.contains(
                m.cs[j],
            ) || m2.loose.contains(m.cs[j]) by {
                if m.fl.contains(m.cs[j]) && m.cs[j] != c {
                    lemma_remove_contains(m.fl, k, m.cs[j]);
                }
            }
            assert forall|x: int| #[trigger] m2.loose.contains(x) implies m.cs.contains(x)
                && !m2.fl.contains(x) by {
                if m2.fl.contains(x) {
                    lemma_remove_contained(m.fl, k, x);
                    let j = choose|j: int| 0 <= j < m2.fl.len() && m2.fl[j] == x;
                    let a = if j < k {
                        j
                    } else {
                        j + 1
                    };
                    assert(m2.fl[j] == m.fl[a]);
                    assert(a == k || apart(m.fl[a], m.fl[k]) || apart(m.fl[k], m.fl[a]));
                }
                assert(m.fl[k] == c);
                assert(m.cs.contains(m.fl[k]));
            }
            lemma_carried_links(s, t, m.cs);
        }
    }

    /// Puts the loose free chunk `chunk` on the free list. Its neighbours
    /// must not be free chunks that are on the list themselves.
    pub(crate) fn attach(&self, mem: &mut [u8], chunk: Chunk, Ghost(m): Ghost<Model>) -> (k: Ghost<
        int,
    >)
        requires
            shape(old(mem)@, m),
            m.loose.contains(chunk.data as int),
            !in_use_at(old(mem)@, chunk.data as int),
            chunk.data != m.cs[m.cs.len() - 1],
            chunk.limit == self.limit,
            ({
                let a = index_of(m.cs, chunk.data as int);
                &&& a > 0 ==> in_use_at(old(mem)@, m.cs[a - 1]) || m.loose.contains(m.cs[a - 1])
                &&& a + 1 < m.cs.len() - 1 ==> in_use_at(old(mem)@, m.cs[a + 1])
                    || m.loose.contains(m.cs[a + 1])
            }),
        ensures
            0 <= k@ < m.fl.len(),
            final(mem)@.len() == old(mem)@.len(),
            final(mem)@[0] == old(mem)@[0],
            shape(final(mem)@, attached(m, chunk.data as int, k@)),
            lists(final(mem)@, attached(m, chunk.data as int, k@).fl) == listed(
                old(mem)@,
                lists(old(mem)@, m.fl),
                chunk.data as int,
                size_at(old(mem)@, chunk.data as int),
            ),
            metas_same(old(mem)@, final(mem)@, m.cs),
            carried(old(mem)@, m.cs, final(mem)@, m.cs, -1),
            fresh_only(old(mem)@, m.cs, final(mem)@, m.cs, -1),
    {
        let ghost s = mem@;
        let ghost c = chunk.data as int;
        let ghost a = index_of(m.cs, c);
        proof {
            lemma_list_sizes(s, m);
            lemma_chunk_end(s, m.cs, m.end, a);
            assert forall|j: int| 0 <= j < m.fl.len() implies apart(#[trigger] m.fl[j], c) by {
                assert(m.cs.contains(m.fl[j]));
                let b = index_of(m.cs, m.fl[j]);
                assert(m.fl.contains(m.fl[j]));
                if a < b {
                    lemma_ordered(s, m.cs, m.end, a, b);
                } else {
                    lemma_ordered(s, m.cs, m.end, b, a);
                }
            }
        }
        let k = self.add_chunk(mem, chunk, Ghost(m.fl), Ghost(m.top));
        proof {
            let t = mem@;
            let m2 = attached(m, c, k@);
            assert forall|j: int| 0 <= j < m2.fl.len() implies m.cs.contains(#[trigger] m2.fl[j])
                && !in_use_at(s, m2.fl[j]) by {
                if j < k@ {
                    assert(m2.fl[j] == m.fl[j]);
                } else if j > k@ {
                    assert(m2.fl[j] == m.fl[j - 1]);
                }
            }
            crate::linked::model::lemma_far_words(s, t, m2.fl, m.end);
            lemma_list_frame(s, t, m.cs, m.end, m2.fl);
            lemma_same_flags(s, t, m.cs);
            assert forall|j: int|
                0 <= j < m.cs.len() - 2 && #[trigger] both_free(t, m.cs, j)
                    implies m2.loose.contains(
                m.cs[j],
            ) || m2.loose.contains(m.cs[j + 1]) by {
                assert(both_free(s, m.cs, j));
                if m.cs[j] == c {
                    crate::linked::model::lemma_owner_unique(s, m.cs, m.end, a, j, c);
                    if m.cs[j + 1] == c {
                        crate::linked::model::lemma_owner_unique(s, m.cs, m.end, a, j + 1, c);
                    }
                } else if m.cs[j + 1] == c {
                    crate::linked::model::lemma_owner_unique(s, m.cs, m.end, a, j + 1, c);
                }
            }
            assert forall|j: int| 0 <= j < m2.fl.len() implies m.cs.contains(#[trigger] m2.fl[j])
                && !in_use_at(t, m2.fl[j]) by {
                let b = index_of(m.cs, m2.fl[j]);
                assert(in_use_at(t, m.cs[b]) == in_use_at(s, m.cs[b]));
            }
            assert forall|j: int| 0 <= j < m.cs.len()
                && !in_use_at(t, #[trigger] m.cs[j]) implies m2.fl.contains(
                m.cs[j],
            ) || m2.loose.contains(m.cs[j]) by {
                lemma_insert_contains(m.fl, k@, c, m.cs[j]);
            }
            assert forall|x: int| #[trigger] m2.loose.contains(x) implies m.cs.contains(x)
                && !m2.fl.contains(x) by {
                lemma_insert_contains(m.fl, k@, c, x);
            }
            lemma_carried_links(s, t, m.cs);
        }
        k
    }

    /// Takes `chunk`, which is not the top chunk, out of the doubly linked
    /// list and returns its successor. Bins are not touched.
    fn unlink(
        &self,
        mem: &mut [u8],
        chunk: Chunk,
        Ghost(fl): Ghost<Seq<int>>,
        Ghost(top): Ghost<int>,
        Ghost(k): Ghost<int>,
    ) -> (next: Chunk)
        requires
            list_ok(old(mem)@, fl, top),
            list_sizes(old(mem)@, fl),
            0 <= k < fl.len() - 1,
            fl[k] == chunk.data,
            chunk.limit == self.limit,
        ensures
            final(mem)@.len() == old(mem)@.len(),
            list_ok(final(mem)@, fl.remove(k), top),
            modified_only(old(mem)@, final(mem)@, unlink_words(fl, k)),
            next == (Chunk { data: fl[k + 1] as usize, limit: self.limit }),
    {
        let ghost s = mem@;
        let ghost c = chunk.data as int;
        let _len: usize = mem.len();
        assert(fl[k] == c);
        assert(next_at(s, fl[k]) == fl[k + 1]);
        assert(prev_at(s, fl[k]) == (if k == 0 {
            0
        } else {
            fl[k - 1]
        }));
        assert(fl[k + 1] >= 768);
        let next = match chunk.get_next(mem) {
            Some(next) => next,
            None => chunk,
        };
        let prev = chunk.get_prev(mem);
        assert(next.data == fl[k + 1]);
        next.set_prev(mem, prev);
        let ghost s1 = mem@;
        proof {
            lemma_put_word_modified(s, fl[k + 1] + 8, link_word(prev));
        }
        match prev {
            Some(prev_chunk) => {
                assert(prev_chunk.data == fl[k - 1]);
                assert(apart(fl[k - 1], fl[k + 1]));
                assert(in_use_at(s1, fl[k - 1]) == in_use_at(s, fl[k - 1])) by {
                    lemma_modified_word(s, s1, set![fl[k + 1] + 8], fl[k - 1]);
                }
                prev_chunk.set_next(mem, Some(next));
                proof {
                    lemma_put_word_modified(s1, fl[k - 1] + 16, link_word(Some(next)));
                }
            },
            None => {},
        }
        let ghost s2 = mem@;
        let ghost fl2 = fl.remove(k);
        proof {
            let xs = unlink_words(fl, k);
            if k > 0 {
                lemma_modified_trans(s, s1, s2, set![fl[k + 1] + 8], set![fl[k - 1] + 16], xs);
            } else {
                lemma_modified_trans(s, s1, s2, set![fl[k + 1] + 8], Set::empty(), xs);
            }
            assert forall|x: int|
                0 <= x && x % 8 == 0 && x + 8 <= s.len() && !xs.contains(x) implies word_at(s2, x)
                == word_at(s, x) by {
                lemma_modified_word(s, s2, xs, x);
            }
            assert(word_at(s2, fl[k + 1] + 8) == link_word(prev)) by {
                if k > 0 {
                    assert(apart(fl[k - 1], fl[k + 1]));
                    lemma_modified_word(s1, s2, set![fl[k - 1] + 16], fl[k + 1] + 8);
                }
            }
            assert forall|j: int| 0 <= j < fl2.len() implies 768 <= #[trigger] fl2[j] && fl2[j] % 8
                == 0 && fl2[j] + 32 <= s2.len() by {
                if j < k {
                    assert(fl2[j] == fl[j]);
                } else {
                    assert(fl2[j] == fl[j + 1]);
                }
            }
            assert forall|j: int, i: int| 0 <= j < i < fl2.len() implies apart(
                #[trigger] fl2[j],
                #[trigger] fl2[i],
            ) by {
                let a = if j < k {
                    j
                } else {
                    j + 1
                };
                let b = if i < k {
                    i
                } else {
                    i + 1
                };
                assert(apart(fl[a], fl[b]));
            }
            assert forall|j: int| 0 <= j < fl2.len() implies #[trigger] prev_at(s2, fl2[j]) == (if j
                == 0 {
                0
            } else {
                fl2[j - 1]
            }) by {
                let a = if j < k {
                    j
                } else {
                    j + 1
                };
                assert(fl2[j] == fl[a]);
                assert(prev_at(s, fl[a]) == (if a == 0 {
                    0
                } else {
                    fl[a - 1]
                }));
                if a != k + 1 {
                    assert(apart(fl[a], fl[k + 1]));
                    if k > 0 {
                        if a != k - 1 {
                            assert(apart(fl[a], fl[k - 1]));
                        }
                    }
                    assert(word_at(s2, fl[a] + 8) == word_at(s, fl[a] + 8));
                }
            }
            assert forall|j: int| 0 <= j < fl2.len() implies #[trigger] next_at(s2, fl2[j]) == (if j
                == fl2.len() - 1 {
                0
            } else {
                fl2[j + 1]
            }) by {
                let a = if j < k {
                    j
                } else {
                    j + 1
                };
                assert(fl2[j] == fl[a]);
                assert(next_at(s, fl[a]) == (if a == fl.len() - 1 {
                    0
                } else {
                    fl[a + 1]
                }));
                assert(apart(fl[a], fl[k + 1]) || a == k + 1);
                if k > 0 && a == k - 1 {
                } else {
                    if k > 0 {
                        assert(apart(fl[a], fl[k - 1]));
                    }
                    assert(word_at(s2, fl[a] + 16) == word_at(s, fl[a] + 16));
                }
            }
            assert(list_ok(s2, fl2, top));
        }
        next
    }
}

/// The words that threading `c` in front of `fl[k]` rewrites: both links of
/// `c`, the back link of `fl[k]` and the forward link of its predecessor.
pub open spec fn link_words(fl: Seq<int>, k: int, c: int) -> Set<int> {
    Set::new(
        |x: int| x == c + 8 || x == c + 16 || x == fl[k] + 8 || (k > 0 && x == fl[k - 1] + 16),
    )
}

/// A change below the first list word leaves the tiling, the flags, the
/// list and the bins as they were.
pub(crate) proof fn lemma_low_frame(s: Seq<u8>, t: Seq<u8>, m: Model, xs: Set<int>)
    requires
        tiled(s, m.cs, m.end),
        flags_ok(s, m.cs),
        list_ok(s, m.fl, m.top),
        bins_ok(s, m.fl, m.top),
        modified_only(s, t, xs),
        forall|x: int| xs.contains(x) ==> x < 24,
    ensures
        tiled(t, m.cs, m.end),
        flags_ok(t, m.cs),
        list_ok(t, m.fl, m.top),
        bins_ok(t, m.fl, m.top),
        metas_same(s, t, m.cs),
{
    let cs = m.cs;
    assert forall|i: int| 0 <= i < cs.len() implies word_at(t, #[trigger] cs[i]) == word_at(
        s,
        cs[i],
    ) by {
        lemma_chunk_end(s, cs, m.end, i);
        lemma_modified_word(s, t, xs, cs[i]);
    }
    assert forall|i: int| 0 <= i < cs.len() && !in_use_at(s, cs[i]) implies word_at(
        t,
        #[trigger] footer_pos(s, cs[i]),
    ) == word_at(s, footer_pos(s, cs[i])) by {
        lemma_chunk_end(s, cs, m.end, i);
        lemma_modified_word(s, t, xs, footer_pos(s, cs[i]));
    }
    assert forall|i: int| 0 <= i < cs.len() - 1 implies cs[i + 1] == #[trigger] next_start(
        t,
        cs,
        i,
    ) by {
        assert(cs[i + 1] == next_start(s, cs, i));
    }
    assert(word_at(t, cs[cs.len() - 1]) == word_at(s, cs[cs.len() - 1]));
    assert(word_at(t, cs[0]) == word_at(s, cs[0]));
    assert forall|i: int| 1 <= i < cs.len() implies #[trigger] lower_in_use_at(t, cs[i])
        == in_use_at(t, cs[i - 1]) by {
        assert(lower_in_use_at(s, cs[i]) == in_use_at(s, cs[i - 1]));
        assert(word_at(t, cs[i - 1]) == word_at(s, cs[i - 1]));
    }
    assert forall|i: int| 0 <= i < cs.len() && !in_use_at(t, cs[i]) implies word_at(
        t,
        #[trigger] footer_pos(t, cs[i]),
    ) == size_at(t, cs[i]) by {
        assert(footer_pos(t, cs[i]) == footer_pos(s, cs[i]));
        assert(word_at(s, footer_pos(s, cs[i])) == size_at(s, cs[i]));
    }
    assert forall|j: int| 0 <= j < m.fl.len() implies size_at(t, #[trigger] m.fl[j]) == size_at(
        s,
        m.fl[j],
    ) by {
        lemma_modified_word(s, t, xs, m.fl[j]);
    }
    assert forall|x: int| xs.contains(x) implies !list_word(m.fl, x) by {
        if list_word(m.fl, x) {
            let j = choose|j: int|
                0 <= j < m.fl.len() && (x == #[trigger] m.fl[j] + 8 || x == m.fl[j] + 16);
        }
    }
    crate::linked::reshape::lemma_lists_kept(s, t, m.fl, m.top, xs);
}

/// The shape after the list member `c` was taken off the list.
pub open spec fn detached(m: Model, c: int) -> Model {
    Model { fl: m.fl.remove(index_of(m.fl, c)), loose: m.loose.insert(c), ..m }
}

/// The shape after the loose chunk `c` went on the list at position `k`.
pub open spec fn attached(m: Model, c: int, k: int) -> Model {
    Model { fl: m.fl.insert(k, c), loose: m.loose.remove(c), ..m }
}

/// In a space that is in shape, list members are free chunks of sane size.
pub(crate) proof fn lemma_list_sizes(s: Seq<u8>, m: Model)
    requires
        shape(s, m),
    ensures
        list_sizes(s, m.fl),
{
    assert forall|j: int| 0 <= j < m.fl.len() implies !in_use_at(s, #[trigger] m.fl[j]) && 32
        <= size_at(s, m.fl[j]) <= s.len() by {
        assert(m.cs.contains(m.fl[j]));
        let b = index_of(m.cs, m.fl[j]);
        lemma_chunk_end(s, m.cs, m.end, b);
    }
}

/// Equal meta words give equal flags and sizes.
pub(crate) proof fn lemma_same_flags(s: Seq<u8>, t: Seq<u8>, cs: Seq<int>)
    requires
        metas_same(s, t, cs),
    ensures
        forall|j: int|
            0 <= j < cs.len() ==> in_use_at(t, #[trigger] cs[j]) == in_use_at(s, cs[j]) && size_at(
                t,
                cs[j],
            ) == size_at(s, cs[j]),
{
    assert forall|j: int| 0 <= j < cs.len() implies in_use_at(t, #[trigger] cs[j]) == in_use_at(
        s,
        cs[j],
    ) && size_at(t, cs[j]) == size_at(s, cs[j]) by {
        assert(word_at(t, cs[j]) == word_at(s, cs[j]));
    }
}

/// List maintenance carries every chunk in use.
pub(crate) proof fn lemma_carried_links(s: Seq<u8>, t: Seq<u8>, cs: Seq<int>)
    requires
        metas_same(s, t, cs),
        crate::linked::model::live_kept(s, t, cs, -1),
    ensures
        carried(s, cs, t, cs, -1),
        fresh_only(s, cs, t, cs, -1),
{
    lemma_same_flags(s, t, cs);
    assert forall|j: int| 0 <= j < cs.len() && cs[j] != -1 implies size_at(t, #[trigger] cs[j])
        == size_at(s, cs[j]) && in_use_at(t, cs[j]) == in_use_at(s, cs[j]) && (in_use_at(s, cs[j])
        ==> crate::linked::model::payload_same(s, t, cs[j])) by {}
    lemma_carried_same(s, t, cs, -1);
}

/// The words that replacing the top chunk by `n` rewrites: both links of
/// `n`, the forward link of the old top's predecessor, and the last bin.
pub open spec fn top_words(fl: Seq<int>, n: int) -> Set<int> {
    Set::new(
        |x: int|
            x == n + 8 || x == n + 16 || x == 8 * 95 || (fl.len() > 1 && x == fl[fl.len() - 2]
                + 16),
    )
}

/// The first bin of the space `s` at or after `b` that is not empty; the
/// last bin if all before it are.
pub open spec fn first_nonempty(s: Seq<u8>, b: int) -> int {
    first_head(heads_of(s), b)
}

/// The first bin that is not empty is `b` itself if it is not empty or is
/// the last, and the first one after it otherwise.
pub(crate) proof fn lemma_first_nonempty(s: Seq<u8>, b: int)
    requires
        3 <= b <= 95,
    ensures
        first_nonempty(s, b) == (if b >= 95 || bin_at(s, b) != 0 {
            b
        } else {
            first_nonempty(s, b + 1)
        }),
{
}

/// The position of a list member is determined by its offset.
pub(crate) proof fn lemma_index_in(s: Seq<u8>, fl: Seq<int>, top: int, k: int)
    requires
        list_ok(s, fl, top),
        0 <= k < fl.len(),
    ensures
        index_of(fl, fl[k]) == k,
        fl.contains(fl[k]),
{
    let j = index_of(fl, fl[k]);
    if j < k {
        assert(apart(fl[j], fl[k]));
    } else if k < j {
        assert(apart(fl[k], fl[j]));
    }
}

/// The search for an insert position starts at a list member.
pub(crate) proof fn lemma_start_listed(s: Seq<u8>, fl: Seq<int>, top: int, size: int)
    requires
        list_ok(s, fl, top),
        bins_ok(s, fl, top),
        32 <= size,
    ensures
        fl.contains(start_of(lists(s, fl), size)),
        0 <= index_of(fl, start_of(lists(s, fl), size)) < fl.len(),
{
    let l = lists(s, fl);
    let b = bin_for(size);
    crate::linked::bins::lemma_bin_index_range((size - 8) as nat);
    assert(fl[fl.len() - 1] == top);
    assert(l.heads[95] == bin_at(s, 95));
    if l.heads[b] != 0 {
        assert(l.heads[b] == bin_at(s, b));
    } else {
        crate::linked::lists::lemma_first_head(l.heads, b + 1);
        let f = first_head(l.heads, b + 1);
        assert(l.heads[f] == bin_at(s, f));
    }
}

/// The lists of the space `s` with the free list `fl`.
pub open spec fn lists(s: Seq<u8>, fl: Seq<int>) -> Lists {
    Lists { fl, heads: heads_of(s) }
}

/// A bin head fits in a machine word: it is no offset at all or the offset
/// of a list member.
pub(crate) proof fn lemma_head_bound(s: Seq<u8>, fl: Seq<int>, top: int, b: int)
    requires
        list_ok(s, fl, top),
        bins_ok(s, fl, top),
        3 <= b < 96,
    ensures
        0 <= bin_at(s, b) <= s.len(),
        bin_at(s, b) != 0 ==> fl.contains(bin_at(s, b)),
        b == 95 ==> bin_at(s, b) != 0,
{
    assert(fl[fl.len() - 1] == top);
    if bin_at(s, b) != 0 {
        let j = choose|j: int| 0 <= j < fl.len() && fl[j] == bin_at(s, b);
        assert(fl[j] + 32 <= s.len());
    }
}

/// Every word that threading a chunk into the list rewrites is a list word
/// of the longer list, and none of them is a bin head.
pub(crate) proof fn lemma_link_words(s: Seq<u8>, fl: Seq<int>, top: int, k: int, c: int)
    requires
        list_ok(s, fl, top),
        0 <= k < fl.len(),
        768 <= c,
    ensures
        forall|x: int| link_words(fl, k, c).contains(x) ==> list_words(fl.insert(k, c)).contains(x),
        forall|x: int| link_words(fl, k, c).contains(x) ==> x >= 768,
{
    let g = fl.insert(k, c);
    assert(g[k] == c);
    assert(g[k + 1] == fl[k]);
    assert(list_word(g, c + 8));
    assert(list_word(g, c + 16));
    assert(list_word(g, fl[k] + 8));
    assert(fl[k] >= 768);
    if k > 0 {
        assert(g[k - 1] == fl[k - 1]);
        assert(list_word(g, fl[k - 1] + 16));
        assert(fl[k - 1] >= 768);
    }
}

/// The meta word of a list member is no list word, whatever is added to
/// the list at a safe distance.
pub(crate) proof fn lemma_not_own_word(s: Seq<u8>, fl: Seq<int>, top: int, c: int, k: int, j: int)
    requires
        list_ok(s, fl, top),
        0 <= k <= fl.len(),
        0 <= j < fl.len(),
        768 <= c,
        forall|i: int| 0 <= i < fl.len() ==> apart(#[trigger] fl[i], c),
    ensures
        !list_word(fl.insert(k, c), fl[j]),
        !list_word(fl.insert(k, c), c),
        !list_word(fl, fl[j]),
{
    let g = fl.insert(k, c);
    assert(apart(fl[j], c));
    assert forall|i: int| 0 <= i < g.len() implies fl[j] != #[trigger] g[i] + 8 && fl[j] != g[i]
        + 16 && c != g[i] + 8 && c != g[i] + 16 by {
        if i == k {
        } else {
            let a = if i < k {
                i
            } else {
                i - 1
            };
            assert(g[i] == fl[a]);
            assert(apart(fl[a], c));
            if a < j {
                assert(apart(fl[a], fl[j]));
            } else if j < a {
                assert(apart(fl[j], fl[a]));
            }
        }
    }
    assert forall|i: int| 0 <= i < fl.len() implies fl[j] != #[trigger] fl[i] + 8 && fl[j] != fl[i]
        + 16 by {
        if i < j {
            assert(apart(fl[i], fl[j]));
        } else if j < i {
            assert(apart(fl[j], fl[i]));
        }
    }
}

/// Rewriting one bin head leaves the list, the sizes of its members and
/// all other bin heads as they were.
pub(crate) proof fn lemma_bins_frame(s: Seq<u8>, t: Seq<u8>, fl: Seq<int>, top: int, index: int)
    requires
        list_ok(s, fl, top),
        modified_only(s, t, set![8 * index]),
        3 <= index < 96,
    ensures
        list_ok(t, fl, top),
        forall|j: int| 0 <= j < fl.len() ==> word_at(t, #[trigger] fl[j]) == word_at(s, fl[j]),
        forall|b: int| 0 <= b < 96 && b != index ==> #[trigger] bin_at(t, b) == bin_at(s, b),
{
    let xs = set![8 * index];
    assert forall|j: int| 0 <= j < fl.len() implies word_at(t, #[trigger] fl[j]) == word_at(
        s,
        fl[j],
    ) && word_at(t, fl[j] + 8) == word_at(s, fl[j] + 8) && word_at(t, fl[j] + 16) == word_at(
        s,
        fl[j] + 16,
    ) by {
        lemma_modified_word(s, t, xs, fl[j]);
        lemma_modified_word(s, t, xs, fl[j] + 8);
        lemma_modified_word(s, t, xs, fl[j] + 16);
    }
    assert forall|b: int| 0 <= b < 96 && b != index implies #[trigger] bin_at(t, b) == bin_at(
        s,
        b,
    ) by {
        lemma_modified_word(s, t, xs, 8 * b);
    }
    assert forall|j: int| 0 <= j < fl.len() implies #[trigger] prev_at(t, fl[j]) == (if j == 0 {
        0
    } else {
        fl[j - 1]
    }) by {
        assert(word_at(t, fl[j] + 8) == word_at(s, fl[j] + 8));
        assert(prev_at(s, fl[j]) == (if j == 0 {
            0
        } else {
            fl[j - 1]
        }));
    }
    assert forall|j: int| 0 <= j < fl.len() implies #[trigger] next_at(t, fl[j]) == (if j
        == fl.len() - 1 {
        0
    } else {
        fl[j + 1]
    }) by {
        assert(word_at(t, fl[j] + 16) == word_at(s, fl[j] + 16));
        assert(next_at(s, fl[j]) == (if j == fl.len() - 1 {
            0
        } else {
            fl[j + 1]
        }));
    }
}

/// The words that taking `fl[k]` out of the list rewrites: the back link
/// of its successor and the forward link of its predecessor.
pub open spec fn unlink_words(fl: Seq<int>, k: int) -> Set<int> {
    Set::new(|x: int| x == fl[k + 1] + 8 || (k > 0 && x == fl[k - 1] + 16))
}

} // verus!
