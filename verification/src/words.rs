//! Reading and writing 64-bit little-endian words inside a byte sequence.
use vstd::prelude::*;

verus! {

/// The byte of `v` at position `k` (0 is the least significant).
pub open spec fn byte_of(v: u64, k: int) -> u8 {
    ((v >> ((8 * k) as u64)) & 0xff) as u8
}

/// The little-endian word stored in `s` at byte offset `o`.
pub closed spec fn word_at(s: Seq<u8>, o: int) -> u64 {
    (s[o] as u64) | (s[o + 1] as u64) << 8 | (s[o + 2] as u64) << 16 | (s[o + 3] as u64) << 24
        | (s[o + 4] as u64) << 32 | (s[o + 5] as u64) << 40 | (s[o + 6] as u64) << 48 | (s[o
        + 7] as u64) << 56
}

/// `s` with the eight bytes from offset `o` replaced by the little-endian
/// encoding of `v`.
#[verifier::opaque]
pub open spec fn put_word(s: Seq<u8>, o: int, v: u64) -> Seq<u8> {
    Seq::new(
        s.len(),
        |k: int|
            if o <= k < o + 8 {
                byte_of(v, k - o)
            } else {
                s[k]
            },
    )
}

/// Two byte sequences agree everywhere outside `[lo, hi)`.
pub open spec fn same_outside(s: Seq<u8>, t: Seq<u8>, lo: int, hi: int) -> bool {
    &&& s.len() == t.len()
    &&& forall|k: int| 0 <= k < s.len() && !(lo <= k < hi) ==> #[trigger] t[k] == s[k]
}

/// A word depends only on the eight bytes it covers.
pub(crate) proof fn lemma_word_depends(s: Seq<u8>, t: Seq<u8>, o: int)
    requires
        0 <= o,
        o + 8 <= s.len(),
        o + 8 <= t.len(),
        forall|k: int| o <= k < o + 8 ==> s[k] == t[k],
    ensures
        word_at(s, o) == word_at(t, o),
{
}

/// The eight bytes of `v`, least significant first.
pub open spec fn le_bytes(v: u64) -> Seq<u8> {
    Seq::new(8, |k: int| byte_of(v, k))
}

/// Equal windows of eight bytes hold equal words, wherever they lie.
pub(crate) proof fn lemma_word_window(s: Seq<u8>, o: int, t: Seq<u8>, p: int)
    requires
        0 <= o,
        o + 8 <= s.len(),
        0 <= p,
        p + 8 <= t.len(),
        s.subrange(o, o + 8) == t.subrange(p, p + 8),
    ensures
        word_at(s, o) == word_at(t, p),
{
    let a = s.subrange(o, o + 8);
    let b = t.subrange(p, p + 8);
    assert(s[o] == a[0] && t[p] == b[0]);
    assert(s[o + 1] == a[1] && t[p + 1] == b[1]);
    assert(s[o + 2] == a[2] && t[p + 2] == b[2]);
    assert(s[o + 3] == a[3] && t[p + 3] == b[3]);
    assert(s[o + 4] == a[4] && t[p + 4] == b[4]);
    assert(s[o + 5] == a[5] && t[p + 5] == b[5]);
    assert(s[o + 6] == a[6] && t[p + 6] == b[6]);
    assert(s[o + 7] == a[7] && t[p + 7] == b[7]);
}

/// A window that holds the eight bytes of `v`, least significant first,
/// holds the word `v`.
pub(crate) proof fn lemma_word_of_bytes(s: Seq<u8>, o: int, v: u64)
    requires
        0 <= o,
        o + 8 <= s.len(),
        s.subrange(o, o + 8) == le_bytes(v),
    ensures
        word_at(s, o) == v,
{
    let t = put_word(s, o, v);
    lemma_put_word(s, o, v);
    reveal(put_word);
    assert(t.subrange(o, o + 8) =~= le_bytes(v));
    lemma_word_window(s, o, t, o);
}

/// Writing a word and reading it back yields the word; every disjoint word
/// and every byte outside the written range is untouched.
pub(crate) proof fn lemma_put_word(s: Seq<u8>, o: int, v: u64)
    requires
        0 <= o,
        o + 8 <= s.len(),
    ensures
        put_word(s, o, v).len() == s.len(),
        word_at(put_word(s, o, v), o) == v,
        same_outside(s, put_word(s, o, v), o, o + 8),
        forall|x: int|
            0 <= x && x + 8 <= s.len() && (x + 8 <= o || o + 8 <= x) ==> #[trigger] word_at(
                put_word(s, o, v),
                x,
            ) == word_at(s, x),
{
    reveal(put_word);
    let t = put_word(s, o, v);
    let b0 = t[o] as u64;
    let b1 = t[o + 1] as u64;
    let b2 = t[o + 2] as u64;
    let b3 = t[o + 3] as u64;
    let b4 = t[o + 4] as u64;
    let b5 = t[o + 5] as u64;
    let b6 = t[o + 6] as u64;
    let b7 = t[o + 7] as u64;
    assert(b0 == (v >> 0) & 0xff && b1 == (v >> 8) & 0xff && b2 == (v >> 16) & 0xff && b3 == (v
        >> 24) & 0xff && b4 == (v >> 32) & 0xff && b5 == (v >> 40) & 0xff && b6 == (v >> 48) & 0xff
        && b7 == (v >> 56) & 0xff) by {
        assert(forall|x: u64| (x & 0xff) as u8 == x & 0xff) by {
            assert(forall|x: u64| x & 0xff < 256) by (bit_vector);
        }
    }
    assert(v == (((v >> 0) & 0xff) | ((v >> 8) & 0xff) << 8 | ((v >> 16) & 0xff) << 16 | ((v >> 24)
        & 0xff) << 24 | ((v >> 32) & 0xff) << 32 | ((v >> 40) & 0xff) << 40 | ((v >> 48) & 0xff)
        << 48 | ((v >> 56) & 0xff) << 56)) by (bit_vector);
    assert forall|x: int|
        0 <= x && x + 8 <= s.len() && (x + 8 <= o || o + 8 <= x) implies #[trigger] word_at(
        t,
        x,
    ) == word_at(s, x) by {
        lemma_word_depends(s, t, x);
    }
}

/// Reads the word at byte offset `o`.
pub fn load(mem: &[u8], o: usize) -> (v: u64)
    requires
        o + 8 <= mem@.len(),
    ensures
        v == word_at(mem@, o as int),
{
    (mem[o] as u64) | (mem[o + 1] as u64) << 8 | (mem[o + 2] as u64) << 16 | (mem[o + 3] as u64)
        << 24 | (mem[o + 4] as u64) << 32 | (mem[o + 5] as u64) << 40 | (mem[o + 6] as u64) << 48
        | (mem[o + 7] as u64) << 56
}

/// Writes `v` at byte offset `o`.
pub fn store(mem: &mut [u8], o: usize, v: u64)
    requires
        o + 8 <= old(mem)@.len(),
    ensures
        final(mem)@ == put_word(old(mem)@, o as int, v),
{
    let ghost before = mem@;
    let n: usize = mem.len();
    let mut k: usize = 0;
    while k < 8
        invariant
            0 <= k <= 8,
            o + 8 <= n,
            o + 8 <= mem@.len(),
            mem@.len() == before.len(),
            forall|j: int| 0 <= j < mem@.len() && !(o <= j < o + k) ==> mem@[j] == before[j],
            forall|j: int| o <= j < o + k ==> mem@[j] == byte_of(v, j - o),
        decreases 8 - k,
    {
        let shift: u64 = 8 * (k as u64);
        let b: u64 = (v >> shift) & 0xff;
        assert(b < 256) by (bit_vector)
            requires
                b == (v >> shift) & 0xff,
        ;
        mem[o + k] = b as u8;
        k += 1;
    }
    proof {
        reveal(put_word);
    }
    assert(mem@ =~= put_word(before, o as int, v));
}

/// The offset of the aligned word that holds byte `k`.
pub open spec fn word_start(k: int) -> int {
    k - k % 8
}

/// `t` differs from `s` at most inside the aligned words whose offsets are
/// in `xs`.
pub open spec fn modified_only(s: Seq<u8>, t: Seq<u8>, xs: Set<int>) -> bool {
    &&& s.len() == t.len()
    &&& forall|k: int|
        0 <= k < s.len() && !xs.contains(word_start(k)) ==> #[trigger] t[k] == s[k]
}

/// An aligned word outside the modified set keeps its value.
pub(crate) proof fn lemma_modified_word(s: Seq<u8>, t: Seq<u8>, xs: Set<int>, x: int)
    requires
        modified_only(s, t, xs),
        0 <= x,
        x % 8 == 0,
        x + 8 <= s.len(),
        !xs.contains(x),
    ensures
        word_at(t, x) == word_at(s, x),
{
    assert forall|k: int| x <= k < x + 8 implies s[k] == t[k] by {
        assert(word_start(k) == x);
    }
    lemma_word_depends(s, t, x);
}

/// Modifications compose, and the modified set may be widened.
pub(crate) proof fn lemma_modified_trans(
    s: Seq<u8>,
    t: Seq<u8>,
    u: Seq<u8>,
    xs: Set<int>,
    ys: Set<int>,
    zs: Set<int>,
)
    requires
        modified_only(s, t, xs),
        modified_only(t, u, ys),
        forall|x: int| xs.contains(x) || ys.contains(x) ==> zs.contains(x),
    ensures
        modified_only(s, u, zs),
{
    assert forall|k: int| 0 <= k < s.len() && !zs.contains(word_start(k)) implies #[trigger] u[k]
        == s[k] by {
        assert(t[k] == s[k]);
    }
}

/// Writing one aligned word modifies only that word.
pub(crate) proof fn lemma_put_word_modified(s: Seq<u8>, o: int, v: u64)
    requires
        0 <= o,
        o % 8 == 0,
        o + 8 <= s.len(),
    ensures
        modified_only(s, put_word(s, o, v), set![o]),
        word_at(put_word(s, o, v), o) == v,
        put_word(s, o, v).len() == s.len(),
{
    lemma_put_word(s, o, v);
    let t = put_word(s, o, v);
    assert forall|k: int| 0 <= k < s.len() && !set![o].contains(word_start(k))
        implies #[trigger] t[k]
        == s[k] by {
        assert(word_start(k) != o);
    }
}

} // verus!
