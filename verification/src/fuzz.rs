//! Scripts of allocator calls: their byte encoding, and a driver that plays
//! a script against an allocator.
use crate::linked::allocator::{is_valid_layout, Allocator};
use crate::space::Space;
use crate::words::{
    byte_of, le_bytes, lemma_word_of_bytes, lemma_word_window, load, word_at,
};
use vstd::arithmetic::power2::{lemma2_to64, pow2};
use vstd::bits::lemma_u64_shl_is_mul;
use vstd::prelude::*;

verus! {

/// One call of a script that allocates with alignments.
#[derive(Debug, Clone, Copy, PartialEq, Eq, Structural)]
pub enum Method {
    /// Allocate `size` bytes at alignment `align`.
    Alloc { size: usize, align: usize },
    /// Give back what call number `index` of the successful allocations
    /// returned.
    Dealloc { index: usize },
    /// Resize what call number `index` of the successful allocations
    /// returned.
    Realloc { index: usize, new_size: usize },
}

/// One call of a script that allocates bytes.
#[derive(Debug, Clone, Copy, PartialEq, Eq, Structural)]
pub enum AllocatorMethod {
    /// Allocate `size` bytes.
    Alloc { size: usize },
    /// Give back what call number `index` of the successful allocations
    /// returned.
    Dealloc { index: usize },
    /// Resize what call number `index` of the successful allocations
    /// returned.
    Realloc { index: usize, new_size: usize },
}

/// The number of zero bits below the lowest set bit of `n`; 64 for 0.
pub open spec fn trailing_zeros(n: nat) -> nat
    decreases n,
{
    if n == 0 {
        64
    } else if n % 2 == 1 {
        0
    } else {
        1 + trailing_zeros(n / 2)
    }
}

/// The alignment that the byte `log` stands for: 2 to the power of `log`
/// modulo 11.
pub open spec fn align_of_log(log: u8) -> usize {
    pow2((log % 11) as nat) as usize
}

/// The calls that the bytes from position `at` on encode. Decoding stops at
/// the first call that is cut short.
pub open spec fn decode(b: Seq<u8>, at: int) -> Seq<Method>
    decreases b.len() - at,
{
    if at < 0 || at >= b.len() {
        Seq::empty()
    } else if b[at] % 3 == 0 {
        if at + 10 > b.len() {
            Seq::empty()
        } else {
            seq![
                Method::Alloc {
                    size: word_at(b, at + 1) as usize,
                    align: align_of_log(b[at + 9]),
                },
            ].add(decode(b, at + 10))
        }
    } else if b[at] % 3 == 1 {
        if at + 9 > b.len() {
            Seq::empty()
        } else {
            seq![Method::Dealloc { index: word_at(b, at + 1) as usize }].add(decode(b, at + 9))
        }
    } else {
        if at + 17 > b.len() {
            Seq::empty()
        } else {
            seq![
                Method::Realloc {
                    index: word_at(b, at + 1) as usize,
                    new_size: word_at(b, at + 9) as usize,
                },
            ].add(decode(b, at + 17))
        }
    }
}

/// The bytes that encode one call.
pub open spec fn encode_one(method: Method) -> Seq<u8> {
    match method {
        Method::Alloc { size, align } => seq![0u8].add(le_bytes(size as u64)).add(
            seq![trailing_zeros(align as nat) as u8],
        ),
        Method::Dealloc { index } => seq![1u8].add(le_bytes(index as u64)),
        Method::Realloc { index, new_size } => seq![2u8].add(le_bytes(index as u64)).add(
            le_bytes(new_size as u64),
        ),
    }
}

/// The bytes that encode the calls `methods`, one after the other.
pub open spec fn encode(methods: Seq<Method>) -> Seq<u8>
    decreases methods.len(),
{
    if methods.len() == 0 {
        Seq::empty()
    } else {
        encode(methods.drop_last()).add(encode_one(methods.last()))
    }
}

/// The calls that the bytes from position `at` on encode, for scripts
/// without alignments.
pub open spec fn decode_plain(b: Seq<u8>, at: int) -> Seq<AllocatorMethod>
    decreases b.len() - at,
{
    if at < 0 || at >= b.len() {
        Seq::empty()
    } else if b[at] % 3 == 0 {
        if at + 9 > b.len() {
            Seq::empty()
        } else {
            seq![AllocatorMethod::Alloc { size: word_at(b, at + 1) as usize }].add(
                decode_plain(b, at + 9),
            )
        }
    } else if b[at] % 3 == 1 {
        if at + 9 > b.len() {
            Seq::empty()
        } else {
            seq![AllocatorMethod::Dealloc { index: word_at(b, at + 1) as usize }].add(
                decode_plain(b, at + 9),
            )
        }
    } else {
        if at + 17 > b.len() {
            Seq::empty()
        } else {
            seq![
                AllocatorMethod::Realloc {
                    index: word_at(b, at + 1) as usize,
                    new_size: word_at(b, at + 9) as usize,
                },
            ].add(decode_plain(b, at + 17))
        }
    }
}

/// The bytes that encode one call of a script without alignments.
pub open spec fn encode_one_plain(method: AllocatorMethod) -> Seq<u8> {
    match method {
        AllocatorMethod::Alloc { size } => seq![0u8].add(le_bytes(size as u64)),
        AllocatorMethod::Dealloc { index } => seq![1u8].add(le_bytes(index as u64)),
        AllocatorMethod::Realloc { index, new_size } => seq![2u8].add(le_bytes(index as u64)).add(
            le_bytes(new_size as u64),
        ),
    }
}

/// The bytes that encode the calls `methods` of a script without
/// alignments.
pub open spec fn encode_plain(methods: Seq<AllocatorMethod>) -> Seq<u8>
    decreases methods.len(),
{
    if methods.len() == 0 {
        Seq::empty()
    } else {
        encode_plain(methods.drop_last()).add(encode_one_plain(methods.last()))
    }
}

/// Whether the call survives encoding: an allocation's alignment must be
/// one that its encoding can carry.
pub open spec fn encodable(method: Method) -> bool {
    match method {
        Method::Alloc { align, .. } => align_of_log(trailing_zeros(align as nat) as u8) == align,
        _ => true,
    }
}

/// The powers of two up to 2^10 are the alignments that an encoding can
/// carry.
pub proof fn lemma_encodable_align(k: nat)
    requires
        k <= 10,
    ensures
        pow2(k) <= usize::MAX,
        encodable(Method::Alloc { size: 0, align: pow2(k) as usize }),
{
    lemma2_to64();
    lemma_trailing_zeros_pow2(k);
}

/// A power of two has as many trailing zeros as its exponent says.
pub(crate) proof fn lemma_trailing_zeros_pow2(k: nat)
    ensures
        trailing_zeros(pow2(k)) == k,
    decreases k,
{
    lemma2_to64();
    vstd::arithmetic::power2::lemma_pow2_pos(k);
    if k > 0 {
        vstd::arithmetic::power2::lemma_pow2_unfold(k);
        lemma_trailing_zeros_pow2((k - 1) as nat);
        assert(pow2(k) / 2 == pow2((k - 1) as nat));
    }
}

/// Decoding past a prefix is decoding what follows it.
pub(crate) proof fn lemma_decode_shift(a: Seq<u8>, b: Seq<u8>, k: int)
    requires
        0 <= k,
    ensures
        decode(a.add(b), a.len() + k) == decode(b, k),
    decreases b.len() - k,
{
    let ab = a.add(b);
    let at = a.len() + k;
    if k < b.len() {
        assert(ab[at] == b[k]);
        if k + 9 <= b.len() {
            assert(ab.subrange(at + 1, at + 9) =~= b.subrange(k + 1, k + 9));
            lemma_word_window(ab, at + 1, b, k + 1);
        }
        if k + 10 <= b.len() {
            assert(ab[at + 9] == b[k + 9]);
        }
        if k + 17 <= b.len() {
            assert(ab.subrange(at + 9, at + 17) =~= b.subrange(k + 9, k + 17));
            lemma_word_window(ab, at + 9, b, k + 9);
        }
        if b[k] % 3 == 0 {
            if k + 10 <= b.len() {
                lemma_decode_shift(a, b, k + 10);
            }
        } else if b[k] % 3 == 1 {
            if k + 9 <= b.len() {
                lemma_decode_shift(a, b, k + 9);
            }
        } else {
            if k + 17 <= b.len() {
                lemma_decode_shift(a, b, k + 17);
            }
        }
    }
}

/// Decoding the encoding of one call, followed by more bytes, yields the
/// call, followed by what the other bytes decode to.
pub(crate) proof fn lemma_decode_one(method: Method, b: Seq<u8>)
    requires
        encodable(method),
    ensures
        decode(encode_one(method).add(b), 0) == seq![method].add(decode(b, 0)),
{
    let e = encode_one(method);
    let eb = e.add(b);
    match method {
        Method::Alloc { size, align } => {
            assert(e.len() == 10);
            assert(eb[0] == 0);
            assert(eb.subrange(1, 9) =~= le_bytes(size as u64));
            lemma_word_of_bytes(eb, 1, size as u64);
            assert(eb[9] == trailing_zeros(align as nat) as u8);
            lemma_decode_shift(e, b, 0);
        },
        Method::Dealloc { index } => {
            assert(e.len() == 9);
            assert(eb[0] == 1);
            assert(eb.subrange(1, 9) =~= le_bytes(index as u64));
            lemma_word_of_bytes(eb, 1, index as u64);
            lemma_decode_shift(e, b, 0);
        },
        Method::Realloc { index, new_size } => {
            assert(e.len() == 17);
            assert(eb[0] == 2);
            assert(eb.subrange(1, 9) =~= le_bytes(index as u64));
            lemma_word_of_bytes(eb, 1, index as u64);
            assert(eb.subrange(9, 17) =~= le_bytes(new_size as u64));
            lemma_word_of_bytes(eb, 9, new_size as u64);
            lemma_decode_shift(e, b, 0);
        },
    }
}

/// Decoding the encoding of a script, followed by more bytes, yields the
/// script, followed by what the other bytes decode to.
pub(crate) proof fn lemma_decode_encode(methods: Seq<Method>, b: Seq<u8>)
    requires
        forall|i: int| 0 <= i < methods.len() ==> encodable(#[trigger] methods[i]),
    ensures
        decode(encode(methods).add(b), 0) == methods.add(decode(b, 0)),
    decreases methods.len(),
{
    if methods.len() == 0 {
        assert(encode(methods).add(b) =~= b);
        assert(methods.add(decode(b, 0)) =~= decode(b, 0));
    } else {
        let front = methods.drop_last();
        let last = methods.last();
        let tail = encode_one(last).add(b);
        assert(encode(methods).add(b) =~= encode(front).add(tail));
        lemma_decode_encode(front, tail);
        lemma_decode_one(last, b);
        assert(front.add(seq![last].add(decode(b, 0))) =~= methods.add(decode(b, 0)));
    }
}

/// Encoding a script and decoding the bytes yields the script again, if
/// every call in it survives encoding.
pub proof fn lemma_script_round_trip(methods: Seq<Method>)
    requires
        forall|i: int| 0 <= i < methods.len() ==> encodable(#[trigger] methods[i]),
    ensures
        decode(encode(methods), 0) == methods,
{
    lemma_decode_encode(methods, Seq::empty());
    assert(encode(methods).add(Seq::empty()) =~= encode(methods));
    assert(methods.add(decode(Seq::<u8>::empty(), 0)) =~= methods);
}

/// Appends the eight bytes of `v`, least significant first.
fn push_word(out: &mut Vec<u8>, v: u64)
    ensures
        final(out)@ == old(out)@.add(le_bytes(v)),
{
    let ghost before = out@;
    let mut k: usize = 0;
    while k < 8
        invariant
            0 <= k <= 8,
            out@.len() == before.len() + k,
            forall|j: int| 0 <= j < before.len() ==> out@[j] == before[j],
            forall|j: int| 0 <= j < k ==> out@[before.len() + j] == byte_of(v, j),
        decreases 8 - k,
    {
        let shift: u64 = 8 * (k as u64);
        let b: u64 = (v >> shift) & 0xff;
        assert(b < 256) by (bit_vector)
            requires
                b == (v >> shift) & 0xff,
        ;
        out.push(b as u8);
        k = k + 1;
    }
    assert(out@ =~= before.add(le_bytes(v)));
}

/// Counts the zero bits below the lowest set bit of `n`.
fn count_trailing_zeros(n: usize) -> (count: u8)
    ensures
        count == trailing_zeros(n as nat),
        count <= 64,
{
    if n == 0 {
        return 64;
    }
    let mut rest = n;
    let mut count: u8 = 0;
    proof {
        lemma2_to64();
    }
    while rest % 2 == 0
        invariant
            0 < rest <= n,
            count <= 64,
            n <= u64::MAX,
            rest * pow2(count as nat) == n,
            trailing_zeros(n as nat) == count + trailing_zeros(rest as nat),
        decreases rest,
    {
        proof {
            vstd::arithmetic::power2::lemma_pow2_unfold((count + 1) as nat);
            assert((rest / 2) * pow2((count + 1) as nat) == n) by (nonlinear_arith)
                requires
                    rest % 2 == 0,
                    rest * pow2(count as nat) == n,
                    pow2((count + 1) as nat) == 2 * pow2(count as nat),
            ;
            if count == 64 {
                lemma2_to64();
                assert(rest * pow2(64) > u64::MAX) by (nonlinear_arith)
                    requires
                        rest >= 2,
                        pow2(64) == 0x10000000000000000,
                ;
            }
        }
        rest = rest / 2;
        count = count + 1;
    }
    count
}

/// The alignment that the byte `log` stands for.
fn align_from(log: u8) -> (align: usize)
    ensures
        align == align_of_log(log),
{
    let k: u64 = (log % 11) as u64;
    proof {
        lemma2_to64();
        lemma_u64_shl_is_mul(1, k);
    }
    (1u64 << k) as usize
}

impl Method {
    /// Decodes a script. Decoding stops at the first call that the bytes
    /// cut short.
    pub fn from_bytes(bytes: &[u8]) -> (methods: Vec<Self>)
        ensures
            methods@ == decode(bytes@, 0),
    {
        let mut methods: Vec<Method> = Vec::new();
        let len = bytes.len();
        let mut at: usize = 0;
        while at < len
            invariant
                len == bytes@.len(),
                0 <= at <= len,
                decode(bytes@, 0) == methods@.add(decode(bytes@, at as int)),
            ensures
                decode(bytes@, 0) == methods@,
            decreases len - at,
        {
            let ghost before = methods@;
            let kind = bytes[at] % 3;
            if kind == 0 {
                if len - at < 10 {
                    break ;
                }
                let size = load(bytes, at + 1) as usize;
                let align = align_from(bytes[at + 9]);
                methods.push(Method::Alloc { size, align });
                at = at + 10;
            } else if kind == 1 {
                if len - at < 9 {
                    break ;
                }
                let index = load(bytes, at + 1) as usize;
                methods.push(Method::Dealloc { index });
                at = at + 9;
            } else {
                if len - at < 17 {
                    break ;
                }
                let index = load(bytes, at + 1) as usize;
                let new_size = load(bytes, at + 9) as usize;
                methods.push(Method::Realloc { index, new_size });
                at = at + 17;
            }
            assert(methods@.add(decode(bytes@, at as int)) =~= before.add(
                seq![methods@.last()].add(decode(bytes@, at as int)),
            ));
        }
        methods
    }

    /// Encodes a script.
    pub fn to_bytes(methods: &[Self]) -> (bytes: Vec<u8>)
        ensures
            bytes@ == encode(methods@),
    {
        let mut bytes: Vec<u8> = Vec::new();
        let mut i: usize = 0;
        while i < methods.len()
            invariant
                0 <= i <= methods@.len(),
                bytes@ == encode(methods@.take(i as int)),
            decreases methods@.len() - i,
        {
            let ghost before = bytes@;
            match methods[i] {
                Method::Alloc { size, align } => {
                    bytes.push(0);
                    push_word(&mut bytes, size as u64);
                    bytes.push(count_trailing_zeros(align));
                },
                Method::Dealloc { index } => {
                    bytes.push(1);
                    push_word(&mut bytes, index as u64);
                },
                Method::Realloc { index, new_size } => {
                    bytes.push(2);
                    push_word(&mut bytes, index as u64);
                    push_word(&mut bytes, new_size as u64);
                },
            }
            proof {
                assert(methods@.take(i + 1).drop_last() =~= methods@.take(i as int));
                assert(methods@.take(i + 1).last() == methods@[i as int]);
                assert(bytes@ =~= before.add(encode_one(methods@[i as int])));
            }
            i = i + 1;
        }
        proof {
            assert(methods@.take(methods@.len() as int) =~= methods@);
        }
        bytes
    }

    /// Plays a script against `allocator` and gives back whatever is
    /// still allocated at the end. Calls that make no sense where they
    /// stand (a request that is no valid layout or has no size, an index
    /// that names no live allocation) are skipped.
    pub fn run_fuzz<S: Space>(methods: &[Self], allocator: &Allocator<S>) {
        let mut objects: Vec<Option<(usize, usize, usize)>> = Vec::new();
        let mut i: usize = 0;
        while i < methods.len()
            invariant
                0 <= i <= methods@.len(),
                forall|j: int|
                    0 <= j < objects@.len() ==> (#[trigger] objects@[j] matches Some(object)
                        ==> crate::powers::is_power_of_two(object.2 as int)),
            decreases methods@.len() - i,
        {
            match methods[i] {
                Method::Alloc { size, align } => {
                    if size != 0 && is_valid_layout(size, align) {
                        let ptr = allocator.allocate(size, align);
                        if ptr != 0 {
                            objects.push(Some((ptr, size, align)));
                        }
                    }
                },
                Method::Dealloc { index } => {
                    if index < objects.len() {
                        match objects[index] {
                            Some((ptr, size, align)) => {
                                allocator.dealloc(ptr, size, align);
                                objects[index] = None;
                            },
                            None => {},
                        }
                    }
                },
                Method::Realloc { index, new_size } => {
                    if index < objects.len() {
                        match objects[index] {
                            Some((ptr, size, align)) => {
                                if new_size != 0 && is_valid_layout(new_size, align) {
                                    let new_ptr = allocator.realloc(ptr, size, align, new_size);
                                    if new_ptr != 0 {
                                        objects[index] = Some((new_ptr, new_size, align));
                                    }
                                }
                            },
                            None => {},
                        }
                    }
                },
            }
            i = i + 1;
        }
        let mut j: usize = 0;
        while j < objects.len()
            invariant
                0 <= j <= objects@.len(),
                forall|k: int|
                    0 <= k < objects@.len() ==> (#[trigger] objects@[k] matches Some(object)
                        ==> crate::powers::is_power_of_two(object.2 as int)),
            decreases objects@.len() - j,
        {
            match objects[j] {
                Some((ptr, size, align)) => {
                    proof {
                        crate::powers::lemma_power_of_two_cases(align as int);
                    }
                    allocator.dealloc(ptr, size, align);
                },
                None => {},
            }
            j = j + 1;
        }
    }
}

impl AllocatorMethod {
    /// Decodes a script. Decoding stops at the first call that the bytes
    /// cut short.
    pub fn from_bytes(bytes: &[u8]) -> (methods: Vec<Self>)
        ensures
            methods@ == decode_plain(bytes@, 0),
    {
        let mut methods: Vec<AllocatorMethod> = Vec::new();
        let len = bytes.len();
        let mut at: usize = 0;
        while at < len
            invariant
                len == bytes@.len(),
                0 <= at <= len,
                decode_plain(bytes@, 0) == methods@.add(decode_plain(bytes@, at as int)),
            ensures
                decode_plain(bytes@, 0) == methods@,
            decreases len - at,
        {
            let ghost before = methods@;
            let kind = bytes[at] % 3;
            if kind == 0 {
                if len - at < 9 {
                    break ;
                }
                let size = load(bytes, at + 1) as usize;
                methods.push(AllocatorMethod::Alloc { size });
                at = at + 9;
            } else if kind == 1 {
                if len - at < 9 {
                    break ;
                }
                let index = load(bytes, at + 1) as usize;
                methods.push(AllocatorMethod::Dealloc { index });
                at = at + 9;
            } else {
                if len - at < 17 {
                    break ;
                }
                let index = load(bytes, at + 1) as usize;
                let new_size = load(bytes, at + 9) as usize;
                methods.push(AllocatorMethod::Realloc { index, new_size });
                at = at + 17;
            }
            assert(methods@.add(decode_plain(bytes@, at as int)) =~= before.add(
                seq![methods@.last()].add(decode_plain(bytes@, at as int)),
            ));
        }
        methods
    }

    /// Encodes a script.
    pub fn to_bytes(methods: &[Self]) -> (bytes: Vec<u8>)
        ensures
            bytes@ == encode_plain(methods@),
    {
        let mut bytes: Vec<u8> = Vec::new();
        let mut i: usize = 0;
        while i < methods.len()
            invariant
                0 <= i <= methods@.len(),
                bytes@ == encode_plain(methods@.take(i as int)),
            decreases methods@.len() - i,
        {
            let ghost before = bytes@;
            match methods[i] {
                AllocatorMethod::Alloc { size } => {
                    bytes.push(0);
                    push_word(&mut bytes, size as u64);
                },
                AllocatorMethod::Dealloc { index } => {
                    bytes.push(1);
                    push_word(&mut bytes, index as u64);
                },
                AllocatorMethod::Realloc { index, new_size } => {
                    bytes.push(2);
                    push_word(&mut bytes, index as u64);
                    push_word(&mut bytes, new_size as u64);
                },
            }
            proof {
                assert(methods@.take(i + 1).drop_last() =~= methods@.take(i as int));
                assert(methods@.take(i + 1).last() == methods@[i as int]);
                assert(bytes@ =~= before.add(encode_one_plain(methods@[i as int])));
            }
            i = i + 1;
        }
        proof {
            assert(methods@.take(methods@.len() as int) =~= methods@);
        }
        bytes
    }
}

} // verus!
