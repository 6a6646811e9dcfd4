//! Space providers: the byte regions an allocator manages.
use crate::powers::{least_power_of_two, next_power_of_two};
use vstd::prelude::*;

verus! {

/// A resizable region of bytes that lives at some address.
pub trait Space {
    /// The bytes of the region. An implementation from outside verified
    /// code leaves them unspecified.
    open spec fn view(&self) -> Seq<u8> {
        arbitrary()
    }

    /// The address of the region's first byte. An implementation from
    /// outside verified code leaves it unspecified.
    open spec fn base_spec(&self) -> usize {
        arbitrary()
    }

    /// The address of the region's first byte.
    fn base(&self) -> (addr: usize)
        ensures
            addr == self.base_spec(),
    ;

    /// The region as a slice.
    fn as_slice(&self) -> (bytes: &[u8])
        ensures
            bytes@ == self.view(),
    ;

    /// The region as a mutable slice. What is written through it is what
    /// the region holds afterwards.
    fn as_mut_slice(&mut self) -> (bytes: &mut [u8])
        ensures
            bytes@ == old(self).view(),
            final(self).view() == final(bytes)@,
            final(self).base_spec() == old(self).base_spec(),
    ;

    /// Tries to resize the region to exactly `bytes` bytes. On success the
    /// bytes that fit in both the old and the new region are kept, and a
    /// region that was well placed is well placed again. On failure
    /// nothing changes.
    fn set_size(&mut self, bytes: usize) -> (done: bool)
        ensures
            done ==> resized(old(self).view(), final(self).view(), bytes as int),
            done && placed(old(self).base_spec() as int, old(self).view().len() as int) ==> placed(
                final(self).base_spec() as int,
                bytes as int,
            ),
            !done ==> final(self).view() == old(self).view() && final(self).base_spec()
                == old(self).base_spec(),
    ;

    /// Tries to grow the region to at least `min_bytes` bytes: to the
    /// current length times the least power of two above the number of
    /// times the current length goes into `min_bytes`. On failure nothing
    /// changes.
    fn grow(&mut self, min_bytes: usize) -> (done: bool)
        requires
            old(self).view().len() > 0,
        ensures
            done ==> final(self).view().len() >= min_bytes && resized(
                old(self).view(),
                final(self).view(),
                final(self).view().len() as int,
            ) && final(self).view().len() % old(self).view().len() == 0,
            done ==> least_power_of_two(
                final(self).view().len() as int / old(self).view().len() as int,
                min_bytes as int / old(self).view().len() as int + 1,
            ),
            done && placed(old(self).base_spec() as int, old(self).view().len() as int) ==> placed(
                final(self).base_spec() as int,
                final(self).view().len() as int,
            ),
            !done ==> final(self).view() == old(self).view() && final(self).base_spec()
                == old(self).base_spec(),
    {
        match grown_size(self.as_slice().len(), min_bytes) {
            Some(size) => self.set_size(size),
            None => false,
        }
    }
}

/// The length that a region of `len` bytes grows to in order to hold at
/// least `min_bytes`: `len` times the least power of two above the number
/// of times `len` goes into `min_bytes`. `None` only where that power, or
/// the length, is out of range.
pub fn grown_size(len: usize, min_bytes: usize) -> (size: Option<usize>)
    requires
        len > 0,
    ensures
        size matches Some(n) ==> n >= min_bytes && n % len == 0 && least_power_of_two(
            n as int / len as int,
            min_bytes as int / len as int + 1,
        ),
        size is None ==> min_bytes / len > usize::MAX / 2 || exists|factor: int|
            #[trigger] least_power_of_two(factor, min_bytes as int / len as int + 1) && len
                * factor > usize::MAX,
{
    let times = min_bytes / len;
    if times == usize::MAX {
        return None;
    }
    let factor = match next_power_of_two(times + 1) {
        Some(factor) => factor,
        None => {
            return None;
        },
    };
    match len.checked_mul(factor) {
        Some(size) => {
            assert(size >= min_bytes) by (nonlinear_arith)
                requires
                    size == len * factor,
                    factor >= min_bytes / len + 1,
                    len > 0,
            {
                assert(len * (min_bytes / len) + min_bytes % len == min_bytes) by {
                    vstd::arithmetic::div_mod::lemma_fundamental_div_mod(
                        min_bytes as int,
                        len as int,
                    );
                }
                assert(min_bytes % len < len) by {
                    vstd::arithmetic::div_mod::lemma_mod_bound(min_bytes as int, len as int);
                }
            }
            assert(size % len == 0 && size / len == factor) by {
                vstd::arithmetic::div_mod::lemma_mod_multiples_basic(factor as int, len as int);
                vstd::arithmetic::div_mod::lemma_div_multiples_vanish(factor as int, len as int);
            }
            Some(size)
        },
        None => {
            assert(least_power_of_two(factor as int, min_bytes as int / len as int + 1));
            None
        },
    }
}

/// A region of `len` bytes at address `base` is well placed: the address
/// is a multiple of 8 and the region does not reach past the end of the
/// address space.
pub open spec fn placed(base: int, len: int) -> bool {
    base % 8 == 0 && base + len <= usize::MAX
}

/// What a successful resize to `bytes` bytes does to the bytes: the new
/// length is `bytes`, and what fits in both regions is kept.
pub open spec fn resized(before: Seq<u8>, after: Seq<u8>, bytes: int) -> bool {
    &&& after.len() == bytes
    &&& forall|k: int| 0 <= k < bytes && k < before.len() ==> #[trigger] after[k] == before[k]
}

/// A caller-owned buffer as a space. It cannot be resized.
pub struct Fixed<'a> {
    data: &'a mut [u8],
    base: usize,
}

/// The address of the first byte of `data`, as `<[u8]>::as_ptr` reports it.
/// A slice never wraps around the end of the address space.
#[verifier::external_body]
fn slice_addr(data: &[u8]) -> (addr: usize)
    ensures
        addr + data@.len() <= usize::MAX,
{
    data.as_ptr() as usize
}

impl<'a> Fixed<'a> {
    /// Wraps `data`.
    pub fn from(data: &'a mut [u8]) -> (fixed: Self)
        ensures
            fixed.view() == old(data)@,
            fixed.base_spec() + fixed.view().len() <= usize::MAX,
    {
        let base = slice_addr(data);
        Fixed { data, base }
    }
}

impl<'a> Space for Fixed<'a> {
    closed spec fn view(&self) -> Seq<u8> {
        self.data@
    }

    closed spec fn base_spec(&self) -> usize {
        self.base
    }

    fn base(&self) -> (addr: usize) {
        self.base
    }

    fn as_slice(&self) -> (bytes: &[u8]) {
        &*self.data
    }

    fn as_mut_slice(&mut self) -> (bytes: &mut [u8]) {
        &mut *self.data
    }

    /// A buffer has the length it has: only a resize to that length is
    /// done, and nothing changes either way.
    fn set_size(&mut self, bytes: usize) -> (done: bool)
        ensures
            done == (bytes == old(self).view().len()),
            final(self).view() == old(self).view(),
            final(self).base_spec() == old(self).base_spec(),
    {
        bytes == self.data.len()
    }
}

/// The bookkeeping of an anonymous memory mapping: where it is and how
/// long. An address of 0 stands for "nothing mapped".
#[derive(Debug)]
pub struct Mmap {
    addr: usize,
    len: usize,
}

/// What has to be asked of the system to resize a mapping.
#[derive(Debug, Clone, Copy, PartialEq, Eq, Structural)]
pub enum Remap {
    /// Nothing: the mapping has the wanted length.
    Keep,
    /// Unmap the `len` bytes at `addr`.
    Unmap { addr: usize, len: usize },
    /// Map `len` fresh bytes.
    Fresh { len: usize },
    /// Resize the mapping of `old_len` bytes at `addr` to `new_len` bytes
    /// without moving it.
    Resize { addr: usize, old_len: usize, new_len: usize },
}

impl Mmap {
    /// The bookkeeping of an empty mapping.
    pub fn new() -> (mmap: Self)
        ensures
            mmap.addr_spec() == 0,
            mmap.len_spec() == 0,
    {
        Mmap { addr: 0, len: 0 }
    }

    /// The address of the mapping, 0 for none.
    pub closed spec fn addr_spec(&self) -> usize {
        self.addr
    }

    /// The length of the mapping.
    pub closed spec fn len_spec(&self) -> usize {
        self.len
    }

    /// The address of the mapping, 0 for none.
    pub fn addr(&self) -> (addr: usize)
        ensures
            addr == self.addr_spec(),
    {
        self.addr
    }

    /// The length of the mapping.
    pub fn len(&self) -> (len: usize)
        ensures
            len == self.len_spec(),
    {
        self.len
    }

    /// What has to be asked of the system to make the mapping `bytes`
    /// bytes long.
    pub fn plan(&self, bytes: usize) -> (remap: Remap)
        ensures
            remap == (if bytes == self.len_spec() {
                Remap::Keep
            } else if bytes == 0 {
                Remap::Unmap { addr: self.addr_spec(), len: self.len_spec() }
            } else if self.addr_spec() == 0 {
                Remap::Fresh { len: bytes }
            } else {
                Remap::Resize { addr: self.addr_spec(), old_len: self.len_spec(), new_len: bytes }
            }),
    {
        if bytes == self.len {
            Remap::Keep
        } else if bytes == 0 {
            Remap::Unmap { addr: self.addr, len: self.len }
        } else if self.addr == 0 {
            Remap::Fresh { len: bytes }
        } else {
            Remap::Resize { addr: self.addr, old_len: self.len, new_len: bytes }
        }
    }

    /// Records what the system answered to `remap`: `mapped` is the
    /// address it gave, or `None` where it refused. Returns whether the
    /// mapping now has the wanted length. Nothing is to be asked, and so
    /// nothing can be refused, where the length is kept or the mapping is
    /// dropped.
    pub fn settle(&mut self, remap: Remap, mapped: Option<usize>) -> (done: bool)
        ensures
            match remap {
                Remap::Keep => done && final(self).addr_spec() == old(self).addr_spec()
                    && final(self).len_spec() == old(self).len_spec(),
                Remap::Unmap { .. } => done && final(self).addr_spec() == 0
                    && final(self).len_spec() == 0,
                Remap::Fresh { len } => settled_at(*old(self), *final(self), len, mapped, done),
                Remap::Resize { new_len, .. } => settled_at(
                    *old(self),
                    *final(self),
                    new_len,
                    mapped,
                    done,
                ),
            },
    {
        match remap {
            Remap::Keep => true,
            Remap::Unmap { .. } => {
                self.addr = 0;
                self.len = 0;
                true
            },
            Remap::Fresh { len } => self.record(len, mapped),
            Remap::Resize { new_len, .. } => self.record(new_len, mapped),
        }
    }

    /// Takes over the address the system gave for `len` bytes, if any.
    fn record(&mut self, len: usize, mapped: Option<usize>) -> (done: bool)
        ensures
            settled_at(*old(self), *final(self), len, mapped, done),
    {
        match mapped {
            Some(addr) => {
                self.addr = addr;
                self.len = len;
                true
            },
            None => false,
        }
    }
}

/// What recording the system's answer leaves behind: the new address and
/// length where it gave one, the old ones where it refused.
pub open spec fn settled_at(
    before: Mmap,
    after: Mmap,
    len: usize,
    mapped: Option<usize>,
    done: bool,
) -> bool {
    match mapped {
        Some(addr) => done && after.addr_spec() == addr && after.len_spec() == len,
        None => !done && after.addr_spec() == before.addr_spec() && after.len_spec()
            == before.len_spec(),
    }
}

impl Default for Mmap {
    fn default() -> (mmap: Self)
        ensures
            mmap.addr_spec() == 0,
            mmap.len_spec() == 0,
    {
        Self::new()
    }
}

} // verus!
