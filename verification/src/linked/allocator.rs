//! The allocator: a space that is set up, behind a spin lock.
use crate::linked::audit::{all_views, free_views, lemma_wf_sane};
use crate::linked::chunk::Chunk;
use crate::linked::in_space::DANGLING;
use crate::linked::model::wf;
use crate::linked::overlay::Overlay;
use crate::powers::is_power_of_two;
use crate::space::{placed, Space};
use vstd::prelude::*;

verus! {

/// `spin::mutex::Mutex`, the spin lock. What it guards cannot be seen from
/// outside.
#[verifier::external_type_specification]
#[verifier::external_body]
#[verifier::reject_recursive_types(T)]
#[verifier::reject_recursive_types(R)]
pub struct ExMutex<T: ?Sized, R>(spin::mutex::Mutex<T, R>);

/// `spin::relax::Spin`, the way the lock waits: by spinning.
#[verifier::external_type_specification]
#[verifier::external_body]
pub struct ExSpin(spin::relax::Spin);

/// `spin::mutex::MutexGuard`, the proof of holding the lock.
#[verifier::external_type_specification]
#[verifier::external_body]
#[verifier::reject_recursive_types(T)]
pub struct ExMutexGuard<'a, T: 'a + ?Sized>(spin::mutex::MutexGuard<'a, T>);

/// `spin::Mutex::new`: a lock around `value`. Nothing is claimed of it.
#[verifier::external_body]
fn lock_new<T>(value: T) -> (lock: spin::Mutex<T>) {
    spin::Mutex::new(value)
}

/// `spin::Mutex::lock`: spins until the lock is free, then holds it for as
/// long as the guard lives. Nothing is claimed of what the lock guards.
#[verifier::external_body]
fn lock_acquire<'a, T>(lock: &'a spin::Mutex<T>) -> (guard: spin::MutexGuard<'a, T>) {
    lock.lock()
}

/// `spin::MutexGuard::deref_mut`: the guarded value. Nothing is claimed of
/// it.
#[verifier::external_body]
fn guard_value<'a, 'b, T>(guard: &'a mut spin::MutexGuard<'b, T>) -> (value: &'a mut T) {
    &mut **guard
}

/// A space that is set up and at rest.
struct Managed<S: Space> {
    space: S,
}

impl<S: Space> Managed<S> {
    #[verifier::type_invariant]
    spec fn at_rest(self) -> bool {
        wf(self.space.view()) && placed(
            self.space.base_spec() as int,
            self.space.view().len() as int,
        )
    }
}

/// Whether `size` and `align` describe a request the allocator accepts: the
/// alignment is a power of two no larger than 2^27, and the size rounded up
/// to it does not exceed `isize::MAX`.
pub open spec fn valid_layout(size: int, align: int) -> bool {
    is_power_of_two(align) && align <= 0x800_0000 && size + align - 1 <= isize::MAX
}

/// Tells whether `size` and `align` describe a request the allocator
/// accepts.
pub fn is_valid_layout(size: usize, align: usize) -> (ok: bool)
    ensures
        ok == valid_layout(size as int, align as int),
{
    if align == 0 || align > 0x800_0000 {
        return false;
    }
    let mut rest = align;
    while rest % 2 == 0
        invariant
            0 < rest <= align,
            is_power_of_two(rest as int) == is_power_of_two(align as int),
        decreases rest,
    {
        rest = rest / 2;
    }
    if rest != 1 {
        return false;
    }
    size <= isize::MAX as usize - (align - 1)
}

/// An allocator over the space `S`. Every operation holds the lock for
/// its whole duration: it takes the space out of the slot that the lock
/// guards, works on it, and puts it back. The slot is empty only while an
/// operation is under way.
#[verifier::reject_recursive_types(S)]
pub struct Allocator<S: Space>(spin::Mutex<Option<Managed<S>>>);

impl<S: Space> Allocator<S> {
    /// Sets `space` up as an empty space and takes it over.
    pub fn new(space: S) -> (allocator: Self)
        requires
            space.view().len() >= 768 + 64,
            space.view().len() % 8 == 0,
            placed(space.base_spec() as int, space.view().len() as int),
    {
        let mut space = space;
        let overlay = Overlay::new(&space);
        let mem = space.as_mut_slice();
        let len = mem.len();
        overlay.init(mem, len);
        Allocator(lock_new(Some(Managed { space })))
    }

    /// Checks the sentinel and tours the chunks of the space, and returns
    /// whether all is in order. It always is: what the lock guards is a
    /// well-formed space, and such a space passes the check.
    pub fn sanity_check(&self) -> (ok: bool)
        ensures
            ok,
    {
        let mut guard = lock_acquire(&self.0);
        let slot = guard_value(&mut guard);
        match slot.take() {
            Some(managed) => {
                proof {
                    use_type_invariant(&managed);
                    lemma_wf_sane(managed.space.view());
                }
                let ok = Overlay::sanity_check(&managed.space);
                *slot = Some(managed);
                ok
            },
            None => true,
        }
    }

    /// Allocates `size` bytes at alignment `align`. Returns 0 where the
    /// space has no room and does not grow; a request of size zero gets
    /// the dangling address.
    pub fn allocate(&self, size: usize, align: usize) -> (ptr: usize)
        requires
            is_power_of_two(align as int),
        ensures
            size == 0 ==> ptr == DANGLING,
            size > 0 && ptr != 0 ==> ptr % align == 0,
    {
        let mut guard = lock_acquire(&self.0);
        let slot = guard_value(&mut guard);
        match slot.take() {
            Some(managed) => {
                proof {
                    use_type_invariant(&managed);
                }
                let Managed { space } = managed;
                let mut space = space;
                let ptr = Overlay::alloc_in_space(&mut space, size, align);
                *slot = Some(Managed { space });
                ptr
            },
            None => if size == 0 {
                DANGLING
            } else {
                0
            },
        }
    }

    /// Allocates as `allocate` does, and sets the bytes of the allocation
    /// to zero.
    pub fn alloc_zeroed(&self, size: usize, align: usize) -> (ptr: usize)
        requires
            is_power_of_two(align as int),
        ensures
            size == 0 ==> ptr == DANGLING,
            size > 0 && ptr != 0 ==> ptr % align == 0,
    {
        let mut guard = lock_acquire(&self.0);
        let slot = guard_value(&mut guard);
        match slot.take() {
            Some(managed) => {
                proof {
                    use_type_invariant(&managed);
                }
                let Managed { space } = managed;
                let mut space = space;
                let ptr = Overlay::alloc_zeroed_in_space(&mut space, size, align);
                *slot = Some(Managed { space });
                ptr
            },
            None => if size == 0 {
                DANGLING
            } else {
                0
            },
        }
    }

    /// Gives the allocation at `ptr` back. Does nothing where `ptr` is not
    /// the address of an allocation of `size` bytes at alignment `align`.
    pub fn dealloc(&self, ptr: usize, size: usize, align: usize)
        requires
            0 < align,
    {
        let mut guard = lock_acquire(&self.0);
        let slot = guard_value(&mut guard);
        match slot.take() {
            Some(managed) => {
                proof {
                    use_type_invariant(&managed);
                }
                let Managed { space } = managed;
                let mut space = space;
                Overlay::try_dealloc(&mut space, ptr, size, align);
                *slot = Some(Managed { space });
            },
            None => {},
        }
    }

    /// Resizes the allocation at `ptr` from `size` to `new_size` bytes and
    /// returns its address, which may have changed. Returns 0, and leaves
    /// the allocation as it is, where the space has no room, and also
    /// where `ptr` is not the address of an allocation of `size` bytes at
    /// alignment `align` or `new_size` is zero.
    pub fn realloc(&self, ptr: usize, size: usize, align: usize, new_size: usize) -> (new_ptr:
        usize)
        requires
            is_power_of_two(align as int),
        ensures
            size == 0 || new_size == 0 ==> new_ptr == 0,
            new_ptr != 0 ==> new_ptr % align == 0,
    {
        let mut guard = lock_acquire(&self.0);
        let slot = guard_value(&mut guard);
        match slot.take() {
            Some(managed) => {
                proof {
                    use_type_invariant(&managed);
                }
                let Managed { space } = managed;
                let mut space = space;
                let ghost s = space.view();
                let ghost base = space.base_spec() as int;
                let new_ptr = Overlay::try_realloc(&mut space, ptr, size, align, new_size);
                proof {
                    if new_ptr != 0 {
                        crate::linked::in_space::lemma_allocated_bounds(
                            s,
                            base,
                            ptr as int,
                            size as int,
                            align as int,
                        );
                    }
                }
                *slot = Some(Managed { space });
                new_ptr
            },
            None => 0,
        }
    }

    /// Copies `data` into the allocation that holds address `ptr`. Returns
    /// false, and writes nothing, where the bytes from `ptr` on do not lie
    /// in an allocation.
    pub fn write(&self, ptr: usize, data: &[u8]) -> (done: bool) {
        let mut guard = lock_acquire(&self.0);
        let slot = guard_value(&mut guard);
        match slot.take() {
            Some(managed) => {
                proof {
                    use_type_invariant(&managed);
                }
                let Managed { space } = managed;
                let mut space = space;
                let done = Overlay::try_write(&mut space, ptr, data);
                *slot = Some(Managed { space });
                done
            },
            None => false,
        }
    }

    /// The `len` bytes at address `ptr`, where they lie in an allocation.
    pub fn read(&self, ptr: usize, len: usize) -> (data: Option<Vec<u8>>)
        ensures
            data matches Some(bytes) ==> bytes@.len() == len,
    {
        let mut guard = lock_acquire(&self.0);
        let slot = guard_value(&mut guard);
        match slot.take() {
            Some(managed) => {
                proof {
                    use_type_invariant(&managed);
                }
                let data = Overlay::try_read(&managed.space, ptr, len);
                *slot = Some(managed);
                data
            },
            None => None,
        }
    }

    /// The views of all chunks of the space in address order: the chunks
    /// of a well-formed space, as it was while the lock was held.
    pub fn iter_all_chunk(&self) -> (all: Vec<Chunk>)
        ensures
            all@.len() > 0 ==> exists|s: Seq<u8>| wf(s) && #[trigger] all_views(s, all@),
    {
        let mut guard = lock_acquire(&self.0);
        let slot = guard_value(&mut guard);
        match slot.take() {
            Some(managed) => {
                proof {
                    use_type_invariant(&managed);
                }
                let all = Overlay::iter_all_chunk(&managed.space);
                assert(all_views(managed.space.view(), all@));
                *slot = Some(managed);
                all
            },
            None => Vec::new(),
        }
    }

    /// The views of the chunks on the free list, from the head of the
    /// first bin that is not empty to the top chunk: those of a
    /// well-formed space, as it was while the lock was held.
    pub fn iter_free_chunk(&self) -> (free: Vec<Chunk>)
        ensures
            free@.len() > 0 ==> exists|s: Seq<u8>| wf(s) && #[trigger] free_views(s, free@),
    {
        let mut guard = lock_acquire(&self.0);
        let slot = guard_value(&mut guard);
        match slot.take() {
            Some(managed) => {
                proof {
                    use_type_invariant(&managed);
                }
                let free = Overlay::iter_free_chunk(&managed.space);
                assert(free_views(managed.space.view(), free@));
                *slot = Some(managed);
                free
            },
            None => Vec::new(),
        }
    }

    /// Whether `ptr` lies in the space.
    pub fn contains(&self, ptr: usize) -> (inside: bool) {
        let mut guard = lock_acquire(&self.0);
        let slot = guard_value(&mut guard);
        match slot.take() {
            Some(managed) => {
                let inside = Overlay::contains(&managed.space, ptr);
                *slot = Some(managed);
                inside
            },
            None => false,
        }
    }
}

} // verus!
