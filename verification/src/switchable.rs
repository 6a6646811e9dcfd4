//! A switch in front of an allocator: requests go to the wrapped allocator
//! while the switch is on, and to the system's allocator otherwise.
use crate::linked::allocator::Allocator;
use crate::space::Space;
use std::sync::atomic::AtomicBool;
use vstd::prelude::*;

verus! {

/// An allocator that can tell its own addresses from foreign ones.
pub trait EnablePtr {
    /// Whether `ptr` is an address this allocator is responsible for.
    fn enable_ptr(&self, ptr: usize) -> (own: bool);
}

impl<S: Space> EnablePtr for Allocator<S> {
    fn enable_ptr(&self, ptr: usize) -> (own: bool) {
        self.contains(ptr)
    }
}

/// Which allocator serves a request.
#[derive(Debug, Clone, Copy, PartialEq, Eq, Structural)]
pub enum Route {
    /// The wrapped allocator.
    Own,
    /// The system's allocator.
    System,
}

/// Where a new allocation goes: to the wrapped allocator if the switch is
/// on and the thread is not panicking.
pub fn route_new(enabled: bool, panicking: bool) -> (route: Route)
    ensures
        route == (if enabled && !panicking {
            Route::Own
        } else {
            Route::System
        }),
{
    if enabled && !panicking {
        Route::Own
    } else {
        Route::System
    }
}

/// Where the release or resizing of an allocation goes: to the wrapped
/// allocator if the address is its own.
pub fn route_old(own: bool) -> (route: Route)
    ensures
        route == (if own {
            Route::Own
        } else {
            Route::System
        }),
{
    if own {
        Route::Own
    } else {
        Route::System
    }
}

/// An allocator behind a switch.
pub struct Switchable<A> {
    alloc: A,
    enable: AtomicBool,
}

impl<A> Switchable<A> {
    /// Wraps `alloc`, with the switch on.
    pub fn new(alloc: A) -> (switchable: Self)
        ensures
            switchable.inner_spec() == alloc,
    {
        Switchable { alloc, enable: AtomicBool::new(true) }
    }

    /// Wraps `value`, with the switch on.
    pub fn from(value: A) -> (switchable: Self)
        ensures
            switchable.inner_spec() == value,
    {
        Self::new(value)
    }

    /// The wrapped allocator.
    pub closed spec fn inner_spec(&self) -> A {
        self.alloc
    }

    /// The wrapped allocator.
    pub fn inner(&self) -> (alloc: &A)
        ensures
            *alloc == self.inner_spec(),
    {
        &self.alloc
    }

    /// Turns the switch on or off.
    pub fn set_enable(&self, enable: bool) {
        self.enable.store(enable, std::sync::atomic::Ordering::SeqCst)
    }

    /// Whether new allocations go to the wrapped allocator: the switch is
    /// on and the thread is not panicking.
    pub fn enable_alloc(&self, panicking: bool) -> (enabled: bool)
        ensures
            panicking ==> !enabled,
    {
        self.enable.load(std::sync::atomic::Ordering::SeqCst) && !panicking
    }

    /// Where a new allocation goes.
    pub fn route_alloc(&self, panicking: bool) -> (route: Route)
        ensures
            panicking ==> route == Route::System,
    {
        route_new(self.enable.load(std::sync::atomic::Ordering::SeqCst), panicking)
    }
}

impl<A: EnablePtr> Switchable<A> {
    /// Where the release or resizing of the allocation at `ptr` goes.
    pub fn route_ptr(&self, ptr: usize) -> (route: Route) {
        route_old(self.alloc.enable_ptr(ptr))
    }
}

} // verus!
