use simpile::fuzz::Method;
use simpile::linked::allocator::Allocator;
use simpile::linked::overlay::Overlay;
use simpile::space::{Fixed, Space};

/// A small generator of numbers that look random and are the same on
/// every run.
struct Numbers(u64);

impl Numbers {
    fn next(&mut self) -> u64 {
        self.0 = self.0.wrapping_mul(6364136223846793005).wrapping_add(1442695040888963407);
        self.0 >> 33
    }

    fn below(&mut self, bound: usize) -> usize {
        (self.next() % bound as u64) as usize
    }
}

struct Held {
    ptr: usize,
    size: usize,
    align: usize,
    fill: u8,
}

fn check(space: &Fixed<'_>, held: &[Held]) {
    assert!(Overlay::sanity_check(space));
    let base = space.base();
    let len = space.as_slice().len();
    for (index, one) in held.iter().enumerate() {
        assert_eq!(one.ptr % one.align, 0);
        assert!(base <= one.ptr && one.ptr + one.size <= base + len);
        assert!(Overlay::owns(space, one.ptr, one.size, one.align));
        assert_eq!(Overlay::read(space, one.ptr, one.size), vec![one.fill; one.size]);
        for other in &held[index + 1..] {
            assert!(one.ptr + one.size <= other.ptr || other.ptr + other.size <= one.ptr);
        }
    }
    let all = Overlay::iter_all_chunk(space);
    let mem = space.as_slice();
    let in_use = all.iter().filter(|chunk| chunk.get_in_use(mem)).count();
    assert_eq!(in_use, held.len());
    for pair in all[..all.len() - 1].windows(2) {
        assert!(pair[0].get_in_use(mem) || pair[1].get_in_use(mem));
    }
    let free = all.iter().filter(|chunk| !chunk.get_in_use(mem)).count();
    let mut listed = Overlay::iter_free_chunk(space);
    // the walk starts at the head of the first bin that is not empty;
    // what stands before it is found by going back from there
    let mut first = listed[0];
    while let Some(prev) = first.get_prev(mem) {
        listed.insert(0, prev);
        first = prev;
    }
    assert_eq!(listed.len(), free);
    assert!(listed.last().unwrap().is_top(mem));
}

fn storm(seed: u64, len: usize, rounds: usize) {
    let mut numbers = Numbers(seed);
    let mut buffer = vec![0u8; len + 8];
    let skip = (8 - buffer.as_ptr() as usize % 8) % 8;
    let mut space = Fixed::from(&mut buffer[skip..skip + len]);
    let overlay = Overlay::new(&space);
    overlay.init(space.as_mut_slice(), len);
    let empty = Overlay::iter_all_chunk(&space);
    let mut held: Vec<Held> = Vec::new();
    for round in 0..rounds {
        match numbers.below(4) {
            0 | 1 => {
                let bound = if numbers.below(8) == 0 { 600 } else { 80 };
                let size = 1 + numbers.below(bound);
                let align = 1 << numbers.below(8);
                let ptr = if numbers.below(2) == 0 {
                    Overlay::alloc_in_space(&mut space, size, align)
                } else {
                    Overlay::alloc_zeroed_in_space(&mut space, size, align)
                };
                if ptr != 0 {
                    let fill = round as u8;
                    Overlay::write(&mut space, ptr, &vec![fill; size]);
                    held.push(Held { ptr, size, align, fill });
                }
            }
            2 => {
                if !held.is_empty() {
                    let one = held.swap_remove(numbers.below(held.len()));
                    Overlay::dealloc_in_space(&mut space, one.ptr, one.size, one.align);
                    assert!(!Overlay::holds(&space, one.ptr, 1));
                }
            }
            _ => {
                if !held.is_empty() {
                    let index = numbers.below(held.len());
                    let new_size = 1 + numbers.below(200);
                    let one = &mut held[index];
                    let ptr =
                        Overlay::realloc_in_space(&mut space, one.ptr, one.size, one.align, new_size);
                    if ptr != 0 {
                        let kept = one.size.min(new_size);
                        assert_eq!(Overlay::read(&space, ptr, kept), vec![one.fill; kept]);
                        one.ptr = ptr;
                        one.size = new_size;
                        Overlay::write(&mut space, ptr, &vec![one.fill; new_size]);
                    }
                }
            }
        }
        if round % 7 == 0 {
            check(&space, &held);
        }
    }
    check(&space, &held);
    while let Some(one) = held.pop() {
        Overlay::dealloc_in_space(&mut space, one.ptr, one.size, one.align);
    }
    assert_eq!(Overlay::iter_all_chunk(&space), empty);
}

#[test]
fn storm_in_a_small_space() {
    storm(1, 4096, 3000);
}

#[test]
fn storm_in_a_large_space() {
    storm(2, 1 << 16, 3000);
}

#[test]
fn storm_in_a_tight_space() {
    storm(3, 1024, 2000);
    storm(4, 768 + 64 + 8, 200);
}

#[test]
fn scripts_of_any_bytes_are_played() {
    let mut numbers = Numbers(5);
    for _ in 0..50 {
        let bytes: Vec<u8> = (0..400).map(|_| numbers.next() as u8).collect();
        let script: Vec<Method> = Method::from_bytes(&bytes)
            .into_iter()
            .map(|method| match method {
                Method::Alloc { size, align } => Method::Alloc { size: size % 900, align },
                Method::Dealloc { index } => Method::Dealloc { index: index % 16 },
                Method::Realloc { index, new_size } => {
                    Method::Realloc { index: index % 16, new_size: new_size % 900 }
                }
            })
            .collect();
        let data = &mut *vec![0; 4 << 10];
        let alloc = Allocator::new(Fixed::from(data));
        let fresh = alloc.iter_all_chunk();
        Method::run_fuzz(&script, &alloc);
        assert!(alloc.sanity_check());
        assert_eq!(alloc.iter_all_chunk(), fresh);
    }
}
