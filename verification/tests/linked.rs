use simpile::fuzz::Method::{self, Alloc, Dealloc, Realloc};
use simpile::linked::allocator::{is_valid_layout, Allocator};
use simpile::linked::chunk::Chunk;
use simpile::linked::in_space::DANGLING;
use simpile::linked::overlay::Overlay;
use simpile::space::{Fixed, Space};
use std::iter::repeat;

#[test]
fn single_free_chunk_on_init() {
    let data = &mut *vec![0; 4 << 10];
    let alloc = Allocator::new(Fixed::from(data));
    let all_chunk = alloc.iter_all_chunk();
    let free_chunk = alloc.iter_free_chunk();
    assert_eq!(all_chunk.len(), 2);
    assert_eq!(free_chunk, all_chunk);
}

#[test]
fn working_debug_chunk() {
    let data = &mut *vec![0; 4 << 10];
    let alloc = Allocator::new(Fixed::from(data));
    assert!(format!("{:?}", alloc.iter_all_chunk().into_iter().next().unwrap()).starts_with("Chunk"));
}

#[test]
fn valid_addr() {
    fn run(sizes: impl Iterator<Item = usize>) {
        let data = &mut *vec![0; 4 << 10];
        let ptr_range = data.as_ptr() as usize..data.as_ptr() as usize + data.len();
        let alloc = Allocator::new(Fixed::from(data));
        for size in sizes {
            let ptr = alloc.allocate(size, 1);
            if ptr == 0 {
                break;
            }
            assert!(ptr_range.contains(&ptr));
        }
    }

    run([1].into_iter());
    run(1..10);
    run(repeat(1));
    run(1..);
}

#[test]
fn aligned_addr() {
    fn run(sizes: impl Iterator<Item = usize>, align: usize) {
        let data = &mut *vec![0; 4 << 10];
        let alloc = Allocator::new(Fixed::from(data));
        for size in sizes {
            let ptr = alloc.allocate(size, align);
            if ptr == 0 {
                break;
            }
            assert_eq!(ptr % align, 0);
        }
    }

    run([1].into_iter(), 16);
    run(1..10, 16);
    run(1..10, 32);
    run(repeat(1), 16);
    run(repeat(1), 32);
    run(1.., 16);
    run(1.., 32);
    run(1.., 64);
}

#[test]
fn alloc_dealloc_identical() {
    fn run(layouts: impl Iterator<Item = (usize, usize)> + Clone) {
        let data = &mut *vec![0; 4 << 10];
        let alloc = Allocator::new(Fixed::from(data));
        let chunks = alloc.iter_all_chunk();
        let ptrs = Vec::from_iter(
            layouts
                .clone()
                .map(|(size, align)| (alloc.allocate(size, align), size, align))
                .take_while(|(ptr, _, _)| *ptr != 0),
        );
        for (ptr, size, align) in ptrs.into_iter() {
            alloc.dealloc(ptr, size, align)
        }
        assert_eq!(alloc.iter_all_chunk(), chunks);

        let data = &mut *vec![0; 4 << 10];
        let alloc = Allocator::new(Fixed::from(data));
        let chunks = alloc.iter_all_chunk();
        let ptrs = Vec::from_iter(
            layouts
                .map(|(size, align)| (alloc.allocate(size, align), size, align))
                .take_while(|(ptr, _, _)| *ptr != 0),
        );
        for (ptr, size, align) in ptrs.into_iter().rev() {
            alloc.dealloc(ptr, size, align)
        }
        assert_eq!(alloc.iter_all_chunk(), chunks);
    }

    run([(1, 1)].into_iter());
    run((1..10).map(|size| (size, 1)));
    run((0..=6).map(|align| (1, 1 << align)));
    run((1..).map(|size| (size, 1)));
}

#[test]
fn realloc_in_place() {
    let data = &mut *vec![0; 4 << 10];
    let alloc = Allocator::new(Fixed::from(data));
    let mut size = 8;
    let ptr = alloc.allocate(size, 1);
    let new_ptr = alloc.realloc(ptr, size, 1, 16);
    assert_eq!(new_ptr, ptr);

    size = 16;
    loop {
        let new_ptr = alloc.realloc(ptr, size, 1, size * 2);
        if new_ptr == 0 {
            break;
        }
        assert_eq!(new_ptr, ptr);
        size *= 2;
    }
}

#[test]
fn realloc_copied() {
    let data = &mut *vec![0; 4 << 10];
    let alloc = Allocator::new(Fixed::from(data));
    let ptr = alloc.allocate(8, 1);
    assert!(alloc.write(ptr, &u64::to_ne_bytes(0x1122334455667788)));
    alloc.allocate(8, 1);
    let new_ptr = alloc.realloc(ptr, 8, 1, 32);
    assert_eq!(
        alloc.read(new_ptr, 8).unwrap(),
        &u64::to_ne_bytes(0x1122334455667788)
    );
}

#[test]
fn test1() {
    let data = &mut *vec![0; 4 << 10];
    let alloc = Allocator::new(Fixed::from(data));
    Method::run_fuzz(
        &[
            Alloc { size: 48, align: 1 },
            Realloc {
                index: 0,
                new_size: 304,
            },
            Alloc { size: 48, align: 1 },
            Dealloc { index: 1 },
        ],
        &alloc,
    );
    assert!(alloc.sanity_check());
}

#[test]
fn test2() {
    let data = &mut *vec![0; 4 << 10];
    let alloc = Allocator::new(Fixed::from(data));
    Method::run_fuzz(
        &[
            Alloc {
                size: 2096,
                align: 1,
            },
            Realloc {
                index: 0,
                new_size: 48,
            },
            Realloc {
                index: 0,
                new_size: 304,
            },
        ],
        &alloc,
    );
    assert!(alloc.sanity_check());
}

#[test]
fn test3() {
    let data = &mut *vec![0; 4 << 10];
    let alloc = Allocator::new(Fixed::from(data));
    Method::run_fuzz(
        &[
            Alloc {
                size: 304,
                align: 1,
            },
            Realloc {
                index: 0,
                new_size: 1,
            },
            Realloc {
                index: 0,
                new_size: 48,
            },
            Alloc { size: 48, align: 1 },
            Dealloc { index: 1 },
        ],
        &alloc,
    );
    assert!(alloc.sanity_check());
}

#[test]
fn test4() {
    let data = &mut *vec![0; 4 << 10];
    let alloc = Allocator::new(Fixed::from(data));
    Method::run_fuzz(
        &[
            Alloc { size: 1, align: 1 },
            Alloc { size: 1, align: 1 },
            Realloc {
                index: 0,
                new_size: 128,
            },
            Alloc { size: 1, align: 1 },
            Dealloc { index: 1 },
            Alloc {
                size: 3072,
                align: 1,
            },
            Alloc { size: 1, align: 1 },
            Dealloc { index: 3 },
        ],
        &alloc,
    );
    assert!(alloc.sanity_check());
}

#[test]
fn test5() {
    let data = &mut *vec![0; 4 << 10];
    let alloc = Allocator::new(Fixed::from(data));
    Method::run_fuzz(
        &[
            Alloc { size: 1, align: 1 },
            Realloc {
                index: 0,
                new_size: 256,
            },
            Alloc {
                size: 304,
                align: 1,
            },
            Realloc {
                index: 0,
                new_size: 304,
            },
            Alloc {
                size: 233,
                align: 1,
            },
            Dealloc { index: 0 },
            Alloc { size: 14, align: 1 },
        ],
        &alloc,
    );
    assert!(alloc.sanity_check());
}

#[test]
fn test6() {
    let mut buffer = vec![0u8; 8 << 10];
    let skip = (4096 - buffer.as_ptr() as usize % 4096) % 4096;
    let alloc = Allocator::new(Fixed::from(&mut buffer[skip..skip + (4 << 10)]));
    Method::run_fuzz(&[], &alloc);
    assert!(alloc.sanity_check());
}

#[test]
fn bin_index_values() {
    assert_eq!(Overlay::bin_index_of_size(0), 3);
    assert_eq!(Overlay::bin_index_of_size(23), 3);
    assert_eq!(Overlay::bin_index_of_size(24), 3);
    assert_eq!(Overlay::bin_index_of_size(31), 3);
    assert_eq!(Overlay::bin_index_of_size(32), 4);
    assert_eq!(Overlay::bin_index_of_size(255), 31);
    assert_eq!(Overlay::bin_index_of_size(256), 32);
    assert_eq!(Overlay::bin_index_of_size(319), 32);
    assert_eq!(Overlay::bin_index_of_size(320), 33);
    assert_eq!(Overlay::bin_index_of_size(511), 35);
    assert_eq!(Overlay::bin_index_of_size(512), 36);
    assert_eq!(Overlay::bin_index_of_size(1000), 39);
    assert_eq!(Overlay::bin_index_of_size(1024), 40);
    assert_eq!(Overlay::bin_index_of_size((1 << 24) - 1), 95);
    assert_eq!(Overlay::bin_index_of_size(1 << 23), 92);
    assert_eq!(Overlay::bin_index_of_size(1 << 24), 95);
    assert_eq!(Overlay::bin_index_of_size(usize::MAX), 95);
}

#[test]
fn bin_index_is_monotone() {
    let mut last = 0;
    for size in 0..(1 << 14) {
        let index = Overlay::bin_index_of_size(size);
        assert!(last <= index);
        assert!((3..96).contains(&index));
        last = index;
    }
}

#[test]
fn layouts() {
    assert!(is_valid_layout(1, 1));
    assert!(is_valid_layout(0, 8));
    assert!(is_valid_layout(100, 1 << 27));
    assert!(!is_valid_layout(100, 1 << 28));
    assert!(!is_valid_layout(1, 0));
    assert!(!is_valid_layout(1, 3));
    assert!(!is_valid_layout(1, 12));
    assert!(is_valid_layout(isize::MAX as usize, 1));
    assert!(!is_valid_layout(isize::MAX as usize + 1, 1));
    assert!(!is_valid_layout(isize::MAX as usize, 2));
    assert!(is_valid_layout(isize::MAX as usize - 1, 2));
}

/// A space of `len` bytes set up on `buffer`.
fn fresh(buffer: &mut Vec<u8>, len: usize) -> Fixed<'_> {
    buffer.resize(len + 8, 0);
    let skip = (8 - buffer.as_ptr() as usize % 8) % 8;
    let mut space = Fixed::from(&mut buffer[skip..skip + len]);
    let overlay = Overlay::new(&space);
    overlay.init(space.as_mut_slice(), len);
    space
}

fn views(offsets: &[usize], limit: usize) -> Vec<Chunk> {
    offsets.iter().map(|data| Chunk { data: *data, limit }).collect()
}

#[test]
fn init_lays_out_one_free_chunk_and_the_top() {
    let mut buffer = Vec::new();
    let space = fresh(&mut buffer, 4096);
    assert_eq!(space.as_slice()[0], 0x82);
    assert!(Overlay::sanity_check(&space));
    assert_eq!(Overlay::iter_all_chunk(&space), views(&[768, 4064], 4096));
    assert_eq!(Overlay::iter_free_chunk(&space), views(&[768, 4064], 4096));
    let first = Chunk::new(768, 4096);
    assert_eq!(first.get_size(space.as_slice()), 4096 - 768 - 32);
    assert!(!first.get_in_use(space.as_slice()));
    assert!(first.get_lower_in_use(space.as_slice()));
    assert!(!first.is_top(space.as_slice()));
    assert_eq!(first.get_prev(space.as_slice()), None);
    assert_eq!(first.get_next(space.as_slice()), Some(Chunk::new(4064, 4096)));
    let top = first.get_higher_chunk(space.as_slice());
    assert_eq!(top, Chunk::new(4064, 4096));
    assert_eq!(top.get_size(space.as_slice()), 32);
    assert!(top.is_top(space.as_slice()));
    assert!(!top.get_lower_in_use(space.as_slice()));
    assert_eq!(top.get_free_lower_chunk(space.as_slice()), Some(first));
    // the footer of the first chunk repeats its size
    let footer = &space.as_slice()[4064 - 8..4064];
    assert_eq!(u64::from_le_bytes(footer.try_into().unwrap()), 4096 - 768 - 32);
}

#[test]
fn smallest_space() {
    let mut buffer = Vec::new();
    let mut space = fresh(&mut buffer, 768 + 64);
    assert_eq!(Overlay::iter_all_chunk(&space), views(&[768, 800], 832));
    let base = space.base();
    let a = Overlay::alloc_in_space(&mut space, 24, 1);
    assert_eq!(a, base + 776);
    assert_eq!(Overlay::alloc_in_space(&mut space, 1, 1), 0);
    Overlay::dealloc_in_space(&mut space, a, 24, 1);
    assert_eq!(Overlay::iter_all_chunk(&space), views(&[768, 800], 832));
}

#[test]
fn alloc_takes_the_first_chunk_and_splits_it() {
    let mut buffer = Vec::new();
    let mut space = fresh(&mut buffer, 4096);
    let base = space.base();
    let a = Overlay::alloc_in_space(&mut space, 48, 1);
    assert_eq!(a, base + 768 + 8);
    assert_eq!(Overlay::iter_all_chunk(&space), views(&[768, 768 + 56, 4064], 4096));
    assert_eq!(Overlay::iter_free_chunk(&space), views(&[768 + 56, 4064], 4096));
    assert!(Chunk::new(768, 4096).get_in_use(space.as_slice()));
    assert_eq!(Chunk::new(768, 4096).get_size(space.as_slice()), 56);
    assert!(Chunk::new(824, 4096).get_lower_in_use(space.as_slice()));
    assert!(Overlay::owns(&space, a, 48, 1));
    assert!(!Overlay::owns(&space, a + 8, 48, 1));
    assert!(!Overlay::owns(&space, a, 49, 1));
    assert!(Overlay::holds(&space, a, 48));
    assert!(Overlay::holds(&space, a + 40, 8));
    assert!(!Overlay::holds(&space, a + 40, 9));
    assert!(!Overlay::holds(&space, a - 8, 8));
    assert!(Overlay::sanity_check(&space));
}

#[test]
fn zero_size_gets_the_dangling_address() {
    let mut buffer = Vec::new();
    let mut space = fresh(&mut buffer, 4096);
    let before = space.as_slice().to_vec();
    assert_eq!(Overlay::alloc_in_space(&mut space, 0, 16), DANGLING);
    assert_eq!(space.as_slice(), &before[..]);
    Overlay::dealloc_in_space(&mut space, DANGLING, 0, 16);
    assert_eq!(space.as_slice(), &before[..]);
}

#[test]
fn padded_allocation_is_found_again() {
    let mut buffer = Vec::new();
    let mut space = fresh(&mut buffer, 4096);
    let base = space.base();
    let a = Overlay::alloc_in_space(&mut space, 10, 64);
    assert_ne!(a, 0);
    assert_eq!(a % 64, 0);
    let offset = a - base;
    assert!(offset >= 776);
    if offset > 776 {
        let word = &space.as_slice()[offset - 8..offset];
        assert_eq!(u64::from_le_bytes(word.try_into().unwrap()) as usize, offset - 8 - 768);
    }
    assert_eq!(
        Chunk::from_user_data(space.as_slice(), base, a, 4096),
        Chunk::new(768, 4096)
    );
    assert!(Overlay::owns(&space, a, 10, 64));
    Overlay::dealloc_in_space(&mut space, a, 10, 64);
    assert_eq!(Overlay::iter_all_chunk(&space), views(&[768, 4064], 4096));
}

#[test]
fn dealloc_merges_with_both_neighbours() {
    let mut buffer = Vec::new();
    let mut space = fresh(&mut buffer, 4096);
    let a = Overlay::alloc_in_space(&mut space, 48, 1);
    let b = Overlay::alloc_in_space(&mut space, 48, 1);
    let c = Overlay::alloc_in_space(&mut space, 48, 1);
    assert_eq!(
        Overlay::iter_all_chunk(&space),
        views(&[768, 824, 880, 936, 4064], 4096)
    );
    Overlay::dealloc_in_space(&mut space, a, 48, 1);
    assert_eq!(
        Overlay::iter_all_chunk(&space),
        views(&[768, 824, 880, 936, 4064], 4096)
    );
    // no two neighbours below the top are both free
    let free: Vec<bool> = Overlay::iter_all_chunk(&space)
        .iter()
        .map(|chunk| !chunk.get_in_use(space.as_slice()))
        .collect();
    assert_eq!(free, vec![true, false, false, true, true]);
    Overlay::dealloc_in_space(&mut space, c, 48, 1);
    assert_eq!(Overlay::iter_all_chunk(&space), views(&[768, 824, 880, 4064], 4096));
    Overlay::dealloc_in_space(&mut space, b, 48, 1);
    assert_eq!(Overlay::iter_all_chunk(&space), views(&[768, 4064], 4096));
    assert_eq!(Overlay::iter_free_chunk(&space), views(&[768, 4064], 4096));
    assert!(Overlay::sanity_check(&space));
}

#[test]
fn flags_and_footers_agree() {
    let mut buffer = Vec::new();
    let mut space = fresh(&mut buffer, 4096);
    let mut ptrs = Vec::new();
    for size in [8, 100, 24, 300, 64, 17] {
        ptrs.push((Overlay::alloc_in_space(&mut space, size, 8), size));
    }
    for index in [1, 4, 3] {
        let (ptr, size) = ptrs[index];
        Overlay::dealloc_in_space(&mut space, ptr, size, 8);
    }
    let all = Overlay::iter_all_chunk(&space);
    let mem = space.as_slice();
    for (index, chunk) in all.iter().enumerate() {
        let size = chunk.get_size(mem);
        assert!(size >= 32 && size % 8 == 0);
        if index > 0 {
            assert_eq!(chunk.get_lower_in_use(mem), all[index - 1].get_in_use(mem));
        } else {
            assert!(chunk.get_lower_in_use(mem));
        }
        if !chunk.get_in_use(mem) {
            let footer = &mem[chunk.data + size - 8..chunk.data + size];
            assert_eq!(u64::from_le_bytes(footer.try_into().unwrap()) as usize, size);
        }
        if index + 2 < all.len() {
            assert!(chunk.get_in_use(mem) || all[index + 1].get_in_use(mem));
        }
    }
    assert_eq!(all.last().unwrap().get_size(mem), 32);
}

#[test]
fn realloc_grows_into_the_free_neighbour() {
    let mut buffer = Vec::new();
    let mut space = fresh(&mut buffer, 4096);
    let a = Overlay::alloc_in_space(&mut space, 8, 1);
    Overlay::write(&mut space, a, &[1, 2, 3, 4, 5, 6, 7, 8]);
    assert_eq!(Overlay::realloc_in_space(&mut space, a, 8, 1, 16), a);
    assert_eq!(Overlay::iter_all_chunk(&space), views(&[768, 800, 4064], 4096));
    assert_eq!(Overlay::realloc_in_space(&mut space, a, 16, 1, 100), a);
    assert_eq!(Overlay::iter_all_chunk(&space), views(&[768, 768 + 112, 4064], 4096));
    assert_eq!(Overlay::read(&space, a, 8), vec![1, 2, 3, 4, 5, 6, 7, 8]);
    assert!(Overlay::owns(&space, a, 100, 1));
    // shrinking stays in place and splits nothing off
    assert_eq!(Overlay::realloc_in_space(&mut space, a, 100, 1, 10), a);
    assert_eq!(Overlay::iter_all_chunk(&space), views(&[768, 768 + 112, 4064], 4096));
}

#[test]
fn realloc_moves_and_copies() {
    let mut buffer = Vec::new();
    let mut space = fresh(&mut buffer, 4096);
    let a = Overlay::alloc_in_space(&mut space, 8, 1);
    let b = Overlay::alloc_in_space(&mut space, 8, 1);
    Overlay::write(&mut space, a, &[9, 8, 7, 6, 5, 4, 3, 2]);
    let moved = Overlay::realloc_in_space(&mut space, a, 8, 1, 200);
    assert_ne!(moved, 0);
    assert_ne!(moved, a);
    assert_eq!(Overlay::read(&space, moved, 8), vec![9, 8, 7, 6, 5, 4, 3, 2]);
    assert!(Overlay::owns(&space, moved, 200, 1));
    assert!(!Overlay::owns(&space, a, 8, 1));
    assert!(Overlay::owns(&space, b, 8, 1));
    assert!(Overlay::sanity_check(&space));
}

#[test]
fn realloc_that_finds_no_room_leaves_the_allocation() {
    let mut buffer = Vec::new();
    let mut space = fresh(&mut buffer, 4096);
    let a = Overlay::alloc_in_space(&mut space, 8, 1);
    let b = Overlay::alloc_in_space(&mut space, 8, 1);
    Overlay::write(&mut space, a, &[1, 1, 2, 3, 5, 8, 13, 21]);
    assert_eq!(Overlay::realloc_in_space(&mut space, a, 8, 1, 1 << 20), 0);
    assert!(Overlay::owns(&space, a, 8, 1));
    assert!(Overlay::owns(&space, b, 8, 1));
    assert_eq!(Overlay::read(&space, a, 8), vec![1, 1, 2, 3, 5, 8, 13, 21]);
    assert!(Overlay::sanity_check(&space));
}

#[test]
fn sanity_check_rejects_broken_spaces() {
    let mut buffer = Vec::new();
    let mut space = fresh(&mut buffer, 4096);
    assert!(Overlay::sanity_check(&space));
    space.as_mut_slice()[0] = 0;
    assert!(!Overlay::sanity_check(&space));
    space.as_mut_slice()[0] = 0x82;
    assert!(Overlay::sanity_check(&space));
    // a first chunk that claims to be too small
    space.as_mut_slice()[768] = 16;
    space.as_mut_slice()[769] = 0;
    assert!(!Overlay::sanity_check(&space));
    let mut short = vec![0u8; 100];
    assert!(!Overlay::sanity_check(&Fixed::from(&mut short[..])));
}

#[test]
fn allocator_ignores_foreign_addresses() {
    let data = &mut *vec![0; 4 << 10];
    let alloc = Allocator::new(Fixed::from(data));
    let chunks = alloc.iter_all_chunk();
    alloc.dealloc(12345, 8, 1);
    alloc.dealloc(0, 8, 1);
    assert_eq!(alloc.realloc(12345, 8, 1, 16), 0);
    assert!(!alloc.write(12345, &[1]));
    assert_eq!(alloc.read(12345, 1), None);
    assert_eq!(alloc.iter_all_chunk(), chunks);
    assert_eq!(alloc.allocate(0, 4), DANGLING);
    alloc.dealloc(DANGLING, 0, 4);
    let ptr = alloc.allocate(10, 4);
    // the chunk holds 24 bytes: a size beyond that names no allocation
    alloc.dealloc(ptr, 25, 4);
    alloc.dealloc(ptr + 4, 10, 4);
    assert_eq!(alloc.iter_all_chunk().len(), 3);
    alloc.dealloc(ptr, 10, 4);
    assert_eq!(alloc.iter_all_chunk(), chunks);
    assert!(alloc.sanity_check());
}

fn offsets(chunks: Vec<Chunk>) -> Vec<usize> {
    chunks.iter().map(|chunk| chunk.data).collect()
}

fn head(space: &Fixed<'_>, bin: usize) -> usize {
    let word = &space.as_slice()[8 * bin..8 * bin + 8];
    u64::from_le_bytes(word.try_into().unwrap()) as usize
}

#[test]
fn init_fills_two_bins() {
    let mut buffer = Vec::new();
    let space = fresh(&mut buffer, 4096);
    let own = Overlay::bin_index_of_size(4096 - 800 - 8);
    for bin in 3..96 {
        let expected = if bin == 95 {
            4064
        } else if bin == own {
            768
        } else {
            0
        };
        assert_eq!(head(&space, bin), expected);
    }
}

#[test]
fn equal_chunks_are_listed_oldest_first() {
    let mut buffer = Vec::new();
    let mut space = fresh(&mut buffer, 4096);
    let base = space.base();
    let ptrs: Vec<usize> = (0..7).map(|_| Overlay::alloc_in_space(&mut space, 40, 1)).collect();
    // chunks of 48 bytes at 768, 816, ..., each second one is given back
    Overlay::dealloc_in_space(&mut space, ptrs[3], 40, 1);
    Overlay::dealloc_in_space(&mut space, ptrs[1], 40, 1);
    Overlay::dealloc_in_space(&mut space, ptrs[5], 40, 1);
    let rest = 768 + 7 * 48;
    assert_eq!(
        offsets(Overlay::iter_free_chunk(&space)),
        vec![768 + 3 * 48, 768 + 48, 768 + 5 * 48, rest, 4064]
    );
    assert_eq!(head(&space, Overlay::bin_index_of_size(40)), 768 + 3 * 48);
    // the oldest one is taken first
    assert_eq!(Overlay::alloc_in_space(&mut space, 40, 1), base + 768 + 3 * 48 + 8);
    assert_eq!(head(&space, Overlay::bin_index_of_size(40)), 768 + 48);
    assert_eq!(Overlay::alloc_in_space(&mut space, 40, 1), base + 768 + 48 + 8);
    assert_eq!(Overlay::alloc_in_space(&mut space, 40, 1), base + 768 + 5 * 48 + 8);
    assert_eq!(head(&space, Overlay::bin_index_of_size(40)), 0);
    assert_eq!(offsets(Overlay::iter_free_chunk(&space)), vec![rest, 4064]);
}

#[test]
fn a_smaller_chunk_goes_before_the_head_of_its_bin() {
    let mut buffer = Vec::new();
    let mut space = fresh(&mut buffer, 8192);
    // user sizes 256..319 share a bin
    assert_eq!(Overlay::bin_index_of_size(296), Overlay::bin_index_of_size(264));
    let a = Overlay::alloc_in_space(&mut space, 296, 1);
    let guard_a = Overlay::alloc_in_space(&mut space, 8, 1);
    let b = Overlay::alloc_in_space(&mut space, 264, 1);
    let guard_b = Overlay::alloc_in_space(&mut space, 8, 1);
    assert_ne!(guard_a, 0);
    assert_ne!(guard_b, 0);
    let base = space.base();
    Overlay::dealloc_in_space(&mut space, a, 296, 1);
    assert_eq!(head(&space, Overlay::bin_index_of_size(296)), a - 8 - base);
    Overlay::dealloc_in_space(&mut space, b, 264, 1);
    // the bin keeps its head, the smaller chunk stands in front of it
    assert_eq!(head(&space, Overlay::bin_index_of_size(296)), a - 8 - base);
    let free = offsets(Overlay::iter_free_chunk(&space));
    assert_eq!(free[0], a - 8 - base);
    let first = Chunk::new(a - 8 - base, 8192);
    assert_eq!(first.get_prev(space.as_slice()), Some(Chunk::new(b - 8 - base, 8192)));
    // a request for the smaller size starts at the head and takes the
    // larger chunk
    assert_eq!(Overlay::alloc_in_space(&mut space, 264, 1), a);
}

#[test]
fn take_does_not_grow() {
    let mut buffer = Vec::new();
    let mut space = fresh(&mut buffer, 1024);
    let before = space.as_slice().to_vec();
    assert_eq!(Overlay::take(&mut space, 300, 1), 0);
    assert_eq!(space.as_slice(), &before[..]);
    let ptr = Overlay::take(&mut space, 100, 1);
    assert_eq!(ptr, space.base() + 776);
    assert_eq!(offsets(Overlay::iter_all_chunk(&space)), vec![768, 768 + 112, 992]);
}

#[test]
fn grow_requests() {
    assert_eq!(Overlay::grow_request(1024, 1024, 1), Some(1024 + 1024 + 1 + 8));
    assert_eq!(Overlay::grow_request(1024, 1, 1), Some(1024 + 32));
    assert_eq!(Overlay::grow_request(1024, 16, 8), Some(1024 + 32));
    assert_eq!(Overlay::grow_request(1024, 17, 8), Some(1024 + 33));
    assert_eq!(Overlay::grow_request(usize::MAX - 40, 40, 8), None);
    assert_eq!(Overlay::grow_request(usize::MAX - 40, 16, 8), Some(usize::MAX - 8));
    assert_eq!(Overlay::grow_request(usize::MAX - 40, 1, 1), Some(usize::MAX - 8));
    assert_eq!(Overlay::grow_request(1024, usize::MAX, 1), None);
    assert_eq!(Overlay::grow_request(1024, usize::MAX - 1024 - 9, 1), Some(usize::MAX));
}

#[test]
fn resize_in_place_tells_whether_it_worked() {
    let mut buffer = Vec::new();
    let mut space = fresh(&mut buffer, 4096);
    let a = Overlay::alloc_in_space(&mut space, 8, 1);
    let b = Overlay::alloc_in_space(&mut space, 8, 1);
    assert!(Overlay::resize_in_place(&mut space, a, 8, 1, 24));
    let before = space.as_slice().to_vec();
    assert!(!Overlay::resize_in_place(&mut space, a, 24, 1, 25));
    assert_eq!(space.as_slice(), &before[..]);
    assert!(Overlay::resize_in_place(&mut space, b, 8, 1, 3000));
    assert!(!Overlay::resize_in_place(&mut space, b, 3000, 1, 4000));
    assert!(Overlay::owns(&space, b, 3000, 1));
    assert!(Overlay::sanity_check(&space));
}

#[test]
fn alloc_zeroed_clears_old_bytes() {
    let mut buffer = Vec::new();
    let mut space = fresh(&mut buffer, 4096);
    let a = Overlay::alloc_in_space(&mut space, 64, 1);
    Overlay::write(&mut space, a, &[0xaa; 64]);
    Overlay::dealloc_in_space(&mut space, a, 64, 1);
    let b = Overlay::alloc_zeroed_in_space(&mut space, 64, 1);
    assert_eq!(b, a);
    assert_eq!(Overlay::read(&space, b, 64), vec![0; 64]);
    assert_eq!(Overlay::alloc_zeroed_in_space(&mut space, 0, 1), DANGLING);
    let data = &mut *vec![0; 4 << 10];
    let alloc = Allocator::new(Fixed::from(data));
    let c = alloc.allocate(32, 1);
    assert!(alloc.write(c, &[1; 32]));
    alloc.dealloc(c, 32, 1);
    let d = alloc.alloc_zeroed(32, 1);
    assert_eq!(d, c);
    assert_eq!(alloc.read(d, 32).unwrap(), vec![0; 32]);
}

#[test]
fn split_leaves_no_chunk_below_the_minimum() {
    let mut buffer = Vec::new();
    let mut space = fresh(&mut buffer, 768 + 64 + 56);
    // one free chunk of 88 bytes: a request that needs 64 leaves 24,
    // which is no chunk, so the whole chunk is taken
    let ptr = Overlay::alloc_in_space(&mut space, 56, 1);
    assert_ne!(ptr, 0);
    assert_eq!(offsets(Overlay::iter_all_chunk(&space)), vec![768, 856]);
    assert_eq!(Chunk::new(768, 888).get_size(space.as_slice()), 88);
    Overlay::dealloc_in_space(&mut space, ptr, 56, 1);
    // a request that needs 56 leaves 32, which is one
    let ptr = Overlay::alloc_in_space(&mut space, 48, 1);
    assert_ne!(ptr, 0);
    assert_eq!(offsets(Overlay::iter_all_chunk(&space)), vec![768, 824, 856]);
}

#[test]
fn chunk_views() {
    let mut buffer = Vec::new();
    let mut space = fresh(&mut buffer, 4096);
    let base = space.base();
    let first = Chunk::new(768, 4096);
    let mem = space.as_slice();
    assert_eq!(first.get_user_data(mem, base, 100, 1), Some(base + 776));
    assert_eq!(first.get_user_data(mem, base, 3288, 1), Some(base + 776));
    assert_eq!(first.get_user_data(mem, base, 3289, 1), None);
    let aligned = first.get_user_data(mem, base, 100, 256).unwrap();
    assert_eq!(aligned % 256, 0);
    assert!(aligned >= base + 776 && aligned < base + 776 + 256);
    assert_eq!(first.cut_size(base, 1, 1), 32);
    assert_eq!(first.cut_size(base, 24, 1), 32);
    assert_eq!(first.cut_size(base, 25, 1), 40);
    assert_eq!(first.cut_size(base, 100, 1), 112);
    assert_eq!(first.get_free_higher_chunk(mem), Some(Chunk::new(4064, 4096)));
    let mem = space.as_mut_slice();
    let rest = first.split(mem, base, 100, 1);
    assert_eq!(rest, Some(Chunk::new(768 + 112, 4096)));
    assert_eq!(first.get_size(mem), 112);
    assert_eq!(Chunk::new(880, 4096).get_size(mem), 4064 - 880);
    assert!(!Chunk::new(880, 4096).get_in_use(mem));
    first.coalesce(mem, Chunk::new(880, 4096));
    assert_eq!(first.get_size(mem), 4064 - 768);
    first.set_lower_in_use(mem, false);
    assert!(!first.get_lower_in_use(mem));
    first.set_lower_in_use(mem, true);
    assert!(first.get_lower_in_use(mem));
    first.set_in_use_and_size(mem, true, 4064 - 768);
    assert!(first.get_in_use(mem));
    assert!(Chunk::new(4064, 4096).get_lower_in_use(mem));
    assert_eq!(first.get_free_higher_chunk(mem), Some(Chunk::new(4064, 4096)));
    assert_eq!(Chunk::new(4064, 4096).get_free_lower_chunk(mem), None);
}

#[test]
fn relocate_goes_to_the_first_fitting_chunk() {
    let mut buffer = Vec::new();
    let mut space = fresh(&mut buffer, 4096);
    let base = space.base();
    let a = Overlay::alloc_in_space(&mut space, 8, 1);
    let b = Overlay::alloc_in_space(&mut space, 8, 1);
    assert_eq!((a, b), (base + 776, base + 808));
    Overlay::write(&mut space, a, &[3, 1, 4, 1, 5, 9, 2, 6]);
    let moved = Overlay::relocate(&mut space, a - base, 8, 1, 200);
    assert_eq!(moved, base + 840);
    assert_eq!(space.as_slice().len(), 4096);
    assert_eq!(space.base(), base);
    assert_eq!(offsets(Overlay::iter_all_chunk(&space)), vec![768, 800, 832, 1040, 4064]);
    assert_eq!(Overlay::read(&space, moved, 8), vec![3, 1, 4, 1, 5, 9, 2, 6]);
    assert!(!Overlay::owns(&space, a, 8, 1));
    assert!(Overlay::owns(&space, b, 8, 1));
    // shrinking by moving keeps the bytes that fit
    let small = Overlay::relocate(&mut space, moved - base, 200, 1, 4);
    assert_eq!(small, base + 776);
    assert_eq!(Overlay::read(&space, small, 4), vec![3, 1, 4, 1]);
    assert!(Overlay::sanity_check(&space));
}

#[test]
fn relocate_without_room_changes_nothing() {
    let mut buffer = Vec::new();
    let mut space = fresh(&mut buffer, 1024);
    let base = space.base();
    let a = Overlay::alloc_in_space(&mut space, 8, 1);
    let before = space.as_slice().to_vec();
    assert_eq!(Overlay::relocate(&mut space, a - base, 8, 1, 500), 0);
    assert_eq!(space.as_slice(), &before[..]);
    assert_eq!(Overlay::relocate(&mut space, a - base, 8, 1, usize::MAX), 0);
    assert_eq!(space.as_slice(), &before[..]);
}

#[test]
fn realloc_moves_to_the_first_fitting_chunk() {
    let mut buffer = Vec::new();
    let mut space = fresh(&mut buffer, 4096);
    let base = space.base();
    let a = Overlay::alloc_in_space(&mut space, 8, 1);
    let b = Overlay::alloc_in_space(&mut space, 8, 1);
    assert_eq!(Overlay::realloc_in_space(&mut space, a, 8, 1, 200), base + 840);
    assert_eq!(offsets(Overlay::iter_all_chunk(&space)), vec![768, 800, 832, 1040, 4064]);
    assert!(Overlay::owns(&space, b, 8, 1));
}

#[test]
fn guarded_operations_tell_what_they_did() {
    let mut buffer = Vec::new();
    let mut space = fresh(&mut buffer, 4096);
    let base = space.base();
    assert!(Overlay::contains(&space, base));
    assert!(Overlay::contains(&space, base + 4095));
    assert!(!Overlay::contains(&space, base + 4096));
    assert!(!Overlay::contains(&space, base - 1));
    let a = Overlay::alloc_in_space(&mut space, 10, 2);
    let before = space.as_slice().to_vec();
    // the chunk holds 24 bytes
    assert!(!Overlay::try_write(&mut space, a, &[7; 25]));
    assert!(!Overlay::try_write(&mut space, a - 1, &[7; 4]));
    assert!(!Overlay::try_write(&mut space, a + 32, &[7; 4]));
    assert_eq!(space.as_slice(), &before[..]);
    assert_eq!(Overlay::try_read(&space, a, 25), None);
    assert_eq!(Overlay::try_read(&space, 0, 1), None);
    assert!(Overlay::try_write(&mut space, a + 20, &[1, 2, 3, 4]));
    assert_eq!(Overlay::try_read(&space, a + 20, 4), Some(vec![1, 2, 3, 4]));
    assert_eq!(Overlay::try_read(&space, a + 22, 2), Some(vec![3, 4]));
    let before = space.as_slice().to_vec();
    assert_eq!(Overlay::try_realloc(&mut space, a, 0, 2, 8), 0);
    assert_eq!(Overlay::try_realloc(&mut space, a, 10, 2, 0), 0);
    assert_eq!(Overlay::try_realloc(&mut space, a + 2, 10, 2, 8), 0);
    assert_eq!(Overlay::try_realloc(&mut space, a, 25, 2, 8), 0);
    assert!(!Overlay::try_dealloc(&mut space, a, 0, 2));
    assert!(!Overlay::try_dealloc(&mut space, a, 25, 2));
    assert!(!Overlay::try_dealloc(&mut space, a + 2, 10, 2));
    assert!(!Overlay::try_dealloc(&mut space, base, 10, 2));
    assert_eq!(space.as_slice(), &before[..]);
    assert_eq!(Overlay::try_realloc(&mut space, a, 10, 2, 24), a);
    assert_eq!(space.as_slice(), &before[..]);
    assert_eq!(Overlay::try_realloc(&mut space, a, 24, 2, 100), a);
    assert_eq!(offsets(Overlay::iter_all_chunk(&space)), vec![768, 768 + 112, 4064]);
    assert!(Overlay::try_dealloc(&mut space, a, 100, 2));
    assert_eq!(offsets(Overlay::iter_all_chunk(&space)), vec![768, 4064]);
    assert!(!Overlay::try_dealloc(&mut space, a, 100, 2));
}

#[test]
fn allocator_realloc_of_nothing_or_to_nothing_is_refused() {
    let data = &mut *vec![0; 4 << 10];
    let alloc = Allocator::new(Fixed::from(data));
    let ptr = alloc.allocate(10, 4);
    assert!(alloc.write(ptr, &[5; 10]));
    let chunks = alloc.iter_all_chunk();
    assert_eq!(alloc.realloc(ptr, 10, 4, 0), 0);
    assert_eq!(alloc.realloc(ptr, 0, 4, 10), 0);
    assert_eq!(alloc.realloc(DANGLING, 0, 4, 10), 0);
    assert_eq!(alloc.iter_all_chunk(), chunks);
    assert_eq!(alloc.read(ptr, 10), Some(vec![5; 10]));
    assert!(alloc.contains(ptr));
    assert!(!alloc.contains(0));
}
