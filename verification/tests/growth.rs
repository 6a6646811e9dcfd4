use simpile::linked::allocator::Allocator;
use simpile::linked::overlay::Overlay;
use simpile::space::Space;

/// A space on the heap that grows by moving to a larger buffer of words,
/// so that its first byte always sits at a multiple of 8.
struct Growable {
    words: Vec<u64>,
    bytes: Vec<u8>,
    grown: usize,
}

impl Growable {
    fn new(len: usize) -> Self {
        let mut bytes = vec![0u8; len + 8];
        let skip = (8 - bytes.as_ptr() as usize % 8) % 8;
        bytes.drain(..0);
        Growable { words: vec![skip as u64], bytes, grown: 0 }
    }

    fn skip(&self) -> usize {
        (8 - self.bytes.as_ptr() as usize % 8) % 8
    }

    fn len(&self) -> usize {
        self.bytes.len() - 8
    }
}

impl Space for Growable {
    fn base(&self) -> usize {
        self.bytes.as_ptr() as usize + self.skip()
    }

    fn as_slice(&self) -> &[u8] {
        let skip = self.skip();
        &self.bytes[skip..skip + self.len()]
    }

    fn as_mut_slice(&mut self) -> &mut [u8] {
        let skip = self.skip();
        let len = self.len();
        &mut self.bytes[skip..skip + len]
    }

    fn set_size(&mut self, bytes: usize) -> bool {
        if bytes == self.len() {
            return true;
        }
        let old = self.as_slice().to_vec();
        let mut next = vec![0u8; bytes + 8];
        let skip = (8 - next.as_ptr() as usize % 8) % 8;
        let keep = old.len().min(bytes);
        next[skip..skip + keep].copy_from_slice(&old[..keep]);
        self.bytes = next;
        self.words.push(bytes as u64);
        self.grown += 1;
        true
    }
}

#[test]
fn growable_space_grows_on_demand() {
    let mut space = Growable::new(1 << 10);
    let overlay = Overlay::new(&space);
    let len = space.len();
    overlay.init(space.as_mut_slice(), len);
    let ptr = Overlay::alloc_in_space(&mut space, 1 << 10, 1);
    assert_eq!(space.grown, 1);
    assert_ne!(ptr, 0);
    assert!(space.len() >= (1 << 10) + (1 << 10) + 1 + 8);
    assert!(space.base() <= ptr && ptr + (1 << 10) <= space.base() + space.len());
    assert!(Overlay::sanity_check(&space));
    assert!(Overlay::owns(&space, ptr, 1 << 10, 1));
    let all = Overlay::iter_all_chunk(&space);
    assert_eq!(all.last().unwrap().data, space.len() - 32);
}

#[test]
fn growth_merges_with_a_free_chunk_below_the_old_top() {
    let mut space = Growable::new(1 << 10);
    let overlay = Overlay::new(&space);
    let len = space.len();
    overlay.init(space.as_mut_slice(), len);
    // the free chunk below the top has 1024 - 768 - 32 = 224 bytes
    let ptr = Overlay::alloc_in_space(&mut space, 300, 1);
    assert_ne!(ptr, 0);
    assert_eq!(space.len(), 2 << 10);
    assert_eq!(ptr, space.base() + 776);
    let all: Vec<usize> = Overlay::iter_all_chunk(&space).iter().map(|chunk| chunk.data).collect();
    assert_eq!(all, vec![768, 768 + 312, 2048 - 32]);
    Overlay::dealloc_in_space(&mut space, ptr, 300, 1);
    let all: Vec<usize> = Overlay::iter_all_chunk(&space).iter().map(|chunk| chunk.data).collect();
    assert_eq!(all, vec![768, 2048 - 32]);
}

#[test]
fn growth_keeps_what_is_allocated() {
    let mut space = Growable::new(1 << 10);
    let overlay = Overlay::new(&space);
    let len = space.len();
    overlay.init(space.as_mut_slice(), len);
    let a = Overlay::alloc_in_space(&mut space, 200, 1);
    assert_ne!(a, 0);
    let offset = a - space.base();
    Overlay::write(&mut space, a, &[42; 200]);
    let b = Overlay::alloc_in_space(&mut space, 500, 1);
    assert_ne!(b, 0);
    assert_eq!(space.grown, 1);
    let a = space.base() + offset;
    assert_eq!(Overlay::read(&space, a, 200), vec![42; 200]);
    assert!(Overlay::holds(&space, a, 200));
    assert!(Overlay::sanity_check(&space));
}

#[test]
fn allocator_over_growable_space() {
    let alloc = Allocator::new(Growable::new(1 << 10));
    let ptr = alloc.allocate(1 << 10, 1);
    assert_ne!(ptr, 0);
    assert!(alloc.write(ptr, &[7; 1 << 10]));
    assert_eq!(alloc.read(ptr, 1 << 10).unwrap(), vec![7; 1 << 10]);
    assert!(alloc.sanity_check());
    alloc.dealloc(ptr, 1 << 10, 1);
    assert_eq!(alloc.iter_all_chunk().len(), 2);
}

#[test]
fn adopt_takes_new_bytes_into_service() {
    let mut space = Growable::new(1 << 10);
    let overlay = Overlay::new(&space);
    let len = space.len();
    overlay.init(space.as_mut_slice(), len);
    let a = Overlay::alloc_in_space(&mut space, 216, 1);
    assert_ne!(a, 0);
    assert_eq!(space.grown, 0);
    // everything below the top chunk is in use
    let all: Vec<usize> = Overlay::iter_all_chunk(&space).iter().map(|chunk| chunk.data).collect();
    assert_eq!(all, vec![768, 992]);
    assert!(space.set_size(2048));
    Overlay::adopt(&mut space, 1024);
    let all: Vec<usize> = Overlay::iter_all_chunk(&space).iter().map(|chunk| chunk.data).collect();
    assert_eq!(all, vec![768, 992, 2016]);
    let free: Vec<usize> =
        Overlay::iter_free_chunk(&space).iter().map(|chunk| chunk.data).collect();
    assert_eq!(free, vec![992, 2016]);
    assert!(Overlay::sanity_check(&space));
    assert!(Overlay::owns(&space, space.base() + 776, 216, 1));
}

#[test]
fn repeated_growth_and_round_trip() {
    let mut space = Growable::new(1 << 10);
    let overlay = Overlay::new(&space);
    let len = space.len();
    overlay.init(space.as_mut_slice(), len);
    // offsets rather than addresses: the space moves when it grows
    let mut held: Vec<(usize, usize, u8)> = Vec::new();
    for round in 0..200usize {
        let size = 1 + (round * 37) % 300;
        let ptr = Overlay::alloc_in_space(&mut space, size, 8);
        assert_ne!(ptr, 0);
        let offset = ptr - space.base();
        assert_eq!(offset % 8, 0);
        Overlay::write(&mut space, ptr, &vec![round as u8; size]);
        held.push((offset, size, round as u8));
        if round % 3 == 0 {
            let (offset, size, fill) = held.remove(round % held.len());
            let ptr = space.base() + offset;
            assert_eq!(Overlay::read(&space, ptr, size), vec![fill; size]);
            Overlay::dealloc_in_space(&mut space, ptr, size, 8);
        }
        assert!(Overlay::sanity_check(&space));
    }
    assert!(space.grown >= 4);
    for (offset, size, fill) in held.drain(..) {
        let ptr = space.base() + offset;
        assert!(Overlay::owns(&space, ptr, size, 8));
        assert_eq!(Overlay::read(&space, ptr, size), vec![fill; size]);
        Overlay::dealloc_in_space(&mut space, ptr, size, 8);
    }
    let all: Vec<usize> = Overlay::iter_all_chunk(&space).iter().map(|chunk| chunk.data).collect();
    assert_eq!(all, vec![768, space.len() - 32]);
    let free: Vec<usize> =
        Overlay::iter_free_chunk(&space).iter().map(|chunk| chunk.data).collect();
    assert_eq!(free, vec![768, space.len() - 32]);
}

#[test]
fn a_free_chunk_of_the_last_bin_is_out_of_reach() {
    // the last bin always heads at the top chunk, so a request whose own
    // bin is the last one finds nothing, however much the space grows
    let mut space = Growable::new(1 << 10);
    let overlay = Overlay::new(&space);
    let len = space.len();
    overlay.init(space.as_mut_slice(), len);
    assert_eq!(Overlay::alloc_in_space(&mut space, 1 << 24, 1), 0);
    assert_eq!(space.grown, 1);
    assert_eq!(space.len(), 1 << 25);
    assert!(Overlay::sanity_check(&space));
    // all that is free is one chunk of the last bin's size class: it
    // stands on the list in front of the top chunk, no bin heads at it,
    // and so no request finds it
    let all: Vec<usize> = Overlay::iter_all_chunk(&space).iter().map(|chunk| chunk.data).collect();
    assert_eq!(all, vec![768, (1 << 25) - 32]);
    let free: Vec<usize> =
        Overlay::iter_free_chunk(&space).iter().map(|chunk| chunk.data).collect();
    assert_eq!(free, vec![(1 << 25) - 32]);
    assert_eq!(Overlay::take(&mut space, 100, 1), 0);
    assert_eq!(Overlay::alloc_in_space(&mut space, 100, 1), 0);
    assert_eq!(space.grown, 2);
    assert!(Overlay::sanity_check(&space));
}

#[test]
fn a_retry_after_growth_is_adopt_then_take() {
    let mut one = Growable::new(1 << 10);
    let overlay = Overlay::new(&one);
    overlay.init(one.as_mut_slice(), 1 << 10);
    let mut two = Growable::new(1 << 10);
    let overlay = Overlay::new(&two);
    overlay.init(two.as_mut_slice(), 1 << 10);

    let ptr = Overlay::grow_and_retry(&mut one, 1 << 10, 1);
    // 1024 goes twice into the target of 2057: four times the length
    assert_eq!(one.len(), 4096);
    assert_eq!(ptr, one.base() + 776);
    let all: Vec<usize> = Overlay::iter_all_chunk(&one).iter().map(|c| c.data).collect();
    assert_eq!(all, vec![768, 768 + 1032, 4064]);

    assert!(two.set_size(4096));
    Overlay::adopt(&mut two, 1 << 10);
    let all: Vec<usize> = Overlay::iter_all_chunk(&two).iter().map(|c| c.data).collect();
    assert_eq!(all, vec![768, 4064]);
    let taken = Overlay::take(&mut two, 1 << 10, 1);
    assert_eq!(taken - two.base(), ptr - one.base());
    assert_eq!(one.as_slice(), two.as_slice());
}

/// A space that refuses to grow.
struct Stubborn(Growable);

impl Space for Stubborn {
    fn base(&self) -> usize {
        self.0.base()
    }

    fn as_slice(&self) -> &[u8] {
        self.0.as_slice()
    }

    fn as_mut_slice(&mut self) -> &mut [u8] {
        self.0.as_mut_slice()
    }

    fn set_size(&mut self, bytes: usize) -> bool {
        bytes == self.0.len()
    }
}

#[test]
fn a_space_that_does_not_grow_is_left_as_it_is() {
    let mut space = Stubborn(Growable::new(1 << 10));
    let overlay = Overlay::new(&space);
    overlay.init(space.as_mut_slice(), 1 << 10);
    let before = space.as_slice().to_vec();
    assert_eq!(Overlay::grow_and_retry(&mut space, 1 << 10, 1), 0);
    assert_eq!(space.as_slice(), &before[..]);
    assert!(!space.grow(2000));
    assert!(space.grow(1000));
    assert_eq!(space.as_slice(), &before[..]);
}
