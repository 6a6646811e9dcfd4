use simpile::powers::next_power_of_two;
use simpile::space::{grown_size, Fixed, Mmap, Remap, Space};

/// A buffer of `len` bytes whose first byte sits at a multiple of `align`.
fn aligned(buffer: &mut Vec<u8>, len: usize, align: usize) -> &mut [u8] {
    buffer.resize(len + align, 0);
    let skip = (align - buffer.as_ptr() as usize % align) % align;
    &mut buffer[skip..skip + len]
}

#[test]
fn persistent_data() {
    fn run<S: Space>(space: &mut S) {
        let done = space.set_size(4 << 10);
        assert!(done);
        let source = b"important data";
        space.as_mut_slice()[..source.len()].copy_from_slice(source);
        space.set_size(1 << 13);
        assert_eq!(&space.as_slice()[..source.len()], source);
    }
    run(&mut Fixed::from(&mut *vec![0; 4 << 10]));
}

#[test]
fn aligned_data() {
    fn run<S: Space>(space: &mut S) {
        space.set_size(4 << 10);
        assert_eq!(space.base() % (4 << 10), 0);
    }
    let mut buffer = Vec::new();
    let mut space = Fixed::from(aligned(&mut buffer, 4 << 10, 4 << 10));
    run(&mut space);
}

#[test]
fn fixed_reports_the_address_of_its_buffer() {
    let mut data = vec![0u8; 64];
    let addr = data.as_ptr() as usize;
    let fixed = Fixed::from(&mut data[..]);
    assert_eq!(fixed.base(), addr);
    assert_eq!(fixed.as_slice().len(), 64);
}

#[test]
fn fixed_does_not_resize() {
    let mut data = vec![0u8; 64];
    let mut fixed = Fixed::from(&mut data[..]);
    assert!(fixed.set_size(64));
    assert!(!fixed.set_size(128));
    assert!(!fixed.set_size(0));
    assert!(!fixed.grow(65));
    assert!(fixed.grow(10));
    assert_eq!(fixed.as_slice().len(), 64);
}

struct Growable {
    data: Vec<u8>,
}

impl Space for Growable {
    fn base(&self) -> usize {
        self.data.as_ptr() as usize
    }

    fn as_slice(&self) -> &[u8] {
        &self.data
    }

    fn as_mut_slice(&mut self) -> &mut [u8] {
        &mut self.data
    }

    fn set_size(&mut self, bytes: usize) -> bool {
        self.data.resize(bytes, 0);
        true
    }
}

#[test]
fn grow_multiplies_by_a_power_of_two() {
    let mut space = Growable { data: vec![7; 1 << 10] };
    assert!(space.grow(3000));
    assert_eq!(space.as_slice().len(), 4096);
    assert!(space.as_slice()[..1 << 10].iter().all(|byte| *byte == 7));
    assert!(space.grow(4096));
    assert_eq!(space.as_slice().len(), 8192);
    assert!(space.grow(1));
    assert_eq!(space.as_slice().len(), 8192);
}

#[test]
fn grow_fails_on_overflow() {
    let mut space = Growable { data: vec![0; 16] };
    assert!(!space.grow(usize::MAX));
    assert_eq!(space.as_slice().len(), 16);
}

#[test]
fn next_power_of_two_values() {
    assert_eq!(next_power_of_two(0), Some(1));
    assert_eq!(next_power_of_two(1), Some(1));
    assert_eq!(next_power_of_two(2), Some(2));
    assert_eq!(next_power_of_two(3), Some(4));
    assert_eq!(next_power_of_two(1000), Some(1024));
    assert_eq!(next_power_of_two(1024), Some(1024));
    assert_eq!(next_power_of_two(usize::MAX), None);
    assert_eq!(next_power_of_two((usize::MAX >> 1) + 1), Some((usize::MAX >> 1) + 1));
}

#[test]
fn mapping_plans() {
    let mut mmap = Mmap::new();
    assert_eq!(mmap.addr(), 0);
    assert_eq!(mmap.len(), 0);
    assert_eq!(mmap.plan(0), Remap::Keep);
    assert_eq!(mmap.plan(4096), Remap::Fresh { len: 4096 });
    assert!(!mmap.settle(Remap::Fresh { len: 4096 }, None));
    assert_eq!(mmap.len(), 0);
    assert!(mmap.settle(Remap::Fresh { len: 4096 }, Some(0x10000)));
    assert_eq!(mmap.addr(), 0x10000);
    assert_eq!(mmap.len(), 4096);
    assert_eq!(mmap.plan(4096), Remap::Keep);
    assert_eq!(
        mmap.plan(8192),
        Remap::Resize { addr: 0x10000, old_len: 4096, new_len: 8192 }
    );
    assert!(!mmap.settle(mmap.plan(8192), None));
    assert_eq!(mmap.len(), 4096);
    assert!(mmap.settle(mmap.plan(8192), Some(0x10000)));
    assert_eq!(mmap.len(), 8192);
    assert_eq!(mmap.plan(0), Remap::Unmap { addr: 0x10000, len: 8192 });
    assert!(mmap.settle(mmap.plan(0), None));
    assert_eq!(mmap.addr(), 0);
    assert_eq!(mmap.len(), 0);
    let fresh = Mmap::default();
    assert_eq!(fresh.len(), 0);
}

#[test]
fn grown_sizes() {
    assert_eq!(grown_size(1024, 0), Some(1024));
    assert_eq!(grown_size(1024, 1023), Some(1024));
    assert_eq!(grown_size(1024, 1024), Some(2048));
    assert_eq!(grown_size(1024, 2047), Some(2048));
    assert_eq!(grown_size(1024, 2048), Some(4096));
    assert_eq!(grown_size(1024, 3072), Some(4096));
    assert_eq!(grown_size(1024, 4096), Some(8192));
    assert_eq!(grown_size(1000, 2500), Some(4000));
    assert_eq!(grown_size(1, usize::MAX), None);
    assert_eq!(grown_size(3, usize::MAX - 1), None);
    assert_eq!(grown_size(usize::MAX, 1), Some(usize::MAX));
    assert_eq!(grown_size(usize::MAX, usize::MAX), None);
}
