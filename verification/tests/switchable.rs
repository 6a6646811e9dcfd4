use simpile::linked::allocator::Allocator;
use simpile::space::Fixed;
use simpile::switchable::{route_new, route_old, EnablePtr, Route, Switchable};

#[test]
fn run() {
    let mut bytes = vec![0u8; 4 << 10];
    let global = Switchable::new(Allocator::new(Fixed::from(&mut bytes[..])));
    assert_eq!(global.route_alloc(false), Route::Own);
    let on_box = global.inner().allocate(42, 8);
    println!("On: {:?}", on_box);
    assert_ne!(on_box, 0);
    global.set_enable(false);
    assert_eq!(global.route_alloc(false), Route::System);
    println!("Off: {:?}", global.route_alloc(false));
    assert_eq!(global.route_ptr(on_box), Route::Own);
    global.inner().dealloc(on_box, 42, 8);
}

#[test]
fn routes() {
    assert_eq!(route_new(true, false), Route::Own);
    assert_eq!(route_new(true, true), Route::System);
    assert_eq!(route_new(false, false), Route::System);
    assert_eq!(route_new(false, true), Route::System);
    assert_eq!(route_old(true), Route::Own);
    assert_eq!(route_old(false), Route::System);
}

#[test]
fn switch_turns_on_and_off() {
    let mut bytes = vec![0u8; 4 << 10];
    let base = bytes.as_ptr() as usize;
    let switchable = Switchable::from(Allocator::new(Fixed::from(&mut bytes[..])));
    assert!(switchable.enable_alloc(false));
    assert!(!switchable.enable_alloc(true));
    assert_eq!(switchable.route_alloc(true), Route::System);
    switchable.set_enable(false);
    assert!(!switchable.enable_alloc(false));
    switchable.set_enable(true);
    assert!(switchable.enable_alloc(false));
    assert!(switchable.inner().enable_ptr(base));
    assert!(switchable.inner().enable_ptr(base + 4095));
    assert!(!switchable.inner().enable_ptr(base + 4096));
    assert!(!switchable.inner().enable_ptr(base - 1));
    assert_eq!(switchable.route_ptr(base + 100), Route::Own);
    assert_eq!(switchable.route_ptr(base + 5000), Route::System);
}
