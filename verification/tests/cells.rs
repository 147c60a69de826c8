use pubwire::cachepadded::CachePadded;
use pubwire::oncecell::{Lazy, OnceCell};

#[test]
fn once_cell_is_set_once() {
    let mut cell: OnceCell<u32> = OnceCell::new();
    assert!(cell.get().is_none());
    assert!(cell.set(5).is_ok());
    assert_eq!(cell.get(), Some(&5));
    assert_eq!(cell.set(7), Err(7));
    assert_eq!(cell.get(), Some(&5));
    assert_eq!(cell.take(), Some(5));
    assert!(cell.get().is_none());
    assert!(cell.set(9).is_ok());
    assert_eq!(cell.into_inner(), Some(9));
}

#[test]
fn once_cell_initializes_lazily() {
    let mut cell: OnceCell<u32> = OnceCell::new();
    assert_eq!(*cell.get_or_init(|| 40 + 2), 42);
    // the second initializer never runs
    assert_eq!(*cell.get_or_init(|| 0), 42);
}

#[test]
fn once_cell_keeps_failure_out() {
    let mut cell: OnceCell<u32> = OnceCell::new();
    let r: Result<&u32, &str> = cell.get_or_try_init(|| Err("broken"));
    assert_eq!(r, Err("broken"));
    assert!(cell.get().is_none());
    let r: Result<&u32, &str> = cell.get_or_try_init(|| Ok(11));
    assert_eq!(r, Ok(&11));
    assert_eq!(cell.get(), Some(&11));
}

#[test]
fn lazy_forces_once() {
    let mut lazy: Lazy<u32, fn() -> u32> = Lazy::new(|| 6 * 7);
    assert_eq!(*Lazy::force(&mut lazy), 42);
    assert_eq!(*Lazy::force(&mut lazy), 42);
    assert_eq!(Lazy::into_value(lazy), Ok(42));
}

#[test]
fn lazy_unforced_returns_its_initializer() {
    let lazy: Lazy<u32, fn() -> u32> = Lazy::new(|| 13);
    match Lazy::into_value(lazy) {
        Err(f) => assert_eq!(f(), 13),
        Ok(_) => panic!("an unforced value cannot be there"),
    }
}

#[test]
fn cache_padded_wraps_transparently() {
    let c = CachePadded::new(123u64);
    assert_eq!(c.into_inner(), 123);
    let c2 = CachePadded::new((1u8, 2u8));
    assert_eq!(c2.into_inner(), (1, 2));
}
