use playlist::cell::{Cell, RcInner, RcRelease, RefCellInner, RefState};

#[test]
fn cell_get_set() {
    let mut c = Cell::new(5u32);
    assert_eq!(c.get(), 5);
    c.set(7);
    assert_eq!(c.get(), 7);
}

#[test]
fn refcell_shared_borrows_count_up_and_down() {
    let mut r = RefCellInner::new(String::from("v"));
    let a = r.borrow().unwrap();
    let b = r.borrow().unwrap();
    assert_eq!(r.deref(&a), "v");
    assert!(r.borrow_mut().is_none());
    r.release(a);
    assert!(r.borrow_mut().is_none());
    r.release(b);
    let m = r.borrow_mut().unwrap();
    assert!(r.borrow().is_none());
    assert!(r.borrow_mut().is_none());
    r.deref_mut(&m).push('w');
    r.release_mut(m);
    let c = r.borrow().unwrap();
    assert_eq!(r.deref(&c), "vw");
}

#[test]
fn refcell_states() {
    let mut r = RefCellInner::new(1u8);
    let a = r.borrow().unwrap();
    let b = r.borrow().unwrap();
    assert!(matches!(r.reference_state(), RefState::Voyeur(2)));
    r.release(a);
    assert!(matches!(r.reference_state(), RefState::Voyeur(1)));
    r.release(b);
    assert!(matches!(r.reference_state(), RefState::Open));
    let m = r.borrow_mut().unwrap();
    assert!(matches!(r.reference_state(), RefState::Access));
    r.release_mut(m);
    assert!(matches!(r.reference_state(), RefState::Open));
}

#[test]
fn rc_count() {
    let mut rc = RcInner::new(3u32);
    assert_eq!(rc.ref_count(), 0);
    rc.on_clone();
    rc.on_clone();
    rc.on_clone();
    assert_eq!(rc.ref_count(), 3);
    assert_eq!(*rc.deref(), 3);
    assert_eq!(rc.on_drop(), RcRelease::Remaining);
    assert_eq!(rc.on_drop(), RcRelease::Remaining);
    assert_eq!(rc.ref_count(), 1);
    assert_eq!(rc.on_drop(), RcRelease::Freed);
}
