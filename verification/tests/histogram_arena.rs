//! The pool of histogram buffers.
use std::cell::RefCell;
use std::rc::Rc;

use lgbm_compute::error::ComputeError;
use lgbm_compute::kernels::histogram_arena::HistArena;

type Slot = Rc<RefCell<Vec<f64>>>;

fn arena(num_slots: usize, slot_len: usize) -> Result<HistArena<Slot>, ComputeError> {
    HistArena::new(num_slots, slot_len, |bytes| Rc::new(RefCell::new(vec![0.0f64; bytes / 8])))
}

fn subtract(parent: &[f64], smaller: &[f64], out: &Slot) {
    for (cell, (p, s)) in out.borrow_mut().iter_mut().zip(parent.iter().zip(smaller)) {
        *cell = p - s;
    }
}

#[test]
fn new_allocates_exactly_num_slots() {
    for &n in &[1usize, 2, 3, 8] {
        let arena = arena(n, 16).unwrap();
        assert_eq!(arena.device_allocations(), n, "counter must equal num_slots");
        assert_eq!(arena.num_slots(), n);
        assert_eq!(arena.slot_len_elems(), 16);
    }
}

#[test]
fn new_rejects_zero_num_slots() {
    let res = arena(0, 16);
    assert!(matches!(res, Err(ComputeError::Runtime { .. })));
}

#[test]
fn new_rejects_zero_slot_len() {
    let res = arena(3, 0);
    assert!(matches!(res, Err(ComputeError::Runtime { .. })));
}

#[test]
fn new_rejects_overflowing_slab() {
    let res = arena(1, usize::MAX);
    assert!(matches!(res, Err(ComputeError::Runtime { .. })));
}

#[test]
fn accessors_do_not_allocate() {
    let arena = arena(3, 16).unwrap();
    let before = arena.device_allocations();
    let _p = arena.parent_handle();
    let _s = arena.smaller_handle();
    let _l = arena.larger_handle();
    let _ = (arena.parent_idx(), arena.smaller_idx(), arena.larger_idx());
    assert_eq!(arena.device_allocations(), before, "accessors must not allocate");
}

#[test]
fn initial_triple_seeds_parent_slot_zero() {
    let arena = arena(3, 16).unwrap();
    assert_eq!(arena.parent_idx(), 0);
    assert_ne!(arena.smaller_idx(), arena.parent_idx());
}

#[test]
fn rotate_bookkeeping_no_alias() {
    let mut arena = arena(3, 16).unwrap();
    let old_parent = arena.parent_idx();

    arena.rotate().unwrap();

    assert_eq!(arena.larger_idx(), old_parent, "larger must inherit the parent slot in-place");
    assert_ne!(arena.smaller_idx(), arena.parent_idx(), "smaller must not alias the parent slot");
    assert_ne!(
        arena.smaller_idx(),
        arena.larger_idx(),
        "smaller must not alias the larger (== parent) slot"
    );
}

#[test]
fn rotate_does_not_allocate() {
    let mut arena = arena(3, 16).unwrap();
    let before = arena.device_allocations();
    for _ in 0..5 {
        arena.rotate().unwrap();
    }
    assert_eq!(arena.device_allocations(), before, "rotate() must perform zero allocations");
}

#[test]
fn rotate_rejects_single_slot_pool() {
    let mut arena = arena(1, 16).unwrap();
    let res = arena.rotate();
    assert!(matches!(res, Err(ComputeError::Runtime { .. })));
}

#[test]
fn rotate_subtract_lands_in_larger_parent_slot() {
    let slot_len = 8usize;
    let mut arena = arena(3, slot_len).unwrap();
    let old_parent = arena.parent_idx();
    let parent_slot = Rc::clone(arena.parent_handle());

    arena.rotate().unwrap();
    assert_eq!(arena.larger_idx(), old_parent);

    let parent_data = vec![10.0f64, 5.0, 8.0, 4.0, 9.0, 3.0, 7.0, 2.0];
    let smaller_data = vec![3.0f64, 2.0, 1.0, 1.0, 4.0, 1.0, 2.0, 1.0];
    let expected: Vec<f64> = parent_data.iter().zip(&smaller_data).map(|(p, c)| p - c).collect();
    let allocs_before_launch = arena.device_allocations();

    subtract(&parent_data, &smaller_data, arena.larger_handle());

    let got = arena.larger_handle().borrow().clone();
    assert_eq!(got, expected, "derived larger histogram must equal parent - smaller");
    assert!(Rc::ptr_eq(&parent_slot, arena.larger_handle()));
    assert_eq!(
        arena.device_allocations(),
        allocs_before_launch,
        "rotate + subtract round-trip must not grow the arena allocation count"
    );
}

#[test]
fn swap_bookkeeping_no_alloc_no_alias() {
    let mut arena = arena(3, 16).unwrap();
    let before = arena.device_allocations();
    arena.set_leaf_slot(0, 0).unwrap();

    arena.swap(0, 1, 2, true).unwrap();
    let larger_slot = arena.leaf_slot(2).unwrap();
    let smaller_slot = arena.leaf_slot(1).unwrap();
    assert_eq!(larger_slot, 0, "larger child must inherit the parent slot");
    assert_ne!(smaller_slot, larger_slot, "smaller must not alias the larger slot");
    assert_eq!(arena.device_allocations(), before, "swap must not allocate");

    arena.set_leaf_slot(3, 1).unwrap();
    arena.swap(3, 4, 5, false).unwrap();
    assert_eq!(arena.leaf_slot(4).unwrap(), 1, "larger (left) inherits parent slot");
    assert_ne!(arena.leaf_slot(5).unwrap(), 1, "smaller (right) must be fresh");
    assert_eq!(arena.device_allocations(), before, "swap must not allocate");
}

#[test]
fn swap_rejects_single_slot_pool() {
    let mut arena = arena(1, 16).unwrap();
    arena.set_leaf_slot(0, 0).unwrap();
    assert!(matches!(arena.swap(0, 1, 2, true), Err(ComputeError::Runtime { .. })));
}

#[test]
fn swap_subtract_lands_in_larger_slot() {
    let slot_len = 8usize;
    let mut arena = arena(3, slot_len).unwrap();
    arena.set_leaf_slot(0, 0).unwrap();
    let parent_slot = Rc::clone(arena.leaf_handle(0));

    arena.swap(0, 1, 2, true).unwrap();
    assert_eq!(arena.leaf_slot(2).unwrap(), 0);

    let parent_data = vec![10.0f64, 5.0, 8.0, 4.0, 9.0, 3.0, 7.0, 2.0];
    let smaller_data = vec![3.0f64, 2.0, 1.0, 1.0, 4.0, 1.0, 2.0, 1.0];
    let expected: Vec<f64> = parent_data.iter().zip(&smaller_data).map(|(p, c)| p - c).collect();
    let allocs_before = arena.device_allocations();

    subtract(&parent_data, &smaller_data, arena.leaf_handle(2));

    let got = arena.leaf_handle(2).borrow().clone();
    assert_eq!(got, expected, "derived larger histogram must equal parent - smaller");
    assert!(Rc::ptr_eq(&parent_slot, arena.leaf_handle(2)));
    assert_eq!(
        arena.device_allocations(),
        allocs_before,
        "swap + subtract round-trip must not grow the arena allocation count"
    );
}

#[test]
fn swap_and_slot_errors_leave_the_pool_alone() {
    let mut arena = arena(2, 4).unwrap();
    assert!(arena.set_leaf_slot(7, 2).is_err());
    assert_eq!(arena.leaf_slot(7), None);
    assert!(arena.swap(9, 1, 2, true).is_err());
    assert_eq!(arena.leaf_slot(1), None);
    assert_eq!(arena.leaf_slot(2), None);
}
