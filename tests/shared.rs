use std::rc::Rc;
use std::sync::Arc;

use memtools::arc_gc::ReferenceCountedGC as ArcReferenceCountedGC;
use memtools::rc_gc::{MyData, ReferenceCountedGC};

#[test]
fn main_test_allocate_successfully() {
    let gc = ReferenceCountedGC::new(100);
    let data_ref = gc.get_data();

    assert_eq!(data_ref.borrow().get_value(), 100, "Value should be 100");
    assert_eq!(Rc::strong_count(&gc.data), 2, "Reference count should be 2 after cloning");
}

#[test]
fn test_gc_behavior_with_no_references() {
    let gc = ReferenceCountedGC::new(700);

    assert_eq!(Rc::strong_count(&gc.data), 1, "Reference count should be 1 when no references are created");
}

#[test]
fn rc_handles_share_one_value() {
    let gc = ReferenceCountedGC::new(5);
    let a = gc.get_data();
    a.borrow_mut().value = 6;
    assert_eq!(gc.data.borrow().get_value(), 6);
    assert!(Rc::ptr_eq(&a, &gc.data));
    assert_eq!(MyData::new(8).get_value(), 8);
}

#[test]
fn arc_allocate_successfully() {
    let gc = ArcReferenceCountedGC::new(100);
    let data_ref = gc.get_data();

    assert_eq!(data_ref.lock().unwrap().get_value(), 100, "Value should be 100");
    assert_eq!(Arc::strong_count(&gc.data), 2);
    drop(data_ref);
    assert_eq!(Arc::strong_count(&gc.data), 1);
}

#[test]
fn test_reference_counting() {
    let gc = ReferenceCountedGC::new(200);
    let data_ref1 = gc.get_data();
    let data_ref2 = gc.get_data();

    assert_eq!(Rc::strong_count(&gc.data), 3, "Reference count should be 3 after cloning twice");

    drop(data_ref1);
    assert_eq!(Rc::strong_count(&gc.data), 2, "Reference count should decrease after dropping one reference");

    drop(data_ref2);
    assert_eq!(Rc::strong_count(&gc.data), 1, "Reference count should decrease after dropping the second reference");
}

#[test]
fn test_cleanup_when_no_references_left() {
    let gc = ReferenceCountedGC::new(500);

    {
        let data_ref1 = gc.get_data();
        assert_eq!(Rc::strong_count(&gc.data), 2, "Reference count should be 2");

        drop(data_ref1);
    }

    assert_eq!(Rc::strong_count(&gc.data), 1, "Reference count should be 1 after dropping the reference inside block");
}

#[test]
fn test_gc_behavior_with_multiple_refs() {
    let gc = ReferenceCountedGC::new(1000);

    let data_ref1 = gc.get_data();
    let data_ref2 = gc.get_data();
    let data_ref3 = gc.get_data();

    assert_eq!(Rc::strong_count(&gc.data), 4, "Reference count should be 4 after creating 3 references");

    drop(data_ref1);
    drop(data_ref2);

    assert_eq!(Rc::strong_count(&gc.data), 2, "Reference count should be 2 after dropping two references");

    drop(data_ref3);

    assert_eq!(Rc::strong_count(&gc.data), 1, "Reference count should be 1 when all external references are dropped");
}

#[test]
fn test_multiple_references_dropped_in_order() {
    let gc = ReferenceCountedGC::new(300);

    let data_ref1 = gc.get_data();
    let data_ref2 = gc.get_data();

    assert_eq!(Rc::strong_count(&gc.data), 3, "Reference count should be 3 after creating two references");

    drop(data_ref2);
    assert_eq!(Rc::strong_count(&gc.data), 2, "Reference count should be 2 after dropping second reference");

    drop(data_ref1);
    assert_eq!(Rc::strong_count(&gc.data), 1, "Reference count should be 1 after dropping first reference");
}

#[test]
fn main_test_reference_counting() {
    let gc = ArcReferenceCountedGC::new(200);
    let data_ref1 = gc.get_data();
    let data_ref2 = gc.get_data();

    assert_eq!(Arc::strong_count(&gc.data), 3, "Reference count should be 3 after cloning twice");

    drop(data_ref1);
    assert_eq!(Arc::strong_count(&gc.data), 2, "Reference count should decrease after dropping one reference");

    drop(data_ref2);
    assert_eq!(Arc::strong_count(&gc.data), 1, "Reference count should decrease after dropping the second reference");
}

#[test]
fn main_test_cleanup_when_no_references_left() {
    let gc = ArcReferenceCountedGC::new(500);

    {
        let data_ref1 = gc.get_data();
        assert_eq!(Arc::strong_count(&gc.data), 2, "Reference count should be 2");

        drop(data_ref1);
    }

    assert_eq!(Arc::strong_count(&gc.data), 1, "Reference count should be 1 after dropping the reference inside block");
}

#[test]
fn main_test_gc_behavior_with_multiple_refs() {
    let gc = ArcReferenceCountedGC::new(1000);

    let data_ref1 = gc.get_data();
    let data_ref2 = gc.get_data();
    let data_ref3 = gc.get_data();

    assert_eq!(Arc::strong_count(&gc.data), 4, "Reference count should be 4 after creating 3 references");

    drop(data_ref1);
    drop(data_ref2);

    assert_eq!(Arc::strong_count(&gc.data), 2, "Reference count should be 2 after dropping two references");

    drop(data_ref3);

    assert_eq!(Arc::strong_count(&gc.data), 1, "Reference count should be 1 when all external references are dropped");
}
