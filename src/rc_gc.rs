use std::cell::RefCell;
use std::rc::Rc;
use vstd::prelude::*;

verus! {

/// std's `RefCell`, carried as an opaque value: nothing is assumed of what it
/// holds.
#[verifier::external_type_specification]
#[verifier::external_body]
#[verifier::reject_recursive_types(T)]
pub struct ExRefCell<T: ?Sized>(RefCell<T>);

/// A value to share.
pub struct MyData {
    pub value: i32,
}

impl MyData {
    pub fn new(value: i32) -> (d: Self)
        ensures
            d.value == value,
    {
        MyData { value }
    }

    pub fn get_value(&self) -> (r: i32)
        ensures
            r == self.value,
    {
        self.value
    }
}

/// Relies on `RefCell::new`: a cell that holds `d`.
#[verifier::external_body]
fn cell_of(d: MyData) -> (r: RefCell<MyData>) {
    RefCell::new(d)
}

/// Relies on `Rc::clone`: another handle on the same allocation.
#[verifier::external_body]
fn share(rc: &Rc<RefCell<MyData>>) -> (r: Rc<RefCell<MyData>>)
    ensures
        r == *rc,
{
    Rc::clone(rc)
}

/// Single-threaded shared ownership: the data lives until the last handle to
/// it is dropped.
pub struct ReferenceCountedGC {
    pub data: Rc<RefCell<MyData>>,
}

impl ReferenceCountedGC {
    pub fn new(value: i32) -> (gc: Self) {
        ReferenceCountedGC { data: Rc::new(cell_of(MyData::new(value))) }
    }

    /// Another handle on the shared data.
    pub fn get_data(&self) -> (r: Rc<RefCell<MyData>>)
        ensures
            r == self.data,
    {
        share(&self.data)
    }
}

} // verus!
