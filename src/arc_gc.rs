use std::sync::Arc;
use std::sync::Mutex;
use vstd::prelude::*;

verus! {

/// std's `Mutex`, carried as an opaque value: nothing is assumed of what it
/// guards.
#[verifier::external_type_specification]
#[verifier::external_body]
#[verifier::reject_recursive_types(T)]
pub struct ExMutex<T: ?Sized>(Mutex<T>);

/// A value to share between threads.
pub struct MyData {
    pub value: i32,
}

impl MyData {
    pub fn new(value: i32) -> (d: Self)
        ensures
            d.value == value,
    {
        MyData { value }
    }

    pub fn get_value(&self) -> (r: i32)
        ensures
            r == self.value,
    {
        self.value
    }
}

/// Relies on `Mutex::new`: an unlocked mutex that guards `d`.
#[verifier::external_body]
fn guarded(d: MyData) -> (r: Mutex<MyData>) {
    Mutex::new(d)
}

/// Relies on `Arc::clone`: another handle on the same allocation.
#[verifier::external_body]
fn share(arc: &Arc<Mutex<MyData>>) -> (r: Arc<Mutex<MyData>>)
    ensures
        r == *arc,
{
    Arc::clone(arc)
}

/// Shared ownership across threads: the data lives until the last handle to
/// it is dropped, and the mutex serialises access to it.
pub struct ReferenceCountedGC {
    pub data: Arc<Mutex<MyData>>,
}

impl ReferenceCountedGC {
    pub fn new(value: i32) -> (gc: Self) {
        ReferenceCountedGC { data: Arc::new(guarded(MyData::new(value))) }
    }

    /// Another handle on the shared data.
    pub fn get_data(&self) -> (r: Arc<Mutex<MyData>>)
        ensures
            r == self.data,
    {
        share(&self.data)
    }
}

} // verus!
