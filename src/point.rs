//! Moving a value into one of std's owning pointers with a method call.

use std::cell::RefCell;
use std::rc::Rc;
use std::sync::{Arc, Mutex};
use vstd::prelude::*;

verus! {

#[verifier::external_type_specification]
#[verifier::external_body]
#[verifier::reject_recursive_types(T)]
pub struct ExRefCell<T: ?Sized>(std::cell::RefCell<T>);

#[verifier::external_type_specification]
#[verifier::external_body]
#[verifier::reject_recursive_types(T)]
pub struct ExMutex<T: ?Sized>(std::sync::Mutex<T>);

/// Relies on `RefCell::new`: a cell holding the value, not borrowed.
pub assume_specification<T>[ std::cell::RefCell::<T>::new ](value: T) -> std::cell::RefCell<T>;

/// Relies on `Mutex::new`: an unlocked mutex holding the value.
pub assume_specification<T>[ std::sync::Mutex::<T>::new ](t: T) -> std::sync::Mutex<T>;

/// A value shared between threads behind a lock.
pub type Mrc<T> = Arc<Mutex<T>>;

/// A value shared within one thread, mutably borrowed at run time.
pub type Urc<T> = Rc<RefCell<T>>;

#[allow(non_snake_case)]
pub trait IntoBox: Sized {
    fn iBox(self) -> (r: Box<Self>)
        ensures
            *r == self,
    ;
}

impl<T> IntoBox for T {
    fn iBox(self) -> (r: Box<T>) {
        Box::new(self)
    }
}

#[allow(non_snake_case)]
pub trait IntoRc: Sized {
    fn iRc(self) -> (r: Rc<Self>)
        ensures
            *r == self,
    ;
}

impl<T> IntoRc for T {
    fn iRc(self) -> (r: Rc<T>) {
        Rc::new(self)
    }
}

#[allow(non_snake_case)]
pub trait IntoArc: Sized {
    fn iArc(self) -> (r: Arc<Self>)
        ensures
            *r == self,
    ;
}

impl<T> IntoArc for T {
    fn iArc(self) -> (r: Arc<T>) {
        Arc::new(self)
    }
}

#[allow(non_snake_case)]
pub trait IntoMrc: Sized {
    fn iMrc(self) -> Mrc<Self>;
}

impl<T> IntoMrc for T {
    fn iMrc(self) -> Mrc<T> {
        Arc::new(Mutex::new(self))
    }
}

#[allow(non_snake_case)]
pub trait IntoUrc: Sized {
    fn iUrc(self) -> Urc<Self>;
}

impl<T> IntoUrc for T {
    fn iUrc(self) -> Urc<T> {
        Rc::new(RefCell::new(self))
    }
}

} // verus!
