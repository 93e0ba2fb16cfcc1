use libu::{IntoArc, IntoBox, IntoMrc, IntoRc, IntoUrc};

#[test]
fn tset() {
    let __ = 0.iBox();
    let __ = 0.iUrc();
    let __ = 0.iMrc();
    let __ = 0.iRc();
    let __ = 0.iArc();
}

#[test]
fn pointers_hold_the_value() {
    assert_eq!(*7.iBox(), 7);
    assert_eq!(*7.iRc(), 7);
    assert_eq!(*7.iArc(), 7);
    assert_eq!(*7.iUrc().borrow(), 7);
    assert_eq!(*7.iMrc().lock().unwrap(), 7);
}
