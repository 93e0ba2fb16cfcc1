use libu::channel;

#[test]
fn messages_cross_both_ways() {
    let (a, b) = channel::<u32, String>();
    a.send(7).unwrap();
    assert_eq!(b.recv().unwrap(), 7);
    b.send("hi".to_string()).unwrap();
    assert_eq!(a.try_recv().unwrap(), "hi");
    assert!(a.try_recv().is_err());
}

#[test]
fn send_to_dropped_end_gives_message_back() {
    let (a, b) = channel::<u32, u32>();
    drop(b);
    let e = a.send(9).unwrap_err();
    assert_eq!(e.0, 9);
    assert!(a.recv().is_err());
}
