use corustine::channel::{Channel, Cheue};

#[test]
fn channel_is_fifo() {
    let mut ch = Cheue::new();
    for v in [4, 8, 15, 16, 23, 42] {
        ch.send(v);
    }
    assert_eq!(ch.len(), 6);
    for v in [4, 8, 15, 16, 23, 42] {
        assert_eq!(ch.recv(), Some(v));
    }
    assert_eq!(ch.recv(), None);
    assert_eq!(ch.len(), 0);
}

#[test]
fn empty_channel_receives_nothing() {
    let mut ch: Cheue<u8> = Cheue::new();
    assert_eq!(ch.recv(), None);
    ch.send(1);
    assert_eq!(ch.recv(), Some(1));
    assert_eq!(ch.recv(), None);
}

#[test]
fn channel_interleaves_in_order() {
    let mut ch = Cheue::new();
    ch.send("a");
    ch.send("b");
    assert_eq!(ch.recv(), Some("a"));
    ch.send("c");
    assert_eq!(ch.recv(), Some("b"));
    assert_eq!(ch.recv(), Some("c"));
    assert_eq!(ch.recv(), None);
}
