use std::sync::mpsc::channel;

use synthgen::delegate::{create_parallel, create_serial};

#[test]
fn serial_production_sends_one_buffer() {
    let (sender, receiver) = channel::<Vec<u8>>();
    create_serial(sender, || b"one".to_vec());
    assert_eq!(receiver.recv().unwrap(), b"one".to_vec());
    assert!(receiver.recv().is_err());
}

#[test]
fn parallel_production_sends_every_buffer() {
    let (sender, receiver) = channel::<Vec<u8>>();
    create_parallel(sender, Some(5), || b"x".to_vec());
    let received: Vec<Vec<u8>> = receiver.iter().collect();
    assert_eq!(received.len(), 5);
    for buffer in received {
        assert_eq!(buffer, b"x".to_vec());
    }
}

#[test]
fn parallel_production_defaults_to_one_buffer() {
    let (sender, receiver) = channel::<Vec<u8>>();
    create_parallel(sender, None, || b"y".to_vec());
    let received: Vec<Vec<u8>> = receiver.iter().collect();
    assert_eq!(received.len(), 1);
}
