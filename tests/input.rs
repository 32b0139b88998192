use mcnet::error::McError;
use mcnet::input::{InputBuffer, OutputBuffer};

#[test]
fn test_input_buffer_create() {
    let inpt: [u8; 9] = [1, 2, 3, 4, 5, 6, 7, 8, 9];
    let buff = InputBuffer::create(&inpt);
    assert_eq!(buff.get_length(), 9);
}

#[test]
fn test_input_buffer_read_all() {
    let inpt: [u8; 9] = [1, 2, 3, 4, 5, 6, 7, 8, 9];
    let mut buff = InputBuffer::create(&inpt);
    for x in 1..10 {
        assert!(buff.has_next());
        assert_eq!(buff.read_byte(), Ok(x));
    }
    assert!(!buff.has_next());
}

#[test]
fn input_buffer_underrun_is_an_error() {
    let inpt: [u8; 1] = [7];
    let mut buff = InputBuffer::create(&inpt);
    assert_eq!(buff.read_byte(), Ok(7));
    assert_eq!(buff.read_byte(), Err(McError::BufferUnderrun));
    assert_eq!(buff.get_position(), 1);
    let empty: [u8; 0] = [];
    let mut buff = InputBuffer::create(&empty);
    assert!(!buff.has_next());
    assert_eq!(buff.read_byte(), Err(McError::BufferUnderrun));
}

#[test]
fn input_buffer_reads_byte_runs() {
    let inpt: [u8; 4] = [1, 2, 3, 4];
    let mut buff = InputBuffer::create(&inpt);
    assert_eq!(buff.read_bytes(3), Ok(vec![1, 2, 3]));
    assert_eq!(buff.read_bytes(2), Err(McError::BufferUnderrun));
    assert_eq!(buff.read_bytes(1), Ok(vec![4]));
}

#[test]
fn output_buffer_overrun_is_an_error() {
    let mut out = OutputBuffer::from_slice(&[9u8, 9]);
    assert_eq!(out.get_length(), 2);
    assert_eq!(out.put_byte(1), Ok(()));
    assert_eq!(out.put_byte(2), Ok(()));
    assert_eq!(out.put_byte(3), Err(McError::BufferOverrun));
    assert_eq!(out.into_vec(), vec![1, 2]);
}

#[test]
fn output_buffer_leaves_unwritten_bytes() {
    let mut out = OutputBuffer::from_vector(vec![9u8, 9, 9]);
    out.put_byte(1).unwrap();
    assert_eq!(out.get_position(), 1);
    assert_eq!(out.into_vec(), vec![1, 9, 9]);
}
