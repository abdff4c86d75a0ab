use ring_buffer_no_std::{RingBuffer, RingBufferError};

#[test]
fn write_that_fits_stores_all_in_order() {
    let mut rb: RingBuffer<u32, 4096> = RingBuffer::new();
    assert_eq!(rb.write(&[1, 2, 3, 4]), Ok(()));
    assert_eq!(rb.len(), 4);
    assert_eq!(rb.pop(), Some(1));
    assert_eq!(rb.pop(), Some(2));
    assert_eq!(rb.pop(), Some(3));
    assert_eq!(rb.pop(), Some(4));
    assert_eq!(rb.pop(), None);
}

#[test]
fn write_that_fits_exactly() {
    let mut rb: RingBuffer<u8, 4> = RingBuffer::new();
    rb.push(0).unwrap();
    assert_eq!(rb.write(&[1, 2, 3]), Ok(()));
    assert!(rb.is_full());
    assert_eq!(rb.read_slice(4).unwrap(), &[0, 1, 2, 3]);
}

#[test]
fn write_of_nothing() {
    let mut rb: RingBuffer<u8, 2> = RingBuffer::new();
    assert_eq!(rb.write(&[]), Ok(()));
    assert!(rb.is_empty());
    rb.write(&[1, 2]).unwrap();
    assert_eq!(rb.write(&[]), Ok(()));
    assert_eq!(rb.len(), 2);
}

#[test]
fn write_beyond_room_keeps_the_part_that_fitted() {
    let mut rb: RingBuffer<u8, 4> = RingBuffer::new();
    rb.push(9).unwrap();
    assert_eq!(rb.write(&[1, 2, 3, 4, 5]), Err(RingBufferError::Full));
    assert_eq!(rb.len(), 4);
    assert!(rb.is_full());
    assert_eq!(rb.pop(), Some(9));
    assert_eq!(rb.pop(), Some(1));
    assert_eq!(rb.pop(), Some(2));
    assert_eq!(rb.pop(), Some(3));
    assert_eq!(rb.pop(), None);
}

#[test]
fn write_into_full_buffer_stores_nothing() {
    let mut rb: RingBuffer<u8, 2> = RingBuffer::new();
    rb.write(&[1, 2]).unwrap();
    assert_eq!(rb.write(&[3]), Err(RingBufferError::Full));
    assert_eq!(rb.read_slice(2).unwrap(), &[1, 2]);
}

#[test]
fn write_across_the_end_of_the_array() {
    let mut rb: RingBuffer<u8, 4> = RingBuffer::new();
    rb.write(&[1, 2, 3]).unwrap();
    assert_eq!(rb.pop_continuous(3), Ok(4));
    assert_eq!(rb.write(&[4, 5, 6]), Ok(()));
    let mut out = [0u8; 3];
    assert_eq!(rb.read(&mut out), 3);
    assert_eq!(out, [4, 5, 6]);
}

#[test]
fn read_takes_what_is_there_and_leaves_the_rest_of_the_destination() {
    let mut rb: RingBuffer<u32, 16> = RingBuffer::new();
    rb.push(1).unwrap();
    rb.push(2).unwrap();
    let mut buffer = [70, 71, 72, 73, 74];
    let read_count = rb.read(&mut buffer);
    assert_eq!(read_count, 2);
    assert_eq!(buffer, [1, 2, 72, 73, 74]);
    assert!(rb.is_empty());
    assert_eq!(rb.read(&mut buffer), 0);
    assert_eq!(buffer, [1, 2, 72, 73, 74]);
}

#[test]
fn read_into_smaller_destination_leaves_the_rest_in_the_buffer() {
    let mut rb: RingBuffer<u32, 16> = RingBuffer::new();
    rb.write(&[10, 20, 30, 40, 50]).unwrap();
    let mut out = [0u32; 2];
    assert_eq!(rb.read(&mut out), 2);
    assert_eq!(out, [10, 20]);
    assert_eq!(rb.len(), 3);
    assert_eq!(rb.read_slice(3).unwrap(), &[30, 40, 50]);
}

#[test]
fn read_into_destination_of_the_same_length() {
    let mut rb: RingBuffer<u32, 3> = RingBuffer::new();
    rb.write(&[1, 2, 3]).unwrap();
    let mut out = [0u32; 3];
    assert_eq!(rb.read(&mut out), 3);
    assert_eq!(out, [1, 2, 3]);
    assert!(rb.is_empty());
}

#[test]
fn read_into_destination_without_places() {
    let mut rb: RingBuffer<u32, 3> = RingBuffer::new();
    rb.write(&[1, 2]).unwrap();
    let mut out: [u32; 0] = [];
    assert_eq!(rb.read(&mut out), 0);
    assert_eq!(rb.len(), 2);
    assert_eq!(rb.pop(), Some(1));
}

#[test]
fn read_across_the_end_of_the_array() {
    let mut rb: RingBuffer<u8, 4> = RingBuffer::new();
    rb.write(&[1, 2, 3]).unwrap();
    assert_eq!(rb.pop(), Some(1));
    assert_eq!(rb.pop(), Some(2));
    rb.write(&[4, 5, 6]).unwrap();
    let mut out = [0u8; 8];
    assert_eq!(rb.read(&mut out), 4);
    assert_eq!(out, [3, 4, 5, 6, 0, 0, 0, 0]);
}

#[test]
fn pop_continuous_discards_from_the_front() {
    let mut rb: RingBuffer<u8, 8> = RingBuffer::new();
    rb.write(&[1, 2, 3, 4, 5]).unwrap();
    assert_eq!(rb.pop_continuous(2), Ok(5));
    assert_eq!(rb.len(), 3);
    assert_eq!(rb.pop(), Some(3));
    assert_eq!(rb.pop_continuous(0), Ok(6));
    assert_eq!(rb.pop_continuous(2), Ok(8));
    assert!(rb.is_empty());
    assert_eq!(rb.pop_continuous(0), Ok(8));
}

#[test]
fn pop_continuous_beyond_len_is_refused_and_changes_nothing() {
    let mut rb: RingBuffer<u8, 4> = RingBuffer::new();
    rb.write(&[1, 2, 3]).unwrap();
    assert_eq!(rb.pop(), Some(1));
    assert_eq!(rb.pop_continuous(3), Err(RingBufferError::BeyondRange));
    assert_eq!(rb.pop_continuous(usize::MAX), Err(RingBufferError::BeyondRange));
    assert_eq!(rb.len(), 2);
    assert_eq!(rb.remaining_capacity(), 2);
    // Tail still at slot 1: two elements in one piece, and the head still at
    // slot 3, so that one more element fits before the end of the array.
    assert_eq!(rb.read_slice(2).unwrap(), &[2, 3]);
    rb.push(4).unwrap();
    assert_eq!(rb.read_slice(3).unwrap(), &[2, 3, 4]);
    rb.push(5).unwrap();
    assert_eq!(rb.read_slice(4).unwrap_err(), RingBufferError::BufferIncomplete);
    assert_eq!(rb.pop(), Some(2));
    assert_eq!(rb.pop(), Some(3));
}

#[test]
fn pop_continuous_across_the_end_of_the_array() {
    let mut rb: RingBuffer<u8, 4> = RingBuffer::new();
    rb.write(&[1, 2, 3, 4]).unwrap();
    assert_eq!(rb.pop_continuous(3), Ok(3));
    rb.write(&[5, 6, 7]).unwrap();
    // Live: 4 at slot 3, then 5, 6, 7 at slots 0 to 2.
    assert_eq!(rb.pop_continuous(2), Ok(2));
    assert_eq!(rb.read_slice(2).unwrap(), &[6, 7]);
    assert_eq!(rb.pop_continuous(2), Ok(4));
    assert!(rb.is_empty());
}

#[test]
fn pop_continuous_of_everything_in_a_full_buffer() {
    let mut rb: RingBuffer<u8, 4> = RingBuffer::new();
    rb.write(&[1, 2]).unwrap();
    rb.pop_continuous(2).unwrap();
    rb.write(&[3, 4, 5, 6]).unwrap();
    assert!(rb.is_full());
    assert_eq!(rb.pop_continuous(4), Ok(4));
    assert!(rb.is_empty());
    rb.write(&[7, 8]).unwrap();
    assert_eq!(rb.read_slice(2).unwrap(), &[7, 8]);
}

#[test]
fn look_then_discard() {
    let mut rb: RingBuffer<u8, 8> = RingBuffer::new();
    rb.write(&[1, 2, 3, 4, 5, 6]).unwrap();
    let seen = rb.read_slice(4).unwrap().len();
    assert_eq!(rb.pop_continuous(seen), Ok(6));
    assert_eq!(rb.read_slice(2).unwrap(), &[5, 6]);
}
