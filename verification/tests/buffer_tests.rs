use event_loop::buffer::{exceeds_capacity, from_slice, Buffer, CAPACITY};
use event_loop::record::Event;

#[test]
fn capacity_is_2048() {
    assert_eq!(CAPACITY, 2048);
}

#[test]
fn new_buffer_is_all_padding() {
    let buffer = Buffer::new();
    assert_eq!(buffer.len(), 0);
    assert!(buffer.data().is_empty());
    assert_eq!(buffer.as_array().len(), 2048);
    assert!(buffer.as_array().iter().all(|b| *b == 0));
}

#[test]
fn a_short_response_is_followed_by_zero_padding() {
    let response = b"HTTP/1.1 200 OK\r\nContent-Length:0\r\n\r\n";
    assert_eq!(response.len(), 37);
    let buffer = from_slice(response);
    assert_eq!(buffer.len(), 37);
    assert_eq!(buffer.data(), response);
    let storage = buffer.as_array();
    assert_eq!(storage.len(), 2048);
    assert_eq!(&storage[..37], response);
    assert_eq!(storage[37..].len(), 2011);
    assert!(storage[37..].iter().all(|b| *b == 0));
    assert!(!exceeds_capacity(response));
}

#[test]
fn an_oversized_response_is_cut_to_the_capacity() {
    let mut response = Vec::new();
    for i in 0..5000usize {
        response.push((i % 251) as u8 + 1);
    }
    assert!(exceeds_capacity(&response));
    let buffer = from_slice(&response);
    assert_eq!(buffer.len(), 2048);
    assert_eq!(buffer.data(), &response[..2048]);
    assert_eq!(&buffer.as_array()[..], &response[..2048]);
    let record = Event::new_write(5, buffer);
    assert!(record.unsent().len() <= 2048);
    assert_eq!(record.unsent(), &response[..2048]);
}

#[test]
fn a_response_of_exactly_the_capacity_fits() {
    let response = vec![7u8; 2048];
    assert!(!exceeds_capacity(&response));
    let buffer = from_slice(&response);
    assert_eq!(buffer.len(), 2048);
    assert_eq!(buffer.data(), &response[..]);
    let longer = vec![7u8; 2049];
    assert!(exceeds_capacity(&longer));
    assert_eq!(from_slice(&longer).len(), 2048);
}

#[test]
fn an_empty_slice_packs_to_an_empty_buffer() {
    let buffer = from_slice(&[]);
    assert_eq!(buffer.len(), 0);
    assert!(buffer.as_array().iter().all(|b| *b == 0));
}

#[test]
fn zero_bytes_in_the_data_are_data() {
    let buffer = from_slice(&[1, 0, 0]);
    assert_eq!(buffer.len(), 3);
    assert_eq!(buffer.data(), &[1, 0, 0]);
}

#[test]
fn data_from_skips_what_lies_before() {
    let buffer = from_slice(b"abcdef");
    assert_eq!(buffer.data_from(0), b"abcdef");
    assert_eq!(buffer.data_from(2), b"cdef");
    assert_eq!(buffer.data_from(6), b"");
    assert_eq!(buffer.data_from(7), b"");
    assert_eq!(buffer.data_from(usize::MAX), b"");
}

#[test]
fn a_record_counts_what_was_written() {
    let record = Event::new_write(5, from_slice(b"abcdef"));
    assert_eq!(record.written(), 0);
    assert_eq!(record.unsent(), b"abcdef");
    let record = record.advanced(4);
    assert_eq!(record.written(), 4);
    assert_eq!(record.unsent(), b"ef");
    assert_eq!(record.stream(), 5);
    let record = record.advanced(usize::MAX);
    assert_eq!(record.written(), 6);
    assert_eq!(record.unsent(), b"");
}

#[test]
fn with_data_replaces_the_buffer_and_keeps_the_registration() {
    let record = Event::new_read(5, Buffer::new());
    let record = record.with_data(from_slice(b"GET /"));
    assert_eq!(record.stream(), 5);
    assert_eq!(record.data().data(), b"GET /");
    assert_eq!(record.written(), 0);
}
