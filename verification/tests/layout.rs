use discorddrive::layout::{copy_range, is_all_zero, splice, zero_buffer, CHUNKS_PER_PAGE, CHUNK_SIZE, PAGE_SIZE};

#[test]
fn sizes() {
    assert_eq!(PAGE_SIZE, 8 * 1024 * 1024);
    assert_eq!(CHUNK_SIZE, 4096);
    assert_eq!(CHUNKS_PER_PAGE * CHUNK_SIZE, PAGE_SIZE);
}

#[test]
fn all_zero_is_told() {
    assert!(is_all_zero(&[]));
    assert!(is_all_zero(&[0; 4096]));
    let mut data = [0u8; 4096];
    data[4095] = 1;
    assert!(!is_all_zero(&data));
    data[4095] = 0;
    data[0] = 255;
    assert!(!is_all_zero(&data));
}

#[test]
fn zero_buffer_has_the_length_asked_for() {
    assert_eq!(zero_buffer(0), Vec::<u8>::new());
    assert_eq!(zero_buffer(5), vec![0, 0, 0, 0, 0]);
    assert_eq!(zero_buffer(4096).len(), 4096);
}

#[test]
fn splice_writes_over_the_range_only() {
    let mut buffer = vec![9u8; 8];
    splice(&mut buffer, 2, &[1, 2, 3]);
    assert_eq!(buffer, vec![9, 9, 1, 2, 3, 9, 9, 9]);
    splice(&mut buffer, 5, &[4, 5, 6]);
    assert_eq!(buffer, vec![9, 9, 1, 2, 3, 4, 5, 6]);
    splice(&mut buffer, 8, &[]);
    assert_eq!(buffer, vec![9, 9, 1, 2, 3, 4, 5, 6]);
}

#[test]
fn copy_range_copies_the_range() {
    let buffer: Vec<u8> = (0..10).collect();
    assert_eq!(copy_range(&buffer, 3, 4), vec![3, 4, 5, 6]);
    assert_eq!(copy_range(&buffer, 0, 10), buffer);
    assert_eq!(copy_range(&buffer, 10, 0), Vec::<u8>::new());
}
