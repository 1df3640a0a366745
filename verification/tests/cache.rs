use discorddrive::cache::{Cache, CacheBlock};
use discorddrive::utils::BitMask;

const MB: usize = 1024 * 1024;

#[test]
fn test_cache() {
    let mut cache = Cache::<2>::new();

    cache.push(CacheBlock::new(0, 0, vec![0; 8 * MB], BitMask::new()));

    cache.push(CacheBlock::new(8 * MB as u64, 0, vec![1; 8 * MB], BitMask::new()));

    assert_eq!(cache.read(0).unwrap(), vec![0; 4096].as_slice());

    cache.write(0, &[1; 4096]);

    assert_eq!(cache.read(0).unwrap(), vec![1; 4096].as_slice());

    cache.write(4096, &[0; 4096]);

    assert_eq!(cache.read(4096).unwrap(), vec![0; 4096].as_slice());

    cache.push(CacheBlock::new(16 * MB as u64, 0, vec![2; 8 * MB], BitMask::new()));

    assert_eq!(cache.read(16 * MB as u64 + 4096).unwrap(), vec![2; 4096].as_slice());
}

#[test]
fn cache_evicts_in_insertion_order() {
    let mut cache = Cache::<2>::new();
    assert!(cache.push(CacheBlock::new(0, 10, vec![0; 8 * MB], BitMask::new())).is_none());
    assert!(cache.push(CacheBlock::new(8 * MB as u64, 11, vec![1; 8 * MB], BitMask::new())).is_none());
    // a read of the oldest page does not keep it from leaving first
    assert!(cache.read(0).is_some());
    let evicted = cache.push(CacheBlock::new(16 * MB as u64, 12, vec![2; 8 * MB], BitMask::new())).unwrap();
    assert_eq!(evicted.offset, 0);
    assert_eq!(evicted.message_id, 10);
    assert_eq!(evicted.data, vec![0; 8 * MB]);

    assert!(cache.read(0).is_none());
    assert_eq!(cache.read(8 * MB as u64).unwrap(), vec![1; 4096]);
    assert_eq!(cache.read(16 * MB as u64).unwrap(), vec![2; 4096]);
    assert_eq!(cache.data.len(), 2);
    assert_eq!(cache.data[0].offset, 8 * MB as u64);
    assert_eq!(cache.data[1].offset, 16 * MB as u64);

    let evicted = cache.push(CacheBlock::new(24 * MB as u64, 13, vec![3; 8 * MB], BitMask::new())).unwrap();
    assert_eq!(evicted.offset, 8 * MB as u64);
    assert_eq!(evicted.message_id, 11);
}

#[test]
fn cache_miss_is_not_zero() {
    let mut cache = Cache::<4>::new();
    assert!(cache.read(0).is_none());
    assert!(!cache.write(0, &[1; 4096]));
    cache.push(CacheBlock::new(8 * MB as u64, 0, vec![0; 8 * MB], BitMask::new()));
    assert!(cache.read(0).is_none());
    assert!(cache.read(8 * MB as u64 - 4096).is_none());
    assert!(cache.read(16 * MB as u64).is_none());
    assert!(!cache.write(16 * MB as u64, &[1; 4096]));
    assert_eq!(cache.read(8 * MB as u64).unwrap(), vec![0; 4096]);
}

#[test]
fn cache_reaches_the_last_chunk_of_a_page() {
    let mut cache = Cache::<1>::new();
    let mut data = vec![0u8; 8 * MB];
    for byte in data[8 * MB - 4096..].iter_mut() {
        *byte = 7;
    }
    cache.push(CacheBlock::new(8 * MB as u64, 0, data, BitMask::new()));
    assert_eq!(cache.read(16 * MB as u64 - 4096).unwrap(), vec![7; 4096]);
    assert!(cache.write(16 * MB as u64 - 4096, &[8; 4096]));
    assert_eq!(cache.read(16 * MB as u64 - 4096).unwrap(), vec![8; 4096]);
    // a chunk that does not lie in the page as a whole is not found
    assert!(cache.read(16 * MB as u64 - 4095).is_none());
}

#[test]
fn cache_sparse_write_and_read() {
    let mut cache = Cache::<2>::new();
    cache.push(CacheBlock::new(0, 0, vec![5; 8 * MB], BitMask::new()));

    assert!(cache.write(3 * 4096, &[0; 4096]));
    assert_eq!(cache.read(3 * 4096).unwrap(), vec![0; 4096]);
    assert!(cache.data[0].mask.get(3));
    assert!(!cache.data[0].mask.get(2));
    assert!(!cache.data[0].mask.get(4));
    // the bytes are in the buffer too
    assert_eq!(&cache.data[0].data[3 * 4096..4 * 4096], vec![0u8; 4096].as_slice());
    assert_eq!(cache.read(2 * 4096).unwrap(), vec![5; 4096]);

    let mut chunk = vec![0u8; 4096];
    chunk[17] = 9;
    assert!(cache.write(3 * 4096, &chunk));
    assert!(!cache.data[0].mask.get(3));
    assert_eq!(cache.read(3 * 4096).unwrap(), chunk);
    assert_eq!(cache.read(4 * 4096).unwrap(), vec![5; 4096]);
}

#[test]
fn cache_reads_a_marked_chunk_as_zeros() {
    let mut mask = BitMask::<256>::new();
    mask.set(2047, true);
    let mut cache = Cache::<2>::new();
    cache.push(CacheBlock::new(0, 0, vec![5; 8 * MB], mask));
    assert_eq!(cache.read(2047 * 4096).unwrap(), vec![0; 4096]);
    assert_eq!(cache.read(2046 * 4096).unwrap(), vec![5; 4096]);
}

#[test]
fn cache_of_no_capacity_keeps_nothing() {
    let mut cache = Cache::<0>::new();
    let evicted = cache.push(CacheBlock::new(0, 3, vec![5; 8 * MB], BitMask::new())).unwrap();
    assert_eq!(evicted.message_id, 3);
    assert!(cache.read(0).is_none());
}

#[test]
fn cache_check_tells_a_cache_out_of_its_bounds() {
    let mut cache = Cache::<1>::new();
    assert!(cache.check());
    cache.push(CacheBlock::new(0, 0, vec![0; 8 * MB], BitMask::new()));
    assert!(cache.check());
    // more pages than the cache has room for
    cache.data.push(CacheBlock::new(8 * MB as u64, 0, vec![0; 8 * MB], BitMask::new()));
    assert!(!cache.check());
    cache.data.pop();
    assert!(cache.check());
    // a buffer that is no whole page
    cache.data[0].data.pop();
    assert!(!cache.check());
}
