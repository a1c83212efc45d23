use idvd::cache::{Cash, CacheEntry, DriverCash};
use idvd::error::IDVDError;

const BS: u64 = 1024;

fn file_of_zeros(len: usize) -> Vec<u8> {
    let mut f = Vec::new();
    f.resize(len, 0u8);
    f
}

fn load_block(c: &mut Cash, file: &Vec<u8>, b: u64) {
    let mut e = CacheEntry::with_size_aligned(BS as usize, BS as usize);
    for j in 0..BS as usize {
        e.set_byte(j, file[(b * BS) as usize + j]);
    }
    c.driver.insert_block(b, e);
}

fn apply_batch(file: &mut Vec<u8>, batch: &Vec<(u64, CacheEntry)>) {
    for (b, e) in batch {
        let start = (*b * BS) as usize;
        for j in 0..BS as usize {
            file[start + j] = e.as_slice()[j];
        }
    }
}

#[test]
fn fresh_drive_block_zero_reads_as_zeros() {
    // a 16 KiB container of uninitialised (zero) bytes, sector size 1024
    let file = file_of_zeros(16 * 1024);
    let mut cash = Cash::new(16, BS);
    load_block(&mut cash, &file, 0);
    let mut buffer = vec![0xAAu8; BS as usize];
    cash.read(&mut buffer, 0).unwrap();
    assert_eq!(buffer.len(), 1024);
    assert!(buffer.iter().all(|&b| b == 0));
}

#[test]
fn hello_written_at_10000_reads_back() {
    let mut file = file_of_zeros(16 * 1024);
    let mut cash = Cash::new(16, BS);
    load_block(&mut cash, &file, 10000 / BS);
    cash.write(b"hello", 10000).unwrap();
    let batch = cash.driver.sorted_pending();
    apply_batch(&mut file, &batch);
    cash.driver.clear_pending();

    let mut cash2 = Cash::new(16, BS);
    load_block(&mut cash2, &file, 10000 / BS);
    let mut back = vec![0u8; 5];
    cash2.read(&mut back, 10000).unwrap();
    assert_eq!(&back, b"hello");
}

#[test]
fn large_buffer_written_at_5_reads_back() {
    let mut file = file_of_zeros(16 * 1024);
    let data: Vec<u8> = (0..2500u32).map(|i| (i % 251) as u8).collect();
    let mut cash = Cash::new(16, BS);
    load_block(&mut cash, &file, 0);
    load_block(&mut cash, &file, (5 + 2500 - 1) / BS);
    cash.write(&data, 5).unwrap();
    let batch = cash.driver.sorted_pending();
    assert_eq!(batch.len(), 3);
    assert!(batch.windows(2).all(|w| w[0].0 <= w[1].0));
    apply_batch(&mut file, &batch);

    let mut cash2 = Cash::new(16, BS);
    for b in 0..3 {
        load_block(&mut cash2, &file, b);
    }
    let mut back = vec![0u8; 2500];
    cash2.read(&mut back, 5).unwrap();
    assert_eq!(back, data);
}

#[test]
fn writes_across_block_boundaries() {
    // entirely within one block
    let mut file = file_of_zeros(8 * 1024);
    let mut cash = Cash::new(8, BS);
    load_block(&mut cash, &file, 0);
    cash.write(&[7u8; 10], 100).unwrap();
    // crossing exactly one block boundary
    load_block(&mut cash, &file, 1);
    cash.write(&[8u8; 10], 1020).unwrap();
    // crossing exactly two block boundaries
    load_block(&mut cash, &file, 2);
    cash.write(&[9u8; 1100], 1020).unwrap();
    let batch = cash.driver.sorted_pending();
    apply_batch(&mut file, &batch);
    assert!(file[100..110].iter().all(|&b| b == 7));
    assert!(file[1020..2120].iter().all(|&b| b == 9));
    assert_eq!(file[1019], 0);
    assert_eq!(file[2120], 0);
}

#[test]
fn write_block_rejects_wrong_size() {
    let mut d = DriverCash::new(4, BS);
    let small = CacheEntry::with_size_aligned(10, 2);
    match d.write_block(3, small) {
        Err(IDVDError::Other(_)) => {}
        _ => panic!("a wrongly sized slab must be rejected"),
    }
    let right = CacheEntry::with_size_aligned(BS as usize, BS as usize);
    assert!(d.write_block(3, right).is_ok());
    assert_eq!(d.sorted_pending().len(), 1);
}

#[test]
fn resident_map_respects_capacity() {
    let mut d = DriverCash::new(2, BS);
    for b in 0..3u64 {
        let e = CacheEntry::with_size_aligned(BS as usize, BS as usize);
        d.insert_block(b, e);
    }
    let resident = (0..3u64).filter(|&b| d.contain(b)).count();
    assert!(resident <= 2);
    assert!(d.contain(2));
    d.drop_block(2);
    assert!(!d.contain(2));
}

#[test]
fn cache_entry_has_requested_length() {
    let s = CacheEntry::with_size_aligned(4096, 4096);
    assert_eq!(s.as_slice().len(), 4096);
    assert_eq!(s.len(), 4096);
    let c = s.clone();
    assert_eq!(c.as_slice(), s.as_slice());
}

#[test]
fn cache_entry_mutable_view_writes_through() {
    let mut s = CacheEntry::with_size_aligned(16, 16);
    s.as_mut_slice()[3] = 0x5A;
    assert_eq!(s.byte(3), 0x5A);
    assert_eq!(s.byte(2), 0);
}

#[test]
fn twice_staged_block_keeps_last_content() {
    let mut d = DriverCash::new(4, BS);
    let mut first = CacheEntry::with_size_aligned(BS as usize, BS as usize);
    first.set_byte(0, 1);
    let mut second = CacheEntry::with_size_aligned(BS as usize, BS as usize);
    second.set_byte(0, 2);
    let mut other = CacheEntry::with_size_aligned(BS as usize, BS as usize);
    other.set_byte(0, 9);
    d.write_block(7, first).unwrap();
    d.write_block(3, other).unwrap();
    d.write_block(7, second).unwrap();
    let batch = d.sorted_pending();
    assert_eq!(batch.len(), 3);
    assert_eq!(batch[0].0, 3);
    assert_eq!(batch[1].0, 7);
    assert_eq!(batch[2].0, 7);
    // the flush is stable: block 7's later content lands last
    assert_eq!(batch[1].1.byte(0), 1);
    assert_eq!(batch[2].1.byte(0), 2);
}
