use idvd::fs_index::{FSIndex, FSLink, FSPermission, FSPermissions};

#[test]
fn scenario_add_list_remove() {
    let mut p = FSPermission::new(Vec::new(), Vec::new());
    p.add(7, 0b1100_0000);
    p.add(3, 0b0010_0000);
    let list = p.get_list();
    assert_eq!(list, vec![(3u128, 0x20u8), (7u128, 0xC0u8)]);
    assert_eq!(p.remove(3), Some(0x20));
    assert!(!p.contains(3));
}

#[test]
fn add_then_get_returns_flag() {
    let mut p = FSPermission::new(Vec::new(), Vec::new());
    p.add(42, 0x81);
    assert_eq!(p.get_flag(42), Some(0x81));
    p.add(42, 0x0F);
    assert_eq!(p.get_flag(42), Some(0x0F));
    assert_eq!(p.get_flag(41), None);
}

#[test]
fn ruids_stay_sorted() {
    let mut p = FSPermission::new(Vec::new(), Vec::new());
    for r in [9u128, 1, 5, 7, 3, 8, 2] {
        p.add(r, r as u8);
    }
    let list = p.get_list();
    for w in list.windows(2) {
        assert!(w[0].0 < w[1].0);
    }
    assert_eq!(list.len(), 7);
}

#[test]
fn remove_absent_is_none() {
    let mut p = FSPermission::new(vec![5, 10], vec![1, 2]);
    assert_eq!(p.remove(7), None);
    assert_eq!(p.get_flag(5), Some(1));
    assert_eq!(p.get_flag(10), Some(2));
}

#[test]
fn generate_flag_ors_bits() {
    let f = FSPermissions::generate_flag(&[
        FSPermissions::Visible,
        FSPermissions::Read,
        FSPermissions::Moveable,
    ]);
    assert_eq!(f, 0b1100_0001);
    assert_eq!(FSPermissions::generate_flag(&[]), 0);
}

#[test]
fn from_flag_enumerates_most_significant_first() {
    let list = FSPermissions::from_flag(0b1010_0101);
    assert_eq!(list.len(), 4);
    assert!(matches!(list[0], FSPermissions::Visible));
    assert!(matches!(list[1], FSPermissions::Write));
    assert!(matches!(list[2], FSPermissions::Delete));
    assert!(matches!(list[3], FSPermissions::Moveable));
}

#[test]
fn flag_predicates_check_their_bit() {
    assert!(FSPermissions::is_visible(0x80));
    assert!(FSPermissions::is_readable(0x40));
    assert!(FSPermissions::is_writable(0x20));
    assert!(FSPermissions::is_modifiable(0x10));
    assert!(FSPermissions::is_editable(0x08));
    assert!(FSPermissions::is_deletable(0x04));
    assert!(FSPermissions::is_copyable(0x02));
    assert!(FSPermissions::is_moveable(0x01));
    assert!(!FSPermissions::is_visible(0x7F));
}

#[test]
fn record_encodes_to_documented_layout() {
    let rec = FSIndex {
        type_flag: 0x02,
        referrer: 0x1111_2222_3333_4444_5555_6666_7777_8888,
        ruid: 0x9999_AAAA_BBBB_CCCC_DDDD_EEEE_FFFF_0001,
        timestamp_la: 0x0102_0304_0506_0708,
        timestamp_ct: 0x1112_1314_1516_1718,
        timestamp_lm: 0x2122_2324_2526_2728,
        timestamp_lc: 0x3132_3334_3536_3738,
        name: "dir".to_string(),
        data_addr: 0x4142_4344_4546_4748,
        links: FSLink { hash: vec![0x10u128], ruid: vec![0x20u128] },
        perm: FSPermission::new(vec![3, 7], vec![0x20, 0xC0]),
    };
    let bytes = rec.encode();
    assert_eq!(bytes.len(), 90 + 3 + 32 + 34);
    assert_eq!(bytes[0], 0x02);
    assert!(bytes[1..8].iter().all(|&b| b == 0));
    assert_eq!(bytes[8], 0x88); // low byte of the parent RUID
    assert_eq!(bytes[23], 0x11); // high byte of the parent RUID
    assert_eq!(bytes[40], 0x08); // low byte of the access timestamp
    assert_eq!(bytes[72], 0x48); // low byte of the data pointer
    assert_eq!(bytes[80], 3); // name length
    assert_eq!(bytes[81], 0);
    assert_eq!(&bytes[82..85], b"dir");
    assert_eq!(bytes[85], 1); // link count, little-endian
    assert_eq!(bytes[89], 0x10); // low byte of the link hash
    assert_eq!(bytes[105], 0x20); // low byte of the link target RUID
    assert_eq!(bytes[121], 2); // permission count
    assert_eq!(bytes[125], 3); // low byte of the first permission RUID
    assert_eq!(bytes[141], 0x20); // first permission flag
    assert_eq!(bytes[142], 7); // low byte of the second permission RUID
    assert_eq!(bytes[158], 0xC0); // second permission flag

    let padded = rec.encode_block_aligned(64);
    assert_eq!(padded.len(), 192);
    assert_eq!(&padded[..159], &bytes[..]);
    assert!(padded[159..].iter().all(|&b| b == 0));
}
