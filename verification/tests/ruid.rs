use idvd::ruid::{RUID, RUIDGenerator};

#[test]
fn test_ruid_generation() {
    let mut generator = RUIDGenerator::new_with_entropy(42);
    generator.set_device_id(1);
    let ruid = generator.generate(2);
    println!("Generated RUID: {:?}", ruid);
    assert_eq!(ruid.get_device_id(), 1);
    assert_eq!(ruid.get_prefix(), 2);
}

#[test]
fn generator_with_fixed_seed_stamps_fields() {
    let mut generator = RUIDGenerator::new_with(42, 1);
    let ruid = generator.generate(2);
    assert_eq!(ruid.get_prefix(), 2);
    assert_eq!(ruid.get_device_id(), 1);
    assert_eq!(ruid.get_version(), 1);
}

#[test]
fn setters_compose_fields() {
    let mut r = RUID::new();
    r.set_prefix(0xABCD);
    r.set_version(0x1);
    r.set_device_id(0x1234);
    r.set_timestamp(0x0000_1122_3344_5566);
    r.set_random(0x0000_0777_8899_AABB);
    assert_eq!(r.get_prefix(), 0xABCD);
    assert_eq!(r.get_version(), 0x1);
    assert_eq!(r.get_device_id(), 0x1234);
    assert_eq!(r.get_timestamp(), 0x0000_1122_3344_5566);
    assert_eq!(r.get_random(), 0x0000_0777_8899_AABB);
}

#[test]
fn timestamp_and_random_are_masked() {
    let mut r = RUID::new();
    r.set_timestamp(0xFFFF_FFFF_FFFF_FFFF);
    assert_eq!(r.get_timestamp(), 0x0000_FFFF_FFFF_FFFF);
    let mut r2 = RUID::new();
    r2.set_random(0xFFFF_FFFF_FFFF_FFFF);
    assert_eq!(r2.get_random(), 0x0000_0FFF_FFFF_FFFF);
}

#[test]
fn os_seeded_generator_reports_device_id() {
    match RUIDGenerator::new_with_device_id(7) {
        Ok(mut g) => {
            let ruid = g.generate(1);
            assert_eq!(ruid.get_device_id(), 7);
            assert_eq!(ruid.get_version(), 1);
        }
        Err(e) => {
            assert!(matches!(e, idvd::error::IDVDError::FiledGetOsRng));
        }
    }
}

#[test]
fn from_raw_value_roundtrips() {
    let r = idvd::ruid::RUID::from(0xABCD_1234_5678_9ABC_DEF0_1122_3344_5566u128);
    assert_eq!(r.as_u128(), 0xABCD_1234_5678_9ABC_DEF0_1122_3344_5566u128);
    assert_eq!(r.get_prefix(), 0xABCD);
    assert_eq!(r.get_version(), 0x1);
}

#[test]
fn text_form_has_five_hex_groups() {
    let r = idvd::ruid::RUID::from(0xABCD_1234_5678_9ABC_DEF0_1122_3344_5566u128);
    assert_eq!(r.to_text(), "ABCD_1_2345_6789ABCDEF01_12233445566");
    assert_eq!(
        idvd::ruid::RUID::new().to_text(),
        "0000_0_0000_000000000000_00000000000"
    );
}
