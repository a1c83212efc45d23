use idvd::error::IDVDError;
use idvd::header::Header;

fn sample() -> Header {
    Header::new(16 * 1024, 2048, 4096, 1024, 12)
}

#[test]
fn encode_then_decode_restores_fields() {
    let h = sample();
    let bytes = h.encode();
    assert_eq!(bytes.len(), 64);
    let back = Header::decode(&bytes).unwrap();
    assert_eq!(back.version, 1);
    assert_eq!(back.compression, 0);
    assert_eq!(back.crypt_method, 0);
    assert_eq!(back.nb_snapshots, 0);
    assert_eq!(back.total_size, 16 * 1024);
    assert_eq!(back.meta_offset, 2048);
    assert_eq!(back.snapshot_offset, 0);
    assert_eq!(back.index_offset, 0);
    assert_eq!(back.free_block_manager_offset, 4096);
    assert_eq!(back.block_size, 1024);
    assert_eq!(back.entry_count, 12);
}

#[test]
fn version_zero_is_unsupported() {
    let mut bytes = sample().encode();
    bytes[4] = 0;
    assert!(matches!(
        Header::decode(&bytes),
        Err(IDVDError::NotSupportedVersion)
    ));
}

#[test]
fn version_one_loads() {
    let bytes = sample().encode();
    assert!(Header::decode(&bytes).is_ok());
}

#[test]
fn version_two_is_unsupported() {
    let mut bytes = sample().encode();
    bytes[4] = 2;
    assert!(matches!(
        Header::decode(&bytes),
        Err(IDVDError::NotSupportedVersion)
    ));
}

#[test]
fn short_buffer_is_invalid_format() {
    let bytes = sample().encode();
    assert!(matches!(
        Header::decode(&bytes[..63]),
        Err(IDVDError::InvalidFormat)
    ));
}

#[test]
fn wrong_magic_is_invalid_format() {
    let mut bytes = sample().encode();
    bytes[0] = 0x00;
    assert!(matches!(
        Header::decode(&bytes),
        Err(IDVDError::InvalidFormat)
    ));
}

#[test]
fn nonzero_compression_is_unsupported() {
    let mut bytes = sample().encode();
    bytes[8] = 1;
    assert!(matches!(
        Header::decode(&bytes),
        Err(IDVDError::NotSupportedVersion)
    ));
}

#[test]
fn error_messages_name_their_kind() {
    assert_eq!(IDVDError::VDNotFound.message(), "VD not found");
    assert_eq!(IDVDError::OSPermissionDenied.message(), "OS permission denied");
    assert_eq!(IDVDError::FiledGetOsRng.message(), "Failed to get OS RNG");
    assert_eq!(IDVDError::InvalidFormat.message(), "Invalid format");
    assert_eq!(IDVDError::NotSupportedVersion.message(), "Not supported version");
    assert_eq!(IDVDError::Other("boom".to_string()).message(), "boom");
}
