use lib::checksum::{Adler32, RollingChecksum};
use lib::cli::{Config, ErrorKind};
use lib::layout::Status;

#[test]
fn test_parse_size_with_unit_power_of_two() {
    // Bytes only
    let result = Config::parse_size_with_unit("test", "512");
    assert_eq!(result.unwrap(), 512);
    let result = Config::parse_size_with_unit("test", "1024");
    assert_eq!(result.unwrap(), 1024);
    let result = Config::parse_size_with_unit("test", "32768");
    assert_eq!(result.unwrap(), 32768);
}

#[test]
fn test_parse_size_with_unit_not_power_of_two() {
    let result = Config::parse_size_with_unit("test", "2077");
    assert!(result.is_err());
    let err = result.unwrap_err();
    assert_eq!(err.kind(), ErrorKind::InvalidInput);
    assert!(err.to_string().contains("must be power of two"));
}

#[test]
fn test_parse_size_with_unit_unknown_unit() {
    let result = Config::parse_size_with_unit("test", "32XB");
    assert!(result.is_err());
    let err = result.unwrap_err();
    assert_eq!(err.kind(), ErrorKind::InvalidInput);
    assert!(err.to_string().contains("Unknown unit"));
}

#[test]
fn test_parse_size_with_unit_invalid_format() {
    let result = Config::parse_size_with_unit("test", "lol");
    assert!(result.is_err());
    let err = result.unwrap_err();
    assert_eq!(err.kind(), ErrorKind::InvalidInput);
    assert!(err.to_string().contains("Invalid test format"));
}

#[test]
fn test_adler32_empty() {
    let csum = Adler32::new();
    assert_eq!(csum.value(), 0x00000001); // b == 0 (0000), a == 1 (0001)
}

#[test]
fn test_adler32_wikipedia() {
    let mut csum = Adler32::new();
    csum.update(b"Wikipedia");
    // Known Adler-32 of "Wikipedia" == 0x11E60398
    assert_eq!(csum.value(), 0x11E60398);
}

#[test]
fn test_adler32_reset() {
    let mut csum = Adler32::new();
    csum.update(b"Hello Adler!");
    let v1 = csum.value();
    csum.reset();
    let v2 = csum.value();
    assert_ne!(v1, v2);
    assert_eq!(v2, 0x00000001);
}

#[test]
fn test_status_from_uniform_zeros() {
    let buf = [0u8; 4096];
    assert_eq!(Status::from(&buf[..]), Status::Ugly);
}

#[test]
fn test_status_from_uniform_pattern() {
    let pattern = 0xDEAFBEEBu32;
    let buf: Vec<u8> = pattern
        .to_le_bytes()
        .into_iter()
        .cycle()
        .take(4096)
        .collect();
    assert_eq!(Status::from(&buf[..]), Status::Ugly);
}

#[test]
fn test_status_from_varied_data() {
    let mut buf = [0u8; 4096];
    buf[2077] = 0x01; // breaking the pattern in one place
    assert_eq!(Status::from(&buf[..]), Status::Good);
}

#[test]
fn test_status_from_short_buffer() {
    let buf = [0u8; 3];
    assert_eq!(Status::from(&buf[..]), Status::Good);
}
