use cram_codec::error::Error;
use cram_codec::version::Version;

#[test]
fn test_default() {
    assert_eq!(Version::default(), Version::new(3, 0));
}

#[test]
fn test_ordering() {
    assert!(Version::v2_0() < Version::v2_1());
    assert!(Version::v2_1() < Version::v3_0());
    assert!(Version::v3_0() < Version::v3_1());
    assert!(Version::v3_1() < Version::v4_0());
}

#[test]
fn test_has_crc32() {
    assert!(!Version::v2_0().has_crc32());
    assert!(!Version::v2_1().has_crc32());
    assert!(Version::v3_0().has_crc32());
    assert!(Version::v3_1().has_crc32());
    assert!(Version::v4_0().has_crc32());
}

#[test]
fn test_uses_vlq() {
    assert!(!Version::v2_0().uses_vlq());
    assert!(!Version::v3_0().uses_vlq());
    assert!(!Version::v3_1().uses_vlq());
    assert!(Version::v4_0().uses_vlq());
}

#[test]
fn test_has_64bit_positions() {
    assert!(!Version::v3_0().has_64bit_positions());
    assert!(Version::v4_0().has_64bit_positions());
}

#[test]
fn test_validate() {
    assert!(Version::v2_0().validate().is_ok());
    assert!(Version::v2_1().validate().is_ok());
    assert!(Version::v3_0().validate().is_ok());
    assert!(Version::v3_1().validate().is_ok());
    assert!(Version::v4_0().validate().is_ok());
    assert!(Version::new(1, 0).validate().is_err());
    assert_eq!(Version::new(5, 0).validate(), Err(Error::InvalidData));
}
