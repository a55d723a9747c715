use ihex_crc32::{calc_ccitt_crc, calc_stm32_crc, ihex_checksum, FirmwareUpdatePacket, MAX_DATA_LENGTH};

const TEST_DATA: [u8; 21] = [
    0x10, 0x07, 0xf8, 0x00, 0x04, 0xf0, 0x3c, 0xfa, 0x69, 0x46, 0x1a, 0x48, 0xff, 0xf7, 0x0a,
    0xfe, 0x69, 0x46, 0x04, 0xf1, 0x14,
];

fn packet_of(bytes: &[u8]) -> FirmwareUpdatePacket {
    let mut data = [0u8; MAX_DATA_LENGTH];
    data[..bytes.len()].copy_from_slice(bytes);
    FirmwareUpdatePacket::new(0x0800_0000, data, bytes.len())
}

#[test]
fn checksum_implementation_matches_spec() {
    let tdata: Vec<u8> = TEST_DATA.to_vec();
    let end = tdata.len() - 1;
    let start = &tdata[0..end];
    let last: u8 = tdata[end];
    assert!(ihex_checksum(start) == last);
}

#[test]
fn line_checksum_vector() {
    let bytes = [
        0x10, 0x07, 0xF8, 0x00, 0x04, 0xF0, 0x3C, 0xFA, 0x69, 0x46, 0x1A, 0x48, 0xFF, 0xF7, 0x0A,
        0xFE, 0x69, 0x46, 0x04, 0xF1,
    ];
    assert_eq!(ihex_checksum(&bytes), 0x14);
}

#[test]
fn line_checksum_of_nothing_is_zero() {
    assert_eq!(ihex_checksum(&[]), 0);
    assert_eq!(ihex_checksum(&[0x80, 0x80]), 0);
    assert_eq!(ihex_checksum(&[0x01]), 0xff);
}

#[test]
fn ccitt_crc_check_value() {
    assert_eq!(calc_ccitt_crc(b"123456789", 9), 0x29b1);
}

#[test]
fn ccitt_crc_covers_only_the_given_size() {
    assert_eq!(calc_ccitt_crc(&[1, 2, 3, 4, 5, 6], 4), 0x89c3);
    assert_eq!(calc_ccitt_crc(&[1, 2, 3], 0), 0xffff);
}

#[test]
fn stm32_crc32_vector() {
    let packets = [packet_of(b"123456789abcdef0")];
    assert_eq!(calc_stm32_crc(&packets), 0xA19A6E15);
}

#[test]
fn stm32_crc32_check_value() {
    let packets = [packet_of(b"123456789")];
    assert_eq!(calc_stm32_crc(&packets), 0x0376E6E7);
}

#[test]
fn stm32_crc32_runs_over_packets_in_order() {
    let packets = [packet_of(b"12345678"), packet_of(b"9abcdef0")];
    assert_eq!(calc_stm32_crc(&packets), 0xA19A6E15);
}

#[test]
fn stm32_crc32_of_no_packets() {
    assert_eq!(calc_stm32_crc(&[]), 0xFFFF_FFFF);
}
