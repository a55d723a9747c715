use ihex_crc32::{calc_ccitt_crc, FirmwareUpdatePacket, MAX_DATA_LENGTH, PACKET_SIZE};

const TEST_ADDR: u32 = 0x0800c8000;

fn make_test_data() -> [u8; MAX_DATA_LENGTH] {
    let mut test_data: [u8; MAX_DATA_LENGTH] = [0; MAX_DATA_LENGTH];
    for i in 0..MAX_DATA_LENGTH {
        test_data[i] = rand::random::<u8>();
    }
    test_data
}

#[test]
fn check_endianess_of_crc16_and_address() {
    let tdata = make_test_data();
    let crc16 = calc_ccitt_crc(&tdata, MAX_DATA_LENGTH as u32);
    let packt = FirmwareUpdatePacket::new(TEST_ADDR, tdata, MAX_DATA_LENGTH);
    assert!(crc16 == packt.crc16());
    assert!(TEST_ADDR == packt.address());
}

#[test]
fn packet_keeps_only_its_payload() {
    let mut data = [0xaa_u8; MAX_DATA_LENGTH];
    data[0] = 1;
    data[1] = 2;
    let p = FirmwareUpdatePacket::new(0x1000, data, 8);
    assert_eq!(p.len(), 8);
    assert_eq!(p.to_vec(), vec![1, 2, 0xaa, 0xaa, 0xaa, 0xaa, 0xaa, 0xaa]);
    assert_eq!(p.crc16(), calc_ccitt_crc(&data, 8));
}

#[test]
fn wire_layout_is_little_endian_at_fixed_offsets() {
    let mut data = [0x55_u8; MAX_DATA_LENGTH];
    data[0] = 0x31;
    data[1] = 0x32;
    let p = FirmwareUpdatePacket::new(0x0801_2345, data, 16);
    let crc = p.crc16();
    let w = p.to_bytes();
    assert_eq!(w.len(), PACKET_SIZE);
    assert_eq!(w.len(), 216);
    assert_eq!(&w[0..4], &[b'*', b'u', 0, 0]);
    assert_eq!(&w[4..8], &[0x45, 0x23, 0x01, 0x08]);
    assert_eq!(w[8], 16);
    assert_eq!(w[9], 0);
    assert_eq!(&w[10..12], &[(crc & 0xff) as u8, (crc >> 8) as u8]);
    assert_eq!(&w[12..14], &[0x31, 0x32]);
    assert_eq!(&w[14..28], &[0x55; 14]);
    assert!(w[28..212].iter().all(|&b| b == 0));
    assert_eq!(&w[212..216], &[b'\n', 0, 0, 0]);
}

#[test]
fn full_packet_wire_bytes_carry_all_data() {
    let data = [7u8; MAX_DATA_LENGTH];
    let p = FirmwareUpdatePacket::new(0, data, MAX_DATA_LENGTH);
    let w = p.to_bytes();
    assert_eq!(w[8], 200);
    assert!(w[12..212].iter().all(|&b| b == 7));
}
