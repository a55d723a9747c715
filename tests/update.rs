use ihex_crc32::{
    accept_records, binary_image, calc_stm32_crc, hex_bytes, include_image, make_packets,
    merge_regions, FirmwareUpdate, FirmwareUpdatePacket, ParsePolicy, Record, Region,
    MAX_DATA_LENGTH,
};

fn packet_of(addr: u32, bytes: &[u8]) -> FirmwareUpdatePacket {
    let mut data = [0u8; MAX_DATA_LENGTH];
    data[..bytes.len()].copy_from_slice(bytes);
    FirmwareUpdatePacket::new(addr, data, bytes.len())
}

fn mpeg2(bytes: &[u8]) -> u32 {
    crc::Crc::<u32>::new(&crc::CRC_32_MPEG_2).checksum(bytes)
}

#[test]
fn two_disjoint_blocks_end_to_end() {
    let block1: Vec<u8> = (0..64u8).collect();
    let block2: Vec<u8> = (0..64u8).map(|i| 0xff - i).collect();
    let mut records = vec![Record::ExtendedLinearAddress(0x0800)];
    for k in 0..4usize {
        records.push(Record::Data {
            offset: (16 * k) as u16,
            value: block1[16 * k..16 * k + 16].to_vec(),
        });
    }
    for k in 0..4usize {
        records.push(Record::Data {
            offset: 0x1000 + (16 * k) as u16,
            value: block2[16 * k..16 * k + 16].to_vec(),
        });
    }
    records.push(Record::EndOfFile);

    let regions = Region::build_regions(&records);
    assert_eq!(regions.len(), 2);
    let mut merged = merge_regions(&regions);
    assert_eq!(merged.len(), 2);
    let packets = make_packets(&mut merged);
    assert_eq!(packets.len(), 2);
    assert_eq!(packets[0].len(), 64);
    assert_eq!(packets[0].address(), 0x0800_0000);
    assert_eq!(packets[1].len(), 64);
    assert_eq!(packets[1].address(), 0x0800_1000);
    let update = FirmwareUpdate::new(packets);
    assert_eq!(update.len(), 128);
    let mut both = block1.clone();
    both.extend(&block2);
    assert_eq!(update.crc32(), mpeg2(&both));
    assert_eq!(update.crc32(), 0x52F78622);
}

#[test]
fn update_holds_length_and_crc_of_its_payloads() {
    let packets = vec![packet_of(0x100, b"12345678"), packet_of(0x108, b"9abcdef0")];
    let expected = calc_stm32_crc(&packets);
    let update = FirmwareUpdate::new(packets);
    assert_eq!(update.len(), 16);
    assert_eq!(update.crc32(), expected);
    assert_eq!(update.crc32(), 0xA19A6E15);
    assert_eq!(update.packets().len(), 2);
    assert_eq!(update.packets()[1].address(), 0x108);
}

#[test]
fn empty_update() {
    let update = FirmwareUpdate::new(Vec::new());
    assert_eq!(update.len(), 0);
    assert_eq!(update.crc32(), 0xFFFF_FFFF);
    assert!(update.packets().is_empty());
}

#[test]
fn binary_image_pads_to_eight_bytes() {
    let update = FirmwareUpdate::new(vec![packet_of(0, b"123456789ab")]);
    let image = binary_image(&update, false);
    assert_eq!(image.len(), 16);
    assert_eq!(&image[0..11], b"123456789ab");
    assert_eq!(&image[11..], &[0; 5]);
}

#[test]
fn binary_image_of_aligned_payload_has_no_padding() {
    let update = FirmwareUpdate::new(vec![packet_of(0, b"123456789abcdef0")]);
    assert_eq!(binary_image(&update, false), b"123456789abcdef0".to_vec());
}

#[test]
fn binary_image_appends_the_crc_little_endian() {
    let update = FirmwareUpdate::new(vec![packet_of(0, b"123456789abcdef0")]);
    let image = binary_image(&update, true);
    assert_eq!(image.len(), 24);
    assert_eq!(&image[0..16], b"123456789abcdef0");
    assert_eq!(&image[16..20], &[0x15, 0x6E, 0x9A, 0xA1]);
    assert_eq!(&image[20..], &[0; 4]);
}

#[test]
fn binary_image_with_crc_rounds_past_the_crc() {
    let update = FirmwareUpdate::new(vec![packet_of(0, b"12345")]);
    let image = binary_image(&update, true);
    assert_eq!(image.len(), 16);
    let crc = update.crc32().to_le_bytes();
    assert_eq!(&image[5..9], &crc);
    assert_eq!(&image[9..], &[0; 7]);
}

#[test]
fn include_image_without_crc_is_the_payload() {
    let update = FirmwareUpdate::new(vec![packet_of(0, b"123456789abcdef0")]);
    let (bytes, crc) = include_image(&update, false);
    assert_eq!(bytes, b"123456789abcdef0".to_vec());
    assert_eq!(crc, 0xA19A6E15);
}

#[test]
fn include_image_with_crc_covers_the_appended_crc() {
    let update = FirmwareUpdate::new(vec![packet_of(0, b"123456789abcdef0")]);
    let (bytes, crc) = include_image(&update, true);
    assert_eq!(bytes.len(), 20);
    assert_eq!(&bytes[16..20], &[0x15, 0x6E, 0x9A, 0xA1]);
    assert_eq!(crc, mpeg2(&bytes));
    assert_eq!(crc, 0x6448516C);
}

#[test]
fn hex_listing_of_a_few_bytes() {
    assert_eq!(hex_bytes(&[]), "");
    assert_eq!(hex_bytes(&[0x00]), "0x00");
    assert_eq!(hex_bytes(&[0x0a, 0xff, 0x10]), "0x0a, 0xff, 0x10");
}

#[test]
fn hex_listing_breaks_after_twelve_bytes() {
    let bytes: Vec<u8> = (0..14u8).collect();
    let text = hex_bytes(&bytes);
    let expected = "0x00, 0x01, 0x02, 0x03, 0x04, 0x05, 0x06, 0x07, 0x08, 0x09, 0x0a, 0x0b,\n\t0x0c, 0x0d";
    assert_eq!(text, expected);
}

#[test]
fn fail_fast_reports_the_first_bad_line() {
    let parsed = vec![Some(Record::EndOfFile), None, Some(Record::EndOfFile), None];
    assert_eq!(accept_records(&parsed, ParsePolicy::FailFast), Err(1));
}

#[test]
fn fail_fast_keeps_a_clean_stream() {
    let parsed = vec![Some(Record::ExtendedLinearAddress(1)), Some(Record::EndOfFile)];
    assert_eq!(
        accept_records(&parsed, ParsePolicy::FailFast),
        Ok(vec![Record::ExtendedLinearAddress(1), Record::EndOfFile])
    );
}

#[test]
fn skip_invalid_drops_only_bad_lines() {
    let parsed = vec![
        None,
        Some(Record::Data { offset: 4, value: vec![1, 2] }),
        None,
        Some(Record::EndOfFile),
    ];
    assert_eq!(
        accept_records(&parsed, ParsePolicy::SkipInvalid),
        Ok(vec![Record::Data { offset: 4, value: vec![1, 2] }, Record::EndOfFile])
    );
}
