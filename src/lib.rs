//! Turns an Intel HEX record stream into bootloader update packets, with the
//! per-packet CRC16 and the whole-image CRC32 that the target checks.
pub mod export;
pub mod hexcrc;
pub mod packet;
pub mod record;
pub mod region;
pub mod update;
pub mod wire;

pub use export::{binary_image, hex_bytes, include_image};
pub use hexcrc::{calc_ccitt_crc, calc_stm32_crc, ihex_checksum};
pub use packet::{FirmwareUpdatePacket, MAX_DATA_LENGTH, PACKET_SIZE};
pub use record::{accept_records, ParsePolicy, Record};
pub use region::{make_packets, merge_regions, Region};
pub use update::FirmwareUpdate;
