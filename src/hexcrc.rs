//! The two checksums of the update protocol, and the Intel HEX line checksum.
use vstd::prelude::*;
use crate::packet::FirmwareUpdatePacket;
use crate::region::packet_models;
use crate::update::{image_bytes, image_of};

verus! {

/// One step of the packet CRC16: the byte `v` is mixed into `crc`.
pub open spec fn ccitt_step(crc: u16, v: u8) -> u16 {
    let c1 = ((crc >> 8u16) | (crc << 8u16)) as u16;
    let c2 = c1 ^ (v as u16);
    let c3 = c2 ^ ((c2 & 0xffu16) >> 4u16);
    let c4 = c3 ^ (((c3 << 8u16) << 4u16) as u16);
    c4 ^ ((((c4 & 0xffu16) << 4u16) << 1u16) as u16)
}

/// The packet CRC16 of `s`: `0xFFFF`, then one step per byte, in order.
pub open spec fn ccitt_crc(s: Seq<u8>) -> u16
    decreases s.len(),
{
    if s.len() == 0 {
        0xffffu16
    } else {
        ccitt_step(ccitt_crc(s.drop_last()), s.last())
    }
}

/// Sum of the bytes of `s`, as an integer.
pub open spec fn byte_sum(s: Seq<u8>) -> nat
    decreases s.len(),
{
    if s.len() == 0 {
        0
    } else {
        byte_sum(s.drop_last()) + s.last() as nat
    }
}

/// The Intel HEX line checksum of `s`: the byte that brings the sum of the
/// line to zero, modulo 256.
pub open spec fn line_checksum(s: Seq<u8>) -> u8 {
    ((256 - byte_sum(s) % 256) % 256) as u8
}

/// The packet CRC16 over the first `size` bytes of `data`.
pub fn calc_ccitt_crc(data: &[u8], size: u32) -> (r: u16)
    requires
        size <= data@.len(),
    ensures
        r == ccitt_crc(data@.subrange(0, size as int)),
{
    let mut crc: u16 = 0xffff;
    let total: usize = size as usize;
    let mut i: usize = 0;
    while i < total
        invariant
            total == size,
            total <= data@.len(),
            i <= total,
            crc == ccitt_crc(data@.subrange(0, i as int)),
        decreases total - i,
    {
        let value = data[i];
        proof {
            let s = data@.subrange(0, i as int + 1);
            assert(s.drop_last() =~= data@.subrange(0, i as int));
        }
        crc = (crc >> 8) | (crc << 8);
        crc ^= value as u16;
        crc ^= (crc & 0xff) >> 4;
        crc ^= (crc << 8) << 4;
        crc ^= ((crc & 0xff) << 4) << 1;
        i += 1;
    }
    crc
}

/// The Intel HEX checksum of a line's bytes (all but the checksum byte).
pub fn ihex_checksum(data: &[u8]) -> (r: u8)
    ensures
        r == line_checksum(data@),
{
    let mut cs: u8 = 0;
    let mut i: usize = 0;
    while i < data.len()
        invariant
            i <= data@.len(),
            cs as nat == byte_sum(data@.subrange(0, i as int)) % 256,
        decreases data@.len() - i,
    {
        proof {
            let s = data@.subrange(0, i as int + 1);
            assert(s.drop_last() =~= data@.subrange(0, i as int));
        }
        cs = cs.wrapping_add(data[i]);
        i += 1;
    }
    proof {
        assert(data@.subrange(0, data@.len() as int) =~= data@);
        assert(!cs == 255 - cs) by (bit_vector);
    }
    (!cs).wrapping_add(1)
}

/// The whole-image CRC32 of `data`: CRC-32/MPEG-2, the algorithm of the
/// STM32 CRC peripheral (polynomial 0x04C11DB7, initial value 0xFFFFFFFF,
/// no reflection, no final xor).
pub uninterp spec fn stm32_crc32(data: Seq<u8>) -> u32;

/// Relies on `crc::Crc::<u32>::checksum` with `crc::CRC_32_MPEG_2`, whose
/// parameters are those above: the checksum is a function of the bytes alone.
#[verifier::external_body]
pub(crate) fn stm32_checksum(data: &[u8]) -> (r: u32)
    ensures
        r == stm32_crc32(data@),
{
    crc::Crc::<u32>::new(&crc::CRC_32_MPEG_2).checksum(data)
}

/// The whole-image CRC32 over the packets' payloads, in order (never the
/// zero padding of their data fields).
pub fn calc_stm32_crc(packets: &[FirmwareUpdatePacket]) -> (r: u32)
    ensures
        r == stm32_crc32(image_of(packet_models(packets@))),
{
    let image = image_bytes(packets);
    stm32_checksum(image.as_slice())
}

} // verus!
