//! The finished firmware update: its packets, length and CRC32.
use vstd::prelude::*;
use crate::hexcrc::{stm32_checksum, stm32_crc32};
use crate::packet::{FirmwareUpdatePacket, PacketModel};
use crate::region::packet_models;

verus! {

/// The firmware image that the packets carry: their payloads, in order.
pub open spec fn image_of(ps: Seq<PacketModel>) -> Seq<u8>
    decreases ps.len(),
{
    if ps.len() == 0 {
        Seq::empty()
    } else {
        image_of(ps.drop_last()) + ps.last().payload
    }
}

/// The payloads of `packets`, concatenated.
pub fn image_bytes(packets: &[FirmwareUpdatePacket]) -> (r: Vec<u8>)
    ensures
        r@ == image_of(packet_models(packets@)),
{
    let ghost ps = packet_models(packets@);
    let mut image: Vec<u8> = Vec::new();
    let mut i: usize = 0;
    while i < packets.len()
        invariant
            ps == packet_models(packets@),
            i <= ps.len(),
            image@ == image_of(ps.subrange(0, i as int)),
        decreases ps.len() - i,
    {
        let payload = packets[i].to_vec();
        proof {
            assert(ps.subrange(0, i as int + 1).drop_last() =~= ps.subrange(0, i as int));
            assert(ps[i as int] == packets@[i as int]@);
        }
        let ghost before = image@;
        let mut j: usize = 0;
        while j < payload.len()
            invariant
                j <= payload@.len(),
                image@ == before + payload@.subrange(0, j as int),
            decreases payload@.len() - j,
        {
            image.push(payload[j]);
            j += 1;
            assert(image@ =~= before + payload@.subrange(0, j as int));
        }
        assert(payload@.subrange(0, payload@.len() as int) =~= payload@);
        i += 1;
    }
    assert(ps.subrange(0, ps.len() as int) =~= ps);
    image
}

/// A complete firmware update, built once from its packets.
#[derive(Debug, PartialEq, Eq)]
pub struct FirmwareUpdate {
    packets: Vec<FirmwareUpdatePacket>,
    length: usize,
    crc32: u32,
}

impl View for FirmwareUpdate {
    type V = Seq<PacketModel>;

    closed spec fn view(&self) -> Seq<PacketModel> {
        packet_models(self.packets@)
    }
}

impl FirmwareUpdate {
    #[verifier::type_invariant]
    spec fn consistent(&self) -> bool {
        let image = image_of(packet_models(self.packets@));
        &&& self.length == image.len()
        &&& self.crc32 == stm32_crc32(image)
    }

    /// The update made of `packets`, with its length (payload bytes only)
    /// and its whole-image CRC32.
    pub fn new(packets: Vec<FirmwareUpdatePacket>) -> (r: Self)
        ensures
            r@ == packet_models(packets@),
    {
        let image = image_bytes(packets.as_slice());
        let crc32 = stm32_checksum(image.as_slice());
        FirmwareUpdate { packets, length: image.len(), crc32 }
    }

    /// The number of payload bytes.
    pub fn len(&self) -> (r: usize)
        ensures
            r == image_of(self@).len(),
    {
        proof {
            use_type_invariant(self);
        }
        self.length
    }

    /// The whole-image CRC32.
    pub fn crc32(&self) -> (r: u32)
        ensures
            r == stm32_crc32(image_of(self@)),
    {
        proof {
            use_type_invariant(self);
        }
        self.crc32
    }

    /// The packets, in order.
    pub fn packets(&self) -> (r: &[FirmwareUpdatePacket])
        ensures
            packet_models(r@) == self@,
    {
        self.packets.as_slice()
    }
}

} // verus!
