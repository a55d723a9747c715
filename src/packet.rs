//! The fixed-size framed packet of the USB update protocol.
use vstd::prelude::*;
use crate::hexcrc::{calc_ccitt_crc, ccitt_crc};
use crate::wire::{le16, le32, zeros};

verus! {

/// Size of a packet's data field. A multiple of 8, the flash-write granularity.
pub const MAX_DATA_LENGTH: usize = 200;

/// Size of a packet on the wire.
pub const PACKET_SIZE: usize = 216;

/// What a packet carries: its destination address and its payload (the
/// logical data bytes, without the zero padding of the data field).
pub struct PacketModel {
    pub address: u32,
    pub payload: Seq<u8>,
}

/// The 216 bytes of a packet on the wire: `'*'`, `'u'`, two pad bytes, the
/// address, the payload length, a pad byte, the payload's CRC16, the data
/// field (payload, then zeros up to 200 bytes), `'\n'`, three pad bytes.
/// Multi-byte fields are little-endian.
pub open spec fn wire_bytes(m: PacketModel) -> Seq<u8> {
    seq![0x2au8, 0x75u8, 0u8, 0u8] + le32(m.address) + seq![m.payload.len() as u8, 0u8]
        + le16(ccitt_crc(m.payload)) + m.payload + zeros((200 - m.payload.len()) as nat)
        + seq![0x0au8, 0u8, 0u8, 0u8]
}

/// Packet format for sending firmware updates over USB. The fields are
/// written to the wire one by one, at fixed offsets, by `to_bytes`.
#[derive(Debug, Clone, Copy, PartialEq, Eq)]
pub struct FirmwareUpdatePacket {
    boot_char: u8,
    update_char: u8,
    pad1: u16,
    address: u32,
    data_length: u8,
    pad2: u8,
    data_crc: u16,
    data: [u8; 200],
    end_of_packet: u8,
    pad3: u16,
    pad4: u8,
}

impl View for FirmwareUpdatePacket {
    type V = PacketModel;

    closed spec fn view(&self) -> PacketModel {
        PacketModel { address: self.address, payload: self.data@.subrange(0, self.data_length as int) }
    }
}

impl FirmwareUpdatePacket {
    #[verifier::type_invariant]
    spec fn framed(&self) -> bool {
        &&& self.boot_char == 0x2a
        &&& self.update_char == 0x75
        &&& self.pad1 == 0
        &&& self.data_length <= 200
        &&& self.pad2 == 0
        &&& self.data_crc == ccitt_crc(self.data@.subrange(0, self.data_length as int))
        &&& forall|i: int| self.data_length <= i < 200 ==> self.data@[i] == 0
        &&& self.end_of_packet == 0x0a
        &&& self.pad3 == 0
        &&& self.pad4 == 0
    }

    /// A packet for `addr` whose payload is the first `size` bytes of `data`;
    /// the rest of the data field is zeroed.
    pub fn new(addr: u32, data: [u8; 200], size: usize) -> (r: Self)
        requires
            size <= MAX_DATA_LENGTH,
        ensures
            r@ == (PacketModel { address: addr, payload: data@.subrange(0, size as int) }),
    {
        let mut data = data;
        let ghost given = data@;
        let mut i: usize = size;
        while i < MAX_DATA_LENGTH
            invariant
                size <= i <= 200,
                data@.subrange(0, size as int) == given.subrange(0, size as int),
                forall|j: int| size <= j < i ==> data@[j] == 0,
            decreases 200 - i,
        {
            data[i] = 0;
            i += 1;
            assert(data@.subrange(0, size as int) =~= given.subrange(0, size as int));
        }
        let data_crc: u16 = calc_ccitt_crc(&data, size as u32);
        FirmwareUpdatePacket {
            boot_char: 0x2a,
            update_char: 0x75,
            pad1: 0,
            address: addr,
            data_length: size as u8,
            pad2: 0,
            data_crc,
            data,
            end_of_packet: 0x0a,
            pad3: 0,
            pad4: 0,
        }
    }

    /// The destination address.
    pub fn address(&self) -> (r: u32)
        ensures
            r == self@.address,
    {
        self.address
    }

    /// The CRC16 of the payload.
    pub fn crc16(&self) -> (r: u16)
        ensures
            r == ccitt_crc(self@.payload),
    {
        proof {
            use_type_invariant(self);
        }
        self.data_crc
    }

    /// The number of payload bytes.
    pub fn len(&self) -> (r: usize)
        ensures
            r == self@.payload.len(),
            r <= MAX_DATA_LENGTH,
    {
        proof {
            use_type_invariant(self);
        }
        self.data_length as usize
    }

    /// The payload bytes.
    pub fn to_vec(&self) -> (r: Vec<u8>)
        ensures
            r@ == self@.payload,
    {
        proof {
            use_type_invariant(self);
        }
        let len = self.data_length as usize;
        let mut r: Vec<u8> = Vec::with_capacity(len);
        let mut i: usize = 0;
        while i < len
            invariant
                len == self.data_length,
                len <= 200,
                i <= len,
                r@ == self.data@.subrange(0, i as int),
            decreases len - i,
        {
            r.push(self.data[i]);
            i += 1;
            assert(r@ =~= self.data@.subrange(0, i as int));
        }
        r
    }

    /// The packet as it goes on the wire.
    pub fn to_bytes(&self) -> (r: Vec<u8>)
        ensures
            r@ == wire_bytes(self@),
            r@.len() == PACKET_SIZE,
    {
        proof {
            use_type_invariant(self);
        }
        let mut r: Vec<u8> = Vec::with_capacity(PACKET_SIZE);
        r.push(self.boot_char);
        r.push(self.update_char);
        r.push((self.pad1 & 0xff) as u8);
        r.push((self.pad1 >> 8) as u8);
        r.push((self.address & 0xff) as u8);
        r.push(((self.address >> 8) & 0xff) as u8);
        r.push(((self.address >> 16) & 0xff) as u8);
        r.push((self.address >> 24) as u8);
        r.push(self.data_length);
        r.push(self.pad2);
        r.push((self.data_crc & 0xff) as u8);
        r.push((self.data_crc >> 8) as u8);
        let ghost head = r@;
        let mut i: usize = 0;
        while i < MAX_DATA_LENGTH
            invariant
                i <= 200,
                r@ == head + self.data@.subrange(0, i as int),
            decreases 200 - i,
        {
            r.push(self.data[i]);
            i += 1;
            assert(r@ =~= head + self.data@.subrange(0, i as int));
        }
        r.push(self.end_of_packet);
        r.push((self.pad3 & 0xff) as u8);
        r.push((self.pad3 >> 8) as u8);
        r.push(self.pad4);
        proof {
            let n = self.data_length as int;
            assert(self.data@.subrange(n, 200) =~= zeros((200 - n) as nat));
            assert(self.data@.subrange(0, 200) =~= self.data@.subrange(0, n) + self.data@.subrange(n, 200));
            assert(0u16 & 0xff == 0 && 0u16 >> 8 == 0) by (bit_vector);
            assert(r@ =~= wire_bytes(self@));
        }
        r
    }
}

} // verus!
