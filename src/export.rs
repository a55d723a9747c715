//! What the export steps write: the binary image, and the bytes and CRC32
//! that a C header lists.
use vstd::prelude::*;
use vstd::string::{StrSliceExecFns, StringExecFns};
use crate::hexcrc::{stm32_checksum, stm32_crc32};
use crate::update::{image_bytes, image_of, FirmwareUpdate};
use crate::wire::{le32, push_all, push_zeros, round_up_8, u32_to_u8, zeros};

verus! {

/// The binary image: the payload bytes, then (with `append_crc`) the CRC32
/// `crc` in little-endian order, then zeros up to a multiple of 8 bytes.
pub open spec fn binary_image_of(image: Seq<u8>, crc: u32, append_crc: bool) -> Seq<u8> {
    let body = if append_crc { image + le32(crc) } else { image };
    body + zeros((round_up_8(body.len() as int) - body.len()) as nat)
}

/// The bytes that a C header lists, and the CRC32 it declares: the image
/// and its CRC32, or, with `append_crc`, the image followed by that CRC32 in
/// little-endian order and the CRC32 of the whole.
pub open spec fn include_image_of(image: Seq<u8>, crc: u32, append_crc: bool) -> (Seq<u8>, u32) {
    if append_crc {
        (image + le32(crc), stm32_crc32(image + le32(crc)))
    } else {
        (image, crc)
    }
}

/// The binary image of `update`. Its CRC32 is the one the update holds,
/// which the update's invariant ties to its payload bytes.
pub fn binary_image(update: &FirmwareUpdate, append_crc: bool) -> (r: Vec<u8>)
    ensures
        r@ == binary_image_of(image_of(update@), stm32_crc32(image_of(update@)), append_crc),
{
    let mut bytes = image_bytes(update.packets());
    let crc = update.crc32();
    if append_crc {
        let crc_bytes = u32_to_u8(crc);
        push_all(&mut bytes, crc_bytes.as_slice());
    }
    let npad: usize = (8 - bytes.len() % 8) % 8;
    proof {
        let n = bytes@.len() as int;
        assert(round_up_8(n) - n == npad);
    }
    push_zeros(&mut bytes, npad);
    bytes
}

/// The bytes and the CRC32 that a C header of `update` lists.
pub fn include_image(update: &FirmwareUpdate, append_crc: bool) -> (r: (Vec<u8>, u32))
    ensures
        r.0@ == include_image_of(image_of(update@), stm32_crc32(image_of(update@)), append_crc).0,
        r.1 == include_image_of(image_of(update@), stm32_crc32(image_of(update@)), append_crc).1,
{
    let mut bytes = image_bytes(update.packets());
    let crc = update.crc32();
    if append_crc {
        let crc_bytes = u32_to_u8(crc);
        push_all(&mut bytes, crc_bytes.as_slice());
        let whole = stm32_checksum(bytes.as_slice());
        (bytes, whole)
    } else {
        (bytes, crc)
    }
}

/// A lower-case hexadecimal digit.
pub open spec fn hex_digit(n: int) -> char {
    seq!['0', '1', '2', '3', '4', '5', '6', '7', '8', '9', 'a', 'b', 'c', 'd', 'e', 'f'][n]
}

/// A byte as a C literal: `0x` and two lower-case hexadecimal digits.
pub open spec fn byte_text(b: u8) -> Seq<char> {
    seq!['0', 'x', hex_digit(b as int / 16), hex_digit(b as int % 16)]
}

/// What stands before the byte at position `i > 0` of a listing: a line
/// break and a tab after every twelve bytes, else a space.
pub open spec fn separator(i: int) -> Seq<char> {
    if i % 12 == 0 {
        seq![',', '\n', '\t']
    } else {
        seq![',', ' ']
    }
}

/// The bytes `bs` as a comma-separated list of C literals, twelve per line.
pub open spec fn hex_listing(bs: Seq<u8>) -> Seq<char>
    decreases bs.len(),
{
    if bs.len() == 0 {
        Seq::empty()
    } else if bs.len() == 1 {
        byte_text(bs[0])
    } else {
        hex_listing(bs.drop_last()) + separator(bs.len() - 1) + byte_text(bs.last())
    }
}

fn digit_text(n: u8) -> (r: &'static str)
    requires
        n < 16,
    ensures
        r@ == seq![hex_digit(n as int)],
{
    let digits: &'static str = "0123456789abcdef";
    proof {
        reveal_strlit("0123456789abcdef");
    }
    let r = digits.substring_ascii(n as usize, n as usize + 1);
    assert(r@ =~= seq![hex_digit(n as int)]);
    r
}

/// Appends `b` as a C literal.
fn push_byte_text(s: &mut String, b: u8)
    ensures
        final(s)@ == old(s)@ + byte_text(b),
{
    let prefix: &'static str = "0x";
    proof {
        reveal_strlit("0x");
    }
    s.append(prefix);
    s.append(digit_text(b / 16));
    s.append(digit_text(b % 16));
    assert(final(s)@ =~= old(s)@ + byte_text(b));
}

/// The bytes as a comma-separated list of C literals, twelve per line.
pub fn hex_bytes(values: &[u8]) -> (r: String)
    ensures
        r@ == hex_listing(values@),
{
    let mut text = String::new();
    if values.len() == 0 {
        return text;
    }
    push_byte_text(&mut text, values[0]);
    proof {
        assert(values@.subrange(0, 1) =~= seq![values@[0]]);
    }
    let mut i: usize = 1;
    let mut col: usize = 0;
    while i < values.len()
        invariant
            1 <= i <= values@.len(),
            col == (i - 1) % 12,
            text@ == hex_listing(values@.subrange(0, i as int)),
        decreases values@.len() - i,
    {
        proof {
            assert(values@.subrange(0, i as int + 1).drop_last() =~= values@.subrange(0, i as int));
        }
        col += 1;
        if col == 12 {
            let brk: &'static str = ",\n\t";
            proof {
                reveal_strlit(",\n\t");
            }
            text.append(brk);
            col = 0;
        } else {
            let sep: &'static str = ", ";
            proof {
                reveal_strlit(", ");
            }
            text.append(sep);
        }
        push_byte_text(&mut text, values[i]);
        i += 1;
    }
    proof {
        assert(values@.subrange(0, values@.len() as int) =~= values@);
    }
    text
}

} // verus!
