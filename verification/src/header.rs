//! The fixed-prefix container header and its flag word.

use crate::utils::write_u32;
use vstd::bytes::spec_u32_to_le_bytes;
use vstd::prelude::*;

verus! {

/// The decoded flag word of the header.
///
/// Wire layout of the `u32` flag word: bit 0 is `compressed_snp_blocks`,
/// bits 2..=3 select the record layout, bit 31 is `sample_id_present`.
#[derive(Clone, Copy, Debug, Default, PartialEq, Eq, Structural)]
pub struct HeaderFlags {
    pub compressed_snp_blocks: bool,
    pub layout_id: u8,
    pub sample_id_present: bool,
}

/// The decoded fixed-prefix header of a container.
#[derive(Clone, Copy, Debug, Default, PartialEq, Eq, Structural)]
pub struct Header {
    pub start_data_offset: u32,
    pub header_size: u32,
    pub variant_num: u32,
    pub variant_count: u32,
    pub sample_num: u32,
    pub header_flags: HeaderFlags,
}

/// The flags encoded in the wire flag word `value`.
pub open spec fn spec_flags_from_u32(value: u32) -> HeaderFlags {
    HeaderFlags {
        compressed_snp_blocks: value & 1 == 1,
        layout_id: ((value >> 2) & 3) as u8,
        sample_id_present: (value >> 31) & 1 == 1,
    }
}

/// The wire flag word that encodes `flags`.
pub open spec fn spec_flags_to_u32(flags: HeaderFlags) -> u32 {
    ((if flags.sample_id_present {
        0x8000_0000u32
    } else {
        0u32
    }) | (if flags.compressed_snp_blocks {
        1u32
    } else {
        0u32
    }) | ((flags.layout_id as u32) << 2)) as u32
}

/// The four magic bytes of the format tag.
pub open spec fn spec_magic() -> Seq<u8> {
    seq![0x62u8, 0x67u8, 0x65u8, 0x6eu8]
}

/// The 24 bytes that `write_header` emits for `h`: the four offset and count
/// words, the magic tag and the flag word. The reserved area of a header
/// whose `header_size` exceeds 20 is not re-emitted.
pub open spec fn spec_encode_header(h: Header) -> Seq<u8> {
    spec_u32_to_le_bytes(h.start_data_offset) + spec_u32_to_le_bytes(h.header_size)
        + spec_u32_to_le_bytes(h.variant_num) + spec_u32_to_le_bytes(h.sample_num) + spec_magic()
        + spec_u32_to_le_bytes(spec_flags_to_u32(h.header_flags))
}

/// A flag word only has two bits for the layout, so a round trip through the
/// wire form needs the layout below 4.
pub proof fn lemma_flags_roundtrip(flags: HeaderFlags)
    requires
        flags.layout_id < 4,
    ensures
        spec_flags_from_u32(spec_flags_to_u32(flags)) == flags,
{
    let s: u32 = if flags.sample_id_present {
        1
    } else {
        0
    };
    let c: u32 = if flags.compressed_snp_blocks {
        1
    } else {
        0
    };
    let l: u32 = flags.layout_id as u32;
    let w: u32 = ((if flags.sample_id_present {
        0x8000_0000u32
    } else {
        0u32
    }) | c | (l << 2)) as u32;
    assert((w & 1 == 1) == (c == 1) && ((w >> 2) & 3) == l && ((w >> 31) & 1 == 1) == (s == 1))
        by (bit_vector)
        requires
            c <= 1,
            s <= 1,
            l < 4,
            w == ((if s == 1 {
                0x8000_0000u32
            } else {
                0u32
            }) | c | (l << 2)) as u32,
    ;
}

impl HeaderFlags {
    /// Decodes a wire flag word.
    pub fn from_u32(value: u32) -> (r: Result<HeaderFlags, crate::error::BgenError>)
        ensures
            r == Ok::<HeaderFlags, crate::error::BgenError>(spec_flags_from_u32(value)),
    {
        let compressed_snp_blocks = (value & 1) == 1;
        let sample_id_present = ((value >> 31) & 1) == 1;
        let layout_id = ((value >> 2) & 3) as u8;
        proof {
            assert((value >> 2) & 3 < 256) by (bit_vector);
        }
        Ok(HeaderFlags { compressed_snp_blocks, layout_id, sample_id_present })
    }

    /// Encodes the wire flag word.
    pub fn to_u32(&self) -> (r: u32)
        ensures
            r == spec_flags_to_u32(*self),
    {
        let s: u32 = if self.sample_id_present {
            0x8000_0000
        } else {
            0
        };
        let c: u32 = if self.compressed_snp_blocks {
            1
        } else {
            0
        };
        s | c | ((self.layout_id as u32) << 2)
    }
}

impl Header {
    /// Appends the header wire bytes to `out`.
    pub fn write_header(&self, out: &mut Vec<u8>)
        ensures
            final(out)@ == old(out)@ + spec_encode_header(*self),
    {
        write_u32(out, self.start_data_offset);
        write_u32(out, self.header_size);
        write_u32(out, self.variant_num);
        write_u32(out, self.sample_num);
        out.push(0x62);
        out.push(0x67);
        out.push(0x65);
        out.push(0x6e);
        write_u32(out, self.header_flags.to_u32());
        proof {
            assert(out@ =~= old(out)@ + spec_encode_header(*self));
        }
    }
}

} // verus!
