//! One variant record: its metadata, its probability payload, and the wire
//! codec for both.
//!
//! The wire layout of a record is a sequence of length-prefixed fields
//! followed by the probability payload. The payload travels zlib-compressed
//! when the header flags say so; its decompressed body is described by
//! [`spec_parse_db_body`] and [`spec_encode_db_body`].

use crate::bits::{pack_chunks, pow256, unpack_chunks};
use crate::error::BgenError;
use crate::utils::{deflate_of, inflate_of, spec_str16, spec_str32};
use vstd::bytes::{
    spec_u16_from_le_bytes, spec_u16_to_le_bytes, spec_u32_from_le_bytes, spec_u32_to_le_bytes,
};
use vstd::prelude::*;
use vstd::utf8::valid_utf8;

verus! {

/// The decoded probability payload of one variant.
#[derive(Clone, Debug)]
pub struct DataBlock {
    pub number_individuals: u32,
    pub number_alleles: u16,
    pub minimum_ploidy: u8,
    pub maximum_ploidy: u8,
    pub ploidy_missingness: Vec<u8>,
    pub phased: bool,
    pub bytes_probability: u8,
    pub probabilities: Vec<u32>,
}

/// The mathematical value of a [`DataBlock`].
#[verifier::ext_equal]
pub struct DataBlockV {
    pub number_individuals: u32,
    pub number_alleles: u16,
    pub minimum_ploidy: u8,
    pub maximum_ploidy: u8,
    pub ploidy_missingness: Seq<u8>,
    pub phased: bool,
    pub bytes_probability: u8,
    pub probabilities: Seq<u32>,
}

impl View for DataBlock {
    type V = DataBlockV;

    open spec fn view(&self) -> DataBlockV {
        DataBlockV {
            number_individuals: self.number_individuals,
            number_alleles: self.number_alleles,
            minimum_ploidy: self.minimum_ploidy,
            maximum_ploidy: self.maximum_ploidy,
            ploidy_missingness: self.ploidy_missingness@,
            phased: self.phased,
            bytes_probability: self.bytes_probability,
            probabilities: self.probabilities@,
        }
    }
}

/// The all-zero payload that skip mode substitutes for a payload it did not
/// decode.
pub open spec fn spec_default_data_block() -> DataBlockV {
    DataBlockV {
        number_individuals: 0,
        number_alleles: 0,
        minimum_ploidy: 0,
        maximum_ploidy: 0,
        ploidy_missingness: Seq::empty(),
        phased: false,
        bytes_probability: 0,
        probabilities: Seq::empty(),
    }
}

impl Default for DataBlock {
    /// The payload that skip mode yields.
    fn default() -> (r: Self)
        ensures
            r@ == spec_default_data_block(),
    {
        let r = DataBlock {
            number_individuals: 0,
            number_alleles: 0,
            minimum_ploidy: 0,
            maximum_ploidy: 0,
            ploidy_missingness: Vec::new(),
            phased: false,
            bytes_probability: 0,
            probabilities: Vec::new(),
        };
        proof {
            assert(r@.ploidy_missingness =~= spec_default_data_block().ploidy_missingness);
            assert(r@.probabilities =~= spec_default_data_block().probabilities);
        }
        r
    }
}

impl PartialEq for DataBlock {
    /// Field-wise equality.
    fn eq(&self, other: &Self) -> (r: bool) {
        let r = self.number_individuals == other.number_individuals && self.number_alleles
            == other.number_alleles && self.minimum_ploidy == other.minimum_ploidy
            && self.maximum_ploidy == other.maximum_ploidy && self.ploidy_missingness
            == other.ploidy_missingness && self.phased == other.phased && self.bytes_probability
            == other.bytes_probability && self.probabilities == other.probabilities;
        proof {
            if r {
                assert(self.ploidy_missingness@ =~= other.ploidy_missingness@);
                assert(self.probabilities@ =~= other.probabilities@);
                assert(self@ =~= other@);
            } else {
                if self@ == other@ {
                    assert(self.ploidy_missingness@ == other.ploidy_missingness@);
                    assert(self.probabilities@ == other.probabilities@);
                }
            }
        }
        r
    }
}

impl Eq for DataBlock {

}

impl vstd::std_specs::cmp::PartialEqSpecImpl for DataBlock {
    open spec fn obeys_eq_spec() -> bool {
        true
    }

    open spec fn eq_spec(&self, other: &Self) -> bool {
        self@ == other@
    }
}

/// One decoded variant record.
///
/// `file_start_position` and `byte_size` describe where the record sat in its
/// source; they are positional metadata and do not take part in equality.
#[derive(Clone, Debug)]
pub struct VariantData {
    pub variants_id: Vec<u8>,
    pub rsid: Vec<u8>,
    pub chr: Vec<u8>,
    pub pos: u32,
    pub number_alleles: u16,
    pub alleles: Vec<Vec<u8>>,
    pub file_start_position: usize,
    pub size_in_bytes: usize,
    pub data_block: DataBlock,
}

/// The mathematical value of a [`VariantData`].
#[verifier::ext_equal]
pub struct VariantDataV {
    pub variants_id: Seq<u8>,
    pub rsid: Seq<u8>,
    pub chr: Seq<u8>,
    pub pos: u32,
    pub number_alleles: u16,
    pub alleles: Seq<Seq<u8>>,
    pub file_start_position: int,
    pub size_in_bytes: int,
    pub data_block: DataBlockV,
}

impl View for VariantData {
    type V = VariantDataV;

    open spec fn view(&self) -> VariantDataV {
        VariantDataV {
            variants_id: self.variants_id@,
            rsid: self.rsid@,
            chr: self.chr@,
            pos: self.pos,
            number_alleles: self.number_alleles,
            alleles: self.alleles.deep_view(),
            file_start_position: self.file_start_position as int,
            size_in_bytes: self.size_in_bytes as int,
            data_block: self.data_block@,
        }
    }
}

/// `v` with its positional metadata replaced.
pub open spec fn spec_with_pos(v: VariantDataV, start: int, size: int) -> VariantDataV {
    VariantDataV { file_start_position: start, size_in_bytes: size, ..v }
}

/// Record equality on the logical fields: everything but the positional
/// metadata.
pub open spec fn spec_core_eq(a: VariantDataV, b: VariantDataV) -> bool {
    spec_with_pos(a, 0, 0) == spec_with_pos(b, 0, 0)
}

impl PartialEq for VariantData {
    /// Equality on the logical fields; the positional metadata is ignored.
    fn eq(&self, other: &Self) -> (r: bool) {
        let r = self.variants_id == other.variants_id && self.rsid == other.rsid && self.chr
            == other.chr && self.pos == other.pos && self.number_alleles == other.number_alleles
            && self.alleles_eq(other) && self.data_block == other.data_block;
        proof {
            if r {
                assert(self.variants_id@ =~= other.variants_id@);
                assert(self.rsid@ =~= other.rsid@);
                assert(self.chr@ =~= other.chr@);
                assert(self.alleles.deep_view() =~= other.alleles.deep_view());
                assert(spec_with_pos(self@, 0, 0) =~= spec_with_pos(other@, 0, 0));
            } else {
                if spec_core_eq(self@, other@) {
                    assert(self.variants_id@ == other.variants_id@);
                    assert(self.rsid@ == other.rsid@);
                    assert(self.chr@ == other.chr@);
                    assert(self.alleles.deep_view() == other.alleles.deep_view());
                    assert(self@.data_block == other@.data_block);
                }
            }
        }
        r
    }
}

impl VariantData {
    /// Whether the two allele lists hold the same strings in the same order.
    fn alleles_eq(&self, other: &Self) -> (r: bool)
        ensures
            r == (self.alleles.deep_view() == other.alleles.deep_view()),
    {
        proof {
            assert(self.alleles.deep_view().len() == self.alleles@.len());
            assert(other.alleles.deep_view().len() == other.alleles@.len());
        }
        if self.alleles.len() != other.alleles.len() {
            return false;
        }
        let mut i: usize = 0;
        while i < self.alleles.len()
            invariant
                i <= self.alleles@.len(),
                self.alleles@.len() == other.alleles@.len(),
                forall|j: int| 0 <= j < i ==> self.alleles@[j]@ == other.alleles@[j]@,
            decreases self.alleles@.len() - i,
        {
            let same = self.alleles[i] == other.alleles[i];
            proof {
                if same {
                    assert(self.alleles@[i as int]@ =~= other.alleles@[i as int]@);
                }
            }
            if !same {
                proof {
                    assert(self.alleles.deep_view()[i as int] == self.alleles@[i as int]@);
                    assert(other.alleles.deep_view()[i as int] == other.alleles@[i as int]@);
                    if self.alleles@[i as int]@ == other.alleles@[i as int]@ {
                        assert(self.alleles@[i as int]@ =~= other.alleles@[i as int]@);
                    }
                }
                return false;
            }
            i = i + 1;
        }
        proof {
            assert(self.alleles.deep_view() =~= other.alleles.deep_view());
        }
        true
    }
}

impl Eq for VariantData {

}

impl vstd::std_specs::cmp::PartialEqSpecImpl for VariantData {
    open spec fn obeys_eq_spec() -> bool {
        true
    }

    open spec fn eq_spec(&self, other: &Self) -> bool {
        spec_core_eq(self@, other@)
    }
}

/// A payload whose fields are consistent with one another and with the wire
/// form: the ploidy table matches the declared individual count, the bit
/// width is a positive multiple of 8 up to 32, every probability fits the
/// width, and the encoded body length fits its `u32` prefix.
pub open spec fn wf_data_block(d: DataBlockV) -> bool {
    &&& d.ploidy_missingness.len() == d.number_individuals as int
    &&& 0 < d.bytes_probability <= 32
    &&& d.bytes_probability % 8 == 0
    &&& forall|i: int|
        0 <= i < d.probabilities.len() ==> (d.probabilities[i] as int) < pow256(
            d.bytes_probability as int / 8,
        )
    &&& 10 + d.ploidy_missingness.len() + d.probabilities.len() * (d.bytes_probability as int / 8)
        <= u32::MAX
}

/// A record whose string fields fit their length prefixes and are valid
/// UTF-8, whose allele list matches its declared count, and whose payload is
/// well-formed.
pub open spec fn wf_variant(v: VariantDataV) -> bool {
    &&& v.variants_id.len() <= u16::MAX && valid_utf8(v.variants_id)
    &&& v.rsid.len() <= u16::MAX && valid_utf8(v.rsid)
    &&& v.chr.len() <= u16::MAX && valid_utf8(v.chr)
    &&& v.alleles.len() == v.number_alleles as int
    &&& forall|i: int|
        0 <= i < v.alleles.len() ==> #[trigger] v.alleles[i].len() <= u32::MAX && valid_utf8(
            v.alleles[i],
        )
    &&& wf_data_block(v.data_block)
}

// ---------------------------------------------------------------------------
// Wire codec, specification level
// ---------------------------------------------------------------------------
/// Reads a `u16` at `pos`.
pub open spec fn spec_parse_u16(b: Seq<u8>, pos: int) -> Result<(u16, int), BgenError> {
    if pos + 2 <= b.len() {
        Ok((spec_u16_from_le_bytes(b.subrange(pos, pos + 2)), pos + 2))
    } else {
        Err(BgenError::UnexpectedEndOfInput)
    }
}

/// Reads a `u32` at `pos`.
pub open spec fn spec_parse_u32(b: Seq<u8>, pos: int) -> Result<(u32, int), BgenError> {
    if pos + 4 <= b.len() {
        Ok((spec_u32_from_le_bytes(b.subrange(pos, pos + 4)), pos + 4))
    } else {
        Err(BgenError::UnexpectedEndOfInput)
    }
}

/// Reads a `u16`-length-prefixed UTF-8 string at `pos`.
pub open spec fn spec_parse_str16(b: Seq<u8>, pos: int) -> Result<(Seq<u8>, int), BgenError> {
    match spec_parse_u16(b, pos) {
        Err(e) => Err(e),
        Ok((n, p)) => {
            if p + n <= b.len() {
                let s = b.subrange(p, p + n);
                if valid_utf8(s) {
                    Ok((s, p + n))
                } else {
                    Err(BgenError::InvalidUtf8)
                }
            } else {
                Err(BgenError::UnexpectedEndOfInput)
            }
        },
    }
}

/// Reads a `u32`-length-prefixed UTF-8 string at `pos`.
pub open spec fn spec_parse_str32(b: Seq<u8>, pos: int) -> Result<(Seq<u8>, int), BgenError> {
    match spec_parse_u32(b, pos) {
        Err(e) => Err(e),
        Ok((n, p)) => {
            if p + n <= b.len() {
                let s = b.subrange(p, p + n);
                if valid_utf8(s) {
                    Ok((s, p + n))
                } else {
                    Err(BgenError::InvalidUtf8)
                }
            } else {
                Err(BgenError::UnexpectedEndOfInput)
            }
        },
    }
}

/// Reads `k` `u32`-length-prefixed strings at `pos`.
pub open spec fn spec_parse_alleles(b: Seq<u8>, pos: int, k: nat) -> Result<
    (Seq<Seq<u8>>, int),
    BgenError,
>
    decreases k,
{
    if k == 0 {
        Ok((Seq::empty(), pos))
    } else {
        match spec_parse_str32(b, pos) {
            Err(e) => Err(e),
            Ok((s, p)) => match spec_parse_alleles(b, p, (k - 1) as nat) {
                Err(e) => Err(e),
                Ok((rest, q)) => Ok((seq![s] + rest, q)),
            },
        }
    }
}

/// The decompressed payload body of one variant, parsed.
pub open spec fn spec_parse_db_body(d: Seq<u8>) -> Result<DataBlockV, BgenError> {
    if d.len() < 8 {
        Err(BgenError::UnexpectedEndOfInput)
    } else {
        let n_ind = spec_u32_from_le_bytes(d.subrange(0, 4));
        let n_alleles = spec_u16_from_le_bytes(d.subrange(4, 6));
        if d.len() < 10 + n_ind {
            Err(BgenError::UnexpectedEndOfInput)
        } else {
            let ploidy = d.subrange(8, 8 + n_ind);
            let phased_byte = d[8 + n_ind];
            let w = d[9 + n_ind];
            if phased_byte > 1 {
                Err(BgenError::PhasedByteInvalid)
            } else if w == 0 {
                Err(BgenError::ZeroBitWidth)
            } else if w > 32 {
                Err(BgenError::UnsupportedBitWidth)
            } else if w % 8 != 0 && 8 * (d.len() - (10 + n_ind)) + 31 > usize::MAX {
                Err(BgenError::LengthOverflow)
            } else {
                let rest = d.skip(10 + n_ind);
                Ok(
                    DataBlockV {
                        number_individuals: n_ind,
                        number_alleles: n_alleles,
                        minimum_ploidy: d[6],
                        maximum_ploidy: d[7],
                        ploidy_missingness: ploidy,
                        phased: phased_byte == 1,
                        bytes_probability: w,
                        probabilities: if w % 8 == 0 {
                            unpack_chunks(rest, w as int / 8)
                        } else {
                            crate::bits::unpack_bits(rest, w as int)
                        },
                    },
                )
            }
        }
    }
}

/// The payload body of one variant, encoded (not yet compressed).
pub open spec fn spec_encode_db_body(d: DataBlockV) -> Seq<u8> {
    spec_u32_to_le_bytes(d.number_individuals) + spec_u16_to_le_bytes(d.number_alleles) + seq![
        d.minimum_ploidy,
        d.maximum_ploidy,
    ] + d.ploidy_missingness + seq![
        (if d.phased {
            1u8
        } else {
            0u8
        }),
        d.bytes_probability,
    ] + pack_chunks(d.probabilities, d.bytes_probability as int / 8)
}

/// The payload of one variant as it travels on the wire: a `u32` total
/// length, then (when compressed) a `u32` uncompressed length and the zlib
/// stream, or else the body verbatim.
pub open spec fn spec_encode_payload(d: DataBlockV, compressed: bool) -> Seq<u8> {
    let body = spec_encode_db_body(d);
    if compressed {
        let z = deflate_of(body);
        spec_u32_to_le_bytes((z.len() + 4) as u32) + spec_u32_to_le_bytes(body.len() as u32) + z
    } else {
        spec_u32_to_le_bytes(body.len() as u32) + body
    }
}

/// Whether the encoded payload lengths fit their `u32` prefixes.
pub open spec fn spec_payload_fits(d: DataBlockV, compressed: bool) -> bool {
    let body = spec_encode_db_body(d);
    if compressed {
        body.len() <= u32::MAX && deflate_of(body).len() + 4 <= u32::MAX
    } else {
        body.len() <= u32::MAX
    }
}

/// Whether the payload can be encoded at all: a sound bit width and lengths
/// that fit their prefixes.
pub open spec fn spec_db_encodable(d: DataBlockV, compressed: bool) -> bool {
    &&& 0 < d.bytes_probability <= 32
    &&& d.bytes_probability % 8 == 0
    &&& spec_payload_fits(d, compressed)
}

/// The error a payload that cannot be encoded gets: the width faults come
/// first, then the length prefixes.
pub open spec fn spec_db_encode_error(d: DataBlockV) -> BgenError {
    if d.bytes_probability == 0 {
        BgenError::ZeroBitWidth
    } else if d.bytes_probability > 32 || d.bytes_probability % 8 != 0 {
        BgenError::UnsupportedBitWidth
    } else {
        BgenError::LengthOverflow
    }
}

/// Whether every string field of the record fits its length prefix.
pub open spec fn spec_record_strings_fit(v: VariantDataV) -> bool {
    &&& v.variants_id.len() <= u16::MAX
    &&& v.rsid.len() <= u16::MAX
    &&& v.chr.len() <= u16::MAX
    &&& forall|i: int| 0 <= i < v.alleles.len() ==> #[trigger] v.alleles[i].len() <= u32::MAX
}

/// The error a record that cannot be encoded gets: an oversized string
/// field faults before the payload does.
pub open spec fn spec_record_encode_error(v: VariantDataV) -> BgenError {
    if !spec_record_strings_fit(v) {
        BgenError::LengthOverflow
    } else {
        spec_db_encode_error(v.data_block)
    }
}

/// The wire form of `alleles`.
pub open spec fn spec_encode_alleles(alleles: Seq<Seq<u8>>) -> Seq<u8>
    decreases alleles.len(),
{
    if alleles.len() == 0 {
        Seq::empty()
    } else {
        spec_str32(alleles[0]) + spec_encode_alleles(alleles.drop_first())
    }
}

/// The wire form of one record (layout 2): three `u16`-prefixed strings, the
/// position, the allele count, the alleles, and the payload.
pub open spec fn spec_encode_record(v: VariantDataV, compressed: bool) -> Seq<u8> {
    spec_str16(v.variants_id) + spec_str16(v.rsid) + spec_str16(v.chr) + spec_u32_to_le_bytes(v.pos)
        + spec_u16_to_le_bytes(v.number_alleles) + spec_encode_alleles(v.alleles)
        + spec_encode_payload(v.data_block, compressed)
}

/// One record parsed at position `pos` of `b` (layout 2).
///
/// On success the returned record carries `file_start_position == pos` and
/// `size_in_bytes` equal to the number of bytes consumed; the returned
/// position is the end of the record. With `decode_payload` false the
/// payload is skipped and the default data block is substituted.
///
/// The compressed payload body is `inflate_of` of the stored zlib stream; a
/// decompressor may still fail on bytes that are not a well-formed stream,
/// which is the one failure this function does not model.
pub open spec fn spec_parse_record(
    b: Seq<u8>,
    at: int,
    compressed: bool,
    decode_payload: bool,
) -> Result<(VariantDataV, int), BgenError> {
    match spec_parse_str16(b, at) {
        Err(e) => Err(e),
        Ok((id, p1)) => match spec_parse_str16(b, p1) {
            Err(e) => Err(e),
            Ok((rsid, p2)) => match spec_parse_str16(b, p2) {
                Err(e) => Err(e),
                Ok((chr, p3)) => match spec_parse_u32(b, p3) {
                    Err(e) => Err(e),
                    Ok((pos, p4)) => match spec_parse_u16(b, p4) {
                        Err(e) => Err(e),
                        Ok((n_alleles, p5)) => match spec_parse_alleles(b, p5, n_alleles as nat) {
                            Err(e) => Err(e),
                            Ok((alleles, p6)) => match spec_parse_u32(b, p6) {
                                Err(e) => Err(e),
                                Ok((length, p7)) => {
                                    if (compressed && decode_payload && length < 4) || p7 + length
                                        > b.len() {
                                        Err(BgenError::UnexpectedEndOfInput)
                                    } else {
                                        let end = p7 + length;
                                        let db = if !decode_payload {
                                            Ok(spec_default_data_block())
                                        } else if compressed {
                                            let unc_len = spec_u32_from_le_bytes(
                                                b.subrange(p7, p7 + 4),
                                            );
                                            let comp = b.subrange(p7 + 4, end);
                                            if inflate_of(comp).len() < unc_len {
                                                Err(BgenError::DecompressionFailed)
                                            } else {
                                                spec_parse_db_body(
                                                    inflate_of(comp).take(unc_len as int),
                                                )
                                            }
                                        } else {
                                            spec_parse_db_body(b.subrange(p7, end))
                                        };
                                        match db {
                                            Err(e) => Err(e),
                                            Ok(block) => Ok(
                                                (
                                                    VariantDataV {
                                                        variants_id: id,
                                                        rsid,
                                                        chr,
                                                        pos,
                                                        number_alleles: n_alleles,
                                                        alleles,
                                                        file_start_position: at,
                                                        size_in_bytes: end - at,
                                                        data_block: block,
                                                    },
                                                    end,
                                                ),
                                            ),
                                        }
                                    }
                                },
                            },
                        },
                    },
                },
            },
        },
    }
}

/// Whether every length-prefixed part of the record fits its prefix and the
/// payload can be encoded.
pub open spec fn spec_record_fits(v: VariantDataV, compressed: bool) -> bool {
    &&& v.variants_id.len() <= u16::MAX
    &&& v.rsid.len() <= u16::MAX
    &&& v.chr.len() <= u16::MAX
    &&& forall|i: int| 0 <= i < v.alleles.len() ==> #[trigger] v.alleles[i].len() <= u32::MAX
    &&& 0 < v.data_block.bytes_probability <= 32
    &&& v.data_block.bytes_probability % 8 == 0
    &&& spec_payload_fits(v.data_block, compressed)
}

/// Parses the decompressed payload body of one variant.
pub fn build_from_uncompressed_block(block: &Vec<u8>) -> (r: Result<DataBlock, BgenError>)
    ensures
        match r {
            Ok(d) => spec_parse_db_body(block@) == Ok::<DataBlockV, BgenError>(d@),
            Err(e) => spec_parse_db_body(block@) == Err::<DataBlockV, BgenError>(e),
        },
{
    if block.len() < 8 {
        return Err(BgenError::UnexpectedEndOfInput);
    }
    let number_individuals = vstd::bytes::u32_from_le_bytes(
        vstd::slice::slice_subrange(block.as_slice(), 0, 4),
    );
    let number_alleles = vstd::bytes::u16_from_le_bytes(
        vstd::slice::slice_subrange(block.as_slice(), 4, 6),
    );
    let minimum_ploidy = block[6];
    let maximum_ploidy = block[7];
    if (block.len() as u64) < 10u64 + (number_individuals as u64) {
        return Err(BgenError::UnexpectedEndOfInput);
    }
    let n_ind = number_individuals as usize;
    let ploidy_missingness = vstd::slice::slice_to_vec(
        vstd::slice::slice_subrange(block.as_slice(), 8, 8 + n_ind),
    );
    let phased_byte = block[8 + n_ind];
    let bytes_probability = block[9 + n_ind];
    if phased_byte > 1 {
        return Err(BgenError::PhasedByteInvalid);
    }
    if bytes_probability == 0 {
        return Err(BgenError::ZeroBitWidth);
    }
    if bytes_probability > 32 {
        return Err(BgenError::UnsupportedBitWidth);
    }
    let rest = vstd::slice::slice_subrange(block.as_slice(), 10 + n_ind, block.len());
    let probabilities: Vec<u32>;
    if bytes_probability % 8 == 0 {
        probabilities = crate::bits::unpack_chunked(rest, (bytes_probability / 8) as usize);
    } else {
        if rest.len() > (usize::MAX - 31) / 8 {
            proof {
                assert(8 * rest@.len() + 31 > usize::MAX) by (nonlinear_arith)
                    requires
                        rest@.len() > ((usize::MAX - 31) / 8) as int,
                        usize::MAX >= 31,
                        ((usize::MAX - 31) / 8) as int == (usize::MAX as int - 31) / 8,
                ;
            }
            return Err(BgenError::LengthOverflow);
        }
        proof {
            vstd::arithmetic::div_mod::lemma_fundamental_div_mod(usize::MAX as int - 31, 8);
            vstd::arithmetic::div_mod::lemma_mod_bound(usize::MAX as int - 31, 8);
            assert(8 * rest@.len() + 31 <= usize::MAX) by (nonlinear_arith)
                requires
                    rest@.len() <= (usize::MAX as int - 31) / 8,
                    8 * ((usize::MAX as int - 31) / 8) <= usize::MAX as int - 31,
            ;
        }
        probabilities = crate::bits::unpack_bitstream(rest, bytes_probability as usize);
    }
    let d = DataBlock {
        number_individuals,
        number_alleles,
        minimum_ploidy,
        maximum_ploidy,
        ploidy_missingness,
        phased: phased_byte == 1,
        bytes_probability,
        probabilities,
    };
    proof {
        assert(rest@ =~= block@.skip(10 + number_individuals as int));
        assert(d@ =~= spec_parse_db_body(block@)->Ok_0);
    }
    Ok(d)
}

impl DataBlock {
    /// Encodes the payload body (still uncompressed).
    pub fn encode_body(&self) -> (r: Result<Vec<u8>, BgenError>)
        ensures
            match r {
                Ok(body) => {
                    &&& 0 < self.bytes_probability <= 32
                    &&& self.bytes_probability % 8 == 0
                    &&& body@ == spec_encode_db_body(self@)
                },
                Err(e) => {
                    &&& !(0 < self.bytes_probability <= 32 && self.bytes_probability % 8 == 0)
                    &&& e == spec_db_encode_error(self@)
                },
            },
    {
        if self.bytes_probability == 0 {
            return Err(BgenError::ZeroBitWidth);
        }
        if self.bytes_probability > 32 || self.bytes_probability % 8 != 0 {
            return Err(BgenError::UnsupportedBitWidth);
        }
        let mut body: Vec<u8> = Vec::new();
        crate::utils::write_u32(&mut body, self.number_individuals);
        crate::utils::write_u16(&mut body, self.number_alleles);
        body.push(self.minimum_ploidy);
        body.push(self.maximum_ploidy);
        crate::utils::extend_bytes(&mut body, self.ploidy_missingness.as_slice());
        body.push(if self.phased {
            1
        } else {
            0
        });
        body.push(self.bytes_probability);
        let mut packed = crate::bits::pack_chunked(
            &self.probabilities,
            (self.bytes_probability / 8) as usize,
        );
        body.append(&mut packed);
        proof {
            assert(body@ =~= spec_encode_db_body(self@));
        }
        Ok(body)
    }
}

/// Encodes and appends the wire payload of `data_block`: its length prefix,
/// the uncompressed length and the zlib stream when `compressed`, or the
/// body verbatim otherwise.
pub fn write_data_block(out: &mut Vec<u8>, data_block: &DataBlock, compressed: bool) -> (r: Result<
    (),
    BgenError,
>)
    ensures
        match r {
            Ok(()) => {
                &&& spec_db_encodable(data_block@, compressed)
                &&& final(out)@ == old(out)@ + spec_encode_payload(data_block@, compressed)
            },
            Err(e) => {
                &&& !spec_db_encodable(data_block@, compressed)
                &&& e == spec_db_encode_error(data_block@)
                &&& *final(out) == *old(out)
            },
        },
{
    let body = match data_block.encode_body() {
        Ok(b) => b,
        Err(e) => {
            return Err(e);
        },
    };
    if body.len() as u64 > u32::MAX as u64 {
        return Err(BgenError::LengthOverflow);
    }
    if compressed {
        let block = match crate::utils::compress_data(&body) {
            Ok(b) => b,
            Err(e) => {
                return Err(e);
            },
        };
        if block.len() as u64 > (u32::MAX as u64) - 4 {
            return Err(BgenError::LengthOverflow);
        }
        crate::utils::write_u32(out, (block.len() as u32) + 4);
        crate::utils::write_u32(out, body.len() as u32);
        crate::utils::extend_bytes(out, block.as_slice());
        proof {
            assert(out@ =~= old(out)@ + spec_encode_payload(data_block@, compressed));
        }
    } else {
        crate::utils::write_u32(out, body.len() as u32);
        crate::utils::extend_bytes(out, body.as_slice());
        proof {
            assert(out@ =~= old(out)@ + spec_encode_payload(data_block@, compressed));
        }
    }
    Ok(())
}

/// The step that appending one more allele takes in the wire form.
pub proof fn lemma_encode_alleles_snoc(alleles: Seq<Seq<u8>>, a: Seq<u8>)
    ensures
        spec_encode_alleles(alleles.push(a)) == spec_encode_alleles(alleles) + spec_str32(a),
    decreases alleles.len(),
{
    if alleles.len() == 0 {
        assert(alleles.push(a).drop_first() =~= Seq::<Seq<u8>>::empty());
        assert(alleles.push(a)[0] == a);
        assert(spec_encode_alleles(alleles.push(a)) == spec_str32(a) + spec_encode_alleles(
            Seq::empty(),
        ));
        assert(spec_str32(a) + Seq::<u8>::empty() =~= spec_str32(a));
        assert(Seq::<u8>::empty() + spec_str32(a) =~= spec_str32(a));
    } else {
        let head = spec_str32(alleles[0]);
        let dropped = alleles.drop_first();
        assert(alleles.push(a)[0] == alleles[0]);
        assert(alleles.push(a).drop_first() =~= dropped.push(a));
        lemma_encode_alleles_snoc(dropped, a);
        assert(spec_encode_alleles(alleles.push(a)) == head + (spec_encode_alleles(dropped)
            + spec_str32(a)));
        assert(head + (spec_encode_alleles(dropped) + spec_str32(a)) =~= (head
            + spec_encode_alleles(dropped)) + spec_str32(a));
    }
}

impl VariantData {
    /// Encodes and appends the full wire form of this record.
    ///
    /// On an error the buffer may hold a partial record: a writer pass aborts
    /// on the first error and leaves its output as it stands.
    pub fn write_self(&self, out: &mut Vec<u8>, compressed: bool) -> (r: Result<(), BgenError>)
        ensures
            match r {
                Ok(()) => {
                    &&& spec_record_fits(self@, compressed)
                    &&& final(out)@ == old(out)@ + spec_encode_record(self@, compressed)
                },
                Err(e) => {
                    &&& !spec_record_fits(self@, compressed)
                    &&& e == spec_record_encode_error(self@)
                },
            },
    {
        let ghost start = out@;
        match crate::utils::write_u16_sized_string(out, &self.variants_id) {
            Ok(()) => (),
            Err(e) => {
                return Err(e);
            },
        }
        match crate::utils::write_u16_sized_string(out, &self.rsid) {
            Ok(()) => (),
            Err(e) => {
                return Err(e);
            },
        }
        match crate::utils::write_u16_sized_string(out, &self.chr) {
            Ok(()) => (),
            Err(e) => {
                return Err(e);
            },
        }
        crate::utils::write_u32(out, self.pos);
        crate::utils::write_u16(out, self.number_alleles);
        let ghost before_alleles = out@;
        let mut j: usize = 0;
        while j < self.alleles.len()
            invariant
                j <= self.alleles@.len(),
                out@ == before_alleles + spec_encode_alleles(self.alleles.deep_view().take(j as int)),
                forall|i: int| 0 <= i < j ==> #[trigger] self.alleles.deep_view()[i].len()
                    <= u32::MAX,
                before_alleles == start + spec_str16(self.variants_id@) + spec_str16(self.rsid@)
                    + spec_str16(self.chr@) + vstd::bytes::spec_u32_to_le_bytes(self.pos)
                    + vstd::bytes::spec_u16_to_le_bytes(self.number_alleles),
                self.variants_id@.len() <= u16::MAX,
                self.rsid@.len() <= u16::MAX,
                self.chr@.len() <= u16::MAX,
                start == old(out)@,
            decreases self.alleles@.len() - j,
        {
            let ghost prefix = out@;
            match crate::utils::write_u32_sized_string(out, &self.alleles[j]) {
                Ok(()) => (),
                Err(e) => {
                    proof {
                        assert(self@.alleles[j as int] == self.alleles@[j as int]@);
                    }
                    return Err(e);
                },
            }
            proof {
                lemma_encode_alleles_snoc(self.alleles.deep_view().take(j as int),
                    self.alleles.deep_view()[j as int]);
                assert(self.alleles.deep_view().take(j + 1) =~= self.alleles.deep_view().take(
                    j as int,
                ).push(self.alleles.deep_view()[j as int]));
                assert(out@ =~= before_alleles + spec_encode_alleles(
                    self.alleles.deep_view().take(j + 1),
                ));
            }
            j = j + 1;
        }
        proof {
            assert(self.alleles.deep_view().take(self.alleles@.len() as int)
                =~= self.alleles.deep_view());
        }
        match write_data_block(out, &self.data_block, compressed) {
            Ok(()) => (),
            Err(e) => {
                return Err(e);
            },
        }
        proof {
            assert(out@ =~= old(out)@ + spec_encode_record(self@, compressed));
        }
        Ok(())
    }
}

// ---------------------------------------------------------------------------
// Round trip: parsing what was encoded gives the record back
// ---------------------------------------------------------------------------
/// Reading a `u16` where one was written yields it back.
pub proof fn lemma_parse_u16_exact(b: Seq<u8>, pos: int, x: u16)
    requires
        0 <= pos,
        pos + 2 <= b.len(),
        b.subrange(pos, pos + 2) == spec_u16_to_le_bytes(x),
    ensures
        spec_parse_u16(b, pos) == Ok::<(u16, int), BgenError>((x, pos + 2)),
{
    vstd::bytes::lemma_auto_spec_u16_to_from_le_bytes();
    assert(spec_u16_to_le_bytes(x).len() == 2);
    assert(spec_u16_from_le_bytes(spec_u16_to_le_bytes(x)) == x);
}

/// Reading a `u32` where one was written yields it back.
pub proof fn lemma_parse_u32_exact(b: Seq<u8>, pos: int, x: u32)
    requires
        0 <= pos,
        pos + 4 <= b.len(),
        b.subrange(pos, pos + 4) == spec_u32_to_le_bytes(x),
    ensures
        spec_parse_u32(b, pos) == Ok::<(u32, int), BgenError>((x, pos + 4)),
{
    vstd::bytes::lemma_auto_spec_u32_to_from_le_bytes();
    assert(spec_u32_to_le_bytes(x).len() == 4);
    assert(spec_u32_from_le_bytes(spec_u32_to_le_bytes(x)) == x);
}

/// Reading a `u16`-prefixed string where one was written yields it back.
pub proof fn lemma_parse_str16_exact(b: Seq<u8>, pos: int, s: Seq<u8>)
    requires
        0 <= pos,
        pos + 2 + s.len() <= b.len(),
        b.subrange(pos, pos + 2 + s.len()) == spec_str16(s),
        s.len() <= u16::MAX,
        valid_utf8(s),
    ensures
        spec_parse_str16(b, pos) == Ok::<(Seq<u8>, int), BgenError>((s, pos + 2 + s.len())),
{
    vstd::bytes::lemma_auto_spec_u16_to_from_le_bytes();
    assert(spec_u16_to_le_bytes(s.len() as u16).len() == 2);
    let chunk = b.subrange(pos, pos + 2 + s.len());
    assert(b.subrange(pos, pos + 2) =~= chunk.take(2));
    assert(chunk.take(2) =~= spec_u16_to_le_bytes(s.len() as u16));
    assert(spec_u16_from_le_bytes(spec_u16_to_le_bytes(s.len() as u16)) == s.len() as u16);
    assert(b.subrange(pos + 2, pos + 2 + s.len()) =~= chunk.subrange(2, chunk.len() as int));
    assert(chunk.subrange(2, chunk.len() as int) =~= s);
}

/// Reading a `u32`-prefixed string where one was written yields it back.
pub proof fn lemma_parse_str32_exact(b: Seq<u8>, pos: int, s: Seq<u8>)
    requires
        0 <= pos,
        pos + 4 + s.len() <= b.len(),
        b.subrange(pos, pos + 4 + s.len()) == spec_str32(s),
        s.len() <= u32::MAX,
        valid_utf8(s),
    ensures
        spec_parse_str32(b, pos) == Ok::<(Seq<u8>, int), BgenError>((s, pos + 4 + s.len())),
{
    vstd::bytes::lemma_auto_spec_u32_to_from_le_bytes();
    assert(spec_u32_to_le_bytes(s.len() as u32).len() == 4);
    let chunk = b.subrange(pos, pos + 4 + s.len());
    assert(b.subrange(pos, pos + 4) =~= chunk.take(4));
    assert(chunk.take(4) =~= spec_u32_to_le_bytes(s.len() as u32));
    assert(spec_u32_from_le_bytes(spec_u32_to_le_bytes(s.len() as u32)) == s.len() as u32);
    assert(b.subrange(pos + 4, pos + 4 + s.len()) =~= chunk.subrange(4, chunk.len() as int));
    assert(chunk.subrange(4, chunk.len() as int) =~= s);
}

/// Reading an allele list where one was written yields it back.
pub proof fn lemma_parse_alleles_exact(b: Seq<u8>, pos: int, alleles: Seq<Seq<u8>>)
    requires
        0 <= pos,
        pos + spec_encode_alleles(alleles).len() <= b.len(),
        b.subrange(pos, pos + spec_encode_alleles(alleles).len()) == spec_encode_alleles(alleles),
        forall|i: int|
            0 <= i < alleles.len() ==> #[trigger] alleles[i].len() <= u32::MAX && valid_utf8(
                alleles[i],
            ),
    ensures
        spec_parse_alleles(b, pos, alleles.len() as nat) == Ok::<(Seq<Seq<u8>>, int), BgenError>(
            (alleles, pos + spec_encode_alleles(alleles).len()),
        ),
    decreases alleles.len(),
{
    vstd::bytes::lemma_auto_spec_u32_to_from_le_bytes();
    let enc = spec_encode_alleles(alleles);
    if alleles.len() > 0 {
        assert(spec_u32_to_le_bytes(alleles[0].len() as u32).len() == 4);
    }
    if alleles.len() == 0 {
        assert(enc.len() == 0);
        assert(alleles =~= Seq::<Seq<u8>>::empty());
    } else {
        let head = alleles[0];
        let head_enc = spec_str32(head);
        let rest = alleles.drop_first();
        let rest_enc = spec_encode_alleles(rest);
        assert(enc == head_enc + rest_enc);
        assert(head_enc.len() == 4 + head.len());
        assert(b.subrange(pos, pos + 4 + head.len()) =~= enc.subrange(0, head_enc.len() as int));
        assert(enc.subrange(0, head_enc.len() as int) =~= head_enc);
        lemma_parse_str32_exact(b, pos, head);
        let p2 = pos + 4 + head.len();
        assert(b.subrange(p2, p2 + rest_enc.len()) =~= enc.subrange(
            head_enc.len() as int,
            enc.len() as int,
        ));
        assert(enc.subrange(head_enc.len() as int, enc.len() as int) =~= rest_enc);
        assert(forall|i: int|
            0 <= i < rest.len() ==> #[trigger] rest[i].len() <= u32::MAX && valid_utf8(rest[i]));
        lemma_parse_alleles_exact(b, p2, rest);
        assert(seq![head] + rest =~= alleles);
    }
}

/// Parsing the encoded payload body gives the payload back: the bit-packed
/// probability codec and every fixed field survive the round trip.
pub proof fn lemma_db_body_roundtrip(d: DataBlockV)
    requires
        wf_data_block(d),
    ensures
        spec_parse_db_body(spec_encode_db_body(d)) == Ok::<DataBlockV, BgenError>(d),
{
    vstd::bytes::lemma_auto_spec_u16_to_from_le_bytes();
    vstd::bytes::lemma_auto_spec_u32_to_from_le_bytes();
    let enc = spec_encode_db_body(d);
    let n_ind = d.number_individuals as int;
    let cs = d.bytes_probability as int / 8;
    let packed = pack_chunks(d.probabilities, cs);
    assert(enc.len() == 10 + n_ind + packed.len());
    assert(enc.subrange(0, 4) =~= spec_u32_to_le_bytes(d.number_individuals));
    assert(enc.subrange(4, 6) =~= spec_u16_to_le_bytes(d.number_alleles));
    assert(enc[6] == d.minimum_ploidy);
    assert(enc[7] == d.maximum_ploidy);
    assert(enc.subrange(8, 8 + n_ind) =~= d.ploidy_missingness);
    assert(enc[8 + n_ind] == (if d.phased {
        1u8
    } else {
        0u8
    }));
    assert(enc[9 + n_ind] == d.bytes_probability);
    assert(enc.skip(10 + n_ind) =~= packed);
    assert(forall|i: int| 0 <= i < d.probabilities.len() ==> (d.probabilities[i] as int) < pow256(
        cs,
    ));
    crate::bits::lemma_pack_unpack_roundtrip(d.probabilities, cs);
    assert(spec_parse_db_body(enc)->Ok_0 =~= d);
}

/// The compressor's documented round trip for this payload: decompressing
/// what was compressed yields the body again. Each encoding call obtains
/// this fact for the block it emits.
pub open spec fn spec_zlib_faithful(d: DataBlockV) -> bool {
    inflate_of(deflate_of(spec_encode_db_body(d))) == spec_encode_db_body(d)
}

/// A window of an embedded chunk equals the matching window of the chunk.
pub proof fn lemma_subrange_shift(b: Seq<u8>, at: int, chunk: Seq<u8>, x: int, y: int)
    requires
        0 <= at,
        at + chunk.len() <= b.len(),
        b.subrange(at, at + chunk.len() as int) == chunk,
        0 <= x <= y <= chunk.len(),
    ensures
        b.subrange(at + x, at + y) == chunk.subrange(x, y),
{
    let lhs = b.subrange(at + x, at + y);
    let rhs = chunk.subrange(x, y);
    let whole = b.subrange(at, at + chunk.len() as int);
    assert forall|i: int| 0 <= i < y - x implies lhs[i] == rhs[i] by {
        assert(whole[x + i] == b[at + (x + i)]);
        assert(rhs[i] == chunk[x + i]);
        assert(lhs[i] == b[at + x + i]);
    };
    assert(lhs =~= rhs);
}

/// Parsing an encoded record embedded at position `at` of a larger buffer
/// yields the record back, with its positional metadata describing the
/// embedded span. For a compressed payload this rests on the compressor's
/// round trip.
#[verifier::rlimit(100)]
#[verifier::spinoff_prover]
pub proof fn lemma_record_roundtrip_at(b: Seq<u8>, at: int, v: VariantDataV, compressed: bool)
    requires
        wf_variant(v),
        spec_record_fits(v, compressed),
        compressed ==> spec_zlib_faithful(v.data_block),
        0 <= at,
        at + spec_encode_record(v, compressed).len() <= b.len(),
        b.subrange(at, at + spec_encode_record(v, compressed).len()) == spec_encode_record(
            v,
            compressed,
        ),
    ensures
        spec_parse_record(b, at, compressed, true) == Ok::<(VariantDataV, int), BgenError>(
            (
                spec_with_pos(v, at, spec_encode_record(v, compressed).len() as int),
                at + spec_encode_record(v, compressed).len(),
            ),
        ),
{
    vstd::bytes::lemma_auto_spec_u16_to_from_le_bytes();
    vstd::bytes::lemma_auto_spec_u32_to_from_le_bytes();
    let enc = spec_encode_record(v, compressed);
    let body = spec_encode_db_body(v.data_block);
    let payload = spec_encode_payload(v.data_block, compressed);
    let e1 = spec_str16(v.variants_id);
    let e2 = spec_str16(v.rsid);
    let e3 = spec_str16(v.chr);
    let e4 = spec_u32_to_le_bytes(v.pos);
    let e5 = spec_u16_to_le_bytes(v.number_alleles);
    let e6 = spec_encode_alleles(v.alleles);
    let p1 = 2 + v.variants_id.len() as int;
    let p2 = p1 + 2 + v.rsid.len() as int;
    let p3 = p2 + 2 + v.chr.len() as int;
    let p4 = p3 + 4;
    let p5 = p4 + 2;
    let p6 = p5 + e6.len() as int;
    assert(enc.len() == p6 + payload.len());
    lemma_subrange_shift(b, at, enc, 0, p1);
    assert(enc.subrange(0, p1) =~= e1);
    lemma_parse_str16_exact(b, at, v.variants_id);
    lemma_subrange_shift(b, at, enc, p1, p2);
    assert(enc.subrange(p1, p2) =~= e2);
    lemma_parse_str16_exact(b, at + p1, v.rsid);
    lemma_subrange_shift(b, at, enc, p2, p3);
    assert(enc.subrange(p2, p3) =~= e3);
    lemma_parse_str16_exact(b, at + p2, v.chr);
    lemma_subrange_shift(b, at, enc, p3, p4);
    assert(enc.subrange(p3, p4) =~= e4);
    lemma_parse_u32_exact(b, at + p3, v.pos);
    lemma_subrange_shift(b, at, enc, p4, p5);
    assert(enc.subrange(p4, p5) =~= e5);
    lemma_parse_u16_exact(b, at + p4, v.number_alleles);
    lemma_subrange_shift(b, at, enc, p5, p6);
    assert(enc.subrange(p5, p6) =~= e6);
    lemma_parse_alleles_exact(b, at + p5, v.alleles);
    lemma_db_body_roundtrip(v.data_block);
    if compressed {
        let z = deflate_of(body);
        let length = (z.len() + 4) as u32;
        assert(payload == spec_u32_to_le_bytes(length) + spec_u32_to_le_bytes(body.len() as u32)
            + z);
        lemma_subrange_shift(b, at, enc, p6, p6 + 4);
        assert(enc.subrange(p6, p6 + 4) =~= spec_u32_to_le_bytes(length));
        lemma_parse_u32_exact(b, at + p6, length);
        let p7 = at + p6 + 4;
        lemma_subrange_shift(b, at, enc, p6 + 4, p6 + 8);
        assert(enc.subrange(p6 + 4, p6 + 8) =~= spec_u32_to_le_bytes(body.len() as u32));
        assert(spec_u32_from_le_bytes(b.subrange(p7, p7 + 4)) == body.len() as u32);
        let end = p7 + length as int;
        assert(end == at + enc.len());
        lemma_subrange_shift(b, at, enc, p6 + 8, enc.len() as int);
        assert(enc.subrange(p6 + 8, enc.len() as int) =~= z);
        assert(inflate_of(z) == body);
        assert(inflate_of(z).take(body.len() as int) =~= body);
        assert(spec_parse_record(b, at, compressed, true)->Ok_0.0 =~= spec_with_pos(
            v,
            at,
            enc.len() as int,
        ));
    } else {
        assert(payload == spec_u32_to_le_bytes(body.len() as u32) + body);
        lemma_subrange_shift(b, at, enc, p6, p6 + 4);
        assert(enc.subrange(p6, p6 + 4) =~= spec_u32_to_le_bytes(body.len() as u32));
        lemma_parse_u32_exact(b, at + p6, body.len() as u32);
        let p7 = at + p6 + 4;
        let end = p7 + body.len() as int;
        assert(end == at + enc.len());
        lemma_subrange_shift(b, at, enc, p6 + 4, enc.len() as int);
        assert(enc.subrange(p6 + 4, enc.len() as int) =~= body);
        assert(spec_parse_record(b, at, compressed, true)->Ok_0.0 =~= spec_with_pos(
            v,
            at,
            enc.len() as int,
        ));
    }
}

/// Record round trip: parsing an encoded record yields the record back.
/// For a compressed payload this rests on the compressor's round trip.
pub proof fn lemma_record_roundtrip(v: VariantDataV, compressed: bool)
    requires
        wf_variant(v),
        spec_record_fits(v, compressed),
        compressed ==> spec_zlib_faithful(v.data_block),
    ensures
        spec_parse_record(spec_encode_record(v, compressed), 0, compressed, true) == Ok::<
            (VariantDataV, int),
            BgenError,
        >(
            (
                spec_with_pos(v, 0, spec_encode_record(v, compressed).len() as int),
                spec_encode_record(v, compressed).len() as int,
            ),
        ),
{
    let enc = spec_encode_record(v, compressed);
    assert(enc.subrange(0, enc.len() as int) =~= enc);
    lemma_record_roundtrip_at(enc, 0, v, compressed);
}

// ---------------------------------------------------------------------------
// Parse locality: a record parses the same wherever its bytes sit
// ---------------------------------------------------------------------------
/// Matching windows of two buffers have matching sub-windows.
pub proof fn lemma_window_shift(b1: Seq<u8>, at1: int, b2: Seq<u8>, at2: int, len: int, x: int, y: int)
    requires
        0 <= at1,
        0 <= at2,
        0 <= len,
        at1 + len <= b1.len(),
        at2 + len <= b2.len(),
        b2.subrange(at2, at2 + len) == b1.subrange(at1, at1 + len),
        0 <= x <= y <= len,
    ensures
        b2.subrange(at2 + x, at2 + y) == b1.subrange(at1 + x, at1 + y),
{
    let chunk = b1.subrange(at1, at1 + len);
    lemma_subrange_shift(b1, at1, chunk, x, y);
    lemma_subrange_shift(b2, at2, chunk, x, y);
}

/// A record that parses in one buffer parses identically from any other
/// position holding the same bytes, with its positional metadata following
/// the new position.
#[verifier::rlimit(100)]
#[verifier::spinoff_prover]
pub proof fn lemma_parse_record_frame(
    b1: Seq<u8>,
    at1: int,
    b2: Seq<u8>,
    at2: int,
    compressed: bool,
    decode_payload: bool,
)
    requires
        0 <= at1,
        0 <= at2,
        spec_parse_record(b1, at1, compressed, decode_payload) matches Ok((v, end1)) && {
            &&& at2 + (end1 - at1) <= b2.len()
            &&& b2.subrange(at2, at2 + (end1 - at1)) == b1.subrange(at1, end1)
        },
    ensures
        spec_parse_record(b1, at1, compressed, decode_payload) matches Ok((v, end1))
            && spec_parse_record(b2, at2, compressed, decode_payload) == Ok::<
            (VariantDataV, int),
            BgenError,
        >((spec_with_pos(v, at2, end1 - at1), at2 + (end1 - at1))),
{
    let (v, end1) = spec_parse_record(b1, at1, compressed, decode_payload)->Ok_0;
    let size = end1 - at1;
    let (id, q1) = spec_parse_str16(b1, at1)->Ok_0;
    let (rsid, q2) = spec_parse_str16(b1, q1)->Ok_0;
    let (chr, q3) = spec_parse_str16(b1, q2)->Ok_0;
    let (pos_v, q4) = spec_parse_u32(b1, q3)->Ok_0;
    let (n_all, q5) = spec_parse_u16(b1, q4)->Ok_0;
    let (alleles, q6) = spec_parse_alleles(b1, q5, n_all as nat)->Ok_0;
    let (length, q7) = spec_parse_u32(b1, q6)->Ok_0;
    assert(end1 == q7 + length);
    let d = at2 - at1;
    assert(q1 == at1 + 2 + id.len());
    assert(q2 == q1 + 2 + rsid.len());
    assert(q3 == q2 + 2 + chr.len());
    assert(q4 == q3 + 4);
    assert(q5 == q4 + 2);
    lemma_parse_alleles_end_bound(b1, q5, n_all as nat);
    assert(q6 >= q5);
    assert(q7 == q6 + 4);
    lemma_parse_str16_frame(b1, at1, b2, at2, size, at1);
    lemma_parse_str16_frame(b1, at1, b2, at2, size, q1);
    lemma_parse_str16_frame(b1, at1, b2, at2, size, q2);
    lemma_window_shift(b1, at1, b2, at2, size, q3 - at1, q3 + 4 - at1);
    assert(b2.subrange(q3 + d, q3 + d + 4) == b1.subrange(q3, q3 + 4));
    lemma_window_shift(b1, at1, b2, at2, size, q4 - at1, q4 + 2 - at1);
    assert(b2.subrange(q4 + d, q4 + d + 2) == b1.subrange(q4, q4 + 2));
    lemma_parse_alleles_frame(b1, at1, b2, at2, size, q5, n_all as nat);
    lemma_window_shift(b1, at1, b2, at2, size, q6 - at1, q6 + 4 - at1);
    assert(b2.subrange(q6 + d, q6 + d + 4) == b1.subrange(q6, q6 + 4));
    if decode_payload {
        if compressed {
            lemma_window_shift(b1, at1, b2, at2, size, q7 - at1, q7 + 4 - at1);
            assert(b2.subrange(q7 + d, q7 + d + 4) == b1.subrange(q7, q7 + 4));
            lemma_window_shift(b1, at1, b2, at2, size, q7 + 4 - at1, size);
            assert(b2.subrange(q7 + 4 + d, end1 + d) == b1.subrange(q7 + 4, end1));
        } else {
            lemma_window_shift(b1, at1, b2, at2, size, q7 - at1, size);
            assert(b2.subrange(q7 + d, end1 + d) == b1.subrange(q7, end1));
        }
    }
    assert(spec_parse_record(b2, at2, compressed, decode_payload)->Ok_0.0 =~= spec_with_pos(
        v,
        at2,
        size,
    ));
}

/// One length-prefixed string of a record window parses the same at the
/// shifted position.
proof fn lemma_parse_str16_frame(b1: Seq<u8>, at1: int, b2: Seq<u8>, at2: int, size: int, q: int)
    requires
        0 <= at1 <= q,
        0 <= at2,
        at1 + size <= b1.len(),
        at2 + size <= b2.len(),
        b2.subrange(at2, at2 + size) == b1.subrange(at1, at1 + size),
        spec_parse_str16(b1, q) matches Ok((s, qe)) && qe <= at1 + size,
    ensures
        spec_parse_str16(b1, q) matches Ok((s, qe)) && spec_parse_str16(b2, q + (at2 - at1))
            == Ok::<(Seq<u8>, int), BgenError>((s, qe + (at2 - at1))),
{
    let (s, qe) = spec_parse_str16(b1, q)->Ok_0;
    let d = at2 - at1;
    lemma_window_shift(b1, at1, b2, at2, size, q - at1, q + 2 - at1);
    assert(b2.subrange(q + d, q + d + 2) == b1.subrange(q, q + 2));
    lemma_window_shift(b1, at1, b2, at2, size, q + 2 - at1, qe - at1);
    assert(b2.subrange(q + 2 + d, qe + d) == b1.subrange(q + 2, qe));
}

/// An allele list of a record window parses the same at the shifted
/// position.
proof fn lemma_parse_alleles_frame(
    b1: Seq<u8>,
    at1: int,
    b2: Seq<u8>,
    at2: int,
    size: int,
    q: int,
    k: nat,
)
    requires
        0 <= at1 <= q,
        0 <= at2,
        at1 + size <= b1.len(),
        at2 + size <= b2.len(),
        b2.subrange(at2, at2 + size) == b1.subrange(at1, at1 + size),
        spec_parse_alleles(b1, q, k) matches Ok((s, qe)) && qe <= at1 + size,
    ensures
        spec_parse_alleles(b1, q, k) matches Ok((s, qe)) && spec_parse_alleles(
            b2,
            q + (at2 - at1),
            k,
        ) == Ok::<(Seq<Seq<u8>>, int), BgenError>((s, qe + (at2 - at1))),
    decreases k,
{
    let d = at2 - at1;
    if k == 0 {
    } else {
        let (head, qh) = spec_parse_str32(b1, q)->Ok_0;
        // the first string stays inside the window because the list does
        let (rest, qe) = spec_parse_alleles(b1, qh, (k - 1) as nat)->Ok_0;
        lemma_parse_alleles_end_bound(b1, qh, (k - 1) as nat);
        lemma_window_shift(b1, at1, b2, at2, size, q - at1, q + 4 - at1);
        assert(b2.subrange(q + d, q + d + 4) == b1.subrange(q, q + 4));
        lemma_window_shift(b1, at1, b2, at2, size, q + 4 - at1, qh - at1);
        assert(b2.subrange(q + 4 + d, qh + d) == b1.subrange(q + 4, qh));
        lemma_parse_alleles_frame(b1, at1, b2, at2, size, qh, (k - 1) as nat);
    }
}

/// A parsed record's positional metadata names the span it was read from,
/// which never ends before it starts.
pub proof fn lemma_parse_record_positions(b: Seq<u8>, at: int, compressed: bool, payload: bool)
    requires
        0 <= at,
        spec_parse_record(b, at, compressed, payload) is Ok,
    ensures
        spec_parse_record(b, at, compressed, payload) matches Ok((v, end)) && {
            &&& v.file_start_position == at
            &&& v.size_in_bytes == end - at
            &&& end >= at
            &&& end <= b.len()
        },
{
    let (id, q1) = spec_parse_str16(b, at)->Ok_0;
    let (rsid, q2) = spec_parse_str16(b, q1)->Ok_0;
    let (chr, q3) = spec_parse_str16(b, q2)->Ok_0;
    let (pos_v, q4) = spec_parse_u32(b, q3)->Ok_0;
    let (n_all, q5) = spec_parse_u16(b, q4)->Ok_0;
    lemma_parse_alleles_end_bound(b, q5, n_all as nat);
}

/// An allele list never ends before it starts.
proof fn lemma_parse_alleles_end_bound(b: Seq<u8>, q: int, k: nat)
    requires
        spec_parse_alleles(b, q, k) is Ok,
    ensures
        spec_parse_alleles(b, q, k)->Ok_0.1 >= q,
    decreases k,
{
    if k > 0 {
        let (head, qh) = spec_parse_str32(b, q)->Ok_0;
        lemma_parse_alleles_end_bound(b, qh, (k - 1) as nat);
    }
}

// ---------------------------------------------------------------------------
// Filters
// ---------------------------------------------------------------------------
/// Whether the record lies in `r`: same chromosome and a position inside the
/// inclusive interval.
pub open spec fn spec_in_range(v: VariantDataV, r: crate::parser::RangeV) -> bool {
    r.chr == v.chr && r.start <= v.pos <= r.end
}

/// Whether the record is named by one of `ranges` or one of `rsids`.
pub open spec fn spec_in_filters(
    v: VariantDataV,
    ranges: Seq<crate::parser::RangeV>,
    rsids: Seq<Seq<u8>>,
) -> bool {
    (exists|i: int| 0 <= i < ranges.len() && spec_in_range(v, #[trigger] ranges[i])) || (exists|
        i: int,
    |
        0 <= i < rsids.len() && #[trigger] rsids[i] == v.rsid)
}

/// The accept rule: with no inclusion filter at all, everything not excluded
/// is accepted; otherwise a record must be named by an inclusion filter and
/// not excluded.
pub open spec fn spec_filter_with_args(
    v: VariantDataV,
    incl_ranges: Seq<crate::parser::RangeV>,
    incl_rsids: Seq<Seq<u8>>,
    excl_ranges: Seq<crate::parser::RangeV>,
    excl_rsids: Seq<Seq<u8>>,
) -> bool {
    if incl_ranges.len() == 0 && incl_rsids.len() == 0 {
        !spec_in_filters(v, excl_ranges, excl_rsids)
    } else {
        spec_in_filters(v, incl_ranges, incl_rsids) && !spec_in_filters(v, excl_ranges, excl_rsids)
    }
}

impl VariantData {
    /// Whether this record lies in `range`.
    pub fn in_range(&self, range: &crate::parser::Range) -> (r: bool)
        ensures
            r == spec_in_range(self@, range@),
    {
        let r = range.chr == self.chr && range.start <= self.pos && self.pos <= range.end;
        proof {
            if range.chr@ == self.chr@ {
                assert(range.chr@ =~= self.chr@);
            }
            if r {
                assert(range.chr@ =~= self.chr@);
            }
        }
        r
    }

    /// Whether this record is named by one of `ranges` or one of `rsids`.
    pub fn in_filters(&self, ranges: &[crate::parser::Range], rsids: &[Vec<u8>]) -> (r: bool)
        ensures
            r == spec_in_filters(self@, ranges.deep_view(), rsids.deep_view()),
    {
        let mut in_ranges = false;
        let mut i: usize = 0;
        while i < ranges.len()
            invariant
                i <= ranges@.len(),
                ranges.deep_view().len() == ranges@.len(),
                forall|j: int| 0 <= j < ranges@.len() ==> #[trigger] ranges.deep_view()[j]
                    == ranges@[j]@,
                in_ranges == (exists|j: int|
                    0 <= j < i && spec_in_range(self@, #[trigger] ranges.deep_view()[j])),
            decreases ranges@.len() - i,
        {
            proof {
                assert(ranges.deep_view()[i as int] == ranges@[i as int]@);
            }
            if self.in_range(&ranges[i]) {
                in_ranges = true;
            }
            i = i + 1;
        }
        let mut in_rsids = false;
        let mut k: usize = 0;
        while k < rsids.len()
            invariant
                k <= rsids@.len(),
                rsids.deep_view().len() == rsids@.len(),
                forall|j: int| 0 <= j < rsids@.len() ==> #[trigger] rsids.deep_view()[j]
                    == rsids@[j]@,
                in_rsids == (exists|j: int|
                    0 <= j < k && #[trigger] rsids.deep_view()[j] == self@.rsid),
            decreases rsids@.len() - k,
        {
            let hit = rsids[k] == self.rsid;
            proof {
                assert(rsids.deep_view()[k as int] == rsids@[k as int]@);
                if rsids@[k as int]@ == self.rsid@ {
                    assert(rsids@[k as int]@ =~= self.rsid@);
                }
                if hit {
                    assert(rsids@[k as int]@ =~= self.rsid@);
                }
            }
            if hit {
                in_rsids = true;
            }
            k = k + 1;
        }
        in_rsids || in_ranges
    }

    /// The accept rule over the four filter lists.
    pub fn filter_with_args(
        &self,
        incl_ranges: &[crate::parser::Range],
        incl_rsids: &[Vec<u8>],
        excl_ranges: &[crate::parser::Range],
        excl_rsids: &[Vec<u8>],
    ) -> (r: bool)
        ensures
            r == spec_filter_with_args(
                self@,
                incl_ranges.deep_view(),
                incl_rsids.deep_view(),
                excl_ranges.deep_view(),
                excl_rsids.deep_view(),
            ),
    {
        if incl_ranges.is_empty() && incl_rsids.is_empty() {
            return !self.in_filters(excl_ranges, excl_rsids);
        }
        self.in_filters(incl_ranges, incl_rsids) && !self.in_filters(excl_ranges, excl_rsids)
    }
}

/// The decimal digits of `n`.
pub open spec fn spec_decimal(n: int) -> Seq<u8>
    decreases n,
{
    if n < 10 {
        seq![(48 + if n >= 0 {
            n
        } else {
            0
        }) as u8]
    } else {
        spec_decimal(n / 10).push((48 + n % 10) as u8)
    }
}

/// Appends the decimal digits of `n`.
pub fn push_decimal(out: &mut Vec<u8>, n: u32)
    ensures
        final(out)@ == old(out)@ + spec_decimal(n as int),
    decreases n,
{
    if n < 10 {
        out.push(48 + (n as u8));
        proof {
            assert(out@ =~= old(out)@ + spec_decimal(n as int));
        }
    } else {
        push_decimal(out, n / 10);
        out.push(48 + ((n % 10) as u8));
        proof {
            assert(out@ =~= old(out)@ + spec_decimal(n as int));
        }
    }
}

/// A listing field: the bytes themselves, or a dot for an empty field,
/// followed by the tab separator.
pub open spec fn spec_field_sep(s: Seq<u8>) -> Seq<u8> {
    (if s.len() == 0 {
        seq![46u8]
    } else {
        s
    }) + seq![9u8]
}

/// Appends a listing field: `b`, or a dot when `b` is empty, then a tab.
pub fn write_with_sep(out: &mut Vec<u8>, b: &[u8])
    ensures
        final(out)@ == old(out)@ + spec_field_sep(b@),
{
    if b.len() == 0 {
        out.push(46);
    } else {
        crate::utils::extend_bytes(out, b);
    }
    out.push(9);
    proof {
        assert(out@ =~= old(out)@ + spec_field_sep(b@));
    }
}

/// The tab-delimited listing line of a record: identifier, rsid, position,
/// allele count, and the two alleles, empty fields shown as dots.
pub open spec fn spec_bgenix_line(v: VariantDataV) -> Seq<u8> {
    spec_field_sep(v.variants_id) + spec_field_sep(v.rsid) + spec_field_sep(
        spec_decimal(v.pos as int),
    ) + spec_field_sep(spec_decimal(v.number_alleles as int)) + spec_field_sep(v.alleles[0])
        + spec_field_sep(v.alleles[1]) + seq![10u8]
}

/// The rsid-only listing line.
pub open spec fn spec_rsid_line(v: VariantDataV) -> Seq<u8> {
    v.rsid + seq![10u8]
}

impl VariantData {
    /// The full tab-delimited listing line of this record.
    pub fn bgenix_print(&self) -> (r: Vec<u8>)
        requires
            self.alleles@.len() >= 2,
        ensures
            r@ == spec_bgenix_line(self@),
    {
        let mut out: Vec<u8> = Vec::new();
        write_with_sep(&mut out, self.variants_id.as_slice());
        write_with_sep(&mut out, self.rsid.as_slice());
        let mut pos_digits: Vec<u8> = Vec::new();
        push_decimal(&mut pos_digits, self.pos);
        proof {
            assert(pos_digits@.len() > 0) by {
                if self.pos < 10 {
                } else {
                    assert(spec_decimal(self.pos as int) == spec_decimal(self.pos as int / 10).push(
                        (48 + self.pos as int % 10) as u8,
                    ));
                }
            }
        }
        write_with_sep(&mut out, pos_digits.as_slice());
        let mut count_digits: Vec<u8> = Vec::new();
        push_decimal(&mut count_digits, self.number_alleles as u32);
        proof {
            assert(count_digits@.len() > 0) by {
                if self.number_alleles < 10 {
                } else {
                    assert(spec_decimal(self.number_alleles as int) == spec_decimal(
                        self.number_alleles as int / 10,
                    ).push((48 + self.number_alleles as int % 10) as u8));
                }
            }
        }
        write_with_sep(&mut out, count_digits.as_slice());
        write_with_sep(&mut out, self.alleles[0].as_slice());
        write_with_sep(&mut out, self.alleles[1].as_slice());
        out.push(10);
        proof {
            assert(self@.alleles[0] == self.alleles@[0]@);
            assert(self@.alleles[1] == self.alleles@[1]@);
            assert(out@ =~= spec_bgenix_line(self@));
        }
        out
    }

    /// The rsid-only listing line of this record.
    pub fn rsid_print(&self) -> (r: Vec<u8>)
        ensures
            r@ == spec_rsid_line(self@),
    {
        let mut out: Vec<u8> = Vec::new();
        crate::utils::extend_bytes(&mut out, self.rsid.as_slice());
        out.push(10);
        proof {
            assert(out@ =~= spec_rsid_line(self@));
        }
        out
    }

    /// The listing line in the asked-for shape.
    pub fn print(&self, variant_output: &crate::parser::VariantOutput) -> (r: Vec<u8>)
        requires
            self.alleles@.len() >= 2,
        ensures
            r@ == (match variant_output {
                crate::parser::VariantOutput::Bgenix => spec_bgenix_line(self@),
                crate::parser::VariantOutput::Rsid => spec_rsid_line(self@),
            }),
    {
        match variant_output {
            crate::parser::VariantOutput::Bgenix => self.bgenix_print(),
            crate::parser::VariantOutput::Rsid => self.rsid_print(),
        }
    }
}

// ---------------------------------------------------------------------------
// Genotype calls for the VCF emitter
// ---------------------------------------------------------------------------
/// The thresholded genotype call of the probability `num / den`:
/// values up to a half round to 0, up to three halves to 1, beyond to 2.
pub open spec fn spec_round_call(num: int, den: int) -> int {
    if 2 * num <= den {
        0
    } else if 2 * num <= 3 * den {
        1
    } else {
        2
    }
}

/// The genotype call pair of an unphased diploid sample from its two stored
/// probabilities, quantized over 65535: the third probability is implicit,
/// and the calls are the rounded `p11` and `p11 + p10`. The probabilities
/// must not exceed the quantization (else nothing sound can be called).
pub fn calls_unphased(p00: u32, p10: u32) -> (r: Option<(u8, u8)>)
    ensures
        r is Some <==> p00 + p10 <= 65535,
        r matches Some((a, b)) ==> {
            &&& a as int == spec_round_call(65535 - p00 - p10, 65535)
            &&& b as int == spec_round_call(65535 - p00, 65535)
        },
{
    if (p00 as u64) + (p10 as u64) > 65535 {
        return None;
    }
    let p11 = 65535 - p00 - p10;
    let a: u8 = if 2 * (p11 as u64) <= 65535 {
        0
    } else if 2 * (p11 as u64) <= 3 * 65535 {
        1
    } else {
        2
    };
    let sum = p11 + p10;
    let b: u8 = if 2 * (sum as u64) <= 65535 {
        0
    } else if 2 * (sum as u64) <= 3 * 65535 {
        1
    } else {
        2
    };
    Some((a, b))
}

/// The genotype call pair of a phased diploid sample. Each stored
/// probability is the chance of the first allele on its haplotype,
/// quantized over 65535; they synthesize the three genotype probabilities
/// `p00 = h1*h2`, `p11 = (1-h1)(1-h2)` and `p10 = 1 - p00 - p11`, and the
/// calls are the rounded `p11` and `p11 + p10`, as for an unphased sample.
pub fn calls_phased(h1: u32, h2: u32) -> (r: Option<(u8, u8)>)
    ensures
        r is Some <==> h1 <= 65535 && h2 <= 65535,
        r matches Some((a, b)) ==> {
            &&& a as int == spec_round_call((65535 - h1) * (65535 - h2), (65535 * 65535) as int)
            &&& b as int == spec_round_call(65535 * 65535 - h1 * h2, (65535 * 65535) as int)
        },
{
    if h1 > 65535 || h2 > 65535 {
        return None;
    }
    proof {
        assert(((65535 - h1) as u64) * (((65535 - h2) as u64)) <= 65535 * 65535)
            by (nonlinear_arith)
            requires
                h1 <= 65535,
                h2 <= 65535,
        ;
        assert((h1 as u64) * (h2 as u64) <= 65535 * 65535) by (nonlinear_arith)
            requires
                h1 <= 65535,
                h2 <= 65535,
        ;
    }
    let den: u64 = 65535 * 65535;
    let p11: u64 = ((65535 - h1) as u64) * ((65535 - h2) as u64);
    let p00: u64 = (h1 as u64) * (h2 as u64);
    let a: u8 = if 2 * p11 <= den {
        0
    } else if 2 * p11 <= 3 * den {
        1
    } else {
        2
    };
    let second: u64 = den - p00;
    let b: u8 = if 2 * second <= den {
        0
    } else if 2 * second <= 3 * den {
        1
    } else {
        2
    };
    Some((a, b))
}

/// The subsequence of `s` that the filter accepts.
pub open spec fn spec_accepted_subset(
    s: Seq<VariantDataV>,
    incl_ranges: Seq<crate::parser::RangeV>,
    incl_rsids: Seq<Seq<u8>>,
    excl_ranges: Seq<crate::parser::RangeV>,
    excl_rsids: Seq<Seq<u8>>,
) -> Seq<VariantDataV> {
    s.filter(|v: VariantDataV| spec_filter_with_args(v, incl_ranges, incl_rsids, excl_ranges,
        excl_rsids))
}

/// Filter idempotence: applying the same filter set twice yields the same
/// accepted subset as applying it once.
pub proof fn lemma_filter_idempotent(
    s: Seq<VariantDataV>,
    incl_ranges: Seq<crate::parser::RangeV>,
    incl_rsids: Seq<Seq<u8>>,
    excl_ranges: Seq<crate::parser::RangeV>,
    excl_rsids: Seq<Seq<u8>>,
)
    ensures
        spec_accepted_subset(
            spec_accepted_subset(s, incl_ranges, incl_rsids, excl_ranges, excl_rsids),
            incl_ranges,
            incl_rsids,
            excl_ranges,
            excl_rsids,
        ) == spec_accepted_subset(s, incl_ranges, incl_rsids, excl_ranges, excl_rsids),
    decreases s.len(),
{
    let p = |v: VariantDataV|
        spec_filter_with_args(v, incl_ranges, incl_rsids, excl_ranges, excl_rsids);
    lemma_filter_of_all_accepted(s.filter(p), p);
}

/// Filtering a sequence whose members all pass the predicate changes
/// nothing.
proof fn lemma_filter_of_all_accepted(s: Seq<VariantDataV>, p: spec_fn(VariantDataV) -> bool)
    requires
        forall|i: int| 0 <= i < s.len() ==> p(#[trigger] s[i]),
    ensures
        s.filter(p) == s,
    decreases s.len(),
{
    reveal(Seq::filter);
    if s.len() == 0 {
        assert(s.filter(p) =~= s);
    } else {
        assert(forall|i: int| 0 <= i < s.len() - 1 ==> p(#[trigger] s.drop_last()[i]));
        lemma_filter_of_all_accepted(s.drop_last(), p);
        assert(s.filter(p) =~= s);
    }
}

/// Filter monotonicity, exclusion half: growing the exclusion lists can only
/// shrink what is accepted.
pub proof fn lemma_filter_monotone_excl(
    v: VariantDataV,
    incl_ranges: Seq<crate::parser::RangeV>,
    incl_rsids: Seq<Seq<u8>>,
    excl_ranges: Seq<crate::parser::RangeV>,
    excl_rsids: Seq<Seq<u8>>,
    more_ranges: Seq<crate::parser::RangeV>,
    more_rsids: Seq<Seq<u8>>,
)
    ensures
        spec_filter_with_args(
            v,
            incl_ranges,
            incl_rsids,
            excl_ranges + more_ranges,
            excl_rsids + more_rsids,
        ) ==> spec_filter_with_args(v, incl_ranges, incl_rsids, excl_ranges, excl_rsids),
{
    if spec_in_filters(v, excl_ranges, excl_rsids) {
        assert(spec_in_filters(v, excl_ranges + more_ranges, excl_rsids + more_rsids)) by {
            if exists|i: int|
                0 <= i < excl_ranges.len() && spec_in_range(v, #[trigger] excl_ranges[i]) {
                let i = choose|i: int|
                    0 <= i < excl_ranges.len() && spec_in_range(v, #[trigger] excl_ranges[i]);
                assert((excl_ranges + more_ranges)[i] == excl_ranges[i]);
            } else {
                let i = choose|i: int|
                    0 <= i < excl_rsids.len() && #[trigger] excl_rsids[i] == v.rsid;
                assert((excl_rsids + more_rsids)[i] == excl_rsids[i]);
            }
        }
    }
}

/// Filter monotonicity, inclusion half: when an inclusion filter is already
/// present, growing the inclusion lists can only grow what is accepted.
pub proof fn lemma_filter_monotone_incl(
    v: VariantDataV,
    incl_ranges: Seq<crate::parser::RangeV>,
    incl_rsids: Seq<Seq<u8>>,
    excl_ranges: Seq<crate::parser::RangeV>,
    excl_rsids: Seq<Seq<u8>>,
    more_ranges: Seq<crate::parser::RangeV>,
    more_rsids: Seq<Seq<u8>>,
)
    requires
        incl_ranges.len() + incl_rsids.len() > 0,
    ensures
        spec_filter_with_args(v, incl_ranges, incl_rsids, excl_ranges, excl_rsids)
            ==> spec_filter_with_args(
            v,
            incl_ranges + more_ranges,
            incl_rsids + more_rsids,
            excl_ranges,
            excl_rsids,
        ),
{
    if spec_in_filters(v, incl_ranges, incl_rsids) {
        assert(spec_in_filters(v, incl_ranges + more_ranges, incl_rsids + more_rsids)) by {
            if exists|i: int|
                0 <= i < incl_ranges.len() && spec_in_range(v, #[trigger] incl_ranges[i]) {
                let i = choose|i: int|
                    0 <= i < incl_ranges.len() && spec_in_range(v, #[trigger] incl_ranges[i]);
                assert((incl_ranges + more_ranges)[i] == incl_ranges[i]);
            } else {
                let i = choose|i: int|
                    0 <= i < incl_rsids.len() && #[trigger] incl_rsids[i] == v.rsid;
                assert((incl_rsids + more_rsids)[i] == incl_rsids[i]);
            }
        }
    }
}

} // verus!
