use bgen_reader::bgen_stream::{write_samples, BgenStream};
use bgen_reader::bits::{pack_chunked, unpack_chunked};
use bgen_reader::error::BgenError;
use bgen_reader::header::{Header, HeaderFlags};
use bgen_reader::parser::{parse_u32_dec, split_lines, validate_parsing_range, FilterArgs, Range};
use bgen_reader::variant_data::{
    build_from_uncompressed_block, calls_phased, calls_unphased, DataBlock, VariantData,
};

#[test]
fn bit_codec_roundtrip_all_widths() {
    for cs in 1..=4usize {
        let limit: u64 = 1u64 << (8 * cs as u32);
        let values: Vec<u32> = (0..50u64).map(|k| ((k * 7919 + 13) % limit) as u32).collect();
        let packed = pack_chunked(&values, cs);
        assert_eq!(50 * cs, packed.len());
        assert_eq!(values, unpack_chunked(packed.as_slice(), cs));
    }
}

#[test]
fn unpack_keeps_ragged_tail() {
    // five bytes in two-byte chunks: two full values and one single-byte value
    let bytes = [0x01u8, 0x02, 0x03, 0x04, 0x05];
    assert_eq!(vec![0x0201, 0x0403, 0x05], unpack_chunked(&bytes, 2));
}

fn db_body(phased_byte: u8, width: u8) -> Vec<u8> {
    let mut body = Vec::new();
    body.extend_from_slice(&2u32.to_le_bytes());
    body.extend_from_slice(&2u16.to_le_bytes());
    body.push(2);
    body.push(2);
    body.push(2);
    body.push(2);
    body.push(phased_byte);
    body.push(width);
    body.extend_from_slice(&[1, 0, 2, 0, 3, 0, 4, 0]);
    body
}

#[test]
fn data_block_body_decodes() {
    let block = build_from_uncompressed_block(&db_body(0, 16)).unwrap();
    assert_eq!(2, block.number_individuals);
    assert_eq!(vec![1, 2, 3, 4], block.probabilities);
}

#[test]
fn data_block_rejects_bad_phased_byte() {
    assert_eq!(
        Err(BgenError::PhasedByteInvalid),
        build_from_uncompressed_block(&db_body(2, 16)).map(|_| ())
    );
}

#[test]
fn data_block_rejects_zero_width() {
    assert_eq!(
        Err(BgenError::ZeroBitWidth),
        build_from_uncompressed_block(&db_body(0, 0)).map(|_| ())
    );
}

#[test]
fn data_block_rejects_unsupported_width() {
    assert_eq!(
        Err(BgenError::UnsupportedBitWidth),
        build_from_uncompressed_block(&db_body(0, 40)).map(|_| ())
    );
}

#[test]
fn data_block_reads_bit_packed_width() {
    // a 12-bit stream over three bytes: two windows, least significant first
    let mut body = Vec::new();
    body.extend_from_slice(&2u32.to_le_bytes());
    body.extend_from_slice(&2u16.to_le_bytes());
    body.extend_from_slice(&[2, 2, 2, 2, 0, 12]);
    body.extend_from_slice(&[0xAB, 0xCD, 0xEF]);
    let block = build_from_uncompressed_block(&body).unwrap();
    assert_eq!(vec![0xDAB, 0xEFC], block.probabilities);
}

#[test]
fn data_block_rejects_truncated_body() {
    assert_eq!(
        Err(BgenError::UnexpectedEndOfInput),
        build_from_uncompressed_block(&vec![1, 2, 3]).map(|_| ())
    );
}

fn tiny_container(rsid: Vec<u8>) -> Vec<u8> {
    let header = Header {
        start_data_offset: 33,
        header_size: 20,
        variant_num: 1,
        variant_count: 0,
        sample_num: 1,
        header_flags: HeaderFlags {
            compressed_snp_blocks: true,
            layout_id: 2,
            sample_id_present: true,
        },
    };
    let mut out = Vec::new();
    header.write_header(&mut out);
    write_samples(&vec![b"one".to_vec()], &mut out, 13).unwrap();
    let record = VariantData {
        variants_id: Vec::new(),
        rsid,
        chr: b"1".to_vec(),
        pos: 5,
        number_alleles: 2,
        alleles: vec![b"A".to_vec(), b"C".to_vec()],
        file_start_position: 0,
        size_in_bytes: 0,
        data_block: DataBlock {
            number_individuals: 1,
            number_alleles: 2,
            minimum_ploidy: 2,
            maximum_ploidy: 2,
            ploidy_missingness: vec![2],
            phased: false,
            bytes_probability: 16,
            probabilities: vec![9, 8],
        },
    };
    record.write_self(&mut out, true).unwrap();
    out
}

#[test]
fn record_with_invalid_utf8_is_rejected() {
    let mut stream = BgenStream::from_bytes(tiny_container(vec![0xFF, 0xFE]), true).unwrap();
    stream.read_offset_and_header().unwrap();
    assert_eq!(Some(Err(BgenError::InvalidUtf8)), stream.next().map(|r| r.map(|_| ())));
    assert!(stream.next().is_none());
}

#[test]
fn open_rejects_bad_magic() {
    let mut bytes = tiny_container(b"rs".to_vec());
    bytes[16] = b'x';
    let mut stream = BgenStream::from_bytes(bytes, true).unwrap();
    assert_eq!(Err(BgenError::MagicMismatch), stream.read_offset_and_header());
}

#[test]
fn open_rejects_small_header() {
    let mut bytes = tiny_container(b"rs".to_vec());
    bytes[4] = 19;
    bytes[5] = 0;
    bytes[6] = 0;
    bytes[7] = 0;
    let mut stream = BgenStream::from_bytes(bytes, true).unwrap();
    assert_eq!(Err(BgenError::HeaderSizeTooSmall), stream.read_offset_and_header());
}

#[test]
fn open_rejects_zero_variants() {
    let mut bytes = tiny_container(b"rs".to_vec());
    bytes[8] = 0;
    let mut stream = BgenStream::from_bytes(bytes, true).unwrap();
    assert_eq!(Err(BgenError::NoVariants), stream.read_offset_and_header());
}

#[test]
fn open_checks_presupplied_samples() {
    let mut stream = BgenStream::new(
        tiny_container(b"rs".to_vec()),
        bgen_reader::bgen_stream::MetadataBgi::Bytes(bgen_reader::bgen_stream::BytesMetadata {
            bytes: Vec::new(),
        }),
        vec![b"someone_else".to_vec()],
        true,
    );
    assert_eq!(Err(BgenError::SampleMismatch), stream.read_offset_and_header());
}

#[test]
fn range_parsing() {
    let range = Range::from_str(b"1:100-200", true).unwrap();
    assert_eq!(b"1".to_vec(), range.chr);
    assert_eq!(100, range.start);
    assert_eq!(200, range.end);
    assert!(Range::from_str(b"no-colon", true).is_err());
    assert!(Range::from_str(b"1:nodigits-2", true).is_err());
    assert!(Range::from_str(b"1:2", true).is_err());
    let ranges = validate_parsing_range(b"1:0-10\n2:5-6\n").unwrap();
    assert_eq!(2, ranges.len());
    assert_eq!(b"2".to_vec(), ranges[1].chr);
    assert!(validate_parsing_range(b"1:0-10\nbroken\n").is_err());
}

#[test]
fn decimal_parsing_bounds() {
    assert_eq!(Some(4294967295), parse_u32_dec(b"4294967295"));
    assert_eq!(None, parse_u32_dec(b"4294967296"));
    assert_eq!(Some(7), parse_u32_dec(b"+7"));
    assert_eq!(None, parse_u32_dec(b""));
    assert_eq!(None, parse_u32_dec(b"12a"));
}

#[test]
fn filter_args_conflicts() {
    let both = FilterArgs::default()
        .with_range_incl_str(b"1:0-5".to_vec())
        .with_range_incl_file(b"ranges.txt".to_vec());
    // the file builder clears the inline field, so set both by hand
    let mut args = both.clone();
    args.incl_range.incl_range = Some(b"1:0-5".to_vec());
    assert_eq!(
        Err(BgenError::ConflictingFilterInputs),
        args.get_vector_incl_and_excl().map(|_| ())
    );
    assert_eq!(
        Err(BgenError::FilterFileNotLoaded),
        both.get_vector_incl_and_excl().map(|_| ())
    );
}

#[test]
fn split_lines_keeps_empties() {
    let lines = split_lines(b"a\nb\n\nc");
    assert_eq!(
        vec![b"a".to_vec(), b"b".to_vec(), Vec::new(), b"c".to_vec()],
        lines
    );
}

#[test]
fn genotype_calls() {
    assert_eq!(Some((0, 0)), calls_unphased(65535, 0));
    assert_eq!(Some((1, 1)), calls_unphased(0, 0));
    assert_eq!(Some((0, 1)), calls_unphased(0, 65535));
    assert_eq!(None, calls_unphased(40000, 40000));
    // a phased pair synthesizes the genotype probabilities: one certain
    // first-allele haplotype and one certain second-allele haplotype is a
    // heterozygous call, two near-zero ones a homozygous second-allele call
    assert_eq!(Some((0, 1)), calls_phased(65535, 0));
    assert_eq!(Some((1, 1)), calls_phased(100, 200));
    assert_eq!(Some((0, 0)), calls_phased(65535, 65535));
    assert_eq!(None, calls_phased(70000, 0));
}
