use bgen_reader::bgen_stream::{write_samples, BgenStream};
use bgen_reader::header::{Header, HeaderFlags};
use bgen_reader::parser::FilterArgs;
use bgen_reader::variant_data::{DataBlock, VariantData};

fn make_record(rsid: &str, pos: u32, fill: u32) -> VariantData {
    VariantData {
        variants_id: Vec::new(),
        rsid: rsid.as_bytes().to_vec(),
        chr: b"1".to_vec(),
        pos,
        number_alleles: 2,
        alleles: vec![b"G".to_vec(), b"A".to_vec()],
        file_start_position: 0,
        size_in_bytes: 0,
        data_block: DataBlock {
            number_individuals: 10,
            number_alleles: 2,
            minimum_ploidy: 2,
            maximum_ploidy: 2,
            ploidy_missingness: vec![2u8; 10],
            phased: false,
            bytes_probability: 16,
            probabilities: (0..20u32).map(|k| (k * 31 + fill) % 65536).collect(),
        },
    }
}

fn fixture_bytes() -> Vec<u8> {
    let samples: Vec<Vec<u8>> = (0..4u32).map(|i| format!("s{:03}", i).into_bytes()).collect();
    // sample block: 8 + 4 * (2 + 4) = 32 bytes; header area: 20
    let header = Header {
        start_data_offset: 52,
        header_size: 20,
        variant_num: 5,
        variant_count: 0,
        sample_num: 4,
        header_flags: HeaderFlags {
            compressed_snp_blocks: true,
            layout_id: 2,
            sample_id_present: true,
        },
    };
    let mut out = Vec::new();
    header.write_header(&mut out);
    write_samples(&samples, &mut out, 32).unwrap();
    for i in 0..5u32 {
        let pos = 752_000 + i * 1000;
        let rsid = format!("1_{}_G_A", pos);
        make_record(&rsid, pos, i).write_self(&mut out, true).unwrap();
    }
    out
}

fn create_bgen_and_read() -> BgenStream {
    let mut bgen_stream = BgenStream::from_bytes(fixture_bytes(), true).unwrap();
    bgen_stream.read_offset_and_header().unwrap();
    bgen_stream
}

fn collect_all(mut stream: BgenStream) -> Vec<VariantData> {
    let mut out = Vec::new();
    while let Some(r) = stream.next() {
        out.push(r.unwrap());
    }
    out
}

#[test]
fn compare_original_and_rewrite() {
    let rewritten = create_bgen_and_read().to_bgen(false).unwrap();
    let mut bgen_stream_test = BgenStream::from_bytes(rewritten, true).unwrap();
    bgen_stream_test.read_offset_and_header().unwrap();
    let bgen_stream_oracle = create_bgen_and_read();

    assert_eq!(bgen_stream_test.header, bgen_stream_oracle.header);
    assert_eq!(bgen_stream_test.samples, bgen_stream_oracle.samples);
    let data_blocks_test = collect_all(bgen_stream_test);
    let data_blocks_oracle = collect_all(bgen_stream_oracle);
    assert_eq!(
        data_blocks_test.len(),
        data_blocks_oracle.len(),
        "Length is not equal !"
    );
    assert_eq!(data_blocks_test, data_blocks_oracle);
}

#[test]
fn filtering_on_bgen_write() {
    let mut bgen_stream = create_bgen_and_read();
    let list_args = FilterArgs::default().with_range_incl_str(b"1:0-752567".to_vec());
    bgen_stream.collect_filters(list_args).unwrap();
    let rewritten = bgen_stream.to_bgen(false).unwrap();
    let mut bgen_stream_test = BgenStream::from_bytes(rewritten, true).unwrap();
    bgen_stream_test.read_offset_and_header().unwrap();
    assert_eq!(1, bgen_stream_test.header.variant_num);
    let variant_data = collect_all(bgen_stream_test);
    assert_eq!(1, variant_data.len());
}

#[test]
fn rewrite_without_samples() {
    let rewritten = create_bgen_and_read().to_bgen(true).unwrap();
    let mut reread = BgenStream::from_bytes(rewritten, true).unwrap();
    reread.read_offset_and_header().unwrap();
    assert!(!reread.header.header_flags.sample_id_present);
    // 8 bytes of block words plus four 6-byte prefixed identifiers
    assert_eq!(52 - 32, reread.header.start_data_offset);
    assert_eq!(5, collect_all(reread).len());
}

#[test]
fn rewrite_of_sample_less_container() {
    // a valid container whose flags announce no embedded sample block
    let header = Header {
        start_data_offset: 20,
        header_size: 20,
        variant_num: 2,
        variant_count: 0,
        sample_num: 10,
        header_flags: HeaderFlags {
            compressed_snp_blocks: true,
            layout_id: 2,
            sample_id_present: false,
        },
    };
    let mut bytes = Vec::new();
    header.write_header(&mut bytes);
    make_record("1_700000_G_A", 700_000, 1).write_self(&mut bytes, true).unwrap();
    make_record("1_800000_G_A", 800_000, 2).write_self(&mut bytes, true).unwrap();

    let mut source = BgenStream::from_bytes(bytes.clone(), true).unwrap();
    source.read_offset_and_header().unwrap();
    let rewritten = source.to_bgen(false).unwrap();
    let mut reread = BgenStream::from_bytes(rewritten.clone(), true).unwrap();
    reread.read_offset_and_header().unwrap();
    assert!(!reread.header.header_flags.sample_id_present);
    assert_eq!(20, reread.header.start_data_offset);
    assert_eq!(2, reread.header.variant_num);
    let mut oracle = BgenStream::from_bytes(bytes, true).unwrap();
    oracle.read_offset_and_header().unwrap();
    assert_eq!(collect_all(oracle), collect_all(reread));

    // with nothing to suppress, asking to drop the block changes nothing
    let mut source_again = BgenStream::from_bytes(rewritten.clone(), true).unwrap();
    source_again.read_offset_and_header().unwrap();
    assert_eq!(rewritten, source_again.to_bgen(true).unwrap());
}

#[test]
fn rewrite_uncompressed_payloads() {
    let samples: Vec<Vec<u8>> = vec![b"a".to_vec(), b"b".to_vec()];
    let header = Header {
        start_data_offset: 34,
        header_size: 20,
        variant_num: 1,
        variant_count: 0,
        sample_num: 2,
        header_flags: HeaderFlags {
            compressed_snp_blocks: false,
            layout_id: 2,
            sample_id_present: true,
        },
    };
    let mut bytes = Vec::new();
    header.write_header(&mut bytes);
    write_samples(&samples, &mut bytes, 14).unwrap();
    let record = VariantData {
        variants_id: Vec::new(),
        rsid: b"rs1".to_vec(),
        chr: b"2".to_vec(),
        pos: 77,
        number_alleles: 2,
        alleles: vec![b"T".to_vec(), b"C".to_vec()],
        file_start_position: 0,
        size_in_bytes: 0,
        data_block: DataBlock {
            number_individuals: 2,
            number_alleles: 2,
            minimum_ploidy: 2,
            maximum_ploidy: 2,
            ploidy_missingness: vec![2, 2],
            phased: false,
            bytes_probability: 16,
            probabilities: vec![1, 2, 3, 4],
        },
    };
    record.write_self(&mut bytes, false).unwrap();
    let mut stream = BgenStream::from_bytes(bytes, true).unwrap();
    stream.read_offset_and_header().unwrap();
    let decoded = collect_all(stream);
    assert_eq!(1, decoded.len());
    assert_eq!(record, decoded[0]);
}
