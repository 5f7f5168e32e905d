use bgen_reader::bgen_stream::{write_samples, BgenStream};
use bgen_reader::header::{Header, HeaderFlags};
use bgen_reader::parser::FilterArgs;
use bgen_reader::variant_data::{DataBlock, VariantData};

fn first_probabilities() -> Vec<u32> {
    [
        0, 65535, 0, 65535, 65535, 0, 65535, 0, 65535, 0, 0, 0, 0, 65535, 65535, 0, 0, 65535, 0,
        65535, 65535, 0, 65535, 0, 0, 0, 0, 65535, 65535, 0, 0, 65535, 0, 65535, 0, 0, 0, 65535,
        65535, 0, 65535, 0, 65535, 0, 65535, 0, 65535, 0, 0, 65535, 0, 65535, 0, 65535, 65535, 0,
        0, 65535, 0, 65535, 65535, 0, 0, 0, 0, 65535, 0, 65535, 0, 65535, 65535, 0, 0, 65535,
        65535, 0, 65535, 0, 0, 0, 65535, 0, 0, 65535, 0, 65535, 0, 0, 65535, 0, 0, 65535, 65535, 0,
        0, 65535, 0, 65535, 65535, 0, 65535, 0, 0, 0, 65535, 0, 0, 65535, 0, 65535, 0, 0, 65535, 0,
        0, 65535, 0, 65535, 65535, 0, 65535, 0, 65535, 0, 0, 65535, 0, 65535, 65535, 0, 0, 65535,
        0, 65535, 65535, 0, 0, 65535, 0, 0, 0, 0, 0, 65535, 65535, 0, 65535, 0, 0, 0, 0, 65535,
        65535, 0, 0, 65535, 0, 0, 0, 0, 0, 0, 65535, 0, 0, 0, 0, 0, 65535, 0, 0, 0, 65535, 0, 0,
        65535, 0, 65535, 0, 65535, 0, 65535, 0, 65535, 65535, 0, 65535, 0, 0, 65535, 65535, 0, 0,
        65535, 0, 65535, 0, 0, 65535, 0,
    ]
    .to_vec()
}

fn first_data_block() -> DataBlock {
    DataBlock {
        number_individuals: 100,
        number_alleles: 2,
        minimum_ploidy: 2,
        maximum_ploidy: 2,
        ploidy_missingness: vec![2u8; 100],
        phased: false,
        bytes_probability: 16,
        probabilities: first_probabilities(),
    }
}

fn zero_data_block() -> DataBlock {
    DataBlock {
        number_individuals: 100,
        number_alleles: 2,
        minimum_ploidy: 2,
        maximum_ploidy: 2,
        ploidy_missingness: vec![2u8; 100],
        phased: false,
        bytes_probability: 16,
        probabilities: vec![0u32; 200],
    }
}

fn make_record(rsid: &str, pos: u32, a0: &str, a1: &str, block: DataBlock) -> VariantData {
    VariantData {
        variants_id: Vec::new(),
        rsid: rsid.as_bytes().to_vec(),
        chr: b"1".to_vec(),
        pos,
        number_alleles: 2,
        alleles: vec![a0.as_bytes().to_vec(), a1.as_bytes().to_vec()],
        file_start_position: 0,
        size_in_bytes: 0,
        data_block: block,
    }
}

fn fixture_records() -> Vec<VariantData> {
    let mut records = Vec::new();
    records.push(make_record("1_752566_G_A", 752566, "G", "A", first_data_block()));
    records.push(make_record("1_752721_A_G", 752721, "A", "G", zero_data_block()));
    records.push(make_record("1_873558_G_T", 873558, "G", "T", zero_data_block()));
    records.push(make_record("1_881627_G_A", 881627, "G", "A", zero_data_block()));
    records.push(make_record("1_888659_T_C", 888659, "T", "C", zero_data_block()));
    records.push(make_record("1_891945_A_G", 891945, "A", "G", zero_data_block()));
    records.push(make_record("1_894573_G_A", 894573, "G", "A", zero_data_block()));
    for i in 7..100u32 {
        let pos = 1_000_000 + i;
        let rsid = format!("1_{}_A_C", pos);
        records.push(make_record(&rsid, pos, "A", "C", zero_data_block()));
    }
    records
}

fn fixture_bytes() -> Vec<u8> {
    let header = Header {
        start_data_offset: 1728,
        header_size: 20,
        variant_num: 100,
        variant_count: 0,
        sample_num: 100,
        header_flags: HeaderFlags {
            compressed_snp_blocks: true,
            layout_id: 2,
            sample_id_present: true,
        },
    };
    let samples: Vec<Vec<u8>> = (0..100u32)
        .map(|i| format!("sample_{:08}", i).into_bytes())
        .collect();
    let mut out = Vec::new();
    header.write_header(&mut out);
    write_samples(&samples, &mut out, 1708).unwrap();
    for record in fixture_records() {
        record.write_self(&mut out, true).unwrap();
    }
    out
}

fn create_bgen_and_read() -> BgenStream {
    let mut bgen_stream = BgenStream::from_bytes(fixture_bytes(), true).unwrap();
    bgen_stream.read_offset_and_header().unwrap();
    bgen_stream
}

fn collect_all(mut stream: BgenStream) -> Vec<VariantData> {
    let mut out = Vec::new();
    while let Some(r) = stream.next() {
        out.push(r.unwrap());
    }
    out
}

#[test]
fn variants_num_read() {
    let bgen_stream = create_bgen_and_read();
    let variant_data = collect_all(bgen_stream);
    assert_eq!(100, variant_data.len());
}

#[test]
fn first_variant_correct() {
    let bgen_stream = create_bgen_and_read();
    let variant_data = collect_all(bgen_stream);
    let first_variant_data = VariantData {
        variants_id: Vec::new(),
        rsid: b"1_752566_G_A".to_vec(),
        chr: b"1".to_vec(),
        pos: 752566,
        number_alleles: 2,
        alleles: vec![b"G".to_vec(), b"A".to_vec()],
        file_start_position: 1732,
        size_in_bytes: 127,
        data_block: first_data_block(),
    };
    assert_eq!(first_variant_data, variant_data[0]);
    assert_eq!(1732, variant_data[0].file_start_position);
    assert_eq!(200, variant_data[0].data_block.probabilities.len());
}

#[test]
fn test_no_filter() {
    let mut bgen_stream = create_bgen_and_read();
    let list_args = FilterArgs::default();
    bgen_stream.collect_filters(list_args).unwrap();
    let variant_data = collect_all(bgen_stream);
    assert_eq!(100, variant_data.len());
}

#[test]
fn test_filter() {
    let mut bgen_stream = create_bgen_and_read();
    let list_args = FilterArgs::default().with_range_incl_str(b"1:0-752567".to_vec());
    bgen_stream.collect_filters(list_args).unwrap();
    let variant_data = collect_all(bgen_stream);
    assert_eq!(1, variant_data.len());
}

#[test]
fn test_filter_rsid() {
    let mut bgen_stream = create_bgen_and_read();
    let list_args = FilterArgs::default().with_rsid_incl_str(b"1_752566_G_A".to_vec());
    bgen_stream.collect_filters(list_args).unwrap();
    let variant_data = collect_all(bgen_stream);
    assert_eq!(1, variant_data.len());
    assert_eq!(
        vec![b"1_752566_G_A".to_vec()],
        variant_data.into_iter().map(|v| v.rsid).collect::<Vec<Vec<u8>>>()
    );
}

#[test]
fn test_double_filter() {
    let mut bgen_stream = create_bgen_and_read();
    let list_args = FilterArgs::default()
        .with_range_incl_str(b"1:0-900000".to_vec())
        .with_range_excl_str(b"1:800000-850000".to_vec());
    bgen_stream.collect_filters(list_args).unwrap();
    let variant_data = collect_all(bgen_stream);
    assert_eq!(
        vec![
            b"1_752566_G_A".to_vec(),
            b"1_752721_A_G".to_vec(),
            b"1_873558_G_T".to_vec(),
            b"1_881627_G_A".to_vec(),
            b"1_888659_T_C".to_vec(),
            b"1_891945_A_G".to_vec(),
            b"1_894573_G_A".to_vec(),
        ],
        variant_data.into_iter().map(|v| v.rsid).collect::<Vec<Vec<u8>>>()
    );
}

#[test]
fn test_filter_idempotent_rerun() {
    let mut first_pass = create_bgen_and_read();
    let args = FilterArgs::default().with_range_incl_str(b"1:0-900000".to_vec());
    first_pass.collect_filters(args.clone()).unwrap();
    let once: Vec<Vec<u8>> = collect_all(first_pass).into_iter().map(|v| v.rsid).collect();
    // rewrite the accepted subset, then run the same filter over it again
    let mut filtered = create_bgen_and_read();
    filtered.collect_filters(args.clone()).unwrap();
    let rewritten = filtered.to_bgen(false).unwrap();
    let mut second_pass = BgenStream::from_bytes(rewritten, true).unwrap();
    second_pass.read_offset_and_header().unwrap();
    second_pass.collect_filters(args).unwrap();
    let twice: Vec<Vec<u8>> = collect_all(second_pass).into_iter().map(|v| v.rsid).collect();
    assert_eq!(once, twice);
}

#[test]
fn test_listing_lines() {
    let bgen_stream = create_bgen_and_read();
    let variant_data = collect_all(bgen_stream);
    let line = variant_data[0].bgenix_print();
    assert_eq!(b".\t1_752566_G_A\t752566\t2\tG\tA\t\n".to_vec(), line);
    let rsid_line = variant_data[0].rsid_print();
    assert_eq!(b"1_752566_G_A\n".to_vec(), rsid_line);
}
