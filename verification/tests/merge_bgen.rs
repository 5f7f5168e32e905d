use bgen_reader::bgen_stream::{bgen_merge, write_samples, BgenStream};
use bgen_reader::error::BgenError;
use bgen_reader::header::{Header, HeaderFlags};
use bgen_reader::parser::FilterArgs;
use bgen_reader::variant_data::{DataBlock, VariantData};

fn make_record(rsid: &str, pos: u32, fill: u32) -> VariantData {
    VariantData {
        variants_id: Vec::new(),
        rsid: rsid.as_bytes().to_vec(),
        chr: b"1".to_vec(),
        pos,
        number_alleles: 2,
        alleles: vec![b"G".to_vec(), b"A".to_vec()],
        file_start_position: 0,
        size_in_bytes: 0,
        data_block: DataBlock {
            number_individuals: 6,
            number_alleles: 2,
            minimum_ploidy: 2,
            maximum_ploidy: 2,
            ploidy_missingness: vec![2u8; 6],
            phased: false,
            bytes_probability: 16,
            probabilities: (0..12u32).map(|k| (k * 17 + fill) % 65536).collect(),
        },
    }
}

fn fixture_with_samples(samples: &[&str], positions: &[u32]) -> Vec<u8> {
    let sample_vecs: Vec<Vec<u8>> = samples.iter().map(|s| s.as_bytes().to_vec()).collect();
    let block: u32 = 8 + sample_vecs.iter().map(|s| s.len() as u32 + 2).sum::<u32>();
    let header = Header {
        start_data_offset: 20 + block,
        header_size: 20,
        variant_num: positions.len() as u32,
        variant_count: 0,
        sample_num: sample_vecs.len() as u32,
        header_flags: HeaderFlags {
            compressed_snp_blocks: true,
            layout_id: 2,
            sample_id_present: true,
        },
    };
    let mut out = Vec::new();
    header.write_header(&mut out);
    write_samples(&sample_vecs, &mut out, block).unwrap();
    for (i, &pos) in positions.iter().enumerate() {
        let rsid = format!("1_{}_G_A", pos);
        make_record(&rsid, pos, i as u32).write_self(&mut out, true).unwrap();
    }
    out
}

fn fixture_bytes() -> Vec<u8> {
    fixture_with_samples(
        &["s0", "s1", "s2", "s3", "s4", "s5"],
        &[700_000, 800_000, 900_000, 960_000, 990_000],
    )
}

fn open(bytes: Vec<u8>) -> BgenStream {
    let mut stream = BgenStream::from_bytes(bytes, true).unwrap();
    stream.read_offset_and_header().unwrap();
    stream
}

fn collect_all(mut stream: BgenStream) -> Vec<VariantData> {
    let mut out = Vec::new();
    while let Some(r) = stream.next() {
        out.push(r.unwrap());
    }
    out
}

#[test]
fn filtering_then_merging() {
    let mut included = open(fixture_bytes());
    included
        .collect_filters(FilterArgs::default().with_range_incl_str(b"1:0-952567".to_vec()))
        .unwrap();
    let part_1 = included.to_bgen(false).unwrap();
    let mut excluded = open(fixture_bytes());
    excluded
        .collect_filters(FilterArgs::default().with_range_excl_str(b"1:0-952567".to_vec()))
        .unwrap();
    let part_2 = excluded.to_bgen(false).unwrap();
    let merged = bgen_merge(&vec![part_1, part_2]).unwrap();

    let reconstructed = open(merged);
    let original = open(fixture_bytes());
    assert_eq!(original.header, reconstructed.header);
    assert_eq!(original.samples, reconstructed.samples);
    let merged_records = collect_all(reconstructed);
    let original_records = collect_all(original);
    assert_eq!(original_records.len(), merged_records.len());
    assert_eq!(original_records, merged_records);
}

#[test]
fn merge_is_concatenation_of_bodies() {
    let a = fixture_with_samples(&["x", "y"], &[1000, 2000]);
    let b = fixture_with_samples(&["x", "y"], &[3000]);
    let merged = bgen_merge(&vec![a.clone(), b.clone()]).unwrap();
    let opened_a = open(a);
    let opened_b = open(b);
    let merged_stream = open(merged);
    assert_eq!(3, merged_stream.header.variant_num);
    let mut expected = collect_all(opened_a);
    expected.extend(collect_all(opened_b));
    let records = collect_all(merged_stream);
    assert_eq!(expected, records);
}

#[test]
fn merge_rejects_sample_mismatch() {
    let a = fixture_with_samples(&["x", "y"], &[1000]);
    let b = fixture_with_samples(&["x", "z"], &[2000]);
    assert_eq!(Err(BgenError::SampleMismatch), bgen_merge(&vec![a, b]).map(|_| ()));
}

#[test]
fn merge_rejects_empty_input_list() {
    assert_eq!(
        Err(BgenError::NothingToMerge),
        bgen_merge(&Vec::new()).map(|_| ())
    );
}
