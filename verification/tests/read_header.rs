use bgen_reader::bgen_stream::{write_samples, BgenStream};
use bgen_reader::header::{Header, HeaderFlags};
use bgen_reader::variant_data::{DataBlock, VariantData};

fn make_record(rsid: &str, pos: u32) -> VariantData {
    VariantData {
        variants_id: Vec::new(),
        rsid: rsid.as_bytes().to_vec(),
        chr: b"1".to_vec(),
        pos,
        number_alleles: 2,
        alleles: vec![b"A".to_vec(), b"C".to_vec()],
        file_start_position: 0,
        size_in_bytes: 0,
        data_block: DataBlock {
            number_individuals: 100,
            number_alleles: 2,
            minimum_ploidy: 2,
            maximum_ploidy: 2,
            ploidy_missingness: vec![2u8; 100],
            phased: false,
            bytes_probability: 16,
            probabilities: vec![0u32; 200],
        },
    }
}

fn fixture_bytes() -> Vec<u8> {
    let header = Header {
        start_data_offset: 1728,
        header_size: 20,
        variant_num: 100,
        variant_count: 0,
        sample_num: 100,
        header_flags: HeaderFlags {
            compressed_snp_blocks: true,
            layout_id: 2,
            sample_id_present: true,
        },
    };
    let samples: Vec<Vec<u8>> = (0..100u32)
        .map(|i| format!("sample_{:08}", i).into_bytes())
        .collect();
    let mut out = Vec::new();
    header.write_header(&mut out);
    write_samples(&samples, &mut out, 1708).unwrap();
    for i in 0..100u32 {
        let pos = 500_000 + i;
        let rsid = format!("1_{}_A_C", pos);
        make_record(&rsid, pos).write_self(&mut out, true).unwrap();
    }
    out
}

fn create_bgen_and_read() -> BgenStream {
    let mut bgen_stream = BgenStream::from_bytes(fixture_bytes(), true).unwrap();
    bgen_stream.read_offset_and_header().unwrap();
    bgen_stream
}

#[test]
fn read_offset() {
    let bgen_stream = create_bgen_and_read();
    assert_eq!(1728, bgen_stream.header.start_data_offset);
}

#[test]
fn read_header_size() {
    let bgen_stream = create_bgen_and_read();
    assert_eq!(20, bgen_stream.header.header_size);
}

#[test]
fn read_header_flags() {
    let header_flag = HeaderFlags {
        compressed_snp_blocks: true,
        layout_id: 2,
        sample_id_present: true,
    };
    let bgen_stream = create_bgen_and_read();
    assert_eq!(header_flag, bgen_stream.header.header_flags);
}

#[test]
fn read_cursor_sits_at_first_record() {
    let bgen_stream = create_bgen_and_read();
    assert_eq!(
        bgen_stream.header.start_data_offset as usize + 4,
        bgen_stream.byte_count
    );
}
