//! The streaming reader over one container held in memory: header and
//! sample-block decoding, the filtered record iterator, the rewriter and the
//! merger.
//!
//! The stream owns the container bytes and a cumulative byte counter; every
//! read advances the counter, and after a successful `read_offset_and_header`
//! the counter sits exactly at `start_data_offset + 4`, where the first
//! record begins.

use crate::error::BgenError;
use crate::header::{
    spec_encode_header, spec_flags_from_u32, spec_magic, Header, HeaderFlags,
};
use crate::parser::{FilterArgs, Range};
use crate::utils::spec_str16;
use crate::variant_data::{
    spec_default_data_block, spec_filter_with_args, spec_parse_record, spec_parse_u16,
    spec_parse_u32, spec_with_pos, DataBlock, VariantData, VariantDataV,
};
use vstd::bytes::{spec_u16_to_le_bytes, spec_u32_to_le_bytes};
use vstd::prelude::*;
use vstd::utf8::valid_utf8;

verus! {

/// What is known about the source a stream was built from: the file it came
/// from, or the bytes it was handed.
#[derive(Clone, Debug)]
pub enum MetadataBgi {
    File(FileMetadata),
    Bytes(BytesMetadata),
}

/// Description of a source file, with times as seconds.
#[derive(Clone, Debug)]
pub struct FileMetadata {
    pub filename: Vec<u8>,
    pub path: Vec<u8>,
    pub file_size: u64,
    pub last_write_time: u64,
    pub first_1000_bytes: Vec<u8>,
    pub index_creation_time: u64,
}

/// A source that was handed over as bytes.
#[derive(Clone, Debug)]
pub struct BytesMetadata {
    pub bytes: Vec<u8>,
}

/// A streaming reader over one container.
pub struct BgenStream {
    pub bytes: Vec<u8>,
    pub read_data_block: bool,
    pub len_samples_block: u32,
    pub header: Header,
    pub metadata: MetadataBgi,
    pub byte_count: usize,
    pub incl_range: Vec<Range>,
    pub incl_rsids: Vec<Vec<u8>>,
    pub excl_range: Vec<Range>,
    pub excl_rsids: Vec<Vec<u8>>,
    pub samples: Vec<Vec<u8>>,
}

// ---------------------------------------------------------------------------
// Specification of the header-and-samples prefix
// ---------------------------------------------------------------------------
/// Reads `k` `u16`-length-prefixed UTF-8 strings at `pos`.
pub open spec fn spec_parse_str16_list(b: Seq<u8>, pos: int, k: nat) -> Result<
    (Seq<Seq<u8>>, int),
    BgenError,
>
    decreases k,
{
    if k == 0 {
        Ok((Seq::empty(), pos))
    } else {
        match crate::variant_data::spec_parse_str16(b, pos) {
            Err(e) => Err(e),
            Ok((s, p)) => match spec_parse_str16_list(b, p, (k - 1) as nat) {
                Err(e) => Err(e),
                Ok((rest, q)) => Ok((seq![s] + rest, q)),
            },
        }
    }
}

/// The sample block at `pos`: its byte length word, its count, and the
/// sample identifiers. With a non-empty pre-supplied list the embedded one
/// must equal it.
pub open spec fn spec_read_samples(b: Seq<u8>, pos: int, pre: Seq<Seq<u8>>) -> Result<
    (u32, Seq<Seq<u8>>, int),
    BgenError,
> {
    match spec_parse_u32(b, pos) {
        Err(e) => Err(e),
        Ok((len_block, p1)) => match spec_parse_u32(b, p1) {
            Err(e) => Err(e),
            Ok((num, p2)) => match spec_parse_str16_list(b, p2, num as nat) {
                Err(e) => Err(e),
                Ok((samples, p3)) => {
                    if pre.len() > 0 && pre != samples {
                        Err(BgenError::SampleMismatch)
                    } else {
                        Ok((len_block, samples, p3))
                    }
                },
            },
        },
    }
}

/// What opening a container denotes: the header, the sample-block length
/// word, the samples (the pre-supplied ones when none are embedded), and the
/// cursor after the whole prefix, which is `start_data_offset + 4` on every
/// success.
///
/// A cursor short of `start_data_offset` is walked forward (producers leave
/// extra bytes); one past it is an error.
pub open spec fn spec_open(b: Seq<u8>, pre: Seq<Seq<u8>>) -> Result<
    (Header, u32, Seq<Seq<u8>>, int),
    BgenError,
> {
    match spec_parse_u32(b, 0) {
        Err(e) => Err(e),
        Ok((start, p1)) => match spec_parse_u32(b, p1) {
            Err(e) => Err(e),
            Ok((header_size, p2)) => {
                if header_size < 20 {
                    Err(BgenError::HeaderSizeTooSmall)
                } else {
                    match spec_parse_u32(b, p2) {
                        Err(e) => Err(e),
                        Ok((variant_num, p3)) => {
                            if variant_num == 0 {
                                Err(BgenError::NoVariants)
                            } else {
                                match spec_parse_u32(b, p3) {
                                    Err(e) => Err(e),
                                    Ok((sample_num, p4)) => {
                                        if sample_num == 0 {
                                            Err(BgenError::NoSamples)
                                        } else {
                                            spec_open_tail(
                                                b,
                                                pre,
                                                start,
                                                header_size,
                                                variant_num,
                                                sample_num,
                                                p4,
                                            )
                                        }
                                    },
                                }
                            }
                        },
                    }
                }
            },
        },
    }
}

/// The magic tag, the reserved area, the flag word and the optional sample
/// block, continuing [`spec_open`] at `p4`.
pub open spec fn spec_open_tail(
    b: Seq<u8>,
    pre: Seq<Seq<u8>>,
    start: u32,
    header_size: u32,
    variant_num: u32,
    sample_num: u32,
    p4: int,
) -> Result<(Header, u32, Seq<Seq<u8>>, int), BgenError> {
    if p4 + 4 > b.len() {
        Err(BgenError::UnexpectedEndOfInput)
    } else if !(b.subrange(p4, p4 + 4) == seq![0u8, 0u8, 0u8, 0u8] || b.subrange(p4, p4 + 4)
        == spec_magic()) {
        Err(BgenError::MagicMismatch)
    } else if p4 + 4 + (header_size - 20) > b.len() {
        Err(BgenError::UnexpectedEndOfInput)
    } else {
        let p5 = p4 + 4 + (header_size - 20);
        match spec_parse_u32(b, p5) {
            Err(e) => Err(e),
            Ok((flag_word, p6)) => {
                let header_flags = spec_flags_from_u32(flag_word);
                let sampled = if header_flags.sample_id_present {
                    spec_read_samples(b, p6, pre)
                } else {
                    Ok((0u32, pre, p6))
                };
                match sampled {
                    Err(e) => Err(e),
                    Ok((len_block, samples, p7)) => {
                        let h = Header {
                            start_data_offset: start,
                            header_size,
                            variant_num,
                            variant_count: 0,
                            sample_num,
                            header_flags,
                        };
                        if p7 - 4 == start {
                            Ok((h, len_block, samples, p7))
                        } else if p7 - 4 > start {
                            Err(BgenError::HeaderOffsetMismatch)
                        } else if start + 4 > b.len() {
                            Err(BgenError::UnexpectedEndOfInput)
                        } else {
                            Ok((h, len_block, samples, start + 4))
                        }
                    },
                }
            },
        }
    }
}

impl BgenStream {
    /// The container bytes the stream owns.
    pub open spec fn spec_bytes(&self) -> Seq<u8> {
        self.bytes@
    }

    /// Whether the payload of each record is decoded or skipped.
    pub open spec fn spec_read_data_block(&self) -> bool {
        self.read_data_block
    }

    /// The byte-length word of the sample block, kept for re-emission.
    pub open spec fn spec_len_samples_block(&self) -> u32 {
        self.len_samples_block
    }

    /// A fresh, not yet opened stream over `bytes`.
    pub fn new(
        bytes: Vec<u8>,
        metadata: MetadataBgi,
        samples: Vec<Vec<u8>>,
        read_data_block: bool,
    ) -> (r: BgenStream)
        ensures
            r.spec_bytes() == bytes@,
            r.spec_read_data_block() == read_data_block,
            r.spec_len_samples_block() == 0,
            r.header == Header::spec_default(),
            r.byte_count == 0,
            r.samples == samples,
            r.incl_range@.len() == 0,
            r.incl_rsids@.len() == 0,
            r.excl_range@.len() == 0,
            r.excl_rsids@.len() == 0,
            r.metadata == metadata,
    {
        BgenStream {
            bytes,
            read_data_block,
            len_samples_block: 0,
            header: Header {
                start_data_offset: 0,
                header_size: 0,
                variant_num: 0,
                variant_count: 0,
                sample_num: 0,
                header_flags: HeaderFlags {
                    compressed_snp_blocks: false,
                    layout_id: 0,
                    sample_id_present: false,
                },
            },
            metadata,
            byte_count: 0,
            incl_range: Vec::new(),
            incl_rsids: Vec::new(),
            excl_range: Vec::new(),
            excl_rsids: Vec::new(),
            samples,
        }
    }

    /// A stream over a byte vector, remembering the bytes so that an
    /// identical stream can be built for a second pass.
    pub fn from_bytes(bytes: Vec<u8>, read_data_block: bool) -> (r: Result<BgenStream, BgenError>)
        ensures
            r matches Ok(s) ==> {
                &&& s.spec_bytes() == bytes@
                &&& s.spec_read_data_block() == read_data_block
                &&& s.header == Header::spec_default()
                &&& s.byte_count == 0
                &&& s.samples@.len() == 0
                &&& s.incl_range@.len() == 0
                &&& s.incl_rsids@.len() == 0
                &&& s.excl_range@.len() == 0
                &&& s.excl_rsids@.len() == 0
            },
            r is Ok,
    {
        let copy = crate::utils::copy_bytes(&bytes);
        let metadata = MetadataBgi::Bytes(BytesMetadata { bytes: copy });
        Ok(BgenStream::new(bytes, metadata, Vec::new(), read_data_block))
    }

    /// Reads four bytes as a little-endian word.
    fn read_u32(&mut self) -> (r: Result<u32, BgenError>)
        ensures
            final(self).unchanged_but_cursor(old(self)),
            match r {
                Ok(v) => spec_parse_u32(old(self).spec_bytes(), old(self).byte_count as int) == Ok::<
                    (u32, int),
                    BgenError,
                >((v, final(self).byte_count as int)) && final(self).byte_count == old(
                    self,
                ).byte_count + 4 && final(self).byte_count <= final(self).bytes@.len(),
                Err(e) => spec_parse_u32(old(self).spec_bytes(), old(self).byte_count as int)
                    == Err::<(u32, int), BgenError>(e) && *final(self) == *old(self),
            },
    {
        let pos = self.byte_count;
        if pos > self.bytes.len() || self.bytes.len() - pos < 4 {
            return Err(BgenError::UnexpectedEndOfInput);
        }
        let v = vstd::bytes::u32_from_le_bytes(
            vstd::slice::slice_subrange(self.bytes.as_slice(), pos, pos + 4),
        );
        self.byte_count = pos + 4;
        Ok(v)
    }

    /// Reads two bytes as a little-endian word.
    fn read_u16(&mut self) -> (r: Result<u16, BgenError>)
        ensures
            final(self).unchanged_but_cursor(old(self)),
            match r {
                Ok(v) => spec_parse_u16(old(self).spec_bytes(), old(self).byte_count as int) == Ok::<
                    (u16, int),
                    BgenError,
                >((v, final(self).byte_count as int)) && final(self).byte_count == old(
                    self,
                ).byte_count + 2 && final(self).byte_count <= final(self).bytes@.len(),
                Err(e) => spec_parse_u16(old(self).spec_bytes(), old(self).byte_count as int)
                    == Err::<(u16, int), BgenError>(e) && *final(self) == *old(self),
            },
    {
        let pos = self.byte_count;
        if pos > self.bytes.len() || self.bytes.len() - pos < 2 {
            return Err(BgenError::UnexpectedEndOfInput);
        }
        let v = vstd::bytes::u16_from_le_bytes(
            vstd::slice::slice_subrange(self.bytes.as_slice(), pos, pos + 2),
        );
        self.byte_count = pos + 2;
        Ok(v)
    }

    /// Everything except the cursor is as it was.
    pub open spec fn unchanged_but_cursor(self, other: &BgenStream) -> bool {
        self == (BgenStream { byte_count: self.byte_count, ..*other })
    }

    /// Reads `size` raw bytes.
    fn read_vector_length(&mut self, size: usize) -> (r: Result<Vec<u8>, BgenError>)
        ensures
            final(self).unchanged_but_cursor(old(self)),
            match r {
                Ok(v) => {
                    &&& old(self).byte_count + size <= old(self).spec_bytes().len()
                    &&& v@ == old(self).spec_bytes().subrange(
                        old(self).byte_count as int,
                        old(self).byte_count + size,
                    )
                    &&& final(self).byte_count == old(self).byte_count + size
                    &&& final(self).byte_count <= final(self).bytes@.len()
                },
                Err(e) => {
                    &&& old(self).byte_count + size > old(self).spec_bytes().len()
                    &&& e == BgenError::UnexpectedEndOfInput
                    &&& *final(self) == *old(self)
                },
            },
    {
        let pos = self.byte_count;
        if pos > self.bytes.len() || self.bytes.len() - pos < size {
            return Err(BgenError::UnexpectedEndOfInput);
        }
        let v = vstd::slice::slice_to_vec(
            vstd::slice::slice_subrange(self.bytes.as_slice(), pos, pos + size),
        );
        self.byte_count = pos + size;
        Ok(v)
    }

    /// Walks the cursor over `num_bytes` bytes without reading them.
    fn skip_bytes(&mut self, num_bytes: usize) -> (r: Result<(), BgenError>)
        ensures
            final(self).unchanged_but_cursor(old(self)),
            match r {
                Ok(()) => {
                    &&& old(self).byte_count + num_bytes <= old(self).spec_bytes().len()
                    &&& final(self).byte_count == old(self).byte_count + num_bytes
                    &&& final(self).byte_count <= final(self).bytes@.len()
                },
                Err(e) => {
                    &&& old(self).byte_count + num_bytes > old(self).spec_bytes().len()
                    &&& e == BgenError::UnexpectedEndOfInput
                    &&& *final(self) == *old(self)
                },
            },
    {
        let pos = self.byte_count;
        if pos > self.bytes.len() || self.bytes.len() - pos < num_bytes {
            return Err(BgenError::UnexpectedEndOfInput);
        }
        self.byte_count = pos + num_bytes;
        Ok(())
    }

    /// Reads a `u16`-length-prefixed UTF-8 string.
    fn read_u16_sized_string(&mut self) -> (r: Result<Vec<u8>, BgenError>)
        ensures
            final(self).unchanged_but_cursor(old(self)),
            match r {
                Ok(v) => crate::variant_data::spec_parse_str16(
                    old(self).spec_bytes(),
                    old(self).byte_count as int,
                ) == Ok::<(Seq<u8>, int), BgenError>((v@, final(self).byte_count as int))
                    && final(self).byte_count >= old(self).byte_count
                    && final(self).byte_count <= final(self).bytes@.len(),
                Err(e) => crate::variant_data::spec_parse_str16(
                    old(self).spec_bytes(),
                    old(self).byte_count as int,
                ) == Err::<(Seq<u8>, int), BgenError>(e) && *final(self) == *old(self),
            },
    {
        let saved = self.byte_count;
        let size = match self.read_u16() {
            Ok(v) => v,
            Err(e) => {
                return Err(e);
            },
        };
        let s = match self.read_vector_length(size as usize) {
            Ok(v) => v,
            Err(e) => {
                self.byte_count = saved;
                return Err(e);
            },
        };
        if !crate::utils::check_utf8(s.as_slice()) {
            self.byte_count = saved;
            return Err(BgenError::InvalidUtf8);
        }
        Ok(s)
    }

    /// Reads a `u32`-length-prefixed UTF-8 string.
    fn read_u32_sized_string(&mut self) -> (r: Result<Vec<u8>, BgenError>)
        ensures
            final(self).unchanged_but_cursor(old(self)),
            match r {
                Ok(v) => crate::variant_data::spec_parse_str32(
                    old(self).spec_bytes(),
                    old(self).byte_count as int,
                ) == Ok::<(Seq<u8>, int), BgenError>((v@, final(self).byte_count as int))
                    && final(self).byte_count >= old(self).byte_count
                    && final(self).byte_count <= final(self).bytes@.len(),
                Err(e) => crate::variant_data::spec_parse_str32(
                    old(self).spec_bytes(),
                    old(self).byte_count as int,
                ) == Err::<(Seq<u8>, int), BgenError>(e) && *final(self) == *old(self),
            },
    {
        let saved = self.byte_count;
        let size = match self.read_u32() {
            Ok(v) => v,
            Err(e) => {
                return Err(e);
            },
        };
        if size as u64 > self.bytes.len() as u64 {
            self.byte_count = saved;
            return Err(BgenError::UnexpectedEndOfInput);
        }
        let s = match self.read_vector_length(size as usize) {
            Ok(v) => v,
            Err(e) => {
                self.byte_count = saved;
                return Err(e);
            },
        };
        if !crate::utils::check_utf8(s.as_slice()) {
            self.byte_count = saved;
            return Err(BgenError::InvalidUtf8);
        }
        Ok(s)
    }
}

/// Whether the two lists hold the same byte strings in the same order.
pub fn samples_eq(a: &Vec<Vec<u8>>, b: &Vec<Vec<u8>>) -> (r: bool)
    ensures
        r == (a.deep_view() == b.deep_view()),
{
    proof {
        assert(a.deep_view().len() == a@.len());
        assert(b.deep_view().len() == b@.len());
    }
    if a.len() != b.len() {
        return false;
    }
    let mut i: usize = 0;
    while i < a.len()
        invariant
            i <= a@.len(),
            a@.len() == b@.len(),
            a.deep_view().len() == a@.len(),
            b.deep_view().len() == b@.len(),
            forall|j: int| 0 <= j < a@.len() ==> #[trigger] a.deep_view()[j] == a@[j]@,
            forall|j: int| 0 <= j < b@.len() ==> #[trigger] b.deep_view()[j] == b@[j]@,
            forall|j: int| 0 <= j < i ==> a@[j]@ == b@[j]@,
        decreases a@.len() - i,
    {
        let same = a[i] == b[i];
        proof {
            assert(a.deep_view()[i as int] == a@[i as int]@);
            assert(b.deep_view()[i as int] == b@[i as int]@);
            if a@[i as int]@ == b@[i as int]@ {
                assert(a@[i as int]@ =~= b@[i as int]@);
            }
            if same {
                assert(a@[i as int]@ =~= b@[i as int]@);
            }
        }
        if !same {
            return false;
        }
        i = i + 1;
    }
    proof {
        assert(a.deep_view() =~= b.deep_view());
    }
    true
}

/// A fresh copy of a list of byte strings.
pub fn copy_samples(v: &Vec<Vec<u8>>) -> (r: Vec<Vec<u8>>)
    ensures
        r.deep_view() == v.deep_view(),
{
    let mut r: Vec<Vec<u8>> = Vec::new();
    let mut i: usize = 0;
    while i < v.len()
        invariant
            i <= v@.len(),
            r@.len() == i,
            forall|j: int| 0 <= j < i ==> #[trigger] r@[j]@ == v@[j]@,
        decreases v@.len() - i,
    {
        r.push(crate::utils::copy_bytes(&v[i]));
        i = i + 1;
    }
    proof {
        assert(r.deep_view() =~~= v.deep_view());
    }
    r
}

/// A fresh copy of a list of ranges.
pub fn copy_ranges(v: &Vec<Range>) -> (r: Vec<Range>)
    ensures
        r.deep_view() == v.deep_view(),
{
    let mut r: Vec<Range> = Vec::new();
    let mut i: usize = 0;
    while i < v.len()
        invariant
            i <= v@.len(),
            r@.len() == i,
            forall|j: int| 0 <= j < i ==> #[trigger] r@[j]@ == v@[j]@,
        decreases v@.len() - i,
    {
        let item = &v[i];
        let copy = Range {
            chr: crate::utils::copy_bytes(&item.chr),
            start: item.start,
            end: item.end,
            incl: item.incl,
        };
        proof {
            assert(copy@ =~= v@[i as int]@);
        }
        r.push(copy);
        i = i + 1;
    }
    proof {
        assert(r.deep_view() =~= v.deep_view());
    }
    r
}

impl BgenStream {
    /// Everything except the cursor, the sample fields and the header is as
    /// it was.
    pub open spec fn unchanged_but_open(self, other: &BgenStream) -> bool {
        self == (BgenStream {
            byte_count: self.byte_count,
            len_samples_block: self.len_samples_block,
            samples: self.samples,
            header: self.header,
            ..*other
        })
    }

    /// Reads the sample block at the cursor and stores its identifiers,
    /// which must match a non-empty pre-supplied list.
    pub fn read_samples(&mut self) -> (r: Result<(), BgenError>)
        ensures
            final(self).unchanged_but_open(old(self)),
            final(self).header == old(self).header,
            match spec_read_samples(
                old(self).bytes@,
                old(self).byte_count as int,
                old(self).samples.deep_view(),
            ) {
                Ok((len_block, samples, p)) => r is Ok && final(self).len_samples_block
                    == len_block && final(self).samples.deep_view() == samples
                    && final(self).byte_count == p && p <= final(self).bytes@.len(),
                Err(e) => r == Err::<(), BgenError>(e),
            },
    {
        let ghost b = self.bytes@;
        let ghost pre = self.samples.deep_view();
        let len_samples_block = match self.read_u32() {
            Ok(v) => v,
            Err(e) => {
                return Err(e);
            },
        };
        let num_samples = match self.read_u32() {
            Ok(v) => v,
            Err(e) => {
                return Err(e);
            },
        };
        let ghost p2 = self.byte_count as int;
        let mut new_samples: Vec<Vec<u8>> = Vec::new();
        let mut k: u32 = 0;
        proof {
            assert(new_samples.deep_view() =~= Seq::<Seq<u8>>::empty());
            assert(new_samples.deep_view() + spec_parse_str16_list(
                b,
                p2,
                num_samples as nat,
            )->Ok_0.0 =~= spec_parse_str16_list(b, p2, num_samples as nat)->Ok_0.0);
        }
        while k < num_samples
            invariant
                k <= num_samples,
                self.unchanged_but_open(old(self)),
                self.header == old(self).header,
                self.len_samples_block == old(self).len_samples_block,
                self.samples == old(self).samples,
                b == self.bytes@,
                pre == old(self).samples.deep_view(),
                self.byte_count <= self.bytes@.len(),
                new_samples.deep_view().len() == k,
                spec_read_samples(b, old(self).byte_count as int, pre) == (match spec_parse_str16_list(
                    b,
                    p2,
                    num_samples as nat,
                ) {
                    Err(e) => Err::<(u32, Seq<Seq<u8>>, int), BgenError>(e),
                    Ok((samples, p)) => if pre.len() > 0 && pre != samples {
                        Err::<(u32, Seq<Seq<u8>>, int), BgenError>(BgenError::SampleMismatch)
                    } else {
                        Ok::<(u32, Seq<Seq<u8>>, int), BgenError>((len_samples_block, samples, p))
                    },
                }),
                match spec_parse_str16_list(b, self.byte_count as int, (num_samples - k) as nat) {
                    Err(e) => spec_parse_str16_list(b, p2, num_samples as nat) == Err::<
                        (Seq<Seq<u8>>, int),
                        BgenError,
                    >(e),
                    Ok((rest, q)) => spec_parse_str16_list(b, p2, num_samples as nat) == Ok::<
                        (Seq<Seq<u8>>, int),
                        BgenError,
                    >((new_samples.deep_view() + rest, q)),
                },
            decreases num_samples - k,
        {
            let ghost cur = self.byte_count as int;
            let s = match self.read_u16_sized_string() {
                Ok(v) => v,
                Err(e) => {
                    return Err(e);
                },
            };
            let ghost old_acc = new_samples.deep_view();
            new_samples.push(s);
            proof {
                assert(new_samples.deep_view() =~~= old_acc.push(s@));
                let m = (num_samples - k) as nat;
                let tail = spec_parse_str16_list(b, self.byte_count as int, (m - 1) as nat);
                match tail {
                    Err(_) => {},
                    Ok((rest, q)) => {
                        assert(old_acc + (seq![s@] + rest) =~= new_samples.deep_view() + rest);
                    },
                }
            }
            k = k + 1;
        }
        proof {
            assert(spec_parse_str16_list(b, self.byte_count as int, 0) == Ok::<
                (Seq<Seq<u8>>, int),
                BgenError,
            >((Seq::<Seq<u8>>::empty(), self.byte_count as int)));
            assert(new_samples.deep_view() + Seq::<Seq<u8>>::empty() =~= new_samples.deep_view());
        }
        proof {
            assert(old(self).samples.deep_view().len() == old(self).samples@.len());
        }
        if !self.samples.is_empty() {
            if !samples_eq(&self.samples, &new_samples) {
                return Err(BgenError::SampleMismatch);
            }
        }
        self.len_samples_block = len_samples_block;
        self.samples = new_samples;
        Ok(())
    }
}

impl BgenStream {
    /// Parses the offset word, the header area and the optional sample
    /// block. On success the cursor sits exactly at `start_data_offset + 4`,
    /// where the first record begins.
    #[verifier::rlimit(100)]
    pub fn read_offset_and_header(&mut self) -> (r: Result<(), BgenError>)
        requires
            old(self).byte_count == 0,
        ensures
            final(self).unchanged_but_open(old(self)),
            match spec_open(old(self).bytes@, old(self).samples.deep_view()) {
                Ok((h, len_block, samples, p)) => {
                    &&& r is Ok
                    &&& final(self).header == h
                    &&& final(self).len_samples_block == len_block
                    &&& final(self).samples.deep_view() == samples
                    &&& final(self).byte_count == p
                    &&& p <= final(self).bytes@.len()
                    &&& p == h.start_data_offset + 4
                },
                Err(e) => r == Err::<(), BgenError>(e),
            },
    {
        let ghost b = self.bytes@;
        let ghost pre = self.samples.deep_view();
        let start_data_offset = match self.read_u32() {
            Ok(v) => v,
            Err(e) => {
                return Err(e);
            },
        };
        let header_size = match self.read_u32() {
            Ok(v) => v,
            Err(e) => {
                return Err(e);
            },
        };
        if header_size < 20 {
            return Err(BgenError::HeaderSizeTooSmall);
        }
        let variant_num = match self.read_u32() {
            Ok(v) => v,
            Err(e) => {
                return Err(e);
            },
        };
        if variant_num == 0 {
            return Err(BgenError::NoVariants);
        }
        let sample_num = match self.read_u32() {
            Ok(v) => v,
            Err(e) => {
                return Err(e);
            },
        };
        if sample_num == 0 {
            return Err(BgenError::NoSamples);
        }
        self.open_tail(start_data_offset, header_size, variant_num, sample_num)
    }

    /// The magic tag, the reserved area, the flag word, the optional sample
    /// block and the final cursor check, continuing `read_offset_and_header`.
    #[verifier::rlimit(100)]
    fn open_tail(
        &mut self,
        start_data_offset: u32,
        header_size: u32,
        variant_num: u32,
        sample_num: u32,
    ) -> (r: Result<(), BgenError>)
        requires
            header_size >= 20,
            variant_num > 0,
            sample_num > 0,
        ensures
            final(self).unchanged_but_open(old(self)),
            match spec_open_tail(
                old(self).bytes@,
                old(self).samples.deep_view(),
                start_data_offset,
                header_size,
                variant_num,
                sample_num,
                old(self).byte_count as int,
            ) {
                Ok((h, len_block, samples, p)) => {
                    &&& r is Ok
                    &&& final(self).header == h
                    &&& final(self).len_samples_block == len_block
                    &&& final(self).samples.deep_view() == samples
                    &&& final(self).byte_count == p
                    &&& p <= final(self).bytes@.len()
                    &&& p == h.start_data_offset + 4
                },
                Err(e) => r == Err::<(), BgenError>(e),
            },
    {
        let ghost p4 = self.byte_count as int;
        let magic = match self.read_vector_length(4) {
            Ok(v) => v,
            Err(_) => {
                return Err(BgenError::UnexpectedEndOfInput);
            },
        };
        let magic_zero = magic[0] == 0 && magic[1] == 0 && magic[2] == 0 && magic[3] == 0;
        let magic_tag = magic[0] == 0x62 && magic[1] == 0x67 && magic[2] == 0x65 && magic[3]
            == 0x6e;
        proof {
            if magic_zero {
                assert(magic@ =~= seq![0u8, 0u8, 0u8, 0u8]);
            }
            if magic_tag {
                assert(magic@ =~= spec_magic());
            }
            if magic@ == seq![0u8, 0u8, 0u8, 0u8] {
                assert(magic@[0] == 0 && magic@[1] == 0 && magic@[2] == 0 && magic@[3] == 0);
            }
            if magic@ == spec_magic() {
                assert(magic@[0] == 0x62 && magic@[1] == 0x67 && magic@[2] == 0x65 && magic@[3]
                    == 0x6e);
            }
        }
        if !(magic_zero || magic_tag) {
            return Err(BgenError::MagicMismatch);
        }
        match self.skip_bytes((header_size - 20) as usize) {
            Ok(()) => (),
            Err(e) => {
                return Err(e);
            },
        }
        let flag_word = match self.read_u32() {
            Ok(v) => v,
            Err(e) => {
                return Err(e);
            },
        };
        let header_flags = match HeaderFlags::from_u32(flag_word) {
            Ok(v) => v,
            Err(e) => {
                return Err(e);
            },
        };
        if header_flags.sample_id_present {
            match self.read_samples() {
                Ok(()) => (),
                Err(e) => {
                    return Err(e);
                },
            }
        } else {
            self.len_samples_block = 0;
        }
        let header = Header {
            start_data_offset,
            header_size,
            variant_num,
            variant_count: 0,
            sample_num,
            header_flags,
        };
        if self.byte_count as u64 == start_data_offset as u64 + 4 {
            self.header = header;
            return Ok(());
        }
        if self.byte_count as u64 > start_data_offset as u64 + 4 {
            return Err(BgenError::HeaderOffsetMismatch);
        }
        let gap = start_data_offset as u64 + 4 - self.byte_count as u64;
        if gap > usize::MAX as u64 {
            let total = self.bytes.len();
            proof {
                assert(self.bytes@.len() == total);
                assert(start_data_offset as int + 4 > self.bytes@.len());
            }
            return Err(BgenError::UnexpectedEndOfInput);
        }
        let to_skip = gap as usize;
        match self.skip_bytes(to_skip) {
            Ok(()) => (),
            Err(e) => {
                return Err(e);
            },
        }
        self.header = header;
        Ok(())
    }

    /// Reads `number_alleles` `u32`-length-prefixed allele strings.
    fn read_alleles(&mut self, number_alleles: u16) -> (r: Result<Vec<Vec<u8>>, BgenError>)
        ensures
            final(self).unchanged_but_cursor(old(self)),
            match crate::variant_data::spec_parse_alleles(
                old(self).bytes@,
                old(self).byte_count as int,
                number_alleles as nat,
            ) {
                Ok((s, q)) => r matches Ok(v) && v.deep_view() == s && final(self).byte_count == q
                    && final(self).byte_count >= old(self).byte_count,
                Err(e) => r == Err::<Vec<Vec<u8>>, BgenError>(e),
            },
    {
        let ghost b = self.bytes@;
        let ghost p5 = self.byte_count as int;
        let mut alleles: Vec<Vec<u8>> = Vec::new();
        let mut k: u16 = 0;
        proof {
            assert(alleles.deep_view() =~= Seq::<Seq<u8>>::empty());
            match crate::variant_data::spec_parse_alleles(b, p5, number_alleles as nat) {
                Err(_) => {},
                Ok((whole, q)) => {
                    assert(alleles.deep_view() + whole =~= whole);
                },
            }
        }
        while k < number_alleles
            invariant
                k <= number_alleles,
                self.unchanged_but_cursor(old(self)),
                b == self.bytes@,
                p5 == old(self).byte_count as int,
                self.byte_count >= old(self).byte_count,
                alleles.deep_view().len() == k,
                match crate::variant_data::spec_parse_alleles(
                    b,
                    self.byte_count as int,
                    (number_alleles - k) as nat,
                ) {
                    Err(e) => crate::variant_data::spec_parse_alleles(b, p5, number_alleles as nat)
                        == Err::<(Seq<Seq<u8>>, int), BgenError>(e),
                    Ok((rest, q)) => crate::variant_data::spec_parse_alleles(
                        b,
                        p5,
                        number_alleles as nat,
                    ) == Ok::<(Seq<Seq<u8>>, int), BgenError>((alleles.deep_view() + rest, q)),
                },
            decreases number_alleles - k,
        {
            let s = match self.read_u32_sized_string() {
                Ok(v) => v,
                Err(e) => {
                    return Err(e);
                },
            };
            let ghost old_acc = alleles.deep_view();
            alleles.push(s);
            proof {
                assert(alleles.deep_view() =~~= old_acc.push(s@));
                let m = (number_alleles - k) as nat;
                match crate::variant_data::spec_parse_alleles(
                    b,
                    self.byte_count as int,
                    (m - 1) as nat,
                ) {
                    Err(_) => {},
                    Ok((rest, q)) => {
                        assert(old_acc + (seq![s@] + rest) =~= alleles.deep_view() + rest);
                    },
                }
            }
            k = k + 1;
        }
        proof {
            assert(crate::variant_data::spec_parse_alleles(b, self.byte_count as int, 0) == Ok::<
                (Seq<Seq<u8>>, int),
                BgenError,
            >((Seq::<Seq<u8>>::empty(), self.byte_count as int)));
            assert(alleles.deep_view() + Seq::<Seq<u8>>::empty() =~= alleles.deep_view());
        }
        Ok(alleles)
    }

    /// Reads one record at the cursor (layout 2 only), decoding or skipping
    /// its payload as the stream was configured.
    #[verifier::rlimit(100)]
    fn read_variant_data(&mut self) -> (r: Result<VariantData, BgenError>)
        ensures
            final(self).unchanged_but_cursor(old(self)),
            old(self).header.header_flags.layout_id != 2 ==> r == Err::<VariantData, BgenError>(
                BgenError::UnsupportedLayout,
            ) && *final(self) == *old(self),
            old(self).header.header_flags.layout_id == 2 ==> match spec_parse_record(
                old(self).bytes@,
                old(self).byte_count as int,
                old(self).header.header_flags.compressed_snp_blocks,
                old(self).read_data_block,
            ) {
                Ok((vv, end)) => r matches Ok(v) && v@ == vv && final(self).byte_count == end,
                Err(e) => r == Err::<VariantData, BgenError>(e),
            },
    {
        if self.header.header_flags.layout_id != 2 {
            return Err(BgenError::UnsupportedLayout);
        }
        let ghost b = self.bytes@;
        let ghost at = self.byte_count as int;
        let compressed = self.header.header_flags.compressed_snp_blocks;
        let decode_payload = self.read_data_block;
        let file_start_position = self.byte_count;
        let variants_id = match self.read_u16_sized_string() {
            Ok(v) => v,
            Err(e) => {
                return Err(e);
            },
        };
        let rsid = match self.read_u16_sized_string() {
            Ok(v) => v,
            Err(e) => {
                return Err(e);
            },
        };
        let chr = match self.read_u16_sized_string() {
            Ok(v) => v,
            Err(e) => {
                return Err(e);
            },
        };
        let pos = match self.read_u32() {
            Ok(v) => v,
            Err(e) => {
                return Err(e);
            },
        };
        let number_alleles = match self.read_u16() {
            Ok(v) => v,
            Err(e) => {
                return Err(e);
            },
        };
        let alleles = match self.read_alleles(number_alleles) {
            Ok(v) => v,
            Err(e) => {
                return Err(e);
            },
        };
        let length_data_block = match self.read_u32() {
            Ok(v) => v,
            Err(e) => {
                return Err(e);
            },
        };
        let ghost p7 = self.byte_count as int;
        let data_block: DataBlock;
        if !decode_payload {
            match self.skip_bytes(length_data_block as usize) {
                Ok(()) => (),
                Err(e) => {
                    return Err(e);
                },
            }
            data_block = DataBlock::default();
        } else if compressed {
            if length_data_block < 4 {
                return Err(BgenError::UnexpectedEndOfInput);
            }
            let uncompressed_length = match self.read_u32() {
                Ok(v) => v,
                Err(e) => {
                    proof {
                        assert(p7 + length_data_block > b.len());
                    }
                    return Err(e);
                },
            };
            let compressed_block = match self.read_vector_length((length_data_block - 4) as usize) {
                Ok(v) => v,
                Err(e) => {
                    return Err(e);
                },
            };
            let uncompressed_block = match crate::utils::decompress_block(
                compressed_block,
                uncompressed_length as usize,
            ) {
                Ok(v) => v,
                Err(_) => {
                    proof {
                        assert(crate::utils::inflate_of(
                            b.subrange(p7 + 4, p7 + length_data_block),
                        ).len() < uncompressed_length);
                    }
                    return Err(BgenError::DecompressionFailed);
                },
            };
            proof {
                assert(uncompressed_block@ == crate::utils::inflate_of(
                    b.subrange(p7 + 4, p7 + length_data_block),
                ).take(uncompressed_length as int));
            }
            data_block = match crate::variant_data::build_from_uncompressed_block(
                &uncompressed_block,
            ) {
                Ok(d) => d,
                Err(e) => {
                    return Err(e);
                },
            };
        } else {
            let body = match self.read_vector_length(length_data_block as usize) {
                Ok(v) => v,
                Err(e) => {
                    return Err(e);
                },
            };
            data_block = match crate::variant_data::build_from_uncompressed_block(&body) {
                Ok(d) => d,
                Err(e) => {
                    return Err(e);
                },
            };
        }
        let file_end_position = self.byte_count;
        proof {
            assert(file_end_position >= file_start_position);
        }
        let size_in_bytes = file_end_position - file_start_position;
        let variant_data = VariantData {
            variants_id,
            rsid,
            chr,
            pos,
            number_alleles,
            alleles,
            file_start_position,
            size_in_bytes,
            data_block,
        };
        proof {
            let parsed = spec_parse_record(b, at, compressed, decode_payload);
            assert(parsed is Ok);
            assert(variant_data@ =~~= parsed->Ok_0.0);
        }
        Ok(variant_data)
    }

    /// One pull from the stream: the next record that passes the filters,
    /// together with the cursor and the consumed-record count afterwards.
    ///
    /// The stream ends (`None`) once `variant_num` records have been
    /// consumed; filtered-out records are consumed silently. A parse error
    /// ends the stream after being reported once.
    pub open spec fn spec_next(
        b: Seq<u8>,
        pos: int,
        h: Header,
        incl_ranges: Seq<crate::parser::RangeV>,
        incl_rsids: Seq<Seq<u8>>,
        excl_ranges: Seq<crate::parser::RangeV>,
        excl_rsids: Seq<Seq<u8>>,
        payload: bool,
    ) -> Option<Result<(VariantDataV, int, u32), BgenError>>
        decreases h.variant_num - h.variant_count,
    {
        if h.variant_count >= h.variant_num {
            None
        } else {
            match spec_parse_record(b, pos, h.header_flags.compressed_snp_blocks, payload) {
                Err(e) => Some(Err(e)),
                Ok((vv, end)) => {
                    let h2 = Header { variant_count: (h.variant_count + 1) as u32, ..h };
                    if spec_filter_with_args(vv, incl_ranges, incl_rsids, excl_ranges, excl_rsids) {
                        Some(Ok((vv, end, h2.variant_count)))
                    } else {
                        BgenStream::spec_next(
                            b,
                            end,
                            h2,
                            incl_ranges,
                            incl_rsids,
                            excl_ranges,
                            excl_rsids,
                            payload,
                        )
                    }
                },
            }
        }
    }

    /// Everything except the cursor and the consumed-record count is as it
    /// was.
    pub open spec fn unchanged_but_progress(self, other: &BgenStream) -> bool {
        self == (BgenStream {
            byte_count: self.byte_count,
            header: Header { variant_count: self.header.variant_count, ..other.header },
            ..*other
        })
    }

    /// Pulls the next record that passes the filters.
    pub fn next(&mut self) -> (r: Option<Result<VariantData, BgenError>>)
        ensures
            final(self).unchanged_but_progress(old(self)),
            (old(self).header.header_flags.layout_id != 2 && old(self).header.variant_count
                < old(self).header.variant_num) ==> r == Some(Err::<VariantData, BgenError>(
                BgenError::UnsupportedLayout,
            )),
            old(self).header.header_flags.layout_id == 2 ==> match BgenStream::spec_next(
                old(self).bytes@,
                old(self).byte_count as int,
                old(self).header,
                old(self).incl_range.deep_view(),
                old(self).incl_rsids.deep_view(),
                old(self).excl_range.deep_view(),
                old(self).excl_rsids.deep_view(),
                old(self).read_data_block,
            ) {
                None => r is None,
                Some(Ok((vv, p, c))) => match r {
                    Some(Ok(v)) => v@ == vv && final(self).byte_count == p
                        && final(self).header.variant_count == c,
                    _ => false,
                },
                Some(Err(e)) => r == Some(Err::<VariantData, BgenError>(e)),
            },
            r is None ==> final(self).header.variant_count >= final(self).header.variant_num,
            r matches Some(Err(e2)) ==> final(self).header.variant_count
                == final(self).header.variant_num,
    {
        let ghost b = self.bytes@;
        let ghost pos0 = self.byte_count as int;
        let ghost h0 = self.header;
        let ghost ir = self.incl_range.deep_view();
        let ghost ii = self.incl_rsids.deep_view();
        let ghost er = self.excl_range.deep_view();
        let ghost ei = self.excl_rsids.deep_view();
        let ghost payload = self.read_data_block;
        if self.header.variant_count >= self.header.variant_num {
            return None;
        }
        loop
            invariant
                self.unchanged_but_progress(old(self)),
                b == self.bytes@,
                ir == self.incl_range.deep_view(),
                ii == self.incl_rsids.deep_view(),
                er == self.excl_range.deep_view(),
                ei == self.excl_rsids.deep_view(),
                payload == self.read_data_block,
                self.header.variant_count < self.header.variant_num,
                self.header.header_flags == old(self).header.header_flags,
                self.header.variant_num == old(self).header.variant_num,
                BgenStream::spec_next(b, pos0, h0, ir, ii, er, ei, payload)
                    == BgenStream::spec_next(
                    b,
                    self.byte_count as int,
                    self.header,
                    ir,
                    ii,
                    er,
                    ei,
                    payload,
                ),
                h0 == old(self).header,
                pos0 == old(self).byte_count as int,
                old(self).header.header_flags.layout_id != 2 ==> *self == *old(self),
            decreases self.header.variant_num - self.header.variant_count,
        {
            let var_data = match self.read_variant_data() {
                Ok(v) => v,
                Err(e) => {
                    self.header.variant_count = self.header.variant_num;
                    return Some(Err(e));
                },
            };
            self.header.variant_count = self.header.variant_count + 1;
            let ir_s = self.incl_range.as_slice();
            let ii_s = self.incl_rsids.as_slice();
            let er_s = self.excl_range.as_slice();
            let ei_s = self.excl_rsids.as_slice();
            proof {
                assert(ir_s.deep_view() =~= ir);
                assert(ii_s.deep_view() =~~= ii);
                assert(er_s.deep_view() =~= er);
                assert(ei_s.deep_view() =~~= ei);
            }
            let accepted = var_data.filter_with_args(ir_s, ii_s, er_s, ei_s);
            if accepted {
                return Some(Ok(var_data));
            }
            if self.header.variant_count >= self.header.variant_num {
                return None;
            }
        }
    }

    /// Resolves the command-line filter groups and installs them on the
    /// stream.
    pub fn collect_filters(&mut self, list_args: FilterArgs) -> (r: Result<(), BgenError>)
        ensures
            final(self).bytes == old(self).bytes,
            final(self).read_data_block == old(self).read_data_block,
            final(self).len_samples_block == old(self).len_samples_block,
            final(self).header == old(self).header,
            final(self).byte_count == old(self).byte_count,
            final(self).samples == old(self).samples,
            match r {
                Ok(()) => {
                    &&& crate::parser::spec_group_ranges(
                        list_args.incl_range.incl_range,
                        list_args.incl_range.incl_range_file,
                    ) == Ok::<Seq<crate::parser::RangeV>, BgenError>(final(self).incl_range.deep_view())
                    &&& crate::parser::spec_group_ranges(
                        list_args.excl_range.excl_range,
                        list_args.excl_range.excl_range_file,
                    ) == Ok::<Seq<crate::parser::RangeV>, BgenError>(final(self).excl_range.deep_view())
                    &&& crate::parser::spec_group_rsids(
                        list_args.incl_rsid.incl_rsid,
                        list_args.incl_rsid.incl_rsid_file,
                    ) == Ok::<Seq<Seq<u8>>, BgenError>(final(self).incl_rsids.deep_view())
                    &&& crate::parser::spec_group_rsids(
                        list_args.excl_rsid.excl_rsid,
                        list_args.excl_rsid.excl_rsid_file,
                    ) == Ok::<Seq<Seq<u8>>, BgenError>(final(self).excl_rsids.deep_view())
                },
                Err(_) => *final(self) == *old(self),
            },
    {
        let (vec_incl_range, vec_incl_rsid, vec_excl_range, vec_excl_rsid) =
            match list_args.get_vector_incl_and_excl() {
            Ok(v) => v,
            Err(e) => {
                return Err(e);
            },
        };
        self.incl_range = vec_incl_range;
        self.incl_rsids = vec_incl_rsid;
        self.excl_range = vec_excl_range;
        self.excl_rsids = vec_excl_rsid;
        Ok(())
    }

    /// A fresh stream over the same bytes, decoding payloads, with the same
    /// filters and no pre-supplied samples: the second pass of a rewrite.
    pub fn create_identical_bgen(&self) -> (r: Result<BgenStream, BgenError>)
        ensures
            r matches Ok(s) ==> {
                &&& s.bytes@ == self.bytes@
                &&& s.read_data_block == true
                &&& s.byte_count == 0
                &&& s.header == Header::spec_default()
                &&& s.samples@.len() == 0
                &&& s.incl_range.deep_view() == self.incl_range.deep_view()
                &&& s.incl_rsids.deep_view() == self.incl_rsids.deep_view()
                &&& s.excl_range.deep_view() == self.excl_range.deep_view()
                &&& s.excl_rsids.deep_view() == self.excl_rsids.deep_view()
            },
            r is Ok,
    {
        let bytes = crate::utils::copy_bytes(&self.bytes);
        let mut s = match BgenStream::from_bytes(bytes, true) {
            Ok(s) => s,
            Err(e) => {
                return Err(e);
            },
        };
        s.incl_range = copy_ranges(&self.incl_range);
        s.incl_rsids = copy_samples(&self.incl_rsids);
        s.excl_range = copy_ranges(&self.excl_range);
        s.excl_rsids = copy_samples(&self.excl_rsids);
        Ok(s)
    }
}

/// The wire form of a list of `u16`-prefixed strings.
pub open spec fn spec_encode_str16_list(ss: Seq<Seq<u8>>) -> Seq<u8>
    decreases ss.len(),
{
    if ss.len() == 0 {
        Seq::empty()
    } else {
        spec_str16(ss[0]) + spec_encode_str16_list(ss.drop_first())
    }
}

/// Appending one more string to the wire form.
pub proof fn lemma_encode_str16_list_snoc(ss: Seq<Seq<u8>>, s: Seq<u8>)
    ensures
        spec_encode_str16_list(ss.push(s)) == spec_encode_str16_list(ss) + spec_str16(s),
    decreases ss.len(),
{
    if ss.len() == 0 {
        assert(ss.push(s).drop_first() =~= Seq::<Seq<u8>>::empty());
        assert(ss.push(s)[0] == s);
        assert(spec_encode_str16_list(ss.push(s)) == spec_str16(s) + spec_encode_str16_list(
            Seq::empty(),
        ));
        assert(spec_str16(s) + Seq::<u8>::empty() =~= spec_str16(s));
        assert(Seq::<u8>::empty() + spec_str16(s) =~= spec_str16(s));
    } else {
        let head = spec_str16(ss[0]);
        let dropped = ss.drop_first();
        assert(ss.push(s)[0] == ss[0]);
        assert(ss.push(s).drop_first() =~= dropped.push(s));
        lemma_encode_str16_list_snoc(dropped, s);
        assert(spec_encode_str16_list(ss.push(s)) == head + (spec_encode_str16_list(dropped)
            + spec_str16(s)));
        assert(head + (spec_encode_str16_list(dropped) + spec_str16(s)) =~= (head
            + spec_encode_str16_list(dropped)) + spec_str16(s));
    }
}

/// The wire form of the sample block: its byte-length word, the sample
/// count, and the length-prefixed identifiers.
pub open spec fn spec_encode_samples(ss: Seq<Seq<u8>>, len_samples_block: u32) -> Seq<u8> {
    spec_u32_to_le_bytes(len_samples_block) + spec_u32_to_le_bytes(ss.len() as u32)
        + spec_encode_str16_list(ss)
}

/// Whether every sample identifier fits its `u16` prefix and the count its
/// `u32` word.
pub open spec fn spec_samples_fit(ss: Seq<Seq<u8>>) -> bool {
    ss.len() <= u32::MAX && forall|i: int| 0 <= i < ss.len() ==> (#[trigger] ss[i]).len()
        <= u16::MAX
}

/// Encodes and appends the sample block.
pub fn write_samples(samples: &Vec<Vec<u8>>, out: &mut Vec<u8>, len_samples_block: u32) -> (r:
    Result<(), BgenError>)
    ensures
        r matches Ok(()) ==> {
            &&& spec_samples_fit(samples.deep_view())
            &&& final(out)@ == old(out)@ + spec_encode_samples(
                samples.deep_view(),
                len_samples_block,
            )
        },
        r matches Err(e) ==> e == BgenError::LengthOverflow && !spec_samples_fit(
            samples.deep_view(),
        ),
{
    proof {
        assert(samples.deep_view().len() == samples@.len());
        assert(forall|j: int| 0 <= j < samples@.len() ==> #[trigger] samples.deep_view()[j]
            == samples@[j]@);
    }
    if samples.len() as u64 > u32::MAX as u64 {
        return Err(BgenError::LengthOverflow);
    }
    let mut block: Vec<u8> = Vec::new();
    crate::utils::write_u32(&mut block, len_samples_block);
    crate::utils::write_u32(&mut block, samples.len() as u32);
    let ghost prefix = block@;
    let mut i: usize = 0;
    proof {
        assert(samples.deep_view().take(0) =~= Seq::<Seq<u8>>::empty());
    }
    while i < samples.len()
        invariant
            i <= samples@.len(),
            samples.deep_view().len() == samples@.len(),
            forall|j: int| 0 <= j < samples@.len() ==> #[trigger] samples.deep_view()[j]
                == samples@[j]@,
            block@ == prefix + spec_encode_str16_list(samples.deep_view().take(i as int)),
            forall|j: int| 0 <= j < i ==> (#[trigger] samples.deep_view()[j]).len() <= u16::MAX,
        decreases samples@.len() - i,
    {
        match crate::utils::write_u16_sized_string(&mut block, &samples[i]) {
            Ok(()) => (),
            Err(_) => {
                proof {
                    assert(samples.deep_view()[i as int].len() > u16::MAX);
                }
                return Err(BgenError::LengthOverflow);
            },
        }
        proof {
            lemma_encode_str16_list_snoc(
                samples.deep_view().take(i as int),
                samples.deep_view()[i as int],
            );
            assert(samples.deep_view().take(i + 1) =~= samples.deep_view().take(i as int).push(
                samples.deep_view()[i as int],
            ));
            assert(block@ =~= prefix + spec_encode_str16_list(samples.deep_view().take(i + 1)));
        }
        i = i + 1;
    }
    proof {
        assert(samples.deep_view().take(samples@.len() as int) =~= samples.deep_view());
    }
    let mut b = block;
    out.append(&mut b);
    proof {
        assert(out@ =~= old(out)@ + spec_encode_samples(samples.deep_view(), len_samples_block));
    }
    Ok(())
}

/// The sum of the variant counts of `inputs` from index `i` on, with every
/// input opened afresh; every sample list must equal `s0`.
pub open spec fn spec_merge_scan(inputs: Seq<Seq<u8>>, i: int, s0: Seq<Seq<u8>>) -> Result<
    int,
    BgenError,
>
    decreases inputs.len() - i,
{
    if i >= inputs.len() {
        Ok(0)
    } else {
        match spec_open(inputs[i], Seq::empty()) {
            Err(e) => Err(e),
            Ok((h, len_block, samples, p)) => {
                if samples != s0 {
                    Err(BgenError::SampleMismatch)
                } else {
                    match spec_merge_scan(inputs, i + 1, s0) {
                        Err(e) => Err(e),
                        Ok(rest) => Ok(h.variant_num + rest),
                    }
                }
            },
        }
    }
}

/// The bodies of `inputs` from index `i` on: for each input, every byte
/// after its header-and-samples prefix, verbatim.
pub open spec fn spec_concat_bodies(inputs: Seq<Seq<u8>>, i: int) -> Seq<u8>
    decreases inputs.len() - i,
{
    if i >= inputs.len() {
        Seq::empty()
    } else {
        let b = inputs[i];
        let body = match spec_open(b, Seq::empty()) {
            Err(_) => Seq::<u8>::empty(),
            Ok((h, len_block, samples, p)) => b.skip(p),
        };
        body + spec_concat_bodies(inputs, i + 1)
    }
}

/// What merging denotes: the first input's header with the total variant
/// count, its sample block, then every input's body byte-for-byte, in input
/// order.
pub open spec fn spec_merge(inputs: Seq<Seq<u8>>) -> Result<Seq<u8>, BgenError> {
    if inputs.len() == 0 {
        Err(BgenError::NothingToMerge)
    } else {
        match spec_open(inputs[0], Seq::empty()) {
            Err(e) => Err(e),
            Ok((h1, len_block1, s1, p1)) => match spec_merge_scan(inputs, 1, s1) {
                Err(e) => Err(e),
                Ok(rest) => {
                    let total = h1.variant_num + rest;
                    if total > u32::MAX {
                        Err(BgenError::LengthOverflow)
                    } else if !spec_samples_fit(s1) {
                        Err(BgenError::LengthOverflow)
                    } else {
                        let h = Header { variant_num: total as u32, ..h1 };
                        Ok(
                            spec_encode_header(h) + spec_encode_samples(s1, len_block1)
                                + spec_concat_bodies(inputs, 0),
                        )
                    }
                },
            },
        }
    }
}

/// A successful scan means every scanned input opens.
pub proof fn lemma_merge_scan_opens(inputs: Seq<Seq<u8>>, i: int, s0: Seq<Seq<u8>>)
    requires
        spec_merge_scan(inputs, i, s0) is Ok,
    ensures
        forall|j: int| i <= j < inputs.len() ==> spec_open(#[trigger] inputs[j], Seq::empty())
            is Ok,
    decreases inputs.len() - i,
{
    if i < inputs.len() {
        lemma_merge_scan_opens(inputs, i + 1, s0);
    }
}

/// Opens a fresh stream over a copy of `source` with no pre-supplied
/// samples.
pub fn open_input(source: &Vec<u8>, read_data_block: bool) -> (r: Result<BgenStream, BgenError>)
    ensures
        match spec_open(source@, Seq::empty()) {
            Ok((h, len_block, smp, p)) => r matches Ok(s) && s.bytes@ == source@ && s.header == h
                && s.len_samples_block == len_block && s.samples.deep_view() == smp
                && s.byte_count == p && s.byte_count <= s.bytes@.len()
                && s.read_data_block == read_data_block
                && s.incl_range@.len() == 0 && s.incl_rsids@.len() == 0 && s.excl_range@.len() == 0
                && s.excl_rsids@.len() == 0,
            Err(e) => r == Err::<BgenStream, BgenError>(e),
        },
{
    let mut s = match BgenStream::from_bytes(crate::utils::copy_bytes(source), read_data_block) {
        Ok(s) => s,
        Err(e) => {
            return Err(e);
        },
    };
    proof {
        assert(s.samples.deep_view() =~= Seq::<Seq<u8>>::empty());
    }
    match s.read_offset_and_header() {
        Ok(()) => (),
        Err(e) => {
            return Err(e);
        },
    }
    Ok(s)
}

/// One step of the body concatenation.
pub proof fn lemma_concat_bodies_split(inputs: Seq<Seq<u8>>, i: int)
    requires
        0 <= i < inputs.len(),
    ensures
        spec_concat_bodies(inputs, i) == (match spec_open(inputs[i], Seq::empty()) {
            Err(_) => Seq::<u8>::empty(),
            Ok((h, len_block, samples, p)) => inputs[i].skip(p),
        }) + spec_concat_bodies(inputs, i + 1),
{
}

/// Merges several containers: the first input's header (with the variant
/// count summed over all inputs) and sample block, then each input's body
/// copied byte-for-byte. All inputs must carry the same sample list.
pub fn bgen_merge(inputs: &Vec<Vec<u8>>) -> (r: Result<Vec<u8>, BgenError>)
    ensures
        match spec_merge(inputs.deep_view()) {
            Ok(o) => r matches Ok(out) && out@ == o,
            Err(e) => r == Err::<Vec<u8>, BgenError>(e),
        },
{
    proof {
        assert(inputs.deep_view().len() == inputs@.len());
        assert(forall|j: int| 0 <= j < inputs@.len() ==> #[trigger] inputs.deep_view()[j]
            == inputs@[j]@);
    }
    if inputs.len() == 0 {
        return Err(BgenError::NothingToMerge);
    }
    let ghost iv = inputs.deep_view();
    let first = match open_input(&inputs[0], false) {
        Ok(s) => s,
        Err(e) => {
            return Err(e);
        },
    };
    let ghost s1 = first.samples.deep_view();
    let ghost vnum1 = first.header.variant_num as int;
    let mut total: u128 = first.header.variant_num as u128;
    let mut i: usize = 1;
    while i < inputs.len()
        invariant
            1 <= i <= inputs@.len(),
            iv == inputs.deep_view(),
            iv.len() == inputs@.len(),
            forall|j: int| 0 <= j < inputs@.len() ==> #[trigger] iv[j] == inputs@[j]@,
            spec_open(iv[0], Seq::empty()) is Ok,
            s1 == spec_open(iv[0], Seq::empty())->Ok_0.2,
            vnum1 == spec_open(iv[0], Seq::empty())->Ok_0.0.variant_num as int,
            first.samples.deep_view() == s1,
            total as int <= (i as int) * 0xFFFF_FFFF,
            match spec_merge_scan(iv, i as int, s1) {
                Err(e) => spec_merge_scan(iv, 1, s1) == Err::<int, BgenError>(e),
                Ok(rest) => spec_merge_scan(iv, 1, s1) == Ok::<int, BgenError>(
                    total as int - vnum1 + rest,
                ),
            },
        decreases inputs@.len() - i,
    {
        let s = match open_input(&inputs[i], false) {
            Ok(s) => s,
            Err(e) => {
                return Err(e);
            },
        };
        if !samples_eq(&s.samples, &first.samples) {
            return Err(BgenError::SampleMismatch);
        }
        proof {
            assert((total as int) + 0xFFFF_FFFF <= ((i + 1) as int) * 0xFFFF_FFFF)
                by (nonlinear_arith)
                requires
                    total as int <= (i as int) * 0xFFFF_FFFF,
            ;
            assert(((i + 1) as int) * 0xFFFF_FFFF < u128::MAX) by (nonlinear_arith)
                requires
                    (i + 1) as int <= 0x1_0000_0000_0000_0000,
            ;
        }
        total = total + s.header.variant_num as u128;
        i = i + 1;
    }
    if total > u32::MAX as u128 {
        return Err(BgenError::LengthOverflow);
    }
    proof {
        lemma_merge_scan_opens(iv, 1, s1);
    }
    let mut out: Vec<u8> = Vec::new();
    let merged_header = Header { variant_num: total as u32, ..first.header };
    merged_header.write_header(&mut out);
    match write_samples(&first.samples, &mut out, first.len_samples_block) {
        Ok(()) => (),
        Err(e) => {
            return Err(e);
        },
    }
    let ghost before_bodies = out@;
    let mut k: usize = 0;
    proof {
        assert(spec_concat_bodies(iv, iv.len() as int) =~= Seq::<u8>::empty());
        assert(out@ + spec_concat_bodies(iv, 0) =~= before_bodies + spec_concat_bodies(iv, 0));
    }
    while k < inputs.len()
        invariant
            k <= inputs@.len(),
            iv == inputs.deep_view(),
            iv.len() == inputs@.len(),
            forall|j: int| 0 <= j < inputs@.len() ==> #[trigger] iv[j] == inputs@[j]@,
            forall|j: int| 0 <= j < inputs@.len() ==> spec_open(#[trigger] iv[j], Seq::empty())
                is Ok,
            out@ + spec_concat_bodies(iv, k as int) == before_bodies + spec_concat_bodies(iv, 0),
        decreases inputs@.len() - k,
    {
        let s = match open_input(&inputs[k], false) {
            Ok(s) => s,
            Err(e) => {
                return Err(e);
            },
        };
        let n = s.bytes.len();
        let ghost old_out = out@;
        crate::utils::extend_bytes(
            &mut out,
            vstd::slice::slice_subrange(s.bytes.as_slice(), s.byte_count, n),
        );
        proof {
            let body = iv[k as int].skip(s.byte_count as int);
            assert(s.bytes@.subrange(s.byte_count as int, n as int) =~= body);
            lemma_concat_bodies_split(iv, k as int);
            assert((old_out + body) + spec_concat_bodies(iv, k + 1) =~= old_out + (body
                + spec_concat_bodies(iv, k + 1)));
        }
        k = k + 1;
    }
    proof {
        assert(out@ + Seq::<u8>::empty() =~= out@);
        assert(out@ =~= before_bodies + spec_concat_bodies(iv, 0));
    }
    Ok(out)
}

/// A successful pull advances the consumed-record count, never past the
/// total.
pub proof fn lemma_spec_next_bounds(
    b: Seq<u8>,
    pos: int,
    h: Header,
    ir: Seq<crate::parser::RangeV>,
    ii: Seq<Seq<u8>>,
    er: Seq<crate::parser::RangeV>,
    ei: Seq<Seq<u8>>,
    payload: bool,
)
    ensures
        match BgenStream::spec_next(b, pos, h, ir, ii, er, ei, payload) {
            Some(Ok((v, p, c))) => h.variant_count < c <= h.variant_num,
            _ => true,
        },
    decreases h.variant_num - h.variant_count,
{
    if h.variant_count < h.variant_num {
        match spec_parse_record(b, pos, h.header_flags.compressed_snp_blocks, payload) {
            Err(_) => {},
            Ok((vv, end)) => {
                let h2 = Header { variant_count: (h.variant_count + 1) as u32, ..h };
                lemma_spec_next_bounds(b, end, h2, ir, ii, er, ei, payload);
            },
        }
    }
}

/// Every record accepted by the filters from `pos` on, in order.
pub open spec fn spec_collect(
    b: Seq<u8>,
    pos: int,
    h: Header,
    ir: Seq<crate::parser::RangeV>,
    ii: Seq<Seq<u8>>,
    er: Seq<crate::parser::RangeV>,
    ei: Seq<Seq<u8>>,
    payload: bool,
) -> Result<Seq<VariantDataV>, BgenError>
    decreases h.variant_num - h.variant_count,
{
    match BgenStream::spec_next(b, pos, h, ir, ii, er, ei, payload) {
        None => Ok(Seq::empty()),
        Some(Err(e)) => Err(e),
        Some(Ok((v, p, c))) => {
            if h.variant_count < c <= h.variant_num {
                match spec_collect(b, p, Header { variant_count: c, ..h }, ir, ii, er, ei, payload) {
                    Err(e) => Err(e),
                    Ok(rest) => Ok(seq![v] + rest),
                }
            } else {
                // a pull never reports such a count; see `lemma_spec_next_bounds`
                Err(BgenError::UnexpectedEndOfInput)
            }
        },
    }
}

/// Skip-mode equivalence at record level: whenever full decoding succeeds,
/// skip mode succeeds too, consumes the same bytes, and differs only in the
/// substituted default payload.
pub proof fn lemma_record_skip_equivalence(b: Seq<u8>, at: int, compressed: bool)
    ensures
        match spec_parse_record(b, at, compressed, true) {
            Ok((v, end)) => spec_parse_record(b, at, compressed, false) == Ok::<
                (VariantDataV, int),
                BgenError,
            >((VariantDataV { data_block: spec_default_data_block(), ..v }, end)),
            Err(_) => true,
        },
{
}

/// Skip-mode equivalence for one pull: the metadata, the cursor and the
/// count agree with full decoding whenever full decoding succeeds.
pub proof fn lemma_next_skip_equivalence(
    b: Seq<u8>,
    pos: int,
    h: Header,
    ir: Seq<crate::parser::RangeV>,
    ii: Seq<Seq<u8>>,
    er: Seq<crate::parser::RangeV>,
    ei: Seq<Seq<u8>>,
)
    ensures
        match BgenStream::spec_next(b, pos, h, ir, ii, er, ei, true) {
            None => BgenStream::spec_next(b, pos, h, ir, ii, er, ei, false) is None,
            Some(Ok((v, p, c))) => BgenStream::spec_next(b, pos, h, ir, ii, er, ei, false) == Some(
                Ok::<(VariantDataV, int, u32), BgenError>(
                    (VariantDataV { data_block: spec_default_data_block(), ..v }, p, c),
                ),
            ),
            Some(Err(_)) => true,
        },
    decreases h.variant_num - h.variant_count,
{
    if h.variant_count < h.variant_num {
        lemma_record_skip_equivalence(b, pos, h.header_flags.compressed_snp_blocks);
        match spec_parse_record(b, pos, h.header_flags.compressed_snp_blocks, true) {
            Err(_) => {},
            Ok((vv, end)) => {
                let vv2 = VariantDataV { data_block: spec_default_data_block(), ..vv };
                let h2 = Header { variant_count: (h.variant_count + 1) as u32, ..h };
                assert(spec_filter_with_args(vv2, ir, ii, er, ei) == spec_filter_with_args(
                    vv,
                    ir,
                    ii,
                    er,
                    ei,
                ));
                if !spec_filter_with_args(vv, ir, ii, er, ei) {
                    lemma_next_skip_equivalence(b, end, h2, ir, ii, er, ei);
                }
            },
        }
    }
}

/// Skip-mode equivalence for the whole scan: whenever collecting with full
/// decoding succeeds, the skip-mode scan accepts the same number of records.
pub proof fn lemma_collect_skip_len(
    b: Seq<u8>,
    pos: int,
    h: Header,
    ir: Seq<crate::parser::RangeV>,
    ii: Seq<Seq<u8>>,
    er: Seq<crate::parser::RangeV>,
    ei: Seq<Seq<u8>>,
)
    ensures
        match spec_collect(b, pos, h, ir, ii, er, ei, true) {
            Ok(rs) => spec_collect(b, pos, h, ir, ii, er, ei, false) matches Ok(rs2) && rs2.len()
                == rs.len(),
            Err(_) => true,
        },
    decreases h.variant_num - h.variant_count,
{
    lemma_next_skip_equivalence(b, pos, h, ir, ii, er, ei);
    lemma_spec_next_bounds(b, pos, h, ir, ii, er, ei, true);
    match BgenStream::spec_next(b, pos, h, ir, ii, er, ei, true) {
        None => {},
        Some(Err(_)) => {},
        Some(Ok((v, p, c))) => {
            if h.variant_count < c <= h.variant_num {
                lemma_collect_skip_len(b, p, Header { variant_count: c, ..h }, ir, ii, er, ei);
            }
        },
    }
}

/// The wire form of a list of records.
pub open spec fn spec_encode_records(rs: Seq<VariantDataV>, compressed: bool) -> Seq<u8>
    decreases rs.len(),
{
    if rs.len() == 0 {
        Seq::empty()
    } else {
        crate::variant_data::spec_encode_record(rs[0], compressed) + spec_encode_records(
            rs.drop_first(),
            compressed,
        )
    }
}

/// Appending one more record to the wire form.
pub proof fn lemma_encode_records_snoc(rs: Seq<VariantDataV>, v: VariantDataV, compressed: bool)
    ensures
        spec_encode_records(rs.push(v), compressed) == spec_encode_records(rs, compressed)
            + crate::variant_data::spec_encode_record(v, compressed),
    decreases rs.len(),
{
    let enc = crate::variant_data::spec_encode_record(v, compressed);
    if rs.len() == 0 {
        assert(rs.push(v).drop_first() =~= Seq::<VariantDataV>::empty());
        assert(rs.push(v)[0] == v);
        assert(spec_encode_records(rs.push(v), compressed) == enc + spec_encode_records(
            Seq::empty(),
            compressed,
        ));
        assert(enc + Seq::<u8>::empty() =~= enc);
        assert(Seq::<u8>::empty() + enc =~= enc);
    } else {
        let head = crate::variant_data::spec_encode_record(rs[0], compressed);
        let dropped = rs.drop_first();
        assert(rs.push(v)[0] == rs[0]);
        assert(rs.push(v).drop_first() =~= dropped.push(v));
        lemma_encode_records_snoc(dropped, v, compressed);
        assert(spec_encode_records(rs.push(v), compressed) == head + (spec_encode_records(
            dropped,
            compressed,
        ) + enc));
        assert(head + (spec_encode_records(dropped, compressed) + enc) =~= (head
            + spec_encode_records(dropped, compressed)) + enc);
    }
}

/// The byte size of a sample block holding `ss`.
pub open spec fn spec_samples_block_size(ss: Seq<Seq<u8>>) -> int
    decreases ss.len(),
{
    if ss.len() == 0 {
        8
    } else {
        spec_samples_block_size(ss.drop_last()) + 2 + ss.last().len()
    }
}

/// The bytes a rewrite emits: the source header with the survivor count
/// (and, when an embedded sample block is suppressed, the flags bit cleared
/// and the offset shrunk by the block size), the sample block exactly when
/// the emitted flags announce one, then each surviving record re-encoded.
pub open spec fn spec_rewrite_bytes(
    h: Header,
    len_samples_block: u32,
    samples: Seq<Seq<u8>>,
    records: Seq<VariantDataV>,
    no_samples: bool,
) -> Seq<u8> {
    let suppress = no_samples && h.header_flags.sample_id_present;
    let flags2 = if suppress {
        HeaderFlags { sample_id_present: false, ..h.header_flags }
    } else {
        h.header_flags
    };
    let start2 = if suppress {
        (h.start_data_offset - spec_samples_block_size(samples)) as u32
    } else {
        h.start_data_offset
    };
    let h2 = Header {
        variant_num: records.len() as u32,
        header_flags: flags2,
        start_data_offset: start2,
        ..h
    };
    spec_encode_header(h2) + (if flags2.sample_id_present {
        spec_encode_samples(samples, len_samples_block)
    } else {
        Seq::<u8>::empty()
    }) + spec_encode_records(records, h.header_flags.compressed_snp_blocks)
}

impl BgenStream {
    /// Rewrites the container under the stream's filters: a skip-mode pass
    /// counts the surviving records, then a fresh full pass re-encodes the
    /// header (with the survivor count), the sample block (unless
    /// `no_samples` suppresses it) and each surviving record.
    ///
    /// Only the stream's bytes and filters matter: both passes open the
    /// container afresh.
    #[verifier::rlimit(100)]
    #[verifier::spinoff_prover]
    pub fn to_bgen(self, no_samples: bool) -> (r: Result<Vec<u8>, BgenError>)
        ensures
            match spec_open(self.bytes@, Seq::empty()) {
                Err(_) => r is Err,
                Ok((h, len_block, smp, p)) => match spec_collect(
                    self.bytes@,
                    p,
                    h,
                    self.incl_range.deep_view(),
                    self.incl_rsids.deep_view(),
                    self.excl_range.deep_view(),
                    self.excl_rsids.deep_view(),
                    true,
                ) {
                    Err(_) => r is Err,
                    Ok(records) => {
                        &&& (r matches Ok(out) ==> out@ == spec_rewrite_bytes(
                            h,
                            len_block,
                            smp,
                            records,
                            no_samples,
                        ))
                        &&& ((h.header_flags.layout_id == 2 && (forall|i: int|
                            0 <= i < records.len()
                                ==> crate::variant_data::spec_record_fits(
                                #[trigger] records[i],
                                h.header_flags.compressed_snp_blocks,
                            )) && ((h.header_flags.sample_id_present && !no_samples)
                            ==> spec_samples_fit(smp)) && ((h.header_flags.sample_id_present
                            && no_samples) ==> h.start_data_offset >= spec_samples_block_size(
                            smp,
                        ))) ==> r is Ok)
                    },
                },
            },
    {
        let ghost b = self.bytes@;
        let ghost ir = self.incl_range.deep_view();
        let ghost ii = self.incl_rsids.deep_view();
        let ghost er = self.excl_range.deep_view();
        let ghost ei = self.excl_rsids.deep_view();
        let mut counter = match open_input(&self.bytes, false) {
            Ok(s) => s,
            Err(e) => {
                return Err(e);
            },
        };
        counter.incl_range = copy_ranges(&self.incl_range);
        counter.incl_rsids = copy_samples(&self.incl_rsids);
        counter.excl_range = copy_ranges(&self.excl_range);
        counter.excl_rsids = copy_samples(&self.excl_rsids);
        let ghost h0 = counter.header;
        let ghost p0 = counter.byte_count as int;
        if counter.header.header_flags.layout_id != 2 {
            return Err(BgenError::UnsupportedLayout);
        }
        let mut survivors: u32 = 0;
        loop
            invariant_except_break
                b == self.bytes@,
                ir == self.incl_range.deep_view(),
                ii == self.incl_rsids.deep_view(),
                er == self.excl_range.deep_view(),
                ei == self.excl_rsids.deep_view(),
                spec_open(b, Seq::empty()) matches Ok((oh, olb, osmp, op)) && oh == h0 && op == p0,
                counter.bytes@ == b,
                !counter.read_data_block,
                counter.header.header_flags.layout_id == 2,
                counter.incl_range.deep_view() == ir,
                counter.incl_rsids.deep_view() == ii,
                counter.excl_range.deep_view() == er,
                counter.excl_rsids.deep_view() == ei,
                counter.header == (Header { variant_count: counter.header.variant_count, ..h0 }),
                survivors <= counter.header.variant_count,
                match spec_collect(
                    b,
                    counter.byte_count as int,
                    counter.header,
                    ir,
                    ii,
                    er,
                    ei,
                    false,
                ) {
                    Err(e) => spec_collect(b, p0, h0, ir, ii, er, ei, false) == Err::<
                        Seq<VariantDataV>,
                        BgenError,
                    >(e),
                    Ok(rest) => spec_collect(b, p0, h0, ir, ii, er, ei, false) matches Ok(whole)
                        && whole.len() == survivors + rest.len(),
                },
            ensures
                spec_collect(b, p0, h0, ir, ii, er, ei, false) matches Ok(whole) && whole.len()
                    == survivors as int,
            decreases counter.header.variant_num - counter.header.variant_count,
        {
            proof {
                lemma_spec_next_bounds(
                    b,
                    counter.byte_count as int,
                    counter.header,
                    ir,
                    ii,
                    er,
                    ei,
                    false,
                );
            }
            let ghost pre_counter = counter;
            match counter.next() {
                None => {
                    proof {
                        assert(spec_collect(b, p0, h0, ir, ii, er, ei, false) matches Ok(whole)
                            && whole.len() == survivors as int);
                    }
                    break ;
                },
                Some(Err(e)) => {
                    proof {
                        // the skip-mode scan failed, so the full scan fails too
                        assert(spec_collect(
                            b,
                            pre_counter.byte_count as int,
                            pre_counter.header,
                            ir,
                            ii,
                            er,
                            ei,
                            false,
                        ) == Err::<Seq<VariantDataV>, BgenError>(e));
                        lemma_collect_skip_len(b, p0, h0, ir, ii, er, ei);
                    }
                    return Err(e);
                },
                Some(Ok(_)) => {
                    survivors = survivors + 1;
                },
            }
        }
        let ghost skip_whole = spec_collect(b, p0, h0, ir, ii, er, ei, false);
        proof {
            assert(skip_whole matches Ok(whole) && whole.len() == survivors as int);
            lemma_collect_skip_len(b, p0, h0, ir, ii, er, ei);
        }
        let mut other = match open_input(&self.bytes, true) {
            Ok(s) => s,
            Err(e) => {
                return Err(e);
            },
        };
        other.incl_range = copy_ranges(&self.incl_range);
        other.incl_rsids = copy_samples(&self.incl_rsids);
        other.excl_range = copy_ranges(&self.excl_range);
        other.excl_rsids = copy_samples(&self.excl_rsids);
        let compressed = other.header.header_flags.compressed_snp_blocks;
        let mut header_final = other.header;
        header_final.variant_num = survivors;
        if no_samples && header_final.header_flags.sample_id_present {
            let block_size = samples_block_size(&other.samples);
            if (header_final.start_data_offset as u64) < block_size {
                return Err(BgenError::LengthOverflow);
            }
            header_final.start_data_offset = header_final.start_data_offset - (block_size as u32);
            header_final.header_flags.sample_id_present = false;
        }
        let mut out: Vec<u8> = Vec::new();
        header_final.write_header(&mut out);
        if header_final.header_flags.sample_id_present {
            match write_samples(&other.samples, &mut out, other.len_samples_block) {
                Ok(()) => (),
                Err(e) => {
                    return Err(e);
                },
            }
        }
        let ghost prefix0 = out@;
        let ghost emitted0: Seq<VariantDataV> = Seq::empty();
        let ghost full_h0 = other.header;
        let ghost full_p0 = other.byte_count as int;
        let mut emitted_ghost: Ghost<Seq<VariantDataV>> = Ghost(emitted0);
        if other.header.header_flags.layout_id != 2 {
            return Err(BgenError::UnsupportedLayout);
        }
        proof {
            assert(Seq::<VariantDataV>::empty() + spec_collect(
                b,
                full_p0,
                full_h0,
                ir,
                ii,
                er,
                ei,
                true,
            )->Ok_0 =~= spec_collect(b, full_p0, full_h0, ir, ii, er, ei, true)->Ok_0);
            assert(out@ =~= prefix0 + spec_encode_records(emitted0, compressed));
        }
        loop
            invariant_except_break
                b == self.bytes@,
                ir == self.incl_range.deep_view(),
                ii == self.incl_rsids.deep_view(),
                er == self.excl_range.deep_view(),
                ei == self.excl_rsids.deep_view(),
                spec_open(b, Seq::empty()) matches Ok((oh, olb, osmp, op)) && oh == full_h0 && op
                    == full_p0,
                spec_collect(b, p0, h0, ir, ii, er, ei, false) matches Ok(skipped)
                    && skipped.len() == survivors as int,
                h0 == full_h0 && p0 == full_p0,
                other.bytes@ == b,
                other.read_data_block,
                other.header.header_flags.layout_id == 2,
                other.header.header_flags.compressed_snp_blocks == compressed,
                other.incl_range.deep_view() == ir,
                other.incl_rsids.deep_view() == ii,
                other.excl_range.deep_view() == er,
                other.excl_rsids.deep_view() == ei,
                other.header == (Header { variant_count: other.header.variant_count, ..full_h0 }),
                out@ == prefix0 + spec_encode_records(emitted_ghost@, compressed),
                match spec_collect(b, other.byte_count as int, other.header, ir, ii, er, ei, true) {
                    Err(e) => spec_collect(b, full_p0, full_h0, ir, ii, er, ei, true) is Err,
                    Ok(rest) => spec_collect(b, full_p0, full_h0, ir, ii, er, ei, true) matches Ok(
                        whole,
                    ) && whole == emitted_ghost@ + rest,
                },
            ensures
                out@ == prefix0 + spec_encode_records(emitted_ghost@, compressed),
                spec_collect(b, full_p0, full_h0, ir, ii, er, ei, true) matches Ok(whole) && whole
                    == emitted_ghost@,
            decreases other.header.variant_num - other.header.variant_count,
        {
            proof {
                lemma_spec_next_bounds(
                    b,
                    other.byte_count as int,
                    other.header,
                    ir,
                    ii,
                    er,
                    ei,
                    true,
                );
            }
            let ghost pre_other = other;
            match other.next() {
                None => {
                    proof {
                        assert(BgenStream::spec_next(
                            b,
                            pre_other.byte_count as int,
                            pre_other.header,
                            ir,
                            ii,
                            er,
                            ei,
                            true,
                        ) is None);
                        assert(spec_collect(
                            b,
                            pre_other.byte_count as int,
                            pre_other.header,
                            ir,
                            ii,
                            er,
                            ei,
                            true,
                        ) == Ok::<Seq<VariantDataV>, BgenError>(Seq::<VariantDataV>::empty()));
                        assert(emitted_ghost@ + Seq::<VariantDataV>::empty() =~= emitted_ghost@);
                    }
                    break ;
                },
                Some(Err(e)) => {
                    return Err(e);
                },
                Some(Ok(v)) => {
                    match v.write_self(&mut out, compressed) {
                        Ok(()) => (),
                        Err(e) => {
                            proof {
                                // the record came out of the full scan, whose
                                // members the success conditions cover
                                let whole = spec_collect(b, full_p0, full_h0, ir, ii, er, ei, true);
                                if whole is Ok {
                                    let rest = spec_collect(
                                        b,
                                        pre_other.byte_count as int,
                                        pre_other.header,
                                        ir,
                                        ii,
                                        er,
                                        ei,
                                        true,
                                    )->Ok_0;
                                    assert(v@ == rest[0]);
                                    assert(whole->Ok_0 == emitted_ghost@ + rest);
                                    assert(whole->Ok_0[emitted_ghost@.len() as int] == v@);
                                }
                            }
                            return Err(e);
                        },
                    }
                    proof {
                        lemma_encode_records_snoc(emitted_ghost@, v@, compressed);
                        let with_v = emitted_ghost@.push(v@);
                        match spec_collect(
                            b,
                            other.byte_count as int,
                            other.header,
                            ir,
                            ii,
                            er,
                            ei,
                            true,
                        ) {
                            Err(_) => {},
                            Ok(rest) => {
                                assert(emitted_ghost@ + (seq![v@] + rest) =~= with_v + rest);
                            },
                        }
                    }
                    emitted_ghost = Ghost(emitted_ghost@.push(v@));
                },
            }
        }
        proof {
            let full_whole = spec_collect(b, full_p0, full_h0, ir, ii, er, ei, true);
            assert(emitted_ghost@ + Seq::<VariantDataV>::empty() =~= emitted_ghost@);
            assert(full_whole matches Ok(records) && records == emitted_ghost@);
            assert(emitted_ghost@.len() == survivors as int);
            assert(out@ =~= prefix0 + spec_encode_records(emitted_ghost@, compressed));
        }
        Ok(out)
    }
}

/// A prefix of the sample list never takes more block bytes than the whole.
pub proof fn lemma_samples_block_size_prefix(ss: Seq<Seq<u8>>, i: int)
    requires
        0 <= i <= ss.len(),
    ensures
        spec_samples_block_size(ss.take(i)) <= spec_samples_block_size(ss),
    decreases ss.len() - i,
{
    if i < ss.len() {
        assert(ss.take(i + 1).drop_last() =~= ss.take(i));
        assert(ss.take(i + 1).last() == ss[i]);
        lemma_samples_block_size_prefix(ss, i + 1);
    } else {
        assert(ss.take(i) =~= ss);
    }
}

/// The byte size of the sample block that holds `samples`: the two length
/// words plus each identifier with its two-byte prefix. A size beyond the
/// offset word's range is only reported as such.
pub fn samples_block_size(samples: &Vec<Vec<u8>>) -> (r: u64)
    ensures
        spec_samples_block_size(samples.deep_view()) <= u32::MAX ==> r as int
            == spec_samples_block_size(samples.deep_view()),
        spec_samples_block_size(samples.deep_view()) > u32::MAX ==> r > u32::MAX,
{
    proof {
        assert(samples.deep_view().len() == samples@.len());
        assert(forall|j: int| 0 <= j < samples@.len() ==> #[trigger] samples.deep_view()[j]
            == samples@[j]@);
        assert(samples.deep_view().take(0) =~= Seq::<Seq<u8>>::empty());
    }
    let mut sum: u64 = 8;
    let mut i: usize = 0;
    while i < samples.len()
        invariant
            i <= samples@.len(),
            samples.deep_view().len() == samples@.len(),
            forall|j: int| 0 <= j < samples@.len() ==> #[trigger] samples.deep_view()[j]
                == samples@[j]@,
            sum as int == spec_samples_block_size(samples.deep_view().take(i as int)),
            sum <= 0x3_0000_0008u64,
        decreases samples@.len() - i,
    {
        proof {
            assert(samples.deep_view().take(i + 1).drop_last() =~= samples.deep_view().take(
                i as int,
            ));
            assert(samples.deep_view().take(i + 1).last() == samples.deep_view()[i as int]);
        }
        let len_i = samples[i].len();
        if sum > 0xFFFF_FFFFu64 || len_i as u64 > 0xFFFF_FFFFu64 {
            proof {
                lemma_samples_block_size_prefix(samples.deep_view(), i + 1);
            }
            return 0x1_0000_0000u64;
        }
        sum = sum + 2 + (len_i as u64);
        i = i + 1;
    }
    proof {
        assert(samples.deep_view().take(samples@.len() as int) =~= samples.deep_view());
    }
    sum
}

/// Reading a sample list where one was written yields it back.
pub proof fn lemma_parse_str16_list_exact(b: Seq<u8>, pos: int, ss: Seq<Seq<u8>>)
    requires
        0 <= pos,
        pos + spec_encode_str16_list(ss).len() <= b.len(),
        b.subrange(pos, pos + spec_encode_str16_list(ss).len()) == spec_encode_str16_list(ss),
        forall|i: int|
            0 <= i < ss.len() ==> (#[trigger] ss[i]).len() <= u16::MAX && valid_utf8(ss[i]),
    ensures
        spec_parse_str16_list(b, pos, ss.len() as nat) == Ok::<(Seq<Seq<u8>>, int), BgenError>(
            (ss, pos + spec_encode_str16_list(ss).len()),
        ),
    decreases ss.len(),
{
    vstd::bytes::lemma_auto_spec_u16_to_from_le_bytes();
    let enc = spec_encode_str16_list(ss);
    if ss.len() == 0 {
        assert(enc.len() == 0);
        assert(ss =~= Seq::<Seq<u8>>::empty());
    } else {
        let head = ss[0];
        let head_enc = spec_str16(head);
        let rest = ss.drop_first();
        let rest_enc = spec_encode_str16_list(rest);
        assert(enc == head_enc + rest_enc);
        assert(spec_u16_to_le_bytes(head.len() as u16).len() == 2);
        assert(head_enc.len() == 2 + head.len());
        crate::variant_data::lemma_subrange_shift(b, pos, enc, 0, head_enc.len() as int);
        assert(enc.subrange(0, head_enc.len() as int) =~= head_enc);
        crate::variant_data::lemma_parse_str16_exact(b, pos, head);
        let p2 = pos + 2 + head.len() as int;
        crate::variant_data::lemma_subrange_shift(b, pos, enc, head_enc.len() as int,
            enc.len() as int);
        assert(enc.subrange(head_enc.len() as int, enc.len() as int) =~= rest_enc);
        assert(forall|i: int|
            0 <= i < rest.len() ==> (#[trigger] rest[i]).len() <= u16::MAX && valid_utf8(rest[i]));
        lemma_parse_str16_list_exact(b, p2, rest);
        assert(seq![head] + rest =~= ss);
    }
}

/// Whether a header is in the shape the writers of this crate emit: the
/// bare 20-byte prefix, an offset word that accounts exactly for the sample
/// block (or its absence), a two-bit layout, and a fresh record count. A
/// container without an embedded block carries no sample values.
pub open spec fn spec_canonical_header(h: Header, len_block: u32, samples: Seq<Seq<u8>>) -> bool {
    &&& h.header_size == 20
    &&& h.variant_num > 0
    &&& h.sample_num > 0
    &&& h.variant_count == 0
    &&& h.header_flags.layout_id < 4
    &&& h.start_data_offset == (if h.header_flags.sample_id_present {
        20 + spec_encode_samples(samples, len_block).len()
    } else {
        20
    })
    &&& !h.header_flags.sample_id_present ==> len_block == 0 && samples == Seq::<Seq<u8>>::empty()
}

/// Opening what the header and sample-block writers emitted yields the
/// header and the samples back, with the cursor at the first record; a
/// container whose flags announce no block carries none.
#[verifier::rlimit(100)]
#[verifier::spinoff_prover]
pub proof fn lemma_open_of_encoded(h: Header, len_block: u32, samples: Seq<Seq<u8>>, tail: Seq<u8>)
    requires
        spec_canonical_header(h, len_block, samples),
        spec_samples_fit(samples),
        h.header_flags.sample_id_present ==> samples.len() == h.sample_num,
        forall|i: int|
            0 <= i < samples.len() ==> (#[trigger] samples[i]).len() <= u16::MAX && valid_utf8(
                samples[i],
            ),
    ensures
        spec_open(spec_encode_header(h) + (if h.header_flags.sample_id_present {
            spec_encode_samples(samples, len_block)
        } else {
            Seq::<u8>::empty()
        }) + tail, Seq::empty()) == Ok::<(Header, u32, Seq<Seq<u8>>, int), BgenError>(
            (h, len_block, samples, h.start_data_offset + 4),
        ),
{
    vstd::bytes::lemma_auto_spec_u16_to_from_le_bytes();
    vstd::bytes::lemma_auto_spec_u32_to_from_le_bytes();
    let eh = spec_encode_header(h);
    let es = if h.header_flags.sample_id_present {
        spec_encode_samples(samples, len_block)
    } else {
        Seq::<u8>::empty()
    };
    let b = eh + es + tail;
    assert(eh.len() == 24);
    assert(b.subrange(0, 24) =~= eh);
    crate::variant_data::lemma_subrange_shift(b, 0, eh, 0, 4);
    assert(eh.subrange(0, 4) =~= spec_u32_to_le_bytes(h.start_data_offset));
    crate::variant_data::lemma_parse_u32_exact(b, 0, h.start_data_offset);
    crate::variant_data::lemma_subrange_shift(b, 0, eh, 4, 8);
    assert(eh.subrange(4, 8) =~= spec_u32_to_le_bytes(h.header_size));
    crate::variant_data::lemma_parse_u32_exact(b, 4, h.header_size);
    crate::variant_data::lemma_subrange_shift(b, 0, eh, 8, 12);
    assert(eh.subrange(8, 12) =~= spec_u32_to_le_bytes(h.variant_num));
    crate::variant_data::lemma_parse_u32_exact(b, 8, h.variant_num);
    crate::variant_data::lemma_subrange_shift(b, 0, eh, 12, 16);
    assert(eh.subrange(12, 16) =~= spec_u32_to_le_bytes(h.sample_num));
    crate::variant_data::lemma_parse_u32_exact(b, 12, h.sample_num);
    crate::variant_data::lemma_subrange_shift(b, 0, eh, 16, 20);
    assert(eh.subrange(16, 20) =~= spec_magic());
    assert(b.subrange(16, 20) == spec_magic());
    crate::variant_data::lemma_subrange_shift(b, 0, eh, 20, 24);
    assert(eh.subrange(20, 24) =~= spec_u32_to_le_bytes(
        crate::header::spec_flags_to_u32(h.header_flags),
    ));
    crate::variant_data::lemma_parse_u32_exact(
        b,
        20,
        crate::header::spec_flags_to_u32(h.header_flags),
    );
    crate::header::lemma_flags_roundtrip(h.header_flags);
    if h.header_flags.sample_id_present {
        // the sample block sits right after the 24 header bytes
        let esl = spec_encode_str16_list(samples);
        assert(es == spec_u32_to_le_bytes(len_block) + spec_u32_to_le_bytes(samples.len() as u32)
            + esl);
        assert(b.subrange(24, 24 + es.len() as int) =~= es);
        crate::variant_data::lemma_subrange_shift(b, 24, es, 0, 4);
        assert(es.subrange(0, 4) =~= spec_u32_to_le_bytes(len_block));
        crate::variant_data::lemma_parse_u32_exact(b, 24, len_block);
        crate::variant_data::lemma_subrange_shift(b, 24, es, 4, 8);
        assert(es.subrange(4, 8) =~= spec_u32_to_le_bytes(samples.len() as u32));
        crate::variant_data::lemma_parse_u32_exact(b, 28, samples.len() as u32);
        crate::variant_data::lemma_subrange_shift(b, 24, es, 8, es.len() as int);
        assert(es.subrange(8, es.len() as int) =~= esl);
        lemma_parse_str16_list_exact(b, 32, samples);
        assert((samples.len() as u32) as nat == samples.len());
        let p7 = 32 + esl.len();
        assert(p7 == 20 + es.len() + 4);
        assert(p7 - 4 == h.start_data_offset);
    } else {
        assert(es.len() == 0);
        assert(24 - 4 == h.start_data_offset);
    }
}

/// Collecting with no filters over encoded records yields records equal to
/// them on every logical field, in order.
pub proof fn lemma_collect_of_encoded(b: Seq<u8>, at: int, h: Header, records: Seq<VariantDataV>)
    requires
        0 <= at,
        at + spec_encode_records(records, h.header_flags.compressed_snp_blocks).len() <= b.len(),
        b.subrange(at, at + spec_encode_records(records, h.header_flags.compressed_snp_blocks).len())
            == spec_encode_records(records, h.header_flags.compressed_snp_blocks),
        h.variant_count + records.len() == h.variant_num,
        forall|i: int| 0 <= i < records.len() ==> crate::variant_data::wf_variant(
            #[trigger] records[i],
        ) && crate::variant_data::spec_record_fits(
            records[i],
            h.header_flags.compressed_snp_blocks,
        ),
        h.header_flags.compressed_snp_blocks ==> forall|i: int|
            0 <= i < records.len() ==> crate::variant_data::spec_zlib_faithful(
                (#[trigger] records[i]).data_block,
            ),
    ensures
        spec_collect(b, at, h, Seq::empty(), Seq::empty(), Seq::empty(), Seq::empty(), true)
            matches Ok(rs) && rs.len() == records.len() && (forall|i: int|
            0 <= i < rs.len() ==> crate::variant_data::spec_core_eq(
                #[trigger] rs[i],
                records[i],
            )),
    decreases records.len(),
{
    let compressed = h.header_flags.compressed_snp_blocks;
    let enc = spec_encode_records(records, compressed);
    let none: Seq<crate::parser::RangeV> = Seq::empty();
    let none_ids: Seq<Seq<u8>> = Seq::empty();
    if records.len() == 0 {
        assert(h.variant_count >= h.variant_num);
        assert(spec_collect(b, at, h, none, none_ids, none, none_ids, true) == Ok::<
            Seq<VariantDataV>,
            BgenError,
        >(Seq::empty()));
    } else {
        let head = records[0];
        let head_enc = crate::variant_data::spec_encode_record(head, compressed);
        let rest = records.drop_first();
        let rest_enc = spec_encode_records(rest, compressed);
        assert(enc == head_enc + rest_enc);
        crate::variant_data::lemma_subrange_shift(b, at, enc, 0, head_enc.len() as int);
        assert(enc.subrange(0, head_enc.len() as int) =~= head_enc);
        crate::variant_data::lemma_record_roundtrip_at(b, at, head, compressed);
        let v = crate::variant_data::spec_with_pos(head, at, head_enc.len() as int);
        assert(crate::variant_data::spec_filter_with_args(v, none, none_ids, none, none_ids));
        let c = (h.variant_count + 1) as u32;
        assert(BgenStream::spec_next(b, at, h, none, none_ids, none, none_ids, true) == Some(Ok::<
            (VariantDataV, int, u32),
            BgenError,
        >((v, at + head_enc.len(), c))));
        let h2 = Header { variant_count: c, ..h };
        let p2 = at + head_enc.len() as int;
        crate::variant_data::lemma_subrange_shift(b, at, enc, head_enc.len() as int,
            enc.len() as int);
        assert(enc.subrange(head_enc.len() as int, enc.len() as int) =~= rest_enc);
        assert(forall|i: int| 0 <= i < rest.len() ==> crate::variant_data::wf_variant(
            #[trigger] rest[i],
        ) && crate::variant_data::spec_record_fits(rest[i], compressed));
        assert(compressed ==> forall|i: int|
            0 <= i < rest.len() ==> crate::variant_data::spec_zlib_faithful(
                (#[trigger] rest[i]).data_block,
            ));
        lemma_collect_of_encoded(b, p2, h2, rest);
        let rest_rs = spec_collect(b, p2, h2, none, none_ids, none, none_ids, true)->Ok_0;
        assert(spec_collect(b, at, h, none, none_ids, none, none_ids, true) == Ok::<
            Seq<VariantDataV>,
            BgenError,
        >(seq![v] + rest_rs));
        let rs = seq![v] + rest_rs;
        assert(forall|i: int| 1 <= i < rs.len() ==> rs[i] == rest_rs[i - 1]);
        assert(rs[0] == v);
        assert(crate::variant_data::spec_core_eq(v, head));
    }
}

/// Rewrite round trip: re-opening what a rewrite emitted yields the same
/// header shape and samples, and re-collecting yields records equal on
/// every logical field to the ones that were written. For compressed
/// payloads this rests on the compressor's round trip.
pub proof fn lemma_rewrite_roundtrip(
    h: Header,
    len_block: u32,
    samples: Seq<Seq<u8>>,
    records: Seq<VariantDataV>,
)
    requires
        spec_canonical_header(h, len_block, samples),
        spec_samples_fit(samples),
        h.header_flags.sample_id_present ==> samples.len() == h.sample_num,
        forall|i: int|
            0 <= i < samples.len() ==> (#[trigger] samples[i]).len() <= u16::MAX && valid_utf8(
                samples[i],
            ),
        0 < records.len() <= u32::MAX,
        forall|i: int| 0 <= i < records.len() ==> crate::variant_data::wf_variant(
            #[trigger] records[i],
        ) && crate::variant_data::spec_record_fits(
            records[i],
            h.header_flags.compressed_snp_blocks,
        ),
        h.header_flags.compressed_snp_blocks ==> forall|i: int|
            0 <= i < records.len() ==> crate::variant_data::spec_zlib_faithful(
                (#[trigger] records[i]).data_block,
            ),
    ensures
        ({
            let out = spec_rewrite_bytes(h, len_block, samples, records, false);
            let h2 = Header { variant_num: records.len() as u32, ..h };
            &&& spec_open(out, Seq::empty()) == Ok::<(Header, u32, Seq<Seq<u8>>, int), BgenError>(
                (h2, len_block, samples, h.start_data_offset + 4),
            )
            &&& spec_collect(
                out,
                h.start_data_offset + 4,
                h2,
                Seq::empty(),
                Seq::empty(),
                Seq::empty(),
                Seq::empty(),
                true,
            ) matches Ok(rs) && rs.len() == records.len() && (forall|i: int|
                0 <= i < rs.len() ==> crate::variant_data::spec_core_eq(
                    #[trigger] rs[i],
                    records[i],
                ))
        }),
{
    vstd::bytes::lemma_auto_spec_u16_to_from_le_bytes();
    vstd::bytes::lemma_auto_spec_u32_to_from_le_bytes();
    let out = spec_rewrite_bytes(h, len_block, samples, records, false);
    let h2 = Header { variant_num: records.len() as u32, ..h };
    let eh = spec_encode_header(h2);
    let es = if h.header_flags.sample_id_present {
        spec_encode_samples(samples, len_block)
    } else {
        Seq::<u8>::empty()
    };
    let er = spec_encode_records(records, h.header_flags.compressed_snp_blocks);
    assert(out == eh + es + er);
    assert(out =~= (eh + es) + er);
    lemma_open_of_encoded(h2, len_block, samples, er);
    assert(eh.len() == 24);
    let at = h.start_data_offset as int + 4;
    assert(at == 24 + es.len());
    assert(out.subrange(at, at + er.len() as int) =~= er);
    lemma_collect_of_encoded(out, at, h2, records);
}

/// The wire form of concatenated record lists is the concatenation of
/// their wire forms.
pub proof fn lemma_encode_records_concat(
    r1: Seq<VariantDataV>,
    r2: Seq<VariantDataV>,
    compressed: bool,
)
    ensures
        spec_encode_records(r1 + r2, compressed) == spec_encode_records(r1, compressed)
            + spec_encode_records(r2, compressed),
    decreases r1.len(),
{
    if r1.len() == 0 {
        assert(r1 + r2 =~= r2);
        assert(spec_encode_records(r1, compressed) + spec_encode_records(r2, compressed)
            =~= spec_encode_records(r2, compressed));
    } else {
        assert((r1 + r2)[0] == r1[0]);
        assert((r1 + r2).drop_first() =~= r1.drop_first() + r2);
        lemma_encode_records_concat(r1.drop_first(), r2, compressed);
        let head = crate::variant_data::spec_encode_record(r1[0], compressed);
        assert(spec_encode_records(r1 + r2, compressed) == head + (spec_encode_records(
            r1.drop_first(),
            compressed,
        ) + spec_encode_records(r2, compressed)));
        assert(head + (spec_encode_records(r1.drop_first(), compressed) + spec_encode_records(
            r2,
            compressed,
        )) =~= (head + spec_encode_records(r1.drop_first(), compressed)) + spec_encode_records(
            r2,
            compressed,
        ));
    }
}

/// Merge commutes with concatenation of bodies: merging two containers that
/// the rewriter emitted for the same header shape and sample list yields a
/// container whose body is their bodies back to back, and whose decoded
/// records equal the first input's records followed by the second's on
/// every logical field.
#[verifier::rlimit(100)]
#[verifier::spinoff_prover]
pub proof fn lemma_merge_of_encoded(
    h: Header,
    len_block: u32,
    samples: Seq<Seq<u8>>,
    recs_a: Seq<VariantDataV>,
    recs_b: Seq<VariantDataV>,
)
    requires
        spec_canonical_header(h, len_block, samples),
        spec_samples_fit(samples),
        samples.len() == h.sample_num,
        forall|i: int|
            0 <= i < samples.len() ==> (#[trigger] samples[i]).len() <= u16::MAX && valid_utf8(
                samples[i],
            ),
        0 < recs_a.len(),
        0 < recs_b.len(),
        recs_a.len() + recs_b.len() <= u32::MAX,
        forall|i: int| 0 <= i < recs_a.len() ==> crate::variant_data::wf_variant(
            #[trigger] recs_a[i],
        ) && crate::variant_data::spec_record_fits(
            recs_a[i],
            h.header_flags.compressed_snp_blocks,
        ),
        forall|i: int| 0 <= i < recs_b.len() ==> crate::variant_data::wf_variant(
            #[trigger] recs_b[i],
        ) && crate::variant_data::spec_record_fits(
            recs_b[i],
            h.header_flags.compressed_snp_blocks,
        ),
        h.header_flags.compressed_snp_blocks ==> forall|i: int|
            0 <= i < recs_a.len() ==> crate::variant_data::spec_zlib_faithful(
                (#[trigger] recs_a[i]).data_block,
            ),
        h.header_flags.compressed_snp_blocks ==> forall|i: int|
            0 <= i < recs_b.len() ==> crate::variant_data::spec_zlib_faithful(
                (#[trigger] recs_b[i]).data_block,
            ),
    ensures
        ({
            let input_a = spec_rewrite_bytes(h, len_block, samples, recs_a, false);
            let input_b = spec_rewrite_bytes(h, len_block, samples, recs_b, false);
            let both = recs_a + recs_b;
            let h2 = Header { variant_num: both.len() as u32, ..h };
            &&& spec_merge(seq![input_a, input_b]) == Ok::<Seq<u8>, BgenError>(
                spec_rewrite_bytes(h, len_block, samples, both, false),
            )
            &&& spec_open(spec_rewrite_bytes(h, len_block, samples, both, false), Seq::empty())
                == Ok::<(Header, u32, Seq<Seq<u8>>, int), BgenError>(
                (h2, len_block, samples, h.start_data_offset + 4),
            )
            &&& spec_collect(
                spec_rewrite_bytes(h, len_block, samples, both, false),
                h.start_data_offset + 4,
                h2,
                Seq::empty(),
                Seq::empty(),
                Seq::empty(),
                Seq::empty(),
                true,
            ) matches Ok(rs) && rs.len() == both.len() && (forall|i: int|
                0 <= i < rs.len() ==> crate::variant_data::spec_core_eq(#[trigger] rs[i], both[i]))
        }),
{
    lemma_merge_bytes_of_encoded(h, len_block, samples, recs_a, recs_b);
    lemma_rewrite_roundtrip(h, len_block, samples, recs_a + recs_b);
}

/// The byte-level half of the merge law: merging two rewriter outputs for
/// the same header shape and sample list gives exactly the rewriter output
/// for the concatenated record lists.
#[verifier::rlimit(100)]
#[verifier::spinoff_prover]
pub proof fn lemma_merge_bytes_of_encoded(
    h: Header,
    len_block: u32,
    samples: Seq<Seq<u8>>,
    recs_a: Seq<VariantDataV>,
    recs_b: Seq<VariantDataV>,
)
    requires
        spec_canonical_header(h, len_block, samples),
        spec_samples_fit(samples),
        samples.len() == h.sample_num,
        forall|i: int|
            0 <= i < samples.len() ==> (#[trigger] samples[i]).len() <= u16::MAX && valid_utf8(
                samples[i],
            ),
        0 < recs_a.len(),
        0 < recs_b.len(),
        recs_a.len() + recs_b.len() <= u32::MAX,
        forall|i: int| 0 <= i < recs_a.len() ==> crate::variant_data::wf_variant(
            #[trigger] recs_a[i],
        ) && crate::variant_data::spec_record_fits(
            recs_a[i],
            h.header_flags.compressed_snp_blocks,
        ),
        forall|i: int| 0 <= i < recs_b.len() ==> crate::variant_data::wf_variant(
            #[trigger] recs_b[i],
        ) && crate::variant_data::spec_record_fits(
            recs_b[i],
            h.header_flags.compressed_snp_blocks,
        ),
        h.header_flags.compressed_snp_blocks ==> forall|i: int|
            0 <= i < recs_a.len() ==> crate::variant_data::spec_zlib_faithful(
                (#[trigger] recs_a[i]).data_block,
            ),
        h.header_flags.compressed_snp_blocks ==> forall|i: int|
            0 <= i < recs_b.len() ==> crate::variant_data::spec_zlib_faithful(
                (#[trigger] recs_b[i]).data_block,
            ),
    ensures
        spec_merge(
            seq![
                spec_rewrite_bytes(h, len_block, samples, recs_a, false),
                spec_rewrite_bytes(h, len_block, samples, recs_b, false),
            ],
        ) == Ok::<Seq<u8>, BgenError>(
            spec_rewrite_bytes(h, len_block, samples, recs_a + recs_b, false),
        ),
{
    vstd::bytes::lemma_auto_spec_u16_to_from_le_bytes();
    vstd::bytes::lemma_auto_spec_u32_to_from_le_bytes();
    let compressed = h.header_flags.compressed_snp_blocks;
    let input_a = spec_rewrite_bytes(h, len_block, samples, recs_a, false);
    let input_b = spec_rewrite_bytes(h, len_block, samples, recs_b, false);
    let both = recs_a + recs_b;
    let es = spec_encode_samples(samples, len_block);
    let er_a = spec_encode_records(recs_a, compressed);
    let er_b = spec_encode_records(recs_b, compressed);
    let h_a = Header { variant_num: recs_a.len() as u32, ..h };
    let h_b = Header { variant_num: recs_b.len() as u32, ..h };
    lemma_rewrite_roundtrip(h, len_block, samples, recs_a);
    lemma_rewrite_roundtrip(h, len_block, samples, recs_b);
    let inputs = seq![input_a, input_b];
    assert(inputs[0] == input_a);
    assert(inputs[1] == input_b);
    // the scan over the second input succeeds and sums the counts
    assert(spec_merge_scan(inputs, 2, samples) == Ok::<int, BgenError>(0));
    assert(spec_merge_scan(inputs, 1, samples) == Ok::<int, BgenError>(recs_b.len() as int));
    let h2 = Header { variant_num: both.len() as u32, ..h };
    assert(Header { variant_num: (recs_a.len() + recs_b.len()) as u32, ..h_a } == h2);
    // each input's body is its encoded records
    assert(spec_encode_header(h_a).len() == 24);
    assert(spec_encode_header(h_b).len() == 24);
    assert(input_a =~= (spec_encode_header(h_a) + es) + er_a);
    assert(input_a.skip(h.start_data_offset + 4) =~= er_a);
    assert(input_b =~= (spec_encode_header(h_b) + es) + er_b);
    assert(input_b.skip(h.start_data_offset + 4) =~= er_b);
    let body_a = match spec_open(input_a, Seq::<Seq<u8>>::empty()) {
        Err(_) => Seq::<u8>::empty(),
        Ok((ho, lo, so, p)) => input_a.skip(p),
    };
    let body_b = match spec_open(input_b, Seq::<Seq<u8>>::empty()) {
        Err(_) => Seq::<u8>::empty(),
        Ok((ho, lo, so, p)) => input_b.skip(p),
    };
    assert(body_a == er_a);
    assert(body_b == er_b);
    assert(spec_concat_bodies(inputs, 2) =~= Seq::<u8>::empty());
    assert(spec_concat_bodies(inputs, 1) == body_b + spec_concat_bodies(inputs, 2));
    assert(er_b + Seq::<u8>::empty() =~= er_b);
    assert(spec_concat_bodies(inputs, 0) == body_a + spec_concat_bodies(inputs, 1));
    assert(spec_concat_bodies(inputs, 0) == er_a + er_b);
    lemma_encode_records_concat(recs_a, recs_b, compressed);
    assert(spec_merge(inputs) == Ok::<Seq<u8>, BgenError>(
        spec_encode_header(h2) + es + (er_a + er_b),
    ));
    assert(spec_encode_header(h2) + es + (er_a + er_b) =~= spec_encode_header(h2) + es
        + spec_encode_records(both, compressed));
}

/// The no-filter scan: every record is accepted.
pub open spec fn spec_collect_unfiltered(b: Seq<u8>, pos: int, h: Header) -> Result<
    Seq<VariantDataV>,
    BgenError,
> {
    spec_collect(b, pos, h, Seq::empty(), Seq::empty(), Seq::empty(), Seq::empty(), true)
}

/// The bytes a list of parsed records occupied on the wire.
pub open spec fn spec_total_size(rs: Seq<VariantDataV>) -> int
    decreases rs.len(),
{
    if rs.len() == 0 {
        0
    } else {
        rs[0].size_in_bytes + spec_total_size(rs.drop_first())
    }
}

/// With no filters, a scan that ends well accepted every remaining record.
pub proof fn lemma_collect_full_len(b: Seq<u8>, pos: int, h: Header)
    requires
        h.variant_count <= h.variant_num,
        spec_collect_unfiltered(b, pos, h) is Ok,
    ensures
        spec_collect_unfiltered(b, pos, h) matches Ok(rs) && rs.len() == h.variant_num
            - h.variant_count,
    decreases h.variant_num - h.variant_count,
{
    let none: Seq<crate::parser::RangeV> = Seq::empty();
    let none_ids: Seq<Seq<u8>> = Seq::empty();
    if h.variant_count < h.variant_num {
        match spec_parse_record(b, pos, h.header_flags.compressed_snp_blocks, true) {
            Err(_) => {},
            Ok((vv, end)) => {
                assert(crate::variant_data::spec_filter_with_args(
                    vv,
                    none,
                    none_ids,
                    none,
                    none_ids,
                ));
                let h2 = Header { variant_count: (h.variant_count + 1) as u32, ..h };
                lemma_collect_full_len(b, end, h2);
                let rs = spec_collect(b, pos, h, none, none_ids, none, none_ids, true)->Ok_0;
                let tail = spec_collect(b, end, h2, none, none_ids, none, none_ids, true)->Ok_0;
                assert(rs == seq![vv] + tail);
            },
        }
    }
}

/// Parse locality for a whole no-filter scan: records whose bytes are
/// copied to another position in another buffer scan the same there, their
/// positional metadata following, and the scan continues at the copy's end.
#[verifier::rlimit(100)]
#[verifier::spinoff_prover]
pub proof fn lemma_collect_frame(b1: Seq<u8>, p1: int, h1: Header, b2: Seq<u8>, p2: int, h2: Header)
    requires
        0 <= p1,
        0 <= p2,
        h2.header_flags.compressed_snp_blocks == h1.header_flags.compressed_snp_blocks,
        spec_collect_unfiltered(b1, p1, h1) matches Ok(rs) && {
            &&& h2.variant_count + rs.len() <= h2.variant_num
            &&& p2 + spec_total_size(rs) <= b2.len()
            &&& b2.subrange(p2, p2 + spec_total_size(rs)) == b1.subrange(
                p1,
                p1 + spec_total_size(rs),
            )
            &&& p1 + spec_total_size(rs) <= b1.len()
        },
    ensures
        ({
            let rs = spec_collect_unfiltered(b1, p1, h1)->Ok_0;
            let size = spec_total_size(rs);
            let h2next = Header {
                variant_count: (h2.variant_count + rs.len()) as u32,
                ..h2
            };
            match spec_collect_unfiltered(b2, p2 + size, h2next) {
                Err(e) => spec_collect_unfiltered(b2, p2, h2) == Err::<
                    Seq<VariantDataV>,
                    BgenError,
                >(e),
                Ok(rest) => spec_collect_unfiltered(b2, p2, h2) matches Ok(all) && all.len()
                    == rs.len() + rest.len() && (forall|i: int|
                    0 <= i < rs.len() ==> #[trigger] all[i] == crate::variant_data::spec_with_pos(
                        rs[i],
                        rs[i].file_start_position + (p2 - p1),
                        rs[i].size_in_bytes,
                    )) && (forall|i: int|
                    rs.len() <= i < all.len() ==> #[trigger] all[i] == rest[i - rs.len()]),
            }
        }),
    decreases h1.variant_num - h1.variant_count,
{
    let none: Seq<crate::parser::RangeV> = Seq::empty();
    let none_ids: Seq<Seq<u8>> = Seq::empty();
    let compressed = h1.header_flags.compressed_snp_blocks;
    let rs = spec_collect(b1, p1, h1, none, none_ids, none, none_ids, true)->Ok_0;
    let size = spec_total_size(rs);
    if h1.variant_count >= h1.variant_num {
        assert(rs =~= Seq::<VariantDataV>::empty());
        assert(size == 0);
        let h2next = Header { variant_count: (h2.variant_count + rs.len()) as u32, ..h2 };
        assert(h2next == h2);
        match spec_collect(b2, p2, h2, none, none_ids, none, none_ids, true) {
            Err(_) => {},
            Ok(rest) => {},
        }
    } else {
        let (v0, end0) = spec_parse_record(b1, p1, compressed, true)->Ok_0;
        crate::variant_data::lemma_parse_record_positions(b1, p1, compressed, true);
        assert(rs[0] == v0);
        let tail = rs.drop_first();
        assert(spec_total_size(rs) == v0.size_in_bytes + spec_total_size(tail));
        lemma_collect_sizes_nonneg(b1, end0, Header {
            variant_count: (h1.variant_count + 1) as u32,
            ..h1
        });
        assert(tail =~= spec_collect(
            b1,
            end0,
            Header { variant_count: (h1.variant_count + 1) as u32, ..h1 },
            Seq::empty(),
            Seq::empty(),
            Seq::empty(),
            Seq::empty(),
            true,
        )->Ok_0);
        lemma_total_size_nonneg(tail);
        assert(spec_total_size(tail) >= 0);
        // the first record's bytes sit at the head of the copied window
        crate::variant_data::lemma_window_shift(b1, p1, b2, p2, size, 0, end0 - p1);
        crate::variant_data::lemma_parse_record_frame(b1, p1, b2, p2, compressed, true);
        let h1next = Header { variant_count: (h1.variant_count + 1) as u32, ..h1 };
        let h2step = Header { variant_count: (h2.variant_count + 1) as u32, ..h2 };
        crate::variant_data::lemma_window_shift(b1, p1, b2, p2, size, end0 - p1, size);
        assert(b2.subrange(p2 + (end0 - p1), p2 + size) == b1.subrange(end0, p1 + size));
        lemma_collect_frame(b1, end0, h1next, b2, p2 + (end0 - p1), h2step);
        let h2next = Header { variant_count: (h2.variant_count + rs.len()) as u32, ..h2 };
        assert(Header {
            variant_count: (h2step.variant_count + tail.len()) as u32,
            ..h2step
        } == h2next);
        let v0b = crate::variant_data::spec_with_pos(v0, p2, end0 - p1);
        assert(crate::variant_data::spec_filter_with_args(v0b, none, none_ids, none, none_ids));
        match spec_collect(b2, p2 + size, h2next, none, none_ids, none, none_ids, true) {
            Err(_) => {},
            Ok(rest) => {
                let sub = spec_collect(
                    b2,
                    p2 + (end0 - p1),
                    h2step,
                    none,
                    none_ids,
                    none,
                    none_ids,
                    true,
                )->Ok_0;
                let all = spec_collect(b2, p2, h2, none, none_ids, none, none_ids, true)->Ok_0;
                assert(all == seq![v0b] + sub);
                assert(forall|i: int| 1 <= i < all.len() ==> all[i] == sub[i - 1]);
                assert(forall|i: int| 1 <= i < rs.len() ==> rs[i] == tail[i - 1]);
            },
        }
    }
}

/// Every record a no-filter scan yields occupies a nonnegative span.
pub proof fn lemma_collect_sizes_nonneg(b: Seq<u8>, pos: int, h: Header)
    requires
        0 <= pos,
        spec_collect(b, pos, h, Seq::empty(), Seq::empty(), Seq::empty(), Seq::empty(), true)
            is Ok,
    ensures
        spec_collect(b, pos, h, Seq::empty(), Seq::empty(), Seq::empty(), Seq::empty(), true)
            matches Ok(rs) && (forall|i: int|
            0 <= i < rs.len() ==> (#[trigger] rs[i]).size_in_bytes >= 0),
    decreases h.variant_num - h.variant_count,
{
    let none: Seq<crate::parser::RangeV> = Seq::empty();
    let none_ids: Seq<Seq<u8>> = Seq::empty();
    if h.variant_count < h.variant_num {
        match spec_parse_record(b, pos, h.header_flags.compressed_snp_blocks, true) {
            Err(_) => {},
            Ok((vv, end)) => {
                crate::variant_data::lemma_parse_record_positions(
                    b,
                    pos,
                    h.header_flags.compressed_snp_blocks,
                    true,
                );
                let h2 = Header { variant_count: (h.variant_count + 1) as u32, ..h };
                lemma_collect_sizes_nonneg(b, end, h2);
                let rs = spec_collect(b, pos, h, none, none_ids, none, none_ids, true)->Ok_0;
                let tail = spec_collect(b, end, h2, none, none_ids, none, none_ids, true)->Ok_0;
                assert(rs == seq![vv] + tail);
                assert(forall|i: int| 1 <= i < rs.len() ==> rs[i] == tail[i - 1]);
            },
        }
    }
}

/// Wire spans are never negative.
pub proof fn lemma_total_size_nonneg(rs: Seq<VariantDataV>)
    ensures
        (forall|i: int| 0 <= i < rs.len() ==> (#[trigger] rs[i]).size_in_bytes >= 0)
            ==> spec_total_size(rs) >= 0,
    decreases rs.len(),
{
    if rs.len() > 0 {
        lemma_total_size_nonneg(rs.drop_first());
        assert(forall|i: int| 0 <= i < rs.drop_first().len() ==> rs.drop_first()[i] == rs[i + 1]);
    }
}

/// Merge commutes with concatenation of bodies, for raw containers: two
/// homogeneous canonical containers whose bodies hold exactly their records
/// merge into a container that decodes to the first input's records
/// followed by the second's, every logical field kept and only the
/// positional metadata following the merged layout.
#[verifier::rlimit(100)]
#[verifier::spinoff_prover]
pub proof fn lemma_merge_of_containers(a: Seq<u8>, bb: Seq<u8>)
    requires
        spec_open(a, Seq::empty()) matches Ok((ha, lba, sa, pa)) && {
            &&& spec_canonical_header(ha, lba, sa)
            &&& spec_samples_fit(sa)
            &&& sa.len() == ha.sample_num
            &&& forall|i: int|
                0 <= i < sa.len() ==> (#[trigger] sa[i]).len() <= u16::MAX && valid_utf8(sa[i])
        },
        spec_collect_unfiltered(
            a,
            spec_open(a, Seq::empty())->Ok_0.3,
            spec_open(a, Seq::empty())->Ok_0.0,
        ) matches Ok(rsa) && spec_open(a, Seq::empty())->Ok_0.3 + spec_total_size(rsa) == a.len(),
        spec_open(bb, Seq::empty()) matches Ok((hb, lbb, sb, pb)) && {
            &&& sb == spec_open(a, Seq::empty())->Ok_0.2
            &&& hb.header_flags.compressed_snp_blocks == spec_open(
                a,
                Seq::empty(),
            )->Ok_0.0.header_flags.compressed_snp_blocks
        },
        spec_collect_unfiltered(
            bb,
            spec_open(bb, Seq::empty())->Ok_0.3,
            spec_open(bb, Seq::empty())->Ok_0.0,
        ) matches Ok(rsb) && spec_open(bb, Seq::empty())->Ok_0.3 + spec_total_size(rsb)
            == bb.len(),
        spec_open(a, Seq::empty())->Ok_0.0.variant_num + spec_open(
            bb,
            Seq::empty(),
        )->Ok_0.0.variant_num <= u32::MAX,
    ensures
        ({
            let (ha, lba, sa, pa) = spec_open(a, Seq::empty())->Ok_0;
            let (hb, lbb, sb, pb) = spec_open(bb, Seq::empty())->Ok_0;
            let rsa = spec_collect_unfiltered(a, pa, ha)->Ok_0;
            let rsb = spec_collect_unfiltered(bb, pb, hb)->Ok_0;
            let hm = Header { variant_num: (ha.variant_num + hb.variant_num) as u32, ..ha };
            spec_merge(seq![a, bb]) matches Ok(out) && {
                &&& spec_open(out, Seq::empty()) == Ok::<
                    (Header, u32, Seq<Seq<u8>>, int),
                    BgenError,
                >((hm, lba, sa, ha.start_data_offset + 4))
                &&& spec_collect_unfiltered(out, ha.start_data_offset + 4, hm) matches Ok(rs) && {
                    &&& rs.len() == rsa.len() + rsb.len()
                    &&& forall|i: int|
                        0 <= i < rsa.len() ==> crate::variant_data::spec_core_eq(
                            #[trigger] rs[i],
                            rsa[i],
                        )
                    &&& forall|i: int|
                        rsa.len() <= i < rs.len() ==> crate::variant_data::spec_core_eq(
                            #[trigger] rs[i],
                            rsb[i - rsa.len()],
                        )
                }
            }
        }),
{
    vstd::bytes::lemma_auto_spec_u16_to_from_le_bytes();
    vstd::bytes::lemma_auto_spec_u32_to_from_le_bytes();
    let (ha, lba, sa, pa) = spec_open(a, Seq::empty())->Ok_0;
    let (hb, lbb, sb, pb) = spec_open(bb, Seq::empty())->Ok_0;
    let rsa = spec_collect_unfiltered(a, pa, ha)->Ok_0;
    let rsb = spec_collect_unfiltered(bb, pb, hb)->Ok_0;
    let na = ha.variant_num as int;
    let nb = hb.variant_num as int;
    let hm = Header { variant_num: (na + nb) as u32, ..ha };
    let es = spec_encode_samples(sa, lba);
    let body_a = a.skip(pa);
    let body_b = bb.skip(pb);
    let la = spec_total_size(rsa);
    let lb = spec_total_size(rsb);
    lemma_collect_full_len(a, pa, ha);
    lemma_collect_full_len(bb, pb, hb);
    // the merge itself: the summed header, the samples, both bodies
    let inputs = seq![a, bb];
    assert(inputs[0] == a);
    assert(inputs[1] == bb);
    assert(spec_merge_scan(inputs, 2, sa) == Ok::<int, BgenError>(0));
    assert(spec_merge_scan(inputs, 1, sa) == Ok::<int, BgenError>(nb));
    assert(spec_concat_bodies(inputs, 2) =~= Seq::<u8>::empty());
    assert(body_b + Seq::<u8>::empty() =~= body_b);
    let head_body = match spec_open(a, Seq::<Seq<u8>>::empty()) {
        Err(_) => Seq::<u8>::empty(),
        Ok((ho, lo, so, po)) => a.skip(po),
    };
    let second_body = match spec_open(bb, Seq::<Seq<u8>>::empty()) {
        Err(_) => Seq::<u8>::empty(),
        Ok((ho, lo, so, po)) => bb.skip(po),
    };
    assert(head_body == body_a);
    assert(second_body == body_b);
    assert(spec_concat_bodies(inputs, 1) == second_body + spec_concat_bodies(inputs, 2));
    assert(spec_concat_bodies(inputs, 0) == head_body + spec_concat_bodies(inputs, 1));
    assert(spec_concat_bodies(inputs, 0) == body_a + body_b);
    let out = spec_encode_header(hm) + es + (body_a + body_b);
    assert(spec_merge(inputs) == Ok::<Seq<u8>, BgenError>(out));
    // the merged container opens to the summed header
    lemma_open_of_encoded(hm, lba, sa, body_a + body_b);
    assert(spec_encode_header(hm).len() == 24);
    let at = ha.start_data_offset as int + 4;
    assert(at == 24 + es.len());
    assert(out =~= (spec_encode_header(hm) + es) + (body_a + body_b));
    // the first body sits at the start of the record area
    assert(la == a.len() - pa);
    assert(lb == bb.len() - pb);
    assert(out.subrange(at, at + la) =~= a.subrange(pa, pa + la));
    assert(out.subrange(at + la, at + la + lb) =~= bb.subrange(pb, pb + lb));
    // scan the second body from where the first ends
    let h_mid = Header { variant_count: (0 + rsa.len()) as u32, ..hm };
    assert(h_mid == Header { variant_count: ha.variant_num, ..hm });
    lemma_collect_frame(bb, pb, hb, out, at + la, h_mid);
    let h_end = Header { variant_count: (h_mid.variant_count + rsb.len()) as u32, ..h_mid };
    assert(h_end.variant_count == h_end.variant_num);
    assert(spec_collect_unfiltered(out, at + la + lb, h_end) == Ok::<Seq<VariantDataV>, BgenError>(
        Seq::empty(),
    ));
    let shifted_b = spec_collect_unfiltered(out, at + la, h_mid)->Ok_0;
    assert(shifted_b.len() == rsb.len());
    // then scan the first body into it
    lemma_collect_frame(a, pa, ha, out, at, hm);
    let rs = spec_collect_unfiltered(out, at, hm)->Ok_0;
    assert(rs.len() == rsa.len() + shifted_b.len());
    assert(forall|i: int| 0 <= i < rsa.len() ==> crate::variant_data::spec_core_eq(
        #[trigger] rs[i],
        rsa[i],
    ));
    assert(forall|i: int| rsa.len() <= i < rs.len() ==> crate::variant_data::spec_core_eq(
        #[trigger] rs[i],
        rsb[i - rsa.len()],
    ));
}

impl Header {
    /// The all-zero header a stream starts with.
    pub open spec fn spec_default() -> Header {
        Header {
            start_data_offset: 0,
            header_size: 0,
            variant_num: 0,
            variant_count: 0,
            sample_num: 0,
            header_flags: HeaderFlags {
                compressed_snp_blocks: false,
                layout_id: 0,
                sample_id_present: false,
            },
        }
    }
}

} // verus!
