//! Filter expressions and the argument carriers of the command-line surface.
//!
//! A range filter is written `chr:start-end` and denotes the inclusive
//! interval `[start, end]` on chromosome `chr`; several ranges come one per
//! line. The parsers here are exact: their contracts say for every input
//! whether it is accepted and which value it denotes.

use crate::error::BgenError;
use vstd::prelude::*;

verus! {

/// One range filter: the inclusive positions `start..=end` on `chr`.
#[derive(Clone, Debug)]
pub struct Range {
    pub chr: Vec<u8>,
    pub start: u32,
    pub end: u32,
    pub incl: bool,
}

/// The mathematical value of a [`Range`].
#[verifier::ext_equal]
pub struct RangeV {
    pub chr: Seq<u8>,
    pub start: u32,
    pub end: u32,
    pub incl: bool,
}

impl View for Range {
    type V = RangeV;

    open spec fn view(&self) -> RangeV {
        RangeV { chr: self.chr@, start: self.start, end: self.end, incl: self.incl }
    }
}

impl DeepView for Range {
    type V = RangeV;

    open spec fn deep_view(&self) -> RangeV {
        self@
    }
}

/// Whether `b` is an ASCII decimal digit.
pub open spec fn spec_is_digit(b: u8) -> bool {
    48 <= b <= 57
}

pub open spec fn spec_all_digits(s: Seq<u8>) -> bool {
    forall|i: int| 0 <= i < s.len() ==> spec_is_digit(#[trigger] s[i])
}

/// The value of a decimal digit string.
pub open spec fn spec_dec_val(s: Seq<u8>) -> int
    decreases s.len(),
{
    if s.len() == 0 {
        0
    } else {
        spec_dec_val(s.drop_last()) * 10 + (s.last() - 48)
    }
}

/// The `u32` a decimal token denotes: an optional leading `+`, then at least
/// one digit, with a value that fits.
pub open spec fn spec_parse_u32_dec(s: Seq<u8>) -> Option<u32> {
    let t = if s.len() > 0 && s[0] == 43 {
        s.drop_first()
    } else {
        s
    };
    if t.len() > 0 && spec_all_digits(t) && spec_dec_val(t) <= u32::MAX {
        Some(spec_dec_val(t) as u32)
    } else {
        None
    }
}

/// The index of the first occurrence of `ch` in `s`.
pub open spec fn spec_find(s: Seq<u8>, ch: u8) -> Option<int>
    decreases s.len(),
{
    if s.len() == 0 {
        None
    } else if s[0] == ch {
        Some(0)
    } else {
        match spec_find(s.drop_first(), ch) {
            None => None,
            Some(i) => Some(i + 1),
        }
    }
}

/// The range a single `chr:start-end` token denotes. Text after a second
/// `:` or a second `-` is ignored, as the splitting of the original grammar
/// prescribes.
pub open spec fn spec_parse_range(s: Seq<u8>, incl: bool) -> Option<RangeV> {
    match spec_find(s, 58) {
        None => None,
        Some(i) => {
            let chr = s.take(i);
            let rest_all = s.skip(i + 1);
            let seg2 = match spec_find(rest_all, 58) {
                None => rest_all,
                Some(m) => rest_all.take(m),
            };
            match spec_find(seg2, 45) {
                None => None,
                Some(j) => {
                    let start_s = seg2.take(j);
                    let tail = seg2.skip(j + 1);
                    let end_s = match spec_find(tail, 45) {
                        None => tail,
                        Some(k) => tail.take(k),
                    };
                    match spec_parse_u32_dec(start_s) {
                        None => None,
                        Some(a) => match spec_parse_u32_dec(end_s) {
                            None => None,
                            Some(b) => Some(RangeV { chr, start: a, end: b, incl }),
                        },
                    }
                },
            }
        },
    }
}

/// `s` with every trailing newline removed.
pub open spec fn spec_trim_nl(s: Seq<u8>) -> Seq<u8>
    decreases s.len(),
{
    if s.len() > 0 && s.last() == 10 {
        spec_trim_nl(s.drop_last())
    } else {
        s
    }
}

/// The ranges of a newline-separated list of tokens; `None` as soon as one
/// token is malformed.
pub open spec fn spec_parse_range_lines(s: Seq<u8>) -> Option<Seq<RangeV>>
    decreases s.len(),
{
    match spec_find(s, 10) {
        None => match spec_parse_range(s, true) {
            None => None,
            Some(r) => Some(seq![r]),
        },
        Some(i) => if 0 <= i < s.len() {
            match spec_parse_range(s.take(i), true) {
                None => None,
                Some(r) => match spec_parse_range_lines(s.skip(i + 1)) {
                    None => None,
                    Some(rest) => Some(seq![r] + rest),
                },
            }
        } else {
            None
        },
    }
}

/// What a whole range filter text denotes: trailing newlines are trimmed,
/// then each line is one range.
pub open spec fn spec_validate_ranges(s: Seq<u8>) -> Option<Seq<RangeV>> {
    spec_parse_range_lines(spec_trim_nl(s))
}

/// The segments of `s` between newlines, kept verbatim (empties stay).
pub open spec fn spec_split_nl(s: Seq<u8>) -> Seq<Seq<u8>>
    decreases s.len(),
{
    match spec_find(s, 10) {
        None => seq![s],
        Some(i) => if 0 <= i < s.len() {
            seq![s.take(i)] + spec_split_nl(s.skip(i + 1))
        } else {
            seq![s]
        },
    }
}

pub proof fn lemma_dec_val_nonneg(s: Seq<u8>)
    requires
        spec_all_digits(s),
    ensures
        spec_dec_val(s) >= 0,
    decreases s.len(),
{
    if s.len() > 0 {
        assert(spec_all_digits(s.drop_last())) by {
            assert(forall|i: int|
                0 <= i < s.len() - 1 ==> #[trigger] s.drop_last()[i] == s[i]);
        }
        lemma_dec_val_nonneg(s.drop_last());
    }
}

/// Appending digits never shrinks the denoted value.
pub proof fn lemma_dec_val_prefix(s: Seq<u8>, k: int)
    requires
        spec_all_digits(s),
        0 <= k <= s.len(),
    ensures
        spec_dec_val(s.take(k)) <= spec_dec_val(s),
    decreases s.len() - k,
{
    if k < s.len() {
        assert(spec_all_digits(s.take(k + 1))) by {
            assert(forall|i: int| 0 <= i < k + 1 ==> #[trigger] s.take(k + 1)[i] == s[i]);
        }
        assert(s.take(k + 1).drop_last() =~= s.take(k));
        assert(s.take(k + 1).last() == s[k]);
        lemma_dec_val_nonneg(s.take(k));
        lemma_dec_val_prefix(s, k + 1);
        assert(spec_dec_val(s.take(k + 1)) == spec_dec_val(s.take(k)) * 10 + (s[k] - 48));
        assert(spec_dec_val(s.take(k)) * 10 >= spec_dec_val(s.take(k))) by (nonlinear_arith)
            requires
                spec_dec_val(s.take(k)) >= 0,
        ;
    } else {
        assert(s.take(k) =~= s);
    }
}

/// Parses a decimal `u32` token.
pub fn parse_u32_dec(s: &[u8]) -> (r: Option<u32>)
    ensures
        r == spec_parse_u32_dec(s@),
{
    let n = s.len();
    let from: usize = if n > 0 && s[0] == 43 {
        1
    } else {
        0
    };
    let ghost t = if s@.len() > 0 && s@[0] == 43 {
        s@.drop_first()
    } else {
        s@
    };
    proof {
        assert(t =~= s@.subrange(from as int, n as int));
    }
    if from == n {
        return None;
    }
    let mut acc: u32 = 0;
    let mut i: usize = from;
    proof {
        assert(t.take(0) =~= Seq::<u8>::empty());
    }
    while i < n
        invariant
            from <= i <= n,
            n == s@.len(),
            t == (if s@.len() > 0 && s@[0] == 43 {
                s@.drop_first()
            } else {
                s@
            }),
            t == s@.subrange(from as int, n as int),
            spec_all_digits(t.take(i - from)),
            acc as int == spec_dec_val(t.take(i - from)),
        decreases n - i,
    {
        let b = s[i];
        if b < 48 || b > 57 {
            proof {
                assert(t[i - from] == b);
                assert(!spec_all_digits(t)) by {
                    if spec_all_digits(t) {
                        assert(spec_is_digit(t[i - from]));
                    }
                }
            }
            return None;
        }
        let d = (b - 48) as u32;
        proof {
            assert(t.take(i - from + 1).drop_last() =~= t.take(i - from));
            assert(t.take(i - from + 1).last() == t[i - from]);
            assert(spec_all_digits(t.take(i - from + 1))) by {
                assert(forall|j: int|
                    0 <= j < i - from ==> #[trigger] t.take(i - from + 1)[j] == t.take(i - from)[j]);
                assert(t.take(i - from + 1)[i - from] == b);
            }
        }
        if acc > (u32::MAX - d) / 10 {
            proof {
                vstd::arithmetic::div_mod::lemma_fundamental_div_mod(u32::MAX - d, 10);
                assert((acc as int) * 10 + d > u32::MAX);
                assert(spec_dec_val(t.take(i - from + 1)) > u32::MAX);
                assert(spec_all_digits(t) ==> spec_dec_val(t) > u32::MAX) by {
                    if spec_all_digits(t) {
                        lemma_dec_val_prefix(t, i - from + 1);
                    }
                }
            }
            return None;
        }
        proof {
            vstd::arithmetic::div_mod::lemma_fundamental_div_mod(u32::MAX - d, 10);
            assert((acc as int) * 10 + d <= u32::MAX);
        }
        acc = acc * 10 + d;
        i = i + 1;
    }
    proof {
        assert(t.take(n - from) =~= t);
    }
    Some(acc)
}

/// The first position of `ch` in `s`.
pub fn find_byte(s: &[u8], ch: u8) -> (r: Option<usize>)
    ensures
        match r {
            Some(i) => spec_find(s@, ch) == Some(i as int) && i < s@.len() && s@[i as int] == ch,
            None => spec_find(s@, ch) is None,
        },
{
    let n = s.len();
    let mut i: usize = 0;
    while i < n
        invariant
            i <= n,
            n == s@.len(),
            forall|j: int| 0 <= j < i ==> s@[j] != ch,
        decreases n - i,
    {
        if s[i] == ch {
            proof {
                lemma_spec_find_at(s@, ch, i as int);
            }
            return Some(i);
        }
        i = i + 1;
    }
    proof {
        lemma_spec_find_absent(s@, ch);
    }
    None
}

/// A first occurrence pins down `spec_find`.
pub proof fn lemma_spec_find_at(s: Seq<u8>, ch: u8, i: int)
    requires
        0 <= i < s.len(),
        s[i] == ch,
        forall|j: int| 0 <= j < i ==> s[j] != ch,
    ensures
        spec_find(s, ch) == Some(i),
    decreases i,
{
    if i > 0 {
        assert(forall|j: int| 0 <= j < i - 1 ==> #[trigger] s.drop_first()[j] != ch);
        assert(s.drop_first()[i - 1] == ch);
        lemma_spec_find_at(s.drop_first(), ch, i - 1);
    }
}

/// No occurrence means `spec_find` yields nothing.
pub proof fn lemma_spec_find_absent(s: Seq<u8>, ch: u8)
    requires
        forall|j: int| 0 <= j < s.len() ==> s[j] != ch,
    ensures
        spec_find(s, ch) is None,
    decreases s.len(),
{
    if s.len() > 0 {
        assert(forall|j: int| 0 <= j < s.len() - 1 ==> #[trigger] s.drop_first()[j] != ch);
        lemma_spec_find_absent(s.drop_first(), ch);
    }
}

impl Range {
    /// Parses one `chr:start-end` token.
    pub fn from_str(s: &[u8], incl: bool) -> (r: Result<Range, BgenError>)
        ensures
            match r {
                Ok(rg) => spec_parse_range(s@, incl) == Some(rg@),
                Err(e) => spec_parse_range(s@, incl) is None && e
                    == BgenError::InvalidRangeExpression,
            },
    {
        let i = match find_byte(s, 58) {
            Some(i) => i,
            None => {
                return Err(BgenError::InvalidRangeExpression);
            },
        };
        let n_s = s.len();
        let chr = vstd::slice::slice_to_vec(vstd::slice::slice_subrange(s, 0, i));
        let rest_all = vstd::slice::slice_subrange(s, i + 1, n_s);
        proof {
            assert(rest_all@ =~= s@.skip(i + 1));
        }
        let seg2 = match find_byte(rest_all, 58) {
            Some(m) => vstd::slice::slice_subrange(rest_all, 0, m),
            None => rest_all,
        };
        proof {
            assert(chr@ =~= s@.take(i as int));
        }
        let j = match find_byte(seg2, 45) {
            Some(j) => j,
            None => {
                return Err(BgenError::InvalidRangeExpression);
            },
        };
        let start_s = vstd::slice::slice_subrange(seg2, 0, j);
        let tail = vstd::slice::slice_subrange(seg2, j + 1, seg2.len());
        proof {
            assert(start_s@ =~= seg2@.take(j as int));
            assert(tail@ =~= seg2@.skip(j + 1));
        }
        let end_s = match find_byte(tail, 45) {
            Some(k) => vstd::slice::slice_subrange(tail, 0, k),
            None => tail,
        };
        let start = match parse_u32_dec(start_s) {
            Some(a) => a,
            None => {
                return Err(BgenError::InvalidRangeExpression);
            },
        };
        let end = match parse_u32_dec(end_s) {
            Some(b) => b,
            None => {
                return Err(BgenError::InvalidRangeExpression);
            },
        };
        Ok(Range { chr, start, end, incl })
    }
}

/// Parses a newline-separated range list, as a range file or a multi-line
/// inline argument holds it.
pub fn validate_parsing_range(text: &[u8]) -> (r: Result<Vec<Range>, BgenError>)
    ensures
        match r {
            Ok(v) => spec_validate_ranges(text@) == Some(v.deep_view()),
            Err(e) => spec_validate_ranges(text@) is None && e
                == BgenError::InvalidRangeExpression,
        },
{
    let mut n = text.len();
    proof {
        assert(text@.take(text@.len() as int) =~= text@);
    }
    while n > 0 && text[n - 1] == 10
        invariant
            n <= text@.len(),
            spec_trim_nl(text@) == spec_trim_nl(text@.take(n as int)),
        decreases n,
    {
        proof {
            assert(text@.take(n as int).drop_last() =~= text@.take(n - 1));
            assert(text@.take(n as int).last() == text@[n - 1]);
        }
        n = n - 1;
    }
    let trimmed = vstd::slice::slice_subrange(text, 0, n);
    proof {
        assert(trimmed@ =~= text@.take(n as int));
        if n > 0 {
            assert(text@.take(n as int).last() == text@[n - 1]);
        }
        assert(spec_trim_nl(text@.take(n as int)) == text@.take(n as int));
    }
    let mut out: Vec<Range> = Vec::new();
    let mut rest: &[u8] = trimmed;
    proof {
        assert(out.deep_view() =~= Seq::<RangeV>::empty());
        if spec_parse_range_lines(trimmed@) is Some {
            let whole = spec_parse_range_lines(trimmed@)->Some_0;
            assert(out.deep_view() + whole =~= whole);
        }
    }
    loop
        invariant
            spec_validate_ranges(text@) == spec_parse_range_lines(trimmed@),
            match spec_parse_range_lines(rest@) {
                None => spec_parse_range_lines(trimmed@) is None,
                Some(tail_ranges) => spec_parse_range_lines(trimmed@) == Some(
                    out.deep_view() + tail_ranges,
                ),
            },
        decreases rest@.len(),
    {
        match find_byte(rest, 10) {
            None => {
                let rg = match Range::from_str(rest, true) {
                    Ok(rg) => rg,
                    Err(e) => {
                        return Err(e);
                    },
                };
                let ghost old_out = out.deep_view();
                out.push(rg);
                proof {
                    assert(out.deep_view() =~= old_out.push(rg@));
                    assert(old_out + seq![rg@] =~= out.deep_view());
                    assert(spec_parse_range_lines(trimmed@) == Some(out.deep_view()));
                }
                return Ok(out);
            },
            Some(idx) => {
                let line = vstd::slice::slice_subrange(rest, 0, idx);
                proof {
                    assert(line@ =~= rest@.take(idx as int));
                }
                let rg = match Range::from_str(line, true) {
                    Ok(rg) => rg,
                    Err(e) => {
                        return Err(e);
                    },
                };
                let ghost old_rest = rest@;
                let rn = rest.len();
                let next = vstd::slice::slice_subrange(rest, idx + 1, rn);
                proof {
                    assert(next@ =~= old_rest.skip(idx + 1));
                }
                let ghost old_out = out.deep_view();
                out.push(rg);
                proof {
                    assert(out.deep_view() =~= old_out.push(rg@));
                    if spec_parse_range_lines(next@) is Some {
                        let tail_ranges = spec_parse_range_lines(next@)->Some_0;
                        assert(old_out + (seq![rg@] + tail_ranges) =~= out.deep_view()
                            + tail_ranges);
                        assert(spec_parse_range_lines(old_rest) == Some(
                            old_out + (seq![rg@] + tail_ranges),
                        ) ==> spec_parse_range_lines(trimmed@) == Some(
                            out.deep_view() + tail_ranges,
                        ));
                    }
                }
                rest = next;
            },
        }
    }
}

/// Splits text on newlines, keeping every segment verbatim, as an rsid list
/// file is read: one identifier per line, empty segments kept.
pub fn split_lines(text: &[u8]) -> (r: Vec<Vec<u8>>)
    ensures
        r.deep_view() == spec_split_nl(text@),
{
    let mut out: Vec<Vec<u8>> = Vec::new();
    let mut rest: &[u8] = text;
    proof {
        assert(out.deep_view() =~= Seq::<Seq<u8>>::empty());
        assert(out.deep_view() + spec_split_nl(rest@) =~= spec_split_nl(rest@));
    }
    loop
        invariant
            spec_split_nl(text@) == out.deep_view() + spec_split_nl(rest@),
        decreases rest@.len(),
    {
        match find_byte(rest, 10) {
            None => {
                let ghost old_out = out.deep_view();
                out.push(vstd::slice::slice_to_vec(rest));
                proof {
                    assert(out.deep_view() =~~= old_out.push(rest@));
                    assert(old_out + seq![rest@] =~= out.deep_view());
                }
                return out;
            },
            Some(idx) => {
                let line = vstd::slice::slice_subrange(rest, 0, idx);
                let rn = rest.len();
                let next = vstd::slice::slice_subrange(rest, idx + 1, rn);
                let ghost old_rest = rest@;
                let ghost old_out = out.deep_view();
                out.push(vstd::slice::slice_to_vec(line));
                proof {
                    assert(line@ =~= old_rest.take(idx as int));
                    assert(next@ =~= old_rest.skip(idx + 1));
                    assert(out.deep_view() =~~= old_out.push(line@));
                    assert(old_out + (seq![line@] + spec_split_nl(next@)) =~= out.deep_view()
                        + spec_split_nl(next@));
                }
                rest = next;
            },
        }
    }
}

/// The inclusion-range group of the command line: either an inline list or a
/// file name, never both.
#[derive(Clone, Debug, Default)]
pub struct InclRange {
    pub incl_range: Option<Vec<u8>>,
    pub incl_range_file: Option<Vec<u8>>,
}

/// The exclusion-range group of the command line.
#[derive(Clone, Debug, Default)]
pub struct ExclRange {
    pub excl_range: Option<Vec<u8>>,
    pub excl_range_file: Option<Vec<u8>>,
}

/// The inclusion-rsid group of the command line.
#[derive(Clone, Debug, Default)]
pub struct InclRsid {
    pub incl_rsid: Option<Vec<u8>>,
    pub incl_rsid_file: Option<Vec<u8>>,
}

/// The exclusion-rsid group of the command line.
#[derive(Clone, Debug, Default)]
pub struct ExclRsid {
    pub excl_rsid: Option<Vec<u8>>,
    pub excl_rsid_file: Option<Vec<u8>>,
}

/// The four filter groups a listing or rewriting command accepts.
///
/// A `*_file` field names a file; reading it is the caller's business. A
/// caller that has read such a file passes its text through the matching
/// inline field instead (the inline grammar already takes one token per
/// line), so resolution here only handles inline text.
#[derive(Clone, Debug, Default)]
pub struct FilterArgs {
    pub incl_range: InclRange,
    pub excl_range: ExclRange,
    pub incl_rsid: InclRsid,
    pub excl_rsid: ExclRsid,
}

/// What one range group resolves to.
pub open spec fn spec_group_ranges(inline: Option<Vec<u8>>, file: Option<Vec<u8>>) -> Result<
    Seq<RangeV>,
    BgenError,
> {
    if inline is Some && file is Some {
        Err(BgenError::ConflictingFilterInputs)
    } else if file is Some {
        Err(BgenError::FilterFileNotLoaded)
    } else if inline is Some {
        match spec_validate_ranges(inline->0@) {
            None => Err(BgenError::InvalidRangeExpression),
            Some(rs) => Ok(rs),
        }
    } else {
        Ok(Seq::empty())
    }
}

/// What one rsid group resolves to: an inline rsid is a single identifier.
pub open spec fn spec_group_rsids(inline: Option<Vec<u8>>, file: Option<Vec<u8>>) -> Result<
    Seq<Seq<u8>>,
    BgenError,
> {
    if inline is Some && file is Some {
        Err(BgenError::ConflictingFilterInputs)
    } else if file is Some {
        Err(BgenError::FilterFileNotLoaded)
    } else if inline is Some {
        Ok(seq![inline->0@])
    } else {
        Ok(Seq::empty())
    }
}

impl FilterArgs {
    /// Names a range-inclusion file.
    pub fn with_range_incl_file(self, incl_file: Vec<u8>) -> (r: Self)
        ensures
            r == (FilterArgs {
                incl_range: InclRange { incl_range: None, incl_range_file: Some(incl_file) },
                ..self
            }),
    {
        FilterArgs {
            incl_range: InclRange { incl_range: None, incl_range_file: Some(incl_file) },
            ..self
        }
    }

    /// Names a range-exclusion file.
    pub fn with_range_excl_file(self, excl_file: Vec<u8>) -> (r: Self)
        ensures
            r == (FilterArgs {
                excl_range: ExclRange { excl_range: None, excl_range_file: Some(excl_file) },
                ..self
            }),
    {
        FilterArgs {
            excl_range: ExclRange { excl_range: None, excl_range_file: Some(excl_file) },
            ..self
        }
    }

    /// Sets the inline range-inclusion list.
    pub fn with_range_incl_str(self, incl: Vec<u8>) -> (r: Self)
        ensures
            r == (FilterArgs {
                incl_range: InclRange { incl_range: Some(incl), incl_range_file: None },
                ..self
            }),
    {
        FilterArgs {
            incl_range: InclRange { incl_range: Some(incl), incl_range_file: None },
            ..self
        }
    }

    /// Sets the inline range-exclusion list.
    pub fn with_range_excl_str(self, excl: Vec<u8>) -> (r: Self)
        ensures
            r == (FilterArgs {
                excl_range: ExclRange { excl_range: Some(excl), excl_range_file: None },
                ..self
            }),
    {
        FilterArgs {
            excl_range: ExclRange { excl_range: Some(excl), excl_range_file: None },
            ..self
        }
    }

    /// Sets the single inline rsid to keep.
    pub fn with_rsid_incl_str(self, incl: Vec<u8>) -> (r: Self)
        ensures
            r == (FilterArgs {
                incl_rsid: InclRsid { incl_rsid: Some(incl), incl_rsid_file: None },
                ..self
            }),
    {
        FilterArgs { incl_rsid: InclRsid { incl_rsid: Some(incl), incl_rsid_file: None }, ..self }
    }

    /// Names an rsid-inclusion file.
    pub fn with_rsid_incl_file(self, incl_file: Vec<u8>) -> (r: Self)
        ensures
            r == (FilterArgs {
                incl_rsid: InclRsid { incl_rsid: None, incl_rsid_file: Some(incl_file) },
                ..self
            }),
    {
        FilterArgs {
            incl_rsid: InclRsid { incl_rsid: None, incl_rsid_file: Some(incl_file) },
            ..self
        }
    }

    /// Resolves the four groups into their range and rsid lists, in the
    /// order inclusion ranges, exclusion ranges, inclusion rsids, exclusion
    /// rsids; the first failing group decides the error.
    pub fn get_vector_incl_and_excl(&self) -> (r: Result<
        (Vec<Range>, Vec<Vec<u8>>, Vec<Range>, Vec<Vec<u8>>),
        BgenError,
    >)
        ensures
            match r {
                Ok((ir, irs, er, ers)) => {
                    &&& spec_group_ranges(
                        self.incl_range.incl_range,
                        self.incl_range.incl_range_file,
                    ) == Ok::<Seq<RangeV>, BgenError>(ir.deep_view())
                    &&& spec_group_ranges(
                        self.excl_range.excl_range,
                        self.excl_range.excl_range_file,
                    ) == Ok::<Seq<RangeV>, BgenError>(er.deep_view())
                    &&& spec_group_rsids(self.incl_rsid.incl_rsid, self.incl_rsid.incl_rsid_file)
                        == Ok::<Seq<Seq<u8>>, BgenError>(irs.deep_view())
                    &&& spec_group_rsids(self.excl_rsid.excl_rsid, self.excl_rsid.excl_rsid_file)
                        == Ok::<Seq<Seq<u8>>, BgenError>(ers.deep_view())
                },
                Err(e) => {
                    ||| spec_group_ranges(
                        self.incl_range.incl_range,
                        self.incl_range.incl_range_file,
                    ) == Err::<Seq<RangeV>, BgenError>(e)
                    ||| spec_group_ranges(
                        self.excl_range.excl_range,
                        self.excl_range.excl_range_file,
                    ) == Err::<Seq<RangeV>, BgenError>(e)
                    ||| spec_group_rsids(self.incl_rsid.incl_rsid, self.incl_rsid.incl_rsid_file)
                        == Err::<Seq<Seq<u8>>, BgenError>(e)
                    ||| spec_group_rsids(self.excl_rsid.excl_rsid, self.excl_rsid.excl_rsid_file)
                        == Err::<Seq<Seq<u8>>, BgenError>(e)
                },
            },
    {
        let incl_ranges = match (&self.incl_range.incl_range, &self.incl_range.incl_range_file) {
            (Some(_), Some(_)) => {
                return Err(BgenError::ConflictingFilterInputs);
            },
            (_, Some(_)) => {
                return Err(BgenError::FilterFileNotLoaded);
            },
            (Some(text), None) => {
                match validate_parsing_range(text.as_slice()) {
                    Ok(v) => v,
                    Err(e) => {
                        return Err(e);
                    },
                }
            },
            (None, None) => Vec::new(),
        };
        let excl_ranges = match (&self.excl_range.excl_range, &self.excl_range.excl_range_file) {
            (Some(_), Some(_)) => {
                return Err(BgenError::ConflictingFilterInputs);
            },
            (_, Some(_)) => {
                return Err(BgenError::FilterFileNotLoaded);
            },
            (Some(text), None) => {
                match validate_parsing_range(text.as_slice()) {
                    Ok(v) => v,
                    Err(e) => {
                        return Err(e);
                    },
                }
            },
            (None, None) => Vec::new(),
        };
        let mut incl_rsids: Vec<Vec<u8>> = Vec::new();
        match (&self.incl_rsid.incl_rsid, &self.incl_rsid.incl_rsid_file) {
            (Some(_), Some(_)) => {
                return Err(BgenError::ConflictingFilterInputs);
            },
            (_, Some(_)) => {
                return Err(BgenError::FilterFileNotLoaded);
            },
            (Some(id), None) => {
                incl_rsids.push(crate::utils::copy_bytes(id));
                proof {
                    assert(incl_rsids.deep_view() =~~= seq![id@]);
                }
            },
            (None, None) => (),
        }
        let mut excl_rsids: Vec<Vec<u8>> = Vec::new();
        match (&self.excl_rsid.excl_rsid, &self.excl_rsid.excl_rsid_file) {
            (Some(_), Some(_)) => {
                return Err(BgenError::ConflictingFilterInputs);
            },
            (_, Some(_)) => {
                return Err(BgenError::FilterFileNotLoaded);
            },
            (Some(id), None) => {
                excl_rsids.push(crate::utils::copy_bytes(id));
                proof {
                    assert(excl_rsids.deep_view() =~~= seq![id@]);
                }
            },
            (None, None) => (),
        }
        proof {
            if self.incl_range.incl_range is None {
                assert(incl_ranges.deep_view() =~= Seq::<RangeV>::empty());
            }
            if self.excl_range.excl_range is None {
                assert(excl_ranges.deep_view() =~= Seq::<RangeV>::empty());
            }
            if self.incl_rsid.incl_rsid is None {
                assert(incl_rsids.deep_view() =~= Seq::<Seq<u8>>::empty());
            }
            if self.excl_rsid.excl_rsid is None {
                assert(excl_rsids.deep_view() =~= Seq::<Seq<u8>>::empty());
            }
        }
        Ok((incl_ranges, incl_rsids, excl_ranges, excl_rsids))
    }
}

/// Which shape a variant listing takes: the full tab-delimited line or the
/// rsid column alone.
#[derive(Clone, Debug, Default, PartialEq, Eq, Structural)]
pub enum VariantOutput {
    #[default]
    Bgenix,
    Rsid,
}

/// The filters and the output file name of a writing command.
#[derive(Clone, Debug, Default)]
pub struct FilterArgsNamed {
    pub filter_args: FilterArgs,
    pub name: Vec<u8>,
}

/// The filters and the output shape of the listing command.
#[derive(Clone, Debug, Default)]
pub struct FilterArgsList {
    pub filter_args: FilterArgs,
    pub variant_output: VariantOutput,
}

/// The input list file and the output file of a merge.
#[derive(Clone, Debug, Default)]
pub struct MergeArgs {
    pub name: Vec<u8>,
    pub output_name: Vec<u8>,
}

/// The subcommands of the command-line surface.
#[derive(Clone, Debug)]
pub enum Command {
    List(FilterArgsList),
    Index,
    Vcf(FilterArgsNamed),
    Bgen(FilterArgsNamed),
    Merge(MergeArgs),
}

/// The whole command line: the container file, the verbosity switch, the
/// sidecar-sample switch and the subcommand.
#[derive(Clone, Debug)]
pub struct Cli {
    pub filename: Vec<u8>,
    pub verbose: bool,
    pub use_sample_file: bool,
    pub command: Command,
}

} // verus!
