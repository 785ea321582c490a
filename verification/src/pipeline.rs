//! The pipeline driver: source detection, per-sample numbering, and dispatch
//! to one of the two encoders.
//!
//! A run consumes its input as a sequence of lines (each a byte vector,
//! without its line terminator). In transcript mode every line up to and
//! including the first sentinel line is discarded, and the run fails when no
//! sentinel occurs; in tabular mode every line is a data row. Each data
//! record is parsed, numbered (1-based, in input order), and handed to the
//! selected encoder; the first record that fails to parse aborts the run,
//! keeping everything already encoded.

use vstd::prelude::*;

use crate::binsink::BenSink;
use crate::encode::json_stream;
use crate::encode::push_record;
use crate::encode::spec_record;
use crate::parse::copy_range;
use crate::parse::parse_plan_line;
use crate::parse::parse_plan_line_exec;
use crate::parse::parse_row;
use crate::parse::parse_row_exec;
use crate::parse::lemma_plan_line_len;
use crate::parse::lemma_row_len;
use crate::parse::row_bad_from;
use crate::parse::split_fields;

verus! {

/// Why a run failed.
#[derive(Debug, Clone, PartialEq, Eq)]
pub enum CanonError {
    /// Transcript mode: the input ended before the sentinel line.
    SentinelNotFound,
    /// Transcript mode: the data line for this 1-based sample number is not
    /// a bracketed list of unsigned 16-bit integers; carries the line.
    BadLine { sample: u64, line: Vec<u8> },
    /// Tabular mode: a field of the row for this 1-based sample number does
    /// not parse as an unsigned 16-bit integer; carries the first such field.
    BadField { sample: u64, field: Vec<u8> },
}

/// The bytes of the sentinel line `Now printing the plans:`.
pub open spec fn spec_sentinel() -> Seq<u8> {
    seq![
        78u8,
        111u8,
        119u8,
        32u8,
        112u8,
        114u8,
        105u8,
        110u8,
        116u8,
        105u8,
        110u8,
        103u8,
        32u8,
        116u8,
        104u8,
        101u8,
        32u8,
        112u8,
        108u8,
        97u8,
        110u8,
        115u8,
        58u8,
    ]
}

/// Index of the first sentinel line at or after `i`, or `lines.len()`.
pub open spec fn sentinel_from(lines: Seq<Seq<u8>>, i: int) -> int
    decreases lines.len() - i when 0 <= i <= lines.len()
{
    if i >= lines.len() {
        i
    } else if lines[i] == spec_sentinel() {
        i
    } else {
        sentinel_from(lines, i + 1)
    }
}

/// Whether some line of the transcript is the sentinel.
pub open spec fn has_sentinel(lines: Seq<Seq<u8>>) -> bool {
    sentinel_from(lines, 0) < lines.len()
}

/// The data records of a transcript: every line after the first sentinel.
pub open spec fn transcript_data(lines: Seq<Seq<u8>>) -> Seq<Seq<u8>> {
    lines.subrange(sentinel_from(lines, 0) + 1, lines.len() as int)
}

/// Parses one data record in the given mode.
pub open spec fn rec_parse(l: Seq<u8>, tabular: bool) -> Option<Seq<u16>> {
    if tabular {
        parse_row(l)
    } else {
        parse_plan_line(l)
    }
}

/// Index of the first data record at or after `i` that fails to parse, or
/// `data.len()` when every one parses.
pub open spec fn first_bad_from(data: Seq<Seq<u8>>, tabular: bool, i: int) -> int
    decreases data.len() - i when 0 <= i <= data.len()
{
    if i >= data.len() {
        i
    } else if rec_parse(data[i], tabular) is None {
        i
    } else {
        first_bad_from(data, tabular, i + 1)
    }
}

/// The assignments of the first `k` data records, each parsed.
pub open spec fn assignments_prefix(data: Seq<Seq<u8>>, tabular: bool, k: int) -> Seq<Seq<u16>> {
    Seq::new(k as nat, |x: int| rec_parse(data[x], tabular).unwrap())
}

/// The assignments a run over `data` hands to its encoder: every record
/// before the first failing one, parsed, in input order.
pub open spec fn stream_assignments(data: Seq<Seq<u8>>, tabular: bool) -> Seq<Seq<u16>> {
    assignments_prefix(data, tabular, first_bad_from(data, tabular, 0))
}

/// The structured-text bytes a run emits for the given input lines and
/// mode: nothing when the transcript sentinel is absent, else one record per
/// parsed data record up to the first failure.
pub open spec fn jsonl_output(lines: Seq<Seq<u8>>, tabular: bool) -> Seq<u8> {
    if tabular {
        json_stream(stream_assignments(lines, true))
    } else if has_sentinel(lines) {
        json_stream(stream_assignments(transcript_data(lines), false))
    } else {
        Seq::empty()
    }
}

/// The first field of `l` that fails to parse as an unsigned 16-bit integer.
pub open spec fn row_bad_field(l: Seq<u8>) -> Seq<u8> {
    split_fields(l)[row_bad_from(split_fields(l), 0)]
}

/// The sentinel line as a vector.
fn sentinel_vec() -> (v: Vec<u8>)
    ensures
        v@ == spec_sentinel(),
{
    let mut v: Vec<u8> = Vec::new();
    v.push(78);
    v.push(111);
    v.push(119);
    v.push(32);
    v.push(112);
    v.push(114);
    v.push(105);
    v.push(110);
    v.push(116);
    v.push(105);
    v.push(110);
    v.push(103);
    v.push(32);
    v.push(116);
    v.push(104);
    v.push(101);
    v.push(32);
    v.push(112);
    v.push(108);
    v.push(97);
    v.push(110);
    v.push(115);
    v.push(58);
    assert(v@ =~= spec_sentinel());
    v
}

/// Whether `l` is exactly the sentinel line.
fn is_sentinel(l: &Vec<u8>) -> (r: bool)
    ensures
        r == (l@ == spec_sentinel()),
{
    let s = sentinel_vec();
    if l.len() != s.len() {
        assert(l@ != spec_sentinel());
        return false;
    }
    let mut x: usize = 0;
    while x < l.len()
        invariant
            x <= l.len(),
            l.len() == s.len(),
            s@ == spec_sentinel(),
            forall|t: int| 0 <= t < x ==> l@[t] == spec_sentinel()[t],
        decreases l.len() - x,
    {
        if l[x] != s[x] {
            assert(l@ != spec_sentinel());
            return false;
        }
        x = x + 1;
    }
    assert(l@ =~= spec_sentinel());
    true
}

/// A deeply viewed line sequence indexes to the view of each line.
proof fn lemma_deep_view_index(v: Vec<Vec<u8>>, x: int)
    requires
        0 <= x < v@.len(),
    ensures
        v.deep_view().len() == v@.len(),
        v.deep_view()[x] == v@[x]@,
{
    assert(v.deep_view()[x] =~= v@[x]@);
}

/// Index of the first sentinel line, or the number of lines when none is.
fn find_sentinel_idx(lines: &Vec<Vec<u8>>) -> (r: usize)
    ensures
        r as int == sentinel_from(lines.deep_view(), 0),
        r <= lines@.len(),
{
    let ghost ls = lines.deep_view();
    let n = lines.len();
    proof {
        assert(ls.len() == n) by {
            if n > 0 {
                lemma_deep_view_index(*lines, 0);
            }
        }
    }
    let mut i: usize = 0;
    while i < n && !is_sentinel(&lines[i])
        invariant
            i <= n,
            n == lines@.len(),
            ls == lines.deep_view(),
            ls.len() == n,
            sentinel_from(ls, 0) == sentinel_from(ls, i as int),
            i < n ==> ls[i as int] == lines@[i as int]@,
        decreases n - i,
    {
        proof {
            lemma_deep_view_index(*lines, i as int);
            assert(ls[i as int] != spec_sentinel());
            if i + 1 < n {
                lemma_deep_view_index(*lines, i + 1);
            }
        }
        i = i + 1;
    }
    proof {
        if i < n {
            lemma_deep_view_index(*lines, i as int);
            assert(ls[i as int] == spec_sentinel());
        }
        assert(sentinel_from(ls, i as int) == i);
    }
    i
}

/// Canonicalizes a console transcript into the structured-text encoding.
///
/// Every line up to and including the first sentinel is discarded; when no
/// sentinel occurs the run fails without emitting anything. Each following
/// line must be a bracketed list of unsigned 16-bit integers; the records
/// already encoded stay in `out` when a later line fails. On success the
/// result is the number of samples written.
pub fn canonicalize_jsonl_from_print(lines: &Vec<Vec<u8>>, out: &mut Vec<u8>) -> (r: Result<
    u64,
    CanonError,
>)
    ensures
        final(out)@ == old(out)@ + jsonl_output(lines.deep_view(), false),
        ({
            let ls = lines.deep_view();
            let data = transcript_data(ls);
            let k = first_bad_from(data, false, 0);
            &&& !has_sentinel(ls) ==> (r matches Err(e) && e == CanonError::SentinelNotFound
                && final(out)@ == old(out)@)
            &&& has_sentinel(ls) && k == data.len() ==> (r matches Ok(n) && n == k as u64)
            &&& has_sentinel(ls) && k < data.len() ==> (r matches Err(
                CanonError::BadLine { sample, line },
            ) && sample == (k + 1) as u64 && line@ == data[k])
        }),
{
    let ghost ls = lines.deep_view();
    let ghost out0 = out@;
    let n = lines.len();
    proof {
        assert(ls.len() == n) by {
            if n > 0 {
                lemma_deep_view_index(*lines, 0);
            }
        }
    }
    let si = find_sentinel_idx(lines);
    if si >= n {
        assert(!has_sentinel(ls));
        assert(out@ =~= out0 + jsonl_output(ls, false));
        return Err(CanonError::SentinelNotFound);
    }
    assert(has_sentinel(ls));
    let ghost data = transcript_data(ls);
    proof {
        assert(data.len() == n - si - 1);
    }
    let mut c: usize = 0;
    while si + 1 + c < n
        invariant
            si < n,
            c <= data.len(),
            n == lines@.len(),
            ls == lines.deep_view(),
            ls.len() == n,
            sentinel_from(ls, 0) == si,
            has_sentinel(ls),
            data == transcript_data(ls),
            data.len() == n - si - 1,
            forall|x: int| 0 <= x < c ==> rec_parse(data[x], false) is Some,
            first_bad_from(data, false, 0) == first_bad_from(data, false, c as int),
            out0 == old(out)@,
            out@ == out0 + json_stream(assignments_prefix(data, false, c as int)),
        decreases n - si - 1 - c,
    {
        let idx = si + 1 + c;
        let line = &lines[idx];
        proof {
            lemma_deep_view_index(*lines, idx as int);
            assert(data[c as int] == ls[idx as int]);
        }
        match parse_plan_line_exec(line) {
            None => {
                proof {
                    assert(first_bad_from(data, false, c as int) == c);
                    assert(assignments_prefix(data, false, c as int) == stream_assignments(
                        data,
                        false,
                    ));
                    assert(jsonl_output(ls, false) == json_stream(stream_assignments(data, false)));
                }
                let fld = copy_range(line, 0, line.len());
                assert(fld@ =~= data[c as int]);
                return Err(CanonError::BadLine { sample: (c + 1) as u64, line: fld });
            },
            Some(v) => {
                push_record(out, &v, (c + 1) as u64);
                proof {
                    let ap1 = assignments_prefix(data, false, c + 1);
                    assert(ap1.drop_last() =~= assignments_prefix(data, false, c as int));
                    assert(ap1.last() == v@);
                    assert(json_stream(ap1) == json_stream(ap1.drop_last()) + spec_record(
                        ap1.last(),
                        ap1.len() as nat,
                    ));
                }
                c = c + 1;
            },
        }
    }
    proof {
        assert(c == data.len());
        assert(first_bad_from(data, false, c as int) == c);
        assert(assignments_prefix(data, false, c as int) == stream_assignments(data, false));
    }
    Ok(c as u64)
}

/// Canonicalizes a tabular export into the structured-text encoding.
///
/// Every line is a data row; each field must parse as an unsigned 16-bit
/// integer and the first field of each row (its label) is dropped. The
/// records already encoded stay in `out` when a later row fails. On success
/// the result is the number of samples written.
pub fn canonicalize_jsonl_from_csv(lines: &Vec<Vec<u8>>, out: &mut Vec<u8>) -> (r: Result<
    u64,
    CanonError,
>)
    ensures
        final(out)@ == old(out)@ + jsonl_output(lines.deep_view(), true),
        ({
            let data = lines.deep_view();
            let k = first_bad_from(data, true, 0);
            &&& k == data.len() ==> (r matches Ok(n) && n == k as u64)
            &&& k < data.len() ==> (r matches Err(CanonError::BadField { sample, field })
                && sample == (k + 1) as u64 && field@ == row_bad_field(data[k]))
        }),
{
    let ghost data = lines.deep_view();
    let ghost out0 = out@;
    let n = lines.len();
    proof {
        assert(data.len() == n) by {
            if n > 0 {
                lemma_deep_view_index(*lines, 0);
            }
        }
    }
    let mut c: usize = 0;
    while c < n
        invariant
            c <= n,
            n == lines@.len(),
            data == lines.deep_view(),
            data.len() == n,
            forall|x: int| 0 <= x < c ==> rec_parse(data[x], true) is Some,
            first_bad_from(data, true, 0) == first_bad_from(data, true, c as int),
            out0 == old(out)@,
            out@ == out0 + json_stream(assignments_prefix(data, true, c as int)),
        decreases n - c,
    {
        let line = &lines[c];
        proof {
            lemma_deep_view_index(*lines, c as int);
            assert(data[c as int] == line@);
        }
        match parse_row_exec(line) {
            Err(f) => {
                proof {
                    assert(first_bad_from(data, true, c as int) == c);
                    assert(assignments_prefix(data, true, c as int) == stream_assignments(
                        data,
                        true,
                    ));
                    assert(jsonl_output(data, true) == json_stream(stream_assignments(data, true)));
                    assert(f@ == row_bad_field(data[c as int]));
                }
                return Err(CanonError::BadField { sample: (c + 1) as u64, field: f });
            },
            Ok(v) => {
                push_record(out, &v, (c + 1) as u64);
                proof {
                    let ap1 = assignments_prefix(data, true, c + 1);
                    assert(ap1.drop_last() =~= assignments_prefix(data, true, c as int));
                    assert(ap1.last() == v@);
                    assert(json_stream(ap1) == json_stream(ap1.drop_last()) + spec_record(
                        ap1.last(),
                        ap1.len() as nat,
                    ));
                }
                c = c + 1;
            },
        }
    }
    proof {
        assert(first_bad_from(data, true, c as int) == c);
        assert(assignments_prefix(data, true, c as int) == stream_assignments(data, true));
    }
    Ok(c as u64)
}

/// Canonicalizes a console transcript into the compact binary encoding.
///
/// The same source handling and numbering as the structured-text transcript
/// run: the sink receives exactly the parsed assignments, in input order,
/// the one at position `i` carrying sample number `i + 1`. The length bound
/// on the lines keeps every assignment under the binary codec's frame limit.
pub fn canonicalize_ben_from_print(lines: &Vec<Vec<u8>>, sink: &mut BenSink) -> (r: Result<
    u64,
    CanonError,
>)
    requires
        old(sink).wf(),
        forall|x: int|
            0 <= x < lines.deep_view().len() ==> #[trigger] lines.deep_view()[x].len()
                < 0x1000_0000,
    ensures
        final(sink).wf(),
        ({
            let ls = lines.deep_view();
            let data = transcript_data(ls);
            let k = first_bad_from(data, false, 0);
            &&& !has_sentinel(ls) ==> (r matches Err(e) && e == CanonError::SentinelNotFound
                && final(sink)@ == old(sink)@)
            &&& has_sentinel(ls) ==> final(sink)@ == old(sink)@ + stream_assignments(data, false)
            &&& has_sentinel(ls) && k == data.len() ==> (r matches Ok(n) && n == k as u64)
            &&& has_sentinel(ls) && k < data.len() ==> (r matches Err(
                CanonError::BadLine { sample, line },
            ) && sample == (k + 1) as u64 && line@ == data[k])
        }),
{
    let ghost ls = lines.deep_view();
    let ghost sink0 = sink@;
    let n = lines.len();
    proof {
        assert(ls.len() == n) by {
            if n > 0 {
                lemma_deep_view_index(*lines, 0);
            }
        }
    }
    let si = find_sentinel_idx(lines);
    if si >= n {
        assert(!has_sentinel(ls));
        return Err(CanonError::SentinelNotFound);
    }
    assert(has_sentinel(ls));
    let ghost data = transcript_data(ls);
    proof {
        assert(data.len() == n - si - 1);
    }
    let mut c: usize = 0;
    while si + 1 + c < n
        invariant
            si < n,
            c <= data.len(),
            n == lines@.len(),
            ls == lines.deep_view(),
            ls.len() == n,
            sentinel_from(ls, 0) == si,
            has_sentinel(ls),
            data == transcript_data(ls),
            data.len() == n - si - 1,
            forall|x: int| 0 <= x < ls.len() ==> #[trigger] ls[x].len() < 0x1000_0000,
            forall|x: int| 0 <= x < c ==> rec_parse(data[x], false) is Some,
            first_bad_from(data, false, 0) == first_bad_from(data, false, c as int),
            sink0 == old(sink)@,
            sink.wf(),
            sink@ == sink0 + assignments_prefix(data, false, c as int),
        decreases n - si - 1 - c,
    {
        let idx = si + 1 + c;
        let line = &lines[idx];
        proof {
            lemma_deep_view_index(*lines, idx as int);
            assert(data[c as int] == ls[idx as int]);
        }
        match parse_plan_line_exec(line) {
            None => {
                proof {
                    assert(first_bad_from(data, false, c as int) == c);
                    assert(assignments_prefix(data, false, c as int) == stream_assignments(
                        data,
                        false,
                    ));
                }
                let fld = copy_range(line, 0, line.len());
                assert(fld@ =~= data[c as int]);
                return Err(CanonError::BadLine { sample: (c + 1) as u64, line: fld });
            },
            Some(v) => {
                let ghost va = v@;
                proof {
                    lemma_plan_line_len(line@);
                    assert(ls[idx as int].len() < 0x1000_0000);
                    assert(va.len() < 0x1000_0000);
                }
                sink.write(v);
                proof {
                    let ap1 = assignments_prefix(data, false, c + 1);
                    assert(ap1.drop_last() =~= assignments_prefix(data, false, c as int));
                    assert(ap1.last() == va);
                    assert(sink@ =~= sink0 + ap1);
                }
                c = c + 1;
            },
        }
    }
    proof {
        assert(first_bad_from(data, false, c as int) == c);
        assert(assignments_prefix(data, false, c as int) == stream_assignments(data, false));
    }
    Ok(c as u64)
}

/// Canonicalizes a tabular export into the compact binary encoding.
///
/// The same row handling and numbering as the structured-text tabular run:
/// the sink receives exactly the parsed assignments, in input order, the one
/// at position `i` carrying sample number `i + 1`.
pub fn canonicalize_ben_from_csv(lines: &Vec<Vec<u8>>, sink: &mut BenSink) -> (r: Result<
    u64,
    CanonError,
>)
    requires
        old(sink).wf(),
        forall|x: int|
            0 <= x < lines.deep_view().len() ==> #[trigger] lines.deep_view()[x].len()
                < 0x1000_0000,
    ensures
        final(sink).wf(),
        ({
            let data = lines.deep_view();
            let k = first_bad_from(data, true, 0);
            &&& final(sink)@ == old(sink)@ + stream_assignments(data, true)
            &&& k == data.len() ==> (r matches Ok(n) && n == k as u64)
            &&& k < data.len() ==> (r matches Err(CanonError::BadField { sample, field })
                && sample == (k + 1) as u64 && field@ == row_bad_field(data[k]))
        }),
{
    let ghost data = lines.deep_view();
    let ghost sink0 = sink@;
    let n = lines.len();
    proof {
        assert(data.len() == n) by {
            if n > 0 {
                lemma_deep_view_index(*lines, 0);
            }
        }
    }
    let mut c: usize = 0;
    while c < n
        invariant
            c <= n,
            n == lines@.len(),
            data == lines.deep_view(),
            data.len() == n,
            forall|x: int| 0 <= x < data.len() ==> #[trigger] data[x].len() < 0x1000_0000,
            forall|x: int| 0 <= x < c ==> rec_parse(data[x], true) is Some,
            first_bad_from(data, true, 0) == first_bad_from(data, true, c as int),
            sink0 == old(sink)@,
            sink.wf(),
            sink@ == sink0 + assignments_prefix(data, true, c as int),
        decreases n - c,
    {
        let line = &lines[c];
        proof {
            lemma_deep_view_index(*lines, c as int);
            assert(data[c as int] == line@);
        }
        match parse_row_exec(line) {
            Err(f) => {
                proof {
                    assert(first_bad_from(data, true, c as int) == c);
                    assert(assignments_prefix(data, true, c as int) == stream_assignments(
                        data,
                        true,
                    ));
                    assert(f@ == row_bad_field(data[c as int]));
                }
                return Err(CanonError::BadField { sample: (c + 1) as u64, field: f });
            },
            Ok(v) => {
                let ghost va = v@;
                proof {
                    lemma_row_len(line@);
                    assert(data[c as int].len() < 0x1000_0000);
                    assert(va.len() < 0x1000_0000);
                }
                sink.write(v);
                proof {
                    let ap1 = assignments_prefix(data, true, c + 1);
                    assert(ap1.drop_last() =~= assignments_prefix(data, true, c as int));
                    assert(ap1.last() == va);
                    assert(sink@ =~= sink0 + ap1);
                }
                c = c + 1;
            },
        }
    }
    proof {
        assert(first_bad_from(data, true, c as int) == c);
        assert(assignments_prefix(data, true, c as int) == stream_assignments(data, true));
    }
    Ok(c as u64)
}

/// Law: the choice of encoder never affects how samples are numbered. Both
/// run families hand their encoder the same sequence,
/// `stream_assignments(..)`: the binary sink receives the assignment at
/// position `i` as its `i + 1`-th sample, and in the structured-text stream
/// the record for position `i` likewise carries sample number `i + 1`, as
/// this decomposition of the stream shows.
pub proof fn lemma_encoders_number_alike(a: Seq<Seq<u16>>, i: int)
    requires
        0 <= i < a.len(),
    ensures
        json_stream(a.take(i + 1)) == json_stream(a.take(i)) + spec_record(a[i], (i + 1) as nat),
{
    assert(a.take(i + 1).drop_last() =~= a.take(i));
}

/// Law: re-running a pipeline on the same input lines and mode with a fresh
/// output always yields byte-identical structured-text output — the emitted
/// bytes are a function of the input and the mode alone.
pub proof fn lemma_rerun_byte_identical(
    lines: Seq<Seq<u8>>,
    tabular: bool,
    out1: Seq<u8>,
    out2: Seq<u8>,
)
    requires
        out1 == jsonl_output(lines, tabular),
        out2 == jsonl_output(lines, tabular),
    ensures
        out1 == out2,
{
}

} // verus!
