//! The assignment parser: one input record in, one assignment out.
//!
//! Two record grammars are understood, matching the two shapes the
//! enumeration process emits:
//! - a transcript line: a bracketed, comma-separated list of unsigned 16-bit
//!   integers (`[0, 0, 1]`), with optional ASCII whitespace around tokens,
//!   no signs, and no leading zeros;
//! - a tabular row: comma-separated fields, each an unsigned 16-bit integer
//!   (an optional leading `+` and leading zeros allowed); the first field is
//!   the row label and is dropped from the assignment, but must itself parse.

use vstd::prelude::*;

use crate::text::digits_end;
use crate::text::digits_val;
use crate::text::is_digit;
use crate::text::lemma_digits_end_bounds;
use crate::text::lemma_digits_end_digits;
use crate::text::lemma_digits_val_mono;
use crate::text::lemma_skip_ws_bounds;
use crate::text::byte_is_digit;
use crate::text::skip_ws;
use crate::text::skip_ws_exec;

verus! {

/// A number token starts at `i`: a digit, and if that digit is `0` the token
/// is exactly the single digit `0` (no leading zeros).
pub open spec fn valid_num_at(s: Seq<u8>, i: int) -> bool {
    0 <= i < s.len() && is_digit(s[i]) && (s[i] == 48 ==> digits_end(s, i) == i + 1)
}

/// Parses the remainder of a bracketed list from position `i`, which must be
/// the start of a number token; `acc` holds the values already read.
/// Accepts `num (ws* ',' ws* num)* ws* ']' ws*` up to the end of the line.
pub open spec fn parse_items(s: Seq<u8>, i: int, acc: Seq<u16>) -> Option<Seq<u16>>
    decreases s.len() - i when 0 <= i <= s.len()
{
    if !valid_num_at(s, i) {
        None
    } else {
        let j = digits_end(s, i);
        if digits_val(s, i, j) > 65535 {
            None
        } else {
            let k = skip_ws(s, j);
            if k < s.len() && s[k] == 93 {
                if skip_ws(s, k + 1) == s.len() {
                    Some(acc.push(digits_val(s, i, j) as u16))
                } else {
                    None
                }
            } else if k < s.len() && s[k] == 44 {
                {
                    proof {
                        lemma_digits_end_bounds(s, i + 1);
                        lemma_skip_ws_bounds(s, j);
                        lemma_skip_ws_bounds(s, k + 1);
                    }
                    parse_items(s, skip_ws(s, k + 1), acc.push(digits_val(s, i, j) as u16))
                }
            } else {
                None
            }
        }
    }
}

/// Parses a full transcript line: `ws* '[' ws* ( items )? ']' ws*`, where the
/// items are comma-separated unsigned 16-bit integers. `None` on any other
/// content.
pub open spec fn parse_plan_line(s: Seq<u8>) -> Option<Seq<u16>> {
    let i0 = skip_ws(s, 0);
    if !(i0 < s.len() && s[i0] == 91) {
        None
    } else {
        let i1 = skip_ws(s, i0 + 1);
        if i1 < s.len() && s[i1] == 93 {
            if skip_ws(s, i1 + 1) == s.len() {
                Some(Seq::empty())
            } else {
                None
            }
        } else {
            parse_items(s, i1, Seq::empty())
        }
    }
}

/// Reads the number token starting at `i` (which must hold a digit):
/// `Some((value, end))` with `end` the first non-digit index, or `None` when
/// the token's value exceeds the unsigned 16-bit range.
fn scan_number(s: &Vec<u8>, i: usize) -> (r: Option<(u16, usize)>)
    requires
        i < s.len(),
        is_digit(s@[i as int]),
    ensures
        match r {
            Some(p) => p.1 == digits_end(s@, i as int) && p.0 as nat == digits_val(
                s@,
                i as int,
                p.1 as int,
            ) && i < p.1 <= s.len(),
            None => digits_val(s@, i as int, digits_end(s@, i as int)) > 65535,
        },
{
    let mut k: usize = i + 1;
    let mut val: u32 = (s[i] - 48) as u32;
    proof {
        assert(digits_val(s@, i as int, i as int) == 0);
        assert(digits_val(s@, i as int, i + 1) == (s@[i as int] - 48) as nat);
    }
    while k < s.len() && byte_is_digit(s[k])
        invariant
            i < k <= s.len(),
            i < s.len(),
            is_digit(s@[i as int]),
            val as nat == digits_val(s@, i as int, k as int),
            val <= 65535,
            digits_end(s@, i as int) == digits_end(s@, k as int),
        decreases s.len() - k,
    {
        let d = s[k];
        let nv: u32 = val * 10 + (d - 48) as u32;
        proof {
            assert(digits_val(s@, i as int, k + 1) == digits_val(s@, i as int, k as int) * 10 + (
            (s@[k as int] - 48) as nat));
        }
        if nv > 65535 {
            proof {
                lemma_digits_end_bounds(s@, k + 1);
                lemma_digits_end_digits(s@, k + 1);
                lemma_digits_val_mono(s@, i as int, k + 1, digits_end(s@, k + 1));
            }
            return None;
        }
        val = nv;
        k = k + 1;
    }
    Some((val as u16, k))
}

/// Parses one transcript line; agrees exactly with [`parse_plan_line`].
pub fn parse_plan_line_exec(s: &Vec<u8>) -> (r: Option<Vec<u16>>)
    ensures
        match r {
            Some(v) => parse_plan_line(s@) == Some(v@),
            None => parse_plan_line(s@) is None,
        },
{
    let n = s.len();
    let i0 = skip_ws_exec(s, 0);
    if i0 >= n || s[i0] != 91 {
        return None;
    }
    let mut i = skip_ws_exec(s, i0 + 1);
    if i < n && s[i] == 93 {
        if skip_ws_exec(s, i + 1) == n {
            let empty: Vec<u16> = Vec::new();
            assert(empty@ =~= Seq::<u16>::empty());
            return Some(empty);
        } else {
            return None;
        }
    }
    let mut acc: Vec<u16> = Vec::new();
    assert(acc@ =~= Seq::<u16>::empty());
    loop
        invariant
            i <= n,
            n == s.len(),
            parse_items(s@, i as int, acc@) == parse_plan_line(s@),
        decreases n - i,
    {
        if i >= n {
            return None;
        }
        let b = s[i];
        if !byte_is_digit(b) {
            return None;
        }
        match scan_number(s, i) {
            None => {
                return None;
            },
            Some(p) => {
                let (v, j) = p;
                if b == 48 && j != i + 1 {
                    return None;
                }
                let m = skip_ws_exec(s, j);
                if m < n && s[m] == 93 {
                    if skip_ws_exec(s, m + 1) == n {
                        let ghost acc0 = acc@;
                        acc.push(v);
                        assert(acc@ =~= acc0.push(v));
                        return Some(acc);
                    } else {
                        return None;
                    }
                } else if m < n && s[m] == 44 {
                    let ghost acc0 = acc@;
                    acc.push(v);
                    assert(acc@ =~= acc0.push(v));
                    i = skip_ws_exec(s, m + 1);
                } else {
                    return None;
                }
            },
        }
    }
}

/// First index at or after `i` holding a comma, or `s.len()`.
pub open spec fn comma_end(s: Seq<u8>, i: int) -> int
    decreases s.len() - i when 0 <= i <= s.len()
{
    if i < s.len() {
        if s[i] == 44 {
            i
        } else {
            comma_end(s, i + 1)
        }
    } else {
        i
    }
}

pub proof fn lemma_comma_end_bounds(s: Seq<u8>, i: int)
    requires
        0 <= i <= s.len(),
    ensures
        i <= comma_end(s, i) <= s.len(),
    decreases s.len() - i,
{
    if i < s.len() && s[i] != 44 {
        lemma_comma_end_bounds(s, i + 1);
    }
}

/// The fields of `s` from position `i` on, split at commas. A row always has
/// at least one field; an empty row has one empty field.
pub open spec fn split_from(s: Seq<u8>, i: int) -> Seq<Seq<u8>>
    decreases s.len() - i when 0 <= i <= s.len()
{
    let j = comma_end(s, i);
    if j >= s.len() {
        seq![s.subrange(i, s.len() as int)]
    } else {
        {
            proof {
                lemma_comma_end_bounds(s, i);
            }
            seq![s.subrange(i, j)] + split_from(s, j + 1)
        }
    }
}

/// The comma-separated fields of one tabular row.
pub open spec fn split_fields(s: Seq<u8>) -> Seq<Seq<u8>> {
    split_from(s, 0)
}

/// The digit part of a field: everything after one optional leading `+`.
pub open spec fn field_digits(f: Seq<u8>) -> Seq<u8> {
    if f.len() > 0 && f[0] == 43 {
        f.subrange(1, f.len() as int)
    } else {
        f
    }
}

/// Parses one tabular field as an unsigned 16-bit integer: an optional
/// leading `+`, then one or more digits (leading zeros allowed), value at
/// most 65535.
pub open spec fn parse_field(f: Seq<u8>) -> Option<u16> {
    let d = field_digits(f);
    if d.len() > 0 && digits_end(d, 0) == d.len() && digits_val(d, 0, d.len() as int) <= 65535 {
        Some(digits_val(d, 0, d.len() as int) as u16)
    } else {
        None
    }
}

/// Index of the first field at or after `i` that fails to parse, or
/// `fs.len()` when every one parses.
pub open spec fn row_bad_from(fs: Seq<Seq<u8>>, i: int) -> int
    decreases fs.len() - i when 0 <= i <= fs.len()
{
    if i >= fs.len() {
        i
    } else if parse_field(fs[i]) is None {
        i
    } else {
        row_bad_from(fs, i + 1)
    }
}

/// Parses one tabular row: every field must parse as an unsigned 16-bit
/// integer, and the assignment is the sequence of all field values but the
/// first (the row label).
pub open spec fn parse_row(s: Seq<u8>) -> Option<Seq<u16>> {
    let fs = split_fields(s);
    if row_bad_from(fs, 0) == fs.len() {
        Some(Seq::new((fs.len() - 1) as nat, |x: int| parse_field(fs[x + 1]).unwrap()))
    } else {
        None
    }
}

/// The first non-digit index after a run of digits is exactly where the run
/// stops.
proof fn lemma_digits_end_stop(s: Seq<u8>, i: int, m: int)
    requires
        0 <= i <= m <= s.len(),
        forall|x: int| i <= x < m ==> is_digit(s[x]),
        m == s.len() || !is_digit(s[m]),
    ensures
        digits_end(s, i) == m,
    decreases m - i,
{
    if i < m {
        lemma_digits_end_stop(s, i + 1, m);
    }
}

/// First index at or after `i` in `s` holding a comma, or the length.
fn find_comma(s: &Vec<u8>, i: usize) -> (r: usize)
    requires
        i <= s.len(),
    ensures
        r == comma_end(s@, i as int),
        i <= r <= s.len(),
{
    let mut k = i;
    while k < s.len() && s[k] != 44
        invariant
            i <= k <= s.len(),
            comma_end(s@, i as int) == comma_end(s@, k as int),
        decreases s.len() - k,
    {
        k = k + 1;
    }
    k
}

/// Copies the bytes `s[i..j)` into a fresh vector.
pub(crate) fn copy_range(s: &Vec<u8>, i: usize, j: usize) -> (r: Vec<u8>)
    requires
        i <= j <= s.len(),
    ensures
        r@ == s@.subrange(i as int, j as int),
{
    let mut out: Vec<u8> = Vec::new();
    let mut k = i;
    while k < j
        invariant
            i <= k <= j <= s.len(),
            out@.len() == k - i,
            forall|x: int| 0 <= x < out@.len() ==> out@[x] == s@[i + x],
        decreases j - k,
    {
        out.push(s[k]);
        k = k + 1;
    }
    assert(out@ =~= s@.subrange(i as int, j as int));
    out
}

/// Parses the field `s[i..j)`; agrees exactly with [`parse_field`] on it.
fn parse_field_range(s: &Vec<u8>, i: usize, j: usize) -> (r: Option<u16>)
    requires
        i <= j <= s.len(),
    ensures
        r == parse_field(s@.subrange(i as int, j as int)),
{
    let ghost f = s@.subrange(i as int, j as int);
    let start: usize = if i < j && s[i] == 43 {
        i + 1
    } else {
        i
    };
    let ghost d = field_digits(f);
    proof {
        assert(d =~= s@.subrange(start as int, j as int));
    }
    if start == j {
        return None;
    }
    let mut k = start;
    let mut val: u32 = 0;
    proof {
        assert(digits_val(d, 0, 0) == 0);
    }
    while k < j
        invariant
            start < j <= s.len(),
            start <= k <= j,
            d == s@.subrange(start as int, j as int),
            f == s@.subrange(i as int, j as int),
            d == field_digits(f),
            val as nat == digits_val(d, 0, k - start),
            val <= 65535,
            forall|x: int| 0 <= x < k - start ==> is_digit(d[x]),
        decreases j - k,
    {
        let b = s[k];
        if !byte_is_digit(b) {
            proof {
                lemma_digits_end_stop(d, 0, k - start);
            }
            return None;
        }
        let nv: u32 = val * 10 + (b - 48) as u32;
        proof {
            assert(digits_val(d, 0, k - start + 1) == digits_val(d, 0, k - start) * 10 + ((d[k
                - start] - 48) as nat));
        }
        if nv > 65535 {
            proof {
                if digits_end(d, 0) == d.len() {
                    lemma_digits_end_digits(d, 0);
                    lemma_digits_val_mono(d, 0, k - start + 1, d.len() as int);
                }
            }
            return None;
        }
        val = nv;
        k = k + 1;
    }
    proof {
        lemma_digits_end_stop(d, 0, d.len() as int);
    }
    Some(val as u16)
}

/// Parses one tabular row; agrees exactly with [`parse_row`]. On failure the
/// error carries the first field that does not parse.
pub fn parse_row_exec(s: &Vec<u8>) -> (r: Result<Vec<u16>, Vec<u8>>)
    ensures
        match r {
            Ok(v) => parse_row(s@) == Some(v@),
            Err(f) => {
                let fs = split_fields(s@);
                parse_row(s@) is None && row_bad_from(fs, 0) < fs.len() && f@ == fs[row_bad_from(
                    fs,
                    0,
                )]
            },
        },
{
    let ghost fs = split_fields(s@);
    let mut pos: usize = 0;
    let mut fidx: usize = 0;
    let mut vals: Vec<u16> = Vec::new();
    proof {
        assert(fs.skip(0) =~= fs);
    }
    loop
        invariant_except_break
            split_from(s@, pos as int) == fs.skip(fidx as int),
        invariant
            pos <= s.len(),
            fidx <= fs.len(),
            fs == split_fields(s@),
            vals@.len() == fidx,
            forall|x: int| 0 <= x < fidx ==> parse_field(fs[x]) == Some(vals@[x]),
            row_bad_from(fs, 0) == row_bad_from(fs, fidx as int),
        ensures
            fs == split_fields(s@),
            vals@.len() == fs.len(),
            1 <= fs.len(),
            forall|x: int| 0 <= x < fs.len() ==> parse_field(fs[x]) == Some(vals@[x]),
            row_bad_from(fs, 0) == fs.len(),
        decreases s.len() - pos,
    {
        let j = find_comma(s, pos);
        let ghost fld = s@.subrange(pos as int, j as int);
        proof {
            assert(split_from(s@, pos as int).len() >= 1);
            assert(fidx < fs.len()) by {
                assert(fs.skip(fidx as int).len() == fs.len() - fidx);
            }
            if j == s.len() {
                assert(split_from(s@, pos as int) =~= seq![fld]);
            } else {
                assert(split_from(s@, pos as int)[0] == fld);
            }
            assert(fs.skip(fidx as int)[0] == fs[fidx as int]);
            assert(fs[fidx as int] == fld);
        }
        match parse_field_range(s, pos, j) {
            None => {
                proof {
                    assert(row_bad_from(fs, fidx as int) == fidx);
                }
                let out = copy_range(s, pos, j);
                return Err(out);
            },
            Some(v) => {
                vals.push(v);
                fidx = vals.len();
                proof {
                    assert(vals@[(fidx - 1) as int] == v);
                    assert(parse_field(fs[(fidx - 1) as int]) == Some(v));
                    assert(row_bad_from(fs, (fidx - 1) as int) == row_bad_from(fs, fidx as int));
                }
                if j == s.len() {
                    proof {
                        assert(fs.skip((fidx - 1) as int).len() == 1);
                        assert(fidx == fs.len());
                        assert(row_bad_from(fs, fs.len() as int) == fs.len());
                    }
                    break;
                }
                proof {
                    assert(fs.skip((fidx - 1) as int).drop_first() =~= fs.skip(fidx as int));
                    assert(split_from(s@, (j + 1) as int) == fs.skip(fidx as int));
                }
                pos = j + 1;
            },
        }
    }
    assert(parse_row(s@) is Some);
    let mut out: Vec<u16> = Vec::new();
    let mut x: usize = 1;
    while x < vals.len()
        invariant
            1 <= x <= vals.len(),
            vals@.len() == fs.len(),
            out@.len() == x - 1,
            forall|t: int| 0 <= t < out@.len() ==> out@[t] == vals@[t + 1],
            fs == split_fields(s@),
            forall|y: int| 0 <= y < vals@.len() ==> parse_field(fs[y]) == Some(vals@[y]),
        decreases vals.len() - x,
    {
        out.push(vals[x]);
        x = x + 1;
    }
    assert(out@ =~= Seq::new((fs.len() - 1) as nat, |t: int| parse_field(fs[t + 1]).unwrap()));
    Ok(out)
}

/// An assignment parsed from a bracketed list holds fewer values than the
/// line has bytes left from `i` on.
pub proof fn lemma_parse_items_len(s: Seq<u8>, i: int, acc: Seq<u16>)
    requires
        0 <= i <= s.len(),
        parse_items(s, i, acc) is Some,
    ensures
        parse_items(s, i, acc).unwrap().len() <= acc.len() + (s.len() - i),
    decreases s.len() - i,
{
    let j = digits_end(s, i);
    let k = skip_ws(s, j);
    lemma_digits_end_bounds(s, i + 1);
    lemma_skip_ws_bounds(s, j);
    if k < s.len() && s[k] == 93 {
    } else {
        lemma_skip_ws_bounds(s, k + 1);
        lemma_parse_items_len(s, skip_ws(s, k + 1), acc.push(digits_val(s, i, j) as u16));
    }
}

/// A parsed transcript line yields at most one value per byte.
pub proof fn lemma_plan_line_len(s: Seq<u8>)
    ensures
        parse_plan_line(s) matches Some(a) ==> a.len() <= s.len(),
{
    if parse_plan_line(s) is Some {
        let i0 = skip_ws(s, 0);
        lemma_skip_ws_bounds(s, 0);
        let i1 = skip_ws(s, i0 + 1);
        lemma_skip_ws_bounds(s, i0 + 1);
        if !(i1 < s.len() && s[i1] == 93) {
            lemma_parse_items_len(s, i1, Seq::empty());
        }
    }
}

/// A row has at most one more field than it has bytes.
pub proof fn lemma_split_from_len(s: Seq<u8>, i: int)
    requires
        0 <= i <= s.len(),
    ensures
        1 <= split_from(s, i).len() <= s.len() - i + 1,
    decreases s.len() - i,
{
    let j = comma_end(s, i);
    lemma_comma_end_bounds(s, i);
    if j < s.len() {
        lemma_split_from_len(s, j + 1);
    }
}

/// A parsed tabular row yields at most one value per byte.
pub proof fn lemma_row_len(s: Seq<u8>)
    ensures
        parse_row(s) matches Some(a) ==> a.len() <= s.len(),
{
    lemma_split_from_len(s, 0);
}

/// Law: a tabular row of W fields that parses yields an assignment of
/// exactly W - 1 values — the first field, the row label, is dropped and
/// every other field contributes one value, in order.
pub proof fn lemma_row_width(s: Seq<u8>)
    ensures
        parse_row(s) matches Some(a) ==> a.len() == split_fields(s).len() - 1,
{
}

} // verus!
