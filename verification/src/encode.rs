//! The structured-text encoder: one self-contained record per assignment,
//! with a stable field order — `{"assignment":[...],"sample":N}` — each
//! record terminated by a line feed.

use vstd::prelude::*;

use crate::text::push_dec;
use crate::text::spec_dec;

verus! {

/// The bytes of `{"assignment":[`.
pub open spec fn rec_prefix() -> Seq<u8> {
    seq![
        123u8,
        34u8,
        97u8,
        115u8,
        115u8,
        105u8,
        103u8,
        110u8,
        109u8,
        101u8,
        110u8,
        116u8,
        34u8,
        58u8,
        91u8,
    ]
}

/// The bytes of `],"sample":`.
pub open spec fn rec_mid() -> Seq<u8> {
    seq![93u8, 44u8, 34u8, 115u8, 97u8, 109u8, 112u8, 108u8, 101u8, 34u8, 58u8]
}

/// The comma-separated decimal values of an assignment.
pub open spec fn json_elems(a: Seq<u16>) -> Seq<u8>
    decreases a.len(),
{
    if a.len() == 0 {
        Seq::empty()
    } else if a.len() == 1 {
        spec_dec(a[0] as nat)
    } else {
        json_elems(a.drop_last()) + seq![44u8] + spec_dec(a.last() as nat)
    }
}

/// One canonical structured-text record for an assignment and its 1-based
/// sample number, line feed included.
pub open spec fn spec_record(a: Seq<u16>, sample: nat) -> Seq<u8> {
    rec_prefix() + json_elems(a) + rec_mid() + spec_dec(sample) + seq![125u8, 10u8]
}

/// The whole structured-text stream for the assignment sequence `a`: the
/// record at position `i` carries sample number `i + 1`.
pub open spec fn json_stream(a: Seq<Seq<u16>>) -> Seq<u8>
    decreases a.len(),
{
    if a.len() == 0 {
        Seq::empty()
    } else {
        json_stream(a.drop_last()) + spec_record(a.last(), a.len() as nat)
    }
}

/// Appends the canonical record for `a` with sample number `sample` to `out`.
pub fn push_record(out: &mut Vec<u8>, a: &Vec<u16>, sample: u64)
    ensures
        final(out)@ == old(out)@ + spec_record(a@, sample as nat),
{
    let ghost start = out@;
    out.push(123);
    out.push(34);
    out.push(97);
    out.push(115);
    out.push(115);
    out.push(105);
    out.push(103);
    out.push(110);
    out.push(109);
    out.push(101);
    out.push(110);
    out.push(116);
    out.push(34);
    out.push(58);
    out.push(91);
    assert(out@ =~= start + rec_prefix());
    let ghost base = out@;
    let mut x: usize = 0;
    while x < a.len()
        invariant
            x <= a.len(),
            base == start + rec_prefix(),
            out@ == base + json_elems(a@.take(x as int)),
        decreases a.len() - x,
    {
        if x > 0 {
            out.push(44);
        }
        push_dec(out, a[x] as u64);
        proof {
            let t = a@.take(x + 1);
            assert(t.drop_last() =~= a@.take(x as int));
            assert(t.last() == a@[x as int]);
            if x == 0 {
                assert(json_elems(t) == spec_dec(a@[0] as nat));
            }
            assert(out@ =~= base + json_elems(a@.take(x + 1)));
        }
        x = x + 1;
    }
    assert(a@.take(a.len() as int) =~= a@);
    out.push(93);
    out.push(44);
    out.push(34);
    out.push(115);
    out.push(97);
    out.push(109);
    out.push(112);
    out.push(108);
    out.push(101);
    out.push(34);
    out.push(58);
    assert(out@ =~= base + json_elems(a@) + rec_mid());
    push_dec(out, sample);
    out.push(125);
    out.push(10);
    assert(out@ =~= start + spec_record(a@, sample as nat));
}

} // verus!
