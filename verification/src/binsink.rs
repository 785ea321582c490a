//! The binary record sink: the external compact binary codec, reached
//! through a single write operation.
//!
//! The codec is `binary_ensemble`'s `BenStreamWriter`, bound to an in-memory
//! byte sink and used with its `Standard` variant, which stores each sample
//! independently. Its byte layout is opaque here: the contracts speak only of
//! the sequence of assignments handed to the codec, and of the final byte
//! stream as an uninterpreted function of that sequence.

use vstd::prelude::*;

use binary_ensemble::io::writer::BenStreamWriter;
use binary_ensemble::BenVariant;

verus! {

/// A binary record sink: accepts one assignment at a time, in sample order,
/// and serializes them into a compact binary stream held in memory.
#[verifier::external_body]
pub struct BenSink {
    w: BenStreamWriter<Vec<u8>>,
}

/// The assignments handed to the codec through this sink so far, in write
/// order.
pub uninterp spec fn ben_written(s: BenSink) -> Seq<Seq<u16>>;

/// Whether the sink still accepts samples: its writer is in the open state,
/// bound to a plain byte vector with the `Standard` variant, and every
/// buffered assignment respects the length bound of [`BenSink::write`].
pub uninterp spec fn ben_accepting(s: BenSink) -> bool;

/// The finished binary stream (banner plus one frame per sample) for a
/// sample sequence. The `Standard`-variant encoding writes each sample
/// independently with an explicit big-endian layout, so the bytes are a
/// function of the sample sequence alone.
pub uninterp spec fn ben_stream_bytes(samples: Seq<Seq<u16>>) -> Seq<u8>;

impl View for BenSink {
    type V = Seq<Seq<u16>>;

    /// The assignments written so far, in order.
    open spec fn view(&self) -> Seq<Seq<u16>> {
        ben_written(*self)
    }
}

impl BenSink {
    /// The sink is still accepting samples. Established by [`BenSink::new`]
    /// and preserved by every write.
    pub open spec fn wf(&self) -> bool {
        ben_accepting(*self)
    }

    /// A fresh sink with nothing written.
    ///
    /// Relies on `BenStreamWriter::for_ben` with a `Vec<u8>` sink and the
    /// `Standard` variant: it writes the banner into the byte vector, which
    /// cannot fail, and returns an open writer with no samples written.
    #[verifier::external_body]
    pub fn new() -> (s: BenSink)
        ensures
            ben_written(s) == Seq::<Seq<u16>>::empty(),
            ben_accepting(s),
    {
        BenSink { w: BenStreamWriter::for_ben(Vec::new(), BenVariant::Standard).unwrap() }
    }

    /// Writes one assignment; the stream grows by exactly that sample.
    ///
    /// Relies on `BenStreamWriter::write_assignment`: on an open `Standard`
    /// writer it only buffers or writes frames into the byte vector, which
    /// cannot fail for assignments under the length bound (their packed
    /// frame payload fits the frame header's 32-bit byte count, and writes
    /// to a `Vec<u8>` are infallible).
    #[verifier::external_body]
    pub fn write(&mut self, a: Vec<u16>)
        requires
            ben_accepting(*old(self)),
            a@.len() < 0x1000_0000,
        ensures
            ben_accepting(*final(self)),
            ben_written(*final(self)) == ben_written(*old(self)).push(a@),
    {
        let _ = self.w.write_assignment(a);
    }

    /// Finishes the stream and hands back its bytes, a function of the
    /// written samples alone.
    ///
    /// Relies on `BenStreamWriter::finish_into_inner`: on an open `Standard`
    /// writer it flushes the buffered frames into the byte vector, which
    /// cannot fail, and hands the vector back.
    #[verifier::external_body]
    pub fn into_bytes(self) -> (b: Vec<u8>)
        requires
            ben_accepting(self),
        ensures
            b@ == ben_stream_bytes(ben_written(self)),
    {
        self.w.finish_into_inner().unwrap()
    }
}

} // verus!
