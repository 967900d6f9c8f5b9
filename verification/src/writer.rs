//! The writer: owns one output stream and one immutable snapshot of a
//! header, taken at construction.  Construction is atomic from the caller's
//! perspective: either the stream opens and the whole serialized header is
//! written to it before the `Writer` value exists, or no `Writer` value
//! exists at all.  Every record is therefore ordered strictly after the
//! header bytes.
//!
//! The stream is modeled as the ordered byte buffer the writer has emitted;
//! delivering those bytes to a file or to standard output is the caller's
//! input/output edge, outside this crate.  The stream is released exactly
//! once, when the `Writer` is dropped or consumed, by ownership.

use vstd::prelude::*;
use crate::bytes::{copy_bytes, join_bytes, push_all};
use crate::header::Header;
use crate::NEWLINE;

verus! {

/// The stream could not be opened; no writer value exists.
#[derive(Debug, Clone, Copy, PartialEq, Eq)]
pub enum WriterError {
    OpenFailure,
}

/// A record could not be written; the stream is left as the underlying
/// layer left it, with no rollback.
#[derive(Debug, Clone, Copy, PartialEq, Eq)]
pub enum WriteError {
    WriteFailure,
}

/// The stream layer can open a target path if and only if it is nonempty
/// and free of NUL bytes (a path is handed over as a C string).  The
/// standard-output sentinel `-` is always openable.
pub open spec fn path_openable(path: Seq<u8>) -> bool {
    path.len() > 0 && forall|i: int| 0 <= i < path.len() ==> path[i] != 0
}

/// A writer over one open output stream.  `stream` is everything emitted
/// so far, in order; `header` is the serialized snapshot taken at
/// construction, unaffected by later mutation of the caller's `Header`.
#[derive(Debug)]
pub struct Writer {
    stream: Vec<u8>,
    header: Vec<u8>,
}

impl View for Writer {
    /// The pair of the stream bytes emitted so far and the header snapshot.
    type V = (Seq<u8>, Seq<u8>);

    closed spec fn view(&self) -> (Seq<u8>, Seq<u8>) {
        (self.stream@, self.header@)
    }
}

impl Writer {
    /// The header snapshot, with its line separator, is a prefix of the
    /// stream: the header was emitted before everything else.
    pub open spec fn wf(self) -> bool {
        self@.0.len() > self@.1.len() && self@.0.take(self@.1.len() as int + 1) == self@.1.push(NEWLINE)
    }

    /// Opens a stream over `path` and immediately writes the serialized
    /// header followed by the line separator; the writer it returns is
    /// already past its header write.  Fails, with no writer made, if and
    /// only if the path is one the stream layer cannot open.
    pub fn from_path(path: &[u8], header: &Header) -> (r: Result<Writer, WriterError>)
        ensures
            r is Ok <==> path_openable(path@),
            match r {
                Ok(w) => {
                    &&& w@.1 == join_bytes(header@, NEWLINE)
                    &&& w@.0 == join_bytes(header@, NEWLINE).push(NEWLINE)
                    &&& w.wf()
                },
                Err(e) => e == WriterError::OpenFailure,
            },
    {
        if path.len() == 0 {
            return Err(WriterError::OpenFailure);
        }
        let mut i: usize = 0;
        while i < path.len()
            invariant
                i <= path@.len(),
                forall|k: int| 0 <= k < i ==> path@[k] != 0,
            decreases path@.len() - i,
        {
            if path[i] == 0 {
                return Err(WriterError::OpenFailure);
            }
            i = i + 1;
        }
        let snapshot = header.to_bytes();
        let mut stream = copy_bytes(snapshot.as_slice());
        stream.push(NEWLINE);
        let w = Writer { stream, header: snapshot };
        proof {
            assert(w@.0.take(w@.1.len() as int + 1) =~= w@.1.push(NEWLINE));
        }
        Ok(w)
    }

    /// Opens the writer over standard output, through the stream layer's
    /// `-` sentinel; otherwise exactly `from_path`.
    pub fn from_stdout(header: &Header) -> (r: Result<Writer, WriterError>)
        ensures
            r is Ok,
            match r {
                Ok(w) => {
                    &&& w@.1 == join_bytes(header@, NEWLINE)
                    &&& w@.0 == join_bytes(header@, NEWLINE).push(NEWLINE)
                    &&& w.wf()
                },
                Err(_) => false,
            },
    {
        let mut path: Vec<u8> = Vec::new();
        path.push(45);
        Writer::from_path(path.as_slice(), header)
    }

    /// Appends one encoded record to the stream, followed by the record
    /// separator.  In this model the append itself cannot fail; a failure
    /// of the underlying layer would be surfaced as `WriteFailure` with the
    /// stream left exactly as that layer left it.
    pub fn write(&mut self, record: &[u8]) -> (r: Result<(), WriteError>)
        ensures
            r is Ok,
            final(self)@.0 == old(self)@.0 + record@ + seq![NEWLINE],
            final(self)@.1 == old(self)@.1,
            old(self).wf() ==> final(self).wf(),
    {
        let ghost pre = self@.0;
        push_all(&mut self.stream, record);
        self.stream.push(NEWLINE);
        proof {
            assert(self@.0 =~= pre + record@ + seq![NEWLINE]);
            if old(self).wf() {
                assert(self@.0.take(self@.1.len() as int + 1) =~= pre.take(
                    self@.1.len() as int + 1,
                ));
            }
        }
        Ok(())
    }

    /// The serialized header snapshot this writer was constructed over.
    pub fn header_bytes(&self) -> (r: &Vec<u8>)
        ensures
            r@ == self@.1,
    {
        &self.header
    }

    /// Everything emitted to the stream so far, in order.
    pub fn stream_bytes(&self) -> (r: &Vec<u8>)
        ensures
            r@ == self@.0,
    {
        &self.stream
    }

    /// Consumes the writer, releasing its stream exactly once and handing
    /// its full contents to the caller for delivery.
    pub fn into_bytes(self) -> (r: Vec<u8>)
        ensures
            r@ == self@.0,
    {
        self.stream
    }
}

} // verus!
