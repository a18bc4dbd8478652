//! What a source and a sink are.

use crate::chopper::types::{Header, HeaderView, Row};
use crate::error::{CliResult, Error};
use vstd::prelude::*;

verus! {

/// The number of one output of a node of the graph.
pub type PinId = usize;

/// A stream of rows with a fixed header.
///
/// The contracts of the methods speak of two records of the source, `remaining`
/// and `schema`. A source that is verified says what they are. Each has a body
/// here only so that a source outside verified code need not name it: that body
/// is one value whatever the state, so a verified source that hands out rows
/// has to put its own in its place.
pub trait Source {
    /// The rows that the source has yet to hand out, in their order.
    open spec fn remaining(&self) -> Seq<Row> {
        arbitrary()
    }

    /// What the header of the source says.
    open spec fn schema(&self) -> HeaderView {
        arbitrary()
    }

    /// The header of the source. It stays the same as long as the source lives.
    fn header(&self) -> (header: &Header)
        ensures
            header@ == self.schema(),
    ;

    /// The next row, or nothing at the end of the stream. A failure says nothing
    /// about the rows that remain.
    fn next_row(&mut self) -> (next: CliResult<Option<Row>>)
        ensures
            final(self).schema() == old(self).schema(),
            match next {
                Ok(Some(row)) => {
                    &&& old(self).remaining().len() > 0
                    &&& row == old(self).remaining()[0]
                    &&& final(self).remaining() == old(self).remaining().drop_first()
                },
                Ok(None) => {
                    &&& old(self).remaining().len() == 0
                    &&& final(self).remaining().len() == 0
                },
                Err(_) => true,
            },
    ;
}

/// A sink in its second phase: it has seen its header and takes rows.
///
/// The contracts of the methods speak of the records of the sink: what it has
/// received, how often it was asked to flush, the header that it was handed,
/// and its last answers. A sink that is verified says what they are. Each has a
/// body here only so that a sink outside verified code need not name it: that
/// body is one value whatever the state, so a verified sink has to put its own
/// in its place.
pub trait DataSink {
    /// The rows that were handed to the sink, in their order.
    open spec fn received(&self) -> Seq<Row> {
        arbitrary()
    }

    /// How often the sink was asked to flush.
    open spec fn flushes(&self) -> nat {
        arbitrary()
    }

    /// What the header said that the sink was handed in its first phase.
    open spec fn negotiated(&self) -> HeaderView {
        arbitrary()
    }

    /// What the sink answered when it was last handed a row.
    open spec fn last_write(&self) -> Result<Option<Row>, Error> {
        arbitrary()
    }

    /// What the sink answered when it was last asked to flush.
    open spec fn last_flush(&self) -> Result<(), Error> {
        arbitrary()
    }

    /// Takes a row. The sink may hand a row back, for whatever comes after it:
    /// that is no failure.
    fn write_row(&mut self, row: Row) -> (passed: CliResult<Option<Row>>)
        ensures
            passed is Ok ==> final(self).received() == old(self).received().push(row),
            final(self).last_write() == passed,
            final(self).flushes() == old(self).flushes(),
            final(self).negotiated() == old(self).negotiated(),
    ;

    /// Takes a row that comes in through the given pin.
    fn write_row_to_pin(&mut self, pin_id: PinId, row: Row) -> (passed: CliResult<Option<Row>>)
        ensures
            passed is Ok ==> final(self).received() == old(self).received().push(row),
            final(self).last_write() == passed,
            final(self).flushes() == old(self).flushes(),
            final(self).negotiated() == old(self).negotiated(),
    ;

    /// Completes what was written so far. No row is taken, and the flush counts
    /// whether or not it succeeds.
    fn flush(&mut self) -> (flushed: CliResult<()>)
        ensures
            final(self).received() == old(self).received(),
            final(self).last_flush() == flushed,
            final(self).flushes() == old(self).flushes() + 1,
            final(self).negotiated() == old(self).negotiated(),
    ;
}

/// A sink in its first phase: it waits for its header.
pub trait HeaderSink {
    /// The sink that takes the rows.
    type Sink: DataSink;

    /// Takes the header, which the sink may rewrite for whatever comes after
    /// it, and becomes a sink that takes rows: it was handed this header, has
    /// not received a row and was not flushed.
    fn process_header(self, header: &mut Header) -> (sink: CliResult<Self::Sink>)
        ensures
            sink matches Ok(sink) ==> {
                &&& sink.negotiated() == old(header)@
                &&& sink.received() == Seq::<Row>::empty()
                &&& sink.flushes() == 0
            },
    ;
}

} // verus!
