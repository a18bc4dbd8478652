//! A sink that keeps in memory what it is given.

use crate::chopper::chopper::{DataSink, HeaderSink, PinId};
use crate::chopper::types::{Header, HeaderView, Row};
use crate::error::CliResult;
use vstd::prelude::*;

verus! {

/// A sink that waits for its header and then keeps it.
pub struct MemoryHeaderSink {}

/// A sink that keeps the header and every row that it is given, and notes each
/// flush.
pub struct MemorySink {
    header: Header,
    rows: Vec<Row>,
    /// For each flush, the number of rows that the sink had been given.
    marks: Vec<usize>,
}

impl MemoryHeaderSink {
    /// A sink that has seen nothing yet.
    pub fn new() -> (sink: Self) {
        MemoryHeaderSink {  }
    }
}

impl HeaderSink for MemoryHeaderSink {
    type Sink = MemorySink;

    /// Keeps a copy of the header, which it leaves as it is; this sink never
    /// fails.
    fn process_header(self, header: &mut Header) -> (sink: CliResult<MemorySink>)
        ensures
            sink is Ok,
            sink->Ok_0.flush_marks() == Seq::<usize>::empty(),
            *final(header) == *old(header),
    {
        Ok(MemorySink { header: header.duplicate(), rows: Vec::new(), marks: Vec::new() })
    }
}

impl MemorySink {
    /// For each flush, the number of rows that the sink had been given.
    pub closed spec fn flush_marks(&self) -> Seq<usize> {
        self.marks@
    }

    /// The header that the sink was given.
    pub fn header(&self) -> (header: &Header)
        ensures
            header@ == self.negotiated(),
    {
        &self.header
    }

    /// The rows that the sink was given, in their order.
    pub fn rows(&self) -> (rows: &Vec<Row>)
        ensures
            rows@ == self.received(),
    {
        &self.rows
    }

    /// How often the sink was flushed.
    pub fn flush_count(&self) -> (count: usize)
        ensures
            count == self.flushes(),
    {
        self.marks.len()
    }

    /// For each flush, the number of rows that the sink had been given.
    pub fn marks(&self) -> (marks: &Vec<usize>)
        ensures
            marks@ == self.flush_marks(),
    {
        &self.marks
    }
}

impl DataSink for MemorySink {
    closed spec fn received(&self) -> Seq<Row> {
        self.rows@
    }

    closed spec fn flushes(&self) -> nat {
        self.marks@.len()
    }

    closed spec fn negotiated(&self) -> HeaderView {
        self.header@
    }

    open spec fn last_write(&self) -> Result<Option<Row>, crate::error::Error> {
        Ok(None)
    }

    open spec fn last_flush(&self) -> Result<(), crate::error::Error> {
        Ok(())
    }

    /// Keeps the row and hands nothing back; this sink never fails.
    fn write_row(&mut self, row: Row) -> (passed: CliResult<Option<Row>>)
        ensures
            passed == Ok::<Option<Row>, crate::error::Error>(None),
            final(self).flush_marks() == old(self).flush_marks(),
    {
        self.rows.push(row);
        Ok(None)
    }

    /// Keeps the row, whatever pin it comes through.
    fn write_row_to_pin(&mut self, pin_id: PinId, row: Row) -> (passed: CliResult<Option<Row>>)
        ensures
            passed == Ok::<Option<Row>, crate::error::Error>(None),
            final(self).flush_marks() == old(self).flush_marks(),
    {
        self.write_row(row)
    }

    /// Notes the flush; this sink never fails.
    fn flush(&mut self) -> (flushed: CliResult<()>)
        ensures
            flushed is Ok,
            final(self).flush_marks() == old(self).flush_marks().push(
                old(self).received().len() as usize,
            ),
    {
        self.marks.push(self.rows.len());
        Ok(())
    }
}

} // verus!
