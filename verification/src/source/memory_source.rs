//! A source that holds its rows in memory.

use crate::chopper::chopper::Source;
use crate::chopper::types::{Header, HeaderView, Row};
use crate::error::CliResult;
use vstd::prelude::*;

verus! {

/// A source of rows that are given when it is made.
pub struct MemorySource {
    header: Header,
    /// The rows that remain, the next one last.
    stack: Vec<Row>,
}

impl MemorySource {
    /// A source with the given header that hands out the given rows in their
    /// order.
    pub fn new(header: Header, rows: Vec<Row>) -> (source: Self)
        ensures
            source.schema() == header@,
            source.remaining() == rows@,
    {
        let mut rows = rows;
        let mut stack: Vec<Row> = Vec::new();
        let ghost given = rows@;
        while rows.len() > 0
            invariant
                given == rows@ + stack@.reverse(),
            decreases rows.len(),
        {
            let ghost before = rows@;
            let ghost stacked = stack@;
            match rows.pop() {
                Some(row) => {
                    stack.push(row);
                    assert(rows@ + stack@.reverse() =~= before + stacked.reverse());
                },
                None => {},
            }
        }
        assert(stack@.reverse() =~= given);
        MemorySource { header, stack }
    }
}

impl Source for MemorySource {
    closed spec fn remaining(&self) -> Seq<Row> {
        self.stack@.reverse()
    }

    closed spec fn schema(&self) -> HeaderView {
        self.header@
    }

    fn header(&self) -> (header: &Header) {
        &self.header
    }

    /// The next row, or nothing at the end; this source never fails.
    fn next_row(&mut self) -> (next: CliResult<Option<Row>>)
        ensures
            next is Ok,
    {
        let next = self.stack.pop();
        proof {
            if old(self).stack.len() > 0 {
                assert(self.stack@.reverse() =~= old(self).stack@.reverse().drop_first());
            }
        }
        Ok(next)
    }
}

} // verus!
