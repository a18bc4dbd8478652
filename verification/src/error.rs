//! The failures that the library reports.

use crate::chopper::types::FieldType;
use vstd::prelude::*;

verus! {

/// Why an operation of the library failed.
#[derive(PartialEq, Eq, Clone, Debug)]
pub enum Error {
    /// A bound of the time window could not be read.
    MalformedRange,
    /// A delimiter that is not a single ASCII character.
    MalformedDelimiter,
    /// A time zone name that the configuration does not know.
    UnknownTimeZone,
    /// A value or column of a reserved type took part in an operation.
    UnsupportedType(FieldType),
    /// Two values of different types were compared; `None` stands for an absent value.
    TypeMismatch(Option<FieldType>, Option<FieldType>),
    /// Text that was to be ordered as a number spells none.
    NotNumeric,
    /// A text that does not spell a value of the type of its column.
    MalformedValue,
    /// A row whose values disagree with its header.
    SchemaMismatch,
    /// Headers that meet at one chain and cannot be reconciled.
    HeaderMismatch,
    /// A routing graph that is put together wrongly.
    InvalidGraph,
    /// A pin that the graph does not route.
    UnknownPin(usize),
    /// A row was supplied for a source that the merge is not waiting for.
    NotAwaited(usize),
    /// A row was handed to a sink that has not seen its header.
    HeaderNotProcessed,
    /// A header was handed to a sink that has seen its header.
    HeaderAlreadyProcessed,
    /// A failure while reading a source or writing a sink.
    Io(String),
}

/// The result of an operation that can fail.
pub type CliResult<T> = Result<T, Error>;

/// The part of a run that a failure comes from.
#[derive(PartialEq, Eq, Structural, Clone, Copy, Debug)]
pub enum Component {
    /// The source of the given index.
    Source(usize),
    /// The graph as a whole.
    Graph,
    /// The entry of the chain of the given index.
    Chain(usize),
    /// The node at the given place of the given chain.
    Node { chain: usize, node: usize },
}

/// A failure of a run: what failed, and why.
#[derive(PartialEq, Eq, Clone, Debug)]
pub struct Failure {
    pub component: Component,
    pub cause: Error,
}

/// How a run ended that did not complete.
#[derive(PartialEq, Eq, Clone, Debug)]
pub enum RunError {
    /// The run stopped at the first failure of a source, of a row or of a sink.
    Aborted(Failure),
    /// Every row was handed on, and then these flushes failed.
    Unflushed(Vec<Failure>),
}

} // verus!
