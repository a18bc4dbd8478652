//! A sink that renders rows as delimited text.
//!
//! The sink keeps the text that it renders as a list of pieces. Whoever writes
//! the text out formats the floating-point numbers among them.

use crate::chopper::chopper::{DataSink, HeaderSink, PinId};
use crate::chopper::types::{
    FieldType, FieldValue, Fragment, Header, HeaderView, Piece, Row, fragments,
};
use crate::error::{CliResult, Error};
use crate::source::csv_configs::{CSVOutputConfig, CSVOutputConfigView};
use crate::util::csv_util::joined;
use crate::util::decimal::{decimal, decimal_text};
use vstd::prelude::*;
use vstd::string::*;

verus! {

/// The name of the column of times in a header line.
pub open spec fn timestamp_title() -> Seq<char> {
    seq!['t', 'i', 'm', 'e', 's', 't', 'a', 'm', 'p']
}

/// The end of a line.
pub open spec fn line_end() -> Seq<char> {
    seq!['\n']
}

/// The titles of a header line: that of the times, where rows begin with their
/// time, and the names of the columns.
pub open spec fn titles(header: HeaderView, config: CSVOutputConfigView) -> Seq<Seq<char>> {
    if config.print_timestamp {
        seq![timestamp_title()] + header.field_names
    } else {
        header.field_names
    }
}

/// The header line: the titles, separated by the delimiter, and the end of the
/// line.
pub open spec fn header_line(header: HeaderView, config: CSVOutputConfigView) -> Seq<char> {
    joined(titles(header, config), config.delimiter) + line_end()
}

/// What a value is in a line of text: what it holds.
pub open spec fn cell(value: FieldValue) -> Result<Fragment, Error> {
    value.content()
}

/// The cells of the first `count` values, each but the first cell of the line
/// after a delimiter; `leading` says whether a cell stands before them.
pub open spec fn cells(
    values: Seq<FieldValue>,
    count: int,
    delimiter: Seq<char>,
    leading: bool,
) -> Seq<Fragment>
    decreases count,
{
    if count <= 0 {
        Seq::empty()
    } else {
        let before = cells(values, count - 1, delimiter, leading);
        let value = cell(values[count - 1])->Ok_0;
        if leading || count > 1 {
            before + seq![Fragment::Text(delimiter), value]
        } else {
            before + seq![value]
        }
    }
}

/// Why the first value of a reserved type among the values has no place in a
/// line, if there is such a value.
pub open spec fn first_unsupported(values: Seq<FieldValue>) -> Option<Error> {
    if exists|i: int| first_failing(values, i) {
        let i = choose|i: int| first_failing(values, i);
        Some(cell(values[i])->Err_0)
    } else {
        None
    }
}

/// Whether the value at `i` is the first that has no place in a line.
pub open spec fn first_failing(values: Seq<FieldValue>, i: int) -> bool {
    &&& 0 <= i < values.len()
    &&& cell(values[i]) is Err
    &&& forall|j: int| 0 <= j < i ==> (#[trigger] cell(values[j])) is Ok
}

/// The line of a row: its time in decimal, where rows begin with their time,
/// and its values, separated by the delimiter, and the end of the line. A row
/// with a value of a reserved type has no line; the first such value says why.
pub open spec fn row_line(row: Row, config: CSVOutputConfigView) -> Result<Seq<Fragment>, Error> {
    match first_unsupported(row.field_values@) {
        Some(error) => Err(error),
        None => Ok(
            (if config.print_timestamp {
                seq![Fragment::Text(decimal(row.timestamp as nat))]
            } else {
                Seq::empty()
            }) + cells(
                row.field_values@,
                row.field_values.len() as int,
                config.delimiter,
                config.print_timestamp,
            ) + seq![Fragment::Text(line_end())],
        ),
    }
}

/// Whether the type at `i` is the first among the types that is reserved.
pub open spec fn first_reserved(types: Seq<FieldType>, i: int) -> bool {
    &&& 0 <= i < types.len()
    &&& !types[i].supported()
    &&& forall|j: int| 0 <= j < i ==> (#[trigger] types[j]).supported()
}

/// Renders the header line.
pub fn render_header(header: &Header, config: &CSVOutputConfig) -> (line: String)
    ensures
        line@ == header_line(header@, config@),
{
    let names = header.field_names();
    let delimiter = config.delimiter();
    let mut line = String::new();
    let ghost shown = titles(header@, config@);
    let ghost lead: int = if config@.print_timestamp {
        1
    } else {
        0
    };
    if config.print_timestamp() {
        line.append("timestamp");
        proof {
            reveal_strlit("timestamp");
            assert(line@ =~= timestamp_title());
            assert(shown.subrange(0, 1) =~= seq![timestamp_title()]);
            assert(joined(shown.subrange(0, 1), config@.delimiter) == timestamp_title());
        }
    } else {
        assert(shown.subrange(0, 0) =~= Seq::<Seq<char>>::empty());
        assert(line@ =~= joined(shown.subrange(0, 0), config@.delimiter));
    }
    let mut index: usize = 0;
    while index < names.len()
        invariant
            index <= names.len(),
            names.deep_view() == header@.field_names,
            delimiter@ == config@.delimiter,
            shown == titles(header@, config@),
            lead == if config@.print_timestamp {
                1int
            } else {
                0int
            },
            shown.len() == lead + names.len(),
            line@ == joined(shown.subrange(0, lead + index), config@.delimiter),
        decreases names.len() - index,
    {
        let ghost before = shown.subrange(0, lead + index);
        let ghost after = shown.subrange(0, lead + index + 1);
        if index > 0 || config.print_timestamp() {
            line.append(delimiter.as_str());
        }
        line.append(names[index].as_str());
        proof {
            assert(after.drop_last() =~= before);
            assert(after.last() == names[index as int]@) by {
                assert(names.deep_view()[index as int] == names[index as int]@);
            }
            if before.len() == 0 {
                assert(line@ =~= after[0]);
            } else {
                assert(line@ =~= joined(before, config@.delimiter) + config@.delimiter
                    + after.last());
            }
        }
        index += 1;
    }
    proof {
        reveal_strlit("\n");
        assert(shown.subrange(0, lead + index) =~= shown);
    }
    line.append("\n");
    assert(line@ =~= header_line(header@, config@));
    line
}

/// Renders one value of a line, or says why it has no place in one.
pub fn render_cell(value: &FieldValue) -> (piece: CliResult<Piece>)
    ensures
        match piece {
            Ok(piece) => cell(*value) == Ok::<Fragment, Error>(piece@),
            Err(error) => cell(*value) == Err::<Fragment, Error>(error),
        },
{
    value.to_piece()
}

/// Renders the line of a row, or says why the row has none.
pub fn render_row(row: &Row, config: &CSVOutputConfig) -> (line: CliResult<Vec<Piece>>)
    ensures
        match line {
            Ok(line) => row_line(*row, config@) == Ok::<Seq<Fragment>, Error>(fragments(line@)),
            Err(error) => row_line(*row, config@) == Err::<Seq<Fragment>, Error>(error),
        },
{
    let delimiter = config.delimiter();
    let leading = config.print_timestamp();
    let mut line: Vec<Piece> = Vec::new();
    if leading {
        line.push(Piece::Text(decimal_text(row.timestamp)));
    }
    let ghost start = fragments(line@);
    assert(start =~= if leading {
        seq![Fragment::Text(decimal(row.timestamp as nat))]
    } else {
        Seq::empty()
    });
    let values = &row.field_values;
    let mut index: usize = 0;
    while index < values.len()
        invariant
            index <= values.len(),
            values@ == row.field_values@,
            delimiter@ == config@.delimiter,
            leading == config@.print_timestamp,
            forall|j: int| 0 <= j < index ==> (#[trigger] cell(values[j])) is Ok,
            fragments(line@) == start + cells(values@, index as int, delimiter@, leading),
        decreases values.len() - index,
    {
        let ghost before = fragments(line@);
        let piece = match render_cell(&values[index]) {
            Ok(piece) => piece,
            Err(error) => {
                proof {
                    assert(first_failing(values@, index as int));
                    let chosen = choose|i: int| first_failing(values@, i);
                    if chosen < index {
                        assert(cell(values[chosen]) is Ok);
                    }
                    if index < chosen {
                        assert(cell(values[index as int]) is Ok);
                    }
                }
                return Err(error);
            },
        };
        if leading || index > 0 {
            line.push(Piece::Text(delimiter.clone()));
            line.push(piece);
            assert(fragments(line@) =~= before + seq![Fragment::Text(delimiter@), piece@]);
        } else {
            line.push(piece);
            assert(fragments(line@) =~= before + seq![piece@]);
        }
        assert(fragments(line@) =~= start + cells(values@, index + 1, delimiter@, leading));
        index += 1;
    }
    proof {
        assert forall|i: int| !first_failing(values@, i) by {
            if first_failing(values@, i) {
                assert(cell(values[i]) is Ok);
            }
        }
    }
    let ghost before = fragments(line@);
    let ending = String::from_str("\n");
    proof {
        reveal_strlit("\n");
        assert(ending@ =~= line_end());
    }
    line.push(Piece::Text(ending));
    assert(fragments(line@) =~= before + seq![Fragment::Text(line_end())]);
    Ok(line)
}

/// The lines of the rows, one after the other.
pub open spec fn lines(rows: Seq<Row>, config: CSVOutputConfigView) -> Seq<Fragment>
    decreases rows.len(),
{
    if rows.len() == 0 {
        Seq::empty()
    } else {
        lines(rows.drop_last(), config) + row_line(rows.last(), config)->Ok_0
    }
}

/// The text of a header and of rows: the header line, and then the lines of the
/// rows.
pub open spec fn document(header: HeaderView, rows: Seq<Row>, config: CSVOutputConfigView) -> Seq<
    Fragment,
> {
    seq![Fragment::Text(header_line(header, config))] + lines(rows, config)
}

/// What a sink has rendered, and what it remembers of what it was given.
struct Rendered {
    /// The pieces that were rendered and not yet taken out.
    output: Vec<Piece>,
    /// Whether the header line was rendered.
    ready: bool,
    /// What the pieces said that were taken out.
    taken: Ghost<Seq<Fragment>>,
    /// The rows that were rendered.
    rows: Ghost<Seq<Row>>,
    /// What the header said whose line was rendered.
    seen: Ghost<HeaderView>,
    /// How often the sink was asked to flush; the count starts anew when the
    /// sink takes its header in a graph.
    flushed: Ghost<nat>,
    /// What the sink answered when it was last handed a row.
    answered: Ghost<Result<Option<Row>, Error>>,
}

impl Rendered {
    /// Everything that was rendered.
    spec fn written(self) -> Seq<Fragment> {
        self.taken@ + fragments(self.output@)
    }

    /// Whether what was rendered is the text of what was given: nothing before
    /// the header, and then the header line and the lines of the rows, each of
    /// which has a line.
    spec fn faithful(self, config: CSVOutputConfigView) -> bool {
        if self.ready {
            &&& self.written() == document(self.seen@, self.rows@, config)
            &&& forall|k: int|
                0 <= k < self.rows@.len() ==> row_line(#[trigger] self.rows@[k], config) is Ok
        } else {
            &&& self.written() == Seq::<Fragment>::empty()
            &&& self.rows@ == Seq::<Row>::empty()
        }
    }

    /// The state of a sink that has seen and rendered nothing.
    fn blank() -> (state: Self)
        ensures
            !state.ready,
            state.output@ == Seq::<Piece>::empty(),
            state.taken@ == Seq::<Fragment>::empty(),
            state.rows@ == Seq::<Row>::empty(),
            state.flushed@ == 0,
            forall|config: CSVOutputConfigView| #[trigger] state.faithful(config),
    {
        let state = Rendered {
            output: Vec::new(),
            ready: false,
            taken: Ghost(Seq::empty()),
            rows: Ghost(Seq::empty()),
            seen: Ghost(arbitrary()),
            flushed: Ghost(0),
            answered: Ghost(Ok(None)),
        };
        assert(state.written() =~= Seq::<Fragment>::empty());
        state
    }
}

/// A sink that renders the header and the rows that it is given as lines of
/// delimited text, and keeps them until they are taken out.
pub struct CSVSink {
    csv_output_config: CSVOutputConfig,
    state: Rendered,
}

impl CSVSink {
    #[verifier::type_invariant]
    spec fn orderly(self) -> bool {
        self.state.faithful(self.csv_output_config@)
    }

    /// Everything that the sink has rendered so far.
    pub closed spec fn written(&self) -> Seq<Fragment> {
        self.state.written()
    }

    /// What the sink has rendered and still holds.
    pub closed spec fn pending(&self) -> Seq<Fragment> {
        fragments(self.state.output@)
    }

    /// What the sink has rendered and what was taken out of it.
    pub closed spec fn taken(&self) -> Seq<Fragment> {
        self.state.taken@
    }

    /// Whether the sink has seen its header.
    pub closed spec fn ready(&self) -> bool {
        self.state.ready
    }

    /// How the sink renders.
    pub closed spec fn config(&self) -> CSVOutputConfigView {
        self.csv_output_config@
    }

    /// Whether what the sink has rendered is the text of what it was given:
    /// nothing before its header, and then the line of its header and the lines
    /// of the rows that it has received.
    pub open spec fn faithful(&self) -> bool {
        &&& self.written() == self.taken() + self.pending()
        &&& if self.ready() {
            self.written() == document(self.negotiated(), self.received(), self.config())
        } else {
            self.written() == Seq::<Fragment>::empty() && self.received() == Seq::<Row>::empty()
        }
    }

    /// A sink of the given configuration that has seen and rendered nothing.
    pub fn new(csv_output_config: CSVOutputConfig) -> (sink: Self)
        ensures
            sink.config() == csv_output_config@,
            sink.written() == Seq::<Fragment>::empty(),
            sink.pending() == Seq::<Fragment>::empty(),
            sink.taken() == Seq::<Fragment>::empty(),
            sink.received() == Seq::<Row>::empty(),
            sink.flushes() == 0,
            !sink.ready(),
    {
        let state = Rendered::blank();
        assert(state.faithful(csv_output_config@));
        assert(state.written() =~= Seq::<Fragment>::empty());
        assert(fragments(state.output@) =~= Seq::<Fragment>::empty());
        CSVSink { csv_output_config, state }
    }

    /// How the sink renders.
    pub fn csv_output_config(&self) -> (config: &CSVOutputConfig)
        ensures
            config@ == self.config(),
            self.faithful(),
    {
        proof {
            use_type_invariant(self);
        }
        &self.csv_output_config
    }

    /// Renders the header line, once: a sink that has seen its header refuses
    /// another, and nothing changes.
    pub fn write_csv_header(&mut self, header: &Header) -> (written: CliResult<()>)
        ensures
            final(self).config() == old(self).config(),
            final(self).flushes() == old(self).flushes(),
            final(self).taken() == old(self).taken(),
            final(self).ready(),
            final(self).faithful(),
            if old(self).ready() {
                &&& written == Err::<(), Error>(Error::HeaderAlreadyProcessed)
                &&& final(self).negotiated() == old(self).negotiated()
                &&& final(self).received() == old(self).received()
                &&& final(self).written() == old(self).written()
                &&& final(self).pending() == old(self).pending()
            } else {
                &&& written is Ok
                &&& final(self).negotiated() == header@
                &&& final(self).received() == Seq::<Row>::empty()
                &&& final(self).written() == seq![
                    Fragment::Text(header_line(header@, old(self).config())),
                ]
                &&& final(self).pending() == old(self).pending().push(
                    Fragment::Text(header_line(header@, old(self).config())),
                )
            },
    {
        proof {
            use_type_invariant(&*self);
        }
        if self.state.ready {
            return Err(Error::HeaderAlreadyProcessed);
        }
        let line = render_header(header, &self.csv_output_config);
        let mut state = Rendered::blank();
        core::mem::swap(&mut self.state, &mut state);
        let ghost before = state;
        state.output.push(Piece::Text(line));
        state.ready = true;
        state.rows = Ghost(Seq::empty());
        state.seen = Ghost(header@);
        proof {
            let text = Fragment::Text(header_line(header@, self.csv_output_config@));
            assert(fragments(state.output@) =~= fragments(before.output@).push(text));
            assert(state.written() =~= before.written().push(text));
            assert(before.written() =~= Seq::<Fragment>::empty());
            assert(lines(Seq::<Row>::empty(), self.csv_output_config@) =~= Seq::<Fragment>::empty());
            assert(state.written() =~= document(header@, Seq::empty(), self.csv_output_config@));
            assert(state.written() =~= seq![text]);
        }
        core::mem::swap(&mut self.state, &mut state);
        Ok(())
    }

    /// What the sink has rendered and still holds.
    pub fn output(&self) -> (pieces: &Vec<Piece>)
        ensures
            fragments(pieces@) == self.pending(),
            self.faithful(),
    {
        proof {
            use_type_invariant(self);
        }
        &self.state.output
    }

    /// Takes out of the sink what it has rendered and still holds, to be
    /// written out. What the sink has rendered in all stays what it was.
    pub fn take_output(&mut self) -> (pieces: Vec<Piece>)
        ensures
            fragments(pieces@) == old(self).pending(),
            final(self).pending() == Seq::<Fragment>::empty(),
            final(self).taken() == old(self).taken() + old(self).pending(),
            final(self).written() == old(self).written(),
            final(self).config() == old(self).config(),
            final(self).ready() == old(self).ready(),
            final(self).received() == old(self).received(),
            final(self).negotiated() == old(self).negotiated(),
            final(self).flushes() == old(self).flushes(),
            final(self).last_write() == old(self).last_write(),
            final(self).faithful(),
    {
        proof {
            use_type_invariant(&*self);
        }
        let mut state = Rendered::blank();
        core::mem::swap(&mut self.state, &mut state);
        let ghost before = state;
        let mut pieces: Vec<Piece> = Vec::new();
        core::mem::swap(&mut state.output, &mut pieces);
        state.taken = Ghost(before.taken@ + fragments(pieces@));
        proof {
            assert(fragments(state.output@) =~= Seq::<Fragment>::empty());
            assert(state.written() =~= before.written());
        }
        core::mem::swap(&mut self.state, &mut state);
        pieces
    }

    /// Gives up the sink for what it has rendered and still holds.
    pub fn into_output(self) -> (pieces: Vec<Piece>)
        ensures
            fragments(pieces@) == self.pending(),
            self.faithful(),
    {
        proof {
            use_type_invariant(&self);
        }
        self.state.output
    }
}

impl HeaderSink for CSVSink {
    type Sink = CSVSink;

    /// Checks that no column has a reserved type, renders the header line, and
    /// is ready for rows. The header is left as it is.
    fn process_header(self, header: &mut Header) -> (sink: CliResult<CSVSink>)
        ensures
            *final(header) == *old(header),
            match sink {
                Ok(sink) => {
                    &&& !self.ready()
                    &&& forall|i: int|
                        0 <= i < old(header)@.field_types.len() ==> (
                        #[trigger] old(header)@.field_types[i]).supported()
                    &&& sink.ready()
                    &&& sink.faithful()
                    &&& sink.config() == self.config()
                    &&& sink.taken() == self.taken()
                    &&& sink.written() == seq![
                        Fragment::Text(header_line(old(header)@, self.config())),
                    ]
                },
                Err(error) => if self.ready() {
                    error == Error::HeaderAlreadyProcessed
                } else {
                    exists|i: int|
                        first_reserved(old(header)@.field_types, i) && error
                            == Error::UnsupportedType(old(header)@.field_types[i])
                },
            },
    {
        let mut sink = self;
        proof {
            use_type_invariant(&sink);
        }
        if sink.state.ready {
            return Err(Error::HeaderAlreadyProcessed);
        }
        let types = header.field_types();
        let mut index: usize = 0;
        while index < types.len()
            invariant
                index <= types.len(),
                types@ == header@.field_types,
                *header == *old(header),
                !self.ready(),
                forall|j: int| 0 <= j < index ==> (#[trigger] types[j]).supported(),
            decreases types.len() - index,
        {
            if !types[index].is_supported() {
                assert(first_reserved(header@.field_types, index as int));
                return Err(Error::UnsupportedType(types[index]));
            }
            index += 1;
        }
        match sink.write_csv_header(header) {
            Ok(_) => {
                sink.state.flushed = Ghost(0);
                Ok(sink)
            },
            Err(error) => Err(error),
        }
    }
}

impl DataSink for CSVSink {
    closed spec fn received(&self) -> Seq<Row> {
        self.state.rows@
    }

    closed spec fn flushes(&self) -> nat {
        self.state.flushed@
    }

    closed spec fn negotiated(&self) -> HeaderView {
        self.state.seen@
    }

    closed spec fn last_write(&self) -> Result<Option<Row>, Error> {
        self.state.answered@
    }

    open spec fn last_flush(&self) -> Result<(), Error> {
        Ok(())
    }

    /// Renders the line of the row and hands nothing back. A sink that has not
    /// seen its header refuses the row; so does a row that has no line. Then
    /// nothing is rendered.
    fn write_row(&mut self, row: Row) -> (passed: CliResult<Option<Row>>)
        ensures
            final(self).config() == old(self).config(),
            final(self).ready() == old(self).ready(),
            final(self).taken() == old(self).taken(),
            final(self).faithful(),
            match passed {
                Ok(passed) => {
                    &&& passed is None
                    &&& old(self).ready()
                    &&& row_line(row, old(self).config()) is Ok
                    &&& final(self).written() == old(self).written() + row_line(
                        row,
                        old(self).config(),
                    )->Ok_0
                    &&& final(self).pending() == old(self).pending() + row_line(
                        row,
                        old(self).config(),
                    )->Ok_0
                },
                Err(error) => {
                    &&& final(self).written() == old(self).written()
                    &&& final(self).pending() == old(self).pending()
                    &&& final(self).received() == old(self).received()
                    &&& if !old(self).ready() {
                        error == Error::HeaderNotProcessed
                    } else {
                        row_line(row, old(self).config()) == Err::<Seq<Fragment>, Error>(error)
                    }
                },
            },
    {
        proof {
            use_type_invariant(&*self);
        }
        if !self.state.ready {
            self.state.answered = Ghost(Err(Error::HeaderNotProcessed));
            return Err(Error::HeaderNotProcessed);
        }
        let mut line = match render_row(&row, &self.csv_output_config) {
            Ok(line) => line,
            Err(error) => {
                self.state.answered = Ghost(Err(error));
                return Err(error);
            },
        };
        let mut state = Rendered::blank();
        core::mem::swap(&mut self.state, &mut state);
        let ghost before = state;
        let ghost added = line@;
        state.output.append(&mut line);
        state.rows = Ghost(before.rows@.push(row));
        state.answered = Ghost(Ok(None));
        proof {
            let config = self.csv_output_config@;
            assert(fragments(state.output@) =~= fragments(before.output@) + fragments(added));
            assert(state.written() =~= before.written() + fragments(added));
            assert(state.rows@.drop_last() =~= before.rows@);
            assert(state.written() =~= document(state.seen@, state.rows@, config));
            assert forall|k: int| 0 <= k < state.rows@.len() implies row_line(
                #[trigger] state.rows@[k],
                config,
            ) is Ok by {
                if k < before.rows@.len() {
                    assert(state.rows@[k] == before.rows@[k]);
                }
            }
        }
        core::mem::swap(&mut self.state, &mut state);
        Ok(None)
    }

    /// Renders the line of the row, whatever pin it comes through.
    fn write_row_to_pin(&mut self, pin_id: PinId, row: Row) -> (passed: CliResult<Option<Row>>)
        ensures
            final(self).config() == old(self).config(),
            final(self).ready() == old(self).ready(),
            final(self).taken() == old(self).taken(),
            final(self).faithful(),
            match passed {
                Ok(passed) => {
                    &&& passed is None
                    &&& old(self).ready()
                    &&& row_line(row, old(self).config()) is Ok
                    &&& final(self).written() == old(self).written() + row_line(
                        row,
                        old(self).config(),
                    )->Ok_0
                    &&& final(self).pending() == old(self).pending() + row_line(
                        row,
                        old(self).config(),
                    )->Ok_0
                },
                Err(error) => {
                    &&& final(self).written() == old(self).written()
                    &&& final(self).pending() == old(self).pending()
                    &&& final(self).received() == old(self).received()
                    &&& if !old(self).ready() {
                        error == Error::HeaderNotProcessed
                    } else {
                        row_line(row, old(self).config()) == Err::<Seq<Fragment>, Error>(error)
                    }
                },
            },
    {
        self.write_row(row)
    }

    /// Renders nothing and never fails: the text is kept in memory.
    fn flush(&mut self) -> (flushed: CliResult<()>)
        ensures
            flushed is Ok,
            final(self).config() == old(self).config(),
            final(self).ready() == old(self).ready(),
            final(self).written() == old(self).written(),
            final(self).pending() == old(self).pending(),
            final(self).taken() == old(self).taken(),
            final(self).faithful(),
    {
        proof {
            use_type_invariant(&*self);
        }
        self.state.flushed = Ghost(self.state.flushed@ + 1);
        Ok(())
    }
}

} // verus!
