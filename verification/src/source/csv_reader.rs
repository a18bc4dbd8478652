//! Reading back a line of delimited text.
//!
//! A line is read into cells. A cell of a floating-point column keeps its text:
//! whoever reads the text in parses the number.

use crate::chopper::types::{
    fits, text_of, FieldType, FieldValue, FieldValueView, Fragment, Header, HeaderView, Nanos, Row,
};
use crate::error::{CliResult, Error};
use crate::source::csv_configs::CSVOutputConfigView;
use crate::util::csv_util::joined;
use crate::util::decimal::{
    decimal, decimal_reading, is_digit, lemma_decimal_reads_back, lemma_signed_decimal_reads_back,
    parse_decimal, parse_signed_decimal, signed_decimal, signed_reading,
};
use crate::write::csv_sink::{cell, cells, first_failing, first_unsupported, line_end, row_line};
use vstd::prelude::*;
use vstd::string::*;

verus! {

/// What was read from one cell of a line.
#[derive(Clone, Debug)]
pub enum Cell {
    /// A value.
    Value(FieldValue),
    /// The text of a double.
    Double(String),
    /// The text of a single-precision number.
    Float(String),
}

/// What a cell says.
pub enum CellView {
    Value(FieldValueView),
    Double(Seq<char>),
    Float(Seq<char>),
}

impl View for Cell {
    type V = CellView;

    open spec fn view(&self) -> CellView {
        match *self {
            Cell::Value(value) => CellView::Value(value@),
            Cell::Double(text) => CellView::Double(text@),
            Cell::Float(text) => CellView::Float(text@),
        }
    }
}

/// What each of the cells says.
pub open spec fn cell_views(cells: Seq<Cell>) -> Seq<CellView> {
    cells.map_values(|cell: Cell| cell@)
}

/// The value that a natural number is in a column of an unsigned type, where it
/// fits.
pub open spec fn natural_value(spelled: Option<nat>, field_type: FieldType) -> Result<
    CellView,
    Error,
> {
    match spelled {
        Some(value) => if field_type is Byte && value <= u8::MAX {
            Ok(CellView::Value(FieldValueView::Byte(value as u8)))
        } else if field_type is Char && value <= u16::MAX {
            Ok(CellView::Value(FieldValueView::Char(value as u16)))
        } else {
            Err(Error::MalformedValue)
        },
        None => Err(Error::MalformedValue),
    }
}

/// The value that an integer is in a column of a signed type, where it fits.
pub open spec fn integer_value(spelled: Option<int>, field_type: FieldType) -> Result<
    CellView,
    Error,
> {
    match spelled {
        Some(value) => if field_type is Short && i16::MIN <= value <= i16::MAX {
            Ok(CellView::Value(FieldValueView::Short(value as i16)))
        } else if field_type is Int && i32::MIN <= value <= i32::MAX {
            Ok(CellView::Value(FieldValueView::Int(value as i32)))
        } else if field_type is Long && i64::MIN <= value <= i64::MAX {
            Ok(CellView::Value(FieldValueView::Long(value as i64)))
        } else {
            Err(Error::MalformedValue)
        },
        None => Err(Error::MalformedValue),
    }
}

/// What the text of a cell is in a column of the given type. A column of a
/// reserved type cannot be read. An empty text is an absent value. Any other
/// text is the integer that it spells in decimal, where the column holds
/// integers and that integer fits; itself, where the column holds text; and the
/// text of a number, where the column holds floating-point numbers.
pub open spec fn cell_reading(text: Seq<char>, field_type: FieldType) -> Result<CellView, Error> {
    if !field_type.supported() {
        Err(Error::UnsupportedType(field_type))
    } else if text.len() == 0 {
        Ok(CellView::Value(FieldValueView::Absent))
    } else {
        match field_type {
            FieldType::Byte | FieldType::Char => natural_value(decimal_reading(text), field_type),
            FieldType::Short | FieldType::Int | FieldType::Long => integer_value(
                signed_reading(text),
                field_type,
            ),
            FieldType::Double => Ok(CellView::Double(text)),
            FieldType::Float => Ok(CellView::Float(text)),
            _ => Ok(CellView::Value(FieldValueView::String(text))),
        }
    }
}

/// Reads the text of a cell in a column of the given type.
pub fn read_cell(text: &str, field_type: FieldType) -> (cell: CliResult<Cell>)
    ensures
        match cell {
            Ok(cell) => cell_reading(text@, field_type) == Ok::<CellView, Error>(cell@),
            Err(error) => cell_reading(text@, field_type) == Err::<CellView, Error>(error),
        },
{
    if !field_type.is_supported() {
        return Err(Error::UnsupportedType(field_type));
    }
    if text.unicode_len() == 0 {
        return Ok(Cell::Value(FieldValue::Absent));
    }
    match field_type {
        FieldType::Byte => match parse_decimal(text) {
            Some(value) => if value <= 255 {
                Ok(Cell::Value(FieldValue::Byte(value as u8)))
            } else {
                Err(Error::MalformedValue)
            },
            None => Err(Error::MalformedValue),
        },
        FieldType::Char => match parse_decimal(text) {
            Some(value) => if value <= 65535 {
                Ok(Cell::Value(FieldValue::Char(value as u16)))
            } else {
                Err(Error::MalformedValue)
            },
            None => Err(Error::MalformedValue),
        },
        FieldType::Short => match parse_signed_decimal(text) {
            Some(value) => if -32768 <= value && value <= 32767 {
                Ok(Cell::Value(FieldValue::Short(value as i16)))
            } else {
                Err(Error::MalformedValue)
            },
            None => Err(Error::MalformedValue),
        },
        FieldType::Int => match parse_signed_decimal(text) {
            Some(value) => if -2147483648 <= value && value <= 2147483647 {
                Ok(Cell::Value(FieldValue::Int(value as i32)))
            } else {
                Err(Error::MalformedValue)
            },
            None => Err(Error::MalformedValue),
        },
        FieldType::Long => match parse_signed_decimal(text) {
            Some(value) => Ok(Cell::Value(FieldValue::Long(value))),
            None => Err(Error::MalformedValue),
        },
        FieldType::Double => Ok(Cell::Double(String::from_str(text))),
        FieldType::Float => Ok(Cell::Float(String::from_str(text))),
        _ => Ok(Cell::Value(FieldValue::String(String::from_str(text)))),
    }
}

/// Whether a text is free of a character.
pub open spec fn free_of(text: Seq<char>, character: char) -> bool {
    forall|i: int| 0 <= i < text.len() ==> #[trigger] text[i] != character
}

/// Whether the cells are those of a text: there is at least one, none holds
/// the delimiter, and with the delimiter between them they are the text.
pub open spec fn splits(cells: Seq<Seq<char>>, text: Seq<char>, delimiter: char) -> bool {
    &&& cells.len() >= 1
    &&& forall|k: int| 0 <= k < cells.len() ==> free_of(#[trigger] cells[k], delimiter)
    &&& joined(cells, seq![delimiter]) == text
}

/// The cells of a text.
pub open spec fn split(text: Seq<char>, delimiter: char) -> Seq<Seq<char>> {
    choose|cells: Seq<Seq<char>>| splits(cells, text, delimiter)
}

/// One more cell after the cells of a text: the text goes on with the
/// delimiter and the cell.
pub proof fn lemma_joined_push(cells: Seq<Seq<char>>, cell: Seq<char>, delimiter: Seq<char>)
    ensures
        joined(cells.push(cell), delimiter) == if cells.len() == 0 {
            cell
        } else {
            joined(cells, delimiter) + delimiter + cell
        },
{
    assert(cells.push(cell).drop_last() =~= cells);
}

/// A text has its cells only.
pub proof fn lemma_split_unique(
    one: Seq<Seq<char>>,
    other: Seq<Seq<char>>,
    text: Seq<char>,
    delimiter: char,
)
    requires
        splits(one, text, delimiter),
        splits(other, text, delimiter),
    ensures
        one == other,
    decreases one.len(),
{
    let mark = seq![delimiter];
    if one.len() == 1 {
        if other.len() >= 2 {
            let at = joined(other.drop_last(), mark).len() as int;
            assert(text[at] == delimiter);
            assert(free_of(one[0], delimiter));
        }
        assert(one =~= other);
    } else {
        let at = joined(one.drop_last(), mark).len() as int;
        assert(text == joined(one.drop_last(), mark) + mark + one.last());
        assert(text.len() == at + 1 + one.last().len());
        assert(text[at] == delimiter);
        if other.len() == 1 {
            assert(free_of(other[0], delimiter));
        }
        let there = joined(other.drop_last(), mark).len() as int;
        assert(text == joined(other.drop_last(), mark) + mark + other.last());
        assert(text.len() == there + 1 + other.last().len());
        assert(text[there] == delimiter);
        if at < there {
            assert(one.last()[there - at - 1] == text[there]);
            assert(free_of(one.last(), delimiter));
        }
        if there < at {
            assert(other.last()[at - there - 1] == text[at]);
            assert(free_of(other.last(), delimiter));
        }
        assert(one.last() =~= text.subrange(at + 1, text.len() as int));
        assert(other.last() =~= text.subrange(at + 1, text.len() as int));
        assert(joined(one.drop_last(), mark) =~= text.subrange(0, at));
        assert(joined(other.drop_last(), mark) =~= text.subrange(0, at));
        lemma_split_unique(one.drop_last(), other.drop_last(), text.subrange(0, at), delimiter);
        assert(one =~= one.drop_last().push(one.last()));
        assert(other =~= other.drop_last().push(other.last()));
    }
}

/// Splits a text into its cells.
pub fn split_line(text: &str, delimiter: u8) -> (cells: Vec<String>)
    ensures
        cells.deep_view() == split(text@, delimiter as char),
        splits(cells.deep_view(), text@, delimiter as char),
{
    let length = text.unicode_len();
    let mark = delimiter as char;
    let mut cells: Vec<String> = Vec::new();
    let mut start: usize = 0;
    let mut index: usize = 0;
    proof {
        assert(cells.deep_view() =~= Seq::<Seq<char>>::empty());
        lemma_joined_push(cells.deep_view(), text@.subrange(0, 0), seq![mark]);
        assert(text@.subrange(0, 0) =~= Seq::<char>::empty());
    }
    while index < length
        invariant
            start <= index <= length,
            length == text@.len(),
            mark == delimiter as char,
            forall|k: int|
                0 <= k < cells.len() ==> free_of(#[trigger] cells.deep_view()[k], mark),
            free_of(text@.subrange(start as int, index as int), mark),
            joined(
                cells.deep_view().push(text@.subrange(start as int, index as int)),
                seq![mark],
            ) == text@.subrange(0, index as int),
        decreases length - index,
    {
        let ghost found = cells.deep_view();
        let ghost current = text@.subrange(start as int, index as int);
        let character = text.get_char(index);
        proof {
            lemma_joined_push(found, current, seq![mark]);
        }
        if character == mark {
            cells.push(String::from_str(text.substring_char(start, index)));
            start = index + 1;
            proof {
                assert(cells.deep_view() =~= found.push(current));
                let fresh = text@.subrange(start as int, index + 1);
                assert(fresh =~= Seq::<char>::empty());
                lemma_joined_push(cells.deep_view(), fresh, seq![mark]);
                assert(text@.subrange(0, index as int) + seq![mark] + fresh =~= text@.subrange(
                    0,
                    index + 1,
                ));
                assert forall|k: int| 0 <= k < cells.len() implies free_of(
                    #[trigger] cells.deep_view()[k],
                    mark,
                ) by {
                    if k < found.len() {
                        assert(cells.deep_view()[k] == found[k]);
                    }
                }
            }
        } else {
            proof {
                let longer = text@.subrange(start as int, index + 1);
                assert(longer =~= current.push(character));
                lemma_joined_push(found, longer, seq![mark]);
                if found.len() == 0 {
                    assert(longer =~= text@.subrange(0, index + 1));
                } else {
                    let front = joined(found, seq![mark]) + seq![mark];
                    assert(front + current == text@.subrange(0, index as int));
                    assert(text@.subrange(0, index + 1) =~= text@.subrange(0, index as int).push(
                        character,
                    ));
                    assert(front + longer =~= (front + current).push(character));
                }
            }
        }
        index += 1;
    }
    let ghost found = cells.deep_view();
    cells.push(String::from_str(text.substring_char(start, length)));
    proof {
        assert(cells.deep_view() =~= found.push(text@.subrange(start as int, length as int)));
        assert(text@.subrange(0, length as int) =~= text@);
        assert forall|k: int| 0 <= k < cells.len() implies free_of(
            #[trigger] cells.deep_view()[k],
            mark,
        ) by {
            if k < found.len() {
                assert(cells.deep_view()[k] == found[k]);
            }
        }
        assert(splits(cells.deep_view(), text@, mark));
        lemma_split_unique(cells.deep_view(), split(text@, mark), text@, mark);
    }
    cells
}

/// What was read from a line: the time, where the line begins with one, and the
/// cells.
#[derive(Clone, Debug)]
pub struct Reading {
    pub timestamp: Option<Nanos>,
    pub cells: Vec<Cell>,
}

/// What a reading says.
pub struct ReadingView {
    pub timestamp: Option<Nanos>,
    pub cells: Seq<CellView>,
}

impl View for Reading {
    type V = ReadingView;

    open spec fn view(&self) -> ReadingView {
        ReadingView { timestamp: self.timestamp, cells: cell_views(self.cells@) }
    }
}

/// A line without the end of the line, where it has one.
pub open spec fn body_of(line: Seq<char>) -> Seq<char> {
    if line.len() > 0 && line.last() == '\n' {
        line.drop_last()
    } else {
        line
    }
}

/// Whether column `k` is the first whose cell cannot be read; the cells of the
/// columns come after `lead` other cells.
pub open spec fn first_unread(
    texts: Seq<Seq<char>>,
    types: Seq<FieldType>,
    lead: int,
    k: int,
) -> bool {
    &&& 0 <= k < types.len()
    &&& cell_reading(texts[lead + k], types[k]) is Err
    &&& forall|j: int| 0 <= j < k ==> (#[trigger] cell_reading(texts[lead + j], types[j])) is Ok
}

/// Why the first cell that cannot be read cannot, if there is one.
pub open spec fn first_failure(texts: Seq<Seq<char>>, types: Seq<FieldType>, lead: int) -> Option<
    Error,
> {
    if exists|k: int| first_unread(texts, types, lead, k) {
        let k = choose|k: int| first_unread(texts, types, lead, k);
        Some(cell_reading(texts[lead + k], types[k])->Err_0)
    } else {
        None
    }
}

/// What a line is in columns of the given types. The line is taken without its
/// end and split at the delimiter; a line for no cell at all must be empty.
/// There must be one cell for each column, after one for the time where the
/// line begins with its time: else the line does not fit. The time is a natural
/// number in decimal that fits. Each cell is read in its column; the first that
/// cannot be read says why the line cannot.
pub open spec fn row_reading(
    line: Seq<char>,
    types: Seq<FieldType>,
    delimiter: char,
    with_timestamp: bool,
) -> Result<ReadingView, Error> {
    let body = body_of(line);
    let lead: int = if with_timestamp {
        1
    } else {
        0
    };
    let texts = if lead + types.len() == 0 && body.len() == 0 {
        Seq::empty()
    } else {
        split(body, delimiter)
    };
    if texts.len() != lead + types.len() {
        Err(Error::SchemaMismatch)
    } else if with_timestamp && !(decimal_reading(texts[0]) matches Some(time) && time
        <= u64::MAX) {
        Err(Error::MalformedValue)
    } else {
        match first_failure(texts, types, lead) {
            Some(error) => Err(error),
            None => Ok(
                ReadingView {
                    timestamp: if with_timestamp {
                        Some(decimal_reading(texts[0])->0 as u64)
                    } else {
                        None
                    },
                    cells: Seq::new(
                        types.len(),
                        |k: int| cell_reading(texts[lead + k], types[k])->Ok_0,
                    ),
                },
            ),
        }
    }
}

/// Reads a line in the columns of a header.
pub fn read_row(line: &str, header: &Header, delimiter: u8, with_timestamp: bool) -> (reading:
    CliResult<Reading>)
    ensures
        match reading {
            Ok(reading) => row_reading(
                line@,
                header@.field_types,
                delimiter as char,
                with_timestamp,
            ) == Ok::<ReadingView, Error>(reading@),
            Err(error) => row_reading(line@, header@.field_types, delimiter as char, with_timestamp)
                == Err::<ReadingView, Error>(error),
        },
{
    let types = header.field_types();
    let length = line.unicode_len();
    let body = if length > 0 && line.get_char(length - 1) == '\n' {
        line.substring_char(0, length - 1)
    } else {
        line
    };
    assert(body@ =~= body_of(line@));
    let lead: usize = if with_timestamp {
        1
    } else {
        0
    };
    let texts: Vec<String> = if lead == 0 && types.len() == 0 && body.unicode_len() == 0 {
        Vec::new()
    } else {
        split_line(body, delimiter)
    };
    assert(texts.deep_view() =~= if lead + types.len() == 0 && body@.len() == 0 {
        Seq::<Seq<char>>::empty()
    } else {
        split(body@, delimiter as char)
    });
    assert(texts.deep_view().len() == texts.len());
    if types.len() > usize::MAX - lead || texts.len() != lead + types.len() {
        return Err(Error::SchemaMismatch);
    }
    let timestamp = if with_timestamp {
        assert(texts.deep_view()[0] == texts[0]@);
        match parse_decimal(texts[0].as_str()) {
            Some(time) => Some(time),
            None => {
                return Err(Error::MalformedValue);
            },
        }
    } else {
        None
    };
    let mut cells: Vec<Cell> = Vec::new();
    let mut index: usize = 0;
    while index < types.len()
        invariant
            index <= types.len(),
            lead == if with_timestamp {
                1usize
            } else {
                0usize
            },
            texts.len() == lead + types.len(),
            texts.deep_view() == if lead + types.len() == 0 && body_of(line@).len() == 0 {
                Seq::<Seq<char>>::empty()
            } else {
                split(body_of(line@), delimiter as char)
            },
            with_timestamp ==> timestamp is Some && decimal_reading(texts.deep_view()[0]) == Some(
                timestamp->0 as nat,
            ),
            !with_timestamp ==> timestamp is None,
            types@ == header@.field_types,
            cells.len() == index,
            forall|j: int|
                0 <= j < index ==> cell_reading(texts.deep_view()[lead + j], types[j]) == Ok::<
                    CellView,
                    Error,
                >((#[trigger] cells[j])@),
        decreases types.len() - index,
    {
        assert(texts.deep_view()[lead + index] == texts[lead + index]@);
        match read_cell(texts[lead + index].as_str(), types[index]) {
            Ok(cell) => {
                cells.push(cell);
            },
            Err(error) => {
                proof {
                    let all = texts.deep_view();
                    assert forall|j: int| 0 <= j < index implies (#[trigger] cell_reading(
                        all[lead + j],
                        types@[j],
                    )) is Ok by {
                        assert(cell_reading(all[lead + j], types[j]) == Ok::<CellView, Error>(
                            cells[j]@,
                        ));
                    }
                    let lead_int: int = if with_timestamp {
                        1
                    } else {
                        0
                    };
                    assert(first_unread(all, types@, lead_int, index as int));
                    let chosen = choose|k: int| first_unread(all, types@, lead_int, k);
                    if chosen < index {
                        assert(cell_reading(all[lead + chosen], types@[chosen]) is Ok);
                    }
                    if index < chosen {
                        assert(cell_reading(all[lead + index], types@[index as int]) is Ok);
                    }
                    assert(first_failure(all, types@, lead_int) == Some(error));
                }
                return Err(error);
            },
        }
        index += 1;
    }
    proof {
        let all = texts.deep_view();
        assert forall|k: int| !first_unread(all, types@, lead as int, k) by {
            if first_unread(all, types@, lead as int, k) {
                assert(cell_reading(all[lead + k], types[k]) == Ok::<CellView, Error>(cells[k]@));
            }
        }
        assert(first_failure(all, types@, lead as int) is None);
        assert(cell_views(cells@) =~= Seq::new(
            types.len() as nat,
            |k: int| cell_reading(all[lead + k], types@[k])->Ok_0,
        ));
    }
    Ok(Reading { timestamp, cells })
}

/// The text of a fragment, where `double_text` and `float_text` give the
/// texts of the floating-point numbers.
pub open spec fn fragment_text(
    fragment: Fragment,
    double_text: spec_fn(u64) -> Seq<char>,
    float_text: spec_fn(u32) -> Seq<char>,
) -> Seq<char> {
    match fragment {
        Fragment::Text(text) => text,
        Fragment::Double(bits) => double_text(bits),
        Fragment::Float(bits) => float_text(bits),
    }
}

/// The text of a list of fragments, where `double_text` and `float_text` give
/// the texts of the floating-point numbers.
pub open spec fn text_with(
    fragments: Seq<Fragment>,
    double_text: spec_fn(u64) -> Seq<char>,
    float_text: spec_fn(u32) -> Seq<char>,
) -> Seq<char>
    decreases fragments.len(),
{
    if fragments.len() == 0 {
        Seq::empty()
    } else {
        text_with(fragments.drop_last(), double_text, float_text) + fragment_text(
            fragments.last(),
            double_text,
            float_text,
        )
    }
}

/// The text of the cell of a value.
pub open spec fn cell_text(
    value: FieldValue,
    double_text: spec_fn(u64) -> Seq<char>,
    float_text: spec_fn(u32) -> Seq<char>,
) -> Seq<char> {
    match cell(value) {
        Ok(fragment) => fragment_text(fragment, double_text, float_text),
        Err(_) => Seq::empty(),
    }
}

/// The texts of the cells of a line: the time, where the line begins with it,
/// and the values.
pub open spec fn cell_texts(
    time: Nanos,
    values: Seq<FieldValue>,
    leading: bool,
    double_text: spec_fn(u64) -> Seq<char>,
    float_text: spec_fn(u32) -> Seq<char>,
) -> Seq<Seq<char>> {
    (if leading {
        seq![decimal(time as nat)]
    } else {
        Seq::empty()
    }) + Seq::new(values.len(), |k: int| cell_text(values[k], double_text, float_text))
}

/// What a value is read back as: itself, or for a floating-point number the
/// text that was written for it.
pub open spec fn read_back(
    value: FieldValue,
    double_text: spec_fn(u64) -> Seq<char>,
    float_text: spec_fn(u32) -> Seq<char>,
) -> CellView {
    match value {
        FieldValue::Double(bits) => CellView::Double(double_text(bits)),
        FieldValue::Float(bits) => CellView::Float(float_text(bits)),
        _ => CellView::Value(value@),
    }
}

/// Whether a value can be read back from its cell in a line with the given
/// delimiter: its type is not reserved, the text of its cell holds no
/// delimiter, and the text is not empty where the value is a text or a
/// floating-point number, since an empty cell reads as an absent value.
pub open spec fn reads_back(
    value: FieldValue,
    delimiter: char,
    double_text: spec_fn(u64) -> Seq<char>,
    float_text: spec_fn(u32) -> Seq<char>,
) -> bool {
    &&& value.reserved() is None
    &&& free_of(cell_text(value, double_text, float_text), delimiter)
    &&& match value {
        FieldValue::String(text) => text@.len() > 0,
        FieldValue::Double(bits) => double_text(bits).len() > 0,
        FieldValue::Float(bits) => float_text(bits).len() > 0,
        _ => true,
    }
}

/// A natural number in decimal holds no character that is no digit.
pub proof fn lemma_decimal_free(n: nat, delimiter: char)
    requires
        !is_digit(delimiter),
    ensures
        free_of(decimal(n), delimiter),
{
    lemma_decimal_reads_back(n);
}

/// An integer in decimal holds no character that is neither a digit nor the
/// minus sign.
pub proof fn lemma_signed_decimal_free(n: int, delimiter: char)
    requires
        !is_digit(delimiter),
        delimiter != '-',
    ensures
        free_of(signed_decimal(n), delimiter),
{
    if n < 0 {
        lemma_decimal_free((-n) as nat, delimiter);
        assert forall|i: int| 0 <= i < signed_decimal(n).len() implies #[trigger] signed_decimal(
            n,
        )[i] != delimiter by {
            if i > 0 {
                assert(signed_decimal(n)[i] == decimal((-n) as nat)[i - 1]);
            }
        }
    } else {
        lemma_decimal_free(n as nat, delimiter);
    }
}

/// Reading the text of the cell of a value that can be read back, in a column
/// that the value fits, gives the value back.
pub proof fn lemma_cell_reads_back(
    value: FieldValue,
    field_type: FieldType,
    delimiter: char,
    double_text: spec_fn(u64) -> Seq<char>,
    float_text: spec_fn(u32) -> Seq<char>,
)
    requires
        reads_back(value, delimiter, double_text, float_text),
        fits(value, field_type),
        field_type.supported(),
    ensures
        cell(value) is Ok,
        cell_reading(cell_text(value, double_text, float_text), field_type) == Ok::<
            CellView,
            Error,
        >(read_back(value, double_text, float_text)),
{
    match value {
        FieldValue::Byte(x) => {
            lemma_decimal_reads_back(x as nat);
        },
        FieldValue::Char(x) => {
            lemma_decimal_reads_back(x as nat);
        },
        FieldValue::Int(x) => {
            lemma_signed_decimal_reads_back(x as int);
        },
        FieldValue::Long(x) => {
            lemma_signed_decimal_reads_back(x as int);
        },
        FieldValue::Short(x) => {
            lemma_signed_decimal_reads_back(x as int);
        },
        _ => {},
    }
}

/// One more fragment adds its text to the text of the fragments before it.
pub proof fn lemma_text_with_push(
    fragments: Seq<Fragment>,
    fragment: Fragment,
    double_text: spec_fn(u64) -> Seq<char>,
    float_text: spec_fn(u32) -> Seq<char>,
)
    ensures
        text_with(fragments.push(fragment), double_text, float_text) == text_with(
            fragments,
            double_text,
            float_text,
        ) + fragment_text(fragment, double_text, float_text),
{
    assert(fragments.push(fragment).drop_last() =~= fragments);
}

/// Fragments that hold no number have the same text, whatever the texts of
/// numbers are.
pub proof fn lemma_text_of_is_text_with(
    fragments: Seq<Fragment>,
    double_text: spec_fn(u64) -> Seq<char>,
    float_text: spec_fn(u32) -> Seq<char>,
)
    requires
        text_of(fragments) is Some,
    ensures
        text_of(fragments) == Some(text_with(fragments, double_text, float_text)),
    decreases fragments.len(),
{
    if fragments.len() > 0 {
        lemma_text_of_is_text_with(fragments.drop_last(), double_text, float_text);
    }
}

/// The text of the fragments of the first cells of a line is that of the cells
/// with the delimiter between them.
proof fn lemma_cells_text(
    time: Nanos,
    values: Seq<FieldValue>,
    count: int,
    delimiter: char,
    leading: bool,
    double_text: spec_fn(u64) -> Seq<char>,
    float_text: spec_fn(u32) -> Seq<char>,
)
    requires
        0 <= count <= values.len(),
        forall|k: int| 0 <= k < values.len() ==> cell(#[trigger] values[k]) is Ok,
    ensures
        text_with(
            (if leading {
                seq![Fragment::Text(decimal(time as nat))]
            } else {
                Seq::empty()
            }) + cells(values, count, seq![delimiter], leading),
            double_text,
            float_text,
        ) == joined(
            cell_texts(time, values, leading, double_text, float_text).subrange(
                0,
                (if leading {
                    1int
                } else {
                    0int
                }) + count,
            ),
            seq![delimiter],
        ),
    decreases count,
{
    let lead: int = if leading {
        1
    } else {
        0
    };
    let front: Seq<Fragment> = if leading {
        seq![Fragment::Text(decimal(time as nat))]
    } else {
        Seq::empty()
    };
    let texts = cell_texts(time, values, leading, double_text, float_text);
    let mark = seq![delimiter];
    if count == 0 {
        assert(front + cells(values, 0, mark, leading) =~= front);
        if leading {
            lemma_text_with_push(
                Seq::empty(),
                Fragment::Text(decimal(time as nat)),
                double_text,
                float_text,
            );
            assert(Seq::<Fragment>::empty().push(Fragment::Text(decimal(time as nat))) =~= front);
            assert(Seq::<char>::empty() + decimal(time as nat) =~= decimal(time as nat));
            assert(texts.subrange(0, 1) =~= seq![decimal(time as nat)]);
        } else {
            assert(texts.subrange(0, 0) =~= Seq::<Seq<char>>::empty());
        }
    } else {
        lemma_cells_text(time, values, count - 1, delimiter, leading, double_text, float_text);
        let before = front + cells(values, count - 1, mark, leading);
        let shown = texts.subrange(0, lead + count - 1);
        let held = cell(values[count - 1])->Ok_0;
        let text = cell_text(values[count - 1], double_text, float_text);
        assert(cell(values[count - 1]) is Ok);
        assert(fragment_text(held, double_text, float_text) == text);
        assert(texts.subrange(0, lead + count) =~= shown.push(text));
        lemma_joined_push(shown, text, mark);
        if leading || count > 1 {
            assert(front + cells(values, count, mark, leading) =~= before.push(
                Fragment::Text(mark),
            ).push(held));
            lemma_text_with_push(before, Fragment::Text(mark), double_text, float_text);
            lemma_text_with_push(
                before.push(Fragment::Text(mark)),
                held,
                double_text,
                float_text,
            );
        } else {
            assert(front + cells(values, count, mark, leading) =~= before.push(held));
            lemma_text_with_push(before, held, double_text, float_text);
            assert(Seq::<char>::empty() + text =~= text);
        }
    }
}

/// A row that is rendered as a line and read back is the same row.
///
/// The texts of the floating-point numbers are whatever `double_text` and
/// `float_text` say; a floating-point number is read back as the text that was
/// written for it. The row conforms to the header, no column has a reserved
/// type, and every value can be read back: an empty text, which reads back as
/// an absent value, is left out, and so is a value whose cell holds the
/// delimiter. The delimiter is a single character, and the time holds none
/// where the line begins with its time. Then the row has a line, and reading
/// the text of the line in the columns of the header gives the values of the
/// row, and its time where the line begins with it.
pub proof fn lemma_row_reads_back(
    row: Row,
    header: HeaderView,
    config: CSVOutputConfigView,
    delimiter: char,
    double_text: spec_fn(u64) -> Seq<char>,
    float_text: spec_fn(u32) -> Seq<char>,
)
    requires
        config.delimiter == seq![delimiter],
        config.print_timestamp ==> free_of(decimal(row.timestamp as nat), delimiter),
        row.conforms(header),
        forall|k: int|
            0 <= k < header.field_types.len() ==> (#[trigger] header.field_types[k]).supported(),
        forall|k: int|
            0 <= k < row.field_values.len() ==> reads_back(
                #[trigger] row.field_values[k],
                delimiter,
                double_text,
                float_text,
            ),
    ensures
        row_line(row, config) is Ok,
        row_reading(
            text_with(row_line(row, config)->Ok_0, double_text, float_text),
            header.field_types,
            delimiter,
            config.print_timestamp,
        ) == Ok::<ReadingView, Error>(
            ReadingView {
                timestamp: if config.print_timestamp {
                    Some(row.timestamp)
                } else {
                    None
                },
                cells: Seq::new(
                    row.field_values.len() as nat,
                    |k: int| read_back(row.field_values[k], double_text, float_text),
                ),
            },
        ),
{
    let values = row.field_values@;
    let types = header.field_types;
    let leading = config.print_timestamp;
    let lead: int = if leading {
        1
    } else {
        0
    };
    let mark = seq![delimiter];
    let texts = cell_texts(row.timestamp, values, leading, double_text, float_text);
    assert forall|k: int| 0 <= k < values.len() implies {
        &&& cell(#[trigger] values[k]) is Ok
        &&& free_of(cell_text(values[k], double_text, float_text), delimiter)
        &&& cell_reading(cell_text(values[k], double_text, float_text), types[k]) == Ok::<
            CellView,
            Error,
        >(read_back(values[k], double_text, float_text))
    } by {
        assert(fits(row.field_values[k], types[k]));
        assert(reads_back(row.field_values[k], delimiter, double_text, float_text));
        lemma_cell_reads_back(values[k], types[k], delimiter, double_text, float_text);
    }
    assert forall|i: int| !first_failing(values, i) by {
        if first_failing(values, i) {
            assert(cell(values[i]) is Ok);
        }
    }
    assert(first_unsupported(values) is None);
    lemma_cells_text(
        row.timestamp,
        values,
        values.len() as int,
        delimiter,
        leading,
        double_text,
        float_text,
    );
    let front: Seq<Fragment> = if leading {
        seq![Fragment::Text(decimal(row.timestamp as nat))]
    } else {
        Seq::empty()
    };
    let shown = front + cells(values, values.len() as int, mark, leading);
    let body = joined(texts, mark);
    assert(texts.subrange(0, lead + values.len()) =~= texts);
    assert(text_with(shown, double_text, float_text) == body);
    let fragments = row_line(row, config)->Ok_0;
    assert(fragments =~= shown.push(Fragment::Text(line_end())));
    lemma_text_with_push(shown, Fragment::Text(line_end()), double_text, float_text);
    let line = body + line_end();
    assert(text_with(fragments, double_text, float_text) == line);
    assert(body_of(line) =~= body);
    lemma_decimal_reads_back(row.timestamp as nat);
    let read = if lead + types.len() == 0 && body.len() == 0 {
        Seq::<Seq<char>>::empty()
    } else {
        split(body, delimiter)
    };
    if lead + types.len() == 0 {
        assert(texts =~= Seq::<Seq<char>>::empty());
        assert(body.len() == 0);
    } else {
        assert forall|k: int| 0 <= k < texts.len() implies free_of(
            #[trigger] texts[k],
            delimiter,
        ) by {
            if leading && k == 0 {
            } else {
                assert(texts[k] == cell_text(values[k - lead], double_text, float_text));
            }
        }
        assert(splits(texts, body, delimiter));
        lemma_split_unique(texts, split(body, delimiter), body, delimiter);
    }
    assert(read == texts);
    assert forall|k: int| !first_unread(texts, types, lead, k) by {
        if first_unread(texts, types, lead, k) {
            assert(texts[lead + k] == cell_text(values[k], double_text, float_text));
            assert(cell_reading(cell_text(values[k], double_text, float_text), types[k]) is Ok);
        }
    }
    assert(first_failure(texts, types, lead) is None);
    assert(Seq::new(types.len(), |k: int| cell_reading(texts[lead + k], types[k])->Ok_0)
        =~= Seq::new(
        row.field_values.len() as nat,
        |k: int| read_back(row.field_values[k], double_text, float_text),
    )) by {
        assert forall|k: int| 0 <= k < types.len() implies cell_reading(
            texts[lead + k],
            types[k],
        )->Ok_0 == read_back(row.field_values[k], double_text, float_text) by {
            assert(texts[lead + k] == cell_text(values[k], double_text, float_text));
        }
    }
}

} // verus!
