//! Rows, their values, the headers that describe them, and the time window.

use crate::error::{CliResult, Error};
use crate::util::decimal::{decimal, decimal_text, signed_decimal, signed_decimal_text};
use crate::util::float_order::{
    compare_doubles, compare_floats, double_order, doubles_equal, equal_doubles, equal_floats,
    float_order, floats_equal,
};
use std::cmp::Ordering;
use vstd::prelude::*;
use vstd::std_specs::cmp::PartialEqSpecImpl;
use vstd::string::*;

verus! {

/// A point in time, in nanoseconds.
pub type Nanos = u64;

/// Where a point in time lies with respect to a time window.
#[derive(PartialEq, Eq, Structural, Clone, Copy, Debug)]
pub enum Placement {
    /// Before the window begins.
    Early,
    /// Inside the window, its bounds included.
    Within,
    /// After the window ends.
    Late,
}

/// A time window. A bound that is absent leaves that side open; a bound that is
/// present belongs to the window.
#[derive(Clone, Copy, Debug)]
pub struct TimestampRange {
    pub begin: Option<Nanos>,
    pub end: Option<Nanos>,
}

impl TimestampRange {
    /// Whether `timestamp` is before the window.
    pub open spec fn is_early(self, timestamp: Nanos) -> bool {
        self.begin matches Some(begin) && timestamp < begin
    }

    /// Whether `timestamp` is after the window.
    pub open spec fn is_late(self, timestamp: Nanos) -> bool {
        self.end matches Some(end) && timestamp > end
    }

    /// Whether `timestamp` is inside the window.
    pub open spec fn admits(self, timestamp: Nanos) -> bool {
        !self.is_early(timestamp) && !self.is_late(timestamp)
    }

    /// Where `timestamp` lies. A point before the beginning is early even when
    /// it is also after the end.
    pub open spec fn placement(self, timestamp: Nanos) -> Placement {
        if self.is_early(timestamp) {
            Placement::Early
        } else if self.is_late(timestamp) {
            Placement::Late
        } else {
            Placement::Within
        }
    }

    /// The window from the outcomes of reading its two bounds. A bound that was
    /// not given is `None`. Where a bound could not be read, its failure is
    /// returned, that of the beginning before that of the end.
    pub fn new(begin: Option<CliResult<Nanos>>, end: Option<CliResult<Nanos>>) -> (range: CliResult<
        Self,
    >)
        ensures
            match (begin, end) {
                (Some(Err(failure)), _) => range == Err::<Self, Error>(failure),
                (_, Some(Err(failure))) => range == Err::<Self, Error>(failure),
                (Some(Ok(first)), Some(Ok(last))) => range == Ok::<Self, Error>(
                    (TimestampRange { begin: Some(first), end: Some(last) }),
                ),
                (Some(Ok(first)), None) => range == Ok::<Self, Error>(
                    (TimestampRange { begin: Some(first), end: None }),
                ),
                (None, Some(Ok(last))) => range == Ok::<Self, Error>(
                    (TimestampRange { begin: None, end: Some(last) }),
                ),
                (None, None) => range == Ok::<Self, Error>(
                    (TimestampRange { begin: None, end: None }),
                ),
            },
    {
        let begin = match begin {
            Some(Ok(first)) => Some(first),
            Some(Err(failure)) => {
                return Err(failure);
            },
            None => None,
        };
        let end = match end {
            Some(Ok(last)) => Some(last),
            Some(Err(failure)) => {
                return Err(failure);
            },
            None => None,
        };
        Ok(TimestampRange { begin, end })
    }

    /// The window that is open on both sides.
    pub fn unbounded() -> (range: Self)
        ensures
            range.begin is None,
            range.end is None,
    {
        TimestampRange { begin: None, end: None }
    }

    /// Tells where `timestamp` lies with respect to the window.
    pub fn place(&self, timestamp: Nanos) -> (placement: Placement)
        ensures
            placement == self.placement(timestamp),
    {
        if let Some(begin) = self.begin {
            if timestamp < begin {
                return Placement::Early;
            }
        }
        if let Some(end) = self.end {
            if timestamp > end {
                return Placement::Late;
            }
        }
        Placement::Within
    }
}

/// The type of one column.
#[derive(PartialEq, Eq, Structural, Hash, Clone, Copy, Debug)]
pub enum FieldType {
    Boolean,
    Byte,
    ByteBuf,
    Char,
    Double,
    Float,
    Int,
    Long,
    Short,
    String,
}

impl FieldType {
    /// Whether values of this type can be ordered, compared and rendered: all
    /// types but the two reserved ones.
    pub open spec fn supported(self) -> bool {
        !(self is Boolean) && !(self is ByteBuf)
    }

    /// The name of the type.
    pub open spec fn title(self) -> Seq<char> {
        match self {
            FieldType::Boolean => seq!['b', 'o', 'o', 'l', 'e', 'a', 'n'],
            FieldType::Byte => seq!['b', 'y', 't', 'e'],
            FieldType::ByteBuf => seq!['b', 'y', 't', 'e', 'b', 'u', 'f', 'f', 'e', 'r'],
            FieldType::Char => seq!['c', 'h', 'a', 'r'],
            FieldType::Double => seq!['d', 'o', 'u', 'b', 'l', 'e'],
            FieldType::Float => seq!['f', 'l', 'o', 'a', 't'],
            FieldType::Int => seq!['i', 'n', 't'],
            FieldType::Long => seq!['l', 'o', 'n', 'g'],
            FieldType::Short => seq!['s', 'h', 'o', 'r', 't'],
            FieldType::String => seq!['s', 't', 'r', 'i', 'n', 'g'],
        }
    }

    /// The name of the type.
    pub fn name(&self) -> (name: &'static str)
        ensures
            name@ == self.title(),
    {
        proof {
            reveal_strlit("boolean");
            reveal_strlit("byte");
            reveal_strlit("bytebuffer");
            reveal_strlit("char");
            reveal_strlit("double");
            reveal_strlit("float");
            reveal_strlit("int");
            reveal_strlit("long");
            reveal_strlit("short");
            reveal_strlit("string");
        }
        let name = match self {
            FieldType::Boolean => "boolean",
            FieldType::Byte => "byte",
            FieldType::ByteBuf => "bytebuffer",
            FieldType::Char => "char",
            FieldType::Double => "double",
            FieldType::Float => "float",
            FieldType::Int => "int",
            FieldType::Long => "long",
            FieldType::Short => "short",
            FieldType::String => "string",
        };
        assert(name@ =~= self.title());
        name
    }

    /// Tells whether values of this type can be ordered, compared and rendered.
    pub fn is_supported(&self) -> (supported: bool)
        ensures
            supported == self.supported(),
    {
        match self {
            FieldType::Boolean => false,
            FieldType::ByteBuf => false,
            _ => true,
        }
    }
}

/// What a header says: the names of the columns and, position by position,
/// their types.
pub struct HeaderView {
    pub field_names: Seq<Seq<char>>,
    pub field_types: Seq<FieldType>,
}

/// The schema of a row: column names paired by position with column types.
#[derive(Clone, Debug)]
pub struct Header {
    field_names: Vec<String>,
    field_types: Vec<FieldType>,
}

impl View for Header {
    type V = HeaderView;

    closed spec fn view(&self) -> HeaderView {
        HeaderView { field_names: self.field_names.deep_view(), field_types: self.field_types@ }
    }
}

impl Header {
    /// Whether the header has as many names as types.
    pub open spec fn well_formed(self) -> bool {
        self@.field_names.len() == self@.field_types.len()
    }

    /// A header of the given columns.
    pub fn new(field_names: Vec<String>, field_types: Vec<FieldType>) -> (header: Self)
        requires
            field_names.len() == field_types.len(),
        ensures
            header@.field_names == field_names.deep_view(),
            header@.field_types == field_types@,
            header.well_formed(),
    {
        Header { field_names, field_types }
    }

    /// The names of the columns.
    pub fn field_names(&self) -> (names: &Vec<String>)
        ensures
            names.deep_view() == self@.field_names,
    {
        &self.field_names
    }

    /// The types of the columns.
    pub fn field_types(&self) -> (types: &Vec<FieldType>)
        ensures
            types@ == self@.field_types,
    {
        &self.field_types
    }

    /// The names of the columns, to be changed in place. The types stay as they
    /// are: the caller keeps the two lists of one length.
    pub fn field_names_mut(&mut self) -> (names: &mut Vec<String>)
        ensures
            names.deep_view() == old(self)@.field_names,
            final(self)@.field_names == final(names).deep_view(),
            final(self)@.field_types == old(self)@.field_types,
    {
        &mut self.field_names
    }

    /// The types of the columns, to be changed in place. The names stay as they
    /// are: the caller keeps the two lists of one length.
    pub fn field_types_mut(&mut self) -> (types: &mut Vec<FieldType>)
        ensures
            types@ == old(self)@.field_types,
            final(self)@.field_types == final(types)@,
            final(self)@.field_names == old(self)@.field_names,
    {
        &mut self.field_types
    }

    /// A copy of the header.
    pub fn duplicate(&self) -> (copy: Self)
        ensures
            copy@ == self@,
    {
        let mut field_names: Vec<String> = Vec::new();
        let mut index: usize = 0;
        while index < self.field_names.len()
            invariant
                index <= self.field_names.len(),
                field_names.len() == index,
                forall|i: int| 0 <= i < index ==> field_names[i]@ == self.field_names[i]@,
            decreases self.field_names.len() - index,
        {
            field_names.push(self.field_names[index].clone());
            index += 1;
        }
        let mut field_types: Vec<FieldType> = Vec::new();
        let mut index: usize = 0;
        while index < self.field_types.len()
            invariant
                index <= self.field_types.len(),
                field_types.len() == index,
                forall|i: int| 0 <= i < index ==> field_types[i] == self.field_types[i],
            decreases self.field_types.len() - index,
        {
            field_types.push(self.field_types[index]);
            index += 1;
        }
        assert(field_names.deep_view() =~= self.field_names.deep_view());
        assert(field_types@ =~= self.field_types@);
        Header { field_names, field_types }
    }

    /// Tells whether two headers have the same column types in the same order.
    pub fn same_types(&self, other: &Header) -> (same: bool)
        ensures
            same == (self@.field_types == other@.field_types),
    {
        if self.field_types.len() != other.field_types.len() {
            assert(self@.field_types.len() != other@.field_types.len());
            return false;
        }
        let mut index: usize = 0;
        while index < self.field_types.len()
            invariant
                index <= self.field_types.len(),
                self.field_types.len() == other.field_types.len(),
                forall|i: int| 0 <= i < index ==> self.field_types[i] == other.field_types[i],
            decreases self.field_types.len() - index,
        {
            if self.field_types[index] != other.field_types[index] {
                assert(self@.field_types[index as int] != other@.field_types[index as int]);
                return false;
            }
            index += 1;
        }
        assert(self@.field_types =~= other@.field_types);
        true
    }

    /// Tells whether the header has as many names as types.
    pub fn is_well_formed(&self) -> (well_formed: bool)
        ensures
            well_formed == self.well_formed(),
    {
        self.field_names.len() == self.field_types.len()
    }

    /// The number of columns: the number of column types.
    pub fn width(&self) -> (width: usize)
        ensures
            width == self@.field_types.len(),
    {
        self.field_types.len()
    }
}

impl PartialEq for Header {
    /// Two headers are equal when they have the same names and the same types,
    /// in the same order.
    fn eq(&self, other: &Header) -> (equal: bool) {
        if self.field_names.len() != other.field_names.len() {
            assert(self@.field_names.len() != other@.field_names.len());
            return false;
        }
        if self.field_types.len() != other.field_types.len() {
            assert(self@.field_types.len() != other@.field_types.len());
            return false;
        }
        let mut index: usize = 0;
        while index < self.field_names.len()
            invariant
                index <= self.field_names.len(),
                self.field_names.len() == other.field_names.len(),
                forall|i: int|
                    0 <= i < index ==> self.field_names[i]@ == other.field_names[i]@,
            decreases self.field_names.len() - index,
        {
            if self.field_names[index] != other.field_names[index] {
                assert(self@.field_names[index as int] != other@.field_names[index as int]);
                return false;
            }
            index += 1;
        }
        assert(self@.field_names =~= other@.field_names);
        let mut index: usize = 0;
        while index < self.field_types.len()
            invariant
                index <= self.field_types.len(),
                self.field_types.len() == other.field_types.len(),
                forall|i: int| 0 <= i < index ==> self.field_types[i] == other.field_types[i],
            decreases self.field_types.len() - index,
        {
            if self.field_types[index] != other.field_types[index] {
                assert(self@.field_types[index as int] != other@.field_types[index as int]);
                return false;
            }
            index += 1;
        }
        assert(self@.field_types =~= other@.field_types);
        true
    }
}

impl PartialEqSpecImpl for Header {
    open spec fn obeys_eq_spec() -> bool {
        true
    }

    open spec fn eq_spec(&self, other: &Header) -> bool {
        self@ == other@
    }
}

/// One part of a rendered text: characters, or a floating-point number that
/// whoever writes the text out formats.
#[derive(PartialEq, Eq, Clone, Debug)]
pub enum Piece {
    /// Characters to be written as they are.
    Text(String),
    /// A double, given by its IEEE 754 bits.
    Double(u64),
    /// A single-precision number, given by its IEEE 754 bits.
    Float(u32),
}

/// What a piece says.
pub enum Fragment {
    Text(Seq<char>),
    Double(u64),
    Float(u32),
}

impl View for Piece {
    type V = Fragment;

    open spec fn view(&self) -> Fragment {
        match *self {
            Piece::Text(text) => Fragment::Text(text@),
            Piece::Double(bits) => Fragment::Double(bits),
            Piece::Float(bits) => Fragment::Float(bits),
        }
    }
}

/// What a list of pieces says, piece by piece.
pub open spec fn fragments(pieces: Seq<Piece>) -> Seq<Fragment> {
    pieces.map_values(|piece: Piece| piece@)
}

/// The text of a list of fragments that holds no number.
pub open spec fn text_of(fragments: Seq<Fragment>) -> Option<Seq<char>>
    decreases fragments.len(),
{
    if fragments.len() == 0 {
        Some(Seq::empty())
    } else {
        match (text_of(fragments.drop_last()), fragments.last()) {
            (Some(before), Fragment::Text(text)) => Some(before + text),
            _ => None,
        }
    }
}

/// Puts the pieces together to one text, where no number is among them.
pub fn flatten(pieces: &Vec<Piece>) -> (text: Option<String>)
    ensures
        match text {
            Some(text) => text_of(fragments(pieces@)) == Some(text@),
            None => text_of(fragments(pieces@)) is None,
        },
{
    let mut text = String::new();
    let mut index: usize = 0;
    assert(fragments(pieces@).subrange(0, 0) =~= Seq::<Fragment>::empty());
    while index < pieces.len()
        invariant
            index <= pieces.len(),
            text_of(fragments(pieces@).subrange(0, index as int)) == Some(text@),
        decreases pieces.len() - index,
    {
        let ghost all = fragments(pieces@);
        proof {
            assert(all.subrange(0, index + 1).drop_last() =~= all.subrange(0, index as int));
            assert(all.subrange(0, index + 1).last() == pieces[index as int]@);
        }
        match &pieces[index] {
            Piece::Text(part) => {
                text.append(part.as_str());
            },
            _ => {
                proof {
                    lemma_text_of_prefix(all, index + 1);
                }
                return None;
            },
        }
        index += 1;
    }
    assert(fragments(pieces@).subrange(0, index as int) =~= fragments(pieces@));
    Some(text)
}

/// Fragments of which the first few have no text have no text.
pub proof fn lemma_text_of_prefix(fragments: Seq<Fragment>, length: int)
    requires
        0 <= length <= fragments.len(),
        text_of(fragments.subrange(0, length)) is None,
    ensures
        text_of(fragments) is None,
    decreases fragments.len() - length,
{
    if length == fragments.len() {
        assert(fragments.subrange(0, length) =~= fragments);
    } else {
        assert(fragments.subrange(0, length + 1).drop_last() =~= fragments.subrange(0, length));
        lemma_text_of_prefix(fragments, length + 1);
    }
}

/// One value of a row. The two floating-point variants hold the IEEE 754 bits of
/// their number.
#[derive(Clone, Debug)]
pub enum FieldValue {
    Boolean(bool),
    Byte(u8),
    ByteBuf(Vec<u8>),
    Char(u16),
    Double(u64),
    Float(u32),
    Int(i32),
    Long(i64),
    Short(i16),
    String(String),
    /// No value.
    Absent,
}

/// What a value says.
pub enum FieldValueView {
    Boolean(bool),
    Byte(u8),
    ByteBuf(Seq<u8>),
    Char(u16),
    Double(u64),
    Float(u32),
    Int(i32),
    Long(i64),
    Short(i16),
    String(Seq<char>),
    Absent,
}

impl View for FieldValue {
    type V = FieldValueView;

    open spec fn view(&self) -> FieldValueView {
        match *self {
            FieldValue::Boolean(x) => FieldValueView::Boolean(x),
            FieldValue::Byte(x) => FieldValueView::Byte(x),
            FieldValue::ByteBuf(x) => FieldValueView::ByteBuf(x@),
            FieldValue::Char(x) => FieldValueView::Char(x),
            FieldValue::Double(x) => FieldValueView::Double(x),
            FieldValue::Float(x) => FieldValueView::Float(x),
            FieldValue::Int(x) => FieldValueView::Int(x),
            FieldValue::Long(x) => FieldValueView::Long(x),
            FieldValue::Short(x) => FieldValueView::Short(x),
            FieldValue::String(x) => FieldValueView::String(x@),
            FieldValue::Absent => FieldValueView::Absent,
        }
    }
}

/// The order of two integers, from whether the first is below the second and
/// whether the two are equal.
pub open spec fn order_from(less: bool, equal: bool) -> Ordering {
    if less {
        Ordering::Less
    } else if equal {
        Ordering::Equal
    } else {
        Ordering::Greater
    }
}

/// The order of two texts by the doubles that they spell, each given by its bits
/// or absent where the text spells no number.
pub open spec fn text_order(x: Option<u64>, y: Option<u64>) -> Result<Option<Ordering>, Error> {
    match (x, y) {
        (Some(x), Some(y)) => Ok(double_order(x, y)),
        _ => Err(Error::NotNumeric),
    }
}

impl FieldValue {
    /// The type of the value; none for an absent value.
    pub open spec fn spec_field_type(&self) -> Option<FieldType> {
        match *self {
            FieldValue::Boolean(_) => Some(FieldType::Boolean),
            FieldValue::Byte(_) => Some(FieldType::Byte),
            FieldValue::ByteBuf(_) => Some(FieldType::ByteBuf),
            FieldValue::Char(_) => Some(FieldType::Char),
            FieldValue::Double(_) => Some(FieldType::Double),
            FieldValue::Float(_) => Some(FieldType::Float),
            FieldValue::Int(_) => Some(FieldType::Int),
            FieldValue::Long(_) => Some(FieldType::Long),
            FieldValue::Short(_) => Some(FieldType::Short),
            FieldValue::String(_) => Some(FieldType::String),
            FieldValue::Absent => None,
        }
    }

    /// The reserved type of the value, if it has one.
    pub open spec fn reserved(self) -> Option<FieldType> {
        match self {
            FieldValue::Boolean(_) => Some(FieldType::Boolean),
            FieldValue::ByteBuf(_) => Some(FieldType::ByteBuf),
            _ => None,
        }
    }

    /// Why two values cannot be compared, if they cannot: a value of a reserved
    /// type, the first before the second, or two values of different types.
    pub open spec fn operand_error(self, other: FieldValue) -> Option<Error> {
        if let Some(field_type) = self.reserved() {
            Some(Error::UnsupportedType(field_type))
        } else if let Some(field_type) = other.reserved() {
            Some(Error::UnsupportedType(field_type))
        } else if self.spec_field_type() != other.spec_field_type() {
            Some(Error::TypeMismatch(self.spec_field_type(), other.spec_field_type()))
        } else {
            None
        }
    }

    /// Whether two values are equal: the same integer, the same characters, the
    /// same number as IEEE 754 has it, or both absent. Values that cannot be
    /// compared give the reason instead.
    pub open spec fn equality(self, other: FieldValue) -> Result<bool, Error> {
        if let Some(error) = self.operand_error(other) {
            Err(error)
        } else {
            Ok(
                match (self, other) {
                    (FieldValue::Byte(x), FieldValue::Byte(y)) => x == y,
                    (FieldValue::Char(x), FieldValue::Char(y)) => x == y,
                    (FieldValue::Double(x), FieldValue::Double(y)) => doubles_equal(x, y),
                    (FieldValue::Float(x), FieldValue::Float(y)) => floats_equal(x, y),
                    (FieldValue::Int(x), FieldValue::Int(y)) => x == y,
                    (FieldValue::Long(x), FieldValue::Long(y)) => x == y,
                    (FieldValue::Short(x), FieldValue::Short(y)) => x == y,
                    (FieldValue::String(x), FieldValue::String(y)) => x@ == y@,
                    _ => true,
                },
            )
        }
    }

    /// The order of two values: integers by size, floating-point numbers as IEEE
    /// 754 orders them, two absent values equal, and two texts by the doubles that
    /// they spell, which `self_number` and `other_number` give. Values that cannot
    /// be compared give the reason instead.
    pub open spec fn ordering(
        self,
        other: FieldValue,
        self_number: Option<u64>,
        other_number: Option<u64>,
    ) -> Result<Option<Ordering>, Error> {
        if let Some(error) = self.operand_error(other) {
            Err(error)
        } else {
            match (self, other) {
                (FieldValue::Byte(x), FieldValue::Byte(y)) => Ok(Some(order_from(x < y, x == y))),
                (FieldValue::Char(x), FieldValue::Char(y)) => Ok(Some(order_from(x < y, x == y))),
                (FieldValue::Double(x), FieldValue::Double(y)) => Ok(double_order(x, y)),
                (FieldValue::Float(x), FieldValue::Float(y)) => Ok(float_order(x, y)),
                (FieldValue::Int(x), FieldValue::Int(y)) => Ok(Some(order_from(x < y, x == y))),
                (FieldValue::Long(x), FieldValue::Long(y)) => Ok(Some(order_from(x < y, x == y))),
                (FieldValue::Short(x), FieldValue::Short(y)) => Ok(
                    Some(order_from(x < y, x == y)),
                ),
                (FieldValue::String(_), FieldValue::String(_)) => text_order(
                    self_number,
                    other_number,
                ),
                _ => Ok(Some(Ordering::Equal)),
            }
        }
    }

    /// What the value holds, as a piece of text: an integer in decimal, a text as
    /// it is, a floating-point number as itself, and nothing for an absent value.
    /// A value of a reserved type has no text.
    pub open spec fn content(self) -> Result<Fragment, Error> {
        match self {
            FieldValue::Boolean(_) => Err(Error::UnsupportedType(FieldType::Boolean)),
            FieldValue::Byte(x) => Ok(Fragment::Text(decimal(x as nat))),
            FieldValue::ByteBuf(_) => Err(Error::UnsupportedType(FieldType::ByteBuf)),
            FieldValue::Char(x) => Ok(Fragment::Text(decimal(x as nat))),
            FieldValue::Double(x) => Ok(Fragment::Double(x)),
            FieldValue::Float(x) => Ok(Fragment::Float(x)),
            FieldValue::Int(x) => Ok(Fragment::Text(signed_decimal(x as int))),
            FieldValue::Long(x) => Ok(Fragment::Text(signed_decimal(x as int))),
            FieldValue::Short(x) => Ok(Fragment::Text(signed_decimal(x as int))),
            FieldValue::String(x) => Ok(Fragment::Text(x@)),
            FieldValue::Absent => Ok(Fragment::Text(Seq::empty())),
        }
    }

    /// The pieces of the value's text: the name of its type with an opening
    /// bracket, what the value holds, and a closing bracket; nothing for an
    /// absent value. A value of a reserved type has no text.
    pub open spec fn rendering(self) -> Result<Seq<Fragment>, Error> {
        match (self.spec_field_type(), self.content()) {
            (_, Err(error)) => Err(error),
            (None, Ok(_)) => Ok(Seq::empty()),
            (Some(field_type), Ok(held)) => Ok(
                seq![
                    Fragment::Text(field_type.title() + seq!['[']),
                    held,
                    Fragment::Text(seq![']']),
                ],
            ),
        }
    }

    /// The type of the value; none for an absent value.
    #[verifier::when_used_as_spec(spec_field_type)]
    pub fn field_type(&self) -> (field_type: Option<FieldType>)
        ensures
            field_type == self.spec_field_type(),
    {
        match self {
            FieldValue::Boolean(_) => Some(FieldType::Boolean),
            FieldValue::Byte(_) => Some(FieldType::Byte),
            FieldValue::ByteBuf(_) => Some(FieldType::ByteBuf),
            FieldValue::Char(_) => Some(FieldType::Char),
            FieldValue::Double(_) => Some(FieldType::Double),
            FieldValue::Float(_) => Some(FieldType::Float),
            FieldValue::Int(_) => Some(FieldType::Int),
            FieldValue::Long(_) => Some(FieldType::Long),
            FieldValue::Short(_) => Some(FieldType::Short),
            FieldValue::String(_) => Some(FieldType::String),
            FieldValue::Absent => None,
        }
    }

    /// Says why two values cannot be compared, if they cannot.
    pub fn check_operands(&self, other: &FieldValue) -> (checked: CliResult<()>)
        ensures
            match checked {
                Ok(_) => self.operand_error(*other) is None,
                Err(error) => self.operand_error(*other) == Some(error),
            },
    {
        match self {
            FieldValue::Boolean(_) => {
                return Err(Error::UnsupportedType(FieldType::Boolean));
            },
            FieldValue::ByteBuf(_) => {
                return Err(Error::UnsupportedType(FieldType::ByteBuf));
            },
            _ => {},
        }
        match other {
            FieldValue::Boolean(_) => {
                return Err(Error::UnsupportedType(FieldType::Boolean));
            },
            FieldValue::ByteBuf(_) => {
                return Err(Error::UnsupportedType(FieldType::ByteBuf));
            },
            _ => {},
        }
        let left = self.field_type();
        let right = other.field_type();
        if left != right {
            return Err(Error::TypeMismatch(left, right));
        }
        Ok(())
    }

    /// Tells whether two values are equal, or why they cannot be compared.
    pub fn equals(&self, other: &FieldValue) -> (equal: CliResult<bool>)
        ensures
            equal == self.equality(*other),
    {
        match self.check_operands(other) {
            Err(error) => {
                return Err(error);
            },
            Ok(_) => {},
        }
        Ok(
            match (self, other) {
                (FieldValue::Byte(x), FieldValue::Byte(y)) => *x == *y,
                (FieldValue::Char(x), FieldValue::Char(y)) => *x == *y,
                (FieldValue::Double(x), FieldValue::Double(y)) => equal_doubles(*x, *y),
                (FieldValue::Float(x), FieldValue::Float(y)) => equal_floats(*x, *y),
                (FieldValue::Int(x), FieldValue::Int(y)) => *x == *y,
                (FieldValue::Long(x), FieldValue::Long(y)) => *x == *y,
                (FieldValue::Short(x), FieldValue::Short(y)) => *x == *y,
                (FieldValue::String(x), FieldValue::String(y)) => *x == *y,
                _ => true,
            },
        )
    }

    /// Orders two values, or says why they cannot be compared. For two texts,
    /// `self_number` and `other_number` are the doubles that they spell, given by
    /// their bits, or absent where a text spells no number; for other values they
    /// are not read.
    pub fn compare_parsed(
        &self,
        other: &FieldValue,
        self_number: Option<u64>,
        other_number: Option<u64>,
    ) -> (order: Result<Option<Ordering>, Error>)
        ensures
            order == self.ordering(*other, self_number, other_number),
    {
        match self.check_operands(other) {
            Err(error) => {
                return Err(error);
            },
            Ok(_) => {},
        }
        match (self, other) {
            (FieldValue::Byte(x), FieldValue::Byte(y)) => Ok(Some(order_of(*x < *y, *x == *y))),
            (FieldValue::Char(x), FieldValue::Char(y)) => Ok(Some(order_of(*x < *y, *x == *y))),
            (FieldValue::Double(x), FieldValue::Double(y)) => Ok(compare_doubles(*x, *y)),
            (FieldValue::Float(x), FieldValue::Float(y)) => Ok(compare_floats(*x, *y)),
            (FieldValue::Int(x), FieldValue::Int(y)) => Ok(Some(order_of(*x < *y, *x == *y))),
            (FieldValue::Long(x), FieldValue::Long(y)) => Ok(Some(order_of(*x < *y, *x == *y))),
            (FieldValue::Short(x), FieldValue::Short(y)) => Ok(Some(order_of(*x < *y, *x == *y))),
            (FieldValue::String(_), FieldValue::String(_)) => match (self_number, other_number) {
                (Some(x), Some(y)) => Ok(compare_doubles(x, y)),
                _ => Err(Error::NotNumeric),
            },
            _ => Ok(Some(Ordering::Equal)),
        }
    }

    /// Orders two values, or says why they cannot be compared. Two texts are
    /// ordered by the doubles that they spell: `number_of` reads each text and
    /// returns the bits of its double, or nothing where the text spells no number.
    /// For other values `number_of` is not called, and need not take any text.
    pub fn compare<F: Fn(&String) -> Option<u64>>(&self, other: &FieldValue, number_of: F) -> (order:
        Result<Option<Ordering>, Error>)
        requires
            self is String && other is String ==> call_requires(number_of, (&self->String_0,))
                && call_requires(number_of, (&other->String_0,)),
        ensures
            !(self is String && other is String) ==> order == self.ordering(*other, None, None),
            self is String && other is String ==> exists|
                self_number: Option<u64>,
                other_number: Option<u64>,
            |
                {
                    &&& call_ensures(number_of, (&self->String_0,), self_number)
                    &&& call_ensures(number_of, (&other->String_0,), other_number)
                    &&& order == self.ordering(*other, self_number, other_number)
                },
    {
        match (self, other) {
            (FieldValue::String(x), FieldValue::String(y)) => {
                let self_number = number_of(x);
                let other_number = number_of(y);
                self.compare_parsed(other, self_number, other_number)
            },
            _ => self.compare_parsed(other, None, None),
        }
    }

    /// What the value holds, as a piece of text, or why it has none.
    pub fn to_piece(&self) -> (piece: CliResult<Piece>)
        ensures
            match piece {
                Ok(piece) => self.content() == Ok::<Fragment, Error>(piece@),
                Err(error) => self.content() == Err::<Fragment, Error>(error),
            },
    {
        match self {
            FieldValue::Boolean(_) => Err(Error::UnsupportedType(FieldType::Boolean)),
            FieldValue::Byte(x) => Ok(Piece::Text(decimal_text(*x as u64))),
            FieldValue::ByteBuf(_) => Err(Error::UnsupportedType(FieldType::ByteBuf)),
            FieldValue::Char(x) => Ok(Piece::Text(decimal_text(*x as u64))),
            FieldValue::Double(x) => Ok(Piece::Double(*x)),
            FieldValue::Float(x) => Ok(Piece::Float(*x)),
            FieldValue::Int(x) => Ok(Piece::Text(signed_decimal_text(*x as i64))),
            FieldValue::Long(x) => Ok(Piece::Text(signed_decimal_text(*x))),
            FieldValue::Short(x) => Ok(Piece::Text(signed_decimal_text(*x as i64))),
            FieldValue::String(x) => Ok(Piece::Text(x.clone())),
            FieldValue::Absent => Ok(Piece::Text(String::new())),
        }
    }

    /// The pieces of the value's text, or why the value has none.
    pub fn render(&self) -> (pieces: CliResult<Vec<Piece>>)
        ensures
            match pieces {
                Ok(pieces) => self.rendering() == Ok::<Seq<Fragment>, Error>(fragments(pieces@)),
                Err(error) => self.rendering() == Err::<Seq<Fragment>, Error>(error),
            },
    {
        let held = match self.to_piece() {
            Ok(held) => held,
            Err(error) => {
                return Err(error);
            },
        };
        let mut pieces: Vec<Piece> = Vec::new();
        match self.field_type() {
            None => {},
            Some(field_type) => {
                let mut opening = String::from_str(field_type.name());
                opening.append("[");
                let closing = String::from_str("]");
                proof {
                    reveal_strlit("[");
                    reveal_strlit("]");
                    assert(opening@ =~= field_type.title() + seq!['[']);
                    assert(closing@ =~= seq![']']);
                }
                pieces.push(Piece::Text(opening));
                pieces.push(held);
                pieces.push(Piece::Text(closing));
            },
        }
        assert(fragments(pieces@) =~= self.rendering()->Ok_0);
        Ok(pieces)
    }
}

/// Two values of different types, or of which one is absent and the other is
/// not, are never called equal or unequal and never ordered: both operations
/// fail, and so they do where a value has a reserved type.
pub proof fn lemma_only_like_values_are_compared(
    left: FieldValue,
    right: FieldValue,
    left_number: Option<u64>,
    right_number: Option<u64>,
)
    requires
        left.spec_field_type() != right.spec_field_type() || left.reserved() is Some
            || right.reserved() is Some,
    ensures
        left.equality(right) is Err,
        left.ordering(right, left_number, right_number) is Err,
        left.reserved() is None && right.reserved() is None ==> left.equality(right) == Err::<
            bool,
            Error,
        >(Error::TypeMismatch(left.spec_field_type(), right.spec_field_type())),
{
}

fn order_of(less: bool, equal: bool) -> (order: Ordering)
    ensures
        order == order_from(less, equal),
{
    if less {
        Ordering::Less
    } else if equal {
        Ordering::Equal
    } else {
        Ordering::Greater
    }
}

/// One record: a point in time and the values of the columns.
#[derive(Clone, Debug)]
pub struct Row {
    pub timestamp: Nanos,
    pub field_values: Vec<FieldValue>,
}

/// Whether a value can stand in a column of the given type: it is absent or has
/// that type.
pub open spec fn fits(value: FieldValue, field_type: FieldType) -> bool {
    value.spec_field_type() is None || value.spec_field_type() == Some(field_type)
}

impl Row {
    /// Whether the row has one value for each column of the header, each of the
    /// column's type or absent.
    pub open spec fn conforms(self, header: HeaderView) -> bool {
        &&& self.field_values.len() == header.field_types.len()
        &&& forall|i: int|
            0 <= i < self.field_values.len() ==> fits(
                #[trigger] self.field_values[i],
                header.field_types[i],
            )
    }

    /// Checks the row against a header: a row that does not conform to it is a
    /// schema mismatch.
    pub fn check(&self, header: &Header) -> (checked: CliResult<()>)
        ensures
            self.conforms(header@) ==> checked is Ok,
            !self.conforms(header@) ==> checked == Err::<(), Error>(Error::SchemaMismatch),
    {
        let field_types = header.field_types();
        if self.field_values.len() != field_types.len() {
            return Err(Error::SchemaMismatch);
        }
        let mut index: usize = 0;
        while index < self.field_values.len()
            invariant
                index <= self.field_values.len(),
                self.field_values.len() == field_types.len(),
                field_types@ == header@.field_types,
                forall|i: int|
                    0 <= i < index ==> fits(#[trigger] self.field_values[i], field_types[i]),
            decreases self.field_values.len() - index,
        {
            match self.field_values[index].field_type() {
                Some(field_type) => {
                    if field_type != field_types[index] {
                        assert(!fits(self.field_values[index as int], field_types[index as int]));
                        return Err(Error::SchemaMismatch);
                    }
                },
                None => {},
            }
            index += 1;
        }
        Ok(())
    }
}

} // verus!
