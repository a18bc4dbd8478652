use chopper::chopper::types::{
    flatten, FieldType, FieldValue, Header, Piece, Placement, Row, TimestampRange,
};
use chopper::error::Error;
use std::cmp::Ordering;

fn number_of(text: &String) -> Option<u64> {
    text.parse::<f64>().ok().map(f64::to_bits)
}

fn names(names: &[&str]) -> Vec<String> {
    names.iter().map(|name| name.to_string()).collect()
}

#[test]
fn range_from_two_bounds() {
    let range = TimestampRange::new(Some(Ok(20)), Some(Ok(40))).unwrap();
    assert_eq!(range.begin, Some(20));
    assert_eq!(range.end, Some(40));
}

#[test]
fn range_without_bounds() {
    let range = TimestampRange::new(None, None).unwrap();
    assert_eq!(range.begin, None);
    assert_eq!(range.end, None);
    let open = TimestampRange::unbounded();
    assert_eq!(open.begin, None);
    assert_eq!(open.end, None);
}

#[test]
fn range_reports_the_failure_of_the_beginning_first() {
    let range = TimestampRange::new(Some(Err(Error::MalformedRange)), Some(Err(Error::NotNumeric)));
    assert_eq!(range.err(), Some(Error::MalformedRange));
}

#[test]
fn range_reports_the_failure_of_the_end() {
    let range = TimestampRange::new(Some(Ok(1)), Some(Err(Error::MalformedRange)));
    assert_eq!(range.err(), Some(Error::MalformedRange));
}

#[test]
fn range_bounds_are_inside() {
    let range = TimestampRange { begin: Some(20), end: Some(40) };
    assert_eq!(range.place(19), Placement::Early);
    assert_eq!(range.place(20), Placement::Within);
    assert_eq!(range.place(30), Placement::Within);
    assert_eq!(range.place(40), Placement::Within);
    assert_eq!(range.place(41), Placement::Late);
}

#[test]
fn range_open_sides_admit_everything() {
    let range = TimestampRange { begin: None, end: Some(40) };
    assert_eq!(range.place(0), Placement::Within);
    assert_eq!(range.place(41), Placement::Late);
    let range = TimestampRange { begin: Some(20), end: None };
    assert_eq!(range.place(0), Placement::Early);
    assert_eq!(range.place(u64::MAX), Placement::Within);
}

#[test]
fn range_that_ends_before_it_begins_calls_a_point_between_early() {
    let range = TimestampRange { begin: Some(40), end: Some(20) };
    assert_eq!(range.place(30), Placement::Early);
    assert_eq!(range.place(50), Placement::Late);
}

#[test]
fn header_keeps_names_and_types() {
    let header = Header::new(names(&["a", "b"]), vec![FieldType::Int, FieldType::String]);
    assert_eq!(header.field_names(), &names(&["a", "b"]));
    assert_eq!(header.field_types(), &vec![FieldType::Int, FieldType::String]);
    assert_eq!(header.width(), 2);
    assert!(header.is_well_formed());
}

#[test]
fn header_equality_is_structural() {
    let one = Header::new(names(&["a", "b"]), vec![FieldType::Int, FieldType::String]);
    let same = Header::new(names(&["a", "b"]), vec![FieldType::Int, FieldType::String]);
    let other_name = Header::new(names(&["a", "c"]), vec![FieldType::Int, FieldType::String]);
    let other_type = Header::new(names(&["a", "b"]), vec![FieldType::Int, FieldType::Long]);
    let shorter = Header::new(names(&["a"]), vec![FieldType::Int]);
    assert!(one == same);
    assert!(one != other_name);
    assert!(one != other_type);
    assert!(one != shorter);
    assert!(one.same_types(&other_name));
    assert!(!one.same_types(&other_type));
    assert!(!one.same_types(&shorter));
}

#[test]
fn header_duplicate_is_equal() {
    let one = Header::new(names(&["a", "b"]), vec![FieldType::Int, FieldType::String]);
    let copy = one.duplicate();
    assert!(one == copy);
}

#[test]
fn header_fields_can_be_changed_in_place() {
    let mut header = Header::new(names(&["a"]), vec![FieldType::Int]);
    header.field_names_mut().push("b".to_string());
    assert!(!header.is_well_formed());
    header.field_types_mut().push(FieldType::Double);
    assert!(header.is_well_formed());
    assert_eq!(header.field_names(), &names(&["a", "b"]));
    assert_eq!(header.field_types(), &vec![FieldType::Int, FieldType::Double]);
}

#[test]
fn reserved_types_are_not_supported() {
    assert!(!FieldType::Boolean.is_supported());
    assert!(!FieldType::ByteBuf.is_supported());
    for field_type in [
        FieldType::Byte,
        FieldType::Char,
        FieldType::Double,
        FieldType::Float,
        FieldType::Int,
        FieldType::Long,
        FieldType::Short,
        FieldType::String,
    ] {
        assert!(field_type.is_supported());
    }
}

#[test]
fn value_knows_its_type() {
    assert_eq!(FieldValue::Boolean(true).field_type(), Some(FieldType::Boolean));
    assert_eq!(FieldValue::Byte(1).field_type(), Some(FieldType::Byte));
    assert_eq!(FieldValue::ByteBuf(vec![1]).field_type(), Some(FieldType::ByteBuf));
    assert_eq!(FieldValue::Char(1).field_type(), Some(FieldType::Char));
    assert_eq!(FieldValue::Double(0).field_type(), Some(FieldType::Double));
    assert_eq!(FieldValue::Float(0).field_type(), Some(FieldType::Float));
    assert_eq!(FieldValue::Int(1).field_type(), Some(FieldType::Int));
    assert_eq!(FieldValue::Long(1).field_type(), Some(FieldType::Long));
    assert_eq!(FieldValue::Short(1).field_type(), Some(FieldType::Short));
    assert_eq!(FieldValue::String("x".to_string()).field_type(), Some(FieldType::String));
    assert_eq!(FieldValue::Absent.field_type(), None);
}

#[test]
fn equal_values_of_one_type() {
    assert_eq!(FieldValue::Byte(7).equals(&FieldValue::Byte(7)), Ok(true));
    assert_eq!(FieldValue::Byte(7).equals(&FieldValue::Byte(8)), Ok(false));
    assert_eq!(FieldValue::Char(7).equals(&FieldValue::Char(7)), Ok(true));
    assert_eq!(FieldValue::Int(-7).equals(&FieldValue::Int(-7)), Ok(true));
    assert_eq!(FieldValue::Int(-7).equals(&FieldValue::Int(7)), Ok(false));
    assert_eq!(FieldValue::Long(1 << 40).equals(&FieldValue::Long(1 << 40)), Ok(true));
    assert_eq!(FieldValue::Short(-1).equals(&FieldValue::Short(-1)), Ok(true));
    assert_eq!(
        FieldValue::String("a".to_string()).equals(&FieldValue::String("a".to_string())),
        Ok(true)
    );
    assert_eq!(
        FieldValue::String("a".to_string()).equals(&FieldValue::String("b".to_string())),
        Ok(false)
    );
    assert_eq!(FieldValue::Absent.equals(&FieldValue::Absent), Ok(true));
}

#[test]
fn equal_floating_point_values() {
    let one = FieldValue::Double(1.5f64.to_bits());
    assert_eq!(one.equals(&FieldValue::Double(1.5f64.to_bits())), Ok(true));
    assert_eq!(one.equals(&FieldValue::Double(2.5f64.to_bits())), Ok(false));
    let nan = FieldValue::Double(f64::NAN.to_bits());
    assert_eq!(nan.equals(&FieldValue::Double(f64::NAN.to_bits())), Ok(false));
    let zero = FieldValue::Double(0.0f64.to_bits());
    assert_eq!(zero.equals(&FieldValue::Double((-0.0f64).to_bits())), Ok(true));
    let single = FieldValue::Float(1.5f32.to_bits());
    assert_eq!(single.equals(&FieldValue::Float(1.5f32.to_bits())), Ok(true));
    assert_eq!(
        FieldValue::Float(f32::NAN.to_bits()).equals(&FieldValue::Float(f32::NAN.to_bits())),
        Ok(false)
    );
    assert_eq!(
        FieldValue::Float(0.0f32.to_bits()).equals(&FieldValue::Float((-0.0f32).to_bits())),
        Ok(true)
    );
}

#[test]
fn values_of_different_types_are_not_compared() {
    let values = vec![
        FieldValue::Byte(1),
        FieldValue::Char(1),
        FieldValue::Double(1.0f64.to_bits()),
        FieldValue::Float(1.0f32.to_bits()),
        FieldValue::Int(1),
        FieldValue::Long(1),
        FieldValue::Short(1),
        FieldValue::String("1".to_string()),
        FieldValue::Absent,
    ];
    for (i, left) in values.iter().enumerate() {
        for (j, right) in values.iter().enumerate() {
            if i != j {
                let expected = Error::TypeMismatch(left.field_type(), right.field_type());
                assert_eq!(left.equals(right), Err(expected.clone()));
                assert_eq!(left.compare(right, number_of), Err(expected.clone()));
                assert_eq!(left.compare_parsed(right, Some(0), Some(0)), Err(expected));
            }
        }
    }
}

#[test]
fn values_of_reserved_types_are_not_compared() {
    let flag = FieldValue::Boolean(true);
    let bytes = FieldValue::ByteBuf(vec![1, 2]);
    let int = FieldValue::Int(1);
    assert_eq!(flag.equals(&flag), Err(Error::UnsupportedType(FieldType::Boolean)));
    assert_eq!(bytes.equals(&bytes), Err(Error::UnsupportedType(FieldType::ByteBuf)));
    assert_eq!(flag.equals(&bytes), Err(Error::UnsupportedType(FieldType::Boolean)));
    assert_eq!(bytes.equals(&flag), Err(Error::UnsupportedType(FieldType::ByteBuf)));
    assert_eq!(int.equals(&flag), Err(Error::UnsupportedType(FieldType::Boolean)));
    assert_eq!(flag.equals(&int), Err(Error::UnsupportedType(FieldType::Boolean)));
    assert_eq!(
        flag.compare(&flag, number_of),
        Err(Error::UnsupportedType(FieldType::Boolean))
    );
    assert_eq!(
        int.compare(&bytes, number_of),
        Err(Error::UnsupportedType(FieldType::ByteBuf))
    );
    assert_eq!(flag.check_operands(&int), Err(Error::UnsupportedType(FieldType::Boolean)));
    assert_eq!(int.check_operands(&int), Ok(()));
}

#[test]
fn integers_are_ordered_by_size() {
    assert_eq!(
        FieldValue::Byte(1).compare(&FieldValue::Byte(2), number_of),
        Ok(Some(Ordering::Less))
    );
    assert_eq!(
        FieldValue::Char(2).compare(&FieldValue::Char(2), number_of),
        Ok(Some(Ordering::Equal))
    );
    assert_eq!(
        FieldValue::Int(3).compare(&FieldValue::Int(-3), number_of),
        Ok(Some(Ordering::Greater))
    );
    assert_eq!(
        FieldValue::Long(i64::MIN).compare(&FieldValue::Long(i64::MAX), number_of),
        Ok(Some(Ordering::Less))
    );
    assert_eq!(
        FieldValue::Short(-1).compare(&FieldValue::Short(-2), number_of),
        Ok(Some(Ordering::Greater))
    );
    assert_eq!(
        FieldValue::Absent.compare(&FieldValue::Absent, number_of),
        Ok(Some(Ordering::Equal))
    );
}

#[test]
fn doubles_are_ordered_as_numbers() {
    let samples = [
        f64::NEG_INFINITY,
        -1.0e300,
        -2.5,
        -1.0,
        -f64::MIN_POSITIVE,
        -0.0,
        0.0,
        f64::MIN_POSITIVE,
        1.0,
        2.5,
        1.0e300,
        f64::INFINITY,
        f64::NAN,
        -f64::NAN,
    ];
    for x in samples {
        for y in samples {
            let left = FieldValue::Double(x.to_bits());
            let right = FieldValue::Double(y.to_bits());
            assert_eq!(left.compare(&right, number_of), Ok(x.partial_cmp(&y)), "{} {}", x, y);
            assert_eq!(left.equals(&right), Ok(x == y), "{} {}", x, y);
        }
    }
}

#[test]
fn floats_are_ordered_as_numbers() {
    let samples = [
        f32::NEG_INFINITY,
        -1.0e30,
        -2.5,
        -f32::MIN_POSITIVE,
        -0.0,
        0.0,
        f32::MIN_POSITIVE,
        2.5,
        1.0e30,
        f32::INFINITY,
        f32::NAN,
        -f32::NAN,
    ];
    for x in samples {
        for y in samples {
            let left = FieldValue::Float(x.to_bits());
            let right = FieldValue::Float(y.to_bits());
            assert_eq!(left.compare(&right, number_of), Ok(x.partial_cmp(&y)), "{} {}", x, y);
            assert_eq!(left.equals(&right), Ok(x == y), "{} {}", x, y);
        }
    }
}

#[test]
fn texts_are_ordered_by_the_numbers_they_spell() {
    let nine = FieldValue::String("9".to_string());
    let ten = FieldValue::String("10".to_string());
    assert_eq!(nine.compare(&ten, number_of), Ok(Some(Ordering::Less)));
    assert_eq!(ten.compare(&nine, number_of), Ok(Some(Ordering::Greater)));
    let other_ten = FieldValue::String("1e1".to_string());
    assert_eq!(ten.compare(&other_ten, number_of), Ok(Some(Ordering::Equal)));
    assert_eq!(ten.equals(&other_ten), Ok(false));
    let nan = FieldValue::String("NaN".to_string());
    assert_eq!(ten.compare(&nan, number_of), Ok(None));
}

#[test]
fn texts_that_spell_no_number_are_not_ordered() {
    let ten = FieldValue::String("10".to_string());
    let word = FieldValue::String("ten".to_string());
    assert_eq!(ten.compare(&word, number_of), Err(Error::NotNumeric));
    assert_eq!(word.compare(&ten, number_of), Err(Error::NotNumeric));
    assert_eq!(word.compare_parsed(&ten, None, Some(10.0f64.to_bits())), Err(Error::NotNumeric));
    assert_eq!(
        word.compare_parsed(&ten, Some(1.0f64.to_bits()), Some(10.0f64.to_bits())),
        Ok(Some(Ordering::Less))
    );
}

#[test]
fn the_reader_of_numbers_is_only_asked_about_texts() {
    let refuse = |_: &String| -> Option<u64> { panic!("not a text") };
    assert_eq!(
        FieldValue::Int(1).compare(&FieldValue::Int(2), refuse),
        Ok(Some(Ordering::Less))
    );
}

fn text(piece: &str) -> Piece {
    Piece::Text(piece.to_string())
}

fn rendered(value: FieldValue) -> String {
    flatten(&value.render().unwrap()).unwrap()
}

#[test]
fn types_have_names() {
    assert_eq!(FieldType::Boolean.name(), "boolean");
    assert_eq!(FieldType::Byte.name(), "byte");
    assert_eq!(FieldType::ByteBuf.name(), "bytebuffer");
    assert_eq!(FieldType::Char.name(), "char");
    assert_eq!(FieldType::Double.name(), "double");
    assert_eq!(FieldType::Float.name(), "float");
    assert_eq!(FieldType::Int.name(), "int");
    assert_eq!(FieldType::Long.name(), "long");
    assert_eq!(FieldType::Short.name(), "short");
    assert_eq!(FieldType::String.name(), "string");
}

#[test]
fn values_render_with_the_name_of_their_type() {
    assert_eq!(rendered(FieldValue::Byte(255)), "byte[255]");
    assert_eq!(rendered(FieldValue::Char(65535)), "char[65535]");
    assert_eq!(rendered(FieldValue::Int(-12)), "int[-12]");
    assert_eq!(rendered(FieldValue::Int(i32::MIN)), "int[-2147483648]");
    assert_eq!(rendered(FieldValue::Long(i64::MIN)), "long[-9223372036854775808]");
    assert_eq!(rendered(FieldValue::Long(i64::MAX)), "long[9223372036854775807]");
    assert_eq!(rendered(FieldValue::Short(0)), "short[0]");
    assert_eq!(rendered(FieldValue::String("a b".to_string())), "string[a b]");
    assert_eq!(rendered(FieldValue::String(String::new())), "string[]");
    assert_eq!(rendered(FieldValue::Absent), "");
    assert_eq!(FieldValue::Absent.render(), Ok(vec![]));
}

#[test]
fn values_render_in_three_pieces() {
    assert_eq!(
        FieldValue::Byte(7).render(),
        Ok(vec![text("byte["), text("7"), text("]")])
    );
    assert_eq!(FieldValue::Int(-7).to_piece(), Ok(text("-7")));
    assert_eq!(FieldValue::Absent.to_piece(), Ok(text("")));
    assert_eq!(
        FieldValue::Boolean(true).to_piece(),
        Err(Error::UnsupportedType(FieldType::Boolean))
    );
}

#[test]
fn floating_point_values_render_around_their_number() {
    let bits = 1.5f64.to_bits();
    assert_eq!(
        FieldValue::Double(bits).render(),
        Ok(vec![text("double["), Piece::Double(bits), text("]")])
    );
    assert_eq!(FieldValue::Double(bits).to_piece(), Ok(Piece::Double(bits)));
    let bits = 1.5f32.to_bits();
    assert_eq!(
        FieldValue::Float(bits).render(),
        Ok(vec![text("float["), Piece::Float(bits), text("]")])
    );
}

#[test]
fn values_of_reserved_types_do_not_render() {
    assert_eq!(
        FieldValue::Boolean(false).render(),
        Err(Error::UnsupportedType(FieldType::Boolean))
    );
    assert_eq!(
        FieldValue::ByteBuf(vec![]).render(),
        Err(Error::UnsupportedType(FieldType::ByteBuf))
    );
}

#[test]
fn row_that_conforms_to_its_header() {
    let header = Header::new(
        names(&["a", "b", "c"]),
        vec![FieldType::Int, FieldType::String, FieldType::Double],
    );
    let row = Row {
        timestamp: 1,
        field_values: vec![
            FieldValue::Int(1),
            FieldValue::Absent,
            FieldValue::Double(1.0f64.to_bits()),
        ],
    };
    assert_eq!(row.check(&header), Ok(()));
}

#[test]
fn row_with_too_few_values_is_a_schema_mismatch() {
    let header = Header::new(
        names(&["a", "b", "c"]),
        vec![FieldType::Int, FieldType::Int, FieldType::Int],
    );
    let row = Row { timestamp: 1, field_values: vec![FieldValue::Int(1), FieldValue::Int(2)] };
    assert_eq!(row.check(&header), Err(Error::SchemaMismatch));
}

#[test]
fn row_with_a_value_of_another_type_is_a_schema_mismatch() {
    let header = Header::new(names(&["a", "b"]), vec![FieldType::Int, FieldType::Int]);
    let row = Row { timestamp: 1, field_values: vec![FieldValue::Int(1), FieldValue::Long(2)] };
    assert_eq!(row.check(&header), Err(Error::SchemaMismatch));
}

#[test]
fn row_without_values_conforms_to_a_header_without_columns() {
    let header = Header::new(vec![], vec![]);
    let row = Row { timestamp: 1, field_values: vec![] };
    assert_eq!(row.check(&header), Ok(()));
}
