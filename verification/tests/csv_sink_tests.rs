use chopper::chopper::chopper::{DataSink, HeaderSink};
use chopper::chopper::types::{FieldType, FieldValue, Header, Piece, Row};
use chopper::error::Error;
use chopper::source::csv_configs::CSVOutputConfig;
use chopper::util::decimal::{decimal_text, signed_decimal_text};
use chopper::write::csv_sink::{render_cell, render_header, render_row, CSVSink};

fn names(names: &[&str]) -> Vec<String> {
    names.iter().map(|name| name.to_string()).collect()
}

fn written(pieces: &[Piece]) -> String {
    let mut out: Vec<u8> = Vec::new();
    for piece in pieces {
        match piece {
            Piece::Text(text) => out.extend_from_slice(text.as_bytes()),
            Piece::Double(bits) => {
                dtoa::write(&mut out, f64::from_bits(*bits)).unwrap();
            }
            Piece::Float(bits) => {
                dtoa::write(&mut out, f32::from_bits(*bits)).unwrap();
            }
        }
    }
    String::from_utf8(out).unwrap()
}

#[test]
fn decimal_of_natural_numbers() {
    assert_eq!(decimal_text(0), "0");
    assert_eq!(decimal_text(7), "7");
    assert_eq!(decimal_text(10), "10");
    assert_eq!(decimal_text(1234567890), "1234567890");
    assert_eq!(decimal_text(u64::MAX), "18446744073709551615");
}

#[test]
fn decimal_of_integers() {
    assert_eq!(signed_decimal_text(0), "0");
    assert_eq!(signed_decimal_text(-1), "-1");
    assert_eq!(signed_decimal_text(42), "42");
    assert_eq!(signed_decimal_text(i64::MAX), "9223372036854775807");
    assert_eq!(signed_decimal_text(i64::MIN), "-9223372036854775808");
}

#[test]
fn decimal_agrees_with_the_standard_formatting() {
    for n in [0u64, 1, 9, 10, 11, 99, 100, 101, 65535, 4294967296, u64::MAX - 1] {
        assert_eq!(decimal_text(n), n.to_string());
    }
    for n in [-1i64, -9, -10, -100, -32768, -2147483648, 5, 2147483647] {
        assert_eq!(signed_decimal_text(n), n.to_string());
    }
}

#[test]
fn header_line_with_the_time_column() {
    let header = Header::new(names(&["a", "b"]), vec![FieldType::Int, FieldType::String]);
    let config = CSVOutputConfig::new_default();
    assert_eq!(render_header(&header, &config), "timestamp,a,b\n");
}

#[test]
fn header_line_without_the_time_column() {
    let header = Header::new(names(&["a", "b"]), vec![FieldType::Int, FieldType::String]);
    let config = CSVOutputConfig::new(",", false);
    assert_eq!(render_header(&header, &config), "a,b\n");
}

#[test]
fn header_line_uses_the_delimiter() {
    let header = Header::new(names(&["a", "b"]), vec![FieldType::Int, FieldType::String]);
    let config = CSVOutputConfig::new(" | ", true);
    assert_eq!(render_header(&header, &config), "timestamp | a | b\n");
}

#[test]
fn header_line_without_columns() {
    let header = Header::new(vec![], vec![]);
    assert_eq!(render_header(&header, &CSVOutputConfig::new_default()), "timestamp\n");
    assert_eq!(render_header(&header, &CSVOutputConfig::new(",", false)), "\n");
}

#[test]
fn cells_of_each_type() {
    assert_eq!(render_cell(&FieldValue::Byte(200)), Ok(Piece::Text("200".to_string())));
    assert_eq!(render_cell(&FieldValue::Char(40000)), Ok(Piece::Text("40000".to_string())));
    assert_eq!(render_cell(&FieldValue::Int(-5)), Ok(Piece::Text("-5".to_string())));
    assert_eq!(render_cell(&FieldValue::Long(1 << 40)), Ok(Piece::Text("1099511627776".to_string())));
    assert_eq!(render_cell(&FieldValue::Short(-32768)), Ok(Piece::Text("-32768".to_string())));
    assert_eq!(
        render_cell(&FieldValue::String("x y".to_string())),
        Ok(Piece::Text("x y".to_string()))
    );
    assert_eq!(render_cell(&FieldValue::Absent), Ok(Piece::Text(String::new())));
    assert_eq!(
        render_cell(&FieldValue::Double(2.5f64.to_bits())),
        Ok(Piece::Double(2.5f64.to_bits()))
    );
    assert_eq!(
        render_cell(&FieldValue::Float(2.5f32.to_bits())),
        Ok(Piece::Float(2.5f32.to_bits()))
    );
    assert_eq!(
        render_cell(&FieldValue::Boolean(true)),
        Err(Error::UnsupportedType(FieldType::Boolean))
    );
    assert_eq!(
        render_cell(&FieldValue::ByteBuf(vec![1])),
        Err(Error::UnsupportedType(FieldType::ByteBuf))
    );
}

#[test]
fn row_line_with_its_time() {
    let row = Row {
        timestamp: 1500000000000000000,
        field_values: vec![
            FieldValue::Int(-3),
            FieldValue::String("abc".to_string()),
            FieldValue::Absent,
            FieldValue::Long(7),
        ],
    };
    let line = render_row(&row, &CSVOutputConfig::new_default()).unwrap();
    assert_eq!(
        line,
        vec![
            Piece::Text("1500000000000000000".to_string()),
            Piece::Text(",".to_string()),
            Piece::Text("-3".to_string()),
            Piece::Text(",".to_string()),
            Piece::Text("abc".to_string()),
            Piece::Text(",".to_string()),
            Piece::Text(String::new()),
            Piece::Text(",".to_string()),
            Piece::Text("7".to_string()),
            Piece::Text("\n".to_string()),
        ]
    );
    assert_eq!(written(&line), "1500000000000000000,-3,abc,,7\n");
}

#[test]
fn row_line_without_its_time() {
    let row = Row {
        timestamp: 15,
        field_values: vec![FieldValue::Byte(1), FieldValue::Short(2)],
    };
    let line = render_row(&row, &CSVOutputConfig::new(";", false)).unwrap();
    assert_eq!(written(&line), "1;2\n");
}

#[test]
fn row_line_without_values() {
    let row = Row { timestamp: 15, field_values: vec![] };
    assert_eq!(written(&render_row(&row, &CSVOutputConfig::new_default()).unwrap()), "15\n");
    assert_eq!(written(&render_row(&row, &CSVOutputConfig::new(",", false)).unwrap()), "\n");
}

#[test]
fn row_line_with_floating_point_numbers() {
    let row = Row {
        timestamp: 1,
        field_values: vec![
            FieldValue::Double(0.1f64.to_bits()),
            FieldValue::Float(2.5f32.to_bits()),
            FieldValue::Double(1e21f64.to_bits()),
        ],
    };
    let line = render_row(&row, &CSVOutputConfig::new_default()).unwrap();
    assert_eq!(line[2], Piece::Double(0.1f64.to_bits()));
    assert_eq!(line[4], Piece::Float(2.5f32.to_bits()));
    assert_eq!(written(&line), "1,0.1,2.5,1e21\n");
}

#[test]
fn row_line_with_a_reserved_value_is_refused() {
    let row = Row {
        timestamp: 1,
        field_values: vec![
            FieldValue::Int(1),
            FieldValue::ByteBuf(vec![1]),
            FieldValue::Boolean(true),
        ],
    };
    assert_eq!(
        render_row(&row, &CSVOutputConfig::new_default()),
        Err(Error::UnsupportedType(FieldType::ByteBuf))
    );
}

#[test]
fn sink_renders_header_then_rows() {
    let sink = CSVSink::new(CSVOutputConfig::new_default());
    let mut header = Header::new(names(&["a", "b"]), vec![FieldType::Int, FieldType::String]);
    let mut sink = sink.process_header(&mut header).unwrap();
    assert_eq!(header.field_names(), &names(&["a", "b"]));
    let first = Row {
        timestamp: 10,
        field_values: vec![FieldValue::Int(1), FieldValue::String("x".to_string())],
    };
    let second = Row {
        timestamp: 20,
        field_values: vec![FieldValue::Absent, FieldValue::String("y".to_string())],
    };
    assert!(matches!(sink.write_row(first), Ok(None)));
    assert!(matches!(sink.write_row_to_pin(3, second), Ok(None)));
    assert_eq!(sink.flush(), Ok(()));
    assert_eq!(written(sink.output()), "timestamp,a,b\n10,1,x\n20,,y\n");
    assert_eq!(written(&sink.into_output()), "timestamp,a,b\n10,1,x\n20,,y\n");
}

#[test]
fn sink_refuses_rows_before_its_header() {
    let mut sink = CSVSink::new(CSVOutputConfig::new_default());
    let row = Row { timestamp: 10, field_values: vec![] };
    assert_eq!(sink.write_row(row.clone()).err(), Some(Error::HeaderNotProcessed));
    assert_eq!(sink.write_row_to_pin(0, row).err(), Some(Error::HeaderNotProcessed));
    assert!(sink.output().is_empty());
}

#[test]
fn sink_refuses_a_second_header() {
    let mut sink = CSVSink::new(CSVOutputConfig::new_default());
    let mut header = Header::new(names(&["a"]), vec![FieldType::Int]);
    assert_eq!(sink.write_csv_header(&header), Ok(()));
    assert_eq!(sink.write_csv_header(&header), Err(Error::HeaderAlreadyProcessed));
    assert_eq!(written(sink.output()), "timestamp,a\n");
    assert_eq!(sink.process_header(&mut header).err(), Some(Error::HeaderAlreadyProcessed));
}

#[test]
fn sink_refuses_a_header_with_a_reserved_type() {
    let sink = CSVSink::new(CSVOutputConfig::new_default());
    let mut header = Header::new(
        names(&["a", "b", "c"]),
        vec![FieldType::Int, FieldType::Boolean, FieldType::ByteBuf],
    );
    assert_eq!(
        sink.process_header(&mut header).err(),
        Some(Error::UnsupportedType(FieldType::Boolean))
    );
}

#[test]
fn sink_renders_nothing_of_a_row_that_it_refuses() {
    let sink = CSVSink::new(CSVOutputConfig::new_default());
    let mut header = Header::new(names(&["a", "b"]), vec![FieldType::Int, FieldType::Int]);
    let mut sink = sink.process_header(&mut header).unwrap();
    let bad = Row {
        timestamp: 10,
        field_values: vec![FieldValue::Int(1), FieldValue::Boolean(true)],
    };
    assert_eq!(sink.write_row(bad).err(), Some(Error::UnsupportedType(FieldType::Boolean)));
    let good = Row { timestamp: 11, field_values: vec![FieldValue::Int(1), FieldValue::Int(2)] };
    assert!(matches!(sink.write_row(good), Ok(None)));
    assert_eq!(written(sink.output()), "timestamp,a,b\n11,1,2\n");
}

#[test]
fn sink_gives_out_what_it_has_rendered_only_once() {
    let sink = CSVSink::new(CSVOutputConfig::new_default());
    let mut header = Header::new(names(&["a"]), vec![FieldType::Int]);
    let mut sink = sink.process_header(&mut header).unwrap();
    assert_eq!(written(&sink.take_output()), "timestamp,a\n");
    assert!(sink.output().is_empty());
    assert!(sink.take_output().is_empty());
    let row = Row { timestamp: 10, field_values: vec![FieldValue::Int(1)] };
    assert!(matches!(sink.write_row(row), Ok(None)));
    let row = Row { timestamp: 11, field_values: vec![FieldValue::Int(2)] };
    assert!(matches!(sink.write_row(row), Ok(None)));
    assert_eq!(written(sink.output()), "10,1\n11,2\n");
    assert_eq!(written(&sink.take_output()), "10,1\n11,2\n");
    assert!(sink.take_output().is_empty());
    let row = Row { timestamp: 12, field_values: vec![FieldValue::Boolean(true)] };
    assert!(sink.write_row(row).is_err());
    assert!(sink.take_output().is_empty());
}

#[test]
fn sink_tells_how_it_renders() {
    let sink = CSVSink::new(CSVOutputConfig::new(";", false));
    assert_eq!(sink.csv_output_config().delimiter(), ";");
    assert!(!sink.csv_output_config().print_timestamp());
    let mut header = Header::new(names(&["a"]), vec![FieldType::Int]);
    let mut sink = sink.process_header(&mut header).unwrap();
    let row = Row { timestamp: 10, field_values: vec![FieldValue::Int(1)] };
    assert!(matches!(sink.write_row(row), Ok(None)));
    assert_eq!(sink.flush(), Ok(()));
    assert_eq!(sink.csv_output_config().delimiter(), ";");
    assert!(!sink.csv_output_config().print_timestamp());
}
