use chopper::error::Error;
use chopper::source::csv_configs::{
    CSVInputConfig, CSVOutputConfig, DEFAULT_DATE_FORMAT, DEFAULT_TIME, DEFAULT_TIME_FORMAT,
    DEFAULT_ZONE, DEFAULT_ZONE_FORMAT, DELIMITER_DEFAULT, TIMESTAMP_COL_DATE_DEFAULT,
};
use chopper::util::csv_util::{offset_of_zone, parse_into_delimiter};

#[test]
fn defaults_are_as_documented() {
    assert_eq!(DELIMITER_DEFAULT, ",");
    assert_eq!(TIMESTAMP_COL_DATE_DEFAULT, 0);
    assert_eq!(DEFAULT_TIME, "00:00:00");
    assert_eq!(DEFAULT_ZONE, "+0000");
    assert_eq!(DEFAULT_DATE_FORMAT, "%Y%m%d");
    assert_eq!(DEFAULT_TIME_FORMAT, "%H:%M:%S");
    assert_eq!(DEFAULT_ZONE_FORMAT, "%z");
}

#[test]
fn delimiter_is_a_single_ascii_character() {
    assert_eq!(parse_into_delimiter(","), Ok(b','));
    assert_eq!(parse_into_delimiter(";"), Ok(b';'));
    assert_eq!(parse_into_delimiter(" "), Ok(b' '));
    assert_eq!(parse_into_delimiter("\t"), Ok(b'\t'));
    assert_eq!(parse_into_delimiter("\u{7f}"), Ok(0x7f));
}

#[test]
fn delimiter_tab_can_be_spelled_out() {
    assert_eq!(parse_into_delimiter("\\t"), Ok(b'\t'));
}

#[test]
fn delimiter_of_other_lengths_is_malformed() {
    assert_eq!(parse_into_delimiter(""), Err(Error::MalformedDelimiter));
    assert_eq!(parse_into_delimiter(",,"), Err(Error::MalformedDelimiter));
    assert_eq!(parse_into_delimiter("\\n"), Err(Error::MalformedDelimiter));
    assert_eq!(parse_into_delimiter("abc"), Err(Error::MalformedDelimiter));
}

#[test]
fn delimiter_outside_ascii_is_malformed() {
    assert_eq!(parse_into_delimiter("\u{e9}"), Err(Error::MalformedDelimiter));
    assert_eq!(parse_into_delimiter("\u{80}"), Err(Error::MalformedDelimiter));
    assert_eq!(parse_into_delimiter("\u{20ac}"), Err(Error::MalformedDelimiter));
}

#[test]
fn zones_are_known_in_any_case() {
    assert_eq!(offset_of_zone("utc"), Some("+0000"));
    assert_eq!(offset_of_zone("UTC"), Some("+0000"));
    assert_eq!(offset_of_zone("Utc"), Some("+0000"));
    assert_eq!(offset_of_zone("ny"), Some("-0500"));
    assert_eq!(offset_of_zone("NY"), Some("-0500"));
    assert_eq!(offset_of_zone("nY"), Some("-0500"));
}

#[test]
fn other_zones_are_unknown() {
    assert_eq!(offset_of_zone(""), None);
    assert_eq!(offset_of_zone("gmt"), None);
    assert_eq!(offset_of_zone("utc "), None);
    assert_eq!(offset_of_zone("n"), None);
    assert_eq!(offset_of_zone("vtc"), None);
    assert_eq!(offset_of_zone("nz"), None);
}

#[test]
fn input_config_with_every_setting() {
    let config = CSVInputConfig::new(
        ";",
        true,
        2,
        Some(3),
        Some("%d/%m/%Y"),
        Some("%H%M"),
        Some("NY"),
    )
    .unwrap();
    assert_eq!(config.delimiter(), b';');
    assert!(config.has_header());
    assert_eq!(config.timestamp_col_date(), 2);
    assert_eq!(config.timestamp_col_time(), Some(3));
    assert_eq!(config.timestamp_format(), Some(&"%d/%m/%Y%H%M%z".to_string()));
    assert_eq!(config.time_zone(), "-0500");
}

#[test]
fn input_config_with_default_formats() {
    let config = CSVInputConfig::new(",", false, 0, None, None, None, None).unwrap();
    assert_eq!(config.delimiter(), b',');
    assert!(!config.has_header());
    assert_eq!(config.timestamp_col_date(), 0);
    assert_eq!(config.timestamp_col_time(), None);
    assert_eq!(config.timestamp_format(), Some(&"%Y%m%d%H:%M:%S%z".to_string()));
    assert_eq!(config.time_zone(), "+0000");
}

#[test]
fn input_config_with_one_format_given() {
    let config = CSVInputConfig::new("\\t", false, 0, None, Some("%F"), None, Some("utc")).unwrap();
    assert_eq!(config.delimiter(), b'\t');
    assert_eq!(config.timestamp_format(), Some(&"%F%H:%M:%S%z".to_string()));
    assert_eq!(config.time_zone(), "+0000");
    let config = CSVInputConfig::new(",", false, 0, None, None, Some("%T"), None).unwrap();
    assert_eq!(config.timestamp_format(), Some(&"%Y%m%d%T%z".to_string()));
}

#[test]
fn input_config_refuses_a_malformed_delimiter() {
    let config = CSVInputConfig::new("ab", false, 0, None, None, None, None);
    assert_eq!(config.err(), Some(Error::MalformedDelimiter));
}

#[test]
fn input_config_refuses_an_unknown_zone() {
    let config = CSVInputConfig::new(",", false, 0, None, None, None, Some("paris"));
    assert_eq!(config.err(), Some(Error::UnknownTimeZone));
}

#[test]
fn input_config_reports_the_delimiter_before_the_zone() {
    let config = CSVInputConfig::new("", false, 0, None, None, None, Some("paris"));
    assert_eq!(config.err(), Some(Error::MalformedDelimiter));
}

#[test]
fn input_config_default() {
    let config = CSVInputConfig::new_default().unwrap();
    assert_eq!(config.delimiter(), b',');
    assert!(!config.has_header());
    assert_eq!(config.timestamp_col_date(), 0);
    assert_eq!(config.timestamp_col_time(), None);
    assert_eq!(config.timestamp_format(), None);
    assert_eq!(config.time_zone(), "+0000");
}

#[test]
fn output_config_keeps_its_settings() {
    let config = CSVOutputConfig::new("||", false);
    assert_eq!(config.delimiter(), "||");
    assert!(!config.print_timestamp());
}

#[test]
fn output_config_default() {
    let config = CSVOutputConfig::new_default();
    assert_eq!(config.delimiter(), ",");
    assert!(config.print_timestamp());
}

#[test]
fn input_config_describes_itself() {
    let config = CSVInputConfig::new_default().unwrap();
    assert_eq!(config.describe(), "delimiter: 44, has headers: false");
    let config = CSVInputConfig::new("\\t", true, 0, None, None, None, None).unwrap();
    assert_eq!(config.describe(), "delimiter: 9, has headers: true");
}
