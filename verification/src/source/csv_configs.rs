//! How delimited text is read and written.

use crate::error::{CliResult, Error};
use crate::util::csv_util::{delimiter_of, offset_of_zone, parse_into_delimiter, zone_offset};
use crate::util::decimal::{decimal, push_decimal};
use vstd::prelude::*;
use vstd::string::*;

verus! {

/// The delimiter of a configuration that names none.
pub const DELIMITER_DEFAULT: &'static str = ",";

/// The column that holds the date where none is named.
pub const TIMESTAMP_COL_DATE_DEFAULT: usize = 0;

/// The time of day of a row that gives none.
pub const DEFAULT_TIME: &'static str = "00:00:00";

/// The offset from UTC where no time zone is named.
pub const DEFAULT_ZONE: &'static str = "+0000";

/// The format of a date where none is given.
pub const DEFAULT_DATE_FORMAT: &'static str = "%Y%m%d";

/// The format of a time of day where none is given.
pub const DEFAULT_TIME_FORMAT: &'static str = "%H:%M:%S";

/// The format of the offset from UTC.
pub const DEFAULT_ZONE_FORMAT: &'static str = "%z";

/// The characters of [`DELIMITER_DEFAULT`].
pub open spec fn delimiter_default() -> Seq<char> {
    seq![',']
}

/// The characters of [`DEFAULT_ZONE`].
pub open spec fn default_zone() -> Seq<char> {
    seq!['+', '0', '0', '0', '0']
}

/// The characters of [`DEFAULT_DATE_FORMAT`].
pub open spec fn default_date_format() -> Seq<char> {
    seq!['%', 'Y', '%', 'm', '%', 'd']
}

/// The characters of [`DEFAULT_TIME_FORMAT`].
pub open spec fn default_time_format() -> Seq<char> {
    seq!['%', 'H', ':', '%', 'M', ':', '%', 'S']
}

/// The characters of [`DEFAULT_ZONE_FORMAT`].
pub open spec fn default_zone_format() -> Seq<char> {
    seq!['%', 'z']
}

/// What an input configuration holds.
pub struct CSVInputConfigView {
    pub delimiter: u8,
    pub has_header: bool,
    pub timestamp_col_date: usize,
    pub timestamp_col_time: Option<usize>,
    pub timestamp_format: Option<Seq<char>>,
    pub time_zone: Seq<char>,
}

/// How delimited text is read: the delimiter, whether a header line comes
/// first, and where and in what format the time of a row stands.
#[derive(Clone, Debug)]
pub struct CSVInputConfig {
    delimiter: u8,
    has_header: bool,
    timestamp_col_date: usize,
    timestamp_col_time: Option<usize>,
    timestamp_format: Option<String>,
    time_zone: String,
}

/// What an output configuration holds.
pub struct CSVOutputConfigView {
    pub delimiter: Seq<char>,
    pub print_timestamp: bool,
}

/// How delimited text is written: the delimiter, and whether each row begins
/// with its time.
#[derive(Clone, Debug)]
pub struct CSVOutputConfig {
    delimiter: String,
    print_timestamp: bool,
}

/// The format of a whole timestamp: that of the date, that of the time of day,
/// and that of the offset from UTC, each of the first two the default where none
/// is given.
pub open spec fn timestamp_format_of(date: Option<Seq<char>>, time: Option<Seq<char>>) -> Seq<
    char,
> {
    let date = match date {
        Some(date) => date,
        None => default_date_format(),
    };
    let time = match time {
        Some(time) => time,
        None => default_time_format(),
    };
    date + time + default_zone_format()
}

/// The offset from UTC that a configuration holds for a time zone given by
/// name, the default where no zone is named, none where the name is unknown.
pub open spec fn configured_zone(time_zone: Option<Seq<char>>) -> Option<Seq<char>> {
    match time_zone {
        Some(name) => zone_offset(name),
        None => Some(default_zone()),
    }
}

/// What an input configuration says of itself: the number of its delimiter and
/// whether a header line comes first.
pub open spec fn description(delimiter: u8, has_header: bool) -> Seq<char> {
    seq!['d', 'e', 'l', 'i', 'm', 'i', 't', 'e', 'r', ':', ' '] + decimal(delimiter as nat) + seq![
        ',',
        ' ',
        'h',
        'a',
        's',
        ' ',
        'h',
        'e',
        'a',
        'd',
        'e',
        'r',
        's',
        ':',
        ' ',
    ] + if has_header {
        seq!['t', 'r', 'u', 'e']
    } else {
        seq!['f', 'a', 'l', 's', 'e']
    }
}

/// The characters of an optional text.
pub open spec fn characters(text: Option<&str>) -> Option<Seq<char>> {
    match text {
        Some(text) => Some(text@),
        None => None,
    }
}

impl View for CSVInputConfig {
    type V = CSVInputConfigView;

    closed spec fn view(&self) -> CSVInputConfigView {
        CSVInputConfigView {
            delimiter: self.delimiter,
            has_header: self.has_header,
            timestamp_col_date: self.timestamp_col_date,
            timestamp_col_time: self.timestamp_col_time,
            timestamp_format: match self.timestamp_format {
                Some(format) => Some(format@),
                None => None,
            },
            time_zone: self.time_zone@,
        }
    }
}

impl CSVInputConfig {
    /// A configuration of the given settings. The delimiter is given by name. The
    /// format of a timestamp is put together from the formats of the date and of
    /// the time of day. The time zone is given by name, `utc` or `ny` in any mix
    /// of upper and lower case, and kept as its offset.
    ///
    /// A delimiter that names none is refused; after that, a time zone that is
    /// not known.
    pub fn new(
        delimiter: &str,
        has_header: bool,
        timestamp_col_date: usize,
        timestamp_col_time: Option<usize>,
        timestamp_format_date: Option<&str>,
        timestamp_format_time: Option<&str>,
        time_zone: Option<&str>,
    ) -> (config: CliResult<Self>)
        ensures
            match config {
                Ok(config) => {
                    &&& delimiter_of(delimiter@) == Ok::<u8, Error>(config@.delimiter)
                    &&& config@.has_header == has_header
                    &&& config@.timestamp_col_date == timestamp_col_date
                    &&& config@.timestamp_col_time == timestamp_col_time
                    &&& config@.timestamp_format == Some(
                        timestamp_format_of(
                            characters(timestamp_format_date),
                            characters(timestamp_format_time),
                        ),
                    )
                    &&& configured_zone(characters(time_zone)) == Some(config@.time_zone)
                },
                Err(error) => if delimiter_of(delimiter@) is Err {
                    error == Error::MalformedDelimiter
                } else {
                    error == Error::UnknownTimeZone && configured_zone(characters(time_zone))
                        is None
                },
            },
    {
        let delimiter = match parse_into_delimiter(delimiter) {
            Ok(delimiter) => delimiter,
            Err(error) => {
                return Err(error);
            },
        };
        let date = match timestamp_format_date {
            Some(format) => format,
            None => DEFAULT_DATE_FORMAT,
        };
        let time = match timestamp_format_time {
            Some(format) => format,
            None => DEFAULT_TIME_FORMAT,
        };
        let mut timestamp_format = String::from_str(date);
        timestamp_format.append(time);
        timestamp_format.append(DEFAULT_ZONE_FORMAT);
        proof {
            reveal_strlit("%Y%m%d");
            reveal_strlit("%H:%M:%S");
            reveal_strlit("%z");
            reveal_strlit("+0000");
            assert(DEFAULT_DATE_FORMAT@ =~= default_date_format());
            assert(DEFAULT_TIME_FORMAT@ =~= default_time_format());
            assert(DEFAULT_ZONE_FORMAT@ =~= default_zone_format());
            assert(DEFAULT_ZONE@ =~= default_zone());
        }
        let time_zone = match time_zone {
            Some(name) => match offset_of_zone(name) {
                Some(offset) => String::from_str(offset),
                None => {
                    return Err(Error::UnknownTimeZone);
                },
            },
            None => String::from_str(DEFAULT_ZONE),
        };
        Ok(
            CSVInputConfig {
                delimiter,
                has_header,
                timestamp_col_date,
                timestamp_col_time,
                timestamp_format: Some(timestamp_format),
                time_zone,
            },
        )
    }

    /// The configuration of text that is delimited by commas, has no header
    /// line, holds the date in its first column and names no format; times are
    /// taken as UTC.
    pub fn new_default() -> (config: CliResult<Self>)
        ensures
            config is Ok,
            config->Ok_0@ == (CSVInputConfigView {
                delimiter: 44,
                has_header: false,
                timestamp_col_date: 0,
                timestamp_col_time: None,
                timestamp_format: None,
                time_zone: default_zone(),
            }),
    {
        proof {
            reveal_strlit(",");
            reveal_strlit("+0000");
            assert(DELIMITER_DEFAULT@ =~= seq![',']);
            assert(DEFAULT_ZONE@ =~= default_zone());
            assert(delimiter_of(seq![',']) == Ok::<u8, Error>(44)) by {
                assert(seq![','] != seq!['\\', 't']) by {
                    assert(seq![','].len() == 1);
                    assert(seq!['\\', 't'].len() == 2);
                }
                assert(seq![','][0] == ',');
            }
        }
        let delimiter = match parse_into_delimiter(DELIMITER_DEFAULT) {
            Ok(delimiter) => delimiter,
            Err(error) => {
                return Err(error);
            },
        };
        Ok(
            CSVInputConfig {
                delimiter,
                has_header: false,
                timestamp_col_date: TIMESTAMP_COL_DATE_DEFAULT,
                timestamp_col_time: None,
                timestamp_format: None,
                time_zone: String::from_str(DEFAULT_ZONE),
            },
        )
    }

    /// The delimiter and whether a header line comes first, for a reader.
    pub fn describe(&self) -> (text: String)
        ensures
            text@ == description(self@.delimiter, self@.has_header),
    {
        let mut text = String::from_str("delimiter: ");
        push_decimal(&mut text, self.delimiter as u64);
        text.append(", has headers: ");
        if self.has_header {
            text.append("true");
        } else {
            text.append("false");
        }
        proof {
            reveal_strlit("delimiter: ");
            reveal_strlit(", has headers: ");
            reveal_strlit("true");
            reveal_strlit("false");
            assert(text@ =~= description(self@.delimiter, self@.has_header));
        }
        text
    }

    /// Whether the text begins with a header line.
    pub fn has_header(&self) -> (has_header: bool)
        ensures
            has_header == self@.has_header,
    {
        self.has_header
    }

    /// The byte that separates the columns.
    pub fn delimiter(&self) -> (delimiter: u8)
        ensures
            delimiter == self@.delimiter,
    {
        self.delimiter
    }

    /// The column that holds the date, or the whole timestamp.
    pub fn timestamp_col_date(&self) -> (column: usize)
        ensures
            column == self@.timestamp_col_date,
    {
        self.timestamp_col_date
    }

    /// The column that holds the time of day, where it has one of its own.
    pub fn timestamp_col_time(&self) -> (column: Option<usize>)
        ensures
            column == self@.timestamp_col_time,
    {
        self.timestamp_col_time
    }

    /// The format of a timestamp, where one was put together.
    pub fn timestamp_format(&self) -> (format: Option<&String>)
        ensures
            match format {
                Some(format) => self@.timestamp_format == Some(format@),
                None => self@.timestamp_format is None,
            },
    {
        self.timestamp_format.as_ref()
    }

    /// The offset from UTC of the times in the text.
    pub fn time_zone(&self) -> (offset: &str)
        ensures
            offset@ == self@.time_zone,
    {
        self.time_zone.as_str()
    }
}

impl View for CSVOutputConfig {
    type V = CSVOutputConfigView;

    closed spec fn view(&self) -> CSVOutputConfigView {
        CSVOutputConfigView { delimiter: self.delimiter@, print_timestamp: self.print_timestamp }
    }
}

impl CSVOutputConfig {
    /// A configuration of the given delimiter, which is written as it is.
    pub fn new(delimiter: &str, print_timestamp: bool) -> (config: Self)
        ensures
            config@.delimiter == delimiter@,
            config@.print_timestamp == print_timestamp,
    {
        CSVOutputConfig { delimiter: String::from_str(delimiter), print_timestamp }
    }

    /// The configuration of text that is delimited by commas and begins each
    /// row with its time.
    pub fn new_default() -> (config: Self)
        ensures
            config@.delimiter == delimiter_default(),
            config@.print_timestamp,
    {
        proof {
            reveal_strlit(",");
            assert(DELIMITER_DEFAULT@ =~= delimiter_default());
        }
        CSVOutputConfig { delimiter: String::from_str(DELIMITER_DEFAULT), print_timestamp: true }
    }

    /// The text that separates the columns.
    pub fn delimiter(&self) -> (delimiter: &String)
        ensures
            delimiter@ == self@.delimiter,
    {
        &self.delimiter
    }

    /// Whether each row begins with its time.
    pub fn print_timestamp(&self) -> (print_timestamp: bool)
        ensures
            print_timestamp == self@.print_timestamp,
    {
        self.print_timestamp
    }
}

} // verus!
