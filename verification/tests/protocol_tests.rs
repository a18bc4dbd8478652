use chopper::chopper::chopper::{DataSink, HeaderSink, PinId, Source};
use chopper::chopper::data_graph::{pass_on, DataChain, DataGraph, Passing};
use chopper::chopper::driver::Driver;
use chopper::chopper::header_graph::{HeaderChain, HeaderGraph};
use chopper::chopper::types::{FieldType, FieldValue, Header, Row, TimestampRange};
use chopper::error::{CliResult, Component, Error, Failure, RunError};
use std::cell::RefCell;
use std::rc::Rc;

type Journal = Rc<RefCell<Vec<String>>>;

fn header() -> Header {
    Header::new(vec!["mark".to_string()], vec![FieldType::Int])
}

fn row(timestamp: u64, mark: i32) -> Row {
    Row { timestamp, field_values: vec![FieldValue::Int(mark)] }
}

fn unbounded() -> TimestampRange {
    TimestampRange::unbounded()
}

/// A source that fails when it has handed out its rows.
struct Broken {
    header: Header,
    rows: Vec<Row>,
}

impl Source for Broken {
    fn header(&self) -> &Header {
        &self.header
    }

    fn next_row(&mut self) -> CliResult<Option<Row>> {
        if self.rows.is_empty() {
            Err(Error::Io("the stream broke".to_string()))
        } else {
            Ok(Some(self.rows.remove(0)))
        }
    }
}

/// What a probe does with a row.
#[derive(Clone, Copy, PartialEq)]
enum Manner {
    Keep,
    Pass,
    FailAt(u64),
}

/// A sink that writes down what happens to it.
struct Probe {
    name: &'static str,
    journal: Journal,
    manner: Manner,
    refuse_header: bool,
    fail_flush: bool,
    add_column: bool,
}

impl Probe {
    fn new(name: &'static str, journal: &Journal, manner: Manner) -> Probe {
        Probe {
            name,
            journal: journal.clone(),
            manner,
            refuse_header: false,
            fail_flush: false,
            add_column: false,
        }
    }

    fn note(&self, what: String) {
        self.journal.borrow_mut().push(format!("{} {}", self.name, what));
    }
}

impl HeaderSink for Probe {
    type Sink = Probe;

    fn process_header(self, header: &mut Header) -> CliResult<Probe> {
        self.note(format!("header {}", header.field_names().join("+")));
        if self.refuse_header {
            return Err(Error::Io("no header wanted".to_string()));
        }
        if self.add_column {
            header.field_names_mut().push(format!("by_{}", self.name));
            header.field_types_mut().push(FieldType::Long);
        }
        Ok(self)
    }
}

impl DataSink for Probe {
    fn write_row(&mut self, row: Row) -> CliResult<Option<Row>> {
        self.note(format!("row {}", row.timestamp));
        match self.manner {
            Manner::Keep => Ok(None),
            Manner::Pass => Ok(Some(row)),
            Manner::FailAt(time) => {
                if row.timestamp == time {
                    Err(Error::Io("the disk is full".to_string()))
                } else {
                    Ok(None)
                }
            }
        }
    }

    fn write_row_to_pin(&mut self, pin_id: PinId, row: Row) -> CliResult<Option<Row>> {
        self.note(format!("pin {}", pin_id));
        self.write_row(row)
    }

    fn flush(&mut self) -> CliResult<()> {
        self.note("flush".to_string());
        if self.fail_flush {
            Err(Error::Io(format!("{} cannot flush", self.name)))
        } else {
            Ok(())
        }
    }
}

fn journal() -> Journal {
    Rc::new(RefCell::new(Vec::new()))
}

fn notes(journal: &Journal) -> Vec<String> {
    journal.borrow().clone()
}

#[test]
fn every_header_is_processed_before_any_row_is_written() {
    let journal = journal();
    let first = HeaderChain::new(vec![
        Probe::new("a", &journal, Manner::Pass),
        Probe::new("b", &journal, Manner::Keep),
    ]);
    let second = HeaderChain::new(vec![Probe::new("c", &journal, Manner::Keep)]);
    let graph = HeaderGraph::new(vec![first, second]);
    let sources = vec![
        Broken { header: header(), rows: vec![row(1, 1)] },
        Broken { header: header(), rows: vec![row(2, 2)] },
    ];
    let driver = Driver::new(sources, graph, unbounded()).unwrap();
    let before_the_run = notes(&journal);
    assert_eq!(before_the_run, vec!["a header mark", "b header mark", "c header mark"]);
    let (_, _) = driver.drive();
    let all = notes(&journal);
    let last_header = all.iter().rposition(|note| note.contains("header")).unwrap();
    let first_row = all.iter().position(|note| note.contains("row") || note.contains("pin"));
    assert!(last_header < first_row.unwrap());
}

#[test]
fn a_sink_may_rewrite_the_header_for_the_next_sink() {
    let journal = journal();
    let mut first = Probe::new("a", &journal, Manner::Pass);
    first.add_column = true;
    let chain = HeaderChain::new(vec![first, Probe::new("b", &journal, Manner::Keep)]);
    let mut entry = header();
    let chain = chain.process_header(&mut entry).ok().unwrap();
    assert_eq!(chain.nodes().len(), 2);
    assert_eq!(notes(&journal), vec!["a header mark", "b header mark+by_a"]);
    assert_eq!(entry.field_types(), &vec![FieldType::Int, FieldType::Long]);
}

#[test]
fn a_sink_that_refuses_its_header_ends_the_negotiation() {
    let journal = journal();
    let mut second = Probe::new("b", &journal, Manner::Keep);
    second.refuse_header = true;
    let chain = HeaderChain::new(vec![
        Probe::new("a", &journal, Manner::Pass),
        second,
        Probe::new("c", &journal, Manner::Keep),
    ]);
    let graph = HeaderGraph::new(vec![chain]);
    let outcome = graph.process_header(&vec![header()]);
    assert_eq!(
        outcome.err(),
        Some(Failure {
            component: Component::Node { chain: 0, node: 1 },
            cause: Error::Io("no header wanted".to_string())
        })
    );
    assert_eq!(notes(&journal), vec!["a header mark", "b header mark"]);
}

#[test]
fn a_row_goes_on_as_long_as_it_is_handed_back() {
    let journal = journal();
    let mut chain = DataChain::new(vec![
        Probe::new("a", &journal, Manner::Pass),
        Probe::new("b", &journal, Manner::Keep),
        Probe::new("c", &journal, Manner::Keep),
    ]);
    assert!(matches!(chain.write_row_to_pin(4, row(9, 9)), Ok(None)));
    assert_eq!(notes(&journal), vec!["a pin 4", "a row 9", "b row 9"]);
}

#[test]
fn a_row_that_every_sink_hands_back_comes_out_of_the_chain() {
    let journal = journal();
    let mut chain = DataChain::new(vec![
        Probe::new("a", &journal, Manner::Pass),
        Probe::new("b", &journal, Manner::Pass),
    ]);
    match chain.write_row_to_pin(0, row(9, 9)) {
        Ok(Some(back)) => assert_eq!(back.timestamp, 9),
        _ => panic!("the row did not come back"),
    }
    assert_eq!(notes(&journal), vec!["a pin 0", "a row 9", "b row 9"]);
}

#[test]
fn a_row_that_comes_out_of_the_graph_is_no_failure() {
    let journal = journal();
    let chain = HeaderChain::new(vec![Probe::new("a", &journal, Manner::Pass)]);
    let sources = vec![Broken { header: header(), rows: vec![row(1, 1), row(2, 2)] }];
    let driver = Driver::new(sources, HeaderGraph::new(vec![chain]), unbounded()).unwrap();
    let (outcome, _) = driver.drive();
    assert_eq!(
        outcome,
        Err(RunError::Aborted(Failure {
            component: Component::Source(0),
            cause: Error::Io("the stream broke".to_string())
        }))
    );
    assert_eq!(
        notes(&journal),
        vec!["a header mark", "a pin 0", "a row 1", "a pin 0", "a row 2"]
    );
}

#[test]
fn a_source_that_fails_at_its_first_row_stops_the_run_before_it_starts() {
    let journal = journal();
    let chain = HeaderChain::new(vec![Probe::new("a", &journal, Manner::Keep)]);
    let sources = vec![Broken { header: header(), rows: vec![] }];
    let driver = Driver::new(sources, HeaderGraph::new(vec![chain]), unbounded());
    assert_eq!(
        driver.err(),
        Some(Failure {
            component: Component::Source(0),
            cause: Error::Io("the stream broke".to_string())
        })
    );
    assert_eq!(notes(&journal), vec!["a header mark"]);
}

#[test]
fn a_sink_that_fails_ends_the_run_without_a_flush() {
    let journal = journal();
    let first = HeaderChain::new(vec![Probe::new("a", &journal, Manner::Keep)]);
    let second = HeaderChain::new(vec![
        Probe::new("b", &journal, Manner::Pass),
        Probe::new("c", &journal, Manner::FailAt(3)),
    ]);
    let graph = HeaderGraph::with_pins(vec![first, second], vec![0, 1]).unwrap();
    let sources = vec![
        chopper::source::memory_source::MemorySource::new(header(), vec![row(1, 1), row(4, 4)]),
        chopper::source::memory_source::MemorySource::new(header(), vec![row(2, 2), row(3, 3)]),
    ];
    let driver = Driver::new(sources, graph, unbounded()).unwrap();
    let (outcome, _) = driver.drive();
    assert_eq!(
        outcome,
        Err(RunError::Aborted(Failure {
            component: Component::Node { chain: 1, node: 1 },
            cause: Error::Io("the disk is full".to_string())
        }))
    );
    assert_eq!(
        notes(&journal),
        vec![
            "a header mark",
            "b header mark",
            "c header mark",
            "a pin 0",
            "a row 1",
            "b pin 1",
            "b row 2",
            "c row 2",
            "b pin 1",
            "b row 3",
            "c row 3",
        ]
    );
}

#[test]
fn every_sink_is_flushed_and_every_failure_is_reported() {
    let journal = journal();
    let mut a = Probe::new("a", &journal, Manner::Keep);
    a.fail_flush = true;
    let b = Probe::new("b", &journal, Manner::Keep);
    let mut c = Probe::new("c", &journal, Manner::Keep);
    c.fail_flush = true;
    let first = HeaderChain::new(vec![a, b]);
    let second = HeaderChain::new(vec![c]);
    let graph = HeaderGraph::with_pins(vec![first, second], vec![0, 1]).unwrap();
    let sources = vec![
        chopper::source::memory_source::MemorySource::new(header(), vec![row(1, 1)]),
        chopper::source::memory_source::MemorySource::new(header(), vec![]),
    ];
    let driver = Driver::new(sources, graph, unbounded()).unwrap();
    let (outcome, _) = driver.drive();
    assert_eq!(
        outcome,
        Err(RunError::Unflushed(vec![
            Failure {
                component: Component::Node { chain: 0, node: 0 },
                cause: Error::Io("a cannot flush".to_string())
            },
            Failure {
                component: Component::Node { chain: 1, node: 0 },
                cause: Error::Io("c cannot flush".to_string())
            },
        ]))
    );
    let all = notes(&journal);
    assert_eq!(&all[all.len() - 3..], &["a flush", "b flush", "c flush"]);
}

#[test]
fn a_chain_reports_the_places_of_the_flushes_that_failed() {
    let journal = journal();
    let mut b = Probe::new("b", &journal, Manner::Keep);
    b.fail_flush = true;
    let mut c = Probe::new("c", &journal, Manner::Keep);
    c.fail_flush = true;
    let mut chain = DataChain::new(vec![Probe::new("a", &journal, Manner::Keep), b, c]);
    let failures = chain.flush();
    assert_eq!(
        failures,
        vec![
            (1, Error::Io("b cannot flush".to_string())),
            (2, Error::Io("c cannot flush".to_string())),
        ]
    );
    assert_eq!(notes(&journal), vec!["a flush", "b flush", "c flush"]);
}

#[test]
fn a_graph_reports_the_flushes_that_failed_in_the_order_of_its_chains() {
    let journal = journal();
    let mut a = Probe::new("a", &journal, Manner::Keep);
    a.fail_flush = true;
    let mut c = Probe::new("c", &journal, Manner::Keep);
    c.fail_flush = true;
    let mut d = Probe::new("d", &journal, Manner::Keep);
    d.fail_flush = true;
    let first = DataChain::new(vec![a, Probe::new("b", &journal, Manner::Keep)]);
    let second = DataChain::new(vec![c, d]);
    let mut graph = DataGraph::new(vec![first, second], vec![0, 1]).unwrap();
    let failures = graph.flush();
    let places: Vec<Component> = failures.iter().map(|failure| failure.component).collect();
    assert_eq!(
        places,
        vec![
            Component::Node { chain: 0, node: 0 },
            Component::Node { chain: 1, node: 0 },
            Component::Node { chain: 1, node: 1 },
        ]
    );
    assert_eq!(notes(&journal), vec!["a flush", "b flush", "c flush", "d flush"]);
}

#[test]
fn no_row_reaches_a_sink_when_a_first_row_does_not_fit_its_header() {
    let journal = journal();
    let chain = HeaderChain::new(vec![Probe::new("a", &journal, Manner::Keep)]);
    let wide = Header::new(
        vec!["x".to_string(), "y".to_string(), "z".to_string()],
        vec![FieldType::Int, FieldType::Int, FieldType::Int],
    );
    let short = Row { timestamp: 1, field_values: vec![FieldValue::Int(1), FieldValue::Int(2)] };
    let sources = vec![Broken { header: wide, rows: vec![short] }];
    let driver = Driver::new(sources, HeaderGraph::new(vec![chain]), unbounded());
    assert_eq!(
        driver.err(),
        Some(Failure { component: Component::Source(0), cause: Error::SchemaMismatch })
    );
    assert_eq!(notes(&journal), vec!["a header x+y+z"]);
}

#[test]
fn a_row_that_is_handed_back_goes_on_unless_the_sink_is_the_last() {
    match pass_on(2, false, Ok(Some(row(5, 5)))) {
        Passing::Onward(next) => assert_eq!(next.timestamp, 5),
        other => panic!("unexpected {:?}", other),
    }
    match pass_on(2, true, Ok(Some(row(5, 5)))) {
        Passing::Done(Ok(Some(out))) => assert_eq!(out.timestamp, 5),
        other => panic!("unexpected {:?}", other),
    }
}

#[test]
fn a_sink_that_hands_nothing_back_ends_the_delivery() {
    assert!(matches!(pass_on(2, false, Ok(None)), Passing::Done(Ok(None))));
    assert!(matches!(pass_on(2, true, Ok(None)), Passing::Done(Ok(None))));
}

#[test]
fn a_sink_that_fails_ends_the_delivery_with_its_place() {
    match pass_on(2, false, Err(Error::Io("full".to_string()))) {
        Passing::Done(Err((node, cause))) => {
            assert_eq!(node, 2);
            assert_eq!(cause, Error::Io("full".to_string()));
        }
        other => panic!("unexpected {:?}", other),
    }
}

#[test]
fn the_sinks_after_the_end_of_a_delivery_are_not_called() {
    let journal = journal();
    let mut chain = DataChain::new(vec![
        Probe::new("a", &journal, Manner::Pass),
        Probe::new("b", &journal, Manner::FailAt(9)),
        Probe::new("c", &journal, Manner::Keep),
    ]);
    match chain.write_row_to_pin(1, row(9, 9)) {
        Err((node, cause)) => {
            assert_eq!(node, 1);
            assert_eq!(cause, Error::Io("the disk is full".to_string()));
        }
        _ => panic!("the failure was lost"),
    }
    assert_eq!(notes(&journal), vec!["a pin 1", "a row 9", "b row 9"]);
}
