//! The driver: it reads the sources, merges their rows, and hands the merged
//! stream to the graph.

use crate::chopper::chopper::{DataSink, HeaderSink, Source};
use crate::chopper::data_graph::{
    fresh, graph_failures, is_node_of, same_flushes, ChainId, DataGraph,
};
use crate::chopper::header_graph::{views, HeaderGraph};
use crate::chopper::merge::{
    advanced, ended, first_least, heads, in_order, lemma_merge_end, lemma_merge_ordered,
    lemma_merge_step, lemma_total_update, merge, ordered, precedes, rows_of, slot_heads, total,
    Action, Merger, Slot, Tagged,
};
use crate::chopper::types::{Header, HeaderView, Row, TimestampRange};
use crate::error::{Component, Error, Failure, RunError};
use vstd::prelude::*;

verus! {

/// The rows that each source has yet to give to the merge: the row that the
/// merge holds for it, if any, and then the rows that the source has yet to hand
/// out. A source that is done gives no more rows, whatever it still holds.
pub open spec fn pending_of<S: Source>(sources: Seq<S>, slots: Seq<Slot>) -> Seq<Seq<Row>> {
    Seq::new(
        sources.len(),
        |i: int|
            match slots[i] {
                Slot::Ready(row) => seq![row] + sources[i].remaining(),
                Slot::Waiting => sources[i].remaining(),
                Slot::Exhausted => Seq::empty(),
            },
    )
}

/// The test that a tagged row goes to the given chain: the pin of its source
/// leads there.
pub open spec fn leads_to(pins: Seq<ChainId>, chain: int) -> spec_fn(Tagged) -> bool {
    |tagged: Tagged| 0 <= tagged.source < pins.len() && pins[tagged.source] == chain
}

/// The rows of a tagged stream that go to the given chain, in their order.
pub open spec fn routed(stream: Seq<Tagged>, pins: Seq<ChainId>, chain: int) -> Seq<Row> {
    rows_of(stream.filter(leads_to(pins, chain)))
}

/// One more row in the stream is one more row for the chain that it goes to,
/// and none for the others.
pub proof fn lemma_routed_push(stream: Seq<Tagged>, pins: Seq<ChainId>, chain: int, next: Tagged)
    ensures
        routed(stream.push(next), pins, chain) == if leads_to(pins, chain)(next) {
            routed(stream, pins, chain).push(next.row)
        } else {
            routed(stream, pins, chain)
        },
{
    reveal(Seq::filter);
    let test = leads_to(pins, chain);
    assert(stream.push(next).drop_last() =~= stream);
    if test(next) {
        assert(rows_of(stream.filter(test).push(next)) =~= rows_of(stream.filter(test)).push(
            next.row,
        ));
    }
}

/// Leaving rows out of a stream in which every row goes before every later one
/// gives such a stream.
pub proof fn lemma_filter_keeps_order(stream: Seq<Tagged>, test: spec_fn(Tagged) -> bool)
    requires
        in_order(stream),
    ensures
        in_order(stream.filter(test)),
    decreases stream.len(),
{
    reveal(Seq::filter);
    if stream.len() > 0 {
        let front = stream.drop_last();
        let last = stream.last();
        assert forall|a: int, b: int| 0 <= a < b < front.len() implies precedes(
            (#[trigger] front[a]).row.timestamp,
            front[a].source,
            (#[trigger] front[b]).row.timestamp,
            front[b].source,
        ) by {
            assert(front[a] == stream[a]);
            assert(front[b] == stream[b]);
        }
        lemma_filter_keeps_order(front, test);
        let kept = front.filter(test);
        if test(last) {
            assert forall|a: int, b: int| 0 <= a < b < kept.push(last).len() implies precedes(
                (#[trigger] kept.push(last)[a]).row.timestamp,
                kept.push(last)[a].source,
                (#[trigger] kept.push(last)[b]).row.timestamp,
                kept.push(last)[b].source,
            ) by {
                if b == kept.len() {
                    assert(kept.contains(kept[a]));
                    front.lemma_filter_contains_rev(test, kept[a]);
                    let at = choose|n: int| 0 <= n < front.len() && front[n] == kept[a];
                    assert(stream[at] == kept[a]);
                    assert(stream[stream.len() - 1] == last);
                } else {
                    assert(kept.push(last)[a] == kept[a]);
                    assert(kept.push(last)[b] == kept[b]);
                }
            }
        }
    }
}

/// The rows that a chain receives from sources that are each ordered by time
/// are ordered by time, and rows of one time come in the order in which their
/// sources were registered.
pub proof fn lemma_routed_in_order(
    pending: Seq<Seq<Row>>,
    range: TimestampRange,
    pins: Seq<ChainId>,
    chain: int,
)
    requires
        forall|j: int| 0 <= j < pending.len() ==> ordered(#[trigger] pending[j]),
    ensures
        in_order(merge(pending, range).filter(leads_to(pins, chain))),
        ordered(routed(merge(pending, range), pins, chain)),
{
    lemma_merge_ordered(pending, range);
    lemma_filter_keeps_order(merge(pending, range), leads_to(pins, chain));
    let kept = merge(pending, range).filter(leads_to(pins, chain));
    let rows = routed(merge(pending, range), pins, chain);
    assert forall|a: int, b: int| 0 <= a <= b < rows.len() implies rows[a].timestamp
        <= rows[b].timestamp by {
        if a < b {
            assert(precedes(
                kept[a].row.timestamp,
                kept[a].source,
                kept[b].row.timestamp,
                kept[b].source,
            ));
        }
    }
}

/// Taking the row that the merge holds for a source leaves the rows that come
/// after it; ending the source leaves none.
proof fn lemma_pending_after_take<S: Source>(sources: Seq<S>, slots: Seq<Slot>, source: int, row: Row)
    requires
        0 <= source < sources.len(),
        sources.len() == slots.len(),
        slots[source] == Slot::Ready(row),
    ensures
        pending_of(sources, slots.update(source, Slot::Waiting)) == advanced(
            pending_of(sources, slots),
            source,
        ),
        pending_of(sources, slots.update(source, Slot::Exhausted)) == ended(
            pending_of(sources, slots),
            source,
        ),
{
    let held = pending_of(sources, slots);
    let taken = pending_of(sources, slots.update(source, Slot::Waiting));
    let closed = pending_of(sources, slots.update(source, Slot::Exhausted));
    assert forall|j: int| 0 <= j < held.len() implies #[trigger] taken[j] == advanced(
        held,
        source,
    )[j] by {
        if j == source {
            assert(taken[j] =~= held[j].drop_first());
        }
    }
    assert(taken =~= advanced(held, source));
    assert(closed =~= ended(held, source));
}

/// What the driver makes of what a source returned: a failure of the source is
/// a failure of the run at that source, and so is a row that does not conform to
/// the header of the source; any other row, and the end of the stream, are
/// taken as they are.
pub open spec fn examined(source: usize, next: Result<Option<Row>, Error>, header: HeaderView) -> Result<
    Option<Row>,
    Failure,
> {
    match next {
        Err(cause) => Err(Failure { component: Component::Source(source), cause }),
        Ok(Some(row)) => if row.conforms(header) {
            Ok(Some(row))
        } else {
            Err(Failure { component: Component::Source(source), cause: Error::SchemaMismatch })
        },
        Ok(None) => Ok(None),
    }
}

/// Judges what a source returned.
pub fn examine(source: usize, next: Result<Option<Row>, Error>, header: &Header) -> (judged: Result<
    Option<Row>,
    Failure,
>)
    ensures
        judged == examined(source, next, header@),
{
    match next {
        Err(cause) => Err(Failure { component: Component::Source(source), cause }),
        Ok(Some(row)) => match row.check(header) {
            Ok(_) => Ok(Some(row)),
            Err(cause) => Err(Failure { component: Component::Source(source), cause }),
        },
        Ok(None) => Ok(None),
    }
}

/// Reads the next row of a source that the merger waits for, checks it against
/// the header of the source, and supplies it.
fn refill<S: Source>(sources: &mut Vec<S>, merger: &mut Merger, source: usize) -> (refilled: Result<
    (),
    Failure,
>)
    requires
        source < old(sources).len(),
        old(sources).len() == old(merger)@.slots.len(),
        old(merger)@.slots[source as int] is Waiting,
    ensures
        final(sources).len() == old(sources).len(),
        final(merger)@.timestamp_range == old(merger)@.timestamp_range,
        final(merger)@.slots.len() == old(merger)@.slots.len(),
        forall|j: int|
            0 <= j < old(sources).len() && j != source ==> (#[trigger] final(sources)[j]) == old(
                sources,
            )[j],
        forall|j: int|
            0 <= j < old(sources).len() && j != source ==> (#[trigger] final(merger)@.slots[j])
                == old(merger)@.slots[j],
        final(sources)[source as int].schema() == old(sources)[source as int].schema(),
        match refilled {
            Ok(_) => {
                &&& !(final(merger)@.slots[source as int] is Waiting)
                &&& final(merger)@.slots[source as int] matches Slot::Ready(row) ==> row.conforms(
                    old(sources)[source as int].schema(),
                )
                &&& pending_of(final(sources)@, final(merger)@.slots) == pending_of(
                    old(sources)@,
                    old(merger)@.slots,
                )
            },
            Err(failure) => failure.component == Component::Source(source),
        },
{
    let read = sources[source].next_row();
    let next = match examine(source, read, sources[source].header()) {
        Ok(next) => next,
        Err(failure) => {
            return Err(failure);
        },
    };
    match merger.supply(source, next) {
        Ok(_) => {},
        Err(cause) => {
            return Err(Failure { component: Component::Source(source), cause });
        },
    }
    proof {
        let before = pending_of(old(sources)@, old(merger)@.slots);
        let after = pending_of(sources@, merger@.slots);
        assert forall|j: int| 0 <= j < before.len() implies #[trigger] after[j] == before[j] by {
            if j == source {
                assert(after[j] =~= before[j]);
            } else {
                assert(sources[j] == old(sources)[j]);
            }
        }
        assert(after =~= before);
    }
    Ok(())
}

/// Whether every one of the lists is empty.
pub open spec fn drained<A>(lists: Seq<Seq<A>>) -> bool {
    forall|i: int| 0 <= i < lists.len() ==> (#[trigger] lists[i]).len() == 0
}

/// Whether the merge waits for a row of some source.
pub open spec fn awaited(slots: Seq<Slot>) -> bool {
    exists|i: int| 0 <= i < slots.len() && slots[i] is Waiting
}

/// Whether no sink of any chain has received a row or was asked to flush.
pub open spec fn untouched<D: DataSink>(chains: Seq<Seq<D>>) -> bool {
    forall|chain: int| 0 <= chain < chains.len() ==> fresh(#[trigger] chains[chain])
}

/// Whether the chains have the sinks that they had, each with its header, and
/// no sink was asked to flush.
pub open spec fn unflushed<D: DataSink>(before: Seq<Seq<D>>, after: Seq<Seq<D>>) -> bool {
    &&& after.len() == before.len()
    &&& forall|chain: int|
        0 <= chain < before.len() ==> same_flushes(before[chain], #[trigger] after[chain])
}

/// Whether the chains have the sinks that they had, each with its header, and
/// every sink was asked to flush once.
pub open spec fn flushed<D: DataSink>(before: Seq<Seq<D>>, after: Seq<Seq<D>>) -> bool {
    &&& after.len() == before.len()
    &&& forall|chain: int|
        0 <= chain < before.len() ==> {
            &&& (#[trigger] after[chain]).len() == before[chain].len()
            &&& forall|k: int|
                0 <= k < before[chain].len() ==> {
                    &&& (#[trigger] after[chain][k]).flushes() == before[chain][k].flushes() + 1
                    &&& after[chain][k].negotiated() == before[chain][k].negotiated()
                }
        }
}

/// Whether the first sink of each chain has received, after what it had
/// received before, the rows of the stream that go to its chain. Nothing is
/// said of the chain that is spared, if one is.
pub open spec fn delivered<D: DataSink>(
    before: Seq<Seq<D>>,
    after: Seq<Seq<D>>,
    stream: Seq<Tagged>,
    pins: Seq<ChainId>,
    spared: Option<int>,
) -> bool {
    forall|chain: int|
        0 <= chain < before.len() && before[chain].len() > 0 && spared != Some(chain) ==> (
        #[trigger] after[chain])[0].received() == before[chain][0].received() + routed(
            stream,
            pins,
            chain,
        )
}

/// The chain that a failure leaves in an unknown state: that of the node that
/// failed, if a node failed.
pub open spec fn spared_by(component: Component) -> Option<int> {
    match component {
        Component::Node { chain, node } => Some(chain as int),
        _ => None,
    }
}

/// Whether every row of the stream conforms to the header of its source.
pub open spec fn conforming(stream: Seq<Tagged>, schemas: Seq<HeaderView>) -> bool {
    forall|k: int|
        0 <= k < stream.len() ==> {
            &&& 0 <= (#[trigger] stream[k]).source < schemas.len()
            &&& stream[k].row.conforms(schemas[stream[k].source])
        }
}

/// What the header of each source says.
pub open spec fn schemas_of<S: Source>(sources: Seq<S>) -> Seq<HeaderView> {
    Seq::new(sources.len(), |i: int| sources[i].schema())
}

/// A run: the sources, the graph that their rows go to, and the merge between
/// them. The rows of source `i` go into the graph through pin `i`.
pub struct Driver<S: Source, D: DataSink> {
    sources: Vec<S>,
    graph: DataGraph<D>,
    merger: Merger,
}

impl<S: Source, D: DataSink> Driver<S, D> {
    #[verifier::type_invariant]
    spec fn primed(self) -> bool {
        &&& self.sources.len() == self.merger@.slots.len()
        &&& self.sources.len() == self.graph.pins().len()
        &&& forall|i: int|
            0 <= i < self.merger@.slots.len() ==> !((#[trigger] self.merger@.slots[i]) is Waiting)
        &&& forall|i: int|
            0 <= i < self.merger@.slots.len() ==> ((#[trigger] self.merger@.slots[i]) matches Slot::Ready(
                row,
            ) ==> row.conforms(self.sources[i].schema()))
    }

    /// The rows that each source has yet to give to the merge.
    pub closed spec fn pending(&self) -> Seq<Seq<Row>> {
        pending_of(self.sources@, self.merger@.slots)
    }

    /// What the header of each source says.
    pub closed spec fn schemas(&self) -> Seq<HeaderView> {
        schemas_of(self.sources@)
    }

    /// The time window of the run.
    pub closed spec fn timestamp_range(&self) -> TimestampRange {
        self.merger@.timestamp_range
    }

    /// The graph that the rows go to.
    pub closed spec fn graph(&self) -> DataGraph<D> {
        self.graph
    }

    /// Sets up a run. There must be one source for each pin of the graph. The
    /// header of source `i` is handed to the graph through pin `i`, and only
    /// when every sink has taken its header is the first row of each source
    /// read and checked against the header of its source.
    ///
    /// In the driver that is returned the first sink of each chain was handed
    /// the one header that was made of the headers of the sources of its chain,
    /// no sink has received a row, the rows to be merged are those that the
    /// sources had to hand out, and the first row of each source conforms to the
    /// header of its source. Headers that cannot be reconciled for a chain are
    /// refused before any sink sees a header.
    pub fn new<K: HeaderSink<Sink = D>>(
        sources: Vec<S>,
        graph: HeaderGraph<K>,
        timestamp_range: TimestampRange,
    ) -> (driver: Result<Self, Failure>)
        ensures
            sources.len() != graph.pins().len() ==> {
                &&& driver matches Err(failure)
                &&& failure.component == Component::Graph
                &&& failure.cause == Error::InvalidGraph
            },
            sources.len() == 0 && graph.pins().len() == 0 && graph.lengths().len() == 0
                ==> driver is Ok,
            sources.len() == graph.pins().len() ==> match driver {
                Ok(driver) => {
                    &&& driver.timestamp_range() == timestamp_range
                    &&& driver.schemas() == schemas_of(sources@)
                    &&& driver.pending() == Seq::new(
                        sources.len() as nat,
                        |i: int| sources[i].remaining(),
                    )
                    &&& forall|i: int|
                        0 <= i < sources.len() && (#[trigger] sources[i]).remaining().len() > 0
                            ==> sources[i].remaining()[0].conforms(sources[i].schema())
                    &&& forall|chain: int|
                        0 <= chain < graph.lengths().len() ==> #[trigger] graph.reconcilable(
                            schemas_of(sources@),
                            chain,
                        )
                    &&& driver.graph().pins() == graph.pins()
                    &&& driver.graph().chains().len() == graph.lengths().len()
                    &&& forall|chain: int|
                        0 <= chain < graph.lengths().len() ==> {
                            &&& (#[trigger] driver.graph().chains()[chain]).len()
                                == graph.lengths()[chain]
                            &&& driver.graph().chains()[chain].len() > 0
                                ==> driver.graph().chains()[chain][0].negotiated()
                                == graph.entry_header(schemas_of(sources@), chain)
                        }
                    &&& untouched(driver.graph().chains())
                },
                Err(failure) => match failure.component {
                    Component::Chain(chain) => {
                        &&& failure.cause == Error::HeaderMismatch
                        &&& chain < graph.lengths().len()
                        &&& !graph.reconcilable(schemas_of(sources@), chain as int)
                    },
                    Component::Node { chain, node } => {
                        &&& chain < graph.lengths().len()
                        &&& node < graph.lengths()[chain as int]
                        &&& forall|any: int|
                            0 <= any < graph.lengths().len() ==> #[trigger] graph.reconcilable(
                                schemas_of(sources@),
                                any,
                            )
                    },
                    Component::Source(source) => {
                        &&& source < sources.len()
                        &&& forall|any: int|
                            0 <= any < graph.lengths().len() ==> #[trigger] graph.reconcilable(
                                schemas_of(sources@),
                                any,
                            )
                    },
                    Component::Graph => false,
                },
            },
    {
        let mut readers = sources;
        let count = readers.len();
        if count != graph.pin_count() {
            return Err(Failure { component: Component::Graph, cause: Error::InvalidGraph });
        }
        let mut headers: Vec<Header> = Vec::new();
        let mut index: usize = 0;
        while index < count
            invariant
                index <= count,
                count == readers.len(),
                readers@ == sources@,
                headers.len() == index,
                forall|i: int| 0 <= i < index ==> (#[trigger] headers[i])@ == sources[i].schema(),
            decreases count - index,
        {
            headers.push(readers[index].header().duplicate());
            index += 1;
        }
        assert(views(headers@) =~= schemas_of(sources@));
        let data = match graph.process_header(&headers) {
            Ok(data) => data,
            Err(failure) => {
                return Err(failure);
            },
        };
        proof {
            assert forall|any: int| 0 <= any < graph.lengths().len() implies #[trigger] graph.reconcilable(
                schemas_of(sources@),
                any,
            ) by {
                assert(data.chains()[any].len() == graph.lengths()[any]);
            }
        }
        let mut merger = Merger::new(count, timestamp_range);
        assert(pending_of(readers@, merger@.slots) =~= Seq::new(
            count as nat,
            |i: int| sources[i].remaining(),
        ));
        index = 0;
        while index < count
            invariant
                index <= count,
                count == readers.len(),
                count == sources.len(),
                count == graph.pins().len(),
                count == merger@.slots.len(),
                merger@.timestamp_range == timestamp_range,
                schemas_of(readers@) == schemas_of(sources@),
                forall|i: int| 0 <= i < index ==> !((#[trigger] merger@.slots[i]) is Waiting),
                forall|i: int|
                    0 <= i < index ==> ((#[trigger] merger@.slots[i]) matches Slot::Ready(row)
                        ==> row.conforms(sources[i].schema())),
                forall|i: int| index <= i < count ==> (#[trigger] merger@.slots[i]) is Waiting,
                forall|i: int| index <= i < count ==> (#[trigger] readers[i]) == sources[i],
                forall|i: int|
                    0 <= i < index && (#[trigger] sources[i]).remaining().len() > 0
                        ==> sources[i].remaining()[0].conforms(sources[i].schema()),
                pending_of(readers@, merger@.slots) == Seq::new(
                    count as nat,
                    |i: int| sources[i].remaining(),
                ),
                forall|any: int|
                    0 <= any < graph.lengths().len() ==> #[trigger] graph.reconcilable(
                        schemas_of(sources@),
                        any,
                    ),
            decreases count - index,
        {
            let ghost before = readers@;
            match refill(&mut readers, &mut merger, index) {
                Ok(_) => {},
                Err(failure) => {
                    return Err(failure);
                },
            }
            proof {
                assert(schemas_of(readers@) =~= schemas_of(before)) by {
                    assert forall|i: int| 0 <= i < count implies readers[i].schema()
                        == before[i].schema() by {
                        if i != index {
                            assert(readers[i] == before[i]);
                        }
                    }
                }
                assert(schemas_of(sources@)[index as int] == sources[index as int].schema());
                assert(schemas_of(before)[index as int] == before[index as int].schema());
                let held = pending_of(readers@, merger@.slots);
                assert(held[index as int] == sources[index as int].remaining());
                if sources[index as int].remaining().len() > 0 {
                    assert(merger@.slots[index as int] is Ready);
                    assert(held[index as int][0] == merger@.slots[index as int]->Ready_0);
                }
            }
            index += 1;
        }
        proof {
            assert forall|i: int| 0 <= i < merger@.slots.len() implies ((
            #[trigger] merger@.slots[i]) matches Slot::Ready(row) ==> row.conforms(
                readers[i].schema(),
            )) by {
                assert(schemas_of(readers@)[i] == schemas_of(sources@)[i]);
            }
        }
        Ok(Driver { sources: readers, graph: data, merger })
    }

    /// Runs to completion. As long as a source has a row, the row that goes
    /// before those of the other sources is taken: inside the window it is
    /// handed to the graph through the pin of its source, before the window it
    /// is dropped, and after the window its source is done. Each row that is
    /// read is checked against the header of its source. The first failure of a
    /// source, of a row or of a sink ends the run. When every source is done,
    /// every sink is flushed, and the flushes that failed are returned together,
    /// each with the place of its sink, chain by chain: the run succeeds only
    /// where no flush failed.
    ///
    /// A run whose sources have no row left does not stop early, and it
    /// succeeds where the graph has no sink.
    ///
    /// The graph is returned with the outcome. After a run that handed every
    /// row on, the first sink of each chain has received, after what it had
    /// received, the rows of the merged stream that go to its chain, and every
    /// row of the merged stream conforms to the header of its source. After a
    /// run that stopped early the same holds of the rows that come before some
    /// point of the merged stream, but for the chain of a sink that failed.
    pub fn drive(self) -> (outcome: (Result<(), RunError>, DataGraph<D>))
        ensures
            outcome.1.pins() == self.graph().pins(),
            drained(self.pending()) ==> !(outcome.0 matches Err(RunError::Aborted(_))),
            drained(self.pending()) && drained(self.graph().chains()) ==> outcome.0 is Ok,
            match outcome.0 {
                Ok(_) => {
                    &&& flushed(self.graph().chains(), outcome.1.chains())
                    &&& graph_failures(outcome.1.chains()) == Seq::<Failure>::empty()
                    &&& delivered(
                        self.graph().chains(),
                        outcome.1.chains(),
                        merge(self.pending(), self.timestamp_range()),
                        self.graph().pins(),
                        None,
                    )
                    &&& conforming(merge(self.pending(), self.timestamp_range()), self.schemas())
                },
                Err(RunError::Unflushed(failures)) => {
                    &&& flushed(self.graph().chains(), outcome.1.chains())
                    &&& delivered(
                        self.graph().chains(),
                        outcome.1.chains(),
                        merge(self.pending(), self.timestamp_range()),
                        self.graph().pins(),
                        None,
                    )
                    &&& conforming(merge(self.pending(), self.timestamp_range()), self.schemas())
                    &&& failures.len() > 0
                    &&& failures@ == graph_failures(outcome.1.chains())
                    &&& forall|n: int|
                        0 <= n < failures.len() ==> is_node_of(
                            (#[trigger] failures[n]).component,
                            self.graph().chains(),
                        )
                },
                Err(RunError::Aborted(failure)) => {
                    &&& unflushed(self.graph().chains(), outcome.1.chains())
                    &&& !(failure.component is Graph) && !(failure.component is Chain)
                    &&& exists|sent: Seq<Tagged>|
                        {
                            &&& #[trigger] sent.is_prefix_of(
                                merge(self.pending(), self.timestamp_range()),
                            )
                            &&& conforming(sent, self.schemas())
                            &&& delivered(
                                self.graph().chains(),
                                outcome.1.chains(),
                                sent,
                                self.graph().pins(),
                                spared_by(failure.component),
                            )
                        }
                },
            },
    {
        proof {
            use_type_invariant(&self);
        }
        let ghost schemas = schemas_of(self.sources@);
        let mut sources = self.sources;
        let mut graph = self.graph;
        let mut merger = self.merger;
        let ghost range = merger@.timestamp_range;
        let ghost start = pending_of(sources@, merger@.slots);
        let ghost before = graph.chains();
        let ghost pins = graph.pins();
        let ghost mut forwarded: Seq<Tagged> = Seq::empty();
        // Every pin leads to one of the chains that are counted here.
        let chain_count = graph.chain_count();
        assert(chain_count == before.len());
        let mut done = false;
        proof {
            if drained(start) {
                assert forall|i: int| 0 <= i < merger@.slots.len() implies (
                #[trigger] merger@.slots[i]) is Exhausted by {
                    assert(start[i].len() == 0);
                }
            }
            assert(forwarded + merge(start, range) =~= merge(start, range));
            assert forall|chain: int| 0 <= chain < before.len() && before[chain].len() > 0 implies (
            #[trigger] graph.chains()[chain])[0].received() == before[chain][0].received() + routed(
                forwarded,
                pins,
                chain,
            ) by {
                forwarded.lemma_filter_len(leads_to(pins, chain));
                assert(before[chain][0].received() + routed(forwarded, pins, chain)
                    =~= before[chain][0].received());
            }
        }
        while !done
            invariant
                sources.len() == merger@.slots.len(),
                sources.len() == pins.len(),
                merger@.timestamp_range == range,
                range == self.timestamp_range(),
                start == self.pending(),
                schemas == self.schemas(),
                schemas == schemas_of(sources@),
                forall|i: int, j: int|
                    0 <= i < merger@.slots.len() && 0 <= j < merger@.slots.len() && (
                    #[trigger] merger@.slots[i]) is Waiting && (#[trigger] merger@.slots[j])
                        is Waiting ==> i == j,
                forall|i: int|
                    0 <= i < merger@.slots.len() ==> ((
                    #[trigger] merger@.slots[i]) matches Slot::Ready(row) ==> row.conforms(
                        schemas[i],
                    )),
                done ==> forall|i: int|
                    0 <= i < merger@.slots.len() ==> (#[trigger] merger@.slots[i]) is Exhausted,
                drained(start) ==> forall|i: int|
                    0 <= i < merger@.slots.len() ==> (#[trigger] merger@.slots[i]) is Exhausted,
                forwarded + merge(pending_of(sources@, merger@.slots), range) == merge(start, range),
                conforming(forwarded, schemas),
                graph.pins() == pins,
                pins == self.graph().pins(),
                before == self.graph().chains(),
                unflushed(before, graph.chains()),
                delivered(before, graph.chains(), forwarded, pins, None),
                forall|pin: int| 0 <= pin < pins.len() ==> (#[trigger] pins[pin]) < before.len(),
            decreases
                    if done {
                        0nat
                    } else {
                        1nat
                    },
                    total(pending_of(sources@, merger@.slots)),
                    if awaited(merger@.slots) {
                        1nat
                    } else {
                        0nat
                    },
        {
            let ghost slots = merger@.slots;
            let ghost held = pending_of(sources@, slots);
            let ghost chains = graph.chains();
            let ghost readers = sources@;
            match merger.next() {
                Action::Finish => {
                    done = true;
                },
                Action::Read { source } => {
                    assert(slots[source as int] is Waiting);
                    match refill(&mut sources, &mut merger, source) {
                        Ok(_) => {},
                        Err(failure) => {
                            proof {
                                assert(forwarded.is_prefix_of(merge(start, range))) by {
                                    assert(forwarded =~= (forwarded + merge(held, range)).subrange(
                                        0,
                                        forwarded.len() as int,
                                    ));
                                }
                            }
                            return (Err(RunError::Aborted(failure)), graph);
                        },
                    }
                    proof {
                        assert(schemas_of(sources@) =~= schemas_of(readers)) by {
                            assert forall|i: int| 0 <= i < readers.len() implies sources[i].schema()
                                == readers[i].schema() by {
                                if i != source {
                                    assert(sources[i] == readers[i]);
                                }
                            }
                        }
                        assert(schemas[source as int] == readers[source as int].schema());
                        assert(!awaited(merger@.slots)) by {
                            if awaited(merger@.slots) {
                                let i = choose|i: int|
                                    0 <= i < merger@.slots.len() && merger@.slots[i] is Waiting;
                                assert(slots[i] is Waiting);
                            }
                        }
                        assert(slots[source as int] is Waiting);
                    }
                },
                Action::Forward { source, row } => {
                    let ghost sent = Tagged { source: source as int, row };
                    proof {
                        assert(slots[source as int] is Ready);
                        assert(heads(held) =~= slot_heads(slots));
                        assert(!awaited(slots));
                        lemma_merge_step(held, range, source as int);
                        lemma_total_update(held, source as int, held[source as int].drop_first());
                        lemma_pending_after_take(sources@, slots, source as int, row);
                        assert(forwarded.push(sent) + merge(advanced(held, source as int), range)
                            =~= forwarded + merge(held, range));
                        assert(forwarded.is_prefix_of(merge(start, range))) by {
                            assert(forwarded =~= (forwarded + merge(held, range)).subrange(
                                0,
                                forwarded.len() as int,
                            ));
                        }
                    }
                    match graph.write_row_to_pin(source, row) {
                        Ok(_) => {},
                        Err(failure) => {
                            proof {
                                assert(delivered(
                                    before,
                                    graph.chains(),
                                    forwarded,
                                    pins,
                                    spared_by(failure.component),
                                )) by {
                                    assert forall|chain: int|
                                        0 <= chain < before.len() && before[chain].len() > 0
                                            && spared_by(failure.component) != Some(
                                            chain,
                                        ) implies (#[trigger] graph.chains()[chain])[0].received()
                                        == before[chain][0].received() + routed(
                                        forwarded,
                                        pins,
                                        chain,
                                    ) by {
                                        assert(graph.chains()[chain] == chains[chain]);
                                    }
                                }
                            }
                            return (Err(RunError::Aborted(failure)), graph);
                        },
                    }
                    proof {
                        assert forall|chain: int|
                            0 <= chain < before.len() && before[chain].len() > 0 implies (
                        #[trigger] graph.chains()[chain])[0].received()
                            == before[chain][0].received() + routed(
                            forwarded.push(sent),
                            pins,
                            chain,
                        ) by {
                            lemma_routed_push(forwarded, pins, chain, sent);
                            assert(chains[chain][0].received() == before[chain][0].received()
                                + routed(forwarded, pins, chain));
                            if chain == pins[source as int] {
                                assert(before[chain][0].received() + routed(
                                    forwarded,
                                    pins,
                                    chain,
                                ).push(row) =~= (before[chain][0].received() + routed(
                                    forwarded,
                                    pins,
                                    chain,
                                )).push(row));
                            } else {
                                assert(graph.chains()[chain] == chains[chain]);
                            }
                        }
                        forwarded = forwarded.push(sent);
                        assert(forwarded.is_prefix_of(merge(start, range))) by {
                            assert(forwarded =~= (forwarded + merge(
                                advanced(held, source as int),
                                range,
                            )).subrange(0, forwarded.len() as int));
                        }
                    }
                },
                Action::Discard { source, row } => {
                    proof {
                        assert(slots[source as int] is Ready);
                        assert(heads(held) =~= slot_heads(slots));
                        assert(!awaited(slots));
                        lemma_merge_step(held, range, source as int);
                        lemma_total_update(held, source as int, held[source as int].drop_first());
                        lemma_pending_after_take(sources@, slots, source as int, row);
                        assert(forwarded.is_prefix_of(merge(start, range))) by {
                            assert(forwarded =~= (forwarded + merge(held, range)).subrange(
                                0,
                                forwarded.len() as int,
                            ));
                        }
                    }
                },
                Action::Close { source, row } => {
                    proof {
                        assert(slots[source as int] is Ready);
                        assert(heads(held) =~= slot_heads(slots));
                        assert(!awaited(slots));
                        lemma_merge_step(held, range, source as int);
                        lemma_total_update(held, source as int, Seq::empty());
                        lemma_pending_after_take(sources@, slots, source as int, row);
                    }
                },
            }
        }
        proof {
            let held = pending_of(sources@, merger@.slots);
            assert forall|i: int| !first_least(heads(held), i) by {
                if first_least(heads(held), i) {
                    assert(merger@.slots[i] is Exhausted);
                }
            }
            lemma_merge_end(held, range);
            assert(forwarded + Seq::<Tagged>::empty() =~= forwarded);
        }
        let ghost written = graph.chains();
        let failures = graph.flush();
        proof {
            assert forall|chain: int| 0 <= chain < before.len() && before[chain].len() > 0 implies (
            #[trigger] graph.chains()[chain])[0].received() == before[chain][0].received() + routed(
                forwarded,
                pins,
                chain,
            ) by {
                assert(graph.chains()[chain][0].received() == written[chain][0].received());
            }
            assert forall|n: int| 0 <= n < failures.len() implies is_node_of(
                (#[trigger] failures[n]).component,
                before,
            ) by {
                assert(is_node_of(failures[n].component, written));
            }
            if drained(before) && failures.len() > 0 {
                assert(is_node_of(failures[0].component, before));
            }
        }
        if failures.len() == 0 {
            (Ok(()), graph)
        } else {
            (Err(RunError::Unflushed(failures)), graph)
        }
    }
}

} // verus!
