//! The routing graph in its second phase: every sink has seen its header, and
//! rows are routed to the chains.

use crate::chopper::chopper::{DataSink, PinId};
use crate::chopper::types::Row;
use crate::error::{Component, Error, Failure};
use vstd::prelude::*;

verus! {

/// The index of a chain in its graph.
pub type ChainId = usize;

/// What a row that was handed to a chain did to the nodes of the chain: the
/// first node received the row, and each further node received one row, that
/// which came out of the node before it, or nothing.
pub open spec fn took<D: DataSink>(before: Seq<D>, after: Seq<D>, row: Row) -> bool {
    &&& after.len() == before.len()
    &&& before.len() > 0 ==> after[0].received() == before[0].received().push(row)
    &&& forall|k: int|
        0 <= k < before.len() ==> {
            ||| (#[trigger] after[k]).received() == before[k].received()
            ||| exists|passed: Row| after[k].received() == before[k].received().push(passed)
        }
}

/// Whether no node has received a row or was asked to flush.
pub open spec fn fresh<D: DataSink>(nodes: Seq<D>) -> bool {
    forall|k: int|
        0 <= k < nodes.len() ==> {
            &&& (#[trigger] nodes[k]).received() == Seq::<Row>::empty()
            &&& nodes[k].flushes() == 0
        }
}

/// Whether each node was asked to flush once more, has received what it had
/// received, and has its header.
pub open spec fn flushed_once<D: DataSink>(before: Seq<D>, after: Seq<D>) -> bool {
    &&& after.len() == before.len()
    &&& forall|k: int|
        0 <= k < before.len() ==> {
            &&& (#[trigger] after[k]).received() == before[k].received()
            &&& after[k].flushes() == before[k].flushes() + 1
            &&& after[k].negotiated() == before[k].negotiated()
        }
}

/// Whether each node was asked to flush as often as it had been, and has its
/// header.
pub open spec fn same_flushes<D: DataSink>(before: Seq<D>, after: Seq<D>) -> bool {
    &&& after.len() == before.len()
    &&& forall|k: int|
        0 <= k < before.len() ==> {
            &&& (#[trigger] after[k]).flushes() == before[k].flushes()
            &&& after[k].negotiated() == before[k].negotiated()
        }
}

/// Whether a component is a node of the given chains.
pub open spec fn is_node_of<D>(component: Component, chains: Seq<Seq<D>>) -> bool {
    match component {
        Component::Node { chain, node } => chain < chains.len() && node < chains[chain as int].len(),
        _ => false,
    }
}

/// What a chain does after a sink has answered.
#[derive(Debug)]
pub enum Passing {
    /// The row goes on to the next sink.
    Onward(Row),
    /// The delivery is over, with this outcome.
    Done(Result<Option<Row>, (usize, Error)>),
}

/// What a chain does after the sink at the place `node` has answered; `last`
/// says whether it is the last sink of the chain. A row that is handed back
/// goes on to the next sink, and comes out of the chain after the last. A sink
/// that hands nothing back ends the delivery. A failure ends it, and is
/// returned with the place of the sink.
pub open spec fn passing(node: usize, last: bool, answer: Result<Option<Row>, Error>) -> Passing {
    match answer {
        Ok(Some(row)) => if last {
            Passing::Done(Ok(Some(row)))
        } else {
            Passing::Onward(row)
        },
        Ok(None) => Passing::Done(Ok(None)),
        Err(cause) => Passing::Done(Err((node, cause))),
    }
}

/// Decides what a chain does after a sink has answered.
pub fn pass_on(node: usize, last: bool, answer: Result<Option<Row>, Error>) -> (step: Passing)
    ensures
        step == passing(node, last, answer),
{
    match answer {
        Ok(Some(row)) => if last {
            Passing::Done(Ok(Some(row)))
        } else {
            Passing::Onward(row)
        },
        Ok(None) => Passing::Done(Ok(None)),
        Err(cause) => Passing::Done(Err((node, cause))),
    }
}

/// The row that the sink at the place `k` was handed in a delivery of `row`: the
/// row itself for the first sink, and for every other the row that the sink
/// before it handed back.
pub open spec fn handed<D: DataSink>(after: Seq<D>, row: Row, k: int) -> Row {
    if k <= 0 {
        row
    } else {
        match after[k - 1].last_write() {
            Ok(Some(passed)) => passed,
            _ => row,
        }
    }
}

/// Whether a delivery of `row` to the sinks ended at the place `end` with the
/// given outcome. Every sink before that place received the row that it was
/// handed, and handed a row back. The sink at that place was handed its row,
/// received it unless it failed, and its answer ended the delivery with this
/// outcome. Every sink after that place is as it was.
pub open spec fn ended_at<D: DataSink>(
    before: Seq<D>,
    after: Seq<D>,
    row: Row,
    end: int,
    outcome: Result<Option<Row>, (usize, Error)>,
) -> bool {
    &&& after.len() == before.len()
    &&& 0 <= end < before.len()
    &&& forall|k: int|
        0 <= k < end ==> {
            &&& passing(k as usize, false, (#[trigger] after[k]).last_write()) is Onward
            &&& after[k].received() == before[k].received().push(handed(after, row, k))
        }
    &&& passing(end as usize, end == before.len() - 1, after[end].last_write()) == Passing::Done(
        outcome,
    )
    &&& after[end].last_write() is Ok ==> after[end].received() == before[end].received().push(
        handed(after, row, end),
    )
    &&& forall|k: int| end < k < before.len() ==> (#[trigger] after[k]) == before[k]
}

/// The flushes that failed among the last flushes of the sinks, each with the
/// place of its sink, in the order of the sinks.
pub open spec fn failed_flushes<D: DataSink>(nodes: Seq<D>) -> Seq<(usize, Error)>
    decreases nodes.len(),
{
    if nodes.len() == 0 {
        Seq::empty()
    } else {
        let before = failed_flushes(nodes.drop_last());
        match nodes.last().last_flush() {
            Ok(_) => before,
            Err(cause) => before.push(((nodes.len() - 1) as usize, cause)),
        }
    }
}

/// The failures of the sinks of one chain as failures of a run.
pub open spec fn placed(chain: usize, failures: Seq<(usize, Error)>) -> Seq<Failure> {
    failures.map_values(
        |failure: (usize, Error)|
            Failure { component: Component::Node { chain, node: failure.0 }, cause: failure.1 },
    )
}

/// The flushes that failed among the last flushes of the sinks of the chains,
/// chain by chain and in the order of each chain.
pub open spec fn graph_failures<D: DataSink>(chains: Seq<Seq<D>>) -> Seq<Failure>
    decreases chains.len(),
{
    if chains.len() == 0 {
        Seq::empty()
    } else {
        graph_failures(chains.drop_last()) + placed(
            (chains.len() - 1) as usize,
            failed_flushes(chains.last()),
        )
    }
}

/// Appends the failures of the sinks of one chain to the failures of a run.
fn place_failures(chain: usize, found: Vec<(usize, Error)>, failures: &mut Vec<Failure>)
    ensures
        final(failures)@ == old(failures)@ + placed(chain, found@),
{
    let mut found = found;
    let ghost all = found@;
    let ghost mut moved: int = 0;
    assert(failures@ =~= old(failures)@ + placed(chain, all.subrange(0, 0)));
    while found.len() > 0
        invariant
            0 <= moved <= all.len(),
            found@ == all.subrange(moved, all.len() as int),
            failures@ == old(failures)@ + placed(chain, all.subrange(0, moved)),
        decreases found.len(),
    {
        let (node, cause) = found.remove(0);
        failures.push(Failure { component: Component::Node { chain, node }, cause });
        proof {
            assert(all[moved] == (node, cause));
            assert(found@ =~= all.subrange(moved + 1, all.len() as int));
            assert(placed(chain, all.subrange(0, moved + 1)) =~= placed(
                chain,
                all.subrange(0, moved),
            ).push(Failure { component: Component::Node { chain, node }, cause }));
            assert(failures@ =~= old(failures)@ + placed(chain, all.subrange(0, moved + 1)));
            moved = moved + 1;
        }
    }
    assert(all.subrange(0, moved) =~= all);
}

/// A line of sinks that have seen their header. A row goes to the first, and on
/// to the next as long as a sink hands a row back.
pub struct DataChain<D: DataSink> {
    nodes: Vec<D>,
}

impl<D: DataSink> View for DataChain<D> {
    type V = Seq<D>;

    closed spec fn view(&self) -> Seq<D> {
        self.nodes@
    }
}

impl<D: DataSink> DataChain<D> {
    /// A chain of the given sinks, in their order.
    pub fn new(nodes: Vec<D>) -> (chain: Self)
        ensures
            chain@ == nodes@,
    {
        DataChain { nodes }
    }

    /// The sinks of the chain.
    pub fn nodes(&self) -> (nodes: &Vec<D>)
        ensures
            nodes@ == self@,
    {
        &self.nodes
    }

    /// Hands a row to the chain. The first sink takes it as coming through the
    /// given pin. As long as a sink hands a row back, that row goes to the next
    /// sink; what the last sink hands back is returned, and a chain without
    /// sinks hands the row back as it is. A sink that hands nothing back ends
    /// the delivery. The first failure of a sink ends it too, and is returned
    /// with the place of the sink. The sinks after the one that ended the
    /// delivery are left as they are.
    pub fn write_row_to_pin(&mut self, pin_id: PinId, row: Row) -> (passed: Result<
        Option<Row>,
        (usize, Error),
    >)
        ensures
            same_flushes(old(self)@, final(self)@),
            old(self)@.len() == 0 ==> {
                &&& passed == Ok::<Option<Row>, (usize, Error)>(Some(row))
                &&& final(self)@ == old(self)@
            },
            old(self)@.len() > 0 ==> exists|end: int| #[trigger]
                ended_at(old(self)@, final(self)@, row, end, passed),
            passed is Ok ==> took(old(self)@, final(self)@, row),
            passed matches Err((node, _)) ==> node < old(self)@.len(),
    {
        let count = self.nodes.len();
        if count == 0 {
            return Ok(Some(row));
        }
        let mut current = row;
        let mut index: usize = 0;
        while index < count
            invariant
                index < count,
                count == self.nodes.len(),
                count == old(self).nodes.len(),
                same_flushes(old(self).nodes@, self.nodes@),
                current == handed(self.nodes@, row, index as int),
                forall|k: int|
                    0 <= k < index ==> {
                        &&& passing(k as usize, false, (#[trigger] self.nodes[k]).last_write())
                            is Onward
                        &&& self.nodes[k].received() == old(self).nodes[k].received().push(
                            handed(self.nodes@, row, k),
                        )
                    },
                forall|k: int| index <= k < count ==> (#[trigger] self.nodes[k]) == old(self).nodes[k],
            decreases count - index,
        {
            let ghost before = self.nodes@;
            let ghost given = current;
            let answer = if index == 0 {
                self.nodes[index].write_row_to_pin(pin_id, current)
            } else {
                self.nodes[index].write_row(current)
            };
            proof {
                assert(self.nodes@ =~= before.update(index as int, self.nodes[index as int]));
                assert forall|k: int| 0 <= k <= index implies handed(self.nodes@, row, k) == handed(
                    before,
                    row,
                    k,
                ) by {
                    if k > 0 {
                        assert(self.nodes[k - 1] == before[k - 1]);
                    }
                }
                assert forall|k: int| 0 <= k < index implies {
                    &&& passing(k as usize, false, (#[trigger] self.nodes[k]).last_write())
                        is Onward
                    &&& self.nodes[k].received() == old(self).nodes[k].received().push(
                        handed(self.nodes@, row, k),
                    )
                } by {
                    assert(self.nodes[k] == before[k]);
                }
            }
            match pass_on(index, index + 1 == count, answer) {
                Passing::Onward(next) => {
                    current = next;
                },
                Passing::Done(outcome) => {
                    proof {
                        assert(ended_at(old(self).nodes@, self.nodes@, row, index as int, outcome));
                        assert(ended_at(old(self)@, self@, row, index as int, outcome));
                        if outcome is Ok {
                            assert(self.nodes[0].received() == old(self).nodes[0].received().push(
                                row,
                            ));
                            assert forall|k: int| 0 <= k < count implies {
                                ||| (#[trigger] self.nodes[k]).received() == old(
                                    self,
                                ).nodes[k].received()
                                ||| exists|passed: Row|
                                    self.nodes[k].received() == old(self).nodes[k].received().push(
                                        passed,
                                    )
                            } by {
                                if k <= index {
                                    assert(self.nodes[k].received() == old(
                                        self,
                                    ).nodes[k].received().push(handed(self.nodes@, row, k)));
                                }
                            }
                        }
                    }
                    return outcome;
                },
            }
            index += 1;
        }
        Ok(Some(current))
    }

    /// Flushes every sink of the chain, in order, whether or not an earlier one
    /// failed, and returns the failures, each with the place of its sink, in the
    /// order of the sinks.
    pub fn flush(&mut self) -> (failures: Vec<(usize, Error)>)
        ensures
            flushed_once(old(self)@, final(self)@),
            failures@ == failed_flushes(final(self)@),
            forall|n: int| 0 <= n < failures.len() ==> (#[trigger] failures[n]).0 < old(self)@.len(),
    {
        let mut failures: Vec<(usize, Error)> = Vec::new();
        let mut index: usize = 0;
        assert(self.nodes@.subrange(0, 0) =~= Seq::<D>::empty());
        while index < self.nodes.len()
            invariant
                index <= self.nodes.len(),
                self.nodes.len() == old(self).nodes.len(),
                forall|k: int|
                    0 <= k < index ==> {
                        &&& (#[trigger] self.nodes[k]).received() == old(self).nodes[k].received()
                        &&& self.nodes[k].flushes() == old(self).nodes[k].flushes() + 1
                        &&& self.nodes[k].negotiated() == old(self).nodes[k].negotiated()
                    },
                forall|k: int|
                    index <= k < self.nodes.len() ==> (#[trigger] self.nodes[k]) == old(self).nodes[k],
                forall|n: int| 0 <= n < failures.len() ==> (#[trigger] failures[n]).0 < index,
                failures@ == failed_flushes(self.nodes@.subrange(0, index as int)),
            decreases self.nodes.len() - index,
        {
            let ghost before = self.nodes@;
            let answer = self.nodes[index].flush();
            proof {
                assert(self.nodes@ =~= before.update(index as int, self.nodes[index as int]));
                assert(self.nodes@.subrange(0, index as int) =~= before.subrange(0, index as int));
                assert(self.nodes@.subrange(0, index + 1).drop_last() =~= self.nodes@.subrange(
                    0,
                    index as int,
                ));
                assert(self.nodes@.subrange(0, index + 1).last() == self.nodes[index as int]);
            }
            match answer {
                Ok(_) => {},
                Err(cause) => {
                    failures.push((index, cause));
                },
            }
            index += 1;
        }
        assert(self.nodes@.subrange(0, index as int) =~= self.nodes@);
        failures
    }
}

/// The outcome of a delivery to a chain as the outcome of a delivery to the
/// graph: a failure names the chain with the place of the sink.
pub open spec fn at_chain(chain: usize, outcome: Result<Option<Row>, (usize, Error)>) -> Result<
    Option<Row>,
    Failure,
> {
    match outcome {
        Ok(passed) => Ok(passed),
        Err((node, cause)) => Err(
            (Failure { component: Component::Node { chain, node }, cause }),
        ),
    }
}

/// The chains of a graph whose sinks have all seen their header, and the chain
/// that each pin leads to.
pub struct DataGraph<D: DataSink> {
    chains: Vec<DataChain<D>>,
    pins: Vec<ChainId>,
}

impl<D: DataSink> DataGraph<D> {
    #[verifier::type_invariant]
    spec fn routed(self) -> bool {
        forall|pin: int| 0 <= pin < self.pins.len() ==> (#[trigger] self.pins[pin]) < self.chains.len()
    }

    /// The sinks of each chain.
    pub closed spec fn chains(&self) -> Seq<Seq<D>> {
        Seq::new(self.chains.len() as nat, |chain: int| self.chains[chain]@)
    }

    /// The chain that each pin leads to.
    pub closed spec fn pins(&self) -> Seq<ChainId> {
        self.pins@
    }

    /// A graph of the given chains, in which pin `p` leads to chain `pins[p]`. A
    /// pin that leads to no chain is refused.
    pub fn new(chains: Vec<DataChain<D>>, pins: Vec<ChainId>) -> (graph: Result<Self, Error>)
        ensures
            match graph {
                Ok(graph) => {
                    &&& graph.pins() == pins@
                    &&& graph.chains() == Seq::new(chains.len() as nat, |chain: int| chains[chain]@)
                },
                Err(error) => {
                    &&& error == Error::InvalidGraph
                    &&& exists|pin: int| 0 <= pin < pins.len() && pins[pin] >= chains.len()
                },
            },
    {
        let mut pin: usize = 0;
        while pin < pins.len()
            invariant
                pin <= pins.len(),
                forall|p: int| 0 <= p < pin ==> (#[trigger] pins[p]) < chains.len(),
            decreases pins.len() - pin,
        {
            if pins[pin] >= chains.len() {
                return Err(Error::InvalidGraph);
            }
            pin += 1;
        }
        Ok(DataGraph { chains, pins })
    }

    /// The number of pins.
    pub fn pin_count(&self) -> (count: usize)
        ensures
            count == self.pins().len(),
    {
        self.pins.len()
    }

    /// The number of chains. Every pin leads to one of them.
    pub fn chain_count(&self) -> (count: usize)
        ensures
            count == self.chains().len(),
            forall|pin: int| 0 <= pin < self.pins().len() ==> (#[trigger] self.pins()[pin]) < count,
    {
        proof {
            use_type_invariant(self);
        }
        self.chains.len()
    }

    /// The chain of the given index, if there is one.
    pub fn chain(&self, chain: ChainId) -> (found: Option<&DataChain<D>>)
        ensures
            match found {
                Some(found) => chain < self.chains().len() && found@ == self.chains()[chain as int],
                None => chain >= self.chains().len(),
            },
    {
        if chain < self.chains.len() {
            Some(&self.chains[chain])
        } else {
            None
        }
    }

    /// Hands a row to the chain that the given pin leads to, and returns what
    /// the chain hands back. The other chains are left as they are. A pin that
    /// the graph does not have is refused, and nothing changes.
    pub fn write_row_to_pin(&mut self, pin_id: PinId, row: Row) -> (passed: Result<
        Option<Row>,
        Failure,
    >)
        ensures
            final(self).pins() == old(self).pins(),
            final(self).chains().len() == old(self).chains().len(),
            forall|chain: int|
                0 <= chain < old(self).chains().len() ==> same_flushes(
                    old(self).chains()[chain],
                    #[trigger] final(self).chains()[chain],
                ),
            pin_id >= old(self).pins().len() ==> {
                &&& passed matches Err(failure)
                &&& failure.component == Component::Graph
                &&& failure.cause == Error::UnknownPin(pin_id)
                &&& final(self).chains() == old(self).chains()
            },
            pin_id < old(self).pins().len() ==> {
                let target = old(self).pins()[pin_id as int] as int;
                &&& old(self).chains()[target].len() == 0 ==> passed == Ok::<
                    Option<Row>,
                    Failure,
                >(Some(row))
                &&& forall|chain: int|
                    0 <= chain < old(self).chains().len() && chain != target ==> (#[trigger] final(self).chains()[chain]) == old(self).chains()[chain]
                &&& old(self).chains()[target].len() > 0 ==> exists|
                    end: int,
                    outcome: Result<Option<Row>, (usize, Error)>,
                | #[trigger]
                    ended_at(
                        old(self).chains()[target],
                        final(self).chains()[target],
                        row,
                        end,
                        outcome,
                    ) && passed == at_chain(target as usize, outcome)
                &&& match passed {
                    Ok(_) => took(old(self).chains()[target], final(self).chains()[target], row),
                    Err(failure) => failure.component matches Component::Node { chain, node }
                        && chain == target && node < old(self).chains()[target].len(),
                }
            },
    {
        proof {
            use_type_invariant(&*self);
        }
        if pin_id >= self.pins.len() {
            return Err(Failure { component: Component::Graph, cause: Error::UnknownPin(pin_id) });
        }
        let target = self.pins[pin_id];
        let outcome = self.chains[target].write_row_to_pin(pin_id, row);
        assert(self.chains@ =~= old(self).chains@.update(target as int, self.chains[target as int]));
        proof {
            if old(self).chains()[target as int].len() > 0 {
                let end = choose|end: int| #[trigger]
                    ended_at(
                        old(self).chains()[target as int],
                        self.chains()[target as int],
                        row,
                        end,
                        outcome,
                    );
                assert(ended_at(
                    old(self).chains()[target as int],
                    self.chains()[target as int],
                    row,
                    end,
                    outcome,
                ));
            }
        }
        match outcome {
            Ok(passed) => Ok(passed),
            Err((node, cause)) => Err(
                Failure { component: Component::Node { chain: target, node }, cause },
            ),
        }
    }

    /// Flushes every sink of every chain, chain by chain and in the order of
    /// each chain, whether or not an earlier flush failed, and returns every
    /// failure with the place of its sink, in that order. No sink receives a
    /// row.
    pub fn flush(&mut self) -> (failures: Vec<Failure>)
        ensures
            final(self).pins() == old(self).pins(),
            final(self).chains().len() == old(self).chains().len(),
            forall|chain: int|
                0 <= chain < old(self).chains().len() ==> flushed_once(
                    old(self).chains()[chain],
                    #[trigger] final(self).chains()[chain],
                ),
            failures@ == graph_failures(final(self).chains()),
            forall|n: int|
                0 <= n < failures.len() ==> is_node_of(
                    (#[trigger] failures[n]).component,
                    old(self).chains(),
                ),
    {
        proof {
            use_type_invariant(&*self);
        }
        let mut failures: Vec<Failure> = Vec::new();
        let mut index: usize = 0;
        assert(self.chains().subrange(0, 0) =~= Seq::<Seq<D>>::empty());
        while index < self.chains.len()
            invariant
                index <= self.chains.len(),
                self.pins@ == old(self).pins@,
                self.chains.len() == old(self).chains.len(),
                forall|pin: int|
                    0 <= pin < self.pins.len() ==> (#[trigger] self.pins[pin]) < self.chains.len(),
                forall|chain: int|
                    0 <= chain < index ==> flushed_once(
                        old(self).chains[chain]@,
                        #[trigger] self.chains[chain]@,
                    ),
                forall|chain: int|
                    index <= chain < self.chains.len() ==> (#[trigger] self.chains[chain]) == old(self).chains[chain],
                failures@ == graph_failures(self.chains().subrange(0, index as int)),
                forall|n: int|
                    0 <= n < failures.len() ==> is_node_of(
                        (#[trigger] failures[n]).component,
                        old(self).chains(),
                    ),
            decreases self.chains.len() - index,
        {
            let ghost before = self.chains@;
            let ghost shown = self.chains();
            let ghost earlier = failures@;
            let found = self.chains[index].flush();
            proof {
                assert(self.chains@ =~= before.update(index as int, self.chains[index as int]));
                assert(self.chains().subrange(0, index as int) =~= shown.subrange(0, index as int));
                assert(self.chains().subrange(0, index + 1).drop_last() =~= self.chains().subrange(
                    0,
                    index as int,
                ));
                assert(self.chains().subrange(0, index + 1).last() == self.chains[index as int]@);
            }
            let ghost added = placed(index, found@);
            place_failures(index, found, &mut failures);
            proof {
                assert forall|n: int| 0 <= n < failures.len() implies is_node_of(
                    (#[trigger] failures[n]).component,
                    old(self).chains(),
                ) by {
                    if n < earlier.len() {
                        assert(failures[n] == earlier[n]);
                    } else {
                        assert(failures[n] == added[n - earlier.len()]);
                    }
                }
            }
            index += 1;
        }
        assert(self.chains().subrange(0, index as int) =~= self.chains());
        failures
    }
}

} // verus!
