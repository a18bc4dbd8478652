//! The routing graph in its first phase: the sinks wait for their headers.

use crate::chopper::chopper::{DataSink, HeaderSink};
use crate::chopper::data_graph::{fresh, ChainId, DataChain, DataGraph};
use crate::chopper::types::{Header, HeaderView};
use crate::error::{Component, Error, Failure};
use vstd::prelude::*;

verus! {

/// How the entry of a chain makes one header of the headers that reach it.
#[derive(PartialEq, Eq, Structural, Clone, Copy, Debug)]
pub enum Reconciliation {
    /// Headers whose columns have the same types, position by position, go
    /// together; the names of the first are kept.
    SameTypes,
}

/// Whether a header goes together with the first header of its chain: under no
/// policy only an equal header does.
pub open spec fn agrees(policy: Option<Reconciliation>, first: HeaderView, other: HeaderView) -> bool {
    match policy {
        None => first == other,
        Some(Reconciliation::SameTypes) => first.field_types == other.field_types,
    }
}

/// Whether `pin` is the first pin that leads to `chain`.
pub open spec fn first_pin_of(pins: Seq<ChainId>, chain: int, pin: int) -> bool {
    &&& 0 <= pin < pins.len()
    &&& pins[pin] == chain
    &&& forall|earlier: int| 0 <= earlier < pin ==> (#[trigger] pins[earlier]) != chain
}

/// The one header that the entry of a chain makes of the headers that reach
/// it, `headers[p]` being the header that comes through pin `p`: the first of
/// them, where every other goes together with it. There is none where there is
/// not one header for each pin, where no pin leads to the chain, or where a
/// header does not go together with the first.
pub open spec fn reconciled(
    headers: Seq<HeaderView>,
    pins: Seq<ChainId>,
    chain: int,
    policy: Option<Reconciliation>,
) -> Option<HeaderView> {
    if headers.len() != pins.len() {
        None
    } else if exists|pin: int| first_pin_of(pins, chain, pin) {
        let first = choose|pin: int| first_pin_of(pins, chain, pin);
        if forall|pin: int|
            0 <= pin < pins.len() && (#[trigger] pins[pin]) == chain ==> agrees(
                policy,
                headers[first],
                headers[pin],
            ) {
            Some(headers[first])
        } else {
            None
        }
    } else {
        None
    }
}

/// A line of sinks that wait for their header.
pub struct HeaderChain<K: HeaderSink> {
    nodes: Vec<K>,
    policy: Option<Reconciliation>,
}

impl<K: HeaderSink> HeaderChain<K> {
    /// The number of sinks of the chain.
    pub closed spec fn length(&self) -> nat {
        self.nodes.len() as nat
    }

    /// How the entry of the chain reconciles headers, if it has a policy.
    pub closed spec fn policy(&self) -> Option<Reconciliation> {
        self.policy
    }

    /// A chain of the given sinks, in their order, without a policy for
    /// reconciling headers.
    pub fn new(nodes: Vec<K>) -> (chain: Self)
        ensures
            chain.length() == nodes.len(),
            chain.policy() is None,
    {
        HeaderChain { nodes, policy: None }
    }

    /// A chain of the given sinks, in their order, whose entry reconciles
    /// headers by the given policy.
    pub fn with_policy(nodes: Vec<K>, policy: Reconciliation) -> (chain: Self)
        ensures
            chain.length() == nodes.len(),
            chain.policy() == Some(policy),
    {
        HeaderChain { nodes, policy: Some(policy) }
    }

    /// Hands the header to the sinks of the chain, in order; each sees the
    /// header as the sinks before it left it. Where every sink takes it, the
    /// chain of the sinks that take the rows is returned: it has as many sinks,
    /// and none has received a row. The first failure of a sink ends the
    /// negotiation and is returned with the place of the sink.
    pub fn process_header(self, header: &mut Header) -> (chain: Result<
        DataChain<K::Sink>,
        (usize, Error),
    >)
        ensures
            self.length() == 0 ==> chain is Ok && *final(header) == *old(header),
            match chain {
                Ok(chain) => {
                    &&& chain@.len() == self.length()
                    &&& fresh(chain@)
                    &&& chain@.len() > 0 ==> chain@[0].negotiated() == old(header)@
                },
                Err((node, _)) => node < self.length(),
            },
    {
        let ghost length = self.length();
        let mut nodes = self.nodes;
        let mut stack: Vec<K> = Vec::new();
        while nodes.len() > 0
            invariant
                nodes.len() + stack.len() == length,
            decreases nodes.len(),
        {
            match nodes.pop() {
                Some(node) => {
                    stack.push(node);
                },
                None => {},
            }
        }
        let mut sinks: Vec<K::Sink> = Vec::new();
        while stack.len() > 0
            invariant
                sinks.len() + stack.len() == length,
                length == self.length(),
                fresh(sinks@),
                sinks.len() == 0 ==> *header == *old(header),
                sinks.len() > 0 ==> sinks[0].negotiated() == old(header)@,
            decreases stack.len(),
        {
            match stack.pop() {
                Some(node) => match node.process_header(header) {
                    Ok(sink) => {
                        sinks.push(sink);
                    },
                    Err(cause) => {
                        return Err((sinks.len(), cause));
                    },
                },
                None => {},
            }
        }
        Ok(DataChain::new(sinks))
    }
}

/// What each of the headers says.
pub open spec fn views(headers: Seq<Header>) -> Seq<HeaderView> {
    headers.map_values(|header: Header| header@)
}

/// At most one pin is the first that leads to a chain.
pub proof fn lemma_first_pin_unique(pins: Seq<ChainId>, chain: int, pin: int, other: int)
    requires
        first_pin_of(pins, chain, pin),
        first_pin_of(pins, chain, other),
    ensures
        pin == other,
{
    if pin < other {
        assert(pins[pin] != chain);
    }
    if other < pin {
        assert(pins[other] != chain);
    }
}

fn goes_with(policy: Option<Reconciliation>, first: &Header, other: &Header) -> (agreed: bool)
    ensures
        agreed == agrees(policy, first@, other@),
{
    match policy {
        None => *first == *other,
        Some(Reconciliation::SameTypes) => first.same_types(other),
    }
}

/// Makes one header of the headers that reach a chain, `headers[p]` being the
/// header that comes through pin `p`, or finds that there is none.
pub fn reconcile(
    headers: &Vec<Header>,
    pins: &Vec<ChainId>,
    chain: ChainId,
    policy: Option<Reconciliation>,
) -> (header: Option<Header>)
    ensures
        match header {
            Some(header) => reconciled(views(headers@), pins@, chain as int, policy) == Some(
                header@,
            ),
            None => reconciled(views(headers@), pins@, chain as int, policy) is None,
        },
{
    if headers.len() != pins.len() {
        return None;
    }
    let mut first: Option<usize> = None;
    let mut pin: usize = 0;
    while pin < pins.len()
        invariant
            pin <= pins.len(),
            headers.len() == pins.len(),
            match first {
                None => forall|earlier: int| 0 <= earlier < pin ==> (#[trigger] pins[earlier]) != chain,
                Some(first) => {
                    &&& first < pin
                    &&& first_pin_of(pins@, chain as int, first as int)
                    &&& forall|earlier: int|
                        0 <= earlier < pin && (#[trigger] pins[earlier]) == chain ==> agrees(
                            policy,
                            headers[first as int]@,
                            headers[earlier]@,
                        )
                },
            },
        decreases pins.len() - pin,
    {
        if pins[pin] == chain {
            match first {
                None => {
                    first = Some(pin);
                },
                Some(found) => {
                    if !goes_with(policy, &headers[found], &headers[pin]) {
                        proof {
                            let chosen = choose|p: int| first_pin_of(pins@, chain as int, p);
                            lemma_first_pin_unique(pins@, chain as int, found as int, chosen);
                            assert(pins@[pin as int] == chain);
                        }
                        return None;
                    }
                },
            }
        }
        pin += 1;
    }
    match first {
        None => {
            assert forall|p: int| !first_pin_of(pins@, chain as int, p) by {
                if first_pin_of(pins@, chain as int, p) {
                    assert(pins[p] != chain);
                }
            }
            None
        },
        Some(found) => {
            proof {
                let chosen = choose|p: int| first_pin_of(pins@, chain as int, p);
                lemma_first_pin_unique(pins@, chain as int, found as int, chosen);
            }
            Some(headers[found].duplicate())
        },
    }
}

/// The chains of a graph whose sinks wait for their headers, and the chain that
/// each pin leads to.
pub struct HeaderGraph<K: HeaderSink> {
    chains: Vec<HeaderChain<K>>,
    pins: Vec<ChainId>,
}

impl<K: HeaderSink> HeaderGraph<K> {
    #[verifier::type_invariant]
    spec fn routed(self) -> bool {
        forall|pin: int| 0 <= pin < self.pins.len() ==> (#[trigger] self.pins[pin]) < self.chains.len()
    }

    /// The chain that each pin leads to.
    pub closed spec fn pins(&self) -> Seq<ChainId> {
        self.pins@
    }

    /// The number of sinks of each chain.
    pub closed spec fn lengths(&self) -> Seq<nat> {
        Seq::new(self.chains.len() as nat, |chain: int| self.chains[chain].length())
    }

    /// The policy of each chain for reconciling headers.
    pub closed spec fn policies(&self) -> Seq<Option<Reconciliation>> {
        Seq::new(self.chains.len() as nat, |chain: int| self.chains[chain].policy())
    }

    /// Whether the headers that reach a chain can be made one header.
    pub open spec fn reconcilable(&self, headers: Seq<HeaderView>, chain: int) -> bool {
        reconciled(headers, self.pins(), chain, self.policies()[chain]) is Some
    }

    /// Whether no chain has a sink.
    pub open spec fn sinkless(&self) -> bool {
        forall|chain: int| 0 <= chain < self.lengths().len() ==> #[trigger] self.lengths()[chain] == 0
    }

    /// The one header that is made of the headers that reach a chain, and
    /// handed to the first sink of the chain.
    pub open spec fn entry_header(&self, headers: Seq<HeaderView>, chain: int) -> HeaderView {
        reconciled(headers, self.pins(), chain, self.policies()[chain])->0
    }

    /// A graph of the given chains with one pin for each chain: pin `p` leads to
    /// chain `p`.
    pub fn new(chains: Vec<HeaderChain<K>>) -> (graph: Self)
        ensures
            graph.pins() == Seq::new(chains.len() as nat, |pin: int| pin as usize),
            graph.lengths() == Seq::new(chains.len() as nat, |chain: int| chains[chain].length()),
            graph.policies() == Seq::new(chains.len() as nat, |chain: int| chains[chain].policy()),
    {
        let mut pins: Vec<ChainId> = Vec::new();
        let mut pin: usize = 0;
        while pin < chains.len()
            invariant
                pin <= chains.len(),
                pins.len() == pin,
                forall|p: int| 0 <= p < pin ==> (#[trigger] pins[p]) == p,
            decreases chains.len() - pin,
        {
            pins.push(pin);
            pin += 1;
        }
        assert(pins@ =~= Seq::new(chains.len() as nat, |pin: int| pin as usize));
        HeaderGraph { chains, pins }
    }

    /// A graph of the given chains, in which pin `p` leads to chain `pins[p]`;
    /// several pins may lead to one chain. A pin that leads to no chain is
    /// refused.
    pub fn with_pins(chains: Vec<HeaderChain<K>>, pins: Vec<ChainId>) -> (graph: Result<Self, Error>)
        ensures
            match graph {
                Ok(graph) => {
                    &&& graph.pins() == pins@
                    &&& graph.lengths() == Seq::new(
                        chains.len() as nat,
                        |chain: int| chains[chain].length(),
                    )
                    &&& graph.policies() == Seq::new(
                        chains.len() as nat,
                        |chain: int| chains[chain].policy(),
                    )
                    &&& forall|pin: int| 0 <= pin < pins.len() ==> (#[trigger] pins[pin]) < chains.len()
                },
                Err(error) => {
                    &&& error == Error::InvalidGraph
                    &&& exists|pin: int| 0 <= pin < pins.len() && pins[pin] >= chains.len()
                },
            },
    {
        let mut pin: usize = 0;
        while pin < pins.len()
            invariant
                pin <= pins.len(),
                forall|p: int| 0 <= p < pin ==> (#[trigger] pins[p]) < chains.len(),
            decreases pins.len() - pin,
        {
            if pins[pin] >= chains.len() {
                return Err(Error::InvalidGraph);
            }
            pin += 1;
        }
        Ok(HeaderGraph { chains, pins })
    }

    /// The number of pins.
    pub fn pin_count(&self) -> (count: usize)
        ensures
            count == self.pins().len(),
    {
        self.pins.len()
    }

    /// Hands the headers to the graph, `headers[p]` being the header that comes
    /// through pin `p`, and makes of it the graph that takes the rows.
    ///
    /// There must be one header for each pin. For each chain, the headers that
    /// reach it are made one header; where that cannot be done for a chain, the
    /// first such chain is named with a header mismatch, and no sink has seen
    /// anything. Then each chain, in order, hands its header to its sinks. The
    /// first failure of a sink ends the negotiation and is returned with the
    /// place of the sink. In the graph that is returned every chain has the
    /// sinks that it had, its first sink was handed the header of the chain,
    /// and no sink has received a row. Where no chain has a sink, nothing can
    /// fail but the reconciling.
    pub fn process_header(self, headers: &Vec<Header>) -> (graph: Result<
        DataGraph<K::Sink>,
        Failure,
    >)
        ensures
            headers.len() != self.pins().len() ==> {
                &&& graph matches Err(failure)
                &&& failure.component == Component::Graph
                &&& failure.cause == Error::InvalidGraph
            },
            headers.len() == self.pins().len() && self.sinkless() && (forall|chain: int|
                0 <= chain < self.lengths().len() ==> #[trigger] self.reconcilable(
                    views(headers@),
                    chain,
                )) ==> graph is Ok,
            headers.len() == self.pins().len() ==> match graph {
                Ok(graph) => {
                    &&& graph.pins() == self.pins()
                    &&& graph.chains().len() == self.lengths().len()
                    &&& forall|chain: int|
                        0 <= chain < self.lengths().len() ==> {
                            &&& self.reconcilable(views(headers@), chain)
                            &&& (#[trigger] graph.chains()[chain]).len() == self.lengths()[chain]
                            &&& fresh(graph.chains()[chain])
                            &&& graph.chains()[chain].len() > 0
                                ==> graph.chains()[chain][0].negotiated() == self.entry_header(
                                views(headers@),
                                chain,
                            )
                        }
                },
                Err(failure) => match failure.component {
                    Component::Chain(chain) => {
                        &&& failure.cause == Error::HeaderMismatch
                        &&& chain < self.lengths().len()
                        &&& !self.reconcilable(views(headers@), chain as int)
                        &&& forall|earlier: int|
                            0 <= earlier < chain ==> self.reconcilable(views(headers@), earlier)
                    },
                    Component::Node { chain, node } => {
                        &&& chain < self.lengths().len()
                        &&& node < self.lengths()[chain as int]
                        &&& forall|any: int|
                            0 <= any < self.lengths().len() ==> self.reconcilable(
                                views(headers@),
                                any,
                            )
                    },
                    _ => false,
                },
            },
    {
        proof {
            use_type_invariant(&self);
        }
        if headers.len() != self.pins.len() {
            return Err(Failure { component: Component::Graph, cause: Error::InvalidGraph });
        }
        let ghost lengths = self.lengths();
        let ghost policies = self.policies();
        let ghost routes = self.pins();
        let count = self.chains.len();
        let mut entries: Vec<Header> = Vec::new();
        let mut chain: usize = 0;
        while chain < count
            invariant
                chain <= count,
                count == self.chains.len(),
                headers.len() == self.pins.len(),
                entries.len() == chain,
                forall|earlier: int|
                    0 <= earlier < chain ==> self.reconcilable(views(headers@), earlier),
                forall|earlier: int|
                    0 <= earlier < chain ==> (#[trigger] entries[earlier])@ == self.entry_header(
                        views(headers@),
                        earlier,
                    ),
            decreases count - chain,
        {
            match reconcile(headers, &self.pins, chain, self.chains[chain].policy) {
                Some(header) => {
                    entries.push(header);
                },
                None => {
                    assert(!self.reconcilable(views(headers@), chain as int));
                    return Err(
                        Failure { component: Component::Chain(chain), cause: Error::HeaderMismatch },
                    );
                },
            }
            chain += 1;
        }
        let pins = self.pins;
        let mut chains = self.chains;
        let mut stack: Vec<HeaderChain<K>> = Vec::new();
        while chains.len() > 0
            invariant
                chains.len() + stack.len() == count,
                count == lengths.len(),
                forall|c: int| 0 <= c < chains.len() ==> (#[trigger] chains[c]).length() == lengths[c],
                forall|c: int|
                    0 <= c < stack.len() ==> (#[trigger] stack[c]).length() == lengths[count - 1
                        - c],
            decreases chains.len(),
        {
            match chains.pop() {
                Some(next) => {
                    stack.push(next);
                },
                None => {},
            }
        }
        let mut ready: Vec<DataChain<K::Sink>> = Vec::new();
        while stack.len() > 0
            invariant
                ready.len() + stack.len() == count,
                count == lengths.len(),
                entries.len() == count,
                lengths == self.lengths(),
                headers.len() == self.pins().len(),
                forall|any: int|
                    0 <= any < self.lengths().len() ==> self.reconcilable(views(headers@), any),
                forall|c: int|
                    0 <= c < stack.len() ==> (#[trigger] stack[c]).length() == lengths[count - 1
                        - c],
                forall|c: int|
                    ready.len() <= c < count ==> (#[trigger] entries[c])@ == self.entry_header(
                        views(headers@),
                        c,
                    ),
                forall|c: int|
                    0 <= c < ready.len() ==> {
                        &&& (#[trigger] ready[c])@.len() == lengths[c]
                        &&& fresh(ready[c]@)
                        &&& ready[c]@.len() > 0 ==> ready[c]@[0].negotiated() == self.entry_header(
                            views(headers@),
                            c,
                        )
                    },
            decreases stack.len(),
        {
            let at = ready.len();
            assert(stack[stack.len() - 1].length() == lengths[at as int]);
            match stack.pop() {
                Some(next) => match next.process_header(&mut entries[at]) {
                    Ok(data) => {
                        ready.push(data);
                    },
                    Err((node, cause)) => {
                        return Err(
                            Failure { component: Component::Node { chain: at, node }, cause },
                        );
                    },
                },
                None => {},
            }
        }
        match DataGraph::new(ready, pins) {
            Ok(graph) => Ok(graph),
            Err(cause) => Err(Failure { component: Component::Graph, cause }),
        }
    }
}

} // verus!
