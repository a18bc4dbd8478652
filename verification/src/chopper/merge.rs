//! The merge of several streams of rows into one stream ordered by time.
//!
//! [`merge`] says what the merged stream is. [`Merger`] computes it one decision
//! at a time, from the rows that its user reads for it.

use crate::chopper::types::{Nanos, Placement, Row, TimestampRange};
use crate::error::{CliResult, Error};
use vstd::prelude::*;

verus! {

/// A row together with the index of the source that it came from.
pub struct Tagged {
    pub source: int,
    pub row: Row,
}

/// The rows of a tagged stream.
pub open spec fn rows_of(stream: Seq<Tagged>) -> Seq<Row> {
    stream.map_values(|tagged: Tagged| tagged.row)
}

/// The test that a tagged row came from the given source.
pub open spec fn from_source(source: int) -> spec_fn(Tagged) -> bool {
    |tagged: Tagged| tagged.source == source
}

/// The test that a row lies inside the window.
pub open spec fn admitted(range: TimestampRange) -> spec_fn(Row) -> bool {
    |row: Row| range.admits(row.timestamp)
}

/// Whether the rows are in non-decreasing order of time.
pub open spec fn ordered(rows: Seq<Row>) -> bool {
    forall|a: int, b: int| 0 <= a <= b < rows.len() ==> rows[a].timestamp <= rows[b].timestamp
}

/// Whether the row of time `t` from source `i` goes before the row of time `u`
/// from source `j`: the earlier row goes first, and of two rows of one time the
/// one from the source that was registered first.
pub open spec fn precedes(t: Nanos, i: int, u: Nanos, j: int) -> bool {
    t < u || (t == u && i <= j)
}

/// Whether every row of the stream goes before every later one.
pub open spec fn in_order(stream: Seq<Tagged>) -> bool {
    forall|a: int, b: int|
        0 <= a < b < stream.len() ==> precedes(
            (#[trigger] stream[a]).row.timestamp,
            stream[a].source,
            (#[trigger] stream[b]).row.timestamp,
            stream[b].source,
        )
}

/// The time of the first of the rows, if there is one.
pub open spec fn head(rows: Seq<Row>) -> Option<Nanos> {
    if rows.len() > 0 {
        Some(rows[0].timestamp)
    } else {
        None
    }
}

/// The time of the first row of each source.
pub open spec fn heads(pending: Seq<Seq<Row>>) -> Seq<Option<Nanos>> {
    Seq::new(pending.len(), |i: int| head(pending[i]))
}

/// Whether source `i` is the one to take the next row from: it has a row, and
/// that row goes before the first row of every other source.
pub open spec fn first_least(heads: Seq<Option<Nanos>>, i: int) -> bool {
    &&& 0 <= i < heads.len()
    &&& heads[i] is Some
    &&& forall|j: int|
        0 <= j < heads.len() && (#[trigger] heads[j]) is Some ==> precedes(
            heads[i]->0,
            i,
            heads[j]->0,
            j,
        )
}

/// The number of rows that the sources hold together.
pub open spec fn total(pending: Seq<Seq<Row>>) -> nat
    decreases pending.len(),
{
    if pending.len() == 0 {
        0
    } else {
        total(pending.drop_last()) + pending.last().len()
    }
}

/// The merged stream of the rows that the sources still hold.
///
/// As long as a source holds a row, the next row is taken from the source whose
/// first row goes before those of the others. A row before the window is
/// dropped. A row after the window ends its source: no further row of that
/// source is looked at. A row inside the window is the next of the stream.
pub open spec fn merge(pending: Seq<Seq<Row>>, range: TimestampRange) -> Seq<Tagged>
    decreases total(pending),
{
    if exists|i: int| first_least(heads(pending), i) {
        let i = choose|i: int| first_least(heads(pending), i);
        let row = pending[i][0];
        proof {
            lemma_total_update(pending, i, pending[i].drop_first());
            lemma_total_update(pending, i, Seq::empty());
        }
        match range.placement(row.timestamp) {
            Placement::Early => merge(pending.update(i, pending[i].drop_first()), range),
            Placement::Late => merge(pending.update(i, Seq::empty()), range),
            Placement::Within => seq![Tagged { source: i, row }] + merge(
                pending.update(i, pending[i].drop_first()),
                range,
            ),
        }
    } else {
        Seq::empty()
    }
}

/// Replacing the rows of one source changes the total by the difference of the
/// two lengths.
pub proof fn lemma_total_update(pending: Seq<Seq<Row>>, i: int, rows: Seq<Row>)
    requires
        0 <= i < pending.len(),
    ensures
        total(pending.update(i, rows)) == total(pending) - pending[i].len() + rows.len(),
    decreases pending.len(),
{
    let updated = pending.update(i, rows);
    if i == pending.len() - 1 {
        assert(updated.drop_last() =~= pending.drop_last());
    } else {
        assert(updated.drop_last() =~= pending.drop_last().update(i, rows));
        lemma_total_update(pending.drop_last(), i, rows);
    }
}

/// Where some source has a row, one source is the one to take the next row from.
pub proof fn lemma_first_least_exists(heads: Seq<Option<Nanos>>)
    requires
        exists|j: int| 0 <= j < heads.len() && heads[j] is Some,
    ensures
        exists|i: int| first_least(heads, i),
    decreases heads.len(),
{
    let last = heads.len() - 1;
    let front = heads.drop_last();
    if exists|j: int| 0 <= j < front.len() && front[j] is Some {
        lemma_first_least_exists(front);
        let i = choose|i: int| first_least(front, i);
        if heads[last] is Some && heads[last]->0 < front[i]->0 {
            assert forall|j: int| 0 <= j < heads.len() && (#[trigger] heads[j]) is Some implies precedes(
                heads[last]->0,
                last,
                heads[j]->0,
                j,
            ) by {
                if j < last {
                    assert(front[j] is Some);
                }
            }
            assert(first_least(heads, last));
        } else {
            assert forall|j: int| 0 <= j < heads.len() && (#[trigger] heads[j]) is Some implies precedes(
                heads[i]->0,
                i,
                heads[j]->0,
                j,
            ) by {
                if j < last {
                    assert(front[j] is Some);
                }
            }
            assert(first_least(heads, i));
        }
    } else {
        let found = choose|j: int| 0 <= j < heads.len() && heads[j] is Some;
        if found < last {
            assert(front[found] is Some);
        }
        assert forall|j: int| 0 <= j < heads.len() && (#[trigger] heads[j]) is Some implies precedes(
            heads[last]->0,
            last,
            heads[j]->0,
            j,
        ) by {
            if j < last {
                assert(front[j] is Some);
            }
        }
        assert(first_least(heads, last));
    }
}

/// At most one source is the one to take the next row from.
pub proof fn lemma_first_least_unique(heads: Seq<Option<Nanos>>, i: int, j: int)
    requires
        first_least(heads, i),
        first_least(heads, j),
    ensures
        i == j,
{
}

/// The sources after the first row of source `i` was taken.
pub open spec fn advanced(pending: Seq<Seq<Row>>, i: int) -> Seq<Seq<Row>> {
    pending.update(i, pending[i].drop_first())
}

/// The sources after source `i` was ended.
pub open spec fn ended(pending: Seq<Seq<Row>>, i: int) -> Seq<Seq<Row>> {
    pending.update(i, Seq::empty())
}

/// One step of the merge, where the source to take the next row from is known.
pub proof fn lemma_merge_step(pending: Seq<Seq<Row>>, range: TimestampRange, i: int)
    requires
        first_least(heads(pending), i),
    ensures
        pending[i].len() > 0,
        merge(pending, range) == match range.placement(pending[i][0].timestamp) {
            Placement::Early => merge(advanced(pending, i), range),
            Placement::Late => merge(ended(pending, i), range),
            Placement::Within => seq![Tagged { source: i, row: pending[i][0] }] + merge(
                advanced(pending, i),
                range,
            ),
        },
{
    let chosen = choose|k: int| first_least(heads(pending), k);
    lemma_first_least_unique(heads(pending), i, chosen);
}

/// Where no source is the one to take the next row from, no source has a row,
/// and the merged stream is empty.
pub proof fn lemma_merge_end(pending: Seq<Seq<Row>>, range: TimestampRange)
    requires
        !exists|i: int| first_least(heads(pending), i),
    ensures
        merge(pending, range) == Seq::<Tagged>::empty(),
        forall|j: int| 0 <= j < pending.len() ==> (#[trigger] pending[j]).len() == 0,
{
    assert forall|j: int| 0 <= j < pending.len() implies (#[trigger] pending[j]).len() == 0 by {
        if pending[j].len() > 0 {
            assert(heads(pending)[j] is Some);
            lemma_first_least_exists(heads(pending));
        }
    }
}

/// Every row of the merged stream is a row of the source that it is tagged
/// with, and lies inside the window.
pub proof fn lemma_merge_sound(pending: Seq<Seq<Row>>, range: TimestampRange)
    ensures
        forall|k: int|
            0 <= k < merge(pending, range).len() ==> {
                let tagged = #[trigger] merge(pending, range)[k];
                &&& 0 <= tagged.source < pending.len()
                &&& pending[tagged.source].contains(tagged.row)
                &&& range.admits(tagged.row.timestamp)
            },
    decreases total(pending),
{
    if exists|i: int| first_least(heads(pending), i) {
        let i = choose|i: int| first_least(heads(pending), i);
        lemma_merge_step(pending, range, i);
        let row = pending[i][0];
        let next = if range.placement(row.timestamp) == Placement::Late {
            ended(pending, i)
        } else {
            advanced(pending, i)
        };
        lemma_total_update(pending, i, next[i]);
        lemma_merge_sound(next, range);
        let rest = merge(next, range);
        assert forall|k: int| 0 <= k < merge(pending, range).len() implies {
            let tagged = #[trigger] merge(pending, range)[k];
            &&& 0 <= tagged.source < pending.len()
            &&& pending[tagged.source].contains(tagged.row)
            &&& range.admits(tagged.row.timestamp)
        } by {
            let tagged = merge(pending, range)[k];
            if range.placement(row.timestamp) == Placement::Within && k == 0 {
                assert(pending[i][0] == row);
            } else {
                let at = if range.placement(row.timestamp) == Placement::Within {
                    k - 1
                } else {
                    k
                };
                assert(tagged == rest[at]);
                let found = choose|n: int|
                    0 <= n < next[tagged.source].len() && next[tagged.source][n] == tagged.row;
                if tagged.source == i {
                    assert(pending[i][found + 1] == tagged.row);
                } else {
                    assert(pending[tagged.source][found] == tagged.row);
                }
            }
        }
    }
}

/// In the merged stream of sources that are each ordered by time, every row
/// goes before every later one: the stream is ordered by time, and rows of one
/// time stand in the order in which their sources were registered.
pub proof fn lemma_merge_ordered(pending: Seq<Seq<Row>>, range: TimestampRange)
    requires
        forall|j: int| 0 <= j < pending.len() ==> ordered(#[trigger] pending[j]),
    ensures
        in_order(merge(pending, range)),
    decreases total(pending),
{
    if exists|i: int| first_least(heads(pending), i) {
        let i = choose|i: int| first_least(heads(pending), i);
        lemma_merge_step(pending, range, i);
        let row = pending[i][0];
        let next = if range.placement(row.timestamp) == Placement::Late {
            ended(pending, i)
        } else {
            advanced(pending, i)
        };
        lemma_total_update(pending, i, next[i]);
        assert forall|j: int| 0 <= j < next.len() implies ordered(#[trigger] next[j]) by {
            assert(ordered(pending[j]));
            if j == i && next[i].len() > 0 {
                assert forall|a: int, b: int| 0 <= a <= b < next[i].len() implies next[i][a].timestamp
                    <= next[i][b].timestamp by {
                    assert(pending[i][a + 1].timestamp <= pending[i][b + 1].timestamp);
                }
            }
        }
        lemma_merge_ordered(next, range);
        lemma_merge_sound(next, range);
        let rest = merge(next, range);
        let stream = merge(pending, range);
        if range.placement(row.timestamp) == Placement::Within {
            assert forall|a: int, b: int| 0 <= a < b < stream.len() implies precedes(
                (#[trigger] stream[a]).row.timestamp,
                stream[a].source,
                (#[trigger] stream[b]).row.timestamp,
                stream[b].source,
            ) by {
                let later = rest[b - 1];
                assert(stream[b] == later);
                if a == 0 {
                    let found = choose|n: int|
                        0 <= n < next[later.source].len() && next[later.source][n] == later.row;
                    assert(ordered(pending[later.source]));
                    if later.source == i {
                        assert(pending[i][0].timestamp <= pending[i][found + 1].timestamp);
                    } else {
                        assert(pending[later.source][0].timestamp
                            <= pending[later.source][found].timestamp);
                        assert(heads(pending)[later.source] is Some);
                    }
                } else {
                    assert(stream[a] == rest[a - 1]);
                }
            }
        }
    }
}

/// Filtering rows of which none passes the test leaves nothing.
pub proof fn lemma_filter_nothing(rows: Seq<Row>, test: spec_fn(Row) -> bool)
    requires
        forall|k: int| 0 <= k < rows.len() ==> !test(#[trigger] rows[k]),
    ensures
        rows.filter(test) == Seq::<Row>::empty(),
{
    let kept = rows.filter(test);
    if kept.len() > 0 {
        rows.lemma_filter_pred(test, 0);
        assert(kept.contains(kept[0]));
        rows.lemma_filter_contains_rev(test, kept[0]);
        let found = choose|n: int| 0 <= n < rows.len() && rows[n] == kept[0];
        assert(!test(rows[found]));
    }
    assert(kept =~= Seq::<Row>::empty());
}

/// The merged stream of sources that are each ordered by time holds, of each
/// source, exactly the rows that lie inside the window, in the order in which
/// the source holds them.
pub proof fn lemma_merge_interleaves(pending: Seq<Seq<Row>>, range: TimestampRange, source: int)
    requires
        forall|j: int| 0 <= j < pending.len() ==> ordered(#[trigger] pending[j]),
        0 <= source < pending.len(),
    ensures
        rows_of(merge(pending, range).filter(from_source(source))) == pending[source].filter(
            admitted(range),
        ),
    decreases total(pending),
{
    let stream = merge(pending, range);
    let mine = from_source(source);
    let inside = admitted(range);
    if exists|i: int| first_least(heads(pending), i) {
        let i = choose|i: int| first_least(heads(pending), i);
        lemma_merge_step(pending, range, i);
        let row = pending[i][0];
        let placement = range.placement(row.timestamp);
        let next = if placement == Placement::Late {
            ended(pending, i)
        } else {
            advanced(pending, i)
        };
        lemma_total_update(pending, i, next[i]);
        assert forall|j: int| 0 <= j < next.len() implies ordered(#[trigger] next[j]) by {
            assert(ordered(pending[j]));
            if j == i && next[i].len() > 0 {
                assert forall|a: int, b: int| 0 <= a <= b < next[i].len() implies next[i][a].timestamp
                    <= next[i][b].timestamp by {
                    assert(pending[i][a + 1].timestamp <= pending[i][b + 1].timestamp);
                }
            }
        }
        lemma_merge_interleaves(next, range, source);
        let rest = merge(next, range);
        if placement == Placement::Within {
            let first = Tagged { source: i, row };
            rest.lemma_filter_prepend(first, mine);
            if source == i {
                assert(rows_of(seq![first] + rest.filter(mine)) =~= seq![row] + rows_of(
                    rest.filter(mine),
                ));
            } else {
                assert(Seq::<Tagged>::empty() + rest.filter(mine) =~= rest.filter(mine));
            }
        }
        if source == i {
            assert(pending[i] =~= seq![row] + pending[i].drop_first());
            if placement == Placement::Late {
                assert forall|k: int| 0 <= k < pending[i].len() implies !inside(
                    #[trigger] pending[i][k],
                ) by {
                    assert(pending[i][0].timestamp <= pending[i][k].timestamp);
                }
                lemma_filter_nothing(pending[i], inside);
                lemma_filter_nothing(Seq::<Row>::empty(), inside);
            } else {
                pending[i].drop_first().lemma_filter_prepend(row, inside);
                if placement == Placement::Early {
                    assert(Seq::<Row>::empty() + pending[i].drop_first().filter(inside)
                        =~= pending[i].drop_first().filter(inside));
                }
            }
        }
    } else {
        lemma_merge_end(pending, range);
        lemma_filter_nothing(pending[source], inside);
        stream.lemma_filter_len(mine);
        assert(rows_of(stream.filter(mine)) =~= Seq::<Row>::empty());
    }
}

/// The rows of the merged stream of sources that are each ordered by time are
/// ordered by time.
pub proof fn lemma_merged_rows_ordered(pending: Seq<Seq<Row>>, range: TimestampRange)
    requires
        forall|j: int| 0 <= j < pending.len() ==> ordered(#[trigger] pending[j]),
    ensures
        ordered(rows_of(merge(pending, range))),
{
    lemma_merge_ordered(pending, range);
    let stream = merge(pending, range);
    assert forall|a: int, b: int| 0 <= a <= b < rows_of(stream).len() implies rows_of(
        stream,
    )[a].timestamp <= rows_of(stream)[b].timestamp by {
        if a < b {
            assert(precedes(
                stream[a].row.timestamp,
                stream[a].source,
                stream[b].row.timestamp,
                stream[b].source,
            ));
        }
    }
}

/// Of two rows of one time in the merged stream of sources that are each
/// ordered by time, the one from the source that was registered earlier comes
/// first.
pub proof fn lemma_ties_go_by_source(
    pending: Seq<Seq<Row>>,
    range: TimestampRange,
    a: int,
    b: int,
)
    requires
        forall|j: int| 0 <= j < pending.len() ==> ordered(#[trigger] pending[j]),
        0 <= a < b < merge(pending, range).len(),
        merge(pending, range)[a].row.timestamp == merge(pending, range)[b].row.timestamp,
    ensures
        merge(pending, range)[a].source <= merge(pending, range)[b].source,
{
    lemma_merge_ordered(pending, range);
    let stream = merge(pending, range);
    assert(precedes(
        stream[a].row.timestamp,
        stream[a].source,
        stream[b].row.timestamp,
        stream[b].source,
    ));
}

/// A row of a source is in the merged stream exactly when it lies inside the
/// window, whatever the other sources hold, as long as each source is ordered
/// by time. The bounds of the window lie inside it.
pub proof fn lemma_merge_keeps_window(
    pending: Seq<Seq<Row>>,
    range: TimestampRange,
    source: int,
    index: int,
)
    requires
        forall|j: int| 0 <= j < pending.len() ==> ordered(#[trigger] pending[j]),
        0 <= source < pending.len(),
        0 <= index < pending[source].len(),
    ensures
        merge(pending, range).contains(Tagged { source, row: pending[source][index] })
            <==> range.admits(pending[source][index].timestamp),
        range.begin == Some(pending[source][index].timestamp) ==> !range.is_early(
            pending[source][index].timestamp,
        ),
        range.end == Some(pending[source][index].timestamp) ==> !range.is_late(
            pending[source][index].timestamp,
        ),
{
    let stream = merge(pending, range);
    let row = pending[source][index];
    let wanted = Tagged { source, row };
    let mine = from_source(source);
    let inside = admitted(range);
    if stream.contains(wanted) {
        lemma_merge_sound(pending, range);
        let at = choose|n: int| 0 <= n < stream.len() && stream[n] == wanted;
        assert(range.admits(stream[at].row.timestamp));
    }
    if range.admits(row.timestamp) {
        lemma_merge_interleaves(pending, range, source);
        pending[source].lemma_filter_contains(inside, index);
        let kept = pending[source].filter(inside);
        let at = choose|n: int| 0 <= n < kept.len() && kept[n] == row;
        let found = stream.filter(mine)[at];
        assert(rows_of(stream.filter(mine))[at] == found.row);
        stream.lemma_filter_pred(mine, at);
        assert(found == wanted);
        assert(stream.filter(mine).contains(wanted));
        stream.lemma_filter_contains_rev(mine, wanted);
    }
}

/// What the merge holds for one source.
#[derive(Clone, Debug)]
pub enum Slot {
    /// The next row of the source has to be read.
    Waiting,
    /// The next row of the source.
    Ready(Row),
    /// The source has no further row, or has gone past the window.
    Exhausted,
}

/// The time of the row that a slot holds, if it holds one.
pub open spec fn slot_head(slot: Slot) -> Option<Nanos> {
    match slot {
        Slot::Ready(row) => Some(row.timestamp),
        _ => None,
    }
}

/// The time of the row of each slot.
pub open spec fn slot_heads(slots: Seq<Slot>) -> Seq<Option<Nanos>> {
    Seq::new(slots.len(), |i: int| slot_head(slots[i]))
}

/// Whether slot `i` is the first that waits for a row.
pub open spec fn first_waiting(slots: Seq<Slot>, i: int) -> bool {
    &&& 0 <= i < slots.len()
    &&& slots[i] is Waiting
    &&& forall|j: int| 0 <= j < i ==> !((#[trigger] slots[j]) is Waiting)
}

/// What the user of a [`Merger`] is to do next.
#[derive(Clone, Debug)]
pub enum Action {
    /// Read the next row of the source and supply it.
    Read { source: usize },
    /// Hand the row on: it is the next of the merged stream.
    Forward { source: usize, row: Row },
    /// Nothing: the row was before the window and is dropped.
    Discard { source: usize, row: Row },
    /// Nothing: the row was after the window, and its source is done.
    Close { source: usize, row: Row },
    /// Stop: every source is done.
    Finish,
}

/// What a merger holds.
pub struct MergerView {
    pub timestamp_range: TimestampRange,
    pub slots: Seq<Slot>,
}

/// The merge as a machine that decides and never reads: it holds at most one
/// row of each source, and says, one step at a time, which source to read and
/// which row to hand on.
#[derive(Clone, Debug)]
pub struct Merger {
    timestamp_range: TimestampRange,
    slots: Vec<Slot>,
}

impl View for Merger {
    type V = MergerView;

    closed spec fn view(&self) -> MergerView {
        MergerView { timestamp_range: self.timestamp_range, slots: self.slots@ }
    }
}

impl Merger {
    /// A merger of the given number of sources, which waits for the first row of
    /// each.
    pub fn new(sources: usize, timestamp_range: TimestampRange) -> (merger: Self)
        ensures
            merger@.timestamp_range == timestamp_range,
            merger@.slots.len() == sources,
            forall|i: int| 0 <= i < sources ==> (#[trigger] merger@.slots[i]) is Waiting,
    {
        let mut slots: Vec<Slot> = Vec::new();
        let mut index: usize = 0;
        while index < sources
            invariant
                index <= sources,
                slots.len() == index,
                forall|i: int| 0 <= i < index ==> (#[trigger] slots[i]) is Waiting,
            decreases sources - index,
        {
            slots.push(Slot::Waiting);
            index += 1;
        }
        Merger { timestamp_range, slots }
    }

    /// The number of sources.
    pub fn width(&self) -> (width: usize)
        ensures
            width == self@.slots.len(),
    {
        self.slots.len()
    }

    /// Takes what was read from a source that the merger waits for: its next
    /// row, or nothing where it has no further row. For a source that the merger
    /// does not wait for, nothing changes and the row is refused.
    pub fn supply(&mut self, source: usize, next: Option<Row>) -> (supplied: CliResult<()>)
        ensures
            final(self)@.timestamp_range == old(self)@.timestamp_range,
            if source < old(self)@.slots.len() && old(self)@.slots[source as int] is Waiting {
                &&& supplied is Ok
                &&& final(self)@.slots == old(self)@.slots.update(
                    source as int,
                    match next {
                        Some(row) => Slot::Ready(row),
                        None => Slot::Exhausted,
                    },
                )
            } else {
                &&& supplied == Err::<(), Error>(Error::NotAwaited(source))
                &&& final(self)@ == old(self)@
            },
    {
        if source >= self.slots.len() {
            return Err(Error::NotAwaited(source));
        }
        match &self.slots[source] {
            Slot::Waiting => {},
            _ => {
                return Err(Error::NotAwaited(source));
            },
        }
        let slot = match next {
            Some(row) => Slot::Ready(row),
            None => Slot::Exhausted,
        };
        self.slots.push(slot);
        let _ = self.slots.swap_remove(source);
        assert(self.slots@ =~= old(self)@.slots.update(source as int, slot));
        Ok(())
    }

    /// One step of the merge.
    ///
    /// Where a source is waited for, the first such source is to be read, and
    /// nothing changes. Else, where no source holds a row, the merge is finished.
    /// Else the row that goes before those of the other sources is taken: inside
    /// the window it is to be handed on, before the window it is dropped, and in
    /// both cases its source is waited for; after the window its source is done.
    /// The other sources are left as they are.
    pub fn next(&mut self) -> (action: Action)
        ensures
            final(self)@.timestamp_range == old(self)@.timestamp_range,
            match action {
                Action::Read { source } => {
                    &&& first_waiting(old(self)@.slots, source as int)
                    &&& final(self)@.slots == old(self)@.slots
                },
                Action::Finish => {
                    &&& forall|i: int|
                        0 <= i < old(self)@.slots.len() ==> (#[trigger] old(
                            self,
                        )@.slots[i]) is Exhausted
                    &&& final(self)@.slots == old(self)@.slots
                },
                Action::Forward { source, row } => {
                    &&& old(self).takes(source as int, row)
                    &&& old(self)@.timestamp_range.placement(row.timestamp) == Placement::Within
                    &&& final(self)@.slots == old(self)@.slots.update(source as int, Slot::Waiting)
                },
                Action::Discard { source, row } => {
                    &&& old(self).takes(source as int, row)
                    &&& old(self)@.timestamp_range.placement(row.timestamp) == Placement::Early
                    &&& final(self)@.slots == old(self)@.slots.update(source as int, Slot::Waiting)
                },
                Action::Close { source, row } => {
                    &&& old(self).takes(source as int, row)
                    &&& old(self)@.timestamp_range.placement(row.timestamp) == Placement::Late
                    &&& final(self)@.slots == old(self)@.slots.update(
                        source as int,
                        Slot::Exhausted,
                    )
                },
            },
    {
        let width = self.slots.len();
        let mut index: usize = 0;
        while index < width
            invariant
                index <= width,
                width == self.slots.len(),
                self.slots@ == old(self).slots@,
                forall|j: int| 0 <= j < index ==> !((#[trigger] self.slots[j]) is Waiting),
            decreases width - index,
        {
            match &self.slots[index] {
                Slot::Waiting => {
                    return Action::Read { source: index };
                },
                _ => {},
            }
            index += 1;
        }
        let mut best: Option<usize> = None;
        let mut best_time: Nanos = 0;
        index = 0;
        while index < width
            invariant
                index <= width,
                width == self.slots.len(),
                self.slots@ == old(self).slots@,
                match best {
                    None => forall|j: int|
                        0 <= j < index ==> slot_head(#[trigger] self.slots[j]) is None,
                    Some(chosen) => {
                        &&& chosen < index
                        &&& slot_head(self.slots[chosen as int]) == Some(best_time)
                        &&& forall|j: int|
                            0 <= j < index && slot_head(#[trigger] self.slots[j]) is Some
                                ==> precedes(
                                best_time,
                                chosen as int,
                                slot_head(self.slots[j])->0,
                                j,
                            )
                    },
                },
            decreases width - index,
        {
            match &self.slots[index] {
                Slot::Ready(row) => {
                    if best.is_none() || row.timestamp < best_time {
                        best = Some(index);
                        best_time = row.timestamp;
                    }
                },
                _ => {},
            }
            index += 1;
        }
        match best {
            None => {
                assert forall|i: int| 0 <= i < old(self)@.slots.len() implies (#[trigger] old(
                    self,
                )@.slots[i]) is Exhausted by {
                    assert(slot_head(self.slots[i]) is None);
                }
                Action::Finish
            },
            Some(source) => {
                let placement = self.timestamp_range.place(best_time);
                let slot = match placement {
                    Placement::Late => Slot::Exhausted,
                    _ => Slot::Waiting,
                };
                self.slots.push(slot);
                let taken = self.slots.swap_remove(source);
                assert(self.slots@ =~= old(self)@.slots.update(source as int, slot));
                proof {
                    let heads = slot_heads(old(self)@.slots);
                    assert forall|j: int| 0 <= j < heads.len() && (#[trigger] heads[j]) is Some implies precedes(heads[source as int]->0, source as int, heads[j]->0, j) by {
                        assert(slot_head(old(self).slots[j]) is Some);
                    }
                    assert(first_least(heads, source as int));
                }
                match taken {
                    Slot::Ready(row) => match placement {
                        Placement::Within => Action::Forward { source, row },
                        Placement::Early => Action::Discard { source, row },
                        Placement::Late => Action::Close { source, row },
                    },
                    _ => Action::Finish,
                }
            },
        }
    }

    /// Whether the merger takes `row` from the given source next: it waits for
    /// no source, the source holds that row, and the row goes before those of
    /// the other sources.
    pub open spec fn takes(&self, source: int, row: Row) -> bool {
        &&& forall|i: int| 0 <= i < self@.slots.len() ==> !((#[trigger] self@.slots[i]) is Waiting)
        &&& first_least(slot_heads(self@.slots), source)
        &&& self@.slots[source] == Slot::Ready(row)
    }
}

} // verus!
