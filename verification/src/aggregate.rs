//! What aggregation means, apart from any table layout: a run of readings,
//! each a key and a scaled value, folds into a map from keys to statistics.
//! The laws here say that neither the order of the readings nor the way they
//! are split among tables changes that map.

use crate::container::can_record;
use crate::container::merge_tables;
use crate::container::record;
use crate::station::Stats;
use vstd::prelude::*;

verus! {

/// The table after each of `readings` is recorded in turn.
pub open spec fn record_all(
    table: Map<Seq<u8>, Stats>,
    readings: Seq<(Seq<u8>, int)>,
) -> Map<Seq<u8>, Stats>
    decreases readings.len(),
{
    if readings.len() == 0 {
        table
    } else {
        record(record_all(table, readings.drop_last()), readings.last().0, readings.last().1)
    }
}

/// The table of a run of readings.
pub open spec fn aggregate(readings: Seq<(Seq<u8>, int)>) -> Map<Seq<u8>, Stats> {
    record_all(Map::empty(), readings)
}

/// Whether a table of `capacity` slots takes each of `readings` in turn.
pub open spec fn records_fit(
    table: Map<Seq<u8>, Stats>,
    readings: Seq<(Seq<u8>, int)>,
    capacity: nat,
) -> bool
    decreases readings.len(),
{
    readings.len() == 0 || (records_fit(table, readings.drop_last(), capacity) && can_record(
        record_all(table, readings.drop_last()),
        readings.last().0,
        readings.last().1,
        capacity,
    ))
}

/// Whether a table that held `before` took the first `n` of `readings`, now
/// holds `after`, and cannot take the reading that comes next.
pub open spec fn stops_at(
    before: Map<Seq<u8>, Stats>,
    after: Map<Seq<u8>, Stats>,
    readings: Seq<(Seq<u8>, int)>,
    capacity: nat,
    n: int,
) -> bool {
    &&& 0 <= n < readings.len()
    &&& after == record_all(before, readings.take(n))
    &&& !can_record(after, readings[n].0, readings[n].1, capacity)
}

/// A table that takes a run of readings takes every start of the run.
pub proof fn lemma_fit_prefix(
    table: Map<Seq<u8>, Stats>,
    readings: Seq<(Seq<u8>, int)>,
    capacity: nat,
    n: int,
)
    requires
        records_fit(table, readings, capacity),
        0 <= n <= readings.len(),
    ensures
        records_fit(table, readings.take(n), capacity),
    decreases readings.len() - n,
{
    if n == readings.len() {
        assert(readings.take(n) =~= readings);
    } else {
        lemma_fit_prefix(table, readings, capacity, n + 1);
        assert(readings.take(n + 1).drop_last() =~= readings.take(n));
    }
}

/// A table in which every key has seen a value.
pub open spec fn live_table(table: Map<Seq<u8>, Stats>) -> bool {
    forall|key: Seq<u8>| table.contains_key(key) ==> (#[trigger] table[key]).count > 0
}

/// The runs of `parts` one after the other.
pub open spec fn concat_all(parts: Seq<Seq<(Seq<u8>, int)>>) -> Seq<(Seq<u8>, int)>
    decreases parts.len(),
{
    if parts.len() == 0 {
        Seq::empty()
    } else {
        concat_all(parts.drop_last()) + parts.last()
    }
}

/// The tables of the runs of `parts`, merged one after the other.
pub open spec fn merge_each(parts: Seq<Seq<(Seq<u8>, int)>>) -> Map<Seq<u8>, Stats>
    decreases parts.len(),
{
    if parts.len() == 0 {
        Map::empty()
    } else {
        merge_tables(merge_each(parts.drop_last()), aggregate(parts.last()))
    }
}

/// The values recorded under `key`, in the order of the readings.
pub open spec fn values_of(readings: Seq<(Seq<u8>, int)>, key: Seq<u8>) -> Seq<int>
    decreases readings.len(),
{
    if readings.len() == 0 {
        Seq::empty()
    } else if readings.last().0 == key {
        values_of(readings.drop_last(), key).push(readings.last().1)
    } else {
        values_of(readings.drop_last(), key)
    }
}

/// The one-step function of `record_all`, as a value.
pub open spec fn recording() -> spec_fn(Map<Seq<u8>, Stats>, (Seq<u8>, int)) -> Map<
    Seq<u8>,
    Stats,
> {
    |table: Map<Seq<u8>, Stats>, reading: (Seq<u8>, int)| record(table, reading.0, reading.1)
}

/// Recording a run in two stretches is recording it whole.
pub proof fn lemma_record_all_concat(
    table: Map<Seq<u8>, Stats>,
    first: Seq<(Seq<u8>, int)>,
    second: Seq<(Seq<u8>, int)>,
)
    ensures
        record_all(table, first + second) == record_all(record_all(table, first), second),
    decreases second.len(),
{
    if second.len() == 0 {
        assert(first + second =~= first);
    } else {
        lemma_record_all_concat(table, first, second.drop_last());
        assert((first + second).drop_last() =~= first + second.drop_last());
    }
}

/// Recording a value into the right-hand table is recording it into the
/// merged table.
pub proof fn lemma_merge_record(
    left: Map<Seq<u8>, Stats>,
    right: Map<Seq<u8>, Stats>,
    key: Seq<u8>,
    value: int,
)
    ensures
        merge_tables(left, record(right, key, value)) == record(
            merge_tables(left, right),
            key,
            value,
        ),
{
    assert(merge_tables(left, record(right, key, value)) =~= record(
        merge_tables(left, right),
        key,
        value,
    ));
}

/// The table of a run holds, for each key that occurs, the statistics of the
/// values recorded under it, and no other key.
pub proof fn lemma_aggregate_by_key(readings: Seq<(Seq<u8>, int)>, key: Seq<u8>)
    ensures
        aggregate(readings).contains_key(key) <==> values_of(readings, key).len() > 0,
        aggregate(readings).contains_key(key) ==> aggregate(readings)[key] == Stats::of(
            values_of(readings, key),
        ),
    decreases readings.len(),
{
    if readings.len() > 0 {
        lemma_aggregate_by_key(readings.drop_last(), key);
        if readings.last().0 == key {
            let values = values_of(readings, key);
            assert(values.drop_last() =~= values_of(readings.drop_last(), key));
            if values.drop_last().len() == 0 {
                assert(Stats::of(values.drop_last()) == Stats::none());
            }
        }
    }
}

/// Every key of the table of a run has seen a value.
pub proof fn lemma_aggregate_live(readings: Seq<(Seq<u8>, int)>)
    ensures
        live_table(aggregate(readings)),
        aggregate(readings).dom().finite(),
    decreases readings.len(),
{
    if readings.len() > 0 {
        lemma_aggregate_live(readings.drop_last());
    }
}

/// Merging the tables of two runs gives the table of the two runs put
/// together.
pub proof fn lemma_aggregate_concat(first: Seq<(Seq<u8>, int)>, second: Seq<(Seq<u8>, int)>)
    ensures
        aggregate(first + second) == merge_tables(aggregate(first), aggregate(second)),
    decreases second.len(),
{
    if second.len() == 0 {
        assert(first + second =~= first);
        assert(merge_tables(aggregate(first), aggregate(second)) =~= aggregate(first));
    } else {
        lemma_aggregate_concat(first, second.drop_last());
        assert((first + second).drop_last() =~= first + second.drop_last());
        lemma_merge_record(
            aggregate(first),
            aggregate(second.drop_last()),
            second.last().0,
            second.last().1,
        );
    }
}

/// Merging does not depend on which table comes first, nor on how three
/// tables are grouped.
pub proof fn lemma_merge_laws(
    a: Map<Seq<u8>, Stats>,
    b: Map<Seq<u8>, Stats>,
    c: Map<Seq<u8>, Stats>,
)
    requires
        live_table(a),
        live_table(b),
        live_table(c),
    ensures
        live_table(merge_tables(a, b)),
        merge_tables(a, b) == merge_tables(b, a),
        merge_tables(merge_tables(a, b), c) == merge_tables(a, merge_tables(b, c)),
        merge_tables(a, Map::empty()) == a,
        merge_tables(Map::empty(), a) == a,
{
    assert forall|key: Seq<u8>| merge_tables(a, b).contains_key(key) implies (
    #[trigger] merge_tables(a, b)[key]).count > 0 by {
        if a.contains_key(key) {
            assert(a[key].count > 0);
        }
        if b.contains_key(key) {
            assert(b[key].count > 0);
        }
    }
    assert forall|key: Seq<u8>| merge_tables(a, b).contains_key(key) implies merge_tables(a, b)[key]
        == merge_tables(b, a)[key] by {
        if a.contains_key(key) {
            assert(a[key].count > 0);
        }
        if b.contains_key(key) {
            assert(b[key].count > 0);
        }
    }
    assert(merge_tables(a, b) =~= merge_tables(b, a));
    assert forall|key: Seq<u8>|
        merge_tables(merge_tables(a, b), c).contains_key(key) implies merge_tables(
        merge_tables(a, b),
        c,
    )[key] == merge_tables(a, merge_tables(b, c))[key] by {
        if a.contains_key(key) {
            assert(a[key].count > 0);
        }
        if b.contains_key(key) {
            assert(b[key].count > 0);
        }
        if c.contains_key(key) {
            assert(c[key].count > 0);
        }
    }
    assert(merge_tables(merge_tables(a, b), c) =~= merge_tables(a, merge_tables(b, c)));
    assert(merge_tables(a, Map::empty()) =~= a);
    assert(merge_tables(Map::empty(), a) =~= a);
}

/// `record_all` is the left fold of `recording`.
proof fn lemma_record_all_as_fold(table: Map<Seq<u8>, Stats>, readings: Seq<(Seq<u8>, int)>)
    ensures
        record_all(table, readings) == readings.fold_left(table, recording()),
    decreases readings.len(),
{
    if readings.len() > 0 {
        lemma_record_all_as_fold(table, readings.drop_last());
    }
}

/// What a table holds after a run of readings does not depend on the order
/// of the readings.
pub proof fn lemma_record_all_any_order(
    table: Map<Seq<u8>, Stats>,
    left: Seq<(Seq<u8>, int)>,
    right: Seq<(Seq<u8>, int)>,
)
    requires
        left.to_multiset() == right.to_multiset(),
    ensures
        record_all(table, left) == record_all(table, right),
{
    lemma_record_all_as_fold(table, left);
    lemma_record_all_as_fold(table, right);
    assert forall|x: (Seq<u8>, int), y: (Seq<u8>, int), start: Map<Seq<u8>, Stats>|
        #[trigger] recording()(recording()(start, x), y) == recording()(
            recording()(start, y),
            x,
        ) by {
        assert(record(record(start, x.0, x.1), y.0, y.1) =~= record(
            record(start, y.0, y.1),
            x.0,
            x.1,
        ));
    }
    vstd::seq_lib::lemma_fold_left_permutation(left, right, recording(), table);
}

/// The table of a run does not depend on the order of its readings.
pub proof fn lemma_aggregate_any_order(left: Seq<(Seq<u8>, int)>, right: Seq<(Seq<u8>, int)>)
    requires
        left.to_multiset() == right.to_multiset(),
    ensures
        aggregate(left) == aggregate(right),
{
    lemma_record_all_any_order(Map::empty(), left, right);
}

/// Merging the tables of the parts of a run gives the table of the parts put
/// together.
pub proof fn lemma_merge_each(parts: Seq<Seq<(Seq<u8>, int)>>)
    ensures
        merge_each(parts) == aggregate(concat_all(parts)),
    decreases parts.len(),
{
    if parts.len() > 0 {
        lemma_merge_each(parts.drop_last());
        lemma_aggregate_concat(concat_all(parts.drop_last()), parts.last());
    }
}

/// However a run of readings is split into parts, and in whatever order the
/// readings stand in the parts, merging the parts' tables gives the table of
/// the run.
pub proof fn lemma_partition_merges(whole: Seq<(Seq<u8>, int)>, parts: Seq<Seq<(Seq<u8>, int)>>)
    requires
        concat_all(parts).to_multiset() == whole.to_multiset(),
    ensures
        merge_each(parts) == aggregate(whole),
{
    lemma_merge_each(parts);
    lemma_aggregate_any_order(concat_all(parts), whole);
}

} // verus!
