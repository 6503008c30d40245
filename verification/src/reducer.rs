//! The last stage: the tables of all workers merged into one, its entries
//! put in the order of their keys, and one line written for each.

use crate::container::can_merge;
use crate::container::merge_tables;
use crate::container::Container;
use crate::container::TableError;
use crate::scanner::NEWLINE;
use crate::station::line_text;
use crate::station::StationAverage;
use crate::station::Stats;
use vstd::prelude::*;

verus! {

/// Whether `left` comes before `right` in the order of byte strings: at the
/// first place where they differ the lesser byte decides, and a string comes
/// before every longer string that starts with it.
pub open spec fn lex_lt(left: Seq<u8>, right: Seq<u8>) -> bool
    decreases left.len(),
{
    if right.len() == 0 {
        false
    } else if left.len() == 0 {
        true
    } else if left[0] != right[0] {
        left[0] < right[0]
    } else {
        lex_lt(left.drop_first(), right.drop_first())
    }
}

/// No string comes before itself.
pub proof fn lemma_lex_irreflexive(a: Seq<u8>)
    ensures
        !lex_lt(a, a),
    decreases a.len(),
{
    if a.len() > 0 {
        lemma_lex_irreflexive(a.drop_first());
    }
}

/// Of two different strings one comes before the other.
pub proof fn lemma_lex_total(a: Seq<u8>, b: Seq<u8>)
    ensures
        a == b || lex_lt(a, b) || lex_lt(b, a),
        !(lex_lt(a, b) && lex_lt(b, a)),
    decreases a.len(),
{
    if a.len() == 0 || b.len() == 0 {
        if a.len() == 0 && b.len() == 0 {
            assert(a =~= b);
        }
    } else if a[0] == b[0] {
        lemma_lex_total(a.drop_first(), b.drop_first());
        if a.drop_first() == b.drop_first() {
            assert(a =~= seq![a[0]] + a.drop_first());
            assert(b =~= seq![b[0]] + b.drop_first());
        }
    }
}

/// What comes before a string comes before all that the string comes before.
pub proof fn lemma_lex_transitive(a: Seq<u8>, b: Seq<u8>, c: Seq<u8>)
    requires
        lex_lt(a, b),
        lex_lt(b, c),
    ensures
        lex_lt(a, c),
    decreases a.len(),
{
    if a.len() > 0 && b.len() > 0 && c.len() > 0 {
        if a[0] == b[0] && b[0] == c[0] {
            lemma_lex_transitive(a.drop_first(), b.drop_first(), c.drop_first());
        }
    }
}

/// Strings that agree up to `n` compare as what follows.
proof fn lemma_lex_skip(a: Seq<u8>, b: Seq<u8>, n: int)
    requires
        0 <= n <= a.len(),
        n <= b.len(),
        forall|i: int| 0 <= i < n ==> a[i] == b[i],
    ensures
        lex_lt(a, b) == lex_lt(a.skip(n), b.skip(n)),
    decreases n,
{
    if n == 0 {
        assert(a.skip(0) =~= a);
        assert(b.skip(0) =~= b);
    } else {
        assert(a[0] == b[0]);
        lemma_lex_skip(a.drop_first(), b.drop_first(), n - 1);
        assert(a.drop_first().skip(n - 1) =~= a.skip(n));
        assert(b.drop_first().skip(n - 1) =~= b.skip(n));
    }
}

/// Whether `left` comes before `right` in the order of byte strings.
pub fn key_before(left: &[u8], right: &[u8]) -> (before: bool)
    ensures
        before == lex_lt(left@, right@),
{
    let mut i: usize = 0;
    while i < left.len() && i < right.len()
        invariant
            i <= left@.len(),
            i <= right@.len(),
            forall|k: int| 0 <= k < i ==> left@[k] == right@[k],
        decreases left@.len() - i,
    {
        if left[i] != right[i] {
            proof {
                lemma_lex_skip(left@, right@, i as int);
            }
            return left[i] < right[i];
        }
        i += 1;
    }
    proof {
        lemma_lex_skip(left@, right@, i as int);
    }
    i < right.len()
}

/// Entries in the strict order of their keys.
pub open spec fn sorted_by_key(entries: Seq<StationAverage>) -> bool {
    forall|a: int, b: int|
        0 <= a < b < entries.len() ==> lex_lt(
            (#[trigger] entries[a]).key(),
            (#[trigger] entries[b]).key(),
        )
}

/// Entries that are what the table `view` holds: each stands for a key of
/// the table with that key's statistics, and every key has its entry.
pub open spec fn entries_of(entries: Seq<StationAverage>, view: Map<Seq<u8>, Stats>) -> bool {
    &&& forall|a: int|
        0 <= a < entries.len() ==> {
            &&& (#[trigger] entries[a]).wf()
            &&& entries[a]@.count > 0
            &&& view.contains_key(entries[a].key())
            &&& view[entries[a].key()] == entries[a]@
        }
    &&& forall|key: Seq<u8>| #[trigger]
        view.contains_key(key) ==> exists|a: int|
            0 <= a < entries.len() && (#[trigger] entries[a]).key() == key
}

/// The keys of a run of entries.
pub open spec fn keys_of(entries: Seq<StationAverage>) -> Seq<Seq<u8>> {
    Seq::new(entries.len(), |a: int| entries[a].key())
}

/// Sorted entries of a table are as many as the table has keys.
pub proof fn lemma_sorted_entries_len(entries: Seq<StationAverage>, view: Map<Seq<u8>, Stats>)
    requires
        sorted_by_key(entries),
        entries_of(entries, view),
    ensures
        view.dom().finite(),
        entries.len() == view.dom().len(),
{
    let keys = keys_of(entries);
    assert forall|a: int, b: int|
        0 <= a < keys.len() && 0 <= b < keys.len() && a != b implies keys[a] != keys[b] by {
        if a < b {
            assert(lex_lt(entries[a].key(), entries[b].key()));
        } else {
            assert(lex_lt(entries[b].key(), entries[a].key()));
        }
        lemma_lex_irreflexive(keys[a]);
    }
    assert(keys.no_duplicates());
    keys.unique_seq_to_set();
    assert forall|key: Seq<u8>| keys.to_set().contains(key) <==> view.dom().contains(key) by {
        if keys.to_set().contains(key) {
            let a = choose|a: int| 0 <= a < keys.len() && keys[a] == key;
            assert(view.contains_key(entries[a].key()));
        }
        if view.contains_key(key) {
            let a = choose|a: int| 0 <= a < entries.len() && (#[trigger] entries[a]).key() == key;
            assert(keys[a] == key);
        }
    }
    assert(keys.to_set() =~= view.dom());
    vstd::seq_lib::seq_to_set_is_finite(keys);
}

/// Whether slot `i` of `table` holds the key and the statistics of `entry`.
pub open spec fn slot_matches(table: Container, i: int, entry: StationAverage) -> bool {
    table.slot(i) matches Some(held) && held.key() == entry.key() && held@ == entry@
}

/// Whether `entry` stands for one of the first `n` slots of `table`.
pub open spec fn from_slot(entry: StationAverage, table: Container, n: int) -> bool {
    exists|i: int| 0 <= i < n && slot_matches(table, i, entry)
}

/// Whether one of `entries` has the key `key`.
pub open spec fn has_key(entries: Seq<StationAverage>, key: Seq<u8>) -> bool {
    exists|a: int| 0 <= a < entries.len() && (#[trigger] entries[a]).key() == key
}

/// Entries that stand for the first `n` slots of a table: each for a slot in
/// use, and each slot in use has its entry.
pub open spec fn covers_slots(entries: Seq<StationAverage>, table: Container, n: int) -> bool {
    &&& forall|a: int| 0 <= a < entries.len() ==> from_slot(#[trigger] entries[a], table, n)
    &&& forall|i: int|
        0 <= i < n && table.slot(i) is Some ==> has_key(
            entries,
            (#[trigger] table.slot(i))->0.key(),
        )
}

/// Puts a copy of `entry` into `entries` at its place in the order of keys,
/// and says where.
pub fn insert_sorted(entries: &mut Vec<StationAverage>, entry: &StationAverage) -> (at: usize)
    requires
        sorted_by_key(old(entries)@),
        !has_key(old(entries)@, entry.key()),
    ensures
        at <= old(entries)@.len(),
        final(entries)@ == old(entries)@.insert(at as int, final(entries)@[at as int]),
        final(entries)@[at as int].key() == entry.key(),
        final(entries)@[at as int]@ == entry@,
        final(entries)@[at as int].wf() == entry.wf(),
        sorted_by_key(final(entries)@),
{
    let ghost before = entries@;
    let ghost key = entry.key();
    let mut at: usize = entries.len();
    while at > 0 && key_before(entry.name(), entries[at - 1].name())
        invariant
            at <= entries@.len(),
            entries@ == before,
            key == entry.key(),
            forall|a: int| at <= a < before.len() ==> lex_lt(key, (#[trigger] before[a]).key()),
        decreases at,
    {
        at -= 1;
    }
    let copy = entry.duplicate();
    proof {
        assert forall|a: int| 0 <= a < at implies lex_lt((#[trigger] before[a]).key(), key) by {
            let last = before[at - 1].key();
            lemma_lex_total(key, last);
            assert(has_key(before, last));
            if a < at - 1 {
                assert(lex_lt(before[a].key(), before[at - 1].key()));
                lemma_lex_transitive(before[a].key(), last, key);
            }
        }
    }
    entries.insert(at, copy);
    proof {
        let after = entries@;
        assert(after =~= before.insert(at as int, after[at as int]));
        assert forall|a: int, b: int| 0 <= a < b < after.len() implies lex_lt(
            (#[trigger] after[a]).key(),
            (#[trigger] after[b]).key(),
        ) by {
            if b < at {
                assert(lex_lt(before[a].key(), before[b].key()));
            } else if b == at {
                assert(lex_lt(before[a].key(), key));
            } else if a < at {
                assert(lex_lt(before[a].key(), before[b - 1].key()));
            } else if a == at {
                assert(lex_lt(key, before[b - 1].key()));
            } else {
                assert(lex_lt(before[a - 1].key(), before[b - 1].key()));
            }
        }
    }
    at
}

/// Entries that stand for the first slots still do so with one more slot
/// that is free.
proof fn lemma_covers_free(entries: Seq<StationAverage>, table: Container, n: int)
    requires
        covers_slots(entries, table, n),
        table.slot(n) is None,
    ensures
        covers_slots(entries, table, n + 1),
{
    assert forall|a: int| 0 <= a < entries.len() implies from_slot(
        #[trigger] entries[a],
        table,
        n + 1,
    ) by {
        assert(from_slot(entries[a], table, n));
        let i = choose|i: int| 0 <= i < n && slot_matches(table, i, entries[a]);
        assert(slot_matches(table, i, entries[a]));
    }
}

/// Entries that stand for the first slots, with the entry of the next slot
/// put in, stand for one slot more.
proof fn lemma_covers_used(
    before: Seq<StationAverage>,
    after: Seq<StationAverage>,
    at: int,
    entry: StationAverage,
    table: Container,
    n: int,
)
    requires
        covers_slots(before, table, n),
        0 <= at <= before.len(),
        after == before.insert(at, entry),
        n >= 0,
        slot_matches(table, n, entry),
    ensures
        covers_slots(after, table, n + 1),
{
    assert forall|a: int| 0 <= a < after.len() implies from_slot(
        #[trigger] after[a],
        table,
        n + 1,
    ) by {
        if a == at {
            assert(after[a] == entry);
            assert(slot_matches(table, n, after[a]));
        } else {
            let old_a = if a < at {
                a
            } else {
                a - 1
            };
            assert(after[a] == before[old_a]);
            assert(from_slot(before[old_a], table, n));
            let i = choose|i: int| 0 <= i < n && slot_matches(table, i, before[old_a]);
            assert(slot_matches(table, i, after[a]));
        }
    }
    assert forall|i: int| 0 <= i < n + 1 && table.slot(i) is Some implies has_key(
        after,
        (#[trigger] table.slot(i))->0.key(),
    ) by {
        let key = table.slot(i)->0.key();
        if i == n {
            assert(after[at].key() == key);
        } else {
            assert(has_key(before, key));
            let old_a = choose|a: int| 0 <= a < before.len() && (#[trigger] before[a]).key() == key;
            let a = if old_a < at {
                old_a
            } else {
                old_a + 1
            };
            assert(after[a] == before[old_a]);
            assert(after[a].key() == key);
        }
    }
}

/// The entries of a table in the order of their keys.
pub fn sorted_entries(table: &Container) -> (entries: Vec<StationAverage>)
    requires
        table.wf(),
    ensures
        sorted_by_key(entries@),
        entries_of(entries@, table@),
        entries@.len() == table@.dom().len(),
{
    let slots: usize = table.slots();
    let mut entries: Vec<StationAverage> = Vec::new();
    let mut j: usize = 0;
    while j < slots
        invariant
            j <= slots,
            slots == table.capacity(),
            table.wf(),
            sorted_by_key(entries@),
            covers_slots(entries@, *table, j as int),
        decreases slots - j,
    {
        match table.entry_at(j) {
            None => {
                proof {
                    lemma_covers_free(entries@, *table, j as int);
                }
            },
            Some(entry) => {
                let ghost before = entries@;
                proof {
                    table.lemma_slot(j as int);
                    if has_key(before, entry.key()) {
                        let a = choose|a: int|
                            0 <= a < before.len() && (#[trigger] before[a]).key() == entry.key();
                        assert(from_slot(before[a], *table, j as int));
                        let i = choose|i: int| 0 <= i < j && slot_matches(*table, i, before[a]);
                        assert(table.slot(i)->0.key() != table.slot(j as int)->0.key());
                    }
                }
                let at: usize = insert_sorted(&mut entries, entry);
                proof {
                    lemma_covers_used(
                        before,
                        entries@,
                        at as int,
                        entries@[at as int],
                        *table,
                        j as int,
                    );
                }
            },
        }
        j += 1;
    }
    proof {
        assert forall|a: int| 0 <= a < entries@.len() implies {
            &&& (#[trigger] entries@[a]).wf()
            &&& entries@[a]@.count > 0
            &&& table@.contains_key(entries@[a].key())
            &&& table@[entries@[a].key()] == entries@[a]@
        } by {
            assert(from_slot(entries@[a], *table, slots as int));
            let i = choose|i: int| 0 <= i < slots && slot_matches(*table, i, entries@[a]);
            table.lemma_slot(i);
        }
        assert forall|key: Seq<u8>| #[trigger] table@.contains_key(key) implies exists|a: int|
            0 <= a < entries@.len() && (#[trigger] entries@[a]).key() == key by {
            let i = table.lemma_key_has_slot(key);
            assert(has_key(entries@, table.slot(i)->0.key()));
        }
        lemma_sorted_entries_len(entries@, table@);
    }
    entries
}

/// The output for a run of entries: for each, in order, its line and a
/// newline.
pub open spec fn report_text(entries: Seq<StationAverage>) -> Seq<u8>
    decreases entries.len(),
{
    if entries.len() == 0 {
        Seq::empty()
    } else {
        report_text(entries.drop_last()) + line_text(entries.last().key(), entries.last()@)
            + seq![NEWLINE]
    }
}

/// Writes one line for each entry, in the order given, each ended by a
/// newline.
pub fn write_lines(entries: &Vec<StationAverage>) -> (text: Vec<u8>)
    requires
        forall|a: int| 0 <= a < entries@.len() ==> (#[trigger] entries@[a])@.count > 0,
    ensures
        text@ == report_text(entries@),
{
    let mut text: Vec<u8> = Vec::new();
    let mut a: usize = 0;
    proof {
        assert(entries@.take(0) =~= Seq::<StationAverage>::empty());
    }
    while a < entries.len()
        invariant
            a <= entries@.len(),
            forall|i: int| 0 <= i < entries@.len() ==> (#[trigger] entries@[i])@.count > 0,
            text@ == report_text(entries@.take(a as int)),
        decreases entries@.len() - a,
    {
        let mut line: Vec<u8> = entries[a].to_line();
        line.push(NEWLINE);
        proof {
            assert(entries@.take(a + 1).drop_last() =~= entries@.take(a as int));
            assert(entries@.take(a + 1).last() == entries@[a as int]);
        }
        let ghost before = text@;
        let ghost added = line@;
        text.append(&mut line);
        proof {
            assert(text@ =~= before + added);
            assert(text@ =~= report_text(entries@.take(a + 1)));
        }
        a += 1;
    }
    proof {
        assert(entries@.take(entries@.len() as int) =~= entries@);
    }
    text
}

/// What a run of tables holds when they are merged one after the other.
pub open spec fn merge_views(tables: Seq<Container>) -> Map<Seq<u8>, Stats>
    decreases tables.len(),
{
    if tables.len() == 0 {
        Map::empty()
    } else {
        merge_tables(merge_views(tables.drop_last()), tables.last()@)
    }
}

/// Whether a table of `capacity` slots can take a run of tables one after the
/// other.
pub open spec fn all_merge(tables: Seq<Container>, capacity: nat) -> bool
    decreases tables.len(),
{
    tables.len() == 0 || (all_merge(tables.drop_last(), capacity) && can_merge(
        merge_views(tables.drop_last()),
        tables.last()@,
        capacity,
    ))
}

/// A table that can take a run of tables can take every start of the run.
pub proof fn lemma_all_merge_prefix(tables: Seq<Container>, capacity: nat, n: int)
    requires
        all_merge(tables, capacity),
        0 <= n <= tables.len(),
    ensures
        all_merge(tables.take(n), capacity),
    decreases tables.len() - n,
{
    if n == tables.len() {
        assert(tables.take(n) =~= tables);
    } else {
        lemma_all_merge_prefix(tables, capacity, n + 1);
        assert(tables.take(n + 1).drop_last() =~= tables.take(n));
    }
}

/// Merges the tables of all workers, in the order given, into one new table
/// of `capacity` slots. The first table that does not fit ends the merge
/// with its error.
pub fn merge_all(tables: &Vec<Container>, capacity: usize) -> (outcome: Result<
    Container,
    TableError,
>)
    requires
        capacity > 0,
        forall|i: int| 0 <= i < tables@.len() ==> (#[trigger] tables@[i]).wf(),
    ensures
        outcome is Ok <==> all_merge(tables@, capacity as nat),
        outcome matches Ok(table) ==> table.wf() && table.capacity() == capacity && table@
            == merge_views(tables@),
{
    let mut total: Container = Container::with_capacity(capacity);
    let mut i: usize = 0;
    proof {
        assert(tables@.take(0) =~= Seq::<Container>::empty());
    }
    while i < tables.len()
        invariant
            i <= tables@.len(),
            forall|k: int| 0 <= k < tables@.len() ==> (#[trigger] tables@[k]).wf(),
            total.wf(),
            total.capacity() == capacity,
            total@ == merge_views(tables@.take(i as int)),
            all_merge(tables@.take(i as int), capacity as nat),
        decreases tables@.len() - i,
    {
        proof {
            assert(tables@.take(i + 1).drop_last() =~= tables@.take(i as int));
            assert(tables@.take(i + 1).last() == tables@[i as int]);
        }
        match total.merge(&tables[i]) {
            Ok(()) => {},
            Err(error) => {
                proof {
                    if all_merge(tables@, capacity as nat) {
                        lemma_all_merge_prefix(tables@, capacity as nat, i + 1);
                    }
                }
                return Err(error);
            },
        }
        i += 1;
    }
    proof {
        assert(tables@.take(tables@.len() as int) =~= tables@);
    }
    Ok(total)
}

/// The whole last stage: merges the tables, puts the entries in the order of
/// their keys and writes their lines.
pub fn reduce(tables: &Vec<Container>, capacity: usize) -> (outcome: Result<Vec<u8>, TableError>)
    requires
        capacity > 0,
        forall|i: int| 0 <= i < tables@.len() ==> (#[trigger] tables@[i]).wf(),
    ensures
        outcome is Ok <==> all_merge(tables@, capacity as nat),
        outcome matches Ok(text) ==> exists|entries: Seq<StationAverage>|
            sorted_by_key(entries) && entries_of(entries, merge_views(tables@)) && text@
                == #[trigger] report_text(entries),
{
    match merge_all(tables, capacity) {
        Err(error) => Err(error),
        Ok(total) => {
            let entries = sorted_entries(&total);
            let text = write_lines(&entries);
            Ok(text)
        },
    }
}

} // verus!
