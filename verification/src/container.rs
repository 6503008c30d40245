//! The aggregation table: a fixed number of slots, a key's home slot given by
//! its hash, and linear probing from there. Its model is a map from keys to
//! statistics.

use crate::circular::next_index;
use crate::circular::offset;
use crate::circular::wrap;
use crate::station::parts;
use crate::station::StationAverage;
use crate::station::Stats;
use crate::station::MAX_ARRAY_SIZE;
use vstd::prelude::*;

verus! {

/// The number of slots of a table made by `Container::new`.
pub const ARRAY_SIZE: usize = 1024;

/// The value that the hash starts from.
pub const FNV_OFFSET: u64 = 0xcbf29ce484222325;

/// The factor of each step of the hash.
pub const FNV_PRIME: u64 = 0x100000001b3;

/// Why a table did not take what it was given.
#[derive(Debug, Clone, Copy, PartialEq, Eq, Structural)]
pub enum TableError {
    /// The key is new and every slot is taken.
    Full,
    /// A count or a total would leave its machine type.
    Overflow,
}

/// The FNV-1a hash of a key: for each byte, xor it in, then multiply by the
/// prime, modulo two to the 64.
pub open spec fn fnv1a_hash(key: Seq<u8>) -> u64
    decreases key.len(),
{
    if key.len() == 0 {
        FNV_OFFSET
    } else {
        (fnv1a_hash(key.drop_last()) ^ (key.last() as u64)).wrapping_mul(FNV_PRIME)
    }
}

/// The slot where the search for a key starts.
pub open spec fn home_slot(key: Seq<u8>, capacity: nat) -> int {
    (fnv1a_hash(key) as int) % (capacity as int)
}

/// The table after the statistics `stats` of some run under `key` are folded in.
pub open spec fn absorb(table: Map<Seq<u8>, Stats>, key: Seq<u8>, stats: Stats) -> Map<
    Seq<u8>,
    Stats,
> {
    if table.contains_key(key) {
        table.insert(key, table[key].combine(stats))
    } else {
        table.insert(key, stats)
    }
}

/// The table after one more value under `key`: a first sighting starts the
/// key's statistics with that value, any other folds it in.
pub open spec fn record(table: Map<Seq<u8>, Stats>, key: Seq<u8>, value: int) -> Map<
    Seq<u8>,
    Stats,
> {
    if table.contains_key(key) {
        table.insert(key, table[key].observe(value))
    } else {
        table.insert(key, Stats::first(value))
    }
}

/// Two tables taken together: a key of both gets the combined statistics, a
/// key of one keeps its own.
pub open spec fn merge_tables(left: Map<Seq<u8>, Stats>, right: Map<Seq<u8>, Stats>) -> Map<
    Seq<u8>,
    Stats,
> {
    Map::new(
        |key: Seq<u8>| left.contains_key(key) || right.contains_key(key),
        |key: Seq<u8>|
            if left.contains_key(key) && right.contains_key(key) {
                left[key].combine(right[key])
            } else if left.contains_key(key) {
                left[key]
            } else {
                right[key]
            },
    )
}

/// Whether a table of `capacity` slots takes the statistics `stats` under
/// `key`: a known key must stay representable, a new one needs a free slot.
pub open spec fn can_absorb(
    table: Map<Seq<u8>, Stats>,
    key: Seq<u8>,
    stats: Stats,
    capacity: nat,
) -> bool {
    if table.contains_key(key) {
        table[key].combine(stats).representable()
    } else {
        table.dom().len() < capacity
    }
}

/// The error of a table that does not take what it is given under `key`: a
/// key it has would overflow, a key it has not finds no free slot.
pub open spec fn refusal(table: Map<Seq<u8>, Stats>, key: Seq<u8>) -> TableError {
    if table.contains_key(key) {
        TableError::Overflow
    } else {
        TableError::Full
    }
}

/// Whether a table of `capacity` slots takes `value` under `key`.
pub open spec fn can_record(
    table: Map<Seq<u8>, Stats>,
    key: Seq<u8>,
    value: int,
    capacity: nat,
) -> bool {
    can_absorb(table, key, Stats::first(value), capacity)
}

/// Whether a table of `capacity` slots can take all of `right` on top of
/// `left`: the keys of both fit, and each key of both stays representable.
pub open spec fn can_merge(
    left: Map<Seq<u8>, Stats>,
    right: Map<Seq<u8>, Stats>,
    capacity: nat,
) -> bool {
    &&& merge_tables(left, right).dom().len() <= capacity
    &&& forall|key: Seq<u8>|
        left.contains_key(key) && right.contains_key(key) ==> (#[trigger] left[key]).combine(
            right[key],
        ).representable()
}

/// Folding one more entry into the right-hand table is folding it into the
/// merged table.
pub proof fn lemma_merge_insert(
    left: Map<Seq<u8>, Stats>,
    right: Map<Seq<u8>, Stats>,
    key: Seq<u8>,
    stats: Stats,
)
    requires
        !right.contains_key(key),
    ensures
        merge_tables(left, right.insert(key, stats)) == absorb(
            merge_tables(left, right),
            key,
            stats,
        ),
{
    assert(merge_tables(left, right.insert(key, stats)) =~= absorb(
        merge_tables(left, right),
        key,
        stats,
    ));
}

/// The keys of a merged table are the keys of either side.
pub proof fn lemma_merge_dom(left: Map<Seq<u8>, Stats>, right: Map<Seq<u8>, Stats>)
    requires
        left.dom().finite(),
        right.dom().finite(),
    ensures
        merge_tables(left, right).dom() == left.dom().union(right.dom()),
        merge_tables(left, right).dom().finite(),
        merge_tables(left, Map::empty()) == left,
{
    assert(merge_tables(left, right).dom() =~= left.dom().union(right.dom()));
    vstd::set_lib::lemma_set_union_finite_iff(left.dom(), right.dom());
    assert(merge_tables(left, Map::empty()) =~= left);
}

/// The number of slots in use.
pub open spec fn count_live(slots: Seq<Option<StationAverage>>) -> nat
    decreases slots.len(),
{
    if slots.len() == 0 {
        0
    } else {
        count_live(slots.drop_last()) + if slots.last() is Some {
            1nat
        } else {
            0nat
        }
    }
}

/// No more slots are in use than there are, and as many only if all are.
proof fn lemma_count_live_bounds(slots: Seq<Option<StationAverage>>)
    ensures
        count_live(slots) <= slots.len(),
        count_live(slots) == slots.len() <==> (forall|i: int|
            0 <= i < slots.len() ==> #[trigger] slots[i] is Some),
    decreases slots.len(),
{
    if slots.len() > 0 {
        let front = slots.drop_last();
        lemma_count_live_bounds(front);
        if count_live(slots) == slots.len() {
            assert forall|i: int| 0 <= i < slots.len() implies #[trigger] slots[i] is Some by {
                if i < front.len() {
                    assert(front[i] is Some);
                }
            }
        }
        if forall|i: int| 0 <= i < slots.len() ==> #[trigger] slots[i] is Some {
            assert forall|i: int| 0 <= i < front.len() implies #[trigger] front[i] is Some by {
                assert(slots[i] is Some);
            }
            assert(slots[slots.len() - 1] is Some);
        }
    }
}

/// Putting something into a slot changes the count by what the slot gains
/// or loses.
proof fn lemma_count_live_update(
    slots: Seq<Option<StationAverage>>,
    at: int,
    slot: Option<StationAverage>,
)
    requires
        0 <= at < slots.len(),
    ensures
        count_live(slots.update(at, slot)) + (if slots[at] is Some {
            1nat
        } else {
            0nat
        }) == count_live(slots) + (if slot is Some {
            1nat
        } else {
            0nat
        }),
    decreases slots.len(),
{
    let front = slots.drop_last();
    let after = slots.update(at, slot);
    if at == slots.len() - 1 {
        assert(after.drop_last() =~= front);
    } else {
        lemma_count_live_update(front, at, slot);
        assert(after.drop_last() =~= front.update(at, slot));
    }
}

/// Whether two byte strings are the same.
pub fn bytes_equal(left: &[u8], right: &[u8]) -> (same: bool)
    ensures
        same == (left@ == right@),
{
    if left.len() != right.len() {
        return false;
    }
    let mut i: usize = 0;
    while i < left.len()
        invariant
            i <= left@.len(),
            left@.len() == right@.len(),
            forall|k: int| 0 <= k < i ==> left@[k] == right@[k],
        decreases left@.len() - i,
    {
        if left[i] != right[i] {
            return false;
        }
        i += 1;
    }
    assert(left@ =~= right@);
    true
}

/// The FNV-1a hash of `key`.
pub fn fnv1a(key: &[u8]) -> (hash: u64)
    ensures
        hash == fnv1a_hash(key@),
{
    let mut hash: u64 = FNV_OFFSET;
    let mut i: usize = 0;
    assert(key@.take(0) =~= Seq::<u8>::empty());
    while i < key.len()
        invariant
            i <= key@.len(),
            hash == fnv1a_hash(key@.take(i as int)),
        decreases key@.len() - i,
    {
        assert(key@.take(i + 1).drop_last() =~= key@.take(i as int));
        hash = (hash ^ (key[i] as u64)).wrapping_mul(FNV_PRIME);
        i += 1;
    }
    assert(key@.take(i as int) =~= key@);
    hash
}

/// Where a search for a key ended.
enum Probe {
    /// The key is in this slot.
    Found(usize),
    /// The key is absent, and this is the free slot that it would take.
    Vacant(usize),
    /// The key is absent and no slot is free.
    Full,
}

/// The aggregation table.
pub struct Container {
    backing: Vec<Option<StationAverage>>,
    live: usize,
}

impl Container {
    /// The number of slots.
    pub closed spec fn capacity(&self) -> nat {
        self.backing@.len()
    }

    /// Whether slot `i` is in use for `key`.
    pub closed spec fn holds(&self, i: int, key: Seq<u8>) -> bool {
        self.backing@[i] matches Some(entry) && entry.key() == key
    }

    /// Whether some slot below `n` is in use for `key`.
    pub closed spec fn holds_below(&self, n: int, key: Seq<u8>) -> bool {
        exists|i: int| 0 <= i < n && self.holds(i, key)
    }

    /// The slot that is in use for `key`.
    pub closed spec fn slot_of(&self, key: Seq<u8>) -> int {
        choose|i: int| 0 <= i < self.capacity() && self.holds(i, key)
    }

    /// What the first `n` slots hold.
    pub closed spec fn view_upto(&self, n: int) -> Map<Seq<u8>, Stats> {
        Map::new(
            |key: Seq<u8>| self.holds_below(n, key),
            |key: Seq<u8>| self.backing@[self.slot_of(key)]->0@,
        )
    }

    /// What the table holds: for each key its statistics.
    pub closed spec fn view(&self) -> Map<Seq<u8>, Stats> {
        self.view_upto(self.capacity() as int)
    }

    /// The slot `steps` places after the home slot of the key in slot `i`.
    pub closed spec fn path_slot(&self, i: int, steps: int) -> int {
        wrap(home_slot(self.backing@[i]->0.key(), self.capacity()), steps, self.capacity() as int)
    }

    /// How far slot `i` lies after the home slot of its key.
    pub closed spec fn path_len(&self, i: int) -> int {
        offset(i, home_slot(self.backing@[i]->0.key(), self.capacity()), self.capacity() as int)
    }

    /// The table's invariant: every entry in use has seen a value and is
    /// valid, no key has two slots, and from a key's home slot to its own
    /// slot every slot is in use.
    pub closed spec fn wf(&self) -> bool {
        &&& self.capacity() > 0
        &&& self.live == count_live(self.backing@)
        &&& self@.dom().finite()
        &&& self@.dom().len() == self.live
        &&& forall|i: int|
            0 <= i < self.capacity() ==> (#[trigger] self.backing@[i] matches Some(entry)
                ==> entry.wf() && entry@.count > 0)
        &&& forall|i: int, j: int|
            0 <= i < self.capacity() && 0 <= j < self.capacity() && i != j
                && self.backing@[i] is Some && self.backing@[j] is Some
                ==> (#[trigger] self.backing@[i])->0.key() != (#[trigger] self.backing@[j])->0.key()
        &&& forall|i: int, steps: int|
            0 <= i < self.capacity() && self.backing@[i] is Some && 0 <= steps < self.path_len(i)
                ==> self.backing@[#[trigger] self.path_slot(i, steps)] is Some
    }

    /// In a valid table a slot's entry is what the table holds for its key.
    proof fn lemma_view_at(&self, i: int)
        requires
            self.wf(),
            0 <= i < self.capacity(),
            self.backing@[i] is Some,
        ensures
            self@.contains_key(self.backing@[i]->0.key()),
            self@[self.backing@[i]->0.key()] == self.backing@[i]->0@,
            self.slot_of(self.backing@[i]->0.key()) == i,
    {
        let key = self.backing@[i]->0.key();
        assert(self.holds(i, key));
        let chosen = self.slot_of(key);
        assert(self.holds(chosen, key));
        if chosen != i {
            assert(self.backing@[chosen]->0.key() == self.backing@[i]->0.key());
        }
    }

    /// What a valid table holds is representable and has seen a value.
    pub proof fn lemma_entries(&self, key: Seq<u8>)
        requires
            self.wf(),
            self@.contains_key(key),
        ensures
            self@[key].count > 0,
            self@[key].representable(),
            self@[key].canonical(),
            key.len() <= MAX_ARRAY_SIZE,
            self@.dom().finite(),
            self@.dom().len() <= self.capacity(),
    {
        let i = choose|i: int| 0 <= i < self.capacity() && self.holds(i, key);
        self.lemma_view_at(i);
        lemma_count_live_bounds(self.backing@);
    }

    /// A valid table holds no more keys than it has slots.
    pub proof fn lemma_size(&self)
        requires
            self.wf(),
        ensures
            self@.dom().finite(),
            self@.dom().len() <= self.capacity(),
            self.capacity() > 0,
    {
        lemma_count_live_bounds(self.backing@);
    }

    /// The table after slot `at`, in use, got an entry for the same key.
    proof fn lemma_restamp(&self, before: Container, at: int, entry: StationAverage)
        requires
            before.wf(),
            0 <= at < before.capacity(),
            before.backing@[at] is Some,
            entry.key() == before.backing@[at]->0.key(),
            entry.wf(),
            entry@.count > 0,
            self.backing@ == before.backing@.update(at, Some(entry)),
            self.live == before.live,
        ensures
            self.wf(),
            self@ == before@.insert(entry.key(), entry@),
            before@.contains_key(entry.key()),
            before@[entry.key()] == before.backing@[at]->0@,
    {
        let key = entry.key();
        lemma_count_live_update(before.backing@, at, Some(entry));
        before.lemma_view_at(at);
        assert forall|i: int| 0 <= i < self.capacity() && self.backing@[i] is Some implies (
        #[trigger] self.backing@[i])->0.key() == before.backing@[i]->0.key()
            && before.backing@[i] is Some by {}
        assert forall|i: int, k: Seq<u8>| 0 <= i < self.capacity() implies (self.holds(i, k)
            <==> before.holds(i, k)) by {}
        assert forall|k: Seq<u8>| self.holds_below(self.capacity() as int, k)
            <==> before.holds_below(before.capacity() as int, k) by {
            if self.holds_below(self.capacity() as int, k) {
                let i = choose|i: int| 0 <= i < self.capacity() && self.holds(i, k);
                assert(before.holds(i, k));
            }
            if before.holds_below(before.capacity() as int, k) {
                let i = choose|i: int| 0 <= i < before.capacity() && before.holds(i, k);
                assert(self.holds(i, k));
            }
        }
        assert forall|i: int, j: int|
            0 <= i < self.capacity() && 0 <= j < self.capacity() && i != j
                && self.backing@[i] is Some && self.backing@[j] is Some implies (
        #[trigger] self.backing@[i])->0.key() != (#[trigger] self.backing@[j])->0.key() by {
            assert(before.backing@[i]->0.key() != before.backing@[j]->0.key());
        }
        assert forall|k: Seq<u8>| #[trigger] self@.contains_key(k) implies self@[k]
            == before@.insert(key, entry@)[k] by {
            let i = self.slot_of(k);
            assert(self.holds(i, k));
            assert(before.holds(i, k));
            before.lemma_view_at(i);
        }
        assert(self@ =~= before@.insert(key, entry@));
        assert(self@.dom() =~= before@.dom());
        assert forall|i: int, steps: int|
            0 <= i < self.capacity() && self.backing@[i] is Some && 0 <= steps < self.path_len(
                i,
            ) implies self.backing@[#[trigger] self.path_slot(i, steps)] is Some by {
            assert(self.path_len(i) == before.path_len(i));
            assert(self.path_slot(i, steps) == before.path_slot(i, steps));
            assert(before.backing@[before.path_slot(i, steps)] is Some);
        }
    }

    /// The table after the free slot `at` got the entry of a new key.
    proof fn lemma_occupy(&self, before: Container, at: int, entry: StationAverage)
        requires
            before.wf(),
            0 <= at < before.capacity(),
            before.backing@[at] is None,
            !before@.contains_key(entry.key()),
            entry.wf(),
            entry@.count > 0,
            forall|steps: int|
                0 <= steps < offset(
                    at,
                    home_slot(entry.key(), before.capacity()),
                    before.capacity() as int,
                ) ==> before.backing@[#[trigger] wrap(
                    home_slot(entry.key(), before.capacity()),
                    steps,
                    before.capacity() as int,
                )] is Some,
            self.backing@ == before.backing@.update(at, Some(entry)),
            self.live == before.live + 1,
        ensures
            self.wf(),
            self@ == before@.insert(entry.key(), entry@),
    {
        let key = entry.key();
        lemma_count_live_update(before.backing@, at, Some(entry));
        assert forall|i: int| 0 <= i < before.capacity() implies !before.holds(i, key) by {
            if before.holds(i, key) {
                assert(before.holds_below(before.capacity() as int, key));
            }
        }
        assert forall|i: int, k: Seq<u8>| 0 <= i < self.capacity() implies (self.holds(i, k) <==> (
        before.holds(i, k) || (i == at && k == key))) by {}
        assert(self.holds(at, key));
        assert forall|k: Seq<u8>| self.holds_below(self.capacity() as int, k) <==> (k == key
            || before.holds_below(before.capacity() as int, k)) by {
            if self.holds_below(self.capacity() as int, k) {
                let i = choose|i: int| 0 <= i < self.capacity() && self.holds(i, k);
                if i != at {
                    assert(before.holds(i, k));
                }
            }
            if before.holds_below(before.capacity() as int, k) {
                let i = choose|i: int| 0 <= i < before.capacity() && before.holds(i, k);
                assert(self.holds(i, k));
            }
        }
        assert forall|i: int, j: int|
            0 <= i < self.capacity() && 0 <= j < self.capacity() && i != j
                && self.backing@[i] is Some && self.backing@[j] is Some implies (
        #[trigger] self.backing@[i])->0.key() != (#[trigger] self.backing@[j])->0.key() by {
            if i == at {
                assert(!before.holds(j, key));
            } else if j == at {
                assert(!before.holds(i, key));
            } else {
                assert(before.backing@[i]->0.key() != before.backing@[j]->0.key());
            }
        }
        assert forall|k: Seq<u8>| #[trigger] self@.contains_key(k) implies self@[k]
            == before@.insert(key, entry@)[k] by {
            let i = self.slot_of(k);
            assert(self.holds(i, k));
            if i != at {
                assert(before.holds(i, k));
                before.lemma_view_at(i);
            }
        }
        assert(self@ =~= before@.insert(key, entry@));
        assert(self@.dom() =~= before@.dom().insert(key));
        assert forall|i: int, steps: int|
            0 <= i < self.capacity() && self.backing@[i] is Some && 0 <= steps < self.path_len(
                i,
            ) implies self.backing@[#[trigger] self.path_slot(i, steps)] is Some by {
            if i == at {
                let there = wrap(
                    home_slot(key, before.capacity()),
                    steps,
                    before.capacity() as int,
                );
                assert(before.backing@[there] is Some);
            } else {
                assert(self.path_len(i) == before.path_len(i));
                assert(self.path_slot(i, steps) == before.path_slot(i, steps));
                assert(before.backing@[before.path_slot(i, steps)] is Some);
            }
        }
    }

    /// An empty table of `capacity` slots.
    pub fn with_capacity(capacity: usize) -> (table: Container)
        requires
            capacity > 0,
        ensures
            table.wf(),
            table.capacity() == capacity,
            table@ == Map::<Seq<u8>, Stats>::empty(),
    {
        let mut backing: Vec<Option<StationAverage>> = Vec::with_capacity(capacity);
        let mut filled: usize = 0;
        while filled < capacity
            invariant
                filled <= capacity,
                backing@.len() == filled,
                forall|i: int| 0 <= i < filled ==> #[trigger] backing@[i] is None,
                count_live(backing@) == 0,
            decreases capacity - filled,
        {
            let ghost before = backing@;
            backing.push(None);
            assert(backing@.drop_last() =~= before);
            filled += 1;
        }
        let table = Container { backing, live: 0 };
        proof {
            assert(table@.dom() =~= Set::<Seq<u8>>::empty());
            assert(table@ =~= Map::<Seq<u8>, Stats>::empty());
        }
        table
    }

    /// An empty table of `ARRAY_SIZE` slots.
    pub fn new() -> (table: Container)
        ensures
            table.wf(),
            table.capacity() == ARRAY_SIZE,
            table@ == Map::<Seq<u8>, Stats>::empty(),
    {
        Container::with_capacity(ARRAY_SIZE)
    }

    /// The home slot of `key`: its hash, reduced to the table's slots.
    pub fn compute_index(&self, key: &[u8]) -> (index: usize)
        requires
            self.wf(),
        ensures
            index == home_slot(key@, self.capacity()),
            index < self.capacity(),
    {
        let hash: u64 = fnv1a(key);
        let size: u64 = self.backing.len() as u64;
        (hash % size) as usize
    }

    /// Searches for `key` from its home slot on, slot by slot, until it is
    /// found, a free slot is met, or the search is back where it began.
    fn find_slot(&self, key: &[u8]) -> (probe: Probe)
        requires
            self.wf(),
        ensures
            match probe {
                Probe::Found(i) => i < self.capacity() && self.holds(i as int, key@),
                Probe::Vacant(i) => {
                    &&& i < self.capacity()
                    &&& self.backing@[i as int] is None
                    &&& !self@.contains_key(key@)
                    &&& forall|steps: int|
                        0 <= steps < offset(
                            i as int,
                            home_slot(key@, self.capacity()),
                            self.capacity() as int,
                        ) ==> self.backing@[#[trigger] wrap(
                            home_slot(key@, self.capacity()),
                            steps,
                            self.capacity() as int,
                        )] is Some
                },
                Probe::Full => {
                    &&& !self@.contains_key(key@)
                    &&& self@.dom().len() == self.capacity()
                },
            },
            self@.contains_key(key@) <==> probe is Found,
            probe is Vacant ==> self@.dom().len() < self.capacity(),
    {
        let capacity: usize = self.backing.len();
        let home: usize = self.compute_index(key);
        let mut index: usize = home;
        let mut steps: usize = 0;
        while steps < capacity
            invariant
                self.wf(),
                capacity == self.capacity(),
                home == home_slot(key@, self.capacity()),
                steps <= capacity,
                index < capacity,
                steps < capacity ==> index == wrap(home as int, steps as int, capacity as int),
                forall|d: int|
                    0 <= d < steps ==> (self.backing@[#[trigger] wrap(
                        home as int,
                        d,
                        capacity as int,
                    )] matches Some(entry) && entry.key() != key@),
            decreases capacity - steps,
        {
            match &self.backing[index] {
                None => {
                    proof {
                        if self@.contains_key(key@) {
                            let i = choose|i: int| 0 <= i < self.capacity() && self.holds(i, key@);
                            let far = offset(i, home as int, capacity as int);
                            assert(wrap(home as int, far, capacity as int) == i);
                            if steps < far {
                                assert(self.path_len(i) == far);
                                assert(self.path_slot(i, steps as int) == index);
                            }
                        }
                        lemma_count_live_bounds(self.backing@);
                    }
                    return Probe::Vacant(index);
                },
                Some(entry) => {
                    if bytes_equal(entry.name(), key) {
                        proof {
                            assert(self.holds(index as int, key@));
                            assert(self.holds_below(self.capacity() as int, key@));
                        }
                        return Probe::Found(index);
                    }
                },
            }
            index = next_index(index, capacity);
            steps += 1;
        }
        proof {
            assert forall|i: int| 0 <= i < capacity implies (#[trigger] self.backing@[i] is Some
                && !self.holds(i, key@)) by {
                let far = offset(i, home as int, capacity as int);
                assert(wrap(home as int, far, capacity as int) == i);
            }
            lemma_count_live_bounds(self.backing@);
        }
        Probe::Full
    }

    /// Folds a run's statistics, given by their parts, into the entry of
    /// `key`, which is made if the key is new.
    fn fold_in(&mut self, key: &[u8], min: i16, max: i16, count: u64, total: i64) -> (outcome:
        Result<(), TableError>)
        requires
            old(self).wf(),
            key@.len() <= MAX_ARRAY_SIZE,
            count > 0,
        ensures
            final(self).wf(),
            final(self).capacity() == old(self).capacity(),
            outcome is Ok <==> can_absorb(
                old(self)@,
                key@,
                parts(min, max, count, total),
                old(self).capacity(),
            ),
            outcome is Ok ==> final(self)@ == absorb(
                old(self)@,
                key@,
                parts(min, max, count, total),
            ),
            outcome is Err ==> final(self)@ == old(self)@,
            outcome matches Err(error) ==> error == refusal(old(self)@, key@),
    {
        let probe = self.find_slot(key);
        let ghost before = *self;
        match probe {
            Probe::Found(at) => {
                proof {
                    before.lemma_view_at(at as int);
                }
                let mut entry: StationAverage = self.backing[at].take().unwrap();
                let taken: bool = entry.merge_parts(min, max, count, total);
                self.backing.set(at, Some(entry));
                proof {
                    assert(self.backing@ =~= before.backing@.update(at as int, Some(entry)));
                    self.lemma_restamp(before, at as int, entry);
                    if !taken {
                        assert(self@ =~= before@);
                    }
                }
                if taken {
                    Ok(())
                } else {
                    Err(TableError::Overflow)
                }
            },
            Probe::Vacant(at) => {
                let entry: StationAverage = StationAverage::from_parts(key, min, max, count, total);
                let slots: usize = self.backing.len();
                proof {
                    assert(before.live == before@.dom().len());
                    assert(before.live < slots);
                }
                self.backing.set(at, Some(entry));
                self.live = self.live + 1;
                proof {
                    self.lemma_occupy(before, at as int, entry);
                }
                Ok(())
            },
            Probe::Full => Err(TableError::Full),
        }
    }

    /// Records one value under `key`: the first sighting of a key starts its
    /// statistics, any later one folds the value in. A new key that finds no
    /// free slot, and a value that would make a count or total overflow, are
    /// refused and leave the table as it was.
    pub fn update(&mut self, key: &[u8], element: i16) -> (outcome: Result<(), TableError>)
        requires
            old(self).wf(),
            key@.len() <= MAX_ARRAY_SIZE,
        ensures
            final(self).wf(),
            final(self).capacity() == old(self).capacity(),
            outcome is Ok <==> can_record(old(self)@, key@, element as int, old(self).capacity()),
            outcome is Ok ==> final(self)@ == record(old(self)@, key@, element as int),
            outcome is Err ==> final(self)@ == old(self)@,
            outcome matches Err(error) ==> error == refusal(old(self)@, key@),
    {
        self.fold_in(key, element, element, 1, element as i64)
    }

    /// Folds the statistics of `entry` into the table's entry of the same
    /// key, which is made if the key is new. An entry that has seen no value
    /// changes nothing. What the table cannot take is refused and leaves it
    /// as it was.
    pub fn absorb(&mut self, entry: &StationAverage) -> (outcome: Result<(), TableError>)
        requires
            old(self).wf(),
            entry.wf(),
        ensures
            final(self).wf(),
            final(self).capacity() == old(self).capacity(),
            entry@.count == 0 ==> outcome is Ok && final(self)@ == old(self)@,
            entry@.count > 0 ==> {
                &&& outcome is Ok <==> can_absorb(
                    old(self)@,
                    entry.key(),
                    entry@,
                    old(self).capacity(),
                )
                &&& outcome is Ok ==> final(self)@ == absorb(old(self)@, entry.key(), entry@)
                &&& outcome matches Err(error) ==> error == refusal(old(self)@, entry.key())
            },
            outcome is Err ==> final(self)@ == old(self)@,
    {
        if entry.count() == 0 {
            return Ok(());
        }
        self.fold_in(
            entry.name(),
            entry.min(),
            entry.max(),
            entry.count(),
            entry.running_total(),
        )
    }

    /// The entry of `key`, if the table has one.
    pub fn get(&self, key: &[u8]) -> (found: Option<&StationAverage>)
        requires
            self.wf(),
        ensures
            found is Some <==> self@.contains_key(key@),
            found matches Some(entry) ==> entry.key() == key@ && entry@ == self@[key@]
                && entry.wf(),
    {
        match self.find_slot(key) {
            Probe::Found(at) => {
                proof {
                    self.lemma_view_at(at as int);
                }
                self.backing[at].as_ref()
            },
            _ => None,
        }
    }

    /// What the first slots hold is part of what the table holds, and the
    /// next slot adds its entry, if it has one.
    proof fn lemma_view_upto(&self, n: int)
        requires
            self.wf(),
            0 <= n < self.capacity(),
        ensures
            self.view_upto(0) == Map::<Seq<u8>, Stats>::empty(),
            self.view_upto(n).submap_of(self@),
            self.view_upto(n).dom().finite(),
            self.backing@[n] is None ==> self.view_upto(n + 1) == self.view_upto(n),
            self.backing@[n] matches Some(entry) ==> {
                &&& !self.view_upto(n).contains_key(entry.key())
                &&& self.view_upto(n + 1) == self.view_upto(n).insert(entry.key(), entry@)
                &&& self@.contains_key(entry.key())
                &&& self@[entry.key()] == entry@
            },
    {
        assert(self.view_upto(0) =~= Map::<Seq<u8>, Stats>::empty());
        assert forall|k: Seq<u8>| self.view_upto(n).contains_key(k) implies self@.contains_key(
            k,
        ) by {
            let i = choose|i: int| 0 <= i < n && self.holds(i, k);
            assert(self.holds(i, k));
        }
        assert(self.view_upto(n).dom().subset_of(self@.dom()));
        vstd::set_lib::lemma_len_subset(self.view_upto(n).dom(), self@.dom());
        match self.backing@[n] {
            None => {
                assert forall|k: Seq<u8>| self.holds_below(n + 1, k) implies self.holds_below(
                    n,
                    k,
                ) by {
                    let i = choose|i: int| 0 <= i < n + 1 && self.holds(i, k);
                    assert(i != n);
                }
                assert forall|k: Seq<u8>| self.holds_below(n, k) implies self.holds_below(
                    n + 1,
                    k,
                ) by {
                    let i = choose|i: int| 0 <= i < n && self.holds(i, k);
                    assert(self.holds(i, k));
                }
                assert(self.view_upto(n + 1) =~= self.view_upto(n));
            },
            Some(entry) => {
                self.lemma_view_at(n);
                let key = entry.key();
                if self.holds_below(n, key) {
                    let i = choose|i: int| 0 <= i < n && self.holds(i, key);
                    assert(self.backing@[i]->0.key() == self.backing@[n]->0.key());
                }
                assert(self.holds(n, key));
                assert forall|k: Seq<u8>| self.holds_below(n + 1, k) implies (k == key
                    || self.holds_below(n, k)) by {
                    let i = choose|i: int| 0 <= i < n + 1 && self.holds(i, k);
                    if i != n {
                        assert(self.holds(i, k));
                    }
                }
                assert forall|k: Seq<u8>| self.holds_below(n, k) implies self.holds_below(
                    n + 1,
                    k,
                ) by {
                    let i = choose|i: int| 0 <= i < n && self.holds(i, k);
                    assert(self.holds(i, k));
                }
                assert(self.holds_below(n + 1, key));
                assert(self.view_upto(n + 1) =~= self.view_upto(n).insert(key, entry@));
            },
        }
    }

    /// Folds every entry of `other` into this table: a key of both gets the
    /// combined statistics, a key of `other` alone its entry. The first entry
    /// that the table cannot take ends the merge; the entries folded in
    /// before it stay.
    pub fn merge(&mut self, other: &Container) -> (outcome: Result<(), TableError>)
        requires
            old(self).wf(),
            other.wf(),
        ensures
            final(self).wf(),
            final(self).capacity() == old(self).capacity(),
            outcome is Ok <==> can_merge(old(self)@, other@, old(self).capacity()),
            outcome is Ok ==> final(self)@ == merge_tables(old(self)@, other@),
            outcome is Err ==> exists|part: Map<Seq<u8>, Stats>|
                part.submap_of(other@) && final(self)@ == merge_tables(old(self)@, part),
            outcome == Err::<(), TableError>(TableError::Full) ==> merge_tables(
                old(self)@,
                other@,
            ).dom().len() > old(self).capacity(),
            outcome == Err::<(), TableError>(TableError::Overflow) ==> exists|key: Seq<u8>|
                old(self)@.contains_key(key) && other@.contains_key(key) && !(
                #[trigger] old(self)@[key]).combine(other@[key]).representable(),
    {
        let ghost start = self@;
        let slots: usize = other.backing.len();
        let mut j: usize = 0;
        proof {
            other.lemma_view_upto(0);
            self.lemma_size();
            other.lemma_size();
            lemma_merge_dom(start, other.view_upto(0));
            lemma_merge_dom(start, other@);
        }
        while j < slots
            invariant
                j <= slots,
                slots == other.capacity(),
                other.wf(),
                self.wf(),
                self.capacity() == old(self).capacity(),
                start == old(self)@,
                start.dom().finite(),
                other@.dom().finite(),
                merge_tables(start, other@).dom().finite(),
                self@ == merge_tables(start, other.view_upto(j as int)),
            decreases slots - j,
        {
            proof {
                other.lemma_view_upto(j as int);
            }
            match &other.backing[j] {
                Some(entry) => {
                    let ghost before = self@;
                    let ghost part = other.view_upto(j as int);
                    let ghost key = entry.key();
                    proof {
                        lemma_merge_insert(start, part, key, entry@);
                    }
                    let outcome = self.fold_in(
                        entry.name(),
                        entry.min(),
                        entry.max(),
                        entry.count(),
                        entry.running_total(),
                    );
                    match outcome {
                        Ok(()) => {},
                        Err(error) => {
                            proof {
                                assert(!can_absorb(before, key, entry@, self.capacity()));
                                if before.contains_key(key) {
                                    assert(start.contains_key(key));
                                    assert(before[key] == start[key]);
                                    assert(!start[key].combine(other@[key]).representable());
                                } else {
                                    assert(before.dom().insert(key).subset_of(
                                        merge_tables(start, other@).dom(),
                                    )) by {
                                        assert forall|k: Seq<u8>|
                                            before.dom().insert(key).contains(
                                                k,
                                            ) implies merge_tables(start, other@).dom().contains(
                                            k,
                                        ) by {
                                            if k != key && !start.contains_key(k) {
                                                assert(part.contains_key(k));
                                                assert(other@.contains_key(k));
                                            }
                                        }
                                    }
                                    lemma_merge_dom(start, part);
                                    vstd::set_lib::lemma_len_subset(
                                        before.dom().insert(key),
                                        merge_tables(start, other@).dom(),
                                    );
                                }
                            }
                            return Err(error);
                        },
                    }
                },
                None => {},
            }
            j += 1;
        }
        proof {
            self.lemma_size();
            assert forall|key: Seq<u8>|
                start.contains_key(key) && other@.contains_key(key) implies (
            #[trigger] start[key]).combine(other@[key]).representable() by {
                self.lemma_entries(key);
            }
        }
        Ok(())
    }

    /// What slot `i` holds.
    pub closed spec fn slot(&self, i: int) -> Option<StationAverage> {
        self.backing@[i]
    }

    /// In a valid table, a slot's entry is valid, has seen a value, and is
    /// what the table holds for its key; and no other slot has that key.
    pub proof fn lemma_slot(&self, i: int)
        requires
            self.wf(),
            0 <= i < self.capacity(),
            self.slot(i) is Some,
        ensures
            self.slot(i)->0.wf(),
            self.slot(i)->0@.count > 0,
            self@.contains_key(self.slot(i)->0.key()),
            self@[self.slot(i)->0.key()] == self.slot(i)->0@,
            forall|j: int|
                0 <= j < self.capacity() && j != i && self.slot(j) is Some ==> (
                #[trigger] self.slot(j))->0.key() != self.slot(i)->0.key(),
    {
        self.lemma_view_at(i);
        assert forall|j: int|
            0 <= j < self.capacity() && j != i && self.slot(j) is Some implies (
        #[trigger] self.slot(j))->0.key() != self.slot(i)->0.key() by {
            assert(self.backing@[j]->0.key() != self.backing@[i]->0.key());
        }
    }

    /// In a valid table, every key is held by some slot.
    pub proof fn lemma_key_has_slot(&self, key: Seq<u8>) -> (i: int)
        requires
            self.wf(),
            self@.contains_key(key),
        ensures
            0 <= i < self.capacity(),
            self.slot(i) is Some,
            self.slot(i)->0.key() == key,
    {
        let i = choose|i: int| 0 <= i < self.capacity() && self.holds(i, key);
        i
    }

    /// The number of slots.
    pub fn slots(&self) -> (n: usize)
        ensures
            n == self.capacity(),
    {
        self.backing.len()
    }

    /// The entry in slot `i`, if the slot is in use.
    pub fn entry_at(&self, i: usize) -> (entry: Option<&StationAverage>)
        requires
            i < self.capacity(),
        ensures
            entry is Some <==> self.slot(i as int) is Some,
            entry matches Some(found) ==> *found == self.slot(i as int)->0,
    {
        self.backing[i].as_ref()
    }

    /// The number of keys.
    pub fn len(&self) -> (n: usize)
        requires
            self.wf(),
        ensures
            n == self@.dom().len(),
    {
        self.live
    }
}

} // verus!
