//! The statistics kept for one key: minimum, maximum, number of values and
//! their running total, all over values scaled by ten. The mean is worked out
//! only when a line is written and never stored.

use crate::fixed_point::decimal_digits;
use crate::fixed_point::fixed_point_text;
use crate::fixed_point::push_decimal;
use crate::fixed_point::push_fixed_point;
use crate::fixed_point::MINUS;
use crate::fixed_point::POINT;
use crate::fixed_point::ZERO;
use vstd::prelude::*;
use vstd::slice::slice_to_vec;

verus! {

/// The longest key, in bytes.
pub const MAX_ARRAY_SIZE: usize = 100;

/// The byte between the key and its numbers.
pub const EQUALS: u8 = 0x3d;

/// The byte between two numbers of a line.
pub const SLASH: u8 = 0x2f;

/// The statistics of a run of values, as mathematics: no bound on any field.
pub struct Stats {
    pub min: int,
    pub max: int,
    pub count: nat,
    pub total: int,
}

/// The lesser of two numbers.
pub open spec fn lesser(a: int, b: int) -> int {
    if a <= b {
        a
    } else {
        b
    }
}

/// The greater of two numbers.
pub open spec fn greater(a: int, b: int) -> int {
    if a >= b {
        a
    } else {
        b
    }
}

/// The sum of a run of values.
pub open spec fn sum_of(values: Seq<int>) -> int
    decreases values.len(),
{
    if values.len() == 0 {
        0
    } else {
        sum_of(values.drop_last()) + values.last()
    }
}

impl Stats {
    /// The statistics of no value at all.
    pub open spec fn none() -> Stats {
        Stats { min: 0, max: 0, count: 0, total: 0 }
    }

    /// The statistics of a single value.
    pub open spec fn first(value: int) -> Stats {
        Stats { min: value, max: value, count: 1, total: value }
    }

    /// The statistics after one more value.
    pub open spec fn observe(self, value: int) -> Stats {
        if self.count == 0 {
            Stats::first(value)
        } else {
            Stats {
                min: lesser(self.min, value),
                max: greater(self.max, value),
                count: self.count + 1,
                total: self.total + value,
            }
        }
    }

    /// The statistics of two runs taken together.
    pub open spec fn combine(self, other: Stats) -> Stats {
        if self.count == 0 {
            other
        } else if other.count == 0 {
            self
        } else {
            Stats {
                min: lesser(self.min, other.min),
                max: greater(self.max, other.max),
                count: self.count + other.count,
                total: self.total + other.total,
            }
        }
    }

    /// The statistics of a run of values, taken one after the other.
    pub open spec fn of(values: Seq<int>) -> Stats
        decreases values.len(),
    {
        if values.len() == 0 {
            Stats::none()
        } else {
            Stats::of(values.drop_last()).observe(values.last())
        }
    }

    /// Statistics of no value are all zero.
    pub open spec fn canonical(self) -> bool {
        self.count == 0 ==> self == Stats::none()
    }

    /// Whether the fields fit the machine types that hold them.
    pub open spec fn representable(self) -> bool {
        &&& i16::MIN <= self.min <= i16::MAX
        &&& i16::MIN <= self.max <= i16::MAX
        &&& self.count <= u64::MAX
        &&& i64::MIN <= self.total <= i64::MAX
    }

    /// The size of the mean in ten-thousandths, cut off after the fourth
    /// fractional digit. The total is scaled by ten, hence the factor 1000.
    pub open spec fn mean_magnitude(self) -> nat
        recommends
            self.count > 0,
    {
        let size: int = if self.total < 0 {
            -self.total
        } else {
            self.total
        };
        ((size * 1000) / (self.count as int)) as nat
    }

    /// The mean as text: sign, integer part, point, and the fractional digits
    /// without trailing zeros, but at least one.
    pub open spec fn mean_text(self) -> Seq<u8>
        recommends
            self.count > 0,
    {
        let size = self.mean_magnitude();
        let sign = if self.total < 0 && size > 0 {
            seq![MINUS]
        } else {
            Seq::<u8>::empty()
        };
        sign + decimal_digits(size / 10000) + seq![POINT] + fraction_digits(size % 10000)
    }
}

/// The byte of a decimal digit.
pub open spec fn digit_byte(d: nat) -> u8 {
    (0x30 + d) as u8
}

/// Up to four fractional digits of a number of ten-thousandths below one,
/// without trailing zeros, but at least one digit.
pub open spec fn fraction_digits(part: nat) -> Seq<u8> {
    if part % 1000 == 0 {
        seq![digit_byte(part / 1000)]
    } else if part % 100 == 0 {
        seq![digit_byte(part / 1000), digit_byte(part / 100 % 10)]
    } else if part % 10 == 0 {
        seq![digit_byte(part / 1000), digit_byte(part / 100 % 10), digit_byte(part / 10 % 10)]
    } else {
        seq![
            digit_byte(part / 1000),
            digit_byte(part / 100 % 10),
            digit_byte(part / 10 % 10),
            digit_byte(part % 10),
        ]
    }
}

/// The output line of a key and its statistics, without the line's end:
/// `key=min/mean/max`.
pub open spec fn line_text(key: Seq<u8>, stats: Stats) -> Seq<u8>
    recommends
        stats.count > 0,
{
    key + seq![EQUALS] + fixed_point_text(stats.min) + seq![SLASH] + stats.mean_text() + seq![SLASH]
        + fixed_point_text(stats.max)
}

/// The statistics of a run are the true ones: the number of values, their
/// sum, and the least and the greatest among them. The mean, total over ten
/// times count, is therefore the arithmetic mean of the values.
pub proof fn lemma_stats_are_true(values: Seq<int>)
    requires
        values.len() > 0,
    ensures
        Stats::of(values).count == values.len(),
        Stats::of(values).total == sum_of(values),
        forall|i: int|
            0 <= i < values.len() ==> Stats::of(values).min <= #[trigger] values[i] <= Stats::of(
                values,
            ).max,
        exists|i: int| 0 <= i < values.len() && #[trigger] values[i] == Stats::of(values).min,
        exists|i: int| 0 <= i < values.len() && #[trigger] values[i] == Stats::of(values).max,
    decreases values.len(),
{
    let front = values.drop_last();
    let last = values.len() - 1;
    if front.len() == 0 {
        assert(Stats::of(front) == Stats::none());
        assert(sum_of(front) == 0);
        assert(values[last] == Stats::of(values).min);
        assert(values[last] == Stats::of(values).max);
    } else {
        lemma_stats_are_true(front);
        let before = Stats::of(front);
        let after = Stats::of(values);
        let least = choose|i: int| 0 <= i < front.len() && #[trigger] front[i] == before.min;
        let most = choose|i: int| 0 <= i < front.len() && #[trigger] front[i] == before.max;
        assert forall|i: int| 0 <= i < values.len() implies after.min <= #[trigger] values[i]
            <= after.max by {
            if i < last {
                assert(front[i] == values[i]);
            }
        }
        if after.min == before.min {
            assert(values[least] == after.min);
        } else {
            assert(values[last] == after.min);
        }
        if after.max == before.max {
            assert(values[most] == after.max);
        } else {
            assert(values[last] == after.max);
        }
    }
}

/// The one-step function of `Stats::of`, as a value.
pub open spec fn observing() -> spec_fn(Stats, int) -> Stats {
    |stats: Stats, value: int| stats.observe(value)
}

/// `Stats::of` is the left fold of `observing`.
proof fn lemma_stats_as_fold(values: Seq<int>)
    ensures
        Stats::of(values) == values.fold_left(Stats::none(), observing()),
    decreases values.len(),
{
    if values.len() > 0 {
        lemma_stats_as_fold(values.drop_last());
    }
}

/// The statistics do not depend on the order in which the values come.
pub proof fn lemma_stats_any_order(left: Seq<int>, right: Seq<int>)
    requires
        left.to_multiset() == right.to_multiset(),
    ensures
        Stats::of(left) == Stats::of(right),
{
    lemma_stats_as_fold(left);
    lemma_stats_as_fold(right);
    assert(vstd::seq_lib::commutative_foldl(observing()));
    vstd::seq_lib::lemma_fold_left_permutation(left, right, observing(), Stats::none());
}

/// Taking two runs together is the same as taking their values in one run.
pub proof fn lemma_stats_of_concat(left: Seq<int>, right: Seq<int>)
    ensures
        Stats::of(left + right) == Stats::of(left).combine(Stats::of(right)),
    decreases right.len(),
{
    if right.len() == 0 {
        assert(left + right =~= left);
    } else {
        lemma_stats_of_concat(left, right.drop_last());
        assert((left + right).drop_last() =~= left + right.drop_last());
        lemma_count_is_len(left + right.drop_last());
        lemma_count_is_len(left);
        lemma_count_is_len(right.drop_last());
    }
}

/// A run's statistics count its values.
pub proof fn lemma_count_is_len(values: Seq<int>)
    ensures
        Stats::of(values).count == values.len(),
    decreases values.len(),
{
    if values.len() > 0 {
        lemma_count_is_len(values.drop_last());
    }
}

/// Taking runs together does not depend on their order or grouping.
pub proof fn lemma_combine_laws(a: Stats, b: Stats, c: Stats)
    requires
        a.canonical(),
        b.canonical(),
        c.canonical(),
    ensures
        a.combine(b).canonical(),
        a.combine(b) == b.combine(a),
        a.combine(b).combine(c) == a.combine(b.combine(c)),
        a.combine(Stats::none()) == a,
{
}

/// The statistics that four machine values stand for.
pub open spec fn parts(min: i16, max: i16, count: u64, total: i64) -> Stats {
    Stats { min: min as int, max: max as int, count: count as nat, total: total as int }
}

/// The statistics of one key.
///
/// An entry made by `default` has seen no value; its first `update_values`
/// sets minimum, maximum and total to that value.
pub struct StationAverage {
    name: Vec<u8>,
    min: i16,
    max: i16,
    count: u64,
    running_total: i64,
}

impl StationAverage {
    /// The key.
    pub closed spec fn key(&self) -> Seq<u8> {
        self.name@
    }

    /// The statistics.
    pub closed spec fn view(&self) -> Stats {
        Stats {
            min: self.min as int,
            max: self.max as int,
            count: self.count as nat,
            total: self.running_total as int,
        }
    }

    /// The key is not too long, and an entry that has seen nothing is all zero.
    pub open spec fn wf(&self) -> bool {
        &&& self.key().len() <= MAX_ARRAY_SIZE
        &&& self@.canonical()
        &&& self@.representable()
    }

    /// The entry of `name` after a first value.
    pub fn new(name: &[u8], temp: i16) -> (entry: StationAverage)
        requires
            name@.len() <= MAX_ARRAY_SIZE,
        ensures
            entry.wf(),
            entry.key() == name@,
            entry@ == Stats::first(temp as int),
    {
        StationAverage {
            name: slice_to_vec(name),
            min: temp,
            max: temp,
            count: 1,
            running_total: temp as i64,
        }
    }

    /// Folds one more value in, unless a field would overflow: then nothing
    /// changes and the answer is `false`.
    pub fn update_values(&mut self, temp: i16) -> (taken: bool)
        requires
            old(self).wf(),
        ensures
            final(self).wf(),
            final(self).key() == old(self).key(),
            taken == old(self)@.observe(temp as int).representable(),
            taken ==> final(self)@ == old(self)@.observe(temp as int),
            !taken ==> final(self)@ == old(self)@,
    {
        if self.count == 0 {
            self.min = temp;
            self.max = temp;
            self.count = 1;
            self.running_total = temp as i64;
            return true;
        }
        let total: Option<i64> = self.running_total.checked_add(temp as i64);
        let count: Option<u64> = self.count.checked_add(1);
        match (total, count) {
            (Some(total), Some(count)) => {
                if temp < self.min {
                    self.min = temp;
                }
                if temp > self.max {
                    self.max = temp;
                }
                self.running_total = total;
                self.count = count;
                true
            },
            _ => false,
        }
    }

    /// The entry of `name` with the statistics of a run given by its parts.
    pub fn from_parts(name: &[u8], min: i16, max: i16, count: u64, total: i64) -> (entry:
        StationAverage)
        requires
            name@.len() <= MAX_ARRAY_SIZE,
            parts(min, max, count, total).canonical(),
        ensures
            entry.wf(),
            entry.key() == name@,
            entry@ == parts(min, max, count, total),
    {
        StationAverage { name: slice_to_vec(name), min, max, count, running_total: total }
    }

    /// Folds the statistics of another run in, given by their parts, unless a
    /// field would overflow: then nothing changes and the answer is `false`.
    pub fn merge_parts(&mut self, min: i16, max: i16, count: u64, total: i64) -> (taken: bool)
        requires
            old(self).wf(),
            parts(min, max, count, total).canonical(),
        ensures
            final(self).wf(),
            final(self).key() == old(self).key(),
            taken == old(self)@.combine(parts(min, max, count, total)).representable(),
            taken ==> final(self)@ == old(self)@.combine(parts(min, max, count, total)),
            !taken ==> final(self)@ == old(self)@,
    {
        if count == 0 {
            return true;
        }
        if self.count == 0 {
            self.min = min;
            self.max = max;
            self.count = count;
            self.running_total = total;
            return true;
        }
        let new_total: Option<i64> = self.running_total.checked_add(total);
        let new_count: Option<u64> = self.count.checked_add(count);
        match (new_total, new_count) {
            (Some(new_total), Some(new_count)) => {
                if min < self.min {
                    self.min = min;
                }
                if max > self.max {
                    self.max = max;
                }
                self.running_total = new_total;
                self.count = new_count;
                true
            },
            _ => false,
        }
    }

    /// Folds the statistics of another entry in, unless a field would
    /// overflow: then nothing changes and the answer is `false`.
    pub fn merge(&mut self, other: &StationAverage) -> (taken: bool)
        requires
            old(self).wf(),
            other.wf(),
        ensures
            final(self).wf(),
            final(self).key() == old(self).key(),
            taken == old(self)@.combine(other@).representable(),
            taken ==> final(self)@ == old(self)@.combine(other@),
            !taken ==> final(self)@ == old(self)@,
    {
        self.merge_parts(other.min, other.max, other.count, other.running_total)
    }

    /// A second entry with the same key and the same statistics.
    pub fn duplicate(&self) -> (copy: StationAverage)
        ensures
            copy.key() == self.key(),
            copy@ == self@,
            copy.wf() == self.wf(),
    {
        StationAverage {
            name: slice_to_vec(self.name.as_slice()),
            min: self.min,
            max: self.max,
            count: self.count,
            running_total: self.running_total,
        }
    }

    /// The key's bytes.
    pub fn name(&self) -> (name: &[u8])
        ensures
            name@ == self.key(),
    {
        self.name.as_slice()
    }

    /// The least value seen, times ten.
    pub fn min(&self) -> (min: i16)
        ensures
            min == self@.min,
    {
        self.min
    }

    /// The greatest value seen, times ten.
    pub fn max(&self) -> (max: i16)
        ensures
            max == self@.max,
    {
        self.max
    }

    /// The number of values seen.
    pub fn count(&self) -> (count: u64)
        ensures
            count == self@.count,
    {
        self.count
    }

    /// The sum of the values seen, times ten.
    pub fn running_total(&self) -> (total: i64)
        ensures
            total == self@.total,
    {
        self.running_total
    }

    /// The size of the mean in ten-thousandths, cut off after the fourth
    /// fractional digit.
    pub fn mean_magnitude(&self) -> (size: u128)
        requires
            self@.count > 0,
        ensures
            size == self@.mean_magnitude(),
            size <= 9223372036854775808000,
    {
        let size: u128 = if self.running_total < 0 {
            (-(self.running_total as i128)) as u128
        } else {
            self.running_total as u128
        };
        let count: u128 = self.count as u128;
        assert(size * 1000 / (count as int) <= size * 1000) by (nonlinear_arith)
            requires
                count >= 1,
                size >= 0,
        ;
        size * 1000 / count
    }

    /// The output line of this entry, without the line's end:
    /// `key=min/mean/max`, the mean worked out here and nowhere kept.
    pub fn to_line(&self) -> (line: Vec<u8>)
        requires
            self@.count > 0,
        ensures
            line@ == line_text(self.key(), self@),
    {
        let mut line: Vec<u8> = slice_to_vec(self.name.as_slice());
        line.push(EQUALS);
        push_fixed_point(&mut line, self.min);
        line.push(SLASH);
        let size: u128 = self.mean_magnitude();
        if self.running_total < 0 && size > 0 {
            line.push(MINUS);
        }
        let whole: u64 = (size / 10000) as u64;
        let part: u16 = (size % 10000) as u16;
        push_decimal(&mut line, whole);
        line.push(POINT);
        line.push(ZERO + (part / 1000) as u8);
        if part % 1000 != 0 {
            line.push(ZERO + (part / 100 % 10) as u8);
            if part % 100 != 0 {
                line.push(ZERO + (part / 10 % 10) as u8);
                if part % 10 != 0 {
                    line.push(ZERO + (part % 10) as u8);
                }
            }
        }
        line.push(SLASH);
        push_fixed_point(&mut line, self.max);
        proof {
            assert(line@ =~= line_text(self.key(), self@));
        }
        line
    }
}

impl Default for StationAverage {
    /// An entry with an empty key that has seen no value.
    fn default() -> (entry: StationAverage)
        ensures
            entry.wf(),
            entry.key() == Seq::<u8>::empty(),
            entry@ == Stats::none(),
    {
        StationAverage { name: Vec::new(), min: 0, max: 0, count: 0, running_total: 0 }
    }
}

} // verus!
