//! From bytes to readings: where a chunk of the input starts and ends, how
//! it falls into lines, and what each line records.
//!
//! A record is a line `key;value` ended by a newline. A chunk with the
//! nominal range `[c, c + size)` owns the records whose first byte lies in
//! that range: its bytes run from the first record start at or after `c` to
//! the first record start at or after `c + size`.

use crate::aggregate::aggregate;
use crate::aggregate::concat_all;
use crate::aggregate::lemma_fit_prefix;
use crate::aggregate::lemma_merge_each;
use crate::aggregate::lemma_record_all_any_order;
use crate::aggregate::lemma_record_all_concat;
use crate::aggregate::merge_each;
use crate::aggregate::record_all;
use crate::aggregate::records_fit;
use crate::aggregate::stops_at;
use crate::container::can_record;
use crate::container::record;
use crate::container::refusal;
use crate::container::Container;
use crate::container::TableError;
use crate::cursor::Cursor;
use crate::fixed_point::parse_checked;
use crate::fixed_point::parses;
use crate::fixed_point::scaled_value;
use crate::scanner::find_line_breaks;
use crate::scanner::holds_offset;
use crate::scanner::lemma_line_breaks_ascending;
use crate::scanner::lemma_line_breaks_complete;
use crate::scanner::lemma_line_breaks_gap;
use crate::scanner::lemma_line_breaks_sound;
use crate::scanner::stored_count;
use crate::scanner::line_breaks;
use crate::scanner::NEWLINE;
use crate::station::Stats;
use crate::station::MAX_ARRAY_SIZE;
use vstd::prelude::*;
use vstd::slice::slice_subrange;

verus! {

/// The byte between key and value.
pub const SEMICOLON: u8 = 0x3b;

/// Whether a record can start at `at`: at the very start, or right after a
/// delimiter.
pub open spec fn is_boundary(data: Seq<u8>, at: int) -> bool {
    at == 0 || (0 < at <= data.len() && data[at - 1] == NEWLINE)
}

/// The first record start at or after `at`, or the length where there is
/// none.
pub open spec fn align(data: Seq<u8>, at: int) -> int
    decreases data.len() - at,
{
    if at >= data.len() {
        data.len() as int
    } else if at <= 0 {
        0
    } else if data[at - 1] == NEWLINE {
        at
    } else {
        align(data, at + 1)
    }
}

/// The bytes after the last delimiter: a line that is not yet ended.
pub open spec fn last_line(s: Seq<u8>) -> Seq<u8>
    decreases s.len(),
{
    if s.len() == 0 || s.last() == NEWLINE {
        Seq::empty()
    } else {
        last_line(s.drop_last()).push(s.last())
    }
}

/// The lines of `s` that a delimiter ends, in order, each without its
/// delimiter.
pub open spec fn lines(s: Seq<u8>) -> Seq<Seq<u8>>
    decreases s.len(),
{
    if s.len() == 0 {
        Seq::empty()
    } else if s.last() == NEWLINE {
        lines(s.drop_last()).push(last_line(s.drop_last()))
    } else {
        lines(s.drop_last())
    }
}

/// The index of the last semicolon of a line.
pub open spec fn separator(line: Seq<u8>) -> Option<int>
    decreases line.len(),
{
    if line.len() == 0 {
        None
    } else if line.last() == SEMICOLON {
        Some(line.len() - 1)
    } else {
        separator(line.drop_last())
    }
}

/// What a line records: the key before its last semicolon and the scaled
/// value after it. A line without a semicolon, with an empty or overlong
/// key, or with a value that does not parse records nothing.
pub open spec fn parse_record(line: Seq<u8>) -> Option<(Seq<u8>, int)> {
    match separator(line) {
        None => None,
        Some(at) => {
            let key = line.subrange(0, at);
            let text = line.subrange(at + 1, line.len() as int);
            if 1 <= key.len() <= MAX_ARRAY_SIZE && parses(text) {
                Some((key, scaled_value(text)))
            } else {
                None
            }
        },
    }
}

/// The readings of a run of lines, in order; lines that record nothing are
/// left out.
pub open spec fn readings_of(run: Seq<Seq<u8>>) -> Seq<(Seq<u8>, int)>
    decreases run.len(),
{
    if run.len() == 0 {
        Seq::empty()
    } else {
        match parse_record(run.last()) {
            Some(reading) => readings_of(run.drop_last()).push(reading),
            None => readings_of(run.drop_last()),
        }
    }
}

/// The readings of a stretch of input.
pub open spec fn readings(data: Seq<u8>) -> Seq<(Seq<u8>, int)> {
    readings_of(lines(data))
}

/// Where the nominal range that starts at `from` and is `size` long ends:
/// `size` bytes on, or at the end of the data.
pub open spec fn nominal_end(data: Seq<u8>, from: int, size: int) -> int {
    if from + size <= data.len() {
        from + size
    } else {
        data.len() as int
    }
}

/// The bytes of the chunk with the nominal range from `from` to `to`.
pub open spec fn chunk_bytes(data: Seq<u8>, from: int, to: int) -> Seq<u8> {
    data.subrange(align(data, from), align(data, to))
}

/// What the chunk reads whose nominal range starts at `from` and is `size`
/// long.
pub open spec fn chunk_readings(data: Seq<u8>, from: int, size: int) -> Seq<(Seq<u8>, int)> {
    readings(chunk_bytes(data, from, nominal_end(data, from, size)))
}

/// Where `align` lands: at or after `at`, within the data, on a record start
/// unless it is the end, with no record start passed over.
pub proof fn lemma_align(data: Seq<u8>, at: int)
    requires
        0 <= at <= data.len(),
    ensures
        at <= align(data, at) <= data.len(),
        align(data, at) < data.len() ==> is_boundary(data, align(data, at)),
        forall|p: int| at <= p < align(data, at) ==> !is_boundary(data, p),
        is_boundary(data, at) ==> align(data, at) == at,
    decreases data.len() - at,
{
    if at < data.len() && at > 0 && data[at - 1] != NEWLINE {
        lemma_align(data, at + 1);
    }
}

/// A later nominal start gives no earlier chunk start.
pub proof fn lemma_align_monotone(data: Seq<u8>, from: int, to: int)
    requires
        0 <= from <= to <= data.len(),
    ensures
        align(data, from) <= align(data, to),
{
    lemma_align(data, from);
    lemma_align(data, to);
    if align(data, to) < align(data, from) {
        assert(!is_boundary(data, align(data, to)));
    }
}

/// A stretch without delimiters ends no line.
pub proof fn lemma_lines_skip(s: Seq<u8>, from: int, to: int)
    requires
        0 <= from <= to <= s.len(),
        forall|p: int| from <= p < to ==> s[p] != NEWLINE,
    ensures
        lines(s.take(to)) == lines(s.take(from)),
    decreases to - from,
{
    if from < to {
        lemma_lines_skip(s, from, to - 1);
        assert(s.take(to).drop_last() =~= s.take(to - 1));
    }
}

/// After a record start and a stretch without delimiters, the unended line is
/// that stretch.
pub proof fn lemma_last_line(s: Seq<u8>, from: int, to: int)
    requires
        0 <= from <= to <= s.len(),
        is_boundary(s, from),
        forall|p: int| from <= p < to ==> s[p] != NEWLINE,
    ensures
        last_line(s.take(to)) == s.subrange(from, to),
    decreases to - from,
{
    if from == to {
        if from > 0 {
            assert(s.take(to).last() == s[from - 1]);
        }
        assert(s.subrange(from, to) =~= Seq::<u8>::empty());
    } else {
        lemma_last_line(s, from, to - 1);
        assert(s.take(to).drop_last() =~= s.take(to - 1));
        assert(s.subrange(from, to - 1).push(s[to - 1]) =~= s.subrange(from, to));
    }
}

/// A delimiter after a record start and a stretch without delimiters ends the
/// line that is that stretch.
pub proof fn lemma_lines_next(s: Seq<u8>, from: int, to: int)
    requires
        0 <= from <= to < s.len(),
        is_boundary(s, from),
        forall|p: int| from <= p < to ==> s[p] != NEWLINE,
        s[to] == NEWLINE,
    ensures
        lines(s.take(to + 1)) == lines(s.take(from)).push(s.subrange(from, to)),
{
    lemma_lines_skip(s, from, to);
    lemma_last_line(s, from, to);
    assert(s.take(to + 1).drop_last() =~= s.take(to));
}

/// Behind a stretch that ends in a delimiter, the unended line is that of
/// what follows.
pub proof fn lemma_last_line_concat(first: Seq<u8>, second: Seq<u8>)
    requires
        first.len() == 0 || first.last() == NEWLINE,
    ensures
        last_line(first + second) == last_line(second),
    decreases second.len(),
{
    if second.len() == 0 {
        assert(first + second =~= first);
    } else {
        assert((first + second).drop_last() =~= first + second.drop_last());
        if second.last() != NEWLINE {
            lemma_last_line_concat(first, second.drop_last());
        }
    }
}

/// Behind a stretch that ends in a delimiter, the lines of what follows are
/// added to its own.
pub proof fn lemma_lines_concat(first: Seq<u8>, second: Seq<u8>)
    requires
        first.len() == 0 || first.last() == NEWLINE,
    ensures
        lines(first + second) == lines(first) + lines(second),
    decreases second.len(),
{
    if second.len() == 0 {
        assert(first + second =~= first);
        assert(lines(first) + lines(second) =~= lines(first));
    } else {
        lemma_lines_concat(first, second.drop_last());
        assert((first + second).drop_last() =~= first + second.drop_last());
        if second.last() == NEWLINE {
            lemma_last_line_concat(first, second.drop_last());
            assert(lines(first + second) =~= lines(first) + lines(second));
        }
    }
}

/// The readings of two runs of lines, one after the other.
pub proof fn lemma_readings_concat(first: Seq<Seq<u8>>, second: Seq<Seq<u8>>)
    ensures
        readings_of(first + second) == readings_of(first) + readings_of(second),
    decreases second.len(),
{
    if second.len() == 0 {
        assert(first + second =~= first);
        assert(readings_of(first) + readings_of(second) =~= readings_of(first));
    } else {
        lemma_readings_concat(first, second.drop_last());
        assert((first + second).drop_last() =~= first + second.drop_last());
        assert(readings_of(first + second) =~= readings_of(first) + readings_of(second));
    }
}

/// The lines of a start of the input are a start of its lines.
pub proof fn lemma_lines_prefix(s: Seq<u8>, n: int)
    requires
        0 <= n <= s.len(),
    ensures
        lines(s.take(n)).len() <= lines(s).len(),
        lines(s.take(n)) == lines(s).take(lines(s.take(n)).len() as int),
    decreases s.len() - n,
{
    if n == s.len() {
        assert(s.take(n) =~= s);
        assert(lines(s).take(lines(s).len() as int) =~= lines(s));
    } else {
        lemma_lines_prefix(s, n + 1);
        assert(s.take(n + 1).drop_last() =~= s.take(n));
        let longer = lines(s.take(n + 1));
        let shorter = lines(s.take(n));
        assert(shorter =~= longer.take(shorter.len() as int));
        assert(shorter =~= lines(s).take(shorter.len() as int));
    }
}

/// The readings of a start of a run of lines are a start of its readings.
pub proof fn lemma_readings_of_prefix(run: Seq<Seq<u8>>, n: int)
    requires
        0 <= n <= run.len(),
    ensures
        readings_of(run.take(n)).len() <= readings_of(run).len(),
        readings_of(run.take(n)) == readings_of(run).take(readings_of(run.take(n)).len() as int),
    decreases run.len() - n,
{
    if n == run.len() {
        assert(run.take(n) =~= run);
        assert(readings_of(run).take(readings_of(run).len() as int) =~= readings_of(run));
    } else {
        lemma_readings_of_prefix(run, n + 1);
        assert(run.take(n + 1).drop_last() =~= run.take(n));
        let longer = readings_of(run.take(n + 1));
        let shorter = readings_of(run.take(n));
        assert(shorter =~= longer.take(shorter.len() as int));
        assert(shorter =~= readings_of(run).take(shorter.len() as int));
    }
}

/// The readings of a start of the input are a start of its readings.
pub proof fn lemma_readings_prefix(s: Seq<u8>, n: int)
    requires
        0 <= n <= s.len(),
    ensures
        readings(s.take(n)).len() <= readings(s).len(),
        readings(s.take(n)) == readings(s).take(readings(s.take(n)).len() as int),
{
    lemma_lines_prefix(s, n);
    lemma_readings_of_prefix(lines(s), lines(s.take(n)).len() as int);
}

/// Two chunks whose nominal ranges meet read, one after the other, what the
/// chunk of the joined range reads: no record twice and none left out.
pub proof fn lemma_chunks_join(data: Seq<u8>, from: int, cut: int, to: int)
    requires
        0 <= from <= cut <= to <= data.len(),
    ensures
        lines(chunk_bytes(data, from, cut)) + lines(chunk_bytes(data, cut, to)) == lines(
            chunk_bytes(data, from, to),
        ),
        readings(chunk_bytes(data, from, cut)) + readings(chunk_bytes(data, cut, to)) == readings(
            chunk_bytes(data, from, to),
        ),
{
    lemma_align(data, from);
    lemma_align(data, cut);
    lemma_align(data, to);
    lemma_align_monotone(data, from, cut);
    lemma_align_monotone(data, cut, to);
    let first = chunk_bytes(data, from, cut);
    let second = chunk_bytes(data, cut, to);
    assert(first + second =~= chunk_bytes(data, from, to));
    if first.len() > 0 && align(data, cut) == data.len() && first.last() != NEWLINE {
        assert(second =~= Seq::<u8>::empty());
        assert(first + second =~= first);
        assert(lines(first) + lines(second) =~= lines(first));
    } else {
        if first.len() > 0 {
            assert(first.last() == data[align(data, cut) - 1]);
        }
        lemma_lines_concat(first, second);
    }
    lemma_readings_concat(lines(first), lines(second));
}

/// Cut points for chunks: they start at zero, end at the length and never
/// go back. Equal steps of a chunk size are one case.
pub open spec fn valid_cuts(data: Seq<u8>, cuts: Seq<int>) -> bool {
    &&& cuts.len() >= 1
    &&& cuts[0] == 0
    &&& cuts.last() == data.len()
    &&& forall|i: int, j: int| 0 <= i <= j < cuts.len() ==> cuts[i] <= cuts[j]
}

/// What the chunks between each cut point and the next read: one run of
/// readings for each chunk.
pub open spec fn chunk_parts(data: Seq<u8>, cuts: Seq<int>) -> Seq<Seq<(Seq<u8>, int)>>
    decreases cuts.len(),
{
    if cuts.len() < 2 {
        Seq::empty()
    } else {
        chunk_parts(data, cuts.drop_last()).push(
            readings(chunk_bytes(data, cuts[cuts.len() - 2], cuts.last())),
        )
    }
}

/// The chunks up to a cut point read what the chunk from the start to that
/// cut point reads.
proof fn lemma_chunk_parts(data: Seq<u8>, cuts: Seq<int>)
    requires
        cuts.len() >= 1,
        cuts[0] == 0,
        cuts.last() <= data.len(),
        forall|i: int, j: int| 0 <= i <= j < cuts.len() ==> cuts[i] <= cuts[j],
    ensures
        concat_all(chunk_parts(data, cuts)) == readings(chunk_bytes(data, 0, cuts.last())),
    decreases cuts.len(),
{
    if cuts.len() < 2 {
        assert(chunk_bytes(data, 0, 0) =~= Seq::<u8>::empty());
    } else {
        let front = cuts.drop_last();
        assert forall|i: int, j: int| 0 <= i <= j < front.len() implies front[i] <= front[j] by {
            assert(cuts[i] <= cuts[j]);
        }
        assert(front.last() == cuts[cuts.len() - 2]);
        assert(cuts[cuts.len() - 2] <= cuts[cuts.len() - 1]);
        assert(cuts[0] <= cuts[cuts.len() - 2]);
        lemma_chunk_parts(data, front);
        lemma_chunks_join(data, 0, front.last(), cuts.last());
        assert(chunk_parts(data, cuts).drop_last() =~= chunk_parts(data, front));
    }
}

/// However the input is cut into chunks, the chunks read, one after the
/// other, exactly the readings of the input, and their tables merge into the
/// table of the input read in one go.
pub proof fn lemma_chunks_cover(data: Seq<u8>, cuts: Seq<int>)
    requires
        valid_cuts(data, cuts),
    ensures
        concat_all(chunk_parts(data, cuts)) == readings(data),
        merge_each(chunk_parts(data, cuts)) == aggregate(readings(data)),
{
    lemma_chunk_parts(data, cuts);
    lemma_align(data, data.len() as int);
    assert(chunk_bytes(data, 0, data.len() as int) =~= data);
    lemma_merge_each(chunk_parts(data, cuts));
}

/// A cut that falls on a delimiter byte: the record that the delimiter ends
/// belongs to the chunk before the cut, the record after it to the chunk
/// behind, and together the two chunks read what the input holds.
pub proof fn lemma_cut_on_delimiter(data: Seq<u8>, cut: int)
    requires
        0 < cut < data.len(),
        data[cut] == NEWLINE,
    ensures
        data[cut - 1] != NEWLINE ==> align(data, cut) == cut + 1,
        data[cut - 1] == NEWLINE ==> align(data, cut) == cut,
        readings(chunk_bytes(data, 0, cut)) + readings(
            chunk_bytes(data, cut, data.len() as int),
        ) == readings(data),
{
    lemma_chunks_join(data, 0, cut, data.len() as int);
    lemma_align(data, data.len() as int);
    assert(chunk_bytes(data, 0, data.len() as int) =~= data);
    if data[cut - 1] != NEWLINE {
        assert(align(data, cut) == align(data, cut + 1));
    }
}

/// The index of the last semicolon of `bytes`, where key and value part.
pub fn get_sep(bytes: &[u8]) -> (at: Option<usize>)
    ensures
        at matches Some(i) ==> separator(bytes@) == Some(i as int) && i < bytes@.len(),
        at is None ==> separator(bytes@) is None,
{
    let mut i: usize = bytes.len();
    assert(bytes@.take(i as int) =~= bytes@);
    while i > 0
        invariant
            i <= bytes@.len(),
            separator(bytes@) == separator(bytes@.take(i as int)),
        decreases i,
    {
        i -= 1;
        assert(bytes@.take(i + 1).drop_last() =~= bytes@.take(i as int));
        if bytes[i] == SEMICOLON {
            return Some(i);
        }
    }
    None
}

/// Splits a line into key and value and reads the value: the index of the
/// semicolon and the scaled value, or nothing where the line records
/// nothing.
pub fn split_record(line: &[u8]) -> (parts: Option<(usize, i16)>)
    ensures
        parts is Some <==> parse_record(line@) is Some,
        parts matches Some((at, value)) ==> at < line@.len() && parse_record(line@) == Some(
            (line@.subrange(0, at as int), value as int),
        ),
{
    match get_sep(line) {
        None => None,
        Some(at) => {
            if at < 1 || at > MAX_ARRAY_SIZE {
                return None;
            }
            let text = slice_subrange(line, at + 1, line.len());
            match parse_checked(text) {
                None => None,
                Some(value) => Some((at, value)),
            }
        },
    }
}

/// The first record start at or after `at`.
pub fn align_forward(data: &[u8], at: usize) -> (start: usize)
    requires
        at <= data@.len(),
    ensures
        start == align(data@, at as int),
        at <= start <= data@.len(),
{
    let len: usize = data.len();
    proof {
        lemma_align(data@, at as int);
    }
    if at == 0 || at >= len {
        return at;
    }
    if data[at - 1] == NEWLINE {
        return at;
    }
    // In the middle of a record that an earlier chunk owns: go on to the
    // byte after its delimiter.
    let mut next: usize = at;
    while next < len && data[next] != NEWLINE
        invariant
            at <= next <= len,
            len == data@.len(),
            0 < at,
            data@[at - 1] != NEWLINE,
            align(data@, at as int) == align(data@, next + 1),
        decreases len - next,
    {
        assert(align(data@, next + 1) == align(data@, next + 2));
        next += 1;
    }
    if next < len {
        next + 1
    } else {
        len
    }
}

/// The bytes of the chunk whose nominal range starts at `c` and is
/// `chunk_size` long: from the first record start at or after `c` to the
/// first record start at or after the range's end.
pub fn find_start_end_bounds(data: &[u8], c: usize, chunk_size: usize) -> (bounds: (usize, usize))
    requires
        c <= data@.len(),
    ensures
        bounds.0 == align(data@, c as int),
        bounds.1 == align(data@, nominal_end(data@, c as int, chunk_size as int)),
        c <= bounds.0 <= bounds.1 <= data@.len(),
{
    let len: usize = data.len();
    let nominal_end: usize = if chunk_size <= len - c {
        c + chunk_size
    } else {
        len
    };
    let start: usize = align_forward(data, c);
    let end: usize = align_forward(data, nominal_end);
    proof {
        lemma_align_monotone(data@, c as int, nominal_end as int);
    }
    (start, end)
}

/// Records what one line says. A line that records nothing leaves the table
/// as it was and is no error.
pub fn record_line(table: &mut Container, line: &[u8]) -> (outcome: Result<(), TableError>)
    requires
        old(table).wf(),
    ensures
        final(table).wf(),
        final(table).capacity() == old(table).capacity(),
        outcome is Err ==> final(table)@ == old(table)@,
        match parse_record(line@) {
            None => outcome is Ok && final(table)@ == old(table)@,
            Some(reading) => {
                &&& outcome is Ok <==> can_record(
                    old(table)@,
                    reading.0,
                    reading.1,
                    old(table).capacity(),
                )
                &&& outcome is Ok ==> final(table)@ == record(old(table)@, reading.0, reading.1)
                &&& outcome matches Err(error) ==> error == refusal(old(table)@, reading.0)
            },
        },
{
    match split_record(line) {
        None => Ok(()),
        Some((at, value)) => {
            let key = slice_subrange(line, 0, at);
            table.update(key, value)
        },
    }
}

/// Records every line of `bytes` that a delimiter ends, in order. The
/// delimiters are found in batches of as many as `offsets` has slots.
/// The first reading that the table cannot take ends the scan; the readings
/// before it stay recorded.
pub fn scan_records(
    bytes: &[u8],
    table: &mut Container,
    offsets: &mut Vec<Option<usize>>,
) -> (outcome: Result<(), TableError>)
    requires
        old(table).wf(),
        old(offsets)@.len() > 0,
    ensures
        final(table).wf(),
        final(table).capacity() == old(table).capacity(),
        final(offsets)@.len() == old(offsets)@.len(),
        outcome is Ok <==> records_fit(old(table)@, readings(bytes@), old(table).capacity()),
        outcome is Ok ==> final(table)@ == record_all(old(table)@, readings(bytes@)),
        outcome matches Err(error) ==> exists|n: int| #[trigger]
            stops_at(old(table)@, final(table)@, readings(bytes@), old(table).capacity(), n)
                && error == refusal(final(table)@, readings(bytes@)[n].0),
{
    let len: usize = bytes.len();
    let ghost start = table@;
    let ghost capacity = table.capacity();
    let mut cursor: usize = 0;
    proof {
        assert(bytes@.take(0) =~= Seq::<u8>::empty());
    }
    while cursor < len
        invariant
            cursor <= len,
            len == bytes@.len(),
            table.wf(),
            table.capacity() == capacity,
            capacity == old(table).capacity(),
            start == old(table)@,
            offsets@.len() == old(offsets)@.len(),
            offsets@.len() > 0,
            cursor < len ==> is_boundary(bytes@, cursor as int),
            table@ == record_all(start, readings(bytes@.take(cursor as int))),
            records_fit(start, readings(bytes@.take(cursor as int)), capacity),
        decreases len - cursor,
    {
        let rest = slice_subrange(bytes, cursor, len);
        let found: usize = find_line_breaks(rest, offsets);
        let ghost breaks = line_breaks(rest@);
        if found == 0 {
            proof {
                assert forall|p: int| cursor <= p < len implies bytes@[p] != NEWLINE by {
                    if bytes@[p] == NEWLINE {
                        assert(rest@[p - cursor] == bytes@[p]);
                        lemma_line_breaks_complete(rest@, p - cursor);
                    }
                }
                lemma_lines_skip(bytes@, cursor as int, len as int);
            }
            cursor = len;
            continue;
        }
        let mut k: usize = 0;
        let mut current: usize = 0;
        while k < found
            invariant
                k <= found,
                found > 0,
                found == stored_count(rest@, offsets@.len()),
                found <= breaks.len(),
                breaks == line_breaks(rest@),
                rest@ == bytes@.subrange(cursor as int, len as int),
                cursor < len,
                len == bytes@.len(),
                current <= len - cursor,
                k == 0 ==> current == 0,
                k > 0 ==> current == breaks[k - 1] + 1,
                forall|i: int| 0 <= i < found ==> holds_offset(#[trigger] offsets@[i], breaks[i]),
                table.wf(),
                table.capacity() == capacity,
                capacity == old(table).capacity(),
                start == old(table)@,
                offsets@.len() == old(offsets)@.len(),
                is_boundary(bytes@, cursor + current),
                table@ == record_all(start, readings(bytes@.take(cursor + current))),
                records_fit(start, readings(bytes@.take(cursor + current)), capacity),
            decreases found - k,
        {
            assert(holds_offset(offsets@[k as int], breaks[k as int]));
            let pos: usize = offsets[k].unwrap();
            let ghost from = cursor + current;
            let ghost to = cursor + pos;
            proof {
                lemma_line_breaks_sound(rest@, k as int);
                if k > 0 {
                    lemma_line_breaks_ascending(rest@, k - 1, k as int);
                }
                assert(bytes@[to] == rest@[pos as int]);
                assert forall|p: int| from <= p < to implies bytes@[p] != NEWLINE by {
                    assert(bytes@[p] == rest@[p - cursor]);
                    lemma_line_breaks_gap(rest@, k as int, p - cursor);
                }
                lemma_lines_next(bytes@, from, to);
            }
            let line = slice_subrange(rest, current, pos);
            let ghost done = readings(bytes@.take(from));
            let ghost run = lines(bytes@.take(to + 1));
            proof {
                assert(line@ =~= bytes@.subrange(from, to));
                assert(run.last() == line@);
                assert(run.drop_last() =~= lines(bytes@.take(from)));
                if parse_record(line@) is Some {
                    let longer = done.push(parse_record(line@)->0);
                    assert(readings(bytes@.take(to + 1)) == longer);
                    assert(longer.drop_last() =~= done);
                } else {
                    assert(readings(bytes@.take(to + 1)) == done);
                }
            }
            let outcome = record_line(table, line);
            match outcome {
                Ok(()) => {},
                Err(error) => {
                    proof {
                        let whole = readings(bytes@);
                        let reading = parse_record(line@)->0;
                        let longer = readings(bytes@.take(to + 1));
                        assert(longer == done.push(reading));
                        lemma_readings_prefix(bytes@, to + 1);
                        let n = done.len() as int;
                        assert(whole.take(n + 1)[n] == whole[n]);
                        assert(whole.take(n) =~= done);
                        if records_fit(start, whole, capacity) {
                            lemma_fit_prefix(start, whole, capacity, n + 1);
                            assert(whole.take(n + 1).drop_last() =~= done);
                        }
                        assert(stops_at(start, table@, whole, capacity, n));
                    }
                    return Err(error);
                },
            }
            current = pos + 1;
            k += 1;
        }
        proof {
            lemma_line_breaks_sound(rest@, found - 1);
        }
        cursor = cursor + current;
    }
    proof {
        assert(bytes@.take(len as int) =~= bytes@);
    }
    Ok(())
}

/// Records the chunk of `data` whose nominal range starts at `c` and is
/// `chunk_size` long: every record whose first byte lies in that range, and
/// no other.
pub fn process_chunk(
    data: &[u8],
    c: usize,
    chunk_size: usize,
    table: &mut Container,
    offsets: &mut Vec<Option<usize>>,
) -> (outcome: Result<(), TableError>)
    requires
        c <= data@.len(),
        old(table).wf(),
        old(offsets)@.len() > 0,
    ensures
        final(table).wf(),
        final(table).capacity() == old(table).capacity(),
        final(offsets)@.len() == old(offsets)@.len(),
        outcome is Ok <==> records_fit(
            old(table)@,
            chunk_readings(data@, c as int, chunk_size as int),
            old(table).capacity(),
        ),
        outcome is Ok ==> final(table)@ == record_all(
            old(table)@,
            chunk_readings(data@, c as int, chunk_size as int),
        ),
        outcome matches Err(error) ==> exists|n: int| #[trigger]
            stops_at(
                old(table)@,
                final(table)@,
                chunk_readings(data@, c as int, chunk_size as int),
                old(table).capacity(),
                n,
            ) && error == refusal(
                final(table)@,
                chunk_readings(data@, c as int, chunk_size as int)[n].0,
            ),
{
    let (start, end) = find_start_end_bounds(data, c, chunk_size);
    let chunk = slice_subrange(data, start, end);
    scan_records(chunk, table, offsets)
}

/// What the chunks that start at each of `claims` read, one after the other,
/// each chunk `size` long.
pub open spec fn claimed_readings(data: Seq<u8>, size: int, claims: Seq<usize>) -> Seq<
    (Seq<u8>, int),
>
    decreases claims.len(),
{
    if claims.len() == 0 {
        Seq::empty()
    } else {
        claimed_readings(data, size, claims.drop_last()) + chunk_readings(
            data,
            claims.last() as int,
            size,
        )
    }
}

/// The claims of several workers, one worker's after the other's.
pub open spec fn all_claims(workers: Seq<Seq<usize>>) -> Seq<usize>
    decreases workers.len(),
{
    if workers.len() == 0 {
        Seq::empty()
    } else {
        all_claims(workers.drop_last()) + workers.last()
    }
}

/// What each of several workers reads: one run of readings for each worker.
pub open spec fn worker_parts(data: Seq<u8>, size: int, workers: Seq<Seq<usize>>) -> Seq<
    Seq<(Seq<u8>, int)>,
> {
    Seq::new(workers.len(), |i: int| claimed_readings(data, size, workers[i]))
}

/// Claims that cover the input in order: the first at zero, each next one
/// chunk size on, the last reaching the end.
pub open spec fn claims_in_order(data: Seq<u8>, size: int, claims: Seq<usize>) -> bool {
    &&& data.len() > 0 ==> claims.len() > 0
    &&& claims.len() > 0 ==> claims[0] == 0 && claims.last() + size >= data.len()
    &&& forall|k: int| 0 < k < claims.len() ==> #[trigger] claims[k] == claims[k - 1] + size
    &&& forall|k: int| 0 <= k < claims.len() ==> #[trigger] claims[k] < data.len()
}

/// The one-step function of `claimed_readings`, once the readings are
/// recorded: the table after one more chunk.
pub open spec fn recording_chunk(data: Seq<u8>, size: int) -> spec_fn(
    Map<Seq<u8>, Stats>,
    usize,
) -> Map<Seq<u8>, Stats> {
    |table: Map<Seq<u8>, Stats>, claim: usize|
        record_all(table, chunk_readings(data, claim as int, size))
}

/// Two runs of claims read, one after the other, what the joined run reads.
pub proof fn lemma_claimed_concat(data: Seq<u8>, size: int, first: Seq<usize>, second: Seq<usize>)
    ensures
        claimed_readings(data, size, first + second) == claimed_readings(data, size, first)
            + claimed_readings(data, size, second),
    decreases second.len(),
{
    if second.len() == 0 {
        assert(first + second =~= first);
        assert(claimed_readings(data, size, first) + claimed_readings(data, size, second)
            =~= claimed_readings(data, size, first));
    } else {
        lemma_claimed_concat(data, size, first, second.drop_last());
        assert((first + second).drop_last() =~= first + second.drop_last());
        assert(claimed_readings(data, size, first + second) =~= claimed_readings(data, size, first)
            + claimed_readings(data, size, second));
    }
}

/// Claims that follow each other from zero read what the chunk from the
/// start to the end of the last claim reads.
proof fn lemma_claims_start(data: Seq<u8>, size: int, claims: Seq<usize>)
    requires
        size > 0,
        claims.len() > 0,
        claims[0] == 0,
        forall|k: int| 0 < k < claims.len() ==> #[trigger] claims[k] == claims[k - 1] + size,
        forall|k: int| 0 <= k < claims.len() ==> #[trigger] claims[k] < data.len(),
    ensures
        claimed_readings(data, size, claims) == readings(
            chunk_bytes(data, 0, nominal_end(data, claims.last() as int, size)),
        ),
    decreases claims.len(),
{
    let front = claims.drop_last();
    let last = claims.last() as int;
    if front.len() == 0 {
        assert(claimed_readings(data, size, front) =~= Seq::<(Seq<u8>, int)>::empty());
        assert(claimed_readings(data, size, claims) =~= chunk_readings(data, 0, size));
    } else {
        assert forall|k: int| 0 < k < front.len() implies #[trigger] front[k] == front[k - 1]
            + size by {
            assert(claims[k] == claims[k - 1] + size);
        }
        assert forall|k: int| 0 <= k < front.len() implies #[trigger] front[k] < data.len() by {
            assert(claims[k] < data.len());
        }
        lemma_claims_start(data, size, front);
        assert(claims[claims.len() - 1] == claims[claims.len() - 2] + size);
        assert(front.last() == claims[claims.len() - 2]);
        assert(nominal_end(data, front.last() as int, size) == last);
        lemma_chunks_join(data, 0, last, nominal_end(data, last, size));
    }
}

/// Claims that cover the input in order read exactly what the input holds.
pub proof fn lemma_claims_in_order(data: Seq<u8>, size: int, claims: Seq<usize>)
    requires
        size > 0,
        claims_in_order(data, size, claims),
    ensures
        claimed_readings(data, size, claims) == readings(data),
{
    if claims.len() == 0 {
        assert(data =~= Seq::<u8>::empty());
    } else {
        lemma_claims_start(data, size, claims);
        lemma_align(data, data.len() as int);
        assert(chunk_bytes(data, 0, data.len() as int) =~= data);
    }
}

/// Recording what a run of claims reads is the left fold of
/// `recording_chunk`.
proof fn lemma_claimed_as_fold(
    data: Seq<u8>,
    size: int,
    table: Map<Seq<u8>, Stats>,
    claims: Seq<usize>,
)
    ensures
        record_all(table, claimed_readings(data, size, claims)) == claims.fold_left(
            table,
            recording_chunk(data, size),
        ),
    decreases claims.len(),
{
    if claims.len() > 0 {
        lemma_claimed_as_fold(data, size, table, claims.drop_last());
        lemma_record_all_concat(
            table,
            claimed_readings(data, size, claims.drop_last()),
            chunk_readings(data, claims.last() as int, size),
        );
    }
}

/// What a table holds after a run of claimed chunks does not depend on the
/// order of the claims.
pub proof fn lemma_claims_any_order(
    data: Seq<u8>,
    size: int,
    table: Map<Seq<u8>, Stats>,
    left: Seq<usize>,
    right: Seq<usize>,
)
    requires
        left.to_multiset() == right.to_multiset(),
    ensures
        record_all(table, claimed_readings(data, size, left)) == record_all(
            table,
            claimed_readings(data, size, right),
        ),
{
    lemma_claimed_as_fold(data, size, table, left);
    lemma_claimed_as_fold(data, size, table, right);
    let step = recording_chunk(data, size);
    assert forall|x: usize, y: usize, start: Map<Seq<u8>, Stats>| #[trigger]
        step(step(start, x), y) == step(step(start, y), x) by {
        let first = chunk_readings(data, x as int, size);
        let second = chunk_readings(data, y as int, size);
        lemma_record_all_concat(start, first, second);
        lemma_record_all_concat(start, second, first);
        vstd::seq_lib::lemma_multiset_commutative(first, second);
        vstd::seq_lib::lemma_multiset_commutative(second, first);
        assert(first.to_multiset().add(second.to_multiset()) =~= second.to_multiset().add(
            first.to_multiset(),
        ));
        lemma_record_all_any_order(start, first + second, second + first);
    }
    vstd::seq_lib::lemma_fold_left_permutation(left, right, step, table);
}

/// What the workers read, one worker after the other, is what all their
/// claims read.
proof fn lemma_worker_parts(data: Seq<u8>, size: int, workers: Seq<Seq<usize>>)
    ensures
        concat_all(worker_parts(data, size, workers)) == claimed_readings(
            data,
            size,
            all_claims(workers),
        ),
    decreases workers.len(),
{
    if workers.len() > 0 {
        lemma_worker_parts(data, size, workers.drop_last());
        assert(worker_parts(data, size, workers).drop_last() =~= worker_parts(
            data,
            size,
            workers.drop_last(),
        ));
        lemma_claimed_concat(data, size, all_claims(workers.drop_last()), workers.last());
    }
}

/// A claim beyond the input reads nothing.
pub proof fn lemma_beyond_reads_nothing(data: Seq<u8>, claim: int, size: int)
    requires
        size > 0,
        claim >= data.len(),
    ensures
        chunk_readings(data, claim, size) == Seq::<(Seq<u8>, int)>::empty(),
{
    assert(chunk_bytes(data, claim, nominal_end(data, claim, size)) =~= Seq::<u8>::empty());
}

/// The claims of a run that lie within an input of `len` bytes, in order.
pub open spec fn within(len: int, claims: Seq<usize>) -> Seq<usize>
    decreases claims.len(),
{
    if claims.len() == 0 {
        Seq::empty()
    } else if claims.last() < len {
        within(len, claims.drop_last()).push(claims.last())
    } else {
        within(len, claims.drop_last())
    }
}

/// A run of claims reads what its claims within the input read.
pub proof fn lemma_claims_within(data: Seq<u8>, size: int, claims: Seq<usize>)
    requires
        size > 0,
    ensures
        claimed_readings(data, size, claims) == claimed_readings(
            data,
            size,
            within(data.len() as int, claims),
        ),
    decreases claims.len(),
{
    if claims.len() > 0 {
        let front = claims.drop_last();
        lemma_claims_within(data, size, front);
        let kept = within(data.len() as int, front);
        if claims.last() < data.len() {
            assert(kept.push(claims.last()).drop_last() =~= kept);
        } else {
            lemma_beyond_reads_nothing(data, claims.last() as int, size);
            assert(claimed_readings(data, size, front) + Seq::<(Seq<u8>, int)>::empty()
                =~= claimed_readings(data, size, front));
        }
    }
}

/// Whichever worker claims which chunk, and in whatever order: as long as
/// the workers' claims within the input, taken together, are the chunk
/// starts of the input, each once, the workers' tables merge into the table
/// of the input read in one go.
pub proof fn lemma_workers_cover(
    data: Seq<u8>,
    size: int,
    workers: Seq<Seq<usize>>,
    ordered: Seq<usize>,
)
    requires
        size > 0,
        claims_in_order(data, size, ordered),
        within(data.len() as int, all_claims(workers)).to_multiset() == ordered.to_multiset(),
    ensures
        merge_each(worker_parts(data, size, workers)) == aggregate(readings(data)),
{
    lemma_merge_each(worker_parts(data, size, workers));
    lemma_worker_parts(data, size, workers);
    lemma_claims_within(data, size, all_claims(workers));
    lemma_claims_any_order(
        data,
        size,
        Map::empty(),
        within(data.len() as int, all_claims(workers)),
        ordered,
    );
    lemma_claims_in_order(data, size, ordered);
}

/// The most claims that one worker makes on an input of `len` bytes in
/// chunks of `size`: as many as the input has whole chunks, and one more.
pub open spec fn claim_budget(len: int, size: int) -> int {
    len / size + 1
}

/// One worker's scan. The worker claims from the shared cursor, again and
/// again: a claim within the input is a chunk's start, and that chunk is
/// recorded; a claim beyond the input ends the scan. Every value that the
/// cursor hands out is added to `claims`, in order, the last one too.
///
/// Which values a worker gets depends on the other workers. Whatever they
/// are, the worker claims at least once, goes on only after a claim within
/// the input, and stops only at a claim beyond it or when its claims have
/// reached `claim_budget`; the table then holds exactly what the claimed
/// chunks read. The first reading that the table cannot take ends the scan
/// with its error, the chunk it stands in being the last of `claims`.
pub fn worker(
    data: &[u8],
    cursor: &Cursor,
    chunk_size: usize,
    table: &mut Container,
    offsets: &mut Vec<Option<usize>>,
    claims: &mut Vec<usize>,
) -> (outcome: Result<(), TableError>)
    requires
        chunk_size > 0,
        old(table).wf(),
        old(offsets)@.len() > 0,
    ensures
        final(table).wf(),
        final(table).capacity() == old(table).capacity(),
        final(offsets)@.len() == old(offsets)@.len(),
        old(claims)@.len() < final(claims)@.len(),
        final(claims)@.take(old(claims)@.len() as int) == old(claims)@,
        forall|k: int|
            old(claims)@.len() <= k < final(claims)@.len() - 1 ==> #[trigger] final(claims)@[k]
                < data@.len(),
        outcome is Ok ==> final(claims)@.last() >= data@.len() || final(claims)@.skip(
            old(claims)@.len() as int,
        ).len() == claim_budget(data@.len() as int, chunk_size as int),
        outcome is Ok ==> final(table)@ == record_all(
            old(table)@,
            claimed_readings(
                data@,
                chunk_size as int,
                final(claims)@.skip(old(claims)@.len() as int),
            ),
        ),
        outcome is Err ==> final(claims)@.last() < data@.len(),
        outcome matches Err(error) ==> exists|n: int| #[trigger]
            stops_at(
                record_all(
                    old(table)@,
                    claimed_readings(
                        data@,
                        chunk_size as int,
                        final(claims)@.skip(old(claims)@.len() as int).drop_last(),
                    ),
                ),
                final(table)@,
                chunk_readings(data@, final(claims)@.last() as int, chunk_size as int),
                old(table).capacity(),
                n,
            ) && error == refusal(
                final(table)@,
                chunk_readings(data@, final(claims)@.last() as int, chunk_size as int)[n].0,
            ),
{
    let len: usize = data.len();
    let ghost start = table@;
    let ghost earlier = claims@;
    let whole_chunks: usize = len / chunk_size;
    let mut budget: usize = whole_chunks;
    proof {
        assert(claims@.skip(earlier.len() as int) =~= Seq::<usize>::empty());
        assert(claims@.take(earlier.len() as int) =~= earlier);
    }
    loop
        invariant
            len == data@.len(),
            chunk_size > 0,
            whole_chunks == len / chunk_size,
            table.wf(),
            table.capacity() == old(table).capacity(),
            offsets@.len() == old(offsets)@.len(),
            offsets@.len() > 0,
            start == old(table)@,
            earlier == old(claims)@,
            earlier.len() <= claims@.len(),
            claims@.len() - earlier.len() + budget == whole_chunks,
            claims@.take(earlier.len() as int) == earlier,
            forall|k: int| earlier.len() <= k < claims@.len() ==> #[trigger] claims@[k] < len,
            table@ == record_all(
                start,
                claimed_readings(data@, chunk_size as int, claims@.skip(earlier.len() as int)),
            ),
        decreases budget,
    {
        let c: usize = cursor.claim(chunk_size);
        let ghost done = claims@.skip(earlier.len() as int);
        claims.push(c);
        let ghost new = claims@.skip(earlier.len() as int);
        let ghost part = chunk_readings(data@, c as int, chunk_size as int);
        proof {
            assert(new.drop_last() =~= done);
            assert(new.last() == c);
            assert(claims@.take(earlier.len() as int) =~= earlier);
            assert(claims@.last() == c);
            lemma_record_all_concat(start, claimed_readings(data@, chunk_size as int, done), part);
        }
        if c >= len {
            proof {
                lemma_beyond_reads_nothing(data@, c as int, chunk_size as int);
            }
            return Ok(());
        }
        match process_chunk(data, c, chunk_size, table, offsets) {
            Ok(()) => {},
            Err(error) => {
                return Err(error);
            },
        }
        if budget == 0 {
            return Ok(());
        }
        budget -= 1;
    }
}

} // verus!
