//! Delimiter discovery: the ordered offsets of every newline in a byte range,
//! found lane by lane through a bitmask and byte by byte in the tail.

use vstd::prelude::*;

verus! {

/// The byte that ends a record.
pub const NEWLINE: u8 = 0x0a;

/// Bytes compared at once.
pub const LANE_WIDTH: usize = 16;

/// The offsets of all delimiters in `s`, ascending.
pub open spec fn line_breaks(s: Seq<u8>) -> Seq<int>
    decreases s.len(),
{
    if s.len() == 0 {
        Seq::empty()
    } else if s.last() == NEWLINE {
        line_breaks(s.drop_last()).push(s.len() - 1)
    } else {
        line_breaks(s.drop_last())
    }
}

/// Whether bit `j` of `mask` is set.
pub open spec fn bit_set(mask: u32, j: u32) -> bool {
    (mask >> j) & 1 == 1
}

/// The mask of one lane: bit `j` is set exactly where byte `base + j` is a
/// delimiter.
pub open spec fn is_lane_mask(s: Seq<u8>, base: int, mask: u32) -> bool {
    forall|j: u32|
        0 <= j < 32 ==> (#[trigger] bit_set(mask, j) <==> (j < LANE_WIDTH && s[base + j]
            == NEWLINE))
}

/// Every offset listed is a delimiter's offset, below the length.
pub proof fn lemma_line_breaks_sound(s: Seq<u8>, k: int)
    requires
        0 <= k < line_breaks(s).len(),
    ensures
        0 <= line_breaks(s)[k] < s.len(),
        s[line_breaks(s)[k]] == NEWLINE,
        line_breaks(s).len() <= s.len(),
    decreases s.len(),
{
    if s.len() > 0 {
        let front = s.drop_last();
        lemma_line_breaks_len(front);
        if k < line_breaks(front).len() {
            lemma_line_breaks_sound(front, k);
        }
    }
}

/// There are no more delimiters than bytes.
pub proof fn lemma_line_breaks_len(s: Seq<u8>)
    ensures
        line_breaks(s).len() <= s.len(),
    decreases s.len(),
{
    if s.len() > 0 {
        lemma_line_breaks_len(s.drop_last());
    }
}

/// The offsets are strictly ascending.
pub proof fn lemma_line_breaks_ascending(s: Seq<u8>, j: int, k: int)
    requires
        0 <= j < k < line_breaks(s).len(),
    ensures
        line_breaks(s)[j] < line_breaks(s)[k],
    decreases s.len(),
{
    if s.len() > 0 {
        let front = s.drop_last();
        if k < line_breaks(front).len() {
            lemma_line_breaks_ascending(front, j, k);
        } else {
            lemma_line_breaks_sound(front, j);
        }
    }
}

/// Every delimiter's offset is listed.
pub proof fn lemma_line_breaks_complete(s: Seq<u8>, p: int)
    requires
        0 <= p < s.len(),
        s[p] == NEWLINE,
    ensures
        line_breaks(s).contains(p),
    decreases s.len(),
{
    let front = s.drop_last();
    if p == s.len() - 1 {
        assert(line_breaks(s).last() == p);
    } else {
        lemma_line_breaks_complete(front, p);
        let k = choose|k: int| 0 <= k < line_breaks(front).len() && line_breaks(front)[k] == p;
        assert(line_breaks(s)[k] == p);
    }
}

/// Between one listed offset and the next there is no delimiter, and none
/// before the first.
pub proof fn lemma_line_breaks_gap(s: Seq<u8>, k: int, p: int)
    requires
        0 <= k < line_breaks(s).len(),
        0 <= p < line_breaks(s)[k],
        k > 0 ==> line_breaks(s)[k - 1] < p,
    ensures
        s[p] != NEWLINE,
{
    lemma_line_breaks_sound(s, k);
    if s[p] == NEWLINE {
        lemma_line_breaks_complete(s, p);
        let m = choose|m: int| 0 <= m < line_breaks(s).len() && line_breaks(s)[m] == p;
        if m < k {
            if m < k - 1 {
                lemma_line_breaks_ascending(s, m, k - 1);
            }
        } else if m > k {
            lemma_line_breaks_ascending(s, k, m);
        }
    }
}

/// The delimiters of a prefix are a prefix of the delimiters.
pub proof fn lemma_line_breaks_prefix(s: Seq<u8>, n: int)
    requires
        0 <= n <= s.len(),
    ensures
        line_breaks(s.take(n)).len() <= line_breaks(s).len(),
        line_breaks(s.take(n)) == line_breaks(s).take(line_breaks(s.take(n)).len() as int),
    decreases s.len() - n,
{
    if n == s.len() {
        assert(s.take(n) =~= s);
        assert(line_breaks(s).take(line_breaks(s).len() as int) =~= line_breaks(s));
    } else {
        lemma_line_breaks_prefix(s, n + 1);
        assert(s.take(n + 1).drop_last() =~= s.take(n));
        let longer = line_breaks(s.take(n + 1));
        let shorter = line_breaks(s.take(n));
        assert(shorter =~= longer.take(shorter.len() as int));
        assert(shorter =~= line_breaks(s).take(shorter.len() as int));
    }
}

/// Extending a prefix by a byte that is no delimiter adds no offset; by a
/// delimiter, its offset.
pub proof fn lemma_line_breaks_step(s: Seq<u8>, n: int)
    requires
        0 <= n < s.len(),
    ensures
        s[n] == NEWLINE ==> line_breaks(s.take(n + 1)) == line_breaks(s.take(n)).push(n),
        s[n] != NEWLINE ==> line_breaks(s.take(n + 1)) == line_breaks(s.take(n)),
{
    assert(s.take(n + 1).drop_last() =~= s.take(n));
}

/// A stretch without delimiters adds no offset.
pub proof fn lemma_line_breaks_skip(s: Seq<u8>, from: int, to: int)
    requires
        0 <= from <= to <= s.len(),
        forall|p: int| from <= p < to ==> s[p] != NEWLINE,
    ensures
        line_breaks(s.take(to)) == line_breaks(s.take(from)),
    decreases to - from,
{
    if from < to {
        lemma_line_breaks_skip(s, from, to - 1);
        lemma_line_breaks_step(s, to - 1);
    }
}

/// Setting bit `j` changes bit `j` and no other.
proof fn lemma_set_bit(mask: u32, j: u32, k: u32)
    by (bit_vector)
    requires
        j < 32,
        k < 32,
    ensures
        (((mask | (1u32 << j)) >> k) & 1 == 1) <==> (k == j || (mask >> k) & 1 == 1),
{
}

/// Where `low` is the lowest set bit, `mask & (mask - 1)` clears it and no
/// other.
proof fn lemma_clear_lowest_bit(mask: u32, low: u32, k: u32)
    by (bit_vector)
    requires
        low < 32,
        k < 32,
        (mask >> low) & 1 == 1,
        mask << ((32 - low) as u32) == 0,
    ensures
        mask >= 1,
        (((mask & ((mask - 1) as u32)) >> k) & 1 == 1) <==> (k != low && (mask >> k) & 1 == 1),
{
}

/// Zero has no bit set.
proof fn lemma_zero_mask(k: u32)
    by (bit_vector)
    requires
        k < 32,
    ensures
        (0u32 >> k) & 1 == 0,
{
}

/// Compares one lane of bytes with the delimiter and gathers the outcome in a
/// bitmask.
pub fn lane_mask(chunk: &[u8], base: usize) -> (mask: u32)
    requires
        base + LANE_WIDTH <= chunk.len(),
    ensures
        is_lane_mask(chunk@, base as int, mask),
{
    let mut mask: u32 = 0;
    let mut j: u32 = 0;
    proof {
        assert forall|k: u32| 0 <= k < 32 implies !#[trigger] bit_set(mask, k) by {
            lemma_zero_mask(k);
        }
    }
    while j < 16
        invariant
            j <= 16,
            base + LANE_WIDTH <= chunk.len(),
            forall|k: u32|
                0 <= k < 32 ==> (#[trigger] bit_set(mask, k) <==> (k < j && chunk@[base + k]
                    == NEWLINE)),
        decreases 16 - j,
    {
        if chunk[base + j as usize] == NEWLINE {
            let ghost before = mask;
            mask = mask | (1u32 << j);
            proof {
                assert forall|k: u32| 0 <= k < 32 implies (#[trigger] bit_set(mask, k) <==> (k < j
                    + 1 && chunk@[base + k] == NEWLINE)) by {
                    lemma_set_bit(before, j, k);
                    assert(bit_set(before, k) <==> (k < j && chunk@[base + k] == NEWLINE));
                }
            }
        }
        j += 1;
    }
    mask
}

/// The number of offsets that fit a buffer of `capacity` slots.
pub open spec fn stored_count(s: Seq<u8>, capacity: nat) -> nat {
    if line_breaks(s).len() <= capacity {
        line_breaks(s).len()
    } else {
        capacity
    }
}

/// What the buffer holds once the first `n` bytes of `s` are scanned: the
/// offsets found so far, as far as they fit.
pub open spec fn holds_breaks(
    buffer: Seq<Option<usize>>,
    s: Seq<u8>,
    n: int,
    counter: nat,
) -> bool {
    &&& counter == stored_count(s.take(n), buffer.len())
    &&& forall|k: int| 0 <= k < counter ==> holds_offset(#[trigger] buffer[k], line_breaks(s)[k])
}

/// A slot that holds the offset `at`.
pub open spec fn holds_offset(slot: Option<usize>, at: int) -> bool {
    slot matches Some(offset) && offset == at
}

/// A delimiter at `p` is the next offset after those before `p`.
pub proof fn lemma_break_at(s: Seq<u8>, p: int)
    requires
        0 <= p < s.len(),
        s[p] == NEWLINE,
    ensures
        line_breaks(s.take(p)).len() < line_breaks(s).len(),
        line_breaks(s)[line_breaks(s.take(p)).len() as int] == p,
        line_breaks(s.take(p + 1)).len() == line_breaks(s.take(p)).len() + 1,
{
    lemma_line_breaks_step(s, p);
    lemma_line_breaks_prefix(s, p + 1);
    let n = line_breaks(s.take(p)).len() as int;
    let longer = line_breaks(s.take(p + 1));
    assert(longer[n] == p);
    assert(line_breaks(s).take(longer.len() as int)[n] == line_breaks(s)[n]);
}

/// Lists the offsets of all delimiters of `chunk` in `new_lines`, ascending,
/// and ends the list with empty slots. Offsets beyond the buffer's length are
/// left out, and the scan stops once the buffer is full. Returns how many
/// offsets the buffer holds.
pub fn find_line_breaks(chunk: &[u8], new_lines: &mut Vec<Option<usize>>) -> (found: usize)
    ensures
        final(new_lines)@.len() == old(new_lines)@.len(),
        found == stored_count(chunk@, old(new_lines)@.len()),
        forall|k: int|
            0 <= k < found ==> holds_offset(
                #[trigger] final(new_lines)@[k],
                line_breaks(chunk@)[k],
            ),
        forall|k: int|
            found <= k < final(new_lines)@.len() ==> #[trigger] final(new_lines)@[k] is None,
{
    let capacity: usize = new_lines.len();
    let len: usize = chunk.len();
    let mut i: usize = 0;
    let mut counter: usize = 0;
    proof {
        assert(chunk@.take(0) =~= Seq::<u8>::empty());
    }
    while len - i >= LANE_WIDTH && counter < capacity
        invariant
            i <= len,
            len == chunk@.len(),
            capacity == new_lines@.len(),
            counter <= capacity,
            holds_breaks(new_lines@, chunk@, i as int, counter as nat),
        decreases len - i,
    {
        let mut mask: u32 = lane_mask(chunk, i);
        let ghost mut done: int = 0;
        while mask != 0
            invariant
                i + LANE_WIDTH <= len,
                len == chunk@.len(),
                capacity == new_lines@.len(),
                counter <= capacity,
                0 <= done <= LANE_WIDTH,
                forall|k: u32|
                    0 <= k < 32 ==> (#[trigger] bit_set(mask, k) <==> (done <= k < LANE_WIDTH
                        && chunk@[i + k] == NEWLINE)),
                holds_breaks(new_lines@, chunk@, i + done, counter as nat),
            decreases LANE_WIDTH - done,
        {
            let low: u32 = mask.trailing_zeros();
            proof {
                vstd::std_specs::bits::axiom_u32_trailing_zeros(mask);
                assert(bit_set(mask, low));
                assert forall|p: int| i + done <= p < i + low implies chunk@[p] != NEWLINE by {
                    let k = (p - i) as u32;
                    assert(!bit_set(mask, k));
                }
                lemma_line_breaks_skip(chunk@, i + done, i + low);
                lemma_break_at(chunk@, i + low);
            }
            if counter < capacity {
                new_lines.set(counter, Some(i + low as usize));
                counter += 1;
            }
            let ghost before = mask;
            mask = mask & (mask - 1);
            proof {
                assert forall|k: u32| 0 <= k < 32 implies (#[trigger] bit_set(mask, k) <==> (low
                    + 1 <= k < LANE_WIDTH && chunk@[i + k] == NEWLINE)) by {
                    lemma_clear_lowest_bit(before, low, k);
                    assert(bit_set(before, k) <==> (done <= k < LANE_WIDTH && chunk@[i + k]
                        == NEWLINE));
                    if k < low {
                        assert(!bit_set(before, k));
                    }
                }
                done = low + 1;
            }
        }
        proof {
            assert forall|p: int| i + done <= p < i + LANE_WIDTH implies chunk@[p] != NEWLINE by {
                let k = (p - i) as u32;
                lemma_zero_mask(k);
                assert(!bit_set(mask, k));
            }
            lemma_line_breaks_skip(chunk@, i + done, i + LANE_WIDTH);
        }
        i += LANE_WIDTH;
    }
    while i < len && counter < capacity
        invariant
            i <= len,
            len == chunk@.len(),
            capacity == new_lines@.len(),
            counter <= capacity,
            holds_breaks(new_lines@, chunk@, i as int, counter as nat),
        decreases len - i,
    {
        proof {
            lemma_line_breaks_step(chunk@, i as int);
            if chunk@[i as int] == NEWLINE {
                lemma_break_at(chunk@, i as int);
            }
        }
        if chunk[i] == NEWLINE {
            if counter < capacity {
                new_lines.set(counter, Some(i));
                counter += 1;
            }
        }
        i += 1;
    }
    proof {
        if i == len {
            assert(chunk@.take(len as int) =~= chunk@);
        } else {
            // The buffer is full: whatever follows would be left out anyway.
            lemma_line_breaks_prefix(chunk@, i as int);
        }
    }
    let mut fill: usize = counter;
    while fill < capacity
        invariant
            counter <= fill <= capacity,
            capacity == new_lines@.len(),
            forall|k: int|
                0 <= k < counter ==> holds_offset(#[trigger] new_lines@[k], line_breaks(chunk@)[k]),
            forall|k: int| counter <= k < fill ==> #[trigger] new_lines@[k] is None,
        decreases capacity - fill,
    {
        new_lines.set(fill, None);
        fill += 1;
    }
    counter
}

} // verus!
