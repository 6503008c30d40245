//! The consumer of the queue transport: it takes line buffers from a ring,
//! records each in its own table, and writes the report when the stream has
//! ended.

use crate::aggregate::lemma_fit_prefix;
use crate::aggregate::record_all;
use crate::aggregate::records_fit;
use crate::aggregate::stops_at;
use crate::container::can_record;
use crate::container::record;
use crate::container::refusal;
use crate::container::Container;
use crate::container::TableError;
use crate::reader::parse_record;
use crate::reader::readings_of;
use crate::reader::record_line;
use crate::reducer::entries_of;
use crate::reducer::report_text;
use crate::reducer::sorted_by_key;
use crate::reducer::sorted_entries;
use crate::reducer::write_lines;
use crate::ring_buffer::Dequeued;
use crate::ring_buffer::RingBuffer;
use crate::station::StationAverage;
use crate::station::Stats;
use vstd::prelude::*;

verus! {

/// The number of slots of the ring between the reader and a worker.
pub const CHANNEL_SIZE: usize = 1;

/// The bytes of each buffer of a run.
pub open spec fn line_views(buffers: Seq<Vec<u8>>) -> Seq<Seq<u8>> {
    Seq::new(buffers.len(), |i: int| buffers[i]@)
}

/// A worker: its own table and the path that its report goes to.
pub struct Worker {
    container: Container,
    output: String,
}

impl Worker {
    /// What the worker's table holds.
    pub closed spec fn view(&self) -> Map<Seq<u8>, Stats> {
        self.container@
    }

    /// The number of slots of the worker's table.
    pub closed spec fn capacity(&self) -> nat {
        self.container.capacity()
    }

    /// The path that the report goes to.
    pub closed spec fn path(&self) -> Seq<char> {
        self.output@
    }

    /// The worker's table is valid.
    pub closed spec fn wf(&self) -> bool {
        self.container.wf()
    }

    /// A worker with an empty table.
    pub fn new(out: String) -> (worker: Worker)
        ensures
            worker.wf(),
            worker@ == Map::<Seq<u8>, Stats>::empty(),
            worker.path() == out@,
    {
        Worker { container: Container::new(), output: out }
    }

    /// Records what one line buffer says. A buffer that records nothing
    /// changes nothing and is no error.
    pub fn record(&mut self, bytes: &[u8]) -> (outcome: Result<(), TableError>)
        requires
            old(self).wf(),
        ensures
            final(self).wf(),
            final(self).capacity() == old(self).capacity(),
            final(self).path() == old(self).path(),
            outcome is Err ==> final(self)@ == old(self)@,
            match parse_record(bytes@) {
                None => outcome is Ok && final(self)@ == old(self)@,
                Some(reading) => {
                    &&& outcome is Ok <==> can_record(
                        old(self)@,
                        reading.0,
                        reading.1,
                        old(self).capacity(),
                    )
                    &&& outcome is Ok ==> final(self)@ == record(old(self)@, reading.0, reading.1)
                    &&& outcome matches Err(error) ==> error == refusal(old(self)@, reading.0)
                },
            },
    {
        record_line(&mut self.container, bytes)
    }

    /// Takes every buffer that the ring holds, oldest first, and records what
    /// its line says. Answers whether the stream has ended: `true` once the
    /// ring is closed, `false` while more may come and the caller has to
    /// try again. The first reading that the table cannot take ends the
    /// call with its error; its buffer is gone from the ring.
    pub fn listen(&mut self, ring: &mut RingBuffer<Vec<u8>>) -> (outcome: Result<bool, TableError>)
        requires
            old(self).wf(),
            old(ring).wf(),
        ensures
            final(self).wf(),
            final(ring).wf(),
            final(self).capacity() == old(self).capacity(),
            final(self).path() == old(self).path(),
            final(ring)@.capacity == old(ring)@.capacity,
            final(ring)@.closed == old(ring)@.closed,
            outcome is Ok <==> records_fit(
                old(self)@,
                readings_of(line_views(old(ring)@.items)),
                old(self).capacity(),
            ),
            outcome matches Ok(ended) ==> {
                &&& ended == old(ring)@.closed
                &&& final(ring)@.items.len() == 0
                &&& final(self)@ == record_all(
                    old(self)@,
                    readings_of(line_views(old(ring)@.items)),
                )
            },
            outcome matches Err(error) ==> exists|n: int| #[trigger]
                stops_at(
                    old(self)@,
                    final(self)@,
                    readings_of(line_views(old(ring)@.items)),
                    old(self).capacity(),
                    n,
                ) && error == refusal(
                    final(self)@,
                    readings_of(line_views(old(ring)@.items))[n].0,
                ),
            outcome is Err ==> exists|taken: int|
                0 < taken <= old(ring)@.items.len() && final(ring)@.items
                    == #[trigger] old(ring)@.items.skip(taken),
    {
        let ghost start = self@;
        let ghost queued = ring@.items;
        let ghost all = line_views(queued);
        let ghost capacity = self.capacity();
        let ghost mut taken: int = 0;
        proof {
            assert(all.take(0) =~= Seq::<Seq<u8>>::empty());
            assert(queued.skip(0) =~= queued);
        }
        loop
            invariant
                self.wf(),
                ring.wf(),
                self.capacity() == capacity,
                capacity == old(self).capacity(),
                self.path() == old(self).path(),
                start == old(self)@,
                queued == old(ring)@.items,
                all == line_views(queued),
                ring@.capacity == old(ring)@.capacity,
                ring@.closed == old(ring)@.closed,
                0 <= taken <= queued.len(),
                ring@.items == queued.skip(taken),
                self@ == record_all(start, readings_of(all.take(taken))),
                records_fit(start, readings_of(all.take(taken)), capacity),
            decreases queued.len() - taken,
        {
            match ring.try_dequeue() {
                Dequeued::Item(bytes) => {
                    proof {
                        assert(bytes == queued[taken]);
                        assert(all.take(taken + 1).drop_last() =~= all.take(taken));
                        assert(all.take(taken + 1).last() == bytes@);
                        assert(queued.skip(taken).drop_first() =~= queued.skip(taken + 1));
                        let done = readings_of(all.take(taken));
                        if parse_record(bytes@) is Some {
                            assert(done.push(parse_record(bytes@)->0).drop_last() =~= done);
                        }
                    }
                    match record_line(&mut self.container, bytes.as_slice()) {
                        Ok(()) => {},
                        Err(error) => {
                            proof {
                                let whole = readings_of(all);
                                let longer = readings_of(all.take(taken + 1));
                                crate::reader::lemma_readings_of_prefix(all, taken + 1);
                                let done = readings_of(all.take(taken));
                                let n = done.len() as int;
                                assert(longer == done.push(parse_record(bytes@)->0));
                                assert(whole.take(n + 1)[n] == whole[n]);
                                assert(whole.take(n) =~= done);
                                if records_fit(start, whole, capacity) {
                                    lemma_fit_prefix(start, whole, capacity, n + 1);
                                    assert(whole.take(n + 1).drop_last() =~= done);
                                }
                                assert(stops_at(start, self@, whole, capacity, n));
                                assert(ring@.items == queued.skip(taken + 1));
                            }
                            return Err(error);
                        },
                    }
                    proof {
                        taken = taken + 1;
                    }
                },
                Dequeued::Empty => {
                    proof {
                        assert(all.take(taken) =~= all);
                    }
                    return Ok(false);
                },
                Dequeued::Closed => {
                    proof {
                        assert(all.take(taken) =~= all);
                    }
                    return Ok(true);
                },
            }
        }
    }

    /// The report: one line for each key of the worker's table, in the order
    /// of the keys.
    pub fn write(&self) -> (text: Vec<u8>)
        requires
            self.wf(),
        ensures
            exists|entries: Seq<StationAverage>|
                sorted_by_key(entries) && entries_of(entries, self@) && text@
                    == #[trigger] report_text(entries),
    {
        let entries = sorted_entries(&self.container);
        write_lines(&entries)
    }

    /// The path that the report goes to.
    pub fn output(&self) -> (out: &String)
        ensures
            out@ == self.path(),
    {
        &self.output
    }

    /// The worker's table.
    pub fn container(&self) -> (table: &Container)
        requires
            self.wf(),
        ensures
            table.wf(),
            table@ == self@,
            table.capacity() == self.capacity(),
    {
        &self.container
    }
}

} // verus!
