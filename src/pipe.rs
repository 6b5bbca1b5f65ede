//! A bounded single-producer / single-consumer byte pipe.
//!
//! The pipe is a strict linear buffer: writes append at the write cursor
//! until it reaches the capacity, reads hand out the bytes between the two
//! cursors, and both cursors return to zero as soon as the reader has caught
//! up with the writer.  The waker of a suspended party is kept as an opaque
//! value of type `W`; the caller wakes whatever a call hands back.
use vstd::prelude::*;

verus! {

/// What a call on the pipe gives back: a result now, or a suspension.
pub enum PipePoll<T> {
    Ready(T),
    Pending,
}

/// The abstract state of a pipe: the bytes written and not yet read, the
/// write cursor, the capacity, and the two closing flags.
pub struct PipeModel {
    pub pending: Seq<u8>,
    pub write: nat,
    pub cap: nat,
    pub shutdown: bool,
    pub writer_dropped: bool,
}

/// One operation on a pipe, as a party performs it.
pub enum PipeOp {
    Write(Seq<u8>),
    Read(nat),
    Shutdown,
    DropWriter,
}

pub open spec fn model_wf(m: PipeModel) -> bool {
    &&& m.pending.len() <= m.write <= m.cap
    &&& m.pending.len() == 0 ==> m.write == 0
}

pub open spec fn min_nat(a: nat, b: nat) -> nat {
    if a <= b { a } else { b }
}

/// The number of bytes a write of `len` bytes takes, or `None` when it parks.
pub open spec fn write_amount(m: PipeModel, len: nat) -> Option<nat> {
    if m.shutdown {
        Some(0)
    } else if m.write < m.cap {
        Some(min_nat((m.cap - m.write) as nat, len))
    } else {
        None
    }
}

/// The state after a write of `bytes`.
pub open spec fn after_write(m: PipeModel, bytes: Seq<u8>) -> PipeModel {
    match write_amount(m, bytes.len()) {
        Some(n) => PipeModel {
            pending: m.pending + bytes.subrange(0, n as int),
            write: m.write + n,
            ..m
        },
        None => m,
    }
}

/// The bytes a read with room for `room` bytes hands out, or `None` when it
/// parks.  An empty result is the end of the stream.
pub open spec fn read_result(m: PipeModel, room: nat) -> Option<Seq<u8>> {
    if m.pending.len() > 0 {
        Some(m.pending.subrange(0, min_nat(room, m.pending.len()) as int))
    } else if m.shutdown || m.writer_dropped {
        Some(Seq::empty())
    } else {
        None
    }
}

/// The state after a read with room for `room` bytes.
pub open spec fn after_read(m: PipeModel, room: nat) -> PipeModel {
    if m.pending.len() > 0 {
        let k = min_nat(room, m.pending.len());
        let rest = m.pending.subrange(k as int, m.pending.len() as int);
        PipeModel { pending: rest, write: if rest.len() == 0 { 0 } else { m.write }, ..m }
    } else {
        m
    }
}

pub open spec fn apply(m: PipeModel, op: PipeOp) -> PipeModel {
    match op {
        PipeOp::Write(bytes) => after_write(m, bytes),
        PipeOp::Read(room) => after_read(m, room),
        PipeOp::Shutdown => PipeModel { shutdown: true, ..m },
        PipeOp::DropWriter => PipeModel { writer_dropped: true, ..m },
    }
}

/// The state after a sequence of operations.
pub open spec fn run(m: PipeModel, ops: Seq<PipeOp>) -> PipeModel
    decreases ops.len(),
{
    if ops.len() == 0 {
        m
    } else {
        apply(run(m, ops.drop_last()), ops.last())
    }
}

/// The bytes that the writes of `ops` got into the pipe, in order.
pub open spec fn accepted(m: PipeModel, ops: Seq<PipeOp>) -> Seq<u8>
    decreases ops.len(),
{
    if ops.len() == 0 {
        Seq::empty()
    } else {
        let before = run(m, ops.drop_last());
        let taken = match ops.last() {
            PipeOp::Write(bytes) => match write_amount(before, bytes.len()) {
                Some(n) => bytes.subrange(0, n as int),
                None => Seq::empty(),
            },
            _ => Seq::empty(),
        };
        accepted(m, ops.drop_last()) + taken
    }
}

/// The bytes that the reads of `ops` handed to the reader, in order.
pub open spec fn delivered(m: PipeModel, ops: Seq<PipeOp>) -> Seq<u8>
    decreases ops.len(),
{
    if ops.len() == 0 {
        Seq::empty()
    } else {
        let before = run(m, ops.drop_last());
        let given = match ops.last() {
            PipeOp::Read(room) => match read_result(before, room) {
                Some(bytes) => bytes,
                None => Seq::empty(),
            },
            _ => Seq::empty(),
        };
        delivered(m, ops.drop_last()) + given
    }
}

/// Whatever the interleaving of writes, reads and closings, the reader has
/// been handed exactly the bytes the writer got in, in order, up to what is
/// still waiting in the pipe.
pub proof fn lemma_bytes_in_order(m: PipeModel, ops: Seq<PipeOp>)
    requires
        model_wf(m),
    ensures
        delivered(m, ops) + run(m, ops).pending == m.pending + accepted(m, ops),
        model_wf(run(m, ops)),
    decreases ops.len(),
{
    if ops.len() > 0 {
        let init = ops.drop_last();
        lemma_bytes_in_order(m, init);
        let before = run(m, init);
        match ops.last() {
            PipeOp::Write(bytes) => {
                match write_amount(before, bytes.len()) {
                    Some(n) => {
                        assert(delivered(m, ops) =~= delivered(m, init));
                        let t = bytes.subrange(0, n as int);
                        assert(accepted(m, ops) =~= accepted(m, init) + t);
                        assert(run(m, ops).pending =~= before.pending + t);
                        assert(delivered(m, init) + (before.pending + t)
                            =~= (delivered(m, init) + before.pending) + t);
                        assert(m.pending + (accepted(m, init) + t)
                            =~= (m.pending + accepted(m, init)) + t);
                    },
                    None => {
                        assert(delivered(m, ops) =~= delivered(m, init));
                        assert(accepted(m, ops) =~= accepted(m, init));
                    },
                }
            },
            PipeOp::Read(room) => {
                assert(accepted(m, ops) =~= accepted(m, init));
                if before.pending.len() > 0 {
                    let k = min_nat(room, before.pending.len());
                    assert(before.pending =~= before.pending.subrange(0, k as int)
                        + before.pending.subrange(k as int, before.pending.len() as int));
                    let given = before.pending.subrange(0, k as int);
                    let rest = before.pending.subrange(k as int, before.pending.len() as int);
                    assert(delivered(m, ops) =~= delivered(m, init) + given);
                    assert(run(m, ops).pending =~= rest);
                    assert((delivered(m, init) + given) + rest
                        =~= delivered(m, init) + (given + rest));
                } else {
                    assert(delivered(m, ops) =~= delivered(m, init));
                }
            },
            _ => {
                assert(delivered(m, ops) =~= delivered(m, init));
                assert(accepted(m, ops) =~= accepted(m, init));
            },
        }
    }
}

/// A pipe never holds more than its capacity: the write cursor stays within
/// the capacity it was made with, whatever the operations.
pub proof fn lemma_within_capacity(m: PipeModel, ops: Seq<PipeOp>)
    requires
        model_wf(m),
    ensures
        run(m, ops).cap == m.cap,
        run(m, ops).pending.len() <= run(m, ops).write <= m.cap,
    decreases ops.len(),
{
    lemma_bytes_in_order(m, ops);
    if ops.len() > 0 {
        lemma_within_capacity(m, ops.drop_last());
    }
}

/// The shared state of a pipe: the buffer, the two cursors, the closing
/// flags and the waker of the party that is suspended, if any.
pub struct StrictBuffer<W> {
    buffer: Vec<u8>,
    is_shutdown: bool,
    writer_dropped: bool,
    read_cursor: usize,
    write_cursor: usize,
    waker: Option<W>,
}

impl<W> StrictBuffer<W> {
    pub closed spec fn wf(&self) -> bool {
        &&& self.read_cursor <= self.write_cursor <= self.buffer.len()
        &&& self.read_cursor == self.write_cursor ==> self.write_cursor == 0
    }

    /// The pipe as its abstract state.
    pub closed spec fn model(&self) -> PipeModel {
        PipeModel {
            pending: self.buffer@.subrange(self.read_cursor as int, self.write_cursor as int),
            write: self.write_cursor as nat,
            cap: self.buffer.len() as nat,
            shutdown: self.is_shutdown,
            writer_dropped: self.writer_dropped,
        }
    }

    /// The waker of the suspended party.
    pub closed spec fn parked(&self) -> Option<W> {
        self.waker
    }

    /// An empty pipe of `size` bytes.
    pub fn new(size: usize) -> (r: Self)
        ensures
            r.wf(),
            r.model() == (PipeModel {
                pending: Seq::empty(),
                write: 0,
                cap: size as nat,
                shutdown: false,
                writer_dropped: false,
            }),
            r.parked() is None,
    {
        let r = StrictBuffer {
            buffer: vec![0u8; size],
            is_shutdown: false,
            writer_dropped: false,
            read_cursor: 0,
            write_cursor: 0,
            waker: None,
        };
        assert(r.model().pending =~= Seq::<u8>::empty());
        r
    }

    /// Suspends a party: its waker replaces any that was parked before.
    pub fn park(&mut self, waker: W)
        ensures
            final(self).model() == old(self).model(),
            final(self).wf() == old(self).wf(),
            final(self).parked() == Some(waker),
    {
        self.waker = Some(waker);
    }

    /// Takes the parked waker out, for the caller to wake.
    pub fn wake(&mut self) -> (r: Option<W>)
        ensures
            final(self).model() == old(self).model(),
            final(self).wf() == old(self).wf(),
            final(self).parked() is None,
            r == old(self).parked(),
    {
        let r = match self.waker.take() {
            Some(w) => Some(w),
            None => None,
        };
        r
    }

    /// Writes as much of `bytes` as fits after the write cursor.  A shut
    /// pipe takes nothing and reports zero; a full one parks `waker`.  When
    /// bytes go in, the parked party is handed back to be woken.
    pub fn write(&mut self, bytes: &[u8], waker: W) -> (r: (PipePoll<usize>, Option<W>))
        requires
            old(self).wf(),
        ensures
            final(self).wf(),
            final(self).model() == after_write(old(self).model(), bytes@),
            match write_amount(old(self).model(), bytes@.len()) {
                Some(n) => r.0 == PipePoll::Ready(n as usize),
                None => r.0 is Pending,
            },
            old(self).model().shutdown ==> r.1 is None && final(self).parked() == old(self).parked(),
            !old(self).model().shutdown && r.0 is Ready ==> r.1 == old(self).parked()
                && final(self).parked() is None,
            r.0 is Pending ==> r.1 is None && final(self).parked() == Some(waker),
    {
        if self.is_shutdown {
            return (PipePoll::Ready(0), None);
        }
        let cap = self.buffer.len();
        if self.write_cursor < cap {
            let room = cap - self.write_cursor;
            let n: usize = if room < bytes.len() { room } else { bytes.len() };
            let start = self.write_cursor;
            let ghost old_buf = self.buffer@;
            let mut i: usize = 0;
            while i < n
                invariant
                    i <= n,
                    n <= bytes@.len(),
                    start + n <= cap,
                    cap == self.buffer.len(),
                    self.buffer.len() == old_buf.len(),
                    old_buf == old(self).buffer@,
                    start == old(self).write_cursor,
                    self.write_cursor == start,
                    self.read_cursor == old(self).read_cursor,
                    self.is_shutdown == old(self).is_shutdown,
                    self.writer_dropped == old(self).writer_dropped,
                    self.waker == old(self).waker,
                    old(self).wf(),
                    forall|j: int| 0 <= j < start ==> self.buffer@[j] == old_buf[j],
                    forall|j: int| 0 <= j < i ==> self.buffer@[start + j] == bytes@[j],
                decreases n - i,
            {
                self.buffer.set(start + i, bytes[i]);
                i = i + 1;
            }
            self.write_cursor = start + n;
            let ghost old_model = old(self).model();
            assert(self.model().pending =~= old_model.pending + bytes@.subrange(0, n as int));
            let woken = self.wake();
            return (PipePoll::Ready(n), woken);
        }
        self.park(waker);
        (PipePoll::Pending, None)
    }

    /// Reads up to `room` bytes.  Waiting bytes come out first; once the
    /// pipe is empty, a shut pipe or a dropped writer gives an empty read,
    /// the end of the stream, and otherwise the reader parks `waker`.
    pub fn read(&mut self, room: usize, waker: W) -> (r: (PipePoll<Vec<u8>>, Option<W>))
        requires
            old(self).wf(),
        ensures
            final(self).wf(),
            final(self).model() == after_read(old(self).model(), room as nat),
            match read_result(old(self).model(), room as nat) {
                Some(bytes) => r.0 matches PipePoll::Ready(v) && v@ == bytes,
                None => r.0 is Pending,
            },
            old(self).model().pending.len() > 0 ==> r.1 == old(self).parked()
                && final(self).parked() is None,
            old(self).model().pending.len() == 0 && r.0 is Ready ==> r.1 is None
                && final(self).parked() == old(self).parked(),
            r.0 is Pending ==> r.1 is None && final(self).parked() == Some(waker),
    {
        if self.read_cursor < self.write_cursor {
            let avail = self.write_cursor - self.read_cursor;
            let k: usize = if room < avail { room } else { avail };
            let start = self.read_cursor;
            let mut out: Vec<u8> = Vec::new();
            let mut i: usize = 0;
            while i < k
                invariant
                    i <= k,
                    start + k <= self.write_cursor <= self.buffer.len(),
                    out@ =~= self.buffer@.subrange(start as int, start + i),
                decreases k - i,
            {
                out.push(self.buffer[start + i]);
                i = i + 1;
            }
            self.read_cursor = start + k;
            if self.read_cursor >= self.write_cursor {
                self.read_cursor = 0;
                self.write_cursor = 0;
            }
            let ghost old_model = old(self).model();
            assert(out@ =~= old_model.pending.subrange(0, k as int));
            assert(self.model().pending =~= old_model.pending.subrange(k as int, old_model.pending.len() as int));
            let woken = self.wake();
            return (PipePoll::Ready(out), woken);
        }
        if self.is_shutdown || self.writer_dropped {
            assert(old(self).model().pending.len() == 0);
            return (PipePoll::Ready(Vec::new()), None);
        }
        self.park(waker);
        (PipePoll::Pending, None)
    }

    /// Shuts the writing side; the first shutdown hands back the parked
    /// party to be woken.
    pub fn shutdown(&mut self) -> (r: Option<W>)
        requires
            old(self).wf(),
        ensures
            final(self).wf(),
            final(self).model() == apply(old(self).model(), PipeOp::Shutdown),
            r == if old(self).model().shutdown { None } else { old(self).parked() },
            old(self).model().shutdown ==> final(self).parked() == old(self).parked(),
            !old(self).model().shutdown ==> final(self).parked() is None,
    {
        let woken = if self.is_shutdown { None } else { self.wake() };
        self.is_shutdown = true;
        woken
    }

    /// Records that the writer is gone and hands back the parked party.
    pub fn drop_writer(&mut self) -> (r: Option<W>)
        requires
            old(self).wf(),
        ensures
            final(self).wf(),
            final(self).model() == apply(old(self).model(), PipeOp::DropWriter),
            r == old(self).parked(),
            final(self).parked() is None,
    {
        let woken = self.wake();
        self.writer_dropped = true;
        woken
    }
}

} // verus!
