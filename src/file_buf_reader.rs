//! Bookkeeping of a file read in fixed-size chunks and fanned out to consumers.
//!
//! The reading and the publishing are done by the caller; this module decides, for each read,
//! what is published and how the sequence number and the byte count move on.
use vstd::arithmetic::div_mod::lemma_div_plus_one;
use vstd::prelude::*;

verus! {

/// One published unit: a chunk of the file, or, with `read_size == 0`, the end-of-stream sentinel.
#[derive(Debug)]
pub struct ReadBuf {
    /// Sequence number of the chunk.
    pub order: usize,
    /// The chunk's bytes.
    pub buf: Vec<u8>,
    /// Number of valid bytes in `buf`; 0 marks the end of the stream.
    pub read_size: usize,
}

/// Abstract chunk: its sequence number, its bytes and its filled length.
pub struct ChunkView {
    pub order: nat,
    pub payload: Seq<u8>,
    pub len: nat,
}

impl View for ReadBuf {
    type V = ChunkView;

    open spec fn view(&self) -> ChunkView {
        ChunkView { order: self.order as nat, payload: self.buf@, len: self.read_size as nat }
    }
}

/// What one read of the file gave.
#[derive(Debug, Clone, Copy, PartialEq, Eq, Structural)]
pub enum ReadOutcome {
    /// The read put this many bytes at the start of the buffer; 0 is the end of the file.
    Filled(usize),
    /// The read failed.
    Failed,
}

/// What to do after a read.
#[derive(Debug)]
pub enum ReadStep {
    /// Publish this chunk and read again.
    Publish(ReadBuf),
    /// Stop reading.
    Finished,
}

/// Abstract reader state: chunk size, bytes read so far, and the next sequence number.
pub struct ReaderView {
    pub buf_size: nat,
    pub read_size: nat,
    pub read_order: nat,
}

/// The state of a file read in chunks of `buf_size` bytes.
pub struct FileChunker {
    buf_size: usize,
    read_size: usize,
    read_order: usize,
}

/// A fresh reader with chunk size `c`.
pub open spec fn fresh(c: nat) -> ReaderView {
    ReaderView { buf_size: c, read_size: 0, read_order: 0 }
}

/// A read of `n > 0` bytes in state `pre` publishes `chunk` and leads to `post`.
pub open spec fn publishes(pre: ReaderView, n: nat, chunk: ChunkView, post: ReaderView) -> bool {
    &&& 0 < n
    &&& chunk.order == pre.read_order
    &&& chunk.len == n
    &&& chunk.payload.len() == n
    &&& post == ReaderView {
        buf_size: pre.buf_size,
        read_size: pre.read_size + n,
        read_order: pre.read_order + 1,
    }
}

/// The end-of-stream sentinel of a state: its next sequence number and no bytes.
pub open spec fn sentinel(s: ReaderView) -> ChunkView {
    ChunkView { order: s.read_order, payload: Seq::empty(), len: 0 }
}

/// Reads of sizes `lens` took the reader through `states`, publishing `chunks`.
pub open spec fn is_run(states: Seq<ReaderView>, chunks: Seq<ChunkView>, lens: Seq<nat>) -> bool {
    &&& states.len() == chunks.len() + 1
    &&& lens.len() == chunks.len()
    &&& forall|i: int|
        0 <= i < chunks.len() ==> publishes(states[i], lens[i], #[trigger] chunks[i], states[i + 1])
}

/// Sizes that reads of a file of `size` bytes return when each read fills the buffer of `c`
/// bytes, but the last.
pub open spec fn full_reads(size: nat, c: nat) -> Seq<nat>
    decreases size,
{
    if size == 0 || c == 0 {
        Seq::empty()
    } else if size <= c {
        seq![size]
    } else {
        seq![c] + full_reads((size - c) as nat, c)
    }
}

/// Sum of a sequence of sizes.
pub open spec fn total(lens: Seq<nat>) -> nat
    decreases lens.len(),
{
    if lens.len() == 0 {
        0
    } else {
        lens[0] + total(lens.drop_first())
    }
}

/// Sum of the filled lengths of chunks.
pub open spec fn chunk_total(chunks: Seq<ChunkView>) -> nat
    decreases chunks.len(),
{
    if chunks.len() == 0 {
        0
    } else {
        chunks[0].len + chunk_total(chunks.drop_first())
    }
}

impl View for FileChunker {
    type V = ReaderView;

    closed spec fn view(&self) -> ReaderView {
        ReaderView {
            buf_size: self.buf_size as nat,
            read_size: self.read_size as nat,
            read_order: self.read_order as nat,
        }
    }
}

impl FileChunker {
    /// A reader that has read nothing, with chunks of `buf_size` bytes.
    pub fn new(buf_size: usize) -> (r: FileChunker)
        requires
            buf_size > 0,
        ensures
            r@ == fresh(buf_size as nat),
    {
        FileChunker { buf_size, read_size: 0, read_order: 0 }
    }

    /// The chunk size.
    pub fn buf_size(&self) -> (r: usize)
        ensures
            r == self@.buf_size,
    {
        self.buf_size
    }

    /// Total bytes published so far; after the last read, the bytes read from the file.
    pub fn get_read_size(&self) -> (r: usize)
        ensures
            r == self@.read_size,
    {
        self.read_size
    }

    /// The sequence number that the next chunk gets.
    pub fn read_order(&self) -> (r: usize)
        ensures
            r == self@.read_order,
    {
        self.read_order
    }

    /// Decides what a read does. `n > 0` bytes at the start of `data` make a chunk with the
    /// current sequence number and a copy of those bytes, and move the sequence number and the
    /// byte count on. The end of the file (0 bytes) and a failed read stop, with nothing changed.
    pub fn on_read(&mut self, data: &Vec<u8>, outcome: ReadOutcome) -> (step: ReadStep)
        requires
            outcome matches ReadOutcome::Filled(n) ==> {
                &&& n <= data@.len()
                &&& n <= old(self)@.buf_size
                &&& n > 0 ==> old(self)@.read_size + n <= usize::MAX
                &&& n > 0 ==> old(self)@.read_order < usize::MAX
            },
        ensures
            match outcome {
                ReadOutcome::Filled(n) if n > 0 => step matches ReadStep::Publish(c) && c@.payload
                    == data@.take(n as int) && publishes(old(self)@, n as nat, c@, final(self)@),
                _ => step is Finished && final(self)@ == old(self)@,
            },
    {
        match outcome {
            ReadOutcome::Filled(n) => {
                if n == 0 {
                    return ReadStep::Finished;
                }
                let mut buf: Vec<u8> = Vec::with_capacity(n);
                let mut i: usize = 0;
                while i < n
                    invariant
                        n <= data@.len(),
                        i <= n,
                        buf@ == data@.take(i as int),
                    decreases n - i,
                {
                    buf.push(data[i]);
                    i += 1;
                    assert(buf@ =~= data@.take(i as int));
                }
                let chunk = ReadBuf { order: self.read_order, buf, read_size: n };
                self.read_size = self.read_size + n;
                self.read_order = self.read_order + 1;
                ReadStep::Publish(chunk)
            },
            ReadOutcome::Failed => ReadStep::Finished,
        }
    }

    /// The end-of-stream sentinel: the current sequence number and no bytes. Publishing it does
    /// not move the sequence number, so it may be published once per consumer.
    pub fn eof_chunk(&self) -> (r: ReadBuf)
        ensures
            r@ == sentinel(self@),
    {
        ReadBuf { order: self.read_order, buf: Vec::new(), read_size: 0 }
    }
}

proof fn lemma_run(states: Seq<ReaderView>, chunks: Seq<ChunkView>, lens: Seq<nat>)
    requires
        is_run(states, chunks, lens),
    ensures
        states.last().read_size == states[0].read_size + total(lens),
        states.last().read_order == states[0].read_order + chunks.len(),
        states.last().buf_size == states[0].buf_size,
        chunk_total(chunks) == total(lens),
        forall|i: int| 0 <= i < chunks.len() ==> #[trigger] chunks[i].order == states[0].read_order + i,
    decreases chunks.len(),
{
    if chunks.len() > 0 {
        assert(publishes(states[0], lens[0], chunks[0], states[1]));
        let (s2, c2, l2) = (states.drop_first(), chunks.drop_first(), lens.drop_first());
        assert forall|i: int| 0 <= i < c2.len() implies publishes(s2[i], l2[i], #[trigger] c2[i], s2[i + 1]) by {
            assert(publishes(states[i + 1], lens[i + 1], chunks[i + 1], states[i + 2]));
        }
        lemma_run(s2, c2, l2);
        assert forall|i: int| 0 <= i < chunks.len() implies #[trigger] chunks[i].order == states[0].read_order + i by {
            if i > 0 {
                assert(chunks[i] == c2[i - 1]);
            }
        }
    }
}

proof fn lemma_full_reads(size: nat, c: nat)
    requires
        c > 0,
    ensures
        full_reads(size, c).len() == (size + c - 1) / (c as int),
        total(full_reads(size, c)) == size,
        forall|i: int| 0 <= i < full_reads(size, c).len() ==> 0 < #[trigger] full_reads(size, c)[i] <= c,
    decreases size,
{
    let r = full_reads(size, c);
    if size == 0 {
        assert((c - 1) / (c as int) == 0) by (nonlinear_arith)
            requires
                c > 0,
        ;
    } else if size <= c {
        assert(r.drop_first() =~= Seq::<nat>::empty());
        assert(total(r.drop_first()) == 0);
        assert((size + c - 1) / (c as int) == 1) by (nonlinear_arith)
            requires
                0 < size <= c,
        ;
    } else {
        let rest = full_reads((size - c) as nat, c);
        lemma_full_reads((size - c) as nat, c);
        assert(r.drop_first() =~= rest);
        assert(total(r) == c + total(rest));
        lemma_div_plus_one((size - c + c - 1) as int, c as int);
        assert forall|i: int| 0 <= i < r.len() implies 0 < #[trigger] r[i] <= c by {
            if i > 0 {
                assert(r[i] == rest[i - 1]);
            }
        }
    }
}

/// Completeness: when a file of `size` bytes is read in chunks of `c` bytes, every read but the
/// last filling the buffer, the chunks published are `ceil(size / c)` in number, numbered from 0,
/// and their filled lengths add up to `size`, which is also the count the reader reports.
pub proof fn lemma_complete_when_drained(
    size: nat,
    c: nat,
    states: Seq<ReaderView>,
    chunks: Seq<ChunkView>,
)
    requires
        c > 0,
        states.len() > 0,
        states[0] == fresh(c),
        is_run(states, chunks, full_reads(size, c)),
    ensures
        chunks.len() == (size + c - 1) / (c as int),
        chunk_total(chunks) == size,
        states.last().read_size == size,
        forall|i: int| 0 <= i < chunks.len() ==> #[trigger] chunks[i].order == i,
{
    lemma_full_reads(size, c);
    lemma_run(states, chunks, full_reads(size, c));
}

/// Monotonicity: a consumer that observes, in order, some of the chunks published by a run of
/// reads followed by the sentinel sees strictly increasing sequence numbers. `seen` lists the
/// positions, in that stream, of what it observed.
pub proof fn lemma_observed_orders_increase(
    states: Seq<ReaderView>,
    chunks: Seq<ChunkView>,
    lens: Seq<nat>,
    seen: Seq<int>,
)
    requires
        is_run(states, chunks, lens),
        forall|a: int| 0 <= a < seen.len() ==> 0 <= #[trigger] seen[a] <= chunks.len(),
        forall|a: int, b: int| 0 <= a < b < seen.len() ==> #[trigger] seen[a] < #[trigger] seen[b],
    ensures
        forall|a: int, b: int|
            0 <= a < b < seen.len() ==> (#[trigger] chunks.push(sentinel(states.last()))[seen[a]]).order
                < (#[trigger] chunks.push(sentinel(states.last()))[seen[b]]).order,
{
    lemma_run(states, chunks, lens);
    let stream = chunks.push(sentinel(states.last()));
    assert forall|j: int| 0 <= j <= chunks.len() implies #[trigger] stream[j].order == states[0].read_order + j by {
        if j < chunks.len() {
            assert(stream[j] == chunks[j]);
        }
    }
    assert forall|a: int, b: int| 0 <= a < b < seen.len() implies stream[seen[a]].order < stream[seen[b]].order by {
        assert(seen[a] < seen[b]);
        assert(stream[seen[a]].order == states[0].read_order + seen[a]);
        assert(stream[seen[b]].order == states[0].read_order + seen[b]);
    }
}

} // verus!
