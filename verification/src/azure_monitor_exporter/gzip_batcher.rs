//! Accumulates JSON entries into gzip-compressed batches that stay under a size limit.

use bytes::Bytes;
use std::collections::VecDeque;
use vstd::prelude::*;

use super::encoder;
use super::encoder::GzStream;
use super::error::ExporterError;

verus! {

/// 1 MiB: no batch is larger.
pub const ONE_MB: usize = 1_048_576;

/// 1015 KiB: the size that batches aim at.
pub const TARGET_LIMIT: usize = 1_039_360;

/// A batch is finalized once it was flushed this many times.
pub const MAX_GZIP_FLUSH_COUNT: usize = 100;

/// An oversize batch gives up this many times the bytes that it is too long.
pub const REPLAY_DROP_FACTOR: usize = 2;

/// Result of pushing an entry into the batcher.
#[derive(Debug, Clone, Copy, PartialEq, Eq, Structural)]
pub enum PushResult {
    /// Entry accepted into the current batch (returns batch id).
    Accepted(u64),
    /// Entry exceeds the maximum allowed size.
    TooLarge,
    /// A batch is ready to be taken (returns the new batch id).
    BatchReady(u64),
}

/// Result of finalizing the current batch.
#[derive(Debug, Clone, Copy, PartialEq, Eq, Structural)]
pub enum FinalizeResult {
    /// No data was present to finalize.
    Empty,
    /// Batch finalized successfully.
    Finalized,
}

/// A completed gzip-compressed batch.
pub struct GzipResult {
    /// Unique identifier for this batch.
    pub batch_id: u64,
    /// The gzip-compressed payload.
    pub compressed_data: Bytes,
    /// Number of entries in this batch.
    pub row_count: u64,
    /// Number of gzip sync flushes performed while building this batch.
    pub flush_count: usize,
}

/// The rows one after another, with a comma between two.
pub open spec fn joined(rows: Seq<Seq<u8>>) -> Seq<u8>
    decreases rows.len(),
{
    if rows.len() == 0 {
        Seq::empty()
    } else if rows.len() == 1 {
        rows[0]
    } else {
        joined(rows.drop_last()) + seq![0x2cu8] + rows.last()
    }
}

/// The rows as the elements of a JSON array.
pub open spec fn json_array(rows: Seq<Seq<u8>>) -> Seq<u8> {
    seq![0x5bu8] + joined(rows) + seq![0x5du8]
}

/// What the buffers hold.
pub open spec fn contents(rows: Seq<Bytes>) -> Seq<Seq<u8>> {
    Seq::new(rows.len(), |i: int| encoder::octets(rows[i]))
}

/// A row that can stand in a batch: with a bracket on either side it is within the target.
pub open spec fn fits(row: Seq<u8>) -> bool {
    row.len() + 2 <= TARGET_LIMIT
}

pub open spec fn all_fit(rows: Seq<Seq<u8>>) -> bool {
    forall|i: int| 0 <= i < rows.len() ==> fits(#[trigger] rows[i])
}

/// A completed batch as mathematics.
pub struct BatchView {
    pub batch_id: u64,
    /// The gzip-compressed payload.
    pub data: Seq<u8>,
    pub row_count: u64,
    pub flush_count: usize,
}

impl View for GzipResult {
    type V = BatchView;

    open spec fn view(&self) -> BatchView {
        BatchView {
            batch_id: self.batch_id,
            data: encoder::octets(self.compressed_data),
            row_count: self.row_count,
            flush_count: self.flush_count,
        }
    }
}

impl GzipResult {
    /// The batch is a gzip stream within the limits that holds exactly `rows` as a JSON array.
    pub open spec fn delivers(&self, rows: Seq<Seq<u8>>) -> bool {
        &&& encoder::decompressed(encoder::octets(self.compressed_data)) == json_array(rows)
        &&& encoder::octets(self.compressed_data).len() <= ONE_MB
        &&& self.row_count == rows.len()
        &&& self.flush_count <= MAX_GZIP_FLUSH_COUNT
    }

    /// The batch holds some rows as a JSON array, within the limits.
    pub open spec fn is_whole(&self) -> bool {
        exists|rows: Seq<Seq<u8>>| #[trigger] self.delivers(rows)
    }
}

/// How much a batch may still take before it has to be flushed or finalized.
#[derive(Debug, Clone, Copy, PartialEq, Eq, Structural)]
pub struct Budget {
    /// What is left of the target after the compressed bytes known at the last flush.
    pub remaining_size: usize,
    /// The bytes written since the last flush.
    pub uncompressed_size: usize,
    /// The flushes so far.
    pub flush_count: usize,
}

impl Budget {
    pub open spec fn wf(&self) -> bool {
        &&& self.remaining_size <= TARGET_LIMIT
        &&& self.uncompressed_size <= TARGET_LIMIT
        &&& self.flush_count <= MAX_GZIP_FLUSH_COUNT
    }

    /// The budget of an empty batch.
    pub open spec fn full() -> Budget {
        Budget { remaining_size: TARGET_LIMIT, uncompressed_size: 0, flush_count: 0 }
    }

    /// The bytes since the last flush if a row of `len` bytes is added and the array closed:
    /// a comma stands before every row but the first.
    pub open spec fn next_size(&self, first: bool, len: nat) -> nat {
        self.uncompressed_size as nat + (if first {
            0nat
        } else {
            1nat
        }) + len + 1
    }

    pub open spec fn overruns(&self, first: bool, len: nat) -> bool {
        self.next_size(first, len) > self.remaining_size
    }

    pub open spec fn exhausted(&self, first: bool, len: nat) -> bool {
        self.overruns(first, len) || self.flush_count >= MAX_GZIP_FLUSH_COUNT
    }

    /// The budget after a flush that left `compressed_size` compressed bytes.
    pub open spec fn measured(self, compressed_size: nat) -> Budget {
        Budget {
            remaining_size: if compressed_size >= TARGET_LIMIT {
                0
            } else {
                (TARGET_LIMIT - compressed_size) as usize
            },
            uncompressed_size: 0,
            flush_count: (self.flush_count + 1) as usize,
        }
    }

    /// The budget once a row of `len` bytes was taken, with a comma before it unless it is the
    /// first.
    pub open spec fn with_row(self, first: bool, len: nat) -> Budget {
        Budget { uncompressed_size: (self.next_size(first, len) - 1) as usize, ..self }
    }

    /// The budget of an empty batch.
    pub fn new() -> (r: Self)
        ensures
            r == Self::full(),
            r.wf(),
    {
        Budget { remaining_size: TARGET_LIMIT, uncompressed_size: 0, flush_count: 0 }
    }

    /// Whether a row of `len` bytes overruns what is left, so that a flush has to tell how
    /// much was really used.
    pub fn needs_flush(&self, first: bool, len: usize) -> (r: bool)
        requires
            self.wf(),
            len + 2 <= TARGET_LIMIT,
        ensures
            r == self.overruns(first, len as nat),
    {
        let separator: usize = if first {
            0
        } else {
            1
        };
        self.uncompressed_size + separator + len + 1 > self.remaining_size
    }

    /// Takes note of a flush after which the batch has `compressed_size` compressed bytes.
    pub fn flushed(&mut self, compressed_size: usize)
        requires
            old(self).wf(),
            old(self).flush_count < MAX_GZIP_FLUSH_COUNT,
        ensures
            final(self).wf(),
            *final(self) == old(self).measured(compressed_size as nat),
    {
        self.flush_count = self.flush_count + 1;
        self.remaining_size = TARGET_LIMIT.saturating_sub(compressed_size);
        self.uncompressed_size = 0;
    }

    /// Whether the batch has to be finalized before a row of `len` bytes can be taken.
    pub fn needs_finalize(&self, first: bool, len: usize) -> (r: bool)
        requires
            self.wf(),
            len + 2 <= TARGET_LIMIT,
        ensures
            r == self.exhausted(first, len as nat),
    {
        self.needs_flush(first, len) || self.flush_count >= MAX_GZIP_FLUSH_COUNT
    }

    /// Takes note of a row of `len` bytes, with a comma before it unless it is the first.
    pub fn accepted(&mut self, first: bool, len: usize)
        requires
            old(self).wf(),
            !old(self).exhausted(first, len as nat),
        ensures
            final(self).wf(),
            *final(self) == old(self).with_row(first, len as nat),
    {
        if !first {
            self.uncompressed_size = self.uncompressed_size + 1;
        }
        self.uncompressed_size = self.uncompressed_size + len;
    }
}

/// A single row is too large even when it is compressed alone.
pub open spec fn is_oversize_failure(e: ExporterError) -> bool {
    e matches ExporterError::BatchFinalizeFailed(cause) && encoder::error_text(cause)
        == "batch exceeds 1 MiB hard limit after oversize recovery"@
}

/// A single row is too large even when it is compressed alone.
pub fn oversize_failure() -> (e: ExporterError)
    ensures
        is_oversize_failure(e),
{
    ExporterError::BatchFinalizeFailed(
        encoder::other_error("batch exceeds 1 MiB hard limit after oversize recovery"),
    )
}

/// What was to be returned, if nothing failed.
pub open spec fn outcome<T>(r: Result<T, ExporterError>) -> Option<T> {
    match r {
        Ok(t) => Some(t),
        Err(_) => None,
    }
}

/// The batch took the rows `sent` off the front of `before`, and `after` is what is left.
pub open spec fn sends(
    batch: GzipResult,
    sent: Seq<Seq<u8>>,
    before: Seq<Seq<u8>>,
    after: Seq<Seq<u8>>,
) -> bool {
    batch.delivers(sent) && sent.len() > 0 && before == sent + after
}

/// The batch took some rows off the front of `before`, and `after` is what is left.
pub open spec fn sends_front(
    batch: GzipResult,
    before: Seq<Seq<u8>>,
    after: Seq<Seq<u8>>,
) -> bool {
    exists|sent: Seq<Seq<u8>>| #[trigger] sends(batch, sent, before, after)
}

/// The bytes that the rows from `k` on take up, with a comma each.
pub open spec fn tail_bytes(rows: Seq<Seq<u8>>, k: int) -> nat
    decreases rows.len() - k,
{
    if k >= rows.len() {
        0
    } else {
        rows[k].len() + 1 + tail_bytes(rows, k + 1)
    }
}

/// `keep` is where an oversize batch is cut: as few rows as possible leave from the end until
/// they take up `target` bytes, and at least one row stays.
pub open spec fn is_cut(rows: Seq<Seq<u8>>, target: nat, keep: int) -> bool {
    &&& 1 <= keep <= rows.len()
    &&& keep < rows.len() ==> tail_bytes(rows, keep + 1) < target
    &&& keep == 1 || tail_bytes(rows, keep) >= target
}

/// The bytes that an oversize batch of `len` compressed bytes gives up.
pub open spec fn drop_target(len: nat) -> nat {
    if len > ONE_MB {
        ((len - ONE_MB) * REPLAY_DROP_FACTOR) as nat
    } else {
        1
    }
}

/// How many rows an oversize batch keeps if rows leave from its end until they take up
/// `target` bytes, with a comma each: at least one.
pub open spec fn cut(rows: Seq<Seq<u8>>, target: int) -> int
    decreases rows.len(),
{
    if rows.len() <= 1 || target <= 0 {
        rows.len() as int
    } else {
        cut(rows.drop_last(), target - (rows.last().len() + 1))
    }
}

/// What is written to an encoder for the rows: an array without its end.
pub open spec fn fed_rows(rows: Seq<Seq<u8>>) -> Seq<Option<Seq<u8>>>
    decreases rows.len(),
{
    if rows.len() == 0 {
        seq![Some(seq![0x5bu8])]
    } else if rows.len() == 1 {
        seq![Some(seq![0x5bu8]), Some(rows[0])]
    } else {
        fed_rows(rows.drop_last()).push(Some(seq![0x2cu8])).push(Some(rows.last()))
    }
}

/// What is in an encoder once the array in it is closed.
pub open spec fn closed_array(fed: Seq<Option<Seq<u8>>>) -> Seq<Option<Seq<u8>>> {
    fed.push(Some(seq![0x5du8]))
}

/// The row is beyond the hard limit even when it is compressed alone.
pub open spec fn overlong_alone(level: u32, row: Seq<u8>) -> bool {
    encoder::gzipped(level, closed_array(fed_rows(seq![row]))).len() > ONE_MB
}

/// How many of the rows of an oversize batch of `len` compressed bytes are sent after all, and
/// in which stream: rows are cut off the end, and the rest is compressed again, until the
/// stream is within the hard limit. Nothing comes of it if a single row is beyond the limit.
pub open spec fn recovered(level: u32, rows: Seq<Seq<u8>>, len: nat) -> Option<(int, Seq<u8>)>
    decreases rows.len(),
{
    let keep = cut(rows, drop_target(len) as int);
    let data = encoder::gzipped(level, closed_array(fed_rows(rows.take(keep))));
    if data.len() <= ONE_MB {
        Some((keep, data))
    } else if keep <= 1 || keep >= rows.len() {
        None
    } else {
        recovered(level, rows.take(keep), data.len())
    }
}

/// What is sent of a batch that is closed.
pub struct Sealed {
    /// The number of its rows, from the front.
    pub count: int,
    /// The gzip stream.
    pub data: Seq<u8>,
    pub flush_count: usize,
}

/// The batcher as mathematics.
#[verifier::ext_equal]
pub struct BatcherView {
    /// The compression level.
    pub level: u32,
    /// The rows in the open batch.
    pub rows: Seq<Seq<u8>>,
    /// The rows that wait for a later batch.
    pub spillover: Seq<Seq<u8>>,
    /// What was done with the encoder of the open batch: bytes written, or a flush.
    pub fed: Seq<Option<Seq<u8>>>,
    /// The budget of the open batch.
    pub spent: Budget,
    /// The id of the batch that was started last.
    pub last_id: u64,
    /// The finished batch that waits to be taken.
    pub pending: Option<BatchView>,
}

impl BatcherView {
    /// A batcher that has taken nothing yet.
    pub open spec fn empty(level: u32) -> BatcherView {
        BatcherView {
            level,
            rows: Seq::empty(),
            spillover: Seq::empty(),
            fed: Seq::empty(),
            spent: Budget::full(),
            last_id: 0,
            pending: None,
        }
    }

    /// The id of the batch that takes the next row.
    pub open spec fn open_id(self) -> int {
        if self.rows.len() > 0 {
            self.last_id as int
        } else {
            self.last_id + 1
        }
    }

    /// The batcher without an open batch, and with those rows waiting.
    pub open spec fn emptied(self, spillover: Seq<Seq<u8>>) -> BatcherView {
        BatcherView {
            rows: Seq::empty(),
            spillover,
            fed: Seq::empty(),
            spent: Budget::full(),
            ..self
        }
    }

    /// The row starts the next batch.
    pub open spec fn started(self, row: Seq<u8>) -> BatcherView {
        BatcherView {
            rows: seq![row],
            fed: fed_rows(seq![row]),
            spent: Budget::full().with_row(true, row.len()),
            last_id: (self.last_id + 1) as u64,
            ..self
        }
    }

    /// The row stands in the open batch, which has others already.
    pub open spec fn extended(self, row: Seq<u8>) -> BatcherView {
        BatcherView {
            rows: self.rows.push(row),
            fed: self.fed.push(Some(seq![0x2cu8])).push(Some(row)),
            spent: self.spent.with_row(false, row.len()),
            ..self
        }
    }

    /// The encoder was flushed if a row of `len` bytes overruns what is left of the budget, so
    /// that the budget tells how much was really used.
    pub open spec fn measured_for(self, len: nat) -> BatcherView {
        if self.spent.overruns(false, len) {
            BatcherView {
                fed: self.fed.push(None),
                spent: self.spent.measured(encoder::flushed(self.level, self.fed).len()),
                ..self
            }
        } else {
            self
        }
    }

    /// The stream of the open batch is beyond the hard limit if the batch is closed.
    pub open spec fn overlong(self) -> bool {
        encoder::gzipped(self.level, closed_array(self.fed)).len() > ONE_MB
    }

    /// What is sent of the open batch if it is closed: all of its rows, if their stream is
    /// within the hard limit.
    pub open spec fn sealed(self) -> Option<Sealed> {
        let data = encoder::gzipped(self.level, closed_array(self.fed));
        if data.len() <= ONE_MB {
            Some(
                Sealed {
                    count: self.rows.len() as int,
                    data,
                    flush_count: self.spent.flush_count,
                },
            )
        } else {
            match recovered(self.level, self.rows, data.len()) {
                Some((count, data)) => Some(Sealed { count, data, flush_count: 0 }),
                None => None,
            }
        }
    }

    /// The batcher once the open batch is finished, and those rows wait.
    pub open spec fn finished(self, sealed: Sealed, spillover: Seq<Seq<u8>>) -> BatcherView {
        BatcherView {
            pending: Some(
                BatchView {
                    batch_id: self.last_id,
                    data: sealed.data,
                    row_count: sealed.count as u64,
                    flush_count: sealed.flush_count,
                },
            ),
            ..self.emptied(spillover)
        }
    }

    /// The open batch is finalized. Rows that are cut off wait for a later batch. A single row
    /// that is too large is given up.
    pub open spec fn finalized(self) -> (BatcherView, Option<FinalizeResult>) {
        if self.rows.len() == 0 {
            (self, Some(FinalizeResult::Empty))
        } else {
            match self.sealed() {
                Some(sealed) => (
                    self.finished(sealed, self.rows.skip(sealed.count) + self.spillover),
                    Some(FinalizeResult::Finalized),
                ),
                None => (self.emptied(self.rows.skip(1) + self.spillover), None),
            }
        }
    }

    /// A row that fits into a batch goes into the open one. If there is no room for it, the
    /// open batch is finished, and the next one starts with what was cut off it, or with the
    /// row.
    pub open spec fn put(self, row: Seq<u8>) -> (BatcherView, Option<PushResult>) {
        let measured = self.measured_for(row.len());
        if self.rows.len() == 0 {
            (self.started(row), Some(PushResult::Accepted((self.last_id + 1) as u64)))
        } else if !measured.spent.exhausted(false, row.len()) {
            (measured.extended(row), Some(PushResult::Accepted(self.last_id)))
        } else {
            match measured.sealed() {
                Some(sealed) => {
                    let waiting = self.rows.skip(sealed.count).push(row) + self.spillover;
                    (
                        measured.finished(sealed, waiting.skip(1)).started(waiting[0]),
                        Some(PushResult::BatchReady((self.last_id + 1) as u64)),
                    )
                },
                None => (measured.emptied(self.rows.skip(1) + self.spillover), None),
            }
        }
    }

    /// The rows that wait are put into the open batch, in order, until one finishes it.
    pub open spec fn replayed(self) -> (BatcherView, Option<PushResult>)
        decreases self.spillover.len(),
    {
        if self.spillover.len() == 0 {
            (self, Some(PushResult::Accepted(self.last_id)))
        } else {
            let next = BatcherView { spillover: self.spillover.skip(1), ..self }.put(
                self.spillover[0],
            );
            if next.1 is Some && next.1->0 is Accepted {
                next.0.replayed()
            } else {
                next
            }
        }
    }

    /// An entry is pushed. No entry is taken while a finished batch waits; rows that wait go
    /// first. If they finish a batch, an entry that fits waits behind them, and one that fits
    /// into no batch is passed over.
    pub open spec fn pushed(self, row: Seq<u8>) -> (BatcherView, Option<PushResult>) {
        if self.pending is Some {
            (self, Some(PushResult::BatchReady(self.open_id() as u64)))
        } else {
            let (replayed, result) = self.replayed();
            match result {
                None => (replayed, None),
                Some(ready) => if ready is BatchReady {
                    if fits(row) {
                        (
                            BatcherView { spillover: replayed.spillover.push(row), ..replayed },
                            Some(ready),
                        )
                    } else {
                        (replayed, Some(ready))
                    }
                } else if fits(row) {
                    replayed.put(row)
                } else {
                    (replayed, Some(PushResult::TooLarge))
                },
            }
        }
    }

    /// Every one of the rows is accepted into the open batch when they are pushed in order.
    pub open spec fn accepts(self, rows: Seq<Seq<u8>>) -> bool
        decreases rows.len(),
    {
        rows.len() > 0 ==> {
            let result = self.with_rows(rows.drop_last()).pushed(rows.last()).1;
            self.accepts(rows.drop_last()) && result is Some && result->0 is Accepted
        }
    }

    /// The batcher once the rows were pushed in order.
    pub open spec fn with_rows(self, rows: Seq<Seq<u8>>) -> BatcherView
        decreases rows.len(),
    {
        if rows.len() == 0 {
            self
        } else {
            self.with_rows(rows.drop_last()).pushed(rows.last()).0
        }
    }
}

/// What is in the encoder while `rows` stand in the open batch: an array without its end.
spec fn opened(rows: Seq<Seq<u8>>) -> Seq<u8> {
    if rows.len() == 0 {
        Seq::empty()
    } else {
        seq![0x5bu8] + joined(rows)
    }
}

proof fn lemma_joined_push(rows: Seq<Seq<u8>>, row: Seq<u8>)
    ensures
        joined(rows.push(row)) == if rows.len() == 0 {
            row
        } else {
            joined(rows) + seq![0x2cu8] + row
        },
{
    assert(rows.push(row).drop_last() =~= rows);
}

proof fn lemma_contents_push(rows: Seq<Bytes>, row: Bytes)
    ensures
        contents(rows.push(row)) == contents(rows).push(encoder::octets(row)),
{
    assert(contents(rows.push(row)) =~= contents(rows).push(encoder::octets(row)));
}

proof fn lemma_contents_cons(row: Bytes, rows: Seq<Bytes>)
    ensures
        contents(seq![row] + rows) == seq![encoder::octets(row)] + contents(rows),
{
    assert(contents(seq![row] + rows) =~= seq![encoder::octets(row)] + contents(rows));
}

/// The bytes in an encoder that was fed the rows are the array without its end.
proof fn lemma_plain_rows(rows: Seq<Seq<u8>>)
    ensures
        encoder::plain(fed_rows(rows)) == seq![0x5bu8] + joined(rows),
    decreases rows.len(),
{
    let none = Seq::<Option<Seq<u8>>>::empty();
    let open = none.push(Some(seq![0x5bu8]));
    encoder::lemma_plain_push(none, Some(seq![0x5bu8]));
    assert(encoder::plain(open) =~= seq![0x5bu8]);
    if rows.len() == 0 {
        assert(fed_rows(rows) =~= open);
        assert(seq![0x5bu8] + joined(rows) =~= seq![0x5bu8]);
    } else if rows.len() == 1 {
        assert(fed_rows(rows) =~= open.push(Some(rows[0])));
        encoder::lemma_plain_push(open, Some(rows[0]));
    } else {
        let front = fed_rows(rows.drop_last());
        lemma_plain_rows(rows.drop_last());
        encoder::lemma_plain_push(front, Some(seq![0x2cu8]));
        encoder::lemma_plain_push(front.push(Some(seq![0x2cu8])), Some(rows.last()));
        assert(encoder::plain(fed_rows(rows)) =~= seq![0x5bu8] + joined(rows));
    }
}

proof fn lemma_cut_bounds(rows: Seq<Seq<u8>>, target: int)
    requires
        rows.len() > 0,
    ensures
        1 <= cut(rows, target) <= rows.len(),
        rows.len() > 1 && target > 0 ==> cut(rows, target) < rows.len(),
    decreases rows.len(),
{
    if rows.len() > 1 && target > 0 {
        lemma_cut_bounds(rows.drop_last(), target - (rows.last().len() + 1));
    }
}

proof fn lemma_tail_bytes(rows: Seq<Seq<u8>>, k: int)
    requires
        rows.len() > 0,
        0 <= k < rows.len(),
    ensures
        tail_bytes(rows, k) == tail_bytes(rows.drop_last(), k) + rows.last().len() + 1,
    decreases rows.len() - k,
{
    if k + 1 < rows.len() {
        lemma_tail_bytes(rows, k + 1);
        assert(rows.drop_last()[k] == rows[k]);
    } else {
        assert(tail_bytes(rows, k + 1) == 0);
        assert(tail_bytes(rows.drop_last(), k) == 0);
    }
}

/// An oversize batch is cut where it has to be: as few rows as possible leave from the end
/// until they take up the bytes that are too many, and at least one row stays.
pub proof fn as_few_rows_as_possible_leave(rows: Seq<Seq<u8>>, target: nat)
    requires
        rows.len() > 0,
        target > 0,
    ensures
        is_cut(rows, target, cut(rows, target as int)),
    decreases rows.len(),
{
    lemma_cut_bounds(rows, target as int);
    if rows.len() > 1 {
        let last = rows.last().len() + 1;
        let front = rows.drop_last();
        if target > last {
            let rest = (target - last) as nat;
            as_few_rows_as_possible_leave(front, rest);
            let keep = cut(front, rest as int);
            lemma_tail_bytes(rows, keep);
            if keep + 1 < rows.len() {
                lemma_tail_bytes(rows, keep + 1);
            } else {
                assert(tail_bytes(rows, keep + 1) == 0);
            }
        } else {
            let keep = rows.len() - 1;
            assert(cut(front, target - last) == keep);
            lemma_tail_bytes(rows, keep);
            assert(tail_bytes(front, keep) == 0);
            assert(tail_bytes(rows, keep + 1) == 0);
        }
    }
}

/// Rows whose stream is within the hard limit are finalized all together, in one batch.
pub proof fn small_batches_are_sent_whole(batcher: BatcherView)
    requires
        batcher.rows.len() > 0,
        encoder::gzipped(batcher.level, closed_array(batcher.fed)).len() <= ONE_MB,
    ensures
        batcher.finalized() == (
            BatcherView {
                pending: Some(
                    BatchView {
                        batch_id: batcher.last_id,
                        data: encoder::gzipped(batcher.level, closed_array(batcher.fed)),
                        row_count: batcher.rows.len() as u64,
                        flush_count: batcher.spent.flush_count,
                    },
                ),
                ..batcher.emptied(batcher.spillover)
            },
            Some(FinalizeResult::Finalized),
        ),
{
    assert(batcher.rows.skip(batcher.rows.len() as int) + batcher.spillover =~= batcher.spillover);
}

/// The entry for which there is no room starts the next batch, and its id is returned: if
/// nothing waits and nothing is cut off the batch that is finished, the next one holds exactly
/// the entry.
pub proof fn next_batch_starts_with_the_entry(batcher: BatcherView, row: Seq<u8>)
    requires
        batcher.pending is None,
        batcher.spillover.len() == 0,
        fits(row),
        batcher.pushed(row).1 is Some,
        batcher.pushed(row).1->0 is BatchReady,
        batcher.pushed(row).0.pending->0.row_count == batcher.rows.len(),
        batcher.rows.len() <= u64::MAX,
        batcher.last_id < u64::MAX,
    ensures
        batcher.pushed(row).0.rows == seq![row],
        batcher.pushed(row).0.spillover.len() == 0,
        batcher.pushed(row).0.pending->0.batch_id == batcher.last_id,
        batcher.pushed(row).1 == Some(PushResult::BatchReady((batcher.last_id + 1) as u64)),
        batcher.pushed(row).0.last_id == batcher.last_id + 1,
{
    let v = batcher.measured_for(row.len());
    if let Some(sealed) = v.sealed() {
        lemma_sealed_count(v);
        let waiting = batcher.rows.skip(sealed.count).push(row) + batcher.spillover;
        assert(waiting =~= seq![row]);
    }
}

proof fn lemma_recovered_count(level: u32, rows: Seq<Seq<u8>>, len: nat)
    requires
        rows.len() > 0,
    ensures
        recovered(level, rows, len) matches Some((count, _)) ==> 1 <= count <= rows.len(),
    decreases rows.len(),
{
    let keep = cut(rows, drop_target(len) as int);
    lemma_cut_bounds(rows, drop_target(len) as int);
    let data = encoder::gzipped(level, closed_array(fed_rows(rows.take(keep))));
    if data.len() > ONE_MB && keep > 1 && keep < rows.len() {
        lemma_recovered_count(level, rows.take(keep), data.len());
    }
}

proof fn lemma_sealed_count(batcher: BatcherView)
    requires
        batcher.rows.len() > 0,
        batcher.sealed() is Some,
    ensures
        1 <= batcher.sealed()->0.count <= batcher.rows.len(),
{
    let data = encoder::gzipped(batcher.level, closed_array(batcher.fed));
    if data.len() > ONE_MB {
        lemma_recovered_count(batcher.level, batcher.rows, data.len());
    }
}

/// Accumulates JSON entries into gzip-compressed batches that stay under a size limit.
pub struct GzipBatcher {
    stream: GzStream,
    level: u32,
    budget: Budget,
    batch_id: u64,
    pending_batch: Option<GzipResult>,
    current_rows: Vec<Bytes>,
    spillover_rows: VecDeque<Bytes>,
}

impl View for GzipBatcher {
    type V = BatcherView;

    closed spec fn view(&self) -> BatcherView {
        BatcherView {
            level: self.level,
            rows: contents(self.current_rows@),
            spillover: contents(self.spillover_rows@),
            fed: encoder::fed(self.stream),
            spent: self.budget,
            last_id: self.batch_id,
            pending: match self.pending_batch {
                Some(batch) => Some(batch@),
                None => None,
            },
        }
    }
}

impl GzipBatcher {
    /// The compression level.
    pub open spec fn level(&self) -> u32 {
        self@.level
    }

    /// The rows in the open batch.
    pub open spec fn rows(&self) -> Seq<Seq<u8>> {
        self@.rows
    }

    /// The rows that wait for a later batch.
    pub open spec fn spillover(&self) -> Seq<Seq<u8>> {
        self@.spillover
    }

    /// The finished batch that waits to be taken.
    pub closed spec fn pending(&self) -> Option<GzipResult> {
        self.pending_batch
    }

    /// The id of the batch that was started last.
    pub open spec fn last_id(&self) -> u64 {
        self@.last_id
    }

    /// The budget of the open batch.
    pub open spec fn spent(&self) -> Budget {
        self@.spent
    }

    /// The id of the batch that takes the next row.
    pub open spec fn open_id(&self) -> int {
        self@.open_id()
    }

    /// The rows that were accepted and stand in no finished batch yet, in order.
    pub open spec fn kept(&self) -> Seq<Seq<u8>> {
        self.rows() + self.spillover()
    }

    closed spec fn sound(&self) -> bool {
        &&& self.level <= 9
        &&& encoder::level_of(self.stream) == self.level
        &&& self.budget.wf()
        &&& self.rows().len() == 0 ==> self.budget == Budget::full() && self@.fed.len() == 0
        &&& encoder::plain(self@.fed) == opened(self.rows())
        &&& (encoder::emitted(self.stream).len() > 0) == (self.rows().len() > 0)
        &&& all_fit(self.rows())
        &&& all_fit(self.spillover())
        &&& self.pending() is Some ==> self.pending()->0.is_whole()
    }

    /// The encoder holds the opened array of the rows, every row fits into a batch, and the
    /// open batch may still be flushed.
    pub closed spec fn wf(&self) -> bool {
        self.sound() && self.budget.flush_count < MAX_GZIP_FLUSH_COUNT
    }

    /// What the view says of the batch that waits to be taken.
    pub proof fn lemma_pending(&self)
        ensures
            self@.pending == match self.pending() {
                Some(batch) => Some(batch@),
                None => None,
            },
    {
    }

    /// Create a new batcher with the given gzip compression level (0-9).
    pub fn new(compression_level: u32) -> (r: Self)
        requires
            compression_level <= 9,
        ensures
            r.wf(),
            r@ == BatcherView::empty(compression_level),
            r.pending() is None,
    {
        let r = GzipBatcher {
            stream: encoder::new_encoder(ONE_MB, compression_level),
            level: compression_level,
            budget: Budget::new(),
            batch_id: 0,
            pending_batch: None,
            current_rows: Vec::new(),
            spillover_rows: VecDeque::new(),
        };
        assert(r@ =~= BatcherView::empty(compression_level));
        r
    }

    /// Returns `true` if the encoder buffer contains uncommitted data.
    pub fn has_pending_data(&self) -> (r: bool)
        requires
            self.wf(),
        ensures
            r == (self.rows().len() > 0),
    {
        encoder::emitted_len(&self.stream) > 0
    }

    /// The id of the batch that was started last.
    pub fn batch_count(&self) -> (r: u64)
        ensures
            r == self.last_id(),
    {
        self.batch_id
    }

    /// Take the pending completed batch, if any.
    pub fn take_pending_batch(&mut self) -> (r: Option<GzipResult>)
        requires
            old(self).wf(),
        ensures
            final(self).wf(),
            r == old(self).pending(),
            r is Some ==> r->0.is_whole(),
            old(self)@.pending == match r {
                Some(batch) => Some(batch@),
                None => None,
            },
            final(self).pending() is None,
            final(self)@ == (BatcherView { pending: None, ..old(self)@ }),
    {
        self.pending_batch.take()
    }

    /// Drops the open batch, so that the next row starts a clean one.
    fn discard(&mut self)
        requires
            old(self).level <= 9,
            all_fit(old(self).spillover()),
            old(self).pending() is Some ==> old(self).pending()->0.is_whole(),
        ensures
            final(self).wf(),
            final(self)@ == old(self)@.emptied(old(self).spillover()),
            final(self).pending() == old(self).pending(),
    {
        self.stream = encoder::new_encoder(ONE_MB, self.level);
        self.budget = Budget::new();
        self.current_rows = Vec::new();
        assert(self@ =~= old(self)@.emptied(old(self).spillover()));
    }

    /// Compresses the rows of the open batch from scratch.
    fn replay_and_compress(&self) -> (r: Result<Vec<u8>, ExporterError>)
        requires
            self.level <= 9,
        ensures
            r is Ok,
            r->Ok_0@ == encoder::gzipped(self.level(), closed_array(fed_rows(self.rows()))),
            encoder::decompressed(r->Ok_0@) == json_array(self.rows()),
    {
        let mut stream: GzStream = encoder::new_encoder(ONE_MB, self.level);
        let open: Vec<u8> = vec![0x5bu8];
        let comma: Vec<u8> = vec![0x2cu8];
        let close: Vec<u8> = vec![0x5du8];
        match encoder::write_all(&mut stream, open.as_slice()) {
            Ok(_) => {},
            Err(e) => {
                return Err(ExporterError::BatchFinalizeFailed(e));
            },
        }
        let mut i: usize = 0;
        proof {
            assert(self.rows().take(0) =~= Seq::<Seq<u8>>::empty());
            assert(open@ =~= seq![0x5bu8]);
            assert(encoder::fed(stream) =~= fed_rows(self.rows().take(0)));
        }
        while i < self.current_rows.len()
            invariant
                i <= self.current_rows@.len(),
                comma@ == seq![0x2cu8],
                encoder::level_of(stream) == self.level,
                encoder::fed(stream) == fed_rows(self.rows().take(i as int)),
            decreases self.current_rows@.len() - i,
        {
            if i > 0 {
                match encoder::write_all(&mut stream, comma.as_slice()) {
                    Ok(_) => {},
                    Err(e) => {
                        return Err(ExporterError::BatchFinalizeFailed(e));
                    },
                }
            }
            match encoder::write_all(&mut stream, encoder::bytes_slice(&self.current_rows[i])) {
                Ok(_) => {},
                Err(e) => {
                    return Err(ExporterError::BatchFinalizeFailed(e));
                },
            }
            proof {
                let front = self.rows().take(i as int);
                let next = self.rows().take(i + 1);
                assert(next.drop_last() =~= front);
                assert(next.last() == self.rows()[i as int]);
                if i == 0 {
                    assert(next =~= seq![self.rows()[0]]);
                }
                assert(encoder::fed(stream) =~= fed_rows(next));
            }
            i = i + 1;
        }
        let ghost fed0 = encoder::fed(stream);
        match encoder::write_all(&mut stream, close.as_slice()) {
            Ok(_) => {},
            Err(e) => {
                return Err(ExporterError::BatchFinalizeFailed(e));
            },
        }
        proof {
            assert(self.rows().take(i as int) =~= self.rows());
            assert(close@ =~= seq![0x5du8]);
            lemma_plain_rows(self.rows());
            encoder::lemma_plain_push(fed0, Some(seq![0x5du8]));
            assert(encoder::plain(encoder::fed(stream)) =~= json_array(self.rows()));
        }
        match encoder::finish(stream) {
            Ok(data) => Ok(data),
            Err(e) => Err(ExporterError::BatchFinalizeFailed(e)),
        }
    }

    /// Moves rows from the end of an oversize batch to the front of those that wait.
    fn clip_tail_for_spillover(&mut self, oversized_len: usize)
        requires
            old(self).rows().len() > 0,
        ensures
            ({
                let keep = cut(old(self).rows(), drop_target(oversized_len as nat) as int);
                final(self)@ == (BatcherView {
                    rows: old(self).rows().take(keep),
                    spillover: old(self).rows().skip(keep) + old(self).spillover(),
                    ..old(self)@
                })
            }),
            final(self).pending() == old(self).pending(),
            final(self).stream == old(self).stream,
    {
        let overshoot: usize = oversized_len.saturating_sub(ONE_MB);
        let target: u128 = if overshoot == 0 {
            1
        } else {
            overshoot as u128 * REPLAY_DROP_FACTOR as u128
        };
        let ghost rows = self.rows();
        let ghost spill = self.spillover();
        let mut removed: u128 = 0;
        proof {
            assert(rows.take(rows.len() as int) =~= rows);
            assert(rows.skip(rows.len() as int) + spill =~= spill);
        }
        while self.current_rows.len() > 1 && removed < target
            invariant
                rows == old(self).rows(),
                spill == old(self).spillover(),
                target == drop_target(oversized_len as nat),
                target <= 2 * usize::MAX,
                1 <= self.rows().len() <= rows.len(),
                self.rows() == rows.take(self.rows().len() as int),
                self.spillover() == rows.skip(self.rows().len() as int) + spill,
                cut(rows, target as int) == cut(self.rows(), target - removed),
                removed <= 4 * usize::MAX,
                self.pending_batch == old(self).pending_batch,
                self.batch_id == old(self).batch_id,
                self.level == old(self).level,
                self.stream == old(self).stream,
                self.budget == old(self).budget,
            decreases self.current_rows@.len(),
        {
            let ghost rows0 = self.rows();
            let ghost cur0 = self.current_rows@;
            let ghost spill0 = self.spillover_rows@;
            match self.current_rows.pop() {
                Some(row) => {
                    let ghost r = row;
                    removed = removed + encoder::bytes_len(&row) as u128 + 1;
                    self.spillover_rows.push_front(row);
                    proof {
                        let n = rows0.len() - 1;
                        assert(cur0 =~= self.current_rows@.push(r));
                        lemma_contents_push(self.current_rows@, r);
                        lemma_contents_cons(r, spill0);
                        assert(self.rows() =~= rows.take(n));
                        assert(self.rows() =~= rows0.drop_last());
                        assert(rows0[n] == rows[n]);
                        assert(self.spillover() =~= seq![rows[n]] + contents(spill0));
                        assert(self.spillover() =~= rows.skip(n) + spill);
                    }
                },
                None => {
                    assert(false);
                },
            }
        }
    }

    /// Clips and compresses again until the batch is within the hard limit.
    fn recover_from_oversize_batch(&mut self, oversized_len: usize) -> (r: Result<Vec<u8>, ExporterError>)
        requires
            old(self).level <= 9,
            old(self).rows().len() > 0,
        ensures
            1 <= final(self).rows().len() <= old(self).rows().len(),
            ({
                let keep = final(self).rows().len() as int;
                final(self)@ == (BatcherView {
                    rows: old(self).rows().take(keep),
                    spillover: old(self).rows().skip(keep) + old(self).spillover(),
                    ..old(self)@
                })
            }),
            final(self).pending() == old(self).pending(),
            match r {
                Ok(data) => {
                    &&& recovered(old(self).level(), old(self).rows(), oversized_len as nat)
                        == Some((final(self).rows().len() as int, data@))
                    &&& data@.len() <= ONE_MB
                    &&& encoder::decompressed(data@) == json_array(final(self).rows())
                },
                Err(e) => {
                    &&& recovered(old(self).level(), old(self).rows(), oversized_len as nat) is None
                    &&& final(self).rows().len() == 1
                    &&& overlong_alone(old(self).level(), old(self).rows()[0])
                    &&& is_oversize_failure(e)
                },
            },
    {
        let mut compressed_len: usize = oversized_len;
        let ghost all = self.rows();
        let ghost spill = self.spillover();
        proof {
            assert(all.take(all.len() as int) =~= all);
            assert(all.skip(all.len() as int) + spill =~= spill);
        }
        loop
            invariant
                self.level <= 9,
                all == old(self).rows(),
                spill == old(self).spillover(),
                0 < self.rows().len() <= all.len(),
                self@ == (BatcherView {
                    rows: all.take(self.rows().len() as int),
                    spillover: all.skip(self.rows().len() as int) + spill,
                    ..old(self)@
                }),
                self.pending_batch == old(self).pending_batch,
                recovered(self.level, all, oversized_len as nat) == recovered(
                    self.level,
                    self.rows(),
                    compressed_len as nat,
                ),
            decreases self.current_rows@.len(),
        {
            let ghost rows0 = self.rows();
            proof {
                lemma_cut_bounds(rows0, drop_target(compressed_len as nat) as int);
            }
            self.clip_tail_for_spillover(compressed_len);
            proof {
                let n = self.rows().len() as int;
                assert(self.rows() =~= all.take(n));
                assert(self.spillover() =~= all.skip(n) + spill);
            }
            match self.replay_and_compress() {
                Ok(data) => {
                    if data.len() <= ONE_MB {
                        return Ok(data);
                    }
                    if self.current_rows.len() <= 1 {
                        return Err(oversize_failure());
                    }
                    compressed_len = data.len();
                },
                Err(e) => {
                    return Err(e);
                },
            }
        }
    }

    /// Closes the open batch and makes it the pending one.
    fn seal(&mut self) -> (r: Result<FinalizeResult, ExporterError>)
        requires
            old(self).sound(),
        ensures
            final(self).wf(),
            old(self)@.finalized() == (final(self)@, outcome(r)),
            match r {
                Ok(FinalizeResult::Empty) => final(self).pending() == old(self).pending(),
                Ok(FinalizeResult::Finalized) => {
                    &&& final(self).pending() is Some
                    &&& sends_front(
                        final(self).pending()->0,
                        old(self).kept(),
                        final(self).spillover(),
                    )
                    &&& old(self)@.overlong() || (final(self).pending()->0.delivers(
                        old(self).rows(),
                    ) && final(self).spillover() == old(self).spillover())
                },
                Err(e) => {
                    &&& is_oversize_failure(e)
                    &&& old(self)@.overlong()
                    &&& overlong_alone(old(self).level(), old(self).rows()[0])
                    &&& final(self).pending() == old(self).pending()
                },
            },
    {
        if encoder::emitted_len(&self.stream) == 0 {
            return Ok(FinalizeResult::Empty);
        }
        let ghost v0 = self@;
        let ghost rows0 = self.rows();
        let ghost kept0 = self.kept();
        let close: Vec<u8> = vec![0x5du8];
        let mut stream: GzStream = encoder::new_encoder(ONE_MB, self.level);
        std::mem::swap(&mut stream, &mut self.stream);
        match encoder::write_all(&mut stream, close.as_slice()) {
            Ok(_) => {},
            Err(e) => {
                self.discard();
                return Err(ExporterError::BatchFinalizeFailed(e));
            },
        }
        proof {
            assert(close@ =~= seq![0x5du8]);
            encoder::lemma_plain_push(v0.fed, Some(seq![0x5du8]));
            assert(encoder::plain(encoder::fed(stream)) =~= json_array(rows0));
        }
        let mut data: Vec<u8> = match encoder::finish(stream) {
            Ok(data) => data,
            Err(e) => {
                self.discard();
                return Err(ExporterError::BatchFinalizeFailed(e));
            },
        };
        let mut flush_count: usize = self.budget.flush_count;
        proof {
            assert(rows0.take(rows0.len() as int) =~= rows0);
            assert(rows0.skip(rows0.len() as int) + v0.spillover =~= v0.spillover);
        }
        if data.len() > ONE_MB {
            match self.recover_from_oversize_batch(data.len()) {
                Ok(smaller) => {
                    data = smaller;
                    flush_count = 0;
                    proof {
                        assert(self.rows() + self.spillover() =~= kept0);
                        lemma_spill_fits(kept0, self.rows(), self.spillover());
                    }
                },
                Err(e) => {
                    proof {
                        assert(self.rows() + self.spillover() =~= kept0);
                        lemma_spill_fits(kept0, self.rows(), self.spillover());
                        assert(self.rows() =~= seq![rows0[0]]);
                    }
                    self.discard();
                    assert(self@ =~= v0.finalized().0);
                    return Err(e);
                },
            }
        }
        let ghost sent = self.rows();
        let ghost left = self.spillover();
        let row_count: u64 = self.current_rows.len() as u64;
        let batch: GzipResult = GzipResult {
            batch_id: self.batch_id,
            compressed_data: encoder::bytes_from(data),
            row_count,
            flush_count,
        };
        proof {
            assert(batch.delivers(sent));
            assert(kept0 =~= sent + left);
            assert(sends(batch, sent, kept0, left));
        }
        self.pending_batch = Some(batch);
        self.discard();
        assert(self@ =~= v0.finalized().0);
        Ok(FinalizeResult::Finalized)
    }

    /// Finalize the current batch, making it available via
    /// [`take_pending_batch`](Self::take_pending_batch).
    ///
    /// All rows are sent if their stream is within the hard limit. Otherwise rows from the end
    /// are kept back for a later batch. It fails only if the first row alone is too large.
    pub fn finalize(&mut self) -> (r: Result<FinalizeResult, ExporterError>)
        requires
            old(self).wf(),
        ensures
            final(self).wf(),
            old(self)@.finalized() == (final(self)@, outcome(r)),
            final(self).level() == old(self).level(),
            final(self).rows().len() == 0,
            final(self).last_id() == old(self).last_id(),
            match r {
                Ok(FinalizeResult::Empty) => {
                    &&& old(self).rows().len() == 0
                    &&& final(self).spillover() == old(self).spillover()
                    &&& final(self).pending() == old(self).pending()
                },
                Ok(FinalizeResult::Finalized) => {
                    &&& old(self).rows().len() > 0
                    &&& final(self).pending() is Some
                    &&& final(self).pending()->0.batch_id == old(self).last_id()
                    &&& sends_front(
                        final(self).pending()->0,
                        old(self).kept(),
                        final(self).spillover(),
                    )
                    &&& old(self)@.overlong() || (final(self).pending()->0.delivers(
                        old(self).rows(),
                    ) && final(self).spillover() == old(self).spillover())
                },
                Err(e) => {
                    &&& is_oversize_failure(e)
                    &&& old(self).rows().len() > 0
                    &&& old(self)@.overlong()
                    &&& overlong_alone(old(self).level(), old(self).rows()[0])
                    &&& final(self).spillover() == old(self).kept().skip(1)
                    &&& final(self).pending() == old(self).pending()
                },
            },
    {
        let r: Result<FinalizeResult, ExporterError> = self.seal();
        proof {
            if old(self).rows().len() > 0 {
                assert(old(self).kept().skip(1) =~= old(self).rows().skip(1) + old(
                    self,
                ).spillover());
            }
        }
        r
    }

    /// Starts the next batch with `row`.
    fn start_batch(&mut self, row: Bytes) -> (r: Result<(), ExporterError>)
        requires
            old(self).wf(),
            old(self).rows().len() == 0,
            fits(encoder::octets(row)),
            old(self).last_id() < u64::MAX,
        ensures
            r is Ok,
            final(self).wf(),
            final(self)@ == old(self)@.started(encoder::octets(row)),
            final(self).pending() == old(self).pending(),
    {
        let ghost bytes = encoder::octets(row);
        let open: Vec<u8> = vec![0x5bu8];
        let len: usize = encoder::bytes_len(&row);
        self.batch_id = self.batch_id + 1;
        match encoder::write_all(&mut self.stream, open.as_slice()) {
            Ok(_) => {},
            Err(e) => {
                self.discard();
                return Err(ExporterError::BatchPushFailed(e));
            },
        }
        match encoder::write_all(&mut self.stream, encoder::bytes_slice(&row)) {
            Ok(_) => {},
            Err(e) => {
                self.discard();
                return Err(ExporterError::BatchPushFailed(e));
            },
        }
        self.budget.accepted(true, len);
        proof {
            assert(open@ =~= seq![0x5bu8]);
            lemma_contents_push(self.current_rows@, row);
        }
        self.current_rows.push(row);
        proof {
            assert(self.rows() =~= seq![bytes]);
            assert(self@.fed =~= fed_rows(seq![bytes]));
            lemma_plain_rows(seq![bytes]);
            assert(self@ =~= old(self)@.started(bytes));
        }
        Ok(())
    }

    /// Puts a row that fits into the open batch, or into the next one if the open one is full.
    fn push_internal(&mut self, row: Bytes) -> (r: Result<PushResult, ExporterError>)
        requires
            old(self).wf(),
            old(self).pending() is None,
            fits(encoder::octets(row)),
            old(self).last_id() < u64::MAX,
        ensures
            final(self).wf(),
            old(self)@.put(encoder::octets(row)) == (final(self)@, outcome(r)),
            match r {
                Ok(PushResult::Accepted(_)) => final(self).pending() is None,
                Ok(PushResult::BatchReady(_)) => {
                    &&& final(self).pending() is Some
                    &&& final(self).pending()->0.batch_id == old(self).open_id()
                    &&& sends_front(
                        final(self).pending()->0,
                        old(self).rows().push(encoder::octets(row)) + old(self).spillover(),
                        final(self).kept(),
                    )
                    &&& old(self)@.measured_for(encoder::octets(row).len()).overlong() || (final(self).pending()->0.delivers(
                        old(self).rows(),
                    ) && final(self).rows() == seq![encoder::octets(row)]
                        && final(self).spillover() == old(self).spillover())
                },
                Ok(PushResult::TooLarge) => false,
                Err(e) => {
                    &&& is_oversize_failure(e)
                    &&& final(self).pending() is None
                    &&& old(self).rows().len() > 0
                    &&& old(self)@.measured_for(encoder::octets(row).len()).overlong()
                    &&& overlong_alone(old(self).level(), old(self).rows()[0])
                },
            },
    {
        let ghost bytes = encoder::octets(row);
        let ghost v0 = self@;
        let ghost rows0 = self.rows();
        let ghost spill0 = self.spillover();
        let len: usize = encoder::bytes_len(&row);
        if self.current_rows.len() == 0 {
            return match self.start_batch(row) {
                Ok(_) => Ok(PushResult::Accepted(self.batch_id)),
                Err(e) => Err(e),
            };
        }
        if self.budget.needs_flush(false, len) {
            match encoder::flush(&mut self.stream) {
                Ok(_) => {},
                Err(e) => {
                    self.discard();
                    return Err(ExporterError::BatchPushFailed(e));
                },
            }
            proof {
                encoder::lemma_plain_push(v0.fed, None);
            }
            self.budget.flushed(encoder::emitted_len(&self.stream));
        }
        let ghost v1 = self@;
        assert(v1 =~= v0.measured_for(bytes.len()));
        if self.budget.needs_finalize(false, len) {
            let mut rest: VecDeque<Bytes> = VecDeque::new();
            std::mem::swap(&mut rest, &mut self.spillover_rows);
            let ghost aside = self@;
            proof {
                assert(self.spillover() =~= Seq::<Seq<u8>>::empty());
                assert(aside =~= BatcherView { spillover: Seq::empty(), ..v1 });
                assert(self.kept() =~= rows0);
                assert(aside.sealed() == v1.sealed());
            }
            match self.seal() {
                Ok(FinalizeResult::Finalized) => {
                    let ghost sent = choose|sent: Seq<Seq<u8>>| #[trigger]
                        sends(self.pending()->0, sent, rows0, self.spillover());
                    let ghost clipped = self.spillover_rows@;
                    let ghost sealed = v1.sealed()->0;
                    proof {
                        lemma_sealed_count(v1);
                        assert(contents(clipped) =~= rows0.skip(sealed.count));
                    }
                    self.spillover_rows.push_back(row);
                    self.spillover_rows.append(&mut rest);
                    proof {
                        lemma_contents_push(clipped, row);
                        assert(self.spillover() =~= contents(clipped).push(bytes) + spill0);
                        assert(all_fit(self.spillover()));
                    }
                    let ghost waiting = self.spillover();
                    match self.spillover_rows.pop_front() {
                        Some(next) => {
                            proof {
                                assert(self.spillover() =~= waiting.skip(1));
                                assert(encoder::octets(next) == waiting[0]);
                                assert(all_fit(self.spillover()));
                                assert(self@ =~= v1.finished(sealed, waiting.skip(1)));
                            }
                            match self.start_batch(next) {
                                Ok(_) => {
                                    proof {
                                        assert(self.kept() =~= waiting);
                                        assert(sends(
                                            self.pending()->0,
                                            sent,
                                            rows0.push(bytes) + spill0,
                                            self.kept(),
                                        )) by {
                                            assert(rows0.push(bytes) + spill0 =~= sent
                                                + self.kept());
                                        }
                                    }
                                    Ok(PushResult::BatchReady(self.batch_id))
                                },
                                Err(e) => Err(e),
                            }
                        },
                        None => {
                            assert(waiting.len() > 0);
                            Ok(PushResult::BatchReady(self.batch_id))
                        },
                    }
                },
                Ok(FinalizeResult::Empty) => vstd::pervasive::unreached(),
                Err(e) => {
                    let ghost clipped = self.spillover_rows@;
                    self.spillover_rows.append(&mut rest);
                    proof {
                        assert(self.spillover() =~= contents(clipped) + spill0);
                        assert(contents(clipped) =~= rows0.skip(1));
                        assert(all_fit(self.spillover()));
                        assert(self@ =~= v0.put(bytes).0);
                    }
                    Err(e)
                },
            }
        } else {
            let comma: Vec<u8> = vec![0x2cu8];
            match encoder::write_all(&mut self.stream, comma.as_slice()) {
                Ok(_) => {},
                Err(e) => {
                    self.discard();
                    return Err(ExporterError::BatchPushFailed(e));
                },
            }
            match encoder::write_all(&mut self.stream, encoder::bytes_slice(&row)) {
                Ok(_) => {},
                Err(e) => {
                    self.discard();
                    return Err(ExporterError::BatchPushFailed(e));
                },
            }
            self.budget.accepted(false, len);
            proof {
                assert(comma@ =~= seq![0x2cu8]);
                encoder::lemma_plain_push(v1.fed, Some(seq![0x2cu8]));
                encoder::lemma_plain_push(v1.fed.push(Some(seq![0x2cu8])), Some(bytes));
                lemma_contents_push(self.current_rows@, row);
                lemma_joined_push(rows0, bytes);
            }
            self.current_rows.push(row);
            proof {
                assert(self.rows() == rows0.push(bytes));
                assert(encoder::plain(self@.fed) =~= opened(self.rows()));
                assert(self@ =~= v1.extended(bytes));
            }
            Ok(PushResult::Accepted(self.batch_id))
        }
    }

    /// Push an entry into the batcher. Returns the push result.
    ///
    /// While a finished batch waits to be taken, no entry is taken. Rows that wait are put into
    /// the open batch first. An entry that no longer fits into the open batch finishes it and
    /// starts the next one. If the rows that wait finish a batch, an entry that fits into no
    /// batch is passed over.
    pub fn push(&mut self, data: Bytes) -> (r: Result<PushResult, ExporterError>)
        requires
            old(self).wf(),
            old(self).last_id() + 2 <= u64::MAX,
        ensures
            final(self).wf(),
            old(self)@.pushed(encoder::octets(data)) == (final(self)@, outcome(r)),
            final(self).level() == old(self).level(),
            final(self).last_id() <= old(self).last_id() + 2,
            final(self).pending() is Some == final(self)@.pending is Some,
            old(self).pending() is Some ==> {
                &&& final(self)@ == old(self)@
                &&& final(self).pending() == old(self).pending()
                &&& r == Ok::<PushResult, ExporterError>(
                    PushResult::BatchReady(old(self).open_id() as u64),
                )
            },
            old(self).pending() is None ==> match r {
                Ok(PushResult::Accepted(id)) => {
                    &&& fits(encoder::octets(data))
                    &&& final(self).pending() is None
                    &&& final(self).rows() == old(self).kept().push(encoder::octets(data))
                    &&& final(self).spillover().len() == 0
                    &&& id == final(self).last_id()
                    &&& id == old(self).open_id()
                },
                Ok(PushResult::BatchReady(id)) => {
                    &&& fits(encoder::octets(data)) || old(self).spillover().len() > 0
                    &&& final(self).pending() is Some
                    &&& final(self).pending()->0.batch_id == old(self).open_id()
                    &&& sends_front(
                        final(self).pending()->0,
                        if fits(encoder::octets(data)) {
                            old(self).kept().push(encoder::octets(data))
                        } else {
                            old(self).kept()
                        },
                        final(self).kept(),
                    )
                    &&& old(self).spillover().len() == 0 ==> old(self)@.measured_for(
                        encoder::octets(data).len(),
                    ).overlong() || (
                    final(self).pending()->0.delivers(old(self).rows()) && final(self).rows()
                        == seq![encoder::octets(data)] && final(self).spillover().len() == 0)
                    &&& id == final(self).last_id()
                    &&& id == old(self).open_id() + 1
                },
                Ok(PushResult::TooLarge) => {
                    &&& !fits(encoder::octets(data))
                    &&& final(self).pending() is None
                    &&& final(self).kept() == old(self).kept()
                },
                Err(e) => {
                    &&& is_oversize_failure(e)
                    &&& old(self).kept().len() > 0
                    &&& overlong_alone(old(self).level(), old(self).kept()[0])
                    &&& old(self).spillover().len() == 0 ==> old(self)@.measured_for(
                        encoder::octets(data).len(),
                    ).overlong()
                    &&& final(self).pending() is None
                },
            },
    {
        let ghost bytes = encoder::octets(data);
        let ghost v0 = self@;
        let ghost kept0 = self.kept();
        if self.pending_batch.is_some() {
            if self.current_rows.len() > 0 {
                return Ok(PushResult::BatchReady(self.batch_id));
            }
            return Ok(PushResult::BatchReady(self.batch_id + 1));
        }
        let too_large: bool = encoder::bytes_len(&data) > TARGET_LIMIT - 2;
        while self.spillover_rows.len() > 0
            invariant
                self.wf(),
                self.pending() is None,
                old(self).pending() is None,
                old(self).last_id() + 2 <= u64::MAX,
                too_large == !fits(bytes),
                bytes == encoder::octets(data),
                v0 == old(self)@,
                v0.replayed() == self@.replayed(),
                kept0 == old(self).kept(),
                self.kept() == kept0,
                self.level() == old(self).level(),
                self.open_id() == old(self).open_id(),
                self.last_id() <= old(self).last_id() + 1,
                old(self).spillover().len() == 0 ==> self@ == old(self)@,
            decreases self.spillover_rows@.len(),
        {
            let ghost v1 = self@;
            let ghost rows1 = self.rows();
            let ghost spill1 = self.spillover();
            match self.spillover_rows.pop_front() {
                Some(row) => {
                    let ghost next = encoder::octets(row);
                    proof {
                        assert(self.spillover() =~= spill1.skip(1));
                        assert(next == spill1[0]);
                        assert(all_fit(self.spillover()));
                        assert(rows1.push(next) + self.spillover() =~= kept0);
                        assert(self@ =~= BatcherView { spillover: spill1.skip(1), ..v1 });
                    }
                    match self.push_internal(row) {
                        Ok(PushResult::Accepted(_)) => {
                            assert(self.kept() =~= kept0);
                        },
                        Ok(PushResult::BatchReady(id)) => {
                            if too_large {
                                return Ok(PushResult::BatchReady(id));
                            }
                            let ghost v2 = self@;
                            let ghost kept1 = self.kept();
                            let ghost waiting = self.spillover_rows@;
                            let ghost sent = choose|sent: Seq<Seq<u8>>| #[trigger]
                                sends(self.pending()->0, sent, kept0, kept1);
                            self.spillover_rows.push_back(data);
                            proof {
                                lemma_contents_push(waiting, data);
                                assert(self.spillover() == contents(waiting).push(bytes));
                                assert(all_fit(self.spillover()));
                                assert(sends(
                                    self.pending()->0,
                                    sent,
                                    kept0.push(bytes),
                                    self.kept(),
                                )) by {
                                    assert(self.kept() =~= kept1.push(bytes));
                                    assert(kept0.push(bytes) =~= sent + self.kept());
                                }
                                assert(self@ =~= BatcherView {
                                    spillover: v2.spillover.push(bytes),
                                    ..v2
                                });
                            }
                            return Ok(PushResult::BatchReady(id));
                        },
                        Ok(PushResult::TooLarge) => {
                            assert(false);
                        },
                        Err(e) => {
                            assert(rows1[0] == kept0[0]);
                            return Err(e);
                        },
                    }
                },
                None => {
                    assert(false);
                },
            }
        }
        proof {
            assert(self.rows() =~= kept0);
            assert(self.rows().push(bytes) + self.spillover() =~= kept0.push(bytes));
        }
        if too_large {
            return Ok(PushResult::TooLarge);
        }
        self.push_internal(data)
    }
}

/// What is clipped off a batch fits into a later one.
proof fn lemma_spill_fits(
    kept: Seq<Seq<u8>>,
    rest: Seq<Seq<u8>>,
    spill: Seq<Seq<u8>>,
)
    requires
        all_fit(kept),
        rest + spill == kept,
    ensures
        all_fit(spill),
{
    assert forall|i: int| 0 <= i < spill.len() implies fits(#[trigger] spill[i]) by {
        assert(kept[rest.len() + i] == spill[i]);
    }
}

/// Rows leave in the order in which they came, each in one batch: if one batch is taken off
/// the rows `before`, more rows arrive, and a second batch is taken, then the two batches and
/// what is left hold exactly the rows that came, in order.
pub proof fn batches_keep_the_order(
    first: GzipResult,
    second: GzipResult,
    before: Seq<Seq<u8>>,
    between: Seq<Seq<u8>>,
    more: Seq<Seq<u8>>,
    after: Seq<Seq<u8>>,
) -> (sent: (Seq<Seq<u8>>, Seq<Seq<u8>>))
    requires
        sends_front(first, before, between),
        sends_front(second, between + more, after),
    ensures
        first.delivers(sent.0),
        second.delivers(sent.1),
        sent.0 + sent.1 + after == before + more,
{
    let a = choose|a: Seq<Seq<u8>>| #[trigger] sends(first, a, before, between);
    let b = choose|b: Seq<Seq<u8>>| #[trigger] sends(second, b, between + more, after);
    assert(a + b + after =~= a + (b + after));
    assert(before + more =~= a + (between + more));
    (a, b)
}

/// An array of rows starts with the opening bracket, goes on with the first row without a
/// comma before it, and ends with the last row and the closing bracket.
pub proof fn arrays_have_no_stray_comma(rows: Seq<Seq<u8>>)
    requires
        rows.len() > 0,
    ensures
        (seq![0x5bu8] + rows[0]).is_prefix_of(json_array(rows)),
        (rows.last() + seq![0x5du8]).is_suffix_of(json_array(rows)),
{
    let all = json_array(rows);
    if rows.len() == 1 {
        assert(seq![0x5bu8] + rows[0] =~= all.subrange(0, rows[0].len() as int + 1));
        assert(rows.last() + seq![0x5du8] =~= all.subrange(1, all.len() as int));
    } else {
        let front = rows.drop_last();
        let head = seq![0x5bu8] + rows[0];
        assert(front[0] == rows[0]);
        assert(joined(rows) == joined(front) + seq![0x2cu8] + rows.last());
        lemma_first_row(front);
        assert(head =~= all.subrange(0, head.len() as int)) by {
            assert forall|i: int| 0 <= i < head.len() implies head[i] == all[i] by {
                if i > 0 {
                    assert(joined(front)[i - 1] == rows[0][i - 1]);
                }
            }
        }
        let tail = rows.last() + seq![0x5du8];
        assert(tail =~= all.subrange(all.len() - tail.len(), all.len() as int));
    }
}

proof fn lemma_first_row(rows: Seq<Seq<u8>>)
    requires
        rows.len() > 0,
    ensures
        rows[0].len() <= joined(rows).len(),
        forall|i: int| 0 <= i < rows[0].len() ==> joined(rows)[i] == rows[0][i],
    decreases rows.len(),
{
    if rows.len() > 1 {
        lemma_first_row(rows.drop_last());
    }
}

/// The array of two lists of rows is that of the first, a comma, and that of the second: there
/// is exactly one comma between two rows, and nothing else.
pub proof fn one_comma_stands_between_two_rows(a: Seq<Seq<u8>>, b: Seq<Seq<u8>>)
    requires
        a.len() > 0,
        b.len() > 0,
    ensures
        joined(a + b) == joined(a) + seq![0x2cu8] + joined(b),
    decreases b.len(),
{
    let all = a + b;
    let front = b.drop_last();
    assert(all.drop_last() =~= a + front);
    assert(all.last() == b.last());
    if b.len() == 1 {
        assert(a + front =~= a);
        assert(joined(b) == b[0]);
    } else {
        one_comma_stands_between_two_rows(a, front);
        assert(joined(all) =~= joined(a) + seq![0x2cu8] + joined(b));
    }
}

/// The array of no rows is a pair of brackets, that of one row the row between brackets.
pub proof fn short_arrays(row: Seq<u8>)
    ensures
        json_array(Seq::empty()) == seq![0x5bu8, 0x5du8],
        json_array(seq![row]) == seq![0x5bu8] + row + seq![0x5du8],
{
    assert(json_array(Seq::empty()) =~= seq![0x5bu8, 0x5du8]);
}

/// A row is taken only as long as it, the comma before it and the bracket after it are within
/// the target of 1015 KiB together with the compressed bytes that the last flush gave, and the
/// batch was flushed fewer than 100 times. All other rows finish the batch.
pub proof fn batches_stay_within_the_target(
    before: Budget,
    compressed_size: nat,
    len: nat,
)
    requires
        before.flush_count < usize::MAX,
    ensures
        ({
            let after = before.measured(compressed_size);
            &&& after.flush_count == before.flush_count + 1
            &&& after.exhausted(false, len) <==> compressed_size + 1 + len + 1 > 1015 * 1024
                || before.flush_count + 1 >= 100
        }),
{
}

/// What is left for a row shrinks by what is written: once a row was taken, the next one has to
/// fit behind it, with its comma, within what was left after the last flush.
pub proof fn rows_use_up_the_budget(before: Budget, first: bool, len: nat, next: nat)
    requires
        before.wf(),
        !before.exhausted(first, len),
    ensures
        ({
            let after = before.with_row(first, len);
            &&& after.remaining_size == before.remaining_size
            &&& after.flush_count == before.flush_count
            &&& after.uncompressed_size == before.uncompressed_size + len + (if first {
                0nat
            } else {
                1nat
            })
            &&& after.overruns(false, next) <==> after.uncompressed_size + 1 + next + 1
                > before.remaining_size
        }),
{
}

/// An empty batch has the whole target of 1015 KiB, and takes exactly the rows that fit into it
/// with a bracket on either side.
pub proof fn every_row_that_fits_can_start_a_batch(row: Seq<u8>)
    ensures
        Budget::full().remaining_size == 1015 * 1024,
        Budget::full().uncompressed_size == 0,
        Budget::full().flush_count == 0,
        fits(row) <==> row.len() <= 1015 * 1024 - 2,
        fits(row) ==> !Budget::full().exhausted(true, row.len()),
{
}

/// A batch beyond 1 MiB gives up twice the bytes that it is too long.
pub proof fn oversize_batches_give_up_twice_the_excess(excess: nat)
    requires
        excess > 0,
    ensures
        drop_target(1024 * 1024 + excess) == 2 * excess,
{
}

/// A batch that is sent is at most 1 MiB long, was flushed at most a hundred times, and holds
/// its rows in brackets, with a comma between two.
pub proof fn batches_are_within_the_limits(batch: GzipResult, rows: Seq<Seq<u8>>)
    requires
        batch.delivers(rows),
    ensures
        encoder::octets(batch.compressed_data).len() <= 1024 * 1024,
        batch.flush_count <= 100,
        batch.row_count == rows.len(),
        encoder::decompressed(encoder::octets(batch.compressed_data)) == seq![0x5bu8] + joined(
            rows,
        ) + seq![0x5du8],
{
}

/// The first row of a batch starts it, under the next id.
pub proof fn first_row_starts_a_batch(batcher: BatcherView, row: Seq<u8>)
    requires
        batcher.pending is None,
        batcher.spillover.len() == 0,
        batcher.rows.len() == 0,
        batcher.last_id < u64::MAX,
        row.len() + 2 <= 1015 * 1024,
    ensures
        batcher.pushed(row).1 == Some(PushResult::Accepted((batcher.last_id + 1) as u64)),
        batcher.pushed(row).0.rows == seq![row],
        batcher.pushed(row).0.last_id == batcher.last_id + 1,
        batcher.pushed(row).0.pending is None,
{
}

/// A further row is taken while there is room for it. As long as it is within what was left at
/// the last flush, with its comma and the closing bracket, it is taken without a flush. If it is
/// not, the encoder is flushed, and the row is taken if it is within the target of 1015 KiB
/// behind the compressed bytes, and the batch was flushed fewer than a hundred times.
pub proof fn rows_are_taken_while_there_is_room(batcher: BatcherView, row: Seq<u8>)
    requires
        batcher.pending is None,
        batcher.spillover.len() == 0,
        batcher.rows.len() > 0,
        batcher.spent.wf(),
        batcher.spent.flush_count < 100,
        row.len() + 2 <= 1015 * 1024,
    ensures
        ({
            let (after, result) = batcher.pushed(row);
            let within = batcher.spent.uncompressed_size + 1 + row.len() + 1
                <= batcher.spent.remaining_size;
            let compressed = encoder::flushed(batcher.level, batcher.fed).len();
            let behind = compressed + 1 + row.len() + 1 <= 1015 * 1024
                && batcher.spent.flush_count + 1 < 100;
            &&& within || behind ==> {
                &&& result == Some(PushResult::Accepted(batcher.last_id))
                &&& after.rows == batcher.rows.push(row)
                &&& after.pending is None
                &&& after.last_id == batcher.last_id
                &&& after.spent.flush_count == batcher.spent.flush_count + (if within {
                    0int
                } else {
                    1int
                })
            }
            &&& !within && !behind ==> !(result matches Some(PushResult::Accepted(_))) && !(
            result matches Some(PushResult::TooLarge))
        }),
{
    assert(batcher.replayed() == (batcher, Some(PushResult::Accepted(batcher.last_id))));
}

/// A row that fits into no batch is refused, and the batcher stays as it was.
pub proof fn too_large_rows_are_refused(batcher: BatcherView, row: Seq<u8>)
    requires
        batcher.pending is None,
        batcher.spillover.len() == 0,
        row.len() + 2 > 1015 * 1024,
    ensures
        batcher.pushed(row) == (batcher, Some(PushResult::TooLarge)),
{
}

/// While a finished batch waits to be taken nothing is.
pub proof fn finished_batch_goes_first(batcher: BatcherView, row: Seq<u8>)
    requires
        batcher.pending is Some,
    ensures
        batcher.pushed(row).0 == batcher,
        batcher.pushed(row).1 is Some,
        batcher.pushed(row).1->0 is BatchReady,
{
}

/// Rows that wait go into the batch before the row that comes: if that is accepted, they stand
/// before it, in order, and none waits any more.
pub proof fn waiting_rows_go_first(batcher: BatcherView, row: Seq<u8>)
    requires
        batcher.pending is None,
        batcher.pushed(row).1 matches Some(PushResult::Accepted(_)),
    ensures
        batcher.pushed(row).0.rows == batcher.rows + batcher.spillover + seq![row],
        batcher.pushed(row).0.spillover.len() == 0,
{
    lemma_replayed(batcher);
    let (replayed, result) = batcher.replayed();
    assert(result is Some && result->0 is Accepted);
    assert(replayed.rows == batcher.rows + batcher.spillover);
    assert(batcher.pushed(row) == replayed.put(row));
    let measured = replayed.measured_for(row.len());
    assert(measured.rows == replayed.rows);
    if replayed.rows.len() == 0 {
        assert(replayed.rows + seq![row] =~= seq![row]);
    } else {
        assert(replayed.rows.push(row) =~= replayed.rows + seq![row]);
    }
}

proof fn lemma_replayed(batcher: BatcherView)
    ensures
        batcher.replayed().1 matches Some(result) ==> !(result is TooLarge),
        batcher.replayed().1 matches Some(PushResult::Accepted(_)) ==> {
            &&& batcher.replayed().0.rows == batcher.rows + batcher.spillover
            &&& batcher.replayed().0.spillover.len() == 0
        },
    decreases batcher.spillover.len(),
{
    if batcher.spillover.len() == 0 {
        assert(batcher.rows + batcher.spillover =~= batcher.rows);
    } else {
        let first = batcher.spillover[0];
        let rest = batcher.spillover.skip(1);
        let next = BatcherView { spillover: rest, ..batcher }.put(first);
        if next.1 is Some && next.1->0 is Accepted {
            let measured = BatcherView { spillover: rest, ..batcher }.measured_for(first.len());
            assert(measured.rows == batcher.rows && measured.spillover == rest);
            assert(next.0.rows =~= batcher.rows.push(first));
            assert(next.0.spillover == rest);
            lemma_replayed(next.0);
            assert(batcher.rows.push(first) + rest =~= batcher.rows + batcher.spillover);
        }
    }
}

} // verus!
