//! The decisions of the segmented log writer.
//!
//! The writer appends records to the current segment file. It tracks the
//! offset at which the next record lands, moves on to the next segment when
//! a record would make the current one larger than the maximal segment size,
//! and asks for a flush and sync after every `batch_size` writes. The file
//! work itself (writing, flushing, opening segment files) is done by the
//! caller; this type holds the state and takes the decisions.
use vstd::prelude::*;

use crate::record::{
    encode_record, record_bytes, log_of, parse_segment_spec, writes_fit,
    lemma_written_log_recovers, lemma_located_append,
};

verus! {

/// The number of writes between two syncs that a new writer starts with.
pub const DEFAULT_BATCH_SIZE: usize = 10;

/// The maximal segment size, in bytes, that a new writer starts with.
pub const DEFAULT_MAX_SEGMENT_SIZE: u64 = 50;

/// The state of the log writer.
pub struct LogWriter {
    batch_count: usize,
    batch_size: usize,
    current_offset: u64,
    max_segment_size: u64,
    segment_number: u32,
}

/// The state of a log writer as plain numbers.
pub struct WriterState {
    /// Writes since the last sync.
    pub batch_count: nat,
    /// Writes between two syncs; 0 turns batched syncing off.
    pub batch_size: nat,
    /// Length of the current segment: where the next record lands.
    pub current_offset: nat,
    /// A record that would make the segment longer than this starts a new one.
    pub max_segment_size: nat,
    /// Number of the current segment.
    pub segment_number: nat,
}

impl View for LogWriter {
    type V = WriterState;

    closed spec fn view(&self) -> WriterState {
        WriterState {
            batch_count: self.batch_count as nat,
            batch_size: self.batch_size as nat,
            current_offset: self.current_offset as nat,
            max_segment_size: self.max_segment_size as nat,
            segment_number: self.segment_number as nat,
        }
    }
}

/// What one append does: the record's bytes to write at the current offset,
/// where its value lands, and whether the segment must be flushed and synced
/// afterwards.
pub struct EntryWrite {
    pub bytes: Vec<u8>,
    pub value_offset: u64,
    pub value_len: usize,
    pub sync: bool,
}

/// Whether a record of `data_length` bytes makes the current segment longer
/// than the maximal size, so that it goes to a new segment.
pub open spec fn rollover_spec(s: WriterState, data_length: int) -> bool {
    data_length + s.current_offset > s.max_segment_size
}

/// Whether the batch of writes is full, so that the segment must be synced.
pub open spec fn batch_full(batch_count: nat, batch_size: nat) -> bool {
    batch_count >= batch_size && batch_size > 0
}

/// The state after appending a record of `data_length` bytes: the offset
/// moves past it, and the batch counts it, starting anew when it is full.
pub open spec fn appended_state(s: WriterState, data_length: nat) -> WriterState {
    WriterState {
        current_offset: s.current_offset + data_length,
        batch_count: if batch_full(s.batch_count + 1, s.batch_size) {
            0
        } else {
            s.batch_count + 1
        },
        ..s
    }
}

/// The state after moving on to the next segment, whose file is `len`
/// bytes long.
pub open spec fn next_segment_state(s: WriterState, len: nat) -> WriterState {
    WriterState { segment_number: s.segment_number + 1, current_offset: len, ..s }
}

/// `e` is what appending a record for `key` and `value` in state `s` gives:
/// the record's bytes, the value's offset past the header and the key, the
/// value's length, and whether the full batch asks for a sync.
pub open spec fn entry_spec(s: WriterState, key: Seq<u8>, value: Seq<u8>, e: EntryWrite) -> bool {
    &&& e.bytes@ == record_bytes(key, value)
    &&& e.value_offset == s.current_offset + 8 + key.len()
    &&& e.value_len == value.len()
    &&& e.sync == batch_full(s.batch_count + 1, s.batch_size)
}

/// What the caller reports while it writes one record.
pub enum WriteEvent {
    /// A new write begins.
    Begin,
    /// The current segment was flushed and synced.
    Flushed,
    /// The file of the (new) current segment was opened; it is this many
    /// bytes long.
    Opened(u64),
}

/// What the caller does next for a write.
pub enum WriteAction {
    /// Flush and sync the current segment, then report `WriteEvent::Flushed`.
    RollOver,
    /// Open the file of the current segment, which the writer just moved
    /// to, and report its length with `WriteEvent::Opened`.
    OpenNext,
    /// Write these bytes at the end of the current segment; once they are
    /// written, commit them with `commit_write`.
    Append(EntryWrite),
}

impl LogWriter {
    /// A writer for segment `segment_number`, whose file is already
    /// `current_offset` bytes long, with the default batch size and maximal
    /// segment size.
    pub fn new(segment_number: u32, current_offset: u64) -> (out: LogWriter)
        ensures
            out@ == (WriterState {
                batch_count: 0,
                batch_size: DEFAULT_BATCH_SIZE as nat,
                current_offset: current_offset as nat,
                max_segment_size: DEFAULT_MAX_SEGMENT_SIZE as nat,
                segment_number: segment_number as nat,
            }),
    {
        LogWriter {
            batch_count: 0,
            batch_size: DEFAULT_BATCH_SIZE,
            current_offset,
            max_segment_size: DEFAULT_MAX_SEGMENT_SIZE,
            segment_number,
        }
    }

    /// The number of the current segment.
    pub fn get_segment_number(&self) -> (out: u32)
        ensures
            out == self@.segment_number,
    {
        self.segment_number
    }

    /// The length of the current segment: where the next record lands.
    pub fn current_offset(&self) -> (out: u64)
        ensures
            out == self@.current_offset,
    {
        self.current_offset
    }

    /// The number of writes since the last sync.
    pub fn batch_count(&self) -> (out: usize)
        ensures
            out == self@.batch_count,
    {
        self.batch_count
    }

    /// Sets the number of writes between two syncs; 0 turns batched
    /// syncing off.
    pub fn set_batch_size(&mut self, batch_size: usize)
        ensures
            final(self)@ == (WriterState { batch_size: batch_size as nat, ..old(self)@ }),
    {
        self.batch_size = batch_size;
    }

    /// Sets the maximal segment size in bytes.
    pub fn set_segment_size(&mut self, value: u64)
        ensures
            final(self)@ == (WriterState { max_segment_size: value as nat, ..old(self)@ }),
    {
        self.max_segment_size = value;
    }

    /// Whether a record for a key of `key_len` bytes and a value of
    /// `value_len` bytes must go to a new segment: its header (two lengths of
    /// four bytes), key and value would make the current segment longer than
    /// the maximal size.
    pub fn needs_rollover(&self, key_len: usize, value_len: usize) -> (out: bool)
        requires
            8 + key_len + value_len + self@.current_offset <= u64::MAX,
        ensures
            out == rollover_spec(self@, 8 + key_len + value_len),
            out <==> self@.current_offset + 8 + key_len + value_len > self@.max_segment_size,
    {
        let data_length: u64 = 8 + key_len as u64 + value_len as u64;
        data_length + self.current_offset > self.max_segment_size
    }

    /// Moves on to the next segment, whose file is already `current_offset`
    /// bytes long.
    pub fn update_writer(&mut self, current_offset: u64)
        requires
            old(self)@.segment_number < u32::MAX,
        ensures
            final(self)@ == (WriterState {
                segment_number: old(self)@.segment_number + 1,
                current_offset: current_offset as nat,
                ..old(self)@
            }),
    {
        self.segment_number = self.segment_number + 1;
        self.current_offset = current_offset;
    }

    /// Appends a record for `key` and `value` at the current offset: gives
    /// the record's bytes, the offset and length of its value (the offset is
    /// past the record's header and key), and whether the batch is full and
    /// the segment must be synced, in which case the batch starts anew.
    pub fn write_entry(&mut self, key: &[u8], value: &[u8]) -> (out: EntryWrite)
        requires
            old(self)@.current_offset + 8 + key@.len() + value@.len() <= u64::MAX,
            old(self)@.batch_count < usize::MAX,
        ensures
            out.bytes@ == record_bytes(key@, value@),
            out.value_offset == old(self)@.current_offset + 8 + key@.len(),
            out.value_len == value@.len(),
            out.sync == batch_full(old(self)@.batch_count + 1, old(self)@.batch_size),
            final(self)@ == (WriterState {
                current_offset: old(self)@.current_offset + 8 + key@.len() + value@.len(),
                batch_count: if out.sync {
                    0
                } else {
                    old(self)@.batch_count + 1
                },
                ..old(self)@
            }),
    {
        let data_length: u64 = 8 + key.len() as u64 + value.len() as u64;
        let value_offset = self.current_offset + 8 + key.len() as u64;
        let bytes = encode_record(key, value);
        self.current_offset = self.current_offset + data_length;
        self.batch_count = self.batch_count + 1;
        let sync = self.maybe_sync();
        EntryWrite { bytes, value_offset, value_len: value.len(), sync }
    }

    /// What appending a record for `key` and `value` at the current
    /// offset writes and where its value lands, without changing the state.
    pub fn plan_entry(&self, key: &[u8], value: &[u8]) -> (out: EntryWrite)
        requires
            self@.current_offset + 8 + key@.len() + value@.len() <= u64::MAX,
        ensures
            entry_spec(self@, key@, value@, out),
    {
        let bytes = encode_record(key, value);
        let value_offset = self.current_offset + 8 + key.len() as u64;
        let sync = self.batch_size > 0 && self.batch_count >= self.batch_size - 1;
        EntryWrite { bytes, value_offset, value_len: value.len(), sync }
    }

    /// Takes note of a record for a key of `key_len` bytes and a value of
    /// `value_len` bytes that was written at the current offset: the offset
    /// moves past it and the batch counts it; gives whether the batch is now
    /// full, in which case it starts anew and the segment must be flushed and
    /// synced.
    pub fn commit_write(&mut self, key_len: usize, value_len: usize) -> (out: bool)
        requires
            old(self)@.current_offset + 8 + key_len + value_len <= u64::MAX,
            old(self)@.batch_count < usize::MAX,
        ensures
            out == batch_full(old(self)@.batch_count + 1, old(self)@.batch_size),
            final(self)@ == appended_state(old(self)@, (8 + key_len + value_len) as nat),
    {
        self.current_offset = self.current_offset + 8 + key_len as u64 + value_len as u64;
        self.batch_count = self.batch_count + 1;
        self.maybe_sync()
    }

    /// One step of writing a record for `key` and `value`. At `Begin`, a
    /// record that would make the current segment longer than the maximal
    /// size asks for the segment to be flushed first (and changes nothing);
    /// once it is flushed, the writer moves on to the next segment number and
    /// asks for its file to be opened; once it is open, the offset is the
    /// file's length. The record's bytes are then handed out to be written;
    /// the state changes for them only at `commit_write`, once they are.
    pub fn write_step(&mut self, key: &[u8], value: &[u8], event: WriteEvent) -> (out: WriteAction)
        requires
            match event {
                WriteEvent::Begin => old(self)@.current_offset + 8 + key@.len() + value@.len()
                    <= u64::MAX,
                WriteEvent::Flushed => old(self)@.segment_number < u32::MAX,
                WriteEvent::Opened(len) => len + 8 + key@.len() + value@.len() <= u64::MAX,
            },
        ensures
            match event {
                WriteEvent::Begin => {
                    &&& final(self)@ == old(self)@
                    &&& (out is RollOver <==> old(self)@.current_offset + 8 + key@.len() + value@.len()
                        > old(self)@.max_segment_size)
                    &&& if rollover_spec(old(self)@, 8 + key@.len() + value@.len() as int) {
                        out is RollOver
                    } else {
                        out matches WriteAction::Append(e) && entry_spec(old(self)@, key@, value@, e)
                    }
                },
                WriteEvent::Flushed => {
                    &&& out is OpenNext
                    &&& final(self)@ == (WriterState {
                        segment_number: old(self)@.segment_number + 1,
                        ..old(self)@
                    })
                },
                WriteEvent::Opened(len) => {
                    let moved = WriterState { current_offset: len as nat, ..old(self)@ };
                    &&& final(self)@ == moved
                    &&& out matches WriteAction::Append(e) && entry_spec(moved, key@, value@, e)
                },
            },
    {
        match event {
            WriteEvent::Begin => {
                if self.needs_rollover(key.len(), value.len()) {
                    return WriteAction::RollOver;
                }
            },
            WriteEvent::Flushed => {
                self.segment_number = self.segment_number + 1;
                return WriteAction::OpenNext;
            },
            WriteEvent::Opened(len) => {
                self.current_offset = len;
            },
        }
        WriteAction::Append(self.plan_entry(key, value))
    }

    /// Whether the batch is full, so that the segment must be flushed and
    /// synced; if so, the batch starts anew.
    pub fn maybe_sync(&mut self) -> (out: bool)
        ensures
            out == batch_full(old(self)@.batch_count, old(self)@.batch_size),
            final(self)@ == (WriterState {
                batch_count: if out {
                    0
                } else {
                    old(self)@.batch_count
                },
                ..old(self)@
            }),
    {
        if self.batch_count >= self.batch_size && self.batch_size > 0 {
            self.batch_count = 0;
            true
        } else {
            false
        }
    }
}

/// A record moves to a new segment exactly when it would make the current
/// segment longer than the maximal size: a record that fits stays in the
/// current segment, at its current end.
pub proof fn lemma_rollover_exactly_when_too_long(s: WriterState, data_length: int)
    ensures
        rollover_spec(s, data_length) <==> s.current_offset + data_length > s.max_segment_size,
        s.current_offset + data_length <= s.max_segment_size ==> !rollover_spec(s, data_length),
{
}

/// A segment never grows past the maximal segment size, unless one record
/// alone is larger: a record that fits is appended only where it keeps the
/// segment within the size, and otherwise goes to a fresh, empty segment,
/// which then holds exactly that record.
pub proof fn lemma_segment_within_max(s: WriterState, data_length: nat)
    requires
        s.current_offset <= s.max_segment_size,
    ensures
        !rollover_spec(s, data_length as int) ==> appended_state(s, data_length).current_offset
            <= s.max_segment_size,
        rollover_spec(s, data_length as int) ==> appended_state(
            next_segment_state(s, 0),
            data_length,
        ).current_offset == data_length,
        rollover_spec(s, data_length as int) && data_length <= s.max_segment_size
            ==> appended_state(next_segment_state(s, 0), data_length).current_offset
            <= s.max_segment_size,
{
}

/// The writer's bookkeeping agrees with recovery: when the writer's offset is
/// the length of the records `w` written so far to a segment, the offset that
/// `write_entry` hands back for a new record is where recovery finds that
/// record's value, and the new offset is again the segment's length.
pub proof fn lemma_write_location_recovered(
    w: Seq<(Seq<u8>, Seq<u8>)>,
    key: Seq<u8>,
    value: Seq<u8>,
    offset: int,
)
    requires
        writes_fit(w.push((key, value))),
        offset == log_of(w).len(),
    ensures
        parse_segment_spec(log_of(w.push((key, value)))).last() == (
            key,
            offset + 8 + key.len(),
            value.len() as int,
        ),
        log_of(w.push((key, value))).len() == offset + 8 + key.len() + value.len(),
{
    let wx = w.push((key, value));
    assert(wx[w.len() as int] == (key, value));
    lemma_written_log_recovers(wx);
    lemma_located_append(w, key, value, 0);
    crate::record::lemma_record_len(key, value);
}

/// Read after write: when the segment held `segment` and the writer's offset
/// was its length, then after the record of `write_entry` is appended, the
/// value offset and length that it handed back (and that the index records)
/// pick out exactly the value written, whatever the segment held before.
pub proof fn lemma_read_after_write(segment: Seq<u8>, key: Seq<u8>, value: Seq<u8>)
    requires
        key.len() <= u32::MAX,
        value.len() <= u32::MAX,
    ensures
        ({
            let after = segment + record_bytes(key, value);
            let off = segment.len() + 8 + key.len() as int;
            &&& after.len() == off + value.len()
            &&& after.subrange(off, off + value.len() as int) == value
            &&& after.subrange(0, segment.len() as int) == segment
        }),
{
    let after = segment + record_bytes(key, value);
    let off = segment.len() + 8 + key.len() as int;
    crate::record::lemma_record_len(key, value);
    assert(after.subrange(off, off + value.len() as int) =~= value) by {
        assert forall|t: int| 0 <= t < value.len() implies after.subrange(off, off + value.len() as int)[t]
            == value[t] by {
            assert(after[off + t] == record_bytes(key, value)[8 + key.len() + t]);
        }
    }
    assert(after.subrange(0, segment.len() as int) =~= segment);
}

} // verus!
