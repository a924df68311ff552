//! The write-ahead log: a sequence of checksummed records.
//!
//! Each logged command is appended as a data-operation record carrying the
//! serialized command, with a sequence number one above the last. Recovery
//! reads the records from the start of the log and stops at the first one
//! that is cut short or fails its checksum: the log is truncated there, and
//! the records before it are the ones replayed.
use vstd::prelude::*;
use crate::record::{
    Record, RecordType, RecordVersion, RecordView, HEADER_LEN, TRAILER_LEN, rest_from, spec_read,
    lemma_read_after_write, lemma_read_yields_encoding,
};

verus! {

/// The sequence number of the first record a fresh log gets.
pub const FIRST_SEQ: u64 = 1;

/// Why a command could not be appended to the log.
#[derive(Debug, PartialEq, Eq)]
pub enum WalError {
    /// The payload does not fit in a record's `u32` length field.
    EntryTooLarge,
    /// Every sequence number has been used.
    SequenceExhausted,
    /// Bytes follow the last valid record of the log.
    NotWhole,
    /// The sequence numbers of the log's records do not rise.
    SequenceOutOfOrder,
}

/// The data-operation record with sequence number `seq` carrying `data`.
pub open spec fn data_record(seq: u64, data: Seq<u8>) -> RecordView {
    RecordView {
        len: (data.len() + HEADER_LEN + TRAILER_LEN) as u32,
        record_type: RecordType::DataOp.spec_code(),
        version: RecordVersion::Version1.spec_code(),
        seq,
        data,
    }
}

/// The log that holds `records` in order.
pub open spec fn log_of_records(records: Seq<RecordView>) -> Seq<u8>
    decreases records.len(),
{
    if records.len() == 0 {
        Seq::empty()
    } else {
        records[0].encoding() + log_of_records(records.skip(1))
    }
}

/// Reading the records of `bytes` from the start: the valid records before
/// the first one that is cut short or fails its checksum, and how many bytes
/// they take.
pub open spec fn spec_scan_log(bytes: Seq<u8>) -> (Seq<RecordView>, nat)
    decreases bytes.len(),
{
    if bytes.len() == 0 {
        (Seq::empty(), 0)
    } else {
        match spec_read(bytes) {
            Ok((r, n)) => {
                if 0 < n <= bytes.len() {
                    let (rs, m) = spec_scan_log(bytes.skip(n as int));
                    (seq![r] + rs, n + m)
                } else {
                    (Seq::empty(), 0)
                }
            },
            Err(_) => (Seq::empty(), 0),
        }
    }
}

/// The sequence numbers of `records` rise strictly, and all lie below `next`.
pub open spec fn seqs_below(records: Seq<RecordView>, next: u64) -> bool {
    &&& forall|i: int, j: int|
        0 <= i < j < records.len() ==> #[trigger] records[i].seq < #[trigger] records[j].seq
    &&& forall|i: int| 0 <= i < records.len() ==> #[trigger] records[i].seq < next
}

/// A whole log written by a writer whose next sequence number is `next`:
/// every byte belongs to a valid record, and the sequence numbers rise.
pub open spec fn log_valid(bytes: Seq<u8>, next: u64) -> bool {
    &&& spec_scan_log(bytes).1 == bytes.len()
    &&& seqs_below(spec_scan_log(bytes).0, next)
}

/// Whether appending a payload of `len` bytes with sequence number `next`
/// succeeds, and if not, why.
pub open spec fn append_outcome(next: u64, len: nat) -> Result<(), WalError> {
    if len + HEADER_LEN + TRAILER_LEN > u32::MAX {
        Err(WalError::EntryTooLarge)
    } else if next == u64::MAX {
        Err(WalError::SequenceExhausted)
    } else {
        Ok(())
    }
}

/// The sequence numbers of `records` rise strictly.
pub open spec fn seqs_rising(records: Seq<RecordView>) -> bool {
    forall|i: int, j: int|
        0 <= i < j < records.len() ==> #[trigger] records[i].seq < #[trigger] records[j].seq
}

/// Continuing a log: the next sequence number a writer appending to
/// `bytes` uses, or why the log cannot be continued.
pub open spec fn resume_outcome(bytes: Seq<u8>) -> Result<u64, WalError> {
    let (rs, n) = spec_scan_log(bytes);
    if n != bytes.len() {
        Err(WalError::NotWhole)
    } else if !seqs_rising(rs) {
        Err(WalError::SequenceOutOfOrder)
    } else if rs.len() == 0 {
        Ok(FIRST_SEQ)
    } else if rs.last().seq == u64::MAX {
        Err(WalError::SequenceExhausted)
    } else {
        Ok((rs.last().seq + 1) as u64)
    }
}

pub open spec fn record_views(v: Seq<Record>) -> Seq<RecordView> {
    v.map_values(|r: Record| r@)
}

/// Appends records to the log, numbering them in order.
pub struct LogWriter {
    next_seq: u64,
}

impl View for LogWriter {
    type V = u64;

    /// The sequence number the next record gets.
    closed spec fn view(&self) -> u64 {
        self.next_seq
    }
}

impl LogWriter {
    /// A writer for a fresh log.
    pub fn new() -> (w: LogWriter)
        ensures
            w@ == FIRST_SEQ,
    {
        LogWriter { next_seq: FIRST_SEQ }
    }

    /// A writer that continues the log `bytes`: its next sequence number is
    /// one above the last record's, or the first one for an empty log. The
    /// log must consist of valid records only, numbered in rising order.
    pub fn resume(bytes: &[u8]) -> (r: Result<LogWriter, WalError>)
        ensures
            match resume_outcome(bytes@) {
                Ok(next) => r matches Ok(w) && w@ == next && log_valid(bytes@, w@),
                Err(e) => r matches Err(e2) && e2 == e,
            },
    {
        let scan = scan_log(bytes);
        proof {
            lemma_recovery_truncates(bytes@);
        }
        if scan.torn {
            return Err(WalError::NotWhole);
        }
        let ghost rs = spec_scan_log(bytes@).0;
        let n = scan.records.len();
        assert(rs.len() == n);
        let mut k: usize = 1;
        while k < n
            invariant
                1 <= k || n == 0,
                k <= n || n == 0,
                n == scan.records@.len(),
                rs == record_views(scan.records@),
                rs == spec_scan_log(bytes@).0,
                spec_scan_log(bytes@).1 == bytes@.len(),
                forall|i: int, j: int| 0 <= i < j < k && j < n ==> #[trigger] rs[i].seq < #[trigger] rs[j].seq,
            decreases n - k,
        {
            assert(rs[k - 1].seq == scan.records[k - 1].seq);
            assert(rs[k as int].seq == scan.records[k as int].seq);
            if scan.records[k - 1].seq >= scan.records[k].seq {
                assert(!seqs_rising(rs));
                return Err(WalError::SequenceOutOfOrder);
            }
            proof {
                assert forall|i: int, j: int| 0 <= i < j < k + 1 && j < n implies #[trigger] rs[i].seq
                    < #[trigger] rs[j].seq by {
                    if j == k && i < k - 1 {
                        assert(rs[i].seq < rs[k - 1].seq);
                    }
                }
            }
            k = k + 1;
        }
        assert(seqs_rising(rs));
        if n == 0 {
            return Ok(LogWriter { next_seq: FIRST_SEQ });
        }
        let last = scan.records[n - 1].seq;
        assert(rs.last().seq == last);
        if last == u64::MAX {
            return Err(WalError::SequenceExhausted);
        }
        let w = LogWriter { next_seq: last + 1 };
        assert forall|i: int| 0 <= i < rs.len() implies #[trigger] rs[i].seq < w@ by {
            if i < n - 1 {
                assert(rs[i].seq < rs[n - 1].seq);
            }
        }
        Ok(w)
    }

    /// Appends to `out` the data-operation record that carries `payload`,
    /// numbered with the writer's next sequence number, which then moves
    /// on by one. On an error neither `out` nor the writer changes.
    pub fn append(&mut self, payload: Vec<u8>, out: &mut Vec<u8>) -> (r: Result<(), WalError>)
        ensures
            r == append_outcome(old(self)@, payload@.len()),
            r is Ok ==> final(out)@ == old(out)@ + data_record(old(self)@, payload@).encoding()
                && final(self)@ == old(self)@ + 1,
            r is Err ==> final(out)@ == old(out)@ && final(self)@ == old(self)@,
    {
        if payload.len() > u32::MAX as usize - HEADER_LEN - TRAILER_LEN {
            return Err(WalError::EntryTooLarge);
        }
        if self.next_seq == u64::MAX {
            return Err(WalError::SequenceExhausted);
        }
        let record = Record::init_v1_op(self.next_seq, payload);
        record.write_to(out);
        self.next_seq = self.next_seq + 1;
        Ok(())
    }
}

/// The records recovered from a log.
pub struct LogScan {
    /// The valid records at the start of the log, in order.
    pub records: Vec<Record>,
    /// How many bytes they take: the log is truncated to this length.
    pub valid_len: usize,
    /// Bytes follow the valid records: a torn or corrupted record.
    pub torn: bool,
}

/// Recovers a log: reads the records from its start up to the first one
/// that is cut short or fails its checksum, and says where to truncate.
pub fn scan_log(bytes: &[u8]) -> (scan: LogScan)
    ensures
        record_views(scan.records@) == spec_scan_log(bytes@).0,
        scan.valid_len == spec_scan_log(bytes@).1,
        scan.torn == (scan.valid_len < bytes@.len()),
{
    let mut records: Vec<Record> = Vec::new();
    let mut pos: usize = 0;
    assert(rest_from(bytes@, 0) =~= bytes@);
    assert(record_views(records@) + spec_scan_log(bytes@).0 =~= spec_scan_log(bytes@).0);
    loop
        invariant
            pos <= bytes@.len(),
            spec_scan_log(bytes@).0 == record_views(records@) + spec_scan_log(
                rest_from(bytes@, pos as int),
            ).0,
            spec_scan_log(bytes@).1 == pos + spec_scan_log(rest_from(bytes@, pos as int)).1,
        ensures
            pos <= bytes@.len(),
            spec_scan_log(bytes@).0 == record_views(records@),
            spec_scan_log(bytes@).1 == pos,
        decreases bytes@.len() - pos,
    {
        let ghost rest = rest_from(bytes@, pos as int);
        let ghost before = pos;
        if pos == bytes.len() {
            assert(rest.len() == 0);
            assert(spec_scan_log(rest).0 =~= Seq::<RecordView>::empty());
            assert(record_views(records@) + Seq::<RecordView>::empty() =~= record_views(records@));
            break;
        }
        match Record::read_from(bytes, &mut pos) {
            Ok(record) => {
                proof {
                    lemma_read_yields_encoding(rest);
                    let n = spec_read(rest)->Ok_0.1;
                    assert(rest.skip(n as int) =~= rest_from(bytes@, pos as int));
                }
                let ghost prev = records@;
                records.push(record);
                proof {
                    assert(record_views(records@) =~= record_views(prev) + seq![record@]);
                }
            },
            Err(_) => {
                assert(spec_read(rest) is Err);
                assert(spec_scan_log(rest).0 =~= Seq::<RecordView>::empty());
                assert(record_views(records@) + Seq::<RecordView>::empty() =~= record_views(
                    records@,
                ));
                break;
            },
        }
    }
    let torn = pos < bytes.len();
    LogScan { records, valid_len: pos, torn }
}

proof fn lemma_scan_record(r: RecordView, rest: Seq<u8>)
    requires
        r.wf(),
    ensures
        spec_scan_log(r.encoding() + rest) == (
            seq![r] + spec_scan_log(rest).0,
            (r.len + spec_scan_log(rest).1) as nat,
        ),
{
    lemma_read_after_write(r, rest);
    let s = r.encoding() + rest;
    assert(s.skip(r.len as int) =~= rest);
}

/// Every record is well formed.
pub open spec fn all_wf(records: Seq<RecordView>) -> bool {
    forall|i: int| 0 <= i < records.len() ==> #[trigger] records[i].wf()
}

/// Reading back a log gives every record written to it, in order, and
/// takes all of it.
pub proof fn lemma_replay_after_writes(records: Seq<RecordView>)
    requires
        all_wf(records),
    ensures
        spec_scan_log(log_of_records(records)) == (records, log_of_records(records).len()),
    decreases records.len(),
{
    if records.len() > 0 {
        let tail = records.skip(1);
        assert(all_wf(tail)) by {
            assert forall|i: int| 0 <= i < tail.len() implies #[trigger] tail[i].wf() by {
                assert(tail[i] == records[i + 1]);
            }
        }
        assert(records[0].wf());
        lemma_replay_after_writes(tail);
        lemma_scan_record(records[0], log_of_records(tail));
        lemma_read_after_write(records[0], Seq::empty());
        assert(records[0].encoding() + Seq::<u8>::empty() =~= records[0].encoding());
        assert(seq![records[0]] + tail =~= records);
    } else {
        assert(spec_scan_log(log_of_records(records)).0 =~= records);
    }
}

/// Recovery keeps every valid record and drops the rest: the log truncated
/// where the scan stopped holds exactly the records recovered, reads back
/// whole, and the bytes after it, if any, do not start with a valid record.
pub proof fn lemma_recovery_truncates(bytes: Seq<u8>)
    ensures
        spec_scan_log(bytes).1 <= bytes.len(),
        all_wf(spec_scan_log(bytes).0),
        bytes.take(spec_scan_log(bytes).1 as int) == log_of_records(spec_scan_log(bytes).0),
        spec_scan_log(bytes.take(spec_scan_log(bytes).1 as int)) == spec_scan_log(bytes),
        spec_scan_log(bytes).1 < bytes.len() ==> spec_read(
            bytes.skip(spec_scan_log(bytes).1 as int),
        ) is Err,
    decreases bytes.len(),
{
    let (rs, n) = spec_scan_log(bytes);
    if bytes.len() == 0 {
        assert(bytes.take(0) =~= log_of_records(rs));
    } else {
        match spec_read(bytes) {
            Ok((r, k)) => {
                lemma_read_yields_encoding(bytes);
                let rest = bytes.skip(k as int);
                lemma_recovery_truncates(rest);
                let (rs2, m) = spec_scan_log(rest);
                assert(rs == seq![r] + rs2);
                assert(rs.skip(1) =~= rs2);
                assert(rs[0] == r);
                assert(all_wf(rs)) by {
                    assert forall|i: int| 0 <= i < rs.len() implies #[trigger] rs[i].wf() by {
                        if i > 0 {
                            assert(rs[i] == rs2[i - 1]);
                        }
                    }
                }
                assert(bytes.take(n as int) =~= bytes.take(k as int) + rest.take(m as int));
                assert(bytes.skip(n as int) =~= rest.skip(m as int));
                lemma_replay_after_writes(rs);
            },
            Err(_) => {
                assert(bytes.skip(0) =~= bytes);
                assert(bytes.take(0) =~= log_of_records(rs));
            },
        }
    }
}

/// A log of valid records followed by a record that was cut short or
/// damaged recovers exactly those records, and is truncated right after
/// them.
pub proof fn lemma_torn_tail_truncated(records: Seq<RecordView>, tail: Seq<u8>)
    requires
        all_wf(records),
        tail.len() == 0 || spec_read(tail) is Err,
    ensures
        spec_scan_log(log_of_records(records) + tail) == (records, log_of_records(records).len()),
    decreases records.len(),
{
    if records.len() == 0 {
        assert(log_of_records(records) + tail =~= tail);
        assert(spec_scan_log(tail).0 =~= records);
    } else {
        let tail_records = records.skip(1);
        assert(all_wf(tail_records)) by {
            assert forall|i: int| 0 <= i < tail_records.len() implies #[trigger] tail_records[i].wf() by {
                assert(tail_records[i] == records[i + 1]);
            }
        }
        assert(records[0].wf());
        lemma_torn_tail_truncated(tail_records, tail);
        let rest = log_of_records(tail_records) + tail;
        lemma_scan_record(records[0], rest);
        assert(log_of_records(records) + tail =~= records[0].encoding() + rest);
        lemma_read_after_write(records[0], Seq::empty());
        assert(records[0].encoding() + Seq::<u8>::empty() =~= records[0].encoding());
        assert(seq![records[0]] + tail_records =~= records);
    }
}

proof fn lemma_log_push(records: Seq<RecordView>, r: RecordView)
    ensures
        log_of_records(records.push(r)) == log_of_records(records) + r.encoding(),
    decreases records.len(),
{
    if records.len() == 0 {
        assert(records.push(r).skip(1) =~= Seq::<RecordView>::empty());
        assert(log_of_records(Seq::<RecordView>::empty()) == Seq::<u8>::empty());
        assert(log_of_records(records) == Seq::<u8>::empty());
        assert(records.push(r)[0] == r);
        assert(log_of_records(records.push(r)) =~= log_of_records(records) + r.encoding());
    } else {
        lemma_log_push(records.skip(1), r);
        assert(records.push(r).skip(1) =~= records.skip(1).push(r));
        assert(records.push(r)[0] == records[0]);
        assert(log_of_records(records.push(r)) =~= log_of_records(records) + r.encoding());
    }
}

/// Appending a record to a valid log keeps it valid: the new record reads
/// back after the old ones, and the sequence numbers still rise.
pub proof fn lemma_append_keeps_log_valid(bytes: Seq<u8>, next: u64, payload: Seq<u8>)
    requires
        log_valid(bytes, next),
        append_outcome(next, payload.len()) is Ok,
    ensures
        spec_scan_log(bytes + data_record(next, payload).encoding()).0 == spec_scan_log(
            bytes,
        ).0.push(data_record(next, payload)),
        log_valid(bytes + data_record(next, payload).encoding(), (next + 1) as u64),
{
    let (rs, n) = spec_scan_log(bytes);
    let r = data_record(next, payload);
    lemma_recovery_truncates(bytes);
    assert(bytes.take(n as int) =~= bytes);
    let rs2 = rs.push(r);
    assert(all_wf(rs2)) by {
        assert forall|i: int| 0 <= i < rs2.len() implies #[trigger] rs2[i].wf() by {
            if i < rs.len() {
                assert(rs2[i] == rs[i]);
            }
        }
    }
    lemma_log_push(rs, r);
    lemma_replay_after_writes(rs2);
    assert(seqs_below(rs2, (next + 1) as u64)) by {
        assert forall|i: int, j: int| 0 <= i < j < rs2.len() implies #[trigger] rs2[i].seq
            < #[trigger] rs2[j].seq by {
            if j < rs.len() {
                assert(rs2[i] == rs[i] && rs2[j] == rs[j]);
            } else {
                assert(rs2[i] == rs[i]);
            }
        }
        assert forall|i: int| 0 <= i < rs2.len() implies #[trigger] rs2[i].seq < (next
            + 1) as u64 by {
            if i < rs.len() {
                assert(rs2[i] == rs[i]);
            }
        }
    }
}

/// A log that a writer can continue is valid for that writer: its records
/// read back whole, with rising sequence numbers below the writer's next.
pub proof fn lemma_resumable_log_valid(bytes: Seq<u8>)
    requires
        resume_outcome(bytes) is Ok,
    ensures
        log_valid(bytes, resume_outcome(bytes)->Ok_0),
{
    let rs = spec_scan_log(bytes).0;
    let next = resume_outcome(bytes)->Ok_0;
    assert forall|i: int| 0 <= i < rs.len() implies #[trigger] rs[i].seq < next by {
        if i < rs.len() - 1 {
            assert(rs[i].seq < rs[rs.len() - 1].seq);
        }
    }
}

/// An append carries its payload unchanged: after a successful append to a
/// valid log, the log reads back as its old records followed by one new
/// data record, of schema version 1, numbered `next`, whose payload is
/// exactly the bytes appended and whose length counts them plus header and
/// checksum.
pub proof fn lemma_append_carries_payload(bytes: Seq<u8>, next: u64, payload: Seq<u8>)
    requires
        log_valid(bytes, next),
        append_outcome(next, payload.len()) is Ok,
    ensures
        ({
            let old_rs = spec_scan_log(bytes).0;
            let rs = spec_scan_log(bytes + data_record(next, payload).encoding()).0;
            &&& rs.len() == old_rs.len() + 1
            &&& rs.drop_last() == old_rs
            &&& rs.last().data == payload
            &&& rs.last().seq == next
            &&& rs.last().record_type == 1
            &&& rs.last().version == 1
            &&& rs.last().len == payload.len() + 20
        }),
{
    lemma_append_keeps_log_valid(bytes, next, payload);
    let old_rs = spec_scan_log(bytes).0;
    assert(old_rs.push(data_record(next, payload)).drop_last() =~= old_rs);
}

/// Every log a writer has produced can be continued: a valid log resumes,
/// with the next number one above its last record's (the first number for
/// an empty log), above every record's and, for a non-empty log, no higher
/// than the writer's.
pub proof fn lemma_valid_log_resumes(bytes: Seq<u8>, next: u64)
    requires
        log_valid(bytes, next),
    ensures
        resume_outcome(bytes) is Ok,
        spec_scan_log(bytes).0.len() > 0 ==> resume_outcome(bytes)->Ok_0 <= next,
        spec_scan_log(bytes).0.len() == 0 ==> resume_outcome(bytes)->Ok_0 == 1,
        spec_scan_log(bytes).0.len() > 0 ==> resume_outcome(bytes)->Ok_0 == spec_scan_log(
            bytes,
        ).0.last().seq + 1,
        forall|i: int|
            0 <= i < spec_scan_log(bytes).0.len() ==> #[trigger] spec_scan_log(bytes).0[i].seq
                < resume_outcome(bytes)->Ok_0,
{
    let rs = spec_scan_log(bytes).0;
    if rs.len() > 0 {
        assert(rs.last().seq < next);
        assert forall|i: int| 0 <= i < rs.len() implies #[trigger] rs[i].seq < rs.last().seq
            + 1 by {
            if i < rs.len() - 1 {
                assert(rs[i].seq < rs[rs.len() - 1].seq);
            }
        }
    }
}

/// A resumed writer continues where the writer left off: appending to a log
/// that resumes with number `n` gives a log that resumes with `n + 1`.
pub proof fn lemma_resume_after_append(bytes: Seq<u8>, payload: Seq<u8>)
    requires
        resume_outcome(bytes) is Ok,
        append_outcome(resume_outcome(bytes)->Ok_0, payload.len()) is Ok,
    ensures
        resume_outcome(bytes + data_record(resume_outcome(bytes)->Ok_0, payload).encoding())
            == Ok::<u64, WalError>((resume_outcome(bytes)->Ok_0 + 1) as u64),
{
    let n = resume_outcome(bytes)->Ok_0;
    lemma_resumable_log_valid(bytes);
    lemma_append_carries_payload(bytes, n, payload);
    let b2 = bytes + data_record(n, payload).encoding();
    lemma_append_keeps_log_valid(bytes, n, payload);
    lemma_valid_log_resumes(b2, (n + 1) as u64);
}

/// A fresh, empty log is valid.
pub proof fn lemma_empty_log_valid()
    ensures
        log_valid(Seq::empty(), FIRST_SEQ),
{
    assert(spec_scan_log(Seq::<u8>::empty()).0 =~= Seq::<RecordView>::empty());
}

} // verus!
