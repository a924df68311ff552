//! The commands the store actor serves, and what serving one does.
use vstd::prelude::*;
use crate::storage::{KVStore, StorageInterface, lookup};
use crate::persistence::{
    FIRST_SEQ, LogWriter, WalError, append_outcome, data_record, log_valid, spec_scan_log,
    lemma_append_keeps_log_valid, lemma_empty_log_valid, lemma_recovery_truncates,
    lemma_resumable_log_valid, resume_outcome,
};
use crate::record::{HEADER_LEN, TRAILER_LEN, spec_read, lemma_read_after_write};
use crate::record::RecordView;

verus! {

/// A value to store under a key.
#[derive(Debug, PartialEq)]
pub struct PutRequest {
    pub key: String,
    pub value: String,
}

/// A request to the store actor.
#[derive(Debug, PartialEq)]
pub enum StoreCommand {
    Get { key: String },
    Put { record: PutRequest },
    Delete { key: String },
}

/// The store after serving `cmd`.
pub open spec fn spec_apply(m: Map<Seq<char>, String>, cmd: StoreCommand) -> Map<Seq<char>, String> {
    match cmd {
        StoreCommand::Get { .. } => m,
        StoreCommand::Put { record } => m.insert(record.key@, record.value),
        StoreCommand::Delete { key } => m.remove(key@),
    }
}

/// The reply to `cmd` from a store holding `m`.
pub open spec fn spec_reply(m: Map<Seq<char>, String>, cmd: StoreCommand) -> Option<String> {
    match cmd {
        StoreCommand::Get { key } => lookup(m, key@),
        _ => None,
    }
}

/// Whether the actor writes `cmd` to the log before serving it.
pub open spec fn spec_is_logged(cmd: StoreCommand) -> bool {
    !(cmd is Get)
}

/// The store after serving `cmds` in order.
pub open spec fn apply_all(m: Map<Seq<char>, String>, cmds: Seq<StoreCommand>) -> Map<
    Seq<char>,
    String,
>
    decreases cmds.len(),
{
    if cmds.len() == 0 {
        m
    } else {
        apply_all(spec_apply(m, cmds[0]), cmds.skip(1))
    }
}

/// The commands of `cmds` that the actor logs, in order.
pub open spec fn logged(cmds: Seq<StoreCommand>) -> Seq<StoreCommand>
    decreases cmds.len(),
{
    if cmds.len() == 0 {
        Seq::empty()
    } else if spec_is_logged(cmds[0]) {
        seq![cmds[0]] + logged(cmds.skip(1))
    } else {
        logged(cmds.skip(1))
    }
}

impl StoreCommand {
    /// Whether the actor writes this command to the log before serving it:
    /// a command that changes the store is logged, a read is not.
    pub fn is_logged(&self) -> (r: bool)
        ensures
            r == spec_is_logged(*self),
    {
        match self {
            StoreCommand::Get { .. } => false,
            _ => true,
        }
    }
}

/// Serves one command against the store and gives the reply: the value
/// found for a get, nothing for a put or a delete.
pub fn apply_command(store: &mut KVStore, cmd: StoreCommand) -> (reply: Option<String>)
    ensures
        final(store)@ == spec_apply(old(store)@, cmd),
        reply == spec_reply(old(store)@, cmd),
{
    match cmd {
        StoreCommand::Get { key } => store.get(&key),
        StoreCommand::Put { record: PutRequest { key, value } } => {
            store.put(&key, &value);
            None
        },
        StoreCommand::Delete { key } => {
            store.delete(&key);
            None
        },
    }
}

/// Serving only the logged commands of a history leaves the store as
/// serving the whole history did: replaying the log restores the store.
pub proof fn lemma_replay_restores_store(m: Map<Seq<char>, String>, cmds: Seq<StoreCommand>)
    ensures
        apply_all(m, logged(cmds)) == apply_all(m, cmds),
    decreases cmds.len(),
{
    if cmds.len() > 0 {
        let first = cmds[0];
        let tail = cmds.skip(1);
        lemma_replay_restores_store(spec_apply(m, first), tail);
        if spec_is_logged(first) {
            let l = seq![first] + logged(tail);
            assert(l[0] == first);
            assert(l.skip(1) =~= logged(tail));
        } else {
            assert(spec_apply(m, first) == m);
            lemma_replay_restores_store(m, tail);
        }
    }
}

/// The bytes the actor appends to the log when it serves `cmd` with the
/// writer's next sequence number at `next`: the record of the serialized
/// command for a change, nothing for a read.
pub open spec fn step_log(next: u64, cmd: StoreCommand, payload: Seq<u8>) -> Seq<u8> {
    if spec_is_logged(cmd) {
        data_record(next, payload).encoding()
    } else {
        Seq::empty()
    }
}

/// The writer's next sequence number after serving `cmd`.
pub open spec fn step_next(next: u64, cmd: StoreCommand) -> u64 {
    if spec_is_logged(cmd) {
        (next + 1) as u64
    } else {
        next
    }
}

/// What serving a command hands back: the bytes to append to the log
/// before answering, and the answer.
pub struct Served {
    pub log: Vec<u8>,
    pub reply: Option<String>,
}

/// Serves one command as the actor does. For a change it makes the record
/// that must reach the log before the answer is sent (carrying `payload`,
/// the serialized command, numbered by `writer`) and applies the change to
/// the store; a read is answered from the store and nothing is to be
/// logged. Where the record cannot be made, nothing changes. Writing the
/// returned bytes to the log file, before replying, is the caller's part.
pub fn serve_command(
    store: &mut KVStore,
    writer: &mut LogWriter,
    cmd: StoreCommand,
    payload: Vec<u8>,
) -> (r: Result<Served, WalError>)
    ensures
        (r is Ok) == (!spec_is_logged(cmd) || append_outcome(old(writer)@, payload@.len()) is Ok),
        r matches Err(e) ==> append_outcome(old(writer)@, payload@.len()) == Err::<(), WalError>(e),
        r matches Ok(s) ==> {
            &&& s.log@ == step_log(old(writer)@, cmd, payload@)
            &&& s.reply == spec_reply(old(store)@, cmd)
            &&& final(store)@ == spec_apply(old(store)@, cmd)
            &&& final(writer)@ == step_next(old(writer)@, cmd)
        },
        r is Err ==> final(store)@ == old(store)@ && final(writer)@ == old(writer)@,
{
    let mut log: Vec<u8> = Vec::new();
    if cmd.is_logged() {
        match writer.append(payload, &mut log) {
            Ok(()) => {},
            Err(e) => {
                return Err(e);
            },
        }
    }
    assert(log@ =~= step_log(old(writer)@, cmd, payload@));
    let reply = apply_command(store, cmd);
    Ok(Served { log, reply })
}

/// A read is never logged: serving a get appends nothing to the log and
/// leaves the writer's next sequence number where it was, whatever the key.
pub proof fn lemma_reads_never_logged(next: u64, key: String, payload: Seq<u8>)
    ensures
        step_log(next, StoreCommand::Get { key }, payload) == Seq::<u8>::empty(),
        step_next(next, StoreCommand::Get { key }) == next,
{
}

/// A change is always logged, as the next data record carrying the payload
/// unchanged: serving a put or a delete appends exactly one record, which
/// reads back with sequence number `next` and data equal to `payload`, and
/// moves the writer's next number on by one.
pub proof fn lemma_changes_logged_with_payload(next: u64, cmd: StoreCommand, payload: Seq<u8>)
    requires
        !(cmd is Get),
        payload.len() + HEADER_LEN + TRAILER_LEN <= u32::MAX,
        next < u64::MAX,
    ensures
        step_next(next, cmd) == next + 1,
        spec_read(step_log(next, cmd, payload)) is Ok,
        spec_read(step_log(next, cmd, payload))->Ok_0.0.data == payload,
        spec_read(step_log(next, cmd, payload))->Ok_0.0.seq == next,
        spec_read(step_log(next, cmd, payload))->Ok_0.0.record_type == 1,
        spec_read(step_log(next, cmd, payload))->Ok_0.1 == step_log(next, cmd, payload).len(),
{
    let r = data_record(next, payload);
    lemma_read_after_write(r, Seq::empty());
    assert(r.encoding() + Seq::<u8>::empty() =~= r.encoding());
}

/// The value the last write to `key` among `cmds` left, or what `m` held
/// under `key` if no command of `cmds` writes it.
pub open spec fn last_write(m: Map<Seq<char>, String>, cmds: Seq<StoreCommand>, key: Seq<char>) -> Option<String>
    decreases cmds.len(),
{
    if cmds.len() == 0 {
        lookup(m, key)
    } else {
        let c = cmds.last();
        if c matches StoreCommand::Put { record } && record.key@ == key {
            Some(c->record.value)
        } else if c matches StoreCommand::Delete { key: k } && k@ == key {
            None
        } else {
            last_write(m, cmds.drop_last(), key)
        }
    }
}

proof fn lemma_apply_all_push(m: Map<Seq<char>, String>, cmds: Seq<StoreCommand>, c: StoreCommand)
    ensures
        apply_all(m, cmds.push(c)) == spec_apply(apply_all(m, cmds), c),
    decreases cmds.len(),
{
    if cmds.len() == 0 {
        assert(cmds.push(c).skip(1) =~= Seq::<StoreCommand>::empty());
        assert(cmds.push(c)[0] == c);
        assert(apply_all(spec_apply(m, c), Seq::<StoreCommand>::empty()) == spec_apply(m, c));
    } else {
        lemma_apply_all_push(spec_apply(m, cmds[0]), cmds.skip(1), c);
        assert(cmds.push(c).skip(1) =~= cmds.skip(1).push(c));
        assert(cmds.push(c)[0] == cmds[0]);
    }
}

proof fn lemma_lookup_after_history(m: Map<Seq<char>, String>, cmds: Seq<StoreCommand>, key: Seq<char>)
    ensures
        lookup(apply_all(m, cmds), key) == last_write(m, cmds, key),
    decreases cmds.len(),
{
    if cmds.len() > 0 {
        let init = cmds.drop_last();
        lemma_lookup_after_history(m, init, key);
        lemma_apply_all_push(m, init, cmds.last());
        assert(init.push(cmds.last()) =~= cmds);
    }
}

/// Over any history of commands served by a fresh store, a read of a key
/// is answered with the value of the last put to that key before it, or
/// nothing where a delete came after that put or no put came at all; a put
/// or a delete is answered with nothing.
pub proof fn lemma_replies_of_history(cmds: Seq<StoreCommand>, i: int)
    requires
        0 <= i < cmds.len(),
    ensures
        spec_reply(apply_all(Map::empty(), cmds.take(i)), cmds[i]) == (match cmds[i] {
            StoreCommand::Get { key } => last_write(Map::empty(), cmds.take(i), key@),
            _ => None,
        }),
{
    match cmds[i] {
        StoreCommand::Get { key } => {
            lemma_lookup_after_history(Map::empty(), cmds.take(i), key@);
        },
        _ => {},
    }
}

/// The bytes the actor appends to the log while serving `cmds` in order,
/// starting with next sequence number `next`, where `ser` serializes a
/// command.
pub open spec fn run_log(next: u64, cmds: Seq<StoreCommand>, ser: spec_fn(StoreCommand) -> Seq<u8>) -> Seq<u8>
    decreases cmds.len(),
{
    if cmds.len() == 0 {
        Seq::empty()
    } else {
        step_log(next, cmds[0], ser(cmds[0])) + run_log(step_next(next, cmds[0]), cmds.skip(1), ser)
    }
}

/// The records the actor writes while serving `cmds`: one per logged
/// command, in order, numbered from `next` up.
pub open spec fn run_records(next: u64, cmds: Seq<StoreCommand>, ser: spec_fn(StoreCommand) -> Seq<u8>) -> Seq<RecordView>
    decreases cmds.len(),
{
    if cmds.len() == 0 {
        Seq::empty()
    } else if spec_is_logged(cmds[0]) {
        seq![data_record(next, ser(cmds[0]))] + run_records((next + 1) as u64, cmds.skip(1), ser)
    } else {
        run_records(next, cmds.skip(1), ser)
    }
}

/// No append fails while serving `cmds`: each logged payload fits in a
/// record, and sequence numbers do not run out.
pub open spec fn run_fits(next: u64, cmds: Seq<StoreCommand>, ser: spec_fn(StoreCommand) -> Seq<u8>) -> bool
    decreases cmds.len(),
{
    if cmds.len() == 0 {
        true
    } else if spec_is_logged(cmds[0]) {
        append_outcome(next, ser(cmds[0]).len()) is Ok && run_fits((next + 1) as u64, cmds.skip(1), ser)
    } else {
        run_fits(next, cmds.skip(1), ser)
    }
}

/// The log after a run: serving `cmds` against a valid log appends one
/// record per put or delete, in the order served, carrying the serialized
/// command, with rising sequence numbers; reads are never written. The log
/// stays valid and reads back as its old records followed by the new ones.
pub proof fn lemma_log_after_run(
    log: Seq<u8>,
    next: u64,
    cmds: Seq<StoreCommand>,
    ser: spec_fn(StoreCommand) -> Seq<u8>,
)
    requires
        log_valid(log, next),
        run_fits(next, cmds, ser),
    ensures
        log_valid(log + run_log(next, cmds, ser), run_next(next, cmds)),
        spec_scan_log(log + run_log(next, cmds, ser)).0 == spec_scan_log(log).0 + run_records(
            next,
            cmds,
            ser,
        ),
    decreases cmds.len(),
{
    if cmds.len() == 0 {
        assert(log + run_log(next, cmds, ser) =~= log);
        assert(spec_scan_log(log).0 + run_records(next, cmds, ser) =~= spec_scan_log(log).0);
    } else {
        let c = cmds[0];
        let tail = cmds.skip(1);
        let log2 = log + step_log(next, c, ser(c));
        let next2 = step_next(next, c);
        if spec_is_logged(c) {
            lemma_append_keeps_log_valid(log, next, ser(c));
        } else {
            assert(log2 =~= log);
        }
        lemma_log_after_run(log2, next2, tail, ser);
        assert(log + run_log(next, cmds, ser) =~= log2 + run_log(next2, tail, ser));
        if spec_is_logged(c) {
            assert(spec_scan_log(log).0.push(data_record(next, ser(c))) + run_records(next2, tail, ser)
                =~= spec_scan_log(log).0 + run_records(next, cmds, ser));
        }
    }
}

/// The log after a run, from whatever the log held before: where a writer
/// can continue the prior log (its bytes are valid records with rising
/// sequence numbers), serving `cmds` appends one record per put or delete,
/// in order, numbered on from the prior log's last record, and the log
/// stays valid. Where it cannot, `LogWriter::resume` refuses it and no
/// command is logged.
pub proof fn lemma_log_after_run_on_prior_log(
    prior: Seq<u8>,
    cmds: Seq<StoreCommand>,
    ser: spec_fn(StoreCommand) -> Seq<u8>,
)
    requires
        resume_outcome(prior) is Ok,
        run_fits(resume_outcome(prior)->Ok_0, cmds, ser),
    ensures
        ({
            let next = resume_outcome(prior)->Ok_0;
            &&& log_valid(prior + run_log(next, cmds, ser), run_next(next, cmds))
            &&& spec_scan_log(prior + run_log(next, cmds, ser)).0 == spec_scan_log(prior).0
                + run_records(next, cmds, ser)
        }),
{
    lemma_resumable_log_valid(prior);
    lemma_log_after_run(prior, resume_outcome(prior)->Ok_0, cmds, ser);
}

/// The writer's next sequence number after serving `cmds`.
pub open spec fn run_next(next: u64, cmds: Seq<StoreCommand>) -> u64
    decreases cmds.len(),
{
    if cmds.len() == 0 {
        next
    } else {
        run_next(step_next(next, cmds[0]), cmds.skip(1))
    }
}

proof fn lemma_run_of_changes(next: u64, cmds: Seq<StoreCommand>, ser: spec_fn(StoreCommand) -> Seq<u8>)
    requires
        next + cmds.len() <= u64::MAX,
        forall|j: int| 0 <= j < cmds.len() ==> #[trigger] spec_is_logged(cmds[j]),
        forall|j: int|
            0 <= j < cmds.len() ==> #[trigger] ser(cmds[j]).len() + HEADER_LEN + TRAILER_LEN
                <= u32::MAX,
    ensures
        run_fits(next, cmds, ser),
        run_records(next, cmds, ser) == Seq::new(
            cmds.len(),
            |j: int| data_record((next + j) as u64, ser(cmds[j])),
        ),
    decreases cmds.len(),
{
    if cmds.len() > 0 {
        let tail = cmds.skip(1);
        assert(spec_is_logged(cmds[0]));
        assert(ser(cmds[0]).len() + HEADER_LEN + TRAILER_LEN <= u32::MAX);
        assert forall|j: int| 0 <= j < tail.len() implies #[trigger] spec_is_logged(tail[j]) by {
            assert(tail[j] == cmds[j + 1]);
            assert(spec_is_logged(cmds[j + 1]));
        }
        assert forall|j: int| 0 <= j < tail.len() implies #[trigger] ser(tail[j]).len()
            + HEADER_LEN + TRAILER_LEN <= u32::MAX by {
            assert(tail[j] == cmds[j + 1]);
            assert(ser(cmds[j + 1]).len() + HEADER_LEN + TRAILER_LEN <= u32::MAX);
        }
        lemma_run_of_changes((next + 1) as u64, tail, ser);
        assert(run_records(next, cmds, ser) =~= Seq::new(
            cmds.len(),
            |j: int| data_record((next + j) as u64, ser(cmds[j])),
        ));
    } else {
        assert(run_records(next, cmds, ser) =~= Seq::new(
            cmds.len(),
            |j: int| data_record((next + j) as u64, ser(cmds[j])),
        ));
    }
}

/// A faithful replay reproduces the log: serving, against a fresh log, the
/// commands that the records of a whole log carry, in order, writes that
/// log again byte for byte, where its records are the actor's own
/// (data records numbered from the first sequence number up).
pub proof fn lemma_faithful_replay_reproduces_log(
    log: Seq<u8>,
    cmds: Seq<StoreCommand>,
    ser: spec_fn(StoreCommand) -> Seq<u8>,
)
    requires
        spec_scan_log(log).1 == log.len(),
        cmds.len() == spec_scan_log(log).0.len(),
        cmds.len() < u64::MAX,
        forall|j: int| 0 <= j < cmds.len() ==> #[trigger] spec_is_logged(cmds[j]),
        forall|j: int|
            0 <= j < cmds.len() ==> #[trigger] spec_scan_log(log).0[j] == data_record(
                (FIRST_SEQ + j) as u64,
                ser(cmds[j]),
            ),
    ensures
        run_log(FIRST_SEQ, cmds, ser) == log,
{
    let rs = spec_scan_log(log).0;
    lemma_recovery_truncates(log);
    assert(log.take(log.len() as int) =~= log);
    assert forall|j: int| 0 <= j < cmds.len() implies #[trigger] ser(cmds[j]).len() + HEADER_LEN
        + TRAILER_LEN <= u32::MAX by {
        assert(rs[j] == data_record((FIRST_SEQ + j) as u64, ser(cmds[j])));
        assert(rs[j].wf());
    }
    lemma_run_of_changes(FIRST_SEQ, cmds, ser);
    lemma_empty_log_valid();
    lemma_log_after_run(Seq::empty(), FIRST_SEQ, cmds, ser);
    let out = run_log(FIRST_SEQ, cmds, ser);
    assert(Seq::<u8>::empty() + out =~= out);
    assert(spec_scan_log(Seq::<u8>::empty()).0 + run_records(FIRST_SEQ, cmds, ser) =~= rs);
    lemma_recovery_truncates(out);
    assert(out.take(out.len() as int) =~= out);
}

} // verus!
