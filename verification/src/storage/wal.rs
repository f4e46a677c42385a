//! Records of the write-ahead log.
use vstd::prelude::*;

use crate::node::{NodeId, Payload, PayloadView};

verus! {

/// When the log is forced to disk.
#[derive(Debug, Clone, Copy, PartialEq, Eq, Structural)]
pub enum SyncMode {
    Full,
    Normal,
    Off,
}

/// One change of the node table, as the log keeps it. Weights are single precision bit
/// patterns.
#[derive(Debug)]
pub enum WalEntry<T> {
    Insert { id: NodeId, vector: Vec<T>, payload: Payload },
    Link { src: NodeId, dst: NodeId, label: String, weight: u32, metadata: String },
    Delete { id: NodeId },
    Unlink { src: NodeId, dst: NodeId },
    UnlinkLabel { src: NodeId, dst: NodeId, label: String },
    UpdatePayload { id: NodeId, payload: Payload },
    UpdateVector { id: NodeId, vector: Vec<T> },
    TxBegin { tx_id: u64 },
    TxCommit { tx_id: u64 },
}

/// A log record as mathematical values.
pub enum Change<T> {
    Insert { id: NodeId, vector: Seq<T>, payload: PayloadView },
    Link { src: NodeId, dst: NodeId, label: Seq<char>, weight: u32, metadata: Seq<char> },
    Delete { id: NodeId },
    Unlink { src: NodeId, dst: NodeId },
    UnlinkLabel { src: NodeId, dst: NodeId, label: Seq<char> },
    UpdatePayload { id: NodeId, payload: PayloadView },
    UpdateVector { id: NodeId, vector: Seq<T> },
    Marker,
}

impl<T> View for WalEntry<T> {
    type V = Change<T>;

    open spec fn view(&self) -> Change<T> {
        match *self {
            WalEntry::Insert { id, vector, payload } => Change::Insert {
                id,
                vector: vector@,
                payload: payload@,
            },
            WalEntry::Link { src, dst, label, weight, metadata } => Change::Link {
                src,
                dst,
                label: label@,
                weight,
                metadata: metadata@,
            },
            WalEntry::Delete { id } => Change::Delete { id },
            WalEntry::Unlink { src, dst } => Change::Unlink { src, dst },
            WalEntry::UnlinkLabel { src, dst, label } => Change::UnlinkLabel {
                src,
                dst,
                label: label@,
            },
            WalEntry::UpdatePayload { id, payload } => Change::UpdatePayload {
                id,
                payload: payload@,
            },
            WalEntry::UpdateVector { id, vector } => Change::UpdateVector { id, vector: vector@ },
            WalEntry::TxBegin { .. } => Change::Marker,
            WalEntry::TxCommit { .. } => Change::Marker,
        }
    }
}

/// The views of a sequence of log records.
pub open spec fn changes<T>(entries: Seq<WalEntry<T>>) -> Seq<Change<T>> {
    entries.map_values(|entry: WalEntry<T>| entry@)
}

/// What a log holds up to some record: the changes that count, those of a transaction that is not
/// finished, whether there is one, and after how many records the log may be cut.
pub struct LogScan<T> {
    pub kept: Seq<WalEntry<T>>,
    pub pending: Seq<WalEntry<T>>,
    pub inside: bool,
    pub valid: int,
}

/// What the first `count` records of a log hold. The changes of a transaction count from its last
/// record on; one that begins again forgets those before.
pub open spec fn scan_log<T>(entries: Seq<WalEntry<T>>, count: int) -> LogScan<T>
    decreases count,
{
    if count <= 0 {
        LogScan { kept: Seq::empty(), pending: Seq::empty(), inside: false, valid: 0 }
    } else {
        let before = scan_log(entries, count - 1);
        match entries[count - 1] {
            WalEntry::TxBegin { .. } => LogScan { pending: Seq::empty(), inside: true, ..before },
            WalEntry::TxCommit { .. } => LogScan {
                kept: before.kept + before.pending,
                pending: Seq::empty(),
                inside: false,
                valid: count,
            },
            entry => if before.inside {
                LogScan { pending: before.pending.push(entry), ..before }
            } else {
                LogScan { kept: before.kept.push(entry), valid: count, ..before }
            },
        }
    }
}

/// The changes of a log that count, without a transaction that was not finished, and after how
/// many records the log may be cut.
pub fn committed_records<T>(entries: Vec<WalEntry<T>>) -> (result: (Vec<WalEntry<T>>, usize))
    ensures
        result.0@ == scan_log(entries@, entries@.len() as int).kept,
        result.1 == scan_log(entries@, entries@.len() as int).valid,
{
    let ghost all = entries@;
    let mut kept: Vec<WalEntry<T>> = Vec::new();
    let mut pending: Vec<WalEntry<T>> = Vec::new();
    let mut inside = false;
    let mut valid: usize = 0;
    let mut place: usize = 0;
    let total: usize = entries.len();
    for entry in iter: entries
        invariant
            iter.seq() == all,
            total == all.len(),
            place == iter.index(),
            kept@ == scan_log(all, place as int).kept,
            pending@ == scan_log(all, place as int).pending,
            inside == scan_log(all, place as int).inside,
            valid == scan_log(all, place as int).valid,
            0 <= valid <= place,
    {
        assert(all[place as int] == entry);
        place += 1;
        match entry {
            WalEntry::TxBegin { .. } => {
                pending = Vec::new();
                inside = true;
            },
            WalEntry::TxCommit { .. } => {
                kept.append(&mut pending);
                pending = Vec::new();
                inside = false;
                valid = place;
            },
            change => {
                if inside {
                    pending.push(change);
                } else {
                    kept.push(change);
                    valid = place;
                }
            },
        }
    }
    (kept, valid)
}

/// A transaction at the end of a log that is not finished does not count, and the log may be cut
/// before it.
pub proof fn law_unfinished_transactions_do_not_count<T>(
    log: Seq<WalEntry<T>>,
    begin: WalEntry<T>,
    rest: Seq<WalEntry<T>>,
    count: int,
)
    requires
        !scan_log(log, log.len() as int).inside,
        begin is TxBegin,
        forall|i: int|
            0 <= i < rest.len() ==> !((#[trigger] rest[i]) is TxBegin) && !(rest[i] is TxCommit),
        0 <= count <= rest.len(),
    ensures
        scan_log(log.push(begin) + rest, log.len() + 1 + count).kept == scan_log(
            log,
            log.len() as int,
        ).kept,
        scan_log(log.push(begin) + rest, log.len() + 1 + count).valid == scan_log(
            log,
            log.len() as int,
        ).valid,
        scan_log(log.push(begin) + rest, log.len() + 1 + count).inside,
    decreases count,
{
    let whole = log.push(begin) + rest;
    if count == 0 {
        lemma_scan_prefix(log, whole, log.len() as int);
        assert(whole[log.len() as int] == begin);
    } else {
        law_unfinished_transactions_do_not_count(log, begin, rest, count - 1);
        assert(whole[log.len() + count] == rest[count - 1]);
    }
}

/// A transaction that is finished counts whole: its changes come after all that counted before, in
/// order, and the log is good up to its last record. A change outside of transactions counts by
/// itself.
pub proof fn law_finished_transactions_count<T>(
    log: Seq<WalEntry<T>>,
    begin: WalEntry<T>,
    rest: Seq<WalEntry<T>>,
    commit: WalEntry<T>,
)
    requires
        !scan_log(log, log.len() as int).inside,
        begin is TxBegin,
        commit is TxCommit,
        forall|i: int|
            0 <= i < rest.len() ==> !((#[trigger] rest[i]) is TxBegin) && !(rest[i] is TxCommit),
    ensures
        ({
            let whole = log.push(begin) + rest.push(commit);
            let before = scan_log(log, log.len() as int);
            let after = scan_log(whole, whole.len() as int);
            &&& after.kept == before.kept + rest
            &&& after.valid == whole.len()
            &&& !after.inside
        }),
        rest.len() > 0 ==> {
            let single = log.push(rest[0]);
            let after = scan_log(single, single.len() as int);
            &&& after.kept == scan_log(log, log.len() as int).kept.push(rest[0])
            &&& after.valid == single.len()
        },
{
    let whole = log.push(begin) + rest.push(commit);
    lemma_scan_pending(log, begin, rest, commit, rest.len() as int);
    assert(rest.take(rest.len() as int) =~= rest);
    assert(whole[whole.len() - 1] == commit);
    if rest.len() > 0 {
        let single = log.push(rest[0]);
        lemma_scan_prefix(log, single, log.len() as int);
        assert(single[log.len() as int] == rest[0]);
    }
}

/// What is pending inside a transaction.
proof fn lemma_scan_pending<T>(
    log: Seq<WalEntry<T>>,
    begin: WalEntry<T>,
    rest: Seq<WalEntry<T>>,
    commit: WalEntry<T>,
    count: int,
)
    requires
        !scan_log(log, log.len() as int).inside,
        begin is TxBegin,
        forall|i: int|
            0 <= i < rest.len() ==> !((#[trigger] rest[i]) is TxBegin) && !(rest[i] is TxCommit),
        0 <= count <= rest.len(),
    ensures
        ({
            let whole = log.push(begin) + rest.push(commit);
            let after = scan_log(whole, log.len() + 1 + count);
            &&& after.kept == scan_log(log, log.len() as int).kept
            &&& after.pending == rest.take(count)
            &&& after.inside
        }),
    decreases count,
{
    let whole = log.push(begin) + rest.push(commit);
    if count == 0 {
        lemma_scan_prefix(log, whole, log.len() as int);
        assert(whole[log.len() as int] == begin);
        assert(rest.take(0) =~= Seq::<WalEntry<T>>::empty());
    } else {
        lemma_scan_pending(log, begin, rest, commit, count - 1);
        assert(whole[log.len() + count] == rest[count - 1]);
        assert(rest.take(count) =~= rest.take(count - 1).push(rest[count - 1]));
    }
}

/// What a log holds depends on the records looked at alone.
proof fn lemma_scan_prefix<T>(log: Seq<WalEntry<T>>, longer: Seq<WalEntry<T>>, count: int)
    requires
        count <= log.len() <= longer.len(),
        forall|i: int| 0 <= i < count ==> #[trigger] log[i] == longer[i],
    ensures
        scan_log(log, count) == scan_log(longer, count),
    decreases count,
{
    if count > 0 {
        lemma_scan_prefix(log, longer, count - 1);
        assert(log[count - 1] == longer[count - 1]);
    }
}

} // verus!
