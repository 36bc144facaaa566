//! The engine: the one way in which an operation enters the system, and the
//! replay that rebuilds the store from the log.

use vstd::prelude::*;
use crate::clock::{has_month, month_label, Timestamp};
use crate::db::{applied, applied_all, ids_read_back, Database, DatabaseView};
use crate::log::{
    append_op_at,
    is_history,
    malformed_at,
    read_all_ops,
    read_all_ops_at,
    with_record,
    EventLog,
    LogError,
    PartitionView,
    RecordView,
};
use crate::model::{Op, OpView};
use crate::seqs::views;
use crate::validate::{validate_op, verdict, ValidationError};

verus! {

/// Why an operation was not applied, or the log not replayed.
#[derive(Debug, PartialEq)]
pub enum Error {
    /// The operation was rejected before anything was written.
    Validation(ValidationError),
    /// The log could not be appended to, or could not be read.
    Log(LogError),
}

/// Whether `after` is the store that replaying `history` into `before`
/// gives, whatever the moments at which the operations were applied.
pub open spec fn is_replay(before: DatabaseView, history: Seq<OpView>, after: DatabaseView) -> bool {
    exists|stamps: Seq<i64>|
        stamps.len() == history.len() && after == #[trigger] applied_all(
            before,
            history,
            stamps,
            history.len() as int,
        )
}

/// Whether `after` is what replaying the log into `before` gives: the whole
/// history as it reads at some moment, applied in its order.
pub open spec fn is_replay_of_log(
    log: Seq<PartitionView>,
    before: DatabaseView,
    after: DatabaseView,
) -> bool {
    exists|now: Timestamp, history: Seq<OpView>| #[trigger]
        is_history(log, now, history) && is_replay(before, history, after)
}

/// What taking in an operation at the moment `now` leaves: a rejected
/// operation is answered with the reason of its rejection, and leaves the
/// log and the store as they are; an accepted one is recorded in the
/// partition of the month of `now` and then applied to the store; where
/// `now` has no month, the append fails and the store is not touched.
pub open spec fn taken_in(
    before: (DatabaseView, Seq<PartitionView>),
    op: OpView,
    now: Timestamp,
    r: Result<(), Error>,
    after: (DatabaseView, Seq<PartitionView>),
) -> bool {
    match verdict(op) {
        Err(e) => r == Err::<(), Error>(Error::Validation(e)) && after == before,
        Ok(()) => match month_label(now.secs, now.nanos) {
            None => r == Err::<(), Error>(Error::Log(LogError::NoMonth)) && after == before,
            Some(month) => r is Ok && after.1 == with_record(
                before.1,
                month,
                RecordView::Parsed(op),
            ) && after.0 == applied(before.0, op, now.secs),
        },
    }
}

/// Takes in a new operation: checks it, records it in the log under the
/// present month, and applies it to the store at the present moment. An
/// operation that is rejected leaves the log and the store as they are.
pub fn apply_op(db: &mut Database, log: &mut EventLog, op: Op) -> (r: Result<(), Error>)
    ensures
        exists|now: Timestamp| #[trigger]
            has_month(now) && taken_in(
                (old(db)@, old(log)@),
                op@,
                now,
                r,
                (final(db)@, final(log)@),
            ),
        r is Ok <==> verdict(op@) is Ok,
        r is Ok ==> ids_read_back(op@),
{
    let at = Timestamp::now();
    let r = apply_op_at(db, log, op, at);
    proof {
        assert(has_month(at) && taken_in((old(db)@, old(log)@), op@, at, r, (db@, log@)));
    }
    r
}

/// Takes in a new operation as [`apply_op`] does when `now` is the present
/// moment.
pub fn apply_op_at(db: &mut Database, log: &mut EventLog, op: Op, now: Timestamp) -> (r: Result<
    (),
    Error,
>)
    ensures
        taken_in((old(db)@, old(log)@), op@, now, r, (final(db)@, final(log)@)),
        r is Ok ==> ids_read_back(op@),
{
    match validate_op(&op) {
        Err(e) => {
            return Err(Error::Validation(e));
        },
        Ok(()) => {},
    }
    match append_op_at(log, &op, now) {
        Err(e) => {
            return Err(Error::Log(e));
        },
        Ok(_) => {},
    }
    db.apply_op_at(&op, now);
    Ok(())
}

/// The moment `at`, once for each of `n` operations.
pub open spec fn always(at: i64, n: nat) -> Seq<i64> {
    Seq::new(n, |i: int| at)
}

/// Rebuilds the store from the log as [`replay_logs`] does when `now` is
/// the present moment throughout: the history is read at `now`, and every
/// operation is applied at `now`.
pub fn replay_logs_at(db: &mut Database, log: &EventLog, now: Timestamp) -> (r: Result<(), Error>)
    ensures
        match r {
            Ok(()) => exists|history: Seq<OpView>| #[trigger]
                is_history(log@, now, history) && final(db)@ == applied_all(
                    old(db)@,
                    history,
                    always(now.secs, history.len()),
                    history.len() as int,
                ),
            Err(Error::Log(LogError::Malformed { partition, line })) => malformed_at(
                log@,
                partition@,
                line as int,
            ) && final(db)@ == old(db)@,
            Err(_) => false,
        },
{
    match read_all_ops_at(log, now) {
        Err(e) => Err(Error::Log(e)),
        Ok(ops) => {
            let ghost history = views(ops@);
            let ghost stamps = always(now.secs, history.len());
            let mut i: usize = 0;
            while i < ops.len()
                invariant
                    i <= ops@.len(),
                    history == views(ops@),
                    stamps == always(now.secs, history.len()),
                    db@ == applied_all(old(db)@, history, stamps, i as int),
                decreases ops@.len() - i,
            {
                db.apply_op_at(&ops[i], now);
                i += 1;
            }
            proof {
                assert(is_history(log@, now, history));
            }
            Ok(())
        },
    }
}

/// Applies `ops` to the store, one after the other, each at the present
/// moment.
fn apply_all(db: &mut Database, ops: &Vec<Op>)
    ensures
        is_replay(old(db)@, views(ops@), final(db)@),
{
    let ghost history = views(ops@);
    let ghost mut stamps: Seq<i64> = Seq::empty();
    let mut i: usize = 0;
    while i < ops.len()
        invariant
            i <= ops@.len(),
            history == views(ops@),
            stamps.len() == i,
            db@ == applied_all(old(db)@, history, stamps, i as int),
        decreases ops@.len() - i,
    {
        let ghost before = db@;
        db.apply_op(&ops[i]);
        proof {
            let now = choose|now: i64| db@ == applied(before, ops@[i as int]@, now);
            let longer = stamps.push(now);
            lemma_applied_all_agrees(old(db)@, history, stamps, longer, i as int);
            stamps = longer;
        }
        i += 1;
    }
}

/// Applying a first part of the operations looks at the moments of that
/// part only.
pub proof fn lemma_applied_all_agrees(
    db: DatabaseView,
    ops: Seq<OpView>,
    a: Seq<i64>,
    b: Seq<i64>,
    n: int,
)
    requires
        0 <= n <= a.len(),
        n <= b.len(),
        n <= ops.len(),
        forall|i: int| 0 <= i < n ==> a[i] == b[i],
    ensures
        applied_all(db, ops, a, n) == applied_all(db, ops, b, n),
    decreases n,
{
    if n > 0 {
        lemma_applied_all_agrees(db, ops, a, b, n - 1);
    }
}

/// Rebuilds the store from the log: reads the whole history at the present
/// moment and applies every operation in its order, without checking it
/// again. One record that does not read as an operation fails the replay,
/// and the store stays as it is.
pub fn replay_logs(db: &mut Database, log: &EventLog) -> (r: Result<(), Error>)
    ensures
        match r {
            Ok(()) => is_replay_of_log(log@, old(db)@, final(db)@),
            Err(Error::Log(LogError::Malformed { partition, line })) => malformed_at(
                log@,
                partition@,
                line as int,
            ) && final(db)@ == old(db)@,
            Err(_) => false,
        },
{
    match read_all_ops(log) {
        Err(e) => Err(Error::Log(e)),
        Ok(ops) => {
            apply_all(db, &ops);
            proof {
                let now = choose|now: Timestamp| is_history(log@, now, views(ops@));
                assert(is_history(log@, now, views(ops@)));
            }
            Ok(())
        },
    }
}

} // verus!
