//! The event log: an append-only record of operations, kept in one
//! partition for each calendar month.
//!
//! A partition holds its records in the order in which they were appended.
//! A record is an operation, or a line that does not read as one.

use vstd::prelude::*;
use crate::clock::{is_month, month_label, now, Timestamp};
use crate::model::{Op, OpView};
use crate::order::{
    comes_before,
    is_stable_order,
    key_of,
    lemma_ordered_stays,
    lemma_stable_order_is_one,
    permuted,
    stable_order,
};
use crate::seqs::views;
use crate::text::{join_path, joined};

verus! {

/// One line of a partition.
#[derive(Debug, PartialEq)]
pub enum Record {
    /// A line that reads as an operation.
    Parsed(Op),
    /// A line that does not; the text of the line.
    Malformed(String),
}

/// What a record holds.
pub ghost enum RecordView {
    Parsed(OpView),
    Malformed(Seq<char>),
}

impl View for Record {
    type V = RecordView;

    open spec fn view(&self) -> RecordView {
        match self {
            Record::Parsed(op) => RecordView::Parsed(op@),
            Record::Malformed(line) => RecordView::Malformed(line@),
        }
    }
}

/// The records of one calendar month.
#[derive(Debug)]
struct Partition {
    key: String,
    records: Vec<Record>,
}

/// What a partition holds.
pub ghost struct PartitionView {
    pub key: Seq<char>,
    pub records: Seq<RecordView>,
}

impl View for Partition {
    type V = PartitionView;

    closed spec fn view(&self) -> PartitionView {
        PartitionView { key: self.key@, records: views(self.records@) }
    }
}

/// Why the log cannot be read.
#[derive(Debug, PartialEq)]
pub enum LogError {
    /// A record does not read as an operation: the partition that holds it,
    /// and its place among the records of that partition, counted from 0.
    Malformed { partition: String, line: usize },
    /// The moment of an append lies in no calendar month, so that there is
    /// no partition to append to.
    NoMonth,
}

/// The log: its partitions, in the order in which they were begun.
#[derive(Debug)]
pub struct EventLog {
    partitions: Vec<Partition>,
}

impl View for EventLog {
    type V = Seq<PartitionView>;

    closed spec fn view(&self) -> Seq<PartitionView> {
        Seq::new(self.partitions@.len(), |i: int| self.partitions@[i]@)
    }
}

/// The place of the first partition under `key` at or after `from`; the
/// number of partitions where there is none.
pub open spec fn partition_at(log: Seq<PartitionView>, key: Seq<char>, from: int) -> int
    decreases log.len() - from,
{
    if from < 0 || from >= log.len() {
        log.len() as int
    } else if log[from].key == key {
        from
    } else {
        partition_at(log, key, from + 1)
    }
}

/// The records of the partition under `key`; none where there is no such
/// partition.
pub open spec fn records_in(log: Seq<PartitionView>, key: Seq<char>) -> Seq<RecordView> {
    let at = partition_at(log, key, 0);
    if at < log.len() {
        log[at].records
    } else {
        Seq::empty()
    }
}

/// The log after `record` has been appended to the partition under `key`,
/// which is begun where it does not exist.
pub open spec fn with_record(
    log: Seq<PartitionView>,
    key: Seq<char>,
    record: RecordView,
) -> Seq<PartitionView> {
    let at = partition_at(log, key, 0);
    if at < log.len() {
        log.update(at, PartitionView { key, records: log[at].records.push(record) })
    } else {
        log.push(PartitionView { key, records: seq![record] })
    }
}

/// Whether every one of `records` reads as an operation.
pub open spec fn all_parsed(records: Seq<RecordView>) -> bool {
    forall|i: int| 0 <= i < records.len() ==> records[i] is Parsed
}

/// Whether the record at `line` is the first of `records` that does not
/// read as an operation.
pub open spec fn first_malformed(records: Seq<RecordView>, line: int) -> bool {
    &&& 0 <= line < records.len()
    &&& records[line] is Malformed
    &&& forall|i: int| 0 <= i < line ==> records[i] is Parsed
}

/// The operations that `records` hold, in order, where all of them read as
/// operations.
pub open spec fn parsed_ops(records: Seq<RecordView>) -> Seq<OpView> {
    Seq::new(records.len(), |i: int| records[i]->Parsed_0)
}

/// The records of the first `n` partitions, one partition after the other.
pub open spec fn all_records(log: Seq<PartitionView>, n: int) -> Seq<RecordView>
    decreases n,
{
    if n <= 0 || n > log.len() {
        Seq::empty()
    } else {
        all_records(log, n - 1) + log[n - 1].records
    }
}

/// The moment by which an operation is ordered when the log is read at
/// `now`: its time of creation where it carries one; an update carries
/// none and counts as made at the moment of reading.
pub open spec fn created_rank(op: OpView, now: Timestamp) -> int {
    match op {
        OpView::AppendObject(obj) => obj.created.rank(),
        OpView::AppendEdge(edge) => edge.created.rank(),
        OpView::UpdateObject { .. } => now.rank(),
    }
}

/// The key by which the operation at each position of `ops` is ordered.
pub open spec fn rank_in(ops: Seq<OpView>, now: Timestamp) -> spec_fn(int) -> int {
    |i: int| created_rank(ops[i], now)
}

/// Whether `history` is what reading the whole log at `now` gives: every
/// record reads as an operation, and `history` holds the operations of all
/// partitions, ordered by [`created_rank`], those of one rank in the order
/// in which the partitions hold them.
pub open spec fn is_history(log: Seq<PartitionView>, now: Timestamp, history: Seq<OpView>) -> bool {
    let all = parsed_ops(all_records(log, log.len() as int));
    &&& forall|p: int| 0 <= p < log.len() ==> all_parsed(#[trigger] log[p].records)
    &&& exists|order: Seq<usize>|
        is_stable_order(all.len(), rank_in(all, now), order) && history == permuted(all, order)
}

/// Whether the record at `line` of the partition at `p` is the first of the
/// whole log that does not read as an operation.
pub open spec fn first_malformed_in(log: Seq<PartitionView>, p: int, line: int) -> bool {
    &&& 0 <= p < log.len()
    &&& forall|q: int| 0 <= q < p ==> all_parsed(#[trigger] log[q].records)
    &&& first_malformed(log[p].records, line)
}

/// Whether the first record of the whole log that does not read as an
/// operation stands at `line` of a partition under `partition`.
pub open spec fn malformed_at(log: Seq<PartitionView>, partition: Seq<char>, line: int) -> bool {
    exists|p: int| #[trigger] first_malformed_in(log, p, line) && log[p].key == partition
}

/// The log after the first `n` of `ops` have been appended to an empty log,
/// the operation at each position under the month that `months` gives for
/// it.
pub open spec fn recorded(ops: Seq<OpView>, months: Seq<Seq<char>>, n: int) -> Seq<PartitionView>
    decreases n,
{
    if n <= 0 || n > ops.len() || n > months.len() {
        Seq::empty()
    } else {
        with_record(recorded(ops, months, n - 1), months[n - 1], RecordView::Parsed(ops[n - 1]))
    }
}

/// What the search for a partition finds: the first place at or after
/// `from` that is under `key`, or the end.
pub proof fn lemma_partition_found(log: Seq<PartitionView>, key: Seq<char>, from: int)
    requires
        0 <= from <= log.len(),
    ensures
        from <= partition_at(log, key, from) <= log.len(),
        partition_at(log, key, from) < log.len() ==> log[partition_at(log, key, from)].key == key,
        forall|i: int| from <= i < partition_at(log, key, from) ==> (#[trigger] log[i]).key != key,
    decreases log.len() - from,
{
    if from < log.len() && log[from].key != key {
        lemma_partition_found(log, key, from + 1);
    }
}

/// The log is append-only: an append puts the record at the end of its
/// partition, and leaves every record that the log held where it was.
pub proof fn lemma_append_only(
    log: Seq<PartitionView>,
    key: Seq<char>,
    record: RecordView,
    other: Seq<char>,
)
    ensures
        records_in(with_record(log, key, record), other) == if other == key {
            records_in(log, key).push(record)
        } else {
            records_in(log, other)
        },
{
    let after = with_record(log, key, record);
    let at = partition_at(log, key, 0);
    lemma_partition_found(log, key, 0);
    lemma_partition_found(log, other, 0);
    lemma_partition_found(after, other, 0);
    let was = partition_at(log, other, 0);
    let is = partition_at(after, other, 0);
    assert forall|i: int| 0 <= i < log.len() implies (#[trigger] after[i]).key == log[i].key by {}
    if is < log.len() {
        assert(log[is].key == after[is].key);
    }
    if was < log.len() {
        assert(after[was].key == log[was].key);
    }
    if at < log.len() {
        assert(is == was);
        if other != key && was < log.len() {
            assert(after[was] == log[was]);
        }
    } else {
        assert(after[log.len() as int].key == key);
        if other == key {
            assert(is == log.len());
            assert(seq![record] =~= Seq::<RecordView>::empty().push(record));
        } else if was < log.len() {
            assert(is == was);
            assert(after[was] == log[was]);
        } else {
            assert(is == after.len());
        }
    }
}

/// Whether the months come in blocks: a month that has been left does not
/// come back.
pub open spec fn months_in_blocks(months: Seq<Seq<char>>) -> bool {
    forall|i: int, j: int, k: int|
        0 <= i < j < k < months.len() && #[trigger] months[i] == #[trigger] months[k]
            ==> #[trigger] months[j] == months[i]
}

/// The records of the first partitions are the same in two logs that agree
/// on these partitions.
proof fn lemma_all_records_agree(a: Seq<PartitionView>, b: Seq<PartitionView>, n: int)
    requires
        0 <= n <= a.len(),
        n <= b.len(),
        forall|p: int| 0 <= p < n ==> #[trigger] a[p] == b[p],
    ensures
        all_records(a, n) == all_records(b, n),
    decreases n,
{
    if n > 0 {
        lemma_all_records_agree(a, b, n - 1);
    }
}

/// Whether `key` is one of the first `n` months.
spec fn is_among(months: Seq<Seq<char>>, n: int, key: Seq<char>) -> bool {
    exists|i: int| 0 <= i < n && #[trigger] months[i] == key
}

/// What a log holds whose operations were appended under months that come
/// in blocks.
spec fn recorded_in_blocks(
    ops: Seq<OpView>,
    months: Seq<Seq<char>>,
    n: int,
    log: Seq<PartitionView>,
) -> bool {
    &&& all_records(log, log.len() as int) == Seq::new(
        n as nat,
        |i: int| RecordView::Parsed(ops[i]),
    )
    &&& forall|p: int| 0 <= p < log.len() ==> all_parsed(#[trigger] log[p].records)
    &&& n > 0 ==> log.len() > 0 && log.last().key == months[n - 1]
    &&& forall|p: int| 0 <= p < log.len() ==> is_among(months, n, #[trigger] log[p].key)
    &&& forall|p: int, q: int| 0 <= p < q < log.len() ==> log[p].key != log[q].key
}

/// A log whose operations were appended under months that come in blocks
/// holds the operations in the order in which they were appended.
proof fn lemma_recorded_in_blocks(ops: Seq<OpView>, months: Seq<Seq<char>>, n: int)
    requires
        0 <= n <= ops.len(),
        n <= months.len(),
        months_in_blocks(months),
    ensures
        recorded_in_blocks(ops, months, n, recorded(ops, months, n)),
    decreases n,
{
    let log = recorded(ops, months, n);
    if n == 0 {
        assert(all_records(log, 0) =~= Seq::new(0nat, |i: int| RecordView::Parsed(ops[i])));
    } else {
        let before = recorded(ops, months, n - 1);
        lemma_recorded_in_blocks(ops, months, n - 1);
        let key = months[n - 1];
        let record = RecordView::Parsed(ops[n - 1]);
        let at = partition_at(before, key, 0);
        lemma_partition_found(before, key, 0);
        let last = before.len() - 1;
        if at < before.len() {
            if at < last {
                assert(is_among(months, n - 1, before[at].key));
                let i = choose|i: int| 0 <= i < n - 1 && #[trigger] months[i] == before[at].key;
                assert(months[n - 2] == before[last].key);
                assert(before[at].key != before[last].key);
                if i < n - 2 {
                    assert(months[i] == months[n - 1]);
                    assert(months[n - 2] == months[i]);
                }
            }
            assert(at == last);
            lemma_all_records_agree(log, before, last);
            assert(all_records(log, log.len() as int) =~= all_records(
                before,
                before.len() as int,
            ).push(record));
        } else {
            lemma_all_records_agree(log, before, before.len() as int);
            assert(all_records(log, log.len() as int) =~= all_records(
                before,
                before.len() as int,
            ).push(record));
        }
        assert(all_records(log, log.len() as int) =~= Seq::new(
            n as nat,
            |i: int| RecordView::Parsed(ops[i]),
        ));
        assert forall|p: int| 0 <= p < log.len() implies all_parsed(#[trigger] log[p].records) by {
            if p < before.len() && p != at {
                assert(all_parsed(before[p].records));
            } else if p < before.len() {
                assert(all_parsed(before[p].records));
            }
        }
        assert forall|p: int| 0 <= p < log.len() implies is_among(
            months,
            n,
            #[trigger] log[p].key,
        ) by {
            if p < before.len() && p != at {
                assert(is_among(months, n - 1, before[p].key));
                let i = choose|i: int| 0 <= i < n - 1 && #[trigger] months[i] == before[p].key;
                assert(months[i] == log[p].key);
            } else {
                assert(months[n - 1] == log[p].key);
            }
        }
    }
}

/// Where the months of the appends come in blocks, the log holds the
/// operations in the order in which they were appended, one partition
/// after the other.
pub proof fn lemma_log_keeps_order(ops: Seq<OpView>, months: Seq<Seq<char>>)
    requires
        months.len() == ops.len(),
        months_in_blocks(months),
    ensures
        parsed_ops(
            all_records(
                recorded(ops, months, ops.len() as int),
                recorded(ops, months, ops.len() as int).len() as int,
            ),
        ) == ops,
        forall|p: int|
            0 <= p < recorded(ops, months, ops.len() as int).len() ==> all_parsed(
                #[trigger] recorded(ops, months, ops.len() as int)[p].records,
            ),
{
    lemma_recorded_in_blocks(ops, months, ops.len() as int);
    let log = recorded(ops, months, ops.len() as int);
    assert(parsed_ops(all_records(log, log.len() as int)) =~= ops);
}

/// Reading the whole log at one moment gives one history only.
pub proof fn lemma_history_is_one(
    log: Seq<PartitionView>,
    now: Timestamp,
    a: Seq<OpView>,
    b: Seq<OpView>,
)
    requires
        is_history(log, now, a),
        is_history(log, now, b),
    ensures
        a == b,
{
    let all = parsed_ops(all_records(log, log.len() as int));
    let first = choose|order: Seq<usize>|
        is_stable_order(all.len(), rank_in(all, now), order) && a == permuted(all, order);
    let second = choose|order: Seq<usize>|
        is_stable_order(all.len(), rank_in(all, now), order) && b == permuted(all, order);
    lemma_stable_order_is_one(all.len(), rank_in(all, now), first, second);
}

/// A history stands in the order of creation: no operation comes before one
/// that ranks lower, in whatever partitions the two are kept.
pub proof fn lemma_history_rises(log: Seq<PartitionView>, now: Timestamp, history: Seq<OpView>)
    requires
        is_history(log, now, history),
    ensures
        forall|i: int, j: int|
            0 <= i <= j < history.len() ==> created_rank(#[trigger] history[i], now)
                <= created_rank(#[trigger] history[j], now),
{
    let all = parsed_ops(all_records(log, log.len() as int));
    let order = choose|order: Seq<usize>|
        is_stable_order(all.len(), rank_in(all, now), order) && history == permuted(all, order);
    assert forall|i: int, j: int| 0 <= i <= j < history.len() implies created_rank(
        #[trigger] history[i],
        now,
    ) <= created_rank(#[trigger] history[j], now) by {
        if i < j {
            assert(comes_before(
                rank_in(all, now),
                order[i] as int,
                order[j] as int,
            ));
        }
    }
}

/// Where the operations stand in the log in the order of their creation
/// already, the history is the log as it stands.
pub proof fn lemma_history_of_ordered_log(
    log: Seq<PartitionView>,
    now: Timestamp,
    history: Seq<OpView>,
)
    requires
        is_history(log, now, history),
        forall|i: int, j: int|
            0 <= i <= j < all_records(log, log.len() as int).len() ==> created_rank(
                #[trigger] parsed_ops(all_records(log, log.len() as int))[i],
                now,
            ) <= created_rank(#[trigger] parsed_ops(all_records(log, log.len() as int))[j], now),
    ensures
        history == parsed_ops(all_records(log, log.len() as int)),
{
    let all = parsed_ops(all_records(log, log.len() as int));
    let order = choose|order: Seq<usize>|
        is_stable_order(all.len(), rank_in(all, now), order) && history == permuted(all, order);
    assert forall|i: int, j: int| 0 <= i <= j < all.len() implies #[trigger] rank_in(all, now)(i)
        <= #[trigger] rank_in(all, now)(j) by {
        assert(created_rank(all[i], now) <= created_rank(all[j], now));
    }
    lemma_ordered_stays(all.len(), rank_in(all, now), order);
    assert(history =~= all);
}

/// Where no partition before `at` is under `key`, the search from `from`
/// goes on to `at`.
proof fn lemma_partition_search(log: Seq<PartitionView>, key: Seq<char>, from: int, at: int)
    requires
        0 <= from <= at <= log.len(),
        forall|i: int| from <= i < at ==> log[i].key != key,
    ensures
        partition_at(log, key, from) == partition_at(log, key, at),
    decreases at - from,
{
    if from < at {
        lemma_partition_search(log, key, from + 1, at);
    }
}

impl EventLog {
    /// A log without partitions.
    pub fn new() -> (r: EventLog)
        ensures
            r@ == Seq::<PartitionView>::empty(),
    {
        let r = EventLog { partitions: Vec::new() };
        assert(r@ =~= Seq::<PartitionView>::empty());
        r
    }

    /// The place of the first partition under `key`; the number of
    /// partitions where there is none.
    fn find(&self, key: &str) -> (at: usize)
        ensures
            at == partition_at(self@, key@, 0),
            at <= self.partitions@.len(),
            at < self.partitions@.len() ==> self@[at as int].key == key@,
    {
        let wanted = key.to_owned();
        let mut at: usize = 0;
        while at < self.partitions.len()
            invariant
                at <= self.partitions@.len(),
                wanted@ == key@,
                forall|i: int| 0 <= i < at ==> self@[i].key != key@,
            decreases self.partitions@.len() - at,
        {
            if self.partitions[at].key == wanted {
                proof {
                    lemma_partition_search(self@, key@, 0, at as int);
                }
                return at;
            }
            at += 1;
        }
        proof {
            lemma_partition_search(self@, key@, 0, at as int);
        }
        at
    }

    /// Appends `record` to the partition under `key`, which is begun where
    /// it does not exist.
    pub fn push_record(&mut self, key: &str, record: Record)
        ensures
            final(self)@ == with_record(old(self)@, key@, record@),
    {
        let at = self.find(key);
        if at < self.partitions.len() {
            let ghost before = self.partitions@[at as int].records@;
            self.partitions[at].records.push(record);
            proof {
                assert(views(before.push(record)) =~= views(before).push(record@));
                assert(self@ =~= with_record(old(self)@, key@, record@));
            }
        } else {
            let mut records: Vec<Record> = Vec::new();
            records.push(record);
            let part = Partition { key: key.to_owned(), records };
            proof {
                assert(part@.records =~= seq![record@]);
            }
            self.partitions.push(part);
            proof {
                assert(self@ =~= with_record(old(self)@, key@, record@));
            }
        }
    }
}

impl Op {
    /// The key by which this operation is ordered when the log is read at
    /// `now`.
    pub fn created_key(&self, now: Timestamp) -> (r: i128)
        ensures
            r == created_rank(self@, now),
    {
        match self {
            Op::AppendObject(obj) => obj.created.sort_key(),
            Op::AppendEdge(edge) => edge.created.sort_key(),
            Op::UpdateObject { .. } => now.sort_key(),
        }
    }
}

/// The operations that `records` hold, or the place of the first record
/// that does not read as one.
fn read_records(records: &Vec<Record>) -> (r: Result<Vec<Op>, usize>)
    ensures
        match r {
            Ok(ops) => all_parsed(views(records@)) && views(ops@) == parsed_ops(
                views(records@),
            ),
            Err(line) => first_malformed(views(records@), line as int),
        },
{
    let mut ops: Vec<Op> = Vec::new();
    let mut i: usize = 0;
    while i < records.len()
        invariant
            i <= records.len(),
            ops@.len() == i,
            forall|j: int| 0 <= j < i ==> (#[trigger] records@[j])@ == RecordView::Parsed(ops@[j]@),
        decreases records.len() - i,
    {
        match &records[i] {
            Record::Parsed(op) => {
                ops.push(op.clone());
            },
            Record::Malformed(_) => {
                proof {
                    let held = views(records@);
                    assert(held[i as int] == records@[i as int]@);
                    assert forall|j: int| 0 <= j < i implies held[j] is Parsed by {
                        assert(held[j] == records@[j]@);
                    }
                }
                return Err(i);
            },
        }
        i += 1;
    }
    proof {
        let held = views(records@);
        assert forall|j: int| 0 <= j < held.len() implies held[j] is Parsed && held[j]->Parsed_0
            == ops@[j]@ by {
            assert(held[j] == records@[j]@);
        }
        assert(views(ops@) =~= parsed_ops(held));
    }
    Ok(ops)
}

/// The home directory that counts: the one given, or the present directory
/// where none is given.
pub open spec fn home_or_here(home: Option<&str>) -> Seq<char> {
    match home {
        Some(h) => h@,
        None => "."@,
    }
}

/// The directory that holds the data of this library, below the user's home
/// directory `home`; below the present directory where no home is known.
pub fn get_data_dir(home: Option<&str>) -> (r: String)
    ensures
        r@ == joined(home_or_here(home), ".todo-graph"@),
{
    let base = match home {
        Some(h) => h,
        None => ".",
    };
    join_path(base, ".todo-graph")
}

/// The directory that holds the partitions of the log: `ops` below the data
/// directory.
pub fn get_ops_dir(home: Option<&str>) -> (r: String)
    ensures
        r@ == joined(joined(home_or_here(home), ".todo-graph"@), "ops"@),
{
    let data = get_data_dir(home);
    join_path(data.as_str(), "ops")
}

/// The name of the file that holds the partition under `key`.
pub fn partition_file_name(key: &str) -> (r: String)
    ensures
        r@ == key@ + ".jsonl"@,
{
    let mut name = key.to_owned();
    name.append(".jsonl");
    name
}

/// Appends an operation to the partition of the present month, and hands
/// back the key of that partition.
pub fn append_op(log: &mut EventLog, op: &Op) -> (key: String)
    ensures
        is_month(key@),
        final(log)@ == with_record(old(log)@, key@, RecordView::Parsed(op@)),
{
    let at = now();
    match append_op_at(log, op, at) {
        Ok(key) => key,
        // The present moment has a month.
        Err(_) => String::new(),
    }
}

/// Appends an operation to the partition of the month in which `now` lies,
/// and hands back the key of that partition. Where `now` has no month, the
/// append fails and the log stays as it is.
pub fn append_op_at(log: &mut EventLog, op: &Op, now: Timestamp) -> (r: Result<String, LogError>)
    ensures
        match r {
            Ok(key) => month_label(now.secs, now.nanos) == Some(key@) && final(log)@
                == with_record(old(log)@, key@, RecordView::Parsed(op@)),
            Err(e) => e == LogError::NoMonth && month_label(now.secs, now.nanos) is None
                && final(log)@ == old(log)@,
        },
{
    match now.month() {
        Some(key) => {
            log.push_record(key.as_str(), Record::Parsed(op.clone()));
            Ok(key)
        },
        None => Err(LogError::NoMonth),
    }
}

/// The operations of the partition under `year_month`, in the order in
/// which they were appended; none where there is no such partition. One
/// record that does not read as an operation fails the whole read.
pub fn read_ops_for_month(log: &EventLog, year_month: &str) -> (r: Result<Vec<Op>, LogError>)
    ensures
        match r {
            Ok(ops) => all_parsed(records_in(log@, year_month@)) && views(ops@) == parsed_ops(
                records_in(log@, year_month@),
            ),
            Err(LogError::Malformed { partition, line }) => partition@ == year_month@
                && first_malformed(records_in(log@, year_month@), line as int),
            Err(LogError::NoMonth) => false,
        },
{
    let at = log.find(year_month);
    if at >= log.partitions.len() {
        let ops: Vec<Op> = Vec::new();
        assert(views(ops@) =~= parsed_ops(records_in(log@, year_month@)));
        return Ok(ops);
    }
    match read_records(&log.partitions[at].records) {
        Ok(ops) => Ok(ops),
        Err(line) => Err(LogError::Malformed { partition: year_month.to_owned(), line }),
    }
}

/// The whole history, read at the present moment: see [`read_all_ops_at`].
pub fn read_all_ops(log: &EventLog) -> (r: Result<Vec<Op>, LogError>)
    ensures
        match r {
            Ok(ops) => exists|now: Timestamp| is_history(log@, now, views(ops@)),
            Err(LogError::Malformed { partition, line }) => malformed_at(
                log@,
                partition@,
                line as int,
            ),
            Err(LogError::NoMonth) => false,
        },
{
    let at = now();
    let r = read_all_ops_at(log, at);
    proof {
        if r is Ok {
            assert(is_history(log@, at, views(r->Ok_0@)));
        }
    }
    r
}

/// The whole history as it reads at `now`: the operations of all
/// partitions, ordered by their time of creation and not by where they are
/// kept. An update carries no time and counts as made at `now`. One record
/// that does not read as an operation fails the whole read.
pub fn read_all_ops_at(log: &EventLog, now: Timestamp) -> (r: Result<Vec<Op>, LogError>)
    ensures
        match r {
            Ok(ops) => is_history(log@, now, views(ops@)),
            Err(LogError::Malformed { partition, line }) => malformed_at(
                log@,
                partition@,
                line as int,
            ),
            Err(LogError::NoMonth) => false,
        },
{
    let mut all: Vec<Op> = Vec::new();
    let mut p: usize = 0;
    while p < log.partitions.len()
        invariant
            p <= log.partitions@.len(),
            forall|q: int| 0 <= q < p ==> all_parsed(#[trigger] log@[q].records),
            views(all@) == parsed_ops(all_records(log@, p as int)),
        decreases log.partitions@.len() - p,
    {
        match read_records(&log.partitions[p].records) {
            Ok(mut ops) => {
                let ghost before = all@;
                let ghost added = ops@;
                all.append(&mut ops);
                proof {
                    assert(views(before + added) =~= views(before) + views(added));
                    assert(parsed_ops(all_records(log@, p as int) + log@[p as int].records)
                        =~= parsed_ops(all_records(log@, p as int)) + parsed_ops(
                        log@[p as int].records,
                    ));
                }
            },
            Err(line) => {
                proof {
                    assert(first_malformed_in(log@, p as int, line as int));
                }
                return Err(
                    LogError::Malformed { partition: log.partitions[p].key.clone(), line },
                );
            },
        }
        p += 1;
    }
    let mut keys: Vec<i128> = Vec::new();
    let mut i: usize = 0;
    while i < all.len()
        invariant
            i <= all.len(),
            keys@.len() == i,
            forall|j: int| 0 <= j < i ==> #[trigger] keys@[j] == created_rank(all@[j]@, now),
        decreases all.len() - i,
    {
        keys.push(all[i].created_key(now));
        i += 1;
    }
    let order = stable_order(&keys);
    let mut history: Vec<Op> = Vec::new();
    let mut k: usize = 0;
    while k < order.len()
        invariant
            k <= order.len(),
            order@.len() == all@.len(),
            forall|j: int| 0 <= j < order@.len() ==> #[trigger] order@[j] < all@.len(),
            history@.len() == k,
            forall|j: int| 0 <= j < k ==> #[trigger] history@[j]@ == all@[order@[j] as int]@,
        decreases order.len() - k,
    {
        history.push(all[order[k]].clone());
        k += 1;
    }
    proof {
        let ops = parsed_ops(all_records(log@, log@.len() as int));
        assert(ops.len() == all@.len());
        assert(views(history@) =~= permuted(ops, order@));
        assert forall|a: int, b: int| 0 <= a < b < ops.len() implies comes_before(
            rank_in(ops, now),
            #[trigger] order@[a] as int,
            #[trigger] order@[b] as int,
        ) by {
            assert(comes_before(key_of(keys@), order@[a] as int, order@[b] as int));
        }
        assert(is_stable_order(ops.len(), rank_in(ops, now), order@));
    }
    Ok(history)
}

} // verus!
