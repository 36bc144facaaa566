//! Why replay rebuilds the store: what the store holds under an identifier
//! depends on nothing but the operations on that identifier, in their order.

use vstd::prelude::*;
use crate::clock::Timestamp;
use crate::db::{
    applied,
    applied_all,
    edge_row,
    empty_store,
    object_row,
    patched,
    patched_row,
    rows_without,
    DatabaseView,
    EdgeRowView,
    Keyed,
    ObjectRowView,
};
use crate::engine::is_replay;
use crate::ids::id_text;
use crate::json::{merged, JsonView};
use crate::log::{
    all_records,
    created_rank,
    is_history,
    lemma_log_keeps_order,
    months_in_blocks,
    parsed_ops,
    rank_in,
    recorded,
    PartitionView,
};
use crate::model::OpView;
use crate::order::{is_stable_order, kept, lemma_kept_of_ordered, permuted};

verus! {

/// The row that a relation holds under `id`: the last one, where there are
/// several.
pub open spec fn row_under<R: Keyed>(rows: Seq<R>, id: Seq<char>) -> Option<R>
    decreases rows.len(),
{
    if rows.len() == 0 {
        None
    } else if rows.last().key() == id {
        Some(rows.last())
    } else {
        row_under(rows.drop_last(), id)
    }
}

/// A row without the moment of its last update: only whether it was
/// updated is kept.
pub open spec fn unstamped(row: Option<ObjectRowView>) -> Option<ObjectRowView> {
    match row {
        Some(r) => Some(
            ObjectRowView {
                updated: if r.updated is Some {
                    Some(0i64)
                } else {
                    None
                },
                ..r
            },
        ),
        None => None,
    }
}

/// Whether two stores hold the same: under every identifier the same
/// object, with the same kind, payload and time of creation, updated in
/// both or in neither; and under every identifier the same edge. Neither
/// the order of the rows nor the moments of the updates count.
pub open spec fn same_contents(a: DatabaseView, b: DatabaseView) -> bool {
    &&& forall|id: Seq<char>|
        unstamped(#[trigger] row_under(a.objects, id)) == unstamped(row_under(b.objects, id))
    &&& forall|id: Seq<char>| #[trigger] row_under(a.edges, id) == row_under(b.edges, id)
}

/// Whether an operation is on the object under `id`: it writes it or
/// updates it.
pub open spec fn is_on_object(op: OpView, id: Seq<char>) -> bool {
    match op {
        OpView::AppendObject(obj) => id_text(obj.id) == id,
        OpView::UpdateObject { id: named, .. } => id_text(named) == id,
        OpView::AppendEdge(_) => false,
    }
}

/// Whether an operation is on the edge under `id`: it writes it.
pub open spec fn is_on_edge(op: OpView, id: Seq<char>) -> bool {
    match op {
        OpView::AppendEdge(edge) => id_text(edge.id) == id,
        _ => false,
    }
}

/// The test for the operations on the object under `id`.
pub open spec fn on_object(id: Seq<char>) -> spec_fn(OpView) -> bool {
    |op: OpView| is_on_object(op, id)
}

/// The test for the operations on the edge under `id`.
pub open spec fn on_edge(id: Seq<char>) -> spec_fn(OpView) -> bool {
    |op: OpView| is_on_edge(op, id)
}

/// The operations of `ops` on the object under `id`, in order.
pub open spec fn ops_on_object(ops: Seq<OpView>, id: Seq<char>) -> Seq<OpView> {
    kept(ops, on_object(id))
}

/// The operations of `ops` on the edge under `id`, in order.
pub open spec fn ops_on_edge(ops: Seq<OpView>, id: Seq<char>) -> Seq<OpView> {
    kept(ops, on_edge(id))
}

/// Whether two lists hold, for every identifier, the same operations on it
/// in the same order.
pub open spec fn same_order_on_each(a: Seq<OpView>, b: Seq<OpView>) -> bool {
    &&& forall|id: Seq<char>| #[trigger] ops_on_object(a, id) == ops_on_object(b, id)
    &&& forall|id: Seq<char>| #[trigger] ops_on_edge(a, id) == ops_on_edge(b, id)
}

/// What an operation on the object under `id` makes of the row under `id`.
pub open spec fn object_step(row: Option<ObjectRowView>, op: OpView, now: i64) -> Option<
    ObjectRowView,
> {
    match op {
        OpView::AppendObject(obj) => Some(object_row(obj)),
        OpView::UpdateObject { patch, .. } => match row {
            Some(r) => Some(patched_row(r, patch, now)),
            None => None,
        },
        OpView::AppendEdge(_) => row,
    }
}

/// What a list of operations on one object makes of its row, the moments
/// of the updates left aside.
pub open spec fn object_after(row: Option<ObjectRowView>, ops: Seq<OpView>) -> Option<ObjectRowView>
    decreases ops.len(),
{
    if ops.len() == 0 {
        unstamped(row)
    } else {
        unstamped(object_step(object_after(row, ops.drop_last()), ops.last(), 0))
    }
}

/// What a list of operations on one edge makes of its row.
pub open spec fn edge_after(row: Option<EdgeRowView>, ops: Seq<OpView>) -> Option<EdgeRowView>
    decreases ops.len(),
{
    if ops.len() == 0 {
        row
    } else {
        match ops.last() {
            OpView::AppendEdge(edge) => Some(edge_row(edge)),
            _ => edge_after(row, ops.drop_last()),
        }
    }
}

/// Taking out the rows under another identifier leaves the row under `id`.
proof fn lemma_row_under_without<R: Keyed>(rows: Seq<R>, other: Seq<char>, id: Seq<char>)
    requires
        other != id,
    ensures
        row_under(rows_without(rows, other), id) == row_under(rows, id),
    decreases rows.len(),
{
    if rows.len() > 0 {
        lemma_row_under_without(rows.drop_last(), other, id);
        if rows.last().key() != other {
            let kept = rows_without(rows.drop_last(), other).push(rows.last());
            assert(kept.drop_last() =~= rows_without(rows.drop_last(), other));
        }
    }
}

/// A patch reaches the row under the identifier that it names, and no other.
proof fn lemma_object_under_patched(
    rows: Seq<ObjectRowView>,
    named: Seq<char>,
    patch: JsonView,
    now: i64,
    id: Seq<char>,
)
    ensures
        row_under(patched(rows, named, patch, now), id) == if named == id {
            match row_under(rows, id) {
                Some(r) => Some(patched_row(r, patch, now)),
                None => None,
            }
        } else {
            row_under(rows, id)
        },
    decreases rows.len(),
{
    if rows.len() > 0 {
        let after = patched(rows, named, patch, now);
        assert(after.drop_last() =~= patched(rows.drop_last(), named, patch, now));
        lemma_object_under_patched(rows.drop_last(), named, patch, now, id);
    }
}

/// What the store holds under `id` after an operation: the operation's
/// doing where it is on the object under `id`, and what the store held
/// before where it is not.
pub proof fn lemma_object_under_applied(db: DatabaseView, op: OpView, now: i64, id: Seq<char>)
    ensures
        row_under(applied(db, op, now).objects, id) == if is_on_object(op, id) {
            object_step(row_under(db.objects, id), op, now)
        } else {
            row_under(db.objects, id)
        },
{
    match op {
        OpView::AppendObject(obj) => {
            let row = object_row(obj);
            let rest = rows_without(db.objects, row.id);
            assert(rest.push(row).drop_last() =~= rest);
            if row.id != id {
                lemma_row_under_without(db.objects, row.id, id);
            }
        },
        OpView::UpdateObject { id: named, patch } => {
            lemma_object_under_patched(db.objects, id_text(named), patch, now, id);
        },
        OpView::AppendEdge(_) => {},
    }
}

/// What the store holds as the edge under `id` after an operation.
pub proof fn lemma_edge_under_applied(db: DatabaseView, op: OpView, now: i64, id: Seq<char>)
    ensures
        row_under(applied(db, op, now).edges, id) == match op {
            OpView::AppendEdge(edge) => if id_text(edge.id) == id {
                Some(edge_row(edge))
            } else {
                row_under(db.edges, id)
            },
            _ => row_under(db.edges, id),
        },
{
    match op {
        OpView::AppendEdge(edge) => {
            let row = edge_row(edge);
            let rest = rows_without(db.edges, row.id);
            assert(rest.push(row).drop_last() =~= rest);
            if row.id != id {
                lemma_row_under_without(db.edges, row.id, id);
            }
        },
        _ => {},
    }
}

/// What the store holds under `id` after the first `n` operations is what
/// the operations on `id` among them make of what it held before.
pub proof fn lemma_object_under_applied_all(
    db: DatabaseView,
    ops: Seq<OpView>,
    stamps: Seq<i64>,
    n: int,
    id: Seq<char>,
)
    requires
        0 <= n <= ops.len(),
        n <= stamps.len(),
    ensures
        unstamped(row_under(applied_all(db, ops, stamps, n).objects, id)) == object_after(
            row_under(db.objects, id),
            ops_on_object(ops.take(n), id),
        ),
        row_under(applied_all(db, ops, stamps, n).edges, id) == edge_after(
            row_under(db.edges, id),
            ops_on_edge(ops.take(n), id),
        ),
    decreases n,
{
    if n > 0 {
        lemma_object_under_applied_all(db, ops, stamps, n - 1, id);
        let before = applied_all(db, ops, stamps, n - 1);
        let op = ops[n - 1];
        lemma_object_under_applied(before, op, stamps[n - 1], id);
        lemma_edge_under_applied(before, op, stamps[n - 1], id);
        assert(ops.take(n).drop_last() =~= ops.take(n - 1));
        assert(ops.take(n).last() == op);
        if is_on_object(op, id) {
            let on = ops_on_object(ops.take(n), id);
            assert(on.drop_last() =~= ops_on_object(ops.take(n - 1), id));
            assert(on.last() == op);
        }
        if is_on_edge(op, id) {
            let on = ops_on_edge(ops.take(n), id);
            assert(on.drop_last() =~= ops_on_edge(ops.take(n - 1), id));
            assert(on.last() == op);
        }
    } else {
        assert(ops.take(0) =~= Seq::<OpView>::empty());
    }
}

/// Two lists of operations that hold, for every identifier, the same
/// operations on it in the same order, lead from one store to stores that
/// hold the same, whatever the moments at which the operations are applied.
pub proof fn lemma_same_order_same_contents(
    db: DatabaseView,
    a: Seq<OpView>,
    a_stamps: Seq<i64>,
    b: Seq<OpView>,
    b_stamps: Seq<i64>,
)
    requires
        a_stamps.len() == a.len(),
        b_stamps.len() == b.len(),
        same_order_on_each(a, b),
    ensures
        same_contents(
            applied_all(db, a, a_stamps, a.len() as int),
            applied_all(db, b, b_stamps, b.len() as int),
        ),
{
    let after_a = applied_all(db, a, a_stamps, a.len() as int);
    let after_b = applied_all(db, b, b_stamps, b.len() as int);
    assert(a.take(a.len() as int) =~= a);
    assert(b.take(b.len() as int) =~= b);
    assert forall|id: Seq<char>|
        unstamped(#[trigger] row_under(after_a.objects, id)) == unstamped(
            row_under(after_b.objects, id),
        ) by {
        lemma_object_under_applied_all(db, a, a_stamps, a.len() as int, id);
        lemma_object_under_applied_all(db, b, b_stamps, b.len() as int, id);
        assert(ops_on_object(a, id) == ops_on_object(b, id));
    }
    assert forall|id: Seq<char>| #[trigger]
        row_under(after_a.edges, id) == row_under(after_b.edges, id) by {
        lemma_object_under_applied_all(db, a, a_stamps, a.len() as int, id);
        lemma_object_under_applied_all(db, b, b_stamps, b.len() as int, id);
        assert(ops_on_edge(a, id) == ops_on_edge(b, id));
    }
}

/// What a list of operations on one object comes to: the row that its last
/// write left, with the later patches merged in; or, where it writes
/// nothing, the members that its patches merge into whatever row there is,
/// and whether it patches at all.
pub ghost enum Sum {
    Writes(ObjectRowView),
    Merges { members: Map<Seq<char>, JsonView>, any: bool },
}

/// What `sum` and one more patch come to.
pub open spec fn sum_with_patch(sum: Sum, patch: JsonView) -> Sum {
    match sum {
        Sum::Writes(row) => Sum::Writes(unstamped(Some(patched_row(row, patch, 0)))->0),
        Sum::Merges { members, any } => Sum::Merges {
            members: match patch {
                JsonView::Object(theirs) => members.union_prefer_right(theirs),
                _ => members,
            },
            any: true,
        },
    }
}

/// What a list of operations on one object comes to.
pub open spec fn sum_of(ops: Seq<OpView>) -> Sum
    decreases ops.len(),
{
    if ops.len() == 0 {
        Sum::Merges { members: Map::empty(), any: false }
    } else {
        match ops.last() {
            OpView::AppendObject(obj) => Sum::Writes(unstamped(Some(object_row(obj)))->0),
            OpView::UpdateObject { patch, .. } => sum_with_patch(sum_of(ops.drop_last()), patch),
            OpView::AppendEdge(_) => sum_of(ops.drop_last()),
        }
    }
}

/// What a sum makes of a row.
pub open spec fn sum_on(sum: Sum, row: Option<ObjectRowView>) -> Option<ObjectRowView> {
    match sum {
        Sum::Writes(written) => Some(written),
        Sum::Merges { members, any } => match unstamped(row) {
            Some(r) => Some(
                ObjectRowView {
                    payload: merged(r.payload, JsonView::Object(members)),
                    updated: if any {
                        Some(0i64)
                    } else {
                        r.updated
                    },
                    ..r
                },
            ),
            None => None,
        },
    }
}

/// A list of operations on one object makes of a row what its sum makes of
/// it.
proof fn lemma_object_after_is_sum(row: Option<ObjectRowView>, ops: Seq<OpView>)
    ensures
        object_after(row, ops) == sum_on(sum_of(ops), row),
    decreases ops.len(),
{
    if ops.len() == 0 {
        if let Some(r) = unstamped(row) {
            if let JsonView::Object(mine) = r.payload {
                assert(mine.union_prefer_right(Map::empty()) =~= mine);
            }
        }
    } else {
        let before = ops.drop_last();
        lemma_object_after_is_sum(row, before);
        match ops.last() {
            OpView::UpdateObject { patch, .. } => {
                match sum_of(before) {
                    Sum::Merges { members, any } => {
                        if let Some(r) = unstamped(row) {
                            if let JsonView::Object(mine) = r.payload {
                                if let JsonView::Object(theirs) = patch {
                                    assert(mine.union_prefer_right(members).union_prefer_right(
                                        theirs,
                                    ) =~= mine.union_prefer_right(
                                        members.union_prefer_right(theirs),
                                    ));
                                }
                            }
                        }
                    },
                    Sum::Writes(_) => {},
                }
            },
            _ => {},
        }
    }
}

/// What a sum makes of a row, it makes of its own result again.
proof fn lemma_sum_twice(sum: Sum, row: Option<ObjectRowView>)
    ensures
        sum_on(sum, sum_on(sum, row)) == sum_on(sum, row),
{
    match sum {
        Sum::Merges { members, any } => {
            if let Some(r) = unstamped(row) {
                if let JsonView::Object(mine) = r.payload {
                    assert(mine.union_prefer_right(members).union_prefer_right(members)
                        =~= mine.union_prefer_right(members));
                }
            }
        },
        Sum::Writes(_) => {},
    }
}

/// What an operation is on: an object or an edge, and the text form of its
/// identifier.
pub open spec fn subject(op: OpView) -> (bool, Seq<char>) {
    match op {
        OpView::AppendObject(obj) => (false, id_text(obj.id)),
        OpView::UpdateObject { id, .. } => (false, id_text(id)),
        OpView::AppendEdge(edge) => (true, id_text(edge.id)),
    }
}

/// Whether the operations on each object and on each edge stand in the
/// order of their creation as the log ranks it when read at `now`: of two
/// operations on one subject, the later never ranks below the earlier.
pub open spec fn each_in_order(ops: Seq<OpView>, now: Timestamp) -> bool {
    forall|x: int, y: int|
        0 <= x < y < ops.len() && subject(#[trigger] ops[x]) == subject(#[trigger] ops[y])
            ==> created_rank(ops[x], now) <= created_rank(ops[y], now)
}

/// Reading the log keeps the operations on each subject in their order,
/// where they stand in the log in the order of their creation.
pub proof fn lemma_history_keeps_order(
    log: Seq<PartitionView>,
    now: Timestamp,
    history: Seq<OpView>,
)
    requires
        is_history(log, now, history),
        each_in_order(parsed_ops(all_records(log, log.len() as int)), now),
    ensures
        same_order_on_each(history, parsed_ops(all_records(log, log.len() as int))),
{
    let all = parsed_ops(all_records(log, log.len() as int));
    let order = choose|order: Seq<usize>|
        is_stable_order(all.len(), rank_in(all, now), order) && history == permuted(all, order);
    assert forall|id: Seq<char>| #[trigger]
        ops_on_object(history, id) == ops_on_object(all, id) by {
        assert forall|x: int, y: int|
            0 <= x < y < all.len() && on_object(id)(#[trigger] all[x]) && on_object(id)(
                #[trigger] all[y],
            ) implies rank_in(all, now)(x) <= rank_in(all, now)(y) by {
            assert(subject(all[x]) == subject(all[y]));
        }
        lemma_kept_of_ordered(all.len(), rank_in(all, now), all, order, on_object(id));
    }
    assert forall|id: Seq<char>| #[trigger] ops_on_edge(history, id) == ops_on_edge(all, id) by {
        assert forall|x: int, y: int|
            0 <= x < y < all.len() && on_edge(id)(#[trigger] all[x]) && on_edge(id)(
                #[trigger] all[y],
            ) implies rank_in(all, now)(x) <= rank_in(all, now)(y) by {
            assert(subject(all[x]) == subject(all[y]));
        }
        lemma_kept_of_ordered(all.len(), rank_in(all, now), all, order, on_edge(id));
    }
}

/// Replay rebuilds the store. Let `ops` be applied one after the other to
/// an empty store, each recorded in the log under the month of its
/// application. Let the store then be thrown away and rebuilt by replay:
/// `history` is read from the log at the moment `read_at` and applied to an
/// empty store. Then the rebuilt store holds the same as the one that was
/// built step by step, where the months came in blocks and where on each
/// object and on each edge the operations were applied in the order of
/// their creation as it ranks at `read_at`.
pub proof fn lemma_replay_reproduces(
    ops: Seq<OpView>,
    months: Seq<Seq<char>>,
    stamps: Seq<i64>,
    read_at: Timestamp,
    history: Seq<OpView>,
    rebuilt: DatabaseView,
)
    requires
        months.len() == ops.len(),
        stamps.len() == ops.len(),
        is_history(recorded(ops, months, ops.len() as int), read_at, history),
        is_replay(empty_store(), history, rebuilt),
        months_in_blocks(months),
        each_in_order(ops, read_at),
    ensures
        same_contents(rebuilt, applied_all(empty_store(), ops, stamps, ops.len() as int)),
{
    let log = recorded(ops, months, ops.len() as int);
    lemma_log_keeps_order(ops, months);
    lemma_history_keeps_order(log, read_at, history);
    let replay_stamps = choose|replay_stamps: Seq<i64>|
        replay_stamps.len() == history.len() && rebuilt == #[trigger] applied_all(
            empty_store(),
            history,
            replay_stamps,
            history.len() as int,
        );
    lemma_same_order_same_contents(empty_store(), history, replay_stamps, ops, stamps);
}

/// What a list of operations on one edge makes of a row, it makes of its
/// own result again.
proof fn lemma_edge_after_twice(row: Option<EdgeRowView>, ops: Seq<OpView>)
    ensures
        edge_after(edge_after(row, ops), ops) == edge_after(row, ops),
    decreases ops.len(),
{
    if ops.len() > 0 {
        match ops.last() {
            OpView::AppendEdge(_) => {},
            _ => {
                lemma_edge_after_skips(edge_after(row, ops), ops);
                lemma_edge_after_twice(row, ops.drop_last());
                lemma_edge_after_skips(row, ops);
            },
        }
    }
}

/// An operation that writes no edge leaves the edge as the operations
/// before it left it.
proof fn lemma_edge_after_skips(row: Option<EdgeRowView>, ops: Seq<OpView>)
    requires
        ops.len() > 0,
        !(ops.last() is AppendEdge),
    ensures
        edge_after(row, ops) == edge_after(row, ops.drop_last()),
{
}

/// Replaying a history a second time, into the store that the first replay
/// gave, leaves a store that holds the same as after the first replay.
pub proof fn lemma_replay_twice(
    db: DatabaseView,
    history: Seq<OpView>,
    first: Seq<i64>,
    second: Seq<i64>,
)
    requires
        first.len() == history.len(),
        second.len() == history.len(),
    ensures
        same_contents(
            applied_all(
                applied_all(db, history, first, history.len() as int),
                history,
                second,
                history.len() as int,
            ),
            applied_all(db, history, first, history.len() as int),
        ),
{
    let once = applied_all(db, history, first, history.len() as int);
    let twice = applied_all(once, history, second, history.len() as int);
    assert(history.take(history.len() as int) =~= history);
    assert forall|id: Seq<char>|
        unstamped(#[trigger] row_under(twice.objects, id)) == unstamped(
            row_under(once.objects, id),
        ) by {
        lemma_object_under_applied_all(db, history, first, history.len() as int, id);
        lemma_object_under_applied_all(once, history, second, history.len() as int, id);
        let on = ops_on_object(history, id);
        lemma_object_after_is_sum(row_under(db.objects, id), on);
        lemma_object_after_is_sum(row_under(once.objects, id), on);
        lemma_object_after_is_sum(unstamped(row_under(once.objects, id)), on);
        lemma_sum_twice(sum_of(on), row_under(db.objects, id));
    }
    assert forall|id: Seq<char>| #[trigger]
        row_under(twice.edges, id) == row_under(once.edges, id) by {
        lemma_object_under_applied_all(db, history, first, history.len() as int, id);
        lemma_object_under_applied_all(once, history, second, history.len() as int, id);
        lemma_edge_after_twice(row_under(db.edges, id), ops_on_edge(history, id));
    }
}

} // verus!
