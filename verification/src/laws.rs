//! What holds of the store and the log whatever the operations are.

use vstd::prelude::*;
use crate::db::{
    applied,
    applied_all,
    edge_read,
    edge_row,
    edges_read,
    empty_store,
    ids_read_back,
    object_row,
    objects_read,
    patched,
    put_row,
    read_kind,
    row_read,
    rows_without,
    stored_edge,
    stored_object,
    DatabaseView,
    EdgeRowView,
    Keyed,
    ObjectRowView,
    StoreError,
};
use crate::ids::id_text;
use crate::json::{merged, JsonView};
use crate::model::{lemma_kind_label_reads_back, EdgeView, Kind, ObjectView, OpView};

verus! {

/// Taking the rows under an identifier out leaves none under it to take out.
pub proof fn lemma_rows_without_twice<R: Keyed>(rows: Seq<R>, id: Seq<char>)
    ensures
        rows_without(rows_without(rows, id), id) == rows_without(rows, id),
    decreases rows.len(),
{
    if rows.len() > 0 {
        let init = rows.drop_last();
        lemma_rows_without_twice(init, id);
        if rows.last().key() != id {
            let kept = rows_without(init, id).push(rows.last());
            assert(kept.drop_last() =~= rows_without(init, id));
        }
    }
}

/// Writing a row twice leaves the relation as writing it once.
pub proof fn lemma_put_row_twice<R: Keyed>(rows: Seq<R>, row: R)
    ensures
        put_row(put_row(rows, row), row) == put_row(rows, row),
{
    let once = put_row(rows, row);
    lemma_rows_without_twice(rows, row.key());
    assert(once.drop_last() =~= rows_without(rows, row.key()));
}

/// Applying the same new object or the same new edge a second time, at
/// whatever moment, leaves the store in the state that the first
/// application produced.
pub proof fn lemma_append_twice(db: DatabaseView, op: OpView, first: i64, second: i64)
    requires
        op is AppendObject || op is AppendEdge,
    ensures
        applied(applied(db, op, first), op, second) == applied(db, op, first),
{
    match op {
        OpView::AppendObject(obj) => {
            lemma_put_row_twice(db.objects, object_row(obj));
        },
        OpView::AppendEdge(edge) => {
            lemma_put_row_twice(db.edges, edge_row(edge));
        },
        OpView::UpdateObject { .. } => {},
    }
}

/// An update that names an object of which the store holds no row leaves
/// the store as it is.
pub proof fn lemma_update_of_absent(db: DatabaseView, id: u128, patch: JsonView, now: i64)
    requires
        forall|i: int| 0 <= i < db.objects.len() ==> (#[trigger] db.objects[i]).id != id_text(id),
    ensures
        applied(db, OpView::UpdateObject { id, patch }, now) == db,
{
    assert(patched(db.objects, id_text(id), patch, now) =~= db.objects);
}

/// A merge never takes a member away: every key that the payload held, it
/// still holds, with the value of the patch where the patch mentions the
/// key and with its old value where it does not; and it holds every key of
/// the patch.
pub proof fn lemma_merge_keeps_members(
    mine: Map<Seq<char>, JsonView>,
    theirs: Map<Seq<char>, JsonView>,
    key: Seq<char>,
)
    ensures
        merged(JsonView::Object(mine), JsonView::Object(theirs)).member(key) == if theirs.contains_key(
            key,
        ) {
            Some(theirs[key])
        } else if mine.contains_key(key) {
            Some(mine[key])
        } else {
            None::<JsonView>
        },
{
}

/// A row is read under one kind at most: a query for one kind never gives
/// the row of an object of another kind.
pub proof fn lemma_kinds_apart(row: ObjectRowView, a: Kind, b: Kind)
    requires
        a != b,
    ensures
        !(read_kind(row, Some(a)) is Some && read_kind(row, Some(b)) is Some),
{
    lemma_kind_label_reads_back(a);
    lemma_kind_label_reads_back(b);
}

/// The row of an object is read by a query for a kind if and only if that
/// kind is the object's own.
pub proof fn lemma_object_read_under_own_kind(obj: ObjectView, wanted: Kind)
    ensures
        read_kind(object_row(obj), Some(wanted)) is Some <==> obj.kind == wanted,
{
    lemma_kind_label_reads_back(obj.kind);
    lemma_kind_label_reads_back(wanted);
}

/// The row of an object reads back as the object, its times cut to whole
/// seconds: by a query for its kind and by a query for all kinds, where the
/// text form of its identifier reads back as the identifier.
pub proof fn lemma_stored_object_reads_back(obj: ObjectView)
    ensures
        ids_read_back(OpView::AppendObject(obj)) ==> row_read(object_row(obj), Some(obj.kind))
            == Ok::<Option<ObjectView>, StoreError>(Some(stored_object(obj))) && row_read(
            object_row(obj),
            None,
        ) == Ok::<Option<ObjectView>, StoreError>(Some(stored_object(obj))),
{
    lemma_kind_label_reads_back(obj.kind);
}

/// The row of an edge reads back as the edge, its time cut to whole
/// seconds, by a query for either of its ends, where the text forms of its
/// identifiers read back as the identifiers.
pub proof fn lemma_stored_edge_reads_back(edge: EdgeView)
    ensures
        ids_read_back(OpView::AppendEdge(edge)) ==> edge_read(edge_row(edge), id_text(edge.from))
            == Ok::<Option<EdgeView>, StoreError>(Some(stored_edge(edge))) && edge_read(
            edge_row(edge),
            id_text(edge.to),
        ) == Ok::<Option<EdgeView>, StoreError>(Some(stored_edge(edge))),
{
}

/// An object that was just written is the last that a query for its kind
/// gives, unless the query fails on a row that stood before.
pub proof fn lemma_written_object_is_read(db: DatabaseView, obj: ObjectView, now: i64)
    ensures
        ids_read_back(OpView::AppendObject(obj)) ==> match objects_read(
            applied(db, OpView::AppendObject(obj), now).objects,
            Some(obj.kind),
            applied(db, OpView::AppendObject(obj), now).objects.len() as int,
        ) {
            Ok(objects) => objects.len() > 0 && objects.last() == stored_object(obj),
            Err(_) => true,
        },
{
    lemma_stored_object_reads_back(obj);
}

/// An edge that was just written is the last that a query for either of its
/// ends gives, unless the query fails on a row that stood before.
pub proof fn lemma_written_edge_is_read(db: DatabaseView, edge: EdgeView, now: i64)
    ensures
        ids_read_back(OpView::AppendEdge(edge)) ==> match edges_read(
            applied(db, OpView::AppendEdge(edge), now).edges,
            id_text(edge.from),
            applied(db, OpView::AppendEdge(edge), now).edges.len() as int,
        ) {
            Ok(edges) => edges.len() > 0 && edges.last() == stored_edge(edge),
            Err(_) => true,
        },
{
    lemma_stored_edge_reads_back(edge);
}

/// Whether no two rows of a relation stand under one identifier.
pub open spec fn one_row_each<R: Keyed>(rows: Seq<R>) -> bool {
    forall|i: int, j: int| 0 <= i < j < rows.len() ==> rows[i].key() != rows[j].key()
}

/// Whether each relation of a store holds one row at most under each
/// identifier.
pub open spec fn keys_apart(db: DatabaseView) -> bool {
    one_row_each(db.objects) && one_row_each(db.edges)
}

/// What is left when the rows under an identifier are taken out: rows of
/// the relation, none of them under that identifier, and no two under one
/// identifier where that held before.
pub proof fn lemma_rows_without_rows<R: Keyed>(rows: Seq<R>, id: Seq<char>)
    ensures
        forall|k: int|
            0 <= k < rows_without(rows, id).len() ==> (#[trigger] rows_without(rows, id)[k]).key()
                != id && rows.contains(rows_without(rows, id)[k]),
        one_row_each(rows) ==> one_row_each(rows_without(rows, id)),
    decreases rows.len(),
{
    if rows.len() > 0 {
        let init = rows.drop_last();
        let last = rows.last();
        lemma_rows_without_rows(init, id);
        let kept = rows_without(init, id);
        assert forall|k: int| 0 <= k < kept.len() implies rows.contains(#[trigger] kept[k]) by {
            let i = choose|i: int| 0 <= i < init.len() && init[i] == kept[k];
            assert(rows[i] == kept[k]);
        }
        assert(rows[rows.len() - 1] == last);
        if one_row_each(rows) {
            assert(one_row_each(init)) by {
                assert forall|i: int, j: int| 0 <= i < j < init.len() implies init[i].key()
                    != init[j].key() by {
                    assert(rows[i].key() != rows[j].key());
                }
            }
            if last.key() != id {
                let all = kept.push(last);
                assert forall|i: int, j: int| 0 <= i < j < all.len() implies all[i].key()
                    != all[j].key() by {
                    if j == kept.len() {
                        let at = choose|at: int| 0 <= at < init.len() && init[at] == kept[i];
                        assert(rows[at].key() != rows[rows.len() - 1].key());
                    }
                }
            }
        }
    }
}

/// The identifier is a key: an operation leaves one row at most under each
/// identifier where there was one at most before.
pub proof fn lemma_applied_keeps_keys_apart(db: DatabaseView, op: OpView, now: i64)
    requires
        keys_apart(db),
    ensures
        keys_apart(applied(db, op, now)),
{
    match op {
        OpView::AppendObject(obj) => {
            let row = object_row(obj);
            lemma_rows_without_rows(db.objects, row.id);
        },
        OpView::AppendEdge(edge) => {
            let row = edge_row(edge);
            lemma_rows_without_rows(db.edges, row.id);
        },
        OpView::UpdateObject { id, patch } => {},
    }
}

/// Whatever operations are applied to an empty store, each relation holds
/// one row at most under each identifier.
pub proof fn lemma_keys_apart(ops: Seq<OpView>, stamps: Seq<i64>, n: int)
    ensures
        keys_apart(applied_all(empty_store(), ops, stamps, n)),
    decreases n,
{
    if 0 < n <= ops.len() && n <= stamps.len() {
        lemma_keys_apart(ops, stamps, n - 1);
        lemma_applied_keeps_keys_apart(
            applied_all(empty_store(), ops, stamps, n - 1),
            ops[n - 1],
            stamps[n - 1],
        );
    }
}

} // verus!
