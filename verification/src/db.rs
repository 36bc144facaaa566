//! The materialized store: two relations, objects and edges, each keyed by
//! the text form of an identifier, that hold the sum of the operations
//! applied so far.
//!
//! A row holds what is stored of an object or an edge: identifiers in their
//! text form, the kind under its label, times in whole seconds. Rows stand
//! in the order in which they were written; a row that is written again
//! leaves its place and stands last, as one deleted and inserted anew.

use vstd::prelude::*;
use crate::clock::{now, Timestamp};
use crate::ids::{id_from_text, id_text, id_to_text, parsed_id, reads_back_as, IdError};
use crate::json::{merged, Json, JsonView};
use crate::model::{
    kind_label,
    kind_of_label,
    EdgeV1,
    EdgeView,
    Kind,
    ObjectV1,
    ObjectView,
    Op,
    OpView,
};
use crate::order::{
    comes_before,
    is_stable_order,
    key_of,
    lemma_stable_order_is_one,
    permuted,
    stable_order,
};
use crate::seqs::views;
use crate::text::same_text;

verus! {

/// A row of the relation of objects.
#[derive(Debug, PartialEq)]
pub struct ObjectRow {
    pub id: String,
    pub kind: String,
    pub payload: Json,
    pub created: i64,
    pub updated: Option<i64>,
}

/// What a row of the relation of objects holds.
pub ghost struct ObjectRowView {
    pub id: Seq<char>,
    pub kind: Seq<char>,
    pub payload: JsonView,
    pub created: i64,
    pub updated: Option<i64>,
}

impl View for ObjectRow {
    type V = ObjectRowView;

    open spec fn view(&self) -> ObjectRowView {
        ObjectRowView {
            id: self.id@,
            kind: self.kind@,
            payload: self.payload@,
            created: self.created,
            updated: self.updated,
        }
    }
}

/// A row of the relation of edges.
#[derive(Debug, PartialEq)]
pub struct EdgeRow {
    pub id: String,
    pub from_id: String,
    pub to_id: String,
    pub typ: String,
    pub created: i64,
}

/// What a row of the relation of edges holds.
pub ghost struct EdgeRowView {
    pub id: Seq<char>,
    pub from_id: Seq<char>,
    pub to_id: Seq<char>,
    pub typ: Seq<char>,
    pub created: i64,
}

impl View for EdgeRow {
    type V = EdgeRowView;

    open spec fn view(&self) -> EdgeRowView {
        EdgeRowView {
            id: self.id@,
            from_id: self.from_id@,
            to_id: self.to_id@,
            typ: self.typ@,
            created: self.created,
        }
    }
}

/// Why the store cannot be read.
#[derive(Clone, Copy, Debug, PartialEq, Eq, Structural)]
pub enum StoreError {
    /// A row holds a text that is no identifier.
    InvalidId(IdError),
}

/// The store.
#[derive(Debug)]
pub struct Database {
    objects: Vec<ObjectRow>,
    edges: Vec<EdgeRow>,
}

/// What the store holds: the rows of its two relations, in the order in
/// which they stand.
pub ghost struct DatabaseView {
    pub objects: Seq<ObjectRowView>,
    pub edges: Seq<EdgeRowView>,
}

impl View for Database {
    type V = DatabaseView;

    closed spec fn view(&self) -> DatabaseView {
        DatabaseView {
            objects: views(self.objects@),
            edges: views(self.edges@),
        }
    }
}

/// The whole seconds of an optional moment.
pub open spec fn opt_secs(t: Option<Timestamp>) -> Option<i64> {
    match t {
        Some(t) => Some(t.secs),
        None => None,
    }
}

/// The moment that stored whole seconds stand for.
pub open spec fn moment(secs: i64) -> Timestamp {
    Timestamp { secs, nanos: 0 }
}

/// The moment that optional stored whole seconds stand for.
pub open spec fn opt_moment(secs: Option<i64>) -> Option<Timestamp> {
    match secs {
        Some(s) => Some(moment(s)),
        None => None,
    }
}

/// The row that is stored of an object.
pub open spec fn object_row(obj: ObjectView) -> ObjectRowView {
    ObjectRowView {
        id: id_text(obj.id),
        kind: kind_label(obj.kind),
        payload: obj.payload,
        created: obj.created.secs,
        updated: opt_secs(obj.updated),
    }
}

/// The row that is stored of an edge.
pub open spec fn edge_row(edge: EdgeView) -> EdgeRowView {
    EdgeRowView {
        id: id_text(edge.id),
        from_id: id_text(edge.from),
        to_id: id_text(edge.to),
        typ: edge.typ,
        created: edge.created.secs,
    }
}

/// A row that stands under an identifier.
pub trait Keyed {
    /// The text form of the identifier under which the row stands.
    spec fn key(self) -> Seq<char>;
}

impl Keyed for ObjectRowView {
    open spec fn key(self) -> Seq<char> {
        self.id
    }
}

impl Keyed for EdgeRowView {
    open spec fn key(self) -> Seq<char> {
        self.id
    }
}

/// The rows of `rows` that do not stand under `id`, in order.
pub open spec fn rows_without<R: Keyed>(rows: Seq<R>, id: Seq<char>) -> Seq<R>
    decreases rows.len(),
{
    if rows.len() == 0 {
        rows
    } else if rows.last().key() == id {
        rows_without(rows.drop_last(), id)
    } else {
        rows_without(rows.drop_last(), id).push(rows.last())
    }
}

/// The relation after `row` has been written: a row under the same
/// identifier leaves, and `row` stands last.
pub open spec fn put_row<R: Keyed>(rows: Seq<R>, row: R) -> Seq<R> {
    rows_without(rows, row.key()).push(row)
}

/// A row after `patch` has been merged into its payload at the moment
/// `now`.
pub open spec fn patched_row(row: ObjectRowView, patch: JsonView, now: i64) -> ObjectRowView {
    ObjectRowView { payload: merged(row.payload, patch), updated: Some(now), ..row }
}

/// The relation after `patch` has been merged into the row under `id`; the
/// relation as it is where there is no such row.
pub open spec fn patched(
    rows: Seq<ObjectRowView>,
    id: Seq<char>,
    patch: JsonView,
    now: i64,
) -> Seq<ObjectRowView> {
    Seq::new(
        rows.len(),
        |i: int|
            if rows[i].id == id {
                patched_row(rows[i], patch, now)
            } else {
                rows[i]
            },
    )
}

/// The store after an operation has been applied at the moment `now`, in
/// whole seconds: a new object or edge is written under its identifier; an
/// update is merged into the object that it names and is dropped where
/// there is none.
pub open spec fn applied(db: DatabaseView, op: OpView, now: i64) -> DatabaseView {
    match op {
        OpView::AppendObject(obj) => DatabaseView {
            objects: put_row(db.objects, object_row(obj)),
            ..db
        },
        OpView::AppendEdge(edge) => DatabaseView { edges: put_row(db.edges, edge_row(edge)), ..db },
        OpView::UpdateObject { id, patch } => DatabaseView {
            objects: patched(db.objects, id_text(id), patch, now),
            ..db
        },
    }
}

/// Whether the text form of every identifier that an operation holds reads
/// back as that identifier.
pub open spec fn ids_read_back(op: OpView) -> bool {
    match op {
        OpView::AppendObject(obj) => reads_back_as(id_text(obj.id), obj.id),
        OpView::AppendEdge(edge) => reads_back_as(id_text(edge.id), edge.id) && reads_back_as(
            id_text(edge.from),
            edge.from,
        ) && reads_back_as(id_text(edge.to), edge.to),
        OpView::UpdateObject { id, .. } => reads_back_as(id_text(id), id),
    }
}

/// An object as it reads back from the store: its times cut to whole
/// seconds.
pub open spec fn stored_object(obj: ObjectView) -> ObjectView {
    ObjectView {
        created: moment(obj.created.secs),
        updated: opt_moment(opt_secs(obj.updated)),
        ..obj
    }
}

/// An edge as it reads back from the store: its time cut to whole seconds.
pub open spec fn stored_edge(edge: EdgeView) -> EdgeView {
    EdgeView { created: moment(edge.created.secs), ..edge }
}

/// The kind under which a row is read: where rows of one kind are wanted,
/// that kind if the row bears its label; where all rows are wanted, the
/// kind that the row's label stands for. A row that is read under no kind
/// is passed over.
pub open spec fn read_kind(row: ObjectRowView, wanted: Option<Kind>) -> Option<Kind> {
    match wanted {
        Some(kind) => if row.kind == kind_label(kind) {
            Some(kind)
        } else {
            None
        },
        None => kind_of_label(row.kind),
    }
}

/// The object that a row stands for, under the kind and the identifier as
/// which its label and its text were read.
pub open spec fn object_of_row(row: ObjectRowView, kind: Kind, id: u128) -> ObjectView {
    ObjectView {
        id,
        kind,
        payload: row.payload,
        created: moment(row.created),
        updated: opt_moment(row.updated),
    }
}

/// What reading one row gives: nothing where the row is passed over; an
/// error where its identifier does not read; else the object.
pub open spec fn row_read(row: ObjectRowView, wanted: Option<Kind>) -> Result<
    Option<ObjectView>,
    StoreError,
> {
    match read_kind(row, wanted) {
        None => Ok(None),
        Some(kind) => match parsed_id(row.id) {
            Err(e) => Err(StoreError::InvalidId(e)),
            Ok(id) => Ok(Some(object_of_row(row, kind, id))),
        },
    }
}

/// What reading the first `n` of `rows` gives: the objects, in the order
/// of their rows, or the error of the first row that does not read.
pub open spec fn objects_read(rows: Seq<ObjectRowView>, wanted: Option<Kind>, n: int) -> Result<
    Seq<ObjectView>,
    StoreError,
>
    decreases n,
{
    if n <= 0 || n > rows.len() {
        Ok(Seq::empty())
    } else {
        match objects_read(rows, wanted, n - 1) {
            Err(e) => Err(e),
            Ok(before) => match row_read(rows[n - 1], wanted) {
                Err(e) => Err(e),
                Ok(None) => Ok(before),
                Ok(Some(obj)) => Ok(before.push(obj)),
            },
        }
    }
}

/// Whether an edge row touches the object whose identifier has the text
/// `about`: as the end it comes from or as the end it goes to.
pub open spec fn touches(row: EdgeRowView, about: Seq<char>) -> bool {
    row.from_id == about || row.to_id == about
}

/// What reading one edge row gives: nothing where the row does not touch
/// `about`; the error of the first of its three identifiers that does not
/// read; else the edge.
pub open spec fn edge_read(row: EdgeRowView, about: Seq<char>) -> Result<
    Option<EdgeView>,
    StoreError,
> {
    if !touches(row, about) {
        Ok(None)
    } else {
        match parsed_id(row.id) {
            Err(e) => Err(StoreError::InvalidId(e)),
            Ok(id) => match parsed_id(row.from_id) {
                Err(e) => Err(StoreError::InvalidId(e)),
                Ok(from) => match parsed_id(row.to_id) {
                    Err(e) => Err(StoreError::InvalidId(e)),
                    Ok(to) => Ok(
                        Some(
                            EdgeView { id, from, to, typ: row.typ, created: moment(row.created) },
                        ),
                    ),
                },
            },
        }
    }
}

/// What reading the first `n` of `rows` gives: the edges that touch
/// `about`, in the order of their rows, or the error of the first row that
/// does not read.
pub open spec fn edges_read(rows: Seq<EdgeRowView>, about: Seq<char>, n: int) -> Result<
    Seq<EdgeView>,
    StoreError,
>
    decreases n,
{
    if n <= 0 || n > rows.len() {
        Ok(Seq::empty())
    } else {
        match edges_read(rows, about, n - 1) {
            Err(e) => Err(e),
            Ok(before) => match edge_read(rows[n - 1], about) {
                Err(e) => Err(e),
                Ok(None) => Ok(before),
                Ok(Some(edge)) => Ok(before.push(edge)),
            },
        }
    }
}

/// What a query gave, as what it holds.
pub open spec fn read_views<T: View>(r: Result<Vec<T>, StoreError>) -> Result<
    Seq<T::V>,
    StoreError,
> {
    match r {
        Ok(items) => Ok(views(items@)),
        Err(e) => Err(e),
    }
}

/// The key that orders rows with the newest first: the later a row was
/// created, the less its key.
pub open spec fn newest_first(rows: Seq<ObjectRowView>) -> spec_fn(int) -> int {
    |i: int| -(rows[i].created as int)
}

/// Whether `result` is what reading all rows gives, the newest first: the
/// rows are taken by their time of creation from the latest on, rows of one
/// time in the order in which they stand, and are read in that order.
pub open spec fn is_newest_first_read(
    rows: Seq<ObjectRowView>,
    result: Result<Seq<ObjectView>, StoreError>,
) -> bool {
    exists|order: Seq<usize>| #[trigger]
        is_stable_order(rows.len(), newest_first(rows), order) && result == objects_read(
            permuted(rows, order),
            None,
            rows.len() as int,
        )
}

/// Reading all rows, the newest first, gives one result only.
pub proof fn lemma_newest_first_read_is_one(
    rows: Seq<ObjectRowView>,
    a: Result<Seq<ObjectView>, StoreError>,
    b: Result<Seq<ObjectView>, StoreError>,
)
    requires
        is_newest_first_read(rows, a),
        is_newest_first_read(rows, b),
    ensures
        a == b,
{
    let first = choose|order: Seq<usize>| #[trigger]
        is_stable_order(rows.len(), newest_first(rows), order) && a == objects_read(
            permuted(rows, order),
            None,
            rows.len() as int,
        );
    let second = choose|order: Seq<usize>| #[trigger]
        is_stable_order(rows.len(), newest_first(rows), order) && b == objects_read(
            permuted(rows, order),
            None,
            rows.len() as int,
        );
    lemma_stable_order_is_one(rows.len(), newest_first(rows), first, second);
}

/// Once a row has failed to read, reading further rows changes nothing.
pub proof fn lemma_object_error_stays(
    rows: Seq<ObjectRowView>,
    wanted: Option<Kind>,
    n: int,
    m: int,
)
    requires
        0 <= n <= m <= rows.len(),
        objects_read(rows, wanted, n) is Err,
    ensures
        objects_read(rows, wanted, m) == objects_read(rows, wanted, n),
    decreases m - n,
{
    if n < m {
        lemma_object_error_stays(rows, wanted, n, m - 1);
    }
}

/// Once a row has failed to read, reading further rows changes nothing.
pub proof fn lemma_edge_error_stays(rows: Seq<EdgeRowView>, about: Seq<char>, n: int, m: int)
    requires
        0 <= n <= m <= rows.len(),
        edges_read(rows, about, n) is Err,
    ensures
        edges_read(rows, about, m) == edges_read(rows, about, n),
    decreases m - n,
{
    if n < m {
        lemma_edge_error_stays(rows, about, n, m - 1);
    }
}

/// Every object that a read for one kind gives is of that kind.
pub proof fn lemma_read_is_of_kind(rows: Seq<ObjectRowView>, kind: Kind, n: int)
    ensures
        objects_read(rows, Some(kind), n) matches Ok(objects) ==> forall|i: int|
            0 <= i < objects.len() ==> (#[trigger] objects[i]).kind == kind,
    decreases n,
{
    if 0 < n <= rows.len() {
        lemma_read_is_of_kind(rows, kind, n - 1);
    }
}

/// The store after the first `n` of `ops` have been applied, one after the
/// other, the operation at each position at the moment that `stamps` gives
/// for it.
pub open spec fn applied_all(
    db: DatabaseView,
    ops: Seq<OpView>,
    stamps: Seq<i64>,
    n: int,
) -> DatabaseView
    decreases n,
{
    if n <= 0 || n > ops.len() || n > stamps.len() {
        db
    } else {
        applied(applied_all(db, ops, stamps, n - 1), ops[n - 1], stamps[n - 1])
    }
}

/// The store that holds nothing.
pub open spec fn empty_store() -> DatabaseView {
    DatabaseView { objects: Seq::empty(), edges: Seq::empty() }
}

/// The row that is stored of an object.
pub fn object_row_of(obj: &ObjectV1) -> (row: ObjectRow)
    ensures
        row@ == object_row(obj@),
        ids_read_back(OpView::AppendObject(obj@)),
{
    ObjectRow {
        id: id_to_text(obj.id),
        kind: obj.kind.label().to_owned(),
        payload: obj.payload.clone(),
        created: obj.created.timestamp(),
        updated: match obj.updated {
            Some(t) => Some(t.timestamp()),
            None => None,
        },
    }
}

/// The row that is stored of an edge.
pub fn edge_row_of(edge: &EdgeV1) -> (row: EdgeRow)
    ensures
        row@ == edge_row(edge@),
        ids_read_back(OpView::AppendEdge(edge@)),
{
    EdgeRow {
        id: id_to_text(edge.id),
        from_id: id_to_text(edge.from),
        to_id: id_to_text(edge.to),
        typ: edge.typ.clone(),
        created: edge.created.timestamp(),
    }
}

/// Reads one row of the relation of objects.
fn read_object_row(row: &ObjectRow, wanted: Option<Kind>) -> (r: Result<Option<ObjectV1>, StoreError>)
    ensures
        match r {
            Ok(Some(obj)) => row_read(row@, wanted) == Ok::<Option<ObjectView>, StoreError>(
                Some(obj@),
            ),
            Ok(None) => row_read(row@, wanted) == Ok::<Option<ObjectView>, StoreError>(None),
            Err(e) => row_read(row@, wanted) == Err::<Option<ObjectView>, StoreError>(e),
        },
{
    let kind = match wanted {
        Some(kind) => {
            if same_text(row.kind.as_str(), kind.label()) {
                Some(kind)
            } else {
                None
            }
        },
        None => Kind::from_label(row.kind.as_str()),
    };
    match kind {
        None => Ok(None),
        Some(kind) => match id_from_text(row.id.as_str()) {
            Err(e) => Err(StoreError::InvalidId(e)),
            Ok(id) => Ok(
                Some(
                    ObjectV1 {
                        id,
                        kind,
                        payload: row.payload.clone(),
                        created: Timestamp::from_secs(row.created),
                        updated: match row.updated {
                            Some(u) => Some(Timestamp::from_secs(u)),
                            None => None,
                        },
                    },
                ),
            ),
        },
    }
}

/// Reads one row of the relation of edges, for the edges that touch the
/// object whose identifier has the text `about`.
fn read_edge_row(row: &EdgeRow, about: &String) -> (r: Result<Option<EdgeV1>, StoreError>)
    ensures
        match r {
            Ok(Some(edge)) => edge_read(row@, about@) == Ok::<Option<EdgeView>, StoreError>(
                Some(edge@),
            ),
            Ok(None) => edge_read(row@, about@) == Ok::<Option<EdgeView>, StoreError>(None),
            Err(e) => edge_read(row@, about@) == Err::<Option<EdgeView>, StoreError>(e),
        },
{
    if !(row.from_id == *about || row.to_id == *about) {
        return Ok(None);
    }
    let id = match id_from_text(row.id.as_str()) {
        Ok(id) => id,
        Err(e) => {
            return Err(StoreError::InvalidId(e));
        },
    };
    let from = match id_from_text(row.from_id.as_str()) {
        Ok(id) => id,
        Err(e) => {
            return Err(StoreError::InvalidId(e));
        },
    };
    let to = match id_from_text(row.to_id.as_str()) {
        Ok(id) => id,
        Err(e) => {
            return Err(StoreError::InvalidId(e));
        },
    };
    Ok(
        Some(
            EdgeV1 {
                id,
                from,
                to,
                typ: row.typ.clone(),
                created: Timestamp::from_secs(row.created),
            },
        ),
    )
}

/// A stored row, which knows the identifier under which it stands.
trait Row: View where Self::V: Keyed {
    /// The text form of the identifier under which the row stands.
    fn id(&self) -> (r: &String)
        ensures
            r@ == self@.key(),
    ;
}

impl Row for ObjectRow {
    fn id(&self) -> (r: &String) {
        &self.id
    }
}

impl Row for EdgeRow {
    fn id(&self) -> (r: &String) {
        &self.id
    }
}

/// Takes the rows under `id` out of `rows`.
fn remove_rows<T: Row>(rows: &mut Vec<T>, id: &String) where T::V: Keyed
    ensures
        views(final(rows)@) == rows_without(views(old(rows)@), id@),
{
    let ghost before = views(old(rows)@);
    let ghost mut seen: int = 0;
    let mut i: usize = 0;
    while i < rows.len()
        invariant
            0 <= seen <= before.len(),
            i <= rows@.len(),
            rows@.len() - i == before.len() - seen,
            before.len() == old(rows)@.len(),
            Seq::new(i as nat, |j: int| rows@[j]@) == rows_without(before.take(seen), id@),
            forall|j: int| i <= j < rows@.len() ==> (#[trigger] rows@[j])@ == before[j - i + seen],
        decreases rows@.len() - i,
    {
        proof {
            assert(before.take(seen + 1).drop_last() =~= before.take(seen));
            assert(before.take(seen + 1).last() == before[seen]);
        }
        if *rows[i].id() == *id {
            let ghost was = rows@;
            rows.remove(i);
            proof {
                assert(Seq::new(i as nat, |j: int| rows@[j]@) =~= Seq::new(
                    i as nat,
                    |j: int| was[j]@,
                ));
                seen = seen + 1;
            }
        } else {
            proof {
                assert(Seq::new((i + 1) as nat, |j: int| rows@[j]@) =~= Seq::new(
                    i as nat,
                    |j: int| rows@[j]@,
                ).push(rows@[i as int]@));
                seen = seen + 1;
            }
            i += 1;
        }
    }
    proof {
        assert(before.take(seen) =~= before);
        assert(Seq::new(i as nat, |j: int| rows@[j]@) =~= views(rows@));
    }
}

impl Database {
    /// A store that holds nothing.
    pub fn new() -> (r: Database)
        ensures
            r@ == empty_store(),
            r@.objects.len() == 0,
            r@.edges.len() == 0,
    {
        let r = Database { objects: Vec::new(), edges: Vec::new() };
        assert(r@.objects =~= Seq::<ObjectRowView>::empty());
        assert(r@.edges =~= Seq::<EdgeRowView>::empty());
        r
    }

    /// The rows of the relation of objects, in the order in which they stand.
    pub fn object_rows(&self) -> (rows: &Vec<ObjectRow>)
        ensures
            views(rows@) == self@.objects,
    {
        &self.objects
    }

    /// The rows of the relation of edges, in the order in which they stand.
    pub fn edge_rows(&self) -> (rows: &Vec<EdgeRow>)
        ensures
            views(rows@) == self@.edges,
    {
        &self.edges
    }

    /// Writes a row of the relation of objects: a row under the same
    /// identifier leaves, and `row` stands last.
    pub fn put_object_row(&mut self, row: ObjectRow)
        ensures
            final(self)@ == (DatabaseView {
                objects: put_row(old(self)@.objects, row@),
                ..old(self)@
            }),
    {
        remove_rows(&mut self.objects, &row.id);
        self.objects.push(row);
        proof {
            assert(self@.objects =~= put_row(old(self)@.objects, row@));
            assert(self@.edges =~= old(self)@.edges);
        }
    }

    /// Writes a row of the relation of edges: a row under the same
    /// identifier leaves, and `row` stands last.
    pub fn put_edge_row(&mut self, row: EdgeRow)
        ensures
            final(self)@ == (DatabaseView {
                edges: put_row(old(self)@.edges, row@),
                ..old(self)@
            }),
    {
        remove_rows(&mut self.edges, &row.id);
        self.edges.push(row);
        proof {
            assert(self@.edges =~= put_row(old(self)@.edges, row@));
            assert(self@.objects =~= old(self)@.objects);
        }
    }

    /// Writes an object under its identifier.
    fn insert_object(&mut self, obj: &ObjectV1)
        ensures
            final(self)@ == applied(old(self)@, OpView::AppendObject(obj@), 0),
            ids_read_back(OpView::AppendObject(obj@)),
    {
        self.put_object_row(object_row_of(obj));
    }

    /// Writes an edge under its identifier.
    fn insert_edge(&mut self, edge: &EdgeV1)
        ensures
            final(self)@ == applied(old(self)@, OpView::AppendEdge(edge@), 0),
            ids_read_back(OpView::AppendEdge(edge@)),
    {
        self.put_edge_row(edge_row_of(edge));
    }

    /// Merges `patch` into the payload of the object under `id` and sets the
    /// time of its last update to `now`; does nothing where no object is
    /// under `id`.
    fn update_object(&mut self, id: u128, patch: &Json, now: Timestamp)
        ensures
            final(self)@ == applied(
                old(self)@,
                OpView::UpdateObject { id, patch: patch@ },
                now.secs,
            ),
            reads_back_as(id_text(id), id),
    {
        let wanted = id_to_text(id);
        let stamp = now.timestamp();
        let mut i: usize = 0;
        while i < self.objects.len()
            invariant
                i <= self.objects@.len(),
                self.objects@.len() == old(self).objects@.len(),
                self.edges == old(self).edges,
                wanted@ == id_text(id),
                stamp == now.secs,
                forall|j: int|
                    0 <= j < i ==> (#[trigger] self.objects@[j])@ == patched(
                        old(self)@.objects,
                        wanted@,
                        patch@,
                        stamp,
                    )[j],
                forall|j: int|
                    i <= j < self.objects@.len() ==> #[trigger] self.objects@[j] == old(
                        self,
                    ).objects@[j],
            decreases self.objects@.len() - i,
        {
            if self.objects[i].id == wanted {
                self.objects[i].payload.merge(patch);
                self.objects[i].updated = Some(stamp);
            }
            i += 1;
        }
        proof {
            assert(self@.objects =~= patched(old(self)@.objects, wanted@, patch@, stamp));
        }
    }

    /// The objects of one kind, in the order in which their rows stand. A
    /// row whose identifier does not read fails the query.
    pub fn get_objects_by_kind(&self, kind: Kind) -> (r: Result<Vec<ObjectV1>, StoreError>)
        ensures
            read_views(r) == objects_read(
                self@.objects,
                Some(kind),
                self@.objects.len() as int,
            ),
            r matches Ok(objects) ==> forall|i: int|
                0 <= i < objects@.len() ==> (#[trigger] objects@[i]).kind == kind,
    {
        let ghost rows = self@.objects;
        let mut out: Vec<ObjectV1> = Vec::new();
        let mut i: usize = 0;
        assert(views(out@) =~= Seq::<ObjectView>::empty());
        while i < self.objects.len()
            invariant
                i <= self.objects@.len(),
                rows == self@.objects,
                objects_read(rows, Some(kind), i as int) == Ok::<Seq<ObjectView>, StoreError>(
                    views(out@),
                ),
            decreases self.objects@.len() - i,
        {
            let ghost before = out@;
            match read_object_row(&self.objects[i], Some(kind)) {
                Ok(Some(obj)) => {
                    out.push(obj);
                    proof {
                        assert(views(out@) =~= views(before).push(obj@));
                    }
                },
                Ok(None) => {},
                Err(e) => {
                    proof {
                        lemma_object_error_stays(rows, Some(kind), i + 1, rows.len() as int);
                    }
                    return Err(e);
                },
            }
            i += 1;
        }
        proof {
            lemma_read_is_of_kind(rows, kind, rows.len() as int);
            assert forall|i: int| 0 <= i < out@.len() implies (#[trigger] out@[i]).kind == kind by {
                assert(views(out@)[i] == out@[i]@);
            }
        }
        Ok(out)
    }

    /// All objects, the newest first. A row whose label stands for no kind
    /// is passed over; of the other rows, one whose identifier does not read
    /// fails the query.
    pub fn get_all_objects(&self) -> (r: Result<Vec<ObjectV1>, StoreError>)
        ensures
            is_newest_first_read(self@.objects, read_views(r)),
    {
        let ghost rows = self@.objects;
        let mut keys: Vec<i128> = Vec::new();
        let mut i: usize = 0;
        while i < self.objects.len()
            invariant
                i <= self.objects@.len(),
                rows == self@.objects,
                keys@.len() == i,
                forall|j: int| 0 <= j < i ==> #[trigger] keys@[j] == -(rows[j].created as int),
            decreases self.objects@.len() - i,
        {
            keys.push(-(self.objects[i].created as i128));
            i += 1;
        }
        let order = stable_order(&keys);
        let ghost sorted = permuted(rows, order@);
        proof {
            assert forall|a: int, b: int| 0 <= a < b < rows.len() implies comes_before(
                newest_first(rows),
                #[trigger] order@[a] as int,
                #[trigger] order@[b] as int,
            ) by {
                assert(comes_before(
                    key_of(keys@),
                    order@[a] as int,
                    order@[b] as int,
                ));
            }
            assert(is_stable_order(rows.len(), newest_first(rows), order@));
        }
        let mut out: Vec<ObjectV1> = Vec::new();
        let mut k: usize = 0;
        assert(views(out@) =~= Seq::<ObjectView>::empty());
        while k < order.len()
            invariant
                k <= order@.len(),
                is_stable_order(rows.len(), newest_first(rows), order@),
                order@.len() == rows.len(),
                rows == self@.objects,
                sorted == permuted(rows, order@),
                forall|j: int| 0 <= j < order@.len() ==> #[trigger] order@[j] < rows.len(),
                objects_read(sorted, None, k as int) == Ok::<Seq<ObjectView>, StoreError>(
                    views(out@),
                ),
            decreases order@.len() - k,
        {
            let ghost before = out@;
            match read_object_row(&self.objects[order[k]], None) {
                Ok(Some(obj)) => {
                    out.push(obj);
                    proof {
                        assert(views(out@) =~= views(before).push(obj@));
                    }
                },
                Ok(None) => {},
                Err(e) => {
                    proof {
                        lemma_object_error_stays(sorted, None, k + 1, sorted.len() as int);
                    }
                    return Err(e);
                },
            }
            k += 1;
        }
        Ok(out)
    }

    /// The edges that touch the object `object_id`, as the end they come
    /// from or as the end they go to, in the order in which their rows
    /// stand. Of these rows, one with an identifier that does not read
    /// fails the query.
    pub fn get_edges_for_object(&self, object_id: u128) -> (r: Result<Vec<EdgeV1>, StoreError>)
        ensures
            read_views(r) == edges_read(
                self@.edges,
                id_text(object_id),
                self@.edges.len() as int,
            ),
    {
        let about = id_to_text(object_id);
        let ghost rows = self@.edges;
        let mut out: Vec<EdgeV1> = Vec::new();
        let mut i: usize = 0;
        assert(views(out@) =~= Seq::<EdgeView>::empty());
        while i < self.edges.len()
            invariant
                i <= self.edges@.len(),
                rows == self@.edges,
                about@ == id_text(object_id),
                edges_read(rows, about@, i as int) == Ok::<Seq<EdgeView>, StoreError>(
                    views(out@),
                ),
            decreases self.edges@.len() - i,
        {
            let ghost before = out@;
            match read_edge_row(&self.edges[i], &about) {
                Ok(Some(edge)) => {
                    out.push(edge);
                    proof {
                        assert(views(out@) =~= views(before).push(edge@));
                    }
                },
                Ok(None) => {},
                Err(e) => {
                    proof {
                        lemma_edge_error_stays(rows, about@, i + 1, rows.len() as int);
                    }
                    return Err(e);
                },
            }
            i += 1;
        }
        Ok(out)
    }

    /// Applies an operation at the present moment: see
    /// [`Database::apply_op_at`].
    pub fn apply_op(&mut self, op: &Op)
        ensures
            exists|now: i64| final(self)@ == applied(old(self)@, op@, now),
            ids_read_back(op@),
    {
        let at = now();
        self.apply_op_at(op, at);
        proof {
            assert(self@ == applied(old(self)@, op@, at.secs));
        }
    }

    /// Applies an operation at the moment `now`: a new object or edge is
    /// written under its identifier, over what stood there; an update is
    /// merged into the payload of the object that it names, which is then
    /// marked as updated at `now`, and is dropped where there is no such
    /// object.
    pub fn apply_op_at(&mut self, op: &Op, now: Timestamp)
        ensures
            final(self)@ == applied(old(self)@, op@, now.secs),
            ids_read_back(op@),
    {
        match op {
            Op::AppendObject(obj) => self.insert_object(obj),
            Op::AppendEdge(edge) => self.insert_edge(edge),
            Op::UpdateObject { id, patch } => self.update_object(*id, patch, now),
        }
    }
}

} // verus!
