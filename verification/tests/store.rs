use todo_core::clock::Timestamp;
use todo_core::db::{edge_row_of, object_row_of, Database, EdgeRow, ObjectRow, StoreError};
use todo_core::ids::IdError;
use todo_core::json::{Json, Number};
use todo_core::model::{EdgeV1, Kind, ObjectV1, Op};

const A: u128 = 0x41414141414141414141414141414141;
const A_TEXT: &str = "21850M2GA1850M2GA1850M2GA1";
const B: u128 = 0x4d4e385051444a59454234335a413756;
const B_TEXT: &str = "2D9RW50MA499CMAGHM6DD42DTP";

fn at(secs: i64) -> Timestamp {
    Timestamp { secs, nanos: 0 }
}

fn num(n: u64) -> Json {
    Json::Number(Number::PosInt(n))
}

fn object(id: u128, kind: Kind, created: i64, payload: Json) -> ObjectV1 {
    ObjectV1 { id, kind, payload, created: at(created), updated: None }
}

fn obj_row(id: &str, kind: &str, created: i64) -> ObjectRow {
    ObjectRow {
        id: id.to_string(),
        kind: kind.to_string(),
        payload: Json::Null,
        created,
        updated: None,
    }
}

#[test]
fn identifier_is_stored_in_its_text_form() {
    let row = object_row_of(&object(A, Kind::Doc, 5, Json::Null));
    assert_eq!(row.id, A_TEXT);
    assert_eq!(row.kind, "Doc");
    assert_eq!(row.created, 5);
    assert_eq!(row.updated, None);
    let row = object_row_of(&object(0, Kind::Doc, 5, Json::Null));
    assert_eq!(row.id, "00000000000000000000000000");
}

#[test]
fn times_are_stored_in_whole_seconds() {
    let obj = ObjectV1 {
        id: A,
        kind: Kind::Commit,
        payload: Json::Null,
        created: Timestamp { secs: 17, nanos: 999_999_999 },
        updated: Some(Timestamp { secs: 18, nanos: 5 }),
    };
    let row = object_row_of(&obj);
    assert_eq!(row.kind, "Commit");
    assert_eq!(row.created, 17);
    assert_eq!(row.updated, Some(18));
}

#[test]
fn edge_is_stored_with_both_ends_as_text() {
    let edge = EdgeV1::at(B, at(9), A, B, "FULFILLS");
    let row = edge_row_of(&edge);
    assert_eq!(
        row,
        EdgeRow {
            id: B_TEXT.to_string(),
            from_id: A_TEXT.to_string(),
            to_id: B_TEXT.to_string(),
            typ: "FULFILLS".to_string(),
            created: 9,
        }
    );
}

#[test]
fn stored_object_reads_back() {
    let mut db = Database::new();
    let payload = Json::Object(vec![("n".to_string(), num(1))]);
    db.apply_op_at(&Op::AppendObject(object(B, Kind::Chat, 44, payload.clone())), at(50));
    let got = db.get_objects_by_kind(Kind::Chat).expect("query");
    assert_eq!(got, vec![object(B, Kind::Chat, 44, payload)]);
}

#[test]
fn text_of_an_identifier_reads_in_either_case() {
    let mut db = Database::new();
    db.put_object_row(obj_row(&B_TEXT.to_lowercase(), "Task", 1));
    let got = db.get_objects_by_kind(Kind::Task).expect("query");
    assert_eq!(got.len(), 1);
    assert_eq!(got[0].id, B);
}

#[test]
fn sub_second_part_is_lost_in_the_store() {
    let mut db = Database::new();
    let obj = ObjectV1 {
        id: A,
        kind: Kind::Task,
        payload: Json::Null,
        created: Timestamp { secs: 17, nanos: 123 },
        updated: None,
    };
    db.apply_op_at(&Op::AppendObject(obj), at(50));
    let got = db.get_objects_by_kind(Kind::Task).expect("query");
    assert_eq!(got[0].created, Timestamp { secs: 17, nanos: 0 });
}

#[test]
fn applying_the_same_object_twice_is_applying_it_once() {
    let mut once = Database::new();
    let mut twice = Database::new();
    let first = object(A, Kind::Task, 1, num(1));
    let other = object(B, Kind::Task, 2, num(2));
    for db in [&mut once, &mut twice] {
        db.apply_op_at(&Op::AppendObject(other.clone()), at(9));
        db.apply_op_at(&Op::AppendObject(first.clone()), at(9));
    }
    twice.apply_op_at(&Op::AppendObject(first.clone()), at(10));
    assert_eq!(once.object_rows(), twice.object_rows());
    assert_eq!(twice.object_rows().len(), 2);
}

#[test]
fn applying_the_same_edge_twice_is_applying_it_once() {
    let mut db = Database::new();
    let edge = EdgeV1::at(A, at(3), A, B, "CREATES");
    db.apply_op_at(&Op::AppendEdge(edge.clone()), at(9));
    let once: Vec<EdgeRow> = vec![edge_row_of(&edge)];
    assert_eq!(db.edge_rows(), &once);
    db.apply_op_at(&Op::AppendEdge(edge), at(10));
    assert_eq!(db.edge_rows(), &once);
}

#[test]
fn object_written_again_replaces_the_row_and_stands_last() {
    let mut db = Database::new();
    db.apply_op_at(&Op::AppendObject(object(A, Kind::Task, 1, num(1))), at(9));
    db.apply_op_at(&Op::AppendObject(object(B, Kind::Task, 2, num(2))), at(9));
    db.apply_op_at(&Op::AppendObject(object(A, Kind::Doc, 3, num(3))), at(9));
    let ids: Vec<&str> = db.object_rows().iter().map(|r| r.id.as_str()).collect();
    assert_eq!(ids, vec![B_TEXT, A_TEXT]);
    assert_eq!(db.object_rows()[1].kind, "Doc");
    assert_eq!(db.object_rows()[1].payload, num(3));
    assert_eq!(db.object_rows()[1].created, 3);
}

#[test]
fn patch_is_merged_key_by_key() {
    let mut db = Database::new();
    let payload = Json::Object(vec![("a".to_string(), num(1)), ("b".to_string(), num(2))]);
    db.apply_op_at(&Op::AppendObject(object(A, Kind::Doc, 1, payload)), at(9));
    let patch = Json::Object(vec![("b".to_string(), num(3)), ("c".to_string(), num(4))]);
    db.apply_op_at(&Op::UpdateObject { id: A, patch }, at(77));
    let row = &db.object_rows()[0];
    assert_eq!(
        row.payload,
        Json::Object(vec![
            ("a".to_string(), num(1)),
            ("b".to_string(), num(3)),
            ("c".to_string(), num(4)),
        ])
    );
    assert_eq!(row.updated, Some(77));
    assert_eq!(row.created, 1);
}

#[test]
fn update_of_an_absent_object_changes_nothing() {
    let mut db = Database::new();
    db.apply_op_at(&Op::AppendObject(object(A, Kind::Doc, 1, Json::empty_object())), at(9));
    let before: Vec<ObjectRow> = vec![object_row_of(&object(A, Kind::Doc, 1, Json::empty_object()))];
    let patch = Json::Object(vec![("c".to_string(), num(4))]);
    db.apply_op_at(&Op::UpdateObject { id: B, patch }, at(77));
    assert_eq!(db.object_rows(), &before);
    assert_eq!(db.edge_rows().len(), 0);
}

#[test]
fn update_of_an_empty_store_changes_nothing() {
    let mut db = Database::new();
    db.apply_op(&Op::UpdateObject { id: B, patch: Json::empty_object() });
    assert_eq!(db.object_rows().len(), 0);
}

#[test]
fn patch_that_is_no_object_only_marks_the_update() {
    let mut db = Database::new();
    let payload = Json::Object(vec![("a".to_string(), num(1))]);
    db.apply_op_at(&Op::AppendObject(object(A, Kind::Doc, 1, payload.clone())), at(9));
    db.apply_op_at(&Op::UpdateObject { id: A, patch: num(5) }, at(20));
    assert_eq!(db.object_rows()[0].payload, payload);
    assert_eq!(db.object_rows()[0].updated, Some(20));
}

#[test]
fn payload_that_is_no_object_is_not_patched() {
    let mut db = Database::new();
    db.apply_op_at(&Op::AppendObject(object(A, Kind::Doc, 1, num(1))), at(9));
    let patch = Json::Object(vec![("a".to_string(), num(2))]);
    db.apply_op_at(&Op::UpdateObject { id: A, patch }, at(20));
    assert_eq!(db.object_rows()[0].payload, num(1));
    assert_eq!(db.object_rows()[0].updated, Some(20));
}

#[test]
fn update_at_the_present_moment_is_marked() {
    let mut db = Database::new();
    db.apply_op_at(&Op::AppendObject(object(A, Kind::Doc, 1, Json::empty_object())), at(9));
    db.apply_op(&Op::UpdateObject { id: A, patch: Json::empty_object() });
    let stamp = db.object_rows()[0].updated.expect("updated");
    assert!(stamp > 1_577_836_800);
}

#[test]
fn query_by_kind_gives_that_kind_only() {
    let mut db = Database::new();
    db.apply_op_at(&Op::AppendObject(object(1, Kind::Task, 1, Json::Null)), at(9));
    db.apply_op_at(&Op::AppendObject(object(2, Kind::Chat, 2, Json::Null)), at(9));
    db.apply_op_at(&Op::AppendObject(object(3, Kind::Doc, 3, Json::Null)), at(9));
    db.apply_op_at(&Op::AppendObject(object(4, Kind::Commit, 4, Json::Null)), at(9));
    db.apply_op_at(&Op::AppendObject(object(5, Kind::Task, 5, Json::Null)), at(9));
    for (kind, ids) in [
        (Kind::Task, vec![1u128, 5]),
        (Kind::Chat, vec![2]),
        (Kind::Doc, vec![3]),
        (Kind::Commit, vec![4]),
    ] {
        let got = db.get_objects_by_kind(kind).expect("query");
        assert!(got.iter().all(|o| o.kind == kind));
        assert_eq!(got.iter().map(|o| o.id).collect::<Vec<u128>>(), ids);
    }
}

#[test]
fn query_by_kind_of_an_empty_store_gives_nothing() {
    let db = Database::new();
    assert_eq!(db.get_objects_by_kind(Kind::Task), Ok(vec![]));
    assert_eq!(db.get_all_objects(), Ok(vec![]));
    assert_eq!(db.get_edges_for_object(A), Ok(vec![]));
}

#[test]
fn all_objects_come_newest_first() {
    let mut db = Database::new();
    db.apply_op_at(&Op::AppendObject(object(1, Kind::Task, 20, Json::Null)), at(9));
    db.apply_op_at(&Op::AppendObject(object(2, Kind::Chat, 30, Json::Null)), at(9));
    db.apply_op_at(&Op::AppendObject(object(3, Kind::Doc, 10, Json::Null)), at(9));
    db.apply_op_at(&Op::AppendObject(object(4, Kind::Doc, 30, Json::Null)), at(9));
    db.apply_op_at(&Op::AppendObject(object(5, Kind::Doc, -4, Json::Null)), at(9));
    let got = db.get_all_objects().expect("query");
    assert_eq!(got.iter().map(|o| o.id).collect::<Vec<u128>>(), vec![2, 4, 1, 3, 5]);
    assert_eq!(got.iter().map(|o| o.created.secs).collect::<Vec<i64>>(), vec![30, 30, 20, 10, -4]);
}

#[test]
fn all_objects_at_the_ends_of_time() {
    let mut db = Database::new();
    db.put_object_row(obj_row(A_TEXT, "Task", i64::MIN));
    db.put_object_row(obj_row(B_TEXT, "Task", i64::MAX));
    let got = db.get_all_objects().expect("query");
    assert_eq!(got.iter().map(|o| o.id).collect::<Vec<u128>>(), vec![B, A]);
}

#[test]
fn row_of_an_unknown_kind_is_passed_over() {
    let mut db = Database::new();
    db.put_object_row(obj_row(A_TEXT, "Task", 1));
    db.put_object_row(obj_row("not an identifier", "Note", 2));
    db.put_object_row(obj_row(B_TEXT, "Commit", 3));
    let got = db.get_all_objects().expect("query");
    assert_eq!(got.iter().map(|o| (o.id, o.kind)).collect::<Vec<_>>(), vec![
        (B, Kind::Commit),
        (A, Kind::Task)
    ]);
    assert_eq!(db.get_objects_by_kind(Kind::Task).expect("query").len(), 1);
}

#[test]
fn label_of_a_kind_is_read_to_the_letter() {
    let mut db = Database::new();
    db.put_object_row(obj_row(A_TEXT, "task", 1));
    assert_eq!(db.get_objects_by_kind(Kind::Task), Ok(vec![]));
    assert_eq!(db.get_all_objects(), Ok(vec![]));
}

#[test]
fn row_with_a_text_that_is_no_identifier_fails_the_query() {
    let mut db = Database::new();
    db.put_object_row(obj_row(A_TEXT, "Task", 1));
    db.put_object_row(obj_row("short", "Task", 2));
    assert_eq!(
        db.get_objects_by_kind(Kind::Task),
        Err(StoreError::InvalidId(IdError::InvalidLength))
    );
    assert_eq!(db.get_all_objects(), Err(StoreError::InvalidId(IdError::InvalidLength)));
    assert_eq!(db.get_objects_by_kind(Kind::Doc), Ok(vec![]));

    let mut db = Database::new();
    db.put_object_row(obj_row("2D9RW50MA499CMAGHM6DD42DTU", "Doc", 2));
    assert_eq!(
        db.get_objects_by_kind(Kind::Doc),
        Err(StoreError::InvalidId(IdError::InvalidChar))
    );
}

#[test]
fn the_first_row_that_does_not_read_gives_the_error() {
    let mut db = Database::new();
    db.put_object_row(obj_row("2D9RW50MA499CMAGHM6DD42DTU", "Doc", 1));
    db.put_object_row(obj_row("short", "Doc", 2));
    assert_eq!(
        db.get_objects_by_kind(Kind::Doc),
        Err(StoreError::InvalidId(IdError::InvalidChar))
    );
    // The newest comes first, so the other row fails first.
    assert_eq!(db.get_all_objects(), Err(StoreError::InvalidId(IdError::InvalidLength)));
}

#[test]
fn edges_touching_an_object_at_either_end() {
    let mut db = Database::new();
    db.apply_op_at(&Op::AppendEdge(EdgeV1::at(10, at(1), 1, 2, "CREATES")), at(9));
    db.apply_op_at(&Op::AppendEdge(EdgeV1::at(11, at(2), 2, 3, "SPAWNS")), at(9));
    db.apply_op_at(&Op::AppendEdge(EdgeV1::at(12, at(3), 3, 1, "FULFILLS")), at(9));
    db.apply_op_at(&Op::AppendEdge(EdgeV1::at(13, at(4), 4, 4, "")), at(9));
    let got = db.get_edges_for_object(1).expect("query");
    assert_eq!(got, vec![
        EdgeV1::at(10, at(1), 1, 2, "CREATES"),
        EdgeV1::at(12, at(3), 3, 1, "FULFILLS")
    ]);
    let got = db.get_edges_for_object(4).expect("query");
    assert_eq!(got, vec![EdgeV1::at(13, at(4), 4, 4, "")]);
    assert_eq!(db.get_edges_for_object(5), Ok(vec![]));
}

#[test]
fn edge_needs_no_object_at_its_ends() {
    let mut db = Database::new();
    db.apply_op(&Op::AppendEdge(EdgeV1::new(A, B, "CREATES")));
    assert_eq!(db.object_rows().len(), 0);
    assert_eq!(db.get_edges_for_object(B).expect("query").len(), 1);
}

#[test]
fn edge_row_with_a_text_that_is_no_identifier_fails_the_query() {
    let mut db = Database::new();
    db.put_edge_row(EdgeRow {
        id: "bad".to_string(),
        from_id: A_TEXT.to_string(),
        to_id: B_TEXT.to_string(),
        typ: "X".to_string(),
        created: 1,
    });
    assert_eq!(db.get_edges_for_object(A), Err(StoreError::InvalidId(IdError::InvalidLength)));
    assert_eq!(db.get_edges_for_object(7), Ok(vec![]));

    let mut db = Database::new();
    db.put_edge_row(EdgeRow {
        id: A_TEXT.to_string(),
        from_id: A_TEXT.to_string(),
        to_id: "2D9RW50MA499CMAGHM6DD42DT!".to_string(),
        typ: "X".to_string(),
        created: 1,
    });
    assert_eq!(db.get_edges_for_object(A), Err(StoreError::InvalidId(IdError::InvalidChar)));
}
