use todo_core::clock::Timestamp;
use todo_core::json::{Json, Number};
use todo_core::model::{EdgeV1, Kind, ObjectV1, Op};
use todo_core::validate::{validate_op, ValidationError, MAX_TITLE_LEN};

fn at() -> Timestamp {
    Timestamp { secs: 1_700_000_000, nanos: 0 }
}

fn task_with(payload: Json) -> Op {
    Op::AppendObject(ObjectV1 { id: 1, kind: Kind::Task, payload, created: at(), updated: None })
}

fn entry(key: &str, value: Json) -> (String, Json) {
    (key.to_string(), value)
}

fn text(s: &str) -> Json {
    Json::String(s.to_string())
}

#[test]
fn new_task_with_a_title_is_accepted() {
    let task = ObjectV1::new_task("Write spec", Some("draft"), "high");
    assert_eq!(validate_op(&Op::AppendObject(task)), Ok(()));
}

#[test]
fn new_task_with_any_priority_is_accepted() {
    let task = ObjectV1::new_task("Write spec", None, "urgent");
    assert_eq!(task.payload.get("priority").and_then(|p| p.as_str()), Some("medium"));
    assert_eq!(validate_op(&Op::AppendObject(task)), Ok(()));
}

#[test]
fn blank_title_is_rejected() {
    let task = ObjectV1::new_task("   ", None, "medium");
    assert_eq!(validate_op(&Op::AppendObject(task)), Err(ValidationError::TitleEmpty));
}

#[test]
fn empty_title_is_rejected() {
    let task = ObjectV1::new_task("", None, "medium");
    assert_eq!(validate_op(&Op::AppendObject(task)), Err(ValidationError::TitleEmpty));
}

#[test]
fn title_of_other_white_space_is_rejected() {
    let task = ObjectV1::new_task("\t\n\u{a0}\u{2003}\u{3000}\r", None, "medium");
    assert_eq!(validate_op(&Op::AppendObject(task)), Err(ValidationError::TitleEmpty));
}

#[test]
fn title_at_the_limit_is_accepted() {
    assert_eq!(MAX_TITLE_LEN, 200);
    let title = "a".repeat(200);
    let task = ObjectV1::new_task(&title, None, "low");
    assert_eq!(validate_op(&Op::AppendObject(task)), Ok(()));
}

#[test]
fn title_over_the_limit_is_rejected() {
    let title = "a".repeat(201);
    let task = ObjectV1::new_task(&title, None, "low");
    assert_eq!(validate_op(&Op::AppendObject(task)), Err(ValidationError::TitleTooLong));
}

#[test]
fn title_is_measured_after_trimming() {
    let title = format!("  {}\n", "a".repeat(200));
    let task = ObjectV1::new_task(&title, None, "low");
    assert_eq!(validate_op(&Op::AppendObject(task)), Ok(()));
}

#[test]
fn title_is_measured_in_characters() {
    let title = "\u{e9}".repeat(200);
    assert_eq!(title.len(), 400);
    let task = ObjectV1::new_task(&title, None, "low");
    assert_eq!(validate_op(&Op::AppendObject(task)), Ok(()));
    let longer = "\u{e9}".repeat(201);
    let task = ObjectV1::new_task(&longer, None, "low");
    assert_eq!(validate_op(&Op::AppendObject(task)), Err(ValidationError::TitleTooLong));
}

#[test]
fn missing_title_is_rejected() {
    let payload = Json::Object(vec![
        entry("archived", Json::Bool(false)),
        entry("priority", text("low")),
    ]);
    assert_eq!(validate_op(&task_with(payload)), Err(ValidationError::TitleMissing));
}

#[test]
fn title_that_is_no_string_is_rejected() {
    let payload = Json::Object(vec![
        entry("title", Json::Number(Number::PosInt(7))),
        entry("archived", Json::Bool(false)),
        entry("priority", text("low")),
    ]);
    assert_eq!(validate_op(&task_with(payload)), Err(ValidationError::TitleMissing));
}

#[test]
fn payload_that_is_no_object_is_rejected() {
    assert_eq!(validate_op(&task_with(Json::Null)), Err(ValidationError::TitleMissing));
    assert_eq!(
        validate_op(&task_with(Json::Array(vec![text("title")]))),
        Err(ValidationError::TitleMissing)
    );
}

#[test]
fn archived_that_is_no_boolean_is_rejected() {
    let payload = Json::Object(vec![
        entry("title", text("t")),
        entry("archived", text("no")),
        entry("priority", text("low")),
    ]);
    assert_eq!(validate_op(&task_with(payload)), Err(ValidationError::ArchivedNotBoolean));
    let payload = Json::Object(vec![entry("title", text("t")), entry("priority", text("low"))]);
    assert_eq!(validate_op(&task_with(payload)), Err(ValidationError::ArchivedNotBoolean));
}

#[test]
fn priority_outside_the_three_is_rejected() {
    let payload = Json::Object(vec![
        entry("title", text("t")),
        entry("archived", Json::Bool(true)),
        entry("priority", text("urgent")),
    ]);
    assert_eq!(validate_op(&task_with(payload)), Err(ValidationError::PriorityInvalid));
}

#[test]
fn missing_priority_is_rejected() {
    let payload =
        Json::Object(vec![entry("title", text("t")), entry("archived", Json::Bool(true))]);
    assert_eq!(validate_op(&task_with(payload)), Err(ValidationError::PriorityMissing));
    let payload = Json::Object(vec![
        entry("title", text("t")),
        entry("archived", Json::Bool(true)),
        entry("priority", Json::Null),
    ]);
    assert_eq!(validate_op(&task_with(payload)), Err(ValidationError::PriorityMissing));
}

#[test]
fn each_of_the_three_priorities_is_accepted() {
    for p in ["high", "medium", "low"] {
        let payload = Json::Object(vec![
            entry("title", text("t")),
            entry("archived", Json::Bool(false)),
            entry("priority", text(p)),
        ]);
        assert_eq!(validate_op(&task_with(payload)), Ok(()));
    }
}

#[test]
fn the_first_failing_check_gives_the_error() {
    let payload = Json::Object(vec![
        entry("title", text("  ")),
        entry("archived", text("no")),
        entry("priority", text("urgent")),
    ]);
    assert_eq!(validate_op(&task_with(payload)), Err(ValidationError::TitleEmpty));
}

#[test]
fn the_later_of_two_entries_under_one_key_counts() {
    let payload = Json::Object(vec![
        entry("title", text("")),
        entry("archived", Json::Bool(false)),
        entry("priority", text("low")),
        entry("title", text("second")),
    ]);
    assert_eq!(validate_op(&task_with(payload)), Ok(()));
}

#[test]
fn other_kinds_are_not_checked() {
    for kind in [Kind::Chat, Kind::Doc, Kind::Commit] {
        let op = Op::AppendObject(ObjectV1 {
            id: 2,
            kind,
            payload: Json::Null,
            created: at(),
            updated: None,
        });
        assert_eq!(validate_op(&op), Ok(()));
    }
}

#[test]
fn edges_and_updates_are_not_checked() {
    let edge = EdgeV1::at(1, at(), 2, 3, "");
    assert_eq!(validate_op(&Op::AppendEdge(edge)), Ok(()));
    let patch = Json::Object(vec![entry("title", text(""))]);
    assert_eq!(validate_op(&Op::UpdateObject { id: 1, patch }), Ok(()));
}

#[test]
fn errors_are_told_in_words() {
    assert_eq!(ValidationError::TitleMissing.message(), "Task title missing or not a string");
    assert_eq!(ValidationError::TitleEmpty.message(), "Task title cannot be empty");
    assert_eq!(ValidationError::TitleTooLong.message(), "Task title too long (>200 chars)");
    assert_eq!(
        ValidationError::ArchivedNotBoolean.message(),
        "Task archived field must be a boolean"
    );
    assert_eq!(ValidationError::PriorityInvalid.message(), "Invalid priority value");
    assert_eq!(
        ValidationError::PriorityMissing.message(),
        "Task priority missing or not a string"
    );
}
