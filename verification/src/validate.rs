//! The validator: the checks that an operation passes before it is recorded.

use vstd::prelude::*;
use crate::clock::Timestamp;
use crate::json::{Json, JsonView};
use crate::model::{task_payload, Kind, ObjectV1, ObjectView, Op, OpView};
use crate::text::{same_text, trimmed, trimmed_len};

verus! {

/// The greatest number of characters that a task's title may have between
/// the white space at its ends.
pub const MAX_TITLE_LEN: usize = 200;

/// Why an operation is not accepted.
#[derive(Clone, Copy, Debug, PartialEq, Eq, Structural)]
pub enum ValidationError {
    /// A task has no `title`, or one that is no string.
    TitleMissing,
    /// A task's title is white space only.
    TitleEmpty,
    /// A task's title is longer than [`MAX_TITLE_LEN`] characters.
    TitleTooLong,
    /// A task has no `archived`, or one that is no boolean.
    ArchivedNotBoolean,
    /// A task's `priority` is none of `high`, `medium`, `low`.
    PriorityInvalid,
    /// A task has no `priority`, or one that is no string.
    PriorityMissing,
}

/// The words in which an error is told to the user.
pub open spec fn error_text(e: ValidationError) -> Seq<char> {
    match e {
        ValidationError::TitleMissing => "Task title missing or not a string"@,
        ValidationError::TitleEmpty => "Task title cannot be empty"@,
        ValidationError::TitleTooLong => "Task title too long (>200 chars)"@,
        ValidationError::ArchivedNotBoolean => "Task archived field must be a boolean"@,
        ValidationError::PriorityInvalid => "Invalid priority value"@,
        ValidationError::PriorityMissing => "Task priority missing or not a string"@,
    }
}

impl ValidationError {
    /// The words in which this error is told to the user.
    pub fn message(&self) -> (r: &'static str)
        ensures
            r@ == error_text(*self),
    {
        match self {
            ValidationError::TitleMissing => "Task title missing or not a string",
            ValidationError::TitleEmpty => "Task title cannot be empty",
            ValidationError::TitleTooLong => "Task title too long (>200 chars)",
            ValidationError::ArchivedNotBoolean => "Task archived field must be a boolean",
            ValidationError::PriorityInvalid => "Invalid priority value",
            ValidationError::PriorityMissing => "Task priority missing or not a string",
        }
    }
}

/// Whether `p` is one of the three priorities.
pub open spec fn is_priority(p: Seq<char>) -> bool {
    p == "high"@ || p == "medium"@ || p == "low"@
}

/// The verdict on the payload of a task. The checks come in this order, and
/// the first that fails gives the error: the title is a string; it is not
/// blank; it is not too long; `archived` is a boolean; the priority is a
/// string; it is one of the three.
pub open spec fn task_verdict(payload: JsonView) -> Result<(), ValidationError> {
    match payload.member_text("title"@) {
        None => Err(ValidationError::TitleMissing),
        Some(title) => if trimmed(title).len() == 0 {
            Err(ValidationError::TitleEmpty)
        } else if trimmed(title).len() > MAX_TITLE_LEN {
            Err(ValidationError::TitleTooLong)
        } else if payload.member_truth("archived"@) is None {
            Err(ValidationError::ArchivedNotBoolean)
        } else {
            match payload.member_text("priority"@) {
                None => Err(ValidationError::PriorityMissing),
                Some(p) => if is_priority(p) {
                    Ok(())
                } else {
                    Err(ValidationError::PriorityInvalid)
                },
            }
        },
    }
}

/// The verdict on an operation: a new task must pass [`task_verdict`];
/// every other operation is accepted.
pub open spec fn verdict(op: OpView) -> Result<(), ValidationError> {
    match op {
        OpView::AppendObject(obj) => if obj.kind == Kind::Task {
            task_verdict(obj.payload)
        } else {
            Ok(())
        },
        _ => Ok(()),
    }
}

/// The text of the string member of `payload` under `key`.
fn member_str<'a>(payload: &'a Json, key: &str) -> (r: Option<&'a str>)
    ensures
        match r {
            Some(s) => payload@.member_text(key@) == Some(s@),
            None => payload@.member_text(key@) is None,
        },
{
    match payload.get(key) {
        Some(v) => v.as_str(),
        None => None,
    }
}

/// Checks the payload of a task.
fn validate_task(obj: &ObjectV1) -> (r: Result<(), ValidationError>)
    ensures
        r == task_verdict(obj@.payload),
{
    let title = match member_str(&obj.payload, "title") {
        Some(t) => t,
        None => {
            return Err(ValidationError::TitleMissing);
        },
    };
    let len = trimmed_len(title);
    if len == 0 {
        return Err(ValidationError::TitleEmpty);
    }
    if len > MAX_TITLE_LEN {
        return Err(ValidationError::TitleTooLong);
    }
    let archived = match obj.payload.get("archived") {
        Some(v) => v.as_bool(),
        None => None,
    };
    if archived.is_none() {
        return Err(ValidationError::ArchivedNotBoolean);
    }
    match member_str(&obj.payload, "priority") {
        Some(p) => {
            if same_text(p, "high") || same_text(p, "medium") || same_text(p, "low") {
                Ok(())
            } else {
                Err(ValidationError::PriorityInvalid)
            }
        },
        None => Err(ValidationError::PriorityMissing),
    }
}

/// Checks an operation before it is recorded. Nothing is read but the
/// operation itself.
pub fn validate_op(op: &Op) -> (r: Result<(), ValidationError>)
    ensures
        r == verdict(op@),
{
    match op {
        Op::AppendObject(obj) => {
            match obj.kind {
                Kind::Task => validate_task(obj),
                _ => Ok(()),
            }
        },
        Op::UpdateObject { .. } => Ok(()),
        Op::AppendEdge(_) => Ok(()),
    }
}

/// The five keys of a task's payload are five different texts.
pub proof fn lemma_task_keys_differ()
    ensures
        "title"@ != "description"@,
        "title"@ != "completed"@,
        "title"@ != "archived"@,
        "title"@ != "priority"@,
        "description"@ != "completed"@,
        "description"@ != "archived"@,
        "description"@ != "priority"@,
        "completed"@ != "archived"@,
        "completed"@ != "priority"@,
        "archived"@ != "priority"@,
{
    reveal_strlit("title");
    reveal_strlit("description");
    reveal_strlit("completed");
    reveal_strlit("archived");
    reveal_strlit("priority");
    assert("title"@[0] == 't' && "description"@[0] == 'd' && "completed"@[0] == 'c'
        && "archived"@[0] == 'a' && "priority"@[0] == 'p');
}

/// A new task is accepted if and only if its title, between the white space
/// at its ends, has at least one character and at most [`MAX_TITLE_LEN`];
/// whatever priority was asked for, and whatever identifier and time of
/// creation it got.
pub proof fn lemma_new_task_verdict(
    id: u128,
    created: Timestamp,
    title: Seq<char>,
    description: Option<Seq<char>>,
    priority: Seq<char>,
)
    ensures
        verdict(
            OpView::AppendObject(
                ObjectView {
                    id,
                    kind: Kind::Task,
                    payload: task_payload(title, description, priority),
                    created,
                    updated: None,
                },
            ),
        ) == if trimmed(title).len() == 0 {
            Err::<(), ValidationError>(ValidationError::TitleEmpty)
        } else if trimmed(title).len() > MAX_TITLE_LEN {
            Err(ValidationError::TitleTooLong)
        } else {
            Ok(())
        },
{
    lemma_task_keys_differ();
}

/// A task is rejected whenever its title is blank or too long, or its
/// priority is a string that is none of the three.
pub proof fn lemma_bad_task_rejected(obj: ObjectView)
    requires
        obj.kind == Kind::Task,
        match obj.payload.member_text("title"@) {
            Some(title) => trimmed(title).len() == 0 || trimmed(title).len() > MAX_TITLE_LEN,
            None => true,
        } || match obj.payload.member_text("priority"@) {
            Some(p) => !is_priority(p),
            None => true,
        },
    ensures
        verdict(OpView::AppendObject(obj)) is Err,
{
}

} // verus!
