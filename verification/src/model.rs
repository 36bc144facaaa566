//! The operation model: kinds, objects, edges and the operations that carry
//! them into the log and the store.

use vstd::prelude::*;
use crate::clock::{now, Timestamp};
use crate::ids::fresh_id;
use crate::json::{Json, JsonView};
use crate::text::same_text;

verus! {

/// The closed set of object kinds.
#[derive(Clone, Copy, Debug, PartialEq, Eq, Structural)]
pub enum Kind {
    Task,
    Chat,
    Doc,
    Commit,
}

/// The label under which a kind is stored.
pub open spec fn kind_label(kind: Kind) -> Seq<char> {
    match kind {
        Kind::Task => "Task"@,
        Kind::Chat => "Chat"@,
        Kind::Doc => "Doc"@,
        Kind::Commit => "Commit"@,
    }
}

/// The kind that a stored label stands for; a label that stands for none is
/// one that a later version wrote.
pub open spec fn kind_of_label(label: Seq<char>) -> Option<Kind> {
    if label == "Task"@ {
        Some(Kind::Task)
    } else if label == "Chat"@ {
        Some(Kind::Chat)
    } else if label == "Doc"@ {
        Some(Kind::Doc)
    } else if label == "Commit"@ {
        Some(Kind::Commit)
    } else {
        None
    }
}

/// Each kind is read back from its own label, so no two kinds share one.
pub proof fn lemma_kind_label_reads_back(kind: Kind)
    ensures
        kind_of_label(kind_label(kind)) == Some(kind),
{
    reveal_strlit("Task");
    reveal_strlit("Chat");
    reveal_strlit("Doc");
    reveal_strlit("Commit");
    assert("Task"@.len() == 4 && "Chat"@.len() == 4 && "Doc"@.len() == 3 && "Commit"@.len() == 6);
    assert("Task"@[0] == 'T' && "Chat"@[0] == 'C');
}

impl Kind {
    /// The label under which this kind is stored.
    pub fn label(&self) -> (r: &'static str)
        ensures
            r@ == kind_label(*self),
    {
        match self {
            Kind::Task => "Task",
            Kind::Chat => "Chat",
            Kind::Doc => "Doc",
            Kind::Commit => "Commit",
        }
    }

    /// The kind that a stored label stands for, if it stands for one.
    pub fn from_label(label: &str) -> (r: Option<Kind>)
        ensures
            r == kind_of_label(label@),
    {
        if same_text(label, "Task") {
            Some(Kind::Task)
        } else if same_text(label, "Chat") {
            Some(Kind::Chat)
        } else if same_text(label, "Doc") {
            Some(Kind::Doc)
        } else if same_text(label, "Commit") {
            Some(Kind::Commit)
        } else {
            None
        }
    }
}

/// An object of the graph.
#[derive(Debug, PartialEq)]
pub struct ObjectV1 {
    pub id: u128,
    pub kind: Kind,
    pub payload: Json,
    pub created: Timestamp,
    pub updated: Option<Timestamp>,
}

/// What an object holds.
pub ghost struct ObjectView {
    pub id: u128,
    pub kind: Kind,
    pub payload: JsonView,
    pub created: Timestamp,
    pub updated: Option<Timestamp>,
}

impl View for ObjectV1 {
    type V = ObjectView;

    open spec fn view(&self) -> ObjectView {
        ObjectView {
            id: self.id,
            kind: self.kind,
            payload: self.payload@,
            created: self.created,
            updated: self.updated,
        }
    }
}

/// An edge of the graph, from one object to another.
#[derive(Debug, PartialEq)]
pub struct EdgeV1 {
    pub id: u128,
    pub from: u128,
    pub to: u128,
    pub typ: String,
    pub created: Timestamp,
}

/// What an edge holds.
pub ghost struct EdgeView {
    pub id: u128,
    pub from: u128,
    pub to: u128,
    pub typ: Seq<char>,
    pub created: Timestamp,
}

impl View for EdgeV1 {
    type V = EdgeView;

    open spec fn view(&self) -> EdgeView {
        EdgeView {
            id: self.id,
            from: self.from,
            to: self.to,
            typ: self.typ@,
            created: self.created,
        }
    }
}

/// An operation: the unit that the log records and the store applies.
#[derive(Debug, PartialEq)]
pub enum Op {
    AppendObject(ObjectV1),
    AppendEdge(EdgeV1),
    UpdateObject { id: u128, patch: Json },
}

/// What an operation holds.
pub ghost enum OpView {
    AppendObject(ObjectView),
    AppendEdge(EdgeView),
    UpdateObject { id: u128, patch: JsonView },
}

impl View for Op {
    type V = OpView;

    open spec fn view(&self) -> OpView {
        match self {
            Op::AppendObject(obj) => OpView::AppendObject(obj@),
            Op::AppendEdge(edge) => OpView::AppendEdge(edge@),
            Op::UpdateObject { id, patch } => OpView::UpdateObject { id: *id, patch: patch@ },
        }
    }
}

impl Clone for ObjectV1 {
    fn clone(&self) -> (r: Self)
        ensures
            r@ == self@,
    {
        ObjectV1 {
            id: self.id,
            kind: self.kind,
            payload: self.payload.clone(),
            created: self.created,
            updated: self.updated,
        }
    }
}

impl Clone for EdgeV1 {
    fn clone(&self) -> (r: Self)
        ensures
            r@ == self@,
    {
        EdgeV1 {
            id: self.id,
            from: self.from,
            to: self.to,
            typ: self.typ.clone(),
            created: self.created,
        }
    }
}

impl Clone for Op {
    fn clone(&self) -> (r: Self)
        ensures
            r@ == self@,
    {
        match self {
            Op::AppendObject(obj) => Op::AppendObject(obj.clone()),
            Op::AppendEdge(edge) => Op::AppendEdge(edge.clone()),
            Op::UpdateObject { id, patch } => Op::UpdateObject { id: *id, patch: patch.clone() },
        }
    }
}

/// The priority that a new task gets for the priority asked for: the one
/// asked for where it is one of the three that exist, else `medium`.
pub open spec fn normal_priority(priority: Seq<char>) -> Seq<char> {
    if priority == "high"@ || priority == "medium"@ || priority == "low"@ {
        priority
    } else {
        "medium"@
    }
}

/// The payload of a new task.
pub open spec fn task_payload(
    title: Seq<char>,
    description: Option<Seq<char>>,
    priority: Seq<char>,
) -> JsonView {
    JsonView::Object(
        Map::empty().insert("title"@, JsonView::String(title)).insert(
            "description"@,
            match description {
                Some(d) => JsonView::String(d),
                None => JsonView::Null,
            },
        ).insert("completed"@, JsonView::Bool(false)).insert(
            "archived"@,
            JsonView::Bool(false),
        ).insert("priority"@, JsonView::String(normal_priority(priority))),
    )
}

/// The payload of a new chat message.
pub open spec fn chat_payload(content: Seq<char>, role: Seq<char>) -> JsonView {
    JsonView::Object(
        Map::empty().insert("content"@, JsonView::String(content)).insert(
            "role"@,
            JsonView::String(role),
        ).insert("model"@, JsonView::String("gpt-4"@)),
    )
}

/// The text of an optional text.
pub open spec fn opt_text(t: Option<&str>) -> Option<Seq<char>> {
    match t {
        Some(s) => Some(s@),
        None => None,
    }
}

impl ObjectV1 {
    /// A new task, with a fresh identifier and the present moment as its
    /// time of creation. It is not yet completed and not archived; a
    /// priority that is none of `high`, `medium`, `low` becomes `medium`.
    pub fn new_task(title: &str, description: Option<&str>, priority: &str) -> (r: Self)
        ensures
            r@.kind == Kind::Task,
            r@.payload == task_payload(title@, opt_text(description), priority@),
            r@.updated is None,
    {
        let id = fresh_id();
        let created = now();
        ObjectV1::task_at(id, created, title, description, priority)
    }

    /// The task that [`ObjectV1::new_task`] makes when `id` is the fresh
    /// identifier and `created` the present moment.
    pub fn task_at(
        id: u128,
        created: Timestamp,
        title: &str,
        description: Option<&str>,
        priority: &str,
    ) -> (r: Self)
        ensures
            r@ == (ObjectView {
                id,
                kind: Kind::Task,
                payload: task_payload(title@, opt_text(description), priority@),
                created,
                updated: None,
            }),
    {
        let priority_val = if same_text(priority, "high") || same_text(priority, "medium")
            || same_text(priority, "low") {
            priority
        } else {
            "medium"
        };
        let described = match description {
            Some(d) => Json::string(d),
            None => Json::Null,
        };
        let payload = Json::empty_object().with_member("title".to_owned(), Json::string(title))
            .with_member("description".to_owned(), described).with_member(
            "completed".to_owned(),
            Json::Bool(false),
        ).with_member("archived".to_owned(), Json::Bool(false)).with_member(
            "priority".to_owned(),
            Json::string(priority_val),
        );
        ObjectV1 { id, kind: Kind::Task, payload, created, updated: None }
    }

    /// A new chat message, with a fresh identifier and the present moment as
    /// its time of creation.
    pub fn new_chat(content: &str, role: &str) -> (r: Self)
        ensures
            r@.kind == Kind::Chat,
            r@.payload == chat_payload(content@, role@),
            r@.updated is None,
    {
        let id = fresh_id();
        let created = now();
        ObjectV1::chat_at(id, created, content, role)
    }

    /// The chat message that [`ObjectV1::new_chat`] makes when `id` is the
    /// fresh identifier and `created` the present moment.
    pub fn chat_at(id: u128, created: Timestamp, content: &str, role: &str) -> (r: Self)
        ensures
            r@ == (ObjectView {
                id,
                kind: Kind::Chat,
                payload: chat_payload(content@, role@),
                created,
                updated: None,
            }),
    {
        let payload = Json::empty_object().with_member(
            "content".to_owned(),
            Json::string(content),
        ).with_member("role".to_owned(), Json::string(role)).with_member(
            "model".to_owned(),
            Json::string("gpt-4"),
        );
        ObjectV1 { id, kind: Kind::Chat, payload, created, updated: None }
    }
}

impl EdgeV1 {
    /// A new edge from `from` to `to` under the label `typ`, with a fresh
    /// identifier and the present moment as its time of creation. Whether
    /// the two objects exist is not looked at.
    pub fn new(from: u128, to: u128, typ: &str) -> (r: Self)
        ensures
            r@.from == from,
            r@.to == to,
            r@.typ == typ@,
    {
        let id = fresh_id();
        let created = now();
        EdgeV1::at(id, created, from, to, typ)
    }

    /// The edge that [`EdgeV1::new`] makes when `id` is the fresh
    /// identifier and `created` the present moment.
    pub fn at(id: u128, created: Timestamp, from: u128, to: u128, typ: &str) -> (r: Self)
        ensures
            r@ == (EdgeView { id, from, to, typ: typ@, created }),
    {
        EdgeV1 { id, from, to, typ: typ.to_owned(), created }
    }
}

} // verus!
