//! Schemaless structured values: the payload of an object and the patch of
//! an update.
//!
//! A value is a tree. An object is kept as a list of entries in the order in
//! which they were written; what it *holds* is a map from key to value, and
//! of two entries with one key the later one counts.

use vstd::prelude::*;

verus! {

/// A number as it is written in a structured value.
#[derive(Clone, Copy, Debug, PartialEq, Eq, Structural)]
pub enum Number {
    /// A non-negative integer.
    PosInt(u64),
    /// A negative integer.
    NegInt(i64),
    /// A binary64 number, held as its bit pattern.
    Float(u64),
}

/// A structured value.
#[derive(Debug, PartialEq)]
pub enum Json {
    Null,
    Bool(bool),
    Number(Number),
    String(String),
    Array(Vec<Json>),
    Object(Vec<(String, Json)>),
}

/// What a structured value holds.
pub ghost enum JsonView {
    Null,
    Bool(bool),
    Number(Number),
    String(Seq<char>),
    Array(Seq<JsonView>),
    Object(Map<Seq<char>, JsonView>),
}

impl JsonView {
    /// The member under `key`, where this value is an object that has one.
    pub open spec fn member(self, key: Seq<char>) -> Option<JsonView> {
        match self {
            JsonView::Object(members) => if members.contains_key(key) {
                Some(members[key])
            } else {
                None
            },
            _ => None,
        }
    }

    /// The text of a string value.
    pub open spec fn text(self) -> Option<Seq<char>> {
        match self {
            JsonView::String(s) => Some(s),
            _ => None,
        }
    }

    /// The truth value of a boolean value.
    pub open spec fn truth(self) -> Option<bool> {
        match self {
            JsonView::Bool(b) => Some(b),
            _ => None,
        }
    }

    /// The text of the string member under `key`, where there is one.
    pub open spec fn member_text(self, key: Seq<char>) -> Option<Seq<char>> {
        match self.member(key) {
            Some(v) => v.text(),
            None => None,
        }
    }

    /// The truth value of the boolean member under `key`, where there is one.
    pub open spec fn member_truth(self, key: Seq<char>) -> Option<bool> {
        match self.member(key) {
            Some(v) => v.truth(),
            None => None,
        }
    }
}

/// The result of merging `patch` into `current`: where both are objects,
/// every member of the patch is written over `current`, and the members that
/// the patch does not mention stay; otherwise `current` stays as it is.
pub open spec fn merged(current: JsonView, patch: JsonView) -> JsonView {
    match (current, patch) {
        (JsonView::Object(mine), JsonView::Object(theirs)) => JsonView::Object(
            mine.union_prefer_right(theirs),
        ),
        _ => current,
    }
}

/// What the first `n` of `entries` hold as an object.
pub open spec fn members_view(entries: Seq<(String, Json)>, n: nat) -> Map<Seq<char>, JsonView>
    decreases entries, n,
{
    if n == 0 || n > entries.len() {
        Map::empty()
    } else {
        members_view(entries, (n - 1) as nat).insert(entries[n - 1].0@, entries[n - 1].1.view())
    }
}

impl View for Json {
    type V = JsonView;

    open spec fn view(&self) -> JsonView
        decreases self, 0nat,
    {
        match self {
            Json::Null => JsonView::Null,
            Json::Bool(b) => JsonView::Bool(*b),
            Json::Number(n) => JsonView::Number(*n),
            Json::String(s) => JsonView::String(s@),
            Json::Array(items) => JsonView::Array(
                Seq::new(
                    items@.len(),
                    |i: int|
                        if 0 <= i < items@.len() {
                            items@[i].view()
                        } else {
                            JsonView::Null
                        },
                ),
            ),
            Json::Object(entries) => JsonView::Object(members_view(entries@, entries@.len())),
        }
    }
}

/// Entry lists that agree key by key and value by value hold the same.
proof fn lemma_members_agree(a: Seq<(String, Json)>, b: Seq<(String, Json)>, n: nat)
    requires
        n <= a.len(),
        n <= b.len(),
        forall|i: int| 0 <= i < n ==> a[i].0@ == b[i].0@ && a[i].1@ == b[i].1@,
    ensures
        members_view(a, n) == members_view(b, n),
    decreases n,
{
    if n > 0 {
        lemma_members_agree(a, b, (n - 1) as nat);
    }
}

/// A key that none of the first `n` entries bears is not held.
proof fn lemma_members_absent(entries: Seq<(String, Json)>, n: nat, key: Seq<char>)
    requires
        n <= entries.len(),
        forall|i: int| 0 <= i < n ==> entries[i].0@ != key,
    ensures
        !members_view(entries, n).contains_key(key),
    decreases n,
{
    if n > 0 {
        lemma_members_absent(entries, (n - 1) as nat, key);
        let before = members_view(entries, (n - 1) as nat);
        assert(members_view(entries, n) == before.insert(entries[n - 1].0@, entries[n - 1].1@));
    }
}

/// The last entry that bears a key decides what is held under it.
proof fn lemma_members_last(entries: Seq<(String, Json)>, n: nat, at: int, key: Seq<char>)
    requires
        n <= entries.len(),
        0 <= at < n,
        entries[at].0@ == key,
        forall|i: int| at < i < n ==> entries[i].0@ != key,
    ensures
        members_view(entries, n).contains_key(key),
        members_view(entries, n)[key] == entries[at].1@,
    decreases n,
{
    let before = members_view(entries, (n - 1) as nat);
    assert(members_view(entries, n) == before.insert(entries[n - 1].0@, entries[n - 1].1@));
    if n - 1 > at {
        lemma_members_last(entries, (n - 1) as nat, at, key);
    }
}

/// Writing a new value into the last entry that bears a key is writing the
/// value under that key.
proof fn lemma_members_replace(
    entries: Seq<(String, Json)>,
    n: nat,
    at: int,
    entry: (String, Json),
)
    requires
        n <= entries.len(),
        0 <= at < n,
        entries[at].0@ == entry.0@,
        forall|i: int| at < i < n ==> entries[i].0@ != entry.0@,
    ensures
        members_view(entries.update(at, entry), n) == members_view(entries, n).insert(
            entry.0@,
            entry.1@,
        ),
    decreases n,
{
    let changed = entries.update(at, entry);
    let before = members_view(entries, (n - 1) as nat);
    let changed_before = members_view(changed, (n - 1) as nat);
    assert(members_view(entries, n) == before.insert(entries[n - 1].0@, entries[n - 1].1@));
    assert(members_view(changed, n) == changed_before.insert(
        changed[n - 1].0@,
        changed[n - 1].1@,
    ));
    if n - 1 == at {
        lemma_members_agree(changed, entries, at as nat);
    } else {
        lemma_members_replace(entries, (n - 1) as nat, at, entry);
    }
    assert(members_view(changed, n) =~= members_view(entries, n).insert(entry.0@, entry.1@));
}

impl Clone for Json {
    /// A copy that holds what `self` holds.
    fn clone(&self) -> (r: Self)
        ensures
            r@ == self@,
        decreases self,
    {
        match self {
            Json::Null => Json::Null,
            Json::Bool(b) => Json::Bool(*b),
            Json::Number(n) => Json::Number(*n),
            Json::String(s) => Json::String(s.clone()),
            Json::Array(items) => {
                let mut out: Vec<Json> = Vec::new();
                let mut i: usize = 0;
                assert(decreases_to!(*self => *items));
                while i < items.len()
                    invariant
                        i <= items.len(),
                        out.len() == i,
                        forall|j: int| 0 <= j < i ==> out@[j]@ == items@[j]@,
                        decreases_to!(*self => *items),
                    decreases items.len() - i,
                {
                    assert(decreases_to!(*items => items[i as int]));
                    let item = items[i].clone();
                    out.push(item);
                    i += 1;
                }
                let r = Json::Array(out);
                assert(r@->Array_0 =~= self@->Array_0);
                r
            },
            Json::Object(entries) => {
                let mut out: Vec<(String, Json)> = Vec::new();
                let mut i: usize = 0;
                while i < entries.len()
                    invariant
                        i <= entries.len(),
                        out.len() == i,
                        forall|j: int|
                            0 <= j < i ==> out@[j].0@ == entries@[j].0@ && out@[j].1@
                                == entries@[j].1@,
                        decreases_to!(*self => *entries),
                    decreases entries.len() - i,
                {
                    assert(decreases_to!(*entries => entries[i as int]));
                    let key = entries[i].0.clone();
                    let value = entries[i].1.clone();
                    out.push((key, value));
                    i += 1;
                }
                proof {
                    lemma_members_agree(out@, entries@, entries@.len());
                }
                Json::Object(out)
            },
        }
    }
}

impl Json {
    /// A string value with the text of `s`.
    pub fn string(s: &str) -> (r: Json)
        ensures
            r@ == JsonView::String(s@),
    {
        Json::String(s.to_owned())
    }

    /// An object with no member.
    pub fn empty_object() -> (r: Json)
        ensures
            r@ == JsonView::Object(Map::empty()),
    {
        let entries: Vec<(String, Json)> = Vec::new();
        assert(members_view(entries@, 0) == Map::<Seq<char>, JsonView>::empty());
        Json::Object(entries)
    }

    /// The member under `key`, where this value is an object that has one.
    pub fn get(&self, key: &str) -> (r: Option<&Json>)
        ensures
            match r {
                Some(v) => self@.member(key@) == Some(v@),
                None => self@.member(key@) is None,
            },
    {
        match self {
            Json::Object(entries) => {
                let wanted = key.to_owned();
                let mut i: usize = entries.len();
                while i > 0
                    invariant
                        i <= entries.len(),
                        wanted@ == key@,
                        self@ == JsonView::Object(members_view(entries@, entries@.len())),
                        forall|j: int| i <= j < entries.len() ==> entries@[j].0@ != key@,
                    decreases i,
                {
                    i -= 1;
                    if entries[i].0 == wanted {
                        proof {
                            lemma_members_last(entries@, entries@.len(), i as int, key@);
                        }
                        return Some(&entries[i].1);
                    }
                }
                proof {
                    lemma_members_absent(entries@, entries@.len(), key@);
                }
                None
            },
            _ => None,
        }
    }

    /// The text of a string value.
    pub fn as_str(&self) -> (r: Option<&str>)
        ensures
            match r {
                Some(s) => self@.text() == Some(s@),
                None => self@.text() is None,
            },
    {
        match self {
            Json::String(s) => Some(s.as_str()),
            _ => None,
        }
    }

    /// The truth value of a boolean value.
    pub fn as_bool(&self) -> (r: Option<bool>)
        ensures
            r == self@.truth(),
    {
        match self {
            Json::Bool(b) => Some(*b),
            _ => None,
        }
    }

    /// Writes `value` under `key`, where this value is an object; otherwise
    /// hands the value back as it is.
    pub fn with_member(self, key: String, value: Json) -> (r: Json)
        ensures
            r@ == match self@ {
                JsonView::Object(members) => JsonView::Object(members.insert(key@, value@)),
                other => other,
            },
    {
        match self {
            Json::Object(mut entries) => {
                put_member(&mut entries, key, value);
                Json::Object(entries)
            },
            other => other,
        }
    }

    /// Merges `patch` into this value, key by key: see [`merged`].
    pub fn merge(&mut self, patch: &Json)
        ensures
            final(self)@ == merged(old(self)@, patch@),
    {
        match self {
            Json::Object(entries) => {
                match patch {
                    Json::Object(theirs) => {
                        let ghost mine = members_view(entries@, entries@.len());
                        let mut i: usize = 0;
                        while i < theirs.len()
                            invariant
                                i <= theirs.len(),
                                members_view(entries@, entries@.len())
                                    == mine.union_prefer_right(members_view(theirs@, i as nat)),
                            decreases theirs.len() - i,
                        {
                            let key = theirs[i].0.clone();
                            let value = theirs[i].1.clone();
                            put_member(entries, key, value);
                            i += 1;
                            assert(members_view(entries@, entries@.len())
                                =~= mine.union_prefer_right(members_view(theirs@, i as nat)));
                        }
                    },
                    _ => {},
                }
            },
            _ => {},
        }
    }
}

/// Writes `value` under `key`: into the last entry that bears the key, or
/// into a new entry at the end.
fn put_member(entries: &mut Vec<(String, Json)>, key: String, value: Json)
    ensures
        members_view(final(entries)@, final(entries)@.len()) == members_view(
            old(entries)@,
            old(entries)@.len(),
        ).insert(key@, value@),
{
    let mut i: usize = entries.len();
    while i > 0
        invariant
            i <= entries.len(),
            entries@ == old(entries)@,
            forall|j: int| i <= j < entries.len() ==> entries@[j].0@ != key@,
        decreases i,
    {
        i -= 1;
        if entries[i].0 == key {
            proof {
                lemma_members_replace(entries@, entries@.len(), i as int, (key, value));
            }
            entries.set(i, (key, value));
            return ;
        }
    }
    proof {
        lemma_members_agree(entries@.push((key, value)), entries@, entries@.len());
    }
    entries.push((key, value));
}

} // verus!
