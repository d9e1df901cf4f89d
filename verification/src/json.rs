use vstd::prelude::*;
use crate::text::same_text;

verus! {

/// A JSON document as the handlers read it. A number is kept as the text
/// that spells it; an object keeps its members in order.
pub enum Json {
    Null,
    Bool(bool),
    Number(String),
    Str(String),
    Array(Vec<Json>),
    Object(Vec<(String, Json)>),
}

/// The index of the first member named `key`.
pub open spec fn first_member_index(entries: Seq<(String, Json)>, key: Seq<char>) -> Option<int>
    decreases entries.len(),
{
    if entries.len() == 0 {
        None
    } else if entries.last().0@ == key && first_member_index(entries.drop_last(), key) is None {
        Some(entries.len() - 1)
    } else {
        first_member_index(entries.drop_last(), key)
    }
}

pub(crate) proof fn lemma_first_member_index(entries: Seq<(String, Json)>, key: Seq<char>)
    ensures
        first_member_index(entries, key) matches Some(i) ==> 0 <= i < entries.len() && entries[i].0@ == key
            && forall|j: int| 0 <= j < i ==> #[trigger] entries[j].0@ != key,
        first_member_index(entries, key) is None ==> forall|j: int| 0 <= j < entries.len() ==> #[trigger] entries[j].0@ != key,
    decreases entries.len(),
{
    if entries.len() > 0 {
        let init = entries.drop_last();
        lemma_first_member_index(init, key);
        match first_member_index(init, key) {
            Some(i) => {
                assert forall|j: int| 0 <= j < i implies #[trigger] entries[j].0@ != key by {
                    assert(init[j] == entries[j]);
                    assert(init[j].0@ != key);
                }
                assert(init[i] == entries[i]);
            },
            None => {
                assert forall|j: int| 0 <= j < entries.len() - 1 implies #[trigger] entries[j].0@ != key by {
                    assert(init[j] == entries[j]);
                    assert(init[j].0@ != key);
                }
            },
        }
    }
}

impl Json {
    /// The index of the member named `key` in an object; `None` for other values.
    pub open spec fn member_index(self, key: Seq<char>) -> Option<int> {
        match self {
            Json::Object(entries) => first_member_index(entries@, key),
            _ => None,
        }
    }

    /// The value of the member named `key` in an object; `None` for other
    /// values. Where a document names a member twice this is the first one
    /// (a document read from JSON text by `serde_json` names each member once).
    pub open spec fn member(self, key: Seq<char>) -> Option<Json> {
        match self {
            Json::Object(entries) => match first_member_index(entries@, key) {
                Some(i) => Some(entries@[i].1),
                None => None,
            },
            _ => None,
        }
    }

    /// The text of a string value.
    pub open spec fn text(self) -> Option<Seq<char>> {
        match self {
            Json::Str(s) => Some(s@),
            _ => None,
        }
    }

    /// The members of an object.
    pub open spec fn members(self) -> Seq<(String, Json)> {
        match self {
            Json::Object(entries) => entries@,
            _ => seq![],
        }
    }

    /// The member of an object named `key` (the first of that name); `None`
    /// for other values, as `serde_json::Value::get` gives for them.
    pub fn get(&self, key: &str) -> (r: Option<&Json>)
        ensures
            r is None <==> self.member(key@) is None,
            r matches Some(v) ==> self.member(key@) == Some(*v),
    {
        match self {
            Json::Object(entries) => match member_position(entries, key) {
                Some(i) => {
                    proof {
                        lemma_first_member_index(entries@, key@);
                    }
                    Some(&entries[i].1)
                },
                None => None,
            },
            _ => None,
        }
    }

    /// The text of a string value, as `serde_json::Value::as_str` gives it.
    pub fn as_str(&self) -> (r: Option<&String>)
        ensures
            r is None <==> self.text() is None,
            r matches Some(s) ==> self.text() == Some(s@),
    {
        match self {
            Json::Str(s) => Some(s),
            _ => None,
        }
    }
}

/// The position of the first member named `key`.
pub fn member_position(entries: &Vec<(String, Json)>, key: &str) -> (r: Option<usize>)
    ensures
        r is None <==> first_member_index(entries@, key@) is None,
        r matches Some(i) ==> first_member_index(entries@, key@) == Some(i as int) && i < entries@.len()
            && entries@[i as int].0@ == key@,
{
    proof {
        lemma_first_member_index(entries@, key@);
    }
    let n = entries.len();
    for i in 0..n
        invariant
            n == entries@.len(),
            forall|j: int| 0 <= j < i ==> #[trigger] entries@[j].0@ != key@,
    {
        if same_text(entries[i].0.as_str(), key) {
            proof {
                lemma_first_member_index(entries@, key@);
                if let Some(f) = first_member_index(entries@, key@) {
                    assert(entries@[i as int].0@ == key@);
                    if f > i {
                        assert(entries@[i as int].0@ != key@);
                    }
                    if f < i {
                        assert(entries@[f].0@ != key@);
                    }
                } else {
                    assert(entries@[i as int].0@ != key@);
                }
            }
            return Some(i);
        }
    }
    None
}

} // verus!
