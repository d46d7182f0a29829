use vstd::prelude::*;

verus! {

broadcast use vstd::string::group_string_axioms;

#[verifier::external_type_specification]
#[verifier::external_body]
pub struct ExJsonValue(json::JsonValue);

/// A JSON document as the game server sends it: numbers are kept as the
/// text the parser writes for them, objects as their entries in order, with
/// distinct keys.
#[derive(Debug)]
pub enum Json {
    Null,
    Bool(bool),
    Number(String),
    Str(String),
    Array(Vec<Json>),
    Object(Vec<JsonEntry>),
}

/// One `key: value` entry of a JSON object.
#[derive(Debug)]
pub struct JsonEntry {
    pub key: String,
    pub value: Json,
}

/// What `json::parse` makes of a text, as a `Json`; `None` when the text is
/// not JSON.
pub uninterp spec fn json_document(text: Seq<char>) -> Option<Json>;

/// The conversion step of `parse_json`: a `json::JsonValue` written out as a
/// `Json`, variant by variant (numbers by `JsonValue::dump`, object entries
/// by `Object::iter`, array members by `Vec::iter`). It claims nothing: what
/// the parse gives is stated, by name, on `parse_json`.
#[verifier::external_body]
fn json_from_value(v: &json::JsonValue) -> Json {
    match v {
        json::JsonValue::Null => Json::Null,
        json::JsonValue::Short(s) => Json::Str(s.as_str().to_string()),
        json::JsonValue::String(s) => Json::Str(s.clone()),
        json::JsonValue::Number(_) => Json::Number(v.dump()),
        json::JsonValue::Boolean(b) => Json::Bool(*b),
        json::JsonValue::Object(o) => Json::Object(o.iter().map(|(k, x)| JsonEntry { key: k.to_string(), value: json_from_value(x) }).collect()),
        json::JsonValue::Array(a) => Json::Array(a.iter().map(json_from_value).collect()),
    }
}

/// `json::parse`: the document that a text holds, named `json_document`;
/// `None` where the parser reports an error.
#[verifier::external_body]
fn parse_json(text: &str) -> (r: Option<Json>)
    ensures
        r == json_document(text@),
{
    match json::parse(text) {
        Ok(v) => Some(json_from_value(&v)),
        Err(_) => None,
    }
}

/// The value stored under `key` among `entries`.
pub open spec fn entry_value(entries: Seq<JsonEntry>, key: Seq<char>) -> Option<Json>
    decreases entries.len(),
{
    if entries.len() == 0 {
        None
    } else if entries[0].key@ == key {
        Some(entries[0].value)
    } else {
        entry_value(entries.drop_first(), key)
    }
}

/// The value stored under `key` in an object; `None` for a missing key or a
/// value that is not an object.
pub open spec fn json_field(j: Json, key: Seq<char>) -> Option<Json> {
    match j {
        Json::Object(es) => entry_value(es@, key),
        _ => None,
    }
}

/// The text of a string value.
pub open spec fn json_text(j: Option<Json>) -> Option<Seq<char>> {
    match j {
        Some(Json::Str(s)) => Some(s@),
        _ => None,
    }
}

/// The members of an array; empty for any other value.
pub open spec fn json_members(j: Option<Json>) -> Seq<Json> {
    match j {
        Some(Json::Array(v)) => v@,
        _ => Seq::empty(),
    }
}

impl Json {
    /// The document that a text holds; `None` when the text is not JSON.
    pub fn parse(text: &str) -> (r: Option<Json>)
        ensures
            r == json_document(text@),
    {
        parse_json(text)
    }

    /// The value stored under `key`, when `self` is an object that has it.
    pub fn field(&self, key: &str) -> (r: Option<&Json>)
        ensures
            match r {
                Some(x) => json_field(*self, key@) == Some(*x),
                None => json_field(*self, key@) is None,
            },
    {
        match self {
            Json::Object(entries) => {
                let k = key.to_string();
                let mut i: usize = 0;
                proof {
                    assert(entries@.skip(0) =~= entries@);
                }
                while i < entries.len()
                    invariant
                        0 <= i <= entries.len(),
                        k@ == key@,
                        json_field(*self, key@) == entry_value(entries@, key@),
                        entry_value(entries@, key@) == entry_value(entries@.skip(i as int), key@),
                    decreases entries.len() - i,
                {
                    proof {
                        assert(entries@.skip(i as int)[0] == entries@[i as int]);
                        assert(entries@.skip(i as int).drop_first() =~= entries@.skip(i + 1));
                    }
                    let same = entries[i].key == k;
                    if same {
                        proof {
                            assert(entries@[i as int].key@ == key@);
                            assert(entry_value(entries@.skip(i as int), key@) == Some(entries@[i as int].value));
                        }
                        return Some(&entries[i].value);
                    }
                    i = i + 1;
                }
                None
            },
            _ => None,
        }
    }

    /// The text of `self` when it is a string.
    pub fn as_str(&self) -> (r: Option<&str>)
        ensures
            match r {
                Some(s) => json_text(Some(*self)) == Some(s@),
                None => json_text(Some(*self)) is None,
            },
    {
        match self {
            Json::Str(s) => Some(s.as_str()),
            _ => None,
        }
    }

    /// Whether `self` is an object with an entry under `key`.
    pub fn has_key(&self, key: &str) -> (r: bool)
        ensures
            r == json_field(*self, key@) is Some,
    {
        self.field(key).is_some()
    }

    /// The text stored under `key`, when it is a string.
    pub fn text_field(&self, key: &str) -> (r: Option<&str>)
        ensures
            match r {
                Some(s) => json_text(json_field(*self, key@)) == Some(s@),
                None => json_text(json_field(*self, key@)) is None,
            },
    {
        match self.field(key) {
            Some(v) => v.as_str(),
            None => None,
        }
    }
}

} // verus!
