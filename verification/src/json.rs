//! JSON documents as values: what `serde_json` parses a reply of herdr
//! into, held as a tree of plain values, and the lookups the library makes
//! in one (`Value::get`, `Value::as_str`, `Value::as_array`).
use vstd::prelude::*;

verus! {

#[verifier::external_type_specification]
#[verifier::external_body]
pub struct ExValue(serde_json::Value);

#[verifier::external_type_specification]
#[verifier::external_body]
pub struct ExJsonError(serde_json::Error);

/// A JSON value. Numbers are kept only as numbers: nothing here reads them.
pub enum Json {
    Null,
    Bool(bool),
    Number,
    Str(String),
    Array(Vec<Json>),
    /// The members in the order `serde_json` keeps them.
    Object(Vec<(String, Json)>),
}

/// A JSON value as values.
pub enum JsonView {
    Null,
    Bool(bool),
    Number,
    Str(Seq<char>),
    Array(Seq<JsonView>),
    Object(Seq<(Seq<char>, JsonView)>),
}

impl View for Json {
    type V = JsonView;

    open spec fn view(&self) -> JsonView
        decreases self,
    {
        match self {
            Json::Null => JsonView::Null,
            Json::Bool(b) => JsonView::Bool(*b),
            Json::Number => JsonView::Number,
            Json::Str(s) => JsonView::Str(s@),
            Json::Array(a) => JsonView::Array(views_of(a@)),
            Json::Object(m) => JsonView::Object(members_of(m@)),
        }
    }
}

/// The values of `s`, as values.
pub open spec fn views_of(s: Seq<Json>) -> Seq<JsonView>
    decreases s,
{
    if s.len() == 0 {
        seq![]
    } else {
        proof {
            assert(decreases_to!(s => s.drop_last()));
        }
        views_of(s.drop_last()).push(s.last()@)
    }
}

/// The members of `m`, as values.
pub open spec fn members_of(m: Seq<(String, Json)>) -> Seq<(Seq<char>, JsonView)>
    decreases m,
{
    if m.len() == 0 {
        seq![]
    } else {
        proof {
            assert(decreases_to!(m => m.drop_last()));
            assert(decreases_to!(m => m.last()));
        }
        members_of(m.drop_last()).push((m.last().0@, m.last().1@))
    }
}

proof fn lemma_members_of(m: Seq<(String, Json)>)
    ensures
        members_of(m).len() == m.len(),
        forall|k: int| 0 <= k < m.len() ==> #[trigger] members_of(m)[k] == (m[k].0@, m[k].1@),
    decreases m.len(),
{
    if m.len() > 0 {
        lemma_members_of(m.drop_last());
        assert(members_of(m) == members_of(m.drop_last()).push((m.last().0@, m.last().1@)));
        assert forall|k: int| 0 <= k < m.len() implies #[trigger] members_of(m)[k] == (
            m[k].0@,
            m[k].1@,
        ) by {
            if k < m.len() - 1 {
                assert(m.drop_last()[k] == m[k]);
            }
        }
    }
}

/// What `serde_json::from_str` makes of `text`: the document, or `None`
/// when `text` is not a JSON document.
pub uninterp spec fn json_of_text(text: Seq<char>) -> Option<JsonView>;

/// What `serde_json::from_slice` makes of `bytes`: the document, or `None`
/// when `bytes` are not a JSON document in UTF-8.
pub uninterp spec fn json_of_bytes(bytes: Seq<u8>) -> Option<JsonView>;

/// Converts a `serde_json::Value` into a [`Json`], variant by variant.
#[verifier::external_body]
fn json_from_value(v: &serde_json::Value) -> Json {
    match v {
        serde_json::Value::Null => Json::Null,
        serde_json::Value::Bool(b) => Json::Bool(*b),
        serde_json::Value::Number(_) => Json::Number,
        serde_json::Value::String(s) => Json::Str(s.clone()),
        serde_json::Value::Array(a) => Json::Array(a.iter().map(json_from_value).collect()),
        serde_json::Value::Object(m) => Json::Object(
            m.iter().map(|(k, x)| (k.clone(), json_from_value(x))).collect(),
        ),
    }
}

/// Calls `serde_json::from_str` for a `serde_json::Value`. The contract
/// claims that the call succeeds exactly when `text` is a JSON document,
/// and then gives that document; what document a text is, the JSON grammar
/// says and is not written out here.
#[verifier::external_body]
pub(crate) fn parse_json_text(text: &str) -> (r: Result<Json, serde_json::Error>)
    ensures
        match json_of_text(text@) {
            Some(v) => r matches Ok(j) && j@ == v,
            None => r is Err,
        },
{
    serde_json::from_str::<serde_json::Value>(text).map(|v| json_from_value(&v))
}

/// Calls `serde_json::from_slice` for a `serde_json::Value`, as
/// [`parse_json_text`] does for text.
#[verifier::external_body]
pub(crate) fn parse_json_bytes(bytes: &[u8]) -> (r: Result<Json, serde_json::Error>)
    ensures
        match json_of_bytes(bytes@) {
            Some(v) => r matches Ok(j) && j@ == v,
            None => r is Err,
        },
{
    serde_json::from_slice::<serde_json::Value>(bytes).map(|v| json_from_value(&v))
}

/// Calls `Display` of `serde_json::Error`: the message of a parse error.
/// Nothing is claimed of the text.
#[verifier::external_body]
pub(crate) fn json_error_text(e: &serde_json::Error) -> (r: String) {
    e.to_string()
}

/// `Value::get` with a key: the member `key` of an object (the first one
/// of that name), `None` for anything else.
pub open spec fn get_spec(v: JsonView, key: Seq<char>) -> Option<JsonView> {
    match v {
        JsonView::Object(m) => member_from(m, key, 0),
        _ => None,
    }
}

pub open spec fn member_from(m: Seq<(Seq<char>, JsonView)>, key: Seq<char>, i: int) -> Option<
    JsonView,
>
    decreases m.len() - i,
{
    if i < 0 || i >= m.len() {
        None
    } else if m[i].0 == key {
        Some(m[i].1)
    } else {
        member_from(m, key, i + 1)
    }
}

/// `Value::as_str`.
pub open spec fn str_spec(v: Option<JsonView>) -> Option<Seq<char>> {
    match v {
        Some(JsonView::Str(s)) => Some(s),
        _ => None,
    }
}

/// `get` applied along `path` (a JSON pointer of plain keys).
pub open spec fn at_path(v: JsonView, path: Seq<Seq<char>>) -> Option<JsonView>
    decreases path.len(),
{
    if path.len() == 0 {
        Some(v)
    } else {
        match at_path(v, path.drop_last()) {
            Some(x) => get_spec(x, path.last()),
            None => None,
        }
    }
}

fn key_is(k: &String, key: &str) -> (r: bool)
    ensures
        r == (k@ == key@),
{
    let a = crate::text::str_to_chars(k.as_str());
    let b = crate::text::str_to_chars(key);
    if a.len() != b.len() {
        return false;
    }
    let r = crate::text::matches_at_exec(a.as_slice(), 0, b.as_slice());
    proof {
        if a@ == b@ {
            assert(a@.subrange(0, b@.len() as int) =~= a@);
        }
        if r {
            assert(a@.subrange(0, b@.len() as int) =~= a@);
        }
    }
    r
}

/// The member `key` of an object (see [`get_spec`]).
pub fn get<'a>(j: &'a Json, key: &str) -> (r: Option<&'a Json>)
    ensures
        match get_spec(j@, key@) {
            Some(x) => r matches Some(y) && y@ == x,
            None => r is None,
        },
{
    match j {
        Json::Object(m) => {
            let ghost mv = members_of(m@);
            proof {
                lemma_members_of(m@);
            }
            assert(j@ == JsonView::Object(mv));
            let mut i: usize = 0;
            while i < m.len()
                invariant
                    i <= m@.len(),
                    j@ == JsonView::Object(mv),
                    mv.len() == m@.len(),
                    forall|k: int| 0 <= k < m@.len() ==> #[trigger] mv[k] == (m@[k].0@, m@[k].1@),
                    member_from(mv, key@, 0) == member_from(mv, key@, i as int),
                decreases m@.len() - i,
            {
                assert(mv[i as int] == (m@[i as int].0@, m@[i as int].1@));
                if key_is(&m[i].0, key) {
                    assert(member_from(mv, key@, i as int) == Some(mv[i as int].1));
                    return Some(&m[i].1);
                }
                i = i + 1;
            }
            None
        },
        _ => None,
    }
}

/// The text of a string value.
pub fn as_str(j: Option<&Json>) -> (r: Option<&String>)
    ensures
        match str_spec(
            match j {
                Some(x) => Some(x@),
                None => None,
            },
        ) {
            Some(s) => r matches Some(t) && t@ == s,
            None => r is None,
        },
{
    match j {
        Some(Json::Str(s)) => Some(s),
        _ => None,
    }
}

/// The values of `s` are its elements' values, in order.
pub proof fn lemma_views_of(s: Seq<Json>)
    ensures
        views_of(s).len() == s.len(),
        forall|k: int| 0 <= k < s.len() ==> #[trigger] views_of(s)[k] == s[k]@,
    decreases s.len(),
{
    if s.len() > 0 {
        lemma_views_of(s.drop_last());
        assert(views_of(s) == views_of(s.drop_last()).push(s.last()@));
        assert forall|k: int| 0 <= k < s.len() implies #[trigger] views_of(s)[k] == s[k]@ by {
            if k < s.len() - 1 {
                assert(s.drop_last()[k] == s[k]);
            }
        }
    }
}

/// `Value::as_array`.
pub open spec fn array_spec(v: Option<JsonView>) -> Option<Seq<JsonView>> {
    match v {
        Some(JsonView::Array(a)) => Some(a),
        _ => None,
    }
}

/// The elements of an array value.
pub fn as_array(j: Option<&Json>) -> (r: Option<&Vec<Json>>)
    ensures
        match array_spec(
            match j {
                Some(x) => Some(x@),
                None => None,
            },
        ) {
            Some(a) => r matches Some(v) && a == views_of(v@),
            None => r is None,
        },
{
    match j {
        Some(Json::Array(a)) => Some(a),
        _ => None,
    }
}

/// A non-empty text, else `None` (`Option::filter` on `!s.is_empty()`).
pub open spec fn non_empty(o: Option<Seq<char>>) -> Option<Seq<char>> {
    match o {
        Some(s) => if s.len() > 0 {
            Some(s)
        } else {
            None
        },
        None => None,
    }
}

/// A path of two or three keys is `get` applied key by key.
pub proof fn lemma_at_path3(v: JsonView, a: Seq<char>, b: Seq<char>, c: Seq<char>)
    ensures
        at_path(v, seq![a, b, c]) == match get_spec(v, a) {
            Some(x) => match get_spec(x, b) {
                Some(y) => get_spec(y, c),
                None => None,
            },
            None => None,
        },
        at_path(v, seq![a, b]) == match get_spec(v, a) {
            Some(x) => get_spec(x, b),
            None => None,
        },
{
    let p1 = seq![a];
    let p2 = seq![a, b];
    let p3 = seq![a, b, c];
    assert(p1.drop_last() =~= Seq::<Seq<char>>::empty());
    assert(p2.drop_last() =~= p1);
    assert(p3.drop_last() =~= p2);
    assert(at_path(v, Seq::<Seq<char>>::empty()) == Some(v));
    assert(at_path(v, p1) == get_spec(v, a));
}

} // verus!
