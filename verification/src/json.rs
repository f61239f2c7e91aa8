//! JSON values, and their text through serde_json.

use crate::text::same_text;
use serde_json::Value;
use vstd::prelude::*;

verus! {

/// A JSON value of serde_json; what it holds is [`value_tree`].
#[verifier::external_type_specification]
#[verifier::external_body]
pub struct ExValue(serde_json::Value);

/// A JSON number of serde_json, carried through unread.
#[verifier::external_type_specification]
#[verifier::external_body]
pub struct ExNumber(serde_json::Number);

/// A JSON number that is written with a fraction or an exponent, or is too large
/// for the integer types. Only reading JSON text makes one.
#[derive(Debug, PartialEq)]
pub struct Real {
    number: serde_json::Number,
}

impl View for Real {
    type V = serde_json::Number;

    closed spec fn view(&self) -> serde_json::Number {
        self.number
    }
}

/// `serde_json::Number::clone`, a derived impl: the copy is the number.
pub assume_specification[ <serde_json::Number as Clone>::clone ](
    number: &serde_json::Number,
) -> (copy: serde_json::Number)
    ensures
        copy == *number,
;

impl Clone for Real {
    fn clone(&self) -> (copy: Real)
        ensures
            copy@ == self@,
    {
        Real { number: self.number.clone() }
    }
}

impl Real {
    /// The number itself.
    pub fn number(&self) -> (number: &serde_json::Number)
        ensures
            *number == self@,
    {
        &self.number
    }
}

/// A JSON value.
#[derive(Debug, PartialEq)]
pub enum Json {
    Null,
    Bool(bool),
    UInt(u64),
    Int(i64),
    Real(Real),
    Str(String),
    Array(Vec<Json>),
    /// The members; of two with one key the later counts.
    Object(Vec<(String, Json)>),
}

/// What a JSON value stands for. A whole number is what it is, however it is
/// held, and the members of an object have no order.
pub enum JsonTree {
    Null,
    Bool(bool),
    Integer(int),
    Real(serde_json::Number),
    Str(Seq<char>),
    Array(Seq<JsonTree>),
    Object(Map<Seq<char>, JsonTree>),
}

/// The members as a map; of two with one key the later counts.
pub open spec fn members(fields: Seq<(Seq<char>, JsonTree)>) -> Map<Seq<char>, JsonTree>
    decreases fields.len(),
{
    if fields.len() == 0 {
        Map::empty()
    } else {
        members(fields.drop_last()).insert(fields.last().0, fields.last().1)
    }
}

/// The index of the last member with this key; negative where there is none.
pub open spec fn last_key(fields: Seq<(String, Json)>, key: Seq<char>) -> int
    decreases fields.len(),
{
    if fields.len() == 0 {
        -1
    } else if fields.last().0@ == key {
        fields.len() - 1
    } else {
        last_key(fields.drop_last(), key)
    }
}

impl Json {
    /// What the value stands for.
    pub open spec fn tree(&self) -> JsonTree
        decreases self,
    {
        match self {
            Json::Null => JsonTree::Null,
            Json::Bool(b) => JsonTree::Bool(*b),
            Json::UInt(n) => JsonTree::Integer(*n as int),
            Json::Int(n) => JsonTree::Integer(*n as int),
            Json::Real(r) => JsonTree::Real(r@),
            Json::Str(s) => JsonTree::Str(s@),
            Json::Array(items) => JsonTree::Array(
                Seq::new(
                    items@.len(),
                    |i: int|
                        if 0 <= i < items@.len() {
                            items@[i].tree()
                        } else {
                            JsonTree::Null
                        },
                ),
            ),
            Json::Object(fields) => JsonTree::Object(
                Map::new(
                    |key: Seq<char>| last_key(fields@, key) >= 0,
                    |key: Seq<char>|
                        if 0 <= last_key(fields@, key) < fields@.len() {
                            fields@[last_key(fields@, key)].1.tree()
                        } else {
                            JsonTree::Null
                        },
                ),
            ),
        }
    }
}

impl View for Json {
    type V = JsonTree;

    open spec fn view(&self) -> JsonTree {
        self.tree()
    }
}

/// Values, each as what it stands for.
pub open spec fn trees(items: Seq<Json>) -> Seq<JsonTree> {
    items.map_values(|item: Json| item@)
}

/// Members, each as what it stands for.
pub open spec fn field_trees(fields: Seq<(String, Json)>) -> Seq<(Seq<char>, JsonTree)> {
    fields.map_values(|field: (String, Json)| (field.0@, field.1@))
}

proof fn lemma_array_tree(items: Vec<Json>)
    ensures
        Json::Array(items)@ == JsonTree::Array(trees(items@)),
{
    assert(Json::Array(items).tree()->Array_0 == trees(items@));
}

proof fn lemma_last_key(fields: Seq<(String, Json)>, key: Seq<char>)
    ensures
        -1 <= last_key(fields, key) < fields.len(),
        members(field_trees(fields)).contains_key(key) <==> last_key(fields, key) >= 0,
        last_key(fields, key) >= 0 ==> members(field_trees(fields))[key] == fields[last_key(
            fields,
            key,
        )].1@ && fields[last_key(fields, key)].0@ == key,
    decreases fields.len(),
{
    if fields.len() > 0 {
        lemma_last_key(fields.drop_last(), key);
        assert(field_trees(fields).drop_last() == field_trees(fields.drop_last()));
    }
}

proof fn lemma_object_tree(fields: Vec<(String, Json)>)
    ensures
        Json::Object(fields)@ == JsonTree::Object(members(field_trees(fields@))),
{
    let shown = Json::Object(fields).tree()->Object_0;
    let wanted = members(field_trees(fields@));
    assert forall|key: Seq<char>| #[trigger]
        shown.dom().contains(key) == wanted.dom().contains(key) by {
        lemma_last_key(fields@, key);
    }
    assert forall|key: Seq<char>| #[trigger] shown.dom().contains(key) implies shown[key]
        == wanted[key] by {
        lemma_last_key(fields@, key);
    }
    assert(shown == wanted);
}

/// The member of an object with this key.
pub open spec fn member(t: JsonTree, key: Seq<char>) -> Option<JsonTree> {
    match t {
        JsonTree::Object(fields) => if fields.contains_key(key) {
            Some(fields[key])
        } else {
            None
        },
        _ => None,
    }
}

/// The member of an object with this key, or null where there is none.
pub open spec fn item(t: JsonTree, key: Seq<char>) -> JsonTree {
    match member(t, key) {
        Some(found) => found,
        None => JsonTree::Null,
    }
}

/// The text of a string.
pub open spec fn str_of(t: JsonTree) -> Option<Seq<char>> {
    match t {
        JsonTree::Str(s) => Some(s),
        _ => None,
    }
}

/// A whole number that fits `u64`.
pub open spec fn u64_of(t: JsonTree) -> Option<u64> {
    match t {
        JsonTree::Integer(n) => if 0 <= n <= u64::MAX {
            Some(n as u64)
        } else {
            None
        },
        _ => None,
    }
}

/// The value of a boolean.
pub open spec fn bool_of(t: JsonTree) -> Option<bool> {
    match t {
        JsonTree::Bool(b) => Some(b),
        _ => None,
    }
}

/// The items of an array.
pub open spec fn array_of(t: JsonTree) -> Option<Seq<JsonTree>> {
    match t {
        JsonTree::Array(items) => Some(items),
        _ => None,
    }
}

impl Json {
    /// The member of an object with this key.
    pub fn get(&self, key: &str) -> (found: Option<&Json>)
        ensures
            match found {
                Some(value) => member(self@, key@) == Some(value@),
                None => member(self@, key@) is None,
            },
    {
        match self {
            Json::Object(fields) => {
                let mut i: usize = fields.len();
                assert(fields@.take(i as int) == fields@);
                proof {
                    lemma_object_tree(*fields);
                    lemma_last_key(fields@, key@);
                }
                while i > 0
                    invariant
                        i <= fields@.len(),
                        last_key(fields@, key@) == last_key(fields@.take(i as int), key@),
                        *self == Json::Object(*fields),
                        self@ == JsonTree::Object(members(field_trees(fields@))),
                        last_key(fields@, key@) >= 0 ==> members(field_trees(fields@))[key@]
                            == fields@[last_key(fields@, key@)].1@,
                        members(field_trees(fields@)).contains_key(key@) <==> last_key(
                            fields@,
                            key@,
                        ) >= 0,
                    decreases i,
                {
                    let ghost seen = fields@.take(i as int);
                    i -= 1;
                    assert(seen.drop_last() == fields@.take(i as int));
                    assert(seen.last() == fields@[i as int]);
                    if same_text(fields[i].0.as_str(), key) {
                        return Some(&fields[i].1);
                    }
                }
                None
            },
            _ => None,
        }
    }

    /// The text of a string.
    pub fn as_str(&self) -> (found: Option<&str>)
        ensures
            match found {
                Some(s) => str_of(self@) == Some(s@),
                None => str_of(self@) is None,
            },
    {
        match self {
            Json::Str(s) => Some(s.as_str()),
            _ => None,
        }
    }

    /// A whole number that fits `u64`.
    pub fn as_u64(&self) -> (found: Option<u64>)
        ensures
            found == u64_of(self@),
    {
        match self {
            Json::UInt(n) => Some(*n),
            Json::Int(n) => if *n >= 0 {
                Some(*n as u64)
            } else {
                None
            },
            _ => None,
        }
    }

    /// The value of a boolean.
    pub fn as_bool(&self) -> (found: Option<bool>)
        ensures
            found == bool_of(self@),
    {
        match self {
            Json::Bool(b) => Some(*b),
            _ => None,
        }
    }

    /// The items of an array.
    pub fn as_array(&self) -> (found: Option<&Vec<Json>>)
        ensures
            match found {
                Some(items) => array_of(self@) == Some(trees(items@)),
                None => array_of(self@) is None,
            },
    {
        match self {
            Json::Array(items) => {
                proof {
                    lemma_array_tree(*items);
                }
                Some(items)
            },
            _ => None,
        }
    }

    /// The text of the member with this key.
    pub fn str_at(&self, key: &str) -> (found: Option<&str>)
        ensures
            match found {
                Some(s) => str_of(item(self@, key@)) == Some(s@),
                None => str_of(item(self@, key@)) is None,
            },
    {
        match self.get(key) {
            Some(value) => value.as_str(),
            None => None,
        }
    }

    /// The whole number of the member with this key.
    pub fn u64_at(&self, key: &str) -> (found: Option<u64>)
        ensures
            found == u64_of(item(self@, key@)),
    {
        match self.get(key) {
            Some(value) => value.as_u64(),
            None => None,
        }
    }

    /// The boolean of the member with this key.
    pub fn bool_at(&self, key: &str) -> (found: Option<bool>)
        ensures
            found == bool_of(item(self@, key@)),
    {
        match self.get(key) {
            Some(value) => value.as_bool(),
            None => None,
        }
    }
}

/// The object with these members.
pub open spec fn object(fields: Seq<(Seq<char>, JsonTree)>) -> JsonTree {
    JsonTree::Object(members(fields))
}

/// The object with these members.
pub fn json_object(fields: Vec<(String, Json)>) -> (json: Json)
    ensures
        json@ == object(field_trees(fields@)),
{
    proof {
        lemma_object_tree(fields);
    }
    Json::Object(fields)
}

/// The array of these items.
pub fn json_array(items: Vec<Json>) -> (json: Json)
    ensures
        json@ == JsonTree::Array(trees(items@)),
{
    proof {
        lemma_array_tree(items);
    }
    Json::Array(items)
}

/// Adds a member.
pub fn push_field(fields: &mut Vec<(String, Json)>, key: &str, value: Json)
    ensures
        field_trees(final(fields)@) == field_trees(old(fields)@).push((key@, value@)),
{
    let ghost before = fields@;
    fields.push((key.to_string(), value));
    assert(field_trees(fields@) == field_trees(before).push((key@, value@)));
}

/// The JSON string of a text.
pub fn json_str(text: &str) -> (json: Json)
    ensures
        json@ == JsonTree::Str(text@),
{
    Json::Str(text.to_string())
}

/// What an object holds under the key of its last member with that key.
pub proof fn lemma_member(fields: Seq<(Seq<char>, JsonTree)>, i: int)
    requires
        0 <= i < fields.len(),
        forall|j: int| i < j < fields.len() ==> (#[trigger] fields[j]).0 != fields[i].0,
    ensures
        member(object(fields), fields[i].0) == Some(fields[i].1),
    decreases fields.len(),
{
    if i < fields.len() - 1 {
        assert(fields.last().0 != fields[i].0);
        assert forall|j: int| i < j < fields.drop_last().len() implies (
        #[trigger] fields.drop_last()[j]).0 != fields[i].0 by {
            assert(fields[j].0 != fields[i].0);
        }
        lemma_member(fields.drop_last(), i);
    }
}

/// The member that an object holds under a key.
pub proof fn lemma_members_value(fields: Seq<(Seq<char>, JsonTree)>, key: Seq<char>) -> (i: int)
    requires
        members(fields).contains_key(key),
    ensures
        0 <= i < fields.len(),
        fields[i].0 == key,
        members(fields)[key] == fields[i].1,
    decreases fields.len(),
{
    if fields.last().0 == key {
        fields.len() - 1
    } else {
        lemma_members_value(fields.drop_last(), key)
    }
}

/// What an object holds under a key that no member has.
pub proof fn lemma_no_member(fields: Seq<(Seq<char>, JsonTree)>, key: Seq<char>)
    requires
        forall|j: int| 0 <= j < fields.len() ==> (#[trigger] fields[j]).0 != key,
    ensures
        member(object(fields), key) is None,
    decreases fields.len(),
{
    if fields.len() > 0 {
        assert(fields.last().0 != key);
        assert forall|j: int| 0 <= j < fields.drop_last().len() implies (
        #[trigger] fields.drop_last()[j]).0 != key by {
            assert(fields[j].0 != key);
        }
        lemma_no_member(fields.drop_last(), key);
    }
}

impl Clone for Json {
    fn clone(&self) -> (copy: Json)
        ensures
            copy@ == self@,
        decreases self,
    {
        match self {
            Json::Null => Json::Null,
            Json::Bool(b) => Json::Bool(*b),
            Json::UInt(n) => Json::UInt(*n),
            Json::Int(n) => Json::Int(*n),
            Json::Real(r) => Json::Real(r.clone()),
            Json::Str(s) => Json::Str(s.clone()),
            Json::Array(items) => {
                let mut copy: Vec<Json> = Vec::new();
                for i in 0..items.len()
                    invariant
                        *self is Array,
                        self->Array_0 == *items,
                        copy@.len() == i,
                        forall|j: int| 0 <= j < i ==> #[trigger] trees(copy@)[j]
                            == trees(items@)[j],
                {
                    let ghost before = copy@;
                    assert(decreases_to!(*self => self->Array_0));
                    assert(decreases_to!(*items => items@));
                    assert(decreases_to!(items@ => items@[i as int]));
                    copy.push(items[i].clone());
                    assert forall|j: int| 0 <= j < i + 1 implies #[trigger] trees(copy@)[j]
                        == trees(items@)[j] by {
                        if j < i {
                            assert(trees(copy@)[j] == trees(before)[j]);
                        }
                    }
                }
                proof {
                    assert(trees(copy@) == trees(items@));
                    lemma_array_tree(copy);
                    lemma_array_tree(*items);
                }
                Json::Array(copy)
            },
            Json::Object(fields) => {
                let mut copy: Vec<(String, Json)> = Vec::new();
                for i in 0..fields.len()
                    invariant
                        *self is Object,
                        self->Object_0 == *fields,
                        copy@.len() == i,
                        forall|j: int|
                            0 <= j < i ==> #[trigger] field_trees(copy@)[j] == field_trees(
                                fields@,
                            )[j],
                {
                    let ghost before = copy@;
                    assert(decreases_to!(*self => self->Object_0));
                    assert(decreases_to!(*fields => fields@));
                    assert(decreases_to!(fields@ => fields@[i as int]));
                    copy.push((fields[i].0.clone(), fields[i].1.clone()));
                    assert forall|j: int| 0 <= j < i + 1 implies #[trigger] field_trees(copy@)[j]
                        == field_trees(fields@)[j] by {
                        if j < i {
                            assert(field_trees(copy@)[j] == field_trees(before)[j]);
                        }
                    }
                }
                proof {
                    assert(field_trees(copy@) == field_trees(fields@));
                    lemma_object_tree(copy);
                    lemma_object_tree(*fields);
                }
                Json::Object(copy)
            },
        }
    }
}

/// Whether a value nests containers at most `levels` deep.
pub open spec fn shallow(t: JsonTree, levels: nat) -> bool
    decreases levels,
{
    match t {
        JsonTree::Array(items) => levels > 0 && forall|i: int|
            0 <= i < items.len() ==> shallow(#[trigger] items[i], (levels - 1) as nat),
        JsonTree::Object(fields) => levels > 0 && forall|key: Seq<char>|
            #[trigger] fields.contains_key(key) ==> shallow(fields[key], (levels - 1) as nat),
        _ => true,
    }
}

/// How many containers deep serde_json reads.
pub const MAX_DEPTH: usize = 127;

/// Whether no two members have one key.
pub open spec fn distinct_keys(fields: Seq<(Seq<char>, JsonTree)>) -> bool {
    forall|i: int, j: int|
        0 <= i < j < fields.len() ==> (#[trigger] fields[i]).0 != (#[trigger] fields[j]).0
}

/// What a value of serde_json holds.
pub uninterp spec fn value_tree(value: Value) -> JsonTree;

/// What `serde_json::from_str` reads from a text, or its message.
pub uninterp spec fn parsed(text: Seq<char>) -> Result<JsonTree, Seq<char>>;

/// What `serde_json::from_slice` reads from bytes, or its message.
pub uninterp spec fn parsed_bytes(bytes: Seq<u8>) -> Result<JsonTree, Seq<char>>;

/// Whether a text reads as this value.
pub open spec fn reads_as(text: Seq<char>, tree: JsonTree) -> bool {
    parsed(text) == Ok::<JsonTree, Seq<char>>(tree)
}

/// Whether bytes read as this value.
pub open spec fn bytes_read_as(bytes: Seq<u8>, tree: JsonTree) -> bool {
    parsed_bytes(bytes) == Ok::<JsonTree, Seq<char>>(tree)
}

/// The text that `serde_json::to_string` gives a value.
pub uninterp spec fn json_text(tree: JsonTree) -> Seq<char>;

/// The text that serde_json gives an object whose members are written in order.
pub uninterp spec fn fields_text(fields: Seq<(Seq<char>, JsonTree)>) -> Seq<char>;

/// Builds a `serde_json::Value`, variant by variant, through its own
/// constructors and `From` impls: it holds what the value stands for.
#[verifier::external_body]
fn to_value(json: &Json) -> (value: Value)
    ensures
        value_tree(value) == json@,
{
    match json {
        Json::Null => Value::Null,
        Json::Bool(b) => Value::Bool(*b),
        Json::UInt(n) => Value::from(*n),
        Json::Int(n) => Value::from(*n),
        Json::Real(r) => Value::Number(r.number.clone()),
        Json::Str(s) => Value::String(s.clone()),
        Json::Array(items) => Value::Array(items.iter().map(to_value).collect()),
        Json::Object(fields) => Value::Object(
            fields.iter().map(|f| (f.0.clone(), to_value(&f.1))).collect(),
        ),
    }
}

/// Takes a `serde_json::Value` apart, variant by variant; its numbers by
/// `Number::as_u64` and `Number::as_i64`, which tell their kinds apart.
#[verifier::external_body]
fn into_json(value: Value) -> (json: Json)
    ensures
        json@ == value_tree(value),
{
    match value {
        Value::Null => Json::Null,
        Value::Bool(b) => Json::Bool(b),
        Value::Number(n) => match n.as_u64() {
            Some(u) => Json::UInt(u),
            None => n.as_i64().map_or(Json::Real(Real { number: n }), Json::Int),
        },
        Value::String(s) => Json::Str(s),
        Value::Array(a) => Json::Array(a.into_iter().map(into_json).collect()),
        Value::Object(m) => Json::Object(
            m.into_iter().map(|f| (f.0, into_json(f.1))).collect(),
        ),
    }
}

/// `serde_json::from_str`: the value that a text holds, or the message of the
/// error. Both depend on the text alone.
#[verifier::external_body]
fn value_of_text(text: &str) -> (value: Result<Value, String>)
    ensures
        match value {
            Ok(value) => reads_as(text@, value_tree(value)),
            Err(message) => parsed(text@) == Err::<JsonTree, Seq<char>>(message@),
        },
{
    serde_json::from_str(text).map_err(|error: serde_json::Error| error.to_string())
}

/// `serde_json::from_slice`: the value that bytes hold, or the message of the
/// error. Both depend on the bytes alone.
#[verifier::external_body]
fn value_of_bytes(bytes: &[u8]) -> (value: Result<Value, String>)
    ensures
        match value {
            Ok(value) => bytes_read_as(bytes@, value_tree(value)),
            Err(message) => parsed_bytes(bytes@) == Err::<JsonTree, Seq<char>>(message@),
        },
{
    serde_json::from_slice(bytes).map_err(|error: serde_json::Error| error.to_string())
}

/// `serde_json::to_string`: the text depends on what the value holds alone, and
/// reading it gives that back, unless it nests deeper than the reader goes. It
/// fails on no `serde_json::Value`.
#[verifier::external_body]
fn text_of_value(value: &Value) -> (text: String)
    ensures
        text@ == json_text(value_tree(*value)),
        shallow(value_tree(*value), MAX_DEPTH as nat) ==> reads_as(text@, value_tree(*value)),
{
    serde_json::to_string(value).expect("JSON value must serialize")
}

/// `serde_json::to_vec`: the bytes of the text that `to_string` gives, and
/// reading them gives the value back, unless it nests deeper than the reader
/// goes. It fails on no `serde_json::Value`.
#[verifier::external_body]
fn bytes_of_value(value: &Value) -> (bytes: Vec<u8>)
    ensures
        bytes@ == vstd::utf8::encode_utf8(json_text(value_tree(*value))),
        shallow(value_tree(*value), MAX_DEPTH as nat) ==> bytes_read_as(bytes@, value_tree(*value)),
{
    serde_json::to_vec(value).expect("JSON value must serialize")
}

/// Members of serde_json's values, each as what it holds.
pub open spec fn value_fields(fields: Seq<(String, Value)>) -> Seq<(Seq<char>, JsonTree)> {
    fields.map_values(|field: (String, Value)| (field.0@, value_tree(field.1)))
}

/// `Serializer::collect_map` into a `serde_json::Serializer`: an object with the
/// members in the order given, on one line that starts with its brace. Where
/// their keys differ, reading it gives them back, unless one nests deeper than
/// the reader goes. It fails on no `serde_json::Value`.
#[verifier::external_body]
fn text_of_fields(fields: &Vec<(String, Value)>) -> (text: String)
    ensures
        text@ == fields_text(value_fields(fields@)),
        text@.len() > 0 && text@[0] == '{' && !text@.contains('\n'),
        distinct_keys(value_fields(fields@)) && shallow(
            JsonTree::Object(members(value_fields(fields@))),
            MAX_DEPTH as nat,
        ) ==> reads_as(text@, JsonTree::Object(members(value_fields(fields@)))),
{
    let mut out: Vec<u8> = Vec::new();
    let mut serializer = serde_json::Serializer::new(&mut out);
    serde::Serializer::collect_map(&mut serializer, fields.iter().map(|f| (&f.0, &f.1))).expect(
        "JSON value must serialize",
    );
    String::from_utf8(out).expect("JSON text must be UTF-8")
}

/// Reads the JSON value that a text holds; an error is its message.
pub fn parse(text: &str) -> (json: Result<Json, String>)
    ensures
        match json {
            Ok(json) => reads_as(text@, json@),
            Err(message) => parsed(text@) == Err::<JsonTree, Seq<char>>(message@),
        },
{
    match value_of_text(text) {
        Ok(value) => Ok(into_json(value)),
        Err(message) => Err(message),
    }
}

/// Reads the JSON value that bytes hold; an error is its message.
pub fn parse_bytes(bytes: &[u8]) -> (json: Result<Json, String>)
    ensures
        match json {
            Ok(json) => bytes_read_as(bytes@, json@),
            Err(message) => parsed_bytes(bytes@) == Err::<JsonTree, Seq<char>>(message@),
        },
{
    match value_of_bytes(bytes) {
        Ok(value) => Ok(into_json(value)),
        Err(message) => Err(message),
    }
}

/// The compact text of a JSON value.
pub fn to_text(json: &Json) -> (text: String)
    ensures
        text@ == json_text(json@),
        shallow(json@, MAX_DEPTH as nat) ==> reads_as(text@, json@),
{
    text_of_value(&to_value(json))
}

/// The bytes of the compact text of a JSON value.
pub fn to_bytes(json: &Json) -> (bytes: Vec<u8>)
    ensures
        bytes@ == vstd::utf8::encode_utf8(json_text(json@)),
        shallow(json@, MAX_DEPTH as nat) ==> bytes_read_as(bytes@, json@),
{
    bytes_of_value(&to_value(json))
}

/// The compact text of an object with these members, in order.
pub fn object_text(fields: &Vec<(String, Json)>) -> (text: String)
    ensures
        text@ == fields_text(field_trees(fields@)),
        text@.len() > 0 && text@[0] == '{' && !text@.contains('\n'),
        distinct_keys(field_trees(fields@)) && shallow(
            JsonTree::Object(members(field_trees(fields@))),
            MAX_DEPTH as nat,
        ) ==> reads_as(text@, JsonTree::Object(members(field_trees(fields@)))),
{
    let mut values: Vec<(String, Value)> = Vec::new();
    for i in 0..fields.len()
        invariant
            values@.len() == i,
            forall|j: int|
                0 <= j < i ==> #[trigger] value_fields(values@)[j] == field_trees(fields@)[j],
    {
        let ghost before = values@;
        values.push((fields[i].0.clone(), to_value(&fields[i].1)));
        assert forall|j: int| 0 <= j < i + 1 implies #[trigger] value_fields(values@)[j]
            == field_trees(fields@)[j] by {
            if j < i {
                assert(value_fields(values@)[j] == value_fields(before)[j]);
            }
        }
    }
    assert(value_fields(values@) == field_trees(fields@));
    text_of_fields(&values)
}

} // verus!
