//! JSON documents: reading, writing and looking things up.
use vstd::prelude::*;
use crate::decimal::digit_run;
use crate::text::same_text;

verus! {

/// The value of `serde_json`, which its reader gives and its writer takes.
#[verifier::external_type_specification]
#[verifier::external_body]
pub struct ExValue(serde_json::Value);

/// The number of `serde_json`: a 64-bit integer or a finite float.
#[verifier::external_type_specification]
#[verifier::external_body]
pub struct ExNumber(serde_json::Number);

/// The error of `serde_json`.
#[verifier::external_type_specification]
#[verifier::external_body]
pub struct ExJsonError(serde_json::Error);

/// A JSON document.
#[derive(Debug)]
pub enum Json {
    Null,
    Bool(bool),
    Number(serde_json::Number),
    Text(String),
    Array(Vec<Json>),
    /// The fields, in the order in which they were written.
    Object(Vec<(String, Json)>),
}

/// What a JSON document is, as a mathematical tree.
pub enum JsonTree {
    Null,
    Bool(bool),
    Number(serde_json::Number),
    Text(Seq<char>),
    Array(Seq<JsonTree>),
    Object(Seq<(Seq<char>, JsonTree)>),
}

/// The text is not a JSON document.
#[derive(Debug, Clone, Copy, PartialEq, Eq, Structural)]
pub struct JsonError;

impl View for Json {
    type V = JsonTree;

    open spec fn view(&self) -> JsonTree
        decreases self,
    {
        match self {
            Json::Null => JsonTree::Null,
            Json::Bool(b) => JsonTree::Bool(*b),
            Json::Number(n) => JsonTree::Number(*n),
            Json::Text(t) => JsonTree::Text(t@),
            Json::Array(v) => JsonTree::Array(
                Seq::new(
                    v@.len(),
                    |i: int|
                        if 0 <= i < v@.len() {
                            v@[i].view()
                        } else {
                            arbitrary()
                        },
                ),
            ),
            Json::Object(v) => JsonTree::Object(
                Seq::new(
                    v@.len(),
                    |i: int|
                        if 0 <= i < v@.len() {
                            (v@[i].0@, v@[i].1.view())
                        } else {
                            arbitrary()
                        },
                ),
            ),
        }
    }
}

/// The trees of a list of documents.
pub open spec fn json_trees(v: Seq<Json>) -> Seq<JsonTree> {
    Seq::new(v.len(), |i: int| v[i]@)
}

/// The trees of a list of fields.
pub open spec fn field_trees(v: Seq<(String, Json)>) -> Seq<(Seq<char>, JsonTree)> {
    Seq::new(v.len(), |i: int| (v[i].0@, v[i].1@))
}

pub proof fn lemma_array_view(v: Vec<Json>)
    ensures
        Json::Array(v)@ == JsonTree::Array(json_trees(v@)),
{
    reveal_with_fuel(<Json as View>::view, 2);
    let n = Json::Array(v);
    assert(n@ matches JsonTree::Array(t) && t =~= json_trees(v@));
}

pub proof fn lemma_object_view(v: Vec<(String, Json)>)
    ensures
        Json::Object(v)@ == JsonTree::Object(field_trees(v@)),
{
    reveal_with_fuel(<Json as View>::view, 2);
    let n = Json::Object(v);
    assert(n@ matches JsonTree::Object(t) && t =~= field_trees(v@));
}

// ─── The outside reader and writer ────────────────────────────────────────────

/// What a value of `serde_json` holds.
pub uninterp spec fn value_tree(v: serde_json::Value) -> JsonTree;

/// The document that `serde_json::from_str` reads a text as.
pub uninterp spec fn json_document(text: Seq<char>) -> Option<JsonTree>;

/// The text that `serde_json::to_string_pretty` writes for a document.
pub uninterp spec fn pretty_text(tree: JsonTree) -> Seq<char>;

/// What the values of a list hold.
pub open spec fn value_trees(v: Seq<serde_json::Value>) -> Seq<JsonTree> {
    Seq::new(v.len(), |i: int| value_tree(v[i]))
}

/// Do lists and objects stand at most `depth` levels deep in one another?
pub open spec fn is_within(tree: JsonTree, depth: nat) -> bool
    decreases depth,
{
    match tree {
        JsonTree::Array(items) => depth > 0 && forall|i: int|
            0 <= i < items.len() ==> is_within(#[trigger] items[i], (depth - 1) as nat),
        JsonTree::Object(fields) => depth > 0 && forall|i: int|
            0 <= i < fields.len() ==> is_within((#[trigger] fields[i]).1, (depth - 1) as nat),
        _ => true,
    }
}

/// Is no key used twice?
pub open spec fn keys_differ(fields: Seq<(Seq<char>, JsonTree)>) -> bool {
    forall|i: int, j: int|
        0 <= i < j < fields.len() ==> (#[trigger] fields[i]).0 != (#[trigger] fields[j]).0
}

/// Is no key used twice in any object of the document?
pub open spec fn is_proper(tree: JsonTree) -> bool
    decreases tree,
{
    match tree {
        JsonTree::Array(items) => forall|i: int|
            0 <= i < items.len() ==> is_proper(#[trigger] items[i]),
        JsonTree::Object(fields) => keys_differ(fields) && forall|i: int|
            0 <= i < fields.len() ==> is_proper((#[trigger] fields[i]).1),
        _ => true,
    }
}

/// Is `t` a short decimal number: digits without a needless leading zero, and maybe
/// a point and more digits?
pub open spec fn is_short_decimal(t: Seq<char>) -> bool {
    let point = digit_run(t, 0);
    &&& 0 < point <= t.len() <= 15
    &&& t[0] == '0' ==> point == 1
    &&& point < t.len() ==> t[point] == '.' && point + 1 < t.len() && digit_run(t, point + 1)
        == t.len()
}

/// `serde_json::from_str` reads a text as a value. Which document it finds depends
/// on the text alone; it goes no deeper than 127 levels, gives every object each key
/// once, and reads a short decimal as a number.
#[verifier::external_body]
fn parse_value(text: &str) -> (r: Result<serde_json::Value, serde_json::Error>)
    ensures
        r is Ok <==> json_document(text@) is Some,
        r matches Ok(v) ==> json_document(text@) == Some(value_tree(v)),
        r matches Ok(v) ==> is_within(value_tree(v), 127) && is_proper(value_tree(v)),
        r is Ok && value_tree(r->Ok_0) is Number || !is_short_decimal(text@),
{
    serde_json::from_str(text)
}

/// `serde_json::to_string_pretty` writes a value. It never fails on a
/// `serde_json::Value`; what it writes depends on what the value holds, and reads
/// back as the same document where that is not too deep for the reader. White space
/// after a document, such as a line break, does not matter to the reader.
#[verifier::external_body]
fn write_value(v: &serde_json::Value) -> (r: String)
    ensures
        r@ == pretty_text(value_tree(*v)),
        is_within(value_tree(*v), 127) ==> json_document(r@) == Some(value_tree(*v)),
        is_within(value_tree(*v), 127) ==> json_document(r@.push('\n')) == Some(value_tree(*v)),
{
    serde_json::to_string_pretty(v).unwrap()
}

/// One level of a value.
enum Opened<'a> {
    Null,
    Bool(bool),
    Number(&'a serde_json::Number),
    Text(&'a String),
    Array(&'a Vec<serde_json::Value>),
    Object(Vec<(&'a String, &'a serde_json::Value)>),
}

/// The variants of `serde_json::Value` and what they hold; `serde_json::Map::iter`
/// gives the fields of an object in order.
#[verifier::external_body]
fn open_value<'a>(v: &'a serde_json::Value) -> (r: Opened<'a>)
    ensures
        match r {
            Opened::Null => value_tree(*v) == JsonTree::Null,
            Opened::Bool(b) => value_tree(*v) == JsonTree::Bool(b),
            Opened::Number(n) => value_tree(*v) == JsonTree::Number(*n),
            Opened::Text(t) => value_tree(*v) == JsonTree::Text(t@),
            Opened::Array(a) => value_tree(*v) == JsonTree::Array(value_trees(a@)),
            Opened::Object(f) => value_tree(*v) == JsonTree::Object(
                Seq::new(f@.len(), |i: int| (f@[i].0@, value_tree(*f@[i].1))),
            ),
        },
{
    match v {
        serde_json::Value::Null => Opened::Null,
        serde_json::Value::Bool(b) => Opened::Bool(*b),
        serde_json::Value::Number(n) => Opened::Number(n),
        serde_json::Value::String(t) => Opened::Text(t),
        serde_json::Value::Array(a) => Opened::Array(a),
        serde_json::Value::Object(m) => Opened::Object(m.iter().collect()),
    }
}

/// One level of a document, with the values below it.
enum Parts {
    Null,
    Bool(bool),
    Number(serde_json::Number),
    Text(String),
    Array(Vec<serde_json::Value>),
    Object(Vec<(String, serde_json::Value)>),
}

/// What a list of fields holds.
spec fn part_trees(f: Seq<(String, serde_json::Value)>) -> Seq<(Seq<char>, JsonTree)> {
    Seq::new(f.len(), |i: int| (f[i].0@, value_tree(f[i].1)))
}

/// The variants of `serde_json::Value`; a `serde_json::Map` made of fields with
/// different keys holds them in their order.
#[verifier::external_body]
fn close_value(parts: Parts) -> (r: serde_json::Value)
    requires
        parts matches Parts::Object(f) ==> keys_differ(part_trees(f@)),
    ensures
        match parts {
            Parts::Null => value_tree(r) == JsonTree::Null,
            Parts::Bool(b) => value_tree(r) == JsonTree::Bool(b),
            Parts::Number(n) => value_tree(r) == JsonTree::Number(n),
            Parts::Text(t) => value_tree(r) == JsonTree::Text(t@),
            Parts::Array(a) => value_tree(r) == JsonTree::Array(value_trees(a@)),
            Parts::Object(f) => value_tree(r) == JsonTree::Object(part_trees(f@)),
        },
{
    match parts {
        Parts::Null => serde_json::Value::Null,
        Parts::Bool(b) => serde_json::Value::Bool(b),
        Parts::Number(n) => serde_json::Value::Number(n),
        Parts::Text(t) => serde_json::Value::String(t),
        Parts::Array(a) => serde_json::Value::Array(a),
        Parts::Object(f) => serde_json::Value::Object(f.into_iter().collect()),
    }
}

/// The clone of a `serde_json::Number` is the same number.
pub assume_specification[ <serde_json::Number as Clone>::clone ](n: &serde_json::Number) -> (r:
    serde_json::Number)
    ensures
        r == *n,
;

// ─── Reading and writing ──────────────────────────────────────────────────────

proof fn lemma_proper_item(items: Seq<JsonTree>, k: int)
    requires
        is_proper(JsonTree::Array(items)),
        0 <= k < items.len(),
    ensures
        is_proper(items[k]),
{
    let t = JsonTree::Array(items);
    assert(t->Array_0[k] == items[k]);
    assert(is_proper(t->Array_0[k]));
}

proof fn lemma_item_below(t: JsonTree, i: int)
    requires
        t is Array,
        0 <= i < t->Array_0.len(),
    ensures
        decreases_to!(t => t->Array_0[i]),
{
    assert(decreases_to!(t => t->Array_0));
    assert(decreases_to!(t->Array_0 => t->Array_0[i]));
}

proof fn lemma_field_below(t: JsonTree, i: int)
    requires
        t is Object,
        0 <= i < t->Object_0.len(),
    ensures
        decreases_to!(t => t->Object_0[i].1),
{
    assert(decreases_to!(t => t->Object_0));
    assert(decreases_to!(t->Object_0 => t->Object_0[i]));
    assert(decreases_to!(t->Object_0[i] => t->Object_0[i].1));
}

/// The document that a value holds.
fn json_from_value(v: &serde_json::Value) -> (r: Json)
    ensures
        r@ == value_tree(*v),
    decreases value_tree(*v),
{
    match open_value(v) {
        Opened::Null => Json::Null,
        Opened::Bool(b) => Json::Bool(b),
        Opened::Number(n) => Json::Number(n.clone()),
        Opened::Text(t) => Json::Text(t.clone()),
        Opened::Array(a) => {
            let ghost whole = value_trees(a@);
            let mut out: Vec<Json> = Vec::new();
            let mut i: usize = 0;
            while i < a.len()
                invariant
                    i == out@.len(),
                    i <= a@.len(),
                    whole == value_trees(a@),
                    value_tree(*v) == JsonTree::Array(whole),
                    forall|k: int| 0 <= k < i ==> (#[trigger] out@[k])@ == whole[k],
                decreases a@.len() - i,
            {
                assert(value_tree(a@[i as int]) == whole[i as int]);
                proof {
                    lemma_item_below(value_tree(*v), i as int);
                }
                out.push(json_from_value(&a[i]));
                i = i + 1;
            }
            proof {
                lemma_array_view(out);
                assert(json_trees(out@) =~= whole);
            }
            Json::Array(out)
        },
        Opened::Object(f) => {
            let ghost whole = Seq::new(f@.len(), |i: int| (f@[i].0@, value_tree(*f@[i].1)));
            let mut out: Vec<(String, Json)> = Vec::new();
            let mut i: usize = 0;
            while i < f.len()
                invariant
                    i == out@.len(),
                    i <= f@.len(),
                    whole == Seq::new(f@.len(), |i: int| (f@[i].0@, value_tree(*f@[i].1))),
                    value_tree(*v) == JsonTree::Object(whole),
                    forall|k: int|
                        0 <= k < i ==> ((#[trigger] out@[k]).0@, out@[k].1@) == whole[k],
                decreases f@.len() - i,
            {
                let (key, value) = f[i];
                assert(whole[i as int] == (key@, value_tree(*value)));
                proof {
                    lemma_field_below(value_tree(*v), i as int);
                }
                out.push((key.clone(), json_from_value(value)));
                i = i + 1;
            }
            proof {
                lemma_object_view(out);
                assert(field_trees(out@) =~= whole);
            }
            Json::Object(out)
        },
    }
}

/// A value that holds the document.
fn json_to_value(j: &Json) -> (r: serde_json::Value)
    requires
        is_proper(j@),
    ensures
        value_tree(r) == j@,
    decreases j,
{
    match j {
        Json::Null => close_value(Parts::Null),
        Json::Bool(b) => close_value(Parts::Bool(*b)),
        Json::Number(n) => close_value(Parts::Number(n.clone())),
        Json::Text(t) => close_value(Parts::Text(t.clone())),
        Json::Array(a) => {
            proof {
                lemma_array_view(*a);
                let items = json_trees(a@);
                assert forall|k: int| 0 <= k < a@.len() implies is_proper((#[trigger] a@[k])@) by {
                    lemma_proper_item(items, k);
                }
            }
            let mut out: Vec<serde_json::Value> = Vec::new();
            let mut i: usize = 0;
            while i < a.len()
                invariant
                    i == out@.len(),
                    i <= a@.len(),
                    j == Json::Array(*a),
                    forall|k: int| 0 <= k < a@.len() ==> is_proper((#[trigger] a@[k])@),
                    forall|k: int| 0 <= k < i ==> value_tree(#[trigger] out@[k]) == a@[k]@,
                decreases a@.len() - i,
            {
                assert(decreases_to!(*j => j->Array_0));
                out.push(json_to_value(&a[i]));
                i = i + 1;
            }
            assert(value_trees(out@) =~= json_trees(a@));
            close_value(Parts::Array(out))
        },
        Json::Object(f) => {
            proof {
                lemma_object_view(*f);
            }
            let mut out: Vec<(String, serde_json::Value)> = Vec::new();
            let mut i: usize = 0;
            while i < f.len()
                invariant
                    i == out@.len(),
                    i <= f@.len(),
                    j == Json::Object(*f),
                    j@ == JsonTree::Object(field_trees(f@)),
                    is_proper(j@),
                    forall|k: int|
                        0 <= k < i ==> (#[trigger] out@[k]).0@ == f@[k].0@ && value_tree(out@[k].1)
                            == f@[k].1@,
                decreases f@.len() - i,
            {
                assert(field_trees(f@)[i as int] == (f@[i as int].0@, f@[i as int].1@));
                let value = json_to_value(&f[i].1);
                out.push((f[i].0.clone(), value));
                i = i + 1;
            }
            assert(part_trees(out@) =~= field_trees(f@));
            close_value(Parts::Object(out))
        },
    }
}

/// Reads a text as a JSON document.
pub fn parse_json(text: &str) -> (r: Result<Json, JsonError>)
    ensures
        r matches Ok(j) ==> json_document(text@) == Some(j@) && is_within(j@, 127) && is_proper(
            j@,
        ),
        r is Err <==> json_document(text@) is None,
        is_short_decimal(text@) ==> (r matches Ok(j) && j@ is Number),
{
    match parse_value(text) {
        Ok(v) => Ok(json_from_value(&v)),
        Err(_) => Err(JsonError),
    }
}

/// The number that a decimal stands for.
pub open spec fn decimal_number(text: Seq<char>) -> serde_json::Number {
    json_document(text)->0->Number_0
}

/// The number that a short decimal stands for.
pub fn number_from(text: &str) -> (r: serde_json::Number)
    requires
        is_short_decimal(text@),
    ensures
        r == decimal_number(text@),
{
    match parse_json(text) {
        Ok(Json::Number(n)) => n,
        _ => vstd::pervasive::unreached(),
    }
}

/// Writes a document, indented.
pub fn pretty_json(j: &Json) -> (r: String)
    requires
        is_proper(j@),
    ensures
        r@ == pretty_text(j@),
        is_within(j@, 127) ==> json_document(r@) == Some(j@),
        is_within(j@, 127) ==> json_document(r@.push('\n')) == Some(j@),
{
    write_value(&json_to_value(j))
}

// ─── Looking things up ────────────────────────────────────────────────────────

/// The position of the first field with the key.
pub open spec fn key_at(fields: Seq<(Seq<char>, JsonTree)>, key: Seq<char>) -> Option<int>
    decreases fields.len(),
{
    if fields.len() == 0 {
        None
    } else {
        match key_at(fields.drop_last(), key) {
            Some(i) => Some(i),
            None => if fields.last().0 == key {
                Some(fields.len() - 1)
            } else {
                None
            },
        }
    }
}

/// The fields with the one called `key` set to `value`: replaced where it stands, or
/// added at the end.
pub open spec fn with_field(
    fields: Seq<(Seq<char>, JsonTree)>,
    key: Seq<char>,
    value: JsonTree,
) -> Seq<(Seq<char>, JsonTree)> {
    match key_at(fields, key) {
        Some(i) => fields.update(i, (key, value)),
        None => fields.push((key, value)),
    }
}

impl JsonTree {
    /// The fields of an object; anything else has none.
    pub open spec fn fields(self) -> Seq<(Seq<char>, JsonTree)> {
        match self {
            JsonTree::Object(f) => f,
            _ => Seq::empty(),
        }
    }

    /// The field with the key.
    pub open spec fn get(self, key: Seq<char>) -> Option<JsonTree> {
        match key_at(self.fields(), key) {
            Some(i) => Some(self.fields()[i].1),
            None => None,
        }
    }

    /// The text that this is.
    pub open spec fn text(self) -> Option<Seq<char>> {
        match self {
            JsonTree::Text(t) => Some(t),
            _ => None,
        }
    }

    /// The number that this is.
    pub open spec fn number(self) -> Option<serde_json::Number> {
        match self {
            JsonTree::Number(n) => Some(n),
            _ => None,
        }
    }

    /// The items of a list.
    pub open spec fn items(self) -> Option<Seq<JsonTree>> {
        match self {
            JsonTree::Array(items) => Some(items),
            _ => None,
        }
    }

    /// The text in the field with the key.
    pub open spec fn get_text(self, key: Seq<char>) -> Option<Seq<char>> {
        match self.get(key) {
            Some(v) => v.text(),
            None => None,
        }
    }

    /// The items of the list in the field with the key.
    pub open spec fn get_items(self, key: Seq<char>) -> Option<Seq<JsonTree>> {
        match self.get(key) {
            Some(v) => v.items(),
            None => None,
        }
    }

    /// The number in the field with the key, as a float.
    pub open spec fn get_float(self, key: Seq<char>) -> Option<serde_json::Number> {
        match self.get(key) {
            Some(JsonTree::Number(n)) => Some(float_number(n)),
            _ => None,
        }
    }

    /// The unsigned integer in the field with the key.
    pub open spec fn get_unsigned(self, key: Seq<char>) -> Option<u64> {
        match self.get(key) {
            Some(JsonTree::Number(n)) => unsigned_number(n),
            _ => None,
        }
    }
}

/// The number as a float.
pub uninterp spec fn float_number(n: serde_json::Number) -> serde_json::Number;

/// `serde_json::Number::as_f64` gives every number as a float, which
/// `serde_json::Number::from_f64` makes a number again. Which float it is depends on
/// the number alone.
#[verifier::external_body]
fn as_float(n: &serde_json::Number) -> (r: serde_json::Number)
    ensures
        r == float_number(*n),
{
    serde_json::Number::from_f64(n.as_f64().unwrap()).unwrap()
}

/// How a float is written in decimal.
pub uninterp spec fn float_text(n: serde_json::Number) -> Seq<char>;

/// `serde_json::Number::as_f64` gives every number as a float, which `format!` writes
/// in decimal. What is written depends on the number alone.
#[verifier::external_body]
pub(crate) fn write_float(n: &serde_json::Number) -> (r: String)
    ensures
        r@ == float_text(*n),
{
    format!("{}", n.as_f64().unwrap())
}

/// The number as an unsigned integer, where it is one.
pub uninterp spec fn unsigned_number(n: serde_json::Number) -> Option<u64>;

/// `serde_json::Number::as_u64` gives the integers that are not negative and fit.
#[verifier::external_body]
fn as_unsigned(n: &serde_json::Number) -> (r: Option<u64>)
    ensures
        r == unsigned_number(*n),
{
    n.as_u64()
}

/// A field is found where it was last seen to be, and nowhere before.
pub proof fn lemma_key_at(fields: Seq<(Seq<char>, JsonTree)>, key: Seq<char>)
    ensures
        match key_at(fields, key) {
            Some(i) => 0 <= i < fields.len() && fields[i].0 == key && forall|k: int|
                0 <= k < i ==> (#[trigger] fields[k]).0 != key,
            None => forall|k: int| 0 <= k < fields.len() ==> (#[trigger] fields[k]).0 != key,
        },
    decreases fields.len(),
{
    if fields.len() > 0 {
        let before = fields.drop_last();
        lemma_key_at(before, key);
        match key_at(before, key) {
            Some(i) => {
                assert forall|k: int| 0 <= k < i implies (#[trigger] fields[k]).0 != key by {
                    assert(before[k] == fields[k]);
                }
            },
            None => {
                assert forall|k: int| 0 <= k < fields.len() - 1 implies (#[trigger] fields[k]).0
                    != key by {
                    assert(before[k] == fields[k]);
                }
            },
        }
    }
}

/// The first field with a key is the one at which the key is found.
pub proof fn lemma_found_key(fields: Seq<(Seq<char>, JsonTree)>, key: Seq<char>, i: int)
    requires
        0 <= i < fields.len(),
        fields[i].0 == key,
        forall|k: int| 0 <= k < i ==> (#[trigger] fields[k]).0 != key,
    ensures
        key_at(fields, key) == Some(i),
{
    lemma_key_at(fields, key);
    if let Some(j) = key_at(fields, key) {
        if j < i {
            assert(fields[j].0 != key);
        } else if i < j {
            assert(fields[i].0 != key);
        }
    }
}

/// Where a key is in a list of fields.
fn find_key(fields: &Vec<(String, Json)>, key: &str) -> (r: Option<usize>)
    ensures
        match r {
            Some(i) => key_at(field_trees(fields@), key@) == Some(i as int) && i < fields@.len(),
            None => key_at(field_trees(fields@), key@) is None,
        },
{
    let ghost all = field_trees(fields@);
    let mut i: usize = 0;
    while i < fields.len()
        invariant
            i <= fields@.len(),
            all == field_trees(fields@),
            forall|k: int| 0 <= k < i ==> (#[trigger] all[k]).0 != key@,
        decreases fields@.len() - i,
    {
        assert(all[i as int].0 == fields@[i as int].0@);
        if same_text(fields[i].0.as_str(), key) {
            proof {
                lemma_found_key(all, key@, i as int);
            }
            return Some(i);
        }
        i = i + 1;
    }
    proof {
        lemma_key_at(all, key@);
    }
    None
}

impl Json {
    /// The field with the key.
    pub fn get(&self, key: &str) -> (r: Option<&Json>)
        ensures
            match r {
                Some(j) => self@.get(key@) == Some(j@),
                None => self@.get(key@) is None,
            },
    {
        match self {
            Json::Object(fields) => {
                proof {
                    lemma_object_view(*fields);
                }
                match find_key(fields, key) {
                    Some(i) => Some(&fields[i].1),
                    None => None,
                }
            },
            _ => None,
        }
    }

    /// The text that this is.
    pub fn as_str(&self) -> (r: Option<&str>)
        ensures
            match r {
                Some(t) => self@.text() == Some(t@),
                None => self@.text() is None,
            },
    {
        match self {
            Json::Text(t) => Some(t.as_str()),
            _ => None,
        }
    }

    /// The items of a list.
    pub fn as_array(&self) -> (r: Option<&Vec<Json>>)
        ensures
            match r {
                Some(v) => self@.items() == Some(json_trees(v@)),
                None => self@.items() is None,
            },
    {
        match self {
            Json::Array(v) => {
                proof {
                    lemma_array_view(*v);
                }
                Some(v)
            },
            _ => None,
        }
    }

    /// The text in the field with the key.
    pub fn get_str(&self, key: &str) -> (r: Option<&str>)
        ensures
            match r {
                Some(t) => self@.get_text(key@) == Some(t@),
                None => self@.get_text(key@) is None,
            },
    {
        match self.get(key) {
            Some(v) => v.as_str(),
            None => None,
        }
    }

    /// The items of the list in the field with the key.
    pub fn get_array(&self, key: &str) -> (r: Option<&Vec<Json>>)
        ensures
            match r {
                Some(v) => self@.get_items(key@) == Some(json_trees(v@)),
                None => self@.get_items(key@) is None,
            },
    {
        match self.get(key) {
            Some(v) => v.as_array(),
            None => None,
        }
    }

    /// The number in the field with the key, as a float.
    pub fn get_float(&self, key: &str) -> (r: Option<serde_json::Number>)
        ensures
            r == self@.get_float(key@),
    {
        match self.get(key) {
            Some(Json::Number(n)) => Some(as_float(n)),
            _ => None,
        }
    }

    /// The unsigned integer in the field with the key.
    pub fn get_unsigned(&self, key: &str) -> (r: Option<u64>)
        ensures
            r == self@.get_unsigned(key@),
    {
        match self.get(key) {
            Some(Json::Number(n)) => as_unsigned(n),
            _ => None,
        }
    }

    /// The same document once more.
    pub fn copy(&self) -> (r: Json)
        ensures
            r@ == self@,
        decreases self,
    {
        match self {
            Json::Null => Json::Null,
            Json::Bool(b) => Json::Bool(*b),
            Json::Number(n) => Json::Number(n.clone()),
            Json::Text(t) => Json::Text(t.clone()),
            Json::Array(a) => {
                let mut out: Vec<Json> = Vec::new();
                let mut i: usize = 0;
                while i < a.len()
                    invariant
                        i == out@.len(),
                        i <= a@.len(),
                        self == Json::Array(*a),
                        forall|k: int| 0 <= k < i ==> (#[trigger] out@[k])@ == a@[k]@,
                    decreases a@.len() - i,
                {
                    assert(decreases_to!(*self => self->Array_0));
                    out.push(a[i].copy());
                    i = i + 1;
                }
                proof {
                    lemma_array_view(*a);
                    lemma_array_view(out);
                    assert(json_trees(out@) =~= json_trees(a@));
                }
                Json::Array(out)
            },
            Json::Object(f) => {
                let mut out: Vec<(String, Json)> = Vec::new();
                let mut i: usize = 0;
                while i < f.len()
                    invariant
                        i == out@.len(),
                        i <= f@.len(),
                        self == Json::Object(*f),
                        forall|k: int|
                            0 <= k < i ==> (#[trigger] out@[k]).0@ == f@[k].0@ && out@[k].1@
                                == f@[k].1@,
                    decreases f@.len() - i,
                {
                    assert(decreases_to!(*self => self->Object_0));
                    let value = f[i].1.copy();
                    out.push((f[i].0.clone(), value));
                    i = i + 1;
                }
                proof {
                    lemma_object_view(*f);
                    lemma_object_view(out);
                    assert(field_trees(out@) =~= field_trees(f@));
                }
                Json::Object(out)
            },
        }
    }
}

/// Sets a field: in its place where the key is used already, at the end otherwise.
pub fn set_field(fields: &mut Vec<(String, Json)>, key: &str, value: Json)
    ensures
        field_trees(final(fields)@) == with_field(field_trees(old(fields)@), key@, value@),
{
    match find_key(fields, key) {
        Some(i) => {
            let ghost before = fields@;
            fields.set(i, (key.to_owned(), value));
            assert(field_trees(fields@) =~= field_trees(before).update(i as int, (key@, value@)));
        },
        None => {
            let ghost before = fields@;
            fields.push((key.to_owned(), value));
            assert(field_trees(fields@) =~= field_trees(before).push((key@, value@)));
        },
    }
}

// ─── Laws ─────────────────────────────────────────────────────────────────────

/// The field with a key is the first one that has it; where none has, or in anything but an
/// object, there is none.
pub proof fn law_first_field_is_found(
    fields: Seq<(Seq<char>, JsonTree)>,
    key: Seq<char>,
    t: JsonTree,
    i: int,
)
    requires
        0 <= i <= fields.len(),
        forall|k: int| 0 <= k < i ==> (#[trigger] fields[k]).0 != key,
        i < fields.len() ==> fields[i].0 == key,
    ensures
        i < fields.len() ==> JsonTree::Object(fields).get(key) == Some(fields[i].1),
        i == fields.len() ==> JsonTree::Object(fields).get(key) is None,
        !(t is Object) ==> t.get(key) is None,
{
    if i < fields.len() {
        lemma_found_key(fields, key, i);
    } else {
        lemma_key_at(fields, key);
    }
    lemma_key_at(t.fields(), key);
}

/// What is looked up as a text, as a list or as a number is one.
pub proof fn law_kinds_of_fields(t: JsonTree, key: Seq<char>)
    ensures
        t.get(key) matches Some(JsonTree::Text(x)) ==> t.get_text(key) == Some(x),
        !(t.get(key) matches Some(JsonTree::Text(_))) ==> t.get_text(key) is None,
        t.get(key) matches Some(JsonTree::Array(v)) ==> t.get_items(key) == Some(v),
        !(t.get(key) matches Some(JsonTree::Array(_))) ==> t.get_items(key) is None,
        t.get(key) matches Some(JsonTree::Number(n)) ==> t.get_float(key) == Some(float_number(n))
            && t.get_unsigned(key) == unsigned_number(n),
        !(t.get(key) matches Some(JsonTree::Number(_))) ==> t.get_float(key) is None
            && t.get_unsigned(key) is None,
{
}

/// A field that is set is read back, every other field keeps its value, and every field its
/// place; a key that was not used comes last.
pub proof fn law_set_field_reads_back(
    fields: Seq<(Seq<char>, JsonTree)>,
    key: Seq<char>,
    value: JsonTree,
    other: Seq<char>,
)
    ensures
        JsonTree::Object(with_field(fields, key, value)).get(key) == Some(value),
        other != key ==> JsonTree::Object(with_field(fields, key, value)).get(other)
            == JsonTree::Object(fields).get(other),
        forall|i: int|
            0 <= i < fields.len() ==> (#[trigger] with_field(fields, key, value)[i]).0
                == fields[i].0,
        with_field(fields, key, value).len() == fields.len() + (if JsonTree::Object(fields).get(
            key,
        ) is Some {
            0int
        } else {
            1
        }),
{
    let after = with_field(fields, key, value);
    lemma_key_at(fields, key);
    let at = match key_at(fields, key) {
        Some(i) => i,
        None => fields.len() as int,
    };
    assert forall|k: int| 0 <= k < at implies (#[trigger] after[k]).0 != key by {
        assert(after[k] == fields[k]);
    }
    lemma_found_key(after, key, at);
    if other != key {
        lemma_key_at(fields, other);
        match key_at(fields, other) {
            Some(j) => {
                assert forall|k: int| 0 <= k < j implies (#[trigger] after[k]).0 != other by {
                    assert(fields[k].0 != other);
                }
                assert(after[j] == fields[j]);
                lemma_found_key(after, other, j);
            },
            None => {
                assert forall|k: int| 0 <= k < after.len() implies (#[trigger] after[k]).0
                    != other by {
                    if k < fields.len() {
                        assert(fields[k].0 != other);
                    }
                }
                lemma_key_at(after, other);
                if let Some(j) = key_at(after, other) {
                    assert(after[j].0 == other);
                }
            },
        }
    }
}

} // verus!
