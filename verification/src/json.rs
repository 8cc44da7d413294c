//! JSON documents as plain values.
use crate::double::Double;
use crate::text::same_text;
use vstd::prelude::*;

verus! {

/// A number of a JSON document.
#[derive(Debug, Clone, Copy, PartialEq, Eq, Structural)]
pub enum JsonNumber {
    /// A whole number of at least zero.
    Unsigned(u64),
    /// A whole number below zero.
    Negative(i64),
    /// Any other number.
    Real(Double),
}

/// A JSON document.
#[derive(Debug)]
pub enum Json {
    Null,
    Bool(bool),
    Number(JsonNumber),
    Text(String),
    List(Vec<Json>),
    Record(Vec<(String, Json)>),
}

/// What a JSON document says.
pub enum JsonView {
    Null,
    Bool(bool),
    Number(JsonNumber),
    Text(Seq<char>),
    List(Seq<JsonView>),
    Record(Seq<(Seq<char>, JsonView)>),
}

impl Json {
    /// What the document says.
    pub open spec fn model(self) -> JsonView
        decreases self,
    {
        match self {
            Json::Null => JsonView::Null,
            Json::Bool(b) => JsonView::Bool(b),
            Json::Number(n) => JsonView::Number(n),
            Json::Text(s) => JsonView::Text(s@),
            Json::List(items) => JsonView::List(
                Seq::new(
                    items@.len(),
                    |i: int|
                        if 0 <= i < items@.len() {
                            items[i].model()
                        } else {
                            JsonView::Null
                        },
                ),
            ),
            Json::Record(fields) => JsonView::Record(
                Seq::new(
                    fields@.len(),
                    |i: int|
                        if 0 <= i < fields@.len() {
                            (fields[i].0@, fields[i].1.model())
                        } else {
                            (Seq::<char>::empty(), JsonView::Null)
                        },
                ),
            ),
        }
    }
}

impl View for Json {
    type V = JsonView;

    open spec fn view(&self) -> JsonView {
        self.model()
    }
}

/// The place at which a field of the given name stands first.
pub open spec fn first_field(fields: Seq<(Seq<char>, JsonView)>, name: Seq<char>, i: int) -> bool {
    &&& 0 <= i < fields.len()
    &&& fields[i].0 == name
    &&& forall|k: int| 0 <= k < i ==> (#[trigger] fields[k]).0 != name
}

impl JsonView {
    /// The value of a field, where the document is a record that has it.
    pub open spec fn field(self, name: Seq<char>) -> Option<JsonView> {
        match self {
            JsonView::Record(fields) => if exists|i: int| first_field(fields, name, i) {
                Some(fields[choose|i: int| first_field(fields, name, i)].1)
            } else {
                None
            },
            _ => None,
        }
    }

    /// The text that the document is, where it is one.
    pub open spec fn text(self) -> Option<Seq<char>> {
        match self {
            JsonView::Text(s) => Some(s),
            _ => None,
        }
    }

    /// The items of the list that the document is, where it is one.
    pub open spec fn list(self) -> Option<Seq<JsonView>> {
        match self {
            JsonView::List(items) => Some(items),
            _ => None,
        }
    }

    /// The truth value that the document is, where it is one.
    pub open spec fn bool(self) -> Option<bool> {
        match self {
            JsonView::Bool(b) => Some(b),
            _ => None,
        }
    }

    /// The whole number of at least zero that the document is, where it is one.
    pub open spec fn unsigned(self) -> Option<u64> {
        match self {
            JsonView::Number(JsonNumber::Unsigned(n)) => Some(n),
            _ => None,
        }
    }

    /// The number that the document is, in double precision, where it is one.
    pub open spec fn double(self) -> Option<Double> {
        match self {
            JsonView::Number(JsonNumber::Unsigned(n)) => Some(double_of_integer(n as int)),
            JsonView::Number(JsonNumber::Negative(n)) => Some(double_of_integer(n as int)),
            JsonView::Number(JsonNumber::Real(d)) => Some(d),
            _ => None,
        }
    }

    /// The text of a field, where the document is a record with a text under that name.
    pub open spec fn field_text(self, name: Seq<char>) -> Option<Seq<char>> {
        match self.field(name) {
            Some(value) => value.text(),
            None => None,
        }
    }

    /// The items of a field, where the document is a record with a list under that name.
    pub open spec fn field_list(self, name: Seq<char>) -> Option<Seq<JsonView>> {
        match self.field(name) {
            Some(value) => value.list(),
            None => None,
        }
    }
}

/// The field at a known place is the one that is found under its name, where no earlier field has
/// that name.
pub proof fn lemma_field_at(fields: Seq<(Seq<char>, JsonView)>, i: int)
    requires
        first_field(fields, fields[i].0, i),
    ensures
        JsonView::Record(fields).field(fields[i].0) == Some(fields[i].1),
{
    let name = fields[i].0;
    let j = choose|j: int| first_field(fields, name, j);
    if i < j {
        assert(fields[i].0 != name);
    } else if j < i {
        assert(fields[j].0 != name);
    }
}

/// A part of a document is smaller than the document.
pub proof fn lemma_field_decreases(value: JsonView, name: Seq<char>)
    ensures
        value.field(name) matches Some(part) ==> decreases_to!(value => part),
        value.field_list(name) matches Some(items) ==> decreases_to!(value => items),
{
    if let Some(part) = value.field(name) {
        let fields = value->Record_0;
        let i = choose|i: int| first_field(fields, name, i);
        assert(decreases_to!(value => value->Record_0));
        assert(decreases_to!(value->Record_0 => value->Record_0[i]));
        assert(decreases_to!(value->Record_0[i] => value->Record_0[i].1));
        assert(part == value->Record_0[i].1);
        if let Some(items) = part.list() {
            assert(decreases_to!(part => part->List_0));
        }
    }
}

/// Documents that say the same, whatever the order of their fields and however exactly their real
/// numbers were kept.
pub open spec fn same_document(a: JsonView, b: JsonView) -> bool
    decreases a,
{
    proof {
        assert forall|name: Seq<char>| (#[trigger] a.field(name)) is Some implies decreases_to!(
            a => a.field(name)->0
        ) by {
            lemma_field_decreases(a, name);
        }
    }
    match (a, b) {
        (JsonView::List(x), JsonView::List(y)) => x.len() == y.len() && forall|i: int|
            0 <= i < x.len() ==> same_document(#[trigger] x[i], y[i]),
        (JsonView::Record(_), JsonView::Record(_)) => forall|name: Seq<char>|
            match #[trigger] a.field(name) {
                Some(part) => b.field(name) matches Some(other) && same_document(part, other),
                None => b.field(name) is None,
            },
        (JsonView::List(_), _) => false,
        (_, JsonView::List(_)) => false,
        (JsonView::Record(_), _) => false,
        (_, JsonView::Record(_)) => false,
        (JsonView::Number(JsonNumber::Real(_)), JsonView::Number(JsonNumber::Real(_))) => true,
        _ => a == b,
    }
}

/// Documents that say the same, real numbers included, whatever the order of their fields.
pub open spec fn equal_document(a: JsonView, b: JsonView) -> bool
    decreases a,
{
    proof {
        assert forall|name: Seq<char>| (#[trigger] a.field(name)) is Some implies decreases_to!(
            a => a.field(name)->0
        ) by {
            lemma_field_decreases(a, name);
        }
    }
    match (a, b) {
        (JsonView::List(x), JsonView::List(y)) => x.len() == y.len() && forall|i: int|
            0 <= i < x.len() ==> equal_document(#[trigger] x[i], y[i]),
        (JsonView::Record(_), JsonView::Record(_)) => forall|name: Seq<char>|
            match #[trigger] a.field(name) {
                Some(part) => b.field(name) matches Some(other) && equal_document(part, other),
                None => b.field(name) is None,
            },
        (JsonView::List(_), _) => false,
        (_, JsonView::List(_)) => false,
        (JsonView::Record(_), _) => false,
        (_, JsonView::Record(_)) => false,
        _ => a == b,
    }
}

/// Documents that say the same with their real numbers say the same without them.
pub proof fn lemma_equal_is_same(a: JsonView, b: JsonView)
    requires
        equal_document(a, b),
    ensures
        same_document(a, b),
    decreases a,
{
    match (a, b) {
        (JsonView::List(x), JsonView::List(y)) => {
            assert forall|i: int| 0 <= i < x.len() implies same_document(#[trigger] x[i], y[i]) by {
                assert(decreases_to!(a => a->List_0));
                assert(decreases_to!(a->List_0 => a->List_0[i]));
                lemma_equal_is_same(x[i], y[i]);
            }
        },
        (JsonView::Record(_), JsonView::Record(_)) => {
            assert forall|name: Seq<char>|
                match #[trigger] a.field(name) {
                    Some(part) => b.field(name) matches Some(other) && same_document(part, other),
                    None => b.field(name) is None,
                } by {
                if let Some(part) = a.field(name) {
                    lemma_field_decreases(a, name);
                    lemma_equal_is_same(part, b.field(name)->0);
                }
            }
        },
        _ => {},
    }
}

/// The views of a row of documents.
pub open spec fn json_views(items: Seq<Json>) -> Seq<JsonView> {
    items.map_values(|item: Json| item@)
}

/// The views of the fields of a record.
pub open spec fn field_views(fields: Seq<(String, Json)>) -> Seq<(Seq<char>, JsonView)> {
    fields.map_values(|field: (String, Json)| (field.0@, field.1@))
}

impl Json {
    /// The value of a field, where the document is a record that has it.
    pub fn get(&self, name: &str) -> (value: Option<&Json>)
        ensures
            value is Some <==> self@.field(name@) is Some,
            value matches Some(v) ==> self@.field(name@) == Some(v@),
    {
        if let Json::Record(fields) = self {
            let ghost views = self@->Record_0;
            let mut i: usize = 0;
            while i < fields.len()
                invariant
                    self is Record,
                    *fields == self->Record_0,
                    views == self@->Record_0,
                    self@ is Record,
                    0 <= i <= fields@.len(),
                    views.len() == fields@.len(),
                    forall|k: int| 0 <= k < i ==> (#[trigger] views[k]).0 != name@,
                decreases fields@.len() - i,
            {
                assert(views[i as int] == (fields@[i as int].0@, fields@[i as int].1@));
                if same_text(fields[i].0.as_str(), name) {
                    proof {
                        assert(first_field(views, name@, i as int));
                        lemma_field_at(views, i as int);
                    }
                    return Some(&fields[i].1);
                }
                i = i + 1;
            }
            proof {
                assert forall|k: int| !first_field(views, name@, k) by {
                    if first_field(views, name@, k) {
                        assert(views[k].0 != name@);
                    }
                }
            }
            None
        } else {
            None
        }
    }

    /// The text that the document is, where it is one.
    pub fn as_text(&self) -> (text: Option<&String>)
        ensures
            text is Some <==> self@.text() is Some,
            text matches Some(t) ==> self@.text() == Some(t@),
    {
        match self {
            Json::Text(s) => Some(s),
            _ => None,
        }
    }

    /// The items of the list that the document is, where it is one.
    pub fn as_list(&self) -> (items: Option<&Vec<Json>>)
        ensures
            items is Some <==> self@.list() is Some,
            items matches Some(v) ==> self@.list() == Some(json_views(v@)),
    {
        match self {
            Json::List(items) => {
                proof {
                    assert(self@->List_0 =~= json_views(items@));
                }
                Some(items)
            },
            _ => None,
        }
    }

    /// The truth value that the document is, where it is one.
    pub fn as_bool(&self) -> (b: Option<bool>)
        ensures
            b == self@.bool(),
    {
        match self {
            Json::Bool(b) => Some(*b),
            _ => None,
        }
    }

    /// The whole number of at least zero that the document is, where it is one.
    pub fn as_unsigned(&self) -> (n: Option<u64>)
        ensures
            n == self@.unsigned(),
    {
        match self {
            Json::Number(JsonNumber::Unsigned(n)) => Some(*n),
            _ => None,
        }
    }

    /// The number that the document is, in double precision, where it is one.
    pub fn as_double(&self) -> (d: Option<Double>)
        ensures
            d == self@.double(),
    {
        match self {
            Json::Number(JsonNumber::Unsigned(n)) => integer_double(*n as i128),
            Json::Number(JsonNumber::Negative(n)) => integer_double(*n as i128),
            Json::Number(JsonNumber::Real(d)) => Some(*d),
            _ => None,
        }
    }

    /// The text of a field, where the document is a record with a text under that name.
    pub fn get_text(&self, name: &str) -> (text: Option<&String>)
        ensures
            text is Some <==> self@.field_text(name@) is Some,
            text matches Some(t) ==> self@.field_text(name@) == Some(t@),
    {
        match self.get(name) {
            Some(value) => value.as_text(),
            None => None,
        }
    }

    /// The items of a field, where the document is a record with a list under that name.
    pub fn get_list(&self, name: &str) -> (items: Option<&Vec<Json>>)
        ensures
            items is Some <==> self@.field_list(name@) is Some,
            items matches Some(v) ==> self@.field_list(name@) == Some(json_views(v@)),
    {
        match self.get(name) {
            Some(value) => value.as_list(),
            None => None,
        }
    }

    /// A text as a document.
    pub fn text(text: &str) -> (json: Json)
        ensures
            json@ == JsonView::Text(text@),
    {
        Json::Text(text.to_owned())
    }

    /// A whole number as a document.
    pub fn unsigned(n: u64) -> (json: Json)
        ensures
            json@ == JsonView::Number(JsonNumber::Unsigned(n)),
    {
        Json::Number(JsonNumber::Unsigned(n))
    }

    /// A double precision number as a document.
    pub fn number(d: Double) -> (json: Json)
        ensures
            json@ == JsonView::Number(JsonNumber::Real(d)),
    {
        Json::Number(JsonNumber::Real(d))
    }

    /// A list as a document.
    pub fn list(items: Vec<Json>) -> (json: Json)
        ensures
            json@ == JsonView::List(json_views(items@)),
    {
        let json = Json::List(items);
        proof {
            assert(json@->List_0 =~= json_views(items@));
        }
        json
    }

    /// A record as a document.
    pub fn record(fields: Vec<(String, Json)>) -> (json: Json)
        ensures
            json@ == JsonView::Record(field_views(fields@)),
    {
        let json = Json::Record(fields);
        proof {
            assert(json@->Record_0 =~= field_views(fields@));
        }
        json
    }
}

/// Adds a field to a record in the making.
pub fn put(fields: &mut Vec<(String, Json)>, name: &str, value: Json)
    ensures
        field_views(final(fields)@) == field_views(old(fields)@).push((name@, value@)),
{
    fields.push((name.to_owned(), value));
    assert(field_views(fields@) =~= field_views(old(fields)@).push((name@, value@)));
}

/// A document as `serde_json` holds it.
#[verifier::external_type_specification]
#[verifier::external_body]
pub struct ExValue(serde_json::Value);

/// What `serde_json` reports of a text that is no JSON.
#[verifier::external_type_specification]
#[verifier::external_body]
pub struct ExError(serde_json::Error);

/// What a document of `serde_json` says.
pub uninterp spec fn value_view(value: serde_json::Value) -> JsonView;

/// What an error of `serde_json` says.
pub uninterp spec fn error_report(error: serde_json::Error) -> Seq<char>;

/// What `serde_json::from_str` reads in a text: the document, or what it says of a text that is no
/// JSON.
pub uninterp spec fn json_of_text(text: Seq<char>) -> Result<JsonView, Seq<char>>;

/// What `serde_json::from_slice` reads in a row of bytes: the document, or what it says of bytes
/// that are no JSON.
pub uninterp spec fn json_of_bytes(bytes: Seq<u8>) -> Result<JsonView, Seq<char>>;

/// The double precision number that `serde_json::Number::as_f64` makes of a whole number.
pub uninterp spec fn double_of_integer(n: int) -> Double;

/// `serde_json::from_str` into a `serde_json::Value`: the outcome depends on the text alone.
#[verifier::external_body]
fn value_from_text(text: &str) -> (result: Result<serde_json::Value, serde_json::Error>)
    ensures
        match result {
            Ok(value) => json_of_text(text@) == Ok::<JsonView, Seq<char>>(value_view(value)),
            Err(error) => json_of_text(text@) == Err::<JsonView, Seq<char>>(error_report(error)),
        },
{
    serde_json::from_str(text)
}

/// `serde_json::from_slice` into a `serde_json::Value`: the outcome depends on the bytes alone.
#[verifier::external_body]
fn value_from_bytes(bytes: &[u8]) -> (result: Result<serde_json::Value, serde_json::Error>)
    ensures
        match result {
            Ok(value) => json_of_bytes(bytes@) == Ok::<JsonView, Seq<char>>(value_view(value)),
            Err(error) => json_of_bytes(bytes@) == Err::<JsonView, Seq<char>>(error_report(error)),
        },
{
    serde_json::from_slice(bytes)
}

/// `ToString::to_string` of a `serde_json::Error`: what the error says, which depends on the error
/// alone.
#[verifier::external_body]
pub(crate) fn error_text(error: &serde_json::Error) -> (text: String)
    ensures
        text@ == error_report(*error),
{
    error.to_string()
}

/// `serde_json::Number::as_f64` of a whole number in the range that `serde_json::Number` has: it
/// always gives a number, which depends on the whole number alone.
#[verifier::external_body]
fn integer_double(n: i128) -> (d: Option<Double>)
    requires
        i64::MIN <= n <= u64::MAX,
    ensures
        d == Some(double_of_integer(n as int)),
{
    match serde_json::Number::from_i128(n)?.as_f64() {
        Some(x) => Some(Double { bits: x.to_bits() }),
        None => None,
    }
}

/// The top layer of a document of `serde_json`.
enum ValueShape {
    Null,
    Bool(bool),
    Number(JsonNumber),
    Text(String),
    List(Vec<serde_json::Value>),
    Record(Vec<(String, serde_json::Value)>),
}

/// Takes the variants of `serde_json::Value` apart: what the document says is what its top layer
/// says, with the documents inside it in the order in which `serde_json` holds them.
#[verifier::external_body]
fn value_shape(value: serde_json::Value) -> (shape: ValueShape)
    ensures
        match shape {
            ValueShape::Null => value_view(value) == JsonView::Null,
            ValueShape::Bool(b) => value_view(value) == JsonView::Bool(b),
            ValueShape::Number(n) => value_view(value) == JsonView::Number(n),
            ValueShape::Text(s) => value_view(value) == JsonView::Text(s@),
            ValueShape::List(items) => value_view(value) == JsonView::List(
                items@.map_values(|item: serde_json::Value| value_view(item)),
            ),
            ValueShape::Record(fields) => value_view(value) == JsonView::Record(
                fields@.map_values(
                    |field: (String, serde_json::Value)| (field.0@, value_view(field.1)),
                ),
            ),
        },
{
    match value {
        serde_json::Value::Null => ValueShape::Null,
        serde_json::Value::Bool(b) => ValueShape::Bool(b),
        serde_json::Value::Number(n) => ValueShape::Number(match (n.as_u64(), n.as_i64()) {
            (Some(u), _) => JsonNumber::Unsigned(u),
            (None, Some(i)) => JsonNumber::Negative(i),
            (None, None) => JsonNumber::Real(Double { bits: n.as_f64().unwrap_or_default().to_bits() }),
        }),
        serde_json::Value::String(s) => ValueShape::Text(s),
        serde_json::Value::Array(items) => ValueShape::List(items),
        serde_json::Value::Object(fields) => ValueShape::Record(fields.into_iter().collect()),
    }
}

/// The document that `serde_json` holds, as a plain value.
fn json_from_value(value: serde_json::Value) -> (json: Json)
    ensures
        json@ == value_view(value),
    decreases value_view(value),
{
    let ghost whole = value_view(value);
    match value_shape(value) {
        ValueShape::Null => Json::Null,
        ValueShape::Bool(b) => Json::Bool(b),
        ValueShape::Number(n) => Json::Number(n),
        ValueShape::Text(s) => Json::Text(s),
        ValueShape::List(items) => {
            let ghost views = items@.map_values(|item: serde_json::Value| value_view(item));
            let mut result: Vec<Json> = Vec::new();
            for item in it: items
                invariant
                    it.seq() == items@,
                    views == items@.map_values(|item: serde_json::Value| value_view(item)),
                    whole == value_view(value),
                    whole == JsonView::List(views),
                    json_views(result@) == views.take(it.index() as int),
            {
                let ghost i = it.index() as int;
                let ghost before = result@;
                assert(item == items@[i]);
                assert(views[i] == value_view(item));
                assert(decreases_to!(whole => whole->List_0));
                assert(decreases_to!(whole->List_0 => whole->List_0[i]));
                result.push(json_from_value(item));
                assert(json_views(result@) =~= json_views(before).push(views[i]));
                assert(views.take(i + 1) =~= views.take(i).push(views[i]));
            }
            assert(views.take(views.len() as int) == views);
            Json::list(result)
        },
        ValueShape::Record(fields) => {
            let ghost views = fields@.map_values(
                |field: (String, serde_json::Value)| (field.0@, value_view(field.1)),
            );
            let mut result: Vec<(String, Json)> = Vec::new();
            for field in it: fields
                invariant
                    it.seq() == fields@,
                    views == fields@.map_values(
                        |field: (String, serde_json::Value)| (field.0@, value_view(field.1)),
                    ),
                    whole == value_view(value),
                    whole == JsonView::Record(views),
                    field_views(result@) == views.take(it.index() as int),
            {
                let ghost i = it.index() as int;
                let ghost before = result@;
                assert(field == fields@[i]);
                assert(views[i] == (field.0@, value_view(field.1)));
                assert(decreases_to!(whole => whole->Record_0));
                assert(decreases_to!(whole->Record_0 => whole->Record_0[i]));
                assert(decreases_to!(whole->Record_0[i] => whole->Record_0[i].1));
                result.push((field.0, json_from_value(field.1)));
                assert(field_views(result@) =~= field_views(before).push(views[i]));
                assert(views.take(i + 1) =~= views.take(i).push(views[i]));
            }
            assert(views.take(views.len() as int) == views);
            Json::record(result)
        },
    }
}

/// Reads a JSON document from a text.
pub fn parse_json(text: &str) -> (result: Result<Json, serde_json::Error>)
    ensures
        match result {
            Ok(json) => json_of_text(text@) == Ok::<JsonView, Seq<char>>(json@),
            Err(error) => json_of_text(text@) == Err::<JsonView, Seq<char>>(error_report(error)),
        },
{
    match value_from_text(text) {
        Ok(value) => Ok(json_from_value(value)),
        Err(error) => Err(error),
    }
}

/// Reads a JSON document from the bytes of a file.
pub fn parse_json_bytes(bytes: &[u8]) -> (result: Result<Json, serde_json::Error>)
    ensures
        match result {
            Ok(json) => json_of_bytes(bytes@) == Ok::<JsonView, Seq<char>>(json@),
            Err(error) => json_of_bytes(bytes@) == Err::<JsonView, Seq<char>>(error_report(error)),
        },
{
    match value_from_bytes(bytes) {
        Ok(value) => Ok(json_from_value(value)),
        Err(error) => Err(error),
    }
}

/// A field is found under its name: the first that has it, and none where there is none or where
/// the document is no record.
pub proof fn law_field_lookup(fields: Seq<(Seq<char>, JsonView)>, name: Seq<char>, i: int)
    ensures
        0 <= i < fields.len() && fields[i].0 == name && (forall|k: int|
            0 <= k < i ==> (#[trigger] fields[k]).0 != name) ==> JsonView::Record(fields).field(
            name,
        ) == Some(fields[i].1),
        (forall|k: int| 0 <= k < fields.len() ==> (#[trigger] fields[k]).0 != name)
            ==> JsonView::Record(fields).field(name) is None,
{
    if 0 <= i < fields.len() && fields[i].0 == name && (forall|k: int|
        0 <= k < i ==> (#[trigger] fields[k]).0 != name) {
        assert(first_field(fields, fields[i].0, i));
        lemma_field_at(fields, i);
    }
}

/// A document is read as what it is and as nothing else: a text, a list, a truth value, a whole
/// number of at least zero, or any number.
pub proof fn law_documents_are_read_as_they_are(value: JsonView)
    ensures
        match value {
            JsonView::Null => value.text() is None && value.list() is None && value.bool() is None
                && value.unsigned() is None && value.double() is None,
            JsonView::Bool(b) => value.text() is None && value.list() is None && value.bool()
                == Some(b) && value.unsigned() is None && value.double() is None,
            JsonView::Text(s) => value.text() == Some(s) && value.list() is None && value.bool() is
                None && value.unsigned() is None && value.double() is None,
            JsonView::List(items) => value.text() is None && value.list() == Some(items)
                && value.bool() is None && value.unsigned() is None && value.double() is None,
            JsonView::Record(_) => value.text() is None && value.list() is None && value.bool() is
                None && value.unsigned() is None && value.double() is None,
            JsonView::Number(JsonNumber::Unsigned(n)) => value.text() is None && value.list() is
                None && value.bool() is None && value.unsigned() == Some(n) && value.double()
                == Some(double_of_integer(n as int)),
            JsonView::Number(JsonNumber::Negative(n)) => value.text() is None && value.list() is
                None && value.bool() is None && value.unsigned() is None && value.double()
                == Some(double_of_integer(n as int)),
            JsonView::Number(JsonNumber::Real(d)) => value.text() is None && value.list() is None
                && value.bool() is None && value.unsigned() is None && value.double() == Some(d),
        },
        !(value is Record) ==> forall|name: Seq<char>| (#[trigger] value.field(name)) is None,
{
}

} // verus!
