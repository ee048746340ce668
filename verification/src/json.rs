//! JSON values, read and written by `serde_json`.

use crate::text::same;
use vstd::prelude::*;

verus! {

/// A JSON value. Of numbers only those from zero on are told apart.
#[derive(Debug, PartialEq, Eq)]
pub enum Json {
    Null,
    Truth(bool),
    Number(u64),
    /// A number that is negative, too large or not whole.
    OtherNumber,
    Text(String),
    List(Vec<Json>),
    Object(Vec<(String, Json)>),
}

/// A JSON value.
#[verifier::ext_equal]
pub enum JsonView {
    Null,
    Truth(bool),
    Number(u64),
    OtherNumber,
    Text(Seq<char>),
    List(Seq<JsonView>),
    Object(Map<Seq<char>, JsonView>),
}

/// What a JSON value is.
pub open spec fn value_of(j: Json) -> JsonView
    decreases j, 0nat,
{
    match j {
        Json::Null => JsonView::Null,
        Json::Truth(b) => JsonView::Truth(b),
        Json::Number(n) => JsonView::Number(n),
        Json::OtherNumber => JsonView::OtherNumber,
        Json::Text(s) => JsonView::Text(s@),
        Json::List(list) => JsonView::List(values_of(list@, list@.len())),
        Json::Object(fields) => JsonView::Object(fields_of(fields@, fields@.len())),
    }
}

/// What the first `n` values of a list are.
pub open spec fn values_of(list: Seq<Json>, n: nat) -> Seq<JsonView>
    decreases list, n,
{
    if n == 0 || n > list.len() {
        Seq::empty()
    } else {
        values_of(list, (n - 1) as nat).push(value_of(list[n - 1]))
    }
}

/// What the first `n` fields of an object are; a later field replaces an
/// earlier one of the same name.
pub open spec fn fields_of(fields: Seq<(String, Json)>, n: nat) -> Map<Seq<char>, JsonView>
    decreases fields, n,
{
    if n == 0 || n > fields.len() {
        Map::empty()
    } else {
        fields_of(fields, (n - 1) as nat).insert(
            fields[n - 1].0@,
            value_of(fields[n - 1].1),
        )
    }
}

impl View for Json {
    type V = JsonView;

    open spec fn view(&self) -> JsonView {
        value_of(*self)
    }
}

impl JsonView {
    /// A field of an object; nothing where there is none.
    pub open spec fn field(self, name: Seq<char>) -> Option<JsonView> {
        match self {
            JsonView::Object(m) => if m.dom().contains(name) {
                Some(m[name])
            } else {
                None
            },
            _ => None,
        }
    }

    /// The text of a field; nothing where it is none.
    pub open spec fn text(self, name: Seq<char>) -> Option<Seq<char>> {
        match self.field(name) {
            Some(JsonView::Text(s)) => Some(s),
            _ => None,
        }
    }

    /// The number of a field; nothing where it is none.
    pub open spec fn number(self, name: Seq<char>) -> Option<u64> {
        match self.field(name) {
            Some(JsonView::Number(n)) => Some(n),
            _ => None,
        }
    }

    /// The truth value of a field; nothing where it is none.
    pub open spec fn truth(self, name: Seq<char>) -> Option<bool> {
        match self.field(name) {
            Some(JsonView::Truth(b)) => Some(b),
            _ => None,
        }
    }

    /// The list of a field; nothing where it is none.
    pub open spec fn list(self, name: Seq<char>) -> Option<Seq<JsonView>> {
        match self.field(name) {
            Some(JsonView::List(l)) => Some(l),
            _ => None,
        }
    }
}

proof fn lemma_values_stay(list: Seq<Json>, item: Json, n: nat)
    requires
        n <= list.len(),
    ensures
        values_of(list.push(item), n) == values_of(list, n),
    decreases n,
{
    if n > 0 {
        lemma_values_stay(list, item, (n - 1) as nat);
        assert(list.push(item)[n - 1] == list[n - 1]);
    }
}

proof fn lemma_fields_stay(fields: Seq<(String, Json)>, item: (String, Json), n: nat)
    requires
        n <= fields.len(),
    ensures
        fields_of(fields.push(item), n) == fields_of(fields, n),
    decreases n,
{
    if n > 0 {
        lemma_fields_stay(fields, item, (n - 1) as nat);
        assert(fields.push(item)[n - 1] == fields[n - 1]);
    }
}

/// The values of a list are those of its items.
pub proof fn lemma_values(list: Seq<Json>, n: nat)
    requires
        n <= list.len(),
    ensures
        values_of(list, n).len() == n,
        forall|i: int| 0 <= i < n ==> #[trigger] values_of(list, n)[i] == list[i]@,
    decreases n,
{
    if n > 0 {
        lemma_values(list, (n - 1) as nat);
    }
}

/// An object that is being put together.
#[derive(Debug, PartialEq, Eq)]
pub struct ObjectBuilder {
    pub fields: Vec<(String, Json)>,
}

impl View for ObjectBuilder {
    type V = Map<Seq<char>, JsonView>;

    open spec fn view(&self) -> Map<Seq<char>, JsonView> {
        fields_of(self.fields@, self.fields@.len())
    }
}

impl ObjectBuilder {
    /// An object without fields.
    pub fn new() -> (r: ObjectBuilder)
        ensures
            r@ == Map::<Seq<char>, JsonView>::empty(),
    {
        ObjectBuilder { fields: Vec::new() }
    }

    /// Sets a field.
    pub fn put(&mut self, name: &str, value: Json)
        ensures
            final(self)@ == old(self)@.insert(name@, value@),
    {
        let item = (name.to_owned(), value);
        proof {
            lemma_fields_stay(self.fields@, item, self.fields@.len());
        }
        self.fields.push(item);
    }

    /// The object.
    pub fn build(self) -> (r: Json)
        ensures
            r@ == JsonView::Object(self@),
    {
        Json::Object(self.fields)
    }
}

/// A list that is being put together.
#[derive(Debug, PartialEq, Eq)]
pub struct ListBuilder {
    pub items: Vec<Json>,
}

impl View for ListBuilder {
    type V = Seq<JsonView>;

    open spec fn view(&self) -> Seq<JsonView> {
        values_of(self.items@, self.items@.len())
    }
}

impl ListBuilder {
    /// An empty list.
    pub fn new() -> (r: ListBuilder)
        ensures
            r@ == Seq::<JsonView>::empty(),
    {
        ListBuilder { items: Vec::new() }
    }

    /// Adds a value.
    pub fn add_item(&mut self, value: Json)
        ensures
            final(self)@ == old(self)@.push(value@),
    {
        proof {
            lemma_values_stay(self.items@, value, self.items@.len());
        }
        self.items.push(value);
    }

    /// The list.
    pub fn build(self) -> (r: Json)
        ensures
            r@ == JsonView::List(self@),
    {
        Json::List(self.items)
    }
}

/// The value of a text, or null.
pub open spec fn text_or_null(s: Option<Seq<char>>) -> JsonView {
    match s {
        Some(s) => JsonView::Text(s),
        None => JsonView::Null,
    }
}

/// The value of a number, or null.
pub open spec fn number_or_null(n: Option<u64>) -> JsonView {
    match n {
        Some(n) => JsonView::Number(n),
        None => JsonView::Null,
    }
}

impl Json {
    /// The value of a text.
    pub fn of_text(s: &str) -> (r: Json)
        ensures
            r@ == JsonView::Text(s@),
    {
        Json::Text(s.to_owned())
    }

    /// The value of a text, or null.
    pub fn of_opt_text(s: &Option<String>) -> (r: Json)
        ensures
            r@ == text_or_null(match *s {
                Some(s) => Some(s@),
                None => None,
            }),
    {
        match s {
            Some(s) => Json::Text(s.clone()),
            None => Json::Null,
        }
    }

    /// The value of a number, or null.
    pub fn of_opt_number(n: Option<u64>) -> (r: Json)
        ensures
            r@ == number_or_null(n),
    {
        match n {
            Some(n) => Json::Number(n),
            None => Json::Null,
        }
    }

    /// A field of an object; nothing where there is none.
    pub fn get(&self, name: &str) -> (r: Option<&Json>)
        ensures
            match r {
                Some(j) => self@.field(name@) == Some(j@),
                None => self@.field(name@) is None,
            },
    {
        match self {
            Json::Object(fields) => {
                let mut n: usize = fields.len();
                while n > 0
                    invariant
                        n <= fields@.len(),
                        fields_of(fields@, fields@.len()).dom().contains(name@) == fields_of(
                            fields@,
                            n as nat,
                        ).dom().contains(name@),
                        fields_of(fields@, fields@.len()).dom().contains(name@) ==> fields_of(
                            fields@,
                            fields@.len(),
                        )[name@] == fields_of(fields@, n as nat)[name@],
                        self@ == JsonView::Object(fields_of(fields@, fields@.len())),
                    decreases n,
                {
                    if same(fields[n - 1].0.as_str(), name) {
                        return Some(&fields[n - 1].1);
                    }
                    n = n - 1;
                }
                None
            },
            _ => None,
        }
    }

    /// The text of a field; nothing where it is none.
    pub fn get_text(&self, name: &str) -> (r: Option<String>)
        ensures
            match r {
                Some(s) => self@.text(name@) == Some(s@),
                None => self@.text(name@) is None,
            },
    {
        match self.get(name) {
            Some(Json::Text(s)) => Some(s.clone()),
            _ => None,
        }
    }

    /// The number of a field; nothing where it is none.
    pub fn get_number(&self, name: &str) -> (r: Option<u64>)
        ensures
            r == self@.number(name@),
    {
        match self.get(name) {
            Some(Json::Number(n)) => Some(*n),
            _ => None,
        }
    }

    /// The truth value of a field; nothing where it is none.
    pub fn get_truth(&self, name: &str) -> (r: Option<bool>)
        ensures
            r == self@.truth(name@),
    {
        match self.get(name) {
            Some(Json::Truth(b)) => Some(*b),
            _ => None,
        }
    }

    /// The list of a field; nothing where it is none.
    pub fn get_list(&self, name: &str) -> (r: Option<&Vec<Json>>)
        ensures
            match r {
                Some(l) => self@.list(name@) == Some(values_of(l@, l@.len())),
                None => self@.list(name@) is None,
            },
    {
        match self.get(name) {
            Some(Json::List(l)) => Some(l),
            _ => None,
        }
    }
}

/// Whether a value can be written: it is nested no deeper than `n`, and all
/// its numbers are told apart.
pub open spec fn writable(v: JsonView, n: nat) -> bool
    decreases n,
{
    n > 0 && match v {
        JsonView::OtherNumber => false,
        JsonView::List(l) => forall|i: int|
            0 <= i < l.len() ==> writable(#[trigger] l[i], (n - 1) as nat),
        JsonView::Object(m) => forall|k: Seq<char>|
            m.dom().contains(k) ==> writable(#[trigger] m[k], (n - 1) as nat),
        _ => true,
    }
}

/// What can be written at some depth can be written at a greater one.
pub proof fn lemma_deeper(v: JsonView, n: nat, m: nat)
    requires
        writable(v, n),
        n <= m,
    ensures
        writable(v, m),
    decreases n,
{
    match v {
        JsonView::List(l) => {
            assert forall|i: int| 0 <= i < l.len() implies writable(
                #[trigger] l[i],
                (m - 1) as nat,
            ) by {
                lemma_deeper(l[i], (n - 1) as nat, (m - 1) as nat);
            }
        },
        JsonView::Object(o) => {
            assert forall|k: Seq<char>| o.dom().contains(k) implies writable(
                #[trigger] o[k],
                (m - 1) as nat,
            ) by {
                lemma_deeper(o[k], (n - 1) as nat, (m - 1) as nat);
            }
        },
        _ => {},
    }
}

/// What `serde_json::from_str` makes of a text: a value, or a message.
pub uninterp spec fn json_parsed(s: Seq<char>) -> Result<JsonView, Seq<char>>;

/// The text that a `serde_json::Value` is displayed as.
pub uninterp spec fn json_written(v: JsonView) -> Seq<char>;

/// `serde_json::Value`.
#[verifier::external_type_specification]
#[verifier::external_body]
pub struct ExJsonValue(serde_json::Value);

/// What a `serde_json::Value` holds.
pub uninterp spec fn tree_of(v: serde_json::Value) -> JsonView;

/// That a text is read as a value.
pub open spec fn read_as(v: JsonView) -> Result<JsonView, Seq<char>> {
    Ok(v)
}

/// What reading gave.
pub open spec fn json_outcome(r: Result<Json, String>) -> Result<JsonView, Seq<char>> {
    match r {
        Ok(j) => Ok(j@),
        Err(e) => Err(e@),
    }
}

/// What `serde_json::from_str` gave.
pub open spec fn parse_outcome(r: Result<serde_json::Value, String>) -> Result<
    JsonView,
    Seq<char>,
> {
    match r {
        Ok(v) => Ok(tree_of(v)),
        Err(e) => Err(e@),
    }
}

/// Moves a `serde_json::Value` into a value of this library, variant by
/// variant: both hold the same.
#[verifier::external_body]
fn from_value(v: serde_json::Value) -> (r: Json)
    ensures
        r@ == tree_of(v),
{
    match v {
        serde_json::Value::Null => Json::Null,
        serde_json::Value::Bool(b) => Json::Truth(b),
        serde_json::Value::Number(n) => n.as_u64().map_or(Json::OtherNumber, Json::Number),
        serde_json::Value::String(s) => Json::Text(s),
        serde_json::Value::Array(l) => Json::List(l.into_iter().map(from_value).collect()),
        serde_json::Value::Object(m) => Json::Object(
            m.into_iter().map(|(k, v)| (k, from_value(v))).collect(),
        ),
    }
}

/// Moves a value of this library into a `serde_json::Value`, variant by
/// variant: both hold the same. A number that is not told apart is left out.
#[verifier::external_body]
fn to_value(j: &Json) -> (r: serde_json::Value)
    requires
        writable(j@, 100),
    ensures
        tree_of(r) == j@,
{
    match j {
        Json::Null | Json::OtherNumber => serde_json::Value::Null,
        Json::Truth(b) => serde_json::Value::Bool(*b),
        Json::Number(n) => serde_json::Value::from(*n),
        Json::Text(s) => serde_json::Value::String(s.clone()),
        Json::List(l) => serde_json::Value::Array(l.iter().map(to_value).collect()),
        Json::Object(m) => serde_json::Value::Object(
            m.iter().map(|(k, v)| (k.clone(), to_value(v))).collect(),
        ),
    }
}

/// Calls `serde_json::from_str`: what a text is read as, or the message of
/// the failure, depends on the text alone.
#[verifier::external_body]
fn parse_value(s: &str) -> (r: Result<serde_json::Value, String>)
    ensures
        parse_outcome(r) == json_parsed(s@),
{
    serde_json::from_str(s).map_err(|e| e.to_string())
}

/// Displays a `serde_json::Value`: the text depends on what it holds alone,
/// and `serde_json::from_str` reads the same back from it. That reader gives
/// up at values that are nested more than 127 times, and two numbers that are
/// not told apart need not be the same, so such values are left out.
#[verifier::external_body]
fn show_value(v: &serde_json::Value) -> (r: String)
    requires
        writable(tree_of(*v), 100),
    ensures
        r@ == json_written(tree_of(*v)),
        json_parsed(r@) == read_as(tree_of(*v)),
{
    v.to_string()
}

/// Reads a JSON value from a text, or says what is wrong with it.
pub fn read_json(s: &str) -> (r: Result<Json, String>)
    ensures
        json_outcome(r) == json_parsed(s@),
{
    match parse_value(s) {
        Ok(v) => Ok(from_value(v)),
        Err(e) => Err(e),
    }
}

/// Writes a JSON value, from which it is read back as it is.
pub fn write_json(j: &Json) -> (r: String)
    requires
        writable(j@, 100),
    ensures
        r@ == json_written(j@),
        json_parsed(r@) == read_as(j@),
{
    let v = to_value(j);
    show_value(&v)
}

} // verus!
