//! TOML documents, as far as the resolve reads them.
//!
//! Parsing is the `toml` crate's; what comes back is turned into a
//! [`TomlValue`], which holds the strings, booleans, arrays and tables of the
//! document as plain values (every other scalar is `Other`).

use vstd::prelude::*;
use crate::text::{first_some, lemma_first_some_skip, owned};

verus! {

#[verifier::external_type_specification]
#[verifier::external_body]
pub struct ExTomlValue(toml::Value);

#[verifier::external_type_specification]
#[verifier::external_body]
pub struct ExTomlError(toml::de::Error);

/// A parsed TOML value.
pub enum TomlValue {
    Str(String),
    Bool(bool),
    Array(Vec<TomlValue>),
    /// Key/value pairs in the order the parser hands them out.
    Table(Vec<(String, TomlValue)>),
    /// An integer, float or datetime.
    Other,
}

/// The mathematical content of a TOML value: strings, booleans, arrays and
/// tables (key/value pairs in the order the parser hands them out); every
/// other scalar is `Other`.
pub enum TomlDoc {
    Str(Seq<char>),
    Bool(bool),
    Array(Seq<TomlDoc>),
    Table(Seq<(Seq<char>, TomlDoc)>),
    Other,
}

/// The content of a [`TomlValue`].
pub open spec fn doc_of(v: TomlValue) -> TomlDoc
    decreases v,
{
    match v {
        TomlValue::Str(s) => TomlDoc::Str(s@),
        TomlValue::Bool(b) => TomlDoc::Bool(b),
        TomlValue::Array(items) => TomlDoc::Array(
            Seq::new(
                items@.len(),
                |i: int|
                    if 0 <= i < items@.len() {
                        doc_of(items@[i])
                    } else {
                        TomlDoc::Other
                    },
            ),
        ),
        TomlValue::Table(entries) => TomlDoc::Table(
            Seq::new(
                entries@.len(),
                |i: int|
                    if 0 <= i < entries@.len() {
                        (entries@[i].0@, doc_of(entries@[i].1))
                    } else {
                        (Seq::empty(), TomlDoc::Other)
                    },
            ),
        ),
        TomlValue::Other => TomlDoc::Other,
    }
}

impl View for TomlValue {
    type V = TomlDoc;

    open spec fn view(&self) -> TomlDoc {
        doc_of(*self)
    }
}

/// The contents of a list of values.
pub open spec fn docs(items: Seq<TomlValue>) -> Seq<TomlDoc> {
    items.map_values(|x: TomlValue| x@)
}

/// One level of a `toml::Value`: the variant, with its payload moved out.
pub enum TomlNode {
    Str(String),
    Bool(bool),
    Array(Vec<toml::Value>),
    Table(Vec<(String, toml::Value)>),
    Other,
}

/// The document `toml::from_str::<toml::Value>` parses `text` into, as a
/// [`TomlDoc`]; `None` when it refuses the text.
pub uninterp spec fn toml_document(text: Seq<char>) -> Option<TomlDoc>;

/// What a `toml::Value` holds, as a [`TomlDoc`] (tables in the order
/// `toml::map::Map::into_iter` hands out their entries).
pub uninterp spec fn value_doc(v: toml::Value) -> TomlDoc;

/// `toml::from_str::<toml::Value>`: parses a TOML document. Trusted to be a
/// function of the text alone: it succeeds exactly when `toml_document` is
/// `Some`, and the value it returns holds that document.
#[verifier::external_body]
fn parse_value(text: &str) -> (res: Result<toml::Value, toml::de::Error>)
    ensures
        match res {
            Ok(v) => toml_document(text@) == Some(value_doc(v)),
            Err(_) => toml_document(text@) is None,
        },
{
    toml::from_str::<toml::Value>(text)
}

/// Moves the payload out of a `toml::Value` (the variants of the enum, with a
/// table's entries collected from `toml::map::Map::into_iter`). Trusted to
/// hand out exactly what the value holds: a string or boolean as it is, the
/// items of an array in order, the entries of a table in iteration order;
/// integers, floats and datetimes are `Other`.
#[verifier::external_body]
fn node_of(v: toml::Value) -> (res: TomlNode)
    ensures
        match res {
            TomlNode::Str(s) => value_doc(v) == TomlDoc::Str(s@),
            TomlNode::Bool(b) => value_doc(v) == TomlDoc::Bool(b),
            TomlNode::Array(items) => value_doc(v) == TomlDoc::Array(
                items@.map_values(|x: toml::Value| value_doc(x)),
            ),
            TomlNode::Table(entries) => value_doc(v) == TomlDoc::Table(
                entries@.map_values(|e: (String, toml::Value)| (e.0@, value_doc(e.1))),
            ),
            TomlNode::Other => value_doc(v) == TomlDoc::Other,
        },
{
    match v {
        toml::Value::String(s) => TomlNode::Str(s),
        toml::Value::Boolean(b) => TomlNode::Bool(b),
        toml::Value::Array(a) => TomlNode::Array(a),
        toml::Value::Table(t) => TomlNode::Table(t.into_iter().collect()),
        toml::Value::Integer(_) => TomlNode::Other,
        toml::Value::Float(_) => TomlNode::Other,
        toml::Value::Datetime(_) => TomlNode::Other,
    }
}

/// Converts a `toml::Value` into a [`TomlValue`] holding the same document.
fn model_of(v: toml::Value) -> (res: TomlValue)
    ensures
        res@ == value_doc(v),
    decreases value_doc(v),
{
    let ghost d = value_doc(v);
    match node_of(v) {
        TomlNode::Str(s) => TomlValue::Str(s),
        TomlNode::Bool(b) => TomlValue::Bool(b),
        TomlNode::Array(items) => {
            let ghost ds = items@.map_values(|x: toml::Value| value_doc(x));
            let mut out: Vec<TomlValue> = Vec::new();
            for item in it: items
                invariant
                    d == value_doc(v),
                    d == TomlDoc::Array(ds),
                    ds == it.seq().map_values(|x: toml::Value| value_doc(x)),
                    out@.len() == it.index(),
                    forall|j: int| 0 <= j < out@.len() ==> (#[trigger] out@[j])@ == ds[j],
            {
                let ghost k = it.index() as int;
                assert(it.seq()[k] == item);
                assert(0 <= k < ds.len());
                assert(ds[k] == value_doc(item));
                assert(d->Array_0 == ds);
                assert(decreases_to!(d => d->Array_0));
                assert(decreases_to!(d->Array_0 => d->Array_0[k]));
                assert(decreases_to!(value_doc(v) => value_doc(item)));
                out.push(model_of(item));
            }
            assert(out@.len() == ds.len());
            let res = TomlValue::Array(out);
            proof {
                if let TomlDoc::Array(rs) = res@ {
                    assert(rs =~= ds);
                }
            }
            res
        },
        TomlNode::Table(entries) => {
            let ghost ds = entries@.map_values(|e: (String, toml::Value)| (e.0@, value_doc(e.1)));
            let mut out: Vec<(String, TomlValue)> = Vec::new();
            for entry in it: entries
                invariant
                    d == value_doc(v),
                    d == TomlDoc::Table(ds),
                    ds == it.seq().map_values(|e: (String, toml::Value)| (e.0@, value_doc(e.1))),
                    out@.len() == it.index(),
                    forall|j: int|
                        0 <= j < out@.len() ==> (#[trigger] out@[j]).0@ == ds[j].0 && out@[j].1@ == ds[j].1,
            {
                let ghost n = it.index() as int;
                assert(it.seq()[n] == entry);
                assert(0 <= n < ds.len());
                let (k, val) = entry;
                assert(ds[n] == (k@, value_doc(val)));
                assert(d->Table_0 == ds);
                assert(decreases_to!(d => d->Table_0));
                assert(decreases_to!(d->Table_0 => d->Table_0[n]));
                assert(decreases_to!(d->Table_0[n] => d->Table_0[n].1));
                assert(decreases_to!(value_doc(v) => value_doc(val)));
                out.push((k, model_of(val)));
            }
            assert(out@.len() == ds.len());
            let res = TomlValue::Table(out);
            proof {
                if let TomlDoc::Table(rs) = res@ {
                    assert(rs =~= ds);
                }
            }
            res
        },
        TomlNode::Other => TomlValue::Other,
    }
}

/// Parses a TOML document: `None` exactly when the text is not TOML, and
/// otherwise the document the text holds.
pub fn parse_document(text: &str) -> (res: Option<TomlValue>)
    ensures
        match res {
            Some(d) => toml_document(text@) == Some(d@),
            None => toml_document(text@) is None,
        },
{
    match parse_value(text) {
        Ok(v) => Some(model_of(v)),
        Err(_) => None,
    }
}

/// The value under `key` in a table (`toml::Value::get` with a string key):
/// `None` when `v` is not a table or has no such key.
pub open spec fn spec_get(v: TomlDoc, key: Seq<char>) -> Option<TomlDoc> {
    match v {
        TomlDoc::Table(entries) => first_some(entries, entry_value(key)),
        _ => None,
    }
}

/// The value of a table entry whose key is `key`.
pub open spec fn entry_value(key: Seq<char>) -> spec_fn((Seq<char>, TomlDoc)) -> Option<TomlDoc> {
    |e: (Seq<char>, TomlDoc)| if e.0 == key { Some(e.1) } else { None }
}

/// `spec_get` through an optional value.
pub open spec fn spec_get_in(v: Option<TomlDoc>, key: Seq<char>) -> Option<TomlDoc> {
    match v {
        Some(t) => spec_get(t, key),
        None => None,
    }
}

/// The string a value holds (`as_str`).
pub open spec fn spec_as_str(v: Option<TomlDoc>) -> Option<Seq<char>> {
    match v {
        Some(TomlDoc::Str(s)) => Some(s),
        _ => None,
    }
}

/// The boolean a value holds (`as_bool`).
pub open spec fn spec_as_bool(v: Option<TomlDoc>) -> Option<bool> {
    match v {
        Some(TomlDoc::Bool(b)) => Some(b),
        _ => None,
    }
}

/// The items an array holds (`as_array`).
pub open spec fn spec_as_array(v: Option<TomlDoc>) -> Option<Seq<TomlDoc>> {
    match v {
        Some(TomlDoc::Array(items)) => Some(items),
        _ => None,
    }
}

/// The content of an optional reference to a value.
pub open spec fn opt_val(r: Option<&TomlValue>) -> Option<TomlDoc> {
    match r {
        Some(x) => Some(x@),
        None => None,
    }
}

/// The value under `key` in a table.
pub fn get<'a>(v: &'a TomlValue, key: &str) -> (res: Option<&'a TomlValue>)
    ensures
        opt_val(res) == spec_get(v@, key@),
{
    match v {
        TomlValue::Table(entries) => {
            let k = owned(key);
            let ghost f = entry_value(key@);
            let ghost es = v@->Table_0;
            assert(es.len() == entries@.len());
            let mut i: usize = 0;
            while i < entries.len()
                invariant
                    i <= entries@.len(),
                    k@ == key@,
                    v@ == TomlDoc::Table(es),
                    es.len() == entries@.len(),
                    forall|j: int| 0 <= j < es.len() ==> #[trigger] es[j] == (entries@[j].0@, entries@[j].1@),
                    f == entry_value(key@),
                    forall|j: int| 0 <= j < i ==> f(#[trigger] es[j]) is None,
                decreases entries@.len() - i,
            {
                assert(es[i as int] == (entries@[i as int].0@, entries@[i as int].1@));
                if entries[i].0 == k {
                    proof {
                        lemma_first_some_skip(es, f, i as int);
                        assert(es.skip(i as int)[0] == es[i as int]);
                        assert(f(es[i as int]) == Some(entries@[i as int].1@));
                    }
                    return Some(&entries[i].1);
                }
                i += 1;
            }
            proof {
                lemma_first_some_skip(es, f, es.len() as int);
            }
            None
        },
        _ => None,
    }
}

/// The value under `key` in an optional table.
pub fn get_in<'a>(v: Option<&'a TomlValue>, key: &str) -> (res: Option<&'a TomlValue>)
    ensures
        opt_val(res) == spec_get_in(opt_val(v), key@),
{
    match v {
        Some(t) => get(t, key),
        None => None,
    }
}

/// The string a value holds.
pub fn as_str(v: Option<&TomlValue>) -> (res: Option<&String>)
    ensures
        match res {
            Some(s) => spec_as_str(opt_val(v)) == Some(s@),
            None => spec_as_str(opt_val(v)) is None,
        },
{
    match v {
        Some(TomlValue::Str(s)) => Some(s),
        _ => None,
    }
}

/// The boolean a value holds.
pub fn as_bool(v: Option<&TomlValue>) -> (res: Option<bool>)
    ensures
        res == spec_as_bool(opt_val(v)),
{
    match v {
        Some(TomlValue::Bool(b)) => Some(*b),
        _ => None,
    }
}

/// The items an array holds.
pub fn as_array(v: Option<&TomlValue>) -> (res: Option<&Vec<TomlValue>>)
    ensures
        match res {
            Some(items) => spec_as_array(opt_val(v)) == Some(docs(items@)),
            None => spec_as_array(opt_val(v)) is None,
        },
{
    match v {
        Some(TomlValue::Array(items)) => {
            assert(v.unwrap()@->Array_0 =~= docs(items@));
            Some(items)
        },
        _ => None,
    }
}

} // verus!
