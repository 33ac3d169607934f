//! The document side: a parsed document as a tree of plain values, the
//! trusted parse call into the `toml` crate, and the verified filling of a
//! structure instance from such a tree, defaulting every key the document
//! does not supply.

use vstd::prelude::*;

use crate::errors::Error;
use crate::merge::{
    clone_opt_string, copy_ints, lemma_unset_field_takes_document, same_shape, same_shape_field,
    same_shape_value, spec_merge,
};
use crate::model::{
    ConfigStruct, Field, FieldValue, SpecConfig, SpecField, SpecFieldValue, lemma_view_fields,
    view_config, view_field, view_fields, view_value,
};

verus! {

/// One value of a parsed configuration document. Document values with no
/// counterpart among the field types (floats, datetimes) are carried as
/// `Other`; they match no field type and are ignored unless a field asks
/// for their key.
#[derive(Debug, PartialEq)]
pub enum DocTree {
    Int(i64),
    Text(String),
    Bool(bool),
    List(Vec<DocTree>),
    Table(Vec<DocEntry>),
    Other,
}

/// One key-value pair of a parsed document table.
#[derive(Debug, PartialEq)]
pub struct DocEntry {
    pub key: String,
    pub val: DocTree,
}

/// Mathematical view of a `DocTree`.
#[verifier::ext_equal]
pub enum SpecDoc {
    Int(int),
    Text(Seq<char>),
    Bool(bool),
    List(Seq<SpecDoc>),
    Table(Seq<SpecEntry>),
    Other,
}

/// Mathematical view of a `DocEntry`.
#[verifier::ext_equal]
pub struct SpecEntry {
    pub key: Seq<char>,
    pub val: SpecDoc,
}

pub open spec fn view_doc(t: DocTree) -> SpecDoc
    decreases t,
{
    match t {
        DocTree::Int(i) => SpecDoc::Int(i as int),
        DocTree::Text(s) => SpecDoc::Text(s@),
        DocTree::Bool(b) => SpecDoc::Bool(b),
        DocTree::List(l) => SpecDoc::List(view_docs(l@)),
        DocTree::Table(es) => SpecDoc::Table(view_entries(es@)),
        DocTree::Other => SpecDoc::Other,
    }
}

pub open spec fn view_docs(s: Seq<DocTree>) -> Seq<SpecDoc>
    decreases s,
{
    if s.len() == 0 {
        Seq::empty()
    } else {
        seq![view_doc(s[0])] + view_docs(s.drop_first())
    }
}

pub open spec fn view_entry(e: DocEntry) -> SpecEntry
    decreases e,
{
    SpecEntry { key: e.key@, val: view_doc(e.val) }
}

pub open spec fn view_entries(s: Seq<DocEntry>) -> Seq<SpecEntry>
    decreases s,
{
    if s.len() == 0 {
        Seq::empty()
    } else {
        seq![view_entry(s[0])] + view_entries(s.drop_first())
    }
}

/// `view_docs` maps the view of each element, position by position.
pub proof fn lemma_view_docs(s: Seq<DocTree>)
    ensures
        view_docs(s).len() == s.len(),
        forall|i: int| 0 <= i < s.len() ==> view_docs(s)[i] == view_doc(s[i]),
    decreases s.len(),
{
    if s.len() > 0 {
        lemma_view_docs(s.drop_first());
        assert forall|i: int| 0 <= i < s.len() implies view_docs(s)[i] == view_doc(s[i]) by {
            if i > 0 {
                assert(s.drop_first()[i - 1] == s[i]);
            }
        }
    }
}

/// `view_entries` maps the view of each entry, position by position.
pub proof fn lemma_view_entries(s: Seq<DocEntry>)
    ensures
        view_entries(s).len() == s.len(),
        forall|i: int| 0 <= i < s.len() ==> view_entries(s)[i] == view_entry(s[i]),
    decreases s.len(),
{
    if s.len() > 0 {
        lemma_view_entries(s.drop_first());
        assert forall|i: int| 0 <= i < s.len() implies view_entries(s)[i] == view_entry(s[i]) by {
            if i > 0 {
                assert(s.drop_first()[i - 1] == s[i]);
            }
        }
    }
}

/// The value a document table supplies under `k`: the first entry whose key
/// is `k`, if any.
pub open spec fn lookup(es: Seq<SpecEntry>, k: Seq<char>) -> Option<SpecDoc>
    decreases es.len(),
{
    if es.len() == 0 {
        None
    } else if es[0].key == k {
        Some(es[0].val)
    } else {
        lookup(es.drop_first(), k)
    }
}

/// Skipping entries whose keys differ from `k` leaves the lookup unchanged.
pub proof fn lemma_lookup_skip(es: Seq<SpecEntry>, k: Seq<char>, i: int)
    requires
        0 <= i < es.len(),
        es[i].key != k,
    ensures
        lookup(es.subrange(i, es.len() as int), k) == lookup(
            es.subrange(i + 1, es.len() as int),
            k,
        ),
{
    let tail = es.subrange(i, es.len() as int);
    assert(tail[0] == es[i]);
    assert(tail.drop_first() =~= es.subrange(i + 1, es.len() as int));
}

pub open spec fn all_ints(items: Seq<SpecDoc>) -> bool {
    forall|i: int| 0 <= i < items.len() ==> items[i] is Int
}

pub open spec fn ints_of(items: Seq<SpecDoc>) -> Seq<int> {
    items.map_values(|d: SpecDoc| d->Int_0)
}

/// What one field becomes when the document supplies `found` under the
/// field's name: the document value where it is present and of the field's
/// type, the field's declared default where the key is absent, and a type
/// mismatch (`None`) otherwise. A flattened field is filled recursively
/// from its sub-table, or entirely from defaults where the key is absent.
pub open spec fn fill_value(dv: SpecFieldValue, found: Option<SpecDoc>) -> Option<SpecFieldValue>
    decreases dv,
{
    match dv {
        SpecFieldValue::Int(d) => match found {
            None => Some(SpecFieldValue::Int(d)),
            Some(SpecDoc::Int(i)) => Some(SpecFieldValue::Int(i)),
            Some(_) => None,
        },
        SpecFieldValue::Flag(d) => match found {
            None => Some(SpecFieldValue::Flag(d)),
            Some(SpecDoc::Bool(b)) => Some(SpecFieldValue::Flag(b)),
            Some(_) => None,
        },
        SpecFieldValue::OptInt(d) => match found {
            None => Some(SpecFieldValue::OptInt(d)),
            Some(SpecDoc::Int(i)) => Some(SpecFieldValue::OptInt(Some(i))),
            Some(_) => None,
        },
        SpecFieldValue::OptText(d) => match found {
            None => Some(SpecFieldValue::OptText(d)),
            Some(SpecDoc::Text(s)) => Some(SpecFieldValue::OptText(Some(s))),
            Some(_) => None,
        },
        SpecFieldValue::IntList(d) => match found {
            None => Some(SpecFieldValue::IntList(d)),
            Some(SpecDoc::List(items)) => if all_ints(items) {
                Some(SpecFieldValue::IntList(ints_of(items)))
            } else {
                None
            },
            Some(_) => None,
        },
        SpecFieldValue::Sub(sub) => match found {
            None => match fill_config(sub, Seq::empty()) {
                Some(c) => Some(SpecFieldValue::Sub(c)),
                None => None,
            },
            Some(SpecDoc::Table(es)) => match fill_config(sub, es) {
                Some(c) => Some(SpecFieldValue::Sub(c)),
                None => None,
            },
            Some(_) => None,
        },
    }
}

pub open spec fn fill_fields(fs: Seq<SpecField>, es: Seq<SpecEntry>) -> Option<Seq<SpecField>>
    decreases fs,
{
    if fs.len() == 0 {
        Some(Seq::empty())
    } else {
        match fill_value(fs[0].value, lookup(es, fs[0].name)) {
            Some(v) => match fill_fields(fs.drop_first(), es) {
                Some(rest) => Some(
                    seq![SpecField { name: fs[0].name, key_override: fs[0].key_override, value: v }]
                        + rest,
                ),
                None => None,
            },
            None => None,
        }
    }
}

/// The instance a document yields for a structure shape: every field filled
/// from the document where present, from its default otherwise; `None` on
/// any type mismatch.
pub open spec fn fill_config(c: SpecConfig, es: Seq<SpecEntry>) -> Option<SpecConfig>
    decreases c,
{
    match fill_fields(c.fields, es) {
        Some(fs) => Some(SpecConfig { fields: fs }),
        None => None,
    }
}

/// If any field fails to fill, the whole instance fails to fill.
pub proof fn lemma_fill_fields_fails(fs: Seq<SpecField>, es: Seq<SpecEntry>, i: int)
    requires
        0 <= i < fs.len(),
        fill_value(fs[i].value, lookup(es, fs[i].name)) is None,
    ensures
        fill_fields(fs, es) is None,
    decreases fs.len(),
{
    if i > 0 {
        assert(fs.drop_first()[i - 1] == fs[i]);
        lemma_fill_fields_fails(fs.drop_first(), es, i - 1);
    }
}

/// If every field fills, the whole instance fills.
pub proof fn lemma_fill_fields_succeeds(fs: Seq<SpecField>, es: Seq<SpecEntry>)
    requires
        forall|i: int|
            0 <= i < fs.len() ==> #[trigger] fill_value(fs[i].value, lookup(es, fs[i].name))
                is Some,
    ensures
        fill_fields(fs, es) is Some,
    decreases fs.len(),
{
    if fs.len() > 0 {
        assert forall|i: int|
            0 <= i < fs.drop_first().len() implies #[trigger] fill_value(
            fs.drop_first()[i].value,
            lookup(es, fs.drop_first()[i].name),
        ) is Some by {
            assert(fs.drop_first()[i] == fs[i + 1]);
        }
        lemma_fill_fields_succeeds(fs.drop_first(), es);
        assert(fill_value(fs[0].value, lookup(es, fs[0].name)) is Some);
    }
}

/// One position of a filled instance: the field's value resolved against the
/// document, the name and key override kept.
pub open spec fn filled_at(fs: Seq<SpecField>, es: Seq<SpecEntry>, i: int) -> bool {
    &&& fill_value(fs[i].value, lookup(es, fs[i].name)) is Some
    &&& fill_fields(fs, es)->Some_0[i] == SpecField {
        name: fs[i].name,
        key_override: fs[i].key_override,
        value: fill_value(fs[i].value, lookup(es, fs[i].name))->Some_0,
    }
}

/// `fill_fields` fills position by position, keeping each field's name and
/// key override.
pub proof fn lemma_fill_fields(fs: Seq<SpecField>, es: Seq<SpecEntry>)
    requires
        fill_fields(fs, es) is Some,
    ensures
        fill_fields(fs, es)->Some_0.len() == fs.len(),
        forall|i: int| 0 <= i < fs.len() ==> #[trigger] filled_at(fs, es, i),
    decreases fs.len(),
{
    if fs.len() > 0 {
        assert(fill_value(fs[0].value, lookup(es, fs[0].name)) is Some);
        assert(fill_fields(fs.drop_first(), es) is Some);
        lemma_fill_fields(fs.drop_first(), es);
        let hd = SpecField {
            name: fs[0].name,
            key_override: fs[0].key_override,
            value: fill_value(fs[0].value, lookup(es, fs[0].name))->Some_0,
        };
        let rest = fill_fields(fs.drop_first(), es)->Some_0;
        assert(fill_fields(fs, es)->Some_0 == seq![hd] + rest);
        assert forall|i: int| 0 <= i < fs.len() implies #[trigger] filled_at(fs, es, i) by {
            if i > 0 {
                assert(fs.drop_first()[i - 1] == fs[i]);
                assert((seq![hd] + rest)[i] == rest[i - 1]);
                assert(filled_at(fs.drop_first(), es, i - 1));
            } else {
                assert((seq![hd] + rest)[0] == hd);
            }
        }
    }
}

/// Declares toml::map::Map, the representation of a parsed table.
#[verifier::external_type_specification]
#[verifier::external_body]
#[verifier::reject_recursive_types(K)]
#[verifier::reject_recursive_types(V)]
pub struct ExTomlMap<K, V>(toml::map::Map<K, V>);

/// Declares toml::Value, one parsed document value.
#[verifier::external_type_specification]
#[verifier::external_body]
pub struct ExTomlValue(toml::Value);

/// Relies on toml::Value: each document value is carried over one for one;
/// floats and datetimes have no counterpart among the field types and are
/// carried as `Other`.
#[verifier::external_body]
fn tree_from_value(v: &toml::Value) -> DocTree {
    match v {
        toml::Value::String(s) => DocTree::Text(s.clone()),
        toml::Value::Integer(i) => DocTree::Int(*i),
        toml::Value::Float(_) => DocTree::Other,
        toml::Value::Boolean(b) => DocTree::Bool(*b),
        toml::Value::Datetime(_) => DocTree::Other,
        toml::Value::Array(a) => DocTree::List(a.iter().map(tree_from_value).collect()),
        toml::Value::Table(t) => DocTree::Table(entries_from_table(t)),
    }
}

/// Relies on toml::map::Map: the table's entries are carried over pair by
/// pair, in the table's own order.
#[verifier::external_body]
fn entries_from_table(t: &toml::map::Map<String, toml::Value>) -> Vec<DocEntry> {
    t.iter().map(|(k, v)| DocEntry { key: k.clone(), val: tree_from_value(v) }).collect()
}

/// The entries a document text parses to, or nothing where the text is
/// malformed. Parsing is a function of the text alone.
pub uninterp spec fn doc_of(text: Seq<char>) -> Option<Seq<SpecEntry>>;

/// Relies on toml::from_str::<toml::Table>: a well-formed document parses to
/// its top-level table, a malformed one to an error, and the outcome depends
/// on the text alone.
#[verifier::external_body]
pub(crate) fn parse_document(text: &str) -> (r: Result<Vec<DocEntry>, String>)
    ensures
        match r {
            Ok(es) => doc_of(text@) == Some(view_entries(es@)),
            Err(_) => doc_of(text@) is None,
        },
{
    match toml::from_str::<toml::map::Map<String, toml::Value>>(text) {
        Ok(t) => Ok(entries_from_table(&t)),
        Err(e) => Err(e.to_string()),
    }
}

fn lookup_entry<'a>(entries: &'a Vec<DocEntry>, key: &String) -> (r: Option<&'a DocTree>)
    ensures
        match r {
            Some(t) => lookup(view_entries(entries@), key@) == Some(view_doc(*t)),
            None => lookup(view_entries(entries@), key@) is None,
        },
{
    proof {
        lemma_view_entries(entries@);
    }
    let ghost es = view_entries(entries@);
    proof {
        assert(es.subrange(0, es.len() as int) =~= es);
    }
    let mut i: usize = 0;
    while i < entries.len()
        invariant
            0 <= i <= entries.len(),
            es == view_entries(entries@),
            es.len() == entries@.len(),
            forall|j: int| 0 <= j < es.len() ==> es[j] == view_entry(entries@[j]),
            lookup(es, key@) == lookup(es.subrange(i as int, es.len() as int), key@),
        decreases entries.len() - i,
    {
        if entries[i].key.eq(key) {
            proof {
                let tail = es.subrange(i as int, es.len() as int);
                assert(tail[0] == es[i as int]);
                assert(lookup(tail, key@) == Some(es[i as int].val));
            }
            return Some(&entries[i].val);
        }
        proof {
            lemma_lookup_skip(es, key@, i as int);
        }
        i += 1;
    }
    proof {
        assert(es.subrange(es.len() as int, es.len() as int) =~= Seq::<SpecEntry>::empty());
    }
    None
}

fn ints_from(items: &Vec<DocTree>) -> (r: Option<Vec<i64>>)
    ensures
        match r {
            Some(v) => all_ints(view_docs(items@)) && crate::model::ints_view(v@) == ints_of(
                view_docs(items@),
            ),
            None => !all_ints(view_docs(items@)),
        },
{
    proof {
        lemma_view_docs(items@);
    }
    let mut acc: Vec<i64> = Vec::new();
    let mut i: usize = 0;
    while i < items.len()
        invariant
            0 <= i <= items.len(),
            acc@.len() == i,
            view_docs(items@).len() == items@.len(),
            forall|j: int| 0 <= j < items@.len() ==> view_docs(items@)[j] == view_doc(items@[j]),
            forall|j: int| 0 <= j < i ==> (#[trigger] view_docs(items@)[j]) is Int,
            forall|j: int|
                0 <= j < i ==> (#[trigger] acc@[j]) as int == view_docs(items@)[j]->Int_0,
        decreases items.len() - i,
    {
        match &items[i] {
            DocTree::Int(x) => {
                proof {
                    assert(view_docs(items@)[i as int] == view_doc(items@[i as int]));
                    assert(view_doc(items@[i as int]) == SpecDoc::Int(*x as int));
                }
                acc.push(*x);
            },
            _ => {
                proof {
                    assert(!(view_docs(items@)[i as int] is Int));
                }
                return None;
            },
        }
        i += 1;
    }
    proof {
        assert forall|j: int|
            0 <= j < items@.len() implies crate::model::ints_view(acc@)[j] == ints_of(
            view_docs(items@),
        )[j] by {
            assert(crate::model::ints_view(acc@)[j] == acc@[j] as int);
            assert(ints_of(view_docs(items@))[j] == view_docs(items@)[j]->Int_0);
        }
        assert(crate::model::ints_view(acc@) =~= ints_of(view_docs(items@)));
        assert(all_ints(view_docs(items@)));
    }
    Some(acc)
}

pub open spec fn opt_doc_view(o: Option<&DocTree>) -> Option<SpecDoc> {
    match o {
        Some(t) => Some(view_doc(*t)),
        None => None,
    }
}

fn mismatch() -> (e: Error)
    ensures
        e is Document,
{
    Error::Document("document value does not match the field type".to_owned())
}

fn fill_field_value(dv: &FieldValue, found: Option<&DocTree>) -> (r: Result<FieldValue, Error>)
    ensures
        match r {
            Ok(v) => fill_value(view_value(*dv), opt_doc_view(found)) == Some(view_value(v)),
            Err(e) => fill_value(view_value(*dv), opt_doc_view(found)) is None && e is Document,
        },
    decreases *dv,
{
    match dv {
        FieldValue::Int(d) => match found {
            None => Ok(FieldValue::Int(*d)),
            Some(DocTree::Int(i)) => Ok(FieldValue::Int(*i)),
            Some(_) => Err(mismatch()),
        },
        FieldValue::Flag(d) => match found {
            None => Ok(FieldValue::Flag(*d)),
            Some(DocTree::Bool(b)) => Ok(FieldValue::Flag(*b)),
            Some(_) => Err(mismatch()),
        },
        FieldValue::OptInt(d) => match found {
            None => Ok(FieldValue::OptInt(match d {
                Some(i) => Some(*i),
                None => None,
            })),
            Some(DocTree::Int(i)) => Ok(FieldValue::OptInt(Some(*i))),
            Some(_) => Err(mismatch()),
        },
        FieldValue::OptText(d) => match found {
            None => Ok(FieldValue::OptText(clone_opt_string(d))),
            Some(DocTree::Text(s)) => Ok(FieldValue::OptText(Some(s.clone()))),
            Some(_) => Err(mismatch()),
        },
        FieldValue::IntList(d) => match found {
            None => Ok(FieldValue::IntList(copy_ints(d))),
            Some(DocTree::List(items)) => match ints_from(items) {
                Some(v) => Ok(FieldValue::IntList(v)),
                None => Err(mismatch()),
            },
            Some(_) => Err(mismatch()),
        },
        FieldValue::Sub(c) => match found {
            None => {
                let empty_entries: Vec<DocEntry> = Vec::new();
                proof {
                    assert(view_entries(empty_entries@) =~= Seq::<SpecEntry>::empty());
                }
                match load_from_document(c, &empty_entries) {
                    Ok(sc) => Ok(FieldValue::Sub(sc)),
                    Err(e) => Err(e),
                }
            },
            Some(DocTree::Table(es)) => match load_from_document(c, es) {
                Ok(sc) => Ok(FieldValue::Sub(sc)),
                Err(e) => Err(e),
            },
            Some(_) => Err(mismatch()),
        },
    }
}

/// Fill an instance of `shape` from the parsed document: each plain field
/// takes the document's value under the field's name where present and of
/// the field's type, and the field's declared default otherwise; a flattened
/// field is filled recursively from its sub-table. Any value of the wrong
/// type is a document error.
pub fn load_from_document(shape: &ConfigStruct, entries: &Vec<DocEntry>) -> (r: Result<
    ConfigStruct,
    Error,
>)
    ensures
        match r {
            Ok(c) => fill_config(view_config(*shape), view_entries(entries@)) == Some(
                view_config(c),
            ),
            Err(e) => fill_config(view_config(*shape), view_entries(entries@)) is None && e
                is Document,
        },
    decreases *shape,
{
    let ghost sf = view_config(*shape).fields;
    let ghost es = view_entries(entries@);
    proof {
        lemma_view_fields(shape.fields@);
    }
    let mut out: Vec<Field> = Vec::new();
    let mut i: usize = 0;
    while i < shape.fields.len()
        invariant
            0 <= i <= shape.fields.len(),
            sf == view_config(*shape).fields,
            es == view_entries(entries@),
            sf.len() == shape.fields@.len(),
            forall|j: int| 0 <= j < sf.len() ==> sf[j] == view_field(shape.fields@[j]),
            out@.len() == i,
            forall|j: int|
                0 <= j < i ==> #[trigger] fill_value(sf[j].value, lookup(es, sf[j].name))
                    is Some,
            forall|j: int|
                0 <= j < i ==> view_field(out@[j]) == (SpecField {
                    name: sf[j].name,
                    key_override: sf[j].key_override,
                    value: fill_value(sf[j].value, lookup(es, sf[j].name))->Some_0,
                }),
        decreases shape.fields.len() - i,
    {
        let f = &shape.fields[i];
        let found = lookup_entry(entries, &f.name);
        match fill_field_value(&f.value, found) {
            Ok(v) => {
                let filled = Field {
                    name: f.name.clone(),
                    key_override: clone_opt_string(&f.key_override),
                    value: v,
                };
                out.push(filled);
            },
            Err(e) => {
                proof {
                    lemma_fill_fields_fails(sf, es, i as int);
                }
                return Err(e);
            },
        }
        i += 1;
    }
    let r = ConfigStruct { fields: out };
    proof {
        lemma_fill_fields_succeeds(sf, es);
        lemma_fill_fields(sf, es);
        lemma_view_fields(r.fields@);
        assert forall|j: int| 0 <= j < sf.len() implies view_fields(r.fields@)[j] == fill_fields(
            sf,
            es,
        )->Some_0[j] by {
            assert(filled_at(sf, es, j));
        }
        assert(view_fields(r.fields@) =~= fill_fields(sf, es)->Some_0);
        assert(view_config(r) =~= fill_config(view_config(*shape), es)->Some_0);
    }
    Ok(r)
}

/// A filled value keeps its field's static type.
pub proof fn lemma_fill_value_shape(dv: SpecFieldValue, found: Option<SpecDoc>)
    requires
        fill_value(dv, found) is Some,
    ensures
        same_shape_value(dv, fill_value(dv, found)->Some_0),
    decreases dv,
{
    match dv {
        SpecFieldValue::Sub(sub) => match found {
            None => {
                lemma_fill_shape(sub, Seq::empty());
            },
            Some(SpecDoc::Table(es)) => {
                lemma_fill_shape(sub, es);
            },
            Some(_) => {},
        },
        _ => {},
    }
}

/// A filled instance is of its shape's own shape.
pub proof fn lemma_fill_shape(c: SpecConfig, es: Seq<SpecEntry>)
    requires
        fill_config(c, es) is Some,
    ensures
        same_shape(c, fill_config(c, es)->Some_0),
    decreases c,
{
    lemma_fill_fields(c.fields, es);
    let d = fill_config(c, es)->Some_0;
    assert forall|i: int| 0 <= i < c.fields.len() implies same_shape_field(
        #[trigger] c.fields[i],
        d.fields[i],
    ) by {
        assert(filled_at(c.fields, es, i));
        lemma_fill_value_shape(c.fields[i].value, lookup(es, c.fields[i].name));
    }
}

/// For a plain field whose merge key was not explicitly supplied, the merged
/// value is what the document instance holds: the document's value where the
/// document supplies the field's name, and the field's declared default
/// otherwise.
pub proof fn lemma_document_precedence(
    shape: SpecConfig,
    es: Seq<SpecEntry>,
    a: SpecConfig,
    ex: Set<Seq<char>>,
    i: int,
)
    requires
        fill_config(shape, es) is Some,
        same_shape(fill_config(shape, es)->Some_0, a),
        0 <= i < shape.fields.len(),
        !(shape.fields[i].value is Sub),
        !ex.contains(shape.fields[i].merge_key()),
    ensures
        spec_merge(fill_config(shape, es)->Some_0, a, ex).fields[i].value == fill_value(
            shape.fields[i].value,
            lookup(es, shape.fields[i].name),
        )->Some_0,
        lookup(es, shape.fields[i].name) is None ==> spec_merge(
            fill_config(shape, es)->Some_0,
            a,
            ex,
        ).fields[i].value == shape.fields[i].value,
{
    let d = fill_config(shape, es)->Some_0;
    lemma_fill_fields(shape.fields, es);
    assert(filled_at(shape.fields, es, i));
    assert(d.fields[i].merge_key() == shape.fields[i].merge_key());
    assert(!(d.fields[i].value is Sub));
    lemma_unset_field_takes_document(d, a, ex, i);
}

} // verus!
