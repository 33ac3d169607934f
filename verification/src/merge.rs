//! The field-merge algorithm: given one instance filled from a document and
//! one filled from the command line, plus the record of explicitly supplied
//! keys, resolve every field with command-line-wins precedence, recursing
//! into flattened substructures.

use vstd::prelude::*;

use crate::model::{
    ConfigStruct, ExplicitSet, Field, FieldValue, SpecConfig, SpecField, SpecFieldValue,
    lemma_view_fields, view_config, view_field, view_value,
};

verus! {

/// Two values have the same static type, recursively for substructures.
pub open spec fn same_shape_value(d: SpecFieldValue, a: SpecFieldValue) -> bool
    decreases d,
{
    match d {
        SpecFieldValue::Int(_) => a is Int,
        SpecFieldValue::Flag(_) => a is Flag,
        SpecFieldValue::OptInt(_) => a is OptInt,
        SpecFieldValue::OptText(_) => a is OptText,
        SpecFieldValue::IntList(_) => a is IntList,
        SpecFieldValue::Sub(x) => a is Sub && same_shape(x, a->Sub_0),
    }
}

/// Two fields declare the same name, the same key override and the same type.
pub open spec fn same_shape_field(d: SpecField, a: SpecField) -> bool
    decreases d,
{
    d.name == a.name && d.key_override == a.key_override && same_shape_value(d.value, a.value)
}

/// Two instances are of one and the same structure shape.
pub open spec fn same_shape(d: SpecConfig, a: SpecConfig) -> bool
    decreases d,
{
    d.fields.len() == a.fields.len() && (forall|i: int|
        0 <= i < d.fields.len() ==> same_shape_field(#[trigger] d.fields[i], a.fields[i]))
}

/// Two values of one shape as a third have one shape.
pub proof fn lemma_same_shape_value_join(c: SpecFieldValue, d: SpecFieldValue, a: SpecFieldValue)
    requires
        same_shape_value(c, d),
        same_shape_value(c, a),
    ensures
        same_shape_value(d, a),
    decreases c,
{
    match c {
        SpecFieldValue::Sub(x) => {
            lemma_same_shape_join(x, d->Sub_0, a->Sub_0);
        },
        _ => {},
    }
}

/// Two instances of one shape as a third are of one shape.
pub proof fn lemma_same_shape_join(c: SpecConfig, d: SpecConfig, a: SpecConfig)
    requires
        same_shape(c, d),
        same_shape(c, a),
    ensures
        same_shape(d, a),
    decreases c,
{
    assert forall|i: int| 0 <= i < d.fields.len() implies same_shape_field(
        #[trigger] d.fields[i],
        a.fields[i],
    ) by {
        assert(same_shape_field(c.fields[i], d.fields[i]));
        assert(same_shape_field(c.fields[i], a.fields[i]));
        lemma_same_shape_value_join(c.fields[i].value, d.fields[i].value, a.fields[i].value);
    }
}

/// Resolution of one field: a flattened field is merged recursively; a plain
/// field takes the argument value exactly when its merge key was explicitly
/// supplied, and the document value otherwise.
pub open spec fn merged_field(d: SpecField, a: SpecField, ex: Set<Seq<char>>) -> SpecField
    decreases d,
{
    SpecField {
        name: d.name,
        key_override: d.key_override,
        value: if d.value is Sub && a.value is Sub {
            SpecFieldValue::Sub(spec_merge(d.value->Sub_0, a.value->Sub_0, ex))
        } else if ex.contains(d.merge_key()) {
            a.value
        } else {
            d.value
        },
    }
}

pub open spec fn merged_fields(d: Seq<SpecField>, a: Seq<SpecField>, ex: Set<Seq<char>>) -> Seq<
    SpecField,
>
    decreases d,
{
    if d.len() == 0 {
        Seq::empty()
    } else {
        seq![merged_field(d[0], a[0], ex)] + merged_fields(d.drop_first(), a.drop_first(), ex)
    }
}

/// The merged instance, field for field.
pub open spec fn spec_merge(d: SpecConfig, a: SpecConfig, ex: Set<Seq<char>>) -> SpecConfig
    decreases d,
{
    SpecConfig { fields: merged_fields(d.fields, a.fields, ex) }
}

/// `merged_fields` resolves position by position.
pub proof fn lemma_merged_fields(d: Seq<SpecField>, a: Seq<SpecField>, ex: Set<Seq<char>>)
    requires
        d.len() == a.len(),
    ensures
        merged_fields(d, a, ex).len() == d.len(),
        forall|i: int|
            0 <= i < d.len() ==> merged_fields(d, a, ex)[i] == merged_field(d[i], a[i], ex),
    decreases d.len(),
{
    if d.len() > 0 {
        lemma_merged_fields(d.drop_first(), a.drop_first(), ex);
        assert forall|i: int|
            0 <= i < d.len() implies merged_fields(d, a, ex)[i] == merged_field(
            d[i],
            a[i],
            ex,
        ) by {
            if i > 0 {
                assert(d.drop_first()[i - 1] == d[i]);
                assert(a.drop_first()[i - 1] == a[i]);
            }
        }
    }
}

pub(crate) fn copy_ints(v: &Vec<i64>) -> (r: Vec<i64>)
    ensures
        r@ == v@,
{
    let mut r: Vec<i64> = Vec::new();
    let mut i: usize = 0;
    while i < v.len()
        invariant
            0 <= i <= v.len(),
            r@ == v@.subrange(0, i as int),
        decreases v.len() - i,
    {
        r.push(v[i]);
        i += 1;
    }
    assert(r@ =~= v@);
    r
}

pub(crate) fn clone_opt_string(o: &Option<String>) -> (r: Option<String>)
    ensures
        match (o, &r) {
            (Some(a), Some(b)) => a@ == b@,
            (None, None) => true,
            _ => false,
        },
{
    match o {
        Some(s) => Some(s.clone()),
        None => None,
    }
}

/// A deep copy of a field value, equal under the view.
pub fn clone_value(v: &FieldValue) -> (r: FieldValue)
    ensures
        view_value(r) == view_value(*v),
    decreases *v,
{
    match v {
        FieldValue::Int(i) => FieldValue::Int(*i),
        FieldValue::Flag(b) => FieldValue::Flag(*b),
        FieldValue::OptInt(o) => FieldValue::OptInt(
            match o {
                Some(i) => Some(*i),
                None => None,
            },
        ),
        FieldValue::OptText(o) => FieldValue::OptText(clone_opt_string(o)),
        FieldValue::IntList(l) => FieldValue::IntList(copy_ints(l)),
        FieldValue::Sub(c) => FieldValue::Sub(clone_config(c)),
    }
}

/// A deep copy of a field, equal under the view.
pub fn clone_field(f: &Field) -> (r: Field)
    ensures
        view_field(r) == view_field(*f),
    decreases *f,
{
    Field { name: f.name.clone(), key_override: clone_opt_string(&f.key_override), value: clone_value(&f.value) }
}

/// A deep copy of a configuration instance, equal under the view.
pub fn clone_config(c: &ConfigStruct) -> (r: ConfigStruct)
    ensures
        view_config(r) == view_config(*c),
    decreases *c,
{
    let mut fields: Vec<Field> = Vec::new();
    let mut i: usize = 0;
    while i < c.fields.len()
        invariant
            0 <= i <= c.fields.len(),
            fields@.len() == i,
            forall|j: int| 0 <= j < i ==> view_field(fields@[j]) == view_field(c.fields@[j]),
        decreases c.fields.len() - i,
    {
        let f = clone_field(&c.fields[i]);
        fields.push(f);
        i += 1;
    }
    let r = ConfigStruct { fields };
    proof {
        lemma_view_fields(r.fields@);
        lemma_view_fields(c.fields@);
        assert(view_config(r).fields =~= view_config(*c).fields);
        assert(view_config(r) =~= view_config(*c));
    }
    r
}

fn merge_ref(d: &ConfigStruct, a: &ConfigStruct, ex: &ExplicitSet) -> (r: ConfigStruct)
    requires
        same_shape(view_config(*d), view_config(*a)),
    ensures
        view_config(r) == spec_merge(view_config(*d), view_config(*a), ex@),
    decreases *d,
{
    proof {
        lemma_view_fields(d.fields@);
        lemma_view_fields(a.fields@);
        lemma_merged_fields(view_config(*d).fields, view_config(*a).fields, ex@);
    }
    let mut fields: Vec<Field> = Vec::new();
    let mut i: usize = 0;
    while i < d.fields.len()
        invariant
            0 <= i <= d.fields.len(),
            d.fields@.len() == a.fields@.len(),
            same_shape(view_config(*d), view_config(*a)),
            fields@.len() == i,
            forall|j: int|
                0 <= j < i ==> view_field(fields@[j]) == merged_field(
                    view_config(*d).fields[j],
                    view_config(*a).fields[j],
                    ex@,
                ),
        decreases d.fields.len() - i,
    {
        proof {
            lemma_view_fields(d.fields@);
            lemma_view_fields(a.fields@);
            assert(same_shape_field(view_config(*d).fields[i as int], view_config(*a).fields[i as int]));
        }
        let df = &d.fields[i];
        let af = &a.fields[i];
        let value: FieldValue = match (&df.value, &af.value) {
            (FieldValue::Sub(x), FieldValue::Sub(y)) => FieldValue::Sub(merge_ref(x, y, ex)),
            _ => {
                let key: &String = match &df.key_override {
                    Some(k) => k,
                    None => &df.name,
                };
                if ex.was_set(key) {
                    clone_value(&af.value)
                } else {
                    clone_value(&df.value)
                }
            },
        };
        let merged = Field {
            name: df.name.clone(),
            key_override: clone_opt_string(&df.key_override),
            value,
        };
        proof {
            assert(view_field(merged) == merged_field(
                view_config(*d).fields[i as int],
                view_config(*a).fields[i as int],
                ex@,
            ));
        }
        fields.push(merged);
        i += 1;
    }
    let r = ConfigStruct { fields };
    proof {
        lemma_view_fields(r.fields@);
        assert(view_config(r).fields =~= spec_merge(view_config(*d), view_config(*a), ex@).fields);
        assert(view_config(r) =~= spec_merge(view_config(*d), view_config(*a), ex@));
    }
    r
}

/// A plain field whose merge key was not explicitly supplied resolves to the
/// document instance's value, whatever the command-line instance holds.
pub proof fn lemma_unset_field_takes_document(
    d: SpecConfig,
    a: SpecConfig,
    ex: Set<Seq<char>>,
    i: int,
)
    requires
        same_shape(d, a),
        0 <= i < d.fields.len(),
        !(d.fields[i].value is Sub),
        !ex.contains(d.fields[i].merge_key()),
    ensures
        spec_merge(d, a, ex).fields[i].value == d.fields[i].value,
{
    lemma_merged_fields(d.fields, a.fields, ex);
}

/// A plain field whose merge key was explicitly supplied resolves to the
/// command-line instance's value, whatever the document holds.
pub proof fn lemma_explicit_field_takes_args(
    d: SpecConfig,
    a: SpecConfig,
    ex: Set<Seq<char>>,
    i: int,
)
    requires
        same_shape(d, a),
        0 <= i < d.fields.len(),
        !(d.fields[i].value is Sub),
        ex.contains(d.fields[i].merge_key()),
    ensures
        spec_merge(d, a, ex).fields[i].value == a.fields[i].value,
{
    lemma_merged_fields(d.fields, a.fields, ex);
}

/// Merging is structurally recursive: a flattened field's value is exactly
/// the merge of the two sub-instances, under the same explicit-set record,
/// so each sub-field follows the same resolution rules independently.
pub proof fn lemma_flatten_recursive(d: SpecConfig, a: SpecConfig, ex: Set<Seq<char>>, i: int)
    requires
        same_shape(d, a),
        0 <= i < d.fields.len(),
        d.fields[i].value is Sub,
    ensures
        a.fields[i].value is Sub,
        spec_merge(d, a, ex).fields[i].value == SpecFieldValue::Sub(
            spec_merge(d.fields[i].value->Sub_0, a.fields[i].value->Sub_0, ex),
        ),
{
    lemma_merged_fields(d.fields, a.fields, ex);
    assert(same_shape_field(d.fields[i], a.fields[i]));
}

/// Merging is a pure function of its three inputs: equal inputs give equal
/// outputs, so repeating a merge yields an equal instance.
pub proof fn lemma_merge_deterministic(
    d1: SpecConfig,
    a1: SpecConfig,
    ex1: Set<Seq<char>>,
    d2: SpecConfig,
    a2: SpecConfig,
    ex2: Set<Seq<char>>,
)
    requires
        d1 == d2,
        a1 == a2,
        ex1 == ex2,
    ensures
        spec_merge(d1, a1, ex1) == spec_merge(d2, a2, ex2),
{
}

/// A field with a key override resolves explicit-set state by the override
/// string alone: whether the field's declared name is in the record has no
/// bearing on the outcome.
pub proof fn lemma_key_override_decides(
    d: SpecConfig,
    a: SpecConfig,
    ex: Set<Seq<char>>,
    i: int,
    k: Seq<char>,
)
    requires
        same_shape(d, a),
        0 <= i < d.fields.len(),
        !(d.fields[i].value is Sub),
        d.fields[i].key_override == Some(k),
    ensures
        spec_merge(d, a, ex).fields[i].value == if ex.contains(k) {
            a.fields[i].value
        } else {
            d.fields[i].value
        },
{
    lemma_merged_fields(d.fields, a.fields, ex);
}

/// Merging never invents a value: every plain field of the output is, field
/// for field, the value of one of the two source instances.
pub proof fn lemma_no_invented_values(d: SpecConfig, a: SpecConfig, ex: Set<Seq<char>>, i: int)
    requires
        same_shape(d, a),
        0 <= i < d.fields.len(),
        !(d.fields[i].value is Sub),
    ensures
        spec_merge(d, a, ex).fields[i].value == d.fields[i].value || spec_merge(
            d,
            a,
            ex,
        ).fields[i].value == a.fields[i].value,
{
    lemma_merged_fields(d.fields, a.fields, ex);
}

/// Merge the instance filled from the document with the instance filled from
/// the command line: a flattened field is merged recursively; a plain field
/// takes the command-line value exactly when its merge key is in `ex`, and
/// the document value otherwise.
pub fn merge(from_toml: ConfigStruct, from_args: ConfigStruct, ex: &ExplicitSet) -> (r:
    ConfigStruct)
    requires
        same_shape(from_toml@, from_args@),
    ensures
        r@ == spec_merge(from_toml@, from_args@, ex@),
{
    merge_ref(&from_toml, &from_args, ex)
}

} // verus!
