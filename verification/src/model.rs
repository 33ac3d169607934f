//! The data model: a configuration structure as an ordered list of named
//! fields, its mathematical view, and the record of explicitly set keys.

use vstd::prelude::*;

verus! {

/// The value held by one field of a configuration structure.
///
/// `Sub` marks a flattened field: its value is itself a configuration
/// structure and is merged recursively instead of being compared as a value.
#[derive(Debug, PartialEq)]
pub enum FieldValue {
    Int(i64),
    Flag(bool),
    OptInt(Option<i64>),
    OptText(Option<String>),
    IntList(Vec<i64>),
    Sub(ConfigStruct),
}

/// One named field of a configuration structure.
///
/// The key under which the argument source tracks the field is normally
/// `name`; `key_override` replaces it where the structure declares an
/// explicit key.
#[derive(Debug, PartialEq)]
pub struct Field {
    pub name: String,
    pub key_override: Option<String>,
    pub value: FieldValue,
}

/// A configuration structure: an ordered list of named fields.
#[derive(Debug, PartialEq)]
pub struct ConfigStruct {
    pub fields: Vec<Field>,
}

/// Mathematical view of a `FieldValue`.
#[verifier::ext_equal]
pub enum SpecFieldValue {
    Int(int),
    Flag(bool),
    OptInt(Option<int>),
    OptText(Option<Seq<char>>),
    IntList(Seq<int>),
    Sub(SpecConfig),
}

/// Mathematical view of a `Field`.
#[verifier::ext_equal]
pub struct SpecField {
    pub name: Seq<char>,
    pub key_override: Option<Seq<char>>,
    pub value: SpecFieldValue,
}

/// Mathematical view of a `ConfigStruct`.
#[verifier::ext_equal]
pub struct SpecConfig {
    pub fields: Seq<SpecField>,
}

pub open spec fn ints_view(l: Seq<i64>) -> Seq<int> {
    l.map_values(|x: i64| x as int)
}

pub open spec fn view_value(v: FieldValue) -> SpecFieldValue
    decreases v,
{
    match v {
        FieldValue::Int(i) => SpecFieldValue::Int(i as int),
        FieldValue::Flag(b) => SpecFieldValue::Flag(b),
        FieldValue::OptInt(o) => SpecFieldValue::OptInt(
            match o {
                Some(i) => Some(i as int),
                None => None,
            },
        ),
        FieldValue::OptText(o) => SpecFieldValue::OptText(
            match o {
                Some(s) => Some(s@),
                None => None,
            },
        ),
        FieldValue::IntList(l) => SpecFieldValue::IntList(ints_view(l@)),
        FieldValue::Sub(c) => SpecFieldValue::Sub(view_config(c)),
    }
}

pub open spec fn view_field(f: Field) -> SpecField
    decreases f,
{
    SpecField {
        name: f.name@,
        key_override: match f.key_override {
            Some(k) => Some(k@),
            None => None,
        },
        value: view_value(f.value),
    }
}

pub open spec fn view_fields(s: Seq<Field>) -> Seq<SpecField>
    decreases s,
{
    if s.len() == 0 {
        Seq::empty()
    } else {
        seq![view_field(s[0])] + view_fields(s.drop_first())
    }
}

pub open spec fn view_config(c: ConfigStruct) -> SpecConfig
    decreases c,
{
    SpecConfig { fields: view_fields(c.fields@) }
}

/// `view_fields` maps the view of each field, position by position.
pub proof fn lemma_view_fields(s: Seq<Field>)
    ensures
        view_fields(s).len() == s.len(),
        forall|i: int| 0 <= i < s.len() ==> view_fields(s)[i] == view_field(s[i]),
    decreases s.len(),
{
    if s.len() > 0 {
        lemma_view_fields(s.drop_first());
        assert forall|i: int| 0 <= i < s.len() implies view_fields(s)[i] == view_field(s[i]) by {
            if i > 0 {
                assert(s.drop_first()[i - 1] == s[i]);
            }
        }
    }
}

impl View for FieldValue {
    type V = SpecFieldValue;

    open spec fn view(&self) -> SpecFieldValue {
        view_value(*self)
    }
}

impl View for Field {
    type V = SpecField;

    open spec fn view(&self) -> SpecField {
        view_field(*self)
    }
}

impl View for ConfigStruct {
    type V = SpecConfig;

    open spec fn view(&self) -> SpecConfig {
        view_config(*self)
    }
}

impl SpecField {
    /// The key under which the argument source tracks this field: the
    /// declared override where present, else the field's own name.
    pub open spec fn merge_key(self) -> Seq<char> {
        match self.key_override {
            Some(k) => k,
            None => self.name,
        }
    }
}

/// The record of which field keys the argument source filled from the token
/// list itself rather than from a default.
#[derive(Debug)]
pub struct ExplicitSet {
    pub keys: Vec<String>,
}

impl View for ExplicitSet {
    type V = Set<Seq<char>>;

    open spec fn view(&self) -> Set<Seq<char>> {
        Set::new(|k: Seq<char>| exists|j: int| 0 <= j < self.keys@.len() && self.keys@[j]@ == k)
    }
}

impl ExplicitSet {
    /// Answers whether `key` was explicitly supplied by the argument source.
    pub fn was_set(&self, key: &String) -> (r: bool)
        ensures
            r == self@.contains(key@),
    {
        let mut i: usize = 0;
        while i < self.keys.len()
            invariant
                0 <= i <= self.keys.len(),
                forall|j: int| 0 <= j < i ==> self.keys@[j]@ != key@,
            decreases self.keys.len() - i,
        {
            if self.keys[i].eq(key) {
                assert(self.keys@[i as int]@ == key@);
                return true;
            }
            i += 1;
        }
        false
    }
}

} // verus!
