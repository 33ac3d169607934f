//! The argument side: the flat list of argument declarations a structure
//! shape induces (flattened substructures contribute their fields to the one
//! shared namespace), the trusted calls into the `clap` crate, and the
//! verified building of a structure instance from what the token list
//! supplied, defaulting every argument that was not given.

use vstd::prelude::*;

use crate::errors::Error;
use crate::merge::{clone_opt_string, copy_ints};
use crate::model::{
    ConfigStruct, Field, FieldValue, SpecConfig, SpecField, SpecFieldValue, lemma_view_fields,
    view_config, view_field, view_fields, view_value,
};

verus! {

/// One command-line argument a structure shape declares: the id under which
/// explicit-set state is tracked (the merge key), the long flag name (the
/// field's declared name), and whether the argument takes a value (every
/// field type but a flag does).
#[derive(Debug, PartialEq)]
pub struct ArgDecl {
    pub id: String,
    pub long: String,
    pub takes_value: bool,
}

/// Mathematical view of an `ArgDecl`.
#[verifier::ext_equal]
pub struct SpecArgDecl {
    pub id: Seq<char>,
    pub long: Seq<char>,
    pub takes_value: bool,
}

pub open spec fn view_decl(d: ArgDecl) -> SpecArgDecl {
    SpecArgDecl { id: d.id@, long: d.long@, takes_value: d.takes_value }
}

pub open spec fn view_decls(s: Seq<ArgDecl>) -> Seq<SpecArgDecl> {
    s.map_values(|d: ArgDecl| view_decl(d))
}

impl View for ArgDecl {
    type V = SpecArgDecl;

    open spec fn view(&self) -> SpecArgDecl {
        view_decl(*self)
    }
}

/// The arguments one field contributes: a flattened field contributes its
/// substructure's arguments, a plain field one argument under its merge key.
pub open spec fn decl_of_field(f: SpecField) -> Seq<SpecArgDecl>
    decreases f,
{
    match f.value {
        SpecFieldValue::Sub(c) => spec_decls(c),
        _ => seq![
            SpecArgDecl { id: f.merge_key(), long: f.name, takes_value: !(f.value is Flag) },
        ],
    }
}

pub open spec fn decls_of_fields(fs: Seq<SpecField>) -> Seq<SpecArgDecl>
    decreases fs,
{
    if fs.len() == 0 {
        Seq::empty()
    } else {
        decl_of_field(fs[0]) + decls_of_fields(fs.drop_first())
    }
}

/// The flat argument list a structure shape declares, in field order.
pub open spec fn spec_decls(c: SpecConfig) -> Seq<SpecArgDecl>
    decreases c,
{
    decls_of_fields(c.fields)
}

/// A usable argument name: nonempty and not starting with a dash.
pub open spec fn key_ok(s: Seq<char>) -> bool {
    s.len() > 0 && s[0] != '-'
}

/// What the argument parser demands of a declaration list: every id and long
/// name usable, all ids distinct, all long names distinct.
pub open spec fn decls_ok(ds: Seq<SpecArgDecl>) -> bool {
    &&& forall|i: int| 0 <= i < ds.len() ==> key_ok((#[trigger] ds[i]).id) && key_ok(ds[i].long)
    &&& forall|i: int, j: int|
        0 <= i < j < ds.len() ==> (#[trigger] ds[i]).id != (#[trigger] ds[j]).id && ds[i].long
            != ds[j].long
}

/// A structure shape fit for loading: its argument declarations are usable
/// and collision-free. A shape is validated once, when it is declared, never
/// at merge time.
pub open spec fn wf_shape(c: SpecConfig) -> bool {
    decls_ok(spec_decls(c))
}

fn collect_decls_ref(fields: &Vec<Field>, fidx: usize) -> (r: Vec<ArgDecl>)
    requires
        fidx <= fields@.len(),
    ensures
        view_decls(r@) == decls_of_fields(view_fields(fields@).skip(fidx as int)),
    decreases *fields, fields@.len() - fidx,
{
    proof {
        lemma_view_fields(fields@);
    }
    if fidx == fields.len() {
        let r: Vec<ArgDecl> = Vec::new();
        proof {
            assert(view_fields(fields@).skip(fidx as int) =~= Seq::<SpecField>::empty());
            assert(view_decls(r@) =~= decls_of_fields(view_fields(fields@).skip(fidx as int)));
        }
        return r;
    }
    let ghost tail = view_fields(fields@).skip(fidx as int);
    proof {
        assert(tail[0] == view_fields(fields@)[fidx as int]);
        assert(tail.drop_first() =~= view_fields(fields@).skip(fidx as int + 1));
    }
    let f = &fields[fidx];
    let mut head: Vec<ArgDecl> = match &f.value {
        FieldValue::Sub(c) => collect_decls_ref(&c.fields, 0),
        _ => {
            let id: String = match &f.key_override {
                Some(k) => k.clone(),
                None => f.name.clone(),
            };
            let takes_value = !matches!(&f.value, FieldValue::Flag(_));
            let mut one: Vec<ArgDecl> = Vec::new();
            one.push(ArgDecl { id, long: f.name.clone(), takes_value });
            proof {
                assert(view_decls(one@) =~= decl_of_field(view_field(fields@[fidx as int])));
            }
            one
        },
    };
    proof {
        if f.value is Sub {
            assert(view_fields(f.value->Sub_0.fields@).skip(0) =~= view_fields(
                f.value->Sub_0.fields@,
            ));
            assert(view_decls(head@) =~= decl_of_field(view_field(fields@[fidx as int])));
        }
    }
    let mut rest = collect_decls_ref(fields, fidx + 1);
    let ghost head_snap = head@;
    let ghost rest_snap = rest@;
    head.append(&mut rest);
    proof {
        assert(head@ == head_snap + rest_snap);
        assert forall|j: int|
            0 <= j < head@.len() implies view_decls(head@)[j] == (view_decls(head_snap)
            + view_decls(rest_snap))[j] by {
            if j < head_snap.len() {
                assert(head@[j] == head_snap[j]);
            } else {
                assert(head@[j] == rest_snap[j - head_snap.len()]);
            }
        }
        assert(view_decls(head@) =~= view_decls(head_snap) + view_decls(rest_snap));
        assert(view_decls(head@) =~= decls_of_fields(tail));
    }
    head
}

pub open spec fn is_digit(c: char) -> bool {
    '0' <= c && c <= '9'
}

pub open spec fn digit_val(c: char) -> int {
    c as int - '0' as int
}

pub open spec fn all_digits(s: Seq<char>) -> bool {
    forall|i: int| 0 <= i < s.len() ==> is_digit(#[trigger] s[i])
}

/// The number a digit string denotes, most significant digit first.
pub open spec fn digits_val(s: Seq<char>) -> int
    decreases s.len(),
{
    if s.len() == 0 {
        0
    } else {
        digits_val(s.drop_last()) * 10 + digit_val(s.last())
    }
}

/// The integer a token denotes: an optional sign followed by one or more
/// decimal digits; anything else denotes nothing.
pub open spec fn spec_parse_int(s: Seq<char>) -> Option<int> {
    if s.len() > 0 && (s[0] == '-' || s[0] == '+') {
        if s.len() > 1 && all_digits(s.skip(1)) {
            if s[0] == '-' {
                Some(-digits_val(s.skip(1)))
            } else {
                Some(digits_val(s.skip(1)))
            }
        } else {
            None
        }
    } else if s.len() > 0 && all_digits(s) {
        Some(digits_val(s))
    } else {
        None
    }
}

/// As `spec_parse_int`, but a value outside the signed 64-bit range also
/// denotes nothing.
pub open spec fn spec_parse_i64(s: Seq<char>) -> Option<int> {
    match spec_parse_int(s) {
        Some(v) => if i64::MIN <= v <= i64::MAX {
            Some(v)
        } else {
            None
        },
        None => None,
    }
}

/// A digit string denotes a number that is not negative.
pub proof fn lemma_digits_nonneg(s: Seq<char>)
    requires
        all_digits(s),
    ensures
        digits_val(s) >= 0,
    decreases s.len(),
{
    if s.len() > 0 {
        assert(all_digits(s.drop_last())) by {
            assert(forall|i: int| 0 <= i < s.len() - 1 ==> s.drop_last()[i] == s[i]);
        }
        lemma_digits_nonneg(s.drop_last());
    }
}

/// Reading more digits never shrinks the denoted number.
pub proof fn lemma_digits_grow(s: Seq<char>, i: int)
    requires
        all_digits(s),
        0 <= i <= s.len(),
    ensures
        digits_val(s) >= digits_val(s.take(i)),
    decreases s.len() - i,
{
    if i == s.len() {
        assert(s.take(i) =~= s);
    } else {
        assert(s.take(i + 1).drop_last() =~= s.take(i));
        assert(s.take(i + 1).last() == s[i]);
        assert(all_digits(s.take(i))) by {
            assert(forall|j: int| 0 <= j < i ==> s.take(i)[j] == s[j]);
        }
        lemma_digits_nonneg(s.take(i));
        assert(digits_val(s.take(i + 1)) >= digits_val(s.take(i)));
        lemma_digits_grow(s, i + 1);
    }
}

/// Read a signed 64-bit integer from a decimal token: an optional sign
/// followed by one or more digits, rejecting anything else and any value out
/// of range.
pub fn parse_i64(s: &str) -> (r: Option<i64>)
    ensures
        match r {
            Some(v) => spec_parse_i64(s@) == Some(v as int),
            None => spec_parse_i64(s@) is None,
        },
{
    let n = s.unicode_len();
    if n == 0 {
        return None;
    }
    let first = s.get_char(0);
    let neg = first == '-';
    let start: usize = if first == '-' || first == '+' {
        1
    } else {
        0
    };
    if start == 1 && n == 1 {
        return None;
    }
    let limit: u64 = if neg {
        9223372036854775808
    } else {
        9223372036854775807
    };
    let ghost digits = s@.skip(start as int);
    proof {
        assert(digits.len() == n - start >= 1);
        if start == 0 {
            assert(digits =~= s@);
        }
    }
    let mut acc: u64 = 0;
    let mut i: usize = start;
    while i < n
        invariant
            start <= i <= n,
            n == s@.len(),
            start == if s@[0] == '-' || s@[0] == '+' {
                1int
            } else {
                0int
            },
            n > start,
            neg == (s@[0] == '-'),
            digits == s@.skip(start as int),
            all_digits(digits.take(i - start)),
            acc as int == digits_val(digits.take(i - start)),
            acc <= limit,
            limit == if neg {
                9223372036854775808u64
            } else {
                9223372036854775807u64
            },
        decreases n - i,
    {
        let c = s.get_char(i);
        let cu = c as u32;
        proof {
            assert(digits[i - start] == s@[i as int]);
        }
        if cu < 48 || cu > 57 {
            proof {
                assert(!is_digit(digits[i - start]));
                assert(!all_digits(digits));
                assert(spec_parse_i64(s@) is None);
            }
            return None;
        }
        let d: u64 = (cu - 48) as u64;
        proof {
            assert(is_digit(digits[i - start]));
            assert(d as int == digit_val(digits[i - start]));
            assert(digits.take(i - start + 1).drop_last() =~= digits.take(i - start));
            assert(digits.take(i - start + 1).last() == digits[i - start]);
        }
        let wide: u128 = acc as u128 * 10 + d as u128;
        if wide > limit as u128 {
            proof {
                assert(digits_val(digits.take(i - start + 1)) == wide as int);
                if all_digits(digits) {
                    lemma_digits_grow(digits, i - start + 1);
                    assert(digits_val(digits) > limit as int);
                    if start == 1 {
                        assert(digits == s@.skip(1));
                        if neg {
                            assert(spec_parse_int(s@) == Some(-digits_val(s@.skip(1))));
                            assert(-digits_val(digits) < i64::MIN);
                        } else {
                            assert(spec_parse_int(s@) == Some(digits_val(s@.skip(1))));
                            assert(digits_val(digits) > i64::MAX);
                        }
                    } else {
                        assert(digits == s@);
                        assert(spec_parse_int(s@) == Some(digits_val(s@)));
                        assert(digits_val(digits) > i64::MAX);
                    }
                    assert(spec_parse_i64(s@) is None);
                } else {
                    assert(spec_parse_i64(s@) is None);
                }
            }
            return None;
        }
        acc = wide as u64;
        i += 1;
        proof {
            assert(all_digits(digits.take(i - start))) by {
                assert(forall|j: int|
                    0 <= j < i - start ==> digits.take(i as int - start)[j] == digits[j]);
            }
        }
    }
    proof {
        assert(digits.take(n - start) =~= digits);
        assert(all_digits(digits));
        assert(acc as int == digits_val(digits));
        if start == 0 {
            assert(digits =~= s@);
            assert(spec_parse_int(s@) == Some(digits_val(s@)));
        }
    }
    if neg {
        if acc == 9223372036854775808 {
            Some(i64::MIN)
        } else {
            Some(-(acc as i64))
        }
    } else {
        Some(acc as i64)
    }
}

/// The flat argument list of a shape, as the argument parser is handed it.
pub fn collect_decls(shape: &ConfigStruct) -> (r: Vec<ArgDecl>)
    ensures
        view_decls(r@) == spec_decls(shape@),
{
    let r = collect_decls_ref(&shape.fields, 0);
    proof {
        assert(view_fields(shape.fields@).skip(0) =~= view_fields(shape.fields@));
    }
    r
}

/// What the token list supplied for one declared argument: whether it
/// occurred at all, and the values of its occurrences in order.
#[derive(Debug, PartialEq)]
pub struct ArgInput {
    pub explicit: bool,
    pub values: Vec<String>,
}

/// Mathematical view of an `ArgInput`.
#[verifier::ext_equal]
pub struct SpecArgInput {
    pub explicit: bool,
    pub values: Seq<Seq<char>>,
}

pub open spec fn strings_view(s: Seq<String>) -> Seq<Seq<char>> {
    s.map_values(|x: String| x@)
}

pub open spec fn view_input(a: ArgInput) -> SpecArgInput {
    SpecArgInput { explicit: a.explicit, values: strings_view(a.values@) }
}

pub open spec fn view_inputs(s: Seq<ArgInput>) -> Seq<SpecArgInput> {
    s.map_values(|a: ArgInput| view_input(a))
}

impl View for ArgInput {
    type V = SpecArgInput;

    open spec fn view(&self) -> SpecArgInput {
        view_input(*self)
    }
}

/// The integers a value list denotes, or nothing where any value is not a
/// well-formed 64-bit integer.
pub open spec fn parsed_list(vals: Seq<Seq<char>>) -> Option<Seq<int>> {
    if forall|i: int| 0 <= i < vals.len() ==> spec_parse_i64(#[trigger] vals[i]) is Some {
        Some(vals.map_values(|v: Seq<char>| spec_parse_i64(v)->Some_0))
    } else {
        None
    }
}

/// What one field becomes from the argument source. A plain field that did
/// not occur keeps its declared default. One that occurred takes the
/// supplied value: a flag becomes true, a valued field takes its single
/// occurrence's value, a list field all occurrences' values; a value that
/// does not parse, or a repeated occurrence of a single-valued field, is an
/// argument error (`None`). A flattened field is built recursively from its
/// substructure's slice of the inputs.
pub open spec fn build_value(dv: SpecFieldValue, ins: Seq<SpecArgInput>) -> Option<
    SpecFieldValue,
>
    decreases dv,
{
    match dv {
        SpecFieldValue::Int(d) => if !ins[0].explicit {
            Some(SpecFieldValue::Int(d))
        } else if ins[0].values.len() == 1 {
            match spec_parse_i64(ins[0].values[0]) {
                Some(v) => Some(SpecFieldValue::Int(v)),
                None => None,
            }
        } else {
            None
        },
        SpecFieldValue::Flag(d) => if ins[0].explicit {
            Some(SpecFieldValue::Flag(true))
        } else {
            Some(SpecFieldValue::Flag(d))
        },
        SpecFieldValue::OptInt(d) => if !ins[0].explicit {
            Some(SpecFieldValue::OptInt(d))
        } else if ins[0].values.len() == 1 {
            match spec_parse_i64(ins[0].values[0]) {
                Some(v) => Some(SpecFieldValue::OptInt(Some(v))),
                None => None,
            }
        } else {
            None
        },
        SpecFieldValue::OptText(d) => if !ins[0].explicit {
            Some(SpecFieldValue::OptText(d))
        } else if ins[0].values.len() == 1 {
            Some(SpecFieldValue::OptText(Some(ins[0].values[0])))
        } else {
            None
        },
        SpecFieldValue::IntList(d) => if !ins[0].explicit {
            Some(SpecFieldValue::IntList(d))
        } else {
            match parsed_list(ins[0].values) {
                Some(l) => Some(SpecFieldValue::IntList(l)),
                None => None,
            }
        },
        SpecFieldValue::Sub(c) => match build_config(c, ins) {
            Some(sc) => Some(SpecFieldValue::Sub(sc)),
            None => None,
        },
    }
}

pub open spec fn field_decl_len(f: SpecField) -> int {
    decl_of_field(f).len() as int
}

pub open spec fn build_fields(fs: Seq<SpecField>, ins: Seq<SpecArgInput>) -> Option<
    Seq<SpecField>,
>
    decreases fs,
{
    if fs.len() == 0 {
        Some(Seq::empty())
    } else {
        match build_value(fs[0].value, ins.take(field_decl_len(fs[0]))) {
            Some(v) => match build_fields(fs.drop_first(), ins.skip(field_decl_len(fs[0]))) {
                Some(rest) => Some(
                    seq![SpecField { name: fs[0].name, key_override: fs[0].key_override, value: v }]
                        + rest,
                ),
                None => None,
            },
            None => None,
        }
    }
}

/// The instance the argument source yields for a structure shape, from the
/// per-argument inputs in declaration order.
pub open spec fn build_config(c: SpecConfig, ins: Seq<SpecArgInput>) -> Option<SpecConfig>
    decreases c,
{
    match build_fields(c.fields, ins) {
        Some(fs) => Some(SpecConfig { fields: fs }),
        None => None,
    }
}

/// The merge keys the token list explicitly supplied: the ids of the
/// declared arguments that occurred at least once.
pub open spec fn explicit_keys(ds: Seq<SpecArgDecl>, ins: Seq<SpecArgInput>) -> Set<Seq<char>> {
    Set::new(
        |k: Seq<char>|
            exists|i: int|
                0 <= i < ds.len() && i < ins.len() && (#[trigger] ds[i].id) == k
                    && ins[i].explicit,
    )
}

fn arg_err() -> (e: Error)
    ensures
        e is Argument,
{
    Error::Argument("argument value does not match the field type".to_owned())
}

fn parse_list(vals: &Vec<String>) -> (r: Result<Vec<i64>, Error>)
    ensures
        match r {
            Ok(l) => parsed_list(strings_view(vals@)) == Some(crate::model::ints_view(l@)),
            Err(e) => parsed_list(strings_view(vals@)) is None && e is Argument,
        },
{
    let ghost vs = strings_view(vals@);
    let mut acc: Vec<i64> = Vec::new();
    let mut i: usize = 0;
    while i < vals.len()
        invariant
            0 <= i <= vals.len(),
            vs == strings_view(vals@),
            vs.len() == vals@.len(),
            acc@.len() == i,
            forall|j: int| 0 <= j < vs.len() ==> vs[j] == vals@[j]@,
            forall|j: int| 0 <= j < i ==> spec_parse_i64(#[trigger] vs[j]) is Some,
            forall|j: int|
                0 <= j < i ==> (#[trigger] acc@[j]) as int == spec_parse_i64(vs[j])->Some_0,
        decreases vals.len() - i,
    {
        match parse_i64(vals[i].as_str()) {
            Some(v) => {
                acc.push(v);
            },
            None => {
                proof {
                    assert(spec_parse_i64(vs[i as int]) is None);
                }
                return Err(arg_err());
            },
        }
        i += 1;
    }
    proof {
        assert forall|j: int|
            0 <= j < vs.len() implies crate::model::ints_view(acc@)[j] == vs.map_values(
            |v: Seq<char>| spec_parse_i64(v)->Some_0,
        )[j] by {
            assert(crate::model::ints_view(acc@)[j] == acc@[j] as int);
        }
        assert(crate::model::ints_view(acc@) =~= vs.map_values(
            |v: Seq<char>| spec_parse_i64(v)->Some_0,
        ));
    }
    Ok(acc)
}

fn build_plain(dv: &FieldValue, input: &ArgInput) -> (r: Result<FieldValue, Error>)
    requires
        !(view_value(*dv) is Sub),
    ensures
        match r {
            Ok(v) => build_value(view_value(*dv), seq![view_input(*input)]) == Some(
                view_value(v),
            ),
            Err(e) => build_value(view_value(*dv), seq![view_input(*input)]) is None && e
                is Argument,
        },
{
    proof {
        assert(seq![view_input(*input)][0] == view_input(*input));
        assert(forall|j: int|
            0 <= j < input.values@.len() ==> view_input(*input).values[j] == input.values@[j]@);
    }
    match dv {
        FieldValue::Int(d) => {
            if !input.explicit {
                Ok(FieldValue::Int(*d))
            } else if input.values.len() == 1 {
                match parse_i64(input.values[0].as_str()) {
                    Some(v) => Ok(FieldValue::Int(v)),
                    None => Err(arg_err()),
                }
            } else {
                Err(arg_err())
            }
        },
        FieldValue::Flag(d) => {
            if input.explicit {
                Ok(FieldValue::Flag(true))
            } else {
                Ok(FieldValue::Flag(*d))
            }
        },
        FieldValue::OptInt(d) => {
            if !input.explicit {
                Ok(FieldValue::OptInt(match d {
                    Some(i) => Some(*i),
                    None => None,
                }))
            } else if input.values.len() == 1 {
                match parse_i64(input.values[0].as_str()) {
                    Some(v) => Ok(FieldValue::OptInt(Some(v))),
                    None => Err(arg_err()),
                }
            } else {
                Err(arg_err())
            }
        },
        FieldValue::OptText(d) => {
            if !input.explicit {
                Ok(FieldValue::OptText(clone_opt_string(d)))
            } else if input.values.len() == 1 {
                Ok(FieldValue::OptText(Some(input.values[0].clone())))
            } else {
                Err(arg_err())
            }
        },
        FieldValue::IntList(d) => {
            if !input.explicit {
                Ok(FieldValue::IntList(copy_ints(d)))
            } else {
                match parse_list(&input.values) {
                    Ok(l) => Ok(FieldValue::IntList(l)),
                    Err(e) => Err(e),
                }
            }
        },
        FieldValue::Sub(_) => {
            proof {
                assert(false);
            }
            Err(arg_err())
        },
    }
}

fn build_fields_ref(fields: &Vec<Field>, fidx: usize, inputs: &Vec<ArgInput>, off: usize) -> (r:
    Result<(Vec<Field>, usize), Error>)
    requires
        fidx <= fields@.len(),
        off + decls_of_fields(view_fields(fields@).skip(fidx as int)).len() <= inputs@.len(),
    ensures
        match r {
            Ok(p) => {
                &&& p.1 == off + decls_of_fields(view_fields(fields@).skip(fidx as int)).len()
                &&& build_fields(
                    view_fields(fields@).skip(fidx as int),
                    view_inputs(inputs@).subrange(off as int, p.1 as int),
                ) == Some(view_fields(p.0@))
            },
            Err(e) => build_fields(
                view_fields(fields@).skip(fidx as int),
                view_inputs(inputs@).subrange(
                    off as int,
                    off + decls_of_fields(view_fields(fields@).skip(fidx as int)).len(),
                ),
            ) is None && e is Argument,
        },
    decreases *fields, fields@.len() - fidx,
{
    proof {
        lemma_view_fields(fields@);
    }
    let total = inputs.len();
    let ghost all_inputs = view_inputs(inputs@);
    proof {
        assert(total == inputs@.len());
        assert(all_inputs.len() == inputs@.len());
        assert(forall|j: int|
            0 <= j < inputs@.len() ==> all_inputs[j] == view_input(inputs@[j]));
    }
    if fidx == fields.len() {
        let out: Vec<Field> = Vec::new();
        proof {
            assert(view_fields(fields@).skip(fidx as int) =~= Seq::<SpecField>::empty());
            assert(view_fields(out@) =~= Seq::<SpecField>::empty());
        }
        return Ok((out, off));
    }
    let ghost tail = view_fields(fields@).skip(fidx as int);
    proof {
        assert(tail[0] == view_fields(fields@)[fidx as int]);
        assert(tail.drop_first() =~= view_fields(fields@).skip(fidx as int + 1));
        assert(decls_of_fields(tail) == decl_of_field(tail[0]) + decls_of_fields(
            tail.drop_first(),
        ));
    }
    let f = &fields[fidx];
    let step: (FieldValue, usize) = match &f.value {
        FieldValue::Sub(c) => {
            proof {
                assert(view_fields(c.fields@).skip(0) =~= view_fields(c.fields@));
                assert(decl_of_field(tail[0]) == spec_decls(view_config(*c)));
            }
            match build_fields_ref(&c.fields, 0, inputs, off) {
                Ok(p) => {
                    let sub = ConfigStruct { fields: p.0 };
                    proof {
                        assert(build_config(
                            view_config(*c),
                            all_inputs.subrange(off as int, p.1 as int),
                        ) == Some(view_config(sub)));
                    }
                    (FieldValue::Sub(sub), p.1)
                },
                Err(e) => {
                    proof {
                        let k = field_decl_len(tail[0]);
                        assert(all_inputs.subrange(off as int, off + k).take(k)
                            =~= all_inputs.subrange(off as int, off + k));
                        assert(build_value(
                            tail[0].value,
                            all_inputs.subrange(off as int, off + k),
                        ) is None);
                        assert(build_fields(
                            tail,
                            all_inputs.subrange(off as int, off + decls_of_fields(tail).len()),
                        ) is None) by {
                            let whole = all_inputs.subrange(
                                off as int,
                                off + decls_of_fields(tail).len(),
                            );
                            assert(whole.take(k) =~= all_inputs.subrange(off as int, off + k));
                        }
                    }
                    return Err(e);
                },
            }
        },
        _ => {
            let input = &inputs[off];
            proof {
                assert(decl_of_field(tail[0]).len() == 1);
                assert(all_inputs.subrange(off as int, off + 1) =~= seq![
                    view_input(inputs@[off as int]),
                ]);
            }
            match build_plain(&f.value, input) {
                Ok(v) => {
                    proof {
                        assert(decls_of_fields(tail).len() >= 1);
                    }
                    (v, off + 1)
                },
                Err(e) => {
                    proof {
                        assert(build_fields(
                            tail,
                            all_inputs.subrange(off as int, off + decls_of_fields(tail).len()),
                        ) is None) by {
                            let whole = all_inputs.subrange(
                                off as int,
                                off + decls_of_fields(tail).len(),
                            );
                            assert(whole.take(1) =~= seq![view_input(inputs@[off as int])]);
                        }
                    }
                    return Err(e);
                },
            }
        },
    };
    let (value, mid) = step;
    let ghost k = field_decl_len(tail[0]);
    proof {
        assert(mid == off + k);
        assert(decls_of_fields(tail.drop_first()).len() == decls_of_fields(tail).len() - k);
    }
    match build_fields_ref(fields, fidx + 1, inputs, mid) {
        Ok(p) => {
            let (rest, next) = p;
            let built = Field {
                name: f.name.clone(),
                key_override: clone_opt_string(&f.key_override),
                value,
            };
            let mut out = rest;
            out.insert(0, built);
            proof {
                let whole = all_inputs.subrange(off as int, next as int);
                assert(whole.take(k) =~= all_inputs.subrange(off as int, mid as int));
                assert(whole.skip(k) =~= all_inputs.subrange(mid as int, next as int));
                if f.value is Sub {
                    assert(whole.take(k).take(k) =~= whole.take(k));
                    assert(build_value(tail[0].value, whole.take(k)) == Some(view_value(value)));
                } else {
                    assert(whole.take(k) =~= seq![view_input(inputs@[off as int])]);
                    assert(build_value(tail[0].value, whole.take(k)) == Some(view_value(value)));
                }
                lemma_view_fields(out@);
                lemma_view_fields(p.0@);
                assert(out@ == seq![built] + p.0@);
                assert(view_fields(out@) =~= seq![view_field(built)] + view_fields(p.0@)) by {
                    lemma_view_fields(seq![built] + p.0@);
                    assert(forall|j: int|
                        0 < j < out@.len() ==> out@[j] == p.0@[j - 1]);
                    assert(out@[0] == built);
                }
                assert(view_field(built) == (SpecField {
                    name: tail[0].name,
                    key_override: tail[0].key_override,
                    value: view_value(value),
                }));
                assert(build_fields(tail, whole) == Some(view_fields(out@)));
            }
            Ok((out, next))
        },
        Err(e) => {
            proof {
                let whole = all_inputs.subrange(off as int, off + decls_of_fields(tail).len());
                assert(whole.take(k) =~= all_inputs.subrange(off as int, mid as int));
                assert(whole.skip(k) =~= all_inputs.subrange(
                    mid as int,
                    mid + decls_of_fields(tail.drop_first()).len(),
                ));
                if f.value is Sub {
                    assert(build_value(tail[0].value, whole.take(k)) == Some(view_value(value)));
                } else {
                    assert(whole.take(k) =~= seq![view_input(inputs@[off as int])]);
                    assert(build_value(tail[0].value, whole.take(k)) == Some(view_value(value)));
                }
            }
            Err(e)
        },
    }
}

/// Build the instance the argument source yields: every argument that
/// occurred contributes its value under the field it declares, every other
/// field keeps its declared default.
pub fn load_from_args(shape: &ConfigStruct, inputs: &Vec<ArgInput>) -> (r: Result<
    ConfigStruct,
    Error,
>)
    requires
        inputs@.len() == spec_decls(shape@).len(),
    ensures
        match r {
            Ok(c) => build_config(shape@, view_inputs(inputs@)) == Some(c@),
            Err(e) => build_config(shape@, view_inputs(inputs@)) is None && e is Argument,
        },
{
    proof {
        assert(view_fields(shape.fields@).skip(0) =~= view_fields(shape.fields@));
        assert(view_inputs(inputs@).subrange(0, inputs@.len() as int) =~= view_inputs(inputs@));
        assert(view_inputs(inputs@).len() == inputs@.len());
    }
    match build_fields_ref(&shape.fields, 0, inputs, 0) {
        Ok(p) => Ok(ConfigStruct { fields: p.0 }),
        Err(e) => Err(e),
    }
}

fn key_usable(s: &String) -> (r: bool)
    ensures
        r == key_ok(s@),
{
    let n = s.as_str().unicode_len();
    if n == 0 {
        return false;
    }
    let c = s.as_str().get_char(0);
    c != '-'
}

/// Check a shape at declaration time: its argument declarations must be
/// usable and collision-free, or the shape is rejected before any load.
pub fn validate_shape(shape: &ConfigStruct) -> (r: bool)
    ensures
        r == wf_shape(shape@),
{
    let decls = collect_decls(shape);
    let ghost ds = view_decls(decls@);
    proof {
        assert(forall|j: int| 0 <= j < decls@.len() ==> ds[j] == view_decl(decls@[j]));
    }
    let n = decls.len();
    let mut i: usize = 0;
    while i < n
        invariant
            0 <= i <= n,
            n == decls@.len(),
            ds == view_decls(decls@),
            ds.len() == decls@.len(),
            ds == spec_decls(shape@),
            forall|j: int| 0 <= j < decls@.len() ==> ds[j] == view_decl(decls@[j]),
            forall|t: int| 0 <= t < i ==> key_ok((#[trigger] ds[t]).id) && key_ok(ds[t].long),
        decreases n - i,
    {
        if !key_usable(&decls[i].id) || !key_usable(&decls[i].long) {
            proof {
                assert(!(key_ok(ds[i as int].id) && key_ok(ds[i as int].long)));
                assert(!decls_ok(ds)) by {
                    if decls_ok(ds) {
                        assert(key_ok(ds[i as int].id) && key_ok(ds[i as int].long));
                    }
                }
            }
            return false;
        }
        i += 1;
    }
    let mut a: usize = 0;
    while a < n
        invariant
            0 <= a <= n,
            n == decls@.len(),
            ds == view_decls(decls@),
            ds.len() == decls@.len(),
            ds == spec_decls(shape@),
            forall|j: int| 0 <= j < decls@.len() ==> ds[j] == view_decl(decls@[j]),
            forall|t: int| 0 <= t < n ==> key_ok((#[trigger] ds[t]).id) && key_ok(ds[t].long),
            forall|t: int, u: int|
                0 <= t < u < n && t < a ==> (#[trigger] ds[t].id) != (#[trigger] ds[u].id)
                    && ds[t].long != ds[u].long,
        decreases n - a,
    {
        let mut b: usize = a + 1;
        while b < n
            invariant
                0 <= a < n,
                a < b <= n,
                n == decls@.len(),
                ds == view_decls(decls@),
                ds.len() == decls@.len(),
                ds == spec_decls(shape@),
                forall|j: int| 0 <= j < decls@.len() ==> ds[j] == view_decl(decls@[j]),
                forall|u: int|
                    a < u < b ==> ds[a as int].id != (#[trigger] ds[u].id) && ds[a as int].long
                        != ds[u].long,
            decreases n - b,
        {
            if decls[a].id.eq(&decls[b].id) || decls[a].long.eq(&decls[b].long) {
                proof {
                    assert(ds[a as int].id == ds[b as int].id || ds[a as int].long == ds[
                        b as int].long);
                    assert(!decls_ok(ds)) by {
                        if decls_ok(ds) {
                            assert(ds[a as int].id != ds[b as int].id && ds[a as int].long != ds[
                                b as int].long);
                        }
                    }
                }
                return false;
            }
            b += 1;
        }
        a += 1;
    }
    true
}

/// Declares clap::ArgMatches, the result of parsing a token list.
#[verifier::external_type_specification]
#[verifier::external_body]
pub struct ExArgMatches(clap::ArgMatches);

/// The values a parse result holds for the argument `id`: one per
/// occurrence, in order, or nothing where the token list did not mention it.
/// A fixed parse result always reads the same.
pub uninterp spec fn matches_values_of(m: clap::ArgMatches, id: Seq<char>) -> Option<
    Seq<Seq<char>>,
>;

/// How often the counted flag `id` occurred in a parse result; an argument
/// that never occurred counts zero. A fixed parse result always reads the
/// same.
pub uninterp spec fn matches_count_of(m: clap::ArgMatches, id: Seq<char>) -> nat;

/// What one declared argument contributes, read off a parse result: a valued
/// argument is explicit with its values exactly where the token list
/// mentioned it; a flag is explicit where it occurred at least once.
pub open spec fn spec_input_of(m: clap::ArgMatches, d: SpecArgDecl) -> SpecArgInput {
    if d.takes_value {
        match matches_values_of(m, d.id) {
            Some(vs) => SpecArgInput { explicit: true, values: vs },
            None => SpecArgInput { explicit: false, values: Seq::empty() },
        }
    } else {
        SpecArgInput { explicit: matches_count_of(m, d.id) > 0, values: Seq::empty() }
    }
}

/// What a parse result supplies for each declared argument, in order.
pub open spec fn spec_inputs_of(m: clap::ArgMatches, ds: Seq<SpecArgDecl>) -> Seq<SpecArgInput> {
    Seq::new(ds.len(), |i: int| spec_input_of(m, ds[i]))
}

/// What parsing a token list against a declaration list supplies for each
/// declared argument, or nothing where the token list is rejected. Parsing
/// is a function of the declarations and the tokens alone.
pub uninterp spec fn args_outcome(ds: Seq<SpecArgDecl>, toks: Seq<Seq<char>>) -> Option<
    Seq<SpecArgInput>,
>;

/// Relies on clap::Command::try_get_matches_from: the tokens are parsed
/// against the declared arguments (first token naming the program), a valued
/// argument collecting one value per occurrence and a flag counting its
/// occurrences; unknown flags and malformed tokens yield an error; the
/// outcome depends on the declarations and the tokens alone. The declared
/// ids and long names are usable and distinct, which the builder demands.
#[verifier::external_body]
pub(crate) fn run_arg_parser(decls: &Vec<ArgDecl>, tokens: &Vec<String>) -> (r: Result<
    clap::ArgMatches,
    String,
>)
    requires
        decls_ok(view_decls(decls@)),
    ensures
        match r {
            Ok(m) => args_outcome(view_decls(decls@), strings_view(tokens@)) == Some(
                spec_inputs_of(m, view_decls(decls@)),
            ),
            Err(_) => args_outcome(view_decls(decls@), strings_view(tokens@)) is None,
        },
{
    let mut cmd = clap::Command::new("config").disable_help_flag(true).disable_version_flag(true);
    for d in decls {
        let arg = clap::Arg::new(d.id.clone()).long(d.long.clone());
        let arg = if d.takes_value {
            arg.action(clap::ArgAction::Append)
        } else {
            arg.action(clap::ArgAction::Count)
        };
        cmd = cmd.arg(arg);
    }
    cmd.try_get_matches_from(tokens.iter().cloned()).map_err(|e| e.to_string())
}

/// Relies on clap::ArgMatches::try_get_many::<String>: the values collected
/// for the argument's occurrences, in order, or nothing where the token list
/// did not mention it; a fixed parse result always reads the same.
#[verifier::external_body]
fn matches_values(m: &clap::ArgMatches, id: &String) -> (r: Option<Vec<String>>)
    ensures
        match r {
            Some(v) => matches_values_of(*m, id@) == Some(strings_view(v@)),
            None => matches_values_of(*m, id@) is None,
        },
{
    match m.try_get_many::<String>(id.as_str()) {
        Ok(Some(vals)) => Some(vals.cloned().collect()),
        _ => None,
    }
}

/// Relies on clap::ArgMatches::try_get_one::<u8>: how many times a counted
/// flag occurred; an argument that never occurred counts zero; a fixed parse
/// result always reads the same.
#[verifier::external_body]
fn matches_count(m: &clap::ArgMatches, id: &String) -> (r: u8)
    ensures
        r as nat == matches_count_of(*m, id@),
{
    match m.try_get_one::<u8>(id.as_str()) {
        Ok(Some(c)) => *c,
        _ => 0,
    }
}

/// Read off, for each declared argument, whether the parse result supplied
/// it and with which values.
pub fn inputs_from_matches(decls: &Vec<ArgDecl>, m: &clap::ArgMatches) -> (r: Vec<ArgInput>)
    ensures
        r@.len() == decls@.len(),
        view_inputs(r@) == spec_inputs_of(*m, view_decls(decls@)),
{
    let ghost ds = view_decls(decls@);
    proof {
        assert(forall|j: int| 0 <= j < decls@.len() ==> ds[j] == view_decl(decls@[j]));
    }
    let mut out: Vec<ArgInput> = Vec::new();
    let mut i: usize = 0;
    while i < decls.len()
        invariant
            0 <= i <= decls.len(),
            ds == view_decls(decls@),
            ds.len() == decls@.len(),
            forall|j: int| 0 <= j < decls@.len() ==> ds[j] == view_decl(decls@[j]),
            out@.len() == i,
            forall|j: int| 0 <= j < i ==> view_input(#[trigger] out@[j]) == spec_input_of(*m, ds[j]),
        decreases decls.len() - i,
    {
        let d = &decls[i];
        let input: ArgInput = if d.takes_value {
            match matches_values(m, &d.id) {
                Some(values) => ArgInput { explicit: true, values },
                None => ArgInput { explicit: false, values: Vec::new() },
            }
        } else {
            let c = matches_count(m, &d.id);
            ArgInput { explicit: c > 0, values: Vec::new() }
        };
        proof {
            if input.values@.len() == 0 {
                assert(strings_view(input.values@) =~= Seq::<Seq<char>>::empty());
            }
            assert(view_input(input) == spec_input_of(*m, ds[i as int]));
        }
        out.push(input);
        i += 1;
    }
    proof {
        assert forall|j: int|
            0 <= j < out@.len() implies view_inputs(out@)[j] == spec_inputs_of(
            *m,
            ds,
        )[j] by {
            assert(view_inputs(out@)[j] == view_input(out@[j]));
        }
        assert(view_inputs(out@) =~= spec_inputs_of(*m, ds));
    }
    out
}

/// A built value keeps its field's static type.
pub proof fn lemma_build_value_shape(dv: SpecFieldValue, ins: Seq<SpecArgInput>)
    requires
        build_value(dv, ins) is Some,
    ensures
        crate::merge::same_shape_value(dv, build_value(dv, ins)->Some_0),
    decreases dv,
{
    match dv {
        SpecFieldValue::Sub(sub) => {
            lemma_build_shape(sub, ins);
        },
        _ => {},
    }
}

/// An instance built from the argument source is of its shape's own shape.
pub proof fn lemma_build_shape(c: SpecConfig, ins: Seq<SpecArgInput>)
    requires
        build_config(c, ins) is Some,
    ensures
        crate::merge::same_shape(c, build_config(c, ins)->Some_0),
    decreases c,
{
    lemma_build_fields_shape(c.fields, ins);
}

proof fn lemma_build_fields_shape(fs: Seq<SpecField>, ins: Seq<SpecArgInput>)
    requires
        build_fields(fs, ins) is Some,
    ensures
        build_fields(fs, ins)->Some_0.len() == fs.len(),
        forall|i: int|
            0 <= i < fs.len() ==> crate::merge::same_shape_field(
                #[trigger] fs[i],
                build_fields(fs, ins)->Some_0[i],
            ),
    decreases fs,
{
    if fs.len() > 0 {
        let k = field_decl_len(fs[0]);
        assert(build_value(fs[0].value, ins.take(k)) is Some);
        assert(build_fields(fs.drop_first(), ins.skip(k)) is Some);
        lemma_build_value_shape(fs[0].value, ins.take(k));
        lemma_build_fields_shape(fs.drop_first(), ins.skip(k));
        let hd = SpecField {
            name: fs[0].name,
            key_override: fs[0].key_override,
            value: build_value(fs[0].value, ins.take(k))->Some_0,
        };
        let rest = build_fields(fs.drop_first(), ins.skip(k))->Some_0;
        assert(build_fields(fs, ins)->Some_0 == seq![hd] + rest);
        assert forall|i: int| 0 <= i < fs.len() implies crate::merge::same_shape_field(
            #[trigger] fs[i],
            build_fields(fs, ins)->Some_0[i],
        ) by {
            if i > 0 {
                assert(fs.drop_first()[i - 1] == fs[i]);
                assert((seq![hd] + rest)[i] == rest[i - 1]);
            } else {
                assert((seq![hd] + rest)[0] == hd);
            }
        }
    }
}

/// How many arguments the fields before position `i` declare.
pub open spec fn decls_before(fs: Seq<SpecField>, i: int) -> int {
    decls_of_fields(fs.take(i)).len() as int
}

/// `build_fields` builds position by position: each field takes its own
/// slice of the inputs, in declaration order, keeping its name and key
/// override.
pub proof fn lemma_build_fields_at(fs: Seq<SpecField>, ins: Seq<SpecArgInput>, i: int)
    requires
        build_fields(fs, ins) is Some,
        ins.len() == decls_of_fields(fs).len(),
        0 <= i < fs.len(),
    ensures
        build_value(
            fs[i].value,
            ins.subrange(decls_before(fs, i), decls_before(fs, i) + field_decl_len(fs[i])),
        ) is Some,
        build_fields(fs, ins)->Some_0[i] == (SpecField {
            name: fs[i].name,
            key_override: fs[i].key_override,
            value: build_value(
                fs[i].value,
                ins.subrange(decls_before(fs, i), decls_before(fs, i) + field_decl_len(fs[i])),
            )->Some_0,
        }),
    decreases fs.len(),
{
    let k0 = field_decl_len(fs[0]);
    assert(decls_of_fields(fs) == decl_of_field(fs[0]) + decls_of_fields(fs.drop_first()));
    assert(build_value(fs[0].value, ins.take(k0)) is Some);
    assert(build_fields(fs.drop_first(), ins.skip(k0)) is Some);
    lemma_build_fields_shape(fs.drop_first(), ins.skip(k0));
    let hd = SpecField {
        name: fs[0].name,
        key_override: fs[0].key_override,
        value: build_value(fs[0].value, ins.take(k0))->Some_0,
    };
    let rest = build_fields(fs.drop_first(), ins.skip(k0))->Some_0;
    assert(build_fields(fs, ins)->Some_0 == seq![hd] + rest);
    if i == 0 {
        assert(fs.take(0) =~= Seq::<SpecField>::empty());
        assert(decls_before(fs, 0) == 0);
        assert(ins.take(k0) =~= ins.subrange(0, k0));
        assert((seq![hd] + rest)[0] == hd);
    } else {
        assert(ins.skip(k0).len() == decls_of_fields(fs.drop_first()).len());
        lemma_build_fields_at(fs.drop_first(), ins.skip(k0), i - 1);
        assert(fs.drop_first()[i - 1] == fs[i]);
        assert(fs.take(i).len() == i);
        assert(fs.take(i)[0] == fs[0]);
        assert(fs.take(i).drop_first() =~= fs.drop_first().take(i - 1));
        assert(decls_of_fields(fs.take(i)) == decl_of_field(fs[0]) + decls_of_fields(
            fs.drop_first().take(i - 1),
        ));
        assert(decls_before(fs, i) == k0 + decls_before(fs.drop_first(), i - 1));
        let off1 = decls_before(fs.drop_first(), i - 1);
        let k = field_decl_len(fs[i]);
        lemma_decls_before_bounds(fs.drop_first(), i - 1);
        assert(ins.skip(k0).subrange(off1, off1 + k) =~= ins.subrange(
            k0 + off1,
            k0 + off1 + k,
        ));
        assert((seq![hd] + rest)[i] == rest[i - 1]);
    }
}

/// The arguments of the fields before `i`, plus field `i`'s own, fit within
/// the whole declaration list.
pub proof fn lemma_decls_before_bounds(fs: Seq<SpecField>, i: int)
    requires
        0 <= i < fs.len(),
    ensures
        0 <= decls_before(fs, i),
        decls_before(fs, i) + field_decl_len(fs[i]) <= decls_of_fields(fs).len(),
    decreases i,
{
    if i == 0 {
        assert(fs.take(0) =~= Seq::<SpecField>::empty());
        assert(decls_of_fields(fs) == decl_of_field(fs[0]) + decls_of_fields(fs.drop_first()));
    } else {
        lemma_decls_before_bounds(fs.drop_first(), i - 1);
        assert(fs.take(i)[0] == fs[0]);
        assert(fs.take(i).drop_first() =~= fs.drop_first().take(i - 1));
        assert(decls_of_fields(fs.take(i)) == decl_of_field(fs[0]) + decls_of_fields(
            fs.drop_first().take(i - 1),
        ));
        assert(fs.drop_first()[i - 1] == fs[i]);
        assert(decls_of_fields(fs) == decl_of_field(fs[0]) + decls_of_fields(fs.drop_first()));
    }
}

/// A plain field's own declaration stands at its offset in the flat list,
/// under the field's merge key.
pub proof fn lemma_decl_at(fs: Seq<SpecField>, i: int)
    requires
        0 <= i < fs.len(),
        !(fs[i].value is Sub),
    ensures
        0 <= decls_before(fs, i) < decls_of_fields(fs).len(),
        decls_of_fields(fs)[decls_before(fs, i)] == (SpecArgDecl {
            id: fs[i].merge_key(),
            long: fs[i].name,
            takes_value: !(fs[i].value is Flag),
        }),
    decreases i,
{
    lemma_decls_before_bounds(fs, i);
    let k0 = field_decl_len(fs[0]);
    assert(decls_of_fields(fs) == decl_of_field(fs[0]) + decls_of_fields(fs.drop_first()));
    if i == 0 {
        assert(fs.take(0) =~= Seq::<SpecField>::empty());
        assert(decls_before(fs, 0) == 0);
        assert(decl_of_field(fs[0])[0] == (SpecArgDecl {
            id: fs[0].merge_key(),
            long: fs[0].name,
            takes_value: !(fs[0].value is Flag),
        }));
    } else {
        assert(fs.drop_first()[i - 1] == fs[i]);
        lemma_decl_at(fs.drop_first(), i - 1);
        assert(fs.take(i)[0] == fs[0]);
        assert(fs.take(i).drop_first() =~= fs.drop_first().take(i - 1));
        assert(decls_of_fields(fs.take(i)) == decl_of_field(fs[0]) + decls_of_fields(
            fs.drop_first().take(i - 1),
        ));
        assert(decls_before(fs, i) == k0 + decls_before(fs.drop_first(), i - 1));
    }
}

/// With a well-formed shape, a plain field's merge key stands in the
/// explicit-set record exactly when the field's own argument occurred at
/// least once.
pub proof fn lemma_explicit_key_iff(shape: SpecConfig, ins: Seq<SpecArgInput>, i: int)
    requires
        wf_shape(shape),
        ins.len() == spec_decls(shape).len(),
        0 <= i < shape.fields.len(),
        !(shape.fields[i].value is Sub),
    ensures
        explicit_keys(spec_decls(shape), ins).contains(shape.fields[i].merge_key())
            <==> ins[decls_before(shape.fields, i)].explicit,
{
    let ds = spec_decls(shape);
    let o = decls_before(shape.fields, i);
    lemma_decl_at(shape.fields, i);
    assert(ds[o].id == shape.fields[i].merge_key());
    if explicit_keys(ds, ins).contains(shape.fields[i].merge_key()) {
        let t = choose|t: int|
            0 <= t < ds.len() && t < ins.len() && (#[trigger] ds[t].id) == shape.fields[
                i].merge_key() && ins[t].explicit;
        if t != o {
            assert(ds[t].id != ds[o].id);
            assert(false);
        }
        assert(ins[o].explicit);
    }
    if ins[o].explicit {
        assert(0 <= o < ds.len() && o < ins.len() && ds[o].id == shape.fields[i].merge_key()
            && ins[o].explicit);
        assert(explicit_keys(ds, ins).contains(shape.fields[i].merge_key()));
    }
}

/// For a plain field whose merge key was explicitly supplied, the merged
/// value is the command-line-parsed value: what building yields from the
/// field's own slice of the argument inputs, whatever the document instance
/// holds.
pub proof fn lemma_args_precedence(
    shape: SpecConfig,
    ins: Seq<SpecArgInput>,
    d: SpecConfig,
    ex: Set<Seq<char>>,
    i: int,
)
    requires
        build_config(shape, ins) is Some,
        ins.len() == spec_decls(shape).len(),
        crate::merge::same_shape(shape, d),
        0 <= i < shape.fields.len(),
        !(shape.fields[i].value is Sub),
        ex.contains(shape.fields[i].merge_key()),
    ensures
        crate::merge::spec_merge(d, build_config(shape, ins)->Some_0, ex).fields[i].value
            == build_value(
            shape.fields[i].value,
            ins.subrange(
                decls_before(shape.fields, i),
                decls_before(shape.fields, i) + field_decl_len(shape.fields[i]),
            ),
        )->Some_0,
{
    let a = build_config(shape, ins)->Some_0;
    lemma_build_fields_at(shape.fields, ins, i);
    lemma_build_shape(shape, ins);
    crate::merge::lemma_same_shape_join(shape, d, a);
    assert(crate::merge::same_shape_field(shape.fields[i], d.fields[i]));
    assert(d.fields[i].merge_key() == shape.fields[i].merge_key());
    crate::merge::lemma_explicit_field_takes_args(d, a, ex, i);
}

/// `k` stands among the collected key strings.
pub open spec fn key_in(keys: Seq<String>, k: Seq<char>) -> bool {
    exists|j: int| 0 <= j < keys.len() && (#[trigger] keys[j])@ == k
}

/// Some argument before `upto` was explicitly supplied under id `k`.
pub open spec fn explicit_before(
    ds: Seq<SpecArgDecl>,
    ins: Seq<SpecArgInput>,
    upto: int,
    k: Seq<char>,
) -> bool {
    exists|t: int|
        0 <= t < upto && t < ds.len() && t < ins.len() && (#[trigger] ds[t].id) == k
            && ins[t].explicit
}

/// The explicit-set record the inputs induce: the ids of the arguments that
/// occurred at least once.
pub fn explicit_of_inputs(decls: &Vec<ArgDecl>, inputs: &Vec<ArgInput>) -> (r:
    crate::model::ExplicitSet)
    requires
        decls@.len() == inputs@.len(),
    ensures
        r@ == explicit_keys(view_decls(decls@), view_inputs(inputs@)),
{
    let ghost ds = view_decls(decls@);
    let ghost ins = view_inputs(inputs@);
    proof {
        assert(forall|j: int| 0 <= j < decls@.len() ==> ds[j] == view_decl(decls@[j]));
        assert(forall|j: int| 0 <= j < inputs@.len() ==> ins[j] == view_input(inputs@[j]));
    }
    let mut keys: Vec<String> = Vec::new();
    let mut i: usize = 0;
    while i < decls.len()
        invariant
            0 <= i <= decls.len(),
            decls@.len() == inputs@.len(),
            ds == view_decls(decls@),
            ins == view_inputs(inputs@),
            ds.len() == decls@.len(),
            ins.len() == inputs@.len(),
            forall|j: int| 0 <= j < decls@.len() ==> ds[j] == view_decl(decls@[j]),
            forall|j: int| 0 <= j < inputs@.len() ==> ins[j] == view_input(inputs@[j]),
            forall|t: int|
                0 <= t < i && ins[t].explicit ==> key_in(keys@, (#[trigger] ds[t]).id),
            forall|j: int|
                0 <= j < keys@.len() ==> explicit_before(ds, ins, i as int, (
                #[trigger] keys@[j])@),
        decreases decls.len() - i,
    {
        let ghost before = keys@;
        if inputs[i].explicit {
            keys.push(decls[i].id.clone());
            proof {
                assert(keys@[keys@.len() - 1]@ == ds[i as int].id);
            }
        }
        proof {
            assert forall|t: int|
                0 <= t < i + 1 && ins[t].explicit implies key_in(keys@, (
            #[trigger] ds[t]).id) by {
                if t < i {
                    let j = choose|j: int| 0 <= j < before.len() && (#[trigger] before[j])@
                        == ds[t].id;
                    assert(keys@[j]@ == ds[t].id);
                    assert(key_in(keys@, ds[t].id));
                } else {
                    assert(keys@[keys@.len() - 1]@ == ds[t].id);
                    assert(key_in(keys@, ds[t].id));
                }
            }
            assert forall|j: int|
                0 <= j < keys@.len() implies explicit_before(ds, ins, i + 1, (
            #[trigger] keys@[j])@) by {
                if j < before.len() {
                    assert(keys@[j] == before[j]);
                    assert(explicit_before(ds, ins, i as int, before[j]@));
                    let t = choose|t: int|
                        0 <= t < i && t < ds.len() && t < ins.len() && (#[trigger] ds[t].id)
                            == before[j]@ && ins[t].explicit;
                    assert(explicit_before(ds, ins, i + 1, keys@[j]@));
                } else {
                    assert(keys@[j]@ == ds[i as int].id && ins[i as int].explicit);
                    assert(explicit_before(ds, ins, i + 1, keys@[j]@));
                }
            }
        }
        i += 1;
    }
    let r = crate::model::ExplicitSet { keys };
    proof {
        assert forall|k: Seq<char>| #[trigger]
            r@.contains(k) implies explicit_keys(ds, ins).contains(k) by {
            let j = choose|j: int| 0 <= j < r.keys@.len() && (#[trigger] r.keys@[j])@ == k;
            assert(explicit_before(ds, ins, ds.len() as int, k));
            let t = choose|t: int|
                0 <= t < ds.len() && t < ds.len() && t < ins.len() && (#[trigger] ds[t].id) == k
                    && ins[t].explicit;
            assert(explicit_keys(ds, ins).contains(k));
        }
        assert forall|k: Seq<char>| #[trigger]
            explicit_keys(ds, ins).contains(k) implies r@.contains(k) by {
            let t = choose|t: int|
                0 <= t < ds.len() && t < ins.len() && (#[trigger] ds[t].id) == k
                    && ins[t].explicit;
            assert(key_in(r.keys@, ds[t].id));
            let j = choose|j: int| 0 <= j < r.keys@.len() && (#[trigger] r.keys@[j])@ == ds[t].id;
            assert(r@.contains(k));
        }
        assert(r@ =~= explicit_keys(ds, ins));
    }
    r
}

} // verus!
