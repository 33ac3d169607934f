//! The combined entry points: load the document instance and the argument
//! instance, merge them with command-line-wins precedence, and propagate any
//! loader failure unchanged — no partial merge is ever returned.

use vstd::prelude::*;

use crate::args::{
    args_outcome, build_config, build_value, collect_decls, decls_before, explicit_keys,
    explicit_of_inputs, field_decl_len, inputs_from_matches, lemma_args_precedence,
    lemma_build_shape, load_from_args, run_arg_parser, spec_decls, spec_inputs_of, strings_view,
    view_decls, view_inputs, wf_shape, SpecArgInput,
};
use crate::doc::{
    doc_of, fill_config, fill_value, lemma_document_precedence, lemma_fill_shape,
    load_from_document, lookup, parse_document, view_entries,
};
use crate::errors::Error;
use crate::merge::{lemma_same_shape_join, merge, spec_merge};
use crate::model::{ConfigStruct, SpecConfig};

verus! {

/// The document side rejects a load: the text does not parse, or some value
/// in it does not match its field's type.
pub open spec fn document_rejected(shape: SpecConfig, text: Seq<char>) -> bool {
    doc_of(text) is None || fill_config(shape, doc_of(text)->Some_0) is None
}

/// The one merged instance a document text and per-argument inputs denote:
/// the filled document instance merged with the built argument instance,
/// under the keys the inputs supplied explicitly.
pub open spec fn spec_load(shape: SpecConfig, text: Seq<char>, ins: Seq<SpecArgInput>) -> SpecConfig {
    spec_merge(
        fill_config(shape, doc_of(text)->Some_0)->Some_0,
        build_config(shape, ins)->Some_0,
        explicit_keys(spec_decls(shape), ins),
    )
}

/// Create the merged instance from a document text and an already-parsed
/// argument source. The document is parsed and filled — exactly its failures
/// are `Document` errors — then the argument instance is read off the parse
/// result and built — exactly a value that does not fit its field is an
/// `Argument` error — and otherwise the two are merged, command line winning.
pub fn from_clap_with_toml(shape: &ConfigStruct, toml_str: &str, matches: &clap::ArgMatches) -> (r:
    Result<ConfigStruct, Error>)
    ensures
        ({
            let ins = spec_inputs_of(*matches, spec_decls(shape@));
            match r {
                Ok(c) => !document_rejected(shape@, toml_str@) && build_config(shape@, ins)
                    is Some && c@ == spec_load(shape@, toml_str@, ins),
                Err(e) => {
                    &&& (e is Document <==> document_rejected(shape@, toml_str@))
                    &&& (e is Argument <==> !document_rejected(shape@, toml_str@)
                        && build_config(shape@, ins) is None)
                },
            }
        }),
{
    let entries = match parse_document(toml_str) {
        Ok(es) => es,
        Err(m) => {
            return Err(Error::Document(m));
        },
    };
    let from_doc = match load_from_document(shape, &entries) {
        Ok(c) => c,
        Err(e) => {
            return Err(e);
        },
    };
    let decls = collect_decls(shape);
    let inputs = inputs_from_matches(&decls, matches);
    proof {
        assert(view_decls(decls@).len() == decls@.len());
        assert(view_inputs(inputs@) == spec_inputs_of(*matches, spec_decls(shape@)));
    }
    let from_args = match load_from_args(shape, &inputs) {
        Ok(c) => c,
        Err(e) => {
            proof {
                assert(build_config(shape@, view_inputs(inputs@)) is None);
            }
            return Err(e);
        },
    };
    let ex = explicit_of_inputs(&decls, &inputs);
    proof {
        lemma_fill_shape(shape@, view_entries(entries@));
        lemma_build_shape(shape@, view_inputs(inputs@));
        lemma_same_shape_join(shape@, from_doc@, from_args@);
    }
    let merged = merge(from_doc, from_args, &ex);
    Ok(merged)
}

/// Create the merged instance from a document text and a token list (the
/// first token naming the program). Exactly a rejected token list, and
/// otherwise exactly an argument value that does not fit its field, is an
/// `Argument` error; exactly a document that does not parse or fill against
/// the shape is a `Document` error; otherwise the result is the merge of the
/// two loaded instances, command line winning.
pub fn from_iter_with_toml(shape: &ConfigStruct, toml_str: &str, tokens: &Vec<String>) -> (r:
    Result<ConfigStruct, Error>)
    requires
        wf_shape(shape@),
    ensures
        ({
            let out = args_outcome(spec_decls(shape@), strings_view(tokens@));
            match r {
                Ok(c) => out is Some && !document_rejected(shape@, toml_str@) && build_config(
                    shape@,
                    out->Some_0,
                ) is Some && c@ == spec_load(shape@, toml_str@, out->Some_0),
                Err(e) => {
                    &&& (e is Document <==> out is Some && document_rejected(shape@, toml_str@))
                    &&& (e is Argument <==> out is None || (out is Some && !document_rejected(
                        shape@,
                        toml_str@,
                    ) && build_config(shape@, out->Some_0) is None))
                },
            }
        }),
{
    let decls = collect_decls(shape);
    let matches = match run_arg_parser(&decls, tokens) {
        Ok(m) => m,
        Err(msg) => {
            return Err(Error::Argument(msg));
        },
    };
    from_clap_with_toml(shape, toml_str, &matches)
}

/// For a load that succeeded, a plain field whose merge key the token list
/// did not supply holds what the document side gave it: the document's value
/// under the field's name where present, and the field's declared default
/// otherwise.
pub proof fn lemma_load_document_precedence(
    shape: SpecConfig,
    text: Seq<char>,
    ins: Seq<SpecArgInput>,
    i: int,
)
    requires
        !document_rejected(shape, text),
        ins.len() == spec_decls(shape).len(),
        build_config(shape, ins) is Some,
        0 <= i < shape.fields.len(),
        !(shape.fields[i].value is Sub),
        !explicit_keys(spec_decls(shape), ins).contains(shape.fields[i].merge_key()),
    ensures
        spec_load(shape, text, ins).fields[i].value == fill_value(
            shape.fields[i].value,
            lookup(doc_of(text)->Some_0, shape.fields[i].name),
        )->Some_0,
        lookup(doc_of(text)->Some_0, shape.fields[i].name) is None ==> spec_load(
            shape,
            text,
            ins,
        ).fields[i].value == shape.fields[i].value,
{
    let es = doc_of(text)->Some_0;
    lemma_fill_shape(shape, es);
    lemma_build_shape(shape, ins);
    lemma_same_shape_join(shape, fill_config(shape, es)->Some_0, build_config(shape, ins)->Some_0);
    lemma_document_precedence(
        shape,
        es,
        build_config(shape, ins)->Some_0,
        explicit_keys(spec_decls(shape), ins),
        i,
    );
}

/// For a load that succeeded, a plain field whose merge key the token list
/// supplied holds the command-line-parsed value: what building yields from
/// the field's own slice of the inputs, whatever the document says.
pub proof fn lemma_load_args_precedence(
    shape: SpecConfig,
    text: Seq<char>,
    ins: Seq<SpecArgInput>,
    i: int,
)
    requires
        !document_rejected(shape, text),
        ins.len() == spec_decls(shape).len(),
        build_config(shape, ins) is Some,
        0 <= i < shape.fields.len(),
        !(shape.fields[i].value is Sub),
        explicit_keys(spec_decls(shape), ins).contains(shape.fields[i].merge_key()),
    ensures
        spec_load(shape, text, ins).fields[i].value == build_value(
            shape.fields[i].value,
            ins.subrange(
                decls_before(shape.fields, i),
                decls_before(shape.fields, i) + field_decl_len(shape.fields[i]),
            ),
        )->Some_0,
{
    let es = doc_of(text)->Some_0;
    lemma_fill_shape(shape, es);
    lemma_args_precedence(
        shape,
        ins,
        fill_config(shape, es)->Some_0,
        explicit_keys(spec_decls(shape), ins),
        i,
    );
}

} // verus!
