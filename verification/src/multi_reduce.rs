//! The multi-valued matrix codec, reduce variant.
//!
//! This variant lets the minimizer absorb whole columns and rows: the header
//! declares no output class and rows carry no output code. On decode the
//! right-most variable is distinguished — the target whose concrete identity
//! must always be preserved — so its all-ones token is read literally, value
//! by value, while every other all-ones token is treated as no constraint.

use vstd::prelude::*;
use crate::errors::CodecError;
use crate::itemizer::Itemizer;
use crate::multi::CellModel;
use crate::multi::VarModel;
use crate::multi::all_ones;
use crate::multi::decode_multi;
use crate::multi::decode_token;
use crate::multi::encode_multi;
use crate::multi::encode_multi_text;
use crate::multi::lemma_ones_values_all;
use crate::multi::ones_values;
use crate::multi::parse_result_text;
use crate::multi::vars_model;

verus! {

/// Encode a matrix of optional value-sets for reduction: header without an
/// output class, one line per row with no output code. Every concrete value
/// must already exist in its column's itemizer, built by a prior scan;
/// absence is a hard error.
pub fn reduce_encode(matrix: &Vec<Vec<Option<Vec<String>>>>, variables: &Vec<Itemizer>) -> (r:
    Result<String, CodecError>)
    requires
        variables@.len() < usize::MAX,
        forall|i: int|
            0 <= i < matrix@.len() ==> (#[trigger] matrix@[i])@.len() == variables@.len(),
        forall|v: int| 0 <= v < variables@.len() ==> (#[trigger] variables@[v]).wf(),
    ensures
        match r {
            Ok(s) => encode_multi_text(matrix.deep_view(), vars_model(variables@), false)
                == Ok::<_, CodecError>(s@),
            Err(e) => encode_multi_text(matrix.deep_view(), vars_model(variables@), false)
                == Err::<Seq<char>, _>(e),
        },
{
    encode_multi(matrix, variables, false)
}

/// Decode the minimizer's result back into a matrix, keeping the right-most
/// variable's all-ones token literal while every other all-ones token is
/// read as no constraint.
pub fn reduce_decode(result: &str, variables: &Vec<Itemizer>) -> (r: Result<
    Vec<Vec<Option<Vec<String>>>>,
    CodecError,
>)
    ensures
        match r {
            Ok(g) => parse_result_text(result@, vars_model(variables@), true)
                == Ok::<_, CodecError>(g.deep_view()),
            Err(e) => parse_result_text(result@, vars_model(variables@), true) == Err::<
                Seq<Seq<CellModel>>,
                _,
            >(e),
        },
{
    decode_multi(result, variables, true)
}

/// Distinguished-column law: an all-ones token that spans a non-empty
/// vocabulary never decodes to an empty cell in the distinguished column —
/// it decodes to every value whose identity position is set, that is, to all
/// values of that variable. A column whose vocabulary is empty yields an
/// empty token and stays empty, so it is left out.
pub proof fn lemma_distinguished_all_ones_decodes_all_values(var: VarModel)
    requires
        var.len() > 0,
    ensures
        decode_token(Seq::new(var.len(), |p: int| '1'), var, true) == Ok::<CellModel, CodecError>(
            Option::Some(var),
        ),
{
    let tok = Seq::new(var.len(), |p: int| '1');
    assert(all_ones(tok));
    lemma_ones_values_all(tok, var);
    assert(var.take(tok.len() as int) =~= var);
    assert(ones_values(tok, var).len() == var.len());
}

} // verus!
