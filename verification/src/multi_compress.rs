//! The multi-valued matrix codec, compress variant.
//!
//! This variant pares the result down to essential rows: the header declares
//! one extra variable, the binary output class, names its two values ON and
//! OFF, and every encoded row is asserted ON. The caller hands the encoded
//! text to the external minimizer and decodes its result with the same
//! itemizers, so the value-to-identity mapping stays consistent across both
//! passes.

use vstd::prelude::*;
use crate::errors::CodecError;
use crate::itemizer::Itemizer;
use crate::multi::CellModel;
use crate::multi::decode_multi;
use crate::multi::encode_multi;
use crate::multi::encode_multi_text;
use crate::multi::parse_result_text;
use crate::multi::vars_model;

verus! {

/// Encode a matrix of optional value-sets for compression: header with the
/// binary output class, one line per row with the fixed ON code. A cell
/// value that its column's itemizer never observed is a hard error.
pub fn compress_encode(matrix: &Vec<Vec<Option<Vec<String>>>>, variables: &Vec<Itemizer>) -> (r:
    Result<String, CodecError>)
    requires
        variables@.len() < usize::MAX,
        forall|i: int|
            0 <= i < matrix@.len() ==> (#[trigger] matrix@[i])@.len() == variables@.len(),
        forall|v: int| 0 <= v < variables@.len() ==> (#[trigger] variables@[v]).wf(),
    ensures
        match r {
            Ok(s) => encode_multi_text(matrix.deep_view(), vars_model(variables@), true)
                == Ok::<_, CodecError>(s@),
            Err(e) => encode_multi_text(matrix.deep_view(), vars_model(variables@), true)
                == Err::<Seq<char>, _>(e),
        },
{
    encode_multi(matrix, variables, true)
}

/// Decode the minimizer's result back into a matrix: `.p` sizes the grid,
/// each body row's tokens map to the columns after the output-class token,
/// and an all-ones token leaves its cell wildcard.
pub fn compress_decode(result: &str, variables: &Vec<Itemizer>) -> (r: Result<
    Vec<Vec<Option<Vec<String>>>>,
    CodecError,
>)
    ensures
        match r {
            Ok(g) => parse_result_text(result@, vars_model(variables@), false)
                == Ok::<_, CodecError>(g.deep_view()),
            Err(e) => parse_result_text(result@, vars_model(variables@), false) == Err::<
                Seq<Seq<CellModel>>,
                _,
            >(e),
        },
{
    decode_multi(result, variables, false)
}

} // verus!
