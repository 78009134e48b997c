//! The shared multi-valued matrix codec.
//!
//! A matrix cell is either a wildcard (any value of its column is acceptable)
//! or a non-empty set of concrete values. Encoding writes each cell as a
//! one-hot field over its column's vocabulary — `'1'` at the position of each
//! selected value's identity, all `'1'` for a wildcard — with the fields
//! joined by `|`. The two variants differ only in the header and the row
//! suffix: the compress variant declares a binary output class and asserts
//! every row ON, the reduce variant declares none.
//!
//! Decoding reads the minimizer's result: `.p` sizes a fresh grid, body rows
//! are space-separated tokens whose first token (the output-class field) is
//! skipped, an all-ones token leaves its cell wildcard — except in the
//! distinguished right-most column of the reduce variant — and every other
//! `'1'` at position `p` appends the value with identity `p + 1`.

use vstd::prelude::*;
use crate::errors::CodecError;
use crate::itemizer::Itemizer;
use crate::text::chars_to_string;
use crate::text::dec_digits;
use crate::text::parse_count;
use crate::text::parse_count_vec;
use crate::text::push_dec;
use crate::text::split_all;
use crate::text::split_all_vec;
use crate::text::split_lines;
use crate::text::split_lines_vec;
use crate::text::string_to_chars;
use crate::text::unlines;
use crate::pla_binary::is_dot_line;
use crate::pla_binary::is_end_line;
use crate::pla_binary::lemma_unlines_append;
use crate::pla_binary::lemma_unlines_one;

verus! {

/// One column's vocabulary, as a sequence of values in identity order.
pub type VarModel = Seq<Seq<char>>;

/// One cell: wildcard, or the values it holds.
pub type CellModel = Option<Seq<Seq<char>>>;

// ------------------------------------------------------------------
// Encoding.
// ------------------------------------------------------------------

/// The one-hot field of a cell: a wildcard sets every position of the
/// column's width; a value set puts `'1'` exactly at its values' identity
/// positions, and is rejected where some value was never observed.
pub open spec fn cell_field(cell: CellModel, var: VarModel) -> Result<Seq<char>, CodecError> {
    match cell {
        Option::None => Ok(Seq::new(var.len(), |p: int| '1')),
        Option::Some(vals) => if forall|k: int| 0 <= k < vals.len() ==> var.contains(#[trigger] vals[k]) {
            Ok(
                Seq::new(
                    var.len(),
                    |p: int|
                        if vals.contains(var[p]) {
                            '1'
                        } else {
                            '0'
                        },
                ),
            )
        } else {
            Err(CodecError::UnknownValue)
        },
    }
}

/// One row's text: each field followed by `|`, then the variant's suffix.
pub open spec fn row_text(row: Seq<CellModel>, vars: Seq<VarModel>, suffix: Seq<char>) -> Result<
    Seq<char>,
    CodecError,
>
    decreases row.len(),
{
    if row.len() == 0 {
        Ok(suffix)
    } else {
        match cell_field(row[0], vars[0]) {
            Ok(f) => match row_text(row.skip(1), vars.skip(1), suffix) {
                Ok(rest) => Ok(f + seq!['|'] + rest),
                Err(e) => Err(e),
            },
            Err(e) => Err(e),
        }
    }
}

/// The body lines of the whole matrix, in row order; the first failing cell
/// aborts the encode.
pub open spec fn rows_texts(mat: Seq<Seq<CellModel>>, vars: Seq<VarModel>, suffix: Seq<char>) -> Result<
    Seq<Seq<char>>,
    CodecError,
>
    decreases mat.len(),
{
    if mat.len() == 0 {
        Ok(Seq::empty())
    } else {
        match rows_texts(mat.drop_last(), vars, suffix) {
            Err(e) => Err(e),
            Ok(pre) => match row_text(mat.last(), vars, suffix) {
                Ok(l) => Ok(pre.push(l)),
                Err(e) => Err(e),
            },
        }
    }
}

/// The declared column widths, joined by single spaces.
pub open spec fn join_widths(vars: Seq<VarModel>) -> Seq<char>
    decreases vars.len(),
{
    if vars.len() == 0 {
        Seq::empty()
    } else if vars.len() == 1 {
        dec_digits(vars[0].len())
    } else {
        join_widths(vars.drop_last()) + seq![' '] + dec_digits(vars.last().len())
    }
}

/// The `.mv` header line: variable count (the output class included where
/// present), the reserved zero, the column widths, and the binary output
/// width where present.
pub open spec fn mv_line(vars: Seq<VarModel>, with_output: bool) -> Seq<char> {
    let nv = vars.len() + if with_output {
        1int
    } else {
        0int
    };
    seq!['.', 'm', 'v', ' '] + dec_digits(nv as nat) + seq![' ', '0', ' '] + join_widths(vars) + (
    if with_output {
        seq![' ', '2']
    } else {
        Seq::<char>::empty()
    })
}

/// The `.p` row-count line.
pub open spec fn p_line(n: nat) -> Seq<char> {
    seq!['.', 'p', ' '] + dec_digits(n)
}

/// The `.type f` on-set declaration.
pub open spec fn type_line() -> Seq<char> {
    seq!['.', 't', 'y', 'p', 'e', ' ', 'f']
}

/// The `.ob` output-class naming line of the compress variant.
pub open spec fn ob_line() -> Seq<char> {
    seq!['.', 'o', 'b', ' ', 'O', 'N', ' ', 'O', 'F', 'F']
}

/// The fixed output code of the compress variant: asserted ON, don't-care
/// OFF.
pub open spec fn row_suffix(with_output: bool) -> Seq<char> {
    if with_output {
        seq!['1', '0']
    } else {
        Seq::empty()
    }
}

/// The header lines of either variant.
pub open spec fn multi_header_lines(vars: Seq<VarModel>, with_output: bool, nrows: nat) -> Seq<
    Seq<char>,
> {
    if with_output {
        seq![mv_line(vars, true), ob_line(), p_line(nrows), type_line()]
    } else {
        seq![mv_line(vars, false), p_line(nrows), type_line()]
    }
}

/// Every line of the encoded matrix, terminator included.
pub open spec fn encode_multi_lines(
    mat: Seq<Seq<CellModel>>,
    vars: Seq<VarModel>,
    with_output: bool,
) -> Result<Seq<Seq<char>>, CodecError> {
    match rows_texts(mat, vars, row_suffix(with_output)) {
        Ok(rt) => Ok(multi_header_lines(vars, with_output, mat.len()) + rt + seq![seq!['.', 'e']]),
        Err(e) => Err(e),
    }
}

/// The whole encoded matrix text.
pub open spec fn encode_multi_text(
    mat: Seq<Seq<CellModel>>,
    vars: Seq<VarModel>,
    with_output: bool,
) -> Result<Seq<char>, CodecError> {
    match encode_multi_lines(mat, vars, with_output) {
        Ok(ls) => Ok(unlines(ls)),
        Err(e) => Err(e),
    }
}

/// The vocabularies of a column list.
pub open spec fn vars_model(vars: Seq<Itemizer>) -> Seq<VarModel> {
    Seq::new(vars.len(), |i: int| vars[i]@)
}

/// Append the one-hot field of `cell` to `out`, or reject a value the
/// column's itemizer never observed.
fn push_cell_field(out: &mut Vec<char>, cell: &Option<Vec<String>>, var: &Itemizer) -> (r: Result<
    (),
    CodecError,
>)
    requires
        var.wf(),
    ensures
        match r {
            Ok(()) => cell_field(cell.deep_view(), var@) matches Ok(f) && final(out)@ == old(out)@
                + f,
            Err(e) => cell_field(cell.deep_view(), var@) == Err::<Seq<char>, _>(e) && final(out)@
                == old(out)@,
        },
{
    let w = var.len();
    match cell.as_ref() {
        Option::None => {
            let mut p: usize = 0;
            while p < w
                invariant
                    p <= w,
                    w == var@.len(),
                    out@ == old(out)@ + Seq::new(p as nat, |q: int| '1'),
                decreases w - p,
            {
                out.push('1');
                proof {
                    assert(old(out)@ + Seq::new(p as nat, |q: int| '1') + seq!['1'] =~= old(out)@
                        + Seq::new((p + 1) as nat, |q: int| '1'));
                }
                p = p + 1;
            }
            proof {
                assert(Seq::new(w as nat, |q: int| '1') =~= Seq::new(var@.len(), |q: int| '1'));
            }
            Ok(())
        },
        Option::Some(vals) => {
            let mut field: Vec<char> = Vec::new();
            let mut p: usize = 0;
            while p < w
                invariant
                    p <= w,
                    w == var@.len(),
                    field@.len() == p,
                    forall|q: int| 0 <= q < p ==> field@[q] == '0',
                decreases w - p,
            {
                field.push('0');
                p = p + 1;
            }
            proof {
                assert(cell.deep_view() == Some(vals.deep_view()));
            }
            let mut k: usize = 0;
            while k < vals.len()
                invariant
                    k <= vals@.len(),
                    cell.deep_view() == Some(vals.deep_view()),
                    var.wf(),
                    w == var@.len(),
                    field@.len() == w,
                    forall|j: int| 0 <= j < k ==> var@.contains(#[trigger] vals.deep_view()[j]),
                    forall|q: int| 0 <= q < w ==> field@[q] == '1' || (#[trigger] field@[q]) == '0',
                    forall|q: int|
                        0 <= q < w ==> ((#[trigger] field@[q]) == '1' <==> exists|j: int|
                            0 <= j < k && vals.deep_view()[j] == var@[q]),
                decreases vals@.len() - k,
            {
                proof {
                    assert(vals.deep_view()[k as int] == vals@[k as int]@);
                }
                match var.id_of_opt(&vals[k]) {
                    Option::Some(id) => {
                        let ghost pre = field@;
                        field[id - 1] = '1';
                        proof {
                            assert(var@[id - 1] == vals.deep_view()[k as int]);
                            assert forall|q: int|
                                0 <= q < w implies ((#[trigger] field@[q]) == '1' <==> exists|j: int|
                                0 <= j <= k && vals.deep_view()[j] == var@[q]) by {
                                if q == id - 1 {
                                    assert(vals.deep_view()[k as int] == var@[q]);
                                } else {
                                    assert(field@[q] == pre[q]);
                                    if exists|j: int|
                                        0 <= j <= k && vals.deep_view()[j] == var@[q] {
                                        let j = choose|j: int|
                                            0 <= j <= k && vals.deep_view()[j] == var@[q];
                                        if j == k {
                                            assert(var@[q] == var@[id - 1]);
                                            assert(q == id - 1);
                                        }
                                    }
                                }
                            }
                        }
                    },
                    Option::None => {
                        proof {
                            assert(cell.deep_view() == Some(vals.deep_view()));
                            assert(!var@.contains(vals.deep_view()[k as int]));
                            assert(!(forall|j: int|
                                0 <= j < vals.deep_view().len() ==> var@.contains(
                                    #[trigger] vals.deep_view()[j],
                                )));
                        }
                        return Err(CodecError::UnknownValue);
                    },
                }
                k = k + 1;
            }
            proof {
                let vd = vals.deep_view();
                assert(forall|j: int| 0 <= j < vd.len() ==> var@.contains(#[trigger] vd[j]));
                assert(field@ =~= Seq::new(
                    var@.len(),
                    |p: int|
                        if vd.contains(var@[p]) {
                            '1'
                        } else {
                            '0'
                        },
                ));
            }
            let mut q: usize = 0;
            let ghost fv = field@;
            while q < field.len()
                invariant
                    q <= field@.len(),
                    field@ == fv,
                    out@ == old(out)@ + fv.take(q as int),
                decreases field@.len() - q,
            {
                out.push(field[q]);
                proof {
                    assert(old(out)@ + fv.take(q as int) + seq![fv[q as int]] =~= old(out)@
                        + fv.take(q + 1 as int));
                }
                q = q + 1;
            }
            proof {
                assert(fv.take(fv.len() as int) =~= fv);
            }
            Ok(())
        },
    }
}

/// Append one row's text to `out`: fields each followed by `|`, then the
/// variant's suffix.
fn push_row_text(
    out: &mut Vec<char>,
    row: &Vec<Option<Vec<String>>>,
    vars: &Vec<Itemizer>,
    with_output: bool,
) -> (r: Result<(), CodecError>)
    requires
        row@.len() == vars@.len(),
        forall|v: int| 0 <= v < vars@.len() ==> (#[trigger] vars@[v]).wf(),
    ensures
        match r {
            Ok(()) => row_text(row.deep_view(), vars_model(vars@), row_suffix(with_output))
                matches Ok(t) && final(out)@ == old(out)@ + t,
            Err(e) => row_text(row.deep_view(), vars_model(vars@), row_suffix(with_output))
                == Err::<Seq<char>, _>(e),
        },
{
    let ghost rm = row.deep_view();
    let ghost vm = vars_model(vars@);
    let ghost base = old(out)@;
    let ghost sfx = row_suffix(with_output);
    let mut j: usize = 0;
    proof {
        assert(rm.skip(0) =~= rm);
        assert(vm.skip(0) =~= vm);
        assert(rm.len() == row@.len());
    }
    while j < row.len()
        invariant
            j <= row@.len(),
            rm == row.deep_view(),
            vm == vars_model(vars@),
            sfx == row_suffix(with_output),
            rm.len() == row@.len(),
            vm.len() == vars@.len(),
            row@.len() == vars@.len(),
            forall|v: int| 0 <= v < vars@.len() ==> (#[trigger] vars@[v]).wf(),
            base == old(out)@,
            row_text(rm, vm, sfx) == (match row_text(rm.skip(j as int), vm.skip(j as int), sfx) {
                Ok(rest) => Ok::<Seq<char>, CodecError>(out@.skip(base.len() as int) + rest),
                Err(e) => Err(e),
            }),
            out@.len() >= base.len() && out@.take(base.len() as int) == base,
        decreases row@.len() - j,
    {
        proof {
            assert(rm.skip(j as int)[0] == rm[j as int]);
            assert(vm.skip(j as int)[0] == vm[j as int]);
            assert(rm.skip(j as int).skip(1) =~= rm.skip(j + 1 as int));
            assert(vm.skip(j as int).skip(1) =~= vm.skip(j + 1 as int));
            assert(rm[j as int] == row@[j as int].deep_view());
            assert(vm[j as int] == vars@[j as int]@);
        }
        let ghost acc = out@.skip(base.len() as int);
        match push_cell_field(out, &row[j], &vars[j]) {
            Ok(()) => {
                out.push('|');
                proof {
                    let f = cell_field(rm[j as int], vm[j as int])->Ok_0;
                    assert(out@.skip(base.len() as int) =~= acc + f + seq!['|']);
                    assert(out@.take(base.len() as int) =~= base);
                    if row_text(rm.skip(j + 1 as int), vm.skip(j + 1 as int), sfx) is Ok {
                        let rest = row_text(rm.skip(j + 1 as int), vm.skip(j + 1 as int), sfx)->Ok_0;
                        assert(acc + (f + seq!['|'] + rest) =~= (acc + f + seq!['|']) + rest);
                    }
                }
            },
            Err(e) => {
                return Err(e);
            },
        }
        j = j + 1;
    }
    proof {
        assert(rm.skip(rm.len() as int).len() == 0);
    }
    let ghost acc = out@.skip(base.len() as int);
    if with_output {
        out.push('1');
        out.push('0');
    }
    proof {
        assert(out@.skip(base.len() as int) =~= acc + sfx);
        assert(out@ =~= base + (acc + sfx));
    }
    Ok(())
}

/// An error in any row prefix decides the whole encode.
proof fn lemma_rows_texts_prefix_err(
    mat: Seq<Seq<CellModel>>,
    vars: Seq<VarModel>,
    suffix: Seq<char>,
    j: int,
)
    requires
        0 <= j <= mat.len(),
        rows_texts(mat.take(j), vars, suffix) is Err,
    ensures
        rows_texts(mat, vars, suffix) == rows_texts(mat.take(j), vars, suffix),
    decreases mat.len() - j,
{
    if j < mat.len() {
        assert(mat.take(j + 1).drop_last() =~= mat.take(j));
        lemma_rows_texts_prefix_err(mat, vars, suffix, j + 1);
    } else {
        assert(mat.take(j) =~= mat);
    }
}

/// Append the `.mv` header line's text to `out`.
fn push_mv_line(out: &mut Vec<char>, vars: &Vec<Itemizer>, with_output: bool)
    requires
        vars@.len() < usize::MAX,
    ensures
        final(out)@ == old(out)@ + mv_line(vars_model(vars@), with_output),
{
    let ghost vm = vars_model(vars@);
    let ghost base = old(out)@;
    proof {
        assert(vm.len() == vars@.len());
    }
    out.push('.');
    out.push('m');
    out.push('v');
    out.push(' ');
    let nv = if with_output {
        vars.len() + 1
    } else {
        vars.len()
    };
    push_dec(out, nv);
    out.push(' ');
    out.push('0');
    out.push(' ');
    let ghost mv_pre = out@;
    let mut i: usize = 0;
    proof {
        assert(out@ =~= mv_pre + join_widths(vm.take(0)));
    }
    while i < vars.len()
        invariant
            i <= vars@.len(),
            vm == vars_model(vars@),
            vm.len() == vars@.len(),
            out@ == mv_pre + join_widths(vm.take(i as int)),
        decreases vars@.len() - i,
    {
        if i > 0 {
            out.push(' ');
        }
        push_dec(out, vars[i].len());
        proof {
            let cur = vm.take(i + 1 as int);
            assert(cur.drop_last() =~= vm.take(i as int));
            assert(cur.last() == vm[i as int]);
            assert(vm[i as int] == vars@[i as int]@);
            assert(out@ =~= mv_pre + join_widths(cur));
        }
        i = i + 1;
    }
    proof {
        assert(vm.take(vars@.len() as int) =~= vm);
    }
    if with_output {
        out.push(' ');
        out.push('2');
    }
    proof {
        assert(out@ =~= base + mv_line(vm, with_output));
    }
}

/// Append the chosen variant's header lines to `out`: `.mv`, the compress
/// variant's `.ob` naming, the `.p` row count, and `.type f`.
fn push_ob_nl(out: &mut Vec<char>)
    ensures
        final(out)@ == old(out)@ + ob_line() + seq!['\n'],
{
    out.push('.');
    out.push('o');
    out.push('b');
    out.push(' ');
    out.push('O');
    out.push('N');
    out.push(' ');
    out.push('O');
    out.push('F');
    out.push('F');
    out.push('\n');
    proof {
        assert(out@ =~= old(out)@ + ob_line() + seq!['\n']);
    }
}

fn push_p_nl(out: &mut Vec<char>, n: usize)
    ensures
        final(out)@ == old(out)@ + p_line(n as nat) + seq!['\n'],
{
    out.push('.');
    out.push('p');
    out.push(' ');
    push_dec(out, n);
    out.push('\n');
    proof {
        assert(out@ =~= old(out)@ + p_line(n as nat) + seq!['\n']);
    }
}

fn push_type_nl(out: &mut Vec<char>)
    ensures
        final(out)@ == old(out)@ + type_line() + seq!['\n'],
{
    out.push('.');
    out.push('t');
    out.push('y');
    out.push('p');
    out.push('e');
    out.push(' ');
    out.push('f');
    out.push('\n');
    proof {
        assert(out@ =~= old(out)@ + type_line() + seq!['\n']);
    }
}

/// Append the chosen variant's header lines to `out`: `.mv`, the compress
/// variant's `.ob` naming, the `.p` row count, and `.type f`.
fn push_multi_header(out: &mut Vec<char>, vars: &Vec<Itemizer>, with_output: bool, nrows: usize)
    requires
        vars@.len() < usize::MAX,
    ensures
        final(out)@ == old(out)@ + unlines(
            multi_header_lines(vars_model(vars@), with_output, nrows as nat),
        ),
{
    let ghost vm = vars_model(vars@);
    let ghost base = old(out)@;
    let ghost hdr = multi_header_lines(vm, with_output, nrows as nat);
    push_mv_line(out, vars, with_output);
    out.push('\n');
    if with_output {
        push_ob_nl(out);
    }
    push_p_nl(out, nrows);
    push_type_nl(out);
    proof {
        lemma_unlines_one(mv_line(vm, with_output));
        lemma_unlines_one(ob_line());
        lemma_unlines_one(p_line(nrows as nat));
        lemma_unlines_one(type_line());
        if with_output {
            assert(hdr =~~= seq![mv_line(vm, true)] + (seq![ob_line()] + (seq![p_line(
                nrows as nat,
            )] + seq![type_line()])));
            lemma_unlines_append(seq![p_line(nrows as nat)], seq![type_line()]);
            lemma_unlines_append(
                seq![ob_line()],
                seq![p_line(nrows as nat)] + seq![type_line()],
            );
            lemma_unlines_append(
                seq![mv_line(vm, true)],
                seq![ob_line()] + (seq![p_line(nrows as nat)] + seq![type_line()]),
            );
            assert(out@ =~= base + unlines(hdr));
        } else {
            assert(hdr =~~= seq![mv_line(vm, false)] + (seq![p_line(nrows as nat)]
                + seq![type_line()]));
            lemma_unlines_append(seq![p_line(nrows as nat)], seq![type_line()]);
            lemma_unlines_append(
                seq![mv_line(vm, false)],
                seq![p_line(nrows as nat)] + seq![type_line()],
            );
            assert(out@ =~= base + unlines(hdr));
        }
    }
}

/// Encode the whole matrix in the chosen variant's layout: the header lines,
/// one line per row, and the terminator.
pub(crate) fn encode_multi(
    matrix: &Vec<Vec<Option<Vec<String>>>>,
    vars: &Vec<Itemizer>,
    with_output: bool,
) -> (r: Result<String, CodecError>)
    requires
        vars@.len() < usize::MAX,
        forall|i: int| 0 <= i < matrix@.len() ==> (#[trigger] matrix@[i])@.len() == vars@.len(),
        forall|v: int| 0 <= v < vars@.len() ==> (#[trigger] vars@[v]).wf(),
    ensures
        match r {
            Ok(s) => encode_multi_text(matrix.deep_view(), vars_model(vars@), with_output)
                == Ok::<_, CodecError>(s@),
            Err(e) => encode_multi_text(matrix.deep_view(), vars_model(vars@), with_output)
                == Err::<Seq<char>, _>(e),
        },
{
    let ghost mm = matrix.deep_view();
    let ghost vm = vars_model(vars@);
    let ghost sfx = row_suffix(with_output);
    let ghost hdr = multi_header_lines(vm, with_output, mm.len());
    proof {
        assert(mm.len() == matrix@.len());
        assert(vm.len() == vars@.len());
    }
    let mut out: Vec<char> = Vec::new();
    push_multi_header(&mut out, vars, with_output, matrix.len());
    proof {
        assert(out@ =~= unlines(hdr));
    }
    // The body rows.
    let mut row_i: usize = 0;
    proof {
        assert(mm.take(0) =~= Seq::<Seq<CellModel>>::empty());
        assert(hdr + Seq::<Seq<char>>::empty() =~= hdr);
    }
    while row_i < matrix.len()
        invariant
            row_i <= matrix@.len(),
            mm == matrix.deep_view(),
            vm == vars_model(vars@),
            sfx == row_suffix(with_output),
            mm.len() == matrix@.len(),
            vm.len() == vars@.len(),
            hdr == multi_header_lines(vm, with_output, mm.len()),
            forall|a: int| 0 <= a < matrix@.len() ==> (#[trigger] matrix@[a])@.len() == vars@.len(),
            forall|v: int| 0 <= v < vars@.len() ==> (#[trigger] vars@[v]).wf(),
            rows_texts(mm.take(row_i as int), vm, sfx) matches Ok(rt) && out@ == unlines(hdr + rt),
        decreases matrix@.len() - row_i,
    {
        let ghost rt = rows_texts(mm.take(row_i as int), vm, sfx)->Ok_0;
        proof {
            assert(mm[row_i as int] == matrix@[row_i as int].deep_view());
        }
        match push_row_text(&mut out, &matrix[row_i], vars, with_output) {
            Ok(()) => {
                out.push('\n');
                proof {
                    let t = row_text(mm[row_i as int], vm, sfx)->Ok_0;
                    let cur = mm.take(row_i + 1 as int);
                    assert(cur.drop_last() =~= mm.take(row_i as int));
                    assert(cur.last() == mm[row_i as int]);
                    assert(rows_texts(cur, vm, sfx) == Ok::<_, CodecError>(rt.push(t)));
                    lemma_unlines_append(hdr + rt, seq![t]);
                    lemma_unlines_one(t);
                    assert((hdr + rt) + seq![t] =~= hdr + rt.push(t));
                    assert(out@ =~= unlines(hdr + rt.push(t)));
                }
            },
            Err(e) => {
                proof {
                    let cur = mm.take(row_i + 1 as int);
                    assert(cur.drop_last() =~= mm.take(row_i as int));
                    assert(cur.last() == mm[row_i as int]);
                    assert(rows_texts(cur, vm, sfx) == Err::<Seq<Seq<char>>, _>(e));
                    lemma_rows_texts_prefix_err(mm, vm, sfx, row_i + 1);
                }
                return Err(e);
            },
        }
        row_i = row_i + 1;
    }
    proof {
        assert(mm.take(mm.len() as int) =~= mm);
    }
    // The terminator.
    out.push('.');
    out.push('e');
    out.push('\n');
    let ghost rt_all = rows_texts(mm, vm, sfx)->Ok_0;
    proof {
        lemma_unlines_append(hdr + rt_all, seq![seq!['.', 'e']]);
        lemma_unlines_one(seq!['.', 'e']);
        assert((hdr + rt_all) + seq![seq!['.', 'e']] =~= hdr + rt_all + seq![seq!['.', 'e']]);
        assert(out@ =~= unlines(hdr + rt_all + seq![seq!['.', 'e']]));
    }
    Ok(chars_to_string(&out))
}

// ------------------------------------------------------------------
// Decoding.
// ------------------------------------------------------------------

/// Whether every character of a token is `'1'`.
pub open spec fn all_ones(tok: Seq<char>) -> bool {
    forall|i: int| 0 <= i < tok.len() ==> tok[i] == '1'
}

/// The values whose one-hot positions are set, in identity order: a `'1'` at
/// position `p` selects the value with identity `p + 1`.
pub open spec fn ones_values(tok: Seq<char>, var: VarModel) -> Seq<Seq<char>>
    decreases tok.len(),
{
    if tok.len() == 0 {
        Seq::empty()
    } else {
        ones_values(tok.drop_last(), var) + (if tok.last() == '1' {
            seq![var[tok.len() - 1]]
        } else {
            Seq::<Seq<char>>::empty()
        })
    }
}

/// The cell one result token decodes to. An all-ones token is a wildcard —
/// no constraint survived — unless the column is the distinguished one
/// (`keep`), whose values are always preserved. A set position past the
/// column's vocabulary is an unassigned identity; a token with no set
/// position leaves the cell empty.
pub open spec fn decode_token(tok: Seq<char>, var: VarModel, keep: bool) -> Result<
    CellModel,
    CodecError,
> {
    if !keep && all_ones(tok) {
        Ok(Option::None)
    } else if exists|p: int| 0 <= p < tok.len() && tok[p] == '1' && p >= var.len() {
        Err(CodecError::UnassignedId)
    } else {
        let vals = ones_values(tok, var);
        if vals.len() == 0 {
            Ok(Option::None)
        } else {
            Ok(Option::Some(vals))
        }
    }
}

/// The cells of one row from column `j` on: tokens map to columns in order,
/// tokens past the columns are ignored, columns past the tokens stay empty.
pub open spec fn decode_cells(
    toks: Seq<Seq<char>>,
    vars: Seq<VarModel>,
    keep: bool,
    j: int,
) -> Result<Seq<CellModel>, CodecError>
    decreases vars.len() - j,
{
    if j < 0 || j >= vars.len() {
        Ok(Seq::empty())
    } else {
        let cell = if j < toks.len() {
            decode_token(toks[j], vars[j], keep && j == vars.len() - 1)
        } else {
            Ok(Option::None)
        };
        match cell {
            Err(e) => Err(e),
            Ok(c) => match decode_cells(toks, vars, keep, j + 1) {
                Ok(rest) => Ok(seq![c] + rest),
                Err(e) => Err(e),
            },
        }
    }
}

/// The cells one body row decodes to: split at spaces, the first token (the
/// output-class field) skipped.
pub open spec fn decode_row(l: Seq<char>, vars: Seq<VarModel>, keep: bool) -> Result<
    Seq<CellModel>,
    CodecError,
> {
    decode_cells(split_all(l, ' ').skip(1), vars, keep, 0)
}

/// A grid of `n` rows, one empty cell per column.
pub open spec fn empty_grid(n: nat, cols: nat) -> Seq<Seq<CellModel>> {
    Seq::new(n, |i: int| Seq::new(cols, |j: int| Option::<Seq<Seq<char>>>::None))
}

/// A row-count directive: a line beginning `.p`.
pub open spec fn is_p_line(l: Seq<char>) -> bool {
    l.len() >= 2 && l[0] == '.' && l[1] == 'p'
}

/// The count a `.p` line carries, or nothing where malformed.
pub open spec fn p_count(l: Seq<char>) -> Option<nat> {
    if l.len() >= 3 && l[2] == ' ' {
        parse_count(l.skip(3))
    } else {
        Option::None
    }
}

/// Read the minimizer's result lines: `.p` (re)sizes a fresh grid and resets
/// the row position, other directives are skipped, each body row fills the
/// next grid row, and the terminator yields the grid. A body row before any
/// `.p`, or one too many, is malformed, as is text without a terminator.
pub open spec fn parse_result_lines(
    ls: Seq<Seq<char>>,
    vars: Seq<VarModel>,
    keep: bool,
    grid: Option<Seq<Seq<CellModel>>>,
    pos: int,
) -> Result<Seq<Seq<CellModel>>, CodecError>
    decreases ls.len(),
{
    if ls.len() == 0 {
        Err(CodecError::MissingTerminator)
    } else {
        let l = ls[0];
        if is_end_line(l) {
            match grid {
                Option::Some(g) => Ok(g),
                Option::None => Err(CodecError::UnsizedGrid),
            }
        } else if is_p_line(l) {
            match p_count(l) {
                Option::Some(n) => parse_result_lines(
                    ls.skip(1),
                    vars,
                    keep,
                    Option::Some(empty_grid(n, vars.len())),
                    0,
                ),
                Option::None => Err(CodecError::BadCount),
            }
        } else if is_dot_line(l) {
            parse_result_lines(ls.skip(1), vars, keep, grid, pos)
        } else {
            match grid {
                Option::None => Err(CodecError::UnsizedGrid),
                Option::Some(g) => if pos >= g.len() {
                    Err(CodecError::RowOverflow)
                } else {
                    match decode_row(l, vars, keep) {
                        Err(e) => Err(e),
                        Ok(cells) => parse_result_lines(
                            ls.skip(1),
                            vars,
                            keep,
                            Option::Some(g.update(pos, cells)),
                            pos + 1,
                        ),
                    }
                },
            }
        }
    }
}

/// What decoding the whole result text yields.
pub open spec fn parse_result_text(s: Seq<char>, vars: Seq<VarModel>, keep: bool) -> Result<
    Seq<Seq<CellModel>>,
    CodecError,
> {
    parse_result_lines(split_lines(s), vars, keep, Option::None, 0)
}

/// Decode one result token, exactly as [`decode_token`] reads it.
fn decode_token_vec(tok: &Vec<char>, var: &Itemizer, keep: bool) -> (r: Result<
    Option<Vec<String>>,
    CodecError,
>)
    ensures
        match r {
            Ok(c) => decode_token(tok@, var@, keep) == Ok::<_, CodecError>(c.deep_view()),
            Err(e) => decode_token(tok@, var@, keep) == Err::<CellModel, _>(e),
        },
{
    if !keep {
        let mut p: usize = 0;
        let mut allones = true;
        while p < tok.len()
            invariant
                p <= tok@.len(),
                allones <==> all_ones(tok@.take(p as int)),
            decreases tok@.len() - p,
        {
            proof {
                assert(tok@.take(p + 1 as int).drop_last() =~= tok@.take(p as int));
                assert(tok@.take(p + 1 as int).last() == tok@[p as int]);
            }
            if tok[p] != '1' {
                allones = false;
            }
            p = p + 1;
        }
        proof {
            assert(tok@.take(tok@.len() as int) =~= tok@);
        }
        if allones {
            return Ok(Option::None);
        }
    }
    let w = var.len();
    let mut vals: Vec<String> = Vec::new();
    let mut p: usize = 0;
    proof {
        assert(vals.deep_view() =~~= ones_values(tok@.take(0), var@));
    }
    while p < tok.len()
        invariant
            p <= tok@.len(),
            w == var@.len(),
            !keep ==> !all_ones(tok@),
            forall|q: int| 0 <= q < p && tok@[q] == '1' ==> q < var@.len(),
            vals.deep_view() == ones_values(tok@.take(p as int), var@),
        decreases tok@.len() - p,
    {
        let c = tok[p];
        proof {
            assert(tok@.take(p + 1 as int).drop_last() =~= tok@.take(p as int));
            assert(tok@.take(p + 1 as int).last() == tok@[p as int]);
        }
        if c == '1' {
            if p >= w {
                proof {
                    assert(tok@[p as int] == '1' && p as int >= var@.len());
                }
                return Err(CodecError::UnassignedId);
            }
            let v = var.value_of(p + 1);
            let ghost before = vals.deep_view();
            vals.push(v);
            proof {
                assert(vals.deep_view() =~~= before.push(var@[p as int]));
                assert(before.push(var@[p as int]) =~~= before + seq![var@[p as int]]);
            }
        } else {
            proof {
                assert(ones_values(tok@.take(p + 1 as int), var@) =~~= vals.deep_view()
                    + Seq::<Seq<char>>::empty());
            }
        }
        p = p + 1;
    }
    proof {
        assert(tok@.take(tok@.len() as int) =~= tok@);
        assert(!(exists|q: int| 0 <= q < tok@.len() && tok@[q] == '1' && q >= var@.len()));
    }
    if vals.len() == 0 {
        proof {
            assert(vals.deep_view().len() == vals@.len());
        }
        Ok(Option::None)
    } else {
        proof {
            assert(vals.deep_view().len() == vals@.len());
        }
        Ok(Option::Some(vals))
    }
}

/// Decode one body row, exactly as [`decode_row`] reads it.
fn decode_row_vec(l: &Vec<char>, vars: &Vec<Itemizer>, keep: bool) -> (r: Result<
    Vec<Option<Vec<String>>>,
    CodecError,
>)
    ensures
        match r {
            Ok(cells) => decode_row(l@, vars_model(vars@), keep) == Ok::<_, CodecError>(
                cells.deep_view(),
            ) && cells@.len() == vars@.len(),
            Err(e) => decode_row(l@, vars_model(vars@), keep) == Err::<Seq<CellModel>, _>(e),
        },
{
    let ghost vm = vars_model(vars@);
    let toks = split_all_vec(l, ' ');
    let ghost tv = toks.deep_view().skip(1);
    proof {
        crate::text::lemma_split_acc_len(l@, ' ', Seq::empty());
        assert(toks.deep_view().len() == toks@.len());
        assert(vm.len() == vars@.len());
    }
    let mut cells: Vec<Option<Vec<String>>> = Vec::new();
    let mut j: usize = 0;
    proof {
        assert(cells.deep_view() =~~= Seq::<CellModel>::empty());
        if decode_cells(tv, vm, keep, 0) is Ok {
            let rest = decode_cells(tv, vm, keep, 0)->Ok_0;
            assert(cells.deep_view() + rest =~= rest);
        }
    }
    while j < vars.len()
        invariant
            j <= vars@.len(),
            vm == vars_model(vars@),
            vm.len() == vars@.len(),
            tv == toks.deep_view().skip(1),
            tv == split_all(l@, ' ').skip(1),
            toks.deep_view().len() == toks@.len(),
            tv.len() == toks@.len() - 1,
            cells@.len() == j,
            cells.deep_view().len() == j,
            decode_cells(tv, vm, keep, 0) == (match decode_cells(tv, vm, keep, j as int) {
                Ok(rest) => Ok::<Seq<CellModel>, CodecError>(cells.deep_view() + rest),
                Err(e) => Err(e),
            }),
        decreases vars@.len() - j,
    {
        let ghost keep_here = keep && j as int == vm.len() - 1;
        proof {
            if (j as int) < tv.len() {
                assert(tv[j as int] == toks.deep_view()[j + 1 as int]);
                assert(toks.deep_view()[j + 1 as int] == toks@[j + 1 as int]@);
            }
            assert(vm[j as int] == vars@[j as int]@);
        }
        let keep_flag = keep && j == vars.len() - 1;
        let cell: Option<Vec<String>> = if j + 1 < toks.len() {
            match decode_token_vec(&toks[j + 1], &vars[j], keep_flag) {
                Ok(c) => c,
                Err(e) => {
                    return Err(e);
                },
            }
        } else {
            Option::None
        };
        let ghost before = cells.deep_view();
        let ghost cm = cell.deep_view();
        cells.push(cell);
        proof {
            assert(cells.deep_view() =~~= before.push(cm));
            if decode_cells(tv, vm, keep, j + 1) is Ok {
                let rest = decode_cells(tv, vm, keep, j + 1)->Ok_0;
                assert(before + (seq![cm] + rest) =~= before.push(cm) + rest);
            }
        }
        j = j + 1;
    }
    proof {
        assert(decode_cells(tv, vm, keep, vars@.len() as int) == Ok::<Seq<CellModel>, CodecError>(
            Seq::empty(),
        ));
        assert(cells.deep_view() + Seq::<CellModel>::empty() =~= cells.deep_view());
    }
    Ok(cells)
}

/// A grid of `n` rows, one empty cell per column.
fn new_grid(n: usize, cols: usize) -> (g: Vec<Vec<Option<Vec<String>>>>)
    ensures
        g.deep_view() == empty_grid(n as nat, cols as nat),
{
    let mut g: Vec<Vec<Option<Vec<String>>>> = Vec::new();
    let mut i: usize = 0;
    proof {
        assert(g.deep_view() =~~= empty_grid(n as nat, cols as nat).take(0));
    }
    while i < n
        invariant
            i <= n,
            g.deep_view() == empty_grid(n as nat, cols as nat).take(i as int),
            g@.len() == i,
        decreases n - i,
    {
        let mut row: Vec<Option<Vec<String>>> = Vec::new();
        let mut j: usize = 0;
        while j < cols
            invariant
                j <= cols,
                row@.len() == j,
                forall|q: int| 0 <= q < j ==> row@[q] == Option::<Vec<String>>::None,
            decreases cols - j,
        {
            row.push(Option::None);
            j = j + 1;
        }
        let ghost before = g.deep_view();
        proof {
            assert(row.deep_view() =~~= Seq::new(cols as nat, |q: int| Option::<Seq<Seq<char>>>::None));
        }
        let ghost rm = row.deep_view();
        g.push(row);
        proof {
            assert(g.deep_view() =~~= before.push(rm));
            assert(before.push(rm) =~~= empty_grid(n as nat, cols as nat).take(i + 1 as int));
        }
        i = i + 1;
    }
    proof {
        assert(empty_grid(n as nat, cols as nat).take(n as int) =~~= empty_grid(
            n as nat,
            cols as nat,
        ));
    }
    g
}

/// Decode a whole result text, exactly as [`parse_result_text`] reads it.
#[verifier::loop_isolation(false)]
pub(crate) fn decode_multi(s: &str, vars: &Vec<Itemizer>, keep: bool) -> (r: Result<
    Vec<Vec<Option<Vec<String>>>>,
    CodecError,
>)
    ensures
        match r {
            Ok(g) => parse_result_text(s@, vars_model(vars@), keep) == Ok::<_, CodecError>(
                g.deep_view(),
            ),
            Err(e) => parse_result_text(s@, vars_model(vars@), keep) == Err::<
                Seq<Seq<CellModel>>,
                _,
            >(e),
        },
{
    let ghost vm = vars_model(vars@);
    let chars = string_to_chars(s);
    let lines = split_lines_vec(&chars);
    let ghost lv = split_lines(s@);
    proof {
        assert(lines.deep_view() == lv);
        assert(lines@.len() == lv.len());
        assert(lv.skip(0) =~= lv);
    }
    let mut sized = false;
    let mut grid: Vec<Vec<Option<Vec<String>>>> = Vec::new();
    let mut pos: usize = 0;
    let mut k: usize = 0;
    loop
        invariant
            k <= lv.len(),
            sized ==> pos <= grid@.len(),
            grid.deep_view().len() == grid@.len(),
            parse_result_lines(lv, vm, keep, Option::None, 0) == parse_result_lines(
                lv.skip(k as int),
                vm,
                keep,
                if sized {
                    Option::Some(grid.deep_view())
                } else {
                    Option::None
                },
                pos as int,
            ),
        decreases lv.len() - k,
    {
        if k == lines.len() {
            proof {
                assert(lv.skip(k as int).len() == 0);
            }
            return Err(CodecError::MissingTerminator);
        }
        let l = &lines[k];
        proof {
            assert(lv.skip(k as int)[0] == lv[k as int]);
            assert(l@ == lv[k as int]);
            assert(lv.skip(k as int).skip(1) =~= lv.skip(k + 1 as int));
        }
        if line_is_end_m(l) {
            if sized {
                return Ok(grid);
            } else {
                return Err(CodecError::UnsizedGrid);
            }
        } else if line_is_p(l) {
            let n = if l.len() >= 3 {
                let sp = l[2];
                if sp == ' ' {
                    parse_count_vec(l, 3)
                } else {
                    Option::None
                }
            } else {
                Option::None
            };
            match n {
                Option::Some(count) => {
                    grid = new_grid(count, vars.len());
                    sized = true;
                    pos = 0;
                    proof {
                        assert(vm.len() == vars@.len());
                        assert(grid.deep_view() == empty_grid(count as nat, vm.len()));
                    }
                },
                Option::None => {
                    return Err(CodecError::BadCount);
                },
            }
        } else if line_is_dot_m(l) {
        } else {
            if !sized {
                return Err(CodecError::UnsizedGrid);
            }
            if pos >= grid.len() {
                return Err(CodecError::RowOverflow);
            }
            match decode_row_vec(l, vars, keep) {
                Ok(cells) => {
                    let ghost before = grid.deep_view();
                    let ghost cm = cells.deep_view();
                    grid[pos] = cells;
                    proof {
                        assert(grid.deep_view() =~~= before.update(pos as int, cm));
                    }
                    pos = pos + 1;
                },
                Err(e) => {
                    return Err(e);
                },
            }
        }
        k = k + 1;
    }
}

fn line_is_end_m(l: &Vec<char>) -> (r: bool)
    ensures
        r == is_end_line(l@),
{
    l.len() >= 2 && l[0] == '.' && l[1] == 'e'
}

fn line_is_p(l: &Vec<char>) -> (r: bool)
    ensures
        r == is_p_line(l@),
{
    l.len() >= 2 && l[0] == '.' && l[1] == 'p'
}

fn line_is_dot_m(l: &Vec<char>) -> (r: bool)
    ensures
        r == is_dot_line(l@),
{
    l.len() >= 1 && l[0] == '.'
}

// ------------------------------------------------------------------
// The wildcard law.
// ------------------------------------------------------------------

/// Multi-valued wildcard law, encode half: a wildcard cell always encodes to
/// a field of all `'1'` characters whose width is its column's vocabulary
/// size.
pub proof fn lemma_wildcard_encodes_all_ones(var: VarModel)
    ensures
        cell_field(Option::None, var) matches Ok(f) && f.len() == var.len() && all_ones(f),
{
}

/// Multi-valued wildcard law, decode half: an all-ones token in any
/// non-distinguished column always decodes to an empty cell.
pub proof fn lemma_all_ones_decodes_empty(tok: Seq<char>, var: VarModel)
    requires
        all_ones(tok),
    ensures
        decode_token(tok, var, false) == Ok::<CellModel, CodecError>(Option::None),
{
}

/// The values an all-ones token selects are the whole vocabulary prefix it
/// spans.
pub proof fn lemma_ones_values_all(tok: Seq<char>, var: VarModel)
    requires
        all_ones(tok),
        tok.len() <= var.len(),
    ensures
        ones_values(tok, var) == var.take(tok.len() as int),
    decreases tok.len(),
{
    if tok.len() == 0 {
        assert(var.take(0) =~= Seq::<Seq<char>>::empty());
    } else {
        lemma_ones_values_all(tok.drop_last(), var);
        assert(ones_values(tok, var) =~= var.take(tok.len() - 1).push(var[tok.len() - 1]));
        assert(var.take(tok.len() - 1).push(var[tok.len() - 1]) =~= var.take(tok.len() as int));
    }
}

} // verus!
