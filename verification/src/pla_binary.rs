//! The single-valued (binary) table codec: ternary truth rows to and from the
//! line-oriented table text.
//!
//! Encoding writes `.i <n>`, `.o <n>`, `.type f`, one line per row (input
//! characters, one space, output characters), and the `.e` terminator.
//! Decoding captures the most recent `.i`/`.o` before `.type`, tolerates
//! other directive lines there, reads every line after `.type` and before
//! `.e` as a body row, and checks each row against the declared header.

use vstd::prelude::*;
use crate::errors::CodecError;
use crate::ternary::Ternary;
use crate::ternary::is_ternary_char;
use crate::ternary::lemma_parse_ternary_chars;
use crate::ternary::lemma_ternary_chars_plain;
use crate::ternary::parse_ternaries;
use crate::ternary::parse_ternary_field;
use crate::ternary::push_ternary_chars;
use crate::ternary::ternary_chars;
use crate::text::chars_to_string;
use crate::text::dec_digits;
use crate::text::free_of;
use crate::text::lemma_dec_digits_all_digits;
use crate::text::lemma_parse_dec_digits;
use crate::text::lemma_split_acc_break;
use crate::text::lemma_split_acc_no_sep;
use crate::text::lemma_split_lines_unlines;
use crate::text::parse_count;
use crate::text::parse_count_vec;
use crate::text::push_dec;
use crate::text::split_all;
use crate::text::split_all_vec;
use crate::text::split_lines;
use crate::text::split_lines_vec;
use crate::text::string_to_chars;
use crate::text::unlines;

verus! {

/// One table row: its input cells and its output cells.
#[derive(Debug)]
pub struct Row {
    pub inputs: Vec<Ternary>,
    pub outputs: Vec<Ternary>,
}

impl View for Row {
    type V = (Seq<Ternary>, Seq<Ternary>);

    open spec fn view(&self) -> (Seq<Ternary>, Seq<Ternary>) {
        (self.inputs@, self.outputs@)
    }
}

impl DeepView for Row {
    type V = (Seq<Ternary>, Seq<Ternary>);

    open spec fn deep_view(&self) -> (Seq<Ternary>, Seq<Ternary>) {
        self@
    }
}

/// A single-valued truth table: a header recording the input and output cell
/// counts, and the rows in append order. The first appended row fixes the
/// header; every later row must match it.
#[derive(Debug)]
pub struct PlaBinary {
    ni: usize,
    no: usize,
    rows: Vec<Row>,
}

impl View for PlaBinary {
    type V = Seq<(Seq<Ternary>, Seq<Ternary>)>;

    closed spec fn view(&self) -> Seq<(Seq<Ternary>, Seq<Ternary>)> {
        self.rows.deep_view()
    }
}

// ------------------------------------------------------------------
// Encoding, as text.
// ------------------------------------------------------------------

/// The header lines: input count, output count, on-set type.
pub open spec fn encode_header_lines(ni: int, no: int) -> Seq<Seq<char>> {
    seq![
        seq!['.', 'i', ' '] + dec_digits(ni as nat),
        seq!['.', 'o', ' '] + dec_digits(no as nat),
        seq!['.', 't', 'y', 'p', 'e', ' ', 'f'],
    ]
}

/// One body line: input characters, one space, output characters.
pub open spec fn row_line(r: (Seq<Ternary>, Seq<Ternary>)) -> Seq<char> {
    ternary_chars(r.0) + seq![' '] + ternary_chars(r.1)
}

/// The body lines, one per row in order.
pub open spec fn row_lines(rows: Seq<(Seq<Ternary>, Seq<Ternary>)>) -> Seq<Seq<char>> {
    rows.map_values(|r: (Seq<Ternary>, Seq<Ternary>)| row_line(r))
}

/// Every line of the encoded table, in order, terminator included.
pub open spec fn encode_lines(ni: int, no: int, rows: Seq<(Seq<Ternary>, Seq<Ternary>)>) -> Seq<
    Seq<char>,
> {
    encode_header_lines(ni, no) + row_lines(rows) + seq![seq!['.', 'e']]
}

/// The whole encoded table text, each line terminated by a line break.
pub open spec fn encode_text(ni: int, no: int, rows: Seq<(Seq<Ternary>, Seq<Ternary>)>) -> Seq<
    char,
> {
    unlines(encode_lines(ni, no, rows))
}

// ------------------------------------------------------------------
// Decoding, line by line.
// ------------------------------------------------------------------

/// A directive line: it begins with a dot.
pub open spec fn is_dot_line(l: Seq<char>) -> bool {
    l.len() >= 1 && l[0] == '.'
}

/// The terminator: a line beginning `.e`.
pub open spec fn is_end_line(l: Seq<char>) -> bool {
    l.len() >= 2 && l[0] == '.' && l[1] == 'e'
}

/// The body opener: a line beginning `.type`.
pub open spec fn is_type_line(l: Seq<char>) -> bool {
    l.len() >= 5 && l[0] == '.' && l[1] == 't' && l[2] == 'y' && l[3] == 'p' && l[4] == 'e'
}

/// An input-count declaration: a line beginning `.i `.
pub open spec fn is_i_line(l: Seq<char>) -> bool {
    l.len() >= 3 && l[0] == '.' && l[1] == 'i' && l[2] == ' '
}

/// An output-count declaration: a line beginning `.o `.
pub open spec fn is_o_line(l: Seq<char>) -> bool {
    l.len() >= 3 && l[0] == '.' && l[1] == 'o' && l[2] == ' '
}

/// Read one body line: split at the first space into the input and output
/// fields (further fields are ignored), map the three field characters, and
/// hold the widths against the declared header.
pub open spec fn parse_row_line(l: Seq<char>, ni: int, no: int) -> Result<
    (Seq<Ternary>, Seq<Ternary>),
    CodecError,
> {
    let toks = split_all(l, ' ');
    if toks.len() < 2 {
        Err(CodecError::BadRow)
    } else {
        match parse_ternaries(toks[0]) {
            Option::None => Err(CodecError::BadChar),
            Option::Some(ins) => match parse_ternaries(toks[1]) {
                Option::None => Err(CodecError::BadChar),
                Option::Some(outs) => if ins.len() == ni && outs.len() == no {
                    Ok((ins, outs))
                } else {
                    Err(CodecError::HeaderMismatch)
                },
            },
        }
    }
}

/// Read the body: every line after `.type` up to the terminator is a row; no
/// other directive is tolerated there; text without a terminator is
/// malformed.
pub open spec fn parse_body_lines(ls: Seq<Seq<char>>, ni: int, no: int) -> Result<
    Seq<(Seq<Ternary>, Seq<Ternary>)>,
    CodecError,
>
    decreases ls.len(),
{
    if ls.len() == 0 {
        Err(CodecError::MissingTerminator)
    } else if is_end_line(ls[0]) {
        Ok(Seq::empty())
    } else if is_dot_line(ls[0]) {
        Err(CodecError::StrayLine)
    } else {
        match parse_row_line(ls[0], ni, no) {
            Err(e) => Err(e),
            Ok(r) => match parse_body_lines(ls.skip(1), ni, no) {
                Ok(rs) => Ok(seq![r] + rs),
                Err(e) => Err(e),
            },
        }
    }
}

/// Read the head: capture the most recent `.i` and `.o`, skip other
/// directives, switch to the body at `.type`, and end at `.e`. A non-directive
/// line before `.type` is malformed.
pub open spec fn parse_head_lines(ls: Seq<Seq<char>>, ni: int, no: int) -> Result<
    (int, int, Seq<(Seq<Ternary>, Seq<Ternary>)>),
    CodecError,
>
    decreases ls.len(),
{
    if ls.len() == 0 {
        Err(CodecError::MissingTerminator)
    } else {
        let l = ls[0];
        if is_end_line(l) {
            Ok((ni, no, Seq::empty()))
        } else if is_type_line(l) {
            match parse_body_lines(ls.skip(1), ni, no) {
                Ok(rows) => Ok((ni, no, rows)),
                Err(e) => Err(e),
            }
        } else if is_i_line(l) {
            match parse_count(l.skip(3)) {
                Option::Some(v) => parse_head_lines(ls.skip(1), v as int, no),
                Option::None => Err(CodecError::BadCount),
            }
        } else if is_o_line(l) {
            match parse_count(l.skip(3)) {
                Option::Some(v) => parse_head_lines(ls.skip(1), ni, v as int),
                Option::None => Err(CodecError::BadCount),
            }
        } else if is_dot_line(l) {
            parse_head_lines(ls.skip(1), ni, no)
        } else {
            Err(CodecError::StrayLine)
        }
    }
}

/// What decoding the whole text yields: header and rows, or the first error.
pub open spec fn parse_table_text(s: Seq<char>) -> Result<
    (int, int, Seq<(Seq<Ternary>, Seq<Ternary>)>),
    CodecError,
> {
    parse_head_lines(split_lines(s), 0, 0)
}

impl PlaBinary {
    /// The declared input cell count of every row.
    pub closed spec fn in_count(&self) -> int {
        self.ni as int
    }

    /// The declared output cell count of every row.
    pub closed spec fn out_count(&self) -> int {
        self.no as int
    }

    /// Every row matches the header.
    pub open spec fn wf(&self) -> bool {
        forall|i: int|
            0 <= i < self@.len() ==> (#[trigger] self@[i]).0.len() == self.in_count()
                && self@[i].1.len() == self.out_count()
    }

    /// A fresh empty table.
    pub fn new() -> (r: PlaBinary)
        ensures
            r@ == Seq::<(Seq<Ternary>, Seq<Ternary>)>::empty(),
            r.in_count() == 0,
            r.out_count() == 0,
            r.wf(),
    {
        PlaBinary { ni: 0, no: 0, rows: Vec::new() }
    }

    /// A fresh empty table with the header already fixed, for bridge paths
    /// whose row widths are declared up front.
    pub fn with_header(ni: usize, no: usize) -> (r: PlaBinary)
        ensures
            r@ == Seq::<(Seq<Ternary>, Seq<Ternary>)>::empty(),
            r.in_count() == ni,
            r.out_count() == no,
            r.wf(),
    {
        PlaBinary { ni, no, rows: Vec::new() }
    }

    /// The number of rows.
    pub fn len(&self) -> (n: usize)
        ensures
            n == self@.len(),
    {
        proof {
            assert(self.rows.deep_view().len() == self.rows@.len());
        }
        self.rows.len()
    }

    /// The declared input width.
    pub fn num_inputs(&self) -> (n: usize)
        ensures
            n == self.in_count(),
    {
        self.ni
    }

    /// The declared output width.
    pub fn num_outputs(&self) -> (n: usize)
        ensures
            n == self.out_count(),
    {
        self.no
    }

    /// The input cells of row `i`.
    pub fn row_inputs(&self, i: usize) -> (r: Vec<Ternary>)
        requires
            i < self@.len(),
        ensures
            r@ == self@[i as int].0,
    {
        proof {
            assert(self.rows.deep_view()[i as int] == self.rows@[i as int].deep_view());
        }
        let mut r: Vec<Ternary> = Vec::new();
        let src = &self.rows[i];
        let mut j: usize = 0;
        while j < src.inputs.len()
            invariant
                j <= src.inputs@.len(),
                src.inputs@ == self@[i as int].0,
                r@ == src.inputs@.take(j as int),
            decreases src.inputs@.len() - j,
        {
            r.push(src.inputs[j]);
            proof {
                assert(src.inputs@.take(j + 1 as int) =~= src.inputs@.take(j as int).push(
                    src.inputs@[j as int],
                ));
            }
            j = j + 1;
        }
        proof {
            assert(src.inputs@.take(src.inputs@.len() as int) =~= src.inputs@);
        }
        r
    }

    /// The output cells of row `i`.
    pub fn row_outputs(&self, i: usize) -> (r: Vec<Ternary>)
        requires
            i < self@.len(),
        ensures
            r@ == self@[i as int].1,
    {
        proof {
            assert(self.rows.deep_view()[i as int] == self.rows@[i as int].deep_view());
        }
        let mut r: Vec<Ternary> = Vec::new();
        let src = &self.rows[i];
        let mut j: usize = 0;
        while j < src.outputs.len()
            invariant
                j <= src.outputs@.len(),
                src.outputs@ == self@[i as int].1,
                r@ == src.outputs@.take(j as int),
            decreases src.outputs@.len() - j,
        {
            r.push(src.outputs[j]);
            proof {
                assert(src.outputs@.take(j + 1 as int) =~= src.outputs@.take(j as int).push(
                    src.outputs@[j as int],
                ));
            }
            j = j + 1;
        }
        proof {
            assert(src.outputs@.take(src.outputs@.len() as int) =~= src.outputs@);
        }
        r
    }

    /// Append one row. The first row fixes the header; every later row must
    /// carry the same widths.
    pub fn add_line(&mut self, inputs: Vec<Ternary>, outputs: Vec<Ternary>)
        requires
            old(self).wf(),
            old(self)@.len() > 0 ==> inputs@.len() == old(self).in_count() && outputs@.len() == old(
                self,
            ).out_count(),
        ensures
            final(self).wf(),
            final(self)@ == old(self)@.push((inputs@, outputs@)),
            final(self).in_count() == if old(self)@.len() == 0 {
                inputs@.len() as int
            } else {
                old(self).in_count()
            },
            final(self).out_count() == if old(self)@.len() == 0 {
                outputs@.len() as int
            } else {
                old(self).out_count()
            },
    {
        proof {
            assert(self.rows.deep_view().len() == self.rows@.len());
        }
        if self.rows.len() == 0 {
            self.ni = inputs.len();
            self.no = outputs.len();
        }
        let ghost before = self@;
        let ghost r_view = (inputs@, outputs@);
        self.rows.push(Row { inputs, outputs });
        proof {
            assert(self@ =~~= before.push(r_view));
        }
    }

    /// Serialize the table. Consumed once by the caller, who hands the text
    /// to the external minimizer.
    pub fn encode(&self) -> (r: String)
        requires
            self.wf(),
        ensures
            r@ == encode_text(self.in_count(), self.out_count(), self@),
    {
        let mut out: Vec<char> = Vec::new();
        out.push('.');
        out.push('i');
        out.push(' ');
        push_dec(&mut out, self.ni);
        out.push('\n');
        out.push('.');
        out.push('o');
        out.push(' ');
        push_dec(&mut out, self.no);
        out.push('\n');
        out.push('.');
        out.push('t');
        out.push('y');
        out.push('p');
        out.push('e');
        out.push(' ');
        out.push('f');
        out.push('\n');
        let ghost lines = encode_lines(self.in_count(), self.out_count(), self@);
        proof {
            lemma_unlines_take(lines, 3);
            assert(lines.take(3) =~= encode_header_lines(self.in_count(), self.out_count()));
            lemma_unlines_header(self.in_count(), self.out_count());
            assert(out@ =~= unlines(lines.take(3)));
        }
        let n = self.rows.len();
        proof {
            assert(self.rows.deep_view().len() == self.rows@.len());
        }
        let mut i: usize = 0;
        while i < n
            invariant
                i <= n,
                n == self@.len(),
                self.wf(),
                lines == encode_lines(self.in_count(), self.out_count(), self@),
                n == self.rows@.len(),
                self@ == self.rows.deep_view(),
                out@ == unlines(lines.take(3 + i)),
            decreases n - i,
        {
            proof {
                assert(self@[i as int] == self.rows@[i as int].deep_view());
                assert(lines[3 + i] == row_line(self@[i as int]));
            }
            push_ternary_chars(&mut out, &self.rows[i].inputs);
            out.push(' ');
            push_ternary_chars(&mut out, &self.rows[i].outputs);
            out.push('\n');
            proof {
                lemma_unlines_append(lines.take(3 + i), seq![lines[3 + i]]);
                assert(lines.take(3 + i) + seq![lines[3 + i]] =~= lines.take(3 + i + 1));
                lemma_unlines_one(lines[3 + i]);
                assert(out@ =~= unlines(lines.take(3 + i)) + (row_line(self@[i as int])
                    + seq!['\n']));
            }
            i = i + 1;
        }
        out.push('.');
        out.push('e');
        out.push('\n');
        proof {
            assert(lines.take(3 + n) =~= lines.drop_last());
            lemma_unlines_append(lines.drop_last(), seq![lines.last()]);
            assert(lines.drop_last() + seq![lines.last()] =~= lines);
            assert(lines.last() =~= seq!['.', 'e']);
            lemma_unlines_one(lines.last());
            assert(out@ =~= unlines(lines));
        }
        chars_to_string(&out)
    }

    /// Deserialize a table text, exactly as [`parse_table_text`] reads it.
    #[verifier::loop_isolation(false)]
    pub fn decode(s: &str) -> (r: Result<PlaBinary, CodecError>)
        ensures
            match r {
                Ok(t) => t.wf() && parse_table_text(s@) == Ok::<_, CodecError>(
                    (t.in_count(), t.out_count(), t@),
                ),
                Err(e) => parse_table_text(s@) == Err::<(int, int, Seq<(Seq<Ternary>, Seq<Ternary>)>),
                    _,
                >(e),
            },
    {
        let chars = string_to_chars(s);
        let lines = split_lines_vec(&chars);
        let ghost lv = split_lines(s@);
        proof {
            assert(lines.deep_view() == lv);
            assert(lines@.len() == lv.len());
            assert(lv.skip(0) =~= lv);
        }
        let mut ni: usize = 0;
        let mut no: usize = 0;
        let mut k: usize = 0;
        // Head: directives up to `.type` or the terminator.
        loop
            invariant
                k <= lv.len(),
                parse_head_lines(lv, 0, 0) == parse_head_lines(lv.skip(k as int), ni as int, no as int),
            decreases lv.len() - k,
        {
            if k == lines.len() {
                proof {
                    assert(lv.skip(k as int).len() == 0);
                }
                return Err(CodecError::MissingTerminator);
            }
            let l = &lines[k];
            proof {
                assert(lv.skip(k as int)[0] == lv[k as int]);
                assert(l@ == lv[k as int]);
                assert(lv.skip(k as int).skip(1) =~= lv.skip(k + 1 as int));
            }
            if line_is_end(l) {
                let t = PlaBinary { ni, no, rows: Vec::new() };
                proof {
                    assert(t@ =~~= Seq::<(Seq<Ternary>, Seq<Ternary>)>::empty());
                }
                return Ok(t);
            } else if line_is_type(l) {
                return Self::decode_body(&lines, k + 1, ni, no);
            } else if line_is_i(l) {
                match parse_count_vec(l, 3) {
                    Option::Some(v) => {
                        ni = v;
                    },
                    Option::None => {
                        return Err(CodecError::BadCount);
                    },
                }
            } else if line_is_o(l) {
                match parse_count_vec(l, 3) {
                    Option::Some(v) => {
                        no = v;
                    },
                    Option::None => {
                        return Err(CodecError::BadCount);
                    },
                }
            } else if line_is_dot(l) {
            } else {
                return Err(CodecError::StrayLine);
            }
            k = k + 1;
        }
    }

    /// Read the body rows from line `k0` on, as [`parse_body_lines`] does.
    #[verifier::loop_isolation(false)]
    fn decode_body(lines: &Vec<Vec<char>>, k0: usize, ni: usize, no: usize) -> (r: Result<
        PlaBinary,
        CodecError,
    >)
        requires
            k0 <= lines@.len(),
        ensures
            match r {
                Ok(t) => t.wf() && t.in_count() == ni && t.out_count() == no && parse_body_lines(
                    lines.deep_view().skip(k0 as int),
                    ni as int,
                    no as int,
                ) == Ok::<_, CodecError>(t@),
                Err(e) => parse_body_lines(lines.deep_view().skip(k0 as int), ni as int, no as int)
                    == Err::<Seq<(Seq<Ternary>, Seq<Ternary>)>, _>(e),
            },
    {
        let ghost lv = lines.deep_view();
        proof {
            assert(lv.len() == lines@.len());
        }
        let mut k: usize = k0;
        let mut rows: Vec<Row> = Vec::new();
        proof {
            assert(rows.deep_view() =~~= Seq::<(Seq<Ternary>, Seq<Ternary>)>::empty());
            if parse_body_lines(lv.skip(k0 as int), ni as int, no as int) is Ok {
                let rs = parse_body_lines(lv.skip(k0 as int), ni as int, no as int)->Ok_0;
                assert(rows.deep_view() + rs =~= rs);
            }
        }
        loop
            invariant
                k0 <= k <= lv.len(),
                rows.deep_view().len() == rows@.len(),
                forall|i: int|
                    0 <= i < rows.deep_view().len() ==> (#[trigger] rows.deep_view()[i]).0.len()
                        == ni as int && rows.deep_view()[i].1.len() == no as int,
                parse_body_lines(lv.skip(k0 as int), ni as int, no as int) == match parse_body_lines(
                    lv.skip(k as int),
                    ni as int,
                    no as int,
                ) {
                    Ok(rs) => Ok::<_, CodecError>(rows.deep_view() + rs),
                    Err(e) => Err::<Seq<(Seq<Ternary>, Seq<Ternary>)>, _>(e),
                },
            decreases lv.len() - k,
        {
            if k == lines.len() {
                proof {
                    assert(lv.skip(k as int).len() == 0);
                }
                return Err(CodecError::MissingTerminator);
            }
            let l = &lines[k];
            proof {
                assert(lv.skip(k as int)[0] == lv[k as int]);
                assert(l@ == lv[k as int]);
                assert(lv.skip(k as int).skip(1) =~= lv.skip(k + 1 as int));
            }
            if line_is_end(l) {
                proof {
                    assert(rows.deep_view() + Seq::<(Seq<Ternary>, Seq<Ternary>)>::empty()
                        =~= rows.deep_view());
                }
                let t = PlaBinary { ni, no, rows };
                return Ok(t);
            } else if line_is_dot(l) {
                return Err(CodecError::StrayLine);
            } else {
                match parse_row_vec(l, ni, no) {
                    Ok(row) => {
                        let ghost before = rows.deep_view();
                        let ghost rv = row@;
                        rows.push(row);
                        proof {
                            assert(rows.deep_view() =~~= before.push(rv));
                            if parse_body_lines(lv.skip(k + 1 as int), ni as int, no as int)
                                is Ok {
                                let rs = parse_body_lines(
                                    lv.skip(k + 1 as int),
                                    ni as int,
                                    no as int,
                                )->Ok_0;
                                assert(before + (seq![rv] + rs) =~= before.push(rv) + rs);
                            }
                        }
                    },
                    Err(e) => {
                        return Err(e);
                    },
                }
            }
            k = k + 1;
        }
    }
}

impl Default for PlaBinary {
    /// The empty table, as construction starts.
    fn default() -> (r: PlaBinary)
        ensures
            r@ == Seq::<(Seq<Ternary>, Seq<Ternary>)>::empty(),
            r.in_count() == 0,
            r.out_count() == 0,
            r.wf(),
    {
        PlaBinary::new()
    }
}

fn line_is_end(l: &Vec<char>) -> (r: bool)
    ensures
        r == is_end_line(l@),
{
    l.len() >= 2 && l[0] == '.' && l[1] == 'e'
}

fn line_is_type(l: &Vec<char>) -> (r: bool)
    ensures
        r == is_type_line(l@),
{
    l.len() >= 5 && l[0] == '.' && l[1] == 't' && l[2] == 'y' && l[3] == 'p' && l[4] == 'e'
}

fn line_is_i(l: &Vec<char>) -> (r: bool)
    ensures
        r == is_i_line(l@),
{
    l.len() >= 3 && l[0] == '.' && l[1] == 'i' && l[2] == ' '
}

fn line_is_o(l: &Vec<char>) -> (r: bool)
    ensures
        r == is_o_line(l@),
{
    l.len() >= 3 && l[0] == '.' && l[1] == 'o' && l[2] == ' '
}

fn line_is_dot(l: &Vec<char>) -> (r: bool)
    ensures
        r == is_dot_line(l@),
{
    l.len() >= 1 && l[0] == '.'
}

fn parse_row_vec(l: &Vec<char>, ni: usize, no: usize) -> (r: Result<Row, CodecError>)
    ensures
        match r {
            Ok(row) => parse_row_line(l@, ni as int, no as int) == Ok::<_, CodecError>(row@)
                && row.inputs@.len() == ni && row.outputs@.len() == no,
            Err(e) => parse_row_line(l@, ni as int, no as int) == Err::<(Seq<Ternary>, Seq<Ternary>),
                _,
            >(e),
        },
{
    let toks = split_all_vec(l, ' ');
    proof {
        assert(toks.deep_view().len() == toks@.len());
    }
    if toks.len() < 2 {
        return Err(CodecError::BadRow);
    }
    proof {
        assert(toks.deep_view()[0] == toks@[0]@);
        assert(toks.deep_view()[1] == toks@[1]@);
    }
    let ins = match parse_ternary_field(&toks[0]) {
        Option::Some(v) => v,
        Option::None => {
            return Err(CodecError::BadChar);
        },
    };
    let outs = match parse_ternary_field(&toks[1]) {
        Option::Some(v) => v,
        Option::None => {
            return Err(CodecError::BadChar);
        },
    };
    if ins.len() == ni && outs.len() == no {
        Ok(Row { inputs: ins, outputs: outs })
    } else {
        Err(CodecError::HeaderMismatch)
    }
}

// ------------------------------------------------------------------
// Joined-lines helpers.
// ------------------------------------------------------------------

/// Joining distributes over concatenation of line lists.
pub proof fn lemma_unlines_append(a: Seq<Seq<char>>, b: Seq<Seq<char>>)
    ensures
        unlines(a + b) == unlines(a) + unlines(b),
    decreases a.len(),
{
    if a.len() == 0 {
        assert(a + b =~= b);
        assert(unlines(a) + unlines(b) =~= unlines(b));
    } else {
        lemma_unlines_append(a.skip(1), b);
        assert((a + b).skip(1) =~= a.skip(1) + b);
        assert((a + b)[0] == a[0]);
        assert(a[0] + seq!['\n'] + (unlines(a.skip(1)) + unlines(b)) =~= (a[0] + seq!['\n']
            + unlines(a.skip(1))) + unlines(b));
    }
}

/// A prefix of the line list joins to a prefix of the joined text.
pub proof fn lemma_unlines_take(ls: Seq<Seq<char>>, k: int)
    requires
        0 <= k <= ls.len(),
    ensures
        unlines(ls) == unlines(ls.take(k)) + unlines(ls.skip(k)),
{
    lemma_unlines_append(ls.take(k), ls.skip(k));
    assert(ls.take(k) + ls.skip(k) =~= ls);
}

/// One line joins to itself plus a line break.
pub proof fn lemma_unlines_one(l: Seq<char>)
    ensures
        unlines(seq![l]) == l + seq!['\n'],
{
    assert(seq![l].skip(1) =~= Seq::<Seq<char>>::empty());
    assert(unlines(Seq::<Seq<char>>::empty()) == Seq::<char>::empty());
    assert(l + seq!['\n'] + Seq::<char>::empty() =~= l + seq!['\n']);
}

// ------------------------------------------------------------------
// Round trip.
// ------------------------------------------------------------------

/// Round-trip law: decoding the exact text produced by encoding a table
/// yields the same header and the same rows, for every table whose rows all
/// match its header.
pub proof fn lemma_encode_decode_round_trip(
    ni: int,
    no: int,
    rows: Seq<(Seq<Ternary>, Seq<Ternary>)>,
)
    requires
        0 <= ni <= usize::MAX,
        0 <= no <= usize::MAX,
        forall|i: int|
            0 <= i < rows.len() ==> (#[trigger] rows[i]).0.len() == ni && rows[i].1.len() == no,
    ensures
        parse_table_text(encode_text(ni, no, rows)) == Ok::<_, CodecError>((ni, no, rows)),
{
    let lines = encode_lines(ni, no, rows);
    lemma_encode_lines_plain(ni, no, rows);
    lemma_split_lines_unlines(lines);
    assert(split_lines(encode_text(ni, no, rows)) == lines);
    // The two header counts.
    let h0 = lines[0];
    let h1 = lines[1];
    let h2 = lines[2];
    lemma_dec_digits_all_digits(ni as nat);
    lemma_dec_digits_all_digits(no as nat);
    assert(!is_end_line(h0) && !is_type_line(h0) && is_i_line(h0));
    assert(h0.skip(3) =~= dec_digits(ni as nat));
    lemma_parse_dec_digits(ni as nat);
    assert(lines.skip(1)[0] == h1);
    assert(parse_head_lines(lines, 0, 0) == parse_head_lines(lines.skip(1), ni, 0));
    assert(!is_end_line(h1) && !is_type_line(h1) && !is_i_line(h1) && is_o_line(h1));
    assert(h1.skip(3) =~= dec_digits(no as nat));
    lemma_parse_dec_digits(no as nat);
    assert(lines.skip(1).skip(1) =~= lines.skip(2));
    assert(lines.skip(2)[0] == h2);
    assert(parse_head_lines(lines.skip(1), ni, 0) == parse_head_lines(lines.skip(2), ni, no));
    // The `.type` line opens the body.
    assert(!is_end_line(h2) && is_type_line(h2));
    assert(lines.skip(2).skip(1) =~= lines.skip(3));
    assert(lines.skip(3) =~= row_lines(rows) + seq![seq!['.', 'e']]);
    lemma_parse_body_of_rows(rows, ni, no);
    assert(parse_head_lines(lines.skip(2), ni, no) == Ok::<_, CodecError>((ni, no, rows)));
}

/// Every encoded line is free of line breaks.
proof fn lemma_encode_lines_plain(ni: int, no: int, rows: Seq<(Seq<Ternary>, Seq<Ternary>)>)
    requires
        0 <= ni,
        0 <= no,
    ensures
        forall|i: int|
            0 <= i < encode_lines(ni, no, rows).len() ==> free_of(
                #[trigger] encode_lines(ni, no, rows)[i],
                '\n',
            ),
{
    let lines = encode_lines(ni, no, rows);
    lemma_dec_digits_all_digits(ni as nat);
    lemma_dec_digits_all_digits(no as nat);
    assert forall|i: int| 0 <= i < lines.len() implies free_of(#[trigger] lines[i], '\n') by {
        if i < 3 {
            assert(free_of(lines[0], '\n'));
            assert(free_of(lines[1], '\n'));
            assert(free_of(lines[2], '\n'));
        } else if i < 3 + rows.len() {
            let r = rows[i - 3];
            assert(lines[i] == row_line(r));
            lemma_ternary_chars_plain(r.0);
            lemma_ternary_chars_plain(r.1);
            assert(free_of(row_line(r), '\n'));
        } else {
            assert(lines[i] =~= seq!['.', 'e']);
        }
    }
}

/// The body lines of encoded rows followed by the terminator parse back to
/// exactly those rows.
proof fn lemma_parse_body_of_rows(rows: Seq<(Seq<Ternary>, Seq<Ternary>)>, ni: int, no: int)
    requires
        forall|i: int|
            0 <= i < rows.len() ==> (#[trigger] rows[i]).0.len() == ni && rows[i].1.len() == no,
    ensures
        parse_body_lines(row_lines(rows) + seq![seq!['.', 'e']], ni, no) == Ok::<_, CodecError>(
            rows,
        ),
    decreases rows.len(),
{
    let ls = row_lines(rows) + seq![seq!['.', 'e']];
    if rows.len() == 0 {
        assert(ls[0] =~= seq!['.', 'e']);
        assert(is_end_line(ls[0]));
        assert(rows =~= Seq::<(Seq<Ternary>, Seq<Ternary>)>::empty());
    } else {
        let r = rows[0];
        let l = ls[0];
        assert(l == row_line(r));
        // The first character is a ternary character or the field space,
        // never a dot, so the line is a body row.
        lemma_ternary_chars_plain(r.0);
        lemma_ternary_chars_plain(r.1);
        assert(l.len() >= 1);
        if r.0.len() > 0 {
            assert(l[0] == ternary_chars(r.0)[0]);
            assert(is_ternary_char(l[0]));
        } else {
            assert(l[0] == ' ');
        }
        assert(!is_dot_line(l) && !is_end_line(l));
        // The row line splits into its two fields.
        lemma_split_acc_break(ternary_chars(r.0), ternary_chars(r.1), ' ', Seq::empty());
        lemma_split_acc_no_sep(ternary_chars(r.1), ' ', Seq::empty());
        let toks = split_all(l, ' ');
        assert(Seq::<char>::empty() + ternary_chars(r.0) =~= ternary_chars(r.0));
        assert(Seq::<char>::empty() + ternary_chars(r.1) =~= ternary_chars(r.1));
        assert(toks =~~= seq![ternary_chars(r.0), ternary_chars(r.1)]);
        lemma_parse_ternary_chars(r.0);
        lemma_parse_ternary_chars(r.1);
        assert(parse_row_line(l, ni, no) == Ok::<_, CodecError>((r.0, r.1)));
        assert((r.0, r.1) == r);
        // The remaining lines are the remaining rows.
        lemma_parse_body_of_rows(rows.skip(1), ni, no);
        assert(ls.skip(1) =~~= row_lines(rows.skip(1)) + seq![seq!['.', 'e']]);
        assert(seq![r] + rows.skip(1) =~= rows);
    }
}

proof fn lemma_unlines_header(ni: int, no: int)
    ensures
        unlines(encode_header_lines(ni, no)) == seq!['.', 'i', ' '] + dec_digits(ni as nat)
            + seq!['\n', '.', 'o', ' '] + dec_digits(no as nat) + seq!['\n', '.', 't', 'y', 'p',
            'e', ' ', 'f', '\n'],
{
    let h = encode_header_lines(ni, no);
    assert(h =~~= seq![h[0]] + (seq![h[1]] + seq![h[2]]));
    lemma_unlines_append(seq![h[0]], seq![h[1]] + seq![h[2]]);
    lemma_unlines_append(seq![h[1]], seq![h[2]]);
    lemma_unlines_one(h[0]);
    lemma_unlines_one(h[1]);
    lemma_unlines_one(h[2]);
    assert(unlines(h) =~= seq!['.', 'i', ' '] + dec_digits(ni as nat) + seq!['\n', '.', 'o', ' ']
        + dec_digits(no as nat) + seq!['\n', '.', 't', 'y', 'p', 'e', ' ', 'f', '\n']);
}

} // verus!
