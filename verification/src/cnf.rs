//! The CNF bridge: a conjunction of clauses to ternary blocking rows and
//! back.
//!
//! A table expresses the disallowed assignments of the conjunction as a
//! disjunctive cover, so each clause becomes one row with its literals
//! inverted by De Morgan's law: a positive literal writes `False`, a negative
//! one `True`, and every unmentioned variable stays don't-care. Decoding
//! inverts the same way: `True` emits a negative literal, `False` a positive
//! one.

use vstd::prelude::*;
use rustsat::instances::Cnf;
use crate::errors::CodecError;
use crate::pla_binary::PlaBinary;
use crate::ternary::Ternary;

verus! {

#[verifier::external_type_specification]
#[verifier::external_body]
pub struct ExCnf(Cnf);

/// The clauses a CNF holds: for each clause in order, its literals in order,
/// each literal as the pair of its variable index and its sign (`true` for
/// positive).
pub uninterp spec fn cnf_model(c: Cnf) -> Seq<Seq<(u32, bool)>>;

/// Relies on `Cnf`'s and `Clause`'s iteration orders (each wraps a `Vec`) and
/// on `Lit::vidx32` and `Lit::is_pos`: handing the clause list out with each
/// literal as its index-sign pair.
#[verifier::external_body]
fn cnf_to_lits(c: Cnf) -> (r: Vec<Vec<(u32, bool)>>)
    ensures
        r.deep_view() == cnf_model(c),
{
    c.into_iter().map(|cl| cl.into_iter().map(|l| (l.vidx32(), l.is_pos())).collect()).collect()
}

/// Relies on `Cnf::add_clause`, `Clause::add`, `Lit::positive` and
/// `Lit::negative`: building the CNF that holds exactly the given clauses.
/// `Lit` construction asserts its index strictly below `Var::MAX_IDX`, so an
/// index at or above that bound panics and is left out here.
#[verifier::external_body]
fn lits_to_cnf(v: &Vec<Vec<(u32, bool)>>) -> (r: Cnf)
    requires
        forall|i: int, j: int|
            0 <= i < v.deep_view().len() && 0 <= j < v.deep_view()[i].len() ==> (#[trigger] v.deep_view()[i][j]).0
                < 0x7fff_ffffu32,
    ensures
        cnf_model(r) == v.deep_view(),
{
    let mut cnf = Cnf::new();
    for cl in v {
        let mut clause = rustsat::types::Clause::new();
        for &(idx, pos) in cl {
            let lit = if pos {
                rustsat::types::Lit::positive(idx)
            } else {
                rustsat::types::Lit::negative(idx)
            };
            clause.add(lit);
        }
        cnf.add_clause(clause);
    }
    cnf
}

/// The cell a literal writes: `False` for a positive literal, `True` for a
/// negative one (De Morgan inversion).
pub open spec fn lit_cell(pos: bool) -> Ternary {
    if pos {
        Ternary::False
    } else {
        Ternary::True
    }
}

/// The row a clause encodes to: `width` cells, all don't-care, then each
/// literal in order writes its variable's cell (a later literal on the same
/// variable wins).
pub open spec fn clause_row(cl: Seq<(u32, bool)>, width: nat) -> Seq<Ternary>
    decreases cl.len(),
{
    if cl.len() == 0 {
        Seq::new(width, |i: int| Ternary::DontCare)
    } else {
        clause_row(cl.drop_last(), width).update(cl.last().0 as int, lit_cell(cl.last().1))
    }
}

/// The table rows of a whole clause list: one blocking row per clause, each
/// with the single asserted output cell.
pub open spec fn cnf_rows(cls: Seq<Seq<(u32, bool)>>, width: nat) -> Seq<
    (Seq<Ternary>, Seq<Ternary>),
> {
    cls.map_values(|cl: Seq<(u32, bool)>| (clause_row(cl, width), seq![Ternary::True]))
}

/// The literals a row decodes to, in variable-index order: `True` emits the
/// negative literal, `False` the positive one, don't-care nothing.
pub open spec fn row_clause(row: Seq<Ternary>) -> Seq<(u32, bool)>
    decreases row.len(),
{
    if row.len() == 0 {
        Seq::empty()
    } else {
        row_clause(row.drop_last()) + cell_lits(row.len() - 1, row.last())
    }
}

/// The literals one cell emits.
pub open spec fn cell_lits(i: int, t: Ternary) -> Seq<(u32, bool)> {
    match t {
        Ternary::True => seq![(i as u32, false)],
        Ternary::False => seq![(i as u32, true)],
        Ternary::DontCare => Seq::empty(),
    }
}

/// The clause list a whole table decodes to: one clause per row, from its
/// input cells.
pub open spec fn table_clauses(rows: Seq<(Seq<Ternary>, Seq<Ternary>)>) -> Seq<Seq<(u32, bool)>> {
    rows.map_values(|r: (Seq<Ternary>, Seq<Ternary>)| row_clause(r.0))
}

/// Whether every literal's variable index stays under `w`.
pub open spec fn lits_bounded(cls: Seq<Seq<(u32, bool)>>, w: nat) -> bool {
    forall|i: int, j: int|
        0 <= i < cls.len() && 0 <= j < cls[i].len() ==> (#[trigger] cls[i][j]).0 < w
}

impl PlaBinary {
    /// Build the table bridging a clause list: one row of `max_id` cells per
    /// clause. A literal whose variable index reaches `max_id` is rejected.
    pub fn from_clauses(clauses: &Vec<Vec<(u32, bool)>>, max_id: u32) -> (r: Result<
        PlaBinary,
        CodecError,
    >)
        ensures
            match r {
                Ok(t) => lits_bounded(clauses.deep_view(), max_id as nat) && t.wf()
                    && t.in_count() == max_id as int && t.out_count() == 1 && t@ == cnf_rows(
                    clauses.deep_view(),
                    max_id as nat,
                ),
                Err(e) => e == CodecError::IndexOutOfRange && !lits_bounded(
                    clauses.deep_view(),
                    max_id as nat,
                ),
            },
    {
        let ghost cls = clauses.deep_view();
        let mut t = PlaBinary::new();
        let mut i: usize = 0;
        proof {
            assert(cls.len() == clauses@.len());
            assert(t@ =~= cnf_rows(cls.take(0), max_id as nat));
        }
        while i < clauses.len()
            invariant
                i <= clauses@.len(),
                cls == clauses.deep_view(),
                cls.len() == clauses@.len(),
                forall|a: int, b: int|
                    0 <= a < i && 0 <= b < cls[a].len() ==> (#[trigger] cls[a][b]).0 < max_id,
                t@ == cnf_rows(cls.take(i as int), max_id as nat),
                t.wf(),
                t@.len() == i,
                i > 0 ==> t.in_count() == max_id as int && t.out_count() == 1,
            decreases clauses@.len() - i,
        {
            proof {
                assert(cls[i as int] == clauses@[i as int].deep_view());
            }
            let clause = &clauses[i];
            let mut row: Vec<Ternary> = Vec::new();
            let mut p: usize = 0;
            let w = max_id as usize;
            while p < w
                invariant
                    p <= w,
                    w == max_id as usize,
                    row@.len() == p,
                    forall|q: int| 0 <= q < p ==> row@[q] == Ternary::DontCare,
                decreases w - p,
            {
                row.push(Ternary::DontCare);
                p = p + 1;
            }
            proof {
                assert(row@ =~= clause_row(cls[i as int].take(0), max_id as nat));
            }
            let mut j: usize = 0;
            while j < clause.len()
                invariant
                    j <= clause@.len(),
                    cls == clauses.deep_view(),
                    cls[i as int] == clause.deep_view(),
                    i < cls.len(),
                    clause@.len() == cls[i as int].len(),
                    w == max_id as usize,
                    forall|b: int| 0 <= b < j ==> (#[trigger] cls[i as int][b]).0 < max_id,
                    row@ == clause_row(cls[i as int].take(j as int), max_id as nat),
                    row@.len() == max_id as nat,
                decreases clause@.len() - j,
            {
                let (idx, pos) = clause[j];
                proof {
                    assert(cls[i as int][j as int] == clause@[j as int]);
                }
                if idx >= max_id {
                    proof {
                        assert(cls[i as int][j as int].0 >= max_id);
                        assert(!lits_bounded(cls, max_id as nat));
                    }
                    return Err(CodecError::IndexOutOfRange);
                }
                let cell = if pos {
                    Ternary::False
                } else {
                    Ternary::True
                };
                row[idx as usize] = cell;
                proof {
                    let pre = cls[i as int].take(j as int);
                    let cur = cls[i as int].take(j + 1 as int);
                    assert(cur.drop_last() =~= pre);
                    assert(cur.last() == cls[i as int][j as int]);
                    assert(row@ == clause_row(cur, max_id as nat));
                }
                j = j + 1;
            }
            proof {
                assert(cls[i as int].take(clause@.len() as int) =~= cls[i as int]);
            }
            let mut outs: Vec<Ternary> = Vec::new();
            outs.push(Ternary::True);
            proof {
                assert(outs@ =~= seq![Ternary::True]);
            }
            let ghost t_before = t@;
            t.add_line(row, outs);
            proof {
                assert(cls.take(i + 1 as int) =~= cls.take(i as int).push(cls[i as int]));
                assert(cnf_rows(cls.take(i + 1 as int), max_id as nat) =~= cnf_rows(
                    cls.take(i as int),
                    max_id as nat,
                ).push((clause_row(cls[i as int], max_id as nat), seq![Ternary::True])));
            }
            i = i + 1;
        }
        proof {
            assert(cls.take(cls.len() as int) =~= cls);
        }
        if clauses.len() == 0 {
            // An empty clause list still fixes the declared widths.
            proof {
                assert(cnf_rows(cls, max_id as nat).len() == 0);
            }
            let t0 = PlaBinary::with_header(max_id as usize, 1);
            proof {
                assert(t0@ =~= cnf_rows(cls, max_id as nat));
            }
            return Ok(t0);
        }
        Ok(t)
    }

    /// Build the table bridging a CNF of the external SAT toolkit, one
    /// blocking row of `max_id` cells per clause.
    pub fn from_cnf(cnf: Cnf, max_id: u32) -> (r: Result<PlaBinary, CodecError>)
        ensures
            match r {
                Ok(t) => lits_bounded(cnf_model(cnf), max_id as nat) && t.wf() && t.in_count()
                    == max_id as int && t.out_count() == 1 && t@ == cnf_rows(
                    cnf_model(cnf),
                    max_id as nat,
                ),
                Err(e) => e == CodecError::IndexOutOfRange && !lits_bounded(
                    cnf_model(cnf),
                    max_id as nat,
                ),
            },
    {
        let lits = cnf_to_lits(cnf);
        Self::from_clauses(&lits, max_id)
    }

    /// Decode every row back to a clause: each input cell in index order
    /// emits its literal, don't-care cells none.
    pub fn to_clauses(&self) -> (r: Vec<Vec<(u32, bool)>>)
        requires
            self.wf(),
            self.in_count() <= 0x7fff_ffff,
        ensures
            r.deep_view() == table_clauses(self@),
            forall|i: int, j: int|
                0 <= i < r.deep_view().len() && 0 <= j < r.deep_view()[i].len() ==> (#[trigger] r.deep_view()[i][j]).0
                    < 0x7fff_ffffu32,
    {
        let n = self.len();
        let mut out: Vec<Vec<(u32, bool)>> = Vec::new();
        let mut i: usize = 0;
        proof {
            assert(out.deep_view() =~~= table_clauses(self@.take(0)));
        }
        while i < n
            invariant
                i <= n,
                n == self@.len(),
                self.wf(),
                self.in_count() <= 0x7fff_ffff,
                out.deep_view() == table_clauses(self@.take(i as int)),
                out.deep_view().len() == i,
                forall|a: int, b: int|
                    0 <= a < out.deep_view().len() && 0 <= b < out.deep_view()[a].len() ==> (
                    #[trigger] out.deep_view()[a][b]).0 < 0x7fff_ffffu32,
            decreases n - i,
        {
            let row = self.row_inputs(i);
            let mut cl: Vec<(u32, bool)> = Vec::new();
            let mut j: usize = 0;
            proof {
                assert(row@.take(0) =~= Seq::<Ternary>::empty());
                assert(cl@ =~= row_clause(row@.take(0)));
            }
            while j < row.len()
                invariant
                    j <= row@.len(),
                    row@.len() <= 0x7fff_ffff,
                    cl@ == row_clause(row@.take(j as int)),
                    forall|b: int| 0 <= b < cl@.len() ==> (#[trigger] cl@[b]).0 < j,
                decreases row@.len() - j,
            {
                let cell = row[j];
                proof {
                    let cur = row@.take(j + 1 as int);
                    assert(cur.drop_last() =~= row@.take(j as int));
                    assert(cur.last() == row@[j as int]);
                }
                match cell {
                    Ternary::True => {
                        cl.push((j as u32, false));
                        proof {
                            assert(cl@ =~= row_clause(row@.take(j as int)) + cell_lits(
                                j as int,
                                row@[j as int],
                            ));
                        }
                    },
                    Ternary::False => {
                        cl.push((j as u32, true));
                        proof {
                            assert(cl@ =~= row_clause(row@.take(j as int)) + cell_lits(
                                j as int,
                                row@[j as int],
                            ));
                        }
                    },
                    Ternary::DontCare => {
                        proof {
                            assert(cl@ =~= row_clause(row@.take(j as int)) + cell_lits(
                                j as int,
                                row@[j as int],
                            ));
                        }
                    },
                }
                j = j + 1;
            }
            proof {
                assert(row@.take(row@.len() as int) =~= row@);
                assert(row@ == self@[i as int].0);
                assert(row@.len() == self.in_count());
            }
            let ghost before = out.deep_view();
            let ghost clv = cl@;
            out.push(cl);
            proof {
                assert(out.deep_view() =~~= before.push(clv));
                assert(self@.take(i + 1 as int) =~= self@.take(i as int).push(self@[i as int]));
                assert(table_clauses(self@.take(i + 1 as int)) =~= table_clauses(
                    self@.take(i as int),
                ).push(row_clause(self@[i as int].0)));
            }
            i = i + 1;
        }
        proof {
            assert(self@.take(self@.len() as int) =~= self@);
        }
        out
    }

    /// Rebuild a CNF of the external SAT toolkit from the table's rows. The
    /// declared input width must stay within the toolkit's literal range,
    /// whose constructor asserts each index strictly below `Var::MAX_IDX`.
    pub fn to_cnf(&self) -> (r: Cnf)
        requires
            self.wf(),
            self.in_count() <= 0x7fff_ffff,
        ensures
            cnf_model(r) == table_clauses(self@),
    {
        let lits = self.to_clauses();
        lits_to_cnf(&lits)
    }
}

// ------------------------------------------------------------------
// The bridge involution.
// ------------------------------------------------------------------

/// Each literal of a clause has written its cell, and every variable the
/// clause never mentions stays don't-care — provided no variable appears
/// twice and all stay under the width.
proof fn lemma_clause_row_cells(cl: Seq<(u32, bool)>, w: nat)
    requires
        forall|j: int| 0 <= j < cl.len() ==> (#[trigger] cl[j]).0 < w,
        forall|j1: int, j2: int| 0 <= j1 < j2 < cl.len() ==> cl[j1].0 != cl[j2].0,
    ensures
        clause_row(cl, w).len() == w,
        forall|j: int|
            0 <= j < cl.len() ==> clause_row(cl, w)[(#[trigger] cl[j]).0 as int] == lit_cell(
                cl[j].1,
            ),
        forall|p: int|
            0 <= p < w && (forall|j: int| 0 <= j < cl.len() ==> (#[trigger] cl[j]).0 != p)
                ==> clause_row(cl, w)[p] == Ternary::DontCare,
    decreases cl.len(),
{
    if cl.len() > 0 {
        lemma_clause_row_cells(cl.drop_last(), w);
        let prev = clause_row(cl.drop_last(), w);
        let last = cl.last();
        assert(forall|j: int| 0 <= j < cl.len() - 1 ==> cl.drop_last()[j] == cl[j]);
        assert forall|j: int| 0 <= j < cl.len() implies clause_row(cl, w)[(#[trigger] cl[j]).0 as int]
            == lit_cell(cl[j].1) by {
            if j == cl.len() - 1 {
            } else {
                assert(cl[j].0 != last.0);
                assert(clause_row(cl, w)[cl[j].0 as int] == prev[cl[j].0 as int]);
            }
        }
    }
}

/// A row emits exactly the literals whose cell carries their inverted sign.
proof fn lemma_row_clause_membership(row: Seq<Ternary>)
    requires
        row.len() <= 0x1_0000_0000,
    ensures
        forall|p: u32, b: bool|
            row_clause(row).contains((p, b)) <==> (p < row.len() && row[p as int] == lit_cell(b)),
    decreases row.len(),
{
    if row.len() == 0 {
    } else {
        lemma_row_clause_membership(row.drop_last());
        let n = row.len() as int;
        assert forall|p: u32, b: bool|
            row_clause(row).contains((p, b)) <==> (p < row.len() && row[p as int] == lit_cell(
                b,
            )) by {
            let tail = cell_lits(n - 1, row.last());
            assert(row_clause(row) == row_clause(row.drop_last()) + tail);
            if row_clause(row).contains((p, b)) {
                let k = choose|k: int|
                    0 <= k < row_clause(row).len() && row_clause(row)[k] == (p, b);
                if k < row_clause(row.drop_last()).len() {
                    assert(row_clause(row.drop_last()).contains((p, b)));
                    assert(row.drop_last()[p as int] == row[p as int]);
                } else {
                    assert(tail[k - row_clause(row.drop_last()).len()] == (p, b));
                }
            }
            if p < row.len() && row[p as int] == lit_cell(b) {
                if p < row.len() - 1 {
                    assert(row.drop_last()[p as int] == row[p as int]);
                    assert(row_clause(row.drop_last()).contains((p, b)));
                    let k = choose|k: int|
                        0 <= k < row_clause(row.drop_last()).len() && row_clause(
                            row.drop_last(),
                        )[k] == (p, b);
                    assert(row_clause(row)[k] == (p, b));
                } else {
                    assert(row.last() == lit_cell(b));
                    assert(tail[0] == (p, b));
                    assert(row_clause(row)[row_clause(row.drop_last()).len() as int] == (p, b));
                }
            }
        }
    }
}

/// CNF bridge involution modulo literal order: decoding the rows encoded from
/// a clause list yields one clause per input clause, in order, holding
/// exactly the same literals — for every clause list whose variable indices
/// stay under the width and never repeat within one clause. A clause that
/// mentions one variable twice loses its earlier literal to the later one,
/// so such inputs are left out.
pub proof fn lemma_cnf_involution(cls: Seq<Seq<(u32, bool)>>, w: nat)
    requires
        w <= 0x1_0000_0000,
        lits_bounded(cls, w),
        forall|i: int, j1: int, j2: int|
            0 <= i < cls.len() && 0 <= j1 < j2 < cls[i].len() ==> cls[i][j1].0 != cls[i][j2].0,
    ensures
        table_clauses(cnf_rows(cls, w)).len() == cls.len(),
        forall|i: int, p: u32, b: bool|
            0 <= i < cls.len() ==> (table_clauses(cnf_rows(cls, w))[i].contains((p, b)) <==> cls[i].contains(
                (p, b),
            )),
{
    let rows = cnf_rows(cls, w);
    let back = table_clauses(rows);
    assert forall|i: int, p: u32, b: bool| 0 <= i < cls.len() implies (back[i].contains((p, b))
        <==> cls[i].contains((p, b))) by {
        let cl = cls[i];
        assert(rows[i] == (clause_row(cl, w), seq![Ternary::True]));
        assert(back[i] == row_clause(clause_row(cl, w)));
        lemma_clause_row_cells(cl, w);
        lemma_row_clause_membership(clause_row(cl, w));
        if cls[i].contains((p, b)) {
            let j = choose|j: int| 0 <= j < cl.len() && cl[j] == (p, b);
            assert(clause_row(cl, w)[cl[j].0 as int] == lit_cell(cl[j].1));
            assert(back[i].contains((p, b)));
        }
        if back[i].contains((p, b)) {
            assert(p < w && clause_row(cl, w)[p as int] == lit_cell(b));
            if forall|j: int| 0 <= j < cl.len() ==> (#[trigger] cl[j]).0 != p {
                assert(clause_row(cl, w)[p as int] == Ternary::DontCare);
                assert(false);
            }
            let j = choose|j: int| 0 <= j < cl.len() && (#[trigger] cl[j]).0 == p;
            assert(clause_row(cl, w)[p as int] == lit_cell(cl[j].1));
            assert(lit_cell(cl[j].1) == lit_cell(b));
            assert(cl[j].1 == b);
            assert(cl[j] == (p, b));
            assert(cls[i].contains((p, b)));
        }
    }
}

} // verus!
