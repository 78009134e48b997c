use espresso_codec::errors::CodecError;
use espresso_codec::pla_binary::PlaBinary;
use espresso_codec::ternary::Ternary;
use rustsat::instances::Cnf;
use rustsat::types::{Clause, Lit};

fn cnf_of(clauses: &[&[(u32, bool)]]) -> Cnf {
    let mut cnf = Cnf::new();
    for cl in clauses {
        let mut clause = Clause::new();
        for &(idx, pos) in cl.iter() {
            let lit = if pos { Lit::positive(idx) } else { Lit::negative(idx) };
            clause.add(lit);
        }
        cnf.add_clause(clause);
    }
    cnf
}

fn lits_of(cnf: Cnf) -> Vec<Vec<(u32, bool)>> {
    cnf.into_iter()
        .map(|cl| cl.into_iter().map(|l| (l.vidx() as u32, l.is_pos())).collect())
        .collect()
}

#[test]
fn from_cnf_encodes_one_blocking_row_per_clause() {
    // Clauses of positive literals over variables 1..=5, width 6: every row
    // is don't-care except at the mentioned variables, and a positive
    // literal writes False (De Morgan inversion). The output column is the
    // single asserted cell.
    let cnf = cnf_of(&[&[(1, true), (2, true)], &[(1, true), (3, true)], &[(4, false)]]);
    let pla = PlaBinary::from_cnf(cnf, 6).unwrap();
    assert_eq!(pla.len(), 3);
    assert_eq!(pla.num_inputs(), 6);
    assert_eq!(pla.num_outputs(), 1);
    let dc = Ternary::DontCare;
    let f = Ternary::False;
    let t = Ternary::True;
    assert_eq!(pla.row_inputs(0), vec![dc, f, f, dc, dc, dc]);
    assert_eq!(pla.row_inputs(1), vec![dc, f, dc, f, dc, dc]);
    assert_eq!(pla.row_inputs(2), vec![dc, dc, dc, dc, t, dc]);
    for i in 0..3 {
        assert_eq!(pla.row_outputs(i), vec![Ternary::True]);
    }
}

#[test]
fn from_cnf_rejects_variable_beyond_width() {
    let cnf = cnf_of(&[&[(6, true)]]);
    assert!(matches!(
        PlaBinary::from_cnf(cnf, 6),
        Err(CodecError::IndexOutOfRange)
    ));
}

#[test]
fn cnf_round_trip_preserves_clauses() {
    let cnf = cnf_of(&[
        &[(1, true), (2, true)],
        &[(1, true), (3, false)],
        &[(0, false), (5, true)],
    ]);
    let pla = PlaBinary::from_cnf(cnf, 6).unwrap();
    let back = lits_of(pla.to_cnf());
    assert_eq!(
        back,
        vec![
            vec![(1, true), (2, true)],
            vec![(1, true), (3, false)],
            vec![(0, false), (5, true)],
        ]
    );
}

#[test]
fn to_cnf_reads_cells_in_index_order() {
    let mut pla = PlaBinary::new();
    pla.add_line(
        vec![Ternary::True, Ternary::DontCare, Ternary::False],
        vec![Ternary::True],
    );
    let back = lits_of(pla.to_cnf());
    // True emits the negative literal, False the positive one.
    assert_eq!(back, vec![vec![(0, false), (2, true)]]);
}

#[test]
fn from_clauses_builds_the_same_rows_as_from_cnf() {
    let lits: Vec<Vec<(u32, bool)>> = vec![vec![(0, true), (2, false)]];
    let a = PlaBinary::from_clauses(&lits, 4).unwrap();
    let b = PlaBinary::from_cnf(cnf_of(&[&[(0, true), (2, false)]]), 4).unwrap();
    assert_eq!(a.len(), b.len());
    assert_eq!(a.row_inputs(0), b.row_inputs(0));
    assert_eq!(a.row_outputs(0), b.row_outputs(0));
}
