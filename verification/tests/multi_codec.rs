use espresso_codec::errors::CodecError;
use espresso_codec::itemizer::Itemizer;
use espresso_codec::multi_compress::{compress_decode, compress_encode};
use espresso_codec::multi_reduce::{reduce_decode, reduce_encode};

fn cell(vals: &[&str]) -> Option<Vec<String>> {
    Some(vals.iter().map(|v| String::from(*v)).collect())
}

/// Builds one itemizer per column from a full scan of the matrix, as the
/// caller must before either encode pass.
fn scan(matrix: &Vec<Vec<Option<Vec<String>>>>, cols: usize) -> Vec<Itemizer> {
    let mut vars = Vec::new();
    for j in 0..cols {
        let mut it = Itemizer::new();
        for row in matrix {
            if let Some(vals) = &row[j] {
                for v in vals {
                    it.id_of(v);
                }
            }
        }
        vars.push(it);
    }
    vars
}

#[test]
fn compress_encode_exact_text() {
    let matrix = vec![
        vec![cell(&["A"]), cell(&["X"]), cell(&["U"])],
        vec![cell(&["A"]), cell(&["X"]), cell(&["V"])],
        vec![cell(&["B"]), cell(&["Y"]), cell(&["U"])],
        vec![cell(&["B"]), cell(&["Y"]), cell(&["V"])],
    ];
    let vars = scan(&matrix, 3);
    let text = compress_encode(&matrix, &vars).unwrap();
    assert_eq!(
        text,
        ".mv 4 0 2 2 2 2\n.ob ON OFF\n.p 4\n.type f\n10|10|10|10\n10|10|01|10\n01|01|10|10\n01|01|01|10\n.e\n"
    );
}

#[test]
fn compress_encode_wildcard_cell_is_all_ones() {
    let matrix = vec![
        vec![cell(&["A"]), cell(&["X"])],
        vec![cell(&["B"]), None],
    ];
    let vars = scan(&matrix, 2);
    let text = compress_encode(&matrix, &vars).unwrap();
    assert_eq!(
        text,
        ".mv 3 0 2 1 2\n.ob ON OFF\n.p 2\n.type f\n10|1|10\n01|1|10\n.e\n"
    );
}

#[test]
fn compress_encode_multi_valued_cell_sets_each_position() {
    let matrix = vec![
        vec![cell(&["A"])],
        vec![cell(&["B"])],
        vec![cell(&["C"])],
        vec![cell(&["A", "C"])],
    ];
    let vars = scan(&matrix, 1);
    let text = compress_encode(&matrix, &vars).unwrap();
    assert_eq!(
        text,
        ".mv 2 0 3 2\n.ob ON OFF\n.p 4\n.type f\n100|10\n010|10\n001|10\n101|10\n.e\n"
    );
}

#[test]
fn compress_encode_rejects_unknown_value() {
    let matrix = vec![vec![cell(&["A"])]];
    let vars = scan(&matrix, 1);
    let bad = vec![vec![cell(&["Z"])]];
    assert_eq!(compress_encode(&bad, &vars), Err(CodecError::UnknownValue));
}

#[test]
fn compress_decode_result_row() {
    // A result row over three two-valued variables: the first token is the
    // output-class field and is skipped; `10` selects the value with
    // identity 1; the all-ones `11` leaves the cell empty.
    let matrix = vec![
        vec![cell(&["A"]), cell(&["X"]), cell(&["U"])],
        vec![cell(&["B"]), cell(&["Y"]), cell(&["V"])],
    ];
    let vars = scan(&matrix, 3);
    let grid = compress_decode(".p 1\n.type f\n10 10 10 11\n.e\n", &vars).unwrap();
    assert_eq!(grid.len(), 1);
    assert_eq!(grid[0][0], cell(&["A"]));
    assert_eq!(grid[0][1], cell(&["X"]));
    assert_eq!(grid[0][2], None);
}

#[test]
fn compress_decode_second_p_resizes_and_resets() {
    let matrix = vec![vec![cell(&["A"])], vec![cell(&["B"])]];
    let vars = scan(&matrix, 1);
    let grid = compress_decode(".p 2\n10 10\n.p 1\n10 01\n.e\n", &vars).unwrap();
    assert_eq!(grid.len(), 1);
    assert_eq!(grid[0][0], cell(&["B"]));
}

#[test]
fn compress_decode_rejects_row_before_p() {
    let vars = vec![Itemizer::new()];
    assert_eq!(
        compress_decode("10 1\n.e\n", &vars),
        Err(CodecError::UnsizedGrid)
    );
}

#[test]
fn compress_decode_rejects_row_overflow() {
    let matrix = vec![vec![cell(&["A"])]];
    let vars = scan(&matrix, 1);
    assert_eq!(
        compress_decode(".p 1\n10 1\n10 1\n.e\n", &vars),
        Err(CodecError::RowOverflow)
    );
}

#[test]
fn compress_decode_rejects_identity_past_vocabulary() {
    let matrix = vec![vec![cell(&["A"]), cell(&["X"])]];
    let vars = scan(&matrix, 2);
    // `01` in a one-valued column names identity 2, never assigned.
    assert_eq!(
        compress_decode(".p 1\n10 01 10\n.e\n", &vars),
        Err(CodecError::UnassignedId)
    );
}

#[test]
fn compress_decode_rejects_missing_terminator() {
    let vars = vec![Itemizer::new()];
    assert_eq!(
        compress_decode(".p 1\n", &vars),
        Err(CodecError::MissingTerminator)
    );
}

#[test]
fn reduce_encode_exact_text() {
    let matrix = vec![
        vec![cell(&["A"]), cell(&["X"]), cell(&["U"])],
        vec![cell(&["A"]), cell(&["Y"]), cell(&["U"])],
        vec![cell(&["B"]), cell(&["Y"]), cell(&["V"])],
    ];
    let vars = scan(&matrix, 3);
    let text = reduce_encode(&matrix, &vars).unwrap();
    assert_eq!(
        text,
        ".mv 3 0 2 2 2\n.p 3\n.type f\n10|10|10|\n10|01|10|\n01|01|01|\n.e\n"
    );
}

#[test]
fn reduce_encode_rejects_value_missing_from_prior_scan() {
    let matrix = vec![vec![cell(&["A"])]];
    let vars = scan(&matrix, 1);
    let unscanned = vec![vec![cell(&["B"])]];
    assert_eq!(reduce_encode(&unscanned, &vars), Err(CodecError::UnknownValue));
}

#[test]
fn reduce_decode_distinguished_column_still_checks_identities() {
    // The distinguished column reads an all-ones token literally, so a set
    // position past its vocabulary is an unassigned identity.
    let matrix = vec![vec![cell(&["A"]), cell(&["U"])]];
    let vars = scan(&matrix, 2);
    assert_eq!(
        reduce_decode(".p 1\n10 10 11\n.e\n", &vars),
        Err(CodecError::UnassignedId)
    );
}

#[test]
fn reduce_decode_keeps_distinguished_column_literal() {
    // All-ones tokens collapse to wildcards everywhere but in the right-most
    // column, whose values are always preserved.
    let matrix = vec![
        vec![cell(&["A"]), cell(&["X"]), cell(&["U"])],
        vec![cell(&["B"]), cell(&["Y"]), cell(&["V"])],
    ];
    let vars = scan(&matrix, 3);
    let grid = reduce_decode(".p 1\n11 11 11 11\n.e\n", &vars).unwrap();
    assert_eq!(grid.len(), 1);
    assert_eq!(grid[0][0], None);
    assert_eq!(grid[0][1], None);
    assert_eq!(grid[0][2], cell(&["U", "V"]));
}

#[test]
fn reduce_decode_plain_tokens_match_compress_rules() {
    let matrix = vec![
        vec![cell(&["A"]), cell(&["U"])],
        vec![cell(&["B"]), cell(&["V"])],
    ];
    let vars = scan(&matrix, 2);
    let grid = reduce_decode(".p 2\n11 10 10\n11 01 01\n.e\n", &vars).unwrap();
    assert_eq!(grid.len(), 2);
    assert_eq!(grid[0][0], cell(&["A"]));
    assert_eq!(grid[0][1], cell(&["U"]));
    assert_eq!(grid[1][0], cell(&["B"]));
    assert_eq!(grid[1][1], cell(&["V"]));
}
