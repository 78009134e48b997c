//! The ternary cell value of a logic-table row and its one-character text form.

use vstd::prelude::*;

verus! {

/// One cell of a logic-table row: asserted true, asserted false, or don't-care.
#[derive(PartialEq, Eq, Structural, Clone, Copy, Debug)]
pub enum Ternary {
    True,
    False,
    DontCare,
}

/// The character that stands for a ternary value in the table text.
pub open spec fn ternary_char(t: Ternary) -> char {
    match t {
        Ternary::True => '1',
        Ternary::False => '0',
        Ternary::DontCare => '-',
    }
}

/// Whether a character is one of the three valid ternary field characters.
pub open spec fn is_ternary_char(c: char) -> bool {
    c == '1' || c == '0' || c == '-'
}

/// The ternary value that a valid field character stands for.
pub open spec fn ternary_of_char(c: char) -> Ternary
    recommends
        is_ternary_char(c),
{
    if c == '1' {
        Ternary::True
    } else if c == '0' {
        Ternary::False
    } else {
        Ternary::DontCare
    }
}

/// The characters of a run of ternary values, concatenated.
pub open spec fn ternary_chars(ts: Seq<Ternary>) -> Seq<char> {
    ts.map_values(|t: Ternary| ternary_char(t))
}

/// Parse of a whole ternary field; `None` where any character is invalid.
pub open spec fn parse_ternaries(s: Seq<char>) -> Option<Seq<Ternary>>
    decreases s.len(),
{
    if s.len() == 0 {
        Some(Seq::empty())
    } else if !is_ternary_char(s[0]) {
        None
    } else {
        match parse_ternaries(s.skip(1)) {
            Some(ts) => Some(seq![ternary_of_char(s[0])] + ts),
            None => None,
        }
    }
}

/// Every character of an encoded ternary run is valid and parses back to the
/// value it came from.
pub proof fn lemma_parse_ternary_chars(ts: Seq<Ternary>)
    ensures
        parse_ternaries(ternary_chars(ts)) == Some(ts),
    decreases ts.len(),
{
    let s = ternary_chars(ts);
    if ts.len() == 0 {
        assert(s.len() == 0);
        assert(Some(Seq::<Ternary>::empty()) == Some(ts));
    } else {
        lemma_parse_ternary_chars(ts.skip(1));
        assert(s.skip(1) =~= ternary_chars(ts.skip(1)));
        assert(is_ternary_char(s[0]));
        assert(ternary_of_char(s[0]) == ts[0]);
        assert(seq![ts[0]] + ts.skip(1) =~= ts);
    }
}

/// No character of an encoded ternary run is a space or a line break.
pub proof fn lemma_ternary_chars_plain(ts: Seq<Ternary>)
    ensures
        forall|i: int|
            0 <= i < ternary_chars(ts).len() ==> ternary_chars(ts)[i] != ' '
                && ternary_chars(ts)[i] != '\n',
{
}

pub fn ternary_to_char(t: Ternary) -> (c: char)
    ensures
        c == ternary_char(t),
{
    match t {
        Ternary::True => '1',
        Ternary::False => '0',
        Ternary::DontCare => '-',
    }
}

pub fn char_to_ternary(c: char) -> (r: Option<Ternary>)
    ensures
        r is Some <==> is_ternary_char(c),
        r is Some ==> r->0 == ternary_of_char(c),
{
    match c {
        '1' => Some(Ternary::True),
        '0' => Some(Ternary::False),
        '-' => Some(Ternary::DontCare),
        _ => None,
    }
}

/// Append the text form of `ts` to `out`.
pub fn push_ternary_chars(out: &mut Vec<char>, ts: &Vec<Ternary>)
    ensures
        final(out)@ == old(out)@ + ternary_chars(ts@),
{
    let ghost base = out@;
    let mut i: usize = 0;
    while i < ts.len()
        invariant
            i <= ts@.len(),
            out@ == base + ternary_chars(ts@).take(i as int),
        decreases ts@.len() - i,
    {
        out.push(ternary_to_char(ts[i]));
        proof {
            assert(ternary_chars(ts@).take(i + 1 as int) =~= ternary_chars(ts@).take(i as int)
                + seq![ternary_char(ts@[i as int])]);
        }
        i = i + 1;
    }
    proof {
        assert(ternary_chars(ts@).take(ts@.len() as int) =~= ternary_chars(ts@));
    }
}

/// Parse a whole field of ternary characters, exactly as [`parse_ternaries`] does.
pub fn parse_ternary_field(s: &Vec<char>) -> (r: Option<Vec<Ternary>>)
    ensures
        match r {
            Some(ts) => parse_ternaries(s@) == Some(ts@),
            None => parse_ternaries(s@) is None,
        },
{
    let mut ts: Vec<Ternary> = Vec::new();
    let mut i: usize = 0;
    proof {
        assert(s@.skip(0) =~= s@);
    }
    while i < s.len()
        invariant
            i <= s@.len(),
            parse_ternaries(s@) matches Some(all) ==> parse_ternaries(s@.skip(i as int))
                matches Some(rest) && all == ts@ + rest,
            parse_ternaries(s@) is None ==> parse_ternaries(s@.skip(i as int)) is None,
            forall|j: int| 0 <= j < i ==> is_ternary_char(s@[j]),
            ts@.len() == i,
        decreases s@.len() - i,
    {
        let c = s[i];
        proof {
            assert(s@.skip(i as int)[0] == s@[i as int]);
            assert(s@.skip(i as int).skip(1) =~= s@.skip(i + 1 as int));
        }
        match char_to_ternary(c) {
            Some(t) => {
                ts.push(t);
            },
            None => {
                proof {
                    lemma_parse_prefix_none(s@, i as int);
                }
                return None;
            },
        }
        i = i + 1;
    }
    proof {
        assert(s@.skip(s@.len() as int) =~= Seq::<char>::empty());
        assert(ts@ + Seq::<Ternary>::empty() =~= ts@);
    }
    Some(ts)
}

/// If some character of `s` is invalid, the whole field fails to parse.
proof fn lemma_parse_prefix_none(s: Seq<char>, i: int)
    requires
        0 <= i < s.len(),
        !is_ternary_char(s[i]),
    ensures
        parse_ternaries(s) is None,
    decreases i,
{
    if i > 0 {
        lemma_parse_prefix_none(s.skip(1), i - 1);
    }
}

} // verus!
