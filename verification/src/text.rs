//! Line and token plumbing for the table text: splitting on separators,
//! joining lines, and decimal counts.

use vstd::prelude::*;
use vstd::string::StrSliceExecFns;

verus! {

// ------------------------------------------------------------------
// Splitting on a separator, and joining lines back.
// ------------------------------------------------------------------

/// Segments of `s` split at `sep`, with `cur` the segment under construction.
/// Every separator ends a segment; the remainder ends the last one, so the
/// result always holds at least one segment.
pub open spec fn split_acc(s: Seq<char>, sep: char, cur: Seq<char>) -> Seq<Seq<char>>
    decreases s.len(),
{
    if s.len() == 0 {
        seq![cur]
    } else if s[0] == sep {
        seq![cur] + split_acc(s.skip(1), sep, Seq::empty())
    } else {
        split_acc(s.skip(1), sep, cur.push(s[0]))
    }
}

/// Segments of `s` split at `sep`, like `str::split` on one character.
pub open spec fn split_all(s: Seq<char>, sep: char) -> Seq<Seq<char>> {
    split_acc(s, sep, Seq::empty())
}

/// The lines of `s`: split at line breaks, with a final empty segment
/// dropped, like `str::lines` on text without carriage returns.
pub open spec fn split_lines(s: Seq<char>) -> Seq<Seq<char>> {
    let segs = split_all(s, '\n');
    if segs.last().len() == 0 {
        segs.drop_last()
    } else {
        segs
    }
}

/// The lines joined back into one text, each terminated by a line break.
pub open spec fn unlines(ls: Seq<Seq<char>>) -> Seq<char>
    decreases ls.len(),
{
    if ls.len() == 0 {
        Seq::empty()
    } else {
        ls[0] + seq!['\n'] + unlines(ls.skip(1))
    }
}

/// Whether no character of `s` equals `sep`.
pub open spec fn free_of(s: Seq<char>, sep: char) -> bool {
    forall|i: int| 0 <= i < s.len() ==> s[i] != sep
}

pub proof fn lemma_split_acc_len(s: Seq<char>, sep: char, cur: Seq<char>)
    ensures
        split_acc(s, sep, cur).len() >= 1,
    decreases s.len(),
{
    if s.len() != 0 {
        if s[0] == sep {
            lemma_split_acc_len(s.skip(1), sep, Seq::empty());
        } else {
            lemma_split_acc_len(s.skip(1), sep, cur.push(s[0]));
        }
    }
}

/// A separator-free text is one single segment.
pub proof fn lemma_split_acc_no_sep(s: Seq<char>, sep: char, cur: Seq<char>)
    requires
        free_of(s, sep),
    ensures
        split_acc(s, sep, cur) == seq![cur + s],
    decreases s.len(),
{
    if s.len() == 0 {
        assert(cur + s =~= cur);
    } else {
        lemma_split_acc_no_sep(s.skip(1), sep, cur.push(s[0]));
        assert(cur.push(s[0]) + s.skip(1) =~= cur + s);
    }
}

/// Splitting breaks at the first separator after a separator-free prefix.
pub proof fn lemma_split_acc_break(a: Seq<char>, b: Seq<char>, sep: char, cur: Seq<char>)
    requires
        free_of(a, sep),
    ensures
        split_acc(a + seq![sep] + b, sep, cur) == seq![cur + a] + split_acc(b, sep, Seq::empty()),
    decreases a.len(),
{
    let s = a + seq![sep] + b;
    if a.len() == 0 {
        assert(s[0] == sep);
        assert(s.skip(1) =~= b);
        assert(cur + a =~= cur);
    } else {
        assert(s[0] == a[0]);
        assert(s.skip(1) =~= a.skip(1) + seq![sep] + b);
        lemma_split_acc_break(a.skip(1), b, sep, cur.push(a[0]));
        assert(cur.push(a[0]) + a.skip(1) =~= cur + a);
    }
}

/// Joining lines that hold no line break and splitting again is the identity.
pub proof fn lemma_split_lines_unlines(ls: Seq<Seq<char>>)
    requires
        forall|i: int| 0 <= i < ls.len() ==> free_of(#[trigger] ls[i], '\n'),
    ensures
        split_lines(unlines(ls)) == ls,
    decreases ls.len(),
{
    if ls.len() == 0 {
        assert(split_all(Seq::<char>::empty(), '\n') =~~= seq![Seq::<char>::empty()]);
    } else {
        let rest = unlines(ls.skip(1));
        lemma_split_acc_break(ls[0], rest, '\n', Seq::empty());
        assert(Seq::<char>::empty() + ls[0] =~= ls[0]);
        lemma_split_lines_unlines(ls.skip(1));
        lemma_split_acc_len(rest, '\n', Seq::empty());
        let segs = split_all(unlines(ls), '\n');
        let segs_rest = split_all(rest, '\n');
        assert(segs =~~= seq![ls[0]] + segs_rest);
        assert(segs.last() == segs_rest.last());
        if segs_rest.last().len() == 0 {
            assert(split_lines(unlines(ls)) =~~= seq![ls[0]] + segs_rest.drop_last());
            assert(seq![ls[0]] + split_lines(rest) =~~= ls);
        } else {
            assert(seq![ls[0]] + split_lines(rest) =~~= ls);
        }
    }
}

/// Split `s` at every occurrence of `sep`, keeping empty segments.
pub fn split_all_vec(s: &Vec<char>, sep: char) -> (r: Vec<Vec<char>>)
    ensures
        r.deep_view() == split_all(s@, sep),
{
    let mut res: Vec<Vec<char>> = Vec::new();
    let mut cur: Vec<char> = Vec::new();
    let mut i: usize = 0;
    proof {
        assert(s@.skip(0) =~= s@);
        assert(res.deep_view() + split_acc(s@, sep, cur@) =~~= split_all(s@, sep));
    }
    while i < s.len()
        invariant
            i <= s@.len(),
            split_all(s@, sep) == res.deep_view() + split_acc(s@.skip(i as int), sep, cur@),
        decreases s@.len() - i,
    {
        let c = s[i];
        proof {
            assert(s@.skip(i as int)[0] == s@[i as int]);
            assert(s@.skip(i as int).skip(1) =~= s@.skip(i + 1 as int));
        }
        if c == sep {
            let ghost old_res = res.deep_view();
            let ghost old_cur = cur@;
            res.push(cur);
            cur = Vec::new();
            proof {
                assert(res.deep_view() =~~= old_res.push(old_cur));
                assert(old_res.push(old_cur) + split_acc(s@.skip(i + 1 as int), sep, Seq::empty())
                    =~~= old_res + (seq![old_cur] + split_acc(
                    s@.skip(i + 1 as int),
                    sep,
                    Seq::empty(),
                )));
            }
        } else {
            cur.push(c);
        }
        i = i + 1;
    }
    let ghost old_res = res.deep_view();
    let ghost old_cur = cur@;
    res.push(cur);
    proof {
        assert(s@.skip(s@.len() as int) =~= Seq::<char>::empty());
        assert(res.deep_view() =~~= old_res.push(old_cur));
        assert(old_res.push(old_cur) =~~= old_res + seq![old_cur]);
    }
    res
}

/// Split `s` into its lines, like `str::lines` on line-break-only text.
pub fn split_lines_vec(s: &Vec<char>) -> (r: Vec<Vec<char>>)
    ensures
        r.deep_view() == split_lines(s@),
{
    let mut segs = split_all_vec(s, '\n');
    proof {
        lemma_split_acc_len(s@, '\n', Seq::empty());
        assert(segs.deep_view().len() == segs@.len());
    }
    let last_i = segs.len() - 1;
    proof {
        assert(segs.deep_view()[last_i as int] == segs@[last_i as int]@);
    }
    if segs[last_i].len() == 0 {
        let ghost before = segs.deep_view();
        segs.pop();
        proof {
            assert(segs.deep_view() =~~= before.drop_last());
        }
    }
    segs
}

// ------------------------------------------------------------------
// Decimal counts.
// ------------------------------------------------------------------

/// Whether `c` is a decimal digit.
pub open spec fn is_digit_char(c: char) -> bool {
    c == '0' || c == '1' || c == '2' || c == '3' || c == '4' || c == '5' || c == '6' || c == '7'
        || c == '8' || c == '9'
}

/// The value of a decimal digit character.
pub open spec fn digit_val(c: char) -> nat {
    if c == '0' {
        0
    } else if c == '1' {
        1
    } else if c == '2' {
        2
    } else if c == '3' {
        3
    } else if c == '4' {
        4
    } else if c == '5' {
        5
    } else if c == '6' {
        6
    } else if c == '7' {
        7
    } else if c == '8' {
        8
    } else {
        9
    }
}

/// The character of a decimal digit.
pub open spec fn digit_char(d: nat) -> char
    recommends
        d < 10,
{
    if d == 0 {
        '0'
    } else if d == 1 {
        '1'
    } else if d == 2 {
        '2'
    } else if d == 3 {
        '3'
    } else if d == 4 {
        '4'
    } else if d == 5 {
        '5'
    } else if d == 6 {
        '6'
    } else if d == 7 {
        '7'
    } else if d == 8 {
        '8'
    } else {
        '9'
    }
}

/// The value of a digit run, most significant first.
pub open spec fn dec_val(s: Seq<char>) -> nat
    decreases s.len(),
{
    if s.len() == 0 {
        0
    } else {
        dec_val(s.drop_last()) * 10 + digit_val(s.last())
    }
}

/// Whether every character of `s` is a decimal digit.
pub open spec fn all_digits(s: Seq<char>) -> bool {
    forall|i: int| 0 <= i < s.len() ==> is_digit_char(s[i])
}

/// A count as the directives carry it: a non-empty digit run whose value the
/// machine can hold.
pub open spec fn parse_count(s: Seq<char>) -> Option<nat> {
    if s.len() > 0 && all_digits(s) && dec_val(s) <= usize::MAX {
        Some(dec_val(s))
    } else {
        None
    }
}

/// The decimal digits of `n`, most significant first, no leading zeros.
pub open spec fn dec_digits(n: nat) -> Seq<char>
    decreases n,
{
    if n < 10 {
        seq![digit_char(n)]
    } else {
        dec_digits(n / 10).push(digit_char(n % 10))
    }
}

pub proof fn lemma_dec_digits_all_digits(n: nat)
    ensures
        dec_digits(n).len() >= 1,
        all_digits(dec_digits(n)),
    decreases n,
{
    if n >= 10 {
        lemma_dec_digits_all_digits(n / 10);
    }
}

/// A value's digits parse back to the value.
pub proof fn lemma_parse_dec_digits(n: nat)
    requires
        n <= usize::MAX,
    ensures
        parse_count(dec_digits(n)) == Some(n),
{
    lemma_dec_digits_all_digits(n);
    lemma_dec_val_digits(n);
}

proof fn lemma_dec_val_digits(n: nat)
    ensures
        dec_val(dec_digits(n)) == n,
    decreases n,
{
    if n < 10 {
        assert(dec_digits(n).drop_last() =~= Seq::<char>::empty());
        assert(dec_val(dec_digits(n)) == dec_val(Seq::<char>::empty()) * 10 + digit_val(
            digit_char(n),
        ));
        assert(digit_val(digit_char(n)) == n);
    } else {
        lemma_dec_val_digits(n / 10);
        assert(dec_digits(n).drop_last() =~= dec_digits(n / 10));
        assert(dec_digits(n).last() == digit_char(n % 10));
        assert(digit_val(digit_char(n % 10)) == n % 10);
        assert(n == 10 * (n / 10) + n % 10) by {
            vstd::arithmetic::div_mod::lemma_fundamental_div_mod(n as int, 10);
        }
    }
}

/// A longer digit run never has a smaller value than its prefix.
pub proof fn lemma_dec_val_prefix(s: Seq<char>, j: int)
    requires
        0 <= j <= s.len(),
    ensures
        dec_val(s) >= dec_val(s.take(j)),
    decreases s.len() - j,
{
    if j < s.len() {
        lemma_dec_val_prefix(s, j + 1);
        let t = s.take(j + 1);
        assert(t.drop_last() =~= s.take(j));
        assert(dec_val(t) == dec_val(s.take(j)) * 10 + digit_val(t.last()));
        assert(dec_val(s.take(j)) * 10 >= dec_val(s.take(j))) by (nonlinear_arith);
    } else {
        assert(s.take(j) =~= s);
    }
}

fn digit_to_char(d: usize) -> (c: char)
    requires
        d < 10,
    ensures
        c == digit_char(d as nat),
{
    match d {
        0 => '0',
        1 => '1',
        2 => '2',
        3 => '3',
        4 => '4',
        5 => '5',
        6 => '6',
        7 => '7',
        8 => '8',
        _ => '9',
    }
}

/// Append the decimal digits of `n` to `out`.
pub fn push_dec(out: &mut Vec<char>, n: usize)
    ensures
        final(out)@ == old(out)@ + dec_digits(n as nat),
    decreases n,
{
    if n < 10 {
        out.push(digit_to_char(n));
        proof {
            assert(old(out)@.push(digit_char(n as nat)) =~= old(out)@ + dec_digits(n as nat));
        }
    } else {
        push_dec(out, n / 10);
        out.push(digit_to_char(n % 10));
        proof {
            assert((old(out)@ + dec_digits(n as nat / 10)).push(digit_char(n as nat % 10)) =~= old(
                out,
            )@ + dec_digits(n as nat));
        }
    }
}

/// Parse the characters of `s` from position `from` on as a count, exactly as
/// [`parse_count`] reads them.
pub fn parse_count_vec(s: &Vec<char>, from: usize) -> (r: Option<usize>)
    requires
        from <= s@.len(),
    ensures
        match r {
            Some(v) => parse_count(s@.skip(from as int)) == Some(v as nat),
            None => parse_count(s@.skip(from as int)) is None,
        },
{
    let ghost tok = s@.skip(from as int);
    let mut acc: usize = 0;
    let mut i: usize = from;
    if i == s.len() {
        return None;
    }
    while i < s.len()
        invariant
            from <= i <= s@.len(),
            tok == s@.skip(from as int),
            all_digits(tok.take(i - from)),
            acc as nat == dec_val(tok.take(i - from)),
        decreases s@.len() - i,
    {
        let c = s[i];
        proof {
            assert(tok[i - from] == s@[i as int]);
        }
        let d: usize = match c {
            '0' => 0,
            '1' => 1,
            '2' => 2,
            '3' => 3,
            '4' => 4,
            '5' => 5,
            '6' => 6,
            '7' => 7,
            '8' => 8,
            '9' => 9,
            _ => {
                proof {
                    assert(!is_digit_char(tok[i - from]));
                }
                return None;
            },
        };
        proof {
            assert(is_digit_char(tok[i - from]) && digit_val(tok[i - from]) == d as nat);
            assert(tok.take(i - from + 1).drop_last() =~= tok.take(i - from));
            assert(tok.take(i - from + 1).last() == tok[i - from]);
        }
        if acc > (usize::MAX - d) / 10 {
            proof {
                assert(acc as nat * 10 + d as nat > usize::MAX) by (nonlinear_arith)
                    requires
                        acc > (usize::MAX - d) / 10,
                        d < 10,
                ;
                lemma_dec_val_prefix(tok, i - from + 1);
                assert(dec_val(tok) > usize::MAX);
            }
            return None;
        }
        proof {
            assert(acc as nat * 10 + d as nat <= usize::MAX) by (nonlinear_arith)
                requires
                    acc <= (usize::MAX - d) / 10,
                    d < 10,
            ;
        }
        acc = acc * 10 + d;
        i = i + 1;
    }
    proof {
        assert(tok.take(s@.len() - from) =~= tok);
    }
    Some(acc)
}

// ------------------------------------------------------------------
// Between characters and strings.
// ------------------------------------------------------------------

/// Relies on `String: FromIterator<char>` (`collect`): building the string
/// that holds exactly the characters of `v`, in order.
#[verifier::external_body]
pub fn chars_to_string(v: &Vec<char>) -> (r: String)
    ensures
        r@ == v@,
{
    v.iter().collect()
}

/// The characters of `s`, in order.
pub fn string_to_chars(s: &str) -> (r: Vec<char>)
    ensures
        r@ == s@,
{
    let n = s.unicode_len();
    let mut r: Vec<char> = Vec::new();
    let mut i: usize = 0;
    while i < n
        invariant
            i <= n,
            n == s@.len(),
            r@ == s@.take(i as int),
        decreases n - i,
    {
        r.push(s.get_char(i));
        proof {
            assert(s@.take(i + 1 as int) =~= s@.take(i as int).push(s@[i as int]));
        }
        i = i + 1;
    }
    proof {
        assert(s@.take(n as int) =~= s@);
    }
    r
}

} // verus!
