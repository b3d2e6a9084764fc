//! Validation and parsing of the textual puzzle format: exactly 9 lines,
//! each holding 9 comma-separated integers in 0 through 9, where 0 marks a
//! blank cell.  Every violation is reported with the 1-based line number and
//! the offending token.

use vstd::arithmetic::div_mod::{lemma_fundamental_div_mod, lemma_mod_bound};
use vstd::prelude::*;

use crate::grid::{grid_wf, Grid};

verus! {

/// The parts of `s` between occurrences of `sep` (one more part than there
/// are separators).
pub open spec fn split_on(s: Seq<u8>, sep: u8) -> Seq<Seq<u8>>
    decreases s.len(),
{
    if s.len() == 0 {
        seq![Seq::<u8>::empty()]
    } else if s[0] == sep {
        seq![Seq::<u8>::empty()].add(split_on(s.skip(1), sep))
    } else {
        let r = split_on(s.skip(1), sep);
        seq![seq![s[0]].add(r[0])].add(r.skip(1))
    }
}

proof fn lemma_split_len(s: Seq<u8>, sep: u8)
    ensures
        split_on(s, sep).len() >= 1,
    decreases s.len(),
{
    if s.len() != 0 {
        lemma_split_len(s.skip(1), sep);
    }
}

/// How one more byte extends the split: a separator opens a fresh empty
/// part, any other byte goes onto the end of the last part.
proof fn lemma_split_push(s: Seq<u8>, sep: u8, x: u8)
    ensures
        x == sep ==> split_on(s.push(x), sep) == split_on(s, sep).push(Seq::<u8>::empty()),
        x != sep ==> split_on(s.push(x), sep) == split_on(s, sep).update(
            split_on(s, sep).len() - 1,
            split_on(s, sep).last().push(x),
        ),
    decreases s.len(),
{
    lemma_split_len(s, sep);
    reveal_with_fuel(split_on, 3);
    if s.len() == 0 {
        assert(s.push(x).skip(1) =~= Seq::<u8>::empty());
        assert(split_on(Seq::<u8>::empty(), sep) == seq![Seq::<u8>::empty()]);
        if x == sep {
            assert(split_on(s.push(x), sep) =~~= split_on(s, sep).push(Seq::<u8>::empty()));
        } else {
            assert(split_on(s.push(x), sep) =~~= split_on(s, sep).update(
                0,
                split_on(s, sep).last().push(x),
            ));
        }
    } else {
        lemma_split_push(s.skip(1), sep, x);
        lemma_split_len(s.skip(1), sep);
        assert(s.push(x)[0] == s[0]);
        assert(s.push(x).skip(1) =~= s.skip(1).push(x));
        if x == sep {
            if s[0] == sep {
                assert(split_on(s.push(x), sep) =~~= split_on(s, sep).push(Seq::<u8>::empty()));
            } else {
                assert(split_on(s.skip(1).push(x), sep)[0] == split_on(s.skip(1), sep)[0]);
                assert(split_on(s.push(x), sep) =~~= split_on(s, sep).push(Seq::<u8>::empty()));
            }
        } else {
            if s[0] == sep {
                assert(split_on(s.push(x), sep) =~~= split_on(s, sep).update(
                    split_on(s, sep).len() - 1,
                    split_on(s, sep).last().push(x),
                ));
            } else {
                let r = split_on(s.skip(1), sep);
                if r.len() == 1 {
                    assert(split_on(s.skip(1).push(x), sep)[0] == r[0].push(x));
                } else {
                    assert(split_on(s.skip(1).push(x), sep)[0] == r[0]);
                }
                assert(split_on(s.push(x), sep) =~~= split_on(s, sep).update(
                    split_on(s, sep).len() - 1,
                    split_on(s, sep).last().push(x),
                ));
            }
        }
    }
}

/// A single carriage return just before the line break is dropped.
pub open spec fn strip_cr(l: Seq<u8>) -> Seq<u8> {
    if l.len() > 0 && l.last() == 13 {
        l.drop_last()
    } else {
        l
    }
}

/// The lines of the text: pieces between newline bytes, with one trailing
/// newline allowed and a carriage return stripped from each line's end.
pub open spec fn spec_lines(t: Seq<u8>) -> Seq<Seq<u8>> {
    if t.len() == 0 {
        Seq::empty()
    } else {
        let p = split_on(t, 10);
        let kept = if t.last() == 10 {
            p.drop_last()
        } else {
            p
        };
        kept.map_values(|l: Seq<u8>| strip_cr(l))
    }
}

/// A token made of one or more ASCII digits.
pub open spec fn is_digits(tok: Seq<u8>) -> bool {
    tok.len() > 0 && (forall|k: int| 0 <= k < tok.len() ==> 48 <= #[trigger] tok[k] <= 57)
}

/// The numeric value of a digit token.
pub open spec fn token_value(tok: Seq<u8>) -> int
    decreases tok.len(),
{
    if tok.len() == 0 {
        0
    } else {
        token_value(tok.drop_last()) * 10 + (tok.last() - 48)
    }
}

/// A format violation, described over the mathematical view of the text.
pub enum ParseIssue {
    LineCount { found: int },
    FieldCount { line: int, found: int },
    BadToken { line: int, token: Seq<u8> },
    TokenRange { line: int, token: Seq<u8> },
}

/// The first violation among the fields of one line, scanning from `j`.
pub open spec fn check_fields(fs: Seq<Seq<u8>>, lineno: int, j: int) -> Option<ParseIssue>
    decreases fs.len() - j,
{
    if j < 0 || j >= fs.len() {
        None
    } else if !is_digits(fs[j]) {
        Some(ParseIssue::BadToken { line: lineno, token: fs[j] })
    } else if token_value(fs[j]) > 9 {
        Some(ParseIssue::TokenRange { line: lineno, token: fs[j] })
    } else {
        check_fields(fs, lineno, j + 1)
    }
}

/// The first violation of one line: wrong field count, then field issues in
/// order.
pub open spec fn check_line(l: Seq<u8>, lineno: int) -> Option<ParseIssue> {
    let fs = split_on(l, 44);
    if fs.len() != 9 {
        Some(ParseIssue::FieldCount { line: lineno, found: fs.len() as int })
    } else {
        check_fields(fs, lineno, 0)
    }
}

/// The first violation among the lines, scanning from `i` (line numbers are
/// 1-based).
pub open spec fn check_lines(ls: Seq<Seq<u8>>, i: int) -> Option<ParseIssue>
    decreases ls.len() - i,
{
    if i < 0 || i >= ls.len() {
        None
    } else {
        match check_line(ls[i], i + 1) {
            Some(e) => Some(e),
            None => check_lines(ls, i + 1),
        }
    }
}

/// The cell value at flat index `n`, read from the parsed lines.
pub open spec fn cell_of_text(ls: Seq<Seq<u8>>, n: int) -> u8 {
    token_value(split_on(ls[n / 9], 44)[n % 9]) as u8
}

/// The 81 cell values of a fully valid text.
pub open spec fn grid_of_text(ls: Seq<Seq<u8>>) -> Seq<u8> {
    Seq::new(81, |n: int| cell_of_text(ls, n))
}

/// What parsing a text yields: the grid, or the first format violation.
pub open spec fn parse_spec(t: Seq<u8>) -> Result<Seq<u8>, ParseIssue> {
    let ls = spec_lines(t);
    if ls.len() != 9 {
        Err(ParseIssue::LineCount { found: ls.len() as int })
    } else {
        match check_lines(ls, 0) {
            Some(e) => Err(e),
            None => Ok(grid_of_text(ls)),
        }
    }
}

/// A format violation as the parser reports it to callers.
#[derive(Debug)]
pub enum ParseError {
    WrongLineCount { found: usize },
    WrongFieldCount { line: usize, found: usize },
    IllegalToken { line: usize, token: Vec<u8> },
    OutOfRangeToken { line: usize, token: Vec<u8> },
}

proof fn lemma_token_zeros(tok: Seq<u8>)
    requires
        forall|k: int| 0 <= k < tok.len() ==> #[trigger] tok[k] == 48,
    ensures
        token_value(tok) == 0,
    decreases tok.len(),
{
    if tok.len() > 0 {
        lemma_token_zeros(tok.drop_last());
    }
}

/// Leading zeros do not change a token's value.
proof fn lemma_token_skip_zeros(tok: Seq<u8>, z: int)
    requires
        0 <= z <= tok.len(),
        forall|k: int| 0 <= k < z ==> #[trigger] tok[k] == 48,
    ensures
        token_value(tok) == token_value(tok.skip(z)),
    decreases tok.len(),
{
    if z == tok.len() {
        lemma_token_zeros(tok);
        assert(tok.skip(z) =~= Seq::<u8>::empty());
    } else {
        assert(tok.len() > 0);
        assert(tok.skip(z).len() > 0);
        assert(tok.skip(z).last() == tok.last());
        assert(tok.skip(z).drop_last() =~= tok.drop_last().skip(z));
        lemma_token_skip_zeros(tok.drop_last(), z);
    }
}

/// A digit token of two or more places whose first digit is nonzero has a
/// value of at least ten.
proof fn lemma_token_big(tok: Seq<u8>)
    requires
        tok.len() >= 2,
        is_digits(tok),
        tok[0] >= 49,
    ensures
        token_value(tok) >= 10,
    decreases tok.len(),
{
    if tok.len() == 2 {
        assert(tok.drop_last().len() == 1);
        assert(tok.drop_last().drop_last() =~= Seq::<u8>::empty());
        assert(token_value(Seq::<u8>::empty()) == 0);
        assert(token_value(tok.drop_last()) == tok[0] - 48);
    } else {
        assert(tok.drop_last().len() >= 2);
        assert(is_digits(tok.drop_last())) by {
            assert(forall|k: int|
                0 <= k < tok.drop_last().len() ==> #[trigger] tok.drop_last()[k] == tok[k]);
        }
        lemma_token_big(tok.drop_last());
        assert(tok.last() >= 48);
    }
}

/// A nonempty digit token has a nonnegative value.
proof fn lemma_token_nonneg(tok: Seq<u8>)
    requires
        forall|k: int| 0 <= k < tok.len() ==> 48 <= #[trigger] tok[k],
    ensures
        token_value(tok) >= 0,
    decreases tok.len(),
{
    if tok.len() > 0 {
        lemma_token_nonneg(tok.drop_last());
    }
}

enum TokenClass {
    Value(u8),
    NotDigits,
    TooBig,
}

/// Classifies one comma-separated token: its digit value when it is a digit
/// run valued 0 through 9, and otherwise which way it is malformed.
fn parse_token(tok: &Vec<u8>) -> (r: TokenClass)
    ensures
        match r {
            TokenClass::Value(v) => is_digits(tok@) && token_value(tok@) == v && v <= 9,
            TokenClass::NotDigits => !is_digits(tok@),
            TokenClass::TooBig => is_digits(tok@) && token_value(tok@) > 9,
        },
{
    if tok.len() == 0 {
        return TokenClass::NotDigits;
    }
    for k in 0..tok.len()
        invariant
            forall|i: int| 0 <= i < k ==> 48 <= #[trigger] tok@[i] <= 57,
    {
        let b = tok[k];
        if b < 48 || b > 57 {
            return TokenClass::NotDigits;
        }
    }
    let mut z: usize = 0;
    while z < tok.len() && tok[z] == 48
        invariant
            z <= tok@.len(),
            forall|i: int| 0 <= i < z ==> #[trigger] tok@[i] == 48,
            is_digits(tok@),
        decreases tok@.len() - z,
    {
        z = z + 1;
    }
    proof {
        lemma_token_skip_zeros(tok@, z as int);
    }
    if z == tok.len() {
        proof {
            assert(tok@.skip(z as int) =~= Seq::<u8>::empty());
        }
        return TokenClass::Value(0);
    }
    let rest = tok.len() - z;
    if rest == 1 {
        let d = tok[z];
        proof {
            let r = tok@.skip(z as int);
            assert(r.len() == 1);
            assert(r.last() == tok@[z as int]);
            assert(r.drop_last() =~= Seq::<u8>::empty());
            assert(token_value(Seq::<u8>::empty()) == 0);
            assert(token_value(r) == d - 48);
        }
        return TokenClass::Value(d - 48);
    }
    proof {
        let r = tok@.skip(z as int);
        assert(r.len() >= 2);
        assert(r[0] == tok@[z as int]);
        assert(r[0] != 48 && 48 <= r[0] <= 57);
        assert(is_digits(r)) by {
            assert(forall|k: int| 0 <= k < r.len() ==> #[trigger] r[k] == tok@[z + k]);
        }
        lemma_token_big(r);
    }
    TokenClass::TooBig
}

/// Splits a byte string at every occurrence of `sep`.
fn split_bytes(text: &Vec<u8>, sep: u8) -> (parts: Vec<Vec<u8>>)
    ensures
        parts@.map_values(|p: Vec<u8>| p@) == split_on(text@, sep),
{
    let mut parts: Vec<Vec<u8>> = Vec::new();
    let mut cur: Vec<u8> = Vec::new();
    let n = text.len();
    for i in 0..n
        invariant
            n == text@.len(),
            parts@.map_values(|p: Vec<u8>| p@).push(cur@) == split_on(
                text@.subrange(0, i as int),
                sep,
            ),
    {
        let ghost pre = text@.subrange(0, i as int);
        let b = text[i];
        proof {
            lemma_split_push(pre, sep, b);
            lemma_split_len(pre, sep);
            assert(text@.subrange(0, i + 1) =~= pre.push(b));
        }
        if b == sep {
            parts.push(cur);
            cur = Vec::new();
            proof {
                assert(parts@.map_values(|p: Vec<u8>| p@).push(cur@) =~~= split_on(
                    text@.subrange(0, i + 1),
                    sep,
                ));
            }
        } else {
            cur.push(b);
            proof {
                assert(parts@.map_values(|p: Vec<u8>| p@).push(cur@) =~~= split_on(
                    text@.subrange(0, i + 1),
                    sep,
                ));
            }
        }
    }
    parts.push(cur);
    proof {
        assert(text@.subrange(0, n as int) =~= text@);
        assert(parts@.map_values(|p: Vec<u8>| p@) =~~= split_on(text@, sep));
    }
    parts
}

/// Drops a single trailing carriage return, if any.
fn strip_cr_vec(v: Vec<u8>) -> (r: Vec<u8>)
    ensures
        r@ == strip_cr(v@),
{
    let mut w = v;
    if w.len() > 0 && w[w.len() - 1] == 13 {
        w.pop();
    }
    w
}

/// Splits the text into lines: newline-separated, one trailing newline
/// allowed, a carriage return stripped from each line's end.
fn split_lines(text: &Vec<u8>) -> (lines: Vec<Vec<u8>>)
    ensures
        lines@.map_values(|l: Vec<u8>| l@) == spec_lines(text@),
{
    let mut lines: Vec<Vec<u8>> = Vec::new();
    if text.len() == 0 {
        proof {
            assert(lines@.map_values(|l: Vec<u8>| l@) =~= spec_lines(text@));
        }
        return lines;
    }
    let parts = split_bytes(text, 10);
    proof {
        lemma_split_len(text@, 10);
    }
    let last_is_newline = text[text.len() - 1] == 10;
    let count = if last_is_newline {
        parts.len() - 1
    } else {
        parts.len()
    };
    proof {
        if last_is_newline {
            assert(spec_lines(text@) == split_on(text@, 10).drop_last().map_values(
                |l: Seq<u8>| strip_cr(l),
            ));
        } else {
            assert(spec_lines(text@) == split_on(text@, 10).map_values(|l: Seq<u8>| strip_cr(l)));
        }
    }
    let mut i: usize = 0;
    while i < count
        invariant
            count <= parts@.len(),
            parts@.map_values(|p: Vec<u8>| p@) == split_on(text@, 10),
            spec_lines(text@).len() == count,
            forall|k: int|
                0 <= k < count ==> #[trigger] spec_lines(text@)[k] == strip_cr(parts@[k]@),
            i <= count,
            lines@.len() == i,
            forall|k: int| 0 <= k < i ==> #[trigger] lines@[k]@ == spec_lines(text@)[k],
        decreases count - i,
    {
        let part = parts[i].clone();
        proof {
            assert(part@ =~= parts@[i as int]@);
        }
        let stripped = strip_cr_vec(part);
        lines.push(stripped);
        i = i + 1;
    }
    proof {
        assert(lines@.map_values(|l: Vec<u8>| l@) =~= spec_lines(text@));
    }
    lines
}

proof fn lemma_check_fields_from(fs: Seq<Seq<u8>>, lineno: int, a: int, j: int, e: ParseIssue)
    requires
        0 <= a <= j < fs.len(),
        forall|k: int|
            a <= k < j ==> is_digits(#[trigger] fs[k]) && token_value(fs[k]) <= 9,
        check_fields(fs, lineno, j) == Some(e),
    ensures
        check_fields(fs, lineno, a) == Some(e),
    decreases j - a,
{
    if a < j {
        lemma_check_fields_from(fs, lineno, a + 1, j, e);
    }
}

proof fn lemma_check_fields_none(fs: Seq<Seq<u8>>, lineno: int, a: int)
    requires
        0 <= a,
        forall|k: int|
            a <= k < fs.len() ==> is_digits(#[trigger] fs[k]) && token_value(fs[k]) <= 9,
    ensures
        check_fields(fs, lineno, a) == None::<ParseIssue>,
    decreases fs.len() - a,
{
    if a < fs.len() {
        lemma_check_fields_none(fs, lineno, a + 1);
    }
}

proof fn lemma_check_lines_from(ls: Seq<Seq<u8>>, a: int, i: int, e: ParseIssue)
    requires
        0 <= a <= i < ls.len(),
        forall|k: int| a <= k < i ==> check_line(#[trigger] ls[k], k + 1) == None::<ParseIssue>,
        check_line(ls[i], i + 1) == Some(e),
    ensures
        check_lines(ls, a) == Some(e),
    decreases i - a,
{
    if a < i {
        lemma_check_lines_from(ls, a + 1, i, e);
    }
}

proof fn lemma_check_lines_none(ls: Seq<Seq<u8>>, a: int)
    requires
        0 <= a,
        forall|k: int| a <= k < ls.len() ==> check_line(#[trigger] ls[k], k + 1) == None::<
            ParseIssue,
        >,
    ensures
        check_lines(ls, a) == None::<ParseIssue>,
    decreases ls.len() - a,
{
    if a < ls.len() {
        lemma_check_lines_none(ls, a + 1);
    }
}

impl View for ParseError {
    type V = ParseIssue;

    open spec fn view(&self) -> ParseIssue {
        match self {
            ParseError::WrongLineCount { found } => ParseIssue::LineCount { found: *found as int },
            ParseError::WrongFieldCount { line, found } => ParseIssue::FieldCount {
                line: *line as int,
                found: *found as int,
            },
            ParseError::IllegalToken { line, token } => ParseIssue::BadToken {
                line: *line as int,
                token: token@,
            },
            ParseError::OutOfRangeToken { line, token } => ParseIssue::TokenRange {
                line: *line as int,
                token: token@,
            },
        }
    }
}

/// Parses and validates the puzzle text, returning the grid, or the first
/// format violation with its 1-based line number and offending token.
pub fn parse_board(text: &Vec<u8>) -> (res: Result<Grid, ParseError>)
    ensures
        match res {
            Ok(g) => parse_spec(text@) == Ok::<Seq<u8>, ParseIssue>(g@) && g.wf(),
            Err(e) => parse_spec(text@) == Err::<Seq<u8>, ParseIssue>(e@),
        },
{
    let lines = split_lines(text);
    let ghost ls = spec_lines(text@);
    if lines.len() != 9 {
        return Err(ParseError::WrongLineCount { found: lines.len() });
    }
    let mut cells: Vec<u8> = Vec::new();
    for i in 0..9usize
        invariant
            lines@.map_values(|l: Vec<u8>| l@) == ls,
            ls == spec_lines(text@),
            lines@.len() == 9,
            forall|k: int|
                0 <= k < i ==> check_line(#[trigger] ls[k], k + 1) == None::<ParseIssue>,
            cells@.len() == i * 9,
            forall|n: int|
                0 <= n < cells@.len() ==> #[trigger] cells@[n] == cell_of_text(ls, n)
                    && cells@[n] <= 9,
    {
        let fields = split_bytes(&lines[i], 44);
        let ghost fs = split_on(ls[i as int], 44);
        proof {
            assert(lines@[i as int]@ == ls[i as int]);
            assert(fields@.map_values(|p: Vec<u8>| p@) == fs);
        }
        if fields.len() != 9 {
            let found = fields.len();
            proof {
                let e = ParseIssue::FieldCount { line: i as int + 1, found: found as int };
                assert(check_line(ls[i as int], i as int + 1) == Some(e));
                lemma_check_lines_from(ls, 0, i as int, e);
            }
            return Err(ParseError::WrongFieldCount { line: i + 1, found });
        }
        for j in 0..9usize
            invariant
                lines@.map_values(|l: Vec<u8>| l@) == ls,
                ls == spec_lines(text@),
                lines@.len() == 9,
                i < 9,
                fs == split_on(ls[i as int], 44),
                fields@.map_values(|p: Vec<u8>| p@) == fs,
                fields@.len() == 9,
                forall|k: int|
                    0 <= k < i ==> check_line(#[trigger] ls[k], k + 1) == None::<ParseIssue>,
                forall|k: int|
                    0 <= k < j ==> is_digits(#[trigger] fs[k]) && token_value(fs[k]) <= 9,
                cells@.len() == i * 9 + j,
                forall|n: int|
                    0 <= n < cells@.len() ==> #[trigger] cells@[n] == cell_of_text(ls, n)
                        && cells@[n] <= 9,
        {
            proof {
                assert(fields@[j as int]@ == fs[j as int]);
            }
            match parse_token(&fields[j]) {
                TokenClass::Value(v) => {
                    let ghost n = cells@.len() as int;
                    cells.push(v);
                    proof {
                        lemma_fundamental_div_mod(n, 9);
                        lemma_mod_bound(n, 9);
                        assert(n == i * 9 + j);
                        assert(n / 9 == i && n % 9 == j);
                        assert(cell_of_text(ls, n) == v);
                    }
                }
                TokenClass::NotDigits => {
                    let token = fields[j].clone();
                    proof {
                        assert(token@ =~= fs[j as int]);
                        let e = ParseIssue::BadToken { line: i as int + 1, token: fs[j as int] };
                        assert(check_fields(fs, i as int + 1, j as int) == Some(e));
                        lemma_check_fields_from(fs, i as int + 1, 0, j as int, e);
                        assert(check_line(ls[i as int], i as int + 1) == Some(e));
                        lemma_check_lines_from(ls, 0, i as int, e);
                    }
                    return Err(ParseError::IllegalToken { line: i + 1, token });
                }
                TokenClass::TooBig => {
                    let token = fields[j].clone();
                    proof {
                        assert(token@ =~= fs[j as int]);
                        let e = ParseIssue::TokenRange { line: i as int + 1, token: fs[j as int] };
                        assert(check_fields(fs, i as int + 1, j as int) == Some(e));
                        lemma_check_fields_from(fs, i as int + 1, 0, j as int, e);
                        assert(check_line(ls[i as int], i as int + 1) == Some(e));
                        lemma_check_lines_from(ls, 0, i as int, e);
                    }
                    return Err(ParseError::OutOfRangeToken { line: i + 1, token });
                }
            }
        }
        proof {
            lemma_check_fields_none(fs, i as int + 1, 0);
            assert(check_line(ls[i as int], i as int + 1) == None::<ParseIssue>);
        }
    }
    proof {
        lemma_check_lines_none(ls, 0);
        assert(cells@ =~= grid_of_text(ls));
        assert(grid_wf(cells@)) by {
            assert(forall|n: int| 0 <= n < 81 ==> #[trigger] cells@[n] <= 9);
        }
    }
    match Grid::from_cells(cells) {
        Some(g) => Ok(g),
        None => vstd::pervasive::unreached(),
    }
}

} // verus!
