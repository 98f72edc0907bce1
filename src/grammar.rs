use vstd::prelude::*;
use crate::syntax::{
    accepts, char_token, digits_end, grammatical, is_digit, is_space, lex, lex_from, number_end,
    run_from, step, stops, toks, Expect, Op, Tok, Token,
};

verus! {

/// A line that does not match the grammar: the character offset at which
/// matching failed, and what the grammar expected there.
#[derive(Clone, Copy, Debug, PartialEq, Eq, Structural)]
pub struct SyntaxError {
    pub position: usize,
    pub expected: Expect,
}

/// The grammar stage: turns a line into its token stream.
pub struct CalculatorParser;

fn is_digit_char(c: char) -> (r: bool)
    ensures
        r == is_digit(c),
{
    '0' <= c && c <= '9'
}

fn is_space_char(c: char) -> (r: bool)
    ensures
        r == is_space(c),
{
    c == ' ' || c == '\t' || c == '\n' || c == '\r'
}

/// Index of the first non-digit at or after `from`.
fn scan_digits(line: &str, from: usize) -> (r: usize)
    requires
        from <= line@.len(),
    ensures
        from <= r <= line@.len(),
        r as int == digits_end(line@, from as int),
{
    let n = line.unicode_len();
    let mut j: usize = from;
    loop
        invariant
            from <= j <= n,
            n == line@.len(),
            digits_end(line@, from as int) == digits_end(line@, j as int),
        ensures
            from <= j <= n,
            j as int == digits_end(line@, from as int),
        decreases n - j,
    {
        if j >= n {
            break;
        }
        let d = line.get_char(j);
        if !is_digit_char(d) {
            break;
        }
        j = j + 1;
    }
    j
}

/// The token that a single non-digit character stands for.
fn char_to_token(c: char, after_operand: bool) -> (r: Option<Token>)
    ensures
        match r {
            Some(t) => char_token(c, after_operand) == Some(t@),
            None => char_token(c, after_operand) is None,
        },
{
    if c == '+' {
        Some(Token::Infix(Op::Add))
    } else if c == '-' {
        if after_operand {
            Some(Token::Infix(Op::Subtract))
        } else {
            Some(Token::UnaryMinus)
        }
    } else if c == '*' {
        Some(Token::Infix(Op::Multiply))
    } else if c == '/' {
        Some(Token::Infix(Op::Divide))
    } else if c == '%' {
        Some(Token::Infix(Op::Modulo))
    } else if c == '^' {
        Some(Token::Infix(Op::Pow))
    } else if c == '(' {
        Some(Token::Open)
    } else if c == ')' {
        Some(Token::Close)
    } else {
        None
    }
}

/// One move of the recogniser on an executable token.
fn advance(e: Expect, depth: usize, t: &Token) -> (r: Option<(Expect, usize)>)
    requires
        depth < usize::MAX,
    ensures
        match r {
            Some((e2, d2)) => step(e, depth as int, t@) == Some((e2, d2 as int)),
            None => step(e, depth as int, t@) is None,
        },
{
    match e {
        Expect::Operand => match t {
            Token::Number(_) => Some((Expect::Operator, depth)),
            Token::UnaryMinus => Some((Expect::Primary, depth)),
            Token::Open => Some((Expect::Operand, depth + 1)),
            _ => None,
        },
        Expect::Primary => match t {
            Token::Number(_) => Some((Expect::Operator, depth)),
            Token::Open => Some((Expect::Operand, depth + 1)),
            _ => None,
        },
        Expect::Operator => match t {
            Token::Infix(_) => Some((Expect::Operand, depth)),
            Token::Close => if depth > 0 {
                Some((Expect::Operator, depth - 1))
            } else {
                None
            },
            _ => None,
        },
    }
}

impl CalculatorParser {
    /// Splits `line` into tokens and checks that they form one expression.
    /// Whitespace between tokens is skipped. `Ok` comes exactly for the
    /// grammatical lines, with their tokens.
    pub fn parse(line: &str) -> (r: Result<Vec<Token>, SyntaxError>)
        ensures
            match r {
                Ok(ts) => lex(line@) == Some(toks(ts@)) && accepts(toks(ts@)),
                Err(err) => !grammatical(line@) && err.position <= line@.len(),
            },
    {
        let n = line.unicode_len();
        let mut out: Vec<Token> = Vec::new();
        let mut i: usize = 0;
        let mut after: bool = false;
        let mut e = Expect::Operand;
        let mut depth: usize = 0;
        while i < n
            invariant
                n == line@.len(),
                i <= n,
                depth <= out@.len() <= i,
                match lex_from(line@, i as int, after) {
                    Some(rest) => lex(line@) == Some(toks(out@) + rest),
                    None => lex(line@) is None,
                },
                forall|full: Seq<Tok>|
                    full.len() >= out@.len() && #[trigger] full.subrange(0, out@.len() as int)
                        == toks(out@) ==> accepts(full) == run_from(
                        full,
                        out@.len() as int,
                        e,
                        depth as int,
                    ),
            decreases n - i,
        {
            let c = line.get_char(i);
            if is_space_char(c) {
                i = i + 1;
                continue;
            }
            let start = i;
            let t: Token;
            let next_after: bool;
            if is_digit_char(c) {
                let mut j = scan_digits(line, i + 1);
                if n - j > 1 && line.get_char(j) == '.' && is_digit_char(line.get_char(j + 1)) {
                    j = scan_digits(line, j + 2);
                }
                assert(j as int == number_end(line@, i as int));
                t = Token::Number(String::from_str(line.substring_char(i, j)));
                next_after = true;
                i = j;
            } else {
                match char_to_token(c, after) {
                    Some(tok) => {
                        next_after = match tok {
                            Token::Close => true,
                            _ => false,
                        };
                        t = tok;
                        i = i + 1;
                    },
                    None => {
                        return Err(SyntaxError { position: i, expected: e });
                    },
                }
            }
            let ghost rest_after = lex_from(line@, i as int, next_after);
            assert(lex_from(line@, start as int, after) == match rest_after {
                Some(rest) => Some(seq![t@] + rest),
                None => None::<Seq<Tok>>,
            });
            match advance(e, depth, &t) {
                Some((e2, d2)) => {
                    let ghost old_out = out@;
                    out.push(t);
                    assert(toks(out@) =~= toks(old_out) + seq![t@]);
                    assert forall|full: Seq<Tok>|
                        full.len() >= out@.len() && #[trigger] full.subrange(0, out@.len() as int)
                            == toks(out@) implies accepts(full) == run_from(
                            full,
                            out@.len() as int,
                            e2,
                            d2 as int,
                        ) by {
                        assert(full.subrange(0, old_out.len() as int) =~= full.subrange(
                            0,
                            out@.len() as int,
                        ).subrange(0, old_out.len() as int));
                        assert(toks(old_out) =~= toks(out@).subrange(0, old_out.len() as int));
                        assert(full[old_out.len() as int] == full.subrange(
                            0,
                            out@.len() as int,
                        )[old_out.len() as int]);
                    }
                    proof {
                        match rest_after {
                            Some(rest) => {
                                assert(toks(old_out) + (seq![t@] + rest) =~= toks(out@) + rest);
                            },
                            None => {},
                        }
                    }
                    e = e2;
                    depth = d2;
                    after = next_after;
                },
                None => {
                    proof {
                        match lex(line@) {
                            Some(full) => {
                                let rest = rest_after->0;
                                assert(full =~= toks(out@) + (seq![t@] + rest));
                                assert(full.subrange(0, out@.len() as int) =~= toks(out@));
                                assert(full[out@.len() as int] == t@);
                            },
                            None => {},
                        }
                    }
                    return Err(SyntaxError { position: start, expected: e });
                },
            }
        }
        assert(toks(out@) + Seq::<Tok>::empty() =~= toks(out@));
        assert(toks(out@).subrange(0, out@.len() as int) =~= toks(out@));
        if e == Expect::Operator && depth == 0 {
            Ok(out)
        } else {
            Err(SyntaxError { position: n, expected: e })
        }
    }
}

} // verus!
