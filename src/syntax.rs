use vstd::prelude::*;

verus! {

/// A binary operator of the calculator.
#[derive(Clone, Copy, Debug, PartialEq, Eq, Structural)]
pub enum Op {
    Add,
    Subtract,
    Multiply,
    Divide,
    Modulo,
    Pow,
}

/// Binding tier of a binary operator: 1 for `+ -`, 2 for `* / % ^`.
pub open spec fn op_tier(op: Op) -> int {
    match op {
        Op::Add | Op::Subtract => 1,
        _ => 2,
    }
}

/// The glyph with which an operator is displayed.
pub open spec fn glyph(op: Op) -> Seq<char> {
    match op {
        Op::Add => seq!['+'],
        Op::Subtract => seq!['-'],
        Op::Multiply => seq!['×'],
        Op::Divide => seq!['÷'],
        Op::Modulo => seq!['%'],
        Op::Pow => seq!['^'],
    }
}

impl Op {
    /// Tier of this operator (see `op_tier`).
    pub fn tier(&self) -> (r: u8)
        ensures
            r as int == op_tier(*self),
    {
        match self {
            Op::Add | Op::Subtract => 1,
            _ => 2,
        }
    }

    /// The display glyph of this operator.
    pub fn symbol(&self) -> (r: &'static str)
        ensures
            r@ == glyph(*self),
    {
        match self {
            Op::Add => {
                proof { reveal_strlit("+"); }
                "+"
            },
            Op::Subtract => {
                proof { reveal_strlit("-"); }
                "-"
            },
            Op::Multiply => {
                proof { reveal_strlit("×"); }
                "×"
            },
            Op::Divide => {
                proof { reveal_strlit("÷"); }
                "÷"
            },
            Op::Modulo => {
                proof { reveal_strlit("%"); }
                "%"
            },
            Op::Pow => {
                proof { reveal_strlit("^"); }
                "^"
            },
        }
    }
}

} // verus!

verus! {

/// A token of the grammar as a mathematical value.
pub enum Tok {
    Num(Seq<char>),
    Infix(Op),
    Neg,
    Open,
    Close,
}

/// A token of an input line: a number literal, a binary operator, a unary
/// minus, or a parenthesis.
#[derive(Debug, PartialEq)]
pub enum Token {
    Number(String),
    Infix(Op),
    UnaryMinus,
    Open,
    Close,
}

impl View for Token {
    type V = Tok;

    open spec fn view(&self) -> Tok {
        match self {
            Token::Number(s) => Tok::Num(s@),
            Token::Infix(op) => Tok::Infix(*op),
            Token::UnaryMinus => Tok::Neg,
            Token::Open => Tok::Open,
            Token::Close => Tok::Close,
        }
    }
}

/// The abstract contents of a token vector.
pub open spec fn toks(ts: Seq<Token>) -> Seq<Tok> {
    ts.map_values(|t: Token| t@)
}

/// What the grammar accepts next.
#[derive(Clone, Copy, Debug, PartialEq, Eq, Structural)]
pub enum Expect {
    /// A term: a number, `(`, or a unary minus.
    Operand,
    /// A primary right after a unary minus: a number or `(`.
    Primary,
    /// A binary operator, `)` or the end of the line.
    Operator,
}

/// One move of the grammar's recogniser, with `depth` open parentheses.
pub open spec fn step(e: Expect, depth: int, t: Tok) -> Option<(Expect, int)> {
    match e {
        Expect::Operand => match t {
            Tok::Num(_) => Some((Expect::Operator, depth)),
            Tok::Neg => Some((Expect::Primary, depth)),
            Tok::Open => Some((Expect::Operand, depth + 1)),
            _ => None,
        },
        Expect::Primary => match t {
            Tok::Num(_) => Some((Expect::Operator, depth)),
            Tok::Open => Some((Expect::Operand, depth + 1)),
            _ => None,
        },
        Expect::Operator => match t {
            Tok::Infix(_) => Some((Expect::Operand, depth)),
            Tok::Close => if depth > 0 {
                Some((Expect::Operator, depth - 1))
            } else {
                None
            },
            _ => None,
        },
    }
}

/// Whether the recogniser may stop in this state.
pub open spec fn stops(e: Expect, depth: int) -> bool {
    e == Expect::Operator && depth == 0
}

/// Whether the tokens from index `i` on are accepted from state `(e, depth)`.
pub open spec fn run_from(ts: Seq<Tok>, i: int, e: Expect, depth: int) -> bool
    decreases ts.len() - i,
{
    if i >= ts.len() {
        stops(e, depth)
    } else {
        match step(e, depth, ts[i]) {
            Some((e2, d2)) => run_from(ts, i + 1, e2, d2),
            None => false,
        }
    }
}

/// A token sequence forms one expression:
/// `term (infix term)*`, `term := "-"? primary`, `primary := number | "(" expression ")"`.
pub open spec fn accepts(ts: Seq<Tok>) -> bool {
    run_from(ts, 0, Expect::Operand, 0)
}

pub open spec fn is_digit(c: char) -> bool {
    '0' <= c && c <= '9'
}

pub open spec fn is_space(c: char) -> bool {
    c == ' ' || c == '\t' || c == '\n' || c == '\r'
}

/// End of the run of digits that starts at `i`.
pub open spec fn digits_end(s: Seq<char>, i: int) -> int
    decreases s.len() - i,
{
    if 0 <= i < s.len() && is_digit(s[i]) {
        digits_end(s, i + 1)
    } else {
        i
    }
}

/// End of the number literal `digits ("." digits)?` that starts at `i`.
pub open spec fn number_end(s: Seq<char>, i: int) -> int {
    let k = digits_end(s, i);
    if k + 1 < s.len() && s[k] == '.' && is_digit(s[k + 1]) {
        digits_end(s, k + 1)
    } else {
        k
    }
}

/// The token that a single character stands for; a `-` is a subtraction
/// right after an operand and a unary minus elsewhere.
pub open spec fn char_token(c: char, after_operand: bool) -> Option<Tok> {
    if c == '+' {
        Some(Tok::Infix(Op::Add))
    } else if c == '-' {
        if after_operand {
            Some(Tok::Infix(Op::Subtract))
        } else {
            Some(Tok::Neg)
        }
    } else if c == '*' {
        Some(Tok::Infix(Op::Multiply))
    } else if c == '/' {
        Some(Tok::Infix(Op::Divide))
    } else if c == '%' {
        Some(Tok::Infix(Op::Modulo))
    } else if c == '^' {
        Some(Tok::Infix(Op::Pow))
    } else if c == '(' {
        Some(Tok::Open)
    } else if c == ')' {
        Some(Tok::Close)
    } else {
        None
    }
}

/// The tokens of `s` from index `i` on, or `None` where a character fits no token.
pub open spec fn lex_from(s: Seq<char>, i: int, after_operand: bool) -> Option<Seq<Tok>>
    decreases s.len() - i, 0int,
{
    if i < 0 || i >= s.len() {
        Some(Seq::empty())
    } else if is_space(s[i]) {
        lex_from(s, i + 1, after_operand)
    } else if is_digit(s[i]) {
        let j = number_end(s, i);
        if i < j <= s.len() {
            match lex_from(s, j, true) {
                Some(rest) => Some(seq![Tok::Num(s.subrange(i, j))] + rest),
                None => None,
            }
        } else {
            None
        }
    } else {
        match char_token(s[i], after_operand) {
            Some(t) => match lex_from(s, i + 1, t == Tok::Close) {
                Some(rest) => Some(seq![t] + rest),
                None => None,
            },
            None => None,
        }
    }
}

/// The tokens of a whole line.
pub open spec fn lex(s: Seq<char>) -> Option<Seq<Tok>> {
    lex_from(s, 0, false)
}

/// A line is grammatical when it splits into tokens that form one expression.
pub open spec fn grammatical(s: Seq<char>) -> bool {
    match lex(s) {
        Some(ts) => accepts(ts),
        None => false,
    }
}

} // verus!
