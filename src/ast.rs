use vstd::prelude::*;
use crate::syntax::{glyph, op_tier, Op, Tok};

verus! {

/// An expression tree. A number keeps its literal text; `Grouped` records a
/// pair of parentheses written in the input.
#[derive(Debug, PartialEq)]
pub enum Expr {
    Number(String),
    UnaryMinus(Box<Expr>),
    Grouped(Box<Expr>),
    BinOp { lhs: Box<Expr>, op: Op, rhs: Box<Expr> },
}

/// The token sequence that an expression was written as.
pub open spec fn tokens_of(e: Expr) -> Seq<Tok>
    decreases e,
{
    match e {
        Expr::Number(s) => seq![Tok::Num(s@)],
        Expr::UnaryMinus(x) => seq![Tok::Neg] + tokens_of(*x),
        Expr::Grouped(x) => seq![Tok::Open] + tokens_of(*x) + seq![Tok::Close],
        Expr::BinOp { lhs, op, rhs } => tokens_of(*lhs) + seq![Tok::Infix(op)] + tokens_of(*rhs),
    }
}

/// Binding tier of the node at the root: that of its operator for a binary
/// operation, 3 for anything else.
pub open spec fn tier(e: Expr) -> int {
    match e {
        Expr::BinOp { op, .. } => op_tier(op),
        _ => 3,
    }
}

/// The tree respects the grammar and the precedence rules: a unary minus
/// applies to a number or a group; binary operators of one tier group to the
/// left, and a lower tier never stands below a higher one without parentheses.
pub open spec fn well_shaped(e: Expr) -> bool
    decreases e,
{
    match e {
        Expr::Number(_) => true,
        Expr::UnaryMinus(x) => (*x is Number || *x is Grouped) && well_shaped(*x),
        Expr::Grouped(x) => well_shaped(*x),
        Expr::BinOp { lhs, op, rhs } => well_shaped(*lhs) && well_shaped(*rhs) && tier(*lhs)
            >= op_tier(op) && tier(*rhs) > op_tier(op),
    }
}

/// Index of the first `.` at or after `i`, or the length when there is none.
pub open spec fn dot_from(s: Seq<char>, i: int) -> int
    decreases s.len() - i,
{
    if i < 0 || i >= s.len() || s[i] == '.' {
        i
    } else {
        dot_from(s, i + 1)
    }
}

/// Skips the leading zeros of the integer part `s[i..k]`, keeping its last digit.
pub open spec fn skip_zeros(s: Seq<char>, i: int, k: int) -> int
    decreases k - i,
{
    if 0 <= i && i + 1 < k && s[i] == '0' {
        skip_zeros(s, i + 1, k)
    } else {
        i
    }
}

/// Drops the trailing zeros of the fraction `s[k + 1..j]`.
pub open spec fn trim_zeros(s: Seq<char>, j: int, k: int) -> int
    decreases j - k,
{
    if k + 1 < j && j <= s.len() && s[j - 1] == '0' {
        trim_zeros(s, j - 1, k)
    } else {
        j
    }
}

/// The decimal text of a number literal: no leading zeros before the last
/// digit of the integer part, no trailing zeros in the fraction, and no `.`
/// when the fraction is all zeros (`"007.50"` is shown as `"7.5"`).
pub open spec fn decimal_text(s: Seq<char>) -> Seq<char> {
    let k = dot_from(s, 0);
    let a = skip_zeros(s, 0, k);
    let b = trim_zeros(s, s.len() as int, k);
    if k + 1 >= b {
        s.subrange(a, k)
    } else {
        s.subrange(a, b)
    }
}

/// The display text of an expression.
pub open spec fn render(e: Expr) -> Seq<char>
    decreases e,
{
    match e {
        Expr::Number(s) => decimal_text(s@),
        Expr::UnaryMinus(x) => seq!['-'] + render(*x),
        Expr::Grouped(x) => seq!['('] + render(*x) + seq![')'],
        Expr::BinOp { lhs, op, rhs } => render(*lhs) + seq![' '] + glyph(op) + seq![' '] + render(
            *rhs,
        ),
    }
}

/// The decimal text of a number literal (see `decimal_text`).
pub fn number_text(lit: &str) -> (r: String)
    ensures
        r@ == decimal_text(lit@),
{
    let n = lit.unicode_len();
    let mut k: usize = 0;
    loop
        invariant
            k <= n,
            n == lit@.len(),
            dot_from(lit@, 0) == dot_from(lit@, k as int),
        ensures
            k <= n,
            k as int == dot_from(lit@, 0),
        decreases n - k,
    {
        if k >= n || lit.get_char(k) == '.' {
            break;
        }
        k = k + 1;
    }
    let mut a: usize = 0;
    loop
        invariant
            a <= k <= n,
            n == lit@.len(),
            skip_zeros(lit@, 0, k as int) == skip_zeros(lit@, a as int, k as int),
        ensures
            a <= k,
            a as int == skip_zeros(lit@, 0, k as int),
        decreases k - a,
    {
        if k - a <= 1 || lit.get_char(a) != '0' {
            break;
        }
        a = a + 1;
    }
    let mut b: usize = n;
    loop
        invariant
            k <= b <= n,
            n == lit@.len(),
            trim_zeros(lit@, n as int, k as int) == trim_zeros(lit@, b as int, k as int),
        ensures
            k <= b <= n,
            b as int == trim_zeros(lit@, n as int, k as int),
        decreases b,
    {
        if b - k <= 1 || lit.get_char(b - 1) != '0' {
            break;
        }
        b = b - 1;
    }
    if b - k <= 1 {
        String::from_str(lit.substring_char(a, k))
    } else {
        String::from_str(lit.substring_char(a, b))
    }
}

impl Expr {
    /// Renders the expression: numbers as their decimal text, `-` right before its
    /// operand, parentheses around a group, and ` glyph ` between operands.
    pub fn to_string(&self) -> (r: String)
        ensures
            r@ == render(*self),
        decreases self,
    {
        match self {
            Expr::Number(s) => number_text(s.as_str()),
            Expr::UnaryMinus(x) => {
                proof { reveal_strlit("-"); }
                let mut r = String::from_str("-");
                let inner = x.to_string();
                r.append(inner.as_str());
                r
            },
            Expr::Grouped(x) => {
                proof {
                    reveal_strlit("(");
                    reveal_strlit(")");
                }
                let mut r = String::from_str("(");
                let inner = x.to_string();
                r.append(inner.as_str());
                r.append(")");
                r
            },
            Expr::BinOp { lhs, op, rhs } => {
                proof { reveal_strlit(" "); }
                let mut r = lhs.to_string();
                r.append(" ");
                r.append(op.symbol());
                r.append(" ");
                let right = rhs.to_string();
                r.append(right.as_str());
                r
            },
        }
    }
}

} // verus!
