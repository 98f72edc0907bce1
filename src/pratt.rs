use vstd::prelude::*;
use crate::ast::{tier, tokens_of, well_shaped, Expr};
use crate::grammar::{CalculatorParser, SyntaxError};
use crate::laws::{lemma_tree_determined_by_tokens, same_tree};
use crate::syntax::{accepts, grammatical, lex, op_tier, run_from, toks, Expect, Tok, Token};

verus! {

/// A number, or a parenthesised expression, at `pos`.
fn parse_primary(ts: &Vec<Token>, pos: usize, Ghost(depth): Ghost<int>) -> (r: (Expr, usize))
    requires
        pos <= ts@.len(),
        depth >= 0,
        run_from(toks(ts@), pos as int, Expect::Primary, depth),
    ensures
        pos < r.1 <= ts@.len(),
        run_from(toks(ts@), r.1 as int, Expect::Operator, depth),
        toks(ts@).subrange(pos as int, r.1 as int) == tokens_of(r.0),
        well_shaped(r.0),
        r.0 is Number || r.0 is Grouped,
    decreases ts@.len() - pos, 0int,
{
    let ghost tv = toks(ts@);
    let n = ts.len();
    assert(pos < n);
    assert(tv[pos as int] == ts@[pos as int]@);
    match &ts[pos] {
        Token::Number(s) => {
            let e = Expr::Number(s.clone());
            assert(tv.subrange(pos as int, pos + 1) =~= tokens_of(e));
            (e, pos + 1)
        },
        Token::Open => {
            let (inner, p) = parse_sum(ts, pos + 1, 1, Ghost(depth + 1));
            assert(tv[p as int] == ts@[p as int]@);
            let e = Expr::Grouped(Box::new(inner));
            assert(tv.subrange(pos as int, p + 1) =~= seq![Tok::Open] + tv.subrange(
                pos + 1,
                p as int,
            ) + seq![Tok::Close]);
            (e, p + 1)
        },
        _ => {
            proof {
                assert(false);
            }
            (Expr::Number(String::new()), pos + 1)
        },
    }
}

/// A term at `pos`: a primary, with a unary minus in front or not.
fn parse_term(ts: &Vec<Token>, pos: usize, Ghost(depth): Ghost<int>) -> (r: (Expr, usize))
    requires
        pos <= ts@.len(),
        depth >= 0,
        run_from(toks(ts@), pos as int, Expect::Operand, depth),
    ensures
        pos < r.1 <= ts@.len(),
        run_from(toks(ts@), r.1 as int, Expect::Operator, depth),
        toks(ts@).subrange(pos as int, r.1 as int) == tokens_of(r.0),
        well_shaped(r.0),
        tier(r.0) == 3,
    decreases ts@.len() - pos, 1int,
{
    let ghost tv = toks(ts@);
    let n = ts.len();
    assert(pos < n);
    assert(tv[pos as int] == ts@[pos as int]@);
    match &ts[pos] {
        Token::UnaryMinus => {
            let (x, p) = parse_primary(ts, pos + 1, Ghost(depth));
            let e = Expr::UnaryMinus(Box::new(x));
            assert(tv.subrange(pos as int, p as int) =~= seq![Tok::Neg] + tv.subrange(
                pos + 1,
                p as int,
            ));
            (e, p)
        },
        _ => parse_primary(ts, pos, Ghost(depth)),
    }
}

/// Precedence climbing from `pos`: a run of terms and binary operators whose
/// operators are all of tier `min` or more, grouped to the left within a tier.
fn parse_sum(ts: &Vec<Token>, pos: usize, min: u8, Ghost(depth): Ghost<int>) -> (r: (Expr, usize))
    requires
        pos <= ts@.len(),
        1 <= min <= 3,
        depth >= 0,
        run_from(toks(ts@), pos as int, Expect::Operand, depth),
    ensures
        pos < r.1 <= ts@.len(),
        run_from(toks(ts@), r.1 as int, Expect::Operator, depth),
        toks(ts@).subrange(pos as int, r.1 as int) == tokens_of(r.0),
        well_shaped(r.0),
        tier(r.0) >= min,
        r.1 < ts@.len() ==> match toks(ts@)[r.1 as int] {
            Tok::Infix(op) => op_tier(op) < min,
            _ => true,
        },
    decreases ts@.len() - pos, 2int,
{
    let ghost tv = toks(ts@);
    let (mut lhs, mut p) = parse_term(ts, pos, Ghost(depth));
    loop
        invariant
            tv == toks(ts@),
            pos < p <= ts@.len(),
            1 <= min <= 3,
            depth >= 0,
            run_from(tv, p as int, Expect::Operator, depth),
            tv.subrange(pos as int, p as int) == tokens_of(lhs),
            well_shaped(lhs),
            tier(lhs) >= min,
            p < ts@.len() ==> match tv[p as int] {
                Tok::Infix(op) => op_tier(op) <= tier(lhs),
                _ => true,
            },
        ensures
            pos < p <= ts@.len(),
            run_from(tv, p as int, Expect::Operator, depth),
            tv.subrange(pos as int, p as int) == tokens_of(lhs),
            well_shaped(lhs),
            tier(lhs) >= min,
            p < ts@.len() ==> match tv[p as int] {
                Tok::Infix(op) => op_tier(op) < min,
                _ => true,
            },
        decreases ts@.len() - p,
    {
        if p >= ts.len() {
            break;
        }
        assert(tv[p as int] == ts@[p as int]@);
        let op = match &ts[p] {
            Token::Infix(op) => *op,
            _ => {
                break;
            },
        };
        let t = op.tier();
        if t < min {
            break;
        }
        let (rhs, q) = parse_sum(ts, p + 1, t + 1, Ghost(depth));
        let ghost old_lhs = lhs;
        lhs = Expr::BinOp { lhs: Box::new(lhs), op, rhs: Box::new(rhs) };
        assert(tv.subrange(pos as int, q as int) =~= tv.subrange(pos as int, p as int) + seq![
            Tok::Infix(op),
        ] + tv.subrange(p + 1, q as int));
        assert(tokens_of(lhs) == tokens_of(old_lhs) + seq![Tok::Infix(op)] + tokens_of(rhs));
        p = q;
    }
    (lhs, p)
}

/// Builds the expression tree of an accepted token stream by precedence
/// climbing. The tree is written as exactly these tokens and obeys the
/// precedence and grouping rules; it is the only such tree.
pub fn parse_expr(ts: &Vec<Token>) -> (r: Expr)
    requires
        accepts(toks(ts@)),
    ensures
        tokens_of(r) == toks(ts@),
        well_shaped(r),
        forall|e: Expr|
            well_shaped(e) && #[trigger] tokens_of(e) == toks(ts@) ==> same_tree(e, r),
{
    let ghost tv = toks(ts@);
    let (e, p) = parse_sum(ts, 0, 1, Ghost(0));
    if p < ts.len() {
        assert(tv[p as int] == ts@[p as int]@);
        assert(false);
    }
    assert(tv.subrange(0, p as int) =~= tv);
    assert forall|other: Expr|
        well_shaped(other) && #[trigger] tokens_of(other) == toks(ts@) implies same_tree(
        other,
        e,
    ) by {
        lemma_tree_determined_by_tokens(other, e);
    }
    e
}

/// Parses one line into its expression tree. `Ok` comes exactly for the
/// grammatical lines; the tree is written as the line's tokens and is the
/// only tree so written that obeys the precedence and grouping rules.
pub fn parse(line: &str) -> (r: Result<Expr, SyntaxError>)
    ensures
        r is Ok <==> grammatical(line@),
        match r {
            Ok(e) => lex(line@) == Some(tokens_of(e)) && well_shaped(e) && forall|other: Expr|
                well_shaped(other) && lex(line@) == Some(#[trigger] tokens_of(other))
                    ==> same_tree(other, e),
            Err(err) => err.position <= line@.len(),
        },
{
    match CalculatorParser::parse(line) {
        Ok(ts) => Ok(parse_expr(&ts)),
        Err(err) => Err(err),
    }
}

} // verus!
