use vstd::prelude::*;
use crate::ast::{tier, tokens_of, well_shaped, Expr};
use crate::syntax::{
    accepts, digits_end, grammatical, is_digit, lex, lex_from, number_end, op_tier, run_from, Expect,
    Tok,
};

verus! {

/// A number literal: `digits ("." digits)?`.
pub open spec fn is_literal(s: Seq<char>) -> bool {
    (forall|i: int| 0 <= i < s.len() ==> is_digit(#[trigger] s[i])) && s.len() > 0 || exists|k: int|
        0 < k < s.len() - 1 && s[k] == '.' && forall|i: int|
            0 <= i < s.len() && i != k ==> is_digit(#[trigger] s[i])
}

proof fn lemma_digits_end(s: Seq<char>, i: int, j: int)
    requires
        0 <= i <= j <= s.len(),
        forall|k: int| i <= k < j ==> is_digit(#[trigger] s[k]),
        j == s.len() || !is_digit(s[j]),
    ensures
        digits_end(s, i) == j,
    decreases j - i,
{
    if i < j {
        lemma_digits_end(s, i + 1, j);
    }
}

proof fn lemma_tokens_nonempty(e: Expr)
    ensures
        tokens_of(e).len() >= 1,
        !(e is Number) ==> tokens_of(e).len() >= 2,
    decreases e,
{
    match e {
        Expr::Number(_) => {},
        Expr::UnaryMinus(x) => lemma_tokens_nonempty(*x),
        Expr::Grouped(x) => lemma_tokens_nonempty(*x),
        Expr::BinOp { lhs, rhs, .. } => {
            lemma_tokens_nonempty(*lhs);
            lemma_tokens_nonempty(*rhs);
        },
    }
}

/// A number literal alone is a grammatical line, read as the one number
/// token; the only tree written as that token is the number with that literal.
pub proof fn lemma_literal_alone(s: Seq<char>)
    requires
        is_literal(s),
    ensures
        grammatical(s),
        lex(s) == Some(seq![Tok::Num(s)]),
        forall|e: Expr|
            #[trigger] tokens_of(e) == seq![Tok::Num(s)] ==> e is Number && e->Number_0@ == s,
{
    if forall|i: int| 0 <= i < s.len() ==> is_digit(#[trigger] s[i]) {
        lemma_digits_end(s, 0, s.len() as int);
        assert(number_end(s, 0) == s.len());
    } else {
        let k = choose|k: int|
            0 < k < s.len() - 1 && s[k] == '.' && forall|i: int|
                0 <= i < s.len() && i != k ==> is_digit(#[trigger] s[i]);
        lemma_digits_end(s, 0, k);
        lemma_digits_end(s, k + 1, s.len() as int);
        assert(number_end(s, 0) == s.len());
    }
    assert(s.subrange(0, s.len() as int) =~= s);
    assert(lex_from(s, s.len() as int, true) == Some(Seq::<Tok>::empty()));
    assert(seq![Tok::Num(s)] + Seq::<Tok>::empty() =~= seq![Tok::Num(s)]);
    let ts = seq![Tok::Num(s)];
    assert(run_from(ts, 1, Expect::Operator, 0));
    assert(accepts(ts));
    assert forall|e: Expr| #[trigger] tokens_of(e) == seq![Tok::Num(s)] implies e is Number
        && e->Number_0@ == s by {
        lemma_tokens_nonempty(e);
        if let Expr::Number(x) = e {
            assert(tokens_of(e)[0] == Tok::Num(x@));
        }
    }
}

/// Open parentheses minus closing ones in a token sequence.
pub open spec fn depth(w: Seq<Tok>) -> int
    decreases w.len(),
{
    if w.len() == 0 {
        0
    } else {
        depth(w.drop_last()) + match w.last() {
            Tok::Open => 1int,
            Tok::Close => -1int,
            _ => 0int,
        }
    }
}

/// Two trees are the same when they have the same nodes and literals.
pub open spec fn same_tree(a: Expr, b: Expr) -> bool
    decreases a,
{
    match (a, b) {
        (Expr::Number(x), Expr::Number(y)) => x@ == y@,
        (Expr::UnaryMinus(x), Expr::UnaryMinus(y)) => same_tree(*x, *y),
        (Expr::Grouped(x), Expr::Grouped(y)) => same_tree(*x, *y),
        (
            Expr::BinOp { lhs: l1, op: o1, rhs: r1 },
            Expr::BinOp { lhs: l2, op: o2, rhs: r2 },
        ) => o1 == o2 && same_tree(*l1, *l2) && same_tree(*r1, *r2),
        _ => false,
    }
}

proof fn lemma_depth_concat(a: Seq<Tok>, b: Seq<Tok>)
    ensures
        depth(a + b) == depth(a) + depth(b),
    decreases b.len(),
{
    if b.len() > 0 {
        lemma_depth_concat(a, b.drop_last());
        assert((a + b).drop_last() =~= a + b.drop_last());
    } else {
        assert(a + b =~= a);
    }
}

proof fn lemma_depth_one(t: Tok)
    ensures
        depth(seq![t]) == match t {
            Tok::Open => 1int,
            Tok::Close => -1int,
            _ => 0int,
        },
{
    assert(seq![t].drop_last() =~= Seq::<Tok>::empty());
    assert(seq![t].last() == t);
    assert(depth(Seq::<Tok>::empty()) == 0);
}

/// Every prefix of an expression's tokens opens at least as many
/// parentheses as it closes, and the whole closes them all.
proof fn lemma_balanced(e: Expr, j: int)
    requires
        0 <= j <= tokens_of(e).len(),
    ensures
        depth(tokens_of(e).subrange(0, j)) >= 0,
        depth(tokens_of(e)) == 0,
    decreases e, 0int,
{
    let w = tokens_of(e);
    lemma_tokens_nonempty(e);
    match e {
        Expr::Number(_) => {
            lemma_depth_one(w[0]);
            if j == 0 {
                assert(w.subrange(0, j) =~= Seq::<Tok>::empty());
            } else {
                assert(w.subrange(0, j) =~= w);
            }
        },
        Expr::UnaryMinus(x) => {
            let tx = tokens_of(*x);
            lemma_depth_one(Tok::Neg);
            lemma_balanced(*x, tx.len() as int);
            lemma_depth_concat(seq![Tok::Neg], tx);
            if j == 0 {
                assert(w.subrange(0, j) =~= Seq::<Tok>::empty());
            } else {
                lemma_balanced(*x, j - 1);
                assert(w.subrange(0, j) =~= seq![Tok::Neg] + tx.subrange(0, j - 1));
                lemma_depth_concat(seq![Tok::Neg], tx.subrange(0, j - 1));
            }
        },
        Expr::Grouped(x) => {
            let tx = tokens_of(*x);
            lemma_depth_one(Tok::Open);
            lemma_depth_one(Tok::Close);
            lemma_balanced(*x, tx.len() as int);
            lemma_depth_concat(seq![Tok::Open], tx);
            lemma_depth_concat(seq![Tok::Open] + tx, seq![Tok::Close]);
            if j == 0 {
                assert(w.subrange(0, j) =~= Seq::<Tok>::empty());
            } else if j == w.len() {
                assert(w.subrange(0, j) =~= w);
            } else {
                lemma_balanced(*x, j - 1);
                assert(w.subrange(0, j) =~= seq![Tok::Open] + tx.subrange(0, j - 1));
                lemma_depth_concat(seq![Tok::Open], tx.subrange(0, j - 1));
            }
        },
        Expr::BinOp { lhs, op, rhs } => {
            let tl = tokens_of(*lhs);
            let tr = tokens_of(*rhs);
            let mid = tl + seq![Tok::Infix(op)];
            lemma_depth_one(Tok::Infix(op));
            lemma_balanced(*lhs, tl.len() as int);
            lemma_balanced(*rhs, tr.len() as int);
            lemma_depth_concat(tl, seq![Tok::Infix(op)]);
            lemma_depth_concat(mid, tr);
            if j <= tl.len() {
                lemma_balanced(*lhs, j);
                assert(w.subrange(0, j) =~= tl.subrange(0, j));
            } else {
                let k = j - tl.len() - 1;
                lemma_balanced(*rhs, k);
                assert(w.subrange(0, j) =~= mid + tr.subrange(0, k));
                lemma_depth_concat(mid, tr.subrange(0, k));
            }
        },
    }
}

/// An operator that stands outside all parentheses in an expression's
/// tokens binds no tighter than the expression's root.
proof fn lemma_outer_operator(e: Expr, i: int)
    requires
        well_shaped(e),
        0 <= i < tokens_of(e).len(),
        tokens_of(e)[i] is Infix,
        depth(tokens_of(e).subrange(0, i)) == 0,
    ensures
        op_tier(tokens_of(e)[i]->Infix_0) >= tier(e),
    decreases e,
{
    let w = tokens_of(e);
    match e {
        Expr::Number(x) => {
            assert(w == seq![Tok::Num(x@)]);
            assert(i == 0);
            assert(w[0] == Tok::Num(x@));
        },
        Expr::UnaryMinus(x) => {
            assert(w[0] == Tok::Neg);
            if let Expr::Number(v) = *x {
                assert(tokens_of(*x) == seq![Tok::Num(v@)]);
                assert(w =~= seq![Tok::Neg, Tok::Num(v@)]);
            }
            if let Expr::Grouped(z) = *x {
                let tz = tokens_of(*z);
                assert(tokens_of(*x) == seq![Tok::Open] + tz + seq![Tok::Close]);
                assert(w =~= seq![Tok::Neg] + (seq![Tok::Open] + tz + seq![Tok::Close]));
                assert(w[1] == Tok::Open);
                assert(w[w.len() - 1] == Tok::Close);
                if i >= 2 && i < w.len() - 1 {
                    lemma_balanced(*z, i - 2);
                    assert(w.subrange(0, i) =~= seq![Tok::Neg] + seq![Tok::Open] + tz.subrange(
                        0,
                        i - 2,
                    ));
                    lemma_depth_one(Tok::Neg);
                    lemma_depth_one(Tok::Open);
                    lemma_depth_concat(seq![Tok::Neg], seq![Tok::Open]);
                    lemma_depth_concat(seq![Tok::Neg] + seq![Tok::Open], tz.subrange(0, i - 2));
                }
            }
        },
        Expr::Grouped(z) => {
            let tz = tokens_of(*z);
            assert(w[0] == Tok::Open);
            assert(w[w.len() - 1] == Tok::Close);
            if i >= 1 && i < w.len() - 1 {
                lemma_balanced(*z, i - 1);
                assert(w.subrange(0, i) =~= seq![Tok::Open] + tz.subrange(0, i - 1));
                lemma_depth_one(Tok::Open);
                lemma_depth_concat(seq![Tok::Open], tz.subrange(0, i - 1));
            }
        },
        Expr::BinOp { lhs, op, rhs } => {
            let tl = tokens_of(*lhs);
            let tr = tokens_of(*rhs);
            let mid = tl + seq![Tok::Infix(op)];
            if i < tl.len() {
                assert(w.subrange(0, i) =~= tl.subrange(0, i));
                lemma_outer_operator(*lhs, i);
            } else if i > tl.len() {
                let k = i - tl.len() - 1;
                lemma_balanced(*lhs, 0);
                lemma_depth_one(Tok::Infix(op));
                lemma_depth_concat(tl, seq![Tok::Infix(op)]);
                assert(w.subrange(0, i) =~= mid + tr.subrange(0, k));
                lemma_depth_concat(mid, tr.subrange(0, k));
                assert(w[i] == tr[k]);
                lemma_outer_operator(*rhs, k);
            }
        },
    }
}

/// A well-shaped tree is determined by its tokens: two well-shaped trees
/// written as the same tokens are the same tree. So the tree that parsing
/// returns is the only one that the precedence and grouping rules allow.
pub proof fn lemma_tree_determined_by_tokens(a: Expr, b: Expr)
    requires
        well_shaped(a),
        well_shaped(b),
        tokens_of(a) == tokens_of(b),
    ensures
        same_tree(a, b),
    decreases a,
{
    let w = tokens_of(a);
    lemma_tokens_nonempty(a);
    lemma_tokens_nonempty(b);
    match (a, b) {
        (Expr::Number(x), Expr::Number(y)) => {
            assert(w[0] == Tok::Num(x@));
        },
        (Expr::UnaryMinus(x), Expr::UnaryMinus(y)) => {
            assert(tokens_of(*x) =~= w.subrange(1, w.len() as int));
            assert(tokens_of(*y) =~= w.subrange(1, w.len() as int));
            lemma_tree_determined_by_tokens(*x, *y);
        },
        (Expr::Grouped(x), Expr::Grouped(y)) => {
            assert(tokens_of(*x) =~= w.subrange(1, w.len() - 1));
            assert(tokens_of(*y) =~= w.subrange(1, w.len() - 1));
            lemma_tree_determined_by_tokens(*x, *y);
        },
        (
            Expr::BinOp { lhs: l1, op: o1, rhs: r1 },
            Expr::BinOp { lhs: l2, op: o2, rhs: r2 },
        ) => {
            let p1 = tokens_of(*l1).len() as int;
            let p2 = tokens_of(*l2).len() as int;
            if p1 == p2 {
                assert(tokens_of(*l1) =~= w.subrange(0, p1));
                assert(tokens_of(*l2) =~= w.subrange(0, p1));
                assert(w[p1] == Tok::Infix(o1));
                assert(tokens_of(b)[p1] == Tok::Infix(o2));
                assert(tokens_of(*r1) =~= w.subrange(p1 + 1, w.len() as int));
                assert(tokens_of(*r2) =~= w.subrange(p1 + 1, w.len() as int));
                lemma_tree_determined_by_tokens(*l1, *l2);
                lemma_tree_determined_by_tokens(*r1, *r2);
            } else {
                lemma_split_order(*l1, o1, *r1, *l2, o2, *r2);
                lemma_split_order(*l2, o2, *r2, *l1, o1, *r1);
            }
        },
        (Expr::BinOp { lhs, op, rhs }, _) => {
            lemma_outer_operator_of_binop(*lhs, op, *rhs, b);
        },
        (_, Expr::BinOp { lhs, op, rhs }) => {
            lemma_outer_operator_of_binop(*lhs, op, *rhs, a);
        },
        (Expr::UnaryMinus(_), _) => {
            assert(tokens_of(b)[0] != Tok::Neg);
        },
        (_, Expr::UnaryMinus(_)) => {
            assert(tokens_of(a)[0] != Tok::Neg);
        },
        _ => {},
    }
}

/// Only a binary operation has an operator outside parentheses, so only
/// one can be written as the tokens of a binary operation.
proof fn lemma_outer_operator_of_binop(l: Expr, op: crate::syntax::Op, r: Expr, c: Expr)
    requires
        well_shaped(c),
        tokens_of(c) == tokens_of(Expr::BinOp { lhs: Box::new(l), op, rhs: Box::new(r) }),
    ensures
        c is BinOp,
{
    let tl = tokens_of(l);
    let w = tokens_of(c);
    lemma_balanced(l, 0);
    assert(w.subrange(0, tl.len() as int) =~= tl);
    assert(w[tl.len() as int] == Tok::Infix(op));
    lemma_outer_operator(c, tl.len() as int);
}

/// Two splits of the same tokens at different outer operators cannot both
/// be well shaped: the split further left must come first.
proof fn lemma_split_order(
    l1: Expr,
    o1: crate::syntax::Op,
    r1: Expr,
    l2: Expr,
    o2: crate::syntax::Op,
    r2: Expr,
)
    requires
        well_shaped(Expr::BinOp { lhs: Box::new(l1), op: o1, rhs: Box::new(r1) }),
        well_shaped(Expr::BinOp { lhs: Box::new(l2), op: o2, rhs: Box::new(r2) }),
        tokens_of(Expr::BinOp { lhs: Box::new(l1), op: o1, rhs: Box::new(r1) }) == tokens_of(
            Expr::BinOp { lhs: Box::new(l2), op: o2, rhs: Box::new(r2) },
        ),
    ensures
        tokens_of(l1).len() >= tokens_of(l2).len(),
{
    let w = tokens_of(Expr::BinOp { lhs: Box::new(l1), op: o1, rhs: Box::new(r1) });
    let tl1 = tokens_of(l1);
    let tl2 = tokens_of(l2);
    let tr1 = tokens_of(r1);
    let p1 = tl1.len() as int;
    let p2 = tl2.len() as int;
    if p1 < p2 {
        lemma_balanced(l1, 0);
        lemma_balanced(l2, 0);
        // the first operator lies outside parentheses inside the second left side
        assert(w.subrange(0, p1) =~= tl1);
        assert(w.subrange(0, p2) =~= tl2);
        assert(tl2.subrange(0, p1) =~= tl1);
        assert(tl2[p1] == w[p1]);
        assert(w[p1] == Tok::Infix(o1));
        lemma_outer_operator(l2, p1);
        // the second operator lies outside parentheses inside the first right side
        let k = p2 - p1 - 1;
        let mid = tl1 + seq![Tok::Infix(o1)];
        lemma_depth_one(Tok::Infix(o1));
        lemma_depth_concat(tl1, seq![Tok::Infix(o1)]);
        assert(tl2 =~= mid + tr1.subrange(0, k));
        lemma_depth_concat(mid, tr1.subrange(0, k));
        assert(w[p2] == Tok::Infix(o2));
        assert(tr1[k] == w[p2]);
        lemma_outer_operator(r1, k);
    }
}

} // verus!
