//! Operator precedence: builds an expression tree from a flat sequence of
//! operators and operands.

use vstd::prelude::*;
use crate::dice::RogErr;
use crate::eval::{BinOp, Expr, PreOp};

verus! {

/// One element of a flat expression: an operator, or an operand (a number,
/// attribute, dice term, or a group built beforehand).
pub enum Item {
    Prefix(PreOp),
    Infix(BinOp),
    Percent,
    Operand(Expr),
}

/// How tightly an infix operator binds: `&` loosest, then `|`, counting,
/// comparisons, additive, multiplicative.
pub open spec fn infix_prec(op: BinOp) -> int {
    match op {
        BinOp::And => 1,
        BinOp::Or => 2,
        BinOp::CountLess | BinOp::CountGreater => 3,
        BinOp::Less | BinOp::LessEq | BinOp::Greater | BinOp::GreaterEq | BinOp::Eq => 4,
        BinOp::Add | BinOp::Sub | BinOp::HyperAdd | BinOp::HyperSub => 5,
        BinOp::Mul | BinOp::Div => 6,
    }
}

/// How tightly a postfix percent binds.
pub open spec fn percent_prec() -> int {
    7
}

/// How tightly a prefix operator binds: rounding, then negation and
/// logical not, the tightest.
pub open spec fn prefix_prec(op: PreOp) -> int {
    match op {
        PreOp::Ceil | PreOp::Round | PreOp::Floor => 8,
        PreOp::Neg | PreOp::Not => 9,
    }
}

/// The flat sequence that a tree is written as.
pub open spec fn flat(e: Expr) -> Seq<Item>
    decreases e,
{
    match e {
        Expr::Binary(op, a, b) => flat(*a) + seq![Item::Infix(op)] + flat(*b),
        Expr::Prefix(op, a) => seq![Item::Prefix(op)] + flat(*a),
        Expr::Percent(a) => flat(*a) + seq![Item::Percent],
        _ => seq![Item::Operand(e)],
    }
}

/// Whether an operand is a single term (not an operator node).
pub open spec fn is_term(e: Expr) -> bool {
    !(e is Binary) && !(e is Prefix) && !(e is Percent)
}

/// A stack (next item last) that starts with one operand: prefix
/// operators, a term, then what `rest_items` allows.
pub open spec fn operand_items(s: Seq<Item>) -> bool
    decreases s.len(), 1int,
{
    if s.len() == 0 {
        false
    } else {
        match s.last() {
            Item::Prefix(_) => operand_items(s.drop_last()),
            Item::Operand(e) => is_term(e) && rest_items(s.drop_last()),
            _ => false,
        }
    }
}

/// A stack (next item last) of percent signs and infix operators each
/// followed by an operand.
pub open spec fn rest_items(s: Seq<Item>) -> bool
    decreases s.len(), 0int,
{
    if s.len() == 0 {
        true
    } else {
        match s.last() {
            Item::Percent => rest_items(s.drop_last()),
            Item::Infix(_) => operand_items(s.drop_last()),
            _ => false,
        }
    }
}

/// Items that form one expression: prefix operators and a term, then
/// any run of percent signs and of infix operators each followed by
/// prefix operators and a term.
pub open spec fn forms_expression(items: Seq<Item>) -> bool {
    operand_items(items.reverse())
}

/// The binding power of the next item of a stack (its last), zero for one
/// that cannot follow an operand.
pub open spec fn next_bp(stack: Seq<Item>) -> int {
    if stack.len() == 0 {
        0
    } else {
        match stack.last() {
            Item::Infix(op) => infix_prec(op),
            Item::Percent => percent_prec(),
            _ => 0,
        }
    }
}

/// The precedence of a binary node, or none.
pub open spec fn bin_prec(e: Expr) -> Option<int> {
    match e {
        Expr::Binary(op, _, _) => Some(infix_prec(op)),
        _ => None,
    }
}

/// Every operator's operands bind at least as tightly as it does: the left
/// operand of a binary operator may hold one of the same level, the right
/// one only tighter ones; percent and prefix operators take no binary
/// operand, and prefix operators no percent.
pub open spec fn well_prec(e: Expr) -> bool
    decreases e,
{
    match e {
        Expr::Binary(op, a, b) => well_prec(*a) && well_prec(*b) && (bin_prec(*a) matches Some(p)
            ==> p >= infix_prec(op)) && (bin_prec(*b) matches Some(p) ==> p > infix_prec(op)),
        Expr::Prefix(op, a) => well_prec(*a) && bin_prec(*a) is None && !((*a) is Percent),
        Expr::Percent(a) => well_prec(*a) && bin_prec(*a) is None,
        _ => true,
    }
}

fn infix_bp(op: BinOp) -> (r: u8)
    ensures
        r == infix_prec(op),
{
    match op {
        BinOp::And => 1,
        BinOp::Or => 2,
        BinOp::CountLess | BinOp::CountGreater => 3,
        BinOp::Less | BinOp::LessEq | BinOp::Greater | BinOp::GreaterEq | BinOp::Eq => 4,
        BinOp::Add | BinOp::Sub | BinOp::HyperAdd | BinOp::HyperSub => 5,
        BinOp::Mul | BinOp::Div => 6,
    }
}

fn prefix_bp(op: PreOp) -> (r: u8)
    ensures
        r == prefix_prec(op),
{
    match op {
        PreOp::Ceil | PreOp::Round | PreOp::Floor => 8,
        PreOp::Neg | PreOp::Not => 9,
    }
}

/// How tightly the next item binds to what stands before it (zero for
/// one that cannot follow an operand).
fn left_bp(stack: &Vec<Item>) -> (r: u8)
    ensures
        r == next_bp(stack@),
{
    if stack.len() == 0 {
        return 0;
    }
    match &stack[stack.len() - 1] {
        Item::Infix(op) => infix_bp(*op),
        Item::Percent => 7,
        _ => 0,
    }
}

/// Reads one expression from the end of `stack` (the next item is the
/// last), taking operators that bind tighter than `rbp`; operators of one
/// level group to the left.
fn expr_bp(stack: &mut Vec<Item>, rbp: u8) -> (r: Result<Expr, RogErr>)
    ensures
        r matches Ok(e) ==> old(stack)@ == final(stack)@ + flat(e).reverse(),
        r matches Ok(e) ==> well_prec(e) && next_bp(final(stack)@) <= rbp,
        r matches Ok(e) ==> (bin_prec(e) matches Some(p) ==> p > rbp),
        r matches Ok(e) ==> (e is Percent ==> percent_prec() > rbp),
        r matches Err(err) ==> err == RogErr::UnknownError,
        final(stack)@.len() <= old(stack)@.len(),
        operand_items(old(stack)@) ==> r is Ok && rest_items(final(stack)@),
    decreases old(stack)@.len(),
{
    let ghost start = stack@;
    let top = match stack.pop() {
        None => {
            return Err(RogErr::UnknownError);
        },
        Some(it) => it,
    };
    let ghost rest = stack@;
    assert(start == rest.push(top));
    let mut lhs = match top {
        Item::Operand(e) => match e {
            Expr::Binary(..) | Expr::Prefix(..) | Expr::Percent(..) => {
                return Err(RogErr::UnknownError);
            },
            _ => {
                assert(flat(e) == seq![Item::Operand(e)]);
                assert(start =~= stack@ + flat(e).reverse());
                e
            },
        },
        Item::Prefix(op) => {
            let rhs = match expr_bp(stack, prefix_bp(op) - 1) {
                Ok(e) => e,
                Err(err) => {
                    return Err(err);
                },
            };
            let e = Expr::Prefix(op, Box::new(rhs));
            assert(flat(e).reverse() =~= flat(rhs).reverse() + seq![Item::Prefix(op)]);
            assert(start =~= stack@ + flat(e).reverse());
            e
        },
        _ => {
            return Err(RogErr::UnknownError);
        },
    };
    while rbp < left_bp(stack)
        invariant
            start == stack@ + flat(lhs).reverse(),
            stack@.len() < start.len(),
            start == old(stack)@,
            operand_items(start) ==> rest_items(stack@),
            well_prec(lhs),
            bin_prec(lhs) matches Some(p) ==> p > rbp && next_bp(stack@) <= p,
            lhs is Percent ==> percent_prec() > rbp,
        decreases stack@.len(),
    {
        let ghost before = stack@;
        let next = stack.pop();
        let ghost after_pop = stack@;
        match next {
            Some(Item::Infix(op)) => {
                assert(before == after_pop.push(Item::Infix(op)));
                let rhs = match expr_bp(stack, infix_bp(op)) {
                    Ok(e) => e,
                    Err(err) => {
                        return Err(err);
                    },
                };
                let e = Expr::Binary(op, Box::new(lhs), Box::new(rhs));
                assert(flat(e).reverse() =~= flat(rhs).reverse() + seq![Item::Infix(op)] + flat(lhs).reverse());
                lhs = e;
            },
            Some(Item::Percent) => {
                assert(before == after_pop.push(Item::Percent));
                let e = Expr::Percent(Box::new(lhs));
                assert(flat(e).reverse() =~= seq![Item::Percent] + flat(lhs).reverse());
                lhs = e;
            },
            _ => {
                return Err(RogErr::UnknownError);
            },
        }
        assert(start =~= stack@ + flat(lhs).reverse());
    }
    Ok(lhs)
}

/// Builds the tree of a flat expression; `UnknownError` when the items do
/// not form one expression. Reading the tree back gives the items, and the
/// tree groups them by precedence.
pub fn build(items: Vec<Item>) -> (r: Result<Expr, RogErr>)
    ensures
        r matches Ok(e) ==> flat(e) == items@ && well_prec(e),
        r matches Err(err) ==> err == RogErr::UnknownError,
        forms_expression(items@) ==> r is Ok,
{
    let ghost orig = items@;
    let mut stack: Vec<Item> = Vec::new();
    let mut items = items;
    while items.len() > 0
        invariant
            orig == items@ + stack@.reverse(),
        decreases items@.len(),
    {
        let ghost (i0, s0) = (items@, stack@);
        match items.pop() {
            Some(it) => {
                stack.push(it);
                assert(stack@.reverse() =~= seq![it] + s0.reverse());
                assert(i0 =~= items@ + seq![it]);
            },
            None => {},
        }
    }
    assert(orig =~= stack@.reverse());
    assert(orig.reverse() =~= stack@);
    let ghost full = stack@;
    let e = match expr_bp(&mut stack, 0) {
        Ok(e) => e,
        Err(err) => {
            return Err(err);
        },
    };
    if stack.len() != 0 {
        return Err(RogErr::UnknownError);
    }
    assert(full =~= flat(e).reverse());
    assert(flat(e) =~= full.reverse());
    Ok(e)
}

} // verus!
