//! Evaluation of an expression tree against the attributes.

use vstd::prelude::*;
use crate::text::push_str;
use crate::attrs::Attrs;
use crate::cons::{count_cmp, dice_sum, flag, rounded_list_text, scalar, shifted, RogCons};
use crate::dice::{
    fate_rolled, rolled, Dice, MAX_CHAIN, MAX_COUNT, MAX_REROLLS, Explode, FateDice, KeepDrop,
    RogErr, RollConfig,
};
use crate::num::{ceil_m, fits, floor_m, num_text, round_m, trunc_div, MAX_WHOLE, SCALE};
use crate::token::{parse_number, token_error, token_value};

verus! {

/// The explosion marker of a dice term: none, `!`, or `!n`.
pub enum ExplodeTerm {
    NoExplode,
    Default,
    At(String),
}

/// A dice term as written: count and sides are number tokens, and an empty
/// count means one die.
pub struct DiceTerm {
    pub count: String,
    pub sides: String,
    pub explode: ExplodeTerm,
    pub keep_drop: Option<(KeepDrop, String)>,
    pub aro: bool,
    pub sort: bool,
}

/// Binary operators.
#[derive(Clone, Copy, Debug, PartialEq, Eq, Structural)]
pub enum BinOp {
    And,
    Or,
    CountLess,
    CountGreater,
    Less,
    LessEq,
    Greater,
    GreaterEq,
    Eq,
    Add,
    Sub,
    HyperAdd,
    HyperSub,
    Mul,
    Div,
}

/// Prefix operators.
#[derive(Clone, Copy, Debug, PartialEq, Eq, Structural)]
pub enum PreOp {
    Neg,
    Not,
    Ceil,
    Round,
    Floor,
}

/// An expression.
pub enum Expr {
    Number(String),
    Attribute(String),
    Group(Box<Expr>),
    Dice(DiceTerm),
    Fate(String),
    Binary(BinOp, Box<Expr>, Box<Expr>),
    Prefix(PreOp, Box<Expr>),
    Percent(Box<Expr>),
}

/// A number token read as a count: its whole part, zero when negative,
/// at most the largest `usize`.
pub open spec fn count_value(s: Seq<char>, attrs: Attrs) -> Result<int, RogErr> {
    match token_value(s, attrs) {
        Ok(m) => Ok(if m <= 0 {
            0
        } else if m / SCALE as int > usize::MAX {
            usize::MAX as int
        } else {
            m / SCALE as int
        }),
        Err(e) => Err(e),
    }
}

/// The count of a dice term: one when its token is empty.
pub open spec fn dice_count(t: DiceTerm, attrs: Attrs) -> Result<int, RogErr> {
    if t.count@.len() == 0 { Ok(1) } else { count_value(t.count@, attrs) }
}

/// The explosion of a dice term.
pub open spec fn explode_value(t: DiceTerm, attrs: Attrs) -> Result<Explode, RogErr> {
    match t.explode {
        ExplodeTerm::NoExplode => Ok(Explode::NoExplode),
        ExplodeTerm::Default => Ok(Explode::Default),
        ExplodeTerm::At(s) => match count_value(s@, attrs) {
            Ok(n) => Ok(Explode::Explode(n as usize)),
            Err(e) => Err(e),
        },
    }
}

/// The keep/drop modifier of a dice term.
pub open spec fn keep_drop_value(t: DiceTerm, attrs: Attrs) -> Result<Option<(KeepDrop, usize)>, RogErr> {
    match t.keep_drop {
        None => Ok(None),
        Some((k, s)) => match count_value(s@, attrs) {
            Ok(n) => Ok(Some((k, n as usize))),
            Err(e) => Err(e),
        },
    }
}

/// The dice that a term asks for, or the first error among its tokens
/// (count, sides, explosion, keep/drop).
pub open spec fn resolve_spec(t: DiceTerm, attrs: Attrs) -> Result<Dice, RogErr> {
    match dice_count(t, attrs) {
        Err(e) => Err(e),
        Ok(c) => match count_value(t.sides@, attrs) {
            Err(e) => Err(e),
            Ok(s) => match explode_value(t, attrs) {
                Err(e) => Err(e),
                Ok(x) => match keep_drop_value(t, attrs) {
                    Err(e) => Err(e),
                    Ok(k) => Ok(Dice {
                        count: c as usize,
                        sides: s as usize,
                        config: RollConfig { keep_drop: k, explode: x, aro: t.aro, sort: t.sort },
                    }),
                },
            },
        },
    }
}

/// The result of a binary operator on two evaluated operands.
pub open spec fn binary_result(op: BinOp, a: RogCons, b: RogCons, c: RogCons) -> bool {
    let d = dice_sum(a.dice, b.dice);
    let (x, y) = (a.value.m as int, b.value.m as int);
    match op {
        BinOp::And => scalar(c, flag(x != 0 && y != 0), a.text@ + " & "@ + b.text@, true, d),
        BinOp::Or => scalar(c, flag(x != 0 || y != 0), a.text@ + " | "@ + b.text@, true, d),
        BinOp::Less => scalar(c, flag(x < y), a.text@ + " < "@ + b.text@, true, d),
        BinOp::LessEq => scalar(c, flag(x <= y), a.text@ + " <= "@ + b.text@, true, d),
        BinOp::Greater => scalar(c, flag(x > y), a.text@ + " > "@ + b.text@, true, d),
        BinOp::GreaterEq => scalar(c, flag(x >= y), a.text@ + " >= "@ + b.text@, true, d),
        BinOp::Eq => scalar(c, flag(x == y), a.text@ + " = "@ + b.text@, true, d),
        BinOp::CountLess => scalar(c, count_cmp(a.values@, y, true, a.values@.len() as int) * SCALE,
            a.text@ + " << "@ + b.text@, false, d),
        BinOp::CountGreater => scalar(c, count_cmp(a.values@, y, false, a.values@.len() as int) * SCALE,
            a.text@ + " >> "@ + b.text@, false, d),
        BinOp::Add => scalar(c, x + y, a.text@ + " + "@ + b.text@, false, d),
        BinOp::Sub => scalar(c, x - y, a.text@ + " - "@ + b.text@, false, d),
        BinOp::Mul => scalar(c, trunc_div(x * y, SCALE as int), a.text@ + " * "@ + b.text@, false, d),
        BinOp::Div => y != 0 && scalar(c, trunc_div(x * SCALE, y), a.text@ + " / "@ + b.text@, false, d),
        BinOp::HyperAdd => spread_result(a, b, true, c, " ++ "@),
        BinOp::HyperSub => spread_result(a, b, false, c, " -- "@),
    }
}

/// Every value of `a` moved by the number of `b`.
pub open spec fn spread_result(a: RogCons, b: RogCons, add: bool, c: RogCons, op: Seq<char>) -> bool {
    let len = a.values@.len();
    &&& c.value.m == shifted(a.value.m as int, b.value.m * len, add)
    &&& c.values@.len() == len
    &&& forall|i: int| 0 <= i < len ==> #[trigger] c.values@[i].m == shifted(a.values@[i].m as int, b.value.m as int, add)
    &&& c.text@ == "["@ + rounded_list_text(c.values@, len as int) + "] ⟵ "@ + a.text@ + op + b.text@
    &&& !c.boolean
    &&& c.dice == dice_sum(a.dice, b.dice)
}

/// The result of a prefix operator on an evaluated operand.
pub open spec fn prefix_result(op: PreOp, a: RogCons, c: RogCons) -> bool {
    let x = a.value.m as int;
    match op {
        PreOp::Neg => scalar(c, -x, "-"@ + a.text@, a.boolean, a.dice),
        PreOp::Not => scalar(c, flag(x == 0), "!"@ + a.text@, true, a.dice),
        PreOp::Ceil => scalar(c, ceil_m(x), "^"@ + a.text@, false, a.dice),
        PreOp::Round => scalar(c, round_m(x), "~"@ + a.text@, false, a.dice),
        PreOp::Floor => scalar(c, floor_m(x), "_"@ + a.text@, false, a.dice),
    }
}

/// The results behind an evaluation: the result of a node, with the
/// traces of its operands.
pub enum Trace {
    Leaf(RogCons),
    One(RogCons, Box<Trace>),
    Two(RogCons, Box<Trace>, Box<Trace>),
}

impl Trace {
    /// The result at the root.
    pub open spec fn root(self) -> RogCons {
        match self {
            Trace::Leaf(c) => c,
            Trace::One(c, _) => c,
            Trace::Two(c, _, _) => c,
        }
    }
}

/// `t` records an evaluation of `e` against `attrs`: numbers and attributes
/// are read, dice show faces that they can show, and each operator gives
/// its result on the results of its operands.
pub open spec fn derives(e: Expr, attrs: Attrs, t: Trace) -> bool
    decreases e,
{
    match e {
        Expr::Number(tk) => t matches Trace::Leaf(c) && match token_value(tk@, attrs) {
            Ok(m) => scalar(c, m, num_text(m), false, 0),
            Err(_) => false,
        },
        Expr::Attribute(tk) => t matches Trace::Leaf(c) && match token_value(tk@, attrs) {
            Ok(m) => scalar(c, m, "["@ + num_text(m) + "] "@ + tk@, false, 0),
            Err(_) => false,
        },
        Expr::Dice(term) => t matches Trace::Leaf(c) && match resolve_spec(term, attrs) {
            Ok(d) => rolled(d, c),
            Err(_) => false,
        },
        Expr::Fate(tk) => t matches Trace::Leaf(c) && match dice_count_of_fate(tk@, attrs) {
            Ok(n) => fate_rolled(FateDice { count: n as usize }, c),
            Err(_) => false,
        },
        Expr::Group(x) => t matches Trace::One(c, k) && derives(*x, attrs, *k) && {
            let cx = k.root();
            &&& c.value == cx.value
            &&& c.values@ == cx.values@
            &&& c.boolean == cx.boolean
            &&& c.dice == cx.dice
            &&& c.text@ == "("@ + cx.text@ + ")"@
        },
        Expr::Binary(op, a, b) => t matches Trace::Two(c, ka, kb) && derives(*a, attrs, *ka)
            && derives(*b, attrs, *kb) && binary_result(op, ka.root(), kb.root(), c),
        Expr::Prefix(op, a) => t matches Trace::One(c, k) && derives(*a, attrs, *k)
            && prefix_result(op, k.root(), c),
        Expr::Percent(a) => t matches Trace::One(c, k) && derives(*a, attrs, *k) && {
            let ca = k.root();
            scalar(c, trunc_div(ca.value.m as int, 100), ca.text@ + "%"@, false, ca.dice)
        },
    }
}

/// `c` is a result that evaluating `e` against `attrs` can give.
pub open spec fn evals(e: Expr, attrs: Attrs, c: RogCons) -> bool {
    exists|t: Trace| #[trigger] derives(e, attrs, t) && t.root() == c
}

/// The count of a fate dice term: one when its token is empty.
pub open spec fn dice_count_of_fate(s: Seq<char>, attrs: Attrs) -> Result<int, RogErr> {
    if s.len() == 0 { Ok(1) } else { count_value(s, attrs) }
}

/// A number token read as a count.
fn parse_count(s: &String, attrs: &Attrs) -> (r: Result<usize, RogErr>)
    requires
        attrs.wf(),
    ensures
        match count_value(s@, *attrs) {
            Ok(n) => r == Ok::<usize, RogErr>(n as usize) && 0 <= n <= usize::MAX,
            Err(e) => r == Err::<usize, RogErr>(e),
        },
        r matches Err(e) ==> token_error(e),
{
    match parse_number(s.as_str(), attrs) {
        Ok(v) => {
            if v.m <= 0 {
                Ok(0)
            } else {
                let w = (v.m / 1000000) as u64;
                if w > usize::MAX as u64 {
                    Ok(usize::MAX)
                } else {
                    Ok(w as usize)
                }
            }
        },
        Err(e) => Err(e),
    }
}

/// The dice that a term asks for.
pub fn resolve_dice(t: &DiceTerm, attrs: &Attrs) -> (r: Result<Dice, RogErr>)
    requires
        attrs.wf(),
    ensures
        r == resolve_spec(*t, *attrs),
        r matches Err(e) ==> token_error(e),
{
    let count: usize = if t.count.as_str().is_empty() {
        1
    } else {
        match parse_count(&t.count, attrs) {
            Ok(n) => n,
            Err(e) => {
                return Err(e);
            },
        }
    };
    let sides = match parse_count(&t.sides, attrs) {
        Ok(n) => n,
        Err(e) => {
            return Err(e);
        },
    };
    let explode = match &t.explode {
        ExplodeTerm::NoExplode => Explode::NoExplode,
        ExplodeTerm::Default => Explode::Default,
        ExplodeTerm::At(s) => match parse_count(s, attrs) {
            Ok(n) => Explode::Explode(n),
            Err(e) => {
                return Err(e);
            },
        },
    };
    let keep_drop = match &t.keep_drop {
        None => None,
        Some((k, s)) => match parse_count(s, attrs) {
            Ok(n) => Some((*k, n)),
            Err(e) => {
                return Err(e);
            },
        },
    };
    Ok(Dice { count, sides, config: RollConfig { keep_drop, explode, aro: t.aro, sort: t.sort } })
}

/// Whether a binary operator gives a result on these operands: every
/// number it makes can be held, and a divisor is not zero.
pub open spec fn binary_ok(op: BinOp, a: RogCons, b: RogCons) -> bool {
    let (x, y) = (a.value.m as int, b.value.m as int);
    let len = a.values@.len();
    match op {
        BinOp::Add => fits(x + y),
        BinOp::Sub => fits(x - y),
        BinOp::Mul => fits(trunc_div(x * y, SCALE as int)),
        BinOp::Div => y != 0 && fits(trunc_div(x * SCALE, y)),
        BinOp::CountLess => count_cmp(a.values@, y, true, len as int) <= MAX_WHOLE,
        BinOp::CountGreater => count_cmp(a.values@, y, false, len as int) <= MAX_WHOLE,
        BinOp::HyperAdd => fits(x + y * len) && forall|i: int| 0 <= i < len ==> fits(#[trigger] shifted(a.values@[i].m as int, y, true)),
        BinOp::HyperSub => fits(x - y * len) && forall|i: int| 0 <= i < len ==> fits(#[trigger] shifted(a.values@[i].m as int, y, false)),
        _ => true,
    }
}

/// Whether a prefix operator gives a result on this operand.
pub open spec fn prefix_ok(op: PreOp, a: RogCons) -> bool {
    let x = a.value.m as int;
    match op {
        PreOp::Neg => fits(-x),
        PreOp::Ceil => fits(ceil_m(x)),
        PreOp::Round => fits(round_m(x)),
        PreOp::Floor => fits(floor_m(x)),
        PreOp::Not => true,
    }
}

/// Two results that read the same: number, values, trace, flag and count.
pub open spec fn same_view(a: RogCons, b: RogCons) -> bool {
    a.value == b.value && a.values@ == b.values@ && a.text@ == b.text@ && a.boolean == b.boolean
        && a.dice == b.dice
}

/// Whether an expression rolls no dice.
pub open spec fn dice_free(e: Expr) -> bool
    decreases e,
{
    match e {
        Expr::Dice(_) | Expr::Fate(_) => false,
        Expr::Group(a) | Expr::Prefix(_, a) | Expr::Percent(a) => dice_free(*a),
        Expr::Binary(_, a, b) => dice_free(*a) && dice_free(*b),
        _ => true,
    }
}

/// A roll whose largest possible sum is a number the library holds.
pub open spec fn roll_fits(d: Dice) -> bool {
    d.sides * (d.count * (MAX_CHAIN * (MAX_REROLLS + 1))) <= MAX_WHOLE
}

/// Expressions whose evaluation is sure to succeed: one without dice that
/// some evaluation succeeds on, a dice term that passes its checks and
/// whose sum always fits, and fate dice of at most `MAX_COUNT`.
pub open spec fn eval_sure(e: Expr, attrs: Attrs) -> bool {
    match e {
        Expr::Dice(t) => resolve_spec(t, attrs) matches Ok(d) && d.check() is None && roll_fits(d),
        Expr::Fate(t) => dice_count_of_fate(t@, attrs) matches Ok(n) && n <= MAX_COUNT,
        _ => dice_free(e) && can_eval(e, attrs),
    }
}

/// Whether some evaluation of `e` against `attrs` gives a result.
pub open spec fn can_eval(e: Expr, attrs: Attrs) -> bool {
    exists|t: Trace| #[trigger] derives(e, attrs, t)
}

proof fn lemma_binary_ok(op: BinOp, a: RogCons, b: RogCons, c: RogCons)
    requires
        binary_result(op, a, b, c),
    ensures
        binary_ok(op, a, b),
{
    match op {
        BinOp::CountLess | BinOp::CountGreater => {
            let n = count_cmp(a.values@, b.value.m as int, op == BinOp::CountLess, a.values@.len() as int);
            assert(n <= MAX_WHOLE) by (nonlinear_arith)
                requires
                    n * 1000000 <= 0x7fff_ffff_ffff_ffff;
        },
        BinOp::HyperAdd | BinOp::HyperSub => {
            let add = op == BinOp::HyperAdd;
            assert forall|i: int| 0 <= i < a.values@.len() implies fits(#[trigger] shifted(a.values@[i].m as int, b.value.m as int, add)) by {
                assert(c.values@[i].m == shifted(a.values@[i].m as int, b.value.m as int, add));
            }
        },
        _ => {},
    }
}

proof fn lemma_binary_det(op: BinOp, a1: RogCons, b1: RogCons, c1: RogCons, a2: RogCons, b2: RogCons, c2: RogCons)
    requires
        binary_result(op, a1, b1, c1),
        binary_result(op, a2, b2, c2),
        same_view(a1, a2),
        same_view(b1, b2),
    ensures
        same_view(c1, c2),
{
    match op {
        BinOp::HyperAdd | BinOp::HyperSub => {
            assert forall|i: int| 0 <= i < c1.values@.len() implies c1.values@[i] == c2.values@[i] by {
                assert(c1.values@[i].m == c2.values@[i].m);
            }
            assert(c1.values@ =~= c2.values@);
            assert(c1.value.m == c2.value.m);
        },
        _ => {
            assert(c1.value.m == c2.value.m);
        },
    }
}

/// Two evaluations of an expression without dice read the same.
pub proof fn lemma_eval_det(e: Expr, attrs: Attrs, t1: Trace, t2: Trace)
    requires
        dice_free(e),
        derives(e, attrs, t1),
        derives(e, attrs, t2),
    ensures
        same_view(t1.root(), t2.root()),
    decreases e,
{
    match e {
        Expr::Binary(op, a, b) => {
            lemma_eval_det(*a, attrs, *t1->Two_1, *t2->Two_1);
            lemma_eval_det(*b, attrs, *t1->Two_2, *t2->Two_2);
            lemma_binary_det(op, t1->Two_1.root(), t1->Two_2.root(), t1.root(), t2->Two_1.root(), t2->Two_2.root(), t2.root());
        },
        Expr::Group(a) => {
            lemma_eval_det(*a, attrs, *t1->One_1, *t2->One_1);
        },
        Expr::Prefix(op, a) => {
            lemma_eval_det(*a, attrs, *t1->One_1, *t2->One_1);
            assert(t1.root().value.m == t2.root().value.m);
        },
        Expr::Percent(a) => {
            lemma_eval_det(*a, attrs, *t1->One_1, *t2->One_1);
            assert(t1.root().value.m == t2.root().value.m);
        },
        _ => {
            assert(t1.root().value.m == t2.root().value.m);
        },
    }
}

fn apply_binary(op: BinOp, a: RogCons, b: RogCons) -> (r: Result<RogCons, RogErr>)
    ensures
        r matches Ok(c) ==> binary_result(op, a, b, c),
        binary_ok(op, a, b) ==> r is Ok,
        r matches Err(e) ==> e == RogErr::Overflow || e == RogErr::DivisionByZero,
{
    match op {
        BinOp::And => Ok(a.and(b)),
        BinOp::Or => Ok(a.or(b)),
        BinOp::Less => Ok(a.less(b)),
        BinOp::LessEq => Ok(a.less_eq(b)),
        BinOp::Greater => Ok(a.greater(b)),
        BinOp::GreaterEq => Ok(a.greater_eq(b)),
        BinOp::Eq => Ok(a.eq(b)),
        BinOp::CountLess => a.count_less(b),
        BinOp::CountGreater => a.count_greater(b),
        BinOp::Add => a.add(b),
        BinOp::Sub => a.sub(b),
        BinOp::Mul => a.mul(b),
        BinOp::Div => a.div(b),
        BinOp::HyperAdd => a.hyper_add(b),
        BinOp::HyperSub => a.hyper_sub(b),
    }
}

fn apply_prefix(op: PreOp, a: RogCons) -> (r: Result<RogCons, RogErr>)
    ensures
        r matches Ok(c) ==> prefix_result(op, a, c),
        r matches Err(e) ==> e == RogErr::Overflow,
        prefix_ok(op, a) ==> r is Ok,
{
    match op {
        PreOp::Neg => a.neg(),
        PreOp::Not => Ok(a.not()),
        PreOp::Ceil => a.ceil(),
        PreOp::Round => a.round(),
        PreOp::Floor => a.floor(),
    }
}

fn parenthesize(c: RogCons) -> (r: RogCons)
    ensures
        r.value == c.value,
        r.values@ == c.values@,
        r.boolean == c.boolean,
        r.dice == c.dice,
        r.text@ == "("@ + c.text@ + ")"@,
{
    let mut text = String::new();
    push_str(&mut text, "(");
    push_str(&mut text, c.text.as_str());
    push_str(&mut text, ")");
    assert(text@ =~= "("@ + c.text@ + ")"@);
    RogCons { value: c.value, values: c.values, text, boolean: c.boolean, dice: c.dice }
}

/// The errors that evaluating an expression can give: any but the limits
/// of a batch and of the attribute store, and the grammar mismatch.
pub open spec fn eval_error(e: RogErr) -> bool {
    e != RogErr::LineMax && e != RogErr::AttributeMax && e != RogErr::UnknownError
}

/// Evaluates an expression: numbers and attributes are read, dice are
/// rolled, and operands are combined left to right.
pub fn eval(e: &Expr, attrs: &Attrs) -> (r: Result<RogCons, RogErr>)
    requires
        attrs.wf(),
    ensures
        r matches Ok(c) ==> evals(*e, *attrs, c),
        r matches Err(err) ==> eval_error(err),
        dice_free(*e) && can_eval(*e, *attrs) ==> r is Ok,
        eval_sure(*e, *attrs) ==> r is Ok,
    decreases e,
{
    match e {
        Expr::Number(t) => match parse_number(t.as_str(), attrs) {
            Ok(v) => {
                let c = RogCons::from_number(v, String::new());
                assert(derives(*e, *attrs, Trace::Leaf(c)));
                Ok(c)
            },
            Err(err) => Err(err),
        },
        Expr::Attribute(t) => match parse_number(t.as_str(), attrs) {
            Ok(v) => {
                let mut text = String::new();
                push_str(&mut text, "[");
                let n = v.text();
                push_str(&mut text, n.as_str());
                push_str(&mut text, "] ");
                push_str(&mut text, t.as_str());
                proof {
                    reveal_strlit("[");
                }
                let c = RogCons::from_number(v, text);
                assert(derives(*e, *attrs, Trace::Leaf(c)));
                Ok(c)
            },
            Err(err) => Err(err),
        },
        Expr::Group(x) => match eval(x, attrs) {
            Ok(c) => {
                let ghost g = c;
                let r = parenthesize(c);
                proof {
                    let k = choose|k: Trace| #[trigger] derives(**x, *attrs, k) && k.root() == g;
                    assert(derives(*e, *attrs, Trace::One(r, Box::new(k))));
                }
                Ok(r)
            },
            Err(err) => {
                proof {
                    if dice_free(*e) && can_eval(*e, *attrs) {
                        let t = choose|t: Trace| #[trigger] derives(*e, *attrs, t);
                        assert(derives(**x, *attrs, *t->One_1));
                    }
                }
                Err(err)
            },
        },
        Expr::Dice(t) => match resolve_dice(t, attrs) {
            Ok(d) => {
                let r = d.roll();
                proof {
                    if r is Ok {
                        assert(derives(*e, *attrs, Trace::Leaf(r->Ok_0)));
                    }
                }
                r
            },
            Err(err) => Err(err),
        },
        Expr::Fate(t) => {
            let count: usize = if t.as_str().is_empty() {
                1
            } else {
                match parse_count(t, attrs) {
                    Ok(n) => n,
                    Err(err) => {
                        return Err(err);
                    },
                }
            };
            let fd = FateDice { count };
            let r = fd.roll();
            proof {
                if r is Ok {
                    assert(dice_count_of_fate(t@, *attrs) == Ok::<int, RogErr>(count as int));
                    assert(fd == FateDice { count: (count as int) as usize });
                    assert(derives(*e, *attrs, Trace::Leaf(r->Ok_0)));
                }
            }
            r
        },
        Expr::Binary(op, a, b) => {
            let ca = match eval(a, attrs) {
                Ok(c) => c,
                Err(err) => {
                    proof {
                        if dice_free(*e) && can_eval(*e, *attrs) {
                            let t = choose|t: Trace| #[trigger] derives(*e, *attrs, t);
                            assert(derives(**a, *attrs, *t->Two_1));
                        }
                    }
                    return Err(err);
                },
            };
            let cb = match eval(b, attrs) {
                Ok(c) => c,
                Err(err) => {
                    proof {
                        if dice_free(*e) && can_eval(*e, *attrs) {
                            let t = choose|t: Trace| #[trigger] derives(*e, *attrs, t);
                            assert(derives(**b, *attrs, *t->Two_2));
                        }
                    }
                    return Err(err);
                },
            };
            let ghost (ga, gb) = (ca, cb);
            proof {
                if dice_free(*e) && can_eval(*e, *attrs) {
                    let t = choose|t: Trace| #[trigger] derives(*e, *attrs, t);
                    let ka = choose|k: Trace| #[trigger] derives(**a, *attrs, k) && k.root() == ga;
                    let kb = choose|k: Trace| #[trigger] derives(**b, *attrs, k) && k.root() == gb;
                    lemma_eval_det(**a, *attrs, ka, *t->Two_1);
                    lemma_eval_det(**b, *attrs, kb, *t->Two_2);
                    lemma_binary_ok(*op, t->Two_1.root(), t->Two_2.root(), t.root());
                    assert(binary_ok(*op, ga, gb));
                }
            }
            let r = apply_binary(*op, ca, cb);
            proof {
                if r is Ok {
                    let ka = choose|k: Trace| #[trigger] derives(**a, *attrs, k) && k.root() == ga;
                    let kb = choose|k: Trace| #[trigger] derives(**b, *attrs, k) && k.root() == gb;
                    assert(derives(*e, *attrs, Trace::Two(r->Ok_0, Box::new(ka), Box::new(kb))));
                }
            }
            r
        },
        Expr::Prefix(op, a) => {
            let ca = match eval(a, attrs) {
                Ok(c) => c,
                Err(err) => {
                    proof {
                        if dice_free(*e) && can_eval(*e, *attrs) {
                            let t = choose|t: Trace| #[trigger] derives(*e, *attrs, t);
                            assert(derives(**a, *attrs, *t->One_1));
                        }
                    }
                    return Err(err);
                },
            };
            let ghost ga = ca;
            proof {
                if dice_free(*e) && can_eval(*e, *attrs) {
                    let t = choose|t: Trace| #[trigger] derives(*e, *attrs, t);
                    let ka = choose|k: Trace| #[trigger] derives(**a, *attrs, k) && k.root() == ga;
                    lemma_eval_det(**a, *attrs, ka, *t->One_1);
                    assert(prefix_ok(*op, ga));
                }
            }
            let r = apply_prefix(*op, ca);
            proof {
                if r is Ok {
                    let k = choose|k: Trace| #[trigger] derives(**a, *attrs, k) && k.root() == ga;
                    assert(derives(*e, *attrs, Trace::One(r->Ok_0, Box::new(k))));
                }
            }
            r
        },
        Expr::Percent(a) => {
            let ca = match eval(a, attrs) {
                Ok(c) => c,
                Err(err) => {
                    proof {
                        if dice_free(*e) && can_eval(*e, *attrs) {
                            let t = choose|t: Trace| #[trigger] derives(*e, *attrs, t);
                            assert(derives(**a, *attrs, *t->One_1));
                        }
                    }
                    return Err(err);
                },
            };
            let ghost ga = ca;
            let r = ca.percent();
            proof {
                let k = choose|k: Trace| #[trigger] derives(**a, *attrs, k) && k.root() == ga;
                assert(derives(*e, *attrs, Trace::One(r, Box::new(k))));
            }
            Ok(r)
        },
    }
}

/// A dice term with an empty count rolls one die.
pub proof fn lemma_empty_count(t: DiceTerm, attrs: Attrs)
    requires
        t.count@.len() == 0,
        resolve_spec(t, attrs) is Ok,
    ensures
        resolve_spec(t, attrs)->Ok_0.count == 1,
{
}

} // verus!
