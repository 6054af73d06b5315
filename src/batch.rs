//! Assignments to attributes, lines with repeat counts and comments, and
//! batches of lines that share one attribute store.

use vstd::prelude::*;
use crate::text::{push_str, trim, trimmed};
use crate::attrs::{Attrs, MAX_ATTRS};
use crate::cons::{dice_sum, RogCons};
use crate::dice::RogErr;
use crate::eval::{can_eval, derives, dice_free, eval, eval_error, eval_sure, evals, lemma_eval_det, Expr, Trace};
use crate::num::{fits, num_text, trunc_div, Num, SCALE};
use crate::token::{all_digits, chars_of, digit_of, digits_value, is_digit, lemma_digits_mono};

verus! {

/// The most results that one batch may give.
pub const MAX_LINES: usize = 100;

/// Assignment operators: `=`, `+=`, `-=`, `*=`, `/=`.
#[derive(Clone, Copy, Debug, PartialEq, Eq, Structural)]
pub enum AssignOp {
    Assign,
    Add,
    Sub,
    Mul,
    Div,
}

/// The left side of an assignment: the attribute's name, the operator and
/// the operator as written.
pub struct Target {
    pub key: String,
    pub op: AssignOp,
    pub op_text: String,
}

/// An optional assignment, and the expression that gives its value.
pub struct Assignment {
    pub target: Option<Target>,
    pub expr: Expr,
}

/// A line: how many times to evaluate it, an optional comment, and its
/// assignment.
pub struct Line {
    pub repeat: usize,
    pub comment: Option<String>,
    pub assignment: Assignment,
}

/// The value that an attribute takes: the old value combined with `v`, or,
/// for a new attribute, `v` for `=` and `+=`, `-v` for `-=`, zero for `*=`
/// and `/=`.
pub open spec fn assigned_value(op: AssignOp, old: Option<Num>, v: int) -> Result<int, RogErr> {
    let checked = |x: int| if fits(x) { Ok(x) } else { Err(RogErr::Overflow) };
    match old {
        Some(o) => match op {
            AssignOp::Assign => Ok(v),
            AssignOp::Add => checked(o.m + v),
            AssignOp::Sub => checked(o.m - v),
            AssignOp::Mul => checked(trunc_div(o.m * v, SCALE as int)),
            AssignOp::Div => if v == 0 {
                Err(RogErr::DivisionByZero)
            } else {
                checked(trunc_div(o.m * SCALE, v))
            },
        },
        None => match op {
            AssignOp::Assign => Ok(v),
            AssignOp::Add => Ok(v),
            AssignOp::Sub => checked(-v),
            AssignOp::Mul => Ok(0),
            AssignOp::Div => Ok(0),
        },
    }
}

/// The operator as shown in a trace.
pub open spec fn op_shown(t: Target) -> Seq<char> {
    if t.op == AssignOp::Mul { ":\\*"@ } else { t.op_text@ }
}

/// The shown line of a result: its number, or success or failure.
pub open spec fn line_text(boolean: bool, m: int, text: Seq<char>) -> Seq<char> {
    let shown = if boolean {
        if m != 0 { "**Sucesso!**"@ } else { "**Falha!**"@ }
    } else {
        num_text(m)
    };
    "` "@ + shown + " ` ⟵ "@ + text
}

/// Whether a name declares a new attribute.
pub open spec fn declares(key: Seq<char>) -> bool {
    key.len() > 0 && key[0] == '$'
}

/// What an assignment of the evaluated result `c` gives: an error, or the
/// shown result and the new value of the attribute (none without target).
pub open spec fn assign_spec(target: Option<Target>, attrs: Attrs, c: RogCons) -> Result<(int, Seq<char>), RogErr> {
    match target {
        None => Ok((c.value.m as int, line_text(c.boolean, c.value.m as int, c.text@))),
        Some(t) => {
            let old = attrs.get_spec(t.key@);
            if !declares(t.key@) && old is None {
                Err(RogErr::InvalidAttribute)
            } else {
                match assigned_value(t.op, old, c.value.m as int) {
                    Err(e) => Err(e),
                    Ok(v) => if old is None && attrs.len_spec() >= MAX_ATTRS {
                        Err(RogErr::AttributeMax)
                    } else {
                        Ok((v, line_text(c.boolean, v, t.key@ + " "@ + op_shown(t) + " "@ + c.text@)))
                    },
                }
            }
        },
    }
}

/// `out` and `after` are what assigning `c` to `target` in `before` gives.
pub open spec fn assign_ok(target: Option<Target>, before: Attrs, c: RogCons, out: RogCons, after: Attrs) -> bool {
    match assign_spec(target, before, c) {
        Err(_) => false,
        Ok((v, text)) => {
            &&& out.value.m == v
            &&& out.text@ == text
            &&& out.values@ == c.values@
            &&& out.boolean == c.boolean
            &&& match target {
                None => out.dice == c.dice && after == before,
                Some(t) => out.dice == dice_sum(c.dice, 1) && after.len_spec() == before.len_spec()
                    + (if before.get_spec(t.key@) is None { 1int } else { 0int }) && forall|k: Seq<char>|
                    #[trigger] after.get_spec(k) == if k == t.key@ {
                        Some(Num { m: v as i64 })
                    } else {
                        before.get_spec(k)
                    },
            }
        },
    }
}

/// How many results the first `n` lines give.
pub open spec fn total_repeat(lines: Seq<Line>, n: int) -> int
    decreases n,
{
    if n <= 0 {
        0
    } else {
        total_repeat(lines, n - 1) + lines[n - 1].repeat
    }
}

fn combine(op: AssignOp, old: Option<Num>, v: Num) -> (r: Result<Num, RogErr>)
    ensures
        match assigned_value(op, old, v.m as int) {
            Ok(m) => r matches Ok(n) && n.m == m,
            Err(e) => r == Err::<Num, RogErr>(e),
        },
{
    match old {
        Some(o) => match op {
            AssignOp::Assign => Ok(v),
            AssignOp::Add => match o.add(v) {
                Some(n) => Ok(n),
                None => Err(RogErr::Overflow),
            },
            AssignOp::Sub => match o.sub(v) {
                Some(n) => Ok(n),
                None => Err(RogErr::Overflow),
            },
            AssignOp::Mul => match o.mul(v) {
                Some(n) => Ok(n),
                None => Err(RogErr::Overflow),
            },
            AssignOp::Div => if v.is_zero() {
                Err(RogErr::DivisionByZero)
            } else {
                match o.div(v) {
                    Some(n) => Ok(n),
                    None => Err(RogErr::Overflow),
                }
            },
        },
        None => match op {
            AssignOp::Assign => Ok(v),
            AssignOp::Add => Ok(v),
            AssignOp::Sub => match v.neg() {
                Some(n) => Ok(n),
                None => Err(RogErr::Overflow),
            },
            AssignOp::Mul => Ok(Num::zero()),
            AssignOp::Div => Ok(Num::zero()),
        },
    }
}

fn line_string(boolean: bool, v: Num, text: &str) -> (r: String)
    ensures
        r@ == line_text(boolean, v.m as int, text@),
{
    let mut s = String::new();
    push_str(&mut s, "` ");
    if boolean {
        if !v.is_zero() {
            push_str(&mut s, "**Sucesso!**");
        } else {
            push_str(&mut s, "**Falha!**");
        }
    } else {
        let t = v.text();
        push_str(&mut s, t.as_str());
    }
    push_str(&mut s, " ` ⟵ ");
    push_str(&mut s, text);
    s
}

fn starts_with_sigil(key: &String) -> (r: bool)
    ensures
        r == declares(key@),
{
    let s = key.as_str();
    if s.unicode_len() == 0 {
        false
    } else {
        s.get_char(0) == '$'
    }
}

/// Assigns the evaluated result `c`: the target attribute must exist unless
/// its name starts with `$`; it takes its new value, and the result shows
/// the assignment. Without a target the result is only shown. On an error
/// the store is left as it was.
pub fn assign(target: &Option<Target>, attrs: &mut Attrs, c: RogCons) -> (r: Result<RogCons, RogErr>)
    requires
        old(attrs).wf(),
    ensures
        final(attrs).wf(),
        match assign_spec(*target, *old(attrs), c) {
            Err(e) => r == Err::<RogCons, RogErr>(e) && *final(attrs) == *old(attrs),
            Ok(_) => r matches Ok(out) && assign_ok(*target, *old(attrs), c, out, *final(attrs)),
        },
{
    match target {
        None => {
            let text = line_string(c.boolean, c.value, c.text.as_str());
            Ok(RogCons { value: c.value, values: c.values, text, boolean: c.boolean, dice: c.dice })
        },
        Some(t) => {
            let old = attrs.get(&t.key);
            if !starts_with_sigil(&t.key) && old.is_none() {
                return Err(RogErr::InvalidAttribute);
            }
            let v = match combine(t.op, old, c.value) {
                Ok(v) => v,
                Err(e) => {
                    return Err(e);
                },
            };
            match attrs.set(t.key.clone(), v) {
                Ok(()) => {},
                Err(e) => {
                    return Err(e);
                },
            }
            let mut text = String::new();
            push_str(&mut text, t.key.as_str());
            push_str(&mut text, " ");
            if t.op == AssignOp::Mul {
                push_str(&mut text, ":\\*");
            } else {
                push_str(&mut text, t.op_text.as_str());
            }
            push_str(&mut text, " ");
            push_str(&mut text, c.text.as_str());
            let shown = line_string(c.boolean, v, text.as_str());
            Ok(RogCons { value: v, values: c.values, text: shown, boolean: c.boolean, dice: c.dice.saturating_add(1) })
        },
    }
}

/// Whether some evaluation of the assignment against `st` succeeds.
pub open spec fn assign_can(a: Assignment, st: Attrs) -> bool {
    exists|c: RogCons| #[trigger] evals(a.expr, st, c) && assign_spec(a.target, st, c) is Ok
}

/// Whether evaluating the assignment against `st` can fail with `e`: the
/// evaluation fails with it, or the assignment of a result does.
pub open spec fn assign_fails(a: Assignment, st: Attrs, e: RogErr) -> bool {
    eval_error(e) || exists|c: RogCons| #[trigger] evals(a.expr, st, c)
        && assign_spec(a.target, st, c) == Err::<(int, Seq<char>), RogErr>(e)
}

/// Whether evaluating the assignment against `st` is sure to succeed: no
/// target and an expression sure to evaluate, or no dice and some
/// evaluation that succeeds.
pub open spec fn assign_sure(a: Assignment, st: Attrs) -> bool {
    (a.target is None && eval_sure(a.expr, st)) || (dice_free(a.expr) && assign_can(a, st))
}

/// A line that is sure to succeed against every store, as `1`, `d20` or
/// `$A := 5` are.
pub open spec fn line_total(line: Line) -> bool {
    forall|st: Attrs| st.wf() ==> #[trigger] assign_sure(line.assignment, st)
}

/// Evaluates the expression of an assignment, then assigns its result. On
/// an error the store is left as it was.
pub fn run_assignment(a: &Assignment, attrs: &mut Attrs) -> (r: Result<RogCons, RogErr>)
    requires
        old(attrs).wf(),
    ensures
        final(attrs).wf(),
        r is Err ==> *final(attrs) == *old(attrs),
        r matches Ok(out) ==> exists|c: RogCons| #[trigger] evals(a.expr, *old(attrs), c)
            && assign_ok(a.target, *old(attrs), c, out, *final(attrs)),
        r matches Err(err) ==> err != RogErr::LineMax && err != RogErr::UnknownError,
        assign_sure(*a, *old(attrs)) ==> r is Ok,
        r matches Err(err) ==> assign_fails(*a, *old(attrs), err),
{
    proof {
        if dice_free(a.expr) && assign_can(*a, *attrs) {
            let c = choose|c: RogCons| #[trigger] evals(a.expr, *attrs, c) && assign_spec(a.target, *attrs, c) is Ok;
            let t = choose|t: Trace| #[trigger] derives(a.expr, *attrs, t) && t.root() == c;
            assert(can_eval(a.expr, *attrs));
        }
    }
    let c = match eval(&a.expr, attrs) {
        Ok(c) => c,
        Err(e) => {
            return Err(e);
        },
    };
    let ghost g = c;
    proof {
        if dice_free(a.expr) && assign_can(*a, *attrs) {
            let c0 = choose|c: RogCons| #[trigger] evals(a.expr, *attrs, c) && assign_spec(a.target, *attrs, c) is Ok;
            let t0 = choose|t: Trace| #[trigger] derives(a.expr, *attrs, t) && t.root() == c0;
            let t1 = choose|t: Trace| #[trigger] derives(a.expr, *attrs, t) && t.root() == g;
            lemma_eval_det(a.expr, *attrs, t0, t1);
            assert(assign_spec(a.target, *attrs, g) == assign_spec(a.target, *attrs, c0));
        }
    }
    let r = assign(&a.target, attrs, c);
    assert(evals(a.expr, *old(attrs), g));
    proof {
        if r is Err && !eval_error(r->Err_0) {
            assert(assign_spec(a.target, *old(attrs), g) == Err::<(int, Seq<char>), RogErr>(r->Err_0));
        }
    }
    r
}

/// A trace with the comment of a line before it, trimmed and in bold.
pub open spec fn commented(comment: Option<String>, text: Seq<char>) -> Seq<char> {
    match comment {
        Some(k) => "**"@ + trimmed(k@) + "** "@ + text,
        None => text,
    }
}

/// `out` is a result of one evaluation of `line` that turns the store
/// `before` into `after`.
pub open spec fn line_step(line: Line, before: Attrs, out: RogCons, after: Attrs) -> bool {
    exists|c: RogCons, o: RogCons| #[trigger] evals(line.assignment.expr, before, c)
        && #[trigger] assign_ok(line.assignment.target, before, c, o, after) && out.value == o.value
        && out.values@ == o.values@ && out.boolean == o.boolean && out.dice == o.dice && out.text@
        == commented(line.comment, o.text@)
}

/// The store states that `n` evaluations of a line went through, from
/// `before` to `after`, each giving the result that `buf` holds from `at`.
pub open spec fn line_run(line: Line, states: Seq<Attrs>, buf: Seq<RogCons>, at: int, n: int) -> bool {
    &&& states.len() == n + 1
    &&& forall|j: int| 0 <= j < n ==> line_step(line, #[trigger] states[j], buf[at + j], states[j + 1])
}

/// Evaluates a line `repeat` times against the shared store, each result
/// after the comment in bold when there is one, and appends the results.
/// Fails with `LineMax` when the buffer already holds `MAX_LINES` results.
pub fn run_line(line: &Line, attrs: &mut Attrs, buf: &mut Vec<RogCons>) -> (r: Result<(), RogErr>)
    requires
        old(attrs).wf(),
        old(buf)@.len() <= MAX_LINES,
    ensures
        final(attrs).wf(),
        final(buf)@.len() <= MAX_LINES,
        final(buf)@.len() >= old(buf)@.len(),
        final(buf)@.subrange(0, old(buf)@.len() as int) == old(buf)@,
        r is Ok ==> final(buf)@.len() == old(buf)@.len() + line.repeat,
        exists|states: Seq<Attrs>| #[trigger] line_run(*line, states, final(buf)@, old(buf)@.len() as int,
            final(buf)@.len() - old(buf)@.len()) && states[0] == *old(attrs)
            && states[final(buf)@.len() - old(buf)@.len()] == *final(attrs),
        old(buf)@.len() + line.repeat > MAX_LINES ==> r is Err,
        old(buf)@.len() == MAX_LINES && line.repeat > 0 ==> r == Err::<(), RogErr>(RogErr::LineMax),
        r == Err::<(), RogErr>(RogErr::LineMax) ==> old(buf)@.len() + line.repeat > MAX_LINES
            && final(buf)@.len() == MAX_LINES,
        r matches Err(e) ==> e != RogErr::UnknownError,
        line_total(*line) && old(buf)@.len() + line.repeat <= MAX_LINES ==> r is Ok,
        r matches Err(e) ==> (e != RogErr::LineMax ==> assign_fails(line.assignment, *final(attrs), e)),
{
    let ghost start = buf@;
    let ghost mut states: Seq<Attrs> = seq![*attrs];
    let mut i: usize = 0;
    while i < line.repeat
        invariant
            attrs.wf(),
            i <= line.repeat,
            buf@.len() == start.len() + i,
            buf@.len() <= MAX_LINES,
            buf@.subrange(0, start.len() as int) == start,
            start == old(buf)@,
            line_run(*line, states, buf@, start.len() as int, i as int),
            states[0] == *old(attrs),
            states[i as int] == *attrs,
        decreases line.repeat - i,
    {
        if buf.len() >= MAX_LINES {
            assert(line_run(*line, states, buf@, start.len() as int, buf@.len() - start.len()));
            return Err(RogErr::LineMax);
        }
        let ghost st = *attrs;
        let mut out = match run_assignment(&line.assignment, attrs) {
            Ok(c) => c,
            Err(e) => {
                assert(line_run(*line, states, buf@, start.len() as int, buf@.len() - start.len()));
                return Err(e);
            },
        };
        let ghost o = out;
        match &line.comment {
            Some(c) => {
                let mut text = String::new();
                push_str(&mut text, "**");
                let t = trim(c.as_str());
                push_str(&mut text, t.as_str());
                push_str(&mut text, "** ");
                push_str(&mut text, out.text.as_str());
                assert(text@ =~= commented(line.comment, o.text@));
                out.text = text;
            },
            None => {},
        }
        let ghost before = buf@;
        buf.push(out);
        proof {
            let c = choose|c: RogCons| #[trigger] evals(line.assignment.expr, st, c)
                && assign_ok(line.assignment.target, st, c, o, *attrs);
            assert(line_step(*line, st, buf@[start.len() + i], *attrs));
            let ns = states.push(*attrs);
            assert forall|j: int| 0 <= j < i + 1 implies line_step(*line, #[trigger] ns[j], buf@[start.len() + j], ns[j + 1]) by {
                if j < i {
                    assert(buf@[start.len() + j] == before[start.len() + j]);
                    assert(ns[j] == states[j] && ns[j + 1] == states[j + 1]);
                }
            }
            states = ns;
        }
        assert(buf@.subrange(0, start.len() as int) =~= before.subrange(0, start.len() as int));
        i += 1;
    }
    assert(line_run(*line, states, buf@, start.len() as int, buf@.len() - start.len()));
    Ok(())
}

/// The evaluations of `line` turn `before` into `after`, and its results
/// stand in `buf` from `at`.
pub open spec fn line_done(line: Line, before: Attrs, buf: Seq<RogCons>, at: int, after: Attrs) -> bool {
    exists|states: Seq<Attrs>| #[trigger] line_run(line, states, buf, at, line.repeat as int)
        && states[0] == before && states[line.repeat as int] == after
}

/// The store states that the first `n` lines went through, each line's
/// results standing in `buf` after those of the lines before it.
pub open spec fn batch_run(lines: Seq<Line>, states: Seq<Attrs>, buf: Seq<RogCons>, n: int) -> bool {
    &&& states.len() == n + 1
    &&& forall|k: int| 0 <= k < n ==> line_done(lines[k], #[trigger] states[k], buf, total_repeat(lines, k), states[k + 1])
}

proof fn lemma_line_done_extend(line: Line, before: Attrs, b1: Seq<RogCons>, b2: Seq<RogCons>, at: int, after: Attrs)
    requires
        line_done(line, before, b1, at, after),
        0 <= at,
        at + line.repeat <= b1.len() <= b2.len(),
        b2.subrange(0, b1.len() as int) == b1,
    ensures
        line_done(line, before, b2, at, after),
{
    let states = choose|states: Seq<Attrs>| #[trigger] line_run(line, states, b1, at, line.repeat as int)
        && states[0] == before && states[line.repeat as int] == after;
    assert forall|j: int| 0 <= j < line.repeat implies line_step(line, #[trigger] states[j], b2[at + j], states[j + 1]) by {
        assert(b2[at + j] == b2.subrange(0, b1.len() as int)[at + j]);
        assert(line_step(line, states[j], b1[at + j], states[j + 1]));
    }
    assert(line_run(line, states, b2, at, line.repeat as int));
}

proof fn lemma_total_repeat_nonneg(lines: Seq<Line>, k: int)
    ensures
        total_repeat(lines, k) >= 0,
    decreases k,
{
    if k > 0 {
        lemma_total_repeat_nonneg(lines, k - 1);
    }
}

proof fn lemma_total_repeat_mono(lines: Seq<Line>, k: int, n: int)
    requires
        0 <= k <= n <= lines.len(),
    ensures
        total_repeat(lines, k) + (if k < n { lines[k].repeat as int } else { 0 }) <= total_repeat(lines, n),
    decreases n - k,
{
    if k < n {
        if k + 1 < n {
            lemma_total_repeat_mono(lines, k + 1, n);
        }
    }
}

proof fn lemma_batch_extend(lines: Seq<Line>, states: Seq<Attrs>, b0: Seq<RogCons>, b1: Seq<RogCons>, i: int, after: Attrs)
    requires
        0 <= i < lines.len(),
        batch_run(lines, states, b0, i),
        line_done(lines[i], states[i], b1, total_repeat(lines, i), after),
        b0.len() == total_repeat(lines, i),
        b1.len() >= b0.len(),
        b1.subrange(0, b0.len() as int) == b0,
    ensures
        batch_run(lines, states.push(after), b1, i + 1),
{
    let ns = states.push(after);
    assert forall|k: int| 0 <= k < i + 1 implies line_done(lines[k], #[trigger] ns[k], b1, total_repeat(lines, k), ns[k + 1]) by {
        if k < i {
            assert(ns[k] == states[k] && ns[k + 1] == states[k + 1]);
            lemma_total_repeat_mono(lines, k, i);
            lemma_total_repeat_nonneg(lines, k);
            lemma_line_done_extend(lines[k], states[k], b0, b1, total_repeat(lines, k), states[k + 1]);
        }
    }
}

/// Evaluates the lines in order against one store and one buffer of
/// results, and gives the results and the final store; the first error
/// ends the batch.
pub fn evaluate(lines: &Vec<Line>, initial: Attrs) -> (r: Result<(Vec<RogCons>, Attrs), RogErr>)
    requires
        initial.wf(),
    ensures
        r matches Ok((buf, a)) ==> a.wf() && a.len_spec() <= MAX_ATTRS && buf@.len() == total_repeat(lines@, lines@.len() as int)
            && buf@.len() <= MAX_LINES,
        r is Ok ==> exists|states: Seq<Attrs>| #[trigger] batch_run(lines@, states, r->Ok_0.0@, lines@.len() as int)
            && states[0] == initial && states[lines@.len() as int] == r->Ok_0.1,
        total_repeat(lines@, lines@.len() as int) > MAX_LINES ==> r is Err,
        r == Err::<(Vec<RogCons>, Attrs), RogErr>(RogErr::LineMax) ==> total_repeat(lines@, lines@.len() as int) > MAX_LINES,
        r matches Err(e) ==> e != RogErr::UnknownError,
        (forall|k: int| 0 <= k < lines@.len() ==> line_total(#[trigger] lines@[k]))
            && total_repeat(lines@, lines@.len() as int) <= MAX_LINES ==> r is Ok,
        r matches Err(e) ==> (e != RogErr::LineMax ==> exists|k: int, st: Attrs| 0 <= k < lines@.len()
            && #[trigger] assign_fails(lines@[k].assignment, st, e)),
{
    let ghost first = initial;
    let mut attrs = initial;
    let mut buf: Vec<RogCons> = Vec::new();
    let ghost mut states: Seq<Attrs> = seq![attrs];
    let mut i: usize = 0;
    while i < lines.len()
        invariant
            attrs.wf(),
            i <= lines@.len(),
            buf@.len() == total_repeat(lines@, i as int),
            buf@.len() <= MAX_LINES,
            batch_run(lines@, states, buf@, i as int),
            states[0] == first,
            states[i as int] == attrs,
        decreases lines@.len() - i,
    {
        let ghost (b0, a0) = (buf@, attrs);
        match run_line(&lines[i], &mut attrs, &mut buf) {
            Ok(()) => {},
            Err(e) => {
                proof {
                    lemma_total_repeat_mono(lines@, i as int, lines@.len() as int);
                    if e != RogErr::LineMax {
                        assert(assign_fails(lines@[i as int].assignment, attrs, e));
                    }
                }
                return Err(e);
            },
        }
        proof {
            assert(line_done(lines@[i as int], a0, buf@, total_repeat(lines@, i as int), attrs));
            lemma_batch_extend(lines@, states, b0, buf@, i as int, attrs);
            states = states.push(attrs);
        }
        i += 1;
    }
    assert(batch_run(lines@, states, buf@, lines@.len() as int));
    let res: Result<(Vec<RogCons>, Attrs), RogErr> = Ok((buf, attrs));
    assert(batch_run(lines@, states, res->Ok_0.0@, lines@.len() as int));
    res
}

/// The count that a repeat literal writes: digits, with an optional `#`
/// after them; `UnknownError` for anything else or a count too large.
pub open spec fn repeat_value(s: Seq<char>) -> Result<int, RogErr> {
    let d = if s.len() > 0 && s.last() == '#' { s.drop_last() } else { s };
    if d.len() > 0 && all_digits(d) && digits_value(d) <= usize::MAX {
        Ok(digits_value(d))
    } else {
        Err(RogErr::UnknownError)
    }
}

/// Reads a repeat literal such as `5#`.
pub fn repeat_count(literal: &str) -> (r: Result<usize, RogErr>)
    ensures
        match repeat_value(literal@) {
            Ok(n) => r == Ok::<usize, RogErr>(n as usize),
            Err(e) => r == Err::<usize, RogErr>(e),
        },
{
    let s = chars_of(literal);
    let end: usize = if s.len() > 0 && s[s.len() - 1] == '#' { s.len() - 1 } else { s.len() };
    let ghost d = if s@.len() > 0 && s@.last() == '#' { s@.drop_last() } else { s@ };
    assert(d =~= s@.subrange(0, end as int));
    if end == 0 {
        return Err(RogErr::UnknownError);
    }
    let mut i: usize = 0;
    while i < end
        invariant
            i <= end <= s@.len(),
            d == s@.subrange(0, end as int),
            s@ == literal@,
            d == (if s@.len() > 0 && s@.last() == '#' { s@.drop_last() } else { s@ }),
            forall|j: int| 0 <= j < i ==> is_digit(#[trigger] s@[j]),
        decreases end - i,
    {
        if !('0' <= s[i] && s[i] <= '9') {
            assert(!is_digit(d[i as int]));
            return Err(RogErr::UnknownError);
        }
        i += 1;
    }
    assert(all_digits(d));
    let mut n: usize = 0;
    let mut i: usize = 0;
    while i < end
        invariant
            i <= end <= s@.len(),
            d == s@.subrange(0, end as int),
            all_digits(d),
            d.len() == end,
            s@ == literal@,
            d == (if s@.len() > 0 && s@.last() == '#' { s@.drop_last() } else { s@ }),

            n == digits_value(d.subrange(0, i as int)),
        decreases end - i,
    {
        assert(is_digit(d[i as int]));
        let v = digit_of(s[i]);
        assert(d.subrange(0, i + 1).drop_last() =~= d.subrange(0, i as int));
        if n > (usize::MAX - v as usize) / 10 {
            proof {
                lemma_digits_mono(d, i + 1);
                assert(n * 10 + v > usize::MAX) by (nonlinear_arith)
                    requires
                        n > (usize::MAX - v) / 10,
                        v < 10;
            }
            return Err(RogErr::UnknownError);
        }
        n = n * 10 + v as usize;
        i += 1;
    }
    assert(d.subrange(0, end as int) =~= d);
    Ok(n)
}

/// The pieces of `s` between newlines (one more than there are newlines).
pub open spec fn pieces(s: Seq<char>) -> Seq<Seq<char>>
    decreases s.len(),
{
    if s.len() == 0 {
        seq![Seq::<char>::empty()]
    } else {
        let p = pieces(s.drop_last());
        if s.last() == '\n' {
            p.push(Seq::<char>::empty())
        } else {
            p.update(p.len() - 1, p.last().push(s.last()))
        }
    }
}

/// The pieces, trimmed, without those that are left empty.
pub open spec fn kept_lines(ps: Seq<Seq<char>>) -> Seq<Seq<char>>
    decreases ps.len(),
{
    if ps.len() == 0 {
        Seq::empty()
    } else {
        let k = kept_lines(ps.drop_last());
        let t = trimmed(ps.last());
        if t.len() == 0 { k } else { k.push(t) }
    }
}

proof fn lemma_pieces_len(s: Seq<char>)
    ensures
        pieces(s).len() >= 1,
    decreases s.len(),
{
    if s.len() > 0 {
        lemma_pieces_len(s.drop_last());
    }
}

/// The lines of an input: split at each newline, each trimmed, the empty
/// ones left out.
pub fn split_lines(input: &str) -> (r: Vec<String>)
    ensures
        r@.map_values(|x: String| x@) == kept_lines(pieces(input@)),
{
    let s = chars_of(input);
    let mut parts: Vec<String> = Vec::new();
    let mut start: usize = 0;
    let mut i: usize = 0;
    assert(s@.subrange(0, 0) =~= Seq::<char>::empty());
    assert(parts@.map_values(|x: String| x@).push(s@.subrange(0, 0)) =~= pieces(s@.subrange(0, 0)));
    while i < s.len()
        invariant
            s@ == input@,
            start <= i <= s@.len(),
            parts@.map_values(|x: String| x@).push(s@.subrange(start as int, i as int)) == pieces(s@.subrange(0, i as int)),
        decreases s@.len() - i,
    {
        let ghost before = parts@.map_values(|x: String| x@);
        proof {
            lemma_pieces_len(s@.subrange(0, i as int));
            assert(s@.subrange(0, i + 1).drop_last() =~= s@.subrange(0, i as int));
        }
        if s[i] == '\n' {
            let piece = String::from_str(input.substring_char(start, i));
            parts.push(piece);
            assert(parts@.map_values(|x: String| x@) =~= before.push(s@.subrange(start as int, i as int)));
            start = i + 1;
            assert(s@.subrange(0, i + 1).last() == '\n');
            assert(s@.subrange(start as int, i + 1) =~= Seq::<char>::empty());
            assert(pieces(s@.subrange(0, i + 1)) == pieces(s@.subrange(0, i as int)).push(Seq::<char>::empty()));
            assert(parts@.map_values(|x: String| x@).push(s@.subrange(start as int, i + 1)) =~= pieces(s@.subrange(0, i + 1)));
        } else {
            assert(s@.subrange(0, i + 1).last() == s@[i as int]);
            assert(s@.subrange(start as int, i + 1) =~= s@.subrange(start as int, i as int).push(s@[i as int]));
            assert(before.push(s@.subrange(start as int, i + 1)) =~= pieces(s@.subrange(0, i + 1)));
        }
        i += 1;
    }
    let last = String::from_str(input.substring_char(start, s.len()));
    parts.push(last);
    assert(s@.subrange(0, s@.len() as int) =~= s@);
    let ghost ps = parts@.map_values(|x: String| x@);
    assert(ps == pieces(input@));
    let mut r: Vec<String> = Vec::new();
    let mut k: usize = 0;
    while k < parts.len()
        invariant
            k <= parts@.len(),
            ps == parts@.map_values(|x: String| x@),
            r@.map_values(|x: String| x@) == kept_lines(ps.subrange(0, k as int)),
        decreases parts@.len() - k,
    {
        let ghost before = r@.map_values(|x: String| x@);
        assert(ps.subrange(0, k + 1).drop_last() =~= ps.subrange(0, k as int));
        let t = trim(parts[k].as_str());
        if t.as_str().unicode_len() > 0 {
            r.push(t);
            assert(r@.map_values(|x: String| x@) =~= before.push(trimmed(ps[k as int])));
        }
        k += 1;
    }
    assert(ps.subrange(0, ps.len() as int) =~= ps);
    r
}

} // verus!
