//! The value that every evaluation step produces, and its operators.

use vstd::prelude::*;
use crate::text::push_str;
use crate::dice::RogErr;
use crate::num::{ceil_m, fits, floor_m, num_text, round_m, rounded_text, trunc_div, Num, MAX_WHOLE, SCALE};

verus! {

/// A result: a number, the individual values behind it, a readable trace,
/// whether it reads as success or failure, and how many dice went into it.
pub struct RogCons {
    pub value: Num,
    pub values: Vec<Num>,
    pub text: String,
    pub boolean: bool,
    pub dice: u32,
}

/// Dice counts add, stopping at the largest `u32`.
pub open spec fn dice_sum(a: u32, b: u32) -> u32 {
    if a + b > u32::MAX { u32::MAX } else { (a + b) as u32 }
}

/// One for true, zero for false.
pub open spec fn flag(b: bool) -> int {
    if b { SCALE as int } else { 0 }
}

/// How many of the first `n` values are at most `x` (`below`) or at
/// least `x` (otherwise).
pub open spec fn count_cmp(s: Seq<Num>, x: int, below: bool, n: int) -> int
    decreases n,
{
    if n <= 0 {
        0
    } else {
        count_cmp(s, x, below, n - 1) + if (below && s[n - 1].m <= x) || (!below && s[n - 1].m
            >= x) {
            1int
        } else {
            0int
        }
    }
}

/// The first `n` values, each rounded to a whole number, joined by commas.
pub open spec fn rounded_list_text(s: Seq<Num>, n: int) -> Seq<char>
    decreases n,
{
    if n <= 0 {
        Seq::empty()
    } else if n == 1 {
        rounded_text(s[0].m as int)
    } else {
        rounded_list_text(s, n - 1) + seq![',', ' '] + rounded_text(s[n - 1].m as int)
    }
}

/// `c` is a scalar result: its only value is its number.
pub open spec fn scalar(c: RogCons, m: int, text: Seq<char>, boolean: bool, dice: u32) -> bool {
    &&& c.value.m == m
    &&& c.values@ == seq![c.value]
    &&& c.text@ == text
    &&& c.boolean == boolean
    &&& c.dice == dice
}

/// The line that shows a final result: its number, or success or failure.
pub open spec fn render_text(c: RogCons) -> Seq<char> {
    let shown = if c.boolean {
        if c.value.m != 0 { "Sucesso!"@ } else { "Falha!"@ }
    } else {
        num_text(c.value.m as int)
    };
    "` "@ + shown + " ` ⟵ "@ + c.text@
}

fn infix(a: &String, op: &str, b: &String) -> (r: String)
    ensures
        r@ == a@ + op@ + b@,
{
    let mut t = String::new();
    push_str(&mut t, a.as_str());
    push_str(&mut t, op);
    push_str(&mut t, b.as_str());
    t
}

fn single(v: Num) -> (r: Vec<Num>)
    ensures
        r@ == seq![v],
{
    let mut r: Vec<Num> = Vec::new();
    r.push(v);
    r
}

fn flag_num(b: bool) -> (r: Num)
    ensures
        r.m == flag(b),
{
    if b { Num::one() } else { Num::zero() }
}

impl RogCons {
    /// A result of one number; an empty trace becomes the number's text.
    pub fn from_number(value: Num, text: String) -> (r: Self)
        ensures
            scalar(r, value.m as int, if text@.len() == 0 { num_text(value.m as int) } else { text@ }, false, 0),
    {
        let t = if text.as_str().is_empty() {
            value.text()
        } else {
            text
        };
        RogCons { value, values: single(value), text: t, boolean: false, dice: 0 }
    }

    fn arith(v: Option<Num>, text: String, dice: u32, e: RogErr) -> (r: Result<Self, RogErr>)
        ensures
            match v {
                Some(n) => r matches Ok(c) && scalar(c, n.m as int, text@, false, dice),
                None => r == Err::<Self, RogErr>(e),
            },
    {
        match v {
            Some(n) => Ok(RogCons { value: n, values: single(n), text, boolean: false, dice }),
            None => Err(e),
        }
    }

    fn truth(b: bool, text: String, dice: u32) -> (r: Self)
        ensures
            scalar(r, flag(b), text@, true, dice),
    {
        let n = flag_num(b);
        RogCons { value: n, values: single(n), text, boolean: true, dice }
    }

    /// The sum; `Overflow` when it cannot be held.
    pub fn add(self, rhs: Self) -> (r: Result<Self, RogErr>)
        ensures
            r is Err <==> !fits(self.value.m + rhs.value.m),
            r matches Err(e) ==> e == RogErr::Overflow,
            r matches Ok(c) ==> scalar(c, self.value.m + rhs.value.m, self.text@ + " + "@ + rhs.text@,
                false, dice_sum(self.dice, rhs.dice)),
    {
        Self::arith(self.value.add(rhs.value), infix(&self.text, " + ", &rhs.text),
            self.dice.saturating_add(rhs.dice), RogErr::Overflow)
    }

    /// The difference; `Overflow` when it cannot be held.
    pub fn sub(self, rhs: Self) -> (r: Result<Self, RogErr>)
        ensures
            r is Err <==> !fits(self.value.m - rhs.value.m),
            r matches Err(e) ==> e == RogErr::Overflow,
            r matches Ok(c) ==> scalar(c, self.value.m - rhs.value.m, self.text@ + " - "@ + rhs.text@,
                false, dice_sum(self.dice, rhs.dice)),
    {
        Self::arith(self.value.sub(rhs.value), infix(&self.text, " - ", &rhs.text),
            self.dice.saturating_add(rhs.dice), RogErr::Overflow)
    }

    /// The product; `Overflow` when it cannot be held.
    pub fn mul(self, rhs: Self) -> (r: Result<Self, RogErr>)
        ensures
            r is Err <==> !fits(trunc_div(self.value.m * rhs.value.m, SCALE as int)),
            r matches Err(e) ==> e == RogErr::Overflow,
            r matches Ok(c) ==> scalar(c, trunc_div(self.value.m * rhs.value.m, SCALE as int),
                self.text@ + " * "@ + rhs.text@, false, dice_sum(self.dice, rhs.dice)),
    {
        Self::arith(self.value.mul(rhs.value), infix(&self.text, " * ", &rhs.text),
            self.dice.saturating_add(rhs.dice), RogErr::Overflow)
    }

    /// The quotient; `DivisionByZero` for a zero divisor, `Overflow` when
    /// it cannot be held.
    pub fn div(self, rhs: Self) -> (r: Result<Self, RogErr>)
        ensures
            r matches Err(e) ==> if rhs.value.m == 0 { e == RogErr::DivisionByZero } else {
                e == RogErr::Overflow && !fits(trunc_div(self.value.m * SCALE, rhs.value.m as int))
            },
            r is Ok <==> rhs.value.m != 0 && fits(trunc_div(self.value.m * SCALE, rhs.value.m as int)),
            r matches Ok(c) ==> scalar(c, trunc_div(self.value.m * SCALE, rhs.value.m as int),
                self.text@ + " / "@ + rhs.text@, false, dice_sum(self.dice, rhs.dice)),
    {
        let e = if rhs.value.is_zero() { RogErr::DivisionByZero } else { RogErr::Overflow };
        Self::arith(self.value.div(rhs.value), infix(&self.text, " / ", &rhs.text),
            self.dice.saturating_add(rhs.dice), e)
    }

    /// True when both sides are nonzero; both are always evaluated.
    pub fn and(self, rhs: Self) -> (r: Self)
        ensures
            scalar(r, flag(self.value.m != 0 && rhs.value.m != 0), self.text@ + " & "@ + rhs.text@,
                true, dice_sum(self.dice, rhs.dice)),
    {
        let b = !self.value.is_zero() && !rhs.value.is_zero();
        Self::truth(b, infix(&self.text, " & ", &rhs.text), self.dice.saturating_add(rhs.dice))
    }

    /// True when either side is nonzero; both are always evaluated.
    pub fn or(self, rhs: Self) -> (r: Self)
        ensures
            scalar(r, flag(self.value.m != 0 || rhs.value.m != 0), self.text@ + " | "@ + rhs.text@,
                true, dice_sum(self.dice, rhs.dice)),
    {
        let b = !self.value.is_zero() || !rhs.value.is_zero();
        Self::truth(b, infix(&self.text, " | ", &rhs.text), self.dice.saturating_add(rhs.dice))
    }

    pub fn less(self, rhs: Self) -> (r: Self)
        ensures
            scalar(r, flag(self.value.m < rhs.value.m), self.text@ + " < "@ + rhs.text@, true,
                dice_sum(self.dice, rhs.dice)),
    {
        Self::truth(self.value.m < rhs.value.m, infix(&self.text, " < ", &rhs.text),
            self.dice.saturating_add(rhs.dice))
    }

    pub fn less_eq(self, rhs: Self) -> (r: Self)
        ensures
            scalar(r, flag(self.value.m <= rhs.value.m), self.text@ + " <= "@ + rhs.text@, true,
                dice_sum(self.dice, rhs.dice)),
    {
        Self::truth(self.value.m <= rhs.value.m, infix(&self.text, " <= ", &rhs.text),
            self.dice.saturating_add(rhs.dice))
    }

    pub fn greater(self, rhs: Self) -> (r: Self)
        ensures
            scalar(r, flag(self.value.m > rhs.value.m), self.text@ + " > "@ + rhs.text@, true,
                dice_sum(self.dice, rhs.dice)),
    {
        Self::truth(self.value.m > rhs.value.m, infix(&self.text, " > ", &rhs.text),
            self.dice.saturating_add(rhs.dice))
    }

    pub fn greater_eq(self, rhs: Self) -> (r: Self)
        ensures
            scalar(r, flag(self.value.m >= rhs.value.m), self.text@ + " >= "@ + rhs.text@, true,
                dice_sum(self.dice, rhs.dice)),
    {
        Self::truth(self.value.m >= rhs.value.m, infix(&self.text, " >= ", &rhs.text),
            self.dice.saturating_add(rhs.dice))
    }

    pub fn eq(self, rhs: Self) -> (r: Self)
        ensures
            scalar(r, flag(self.value.m == rhs.value.m), self.text@ + " = "@ + rhs.text@, true,
                dice_sum(self.dice, rhs.dice)),
    {
        Self::truth(self.value.m == rhs.value.m, infix(&self.text, " = ", &rhs.text),
            self.dice.saturating_add(rhs.dice))
    }

    fn count_where(&self, x: Num, below: bool) -> (r: u64)
        ensures
            r == count_cmp(self.values@, x.m as int, below, self.values@.len() as int),
    {
        let mut n: u64 = 0;
        let mut i: usize = 0;
        while i < self.values.len()
            invariant
                i <= self.values@.len(),
                n == count_cmp(self.values@, x.m as int, below, i as int),
                n <= i,
            decreases self.values@.len() - i,
        {
            let v = self.values[i];
            if (below && v.m <= x.m) || (!below && v.m >= x.m) {
                n = n + 1;
            }
            i += 1;
        }
        n
    }

    /// How many of the left side's values are at most the right side.
    pub fn count_less(self, rhs: Self) -> (r: Result<Self, RogErr>)
        ensures
            ({
                let n = count_cmp(self.values@, rhs.value.m as int, true, self.values@.len() as int);
                &&& r is Err <==> n > MAX_WHOLE
                &&& r matches Err(e) ==> e == RogErr::Overflow
                &&& r matches Ok(c) ==> scalar(c, n * SCALE, self.text@ + " << "@ + rhs.text@,
                    false, dice_sum(self.dice, rhs.dice))
            }),
    {
        let n = self.count_where(rhs.value, true);
        let text = infix(&self.text, " << ", &rhs.text);
        if n > MAX_WHOLE {
            return Err(RogErr::Overflow);
        }
        let v = Num::whole(n as i64);
        Ok(RogCons { value: v, values: single(v), text, boolean: false, dice: self.dice.saturating_add(rhs.dice) })
    }

    /// How many of the left side's values are at least the right side.
    pub fn count_greater(self, rhs: Self) -> (r: Result<Self, RogErr>)
        ensures
            ({
                let n = count_cmp(self.values@, rhs.value.m as int, false, self.values@.len() as int);
                &&& r is Err <==> n > MAX_WHOLE
                &&& r matches Err(e) ==> e == RogErr::Overflow
                &&& r matches Ok(c) ==> scalar(c, n * SCALE, self.text@ + " >> "@ + rhs.text@,
                    false, dice_sum(self.dice, rhs.dice))
            }),
    {
        let n = self.count_where(rhs.value, false);
        let text = infix(&self.text, " >> ", &rhs.text);
        if n > MAX_WHOLE {
            return Err(RogErr::Overflow);
        }
        let v = Num::whole(n as i64);
        Ok(RogCons { value: v, values: single(v), text, boolean: false, dice: self.dice.saturating_add(rhs.dice) })
    }

    /// The negation; it reads as success or failure if the operand did.
    pub fn neg(self) -> (r: Result<Self, RogErr>)
        ensures
            r is Err <==> self.value.m == i64::MIN,
            r matches Err(e) ==> e == RogErr::Overflow,
            r matches Ok(c) ==> scalar(c, -self.value.m, "-"@ + self.text@, self.boolean, self.dice),
    {
        let mut t = String::new();
        push_str(&mut t, "-");
        push_str(&mut t, self.text.as_str());
        match self.value.neg() {
            Some(n) => Ok(RogCons { value: n, values: single(n), text: t, boolean: self.boolean, dice: self.dice }),
            None => Err(RogErr::Overflow),
        }
    }

    /// True when the operand is zero.
    pub fn not(self) -> (r: Self)
        ensures
            scalar(r, flag(self.value.m == 0), "!"@ + self.text@, true, self.dice),
    {
        let mut t = String::new();
        push_str(&mut t, "!");
        push_str(&mut t, self.text.as_str());
        Self::truth(self.value.is_zero(), t, self.dice)
    }

    /// A hundredth of the value.
    pub fn percent(self) -> (r: Self)
        ensures
            scalar(r, trunc_div(self.value.m as int, 100), self.text@ + "%"@, false, self.dice),
    {
        let mut t = self.text;
        push_str(&mut t, "%");
        let n = self.value.percent();
        RogCons { value: n, values: single(n), text: t, boolean: false, dice: self.dice }
    }

    /// The value rounded up.
    pub fn ceil(self) -> (r: Result<Self, RogErr>)
        ensures
            r is Err <==> !fits(ceil_m(self.value.m as int)),
            r matches Err(e) ==> e == RogErr::Overflow,
            r matches Ok(c) ==> scalar(c, ceil_m(self.value.m as int), "^"@ + self.text@, false, self.dice),
    {
        let mut t = String::new();
        push_str(&mut t, "^");
        push_str(&mut t, self.text.as_str());
        Self::arith(self.value.ceil(), t, self.dice, RogErr::Overflow)
    }

    /// The value rounded to the nearest whole number, halves away from zero.
    pub fn round(self) -> (r: Result<Self, RogErr>)
        ensures
            r is Err <==> !fits(round_m(self.value.m as int)),
            r matches Err(e) ==> e == RogErr::Overflow,
            r matches Ok(c) ==> scalar(c, round_m(self.value.m as int), "~"@ + self.text@, false, self.dice),
    {
        let mut t = String::new();
        push_str(&mut t, "~");
        push_str(&mut t, self.text.as_str());
        Self::arith(self.value.round(), t, self.dice, RogErr::Overflow)
    }

    /// The value rounded down.
    pub fn floor(self) -> (r: Result<Self, RogErr>)
        ensures
            r is Err <==> !fits(floor_m(self.value.m as int)),
            r matches Err(e) ==> e == RogErr::Overflow,
            r matches Ok(c) ==> scalar(c, floor_m(self.value.m as int), "_"@ + self.text@, false, self.dice),
    {
        let mut t = String::new();
        push_str(&mut t, "_");
        push_str(&mut t, self.text.as_str());
        Self::arith(self.value.floor(), t, self.dice, RogErr::Overflow)
    }

    /// The line that shows this result: "` 7 ` ⟵ trace", or success or
    /// failure in place of the number when it reads as a truth value.
    pub fn to_string(&self) -> (r: String)
        ensures
            r@ == render_text(*self),
    {
        let mut s = String::new();
        push_str(&mut s, "` ");
        if self.boolean {
            if !self.value.is_zero() {
                push_str(&mut s, "Sucesso!");
            } else {
                push_str(&mut s, "Falha!");
            }
        } else {
            let t = self.value.text();
            push_str(&mut s, t.as_str());
        }
        push_str(&mut s, " ` ⟵ ");
        push_str(&mut s, self.text.as_str());
        s
    }
    fn spread(self, rhs: Self, add: bool) -> (r: Result<Self, RogErr>)
        ensures
            spread_post(self, rhs, add, r, if add { " ++ "@ } else { " -- "@ }),
    {
        let len = self.values.len();
        proof {
            lemma_spread_bound(rhs.value.m as int, len as int);
        }
        let shift: i128 = (rhs.value.m as i128) * (len as i128);
        let total: i128 = if add { self.value.m as i128 + shift } else { self.value.m as i128 - shift };
        if total < i64::MIN as i128 || total > i64::MAX as i128 {
            return Err(RogErr::Overflow);
        }
        let mut values: Vec<Num> = Vec::new();
        let mut i: usize = 0;
        while i < len
            invariant
                len == self.values@.len(),
                i <= len,
                values@.len() == i,
                forall|j: int| 0 <= j < i ==> fits(shifted(self.values@[j].m as int, rhs.value.m as int, add)),
                forall|j: int| 0 <= j < i ==> #[trigger] values@[j].m == shifted(self.values@[j].m as int, rhs.value.m as int, add),
            decreases len - i,
        {
            let v = self.values[i];
            let n = if add { v.add(rhs.value) } else { v.sub(rhs.value) };
            match n {
                Some(n) => values.push(n),
                None => {
                    assert(!fits(shifted(self.values@[i as int].m as int, rhs.value.m as int, add)));
                    return Err(RogErr::Overflow);
                },
            }
            i += 1;
        }
        let mut text = String::new();
        push_str(&mut text, "[");
        let mut k: usize = 0;
        while k < len
            invariant
                len == values@.len(),
                k <= len,
                text@ == "["@ + rounded_list_text(values@, k as int),
            decreases len - k,
        {
            if k > 0 {
                push_str(&mut text, ", ");
            }
            let t = values[k].rounded_text();
            push_str(&mut text, t.as_str());
            proof {
                reveal_strlit(", ");
                if k == 0 {
                    assert(text@ =~= "["@ + rounded_list_text(values@, 1));
                } else {
                    assert(text@ =~= "["@ + rounded_list_text(values@, k + 1));
                }
            }
            k += 1;
        }
        push_str(&mut text, "] ⟵ ");
        push_str(&mut text, self.text.as_str());
        push_str(&mut text, if add { " ++ " } else { " -- " });
        push_str(&mut text, rhs.text.as_str());
        Ok(RogCons { value: Num { m: total as i64 }, values, text, boolean: false, dice: self.dice.saturating_add(rhs.dice) })
    }

    /// Adds the right side to every value of the left one: each value
    /// grows by it, and the number by it once per value.
    pub fn hyper_add(self, rhs: Self) -> (r: Result<Self, RogErr>)
        ensures
            spread_post(self, rhs, true, r, " ++ "@),
    {
        self.spread(rhs, true)
    }

    /// Subtracts the right side from every value of the left one: each
    /// value shrinks by it, and the number by it once per value.
    pub fn hyper_sub(self, rhs: Self) -> (r: Result<Self, RogErr>)
        ensures
            spread_post(self, rhs, false, r, " -- "@),
    {
        self.spread(rhs, false)
    }
}

/// `v` moved by `r`: up when `add`, else down.
pub open spec fn shifted(v: int, r: int, add: bool) -> int {
    if add { v + r } else { v - r }
}

/// What adding (or subtracting) `rhs` to every value of `lhs` gives: each
/// value moves by the right side's number, the left number moves by it
/// once per value; `Overflow` exactly when a number cannot be held.
pub open spec fn spread_post(lhs: RogCons, rhs: RogCons, add: bool, r: Result<RogCons, RogErr>, op: Seq<char>) -> bool {
    let len = lhs.values@.len();
    let ok = fits(shifted(lhs.value.m as int, rhs.value.m * len, add))
        && forall|i: int| 0 <= i < len ==> fits(#[trigger] shifted(lhs.values@[i].m as int, rhs.value.m as int, add));
    &&& r is Ok <==> ok
    &&& r matches Err(e) ==> e == RogErr::Overflow
    &&& r matches Ok(c) ==> {
        &&& c.value.m == shifted(lhs.value.m as int, rhs.value.m * len, add)
        &&& c.values@.len() == len
        &&& forall|i: int| 0 <= i < len ==> #[trigger] c.values@[i].m == shifted(lhs.values@[i].m as int, rhs.value.m as int, add)
        &&& c.text@ == "["@ + rounded_list_text(c.values@, len as int) + "] ⟵ "@ + lhs.text@ + op + rhs.text@
        &&& !c.boolean
        &&& c.dice == dice_sum(lhs.dice, rhs.dice)
    }
}

proof fn lemma_spread_bound(m: int, len: int)
    by (nonlinear_arith)
    requires
        i64::MIN <= m <= i64::MAX,
        0 <= len <= usize::MAX,
    ensures
        -0x7fff_ffff_ffff_ffff_8000_0000_0000_0000 <= m * len <= 0x7fff_ffff_ffff_ffff_8000_0000_0000_0000,
{
}

/// Adding `r` to each of the `m` values of a result raises each value by
/// `r` and the number by `r * m`.
pub proof fn lemma_hyper_add(lhs: RogCons, rhs: RogCons, c: RogCons)
    requires
        spread_post(lhs, rhs, true, Ok(c), " ++ "@),
    ensures
        c.value.m == lhs.value.m + rhs.value.m * lhs.values@.len(),
        c.values@.len() == lhs.values@.len(),
        forall|i: int| 0 <= i < lhs.values@.len() ==> #[trigger] c.values@[i].m == lhs.values@[i].m
            + rhs.value.m,
{
}

} // verus!
