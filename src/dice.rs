//! Polyhedral and fate dice, and the modifiers of a roll.

use vstd::prelude::*;
use crate::cons::RogCons;
use crate::num::{Num, MAX_WHOLE, SCALE};
use crate::text::{nat_text, push_nat, push_str};

verus! {

/// The most dice that one term may roll.
pub const MAX_COUNT: usize = 100;

/// The most rolls in the chain of one exploding die.
pub const MAX_CHAIN: usize = 100;

/// The most batches that a reroll on uniform dice appends.
pub const MAX_REROLLS: usize = 100;

/// What can go wrong while evaluating.
#[derive(Clone, Copy, Debug, PartialEq, Eq, Structural)]
pub enum RogErr {
    CountMax,
    CountMin,
    ExplodeMin,
    ExplodeChanceHigh,
    InvalidAttribute,
    AttributeMax,
    LineMax,
    UnknownError,
    MalformedNumber,
    Overflow,
    DivisionByZero,
}

/// When a die explodes: never, at its highest face, or at a given threshold.
#[derive(Clone, Copy, Debug, PartialEq, Eq, Structural)]
pub enum Explode {
    NoExplode,
    Explode(usize),
    Default,
}

/// Which dice a keep/drop modifier selects by rank, or a critical threshold.
#[derive(Clone, Copy, Debug, PartialEq, Eq, Structural)]
pub enum KeepDrop {
    KeepHigh,
    KeepLow,
    DropHigh,
    DropLow,
    Crit,
}

/// The modifiers of a roll.
#[derive(Clone, Copy, Debug)]
pub struct RollConfig {
    pub keep_drop: Option<(KeepDrop, usize)>,
    pub explode: Explode,
    pub aro: bool,
    pub sort: bool,
}

/// `count` dice of `sides` faces.
#[derive(Clone, Copy, Debug)]
pub struct Dice {
    pub count: usize,
    pub sides: usize,
    pub config: RollConfig,
}

/// `count` fate dice.
#[derive(Clone, Copy, Debug, PartialEq, Eq, Structural)]
pub struct FateDice {
    pub count: usize,
}

pub open spec fn kind_text(k: KeepDrop) -> Seq<char> {
    match k {
        KeepDrop::Crit => seq!['c'],
        KeepDrop::DropHigh => seq!['d', 'h'],
        KeepDrop::DropLow => seq!['d'],
        KeepDrop::KeepHigh => seq!['k'],
        KeepDrop::KeepLow => seq!['k', 'l'],
    }
}

pub open spec fn explode_text(e: Explode) -> Seq<char> {
    match e {
        Explode::NoExplode => Seq::<char>::empty(),
        Explode::Default => seq!['!'],
        Explode::Explode(x) => seq!['!'] + nat_text(x as nat),
    }
}

pub open spec fn keep_drop_text(kd: Option<(KeepDrop, usize)>) -> Seq<char> {
    match kd {
        Some((kind, n)) => kind_text(kind) + nat_text(n as nat),
        None => Seq::<char>::empty(),
    }
}

/// The suffix that names the modifiers of a roll.
pub open spec fn config_text(c: RollConfig) -> Seq<char> {
    let a = if c.aro { seq!['a', 'r', 'o'] } else { Seq::<char>::empty() };
    let s = if c.sort { seq!['s'] } else { Seq::<char>::empty() };
    explode_text(c.explode) + keep_drop_text(c.keep_drop) + a + s
}

fn push_explode(s: &mut String, e: Explode)
    ensures
        final(s)@ == old(s)@ + explode_text(e),
{
    proof {
        reveal_strlit("!");
    }
    match e {
        Explode::NoExplode => {},
        Explode::Default => {
            s.append("!");
        },
        Explode::Explode(x) => {
            s.append("!");
            push_nat(s, x as u64);
        },
    }
}

fn push_keep_drop(s: &mut String, kd: Option<(KeepDrop, usize)>)
    ensures
        final(s)@ == old(s)@ + keep_drop_text(kd),
{
    match kd {
        Some((kind, n)) => {
            let t: &str = match kind {
                KeepDrop::Crit => "c",
                KeepDrop::DropHigh => "dh",
                KeepDrop::DropLow => "d",
                KeepDrop::KeepHigh => "k",
                KeepDrop::KeepLow => "kl",
            };
            proof {
                reveal_strlit("c");
                reveal_strlit("dh");
                reveal_strlit("d");
                reveal_strlit("k");
                reveal_strlit("kl");
            }
            assert(t@ == kind_text(kind));
            s.append(t);
            push_nat(s, n as u64);
        },
        None => {},
    }
}

/// `k`, at most `count`.
pub open spec fn clamp_k(k: int, count: int) -> int {
    if k > count { count } else { k }
}

/// The ranks (in descending order) of the dice that count toward the sum:
/// those `i` with `start <= i < end`.
pub open spec fn kept_bounds(kd: Option<(KeepDrop, usize)>, count: int, len: int) -> (int, int) {
    match kd {
        None => (0, len),
        Some((kind, k)) => {
            let c = clamp_k(k as int, count);
            match kind {
                KeepDrop::KeepHigh => (0, c),
                KeepDrop::KeepLow => (len - c, len),
                KeepDrop::DropHigh => (c, len),
                KeepDrop::DropLow => (0, len - c),
                KeepDrop::Crit => (0, len),
            }
        }
    }
}

/// How many of `len` ranks lie in `[start, end)`.
pub open spec fn kept_count(b: (int, int), len: int) -> int {
    let lo = if b.0 < 0 { 0 } else { b.0 };
    let hi = if b.1 > len { len } else { b.1 };
    if hi > lo { hi - lo } else { 0 }
}

/// The face at or above which a die is shown as critical.
pub open spec fn crit_of(d: Dice) -> int {
    match d.config.keep_drop {
        Some((KeepDrop::Crit, k)) => k as int,
        _ => d.sides as int,
    }
}

pub open spec fn bold(t: Seq<char>) -> Seq<char> {
    seq!['*', '*'] + t + seq!['*', '*']
}

pub open spec fn strike(t: Seq<char>) -> Seq<char> {
    seq!['~', '~'] + t + seq!['~', '~']
}

/// One die in a trace: bold when it is a one or critical, struck through
/// when it does not count.
pub open spec fn die_text(v: int, crit: int, kept: bool) -> Seq<char> {
    let t = nat_text(v as nat);
    let b = if v == 1 || v >= crit { bold(t) } else { t };
    if kept { b } else { strike(b) }
}

pub open spec fn in_bounds(i: int, b: (int, int)) -> bool {
    b.0 <= i < b.1
}

/// The first `n` dice of a trace, joined by commas.
pub open spec fn dice_list_text(s: Seq<u64>, crit: int, b: (int, int), n: int) -> Seq<char>
    decreases n,
{
    if n <= 0 {
        Seq::empty()
    } else if n == 1 {
        die_text(s[0] as int, crit, in_bounds(0, b))
    } else {
        dice_list_text(s, crit, b, n - 1) + seq![',', ' '] + die_text(
            s[n - 1] as int,
            crit,
            in_bounds(n - 1, b),
        )
    }
}

/// The sum of `s[lo..hi]`.
pub open spec fn sum_range(s: Seq<u64>, lo: int, hi: int) -> int
    decreases hi - lo,
{
    if hi <= lo {
        0
    } else {
        sum_range(s, lo, hi - 1) + s[hi - 1]
    }
}

/// Whether `s` runs from highest to lowest.
pub open spec fn is_desc(s: Seq<u64>) -> bool {
    forall|i: int, j: int| 0 <= i < j < s.len() ==> s[i] >= s[j]
}

/// The sum of a prefix is at most the sum of a longer one.
pub proof fn lemma_sum_mono(s: Seq<u64>, lo: int, mid: int, hi: int)
    requires
        0 <= lo <= mid <= hi <= s.len(),
    ensures
        sum_range(s, lo, mid) <= sum_range(s, lo, hi),
    decreases hi - mid,
{
    if mid < hi {
        lemma_sum_mono(s, lo, mid, hi - 1);
    }
}

proof fn lemma_sum_bound(s: Seq<u64>, lo: int, hi: int, m: int)
    requires
        0 <= lo <= hi <= s.len(),
        forall|i: int| 0 <= i < s.len() ==> #[trigger] s[i] <= m,
    ensures
        sum_range(s, lo, hi) <= (hi - lo) * m,
    decreases hi - lo,
{
    if lo < hi {
        lemma_sum_bound(s, lo, hi - 1, m);
        assert(s[hi - 1] <= m);
        assert((hi - 1 - lo) * m + m == (hi - lo) * m) by (nonlinear_arith);
    } else {
        assert((hi - lo) * m == 0) by (nonlinear_arith)
            requires
                hi == lo;
    }
}

proof fn lemma_concat_len(d: Dice, cs: Seq<Seq<u64>>)
    requires
        forall|i: int| 0 <= i < cs.len() ==> chain_ok(d, #[trigger] cs[i]),
    ensures
        concat(cs).len() <= cs.len() * MAX_CHAIN,
    decreases cs.len(),
{
    if cs.len() > 0 {
        lemma_concat_len(d, cs.drop_last());
        assert(chain_ok(d, cs[cs.len() - 1]));
    }
}

/// The trace of a roll whose dice show `shown` in display order.
pub open spec fn dice_text(d: Dice, shown: Seq<u64>) -> Seq<char> {
    let b = kept_bounds(d.config.keep_drop, d.count as int, shown.len() as int);
    seq!['['] + dice_list_text(shown, crit_of(d), b, shown.len() as int) + seq![']', ' ']
        + nat_text(d.count as nat) + seq!['d'] + nat_text(d.sides as nat) + config_text(d.config)
}

/// `c` is the result of the roll `d` whose dice show `shown` in display
/// order: the sum of the kept dice, every die's value, and the trace.
pub open spec fn tallied(d: Dice, shown: Seq<u64>, c: RogCons) -> bool {
    let b = kept_bounds(d.config.keep_drop, d.count as int, shown.len() as int);
    &&& c.values@.len() == shown.len()
    &&& forall|i: int| 0 <= i < shown.len() ==> #[trigger] c.values@[i].m == shown[i] * SCALE
    &&& c.value.m == sum_range(shown, b.0, b.1) * SCALE
    &&& c.text@ == dice_text(d, shown)
    &&& !c.boolean
    &&& c.dice == 1
}

/// `shown` is a display order of the faces `rolled` for the roll `d`: from
/// highest to lowest when it sorts, else the order of rolling.
pub open spec fn arranged(d: Dice, rolled: Seq<u64>, shown: Seq<u64>) -> bool {
    if d.sorts() {
        is_desc(shown) && shown.to_multiset() == rolled.to_multiset()
    } else {
        shown == rolled
    }
}

/// `c` is a result that rolling `d` can give: the faces of its chains and
/// reroll batches (`roll_faces`), shown in display order and tallied.
pub open spec fn rolled(d: Dice, c: RogCons) -> bool {
    d.check() is None && exists|chains: Seq<Seq<u64>>, batches: int, shown: Seq<u64>|
        #[trigger] roll_faces(d, chains, batches) && #[trigger] arranged(d, concat(chains), shown)
        && #[trigger] tallied(d, shown, c)
}

/// The faces of one die: a face, and while one meets the explosion
/// threshold another after it, up to `MAX_CHAIN` faces.
pub open spec fn chain_ok(d: Dice, ch: Seq<u64>) -> bool {
    &&& 1 <= ch.len() <= MAX_CHAIN
    &&& faces_in(ch, d.sides as int)
    &&& d.threshold() is None ==> ch.len() == 1
    &&& forall|i: int| 0 <= i < ch.len() - 1 ==> d.threshold() is Some && #[trigger] ch[i] >= d.threshold()->0
    &&& d.threshold() is Some && ch.len() < MAX_CHAIN ==> ch.last() < d.threshold()->0
}

/// The chains one after the other.
pub open spec fn concat(cs: Seq<Seq<u64>>) -> Seq<u64>
    decreases cs.len(),
{
    if cs.len() == 0 {
        Seq::empty()
    } else {
        concat(cs.drop_last()) + cs.last()
    }
}

/// Whether every value equals the first.
pub open spec fn all_equal(s: Seq<u64>) -> bool {
    forall|i: int| 0 <= i < s.len() ==> #[trigger] s[i] == s[0]
}

/// The faces that rolling `d` gives: a chain for each die, then, with
/// `aro`, `batches` more batches of `count` dice, added while all faces
/// were equal (at most `MAX_REROLLS`). Without explosion and `aro` there
/// is one face per die.
pub open spec fn roll_faces(d: Dice, chains: Seq<Seq<u64>>, batches: int) -> bool {
    let faces = concat(chains);
    &&& 0 <= batches <= MAX_REROLLS
    &&& chains.len() == d.count * (batches + 1)
    &&& forall|i: int| 0 <= i < chains.len() ==> chain_ok(d, #[trigger] chains[i])
    &&& batches > 0 ==> d.config.aro
    &&& d.config.aro && faces.len() > 1 && batches < MAX_REROLLS ==> !all_equal(faces)
    &&& faces.len() >= d.count
    &&& faces_in(faces, d.sides as int)
    &&& d.threshold() is None && !d.config.aro ==> faces.len() == d.count
}

/// The sum of the dice that count, for dice shown as `shown`.
pub open spec fn kept_sum(d: Dice, shown: Seq<u64>) -> int {
    let b = kept_bounds(d.config.keep_drop, d.count as int, shown.len() as int);
    sum_range(shown, b.0, b.1)
}

/// `c` is a result that rolling the fate dice `d` can give.
pub open spec fn fate_rolled(d: FateDice, c: RogCons) -> bool {
    d.count <= MAX_COUNT && exists|faces: Seq<i64>| fate_faces(faces) && faces.len() == d.count
        && #[trigger] fate_tallied(d, faces, c)
}

/// Every face is between one and `sides`.
pub open spec fn faces_in(s: Seq<u64>, sides: int) -> bool {
    forall|i: int| 0 <= i < s.len() ==> 1 <= #[trigger] s[i] <= sides
}

/// Relies on rand::random: a `u64` from the thread-local generator. Nothing
/// is known of the value.
#[verifier::external_body]
fn random_u64() -> (r: u64) {
    rand::random::<u64>()
}

/// Relies on slice::sort_unstable: the same items, in ascending order.
#[verifier::external_body]
fn sort_ascending(v: &mut Vec<u64>)
    ensures
        final(v)@.to_multiset() == old(v)@.to_multiset(),
        forall|i: int, j: int| 0 <= i < j < final(v)@.len() ==> final(v)@[i] <= final(v)@[j],
{
    v.sort_unstable();
}

fn push_die(s: &mut String, v: u64, crit: usize, kept: bool)
    ensures
        final(s)@ == old(s)@ + die_text(v as int, crit as int, kept),
{
    proof {
        reveal_strlit("**");
        reveal_strlit("~~");
    }
    let mut t = String::new();
    push_nat(&mut t, v);
    let mut b = String::new();
    if v == 1 || v >= crit as u64 {
        push_str(&mut b, "**");
        push_str(&mut b, t.as_str());
        push_str(&mut b, "**");
    } else {
        push_str(&mut b, t.as_str());
    }
    if kept {
        push_str(s, b.as_str());
    } else {
        push_str(s, "~~");
        push_str(s, b.as_str());
        push_str(s, "~~");
    }
}

/// One die: a face, and while it explodes another face after it, up to
/// `MAX_CHAIN` faces.
fn single_roll(sides: usize, threshold: Option<usize>) -> (r: Vec<u64>)
    requires
        2 <= sides <= MAX_WHOLE,
    ensures
        1 <= r@.len() <= MAX_CHAIN,
        faces_in(r@, sides as int),
        threshold is None ==> r@.len() == 1,
        forall|i: int| 0 <= i < r@.len() - 1 ==> threshold is Some && r@[i] >= threshold->0,
        threshold is Some && r@.len() < MAX_CHAIN ==> r@[r@.len() - 1] < threshold->0,
{
    let mut values: Vec<u64> = Vec::new();
    let mut done = false;
    while !done
        invariant
            values@.len() <= MAX_CHAIN,
            2 <= sides <= MAX_WHOLE,
            faces_in(values@, sides as int),
            done ==> 1 <= values@.len(),
            done && threshold is None ==> values@.len() == 1,
            !done ==> forall|i: int| 0 <= i < values@.len() ==> threshold is Some && values@[i] >= threshold->0,
            done ==> forall|i: int| 0 <= i < values@.len() - 1 ==> threshold is Some && values@[i] >= threshold->0,
            done && threshold is Some && values@.len() < MAX_CHAIN ==> values@[values@.len() - 1] < threshold->0,
            !done ==> values@.len() < MAX_CHAIN,
            !done && threshold is None ==> values@.len() == 0,
        decreases MAX_CHAIN - values@.len() + (if done { 0int } else { 1int }),
    {
        let v: u64 = random_u64() % (sides as u64) + 1;
        values.push(v);
        match threshold {
            Some(x) => {
                if v < x as u64 || values.len() >= MAX_CHAIN {
                    done = true;
                }
            },
            None => {
                done = true;
            },
        }
    }
    values
}

/// Whether every value equals the first.
fn all_same(v: &Vec<u64>) -> (r: bool)
    requires
        v@.len() >= 1,
    ensures
        r <==> forall|i: int| 0 <= i < v@.len() ==> #[trigger] v@[i] == v@[0],
{
    let first = v[0];
    let mut i: usize = 1;
    while i < v.len()
        invariant
            1 <= i <= v@.len(),
            first == v@[0],
            forall|j: int| 0 <= j < i ==> #[trigger] v@[j] == first,
        decreases v@.len() - i,
    {
        if v[i] != first {
            return false;
        }
        i += 1;
    }
    true
}

impl RollConfig {
    /// No modifiers.
    pub fn new() -> (r: Self)
        ensures
            r.keep_drop is None,
            r.explode == Explode::NoExplode,
            !r.aro,
            !r.sort,
    {
        RollConfig { keep_drop: None, explode: Explode::NoExplode, aro: false, sort: false }
    }

    /// The suffix that names the modifiers (`!`, `!n`, `k3`, `aro`, `s`).
    pub fn to_string(&self) -> (r: String)
        ensures
            r@ == config_text(*self),
    {
        let mut s = String::new();
        push_explode(&mut s, self.explode);
        push_keep_drop(&mut s, self.keep_drop);
        proof {
            reveal_strlit("aro");
            reveal_strlit("s");
        }
        if self.aro {
            s.append("aro");
        }
        if self.sort {
            s.append("s");
        }
        s
    }
}

impl Dice {
    /// The threshold at which a die explodes, if it does.
    pub open spec fn threshold(self) -> Option<int> {
        match self.config.explode {
            Explode::NoExplode => None,
            Explode::Default => Some(self.sides as int),
            Explode::Explode(x) => Some(x as int),
        }
    }

    /// The first rule that the term breaks, in the order they are checked.
    pub open spec fn check(self) -> Option<RogErr> {
        if self.count > MAX_COUNT {
            Some(RogErr::CountMax)
        } else if self.sides < 2 {
            Some(RogErr::CountMin)
        } else if self.threshold() is Some && self.threshold()->0 < 2 {
            Some(RogErr::ExplodeMin)
        } else if self.threshold() is Some && self.threshold()->0 < self.sides as int / 100 {
            Some(RogErr::ExplodeChanceHigh)
        } else if self.sides > MAX_WHOLE {
            Some(RogErr::Overflow)
        } else {
            None
        }
    }

    /// Whether the dice are shown from highest to lowest.
    pub open spec fn sorts(self) -> bool {
        self.config.sort || self.config.keep_drop is Some
    }

    /// One six-sided die with no modifiers.
    pub fn new() -> (r: Self)
        ensures
            r.count == 1,
            r.sides == 6,
            r.config.keep_drop is None,
            r.config.explode == Explode::NoExplode,
            !r.config.aro,
            !r.config.sort,
    {
        Dice { count: 1, sides: 6, config: RollConfig::new() }
    }

    /// Checks the term; on success gives its explosion threshold, if any.
    pub fn validate(&self) -> (r: Result<Option<usize>, RogErr>)
        ensures
            match self.check() {
                Some(e) => r == Err::<Option<usize>, RogErr>(e),
                None => r matches Ok(t) && (t is Some <==> self.threshold() is Some)
                    && (t matches Some(x) ==> x == self.threshold()->0),
            },
    {
        if self.count > MAX_COUNT {
            return Err(RogErr::CountMax);
        }
        if self.sides < 2 {
            return Err(RogErr::CountMin);
        }
        let t: Option<usize> = match self.config.explode {
            Explode::NoExplode => None,
            Explode::Default => Some(self.sides),
            Explode::Explode(x) => Some(x),
        };
        if let Some(size) = t {
            if size < 2 {
                return Err(RogErr::ExplodeMin);
            }
            if size < self.sides / 100 {
                return Err(RogErr::ExplodeChanceHigh);
            }
        }
        if self.sides as u64 > MAX_WHOLE {
            return Err(RogErr::Overflow);
        }
        Ok(t)
    }

    /// The ranks that count toward the sum of `len` rolled values, sorted
    /// from highest to lowest: those `i` with `start <= i < end`.
    pub fn kept_range(&self, len: usize) -> (r: (usize, usize))
        requires
            len >= self.count,
        ensures
            r.0 as int == kept_bounds(self.config.keep_drop, self.count as int, len as int).0,
            r.1 as int == kept_bounds(self.config.keep_drop, self.count as int, len as int).1,
            r.0 <= r.1 <= len,
    {
        match self.config.keep_drop {
            None => (0, len),
            Some((kind, k)) => {
                let c: usize = if k > self.count { self.count } else { k };
                match kind {
                    KeepDrop::KeepHigh => (0, c),
                    KeepDrop::KeepLow => (len - c, len),
                    KeepDrop::DropHigh => (c, len),
                    KeepDrop::DropLow => (0, len - c),
                    KeepDrop::Crit => (0, len),
                }
            }
        }
    }
}

impl Dice {
    /// Rolls the dice: each die shows a face from one to `sides`, and while
    /// it meets the explosion threshold it is rolled again and the face is
    /// added (up to `MAX_CHAIN` faces a die). With `aro`, while all faces
    /// are equal a new batch of `count` dice is added (up to `MAX_REROLLS`
    /// batches). The kept dice are summed.
    pub fn roll(self) -> (r: Result<RogCons, RogErr>)
        ensures
            self.check() matches Some(e) ==> r == Err::<RogCons, RogErr>(e),
            r matches Err(e) ==> self.check() == Some(e) || (self.check() is None && e
                == RogErr::Overflow && exists|chains: Seq<Seq<u64>>, batches: int, shown: Seq<u64>|
                #[trigger] roll_faces(self, chains, batches) && #[trigger] arranged(self, concat(chains), shown)
                && kept_sum(self, shown) > MAX_WHOLE),
            self.check() is None && self.sides * (self.count * (MAX_CHAIN * (MAX_REROLLS + 1)))
                <= MAX_WHOLE ==> r is Ok,
            r matches Ok(c) ==> rolled(self, c),
    {
        let threshold = match self.validate() {
            Ok(t) => t,
            Err(e) => {
                return Err(e);
            },
        };
        let mut rolled: Vec<u64> = Vec::new();
        let ghost mut chains: Seq<Seq<u64>> = Seq::empty();
        let mut i: usize = 0;
        while i < self.count
            invariant
                self.check() is None,
                threshold is Some <==> self.threshold() is Some,
                threshold matches Some(x) ==> x == self.threshold()->0,
                i <= self.count,
                i <= rolled@.len() <= i * MAX_CHAIN,
                faces_in(rolled@, self.sides as int),
                rolled@ == concat(chains),
                chains.len() == i,
                forall|k: int| 0 <= k < chains.len() ==> chain_ok(self, #[trigger] chains[k]),
                self.threshold() is None ==> rolled@.len() == i,
            decreases self.count - i,
        {
            let mut chain = single_roll(self.sides, threshold);
            let ghost ch = chain@;
            rolled.append(&mut chain);
            proof {
                assert(chain_ok(self, ch));
                assert(chains.push(ch).drop_last() =~= chains);
                chains = chains.push(ch);
            }
            i += 1;
        }
        let ghost mut batches: int = 0;
        if self.config.aro && rolled.len() > 1 {
            let mut same = all_same(&rolled);
            let mut n: usize = 0;
            while same && n < MAX_REROLLS
                invariant
                    self.check() is None,
                    threshold is Some <==> self.threshold() is Some,
                    threshold matches Some(x) ==> x == self.threshold()->0,
                    self.count <= MAX_COUNT,
                    self.config.aro,
                    n <= MAX_REROLLS,
                    self.count <= rolled@.len() <= (n + 1) * (MAX_COUNT * MAX_CHAIN),
                    rolled@.len() >= 1,
                    faces_in(rolled@, self.sides as int),
                    same == all_equal(rolled@),
                    rolled@ == concat(chains),
                    batches == n,
                    chains.len() == self.count * (n + 1),
                    forall|k: int| 0 <= k < chains.len() ==> chain_ok(self, #[trigger] chains[k]),
                decreases MAX_REROLLS - n,
            {
                let mut j: usize = 0;
                while j < self.count
                    invariant
                        self.check() is None,
                        threshold is Some <==> self.threshold() is Some,
                        threshold matches Some(x) ==> x == self.threshold()->0,
                        self.count <= MAX_COUNT,
                        n < MAX_REROLLS,
                        j <= self.count,
                        self.count <= rolled@.len() <= (n + 1) * (MAX_COUNT * MAX_CHAIN) + j
                            * MAX_CHAIN,
                        rolled@.len() >= 1,
                        faces_in(rolled@, self.sides as int),
                        rolled@ == concat(chains),
                        chains.len() == self.count * (n + 1) + j,
                        forall|k: int| 0 <= k < chains.len() ==> chain_ok(self, #[trigger] chains[k]),
                    decreases self.count - j,
                {
                    let mut chain = single_roll(self.sides, threshold);
                    let ghost ch = chain@;
                    rolled.append(&mut chain);
                    proof {
                        assert(chain_ok(self, ch));
                        assert(chains.push(ch).drop_last() =~= chains);
                        chains = chains.push(ch);
                    }
                    j += 1;
                }
                assert(j * MAX_CHAIN <= MAX_COUNT * MAX_CHAIN);
                assert((n + 1) * (MAX_COUNT * MAX_CHAIN) + MAX_COUNT * MAX_CHAIN == (n + 2) * (
                MAX_COUNT * MAX_CHAIN)) by (nonlinear_arith);
                assert(self.count * (n + 1) + self.count == self.count * (n + 2)) by (nonlinear_arith);
                same = all_same(&rolled);
                n += 1;
                proof {
                    batches = n as int;
                }
            }
            assert(chains.len() == self.count * (batches + 1));
        }
        assert(chains.len() == self.count * (batches + 1)) by {
            if batches == 0 {
                assert(self.count * (batches + 1) == self.count) by (nonlinear_arith)
                    requires
                        batches == 0;
            }
        }
        assert(roll_faces(self, chains, batches));
        let shown = self.arrange(&rolled);
        proof {
            assert(shown@.len() == rolled@.len()) by {
                if self.sorts() {
                    rolled@.to_multiset_ensures();
                    shown@.to_multiset_ensures();
                }
            }
            assert forall|k: int| 0 <= k < shown@.len() implies 1 <= #[trigger] shown@[k]
                <= self.sides by {
                if self.sorts() {
                    rolled@.to_multiset_ensures();
                    shown@.to_multiset_ensures();
                    assert(shown@.to_multiset().count(shown@[k]) > 0);
                    assert(rolled@.contains(shown@[k]));
                }
            }
        }
        let r = self.tally(&shown);
        proof {
            assert(arranged(self, concat(chains), shown@));
            if r is Ok {
                let c = r->Ok_0;
                assert(tallied(self, shown@, c));
            } else {
                assert(kept_sum(self, shown@) > MAX_WHOLE);
                let b = kept_bounds(self.config.keep_drop, self.count as int, shown@.len() as int);
                lemma_sum_bound(shown@, b.0, b.1, self.sides as int);
                lemma_concat_len(self, chains);
                let len = shown@.len() as int;
                let k = self.count as int;
                let sd = self.sides as int;
                assert(b.1 - b.0 <= len);
                assert((b.1 - b.0) * sd <= len * sd) by (nonlinear_arith)
                    requires b.1 - b.0 <= len, sd >= 0;
                assert(len <= k * (batches + 1) * MAX_CHAIN);
                assert(len * sd <= sd * (k * (MAX_CHAIN * (MAX_REROLLS + 1)))) by (nonlinear_arith)
                    requires
                        len <= k * (batches + 1) * MAX_CHAIN,
                        0 <= batches <= MAX_REROLLS,
                        sd >= 0,
                        k >= 0;
            }
        }
        r
    }

    /// The faces in display order: from highest to lowest when the roll
    /// sorts or keeps or drops, else as rolled.
    pub fn arrange(&self, rolled: &Vec<u64>) -> (r: Vec<u64>)
        ensures
            arranged(*self, rolled@, r@),
    {
        let mut v: Vec<u64> = Vec::new();
        let mut i: usize = 0;
        while i < rolled.len()
            invariant
                i <= rolled@.len(),
                v@ == rolled@.subrange(0, i as int),
            decreases rolled@.len() - i,
        {
            v.push(rolled[i]);
            i += 1;
        }
        assert(v@ == rolled@);
        if !(self.config.sort || self.config.keep_drop.is_some()) {
            return v;
        }
        sort_ascending(&mut v);
        let mut r: Vec<u64> = Vec::new();
        let mut j: usize = v.len();
        while j > 0
            invariant
                j <= v@.len(),
                r@ == v@.reverse().subrange(0, v@.len() - j),
            decreases j,
        {
            j -= 1;
            r.push(v[j]);
            assert(r@ == v@.reverse().subrange(0, v@.len() - j));
        }
        assert(r@ == v@.reverse());
        proof {
            v@.lemma_reverse_to_multiset();
        }
        r
    }

    /// The result of this roll when its dice show `shown`, in display
    /// order: the sum of the kept dice, each die's value, and the trace.
    /// Fails with `Overflow` when the sum is too large for a number.
    pub fn tally(&self, shown: &Vec<u64>) -> (r: Result<RogCons, RogErr>)
        requires
            self.check() is None,
            shown@.len() >= self.count,
            faces_in(shown@, self.sides as int),
        ensures
            ({
                let b = kept_bounds(self.config.keep_drop, self.count as int, shown@.len() as int);
                match r {
                    Ok(c) => sum_range(shown@, b.0, b.1) <= MAX_WHOLE && tallied(*self, shown@, c),
                    Err(e) => sum_range(shown@, b.0, b.1) > MAX_WHOLE && e == RogErr::Overflow,
                }
            }),
    {
        let ghost b = kept_bounds(self.config.keep_drop, self.count as int, shown@.len() as int);
        let (start, end) = self.kept_range(shown.len());
        let mut total: u64 = 0;
        let mut i: usize = start;
        while i < end
            invariant
                start <= i <= end <= shown@.len(),
                b == (start as int, end as int),
                b == kept_bounds(self.config.keep_drop, self.count as int, shown@.len() as int),
                total == sum_range(shown@, start as int, i as int),
                total <= MAX_WHOLE,
            decreases end - i,
        {
            let v = shown[i];
            if v > MAX_WHOLE - total {
                proof {
                    assert(sum_range(shown@, start as int, i + 1) == total + v);
                    lemma_sum_mono(shown@, start as int, i + 1, end as int);
                    assert(sum_range(shown@, b.0, b.1) > MAX_WHOLE);
                }
                return Err(RogErr::Overflow);
            }
            total = total + v;
            i += 1;
        }
        let mut values: Vec<Num> = Vec::new();
        let mut k: usize = 0;
        while k < shown.len()
            invariant
                k <= shown@.len(),
                faces_in(shown@, self.sides as int),
                self.sides <= MAX_WHOLE,
                values@.len() == k,
                forall|j: int| 0 <= j < k ==> #[trigger] values@[j].m == shown@[j] * SCALE,
            decreases shown@.len() - k,
        {
            values.push(Num::whole(shown[k] as i64));
            k += 1;
        }
        let crit: usize = match self.config.keep_drop {
            Some((KeepDrop::Crit, c)) => c,
            _ => self.sides,
        };
        proof {
            reveal_strlit("[");
            reveal_strlit(", ");
            reveal_strlit("] ");
            reveal_strlit("d");
        }
        let mut text = String::new();
        push_str(&mut text, "[");
        let mut n: usize = 0;
        while n < shown.len()
            invariant
                n <= shown@.len(),
                b == (start as int, end as int),
                crit == crit_of(*self),
                text@ == seq!['['] + dice_list_text(shown@, crit as int, b, n as int),
            decreases shown@.len() - n,
        {
            if n > 0 {
                push_str(&mut text, ", ");
            }
            push_die(&mut text, shown[n], crit, start <= n && n < end);
            proof {
                let kept = in_bounds(n as int, b);
                assert(kept == (start <= n && n < end));
                if n == 0 {
                    assert(text@ =~= seq!['['] + dice_list_text(shown@, crit as int, b, 1));
                } else {
                    reveal_strlit(", ");
                    assert(dice_list_text(shown@, crit as int, b, n + 1) == dice_list_text(
                        shown@,
                        crit as int,
                        b,
                        n as int,
                    ) + seq![',', ' '] + die_text(shown@[n as int] as int, crit as int, kept));
                    assert(text@ =~= seq!['['] + dice_list_text(shown@, crit as int, b, n + 1));
                }
            }
            n += 1;
        }
        push_str(&mut text, "] ");
        push_nat(&mut text, self.count as u64);
        push_str(&mut text, "d");
        push_nat(&mut text, self.sides as u64);
        let suffix = self.config.to_string();
        push_str(&mut text, suffix.as_str());
        assert(text@ =~= dice_text(*self, shown@));
        Ok(RogCons { value: Num::whole(total as i64), values, text, boolean: false, dice: 1 })
    }
}

/// One fate die in a trace: a bold `+` or `-`, or `0`.
pub open spec fn fate_text(v: int) -> Seq<char> {
    if v == 1 {
        bold(seq!['+'])
    } else if v == 0 {
        seq!['0']
    } else {
        bold(seq!['-'])
    }
}

/// The first `n` fate dice of a trace, joined by commas.
pub open spec fn fate_list_text(s: Seq<i64>, n: int) -> Seq<char>
    decreases n,
{
    if n <= 0 {
        Seq::empty()
    } else if n == 1 {
        fate_text(s[0] as int)
    } else {
        fate_list_text(s, n - 1) + seq![',', ' '] + fate_text(s[n - 1] as int)
    }
}

/// The sum of the first `n` fate faces.
pub open spec fn fate_sum(s: Seq<i64>, n: int) -> int
    decreases n,
{
    if n <= 0 {
        0
    } else {
        fate_sum(s, n - 1) + s[n - 1]
    }
}

/// Every face is -1, 0 or 1.
pub open spec fn fate_faces(s: Seq<i64>) -> bool {
    forall|i: int| 0 <= i < s.len() ==> -1 <= #[trigger] s[i] <= 1
}

/// `c` is the result of fate dice `d` that show `faces`.
pub open spec fn fate_tallied(d: FateDice, faces: Seq<i64>, c: RogCons) -> bool {
    &&& c.values@.len() == faces.len()
    &&& forall|i: int| 0 <= i < faces.len() ==> #[trigger] c.values@[i].m == faces[i] * SCALE
    &&& c.value.m == fate_sum(faces, faces.len() as int) * SCALE
    &&& c.text@ == seq!['['] + fate_list_text(faces, faces.len() as int) + seq![']', ' ']
        + nat_text(d.count as nat) + seq!['d', 'f']
    &&& !c.boolean
    &&& c.dice == 1
}

/// The sum of `n` fate dice lies between `-n` and `n`.
pub proof fn lemma_fate_sum_bounds(s: Seq<i64>, n: int)
    requires
        fate_faces(s),
        0 <= n <= s.len(),
    ensures
        -n <= fate_sum(s, n) <= n,
    decreases n,
{
    if n > 0 {
        lemma_fate_sum_bounds(s, n - 1);
    }
}

fn push_fate(s: &mut String, v: i64)
    ensures
        final(s)@ == old(s)@ + fate_text(v as int),
{
    proof {
        reveal_strlit("**+**");
        reveal_strlit("0");
        reveal_strlit("**-**");
    }
    if v == 1 {
        push_str(s, "**+**");
    } else if v == 0 {
        push_str(s, "0");
    } else {
        push_str(s, "**-**");
    }
}

impl FateDice {
    /// One fate die.
    pub fn new() -> (r: Self)
        ensures
            r.count == 1,
    {
        FateDice { count: 1 }
    }

    /// The result of these fate dice when they show `faces`: their sum,
    /// each die's value, and the trace.
    pub fn tally(&self, faces: &Vec<i64>) -> (r: RogCons)
        requires
            self.count <= MAX_COUNT,
            faces@.len() == self.count,
            fate_faces(faces@),
        ensures
            fate_tallied(*self, faces@, r),
    {
        let mut total: i64 = 0;
        let mut values: Vec<Num> = Vec::new();
        let mut text = String::new();
        proof {
            reveal_strlit("[");
        }
        push_str(&mut text, "[");
        let mut i: usize = 0;
        while i < faces.len()
            invariant
                i <= faces@.len() <= MAX_COUNT,
                fate_faces(faces@),
                total == fate_sum(faces@, i as int),
                values@.len() == i,
                forall|j: int| 0 <= j < i ==> #[trigger] values@[j].m == faces@[j] * SCALE,
                text@ == seq!['['] + fate_list_text(faces@, i as int),
            decreases faces@.len() - i,
        {
            proof {
                lemma_fate_sum_bounds(faces@, i as int);
                reveal_strlit(", ");
            }
            let v = faces[i];
            if i > 0 {
                push_str(&mut text, ", ");
            }
            push_fate(&mut text, v);
            proof {
                if i == 0 {
                    assert(text@ =~= seq!['['] + fate_list_text(faces@, 1));
                } else {
                    assert(text@ =~= seq!['['] + fate_list_text(faces@, i + 1));
                }
            }
            total = total + v;
            values.push(Num::whole(v));
            i += 1;
        }
        proof {
            lemma_fate_sum_bounds(faces@, faces@.len() as int);
            reveal_strlit("] ");
            reveal_strlit("df");
        }
        push_str(&mut text, "] ");
        push_nat(&mut text, self.count as u64);
        push_str(&mut text, "df");
        assert(text@ =~= seq!['['] + fate_list_text(faces@, faces@.len() as int) + seq![']', ' ']
            + nat_text(self.count as nat) + seq!['d', 'f']);
        RogCons { value: Num::whole(total), values, text, boolean: false, dice: 1 }
    }

    /// Rolls the fate dice: each shows -1, 0 or 1. At most `MAX_COUNT` dice.
    pub fn roll(self) -> (r: Result<RogCons, RogErr>)
        ensures
            r is Err <==> self.count > MAX_COUNT,
            r matches Err(e) ==> e == RogErr::CountMax,
            r matches Ok(c) ==> c.values@.len() == self.count
                && (forall|i: int| 0 <= i < self.count ==> -SCALE <= #[trigger] c.values@[i].m <= SCALE
                    && c.values@[i].m % SCALE == 0)
                && -(self.count * SCALE) <= c.value.m <= self.count * SCALE
                && fate_rolled(self, c),
    {
        if self.count > MAX_COUNT {
            return Err(RogErr::CountMax);
        }
        let mut faces: Vec<i64> = Vec::new();
        let mut i: usize = 0;
        while i < self.count
            invariant
                i <= self.count,
                faces@.len() == i,
                fate_faces(faces@),
            decreases self.count - i,
        {
            let v: i64 = (random_u64() % 3) as i64 - 1;
            faces.push(v);
            i += 1;
        }
        let c = self.tally(&faces);
        proof {
            lemma_fate_sum_bounds(faces@, faces@.len() as int);
            assert forall|i: int| 0 <= i < self.count implies -SCALE <= #[trigger] c.values@[i].m
                <= SCALE && c.values@[i].m % SCALE == 0 by {
                assert(c.values@[i].m == faces@[i] * SCALE);
            }
            assert(-(self.count * SCALE) <= c.value.m <= self.count * SCALE) by (nonlinear_arith)
                requires
                    c.value.m == fate_sum(faces@, faces@.len() as int) * SCALE,
                    -(self.count as int) <= fate_sum(faces@, faces@.len() as int) <= self.count,
                    faces@.len() == self.count;
            assert(fate_faces(faces@) && faces@.len() == self.count && fate_tallied(self, faces@, c));
            assert(fate_rolled(self, c));
        }
        Ok(c)
    }
}

/// A term with more than `MAX_COUNT` dice is refused with `CountMax`; one
/// with fewer than two sides, and not too many dice, with `CountMin`.
pub proof fn lemma_count_rules(d: Dice)
    ensures
        d.count > MAX_COUNT ==> d.check() == Some(RogErr::CountMax),
        d.count <= MAX_COUNT && d.sides < 2 ==> d.check() == Some(RogErr::CountMin),
{
}

/// A roll that passes its checks explodes at a threshold of at least two
/// and at least a hundredth of the sides; a lower threshold, on a term
/// whose count and sides pass, is refused with `ExplodeMin` below two and
/// else with `ExplodeChanceHigh`.
pub proof fn lemma_threshold_rules(d: Dice)
    ensures
        d.check() is None && d.threshold() is Some ==> d.threshold()->0 >= 2 && d.threshold()->0
            >= d.sides as int / 100,
        d.count <= MAX_COUNT && d.sides >= 2 && d.threshold() is Some && d.threshold()->0 < 2
            ==> d.check() == Some(RogErr::ExplodeMin),
        d.count <= MAX_COUNT && d.sides >= 2 && d.threshold() is Some && 2 <= d.threshold()->0
            < d.sides as int / 100 ==> d.check() == Some(RogErr::ExplodeChanceHigh),
{
}

/// Keeping the `k` highest keeps `min(k, count)` dice; dropping the `k`
/// lowest keeps the rest, `count - min(k, count)` when no die exploded.
pub proof fn lemma_keep_drop_sizes(k: usize, count: int, len: int)
    requires
        0 <= count <= len,
    ensures
        kept_count(kept_bounds(Some((KeepDrop::KeepHigh, k)), count, len), len) == clamp_k(k as int, count),
        kept_count(kept_bounds(Some((KeepDrop::DropLow, k)), count, len), len) == len - clamp_k(k as int, count),
        len == count ==> kept_count(kept_bounds(Some((KeepDrop::DropLow, k)), count, len), len) == count
            - clamp_k(k as int, count),
{
}

/// A fate die shows -1, 0 or 1, and `n` of them sum to between `-n` and `n`.
pub proof fn lemma_fate_values(d: FateDice, c: RogCons)
    requires
        fate_rolled(d, c),
    ensures
        forall|i: int| 0 <= i < c.values@.len() ==> #[trigger] c.values@[i].m == -SCALE || c.values@[i].m
            == 0 || c.values@[i].m == SCALE,
        -(d.count * SCALE) <= c.value.m <= d.count * SCALE,
{
    let faces = choose|faces: Seq<i64>| fate_faces(faces) && faces.len() == d.count
        && #[trigger] fate_tallied(d, faces, c);
    lemma_fate_sum_bounds(faces, faces.len() as int);
    assert forall|i: int| 0 <= i < c.values@.len() implies #[trigger] c.values@[i].m == -SCALE
        || c.values@[i].m == 0 || c.values@[i].m == SCALE by {
        assert(c.values@[i].m == faces[i] * SCALE);
    }
    let n = fate_sum(faces, faces.len() as int);
    assert(-(d.count * SCALE) <= n * SCALE <= d.count * SCALE) by (nonlinear_arith)
        requires
            -(d.count as int) <= n <= d.count;
}

} // verus!
