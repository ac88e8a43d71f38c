use vstd::prelude::*;

use crate::dice::{fits_i32, Dice, RollResult};
use crate::error::{DiroError, DiroResult};
use crate::text::{int_text, push_char, push_int};

verus! {

/// A binary arithmetic operator.
#[derive(Debug, Clone, Copy, PartialEq, Eq, Structural)]
pub enum Verb {
    Plus,
    Minus,
    Times,
    Divide,
    Modulo,
    Power,
}

impl Verb {
    /// The one character that renders the operator.
    pub open spec fn symbol(self) -> char {
        match self {
            Verb::Plus => '+',
            Verb::Minus => '-',
            Verb::Times => '*',
            Verb::Divide => '/',
            Verb::Modulo => '%',
            Verb::Power => '^',
        }
    }

    /// Binding strength: `+ -` bind loosest, `^` tightest.
    pub open spec fn rank(self) -> int {
        match self {
            Verb::Plus | Verb::Minus => 1,
            Verb::Times | Verb::Divide | Verb::Modulo => 2,
            Verb::Power => 3,
        }
    }

    /// The operator's symbol.
    pub fn expr(&self) -> (r: String)
        ensures
            r@ == seq![self.symbol()],
    {
        let c = self.symbol_char();
        let mut s = String::new();
        push_char(&mut s, c);
        assert(s@ =~= seq![self.symbol()]);
        s
    }

    pub(crate) fn symbol_char(&self) -> (c: char)
        ensures
            c == self.symbol(),
    {
        match self {
            Verb::Plus => '+',
            Verb::Minus => '-',
            Verb::Times => '*',
            Verb::Divide => '/',
            Verb::Modulo => '%',
            Verb::Power => '^',
        }
    }

    /// The operator's rank: 1 for `+ -`, 2 for `* / %`, 3 for `^`.
    pub fn priority(&self) -> (r: u8)
        ensures
            r as int == self.rank(),
    {
        match self {
            Verb::Plus | Verb::Minus => 1,
            Verb::Times | Verb::Divide | Verb::Modulo => 2,
            Verb::Power => 3,
        }
    }
}

/// An arithmetic expression over integers and dice.
#[derive(Debug, PartialEq, Eq)]
pub enum DiroAst {
    Int(i32),
    /// A dice term and, once rolled, its outcome.
    Dice(Dice, Option<RollResult>),
    DyadicOP { verb: Verb, lhs: Box<DiroAst>, rhs: Box<DiroAst> },
    /// A sub-expression that was written between parentheses.
    Closed(Box<DiroAst>),
}

/// `v` when it fits `i32`, else `Overflow`.
pub open spec fn lift(v: int) -> DiroResult<i32> {
    if fits_i32(v) {
        Ok(v as i32)
    } else {
        Err(DiroError::Overflow)
    }
}

/// Division rounding toward zero.
pub open spec fn trunc_div(a: int, b: int) -> int {
    let q = (if a >= 0 {
        a
    } else {
        -a
    }) / (if b >= 0 {
        b
    } else {
        -b
    });
    if (a >= 0) == (b >= 0) {
        q
    } else {
        -q
    }
}

/// `base` raised to the power `e`.
pub open spec fn pow(base: int, e: nat) -> int
    decreases e,
{
    if e == 0 {
        1
    } else {
        base * pow(base, (e - 1) as nat)
    }
}

/// The exponent that a right operand stands for: its bits read unsigned.
pub open spec fn exponent(b: int) -> nat {
    if b >= 0 {
        b as nat
    } else {
        (b + 4294967296) as nat
    }
}

/// One operator applied to two values.
pub open spec fn apply(verb: Verb, a: int, b: int) -> DiroResult<i32> {
    match verb {
        Verb::Plus => lift(a + b),
        Verb::Minus => lift(a - b),
        Verb::Times => lift(a * b),
        Verb::Divide => if b == 0 {
            Err(DiroError::ZeroDivision)
        } else {
            lift(trunc_div(a, b))
        },
        Verb::Modulo => if b == 0 {
            Err(DiroError::ZeroDivision)
        } else {
            lift(a - b * trunc_div(a, b))
        },
        Verb::Power => lift(pow(a, exponent(b))),
    }
}

impl DiroAst {
    /// Every stored outcome is one that a roll can produce.
    pub open spec fn wf(&self) -> bool
        decreases self,
    {
        match self {
            DiroAst::Int(_) => true,
            DiroAst::Dice(_, slot) => slot matches Some(r) ==> r.wf(),
            DiroAst::DyadicOP { lhs, rhs, .. } => lhs.wf() && rhs.wf(),
            DiroAst::Closed(t) => t.wf(),
        }
    }

    /// Every dice term without an outcome can be rolled.
    pub open spec fn rollable(&self) -> bool
        decreases self,
    {
        match self {
            DiroAst::Int(_) => true,
            DiroAst::Dice(d, slot) => slot is Some || d.rollable(),
            DiroAst::DyadicOP { lhs, rhs, .. } => lhs.rollable() && rhs.rollable(),
            DiroAst::Closed(t) => t.rollable(),
        }
    }

    /// Every dice term holds an outcome.
    pub open spec fn all_rolled(&self) -> bool
        decreases self,
    {
        match self {
            DiroAst::Int(_) => true,
            DiroAst::Dice(_, slot) => slot is Some,
            DiroAst::DyadicOP { lhs, rhs, .. } => lhs.all_rolled() && rhs.all_rolled(),
            DiroAst::Closed(t) => t.all_rolled(),
        }
    }

    /// `new` is `self` with each empty dice slot filled by a roll of its
    /// dice and every filled slot kept.
    pub open spec fn rolled_into(&self, new: DiroAst) -> bool
        decreases self,
    {
        match self {
            DiroAst::Int(i) => new == DiroAst::Int(*i),
            DiroAst::Dice(d, slot) => {
                &&& new matches DiroAst::Dice(d2, slot2)
                &&& d2 == *d
                &&& match slot {
                    Some(r) => slot2 == Some(*r),
                    None => slot2 matches Some(r2) && d.rolled_from(r2),
                }
            },
            DiroAst::DyadicOP { verb, lhs, rhs } => {
                &&& new matches DiroAst::DyadicOP { verb: v2, lhs: l2, rhs: r2 }
                &&& v2 == *verb
                &&& lhs.rolled_into(*l2)
                &&& rhs.rolled_into(*r2)
            },
            DiroAst::Closed(t) => new matches DiroAst::Closed(t2) && t.rolled_into(*t2),
        }
    }

    /// The value of the expression: `DiceNotRolled` while a dice term holds
    /// no outcome, else the value over the outcomes.
    pub open spec fn value(&self) -> DiroResult<i32> {
        if !self.all_rolled() {
            Err(DiroError::DiceNotRolled)
        } else {
            self.rolled_value()
        }
    }

    /// The value over the outcomes stored. Operands are taken left to right, but
    /// a division looks at its divisor first.
    pub open spec fn rolled_value(&self) -> DiroResult<i32>
        decreases self,
    {
        match self {
            DiroAst::Int(i) => Ok(*i),
            DiroAst::Dice(_, slot) => match slot {
                Some(r) => lift(r.score()),
                None => Err(DiroError::DiceNotRolled),
            },
            DiroAst::Closed(t) => t.rolled_value(),
            DiroAst::DyadicOP { verb, lhs, rhs } => if *verb == Verb::Divide {
                match rhs.rolled_value() {
                    Err(e) => Err(e),
                    Ok(b) => if b == 0 {
                        Err(DiroError::ZeroDivision)
                    } else {
                        match lhs.rolled_value() {
                            Err(e) => Err(e),
                            Ok(a) => apply(*verb, a as int, b as int),
                        }
                    },
                }
            } else {
                match lhs.rolled_value() {
                    Err(e) => Err(e),
                    Ok(a) => match rhs.rolled_value() {
                        Err(e) => Err(e),
                        Ok(b) => apply(*verb, a as int, b as int),
                    },
                }
            },
        }
    }
}

proof fn lemma_pow_one(e: nat)
    ensures
        pow(1, e) == 1,
    decreases e,
{
    if e > 0 {
        lemma_pow_one((e - 1) as nat);
    }
}

proof fn lemma_pow_zero(e: nat)
    requires
        e > 0,
    ensures
        pow(0, e) == 0,
{
}

proof fn lemma_pow_minus_one(e: nat)
    ensures
        pow(-1, e) == (if e % 2 == 0 {
            1int
        } else {
            -1int
        }),
    decreases e,
{
    if e > 0 {
        lemma_pow_minus_one((e - 1) as nat);
    }
}

/// With a base of magnitude at least 2, each further factor at least
/// doubles the magnitude.
proof fn lemma_pow_grows(a: int, j: nat, e: nat)
    requires
        a >= 2 || a <= -2,
        j < e,
    ensures
        abs(pow(a, e)) >= 2 * abs(pow(a, j)),
    decreases e,
{
    let x = pow(a, (e - 1) as nat);
    assert(abs(a * x) >= 2 * abs(x)) by (nonlinear_arith)
        requires
            a >= 2 || a <= -2,
    ;
    if j < e - 1 {
        lemma_pow_grows(a, j, (e - 1) as nat);
    }
}

pub open spec fn abs(v: int) -> int {
    if v >= 0 {
        v
    } else {
        -v
    }
}

fn power(a: i32, e: u32) -> (r: DiroResult<i32>)
    ensures
        r == lift(pow(a as int, e as nat)),
{
    if a == 0 {
        if e == 0 {
            Ok(1)
        } else {
            proof {
                lemma_pow_zero(e as nat);
            }
            Ok(0)
        }
    } else if a == 1 {
        proof {
            lemma_pow_one(e as nat);
        }
        Ok(1)
    } else if a == -1 {
        proof {
            lemma_pow_minus_one(e as nat);
        }
        if e % 2 == 0 {
            Ok(1)
        } else {
            Ok(-1)
        }
    } else {
        let mut acc: i64 = 1;
        let mut i: u32 = 0;
        while i < e
            invariant
                a >= 2 || a <= -2,
                i <= e,
                acc as int == pow(a as int, i as nat),
                fits_i32(acc as int),
            decreases e - i,
        {
            assert(abs(acc as int * a as int) <= 2147483648 * 2147483648) by (nonlinear_arith)
                requires
                    abs(acc as int) <= 2147483648,
                    abs(a as int) <= 2147483648,
            ;
            let next: i64 = acc * a as i64;
            assert(pow(a as int, (i + 1) as nat) == a as int * pow(a as int, i as nat));
            assert(next as int == pow(a as int, (i + 1) as nat)) by (nonlinear_arith)
                requires
                    next as int == acc as int * a as int,
                    acc as int == pow(a as int, i as nat),
                    pow(a as int, (i + 1) as nat) == a as int * pow(a as int, i as nat),
            ;
            if next < i32::MIN as i64 || next > i32::MAX as i64 {
                proof {
                    if (i + 1) < e {
                        lemma_pow_grows(a as int, (i + 1) as nat, e as nat);
                    }
                }
                return Err(DiroError::Overflow);
            }
            acc = next;
            i = i + 1;
        }
        Ok(acc as i32)
    }
}

/// Division and remainder rounding toward zero, on values known to be
/// non-zero divisors.
fn divide(a: i32, b: i32) -> (r: (i64, i64))
    requires
        b != 0,
    ensures
        r.0 as int == trunc_div(a as int, b as int),
        r.1 as int == a as int - b as int * trunc_div(a as int, b as int),
{
    let x: i64 = if a >= 0 {
        a as i64
    } else {
        -(a as i64)
    };
    let y: i64 = if b >= 0 {
        b as i64
    } else {
        -(b as i64)
    };
    let q: i64 = x / y;
    assert(0 <= q <= x) by (nonlinear_arith)
        requires
            q == x / y,
            x >= 0,
            y >= 1,
    ;
    let t: i64 = if (a >= 0) == (b >= 0) {
        q
    } else {
        -q
    };
    assert(abs(b as int * t as int) <= 2147483648 * 2147483648) by (nonlinear_arith)
        requires
            abs(b as int) <= 2147483648,
            abs(t as int) <= 2147483648,
    ;
    let m: i64 = a as i64 - b as i64 * t;
    (t, m)
}

fn apply_verb(verb: Verb, a: i32, b: i32) -> (r: DiroResult<i32>)
    ensures
        r == apply(verb, a as int, b as int),
{
    match verb {
        Verb::Plus => lift_i64(a as i64 + b as i64),
        Verb::Minus => lift_i64(a as i64 - b as i64),
        Verb::Times => {
            assert(abs(a as int * b as int) <= 2147483648 * 2147483648) by (nonlinear_arith)
                requires
                    abs(a as int) <= 2147483648,
                    abs(b as int) <= 2147483648,
            ;
            lift_i64(a as i64 * b as i64)
        },
        Verb::Divide => if b == 0 {
            Err(DiroError::ZeroDivision)
        } else {
            lift_i64(divide(a, b).0)
        },
        Verb::Modulo => if b == 0 {
            Err(DiroError::ZeroDivision)
        } else {
            lift_i64(divide(a, b).1)
        },
        Verb::Power => {
            let e: u32 = if b >= 0 {
                b as u32
            } else {
                (b as i64 + 4294967296) as u32
            };
            power(a, e)
        },
    }
}

fn lift_i64(v: i64) -> (r: DiroResult<i32>)
    ensures
        r == lift(v as int),
{
    if v < i32::MIN as i64 || v > i32::MAX as i64 {
        Err(DiroError::Overflow)
    } else {
        Ok(v as i32)
    }
}

impl DiroAst {
    /// Evaluates the expression over the outcomes already rolled.
    pub fn calc(&self) -> (r: DiroResult<i32>)
        requires
            self.wf(),
        ensures
            r == self.value(),
    {
        if !self.is_all_rolled() {
            return Err(DiroError::DiceNotRolled);
        }
        self.calc_rolled()
    }

    /// Whether every dice term holds an outcome.
    pub fn is_all_rolled(&self) -> (r: bool)
        ensures
            r == self.all_rolled(),
        decreases self,
    {
        match self {
            DiroAst::Int(_) => true,
            DiroAst::Dice(_, slot) => slot.is_some(),
            DiroAst::DyadicOP { lhs, rhs, .. } => lhs.is_all_rolled() && rhs.is_all_rolled(),
            DiroAst::Closed(t) => t.is_all_rolled(),
        }
    }

    fn calc_rolled(&self) -> (r: DiroResult<i32>)
        requires
            self.wf(),
        ensures
            r == self.rolled_value(),
        decreases self,
    {
        match self {
            DiroAst::Int(i) => Ok(*i),
            DiroAst::Dice(_, slot) => match slot {
                Some(r) => r.result(),
                None => Err(DiroError::DiceNotRolled),
            },
            DiroAst::Closed(t) => t.calc_rolled(),
            DiroAst::DyadicOP { verb, lhs, rhs } => {
                if *verb == Verb::Divide {
                    let b = match rhs.calc_rolled() {
                        Ok(b) => b,
                        Err(e) => {
                            return Err(e);
                        },
                    };
                    if b == 0 {
                        return Err(DiroError::ZeroDivision);
                    }
                    let a = match lhs.calc_rolled() {
                        Ok(a) => a,
                        Err(e) => {
                            return Err(e);
                        },
                    };
                    apply_verb(*verb, a, b)
                } else {
                    let a = match lhs.calc_rolled() {
                        Ok(a) => a,
                        Err(e) => {
                            return Err(e);
                        },
                    };
                    let b = match rhs.calc_rolled() {
                        Ok(b) => b,
                        Err(e) => {
                            return Err(e);
                        },
                    };
                    apply_verb(*verb, a, b)
                }
            },
        }
    }
}

impl DiroAst {
    /// Rolls every dice term that holds no outcome yet; outcomes already
    /// there are kept.
    pub fn roll(&mut self)
        requires
            old(self).rollable(),
        ensures
            old(self).rolled_into(*final(self)),
            final(self).all_rolled(),
            final(self).rollable(),
            old(self).wf() ==> final(self).wf(),
    {
        let mut t = DiroAst::Int(0);
        core::mem::swap(self, &mut t);
        let r = rolled(t);
        *self = r;
    }
}

/// `t` with each empty dice slot filled by a roll.
fn rolled(t: DiroAst) -> (r: DiroAst)
    requires
        t.rollable(),
    ensures
        t.rolled_into(r),
        r.all_rolled(),
        r.rollable(),
        t.wf() ==> r.wf(),
    decreases t,
{
    match t {
        DiroAst::Dice(dice, slot) => match slot {
            Some(r) => DiroAst::Dice(dice, Some(r)),
            None => {
                let r = dice.roll();
                proof {
                    dice.lemma_rolled_wf(r);
                }
                DiroAst::Dice(dice, Some(r))
            },
        },
        DiroAst::DyadicOP { verb, lhs, rhs } => {
            let l = rolled(*lhs);
            let r = rolled(*rhs);
            DiroAst::DyadicOP { verb, lhs: Box::new(l), rhs: Box::new(r) }
        },
        DiroAst::Closed(inner) => DiroAst::Closed(Box::new(rolled(*inner))),
        DiroAst::Int(i) => DiroAst::Int(i),
    }
}

/// Whether an operator of rank `rank` needs parentheses where the
/// surrounding operator has rank `ctx`; on the right side an equal rank
/// needs them too, since operators group from the left.
pub open spec fn needs_parens(rank: int, ctx: int, right: bool) -> bool {
    rank < ctx || (right && rank == ctx)
}

pub open spec fn parenthesized(inner: Seq<char>) -> Seq<char> {
    seq!['('] + inner + seq![')']
}

impl DiroAst {
    /// The notation of the expression, in a context of rank `ctx`, on the
    /// right of its operator or not. Parentheses stand only where needed.
    pub open spec fn text_in(&self, ctx: int, right: bool) -> Seq<char>
        decreases self,
    {
        match self {
            DiroAst::Int(i) => int_text(*i as int),
            DiroAst::Dice(d, _) => d.notation(),
            DiroAst::DyadicOP { verb, lhs, rhs } => {
                let inner = lhs.text_in(verb.rank(), false) + seq![verb.symbol()] + rhs.text_in(
                    verb.rank(),
                    true,
                );
                if needs_parens(verb.rank(), ctx, right) {
                    parenthesized(inner)
                } else {
                    inner
                }
            },
            DiroAst::Closed(t) => t.text_in(ctx, right),
        }
    }

    /// Like `text_in`, but a dice term shows its outcome: in full where it
    /// is the whole expression, as its score elsewhere. (A dice term without
    /// an outcome shows nothing; `detail_expr` refuses such trees.)
    pub open spec fn detail_in(&self, ctx: int, right: bool, top: bool) -> Seq<char>
        decreases self,
    {
        match self {
            DiroAst::Int(i) => int_text(*i as int),
            DiroAst::Dice(_, slot) => match slot {
                None => Seq::empty(),
                Some(r) => if top {
                    r.detail_text()
                } else {
                    int_text(r.score())
                },
            },
            DiroAst::DyadicOP { verb, lhs, rhs } => {
                let inner = lhs.detail_in(verb.rank(), false, false) + seq![verb.symbol()]
                    + rhs.detail_in(verb.rank(), true, false);
                if needs_parens(verb.rank(), ctx, right) {
                    parenthesized(inner)
                } else {
                    inner
                }
            },
            DiroAst::Closed(t) => t.detail_in(ctx, right, false),
        }
    }

    /// Prefix form `(op lhs rhs)`, blind to parentheses of the source.
    pub open spec fn symbolic(&self) -> Seq<char>
        decreases self,
    {
        match self {
            DiroAst::Int(i) => int_text(*i as int),
            DiroAst::Dice(d, _) => d.notation(),
            DiroAst::DyadicOP { verb, lhs, rhs } => seq!['(', verb.symbol(), ' '] + lhs.symbolic()
                + seq![' '] + rhs.symbolic() + seq![')'],
            DiroAst::Closed(t) => t.symbolic(),
        }
    }

    fn push_text(&self, s: &mut String, ctx: u8, right: bool)
        ensures
            final(s)@ == old(s)@ + self.text_in(ctx as int, right),
        decreases self,
    {
        match self {
            DiroAst::Int(i) => push_int(s, *i as i128),
            DiroAst::Dice(d, _) => {
                let t = d.expr();
                s.append(t.as_str());
            },
            DiroAst::DyadicOP { verb, lhs, rhs } => {
                let rank = verb.priority();
                let paren = rank < ctx || (right && rank == ctx);
                if paren {
                    push_char(s, '(');
                }
                let ghost mid = s@;
                lhs.push_text(s, rank, false);
                push_char(s, verb.symbol_char());
                rhs.push_text(s, rank, true);
                let ghost inner = lhs.text_in(verb.rank(), false) + seq![verb.symbol()]
                    + rhs.text_in(verb.rank(), true);
                assert(s@ =~= mid + inner);
                if paren {
                    push_char(s, ')');
                }
            },
            DiroAst::Closed(t) => t.push_text(s, ctx, right),
        }
        assert(final(s)@ =~= old(s)@ + self.text_in(ctx as int, right));
    }

    fn push_detail(&self, s: &mut String, ctx: u8, right: bool, top: bool)
        requires
            self.wf(),
        ensures
            final(s)@ == old(s)@ + self.detail_in(ctx as int, right, top),
        decreases self,
    {
        match self {
            DiroAst::Int(i) => push_int(s, *i as i128),
            DiroAst::Dice(_, slot) => match slot {
                None => {},
                Some(r) => {
                    if top {
                        let t = r.detail();
                        s.append(t.as_str());
                    } else {
                        push_int(s, r.score_wide());
                    }
                },
            },
            DiroAst::DyadicOP { verb, lhs, rhs } => {
                let rank = verb.priority();
                let paren = rank < ctx || (right && rank == ctx);
                if paren {
                    push_char(s, '(');
                }
                let ghost mid = s@;
                lhs.push_detail(s, rank, false, false);
                push_char(s, verb.symbol_char());
                rhs.push_detail(s, rank, true, false);
                let ghost inner = lhs.detail_in(verb.rank(), false, false) + seq![verb.symbol()]
                    + rhs.detail_in(verb.rank(), true, false);
                assert(s@ =~= mid + inner);
                if paren {
                    push_char(s, ')');
                }
            },
            DiroAst::Closed(t) => t.push_detail(s, ctx, right, false),
        }
        assert(final(s)@ =~= old(s)@ + self.detail_in(ctx as int, right, top));
    }

    fn push_symbolic(&self, s: &mut String)
        ensures
            final(s)@ == old(s)@ + self.symbolic(),
        decreases self,
    {
        match self {
            DiroAst::Int(i) => push_int(s, *i as i128),
            DiroAst::Dice(d, _) => {
                let t = d.expr();
                s.append(t.as_str());
            },
            DiroAst::DyadicOP { verb, lhs, rhs } => {
                push_char(s, '(');
                push_char(s, verb.symbol_char());
                push_char(s, ' ');
                lhs.push_symbolic(s);
                push_char(s, ' ');
                rhs.push_symbolic(s);
                push_char(s, ')');
            },
            DiroAst::Closed(t) => t.push_symbolic(s),
        }
        assert(final(s)@ =~= old(s)@ + self.symbolic());
    }

    /// The notation of the expression, without outcomes.
    pub fn expr(&self) -> (r: String)
        ensures
            r@ == self.text_in(0, false),
    {
        let mut s = String::new();
        self.push_text(&mut s, 0, false);
        assert(s@ =~= self.text_in(0, false));
        s
    }

    /// The expression with its dice replaced by what they rolled.
    pub fn detail_expr(&self) -> (r: DiroResult<String>)
        requires
            self.wf(),
        ensures
            !self.all_rolled() ==> r == Err::<String, DiroError>(DiroError::DiceNotRolled),
            self.all_rolled() ==> (r matches Ok(s) && s@ == self.detail_in(0, false, true)),
    {
        if !self.is_all_rolled() {
            return Err(DiroError::DiceNotRolled);
        }
        let mut s = String::new();
        self.push_detail(&mut s, 0, false, true);
        assert(s@ =~= self.detail_in(0, false, true));
        Ok(s)
    }

    /// The prefix form `(op lhs rhs)` of the expression.
    pub fn s_expr(&self) -> (r: String)
        ensures
            r@ == self.symbolic(),
    {
        let mut s = String::new();
        self.push_symbolic(&mut s);
        assert(s@ =~= self.symbolic());
        s
    }
}


impl DiroAst {
    /// Rolls what is not rolled yet, then evaluates.
    pub fn eval(&mut self) -> (r: DiroResult<i32>)
        requires
            old(self).rollable(),
            old(self).wf(),
        ensures
            old(self).rolled_into(*final(self)),
            final(self).all_rolled(),
            r == final(self).value(),
    {
        self.roll();
        self.calc()
    }
}

impl DiroAst {
    /// The operands of the chain of operators at the top, left to right;
    /// anything but an operator node is one operand.
    pub open spec fn operands(&self) -> Seq<DiroAst>
        decreases self,
    {
        match self {
            DiroAst::DyadicOP { lhs, rhs, .. } => lhs.operands() + rhs.operands(),
            _ => seq![*self],
        }
    }

    /// The operators of that chain, left to right.
    pub open spec fn verbs(&self) -> Seq<Verb>
        decreases self,
    {
        match self {
            DiroAst::DyadicOP { verb, lhs, rhs } => lhs.verbs().push(*verb) + rhs.verbs(),
            _ => Seq::empty(),
        }
    }

    /// The chain is grouped as the notation reads: an operator's left
    /// operand binds at least as tightly, its right operand strictly
    /// tighter.
    pub open spec fn left_grouped(&self) -> bool
        decreases self,
    {
        match self {
            DiroAst::DyadicOP { verb, lhs, rhs } => {
                &&& (**lhs matches DiroAst::DyadicOP { verb: lv, .. } ==> lv.rank() >= verb.rank())
                &&& (**rhs matches DiroAst::DyadicOP { verb: rv, .. } ==> rv.rank() > verb.rank())
                &&& lhs.left_grouped()
                &&& rhs.left_grouped()
            },
            _ => true,
        }
    }

    /// The tree that `dyadic_with_priority` builds.
    pub open spec fn combined(verb: Verb, lhs: DiroAst, rhs: DiroAst) -> DiroAst
        decreases rhs,
    {
        match rhs {
            DiroAst::DyadicOP { verb: sv, lhs: sl, rhs: sr } => if verb.rank() >= sv.rank() {
                DiroAst::DyadicOP {
                    verb: sv,
                    lhs: Box::new(Self::combined(verb, lhs, *sl)),
                    rhs: sr,
                }
            } else {
                DiroAst::DyadicOP { verb, lhs: Box::new(lhs), rhs: Box::new(rhs) }
            },
            _ => DiroAst::DyadicOP { verb, lhs: Box::new(lhs), rhs: Box::new(rhs) },
        }
    }

    /// Joins `lhs verb rhs`, where `rhs` is an already grouped chain, into
    /// one chain grouped as the notation reads: `verb` takes the place
    /// that its rank gives it among the operators of `rhs`.
    pub fn dyadic_with_priority(verb: Verb, lhs: DiroAst, rhs: DiroAst) -> (r: DiroAst)
        ensures
            r == Self::combined(verb, lhs, rhs),
            r.operands() == lhs.operands() + rhs.operands(),
            r.verbs() == lhs.verbs().push(verb) + rhs.verbs(),
            lhs !is DyadicOP && rhs.left_grouped() ==> r.left_grouped(),
            r matches DiroAst::DyadicOP { verb: v, .. } && (v == verb || (
            rhs matches DiroAst::DyadicOP { verb: rv, .. } && v == rv && verb.rank() >= rv.rank())),
        decreases rhs,
    {
        proof {
            lemma_combined(verb, lhs, rhs);
        }
        match rhs {
            DiroAst::DyadicOP { verb: sv, lhs: sl, rhs: sr } => {
                if verb.priority() >= sv.priority() {
                    let inner = Self::dyadic_with_priority(verb, lhs, *sl);
                    DiroAst::DyadicOP { verb: sv, lhs: Box::new(inner), rhs: sr }
                } else {
                    let rebuilt = DiroAst::DyadicOP { verb: sv, lhs: sl, rhs: sr };
                    DiroAst::DyadicOP { verb, lhs: Box::new(lhs), rhs: Box::new(rebuilt) }
                }
            },
            other => DiroAst::DyadicOP { verb, lhs: Box::new(lhs), rhs: Box::new(other) },
        }
    }

    /// Some dice term in the expression.
    pub open spec fn has_dice(&self) -> bool
        decreases self,
    {
        match self {
            DiroAst::Int(_) => false,
            DiroAst::Dice(_, _) => true,
            DiroAst::DyadicOP { lhs, rhs, .. } => lhs.has_dice() || rhs.has_dice(),
            DiroAst::Closed(t) => t.has_dice(),
        }
    }

    /// No dice term holds an outcome.
    pub open spec fn none_rolled(&self) -> bool
        decreases self,
    {
        match self {
            DiroAst::Int(_) => true,
            DiroAst::Dice(_, slot) => slot is None,
            DiroAst::DyadicOP { lhs, rhs, .. } => lhs.none_rolled() && rhs.none_rolled(),
            DiroAst::Closed(t) => t.none_rolled(),
        }
    }
}

/// An expression that holds a dice term, with nothing rolled yet, has no
/// value: evaluating it before rolling fails with `DiceNotRolled`.
pub proof fn lemma_unrolled_fails(t: DiroAst)
    requires
        t.has_dice(),
        t.none_rolled(),
    ensures
        t.value() == Err::<i32, DiroError>(DiroError::DiceNotRolled),
{
    lemma_unrolled_not_all_rolled(t);
}

proof fn lemma_unrolled_not_all_rolled(t: DiroAst)
    requires
        t.has_dice(),
        t.none_rolled(),
    ensures
        !t.all_rolled(),
    decreases t,
{
    match t {
        DiroAst::DyadicOP { lhs, rhs, .. } => {
            if lhs.has_dice() {
                lemma_unrolled_not_all_rolled(*lhs);
            } else {
                lemma_unrolled_not_all_rolled(*rhs);
            }
        },
        DiroAst::Closed(inner) => lemma_unrolled_not_all_rolled(*inner),
        _ => {},
    }
}

/// A lone dice term that was not rolled fails with `DiceNotRolled`.
pub proof fn lemma_unrolled_dice(d: Dice)
    ensures
        DiroAst::Dice(d, None).value() == Err::<i32, DiroError>(DiroError::DiceNotRolled),
{
}

/// Once every dice term holds an outcome, evaluation can fail only by a
/// division by zero or an overflow.
pub proof fn lemma_rolled_evaluates(t: DiroAst)
    requires
        t.all_rolled(),
    ensures
        t.value() is Ok || t.value() == Err::<i32, DiroError>(DiroError::ZeroDivision)
            || t.value() == Err::<i32, DiroError>(DiroError::Overflow),
    decreases t,
{
    match t {
        DiroAst::DyadicOP { lhs, rhs, .. } => {
            lemma_rolled_evaluates(*lhs);
            lemma_rolled_evaluates(*rhs);
        },
        DiroAst::Closed(inner) => lemma_rolled_evaluates(*inner),
        _ => {},
    }
}

/// Rolling an expression whose dice all hold outcomes changes nothing.
pub proof fn lemma_roll_again_keeps(t: DiroAst, n: DiroAst)
    requires
        t.all_rolled(),
        t.rolled_into(n),
    ensures
        n == t,
    decreases t,
{
    match t {
        DiroAst::DyadicOP { lhs, rhs, .. } => {
            let (l2, r2) = match n {
                DiroAst::DyadicOP { lhs: l2, rhs: r2, .. } => (*l2, *r2),
                _ => (n, n),
            };
            lemma_roll_again_keeps(*lhs, l2);
            lemma_roll_again_keeps(*rhs, r2);
        },
        DiroAst::Closed(inner) => {
            let i2 = match n {
                DiroAst::Closed(i2) => *i2,
                _ => n,
            };
            lemma_roll_again_keeps(*inner, i2);
        },
        _ => {},
    }
}

/// Dividing by an operand whose value is zero fails with `ZeroDivision`,
/// whatever the (rolled) dividend.
pub proof fn lemma_divide_by_zero(lhs: DiroAst, rhs: DiroAst)
    requires
        lhs.all_rolled(),
        rhs.value() == Ok::<i32, DiroError>(0),
    ensures
        (DiroAst::DyadicOP { verb: Verb::Divide, lhs: Box::new(lhs), rhs: Box::new(rhs) }).value()
            == Err::<i32, DiroError>(DiroError::ZeroDivision),
{
}

impl DiroAst {
    /// Whether every dice term can be rolled, as `roll` and `eval` ask.
    pub fn is_rollable(&self) -> (r: bool)
        ensures
            r == self.rollable(),
        decreases self,
    {
        match self {
            DiroAst::Int(_) => true,
            DiroAst::Dice(d, slot) => slot.is_some() || d.is_rollable(),
            DiroAst::DyadicOP { lhs, rhs, .. } => lhs.is_rollable() && rhs.is_rollable(),
            DiroAst::Closed(t) => t.is_rollable(),
        }
    }
}

impl DiroAst {
    /// The tree without the marks of parentheses from the source.
    pub open spec fn stripped(&self) -> DiroAst
        decreases self,
    {
        match self {
            DiroAst::DyadicOP { verb, lhs, rhs } => DiroAst::DyadicOP {
                verb: *verb,
                lhs: Box::new(lhs.stripped()),
                rhs: Box::new(rhs.stripped()),
            },
            DiroAst::Closed(t) => t.stripped(),
            _ => *self,
        }
    }
}

/// What `combined` builds: the operands and operators in their order,
/// grouped from the left, with `verb` or the top operator of `rhs` on top.
pub proof fn lemma_combined(verb: Verb, lhs: DiroAst, rhs: DiroAst)
    ensures
        DiroAst::combined(verb, lhs, rhs).operands() == lhs.operands() + rhs.operands(),
        DiroAst::combined(verb, lhs, rhs).verbs() == lhs.verbs().push(verb) + rhs.verbs(),
        lhs !is DyadicOP && rhs.left_grouped() ==> DiroAst::combined(verb, lhs, rhs).left_grouped(),
        DiroAst::combined(verb, lhs, rhs) matches DiroAst::DyadicOP { verb: v, .. } && (v == verb
            || (rhs matches DiroAst::DyadicOP { verb: rv, .. } && v == rv && verb.rank()
            >= rv.rank())),
    decreases rhs,
{
    let r = DiroAst::combined(verb, lhs, rhs);
    match rhs {
        DiroAst::DyadicOP { verb: sv, lhs: sl, rhs: sr } => {
            if verb.rank() >= sv.rank() {
                lemma_combined(verb, lhs, *sl);
                let inner = DiroAst::combined(verb, lhs, *sl);
                assert(r.operands() =~= lhs.operands() + rhs.operands());
                assert(r.verbs() =~= lhs.verbs().push(verb) + rhs.verbs());
                if lhs !is DyadicOP && rhs.left_grouped() {
                    assert(sl.left_grouped());
                    assert(inner.left_grouped());
                    assert(r.left_grouped());
                }
            } else {
                assert(r.verbs() =~= lhs.verbs().push(verb) + rhs.verbs());
                assert(lhs !is DyadicOP ==> lhs.left_grouped());
            }
        },
        _ => {
            assert(r.verbs() =~= lhs.verbs().push(verb) + rhs.verbs());
            assert(lhs !is DyadicOP ==> lhs.left_grouped());
        },
    }
}

pub(crate) proof fn lemma_operands_count(t: DiroAst)
    ensures
        t.operands().len() == t.verbs().len() + 1,
        forall|k: int| 0 <= k < t.operands().len() ==> #[trigger] t.operands()[k] !is DyadicOP,
    decreases t,
{
    if let DiroAst::DyadicOP { lhs, rhs, .. } = t {
        lemma_operands_count(*lhs);
        lemma_operands_count(*rhs);
        assert forall|k: int| 0 <= k < t.operands().len() implies #[trigger] t.operands()[k]
            !is DyadicOP by {
            if k < lhs.operands().len() {
                assert(t.operands()[k] == lhs.operands()[k]);
            } else {
                assert(t.operands()[k] == rhs.operands()[k - lhs.operands().len()]);
            }
        }
    }
}

/// Every operator of a chain grouped from the left binds at least as
/// tightly as its top operator.
pub(crate) proof fn lemma_grouped_ranks(t: DiroAst)
    requires
        t.left_grouped(),
    ensures
        t matches DiroAst::DyadicOP { verb, .. } ==> forall|k: int|
            0 <= k < t.verbs().len() ==> #[trigger] t.verbs()[k].rank() >= verb.rank(),
    decreases t,
{
    if let DiroAst::DyadicOP { verb, lhs, rhs } = t {
        lemma_grouped_ranks(*lhs);
        lemma_grouped_ranks(*rhs);
        let lv = lhs.verbs();
        let rv = rhs.verbs();
        assert forall|k: int| 0 <= k < t.verbs().len() implies #[trigger] t.verbs()[k].rank()
            >= verb.rank() by {
            if k < lv.len() {
                assert(t.verbs()[k] == lv[k]);
            } else if k > lv.len() {
                assert(t.verbs()[k] == rv[k - lv.len() - 1]);
            }
        }
    }
}

/// Two chains grouped from the left, with the same operators and operands
/// that agree but for parentheses, agree but for parentheses.
pub(crate) proof fn lemma_grouping_unique(x: DiroAst, y: DiroAst)
    requires
        x.left_grouped(),
        y.left_grouped(),
        x.verbs() == y.verbs(),
        x.operands().len() == y.operands().len(),
        forall|k: int|
            0 <= k < x.operands().len() ==> (#[trigger] x.operands()[k]).stripped()
                == y.operands()[k].stripped(),
    ensures
        x.stripped() == y.stripped(),
    decreases x,
{
    lemma_operands_count(x);
    lemma_operands_count(y);
    match x {
        DiroAst::DyadicOP { verb: xv, lhs: xl, rhs: xr } => {
            match y {
                DiroAst::DyadicOP { verb: yv, lhs: yl, rhs: yr } => {
                    lemma_grouped_ranks(*xl);
                    lemma_grouped_ranks(*xr);
                    lemma_grouped_ranks(*yl);
                    lemma_grouped_ranks(*yr);
                    lemma_operands_count(*xl);
                    lemma_operands_count(*xr);
                    lemma_operands_count(*yl);
                    lemma_operands_count(*yr);
                    let vs = x.verbs();
                    let i = xl.verbs().len() as int;
                    let j = yl.verbs().len() as int;
                    assert(vs[i] == xv);
                    assert(vs[j] == yv);
                    // the top operator is the last one of the loosest rank
                    assert forall|k: int| 0 <= k < vs.len() implies #[trigger] vs[k].rank()
                        >= xv.rank() && (k > i ==> vs[k].rank() > xv.rank()) by {
                        if k < i {
                            assert(vs[k] == xl.verbs()[k]);
                        } else if k > i {
                            assert(vs[k] == xr.verbs()[k - i - 1]);
                        }
                    }
                    assert forall|k: int| 0 <= k < vs.len() implies #[trigger] vs[k].rank()
                        >= yv.rank() && (k > j ==> vs[k].rank() > yv.rank()) by {
                        if k < j {
                            assert(vs[k] == yl.verbs()[k]);
                        } else if k > j {
                            assert(vs[k] == yr.verbs()[k - j - 1]);
                        }
                    }
                    assert(i == j);
                    assert(xl.verbs() =~= vs.subrange(0, i));
                    assert(yl.verbs() =~= vs.subrange(0, i));
                    assert(xr.verbs() =~= vs.subrange(i + 1, vs.len() as int));
                    assert(yr.verbs() =~= vs.subrange(i + 1, vs.len() as int));
                    let xo = x.operands();
                    let yo = y.operands();
                    assert forall|k: int| 0 <= k < xl.operands().len() implies (
                    #[trigger] xl.operands()[k]).stripped() == yl.operands()[k].stripped() by {
                        assert(xl.operands()[k] == xo[k]);
                        assert(yl.operands()[k] == yo[k]);
                    }
                    assert forall|k: int| 0 <= k < xr.operands().len() implies (
                    #[trigger] xr.operands()[k]).stripped() == yr.operands()[k].stripped() by {
                        assert(xr.operands()[k] == xo[k + i + 1]);
                        assert(yr.operands()[k] == yo[k + i + 1]);
                    }
                    lemma_grouping_unique(*xl, *yl);
                    lemma_grouping_unique(*xr, *yr);
                },
                _ => {},
            }
        },
        _ => {
            assert(x.operands()[0] == x);
            assert(y.operands()[0] == y);
        },
    }
}

impl DiroAst {
    /// The tree as its notation shows it: what `text_in` puts between
    /// parentheses becomes a group, other groups disappear.
    pub open spec fn seen_in(&self, ctx: int, right: bool) -> DiroAst
        decreases self,
    {
        match self {
            DiroAst::DyadicOP { verb, lhs, rhs } => {
                let inner = DiroAst::DyadicOP {
                    verb: *verb,
                    lhs: Box::new(lhs.seen_in(verb.rank(), false)),
                    rhs: Box::new(rhs.seen_in(verb.rank(), true)),
                };
                if needs_parens(verb.rank(), ctx, right) {
                    DiroAst::Closed(Box::new(inner))
                } else {
                    inner
                }
            },
            DiroAst::Closed(t) => t.seen_in(ctx, right),
            _ => *self,
        }
    }

    /// The notation of a tree whose groups are all to be shown.
    pub open spec fn shown(&self) -> Seq<char>
        decreases self,
    {
        match self {
            DiroAst::Int(i) => int_text(*i as int),
            DiroAst::Dice(d, _) => d.notation(),
            DiroAst::DyadicOP { verb, lhs, rhs } => lhs.shown() + seq![verb.symbol()]
                + rhs.shown(),
            DiroAst::Closed(t) => parenthesized(t.shown()),
        }
    }

    /// A tree whose notation reads back: each group holds a chain grouped
    /// from the left, and each dice term is unrolled, well formed dice that
    /// the notation can read.
    pub open spec fn printable(&self) -> bool
        decreases self,
    {
        match self {
            DiroAst::Int(_) => true,
            DiroAst::Dice(d, slot) => slot is None && d.wf(),
            DiroAst::DyadicOP { lhs, rhs, .. } => lhs.printable() && rhs.printable(),
            DiroAst::Closed(t) => t.left_grouped() && t.printable(),
        }
    }

    pub open spec fn size(&self) -> nat
        decreases self,
    {
        match self {
            DiroAst::DyadicOP { lhs, rhs, .. } => lhs.size() + rhs.size() + 1,
            DiroAst::Closed(t) => t.size() + 1,
            _ => 1,
        }
    }
}

pub(crate) proof fn lemma_seen_text(t: DiroAst, ctx: int, right: bool)
    ensures
        t.text_in(ctx, right) == t.seen_in(ctx, right).shown(),
        t.seen_in(ctx, right).stripped() == t.stripped(),
        t.seen_in(ctx, right) !is Closed ==> t.seen_in(ctx, right).left_grouped(),
    decreases t,
{
    match t {
        DiroAst::DyadicOP { verb, lhs, rhs } => {
            lemma_seen_text(*lhs, verb.rank(), false);
            lemma_seen_text(*rhs, verb.rank(), true);
            let inner = DiroAst::DyadicOP {
                verb,
                lhs: Box::new(lhs.seen_in(verb.rank(), false)),
                rhs: Box::new(rhs.seen_in(verb.rank(), true)),
            };
            assert(inner.shown() == lhs.text_in(verb.rank(), false) + seq![verb.symbol()]
                + rhs.text_in(verb.rank(), true));
            let l = lhs.seen_in(verb.rank(), false);
            let r = rhs.seen_in(verb.rank(), true);
            assert(l matches DiroAst::DyadicOP { verb: lv, .. } ==> lv.rank() >= verb.rank()) by {
                lemma_seen_top(*lhs, verb.rank(), false);
            }
            assert(r matches DiroAst::DyadicOP { verb: rv, .. } ==> rv.rank() > verb.rank()) by {
                lemma_seen_top(*rhs, verb.rank(), true);
            }
            assert(l is Closed ==> l.left_grouped());
            assert(r is Closed ==> r.left_grouped());
            assert(inner.stripped() == t.stripped());
            assert(DiroAst::Closed(Box::new(inner)).stripped() == inner.stripped());
        },
        DiroAst::Closed(inner) => {
            lemma_seen_text(*inner, ctx, right);
        },
        _ => {},
    }
}

/// Where the notation shows an operator without parentheses, it binds as
/// the context asks.
pub(crate) proof fn lemma_seen_top(t: DiroAst, ctx: int, right: bool)
    ensures
        t.seen_in(ctx, right) matches DiroAst::DyadicOP { verb, .. } ==> !needs_parens(
            verb.rank(),
            ctx,
            right,
        ),
    decreases t,
{
    if let DiroAst::Closed(inner) = t {
        lemma_seen_top(*inner, ctx, right);
    }
}

pub(crate) proof fn lemma_seen_printable(t: DiroAst, ctx: int, right: bool)
    requires
        t.stripped().printable(),
    ensures
        t.seen_in(ctx, right).printable(),
    decreases t,
{
    match t {
        DiroAst::DyadicOP { verb, lhs, rhs } => {
            lemma_seen_printable(*lhs, verb.rank(), false);
            lemma_seen_printable(*rhs, verb.rank(), true);
            lemma_seen_text(t, 0, false);
            let inner = DiroAst::DyadicOP {
                verb,
                lhs: Box::new(lhs.seen_in(verb.rank(), false)),
                rhs: Box::new(rhs.seen_in(verb.rank(), true)),
            };
            lemma_seen_text(*lhs, verb.rank(), false);
            lemma_seen_text(*rhs, verb.rank(), true);
            lemma_seen_top(*lhs, verb.rank(), false);
            lemma_seen_top(*rhs, verb.rank(), true);
            assert(t.stripped() == DiroAst::DyadicOP {
                verb,
                lhs: Box::new(lhs.stripped()),
                rhs: Box::new(rhs.stripped()),
            });
            assert(lhs.stripped().printable());
            assert(rhs.stripped().printable());
            assert(inner.printable());
            assert(inner.left_grouped());
            assert(DiroAst::Closed(Box::new(inner)).printable());
        },
        DiroAst::Closed(inner) => {
            lemma_seen_printable(*inner, ctx, right);
        },
        _ => {},
    }
}

pub(crate) proof fn lemma_operand_sizes(t: DiroAst)
    ensures
        forall|k: int|
            0 <= k < t.operands().len() ==> (#[trigger] t.operands()[k]).size() <= t.size(),
    decreases t,
{
    if let DiroAst::DyadicOP { lhs, rhs, .. } = t {
        lemma_operand_sizes(*lhs);
        lemma_operand_sizes(*rhs);
        assert forall|k: int| 0 <= k < t.operands().len() implies (
        #[trigger] t.operands()[k]).size() <= t.size() by {
            if k < lhs.operands().len() {
                assert(t.operands()[k] == lhs.operands()[k]);
            } else {
                assert(t.operands()[k] == rhs.operands()[k - lhs.operands().len()]);
            }
        }
    } else {
        assert(t.operands()[0] == t);
    }
}

pub(crate) proof fn lemma_operands_printable(t: DiroAst)
    requires
        t.printable(),
    ensures
        forall|k: int|
            0 <= k < t.operands().len() ==> (#[trigger] t.operands()[k]).printable(),
    decreases t,
{
    if let DiroAst::DyadicOP { lhs, rhs, .. } = t {
        lemma_operands_printable(*lhs);
        lemma_operands_printable(*rhs);
        assert forall|k: int| 0 <= k < t.operands().len() implies (
        #[trigger] t.operands()[k]).printable() by {
            if k < lhs.operands().len() {
                assert(t.operands()[k] == lhs.operands()[k]);
            } else {
                assert(t.operands()[k] == rhs.operands()[k - lhs.operands().len()]);
            }
        }
    } else {
        assert(t.operands()[0] == t);
    }
}

impl Clone for DiroAst {
    /// A copy of the tree, node by node.
    fn clone(&self) -> Self
        decreases self,
    {
        match self {
            DiroAst::Int(i) => DiroAst::Int(*i),
            DiroAst::Dice(d, slot) => DiroAst::Dice(d.clone(), slot.clone()),
            DiroAst::DyadicOP { verb, lhs, rhs } => DiroAst::DyadicOP {
                verb: *verb,
                lhs: Box::new((**lhs).clone()),
                rhs: Box::new((**rhs).clone()),
            },
            DiroAst::Closed(t) => DiroAst::Closed(Box::new((**t).clone())),
        }
    }
}

} // verus!
