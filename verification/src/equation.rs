//! Reading a line of tiles as an equation: grouping digits into numbers,
//! evaluating each side with the usual operator precedence in exact
//! arithmetic, and checking that both sides are equal.

use vstd::prelude::*;

use crate::rational::{agrees, lemma_ops_agree, fits, same_value, frac_add, frac_div, frac_mul, frac_sub, to_rational, EvalFault, Frac, Rational};
use crate::tile::{Operator, TileKind};
use crate::rational::result_frac;
use crate::text::{decimal, push_decimal, rational_string, rational_text};
use crate::validation::ValidationError;

verus! {

/// Why a line of tiles is not a correct equation.
#[derive(Clone, Copy, Debug, PartialEq, Eq, Structural)]
pub enum EquationFault {
    /// The line holds this many `=` tiles instead of exactly one.
    EqualsCount(usize),
    /// Nothing stands on one side of the `=`.
    EmptySide,
    /// The left-hand side is not a valid expression.
    InvalidLeft,
    /// The right-hand side is not a valid expression.
    InvalidRight,
    /// Evaluating needs integers above `u128::MAX`.
    OutOfRange,
    /// Both sides are valid but their values differ: left, then right.
    Unequal(Rational, Rational),
}

/// What the message of a fault says.
pub open spec fn fault_text(f: EquationFault) -> Seq<char> {
    match f {
        EquationFault::EqualsCount(n) => "must have exactly one = (found "@ + decimal(n as nat) + ")"@,
        EquationFault::EmptySide => "empty side of equation"@,
        EquationFault::InvalidLeft => "invalid left-hand expression"@,
        EquationFault::InvalidRight => "invalid right-hand expression"@,
        EquationFault::OutOfRange => "numbers too large to evaluate exactly"@,
        EquationFault::Unequal(l, r) => rational_text(l) + " ≠ "@ + rational_text(r),
    }
}

impl EquationFault {
    /// The message of the fault.
    pub fn to_string(&self) -> (s: String)
        ensures
            s@ == fault_text(*self),
    {
        match self {
            EquationFault::EqualsCount(n) => {
                let mut s = String::from_str("must have exactly one = (found ");
                push_decimal(&mut s, *n as u128);
                s.append(")");
                s
            },
            EquationFault::EmptySide => String::from_str("empty side of equation"),
            EquationFault::InvalidLeft => String::from_str("invalid left-hand expression"),
            EquationFault::InvalidRight => String::from_str("invalid right-hand expression"),
            EquationFault::OutOfRange => String::from_str("numbers too large to evaluate exactly"),
            EquationFault::Unequal(l, r) => {
                let mut s = rational_string(*l);
                s.append(" ≠ ");
                let right = rational_string(*r);
                s.append(right.as_str());
                s
            },
        }
    }
}

// ---------------------------------------------------------------------------
// Tokens
// ---------------------------------------------------------------------------

/// The numbers of an expression, in order, and its operators, in order.
pub type Tokens = (Seq<Frac>, Seq<Operator>);

/// The face value of a digit tile.
pub open spec fn digit_of(k: TileKind) -> int {
    match k {
        TileKind::Number { value } => value as int,
        _ => 0,
    }
}

/// The index just after the run of digit tiles that starts at `i`.
pub open spec fn digit_run_end(t: Seq<TileKind>, i: int) -> int
    decreases t.len() - i,
{
    if i + 1 < t.len() && t[i + 1] is Number {
        digit_run_end(t, i + 1)
    } else {
        i + 1
    }
}

/// The decimal value of the digit tiles `t[i..j]`, read left to right.
pub open spec fn run_value(t: Seq<TileKind>, i: int, j: int, cap: bool) -> Result<int, EvalFault>
    decreases j - i,
{
    if j <= i + 1 {
        Ok(digit_of(t[i]))
    } else {
        match run_value(t, i, j - 1, cap) {
            Err(e) => Err(e),
            Ok(v) => {
                let w = v * 10 + digit_of(t[j - 1]);
                if fits(w, cap) {
                    Ok(w)
                } else {
                    Err(EvalFault::OutOfRange)
                }
            },
        }
    }
}

/// The number that starts with the digit tile at `i`, and the index after it:
/// consecutive digits form one number, and a fraction tile right after the
/// digits makes a mixed number (3, 1/4 is 3 1/4; 0, 1/2 is 1/2).
pub open spec fn number_token(t: Seq<TileKind>, i: int, cap: bool) -> Result<(Frac, int), EvalFault> {
    let j = digit_run_end(t, i);
    match run_value(t, i, j, cap) {
        Err(e) => Err(e),
        Ok(v) => {
            if j < t.len() {
                match t[j] {
                    TileKind::Fraction { numerator, denominator } => {
                        if denominator == 0 {
                            Err(EvalFault::Malformed)
                        } else {
                            let m = v * denominator + numerator;
                            if fits(m, cap) {
                                Ok(((m, denominator as int), j + 1))
                            } else {
                                Err(EvalFault::OutOfRange)
                            }
                        }
                    },
                    _ => Ok(((v, 1), j)),
                }
            } else {
                Ok(((v, 1), j))
            }
        },
    }
}

pub open spec fn with_value(q: Frac, rest: Result<Tokens, EvalFault>) -> Result<Tokens, EvalFault> {
    match rest {
        Ok((vs, os)) => Ok((seq![q] + vs, os)),
        Err(e) => Err(e),
    }
}

pub open spec fn with_op(op: Operator, rest: Result<Tokens, EvalFault>) -> Result<Tokens, EvalFault> {
    match rest {
        Ok((vs, os)) => Ok((vs, seq![op] + os)),
        Err(e) => Err(e),
    }
}

pub open spec fn with_prefix(pv: Seq<Frac>, po: Seq<Operator>, rest: Result<Tokens, EvalFault>) -> Result<Tokens, EvalFault> {
    match rest {
        Ok((vs, os)) => Ok((pv + vs, po + os)),
        Err(e) => Err(e),
    }
}

/// The tokens of `t[i..]`, given whether the token before `i` was a number.
/// Numbers and operators must alternate, starting and ending with a number;
/// an `=` inside an expression, or a fraction tile with denominator zero,
/// also makes it malformed.
pub open spec fn tokens_from(t: Seq<TileKind>, i: int, after_number: bool, cap: bool) -> Result<Tokens, EvalFault>
    decreases t.len() - i,
{
    if i < 0 || i >= t.len() {
        if after_number {
            Ok((Seq::empty(), Seq::empty()))
        } else {
            Err(EvalFault::Malformed)
        }
    } else {
        match t[i] {
            TileKind::Number { .. } => {
                proof {
                    lemma_number_token_advances(t, i, cap);
                }
                if after_number {
                    Err(EvalFault::Malformed)
                } else {
                    match number_token(t, i, cap) {
                        Err(e) => Err(e),
                        Ok((q, j)) => with_value(q, tokens_from(t, j, true, cap)),
                    }
                }
            },
            TileKind::Fraction { numerator, denominator } => {
                if after_number || denominator == 0 {
                    Err(EvalFault::Malformed)
                } else {
                    with_value((numerator as int, denominator as int), tokens_from(t, i + 1, true, cap))
                }
            },
            TileKind::Operator { op } => {
                if after_number {
                    with_op(op, tokens_from(t, i + 1, false, cap))
                } else {
                    Err(EvalFault::Malformed)
                }
            },
            TileKind::Equals => Err(EvalFault::Malformed),
        }
    }
}

pub proof fn lemma_digit_run_end(t: Seq<TileKind>, i: int)
    requires
        0 <= i < t.len(),
    ensures
        i < digit_run_end(t, i) <= t.len(),
        forall|k: int| i < k < digit_run_end(t, i) ==> #[trigger] t[k] is Number,
        digit_run_end(t, i) < t.len() ==> !(t[digit_run_end(t, i)] is Number),
    decreases t.len() - i,
{
    if i + 1 < t.len() && t[i + 1] is Number {
        lemma_digit_run_end(t, i + 1);
    }
}

pub proof fn lemma_number_token_advances(t: Seq<TileKind>, i: int, cap: bool)
    ensures
        0 <= i < t.len() ==> (number_token(t, i, cap) matches Ok((q, j)) ==> i < j <= t.len()),
{
    if 0 <= i < t.len() {
        lemma_digit_run_end(t, i);
    }
}

/// Once reading a run of digits fails, reading a longer run fails the same way.
pub proof fn lemma_run_value_error_persists(t: Seq<TileKind>, i: int, j: int, k: int, cap: bool)
    requires
        i < j <= k,
        run_value(t, i, j, cap) is Err,
    ensures
        run_value(t, i, k, cap) == run_value(t, i, j, cap),
    decreases k - j,
{
    if j < k {
        lemma_run_value_error_persists(t, i, j, k - 1, cap);
    }
}

// ---------------------------------------------------------------------------
// Evaluation
// ---------------------------------------------------------------------------

/// While reading an expression left to right: the sum of the finished terms,
/// whether the term being built is subtracted, and that term.
pub type EvalState = (Frac, bool, Frac);

/// Add the finished term to the running sum, or subtract it.
pub open spec fn commit(sum: Frac, subtract: bool, term: Frac, cap: bool) -> Result<Frac, EvalFault> {
    if subtract {
        frac_sub(sum, term, cap)
    } else {
        frac_add(sum, term, cap)
    }
}

/// Apply operator `op` with the next number `v`: `*` and `/` extend the current
/// term, `+` and `-` finish it and start a new one.
pub open spec fn eval_step(s: EvalState, op: Operator, v: Frac, cap: bool) -> Result<EvalState, EvalFault> {
    match op {
        Operator::Multiply => match frac_mul(s.2, v, cap) {
            Ok(t) => Ok((s.0, s.1, t)),
            Err(e) => Err(e),
        },
        Operator::Divide => match frac_div(s.2, v, cap) {
            Ok(t) => Ok((s.0, s.1, t)),
            Err(e) => Err(e),
        },
        Operator::Add => match commit(s.0, s.1, s.2, cap) {
            Ok(sum) => Ok((sum, false, v)),
            Err(e) => Err(e),
        },
        Operator::Subtract => match commit(s.0, s.1, s.2, cap) {
            Ok(sum) => Ok((sum, true, v)),
            Err(e) => Err(e),
        },
    }
}

/// The state after reading the first `k` numbers and the operators between them.
pub open spec fn eval_prefix(vs: Seq<Frac>, os: Seq<Operator>, k: int, cap: bool) -> Result<EvalState, EvalFault>
    decreases k,
{
    if k <= 1 {
        Ok(((0, 1), false, vs[0]))
    } else {
        match eval_prefix(vs, os, k - 1, cap) {
            Err(e) => Err(e),
            Ok(s) => eval_step(s, os[k - 2], vs[k - 1], cap),
        }
    }
}

/// The value of numbers `vs` joined by operators `os`, with `*` and `/` binding
/// tighter than `+` and `-`, each level left to right; there must be exactly one
/// more number than operators.
pub open spec fn eval_tokens(vs: Seq<Frac>, os: Seq<Operator>, cap: bool) -> Result<Frac, EvalFault> {
    if vs.len() != os.len() + 1 {
        Err(EvalFault::Malformed)
    } else {
        match eval_prefix(vs, os, vs.len() as int, cap) {
            Err(e) => Err(e),
            Ok(s) => commit(s.0, s.1, s.2, cap),
        }
    }
}

/// The value of an expression written with tiles.
pub open spec fn evaluate(t: Seq<TileKind>, cap: bool) -> Result<Frac, EvalFault> {
    match tokens_from(t, 0, false, cap) {
        Err(e) => Err(e),
        Ok(tk) => eval_tokens(tk.0, tk.1, cap),
    }
}

/// Once reading an expression fails, it fails the same way to the end.
pub proof fn lemma_eval_prefix_error_persists(vs: Seq<Frac>, os: Seq<Operator>, j: int, k: int, cap: bool)
    requires
        1 <= j <= k,
        eval_prefix(vs, os, j, cap) is Err,
    ensures
        eval_prefix(vs, os, k, cap) == eval_prefix(vs, os, j, cap),
    decreases k - j,
{
    if j < k {
        lemma_eval_prefix_error_persists(vs, os, j, k - 1, cap);
    }
}

/// The result of an evaluation with one more operation applied to its value.
pub open spec fn then_apply(r: Result<Frac, EvalFault>, f: spec_fn(Frac) -> Result<Frac, EvalFault>) -> Result<Frac, EvalFault> {
    match r {
        Ok(x) => f(x),
        Err(e) => Err(e),
    }
}

proof fn lemma_eval_prefix_extend(vs: Seq<Frac>, os: Seq<Operator>, op: Operator, v: Frac, k: int, cap: bool)
    requires
        vs.len() == os.len() + 1,
        1 <= k <= vs.len(),
    ensures
        eval_prefix(vs.push(v), os.push(op), k, cap) == eval_prefix(vs, os, k, cap),
    decreases k,
{
    if k > 1 {
        lemma_eval_prefix_extend(vs, os, op, v, k - 1, cap);
        assert(vs.push(v)[k - 1] == vs[k - 1]);
        assert(os.push(op)[k - 2] == os[k - 2]);
    } else {
        assert(vs.push(v)[0] == vs[0]);
    }
}

/// Numbers joined by operators, followed by `+ v` or `- v`: the value is the
/// value before with `v` added, or with `v` taken away (refused when that
/// goes below zero), whatever operators came before.
pub proof fn lemma_eval_tokens_append(vs: Seq<Frac>, os: Seq<Operator>, v: Frac, cap: bool)
    ensures
        eval_tokens(vs.push(v), os.push(Operator::Add), cap) == then_apply(
            eval_tokens(vs, os, cap),
            |x: Frac| frac_add(x, v, cap),
        ),
        eval_tokens(vs.push(v), os.push(Operator::Subtract), cap) == then_apply(
            eval_tokens(vs, os, cap),
            |x: Frac| frac_sub(x, v, cap),
        ),
{
    if vs.len() == os.len() + 1 {
        let n = vs.len() as int;
        lemma_eval_prefix_extend(vs, os, Operator::Add, v, n, cap);
        lemma_eval_prefix_extend(vs, os, Operator::Subtract, v, n, cap);
        assert(vs.push(v)[n] == v);
        assert(os.push(Operator::Add)[n - 1] == Operator::Add);
        assert(os.push(Operator::Subtract)[n - 1] == Operator::Subtract);
    }
}

proof fn lemma_digit_run_end_extend(t: Seq<TileKind>, suffix: Seq<TileKind>, i: int)
    requires
        0 <= i < t.len(),
        suffix.len() > 0,
        !(suffix[0] is Number),
    ensures
        digit_run_end(t + suffix, i) == digit_run_end(t, i),
    decreases t.len() - i,
{
    let t2 = t + suffix;
    if i + 1 < t.len() {
        assert(t2[i + 1] == t[i + 1]);
        if t[i + 1] is Number {
            lemma_digit_run_end_extend(t, suffix, i + 1);
        }
    } else {
        assert(t2[i + 1] == suffix[0]);
    }
}

proof fn lemma_run_value_extend(t: Seq<TileKind>, suffix: Seq<TileKind>, i: int, j: int, cap: bool)
    requires
        0 <= i < j <= t.len(),
    ensures
        run_value(t + suffix, i, j, cap) == run_value(t, i, j, cap),
    decreases j - i,
{
    let t2 = t + suffix;
    if j <= i + 1 {
        assert(t2[i] == t[i]);
    } else {
        lemma_run_value_extend(t, suffix, i, j - 1, cap);
        assert(t2[j - 1] == t[j - 1]);
    }
}

proof fn lemma_number_token_extend(t: Seq<TileKind>, suffix: Seq<TileKind>, i: int, cap: bool)
    requires
        0 <= i < t.len(),
        suffix.len() > 0,
        suffix[0] is Operator,
    ensures
        number_token(t + suffix, i, cap) == number_token(t, i, cap),
{
    let t2 = t + suffix;
    lemma_digit_run_end_extend(t, suffix, i);
    lemma_digit_run_end(t, i);
    let j = digit_run_end(t, i);
    lemma_run_value_extend(t, suffix, i, j, cap);
    if j < t.len() {
        assert(t2[j] == t[j]);
    } else {
        assert(t2[j] == suffix[0]);
    }
}

/// The tokens of the tiles `t` followed by `+ d` or `- d`.
pub open spec fn tokens_then(r: Result<Tokens, EvalFault>, op: Operator, d: u8) -> Result<Tokens, EvalFault> {
    match r {
        Ok((vs, os)) => Ok((vs.push((d as int, 1int)), os.push(op))),
        Err(e) => Err(e),
    }
}

proof fn lemma_tokens_extend(t: Seq<TileKind>, op: Operator, d: u8, i: int, after_number: bool, cap: bool)
    requires
        0 <= i <= t.len(),
    ensures
        tokens_from(t + seq![TileKind::Operator { op }, TileKind::Number { value: d }], i, after_number, cap)
            == tokens_then(tokens_from(t, i, after_number, cap), op, d),
    decreases t.len() - i,
{
    let suffix = seq![TileKind::Operator { op }, TileKind::Number { value: d }];
    let t2 = t + suffix;
    let n = t.len() as int;
    if i == n {
        assert(t2[n] == TileKind::Operator { op });
        if after_number {
            let e = n + 2;
            assert(t2[n + 1] == TileKind::Number { value: d });
            assert(digit_run_end(t2, n + 1) == e);
            assert(run_value(t2, n + 1, e, cap) == Ok::<int, EvalFault>(d as int));
            assert(number_token(t2, n + 1, cap) == Ok::<(Frac, int), EvalFault>(((d as int, 1int), e)));
            assert(tokens_from(t2, e, true, cap) == Ok::<Tokens, EvalFault>((Seq::empty(), Seq::empty())));
            assert(seq![(d as int, 1int)] + Seq::<Frac>::empty() =~= Seq::<Frac>::empty().push((d as int, 1int)));
            assert(seq![op] + Seq::<Operator>::empty() =~= Seq::<Operator>::empty().push(op));
        }
    } else {
        assert(t2[i] == t[i]);
        match t[i] {
            TileKind::Number { .. } => {
                if !after_number {
                    lemma_number_token_extend(t, suffix, i, cap);
                    lemma_number_token_advances(t, i, cap);
                    match number_token(t, i, cap) {
                        Ok((q, j)) => {
                            lemma_tokens_extend(t, op, d, j, true, cap);
                            match tokens_from(t, j, true, cap) {
                                Ok((vs, os)) => {
                                    assert(seq![q] + vs.push((d as int, 1int)) =~= (seq![q] + vs).push(
                                        (d as int, 1int),
                                    ));
                                },
                                Err(_) => {},
                            }
                        },
                        Err(_) => {},
                    }
                }
            },
            TileKind::Fraction { numerator, denominator } => {
                if !(after_number || denominator == 0) {
                    lemma_tokens_extend(t, op, d, i + 1, true, cap);
                    match tokens_from(t, i + 1, true, cap) {
                        Ok((vs, os)) => {
                            let q = (numerator as int, denominator as int);
                            assert(seq![q] + vs.push((d as int, 1int)) =~= (seq![q] + vs).push((d as int, 1int)));
                        },
                        Err(_) => {},
                    }
                }
            },
            TileKind::Operator { op: o } => {
                if after_number {
                    lemma_tokens_extend(t, op, d, i + 1, false, cap);
                    match tokens_from(t, i + 1, false, cap) {
                        Ok((vs, os)) => {
                            assert(seq![o] + os.push(op) =~= (seq![o] + os).push(op));
                        },
                        Err(_) => {},
                    }
                }
            },
            TileKind::Equals => {},
        }
    }
}

/// An expression written with tiles, followed by a `+` tile and a digit
/// tile `d`, has the value of the expression with `d` added; followed by a
/// `-` tile and `d`, the value with `d` taken away, refused when that goes
/// below zero. This holds whatever operators the expression holds: a term
/// after `+` is always added, one after `-` always subtracted.
pub proof fn lemma_evaluate_append(t: Seq<TileKind>, d: u8, cap: bool)
    ensures
        evaluate(t + seq![TileKind::Operator { op: Operator::Add }, TileKind::Number { value: d }], cap)
            == then_apply(evaluate(t, cap), |x: Frac| frac_add(x, (d as int, 1int), cap)),
        evaluate(t + seq![TileKind::Operator { op: Operator::Subtract }, TileKind::Number { value: d }], cap)
            == then_apply(evaluate(t, cap), |x: Frac| frac_sub(x, (d as int, 1int), cap)),
{
    lemma_tokens_extend(t, Operator::Add, d, 0, false, cap);
    lemma_tokens_extend(t, Operator::Subtract, d, 0, false, cap);
    match tokens_from(t, 0, false, cap) {
        Ok((vs, os)) => {
            lemma_eval_tokens_append(vs, os, (d as int, 1int), cap);
        },
        Err(_) => {},
    }
}

/// An expression written with tiles, followed by `+ a * b` or `+ a / b`
/// (digit tiles `a` and `b`), has the value of the expression with the
/// product or quotient of `a` and `b` added: `*` and `/` bind tighter than
/// `+`.
pub proof fn lemma_evaluate_append_product(t: Seq<TileKind>, a: u8, op: Operator, b: u8, cap: bool)
    requires
        op == Operator::Multiply || op == Operator::Divide,
    ensures
        evaluate(
            t + seq![
                TileKind::Operator { op: Operator::Add },
                TileKind::Number { value: a },
                TileKind::Operator { op },
                TileKind::Number { value: b },
            ],
            cap,
        ) == then_apply(
            evaluate(t, cap),
            |x: Frac|
                then_apply(
                    if op == Operator::Multiply {
                        frac_mul((a as int, 1int), (b as int, 1int), cap)
                    } else {
                        frac_div((a as int, 1int), (b as int, 1int), cap)
                    },
                    |p: Frac| frac_add(x, p, cap),
                ),
        ),
{
    let t1 = t + seq![TileKind::Operator { op: Operator::Add }, TileKind::Number { value: a }];
    let t2 = t1 + seq![TileKind::Operator { op }, TileKind::Number { value: b }];
    assert(t2 =~= t + seq![
        TileKind::Operator { op: Operator::Add },
        TileKind::Number { value: a },
        TileKind::Operator { op },
        TileKind::Number { value: b },
    ]);
    lemma_tokens_extend(t, Operator::Add, a, 0, false, cap);
    lemma_tokens_extend(t1, op, b, 0, false, cap);
    match tokens_from(t, 0, false, cap) {
        Ok((vs, os)) => {
            let va = (a as int, 1int);
            let vb = (b as int, 1int);
            let vs1 = vs.push(va);
            let os1 = os.push(Operator::Add);
            if vs.len() == os.len() + 1 {
                let n = vs.len() as int;
                lemma_eval_prefix_extend(vs, os, Operator::Add, va, n, cap);
                lemma_eval_prefix_extend(vs1, os1, op, vb, n + 1, cap);
                lemma_eval_prefix_extend(vs1, os1, op, vb, n, cap);
                assert(vs1[n] == va);
                assert(os1[n - 1] == Operator::Add);
                assert(vs1.push(vb)[n + 1] == vb);
                assert(os1.push(op)[n] == op);
                assert(vs1.push(vb)[n] == va);
                assert(os1.push(op)[n - 1] == Operator::Add);
            }
        },
        Err(_) => {},
    }
}

// ---------------------------------------------------------------------------
// Equations
// ---------------------------------------------------------------------------

/// How many `=` tiles a line holds.
pub open spec fn equals_count(t: Seq<TileKind>) -> nat
    decreases t.len(),
{
    if t.len() == 0 {
        0
    } else {
        equals_count(t.drop_last()) + if t.last() is Equals { 1nat } else { 0nat }
    }
}

/// The index of the first `=` at or after `i`, or the length if there is none.
pub open spec fn first_equals(t: Seq<TileKind>, i: int) -> int
    decreases t.len() - i,
{
    if i >= t.len() {
        t.len() as int
    } else if t[i] is Equals {
        i
    } else {
        first_equals(t, i + 1)
    }
}

pub proof fn lemma_first_equals(t: Seq<TileKind>, i: int)
    requires
        0 <= i <= t.len(),
    ensures
        i <= first_equals(t, i) <= t.len(),
        first_equals(t, i) < t.len() ==> t[first_equals(t, i)] is Equals,
        forall|k: int| i <= k < first_equals(t, i) ==> !(#[trigger] t[k] is Equals),
    decreases t.len() - i,
{
    if i < t.len() && !(t[i] is Equals) {
        lemma_first_equals(t, i + 1);
    }
}

/// Whether a line of tiles is a correct equation, and if not, why.
pub open spec fn equation_verdict(t: Seq<TileKind>, cap: bool) -> Result<(), EquationFault> {
    let c = equals_count(t);
    if c != 1 {
        Err(EquationFault::EqualsCount(c as usize))
    } else {
        let p = first_equals(t, 0);
        let lhs = t.subrange(0, p);
        let rhs = t.subrange(p + 1, t.len() as int);
        if lhs.len() == 0 || rhs.len() == 0 {
            Err(EquationFault::EmptySide)
        } else {
            match evaluate(lhs, cap) {
                Err(EvalFault::Malformed) => Err(EquationFault::InvalidLeft),
                Err(EvalFault::OutOfRange) => Err(EquationFault::OutOfRange),
                Ok(l) => match evaluate(rhs, cap) {
                    Err(EvalFault::Malformed) => Err(EquationFault::InvalidRight),
                    Err(EvalFault::OutOfRange) => Err(EquationFault::OutOfRange),
                    Ok(r) => {
                        let x = l.0 * r.1;
                        let y = r.0 * l.1;
                        if !(fits(x, cap) && fits(y, cap)) {
                            Err(EquationFault::OutOfRange)
                        } else if !same_value(l, r) {
                            Err(EquationFault::Unequal(to_rational(l), to_rational(r)))
                        } else {
                            Ok(())
                        }
                    },
                },
            }
        }
    }
}

/// A line of tiles is a mathematically correct equation: one `=`, two
/// nonempty sides, each a valid expression, of equal value.
pub open spec fn equation_holds(t: Seq<TileKind>) -> bool {
    equation_verdict(t, false) is Ok
}

// ---------------------------------------------------------------------------
// Exact arithmetic and the 128-bit cap
// ---------------------------------------------------------------------------

pub open spec fn exact_total<T>(r: Result<T, EvalFault>) -> bool {
    r != Err::<T, EvalFault>(EvalFault::OutOfRange)
}

proof fn lemma_run_value_agrees(t: Seq<TileKind>, i: int, j: int)
    ensures
        agrees(run_value(t, i, j, true), run_value(t, i, j, false)),
        run_value(t, i, j, false) is Ok,
    decreases j - i,
{
    if j > i + 1 {
        lemma_run_value_agrees(t, i, j - 1);
    }
}

proof fn lemma_number_token_agrees(t: Seq<TileKind>, i: int)
    ensures
        agrees(number_token(t, i, true), number_token(t, i, false)),
        exact_total(number_token(t, i, false)),
{
    lemma_run_value_agrees(t, i, digit_run_end(t, i));
}

proof fn lemma_tokens_agree(t: Seq<TileKind>, i: int, after_number: bool)
    ensures
        agrees(tokens_from(t, i, after_number, true), tokens_from(t, i, after_number, false)),
        exact_total(tokens_from(t, i, after_number, false)),
    decreases t.len() - i,
{
    if 0 <= i < t.len() {
        match t[i] {
            TileKind::Number { .. } => {
                lemma_number_token_agrees(t, i);
                lemma_number_token_advances(t, i, true);
                lemma_number_token_advances(t, i, false);
                if let Ok((q, j)) = number_token(t, i, true) {
                    lemma_tokens_agree(t, j, true);
                }
                if let Ok((q, j)) = number_token(t, i, false) {
                    lemma_tokens_agree(t, j, true);
                }
            },
            TileKind::Fraction { .. } => {
                lemma_tokens_agree(t, i + 1, true);
            },
            TileKind::Operator { .. } => {
                lemma_tokens_agree(t, i + 1, false);
            },
            TileKind::Equals => {},
        }
    }
}

proof fn lemma_eval_prefix_agrees(vs: Seq<Frac>, os: Seq<Operator>, k: int)
    ensures
        agrees(eval_prefix(vs, os, k, true), eval_prefix(vs, os, k, false)),
        exact_total(eval_prefix(vs, os, k, false)),
    decreases k,
{
    if k > 1 {
        lemma_eval_prefix_agrees(vs, os, k - 1);
        if let Ok(s) = eval_prefix(vs, os, k - 1, false) {
            lemma_ops_agree(s.2, vs[k - 1]);
            lemma_ops_agree(s.0, s.2);
        }
    }
}

proof fn lemma_evaluate_agrees(t: Seq<TileKind>)
    ensures
        agrees(evaluate(t, true), evaluate(t, false)),
        exact_total(evaluate(t, false)),
{
    lemma_tokens_agree(t, 0, false);
    if let Ok(tk) = tokens_from(t, 0, false, false) {
        let (vs, os) = tk;
        lemma_eval_prefix_agrees(vs, os, vs.len() as int);
        if let Ok(s) = eval_prefix(vs, os, vs.len() as int, false) {
            lemma_ops_agree(s.0, s.2);
        }
    }
}

/// The verdict under the 128-bit cap is the exact verdict, except where it
/// reports `OutOfRange`; the exact verdict never does.
pub open spec fn verdict_agrees(capped: Result<(), EquationFault>, exact: Result<(), EquationFault>) -> bool {
    match capped {
        Err(EquationFault::OutOfRange) => true,
        _ => exact == capped,
    }
}

/// Checking an equation in 128-bit arithmetic gives the same answer as exact
/// arithmetic, unless it reports `OutOfRange`. In particular every equation
/// accepted is mathematically correct, and every rejection other than
/// `OutOfRange` is one that exact arithmetic makes too.
pub proof fn lemma_verdict_is_exact(t: Seq<TileKind>)
    ensures
        verdict_agrees(equation_verdict(t, true), equation_verdict(t, false)),
        equation_verdict(t, false) != Err::<(), EquationFault>(EquationFault::OutOfRange),
        equation_verdict(t, true) is Ok ==> equation_holds(t),
{
    let p = first_equals(t, 0);
    lemma_evaluate_agrees(t.subrange(0, p));
    lemma_evaluate_agrees(t.subrange(p + 1, t.len() as int));
}

// ---------------------------------------------------------------------------
// Executable code
// ---------------------------------------------------------------------------

/// The fractions held by a sequence of executable values.
pub open spec fn fracs(v: Seq<Rational>) -> Seq<Frac> {
    v.map_values(|x: Rational| x.frac())
}

/// The tokens held by a result of `tokenize`.
pub open spec fn token_result(r: Result<(Vec<Rational>, Vec<Operator>), EvalFault>) -> Result<Tokens, EvalFault> {
    match r {
        Ok((vs, os)) => Ok((fracs(vs@), os@)),
        Err(e) => Err(e),
    }
}

fn is_number(k: &TileKind) -> (b: bool)
    ensures
        b == (*k is Number),
{
    match k {
        TileKind::Number { .. } => true,
        _ => false,
    }
}

fn digit_value(k: &TileKind) -> (d: u128)
    ensures
        d == digit_of(*k),
{
    match k {
        TileKind::Number { value } => *value as u128,
        _ => 0,
    }
}

/// Read the number that starts with the digit tile at `i`.
fn read_number(tiles: &[TileKind], i: usize) -> (r: Result<(Rational, usize), EvalFault>)
    requires
        i < tiles@.len(),
        tiles@[i as int] is Number,
    ensures
        match r {
            Ok((q, j)) => number_token(tiles@, i as int, true) == Ok::<(Frac, int), EvalFault>((q.frac(), j as int)),
            Err(e) => number_token(tiles@, i as int, true) == Err::<(Frac, int), EvalFault>(e),
        },
{
    let ghost t = tiles@;
    let n = tiles.len();
    proof {
        lemma_digit_run_end(t, i as int);
    }
    let ghost end = digit_run_end(t, i as int);
    let mut acc: u128 = digit_value(&tiles[i]);
    let mut j: usize = i + 1;
    while j < n && is_number(&tiles[j])
        invariant
            t == tiles@,
            n == t.len(),
            i < j <= end,
            end == digit_run_end(t, i as int),
            i < end <= n,
            forall|k: int| i < k < end ==> #[trigger] t[k] is Number,
            end < n ==> !(t[end] is Number),
            run_value(t, i as int, j as int, true) == Ok::<int, EvalFault>(acc as int),
        decreases n - j,
    {
        let d = digit_value(&tiles[j]);
        let next = match acc.checked_mul(10) {
            Some(x) => x.checked_add(d),
            None => None,
        };
        match next {
            Some(w) => {
                acc = w;
                j = j + 1;
            },
            None => {
                proof {
                    lemma_run_value_error_persists(t, i as int, j + 1, end, true);
                }
                return Err(EvalFault::OutOfRange);
            },
        }
    }
    if j < n {
        match tiles[j] {
            TileKind::Fraction { numerator, denominator } => {
                if denominator == 0 {
                    return Err(EvalFault::Malformed);
                }
                let m = match acc.checked_mul(denominator as u128) {
                    Some(x) => x.checked_add(numerator as u128),
                    None => None,
                };
                match m {
                    Some(m) => Ok((Rational { num: m, den: denominator as u128 }, j + 1)),
                    None => Err(EvalFault::OutOfRange),
                }
            },
            _ => Ok((Rational { num: acc, den: 1 }, j)),
        }
    } else {
        Ok((Rational { num: acc, den: 1 }, j))
    }
}

proof fn lemma_with_prefix_value(pv: Seq<Frac>, po: Seq<Operator>, q: Frac, rest: Result<Tokens, EvalFault>)
    ensures
        with_prefix(pv, po, with_value(q, rest)) == with_prefix(pv.push(q), po, rest),
{
    match rest {
        Ok((vs, os)) => {
            assert(pv + (seq![q] + vs) =~= pv.push(q) + vs);
        },
        Err(_) => {},
    }
}

proof fn lemma_with_prefix_op(pv: Seq<Frac>, po: Seq<Operator>, op: Operator, rest: Result<Tokens, EvalFault>)
    ensures
        with_prefix(pv, po, with_op(op, rest)) == with_prefix(pv, po.push(op), rest),
{
    match rest {
        Ok((vs, os)) => {
            assert(po + (seq![op] + os) =~= po.push(op) + os);
        },
        Err(_) => {},
    }
}

/// Split a tile sequence into its numbers and its operators, which must
/// alternate, starting and ending with a number.
pub fn tokenize(tiles: &[TileKind]) -> (r: Result<(Vec<Rational>, Vec<Operator>), EvalFault>)
    ensures
        token_result(r) == tokens_from(tiles@, 0, false, true),
{
    let ghost t = tiles@;
    let n = tiles.len();
    let mut values: Vec<Rational> = Vec::new();
    let mut ops: Vec<Operator> = Vec::new();
    let mut i: usize = 0;
    let mut after_number = false;
    assert(with_prefix(fracs(values@), ops@, tokens_from(t, 0, false, true)) == tokens_from(t, 0, false, true)) by {
        match tokens_from(t, 0, false, true) {
            Ok((vs, os)) => {
                assert(fracs(values@) + vs =~= vs);
                assert(ops@ + os =~= os);
            },
            Err(_) => {},
        }
    }
    while i < n
        invariant
            t == tiles@,
            n == t.len(),
            i <= n,
            with_prefix(fracs(values@), ops@, tokens_from(t, i as int, after_number, true))
                == tokens_from(t, 0, false, true),
        decreases n - i,
    {
        let ghost pv = fracs(values@);
        match tiles[i] {
            TileKind::Number { .. } => {
                if after_number {
                    return Err(EvalFault::Malformed);
                }
                match read_number(tiles, i) {
                    Err(e) => {
                        return Err(e);
                    },
                    Ok((q, j)) => {
                        proof {
                            lemma_number_token_advances(t, i as int, true);
                            lemma_with_prefix_value(pv, ops@, q.frac(), tokens_from(t, j as int, true, true));
                        }
                        values.push(q);
                        assert(fracs(values@) =~= pv.push(q.frac()));
                        i = j;
                        after_number = true;
                    },
                }
            },
            TileKind::Fraction { numerator, denominator } => {
                if after_number || denominator == 0 {
                    return Err(EvalFault::Malformed);
                }
                let q = Rational { num: numerator as u128, den: denominator as u128 };
                proof {
                    lemma_with_prefix_value(pv, ops@, q.frac(), tokens_from(t, i + 1, true, true));
                }
                values.push(q);
                assert(fracs(values@) =~= pv.push(q.frac()));
                i = i + 1;
                after_number = true;
            },
            TileKind::Operator { op } => {
                if !after_number {
                    return Err(EvalFault::Malformed);
                }
                proof {
                    lemma_with_prefix_op(pv, ops@, op, tokens_from(t, i + 1, false, true));
                }
                ops.push(op);
                i = i + 1;
                after_number = false;
            },
            TileKind::Equals => {
                return Err(EvalFault::Malformed);
            },
        }
    }
    if !after_number {
        return Err(EvalFault::Malformed);
    }
    proof {
        assert(fracs(values@) + Seq::<Frac>::empty() =~= fracs(values@));
        assert(ops@ + Seq::<Operator>::empty() =~= ops@);
    }
    Ok((values, ops))
}

fn commit_exec(sum: Rational, subtract: bool, term: Rational) -> (r: Result<Rational, EvalFault>)
    ensures
        result_frac(r) == commit(sum.frac(), subtract, term.frac(), true),
{
    if subtract {
        sum.minus(term)
    } else {
        sum.plus(term)
    }
}

/// Evaluate an arithmetic expression with the usual operator precedence, in
/// exact arithmetic. It is malformed if its tiles do not form an expression,
/// if it divides by zero, or if any subtraction goes below zero.
pub fn evaluate_expression(tiles: &[TileKind]) -> (r: Result<Rational, EvalFault>)
    ensures
        result_frac(r) == evaluate(tiles@, true),
{
    let (values, ops) = match tokenize(tiles) {
        Ok(tk) => tk,
        Err(e) => {
            return Err(e);
        },
    };
    let ghost vs = fracs(values@);
    let ghost os = ops@;
    if values.len() == 0 || values.len() - 1 != ops.len() {
        return Err(EvalFault::Malformed);
    }
    let mut sum = Rational { num: 0, den: 1 };
    let mut subtract = false;
    let mut term = values[0];
    let mut k: usize = 1;
    while k < values.len()
        invariant
            vs == fracs(values@),
            os == ops@,
            evaluate(tiles@, true) == eval_tokens(vs, os, true),
            values@.len() == ops@.len() + 1,
            1 <= k <= values@.len(),
            eval_prefix(vs, os, k as int, true) == Ok::<EvalState, EvalFault>(
                (sum.frac(), subtract, term.frac()),
            ),
        decreases values@.len() - k,
    {
        let v = values[k];
        assert(vs[k as int] == v.frac());
        match ops[k - 1] {
            Operator::Multiply => match term.times(v) {
                Ok(x) => {
                    term = x;
                },
                Err(e) => {
                    proof {
                        lemma_eval_prefix_error_persists(vs, os, k + 1, vs.len() as int, true);
                    }
                    return Err(e);
                },
            },
            Operator::Divide => match term.divided_by(v) {
                Ok(x) => {
                    term = x;
                },
                Err(e) => {
                    proof {
                        lemma_eval_prefix_error_persists(vs, os, k + 1, vs.len() as int, true);
                    }
                    return Err(e);
                },
            },
            Operator::Add => match commit_exec(sum, subtract, term) {
                Ok(x) => {
                    sum = x;
                    subtract = false;
                    term = v;
                },
                Err(e) => {
                    proof {
                        lemma_eval_prefix_error_persists(vs, os, k + 1, vs.len() as int, true);
                    }
                    return Err(e);
                },
            },
            Operator::Subtract => match commit_exec(sum, subtract, term) {
                Ok(x) => {
                    sum = x;
                    subtract = true;
                    term = v;
                },
                Err(e) => {
                    proof {
                        lemma_eval_prefix_error_persists(vs, os, k + 1, vs.len() as int, true);
                    }
                    return Err(e);
                },
            },
        }
        k = k + 1;
    }
    commit_exec(sum, subtract, term)
}

/// Check that a line of tiles is a correct equation: exactly one `=`, a valid
/// expression on each side, and equal values.
pub fn validate_equation(tiles: &[TileKind]) -> (r: Result<(), ValidationError>)
    ensures
        r == match equation_verdict(tiles@, true) {
            Ok(()) => Ok::<(), ValidationError>(()),
            Err(f) => Err(ValidationError::InvalidEquation(f)),
        },
{
    let ghost t = tiles@;
    let n = tiles.len();
    let mut count: usize = 0;
    let mut first: usize = n;
    let mut i: usize = 0;
    proof {
        lemma_first_equals(t, 0);
    }
    while i < n
        invariant
            t == tiles@,
            n == t.len(),
            i <= n,
            count <= i,
            0 <= first_equals(t, 0) <= n,
            first_equals(t, 0) < n ==> t[first_equals(t, 0)] is Equals,
            forall|k: int| 0 <= k < first_equals(t, 0) ==> !(#[trigger] t[k] is Equals),
            count == equals_count(t.subrange(0, i as int)),
            count == 0 ==> first == n,
            count > 0 ==> first == first_equals(t, 0),
            count == 0 ==> first_equals(t, 0) == first_equals(t, i as int),
            count > 0 ==> first_equals(t, 0) < i,
        decreases n - i,
    {
        assert(t.subrange(0, i + 1).drop_last() =~= t.subrange(0, i as int));
        proof {
            if count == 0 {
                lemma_first_equals(t, i as int);
            }
        }
        if let TileKind::Equals = tiles[i] {
            if count == 0 {
                first = i;
            }
            count = count + 1;
        }
        i = i + 1;
    }
    assert(t.subrange(0, n as int) =~= t);
    if count != 1 {
        return Err(ValidationError::InvalidEquation(EquationFault::EqualsCount(count)));
    }
    if first == 0 || first + 1 == n {
        return Err(ValidationError::InvalidEquation(EquationFault::EmptySide));
    }
    let lhs = &tiles[0..first];
    let rhs = &tiles[first + 1..n];
    let l = match evaluate_expression(lhs) {
        Ok(x) => x,
        Err(EvalFault::Malformed) => {
            return Err(ValidationError::InvalidEquation(EquationFault::InvalidLeft));
        },
        Err(EvalFault::OutOfRange) => {
            return Err(ValidationError::InvalidEquation(EquationFault::OutOfRange));
        },
    };
    let r = match evaluate_expression(rhs) {
        Ok(x) => x,
        Err(EvalFault::Malformed) => {
            return Err(ValidationError::InvalidEquation(EquationFault::InvalidRight));
        },
        Err(EvalFault::OutOfRange) => {
            return Err(ValidationError::InvalidEquation(EquationFault::OutOfRange));
        },
    };
    match (l.num.checked_mul(r.den), r.num.checked_mul(l.den)) {
        (Some(x), Some(y)) => {
            if x != y {
                Err(ValidationError::InvalidEquation(EquationFault::Unequal(l, r)))
            } else {
                Ok(())
            }
        },
        _ => Err(ValidationError::InvalidEquation(EquationFault::OutOfRange)),
    }
}

} // verus!
