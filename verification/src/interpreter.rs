//! Tree-walking evaluation: walks an expression tree in post-order,
//! maintaining a variable environment, and produces a signed 64-bit integer
//! result. Arithmetic is exact: a result that does not fit in `i64` is
//! reported as an `Overflow` failure, never wrapped. Division truncates
//! toward zero, as Rust's `/` does; a zero divisor is reported as
//! `DivisionByZero`. Reading an unbound variable is reported as
//! `UndefinedVariable`, never read as a default.

use crate::parser::Expr;
use crate::parser::ExprModel;
use crate::parser::Op;
use vstd::arithmetic::div_mod::lemma_div_basics;
use vstd::arithmetic::div_mod::lemma_div_is_ordered_by_denominator;
use vstd::arithmetic::div_mod::lemma_div_nonincreasing;
use vstd::prelude::*;

verus! {

/// Why an evaluation failed.
#[derive(Debug, Clone, Copy, PartialEq, Eq, Structural)]
pub enum EvalError {
    /// A variable was read that the environment does not bind.
    UndefinedVariable,
    /// The right operand of a division evaluated to zero.
    DivisionByZero,
    /// The exact result does not fit in a signed 64-bit integer.
    Overflow,
}

/// The absolute value.
pub open spec fn abs_val(a: int) -> int {
    if a < 0 {
        -a
    } else {
        a
    }
}

/// Signed division truncating toward zero, as Rust's `/` on signed integers.
pub open spec fn trunc_div(a: int, b: int) -> int
    recommends
        b != 0,
{
    if (a < 0) == (b < 0) {
        abs_val(a) / abs_val(b)
    } else {
        -(abs_val(a) / abs_val(b))
    }
}

/// Whether an exact value fits in `i64`.
pub open spec fn in_i64(v: int) -> bool {
    i64::MIN <= v <= i64::MAX
}

/// The exact value as an `i64`, or the `Overflow` failure.
pub open spec fn fit_i64(v: int) -> Result<i64, EvalError> {
    if in_i64(v) {
        Ok(v as i64)
    } else {
        Err(EvalError::Overflow)
    }
}

/// What one operator yields on two `i64` operands: the exact result if it
/// fits, `Overflow` if not; a division by zero is `DivisionByZero`.
pub open spec fn spec_apply(op: Op, a: i64, b: i64) -> Result<i64, EvalError> {
    match op {
        Op::Plus => fit_i64(a + b),
        Op::Minus => fit_i64(a - b),
        Op::Into => fit_i64(a * b),
        Op::By => if b == 0 {
            Err(EvalError::DivisionByZero)
        } else {
            fit_i64(trunc_div(a as int, b as int))
        },
    }
}

/// What evaluating a tree yields, and the environment afterwards. The walk is
/// post-order: in a binary node the left child is evaluated first, and the
/// first failure halts evaluation, keeping the environment reached so far. An
/// assignment binds the name to the value of its right side, overwriting any
/// prior binding, and yields that value.
pub open spec fn spec_eval(e: ExprModel, env: Map<Seq<char>, i64>) -> (Result<i64, EvalError>, Map<
    Seq<char>,
    i64,
>)
    decreases e,
{
    match e {
        ExprModel::Number(v) => (Ok(v), env),
        ExprModel::Variable(name) => if env.contains_key(name) {
            (Ok(env[name]), env)
        } else {
            (Err(EvalError::UndefinedVariable), env)
        },
        ExprModel::BinaryOp(l, op, r) => {
            let (lr, env1) = spec_eval(*l, env);
            match lr {
                Err(e1) => (Err(e1), env1),
                Ok(a) => {
                    let (rr, env2) = spec_eval(*r, env1);
                    match rr {
                        Err(e2) => (Err(e2), env2),
                        Ok(b) => (spec_apply(op, a, b), env2),
                    }
                },
            }
        },
        ExprModel::Assign(name, rhs) => {
            let (vr, env1) = spec_eval(*rhs, env);
            match vr {
                Err(e1) => (Err(e1), env1),
                Ok(v) => (Ok(v), env1.insert(name, v)),
            }
        },
    }
}

/// The mapping that a list of bindings denotes: a later binding of a name
/// overrides an earlier one.
pub open spec fn map_of(entries: Seq<(String, i64)>) -> Map<Seq<char>, i64>
    decreases entries.len(),
{
    if entries.len() == 0 {
        Map::empty()
    } else {
        map_of(entries.drop_last()).insert(entries.last().0@, entries.last().1)
    }
}

/// The value of the last binding of `name` in the list, if any.
pub open spec fn seq_find(entries: Seq<(String, i64)>, name: Seq<char>) -> Option<i64>
    decreases entries.len(),
{
    if entries.len() == 0 {
        None
    } else if entries.last().0@ == name {
        Some(entries.last().1)
    } else {
        seq_find(entries.drop_last(), name)
    }
}

proof fn lemma_seq_find_is_map_of(entries: Seq<(String, i64)>, name: Seq<char>)
    ensures
        match seq_find(entries, name) {
            Some(v) => map_of(entries).contains_key(name) && map_of(entries)[name] == v,
            None => !map_of(entries).contains_key(name),
        },
    decreases entries.len(),
{
    if entries.len() > 0 {
        lemma_seq_find_is_map_of(entries.drop_last(), name);
    }
}

/// The evaluator: owns the variable environment, which persists across
/// sequential evaluations, so that each sees the assignments of the ones
/// before.
pub struct Interpreter {
    variables: Vec<(String, i64)>,
}

impl View for Interpreter {
    type V = Map<Seq<char>, i64>;

    closed spec fn view(&self) -> Map<Seq<char>, i64> {
        map_of(self.variables@)
    }
}

/// Exact signed division, truncating toward zero, computed through unsigned
/// magnitudes.
fn div_i64(a: i64, b: i64) -> (q: i64)
    requires
        b != 0,
        !(a == i64::MIN && b == -1),
    ensures
        q as int == trunc_div(a as int, b as int),
{
    let ua: u64 = if a >= 0 {
        a as u64
    } else {
        ((-(a + 1)) as u64) + 1
    };
    let ub: u64 = if b >= 0 {
        b as u64
    } else {
        ((-(b + 1)) as u64) + 1
    };
    let uq: u64 = ua / ub;
    proof {
        lemma_div_nonincreasing(ua as int, ub as int);
        if a == i64::MIN && !((a < 0) != (b < 0)) {
            // both negative, b <= -2, so the magnitude of the quotient is at
            // most half of 2^63
            lemma_div_is_ordered_by_denominator(ua as int, 2, ub as int);
            assert(0x8000_0000_0000_0000int / 2int == 0x4000_0000_0000_0000int);
        }
    }
    let neg = (a < 0) != (b < 0);
    if neg {
        if uq == 0x8000_0000_0000_0000u64 {
            i64::MIN
        } else {
            -(uq as i64)
        }
    } else {
        uq as i64
    }
}

/// One operator applied to two values, with exact `i64` semantics.
fn apply_op(op: Op, a: i64, b: i64) -> (r: Result<i64, EvalError>)
    ensures
        r == spec_apply(op, a, b),
{
    match op {
        Op::Plus => {
            let v: i128 = a as i128 + b as i128;
            if v > i64::MAX as i128 || v < i64::MIN as i128 {
                Err(EvalError::Overflow)
            } else {
                Ok(v as i64)
            }
        },
        Op::Minus => {
            let v: i128 = a as i128 - b as i128;
            if v > i64::MAX as i128 || v < i64::MIN as i128 {
                Err(EvalError::Overflow)
            } else {
                Ok(v as i64)
            }
        },
        Op::Into => {
            proof {
                assert((a as int) * (b as int) <= 0x4000_0000_0000_0000_0000_0000_0000_0000int && -(
                0x4000_0000_0000_0000_0000_0000_0000_0000int) <= (a as int) * (b as int))
                    by (nonlinear_arith)
                    requires
                        -0x8000_0000_0000_0000int <= a as int <= 0x7fff_ffff_ffff_ffffint,
                        -0x8000_0000_0000_0000int <= b as int <= 0x7fff_ffff_ffff_ffffint,
                ;
            }
            let v: i128 = (a as i128) * (b as i128);
            if v > i64::MAX as i128 || v < i64::MIN as i128 {
                Err(EvalError::Overflow)
            } else {
                Ok(v as i64)
            }
        },
        Op::By => {
            if b == 0 {
                Err(EvalError::DivisionByZero)
            } else if a == i64::MIN && b == -1 {
                proof {
                    lemma_div_basics(0x8000_0000_0000_0000int);
                }
                Err(EvalError::Overflow)
            } else {
                Ok(div_i64(a, b))
            }
        },
    }
}

impl Interpreter {
    /// A fresh evaluator with an empty environment.
    pub fn new() -> (r: Interpreter)
        ensures
            r@ == Map::<Seq<char>, i64>::empty(),
    {
        Interpreter { variables: Vec::new() }
    }

    /// The value bound to `name`, if the environment binds it.
    fn lookup(&self, name: &String) -> (r: Option<i64>)
        ensures
            match r {
                Some(v) => self@.contains_key(name@) && self@[name@] == v,
                None => !self@.contains_key(name@),
            },
    {
        let ghost entries = self.variables@;
        proof {
            assert(entries.take(entries.len() as int) =~= entries);
        }
        let mut i: usize = self.variables.len();
        loop
            invariant
                entries == self.variables@,
                i <= self.variables.len(),
                seq_find(entries, name@) == seq_find(entries.take(i as int), name@),
            decreases i,
        {
            if i == 0 {
                proof {
                    lemma_seq_find_is_map_of(entries, name@);
                }
                return None;
            }
            i = i - 1;
            proof {
                assert(entries.take(i as int + 1).drop_last() =~= entries.take(i as int));
                assert(entries.take(i as int + 1).last() == entries[i as int]);
            }
            if self.variables[i].0 == *name {
                proof {
                    lemma_seq_find_is_map_of(entries, name@);
                }
                return Some(self.variables[i].1);
            }
        }
    }

    /// Bind `var` to `value`, overwriting any prior binding.
    pub fn assign(&mut self, var: String, value: i64)
        ensures
            final(self)@ == old(self)@.insert(var@, value),
    {
        self.variables.push((var, value));
        proof {
            assert(self.variables@.drop_last() =~= old(self).variables@);
        }
    }

    /// Evaluate a tree against the environment: its exact value, or the first
    /// failure met in the post-order walk. Assignments met during the walk
    /// stay in the environment, also when a later failure halts evaluation.
    pub fn interpret(&mut self, expr: Expr) -> (r: Result<i64, EvalError>)
        ensures
            ({
                let (sr, senv) = spec_eval(expr@, old(self)@);
                r == sr && final(self)@ == senv
            }),
        decreases expr,
    {
        match expr {
            Expr::Number(value) => Ok(value),
            Expr::Variable(var) => match self.lookup(&var) {
                Some(v) => Ok(v),
                None => Err(EvalError::UndefinedVariable),
            },
            Expr::BinaryOp(left, op, right) => {
                let a = match self.interpret(*left) {
                    Ok(v) => v,
                    Err(e) => return Err(e),
                };
                let b = match self.interpret(*right) {
                    Ok(v) => v,
                    Err(e) => return Err(e),
                };
                apply_op(op, a, b)
            },
            Expr::Assign(var, rhs) => {
                let value = match self.interpret(*rhs) {
                    Ok(v) => v,
                    Err(e) => return Err(e),
                };
                self.assign(var, value);
                Ok(value)
            },
        }
    }
}

/// Law: after an assignment evaluates successfully to a value, the
/// environment binds the name to that value, and reading the variable back
/// yields the same value.
pub proof fn lemma_assign_then_read(name: Seq<char>, rhs: ExprModel, env: Map<Seq<char>, i64>)
    ensures
        ({
            let (r, env2) = spec_eval(ExprModel::Assign(name, Box::new(rhs)), env);
            r matches Ok(v) ==> env2.contains_key(name) && env2[name] == v && spec_eval(
                ExprModel::Variable(name),
                env2,
            ).0 == Ok::<i64, EvalError>(v)
        }),
{
}

/// Law: reading a variable that the environment does not bind fails with
/// `UndefinedVariable` and leaves the environment unchanged; the variable is
/// never read as a default value.
pub proof fn lemma_undefined_variable(name: Seq<char>, env: Map<Seq<char>, i64>)
    requires
        !env.contains_key(name),
    ensures
        spec_eval(ExprModel::Variable(name), env) == (
            Err::<i64, EvalError>(EvalError::UndefinedVariable),
            env,
        ),
{
}

/// Law: a division whose right operand is zero never yields a value: for
/// every left operand it is the `DivisionByZero` failure.
pub proof fn lemma_division_by_zero_faults(a: i64)
    ensures
        spec_apply(Op::By, a, 0) == Err::<i64, EvalError>(EvalError::DivisionByZero),
{
}

} // verus!
