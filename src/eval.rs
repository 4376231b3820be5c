use vstd::prelude::*;

use crate::arith::{
    add_value, checked, concat_digits, concat_value, mul_value, power, power_value, repeat_digits,
    repeat_value, sub_value,
};
use crate::domain::Domain;
use crate::error::EvalError;
use crate::intset::IntSet;
use crate::token::{all_wf, views, Token, TokenView};

verus! {

/// The value of an expression: an integer, or a set in the Sets domain.
#[derive(Debug)]
pub enum Value {
    Number(i64),
    Members(IntSet),
}

/// What a value stands for.
pub enum ValueView {
    Number(i64),
    Members(Set<i64>),
}

impl View for Value {
    type V = ValueView;

    open spec fn view(&self) -> ValueView {
        match self {
            Value::Number(v) => ValueView::Number(*v),
            Value::Members(s) => ValueView::Members(s@),
        }
    }
}

impl Value {
    /// A set value holds a well-formed set.
    pub open spec fn wf(&self) -> bool {
        match self {
            Value::Members(s) => s.wf(),
            _ => true,
        }
    }

    /// Whether two values are equal: the same integer, or sets with the same members.
    pub fn same_as(&self, other: &Value) -> (r: bool)
        ensures
            r == (self@ == other@),
    {
        match (self, other) {
            (Value::Number(a), Value::Number(b)) => *a == *b,
            (Value::Members(a), Value::Members(b)) => a.same_members(b),
            _ => false,
        }
    }
}

/// What a binary operator yields on two integers. `next_is_multiply` tells
/// whether the token after the operator in the postfix sequence is `*`.
pub open spec fn scalar_op(d: Domain, op: TokenView, l: i64, r: i64, next_is_multiply: bool) -> Result<i64, EvalError> {
    match op {
        TokenView::Plus => match d {
            Domain::Boolean => Ok(l | r),
            Domain::Strings => if next_is_multiply {
                checked(l + r)
            } else {
                concat_value(l, r)
            },
            _ => checked(l + r),
        },
        TokenView::Minus => checked(l - r),
        TokenView::Multiply => match d {
            Domain::Boolean => Ok(l & r),
            Domain::Strings => repeat_value(r, l),
            _ => checked(l * r),
        },
        _ => checked(power(l as int, r as int)),
    }
}

/// Whether the token after position `i` is `*`.
pub open spec fn next_is_multiply(ts: Seq<TokenView>, i: int) -> bool {
    i + 1 < ts.len() && ts[i + 1] is Multiply
}

/// The integer stack after one more token: a number is pushed, an operator
/// replaces its two operands by its result, and anything else is passed over.
pub open spec fn scalar_step(d: Domain, st: Seq<i64>, t: TokenView, next_mul: bool) -> Result<Seq<i64>, EvalError> {
    match t {
        TokenView::Number(v) => Ok(st.push(v)),
        TokenView::Plus | TokenView::Minus | TokenView::Multiply | TokenView::Power => {
            if st.len() < 2 {
                Err(EvalError::MissingOperand)
            } else {
                match scalar_op(d, t, st[st.len() - 2], st[st.len() - 1], next_mul) {
                    Ok(v) => Ok(st.subrange(0, st.len() - 2).push(v)),
                    Err(e) => Err(e),
                }
            }
        },
        _ => Ok(st),
    }
}

/// The integer stack after the first `n` tokens.
pub open spec fn scalar_run(d: Domain, ts: Seq<TokenView>, n: nat) -> Result<Seq<i64>, EvalError>
    decreases n,
{
    if n == 0 {
        Ok(Seq::empty())
    } else {
        match scalar_run(d, ts, (n - 1) as nat) {
            Ok(st) => scalar_step(d, st, ts[n - 1], next_is_multiply(ts, n - 1)),
            Err(e) => Err(e),
        }
    }
}

/// The set stack after one more token: a set is pushed, `+` replaces two sets by
/// their union and `*` by their intersection, and anything else is passed over.
pub open spec fn set_step(st: Seq<Set<i64>>, t: TokenView) -> Result<Seq<Set<i64>>, EvalError> {
    match t {
        TokenView::Members(s) => Ok(st.push(s)),
        TokenView::Plus | TokenView::Multiply => {
            if st.len() < 2 {
                Err(EvalError::MissingOperand)
            } else {
                let l = st[st.len() - 2];
                let r = st[st.len() - 1];
                let v = if t is Plus {
                    l.union(r)
                } else {
                    l.intersect(r)
                };
                Ok(st.subrange(0, st.len() - 2).push(v))
            }
        },
        _ => Ok(st),
    }
}

/// The set stack after the first `n` tokens.
pub open spec fn set_run(ts: Seq<TokenView>, n: nat) -> Result<Seq<Set<i64>>, EvalError>
    decreases n,
{
    if n == 0 {
        Ok(Seq::empty())
    } else {
        match set_run(ts, (n - 1) as nat) {
            Ok(st) => set_step(st, ts[n - 1]),
            Err(e) => Err(e),
        }
    }
}

/// The one value left on a stack of `len` values, or why there is not one.
pub open spec fn arity(len: nat) -> Result<(), EvalError> {
    if len == 0 {
        Err(EvalError::MissingOperand)
    } else if len > 1 {
        Err(EvalError::ExtraOperands)
    } else {
        Ok(())
    }
}

/// The value of a postfix token sequence in a domain.
pub open spec fn evaluate(d: Domain, ts: Seq<TokenView>) -> Result<ValueView, EvalError> {
    if d is Sets {
        match set_run(ts, ts.len()) {
            Ok(st) => match arity(st.len()) {
                Ok(_) => Ok(ValueView::Members(st[0])),
                Err(e) => Err(e),
            },
            Err(e) => Err(e),
        }
    } else {
        match scalar_run(d, ts, ts.len()) {
            Ok(st) => match arity(st.len()) {
                Ok(_) => Ok(ValueView::Number(st[0])),
                Err(e) => Err(e),
            },
            Err(e) => Err(e),
        }
    }
}

proof fn lemma_scalar_err_stays(d: Domain, ts: Seq<TokenView>, k: nat, n: nat)
    requires
        k <= n,
        scalar_run(d, ts, k) is Err,
    ensures
        scalar_run(d, ts, n) == scalar_run(d, ts, k),
    decreases n,
{
    if k < n {
        lemma_scalar_err_stays(d, ts, k, (n - 1) as nat);
    }
}

proof fn lemma_set_err_stays(ts: Seq<TokenView>, k: nat, n: nat)
    requires
        k <= n,
        set_run(ts, k) is Err,
    ensures
        set_run(ts, n) == set_run(ts, k),
    decreases n,
{
    if k < n {
        lemma_set_err_stays(ts, k, (n - 1) as nat);
    }
}

/// Applies an integer operator of the domain to two operands.
fn apply_scalar(d: Domain, op: &Token, l: i64, r: i64, next_mul: bool) -> (v: Result<i64, EvalError>)
    requires
        op is Plus || op is Minus || op is Multiply || op is Power,
    ensures
        v == scalar_op(d, op@, l, r, next_mul),
{
    match op {
        Token::Plus => match d {
            Domain::Boolean => Ok(l | r),
            Domain::Strings => if next_mul {
                add_value(l, r)
            } else {
                concat_digits(l, r)
            },
            _ => add_value(l, r),
        },
        Token::Minus => sub_value(l, r),
        Token::Multiply => match d {
            Domain::Boolean => Ok(l & r),
            Domain::Strings => repeat_digits(r, l),
            _ => mul_value(l, r),
        },
        _ => power_value(l, r),
    }
}

/// Applies one token to a stack of integers.
fn scalar_token_step(d: Domain, stack: &mut Vec<i64>, t: &Token, next_mul: bool) -> (r: Result<(), EvalError>)
    ensures
        r is Ok ==> scalar_step(d, old(stack)@, t@, next_mul) == Ok::<Seq<i64>, EvalError>(
            final(stack)@,
        ),
        r is Err ==> scalar_step(d, old(stack)@, t@, next_mul) == Err::<Seq<i64>, EvalError>(
            r->Err_0,
        ),
{
    match t {
        Token::Number(v) => {
            stack.push(*v);
            Ok(())
        },
        Token::Plus | Token::Minus | Token::Multiply | Token::Power => {
            let len = stack.len();
            if len < 2 {
                return Err(EvalError::MissingOperand);
            }
            let r = stack[len - 1];
            let l = stack[len - 2];
            match apply_scalar(d, t, l, r, next_mul) {
                Ok(v) => {
                    let ghost before = stack@;
                    stack.pop();
                    stack.pop();
                    stack.push(v);
                    proof {
                        assert(stack@ =~= before.subrange(0, before.len() - 2).push(v));
                    }
                    Ok(())
                },
                Err(e) => Err(e),
            }
        },
        _ => Ok(()),
    }
}

/// Evaluates a postfix sequence on a stack of integers.
fn resolve_scalar(d: Domain, tokens: &Vec<Token>) -> (r: Result<i64, EvalError>)
    requires
        !(d is Sets),
    ensures
        r is Ok ==> evaluate(d, views(tokens@)) == Ok::<ValueView, EvalError>(
            ValueView::Number(r->Ok_0),
        ),
        r is Err ==> evaluate(d, views(tokens@)) == Err::<ValueView, EvalError>(r->Err_0),
{
    let ghost ts = views(tokens@);
    let mut stack: Vec<i64> = Vec::new();
    let n = tokens.len();
    let mut i: usize = 0;
    while i < n
        invariant
            n == tokens@.len(),
            ts == views(tokens@),
            ts.len() == n,
            !(d is Sets),
            0 <= i <= n,
            scalar_run(d, ts, i as nat) == Ok::<Seq<i64>, EvalError>(stack@),
        decreases n - i,
    {
        let next_mul = i + 1 < n && matches!(tokens[i + 1], Token::Multiply);
        proof {
            assert(ts[i as int] == tokens@[i as int]@);
            if i + 1 < n {
                assert(ts[i + 1] == tokens@[i + 1]@);
            }
            assert(next_mul == next_is_multiply(ts, i as int));
        }
        let ghost before = stack@;
        let step = scalar_token_step(d, &mut stack, &tokens[i], next_mul);
        if let Err(e) = step {
            proof {
                assert(scalar_run(d, ts, (i + 1) as nat) == scalar_step(d, before, ts[i as int], next_mul));
                lemma_scalar_err_stays(d, ts, (i + 1) as nat, n as nat);
            }
            return Err(e);
        }
        i = i + 1;
    }
    if stack.len() == 0 {
        return Err(EvalError::MissingOperand);
    }
    if stack.len() > 1 {
        return Err(EvalError::ExtraOperands);
    }
    Ok(stack[0])
}

/// Evaluates a postfix sequence on a stack of sets.
fn resolve_sets(tokens: &Vec<Token>) -> (r: Result<IntSet, EvalError>)
    requires
        all_wf(tokens@),
    ensures
        r is Ok ==> r->Ok_0.wf() && evaluate(Domain::Sets, views(tokens@)) == Ok::<
            ValueView,
            EvalError,
        >(ValueView::Members(r->Ok_0@)),
        r is Err ==> evaluate(Domain::Sets, views(tokens@)) == Err::<ValueView, EvalError>(
            r->Err_0,
        ),
{
    let ghost ts = views(tokens@);
    let mut stack: Vec<IntSet> = Vec::new();
    let n = tokens.len();
    let mut i: usize = 0;
    proof {
        assert(stack@.map_values(|s: IntSet| s@) =~= Seq::<Set<i64>>::empty());
    }
    while i < n
        invariant
            n == tokens@.len(),
            ts == views(tokens@),
            all_wf(tokens@),
            0 <= i <= n,
            forall|k: int| 0 <= k < stack@.len() ==> (#[trigger] stack@[k]).wf(),
            set_run(ts, i as nat) == Ok::<Seq<Set<i64>>, EvalError>(
                stack@.map_values(|s: IntSet| s@),
            ),
        decreases n - i,
    {
        let ghost before = stack@;
        proof {
            assert(ts[i as int] == tokens@[i as int]@);
            assert(tokens@[i as int].wf());
        }
        match &tokens[i] {
            Token::Members(s) => {
                let c = s.copy();
                stack.push(c);
                proof {
                    assert(stack@.map_values(|s: IntSet| s@) =~= before.map_values(
                        |s: IntSet| s@,
                    ).push(c@));
                }
            },
            Token::Plus | Token::Multiply => {
                let len = stack.len();
                if len < 2 {
                    proof {
                        lemma_set_err_stays(ts, (i + 1) as nat, n as nat);
                    }
                    return Err(EvalError::MissingOperand);
                }
                let v = if matches!(tokens[i], Token::Plus) {
                    stack[len - 2].union(&stack[len - 1])
                } else {
                    stack[len - 2].intersection(&stack[len - 1])
                };
                stack.pop();
                stack.pop();
                stack.push(v);
                proof {
                    assert(stack@ =~= before.subrange(0, before.len() - 2).push(v));
                    assert(stack@.map_values(|s: IntSet| s@) =~= before.map_values(
                        |s: IntSet| s@,
                    ).subrange(0, before.len() - 2).push(v@));
                }
            },
            _ => {},
        }
        i = i + 1;
    }
    if stack.len() == 0 {
        return Err(EvalError::MissingOperand);
    }
    if stack.len() > 1 {
        return Err(EvalError::ExtraOperands);
    }
    let last = stack.pop();
    match last {
        Some(s) => Ok(s),
        None => Err(EvalError::MissingOperand),
    }
}

/// Evaluates a postfix token sequence under the domain's operators.
pub fn resolve(domain: Domain, tokens: Vec<Token>) -> (r: Result<Value, EvalError>)
    requires
        all_wf(tokens@),
    ensures
        r is Ok ==> r->Ok_0.wf() && evaluate(domain, views(tokens@)) == Ok::<
            ValueView,
            EvalError,
        >(r->Ok_0@),
        r is Err ==> evaluate(domain, views(tokens@)) == Err::<ValueView, EvalError>(
            r->Err_0,
        ),
{
    if matches!(domain, Domain::Sets) {
        match resolve_sets(&tokens) {
            Ok(s) => Ok(Value::Members(s)),
            Err(e) => Err(e),
        }
    } else {
        match resolve_scalar(domain, &tokens) {
            Ok(v) => Ok(Value::Number(v)),
            Err(e) => Err(e),
        }
    }
}

} // verus!
