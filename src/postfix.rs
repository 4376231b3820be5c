use vstd::prelude::*;

use crate::domain::Domain;
use crate::error::EvalError;
use crate::intset::IntSet;
use crate::token::{all_wf, is_operator, precedence, views, Token, TokenView};

verus! {

/// The converter's state: the output so far, the stack of pending operators and
/// brackets (top last), and the numbers gathered for the set being written.
pub type ConvState = (Seq<TokenView>, Seq<TokenView>, Set<i64>);

/// Moves operators that bind at least as tightly as `p` from the stack to the output.
pub open spec fn pop_ops(out: Seq<TokenView>, ops: Seq<TokenView>, p: i64) -> (Seq<TokenView>, Seq<TokenView>)
    decreases ops.len(),
{
    if ops.len() > 0 && is_operator(ops.last()) && precedence(ops.last()) >= p {
        pop_ops(out.push(ops.last()), ops.drop_last(), p)
    } else {
        (out, ops)
    }
}

/// Moves operators to the output down to the nearest `(`, which is dropped.
pub open spec fn close_paren(out: Seq<TokenView>, ops: Seq<TokenView>) -> Result<(Seq<TokenView>, Seq<TokenView>), EvalError>
    decreases ops.len(),
{
    if ops.len() == 0 {
        Err(EvalError::UnbalancedParens)
    } else if ops.last() is LeftParen {
        Ok((out, ops.drop_last()))
    } else if ops.last() is LeftSetBrace {
        Err(EvalError::UnbalancedParens)
    } else {
        close_paren(out.push(ops.last()), ops.drop_last())
    }
}

/// Moves operators to the output down to the nearest `{`, which is dropped.
pub open spec fn close_brace(out: Seq<TokenView>, ops: Seq<TokenView>) -> Result<(Seq<TokenView>, Seq<TokenView>), EvalError>
    decreases ops.len(),
{
    if ops.len() == 0 {
        Err(EvalError::UnbalancedSetBraces)
    } else if ops.last() is LeftSetBrace {
        Ok((out, ops.drop_last()))
    } else if ops.last() is LeftParen {
        Err(EvalError::UnbalancedSetBraces)
    } else {
        close_brace(out.push(ops.last()), ops.drop_last())
    }
}

/// Moves what is left on the stack to the output; an open bracket left there has
/// no partner.
pub open spec fn drain(out: Seq<TokenView>, ops: Seq<TokenView>) -> Result<Seq<TokenView>, EvalError>
    decreases ops.len(),
{
    if ops.len() == 0 {
        Ok(out)
    } else if ops.last() is LeftParen {
        Err(EvalError::UnbalancedParens)
    } else if ops.last() is LeftSetBrace {
        Err(EvalError::UnbalancedSetBraces)
    } else {
        drain(out.push(ops.last()), ops.drop_last())
    }
}

/// The converter's state after one more input token.
pub open spec fn convert_step(d: Domain, st: ConvState, t: TokenView) -> Result<ConvState, EvalError> {
    let (out, ops, pending) = st;
    match t {
        TokenView::Number(v) => if d is Sets {
            Ok((out, ops, pending.insert(v)))
        } else {
            Ok((out.push(t), ops, pending))
        },
        TokenView::Members(_) => Ok((out.push(t), ops, pending)),
        TokenView::LeftParen | TokenView::LeftSetBrace => Ok((out, ops.push(t), pending)),
        TokenView::RightParen => match close_paren(out, ops) {
            Ok((o, s)) => Ok((o, s, pending)),
            Err(e) => Err(e),
        },
        TokenView::RightSetBrace => match close_brace(out, ops) {
            Ok((o, s)) => Ok((o.push(TokenView::Members(pending)), s, Set::empty())),
            Err(e) => Err(e),
        },
        _ => {
            let (o, s) = pop_ops(out, ops, precedence(t));
            Ok((o, s.push(t), pending))
        },
    }
}

/// The converter's state after the whole input.
pub open spec fn convert_all(d: Domain, ts: Seq<TokenView>) -> Result<ConvState, EvalError>
    decreases ts.len(),
{
    if ts.len() == 0 {
        Ok((Seq::empty(), Seq::empty(), Set::empty()))
    } else {
        match convert_all(d, ts.drop_last()) {
            Ok(st) => convert_step(d, st, ts.last()),
            Err(e) => Err(e),
        }
    }
}

/// The postfix order of an infix token sequence, or why it has none.
pub open spec fn postfix(d: Domain, ts: Seq<TokenView>) -> Result<Seq<TokenView>, EvalError> {
    match convert_all(d, ts) {
        Ok(st) => drain(st.0, st.1),
        Err(e) => Err(e),
    }
}

proof fn lemma_views_push(v: Seq<Token>, t: Token)
    ensures
        views(v.push(t)) == views(v).push(t@),
{
    assert(views(v.push(t)) =~= views(v).push(t@));
}

proof fn lemma_views_drop_last(v: Seq<Token>)
    requires
        v.len() > 0,
    ensures
        views(v.drop_last()) == views(v).drop_last(),
        views(v).last() == v.last()@,
{
    assert(views(v.drop_last()) =~= views(v).drop_last());
}

proof fn lemma_all_wf_push(v: Seq<Token>, t: Token)
    requires
        all_wf(v),
        t.wf(),
    ensures
        all_wf(v.push(t)),
{
    assert forall|i: int| 0 <= i < v.push(t).len() implies (#[trigger] v.push(t)[i]).wf() by {
        if i < v.len() {
            assert(v.push(t)[i] == v[i]);
        }
    }
}

proof fn lemma_all_wf_drop_last(v: Seq<Token>)
    requires
        all_wf(v),
        v.len() > 0,
    ensures
        all_wf(v.drop_last()),
        v.last().wf(),
{
    assert forall|i: int| 0 <= i < v.drop_last().len() implies (#[trigger] v.drop_last()[i]).wf() by {
        assert(v.drop_last()[i] == v[i]);
    }
}

/// Moves the top of `ops` onto `out`.
fn move_top(out: &mut Vec<Token>, ops: &mut Vec<Token>)
    requires
        old(ops)@.len() > 0,
        all_wf(old(out)@),
        all_wf(old(ops)@),
    ensures
        views(final(out)@) == views(old(out)@).push(views(old(ops)@).last()),
        views(final(ops)@) == views(old(ops)@).drop_last(),
        final(ops)@.len() == old(ops)@.len() - 1,
        all_wf(final(out)@),
        all_wf(final(ops)@),
{
    proof {
        lemma_views_drop_last(ops@);
        lemma_all_wf_drop_last(ops@);
    }
    let top = ops.pop();
    match top {
        Some(t) => {
            proof {
                lemma_views_push(out@, t);
                lemma_all_wf_push(out@, t);
            }
            out.push(t);
        },
        None => {},
    }
}

/// Pops operators of precedence at least `p` to the output.
fn pop_operators(out: &mut Vec<Token>, ops: &mut Vec<Token>, p: i64)
    requires
        all_wf(old(out)@),
        all_wf(old(ops)@),
    ensures
        (views(final(out)@), views(final(ops)@)) == pop_ops(views(old(out)@), views(old(ops)@), p),
        all_wf(final(out)@),
        all_wf(final(ops)@),
{
    loop
        invariant
            pop_ops(views(out@), views(ops@), p) == pop_ops(views(old(out)@), views(old(ops)@), p),
            all_wf(out@),
            all_wf(ops@),
        decreases ops@.len(),
    {
        let n = ops.len();
        if n == 0 {
            return;
        }
        proof {
            lemma_views_drop_last(ops@);
        }
        let top_prec = match &ops[n - 1] {
            Token::Plus | Token::Minus => 1,
            Token::Multiply | Token::Power => 2,
            _ => 0,
        };
        if top_prec == 0 || top_prec < p {
            return;
        }
        move_top(out, ops);
    }
}

/// `close_paren` when `paren`, else `close_brace`.
pub open spec fn close_either(paren: bool, out: Seq<TokenView>, ops: Seq<TokenView>) -> Result<(Seq<TokenView>, Seq<TokenView>), EvalError> {
    if paren {
        close_paren(out, ops)
    } else {
        close_brace(out, ops)
    }
}

/// Pops to the output down to the nearest `(` (when `paren`) or `{`, and drops it.
fn close_bracket(out: &mut Vec<Token>, ops: &mut Vec<Token>, paren: bool) -> (r: Result<(), EvalError>)
    requires
        all_wf(old(out)@),
        all_wf(old(ops)@),
    ensures
        all_wf(final(out)@),
        all_wf(final(ops)@),
        match r {
            Ok(_) => close_either(paren, views(old(out)@), views(old(ops)@)) == Ok::<
                (Seq<TokenView>, Seq<TokenView>),
                EvalError,
            >((views(final(out)@), views(final(ops)@))),
            Err(e) => close_either(paren, views(old(out)@), views(old(ops)@)) == Err::<
                (Seq<TokenView>, Seq<TokenView>),
                EvalError,
            >(e),
        },
{
    let ghost target = close_either(paren, views(old(out)@), views(old(ops)@));
    let unbalanced = if paren {
        EvalError::UnbalancedParens
    } else {
        EvalError::UnbalancedSetBraces
    };
    loop
        invariant
            target == close_either(paren, views(old(out)@), views(old(ops)@)),
            target == close_either(paren, views(out@), views(ops@)),
            unbalanced == (if paren {
                EvalError::UnbalancedParens
            } else {
                EvalError::UnbalancedSetBraces
            }),
            all_wf(out@),
            all_wf(ops@),
        decreases ops@.len(),
    {
        let n = ops.len();
        if n == 0 {
            return Err(unbalanced);
        }
        proof {
            lemma_views_drop_last(ops@);
        }
        let (is_paren, is_brace) = match &ops[n - 1] {
            Token::LeftParen => (true, false),
            Token::LeftSetBrace => (false, true),
            _ => (false, false),
        };
        if is_paren || is_brace {
            if is_paren != paren {
                return Err(unbalanced);
            }
            proof {
                lemma_all_wf_drop_last(ops@);
            }
            ops.pop();
            return Ok(());
        }
        move_top(out, ops);
    }
}

/// Reorders an infix token sequence into postfix order, honouring precedence,
/// left associativity and brackets. In the Sets domain the numbers inside a pair
/// of set braces become one set token where the closing brace stands.
pub fn shunting_yard(domain: Domain, tokens: Vec<Token>) -> (r: Result<Vec<Token>, EvalError>)
    requires
        all_wf(tokens@),
    ensures
        match r {
            Ok(v) => postfix(domain, views(tokens@)) == Ok::<Seq<TokenView>, EvalError>(views(v@))
                && all_wf(v@),
            Err(e) => postfix(domain, views(tokens@)) == Err::<Seq<TokenView>, EvalError>(e),
        },
{
    let mut out: Vec<Token> = Vec::new();
    let mut ops: Vec<Token> = Vec::new();
    let mut pending = IntSet::new();
    let mut i: usize = 0;
    proof {
        assert(views(out@) =~= Seq::<TokenView>::empty());
        assert(views(ops@) =~= Seq::<TokenView>::empty());
        assert(views(tokens@).subrange(0, 0) =~= Seq::<TokenView>::empty());
    }
    while i < tokens.len()
        invariant
            0 <= i <= tokens@.len(),
            all_wf(tokens@),
            all_wf(out@),
            all_wf(ops@),
            pending.wf(),
            convert_all(domain, views(tokens@).subrange(0, i as int)) == Ok::<ConvState, EvalError>(
                (views(out@), views(ops@), pending@),
            ),
        decreases tokens@.len() - i,
    {
        let ghost ts = views(tokens@);
        proof {
            assert(ts.subrange(0, i + 1).drop_last() =~= ts.subrange(0, i as int));
            assert(ts[i as int] == tokens@[i as int]@);
            assert(tokens@[i as int].wf());
        }
        match &tokens[i] {
            Token::Number(v) => {
                if matches!(domain, Domain::Sets) {
                    pending.insert(*v);
                } else {
                    let t = Token::Number(*v);
                    proof {
                        lemma_views_push(out@, t);
                        lemma_all_wf_push(out@, t);
                    }
                    out.push(t);
                }
            },
            Token::Members(s) => {
                let t = Token::Members(s.copy());
                proof {
                    lemma_views_push(out@, t);
                    lemma_all_wf_push(out@, t);
                }
                out.push(t);
            },
            Token::LeftParen => {
                proof {
                    lemma_views_push(ops@, Token::LeftParen);
                    lemma_all_wf_push(ops@, Token::LeftParen);
                }
                ops.push(Token::LeftParen);
            },
            Token::LeftSetBrace => {
                proof {
                    lemma_views_push(ops@, Token::LeftSetBrace);
                    lemma_all_wf_push(ops@, Token::LeftSetBrace);
                }
                ops.push(Token::LeftSetBrace);
            },
            Token::RightParen => {
                let c = close_bracket(&mut out, &mut ops, true);
                if let Err(e) = c {
                    proof {
                        lemma_convert_err_stays(domain, ts, i as int + 1);
                    }
                    return Err(e);
                }
            },
            Token::RightSetBrace => {
                let c = close_bracket(&mut out, &mut ops, false);
                if let Err(e) = c {
                    proof {
                        lemma_convert_err_stays(domain, ts, i as int + 1);
                    }
                    return Err(e);
                }
                let t = Token::Members(pending);
                proof {
                    lemma_views_push(out@, t);
                    lemma_all_wf_push(out@, t);
                }
                out.push(t);
                pending = IntSet::new();
            },
            Token::Plus | Token::Minus | Token::Multiply | Token::Power => {
                let t = tokens[i].duplicate();
                let p = match &tokens[i] {
                    Token::Plus | Token::Minus => 1,
                    _ => 2,
                };
                pop_operators(&mut out, &mut ops, p);
                proof {
                    lemma_views_push(ops@, t);
                    lemma_all_wf_push(ops@, t);
                }
                ops.push(t);
            },
        }
        i = i + 1;
    }
    proof {
        assert(views(tokens@).subrange(0, i as int) =~= views(tokens@));
    }
    drain_stack(out, ops)
}

/// Once the conversion has failed, it stays failed whatever follows.
proof fn lemma_convert_err_stays(d: Domain, ts: Seq<TokenView>, k: int)
    requires
        0 <= k <= ts.len(),
        convert_all(d, ts.subrange(0, k)) is Err,
    ensures
        convert_all(d, ts) == convert_all(d, ts.subrange(0, k)),
    decreases ts.len() - k,
{
    if k < ts.len() {
        assert(ts.subrange(0, k + 1).drop_last() =~= ts.subrange(0, k));
        lemma_convert_err_stays(d, ts, k + 1);
    } else {
        assert(ts.subrange(0, k) =~= ts);
    }
}

/// Moves everything left on `ops` to `out`.
fn drain_stack(out0: Vec<Token>, ops0: Vec<Token>) -> (r: Result<Vec<Token>, EvalError>)
    requires
        all_wf(out0@),
        all_wf(ops0@),
    ensures
        r is Ok ==> drain(views(out0@), views(ops0@)) == Ok::<Seq<TokenView>, EvalError>(
            views(r->Ok_0@),
        ) && all_wf(r->Ok_0@),
        r is Err ==> drain(views(out0@), views(ops0@)) == Err::<Seq<TokenView>, EvalError>(
            r->Err_0,
        ),
{
    let ghost target = drain(views(out0@), views(ops0@));
    let mut out = out0;
    let mut ops = ops0;
    loop
        invariant
            target == drain(views(out0@), views(ops0@)),
            target == drain(views(out@), views(ops@)),
            all_wf(out@),
            all_wf(ops@),
        decreases ops@.len(),
    {
        let n = ops.len();
        if n == 0 {
            return Ok(out);
        }
        proof {
            lemma_views_drop_last(ops@);
        }
        match &ops[n - 1] {
            Token::LeftParen => {
                return Err(EvalError::UnbalancedParens);
            },
            Token::LeftSetBrace => {
                return Err(EvalError::UnbalancedSetBraces);
            },
            _ => {},
        }
        move_top(&mut out, &mut ops);
    }
}

} // verus!
