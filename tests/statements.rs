use algebra_domains::domain::{domain_named, Domain, DomainContext, ScopeError};
use algebra_domains::error::EvalError;
use algebra_domains::eval::{resolve, Value};
use algebra_domains::intset::IntSet;
use algebra_domains::postfix::shunting_yard;
use algebra_domains::statement::{check_statement, check_text, Verdict};
use algebra_domains::token::{tokenize, Token};

fn members(s: &IntSet) -> Vec<i64> {
    let mut v: Vec<i64> = (0..s.len()).map(|i| s.get(i)).collect();
    v.sort();
    v
}

fn numbers(v: &Verdict) -> Vec<i64> {
    v.values
        .iter()
        .map(|x| match x {
            Value::Number(n) => *n,
            Value::Members(_) => panic!("expected a number"),
        })
        .collect()
}

fn sets(v: &Verdict) -> Vec<Vec<i64>> {
    v.values
        .iter()
        .map(|x| match x {
            Value::Members(s) => members(s),
            Value::Number(_) => panic!("expected a set"),
        })
        .collect()
}

fn eval_one(domain: Domain, text: &str) -> Result<Value, EvalError> {
    let mut groups = tokenize(text);
    assert_eq!(groups.len(), 1);
    let tokens = groups.remove(0);
    let postfix = shunting_yard(domain, tokens)?;
    resolve(domain, postfix)
}

fn number(domain: Domain, text: &str) -> Result<i64, EvalError> {
    match eval_one(domain, text)? {
        Value::Number(n) => Ok(n),
        Value::Members(_) => panic!("expected a number"),
    }
}

#[test]
fn algebra_sum_and_product_agree() {
    let v = check_statement(Domain::Algebra, "2*3+1=2+2+2+1").unwrap();
    assert_eq!(numbers(&v), vec![7, 7]);
    assert!(v.valid);
}

#[test]
fn algebra_power_then_minus() {
    let v = check_statement(Domain::Algebra, "2^3-1=7").unwrap();
    assert_eq!(numbers(&v), vec![7, 7]);
    assert!(v.valid);
}

#[test]
fn boolean_or_and() {
    let v = check_statement(Domain::Boolean, "(1+0)*1+1=0*1+1").unwrap();
    assert_eq!(numbers(&v), vec![1, 1]);
    assert!(v.valid);
}

#[test]
fn sets_union_of_intersection() {
    let v = check_statement(Domain::Sets, "{1,2}+({1,2,3}*{2,3})={1,2,3}").unwrap();
    assert_eq!(sets(&v), vec![vec![1, 2, 3], vec![1, 2, 3]]);
    assert!(v.valid);
}

#[test]
fn sets_distributive_counterexample() {
    let v = check_statement(Domain::Sets, "{1,2}+({1,2}*{2,3})=({1,2}+{1,2,3})*{2,3}").unwrap();
    assert_eq!(sets(&v), vec![vec![1, 2], vec![2, 3]]);
    assert!(!v.valid);
}

#[test]
fn unclosed_paren_is_rejected() {
    assert_eq!(check_statement(Domain::Algebra, "(1+2").err(), Some(EvalError::UnbalancedParens));
    assert_eq!(number(Domain::Algebra, "(1+2"), Err(EvalError::UnbalancedParens));
}

#[test]
fn unopened_paren_is_rejected() {
    assert_eq!(number(Domain::Algebra, "1+2)"), Err(EvalError::UnbalancedParens));
}

#[test]
fn unbalanced_set_braces_are_rejected() {
    assert_eq!(check_statement(Domain::Sets, "{1,2").err(), Some(EvalError::UnbalancedSetBraces));
    assert_eq!(check_statement(Domain::Sets, "1,2}").err(), Some(EvalError::UnbalancedSetBraces));
    assert_eq!(check_statement(Domain::Sets, "({1})}").err(), Some(EvalError::UnbalancedSetBraces));
}

#[test]
fn semicolons_give_one_verdict_each() {
    let reports = check_text(Domain::Algebra, "1+1=2; 2*2=5;3=3;");
    assert_eq!(reports.len(), 3);
    assert_eq!(reports[0].text, "1+1=2");
    assert_eq!(reports[1].text, " 2*2=5");
    let r0 = reports[0].outcome.as_ref().unwrap();
    let r1 = reports[1].outcome.as_ref().unwrap();
    let r2 = reports[2].outcome.as_ref().unwrap();
    assert!(r0.valid);
    assert_eq!(numbers(r1), vec![4, 5]);
    assert!(!r1.valid);
    assert!(r2.valid);
}

#[test]
fn failed_statement_does_not_affect_others() {
    let reports = check_text(Domain::Algebra, "(1=1;2=2");
    assert_eq!(reports.len(), 2);
    assert_eq!(reports[0].outcome.as_ref().err(), Some(&EvalError::UnbalancedParens));
    assert!(reports[1].outcome.as_ref().unwrap().valid);
}

#[test]
fn text_without_semicolon_is_one_statement() {
    let reports = check_text(Domain::Algebra, "1+2=3");
    assert_eq!(reports.len(), 1);
    assert!(reports[0].outcome.as_ref().unwrap().valid);
    assert_eq!(check_text(Domain::Algebra, "  ").len(), 0);
}

#[test]
fn multiplication_binds_tighter() {
    assert_eq!(number(Domain::Algebra, "1+2*2"), Ok(5));
    assert_eq!(number(Domain::Algebra, "(1+2)*2"), Ok(6));
}

#[test]
fn same_precedence_is_left_associative() {
    assert_eq!(number(Domain::Algebra, "9-3-2"), Ok(4));
    assert_eq!(number(Domain::Algebra, "2^3^2"), Ok(64));
    assert_eq!(number(Domain::Algebra, "2*3^2"), Ok(36));
}

#[test]
fn power_multiplies_right_minus_one_times() {
    assert_eq!(number(Domain::Algebra, "3^1"), Ok(3));
    assert_eq!(number(Domain::Algebra, "3^0"), Ok(3));
    assert_eq!(number(Domain::Algebra, "0-2^3"), Ok(-8));
    assert_eq!(number(Domain::Algebra, "(0-1)^4"), Ok(1));
    assert_eq!(number(Domain::Algebra, "(0-1)^5"), Ok(-1));
    assert_eq!(number(Domain::Algebra, "1^9^9^9"), Ok(1));
}

#[test]
fn algebra_overflow_is_reported() {
    assert_eq!(number(Domain::Algebra, "9^9^9"), Err(EvalError::Overflow));
    assert_eq!(number(Domain::Algebra, "2^9^7"), Err(EvalError::Overflow));
}

#[test]
fn repeated_runs_agree() {
    let a = check_statement(Domain::Algebra, "3*(2+1)-4=5");
    let b = check_statement(Domain::Algebra, "3*(2+1)-4=5");
    assert_eq!(numbers(&a.unwrap()), numbers(&b.unwrap()));
}

#[test]
fn strings_plus_concatenates() {
    assert_eq!(number(Domain::Strings, "1+2"), Ok(12));
    assert_eq!(number(Domain::Strings, "1+2+3"), Ok(123));
    assert_eq!(number(Domain::Strings, "0+5"), Ok(5));
    assert_eq!(number(Domain::Strings, "(0-1)+2"), Ok(-12));
}

#[test]
fn strings_multiply_repeats_right_operand() {
    assert_eq!(number(Domain::Strings, "2*3"), Ok(33));
    assert_eq!(number(Domain::Strings, "3*4"), Ok(444));
    assert_eq!(number(Domain::Strings, "1*(0-4)"), Ok(-4));
    assert_eq!(number(Domain::Strings, "4*0"), Ok(0));
}

#[test]
fn strings_plus_before_multiply_adds() {
    // postfix `2 1 2 + *`: the `+` is followed by `*`, so it adds
    assert_eq!(number(Domain::Strings, "2*(1+2)"), Ok(33));
    // postfix `1 2 + 2 *`: the `+` is followed by `2`, so it concatenates
    assert_eq!(number(Domain::Strings, "(1+2)*2"), Ok(222222222222));
    let v = check_statement(Domain::Strings, "2*(1+2)=3+3").unwrap();
    assert_eq!(numbers(&v), vec![33, 33]);
    assert!(v.valid);
}

#[test]
fn strings_unreadable_text_is_reported() {
    assert_eq!(number(Domain::Strings, "1+(0-2)"), Err(EvalError::NotANumber));
    assert_eq!(number(Domain::Strings, "0*5"), Err(EvalError::NotANumber));
    assert_eq!(number(Domain::Strings, "2*(0-5)"), Err(EvalError::NotANumber));
}

#[test]
fn strings_overflow_is_reported() {
    assert_eq!(number(Domain::Strings, "9*9*9"), Err(EvalError::Overflow));
}

#[test]
fn boolean_minus_falls_back_to_integers() {
    assert_eq!(number(Domain::Boolean, "1-1"), Ok(0));
    assert_eq!(number(Domain::Boolean, "1+1"), Ok(1));
    assert_eq!(number(Domain::Boolean, "1*0"), Ok(0));
}

#[test]
fn missing_and_extra_operands() {
    assert_eq!(number(Domain::Algebra, "1+"), Err(EvalError::MissingOperand));
    assert_eq!(number(Domain::Algebra, ""), Err(EvalError::MissingOperand));
    assert_eq!(number(Domain::Algebra, "1 2"), Err(EvalError::ExtraOperands));
    assert_eq!(check_statement(Domain::Sets, "{1}+").err(), Some(EvalError::MissingOperand));
    assert_eq!(check_statement(Domain::Sets, "{1}{2}").err(), Some(EvalError::ExtraOperands));
}

#[test]
fn sets_keep_each_member_once() {
    let v = check_statement(Domain::Sets, "{1,1,2}+{2,3}={}+{3,2,1}").unwrap();
    assert_eq!(sets(&v), vec![vec![1, 2, 3], vec![1, 2, 3]]);
    assert!(v.valid);
    let e = check_statement(Domain::Sets, "{1}*{2}={}").unwrap();
    assert_eq!(sets(&e), vec![vec![], vec![]]);
    assert!(e.valid);
}

#[test]
fn tokenizer_skips_other_characters() {
    let groups = tokenize("a1 + 2, x=(3)");
    assert_eq!(groups.len(), 2);
    assert_eq!(groups[0], vec![Token::Number(1), Token::Plus, Token::Number(2)]);
    assert_eq!(groups[1], vec![Token::LeftParen, Token::Number(3), Token::RightParen]);
    let braces = tokenize("{9}^-*");
    assert_eq!(
        braces[0],
        vec![
            Token::LeftSetBrace,
            Token::Number(9),
            Token::RightSetBrace,
            Token::Power,
            Token::Minus,
            Token::Multiply
        ]
    );
}

#[test]
fn postfix_order_of_a_sum_of_products() {
    let tokens = tokenize("1+2*3").remove(0);
    let out = shunting_yard(Domain::Algebra, tokens).unwrap();
    assert_eq!(
        out,
        vec![Token::Number(1), Token::Number(2), Token::Number(3), Token::Multiply, Token::Plus]
    );
}

#[test]
fn operator_precedence_values() {
    assert_eq!(Token::Plus.operator_precedence(), 1);
    assert_eq!(Token::Minus.operator_precedence(), 1);
    assert_eq!(Token::Multiply.operator_precedence(), 2);
    assert_eq!(Token::Power.operator_precedence(), 2);
    assert_eq!(Token::LeftParen.operator_precedence(), 0);
    assert_eq!(Token::Number(4).operator_precedence(), 0);
}

#[test]
fn domain_names() {
    assert_eq!(Domain::Strings.name(), "Strings");
    assert_eq!(Domain::Algebra.name(), "Algebra");
    assert_eq!(Domain::Sets.name(), "Sets");
    assert_eq!(Domain::Boolean.name(), "Boolean");
    assert_eq!(domain_named("sets"), Some(Domain::Sets));
    assert_eq!(domain_named("boolean"), Some(Domain::Boolean));
    assert_eq!(domain_named("root"), None);
}

#[test]
fn scopes_nest() {
    let mut ctx = DomainContext::new();
    assert_eq!(ctx.current(), None);
    ctx.enter("algebra");
    ctx.enter("statements");
    ctx.enter("sets");
    assert_eq!(ctx.current(), Some(Domain::Sets));
    assert_eq!(ctx.depth(), 2);
    assert_eq!(ctx.leave("sets"), Ok(()));
    assert_eq!(ctx.leave("statements"), Ok(()));
    assert_eq!(ctx.current(), Some(Domain::Algebra));
    assert_eq!(ctx.leave("boolean"), Err(ScopeError::Mismatched));
    assert_eq!(ctx.leave("algebra"), Ok(()));
    assert_eq!(ctx.leave("algebra"), Err(ScopeError::NothingOpen));
}

#[test]
fn int_set_operations() {
    let mut a = IntSet::new();
    a.insert(3);
    a.insert(1);
    a.insert(3);
    let mut b = IntSet::new();
    b.insert(3);
    b.insert(5);
    assert_eq!(a.len(), 2);
    assert!(a.contains(1) && !a.contains(5));
    assert_eq!(members(&a.union(&b)), vec![1, 3, 5]);
    assert_eq!(members(&a.intersection(&b)), vec![3]);
    assert!(a.same_members(&a.copy()));
    assert!(!a.same_members(&b));
}
