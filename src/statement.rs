use vstd::prelude::*;
use vstd::string::*;

use crate::domain::Domain;
use crate::error::EvalError;
use crate::eval::{evaluate, resolve, Value, ValueView};
use crate::postfix::{postfix, shunting_yard};
use crate::token::{lex, lemma_pieces_len, pieces, tokenize, views, Token};

verus! {

/// The value of one side of a statement.
pub open spec fn clause_value(d: Domain, c: Seq<char>) -> Result<ValueView, EvalError> {
    match postfix(d, lex(c)) {
        Ok(p) => evaluate(d, p),
        Err(e) => Err(e),
    }
}

/// The values of the sides, or the failure of the first side that fails.
pub open spec fn clause_values(d: Domain, cs: Seq<Seq<char>>) -> Result<Seq<ValueView>, EvalError>
    decreases cs.len(),
{
    if cs.len() == 0 {
        Ok(Seq::empty())
    } else {
        match clause_values(d, cs.drop_last()) {
            Ok(vs) => match clause_value(d, cs.last()) {
                Ok(v) => Ok(vs.push(v)),
                Err(e) => Err(e),
            },
            Err(e) => Err(e),
        }
    }
}

/// Every value equals the first.
pub open spec fn all_equal(vs: Seq<ValueView>) -> bool {
    forall|i: int| 0 <= i < vs.len() ==> #[trigger] vs[i] == vs[0]
}

/// What a statement comes to: the value of each side between `=` signs and
/// whether they are all equal; or the failure of the first side that fails.
pub open spec fn statement_outcome(d: Domain, s: Seq<char>) -> Result<(Seq<ValueView>, bool), EvalError> {
    match clause_values(d, pieces(s, '=')) {
        Ok(vs) => Ok((vs, all_equal(vs))),
        Err(e) => Err(e),
    }
}

/// The values of a statement's sides, and whether they are all equal.
pub struct Verdict {
    pub values: Vec<Value>,
    pub valid: bool,
}

impl Verdict {
    /// The values, each by what it stands for.
    pub open spec fn value_views(&self) -> Seq<ValueView> {
        self.values@.map_values(|v: Value| v@)
    }
}

/// Whether a result of `check_statement` is the outcome that the spec gives.
pub open spec fn outcome_is(r: Result<Verdict, EvalError>, o: Result<(Seq<ValueView>, bool), EvalError>) -> bool {
    match r {
        Ok(v) => o == Ok::<(Seq<ValueView>, bool), EvalError>((v.value_views(), v.valid)),
        Err(e) => o == Err::<(Seq<ValueView>, bool), EvalError>(e),
    }
}

proof fn lemma_values_err_stays(d: Domain, cs: Seq<Seq<char>>, k: int)
    requires
        0 <= k <= cs.len(),
        clause_values(d, cs.subrange(0, k)) is Err,
    ensures
        clause_values(d, cs) == clause_values(d, cs.subrange(0, k)),
    decreases cs.len() - k,
{
    if k < cs.len() {
        assert(cs.subrange(0, k + 1).drop_last() =~= cs.subrange(0, k));
        lemma_values_err_stays(d, cs, k + 1);
    } else {
        assert(cs.subrange(0, k) =~= cs);
    }
}

/// Evaluates one side of a statement given as tokens.
fn clause(domain: Domain, tokens: Vec<Token>) -> (r: Result<Value, EvalError>)
    requires
        crate::token::all_wf(tokens@),
    ensures
        r is Ok ==> r->Ok_0.wf() && match postfix(domain, views(tokens@)) {
            Ok(p) => evaluate(domain, p) == Ok::<ValueView, EvalError>(r->Ok_0@),
            Err(_) => false,
        },
        r is Err ==> match postfix(domain, views(tokens@)) {
            Ok(p) => evaluate(domain, p) == Err::<ValueView, EvalError>(r->Err_0),
            Err(e) => e == r->Err_0,
        },
{
    match shunting_yard(domain, tokens) {
        Ok(p) => resolve(domain, p),
        Err(e) => Err(e),
    }
}

/// Evaluates each side of a statement split on `=`, and tells whether all sides
/// have the same value. The first side that cannot be evaluated makes the whole
/// statement fail with its error.
pub fn check_statement(domain: Domain, text: &str) -> (r: Result<Verdict, EvalError>)
    ensures
        outcome_is(r, statement_outcome(domain, text@)),
        r is Ok ==> forall|k: int| 0 <= k < r->Ok_0.values@.len() ==> (#[trigger] r->Ok_0.values@[k]).wf(),
{
    let mut groups = tokenize(text);
    let ghost cs = pieces(text@, '=');
    let ghost all = groups@;
    let n = groups.len();
    let mut values: Vec<Value> = Vec::new();
    let mut i: usize = 0;
    proof {
        assert(cs.subrange(0, 0) =~= Seq::<Seq<char>>::empty());
        assert(values@.map_values(|v: Value| v@) =~= Seq::<ValueView>::empty());
    }
    while i < n
        invariant
            n == all.len(),
            n == cs.len(),
            cs == pieces(text@, '='),
            0 <= i <= n,
            groups@ == all.subrange(i as int, n as int),
            forall|k: int|
                0 <= k < all.len() ==> views(#[trigger] all[k]@) == lex(cs[k])
                    && crate::token::all_wf(all[k]@),
            clause_values(domain, cs.subrange(0, i as int)) == Ok::<Seq<ValueView>, EvalError>(
                values@.map_values(|v: Value| v@),
            ),
            forall|k: int| 0 <= k < values@.len() ==> (#[trigger] values@[k]).wf(),
        decreases n - i,
    {
        let tokens = groups.remove(0);
        proof {
            assert(tokens == all[i as int]);
            assert(groups@ =~= all.subrange(i + 1, n as int));
            assert(cs.subrange(0, i + 1).drop_last() =~= cs.subrange(0, i as int));
            assert(cs.subrange(0, i + 1).last() == cs[i as int]);
            assert(views(tokens@) == lex(cs[i as int]));
        }
        match clause(domain, tokens) {
            Ok(v) => {
                let ghost before = values@;
                values.push(v);
                proof {
                    assert(values@.map_values(|v: Value| v@) =~= before.map_values(|v: Value| v@).push(
                        v@,
                    ));
                }
            },
            Err(e) => {
                proof {
                    assert(clause_value(domain, cs[i as int]) == Err::<ValueView, EvalError>(e));
                    assert(clause_values(domain, cs.subrange(0, i + 1)) == Err::<
                        Seq<ValueView>,
                        EvalError,
                    >(e));
                    lemma_values_err_stays(domain, cs, i + 1);
                }
                return Err(e);
            },
        }
        i = i + 1;
    }
    proof {
        assert(cs.subrange(0, n as int) =~= cs);
    }
    let valid = same_values(&values);
    Ok(Verdict { values, valid })
}

/// Whether every value equals the first.
fn same_values(values: &Vec<Value>) -> (r: bool)
    ensures
        r == all_equal(values@.map_values(|v: Value| v@)),
{
    let ghost vs = values@.map_values(|v: Value| v@);
    let n = values.len();
    if n == 0 {
        return true;
    }
    let mut i: usize = 1;
    while i < n
        invariant
            n == values@.len(),
            n > 0,
            vs == values@.map_values(|v: Value| v@),
            1 <= i <= n,
            forall|k: int| 0 <= k < i ==> #[trigger] vs[k] == vs[0],
        decreases n - i,
    {
        proof {
            assert(vs[i as int] == values@[i as int]@);
            assert(vs[0] == values@[0]@);
        }
        if !values[i].same_as(&values[0]) {
            return false;
        }
        i = i + 1;
    }
    true
}

} // verus!

verus! {

/// A character that only spaces text out.
pub open spec fn is_space(c: char) -> bool {
    c == ' ' || c == '\t' || c == '\n' || c == '\r'
}

/// The text holds nothing but spacing.
pub open spec fn is_blank(s: Seq<char>) -> bool {
    forall|i: int| 0 <= i < s.len() ==> is_space(#[trigger] s[i])
}

/// The pieces that are not blank, in order.
pub open spec fn non_blank(ps: Seq<Seq<char>>) -> Seq<Seq<char>>
    decreases ps.len(),
{
    if ps.len() == 0 {
        Seq::empty()
    } else {
        let rest = non_blank(ps.drop_last());
        if is_blank(ps.last()) {
            rest
        } else {
            rest.push(ps.last())
        }
    }
}

/// The statements of a text: its pieces between `;` signs that are not blank.
pub open spec fn statements(s: Seq<char>) -> Seq<Seq<char>> {
    non_blank(pieces(s, ';'))
}

/// One statement of a text and what it came to.
pub struct StatementReport {
    pub text: String,
    pub outcome: Result<Verdict, EvalError>,
}

/// Whether a text holds nothing but spacing.
fn blank(s: &str) -> (r: bool)
    ensures
        r == is_blank(s@),
{
    let n = s.unicode_len();
    let mut i: usize = 0;
    while i < n
        invariant
            n == s@.len(),
            0 <= i <= n,
            forall|k: int| 0 <= k < i ==> is_space(#[trigger] s@[k]),
        decreases n - i,
    {
        let c = s.get_char(i);
        if !(c == ' ' || c == '\t' || c == '\n' || c == '\r') {
            return false;
        }
        i = i + 1;
    }
    true
}

/// Splits a text into statements on `;`, passes over blank ones, and checks each
/// statement on its own.
pub fn check_text(domain: Domain, text: &str) -> (r: Vec<StatementReport>)
    ensures
        r@.len() == statements(text@).len(),
        forall|k: int|
            0 <= k < r@.len() ==> (#[trigger] r@[k]).text@ == statements(text@)[k] && outcome_is(
                r@[k].outcome,
                statement_outcome(domain, statements(text@)[k]),
            ),
{
    let n = text.unicode_len();
    let mut reports: Vec<StatementReport> = Vec::new();
    let mut start: usize = 0;
    let mut i: usize = 0;
    let ghost mut done: Seq<Seq<char>> = Seq::empty();
    proof {
        assert(text@.subrange(0, 0) =~= Seq::<char>::empty());
        assert(text@.subrange(0, 0) =~= text@.subrange(0, 0));
        assert(pieces(Seq::<char>::empty(), ';') == seq![Seq::<char>::empty()]);
        assert(text@.subrange(0, 0) == Seq::<char>::empty());
        assert(done.push(text@.subrange(0, 0)) =~= seq![Seq::<char>::empty()]);
    }
    loop
        invariant
            n == text@.len(),
            0 <= start <= i <= n,
            pieces(text@.subrange(0, i as int), ';') == done.push(
                text@.subrange(start as int, i as int),
            ),
            reports@.len() == non_blank(done).len(),
            forall|k: int|
                0 <= k < reports@.len() ==> (#[trigger] reports@[k]).text@ == non_blank(done)[k]
                    && outcome_is(
                    reports@[k].outcome,
                    statement_outcome(domain, non_blank(done)[k]),
                ),
        decreases n - i,
    {
        let at_end = i == n;
        let at_sep = !at_end && text.get_char(i) == ';';
        if at_end || at_sep {
            let piece = text.substring_char(start, i);
            let ghost before = done;
            proof {
                done = done.push(piece@);
                assert(done.drop_last() == before);
            }
            if !blank(piece) {
                let outcome = check_statement(domain, piece);
                let ghost old_reports = reports@;
                reports.push(StatementReport { text: String::from_str(piece), outcome });
                proof {
                    assert forall|k: int| 0 <= k < reports@.len() implies (#[trigger] reports@[k]).text@
                        == non_blank(done)[k] && outcome_is(
                        reports@[k].outcome,
                        statement_outcome(domain, non_blank(done)[k]),
                    ) by {
                        if k < old_reports.len() {
                            assert(reports@[k] == old_reports[k]);
                        }
                    }
                }
            }
            if at_sep {
                proof {
                    let s = text@.subrange(0, i + 1);
                    assert(s.drop_last() =~= text@.subrange(0, i as int));
                    assert(text@.subrange(i + 1, i + 1) =~= Seq::<char>::empty());
                }
                start = i + 1;
            } else {
                proof {
                    assert(text@.subrange(0, n as int) =~= text@);
                }
                return reports;
            }
        } else {
            proof {
                let s = text@.subrange(0, i + 1);
                assert(s.drop_last() =~= text@.subrange(0, i as int));
                lemma_pieces_len(text@.subrange(0, i as int), ';');
                assert(text@.subrange(start as int, i as int).push(text@[i as int])
                    =~= text@.subrange(start as int, i + 1));
                assert(done.push(text@.subrange(start as int, i as int)).update(
                    done.len() as int,
                    text@.subrange(start as int, i + 1),
                ) =~= done.push(text@.subrange(start as int, i + 1)));
            }
        }
        i = i + 1;
    }
}

} // verus!

verus! {

/// Splitting `x`, a separator and `y` gives the pieces of `x` followed by those of `y`.
proof fn lemma_pieces_concat(x: Seq<char>, y: Seq<char>, sep: char)
    ensures
        pieces(x.push(sep) + y, sep) == pieces(x, sep) + pieces(y, sep),
    decreases y.len(),
{
    let s = x.push(sep) + y;
    if y.len() == 0 {
        assert(s =~= x.push(sep));
        assert(x.push(sep).drop_last() =~= x);
        assert(pieces(x, sep).push(Seq::empty()) =~= pieces(x, sep) + pieces(y, sep));
    } else {
        let y1 = y.drop_last();
        assert(s.drop_last() =~= x.push(sep) + y1);
        assert(s.last() == y.last());
        lemma_pieces_concat(x, y1, sep);
        lemma_pieces_len(y1, sep);
        let px = pieces(x, sep);
        let py = pieces(y1, sep);
        if y.last() == sep {
            assert((px + py).push(Seq::empty()) =~= px + py.push(Seq::empty()));
        } else {
            assert((px + py).update((px + py).len() - 1, (px + py).last().push(y.last())) =~= px
                + py.update(py.len() - 1, py.last().push(y.last())));
        }
    }
}

/// Dropping blank pieces commutes with putting two lists of pieces together.
proof fn lemma_non_blank_concat(p: Seq<Seq<char>>, q: Seq<Seq<char>>)
    ensures
        non_blank(p + q) == non_blank(p) + non_blank(q),
    decreases q.len(),
{
    if q.len() == 0 {
        assert(p + q =~= p);
        assert(non_blank(p) + non_blank(q) =~= non_blank(p));
    } else {
        let q1 = q.drop_last();
        assert((p + q).drop_last() =~= p + q1);
        assert((p + q).last() == q.last());
        lemma_non_blank_concat(p, q1);
        if !is_blank(q.last()) {
            assert((non_blank(p) + non_blank(q1)).push(q.last()) =~= non_blank(p) + non_blank(
                q1,
            ).push(q.last()));
        }
    }
}

/// The statements of two texts joined by `;` are the statements of the first
/// followed by those of the second; `check_text` gives each its own report, which
/// depends on that statement's text alone.
pub proof fn lemma_statements_join(a: Seq<char>, b: Seq<char>)
    ensures
        statements(a + seq![';'] + b) == statements(a) + statements(b),
{
    assert(a + seq![';'] + b =~= a.push(';') + b);
    lemma_pieces_concat(a, b, ';');
    lemma_non_blank_concat(pieces(a, ';'), pieces(b, ';'));
}

/// Checking the same statement twice gives the same outcome: the same values and
/// verdict, or the same failure.
pub proof fn lemma_check_deterministic(
    d: Domain,
    s: Seq<char>,
    r1: Result<Verdict, EvalError>,
    r2: Result<Verdict, EvalError>,
)
    requires
        outcome_is(r1, statement_outcome(d, s)),
        outcome_is(r2, statement_outcome(d, s)),
    ensures
        r1 is Ok <==> r2 is Ok,
        r1 is Ok ==> r1->Ok_0.value_views() == r2->Ok_0.value_views() && r1->Ok_0.valid
            == r2->Ok_0.valid,
        r1 is Err ==> r1->Err_0 == r2->Err_0,
{
}

} // verus!
