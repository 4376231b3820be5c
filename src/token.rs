use vstd::prelude::*;

use crate::intset::IntSet;

verus! {

/// One lexical unit of an expression.
#[derive(Debug)]
pub enum Token {
    Number(i64),
    Members(IntSet),
    Plus,
    Minus,
    Multiply,
    Power,
    LeftParen,
    RightParen,
    LeftSetBrace,
    RightSetBrace,
}

/// What a token stands for: a set token by its members.
pub enum TokenView {
    Number(i64),
    Members(Set<i64>),
    Plus,
    Minus,
    Multiply,
    Power,
    LeftParen,
    RightParen,
    LeftSetBrace,
    RightSetBrace,
}

impl View for Token {
    type V = TokenView;

    open spec fn view(&self) -> TokenView {
        match self {
            Token::Number(v) => TokenView::Number(*v),
            Token::Members(s) => TokenView::Members(s@),
            Token::Plus => TokenView::Plus,
            Token::Minus => TokenView::Minus,
            Token::Multiply => TokenView::Multiply,
            Token::Power => TokenView::Power,
            Token::LeftParen => TokenView::LeftParen,
            Token::RightParen => TokenView::RightParen,
            Token::LeftSetBrace => TokenView::LeftSetBrace,
            Token::RightSetBrace => TokenView::RightSetBrace,
        }
    }
}

/// The tokens of a sequence, each by what it stands for.
pub open spec fn views(ts: Seq<Token>) -> Seq<TokenView> {
    ts.map_values(|t: Token| t@)
}

/// Every set token in the sequence holds a well-formed set.
pub open spec fn all_wf(ts: Seq<Token>) -> bool {
    forall|i: int| 0 <= i < ts.len() ==> (#[trigger] ts[i]).wf()
}

/// The binary operators.
pub open spec fn is_operator(t: TokenView) -> bool {
    t is Plus || t is Minus || t is Multiply || t is Power
}

/// How tightly an operator binds: addition and subtraction 1, multiplication and
/// power 2; anything else 0.
pub open spec fn precedence(t: TokenView) -> i64 {
    match t {
        TokenView::Plus | TokenView::Minus => 1,
        TokenView::Multiply | TokenView::Power => 2,
        _ => 0,
    }
}

impl Token {
    /// A set token holds a well-formed set.
    pub open spec fn wf(&self) -> bool {
        match self {
            Token::Members(s) => s.wf(),
            _ => true,
        }
    }

    /// How tightly this operator binds; 0 for anything that is no operator.
    pub fn operator_precedence(self) -> (r: i64)
        ensures
            r == precedence(self@),
    {
        match self {
            Token::Plus | Token::Minus => 1,
            Token::Multiply | Token::Power => 2,
            _ => 0,
        }
    }

    /// A token equal to this one.
    pub fn duplicate(&self) -> (r: Token)
        requires
            self.wf(),
        ensures
            r.wf(),
            r@ == self@,
    {
        match self {
            Token::Number(v) => Token::Number(*v),
            Token::Members(s) => Token::Members(s.copy()),
            Token::Plus => Token::Plus,
            Token::Minus => Token::Minus,
            Token::Multiply => Token::Multiply,
            Token::Power => Token::Power,
            Token::LeftParen => Token::LeftParen,
            Token::RightParen => Token::RightParen,
            Token::LeftSetBrace => Token::LeftSetBrace,
            Token::RightSetBrace => Token::RightSetBrace,
        }
    }
}

impl PartialEq for Token {
    fn eq(&self, other: &Token) -> (r: bool) {
        match (self, other) {
            (Token::Number(a), Token::Number(b)) => *a == *b,
            (Token::Members(a), Token::Members(b)) => a.same_members(b),
            (Token::Plus, Token::Plus) => true,
            (Token::Minus, Token::Minus) => true,
            (Token::Multiply, Token::Multiply) => true,
            (Token::Power, Token::Power) => true,
            (Token::LeftParen, Token::LeftParen) => true,
            (Token::RightParen, Token::RightParen) => true,
            (Token::LeftSetBrace, Token::LeftSetBrace) => true,
            (Token::RightSetBrace, Token::RightSetBrace) => true,
            _ => false,
        }
    }
}

impl vstd::std_specs::cmp::PartialEqSpecImpl for Token {
    open spec fn obeys_eq_spec() -> bool {
        true
    }

    open spec fn eq_spec(&self, other: &Token) -> bool {
        self@ == other@
    }
}

/// The token that a character stands for; any other character is skipped.
pub open spec fn token_of_char(c: char) -> Option<TokenView> {
    if '0' <= c && c <= '9' {
        Some(TokenView::Number((c as u32 - '0' as u32) as i64))
    } else if c == '+' {
        Some(TokenView::Plus)
    } else if c == '-' {
        Some(TokenView::Minus)
    } else if c == '*' {
        Some(TokenView::Multiply)
    } else if c == '^' {
        Some(TokenView::Power)
    } else if c == '(' {
        Some(TokenView::LeftParen)
    } else if c == ')' {
        Some(TokenView::RightParen)
    } else if c == '{' {
        Some(TokenView::LeftSetBrace)
    } else if c == '}' {
        Some(TokenView::RightSetBrace)
    } else {
        None
    }
}

/// The tokens of a text, in order.
pub open spec fn lex(s: Seq<char>) -> Seq<TokenView>
    decreases s.len(),
{
    if s.len() == 0 {
        Seq::empty()
    } else {
        let p = lex(s.drop_last());
        match token_of_char(s.last()) {
            Some(t) => p.push(t),
            None => p,
        }
    }
}

/// The pieces of a text between occurrences of `sep`: one more than the
/// occurrences, possibly empty.
pub open spec fn pieces(s: Seq<char>, sep: char) -> Seq<Seq<char>>
    decreases s.len(),
{
    if s.len() == 0 {
        seq![Seq::empty()]
    } else {
        let p = pieces(s.drop_last(), sep);
        if s.last() == sep {
            p.push(Seq::empty())
        } else {
            p.update(p.len() - 1, p.last().push(s.last()))
        }
    }
}

/// There is always at least one piece.
pub proof fn lemma_pieces_len(s: Seq<char>, sep: char)
    ensures
        pieces(s, sep).len() >= 1,
    decreases s.len(),
{
    if s.len() > 0 {
        lemma_pieces_len(s.drop_last(), sep);
    }
}

/// The token of one character.
fn char_token(c: char) -> (r: Option<Token>)
    ensures
        match r {
            Some(t) => token_of_char(c) == Some(t@) && t.wf(),
            None => token_of_char(c) is None,
        },
{
    if '0' <= c && c <= '9' {
        Some(Token::Number((c as u32 - '0' as u32) as i64))
    } else if c == '+' {
        Some(Token::Plus)
    } else if c == '-' {
        Some(Token::Minus)
    } else if c == '*' {
        Some(Token::Multiply)
    } else if c == '^' {
        Some(Token::Power)
    } else if c == '(' {
        Some(Token::LeftParen)
    } else if c == ')' {
        Some(Token::RightParen)
    } else if c == '{' {
        Some(Token::LeftSetBrace)
    } else if c == '}' {
        Some(Token::RightSetBrace)
    } else {
        None
    }
}

/// Splits a statement on `=` and turns each side into its tokens: single digits
/// are numbers, `+ - * ^ ( ) { }` are operators and brackets, and every other
/// character is skipped.
pub fn tokenize(text: &str) -> (r: Vec<Vec<Token>>)
    ensures
        r@.len() == pieces(text@, '=').len(),
        forall|i: int|
            0 <= i < r@.len() ==> views(#[trigger] r@[i]@) == lex(pieces(text@, '=')[i]) && all_wf(
                r@[i]@,
            ),
{
    let n = text.unicode_len();
    let mut groups: Vec<Vec<Token>> = Vec::new();
    let mut cur: Vec<Token> = Vec::new();
    let mut i: usize = 0;
    while i < n
        invariant
            n == text@.len(),
            0 <= i <= n,
            pieces(text@.subrange(0, i as int), '=').len() == groups@.len() + 1,
            forall|k: int|
                0 <= k < groups@.len() ==> views(#[trigger] groups@[k]@) == lex(
                    pieces(text@.subrange(0, i as int), '=')[k],
                ) && all_wf(groups@[k]@),
            views(cur@) == lex(pieces(text@.subrange(0, i as int), '=').last()),
            all_wf(cur@),
        decreases n - i,
    {
        let c = text.get_char(i);
        let ghost prev = text@.subrange(0, i as int);
        let ghost next = text@.subrange(0, i + 1);
        proof {
            assert(next.drop_last() =~= prev);
            lemma_pieces_len(prev, '=');
        }
        if c == '=' {
            groups.push(cur);
            cur = Vec::new();
            proof {
                assert(views(cur@) =~= lex(Seq::empty()));
            }
        } else {
            let ghost last = pieces(prev, '=').last();
            proof {
                assert(last.push(c).drop_last() =~= last);
            }
            match char_token(c) {
                Some(t) => {
                    cur.push(t);
                    proof {
                        assert(views(cur@) =~= lex(last).push(t@));
                    }
                },
                None => {},
            }
        }
        i = i + 1;
    }
    proof {
        assert(text@.subrange(0, n as int) =~= text@);
    }
    groups.push(cur);
    groups
}

} // verus!
