//! Recursive-descent parsing: pulls tokens one at a time from the scanner,
//! holding exactly one lookahead token, and builds a single expression tree.
//! Multiplication and division bind tighter than addition and subtraction,
//! both levels associate to the left, and parentheses reset to the lowest
//! precedence level inside the group. Every failure is returned as a distinct
//! value; parsing halts on the first one.

use crate::lexer::lemma_stream_tok_is_token;
use crate::lexer::scan_at;
use crate::lexer::stream_pos;
use crate::lexer::stream_tok;
use crate::lexer::tok;
use crate::lexer::tokens_from;
use crate::lexer::Lexer;
use crate::lexer::Token;
use crate::lexer::TokenModel;
use vstd::prelude::*;

verus! {

/// A node of the expression tree. Each node exclusively owns its children:
/// the tree is strict, never shared, never mutated after construction.
#[derive(Debug, PartialEq)]
pub enum Expr {
    Variable(String),
    Number(i64),
    BinaryOp(Box<Expr>, Op, Box<Expr>),
    Assign(String, Box<Expr>),
}

/// A binary operator: `Into` is multiplication, `By` is division.
#[derive(Debug, Clone, Copy, PartialEq, Eq, Structural)]
pub enum Op {
    Plus,
    Minus,
    Into,
    By,
}

/// The mathematical model of an expression tree: the same shape, with names
/// seen as character sequences.
pub enum ExprModel {
    Variable(Seq<char>),
    Number(i64),
    BinaryOp(Box<ExprModel>, Op, Box<ExprModel>),
    Assign(Seq<char>, Box<ExprModel>),
}

/// The model of an expression tree.
pub open spec fn expr_model(e: Expr) -> ExprModel
    decreases e,
{
    match e {
        Expr::Variable(s) => ExprModel::Variable(s@),
        Expr::Number(v) => ExprModel::Number(v),
        Expr::BinaryOp(l, op, r) => ExprModel::BinaryOp(
            Box::new(expr_model(*l)),
            op,
            Box::new(expr_model(*r)),
        ),
        Expr::Assign(s, e2) => ExprModel::Assign(s@, Box::new(expr_model(*e2))),
    }
}

impl View for Expr {
    type V = ExprModel;

    open spec fn view(&self) -> ExprModel {
        expr_model(*self)
    }
}

/// Why a parse failed. Each grammar violation is reported as its own value;
/// `DivisionByZero` is the parse-time guard against a literal zero divisor.
#[derive(Debug, Clone, Copy, PartialEq, Eq, Structural)]
pub enum ParseError {
    /// The keyword introducing an assignment was not followed by a variable
    /// name.
    ExpectedIdentifier,
    /// The variable name of an assignment was not followed by the equality
    /// keyword.
    ExpectedEq,
    /// A number, a variable or a parenthesized group was required and
    /// something else stood there.
    ExpectedFactor,
    /// A parenthesized group was not closed.
    UnmatchedParen,
    /// The right operand of a division is the literal zero.
    DivisionByZero,
}

/// One parse step of the grammar, at token `i` of the stream `ts`: on
/// success, the tree built and the index of the first token after it.
///
/// `factor := number | identifier | "(" expr ")"`
pub open spec fn spec_factor(ts: Seq<TokenModel>, i: nat) -> Result<(ExprModel, nat), ParseError>
    decreases ts.len() - i, 0nat,
{
    match tok(ts, i) {
        TokenModel::Number(v) => Ok((ExprModel::Number(v), (i + 1) as nat)),
        TokenModel::Identifier(s) => Ok((ExprModel::Variable(s), (i + 1) as nat)),
        TokenModel::LParen => match spec_add_sub(ts, (i + 1) as nat) {
            Ok((e, j)) => if tok(ts, j) == TokenModel::RParen {
                Ok((e, (j + 1) as nat))
            } else {
                Err(ParseError::UnmatchedParen)
            },
            Err(pe) => Err(pe),
        },
        _ => Err(ParseError::ExpectedFactor),
    }
}

/// `term := factor (("*"|"/") factor)*`, left-associative; a division whose
/// right operand is the literal zero fails at once.
pub open spec fn spec_mul_div(ts: Seq<TokenModel>, i: nat) -> Result<(ExprModel, nat), ParseError>
    decreases ts.len() - i, 1nat,
{
    match spec_factor(ts, i) {
        Err(pe) => Err(pe),
        Ok((e0, j)) => if j <= i || j > ts.len() {
            // a factor always consumes at least one token and never passes the
            // stream's end, so this branch can never be taken; it only bounds
            // the recursion
            Err(ParseError::ExpectedFactor)
        } else {
            spec_mul_div_rest(ts, j, e0)
        },
    }
}

/// The left-associative continuation of `term`: while the lookahead is `*` or
/// `/`, fold the next factor into the accumulated left tree.
pub open spec fn spec_mul_div_rest(ts: Seq<TokenModel>, i: nat, acc: ExprModel) -> Result<
    (ExprModel, nat),
    ParseError,
>
    decreases ts.len() - i, 3nat,
{
    let t = tok(ts, i);
    if t == TokenModel::Into || t == TokenModel::By {
        let op = if t == TokenModel::Into {
            Op::Into
        } else {
            Op::By
        };
        match spec_factor(ts, (i + 1) as nat) {
            Err(pe) => Err(pe),
            Ok((rhs, j)) => if t == TokenModel::By && rhs == ExprModel::Number(0) {
                Err(ParseError::DivisionByZero)
            } else if j <= i + 1 || j > ts.len() {
                // unreachable: a factor consumes at least one token and never
                // passes the stream's end
                Err(ParseError::ExpectedFactor)
            } else {
                spec_mul_div_rest(ts, j, ExprModel::BinaryOp(Box::new(acc), op, Box::new(rhs)))
            },
        }
    } else {
        Ok((acc, i))
    }
}

/// `expr := term (("+"|"-") term)*`, left-associative.
pub open spec fn spec_add_sub(ts: Seq<TokenModel>, i: nat) -> Result<(ExprModel, nat), ParseError>
    decreases ts.len() - i, 2nat,
{
    match spec_mul_div(ts, i) {
        Err(pe) => Err(pe),
        Ok((e0, j)) => if j <= i || j > ts.len() {
            // unreachable: a term consumes at least one token and never passes
            // the stream's end
            Err(ParseError::ExpectedFactor)
        } else {
            spec_add_sub_rest(ts, j, e0)
        },
    }
}

/// The left-associative continuation of `expr`: while the lookahead is `+` or
/// `-`, fold the next term into the accumulated left tree.
pub open spec fn spec_add_sub_rest(ts: Seq<TokenModel>, i: nat, acc: ExprModel) -> Result<
    (ExprModel, nat),
    ParseError,
>
    decreases ts.len() - i, 4nat,
{
    let t = tok(ts, i);
    if t == TokenModel::Plus || t == TokenModel::Minus {
        let op = if t == TokenModel::Plus {
            Op::Plus
        } else {
            Op::Minus
        };
        match spec_mul_div(ts, (i + 1) as nat) {
            Err(pe) => Err(pe),
            Ok((rhs, j)) => if j <= i + 1 || j > ts.len() {
                // unreachable: a term consumes at least one token and never
                // passes the stream's end
                Err(ParseError::ExpectedFactor)
            } else {
                spec_add_sub_rest(ts, j, ExprModel::BinaryOp(Box::new(acc), op, Box::new(rhs)))
            },
        }
    } else {
        Ok((acc, i))
    }
}

/// `program := "assume" identifier "eq" expr | expr`.
pub open spec fn spec_assignment(ts: Seq<TokenModel>, i: nat) -> Result<
    (ExprModel, nat),
    ParseError,
>
    decreases ts.len() - i, 5nat,
{
    if tok(ts, i) == TokenModel::Assume {
        match tok(ts, (i + 1) as nat) {
            TokenModel::Identifier(name) => if tok(ts, (i + 2) as nat) == TokenModel::Eq {
                match spec_add_sub(ts, (i + 3) as nat) {
                    Ok((e, j)) => Ok((ExprModel::Assign(name, Box::new(e)), j)),
                    Err(pe) => Err(pe),
                }
            } else {
                Err(ParseError::ExpectedEq)
            },
            _ => Err(ParseError::ExpectedIdentifier),
        }
    } else {
        spec_add_sub(ts, i)
    }
}

/// What parsing a whole text yields: the tree of the canonical leading
/// program of its token stream, or the first failure. Tokens after a complete
/// program are left unconsumed.
pub open spec fn parse_result(text: Seq<char>) -> Result<ExprModel, ParseError> {
    match spec_assignment(tokens_from(text, 0), 0) {
        Ok((e, j)) => Ok(e),
        Err(pe) => Err(pe),
    }
}

/// The parser: a scanner, plus exactly one lookahead token. The ghost fields
/// record where in the text this parser began and how many tokens it has
/// consumed, tying the lookahead to the token stream of the text.
pub struct Parser {
    lexer: Lexer,
    current_token: Token,
    start: Ghost<nat>,
    tok_idx: Ghost<nat>,
}

impl Parser {
    /// The scanned text.
    pub closed spec fn text(&self) -> Seq<char> {
        self.lexer.text()
    }

    /// The character position at which this parser began.
    pub closed spec fn start(&self) -> nat {
        self.start@
    }

    /// The token stream this parser consumes.
    pub open spec fn toks(&self) -> Seq<TokenModel> {
        tokens_from(self.text(), self.start())
    }

    /// The index of the lookahead token in the token stream.
    pub closed spec fn idx(&self) -> nat {
        self.tok_idx@
    }

    /// The character position at which the lookahead token begins.
    pub closed spec fn at(&self) -> nat {
        stream_pos(self.text(), self.start(), self.idx())
    }

    /// The parser is well-formed: the scanner's cursor stands right after the
    /// lookahead token, and the lookahead is the `idx`-th token of the stream.
    pub closed spec fn wf(&self) -> bool {
        &&& self.lexer.wf()
        &&& self.start() <= self.text().len()
        &&& self.at() <= self.text().len()
        &&& self.lexer.cursor() == stream_pos(self.text(), self.start(), self.idx() + 1)
        &&& self.current_token@ == stream_tok(self.text(), self.start(), self.idx())
        &&& self.current_token@ == tok(self.toks(), self.idx())
    }

    /// A parser over the given scanner. The first token is pulled at once, so
    /// the parser always holds one token of lookahead.
    pub fn new(lexer: Lexer) -> (r: Parser)
        requires
            lexer.wf(),
        ensures
            r.wf(),
            r.text() == lexer.text(),
            r.start() == lexer.cursor(),
            r.idx() == 0,
    {
        let ghost p0 = lexer.cursor();
        let mut lx = lexer;
        let t = lx.next_token();
        let r = Parser { lexer: lx, current_token: t, start: Ghost(p0), tok_idx: Ghost(0nat) };
        proof {
            assert(stream_pos(r.text(), p0, 1) == scan_at(r.text(), stream_pos(r.text(), p0, 0)).1);
            lemma_stream_tok_is_token(r.text(), p0, 0);
        }
        r
    }

    /// Discard the lookahead token and pull the next one.
    fn next_token(&mut self)
        requires
            old(self).wf(),
        ensures
            final(self).wf(),
            final(self).text() == old(self).text(),
            final(self).start() == old(self).start(),
            final(self).idx() == old(self).idx() + 1,
            old(self).at() <= final(self).at(),
            old(self).current_token@ != TokenModel::EndOfFile ==> old(self).at() < final(self).at(),
    {
        proof {
            crate::lexer::lemma_scan_at_bounds(old(self).text(), old(self).at());
            assert(stream_pos(old(self).text(), old(self).start(), old(self).idx() + 1)
                == scan_at(old(self).text(), old(self).at()).1);
        }
        let t = self.lexer.next_token();
        self.current_token = t;
        proof {
            self.tok_idx@ = self.tok_idx@ + 1;
            assert(stream_pos(self.text(), self.start(), self.idx() + 1) == scan_at(
                self.text(),
                stream_pos(self.text(), self.start(), self.idx()),
            ).1);
            lemma_stream_tok_is_token(self.text(), self.start(), self.idx());
        }
    }

    /// The operator named by an operator token.
    fn op_from_token(&self, token: Token) -> (op: Op)
        requires
            token@ == TokenModel::Plus || token@ == TokenModel::Minus || token@
                == TokenModel::Into || token@ == TokenModel::By,
        ensures
            token@ == TokenModel::Plus ==> op == Op::Plus,
            token@ == TokenModel::Minus ==> op == Op::Minus,
            token@ == TokenModel::Into ==> op == Op::Into,
            token@ == TokenModel::By ==> op == Op::By,
    {
        match token {
            Token::Plus => Op::Plus,
            Token::Minus => Op::Minus,
            Token::Into => Op::Into,
            Token::By => Op::By,
            // unreachable under the precondition
            _ => Op::Plus,
        }
    }

    /// `factor := number | identifier | "(" expr ")"`.
    fn factor(&mut self) -> (r: Result<Expr, ParseError>)
        requires
            old(self).wf(),
        ensures
            final(self).wf(),
            final(self).text() == old(self).text(),
            final(self).start() == old(self).start(),
            old(self).at() <= final(self).at(),
            ({
                let sp = spec_factor(old(self).toks(), old(self).idx());
                match sp {
                    Ok(p) => r matches Ok(e) && e@ == p.0 && final(self).idx() == p.1,
                    Err(pe) => r matches Err(q) && q == pe,
                }
            }),
            r is Ok ==> old(self).idx() < final(self).idx() && final(self).idx() <= old(self).toks().len(),
        decreases self.text().len() - self.at(), 0nat,
    {
        match &self.current_token {
            Token::Number(v) => {
                let value = *v;
                self.next_token();
                Ok(Expr::Number(value))
            },
            Token::Identifier(id) => {
                let name = id.clone();
                self.next_token();
                Ok(Expr::Variable(name))
            },
            Token::LParen => {
                self.next_token();
                let e = match self.expr() {
                    Ok(e) => e,
                    Err(pe) => return Err(pe),
                };
                if matches!(self.current_token, Token::RParen) {
                    self.next_token();
                    Ok(e)
                } else {
                    Err(ParseError::UnmatchedParen)
                }
            },
            _ => Err(ParseError::ExpectedFactor),
        }
    }

    /// `term := factor (("*"|"/") factor)*`, left-associative, with the
    /// parse-time guard against a literal zero divisor.
    fn mul_div(&mut self) -> (r: Result<Expr, ParseError>)
        requires
            old(self).wf(),
        ensures
            final(self).wf(),
            final(self).text() == old(self).text(),
            final(self).start() == old(self).start(),
            old(self).at() <= final(self).at(),
            ({
                let sp = spec_mul_div(old(self).toks(), old(self).idx());
                match sp {
                    Ok(p) => r matches Ok(e) && e@ == p.0 && final(self).idx() == p.1,
                    Err(pe) => r matches Err(q) && q == pe,
                }
            }),
            r is Ok ==> old(self).idx() < final(self).idx() && final(self).idx() <= old(self).toks().len(),
        decreases self.text().len() - self.at(), 1nat,
    {
        let ghost ts = self.toks();
        let ghost k0 = self.idx();
        let ghost text0 = self.text();
        let ghost st0 = self.start();
        let ghost a0 = self.at();
        let mut left = match self.factor() {
            Ok(e) => e,
            Err(pe) => return Err(pe),
        };
        loop
            invariant
                text0 == old(self).text(),
                st0 == old(self).start(),
                ts == old(self).toks(),
                k0 == old(self).idx(),
                a0 == old(self).at(),
                self.wf(),
                self.text() == text0,
                self.start() == st0,
                a0 <= self.at(),
                k0 < self.idx() <= ts.len(),
                spec_mul_div(ts, k0) == spec_mul_div_rest(ts, self.idx(), left@),
            ensures
                self.wf(),
                self.text() == text0,
                self.start() == st0,
                a0 <= self.at(),
                k0 < self.idx() <= ts.len(),
                spec_mul_div(ts, k0) == spec_mul_div_rest(ts, self.idx(), left@),
                self.current_token@ != TokenModel::Into,
                self.current_token@ != TokenModel::By,
            decreases text0.len() - self.at(),
        {
            let is_into = matches!(self.current_token, Token::Into);
            let is_by = matches!(self.current_token, Token::By);
            if !is_into && !is_by {
                break ;
            }
            let op_tok = if is_into {
                Token::Into
            } else {
                Token::By
            };
            let op = self.op_from_token(op_tok);
            self.next_token();
            let rhs = match self.factor() {
                Ok(e) => e,
                Err(pe) => return Err(pe),
            };
            if is_by && matches!(rhs, Expr::Number(0)) {
                return Err(ParseError::DivisionByZero);
            }
            left = Expr::BinaryOp(Box::new(left), op, Box::new(rhs));
        }
        Ok(left)
    }

    /// `expr := term (("+"|"-") term)*`, left-associative.
    fn add_sub(&mut self) -> (r: Result<Expr, ParseError>)
        requires
            old(self).wf(),
        ensures
            final(self).wf(),
            final(self).text() == old(self).text(),
            final(self).start() == old(self).start(),
            old(self).at() <= final(self).at(),
            ({
                let sp = spec_add_sub(old(self).toks(), old(self).idx());
                match sp {
                    Ok(p) => r matches Ok(e) && e@ == p.0 && final(self).idx() == p.1,
                    Err(pe) => r matches Err(q) && q == pe,
                }
            }),
            r is Ok ==> old(self).idx() < final(self).idx() && final(self).idx() <= old(self).toks().len(),
        decreases self.text().len() - self.at(), 2nat,
    {
        let ghost ts = self.toks();
        let ghost k0 = self.idx();
        let ghost text0 = self.text();
        let ghost st0 = self.start();
        let ghost a0 = self.at();
        let mut left = match self.mul_div() {
            Ok(e) => e,
            Err(pe) => return Err(pe),
        };
        loop
            invariant
                text0 == old(self).text(),
                st0 == old(self).start(),
                ts == old(self).toks(),
                k0 == old(self).idx(),
                a0 == old(self).at(),
                self.wf(),
                self.text() == text0,
                self.start() == st0,
                a0 <= self.at(),
                k0 < self.idx() <= ts.len(),
                spec_add_sub(ts, k0) == spec_add_sub_rest(ts, self.idx(), left@),
            ensures
                self.wf(),
                self.text() == text0,
                self.start() == st0,
                a0 <= self.at(),
                k0 < self.idx() <= ts.len(),
                spec_add_sub(ts, k0) == spec_add_sub_rest(ts, self.idx(), left@),
                self.current_token@ != TokenModel::Plus,
                self.current_token@ != TokenModel::Minus,
            decreases text0.len() - self.at(),
        {
            let is_plus = matches!(self.current_token, Token::Plus);
            let is_minus = matches!(self.current_token, Token::Minus);
            if !is_plus && !is_minus {
                break ;
            }
            let op_tok = if is_plus {
                Token::Plus
            } else {
                Token::Minus
            };
            let op = self.op_from_token(op_tok);
            self.next_token();
            let rhs = match self.mul_div() {
                Ok(e) => e,
                Err(pe) => return Err(pe),
            };
            left = Expr::BinaryOp(Box::new(left), op, Box::new(rhs));
        }
        Ok(left)
    }

    /// `expr`: the lowest precedence level.
    fn expr(&mut self) -> (r: Result<Expr, ParseError>)
        requires
            old(self).wf(),
        ensures
            final(self).wf(),
            final(self).text() == old(self).text(),
            final(self).start() == old(self).start(),
            old(self).at() <= final(self).at(),
            ({
                let sp = spec_add_sub(old(self).toks(), old(self).idx());
                match sp {
                    Ok(p) => r matches Ok(e) && e@ == p.0 && final(self).idx() == p.1,
                    Err(pe) => r matches Err(q) && q == pe,
                }
            }),
            r is Ok ==> old(self).idx() < final(self).idx() && final(self).idx() <= old(self).toks().len(),
        decreases self.text().len() - self.at(), 3nat,
    {
        self.add_sub()
    }

    /// `program := "assume" identifier "eq" expr | expr`.
    fn assignment(&mut self) -> (r: Result<Expr, ParseError>)
        requires
            old(self).wf(),
        ensures
            final(self).wf(),
            final(self).text() == old(self).text(),
            final(self).start() == old(self).start(),
            old(self).at() <= final(self).at(),
            ({
                let sp = spec_assignment(old(self).toks(), old(self).idx());
                match sp {
                    Ok(p) => r matches Ok(e) && e@ == p.0 && final(self).idx() == p.1,
                    Err(pe) => r matches Err(q) && q == pe,
                }
            }),
        decreases self.text().len() - self.at(), 4nat,
    {
        if matches!(self.current_token, Token::Assume) {
            self.next_token();
            let name = match &self.current_token {
                Token::Identifier(id) => id.clone(),
                _ => {
                    return Err(ParseError::ExpectedIdentifier);
                },
            };
            self.next_token();
            if !matches!(self.current_token, Token::Eq) {
                return Err(ParseError::ExpectedEq);
            }
            self.next_token();
            match self.expr() {
                Ok(e) => Ok(Expr::Assign(name, Box::new(e))),
                Err(pe) => Err(pe),
            }
        } else {
            self.expr()
        }
    }

    /// Parse one program from the token stream: an expression tree on
    /// success, the first failure otherwise. Tokens after a complete program
    /// are left unconsumed. For a parser built over a fresh scanner this
    /// yields exactly `parse_result` of the text.
    pub fn parse(&mut self) -> (r: Result<Expr, ParseError>)
        requires
            old(self).wf(),
        ensures
            final(self).wf(),
            ({
                let sp = spec_assignment(old(self).toks(), old(self).idx());
                match sp {
                    Ok(p) => r matches Ok(e) && e@ == p.0,
                    Err(pe) => r matches Err(q) && q == pe,
                }
            }),
            old(self).start() == 0 && old(self).idx() == 0 ==> match parse_result(
                old(self).text(),
            ) {
                Ok(em) => r matches Ok(e) && e@ == em,
                Err(pe) => r matches Err(q) && q == pe,
            },
    {
        self.assignment()
    }
}

/// Law: parsing is deterministic. Parsing the same text twice, with a fresh
/// scanner and parser each time, yields structurally equal results.
pub proof fn lemma_parse_deterministic(
    text: Seq<char>,
    r1: Result<ExprModel, ParseError>,
    r2: Result<ExprModel, ParseError>,
)
    requires
        r1 == parse_result(text),
        r2 == parse_result(text),
    ensures
        r1 == r2,
{
}

} // verus!
