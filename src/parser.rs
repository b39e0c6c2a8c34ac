use crate::expr::{exprs_view, lemma_call_view, Expr, ExprView};
use crate::num::Num;
use crate::tokenizer::{
    span, tokens_view, OpVal, SymbolVal, Token, TokenValue, TokenValueView, TokenView,
};
use peekmore::{PeekMore, PeekMoreIterator};
use std::ops::Range;
use vstd::prelude::*;

verus! {

#[derive(Debug, Clone, PartialEq)]
pub enum ParseErrorCode<N> {
    ExpectedValue,
    ExpectedClosingParen,
    UnexpectedToken(Token<N>),
    UnexpectedEOF,
}

/// A syntax error and the byte range of the source it points at.
#[derive(Debug, Clone, PartialEq)]
pub struct ParseError<N> {
    pub code: ParseErrorCode<N>,
    pub span: Range<usize>,
}

pub enum ParseErrorCodeView<N> {
    ExpectedValue,
    ExpectedClosingParen,
    UnexpectedToken(TokenView<N>),
    UnexpectedEOF,
}

pub struct ParseErrorView<N> {
    pub code: ParseErrorCodeView<N>,
    pub span: Range<usize>,
}

impl<N> View for ParseError<N> {
    type V = ParseErrorView<N>;

    open spec fn view(&self) -> ParseErrorView<N> {
        ParseErrorView {
            code: match self.code {
                ParseErrorCode::ExpectedValue => ParseErrorCodeView::ExpectedValue,
                ParseErrorCode::ExpectedClosingParen => ParseErrorCodeView::ExpectedClosingParen,
                ParseErrorCode::UnexpectedToken(t) => ParseErrorCodeView::UnexpectedToken(t@),
                ParseErrorCode::UnexpectedEOF => ParseErrorCodeView::UnexpectedEOF,
            },
            span: self.span,
        }
    }
}

/// A parse of a prefix of the tokens: the tree and the position after it, or the first error.
pub type Parsed<N> = Result<(ExprView<N>, int), ParseErrorView<N>>;

#[verifier::external_type_specification]
#[verifier::external_body]
#[verifier::reject_recursive_types(I)]
pub struct ExPeekMoreIterator<I: Iterator>(PeekMoreIterator<I>);

/// The items that a peekmore iterator over token indices has not yet handed out.
pub uninterp spec fn pending(it: PeekMoreIterator<Range<usize>>) -> Seq<usize>;

/// Relies on peekmore's `PeekMore::peekmore`: the new iterator hands out
/// what `0..n` hands out, in order.
#[verifier::external_body]
fn index_stream(n: usize) -> (r: PeekMoreIterator<Range<usize>>)
    ensures
        pending(r) == Seq::new(n as nat, |i: int| i as usize),
{
    (0..n).peekmore()
}

/// Relies on `PeekMoreIterator::peek_nth`: the `k`-th item not yet handed
/// out, without consuming anything (it fills its queue up to `k`).
#[verifier::external_body]
fn peek_index(it: &mut PeekMoreIterator<Range<usize>>, k: usize) -> (r: Option<usize>)
    requires
        k <= 1,
    ensures
        pending(*final(it)) == pending(*old(it)),
        r == (if k < pending(*old(it)).len() {
            Some(pending(*old(it))[k as int])
        } else {
            None::<usize>
        }),
{
    it.peek_nth(k).copied()
}

/// Relies on `Iterator::next` of `PeekMoreIterator`: hands out the first item
/// not yet handed out, from its queue or from the inner range.
#[verifier::external_body]
fn next_index(it: &mut PeekMoreIterator<Range<usize>>) -> (r: Option<usize>)
    ensures
        pending(*old(it)).len() > 0 ==> r == Some(pending(*old(it))[0]) && pending(*final(it))
            == pending(*old(it)).drop_first(),
        pending(*old(it)).len() == 0 ==> r is None && pending(*final(it)) == pending(*old(it)),
{
    it.next()
}

/// The iterator has handed out the indices before `p` and holds `p..n`.
pub open spec fn stream_at(s: Seq<usize>, n: int, p: int) -> bool {
    0 <= p <= n && s == Seq::new((n - p) as nat, |i: int| (p + i) as usize)
}

/// The position of the next token that the iterator hands out.
pub open spec fn pos(it: PeekMoreIterator<Range<usize>>, n: int) -> int {
    n - pending(it).len()
}

pub open spec fn stream_ok(it: PeekMoreIterator<Range<usize>>, n: int) -> bool {
    stream_at(pending(it), n, pos(it, n))
}

pub open spec fn abs_name() -> Seq<char> {
    seq!['a', 'b', 's']
}

pub open spec fn factorial_name() -> Seq<char> {
    seq!['f', 'a', 'c', 't', 'o', 'r', 'i', 'a', 'l']
}

pub open spec fn has_value<N>(ts: Seq<TokenView<N>>, p: int, v: TokenValueView<N>) -> bool {
    0 <= p < ts.len() && ts[p].value == v
}

pub open spec fn has_op<N>(ts: Seq<TokenView<N>>, p: int, o: OpVal) -> bool {
    has_value(ts, p, TokenValueView::Op(o))
}

pub open spec fn has_symbol<N>(ts: Seq<TokenView<N>>, p: int, s: SymbolVal) -> bool {
    has_value(ts, p, TokenValueView::Symbol(s))
}

/// Where an error at the end of the input points: just past the last token.
pub open spec fn eof_span<N>(ts: Seq<TokenView<N>>) -> Range<usize> {
    if ts.len() == 0 {
        span(0, 0)
    } else {
        span(ts.last().span.end as int, ts.last().span.end as int)
    }
}

pub open spec fn eof_error<N>(ts: Seq<TokenView<N>>) -> ParseErrorView<N> {
    ParseErrorView { code: ParseErrorCodeView::UnexpectedEOF, span: eof_span(ts) }
}

pub open spec fn unexpected<N>(t: TokenView<N>) -> ParseErrorView<N> {
    ParseErrorView { code: ParseErrorCodeView::UnexpectedToken(t), span: t.span }
}

/// The error for a token that should not stand at `p`, or for the end of input.
pub open spec fn unexpected_at<N>(ts: Seq<TokenView<N>>, p: int) -> ParseErrorView<N> {
    if 0 <= p < ts.len() {
        unexpected(ts[p])
    } else {
        eof_error(ts)
    }
}

/// A parse step ended strictly further on, and within the tokens.
pub open spec fn advanced(p: int, q: int, len: int) -> bool {
    p < q <= len
}

/// The error that stands for a parse that did not move forward; no parse
/// function returns it (each success consumes a token).
pub open spec fn stalled<N>() -> ParseErrorView<N> {
    ParseErrorView { code: ParseErrorCodeView::ExpectedValue, span: span(0, 0) }
}

pub open spec fn boxed<N>(e: ExprView<N>) -> Box<ExprView<N>> {
    Box::new(e)
}

/// The whole token sequence as one expression: an expression that leaves a
/// token unconsumed is an error at that token.
pub open spec fn parse_tokens<N>(ts: Seq<TokenView<N>>) -> Result<ExprView<N>, ParseErrorView<N>> {
    match expr_at(ts, 0) {
        Ok((e, q)) => if q < ts.len() {
            Err(unexpected(ts[q]))
        } else {
            Ok(e)
        },
        Err(err) => Err(err),
    }
}

/// Loosest level: an expression.
pub open spec fn expr_at<N>(ts: Seq<TokenView<N>>, p: int) -> Parsed<N>
    decreases ts.len() - p, 10int,
{
    eq_at(ts, p)
}

/// `a = b = c` folds to the left, each right side one level tighter.
pub open spec fn eq_at<N>(ts: Seq<TokenView<N>>, p: int) -> Parsed<N>
    decreases ts.len() - p, 9int,
{
    match add_at(ts, p) {
        Ok((l, q)) => if advanced(p, q, ts.len() as int) {
            eq_tail(ts, q, l)
        } else {
            Err(stalled())
        },
        Err(e) => Err(e),
    }
}

pub open spec fn eq_tail<N>(ts: Seq<TokenView<N>>, p: int, acc: ExprView<N>) -> Parsed<N>
    decreases ts.len() - p, 1int,
{
    if has_op(ts, p, OpVal::Eq) {
        match add_at(ts, p + 1) {
            Ok((r, q)) => if advanced(p + 1, q, ts.len() as int) {
                eq_tail(ts, q, ExprView::Eq(boxed(acc), boxed(r)))
            } else {
                Err(stalled())
            },
            Err(e) => Err(e),
        }
    } else {
        Ok((acc, p))
    }
}

pub open spec fn is_add_op(o: OpVal) -> bool {
    o == OpVal::Add || o == OpVal::Sub
}

pub open spec fn is_mul_op(o: OpVal) -> bool {
    o == OpVal::Mul || o == OpVal::Div || o == OpVal::Mod
}

/// The operator at `p`, if the token there is one.
pub open spec fn op_at<N>(ts: Seq<TokenView<N>>, p: int) -> Option<OpVal> {
    if 0 <= p < ts.len() {
        match ts[p].value {
            TokenValueView::Op(o) => Some(o),
            _ => None,
        }
    } else {
        None
    }
}

/// Additive level, left-associative.
pub open spec fn add_at<N>(ts: Seq<TokenView<N>>, p: int) -> Parsed<N>
    decreases ts.len() - p, 8int,
{
    match mul_at(ts, p) {
        Ok((l, q)) => if advanced(p, q, ts.len() as int) {
            add_tail(ts, q, l)
        } else {
            Err(stalled())
        },
        Err(e) => Err(e),
    }
}

pub open spec fn add_tail<N>(ts: Seq<TokenView<N>>, p: int, acc: ExprView<N>) -> Parsed<N>
    decreases ts.len() - p, 1int,
{
    match op_at(ts, p) {
        Some(o) => if is_add_op(o) {
            match mul_at(ts, p + 1) {
                Ok((r, q)) => if advanced(p + 1, q, ts.len() as int) {
                    add_tail(ts, q, ExprView::Op(o, boxed(acc), boxed(r)))
                } else {
                    Err(stalled())
                },
                Err(e) => Err(e),
            }
        } else {
            Ok((acc, p))
        },
        None => Ok((acc, p)),
    }
}

/// Multiplicative level, left-associative.
pub open spec fn mul_at<N>(ts: Seq<TokenView<N>>, p: int) -> Parsed<N>
    decreases ts.len() - p, 7int,
{
    match pow_at(ts, p) {
        Ok((l, q)) => if advanced(p, q, ts.len() as int) {
            mul_tail(ts, q, l)
        } else {
            Err(stalled())
        },
        Err(e) => Err(e),
    }
}

pub open spec fn mul_tail<N>(ts: Seq<TokenView<N>>, p: int, acc: ExprView<N>) -> Parsed<N>
    decreases ts.len() - p, 1int,
{
    match op_at(ts, p) {
        Some(o) => if is_mul_op(o) {
            match pow_at(ts, p + 1) {
                Ok((r, q)) => if advanced(p + 1, q, ts.len() as int) {
                    mul_tail(ts, q, ExprView::Op(o, boxed(acc), boxed(r)))
                } else {
                    Err(stalled())
                },
                Err(e) => Err(e),
            }
        } else {
            Ok((acc, p))
        },
        None => Ok((acc, p)),
    }
}

/// Exponent level, left-associative; each exponent is a single factor.
pub open spec fn pow_at<N>(ts: Seq<TokenView<N>>, p: int) -> Parsed<N>
    decreases ts.len() - p, 6int,
{
    match juxt_at(ts, p) {
        Ok((l, q)) => if advanced(p, q, ts.len() as int) {
            pow_tail(ts, q, l)
        } else {
            Err(stalled())
        },
        Err(e) => Err(e),
    }
}

pub open spec fn pow_tail<N>(ts: Seq<TokenView<N>>, p: int, acc: ExprView<N>) -> Parsed<N>
    decreases ts.len() - p, 1int,
{
    if has_op(ts, p, OpVal::Pow) {
        match factor_at(ts, p + 1) {
            Ok((r, q)) => if advanced(p + 1, q, ts.len() as int) {
                pow_tail(ts, q, ExprView::Op(OpVal::Pow, boxed(acc), boxed(r)))
            } else {
                Err(stalled())
            },
            Err(e) => Err(e),
        }
    } else {
        Ok((acc, p))
    }
}

/// Juxtaposition: an identifier directly followed by `(` is a call; any other
/// factor directly followed by parenthesized groups is multiplied by them.
pub open spec fn juxt_at<N>(ts: Seq<TokenView<N>>, p: int) -> Parsed<N>
    decreases ts.len() - p, 5int,
{
    if is_call_start(ts, p) {
        call_at(ts, p)
    } else {
        match factorial_at(ts, p) {
            Ok((l, q)) => if advanced(p, q, ts.len() as int) {
                juxt_tail(ts, q, l)
            } else {
                Err(stalled())
            },
            Err(e) => Err(e),
        }
    }
}

pub open spec fn juxt_tail<N>(ts: Seq<TokenView<N>>, p: int, acc: ExprView<N>) -> Parsed<N>
    decreases ts.len() - p, 1int,
{
    if has_symbol(ts, p, SymbolVal::LP) {
        match expr_at(ts, p + 1) {
            Ok((r, q)) => if advanced(p + 1, q, ts.len() as int) {
                if has_symbol(ts, q, SymbolVal::RP) {
                    juxt_tail(ts, q + 1, ExprView::Op(OpVal::Mul, boxed(acc), boxed(r)))
                } else if q < ts.len() {
                    Err(
                        ParseErrorView {
                            code: ParseErrorCodeView::ExpectedClosingParen,
                            span: ts[q].span,
                        },
                    )
                } else {
                    Err(eof_error(ts))
                }
            } else {
                Err(stalled())
            },
            Err(e) => Err(e),
        }
    } else {
        Ok((acc, p))
    }
}

/// The identifier at `p`, if the token there is one.
pub open spec fn id_at<N>(ts: Seq<TokenView<N>>, p: int) -> Option<Seq<char>> {
    if 0 <= p < ts.len() {
        match ts[p].value {
            TokenValueView::Id(id) => Some(id),
            _ => None,
        }
    } else {
        None
    }
}

pub open spec fn is_call_start<N>(ts: Seq<TokenView<N>>, p: int) -> bool {
    id_at(ts, p) is Some && has_symbol(ts, p + 1, SymbolVal::LP)
}

/// `id ( args )`, where `p` holds the identifier and `p + 1` the `(`.
pub open spec fn call_at<N>(ts: Seq<TokenView<N>>, p: int) -> Parsed<N>
    decreases ts.len() - p, 4int,
{
    let id = id_at(ts, p).unwrap();
    if has_symbol(ts, p + 2, SymbolVal::RP) {
        Ok((ExprView::FuncOrVarMul(id, Seq::empty()), p + 3))
    } else if is_call_start(ts, p) {
        args_from(ts, p + 2, id, Seq::empty())
    } else {
        Err(stalled())
    }
}

/// Arguments separated by commas and closed by `)`, the first at `p`.
pub open spec fn args_from<N>(
    ts: Seq<TokenView<N>>,
    p: int,
    id: Seq<char>,
    args: Seq<ExprView<N>>,
) -> Parsed<N>
    decreases ts.len() - p, 11int,
{
    match expr_at(ts, p) {
        Ok((a, q)) => if advanced(p, q, ts.len() as int) {
            if has_symbol(ts, q, SymbolVal::Comma) {
                args_from(ts, q + 1, id, args.push(a))
            } else if has_symbol(ts, q, SymbolVal::RP) {
                Ok((ExprView::FuncOrVarMul(id, args.push(a)), q + 1))
            } else {
                Err(unexpected_at(ts, q))
            }
        } else {
            Err(stalled())
        },
        Err(e) => Err(e),
    }
}

/// A factor followed by any number of `!`, each a call of `factorial`.
pub open spec fn factorial_at<N>(ts: Seq<TokenView<N>>, p: int) -> Parsed<N>
    decreases ts.len() - p, 3int,
{
    match factor_at(ts, p) {
        Ok((l, q)) => if advanced(p, q, ts.len() as int) {
            factorial_tail(ts, q, l)
        } else {
            Err(stalled())
        },
        Err(e) => Err(e),
    }
}

pub open spec fn factorial_tail<N>(ts: Seq<TokenView<N>>, p: int, acc: ExprView<N>) -> Parsed<N>
    decreases ts.len() - p, 1int,
{
    if has_op(ts, p, OpVal::Exclaim) {
        factorial_tail(ts, p + 1, ExprView::FuncOrVarMul(factorial_name(), seq![acc]))
    } else {
        Ok((acc, p))
    }
}

/// A primary: a number, a variable, a negation of the whole expression that
/// follows, a parenthesized expression, or `|e|` for the absolute value.
pub open spec fn factor_at<N>(ts: Seq<TokenView<N>>, p: int) -> Parsed<N>
    decreases ts.len() - p, 2int,
{
    if 0 <= p < ts.len() {
        match ts[p].value {
            TokenValueView::Num(n) => Ok((ExprView::Num(n), p + 1)),
            TokenValueView::Id(id) => Ok((ExprView::Var(id), p + 1)),
            TokenValueView::Op(o) => if o == OpVal::Sub {
                match expr_at(ts, p + 1) {
                    Ok((e, q)) => Ok((ExprView::Neg(boxed(e)), q)),
                    Err(e) => Err(e),
                }
            } else {
                Err(unexpected(ts[p]))
            },
            TokenValueView::Symbol(s) => if s == SymbolVal::LP {
                match expr_at(ts, p + 1) {
                    Ok((e, q)) => if has_symbol(ts, q, SymbolVal::RP) {
                        Ok((e, q + 1))
                    } else {
                        Err(unexpected_at(ts, q))
                    },
                    Err(e) => Err(e),
                }
            } else if s == SymbolVal::Pipe {
                match expr_at(ts, p + 1) {
                    Ok((e, q)) => if has_symbol(ts, q, SymbolVal::Pipe) {
                        Ok((ExprView::FuncOrVarMul(abs_name(), seq![e]), q + 1))
                    } else {
                        Err(unexpected_at(ts, q))
                    },
                    Err(e) => Err(e),
                }
            } else {
                Err(unexpected(ts[p]))
            },
        }
    } else {
        Err(eof_error(ts))
    }
}

/// The result `r` of an exec parse step agrees with the spec parse `spec`,
/// and on success the step ended at `q`.
pub open spec fn agrees<N>(r: Result<Expr<N>, ParseError<N>>, spec: Parsed<N>, q: int) -> bool {
    match r {
        Ok(e) => spec == Ok::<(ExprView<N>, int), ParseErrorView<N>>((e@, q)),
        Err(err) => spec == Err::<(ExprView<N>, int), ParseErrorView<N>>(err@),
    }
}

/// The token `k` places past the iterator's position, without consuming it.
fn peek_token<'a, N>(
    tokens: &'a [Token<N>],
    it: &mut PeekMoreIterator<Range<usize>>,
    k: usize,
) -> (r: Option<&'a Token<N>>)
    requires
        stream_ok(*old(it), tokens@.len() as int),
        k <= 1,
    ensures
        pending(*final(it)) == pending(*old(it)),
        match r {
            Some(t) => pos(*old(it), tokens@.len() as int) + k < tokens@.len() && *t
                == tokens@[pos(*old(it), tokens@.len() as int) + k],
            None => pos(*old(it), tokens@.len() as int) + k >= tokens@.len(),
        },
{
    match peek_index(it, k) {
        Some(i) => Some(&tokens[i]),
        None => None,
    }
}

/// Consumes the token at the iterator's position.
fn next_token<'a, N>(tokens: &'a [Token<N>], it: &mut PeekMoreIterator<Range<usize>>) -> (r:
    Option<&'a Token<N>>)
    requires
        stream_ok(*old(it), tokens@.len() as int),
    ensures
        stream_ok(*final(it), tokens@.len() as int),
        match r {
            Some(t) => pos(*old(it), tokens@.len() as int) < tokens@.len() && *t
                == tokens@[pos(*old(it), tokens@.len() as int)] && pos(
                *final(it),
                tokens@.len() as int,
            ) == pos(*old(it), tokens@.len() as int) + 1,
            None => pos(*old(it), tokens@.len() as int) == tokens@.len() && pos(
                *final(it),
                tokens@.len() as int,
            ) == tokens@.len(),
        },
{
    let ghost n = tokens@.len() as int;
    let ghost p = pos(*it, n);
    let r = next_index(it);
    proof {
        if p < n {
            assert(pending(*it) =~= Seq::new((n - (p + 1)) as nat, |i: int| (p + 1 + i) as usize));
        }
    }
    match r {
        Some(i) => Some(&tokens[i]),
        None => None,
    }
}

fn copy_token<N: Copy>(t: &Token<N>) -> (r: Token<N>)
    ensures
        r@ == t@,
{
    let value = match &t.value {
        TokenValue::Num(n) => TokenValue::Num(*n),
        TokenValue::Id(id) => TokenValue::Id(id.clone()),
        TokenValue::Op(o) => TokenValue::Op(*o),
        TokenValue::Symbol(s) => TokenValue::Symbol(*s),
    };
    Token { value, span: Range { start: t.span.start, end: t.span.end } }
}

fn unexpected_token<N: Copy>(t: &Token<N>) -> (r: ParseError<N>)
    ensures
        r@ == unexpected(t@),
{
    ParseError {
        code: ParseErrorCode::UnexpectedToken(copy_token(t)),
        span: Range { start: t.span.start, end: t.span.end },
    }
}

fn eof<N>(tokens: &[Token<N>]) -> (r: ParseError<N>)
    ensures
        r@ == eof_error(tokens_view(tokens@)),
{
    let n = tokens.len();
    if n == 0 {
        ParseError { code: ParseErrorCode::UnexpectedEOF, span: Range { start: 0, end: 0 } }
    } else {
        let e = tokens[n - 1].span.end;
        ParseError { code: ParseErrorCode::UnexpectedEOF, span: Range { start: e, end: e } }
    }
}

/// Reads a primary, as `factor_at` does.
fn parse_factor<N: Num>(tokens: &[Token<N>], it: &mut PeekMoreIterator<Range<usize>>) -> (r: Result<
    Expr<N>,
    ParseError<N>,
>)
    requires
        stream_ok(*old(it), tokens@.len() as int),
    ensures
        stream_ok(*final(it), tokens@.len() as int),
        agrees(
            r,
            factor_at(tokens_view(tokens@), pos(*old(it), tokens@.len() as int)),
            pos(*final(it), tokens@.len() as int),
        ),
        r is Ok ==> advanced(
            pos(*old(it), tokens@.len() as int),
            pos(*final(it), tokens@.len() as int),
            tokens@.len() as int,
        ),
    decreases pending(*old(it)).len(), 2int,
{
    let ghost ts = tokens_view(tokens@);
    let ghost n = tokens@.len() as int;
    let ghost p = pos(*it, n);
    match next_token(tokens, it) {
        None => Err(eof(tokens)),
        Some(tok) => {
            assert(tok@ == ts[p]);
            match &tok.value {
                TokenValue::Num(num) => Ok(Expr::Num(*num)),
                TokenValue::Id(id) => Ok(Expr::Var(id.clone())),
                TokenValue::Op(o) => {
                    if *o == OpVal::Sub {
                        match parse_expr(tokens, it) {
                            Ok(e) => Ok(Expr::Neg(Box::new(e))),
                            Err(err) => Err(err),
                        }
                    } else {
                        Err(unexpected_token(tok))
                    }
                },
                TokenValue::Symbol(sym) => {
                    if *sym == SymbolVal::LP || *sym == SymbolVal::Pipe {
                        let e = match parse_expr(tokens, it) {
                            Ok(e) => e,
                            Err(err) => return Err(err),
                        };
                        let ghost q = pos(*it, n);
                        match next_token(tokens, it) {
                            Some(close) => {
                                assert(close@ == ts[q]);
                                let closer = if *sym == SymbolVal::LP {
                                    SymbolVal::RP
                                } else {
                                    SymbolVal::Pipe
                                };
                                let closes = match &close.value {
                                    TokenValue::Symbol(c) => *c == closer,
                                    _ => false,
                                };
                                match closes {
                                    true => {
                                        if *sym == SymbolVal::LP {
                                            Ok(e)
                                        } else {
                                            let mut args: Vec<Expr<N>> = Vec::new();
                                            args.push(e);
                                            let name = "abs".to_owned();
                                            proof {
                                                reveal_strlit("abs");
                                                assert(name@ =~= abs_name());
                                                lemma_call_view(name, args);
                                                assert(exprs_view(args@) =~= seq![e@]);
                                            }
                                            Ok(Expr::FuncOrVarMul(name, args))
                                        }
                                    },
                                    false => Err(unexpected_token(close)),
                                }
                            },
                            None => Err(eof(tokens)),
                        }
                    } else {
                        Err(unexpected_token(tok))
                    }
                },
            }
        },
    }
}

/// Reads an expression, as `expr_at` does.
fn parse_expr<N: Num>(tokens: &[Token<N>], it: &mut PeekMoreIterator<Range<usize>>) -> (r: Result<
    Expr<N>,
    ParseError<N>,
>)
    requires
        stream_ok(*old(it), tokens@.len() as int),
    ensures
        stream_ok(*final(it), tokens@.len() as int),
        agrees(
            r,
            expr_at(tokens_view(tokens@), pos(*old(it), tokens@.len() as int)),
            pos(*final(it), tokens@.len() as int),
        ),
        r is Ok ==> advanced(
            pos(*old(it), tokens@.len() as int),
            pos(*final(it), tokens@.len() as int),
            tokens@.len() as int,
        ),
    decreases pending(*old(it)).len(), 10int,
{
    let ghost ts = tokens_view(tokens@);
    let ghost n = tokens@.len() as int;
    let ghost p = pos(*it, n);
    parse_eq(tokens, it)
}

/// Reads assignments, as `eq_at` does.
fn parse_eq<N: Num>(tokens: &[Token<N>], it: &mut PeekMoreIterator<Range<usize>>) -> (r: Result<
    Expr<N>,
    ParseError<N>,
>)
    requires
        stream_ok(*old(it), tokens@.len() as int),
    ensures
        stream_ok(*final(it), tokens@.len() as int),
        agrees(
            r,
            eq_at(tokens_view(tokens@), pos(*old(it), tokens@.len() as int)),
            pos(*final(it), tokens@.len() as int),
        ),
        r is Ok ==> advanced(
            pos(*old(it), tokens@.len() as int),
            pos(*final(it), tokens@.len() as int),
            tokens@.len() as int,
        ),
    decreases pending(*old(it)).len(), 9int,
{
    let ghost ts = tokens_view(tokens@);
    let ghost n = tokens@.len() as int;
    let ghost p = pos(*it, n);
    match parse_add(tokens, it) {
        Ok(l) => eq_rest(tokens, it, l),
        Err(e) => Err(e),
    }
}

/// Reads `= rhs` parts after `acc`, as `eq_tail` does.
fn eq_rest<N: Num>(tokens: &[Token<N>], it: &mut PeekMoreIterator<Range<usize>>, acc: Expr<N>) -> (r:
    Result<Expr<N>, ParseError<N>>)
    requires
        stream_ok(*old(it), tokens@.len() as int),
    ensures
        stream_ok(*final(it), tokens@.len() as int),
        agrees(
            r,
            eq_tail(tokens_view(tokens@), pos(*old(it), tokens@.len() as int), acc@),
            pos(*final(it), tokens@.len() as int),
        ),
        r is Ok ==> pos(*old(it), tokens@.len() as int) <= pos(*final(it), tokens@.len() as int)
            <= tokens@.len(),
    decreases pending(*old(it)).len(), 1int,
{
    let ghost ts = tokens_view(tokens@);
    let ghost n = tokens@.len() as int;
    let ghost p = pos(*it, n);
    match peek_token(tokens, it, 0) {
        Some(t) => {
            assert(t@ == ts[p]);
            match &t.value {
                TokenValue::Op(OpVal::Eq) => {
                    next_token(tokens, it);
                    match parse_add(tokens, it) {
                        Ok(rhs) => eq_rest(tokens, it, Expr::Eq(Box::new(acc), Box::new(rhs))),
                        Err(e) => Err(e),
                    }
                },
                _ => Ok(acc),
            }
        },
        None => Ok(acc),
    }
}

/// Reads sums and differences, as `add_at` does.
fn parse_add<N: Num>(tokens: &[Token<N>], it: &mut PeekMoreIterator<Range<usize>>) -> (r: Result<
    Expr<N>,
    ParseError<N>,
>)
    requires
        stream_ok(*old(it), tokens@.len() as int),
    ensures
        stream_ok(*final(it), tokens@.len() as int),
        agrees(
            r,
            add_at(tokens_view(tokens@), pos(*old(it), tokens@.len() as int)),
            pos(*final(it), tokens@.len() as int),
        ),
        r is Ok ==> advanced(
            pos(*old(it), tokens@.len() as int),
            pos(*final(it), tokens@.len() as int),
            tokens@.len() as int,
        ),
    decreases pending(*old(it)).len(), 8int,
{
    let ghost ts = tokens_view(tokens@);
    let ghost n = tokens@.len() as int;
    let ghost p = pos(*it, n);
    match parse_mul(tokens, it) {
        Ok(l) => add_rest(tokens, it, l),
        Err(e) => Err(e),
    }
}

/// Reads `+ rhs` and `- rhs` parts after `acc`, as `add_tail` does.
fn add_rest<N: Num>(tokens: &[Token<N>], it: &mut PeekMoreIterator<Range<usize>>, acc: Expr<N>) -> (r:
    Result<Expr<N>, ParseError<N>>)
    requires
        stream_ok(*old(it), tokens@.len() as int),
    ensures
        stream_ok(*final(it), tokens@.len() as int),
        agrees(
            r,
            add_tail(tokens_view(tokens@), pos(*old(it), tokens@.len() as int), acc@),
            pos(*final(it), tokens@.len() as int),
        ),
        r is Ok ==> pos(*old(it), tokens@.len() as int) <= pos(*final(it), tokens@.len() as int)
            <= tokens@.len(),
    decreases pending(*old(it)).len(), 1int,
{
    let ghost ts = tokens_view(tokens@);
    let ghost n = tokens@.len() as int;
    let ghost p = pos(*it, n);
    match peek_token(tokens, it, 0) {
        Some(t) => {
            assert(t@ == ts[p]);
            match &t.value {
                TokenValue::Op(o) => {
                    let o = *o;
                    if o == OpVal::Add || o == OpVal::Sub {
                        next_token(tokens, it);
                        match parse_mul(tokens, it) {
                            Ok(rhs) => add_rest(tokens, it, Expr::Op(o, Box::new(acc), Box::new(rhs))),
                            Err(e) => Err(e),
                        }
                    } else {
                        Ok(acc)
                    }
                },
                _ => Ok(acc),
            }
        },
        None => Ok(acc),
    }
}

/// Reads products, quotients and remainders, as `mul_at` does.
fn parse_mul<N: Num>(tokens: &[Token<N>], it: &mut PeekMoreIterator<Range<usize>>) -> (r: Result<
    Expr<N>,
    ParseError<N>,
>)
    requires
        stream_ok(*old(it), tokens@.len() as int),
    ensures
        stream_ok(*final(it), tokens@.len() as int),
        agrees(
            r,
            mul_at(tokens_view(tokens@), pos(*old(it), tokens@.len() as int)),
            pos(*final(it), tokens@.len() as int),
        ),
        r is Ok ==> advanced(
            pos(*old(it), tokens@.len() as int),
            pos(*final(it), tokens@.len() as int),
            tokens@.len() as int,
        ),
    decreases pending(*old(it)).len(), 7int,
{
    let ghost ts = tokens_view(tokens@);
    let ghost n = tokens@.len() as int;
    let ghost p = pos(*it, n);
    match parse_pow(tokens, it) {
        Ok(l) => mul_rest(tokens, it, l),
        Err(e) => Err(e),
    }
}

/// Reads `* rhs`, `/ rhs` and `% rhs` parts after `acc`, as `mul_tail` does.
fn mul_rest<N: Num>(tokens: &[Token<N>], it: &mut PeekMoreIterator<Range<usize>>, acc: Expr<N>) -> (r:
    Result<Expr<N>, ParseError<N>>)
    requires
        stream_ok(*old(it), tokens@.len() as int),
    ensures
        stream_ok(*final(it), tokens@.len() as int),
        agrees(
            r,
            mul_tail(tokens_view(tokens@), pos(*old(it), tokens@.len() as int), acc@),
            pos(*final(it), tokens@.len() as int),
        ),
        r is Ok ==> pos(*old(it), tokens@.len() as int) <= pos(*final(it), tokens@.len() as int)
            <= tokens@.len(),
    decreases pending(*old(it)).len(), 1int,
{
    let ghost ts = tokens_view(tokens@);
    let ghost n = tokens@.len() as int;
    let ghost p = pos(*it, n);
    match peek_token(tokens, it, 0) {
        Some(t) => {
            assert(t@ == ts[p]);
            match &t.value {
                TokenValue::Op(o) => {
                    let o = *o;
                    if o == OpVal::Mul || o == OpVal::Div || o == OpVal::Mod {
                        next_token(tokens, it);
                        match parse_pow(tokens, it) {
                            Ok(rhs) => mul_rest(tokens, it, Expr::Op(o, Box::new(acc), Box::new(rhs))),
                            Err(e) => Err(e),
                        }
                    } else {
                        Ok(acc)
                    }
                },
                _ => Ok(acc),
            }
        },
        None => Ok(acc),
    }
}

/// Reads powers, as `pow_at` does.
fn parse_pow<N: Num>(tokens: &[Token<N>], it: &mut PeekMoreIterator<Range<usize>>) -> (r: Result<
    Expr<N>,
    ParseError<N>,
>)
    requires
        stream_ok(*old(it), tokens@.len() as int),
    ensures
        stream_ok(*final(it), tokens@.len() as int),
        agrees(
            r,
            pow_at(tokens_view(tokens@), pos(*old(it), tokens@.len() as int)),
            pos(*final(it), tokens@.len() as int),
        ),
        r is Ok ==> advanced(
            pos(*old(it), tokens@.len() as int),
            pos(*final(it), tokens@.len() as int),
            tokens@.len() as int,
        ),
    decreases pending(*old(it)).len(), 6int,
{
    let ghost ts = tokens_view(tokens@);
    let ghost n = tokens@.len() as int;
    let ghost p = pos(*it, n);
    match parse_parentheses_mul(tokens, it) {
        Ok(l) => pow_rest(tokens, it, l),
        Err(e) => Err(e),
    }
}

/// Reads `^ factor` parts after `acc`, as `pow_tail` does.
fn pow_rest<N: Num>(tokens: &[Token<N>], it: &mut PeekMoreIterator<Range<usize>>, acc: Expr<N>) -> (r:
    Result<Expr<N>, ParseError<N>>)
    requires
        stream_ok(*old(it), tokens@.len() as int),
    ensures
        stream_ok(*final(it), tokens@.len() as int),
        agrees(
            r,
            pow_tail(tokens_view(tokens@), pos(*old(it), tokens@.len() as int), acc@),
            pos(*final(it), tokens@.len() as int),
        ),
        r is Ok ==> pos(*old(it), tokens@.len() as int) <= pos(*final(it), tokens@.len() as int)
            <= tokens@.len(),
    decreases pending(*old(it)).len(), 1int,
{
    let ghost ts = tokens_view(tokens@);
    let ghost n = tokens@.len() as int;
    let ghost p = pos(*it, n);
    match peek_token(tokens, it, 0) {
        Some(t) => {
            assert(t@ == ts[p]);
            match &t.value {
                TokenValue::Op(o) => {
                    let o = *o;
                    if o == OpVal::Pow {
                        next_token(tokens, it);
                        match parse_factor(tokens, it) {
                            Ok(rhs) => pow_rest(tokens, it, Expr::Op(o, Box::new(acc), Box::new(rhs))),
                            Err(e) => Err(e),
                        }
                    } else {
                        Ok(acc)
                    }
                },
                _ => Ok(acc),
            }
        },
        None => Ok(acc),
    }
}

/// Reads a call or a juxtaposed product, as `juxt_at` does.
fn parse_parentheses_mul<N: Num>(tokens: &[Token<N>], it: &mut PeekMoreIterator<Range<usize>>) -> (r: Result<
    Expr<N>,
    ParseError<N>,
>)
    requires
        stream_ok(*old(it), tokens@.len() as int),
    ensures
        stream_ok(*final(it), tokens@.len() as int),
        agrees(
            r,
            juxt_at(tokens_view(tokens@), pos(*old(it), tokens@.len() as int)),
            pos(*final(it), tokens@.len() as int),
        ),
        r is Ok ==> advanced(
            pos(*old(it), tokens@.len() as int),
            pos(*final(it), tokens@.len() as int),
            tokens@.len() as int,
        ),
    decreases pending(*old(it)).len(), 5int,
{
    let ghost ts = tokens_view(tokens@);
    let ghost n = tokens@.len() as int;
    let ghost p = pos(*it, n);
    let callee: Option<String> = match peek_token(tokens, it, 0) {
        Some(t) => match &t.value {
            TokenValue::Id(id) => match peek_token(tokens, it, 1) {
                Some(u) => match &u.value {
                    TokenValue::Symbol(SymbolVal::LP) => Some(id.clone()),
                    _ => None,
                },
                None => None,
            },
            _ => None,
        },
        None => None,
    };
    match callee {
        Some(id) => parse_call(tokens, it, id),
        None => {
            match parse_factorial(tokens, it) {
                Ok(l) => juxt_rest(tokens, it, l),
                Err(e) => Err(e),
            }
        },
    }
}

/// Reads `(expr)` groups that multiply `acc`, as `juxt_tail` does.
fn juxt_rest<N: Num>(tokens: &[Token<N>], it: &mut PeekMoreIterator<Range<usize>>, acc: Expr<N>) -> (r:
    Result<Expr<N>, ParseError<N>>)
    requires
        stream_ok(*old(it), tokens@.len() as int),
    ensures
        stream_ok(*final(it), tokens@.len() as int),
        agrees(
            r,
            juxt_tail(tokens_view(tokens@), pos(*old(it), tokens@.len() as int), acc@),
            pos(*final(it), tokens@.len() as int),
        ),
        r is Ok ==> pos(*old(it), tokens@.len() as int) <= pos(*final(it), tokens@.len() as int)
            <= tokens@.len(),
    decreases pending(*old(it)).len(), 1int,
{
    let ghost ts = tokens_view(tokens@);
    let ghost n = tokens@.len() as int;
    let ghost p = pos(*it, n);
    match peek_token(tokens, it, 0) {
        Some(t) => {
            assert(t@ == ts[p]);
            match &t.value {
                TokenValue::Symbol(SymbolVal::LP) => {
                    next_token(tokens, it);
                    let rhs = match parse_expr(tokens, it) {
                        Ok(rhs) => rhs,
                        Err(e) => return Err(e),
                    };
                    let ghost q = pos(*it, n);
                    match next_token(tokens, it) {
                        Some(c) => {
                            assert(c@ == ts[q]);
                            match &c.value {
                                TokenValue::Symbol(SymbolVal::RP) => juxt_rest(
                                    tokens,
                                    it,
                                    Expr::Op(OpVal::Mul, Box::new(acc), Box::new(rhs)),
                                ),
                                _ => Err(
                                    ParseError {
                                        code: ParseErrorCode::ExpectedClosingParen,
                                        span: Range { start: c.span.start, end: c.span.end },
                                    },
                                ),
                            }
                        },
                        None => Err(eof(tokens)),
                    }
                },
                _ => Ok(acc),
            }
        },
        None => Ok(acc),
    }
}

/// Reads `id ( args )`, as `call_at` does.
fn parse_call<N: Num>(tokens: &[Token<N>], it: &mut PeekMoreIterator<Range<usize>>, id: String) -> (r: Result<
    Expr<N>,
    ParseError<N>,
>)
    requires
        stream_ok(*old(it), tokens@.len() as int),
        is_call_start(tokens_view(tokens@), pos(*old(it), tokens@.len() as int)),
        id_at(tokens_view(tokens@), pos(*old(it), tokens@.len() as int)) == Some(id@),
    ensures
        stream_ok(*final(it), tokens@.len() as int),
        agrees(
            r,
            call_at(tokens_view(tokens@), pos(*old(it), tokens@.len() as int)),
            pos(*final(it), tokens@.len() as int),
        ),
        r is Ok ==> advanced(
            pos(*old(it), tokens@.len() as int),
            pos(*final(it), tokens@.len() as int),
            tokens@.len() as int,
        ),
    decreases pending(*old(it)).len(), 4int,
{
    let ghost ts = tokens_view(tokens@);
    let ghost n = tokens@.len() as int;
    let ghost p = pos(*it, n);
    next_token(tokens, it);
    next_token(tokens, it);
    match peek_token(tokens, it, 0) {
        Some(t) => {
            assert(t@ == ts[p + 2]);
            match &t.value {
                TokenValue::Symbol(SymbolVal::RP) => {
                    next_token(tokens, it);
                    let args: Vec<Expr<N>> = Vec::new();
                    proof {
                        lemma_call_view(id, args);
                        assert(exprs_view(args@) =~= Seq::empty());
                    }
                    return Ok(Expr::FuncOrVarMul(id, args));
                },
                _ => {},
            }
        },
        None => {},
    }
    let args: Vec<Expr<N>> = Vec::new();
    proof {
        assert(exprs_view(args@) =~= Seq::empty());
    }
    parse_arguments(tokens, it, id, args)
}

/// Reads arguments after those in `args`, as `args_from` does.
fn parse_arguments<N: Num>(tokens: &[Token<N>], it: &mut PeekMoreIterator<Range<usize>>, id: String, args: Vec<Expr<N>>) -> (r: Result<
    Expr<N>,
    ParseError<N>,
>)
    requires
        stream_ok(*old(it), tokens@.len() as int),
    ensures
        stream_ok(*final(it), tokens@.len() as int),
        agrees(
            r,
            args_from(tokens_view(tokens@), pos(*old(it), tokens@.len() as int), id@, exprs_view(args@)),
            pos(*final(it), tokens@.len() as int),
        ),
        r is Ok ==> advanced(
            pos(*old(it), tokens@.len() as int),
            pos(*final(it), tokens@.len() as int),
            tokens@.len() as int,
        ),
    decreases pending(*old(it)).len(), 11int,
{
    let ghost ts = tokens_view(tokens@);
    let ghost n = tokens@.len() as int;
    let ghost p = pos(*it, n);
    let a = match parse_expr(tokens, it) {
        Ok(a) => a,
        Err(e) => return Err(e),
    };
    let ghost q = pos(*it, n);
    let mut args = args;
    let ghost before = args@;
    args.push(a);
    proof {
        assert(exprs_view(args@) =~= exprs_view(before).push(a@));
    }
    match next_token(tokens, it) {
        Some(t) => {
            assert(t@ == ts[q]);
            match &t.value {
                TokenValue::Symbol(SymbolVal::Comma) => parse_arguments(tokens, it, id, args),
                TokenValue::Symbol(SymbolVal::RP) => {
                    proof {
                        lemma_call_view(id, args);
                    }
                    Ok(Expr::FuncOrVarMul(id, args))
                },
                _ => Err(unexpected_token(t)),
            }
        },
        None => Err(eof(tokens)),
    }
}

/// Reads a factor and its `!` marks, as `factorial_at` does.
fn parse_factorial<N: Num>(tokens: &[Token<N>], it: &mut PeekMoreIterator<Range<usize>>) -> (r: Result<
    Expr<N>,
    ParseError<N>,
>)
    requires
        stream_ok(*old(it), tokens@.len() as int),
    ensures
        stream_ok(*final(it), tokens@.len() as int),
        agrees(
            r,
            factorial_at(tokens_view(tokens@), pos(*old(it), tokens@.len() as int)),
            pos(*final(it), tokens@.len() as int),
        ),
        r is Ok ==> advanced(
            pos(*old(it), tokens@.len() as int),
            pos(*final(it), tokens@.len() as int),
            tokens@.len() as int,
        ),
    decreases pending(*old(it)).len(), 3int,
{
    let ghost ts = tokens_view(tokens@);
    let ghost n = tokens@.len() as int;
    let ghost p = pos(*it, n);
    match parse_factor(tokens, it) {
        Ok(l) => factorial_rest(tokens, it, l),
        Err(e) => Err(e),
    }
}

/// Reads `!` marks after `acc`, as `factorial_tail` does.
fn factorial_rest<N: Num>(tokens: &[Token<N>], it: &mut PeekMoreIterator<Range<usize>>, acc: Expr<N>) -> (r:
    Result<Expr<N>, ParseError<N>>)
    requires
        stream_ok(*old(it), tokens@.len() as int),
    ensures
        stream_ok(*final(it), tokens@.len() as int),
        agrees(
            r,
            factorial_tail(tokens_view(tokens@), pos(*old(it), tokens@.len() as int), acc@),
            pos(*final(it), tokens@.len() as int),
        ),
        r is Ok ==> pos(*old(it), tokens@.len() as int) <= pos(*final(it), tokens@.len() as int)
            <= tokens@.len(),
    decreases pending(*old(it)).len(), 1int,
{
    let ghost ts = tokens_view(tokens@);
    let ghost n = tokens@.len() as int;
    let ghost p = pos(*it, n);
    match peek_token(tokens, it, 0) {
        Some(t) => {
            assert(t@ == ts[p]);
            match &t.value {
                TokenValue::Op(OpVal::Exclaim) => {
                    next_token(tokens, it);
                    let mut args: Vec<Expr<N>> = Vec::new();
                    args.push(acc);
                    let name = "factorial".to_owned();
                    proof {
                        reveal_strlit("factorial");
                        assert(name@ =~= factorial_name());
                        lemma_call_view(name, args);
                        assert(exprs_view(args@) =~= seq![acc@]);
                    }
                    factorial_rest(tokens, it, Expr::FuncOrVarMul(name, args))
                },
                _ => Ok(acc),
            }
        },
        None => Ok(acc),
    }
}

/// Parses the whole token sequence as one expression.
pub fn parse<N: Num>(tokens: &[Token<N>]) -> (r: Result<Expr<N>, ParseError<N>>)
    ensures
        match r {
            Ok(e) => parse_tokens(tokens_view(tokens@)) == Ok::<_, ParseErrorView<N>>(e@),
            Err(err) => parse_tokens(tokens_view(tokens@)) == Err::<ExprView<N>, _>(err@),
        },
{
    let ghost n = tokens@.len() as int;
    let mut it = index_stream(tokens.len());
    proof {
        assert(pending(it) =~= Seq::new((n - 0) as nat, |i: int| (0 + i) as usize));
    }
    match parse_expr(tokens, &mut it) {
        Ok(e) => {
            let ghost q = pos(it, n);
            match next_token(tokens, &mut it) {
                Some(t) => {
                    assert(t@ == tokens_view(tokens@)[q]);
                    Err(unexpected_token(t))
                },
                None => Ok(e),
            }
        },
        Err(err) => Err(err),
    }
}

} // verus!
