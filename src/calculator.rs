use crate::interpreter::{eval_expr, Env, InterpretError, InterpretErrorView, Interpreter};
use crate::num::Num;
use crate::parser::{parse, parse_tokens, ParseError, ParseErrorView};
use crate::tokenizer::{scan, tokenize, tokens_view, TokenizeError, TokenizeErrorView};
use vstd::prelude::*;

verus! {

/// The error of whichever stage failed.
#[derive(Debug, Clone, PartialEq)]
pub enum EvalError<N> {
    Tokenize(TokenizeError),
    Parse(ParseError<N>),
    Interpret(InterpretError),
}

pub enum EvalErrorView<N> {
    Tokenize(TokenizeErrorView),
    Parse(ParseErrorView<N>),
    Interpret(InterpretErrorView),
}

impl<N> View for EvalError<N> {
    type V = EvalErrorView<N>;

    open spec fn view(&self) -> EvalErrorView<N> {
        match self {
            EvalError::Tokenize(e) => EvalErrorView::Tokenize(e@),
            EvalError::Parse(e) => EvalErrorView::Parse(e@),
            EvalError::Interpret(e) => EvalErrorView::Interpret(e@),
        }
    }
}

/// Tokenizes, parses and evaluates `src` against `env`: the result and the
/// environment afterwards, which only evaluation changes.
pub open spec fn evaluation<N: Num>(src: Seq<char>, env: Env<N>) -> (
    Result<N, EvalErrorView<N>>,
    Env<N>,
) {
    match scan::<N>(src, 0, false) {
        Err(e) => (Err(EvalErrorView::Tokenize(e)), env),
        Ok(ts) => match parse_tokens(ts) {
            Err(e) => (Err(EvalErrorView::Parse(e)), env),
            Ok(tree) => {
                let (r, env1) = eval_expr(env, tree);
                match r {
                    Ok(v) => (Ok(v), env1),
                    Err(e) => (Err(EvalErrorView::Interpret(e)), env1),
                }
            },
        },
    }
}

pub open spec fn eval_result_view<N>(r: Result<N, EvalError<N>>) -> Result<N, EvalErrorView<N>> {
    match r {
        Ok(v) => Ok(v),
        Err(e) => Err(e@),
    }
}

/// Runs the whole pipeline on `source`: tokenizer, parser, interpreter.
pub fn evaluate<N: Num>(source: &str, env: &mut Interpreter<N>) -> (r: Result<N, EvalError<N>>)
    requires
        old(env).wf(),
    ensures
        final(env).wf(),
        (eval_result_view(r), final(env)@) == evaluation::<N>(source@, old(env)@),
{
    let tokens = match tokenize::<N>(source) {
        Ok(tokens) => tokens,
        Err(e) => return Err(EvalError::Tokenize(e)),
    };
    let tree = match parse(tokens.as_slice()) {
        Ok(tree) => tree,
        Err(e) => return Err(EvalError::Parse(e)),
    };
    match env.eval(&tree) {
        Ok(v) => Ok(v),
        Err(e) => Err(EvalError::Interpret(e)),
    }
}

} // verus!
