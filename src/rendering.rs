//! Fully parenthesized spellings of expression trees, as text and as tokens,
//! and the laws that the tokenizer and the parser read them back as the tree.
use crate::expr::ExprView;
use crate::parser::{
    add_at, add_tail, advanced, args_from, call_at, eq_at, eq_tail, expr_at, factor_at, factorial_at,
    factorial_tail, has_op, has_symbol, has_value, is_add_op, is_call_start, is_mul_op,
    juxt_at, juxt_tail, mul_at, mul_tail, op_at, parse_tokens, pow_at, pow_tail, ParseErrorView,
    Parsed,
};
use crate::num::Num;
use crate::tokenizer::{
    ident_end, is_ident_start, is_numeral_char, lemma_ident_end, lemma_numeral_end, numeral_end,
    scan, single_char_token, OpVal, SymbolVal, TokenValueView, TokenView, TokenizeErrorView,
};
use vstd::prelude::*;

verus! {

pub open spec fn is_arith_op(o: OpVal) -> bool {
    is_add_op(o) || is_mul_op(o) || o == OpVal::Pow
}

/// The number of tokens in the rendering of `t`.
pub open spec fn rendered_len<N>(t: ExprView<N>) -> nat
    decreases t,
{
    match t {
        ExprView::Num(_) => 1,
        ExprView::Var(_) => 1,
        ExprView::Neg(x) => 3 + rendered_len(*x),
        ExprView::Op(_, l, r) => 3 + rendered_len(*l) + rendered_len(*r),
        ExprView::FuncOrVarMul(_, args) => 5 + rendered_args_len(args),
        ExprView::Eq(_, _) => 0,
    }
}

/// The number of tokens in the arguments and the commas between them.
pub open spec fn rendered_args_len<N>(args: Seq<ExprView<N>>) -> nat
    decreases args,
{
    if args.len() == 0 {
        0
    } else if args.len() == 1 {
        rendered_len(args[0])
    } else {
        rendered_len(args[0]) + 1 + rendered_args_len(args.subrange(1, args.len() as int))
    }
}

/// The tokens of `ts` from `p` on spell `t` fully parenthesized: a number or a
/// name stands alone, `(-x)` for a negation, `(l o r)` for an operation, and
/// `(f(a, b))` for a call. Assignments have no rendering.
pub open spec fn renders_at<N>(ts: Seq<TokenView<N>>, p: int, t: ExprView<N>) -> bool
    decreases t,
{
    match t {
        ExprView::Num(n) => has_value(ts, p, TokenValueView::Num(n)),
        ExprView::Var(id) => has_value(ts, p, TokenValueView::Id(id)),
        ExprView::Neg(x) => {
            &&& has_symbol(ts, p, SymbolVal::LP)
            &&& has_op(ts, p + 1, OpVal::Sub)
            &&& renders_at(ts, p + 2, *x)
            &&& has_symbol(ts, p + 2 + rendered_len(*x), SymbolVal::RP)
        },
        ExprView::Op(o, l, r) => {
            &&& is_arith_op(o)
            &&& has_symbol(ts, p, SymbolVal::LP)
            &&& renders_at(ts, p + 1, *l)
            &&& has_op(ts, p + 1 + rendered_len(*l), o)
            &&& renders_at(ts, p + 2 + rendered_len(*l), *r)
            &&& has_symbol(ts, p + 2 + rendered_len(*l) + rendered_len(*r), SymbolVal::RP)
        },
        ExprView::FuncOrVarMul(id, args) => {
            &&& has_symbol(ts, p, SymbolVal::LP)
            &&& has_value(ts, p + 1, TokenValueView::Id(id))
            &&& has_symbol(ts, p + 2, SymbolVal::LP)
            &&& args_render_at(ts, p + 3, args)
            &&& has_symbol(ts, p + 3 + rendered_args_len(args), SymbolVal::RP)
            &&& has_symbol(ts, p + 4 + rendered_args_len(args), SymbolVal::RP)
        },
        ExprView::Eq(_, _) => false,
    }
}

/// The arguments, separated by commas, spelled from `p` on.
pub open spec fn args_render_at<N>(ts: Seq<TokenView<N>>, p: int, args: Seq<ExprView<N>>) -> bool
    decreases args,
{
    if args.len() == 0 {
        true
    } else if args.len() == 1 {
        renders_at(ts, p, args[0])
    } else {
        &&& renders_at(ts, p, args[0])
        &&& has_symbol(ts, p + rendered_len(args[0]), SymbolVal::Comma)
        &&& args_render_at(ts, p + rendered_len(args[0]) + 1, args.subrange(1, args.len() as int))
    }
}

/// The token at `q` ends an operand at `level`: 0 for a factor, then factorial,
/// juxtaposition, exponent, product, sum and expression.
pub open spec fn ends_level<N>(ts: Seq<TokenView<N>>, q: int, level: int) -> bool {
    &&& (level >= 1 ==> !has_op(ts, q, OpVal::Exclaim))
    &&& (level >= 2 ==> !has_symbol(ts, q, SymbolVal::LP))
    &&& (level >= 3 ==> !has_op(ts, q, OpVal::Pow))
    &&& (level >= 4 ==> !(op_at(ts, q) is Some && is_mul_op(op_at(ts, q)->0)))
    &&& (level >= 5 ==> !(op_at(ts, q) is Some && is_add_op(op_at(ts, q)->0)))
    &&& (level >= 6 ==> !has_op(ts, q, OpVal::Eq))
}

/// The parse at `level` (see `ends_level`).
pub open spec fn parse_level<N>(ts: Seq<TokenView<N>>, p: int, level: int) -> Parsed<N> {
    if level <= 0 {
        factor_at(ts, p)
    } else if level == 1 {
        factorial_at(ts, p)
    } else if level == 2 {
        juxt_at(ts, p)
    } else if level == 3 {
        pow_at(ts, p)
    } else if level == 4 {
        mul_at(ts, p)
    } else if level == 5 {
        add_at(ts, p)
    } else {
        expr_at(ts, p)
    }
}

/// Once juxtaposition has read `t`, the looser levels read nothing more where
/// the next token ends them.
proof fn lemma_lift_from_juxt<N>(ts: Seq<TokenView<N>>, p: int, t: ExprView<N>, q: int)
    requires
        juxt_at(ts, p) == Ok::<(ExprView<N>, int), ParseErrorView<N>>((t, q)),
        advanced(p, q, ts.len() as int),
    ensures
        forall|level: int|
            2 <= level <= 6 && #[trigger] ends_level(ts, q, level) ==> parse_level(ts, p, level)
                == Ok::<(ExprView<N>, int), ParseErrorView<N>>((t, q)),
{
    assert forall|level: int|
        2 <= level <= 6 && #[trigger] ends_level(ts, q, level) implies parse_level(ts, p, level)
            == Ok::<(ExprView<N>, int), ParseErrorView<N>>((t, q)) by {
        let ok = Ok::<(ExprView<N>, int), ParseErrorView<N>>((t, q));
        if level >= 3 {
            assert(pow_tail(ts, q, t) == ok);
            assert(pow_at(ts, p) == ok);
        }
        if level >= 4 {
            assert(mul_tail(ts, q, t) == ok);
            assert(mul_at(ts, p) == ok);
        }
        if level >= 5 {
            assert(add_tail(ts, q, t) == ok);
            assert(add_at(ts, p) == ok);
        }
        if level >= 6 {
            assert(eq_tail(ts, q, t) == ok);
            assert(eq_at(ts, p) == ok);
            assert(expr_at(ts, p) == ok);
        }
    }
}

/// Once a factor not followed by `(` as a call has been read as `t`, every
/// level reads `t` where the next token ends it.
proof fn lemma_lift_from_factor<N>(ts: Seq<TokenView<N>>, p: int, t: ExprView<N>, q: int)
    requires
        factor_at(ts, p) == Ok::<(ExprView<N>, int), ParseErrorView<N>>((t, q)),
        advanced(p, q, ts.len() as int),
        !is_call_start(ts, p) || has_symbol(ts, q, SymbolVal::LP),
    ensures
        forall|level: int|
            0 <= level <= 6 && #[trigger] ends_level(ts, q, level) ==> parse_level(ts, p, level)
                == Ok::<(ExprView<N>, int), ParseErrorView<N>>((t, q)),
{
    let ok = Ok::<(ExprView<N>, int), ParseErrorView<N>>((t, q));
    if ends_level(ts, q, 1) {
        assert(factorial_tail(ts, q, t) == ok);
        assert(factorial_at(ts, p) == ok);
    }
    if ends_level(ts, q, 2) {
        assert(juxt_tail(ts, q, t) == ok);
        assert(juxt_at(ts, p) == ok);
        lemma_lift_from_juxt(ts, p, t, q);
    }
    assert forall|level: int|
        0 <= level <= 6 && #[trigger] ends_level(ts, q, level) implies parse_level(ts, p, level)
            == ok by {
        if level >= 2 {
            assert(ends_level(ts, q, 2));
        }
    }
}

/// Every level that the token at `q` ends reads `t` from `p` and stops at `q`.
pub open spec fn reads_back<N>(ts: Seq<TokenView<N>>, p: int, t: ExprView<N>, q: int) -> bool {
    forall|level: int|
        0 <= level <= 6 && #[trigger] ends_level(ts, q, level) ==> parse_level(ts, p, level)
            == Ok::<(ExprView<N>, int), ParseErrorView<N>>((t, q))
}

proof fn lemma_neg_reads_back<N>(ts: Seq<TokenView<N>>, p: int, x: ExprView<N>, m: int)
    requires
        0 <= p,
        p + 2 < m < ts.len(),
        has_symbol(ts, p, SymbolVal::LP),
        has_op(ts, p + 1, OpVal::Sub),
        reads_back(ts, p + 2, x, m),
        has_symbol(ts, m, SymbolVal::RP),
    ensures
        reads_back(ts, p, ExprView::Neg(Box::new(x)), m + 1),
{
    let t = ExprView::Neg(Box::new(x));
    assert(ends_level(ts, m, 6));
    assert(parse_level(ts, p + 2, 6) == Ok::<(ExprView<N>, int), ParseErrorView<N>>((x, m)));
    let inner = Ok::<(ExprView<N>, int), ParseErrorView<N>>((t, m));
    assert(factor_at(ts, p + 1) == inner);
    lemma_lift_from_factor(ts, p + 1, t, m);
    assert(parse_level(ts, p + 1, 6) == inner);
    assert(factor_at(ts, p) == Ok::<(ExprView<N>, int), ParseErrorView<N>>((t, m + 1)));
    lemma_lift_from_factor(ts, p, t, m + 1);
}

#[verifier::rlimit(40)]
proof fn lemma_op_reads_back<N>(
    ts: Seq<TokenView<N>>,
    p: int,
    o: OpVal,
    l: ExprView<N>,
    r: ExprView<N>,
    m: int,
    e: int,
)
    requires
        0 <= p,
        p + 1 < m,
        m + 1 < e < ts.len(),
        is_arith_op(o),
        has_symbol(ts, p, SymbolVal::LP),
        reads_back(ts, p + 1, l, m),
        has_op(ts, m, o),
        reads_back(ts, m + 1, r, e),
        has_symbol(ts, e, SymbolVal::RP),
    ensures
        reads_back(ts, p, ExprView::Op(o, Box::new(l), Box::new(r)), e + 1),
{
    let t = ExprView::Op(o, Box::new(l), Box::new(r));
    let done = Ok::<(ExprView<N>, int), ParseErrorView<N>>((t, e));
    assert(ends_level(ts, e, 6));
    assert(ends_level(ts, e, 4));
    assert(ends_level(ts, e, 3));
    assert(ends_level(ts, e, 0));
    assert(op_at(ts, m) == Some(o));
    if is_add_op(o) {
        assert(ends_level(ts, m, 4));
        assert(parse_level(ts, p + 1, 4) == Ok::<(ExprView<N>, int), ParseErrorView<N>>((l, m)));
        assert(parse_level(ts, m + 1, 4) == Ok::<(ExprView<N>, int), ParseErrorView<N>>((r, e)));
        assert(add_tail(ts, e, t) == done);
        assert(add_tail(ts, m, l) == done);
        assert(add_at(ts, p + 1) == done);
    } else if is_mul_op(o) {
        assert(ends_level(ts, m, 3));
        assert(parse_level(ts, p + 1, 3) == Ok::<(ExprView<N>, int), ParseErrorView<N>>((l, m)));
        assert(parse_level(ts, m + 1, 3) == Ok::<(ExprView<N>, int), ParseErrorView<N>>((r, e)));
        assert(mul_tail(ts, e, t) == done);
        assert(mul_tail(ts, m, l) == done);
        assert(mul_at(ts, p + 1) == done);
        assert(add_tail(ts, e, t) == done);
        assert(add_at(ts, p + 1) == done);
    } else {
        assert(ends_level(ts, m, 2));
        assert(parse_level(ts, p + 1, 2) == Ok::<(ExprView<N>, int), ParseErrorView<N>>((l, m)));
        assert(parse_level(ts, m + 1, 0) == Ok::<(ExprView<N>, int), ParseErrorView<N>>((r, e)));
        assert(pow_tail(ts, e, t) == done);
        assert(pow_tail(ts, m, l) == done);
        assert(pow_at(ts, p + 1) == done);
        assert(mul_tail(ts, e, t) == done);
        assert(mul_at(ts, p + 1) == done);
        assert(add_tail(ts, e, t) == done);
        assert(add_at(ts, p + 1) == done);
    }
    assert(eq_tail(ts, e, t) == done);
    assert(eq_at(ts, p + 1) == done);
    assert(expr_at(ts, p + 1) == done);
    assert(factor_at(ts, p) == Ok::<(ExprView<N>, int), ParseErrorView<N>>((t, e + 1)));
    lemma_lift_from_factor(ts, p, t, e + 1);
}

proof fn lemma_call_reads_back<N>(
    ts: Seq<TokenView<N>>,
    p: int,
    id: Seq<char>,
    args: Seq<ExprView<N>>,
    e: int,
)
    requires
        0 <= p,
        p + 3 <= e,
        e + 1 < ts.len(),
        has_symbol(ts, p, SymbolVal::LP),
        has_value(ts, p + 1, TokenValueView::Id(id)),
        has_symbol(ts, p + 2, SymbolVal::LP),
        args.len() == 0 ==> e == p + 3,
        args.len() > 0 ==> !has_symbol(ts, p + 3, SymbolVal::RP),
        args.len() > 0 ==> args_from(ts, p + 3, id, Seq::empty()) == Ok::<
            (ExprView<N>, int),
            ParseErrorView<N>,
        >((ExprView::FuncOrVarMul(id, args), e + 1)),
        has_symbol(ts, e, SymbolVal::RP),
        has_symbol(ts, e + 1, SymbolVal::RP),
    ensures
        reads_back(ts, p, ExprView::FuncOrVarMul(id, args), e + 2),
{
    let t = ExprView::FuncOrVarMul(id, args);
    let done = Ok::<(ExprView<N>, int), ParseErrorView<N>>((t, e + 1));
    if args.len() == 0 {
        assert(args =~= Seq::<ExprView<N>>::empty());
    }
    assert(call_at(ts, p + 1) == done);
    assert(juxt_at(ts, p + 1) == done);
    lemma_lift_from_juxt(ts, p + 1, t, e + 1);
    assert(ends_level(ts, e + 1, 6));
    assert(parse_level(ts, p + 1, 6) == done);
    assert(factor_at(ts, p) == Ok::<(ExprView<N>, int), ParseErrorView<N>>((t, e + 2)));
    lemma_lift_from_factor(ts, p, t, e + 2);
}

/// A rendering of `t` at `p` is read back as `t` at every level that the
/// token after it ends.
#[verifier::rlimit(40)]
proof fn lemma_reads_back<N>(ts: Seq<TokenView<N>>, p: int, t: ExprView<N>)
    requires
        0 <= p,
        renders_at(ts, p, t),
    ensures
        1 <= rendered_len(t),
        p + rendered_len(t) <= ts.len(),
        !has_symbol(ts, p, SymbolVal::RP),
        reads_back(ts, p, t, p + rendered_len(t)),
    decreases t,
{
    let q = p + rendered_len(t);
    match t {
        ExprView::Num(n) => {
            assert(factor_at(ts, p) == Ok::<(ExprView<N>, int), ParseErrorView<N>>((t, q)));
            lemma_lift_from_factor(ts, p, t, q);
        },
        ExprView::Var(id) => {
            assert(factor_at(ts, p) == Ok::<(ExprView<N>, int), ParseErrorView<N>>((t, q)));
            lemma_lift_from_factor(ts, p, t, q);
        },
        ExprView::Neg(x) => {
            lemma_reads_back(ts, p + 2, *x);
            lemma_neg_reads_back(ts, p, *x, p + 2 + rendered_len(*x));
        },
        ExprView::Op(o, l, r) => {
            lemma_reads_back(ts, p + 1, *l);
            let m = p + 1 + rendered_len(*l);
            lemma_reads_back(ts, m + 1, *r);
            lemma_op_reads_back(ts, p, o, *l, *r, m, m + 1 + rendered_len(*r));
        },
        ExprView::FuncOrVarMul(id, args) => {
            if args.len() > 0 {
                lemma_args_read_back(ts, p + 3, id, args, Seq::empty());
                assert(Seq::<ExprView<N>>::empty() + args =~= args);
                assert(args_render_at(ts, p + 3, args));
                assert(renders_at(ts, p + 3, args[0]));
                lemma_reads_back(ts, p + 3, args[0]);
            }
            lemma_call_reads_back(ts, p, id, args, p + 3 + rendered_args_len(args));
        },
        ExprView::Eq(_, _) => {},
    }
}

/// Arguments rendered from `p` on and closed by `)` are read back in order.
proof fn lemma_args_read_back<N>(
    ts: Seq<TokenView<N>>,
    p: int,
    id: Seq<char>,
    args: Seq<ExprView<N>>,
    acc: Seq<ExprView<N>>,
)
    requires
        0 <= p,
        args.len() > 0,
        args_render_at(ts, p, args),
        has_symbol(ts, p + rendered_args_len(args), SymbolVal::RP),
    ensures
        args_from(ts, p, id, acc) == Ok::<(ExprView<N>, int), ParseErrorView<N>>(
            (ExprView::FuncOrVarMul(id, acc + args), p + rendered_args_len(args) + 1),
        ),
    decreases args,
{
    let a0 = args[0];
    lemma_reads_back(ts, p, a0);
    let m = p + rendered_len(a0);
    assert(rendered_len(a0) >= 1);
    assert(ends_level(ts, m, 6));
    assert(parse_level(ts, p, 6) == Ok::<(ExprView<N>, int), ParseErrorView<N>>((a0, m)));
    if args.len() == 1 {
        assert(acc.push(a0) =~= acc + args);
    } else {
        let rest = args.subrange(1, args.len() as int);
        lemma_args_read_back(ts, m + 1, id, rest, acc.push(a0));
        assert(acc.push(a0) + rest =~= acc + args);
    }
}

/// A token sequence that spells a tree fully parenthesized (arithmetic
/// operators only, no assignment) parses back to exactly that tree, so it
/// evaluates to the same result.
pub proof fn lemma_parse_rendering<N>(ts: Seq<TokenView<N>>, t: ExprView<N>)
    requires
        renders_at(ts, 0, t),
        rendered_len(t) == ts.len(),
    ensures
        parse_tokens(ts) == Ok::<ExprView<N>, ParseErrorView<N>>(t),
{
    lemma_reads_back(ts, 0, t);
    assert(ends_level(ts, ts.len() as int, 6));
    assert(parse_level(ts, 0, 6) == Ok::<(ExprView<N>, int), ParseErrorView<N>>((t, ts.len() as int)));
}

proof fn lemma_has_value_shift<N>(
    pre: Seq<TokenView<N>>,
    ts: Seq<TokenView<N>>,
    p: int,
    v: TokenValueView<N>,
)
    requires
        0 <= p,
    ensures
        has_value(ts, p, v) == has_value(pre + ts, pre.len() + p, v),
{
    if p < ts.len() {
        assert((pre + ts)[pre.len() + p] == ts[p]);
    }
}

/// A rendering stays a rendering with tokens put in front of it.
proof fn lemma_renders_shift<N>(pre: Seq<TokenView<N>>, ts: Seq<TokenView<N>>, p: int, t: ExprView<N>)
    requires
        0 <= p,
        renders_at(ts, p, t),
    ensures
        renders_at(pre + ts, pre.len() + p, t),
    decreases t,
{
    let k = pre.len() as int;
    match t {
        ExprView::Num(n) => {
            lemma_has_value_shift(pre, ts, p, TokenValueView::Num(n));
        },
        ExprView::Var(id) => {
            lemma_has_value_shift(pre, ts, p, TokenValueView::Id(id));
        },
        ExprView::Neg(x) => {
            lemma_has_value_shift(pre, ts, p, TokenValueView::Symbol(SymbolVal::LP));
            lemma_has_value_shift(pre, ts, p + 1, TokenValueView::Op(OpVal::Sub));
            lemma_renders_shift(pre, ts, p + 2, *x);
            lemma_has_value_shift(pre, ts, p + 2 + rendered_len(*x), TokenValueView::Symbol(SymbolVal::RP));
        },
        ExprView::Op(o, l, r) => {
            let m = p + 1 + rendered_len(*l);
            lemma_has_value_shift(pre, ts, p, TokenValueView::Symbol(SymbolVal::LP));
            lemma_renders_shift(pre, ts, p + 1, *l);
            lemma_has_value_shift(pre, ts, m, TokenValueView::Op(o));
            lemma_renders_shift(pre, ts, m + 1, *r);
            lemma_has_value_shift(pre, ts, m + 1 + rendered_len(*r), TokenValueView::Symbol(SymbolVal::RP));
        },
        ExprView::FuncOrVarMul(id, args) => {
            let e = p + 3 + rendered_args_len(args);
            lemma_has_value_shift(pre, ts, p, TokenValueView::Symbol(SymbolVal::LP));
            lemma_has_value_shift(pre, ts, p + 1, TokenValueView::Id(id));
            lemma_has_value_shift(pre, ts, p + 2, TokenValueView::Symbol(SymbolVal::LP));
            lemma_args_shift(pre, ts, p + 3, args);
            lemma_has_value_shift(pre, ts, e, TokenValueView::Symbol(SymbolVal::RP));
            lemma_has_value_shift(pre, ts, e + 1, TokenValueView::Symbol(SymbolVal::RP));
        },
        ExprView::Eq(_, _) => {},
    }
}

proof fn lemma_args_shift<N>(
    pre: Seq<TokenView<N>>,
    ts: Seq<TokenView<N>>,
    p: int,
    args: Seq<ExprView<N>>,
)
    requires
        0 <= p,
        args_render_at(ts, p, args),
    ensures
        args_render_at(pre + ts, pre.len() + p, args),
    decreases args,
{
    if args.len() >= 1 {
        lemma_renders_shift(pre, ts, p, args[0]);
    }
    if args.len() > 1 {
        let m = p + rendered_len(args[0]);
        lemma_has_value_shift(pre, ts, m, TokenValueView::Symbol(SymbolVal::Comma));
        lemma_args_shift(pre, ts, m + 1, args.subrange(1, args.len() as int));
    }
}

pub open spec fn op_char(o: OpVal) -> char {
    match o {
        OpVal::Add => '+',
        OpVal::Sub => '-',
        OpVal::Mul => '*',
        OpVal::Div => '/',
        OpVal::Mod => '%',
        OpVal::Pow => '^',
        OpVal::Eq => '=',
        OpVal::Exclaim => '!',
    }
}

pub open spec fn char_at(s: Seq<char>, i: int, c: char) -> bool {
    0 <= i < s.len() && s[i] == c
}

/// Where the spelling of `t` that starts at character `i` ends.
pub open spec fn spelled_end<N>(s: Seq<char>, i: int, t: ExprView<N>, digits: bool) -> int
    decreases t,
{
    match t {
        ExprView::Num(_) => numeral_end(s, i + 1),
        ExprView::Var(_) => ident_end(s, i + 1, digits),
        ExprView::Neg(x) => spelled_end(s, i + 2, *x, digits) + 1,
        ExprView::Op(_, l, r) => spelled_end(s, spelled_end(s, i + 1, *l, digits) + 1, *r, digits)
            + 1,
        ExprView::FuncOrVarMul(_, args) => args_spelled_end(
            s,
            ident_end(s, i + 2, digits) + 1,
            args,
            digits,
        ) + 2,
        ExprView::Eq(_, _) => i,
    }
}

pub open spec fn args_spelled_end<N>(
    s: Seq<char>,
    i: int,
    args: Seq<ExprView<N>>,
    digits: bool,
) -> int
    decreases args,
{
    if args.len() == 0 {
        i
    } else if args.len() == 1 {
        spelled_end(s, i, args[0], digits)
    } else {
        args_spelled_end(
            s,
            spelled_end(s, i, args[0], digits) + 1,
            args.subrange(1, args.len() as int),
            digits,
        )
    }
}

/// An identifier starts at `i` and spells `id`.
pub open spec fn names_at<N>(s: Seq<char>, i: int, id: Seq<char>, digits: bool) -> bool {
    &&& 0 <= i < s.len()
    &&& single_char_token::<N>(s[i]) is None
    &&& !is_numeral_char(s[i])
    &&& is_ident_start(s[i])
    &&& s.subrange(i, ident_end(s, i + 1, digits)) == id
}

/// The text of `s` from `i` on spells `t` fully parenthesized, without spaces:
/// a numeral that the numeric type reads as the number, a name, `(-x)`,
/// `(l o r)` or `(f(a,b))`.
pub open spec fn spells<N: Num>(s: Seq<char>, i: int, t: ExprView<N>, digits: bool) -> bool
    decreases t,
{
    match t {
        ExprView::Num(n) => {
            &&& 0 <= i < s.len()
            &&& is_numeral_char(s[i])
            &&& N::spec_parse(s.subrange(i, numeral_end(s, i + 1))) == Some(n)
        },
        ExprView::Var(id) => names_at::<N>(s, i, id, digits),
        ExprView::Neg(x) => {
            &&& char_at(s, i, '(')
            &&& char_at(s, i + 1, '-')
            &&& spells(s, i + 2, *x, digits)
            &&& char_at(s, spelled_end(s, i + 2, *x, digits), ')')
        },
        ExprView::Op(o, l, r) => {
            &&& is_arith_op(o)
            &&& char_at(s, i, '(')
            &&& spells(s, i + 1, *l, digits)
            &&& char_at(s, spelled_end(s, i + 1, *l, digits), op_char(o))
            &&& spells(s, spelled_end(s, i + 1, *l, digits) + 1, *r, digits)
            &&& char_at(s, spelled_end(s, spelled_end(s, i + 1, *l, digits) + 1, *r, digits), ')')
        },
        ExprView::FuncOrVarMul(id, args) => {
            &&& char_at(s, i, '(')
            &&& names_at::<N>(s, i + 1, id, digits)
            &&& char_at(s, ident_end(s, i + 2, digits), '(')
            &&& args_spell(s, ident_end(s, i + 2, digits) + 1, args, digits)
            &&& char_at(s, args_spelled_end(s, ident_end(s, i + 2, digits) + 1, args, digits), ')')
            &&& char_at(
                s,
                args_spelled_end(s, ident_end(s, i + 2, digits) + 1, args, digits) + 1,
                ')',
            )
        },
        ExprView::Eq(_, _) => false,
    }
}

pub open spec fn args_spell<N: Num>(s: Seq<char>, i: int, args: Seq<ExprView<N>>, digits: bool) -> bool
    decreases args,
{
    if args.len() == 0 {
        true
    } else if args.len() == 1 {
        spells(s, i, args[0], digits)
    } else {
        &&& spells(s, i, args[0], digits)
        &&& char_at(s, spelled_end(s, i, args[0], digits), ',')
        &&& args_spell(
            s,
            spelled_end(s, i, args[0], digits) + 1,
            args.subrange(1, args.len() as int),
            digits,
        )
    }
}

/// Scanning from `i` makes `k` tokens up to character `e`, then goes on as the
/// scan from `e`.
pub open spec fn scan_splits<N: Num>(s: Seq<char>, i: int, e: int, k: int, digits: bool) -> bool {
    &&& 0 <= i <= e <= s.len()
    &&& (scan::<N>(s, i, digits) is Ok <==> scan::<N>(s, e, digits) is Ok)
    &&& scan::<N>(s, i, digits) is Ok ==> {
        let ts = scan::<N>(s, i, digits)->Ok_0;
        &&& 0 <= k <= ts.len()
        &&& ts.subrange(k, ts.len() as int) == scan::<N>(s, e, digits)->Ok_0
    }
}

/// A character that is a token on its own is the first token of the scan.
proof fn lemma_scan_single<N: Num>(s: Seq<char>, i: int, digits: bool)
    requires
        0 <= i < s.len(),
        single_char_token::<N>(s[i]) is Some,
    ensures
        scan_splits::<N>(s, i, i + 1, 1, digits),
        scan::<N>(s, i, digits) is Ok ==> scan::<N>(s, i, digits)->Ok_0[0].value == single_char_token::<N>(
            s[i],
        )->0,
{
    reveal(scan);
    let r = scan::<N>(s, i, digits);
    if r is Ok {
        let ts = r->Ok_0;
        let rest = scan::<N>(s, i + 1, digits)->Ok_0;
        assert(ts =~= seq![ts[0]] + rest);
        assert(ts.subrange(1, ts.len() as int) =~= rest);
    }
}

proof fn lemma_splits_compose<N: Num>(
    s: Seq<char>,
    a: int,
    b: int,
    c: int,
    k1: int,
    k2: int,
    digits: bool,
)
    requires
        scan_splits::<N>(s, a, b, k1, digits),
        scan_splits::<N>(s, b, c, k2, digits),
    ensures
        scan_splits::<N>(s, a, c, k1 + k2, digits),
        scan::<N>(s, a, digits) is Ok ==> scan::<N>(s, a, digits)->Ok_0 == scan::<N>(
            s,
            a,
            digits,
        )->Ok_0.subrange(0, k1) + scan::<N>(s, b, digits)->Ok_0,
{
    if scan::<N>(s, a, digits) is Ok {
        let ta = scan::<N>(s, a, digits)->Ok_0;
        let tb = scan::<N>(s, b, digits)->Ok_0;
        let tc = scan::<N>(s, c, digits)->Ok_0;
        assert(ta =~= ta.subrange(0, k1) + tb);
        assert(ta.subrange(k1 + k2, ta.len() as int) =~= tb.subrange(k2, tb.len() as int));
    }
}

/// The scan from `i` reads the spelling of `t` as a rendering of `t`.
pub open spec fn spelling_scans<N: Num>(s: Seq<char>, i: int, t: ExprView<N>, digits: bool) -> bool {
    &&& scan_splits::<N>(s, i, spelled_end(s, i, t, digits), rendered_len(t) as int, digits)
    &&& scan::<N>(s, i, digits) is Ok ==> renders_at(scan::<N>(s, i, digits)->Ok_0, 0, t)
}

proof fn lemma_neg_spelling<N: Num>(s: Seq<char>, i: int, x: ExprView<N>, digits: bool)
    requires
        0 <= i,
        char_at(s, i, '('),
        char_at(s, i + 1, '-'),
        spelling_scans::<N>(s, i + 2, x, digits),
        char_at(s, spelled_end(s, i + 2, x, digits), ')'),
    ensures
        spelling_scans::<N>(s, i, ExprView::Neg(Box::new(x)), digits),
{
    let t = ExprView::Neg(Box::new(x));
    let ex = spelled_end(s, i + 2, x, digits);
    let lx = rendered_len(x) as int;
    lemma_scan_single::<N>(s, i, digits);
    lemma_scan_single::<N>(s, i + 1, digits);
    lemma_scan_single::<N>(s, ex, digits);
    lemma_splits_compose::<N>(s, i + 2, ex, ex + 1, lx, 1, digits);
    lemma_splits_compose::<N>(s, i + 1, i + 2, ex + 1, 1, lx + 1, digits);
    lemma_splits_compose::<N>(s, i, i + 1, ex + 1, 1, lx + 2, digits);
    assert(spelled_end(s, i, t, digits) == ex + 1);
    if scan::<N>(s, i, digits) is Ok {
        let ts = scan::<N>(s, i, digits)->Ok_0;
        let t1 = scan::<N>(s, i + 1, digits)->Ok_0;
        let t2 = scan::<N>(s, i + 2, digits)->Ok_0;
        let t3 = scan::<N>(s, ex, digits)->Ok_0;
        assert(ts == ts.subrange(0, 1) + t1);
        assert(t1 == t1.subrange(0, 1) + t2);
        assert(t2 == t2.subrange(0, lx) + t3);
        let pre = ts.subrange(0, 1) + t1.subrange(0, 1);
        assert(ts =~= pre + t2);
        lemma_renders_shift(pre, t2, 0, x);
        assert(ts[1] == t1[0]);
        assert(ts[2 + lx] == t3[0]);
        assert(renders_at(ts, 0, t));
    }
}

proof fn lemma_op_char_token<N>(o: OpVal)
    requires
        is_arith_op(o),
    ensures
        single_char_token::<N>(op_char(o)) == Some(TokenValueView::<N>::Op(o)),
{
}

/// The tokens `( l o r )` followed by more render the operation.
proof fn lemma_op_tokens<N>(
    ts: Seq<TokenView<N>>,
    t1: Seq<TokenView<N>>,
    tl: Seq<TokenView<N>>,
    tl1: Seq<TokenView<N>>,
    tr: Seq<TokenView<N>>,
    o: OpVal,
    l: ExprView<N>,
    r: ExprView<N>,
)
    requires
        is_arith_op(o),
        ts.len() >= 1,
        ts[0].value == TokenValueView::<N>::Symbol(SymbolVal::LP),
        ts == ts.subrange(0, 1) + t1,
        renders_at(t1, 0, l),
        rendered_len(l) <= t1.len(),
        t1 == t1.subrange(0, rendered_len(l) as int) + tl,
        tl.len() >= 1,
        tl[0].value == TokenValueView::<N>::Op(o),
        tl == tl.subrange(0, 1) + tl1,
        renders_at(tl1, 0, r),
        rendered_len(r) <= tl1.len(),
        tl1 == tl1.subrange(0, rendered_len(r) as int) + tr,
        tr.len() >= 1,
        tr[0].value == TokenValueView::<N>::Symbol(SymbolVal::RP),
    ensures
        renders_at(ts, 0, ExprView::Op(o, Box::new(l), Box::new(r))),
{
    let ll = rendered_len(l) as int;
    let lr = rendered_len(r) as int;
    let pre = ts.subrange(0, 1);
    lemma_renders_shift(pre, t1, 0, l);
    let pre2 = ts.subrange(0, 1) + t1.subrange(0, ll) + tl.subrange(0, 1);
    assert(ts =~= pre2 + tl1);
    lemma_renders_shift(pre2, tl1, 0, r);
    assert(ts[1 + ll] == tl[0]);
    assert(ts[2 + ll + lr] == tr[0]);
}

proof fn lemma_op_spelling<N: Num>(
    s: Seq<char>,
    i: int,
    o: OpVal,
    l: ExprView<N>,
    r: ExprView<N>,
    digits: bool,
)
    requires
        0 <= i,
        is_arith_op(o),
        char_at(s, i, '('),
        spelling_scans::<N>(s, i + 1, l, digits),
        char_at(s, spelled_end(s, i + 1, l, digits), op_char(o)),
        spelling_scans::<N>(s, spelled_end(s, i + 1, l, digits) + 1, r, digits),
        char_at(s, spelled_end(s, spelled_end(s, i + 1, l, digits) + 1, r, digits), ')'),
    ensures
        spelling_scans::<N>(s, i, ExprView::Op(o, Box::new(l), Box::new(r)), digits),
{
    let t = ExprView::Op(o, Box::new(l), Box::new(r));
    let el = spelled_end(s, i + 1, l, digits);
    let er = spelled_end(s, el + 1, r, digits);
    let ll = rendered_len(l) as int;
    let lr = rendered_len(r) as int;
    lemma_op_char_token::<N>(o);
    lemma_scan_single::<N>(s, i, digits);
    lemma_scan_single::<N>(s, el, digits);
    lemma_scan_single::<N>(s, er, digits);
    lemma_splits_compose::<N>(s, el + 1, er, er + 1, lr, 1, digits);
    lemma_splits_compose::<N>(s, el, el + 1, er + 1, 1, lr + 1, digits);
    lemma_splits_compose::<N>(s, i + 1, el, er + 1, ll, lr + 2, digits);
    lemma_splits_compose::<N>(s, i, i + 1, er + 1, 1, ll + lr + 2, digits);
    assert(spelled_end(s, i, t, digits) == er + 1);
    if scan::<N>(s, i, digits) is Ok {
        lemma_op_tokens(
            scan::<N>(s, i, digits)->Ok_0,
            scan::<N>(s, i + 1, digits)->Ok_0,
            scan::<N>(s, el, digits)->Ok_0,
            scan::<N>(s, el + 1, digits)->Ok_0,
            scan::<N>(s, er, digits)->Ok_0,
            o,
            l,
            r,
        );
    }
}

/// An identifier is one token.
proof fn lemma_scan_name<N: Num>(s: Seq<char>, i: int, id: Seq<char>, digits: bool)
    requires
        names_at::<N>(s, i, id, digits),
    ensures
        scan_splits::<N>(s, i, ident_end(s, i + 1, digits), 1, digits),
        scan::<N>(s, i, digits) is Ok ==> scan::<N>(s, i, digits)->Ok_0[0].value
            == TokenValueView::<N>::Id(id),
{
    reveal(scan);
    lemma_ident_end(s, i + 1, digits);
    let e = ident_end(s, i + 1, digits);
    if scan::<N>(s, i, digits) is Ok {
        let ts = scan::<N>(s, i, digits)->Ok_0;
        let rest = scan::<N>(s, e, digits)->Ok_0;
        assert(ts =~= seq![ts[0]] + rest);
        assert(ts.subrange(1, ts.len() as int) =~= rest);
    }
}

/// The scan from `i` reads the spelled arguments as rendered arguments.
pub open spec fn args_spelling_scans<N: Num>(
    s: Seq<char>,
    i: int,
    args: Seq<ExprView<N>>,
    digits: bool,
) -> bool {
    &&& scan_splits::<N>(
        s,
        i,
        args_spelled_end(s, i, args, digits),
        rendered_args_len(args) as int,
        digits,
    )
    &&& scan::<N>(s, i, digits) is Ok ==> args_render_at(scan::<N>(s, i, digits)->Ok_0, 0, args)
}

proof fn lemma_call_spelling<N: Num>(s: Seq<char>, i: int, id: Seq<char>, args: Seq<ExprView<N>>, digits: bool)
    requires
        0 <= i,
        char_at(s, i, '('),
        names_at::<N>(s, i + 1, id, digits),
        char_at(s, ident_end(s, i + 2, digits), '('),
        args_spelling_scans::<N>(s, ident_end(s, i + 2, digits) + 1, args, digits),
        char_at(s, args_spelled_end(s, ident_end(s, i + 2, digits) + 1, args, digits), ')'),
        char_at(s, args_spelled_end(s, ident_end(s, i + 2, digits) + 1, args, digits) + 1, ')'),
    ensures
        spelling_scans::<N>(s, i, ExprView::FuncOrVarMul(id, args), digits),
{
    let t = ExprView::FuncOrVarMul(id, args);
    let j = ident_end(s, i + 2, digits);
    let ea = args_spelled_end(s, j + 1, args, digits);
    let la = rendered_args_len(args) as int;
    lemma_scan_single::<N>(s, i, digits);
    lemma_scan_name::<N>(s, i + 1, id, digits);
    lemma_scan_single::<N>(s, j, digits);
    lemma_scan_single::<N>(s, ea, digits);
    lemma_scan_single::<N>(s, ea + 1, digits);
    lemma_splits_compose::<N>(s, ea, ea + 1, ea + 2, 1, 1, digits);
    lemma_splits_compose::<N>(s, j + 1, ea, ea + 2, la, 2, digits);
    lemma_splits_compose::<N>(s, j, j + 1, ea + 2, 1, la + 2, digits);
    lemma_splits_compose::<N>(s, i + 1, j, ea + 2, 1, la + 3, digits);
    lemma_splits_compose::<N>(s, i, i + 1, ea + 2, 1, la + 4, digits);
    assert(spelled_end(s, i, t, digits) == ea + 2);
    if scan::<N>(s, i, digits) is Ok {
        let ts = scan::<N>(s, i, digits)->Ok_0;
        let t1 = scan::<N>(s, i + 1, digits)->Ok_0;
        let tj = scan::<N>(s, j, digits)->Ok_0;
        let tj1 = scan::<N>(s, j + 1, digits)->Ok_0;
        let te = scan::<N>(s, ea, digits)->Ok_0;
        let te1 = scan::<N>(s, ea + 1, digits)->Ok_0;
        assert(ts == ts.subrange(0, 1) + t1);
        assert(t1 == t1.subrange(0, 1) + tj);
        assert(tj == tj.subrange(0, 1) + tj1);
        assert(tj1 == tj1.subrange(0, la) + te);
        assert(te == te.subrange(0, 1) + te1);
        let pre = ts.subrange(0, 1) + t1.subrange(0, 1) + tj.subrange(0, 1);
        assert(ts =~= pre + tj1);
        lemma_args_shift(pre, tj1, 0, args);
        assert(ts[1] == t1[0]);
        assert(ts[2] == tj[0]);
        assert(ts[3 + la] == te[0]);
        assert(ts[4 + la] == te1[0]);
        assert(renders_at(ts, 0, t));
    }
}

proof fn lemma_spelling<N: Num>(s: Seq<char>, i: int, t: ExprView<N>, digits: bool)
    requires
        0 <= i,
        spells::<N>(s, i, t, digits),
    ensures
        spelling_scans::<N>(s, i, t, digits),
    decreases t,
{
    match t {
        ExprView::Num(n) => {
            reveal(scan);
            lemma_numeral_end(s, i + 1);
            let e = numeral_end(s, i + 1);
            if scan::<N>(s, i, digits) is Ok {
                let ts = scan::<N>(s, i, digits)->Ok_0;
                let rest = scan::<N>(s, e, digits)->Ok_0;
                assert(ts =~= seq![ts[0]] + rest);
                assert(ts.subrange(1, ts.len() as int) =~= rest);
            }
        },
        ExprView::Var(id) => {
            lemma_scan_name::<N>(s, i, id, digits);
        },
        ExprView::Neg(x) => {
            lemma_spelling(s, i + 2, *x, digits);
            lemma_neg_spelling(s, i, *x, digits);
        },
        ExprView::Op(o, l, r) => {
            lemma_spelling(s, i + 1, *l, digits);
            lemma_spelling(s, spelled_end(s, i + 1, *l, digits) + 1, *r, digits);
            lemma_op_spelling(s, i, o, *l, *r, digits);
        },
        ExprView::FuncOrVarMul(id, args) => {
            lemma_args_spelling(s, ident_end(s, i + 2, digits) + 1, args, digits);
            lemma_call_spelling(s, i, id, args, digits);
        },
        ExprView::Eq(_, _) => {},
    }
}

proof fn lemma_args_spelling<N: Num>(s: Seq<char>, i: int, args: Seq<ExprView<N>>, digits: bool)
    requires
        0 <= i <= s.len(),
        args_spell::<N>(s, i, args, digits),
    ensures
        args_spelling_scans::<N>(s, i, args, digits),
    decreases args,
{
    if args.len() == 0 {
        if scan::<N>(s, i, digits) is Ok {
            let ts = scan::<N>(s, i, digits)->Ok_0;
            assert(ts.subrange(0, ts.len() as int) =~= ts);
        }
    } else {
        lemma_spelling(s, i, args[0], digits);
        let e0 = spelled_end(s, i, args[0], digits);
        let l0 = rendered_len(args[0]) as int;
        if args.len() > 1 {
            let rest = args.subrange(1, args.len() as int);
            lemma_scan_single::<N>(s, e0, digits);
            lemma_args_spelling(s, e0 + 1, rest, digits);
            let ea = args_spelled_end(s, e0 + 1, rest, digits);
            let lrest = rendered_args_len(rest) as int;
            lemma_splits_compose::<N>(s, e0, e0 + 1, ea, 1, lrest, digits);
            lemma_splits_compose::<N>(s, i, e0, ea, l0, lrest + 1, digits);
            if scan::<N>(s, i, digits) is Ok {
                let ts = scan::<N>(s, i, digits)->Ok_0;
                let te = scan::<N>(s, e0, digits)->Ok_0;
                let te1 = scan::<N>(s, e0 + 1, digits)->Ok_0;
                assert(ts == ts.subrange(0, l0) + te);
                assert(te == te.subrange(0, 1) + te1);
                let pre = ts.subrange(0, l0) + te.subrange(0, 1);
                assert(ts =~= pre + te1);
                lemma_args_shift(pre, te1, 0, rest);
                assert(ts[l0] == te[0]);
                assert(args_render_at(ts, 0, args));
            }
        }
    }
}

/// A text that spells a tree fully parenthesized (arithmetic operators only,
/// no assignment) tokenizes, and its tokens parse back to exactly that tree;
/// so the re-read tree evaluates to the same result.
pub proof fn lemma_text_round_trip<N: Num>(s: Seq<char>, t: ExprView<N>, digits: bool)
    requires
        spells::<N>(s, 0, t, digits),
        spelled_end(s, 0, t, digits) == s.len(),
    ensures
        scan::<N>(s, 0, digits) is Ok,
        parse_tokens(scan::<N>(s, 0, digits)->Ok_0) == Ok::<ExprView<N>, ParseErrorView<N>>(t),
{
    reveal(scan);
    lemma_spelling(s, 0, t, digits);
    assert(scan::<N>(s, s.len() as int, digits) == Ok::<Seq<TokenView<N>>, TokenizeErrorView>(
        Seq::empty(),
    ));
    let ts = scan::<N>(s, 0, digits)->Ok_0;
    assert(ts.subrange(rendered_len(t) as int, ts.len() as int).len() == 0);
    lemma_parse_rendering(ts, t);
}

} // verus!
