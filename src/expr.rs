use crate::tokenizer::OpVal;
use vstd::prelude::*;

verus! {

/// An expression tree; each node owns its children.
#[derive(Debug, PartialEq)]
pub enum Expr<N> {
    /// An assignment of the right side to the left side, which must be a variable.
    Eq(Box<Expr<N>>, Box<Expr<N>>),
    /// A call of the named function, or, with one argument and a name bound to
    /// a number, that number times the argument.
    FuncOrVarMul(String, Vec<Expr<N>>),
    Neg(Box<Expr<N>>),
    Num(N),
    Op(OpVal, Box<Expr<N>>, Box<Expr<N>>),
    Var(String),
}

/// The tree with every name given by its characters.
pub enum ExprView<N> {
    Eq(Box<ExprView<N>>, Box<ExprView<N>>),
    FuncOrVarMul(Seq<char>, Seq<ExprView<N>>),
    Neg(Box<ExprView<N>>),
    Num(N),
    Op(OpVal, Box<ExprView<N>>, Box<ExprView<N>>),
    Var(Seq<char>),
}

impl<N> View for Expr<N> {
    type V = ExprView<N>;

    open spec fn view(&self) -> ExprView<N> {
        expr_view(self)
    }
}

/// The tree with every name given by its characters.
pub open spec fn expr_view<N>(e: &Expr<N>) -> ExprView<N>
    decreases e,
{
    match e {
        Expr::Eq(l, r) => ExprView::Eq(Box::new(expr_view(l)), Box::new(expr_view(r))),
        Expr::FuncOrVarMul(id, args) => ExprView::FuncOrVarMul(
            id@,
            Seq::new(
                args@.len(),
                |i: int|
                    if 0 <= i < args@.len() {
                        expr_view(&args@[i])
                    } else {
                        arbitrary()
                    },
            ),
        ),
        Expr::Neg(x) => ExprView::Neg(Box::new(expr_view(x))),
        Expr::Num(n) => ExprView::Num(*n),
        Expr::Op(o, l, r) => ExprView::Op(*o, Box::new(expr_view(l)), Box::new(expr_view(r))),
        Expr::Var(id) => ExprView::Var(id@),
    }
}

/// The views of a sequence of trees.
pub open spec fn exprs_view<N>(s: Seq<Expr<N>>) -> Seq<ExprView<N>> {
    Seq::new(s.len(), |i: int| s[i]@)
}

pub proof fn lemma_call_view<N>(id: String, args: Vec<Expr<N>>)
    ensures
        Expr::FuncOrVarMul(id, args)@ == ExprView::FuncOrVarMul(id@, exprs_view(args@)),
{
    reveal_with_fuel(expr_view, 2);
    let e = Expr::FuncOrVarMul(id, args);
    match e@ {
        ExprView::FuncOrVarMul(_, s) => {
            assert forall|i: int| 0 <= i < args@.len() implies s[i] == exprs_view(args@)[i] by {}
            assert(s =~= exprs_view(args@));
        },
        _ => {},
    }
}

impl<N: Copy> Clone for Expr<N> {
    /// A deep copy: the same tree, node for node.
    fn clone(&self) -> (r: Expr<N>)
        ensures
            r@ == self@,
    {
        copy_tree(self)
    }
}

fn copy_tree<N: Copy>(e: &Expr<N>) -> (r: Expr<N>)
    ensures
        r@ == e@,
    decreases e,
{
    match e {
        Expr::Eq(l, r) => Expr::Eq(Box::new(copy_tree(l)), Box::new(copy_tree(r))),
        Expr::FuncOrVarMul(id, args) => {
            let mut copies: Vec<Expr<N>> = Vec::new();
            let mut i: usize = 0;
            while i < args.len()
                invariant
                    i <= args@.len(),
                    copies@.len() == i,
                    forall|j: int| 0 <= j < i ==> #[trigger] copies@[j]@ == args@[j]@,
                    *e == Expr::<N>::FuncOrVarMul(*id, *args),
                decreases args@.len() - i,
            {
                proof {
                    assert(decreases_to!(*args => args[i as int]));
                    assert(decreases_to!(*e => e->FuncOrVarMul_1));
                }
                let c = copy_tree(&args[i]);
                copies.push(c);
                i = i + 1;
            }
            let name = id.clone();
            proof {
                lemma_call_view(*id, *args);
                lemma_call_view(name, copies);
                assert(exprs_view(copies@) =~= exprs_view(args@));
            }
            Expr::FuncOrVarMul(name, copies)
        },
        Expr::Neg(x) => Expr::Neg(Box::new(copy_tree(x))),
        Expr::Num(n) => Expr::Num(*n),
        Expr::Op(o, l, r) => Expr::Op(*o, Box::new(copy_tree(l)), Box::new(copy_tree(r))),
        Expr::Var(id) => Expr::Var(id.clone()),
    }
}
} // verus!
