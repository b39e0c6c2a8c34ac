use crate::expr::{expr_view, exprs_view, lemma_call_view, Expr, ExprView};
use crate::num::Num;
use crate::tokenizer::OpVal;
use vstd::prelude::*;

verus! {

/// The functions that an environment can bind a name to.
#[derive(Debug, Copy, Clone, PartialEq, Eq, Structural)]
pub enum Builtin {
    Abs,
    Sqrt,
    Factorial,
}

/// What a name is bound to.
#[derive(Debug, Copy, Clone, PartialEq)]
pub enum Variant<N> {
    Num(N),
    Function(Builtin),
}

#[derive(Debug, Clone, PartialEq)]
pub enum InterpretError {
    /// The function and the least number of arguments it takes.
    TooFewArgs(String, usize),
    /// The function and the most arguments it takes.
    TooManyArgs(String, usize),
    VarDoesNotExist(String),
    VarIsNotFunction(String),
    FunctionNameUsedLikeVar(String),
    /// The operator has no value in the numeric type for its operands
    /// (negation counts as `Sub`, implicit multiplication as `Mul`).
    ArithmeticError(OpVal),
    /// The function has no value in the numeric type for its argument.
    InvalidArgument(String),
    /// The left side of an assignment is not a variable.
    UnsupportedAssignment,
}

pub enum InterpretErrorView {
    TooFewArgs(Seq<char>, usize),
    TooManyArgs(Seq<char>, usize),
    VarDoesNotExist(Seq<char>),
    VarIsNotFunction(Seq<char>),
    FunctionNameUsedLikeVar(Seq<char>),
    ArithmeticError(OpVal),
    InvalidArgument(Seq<char>),
    UnsupportedAssignment,
}

impl View for InterpretError {
    type V = InterpretErrorView;

    open spec fn view(&self) -> InterpretErrorView {
        match self {
            InterpretError::TooFewArgs(id, n) => InterpretErrorView::TooFewArgs(id@, *n),
            InterpretError::TooManyArgs(id, n) => InterpretErrorView::TooManyArgs(id@, *n),
            InterpretError::VarDoesNotExist(id) => InterpretErrorView::VarDoesNotExist(id@),
            InterpretError::VarIsNotFunction(id) => InterpretErrorView::VarIsNotFunction(id@),
            InterpretError::FunctionNameUsedLikeVar(id) => InterpretErrorView::FunctionNameUsedLikeVar(
                id@,
            ),
            InterpretError::ArithmeticError(o) => InterpretErrorView::ArithmeticError(*o),
            InterpretError::InvalidArgument(id) => InterpretErrorView::InvalidArgument(id@),
            InterpretError::UnsupportedAssignment => InterpretErrorView::UnsupportedAssignment,
        }
    }
}

pub type Env<N> = Map<Seq<char>, Variant<N>>;

pub type Outcome<N> = Result<N, InterpretErrorView>;

pub open spec fn outcome_view<N>(r: Result<N, InterpretError>) -> Outcome<N> {
    match r {
        Ok(v) => Ok(v),
        Err(e) => Err(e@),
    }
}

/// The result of an arity check of `n` arguments against `min..=max`.
pub open spec fn arity_check(min: usize, max: usize, n: usize, id: Seq<char>) -> Result<
    (),
    InterpretErrorView,
> {
    if n < min {
        Err(InterpretErrorView::TooFewArgs(id, min))
    } else if n > max {
        Err(InterpretErrorView::TooManyArgs(id, max))
    } else {
        Ok(())
    }
}

/// A partial operation's value, or the error that names the operator.
pub open spec fn arith<N>(r: Option<N>, o: OpVal) -> Outcome<N> {
    match r {
        Some(v) => Ok(v),
        None => Err(InterpretErrorView::ArithmeticError(o)),
    }
}

pub open spec fn apply_op<N: Num>(o: OpVal, a: N, b: N) -> Outcome<N> {
    match o {
        OpVal::Add => arith(N::spec_add(a, b), o),
        OpVal::Sub => arith(N::spec_sub(a, b), o),
        OpVal::Mul => arith(N::spec_mul(a, b), o),
        OpVal::Div => arith(N::spec_div(a, b), o),
        OpVal::Mod => arith(N::spec_rem(a, b), o),
        OpVal::Pow => arith(N::spec_pow(a, b), o),
        _ => Err(InterpretErrorView::ArithmeticError(o)),
    }
}

/// What a built-in function called as `id` returns for `args`.
pub open spec fn builtin_result<N: Num>(f: Builtin, id: Seq<char>, args: Seq<N>) -> Outcome<N> {
    if args.len() < 1 {
        Err(InterpretErrorView::TooFewArgs(id, 1))
    } else if args.len() > 1 {
        Err(InterpretErrorView::TooManyArgs(id, 1))
    } else {
        let r = match f {
            Builtin::Abs => N::spec_abs(args[0]),
            Builtin::Sqrt => N::spec_sqrt(args[0]),
            Builtin::Factorial => N::spec_factorial(args[0]),
        };
        match r {
            Some(v) => Ok(v),
            None => Err(InterpretErrorView::InvalidArgument(id)),
        }
    }
}

/// The value of a variable reference.
pub open spec fn var_result<N>(env: Env<N>, id: Seq<char>) -> Outcome<N> {
    if env.contains_key(id) {
        match env[id] {
            Variant::Num(n) => Ok(n),
            Variant::Function(_) => Err(InterpretErrorView::FunctionNameUsedLikeVar(id)),
        }
    } else {
        Err(InterpretErrorView::VarDoesNotExist(id))
    }
}

/// A call of `id` on evaluated arguments: a function applies, a number
/// multiplies its one argument.
pub open spec fn call_result<N: Num>(env: Env<N>, id: Seq<char>, args: Seq<N>) -> Outcome<N> {
    if env.contains_key(id) {
        match env[id] {
            Variant::Num(n) => if args.len() == 1 {
                arith(N::spec_mul(n, args[0]), OpVal::Mul)
            } else {
                Err(InterpretErrorView::VarIsNotFunction(id))
            },
            Variant::Function(f) => builtin_result(f, id, args),
        }
    } else {
        Err(InterpretErrorView::VarDoesNotExist(id))
    }
}

/// Evaluates `e` against `env`: the result and the environment afterwards.
/// Operands and arguments go left to right, and the first error stops the walk;
/// assignments made before it stay.
pub open spec fn eval_expr<N: Num>(env: Env<N>, e: ExprView<N>) -> (Outcome<N>, Env<N>)
    decreases e,
{
    match e {
        ExprView::Num(n) => (Ok(n), env),
        ExprView::Var(id) => (var_result(env, id), env),
        ExprView::Neg(x) => {
            let (r, env1) = eval_expr(env, *x);
            match r {
                Ok(v) => (arith(N::spec_neg(v), OpVal::Sub), env1),
                Err(err) => (Err(err), env1),
            }
        },
        ExprView::Op(o, l, r) => {
            let (rl, env1) = eval_expr(env, *l);
            match rl {
                Ok(a) => {
                    let (rr, env2) = eval_expr(env1, *r);
                    match rr {
                        Ok(b) => (apply_op(o, a, b), env2),
                        Err(err) => (Err(err), env2),
                    }
                },
                Err(err) => (Err(err), env1),
            }
        },
        ExprView::Eq(lhs, rhs) => match *lhs {
            ExprView::Var(id) => {
                let (r, env1) = eval_expr(env, *rhs);
                match r {
                    Ok(v) => (Ok(v), env1.insert(id, Variant::Num(v))),
                    Err(err) => (Err(err), env1),
                }
            },
            _ => (Err(InterpretErrorView::UnsupportedAssignment), env),
        },
        ExprView::FuncOrVarMul(id, args) => {
            let (ra, env1) = eval_args(env, args);
            match ra {
                Ok(vs) => (call_result(env1, id, vs), env1),
                Err(err) => (Err(err), env1),
            }
        },
    }
}

/// Evaluates the arguments left to right, stopping at the first error.
pub open spec fn eval_args<N: Num>(env: Env<N>, args: Seq<ExprView<N>>) -> (
    Result<Seq<N>, InterpretErrorView>,
    Env<N>,
)
    decreases args,
{
    if args.len() == 0 {
        (Ok(Seq::empty()), env)
    } else {
        let (r, env1) = eval_args(env, args.subrange(0, args.len() - 1));
        match r {
            Ok(vs) => {
                let (rv, env2) = eval_expr(env1, args[args.len() - 1]);
                match rv {
                    Ok(v) => (Ok(vs.push(v)), env2),
                    Err(err) => (Err(err), env2),
                }
            },
            Err(err) => (Err(err), env1),
        }
    }
}

/// Checks that a function called as `func_id` got between `min` and `max` arguments.
pub fn ensure_arg_count(min: usize, max: usize, args_len: usize, func_id: &str) -> (r: Result<
    (),
    InterpretError,
>)
    ensures
        match r {
            Ok(()) => arity_check(min, max, args_len, func_id@) == Ok::<(), InterpretErrorView>(()),
            Err(e) => arity_check(min, max, args_len, func_id@) == Err::<(), _>(e@),
        },
{
    if args_len < min {
        Err(InterpretError::TooFewArgs(func_id.to_owned(), min))
    } else if args_len > max {
        Err(InterpretError::TooManyArgs(func_id.to_owned(), max))
    } else {
        Ok(())
    }
}

impl Builtin {
    /// Applies the function, called by the name `id`, to `args`.
    pub fn call<N: Num>(&self, id: &str, args: &[N]) -> (r: Result<N, InterpretError>)
        ensures
            outcome_view(r) == builtin_result(*self, id@, args@),
    {
        match ensure_arg_count(1, 1, args.len(), id) {
            Ok(()) => {},
            Err(e) => return Err(e),
        }
        let r = match self {
            Builtin::Abs => args[0].try_abs(),
            Builtin::Sqrt => args[0].try_sqrt(),
            Builtin::Factorial => args[0].try_factorial(),
        };
        match r {
            Some(v) => Ok(v),
            None => Err(InterpretError::InvalidArgument(id.to_owned())),
        }
    }
}

/// The map that a list of bindings with distinct names stands for.
pub open spec fn bindings_map<N>(s: Seq<(String, Variant<N>)>) -> Env<N>
    decreases s.len(),
{
    if s.len() == 0 {
        Map::empty()
    } else {
        bindings_map(s.drop_last()).insert(s.last().0@, s.last().1)
    }
}

pub open spec fn distinct_names<N>(s: Seq<(String, Variant<N>)>) -> bool {
    forall|i: int, j: int| 0 <= i < j < s.len() ==> s[i].0@ != s[j].0@
}

proof fn lemma_bindings<N>(s: Seq<(String, Variant<N>)>)
    requires
        distinct_names(s),
    ensures
        forall|i: int|
            0 <= i < s.len() ==> #[trigger] bindings_map(s).contains_key(s[i].0@)
                && bindings_map(s)[s[i].0@] == s[i].1,
        forall|k: Seq<char>|
            #[trigger] bindings_map(s).contains_key(k) ==> exists|i: int|
                0 <= i < s.len() && s[i].0@ == k,
    decreases s.len(),
{
    if s.len() > 0 {
        let t = s.drop_last();
        assert(distinct_names(t));
        lemma_bindings(t);
        assert forall|i: int| 0 <= i < s.len() implies #[trigger] bindings_map(s).contains_key(
            s[i].0@,
        ) && bindings_map(s)[s[i].0@] == s[i].1 by {
            if i < s.len() - 1 {
                assert(t[i] == s[i]);
                assert(bindings_map(t).contains_key(t[i].0@));
                assert(s[i].0@ != s[s.len() - 1].0@);
            }
        }
        assert forall|k: Seq<char>| #[trigger] bindings_map(s).contains_key(k) implies exists|i: int|
            0 <= i < s.len() && s[i].0@ == k by {
            if k != s.last().0@ {
                assert(bindings_map(t).contains_key(k));
                let i = choose|i: int| 0 <= i < t.len() && t[i].0@ == k;
                assert(s[i] == t[i]);
            } else {
                assert(s[s.len() - 1].0@ == k);
            }
        }
    }
}

/// An environment: names bound to numbers or to built-in functions.
#[derive(Debug, Clone)]
pub struct Interpreter<N> {
    vars: Vec<(String, Variant<N>)>,
}

impl<N> View for Interpreter<N> {
    type V = Env<N>;

    closed spec fn view(&self) -> Env<N> {
        bindings_map(self.vars@)
    }
}

pub open spec fn default_env<N: Num>() -> Env<N> {
    Map::empty().insert(seq!['p', 'i'], Variant::Num(N::spec_pi())).insert(
        seq!['e'],
        Variant::Num(N::spec_e()),
    ).insert(seq!['t', 'a', 'u'], Variant::Num(N::spec_tau())).insert(
        seq!['a', 'b', 's'],
        Variant::Function(Builtin::Abs),
    ).insert(seq!['s', 'q', 'r', 't'], Variant::Function(Builtin::Sqrt)).insert(
        seq!['f', 'a', 'c', 't', 'o', 'r', 'i', 'a', 'l'],
        Variant::Function(Builtin::Factorial),
    )
}

impl<N: Num> Default for Interpreter<N> {
    /// The constants `pi`, `e` and `tau` and the functions `abs`, `sqrt` and `factorial`.
    fn default() -> (r: Interpreter<N>)
        ensures
            r.wf(),
            r@ == default_env::<N>(),
    {
        let mut it = Interpreter::new();
        it.set_var("pi".to_owned(), Variant::Num(N::pi()));
        it.set_var("e".to_owned(), Variant::Num(N::e()));
        it.set_var("tau".to_owned(), Variant::Num(N::tau()));
        it.set_var("abs".to_owned(), Variant::Function(Builtin::Abs));
        it.set_var("sqrt".to_owned(), Variant::Function(Builtin::Sqrt));
        it.set_var("factorial".to_owned(), Variant::Function(Builtin::Factorial));
        proof {
            reveal_strlit("pi");
            reveal_strlit("e");
            reveal_strlit("tau");
            reveal_strlit("abs");
            reveal_strlit("sqrt");
            reveal_strlit("factorial");
            assert("pi"@ =~= seq!['p', 'i']);
            assert("e"@ =~= seq!['e']);
            assert("tau"@ =~= seq!['t', 'a', 'u']);
            assert("abs"@ =~= seq!['a', 'b', 's']);
            assert("sqrt"@ =~= seq!['s', 'q', 'r', 't']);
            assert("factorial"@ =~= seq!['f', 'a', 'c', 't', 'o', 'r', 'i', 'a', 'l']);
            assert(it@ =~= default_env::<N>());
        }
        it
    }
}

impl<N: Num> Interpreter<N> {
    /// Every name is bound at most once.
    pub closed spec fn wf(&self) -> bool {
        distinct_names(self.vars@)
    }

    /// An environment with no bindings.
    pub fn new() -> (r: Interpreter<N>)
        ensures
            r.wf(),
            r@ == Env::<N>::empty(),
    {
        Interpreter { vars: Vec::new() }
    }

    /// The bindings, each name once, in the order in which they were made.
    pub fn vars(&self) -> (r: &[(String, Variant<N>)])
        requires
            self.wf(),
        ensures
            distinct_names(r@),
            self@ == bindings_map(r@),
    {
        self.vars.as_slice()
    }

    fn find(&self, name: &String) -> (r: Option<usize>)
        requires
            self.wf(),
        ensures
            match r {
                Some(i) => i < self.vars@.len() && self.vars@[i as int].0@ == name@,
                None => !self@.contains_key(name@),
            },
    {
        proof {
            lemma_bindings(self.vars@);
        }
        let mut i: usize = 0;
        while i < self.vars.len()
            invariant
                i <= self.vars@.len(),
                forall|j: int| 0 <= j < i ==> self.vars@[j].0@ != name@,
            decreases self.vars@.len() - i,
        {
            if self.vars[i].0 == *name {
                return Some(i);
            }
            i = i + 1;
        }
        None
    }

    /// What `name` is bound to, if anything.
    pub fn get(&self, name: &str) -> (r: Option<Variant<N>>)
        requires
            self.wf(),
        ensures
            r == (if self@.contains_key(name@) {
                Some(self@[name@])
            } else {
                None::<Variant<N>>
            }),
    {
        let key = name.to_owned();
        self.lookup(&key)
    }

    fn lookup(&self, name: &String) -> (r: Option<Variant<N>>)
        requires
            self.wf(),
        ensures
            r == (if self@.contains_key(name@) {
                Some(self@[name@])
            } else {
                None::<Variant<N>>
            }),
    {
        proof {
            lemma_bindings(self.vars@);
        }
        match self.find(name) {
            Some(i) => Some(self.vars[i].1),
            None => None,
        }
    }

    /// Evaluates a call of `id` on evaluated arguments.
    fn call(&self, id: &String, args: &Vec<N>) -> (r: Result<N, InterpretError>)
        requires
            self.wf(),
        ensures
            outcome_view(r) == call_result(self@, id@, args@),
    {
        match self.lookup(id) {
            Some(Variant::Num(n)) => {
                if args.len() == 1 {
                    match n.try_mul(&args[0]) {
                        Some(v) => Ok(v),
                        None => Err(InterpretError::ArithmeticError(OpVal::Mul)),
                    }
                } else {
                    Err(InterpretError::VarIsNotFunction(id.clone()))
                }
            },
            Some(Variant::Function(f)) => f.call(id.as_str(), args.as_slice()),
            None => Err(InterpretError::VarDoesNotExist(id.clone())),
        }
    }

    /// Evaluates `expr`: the tree walk of `eval_expr`, with the environment
    /// changed by the assignments that it makes.
    pub fn eval(&mut self, expr: &Expr<N>) -> (r: Result<N, InterpretError>)
        requires
            old(self).wf(),
        ensures
            final(self).wf(),
            (outcome_view(r), final(self)@) == eval_expr(old(self)@, expr@),
        decreases expr,
    {
        match expr {
            Expr::Num(n) => Ok(*n),
            Expr::Var(id) => match self.lookup(id) {
                Some(Variant::Num(n)) => Ok(n),
                Some(Variant::Function(_)) => Err(InterpretError::FunctionNameUsedLikeVar(id.clone())),
                None => Err(InterpretError::VarDoesNotExist(id.clone())),
            },
            Expr::Neg(x) => match self.eval(x) {
                Ok(v) => match v.try_neg() {
                    Some(w) => Ok(w),
                    None => Err(InterpretError::ArithmeticError(OpVal::Sub)),
                },
                Err(e) => Err(e),
            },
            Expr::Op(o, lhs, rhs) => {
                let a = match self.eval(lhs) {
                    Ok(a) => a,
                    Err(e) => return Err(e),
                };
                let b = match self.eval(rhs) {
                    Ok(b) => b,
                    Err(e) => return Err(e),
                };
                let v = match o {
                    OpVal::Add => a.try_add(&b),
                    OpVal::Sub => a.try_sub(&b),
                    OpVal::Mul => a.try_mul(&b),
                    OpVal::Div => a.try_div(&b),
                    OpVal::Mod => a.try_rem(&b),
                    OpVal::Pow => a.try_pow(&b),
                    _ => None,
                };
                match v {
                    Some(v) => Ok(v),
                    None => Err(InterpretError::ArithmeticError(*o)),
                }
            },
            Expr::Eq(lhs, rhs) => match &**lhs {
                Expr::Var(id) => {
                    proof {
                        reveal_with_fuel(expr_view, 2);
                    }
                    let v = match self.eval(rhs) {
                        Ok(v) => v,
                        Err(e) => return Err(e),
                    };
                    self.set_var(id.clone(), Variant::Num(v));
                    Ok(v)
                },
                _ => {
                    proof {
                        reveal_with_fuel(expr_view, 2);
                    }
                    Err(InterpretError::UnsupportedAssignment)
                },
            },
            Expr::FuncOrVarMul(id, args) => {
                let ghost env0 = self@;
                let ghost views = exprs_view(args@);
                proof {
                    lemma_call_view(*id, *args);
                    assert(views.subrange(0, 0) =~= Seq::<ExprView<N>>::empty());
                }
                let mut vals: Vec<N> = Vec::new();
                let mut i: usize = 0;
                while i < args.len()
                    invariant
                        self.wf(),
                        i <= args@.len(),
                        views == exprs_view(args@),
                        *expr == Expr::<N>::FuncOrVarMul(*id, *args),
                        expr@ == ExprView::FuncOrVarMul(id@, views),
                        env0 == old(self)@,
                        eval_args(env0, views.subrange(0, i as int)) == (
                            Ok::<Seq<N>, InterpretErrorView>(vals@),
                            self@,
                        ),
                    decreases args@.len() - i,
                {
                    let ghost before = self@;
                    proof {
                        assert(views.subrange(0, i + 1).subrange(0, i as int) =~= views.subrange(0, i as int));
                        assert(views[i as int] == args@[i as int]@);
                        assert(decreases_to!(*args => args[i as int]));
                        assert(decreases_to!(*expr => expr->FuncOrVarMul_1));
                    }
                    match self.eval(&args[i]) {
                        Ok(v) => {
                            vals.push(v);
                        },
                        Err(e) => {
                            proof {
                                let pre = views.subrange(0, i + 1);
                                assert(pre[i as int] == views[i as int]);
                                assert(eval_args(env0, pre) == (
                                    Err::<Seq<N>, InterpretErrorView>(e@),
                                    self@,
                                ));
                                lemma_args_error(env0, views, i + 1);
                            }
                            return Err(e);
                        },
                    }
                    i = i + 1;
                }
                proof {
                    assert(views.subrange(0, args@.len() as int) =~= views);
                }
                self.call(id, &vals)
            },
        }
    }

    /// Binds `name` to `value`, replacing what it was bound to.
    pub fn set_var(&mut self, name: String, value: Variant<N>)
        requires
            old(self).wf(),
        ensures
            final(self).wf(),
            final(self)@ == old(self)@.insert(name@, value),
    {
        let ghost s = self.vars@;
        proof {
            lemma_bindings(s);
        }
        match self.find(&name) {
            Some(i) => {
                let ghost k = name@;
                self.vars.set(i, (name, value));
                proof {
                    let t = self.vars@;
                    assert(t == s.update(i as int, (t[i as int].0, value)));
                    assert forall|a: int, b: int| 0 <= a < b < t.len() implies t[a].0@ != t[b].0@ by {
                        if a != i && b != i {
                            assert(t[a] == s[a] && t[b] == s[b]);
                        }
                    }
                    lemma_bindings(t);
                    assert forall|key: Seq<char>| #[trigger] bindings_map(t).contains_key(key)
                        <==> bindings_map(s).insert(k, value).contains_key(key) by {
                        if bindings_map(t).contains_key(key) {
                            let j = choose|j: int| 0 <= j < t.len() && t[j].0@ == key;
                            if j != i {
                                assert(t[j] == s[j]);
                            }
                        }
                        if bindings_map(s).contains_key(key) && key != k {
                            let j = choose|j: int| 0 <= j < s.len() && s[j].0@ == key;
                            assert(t[j] == s[j]);
                        }
                    }
                    assert forall|key: Seq<char>| #[trigger] bindings_map(t).contains_key(key) implies bindings_map(t)[key]
                        == bindings_map(s).insert(k, value)[key] by {
                        let j = choose|j: int| 0 <= j < t.len() && t[j].0@ == key;
                        if j != i {
                            assert(t[j] == s[j]);
                        }
                    }
                    assert(bindings_map(t) =~= bindings_map(s).insert(k, value));
                }
            },
            None => {
                self.vars.push((name, value));
                proof {
                    let t = self.vars@;
                    assert(t.drop_last() =~= s);
                    assert forall|a: int, b: int| 0 <= a < b < t.len() implies t[a].0@ != t[b].0@ by {
                        if b == t.len() - 1 {
                            assert(bindings_map(s).contains_key(s[a].0@));
                        } else {
                            assert(t[a] == s[a] && t[b] == s[b]);
                        }
                    }
                }
            },
        }
    }

    /// Removes the binding of `name` and returns what it was bound to.
    pub fn delete_var(&mut self, name: &str) -> (r: Option<Variant<N>>)
        requires
            old(self).wf(),
        ensures
            final(self).wf(),
            final(self)@ == old(self)@.remove(name@),
            r == (if old(self)@.contains_key(name@) {
                Some(old(self)@[name@])
            } else {
                None::<Variant<N>>
            }),
    {
        let ghost s = self.vars@;
        proof {
            lemma_bindings(s);
        }
        let key = name.to_owned();
        match self.find(&key) {
            Some(i) => {
                let ghost k = key@;
                let (_, v) = self.vars.remove(i);
                proof {
                    let t = self.vars@;
                    assert(t =~= s.remove(i as int));
                    assert forall|a: int, b: int| 0 <= a < b < t.len() implies t[a].0@ != t[b].0@ by {
                        let a2 = if a < i { a } else { a + 1 };
                        let b2 = if b < i { b } else { b + 1 };
                        assert(t[a] == s[a2] && t[b] == s[b2]);
                    }
                    lemma_bindings(t);
                    assert forall|key2: Seq<char>| #[trigger] bindings_map(t).contains_key(key2) <==> bindings_map(s).remove(k).contains_key(key2) by {
                        if bindings_map(t).contains_key(key2) {
                            let j = choose|j: int| 0 <= j < t.len() && t[j].0@ == key2;
                            let j2 = if j < i { j } else { j + 1 };
                            assert(t[j] == s[j2]);
                        }
                        if bindings_map(s).contains_key(key2) && key2 != k {
                            let j = choose|j: int| 0 <= j < s.len() && s[j].0@ == key2;
                            let j2 = if j < i { j } else { j - 1 };
                            assert(t[j2] == s[j]);
                        }
                    }
                    assert forall|key2: Seq<char>| #[trigger] bindings_map(t).contains_key(key2) implies bindings_map(t)[key2]
                        == bindings_map(s)[key2] by {
                        let j = choose|j: int| 0 <= j < t.len() && t[j].0@ == key2;
                        let j2 = if j < i { j } else { j + 1 };
                        assert(t[j] == s[j2]);
                    }
                    assert(bindings_map(t) =~= bindings_map(s).remove(k));
                }
                Some(v)
            },
            None => {
                proof {
                    assert(bindings_map(s).remove(key@) =~= bindings_map(s));
                }
                None
            },
        }
    }
}

/// Once a prefix of the arguments fails, so does every longer prefix, with the
/// same error and environment.
proof fn lemma_args_error<N: Num>(env: Env<N>, args: Seq<ExprView<N>>, i: int)
    requires
        0 <= i <= args.len(),
        eval_args(env, args.subrange(0, i)).0 is Err,
    ensures
        eval_args(env, args) == eval_args(env, args.subrange(0, i)),
    decreases args.len() - i,
{
    if i < args.len() {
        let longer = args.subrange(0, i + 1);
        assert(longer.subrange(0, i) =~= args.subrange(0, i));
        lemma_args_error(env, args, i + 1);
    } else {
        assert(args.subrange(0, i) =~= args);
    }
}

/// True when the tree holds an assignment anywhere.
pub open spec fn has_assign<N>(e: ExprView<N>) -> bool
    decreases e,
{
    match e {
        ExprView::Eq(_, _) => true,
        ExprView::Neg(x) => has_assign(*x),
        ExprView::Op(_, l, r) => has_assign(*l) || has_assign(*r),
        ExprView::FuncOrVarMul(_, args) => args_have_assign(args),
        _ => false,
    }
}

pub open spec fn args_have_assign<N>(args: Seq<ExprView<N>>) -> bool
    decreases args,
{
    if args.len() == 0 {
        false
    } else {
        args_have_assign(args.subrange(0, args.len() - 1)) || has_assign(args[args.len() - 1])
    }
}

/// Evaluating a tree that holds no assignment leaves the environment as it
/// was, so evaluating the same tree again against it gives the same result.
pub proof fn lemma_eval_without_assign<N: Num>(env: Env<N>, e: ExprView<N>)
    requires
        !has_assign(e),
    ensures
        eval_expr(env, e).1 == env,
        eval_expr(eval_expr(env, e).1, e) == eval_expr(env, e),
    decreases e,
{
    match e {
        ExprView::Neg(x) => {
            lemma_eval_without_assign(env, *x);
        },
        ExprView::Op(_, l, r) => {
            lemma_eval_without_assign(env, *l);
            lemma_eval_without_assign(env, *r);
        },
        ExprView::FuncOrVarMul(_, args) => {
            lemma_args_without_assign(env, args);
        },
        _ => {},
    }
}

proof fn lemma_args_without_assign<N: Num>(env: Env<N>, args: Seq<ExprView<N>>)
    requires
        !args_have_assign(args),
    ensures
        eval_args(env, args).1 == env,
    decreases args,
{
    if args.len() > 0 {
        lemma_args_without_assign(env, args.subrange(0, args.len() - 1));
        lemma_eval_without_assign(env, args[args.len() - 1]);
    }
}

} // verus!
