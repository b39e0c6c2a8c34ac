use rsc::{
    ensure_arg_count, evaluate, parse, tokenize, tokenize_with_options, Builtin, EvalError, Expr,
    InterpretError, Interpreter, Num, OpVal, ParseErrorCode, SymbolVal, TokenValue,
    TokenizeErrorCode, TokenizeOptions, Variant,
};

fn eval_in(env: &mut Interpreter<i64>, src: &str) -> Result<i64, EvalError<i64>> {
    evaluate(src, env)
}

fn eval_default(src: &str) -> Result<i64, EvalError<i64>> {
    let mut env: Interpreter<i64> = Interpreter::default();
    evaluate(src, &mut env)
}

#[test]
fn numeral_is_one_token() {
    let tokens = tokenize::<i64>("123").unwrap();
    assert_eq!(tokens.len(), 1);
    assert_eq!(tokens[0].value, TokenValue::Num(123));
    assert_eq!(tokens[0].span, 0..3);
    assert_eq!("123".parse::<i64>().unwrap(), 123);
}

#[test]
fn malformed_numeral_is_invalid_number() {
    let err = tokenize::<i64>("1.2.3 + 4").unwrap_err();
    assert_eq!(err.code, TokenizeErrorCode::InvalidNumber("1.2.3".to_string()));
    assert_eq!(err.span, 0..5);
}

#[test]
fn unrecognized_char_stops_tokenizing() {
    let err = tokenize::<i64>("2 # 3").unwrap_err();
    assert_eq!(err.code, TokenizeErrorCode::UnrecognizedChar('#'));
    assert_eq!(err.span, 2..3);
}

#[test]
fn tokens_carry_spans() {
    let tokens = tokenize::<i64>("abs(x_1, 20)").unwrap();
    let values: Vec<TokenValue<i64>> = tokens.iter().map(|t| t.value.clone()).collect();
    assert_eq!(
        values,
        vec![
            TokenValue::Id("abs".to_string()),
            TokenValue::Symbol(SymbolVal::LP),
            TokenValue::Id("x_1".to_string()),
            TokenValue::Symbol(SymbolVal::Comma),
            TokenValue::Num(20),
            TokenValue::Symbol(SymbolVal::RP),
        ]
    );
    assert_eq!(tokens[2].span, 4..7);
    assert_eq!(tokens[4].span, 9..11);
}

#[test]
fn assignment_is_visible_later() {
    let mut env: Interpreter<i64> = Interpreter::default();
    assert_eq!(eval_in(&mut env, "x = 5"), Ok(5));
    assert_eq!(eval_in(&mut env, "x^2"), Ok(25));
}

#[test]
fn multiplication_binds_tighter_than_addition() {
    assert_eq!(eval_default("2 + 3 * 4"), Ok(14));
}

#[test]
fn exponent_folds_to_the_left() {
    assert_eq!(eval_default("2 ^ 3 ^ 2"), Ok(64));
}

#[test]
fn juxtaposed_group_multiplies() {
    assert_eq!(eval_default("5(3)"), Ok(15));
    assert_eq!(eval_default("7 * 54(2)"), eval_default("7 * 54 * 2"));
    assert_eq!(eval_default("7 * 54(2)"), Ok(756));
    assert_eq!(eval_default("(2)(3)(4)"), Ok(24));
}

#[test]
fn decimal_numeral_is_rejected_by_integers() {
    let a = eval_default("5.324 * 54(2)");
    let b = eval_default("5.324 * 54 * 2");
    assert_eq!(a, b);
    assert!(matches!(
        a,
        Err(EvalError::Tokenize(e)) if e.code == TokenizeErrorCode::InvalidNumber("5.324".to_string())
    ));
}

#[test]
fn function_and_number_calls_are_told_apart() {
    let mut env: Interpreter<i64> = Interpreter::default();
    env.set_var("x".to_string(), Variant::Num(2));
    assert_eq!(eval_in(&mut env, "sqrt(4)"), Ok(2));
    assert_eq!(eval_in(&mut env, "x(3)"), Ok(6));
    assert_eq!(
        eval_in(&mut env, "x(3, 4)"),
        Err(EvalError::Interpret(InterpretError::VarIsNotFunction("x".to_string())))
    );
    assert_eq!(
        eval_in(&mut env, "sqrt + 1"),
        Err(EvalError::Interpret(InterpretError::FunctionNameUsedLikeVar("sqrt".to_string())))
    );
}

#[test]
fn unexpected_token_points_at_it() {
    let tokens = tokenize::<i64>("2 + )").unwrap();
    let err = parse(&tokens).unwrap_err();
    assert_eq!(err.span, 4..5);
    match err.code {
        ParseErrorCode::UnexpectedToken(t) => {
            assert_eq!(t.value, TokenValue::Symbol(SymbolVal::RP));
            assert_eq!(t.span, 4..5);
        }
        other => panic!("unexpected code {:?}", other),
    }
}

#[test]
fn arity_is_enforced() {
    assert_eq!(
        eval_default("abs()"),
        Err(EvalError::Interpret(InterpretError::TooFewArgs("abs".to_string(), 1)))
    );
    assert_eq!(
        eval_default("abs(1, 2)"),
        Err(EvalError::Interpret(InterpretError::TooManyArgs("abs".to_string(), 1)))
    );
    assert_eq!(eval_default("abs(0 - 7)"), Ok(7));
}

#[test]
fn unbound_identifier_is_reported() {
    let mut env: Interpreter<i64> = Interpreter::new();
    assert_eq!(
        eval_in(&mut env, "y + 1"),
        Err(EvalError::Interpret(InterpretError::VarDoesNotExist("y".to_string())))
    );
}

#[test]
fn evaluating_twice_gives_the_same_result() {
    let tokens = tokenize::<i64>("pi * 2 + abs(0 - 3)").unwrap();
    let tree = parse(&tokens).unwrap();
    let mut env: Interpreter<i64> = Interpreter::default();
    let first = env.eval(&tree);
    let second = env.eval(&tree);
    assert_eq!(first, Ok(9));
    assert_eq!(first, second);
}

#[test]
fn trailing_tokens_are_an_error() {
    let tokens = tokenize::<i64>("2 3").unwrap();
    let err = parse(&tokens).unwrap_err();
    assert_eq!(err.span, 2..3);
    assert!(matches!(err.code, ParseErrorCode::UnexpectedToken(_)));
}

#[test]
fn end_of_input_points_past_the_last_token() {
    let tokens = tokenize::<i64>("2 +").unwrap();
    let err = parse(&tokens).unwrap_err();
    assert_eq!(err.code, ParseErrorCode::UnexpectedEOF);
    assert_eq!(err.span, 3..3);
    let empty = tokenize::<i64>("").unwrap();
    let err = parse(&empty).unwrap_err();
    assert_eq!(err.code, ParseErrorCode::UnexpectedEOF);
    assert_eq!(err.span, 0..0);
}

#[test]
fn implicit_product_needs_closing_paren() {
    let tokens = tokenize::<i64>("2(3 4").unwrap();
    let err = parse(&tokens).unwrap_err();
    assert_eq!(err.code, ParseErrorCode::ExpectedClosingParen);
    assert_eq!(err.span, 4..5);
}

#[test]
fn factorial_and_pipes_call_builtins() {
    let tokens = tokenize::<i64>("3!").unwrap();
    let tree = parse(&tokens).unwrap();
    assert_eq!(tree, Expr::FuncOrVarMul("factorial".to_string(), vec![Expr::Num(3)]));
    assert_eq!(eval_default("5!"), Ok(120));
    assert_eq!(eval_default("3!!"), Ok(720));
    assert_eq!(eval_default("|2 - 9|"), Ok(7));
}

#[test]
fn unary_minus_takes_the_rest_of_the_expression() {
    assert_eq!(eval_default("-2^2"), Ok(-4));
    assert_eq!(eval_default("-2 + 3"), Ok(-5));
    assert_eq!(eval_default("1 - -2"), Ok(3));
}

#[test]
fn arithmetic_without_a_value_is_an_error() {
    assert_eq!(
        eval_default("1 / 0"),
        Err(EvalError::Interpret(InterpretError::ArithmeticError(OpVal::Div)))
    );
    assert_eq!(
        eval_default("5 % 0"),
        Err(EvalError::Interpret(InterpretError::ArithmeticError(OpVal::Mod)))
    );
    assert_eq!(
        eval_default("9223372036854775807 + 1"),
        Err(EvalError::Interpret(InterpretError::ArithmeticError(OpVal::Add)))
    );
    assert_eq!(
        eval_default("2 ^ 63"),
        Err(EvalError::Interpret(InterpretError::ArithmeticError(OpVal::Pow)))
    );
    assert_eq!(eval_default("2 ^ 62"), Ok(4611686018427387904));
    assert_eq!(eval_default("-7 / 2"), Ok(-3));
    assert_eq!(eval_default("7 % 0 - 3"), Err(EvalError::Interpret(InterpretError::ArithmeticError(OpVal::Mod))));
    assert_eq!(eval_default("(0 - 7) % 3"), Ok(-1));
}

#[test]
fn builtins_reject_arguments_without_a_value() {
    assert_eq!(
        eval_default("factorial(0 - 1)"),
        Err(EvalError::Interpret(InterpretError::InvalidArgument("factorial".to_string())))
    );
    assert_eq!(
        eval_default("sqrt(0 - 4)"),
        Err(EvalError::Interpret(InterpretError::InvalidArgument("sqrt".to_string())))
    );
    assert_eq!(eval_default("sqrt(17)"), Ok(4));
    assert_eq!(eval_default("factorial(0)"), Ok(1));
    assert_eq!(eval_default("factorial(20)"), Ok(2432902008176640000));
    assert_eq!(
        eval_default("factorial(21)"),
        Err(EvalError::Interpret(InterpretError::InvalidArgument("factorial".to_string())))
    );
}

#[test]
fn assignment_to_a_non_variable_is_unsupported() {
    assert_eq!(
        eval_default("2 = 3"),
        Err(EvalError::Interpret(InterpretError::UnsupportedAssignment))
    );
}

#[test]
fn assignments_before_an_error_stay() {
    let mut env: Interpreter<i64> = Interpreter::new();
    assert!(eval_in(&mut env, "(a = 4) + b").is_err());
    assert_eq!(env.get("a"), Some(Variant::Num(4)));
}

#[test]
fn bindings_can_be_set_and_deleted() {
    let mut env: Interpreter<i64> = Interpreter::default();
    assert_eq!(env.get("pi"), Some(Variant::Num(3)));
    assert_eq!(env.get("sqrt"), Some(Variant::Function(Builtin::Sqrt)));
    assert_eq!(env.vars().len(), 6);
    env.set_var("sqrt".to_string(), Variant::Num(10));
    assert_eq!(eval_in(&mut env, "sqrt(2)"), Ok(20));
    assert_eq!(env.delete_var("sqrt"), Some(Variant::Num(10)));
    assert_eq!(env.delete_var("sqrt"), None);
    assert_eq!(env.vars().len(), 5);
}

#[test]
fn identifier_digits_follow_the_option() {
    let tokens = tokenize_with_options::<i64>(
        "x2",
        TokenizeOptions { identifiers_contain_numbers: true },
    )
    .unwrap();
    assert_eq!(tokens.len(), 1);
    assert_eq!(tokens[0].value, TokenValue::Id("x2".to_string()));
}

#[test]
fn arity_check_reports_bounds() {
    assert_eq!(ensure_arg_count(1, 2, 1, "f"), Ok(()));
    assert_eq!(
        ensure_arg_count(1, 2, 0, "f"),
        Err(InterpretError::TooFewArgs("f".to_string(), 1))
    );
    assert_eq!(
        ensure_arg_count(1, 2, 3, "f"),
        Err(InterpretError::TooManyArgs("f".to_string(), 2))
    );
}

#[test]
fn builtin_call_applies_the_function() {
    assert_eq!(Builtin::Abs.call("abs", &[-5i64]), Ok(5));
    assert_eq!(Builtin::Sqrt.call("root", &[99i64]), Ok(9));
    assert_eq!(Builtin::Factorial.call("factorial", &[6i64]), Ok(720));
    assert_eq!(
        Builtin::Abs.call("abs", &[i64::MIN]),
        Err(InterpretError::InvalidArgument("abs".to_string()))
    );
}

#[test]
fn numeric_operations_on_i64() {
    assert_eq!(<i64 as Num>::parse("0042"), Some(42));
    assert_eq!(<i64 as Num>::parse("9223372036854775808"), None);
    assert_eq!(<i64 as Num>::parse("1.5"), None);
    assert_eq!(3i64.try_pow(&4), Some(81));
    assert_eq!((-2i64).try_pow(&3), Some(-8));
    assert_eq!((-1i64).try_pow(&1000001), Some(-1));
    assert_eq!(0i64.try_pow(&0), Some(1));
    assert_eq!(2i64.try_pow(&-1), None);
    assert_eq!(i64::MIN.try_neg(), None);
    assert_eq!(7i64.try_rem(&-3), Some(1));
    assert_eq!(i64::MIN.try_div(&-1), None);
}

#[test]
fn thirty_two_bit_integers_have_their_own_range() {
    let mut env: Interpreter<i32> = Interpreter::default();
    assert_eq!(evaluate("2 ^ 30 + (2 ^ 30 - 1)", &mut env), Ok(i32::MAX));
    assert_eq!(
        evaluate("2 ^ 31", &mut env),
        Err(EvalError::Interpret(InterpretError::ArithmeticError(OpVal::Pow)))
    );
    assert_eq!(evaluate("sqrt(2147483647)", &mut env), Ok(46340));
    assert_eq!(evaluate("12!", &mut env), Ok(479001600));
    assert_eq!(
        evaluate("13!", &mut env),
        Err(EvalError::Interpret(InterpretError::InvalidArgument("factorial".to_string())))
    );
    assert_eq!(<i32 as Num>::parse("2147483648"), None);
    assert_eq!(<i32 as Num>::parse("2147483647"), Some(i32::MAX));
}

#[test]
fn cloned_tree_evaluates_alike() {
    let tokens = tokenize::<i64>("f(2, 3) + |0 - 4|!").unwrap();
    let tree = parse(&tokens).unwrap();
    let copy = tree.clone();
    assert_eq!(copy, tree);
    let mut env: Interpreter<i64> = Interpreter::default();
    assert_eq!(
        env.eval(&copy),
        Err(InterpretError::VarDoesNotExist("f".to_string()))
    );
}

#[test]
fn spans_count_bytes() {
    let tokens = tokenize::<i64>("é + ñu").unwrap();
    assert_eq!(tokens.len(), 3);
    assert_eq!(tokens[0].value, TokenValue::Id("é".to_string()));
    assert_eq!(tokens[0].span, 0..2);
    assert_eq!(tokens[1].span, 3..4);
    assert_eq!(tokens[2].value, TokenValue::Id("ñu".to_string()));
    assert_eq!(tokens[2].span, 5..8);
    let err = tokenize::<i64>("ü ⊕").unwrap_err();
    assert_eq!(err.code, TokenizeErrorCode::UnrecognizedChar('⊕'));
    assert_eq!(err.span, 3..6);
}

#[test]
fn parenthesized_text_reads_back_as_its_tree() {
    let tokens = tokenize::<i64>("((2^3)-(4/(-2)))").unwrap();
    let tree = parse(&tokens).unwrap();
    let expected = Expr::Op(
        OpVal::Sub,
        Box::new(Expr::Op(OpVal::Pow, Box::new(Expr::Num(2)), Box::new(Expr::Num(3)))),
        Box::new(Expr::Op(
            OpVal::Div,
            Box::new(Expr::Num(4)),
            Box::new(Expr::Neg(Box::new(Expr::Num(2)))),
        )),
    );
    assert_eq!(tree, expected);
    let mut env: Interpreter<i64> = Interpreter::default();
    assert_eq!(env.eval(&tree), Ok(10));
    let call = parse(&tokenize::<i64>("(abs(x,(1+y)))").unwrap()).unwrap();
    assert_eq!(
        call,
        Expr::FuncOrVarMul(
            "abs".to_string(),
            vec![
                Expr::Var("x".to_string()),
                Expr::Op(OpVal::Add, Box::new(Expr::Num(1)), Box::new(Expr::Var("y".to_string()))),
            ],
        )
    );
}

#[test]
fn evaluate_reports_the_failing_stage() {
    let mut env: Interpreter<i64> = Interpreter::new();
    match evaluate("(1 + 2", &mut env) {
        Err(EvalError::Parse(e)) => {
            assert_eq!(e.code, ParseErrorCode::UnexpectedEOF);
            assert_eq!(e.span, 6..6);
        }
        other => panic!("unexpected result {:?}", other),
    }
    assert!(env.vars().is_empty());
}
