use linecalc::interner::Interner;
use linecalc::raw_token::{parse_raw_tokens, LexError, Lexeme, RawToken, Symbol};
use linecalc::run::{Evaluator, RunError, Stack, State, StepEvent};
use linecalc::span::{Span, Spanned};
use linecalc::tokens::{
    mode_of, resolved_tokens, transition, Associativity, Mode, Operator, Ordering,
    ProcessorError, StackEntry, Token, Value,
};

/// Lexes one line and turns number lexemes into encoded doubles.
fn lex_line(
    line: &str,
    interner: &mut Interner,
) -> Result<Vec<Spanned<RawToken>>, Spanned<LexError>> {
    let chars: Vec<char> = line.chars().collect();
    let lexemes = parse_raw_tokens(&chars, interner)?;
    let mut raw = Vec::new();
    for l in lexemes {
        let token = match l.inner {
            Lexeme::Ident(id) => RawToken::Ident(id),
            Lexeme::Symbol(s) => RawToken::Symbol(s),
            Lexeme::Number => {
                let text: String = chars[l.span.start..l.span.end].iter().collect();
                let value: f64 = text.parse().expect("the lexer only accepts valid literals");
                RawToken::Number(value.to_bits())
            }
        };
        raw.push(Spanned {
            inner: token,
            span: l.span,
        });
    }
    Ok(raw)
}

/// Drives the evaluator, doing the double-precision arithmetic and
/// formatting it asks for; returns the final stack on success.
fn eval_tokens(
    tokens: Vec<Spanned<Token>>,
    state: &mut State,
    out: &mut String,
) -> Result<Vec<Spanned<Stack>>, Spanned<RunError>> {
    let mut ev = Evaluator::new(tokens);
    loop {
        match ev.step(state) {
            StepEvent::Continue => {}
            StepEvent::Compute { op, left, right } => {
                let l = f64::from_bits(left);
                let r = f64::from_bits(right);
                let computed = match op {
                    Operator::Add => l + r,
                    Operator::Sub => l - r,
                    Operator::Mul => l * r,
                    Operator::Div => l / r,
                    _ => unreachable!("only arithmetic operators ask for computation"),
                };
                ev.provide(computed.to_bits());
            }
            StepEvent::Output { value } => {
                out.push_str(&format!(" {}", f64::from_bits(value)));
            }
            StepEvent::Done => return Ok(ev.stack_entries().clone()),
            StepEvent::Failed(e) => return Err(e),
        }
    }
}

#[derive(Debug)]
enum LineError {
    Lex(Spanned<LexError>),
    Structure(Spanned<ProcessorError>),
    Run(Spanned<RunError>),
}

/// The whole pipeline for one line against a persistent session.
fn run_line(
    line: &str,
    interner: &mut Interner,
    state: &mut State,
    out: &mut String,
) -> Result<Vec<Spanned<Stack>>, LineError> {
    let raw = lex_line(line, interner).map_err(LineError::Lex)?;
    let tokens = resolved_tokens(&raw).map_err(LineError::Structure)?;
    eval_tokens(tokens, state, out).map_err(LineError::Run)
}

fn span(start: usize, end: usize) -> Span {
    Span { start, end }
}

#[test]
fn raw_token_test() {
    let mut interner = Interner::new();
    let tokens: Vec<RawToken> = lex_line("a = 1 + 2\n", &mut interner)
        .unwrap()
        .into_iter()
        .map(|t| t.inner)
        .collect();
    let id = interner.insert(&vec!['a']);
    assert_eq!(
        tokens,
        vec![
            RawToken::Ident(id),
            RawToken::Symbol(Symbol::Equals),
            RawToken::Number(1.0f64.to_bits()),
            RawToken::Symbol(Symbol::Add),
            RawToken::Number(2.0f64.to_bits()),
        ]
    );
}

#[test]
fn tokens_test() {
    let tokens = vec![
        RawToken::Ident(0),
        RawToken::Symbol(Symbol::Equals),
        RawToken::Number(1.0f64.to_bits()),
        RawToken::Symbol(Symbol::Add),
        RawToken::Number(2.0f64.to_bits()),
    ];
    let raw: Vec<Spanned<RawToken>> = tokens
        .into_iter()
        .map(|t| Spanned {
            inner: t,
            span: span(0, 0),
        })
        .collect();
    let resolved = resolved_tokens(&raw).unwrap();
    let expected: Vec<Spanned<Token>> = vec![
        Token::Value(Value::Ident(0)),
        Token::Value(Value::Number(1.0f64.to_bits())),
        Token::Value(Value::Number(2.0f64.to_bits())),
        Token::Operator(Operator::Add),
        Token::Operator(Operator::Equals),
    ]
    .into_iter()
    .map(|t| Spanned {
        inner: t,
        span: span(0, 0),
    })
    .collect();
    assert_eq!(resolved, expected);
}

#[test]
fn precedence_gives_postfix_order() {
    let mut interner = Interner::new();
    let raw = lex_line("1 + 2 * 3 - 4", &mut interner).unwrap();
    let inner: Vec<Token> = resolved_tokens(&raw)
        .unwrap()
        .into_iter()
        .map(|t| t.inner)
        .collect();
    let n = |v: f64| Token::Value(Value::Number(v.to_bits()));
    assert_eq!(
        inner,
        vec![
            n(1.0),
            n(2.0),
            n(3.0),
            Token::Operator(Operator::Mul),
            Token::Operator(Operator::Add),
            n(4.0),
            Token::Operator(Operator::Sub),
        ]
    );
}

#[test]
fn brackets_reorder_and_vanish() {
    let mut interner = Interner::new();
    let raw = lex_line("(1 + 2) * 3", &mut interner).unwrap();
    let inner: Vec<Token> = resolved_tokens(&raw)
        .unwrap()
        .into_iter()
        .map(|t| t.inner)
        .collect();
    let n = |v: f64| Token::Value(Value::Number(v.to_bits()));
    assert_eq!(
        inner,
        vec![
            n(1.0),
            n(2.0),
            Token::Operator(Operator::Add),
            n(3.0),
            Token::Operator(Operator::Mul),
        ]
    );
}

#[test]
fn unclosed_left_bracket_fails_at_its_span() {
    let mut interner = Interner::new();
    let raw = lex_line("(1 + 2", &mut interner).unwrap();
    let err = resolved_tokens(&raw).unwrap_err();
    assert_eq!(err.inner, ProcessorError::UnclosedLeftBracket);
    assert_eq!(err.span, span(0, 1));
}

#[test]
fn unclosed_right_bracket_fails_at_its_span() {
    let mut interner = Interner::new();
    let raw = lex_line("2 + 3)", &mut interner).unwrap();
    let err = resolved_tokens(&raw).unwrap_err();
    assert_eq!(err.inner, ProcessorError::UnclosedRightBracket);
    assert_eq!(err.span, span(5, 6));
}

#[test]
fn consecutive_semicolons_collapse_to_one_null() {
    let mut interner = Interner::new();
    let mut state = State::new();
    let mut out = String::new();
    let stack = run_line(";;;", &mut interner, &mut state, &mut out).unwrap();
    assert_eq!(stack.len(), 1);
    assert_eq!(stack[0].inner, Stack::Null);
    assert_eq!(stack[0].span, span(0, 3));
    assert_eq!(out, "");
}

#[test]
fn environment_persists_across_calls() {
    let mut interner = Interner::new();
    let mut state = State::new();
    let mut out = String::new();
    run_line("a = 1 + 2;", &mut interner, &mut state, &mut out).unwrap();
    let a = interner.insert(&vec!['a']);
    assert_eq!(state.lookup(a), Some(3.0f64.to_bits()));
    run_line("% a;", &mut interner, &mut state, &mut out).unwrap();
    assert_eq!(out, " 3");
}

#[test]
fn unbound_variable_use_fails_at_its_span() {
    let mut interner = Interner::new();
    let mut state = State::new();
    let mut out = String::new();
    let err = run_line("a + 1;", &mut interner, &mut state, &mut out);
    match err {
        Err(LineError::Run(e)) => {
            assert_eq!(e.inner, RunError::UnassignedVariable);
            assert_eq!(e.span, span(0, 1));
        }
        _ => panic!("expected a runtime error"),
    }
}

#[test]
fn bare_unbound_statement_fails() {
    let mut interner = Interner::new();
    let mut state = State::new();
    let mut out = String::new();
    let err = run_line("a", &mut interner, &mut state, &mut out);
    match err {
        Err(LineError::Run(e)) => {
            assert_eq!(e.inner, RunError::UnassignedVariable);
            assert_eq!(e.span, span(0, 1));
        }
        _ => panic!("expected a runtime error"),
    }
}

#[test]
fn print_after_value_is_structural_error() {
    let mut interner = Interner::new();
    let raw = lex_line("5 % ;", &mut interner).unwrap();
    let err = resolved_tokens(&raw).unwrap_err();
    assert_eq!(err.inner, ProcessorError::DidNotExpectExpression);
    assert_eq!(err.span, span(2, 3));
}

#[test]
fn print_prefix_outputs_value() {
    let mut interner = Interner::new();
    let mut state = State::new();
    let mut out = String::new();
    run_line("% 5;", &mut interner, &mut state, &mut out).unwrap();
    assert_eq!(out, " 5");
}

#[test]
fn bracketed_assignment_binds_value() {
    let mut interner = Interner::new();
    let mut state = State::new();
    let mut out = String::new();
    run_line("x = 2 * (3 + 4);", &mut interner, &mut state, &mut out).unwrap();
    let x = interner.insert(&vec!['x']);
    assert_eq!(state.lookup(x), Some(14.0f64.to_bits()));
}

#[test]
fn division_by_zero_is_infinity_not_an_error() {
    let mut interner = Interner::new();
    let mut state = State::new();
    let mut out = String::new();
    run_line("i = 1 / 0;", &mut interner, &mut state, &mut out).unwrap();
    let i = interner.insert(&vec!['i']);
    assert_eq!(state.lookup(i), Some(f64::INFINITY.to_bits()));
}

#[test]
fn two_dots_is_an_invalid_literal() {
    let mut interner = Interner::new();
    let err = lex_line("1.2.3;", &mut interner).unwrap_err();
    assert_eq!(err.inner, LexError::InvalidNumberLiteral);
    assert_eq!(err.span, span(0, 5));
}

#[test]
fn one_dot_literal_is_accepted() {
    let mut interner = Interner::new();
    let mut state = State::new();
    let mut out = String::new();
    run_line("h = 1.5 + 2.25;", &mut interner, &mut state, &mut out).unwrap();
    let h = interner.insert(&vec!['h']);
    assert_eq!(state.lookup(h), Some(3.75f64.to_bits()));
}

#[test]
fn unknown_character_fails_at_its_span() {
    let mut interner = Interner::new();
    let err = lex_line("1 + #", &mut interner).unwrap_err();
    assert_eq!(err.inner, LexError::UnexpectedCharacter);
    assert_eq!(err.span, span(4, 5));
}

#[test]
fn operator_without_value_is_structural_error() {
    let mut interner = Interner::new();
    let raw = lex_line("= 1;", &mut interner).unwrap();
    let err = resolved_tokens(&raw).unwrap_err();
    assert_eq!(err.inner, ProcessorError::ExpectedExpression);
    assert_eq!(err.span, span(0, 1));
}

#[test]
fn value_after_value_is_structural_error() {
    let mut interner = Interner::new();
    let raw = lex_line("1 2", &mut interner).unwrap();
    let err = resolved_tokens(&raw).unwrap_err();
    assert_eq!(err.inner, ProcessorError::DidNotExpectExpression);
    assert_eq!(err.span, span(2, 3));
}

#[test]
fn assigning_to_a_computed_value_fails() {
    let mut interner = Interner::new();
    let mut state = State::new();
    let mut out = String::new();
    let err = run_line("1 = 2;", &mut interner, &mut state, &mut out);
    match err {
        Err(LineError::Run(e)) => {
            assert_eq!(e.inner, RunError::AssigningToExpression);
            assert_eq!(e.span, span(0, 1));
        }
        _ => panic!("expected a runtime error"),
    }
}

#[test]
fn assigning_to_null_fails() {
    let tokens = vec![
        Spanned {
            inner: Token::Operator(Operator::Semicolon),
            span: span(0, 1),
        },
        Spanned {
            inner: Token::Value(Value::Number(2.0f64.to_bits())),
            span: span(2, 3),
        },
        Spanned {
            inner: Token::Operator(Operator::Equals),
            span: span(4, 5),
        },
    ];
    let mut state = State::new();
    let mut out = String::new();
    let err = eval_tokens(tokens, &mut state, &mut out).unwrap_err();
    assert_eq!(err.inner, RunError::AssigningToNull);
    assert_eq!(err.span, span(0, 1));
}

#[test]
fn using_null_as_operand_fails() {
    let tokens = vec![
        Spanned {
            inner: Token::Operator(Operator::Semicolon),
            span: span(0, 1),
        },
        Spanned {
            inner: Token::Value(Value::Number(1.0f64.to_bits())),
            span: span(2, 3),
        },
        Spanned {
            inner: Token::Operator(Operator::Add),
            span: span(4, 5),
        },
    ];
    let mut state = State::new();
    let mut out = String::new();
    let err = eval_tokens(tokens, &mut state, &mut out).unwrap_err();
    assert_eq!(err.inner, RunError::AttemptedToUseNull);
    assert_eq!(err.span, span(0, 1));
}

#[test]
fn printing_null_fails() {
    let tokens = vec![
        Spanned {
            inner: Token::Operator(Operator::Semicolon),
            span: span(0, 1),
        },
        Spanned {
            inner: Token::Operator(Operator::Print),
            span: span(2, 3),
        },
    ];
    let mut state = State::new();
    let mut out = String::new();
    let err = eval_tokens(tokens, &mut state, &mut out).unwrap_err();
    assert_eq!(err.inner, RunError::AttemptedToPrintNull);
    assert_eq!(err.span, span(0, 1));
}

#[test]
fn operator_on_empty_stack_is_malformed() {
    let mut interner = Interner::new();
    let mut state = State::new();
    let mut out = String::new();
    let err = run_line("% ;", &mut interner, &mut state, &mut out);
    match err {
        Err(LineError::Run(e)) => {
            assert_eq!(e.inner, RunError::MalformedExpression);
            assert_eq!(e.span, span(0, 1));
        }
        _ => panic!("expected a runtime error"),
    }
}

#[test]
fn assignment_chains_bind_right_to_left() {
    let mut interner = Interner::new();
    let mut state = State::new();
    let mut out = String::new();
    run_line("a = b = 5;", &mut interner, &mut state, &mut out).unwrap();
    let a = interner.insert(&vec!['a']);
    let b = interner.insert(&vec!['b']);
    assert_eq!(state.lookup(a), Some(5.0f64.to_bits()));
    assert_eq!(state.lookup(b), Some(5.0f64.to_bits()));
}

#[test]
fn assignment_overwrites_prior_binding() {
    let mut interner = Interner::new();
    let mut state = State::new();
    let mut out = String::new();
    run_line("a = 1;", &mut interner, &mut state, &mut out).unwrap();
    run_line("a = 2;", &mut interner, &mut state, &mut out).unwrap();
    let a = interner.insert(&vec!['a']);
    assert_eq!(state.lookup(a), Some(2.0f64.to_bits()));
}

#[test]
fn bindings_before_an_error_remain() {
    let mut interner = Interner::new();
    let mut state = State::new();
    let mut out = String::new();
    let err = run_line("a = 1; b + 1;", &mut interner, &mut state, &mut out);
    assert!(matches!(err, Err(LineError::Run(_))));
    let a = interner.insert(&vec!['a']);
    assert_eq!(state.lookup(a), Some(1.0f64.to_bits()));
}

#[test]
fn interner_reuses_handles_and_resolves_spellings() {
    let mut interner = Interner::new();
    let ab = interner.insert(&vec!['a', 'b']);
    let cd = interner.insert(&vec!['c', 'd']);
    assert_ne!(ab, cd);
    assert_eq!(interner.insert(&vec!['a', 'b']), ab);
    assert_eq!(interner.len(), 2);
    assert_eq!(interner.spelling(cd), &vec!['c', 'd']);
}

#[test]
fn whitespace_is_skipped_and_spans_are_exact() {
    let mut interner = Interner::new();
    let raw = lex_line("  ab  12 ", &mut interner).unwrap();
    assert_eq!(raw.len(), 2);
    assert_eq!(raw[0].span, span(2, 4));
    assert_eq!(raw[1].span, span(6, 8));
    assert!(matches!(raw[0].inner, RawToken::Ident(_)));
    assert_eq!(raw[1].inner, RawToken::Number(12.0f64.to_bits()));
}

#[test]
fn print_leaves_entry_usable() {
    let mut interner = Interner::new();
    let mut state = State::new();
    let mut out = String::new();
    run_line("x = % 7;", &mut interner, &mut state, &mut out).unwrap();
    assert_eq!(out, " 7");
    let x = interner.insert(&vec!['x']);
    assert_eq!(state.lookup(x), Some(7.0f64.to_bits()));
}

#[test]
fn subtraction_and_division_group_left() {
    let mut interner = Interner::new();
    let mut state = State::new();
    let mut out = String::new();
    run_line("s = 10 - 2 - 3;", &mut interner, &mut state, &mut out).unwrap();
    run_line("d = 8 / 2 / 2;", &mut interner, &mut state, &mut out).unwrap();
    let s = interner.insert(&vec!['s']);
    let d = interner.insert(&vec!['d']);
    assert_eq!(state.lookup(s), Some(5.0f64.to_bits()));
    assert_eq!(state.lookup(d), Some(2.0f64.to_bits()));
}

#[test]
fn nested_brackets_resolve() {
    let mut interner = Interner::new();
    let mut state = State::new();
    let mut out = String::new();
    run_line("n = ((2 + 3)) * (1 + 1);", &mut interner, &mut state, &mut out).unwrap();
    let n = interner.insert(&vec!['n']);
    assert_eq!(state.lookup(n), Some(10.0f64.to_bits()));
}

#[test]
fn final_statement_flushes_without_semicolon() {
    let mut interner = Interner::new();
    let mut state = State::new();
    let mut out = String::new();
    run_line("a = 4", &mut interner, &mut state, &mut out).unwrap();
    let a = interner.insert(&vec!['a']);
    assert_eq!(state.lookup(a), Some(4.0f64.to_bits()));
}

#[test]
fn leading_minus_is_structural_error() {
    let mut interner = Interner::new();
    let raw = lex_line("-1;", &mut interner).unwrap();
    let err = resolved_tokens(&raw).unwrap_err();
    assert_eq!(err.inner, ProcessorError::ExpectedExpression);
    assert_eq!(err.span, span(0, 1));
}

#[test]
fn evaluator_steps_through_compute_protocol() {
    let mut interner = Interner::new();
    let raw = lex_line("1 + 2;", &mut interner).unwrap();
    let tokens = resolved_tokens(&raw).unwrap();
    let mut state = State::new();
    let mut ev = Evaluator::new(tokens);
    assert!(!ev.is_done());
    assert!(matches!(ev.step(&mut state), StepEvent::Continue));
    assert!(matches!(ev.step(&mut state), StepEvent::Continue));
    let event = ev.step(&mut state);
    match event {
        StepEvent::Compute { op, left, right } => {
            assert_eq!(op, Operator::Add);
            assert_eq!(left, 1.0f64.to_bits());
            assert_eq!(right, 2.0f64.to_bits());
        }
        _ => panic!("expected a computation request"),
    }
    assert!(ev.is_awaiting());
    ev.provide(3.0f64.to_bits());
    assert!(!ev.is_awaiting());
    assert!(matches!(ev.step(&mut state), StepEvent::Continue));
    assert!(matches!(ev.step(&mut state), StepEvent::Continue));
    assert!(matches!(ev.step(&mut state), StepEvent::Done));
    assert!(ev.is_done());
    assert!(!ev.is_failed());
}

#[test]
fn transition_classifies_by_mode() {
    let lp = Spanned {
        inner: RawToken::Symbol(Symbol::LeftParen),
        span: span(0, 1),
    };
    match transition(Mode::ExpectValue, lp) {
        Ok(StackEntry::Ordering(o)) => {
            assert_eq!(o.inner, Ordering::LeftParen);
            assert_eq!(mode_of(&StackEntry::Ordering(o)), Mode::ExpectValue);
        }
        _ => panic!("a left bracket should become an ordering entry"),
    }
    let print = Spanned {
        inner: RawToken::Symbol(Symbol::Print),
        span: span(2, 3),
    };
    let err = transition(Mode::ExpectOperator, print).unwrap_err();
    assert_eq!(err.inner, ProcessorError::DidNotExpectExpression);
    assert_eq!(err.span, span(2, 3));
}

#[test]
fn precedence_table_is_fixed() {
    assert_eq!(Operator::Semicolon.precedence(), 0);
    assert_eq!(Operator::Equals.precedence(), 1);
    assert_eq!(Operator::Add.precedence(), 2);
    assert_eq!(Operator::Sub.precedence(), 2);
    assert_eq!(Operator::Mul.precedence(), 3);
    assert_eq!(Operator::Div.precedence(), 3);
    assert_eq!(Operator::Print.precedence(), 4);
    assert_eq!(Operator::Equals.associativity(), Associativity::Right);
    assert_eq!(Operator::Print.associativity(), Associativity::Right);
    assert_eq!(Operator::Add.associativity(), Associativity::Left);
    assert_eq!(Operator::Semicolon.associativity(), Associativity::Left);
}
