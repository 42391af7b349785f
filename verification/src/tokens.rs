//! The resolver: consumes spanned raw tokens and reorders the ambiguous
//! infix stream into an unambiguous, precedence- and associativity-correct
//! evaluation order (postfix form), or reports a structural error.
//!
//! It runs an expectation state machine (expect a value / expect an
//! operator) combined with a precedence table and an operator/ordering
//! stack of spanned entries. Value tokens are emitted immediately in input
//! order; operators wait on the stack until an incoming token of lower or
//! equal binding forces them out; brackets only reshape the stack and are
//! never emitted.

use vstd::prelude::*;

use crate::raw_token::{RawToken, Symbol};
use crate::span::Spanned;

verus! {

/// A structural error found while resolving, at the offending token.
#[derive(Debug, Clone, Copy, PartialEq, Eq, Hash, Structural)]
pub enum ProcessorError {
    ExpectedExpression,
    DidNotExpectExpression,
    UnclosedLeftBracket,
    UnclosedRightBracket,
}

/// A value ready for evaluation: the 64-bit encoding of a number, or an
/// identifier handle.
#[derive(Debug, Clone, Copy, PartialEq, Eq, Structural)]
pub enum Value {
    Number(u64),
    Ident(usize),
}

/// An operator ready for evaluation.
#[derive(Debug, Clone, Copy, PartialEq, Eq, Hash, Structural)]
pub enum Operator {
    Equals,
    Add,
    Sub,
    Mul,
    Div,
    Print,
    Semicolon,
}

/// A resolved token: a token with known semantic role, ready for the
/// evaluator.
#[derive(Debug, Clone, Copy, PartialEq, Eq, Structural)]
pub enum Token {
    Value(Value),
    Operator(Operator),
}

/// A structural (ordering) token: it reshapes the operator stack during
/// resolution and never appears in resolved output.
#[derive(Debug, Clone, Copy, PartialEq, Eq, Hash, Structural)]
pub enum Ordering {
    LeftParen,
    RightParen,
}

/// Which side equal-precedence operators group to.
#[derive(Debug, Clone, Copy, PartialEq, Eq, Structural)]
pub enum Associativity {
    Left,
    Right,
}

/// The expectation state machine's mode.
#[derive(Debug, Clone, Copy, PartialEq, Eq, Structural)]
pub enum Mode {
    ExpectValue,
    ExpectOperator,
}

/// An entry of the resolver's stack: a resolved operator token awaiting
/// emission, or a structural bracket.
#[derive(Debug, Clone, Copy, PartialEq, Eq, Structural)]
pub enum StackEntry {
    Resolved(Spanned<Token>),
    Ordering(Spanned<Ordering>),
}

impl Operator {
    /// The operator's static precedence: statement end binds loosest,
    /// print binds tightest.
    pub open spec fn spec_precedence(self) -> int {
        match self {
            Operator::Semicolon => 0,
            Operator::Equals => 1,
            Operator::Add => 2,
            Operator::Sub => 2,
            Operator::Mul => 3,
            Operator::Div => 3,
            Operator::Print => 4,
        }
    }

    /// The operator's static associativity: assignment and print group to
    /// the right, the rest to the left.
    pub open spec fn spec_associativity(self) -> Associativity {
        match self {
            Operator::Equals => Associativity::Right,
            Operator::Print => Associativity::Right,
            _ => Associativity::Left,
        }
    }

    /// Static precedence, as the table gives it.
    pub fn precedence(self) -> (r: u8)
        ensures
            r as int == self.spec_precedence(),
    {
        match self {
            Operator::Semicolon => 0,
            Operator::Equals => 1,
            Operator::Add => 2,
            Operator::Sub => 2,
            Operator::Mul => 3,
            Operator::Div => 3,
            Operator::Print => 4,
        }
    }

    /// Static associativity, as the table gives it.
    pub fn associativity(self) -> (r: Associativity)
        ensures
            r == self.spec_associativity(),
    {
        match self {
            Operator::Equals => Associativity::Right,
            Operator::Print => Associativity::Right,
            _ => Associativity::Left,
        }
    }
}

/// The expectation machine's transition: what a raw token becomes in a
/// given mode, or the structural error it raises.
pub open spec fn transition_spec(mode: Mode, t: Spanned<RawToken>) -> Result<
    StackEntry,
    Spanned<ProcessorError>,
> {
    match mode {
        Mode::ExpectValue => match t.inner {
            RawToken::Ident(id) => Ok(
                StackEntry::Resolved(
                    Spanned { inner: Token::Value(Value::Ident(id)), span: t.span },
                ),
            ),
            RawToken::Number(b) => Ok(
                StackEntry::Resolved(
                    Spanned { inner: Token::Value(Value::Number(b)), span: t.span },
                ),
            ),
            RawToken::Symbol(sym) => match sym {
                Symbol::LeftParen => Ok(
                    StackEntry::Ordering(Spanned { inner: Ordering::LeftParen, span: t.span }),
                ),
                Symbol::Print => Ok(
                    StackEntry::Resolved(
                        Spanned { inner: Token::Operator(Operator::Print), span: t.span },
                    ),
                ),
                Symbol::Semicolon => Ok(
                    StackEntry::Resolved(
                        Spanned { inner: Token::Operator(Operator::Semicolon), span: t.span },
                    ),
                ),
                _ => Err(Spanned { inner: ProcessorError::ExpectedExpression, span: t.span }),
            },
        },
        Mode::ExpectOperator => match t.inner {
            RawToken::Symbol(sym) => match sym {
                Symbol::Equals => Ok(
                    StackEntry::Resolved(
                        Spanned { inner: Token::Operator(Operator::Equals), span: t.span },
                    ),
                ),
                Symbol::Add => Ok(
                    StackEntry::Resolved(
                        Spanned { inner: Token::Operator(Operator::Add), span: t.span },
                    ),
                ),
                Symbol::Sub => Ok(
                    StackEntry::Resolved(
                        Spanned { inner: Token::Operator(Operator::Sub), span: t.span },
                    ),
                ),
                Symbol::Mul => Ok(
                    StackEntry::Resolved(
                        Spanned { inner: Token::Operator(Operator::Mul), span: t.span },
                    ),
                ),
                Symbol::Div => Ok(
                    StackEntry::Resolved(
                        Spanned { inner: Token::Operator(Operator::Div), span: t.span },
                    ),
                ),
                Symbol::Semicolon => Ok(
                    StackEntry::Resolved(
                        Spanned { inner: Token::Operator(Operator::Semicolon), span: t.span },
                    ),
                ),
                Symbol::RightParen => Ok(
                    StackEntry::Ordering(Spanned { inner: Ordering::RightParen, span: t.span }),
                ),
                _ => Err(Spanned { inner: ProcessorError::DidNotExpectExpression, span: t.span }),
            },
            _ => Err(Spanned { inner: ProcessorError::DidNotExpectExpression, span: t.span }),
        },
    }
}

/// The mode that holds after an entry is accepted: a value expects an
/// operator next; an operator expects a value; brackets keep the side they
/// close or open.
pub open spec fn mode_of_spec(entry: StackEntry) -> Mode {
    match entry {
        StackEntry::Resolved(t) => match t.inner {
            Token::Value(_) => Mode::ExpectOperator,
            Token::Operator(_) => Mode::ExpectValue,
        },
        StackEntry::Ordering(o) => match o.inner {
            Ordering::LeftParen => Mode::ExpectValue,
            Ordering::RightParen => Mode::ExpectOperator,
        },
    }
}

/// The expectation machine's transition, as executable code.
pub fn transition(mode: Mode, t: Spanned<RawToken>) -> (r: Result<
    StackEntry,
    Spanned<ProcessorError>,
>)
    ensures
        r == transition_spec(mode, t),
{
    match mode {
        Mode::ExpectValue => match t.inner {
            RawToken::Ident(id) => Ok(
                StackEntry::Resolved(
                    Spanned { inner: Token::Value(Value::Ident(id)), span: t.span },
                ),
            ),
            RawToken::Number(b) => Ok(
                StackEntry::Resolved(
                    Spanned { inner: Token::Value(Value::Number(b)), span: t.span },
                ),
            ),
            RawToken::Symbol(sym) => match sym {
                Symbol::LeftParen => Ok(
                    StackEntry::Ordering(Spanned { inner: Ordering::LeftParen, span: t.span }),
                ),
                Symbol::Print => Ok(
                    StackEntry::Resolved(
                        Spanned { inner: Token::Operator(Operator::Print), span: t.span },
                    ),
                ),
                Symbol::Semicolon => Ok(
                    StackEntry::Resolved(
                        Spanned { inner: Token::Operator(Operator::Semicolon), span: t.span },
                    ),
                ),
                _ => Err(Spanned { inner: ProcessorError::ExpectedExpression, span: t.span }),
            },
        },
        Mode::ExpectOperator => match t.inner {
            RawToken::Symbol(sym) => match sym {
                Symbol::Equals => Ok(
                    StackEntry::Resolved(
                        Spanned { inner: Token::Operator(Operator::Equals), span: t.span },
                    ),
                ),
                Symbol::Add => Ok(
                    StackEntry::Resolved(
                        Spanned { inner: Token::Operator(Operator::Add), span: t.span },
                    ),
                ),
                Symbol::Sub => Ok(
                    StackEntry::Resolved(
                        Spanned { inner: Token::Operator(Operator::Sub), span: t.span },
                    ),
                ),
                Symbol::Mul => Ok(
                    StackEntry::Resolved(
                        Spanned { inner: Token::Operator(Operator::Mul), span: t.span },
                    ),
                ),
                Symbol::Div => Ok(
                    StackEntry::Resolved(
                        Spanned { inner: Token::Operator(Operator::Div), span: t.span },
                    ),
                ),
                Symbol::Semicolon => Ok(
                    StackEntry::Resolved(
                        Spanned { inner: Token::Operator(Operator::Semicolon), span: t.span },
                    ),
                ),
                Symbol::RightParen => Ok(
                    StackEntry::Ordering(Spanned { inner: Ordering::RightParen, span: t.span }),
                ),
                _ => Err(Spanned { inner: ProcessorError::DidNotExpectExpression, span: t.span }),
            },
            _ => Err(Spanned { inner: ProcessorError::DidNotExpectExpression, span: t.span }),
        },
    }
}

/// The mode that holds after an entry is accepted, as executable code.
pub fn mode_of(entry: &StackEntry) -> (r: Mode)
    ensures
        r == mode_of_spec(*entry),
{
    match entry {
        StackEntry::Resolved(t) => match t.inner {
            Token::Value(_) => Mode::ExpectOperator,
            Token::Operator(_) => Mode::ExpectValue,
        },
        StackEntry::Ordering(o) => match o.inner {
            Ordering::LeftParen => Mode::ExpectValue,
            Ordering::RightParen => Mode::ExpectOperator,
        },
    }
}

/// The resolver's full state between tokens.
pub struct ResolveState {
    pub mode: Mode,
    pub stack: Seq<StackEntry>,
    pub out: Seq<Spanned<Token>>,
}

/// The state resolution starts in.
pub open spec fn init_state() -> ResolveState {
    ResolveState { mode: Mode::ExpectValue, stack: Seq::empty(), out: Seq::empty() }
}

/// Whether the stack's top operator must be emitted before `op` goes on:
/// strictly higher precedence, or equal precedence when `op` groups left.
/// A bracket never leaves by precedence.
pub open spec fn should_pop(top: StackEntry, op: Operator) -> bool {
    match top {
        StackEntry::Resolved(t) => match t.inner {
            Token::Operator(top_op) => top_op.spec_precedence() > op.spec_precedence() || (
            top_op.spec_precedence() == op.spec_precedence() && op.spec_associativity()
                == Associativity::Left),
            Token::Value(_) => false,
        },
        StackEntry::Ordering(_) => false,
    }
}

/// Pops and emits all stack-top operators that must precede `op`.
pub open spec fn pop_for(stack: Seq<StackEntry>, op: Operator, out: Seq<Spanned<Token>>) -> (
    Seq<StackEntry>,
    Seq<Spanned<Token>>,
)
    decreases stack.len(),
{
    if stack.len() > 0 && should_pop(stack.last(), op) {
        pop_for(stack.drop_last(), op, out.push(stack.last()->Resolved_0))
    } else {
        (stack, out)
    }
}

/// Pops and emits down to the nearest unmatched left bracket, discarding
/// it; `None` when no such bracket is on the stack.
pub open spec fn pop_to_paren(stack: Seq<StackEntry>, out: Seq<Spanned<Token>>) -> Option<
    (Seq<StackEntry>, Seq<Spanned<Token>>),
>
    decreases stack.len(),
{
    if stack.len() == 0 {
        None
    } else {
        match stack.last() {
            StackEntry::Resolved(t) => pop_to_paren(stack.drop_last(), out.push(t)),
            StackEntry::Ordering(o) => if o.inner is LeftParen {
                Some((stack.drop_last(), out))
            } else {
                None
            },
        }
    }
}

/// Pops and emits every remaining operator at end of input; a left bracket
/// still on the stack is unclosed, at that bracket's span.
pub open spec fn flush_ops(stack: Seq<StackEntry>, out: Seq<Spanned<Token>>) -> Result<
    Seq<Spanned<Token>>,
    Spanned<ProcessorError>,
>
    decreases stack.len(),
{
    if stack.len() == 0 {
        Ok(out)
    } else {
        match stack.last() {
            StackEntry::Resolved(t) => flush_ops(stack.drop_last(), out.push(t)),
            StackEntry::Ordering(o) => Err(
                Spanned { inner: ProcessorError::UnclosedLeftBracket, span: o.span },
            ),
        }
    }
}

/// One resolution step: classify the token in the current mode, then let
/// it reshape the stack and the output.
pub open spec fn resolve_step(st: ResolveState, t: Spanned<RawToken>) -> Result<
    ResolveState,
    Spanned<ProcessorError>,
> {
    match transition_spec(st.mode, t) {
        Err(e) => Err(e),
        Ok(entry) => {
            let m = mode_of_spec(entry);
            match entry {
                StackEntry::Resolved(rt) => match rt.inner {
                    Token::Value(_) => Ok(
                        ResolveState { mode: m, stack: st.stack, out: st.out.push(rt) },
                    ),
                    Token::Operator(op) => {
                        let popped = pop_for(st.stack, op, st.out);
                        Ok(ResolveState { mode: m, stack: popped.0.push(entry), out: popped.1 })
                    },
                },
                StackEntry::Ordering(o) => {
                    if o.inner is LeftParen {
                        Ok(ResolveState { mode: m, stack: st.stack.push(entry), out: st.out })
                    } else {
                        match pop_to_paren(st.stack, st.out) {
                            Some(p) => Ok(ResolveState { mode: m, stack: p.0, out: p.1 }),
                            None => Err(
                                Spanned {
                                    inner: ProcessorError::UnclosedRightBracket,
                                    span: o.span,
                                },
                            ),
                        }
                    }
                },
            }
        },
    }
}

/// Resolution of a whole token sequence from a given state, up to but not
/// including the final flush.
pub open spec fn process(raw: Seq<Spanned<RawToken>>, st: ResolveState) -> Result<
    ResolveState,
    Spanned<ProcessorError>,
>
    decreases raw.len(),
{
    if raw.len() == 0 {
        Ok(st)
    } else {
        match resolve_step(st, raw.first()) {
            Err(e) => Err(e),
            Ok(st2) => process(raw.drop_first(), st2),
        }
    }
}

/// What resolving a raw token sequence yields: its postfix reordering, or
/// the first structural error.
pub open spec fn resolve_spec(raw: Seq<Spanned<RawToken>>) -> Result<
    Seq<Spanned<Token>>,
    Spanned<ProcessorError>,
> {
    match process(raw, init_state()) {
        Ok(st) => flush_ops(st.stack, st.out),
        Err(e) => Err(e),
    }
}

/// The view a resolver result takes in specifications.
pub open spec fn resolve_result_view(r: Result<Vec<Spanned<Token>>, Spanned<ProcessorError>>)
    -> Result<Seq<Spanned<Token>>, Spanned<ProcessorError>> {
    match r {
        Ok(v) => Ok(v@),
        Err(e) => Err(e),
    }
}

/// Whether the stack's top operator must be emitted before `op` goes on.
fn needs_pop(stack: &Vec<StackEntry>, op: Operator) -> (r: bool)
    ensures
        r == (stack@.len() > 0 && should_pop(stack@.last(), op)),
{
    if stack.len() == 0 {
        return false;
    }
    match &stack[stack.len() - 1] {
        StackEntry::Resolved(t) => match t.inner {
            Token::Operator(top_op) => {
                let tp = top_op.precedence();
                let p = op.precedence();
                tp > p || (tp == p && op.associativity() == Associativity::Left)
            },
            Token::Value(_) => false,
        },
        StackEntry::Ordering(_) => false,
    }
}

/// Resolves raw tokens into execution-ready order: values in input order,
/// interleaved with the operators the precedence table forces out, or the
/// first structural error.
#[verifier::loop_isolation(false)]
pub fn resolved_tokens(raw: &Vec<Spanned<RawToken>>) -> (r: Result<
    Vec<Spanned<Token>>,
    Spanned<ProcessorError>,
>)
    ensures
        resolve_result_view(r) == resolve_spec(raw@),
{
    let mut mode = Mode::ExpectValue;
    let mut stack: Vec<StackEntry> = Vec::new();
    let mut out: Vec<Spanned<Token>> = Vec::new();
    let n = raw.len();
    let mut i: usize = 0;
    proof {
        assert(raw@.subrange(0, n as int) =~= raw@);
        assert(init_state().stack =~= stack@);
        assert(init_state().out =~= out@);
    }
    while i < n
        invariant
            0 <= i <= n,
            n == raw@.len(),
            process(raw@, init_state()) == process(
                raw@.subrange(i as int, n as int),
                ResolveState { mode, stack: stack@, out: out@ },
            ),
        decreases n - i,
    {
        let ghost st0 = ResolveState { mode, stack: stack@, out: out@ };
        let ghost suffix = raw@.subrange(i as int, n as int);
        proof {
            assert(suffix.first() == raw@[i as int]);
            assert(suffix.drop_first() =~= raw@.subrange(i as int + 1, n as int));
        }
        let t = raw[i];
        match transition(mode, t) {
            Err(e) => {
                return Err(e);
            },
            Ok(entry) => {
                mode = mode_of(&entry);
                match entry {
                    StackEntry::Resolved(rt) => match rt.inner {
                        Token::Value(_) => {
                            out.push(rt);
                        },
                        Token::Operator(op) => {
                            let ghost target = pop_for(stack@, op, out@);
                            while needs_pop(&stack, op)
                                invariant
                                    target == pop_for(stack@, op, out@),
                                decreases stack@.len(),
                            {
                                match stack.pop() {
                                    Some(StackEntry::Resolved(popped)) => {
                                        out.push(popped);
                                    },
                                    Some(StackEntry::Ordering(_)) => {
                                        proof {
                                            assert(false);
                                        }
                                    },
                                    None => {
                                        proof {
                                            assert(false);
                                        }
                                    },
                                }
                            }
                            stack.push(entry);
                        },
                    },
                    StackEntry::Ordering(o) => match o.inner {
                        Ordering::LeftParen => {
                            stack.push(entry);
                        },
                        Ordering::RightParen => {
                            let ghost target = pop_to_paren(stack@, out@);
                            let mut closing = true;
                            while closing
                                invariant
                                    closing ==> target == pop_to_paren(stack@, out@),
                                    !closing ==> target == Some((stack@, out@)),
                                decreases stack@.len() + if closing {
                                    1int
                                } else {
                                    0int
                                },
                            {
                                match stack.pop() {
                                    Some(StackEntry::Resolved(popped)) => {
                                        out.push(popped);
                                    },
                                    Some(StackEntry::Ordering(inner_o)) => match inner_o.inner {
                                        Ordering::LeftParen => {
                                            closing = false;
                                        },
                                        Ordering::RightParen => {
                                            proof {
                                                assert(pop_to_paren(st0.stack, st0.out) is None);
                                                assert(resolve_step(st0, t) == Err::<
                                                    ResolveState,
                                                    Spanned<ProcessorError>,
                                                >(
                                                    Spanned {
                                                        inner:
                                                            ProcessorError::UnclosedRightBracket,
                                                        span: t.span,
                                                    },
                                                ));
                                            }
                                            return Err(
                                                Spanned {
                                                    inner: ProcessorError::UnclosedRightBracket,
                                                    span: t.span,
                                                },
                                            );
                                        },
                                    },
                                    None => {
                                        proof {
                                            assert(pop_to_paren(st0.stack, st0.out) is None);
                                        }
                                        return Err(
                                            Spanned {
                                                inner: ProcessorError::UnclosedRightBracket,
                                                span: t.span,
                                            },
                                        );
                                    },
                                }
                            }
                        },
                    },
                }
            },
        }
        i += 1;
    }
    proof {
        assert(raw@.subrange(n as int, n as int) =~= Seq::<Spanned<RawToken>>::empty());
    }
    let ghost fl = flush_ops(stack@, out@);
    while stack.len() > 0
        invariant
            fl == flush_ops(stack@, out@),
        decreases stack@.len(),
    {
        match stack.pop() {
            Some(StackEntry::Resolved(popped)) => {
                out.push(popped);
            },
            Some(StackEntry::Ordering(o)) => {
                return Err(Spanned { inner: ProcessorError::UnclosedLeftBracket, span: o.span });
            },
            None => {
                proof {
                    assert(false);
                }
            },
        }
    }
    Ok(out)
}

} // verus!
