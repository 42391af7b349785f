//! The evaluator: a left-to-right interpreter over the resolved sequence,
//! with an implicit trailing statement end appended so the final statement
//! always flushes. It drives a spanned value stack and a persistent
//! identifier-to-value environment.
//!
//! Numeric values are opaque 64-bit encodings of IEEE-754 doubles here, and
//! the evaluator never computes with them itself: stepping stops at each
//! arithmetic operation with a `Compute` event naming the operator and both
//! operand encodings, and the session driver hands the computed encoding
//! back through [`Evaluator::provide`]. Printing likewise surfaces as an
//! `Output` event whose value the driver formats. Everything else — stack
//! discipline, deferred identifier resolution, assignment, statement
//! collapsing and every error — is decided here.

use std::collections::HashMap;

use vstd::prelude::*;

use crate::span::{Span, Spanned};
use crate::tokens::{Operator, Token, Value};

verus! {

broadcast use vstd::std_specs::hash::group_hash_axioms;

/// The persistent session state: each identifier handle bound to the
/// 64-bit encoding of its value. Keys are never duplicated; a binding is
/// written only by assignment and overwrites any prior one.
pub struct State {
    variables: HashMap<usize, u64>,
}

impl State {
    /// The environment as a mathematical map.
    pub closed spec fn env(self) -> Map<usize, u64> {
        self.variables@
    }

    /// A fresh session with nothing bound.
    pub fn new() -> (r: State)
        ensures
            r.env() == Map::<usize, u64>::empty(),
    {
        State { variables: HashMap::new() }
    }

    /// The value bound to a handle, if any.
    pub fn lookup(&self, id: usize) -> (r: Option<u64>)
        ensures
            r == if self.env().contains_key(id) {
                Some(self.env()[id])
            } else {
                None::<u64>
            },
    {
        match self.variables.get(&id) {
            Some(v) => Some(*v),
            None => None,
        }
    }

    /// Whether a handle is bound.
    pub fn is_bound(&self, id: usize) -> (r: bool)
        ensures
            r == self.env().contains_key(id),
    {
        self.variables.contains_key(&id)
    }

    /// Binds a handle, overwriting any prior binding.
    pub fn bind(&mut self, id: usize, value: u64)
        ensures
            final(self).env() == old(self).env().insert(id, value),
    {
        self.variables.insert(id, value);
    }
}

impl Default for State {
    /// A fresh session with nothing bound.
    fn default() -> (r: State)
        ensures
            r.env() == Map::<usize, u64>::empty(),
    {
        State::new()
    }
}

/// An entry of the evaluator's value stack: a computed value, an
/// identifier left unresolved so it can still be assigned to, or the
/// placeholder a statement boundary leaves behind.
#[derive(Debug, Clone, Copy, PartialEq, Eq, Structural)]
pub enum Stack {
    Value(u64),
    Ident(usize),
    Null,
}

/// A runtime failure, at the entry that caused it.
#[derive(Debug, Clone, Copy, PartialEq, Eq, Hash, Structural)]
pub enum RunError {
    UnassignedVariable,
    AssigningToExpression,
    AssigningToNull,
    AttemptedToUseNull,
    AttemptedToPrintNull,
    MalformedExpression,
}

/// What one evaluation step asks of the session driver.
#[derive(Debug, Clone, Copy, PartialEq, Eq, Structural)]
pub enum StepEvent {
    /// The step completed internally; step again.
    Continue,
    /// Compute `left op right` on the encoded values and hand the encoded
    /// result to [`Evaluator::provide`] before stepping again.
    Compute { op: Operator, left: u64, right: u64 },
    /// Emit the encoded value to the output side channel, then step again.
    Output { value: u64 },
    /// The whole sequence was consumed.
    Done,
    /// Evaluation failed and stopped; bindings already written remain.
    Failed(Spanned<RunError>),
}

/// Resolving a stack entry to a value: a value is itself, an identifier
/// reads the environment, and the null placeholder is an error.
pub open spec fn resolve_entry_spec(e: Spanned<Stack>, env: Map<usize, u64>, null_err: RunError)
    -> Result<u64, Spanned<RunError>> {
    match e.inner {
        Stack::Value(b) => Ok(b),
        Stack::Ident(id) => if env.contains_key(id) {
            Ok(env[id])
        } else {
            Err(Spanned { inner: RunError::UnassignedVariable, span: e.span })
        },
        Stack::Null => Err(Spanned { inner: null_err, span: e.span }),
    }
}

/// Popping the run of placeholders atop the stack, merging their spans
/// into `span`.
pub open spec fn collapse_nulls(stack: Seq<Spanned<Stack>>, span: Span) -> (
    Seq<Spanned<Stack>>,
    Span,
)
    decreases stack.len(),
{
    if stack.len() > 0 && stack.last().inner is Null {
        collapse_nulls(stack.drop_last(), stack.last().span.spec_merge(span))
    } else {
        (stack, span)
    }
}

/// Everything one evaluation step determines: the position, stack,
/// environment and pending-result span afterwards, and the event raised.
pub struct StepOutcome {
    pub pos: int,
    pub stack: Seq<Spanned<Stack>>,
    pub env: Map<usize, u64>,
    pub pending: Option<Span>,
    pub event: StepEvent,
}

/// One evaluation step over the token at `pos`.
pub open spec fn eval_step_spec(
    tokens: Seq<Spanned<Token>>,
    pos: int,
    stack: Seq<Spanned<Stack>>,
    env: Map<usize, u64>,
) -> StepOutcome {
    if pos < 0 || pos >= tokens.len() {
        StepOutcome { pos, stack, env, pending: None, event: StepEvent::Done }
    } else {
        let t = tokens[pos];
        match t.inner {
            Token::Value(Value::Number(b)) => StepOutcome {
                pos: pos + 1,
                stack: stack.push(Spanned { inner: Stack::Value(b), span: t.span }),
                env,
                pending: None,
                event: StepEvent::Continue,
            },
            Token::Value(Value::Ident(id)) => StepOutcome {
                pos: pos + 1,
                stack: stack.push(Spanned { inner: Stack::Ident(id), span: t.span }),
                env,
                pending: None,
                event: StepEvent::Continue,
            },
            Token::Operator(op) => match op {
                Operator::Add | Operator::Sub | Operator::Mul | Operator::Div => eval_arith_spec(
                    t,
                    op,
                    pos,
                    stack,
                    env,
                ),
                Operator::Equals => eval_assign_spec(t, pos, stack, env),
                Operator::Print => eval_print_spec(t, pos, stack, env),
                Operator::Semicolon => eval_semicolon_spec(t, pos, stack, env),
            },
        }
    }
}

/// A step that fails: evaluation stops at once, with the stack as the
/// pops so far left it.
pub open spec fn failed_outcome(
    pos: int,
    stack: Seq<Spanned<Stack>>,
    env: Map<usize, u64>,
    e: Spanned<RunError>,
) -> StepOutcome {
    StepOutcome { pos, stack, env, pending: None, event: StepEvent::Failed(e) }
}

/// An arithmetic operator: pop the right then the left operand, resolving
/// each through the environment, and ask the driver for the computed
/// encoding; the result will span both operands.
pub open spec fn eval_arith_spec(
    t: Spanned<Token>,
    op: Operator,
    pos: int,
    stack: Seq<Spanned<Stack>>,
    env: Map<usize, u64>,
) -> StepOutcome {
    if stack.len() == 0 {
        failed_outcome(
            pos,
            stack,
            env,
            Spanned { inner: RunError::MalformedExpression, span: t.span },
        )
    } else {
        let right = stack.last();
        let s1 = stack.drop_last();
        match resolve_entry_spec(right, env, RunError::AttemptedToUseNull) {
            Err(e) => failed_outcome(pos, s1, env, e),
            Ok(rv) => if s1.len() == 0 {
                failed_outcome(
                    pos,
                    s1,
                    env,
                    Spanned { inner: RunError::MalformedExpression, span: t.span },
                )
            } else {
                let left = s1.last();
                let s2 = s1.drop_last();
                match resolve_entry_spec(left, env, RunError::AttemptedToUseNull) {
                    Err(e) => failed_outcome(pos, s2, env, e),
                    Ok(lv) => StepOutcome {
                        pos: pos + 1,
                        stack: s2,
                        env,
                        pending: Some(left.span.spec_merge(right.span)),
                        event: StepEvent::Compute { op, left: lv, right: rv },
                    },
                }
            },
        }
    }
}

/// Assignment: pop and resolve the right entry, pop the left entry, which
/// must be an unresolved identifier, write the binding, and push the
/// identifier back spanning both sides.
pub open spec fn eval_assign_spec(
    t: Spanned<Token>,
    pos: int,
    stack: Seq<Spanned<Stack>>,
    env: Map<usize, u64>,
) -> StepOutcome {
    if stack.len() == 0 {
        failed_outcome(
            pos,
            stack,
            env,
            Spanned { inner: RunError::MalformedExpression, span: t.span },
        )
    } else {
        let right = stack.last();
        let s1 = stack.drop_last();
        match resolve_entry_spec(right, env, RunError::AttemptedToUseNull) {
            Err(e) => failed_outcome(pos, s1, env, e),
            Ok(rv) => if s1.len() == 0 {
                failed_outcome(
                    pos,
                    s1,
                    env,
                    Spanned { inner: RunError::MalformedExpression, span: t.span },
                )
            } else {
                let left = s1.last();
                let s2 = s1.drop_last();
                match left.inner {
                    Stack::Ident(id) => StepOutcome {
                        pos: pos + 1,
                        stack: s2.push(
                            Spanned {
                                inner: Stack::Ident(id),
                                span: left.span.spec_merge(right.span),
                            },
                        ),
                        env: env.insert(id, rv),
                        pending: None,
                        event: StepEvent::Continue,
                    },
                    Stack::Value(_) => failed_outcome(
                        pos,
                        s2,
                        env,
                        Spanned { inner: RunError::AssigningToExpression, span: left.span },
                    ),
                    Stack::Null => failed_outcome(
                        pos,
                        s2,
                        env,
                        Spanned { inner: RunError::AssigningToNull, span: left.span },
                    ),
                }
            },
        }
    }
}

/// Print: resolve the top entry to a value, emit it, and leave the
/// original unresolved entry on the stack, its span widened over the
/// print operator.
pub open spec fn eval_print_spec(
    t: Spanned<Token>,
    pos: int,
    stack: Seq<Spanned<Stack>>,
    env: Map<usize, u64>,
) -> StepOutcome {
    if stack.len() == 0 {
        failed_outcome(
            pos,
            stack,
            env,
            Spanned { inner: RunError::MalformedExpression, span: t.span },
        )
    } else {
        let top = stack.last();
        let s1 = stack.drop_last();
        match resolve_entry_spec(top, env, RunError::AttemptedToPrintNull) {
            Err(e) => failed_outcome(pos, s1, env, e),
            Ok(v) => StepOutcome {
                pos: pos + 1,
                stack: s1.push(
                    Spanned { inner: top.inner, span: t.span.spec_merge(top.span) },
                ),
                env,
                pending: None,
                event: StepEvent::Output { value: v },
            },
        }
    }
}

/// Statement end: pop the top entry if present — a bare unbound
/// identifier as a whole statement is an error — then collapse the run of
/// placeholders below it and push a fresh placeholder spanning the
/// collapsed region through the statement end.
pub open spec fn eval_semicolon_spec(
    t: Spanned<Token>,
    pos: int,
    stack: Seq<Spanned<Stack>>,
    env: Map<usize, u64>,
) -> StepOutcome {
    if stack.len() == 0 {
        StepOutcome {
            pos: pos + 1,
            stack: stack.push(Spanned { inner: Stack::Null, span: t.span }),
            env,
            pending: None,
            event: StepEvent::Continue,
        }
    } else {
        let top = stack.last();
        let s1 = stack.drop_last();
        if top.inner is Ident && !env.contains_key(top.inner->Ident_0) {
            failed_outcome(
                pos,
                s1,
                env,
                Spanned { inner: RunError::UnassignedVariable, span: top.span },
            )
        } else {
            let c = collapse_nulls(s1, top.span.spec_merge(t.span));
            StepOutcome {
                pos: pos + 1,
                stack: c.0.push(Spanned { inner: Stack::Null, span: c.1 }),
                env,
                pending: None,
                event: StepEvent::Continue,
            }
        }
    }
}

/// The implicit statement end appended after the final token.
pub open spec fn implicit_semicolon() -> Spanned<Token> {
    Spanned { inner: Token::Operator(Operator::Semicolon), span: Span { start: 0, end: 0 } }
}

/// The evaluator's state between steps.
pub struct Evaluator {
    tokens: Vec<Spanned<Token>>,
    pos: usize,
    stack: Vec<Spanned<Stack>>,
    pending: Option<Span>,
    failed: bool,
}

impl Evaluator {
    /// The resolved sequence being evaluated, implicit statement end
    /// included.
    pub closed spec fn tokens_seq(self) -> Seq<Spanned<Token>> {
        self.tokens@
    }

    /// How many tokens have been consumed.
    pub closed spec fn pos_spec(self) -> int {
        self.pos as int
    }

    /// The value stack.
    pub closed spec fn stack_seq(self) -> Seq<Spanned<Stack>> {
        self.stack@
    }

    /// The span a pending computed result will carry, while the driver
    /// owes one.
    pub closed spec fn pending_spec(self) -> Option<Span> {
        self.pending
    }

    /// Whether evaluation has failed and stopped.
    pub closed spec fn failed_spec(self) -> bool {
        self.failed
    }

    /// Whether the driver owes a computed result.
    pub open spec fn awaiting(self) -> bool {
        self.pending_spec() is Some
    }

    /// The evaluator never reads past the end of its sequence.
    pub open spec fn wf(self) -> bool {
        0 <= self.pos_spec() <= self.tokens_seq().len()
    }

    /// Whether the whole sequence was consumed.
    pub open spec fn done(self) -> bool {
        self.pos_spec() == self.tokens_seq().len()
    }

    /// Readies an evaluator over a resolved sequence, appending the
    /// implicit trailing statement end.
    pub fn new(tokens: Vec<Spanned<Token>>) -> (r: Evaluator)
        ensures
            r.tokens_seq() == tokens@.push(implicit_semicolon()),
            r.pos_spec() == 0,
            r.stack_seq() == Seq::<Spanned<Stack>>::empty(),
            !r.awaiting(),
            !r.failed_spec(),
            r.wf(),
    {
        let mut ts = tokens;
        ts.push(
            Spanned { inner: Token::Operator(Operator::Semicolon), span: Span { start: 0, end: 0 } },
        );
        let r = Evaluator { tokens: ts, pos: 0, stack: Vec::new(), pending: None, failed: false };
        proof {
            assert(r.stack_seq() =~= Seq::<Spanned<Stack>>::empty());
        }
        r
    }

    /// Whether the driver owes a computed result.
    pub fn is_awaiting(&self) -> (r: bool)
        ensures
            r == self.awaiting(),
    {
        match self.pending {
            Some(_) => true,
            None => false,
        }
    }

    /// Whether evaluation has failed and stopped.
    pub fn is_failed(&self) -> (r: bool)
        ensures
            r == self.failed_spec(),
    {
        self.failed
    }

    /// Whether the whole sequence was consumed.
    pub fn is_done(&self) -> (r: bool)
        ensures
            r == self.done(),
    {
        self.pos == self.tokens.len()
    }

    /// The value stack, for inspection.
    pub fn stack_entries(&self) -> (r: &Vec<Spanned<Stack>>)
        ensures
            r@ == self.stack_seq(),
    {
        &self.stack
    }

    /// Hands back the computed encoding an earlier `Compute` event asked
    /// for; it is pushed spanning both operands.
    pub fn provide(&mut self, value: u64)
        requires
            old(self).awaiting(),
        ensures
            final(self).tokens_seq() == old(self).tokens_seq(),
            final(self).pos_spec() == old(self).pos_spec(),
            final(self).stack_seq() == old(self).stack_seq().push(
                Spanned { inner: Stack::Value(value), span: old(self).pending_spec().unwrap() },
            ),
            !final(self).awaiting(),
            final(self).failed_spec() == old(self).failed_spec(),
    {
        let span = match self.pending {
            Some(s) => s,
            None => Span { start: 0, end: 0 },
        };
        self.stack.push(Spanned { inner: Stack::Value(value), span });
        self.pending = None;
    }

    /// One evaluation step: consumes the next token, or reports that the
    /// sequence is done.
    #[verifier::loop_isolation(false)]
    pub fn step(&mut self, state: &mut State) -> (ev: StepEvent)
        requires
            old(self).wf(),
            !old(self).awaiting(),
            !old(self).failed_spec(),
        ensures
            ({
                let r = eval_step_spec(
                    old(self).tokens_seq(),
                    old(self).pos_spec(),
                    old(self).stack_seq(),
                    old(state).env(),
                );
                &&& ev == r.event
                &&& final(self).tokens_seq() == old(self).tokens_seq()
                &&& final(self).pos_spec() == r.pos
                &&& final(self).stack_seq() == r.stack
                &&& final(self).pending_spec() == r.pending
                &&& final(self).failed_spec() == (r.event is Failed)
                &&& final(state).env() == r.env
                &&& final(self).wf()
            }),
    {
        if self.pos == self.tokens.len() {
            return StepEvent::Done;
        }
        let t = self.tokens[self.pos];
        match t.inner {
            Token::Value(Value::Number(b)) => {
                self.stack.push(Spanned { inner: Stack::Value(b), span: t.span });
                self.pos += 1;
                StepEvent::Continue
            },
            Token::Value(Value::Ident(id)) => {
                self.stack.push(Spanned { inner: Stack::Ident(id), span: t.span });
                self.pos += 1;
                StepEvent::Continue
            },
            Token::Operator(op) => match op {
                Operator::Add | Operator::Sub | Operator::Mul | Operator::Div => {
                    let right = match self.stack.pop() {
                        Some(e) => e,
                        None => {
                            self.failed = true;
                            return StepEvent::Failed(
                                Spanned { inner: RunError::MalformedExpression, span: t.span },
                            );
                        },
                    };
                    let rv = match self.resolve_entry(right, state, false) {
                        Ok(v) => v,
                        Err(e) => {
                            self.failed = true;
                            return StepEvent::Failed(e);
                        },
                    };
                    let left = match self.stack.pop() {
                        Some(e) => e,
                        None => {
                            self.failed = true;
                            return StepEvent::Failed(
                                Spanned { inner: RunError::MalformedExpression, span: t.span },
                            );
                        },
                    };
                    let lv = match self.resolve_entry(left, state, false) {
                        Ok(v) => v,
                        Err(e) => {
                            self.failed = true;
                            return StepEvent::Failed(e);
                        },
                    };
                    self.pending = Some(left.span.merge(right.span));
                    self.pos += 1;
                    StepEvent::Compute { op, left: lv, right: rv }
                },
                Operator::Equals => {
                    let right = match self.stack.pop() {
                        Some(e) => e,
                        None => {
                            self.failed = true;
                            return StepEvent::Failed(
                                Spanned { inner: RunError::MalformedExpression, span: t.span },
                            );
                        },
                    };
                    let rv = match self.resolve_entry(right, state, false) {
                        Ok(v) => v,
                        Err(e) => {
                            self.failed = true;
                            return StepEvent::Failed(e);
                        },
                    };
                    let left = match self.stack.pop() {
                        Some(e) => e,
                        None => {
                            self.failed = true;
                            return StepEvent::Failed(
                                Spanned { inner: RunError::MalformedExpression, span: t.span },
                            );
                        },
                    };
                    match left.inner {
                        Stack::Ident(id) => {
                            state.bind(id, rv);
                            self.stack.push(
                                Spanned { inner: Stack::Ident(id), span: left.span.merge(right.span) },
                            );
                            self.pos += 1;
                            StepEvent::Continue
                        },
                        Stack::Value(_) => {
                            self.failed = true;
                            StepEvent::Failed(
                                Spanned { inner: RunError::AssigningToExpression, span: left.span },
                            )
                        },
                        Stack::Null => {
                            self.failed = true;
                            StepEvent::Failed(
                                Spanned { inner: RunError::AssigningToNull, span: left.span },
                            )
                        },
                    }
                },
                Operator::Print => {
                    let top = match self.stack.pop() {
                        Some(e) => e,
                        None => {
                            self.failed = true;
                            return StepEvent::Failed(
                                Spanned { inner: RunError::MalformedExpression, span: t.span },
                            );
                        },
                    };
                    let v = match self.resolve_entry(top, state, true) {
                        Ok(v) => v,
                        Err(e) => {
                            self.failed = true;
                            return StepEvent::Failed(e);
                        },
                    };
                    self.stack.push(Spanned { inner: top.inner, span: t.span.merge(top.span) });
                    self.pos += 1;
                    StepEvent::Output { value: v }
                },
                Operator::Semicolon => {
                    let top = match self.stack.pop() {
                        Some(e) => e,
                        None => {
                            self.stack.push(Spanned { inner: Stack::Null, span: t.span });
                            self.pos += 1;
                            return StepEvent::Continue;
                        },
                    };
                    match top.inner {
                        Stack::Ident(id) => {
                            if !state.is_bound(id) {
                                self.failed = true;
                                return StepEvent::Failed(
                                    Spanned { inner: RunError::UnassignedVariable, span: top.span },
                                );
                            }
                        },
                        _ => {},
                    }
                    let mut span = top.span.merge(t.span);
                    let ghost target = collapse_nulls(self.stack@, span);
                    let mut collapsing = true;
                    while collapsing
                        invariant
                            collapsing ==> target == collapse_nulls(self.stack@, span),
                            !collapsing ==> target == (self.stack@, span),
                            self.tokens@ == old(self).tokens@,
                            self.pos == old(self).pos,
                            self.pending == old(self).pending,
                            self.failed == old(self).failed,
                        decreases self.stack@.len() + if collapsing {
                            1int
                        } else {
                            0int
                        },
                    {
                        let keep_going = if self.stack.len() > 0 {
                            matches!(self.stack[self.stack.len() - 1].inner, Stack::Null)
                        } else {
                            false
                        };
                        if keep_going {
                            match self.stack.pop() {
                                Some(popped) => {
                                    span = popped.span.merge(span);
                                },
                                None => {
                                    proof {
                                        assert(false);
                                    }
                                },
                            }
                        } else {
                            collapsing = false;
                        }
                    }
                    self.stack.push(Spanned { inner: Stack::Null, span });
                    self.pos += 1;
                    StepEvent::Continue
                },
            },
        }
    }

    /// Resolves a popped entry to a value through the environment; the
    /// null placeholder raises the print-specific error under a print.
    fn resolve_entry(&self, e: Spanned<Stack>, state: &State, printing: bool) -> (r: Result<
        u64,
        Spanned<RunError>,
    >)
        ensures
            r == resolve_entry_spec(
                e,
                state.env(),
                if printing {
                    RunError::AttemptedToPrintNull
                } else {
                    RunError::AttemptedToUseNull
                },
            ),
    {
        match e.inner {
            Stack::Value(b) => Ok(b),
            Stack::Ident(id) => match state.lookup(id) {
                Some(v) => Ok(v),
                None => Err(Spanned { inner: RunError::UnassignedVariable, span: e.span }),
            },
            Stack::Null => {
                if printing {
                    Err(Spanned { inner: RunError::AttemptedToPrintNull, span: e.span })
                } else {
                    Err(Spanned { inner: RunError::AttemptedToUseNull, span: e.span })
                }
            },
        }
    }
}

} // verus!
