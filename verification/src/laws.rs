//! General laws of the pipeline, stated over the spec-level models that
//! the executable functions are proved against.

use vstd::prelude::*;

use crate::raw_token::{RawToken, Symbol};
use crate::run::{eval_step_spec, Stack, StepEvent, StepOutcome};
use crate::span::{Span, Spanned};
use crate::tokens::{
    flush_ops, init_state, pop_for, pop_to_paren, process, resolve_spec, resolve_step, Mode,
    Operator, ProcessorError, ResolveState, StackEntry, Token,
};

verus! {

/// `k` evaluation steps in a row, each applied to the state the one
/// before left behind.
pub open spec fn step_n(
    tokens: Seq<Spanned<Token>>,
    pos: int,
    stack: Seq<Spanned<Stack>>,
    env: Map<usize, u64>,
    k: nat,
) -> StepOutcome
    decreases k,
{
    if k == 0 {
        StepOutcome { pos, stack, env, pending: None, event: StepEvent::Continue }
    } else {
        let r = step_n(tokens, pos, stack, env, (k - 1) as nat);
        eval_step_spec(tokens, r.pos, r.stack, r.env)
    }
}

/// The span covering a run of tokens, merged left to right.
pub open spec fn run_span(tokens: Seq<Spanned<Token>>, pos: int, k: int) -> Span
    decreases k,
{
    if k <= 1 {
        tokens[pos].span
    } else {
        run_span(tokens, pos, k - 1).spec_merge(tokens[pos + k - 1].span)
    }
}

/// Consecutive statement ends collapse: evaluating a run of `k`
/// statement-end tokens from an empty stack leaves exactly one null
/// placeholder, spanning the whole run, and touches nothing else.
pub proof fn lemma_consecutive_semicolons_collapse(
    tokens: Seq<Spanned<Token>>,
    pos: int,
    k: int,
    env: Map<usize, u64>,
)
    requires
        0 <= pos,
        pos + k <= tokens.len(),
        1 <= k,
        forall|m: int|
            pos <= m < pos + k ==> tokens[m].inner == Token::Operator(Operator::Semicolon),
    ensures
        ({
            let r = step_n(tokens, pos, Seq::empty(), env, k as nat);
            &&& r.pos == pos + k
            &&& r.env == env
            &&& r.pending is None
            &&& r.event is Continue
            &&& r.stack.len() == 1
            &&& r.stack[0].inner is Null
            &&& r.stack[0].span == run_span(tokens, pos, k)
        }),
    decreases k,
{
    if k == 1 {
        let r0 = step_n(tokens, pos, Seq::<Spanned<Stack>>::empty(), env, 0);
        let r = eval_step_spec(tokens, r0.pos, r0.stack, r0.env);
        assert(r.stack =~= Seq::<Spanned<Stack>>::empty().push(
            Spanned { inner: Stack::Null, span: tokens[pos].span },
        ));
    } else {
        lemma_consecutive_semicolons_collapse(tokens, pos, k - 1, env);
        let r1 = step_n(tokens, pos, Seq::<Spanned<Stack>>::empty(), env, (k - 1) as nat);
        let r = eval_step_spec(tokens, r1.pos, r1.stack, r1.env);
        assert(r1.stack.drop_last() =~= Seq::<Spanned<Stack>>::empty());
        assert(r.stack[0].span == run_span(tokens, pos, k - 1).spec_merge(
            tokens[pos + k - 1].span,
        ));
    }
}

/// The environment persists: an evaluation step leaves the environment
/// untouched unless the token it consumes is the assignment operator, so
/// bindings survive every other step and every later evaluation that is
/// handed the same state.
pub proof fn lemma_env_changes_only_by_assignment(
    tokens: Seq<Spanned<Token>>,
    pos: int,
    stack: Seq<Spanned<Stack>>,
    env: Map<usize, u64>,
)
    ensures
        ({
            let r = eval_step_spec(tokens, pos, stack, env);
            (0 <= pos < tokens.len() && tokens[pos].inner == Token::Operator(Operator::Equals))
                || r.env == env
        }),
{
}

/// A bracket still on the stack when input ends is unclosed: flushing
/// fails with the unclosed-left-bracket error at the topmost bracket's
/// span.
pub proof fn lemma_flush_unclosed_left(stack: Seq<StackEntry>, out: Seq<Spanned<Token>>)
    requires
        exists|m: int| 0 <= m < stack.len() && stack[m] is Ordering,
    ensures
        ({
            let m = topmost_ordering(stack);
            &&& 0 <= m < stack.len()
            &&& stack[m] is Ordering
            &&& forall|j: int| m < j < stack.len() ==> stack[j] is Resolved
            &&& flush_ops(stack, out) == Err::<Seq<Spanned<Token>>, Spanned<ProcessorError>>(
                Spanned {
                    inner: ProcessorError::UnclosedLeftBracket,
                    span: stack[m]->Ordering_0.span,
                },
            )
        }),
    decreases stack.len(),
{
    let m = topmost_ordering(stack);
    lemma_topmost_ordering(stack);
    if stack.last() is Ordering {
    } else {
        assert(stack.drop_last()[m] == stack[m]);
        lemma_flush_unclosed_left(stack.drop_last(), out.push(stack.last()->Resolved_0));
        assert(topmost_ordering(stack.drop_last()) == m);
    }
}

/// The index of the topmost bracket on the stack.
pub open spec fn topmost_ordering(stack: Seq<StackEntry>) -> int
    decreases stack.len(),
{
    if stack.len() == 0 {
        -1
    } else if stack.last() is Ordering {
        stack.len() - 1
    } else {
        topmost_ordering(stack.drop_last())
    }
}

proof fn lemma_topmost_ordering(stack: Seq<StackEntry>)
    requires
        exists|m: int| 0 <= m < stack.len() && stack[m] is Ordering,
    ensures
        ({
            let m = topmost_ordering(stack);
            &&& 0 <= m < stack.len()
            &&& stack[m] is Ordering
            &&& forall|j: int| m < j < stack.len() ==> stack[j] is Resolved
        }),
    decreases stack.len(),
{
    if stack.last() is Ordering {
    } else {
        let w = choose|m: int| 0 <= m < stack.len() && stack[m] is Ordering;
        assert(stack.drop_last()[w] == stack[w]);
        lemma_topmost_ordering(stack.drop_last());
        let m = topmost_ordering(stack.drop_last());
        assert(stack[m] == stack.drop_last()[m]);
        assert forall|j: int| m < j < stack.len() implies stack[j] is Resolved by {
            if j < stack.len() - 1 {
                assert(stack[j] == stack.drop_last()[j]);
            }
        }
    }
}

/// A right bracket with no matching left bracket on the stack fails with
/// the unclosed-right-bracket error at that bracket's span.
pub proof fn lemma_unmatched_right_bracket(st: ResolveState, t: Spanned<RawToken>)
    requires
        st.mode == Mode::ExpectOperator,
        t.inner == RawToken::Symbol(Symbol::RightParen),
        forall|m: int|
            0 <= m < st.stack.len() ==> !(st.stack[m] is Ordering
                && st.stack[m]->Ordering_0.inner is LeftParen),
    ensures
        resolve_step(st, t) == Err::<ResolveState, Spanned<ProcessorError>>(
            Spanned { inner: ProcessorError::UnclosedRightBracket, span: t.span },
        ),
{
    lemma_pop_to_paren_none(st.stack, st.out);
}

/// Some token of the input is a left bracket with this span.
pub open spec fn has_open_bracket_token(raw: Seq<Spanned<RawToken>>, sp: Span) -> bool {
    exists|i: int|
        0 <= i < raw.len() && (#[trigger] raw[i]).inner == RawToken::Symbol(Symbol::LeftParen)
            && raw[i].span == sp
}

/// Every bracket on the resolver's stack entered it as a left-bracket
/// token of the input, and carries that token's span.
pub open spec fn brackets_from(stack: Seq<StackEntry>, raw: Seq<Spanned<RawToken>>) -> bool {
    forall|m: int|
        0 <= m < stack.len() && (#[trigger] stack[m]) is Ordering ==> has_open_bracket_token(
            raw,
            stack[m]->Ordering_0.span,
        )
}

proof fn lemma_pop_for_brackets(
    stack: Seq<StackEntry>,
    op: Operator,
    out: Seq<Spanned<Token>>,
    raw: Seq<Spanned<RawToken>>,
)
    requires
        brackets_from(stack, raw),
    ensures
        brackets_from(pop_for(stack, op, out).0, raw),
    decreases stack.len(),
{
    if stack.len() > 0 && crate::tokens::should_pop(stack.last(), op) {
        assert(forall|m: int|
            0 <= m < stack.drop_last().len() ==> stack.drop_last()[m] == stack[m]);
        lemma_pop_for_brackets(stack.drop_last(), op, out.push(stack.last()->Resolved_0), raw);
    }
}

proof fn lemma_pop_to_paren_brackets(
    stack: Seq<StackEntry>,
    out: Seq<Spanned<Token>>,
    raw: Seq<Spanned<RawToken>>,
)
    requires
        brackets_from(stack, raw),
        pop_to_paren(stack, out) is Some,
    ensures
        brackets_from(pop_to_paren(stack, out)->Some_0.0, raw),
    decreases stack.len(),
{
    if stack.len() > 0 {
        assert(forall|m: int|
            0 <= m < stack.drop_last().len() ==> stack.drop_last()[m] == stack[m]);
        match stack.last() {
            StackEntry::Resolved(t) => {
                lemma_pop_to_paren_brackets(stack.drop_last(), out.push(t), raw);
            },
            StackEntry::Ordering(o) => {},
        }
    }
}

proof fn lemma_step_brackets(st: ResolveState, t: Spanned<RawToken>, raw: Seq<Spanned<RawToken>>)
    requires
        brackets_from(st.stack, raw),
        exists|i: int| 0 <= i < raw.len() && (#[trigger] raw[i]) == t,
        resolve_step(st, t) is Ok,
    ensures
        brackets_from(resolve_step(st, t)->Ok_0.stack, raw),
{
    let st2 = resolve_step(st, t)->Ok_0;
    match crate::tokens::transition_spec(st.mode, t) {
        Err(_) => {},
        Ok(entry) => match entry {
            StackEntry::Resolved(rt) => match rt.inner {
                Token::Value(_) => {},
                Token::Operator(op) => {
                    lemma_pop_for_brackets(st.stack, op, st.out, raw);
                    let popped = pop_for(st.stack, op, st.out);
                    assert(st2.stack == popped.0.push(entry));
                    assert(forall|m: int|
                        0 <= m < popped.0.len() ==> st2.stack[m] == popped.0[m]);
                },
            },
            StackEntry::Ordering(o) => {
                if o.inner is LeftParen {
                    assert(t.inner == RawToken::Symbol(Symbol::LeftParen));
                    assert(has_open_bracket_token(raw, o.span));
                    assert(st2.stack == st.stack.push(entry));
                    assert(forall|m: int|
                        0 <= m < st.stack.len() ==> st2.stack[m] == st.stack[m]);
                } else {
                    lemma_pop_to_paren_brackets(st.stack, st.out, raw);
                }
            },
        },
    }
}

proof fn lemma_process_brackets(raw: Seq<Spanned<RawToken>>, j: int, st: ResolveState)
    requires
        0 <= j <= raw.len(),
        brackets_from(st.stack, raw),
        process(raw.subrange(j, raw.len() as int), st) is Ok,
    ensures
        brackets_from(process(raw.subrange(j, raw.len() as int), st)->Ok_0.stack, raw),
    decreases raw.len() - j,
{
    let sfx = raw.subrange(j, raw.len() as int);
    if j == raw.len() {
        assert(sfx =~= Seq::<Spanned<RawToken>>::empty());
    } else {
        assert(sfx.first() == raw[j]);
        assert(sfx.drop_first() =~= raw.subrange(j + 1, raw.len() as int));
        match resolve_step(st, sfx.first()) {
            Err(_) => {},
            Ok(st2) => {
                lemma_step_brackets(st, raw[j], raw);
                lemma_process_brackets(raw, j + 1, st2);
            },
        }
    }
}

/// An unmatched left bracket at end of input fails with the
/// unclosed-left-bracket error at that bracket's span: whenever the whole
/// input is consumed but a bracket is still open, resolution fails at the
/// span of a left-bracket token of the input — the topmost one still on
/// the stack.
pub proof fn lemma_unclosed_left_bracket(raw: Seq<Spanned<RawToken>>)
    requires
        process(raw, init_state()) matches Ok(st) && exists|m: int|
            0 <= m < st.stack.len() && (#[trigger] st.stack[m]) is Ordering,
    ensures
        ({
            let st = process(raw, init_state())->Ok_0;
            let m = topmost_ordering(st.stack);
            &&& resolve_spec(raw) == Err::<Seq<Spanned<Token>>, Spanned<ProcessorError>>(
                Spanned {
                    inner: ProcessorError::UnclosedLeftBracket,
                    span: st.stack[m]->Ordering_0.span,
                },
            )
            &&& has_open_bracket_token(raw, st.stack[m]->Ordering_0.span)
        }),
{
    let st = process(raw, init_state())->Ok_0;
    assert(raw.subrange(0, raw.len() as int) =~= raw);
    lemma_process_brackets(raw, 0, init_state());
    lemma_flush_unclosed_left(st.stack, st.out);
    let m = topmost_ordering(st.stack);
    assert(st.stack[m] is Ordering);
}

proof fn lemma_pop_to_paren_none(stack: Seq<StackEntry>, out: Seq<Spanned<Token>>)
    requires
        forall|m: int|
            0 <= m < stack.len() ==> !(stack[m] is Ordering
                && stack[m]->Ordering_0.inner is LeftParen),
    ensures
        pop_to_paren(stack, out) is None,
    decreases stack.len(),
{
    if stack.len() > 0 {
        if stack.last() is Resolved {
            assert(forall|m: int|
                0 <= m < stack.drop_last().len() ==> stack.drop_last()[m] == stack[m]);
            lemma_pop_to_paren_none(stack.drop_last(), out.push(stack.last()->Resolved_0));
        }
    }
}

} // verus!
