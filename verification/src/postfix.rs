//! The resolver's central law: for any well-bracketed expression over the
//! four arithmetic operators, the resolved output is exactly the
//! expression's standard postfix form.
//!
//! The grammar of such expressions is stated as three nested rendering
//! relations — additive level, multiplicative level, atoms — mirroring the
//! precedence table. A rendering is witnessed by a derivation recording
//! where each binary operator splits its token string, and the law is
//! proved by structural induction over derivations against the resolver's
//! spec-level model.

use vstd::prelude::*;

use crate::raw_token::{RawToken, Symbol};
use crate::span::Spanned;
use crate::tokens::{
    flush_ops, init_state, pop_for, pop_to_paren, process, resolve_spec, should_pop, Associativity,
    Mode, Operator, Ordering, ProcessorError, ResolveState, StackEntry, Token, Value,
};

verus! {

/// An arithmetic expression: a number, an identifier, or a binary
/// operation.
pub enum Expr {
    Number(u64),
    Ident(usize),
    Binary(Operator, Box<Expr>, Box<Expr>),
}

/// How a token string derives an expression: a single leaf token, a
/// bracketed expression, or a binary split at a recorded position.
pub enum Deriv {
    Leaf,
    Parens(Box<Deriv>),
    Split(int, Box<Deriv>, Box<Deriv>),
}

/// The multiplicative-level operators.
pub open spec fn is_mul_op(op: Operator) -> bool {
    op == Operator::Mul || op == Operator::Div
}

/// The additive-level operators.
pub open spec fn is_add_op(op: Operator) -> bool {
    op == Operator::Add || op == Operator::Sub
}

/// The four arithmetic operators.
pub open spec fn is_arith_op(op: Operator) -> bool {
    is_add_op(op) || is_mul_op(op)
}

/// The symbol an arithmetic operator is written as.
pub open spec fn symbol_for(op: Operator) -> Symbol {
    match op {
        Operator::Add => Symbol::Add,
        Operator::Sub => Symbol::Sub,
        Operator::Mul => Symbol::Mul,
        Operator::Div => Symbol::Div,
        Operator::Equals => Symbol::Equals,
        Operator::Print => Symbol::Print,
        Operator::Semicolon => Symbol::Semicolon,
    }
}

/// The expression's standard postfix form: left operand, right operand,
/// operator.
pub open spec fn postfix(e: Expr) -> Seq<Token>
    decreases e,
{
    match e {
        Expr::Number(b) => seq![Token::Value(Value::Number(b))],
        Expr::Ident(id) => seq![Token::Value(Value::Ident(id))],
        Expr::Binary(op, l, r) => postfix(*l) + postfix(*r) + seq![Token::Operator(op)],
    }
}

/// The raw token a leaf expression is written as.
pub open spec fn leaf_token(e: Expr, t: RawToken) -> bool {
    match e {
        Expr::Number(b) => t == RawToken::Number(b),
        Expr::Ident(id) => t == RawToken::Ident(id),
        Expr::Binary(..) => false,
    }
}

/// The token a leaf expression resolves to.
pub open spec fn token_of_leaf(e: Expr) -> Token {
    match e {
        Expr::Number(b) => Token::Value(Value::Number(b)),
        Expr::Ident(id) => Token::Value(Value::Ident(id)),
        Expr::Binary(..) => Token::Value(Value::Number(0)),
    }
}

/// `d` derives `e` from `s` as an atom: a single leaf token, or any
/// expression in brackets.
pub open spec fn renders_atom(e: Expr, s: Seq<Spanned<RawToken>>, d: Deriv) -> bool
    decreases d, 0int,
{
    match d {
        Deriv::Leaf => s.len() == 1 && leaf_token(e, s[0].inner),
        Deriv::Parens(inner) => s.len() >= 3 && s.first().inner == RawToken::Symbol(
            Symbol::LeftParen,
        ) && s.last().inner == RawToken::Symbol(Symbol::RightParen) && renders_add(
            e,
            s.subrange(1, s.len() - 1),
            *inner,
        ),
        Deriv::Split(..) => false,
    }
}

/// `d` derives `e` from `s` at the multiplicative level: an atom, or a
/// `*`/`/` chain grouping to the left, split where `d` records.
pub open spec fn renders_mul(e: Expr, s: Seq<Spanned<RawToken>>, d: Deriv) -> bool
    decreases d, 2int,
{
    if d is Split && e is Binary && is_mul_op(e->Binary_0) {
        let k = d->Split_0;
        &&& 0 < k < s.len()
        &&& s[k].inner == RawToken::Symbol(symbol_for(e->Binary_0))
        &&& renders_mul(*e->Binary_1, s.subrange(0, k), *d->Split_1)
        &&& renders_atom(*e->Binary_2, s.subrange(k + 1, s.len() as int), *d->Split_2)
    } else {
        renders_atom(e, s, d)
    }
}

/// `d` derives `e` from `s` at the additive level — that is, `s` is a
/// well-bracketed expression over `+ - * /` whose reading under the
/// precedence table is `e`, as the derivation `d` witnesses.
pub open spec fn renders_add(e: Expr, s: Seq<Spanned<RawToken>>, d: Deriv) -> bool
    decreases d, 4int,
{
    if d is Split && e is Binary && is_add_op(e->Binary_0) {
        let k = d->Split_0;
        &&& 0 < k < s.len()
        &&& s[k].inner == RawToken::Symbol(symbol_for(e->Binary_0))
        &&& renders_add(*e->Binary_1, s.subrange(0, k), *d->Split_1)
        &&& renders_mul(*e->Binary_2, s.subrange(k + 1, s.len() as int), *d->Split_2)
    } else {
        renders_mul(e, s, d)
    }
}

/// The output tokens with their spans dropped.
pub open spec fn strip_spans(s: Seq<Spanned<Token>>) -> Seq<Token> {
    s.map_values(|t: Spanned<Token>| t.inner)
}

/// The tokens that popping a stack suffix emits, topmost first.
pub open spec fn popped_tokens(p: Seq<StackEntry>) -> Seq<Token>
    decreases p.len(),
{
    if p.len() == 0 {
        Seq::empty()
    } else {
        seq![p.last()->Resolved_0.inner] + popped_tokens(p.drop_last())
    }
}

/// The stack's top cannot be forced out by any operator of precedence at
/// least `p`: it is absent, a bracket, or an operator binding more
/// loosely than `p`.
pub open spec fn stack_blocks(stack: Seq<StackEntry>, p: int) -> bool {
    ||| stack.len() == 0
    ||| (match stack.last() {
        StackEntry::Ordering(o) => o.inner is LeftParen,
        StackEntry::Resolved(t) => match t.inner {
            Token::Operator(op) => op.spec_precedence() < p,
            Token::Value(_) => false,
        },
    })
}

/// A stack suffix of operators awaiting emission, all arithmetic and all
/// of precedence at least `p`.
pub open spec fn all_pending_arith(pending: Seq<StackEntry>, p: int) -> bool {
    forall|j: int|
        0 <= j < pending.len() ==> #[trigger] pending[j] is Resolved && pending[j]->Resolved_0.inner
            is Operator && is_arith_op(pending[j]->Resolved_0.inner->Operator_0)
            && pending[j]->Resolved_0.inner->Operator_0.spec_precedence() >= p
}

/// Processing a single token is one resolution step.
proof fn lemma_process_one(t: Spanned<RawToken>, st: ResolveState)
    ensures
        process(seq![t], st) == match crate::tokens::resolve_step(st, t) {
            Ok(m) => Ok::<ResolveState, Spanned<ProcessorError>>(m),
            Err(e) => Err(e),
        },
{
    let s = seq![t];
    assert(s.len() == 1);
    assert(s.first() == t);
    assert(s.drop_first() =~= Seq::<Spanned<RawToken>>::empty());
    match crate::tokens::resolve_step(st, t) {
        Ok(m) => {
            assert(process(s.drop_first(), m) == Ok::<ResolveState, Spanned<ProcessorError>>(m));
        },
        Err(e) => {},
    }
}

/// Popping a single operator entry emits its token.
proof fn lemma_popped_one(x: StackEntry)
    ensures
        popped_tokens(seq![x]) == seq![x->Resolved_0.inner],
{
    let p = seq![x];
    assert(p.drop_last() =~= Seq::<StackEntry>::empty());
    assert(popped_tokens(p.drop_last()) == Seq::<Token>::empty());
    assert(seq![x->Resolved_0.inner] + popped_tokens(p.drop_last()) =~= seq![
        x->Resolved_0.inner,
    ]);
}

proof fn lemma_strip_push(s: Seq<Spanned<Token>>, x: Spanned<Token>)
    ensures
        strip_spans(s.push(x)) == strip_spans(s).push(x.inner),
{
    assert(strip_spans(s.push(x)) =~= strip_spans(s).push(x.inner));
}

/// Processing a concatenation is processing the parts in turn.
proof fn lemma_process_concat(a: Seq<Spanned<RawToken>>, b: Seq<Spanned<RawToken>>, st: ResolveState)
    ensures
        process(a + b, st) == match process(a, st) {
            Ok(m) => process(b, m),
            Err(e) => Err(e),
        },
    decreases a.len(),
{
    if a.len() == 0 {
        assert(a + b =~= b);
    } else {
        assert((a + b).first() == a.first());
        assert((a + b).drop_first() =~= a.drop_first() + b);
        match crate::tokens::resolve_step(st, a.first()) {
            Err(e) => {},
            Ok(st2) => {
                lemma_process_concat(a.drop_first(), b, st2);
            },
        }
    }
}

/// Popping for an operator that every pending entry yields to, above a
/// blocked base, pops exactly the pending entries.
proof fn lemma_pop_for_through(
    base: Seq<StackEntry>,
    pending: Seq<StackEntry>,
    op: Operator,
    out: Seq<Spanned<Token>>,
)
    requires
        op.spec_associativity() == Associativity::Left,
        all_pending_arith(pending, op.spec_precedence()),
        stack_blocks(base, op.spec_precedence()),
    ensures
        pop_for(base + pending, op, out).0 == base,
        strip_spans(pop_for(base + pending, op, out).1) == strip_spans(out) + popped_tokens(
            pending,
        ),
    decreases pending.len(),
{
    if pending.len() == 0 {
        assert(base + pending =~= base);
        if base.len() > 0 {
            assert(!should_pop(base.last(), op));
        }
        assert(strip_spans(out) + popped_tokens(pending) =~= strip_spans(out));
    } else {
        let whole = base + pending;
        assert(whole.last() == pending.last());
        assert(should_pop(whole.last(), op));
        assert(whole.drop_last() =~= base + pending.drop_last());
        let x = pending.last()->Resolved_0;
        lemma_pop_for_through(base, pending.drop_last(), op, out.push(x));
        lemma_strip_push(out, x);
        assert((strip_spans(out).push(x.inner)) + popped_tokens(pending.drop_last())
            =~= strip_spans(out) + (seq![x.inner] + popped_tokens(pending.drop_last())));
    }
}

/// Popping to a bracket, above pending operator entries, emits exactly
/// those entries and discards the bracket.
proof fn lemma_pop_to_paren_through(
    base: Seq<StackEntry>,
    lp: Spanned<Ordering>,
    pending: Seq<StackEntry>,
    out: Seq<Spanned<Token>>,
)
    requires
        lp.inner is LeftParen,
        all_pending_arith(pending, 0),
    ensures
        pop_to_paren(base.push(StackEntry::Ordering(lp)) + pending, out) matches Some(p) && p.0
            == base && strip_spans(p.1) == strip_spans(out) + popped_tokens(pending),
    decreases pending.len(),
{
    let whole = base.push(StackEntry::Ordering(lp)) + pending;
    if pending.len() == 0 {
        assert(whole =~= base.push(StackEntry::Ordering(lp)));
        assert(whole.last() == StackEntry::Ordering(lp));
        assert(whole.drop_last() =~= base);
        assert(strip_spans(out) + popped_tokens(pending) =~= strip_spans(out));
    } else {
        assert(whole.last() == pending.last());
        assert(pending.last() is Resolved);
        let x = pending.last()->Resolved_0;
        assert(whole.drop_last() =~= base.push(StackEntry::Ordering(lp)) + pending.drop_last());
        lemma_pop_to_paren_through(base, lp, pending.drop_last(), out.push(x));
        lemma_strip_push(out, x);
        assert((strip_spans(out).push(x.inner)) + popped_tokens(pending.drop_last())
            =~= strip_spans(out) + (seq![x.inner] + popped_tokens(pending.drop_last())));
    }
}

/// Flushing a stack of operator entries emits them topmost first.
proof fn lemma_flush_resolved(stack: Seq<StackEntry>, out: Seq<Spanned<Token>>)
    requires
        all_pending_arith(stack, 0),
    ensures
        flush_ops(stack, out) matches Ok(o) && strip_spans(o) == strip_spans(out) + popped_tokens(
            stack,
        ),
    decreases stack.len(),
{
    if stack.len() == 0 {
        assert(strip_spans(out) + popped_tokens(stack) =~= strip_spans(out));
    } else {
        assert(stack[stack.len() - 1] is Resolved);
        let x = stack.last()->Resolved_0;
        lemma_flush_resolved(stack.drop_last(), out.push(x));
        lemma_strip_push(out, x);
        assert((strip_spans(out).push(x.inner)) + popped_tokens(stack.drop_last())
            =~= strip_spans(out) + (seq![x.inner] + popped_tokens(stack.drop_last())));
    }
}

/// Popping a concatenated suffix emits the upper part first.
proof fn lemma_popped_concat(a: Seq<StackEntry>, b: Seq<StackEntry>)
    ensures
        popped_tokens(a + b) == popped_tokens(b) + popped_tokens(a),
    decreases b.len(),
{
    if b.len() == 0 {
        assert(a + b =~= a);
        assert(popped_tokens(b) + popped_tokens(a) =~= popped_tokens(a));
    } else {
        assert((a + b).last() == b.last());
        assert((a + b).drop_last() =~= a + b.drop_last());
        lemma_popped_concat(a, b.drop_last());
        assert(seq![b.last()->Resolved_0.inner] + (popped_tokens(b.drop_last()) + popped_tokens(a))
            =~= (seq![b.last()->Resolved_0.inner] + popped_tokens(b.drop_last())) + popped_tokens(
            a,
        ));
    }
}

/// What processing a rendering from a fitting state leaves behind: the
/// mode expects an operator, the base stack is back with only pending
/// arithmetic operators of precedence at least `p` above it, and the
/// emitted output plus those pending operators is exactly the
/// expression's postfix form.
pub open spec fn leaves_postfix(
    st: ResolveState,
    s: Seq<Spanned<RawToken>>,
    e: Expr,
    p: int,
) -> bool {
    match process(s, st) {
        Ok(st2) => {
            let pending = st2.stack.subrange(st.stack.len() as int, st2.stack.len() as int);
            &&& st2.mode == Mode::ExpectOperator
            &&& st2.stack.len() >= st.stack.len()
            &&& st2.stack.subrange(0, st.stack.len() as int) == st.stack
            &&& all_pending_arith(pending, p)
            &&& strip_spans(st2.out) + popped_tokens(pending) == strip_spans(st.out) + postfix(e)
        },
        Err(_) => false,
    }
}

/// An atom rendering resolves to its postfix form and leaves the stack
/// exactly as it found it.
proof fn lemma_atom(e: Expr, s: Seq<Spanned<RawToken>>, d: Deriv, st: ResolveState)
    requires
        renders_atom(e, s, d),
        st.mode == Mode::ExpectValue,
    ensures
        process(s, st) matches Ok(st2) && st2.mode == Mode::ExpectOperator && st2.stack == st.stack
            && strip_spans(st2.out) == strip_spans(st.out) + postfix(e),
    decreases d, 0int,
{
    if d is Leaf {
        let v = Spanned { inner: token_of_leaf(e), span: s[0].span };
        let st2 = ResolveState { mode: Mode::ExpectOperator, stack: st.stack, out: st.out.push(v) };
        assert(crate::tokens::resolve_step(st, s[0]) == Ok::<
            ResolveState,
            Spanned<ProcessorError>,
        >(st2));
        assert(s.first() == s[0]);
        assert(s.drop_first() =~= Seq::<Spanned<RawToken>>::empty());
        assert(process(s.drop_first(), st2) == Ok::<ResolveState, Spanned<ProcessorError>>(st2));
        assert(process(s, st) == Ok::<ResolveState, Spanned<ProcessorError>>(st2));
        lemma_strip_push(st.out, v);
        assert(strip_spans(st.out).push(v.inner) =~= strip_spans(st.out) + postfix(e));
    } else {
        let inner = s.subrange(1, s.len() - 1);
        assert(renders_add(e, inner, *d->Parens_0));
        let lp_entry = Spanned { inner: Ordering::LeftParen, span: s[0].span };
        let st1 = ResolveState {
            mode: Mode::ExpectValue,
            stack: st.stack.push(StackEntry::Ordering(lp_entry)),
            out: st.out,
        };
        assert(s.first() == s[0]);
        assert(crate::tokens::resolve_step(st, s[0]) == Ok::<
            ResolveState,
            Spanned<ProcessorError>,
        >(st1));
        assert(s.drop_first() =~= inner + seq![s.last()]);
        assert(process(s, st) == process(inner + seq![s.last()], st1));
        lemma_process_concat(inner, seq![s.last()], st1);
        lemma_add(e, inner, *d->Parens_0, st1);
        let st2 = process(inner, st1)->Ok_0;
        let pending = st2.stack.subrange(st1.stack.len() as int, st2.stack.len() as int);
        assert(st2.stack =~= st1.stack + pending);
        assert(st2.stack =~= st.stack.push(StackEntry::Ordering(lp_entry)) + pending);
        lemma_pop_to_paren_through(st.stack, lp_entry, pending, st2.out);
        let popped = pop_to_paren(st2.stack, st2.out)->Some_0;
        let st3 = ResolveState { mode: Mode::ExpectOperator, stack: popped.0, out: popped.1 };
        assert(crate::tokens::resolve_step(st2, s.last()) == Ok::<
            ResolveState,
            Spanned<ProcessorError>,
        >(st3));
        lemma_process_one(s.last(), st2);
        assert(process(s, st) == Ok::<ResolveState, Spanned<ProcessorError>>(st3));
        assert(strip_spans(st3.out) =~= strip_spans(st.out) + postfix(e));
    }
}

/// A multiplicative rendering resolves to its postfix form, leaving at
/// most its last operator pending above the base stack.
#[verifier::rlimit(60)]
proof fn lemma_mul(e: Expr, s: Seq<Spanned<RawToken>>, d: Deriv, st: ResolveState)
    requires
        renders_mul(e, s, d),
        st.mode == Mode::ExpectValue,
        stack_blocks(st.stack, 3),
    ensures
        leaves_postfix(st, s, e, 3),
    decreases d, 2int,
{
    if d is Split && e is Binary && is_mul_op(e->Binary_0) {
        let k = d->Split_0;
        let op = e->Binary_0;
        let sl = s.subrange(0, k);
        let sr = s.subrange(k + 1, s.len() as int);
        assert(s =~= sl + (seq![s[k]] + sr));
        lemma_process_concat(sl, seq![s[k]] + sr, st);
        lemma_mul(*e->Binary_1, sl, *d->Split_1, st);
        let st1 = process(sl, st)->Ok_0;
        let pm = st1.stack.subrange(st.stack.len() as int, st1.stack.len() as int);
        assert(st1.stack =~= st.stack + pm);
        lemma_process_concat(seq![s[k]], sr, st1);
        let op_entry = StackEntry::Resolved(
            Spanned { inner: Token::Operator(op), span: s[k].span },
        );
        assert(op.spec_associativity() == Associativity::Left);
        lemma_pop_for_through(st.stack, pm, op, st1.out);
        let pf = pop_for(st1.stack, op, st1.out);
        assert(pf == pop_for(st.stack + pm, op, st1.out));
        assert(pf.0 == st.stack);
        let st2 = ResolveState { mode: Mode::ExpectValue, stack: pf.0.push(op_entry), out: pf.1 };
        assert(crate::tokens::resolve_step(st1, s[k]) == Ok::<
            ResolveState,
            Spanned<ProcessorError>,
        >(st2));
        lemma_process_one(s[k], st1);
        lemma_atom(*e->Binary_2, sr, *d->Split_2, st2);
        let st3 = process(sr, st2)->Ok_0;
        assert(process(s, st) == Ok::<ResolveState, Spanned<ProcessorError>>(st3));
        assert(st3.stack == st.stack.push(op_entry));
        let pending = st3.stack.subrange(st.stack.len() as int, st3.stack.len() as int);
        assert(pending =~= seq![op_entry]);
        lemma_popped_one(op_entry);
        assert(pending[0] == op_entry);
        assert(all_pending_arith(pending, 3));
        assert(st3.stack.subrange(0, st.stack.len() as int) =~= st.stack);
        let a = strip_spans(st.out);
        let b = postfix(*e->Binary_1);
        let c = postfix(*e->Binary_2);
        let q = seq![Token::Operator(op)];
        assert(popped_tokens(pending) == q);
        assert(strip_spans(st2.out) == a + b);
        assert(strip_spans(st3.out) == (a + b) + c);
        assert(postfix(e) == (b + c) + q);
        assert(((a + b) + c) + q =~= a + ((b + c) + q));
        assert(strip_spans(st3.out) + popped_tokens(pending) == strip_spans(st.out) + postfix(e));
    } else {
        lemma_atom(e, s, d, st);
        let st2 = process(s, st)->Ok_0;
        assert(st2.stack.subrange(0, st.stack.len() as int) =~= st.stack);
        let pending = st2.stack.subrange(st.stack.len() as int, st2.stack.len() as int);
        assert(pending =~= Seq::<StackEntry>::empty());
        assert(strip_spans(st2.out) + popped_tokens(pending) =~= strip_spans(st2.out));
    }
}

/// An additive rendering resolves to its postfix form, leaving only
/// arithmetic operators pending above the base stack.
#[verifier::rlimit(60)]
proof fn lemma_add(e: Expr, s: Seq<Spanned<RawToken>>, d: Deriv, st: ResolveState)
    requires
        renders_add(e, s, d),
        st.mode == Mode::ExpectValue,
        stack_blocks(st.stack, 2),
    ensures
        leaves_postfix(st, s, e, 2),
    decreases d, 4int,
{
    if d is Split && e is Binary && is_add_op(e->Binary_0) {
        let k = d->Split_0;
        let op = e->Binary_0;
        let sl = s.subrange(0, k);
        let sr = s.subrange(k + 1, s.len() as int);
        assert(s =~= sl + (seq![s[k]] + sr));
        lemma_process_concat(sl, seq![s[k]] + sr, st);
        lemma_add(*e->Binary_1, sl, *d->Split_1, st);
        let st1 = process(sl, st)->Ok_0;
        let pm = st1.stack.subrange(st.stack.len() as int, st1.stack.len() as int);
        assert(st1.stack =~= st.stack + pm);
        lemma_process_concat(seq![s[k]], sr, st1);
        let op_entry = StackEntry::Resolved(
            Spanned { inner: Token::Operator(op), span: s[k].span },
        );
        assert(op.spec_associativity() == Associativity::Left);
        lemma_pop_for_through(st.stack, pm, op, st1.out);
        let pf = pop_for(st1.stack, op, st1.out);
        assert(pf == pop_for(st.stack + pm, op, st1.out));
        assert(pf.0 == st.stack);
        let st2 = ResolveState { mode: Mode::ExpectValue, stack: pf.0.push(op_entry), out: pf.1 };
        assert(crate::tokens::resolve_step(st1, s[k]) == Ok::<
            ResolveState,
            Spanned<ProcessorError>,
        >(st2));
        lemma_process_one(s[k], st1);
        assert(stack_blocks(st2.stack, 3));
        lemma_mul(*e->Binary_2, sr, *d->Split_2, st2);
        let st3 = process(sr, st2)->Ok_0;
        assert(process(s, st) == Ok::<ResolveState, Spanned<ProcessorError>>(st3));
        let pr = st3.stack.subrange(st2.stack.len() as int, st3.stack.len() as int);
        assert(st3.stack =~= st2.stack + pr);
        let pending = st3.stack.subrange(st.stack.len() as int, st3.stack.len() as int);
        assert(pending =~= seq![op_entry] + pr);
        assert(st3.stack.subrange(0, st.stack.len() as int) =~= st.stack);
        lemma_popped_concat(seq![op_entry], pr);
        lemma_popped_one(op_entry);
        assert forall|j: int| 0 <= j < pending.len() implies #[trigger] pending[j] is Resolved
            && pending[j]->Resolved_0.inner is Operator && is_arith_op(
            pending[j]->Resolved_0.inner->Operator_0,
        ) && pending[j]->Resolved_0.inner->Operator_0.spec_precedence() >= 2 by {
            if j == 0 {
                assert(pending[0] == op_entry);
            } else {
                assert(pending[j] == pr[j - 1]);
            }
        }
        let a = strip_spans(st.out);
        let b = postfix(*e->Binary_1);
        let c = postfix(*e->Binary_2);
        let q = seq![Token::Operator(op)];
        assert(strip_spans(st2.out) == a + b);
        assert(strip_spans(st3.out) + popped_tokens(pr) == (a + b) + c);
        assert(postfix(e) == (b + c) + q);
        assert(popped_tokens(pending) == popped_tokens(pr) + q);
        assert((strip_spans(st3.out) + popped_tokens(pr)) + q =~= strip_spans(st3.out) + (
        popped_tokens(pr) + q));
        assert(((a + b) + c) + q =~= a + ((b + c) + q));
        assert(strip_spans(st3.out) + popped_tokens(pending) == strip_spans(st.out) + postfix(e));
    } else {
        lemma_mul(e, s, d, st);
        let st2 = process(s, st)->Ok_0;
        let pending = st2.stack.subrange(st.stack.len() as int, st2.stack.len() as int);
        assert(all_pending_arith(pending, 2));
    }
}

/// For any well-bracketed expression over `+ - * /` — any token string
/// `s` that a derivation `d` reads as the expression `e` under the
/// precedence table — the resolver's output is exactly `e`'s standard
/// postfix form.
pub proof fn lemma_resolver_emits_postfix(e: Expr, s: Seq<Spanned<RawToken>>, d: Deriv)
    requires
        renders_add(e, s, d),
    ensures
        resolve_spec(s) matches Ok(out) && strip_spans(out) == postfix(e),
{
    lemma_add(e, s, d, init_state());
    let st2 = process(s, init_state())->Ok_0;
    let pending = st2.stack.subrange(0, st2.stack.len() as int);
    assert(pending =~= st2.stack);
    lemma_flush_resolved(st2.stack, st2.out);
    assert(strip_spans(init_state().out) =~= Seq::<Token>::empty());
    assert(strip_spans(init_state().out) + postfix(e) =~= postfix(e));
}

} // verus!

