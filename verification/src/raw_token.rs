//! The lexer: scans one line of text into a finite sequence of spanned raw
//! lexemes (identifier / number / symbol). Leading whitespace is skipped
//! before each lexeme. A leading alphabetic character consumes the maximal
//! alphabetic run and interns it; a leading numeric character consumes the
//! maximal run of numeric characters and dots, which must be a run of ASCII
//! digits holding at most one dot; otherwise exactly one character is
//! consumed and mapped to a fixed symbol, or the lexer fails.
//!
//! A number lexeme carries no payload here: its digits are the span's text,
//! and the session driver turns them into the 64-bit encoding of the numeric
//! value before resolution.

use vstd::prelude::*;

use crate::interner::{intern_handle, intern_names, Interner};
use crate::span::{Span, Spanned};

verus! {

/// One of the language's fixed one-character symbols.
#[derive(Debug, Clone, Copy, PartialEq, Eq, Hash, Structural)]
pub enum Symbol {
    Equals,
    Add,
    Sub,
    Mul,
    Div,
    LeftParen,
    RightParen,
    Print,
    Semicolon,
}

/// A raw lexeme as scanned from the line. A `Number` lexeme's digits are
/// the text under its span.
#[derive(Debug, Clone, Copy, PartialEq, Eq, Hash, Structural)]
pub enum Lexeme {
    Ident(usize),
    Number,
    Symbol(Symbol),
}

/// A raw token, ready for resolution: an interned identifier handle, the
/// 64-bit encoding of a numeric literal's value, or a symbol.
#[derive(Debug, Clone, Copy, PartialEq, Eq, Hash, Structural)]
pub enum RawToken {
    Ident(usize),
    Number(u64),
    Symbol(Symbol),
}

/// A lexing failure: a character that starts no lexeme, or a numeric run
/// that is not a well-formed literal.
#[derive(Debug, Clone, Copy, PartialEq, Eq, Hash, Structural)]
pub enum LexError {
    UnexpectedCharacter,
    InvalidNumberLiteral,
}

/// Whether `char::is_alphabetic` holds of `c`.
pub uninterp spec fn alphabetic_char(c: char) -> bool;

/// Whether `char::is_numeric` holds of `c`.
pub uninterp spec fn numeric_char(c: char) -> bool;

/// Whether `char::is_whitespace` holds of `c`.
pub uninterp spec fn whitespace_char(c: char) -> bool;

/// Relies on char::is_alphabetic: the classification depends on the
/// character alone.
#[verifier::external_body]
fn is_alphabetic_char(c: char) -> (r: bool)
    ensures
        r == alphabetic_char(c),
{
    c.is_alphabetic()
}

/// Relies on char::is_numeric: the classification depends on the character
/// alone.
#[verifier::external_body]
fn is_numeric_char(c: char) -> (r: bool)
    ensures
        r == numeric_char(c),
{
    c.is_numeric()
}

/// Relies on char::is_whitespace: the classification depends on the
/// character alone.
#[verifier::external_body]
fn is_whitespace_char(c: char) -> (r: bool)
    ensures
        r == whitespace_char(c),
{
    c.is_whitespace()
}

/// An ASCII decimal digit.
pub open spec fn digit_char(c: char) -> bool {
    48 <= (c as u32) <= 57
}

/// The symbol a single character maps to, if any.
pub open spec fn symbol_of(c: char) -> Option<Symbol> {
    if c == '=' {
        Some(Symbol::Equals)
    } else if c == '+' {
        Some(Symbol::Add)
    } else if c == '-' {
        Some(Symbol::Sub)
    } else if c == '*' {
        Some(Symbol::Mul)
    } else if c == '/' {
        Some(Symbol::Div)
    } else if c == '(' {
        Some(Symbol::LeftParen)
    } else if c == ')' {
        Some(Symbol::RightParen)
    } else if c == '%' {
        Some(Symbol::Print)
    } else if c == ';' {
        Some(Symbol::Semicolon)
    } else {
        None
    }
}

fn classify_symbol(c: char) -> (r: Option<Symbol>)
    ensures
        r == symbol_of(c),
{
    match c {
        '=' => Some(Symbol::Equals),
        '+' => Some(Symbol::Add),
        '-' => Some(Symbol::Sub),
        '*' => Some(Symbol::Mul),
        '/' => Some(Symbol::Div),
        '(' => Some(Symbol::LeftParen),
        ')' => Some(Symbol::RightParen),
        '%' => Some(Symbol::Print),
        ';' => Some(Symbol::Semicolon),
        _ => None,
    }
}

/// End of the maximal alphabetic run starting at `i`.
pub open spec fn alpha_run_end(line: Seq<char>, i: int) -> int
    decreases line.len() - i,
{
    if 0 <= i < line.len() && alphabetic_char(line[i]) {
        alpha_run_end(line, i + 1)
    } else {
        i
    }
}

/// End of the maximal run of numeric characters and dots starting at `i`.
pub open spec fn num_run_end(line: Seq<char>, i: int) -> int
    decreases line.len() - i,
{
    if 0 <= i < line.len() && (numeric_char(line[i]) || line[i] == '.') {
        num_run_end(line, i + 1)
    } else {
        i
    }
}

proof fn lemma_alpha_run_end(line: Seq<char>, i: int)
    requires
        0 <= i <= line.len(),
    ensures
        i <= alpha_run_end(line, i) <= line.len(),
    decreases line.len() - i,
{
    if i < line.len() && alphabetic_char(line[i]) {
        lemma_alpha_run_end(line, i + 1);
    }
}

proof fn lemma_num_run_end(line: Seq<char>, i: int)
    requires
        0 <= i <= line.len(),
    ensures
        i <= num_run_end(line, i) <= line.len(),
    decreases line.len() - i,
{
    if i < line.len() && (numeric_char(line[i]) || line[i] == '.') {
        lemma_num_run_end(line, i + 1);
    }
}

/// How many dots a run of characters holds.
pub open spec fn count_dots(s: Seq<char>) -> int
    decreases s.len(),
{
    if s.len() == 0 {
        0
    } else {
        count_dots(s.drop_last()) + if s.last() == '.' {
            1int
        } else {
            0int
        }
    }
}

/// A numeric run is a well-formed literal when it is all ASCII digits with
/// at most one dot; exactly such runs parse as 64-bit doubles.
pub open spec fn valid_number_run(s: Seq<char>) -> bool {
    &&& forall|k: int| 0 <= k < s.len() ==> digit_char(s[k]) || s[k] == '.'
    &&& count_dots(s) <= 1
}

/// What lexing from a position yields: the remaining lexemes or the first
/// error, together with the interning table as it stands afterwards.
pub struct LexOut {
    pub result: Result<Seq<Spanned<Lexeme>>, Spanned<LexError>>,
    pub names: Seq<Seq<char>>,
}

/// The lexer's meaning, from position `i` with interning table `names`.
pub open spec fn lex_from(line: Seq<char>, i: int, names: Seq<Seq<char>>) -> LexOut
    decreases line.len() - i,
    via lex_from_decreases
{
    if i < 0 || i >= line.len() {
        LexOut { result: Ok(Seq::empty()), names }
    } else if whitespace_char(line[i]) {
        lex_from(line, i + 1, names)
    } else if alphabetic_char(line[i]) {
        let j = alpha_run_end(line, i);
        let name = line.subrange(i, j);
        let tok = Spanned {
            inner: Lexeme::Ident(intern_handle(names, name) as usize),
            span: Span { start: i as usize, end: j as usize },
        };
        let rest = lex_from(line, j, intern_names(names, name));
        LexOut {
            result: match rest.result {
                Ok(ts) => Ok(seq![tok] + ts),
                Err(e) => Err(e),
            },
            names: rest.names,
        }
    } else if numeric_char(line[i]) {
        let j = num_run_end(line, i);
        let span = Span { start: i as usize, end: j as usize };
        if valid_number_run(line.subrange(i, j)) {
            let tok = Spanned { inner: Lexeme::Number, span };
            let rest = lex_from(line, j, names);
            LexOut {
                result: match rest.result {
                    Ok(ts) => Ok(seq![tok] + ts),
                    Err(e) => Err(e),
                },
                names: rest.names,
            }
        } else {
            LexOut { result: Err(Spanned { inner: LexError::InvalidNumberLiteral, span }), names }
        }
    } else {
        let span = Span { start: i as usize, end: (i + 1) as usize };
        match symbol_of(line[i]) {
            Some(sym) => {
                let tok = Spanned { inner: Lexeme::Symbol(sym), span };
                let rest = lex_from(line, i + 1, names);
                LexOut {
                    result: match rest.result {
                        Ok(ts) => Ok(seq![tok] + ts),
                        Err(e) => Err(e),
                    },
                    names: rest.names,
                }
            },
            None => LexOut {
                result: Err(Spanned { inner: LexError::UnexpectedCharacter, span }),
                names,
            },
        }
    }
}

#[via_fn]
proof fn lex_from_decreases(line: Seq<char>, i: int, names: Seq<Seq<char>>) {
    if 0 <= i < line.len() {
        if alphabetic_char(line[i]) {
            lemma_alpha_run_end(line, i + 1);
        } else if numeric_char(line[i]) {
            lemma_num_run_end(line, i + 1);
        }
    }
}

/// The lexing loop's abstraction: what has been emitted so far plus the
/// meaning of the rest equals the meaning of the whole line.
pub open spec fn lex_loop_inv(
    full: LexOut,
    line: Seq<char>,
    i: int,
    names: Seq<Seq<char>>,
    out: Seq<Spanned<Lexeme>>,
) -> bool {
    let cur = lex_from(line, i, names);
    &&& full.names == cur.names
    &&& full.result == match cur.result {
        Ok(ts) => Ok::<Seq<Spanned<Lexeme>>, Spanned<LexError>>(out + ts),
        Err(e) => Err::<Seq<Spanned<Lexeme>>, Spanned<LexError>>(e),
    }
}

/// The view a lexer result takes in specifications.
pub open spec fn lex_result_view(r: Result<Vec<Spanned<Lexeme>>, Spanned<LexError>>) -> Result<
    Seq<Spanned<Lexeme>>,
    Spanned<LexError>,
> {
    match r {
        Ok(v) => Ok(v@),
        Err(e) => Err(e),
    }
}

/// Scans one line into spanned raw lexemes, interning identifier spellings,
/// stopping at the first ill-formed character or numeric literal.
pub fn parse_raw_tokens(line: &Vec<char>, interner: &mut Interner) -> (r: Result<
    Vec<Spanned<Lexeme>>,
    Spanned<LexError>,
>)
    ensures
        ({
            let out = lex_from(line@, 0, old(interner).names_seq());
            &&& out.result == lex_result_view(r)
            &&& out.names == final(interner).names_seq()
        }),
{
    let ghost full = lex_from(line@, 0, old(interner).names_seq());
    let mut out: Vec<Spanned<Lexeme>> = Vec::new();
    let n = line.len();
    let mut i: usize = 0;
    while i < n
        invariant
            0 <= i <= n,
            n == line@.len(),
            full == lex_from(line@, 0, old(interner).names_seq()),
            lex_loop_inv(full, line@, i as int, interner.names_seq(), out@),
        decreases n - i,
    {
        let ghost cur = lex_from(line@, i as int, interner.names_seq());
        let c = line[i];
        if is_whitespace_char(c) {
            i += 1;
        } else if is_alphabetic_char(c) {
            let mut j = i + 1;
            let mut in_run = true;
            while j < n && in_run
                invariant
                    i < j <= n,
                    n == line@.len(),
                    alpha_run_end(line@, i as int) == alpha_run_end(line@, j as int),
                    !in_run ==> alpha_run_end(line@, j as int) == j,
                decreases n - j + if in_run { 1int } else { 0int },
            {
                if is_alphabetic_char(line[j]) {
                    j += 1;
                } else {
                    in_run = false;
                }
            }
            proof {
                assert(alpha_run_end(line@, j as int) == j);
            }
            let mut name: Vec<char> = Vec::new();
            let mut k = i;
            while k < j
                invariant
                    i <= k <= j <= n,
                    n == line@.len(),
                    name@ == line@.subrange(i as int, k as int),
                decreases j - k,
            {
                name.push(line[k]);
                proof {
                    assert(name@ =~= line@.subrange(i as int, k as int + 1));
                }
                k += 1;
            }
            let handle = interner.insert(&name);
            let tok = Spanned { inner: Lexeme::Ident(handle), span: Span { start: i, end: j } };
            let ghost out0 = out@;
            out.push(tok);
            proof {
                assert(j == alpha_run_end(line@, i as int));
                assert(name@ == line@.subrange(i as int, j as int));
                let rest = lex_from(line@, j as int, interner.names_seq());
                if rest.result is Ok {
                    let ts = rest.result.unwrap();
                    assert(out0 + (seq![tok] + ts) =~= out@ + ts);
                }
            }
            i = j;
        } else if is_numeric_char(c) {
            let mut j = i + 1;
            let mut in_run = true;
            while j < n && in_run
                invariant
                    i < j <= n,
                    n == line@.len(),
                    num_run_end(line@, i as int) == num_run_end(line@, j as int),
                    !in_run ==> num_run_end(line@, j as int) == j,
                decreases n - j + if in_run { 1int } else { 0int },
            {
                let d = line[j];
                if is_numeric_char(d) || d == '.' {
                    j += 1;
                } else {
                    in_run = false;
                }
            }
            proof {
                assert(num_run_end(line@, j as int) == j);
            }
            let ghost run = line@.subrange(i as int, j as int);
            let mut dots: usize = 0;
            let mut all_digits = true;
            let mut k = i;
            while k < j
                invariant
                    i <= k <= j <= n,
                    n == line@.len(),
                    run == line@.subrange(i as int, j as int),
                    dots <= k - i,
                    dots == count_dots(line@.subrange(i as int, k as int)),
                    all_digits == forall|m: int|
                        i <= m < k ==> digit_char(line@[m]) || line@[m] == '.',
                decreases j - k,
            {
                let d = line[k];
                if d == '.' {
                    dots += 1;
                } else if !((d as u32) >= 48 && (d as u32) <= 57) {
                    all_digits = false;
                }
                proof {
                    assert(line@.subrange(i as int, k as int + 1).drop_last() =~= line@.subrange(
                        i as int,
                        k as int,
                    ));
                }
                k += 1;
            }
            proof {
                assert(run =~= line@.subrange(i as int, j as int));
            }
            if all_digits && dots <= 1 {
                proof {
                    assert forall|m: int| 0 <= m < run.len() implies digit_char(run[m]) || run[m]
                        == '.' by {
                        assert(run[m] == line@[i + m]);
                    }
                    assert(valid_number_run(run));
                }
                let tok = Spanned { inner: Lexeme::Number, span: Span { start: i, end: j } };
                let ghost out0 = out@;
                out.push(tok);
                proof {
                    assert(j == num_run_end(line@, i as int));
                    let rest = lex_from(line@, j as int, interner.names_seq());
                    if rest.result is Ok {
                        let ts = rest.result.unwrap();
                        assert(out0 + (seq![tok] + ts) =~= out@ + ts);
                    }
                }
                i = j;
            } else {
                proof {
                    if !all_digits {
                        let m = choose|m: int|
                            i <= m < j && !(digit_char(line@[m]) || line@[m] == '.');
                        assert(run[m - i] == line@[m]);
                        assert(!valid_number_run(run));
                    } else {
                        assert(!valid_number_run(run));
                    }
                }
                return Err(Spanned {
                    inner: LexError::InvalidNumberLiteral,
                    span: Span { start: i, end: j },
                });
            }
        } else {
            match classify_symbol(c) {
                Some(sym) => {
                    let tok = Spanned {
                        inner: Lexeme::Symbol(sym),
                        span: Span { start: i, end: i + 1 },
                    };
                    let ghost out0 = out@;
                    out.push(tok);
                    proof {
                        let rest = lex_from(line@, i as int + 1, interner.names_seq());
                        if rest.result is Ok {
                            let ts = rest.result.unwrap();
                            assert(out0 + (seq![tok] + ts) =~= out@ + ts);
                        }
                    }
                    i += 1;
                },
                None => {
                    return Err(Spanned {
                        inner: LexError::UnexpectedCharacter,
                        span: Span { start: i, end: i + 1 },
                    });
                },
            }
        }
    }
    proof {
        assert(out@ + Seq::<Spanned<Lexeme>>::empty() =~= out@);
    }
    Ok(out)
}

} // verus!
