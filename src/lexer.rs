use vstd::prelude::*;
use crate::functions::{begins_with_function, Function, FunctionView};
use crate::operators::{begins_with_binary_operator, begins_with_unary_operator, UnaryView};
use crate::token::{Context, GrammarView, Operator, OperatorView, Token, TokenKind, TokenView, tokens_view};
use crate::varnum::{begins_with_number, begins_with_variable, chars_of, number_match, Variable};
use crate::operators::Op;

verus! {

/// Why an expression could not be split into tokens. Each position counts
/// characters from the start of the expression.
#[derive(Debug, Clone, Copy, PartialEq, Eq, Structural)]
pub enum LexError {
    /// No recognizer matches the text at `position`.
    NoMatch { position: usize },
    /// A function name at `position` is not followed by a closed,
    /// parenthesised argument list.
    MalformedCall { position: usize },
    /// The call at `position` holds `commas` top-level commas, which does not
    /// fit the function's number of inputs `arity`.
    ArityMismatch { position: usize, arity: u8, commas: usize },
}

/// `p` is a nonempty prefix of `s`.
pub open spec fn begins_with(s: Seq<char>, p: Seq<char>) -> bool {
    0 < p.len() <= s.len() && s.subrange(0, p.len() as int) == p
}

/// The first index from `i` on at which `toks` holds a nonempty prefix of `s`.
pub open spec fn first_prefix(toks: Seq<Seq<char>>, s: Seq<char>, i: int) -> Option<int>
    decreases toks.len() - i,
{
    if i < 0 || i >= toks.len() {
        None
    } else if begins_with(s, toks[i]) {
        Some(i)
    } else {
        first_prefix(toks, s, i + 1)
    }
}

/// The unary operator `u` may be read at the start of `s` after a token of
/// kind `last`.
pub open spec fn unary_applies(u: UnaryView, s: Seq<char>, last: TokenKind) -> bool {
    begins_with(s, u.token) && u.allowed.contains(last)
}

/// The first index from `i` on of a unary operator that may be read at the
/// start of `s` after a token of kind `last`.
pub open spec fn first_unary(ops: Seq<UnaryView>, s: Seq<char>, last: TokenKind, i: int) -> Option<int>
    decreases ops.len() - i,
{
    if i < 0 || i >= ops.len() {
        None
    } else if unary_applies(ops[i], s, last) {
        Some(i)
    } else {
        first_unary(ops, s, last, i + 1)
    }
}

/// Scanning `s` from `i`, at parenthesis depth `depth` with `commas` commas
/// seen at depth one: the number of commas at depth one when the depth
/// returns to zero, or `None` when `s` ends first.
pub open spec fn call_commas(s: Seq<char>, i: int, depth: nat, commas: nat) -> Option<nat>
    decreases s.len() - i,
{
    if i < 0 || i >= s.len() {
        None
    } else if s[i] == '(' {
        call_commas(s, i + 1, depth + 1, commas)
    } else if s[i] == ')' {
        if depth <= 1 {
            Some(commas)
        } else {
            call_commas(s, i + 1, (depth - 1) as nat, commas)
        }
    } else if s[i] == ',' && depth == 1 {
        call_commas(s, i + 1, depth, commas + 1)
    } else {
        call_commas(s, i + 1, depth, commas)
    }
}

/// The number of top-level commas in the parenthesised argument list that
/// `s` begins with; `None` when `s` does not begin with `(`, or the
/// parenthesis is never closed.
pub open spec fn call_separators(s: Seq<char>) -> Option<nat> {
    if s.len() > 0 && s[0] == '(' {
        call_commas(s, 1, 1, 0)
    } else {
        None
    }
}

/// The outcome of one recognizer step.
pub enum Lexed {
    /// A token, and the number of characters it takes.
    Emit(TokenView, nat),
    Fail(LexError),
}

/// Reading the function `f`, whose name `s` begins with, at `position`.
pub open spec fn function_step(s: Seq<char>, position: usize, f: FunctionView) -> Lexed {
    match call_separators(s.subrange(f.token.len() as int, s.len() as int)) {
        None => Lexed::Fail(LexError::MalformedCall { position }),
        Some(c) => if c + 1 == f.arity {
            Lexed::Emit(TokenView::Function(f), f.token.len())
        } else {
            Lexed::Fail(LexError::ArityMismatch { position, arity: f.arity, commas: c as usize })
        },
    }
}

/// The next token at the start of `s` (nonempty), which stands at `position`
/// of the expression, after a token of kind `last`. The recognizers are
/// tried in a fixed order and the first that matches decides.
pub open spec fn lex_step(s: Seq<char>, position: usize, last: TokenKind, g: GrammarView) -> Lexed {
    if s[0] == '(' {
        Lexed::Emit(TokenView::LeftParen, 1)
    } else if s[0] == ')' {
        Lexed::Emit(TokenView::RightParen, 1)
    } else if s[0] == ',' {
        Lexed::Emit(TokenView::Comma, 1)
    } else if let Some(i) = first_unary(g.unary, s, last, 0) {
        Lexed::Emit(TokenView::Operator(OperatorView::Unary(g.unary[i])), g.unary[i].token.len())
    } else if let Some(i) = first_prefix(g.binary.map_values(|b: crate::operators::BinaryView| b.token), s, 0) {
        Lexed::Emit(TokenView::Operator(OperatorView::Binary(g.binary[i])), g.binary[i].token.len())
    } else if let Some(i) = first_prefix(g.functions.map_values(|f: FunctionView| f.token), s, 0) {
        function_step(s, position, g.functions[i])
    } else if let Some(i) = first_prefix(g.variables, s, 0) {
        Lexed::Emit(TokenView::Variable(g.variables[i]), g.variables[i].len())
    } else if let Some(m) = number_match(s) {
        Lexed::Emit(TokenView::Number(m), m.len())
    } else {
        Lexed::Fail(LexError::NoMatch { position })
    }
}

/// The tokens of `text` from `pos` on, the one before being of kind `last`.
pub open spec fn lex_from(text: Seq<char>, pos: int, last: TokenKind, g: GrammarView) -> Result<Seq<TokenView>, LexError>
    decreases text.len() - pos via lex_from_decreases
{
    if pos < 0 || pos >= text.len() {
        Ok(Seq::empty())
    } else {
        match lex_step(text.subrange(pos, text.len() as int), pos as usize, last, g) {
            Lexed::Fail(e) => Err(e),
            Lexed::Emit(t, n) => prepend(seq![t], lex_from(text, pos + n, t.kind(), g)),
        }
    }
}

#[via_fn]
proof fn lex_from_decreases(text: Seq<char>, pos: int, last: TokenKind, g: GrammarView) {
    if 0 <= pos < text.len() {
        lemma_step_length(text.subrange(pos, text.len() as int), pos as usize, last, g);
    }
}

/// A prefix found by `first_prefix` is one of `toks`, and begins `s`.
pub proof fn lemma_first_prefix(toks: Seq<Seq<char>>, s: Seq<char>, i: int)
    ensures
        first_prefix(toks, s, i) matches Some(j) ==> 0 <= j < toks.len() && begins_with(s, toks[j]),
    decreases toks.len() - i,
{
    if 0 <= i < toks.len() && !begins_with(s, toks[i]) {
        lemma_first_prefix(toks, s, i + 1);
    }
}

/// An operator found by `first_unary` is one of `ops`, and applies.
pub proof fn lemma_first_unary(ops: Seq<UnaryView>, s: Seq<char>, last: TokenKind, i: int)
    ensures
        first_unary(ops, s, last, i) matches Some(j) ==> 0 <= j < ops.len() && unary_applies(ops[j], s, last),
    decreases ops.len() - i,
{
    if 0 <= i < ops.len() && !unary_applies(ops[i], s, last) {
        lemma_first_unary(ops, s, last, i + 1);
    }
}

/// Every token that a step reads takes at least one character of `s`, and
/// no more than `s` holds.
pub proof fn lemma_step_length(s: Seq<char>, position: usize, last: TokenKind, g: GrammarView)
    requires
        s.len() > 0,
    ensures
        lex_step(s, position, last, g) matches Lexed::Emit(t, n) ==> 0 < n <= s.len(),
{
    lemma_first_unary(g.unary, s, last, 0);
    lemma_first_prefix(g.binary.map_values(|b: crate::operators::BinaryView| b.token), s, 0);
    lemma_first_prefix(g.functions.map_values(|f: FunctionView| f.token), s, 0);
    lemma_first_prefix(g.variables, s, 0);
}

/// `p` followed by the tokens of `r`, or the error of `r`.
pub open spec fn prepend(p: Seq<TokenView>, r: Result<Seq<TokenView>, LexError>) -> Result<Seq<TokenView>, LexError> {
    match r {
        Ok(ts) => Ok(p + ts),
        Err(e) => Err(e),
    }
}

/// The tokens of `text` under grammar `g`, after the leading no-token marker.
pub open spec fn lex_spec(text: Seq<char>, g: GrammarView) -> Result<Seq<TokenView>, LexError> {
    prepend(seq![TokenView::NoToken], lex_from(text, 0, TokenKind::NoToken, g))
}

/// Whether `pat` is a nonempty prefix of `chars` from `pos` on.
pub fn begins_with_at(chars: &Vec<char>, pos: usize, pat: &str) -> (r: bool)
    requires
        pos <= chars@.len(),
    ensures
        r == begins_with(chars@.subrange(pos as int, chars@.len() as int), pat@),
{
    let n = pat.unicode_len();
    if n == 0 || n > chars.len() - pos {
        return false;
    }
    let ghost s = chars@.subrange(pos as int, chars@.len() as int);
    let mut k: usize = 0;
    while k < n
        invariant
            pos + n <= chars.len(),
            n == pat@.len(),
            s == chars@.subrange(pos as int, chars@.len() as int),
            k <= n,
            forall|j: int| 0 <= j < k ==> s[j] == pat@[j],
        decreases n - k,
    {
        if chars[pos + k] != pat.get_char(k) {
            assert(s.subrange(0, n as int)[k as int] != pat@[k as int]);
            return false;
        }
        k = k + 1;
    }
    assert(s.subrange(0, n as int) =~= pat@);
    true
}

/// Reads the token at `pos` of `expr`, whose characters are `chars`, after a
/// token of kind `last`: the token and the number of characters it takes.
fn lex_token(expr: &str, chars: &Vec<char>, pos: usize, last: TokenKind, context: &Context) -> (r: Result<(Token, usize), LexError>)
    requires
        chars@ == expr@,
        pos < chars@.len(),
    ensures
        r matches Ok((t, n)) ==> lex_step(chars@.subrange(pos as int, chars@.len() as int), pos, last, context@) == Lexed::Emit(t@, n as nat),
        r matches Err(e) ==> lex_step(chars@.subrange(pos as int, chars@.len() as int), pos, last, context@) == Lexed::Fail(e),
{
    let ghost s = chars@.subrange(pos as int, chars@.len() as int);
    let c = chars[pos];
    assert(s[0] == c);
    proof {
        lemma_step_length(s, pos, last, context@);
        lemma_first_unary(context@.unary, s, last, 0);
        lemma_first_prefix(context@.binary.map_values(|b: crate::operators::BinaryView| b.token), s, 0);
        lemma_first_prefix(context@.functions.map_values(|f: FunctionView| f.token), s, 0);
        lemma_first_prefix(context@.variables, s, 0);
    }
    if c == '(' {
        return Ok((Token::LeftParen, 1));
    } else if c == ')' {
        return Ok((Token::RightParen, 1));
    } else if c == ',' {
        return Ok((Token::Comma, 1));
    }
    if let Some(i) = begins_with_unary_operator(chars, pos, last, context) {
        let op = context.unary_operators[i].duplicate();
        let n = op.get_token().unicode_len();
        return Ok((Token::Operator(Operator::UnaryOperator(op)), n));
    }
    if let Some(i) = begins_with_binary_operator(chars, pos, context) {
        let op = context.binary_operators[i].duplicate();
        let n = op.get_token().unicode_len();
        return Ok((Token::Operator(Operator::BinaryOperator(op)), n));
    }
    match begins_with_function(chars, pos, context) {
        Err(e) => {
            return Err(e);
        },
        Ok(Some(i)) => {
            let f = &context.functions[i];
            let n = f.get_token().unicode_len();
            return Ok((Token::Function(Function::new(f.get_token(), f.get_n_inputs())), n));
        },
        Ok(None) => {},
    }
    if let Some(i) = begins_with_variable(chars, pos, context) {
        let v = &context.variables[i];
        let n = v.get_token().unicode_len();
        return Ok((Token::Variable(Variable::new(v.get_token())), n));
    }
    if let Some(num) = begins_with_number(expr, chars, pos) {
        let n = num.get_token().unicode_len();
        return Ok((Token::Number(num), n));
    }
    Err(LexError::NoMatch { position: pos })
}

/// Splits `expr` into tokens under the grammar `context`. The tokens begin
/// with the no-token marker, which stands for the start of the expression.
pub fn lex(expr: &str, context: &Context) -> (r: Result<Vec<Token>, LexError>)
    ensures
        r matches Ok(ts) ==> lex_spec(expr@, context@) == Ok::<Seq<TokenView>, LexError>(tokens_view(ts@)),
        r matches Err(e) ==> lex_spec(expr@, context@) == Err::<Seq<TokenView>, LexError>(e),
{
    let chars = chars_of(expr);
    let mut tokens: Vec<Token> = Vec::new();
    tokens.push(Token::NoToken);
    let mut last = TokenKind::NoToken;
    let mut pos: usize = 0;
    assert(tokens_view(tokens@) =~= seq![TokenView::NoToken]);
    while pos < chars.len()
        invariant
            chars@ == expr@,
            pos <= chars@.len(),
            lex_spec(expr@, context@) == prepend(tokens_view(tokens@), lex_from(expr@, pos as int, last, context@)),
        decreases chars@.len() - pos,
    {
        match lex_token(expr, &chars, pos, last, context) {
            Err(e) => {
                return Err(e);
            },
            Ok((t, n)) => {
                proof {
                    lemma_step_length(chars@.subrange(pos as int, chars@.len() as int), pos, last, context@);
                    let rest = lex_from(expr@, pos + n, t@.kind(), context@);
                    match rest {
                        Ok(ts) => {
                            assert(tokens_view(tokens@) + (seq![t@] + ts) =~= tokens_view(tokens@.push(t)) + ts);
                        },
                        Err(_) => {},
                    }
                }
                last = t.kind();
                tokens.push(t);
                pos = pos + n;
            },
        }
    }
    assert(tokens_view(tokens@) + Seq::<TokenView>::empty() =~= tokens_view(tokens@));
    Ok(tokens)
}

/// A function call is read only when its argument list holds one comma fewer
/// than the function has inputs. Where the text at `pos` begins with the
/// name of function `i`, the first whose name begins it, and no earlier
/// recognizer applies there: the step reads the function exactly when the
/// top-level commas number its arity less one; with any other number, or an
/// argument list that is missing or never closed, lexing fails there.
pub proof fn lemma_arity_enforced(text: Seq<char>, pos: int, last: TokenKind, g: GrammarView, i: int)
    requires
        0 <= pos < text.len(),
        pos <= usize::MAX,
        ({
            let s = text.subrange(pos, text.len() as int);
            &&& s[0] != '(' && s[0] != ')' && s[0] != ','
            &&& first_unary(g.unary, s, last, 0) is None
            &&& first_prefix(g.binary.map_values(|b: crate::operators::BinaryView| b.token), s, 0) is None
            &&& first_prefix(g.functions.map_values(|f: FunctionView| f.token), s, 0) == Some(i)
        }),
    ensures
        ({
            let s = text.subrange(pos, text.len() as int);
            let f = g.functions[i];
            let args = call_separators(s.subrange(f.token.len() as int, s.len() as int));
            &&& lex_step(s, pos as usize, last, g) is Emit <==> (args matches Some(c) && c + 1 == f.arity)
            &&& args is None ==> lex_from(text, pos, last, g) == Err::<Seq<TokenView>, LexError>(LexError::MalformedCall { position: pos as usize })
            &&& (args is Some && args->0 + 1 != f.arity) ==> lex_from(text, pos, last, g)
                == Err::<Seq<TokenView>, LexError>(LexError::ArityMismatch { position: pos as usize, arity: f.arity, commas: args->0 as usize })
        }),
{
    let s = text.subrange(pos, text.len() as int);
    lemma_first_prefix(g.functions.map_values(|f: FunctionView| f.token), s, 0);
}

/// Arity is enforced on whole expressions: for an expression that begins
/// with a call of function `i` (the first function whose name begins it,
/// where no operator does), lexing succeeds only if the call's top-level
/// commas number the function's arity less one, and then reads the function
/// as the first token after the marker; with another number of commas it
/// fails with `ArityMismatch`, and with no closed argument list with
/// `MalformedCall`.
pub proof fn lemma_call_arity_lex(text: Seq<char>, g: GrammarView, i: int)
    requires
        text.len() > 0,
        text[0] != '(' && text[0] != ')' && text[0] != ',',
        first_unary(g.unary, text, TokenKind::NoToken, 0) is None,
        first_prefix(g.binary.map_values(|b: crate::operators::BinaryView| b.token), text, 0) is None,
        first_prefix(g.functions.map_values(|f: FunctionView| f.token), text, 0) == Some(i),
    ensures
        ({
            let f = g.functions[i];
            let args = call_separators(text.subrange(f.token.len() as int, text.len() as int));
            &&& lex_spec(text, g) is Ok ==> args is Some && args->0 + 1 == f.arity
                && lex_spec(text, g)->Ok_0[1] == TokenView::Function(f)
            &&& args is None ==> lex_spec(text, g) == Err::<Seq<TokenView>, LexError>(LexError::MalformedCall { position: 0 })
            &&& (args is Some && args->0 + 1 != f.arity) ==> lex_spec(text, g)
                == Err::<Seq<TokenView>, LexError>(LexError::ArityMismatch { position: 0, arity: f.arity, commas: args->0 as usize })
        }),
{
    assert(text.subrange(0, text.len() as int) =~= text);
    lemma_arity_enforced(text, 0, TokenKind::NoToken, g, i);
    lemma_first_prefix(g.functions.map_values(|f: FunctionView| f.token), text, 0);
}

} // verus!
