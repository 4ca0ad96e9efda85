use vstd::prelude::*;
use crate::lexer::{begins_with_at, call_commas, call_separators, first_prefix, function_step, LexError, Lexed};
use crate::token::Context;

verus! {

/// A function of the grammar: its token string and its fixed number of inputs.
#[derive(Debug, Clone, PartialEq)]
pub struct Function {
    token: String,
    n_inputs: u8,
}

/// What a function is, as plain values.
pub struct FunctionView {
    pub token: Seq<char>,
    pub arity: u8,
}

impl View for Function {
    type V = FunctionView;

    closed spec fn view(&self) -> FunctionView {
        FunctionView { token: self.token@, arity: self.n_inputs }
    }
}

impl Function {
    pub fn new(token: &str, n_inputs: u8) -> (r: Self)
        ensures
            r@ == (FunctionView { token: token@, arity: n_inputs }),
    {
        Function { token: token.to_string(), n_inputs }
    }

    pub fn get_token(&self) -> (r: &str)
        ensures
            r@ == self@.token,
    {
        self.token.as_str()
    }

    pub fn get_n_inputs(&self) -> (r: u8)
        ensures
            r == self@.arity,
    {
        self.n_inputs
    }
}

/// The functions that the default grammar knows: `sin`, of one input.
pub fn default_functions() -> (r: Vec<Function>)
    ensures
        r@.len() == 1,
        r@[0]@ == (FunctionView { token: "sin"@, arity: 1 }),
{
    let mut r: Vec<Function> = Vec::new();
    r.push(Function::new("sin", 1));
    r
}

} // verus!

verus! {

/// The number of top-level commas in the parenthesised argument list that
/// begins at `start`, or `None` where none begins there or it is not closed.
fn count_call_commas(chars: &Vec<char>, start: usize) -> (r: Option<usize>)
    requires
        start <= chars@.len(),
    ensures
        r matches Some(c) ==> call_separators(chars@.subrange(start as int, chars@.len() as int)) == Some(c as nat),
        r is None ==> call_separators(chars@.subrange(start as int, chars@.len() as int)) is None,
{
    let ghost s = chars@.subrange(start as int, chars@.len() as int);
    if start >= chars.len() || chars[start] != '(' {
        return None;
    }
    let mut j: usize = start + 1;
    let mut depth: usize = 1;
    let mut commas: usize = 0;
    while j < chars.len()
        invariant
            start < j <= chars@.len(),
            s == chars@.subrange(start as int, chars@.len() as int),
            1 <= depth <= j - start,
            commas <= j - start,
            call_separators(s) == call_commas(s, j - start, depth as nat, commas as nat),
        decreases chars@.len() - j,
    {
        let c = chars[j];
        assert(s[j - start] == c);
        if c == '(' {
            depth = depth + 1;
        } else if c == ')' {
            if depth <= 1 {
                return Some(commas);
            }
            depth = depth - 1;
        } else if c == ',' && depth == 1 {
            commas = commas + 1;
        }
        j = j + 1;
    }
    None
}

/// Reads the call of the first function of `context` whose name begins the
/// text at `pos`: `Ok(None)` where no name does, the function's index where
/// its argument list fits its number of inputs, and the error otherwise.
pub fn begins_with_function(chars: &Vec<char>, pos: usize, context: &Context) -> (r: Result<Option<usize>, LexError>)
    requires
        pos <= chars@.len(),
    ensures
        ({
            let s = chars@.subrange(pos as int, chars@.len() as int);
            let found = first_prefix(context@.functions.map_values(|f: FunctionView| f.token), s, 0);
            match r {
                Ok(None) => found is None,
                Ok(Some(i)) => found == Some(i as int) && function_step(s, pos, context@.functions[i as int])
                    == Lexed::Emit(crate::token::TokenView::Function(context@.functions[i as int]), context@.functions[i as int].token.len()),
                Err(e) => found is Some && function_step(s, pos, context@.functions[found->0]) == Lexed::Fail(e),
            }
        }),
{
    let ghost s = chars@.subrange(pos as int, chars@.len() as int);
    let ghost toks = context@.functions.map_values(|f: FunctionView| f.token);
    let mut i: usize = 0;
    while i < context.functions.len()
        invariant
            i <= context.functions@.len(),
            toks == context@.functions.map_values(|f: FunctionView| f.token),
            s == chars@.subrange(pos as int, chars@.len() as int),
            pos <= chars@.len(),
            first_prefix(toks, s, 0) == first_prefix(toks, s, i as int),
        decreases context.functions@.len() - i,
    {
        let func = &context.functions[i];
        let name = func.get_token();
        assert(toks[i as int] == name@);
        if begins_with_at(chars, pos, name) {
            let flen = name.unicode_len();
            assert(s.len() == chars@.len() - pos);
            assert(flen <= chars.len() - pos);
            assert(s.subrange(flen as int, s.len() as int) =~= chars@.subrange((pos + flen) as int, chars@.len() as int));
            match count_call_commas(chars, pos + flen) {
                None => {
                    return Err(LexError::MalformedCall { position: pos });
                },
                Some(c) => {
                    if c < 255 && c + 1 == func.get_n_inputs() as usize {
                        return Ok(Some(i));
                    }
                    return Err(LexError::ArityMismatch { position: pos, arity: func.get_n_inputs(), commas: c });
                },
            }
        }
        i = i + 1;
    }
    Ok(None)
}

} // verus!
