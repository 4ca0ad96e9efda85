use vstd::prelude::*;
use crate::lexer::{lex, lex_spec, LexError};
use crate::operators::Op;
use crate::nodes::{canonical_name, graph_spec, StrategyView};
use crate::token::{Context, GrammarView, Operator, OperatorView, Token, TokenKind, TokenView, tokens_view};

verus! {

/// Why an expression could not be brought into postfix order.
#[derive(Debug, Clone, Copy, PartialEq, Eq, Structural)]
pub enum ParseError {
    /// The expression could not be split into tokens.
    Lex(LexError),
    /// A closing parenthesis without an opening one, or an opening one that
    /// is never closed.
    MismatchedParenthesis,
    /// A token other than an operator or a parenthesis was found on the
    /// operator stack while placing an operator.
    IllegalStackEntry,
}

/// A pair of operator stack and output.
pub type Shunting = (Seq<TokenView>, Seq<TokenView>);

/// Moves to `out` the operators atop `stack` that bind at least as tightly
/// as an incoming operator of precedence `q`: those of higher precedence,
/// and those of equal precedence when the incoming one is left-associative.
/// Stops at an opening parenthesis or an empty stack.
pub open spec fn pop_operators(stack: Seq<TokenView>, out: Seq<TokenView>, q: u8, left: bool) -> Result<Shunting, ParseError>
    decreases stack.len(),
{
    if stack.len() == 0 {
        Ok((stack, out))
    } else {
        let top = stack.last();
        match top {
            TokenView::LeftParen => Ok((stack, out)),
            TokenView::Operator(op) => if op.precedence() > q || (op.precedence() == q && left) {
                pop_operators(stack.drop_last(), out.push(top), q, left)
            } else {
                Ok((stack, out))
            },
            _ => Err(ParseError::IllegalStackEntry),
        }
    }
}

/// Moves tokens from the top of `stack` to `out` until one of kind `stop`
/// is popped, which is dropped; the flag tells whether one was found.
pub open spec fn shift_until_spec(stack: Seq<TokenView>, out: Seq<TokenView>, stop: TokenKind) -> (Seq<TokenView>, Seq<TokenView>, bool)
    decreases stack.len(),
{
    if stack.len() == 0 {
        (stack, out, false)
    } else if stack.last().kind() == stop {
        (stack.drop_last(), out, true)
    } else {
        shift_until_spec(stack.drop_last(), out.push(stack.last()), stop)
    }
}

/// A closing parenthesis: everything above the matching opening one goes to
/// the output, and then a function call that the parenthesis closes.
pub open spec fn close_paren(stack: Seq<TokenView>, out: Seq<TokenView>) -> Result<Shunting, ParseError> {
    let (s, o, found) = shift_until_spec(stack, out, TokenKind::LeftParen);
    if !found {
        Err(ParseError::MismatchedParenthesis)
    } else if s.len() > 0 && s.last() is Function {
        Ok((s.drop_last(), o.push(s.last())))
    } else {
        Ok((s, o))
    }
}

/// One token of the infix sequence.
pub open spec fn shunt_token(stack: Seq<TokenView>, out: Seq<TokenView>, t: TokenView) -> Result<Shunting, ParseError> {
    match t {
        TokenView::NoToken => Ok((stack, out)),
        TokenView::Comma => Ok((stack, out)),
        TokenView::Number(_) => Ok((stack, out.push(t))),
        TokenView::Zero => Ok((stack, out.push(t))),
        TokenView::Unity => Ok((stack, out.push(t))),
        TokenView::Variable(_) => Ok((stack, out.push(t))),
        TokenView::Function(_) => Ok((stack.push(t), out)),
        TokenView::LeftParen => Ok((stack.push(t), out)),
        TokenView::Operator(op) => match pop_operators(stack, out, op.precedence(), op.left_assoc()) {
            Ok((s, o)) => Ok((s.push(t), o)),
            Err(e) => Err(e),
        },
        TokenView::RightParen => close_paren(stack, out),
    }
}

/// The postfix sequence of `tokens` from `i` on, from the given state.
pub open spec fn shunt_from(tokens: Seq<TokenView>, i: int, stack: Seq<TokenView>, out: Seq<TokenView>) -> Result<Seq<TokenView>, ParseError>
    decreases tokens.len() - i,
{
    if i < 0 || i >= tokens.len() {
        let (s, o, found) = shift_until_spec(stack, out, TokenKind::LeftParen);
        if found {
            Err(ParseError::MismatchedParenthesis)
        } else {
            Ok(o)
        }
    } else {
        match shunt_token(stack, out, tokens[i]) {
            Ok((s, o)) => shunt_from(tokens, i + 1, s, o),
            Err(e) => Err(e),
        }
    }
}

/// The postfix (reverse Polish) sequence of an infix token sequence.
pub open spec fn postfix_of_tokens(tokens: Seq<TokenView>) -> Result<Seq<TokenView>, ParseError> {
    shunt_from(tokens, 0, Seq::empty(), Seq::empty())
}

/// The postfix sequence of the expression `text` under grammar `g`.
pub open spec fn postfix_spec(text: Seq<char>, g: GrammarView) -> Result<Seq<TokenView>, ParseError> {
    match lex_spec(text, g) {
        Err(e) => Err(ParseError::Lex(e)),
        Ok(ts) => postfix_of_tokens(ts),
    }
}

/// Splits `expr` into tokens and brings them into postfix order.
pub fn shunt(expr: &str, context: &Context) -> (r: Result<Vec<Token>, ParseError>)
    ensures
        r matches Ok(ts) ==> postfix_spec(expr@, context@) == Ok::<Seq<TokenView>, ParseError>(tokens_view(ts@)),
        r matches Err(e) ==> postfix_spec(expr@, context@) == Err::<Seq<TokenView>, ParseError>(e),
{
    let tokens = match lex(expr, context) {
        Ok(ts) => ts,
        Err(e) => {
            return Err(ParseError::Lex(e));
        },
    };
    let ghost tv = tokens_view(tokens@);
    let mut operator_stack: Vec<Token> = Vec::new();
    let mut output: Vec<Token> = Vec::new();
    let mut i: usize = 0;
    assert(tokens_view(operator_stack@) =~= Seq::<TokenView>::empty());
    assert(tokens_view(output@) =~= Seq::<TokenView>::empty());
    while i < tokens.len()
        invariant
            i <= tokens@.len(),
            tv == tokens_view(tokens@),
            postfix_spec(expr@, context@) == shunt_from(tv, i as int, tokens_view(operator_stack@), tokens_view(output@)),
        decreases tokens@.len() - i,
    {
        let token = &tokens[i];
        assert(tv[i as int] == token@);
        let ghost s0 = tokens_view(operator_stack@);
        let ghost o0 = tokens_view(output@);
        match token {
            Token::NoToken => {},
            Token::Comma => {},
            Token::Number(_) | Token::Zero | Token::Unity | Token::Variable(_) => {
                output.push(token.duplicate());
                assert(tokens_view(output@) =~= o0.push(token@));
            },
            Token::Function(_) | Token::LeftParen => {
                operator_stack.push(token.duplicate());
                assert(tokens_view(operator_stack@) =~= s0.push(token@));
            },
            Token::Operator(op) => {
                if let Err(e) = handle_operator(&mut operator_stack, &mut output, op) {
                    return Err(e);
                }
                let ghost s1 = tokens_view(operator_stack@);
                operator_stack.push(token.duplicate());
                assert(tokens_view(operator_stack@) =~= s1.push(token@));
            },
            Token::RightParen => {
                if let Err(e) = handle_rparen(&mut operator_stack, &mut output) {
                    return Err(e);
                }
            },
        }
        i = i + 1;
    }
    if shift_until(&mut operator_stack, &mut output, TokenKind::LeftParen) {
        return Err(ParseError::MismatchedParenthesis);
    }
    Ok(output)
}

/// The postfix sequence rendered as the tokens' texts joined by commas.
pub open spec fn rpn_text(s: Seq<TokenView>) -> Seq<char>
    decreases s.len(),
{
    if s.len() == 0 {
        Seq::empty()
    } else if s.len() == 1 {
        s[0].text()
    } else {
        rpn_text(s.drop_last()) + ","@ + s.last().text()
    }
}

/// Renders a postfix sequence as the tokens' texts joined by commas.
pub fn stringify_rpn(postfix: &Vec<Token>) -> (r: String)
    ensures
        r@ == rpn_text(tokens_view(postfix@)),
{
    let mut ret = String::new();
    let mut i: usize = 0;
    while i < postfix.len()
        invariant
            i <= postfix@.len(),
            ret@ == rpn_text(tokens_view(postfix@).subrange(0, i as int)),
        decreases postfix@.len() - i,
    {
        let ghost prev = tokens_view(postfix@).subrange(0, i as int);
        let ghost next = tokens_view(postfix@).subrange(0, i + 1);
        assert(next.drop_last() =~= prev);
        if i > 0 {
            ret.append(",");
        } else {
            proof {
                reveal_strlit("");
            }
            assert(ret@ + postfix@[0]@.text() =~= postfix@[0]@.text());
        }
        ret.append(postfix[i].stringify());
        i = i + 1;
    }
    assert(tokens_view(postfix@).subrange(0, i as int) =~= tokens_view(postfix@));
    ret
}

/// Places an incoming operator: moves to the output the operators atop the
/// stack that bind at least as tightly (see `pop_operators`).
fn handle_operator(operator_stack: &mut Vec<Token>, output: &mut Vec<Token>, operator: &Operator) -> (r: Result<(), ParseError>)
    ensures
        ({
            let res = pop_operators(tokens_view(old(operator_stack)@), tokens_view(old(output)@), operator@.precedence(), operator@.left_assoc());
            match res {
                Ok((s, o)) => r is Ok && tokens_view(final(operator_stack)@) == s && tokens_view(final(output)@) == o,
                Err(e) => r == Err::<(), ParseError>(e),
            }
        }),
{
    let q = operator.get_precedence();
    let left = operator.get_is_left_associative();
    let ghost goal = pop_operators(tokens_view(operator_stack@), tokens_view(output@), q, left);
    loop
        invariant
            goal == pop_operators(tokens_view(old(operator_stack)@), tokens_view(old(output)@), q, left),
            q == operator@.precedence(),
            left == operator@.left_assoc(),
            goal == pop_operators(tokens_view(operator_stack@), tokens_view(output@), q, left),
        decreases operator_stack@.len(),
    {
        let ghost s0 = tokens_view(operator_stack@);
        let ghost o0 = tokens_view(output@);
        let n = operator_stack.len();
        if n == 0 {
            return Ok(());
        }
        assert(s0.last() == operator_stack@[n - 1]@);
        match &operator_stack[n - 1] {
            Token::LeftParen => {
                return Ok(());
            },
            Token::Operator(top_operator) => {
                let p = top_operator.get_precedence();
                if p > q || (p == q && left) {
                    match operator_stack.pop() {
                        Some(t) => {
                            output.push(t);
                        },
                        None => {},
                    }
                    assert(tokens_view(operator_stack@) =~= s0.drop_last());
                    assert(tokens_view(output@) =~= o0.push(s0.last()));
                } else {
                    return Ok(());
                }
            },
            _ => {
                return Err(ParseError::IllegalStackEntry);
            },
        }
    }
}

/// A closing parenthesis (see `close_paren`).
fn handle_rparen(operator_stack: &mut Vec<Token>, output: &mut Vec<Token>) -> (r: Result<(), ParseError>)
    ensures
        ({
            let res = close_paren(tokens_view(old(operator_stack)@), tokens_view(old(output)@));
            match res {
                Ok((s, o)) => r is Ok && tokens_view(final(operator_stack)@) == s && tokens_view(final(output)@) == o,
                Err(e) => r == Err::<(), ParseError>(e),
            }
        }),
{
    if !shift_until(operator_stack, output, TokenKind::LeftParen) {
        return Err(ParseError::MismatchedParenthesis);
    }
    let ghost s0 = tokens_view(operator_stack@);
    let ghost o0 = tokens_view(output@);
    let n = operator_stack.len();
    if n > 0 {
        assert(s0.last() == operator_stack@[n - 1]@);
        if let Token::Function(_) = &operator_stack[n - 1] {
            match operator_stack.pop() {
                Some(t) => {
                    output.push(t);
                },
                None => {},
            }
            assert(tokens_view(operator_stack@) =~= s0.drop_last());
            assert(tokens_view(output@) =~= o0.push(s0.last()));
        }
    }
    Ok(())
}

/// Moves tokens from the stack to the output until one of kind `stop` is
/// popped, which is dropped; returns whether one was found.
fn shift_until(operator_stack: &mut Vec<Token>, output: &mut Vec<Token>, stop: TokenKind) -> (r: bool)
    ensures
        (tokens_view(final(operator_stack)@), tokens_view(final(output)@), r)
            == shift_until_spec(tokens_view(old(operator_stack)@), tokens_view(old(output)@), stop),
{
    let ghost goal = shift_until_spec(tokens_view(operator_stack@), tokens_view(output@), stop);
    loop
        invariant
            goal == shift_until_spec(tokens_view(old(operator_stack)@), tokens_view(old(output)@), stop),
            goal == shift_until_spec(tokens_view(operator_stack@), tokens_view(output@), stop),
        decreases operator_stack@.len(),
    {
        let ghost s0 = tokens_view(operator_stack@);
        let ghost o0 = tokens_view(output@);
        match operator_stack.pop() {
            None => {
                return false;
            },
            Some(token) => {
                assert(tokens_view(operator_stack@) =~= s0.drop_last());
                if token.kind() == stop {
                    return true;
                }
                output.push(token);
                assert(tokens_view(output@) =~= o0.push(s0.last()));
            },
        }
    }
}

/// Parsing depends on the text and the grammar alone: the same text under
/// the same grammar gives the same postfix sequence, the same rendering of
/// it and, with the same bindings and strategies, the same graph: the same
/// nodes, the same root and the same canonical name.
pub proof fn lemma_parse_deterministic(
    t1: Seq<char>,
    t2: Seq<char>,
    g1: GrammarView,
    g2: GrammarView,
    bound: Seq<Seq<char>>,
    table: Seq<StrategyView>,
)
    requires
        t1 == t2,
        g1 == g2,
    ensures
        postfix_spec(t1, g1) == postfix_spec(t2, g2),
        postfix_spec(t1, g1) matches Ok(first) ==> ({
            let second = postfix_spec(t2, g2)->Ok_0;
            &&& rpn_text(first) == rpn_text(second)
            &&& canonical_name(first, bound, table) == canonical_name(second, bound, table)
            &&& graph_spec(first, bound, table) == graph_spec(second, bound, table)
        }),
{
}

/// Token `t` takes exactly one input: a unary operator, or a function of one
/// input.
pub open spec fn takes_one_input(t: TokenView) -> bool {
    match t {
        TokenView::Operator(OperatorView::Unary(_)) => true,
        TokenView::Function(f) => f.arity == 1,
        _ => false,
    }
}

/// Among the first `n` tokens of the postfix sequence `s`: each position
/// whose token has text `name` and is followed directly by a token that
/// takes one input, with that token's text followed by `name`.
pub open spec fn single_input_pairs_spec(s: Seq<TokenView>, name: Seq<char>, n: int) -> Seq<(usize, Seq<char>)>
    decreases n,
{
    if n <= 0 {
        Seq::empty()
    } else {
        let prev = single_input_pairs_spec(s, name, n - 1);
        let i = n - 1;
        if i + 1 < s.len() && s[i].text() == name && takes_one_input(s[i + 1]) {
            prev.push((i as usize, s[i + 1].text() + name))
        } else {
            prev
        }
    }
}

/// The pairs as plain values.
pub open spec fn pairs_view(v: Seq<(usize, String)>) -> Seq<(usize, Seq<char>)> {
    v.map_values(|p: (usize, String)| (p.0, p.1@))
}

/// Where in the postfix sequence `rpn` a leaf of text `name` is taken
/// directly by a unary operator or a function of one input: its position,
/// and the text of that operator or function followed by `name`.
pub fn single_input_pairs(rpn: &Vec<Token>, name: &str) -> (r: Vec<(usize, String)>)
    ensures
        pairs_view(r@) == single_input_pairs_spec(tokens_view(rpn@), name@, rpn@.len() as int),
{
    let ghost s = tokens_view(rpn@);
    let mut pairs: Vec<(usize, String)> = Vec::new();
    let target = String::from_str(name);
    let mut i: usize = 0;
    assert(pairs_view(pairs@) =~= Seq::<(usize, Seq<char>)>::empty());
    while i < rpn.len()
        invariant
            s == tokens_view(rpn@),
            target@ == name@,
            i <= rpn@.len(),
            pairs_view(pairs@) == single_input_pairs_spec(s, name@, i as int),
        decreases rpn@.len() - i,
    {
        assert(s[i as int] == rpn@[i as int]@);
        if i + 1 < rpn.len() && String::from_str(rpn[i].stringify()) == target {
            let next = &rpn[i + 1];
            assert(s[i + 1] == next@);
            let one = match next {
                Token::Operator(Operator::UnaryOperator(_)) => true,
                Token::Function(f) => f.get_n_inputs() == 1,
                _ => false,
            };
            if one {
                let mut text = String::from_str(next.stringify());
                text.append(name);
                let ghost before = pairs@;
                pairs.push((i, text));
                assert(pairs_view(pairs@) =~= pairs_view(before).push((i, s[i + 1].text() + name@)));
            }
        }
        i = i + 1;
    }
    pairs
}

} // verus!
