use vstd::prelude::*;
use crate::lexer::{begins_with, begins_with_at, first_prefix, first_unary, unary_applies};
use crate::token::{Context, TokenKind};

verus! {

/// What every operator tells the precedence parser.
pub trait Op {
    spec fn op_token(&self) -> Seq<char>;

    spec fn op_precedence(&self) -> u8;

    spec fn op_left_associative(&self) -> bool;

    fn get_token(&self) -> (r: &str)
        ensures
            r@ == self.op_token(),
    ;

    fn get_precedence(&self) -> (r: u8)
        ensures
            r == self.op_precedence(),
    ;

    fn get_is_left_associative(&self) -> (r: bool)
        ensures
            r == self.op_left_associative(),
    ;
}

/// An operator of one operand, which may only follow a token of one of the
/// kinds in `allowed_left_tokens`.
#[derive(Debug, Clone, PartialEq)]
pub struct UnaryOperator {
    token: String,
    precedence: u8,
    is_left_associative: bool,
    allowed_left_tokens: Vec<TokenKind>,
}

/// What a unary operator is, as plain values.
pub struct UnaryView {
    pub token: Seq<char>,
    pub precedence: u8,
    pub left_assoc: bool,
    pub allowed: Seq<TokenKind>,
}

impl View for UnaryOperator {
    type V = UnaryView;

    closed spec fn view(&self) -> UnaryView {
        UnaryView {
            token: self.token@,
            precedence: self.precedence,
            left_assoc: self.is_left_associative,
            allowed: self.allowed_left_tokens@,
        }
    }
}

/// A copy of the kinds in `v`.
fn copy_kinds(v: &[TokenKind]) -> (r: Vec<TokenKind>)
    ensures
        r@ == v@,
{
    let mut r: Vec<TokenKind> = Vec::new();
    let mut i: usize = 0;
    while i < v.len()
        invariant
            i <= v@.len(),
            r@ == v@.subrange(0, i as int),
        decreases v@.len() - i,
    {
        r.push(v[i]);
        i = i + 1;
    }
    r
}

impl UnaryOperator {
    pub fn new(
        token: String,
        precedence: u8,
        is_left_associative: bool,
        allowed_left_tokens: Vec<TokenKind>,
    ) -> (r: Self)
        ensures
            r@ == (UnaryView {
                token: token@,
                precedence,
                left_assoc: is_left_associative,
                allowed: allowed_left_tokens@,
            }),
    {
        UnaryOperator { token, precedence, is_left_associative, allowed_left_tokens }
    }

    pub fn get_allowed_left_tokens(&self) -> (r: &[TokenKind])
        ensures
            r@ == self@.allowed,
    {
        self.allowed_left_tokens.as_slice()
    }

    /// An operator equal to this one.
    pub fn duplicate(&self) -> (r: Self)
        ensures
            r@ == self@,
    {
        UnaryOperator::new(
            self.token.clone(),
            self.precedence,
            self.is_left_associative,
            copy_kinds(self.allowed_left_tokens.as_slice()),
        )
    }
}

impl Op for UnaryOperator {
    open spec fn op_token(&self) -> Seq<char> {
        self@.token
    }

    open spec fn op_precedence(&self) -> u8 {
        self@.precedence
    }

    open spec fn op_left_associative(&self) -> bool {
        self@.left_assoc
    }

    fn get_token(&self) -> (r: &str) {
        self.token.as_str()
    }

    fn get_precedence(&self) -> (r: u8) {
        self.precedence
    }

    fn get_is_left_associative(&self) -> (r: bool) {
        self.is_left_associative
    }
}

/// An operator of two operands.
#[derive(Debug, Clone, PartialEq)]
pub struct BinaryOperator {
    token: String,
    precedence: u8,
    is_left_associative: bool,
}

/// What a binary operator is, as plain values.
pub struct BinaryView {
    pub token: Seq<char>,
    pub precedence: u8,
    pub left_assoc: bool,
}

impl View for BinaryOperator {
    type V = BinaryView;

    closed spec fn view(&self) -> BinaryView {
        BinaryView {
            token: self.token@,
            precedence: self.precedence,
            left_assoc: self.is_left_associative,
        }
    }
}

impl BinaryOperator {
    pub fn new(token: String, precedence: u8, is_left_associative: bool) -> (r: Self)
        ensures
            r@ == (BinaryView { token: token@, precedence, left_assoc: is_left_associative }),
    {
        BinaryOperator { token, precedence, is_left_associative }
    }

    /// An operator equal to this one.
    pub fn duplicate(&self) -> (r: Self)
        ensures
            r@ == self@,
    {
        BinaryOperator::new(self.token.clone(), self.precedence, self.is_left_associative)
    }
}

impl Op for BinaryOperator {
    open spec fn op_token(&self) -> Seq<char> {
        self@.token
    }

    open spec fn op_precedence(&self) -> u8 {
        self@.precedence
    }

    open spec fn op_left_associative(&self) -> bool {
        self@.left_assoc
    }

    fn get_token(&self) -> (r: &str) {
        self.token.as_str()
    }

    fn get_precedence(&self) -> (r: u8) {
        self.precedence
    }

    fn get_is_left_associative(&self) -> (r: bool) {
        self.is_left_associative
    }
}

} // verus!

verus! {

/// The operators of the default grammar.
pub enum DefaultOperetor {
    Neg,
    Pow,
    Mul,
    Div,
    Add,
    Sub,
}

pub open spec fn default_precedence_spec(op: DefaultOperetor) -> u8 {
    match op {
        DefaultOperetor::Neg => 10,
        DefaultOperetor::Pow => 10,
        DefaultOperetor::Mul => 5,
        DefaultOperetor::Div => 5,
        DefaultOperetor::Add => 3,
        DefaultOperetor::Sub => 3,
    }
}

pub fn default_precedence(op: DefaultOperetor) -> (r: u8)
    ensures
        r == default_precedence_spec(op),
{
    match op {
        DefaultOperetor::Neg => 10,
        DefaultOperetor::Pow => 10,
        DefaultOperetor::Mul => 5,
        DefaultOperetor::Div => 5,
        DefaultOperetor::Add => 3,
        DefaultOperetor::Sub => 3,
    }
}

/// The token kinds after which the default negation may stand: the start of
/// the expression, an opening parenthesis, another operator or a comma.
pub open spec fn negation_left_kinds() -> Seq<TokenKind> {
    seq![
        TokenKind::NoToken,
        TokenKind::LeftParen,
        TokenKind::UnaryOperator,
        TokenKind::BinaryOperator,
        TokenKind::Comma,
    ]
}

/// The unary operator of the default grammar: `-`, of precedence 10.
pub open spec fn default_negation() -> UnaryView {
    UnaryView {
        token: "-"@,
        precedence: default_precedence_spec(DefaultOperetor::Neg),
        left_assoc: false,
        allowed: negation_left_kinds(),
    }
}

/// The binary operators of the default grammar, in the order they are tried.
pub open spec fn default_binary_views() -> Seq<BinaryView> {
    seq![
        BinaryView { token: "^"@, precedence: 10, left_assoc: false },
        BinaryView { token: "*"@, precedence: 5, left_assoc: false },
        BinaryView { token: "/"@, precedence: 5, left_assoc: false },
        BinaryView { token: "+"@, precedence: 3, left_assoc: false },
        BinaryView { token: "-"@, precedence: 3, left_assoc: false },
    ]
}

pub fn default_unary_operators() -> (r: Vec<UnaryOperator>)
    ensures
        r@.len() == 1,
        r@[0]@ == default_negation(),
{
    let mut allowed: Vec<TokenKind> = Vec::new();
    allowed.push(TokenKind::NoToken);
    allowed.push(TokenKind::LeftParen);
    allowed.push(TokenKind::UnaryOperator);
    allowed.push(TokenKind::BinaryOperator);
    allowed.push(TokenKind::Comma);
    let neg = UnaryOperator::new(
        String::from_str("-"),
        default_precedence(DefaultOperetor::Neg),
        false,
        allowed,
    );
    proof {
        assert(neg@.allowed =~= negation_left_kinds());
    }
    let mut r: Vec<UnaryOperator> = Vec::new();
    r.push(neg);
    r
}

pub fn default_binary_operators() -> (r: Vec<BinaryOperator>)
    ensures
        r@.map_values(|b: BinaryOperator| b@) == default_binary_views(),
{
    let mut r: Vec<BinaryOperator> = Vec::new();
    r.push(BinaryOperator::new(String::from_str("^"), default_precedence(DefaultOperetor::Pow), false));
    r.push(BinaryOperator::new(String::from_str("*"), default_precedence(DefaultOperetor::Mul), false));
    r.push(BinaryOperator::new(String::from_str("/"), default_precedence(DefaultOperetor::Div), false));
    r.push(BinaryOperator::new(String::from_str("+"), default_precedence(DefaultOperetor::Add), false));
    r.push(BinaryOperator::new(String::from_str("-"), default_precedence(DefaultOperetor::Sub), false));
    proof {
        assert(r@.map_values(|b: BinaryOperator| b@) =~= default_binary_views());
    }
    r
}

} // verus!

verus! {

/// The index of the first unary operator of `context` whose token begins the
/// text at `pos` and which may follow a token of kind `last`.
pub fn begins_with_unary_operator(chars: &Vec<char>, pos: usize, last: TokenKind, context: &Context) -> (r: Option<usize>)
    requires
        pos <= chars@.len(),
    ensures
        r matches Some(i) ==> first_unary(context@.unary, chars@.subrange(pos as int, chars@.len() as int), last, 0) == Some(i as int),
        r is None ==> first_unary(context@.unary, chars@.subrange(pos as int, chars@.len() as int), last, 0) is None,
{
    let ghost s = chars@.subrange(pos as int, chars@.len() as int);
    let ghost ops = context@.unary;
    let mut i: usize = 0;
    while i < context.unary_operators.len()
        invariant
            i <= context.unary_operators@.len(),
            ops == context@.unary,
            s == chars@.subrange(pos as int, chars@.len() as int),
            pos <= chars@.len(),
            first_unary(ops, s, last, 0) == first_unary(ops, s, last, i as int),
        decreases context.unary_operators@.len() - i,
    {
        let uop = &context.unary_operators[i];
        assert(ops[i as int] == uop@);
        if begins_with_at(chars, pos, uop.get_token()) {
            let allowed = uop.get_allowed_left_tokens();
            let mut k: usize = 0;
            while k < allowed.len()
                invariant
                    i < context.unary_operators@.len(),
                    ops == context@.unary,
                    s == chars@.subrange(pos as int, chars@.len() as int),
                    first_unary(ops, s, last, 0) == first_unary(ops, s, last, i as int),
                    begins_with(s, ops[i as int].token),
                    k <= allowed@.len(),
                    allowed@ == ops[i as int].allowed,
                    forall|j: int| 0 <= j < k ==> allowed@[j] != last,
                decreases allowed@.len() - k,
            {
                if allowed[k] == last {
                    assert(ops[i as int].allowed[k as int] == last);
                    assert(unary_applies(ops[i as int], s, last));
                    return Some(i);
                }
                k = k + 1;
            }
            assert(!ops[i as int].allowed.contains(last));
        }
        i = i + 1;
    }
    None
}

/// The index of the first binary operator of `context` whose token begins
/// the text at `pos`.
pub fn begins_with_binary_operator(chars: &Vec<char>, pos: usize, context: &Context) -> (r: Option<usize>)
    requires
        pos <= chars@.len(),
    ensures
        r matches Some(i) ==> first_prefix(context@.binary.map_values(|b: BinaryView| b.token), chars@.subrange(pos as int, chars@.len() as int), 0) == Some(i as int),
        r is None ==> first_prefix(context@.binary.map_values(|b: BinaryView| b.token), chars@.subrange(pos as int, chars@.len() as int), 0) is None,
{
    let ghost s = chars@.subrange(pos as int, chars@.len() as int);
    let ghost toks = context@.binary.map_values(|b: BinaryView| b.token);
    let mut i: usize = 0;
    while i < context.binary_operators.len()
        invariant
            i <= context.binary_operators@.len(),
            toks == context@.binary.map_values(|b: BinaryView| b.token),
            s == chars@.subrange(pos as int, chars@.len() as int),
            pos <= chars@.len(),
            first_prefix(toks, s, 0) == first_prefix(toks, s, i as int),
        decreases context.binary_operators@.len() - i,
    {
        assert(toks[i as int] == context.binary_operators@[i as int]@.token);
        if begins_with_at(chars, pos, context.binary_operators[i].get_token()) {
            return Some(i);
        }
        i = i + 1;
    }
    None
}

} // verus!
