use vstd::prelude::*;
use crate::functions::{default_functions, Function, FunctionView};
use crate::operators::{
    default_binary_operators, default_unary_operators, BinaryOperator, BinaryView, Op,
    UnaryOperator, UnaryView,
};
use crate::varnum::{Number, Variable};

verus! {

/// The kinds of token, without their payloads.
#[derive(Debug, Clone, Copy, PartialEq, Eq, Structural)]
pub enum TokenKind {
    NoToken,
    Number,
    Zero,
    Unity,
    Variable,
    Function,
    UnaryOperator,
    BinaryOperator,
    LeftParen,
    RightParen,
    Comma,
}

/// An operator token: unary or binary.
#[derive(Debug, Clone, PartialEq)]
pub enum Operator {
    UnaryOperator(UnaryOperator),
    BinaryOperator(BinaryOperator),
}

/// What an operator is, as plain values.
pub enum OperatorView {
    Unary(UnaryView),
    Binary(BinaryView),
}

impl View for Operator {
    type V = OperatorView;

    open spec fn view(&self) -> OperatorView {
        match self {
            Operator::UnaryOperator(u) => OperatorView::Unary(u@),
            Operator::BinaryOperator(b) => OperatorView::Binary(b@),
        }
    }
}

impl OperatorView {
    pub open spec fn token(self) -> Seq<char> {
        match self {
            OperatorView::Unary(u) => u.token,
            OperatorView::Binary(b) => b.token,
        }
    }

    pub open spec fn precedence(self) -> u8 {
        match self {
            OperatorView::Unary(u) => u.precedence,
            OperatorView::Binary(b) => b.precedence,
        }
    }

    pub open spec fn left_assoc(self) -> bool {
        match self {
            OperatorView::Unary(u) => u.left_assoc,
            OperatorView::Binary(b) => b.left_assoc,
        }
    }
}

impl Op for Operator {
    open spec fn op_token(&self) -> Seq<char> {
        self@.token()
    }

    open spec fn op_precedence(&self) -> u8 {
        self@.precedence()
    }

    open spec fn op_left_associative(&self) -> bool {
        self@.left_assoc()
    }

    fn get_token(&self) -> (r: &str) {
        match self {
            Operator::UnaryOperator(op) => op.get_token(),
            Operator::BinaryOperator(op) => op.get_token(),
        }
    }

    fn get_precedence(&self) -> (r: u8) {
        match self {
            Operator::UnaryOperator(op) => op.get_precedence(),
            Operator::BinaryOperator(op) => op.get_precedence(),
        }
    }

    fn get_is_left_associative(&self) -> (r: bool) {
        match self {
            Operator::UnaryOperator(op) => op.get_is_left_associative(),
            Operator::BinaryOperator(op) => op.get_is_left_associative(),
        }
    }
}

/// A token of an expression, carrying the source text it was matched from.
#[derive(Debug, Clone, PartialEq)]
pub enum Token {
    NoToken,
    Number(Number),
    Zero,
    Unity,
    Variable(Variable),
    Function(Function),
    Operator(Operator),
    LeftParen,
    RightParen,
    Comma,
}

/// What a token is, as plain values.
pub enum TokenView {
    NoToken,
    Number(Seq<char>),
    Zero,
    Unity,
    Variable(Seq<char>),
    Function(FunctionView),
    Operator(OperatorView),
    LeftParen,
    RightParen,
    Comma,
}

impl View for Token {
    type V = TokenView;

    open spec fn view(&self) -> TokenView {
        match self {
            Token::NoToken => TokenView::NoToken,
            Token::Number(n) => TokenView::Number(n@),
            Token::Zero => TokenView::Zero,
            Token::Unity => TokenView::Unity,
            Token::Variable(v) => TokenView::Variable(v@),
            Token::Function(f) => TokenView::Function(f@),
            Token::Operator(op) => TokenView::Operator(op@),
            Token::LeftParen => TokenView::LeftParen,
            Token::RightParen => TokenView::RightParen,
            Token::Comma => TokenView::Comma,
        }
    }
}

impl TokenView {
    /// The text a token stands for.
    pub open spec fn text(self) -> Seq<char> {
        match self {
            TokenView::NoToken => Seq::empty(),
            TokenView::Number(s) => s,
            TokenView::Zero => "Zero"@,
            TokenView::Unity => "Unity"@,
            TokenView::Variable(s) => s,
            TokenView::Function(f) => f.token,
            TokenView::Operator(op) => op.token(),
            TokenView::LeftParen => "("@,
            TokenView::RightParen => ")"@,
            TokenView::Comma => ","@,
        }
    }

    pub open spec fn kind(self) -> TokenKind {
        match self {
            TokenView::NoToken => TokenKind::NoToken,
            TokenView::Number(_) => TokenKind::Number,
            TokenView::Zero => TokenKind::Zero,
            TokenView::Unity => TokenKind::Unity,
            TokenView::Variable(_) => TokenKind::Variable,
            TokenView::Function(_) => TokenKind::Function,
            TokenView::Operator(OperatorView::Unary(_)) => TokenKind::UnaryOperator,
            TokenView::Operator(OperatorView::Binary(_)) => TokenKind::BinaryOperator,
            TokenView::LeftParen => TokenKind::LeftParen,
            TokenView::RightParen => TokenKind::RightParen,
            TokenView::Comma => TokenKind::Comma,
        }
    }
}

/// The views of a sequence of tokens.
pub open spec fn tokens_view(s: Seq<Token>) -> Seq<TokenView> {
    s.map_values(|t: Token| t@)
}

impl Token {
    /// The text this token was matched from.
    pub fn stringify(&self) -> (r: &str)
        ensures
            r@ == self@.text(),
    {
        proof {
            reveal_strlit("");
        }
        match self {
            Token::NoToken => "",
            Token::Number(num) => num.get_token(),
            Token::Zero => "Zero",
            Token::Unity => "Unity",
            Token::Variable(var) => var.get_token(),
            Token::Function(func) => func.get_token(),
            Token::Operator(op) => op.get_token(),
            Token::LeftParen => "(",
            Token::RightParen => ")",
            Token::Comma => ",",
        }
    }

    /// The number of characters in the text of this token.
    pub fn len(&self) -> (r: usize)
        ensures
            r == self@.text().len(),
    {
        proof {
            reveal_strlit("Zero");
            reveal_strlit("Unity");
            reveal_strlit("(");
            reveal_strlit(")");
            reveal_strlit(",");
        }
        match self {
            Token::NoToken => 0,
            Token::Number(num) => num.get_token().unicode_len(),
            Token::Zero => 4,
            Token::Unity => 5,
            Token::Variable(var) => var.get_token().unicode_len(),
            Token::Function(func) => func.get_token().unicode_len(),
            Token::Operator(op) => op.get_token().unicode_len(),
            Token::LeftParen => 1,
            Token::RightParen => 1,
            Token::Comma => 1,
        }
    }

    pub fn kind(&self) -> (r: TokenKind)
        ensures
            r == self@.kind(),
    {
        match self {
            Token::NoToken => TokenKind::NoToken,
            Token::Number(_) => TokenKind::Number,
            Token::Zero => TokenKind::Zero,
            Token::Unity => TokenKind::Unity,
            Token::Variable(_) => TokenKind::Variable,
            Token::Function(_) => TokenKind::Function,
            Token::Operator(Operator::UnaryOperator(_)) => TokenKind::UnaryOperator,
            Token::Operator(Operator::BinaryOperator(_)) => TokenKind::BinaryOperator,
            Token::LeftParen => TokenKind::LeftParen,
            Token::RightParen => TokenKind::RightParen,
            Token::Comma => TokenKind::Comma,
        }
    }

    /// A token equal to this one.
    pub fn duplicate(&self) -> (r: Token)
        ensures
            r@ == self@,
    {
        match self {
            Token::NoToken => Token::NoToken,
            Token::Number(num) => Token::Number(Number::new(num.get_token())),
            Token::Zero => Token::Zero,
            Token::Unity => Token::Unity,
            Token::Variable(var) => Token::Variable(Variable::new(var.get_token())),
            Token::Function(func) => Token::Function(
                Function::new(func.get_token(), func.get_n_inputs()),
            ),
            Token::Operator(Operator::UnaryOperator(op)) => Token::Operator(
                Operator::UnaryOperator(op.duplicate()),
            ),
            Token::Operator(Operator::BinaryOperator(op)) => Token::Operator(
                Operator::BinaryOperator(op.duplicate()),
            ),
            Token::LeftParen => Token::LeftParen,
            Token::RightParen => Token::RightParen,
            Token::Comma => Token::Comma,
        }
    }
}

/// Whether two strings hold the same characters.
fn same_text(a: &str, b: &str) -> (r: bool)
    ensures
        r == (a@ == b@),
{
    String::from_str(a) == String::from_str(b)
}

/// Whether two sequences of token kinds are equal.
fn same_kinds(a: &[TokenKind], b: &[TokenKind]) -> (r: bool)
    ensures
        r == (a@ == b@),
{
    if a.len() != b.len() {
        return false;
    }
    let mut i: usize = 0;
    while i < a.len()
        invariant
            a@.len() == b@.len(),
            i <= a@.len(),
            forall|j: int| 0 <= j < i ==> a@[j] == b@[j],
        decreases a@.len() - i,
    {
        if a[i] != b[i] {
            return false;
        }
        i = i + 1;
    }
    assert(a@ =~= b@);
    true
}

impl Token {
    /// Whether the two tokens are the same token, payload included.
    pub fn same_as(&self, other: &Token) -> (r: bool)
        ensures
            r == (self@ == other@),
    {
        match (self, other) {
            (Token::NoToken, Token::NoToken) => true,
            (Token::Zero, Token::Zero) => true,
            (Token::Unity, Token::Unity) => true,
            (Token::LeftParen, Token::LeftParen) => true,
            (Token::RightParen, Token::RightParen) => true,
            (Token::Comma, Token::Comma) => true,
            (Token::Number(a), Token::Number(b)) => same_text(a.get_token(), b.get_token()),
            (Token::Variable(a), Token::Variable(b)) => same_text(a.get_token(), b.get_token()),
            (Token::Function(a), Token::Function(b)) => {
                a.get_n_inputs() == b.get_n_inputs() && same_text(a.get_token(), b.get_token())
            },
            (Token::Operator(Operator::UnaryOperator(a)), Token::Operator(Operator::UnaryOperator(b))) => {
                a.get_precedence() == b.get_precedence()
                    && a.get_is_left_associative() == b.get_is_left_associative()
                    && same_text(a.get_token(), b.get_token())
                    && same_kinds(a.get_allowed_left_tokens(), b.get_allowed_left_tokens())
            },
            (Token::Operator(Operator::BinaryOperator(a)), Token::Operator(Operator::BinaryOperator(b))) => {
                a.get_precedence() == b.get_precedence()
                    && a.get_is_left_associative() == b.get_is_left_associative()
                    && same_text(a.get_token(), b.get_token())
            },
            _ => false,
        }
    }
}

impl Default for Token {
    fn default() -> (r: Token)
        ensures
            r@ == TokenView::NoToken,
    {
        Token::NoToken
    }
}

/// The grammar: operators, functions and variables that expressions may use.
/// It is filled before parsing and only read while parsing.
pub struct Context {
    pub unary_operators: Vec<UnaryOperator>,
    pub binary_operators: Vec<BinaryOperator>,
    pub functions: Vec<Function>,
    pub variables: Vec<Variable>,
}

/// What a grammar holds, as plain values.
pub struct GrammarView {
    pub unary: Seq<UnaryView>,
    pub binary: Seq<BinaryView>,
    pub functions: Seq<FunctionView>,
    pub variables: Seq<Seq<char>>,
}

impl View for Context {
    type V = GrammarView;

    open spec fn view(&self) -> GrammarView {
        GrammarView {
            unary: self.unary_operators@.map_values(|u: UnaryOperator| u@),
            binary: self.binary_operators@.map_values(|b: BinaryOperator| b@),
            functions: self.functions@.map_values(|f: Function| f@),
            variables: self.variables@.map_values(|v: Variable| v@),
        }
    }
}

/// The grammar that `Context::default` holds.
pub open spec fn is_default_grammar(g: GrammarView) -> bool {
    &&& g.unary.len() == 1
    &&& g.unary[0] == crate::operators::default_negation()
    &&& g.binary == crate::operators::default_binary_views()
    &&& g.functions == seq![FunctionView { token: "sin"@, arity: 1 }]
    &&& g.variables.len() == 0
}

impl Context {
    pub fn new() -> (r: Self)
        ensures
            is_default_grammar(r@),
    {
        Self::default()
    }

    pub fn add_variable(&mut self, var: Variable)
        ensures
            final(self)@ == (GrammarView {
                variables: old(self)@.variables.push(var@),
                ..old(self)@
            }),
    {
        self.variables.push(var);
        proof {
            assert(self@.variables =~= old(self)@.variables.push(var@));
        }
    }
}

impl Default for Context {
    fn default() -> (r: Self)
        ensures
            is_default_grammar(r@),
    {
        let r = Context {
            unary_operators: default_unary_operators(),
            binary_operators: default_binary_operators(),
            functions: default_functions(),
            variables: Vec::new(),
        };
        proof {
            assert(r@.binary =~= crate::operators::default_binary_views());
            assert(r@.functions =~= seq![FunctionView { token: "sin"@, arity: 1 }]);
        }
        r
    }
}

} // verus!
