use expression::{
    lex, shunt, single_input_pairs, stringify_rpn, BuildError, CommutativityType, Context,
    Expression, Function, LeafMake, LexError, NodeType, Op, Operator, ParseError, StrMake,
    Strategy, Token, TokenKind, UnityMake, Variable, ZeroMake,
};

#[derive(Debug, Clone, PartialEq)]
struct Val(f64);

impl StrMake<Val> for Val {
    fn from_str(s: &str) -> Val {
        Val(s.trim_end_matches(|c| c == 'i' || c == 'I').parse().unwrap_or(0.0))
    }
}

impl ZeroMake<Val> for Val {
    fn from_zero() -> Val {
        Val(0.0)
    }
}

impl UnityMake<Val> for Val {
    fn from_unity() -> Val {
        Val(1.0)
    }
}

impl LeafMake<Val> for Val {}

fn context_xy() -> Context {
    let mut context = Context::default();
    context.add_variable(Variable::new("X"));
    context.add_variable(Variable::new("Y"));
    context
}

fn rpn(expr: &str, context: &Context) -> String {
    stringify_rpn(&shunt(expr, context).unwrap())
}

fn texts(tokens: &[Token]) -> Vec<String> {
    tokens.iter().map(|t| t.stringify().to_string()).collect()
}

fn strategy(kind: TokenKind, token: &str, commutative: bool) -> Strategy<&'static str, &'static str> {
    let order_of_inputs = if commutative {
        vec![(CommutativityType::Commutative, vec![0, 1])]
    } else {
        vec![]
    };
    Strategy {
        kind,
        token: token.to_string(),
        evaluator: Some("eval"),
        derivative: Some("diff"),
        order_of_inputs,
    }
}

fn default_strategies() -> Vec<Strategy<&'static str, &'static str>> {
    vec![
        strategy(TokenKind::BinaryOperator, "+", true),
        strategy(TokenKind::BinaryOperator, "*", true),
        strategy(TokenKind::BinaryOperator, "-", false),
        strategy(TokenKind::BinaryOperator, "/", false),
        strategy(TokenKind::BinaryOperator, "^", false),
        strategy(TokenKind::UnaryOperator, "-", false),
        strategy(TokenKind::Function, "sin", false),
    ]
}

fn bindings_xy() -> Vec<(String, Val)> {
    vec![("X".to_string(), Val(2.0)), ("Y".to_string(), Val(3.0))]
}

fn build(expr: &str) -> Result<Expression<Val>, BuildError> {
    let context = context_xy();
    let postfix = shunt(expr, &context).unwrap();
    Expression::from_tokens(&postfix, &bindings_xy(), &default_strategies())
}

fn root_name(expr: &str) -> String {
    let e = build(expr).unwrap();
    e.root().get_full_name().to_string()
}

#[test]
fn precedence_of_product_over_sum() {
    assert_eq!(rpn("2+3*4", &Context::default()), "2,3,4,*,+");
}

#[test]
fn parentheses_group_first() {
    assert_eq!(rpn("(2+3)*4", &Context::default()), "2,3,+,4,*");
}

#[test]
fn equal_precedence_groups_to_the_right_by_default() {
    assert_eq!(rpn("1-2-3", &Context::default()), "1,2,3,-,-");
}

#[test]
fn left_associative_operator_groups_to_the_left() {
    let mut context = Context::default();
    context.binary_operators.insert(0, expression::BinaryOperator::new("-".to_string(), 3, true));
    assert_eq!(rpn("1-2-3", &context), "1,2,-,3,-");
}

#[test]
fn power_binds_tighter_than_product() {
    assert_eq!(rpn("2*3^4", &Context::default()), "2,3,4,^,*");
}

#[test]
fn unary_minus_at_start() {
    let tokens = lex("-X", &context_xy()).unwrap();
    assert_eq!(tokens.len(), 3);
    assert_eq!(tokens[0], Token::NoToken);
    assert_eq!(tokens[1].kind(), TokenKind::UnaryOperator);
    assert_eq!(tokens[2].kind(), TokenKind::Variable);
    assert_eq!(texts(&tokens[1..]), vec!["-", "X"]);
}

#[test]
fn binary_minus_between_values() {
    let tokens = lex("X-Y", &context_xy()).unwrap();
    let kinds: Vec<TokenKind> = tokens[1..].iter().map(|t| t.kind()).collect();
    assert_eq!(kinds, vec![TokenKind::Variable, TokenKind::BinaryOperator, TokenKind::Variable]);
}

#[test]
fn minus_after_binary_minus_is_unary() {
    let tokens = lex("X--Y", &context_xy()).unwrap();
    let kinds: Vec<TokenKind> = tokens[1..].iter().map(|t| t.kind()).collect();
    assert_eq!(
        kinds,
        vec![TokenKind::Variable, TokenKind::BinaryOperator, TokenKind::UnaryOperator, TokenKind::Variable]
    );
}

#[test]
fn minus_after_comma_and_parenthesis_is_unary() {
    let mut context = context_xy();
    context.functions.push(Function::new("max", 2));
    let tokens = lex("max(-X,-Y)", &context).unwrap();
    assert_eq!(tokens[3].kind(), TokenKind::UnaryOperator);
    assert_eq!(tokens[6].kind(), TokenKind::UnaryOperator);
}

#[test]
fn unary_minus_postfix() {
    assert_eq!(rpn("-X*Y", &context_xy()), "X,-,Y,*");
}

#[test]
fn arity_matches_commas() {
    let mut context = context_xy();
    context.functions.push(Function::new("max", 2));
    assert_eq!(rpn("max(X,Y)", &context), "X,Y,max");
    assert_eq!(rpn("max(sin(X),Y)", &context), "X,sin,Y,max");
}

#[test]
fn arity_with_too_few_commas_fails() {
    let mut context = context_xy();
    context.functions.push(Function::new("max", 2));
    assert_eq!(
        lex("max(X)", &context),
        Err(LexError::ArityMismatch { position: 0, arity: 2, commas: 0 })
    );
}

#[test]
fn arity_with_too_many_commas_fails() {
    let mut context = context_xy();
    context.functions.push(Function::new("max", 2));
    assert_eq!(
        lex("max(X,Y,1)", &context),
        Err(LexError::ArityMismatch { position: 0, arity: 2, commas: 2 })
    );
}

#[test]
fn unterminated_call_fails_lexing() {
    let mut context = Context::default();
    context.functions.push(Function::new("foo", 2));
    assert_eq!(lex("foo(1,2", &context), Err(LexError::MalformedCall { position: 0 }));
    assert_eq!(
        shunt("foo(1,2", &context),
        Err(ParseError::Lex(LexError::MalformedCall { position: 0 }))
    );
}

#[test]
fn function_name_without_parenthesis_fails() {
    assert_eq!(lex("sin+1", &Context::default()), Err(LexError::MalformedCall { position: 0 }));
}

#[test]
fn sin_with_two_arguments_fails_lexing() {
    assert_eq!(
        lex("sin(1,2)", &Context::default()),
        Err(LexError::ArityMismatch { position: 0, arity: 1, commas: 1 })
    );
}

#[test]
fn unclosed_parenthesis_fails_parsing() {
    let context = Context::default();
    assert!(lex("(2+3", &context).is_ok());
    assert_eq!(shunt("(2+3", &context), Err(ParseError::MismatchedParenthesis));
}

#[test]
fn unopened_parenthesis_fails_parsing() {
    assert_eq!(shunt("2+3)", &Context::default()), Err(ParseError::MismatchedParenthesis));
}

#[test]
fn unbound_variable_fails_at_build_time() {
    let mut context = Context::default();
    context.add_variable(Variable::new("Z"));
    let postfix = shunt("Z+1", &context).unwrap();
    assert_eq!(stringify_rpn(&postfix), "Z,1,+");
    let bindings: Vec<(String, Val)> = vec![];
    let r = Expression::from_tokens(&postfix, &bindings, &default_strategies());
    assert_eq!(r.err(), Some(BuildError::UnboundVariable { position: 0 }));
}

#[test]
fn unknown_text_fails_lexing() {
    assert_eq!(lex("2+#", &Context::default()), Err(LexError::NoMatch { position: 2 }));
    assert_eq!(lex(".", &Context::default()), Err(LexError::NoMatch { position: 0 }));
}

#[test]
fn number_literals_take_the_longest_match() {
    let tokens = lex("12+1.5e3*2i", &Context::default()).unwrap();
    assert_eq!(texts(&tokens[1..]), vec!["12", "+", "1.5e3", "*", "2i"]);
    assert_eq!(tokens[1].kind(), TokenKind::Number);
    assert_eq!(tokens[3].kind(), TokenKind::Number);
}

#[test]
fn empty_expression() {
    let context = Context::default();
    assert_eq!(lex("", &context), Ok(vec![Token::NoToken]));
    let postfix = shunt("", &context).unwrap();
    assert!(postfix.is_empty());
    let bindings: Vec<(String, Val)> = vec![];
    let r = Expression::from_tokens(&postfix, &bindings, &default_strategies());
    assert_eq!(r.err(), Some(BuildError::MalformedPostfix));
}

#[test]
fn parsing_twice_gives_the_same_result() {
    let context = context_xy();
    let expr = "sin(X)*(Y+2)-X^2";
    let a = shunt(expr, &context).unwrap();
    let b = shunt(expr, &context).unwrap();
    assert_eq!(a, b);
    assert_eq!(stringify_rpn(&a), stringify_rpn(&b));
    assert_eq!(root_name(expr), root_name(expr));
}

#[test]
fn sum_is_named_the_same_either_way() {
    assert_eq!(root_name("X+Y"), root_name("Y+X"));
    assert_eq!(root_name("X+Y"), "X,Y,+");
    assert_eq!(root_name("X*sin(Y)"), root_name("sin(Y)*X"));
}

#[test]
fn difference_keeps_its_order() {
    assert_eq!(root_name("X-Y"), "X,Y,-");
    assert_eq!(root_name("Y-X"), "Y,X,-");
}

#[test]
fn repeated_subexpression_is_one_node() {
    let e = build("sin(X)+sin(X)").unwrap();
    assert_eq!(e.len(), 3);
    let sin_nodes: Vec<usize> = (0..e.len())
        .filter(|&i| e.node(i).get_token().stringify() == "sin")
        .collect();
    assert_eq!(sin_nodes.len(), 1);
    let s = sin_nodes[0];
    let root = e.root();
    assert_eq!(root.get_children(), &[s, s]);
    assert_eq!(e.node(s).get_parents(), &[e.root_index(), e.root_index()]);
    assert_eq!(e.node(s).get_node_type(), NodeType::Function);
    assert_eq!(root.get_full_name(), "X,sin,X,sin,+");
    assert!(e.get_node("X,sin").is_some());
    assert!(e.get_node("Y").is_none());
}

#[test]
fn leaves_hold_their_values() {
    let e = build("X*2").unwrap();
    assert_eq!(e.get_node("X").unwrap().get_value(), &Some(Val(2.0)));
    assert_eq!(e.get_node("2").unwrap().get_value(), &Some(Val(2.0)));
    assert_eq!(e.root().get_value(), &None);
    assert_eq!(e.root().get_strategy(), Some(1));
}

#[test]
fn commutative_inputs_are_sorted() {
    let e = build("Y*X").unwrap();
    let root = e.root();
    let names: Vec<String> = root
        .get_children()
        .iter()
        .map(|&c| e.node(c).get_full_name().to_string())
        .collect();
    assert_eq!(names, vec!["X", "Y"]);
    assert_eq!(root.get_full_name(), "X,Y,*");
}

#[test]
fn literals_with_shared_digits_stay_apart() {
    assert_ne!(root_name("23*4"), root_name("2*34"));
}

#[test]
fn missing_evaluator_is_reported() {
    let context = context_xy();
    let postfix = shunt("X/Y", &context).unwrap();
    let mut strategies = default_strategies();
    strategies.retain(|s| s.token != "/");
    let r = Expression::from_tokens(&postfix, &bindings_xy(), &strategies);
    assert_eq!(r.err(), Some(BuildError::MissingEvaluator { position: 2 }));
}

#[test]
fn missing_derivative_is_reported() {
    let context = context_xy();
    let postfix = shunt("X^Y", &context).unwrap();
    let mut strategies = default_strategies();
    strategies[4].derivative = None;
    let r = Expression::from_tokens(&postfix, &bindings_xy(), &strategies);
    assert_eq!(r.err(), Some(BuildError::MissingDerivative { position: 2 }));
}

#[test]
fn node_types_of_tokens() {
    let tokens = lex("-X+sin(2)", &context_xy()).unwrap();
    assert_eq!(Expression::<Val>::get_node_type(&tokens[0]), None);
    assert_eq!(Expression::<Val>::get_node_type(&tokens[1]), Some(NodeType::UnaryOperator));
    assert_eq!(Expression::<Val>::get_node_type(&tokens[2]), Some(NodeType::LeafNode));
    assert_eq!(Expression::<Val>::get_node_type(&tokens[3]), Some(NodeType::BinaryOperator));
    assert_eq!(Expression::<Val>::get_node_type(&tokens[4]), Some(NodeType::Function));
    assert_eq!(Expression::<Val>::get_node_type(&tokens[5]), None);
}

#[test]
fn rendering_of_one_token_has_no_comma() {
    assert_eq!(stringify_rpn(&vec![Token::LeftParen]), "(");
    assert_eq!(stringify_rpn(&vec![]), "");
}

#[test]
fn token_text_and_length() {
    assert_eq!(Token::Zero.stringify(), "Zero");
    assert_eq!(Token::Zero.len(), 4);
    assert_eq!(Token::Unity.len(), 5);
    assert_eq!(Token::NoToken.len(), 0);
    assert_eq!(Token::Comma.stringify(), ",");
    let tokens = lex("sin(X)", &context_xy()).unwrap();
    assert_eq!(tokens[1].len(), 3);
}

#[test]
fn default_grammar() {
    let context = Context::new();
    assert_eq!(context.unary_operators.len(), 1);
    assert_eq!(context.binary_operators.len(), 5);
    let ops: Vec<(String, u8, bool)> = context
        .binary_operators
        .iter()
        .map(|b| (b.get_token().to_string(), b.get_precedence(), b.get_is_left_associative()))
        .collect();
    assert_eq!(
        ops,
        vec![
            ("^".to_string(), 10, false),
            ("*".to_string(), 5, false),
            ("/".to_string(), 5, false),
            ("+".to_string(), 3, false),
            ("-".to_string(), 3, false),
        ]
    );
    let neg = &context.unary_operators[0];
    assert_eq!(neg.get_token(), "-");
    assert_eq!(neg.get_precedence(), 10);
    assert_eq!(
        neg.get_allowed_left_tokens(),
        &[
            TokenKind::NoToken,
            TokenKind::LeftParen,
            TokenKind::UnaryOperator,
            TokenKind::BinaryOperator,
            TokenKind::Comma
        ]
    );
    assert_eq!(context.functions[0].get_token(), "sin");
    assert_eq!(context.functions[0].get_n_inputs(), 1);
    assert!(context.variables.is_empty());
}

#[test]
fn operator_token_reports_its_fields() {
    let tokens = lex("X*Y", &context_xy()).unwrap();
    match &tokens[2] {
        Token::Operator(op) => {
            assert!(matches!(op, Operator::BinaryOperator(_)));
            assert_eq!(op.get_token(), "*");
            assert_eq!(op.get_precedence(), 5);
            assert!(!op.get_is_left_associative());
        }
        other => panic!("unexpected token {:?}", other),
    }
}

#[test]
fn leaves_taken_by_one_input() {
    let context = context_xy();
    let postfix = shunt("sin(X)*-Y+X", &context).unwrap();
    assert_eq!(stringify_rpn(&postfix), "X,sin,Y,-,*,X,+");
    let xs = single_input_pairs(&postfix, "X");
    assert_eq!(xs, vec![(0, "sinX".to_string())]);
    let ys = single_input_pairs(&postfix, "Y");
    assert_eq!(ys, vec![(2, "-Y".to_string())]);
}

#[test]
fn rebinding_keeps_the_structure() {
    let mut e = build("X*Y+X").unwrap();
    let name = e.root().get_full_name().to_string();
    let children = e.root().get_children().to_vec();
    let n = e.len();
    assert!(e.rebind("X", Val(7.0)));
    assert_eq!(e.get_node("X").unwrap().get_value(), &Some(Val(7.0)));
    assert_eq!(e.root().get_full_name(), name);
    assert_eq!(e.root().get_children(), children.as_slice());
    assert_eq!(e.get_node("Y").unwrap().get_value(), &Some(Val(3.0)));
    assert_eq!(e.len(), n);
    assert!(!e.rebind("W", Val(1.0)));
}

#[test]
fn one_name_for_two_different_nodes_is_reported() {
    let context = Context::default();
    let plus = Token::Operator(Operator::BinaryOperator(context.binary_operators[3].duplicate()));
    let postfix = vec![Token::Variable(Variable::new("Zero")), Token::Zero, plus];
    let bindings = vec![("Zero".to_string(), Val(5.0))];
    let r = Expression::from_tokens(&postfix, &bindings, &default_strategies());
    assert_eq!(r.err(), Some(BuildError::NameClash { position: 1 }));
}

#[test]
fn difference_takes_its_operands_in_order() {
    let e = build("X-Y").unwrap();
    assert_eq!(e.len(), 3);
    let root = e.root();
    assert_eq!(root.get_node_type(), NodeType::BinaryOperator);
    assert_eq!(root.get_token().stringify(), "-");
    let names: Vec<String> = root
        .get_children()
        .iter()
        .map(|&c| e.node(c).get_full_name().to_string())
        .collect();
    assert_eq!(names, vec!["X", "Y"]);
    for &c in root.get_children() {
        let leaf = e.node(c);
        assert_eq!(leaf.get_node_type(), NodeType::LeafNode);
        assert!(leaf.get_children().is_empty());
        assert_eq!(leaf.get_full_name(), leaf.get_token().stringify());
    }
}

#[test]
fn repeated_leaf_is_one_node() {
    let e = build("X*X+X").unwrap();
    assert_eq!(e.len(), 3);
    assert_eq!(e.root().get_full_name(), "X,X,X,*,+");
}

#[test]
fn group_with_repeated_position_is_not_applied() {
    let context = context_xy();
    let postfix = shunt("Y+X", &context).unwrap();
    let mut strategies = default_strategies();
    strategies[0].order_of_inputs = vec![(CommutativityType::Commutative, vec![1, 1])];
    let e = Expression::from_tokens(&postfix, &bindings_xy(), &strategies).unwrap();
    assert_eq!(e.root().get_full_name(), "Y,X,+");
    assert_eq!(e.root().get_children().len(), 2);
}

#[test]
fn every_node_but_the_root_has_a_parent() {
    let e = build("sin(X*Y)-(Y*X)^2").unwrap();
    for i in 0..e.len() {
        if i != e.root_index() {
            assert!(!e.node(i).get_parents().is_empty());
        }
    }
    assert!(e.root().get_parents().is_empty());
}
