use vstd::prelude::*;
use crate::lexer::{begins_with, begins_with_at, first_prefix};
use crate::token::Context;

verus! {

/// A variable that the grammar knows by its token string.
#[derive(Debug, Clone, PartialEq)]
pub struct Variable {
    token: String,
}

impl View for Variable {
    type V = Seq<char>;

    closed spec fn view(&self) -> Seq<char> {
        self.token@
    }
}

impl Variable {
    pub fn new(token: &str) -> (r: Self)
        ensures
            r@ == token@,
    {
        Variable { token: token.to_string() }
    }

    pub fn get_token(&self) -> (r: &str)
        ensures
            r@ == self@,
    {
        self.token.as_str()
    }
}

/// A numeric literal, kept as the text that was matched.
#[derive(Debug, Clone, PartialEq)]
pub struct Number {
    token: String,
}

impl View for Number {
    type V = Seq<char>;

    closed spec fn view(&self) -> Seq<char> {
        self.token@
    }
}

impl Number {
    pub fn new(token: &str) -> (r: Self)
        ensures
            r@ == token@,
    {
        Number { token: token.to_string() }
    }

    pub fn get_token(&self) -> (r: &str)
        ensures
            r@ == self@,
    {
        self.token.as_str()
    }
}

/// The characters of `s`, in order.
pub fn chars_of(s: &str) -> (r: Vec<char>)
    ensures
        r@ == s@,
{
    let mut r: Vec<char> = Vec::new();
    for c in it: s.chars()
        invariant
            r@ == it.seq().subrange(0, it.index() as int),
    {
        r.push(c);
    }
    r
}

/// The literal-number grammar: an optional sign, digits with an optional
/// fractional part and an optional exponent, then optionally an imaginary
/// unit `i` or `I`; a real part may not run on into more digits, a point or
/// the unit.
pub const NUMBER_PATTERN: &'static str = r"^(?=[iI.\d+-])([+-]?(?:\d+(?:\.\d*)?|\.\d+)(?:[eE][+-]?\d+)?(?![iI.\d]))?([+-]?(?:(?:\d+(?:\.\d*)?|\.\d+)(?:[eE][+-]?\d+)?)?[iI])?";

/// The text of the first match of the regular expression `pattern` in
/// `text`, as the regex engine finds it; `None` where it finds none.
pub uninterp spec fn regex_first_match(pattern: Seq<char>, text: Seq<char>) -> Option<Seq<char>>;

/// Relies on fancy_regex::Regex::new and fancy_regex::Regex::find: the
/// pattern is compiled with default options and searched for in `text`; the
/// text of the first match is returned. A pattern that does not compile, or
/// a search that gives up, yields `None`. Either outcome depends on the two
/// strings alone.
#[verifier::external_body]
fn find_first_match(pattern: &str, text: &str) -> (r: Option<String>)
    ensures
        r matches Some(m) ==> regex_first_match(pattern@, text@) == Some(m@),
        r is None ==> regex_first_match(pattern@, text@) is None,
{
    match fancy_regex::Regex::new(pattern) {
        Ok(re) => match re.find(text) {
            Ok(Some(m)) => Some(m.as_str().to_string()),
            _ => None,
        },
        Err(_) => None,
    }
}

/// The literal number that `s` begins with: the match of the number
/// grammar, where it is a nonempty prefix of `s`.
pub open spec fn number_match(s: Seq<char>) -> Option<Seq<char>> {
    match regex_first_match(NUMBER_PATTERN@, s) {
        Some(m) => if begins_with(s, m) {
            Some(m)
        } else {
            None
        },
        None => None,
    }
}

/// The number literal at `pos` of `expr`, whose characters are `chars`.
pub fn begins_with_number(expr: &str, chars: &Vec<char>, pos: usize) -> (r: Option<Number>)
    requires
        chars@ == expr@,
        pos <= chars@.len(),
    ensures
        r matches Some(n) ==> number_match(expr@.subrange(pos as int, expr@.len() as int)) == Some(n@),
        r is None ==> number_match(expr@.subrange(pos as int, expr@.len() as int)) is None,
{
    let rest = expr.substring_char(pos, chars.len());
    match find_first_match(NUMBER_PATTERN, rest) {
        Some(m) => {
            if begins_with_at(chars, pos, m.as_str()) {
                Some(Number::new(m.as_str()))
            } else {
                None
            }
        },
        None => None,
    }
}

/// The index of the first variable of `context` whose token begins the text
/// at `pos`.
pub fn begins_with_variable(chars: &Vec<char>, pos: usize, context: &Context) -> (r: Option<usize>)
    requires
        pos <= chars@.len(),
    ensures
        r matches Some(i) ==> first_prefix(context@.variables, chars@.subrange(pos as int, chars@.len() as int), 0) == Some(i as int),
        r is None ==> first_prefix(context@.variables, chars@.subrange(pos as int, chars@.len() as int), 0) is None,
{
    let ghost s = chars@.subrange(pos as int, chars@.len() as int);
    let ghost toks = context@.variables;
    let mut i: usize = 0;
    while i < context.variables.len()
        invariant
            i <= context.variables@.len(),
            toks == context@.variables,
            s == chars@.subrange(pos as int, chars@.len() as int),
            pos <= chars@.len(),
            first_prefix(toks, s, 0) == first_prefix(toks, s, i as int),
        decreases context.variables@.len() - i,
    {
        assert(toks[i as int] == context.variables@[i as int]@);
        if begins_with_at(chars, pos, context.variables[i].get_token()) {
            return Some(i);
        }
        i = i + 1;
    }
    None
}

} // verus!
