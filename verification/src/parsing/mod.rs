//! Tokens, and the values that can be read from a run of tokens.
use crate::base_types::expressions::Operator;
use crate::base_types::numbers::{CheckedOperations, NumberType};
use crate::base_types::numerals::{numeral_value, read_numeral};
use std::collections::VecDeque;
use vstd::prelude::*;
use vstd::string::StringExecFns;

pub mod evaluation;
pub mod token_reader;

verus! {

/// One token of a line of text.
#[derive(Debug)]
pub enum Token {
    /// A run of digits.
    Number(String),
    /// A visible character that is neither a letter nor a digit.
    Punctuation(char),
    /// A run of letters.
    Word(String),
}

/// What a token holds.
pub enum Lexeme {
    /// A run of digits.
    Number(Seq<char>),
    /// A visible character that is neither a letter nor a digit.
    Punctuation(char),
    /// A run of letters.
    Word(Seq<char>),
}

impl View for Token {
    type V = Lexeme;

    open spec fn view(&self) -> Lexeme {
        match self {
            Token::Number(digits) => Lexeme::Number(digits@),
            Token::Punctuation(c) => Lexeme::Punctuation(*c),
            Token::Word(letters) => Lexeme::Word(letters@),
        }
    }
}

/// The kinds of characters that a line is made of.
#[derive(Clone, Copy, Debug, PartialEq, Eq, Structural)]
pub enum TokenType {
    /// A digit.
    Number,
    /// A visible character that is neither a letter nor a digit.
    Punctuation,
    /// A letter.
    Word,
    /// Anything else: it separates tokens.
    Other,
}

/// The views of the tokens.
pub open spec fn lexemes(tokens: Seq<Token>) -> Seq<Lexeme> {
    Seq::new(tokens.len(), |k: int| tokens[k]@)
}

/// A type whose values can be read from the front of a run of tokens.
pub trait Parsable: Sized {
    /// What a value of the type stands for.
    type Read;

    /// What the value stands for.
    spec fn model(&self) -> Self::Read;

    /// What is read from the front of the tokens, and the tokens that are
    /// left behind it; nothing where the tokens do not start with a value of
    /// the type.
    spec fn parsed(tokens: Seq<Lexeme>) -> Option<(Self::Read, Seq<Lexeme>)>;

    /// Reading takes at least one token.
    proof fn parsed_takes_tokens(tokens: Seq<Lexeme>)
        ensures
            Self::parsed(tokens) matches Some((_, rest)) ==> rest.len() < tokens.len(),
    ;

    /// Reads a value from the front of the tokens and takes the tokens it
    /// has read off the run. Where the tokens do not start with a value the
    /// error says what was found, and some tokens may be gone.
    fn parse(tokens: &mut VecDeque<Token>) -> (r: Result<Self, String>)
        ensures
            match r {
                Ok(value) => Self::parsed(lexemes(old(tokens)@)) == Some(
                    (value.model(), lexemes(final(tokens)@)),
                ),
                Err(_) => Self::parsed(lexemes(old(tokens)@)) is None,
            },
            final(tokens)@.len() <= old(tokens)@.len(),
    ;
}

/// What `str::to_lowercase` makes of a text, as the standard library
/// defines the lower case of each character.
pub uninterp spec fn lowercase(text: Seq<char>) -> Seq<char>;

/// Calls `str::to_lowercase`, which gives the text with each character in
/// lower case.
#[verifier::external_body]
fn to_lowercase(text: &String) -> (lowered: String)
    ensures
        lowered@ == lowercase(text@),
{
    text.to_lowercase()
}

/// What is said of a token, or of there being none, in a message.
pub open spec fn named(found: Option<Lexeme>) -> Seq<char> {
    match found {
        Some(Lexeme::Number(digits)) => "the number "@ + digits,
        Some(Lexeme::Word(letters)) => "the word "@ + letters,
        Some(Lexeme::Punctuation(c)) => "the sign "@.push(c),
        None => "nothing"@,
    }
}

/// The message that something else was found than was expected.
pub fn found_instead(expected: &str, found: &Option<Token>) -> (message: String)
    ensures
        message@ == expected@ + " found "@ + named(
            match *found {
                Some(token) => Some(token@),
                None => None,
            },
        ),
{
    let mut message = String::from_str(expected);
    message.append(" found ");
    match found {
        Some(Token::Number(digits)) => {
            message.append("the number ");
            message.append(digits.as_str());
        },
        Some(Token::Word(letters)) => {
            message.append("the word ");
            message.append(letters.as_str());
        },
        Some(Token::Punctuation(c)) => {
            message.append("the sign ");
            token_reader::push_char(&mut message, *c);
        },
        None => {
            message.append("nothing");
        },
    }
    proof {
        assert(message@ =~= expected@ + " found "@ + named(
            match *found {
                Some(token) => Some(token@),
                None => None,
            },
        ));
    }
    message
}

/// The operator that the sign stands for, if it stands for one.
pub open spec fn operator_of_sign(c: char) -> Option<Operator> {
    if c == '+' {
        Some(Operator::Add)
    } else if c == '-' {
        Some(Operator::Sub)
    } else if c == '*' {
        Some(Operator::Mul)
    } else if c == '/' {
        Some(Operator::Div)
    } else {
        None
    }
}

/// The operator that the name in lower case stands for, if it stands for
/// one.
pub open spec fn operator_of_name(name: Seq<char>) -> Option<Operator> {
    if name == seq!['a', 'd', 'd'] {
        Some(Operator::Add)
    } else if name == seq!['s', 'u', 'b'] {
        Some(Operator::Sub)
    } else if name == seq!['m', 'u', 'l'] {
        Some(Operator::Mul)
    } else if name == seq!['d', 'i', 'v'] {
        Some(Operator::Div)
    } else {
        None
    }
}

/// The operator that the sign stands for, if it stands for one.
pub fn operator_from_sign(c: char) -> (r: Option<Operator>)
    ensures
        r == operator_of_sign(c),
{
    if c == '+' {
        Some(Operator::Add)
    } else if c == '-' {
        Some(Operator::Sub)
    } else if c == '*' {
        Some(Operator::Mul)
    } else if c == '/' {
        Some(Operator::Div)
    } else {
        None
    }
}

/// The operator that the name in lower case stands for, if it stands for
/// one.
pub fn operator_from_name(name: &String) -> (r: Option<Operator>)
    ensures
        r == operator_of_name(name@),
{
    proof {
        reveal_strlit("add");
        reveal_strlit("sub");
        reveal_strlit("mul");
        reveal_strlit("div");
        assert("add"@ =~= seq!['a', 'd', 'd']);
        assert("sub"@ =~= seq!['s', 'u', 'b']);
        assert("mul"@ =~= seq!['m', 'u', 'l']);
        assert("div"@ =~= seq!['d', 'i', 'v']);
    }
    if *name == String::from_str("add") {
        Some(Operator::Add)
    } else if *name == String::from_str("sub") {
        Some(Operator::Sub)
    } else if *name == String::from_str("mul") {
        Some(Operator::Mul)
    } else if *name == String::from_str("div") {
        Some(Operator::Div)
    } else {
        None
    }
}

impl Parsable for Operator {
    type Read = Operator;

    open spec fn model(&self) -> Operator {
        *self
    }

    /// An operator is read from its sign, or from its name in any case of
    /// letters.
    open spec fn parsed(tokens: Seq<Lexeme>) -> Option<(Operator, Seq<Lexeme>)> {
        if tokens.len() == 0 {
            None
        } else {
            let operator = match tokens[0] {
                Lexeme::Punctuation(c) => operator_of_sign(c),
                Lexeme::Word(name) => operator_of_name(lowercase(name)),
                Lexeme::Number(_) => None,
            };
            match operator {
                Some(operator) => Some((operator, tokens.skip(1))),
                None => None,
            }
        }
    }

    proof fn parsed_takes_tokens(tokens: Seq<Lexeme>) {
    }

    fn parse(tokens: &mut VecDeque<Token>) -> (r: Result<Self, String>) {
        let ghost before = lexemes(tokens@);
        let first = tokens.pop_front();
        proof {
            if first is Some {
                assert(lexemes(tokens@) =~= before.skip(1));
                assert(before[0] == first.unwrap()@);
            }
        }
        let operator = match &first {
            Some(Token::Punctuation(a)) => operator_from_sign(*a),
            Some(Token::Word(a)) => operator_from_name(&to_lowercase(a)),
            Some(Token::Number(_)) => None,
            None => None,
        };
        match operator {
            Some(operator) => Ok(operator),
            None => Err(found_instead("Expected an operator", &first)),
        }
    }
}

impl<T: NumberType> Parsable for T {
    type Read = int;

    open spec fn model(&self) -> int {
        self.value()
    }

    /// A number is read from a run of digits that stands for a number of
    /// the type.
    open spec fn parsed(tokens: Seq<Lexeme>) -> Option<(int, Seq<Lexeme>)> {
        if tokens.len() == 0 {
            None
        } else {
            let number = match tokens[0] {
                Lexeme::Number(text) => numeral_value::<T>(text),
                Lexeme::Word(text) => numeral_value::<T>(text),
                Lexeme::Punctuation(_) => None,
            };
            match number {
                Some(number) => Some((number, tokens.skip(1))),
                None => None,
            }
        }
    }

    proof fn parsed_takes_tokens(tokens: Seq<Lexeme>) {
    }

    fn parse(tokens: &mut VecDeque<Token>) -> (r: Result<Self, String>) {
        let ghost before = lexemes(tokens@);
        let first = tokens.pop_front();
        proof {
            if first is Some {
                assert(lexemes(tokens@) =~= before.skip(1));
                assert(before[0] == first.unwrap()@);
            }
        }
        let number = match &first {
            Some(Token::Number(t)) => read_numeral::<T>(t.as_str()),
            Some(Token::Word(t)) => read_numeral::<T>(t.as_str()),
            Some(Token::Punctuation(_)) => None,
            None => None,
        };
        match number {
            Some(number) => Ok(number),
            None => Err(found_instead("Expected number", &first)),
        }
    }
}

/// What stands for each of the values.
pub open spec fn models<T: Parsable>(values: Seq<T>) -> Seq<T::Read> {
    Seq::new(values.len(), |k: int| values[k].model())
}

/// The values that are read from the front of the tokens up to a closing
/// bracket, with a comma between one and the next, and the tokens left
/// behind the bracket.
pub open spec fn parsed_items<T: Parsable>(tokens: Seq<Lexeme>) -> Option<
    (Seq<T::Read>, Seq<Lexeme>),
>
    decreases tokens.len(),
{
    match T::parsed(tokens) {
        Some((first, rest)) => {
            if rest.len() == 0 || rest.len() >= tokens.len() {
                None
            } else if rest[0] == Lexeme::Punctuation(']') {
                Some((seq![first], rest.skip(1)))
            } else if rest[0] == Lexeme::Punctuation(',') {
                match parsed_items::<T>(rest.skip(1)) {
                    Some((others, left)) => Some((seq![first] + others, left)),
                    None => None,
                }
            } else {
                None
            }
        },
        None => None,
    }
}

/// The values read up to a closing bracket leave fewer tokens than there
/// were.
pub proof fn lemma_parsed_items_take_tokens<T: Parsable>(tokens: Seq<Lexeme>)
    ensures
        parsed_items::<T>(tokens) matches Some((_, left)) ==> left.len() < tokens.len(),
    decreases tokens.len(),
{
    match T::parsed(tokens) {
        Some((first, rest)) => {
            if rest.len() > 0 && rest.len() < tokens.len() && rest[0] == Lexeme::Punctuation(
                ',',
            ) {
                lemma_parsed_items_take_tokens::<T>(rest.skip(1));
            }
        },
        None => {},
    }
}

impl<T: Parsable> Parsable for Vec<T> {
    type Read = Seq<T::Read>;

    open spec fn model(&self) -> Seq<T::Read> {
        models(self@)
    }

    /// A list is read from an opening bracket, one value or more with a
    /// comma between one and the next, and a closing bracket.
    open spec fn parsed(tokens: Seq<Lexeme>) -> Option<(Seq<T::Read>, Seq<Lexeme>)> {
        if tokens.len() > 0 && tokens[0] == Lexeme::Punctuation('[') {
            parsed_items::<T>(tokens.skip(1))
        } else {
            None
        }
    }

    proof fn parsed_takes_tokens(tokens: Seq<Lexeme>) {
        if tokens.len() > 0 {
            lemma_parsed_items_take_tokens::<T>(tokens.skip(1));
        }
    }

    fn parse(tokens: &mut VecDeque<Token>) -> (r: Result<Self, String>) {
        let ghost before = lexemes(tokens@);
        let first = tokens.pop_front();
        proof {
            if first is Some {
                assert(lexemes(tokens@) =~= before.skip(1));
                assert(before[0] == first.unwrap()@);
            }
        }
        let opens = match &first {
            Some(Token::Punctuation(c)) => *c == '[',
            _ => false,
        };
        if !opens {
            return Err(found_instead("Expected '['", &first));
        }
        let mut result: Vec<T> = Vec::new();
        proof {
            match parsed_items::<T>(lexemes(tokens@)) {
                Some((others, left)) => {
                    assert(models(result@) + others =~= others);
                },
                None => {},
            }
        }
        loop
            invariant
                tokens@.len() < old(tokens)@.len(),
                before == lexemes(old(tokens)@),
                match parsed_items::<T>(lexemes(tokens@)) {
                    Some((others, left)) => Self::parsed(before) == Some(
                        (models(result@) + others, left),
                    ),
                    None => Self::parsed(before) is None,
                },
            decreases tokens@.len(),
        {
            let ghost here = lexemes(tokens@);
            let ghost read = models(result@);
            proof {
                T::parsed_takes_tokens(here);
            }
            let value = match T::parse(tokens) {
                Ok(value) => value,
                Err(message) => {
                    return Err(message);
                },
            };
            let ghost rest = lexemes(tokens@);
            result.push(value);
            proof {
                assert(models(result@) =~= read.push(value.model()));
            }
            let next = tokens.pop_front();
            proof {
                if next is Some {
                    assert(lexemes(tokens@) =~= rest.skip(1));
                    assert(rest[0] == next.unwrap()@);
                }
            }
            let follows = match &next {
                Some(Token::Punctuation(c)) => if *c == ',' {
                    1u8
                } else if *c == ']' {
                    2u8
                } else {
                    0u8
                },
                _ => 0u8,
            };
            if follows == 2 {
                proof {
                    assert(models(result@) =~= read + seq![value.model()]);
                }
                return Ok(result);
            } else if follows != 1 {
                return Err(found_instead("expected ']' or ','", &next));
            }
            proof {
                match parsed_items::<T>(lexemes(tokens@)) {
                    Some((others, left)) => {
                        assert(models(result@) + others =~= read + (seq![value.model()]
                            + others));
                    },
                    None => {},
                }
            }
        }
    }
}

} // verus!
