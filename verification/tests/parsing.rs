use rust_countdown::base_types::expressions::Operator;
use rust_countdown::parsing::token_reader::{classify, read};
use rust_countdown::parsing::{operator_from_name, operator_from_sign, Parsable, Token, TokenType};
use std::collections::VecDeque;

fn tokens(line: &str) -> VecDeque<Token> {
    read(line.to_string()).unwrap().into_iter().collect()
}

fn shown(tokens: &[Token]) -> Vec<String> {
    tokens
        .iter()
        .map(|t| match t {
            Token::Number(n) => format!("N{n}"),
            Token::Punctuation(c) => format!("P{c}"),
            Token::Word(w) => format!("W{w}"),
        })
        .collect()
}

#[test]
fn characters_are_told_apart() {
    assert_eq!(classify('a'), TokenType::Word);
    assert_eq!(classify('Z'), TokenType::Word);
    assert_eq!(classify('0'), TokenType::Number);
    assert_eq!(classify('9'), TokenType::Number);
    assert_eq!(classify('['), TokenType::Punctuation);
    assert_eq!(classify('!'), TokenType::Punctuation);
    assert_eq!(classify('~'), TokenType::Punctuation);
    assert_eq!(classify(' '), TokenType::Other);
    assert_eq!(classify('\n'), TokenType::Other);
    assert_eq!(classify('\u{7f}'), TokenType::Other);
    assert_eq!(classify('é'), TokenType::Other);
}

#[test]
fn lines_are_split_into_tokens() {
    let read_tokens = read("[12, 3,add]\n".to_string()).unwrap();
    assert_eq!(shown(&read_tokens), vec!["P[", "N12", "P,", "N3", "P,", "Wadd", "P]"]);
    assert_eq!(shown(&read("".to_string()).unwrap()), Vec::<String>::new());
    assert_eq!(shown(&read("ab12cd".to_string()).unwrap()), vec!["Wab", "N12", "Wcd"]);
    assert_eq!(shown(&read("12 34".to_string()).unwrap()), vec!["N12", "N34"]);
    assert_eq!(shown(&read("a-b".to_string()).unwrap()), vec!["Wa", "P-", "Wb"]);
    assert_eq!(shown(&read("7é8".to_string()).unwrap()), vec!["N7", "N8"]);
    assert_eq!(shown(&read("x".to_string()).unwrap()), vec!["Wx"]);
}

#[test]
fn operators_are_read_from_signs_and_names() {
    assert_eq!(Operator::parse(&mut tokens("+")), Ok(Operator::Add));
    assert_eq!(Operator::parse(&mut tokens("-")), Ok(Operator::Sub));
    assert_eq!(Operator::parse(&mut tokens("*")), Ok(Operator::Mul));
    assert_eq!(Operator::parse(&mut tokens("/")), Ok(Operator::Div));
    assert_eq!(Operator::parse(&mut tokens("add")), Ok(Operator::Add));
    assert_eq!(Operator::parse(&mut tokens("SUB")), Ok(Operator::Sub));
    assert_eq!(Operator::parse(&mut tokens("Mul")), Ok(Operator::Mul));
    assert_eq!(Operator::parse(&mut tokens("dIV")), Ok(Operator::Div));
    assert!(Operator::parse(&mut tokens("plus")).is_err());
    assert!(Operator::parse(&mut tokens("%")).is_err());
    assert!(Operator::parse(&mut tokens("12")).is_err());
    assert!(Operator::parse(&mut tokens("")).is_err());
    assert_eq!(operator_from_sign('*'), Some(Operator::Mul));
    assert_eq!(operator_from_sign('x'), None);
    assert_eq!(operator_from_name(&"div".to_string()), Some(Operator::Div));
    assert_eq!(operator_from_name(&"DIV".to_string()), None);
}

#[test]
fn parsing_takes_the_tokens_it_reads() {
    let mut line = tokens("+ 12 ]");
    assert_eq!(Operator::parse(&mut line), Ok(Operator::Add));
    assert_eq!(line.len(), 2);
    assert_eq!(u8::parse(&mut line), Ok(12));
    assert_eq!(line.len(), 1);
    assert!(u8::parse(&mut line).is_err());
}

#[test]
fn numbers_are_read_from_tokens() {
    assert_eq!(usize::parse(&mut tokens("120")), Ok(120));
    assert!(u8::parse(&mut tokens("256")).is_err());
    assert!(u8::parse(&mut tokens("abc")).is_err());
    assert!(u8::parse(&mut tokens("[")).is_err());
    assert!(u8::parse(&mut tokens("")).is_err());
    assert!(i8::parse(&mut tokens("-5")).is_err());
    let mut signed: VecDeque<Token> = vec![Token::Number("-5".to_string())].into();
    assert_eq!(i8::parse(&mut signed), Ok(-5));
}

#[test]
fn lists_are_read_from_brackets() {
    assert_eq!(Vec::<u8>::parse(&mut tokens("[5, 4,3]")), Ok(vec![5, 4, 3]));
    assert_eq!(Vec::<u8>::parse(&mut tokens("[5]")), Ok(vec![5]));
    assert_eq!(
        Vec::<Operator>::parse(&mut tokens("[+, sub, *]")),
        Ok(vec![Operator::Add, Operator::Sub, Operator::Mul])
    );
    assert_eq!(
        Vec::<Vec<u8>>::parse(&mut tokens("[[1,2],[3]]")),
        Ok(vec![vec![1, 2], vec![3]])
    );
    assert!(Vec::<u8>::parse(&mut tokens("[]")).is_err());
    assert!(Vec::<u8>::parse(&mut tokens("5, 4")).is_err());
    assert!(Vec::<u8>::parse(&mut tokens("[5, 4")).is_err());
    assert!(Vec::<u8>::parse(&mut tokens("[5 4]")).is_err());
    assert!(Vec::<u8>::parse(&mut tokens("[5,]")).is_err());
    assert!(Vec::<u8>::parse(&mut tokens("")).is_err());
    let mut more = tokens("[1,2] 7");
    assert_eq!(Vec::<u8>::parse(&mut more), Ok(vec![1, 2]));
    assert_eq!(more.len(), 1);
}

#[test]
fn errors_say_what_was_found() {
    assert_eq!(
        Operator::parse(&mut tokens("12")),
        Err("Expected an operator found the number 12".to_string())
    );
    assert_eq!(
        Operator::parse(&mut tokens("")),
        Err("Expected an operator found nothing".to_string())
    );
    assert_eq!(
        u8::parse(&mut tokens("abc")),
        Err("Expected number found the word abc".to_string())
    );
    assert_eq!(
        Vec::<u8>::parse(&mut tokens("(1)")),
        Err("Expected '[' found the sign (".to_string())
    );
    assert_eq!(
        Vec::<u8>::parse(&mut tokens("[1;2]")),
        Err("expected ']' or ',' found the sign ;".to_string())
    );
}

#[test]
fn tokens_hold_the_visible_characters() {
    for line in ["[12, 3,add]\n", " 1 + 2*(ab-7) ", "", "  \t ", "x9é!~", "100/25 mul 4"] {
        let mut joined = String::new();
        for token in read(line.to_string()).unwrap() {
            match token {
                Token::Number(digits) => {
                    assert!(!digits.is_empty());
                    assert!(digits.chars().all(|c| classify(c) == TokenType::Number));
                    joined.push_str(&digits);
                }
                Token::Word(letters) => {
                    assert!(!letters.is_empty());
                    assert!(letters.chars().all(|c| classify(c) == TokenType::Word));
                    joined.push_str(&letters);
                }
                Token::Punctuation(c) => {
                    assert_eq!(classify(c), TokenType::Punctuation);
                    joined.push(c);
                }
            }
        }
        let visible: String = line.chars().filter(|c| classify(*c) != TokenType::Other).collect();
        assert_eq!(joined, visible);
    }
}
