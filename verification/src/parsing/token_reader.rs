//! Splits a line of text into tokens.
use super::{lexemes, Lexeme, Token, TokenType};
use vstd::prelude::*;

verus! {

/// The kind of token that the character belongs to: a letter to a word, a
/// digit to a number; any other visible character of the basic set stands
/// for itself, and everything else separates tokens.
pub open spec fn kind_of(c: char) -> TokenType {
    if ('A' <= c && c <= 'Z') || ('a' <= c && c <= 'z') {
        TokenType::Word
    } else if '0' <= c && c <= '9' {
        TokenType::Number
    } else if '!' <= c && c <= '~' {
        TokenType::Punctuation
    } else {
        TokenType::Other
    }
}

/// The token that a run of characters of one kind makes.
pub open spec fn token_of(kind: TokenType, run: Seq<char>) -> Lexeme {
    if kind == TokenType::Number {
        Lexeme::Number(run)
    } else {
        Lexeme::Word(run)
    }
}

/// What a reader holds after some characters: the tokens that are complete,
/// the run of letters or digits that it is in, and the kind of the last
/// character.
pub struct Reading {
    pub tokens: Seq<Lexeme>,
    pub run: Seq<char>,
    pub kind: TokenType,
}

/// What the reader holds after one more character. A character of another
/// kind than the one before it ends the run; a letter or digit goes on the
/// run, and a character that stands for itself becomes a token.
pub open spec fn advanced(before: Reading, c: char) -> Reading {
    let kind = kind_of(c);
    let ended = before.kind != kind && before.run.len() > 0;
    let tokens = if ended {
        before.tokens.push(token_of(before.kind, before.run))
    } else {
        before.tokens
    };
    let run = if ended {
        Seq::empty()
    } else {
        before.run
    };
    if kind == TokenType::Punctuation {
        Reading { tokens: tokens.push(Lexeme::Punctuation(c)), run, kind }
    } else if kind == TokenType::Other {
        Reading { tokens, run, kind }
    } else {
        Reading { tokens, run: run.push(c), kind }
    }
}

/// What the reader holds after the characters.
pub open spec fn reading(chars: Seq<char>) -> Reading
    decreases chars.len(),
{
    if chars.len() == 0 {
        Reading { tokens: Seq::empty(), run: Seq::empty(), kind: TokenType::Other }
    } else {
        advanced(reading(chars.drop_last()), chars.last())
    }
}

/// The tokens of a line: each longest run of letters is a word, each
/// longest run of digits a number, each other visible character of the
/// basic set a token of its own, and all else is left out.
pub open spec fn tokens_of(chars: Seq<char>) -> Seq<Lexeme> {
    let end = reading(chars);
    if end.run.len() > 0 {
        end.tokens.push(token_of(end.kind, end.run))
    } else {
        end.tokens
    }
}

/// A run is of letters or of digits: while the reader is in a run, the last
/// character was a letter or a digit.
pub proof fn lemma_run_kind(chars: Seq<char>)
    ensures
        reading(chars).run.len() > 0 ==> reading(chars).kind == TokenType::Number || reading(chars).kind == TokenType::Word,
    decreases chars.len(),
{
    if chars.len() > 0 {
        lemma_run_kind(chars.drop_last());
    }
}

/// The characters that a token holds.
pub open spec fn text_of(token: Lexeme) -> Seq<char> {
    match token {
        Lexeme::Number(digits) => digits,
        Lexeme::Word(letters) => letters,
        Lexeme::Punctuation(c) => seq![c],
    }
}

/// The characters of the tokens, one token after the other.
pub open spec fn joined(tokens: Seq<Lexeme>) -> Seq<char>
    decreases tokens.len(),
{
    if tokens.len() == 0 {
        Seq::empty()
    } else {
        joined(tokens.drop_last()) + text_of(tokens.last())
    }
}

/// The characters of a line that belong to a token: all but those that
/// separate tokens.
pub open spec fn visible(chars: Seq<char>) -> Seq<char>
    decreases chars.len(),
{
    if chars.len() == 0 {
        Seq::empty()
    } else {
        visible(chars.drop_last()) + if kind_of(chars.last()) == TokenType::Other {
            Seq::empty()
        } else {
            seq![chars.last()]
        }
    }
}

/// Whether each of the characters is of the kind.
pub open spec fn all_of_kind(run: Seq<char>, kind: TokenType) -> bool {
    forall|k: int| 0 <= k < run.len() ==> kind_of(#[trigger] run[k]) == kind
}

/// Whether the token is as a token of a line is: a number holds one digit
/// at least and digits only, a word one letter at least and letters only,
/// and a sign is a visible character that is neither.
pub open spec fn is_proper(token: Lexeme) -> bool {
    match token {
        Lexeme::Number(digits) => digits.len() > 0 && all_of_kind(digits, TokenType::Number),
        Lexeme::Word(letters) => letters.len() > 0 && all_of_kind(letters, TokenType::Word),
        Lexeme::Punctuation(c) => kind_of(c) == TokenType::Punctuation,
    }
}

/// What a reader holds after some characters holds the visible ones among
/// them: in its tokens, one after the other, and behind them in the run it
/// is in. Each of its tokens is proper, and the run is of the kind of the
/// last character.
pub proof fn lemma_reading_holds_the_visible(chars: Seq<char>)
    ensures
        joined(reading(chars).tokens) + reading(chars).run == visible(chars),
        forall|k: int|
            0 <= k < reading(chars).tokens.len() ==> is_proper(#[trigger] reading(chars).tokens[k]),
        all_of_kind(reading(chars).run, reading(chars).kind),
        reading(chars).run.len() > 0 ==> reading(chars).kind == TokenType::Number || reading(chars).kind == TokenType::Word,
    decreases chars.len(),
{
    if chars.len() > 0 {
        let before = reading(chars.drop_last());
        let c = chars.last();
        let after = reading(chars);
        lemma_reading_holds_the_visible(chars.drop_last());
        let kind = kind_of(c);
        let ended = before.kind != kind && before.run.len() > 0;
        let tokens = if ended {
            before.tokens.push(token_of(before.kind, before.run))
        } else {
            before.tokens
        };
        let run = if ended {
            Seq::<char>::empty()
        } else {
            before.run
        };
        assert(joined(tokens) + run =~= joined(before.tokens) + before.run) by {
            if ended {
                assert(tokens.drop_last() =~= before.tokens);
            }
        }
        assert forall|k: int| 0 <= k < tokens.len() implies is_proper(#[trigger] tokens[k]) by {
            if k < before.tokens.len() {
                assert(tokens[k] == before.tokens[k]);
            }
        }
        if kind == TokenType::Punctuation {
            assert(after.tokens.drop_last() =~= tokens);
            assert(joined(after.tokens) + after.run =~= (joined(tokens) + run) + seq![c]);
            assert forall|k: int| 0 <= k < after.tokens.len() implies is_proper(
                #[trigger] after.tokens[k],
            ) by {
                if k < tokens.len() {
                    assert(after.tokens[k] == tokens[k]);
                }
            }
        } else if kind == TokenType::Other {
            assert(joined(after.tokens) + after.run =~= joined(tokens) + run);
        } else {
            assert(joined(after.tokens) + after.run =~= (joined(tokens) + run) + seq![c]);
            assert forall|k: int| 0 <= k < after.run.len() implies kind_of(
                #[trigger] after.run[k],
            ) == after.kind by {
                if k < run.len() {
                    assert(after.run[k] == before.run[k]);
                }
            }
        }
    }
}

/// The tokens of a line hold the visible characters of the line.
///
/// The characters of the tokens, one token after the other, are the
/// characters of the line but for those that separate tokens, in their
/// order. Each number holds one digit at least and digits only, each word
/// one letter at least and letters only, and each sign is a visible
/// character that is neither.
pub proof fn lemma_tokens_hold_the_visible(chars: Seq<char>)
    ensures
        joined(tokens_of(chars)) == visible(chars),
        forall|k: int| 0 <= k < tokens_of(chars).len() ==> is_proper(#[trigger] tokens_of(chars)[k]),
{
    lemma_reading_holds_the_visible(chars);
    let end = reading(chars);
    if end.run.len() > 0 {
        let all = tokens_of(chars);
        assert(all.drop_last() =~= end.tokens);
        assert forall|k: int| 0 <= k < all.len() implies is_proper(#[trigger] all[k]) by {
            if k < end.tokens.len() {
                assert(all[k] == end.tokens[k]);
            }
        }
    } else {
        assert(joined(end.tokens) + end.run =~= joined(end.tokens));
    }
}

/// Calls `String::push`, which appends the character to the end of the
/// text.
#[verifier::external_body]
pub(crate) fn push_char(text: &mut String, c: char)
    ensures
        final(text)@ == old(text)@.push(c),
{
    text.push(c)
}

/// The kind of token that the character belongs to.
pub fn classify(c: char) -> (kind: TokenType)
    ensures
        kind == kind_of(c),
{
    if (c >= 'A' && c <= 'Z') || (c >= 'a' && c <= 'z') {
        TokenType::Word
    } else if c >= '0' && c <= '9' {
        TokenType::Number
    } else if c >= '!' && c <= '~' {
        TokenType::Punctuation
    } else {
        TokenType::Other
    }
}

/// Splits a line into its tokens. Every line can be split.
pub fn read(line: String) -> (r: Result<Vec<Token>, String>)
    ensures
        r matches Ok(tokens) && lexemes(tokens@) == tokens_of(line@),
{
    let mut tokens: Vec<Token> = Vec::new();
    let mut old_type = TokenType::Other;
    let mut s = String::new();
    let ghost mut seen: Seq<char> = Seq::empty();
    for c in chars: line.as_str().chars()
        invariant
            seen == chars.seq().take(chars.index() as int),
            chars.seq() == line@,
            lexemes(tokens@) == reading(seen).tokens,
            s@ == reading(seen).run,
            old_type == reading(seen).kind,
    {
        proof {
            lemma_run_kind(seen);
        }
        let ghost before = reading(seen);
        let ghost held = lexemes(tokens@);
        let c_type = classify(c);
        if old_type != c_type && !s.as_str().is_empty() {
            assert(s@.len() > 0);
            match old_type {
                TokenType::Number => {
                    tokens.push(Token::Number(s));
                },
                _ => {
                    tokens.push(Token::Word(s));
                },
            }
            s = String::new();
            proof {
                assert(lexemes(tokens@) =~= held.push(token_of(before.kind, before.run)));
            }
        }
        let ghost flushed = lexemes(tokens@);
        match c_type {
            TokenType::Punctuation => {
                tokens.push(Token::Punctuation(c));
                proof {
                    assert(lexemes(tokens@) =~= flushed.push(Lexeme::Punctuation(c)));
                }
            },
            TokenType::Number | TokenType::Word => {
                push_char(&mut s, c);
            },
            TokenType::Other => {},
        }
        old_type = c_type;
        proof {
            assert(seen.push(c).drop_last() =~= seen);
            assert(seen.push(c) =~= chars.seq().take(chars.index() + 1));
            seen = seen.push(c);
        }
    }
    proof {
        assert(seen =~= line@);
        lemma_run_kind(seen);
    }
    let ghost held = lexemes(tokens@);
    if !s.as_str().is_empty() {
        match old_type {
            TokenType::Number => {
                tokens.push(Token::Number(s));
            },
            _ => {
                tokens.push(Token::Word(s));
            },
        }
        proof {
            let end = reading(seen);
            assert(lexemes(tokens@) =~= held.push(token_of(end.kind, end.run)));
        }
    }
    Ok(tokens)
}

} // verus!
