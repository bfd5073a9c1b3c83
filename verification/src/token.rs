//! Tokens of the arithmetic-expression language, their mathematical model,
//! the lexical errors, and the textual rendering of a token.

use vstd::prelude::*;
use vstd::string::StringExecFns;

verus! {

/// A lexical token: an identifier, an unsigned 32-bit number, or one of the
/// two single-character operators.
#[derive(Debug, Clone, PartialEq, Eq)]
pub enum Token {
    IDENTIFIER(String),
    NUMBER(u32),
    PLUS,
    MINUS,
}

/// The model of a token: identifier text as a sequence of characters, a
/// number as its mathematical value.
pub enum TokenModel {
    Identifier(Seq<char>),
    Number(nat),
    Plus,
    Minus,
}

impl View for Token {
    type V = TokenModel;

    open spec fn view(&self) -> TokenModel {
        match self {
            Token::IDENTIFIER(name) => TokenModel::Identifier(name@),
            Token::NUMBER(n) => TokenModel::Number(*n as nat),
            Token::PLUS => TokenModel::Plus,
            Token::MINUS => TokenModel::Minus,
        }
    }
}

/// A lexical error: a character no token rule recognizes, with the position
/// (in characters consumed) at which it stood, or a number literal whose
/// value does not fit in 32 bits.
#[derive(Debug, Clone, Copy, PartialEq, Eq)]
pub enum LexError {
    UnrecognizedCharacter(char, usize),
    NumberOverflow,
}

/// The decimal digit character for a value below ten.
pub open spec fn digit_char_of(d: int) -> char {
    ((0x30 + d) as u8) as char
}

/// The canonical decimal numeral of a number: its digits as characters, most
/// significant first, with no leading zero.
pub open spec fn dec_rep(n: int) -> Seq<char>
    decreases n,
{
    if n < 10 {
        seq![digit_char_of(n)]
    } else {
        dec_rep(n / 10).push(digit_char_of(n % 10))
    }
}

/// The textual rendering of a token.
pub open spec fn token_text(t: TokenModel) -> Seq<char> {
    match t {
        TokenModel::Identifier(name) => "IDENTIFIER("@ + name + ")"@,
        TokenModel::Number(n) => "NUMBER("@ + dec_rep(n as int) + ")"@,
        TokenModel::Plus => "PLUS"@,
        TokenModel::Minus => "MINUS"@,
    }
}

/// Relies on `String::push`: appends the given character to the end of the
/// string.
pub assume_specification[ String::push ](s: &mut String, c: char)
    ensures
        final(s)@ == old(s)@.push(c),
;

/// Append the decimal numeral of `n` to `out`.
fn push_dec(n: u32, out: &mut String)
    ensures
        final(out)@ == old(out)@ + dec_rep(n as int),
    decreases n,
{
    if n < 10 {
        out.push((0x30 + (n as u8)) as char);
        assert(out@ =~= old(out)@ + dec_rep(n as int));
    } else {
        push_dec(n / 10, out);
        out.push((0x30 + ((n % 10) as u8)) as char);
        assert(out@ =~= old(out)@ + dec_rep(n as int));
    }
}

impl Token {
    /// The textual rendering of this token: `IDENTIFIER(<name>)`,
    /// `NUMBER(<n>)`, `PLUS` or `MINUS`.
    pub fn to_text(&self) -> (r: String)
        ensures
            r@ == token_text(self@),
    {
        match self {
            Token::IDENTIFIER(name) => {
                let mut r = String::from_str("IDENTIFIER(");
                r.append(name.as_str());
                r.append(")");
                assert(r@ =~= token_text(self@));
                r
            },
            Token::NUMBER(n) => {
                let mut r = String::from_str("NUMBER(");
                push_dec(*n, &mut r);
                r.append(")");
                assert(r@ =~= token_text(self@));
                r
            },
            Token::PLUS => String::from_str("PLUS"),
            Token::MINUS => String::from_str("MINUS"),
        }
    }
}

} // verus!
