//! The tokenizer: groups a scanner's character stream into tokens.
//!
//! Rules, in order of first match: whitespace is skipped; `+` and `-` are
//! single-character operator tokens; a maximal run of alphanumeric
//! characters that begins with an alphabetic character is one identifier; a
//! maximal run of decimal digits is one number, whose value must fit in 32
//! bits; any other character is a lexical error. End of input is not an
//! error: once the scanner is exhausted every call reports end of stream.

use vstd::prelude::*;
use crate::chars::{
    is_whitespace_char, is_digit_char, is_alphabetic_char, is_alphanumeric_char, digits_value,
    lemma_digits_value_snoc, lemma_digits_value_nonneg, whitespace_char, digit_char,
    alphabetic_char, alphanumeric_char,
};
use crate::scanner::{Scanner, chars_of};
use crate::token::{Token, TokenModel, LexError};

verus! {

/// The first position at or after `i` whose character is not whitespace, or
/// the end of the sequence.
pub open spec fn ws_end(s: Seq<char>, i: int) -> int
    decreases s.len() - i,
{
    if i < s.len() && is_whitespace_char(s[i]) {
        ws_end(s, i + 1)
    } else {
        i
    }
}

/// The first position at or after `i` whose character is not alphanumeric,
/// or the end of the sequence.
pub open spec fn alnum_end(s: Seq<char>, i: int) -> int
    decreases s.len() - i,
{
    if i < s.len() && is_alphanumeric_char(s[i]) {
        alnum_end(s, i + 1)
    } else {
        i
    }
}

/// The first position at or after `i` whose character is not a decimal
/// digit, or the end of the sequence.
pub open spec fn digit_end(s: Seq<char>, i: int) -> int
    decreases s.len() - i,
{
    if i < s.len() && is_digit_char(s[i]) {
        digit_end(s, i + 1)
    } else {
        i
    }
}

pub proof fn lemma_ws_end(s: Seq<char>, i: int)
    requires
        0 <= i <= s.len(),
    ensures
        i <= ws_end(s, i) <= s.len(),
        forall|k: int| i <= k < ws_end(s, i) ==> is_whitespace_char(#[trigger] s[k]),
        ws_end(s, i) < s.len() ==> !is_whitespace_char(s[ws_end(s, i)]),
    decreases s.len() - i,
{
    if i < s.len() && is_whitespace_char(s[i]) {
        lemma_ws_end(s, i + 1);
    }
}

pub proof fn lemma_alnum_end(s: Seq<char>, i: int)
    requires
        0 <= i <= s.len(),
    ensures
        i <= alnum_end(s, i) <= s.len(),
        forall|k: int| i <= k < alnum_end(s, i) ==> is_alphanumeric_char(#[trigger] s[k]),
        alnum_end(s, i) < s.len() ==> !is_alphanumeric_char(s[alnum_end(s, i)]),
    decreases s.len() - i,
{
    if i < s.len() && is_alphanumeric_char(s[i]) {
        lemma_alnum_end(s, i + 1);
    }
}

pub proof fn lemma_digit_end(s: Seq<char>, i: int)
    requires
        0 <= i <= s.len(),
    ensures
        i <= digit_end(s, i) <= s.len(),
        forall|k: int| i <= k < digit_end(s, i) ==> is_digit_char(#[trigger] s[k]),
        digit_end(s, i) < s.len() ==> !is_digit_char(s[digit_end(s, i)]),
    decreases s.len() - i,
{
    if i < s.len() && is_digit_char(s[i]) {
        lemma_digit_end(s, i + 1);
    }
}

/// `ws_end` is exactly the end of a run of whitespace.
pub proof fn lemma_ws_end_is(s: Seq<char>, i: int, b: int)
    requires
        0 <= i <= b <= s.len(),
        forall|k: int| i <= k < b ==> is_whitespace_char(#[trigger] s[k]),
        b < s.len() ==> !is_whitespace_char(s[b]),
    ensures
        ws_end(s, i) == b,
    decreases b - i,
{
    if i < b {
        lemma_ws_end_is(s, i + 1, b);
    }
}

/// `alnum_end` is exactly the end of a run of alphanumeric characters.
pub proof fn lemma_alnum_end_is(s: Seq<char>, i: int, b: int)
    requires
        0 <= i <= b <= s.len(),
        forall|k: int| i <= k < b ==> is_alphanumeric_char(#[trigger] s[k]),
        b < s.len() ==> !is_alphanumeric_char(s[b]),
    ensures
        alnum_end(s, i) == b,
    decreases b - i,
{
    if i < b {
        lemma_alnum_end_is(s, i + 1, b);
    }
}

/// `digit_end` is exactly the end of a run of decimal digits.
pub proof fn lemma_digit_end_is(s: Seq<char>, i: int, b: int)
    requires
        0 <= i <= b <= s.len(),
        forall|k: int| i <= k < b ==> is_digit_char(#[trigger] s[k]),
        b < s.len() ==> !is_digit_char(s[b]),
    ensures
        digit_end(s, i) == b,
    decreases b - i,
{
    if i < b {
        lemma_digit_end_is(s, i + 1, b);
    }
}

/// What one call of the tokenizer does on the character stream `s` with `i`
/// characters already consumed: end of input, one token together with the
/// position after it, or a lexical error together with the position after
/// the offending input.
pub enum LexOutcome {
    End,
    Tok(TokenModel, int),
    Fail(LexError, int),
}

/// One step of lexing, applying the token rules in order of first match
/// after skipping whitespace.
pub open spec fn lex_step(s: Seq<char>, i: int) -> LexOutcome
    recommends
        0 <= i <= s.len(),
{
    let j = ws_end(s, i);
    if j == s.len() {
        LexOutcome::End
    } else if s[j] == '+' {
        LexOutcome::Tok(TokenModel::Plus, j + 1)
    } else if s[j] == '-' {
        LexOutcome::Tok(TokenModel::Minus, j + 1)
    } else if is_alphabetic_char(s[j]) {
        let e = alnum_end(s, j + 1);
        LexOutcome::Tok(TokenModel::Identifier(s.subrange(j, e)), e)
    } else if is_digit_char(s[j]) {
        let e = digit_end(s, j + 1);
        let v = digits_value(s.subrange(j, e));
        if v <= u32::MAX {
            LexOutcome::Tok(TokenModel::Number(v as nat), e)
        } else {
            LexOutcome::Fail(LexError::NumberOverflow, e)
        }
    } else {
        LexOutcome::Fail(LexError::UnrecognizedCharacter(s[j], j as usize), j + 1)
    }
}

/// Law: an input consisting solely of whitespace produces an empty token
/// sequence — from any position, lexing reports end of input at once.
pub proof fn lemma_whitespace_only_is_empty(s: Seq<char>, i: int)
    requires
        0 <= i <= s.len(),
        forall|k: int| 0 <= k < s.len() ==> is_whitespace_char(#[trigger] s[k]),
    ensures
        lex_step(s, i) == LexOutcome::End,
        lex_all(s, i) == (Seq::<TokenModel>::empty(), None::<LexError>),
{
    lemma_ws_end_is(s, i, s.len() as int);
}

/// Law: a maximal run of alphanumeric characters beginning with an
/// alphabetic character lexes, after any leading whitespace, to exactly one
/// Identifier token whose text equals that run.
pub proof fn lemma_identifier_run(s: Seq<char>, i: int, b: int, e: int)
    requires
        0 <= i <= b < e <= s.len(),
        forall|k: int| i <= k < b ==> is_whitespace_char(#[trigger] s[k]),
        is_alphabetic_char(s[b]),
        forall|k: int| b < k < e ==> is_alphanumeric_char(#[trigger] s[k]),
        e < s.len() ==> !is_alphanumeric_char(s[e]),
    ensures
        lex_step(s, i) == LexOutcome::Tok(TokenModel::Identifier(s.subrange(b, e)), e),
{
    lemma_ws_end_is(s, i, b);
    lemma_alnum_end_is(s, b + 1, e);
}

/// Law: a maximal run of decimal digits lexes, after any leading whitespace,
/// to exactly one Number token whose value is the decimal interpretation of
/// that run, provided the value fits in 32 bits.
pub proof fn lemma_number_run(s: Seq<char>, i: int, b: int, e: int)
    requires
        0 <= i <= b < e <= s.len(),
        forall|k: int| i <= k < b ==> is_whitespace_char(#[trigger] s[k]),
        forall|k: int| b <= k < e ==> is_digit_char(#[trigger] s[k]),
        e < s.len() ==> !is_digit_char(s[e]),
        digits_value(s.subrange(b, e)) <= u32::MAX,
    ensures
        lex_step(s, i) == LexOutcome::Tok(
            TokenModel::Number(digits_value(s.subrange(b, e)) as nat),
            e,
        ),
{
    lemma_ws_end_is(s, i, b);
    lemma_digit_end_is(s, b + 1, e);
}

/// Law: exhaustion is stable — at the end of the input, lexing reports end
/// of input, so once `next` has returned the end sentinel every later call
/// returns it again.
pub proof fn lemma_end_stable(s: Seq<char>)
    ensures
        lex_step(s, s.len() as int) == LexOutcome::End,
{
}

/// Law: whatever a lexing step yields is well formed. A token or an error
/// consumes at least one character and never runs past the input; an
/// identifier is non-empty, begins with an alphabetic character and
/// continues alphanumeric; a number fits in 32 bits.
pub proof fn lemma_step_shape(s: Seq<char>, i: int)
    requires
        0 <= i <= s.len(),
    ensures
        match lex_step(s, i) {
            LexOutcome::End => true,
            LexOutcome::Tok(t, e) => i < e <= s.len() && match t {
                TokenModel::Identifier(name) => name.len() >= 1 && is_alphabetic_char(name[0])
                    && forall|k: int|
                    0 <= k < name.len() ==> is_alphanumeric_char(#[trigger] name[k]),
                TokenModel::Number(v) => v <= u32::MAX,
                TokenModel::Plus => true,
                TokenModel::Minus => true,
            },
            LexOutcome::Fail(_err, e) => i < e <= s.len(),
        },
{
    lemma_ws_end(s, i);
    let j = ws_end(s, i);
    if j < s.len() {
        if s[j] == '+' || s[j] == '-' {
        } else if is_alphabetic_char(s[j]) {
            lemma_alnum_end(s, j + 1);
            let e = alnum_end(s, j + 1);
            let name = s.subrange(j, e);
            assert(forall|k: int| 0 <= k < name.len() ==> is_alphanumeric_char(#[trigger] name[k]))
                by {
                assert forall|k: int| 0 <= k < name.len() implies is_alphanumeric_char(
                    #[trigger] name[k],
                ) by {
                    assert(name[k] == s[j + k]);
                }
            }
        } else if is_digit_char(s[j]) {
            lemma_digit_end(s, j + 1);
            let e = digit_end(s, j + 1);
            let run = s.subrange(j, e);
            assert forall|k: int| 0 <= k < run.len() implies is_digit_char(#[trigger] run[k]) by {
                assert(run[k] == s[j + k]);
            }
            lemma_digits_value_nonneg(run);
        }
    }
}

/// Every token of the stream from position `i` on, in order, together with
/// the lexical error that cuts the stream short, if one does.
pub open spec fn lex_all(s: Seq<char>, i: int) -> (Seq<TokenModel>, Option<LexError>)
    decreases s.len() - i
        when 0 <= i <= s.len()
        via lex_all_decreases
{
    match lex_step(s, i) {
        LexOutcome::End => (Seq::<TokenModel>::empty(), None),
        LexOutcome::Tok(t, e) => {
            let rest = lex_all(s, e);
            (seq![t] + rest.0, rest.1)
        },
        LexOutcome::Fail(err, _e) => (Seq::<TokenModel>::empty(), Some(err)),
    }
}

#[via_fn]
proof fn lex_all_decreases(s: Seq<char>, i: int) {
    lemma_step_shape(s, i);
}

/// Tokenize a whole byte source: the ordered sequence of all of its tokens,
/// or the first lexical error the input runs into.
pub fn tokenize(input: Vec<u8>) -> (r: Result<Vec<Token>, LexError>)
    ensures
        ({
            let all = lex_all(chars_of(input@), 0);
            match r {
                Ok(tokens) => all.1 is None && tokens@.map_values(|t: Token| t@) == all.0,
                Err(e) => all.1 == Some(e),
            }
        }),
{
    let ghost s = chars_of(input@);
    let scanner = Scanner::new(input);
    let mut tokenizer = Tokenizer::new(scanner);
    let mut tokens: Vec<Token> = Vec::new();
    proof {
        assert(tokens@.map_values(|t: Token| t@) =~= Seq::<TokenModel>::empty());
    }
    loop
        invariant
            tokenizer.wf(),
            tokenizer.src() == s,
            s == chars_of(input@),
            0 <= tokenizer.consumed() <= s.len(),
            lex_all(s, 0).1 == lex_all(s, tokenizer.consumed()).1,
            lex_all(s, 0).0 == tokens@.map_values(|t: Token| t@) + lex_all(
                s,
                tokenizer.consumed(),
            ).0,
        decreases s.len() - tokenizer.consumed(),
    {
        let ghost cur = tokenizer.consumed();
        let ghost done = tokens@.map_values(|t: Token| t@);
        match tokenizer.next() {
            Ok(Some(token)) => {
                proof {
                    lemma_step_shape(s, cur);
                }
                tokens.push(token);
                proof {
                    let rest = lex_all(s, tokenizer.consumed()).0;
                    assert(tokens@.map_values(|t: Token| t@) =~= done.push(token@));
                    assert(done + (seq![token@] + rest) =~= done.push(token@) + rest);
                }
            },
            Ok(None) => {
                proof {
                    assert(done + Seq::<TokenModel>::empty() =~= done);
                }
                return Ok(tokens);
            },
            Err(e) => {
                return Err(e);
            },
        }
    }
}

/// The tokenizer owns exactly one scanner; all lookahead is delegated to it.
pub struct Tokenizer {
    scanner: Scanner,
}

impl Tokenizer {
    /// The full character stream being tokenized.
    pub closed spec fn src(&self) -> Seq<char> {
        self.scanner.src()
    }

    /// How many characters have been consumed so far.
    pub closed spec fn consumed(&self) -> int {
        self.scanner.consumed()
    }

    pub closed spec fn wf(&self) -> bool {
        self.scanner.wf()
    }

    pub fn new(scanner: Scanner) -> (t: Tokenizer)
        ensures
            t.wf() == scanner.wf(),
            t.src() == scanner.src(),
            t.consumed() == scanner.consumed(),
    {
        Tokenizer { scanner }
    }

    /// Scan past the first character of an identifier, greedily consuming
    /// the alphanumeric characters that follow it.
    fn lex_identifier(&mut self, c0: char) -> (tok: Token)
        requires
            old(self).wf(),
            1 <= old(self).consumed() <= old(self).src().len(),
            c0 == old(self).src()[old(self).consumed() - 1],
        ensures
            final(self).wf(),
            final(self).src() == old(self).src(),
            final(self).consumed() == alnum_end(old(self).src(), old(self).consumed()),
            tok@ == TokenModel::Identifier(
                old(self).src().subrange(
                    old(self).consumed() - 1,
                    alnum_end(old(self).src(), old(self).consumed()),
                ),
            ),
    {
        let ghost s = self.scanner.src();
        let ghost j = self.scanner.consumed() - 1;
        let mut name = String::new();
        name.push(c0);
        proof {
            assert(name@ =~= s.subrange(j, j + 1));
        }
        loop
            invariant
                self.scanner.wf(),
                self.scanner.src() == s,
                s == old(self).src(),
                j == old(self).consumed() - 1,
                0 <= j,
                j + 1 <= self.scanner.consumed() <= s.len(),
                alnum_end(s, j + 1) == alnum_end(s, self.scanner.consumed()),
                name@ == s.subrange(j, self.scanner.consumed()),
            decreases s.len() - self.scanner.consumed(),
        {
            let ghost cur = self.scanner.consumed();
            let c_opt = self.scanner.peek();
            match c_opt {
                Some(c) => {
                    if alphanumeric_char(c) {
                        let _ = self.scanner.next();
                        name.push(c);
                        proof {
                            assert(s.subrange(j, cur + 1) =~= s.subrange(j, cur).push(s[cur]));
                            assert(alnum_end(s, cur) == alnum_end(s, cur + 1));
                        }
                    } else {
                        proof {
                            assert(alnum_end(s, cur) == cur);
                        }
                        return Token::IDENTIFIER(name);
                    }
                },
                None => {
                    proof {
                        assert(alnum_end(s, cur) == cur);
                    }
                    return Token::IDENTIFIER(name);
                },
            }
        }
    }

    /// Scan past the first digit of a number, greedily consuming the digits
    /// that follow it and accumulating their value, which must fit in 32
    /// bits.
    fn lex_number(&mut self, c0: char) -> (r: Result<Option<Token>, LexError>)
        requires
            old(self).wf(),
            1 <= old(self).consumed() <= old(self).src().len(),
            c0 == old(self).src()[old(self).consumed() - 1],
            is_digit_char(c0),
        ensures
            final(self).wf(),
            final(self).src() == old(self).src(),
            final(self).consumed() == digit_end(old(self).src(), old(self).consumed()),
            ({
                let s = old(self).src();
                let j = old(self).consumed() - 1;
                let e = digit_end(s, j + 1);
                let v = digits_value(s.subrange(j, e));
                if v <= u32::MAX {
                    match r {
                        Ok(Some(tok)) => tok@ == TokenModel::Number(v as nat),
                        _ => false,
                    }
                } else {
                    r == Err::<Option<Token>, LexError>(LexError::NumberOverflow)
                }
            }),
    {
        let ghost s = self.scanner.src();
        let ghost j = self.scanner.consumed() - 1;
        let mut value: u32 = c0 as u32 - 0x30;
        let mut overflow: bool = false;
        proof {
            assert(s.subrange(j, j + 1) =~= Seq::<char>::empty().push(c0));
            lemma_digits_value_snoc(Seq::<char>::empty(), c0);
        }
        loop
            invariant
                self.scanner.wf(),
                self.scanner.src() == s,
                s == old(self).src(),
                j == old(self).consumed() - 1,
                0 <= j,
                j + 1 <= self.scanner.consumed() <= s.len(),
                digit_end(s, j + 1) == digit_end(s, self.scanner.consumed()),
                forall|k: int| j <= k < self.scanner.consumed() ==> is_digit_char(#[trigger] s[k]),
                !overflow ==> value == digits_value(s.subrange(j, self.scanner.consumed())),
                overflow ==> digits_value(s.subrange(j, self.scanner.consumed())) > u32::MAX,
            decreases s.len() - self.scanner.consumed(),
        {
            let ghost cur = self.scanner.consumed();
            let c_opt = self.scanner.peek();
            match c_opt {
                Some(c) => {
                    if digit_char(c) {
                        let _ = self.scanner.next();
                        let d: u32 = c as u32 - 0x30;
                        proof {
                            assert(s.subrange(j, cur + 1) =~= s.subrange(j, cur).push(s[cur]));
                            lemma_digits_value_snoc(s.subrange(j, cur), s[cur]);
                            assert(digit_end(s, cur) == digit_end(s, cur + 1));
                        }
                        if overflow {
                        } else {
                            let wide: u64 = (value as u64) * 10 + (d as u64);
                            if wide <= 0xFFFF_FFFFu64 {
                                value = wide as u32;
                            } else {
                                overflow = true;
                            }
                        }
                    } else {
                        proof {
                            assert(digit_end(s, cur) == cur);
                        }
                        if overflow {
                            return Err(LexError::NumberOverflow);
                        }
                        return Ok(Some(Token::NUMBER(value)));
                    }
                },
                None => {
                    proof {
                        assert(digit_end(s, cur) == cur);
                    }
                    if overflow {
                        return Err(LexError::NumberOverflow);
                    }
                    return Ok(Some(Token::NUMBER(value)));
                },
            }
        }
    }

    /// Return the next token of the stream, `Ok(None)` once the input is
    /// exhausted, or the lexical error the input runs into. Each call
    /// consumes just enough characters to decide one token; once it returns
    /// `Ok(None)`, every later call returns `Ok(None)` again.
    pub fn next(&mut self) -> (r: Result<Option<Token>, LexError>)
        requires
            old(self).wf(),
        ensures
            final(self).wf(),
            final(self).src() == old(self).src(),
            (match lex_step(old(self).src(), old(self).consumed()) {
                LexOutcome::End => r == Ok::<Option<Token>, LexError>(None)
                    && final(self).consumed() == old(self).src().len(),
                LexOutcome::Tok(t, e) => final(self).consumed() == e && (match r {
                    Ok(Some(tok)) => tok@ == t,
                    _ => false,
                }),
                LexOutcome::Fail(err, e) => r == Err::<Option<Token>, LexError>(err)
                    && final(self).consumed() == e,
            }),
    {
        let ghost s = self.scanner.src();
        let ghost i0 = self.scanner.consumed();
        loop
            invariant
                self.scanner.wf(),
                self.scanner.src() == s,
                s == old(self).src(),
                i0 == old(self).consumed(),
                0 <= i0 <= s.len(),
                i0 <= self.scanner.consumed() <= s.len(),
                ws_end(s, i0) == ws_end(s, self.scanner.consumed()),
            decreases s.len() - self.scanner.consumed(),
        {
            let ghost cur = self.scanner.consumed();
            let c_opt = self.scanner.next();
            match c_opt {
                None => {
                    proof {
                        assert(ws_end(s, cur) == cur);
                    }
                    return Ok(None);
                },
                Some(c) => {
                    if whitespace_char(c) {
                        proof {
                            assert(ws_end(s, cur) == ws_end(s, cur + 1));
                        }
                    } else {
                        proof {
                            assert(ws_end(s, cur) == cur);
                        }
                        if c == '+' {
                            return Ok(Some(Token::PLUS));
                        } else if c == '-' {
                            return Ok(Some(Token::MINUS));
                        } else if alphabetic_char(c) {
                            let tok = self.lex_identifier(c);
                            return Ok(Some(tok));
                        } else if digit_char(c) {
                            return self.lex_number(c);
                        } else {
                            let p = self.scanner.position();
                            return Err(LexError::UnrecognizedCharacter(c, p - 1));
                        }
                    }
                },
            }
        }
    }
}

} // verus!
