use vstd::prelude::*;

use crate::defs::Token;

verus! {

/// A decimal digit.
pub open spec fn is_digit_char(c: char) -> bool {
    48 <= c as u32 && c as u32 <= 57
}

pub open spec fn digit_val(c: char) -> int {
    c as u32 - 48
}

pub open spec fn all_digits(s: Seq<char>) -> bool {
    forall|i: int| 0 <= i < s.len() ==> is_digit_char(s[i])
}

/// The value of a digit string, most significant digit first.
pub open spec fn digits_value(s: Seq<char>) -> int
    decreases s.len(),
{
    if s.len() == 0 {
        0
    } else {
        digits_value(s.drop_last()) * 10 + digit_val(s.last())
    }
}

/// The digits of a lexeme, after an optional leading sign.
pub open spec fn unsigned_part(s: Seq<char>) -> Seq<char> {
    if s.len() > 0 && (s[0] == '+' || s[0] == '-') {
        s.skip(1)
    } else {
        s
    }
}

pub open spec fn lexeme_sign(s: Seq<char>) -> int {
    if s.len() > 0 && s[0] == '-' {
        -1
    } else {
        1
    }
}

/// Whether a lexeme is a decimal 32-bit signed integer literal: an optional
/// sign, then one or more digits, with the signed value in range.
pub open spec fn is_i32_lexeme(s: Seq<char>) -> bool {
    let d = unsigned_part(s);
    d.len() > 0 && all_digits(d) && i32::MIN <= lexeme_sign(s) * digits_value(d) <= i32::MAX
}

pub open spec fn i32_lexeme_value(s: Seq<char>) -> int {
    lexeme_sign(s) * digits_value(unsigned_part(s))
}

/// The token that a lexeme maps to: keywords by exact match, then integer
/// literals, then user-defined names.
pub open spec fn spec_token_of_ok(lex: Seq<char>, t: Token) -> bool {
    if lex == "+"@ {
        t == Token::Add
    } else if lex == "-"@ {
        t == Token::Sub
    } else if lex == "*"@ {
        t == Token::Mul
    } else if lex == "/"@ {
        t == Token::Div
    } else if lex == "%"@ {
        t == Token::Mod
    } else if lex == "**"@ {
        t == Token::Pow
    } else if lex == "<"@ {
        t == Token::Less
    } else if lex == ":"@ {
        t == Token::DefBegin
    } else if lex == ";"@ {
        t == Token::DefEnd
    } else if lex == "if"@ {
        t == Token::If
    } else if lex == "skip"@ {
        t == Token::Skip
    } else if lex == "print"@ {
        t == Token::Print
    } else if lex == "quit"@ {
        t == Token::Quit
    } else if lex == "swap"@ {
        t == Token::Swap
    } else if lex == "rot"@ {
        t == Token::Rot
    } else if lex == "pick"@ {
        t == Token::Pick
    } else if lex == "drop"@ {
        t == Token::Drop
    } else if is_i32_lexeme(lex) {
        t == Token::Num(i32_lexeme_value(lex) as i32)
    } else {
        &&& t is Custom
        &&& (t matches Token::Custom(n) ==> n@ == lex)
    }
}

/// The lexemes of a source line, in order.
pub uninterp spec fn ws_split_of(s: Seq<char>) -> Seq<Seq<char>>;

/// Relies on str::split_whitespace: splits the input into the maximal
/// whitespace-free pieces, in order, a function of the characters alone.
#[verifier::external_body]
pub fn split_ws(s: &str) -> (r: Vec<String>)
    ensures
        r@.map_values(|p: String| p@) == ws_split_of(s@),
{
    s.split_whitespace().map(|p| p.to_string()).collect()
}

/// Relies on str::parse::<i32>: accepts an optional sign followed by decimal
/// digits, exactly when the signed value fits in 32 bits.
#[verifier::external_body]
fn parse_i32_lexeme(s: &String) -> (r: Option<i32>)
    ensures
        match r {
            Some(v) => is_i32_lexeme(s@) && v as int == i32_lexeme_value(s@),
            None => !is_i32_lexeme(s@),
        },
{
    s.as_str().parse::<i32>().ok()
}

/// Map one lexeme to its token.
pub fn token_of_lexeme(lex: String) -> (t: Token)
    ensures
        spec_token_of_ok(lex@, t),
{
    if lex == "+".to_owned() {
        Token::Add
    } else if lex == "-".to_owned() {
        Token::Sub
    } else if lex == "*".to_owned() {
        Token::Mul
    } else if lex == "/".to_owned() {
        Token::Div
    } else if lex == "%".to_owned() {
        Token::Mod
    } else if lex == "**".to_owned() {
        Token::Pow
    } else if lex == "<".to_owned() {
        Token::Less
    } else if lex == ":".to_owned() {
        Token::DefBegin
    } else if lex == ";".to_owned() {
        Token::DefEnd
    } else if lex == "if".to_owned() {
        Token::If
    } else if lex == "skip".to_owned() {
        Token::Skip
    } else if lex == "print".to_owned() {
        Token::Print
    } else if lex == "quit".to_owned() {
        Token::Quit
    } else if lex == "swap".to_owned() {
        Token::Swap
    } else if lex == "rot".to_owned() {
        Token::Rot
    } else if lex == "pick".to_owned() {
        Token::Pick
    } else if lex == "drop".to_owned() {
        Token::Drop
    } else {
        match parse_i32_lexeme(&lex) {
            Some(v) => Token::Num(v),
            None => Token::Custom(lex),
        }
    }
}

} // verus!
