//! The scanner: it reads the character stream and yields one token at a
//! time, skipping whitespace and line comments transparently.

use vstd::arithmetic::div_mod::lemma_fundamental_div_mod;
use vstd::arithmetic::div_mod::lemma_mod_division_less_than_divisor;
use vstd::prelude::*;

use crate::charclass::is_alphabetic;
use crate::charclass::is_ascii_digit;
use crate::charclass::is_ascii_digit_char;
use crate::charclass::is_numeric;
use crate::charclass::is_whitespace;
use crate::model::all_ascii_digits;
use crate::model::digits_val;
use crate::model::dot_count;
use crate::model::float_lit_ok;
use crate::model::int_lit_i64;
use crate::model::lemma_digits_val_mono;
use crate::model::spec_scan_digits;
use crate::model::spec_scan_name;
use crate::model::spec_scan_number;
use crate::model::spec_scan_string;
use crate::model::spec_next_token;
use crate::model::spec_trivia;
use crate::model::strip_sign;
use crate::model::LexStep;
use crate::stream::Stream;
use crate::token::ParseError;
use crate::token::Token;

verus! {

/// Relies on `String::push`: appends exactly the one character.
#[verifier::external_body]
fn push_char(s: &mut String, c: char)
    ensures
        final (s)@ == old(s)@.push(c),
{
    s.push(c);
}

/// The characters of `buf`, as a `String`.
fn string_of(buf: &Vec<char>) -> (s: String)
    ensures
        s@ == buf@,
{
    let mut s = String::new();
    let mut i: usize = 0;
    while i < buf.len()
        invariant
            i <= buf.len(),
            s@ == buf@.take(i as int),
        decreases buf.len() - i,
    {
        push_char(&mut s, buf[i]);
        proof {
            assert(buf@.take(i + 1 as int) =~= buf@.take(i as int).push(buf@[i as int]));
        }
        i = i + 1;
    }
    proof {
        assert(buf@.take(buf@.len() as int) =~= buf@);
    }
    s
}

/// Pulls characters from the stream into a buffer until the name is
/// terminated by whitespace, `':'` or the end of the input.
pub fn scan_name(stream: &mut Stream) -> (name: String)
    ensures
        name@ == spec_scan_name(old(stream)@).0,
        final (stream)@ == spec_scan_name(old(stream)@).1,
{
    let ghost s0 = stream@;
    let mut name = String::new();
    loop
        invariant
            spec_scan_name(s0).0 == name@ + spec_scan_name(stream@).0,
            spec_scan_name(s0).1 == spec_scan_name(stream@).1,
        ensures
            name@ == spec_scan_name(s0).0,
            stream@ == spec_scan_name(s0).1,
        decreases stream@.len(),
    {
        let ghost cur = stream@;
        let c = stream.peek();
        if !is_whitespace(c) && c != ':' && c != '\0' {
            let c2 = stream.next();
            push_char(&mut name, c2);
            proof {
                assert(spec_scan_name(cur).0 =~= seq![cur[0]] + spec_scan_name(
                    cur.drop_first(),
                ).0);
                assert(name@ + spec_scan_name(stream@).0 =~= (name@.drop_last() + seq![cur[0]])
                    + spec_scan_name(cur.drop_first()).0);
                assert(name@.drop_last() + spec_scan_name(cur).0 =~= name@ + spec_scan_name(
                    stream@,
                ).0);
            }
        } else {
            proof {
                assert(spec_scan_name(cur).0 =~= Seq::<char>::empty());
                assert(name@ + Seq::<char>::empty() =~= name@);
            }
            break ;
        }
    }
    name
}

/// Pulls characters from the stream into a buffer until the string body
/// is terminated by `'"'` or the end of the input.
pub fn scan_string(stream: &mut Stream) -> (body: String)
    ensures
        body@ == spec_scan_string(old(stream)@).0,
        final (stream)@ == spec_scan_string(old(stream)@).1,
{
    let ghost s0 = stream@;
    let mut body = String::new();
    loop
        invariant
            spec_scan_string(s0).0 == body@ + spec_scan_string(stream@).0,
            spec_scan_string(s0).1 == spec_scan_string(stream@).1,
        ensures
            body@ == spec_scan_string(s0).0,
            stream@ == spec_scan_string(s0).1,
        decreases stream@.len(),
    {
        let ghost cur = stream@;
        let c = stream.peek();
        if c != '\0' && c != '"' {
            let c2 = stream.next();
            push_char(&mut body, c2);
            proof {
                assert(spec_scan_string(cur).0 =~= seq![cur[0]] + spec_scan_string(
                    cur.drop_first(),
                ).0);
                assert(body@ + spec_scan_string(stream@).0 =~= (body@.drop_last() + seq![cur[0]])
                    + spec_scan_string(cur.drop_first()).0);
                assert(body@.drop_last() + spec_scan_string(cur).0 =~= body@ + spec_scan_string(
                    stream@,
                ).0);
            }
        } else {
            proof {
                assert(spec_scan_string(cur).0 =~= Seq::<char>::empty());
                assert(body@ + Seq::<char>::empty() =~= body@);
            }
            break ;
        }
    }
    body
}

/// Pulls digits and decimal points from the stream, greedily.
fn scan_digit_chars(stream: &mut Stream) -> (buf: Vec<char>)
    ensures
        buf@ == spec_scan_digits(old(stream)@).0,
        final (stream)@ == spec_scan_digits(old(stream)@).1,
{
    let ghost s0 = stream@;
    let mut buf: Vec<char> = Vec::new();
    loop
        invariant
            spec_scan_digits(s0).0 == buf@ + spec_scan_digits(stream@).0,
            spec_scan_digits(s0).1 == spec_scan_digits(stream@).1,
        ensures
            buf@ == spec_scan_digits(s0).0,
            stream@ == spec_scan_digits(s0).1,
        decreases stream@.len(),
    {
        let ghost cur = stream@;
        if stream.at_end() {
            proof {
                assert(buf@ + Seq::<char>::empty() =~= buf@);
            }
            break ;
        }
        let c = stream.peek();
        if is_numeric(c) || c == '.' {
            let c2 = stream.next();
            buf.push(c2);
            proof {
                assert(spec_scan_digits(cur).0 =~= seq![cur[0]] + spec_scan_digits(
                    cur.drop_first(),
                ).0);
                assert(buf@ + spec_scan_digits(stream@).0 =~= (buf@.drop_last() + seq![cur[0]])
                    + spec_scan_digits(cur.drop_first()).0);
                assert(buf@.drop_last() + spec_scan_digits(cur).0 =~= buf@ + spec_scan_digits(
                    stream@,
                ).0);
            }
        } else {
            proof {
                assert(spec_scan_digits(cur).0 =~= Seq::<char>::empty());
                assert(buf@ + Seq::<char>::empty() =~= buf@);
            }
            break ;
        }
    }
    buf
}

/// How many decimal points the buffer holds.
fn count_dots(buf: &Vec<char>) -> (n: usize)
    ensures
        n as int == dot_count(buf@),
{
    let mut n: usize = 0;
    let mut i: usize = 0;
    while i < buf.len()
        invariant
            i <= buf.len(),
            n <= i,
            n as int == dot_count(buf@.take(i as int)),
        decreases buf.len() - i,
    {
        proof {
            assert(buf@.take(i + 1 as int).drop_last() =~= buf@.take(i as int));
            assert(buf@.take(i + 1 as int).last() == buf@[i as int]);
        }
        if buf[i] == '.' {
            n = n + 1;
        }
        i = i + 1;
    }
    proof {
        assert(buf@.take(buf@.len() as int) =~= buf@);
    }
    n
}

/// Whether the buffer is a well-formed floating-point literal.
fn check_float(buf: &Vec<char>) -> (r: bool)
    ensures
        r == float_lit_ok(buf@),
{
    let start: usize = if buf.len() > 0 && (buf[0] == '-' || buf[0] == '+') {
        1
    } else {
        0
    };
    let ghost body = strip_sign(buf@).1;
    proof {
        assert(body =~= buf@.skip(start as int));
    }
    if buf.len() == start {
        return false;
    }
    let mut dots: usize = 0;
    let mut seen_digit = false;
    let mut i: usize = start;
    while i < buf.len()
        invariant
            start <= i <= buf.len(),
            start <= 1,
            buf@.len() > start,
            body == strip_sign(buf@).1,
            body =~= buf@.skip(start as int),
            dots <= i,
            dots as int == dot_count(body.take(i - start)),
            seen_digit == exists|j: int| 0 <= j < i - start && is_ascii_digit_char(body[j]),
            forall|j: int| 0 <= j < i - start ==> body[j] == '.' || is_ascii_digit_char(body[j]),
        decreases buf.len() - i,
    {
        let c = buf[i];
        proof {
            assert(body[(i - start) as int] == buf@[i as int]);
            assert(body.take(i - start + 1 as int).drop_last() =~= body.take((i - start) as int));
            assert(body.take(i - start + 1 as int).last() == body[(i - start) as int]);
        }
        if c == '.' {
            dots = dots + 1;
        } else if is_ascii_digit(c) {
            proof {
                let w = (i - start) as int;
                assert(0 <= w < i + 1 - start && is_ascii_digit_char(body[w]));
            }
            seen_digit = true;
        } else {
            proof {
                assert(!(body[(i - start) as int] == '.' || is_ascii_digit_char(
                    body[(i - start) as int],
                )));
            }
            return false;
        }
        i = i + 1;
    }
    proof {
        assert(body.take((buf@.len() - start) as int) =~= body);
    }
    dots == 1 && seen_digit
}

/// The signed 64-bit integer the buffer denotes, or `None` when the
/// buffer is malformed or its magnitude does not fit.
fn parse_int_chars(buf: &Vec<char>) -> (r: Option<i64>)
    ensures
        r == int_lit_i64(buf@),
{
    let neg: bool;
    let start: usize;
    if buf.len() > 0 && buf[0] == '-' {
        neg = true;
        start = 1;
    } else if buf.len() > 0 && buf[0] == '+' {
        neg = false;
        start = 1;
    } else {
        neg = false;
        start = 0;
    }
    let ghost body = strip_sign(buf@).1;
    proof {
        assert(body =~= buf@.skip(start as int));
        assert(strip_sign(buf@).0 == neg);
    }
    if buf.len() == start {
        return None;
    }
    let limit: u64 = if neg {
        9223372036854775808
    } else {
        9223372036854775807
    };
    let mut mag: u64 = 0;
    let mut i: usize = start;
    while i < buf.len()
        invariant
            start <= i <= buf.len(),
            start <= 1,
            buf@.len() > start,
            neg == strip_sign(buf@).0,
            body == strip_sign(buf@).1,
            body =~= buf@.skip(start as int),
            limit == if neg {
                9223372036854775808u64
            } else {
                9223372036854775807u64
            },
            all_ascii_digits(body.take(i - start)),
            mag as int == digits_val(body.take(i - start)),
            mag <= limit,
        decreases buf.len() - i,
    {
        let c = buf[i];
        proof {
            assert(body[(i - start) as int] == buf@[i as int]);
        }
        let u = c as u32;
        if !(48 <= u && u <= 57) {
            proof {
                assert(!is_ascii_digit_char(body[(i - start) as int]));
            }
            return None;
        }
        let d = (u - 48) as u64;
        proof {
            assert(body.take(i - start + 1 as int).drop_last() =~= body.take((i - start) as int));
            assert(body.take(i - start + 1 as int).last() == body[(i - start) as int]);
            assert(forall|j: int|
                0 <= j < i + 1 - start ==> is_ascii_digit_char(
                    #[trigger] body.take(i - start + 1 as int)[j],
                ));
            assert(digits_val(body.take(i - start + 1 as int)) == mag as int * 10 + d);
            lemma_fundamental_div_mod((limit - d) as int, 10);
            lemma_mod_division_less_than_divisor((limit - d) as int, 10);
        }
        if mag > (limit - d) / 10 {
            proof {
                assert(mag as int * 10 + d > limit);
                if all_ascii_digits(body) {
                    lemma_digits_val_mono(body, i + 1 - start);
                    assert(digits_val(body) > limit);
                }
            }
            return None;
        }
        proof {
            assert(mag as int * 10 + d <= limit);
        }
        mag = mag * 10 + d;
        i = i + 1;
    }
    proof {
        assert(body.take((buf@.len() - start) as int) =~= body);
        assert(all_ascii_digits(body));
        assert(mag as int == digits_val(body));
    }
    if neg {
        if mag == 9223372036854775808 {
            Some(i64::MIN)
        } else {
            Some(-(mag as i64))
        }
    } else {
        Some(mag as i64)
    }
}

/// A scanned numeric literal: an integer, a floating-point literal's
/// text, or a text that denotes neither.
pub enum Number {
    Integer(i64),
    Float(String),
    NotANumber,
}

/// Reads a numeric literal from the stream: an optional sign, then
/// digits and decimal points, greedily. A decimal point makes the
/// literal floating-point, and its well-formed text is kept; otherwise
/// the text must denote a signed 64-bit integer.
pub fn scan_number(stream: &mut Stream) -> (num: Number)
    ensures
        ({
            let (b, r) = spec_scan_number(old(stream)@);
            &&& final (stream)@ == r
            &&& (if dot_count(b) > 0 {
                if float_lit_ok(b) {
                    num matches Number::Float(t) && t@ == b
                } else {
                    num is NotANumber
                }
            } else {
                match int_lit_i64(b) {
                    Some(v) => num matches Number::Integer(w) && w == v,
                    None => num is NotANumber,
                }
            })
        }),
{
    let ghost s0 = stream@;
    let mut buf: Vec<char> = Vec::new();
    let c = stream.peek();
    if c == '-' || c == '+' {
        let c2 = stream.next();
        buf.push(c2);
    }
    let mut digits = scan_digit_chars(stream);
    buf.append(&mut digits);
    proof {
        assert(buf@ =~= spec_scan_number(s0).0);
        assert(stream@ == spec_scan_number(s0).1);
    }
    let dots = count_dots(&buf);
    if dots > 0 {
        if check_float(&buf) {
            Number::Float(string_of(&buf))
        } else {
            Number::NotANumber
        }
    } else {
        match parse_int_chars(&buf) {
            Some(v) => Number::Integer(v),
            None => Number::NotANumber,
        }
    }
}

/// The central part of the lexer: advances the stream past whitespace
/// and comments, then reads the next token, whatever its length.
pub fn next_token(stream: &mut Stream) -> (r: Result<Token, ParseError>)
    ensures
        match spec_next_token(old(stream)@) {
            LexStep::Tok(t, rest) => r matches Ok(tok) && tok@ == t && final (stream)@ == rest,
            LexStep::Fail(e) => r matches Err(e2) && e2 == e,
        },
{
    let ghost s0 = stream@;
    loop
        invariant
            spec_trivia(s0, false) == spec_trivia(stream@, false),
        ensures
            stream@ == spec_trivia(s0, false),
        decreases stream@.len(),
    {
        let ghost cur = stream@;
        let c = stream.peek();
        if is_whitespace(c) {
            proof {
                assert(cur.len() > 0);
            }
            stream.next();
        } else if c == '#' {
            proof {
                assert(cur.len() > 0);
            }
            stream.next();
            loop
                invariant_except_break
                    spec_trivia(s0, false) == spec_trivia(stream@, true),
                invariant
                    stream@.len() <= cur.len() - 1,
                ensures
                    spec_trivia(s0, false) == spec_trivia(stream@, false),
                    stream@.len() <= cur.len() - 1,
                decreases stream@.len(),
            {
                let ghost cur2 = stream@;
                let n = stream.next();
                if n == '\n' || n == '\0' {
                    break ;
                }
                proof {
                    assert(cur2.len() > 0);
                }
            }
        } else {
            break ;
        }
    }
    if stream.at_end() {
        return Ok(Token::EOF);
    }
    let c = stream.peek();
    if is_alphabetic(c) || c == '_' {
        let name = scan_name(stream);
        return Ok(Token::Name(name));
    }
    if is_numeric(c) || c == '.' || c == '-' || c == '+' {
        let num = scan_number(stream);
        return match num {
            Number::Integer(n) => Ok(Token::IntLiteral(n)),
            Number::Float(text) => Ok(Token::FloatLiteral(text)),
            Number::NotANumber => Err(ParseError::InvalidLiteral),
        };
    }
    if c == ':' {
        stream.next();
        let e = stream.next();
        if e == '=' {
            Ok(Token::Assignment)
        } else {
            Err(ParseError::ExpectedEquals)
        }
    } else if c == '"' {
        stream.next();
        let body = scan_string(stream);
        let q = stream.next();
        if q == '"' {
            Ok(Token::StringLiteral(body))
        } else {
            Err(ParseError::UnterminatedString)
        }
    } else if c == '\0' {
        Ok(Token::EOF)
    } else {
        Err(ParseError::UnrecognizedChar)
    }
}

} // verus!
