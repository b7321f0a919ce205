//! The mathematical model of the language: what the scanner and the
//! parser yield on any input, written as functions over sequences of
//! characters.
//!
//! The model consumes from the front: each function takes the remaining
//! input and returns what it read together with the input left over.
//! A `'\0'` inside the source behaves like the stream's own sentinel,
//! so the model treats it exactly as the scanner does.

use vstd::prelude::*;

use crate::charclass::is_alpha_char;
use crate::charclass::is_ascii_digit_char;
use crate::charclass::is_numeric_char;
use crate::charclass::is_space_char;
use crate::token::ParseError;

verus! {

/// A token at the specification level.
pub enum SpecToken {
    End,
    Assign,
    Name(Seq<char>),
    StrLit(Seq<char>),
    IntLit(i64),
    FloatLit(Seq<char>),
}

/// A declared value at the specification level. A floating-point value
/// is carried as its literal text.
pub enum SpecValue {
    Str(Seq<char>),
    Int(i64),
    Float(Seq<char>),
}

/// One step of the lexer: a token and the input after it, or a failure.
pub enum LexStep {
    Tok(SpecToken, Seq<char>),
    Fail(ParseError),
}

/// One step of the parser: a declaration and the input after it, the end
/// of the input, or a failure.
pub enum DeclStep {
    Decl(Seq<char>, SpecValue, Seq<char>),
    End,
    Fail(ParseError),
}

/// The input after the whitespace and comments that precede the next
/// token. With `in_comment`, characters are being discarded up to and
/// including the end of a comment line.
pub open spec fn spec_trivia(s: Seq<char>, in_comment: bool) -> Seq<char>
    decreases s.len(),
{
    if s.len() == 0 {
        s
    } else if in_comment {
        if s[0] == '\n' || s[0] == '\0' {
            spec_trivia(s.drop_first(), false)
        } else {
            spec_trivia(s.drop_first(), true)
        }
    } else {
        if is_space_char(s[0]) {
            spec_trivia(s.drop_first(), false)
        } else if s[0] == '#' {
            spec_trivia(s.drop_first(), true)
        } else {
            s
        }
    }
}

/// The name read greedily from the front of `s`, and the input after it:
/// characters up to the first whitespace, `':'` or `'\0'`.
pub open spec fn spec_scan_name(s: Seq<char>) -> (Seq<char>, Seq<char>)
    decreases s.len(),
{
    if s.len() > 0 && !is_space_char(s[0]) && s[0] != ':' && s[0] != '\0' {
        let (n, r) = spec_scan_name(s.drop_first());
        (seq![s[0]] + n, r)
    } else {
        (Seq::empty(), s)
    }
}

/// The body of a string literal read from the front of `s`, and the
/// input after it: characters up to the first `'"'` or `'\0'`.
pub open spec fn spec_scan_string(s: Seq<char>) -> (Seq<char>, Seq<char>)
    decreases s.len(),
{
    if s.len() > 0 && s[0] != '\0' && s[0] != '"' {
        let (c, r) = spec_scan_string(s.drop_first());
        (seq![s[0]] + c, r)
    } else {
        (Seq::empty(), s)
    }
}

/// The digits and decimal points read greedily from the front of `s`,
/// and the input after them.
pub open spec fn spec_scan_digits(s: Seq<char>) -> (Seq<char>, Seq<char>)
    decreases s.len(),
{
    if s.len() > 0 && (is_numeric_char(s[0]) || s[0] == '.') {
        let (b, r) = spec_scan_digits(s.drop_first());
        (seq![s[0]] + b, r)
    } else {
        (Seq::empty(), s)
    }
}

/// The text of a numeric literal read from the front of `s`: an optional
/// sign, then digits and decimal points, greedily.
pub open spec fn spec_scan_number(s: Seq<char>) -> (Seq<char>, Seq<char>) {
    if s.len() > 0 && (s[0] == '-' || s[0] == '+') {
        let (b, r) = spec_scan_digits(s.drop_first());
        (seq![s[0]] + b, r)
    } else {
        spec_scan_digits(s)
    }
}

/// A literal's sign, and its text with the sign removed.
pub open spec fn strip_sign(b: Seq<char>) -> (bool, Seq<char>) {
    if b.len() > 0 && b[0] == '-' {
        (true, b.drop_first())
    } else if b.len() > 0 && b[0] == '+' {
        (false, b.drop_first())
    } else {
        (false, b)
    }
}

pub open spec fn all_ascii_digits(b: Seq<char>) -> bool {
    forall|i: int| 0 <= i < b.len() ==> is_ascii_digit_char(b[i])
}

/// The number that a sequence of ASCII digits denotes in base ten.
pub open spec fn digits_val(b: Seq<char>) -> int
    decreases b.len(),
{
    if b.len() == 0 {
        0
    } else {
        digits_val(b.drop_last()) * 10 + (b.last() as u32 - 48)
    }
}

/// The value of an integer literal before the range check: an optional
/// sign, then at least one ASCII digit. `None` when malformed.
pub open spec fn int_lit_val(b: Seq<char>) -> Option<int> {
    let (neg, body) = strip_sign(b);
    if body.len() > 0 && all_ascii_digits(body) {
        Some(
            if neg {
                -digits_val(body)
            } else {
                digits_val(body)
            },
        )
    } else {
        None
    }
}

/// The signed 64-bit integer an integer literal denotes, or `None` when
/// the literal is malformed or its magnitude does not fit.
pub open spec fn int_lit_i64(b: Seq<char>) -> Option<i64> {
    match int_lit_val(b) {
        Some(v) => if i64::MIN <= v <= i64::MAX {
            Some(v as i64)
        } else {
            None
        },
        None => None,
    }
}

/// How many decimal points a literal's text holds.
pub open spec fn dot_count(b: Seq<char>) -> int
    decreases b.len(),
{
    if b.len() == 0 {
        0
    } else {
        dot_count(b.drop_last()) + if b.last() == '.' {
            1int
        } else {
            0int
        }
    }
}

/// A well-formed floating-point literal, as `str::parse::<f64>` accepts
/// the texts the scanner can produce: after an optional sign, ASCII
/// digits and exactly one decimal point, at least one digit among them.
pub open spec fn float_lit_ok(b: Seq<char>) -> bool {
    let (neg, body) = strip_sign(b);
    &&& body.len() > 0
    &&& (forall|i: int| 0 <= i < body.len() ==> body[i] == '.' || is_ascii_digit_char(body[i]))
    &&& dot_count(body) == 1
    &&& (exists|i: int| 0 <= i < body.len() && is_ascii_digit_char(body[i]))
}

/// A run of ASCII digits denotes a number that is not negative.
pub proof fn lemma_digits_val_nonneg(b: Seq<char>)
    requires
        all_ascii_digits(b),
    ensures
        digits_val(b) >= 0,
    decreases b.len(),
{
    if b.len() > 0 {
        assert(all_ascii_digits(b.drop_last())) by {
            assert(forall|i: int|
                0 <= i < b.drop_last().len() ==> b.drop_last()[i] == b[i] && is_ascii_digit_char(
                    b[i],
                ));
        }
        lemma_digits_val_nonneg(b.drop_last());
    }
}

/// Reading more digits never shrinks the number they denote.
pub proof fn lemma_digits_val_mono(b: Seq<char>, i: int)
    requires
        0 <= i <= b.len(),
        all_ascii_digits(b),
    ensures
        digits_val(b.take(i)) <= digits_val(b),
    decreases b.len() - i,
{
    if i == b.len() {
        assert(b.take(i) =~= b);
    } else {
        assert(all_ascii_digits(b.take(i))) by {
            assert(forall|j: int|
                0 <= j < i ==> b.take(i)[j] == b[j] && is_ascii_digit_char(b[j]));
        }
        assert(b.take(i + 1).drop_last() =~= b.take(i));
        assert(b.take(i + 1).last() == b[i]);
        lemma_digits_val_nonneg(b.take(i));
        assert(digits_val(b.take(i + 1)) == digits_val(b.take(i)) * 10 + (b[i] as u32 - 48));
        assert(digits_val(b.take(i)) * 10 >= digits_val(b.take(i))) by (nonlinear_arith)
            requires
                digits_val(b.take(i)) >= 0,
        ;
        lemma_digits_val_mono(b, i + 1);
    }
}

/// The token at the front of an input whose leading whitespace and
/// comments have already been skipped.
pub open spec fn lex_after_trivia(t: Seq<char>) -> LexStep {
    if t.len() == 0 {
        LexStep::Tok(SpecToken::End, t)
    } else {
        let c = t[0];
        if is_alpha_char(c) || c == '_' {
            let (n, r) = spec_scan_name(t);
            LexStep::Tok(SpecToken::Name(n), r)
        } else if is_numeric_char(c) || c == '.' || c == '-' || c == '+' {
            let (b, r) = spec_scan_number(t);
            if dot_count(b) > 0 {
                if float_lit_ok(b) {
                    LexStep::Tok(SpecToken::FloatLit(b), r)
                } else {
                    LexStep::Fail(ParseError::InvalidLiteral)
                }
            } else {
                match int_lit_i64(b) {
                    Some(v) => LexStep::Tok(SpecToken::IntLit(v), r),
                    None => LexStep::Fail(ParseError::InvalidLiteral),
                }
            }
        } else if c == ':' {
            let u = t.drop_first();
            if u.len() > 0 && u[0] == '=' {
                LexStep::Tok(SpecToken::Assign, u.drop_first())
            } else {
                LexStep::Fail(ParseError::ExpectedEquals)
            }
        } else if c == '"' {
            let (body, r) = spec_scan_string(t.drop_first());
            if r.len() > 0 && r[0] == '"' {
                LexStep::Tok(SpecToken::StrLit(body), r.drop_first())
            } else {
                LexStep::Fail(ParseError::UnterminatedString)
            }
        } else if c == '\0' {
            LexStep::Tok(SpecToken::End, t)
        } else {
            LexStep::Fail(ParseError::UnrecognizedChar)
        }
    }
}

/// The next token of `s`, skipping whitespace and comments first.
pub open spec fn spec_next_token(s: Seq<char>) -> LexStep {
    lex_after_trivia(spec_trivia(s, false))
}

/// One declaration read from the front of `s`: a name, the assignment
/// marker, and a literal, in that order, with nothing read past them.
pub open spec fn spec_parse_decl(s: Seq<char>) -> DeclStep {
    match spec_next_token(s) {
        LexStep::Fail(e) => DeclStep::Fail(e),
        LexStep::Tok(t1, r1) => match t1 {
            SpecToken::End => DeclStep::End,
            SpecToken::Name(n) => match spec_next_token(r1) {
                LexStep::Fail(e) => DeclStep::Fail(e),
                LexStep::Tok(t2, r2) => match t2 {
                    SpecToken::Assign => match spec_next_token(r2) {
                        LexStep::Fail(e) => DeclStep::Fail(e),
                        LexStep::Tok(t3, r3) => match t3 {
                            SpecToken::StrLit(x) => DeclStep::Decl(n, SpecValue::Str(x), r3),
                            SpecToken::IntLit(v) => DeclStep::Decl(n, SpecValue::Int(v), r3),
                            SpecToken::FloatLit(x) => DeclStep::Decl(n, SpecValue::Float(x), r3),
                            _ => DeclStep::Fail(ParseError::ExpectedLiteral),
                        },
                    },
                    _ => DeclStep::Fail(ParseError::ExpectedEquals),
                },
            },
            _ => DeclStep::Fail(ParseError::ExpectedName),
        },
    }
}

/// Skipping trivia never lengthens the input.
pub proof fn lemma_trivia_len(s: Seq<char>, b: bool)
    ensures
        spec_trivia(s, b).len() <= s.len(),
    decreases s.len(),
{
    if s.len() > 0 {
        lemma_trivia_len(s.drop_first(), true);
        lemma_trivia_len(s.drop_first(), false);
    }
}

/// A scanned name and the input after it make up the scanned input.
pub proof fn lemma_scan_name_len(s: Seq<char>)
    ensures
        spec_scan_name(s).0.len() + spec_scan_name(s).1.len() == s.len(),
    decreases s.len(),
{
    if s.len() > 0 && !is_space_char(s[0]) && s[0] != ':' && s[0] != '\0' {
        lemma_scan_name_len(s.drop_first());
    }
}

/// A scanned string body and the input after it make up the scanned input.
pub proof fn lemma_scan_string_len(s: Seq<char>)
    ensures
        spec_scan_string(s).0.len() + spec_scan_string(s).1.len() == s.len(),
    decreases s.len(),
{
    if s.len() > 0 && s[0] != '\0' && s[0] != '"' {
        lemma_scan_string_len(s.drop_first());
    }
}

/// A scanned digit run and the input after it make up the scanned input.
pub proof fn lemma_scan_digits_len(s: Seq<char>)
    ensures
        spec_scan_digits(s).0.len() + spec_scan_digits(s).1.len() == s.len(),
    decreases s.len(),
{
    if s.len() > 0 && (is_numeric_char(s[0]) || s[0] == '.') {
        lemma_scan_digits_len(s.drop_first());
    }
}

/// A scanned numeric literal and the input after it make up the scanned
/// input.
pub proof fn lemma_scan_number_len(s: Seq<char>)
    ensures
        spec_scan_number(s).0.len() + spec_scan_number(s).1.len() == s.len(),
{
    if s.len() > 0 && (s[0] == '-' || s[0] == '+') {
        lemma_scan_digits_len(s.drop_first());
    } else {
        lemma_scan_digits_len(s);
    }
}

/// Lexing a token never lengthens the input, and every token but the
/// end marker consumes at least one character.
pub proof fn lemma_next_token_len(s: Seq<char>)
    ensures
        spec_next_token(s) matches LexStep::Tok(t, r) ==> {
            &&& r.len() <= s.len()
            &&& !(t is End) ==> r.len() < s.len()
        },
{
    lemma_trivia_len(s, false);
    let t = spec_trivia(s, false);
    if t.len() > 0 {
        lemma_scan_name_len(t);
        lemma_scan_number_len(t);
        lemma_scan_string_len(t.drop_first());
        if is_alpha_char(t[0]) || t[0] == '_' {
            // the opening character is no name terminator, so the name
            // holds at least that character
            assert(!is_space_char(t[0]) && t[0] != ':' && t[0] != '\0');
        }
    }
}

/// A successful declaration consumes at least one character.
pub proof fn lemma_parse_decl_len(s: Seq<char>)
    ensures
        spec_parse_decl(s) matches DeclStep::Decl(n, v, r) ==> r.len() < s.len(),
{
    lemma_next_token_len(s);
    match spec_next_token(s) {
        LexStep::Tok(t1, r1) => {
            lemma_next_token_len(r1);
            match spec_next_token(r1) {
                LexStep::Tok(t2, r2) => lemma_next_token_len(r2),
                _ => (),
            }
        },
        _ => (),
    }
}

/// `t` is what remains of `s` after some prefix: `s == p + t`.
pub open spec fn is_suffix_of(t: Seq<char>, s: Seq<char>) -> bool {
    t.len() <= s.len() && s == s.take(s.len() - t.len()) + t
}

/// A suffix of the input past its first character is a suffix of the
/// input.
proof fn lemma_suffix_drop_first(s: Seq<char>, t: Seq<char>)
    requires
        s.len() > 0,
        is_suffix_of(t, s.drop_first()),
    ensures
        is_suffix_of(t, s),
{
    assert(s.drop_first() == s.drop_first().take(s.drop_first().len() - t.len()) + t);
    assert forall|i: int| 0 <= i < s.len() implies s[i] == (s.take(s.len() - t.len()) + t)[i] by {
        if i >= 1 {
            assert(s[i] == s.drop_first()[i - 1]);
            assert(s.drop_first()[i - 1] == (s.drop_first().take(s.drop_first().len() - t.len())
                + t)[i - 1]);
        }
    }
    assert(s =~= s.take(s.len() - t.len()) + t);
}

/// Skipping trivia leaves a suffix of the input.
pub proof fn lemma_trivia_suffix(s: Seq<char>, b: bool)
    ensures
        is_suffix_of(spec_trivia(s, b), s),
    decreases s.len(),
{
    lemma_trivia_len(s, b);
    if s.len() == 0 {
        assert(s =~= s.take(0) + s);
    } else if b {
        lemma_trivia_suffix(s.drop_first(), true);
        lemma_trivia_suffix(s.drop_first(), false);
        lemma_suffix_drop_first(s, spec_trivia(s, b));
    } else if is_space_char(s[0]) || s[0] == '#' {
        lemma_trivia_suffix(s.drop_first(), true);
        lemma_trivia_suffix(s.drop_first(), false);
        lemma_suffix_drop_first(s, spec_trivia(s, b));
    } else {
        assert(s =~= s.take(0) + s);
    }
}

/// A name scan leaves a suffix of the input.
pub proof fn lemma_scan_name_suffix(s: Seq<char>)
    ensures
        is_suffix_of(spec_scan_name(s).1, s),
    decreases s.len(),
{
    lemma_scan_name_len(s);
    if s.len() > 0 && !is_space_char(s[0]) && s[0] != ':' && s[0] != '\0' {
        lemma_scan_name_suffix(s.drop_first());
        lemma_suffix_drop_first(s, spec_scan_name(s).1);
    } else {
        assert(s =~= s.take(0) + s);
    }
}

/// A string scan leaves a suffix of the input.
pub proof fn lemma_scan_string_suffix(s: Seq<char>)
    ensures
        is_suffix_of(spec_scan_string(s).1, s),
    decreases s.len(),
{
    lemma_scan_string_len(s);
    if s.len() > 0 && s[0] != '\0' && s[0] != '"' {
        lemma_scan_string_suffix(s.drop_first());
        lemma_suffix_drop_first(s, spec_scan_string(s).1);
    } else {
        assert(s =~= s.take(0) + s);
    }
}

/// A digit scan leaves a suffix of the input.
pub proof fn lemma_scan_digits_suffix(s: Seq<char>)
    ensures
        is_suffix_of(spec_scan_digits(s).1, s),
    decreases s.len(),
{
    lemma_scan_digits_len(s);
    if s.len() > 0 && (is_numeric_char(s[0]) || s[0] == '.') {
        lemma_scan_digits_suffix(s.drop_first());
        lemma_suffix_drop_first(s, spec_scan_digits(s).1);
    } else {
        assert(s =~= s.take(0) + s);
    }
}

/// A suffix of a suffix of the input is a suffix of the input.
pub proof fn lemma_suffix_trans(a: Seq<char>, b: Seq<char>, c: Seq<char>)
    requires
        is_suffix_of(a, b),
        is_suffix_of(b, c),
    ensures
        is_suffix_of(a, c),
{
    assert(c =~= c.take(c.len() - a.len()) + a) by {
        assert(c == c.take(c.len() - b.len()) + b);
        assert(b == b.take(b.len() - a.len()) + a);
    }
}

/// The input left after a token is a suffix of the input the token was
/// read from.
pub proof fn lemma_next_token_suffix(s: Seq<char>)
    ensures
        spec_next_token(s) matches LexStep::Tok(t, r) ==> is_suffix_of(r, s),
{
    let u = spec_trivia(s, false);
    lemma_trivia_suffix(s, false);
    lemma_trivia_len(s, false);
    if u.len() > 0 {
        let c = u[0];
        if is_alpha_char(c) || c == '_' {
            lemma_scan_name_suffix(u);
            lemma_suffix_trans(spec_scan_name(u).1, u, s);
        } else if is_numeric_char(c) || c == '.' || c == '-' || c == '+' {
            if c == '-' || c == '+' {
                lemma_scan_digits_suffix(u.drop_first());
                lemma_scan_digits_len(u.drop_first());
                lemma_suffix_drop_first(u, spec_scan_digits(u.drop_first()).1);
            } else {
                lemma_scan_digits_suffix(u);
            }
            lemma_suffix_trans(spec_scan_number(u).1, u, s);
        } else if c == ':' {
            let w = u.drop_first();
            if w.len() > 0 && w[0] == '=' {
                assert(is_suffix_of(w.drop_first(), w)) by {
                    assert(w =~= w.take(1) + w.drop_first());
                }
                lemma_suffix_drop_first(u, w.drop_first());
                lemma_suffix_trans(w.drop_first(), u, s);
            }
        } else if c == '"' {
            let w = u.drop_first();
            let rr = spec_scan_string(w).1;
            if rr.len() > 0 && rr[0] == '"' {
                lemma_scan_string_suffix(w);
                lemma_scan_string_len(w);
                assert(is_suffix_of(rr.drop_first(), rr)) by {
                    assert(rr =~= rr.take(1) + rr.drop_first());
                }
                lemma_suffix_trans(rr.drop_first(), rr, w);
                lemma_suffix_drop_first(u, rr.drop_first());
                lemma_suffix_trans(rr.drop_first(), u, s);
            }
        }
    }
}

/// Skipping trivia looks at nothing past its stopping point: replacing
/// everything from there on, as long as the first character stays the
/// same, leaves exactly the replacement.
proof fn lemma_trivia_replace(s: Seq<char>, b: bool, u2: Seq<char>)
    requires
        spec_trivia(s, b).len() > 0,
        u2.len() > 0,
        u2[0] == spec_trivia(s, b)[0],
    ensures
        spec_trivia(s.take(s.len() - spec_trivia(s, b).len()) + u2, b) == u2,
    decreases s.len(),
{
    let u = spec_trivia(s, b);
    lemma_trivia_len(s, b);
    let s2 = s.take(s.len() - u.len()) + u2;
    if b || is_space_char(s[0]) || s[0] == '#' {
        // one character of trivia is consumed; the prefix keeps it
        let bd = if b {
            !(s[0] == '\n' || s[0] == '\0')
        } else {
            s[0] == '#'
        };
        lemma_trivia_len(s.drop_first(), bd);
        assert(s.len() - u.len() >= 1);
        assert(s2.len() > 0 && s2[0] == s[0]);
        lemma_trivia_replace(s.drop_first(), bd, u2);
        assert(s2.drop_first() =~= s.drop_first().take(s.drop_first().len() - u.len()) + u2);
    } else {
        assert(s2 =~= u2);
        assert(!is_space_char(u2[0]) && u2[0] != '#');
    }
}

/// A name scan looks at nothing past its stopping point: replacing
/// everything from there on with input that opens with a terminator (or
/// with nothing) leaves the same name and exactly the replacement.
proof fn lemma_scan_name_replace(u: Seq<char>, r2: Seq<char>)
    requires
        r2.len() == 0 || is_space_char(r2[0]) || r2[0] == ':' || r2[0] == '\0',
    ensures
        spec_scan_name(u.take(u.len() - spec_scan_name(u).1.len()) + r2) == (
            spec_scan_name(u).0,
            r2,
        ),
    decreases u.len(),
{
    lemma_scan_name_len(u);
    let n = spec_scan_name(u).0;
    let r = spec_scan_name(u).1;
    let u2 = u.take(u.len() - r.len()) + r2;
    if u.len() > 0 && !is_space_char(u[0]) && u[0] != ':' && u[0] != '\0' {
        lemma_scan_name_len(u.drop_first());
        assert(u.len() - r.len() >= 1);
        assert(u2.len() > 0 && u2[0] == u[0]);
        lemma_scan_name_replace(u.drop_first(), r2);
        assert(u2.drop_first() =~= u.drop_first().take(u.drop_first().len() - r.len()) + r2);
        assert(spec_scan_name(u2) == (seq![u[0]] + spec_scan_name(u.drop_first()).0, r2));
    } else {
        assert(u2 =~= r2);
        assert(spec_scan_name(r2) == (Seq::<char>::empty(), r2));
    }
}

/// A string scan looks at nothing past its stopping point.
proof fn lemma_scan_string_replace(u: Seq<char>, r2: Seq<char>)
    requires
        r2.len() == 0 || r2[0] == '\0' || r2[0] == '"',
    ensures
        spec_scan_string(u.take(u.len() - spec_scan_string(u).1.len()) + r2) == (
            spec_scan_string(u).0,
            r2,
        ),
    decreases u.len(),
{
    lemma_scan_string_len(u);
    let r = spec_scan_string(u).1;
    let u2 = u.take(u.len() - r.len()) + r2;
    if u.len() > 0 && u[0] != '\0' && u[0] != '"' {
        lemma_scan_string_len(u.drop_first());
        assert(u.len() - r.len() >= 1);
        assert(u2.len() > 0 && u2[0] == u[0]);
        lemma_scan_string_replace(u.drop_first(), r2);
        assert(u2.drop_first() =~= u.drop_first().take(u.drop_first().len() - r.len()) + r2);
        assert(spec_scan_string(u2) == (seq![u[0]] + spec_scan_string(u.drop_first()).0, r2));
    } else {
        assert(u2 =~= r2);
        assert(spec_scan_string(r2) == (Seq::<char>::empty(), r2));
    }
}

/// A digit scan looks at nothing past its stopping point.
proof fn lemma_scan_digits_replace(u: Seq<char>, r2: Seq<char>)
    requires
        r2.len() == 0 || !(is_numeric_char(r2[0]) || r2[0] == '.'),
    ensures
        spec_scan_digits(u.take(u.len() - spec_scan_digits(u).1.len()) + r2) == (
            spec_scan_digits(u).0,
            r2,
        ),
    decreases u.len(),
{
    lemma_scan_digits_len(u);
    let r = spec_scan_digits(u).1;
    let u2 = u.take(u.len() - r.len()) + r2;
    if u.len() > 0 && (is_numeric_char(u[0]) || u[0] == '.') {
        lemma_scan_digits_len(u.drop_first());
        assert(u.len() - r.len() >= 1);
        assert(u2.len() > 0 && u2[0] == u[0]);
        lemma_scan_digits_replace(u.drop_first(), r2);
        assert(u2.drop_first() =~= u.drop_first().take(u.drop_first().len() - r.len()) + r2);
        assert(spec_scan_digits(u2) == (seq![u[0]] + spec_scan_digits(u.drop_first()).0, r2));
    } else {
        assert(u2 =~= r2);
        assert(spec_scan_digits(r2) == (Seq::<char>::empty(), r2));
    }
}

/// Replacing a suffix `t` of the input may just as well be read as
/// replacing the larger suffix `r` around it by the partly replaced `r`.
pub proof fn lemma_take_nest(s: Seq<char>, r: Seq<char>, t: Seq<char>, ins: Seq<char>)
    requires
        is_suffix_of(r, s),
        is_suffix_of(t, r),
    ensures
        s.take(s.len() - t.len()) + ins =~= s.take(s.len() - r.len()) + (r.take(r.len() - t.len())
            + ins),
{
    assert forall|i: int| 0 <= i < s.len() - t.len() + ins.len() implies #[trigger] (s.take(s.len()
        - t.len()) + ins)[i] == (s.take(s.len() - r.len()) + (r.take(r.len() - t.len()) + ins))[i]
        by {
        if i < s.len() - r.len() {
            assert(s.take(s.len() - t.len())[i] == s[i]);
            assert(s[i] == s.take(s.len() - r.len())[i]);
        } else if i < s.len() - t.len() {
            assert(s.take(s.len() - t.len())[i] == s[i]);
            assert(s[i] == r[i - (s.len() - r.len())]);
            assert(r[i - (s.len() - r.len())] == r.take(r.len() - t.len())[i - (s.len()
                - r.len())]);
        } else {
            assert((s.take(s.len() - t.len()) + ins)[i] == ins[i - (s.len() - t.len())]);
        }
    }
}

/// What a name scan leaves behind opens with a name terminator.
proof fn lemma_scan_name_rest_stops(u: Seq<char>)
    ensures
        spec_scan_name(u).1.len() > 0 ==> {
            let h = spec_scan_name(u).1[0];
            is_space_char(h) || h == ':' || h == '\0'
        },
    decreases u.len(),
{
    if u.len() > 0 && !is_space_char(u[0]) && u[0] != ':' && u[0] != '\0' {
        lemma_scan_name_rest_stops(u.drop_first());
    }
}

/// What a digit scan leaves behind opens with neither a digit nor a
/// decimal point.
proof fn lemma_scan_digits_rest_stops(u: Seq<char>)
    ensures
        spec_scan_digits(u).1.len() > 0 ==> !(is_numeric_char(spec_scan_digits(u).1[0])
            || spec_scan_digits(u).1[0] == '.'),
    decreases u.len(),
{
    if u.len() > 0 && (is_numeric_char(u[0]) || u[0] == '.') {
        lemma_scan_digits_rest_stops(u.drop_first());
    }
}

/// What may replace the input left after a token without touching the
/// token itself: input with the same first character, or — where the
/// token is read without looking ahead, or its scan stops at a whole
/// class of characters — input whose head the scan would also stop at.
pub open spec fn rest_swap_ok(t: SpecToken, r: Seq<char>, r2: Seq<char>) -> bool {
    ||| (r.len() > 0 && r2.len() > 0 && r2[0] == r[0])
    ||| (r.len() == 0 && r2 == r)
    ||| match t {
        SpecToken::Name(_) => r2.len() > 0 && (is_space_char(r2[0]) || r2[0] == ':' || r2[0]
            == '\0'),
        SpecToken::IntLit(_) => r2.len() > 0 && !(is_numeric_char(r2[0]) || r2[0] == '.'),
        SpecToken::FloatLit(_) => r2.len() > 0 && !(is_numeric_char(r2[0]) || r2[0] == '.'),
        SpecToken::Assign => r2.len() > 0,
        SpecToken::StrLit(_) => r2.len() > 0,
        SpecToken::End => false,
    }
}

/// Reading one token looks at nothing past the input it leaves behind,
/// except for the single character that stops a greedy scan: replacing
/// that leftover with anything the scan would also have stopped at
/// leaves the same token and exactly the replacement behind.
pub proof fn lemma_next_token_replace(s: Seq<char>, t: SpecToken, r: Seq<char>, r2: Seq<char>)
    requires
        spec_next_token(s) == LexStep::Tok(t, r),
        !(t is End),
        rest_swap_ok(t, r, r2),
    ensures
        is_suffix_of(r, s),
        spec_next_token(s.take(s.len() - r.len()) + r2) == LexStep::Tok(t, r2),
{
    let u = spec_trivia(s, false);
    lemma_trivia_suffix(s, false);
    lemma_trivia_len(s, false);
    lemma_next_token_suffix(s);
    assert(u.len() > 0);
    let c = u[0];
    let k = u.len() - r.len();
    let u2 = u.take(k) + r2;
    let s2 = s.take(s.len() - r.len()) + r2;
    // the token consumes at least one character of u, per kind
    if is_alpha_char(c) || c == '_' {
        assert(!is_space_char(c) && c != ':' && c != '\0');
        lemma_scan_name_len(u);
    } else if is_numeric_char(c) || c == '.' || c == '-' || c == '+' {
        if c == '-' || c == '+' {
            lemma_scan_digits_len(u.drop_first());
        } else {
            lemma_scan_digits_len(u);
        }
    } else if c == '"' {
        lemma_scan_string_len(u.drop_first());
        lemma_scan_string_suffix(u.drop_first());
    }
    assert(k >= 1);
    assert(is_suffix_of(r, u)) by {
        assert(u == spec_trivia(s, false));
        assert(s == s.take(s.len() - u.len()) + u);
        assert(s == s.take(s.len() - r.len()) + r);
        assert forall|i: int| 0 <= i < u.len() implies u[i] == (u.take(k) + r)[i] by {
            assert(u[i] == s[s.len() - u.len() + i]);
            if i >= k {
                assert(s[s.len() - u.len() + i] == r[i - k]);
            } else {
                assert(s[s.len() - u.len() + i] == s.take(s.len() - r.len())[s.len() - u.len()
                    + i]);
            }
        }
        assert(u =~= u.take(k) + r);
    }
    assert(s2 =~= s.take(s.len() - u.len()) + u2) by {
        assert(s == s.take(s.len() - u.len()) + u);
        assert forall|i: int| 0 <= i < s2.len() implies s2[i] == (s.take(s.len() - u.len())
            + u2)[i] by {
            if i < s.len() - u.len() {
                assert(s2[i] == s[i]);
            } else if i < s.len() - r.len() {
                assert(s2[i] == s[i]);
                assert(s[i] == u[i - (s.len() - u.len())]);
                assert(u[i - (s.len() - u.len())] == u.take(k)[i - (s.len() - u.len())]);
            } else {
                assert(s2[i] == r2[i - (s.len() - r.len())]);
            }
        }
    }
    assert(u2.len() > 0 && u2[0] == c);
    lemma_trivia_replace(s, false, u2);
    assert(spec_trivia(s2, false) == u2);
    if is_alpha_char(c) || c == '_' {
        // the rest opens with a name terminator whenever it is nonempty
        lemma_scan_name_rest_stops(u);
        lemma_scan_name_replace(u, r2);
        assert(spec_scan_name(u2) == (spec_scan_name(u).0, r2));
    } else if is_numeric_char(c) || c == '.' || c == '-' || c == '+' {
        assert(r2.len() == 0 || !(is_numeric_char(r2[0]) || r2[0] == '.')) by {
            if c == '-' || c == '+' {
                lemma_scan_digits_rest_stops(u.drop_first());
            } else {
                lemma_scan_digits_rest_stops(u);
            }
        }
        if c == '-' || c == '+' {
            let rd = spec_scan_digits(u.drop_first()).1;
            assert(rd == r);
            lemma_scan_digits_replace(u.drop_first(), r2);
            assert(u2.drop_first() =~= u.drop_first().take(u.drop_first().len() - r.len()) + r2);
            assert(spec_scan_number(u2) == (spec_scan_number(u).0, r2));
        } else {
            lemma_scan_digits_replace(u, r2);
            assert(spec_scan_number(u2) == (spec_scan_number(u).0, r2));
        }
    } else if c == ':' {
        let w = u.drop_first();
        assert(w.len() > 0 && w[0] == '=');
        assert(r == w.drop_first());
        assert(k == 2);
        assert(u2.drop_first() =~= seq!['='] + r2) by {
            assert(u.take(2)[1] == u[1]);
            assert(u[1] == w[0]);
        }
        assert((seq!['='] + r2).drop_first() =~= r2);
    } else if c == '"' {
        let w = u.drop_first();
        let body = spec_scan_string(w).0;
        let rr = spec_scan_string(w).1;
        assert(rr.len() > 0 && rr[0] == '"');
        assert(r == rr.drop_first());
        let q2 = seq!['"'] + r2;
        lemma_scan_string_replace(w, q2);
        assert(u2.drop_first() =~= w.take(w.len() - rr.len()) + q2) by {
            assert(is_suffix_of(rr, w)) by {
                lemma_scan_string_suffix(w);
            }
            assert forall|i: int| 0 <= i < u2.drop_first().len() implies u2.drop_first()[i] == (
            w.take(w.len() - rr.len()) + q2)[i] by {
                if i < w.len() - rr.len() {
                    assert(u2.drop_first()[i] == u.take(k)[i + 1]);
                    assert(u.take(k)[i + 1] == u[i + 1]);
                    assert(u[i + 1] == w[i]);
                    assert(w[i] == w.take(w.len() - rr.len())[i]);
                } else if i == w.len() - rr.len() {
                    assert(u2.drop_first()[i] == u.take(k)[i + 1]);
                    assert(u.take(k)[i + 1] == u[i + 1]);
                    assert(u[i + 1] == w[i]);
                    assert(w[i] == rr[0]);
                } else {
                    assert(u2.drop_first()[i] == r2[i - 1 - (w.len() - rr.len())]);
                }
            }
        }
        assert(spec_scan_string(u2.drop_first()) == (body, q2));
        assert(q2.drop_first() =~= r2);
    }
}

/// The mapping built by reading declarations from `s` into `acc`, each
/// one inserted over any earlier value for its name; or the first error.
pub open spec fn spec_parse_from(s: Seq<char>, acc: Map<Seq<char>, SpecValue>) -> Result<
    Map<Seq<char>, SpecValue>,
    ParseError,
>
    decreases s.len(),
    via spec_parse_from_decreases
{
    match spec_parse_decl(s) {
        DeclStep::End => Ok(acc),
        DeclStep::Fail(e) => Err(e),
        DeclStep::Decl(n, v, r) => spec_parse_from(r, acc.insert(n, v)),
    }
}

#[via_fn]
proof fn spec_parse_from_decreases(s: Seq<char>, acc: Map<Seq<char>, SpecValue>) {
    lemma_parse_decl_len(s);
}

/// What parsing a whole source text yields: its mapping from declared
/// names to values, or the first error.
pub open spec fn spec_parse(s: Seq<char>) -> Result<Map<Seq<char>, SpecValue>, ParseError> {
    spec_parse_from(s, Map::empty())
}

} // verus!
