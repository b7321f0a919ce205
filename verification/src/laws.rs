//! The laws the language obeys, stated over the model and proved once
//! and for all: what a parse yields on a well-formed source, that
//! whitespace and comments between tokens change nothing, that parsing
//! is a function of the source text, and what an empty source yields.

use vstd::prelude::*;

use crate::charclass::is_alpha_char;
use crate::charclass::is_numeric_char;
use crate::charclass::is_space_char;
use crate::model::float_lit_ok;
use crate::model::is_suffix_of;
use crate::model::lemma_next_token_len;
use crate::model::lemma_next_token_replace;
use crate::model::lemma_next_token_suffix;
use crate::model::lemma_parse_decl_len;
use crate::model::lemma_suffix_trans;
use crate::model::lemma_take_nest;
use crate::model::spec_next_token;
use crate::model::spec_parse;
use crate::model::spec_parse_decl;
use crate::model::spec_parse_from;
use crate::model::spec_trivia;
use crate::model::DeclStep;
use crate::model::LexStep;
use crate::model::SpecToken;
use crate::model::SpecValue;
use crate::token::ParseError;

verus! {

/// The declarations of a source, in source order, or the first error.
pub open spec fn spec_decls(s: Seq<char>) -> Result<Seq<(Seq<char>, SpecValue)>, ParseError>
    decreases s.len(),
    via spec_decls_decreases
{
    match spec_parse_decl(s) {
        DeclStep::End => Ok(Seq::empty()),
        DeclStep::Fail(e) => Err(e),
        DeclStep::Decl(n, v, r) => match spec_decls(r) {
            Ok(ds) => Ok(seq![(n, v)] + ds),
            Err(e) => Err(e),
        },
    }
}

#[via_fn]
proof fn spec_decls_decreases(s: Seq<char>) {
    lemma_parse_decl_len(s);
}

/// The value of the last declaration for `n` among `ds`, if any.
pub open spec fn last_value_for(ds: Seq<(Seq<char>, SpecValue)>, n: Seq<char>) -> Option<SpecValue>
    decreases ds.len(),
{
    if ds.len() == 0 {
        None
    } else if ds.last().0 == n {
        Some(ds.last().1)
    } else {
        last_value_for(ds.drop_last(), n)
    }
}

/// The last declaration for a name among `seq![d] + ds` is the last one
/// among `ds`, or `d` itself when `ds` has none.
proof fn lemma_last_value_cons(
    d: (Seq<char>, SpecValue),
    ds: Seq<(Seq<char>, SpecValue)>,
    n: Seq<char>,
)
    ensures
        last_value_for(seq![d] + ds, n) == (match last_value_for(ds, n) {
            Some(v) => Some(v),
            None => if d.0 == n {
                Some(d.1)
            } else {
                None
            },
        }),
    decreases ds.len(),
{
    let full = seq![d] + ds;
    if ds.len() == 0 {
        assert(full.last() == d);
        assert(full.drop_last() =~= Seq::<(Seq<char>, SpecValue)>::empty());
        assert(last_value_for(ds, n) is None);
        if d.0 == n {
            assert(last_value_for(full, n) == Some(d.1));
        } else {
            assert(last_value_for(full, n) == last_value_for(full.drop_last(), n));
            assert(last_value_for(full, n) is None);
        }
    } else {
        assert(full.last() == ds.last());
        assert(full.drop_last() =~= seq![d] + ds.drop_last());
        lemma_last_value_cons(d, ds.drop_last(), n);
        if ds.last().0 == n {
            assert(last_value_for(full, n) == Some(ds.last().1));
            assert(last_value_for(ds, n) == Some(ds.last().1));
        } else {
            assert(last_value_for(full, n) == last_value_for(seq![d] + ds.drop_last(), n));
            assert(last_value_for(ds, n) == last_value_for(ds.drop_last(), n));
        }
    }
}

/// On a source whose declarations are all well formed, reading them into
/// `acc` succeeds; each declared name maps to its last value, and a name
/// not declared keeps whatever `acc` had for it.
proof fn lemma_parse_from_last_wins(s: Seq<char>, acc: Map<Seq<char>, SpecValue>)
    requires
        spec_decls(s) is Ok,
    ensures
        spec_parse_from(s, acc) is Ok,
        forall|n: Seq<char>|
            spec_parse_from(s, acc)->Ok_0.contains_key(n) <==> (#[trigger] last_value_for(
                spec_decls(s)->Ok_0,
                n,
            ) is Some || acc.contains_key(n)),
        forall|n: Seq<char>|
            match #[trigger] last_value_for(spec_decls(s)->Ok_0, n) {
                Some(v) => spec_parse_from(s, acc)->Ok_0[n] == v,
                None => acc.contains_key(n) ==> spec_parse_from(s, acc)->Ok_0[n] == acc[n],
            },
    decreases s.len(),
{
    lemma_parse_decl_len(s);
    match spec_parse_decl(s) {
        DeclStep::End => {},
        DeclStep::Fail(e) => {},
        DeclStep::Decl(n0, v0, r) => {
            let ds = spec_decls(r)->Ok_0;
            lemma_parse_from_last_wins(r, acc.insert(n0, v0));
            assert(spec_decls(s)->Ok_0 == seq![(n0, v0)] + ds);
            assert forall|n: Seq<char>| true implies #[trigger] last_value_for(
                spec_decls(s)->Ok_0,
                n,
            ) == (match last_value_for(ds, n) {
                Some(v) => Some(v),
                None => if n0 == n {
                    Some(v0)
                } else {
                    None
                },
            }) by {
                lemma_last_value_cons((n0, v0), ds, n);
            }
        },
    }
}

/// On a source that is a sequence of well-formed declarations, the parse
/// succeeds, its mapping holds exactly the declared names, and each name
/// is bound to the value of its last declaration in source order.
pub proof fn lemma_parse_last_wins(s: Seq<char>)
    requires
        spec_decls(s) is Ok,
    ensures
        spec_parse(s) is Ok,
        forall|n: Seq<char>|
            spec_parse(s)->Ok_0.contains_key(n) <==> #[trigger] last_value_for(
                spec_decls(s)->Ok_0,
                n,
            ) is Some,
        forall|n: Seq<char>|
            (#[trigger] last_value_for(spec_decls(s)->Ok_0, n)) matches Some(v) ==> spec_parse(
                s,
            )->Ok_0[n] == v,
{
    lemma_parse_from_last_wins(s, Map::empty());
}

/// Reading declarations into any accumulator succeeds when they are all
/// well formed, and otherwise fails with the first declaration's error.
proof fn lemma_parse_from_first_error(s: Seq<char>, acc: Map<Seq<char>, SpecValue>)
    ensures
        match spec_decls(s) {
            Ok(ds) => spec_parse_from(s, acc) is Ok,
            Err(e) => spec_parse_from(s, acc) == Err::<Map<Seq<char>, SpecValue>, ParseError>(e),
        },
    decreases s.len(),
{
    lemma_parse_decl_len(s);
    match spec_parse_decl(s) {
        DeclStep::Decl(n, v, r) => {
            lemma_parse_from_first_error(r, acc.insert(n, v));
        },
        _ => {},
    }
}

/// The parse succeeds exactly on the sources whose declarations are all
/// well formed, and otherwise yields the first error among them.
pub proof fn lemma_parse_ok_iff_decls_ok(s: Seq<char>)
    ensures
        spec_parse(s) is Ok <==> spec_decls(s) is Ok,
        spec_decls(s) matches Err(e) ==> spec_parse(s) == Err::<
            Map<Seq<char>, SpecValue>,
            ParseError,
        >(e),
{
    lemma_parse_from_first_error(s, Map::empty());
}

/// The lexer yields a floating-point token only for a well-formed
/// literal text.
proof fn lemma_float_token_well_formed(s: Seq<char>)
    ensures
        spec_next_token(s) matches LexStep::Tok(t, r) ==> (t matches SpecToken::FloatLit(x)
            ==> float_lit_ok(x)),
{
}

/// Reading declarations into an accumulator whose floating-point values
/// are all well formed keeps every floating-point value well formed.
proof fn lemma_parse_from_floats_well_formed(s: Seq<char>, acc: Map<Seq<char>, SpecValue>)
    requires
        forall|n: Seq<char>| #[trigger]
            acc.contains_key(n) ==> (acc[n] matches SpecValue::Float(t) ==> float_lit_ok(t)),
    ensures
        spec_parse_from(s, acc) matches Ok(m) ==> forall|n: Seq<char>| #[trigger]
            m.contains_key(n) ==> (m[n] matches SpecValue::Float(t) ==> float_lit_ok(t)),
    decreases s.len(),
{
    lemma_parse_decl_len(s);
    match spec_parse_decl(s) {
        DeclStep::Decl(n0, v0, r) => {
            match spec_next_token(s) {
                LexStep::Tok(t1, r1) => {
                    match spec_next_token(r1) {
                        LexStep::Tok(t2, r2) => {
                            lemma_float_token_well_formed(r2);
                        },
                        _ => {},
                    }
                },
                _ => {},
            }
            lemma_parse_from_floats_well_formed(r, acc.insert(n0, v0));
        },
        _ => {},
    }
}

/// Every floating-point value a successful parse yields carries a
/// well-formed literal text, so turning it into a number cannot fail.
pub proof fn lemma_parse_floats_well_formed(s: Seq<char>)
    ensures
        spec_parse(s) matches Ok(m) ==> forall|n: Seq<char>| #[trigger]
            m.contains_key(n) ==> (m[n] matches SpecValue::Float(t) ==> float_lit_ok(t)),
{
    lemma_parse_from_floats_well_formed(s, Map::empty());
}

/// A whitespace character in front of the input — at any token boundary,
/// since every token is read from such a front — changes neither the
/// next token nor the parse of the whole.
pub proof fn lemma_whitespace_transparent(c: char, s: Seq<char>)
    requires
        is_space_char(c),
    ensures
        spec_next_token(seq![c] + s) == spec_next_token(s),
        spec_parse(seq![c] + s) == spec_parse(s),
{
    let cs = seq![c] + s;
    assert(cs.drop_first() =~= s);
    assert(spec_next_token(cs) == spec_next_token(s));
    assert(spec_parse_decl(cs) == spec_parse_decl(s));
}

/// Discarding a comment consumes through its newline and nothing more.
proof fn lemma_trivia_comment(body: Seq<char>, s: Seq<char>)
    requires
        forall|i: int| 0 <= i < body.len() ==> body[i] != '\n' && body[i] != '\0',
    ensures
        spec_trivia(body + seq!['\n'] + s, true) == spec_trivia(s, false),
    decreases body.len(),
{
    let t = body + seq!['\n'] + s;
    if body.len() == 0 {
        assert(t =~= seq!['\n'] + s);
        assert(t.drop_first() =~= s);
    } else {
        assert(t[0] == body[0]);
        assert(t.drop_first() =~= body.drop_first() + seq!['\n'] + s);
        assert(forall|i: int|
            0 <= i < body.drop_first().len() ==> body.drop_first()[i] == body[i + 1]);
        lemma_trivia_comment(body.drop_first(), s);
    }
}

/// A comment line in front of the input contributes nothing, whatever
/// it holds: after `#`, any characters without a newline, and the
/// newline itself, the input lexes and parses as the rest alone.
pub proof fn lemma_comment_transparent(body: Seq<char>, s: Seq<char>)
    requires
        forall|i: int| 0 <= i < body.len() ==> body[i] != '\n' && body[i] != '\0',
    ensures
        spec_next_token(seq!['#'] + body + seq!['\n'] + s) == spec_next_token(s),
        spec_parse(seq!['#'] + body + seq!['\n'] + s) == spec_parse(s),
{
    let full = seq!['#'] + body + seq!['\n'] + s;
    assert(full[0] == '#');
    assert(full.drop_first() =~= body + seq!['\n'] + s);
    lemma_trivia_comment(body, s);
    assert(spec_trivia(full, false) == spec_trivia(s, false));
    assert(spec_next_token(full) == spec_next_token(s));
    assert(spec_parse_decl(full) == spec_parse_decl(s));
}

/// A name token is never empty: the scanner opens a name only on an
/// alphabetic character or `'_'`, and no such character terminates a
/// name, so it becomes the name's first character.
pub proof fn lemma_name_token_nonempty(s: Seq<char>)
    ensures
        spec_next_token(s) matches LexStep::Tok(t, r) ==> (t matches SpecToken::Name(n) ==> n.len()
            >= 1 && n[0] == spec_trivia(s, false)[0]),
{
    let u = spec_trivia(s, false);
    if u.len() > 0 && (is_alpha_char(u[0]) || u[0] == '_') {
        assert(!is_space_char(u[0]) && u[0] != ':' && u[0] != '\0');
    }
}

/// The inputs remaining at the points where the parse of `s` reads a
/// token: the whole source, the leftovers after a declaration's name and
/// after its assignment marker, and every such point of what is left
/// after a complete declaration.
pub open spec fn token_boundary(s: Seq<char>, t: Seq<char>) -> bool
    decreases s.len(),
    via token_boundary_decreases
{
    ||| t == s
    ||| match spec_next_token(s) {
        LexStep::Tok(t1, r1) => match t1 {
            SpecToken::Name(n) => {
                ||| t == r1
                ||| match spec_next_token(r1) {
                    LexStep::Tok(t2, r2) => t2 is Assign && ({
                        ||| t == r2
                        ||| match spec_next_token(r2) {
                            LexStep::Tok(t3, r3) => (t3 is StrLit || t3 is IntLit
                                || t3 is FloatLit) && token_boundary(r3, t),
                            LexStep::Fail(_) => false,
                        }
                    }),
                    LexStep::Fail(_) => false,
                }
            },
            _ => false,
        },
        LexStep::Fail(_) => false,
    }
}

#[via_fn]
proof fn token_boundary_decreases(s: Seq<char>, t: Seq<char>) {
    lemma_parse_decl_len(s);
}

/// Inserting one whitespace character at a token boundary leaves the
/// declarations read into any accumulator unchanged.
#[verifier::rlimit(80)]
proof fn lemma_ws_insert_from(s: Seq<char>, t: Seq<char>, c: char, acc: Map<Seq<char>, SpecValue>)
    requires
        token_boundary(s, t),
        is_space_char(c),
    ensures
        is_suffix_of(t, s),
        spec_parse_from(s.take(s.len() - t.len()) + (seq![c] + t), acc) == spec_parse_from(s, acc),
    decreases s.len(),
{
    lemma_parse_decl_len(s);
    lemma_next_token_len(s);
    lemma_next_token_suffix(s);
    let ins = seq![c] + t;
    let s2 = s.take(s.len() - t.len()) + ins;
    if t == s {
        assert(s =~= s.take(0) + s);
        assert(s2 =~= seq![c] + s);
        assert((seq![c] + s).drop_first() =~= s);
        assert(spec_next_token(s2) == spec_next_token(s));
        assert(spec_parse_decl(s2) == spec_parse_decl(s));
        assert(spec_parse_from(s2, acc) == spec_parse_from(s, acc));
    } else {
        match spec_next_token(s) {
            LexStep::Tok(t1, r1) => {
                lemma_next_token_len(r1);
                lemma_next_token_suffix(r1);
                if t == r1 {
                    lemma_next_token_replace(s, t1, r1, ins);
                    assert(ins.drop_first() =~= r1);
                    assert(spec_next_token(ins) == spec_next_token(r1));
                    assert(spec_next_token(s2) == LexStep::Tok(t1, ins));
                    assert(spec_parse_decl(s2) == spec_parse_decl(s));
                    assert(spec_parse_from(s2, acc) == spec_parse_from(s, acc));
                } else {
                    match spec_next_token(r1) {
                        LexStep::Tok(t2, r2) => {
                            lemma_next_token_len(r2);
                            lemma_next_token_suffix(r2);
                            if t == r2 {
                                lemma_suffix_trans(r2, r1, s);
                                let r1n = r1.take(r1.len() - r2.len()) + ins;
                                lemma_next_token_replace(r1, t2, r2, ins);
                                assert(r1n.len() > 0 && r1n[0] == r1[0]);
                                lemma_next_token_replace(s, t1, r1, r1n);
                                lemma_take_nest(s, r1, r2, ins);
                                assert(s2 =~= s.take(s.len() - r1.len()) + r1n);
                                assert(spec_next_token(s2) == LexStep::Tok(t1, r1n));
                                assert(spec_next_token(r1n) == LexStep::Tok(t2, ins));
                                assert(ins.drop_first() =~= r2);
                                assert(spec_next_token(ins) == spec_next_token(r2));
                                assert(spec_parse_decl(s2) == spec_parse_decl(s));
                                assert(spec_parse_from(s2, acc) == spec_parse_from(s, acc));
                            } else {
                                match spec_next_token(r2) {
                                    LexStep::Tok(t3, r3) => {
                                        let n1 = t1->Name_0;
                                        let v = match t3 {
                                            SpecToken::StrLit(x) => SpecValue::Str(x),
                                            SpecToken::IntLit(w) => SpecValue::Int(w),
                                            SpecToken::FloatLit(x) => SpecValue::Float(x),
                                            _ => SpecValue::Int(0),
                                        };
                                        assert(spec_parse_decl(s) == DeclStep::Decl(n1, v, r3));
                                        lemma_ws_insert_from(r3, t, c, acc.insert(n1, v));
                                        lemma_suffix_trans(t, r3, r2);
                                        lemma_suffix_trans(t, r2, r1);
                                        lemma_suffix_trans(t, r1, s);
                                        let r3n = r3.take(r3.len() - t.len()) + ins;
                                        if t == r3 {
                                            assert(r3n =~= ins);
                                            lemma_next_token_replace(r2, t3, r3, r3n);
                                        } else {
                                            assert(t.len() < r3.len());
                                            assert(r3n.len() > 0 && r3n[0] == r3[0]);
                                            lemma_next_token_replace(r2, t3, r3, r3n);
                                        }
                                        let r2n = r2.take(r2.len() - t.len()) + ins;
                                        lemma_take_nest(r2, r3, t, ins);
                                        assert(r2n =~= r2.take(r2.len() - r3.len()) + r3n);
                                        assert(r2n.len() > 0 && r2n[0] == r2[0]);
                                        assert(spec_next_token(r2n) == LexStep::Tok(t3, r3n));
                                        let r1n = r1.take(r1.len() - t.len()) + ins;
                                        lemma_next_token_replace(r1, t2, r2, r2n);
                                        lemma_take_nest(r1, r2, t, ins);
                                        assert(r1n =~= r1.take(r1.len() - r2.len()) + r2n);
                                        assert(r1n.len() > 0 && r1n[0] == r1[0]);
                                        assert(spec_next_token(r1n) == LexStep::Tok(t2, r2n));
                                        lemma_next_token_replace(s, t1, r1, r1n);
                                        lemma_take_nest(s, r1, t, ins);
                                        assert(s2 =~= s.take(s.len() - r1.len()) + r1n);
                                        assert(spec_next_token(s2) == LexStep::Tok(t1, r1n));
                                        assert(spec_parse_decl(s2) == DeclStep::Decl(n1, v, r3n));
                                        assert(spec_parse_from(s2, acc) == spec_parse_from(
                                            r3n,
                                            acc.insert(n1, v),
                                        ));
                                        assert(spec_parse_from(s, acc) == spec_parse_from(
                                            r3,
                                            acc.insert(n1, v),
                                        ));
                                    },
                                    _ => {
                                        assert(false);
                                    },
                                }
                            }
                        },
                        _ => {
                            assert(false);
                        },
                    }
                }
            },
            _ => {
                assert(false);
            },
        }
    }
}

/// Inserting one whitespace character at any token boundary of the
/// source — before a declaration, between the tokens of one, or at the
/// very end — changes nothing: the source still parses to the same
/// mapping or to the same error.
pub proof fn lemma_whitespace_insertion(s: Seq<char>, t: Seq<char>, c: char)
    requires
        token_boundary(s, t),
        is_space_char(c),
    ensures
        is_suffix_of(t, s),
        spec_parse(s.take(s.len() - t.len()) + (seq![c] + t)) == spec_parse(s),
{
    lemma_ws_insert_from(s, t, c, Map::empty());
}

/// The token boundaries at which a whole comment line may stand: as for
/// `token_boundary`, but never directly after a declaration's name — a
/// name is terminated only by whitespace, `':'` or the end of the input,
/// so a `#` glued onto a name would be read as part of the name.
pub open spec fn comment_boundary(s: Seq<char>, t: Seq<char>) -> bool
    decreases s.len(),
    via comment_boundary_decreases
{
    ||| t == s
    ||| match spec_next_token(s) {
        LexStep::Tok(t1, r1) => match t1 {
            SpecToken::Name(_) => {
                match spec_next_token(r1) {
                    LexStep::Tok(t2, r2) => t2 is Assign && ({
                        ||| t == r2
                        ||| match spec_next_token(r2) {
                            LexStep::Tok(t3, r3) => (t3 is StrLit || t3 is IntLit
                                || t3 is FloatLit) && comment_boundary(r3, t),
                            LexStep::Fail(_) => false,
                        }
                    }),
                    LexStep::Fail(_) => false,
                }
            },
            _ => false,
        },
        LexStep::Fail(_) => false,
    }
}

#[via_fn]
proof fn comment_boundary_decreases(s: Seq<char>, t: Seq<char>) {
    lemma_parse_decl_len(s);
}

/// Inserting a whole comment line at such a boundary leaves the
/// declarations read into any accumulator unchanged.
#[verifier::rlimit(80)]
proof fn lemma_comment_insert_from(
    s: Seq<char>,
    t: Seq<char>,
    body: Seq<char>,
    acc: Map<Seq<char>, SpecValue>,
)
    requires
        comment_boundary(s, t),
        forall|i: int| 0 <= i < body.len() ==> body[i] != '\n' && body[i] != '\0',
    ensures
        is_suffix_of(t, s),
        spec_parse_from(s.take(s.len() - t.len()) + (seq!['#'] + body + seq!['\n'] + t), acc)
            == spec_parse_from(s, acc),
    decreases s.len(),
{
    lemma_parse_decl_len(s);
    lemma_next_token_len(s);
    lemma_next_token_suffix(s);
    let ins = seq!['#'] + body + seq!['\n'] + t;
    let s2 = s.take(s.len() - t.len()) + ins;
    assert(ins[0] == '#');
    assert(ins.drop_first() =~= body + seq!['\n'] + t);
    lemma_trivia_comment(body, t);
    assert(spec_next_token(ins) == spec_next_token(t));
    if t == s {
        assert(s =~= s.take(0) + s);
        assert(s2 =~= ins);
        assert(spec_parse_decl(s2) == spec_parse_decl(s));
        assert(spec_parse_from(s2, acc) == spec_parse_from(s, acc));
    } else {
        match spec_next_token(s) {
            LexStep::Tok(t1, r1) => {
                lemma_next_token_len(r1);
                lemma_next_token_suffix(r1);
                match spec_next_token(r1) {
                    LexStep::Tok(t2, r2) => {
                        lemma_next_token_len(r2);
                        lemma_next_token_suffix(r2);
                        if t == r2 {
                            lemma_suffix_trans(r2, r1, s);
                            let r1n = r1.take(r1.len() - r2.len()) + ins;
                            lemma_next_token_replace(r1, t2, r2, ins);
                            assert(r1n.len() > 0 && r1n[0] == r1[0]);
                            lemma_next_token_replace(s, t1, r1, r1n);
                            lemma_take_nest(s, r1, r2, ins);
                            assert(s2 =~= s.take(s.len() - r1.len()) + r1n);
                            assert(spec_next_token(s2) == LexStep::Tok(t1, r1n));
                            assert(spec_next_token(r1n) == LexStep::Tok(t2, ins));
                            assert(spec_parse_decl(s2) == spec_parse_decl(s));
                            assert(spec_parse_from(s2, acc) == spec_parse_from(s, acc));
                        } else {
                            match spec_next_token(r2) {
                                LexStep::Tok(t3, r3) => {
                                    let n1 = t1->Name_0;
                                    let v = match t3 {
                                        SpecToken::StrLit(x) => SpecValue::Str(x),
                                        SpecToken::IntLit(w) => SpecValue::Int(w),
                                        SpecToken::FloatLit(x) => SpecValue::Float(x),
                                        _ => SpecValue::Int(0),
                                    };
                                    assert(spec_parse_decl(s) == DeclStep::Decl(n1, v, r3));
                                    lemma_comment_insert_from(r3, t, body, acc.insert(n1, v));
                                    lemma_suffix_trans(t, r3, r2);
                                    lemma_suffix_trans(t, r2, r1);
                                    lemma_suffix_trans(t, r1, s);
                                    let r3n = r3.take(r3.len() - t.len()) + ins;
                                    if t == r3 {
                                        assert(r3n =~= ins);
                                        assert(!is_numeric_char('#') && '#' != '.');
                                        lemma_next_token_replace(r2, t3, r3, r3n);
                                    } else {
                                        assert(t.len() < r3.len());
                                        assert(r3n.len() > 0 && r3n[0] == r3[0]);
                                        lemma_next_token_replace(r2, t3, r3, r3n);
                                    }
                                    let r2n = r2.take(r2.len() - t.len()) + ins;
                                    lemma_take_nest(r2, r3, t, ins);
                                    assert(r2n =~= r2.take(r2.len() - r3.len()) + r3n);
                                    assert(r2n.len() > 0 && r2n[0] == r2[0]);
                                    assert(spec_next_token(r2n) == LexStep::Tok(t3, r3n));
                                    let r1n = r1.take(r1.len() - t.len()) + ins;
                                    lemma_next_token_replace(r1, t2, r2, r2n);
                                    lemma_take_nest(r1, r2, t, ins);
                                    assert(r1n =~= r1.take(r1.len() - r2.len()) + r2n);
                                    assert(r1n.len() > 0 && r1n[0] == r1[0]);
                                    assert(spec_next_token(r1n) == LexStep::Tok(t2, r2n));
                                    lemma_next_token_replace(s, t1, r1, r1n);
                                    lemma_take_nest(s, r1, t, ins);
                                    assert(s2 =~= s.take(s.len() - r1.len()) + r1n);
                                    assert(spec_next_token(s2) == LexStep::Tok(t1, r1n));
                                    assert(spec_parse_decl(s2) == DeclStep::Decl(n1, v, r3n));
                                    assert(spec_parse_from(s2, acc) == spec_parse_from(
                                        r3n,
                                        acc.insert(n1, v),
                                    ));
                                    assert(spec_parse_from(s, acc) == spec_parse_from(
                                        r3,
                                        acc.insert(n1, v),
                                    ));
                                },
                                _ => {
                                    assert(false);
                                },
                            }
                        }
                    },
                    _ => {
                        assert(false);
                    },
                }
            },
            _ => {
                assert(false);
            },
        }
    }
}

/// Inserting a whole comment line at a token boundary of the source —
/// except directly after a name, which only whitespace, `':'` or the end
/// of the input can terminate — changes nothing, whatever the comment
/// holds: the source still parses to the same mapping or error.
pub proof fn lemma_comment_insertion(s: Seq<char>, t: Seq<char>, body: Seq<char>)
    requires
        comment_boundary(s, t),
        forall|i: int| 0 <= i < body.len() ==> body[i] != '\n' && body[i] != '\0',
    ensures
        is_suffix_of(t, s),
        spec_parse(s.take(s.len() - t.len()) + (seq!['#'] + body + seq!['\n'] + t)) == spec_parse(
            s,
        ),
{
    lemma_comment_insert_from(s, t, body, Map::empty());
}

/// Parsing is a function of the source text alone: equal sources yield
/// equal outcomes, mappings and errors alike, however often they are
/// parsed.
pub proof fn lemma_parse_deterministic(s1: Seq<char>, s2: Seq<char>)
    requires
        s1 == s2,
    ensures
        spec_parse(s1) == spec_parse(s2),
{
}

/// A source with no characters, or none but whitespace, parses to the
/// empty mapping.
pub proof fn lemma_blank_source(s: Seq<char>)
    requires
        forall|i: int| 0 <= i < s.len() ==> is_space_char(s[i]),
    ensures
        spec_parse(s) == Ok::<Map<Seq<char>, SpecValue>, ParseError>(Map::empty()),
    decreases s.len(),
{
    if s.len() == 0 {
        assert(spec_trivia(s, false) =~= s);
    } else {
        lemma_whitespace_transparent(s[0], s.drop_first());
        assert(seq![s[0]] + s.drop_first() =~= s);
        assert(forall|i: int| 0 <= i < s.drop_first().len() ==> is_space_char(s.drop_first()[i]));
        lemma_blank_source(s.drop_first());
    }
}

/// Discarding a comment that runs to the end of the input consumes
/// everything.
proof fn lemma_trivia_comment_to_end(body: Seq<char>)
    requires
        forall|i: int| 0 <= i < body.len() ==> body[i] != '\n' && body[i] != '\0',
    ensures
        spec_trivia(body, true) == Seq::<char>::empty(),
    decreases body.len(),
{
    if body.len() > 0 {
        assert(forall|i: int|
            0 <= i < body.drop_first().len() ==> body.drop_first()[i] == body[i + 1]);
        lemma_trivia_comment_to_end(body.drop_first());
    } else {
        assert(body =~= Seq::<char>::empty());
    }
}

/// A source that is one comment and nothing else parses to the empty
/// mapping, whatever the comment holds.
pub proof fn lemma_comment_only_source(body: Seq<char>)
    requires
        forall|i: int| 0 <= i < body.len() ==> body[i] != '\n' && body[i] != '\0',
    ensures
        spec_parse(seq!['#'] + body) == Ok::<Map<Seq<char>, SpecValue>, ParseError>(Map::empty()),
{
    let full = seq!['#'] + body;
    assert(full[0] == '#');
    assert(full.drop_first() =~= body);
    lemma_trivia_comment_to_end(body);
    assert(spec_trivia(full, false) =~= Seq::<char>::empty());
}

} // verus!
