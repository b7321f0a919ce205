//! The declaration parser: it pulls tokens three at a time — a name,
//! the assignment marker, and a literal — and aggregates the
//! declarations into the output mapping.

use vstd::prelude::*;

use crate::lexer::next_token;
use crate::model::lemma_parse_decl_len;
use crate::model::spec_parse;
use crate::model::spec_parse_decl;
use crate::model::spec_parse_from;
use crate::model::spec_trivia;
use crate::model::DeclStep;
use crate::model::SpecValue;
use crate::stream::Stream;
use crate::token::Declaration;
use crate::token::ParseError;
use crate::token::ParseResult;
use crate::token::Token;
use crate::token::Value;

verus! {

broadcast use vstd::set::group_set_axioms, vstd::map::group_map_axioms;

/// The mapping that a sequence of entries denotes, each entry inserted
/// over any earlier one with the same name.
pub open spec fn map_of_entries(es: Seq<(String, Value)>) -> Map<Seq<char>, SpecValue>
    decreases es.len(),
{
    if es.len() == 0 {
        Map::empty()
    } else {
        map_of_entries(es.drop_last()).insert(es.last().0@, es.last().1@)
    }
}

/// No two entries hold the same name.
pub open spec fn unique_names(es: Seq<(String, Value)>) -> bool {
    forall|i: int, j: int| 0 <= i < j < es.len() ==> es[i].0@ != es[j].0@
}

/// An entry's value is the one its name maps to.
proof fn lemma_map_of_entries_at(es: Seq<(String, Value)>, i: int)
    requires
        0 <= i < es.len(),
        unique_names(es),
    ensures
        map_of_entries(es).contains_key(es[i].0@),
        map_of_entries(es)[es[i].0@] == es[i].1@,
    decreases es.len(),
{
    if i < es.len() - 1 {
        assert(unique_names(es.drop_last())) by {
            assert(forall|p: int| 0 <= p < es.drop_last().len() ==> es.drop_last()[p] == es[p]);
        }
        lemma_map_of_entries_at(es.drop_last(), i);
        assert(es.last().0@ != es[i].0@);
    }
}

/// A name no entry holds is not in the mapping.
proof fn lemma_map_of_entries_absent(es: Seq<(String, Value)>, k: Seq<char>)
    requires
        forall|j: int| 0 <= j < es.len() ==> es[j].0@ != k,
    ensures
        !map_of_entries(es).contains_key(k),
    decreases es.len(),
{
    if es.len() > 0 {
        assert(forall|j: int| 0 <= j < es.drop_last().len() ==> es.drop_last()[j].0@ != k) by {
            assert(forall|j: int| 0 <= j < es.drop_last().len() ==> es.drop_last()[j] == es[j]);
        }
        lemma_map_of_entries_absent(es.drop_last(), k);
    }
}

/// With no name held twice, the mapping has one key per entry.
proof fn lemma_map_of_entries_len(es: Seq<(String, Value)>)
    requires
        unique_names(es),
    ensures
        map_of_entries(es).dom().finite(),
        map_of_entries(es).dom().len() == es.len(),
    decreases es.len(),
{
    if es.len() > 0 {
        assert(unique_names(es.drop_last())) by {
            assert(forall|p: int|
                0 <= p < es.drop_last().len() ==> es.drop_last()[p] == es[p]);
        }
        lemma_map_of_entries_len(es.drop_last());
        assert(forall|j: int| 0 <= j < es.drop_last().len() ==> es.drop_last()[j].0@ != es.last().0@)
            by {
            assert(forall|p: int| 0 <= p < es.drop_last().len() ==> es.drop_last()[p] == es[p]);
        }
        lemma_map_of_entries_absent(es.drop_last(), es.last().0@);
    }
}

/// The output mapping: declared names and their values, each name held
/// once.
pub struct VarMap {
    entries: Vec<(String, Value)>,
}

impl View for VarMap {
    type V = Map<Seq<char>, SpecValue>;

    closed spec fn view(&self) -> Map<Seq<char>, SpecValue> {
        map_of_entries(self.entries@)
    }
}

impl VarMap {
    #[verifier::type_invariant]
    spec fn wf(&self) -> bool {
        unique_names(self.entries@)
    }

    /// The value declared under `name`, if any.
    pub fn get(&self, name: &String) -> (r: Option<&Value>)
        ensures
            match r {
                Some(v) => self@.contains_key(name@) && v@ == self@[name@],
                None => !self@.contains_key(name@),
            },
    {
        proof {
            use_type_invariant(self);
        }
        let mut i: usize = 0;
        while i < self.entries.len()
            invariant
                i <= self.entries@.len(),
                forall|j: int| 0 <= j < i ==> self.entries@[j].0@ != name@,
            decreases self.entries@.len() - i,
        {
            if self.entries[i].0.eq(name) {
                proof {
                    use_type_invariant(self);
                    lemma_map_of_entries_at(self.entries@, i as int);
                }
                return Some(&self.entries[i].1);
            }
            i = i + 1;
        }
        proof {
            lemma_map_of_entries_absent(self.entries@, name@);
        }
        None
    }

    /// How many names are declared.
    pub fn len(&self) -> (n: usize)
        ensures
            n as int == self@.dom().len(),
    {
        proof {
            use_type_invariant(self);
            lemma_map_of_entries_len(self.entries@);
        }
        self.entries.len()
    }
}

/// Stores `value` under `name`, over any earlier value for that name.
fn insert_entry(entries: &mut Vec<(String, Value)>, name: String, value: Value)
    requires
        unique_names(old(entries)@),
    ensures
        unique_names(final (entries)@),
        map_of_entries(final (entries)@) == map_of_entries(old(entries)@).insert(name@, value@),
{
    let ghost es0 = entries@;
    let mut i: usize = 0;
    while i < entries.len()
        invariant
            entries@ == es0,
            es0 == old(entries)@,
            i <= es0.len(),
            unique_names(es0),
            forall|j: int| 0 <= j < i ==> es0[j].0@ != name@,
        decreases es0.len() - i,
    {
        if entries[i].0.eq(&name) {
            entries.set(i, (name, value));
            proof {
                lemma_map_of_entries_update(es0, i as int, entries@[i as int]);
            }
            return ;
        }
        i = i + 1;
    }
    entries.push((name, value));
    proof {
        assert(entries@.drop_last() =~= es0);
        lemma_map_of_entries_absent(es0, entries@.last().0@);
    }
}

/// Replacing the entry that holds a name is inserting over it.
proof fn lemma_map_of_entries_update(es: Seq<(String, Value)>, i: int, e: (String, Value))
    requires
        0 <= i < es.len(),
        unique_names(es),
        es[i].0@ == e.0@,
    ensures
        unique_names(es.update(i, e)),
        map_of_entries(es.update(i, e)) == map_of_entries(es).insert(e.0@, e.1@),
    decreases es.len(),
{
    let es1 = es.update(i, e);
    assert(unique_names(es1)) by {
        assert(forall|p: int| 0 <= p < es.len() ==> es1[p].0@ == es[p].0@);
    }
    if i == es.len() - 1 {
        assert(es1.drop_last() =~= es.drop_last());
        assert(es1.last() == e);
        assert(map_of_entries(es).insert(e.0@, e.1@) =~= map_of_entries(es.drop_last()).insert(
            e.0@,
            e.1@,
        ));
    } else {
        assert(unique_names(es.drop_last())) by {
            assert(forall|p: int| 0 <= p < es.drop_last().len() ==> es.drop_last()[p] == es[p]);
        }
        assert(es1.drop_last() =~= es.drop_last().update(i, e));
        lemma_map_of_entries_update(es.drop_last(), i, e);
        assert(es1.last() == es.last());
        assert(es.last().0@ != e.0@);
        assert(map_of_entries(es.drop_last()).insert(e.0@, e.1@).insert(es.last().0@, es.last().1@)
            =~= map_of_entries(es.drop_last()).insert(es.last().0@, es.last().1@).insert(
            e.0@,
            e.1@,
        ));
    }
}

/// Reads tokens from `next_token` until one declaration is complete:
/// a name, the assignment marker, and a literal, in that order. The
/// end-of-file token in place of the name is the normal end of the
/// input, not an error.
pub fn parse_declaration(stream: &mut Stream) -> (r: ParseResult)
    ensures
        match spec_parse_decl(old(stream)@) {
            DeclStep::Decl(n, v, rest) => {
                &&& r matches ParseResult::Decl(d) && d.name@ == n && d.value@ == v
                &&& final (stream)@ == rest
            },
            DeclStep::End => {
                &&& r is EOF
                &&& final (stream)@ == spec_trivia(old(stream)@, false)
            },
            DeclStep::Fail(e) => r matches ParseResult::Fail(e2) && e2 == e,
        },
{
    let t1 = match next_token(stream) {
        Ok(t) => t,
        Err(e) => {
            return ParseResult::Fail(e);
        },
    };
    let name = match t1 {
        Token::Name(s) => s,
        Token::EOF => {
            return ParseResult::EOF;
        },
        _ => {
            return ParseResult::Fail(ParseError::ExpectedName);
        },
    };
    let t2 = match next_token(stream) {
        Ok(t) => t,
        Err(e) => {
            return ParseResult::Fail(e);
        },
    };
    match t2 {
        Token::Assignment => (),
        _ => {
            return ParseResult::Fail(ParseError::ExpectedEquals);
        },
    }
    let t3 = match next_token(stream) {
        Ok(t) => t,
        Err(e) => {
            return ParseResult::Fail(e);
        },
    };
    let value = match t3 {
        Token::StringLiteral(s) => Value::String(s),
        Token::IntLiteral(n) => Value::Integer(n),
        Token::FloatLiteral(t) => Value::Float(t),
        _ => {
            return ParseResult::Fail(ParseError::ExpectedLiteral);
        },
    };
    ParseResult::Decl(Declaration { name, value })
}

/// Reads as many declarations from a source text as it can and stores
/// them in the output mapping, the last declaration for a name winning;
/// the first error from the lexer or the parser ends the whole parse.
pub fn parse_vars(source: &str) -> (r: Result<VarMap, ParseError>)
    ensures
        match spec_parse(source@) {
            Ok(m) => r matches Ok(vm) && vm@ == m,
            Err(e) => r matches Err(e2) && e2 == e,
        },
{
    let mut stream = Stream::new(source);
    let mut entries: Vec<(String, Value)> = Vec::new();
    loop
        invariant_except_break
            spec_parse(source@) == spec_parse_from(stream@, map_of_entries(entries@)),
        invariant
            unique_names(entries@),
        ensures
            unique_names(entries@),
            spec_parse(source@) == Ok::<_, ParseError>(map_of_entries(entries@)),
        decreases stream@.len(),
    {
        let ghost cur = stream@;
        let result = parse_declaration(&mut stream);
        proof {
            lemma_parse_decl_len(cur);
        }
        match result {
            ParseResult::Decl(d) => {
                let Declaration { name, value } = d;
                insert_entry(&mut entries, name, value);
            },
            ParseResult::EOF => {
                break ;
            },
            ParseResult::Fail(e) => {
                return Err(e);
            },
        }
    }
    Ok(VarMap { entries })
}

} // verus!
