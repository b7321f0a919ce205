//! A cursor over the characters of a source text, with one-character
//! lookahead and an explicit sentinel for the end of the input.
//!
//! Past the end, `peek` and `next` return the sentinel `'\0'` forever:
//! the stream is never invalid, only exhausted, and the scanner can treat
//! the end of the input like any other character.

use vstd::prelude::*;
use vstd::std_specs::iter::IteratorSpec;

verus! {

broadcast use vstd::string::group_string_axioms;

/// The next character of a remaining input, or the sentinel `'\0'` when
/// none remain.
pub open spec fn first_or_nul(s: Seq<char>) -> char {
    if s.len() == 0 {
        '\0'
    } else {
        s[0]
    }
}

/// A character stream. Its view is the sequence of characters not yet
/// consumed.
pub struct Stream {
    chars: Vec<char>,
    pos: usize,
}

impl View for Stream {
    type V = Seq<char>;

    closed spec fn view(&self) -> Seq<char> {
        self.chars@.skip(self.pos as int)
    }
}

impl Stream {
    #[verifier::type_invariant]
    spec fn wf(&self) -> bool {
        self.pos <= self.chars@.len()
    }

    /// A stream positioned at the first character of `source`.
    pub fn new(source: &str) -> (s: Stream)
        ensures
            s@ == source@,
    {
        let mut chars: Vec<char> = Vec::new();
        let mut it = source.chars();
        loop
            invariant
                chars@ + it.remaining() == source@,
                it.obeys_prophetic_iter_laws(),
                it.decrease() is Some,
            ensures
                chars@ == source@,
            decreases it.decrease()->0,
        {
            match it.next() {
                Some(c) => {
                    chars.push(c);
                    proof {
                        assert(chars@ + it.remaining() =~= source@);
                    }
                },
                None => {
                    proof {
                        assert(chars@ =~= source@);
                    }
                    break ;
                },
            }
        }
        let s = Stream { chars, pos: 0 };
        proof {
            assert(s@ =~= source@);
        }
        s
    }

    /// Returns the next unconsumed character without advancing, or the
    /// sentinel when the stream is exhausted.
    pub fn peek(&self) -> (c: char)
        ensures
            c == first_or_nul(self@),
    {
        proof {
            use_type_invariant(self);
        }
        if self.pos < self.chars.len() {
            self.chars[self.pos]
        } else {
            '\0'
        }
    }

    /// Returns and consumes the next character, or returns the sentinel
    /// and stays put when the stream is exhausted.
    pub fn next(&mut self) -> (c: char)
        ensures
            c == first_or_nul(old(self)@),
            old(self)@.len() == 0 ==> final(self)@ == old(self)@,
            old(self)@.len() > 0 ==> final(self)@ == old(self)@.drop_first(),
    {
        proof {
            use_type_invariant(&*self);
        }
        if self.pos < self.chars.len() {
            let c = self.chars[self.pos];
            self.pos = self.pos + 1;
            proof {
                assert(self@ =~= old(self)@.drop_first());
            }
            c
        } else {
            '\0'
        }
    }

    /// Whether every character has been consumed.
    pub fn at_end(&self) -> (b: bool)
        ensures
            b == (self@.len() == 0),
    {
        proof {
            use_type_invariant(self);
        }
        self.pos == self.chars.len()
    }
}

} // verus!
