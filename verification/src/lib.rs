//! A small configuration language: a source text is a sequence of
//! declarations `name := literal`, where a literal is a string in double
//! quotes, a signed 64-bit integer, or a decimal number with a fractional
//! part. `parse_vars` turns a source text into a mapping from declared
//! names to their values; the last declaration for a name wins. Whitespace
//! and `#` line comments may stand between any two tokens.

mod charclass;
mod laws;
mod lexer;
mod model;
mod parser;
mod stream;
mod token;

pub use charclass::alpha_beyond_ascii;
pub use charclass::is_alpha_char;
pub use charclass::is_ascii_digit_char;
pub use charclass::is_ascii_letter_char;
pub use charclass::is_numeric_char;
pub use charclass::is_space_char;
pub use charclass::numeric_beyond_ascii;
pub use laws::comment_boundary;
pub use laws::last_value_for;
pub use laws::lemma_blank_source;
pub use laws::lemma_comment_insertion;
pub use laws::lemma_comment_only_source;
pub use laws::lemma_comment_transparent;
pub use laws::lemma_name_token_nonempty;
pub use laws::lemma_whitespace_insertion;
pub use laws::token_boundary;
pub use laws::lemma_parse_deterministic;
pub use laws::lemma_parse_floats_well_formed;
pub use laws::lemma_parse_last_wins;
pub use laws::lemma_parse_ok_iff_decls_ok;
pub use laws::lemma_whitespace_transparent;
pub use laws::spec_decls;
pub use lexer::next_token;
pub use lexer::scan_name;
pub use lexer::scan_number;
pub use lexer::scan_string;
pub use lexer::Number;
pub use parser::parse_declaration;
pub use parser::parse_vars;
pub use parser::VarMap;
pub use model::is_suffix_of;
pub use model::spec_next_token;
pub use model::spec_parse;
pub use model::spec_parse_decl;
pub use model::DeclStep;
pub use model::LexStep;
pub use model::SpecToken;
pub use model::SpecValue;
pub use stream::first_or_nul;
pub use stream::Stream;
pub use token::Declaration;
pub use token::ParseError;
pub use token::ParseResult;
pub use token::Token;
pub use token::Value;
