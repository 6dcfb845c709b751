//! A compiler for a small tag-based pattern language: elements whose attributes
//! are either match predicates (`~key=value`) or edit operations
//! (`+key=value`), compiled into a nested find/match/edit specification.

pub mod token;
pub mod ast;
pub mod parse;
pub mod emit;
pub mod print;
pub mod round_trip;

pub use token::Tok;
pub use ast::{AttrPrefix, Var, StrOrVar, Attr, IdentOrStr, IdentOrAny, FullBody, Body, FME, Mixin};
pub use parse::{CompileError, parse_mixin};
pub use emit::{Value, MatchPred, EditOp, Step, SpecNode, Generator, mixin};
