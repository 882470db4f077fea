//! A compiler for teeny, a small BASIC-like language, to C: a lexer, a
//! recursive-descent parser and an emitter, each proved against a
//! mathematical description of what it computes.
use vstd::prelude::*;

pub mod emitter;
pub mod lexer;
pub mod parser;

use crate::emitter::{emit_program, emitted, EmitError};
use crate::lexer::{lex, lex_spec, tokens_view, LexError, Token, TokenIterator};
use crate::parser::{program_spec, ParseError, AST};

verus! {

/// Command-line configuration: the path of the source file to compile.
pub struct Config {
    pub path: String,
}

impl Config {
    /// Builds a configuration from the program's arguments, the first of which
    /// is the program name and is skipped.
    pub fn new(args: &Vec<String>) -> (r: Result<Config, &'static str>)
        ensures
            args@.len() >= 2 <==> r is Ok,
            r matches Ok(c) ==> c.path@ == args@[1]@,
            r matches Err(e) ==> e@ == "Please provide a file path"@,
    {
        if args.len() < 2 {
            return Err("Please provide a file path");
        }
        Ok(Config { path: args[1].clone() })
    }
}

/// The first failure of a compilation, by stage.
#[derive(Debug, Clone, PartialEq)]
pub enum CompileError {
    Lex(LexError),
    Parse(ParseError),
    Emit(EmitError),
}

/// `r` is what parsing and then emitting the tokens `ts` gives.
pub open spec fn compiled(r: Result<Vec<String>, CompileError>, ts: Seq<Token>) -> bool {
    match program_spec(ts) {
        Err(e) => r == Err::<Vec<String>, CompileError>(CompileError::Parse(e)),
        Ok(p) => match r {
            Ok(lines) => emitted(Ok(lines), p),
            Err(CompileError::Emit(e)) => emitted(Err(e), p),
            _ => false,
        },
    }
}

/// Compiles a source text to C source lines: lexing, parsing and emission,
/// stopping at the first error.
pub fn compile(source: &str) -> (r: Result<Vec<String>, CompileError>)
    ensures
        match lex_spec(source@) {
            Err(e) => r == Err::<Vec<String>, CompileError>(CompileError::Lex(e)),
            Ok(tv) => exists|ts: Seq<Token>| tokens_view(ts) == tv && compiled(r, ts),
        },
{
    let tokens = match lex(source) {
        Ok(t) => t,
        Err(e) => return Err(CompileError::Lex(e)),
    };
    let mut it = TokenIterator::new(&tokens);
    let ast = match crate::parser::parse(&mut it) {
        Ok(a) => a,
        Err(e) => return Err(CompileError::Parse(e)),
    };
    let AST::Program(statements) = ast;
    match emit_program(statements) {
        Ok(lines) => {
            assert(compiled(Ok(lines), tokens@));
            Ok(lines)
        },
        Err(e) => {
            assert(compiled(Err(CompileError::Emit(e)), tokens@));
            Err(CompileError::Emit(e))
        },
    }
}

} // verus!
