use vstd::prelude::*;

use crate::blocks::reports_unmatched;
use crate::codegen::{compile_program, compiled, reports_gen};
use crate::error::PhronError;
use crate::lexer::{is_lex_error, lex_source, tokenize_source_code, TokenView};
use crate::parser::{parse_from, parse_tokens, reports_parse, ParseFault};
use crate::program::{
    defs_map,
    entries_map,
    entry_views,
    lemma_entries_map_views,
    resolve_defs,
    Program,
};
use crate::sim::main_name;
use crate::structure::{empty_layout, layout_from, parse_program_structure, Layout};

verus! {

/// Why reading a source text into a module fails.
pub enum FrontFault {
    Lex(nat, nat),
    Parse(Seq<TokenView>, ParseFault),
    Structure(nat),
}

/// A source text read into its module layout: lexing, parsing and
/// structuring in turn.
pub open spec fn front_end(filepath: Seq<char>, source: Seq<char>) -> Result<Layout, FrontFault> {
    match lex_source(filepath, source) {
        Err((row, col)) => Err(FrontFault::Lex(row, col)),
        Ok(ts) => match parse_from(ts, 0) {
            Err(f) => Err(FrontFault::Parse(ts, f)),
            Ok(os) => match layout_from(os, 0, empty_layout()) {
                Err(i) => Err(FrontFault::Structure(i)),
                Ok(st) => Ok(st),
            },
        },
    }
}

pub open spec fn reports_front(e: PhronError, filepath: Seq<char>, f: FrontFault) -> bool {
    match f {
        FrontFault::Lex(row, col) => is_lex_error(e, filepath, row, col),
        FrontFault::Parse(ts, pf) => reports_parse(e, ts, pf),
        FrontFault::Structure(i) => reports_unmatched(e, i),
    }
}

/// Reads one source file's text into a module (functions and pending
/// imports), without resolving blocks.
pub fn load_module(filepath: &str, source: &String) -> (r: Result<Program, PhronError>)
    ensures
        match front_end(filepath@, source@) {
            Ok(st) => r is Ok && entry_views(r->Ok_0.functions@) == st.functions
                && r->Ok_0.imports_view() == st.imports,
            Err(f) => r is Err && reports_front(r->Err_0, filepath@, f),
        },
{
    let tokens = match tokenize_source_code(filepath, source) {
        Ok(t) => t,
        Err(e) => {
            return Err(e);
        },
    };
    let parsed = match parse_tokens(tokens) {
        Ok(p) => p,
        Err(e) => {
            return Err(e);
        },
    };
    parse_program_structure(parsed)
}

/// Compiles a single source text (imports are not followed) to Brainfuck.
pub fn compile_program_from_source(filepath: &str, source_code: String) -> (r: Result<
    String,
    PhronError,
>)
    ensures
        match front_end(filepath@, source_code@) {
            Err(f) => r is Err && reports_front(r->Err_0, filepath@, f),
            Ok(st) => match resolve_defs(st.functions, 0) {
                Err(i) => r is Err && reports_unmatched(r->Err_0, i),
                Ok(d) => if !defs_map(d).contains_key(main_name()) {
                    r is Err && r->Err_0 is MissingMain
                } else {
                    match compiled(defs_map(d)) {
                        Ok(code) => r is Ok && r->Ok_0@ == code,
                        Err(f) => r is Err && reports_gen(r->Err_0, f),
                    }
                },
            },
        },
{
    let mut program = match load_module(filepath, &source_code) {
        Ok(p) => p,
        Err(e) => {
            return Err(e);
        },
    };
    match program.resolve_blocks() {
        Err(e) => {
            return Err(e);
        },
        Ok(()) => {},
    }
    proof {
        lemma_entries_map_views(program.functions@);
    }
    compile_program(&program)
}

} // verus!
