pub mod compile;
pub mod display;
pub mod parser;
pub mod tokenize;

use vstd::prelude::*;
use crate::synth::{Synth, Id, NIL_NODE_ID};
use crate::lang::tokenize::{tokenize, lex, flat_tokens, Token, TokenErrorKind};
use crate::lang::parser::{parse_tokens, parse_program_spec, commands_view, Node, CommandNode, ParseErrorKind};

verus! {

/// Which stage failed, and how.
#[derive(PartialEq, Eq, Debug)]
pub enum CompileErrorKind {
    TokenizerError(TokenErrorKind),
    ParseError(ParseErrorKind),
    CompileError(compile::CompileErrorKind),
}

/// A failure to turn program text into a graph, with the source position
/// where one is known.
#[derive(PartialEq, Eq, Debug)]
pub struct CompileError {
    pub kind: CompileErrorKind,
    pub pos: Option<(usize, usize)>,
}

/// `r` is what compiling the statements `cmds` gives: on success the graph
/// and the slots that the bindings choose for the outputs; on failure the
/// compile error, with its kind and position, of the first statement that
/// fails.
pub open spec fn compiled_from(cmds: Seq<Node<CommandNode>>, r: Result<(Synth, Id, Id), CompileError>) -> bool {
    match r {
        Ok((s, left, right)) => {
            &&& s@.wf()
            &&& s@.complete()
            &&& exists|vars: Seq<(String, Id)>| #[trigger] compile::program_result(cmds, vars, s@, left, right)
        },
        Err(e) => {
            &&& e.kind is CompileError
            &&& 2 * compile::program_size(cmds) + 2 < NIL_NODE_ID && compile::first_error(cmds, 0) is Some
                ==> e == CompileError {
                kind: CompileErrorKind::CompileError(compile::first_error(cmds, 0)->Some_0.kind),
                pos: compile::first_error(cmds, 0)->Some_0.pos,
            }
            &&& e.kind == CompileErrorKind::CompileError(compile::CompileErrorKind::NoOutputVariables)
                ==> e.pos is None
        },
    }
}

/// Compiles program text into a graph and its left and right output
/// slots. Tokenizing fails exactly when the text's lexeme scan does, with
/// that error; parsing fails exactly when the grammar rejects the token
/// tree, with that error; then the result is what compiling the parsed
/// statements gives, and a compilable program compiles.
pub fn compile_source(code: &str) -> (r: Result<(Synth, Id, Id), CompileError>)
    ensures
        match lex(code@, 0, seq![]) {
            Err(e) => r == Err::<(Synth, Id, Id), CompileError>(
                CompileError { kind: CompileErrorKind::TokenizerError(e.kind), pos: Some(e.pos) },
            ),
            Ok(ls) => {
                &&& !(r matches Err(e) && e.kind is TokenizerError)
                &&& exists|ts: Seq<Token>|
                    #![trigger flat_tokens(ts)]
                    flat_tokens(ts) == ls && match parse_program_spec(ts, 0, seq![]) {
                        Err(e) => r == Err::<(Synth, Id, Id), CompileError>(
                            CompileError { kind: CompileErrorKind::ParseError(e.kind), pos: e.pos },
                        ),
                        Ok(views) => {
                            &&& !(r matches Err(e) && e.kind is ParseError)
                            &&& compile::compilable(views) ==> r is Ok
                            &&& exists|cmds: Seq<Node<CommandNode>>|
                                #[trigger] commands_view(cmds) == views && compiled_from(cmds, r)
                        },
                    }
            },
        },
        r matches Ok((s, left, right)) ==> {
            &&& s@.wf()
            &&& s@.complete()
            &&& left.0 < s@.data.len()
            &&& right.0 < s@.data.len()
        },
{
    let tokens = match tokenize(code) {
        Ok(t) => t,
        Err(e) => {
            return Err(CompileError { kind: CompileErrorKind::TokenizerError(e.kind), pos: Some(e.pos) });
        },
    };
    let ghost ts = tokens@;
    let commands = match parse_tokens(&tokens) {
        Ok(c) => c,
        Err(e) => {
            let r = Err(CompileError { kind: CompileErrorKind::ParseError(e.kind), pos: e.pos });
            proof {
                assert(flat_tokens(ts) == lex(code@, 0, seq![])->Ok_0);
            }
            return r;
        },
    };
    proof {
        if compile::compilable(commands_view(commands@)) {
            compile::lemma_compilable(commands@);
        }
    }
    let r = match compile::compile(commands) {
        Ok((synth, left, right)) => Ok((synth, left, right)),
        Err(e) => Err(CompileError { kind: CompileErrorKind::CompileError(e.kind), pos: e.pos }),
    };
    proof {
        assert(flat_tokens(ts) == lex(code@, 0, seq![])->Ok_0);
        assert(compiled_from(commands@, r));
    }
    r
}

} // verus!
