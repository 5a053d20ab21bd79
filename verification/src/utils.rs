//! Shortcuts from source text to the block representation.

use vstd::prelude::*;
use crate::ir::{Block, asts_model};
use crate::parse::{parse, asts_tokens, balanced, tokens_of, Ast, ParseError};

verus! {

/// Parses Brainfuck source straight into a block.
pub fn bf_to_block(code: &str) -> (r: Result<Block, ParseError>)
    ensures
        r is Ok <==> balanced(tokens_of(code@)),
        r matches Ok(b) ==> exists|ast: Seq<Ast>| asts_tokens(ast) == tokens_of(code@) && b@ == asts_model(ast),
{
    let ast = parse(code)?;
    let block = Block::from_ast(ast.as_slice());
    assert(asts_tokens(ast@) == tokens_of(code@) && block@ == asts_model(ast@));
    Ok(block)
}

} // verus!
