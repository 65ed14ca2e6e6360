//! Syntax-aware tokenization behind a trusted boundary.
//!
//! Inside fenced code blocks with a known language, only string
//! literals and comments are translatable.  The `syntect` crate
//! supplies the language definitions and the tokenizer; the wrappers
//! here expose the calls the grouper makes.  No wrapper promises
//! anything about which scopes the tokenizer assigns — the grouping
//! logic is verified for every answer — except that the pieces of a
//! tokenized line carry exactly the characters of that line.

use vstd::prelude::*;

verus! {

#[verifier::external_type_specification]
#[verifier::external_body]
pub struct ExSyntaxSet(syntect::parsing::SyntaxSet);

#[verifier::external_type_specification]
#[verifier::external_body]
pub struct ExSyntaxReference(syntect::parsing::SyntaxReference);

#[verifier::external_type_specification]
#[verifier::external_body]
pub struct ExParseState(syntect::parsing::ParseState);

#[verifier::external_type_specification]
#[verifier::external_body]
pub struct ExScopeStack(syntect::parsing::ScopeStack);

#[verifier::external_type_specification]
#[verifier::external_body]
pub struct ExScopeStackOp(syntect::parsing::ScopeStackOp);

#[verifier::external_type_specification]
#[verifier::external_body]
pub struct ExScope(syntect::parsing::Scope);

/// The strings of the pieces of a tokenized line.
pub open spec fn pieces_view(v: Seq<(String, syntect::parsing::ScopeStackOp)>) -> Seq<Seq<char>> {
    v.map_values(|p: (String, syntect::parsing::ScopeStackOp)| p.0@)
}

/// Relies on `syntect::dumps::SyntaxSet::load_defaults_newlines`:
/// the bundled language definitions.
#[verifier::external_body]
pub fn load_syntax_set() -> syntect::parsing::SyntaxSet {
    syntect::parsing::SyntaxSet::load_defaults_newlines()
}

/// Relies on `syntect::parsing::SyntaxSet::find_syntax_by_token`:
/// looks a language up by name or file extension.
#[verifier::external_body]
pub fn find_syntax_by_token<'a>(
    ss: &'a syntect::parsing::SyntaxSet,
    token: &str,
) -> Option<&'a syntect::parsing::SyntaxReference> {
    ss.find_syntax_by_token(token)
}

/// Relies on `syntect::parsing::ParseState::new`: a parse state at
/// the start of the given language.
#[verifier::external_body]
pub fn parse_state_new(syntax: &syntect::parsing::SyntaxReference) -> syntect::parsing::ParseState {
    syntect::parsing::ParseState::new(syntax)
}

/// Relies on `syntect::parsing::ParseState::parse_line` and
/// `syntect::easy::ScopeRangeIterator`: tokenizes one line into
/// pieces, each the text of one scope range together with the scope
/// operation to apply before it.  The iterator's ranges partition
/// the line, so the pieces carry exactly the characters of `line`;
/// a tokenizer error yields `None`.
#[verifier::external_body]
pub fn tokenize_line(
    ps: &mut syntect::parsing::ParseState,
    ss: &syntect::parsing::SyntaxSet,
    line: &str,
) -> (r: Option<Vec<(String, syntect::parsing::ScopeStackOp)>>)
    ensures
        r matches Some(v) ==> pieces_view(v@).flatten() == line@,
{
    let ops = match ps.parse_line(line, ss) {
        Ok(ops) => ops,
        Err(_) => return None,
    };
    let mut out: Vec<(String, syntect::parsing::ScopeStackOp)> = Vec::new();
    for (range, op) in syntect::easy::ScopeRangeIterator::new(&ops, line) {
        out.push((line[range].to_string(), op.clone()));
    }
    Some(out)
}

/// Relies on `syntect::parsing::ScopeStack::new`: an empty stack.
#[verifier::external_body]
pub fn scope_stack_new() -> syntect::parsing::ScopeStack {
    syntect::parsing::ScopeStack::new()
}

/// Relies on `syntect::parsing::ScopeStack::apply`: applies one
/// operation; a stack error yields `false`.
#[verifier::external_body]
pub fn scope_stack_apply(
    stack: &mut syntect::parsing::ScopeStack,
    op: &syntect::parsing::ScopeStackOp,
) -> bool {
    stack.apply(op).is_ok()
}

/// Relies on the public `scopes` field of
/// `syntect::parsing::ScopeStack`: the scopes now on the stack.
#[verifier::external_body]
pub fn scope_stack_scopes(stack: &syntect::parsing::ScopeStack) -> Vec<syntect::parsing::Scope> {
    stack.scopes.clone()
}

/// Relies on `syntect::parsing::Scope::new`: parses a scope path
/// such as `string` or `comment`.
#[verifier::external_body]
pub fn scope_new(s: &str) -> Option<syntect::parsing::Scope> {
    syntect::parsing::Scope::new(s).ok()
}

/// Relies on `syntect::parsing::Scope::is_prefix_of`.
#[verifier::external_body]
pub fn scope_is_prefix_of(a: syntect::parsing::Scope, b: syntect::parsing::Scope) -> bool {
    a.is_prefix_of(b)
}

} // verus!
