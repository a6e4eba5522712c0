use vstd::prelude::*;

verus! {

/// The kinds of lexical unit the lexer can emit and the parser can consume.
/// `Keyword` covers every bare identifier-shaped word (`true`, `false`,
/// `null` among them); what such a word means is settled by the parser, which
/// compares the literal text. `Eof` is never produced by the lexer: the
/// parser synthesizes it when the token sequence runs out.
#[derive(Clone, Copy, PartialEq, Eq, Structural, Debug)]
pub enum TokenTypes {
    Str,
    Int,
    Keyword,
    Float,
    ArrayOpen,
    ArrayClose,
    ObjectOpen,
    ObjectClose,
    Comma,
    Colon,
    Eof,
}

} // verus!
