//! The token values and syntax tree of a small EBNF grammar reader, and the
//! one-to-one wrapping of a token value into a tree leaf.
use vstd::prelude::*;

verus! {

/// A token value of the grammar reader.
#[derive(Debug)]
pub enum TokenType {
    Ident(String),
    Literal(String),
    Assign,
    LeftPar,
    RightPar,
    Star,
}

pub type AstPtr = Box<EBNFAst>;

/// A node of a grammar's syntax tree.
#[derive(Debug)]
pub enum EBNFAst {
    Ident(String),
    Literal(String),
    Definition(AstPtr, AstPtr),
    Single(AstPtr),
    Double(AstPtr, AstPtr),
    OptionalLast(AstPtr, AstPtr),
    Or(AstPtr, AstPtr),
    Assign,
    LeftPar,
    RightPar,
    Star,
}

/// The leaf that a token value becomes: the variant of the same name, with
/// the same text.
pub open spec fn leaf_of(t: TokenType) -> EBNFAst {
    match t {
        TokenType::Ident(s) => EBNFAst::Ident(s),
        TokenType::Literal(s) => EBNFAst::Literal(s),
        TokenType::Assign => EBNFAst::Assign,
        TokenType::LeftPar => EBNFAst::LeftPar,
        TokenType::RightPar => EBNFAst::RightPar,
        TokenType::Star => EBNFAst::Star,
    }
}

impl From<TokenType> for EBNFAst {
    fn from(t: TokenType) -> (r: EBNFAst)
        ensures
            r == leaf_of(t),
    {
        match t {
            TokenType::Ident(s) => EBNFAst::Ident(s),
            TokenType::Literal(s) => EBNFAst::Literal(s),
            TokenType::Assign => EBNFAst::Assign,
            TokenType::LeftPar => EBNFAst::LeftPar,
            TokenType::RightPar => EBNFAst::RightPar,
            TokenType::Star => EBNFAst::Star,
        }
    }
}

impl vstd::std_specs::convert::FromSpecImpl<TokenType> for EBNFAst {
    open spec fn obeys_from_spec() -> bool {
        true
    }

    open spec fn from_spec(t: TokenType) -> EBNFAst {
        leaf_of(t)
    }
}

} // verus!
