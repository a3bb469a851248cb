//! The token taxonomy: operators, keywords, separators, identifiers,
//! literals, the in-band invalid marker and the end-of-input sentinel.

use vstd::prelude::*;
use crate::value::BIntegerVariant;
use crate::value::BObject;

verus! {

/// Arithmetic, comparison, assignment and shift operators.
#[derive(Debug, Clone, PartialEq, Eq)]
pub enum Operator {
    Add,
    Sub,
    Mul,
    Div,
    FloorDiv,
    Mod,
    Pow,
    LAssign,
    RAssign,
    Gt,
    Lt,
    Eq,
    Geq,
    Leq,
    Neq,
    Shl,
    Shr,
}

/// The language's reserved words.
#[derive(Debug, Clone, PartialEq, Eq)]
pub enum Keyword {
    Declare,
    If,
    Else,
    Endif,
    Then,
    True,
    False,
    Case,
    Of,
    For,
    Next,
    To,
    Repeat,
    Until,
    While,
    Endwhile,
    Function,
    Endfunction,
    Return,
    Call,
    Output,
    Input,
}

/// Bracket, parenthesis and brace delimiters.
#[derive(Debug, Clone, PartialEq, Eq)]
pub enum Separator {
    LParen,
    RParen,
    LBracket,
    RBracket,
    LCurly,
    RCurly,
}

/// Exactly one case is active per token.
#[derive(Debug, Clone, PartialEq)]
pub enum TokenVariant {
    Operator(Operator),
    Keyword(Keyword),
    Separator(Separator),
    Ident(String),
    Literal(BObject),
    Invalid,
    Unrecognized,
    Eof,
}

/// A classified lexeme together with the byte offset of its first byte.
#[derive(Debug, Clone, PartialEq)]
pub struct Token {
    pub variant: TokenVariant,
    pub pos: usize,
}

impl Token {
    pub fn new(variant: TokenVariant, pos: usize) -> (t: Self)
        ensures
            t.variant == variant,
            t.pos == pos,
    {
        Self { variant, pos }
    }
}

/// The mathematical shape of a token variant: payload strings are read as
/// character sequences, integer literals as their chosen variant.
pub enum TokenModel {
    Op(Operator),
    Kw(Keyword),
    Sep(Separator),
    Name(Seq<char>),
    IntLit(BIntegerVariant),
    FloatLit(Seq<char>),
    BoolLit(bool),
    StrLit(Seq<char>),
    BadLit,
    Unrec,
    End,
}

/// The mathematical shape of a whole token.
pub struct SpecToken {
    pub variant: TokenModel,
    pub pos: int,
}

impl TokenVariant {
    /// The model this variant stands for.
    pub open spec fn model(self) -> TokenModel {
        match self {
            TokenVariant::Operator(o) => TokenModel::Op(o),
            TokenVariant::Keyword(k) => TokenModel::Kw(k),
            TokenVariant::Separator(s) => TokenModel::Sep(s),
            TokenVariant::Ident(s) => TokenModel::Name(s@),
            TokenVariant::Literal(BObject::Integer(b)) => TokenModel::IntLit(b.inner),
            TokenVariant::Literal(BObject::Float(b)) => TokenModel::FloatLit(b.inner@),
            TokenVariant::Literal(BObject::Bool(b)) => TokenModel::BoolLit(b.inner),
            TokenVariant::Literal(BObject::String(b)) => TokenModel::StrLit(b@),
            TokenVariant::Invalid => TokenModel::BadLit,
            TokenVariant::Unrecognized => TokenModel::Unrec,
            TokenVariant::Eof => TokenModel::End,
        }
    }
}

impl Token {
    /// The model this token stands for, position included.
    pub open spec fn model(self) -> SpecToken {
        SpecToken { variant: self.variant.model(), pos: self.pos as int }
    }
}

/// The models of a token sequence, element by element.
pub open spec fn tokens_model(v: Seq<Token>) -> Seq<SpecToken> {
    v.map(|_i, t: Token| t.model())
}

} // verus!
