use vstd::prelude::*;

verus! {

/// Every kind of token and node in the concrete syntax tree.
#[derive(Debug, Clone, Copy, PartialEq, Eq, Structural, PartialOrd, Ord, Hash)]
pub enum SyntaxKind {
    Root,
    BinaryExpr,
    PrefixExpr,
    Error,
    Whitespace,
    Comment,
    FnKw,
    LetKw,
    Ident,
    Number,
    Plus,
    Minus,
    Star,
    Slash,
    Equals,
    LBrace,
    RBrace,
    LParen,
    RParen,
}

pub open spec fn spec_is_trivia(k: SyntaxKind) -> bool {
    k == SyntaxKind::Whitespace || k == SyntaxKind::Comment
}

impl SyntaxKind {
    /// Whitespace and comments carry no grammatical meaning.
    pub fn is_trivia(self) -> (r: bool)
        ensures
            r == spec_is_trivia(self),
    {
        matches!(self, SyntaxKind::Whitespace | SyntaxKind::Comment)
    }

    /// The name of the kind as it appears in the debug dump.
    pub fn name(self) -> (r: &'static str)
        ensures
            r@ == kind_name(self),
    {
        match self {
            SyntaxKind::Root => "Root",
            SyntaxKind::BinaryExpr => "BinaryExpr",
            SyntaxKind::PrefixExpr => "PrefixExpr",
            SyntaxKind::Error => "Error",
            SyntaxKind::Whitespace => "Whitespace",
            SyntaxKind::Comment => "Comment",
            SyntaxKind::FnKw => "FnKw",
            SyntaxKind::LetKw => "LetKw",
            SyntaxKind::Ident => "Ident",
            SyntaxKind::Number => "Number",
            SyntaxKind::Plus => "Plus",
            SyntaxKind::Minus => "Minus",
            SyntaxKind::Star => "Star",
            SyntaxKind::Slash => "Slash",
            SyntaxKind::Equals => "Equals",
            SyntaxKind::LBrace => "LBrace",
            SyntaxKind::RBrace => "RBrace",
            SyntaxKind::LParen => "LParen",
            SyntaxKind::RParen => "RParen",
        }
    }
}

pub open spec fn kind_name(k: SyntaxKind) -> Seq<char> {
    match k {
        SyntaxKind::Root => "Root"@,
        SyntaxKind::BinaryExpr => "BinaryExpr"@,
        SyntaxKind::PrefixExpr => "PrefixExpr"@,
        SyntaxKind::Error => "Error"@,
        SyntaxKind::Whitespace => "Whitespace"@,
        SyntaxKind::Comment => "Comment"@,
        SyntaxKind::FnKw => "FnKw"@,
        SyntaxKind::LetKw => "LetKw"@,
        SyntaxKind::Ident => "Ident"@,
        SyntaxKind::Number => "Number"@,
        SyntaxKind::Plus => "Plus"@,
        SyntaxKind::Minus => "Minus"@,
        SyntaxKind::Star => "Star"@,
        SyntaxKind::Slash => "Slash"@,
        SyntaxKind::Equals => "Equals"@,
        SyntaxKind::LBrace => "LBrace"@,
        SyntaxKind::RBrace => "RBrace"@,
        SyntaxKind::LParen => "LParen"@,
        SyntaxKind::RParen => "RParen"@,
    }
}

} // verus!
