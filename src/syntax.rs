use crate::lexer::SyntaxKind;
use rowan::SyntaxKind as RawKind;
use vstd::prelude::*;

verus! {

/// Ties this language's kinds to rowan's raw `u16` tags.
#[derive(Clone, Copy, Debug, PartialEq, Eq, PartialOrd, Ord, Hash)]
pub enum FrostLanguage {
    Frost,
}

impl rowan::Language for FrostLanguage {
    type Kind = SyntaxKind;

    fn kind_from_raw(raw: RawKind) -> SyntaxKind {
        match SyntaxKind::from_raw(raw.0) {
            Some(kind) => kind,
            None => SyntaxKind::Error,
        }
    }

    fn kind_to_raw(kind: SyntaxKind) -> RawKind {
        RawKind(kind.to_raw())
    }
}

} // verus!
