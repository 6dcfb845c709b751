use vstd::prelude::*;

verus! {

/// One lexical token of the pattern language. Delimiters (`(`, `)`, `{`,
/// `}`) are carried as punctuation, one token each.
#[derive(Debug, PartialEq, Eq, Clone)]
pub enum Tok {
    Punct(char),
    Ident(String),
    Str(String),
}

/// The mathematical value of a token.
pub enum TokV {
    Punct(char),
    Ident(Seq<char>),
    Str(Seq<char>),
}

impl View for Tok {
    type V = TokV;

    open spec fn view(&self) -> TokV {
        match self {
            Tok::Punct(c) => TokV::Punct(*c),
            Tok::Ident(s) => TokV::Ident(s@),
            Tok::Str(s) => TokV::Str(s@),
        }
    }
}

/// The values of a sequence of tokens.
pub open spec fn toks_view(ts: Seq<Tok>) -> Seq<TokV> {
    ts.map_values(|t: Tok| t@)
}

/// Is token `t` the punctuation character `c`?
pub fn is_punct(t: &Tok, c: char) -> (r: bool)
    ensures
        r == (t@ == TokV::Punct(c)),
{
    match t {
        Tok::Punct(d) => *d == c,
        _ => false,
    }
}

} // verus!
