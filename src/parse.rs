use vstd::prelude::*;
use crate::token::{Tok, TokV, toks_view, is_punct};
use crate::ast::{
    AttrPrefix, Var, StrOrVar, IdentOrStr, IdentOrAny, Attr, FullBody, Body, FME, Mixin, ValM,
    closing_ok, NameM, AttrM, ElemM, BodyM, MixinM, key_toks, val_toks, name_tok, attr_toks, attrs_toks,
    elem_toks, elems_toks, args_toks, mixin_toks, elem_wf, elems_wf, mixin_wf,
    attrs_view, fmes_view, body_toks, body_wf, names_distinct, strs_view, Mismatch, shift,
    body_mismatch, elem_mismatch, elems_mismatch, lemma_elems_wf_mismatch, lemma_elem_wf_mismatch,
    lemma_body_wf_mismatch,
};

verus! {

/// Why a declaration could not be compiled. Positions are token indices.
#[derive(Debug, PartialEq, Eq)]
pub enum CompileError {
    /// A required token is absent at this position.
    UnexpectedToken { pos: usize },
    /// A concrete element is closed by another name.
    ClosingTagMismatch { expected: String, found: IdentOrAny, pos: usize },
    /// A `{` that opens a variable placeholder is not followed by
    /// `{ Ident } }`.
    MalformedVariableReference { pos: usize },
    /// A parameter name is declared twice.
    DuplicateParameter { pos: usize },
    /// A variable placeholder names no declared parameter.
    UnresolvedParameter { name: String },
}

/// The token values of `toks` from `pos` (inclusive) to `end` (exclusive).
pub open spec fn span(toks: Seq<Tok>, pos: int, end: int) -> Seq<TokV> {
    toks_view(toks).subrange(pos, end)
}

proof fn lemma_span_split(toks: Seq<Tok>, a: int, b: int, c: int)
    requires
        0 <= a <= b <= c <= toks.len(),
    ensures
        span(toks, a, c) == span(toks, a, b) + span(toks, b, c),
{
    assert(span(toks, a, c) =~= span(toks, a, b) + span(toks, b, c));
}

/// Is the token at `pos` the punctuation `c`? (Never consumes.)
pub fn peek_punct(toks: &Vec<Tok>, pos: usize, c: char) -> (r: bool)
    ensures
        r == (pos < toks.len() && toks@[pos as int]@ == TokV::Punct(c)),
{
    pos < toks.len() && is_punct(&toks[pos], c)
}

/// Consume the punctuation `c` at `pos`.
pub fn expect_punct(toks: &Vec<Tok>, pos: usize, c: char) -> (r: Result<usize, CompileError>)
    requires
        pos <= toks.len(),
    ensures
        r is Ok <==> (pos < toks.len() && toks@[pos as int]@ == TokV::Punct(c)),
        r matches Ok(end) ==> end == pos + 1 && span(toks@, pos as int, end as int) == seq![
            TokV::Punct(c),
        ],
        r matches Err(e) ==> e == (CompileError::UnexpectedToken { pos }),
{
    if peek_punct(toks, pos, c) {
        assert(span(toks@, pos as int, pos + 1) =~= seq![TokV::Punct(c)]);
        Ok(pos + 1)
    } else {
        Err(CompileError::UnexpectedToken { pos })
    }
}

/// Consume an identifier at `pos`.
pub fn parse_ident(toks: &Vec<Tok>, pos: usize) -> (r: Result<(String, usize), CompileError>)
    requires
        pos <= toks.len(),
    ensures
        r is Ok <==> (pos < toks.len() && toks@[pos as int]@ is Ident),
        r matches Ok((s, end)) ==> end == pos + 1 && toks@[pos as int]@ == TokV::Ident(s@) && span(
            toks@,
            pos as int,
            end as int,
        ) == seq![TokV::Ident(s@)],
        r matches Err(e) ==> e == (CompileError::UnexpectedToken { pos }),
{
    if pos < toks.len() {
        match &toks[pos] {
            Tok::Ident(s) => {
                assert(span(toks@, pos as int, pos + 1) =~= seq![TokV::Ident(s@)]);
                return Ok((s.clone(), pos + 1));
            },
            _ => {},
        }
    }
    Err(CompileError::UnexpectedToken { pos })
}

/// Consume a string literal at `pos`.
pub fn parse_str(toks: &Vec<Tok>, pos: usize) -> (r: Result<(String, usize), CompileError>)
    requires
        pos <= toks.len(),
    ensures
        r is Ok <==> (pos < toks.len() && toks@[pos as int]@ is Str),
        r matches Ok((s, end)) ==> end == pos + 1 && toks@[pos as int]@ == TokV::Str(s@) && span(
            toks@,
            pos as int,
            end as int,
        ) == seq![TokV::Str(s@)],
        r matches Err(e) ==> e == (CompileError::UnexpectedToken { pos }),
{
    if pos < toks.len() {
        match &toks[pos] {
            Tok::Str(s) => {
                assert(span(toks@, pos as int, pos + 1) =~= seq![TokV::Str(s@)]);
                return Ok((s.clone(), pos + 1));
            },
            _ => {},
        }
    }
    Err(CompileError::UnexpectedToken { pos })
}

/// The tokens of `toks` from `pos` on begin with `s`.
pub open spec fn starts_with(toks: Seq<Tok>, pos: int, s: Seq<TokV>) -> bool {
    &&& 0 <= pos
    &&& pos + s.len() <= toks.len()
    &&& span(toks, pos, pos + s.len()) == s
}

/// A token inside a prefix that the input begins with.
pub proof fn lemma_starts_with_at(toks: Seq<Tok>, pos: int, s: Seq<TokV>, i: int)
    requires
        starts_with(toks, pos, s),
        0 <= i < s.len(),
    ensures
        toks[pos + i]@ == s[i],
{
    assert(span(toks, pos, pos + s.len())[i] == s[i]);
}

impl Var {
    /// Parse `{ { Ident } }`.
    pub fn parse(toks: &Vec<Tok>, pos: usize) -> (r: Result<(Var, usize), CompileError>)
        requires
            pos <= toks.len(),
        ensures
            r matches Ok((v, end)) ==> pos < end <= toks.len() && span(toks@, pos as int, end as int)
                == val_toks(ValM::Var(v.var@)),
            forall|n: Seq<char>| #[trigger]
                starts_with(toks@, pos as int, val_toks(ValM::Var(n))) ==> (r matches Ok((v, end))
                    && v.var@ == n),
            r matches Err(e) ==> e == (CompileError::MalformedVariableReference { pos }),
    {
        let q1 = match expect_punct(toks, pos, '{') {
            Ok(p) => p,
            Err(_) => return Err(CompileError::MalformedVariableReference { pos }),
        };
        let q2 = match expect_punct(toks, q1, '{') {
            Ok(p) => p,
            Err(_) => return Err(CompileError::MalformedVariableReference { pos }),
        };
        let (var, q3) = match parse_ident(toks, q2) {
            Ok(x) => x,
            Err(_) => return Err(CompileError::MalformedVariableReference { pos }),
        };
        let q4 = match expect_punct(toks, q3, '}') {
            Ok(p) => p,
            Err(_) => return Err(CompileError::MalformedVariableReference { pos }),
        };
        let q5 = match expect_punct(toks, q4, '}') {
            Ok(p) => p,
            Err(_) => return Err(CompileError::MalformedVariableReference { pos }),
        };
        assert(span(toks@, pos as int, q5 as int) =~= val_toks(ValM::Var(var@)));
        Ok((Var { var }, q5))
    }
}

impl StrOrVar {
    /// Parse a value: a placeholder when it opens with `{`, else a string literal.
    pub fn parse(toks: &Vec<Tok>, pos: usize) -> (r: Result<(StrOrVar, usize), CompileError>)
        requires
            pos <= toks.len(),
        ensures
            r matches Ok((v, end)) ==> pos < end <= toks.len() && span(toks@, pos as int, end as int)
                == val_toks(v@),
            forall|m: ValM| #[trigger]
                starts_with(toks@, pos as int, val_toks(m)) ==> (r matches Ok((v, end)) && v@ == m),
            r matches Err(e) ==> (e == (CompileError::UnexpectedToken { pos }) || e
                == (CompileError::MalformedVariableReference { pos })),
            !(pos < toks.len() && (toks@[pos as int]@ == TokV::Punct('{') || toks@[pos as int]@ is Str))
                ==> r == Err::<(StrOrVar, usize), CompileError>(CompileError::UnexpectedToken { pos }),
            pos < toks.len() && toks@[pos as int]@ == TokV::Punct('{') ==> (r is Ok || r == Err::<
                (StrOrVar, usize),
                CompileError,
            >(CompileError::MalformedVariableReference { pos })),
            pos < toks.len() && toks@[pos as int]@ is Str ==> r is Ok,
    {
        if peek_punct(toks, pos, '{') {
            assert forall|m: ValM| #[trigger] starts_with(toks@, pos as int, val_toks(m)) implies m is Var by {
                lemma_starts_with_at(toks@, pos as int, val_toks(m), 0);
            }
            match Var::parse(toks, pos) {
                Ok((v, end)) => Ok((StrOrVar::Var(v), end)),
                Err(e) => Err(e),
            }
        } else {
            match parse_str(toks, pos) {
                Ok((s, end)) => {
                    assert forall|m: ValM| #[trigger]
                        starts_with(toks@, pos as int, val_toks(m)) implies m == ValM::Str(s@) by {
                        lemma_starts_with_at(toks@, pos as int, val_toks(m), 0);
                    }
                    assert(val_toks(ValM::Str(s@)) =~= seq![TokV::Str(s@)]);
                    Ok((StrOrVar::Str(s), end))
                },
                Err(e) => {
                    assert forall|m: ValM| !#[trigger] starts_with(toks@, pos as int, val_toks(m)) by {
                        if starts_with(toks@, pos as int, val_toks(m)) {
                            lemma_starts_with_at(toks@, pos as int, val_toks(m), 0);
                        }
                    }
                    Err(e)
                },
            }
        }
    }
}

/// A prefix that is a concatenation splits into its parts.
pub proof fn lemma_starts_with_concat(toks: Seq<Tok>, pos: int, a: Seq<TokV>, b: Seq<TokV>)
    ensures
        starts_with(toks, pos, a + b) <==> (starts_with(toks, pos, a) && starts_with(
            toks,
            pos + a.len(),
            b,
        )),
{
    if starts_with(toks, pos, a + b) {
        lemma_span_split(toks, pos, pos + a.len(), pos + a.len() + b.len());
        let whole = span(toks, pos, pos + a.len() + b.len());
        assert(whole == a + b);
        assert(span(toks, pos, pos + a.len()) =~= whole.subrange(0, a.len() as int));
        assert(span(toks, pos, pos + a.len()) =~= a);
        assert(span(toks, pos + a.len(), pos + a.len() + b.len()) =~= whole.subrange(
            a.len() as int,
            whole.len() as int,
        ));
        assert(span(toks, pos + a.len(), pos + a.len() + b.len()) =~= b);
    }
    if starts_with(toks, pos, a) && starts_with(toks, pos + a.len(), b) {
        lemma_span_split(toks, pos, pos + a.len(), pos + a.len() + b.len());
        assert(span(toks, pos, pos + (a + b).len()) == a + b);
    }
}

impl IdentOrStr {
    /// Parse an attribute key: a string literal or an identifier.
    pub fn parse(toks: &Vec<Tok>, pos: usize) -> (r: Result<(IdentOrStr, usize), CompileError>)
        requires
            pos <= toks.len(),
        ensures
            r is Ok <==> (pos < toks.len() && (toks@[pos as int]@ is Ident
                || toks@[pos as int]@ is Str)),
            r matches Ok((k, end)) ==> end == pos + 1 && toks@[pos as int]@ == key_toks(k@),
            r matches Err(e) ==> e == (CompileError::UnexpectedToken { pos }),
    {
        if pos < toks.len() {
            match &toks[pos] {
                Tok::Str(s) => return Ok((IdentOrStr::Str(s.clone()), pos + 1)),
                Tok::Ident(s) => return Ok((IdentOrStr::Ident(s.clone()), pos + 1)),
                _ => {},
            }
        }
        Err(CompileError::UnexpectedToken { pos })
    }
}

impl IdentOrAny {
    /// Parse a tag name: the wildcard `?` or an identifier.
    pub fn parse(toks: &Vec<Tok>, pos: usize) -> (r: Result<(IdentOrAny, usize), CompileError>)
        requires
            pos <= toks.len(),
        ensures
            r is Ok <==> (pos < toks.len() && (toks@[pos as int]@ is Ident || toks@[pos as int]@
                == TokV::Punct('?'))),
            r matches Ok((n, end)) ==> end == pos + 1 && toks@[pos as int]@ == name_tok(n@),
            r matches Err(e) ==> e == (CompileError::UnexpectedToken { pos }),
    {
        if pos < toks.len() {
            match &toks[pos] {
                Tok::Punct(c) => {
                    if *c == '?' {
                        return Ok((IdentOrAny::Any, pos + 1));
                    }
                },
                Tok::Ident(s) => return Ok((IdentOrAny::Ident(s.clone()), pos + 1)),
                _ => {},
            }
        }
        Err(CompileError::UnexpectedToken { pos })
    }
}

impl AttrPrefix {
    /// Parse an attribute marker: `~` for a match, `+` for an edit.
    pub fn parse(toks: &Vec<Tok>, pos: usize) -> (r: Result<(AttrPrefix, usize), CompileError>)
        requires
            pos <= toks.len(),
        ensures
            r is Ok <==> (pos < toks.len() && (toks@[pos as int]@ == TokV::Punct('~')
                || toks@[pos as int]@ == TokV::Punct('+'))),
            r matches Ok((p, end)) ==> end == pos + 1 && toks@[pos as int]@ == TokV::Punct(
                p.marker(),
            ),
            r matches Err(e) ==> e == (CompileError::UnexpectedToken { pos }),
    {
        if peek_punct(toks, pos, '~') {
            Ok((AttrPrefix::Match, pos + 1))
        } else if peek_punct(toks, pos, '+') {
            Ok((AttrPrefix::Add, pos + 1))
        } else {
            Err(CompileError::UnexpectedToken { pos })
        }
    }
}

impl Attr {
    /// Parse one `prefix key = value` attribute.
    pub fn parse(toks: &Vec<Tok>, pos: usize) -> (r: Result<(Attr, usize), CompileError>)
        requires
            pos <= toks.len(),
        ensures
            r matches Ok((a, end)) ==> pos < end <= toks.len() && span(toks@, pos as int, end as int)
                == attr_toks(a@),
            forall|m: AttrM| #[trigger]
                starts_with(toks@, pos as int, attr_toks(m)) ==> (r matches Ok((a, end)) && a@ == m),
            r matches Err(e) ==> (e is UnexpectedToken || e is MalformedVariableReference),
            !at_marker(toks@, pos as int) ==> r == Err::<(Attr, usize), CompileError>(
                CompileError::UnexpectedToken { pos },
            ),
            at_marker(toks@, pos as int) && !(pos + 1 < toks.len() && (toks@[pos + 1]@ is Ident
                || toks@[pos + 1]@ is Str)) ==> r == Err::<(Attr, usize), CompileError>(
                CompileError::UnexpectedToken { pos: (pos + 1) as usize },
            ),
            at_marker(toks@, pos as int) && pos + 1 < toks.len() && (toks@[pos + 1]@ is Ident
                || toks@[pos + 1]@ is Str) && !(pos + 2 < toks.len() && toks@[pos + 2]@ == TokV::Punct('='))
                ==> r == Err::<(Attr, usize), CompileError>(
                CompileError::UnexpectedToken { pos: (pos + 2) as usize },
            ),
            at_marker(toks@, pos as int) && pos + 2 < toks.len() && (toks@[pos + 1]@ is Ident
                || toks@[pos + 1]@ is Str) && toks@[pos + 2]@ == TokV::Punct('=') ==> (if pos + 3
                < toks.len() && toks@[pos + 3]@ == TokV::Punct('{') {
                r is Ok || r == Err::<(Attr, usize), CompileError>(
                    CompileError::MalformedVariableReference { pos: (pos + 3) as usize },
                )
            } else if !(pos + 3 < toks.len() && toks@[pos + 3]@ is Str) {
                r == Err::<(Attr, usize), CompileError>(
                    CompileError::UnexpectedToken { pos: (pos + 3) as usize },
                )
            } else {
                r is Ok
            }),
    {
        let ghost head = |m: AttrM| seq![TokV::Punct(m.prefix.marker()), key_toks(m.key), TokV::Punct('=')];
        assert forall|m: AttrM| #[trigger] starts_with(toks@, pos as int, attr_toks(m)) implies
            starts_with(toks@, pos as int, head(m)) && starts_with(toks@, pos + 3, val_toks(m.val)) by {
            lemma_starts_with_concat(toks@, pos as int, head(m), val_toks(m.val));
        }
        assert forall|m: AttrM| #[trigger] starts_with(toks@, pos as int, head(m)) implies
            toks@[pos as int]@ == TokV::Punct(m.prefix.marker()) && toks@[pos + 1]@ == key_toks(m.key)
            && toks@[pos + 2]@ == TokV::Punct('=') by {
            lemma_starts_with_at(toks@, pos as int, head(m), 0);
            lemma_starts_with_at(toks@, pos as int, head(m), 1);
            lemma_starts_with_at(toks@, pos as int, head(m), 2);
        }
        let (attr_prefix, q1) = AttrPrefix::parse(toks, pos)?;
        let (key, q2) = IdentOrStr::parse(toks, q1)?;
        let q3 = expect_punct(toks, q2, '=')?;
        let (val, end) = StrOrVar::parse(toks, q3)?;
        let a = Attr { attr_prefix, key, val };
        proof {
            assert(span(toks@, pos as int, q3 as int) =~= head(a@));
            lemma_span_split(toks@, pos as int, q3 as int, end as int);
            assert forall|m: AttrM| #[trigger] starts_with(toks@, pos as int, attr_toks(m)) implies a@ == m by {
                assert(m.prefix.marker() == attr_prefix.marker());
            }
        }
        Ok((a, end))
    }
}

/// The token at `i` opens an attribute.
pub open spec fn at_marker(toks: Seq<Tok>, i: int) -> bool {
    0 <= i < toks.len() && (toks[i]@ == TokV::Punct('~') || toks[i]@ == TokV::Punct('+'))
}

pub proof fn lemma_attrs_toks_concat(a: Seq<AttrM>, b: Seq<AttrM>)
    ensures
        attrs_toks(a + b) == attrs_toks(a) + attrs_toks(b),
    decreases b.len(),
{
    if b.len() == 0 {
        assert(a + b =~= a);
        assert(attrs_toks(a) + attrs_toks(b) =~= attrs_toks(a));
    } else {
        lemma_attrs_toks_concat(a, b.drop_last());
        assert((a + b).drop_last() =~= a + b.drop_last());
        assert(attrs_toks(a + b) =~= attrs_toks(a) + attrs_toks(b));
    }
}

/// The attributes written before the `k`-th one are a prefix of the whole run.
pub proof fn lemma_attrs_toks_take(ms: Seq<AttrM>, k: int)
    requires
        0 <= k < ms.len(),
    ensures
        attrs_toks(ms) == attrs_toks(ms.take(k)) + attr_toks(ms[k]) + attrs_toks(ms.skip(k + 1)),
{
    assert(ms =~= ms.take(k + 1) + ms.skip(k + 1));
    lemma_attrs_toks_concat(ms.take(k + 1), ms.skip(k + 1));
    assert(ms.take(k + 1).drop_last() =~= ms.take(k));
}

impl Attr {
    /// Parse a maximal run of attributes: stop before the first token that is
    /// neither `~` nor `+`.
    pub fn parse_outer(toks: &Vec<Tok>, pos: usize) -> (r: Result<(Vec<Attr>, usize), CompileError>)
        requires
            pos <= toks.len(),
        ensures
            r matches Ok((v, end)) ==> pos <= end <= toks.len() && span(toks@, pos as int, end as int)
                == attrs_toks(attrs_view(v@)) && !at_marker(toks@, end as int),
            forall|ms: Seq<AttrM>|
                #![trigger starts_with(toks@, pos as int, attrs_toks(ms))]
                starts_with(toks@, pos as int, attrs_toks(ms)) && !at_marker(
                    toks@,
                    pos + attrs_toks(ms).len(),
                ) ==> (r matches Ok((v, end)) && attrs_view(v@) == ms),
            r matches Err(e) ==> (e is UnexpectedToken || e is MalformedVariableReference),
    {
        let mut many: Vec<Attr> = Vec::new();
        let mut cur = pos;
        assert(span(toks@, pos as int, pos as int) =~= attrs_toks(attrs_view(many@)));
        while peek_punct(toks, cur, '~') || peek_punct(toks, cur, '+')
            invariant
                pos <= cur <= toks.len(),
                span(toks@, pos as int, cur as int) == attrs_toks(attrs_view(many@)),
                forall|ms: Seq<AttrM>|
                    #![trigger starts_with(toks@, pos as int, attrs_toks(ms))]
                    starts_with(toks@, pos as int, attrs_toks(ms)) && !at_marker(
                        toks@,
                        pos + attrs_toks(ms).len(),
                    ) ==> many.len() <= ms.len() && attrs_view(many@) == ms.take(many.len() as int)
                        && cur == pos + attrs_toks(ms.take(many.len() as int)).len(),
            decreases toks.len() - cur,
        {
            let ghost k = many.len() as int;
            proof {
                assert forall|ms: Seq<AttrM>|
                    #![trigger starts_with(toks@, pos as int, attrs_toks(ms))]
                    starts_with(toks@, pos as int, attrs_toks(ms)) && !at_marker(
                        toks@,
                        pos + attrs_toks(ms).len(),
                    ) implies k < ms.len() && starts_with(toks@, cur as int, attr_toks(ms[k])) by {
                    if k == ms.len() {
                        assert(ms.take(k) =~= ms);
                    }
                    lemma_attrs_toks_take(ms, k);
                    lemma_starts_with_concat(
                        toks@,
                        pos as int,
                        attrs_toks(ms.take(k)) + attr_toks(ms[k]),
                        attrs_toks(ms.skip(k + 1)),
                    );
                    lemma_starts_with_concat(
                        toks@,
                        pos as int,
                        attrs_toks(ms.take(k)),
                        attr_toks(ms[k]),
                    );
                }
            }
            let (a, next) = Attr::parse(toks, cur)?;
            proof {
                lemma_span_split(toks@, pos as int, cur as int, next as int);
            }
            let ghost before = many@;
            many.push(a);
            proof {
                assert(many@.drop_last() =~= before);
                assert(attrs_view(many@) =~= attrs_view(before).push(a@));
                assert(attrs_view(many@).drop_last() =~= attrs_view(before));
                assert forall|ms: Seq<AttrM>|
                    #![trigger starts_with(toks@, pos as int, attrs_toks(ms))]
                    starts_with(toks@, pos as int, attrs_toks(ms)) && !at_marker(
                        toks@,
                        pos + attrs_toks(ms).len(),
                    ) implies many.len() <= ms.len() && attrs_view(many@) == ms.take(many.len() as int)
                        && next == pos + attrs_toks(ms.take(many.len() as int)).len() by {
                    assert(ms.take(k + 1) =~= ms.take(k).push(ms[k]));
                    assert(ms.take(k + 1).drop_last() =~= ms.take(k));
                }
            }
            cur = next;
        }
        proof {
            assert forall|ms: Seq<AttrM>|
                #![trigger starts_with(toks@, pos as int, attrs_toks(ms))]
                starts_with(toks@, pos as int, attrs_toks(ms)) && !at_marker(
                    toks@,
                    pos + attrs_toks(ms).len(),
                ) implies attrs_view(many@) == ms by {
                let k = many.len() as int;
                if k < ms.len() {
                    lemma_attrs_toks_take(ms, k);
                    lemma_starts_with_concat(
                        toks@,
                        pos as int,
                        attrs_toks(ms.take(k)) + attr_toks(ms[k]),
                        attrs_toks(ms.skip(k + 1)),
                    );
                    lemma_starts_with_concat(
                        toks@,
                        pos as int,
                        attrs_toks(ms.take(k)),
                        attr_toks(ms[k]),
                    );
                    lemma_starts_with_at(toks@, cur as int, attr_toks(ms[k]), 0);
                }
                assert(ms.take(k) =~= ms);
            }
        }
        Ok((many, cur))
    }
}

/// The tokens at `i` and `i + 1` open a closing tag.
pub open spec fn at_close(toks: Seq<Tok>, i: int) -> bool {
    0 <= i && i + 1 < toks.len() && toks[i]@ == TokV::Punct('<') && toks[i + 1]@ == TokV::Punct('/')
}

fn peek_close(toks: &Vec<Tok>, pos: usize) -> (r: bool)
    ensures
        r == at_close(toks@, pos as int),
{
    pos < toks.len() && pos + 1 < toks.len() && is_punct(&toks[pos], '<') && is_punct(
        &toks[pos + 1],
        '/',
    )
}

pub proof fn lemma_elems_toks_concat(a: Seq<ElemM>, b: Seq<ElemM>)
    ensures
        elems_toks(a + b) == elems_toks(a) + elems_toks(b),
    decreases b.len(),
{
    if b.len() == 0 {
        assert(a + b =~= a);
        assert(elems_toks(a) + elems_toks(b) =~= elems_toks(a));
    } else {
        lemma_elems_toks_concat(a, b.drop_last());
        assert((a + b).drop_last() =~= a + b.drop_last());
        assert(elems_toks(a + b) =~= elems_toks(a) + elems_toks(b));
    }
}

pub proof fn lemma_elems_toks_take(cs: Seq<ElemM>, k: int)
    requires
        0 <= k < cs.len(),
    ensures
        elems_toks(cs) == elems_toks(cs.take(k)) + elem_toks(cs[k]) + elems_toks(cs.skip(k + 1)),
{
    assert(cs =~= cs.take(k + 1) + cs.skip(k + 1));
    lemma_elems_toks_concat(cs.take(k + 1), cs.skip(k + 1));
    assert(cs.take(k + 1).drop_last() =~= cs.take(k));
}

pub proof fn lemma_elems_wf_index(cs: Seq<ElemM>, i: int)
    requires
        elems_wf(cs),
        0 <= i < cs.len(),
    ensures
        elem_wf(cs[i]),
    decreases cs.len(),
{
    if i < cs.len() - 1 {
        lemma_elems_wf_index(cs.drop_last(), i);
    }
}

/// How the tokens of an element that the input begins with are laid out.
pub proof fn lemma_elem_split(toks: Seq<Tok>, pos: int, m: ElemM)
    requires
        starts_with(toks, pos, elem_toks(m)),
    ensures
        toks[pos]@ == TokV::Punct('<'),
        toks[pos + 1]@ == name_tok(m.name),
        starts_with(toks, pos + 2, attrs_toks(m.attrs)),
        starts_with(toks, pos + 2 + attrs_toks(m.attrs).len(), body_toks(m.body)),
        !at_marker(toks, pos + 2 + attrs_toks(m.attrs).len()),
        pos + 2 + attrs_toks(m.attrs).len() + body_toks(m.body).len() < toks.len(),
        toks[pos + 2 + attrs_toks(m.attrs).len() + body_toks(m.body).len()]@ == TokV::Punct('>'),
        at_close(toks, pos) == false,
{
    let head = seq![TokV::Punct('<'), name_tok(m.name)];
    let a = attrs_toks(m.attrs);
    let b = body_toks(m.body);
    let tail = seq![TokV::Punct('>')];
    assert(elem_toks(m) == head + a + b + tail);
    lemma_starts_with_concat(toks, pos, head + a + b, tail);
    lemma_starts_with_concat(toks, pos, head + a, b);
    lemma_starts_with_concat(toks, pos, head, a);
    lemma_starts_with_at(toks, pos, head, 0);
    lemma_starts_with_at(toks, pos, head, 1);
    lemma_starts_with_at(toks, pos + 2 + a.len() + b.len(), tail, 0);
    lemma_starts_with_at(toks, pos + 2 + a.len(), b, 0);
    match m.body {
        BodyM::SelfClosing => {},
        BodyM::Full(cs, cn) => {
            assert(b[0] == TokV::Punct('>'));
        },
    }
}

/// How the tokens of an element without its final `>` are laid out.
pub proof fn lemma_elem_split_open(toks: Seq<Tok>, pos: int, m: ElemM)
    requires
        starts_with(toks, pos, elem_toks(m).drop_last()),
    ensures
        toks[pos]@ == TokV::Punct('<'),
        toks[pos + 1]@ == name_tok(m.name),
        starts_with(toks, pos + 2, attrs_toks(m.attrs)),
        starts_with(toks, pos + 2 + attrs_toks(m.attrs).len(), body_toks(m.body)),
        !at_marker(toks, pos + 2 + attrs_toks(m.attrs).len()),
        elem_toks(m).len() == 3 + attrs_toks(m.attrs).len() + body_toks(m.body).len(),
{
    let head = seq![TokV::Punct('<'), name_tok(m.name)];
    let a = attrs_toks(m.attrs);
    let b = body_toks(m.body);
    assert(elem_toks(m).drop_last() =~= head + a + b);
    lemma_starts_with_concat(toks, pos, head + a, b);
    lemma_starts_with_concat(toks, pos, head, a);
    lemma_starts_with_at(toks, pos, head, 0);
    lemma_starts_with_at(toks, pos, head, 1);
    lemma_starts_with_at(toks, pos + 2 + a.len(), b, 0);
    match m.body {
        BodyM::SelfClosing => {},
        BodyM::Full(cs, cn) => {
            assert(b[0] == TokV::Punct('>'));
        },
    }
}

/// How the tokens of a full body that the input begins with are laid out.
pub proof fn lemma_full_body_split(toks: Seq<Tok>, pos: int, cs: Seq<ElemM>, cn: NameM)
    requires
        starts_with(toks, pos, body_toks(BodyM::Full(cs, cn))),
    ensures
        toks[pos]@ == TokV::Punct('>'),
        starts_with(toks, pos + 1, elems_toks(cs)),
        at_close(toks, pos + 1 + elems_toks(cs).len()),
        toks[pos + 3 + elems_toks(cs).len()]@ == name_tok(cn),
{
    let head = seq![TokV::Punct('>')];
    let e = elems_toks(cs);
    let tail = seq![TokV::Punct('<'), TokV::Punct('/'), name_tok(cn)];
    assert(body_toks(BodyM::Full(cs, cn)) == head + e + tail);
    lemma_starts_with_concat(toks, pos, head + e, tail);
    lemma_starts_with_concat(toks, pos, head, e);
    lemma_starts_with_at(toks, pos, head, 0);
    lemma_starts_with_at(toks, pos + 1 + e.len(), tail, 0);
    lemma_starts_with_at(toks, pos + 1 + e.len(), tail, 1);
    lemma_starts_with_at(toks, pos + 1 + e.len(), tail, 2);
}

/// `r` fails with the closing-tag mismatch `x`, placed relative to `base`,
/// whenever there is one.
pub open spec fn reports_mismatch<T>(r: Result<T, CompileError>, x: Option<Mismatch>, base: int) -> bool {
    match x {
        Some(m) => r matches Err(CompileError::ClosingTagMismatch { expected, found, pos }) && expected@
            == m.expected && found@ == m.found && pos == base + m.offset,
        None => true,
    }
}

/// An error that parsing, rather than name resolution, reports.
pub open spec fn parse_error(e: CompileError) -> bool {
    !(e is UnresolvedParameter)
}

pub proof fn lemma_elems_mismatch_concat(a: Seq<ElemM>, b: Seq<ElemM>)
    requires
        elems_mismatch(a) is Some,
    ensures
        elems_mismatch(a + b) == elems_mismatch(a),
    decreases b.len(),
{
    if b.len() == 0 {
        assert(a + b =~= a);
    } else {
        lemma_elems_mismatch_concat(a, b.drop_last());
        assert((a + b).drop_last() =~= a + b.drop_last());
    }
}

/// The first mismatch of a run lies in its `k`-th element when the elements
/// before it have none.
pub proof fn lemma_elems_mismatch_at(cs: Seq<ElemM>, k: int)
    requires
        0 <= k < cs.len(),
        elems_mismatch(cs.take(k)) is None,
        elem_mismatch(cs[k]) is Some,
    ensures
        elems_mismatch(cs) == shift(elem_mismatch(cs[k]), elems_toks(cs.take(k)).len() as int),
{
    assert(cs.take(k + 1).drop_last() =~= cs.take(k));
    assert(cs.take(k + 1).last() == cs[k]);
    lemma_elems_mismatch_concat(cs.take(k + 1), cs.skip(k + 1));
    assert(cs.take(k + 1) + cs.skip(k + 1) =~= cs);
}

impl FME {
    /// Parse one element `< name attrs body >`.
    pub fn parse(toks: &Vec<Tok>, pos: usize) -> (r: Result<(FME, usize), CompileError>)
        requires
            pos <= toks.len(),
        ensures
            r matches Ok((e, end)) ==> pos < end <= toks.len() && span(toks@, pos as int, end as int)
                == elem_toks(e@) && elem_wf(e@),
            forall|m: ElemM| #[trigger]
                starts_with(toks@, pos as int, elem_toks(m)) && elem_wf(m) ==> (r matches Ok((e, end))
                    && e@ == m),
            forall|m: ElemM| #[trigger]
                starts_with(toks@, pos as int, elem_toks(m)) ==> reports_mismatch(r, elem_mismatch(m), pos as int),
            pos == toks.len() ==> r == Err::<(FME, usize), CompileError>(CompileError::UnexpectedToken { pos }),
            forall|m: ElemM| #[trigger]
                starts_with(toks@, pos as int, elem_toks(m).drop_last()) && elem_wf(m) && !(pos + elem_toks(
                    m,
                ).len() - 1 < toks.len() && toks@[pos + elem_toks(m).len() - 1]@ == TokV::Punct('>'))
                    ==> r == Err::<(FME, usize), CompileError>(
                    CompileError::UnexpectedToken { pos: (pos + elem_toks(m).len() - 1) as usize },
                ),
            r matches Err(CompileError::ClosingTagMismatch { expected, found, pos: p }) ==> pos <= p
                < toks.len() && toks@[p as int]@ == name_tok(found@) && found@ != NameM::Ident(expected@),
            r matches Err(e) ==> parse_error(e),
        decreases toks.len() - pos, 1nat,
    {
        proof {
            assert forall|m: ElemM| #[trigger] starts_with(toks@, pos as int, elem_toks(m)) implies
                toks@[pos as int]@ == TokV::Punct('<') && toks@[pos + 1]@ == name_tok(m.name)
                && starts_with(toks@, pos + 2, attrs_toks(m.attrs)) && !at_marker(toks@, pos + 2 + attrs_toks(m.attrs).len())
                && starts_with(toks@, pos + 2 + attrs_toks(m.attrs).len(), body_toks(m.body))
                && pos + 2 + attrs_toks(m.attrs).len() + body_toks(m.body).len() < toks.len()
                && toks@[pos + 2 + attrs_toks(m.attrs).len() + body_toks(m.body).len()]@ == TokV::Punct('>') by {
                lemma_elem_split(toks@, pos as int, m);
            }
            assert forall|m: ElemM| #[trigger] starts_with(toks@, pos as int, elem_toks(m).drop_last()) implies
                toks@[pos as int]@ == TokV::Punct('<') && toks@[pos + 1]@ == name_tok(m.name)
                && starts_with(toks@, pos + 2, attrs_toks(m.attrs)) && !at_marker(toks@, pos + 2 + attrs_toks(m.attrs).len())
                && starts_with(toks@, pos + 2 + attrs_toks(m.attrs).len(), body_toks(m.body))
                && elem_toks(m).len() == 3 + attrs_toks(m.attrs).len() + body_toks(m.body).len() by {
                lemma_elem_split_open(toks@, pos as int, m);
            }
        }
        let q1 = expect_punct(toks, pos, '<')?;
        let (name, q2) = IdentOrAny::parse(toks, q1)?;
        let (attrs, q3) = Attr::parse_outer(toks, q2)?;
        let (body, q4) = Body::parse(toks, q3, &name)?;
        let end = expect_punct(toks, q4, '>')?;
        let e = FME { name, attrs, body };
        proof {
            assert(span(toks@, pos as int, q2 as int) =~= seq![TokV::Punct('<'), name_tok(e.name@)]);
            lemma_span_split(toks@, pos as int, q2 as int, q3 as int);
            lemma_span_split(toks@, pos as int, q3 as int, q4 as int);
            lemma_span_split(toks@, pos as int, q4 as int, end as int);
            assert(span(toks@, pos as int, end as int) =~= elem_toks(e@));
        }
        Ok((e, end))
    }

    /// Parse the children of a full body: elements up to the first `< /`.
    pub fn parse_outer(toks: &Vec<Tok>, pos: usize) -> (r: Result<(Vec<FME>, usize), CompileError>)
        requires
            pos <= toks.len(),
        ensures
            r matches Ok((v, end)) ==> pos <= end <= toks.len() && span(toks@, pos as int, end as int)
                == elems_toks(fmes_view(v@)) && elems_wf(fmes_view(v@)) && at_close(toks@, end as int),
            forall|cs: Seq<ElemM>|
                #![trigger starts_with(toks@, pos as int, elems_toks(cs))]
                starts_with(toks@, pos as int, elems_toks(cs)) && elems_wf(cs) && at_close(
                    toks@,
                    pos + elems_toks(cs).len(),
                ) ==> (r matches Ok((v, end)) && fmes_view(v@) == cs),
            forall|cs: Seq<ElemM>|
                #![trigger starts_with(toks@, pos as int, elems_toks(cs))]
                starts_with(toks@, pos as int, elems_toks(cs)) && at_close(
                    toks@,
                    pos + elems_toks(cs).len(),
                ) ==> reports_mismatch(r, elems_mismatch(cs), pos as int),
            forall|cs: Seq<ElemM>|
                #![trigger starts_with(toks@, pos as int, elems_toks(cs))]
                starts_with(toks@, pos as int, elems_toks(cs)) && elems_wf(cs) && pos + elems_toks(cs).len()
                    == toks.len() ==> r == Err::<(Vec<FME>, usize), CompileError>(
                    CompileError::UnexpectedToken { pos: toks.len() },
                ),
            r matches Err(CompileError::ClosingTagMismatch { expected, found, pos: p }) ==> pos <= p
                < toks.len() && toks@[p as int]@ == name_tok(found@) && found@ != NameM::Ident(expected@),
            r matches Err(e) ==> parse_error(e),
        decreases toks.len() - pos, 2nat,
    {
        let mut fmes: Vec<FME> = Vec::new();
        let mut cur = pos;
        assert(span(toks@, pos as int, pos as int) =~= elems_toks(fmes_view(fmes@)));
        while !peek_close(toks, cur)
            invariant
                pos <= cur <= toks.len(),
                span(toks@, pos as int, cur as int) == elems_toks(fmes_view(fmes@)),
                elems_wf(fmes_view(fmes@)),
                forall|cs: Seq<ElemM>|
                    #![trigger starts_with(toks@, pos as int, elems_toks(cs))]
                    starts_with(toks@, pos as int, elems_toks(cs)) && at_close(
                        toks@,
                        pos + elems_toks(cs).len(),
                    ) ==> fmes.len() <= cs.len() && fmes_view(fmes@) == cs.take(fmes.len() as int)
                        && cur == pos + elems_toks(cs.take(fmes.len() as int)).len(),
                forall|cs: Seq<ElemM>|
                    #![trigger starts_with(toks@, pos as int, elems_toks(cs))]
                    starts_with(toks@, pos as int, elems_toks(cs)) && elems_wf(cs) && pos + elems_toks(cs).len()
                    == toks.len() ==> fmes.len() <= cs.len() && fmes_view(fmes@) == cs.take(fmes.len() as int)
                        && cur == pos + elems_toks(cs.take(fmes.len() as int)).len(),
            decreases toks.len() - cur,
        {
            let ghost k = fmes.len() as int;
            proof {
                assert forall|cs: Seq<ElemM>|
                    #![trigger starts_with(toks@, pos as int, elems_toks(cs))]
                    starts_with(toks@, pos as int, elems_toks(cs)) && at_close(
                        toks@,
                        pos + elems_toks(cs).len(),
                    ) implies k < cs.len() && starts_with(toks@, cur as int, elem_toks(cs[k])) by {
                    if k == cs.len() {
                        assert(cs.take(k) =~= cs);
                    }
                    lemma_elems_toks_take(cs, k);
                    lemma_starts_with_concat(
                        toks@,
                        pos as int,
                        elems_toks(cs.take(k)) + elem_toks(cs[k]),
                        elems_toks(cs.skip(k + 1)),
                    );
                    lemma_starts_with_concat(
                        toks@,
                        pos as int,
                        elems_toks(cs.take(k)),
                        elem_toks(cs[k]),
                    );
                }
            }
            proof {
                assert forall|cs: Seq<ElemM>|
                    #![trigger starts_with(toks@, pos as int, elems_toks(cs))]
                    starts_with(toks@, pos as int, elems_toks(cs)) && elems_wf(cs) && pos + elems_toks(cs).len()
                    == toks.len() implies (k < cs.len() && starts_with(toks@, cur as int, elem_toks(cs[k]))
                        && elem_wf(cs[k])) || (k == cs.len() && cur == toks.len()) by {
                    if k == cs.len() {
                        assert(cs.take(k) =~= cs);
                    } else {
                        lemma_elems_toks_take(cs, k);
                        lemma_starts_with_concat(
                            toks@,
                            pos as int,
                            elems_toks(cs.take(k)) + elem_toks(cs[k]),
                            elems_toks(cs.skip(k + 1)),
                        );
                        lemma_starts_with_concat(
                            toks@,
                            pos as int,
                            elems_toks(cs.take(k)),
                            elem_toks(cs[k]),
                        );
                        lemma_elems_wf_index(cs, k);
                    }
                }
            }
            let (e, next) = match FME::parse(toks, cur) {
                Ok(x) => x,
                Err(err) => {
                    proof {
                        assert forall|cs: Seq<ElemM>|
                            #![trigger starts_with(toks@, pos as int, elems_toks(cs))]
                            starts_with(toks@, pos as int, elems_toks(cs)) && at_close(
                                toks@,
                                pos + elems_toks(cs).len(),
                            ) implies !elems_wf(cs) && reports_mismatch(
                                Err::<(Vec<FME>, usize), CompileError>(err),
                                elems_mismatch(cs),
                                pos as int,
                            ) by {
                            if elems_wf(cs) {
                                lemma_elems_wf_index(cs, k);
                            }
                            lemma_elem_wf_mismatch(cs[k]);
                            lemma_elems_wf_mismatch(cs.take(k));
                            lemma_elems_mismatch_at(cs, k);
                        }
                    }
                    return Err(err);
                },
            };
            proof {
                lemma_span_split(toks@, pos as int, cur as int, next as int);
            }
            let ghost before = fmes@;
            fmes.push(e);
            proof {
                assert(fmes@.drop_last() =~= before);
                assert(fmes_view(fmes@) =~= fmes_view(before).push(e@));
                assert(fmes_view(fmes@).drop_last() =~= fmes_view(before));
                assert forall|cs: Seq<ElemM>|
                    #![trigger starts_with(toks@, pos as int, elems_toks(cs))]
                    starts_with(toks@, pos as int, elems_toks(cs)) && at_close(
                        toks@,
                        pos + elems_toks(cs).len(),
                    ) implies fmes.len() <= cs.len() && fmes_view(fmes@) == cs.take(fmes.len() as int)
                        && next == pos + elems_toks(cs.take(fmes.len() as int)).len() by {
                    lemma_elem_wf_mismatch(cs[k]);
                    assert(cs.take(k + 1) =~= cs.take(k).push(cs[k]));
                    assert(cs.take(k + 1).drop_last() =~= cs.take(k));
                }
                assert forall|cs: Seq<ElemM>|
                    #![trigger starts_with(toks@, pos as int, elems_toks(cs))]
                    starts_with(toks@, pos as int, elems_toks(cs)) && elems_wf(cs) && pos + elems_toks(cs).len()
                    == toks.len() implies fmes.len() <= cs.len() && fmes_view(fmes@) == cs.take(fmes.len() as int)
                        && next == pos + elems_toks(cs.take(fmes.len() as int)).len() by {
                    assert(cs.take(k + 1) =~= cs.take(k).push(cs[k]));
                    assert(cs.take(k + 1).drop_last() =~= cs.take(k));
                }
            }
            cur = next;
        }
        proof {
            assert forall|cs: Seq<ElemM>|
                #![trigger starts_with(toks@, pos as int, elems_toks(cs))]
                starts_with(toks@, pos as int, elems_toks(cs)) && at_close(
                    toks@,
                    pos + elems_toks(cs).len(),
                ) implies fmes_view(fmes@) == cs && elems_mismatch(cs) is None by {
                let k = fmes.len() as int;
                if k < cs.len() {
                    lemma_elems_toks_take(cs, k);
                    lemma_starts_with_concat(
                        toks@,
                        pos as int,
                        elems_toks(cs.take(k)) + elem_toks(cs[k]),
                        elems_toks(cs.skip(k + 1)),
                    );
                    lemma_starts_with_concat(
                        toks@,
                        pos as int,
                        elems_toks(cs.take(k)),
                        elem_toks(cs[k]),
                    );
                    lemma_elem_split(toks@, cur as int, cs[k]);
                }
                assert(cs.take(k) =~= cs);
                lemma_elems_wf_mismatch(cs);
            }
        }
        proof {
            assert forall|cs: Seq<ElemM>|
                #![trigger starts_with(toks@, pos as int, elems_toks(cs))]
                starts_with(toks@, pos as int, elems_toks(cs)) && elems_wf(cs) && pos + elems_toks(cs).len()
                    == toks.len() implies false by {
                let k = fmes.len() as int;
                if k < cs.len() {
                    lemma_elems_toks_take(cs, k);
                    lemma_starts_with_concat(
                        toks@,
                        pos as int,
                        elems_toks(cs.take(k)) + elem_toks(cs[k]),
                        elems_toks(cs.skip(k + 1)),
                    );
                    lemma_starts_with_concat(
                        toks@,
                        pos as int,
                        elems_toks(cs.take(k)),
                        elem_toks(cs[k]),
                    );
                    lemma_elem_split(toks@, cur as int, cs[k]);
                } else {
                    assert(cs.take(k) =~= cs);
                }
            }
        }
        Ok((fmes, cur))
    }
}

impl FullBody {
    /// Parse `> children < / name`, where the element was opened as `open`.
    pub fn parse(toks: &Vec<Tok>, pos: usize, open: &IdentOrAny) -> (r: Result<(FullBody, usize), CompileError>)
        requires
            pos <= toks.len(),
        ensures
            r matches Ok((b, end)) ==> pos < end <= toks.len() && span(toks@, pos as int, end as int)
                == body_toks(b@) && body_wf(open@, b@),
            r matches Ok((b, end)) ==> toks@[end - 1]@ == name_tok(b.closing@) && closing_ok(
                open@,
                b.closing@,
            ),
            forall|cs: Seq<ElemM>, cn: NameM| #[trigger]
                starts_with(toks@, pos as int, body_toks(BodyM::Full(cs, cn))) && body_wf(open@, BodyM::Full(cs, cn))
                    ==> (r matches Ok((b, end)) && b@ == BodyM::Full(cs, cn)),
            forall|cs: Seq<ElemM>, cn: NameM| #[trigger]
                starts_with(toks@, pos as int, body_toks(BodyM::Full(cs, cn))) && elems_wf(cs) && open@ is Ident
                    && cn != open@ ==> (r matches Err(CompileError::ClosingTagMismatch { expected, found, pos: p })
                    && open@ == NameM::Ident(expected@) && found@ == cn && p == pos + 3 + elems_toks(cs).len()),
            forall|cs: Seq<ElemM>, cn: NameM| #[trigger]
                starts_with(toks@, pos as int, body_toks(BodyM::Full(cs, cn))) ==> reports_mismatch(
                    r,
                    body_mismatch(open@, BodyM::Full(cs, cn)),
                    pos as int,
                ),
            r matches Err(e) ==> parse_error(e),
            r matches Err(CompileError::ClosingTagMismatch { expected, found, pos: p }) ==> pos <= p
                < toks.len() && toks@[p as int]@ == name_tok(found@) && found@ != NameM::Ident(expected@),
        decreases toks.len() - pos, 2nat,
    {
        proof {
            assert forall|cs: Seq<ElemM>, cn: NameM| #[trigger]
                starts_with(toks@, pos as int, body_toks(BodyM::Full(cs, cn))) implies
                toks@[pos as int]@ == TokV::Punct('>') && starts_with(toks@, pos + 1, elems_toks(cs))
                && at_close(toks@, pos + 1 + elems_toks(cs).len())
                && toks@[pos + 3 + elems_toks(cs).len()]@ == name_tok(cn)
                && (elems_wf(cs) <==> elems_mismatch(cs) is None) by {
                lemma_full_body_split(toks@, pos as int, cs, cn);
                lemma_elems_wf_mismatch(cs);
            }
        }
        let q1 = expect_punct(toks, pos, '>')?;
        let (children, q2) = FME::parse_outer(toks, q1)?;
        let q3 = expect_punct(toks, q2, '<')?;
        let q4 = expect_punct(toks, q3, '/')?;
        let (closing, end) = IdentOrAny::parse(toks, q4)?;
        let ok = match open {
            IdentOrAny::Any => true,
            IdentOrAny::Ident(o) => match &closing {
                IdentOrAny::Ident(c) => *o == *c,
                IdentOrAny::Any => false,
            },
        };
        if !ok {
            let expected = match open {
                IdentOrAny::Ident(o) => o.clone(),
                IdentOrAny::Any => String::new(),
            };
            return Err(CompileError::ClosingTagMismatch { expected, found: closing, pos: q4 });
        }
        let b = FullBody { children, closing };
        proof {
            lemma_span_split(toks@, pos as int, q1 as int, q2 as int);
            lemma_span_split(toks@, pos as int, q2 as int, end as int);
            assert(span(toks@, q2 as int, end as int) =~= seq![
                TokV::Punct('<'),
                TokV::Punct('/'),
                name_tok(b.closing@),
            ]);
            assert(span(toks@, pos as int, end as int) =~= body_toks(b@));
        }
        Ok((b, end))
    }
}

impl Body {
    /// Parse a body: `/` for a self-closing element, else a full body.
    pub fn parse(toks: &Vec<Tok>, pos: usize, open: &IdentOrAny) -> (r: Result<(Body, usize), CompileError>)
        requires
            pos <= toks.len(),
        ensures
            r matches Ok((b, end)) ==> pos < end <= toks.len() && span(toks@, pos as int, end as int)
                == body_toks(b@) && body_wf(open@, b@),
            forall|m: BodyM| #[trigger]
                starts_with(toks@, pos as int, body_toks(m)) && body_wf(open@, m) ==> (r matches Ok((b, end))
                    && b@ == m),
            forall|m: BodyM| #[trigger]
                starts_with(toks@, pos as int, body_toks(m)) ==> reports_mismatch(r, body_mismatch(open@, m), pos as int),
            r matches Err(e) ==> parse_error(e),
            r matches Err(CompileError::ClosingTagMismatch { expected, found, pos: p }) ==> pos <= p
                < toks.len() && toks@[p as int]@ == name_tok(found@) && found@ != NameM::Ident(expected@),
        decreases toks.len() - pos, 3nat,
    {
        proof {
            assert forall|m: BodyM| #[trigger] starts_with(toks@, pos as int, body_toks(m)) implies
                (toks@[pos as int]@ == TokV::Punct('/') <==> m is SelfClosing) by {
                lemma_starts_with_at(toks@, pos as int, body_toks(m), 0);
            }
        }
        if peek_punct(toks, pos, '/') {
            assert(span(toks@, pos as int, pos + 1) =~= body_toks(BodyM::SelfClosing));
            Ok((Body::SelfClosing, pos + 1))
        } else {
            match FullBody::parse(toks, pos, open) {
                Ok((b, end)) => Ok((Body::FullBody(b), end)),
                Err(e) => Err(e),
            }
        }
    }
}

/// `a` is a prefix of `b`.
pub open spec fn is_prefix(a: Seq<TokV>, b: Seq<TokV>) -> bool {
    a.len() <= b.len() && b.take(a.len() as int) == a
}

pub proof fn lemma_starts_with_prefix(toks: Seq<Tok>, pos: int, a: Seq<TokV>, b: Seq<TokV>)
    requires
        starts_with(toks, pos, b),
        is_prefix(a, b),
    ensures
        starts_with(toks, pos, a),
{
    lemma_starts_with_concat(toks, pos, a, b.skip(a.len() as int));
    assert(a + b.skip(a.len() as int) =~= b);
}

/// The first `j` parameters are written as a prefix of the whole list.
pub proof fn lemma_args_toks_prefix(s: Seq<Seq<char>>, j: int)
    requires
        1 <= j <= s.len(),
    ensures
        is_prefix(args_toks(s.take(j)), args_toks(s)),
    decreases s.len(),
{
    if j == s.len() {
        assert(s.take(j) =~= s);
        assert(args_toks(s).take(args_toks(s).len() as int) =~= args_toks(s));
    } else {
        lemma_args_toks_prefix(s.drop_last(), j);
        assert(s.drop_last().take(j) =~= s.take(j));
        let a = args_toks(s.take(j));
        let b = args_toks(s.drop_last());
        assert(args_toks(s) == b + seq![TokV::Punct(','), TokV::Ident(s.last())]);
        assert(args_toks(s).take(a.len() as int) =~= b.take(a.len() as int));
    }
}

pub proof fn lemma_args_toks_step(s: Seq<Seq<char>>, k: int)
    requires
        1 <= k < s.len(),
    ensures
        args_toks(s.take(k + 1)) == args_toks(s.take(k)) + seq![TokV::Punct(','), TokV::Ident(s[k])],
{
    assert(s.take(k + 1).drop_last() =~= s.take(k));
}

/// Does `v` hold a string equal to `s`?
pub fn contains_name(v: &Vec<String>, s: &String) -> (r: bool)
    ensures
        r == (exists|i: int| 0 <= i < v.len() && v@[i]@ == s@),
{
    let mut i: usize = 0;
    while i < v.len()
        invariant
            i <= v.len(),
            forall|j: int| 0 <= j < i ==> v@[j]@ != s@,
        decreases v.len() - i,
    {
        if v[i] == *s {
            return true;
        }
        i = i + 1;
    }
    false
}

/// Parse a parameter list `[Ident ("," Ident)*]`, which ends before `)`.
/// A parameter that repeats an earlier one is rejected.
#[verifier::rlimit(40)]
pub fn parse_args(toks: &Vec<Tok>, pos: usize) -> (r: Result<(Vec<String>, usize), CompileError>)
    requires
        pos <= toks.len(),
    ensures
        r matches Ok((v, end)) ==> pos <= end < toks.len() && span(toks@, pos as int, end as int)
            == args_toks(strs_view(v@)) && names_distinct(strs_view(v@)) && toks@[end as int]@
            == TokV::Punct(')'),
        forall|s: Seq<Seq<char>>|
            #![trigger starts_with(toks@, pos as int, args_toks(s))]
            starts_with(toks@, pos as int, args_toks(s)) && pos + args_toks(s).len()
                < toks.len() && toks@[pos + args_toks(s).len()]@ == TokV::Punct(')') ==> if names_distinct(s) {
                r matches Ok((v, end)) && strs_view(v@) == s
            } else {
                r matches Err(e) && e is DuplicateParameter
            },
        forall|s: Seq<Seq<char>>|
            #![trigger starts_with(toks@, pos as int, args_toks(s))]
            starts_with(toks@, pos as int, args_toks(s)) && s.len() > 0 && names_distinct(s) && !(pos
                + args_toks(s).len() < toks.len() && (toks@[pos + args_toks(s).len()]@ == TokV::Punct(',')
                || toks@[pos + args_toks(s).len()]@ == TokV::Punct(')'))) ==> r == Err::<(Vec<String>, usize), CompileError>(
                CompileError::UnexpectedToken { pos: (pos + args_toks(s).len()) as usize },
            ),
        r matches Err(e) ==> (e is UnexpectedToken || e is DuplicateParameter),
{
    let mut args: Vec<String> = Vec::new();
    if peek_punct(toks, pos, ')') {
        proof {
            assert(span(toks@, pos as int, pos as int) =~= args_toks(strs_view(args@)));
            assert forall|s: Seq<Seq<char>>|
                #![trigger starts_with(toks@, pos as int, args_toks(s))]
                starts_with(toks@, pos as int, args_toks(s)) implies s.len() == 0 by {
                if s.len() > 0 {
                    lemma_args_toks_prefix(s, 1);
                    lemma_starts_with_prefix(toks@, pos as int, args_toks(s.take(1)), args_toks(s));
                    lemma_starts_with_at(toks@, pos as int, args_toks(s.take(1)), 0);
                }
            }
            assert(strs_view(args@) =~= Seq::<Seq<char>>::empty());
        }
        return Ok((args, pos));
    }
    proof {
        assert forall|s: Seq<Seq<char>>|
            #![trigger starts_with(toks@, pos as int, args_toks(s))]
            starts_with(toks@, pos as int, args_toks(s)) && pos + args_toks(s).len()
                < toks.len() && toks@[pos + args_toks(s).len()]@ == TokV::Punct(')')
            implies s.len() > 0 && starts_with(toks@, pos as int, args_toks(s.take(1))) && pos < toks.len()
                && toks@[pos as int]@ == TokV::Ident(s[0]) by {
            if s.len() > 0 {
                lemma_args_toks_prefix(s, 1);
                lemma_starts_with_prefix(toks@, pos as int, args_toks(s.take(1)), args_toks(s));
                lemma_starts_with_at(toks@, pos as int, args_toks(s.take(1)), 0);
            }
        }
    }
    proof {
        assert forall|s: Seq<Seq<char>>|
            #![trigger starts_with(toks@, pos as int, args_toks(s))]
            starts_with(toks@, pos as int, args_toks(s)) && s.len() > 0
            implies starts_with(toks@, pos as int, args_toks(s.take(1))) && pos < toks.len()
                && toks@[pos as int]@ == TokV::Ident(s[0]) by {
            lemma_args_toks_prefix(s, 1);
            lemma_starts_with_prefix(toks@, pos as int, args_toks(s.take(1)), args_toks(s));
            lemma_starts_with_at(toks@, pos as int, args_toks(s.take(1)), 0);
        }
    }
    let (first, q1) = parse_ident(toks, pos)?;
    args.push(first);
    let mut cur = q1;
    proof {
        assert(strs_view(args@) =~= seq![first@]);
        assert forall|s: Seq<Seq<char>>|
            #![trigger starts_with(toks@, pos as int, args_toks(s))]
            starts_with(toks@, pos as int, args_toks(s)) && s.len() > 0 && !(pos + args_toks(s).len() < toks.len() && toks@[pos + args_toks(s).len()]@ == TokV::Punct(','))
            implies strs_view(args@) == s.take(1) by {
            lemma_starts_with_at(toks@, pos as int, args_toks(s.take(1)), 0);
            assert(s.take(1) =~= seq![s[0]]);
        }
    }
    while peek_punct(toks, cur, ',')
        invariant
            pos < cur <= toks.len(),
            toks@[pos as int]@ != TokV::Punct(')'),
            args.len() >= 1,
            span(toks@, pos as int, cur as int) == args_toks(strs_view(args@)),
            names_distinct(strs_view(args@)),
            forall|s: Seq<Seq<char>>|
                #![trigger starts_with(toks@, pos as int, args_toks(s))]
                starts_with(toks@, pos as int, args_toks(s)) && s.len() > 0 && !(pos + args_toks(s).len() < toks.len() && toks@[pos + args_toks(s).len()]@ == TokV::Punct(',')) ==> args.len()
                    <= s.len() && strs_view(args@) == s.take(args.len() as int) && cur == pos
                    + args_toks(s.take(args.len() as int)).len(),
        decreases toks.len() - cur,
    {
        let ghost k = args.len() as int;
        proof {
            assert forall|s: Seq<Seq<char>>|
                #![trigger starts_with(toks@, pos as int, args_toks(s))]
                starts_with(toks@, pos as int, args_toks(s)) && s.len() > 0 && !(pos + args_toks(s).len() < toks.len() && toks@[pos + args_toks(s).len()]@ == TokV::Punct(','))
                implies k < s.len() && cur + 1 < toks.len() && toks@[cur + 1]@ == TokV::Ident(s[k]) by {
                if k == s.len() {
                    assert(s.take(k) =~= s);
                }
                lemma_args_toks_prefix(s, k + 1);
                lemma_args_toks_step(s, k);
                lemma_starts_with_prefix(toks@, pos as int, args_toks(s.take(k + 1)), args_toks(s));
                lemma_starts_with_concat(toks@, pos as int, args_toks(s.take(k)), seq![TokV::Punct(','), TokV::Ident(s[k])]);
                lemma_starts_with_at(toks@, cur as int, seq![TokV::Punct(','), TokV::Ident(s[k])], 1);
            }
        }
        let q2 = cur + 1;
        let (name, q3) = parse_ident(toks, q2)?;
        if contains_name(&args, &name) {
            proof {
                assert forall|s: Seq<Seq<char>>|
                    #![trigger starts_with(toks@, pos as int, args_toks(s))]
                    starts_with(toks@, pos as int, args_toks(s)) && s.len() > 0 && !(pos + args_toks(s).len() < toks.len() && toks@[pos + args_toks(s).len()]@ == TokV::Punct(','))
                    implies !names_distinct(s) by {
                    let i = choose|i: int| 0 <= i < args.len() && args@[i]@ == name@;
                    assert(strs_view(args@)[i] == s.take(k)[i]);
                    assert(s[i] == s[k]);
                }
            }
            return Err(CompileError::DuplicateParameter { pos: q2 });
        }
        proof {
            lemma_span_split(toks@, pos as int, cur as int, q3 as int);
            assert(span(toks@, cur as int, q3 as int) =~= seq![TokV::Punct(','), TokV::Ident(name@)]);
        }
        let ghost before = args@;
        args.push(name);
        proof {
            assert(strs_view(args@) =~= strs_view(before).push(name@));
            assert(strs_view(args@).drop_last() =~= strs_view(before));
            assert forall|s: Seq<Seq<char>>|
                #![trigger starts_with(toks@, pos as int, args_toks(s))]
                starts_with(toks@, pos as int, args_toks(s)) && s.len() > 0 && !(pos + args_toks(s).len() < toks.len() && toks@[pos + args_toks(s).len()]@ == TokV::Punct(','))
                implies args.len() <= s.len() && strs_view(args@) == s.take(args.len() as int) && q3 == pos
                    + args_toks(s.take(args.len() as int)).len() by {
                lemma_args_toks_step(s, k);
                assert(s.take(k + 1) =~= s.take(k).push(s[k]));
            }
        }
        cur = q3;
    }
    proof {
        assert forall|s: Seq<Seq<char>>|
            #![trigger starts_with(toks@, pos as int, args_toks(s))]
            starts_with(toks@, pos as int, args_toks(s)) && s.len() > 0 && !(pos + args_toks(s).len() < toks.len() && toks@[pos + args_toks(s).len()]@ == TokV::Punct(','))
            implies strs_view(args@) == s && names_distinct(s) by {
            let k = args.len() as int;
            if k < s.len() {
                lemma_args_toks_prefix(s, k + 1);
                lemma_args_toks_step(s, k);
                lemma_starts_with_prefix(toks@, pos as int, args_toks(s.take(k + 1)), args_toks(s));
                lemma_starts_with_concat(toks@, pos as int, args_toks(s.take(k)), seq![TokV::Punct(','), TokV::Ident(s[k])]);
                lemma_starts_with_at(toks@, cur as int, seq![TokV::Punct(','), TokV::Ident(s[k])], 0);
            }
            assert(s.take(k) =~= s);
        }
    }
    if !peek_punct(toks, cur, ')') {
        return Err(CompileError::UnexpectedToken { pos: cur });
    }
    Ok((args, cur))
}

/// How the tokens of a declaration that the input begins with are laid out.
pub proof fn lemma_mixin_split(toks: Seq<Tok>, pos: int, m: MixinM)
    requires
        starts_with(toks, pos, mixin_toks(m)),
    ensures
        toks[pos]@ == TokV::Ident(m.name),
        toks[pos + 1]@ == TokV::Punct('('),
        starts_with(toks, pos + 2, args_toks(m.args)),
        pos + 2 + args_toks(m.args).len() + 1 < toks.len(),
        toks[pos + 2 + args_toks(m.args).len()]@ == TokV::Punct(')'),
        toks[pos + 3 + args_toks(m.args).len()]@ == TokV::Punct(','),
        starts_with(toks, pos + 4 + args_toks(m.args).len(), elem_toks(m.root)),
{
    let head = seq![TokV::Ident(m.name), TokV::Punct('(')];
    let a = args_toks(m.args);
    let mid = seq![TokV::Punct(')'), TokV::Punct(',')];
    let e = elem_toks(m.root);
    lemma_starts_with_concat(toks, pos, head + a + mid, e);
    lemma_starts_with_concat(toks, pos, head + a, mid);
    lemma_starts_with_concat(toks, pos, head, a);
    lemma_starts_with_at(toks, pos, head, 0);
    lemma_starts_with_at(toks, pos, head, 1);
    lemma_starts_with_at(toks, pos + 2 + a.len(), mid, 0);
    lemma_starts_with_at(toks, pos + 2 + a.len(), mid, 1);
}

impl Mixin {
    /// Parse a declaration `name ( params ) , element`.
    pub fn parse(toks: &Vec<Tok>, pos: usize) -> (r: Result<(Mixin, usize), CompileError>)
        requires
            pos <= toks.len(),
        ensures
            r matches Ok((m, end)) ==> pos < end <= toks.len() && span(toks@, pos as int, end as int)
                == mixin_toks(m@) && mixin_wf(m@),
            forall|mm: MixinM| #[trigger]
                starts_with(toks@, pos as int, mixin_toks(mm)) && mixin_wf(mm) ==> (r matches Ok((m, end))
                    && m@ == mm),
            forall|mm: MixinM| #[trigger]
                starts_with(toks@, pos as int, mixin_toks(mm)) && !names_distinct(mm.args) ==> (r matches Err(
                    e,
                ) && e is DuplicateParameter),
            forall|mm: MixinM| #[trigger]
                starts_with(toks@, pos as int, mixin_toks(mm)) && names_distinct(mm.args) ==> reports_mismatch(
                    r,
                    elem_mismatch(mm.root),
                    pos + 4 + args_toks(mm.args).len(),
                ),
            !(pos < toks.len() && toks@[pos as int]@ is Ident) ==> r == Err::<(Mixin, usize), CompileError>(
                CompileError::UnexpectedToken { pos },
            ),
            pos < toks.len() && toks@[pos as int]@ is Ident && !(pos + 1 < toks.len() && toks@[pos + 1]@
                == TokV::Punct('(')) ==> r == Err::<(Mixin, usize), CompileError>(
                CompileError::UnexpectedToken { pos: (pos + 1) as usize },
            ),
            forall|s: Seq<Seq<char>>|
                #![trigger starts_with(toks@, pos + 2, args_toks(s))]
                pos + 1 < toks.len() && toks@[pos as int]@ is Ident && toks@[pos + 1]@ == TokV::Punct('(')
                    && starts_with(toks@, pos + 2, args_toks(s)) && s.len() > 0 && names_distinct(s) && !(pos
                    + 2 + args_toks(s).len() < toks.len() && (toks@[pos + 2 + args_toks(s).len()]@
                    == TokV::Punct(',') || toks@[pos + 2 + args_toks(s).len()]@ == TokV::Punct(')')))
                    ==> r == Err::<(Mixin, usize), CompileError>(
                    CompileError::UnexpectedToken { pos: (pos + 2 + args_toks(s).len()) as usize },
                ),
            forall|s: Seq<Seq<char>>|
                #![trigger starts_with(toks@, pos + 2, args_toks(s))]
                pos + 1 < toks.len() && toks@[pos as int]@ is Ident && toks@[pos + 1]@ == TokV::Punct('(')
                    && starts_with(toks@, pos + 2, args_toks(s)) && names_distinct(s) && pos + 2
                    + args_toks(s).len() < toks.len() && toks@[pos + 2 + args_toks(s).len()]@ == TokV::Punct(
                    ')',
                ) && !(pos + 3 + args_toks(s).len() < toks.len() && toks@[pos + 3 + args_toks(s).len()]@
                    == TokV::Punct(',')) ==> r == Err::<(Mixin, usize), CompileError>(
                    CompileError::UnexpectedToken { pos: (pos + 3 + args_toks(s).len()) as usize },
                ),
            r matches Err(e) ==> parse_error(e),
    {
        proof {
            assert forall|mm: MixinM| #[trigger] starts_with(toks@, pos as int, mixin_toks(mm)) implies
                toks@[pos as int]@ == TokV::Ident(mm.name) && toks@[pos + 1]@ == TokV::Punct('(')
                && starts_with(toks@, pos + 2, args_toks(mm.args))
                && pos + 2 + args_toks(mm.args).len() + 1 < toks.len()
                && toks@[pos + 2 + args_toks(mm.args).len()]@ == TokV::Punct(')')
                && toks@[pos + 3 + args_toks(mm.args).len()]@ == TokV::Punct(',')
                && starts_with(toks@, pos + 4 + args_toks(mm.args).len(), elem_toks(mm.root)) by {
                lemma_mixin_split(toks@, pos as int, mm);
            }
        }
        let (name, q1) = parse_ident(toks, pos)?;
        let q2 = expect_punct(toks, q1, '(')?;
        let (args, q3) = parse_args(toks, q2)?;
        let q4 = expect_punct(toks, q3, ')')?;
        let q5 = expect_punct(toks, q4, ',')?;
        let (fme, end) = FME::parse(toks, q5)?;
        let m = Mixin { name, args, fme };
        proof {
            assert(span(toks@, pos as int, q2 as int) =~= seq![TokV::Ident(m.name@), TokV::Punct('(')]);
            lemma_span_split(toks@, pos as int, q2 as int, q3 as int);
            lemma_span_split(toks@, pos as int, q3 as int, q5 as int);
            lemma_span_split(toks@, q3 as int, q4 as int, q5 as int);
            lemma_span_split(toks@, pos as int, q5 as int, end as int);
            assert(span(toks@, pos as int, end as int) =~= mixin_toks(m@));
        }
        Ok((m, end))
    }
}

/// Parse a whole input as one declaration; tokens left after it are an error.
pub fn parse_mixin(toks: &Vec<Tok>) -> (r: Result<Mixin, CompileError>)
    ensures
        r matches Ok(m) ==> toks_view(toks@) == mixin_toks(m@) && mixin_wf(m@),
        forall|mm: MixinM| #[trigger]
            mixin_toks(mm) == toks_view(toks@) && mixin_wf(mm) ==> (r matches Ok(m) && m@ == mm),
        forall|mm: MixinM| #[trigger]
            mixin_toks(mm) == toks_view(toks@) && !names_distinct(mm.args) ==> (r matches Err(e)
                && e is DuplicateParameter),
        forall|mm: MixinM| #[trigger]
            mixin_toks(mm) == toks_view(toks@) && names_distinct(mm.args) ==> reports_mismatch(
                r,
                elem_mismatch(mm.root),
                4 + args_toks(mm.args).len() as int,
            ),
        forall|mm: MixinM| #[trigger]
            starts_with(toks@, 0, mixin_toks(mm)) && mixin_wf(mm) && mixin_toks(mm).len() < toks.len()
                ==> r == Err::<Mixin, CompileError>(
                CompileError::UnexpectedToken { pos: mixin_toks(mm).len() as usize },
            ),
        r matches Err(e) ==> parse_error(e),
{
    proof {
        assert forall|mm: MixinM| #[trigger] mixin_toks(mm) == toks_view(toks@) implies starts_with(
            toks@,
            0,
            mixin_toks(mm),
        ) by {
            assert(toks_view(toks@).subrange(0, toks.len() as int) =~= toks_view(toks@));
        }
    }
    match Mixin::parse(toks, 0) {
        Ok((m, end)) => {
            if end < toks.len() {
                proof {
                    assert forall|mm: MixinM| #[trigger]
                        mixin_toks(mm) == toks_view(toks@) && mixin_wf(mm) implies false by {
                        assert(toks_view(toks@).subrange(0, toks.len() as int) =~= toks_view(toks@));
                        assert(starts_with(toks@, 0, mixin_toks(mm)));
                    }
                }
                return Err(CompileError::UnexpectedToken { pos: end });
            }
            proof {
                assert forall|mm: MixinM| #[trigger]
                    mixin_toks(mm) == toks_view(toks@) && mixin_wf(mm) implies m@ == mm by {
                    assert(toks_view(toks@).subrange(0, toks.len() as int) =~= toks_view(toks@));
                    assert(starts_with(toks@, 0, mixin_toks(mm)));
                }
            }
            assert(toks_view(toks@).subrange(0, toks.len() as int) =~= toks_view(toks@));
            Ok(m)
        },
        Err(e) => {
            proof {
                assert forall|mm: MixinM| #[trigger]
                    mixin_toks(mm) == toks_view(toks@) && mixin_wf(mm) implies false by {
                    assert(toks_view(toks@).subrange(0, toks.len() as int) =~= toks_view(toks@));
                    assert(starts_with(toks@, 0, mixin_toks(mm)));
                }
            }
            Err(e)
        },
    }
}

} // verus!
