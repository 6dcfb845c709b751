use vstd::prelude::*;
use crate::token::TokV;

verus! {

/// Whether an attribute is a match predicate (`~`) or an edit operation (`+`).
#[derive(PartialEq, Eq, Structural, Clone, Copy, Debug)]
pub enum AttrPrefix {
    Match,
    Add,
}

impl AttrPrefix {
    /// The character that writes this prefix.
    pub open spec fn marker(self) -> char {
        match self {
            AttrPrefix::Match => '~',
            AttrPrefix::Add => '+',
        }
    }

    /// Is this a match prefix?
    pub fn is_match(&self) -> (r: bool)
        ensures
            r == (*self == AttrPrefix::Match),
    {
        match self {
            AttrPrefix::Match => true,
            AttrPrefix::Add => false,
        }
    }
}

/// A variable placeholder `{{name}}`, naming a parameter of the declaration.
#[derive(Debug, PartialEq, Eq)]
pub struct Var {
    pub var: String,
}

/// An attribute value: a literal string or a variable placeholder.
#[derive(Debug, PartialEq, Eq)]
pub enum StrOrVar {
    Str(String),
    Var(Var),
}

/// An attribute key: a bare identifier or a quoted string.
#[derive(Debug, PartialEq, Eq)]
pub enum IdentOrStr {
    Ident(String),
    Str(String),
}

/// A tag name: an identifier or the wildcard `?`.
#[derive(Debug, PartialEq, Eq)]
pub enum IdentOrAny {
    Ident(String),
    Any,
}

/// One `prefix key = value` attribute.
#[derive(Debug, PartialEq, Eq)]
pub struct Attr {
    pub attr_prefix: AttrPrefix,
    pub key: IdentOrStr,
    pub val: StrOrVar,
}

/// The children and closing tag name of an element that is not self-closing.
#[derive(Debug, PartialEq, Eq)]
pub struct FullBody {
    pub children: Vec<FME>,
    pub closing: IdentOrAny,
}

/// The body of an element.
#[derive(Debug, PartialEq, Eq)]
pub enum Body {
    SelfClosing,
    FullBody(FullBody),
}

/// A find/match/edit element pattern.
#[derive(Debug, PartialEq, Eq)]
pub struct FME {
    pub name: IdentOrAny,
    pub attrs: Vec<Attr>,
    pub body: Body,
}

/// A named, parameterized declaration with its root element pattern.
#[derive(Debug, PartialEq, Eq)]
pub struct Mixin {
    pub name: String,
    pub args: Vec<String>,
    pub fme: FME,
}

// ---------------------------------------------------------------------------
// Mathematical model of the syntax tree.

pub enum KeyM {
    Ident(Seq<char>),
    Str(Seq<char>),
}

pub enum ValM {
    Str(Seq<char>),
    Var(Seq<char>),
}

pub enum NameM {
    Ident(Seq<char>),
    Any,
}

pub struct AttrM {
    pub prefix: AttrPrefix,
    pub key: KeyM,
    pub val: ValM,
}

pub enum BodyM {
    SelfClosing,
    Full(Seq<ElemM>, NameM),
}

pub struct ElemM {
    pub name: NameM,
    pub attrs: Seq<AttrM>,
    pub body: BodyM,
}

pub struct MixinM {
    pub name: Seq<char>,
    pub args: Seq<Seq<char>>,
    pub root: ElemM,
}

impl KeyM {
    /// The attribute name that the key denotes.
    pub open spec fn text(self) -> Seq<char> {
        match self {
            KeyM::Ident(s) => s,
            KeyM::Str(s) => s,
        }
    }
}

impl View for IdentOrStr {
    type V = KeyM;

    open spec fn view(&self) -> KeyM {
        match self {
            IdentOrStr::Ident(s) => KeyM::Ident(s@),
            IdentOrStr::Str(s) => KeyM::Str(s@),
        }
    }
}

impl View for StrOrVar {
    type V = ValM;

    open spec fn view(&self) -> ValM {
        match self {
            StrOrVar::Str(s) => ValM::Str(s@),
            StrOrVar::Var(v) => ValM::Var(v.var@),
        }
    }
}

impl View for IdentOrAny {
    type V = NameM;

    open spec fn view(&self) -> NameM {
        match self {
            IdentOrAny::Ident(s) => NameM::Ident(s@),
            IdentOrAny::Any => NameM::Any,
        }
    }
}

impl View for Attr {
    type V = AttrM;

    open spec fn view(&self) -> AttrM {
        AttrM { prefix: self.attr_prefix, key: self.key@, val: self.val@ }
    }
}

pub open spec fn attrs_view(s: Seq<Attr>) -> Seq<AttrM> {
    s.map_values(|a: Attr| a@)
}

pub open spec fn fmes_view(s: Seq<FME>) -> Seq<ElemM>
    decreases s,
{
    if s.len() == 0 {
        Seq::empty()
    } else {
        fmes_view(s.drop_last()).push(s.last().view())
    }
}

impl View for FullBody {
    type V = BodyM;

    open spec fn view(&self) -> BodyM
        decreases self,
    {
        BodyM::Full(fmes_view(self.children@), self.closing@)
    }
}

impl View for Body {
    type V = BodyM;

    open spec fn view(&self) -> BodyM
        decreases self,
    {
        match self {
            Body::SelfClosing => BodyM::SelfClosing,
            Body::FullBody(b) => b@,
        }
    }
}

impl View for FME {
    type V = ElemM;

    open spec fn view(&self) -> ElemM
        decreases self,
    {
        ElemM {
            name: self.name@,
            attrs: attrs_view(self.attrs@),
            body: self.body@,
        }
    }
}

impl View for Mixin {
    type V = MixinM;

    open spec fn view(&self) -> MixinM {
        MixinM {
            name: self.name@,
            args: strs_view(self.args@),
            root: self.fme@,
        }
    }
}

// ---------------------------------------------------------------------------
// The grammar, stated as the token sequence that each tree is written as.

/// `Ident | StringLit`
pub open spec fn key_toks(k: KeyM) -> TokV {
    match k {
        KeyM::Ident(s) => TokV::Ident(s),
        KeyM::Str(s) => TokV::Str(s),
    }
}

/// `Value := StringLit | "{" "{" Ident "}" "}"`
pub open spec fn val_toks(v: ValM) -> Seq<TokV> {
    match v {
        ValM::Str(s) => seq![TokV::Str(s)],
        ValM::Var(n) => seq![
            TokV::Punct('{'),
            TokV::Punct('{'),
            TokV::Ident(n),
            TokV::Punct('}'),
            TokV::Punct('}'),
        ],
    }
}

/// `TagName := Ident | "?"`
pub open spec fn name_tok(n: NameM) -> TokV {
    match n {
        NameM::Ident(s) => TokV::Ident(s),
        NameM::Any => TokV::Punct('?'),
    }
}

/// `Attr := ("~" | "+") (Ident | StringLit) "=" Value`
pub open spec fn attr_toks(a: AttrM) -> Seq<TokV> {
    seq![TokV::Punct(a.prefix.marker()), key_toks(a.key), TokV::Punct('=')] + val_toks(a.val)
}

/// `Attr*`
pub open spec fn attrs_toks(s: Seq<AttrM>) -> Seq<TokV>
    decreases s.len(),
{
    if s.len() == 0 {
        Seq::empty()
    } else {
        attrs_toks(s.drop_last()) + attr_toks(s.last())
    }
}

/// `Element := "<" TagName Attr* Body ">"`
pub open spec fn elem_toks(e: ElemM) -> Seq<TokV>
    decreases e,
{
    seq![TokV::Punct('<'), name_tok(e.name)] + attrs_toks(e.attrs) + body_toks(e.body) + seq![
        TokV::Punct('>'),
    ]
}

/// `Body := "/" | ">" Element* "<" "/" TagName`
pub open spec fn body_toks(b: BodyM) -> Seq<TokV>
    decreases b,
{
    match b {
        BodyM::SelfClosing => seq![TokV::Punct('/')],
        BodyM::Full(cs, cn) => seq![TokV::Punct('>')] + elems_toks(cs) + seq![
            TokV::Punct('<'),
            TokV::Punct('/'),
            name_tok(cn),
        ],
    }
}

/// `Element*`
pub open spec fn elems_toks(s: Seq<ElemM>) -> Seq<TokV>
    decreases s,
{
    if s.len() == 0 {
        Seq::empty()
    } else {
        elems_toks(s.drop_last()) + elem_toks(s.last())
    }
}

/// `Ident ("," Ident)*`, or nothing.
pub open spec fn args_toks(s: Seq<Seq<char>>) -> Seq<TokV>
    decreases s.len(),
{
    if s.len() == 0 {
        Seq::empty()
    } else if s.len() == 1 {
        seq![TokV::Ident(s[0])]
    } else {
        args_toks(s.drop_last()) + seq![TokV::Punct(','), TokV::Ident(s.last())]
    }
}

/// `MixinDecl := Ident "(" [Ident ("," Ident)*] ")" "," Element`
pub open spec fn mixin_toks(m: MixinM) -> Seq<TokV> {
    seq![TokV::Ident(m.name), TokV::Punct('(')] + args_toks(m.args) + seq![
        TokV::Punct(')'),
        TokV::Punct(','),
    ] + elem_toks(m.root)
}

/// A closing tag agrees with its opening tag: a concrete name must be closed by
/// the same name; a wildcard may be closed by any name.
pub open spec fn closing_ok(open: NameM, close: NameM) -> bool {
    open is Ident ==> close == open
}

/// Every element of the tree has a matching closing tag.
pub open spec fn elem_wf(e: ElemM) -> bool
    decreases e,
{
    body_wf(e.name, e.body)
}

/// The body of an element named `open` is closed properly, and so are its
/// children.
pub open spec fn body_wf(open: NameM, b: BodyM) -> bool
    decreases b,
{
    match b {
        BodyM::SelfClosing => true,
        BodyM::Full(cs, cn) => closing_ok(open, cn) && elems_wf(cs),
    }
}

pub open spec fn elems_wf(s: Seq<ElemM>) -> bool
    decreases s,
{
    if s.len() == 0 {
        true
    } else {
        elems_wf(s.drop_last()) && elem_wf(s.last())
    }
}

/// No name occurs twice.
pub open spec fn names_distinct(s: Seq<Seq<char>>) -> bool {
    forall|i: int, j: int| 0 <= i < j < s.len() ==> s[i] != s[j]
}

/// A declaration is well formed when its tree is and its parameters are unique.
pub open spec fn mixin_wf(m: MixinM) -> bool {
    &&& elem_wf(m.root)
    &&& names_distinct(m.args)
}

/// A closing tag that does not match its opening tag: the opening name, the
/// closing name, and the closing name's token offset.
pub struct Mismatch {
    pub expected: Seq<char>,
    pub found: NameM,
    pub offset: int,
}

pub open spec fn shift(x: Option<Mismatch>, d: int) -> Option<Mismatch> {
    match x {
        Some(m) => Some(Mismatch { expected: m.expected, found: m.found, offset: m.offset + d }),
        None => None,
    }
}

pub open spec fn name_text(n: NameM) -> Seq<char> {
    match n {
        NameM::Ident(s) => s,
        NameM::Any => Seq::empty(),
    }
}

/// The first closing tag, in source order, of an element's body (its
/// children's and then its own) that does not match; offsets count from the
/// body's first token.
pub open spec fn body_mismatch(open: NameM, b: BodyM) -> Option<Mismatch>
    decreases b,
{
    match b {
        BodyM::SelfClosing => None,
        BodyM::Full(cs, cn) => match elems_mismatch(cs) {
            Some(x) => shift(Some(x), 1),
            None => if closing_ok(open, cn) {
                None
            } else {
                Some(Mismatch { expected: name_text(open), found: cn, offset: 3 + elems_toks(cs).len() as int })
            },
        },
    }
}

/// The first mismatching closing tag of an element; offsets count from its `<`.
pub open spec fn elem_mismatch(e: ElemM) -> Option<Mismatch>
    decreases e,
{
    shift(body_mismatch(e.name, e.body), 2 + attrs_toks(e.attrs).len() as int)
}

/// The first mismatching closing tag of a run of elements.
pub open spec fn elems_mismatch(s: Seq<ElemM>) -> Option<Mismatch>
    decreases s,
{
    if s.len() == 0 {
        None
    } else {
        match elems_mismatch(s.drop_last()) {
            Some(x) => Some(x),
            None => shift(elem_mismatch(s.last()), elems_toks(s.drop_last()).len() as int),
        }
    }
}

pub proof fn lemma_body_wf_mismatch(open: NameM, b: BodyM)
    ensures
        body_wf(open, b) <==> body_mismatch(open, b) is None,
    decreases b,
{
    if let BodyM::Full(cs, cn) = b {
        lemma_elems_wf_mismatch(cs);
    }
}

pub proof fn lemma_elem_wf_mismatch(e: ElemM)
    ensures
        elem_wf(e) <==> elem_mismatch(e) is None,
    decreases e,
{
    lemma_body_wf_mismatch(e.name, e.body);
}

pub proof fn lemma_elems_wf_mismatch(s: Seq<ElemM>)
    ensures
        elems_wf(s) <==> elems_mismatch(s) is None,
    decreases s,
{
    if s.len() > 0 {
        lemma_elems_wf_mismatch(s.drop_last());
        lemma_elem_wf_mismatch(s.last());
    }
}

pub open spec fn strs_view(s: Seq<String>) -> Seq<Seq<char>> {
    s.map_values(|x: String| x@)
}

} // verus!
