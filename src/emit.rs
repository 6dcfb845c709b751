use vstd::prelude::*;
use crate::token::{Tok, toks_view};
use crate::ast::{
    AttrPrefix, StrOrVar, IdentOrStr, IdentOrAny, Body, FullBody, FME, Mixin, ValM, NameM, AttrM,
    BodyM, ElemM, MixinM, attrs_view, fmes_view, strs_view, mixin_toks, mixin_wf, elem_wf,
    names_distinct, elem_mismatch, args_toks,
};
use crate::parse::{CompileError, parse_mixin, reports_mismatch};

verus! {

/// A value in the emitted specification: a literal, or the parameter at an
/// index of the declared parameter list.
#[derive(Debug, PartialEq, Eq)]
pub enum Value {
    Lit(String),
    Param(usize),
}

/// A predicate that a target element must already satisfy.
#[derive(Debug, PartialEq, Eq)]
pub enum MatchPred {
    HasTag(String),
    HasAttributeValue(String, Value),
}

/// An edit applied to a target element: add or overwrite an attribute.
#[derive(Debug, PartialEq, Eq)]
pub enum EditOp {
    AddAttribute(String, Value),
}

/// The find, match and edit lists of one element.
#[derive(Debug, PartialEq, Eq)]
pub struct Step {
    pub find: Vec<MatchPred>,
    pub matching: Vec<MatchPred>,
    pub edit: Vec<EditOp>,
}

/// The specification of one element, followed by those of its children.
#[derive(Debug, PartialEq, Eq)]
pub struct SpecNode {
    pub root: Step,
    pub children: Vec<SpecNode>,
}

/// A named generator: its parameters in declared order, and the specification
/// it produces.
#[derive(Debug, PartialEq, Eq)]
pub struct Generator {
    pub name: String,
    pub params: Vec<String>,
    pub spec: SpecNode,
}

// ---------------------------------------------------------------------------
// Mathematical model of the output.

pub enum ValueM {
    Lit(Seq<char>),
    Param(nat),
}

pub enum PredM {
    HasTag(Seq<char>),
    HasAttributeValue(Seq<char>, ValueM),
}

pub enum EditM {
    AddAttribute(Seq<char>, ValueM),
}

pub struct StepM {
    pub find: Seq<PredM>,
    pub matching: Seq<PredM>,
    pub edit: Seq<EditM>,
}

pub struct NodeM {
    pub root: StepM,
    pub children: Seq<NodeM>,
}

pub struct GeneratorM {
    pub name: Seq<char>,
    pub params: Seq<Seq<char>>,
    pub spec: NodeM,
}

impl View for Value {
    type V = ValueM;

    open spec fn view(&self) -> ValueM {
        match self {
            Value::Lit(s) => ValueM::Lit(s@),
            Value::Param(i) => ValueM::Param(*i as nat),
        }
    }
}

impl View for MatchPred {
    type V = PredM;

    open spec fn view(&self) -> PredM {
        match self {
            MatchPred::HasTag(s) => PredM::HasTag(s@),
            MatchPred::HasAttributeValue(k, v) => PredM::HasAttributeValue(k@, v@),
        }
    }
}

impl View for EditOp {
    type V = EditM;

    open spec fn view(&self) -> EditM {
        match self {
            EditOp::AddAttribute(k, v) => EditM::AddAttribute(k@, v@),
        }
    }
}

impl View for Step {
    type V = StepM;

    open spec fn view(&self) -> StepM {
        StepM {
            find: self.find@.map_values(|p: MatchPred| p@),
            matching: self.matching@.map_values(|p: MatchPred| p@),
            edit: self.edit@.map_values(|o: EditOp| o@),
        }
    }
}

pub open spec fn nodes_view(s: Seq<SpecNode>) -> Seq<NodeM>
    decreases s,
{
    if s.len() == 0 {
        Seq::empty()
    } else {
        nodes_view(s.drop_last()).push(s.last().view())
    }
}

impl View for SpecNode {
    type V = NodeM;

    open spec fn view(&self) -> NodeM
        decreases self,
    {
        NodeM { root: self.root@, children: nodes_view(self.children@) }
    }
}

impl View for Generator {
    type V = GeneratorM;

    open spec fn view(&self) -> GeneratorM {
        GeneratorM { name: self.name@, params: strs_view(self.params@), spec: self.spec@ }
    }
}

// ---------------------------------------------------------------------------
// What a tree compiles to.

/// `i` is the first position of `n` in `args`.
pub open spec fn is_first_index(args: Seq<Seq<char>>, n: Seq<char>, i: int) -> bool {
    &&& 0 <= i < args.len()
    &&& args[i] == n
    &&& forall|j: int| 0 <= j < i ==> args[j] != n
}

/// A value resolves when it is a literal or names a declared parameter.
pub open spec fn val_resolved(args: Seq<Seq<char>>, v: ValM) -> bool {
    match v {
        ValM::Str(_) => true,
        ValM::Var(n) => args.contains(n),
    }
}

/// The emitted form of a value: a literal stays a literal, a variable becomes
/// the index of the parameter that it names.
pub open spec fn value_of(args: Seq<Seq<char>>, v: ValM) -> ValueM {
    match v {
        ValM::Str(s) => ValueM::Lit(s),
        ValM::Var(n) => ValueM::Param((choose|i: int| is_first_index(args, n, i)) as nat),
    }
}

/// The name-equality predicate of a tag name: none for the wildcard.
pub open spec fn name_preds(n: NameM) -> Seq<PredM> {
    match n {
        NameM::Ident(s) => seq![PredM::HasTag(s)],
        NameM::Any => Seq::empty(),
    }
}

pub open spec fn is_match_attr(a: AttrM) -> bool {
    a.prefix == AttrPrefix::Match
}

pub open spec fn is_add_attr(a: AttrM) -> bool {
    a.prefix == AttrPrefix::Add
}

pub open spec fn match_pred(args: Seq<Seq<char>>, a: AttrM) -> PredM {
    PredM::HasAttributeValue(a.key.text(), value_of(args, a.val))
}

pub open spec fn edit_op(args: Seq<Seq<char>>, a: AttrM) -> EditM {
    EditM::AddAttribute(a.key.text(), value_of(args, a.val))
}

/// The predicates of the match attributes, in order.
pub open spec fn match_preds(args: Seq<Seq<char>>, attrs: Seq<AttrM>) -> Seq<PredM> {
    attrs.filter(|a: AttrM| is_match_attr(a)).map_values(|a: AttrM| match_pred(args, a))
}

/// The operations of the edit attributes, in order.
pub open spec fn edit_ops(args: Seq<Seq<char>>, attrs: Seq<AttrM>) -> Seq<EditM> {
    attrs.filter(|a: AttrM| is_add_attr(a)).map_values(|a: AttrM| edit_op(args, a))
}

/// The match list: the name predicate, then each match attribute in order.
pub open spec fn matching_of(args: Seq<Seq<char>>, e: ElemM) -> Seq<PredM> {
    name_preds(e.name) + match_preds(args, e.attrs)
}

/// The edit list: each edit attribute in order.
pub open spec fn edit_of(args: Seq<Seq<char>>, e: ElemM) -> Seq<EditM> {
    edit_ops(args, e.attrs)
}

pub open spec fn step_of(args: Seq<Seq<char>>, e: ElemM) -> StepM {
    StepM { find: Seq::empty(), matching: matching_of(args, e), edit: edit_of(args, e) }
}

pub open spec fn children_of(b: BodyM) -> Seq<ElemM> {
    match b {
        BodyM::SelfClosing => Seq::empty(),
        BodyM::Full(cs, _) => cs,
    }
}

/// The specification of an element and, recursively, of its children.
pub open spec fn node_of(args: Seq<Seq<char>>, e: ElemM) -> NodeM
    decreases e,
{
    NodeM {
        root: step_of(args, e),
        children: match e.body {
            BodyM::SelfClosing => Seq::empty(),
            BodyM::Full(cs, _) => nodes_of(args, cs),
        },
    }
}

pub open spec fn nodes_of(args: Seq<Seq<char>>, cs: Seq<ElemM>) -> Seq<NodeM>
    decreases cs,
{
    if cs.len() == 0 {
        Seq::empty()
    } else {
        nodes_of(args, cs.drop_last()).push(node_of(args, cs.last()))
    }
}

/// Every variable placeholder of the element's own attributes resolves.
pub open spec fn attrs_resolved(args: Seq<Seq<char>>, attrs: Seq<AttrM>) -> bool {
    forall|i: int| 0 <= i < attrs.len() ==> val_resolved(args, #[trigger] attrs[i].val)
}

/// Every variable placeholder of the tree resolves.
pub open spec fn elem_resolved(args: Seq<Seq<char>>, e: ElemM) -> bool
    decreases e,
{
    attrs_resolved(args, e.attrs) && match e.body {
        BodyM::SelfClosing => true,
        BodyM::Full(cs, _) => elems_resolved(args, cs),
    }
}

pub open spec fn elems_resolved(args: Seq<Seq<char>>, cs: Seq<ElemM>) -> bool
    decreases cs,
{
    if cs.len() == 0 {
        true
    } else {
        elems_resolved(args, cs.drop_last()) && elem_resolved(args, cs.last())
    }
}

/// What a declaration compiles to.
pub open spec fn generator_of(m: MixinM) -> GeneratorM {
    GeneratorM { name: m.name, params: m.args, spec: node_of(m.args, m.root) }
}

pub proof fn lemma_match_preds_push(args: Seq<Seq<char>>, attrs: Seq<AttrM>, a: AttrM)
    ensures
        match_preds(args, attrs.push(a)) == if is_match_attr(a) {
            match_preds(args, attrs).push(match_pred(args, a))
        } else {
            match_preds(args, attrs)
        },
{
    let p = |x: AttrM| is_match_attr(x);
    attrs.lemma_filter_push(a, p);
    if is_match_attr(a) {
        assert(attrs.filter(p).push(a).map_values(|x: AttrM| match_pred(args, x)) =~= attrs.filter(
            p,
        ).map_values(|x: AttrM| match_pred(args, x)).push(match_pred(args, a)));
    }
}

pub proof fn lemma_edit_ops_push(args: Seq<Seq<char>>, attrs: Seq<AttrM>, a: AttrM)
    ensures
        edit_ops(args, attrs.push(a)) == if is_add_attr(a) {
            edit_ops(args, attrs).push(edit_op(args, a))
        } else {
            edit_ops(args, attrs)
        },
{
    let p = |x: AttrM| is_add_attr(x);
    attrs.lemma_filter_push(a, p);
    if is_add_attr(a) {
        assert(attrs.filter(p).push(a).map_values(|x: AttrM| edit_op(args, x)) =~= attrs.filter(
            p,
        ).map_values(|x: AttrM| edit_op(args, x)).push(edit_op(args, a)));
    }
}

/// Position of the first parameter named `n`, if any.
pub fn find_param(args: &Vec<String>, n: &String) -> (r: Option<usize>)
    ensures
        r is None <==> !strs_view(args@).contains(n@),
        r matches Some(i) ==> is_first_index(strs_view(args@), n@, i as int),
{
    let mut i: usize = 0;
    while i < args.len()
        invariant
            i <= args.len(),
            forall|j: int| 0 <= j < i ==> strs_view(args@)[j] != n@,
        decreases args.len() - i,
    {
        if args[i] == *n {
            assert(strs_view(args@)[i as int] == n@);
            return Some(i);
        }
        i = i + 1;
    }
    proof {
        assert forall|j: int| 0 <= j < strs_view(args@).len() implies strs_view(args@)[j] != n@ by {}
    }
    None
}

pub proof fn lemma_first_index_unique(args: Seq<Seq<char>>, n: Seq<char>, i: int, j: int)
    requires
        is_first_index(args, n, i),
        is_first_index(args, n, j),
    ensures
        i == j,
{
}

impl StrOrVar {
    /// The emitted form of this value, resolving a placeholder against the
    /// declared parameters.
    pub fn emit(&self, args: &Vec<String>) -> (r: Result<Value, CompileError>)
        ensures
            r is Ok <==> val_resolved(strs_view(args@), self@),
            r matches Ok(v) ==> v@ == value_of(strs_view(args@), self@),
            r matches Err(e) ==> e is UnresolvedParameter,
    {
        match self {
            StrOrVar::Str(s) => Ok(Value::Lit(s.clone())),
            StrOrVar::Var(v) => match find_param(args, &v.var) {
                Some(i) => {
                    proof {
                        let a = strs_view(args@);
                        let n = v.var@;
                        let c = choose|k: int| is_first_index(a, n, k);
                        lemma_first_index_unique(a, n, i as int, c);
                    }
                    Ok(Value::Param(i))
                },
                None => Err(CompileError::UnresolvedParameter { name: v.var.clone() }),
            },
        }
    }
}

impl IdentOrStr {
    /// The attribute name that the key denotes.
    pub fn text(&self) -> (r: String)
        ensures
            r@ == self@.text(),
    {
        match self {
            IdentOrStr::Ident(s) => s.clone(),
            IdentOrStr::Str(s) => s.clone(),
        }
    }
}

impl IdentOrAny {
    /// The name-equality predicate of this tag name: none for the wildcard.
    pub fn emit(&self) -> (r: Vec<MatchPred>)
        ensures
            r@.map_values(|p: MatchPred| p@) == name_preds(self@),
    {
        let mut r: Vec<MatchPred> = Vec::new();
        match self {
            IdentOrAny::Ident(s) => {
                r.push(MatchPred::HasTag(s.clone()));
                assert(r@.map_values(|p: MatchPred| p@) =~= name_preds(self@));
            },
            IdentOrAny::Any => {
                assert(r@.map_values(|p: MatchPred| p@) =~= name_preds(self@));
            },
        }
        r
    }
}

impl FME {
    /// The find, match and edit lists of this element alone.
    pub fn emit_step(&self, args: &Vec<String>) -> (r: Result<Step, CompileError>)
        ensures
            r is Ok <==> attrs_resolved(strs_view(args@), self@.attrs),
            r matches Ok(st) ==> st@ == step_of(strs_view(args@), self@),
            r matches Err(e) ==> e is UnresolvedParameter,
    {
        let ghost a = strs_view(args@);
        let ghost attrs = self@.attrs;
        let find: Vec<MatchPred> = Vec::new();
        let mut matching = self.name.emit();
        let mut edit: Vec<EditOp> = Vec::new();
        let mut i: usize = 0;
        assert(attrs.take(0) =~= Seq::<AttrM>::empty());
        assert(match_preds(a, Seq::<AttrM>::empty()) =~= Seq::<PredM>::empty());
        assert(edit_ops(a, Seq::<AttrM>::empty()) =~= Seq::<EditM>::empty());
        assert(matching@.map_values(|p: MatchPred| p@) =~= name_preds(self@.name) + match_preds(a, attrs.take(0)));
        while i < self.attrs.len()
            invariant
                i <= self.attrs.len(),
                attrs == attrs_view(self.attrs@),
                attrs.len() == self.attrs.len(),
                a == strs_view(args@),
                matching@.map_values(|p: MatchPred| p@) == name_preds(self@.name) + match_preds(a, attrs.take(i as int)),
                edit@.map_values(|o: EditOp| o@) == edit_ops(a, attrs.take(i as int)),
                attrs_resolved(a, attrs.take(i as int)),
            decreases self.attrs.len() - i,
        {
            let at = &self.attrs[i];
            proof {
                assert(attrs.take(i + 1) =~= attrs.take(i as int).push(at@));
                lemma_match_preds_push(a, attrs.take(i as int), at@);
                lemma_edit_ops_push(a, attrs.take(i as int), at@);
            }
            let v = match at.val.emit(args) {
                Ok(v) => v,
                Err(e) => {
                    assert(!val_resolved(a, attrs[i as int].val));
                    return Err(e);
                },
            };
            let key = at.key.text();
            if at.attr_prefix.is_match() {
                let ghost before = matching@;
                matching.push(MatchPred::HasAttributeValue(key, v));
                assert(matching@.map_values(|p: MatchPred| p@) =~= before.map_values(|p: MatchPred| p@).push(
                    match_pred(a, at@),
                ));
            } else {
                let ghost before = edit@;
                edit.push(EditOp::AddAttribute(key, v));
                assert(edit@.map_values(|o: EditOp| o@) =~= before.map_values(|o: EditOp| o@).push(
                    edit_op(a, at@),
                ));
            }
            i = i + 1;
        }
        assert(attrs.take(i as int) =~= attrs);
        let st = Step { find, matching, edit };
        assert(st@.find =~= Seq::<PredM>::empty());
        Ok(st)
    }
}

pub proof fn lemma_fmes_view(s: Seq<FME>)
    ensures
        fmes_view(s).len() == s.len(),
        forall|i: int| 0 <= i < s.len() ==> #[trigger] fmes_view(s)[i] == s[i]@,
    decreases s.len(),
{
    if s.len() > 0 {
        lemma_fmes_view(s.drop_last());
        assert(fmes_view(s) == fmes_view(s.drop_last()).push(s.last()@));
        assert forall|i: int| 0 <= i < s.len() implies #[trigger] fmes_view(s)[i] == s[i]@ by {
            if i < s.len() - 1 {
                assert(s.drop_last()[i] == s[i]);
            }
        }
    } else {
        assert(fmes_view(s) == Seq::<ElemM>::empty());
    }
}

pub proof fn lemma_elems_resolved_index(args: Seq<Seq<char>>, cs: Seq<ElemM>, i: int)
    requires
        elems_resolved(args, cs),
        0 <= i < cs.len(),
    ensures
        elem_resolved(args, cs[i]),
    decreases cs.len(),
{
    if i < cs.len() - 1 {
        lemma_elems_resolved_index(args, cs.drop_last(), i);
    }
}

impl FME {
    /// The specification of this element and, recursively, of its children.
    pub fn emit(&self, args: &Vec<String>) -> (r: Result<SpecNode, CompileError>)
        ensures
            r is Ok <==> elem_resolved(strs_view(args@), self@),
            r matches Ok(n) ==> n@ == node_of(strs_view(args@), self@),
            r matches Err(e) ==> e is UnresolvedParameter,
        decreases self,
    {
        let root = self.emit_step(args)?;
        let children = self.body.emit(args)?;
        Ok(SpecNode { root, children })
    }
}

impl Body {
    /// The specifications of the children: none for a self-closing element.
    pub fn emit(&self, args: &Vec<String>) -> (r: Result<Vec<SpecNode>, CompileError>)
        ensures
            r is Ok <==> match self@ {
                BodyM::SelfClosing => true,
                BodyM::Full(cs, _) => elems_resolved(strs_view(args@), cs),
            },
            r matches Ok(v) ==> nodes_view(v@) == match self@ {
                BodyM::SelfClosing => Seq::empty(),
                BodyM::Full(cs, _) => nodes_of(strs_view(args@), cs),
            },
            r matches Err(e) ==> e is UnresolvedParameter,
        decreases self,
    {
        match self {
            Body::SelfClosing => {
                let v: Vec<SpecNode> = Vec::new();
                assert(nodes_view(v@) =~= Seq::<NodeM>::empty());
                Ok(v)
            },
            Body::FullBody(b) => b.emit(args),
        }
    }
}

impl FullBody {
    /// The specifications of the children, in source order.
    pub fn emit(&self, args: &Vec<String>) -> (r: Result<Vec<SpecNode>, CompileError>)
        ensures
            r is Ok <==> elems_resolved(strs_view(args@), fmes_view(self.children@)),
            r matches Ok(v) ==> nodes_view(v@) == nodes_of(strs_view(args@), fmes_view(self.children@)),
            r matches Err(e) ==> e is UnresolvedParameter,
        decreases self,
    {
        let ghost a = strs_view(args@);
        let ghost cs = fmes_view(self.children@);
        proof {
            lemma_fmes_view(self.children@);
        }
        let mut out: Vec<SpecNode> = Vec::new();
        let mut i: usize = 0;
        assert(cs.take(0) =~= Seq::<ElemM>::empty());
        assert(nodes_view(out@) =~= nodes_of(a, cs.take(0)));
        while i < self.children.len()
            invariant
                i <= self.children.len(),
                a == strs_view(args@),
                cs == fmes_view(self.children@),
                cs.len() == self.children.len(),
                forall|j: int| 0 <= j < cs.len() ==> #[trigger] cs[j] == self.children@[j]@,
                nodes_view(out@) == nodes_of(a, cs.take(i as int)),
                elems_resolved(a, cs.take(i as int)),
            decreases self.children.len() - i,
        {
            let c = &self.children[i];
            proof {
                assert(cs.take(i + 1) =~= cs.take(i as int).push(c@));
                assert(cs.take(i + 1).drop_last() =~= cs.take(i as int));
                assert(decreases_to!(self => self.children));
                assert(decreases_to!(self.children => self.children@[i as int]));
            }
            let n = match c.emit(args) {
                Ok(n) => n,
                Err(e) => {
                    proof {
                        if elems_resolved(a, cs) {
                            lemma_elems_resolved_index(a, cs, i as int);
                        }
                    }
                    return Err(e);
                },
            };
            let ghost before = out@;
            out.push(n);
            assert(out@.drop_last() =~= before);
            i = i + 1;
        }
        assert(cs.take(i as int) =~= cs);
        Ok(out)
    }
}

impl Mixin {
    /// The generator that this declaration compiles to.
    pub fn emit(&self) -> (r: Result<Generator, CompileError>)
        ensures
            r is Ok <==> elem_resolved(self@.args, self@.root),
            r matches Ok(g) ==> g@ == generator_of(self@),
            r matches Err(e) ==> e is UnresolvedParameter,
    {
        let spec = self.fme.emit(&self.args)?;
        let params = self.args.clone();
        assert(params@ =~= self.args@);
        Ok(Generator { name: self.name.clone(), params, spec })
    }
}

/// Compile a declaration, given as its tokens, into its generator.
pub fn mixin(toks: &Vec<Tok>) -> (r: Result<Generator, CompileError>)
    ensures
        r matches Ok(g) ==> exists|m: MixinM|
            #![trigger generator_of(m)]
            mixin_toks(m) == toks_view(toks@) && mixin_wf(m) && elem_resolved(m.args, m.root) && g@
                == generator_of(m),
        forall|m: MixinM| #[trigger]
            mixin_toks(m) == toks_view(toks@) && elem_wf(m.root) ==> (if !names_distinct(m.args) {
                r matches Err(e) && e is DuplicateParameter
            } else if elem_resolved(m.args, m.root) {
                r matches Ok(g) && g@ == generator_of(m)
            } else {
                r matches Err(e) && e is UnresolvedParameter
            }),
        forall|m: MixinM| #[trigger]
            mixin_toks(m) == toks_view(toks@) && names_distinct(m.args) ==> reports_mismatch(
                r,
                elem_mismatch(m.root),
                4 + args_toks(m.args).len() as int,
            ),
{
    let m = parse_mixin(toks)?;
    m.emit()
}

/// Where the match and edit lists of a run of attributes come from: each
/// entry from an attribute of its own kind, and each attribute into the list
/// of its kind.
pub proof fn lemma_attr_routing(args: Seq<Seq<char>>, attrs: Seq<AttrM>)
    ensures
        match_preds(args, attrs).len() + edit_ops(args, attrs).len() == attrs.len(),
        forall|k: int|
            0 <= k < match_preds(args, attrs).len() ==> exists|i: int|
                0 <= i < attrs.len() && is_match_attr(attrs[i]) && #[trigger] match_preds(args, attrs)[k]
                    == match_pred(args, attrs[i]),
        forall|k: int|
            0 <= k < edit_ops(args, attrs).len() ==> exists|i: int|
                0 <= i < attrs.len() && is_add_attr(attrs[i]) && #[trigger] edit_ops(args, attrs)[k]
                    == edit_op(args, attrs[i]),
        forall|i: int|
            0 <= i < attrs.len() && is_match_attr(#[trigger] attrs[i]) ==> match_preds(
                args,
                attrs,
            ).contains(match_pred(args, attrs[i])),
        forall|i: int|
            0 <= i < attrs.len() && is_add_attr(#[trigger] attrs[i]) ==> edit_ops(args, attrs).contains(
                edit_op(args, attrs[i]),
            ),
    decreases attrs.len(),
{
    if attrs.len() == 0 {
        assert(match_preds(args, attrs) =~= Seq::<PredM>::empty());
        assert(edit_ops(args, attrs) =~= Seq::<EditM>::empty());
    } else {
        let init = attrs.drop_last();
        let last = attrs.last();
        let n = attrs.len() - 1;
        lemma_attr_routing(args, init);
        assert(attrs == init.push(last));
        lemma_match_preds_push(args, init, last);
        lemma_edit_ops_push(args, init, last);
        let mp = match_preds(args, attrs);
        let eo = edit_ops(args, attrs);
        assert forall|k: int| 0 <= k < mp.len() implies exists|i: int|
            0 <= i < attrs.len() && is_match_attr(attrs[i]) && #[trigger] mp[k] == match_pred(
                args,
                attrs[i],
            ) by {
            if k < match_preds(args, init).len() {
                assert(mp[k] == match_preds(args, init)[k]);
                let i = choose|i: int|
                    0 <= i < init.len() && is_match_attr(init[i]) && #[trigger] match_preds(
                        args,
                        init,
                    )[k] == match_pred(args, init[i]);
                assert(attrs[i] == init[i]);
            } else {
                assert(attrs[n] == last);
            }
        }
        assert forall|k: int| 0 <= k < eo.len() implies exists|i: int|
            0 <= i < attrs.len() && is_add_attr(attrs[i]) && #[trigger] eo[k] == edit_op(
                args,
                attrs[i],
            ) by {
            if k < edit_ops(args, init).len() {
                assert(eo[k] == edit_ops(args, init)[k]);
                let i = choose|i: int|
                    0 <= i < init.len() && is_add_attr(init[i]) && #[trigger] edit_ops(args, init)[k]
                        == edit_op(args, init[i]);
                assert(attrs[i] == init[i]);
            } else {
                assert(attrs[n] == last);
            }
        }
        assert forall|i: int| 0 <= i < attrs.len() && is_match_attr(#[trigger] attrs[i]) implies mp.contains(
            match_pred(args, attrs[i]),
        ) by {
            if i < n {
                assert(attrs[i] == init[i]);
                let j = choose|j: int|
                    0 <= j < match_preds(args, init).len() && match_preds(args, init)[j] == match_pred(
                        args,
                        init[i],
                    );
                assert(mp[j] == match_preds(args, init)[j]);
            } else {
                assert(mp[mp.len() - 1] == match_pred(args, last));
            }
        }
        assert forall|i: int| 0 <= i < attrs.len() && is_add_attr(#[trigger] attrs[i]) implies eo.contains(
            edit_op(args, attrs[i]),
        ) by {
            if i < n {
                assert(attrs[i] == init[i]);
                let j = choose|j: int|
                    0 <= j < edit_ops(args, init).len() && edit_ops(args, init)[j] == edit_op(
                        args,
                        init[i],
                    );
                assert(eo[j] == edit_ops(args, init)[j]);
            } else {
                assert(eo[eo.len() - 1] == edit_op(args, last));
            }
        }
    }
}

/// Each attribute is exactly one of a match and an edit. Match attributes go
/// into the match list only, after the name predicate; edit attributes go into
/// the edit list only; the find list is empty.
pub proof fn lemma_classification(args: Seq<Seq<char>>, e: ElemM)
    ensures
        forall|i: int|
            0 <= i < e.attrs.len() ==> is_match_attr(#[trigger] e.attrs[i]) != is_add_attr(e.attrs[i]),
        step_of(args, e).find.len() == 0,
        step_of(args, e).matching.len() - name_preds(e.name).len() + step_of(args, e).edit.len()
            == e.attrs.len(),
        forall|k: int|
            name_preds(e.name).len() <= k < step_of(args, e).matching.len() ==> exists|i: int|
                0 <= i < e.attrs.len() && is_match_attr(e.attrs[i]) && #[trigger] step_of(
                    args,
                    e,
                ).matching[k] == match_pred(args, e.attrs[i]),
        forall|k: int|
            0 <= k < step_of(args, e).edit.len() ==> exists|i: int|
                0 <= i < e.attrs.len() && is_add_attr(e.attrs[i]) && #[trigger] step_of(args, e).edit[k]
                    == edit_op(args, e.attrs[i]),
        forall|i: int|
            0 <= i < e.attrs.len() && is_match_attr(#[trigger] e.attrs[i]) ==> step_of(
                args,
                e,
            ).matching.contains(match_pred(args, e.attrs[i])),
        forall|i: int|
            0 <= i < e.attrs.len() && is_add_attr(#[trigger] e.attrs[i]) ==> step_of(
                args,
                e,
            ).edit.contains(edit_op(args, e.attrs[i])),
{
    lemma_attr_routing(args, e.attrs);
    let np = name_preds(e.name);
    let mp = match_preds(args, e.attrs);
    let w = step_of(args, e).matching;
    assert(w == np + mp);
    assert forall|k: int| np.len() <= k < w.len() implies exists|i: int|
        0 <= i < e.attrs.len() && is_match_attr(e.attrs[i]) && #[trigger] w[k] == match_pred(
            args,
            e.attrs[i],
        ) by {
        assert(w[k] == mp[k - np.len()]);
    }
    assert forall|i: int| 0 <= i < e.attrs.len() && is_match_attr(#[trigger] e.attrs[i]) implies w.contains(
        match_pred(args, e.attrs[i]),
    ) by {
        let j = choose|j: int| 0 <= j < mp.len() && mp[j] == match_pred(args, e.attrs[i]);
        assert(w[np.len() + j] == mp[j]);
    }
}

/// A wildcard element emits no name-equality predicate; a named element emits
/// exactly one, first, for its own name.
pub proof fn lemma_wildcard_suppression(args: Seq<Seq<char>>, e: ElemM)
    ensures
        e.name is Any ==> forall|k: int|
            0 <= k < step_of(args, e).matching.len() ==> !(#[trigger] step_of(args, e).matching[k] is HasTag),
        e.name matches NameM::Ident(s) ==> step_of(args, e).matching[0] == PredM::HasTag(s)
            && forall|k: int|
            1 <= k < step_of(args, e).matching.len() ==> !(#[trigger] step_of(args, e).matching[k] is HasTag),
{
    lemma_classification(args, e);
}

/// The child specifications are those of the children, one each, in order.
pub proof fn lemma_nodes_of(args: Seq<Seq<char>>, cs: Seq<ElemM>)
    ensures
        nodes_of(args, cs).len() == cs.len(),
        forall|i: int| 0 <= i < cs.len() ==> #[trigger] nodes_of(args, cs)[i] == node_of(args, cs[i]),
    decreases cs.len(),
{
    if cs.len() > 0 {
        lemma_nodes_of(args, cs.drop_last());
        assert forall|i: int| 0 <= i < cs.len() implies #[trigger] nodes_of(args, cs)[i] == node_of(
            args,
            cs[i],
        ) by {
            if i < cs.len() - 1 {
                assert(cs.drop_last()[i] == cs[i]);
            }
        }
    }
}

/// The emitted specification of an element has one child specification per
/// child element, in source order; a self-closing element has none.
pub proof fn lemma_nesting_preserved(args: Seq<Seq<char>>, e: ElemM)
    ensures
        node_of(args, e).children.len() == children_of(e.body).len(),
        forall|i: int|
            0 <= i < children_of(e.body).len() ==> #[trigger] node_of(args, e).children[i] == node_of(
                args,
                children_of(e.body)[i],
            ),
{
    lemma_nodes_of(args, children_of(e.body));
}

} // verus!
