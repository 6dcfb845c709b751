use vstd::prelude::*;
use crate::token::{Tok, TokV, toks_view};
use crate::ast::{
    Attr, AttrPrefix, AttrM, ElemM, FME, Body, FullBody, IdentOrAny, IdentOrStr, Mixin, StrOrVar,
    attr_toks, attrs_toks, attrs_view, args_toks, body_toks, elem_toks, elems_toks, fmes_view,
    key_toks, mixin_toks, name_tok, strs_view, val_toks,
};

verus! {

fn push_tok(out: &mut Vec<Tok>, t: Tok)
    ensures
        toks_view(final(out)@) == toks_view(old(out)@).push(t@),
{
    out.push(t);
    assert(toks_view(out@) =~= toks_view(old(out)@).push(t@));
}

impl IdentOrAny {
    /// Append the token of this tag name.
    pub fn print_tokens(&self, out: &mut Vec<Tok>)
        ensures
            toks_view(final(out)@) == toks_view(old(out)@).push(name_tok(self@)),
    {
        match self {
            IdentOrAny::Ident(s) => push_tok(out, Tok::Ident(s.clone())),
            IdentOrAny::Any => push_tok(out, Tok::Punct('?')),
        }
    }
}

impl IdentOrStr {
    /// Append the token of this key.
    pub fn print_tokens(&self, out: &mut Vec<Tok>)
        ensures
            toks_view(final(out)@) == toks_view(old(out)@).push(key_toks(self@)),
    {
        match self {
            IdentOrStr::Ident(s) => push_tok(out, Tok::Ident(s.clone())),
            IdentOrStr::Str(s) => push_tok(out, Tok::Str(s.clone())),
        }
    }
}

impl StrOrVar {
    /// Append the tokens of this value.
    pub fn print_tokens(&self, out: &mut Vec<Tok>)
        ensures
            toks_view(final(out)@) == toks_view(old(out)@) + val_toks(self@),
    {
        match self {
            StrOrVar::Str(s) => {
                push_tok(out, Tok::Str(s.clone()));
            },
            StrOrVar::Var(v) => {
                push_tok(out, Tok::Punct('{'));
                push_tok(out, Tok::Punct('{'));
                push_tok(out, Tok::Ident(v.var.clone()));
                push_tok(out, Tok::Punct('}'));
                push_tok(out, Tok::Punct('}'));
            },
        }
        assert(toks_view(out@) =~= toks_view(old(out)@) + val_toks(self@));
    }
}

impl Attr {
    /// Append the tokens of this attribute.
    pub fn print_tokens(&self, out: &mut Vec<Tok>)
        ensures
            toks_view(final(out)@) == toks_view(old(out)@) + attr_toks(self@),
    {
        match self.attr_prefix {
            AttrPrefix::Match => push_tok(out, Tok::Punct('~')),
            AttrPrefix::Add => push_tok(out, Tok::Punct('+')),
        }
        self.key.print_tokens(out);
        push_tok(out, Tok::Punct('='));
        self.val.print_tokens(out);
        assert(toks_view(out@) =~= toks_view(old(out)@) + attr_toks(self@));
    }
}

impl FME {
    /// Append the tokens of this element, its children included.
    pub fn print_tokens(&self, out: &mut Vec<Tok>)
        ensures
            toks_view(final(out)@) == toks_view(old(out)@) + elem_toks(self@),
        decreases self,
    {
        let ghost start = toks_view(out@);
        push_tok(out, Tok::Punct('<'));
        self.name.print_tokens(out);
        let ghost head = seq![TokV::Punct('<'), name_tok(self.name@)];
        assert(toks_view(out@) =~= start + head);
        let ghost attrs = attrs_view(self.attrs@);
        let mut i: usize = 0;
        assert(attrs.take(0) =~= Seq::<AttrM>::empty());
        assert(toks_view(out@) =~= start + head + attrs_toks(attrs.take(0)));
        while i < self.attrs.len()
            invariant
                i <= self.attrs.len(),
                attrs == attrs_view(self.attrs@),
                attrs.len() == self.attrs.len(),
                toks_view(out@) == start + head + attrs_toks(attrs.take(i as int)),
            decreases self.attrs.len() - i,
        {
            self.attrs[i].print_tokens(out);
            assert(attrs.take(i + 1) =~= attrs.take(i as int).push(attrs[i as int]));
            assert(attrs.take(i + 1).drop_last() =~= attrs.take(i as int));
            assert(toks_view(out@) =~= start + head + attrs_toks(attrs.take(i + 1)));
            i = i + 1;
        }
        assert(attrs.take(i as int) =~= attrs);
        self.body.print_tokens(out);
        push_tok(out, Tok::Punct('>'));
        assert(toks_view(out@) =~= start + elem_toks(self@));
    }
}

impl Body {
    /// Append the tokens of this body.
    pub fn print_tokens(&self, out: &mut Vec<Tok>)
        ensures
            toks_view(final(out)@) == toks_view(old(out)@) + body_toks(self@),
        decreases self,
    {
        match self {
            Body::SelfClosing => {
                push_tok(out, Tok::Punct('/'));
                assert(toks_view(out@) =~= toks_view(old(out)@) + body_toks(self@));
            },
            Body::FullBody(b) => b.print_tokens(out),
        }
    }
}

impl FullBody {
    /// Append `>`, the children, and the closing tag.
    pub fn print_tokens(&self, out: &mut Vec<Tok>)
        ensures
            toks_view(final(out)@) == toks_view(old(out)@) + body_toks(self@),
        decreases self,
    {
        let ghost start = toks_view(out@);
        let ghost cs = fmes_view(self.children@);
        proof {
            crate::emit::lemma_fmes_view(self.children@);
        }
        push_tok(out, Tok::Punct('>'));
        let mut i: usize = 0;
        assert(cs.take(0) =~= Seq::<ElemM>::empty());
        assert(toks_view(out@) =~= start + seq![TokV::Punct('>')] + elems_toks(cs.take(0)));
        while i < self.children.len()
            invariant
                i <= self.children.len(),
                cs == fmes_view(self.children@),
                cs.len() == self.children.len(),
                forall|j: int| 0 <= j < cs.len() ==> #[trigger] cs[j] == self.children@[j]@,
                toks_view(out@) == start + seq![TokV::Punct('>')] + elems_toks(cs.take(i as int)),
            decreases self.children.len() - i,
        {
            proof {
                assert(decreases_to!(self => self.children));
                assert(decreases_to!(self.children => self.children@[i as int]));
            }
            self.children[i].print_tokens(out);
            assert(cs.take(i + 1) =~= cs.take(i as int).push(cs[i as int]));
            assert(cs.take(i + 1).drop_last() =~= cs.take(i as int));
            assert(toks_view(out@) =~= start + seq![TokV::Punct('>')] + elems_toks(cs.take(i + 1)));
            i = i + 1;
        }
        assert(cs.take(i as int) =~= cs);
        push_tok(out, Tok::Punct('<'));
        push_tok(out, Tok::Punct('/'));
        self.closing.print_tokens(out);
        assert(toks_view(out@) =~= start + body_toks(self@));
    }
}

impl Mixin {
    /// The tokens of this declaration: `name ( params ) , element`.
    pub fn print_tokens(&self) -> (r: Vec<Tok>)
        ensures
            toks_view(r@) == mixin_toks(self@),
    {
        let mut out: Vec<Tok> = Vec::new();
        push_tok(&mut out, Tok::Ident(self.name.clone()));
        push_tok(&mut out, Tok::Punct('('));
        let ghost head = seq![TokV::Ident(self.name@), TokV::Punct('(')];
        let ghost args = strs_view(self.args@);
        assert(toks_view(out@) =~= head);
        let mut i: usize = 0;
        assert(args.take(0) =~= Seq::<Seq<char>>::empty());
        while i < self.args.len()
            invariant
                i <= self.args.len(),
                args == strs_view(self.args@),
                toks_view(out@) == head + args_toks(args.take(i as int)),
            decreases self.args.len() - i,
        {
            if i > 0 {
                push_tok(&mut out, Tok::Punct(','));
            }
            push_tok(&mut out, Tok::Ident(self.args[i].clone()));
            assert(args.take(i + 1).drop_last() =~= args.take(i as int));
            assert(args.take(i + 1)[0] == args[0]);
            assert(toks_view(out@) =~= head + args_toks(args.take(i + 1)));
            i = i + 1;
        }
        assert(args.take(i as int) =~= args);
        push_tok(&mut out, Tok::Punct(')'));
        push_tok(&mut out, Tok::Punct(','));
        self.fme.print_tokens(&mut out);
        assert(toks_view(out@) =~= mixin_toks(self@));
        out
    }
}

} // verus!
