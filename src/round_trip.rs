use vstd::prelude::*;
use crate::token::TokV;
use crate::ast::{
    AttrM, BodyM, ElemM, MixinM, NameM, ValM, attr_toks, attrs_toks, args_toks,
    body_toks, elem_toks, elems_toks, key_toks, mixin_toks, name_tok, val_toks,
};
use crate::parse::{lemma_attrs_toks_concat, lemma_elems_toks_concat};

verus! {

/// Two equal concatenations whose first parts have one length agree part by part.
pub proof fn lemma_split_eq(a1: Seq<TokV>, r1: Seq<TokV>, a2: Seq<TokV>, r2: Seq<TokV>)
    requires
        a1 + r1 == a2 + r2,
        a1.len() == a2.len(),
    ensures
        a1 == a2,
        r1 == r2,
{
    let s = a1 + r1;
    assert(a1 =~= s.take(a1.len() as int));
    assert(a2 =~= (a2 + r2).take(a2.len() as int));
    assert(r1 =~= s.skip(a1.len() as int));
    assert(r2 =~= (a2 + r2).skip(a2.len() as int));
}

pub open spec fn starts_marker(r: Seq<TokV>) -> bool {
    r.len() > 0 && (r[0] == TokV::Punct('~') || r[0] == TokV::Punct('+'))
}

pub open spec fn starts_close(r: Seq<TokV>) -> bool {
    r.len() >= 2 && r[0] == TokV::Punct('<') && r[1] == TokV::Punct('/')
}

/// A non-empty attribute run is written as its first attribute, then the rest.
pub proof fn lemma_attrs_front(x: Seq<AttrM>)
    requires
        x.len() > 0,
    ensures
        attrs_toks(x) == attr_toks(x[0]) + attrs_toks(x.subrange(1, x.len() as int)),
{
    let h = x.subrange(0, 1);
    let t = x.subrange(1, x.len() as int);
    assert(x =~= h + t);
    lemma_attrs_toks_concat(h, t);
    assert(h.drop_last() =~= Seq::<AttrM>::empty());
    assert(attrs_toks(h) == attrs_toks(h.drop_last()) + attr_toks(h.last()));
    assert(attrs_toks(h.drop_last()) == Seq::<TokV>::empty());
    assert(attrs_toks(h) =~= attr_toks(x[0]));
}

/// A non-empty element run is written as its first element, then the rest.
pub proof fn lemma_elems_front(x: Seq<ElemM>)
    requires
        x.len() > 0,
    ensures
        elems_toks(x) == elem_toks(x[0]) + elems_toks(x.subrange(1, x.len() as int)),
{
    let h = x.subrange(0, 1);
    let t = x.subrange(1, x.len() as int);
    assert(x =~= h + t);
    lemma_elems_toks_concat(h, t);
    assert(h.drop_last() =~= Seq::<ElemM>::empty());
    assert(elems_toks(h) == elems_toks(h.drop_last()) + elem_toks(h.last()));
    assert(elems_toks(h.drop_last()) == Seq::<TokV>::empty());
    assert(elems_toks(h) =~= elem_toks(x[0]));
}

/// A value is determined by its tokens, whatever follows them.
pub proof fn lemma_val_unique(v1: ValM, r1: Seq<TokV>, v2: ValM, r2: Seq<TokV>)
    requires
        val_toks(v1) + r1 == val_toks(v2) + r2,
    ensures
        v1 == v2,
        r1 == r2,
{
    let s = val_toks(v1) + r1;
    assert(s[0] == val_toks(v1)[0]);
    assert(s[0] == val_toks(v2)[0]);
    if v1 is Var {
        assert(s[2] == val_toks(v1)[2]);
        assert(s[2] == val_toks(v2)[2]);
    }
    lemma_split_eq(val_toks(v1), r1, val_toks(v2), r2);
}

/// An attribute is determined by its tokens, whatever follows them.
pub proof fn lemma_attr_unique(a1: AttrM, r1: Seq<TokV>, a2: AttrM, r2: Seq<TokV>)
    requires
        attr_toks(a1) + r1 == attr_toks(a2) + r2,
    ensures
        a1 == a2,
        r1 == r2,
{
    let h1 = seq![TokV::Punct(a1.prefix.marker()), key_toks(a1.key), TokV::Punct('=')];
    let h2 = seq![TokV::Punct(a2.prefix.marker()), key_toks(a2.key), TokV::Punct('=')];
    assert(attr_toks(a1) + r1 =~= h1 + (val_toks(a1.val) + r1));
    assert(attr_toks(a2) + r2 =~= h2 + (val_toks(a2.val) + r2));
    lemma_split_eq(h1, val_toks(a1.val) + r1, h2, val_toks(a2.val) + r2);
    assert(h1[0] == h2[0] && h1[1] == h2[1]);
    assert(a1.prefix == a2.prefix);
    assert(a1.key == a2.key);
    lemma_val_unique(a1.val, r1, a2.val, r2);
}

/// An attribute run followed by a token that opens no attribute is determined
/// by its tokens.
pub proof fn lemma_attrs_unique(x: Seq<AttrM>, r1: Seq<TokV>, y: Seq<AttrM>, r2: Seq<TokV>)
    requires
        attrs_toks(x) + r1 == attrs_toks(y) + r2,
        !starts_marker(r1),
        !starts_marker(r2),
    ensures
        x == y,
        r1 == r2,
    decreases x.len(),
{
    if x.len() == 0 && y.len() == 0 {
        assert(attrs_toks(x) + r1 =~= r1);
        assert(attrs_toks(y) + r2 =~= r2);
    } else if x.len() == 0 {
        lemma_attrs_front(y);
        assert(attrs_toks(x) + r1 =~= r1);
        assert((attrs_toks(y) + r2)[0] == attr_toks(y[0])[0]);
    } else if y.len() == 0 {
        lemma_attrs_front(x);
        assert(attrs_toks(y) + r2 =~= r2);
        assert((attrs_toks(x) + r1)[0] == attr_toks(x[0])[0]);
    } else {
        let xt = x.subrange(1, x.len() as int);
        let yt = y.subrange(1, y.len() as int);
        lemma_attrs_front(x);
        lemma_attrs_front(y);
        assert(attrs_toks(x) + r1 =~= attr_toks(x[0]) + (attrs_toks(xt) + r1));
        assert(attrs_toks(y) + r2 =~= attr_toks(y[0]) + (attrs_toks(yt) + r2));
        lemma_attr_unique(x[0], attrs_toks(xt) + r1, y[0], attrs_toks(yt) + r2);
        lemma_attrs_unique(xt, r1, yt, r2);
        assert(x =~= seq![x[0]] + xt);
        assert(y =~= seq![y[0]] + yt);
    }
}

/// A tag name is determined by its token.
pub proof fn lemma_name_unique(n1: NameM, n2: NameM)
    requires
        name_tok(n1) == name_tok(n2),
    ensures
        n1 == n2,
{
}

/// An element is determined by its tokens, whatever follows them.
pub proof fn lemma_elem_unique(a: ElemM, r1: Seq<TokV>, b: ElemM, r2: Seq<TokV>)
    requires
        elem_toks(a) + r1 == elem_toks(b) + r2,
    ensures
        a == b,
        r1 == r2,
    decreases a,
{
    let ha = seq![TokV::Punct('<'), name_tok(a.name)];
    let hb = seq![TokV::Punct('<'), name_tok(b.name)];
    let ta = body_toks(a.body) + (seq![TokV::Punct('>')] + r1);
    let tb = body_toks(b.body) + (seq![TokV::Punct('>')] + r2);
    assert(elem_toks(a) + r1 =~= ha + (attrs_toks(a.attrs) + ta));
    assert(elem_toks(b) + r2 =~= hb + (attrs_toks(b.attrs) + tb));
    lemma_split_eq(ha, attrs_toks(a.attrs) + ta, hb, attrs_toks(b.attrs) + tb);
    assert(ha[1] == hb[1]);
    lemma_name_unique(a.name, b.name);
    assert(ta[0] == body_toks(a.body)[0]);
    assert(tb[0] == body_toks(b.body)[0]);
    lemma_attrs_unique(a.attrs, ta, b.attrs, tb);
    lemma_body_unique(a.body, seq![TokV::Punct('>')] + r1, b.body, seq![TokV::Punct('>')] + r2);
    lemma_split_eq(seq![TokV::Punct('>')], r1, seq![TokV::Punct('>')], r2);
}

/// A body is determined by its tokens, whatever follows them.
pub proof fn lemma_body_unique(p: BodyM, r1: Seq<TokV>, q: BodyM, r2: Seq<TokV>)
    requires
        body_toks(p) + r1 == body_toks(q) + r2,
    ensures
        p == q,
        r1 == r2,
    decreases p,
{
    let s = body_toks(p) + r1;
    assert(s[0] == body_toks(p)[0]);
    assert(s[0] == body_toks(q)[0]);
    match p {
        BodyM::SelfClosing => {
            lemma_split_eq(body_toks(p), r1, body_toks(q), r2);
        },
        BodyM::Full(cs1, cn1) => {
            if let BodyM::Full(cs2, cn2) = q {
                let open = seq![TokV::Punct('>')];
                let c1 = seq![TokV::Punct('<'), TokV::Punct('/'), name_tok(cn1)];
                let c2 = seq![TokV::Punct('<'), TokV::Punct('/'), name_tok(cn2)];
                assert(body_toks(p) + r1 =~= open + (elems_toks(cs1) + (c1 + r1)));
                assert(body_toks(q) + r2 =~= open + (elems_toks(cs2) + (c2 + r2)));
                lemma_split_eq(open, elems_toks(cs1) + (c1 + r1), open, elems_toks(cs2) + (c2 + r2));
                assert((c1 + r1)[0] == c1[0] && (c1 + r1)[1] == c1[1]);
                assert((c2 + r2)[0] == c2[0] && (c2 + r2)[1] == c2[1]);
                lemma_elems_unique(cs1, c1 + r1, cs2, c2 + r2);
                lemma_split_eq(c1, r1, c2, r2);
                assert(c1[2] == c2[2]);
                lemma_name_unique(cn1, cn2);
            }
        },
    }
}

/// A run of elements followed by `< /` is determined by its tokens.
pub proof fn lemma_elems_unique(x: Seq<ElemM>, r1: Seq<TokV>, y: Seq<ElemM>, r2: Seq<TokV>)
    requires
        elems_toks(x) + r1 == elems_toks(y) + r2,
        starts_close(r1),
        starts_close(r2),
    ensures
        x == y,
        r1 == r2,
    decreases x,
{
    if x.len() == 0 && y.len() == 0 {
        assert(elems_toks(x) + r1 =~= r1);
        assert(elems_toks(y) + r2 =~= r2);
    } else if x.len() == 0 {
        lemma_elems_front(y);
        assert(elems_toks(x) + r1 =~= r1);
        assert((elems_toks(y) + r2)[1] == elem_toks(y[0])[1]);
    } else if y.len() == 0 {
        lemma_elems_front(x);
        assert(elems_toks(y) + r2 =~= r2);
        assert((elems_toks(x) + r1)[1] == elem_toks(x[0])[1]);
    } else {
        let xt = x.subrange(1, x.len() as int);
        let yt = y.subrange(1, y.len() as int);
        lemma_elems_front(x);
        lemma_elems_front(y);
        assert(elems_toks(x) + r1 =~= elem_toks(x[0]) + (elems_toks(xt) + r1));
        assert(elems_toks(y) + r2 =~= elem_toks(y[0]) + (elems_toks(yt) + r2));
        lemma_elem_unique(x[0], elems_toks(xt) + r1, y[0], elems_toks(yt) + r2);
        lemma_elems_unique(xt, r1, yt, r2);
        assert(x =~= seq![x[0]] + xt);
        assert(y =~= seq![y[0]] + yt);
    }
}

/// A list of two or more parameters is written as the first, a comma, then the rest.
pub proof fn lemma_args_front(s: Seq<Seq<char>>)
    requires
        s.len() >= 2,
    ensures
        args_toks(s) == seq![TokV::Ident(s[0]), TokV::Punct(',')] + args_toks(
            s.subrange(1, s.len() as int),
        ),
    decreases s.len(),
{
    let t = s.subrange(1, s.len() as int);
    let head = seq![TokV::Ident(s[0]), TokV::Punct(',')];
    let tail = seq![TokV::Punct(','), TokV::Ident(s.last())];
    if s.len() == 2 {
        assert(s.drop_last().len() == 1);
        assert(args_toks(s.drop_last()) == seq![TokV::Ident(s[0])]);
        assert(t.len() == 1);
        assert(args_toks(t) == seq![TokV::Ident(t[0])]);
        assert(args_toks(s) =~= head + args_toks(t));
    } else {
        lemma_args_front(s.drop_last());
        assert(s.drop_last().subrange(1, s.drop_last().len() as int) =~= t.drop_last());
        assert(args_toks(s) == args_toks(s.drop_last()) + tail);
        assert(args_toks(t) == args_toks(t.drop_last()) + tail);
        assert(args_toks(s) =~= head + args_toks(t));
    }
}

/// A parameter list followed by `)` is determined by its tokens.
pub proof fn lemma_args_unique(x: Seq<Seq<char>>, r1: Seq<TokV>, y: Seq<Seq<char>>, r2: Seq<TokV>)
    requires
        args_toks(x) + r1 == args_toks(y) + r2,
        r1.len() > 0 && r1[0] == TokV::Punct(')'),
        r2.len() > 0 && r2[0] == TokV::Punct(')'),
    ensures
        x == y,
        r1 == r2,
    decreases x.len(),
{
    let s = args_toks(x) + r1;
    if x.len() == 0 {
        assert(s =~= r1);
        if y.len() == 1 {
            assert(s[0] == args_toks(y)[0]);
        } else if y.len() >= 2 {
            lemma_args_front(y);
            assert(s[0] == args_toks(y)[0]);
        } else {
            assert(args_toks(y) + r2 =~= r2);
        }
    } else if x.len() == 1 {
        assert(args_toks(x) == seq![TokV::Ident(x[0])]);
        assert(s[0] == TokV::Ident(x[0]));
        if y.len() == 0 {
            assert(args_toks(y) + r2 =~= r2);
        } else if y.len() == 1 {
            assert(args_toks(y) == seq![TokV::Ident(y[0])]);
            lemma_split_eq(args_toks(x), r1, args_toks(y), r2);
            assert(x =~= y);
        } else {
            lemma_args_front(y);
            assert(s[1] == r1[0]);
            assert(s[1] == args_toks(y)[1]);
        }
    } else {
        lemma_args_front(x);
        let xt = x.subrange(1, x.len() as int);
        let hx = seq![TokV::Ident(x[0]), TokV::Punct(',')];
        assert(s =~= hx + (args_toks(xt) + r1));
        if y.len() == 0 {
            assert(args_toks(y) + r2 =~= r2);
            assert(s[0] == hx[0]);
        } else if y.len() == 1 {
            assert(args_toks(y) == seq![TokV::Ident(y[0])]);
            assert((args_toks(y) + r2)[1] == r2[0]);
            assert(s[1] == hx[1]);
        } else {
            lemma_args_front(y);
            let yt = y.subrange(1, y.len() as int);
            let hy = seq![TokV::Ident(y[0]), TokV::Punct(',')];
            assert(args_toks(y) + r2 =~= hy + (args_toks(yt) + r2));
            lemma_split_eq(hx, args_toks(xt) + r1, hy, args_toks(yt) + r2);
            assert(hx[0] == hy[0]);
            lemma_args_unique(xt, r1, yt, r2);
            assert(x =~= seq![x[0]] + xt);
            assert(y =~= seq![y[0]] + yt);
        }
    }
}

/// A declaration is determined by its tokens. Since a successful parse
/// returns a tree whose tokens are exactly the input, and printing a tree
/// yields exactly its tokens, parsing what was printed gives back the tree
/// that was printed, and printing what was parsed gives back the input.
pub proof fn lemma_round_trip(m1: MixinM, m2: MixinM)
    requires
        mixin_toks(m1) == mixin_toks(m2),
    ensures
        m1 == m2,
{
    let h1 = seq![TokV::Ident(m1.name), TokV::Punct('(')];
    let h2 = seq![TokV::Ident(m2.name), TokV::Punct('(')];
    let mid = seq![TokV::Punct(')'), TokV::Punct(',')];
    let t1 = mid + elem_toks(m1.root);
    let t2 = mid + elem_toks(m2.root);
    assert(mixin_toks(m1) =~= h1 + (args_toks(m1.args) + t1));
    assert(mixin_toks(m2) =~= h2 + (args_toks(m2.args) + t2));
    lemma_split_eq(h1, args_toks(m1.args) + t1, h2, args_toks(m2.args) + t2);
    assert(h1[0] == h2[0]);
    assert(t1[0] == mid[0] && t2[0] == mid[0]);
    lemma_args_unique(m1.args, t1, m2.args, t2);
    lemma_split_eq(mid, elem_toks(m1.root), mid, elem_toks(m2.root));
    assert(elem_toks(m1.root) + Seq::<TokV>::empty() =~= elem_toks(m1.root));
    assert(elem_toks(m2.root) + Seq::<TokV>::empty() =~= elem_toks(m2.root));
    lemma_elem_unique(m1.root, Seq::empty(), m2.root, Seq::empty());
}

} // verus!
