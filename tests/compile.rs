use mxml::{
    mixin, parse_mixin, Body, CompileError, EditOp, Generator, IdentOrAny, MatchPred, SpecNode,
    Tok, Value,
};

/// Splits declaration text into tokens: identifiers, string literals without
/// escapes, and one-character punctuation.
fn lex(src: &str) -> Vec<Tok> {
    let cs: Vec<char> = src.chars().collect();
    let mut out = Vec::new();
    let mut i = 0;
    while i < cs.len() {
        let c = cs[i];
        if c.is_whitespace() {
            i += 1;
        } else if c == '"' {
            let mut j = i + 1;
            while cs[j] != '"' {
                j += 1;
            }
            out.push(Tok::Str(cs[i + 1..j].iter().collect()));
            i = j + 1;
        } else if c.is_alphanumeric() || c == '_' {
            let mut j = i;
            while j < cs.len() && (cs[j].is_alphanumeric() || cs[j] == '_') {
                j += 1;
            }
            out.push(Tok::Ident(cs[i..j].iter().collect()));
            i = j;
        } else {
            out.push(Tok::Punct(c));
            i += 1;
        }
    }
    out
}

fn compile(src: &str) -> Result<Generator, CompileError> {
    mixin(&lex(src))
}

fn tag(s: &str) -> MatchPred {
    MatchPred::HasTag(s.to_string())
}

fn has(k: &str, v: &str) -> MatchPred {
    MatchPred::HasAttributeValue(k.to_string(), Value::Lit(v.to_string()))
}

fn add(k: &str, v: &str) -> EditOp {
    EditOp::AddAttribute(k.to_string(), Value::Lit(v.to_string()))
}

fn leaf(matching: Vec<MatchPred>, edit: Vec<EditOp>) -> SpecNode {
    SpecNode {
        root: mxml::Step { find: vec![], matching, edit },
        children: vec![],
    }
}

#[test]
fn misc1() {
    let g = compile(r#"abc(), <p ~a=""> <p ~b="" +c=""/> </p>"#).unwrap();
    assert_eq!(g.name, "abc");
    assert!(g.params.is_empty());
    let child = leaf(vec![tag("p"), has("b", "")], vec![add("c", "")]);
    let mut root = leaf(vec![tag("p"), has("a", "")], vec![]);
    root.children.push(child);
    assert_eq!(g.spec, root);
}

#[test]
fn misc2() {
    let g = compile(r#"de(), <p ~id="a" +class="b"/>"#).unwrap();
    assert_eq!(g.name, "de");
    assert_eq!(g.spec, leaf(vec![tag("p"), has("id", "a")], vec![add("class", "b")]));
}

#[test]
fn misc3() {
    let g = compile(r#"fg(), <p +id="a" ~class="b"/>"#).unwrap();
    assert_eq!(g.spec, leaf(vec![tag("p"), has("class", "b")], vec![add("id", "a")]));
}

#[test]
fn simple_tooltip() {
    let g = compile(
        r#"tooltip(message),
        <button ~"type"="button" +"data-toggle"="tooltip" +"data-placement"="top" +title={{message}}/>"#,
    )
    .unwrap();
    assert_eq!(g.name, "tooltip");
    assert_eq!(g.params, vec!["message".to_string()]);
    let mut edit = vec![add("data-toggle", "tooltip"), add("data-placement", "top")];
    edit.push(EditOp::AddAttribute("title".to_string(), Value::Param(0)));
    assert_eq!(g.spec, leaf(vec![tag("button"), has("type", "button")], edit));
}

#[test]
fn wildcard_root_has_no_tag_predicate() {
    let g = compile(r#"t(message), <? +"data-toggle"="tooltip" +title={{message}}/>"#).unwrap();
    let edit = vec![
        add("data-toggle", "tooltip"),
        EditOp::AddAttribute("title".to_string(), Value::Param(0)),
    ];
    assert_eq!(g.spec, leaf(vec![], edit));
}

#[test]
fn closing_tag_mismatch_reports_both_names() {
    let r = compile(r#"m(), <p ~a=""></q>"#);
    match r {
        Err(CompileError::ClosingTagMismatch { expected, found, pos }) => {
            assert_eq!(expected, "p");
            assert_eq!(found, IdentOrAny::Ident("q".to_string()));
            assert_eq!(pos, 13);
        }
        other => panic!("unexpected result {:?}", other),
    }
}

#[test]
fn nested_closing_tag_mismatch() {
    let r = compile(r#"m(), <div> <p/> <span></b> </div>"#);
    assert_eq!(
        r,
        Err(CompileError::ClosingTagMismatch {
            expected: "span".to_string(),
            found: IdentOrAny::Ident("b".to_string()),
            pos: 16,
        })
    );
}

#[test]
fn wildcard_closing_name_is_not_checked() {
    let g = compile(r#"m(), <? ~a="x"> <b/> </anything>"#).unwrap();
    let mut root = leaf(vec![has("a", "x")], vec![]);
    root.children.push(leaf(vec![tag("b")], vec![]));
    assert_eq!(g.spec, root);
}

#[test]
fn unresolved_parameter_is_an_error() {
    let r = compile(r#"m(a), <p +title={{b}}/>"#);
    assert_eq!(r, Err(CompileError::UnresolvedParameter { name: "b".to_string() }));
}

#[test]
fn duplicate_parameter_is_an_error() {
    let r = compile(r#"m(a, b, a), <p/>"#);
    assert_eq!(r, Err(CompileError::DuplicateParameter { pos: 6 }));
}

#[test]
fn parameters_resolve_by_position() {
    let g = compile(r#"m(a, b, c), <p +x={{c}} ~y={{a}}/>"#).unwrap();
    assert_eq!(g.params.len(), 3);
    let when = vec![
        tag("p"),
        MatchPred::HasAttributeValue("y".to_string(), Value::Param(0)),
    ];
    let edit = vec![EditOp::AddAttribute("x".to_string(), Value::Param(2))];
    assert_eq!(g.spec, leaf(when, edit));
}

#[test]
fn malformed_variable_reference() {
    let r = compile(r#"m(a), <p +x={a}/>"#);
    assert_eq!(r, Err(CompileError::MalformedVariableReference { pos: 10 }));
}

#[test]
fn missing_value_is_unexpected_token() {
    let r = compile(r#"m(), <p +x=/>"#);
    assert_eq!(r, Err(CompileError::UnexpectedToken { pos: 9 }));
}

#[test]
fn trailing_tokens_are_rejected() {
    let r = compile(r#"m(), <p/> x"#);
    assert_eq!(r, Err(CompileError::UnexpectedToken { pos: 8 }));
}

#[test]
fn empty_full_body_has_no_children() {
    let g = compile(r#"m(), <p></p>"#).unwrap();
    assert_eq!(g.spec, leaf(vec![tag("p")], vec![]));
}

#[test]
fn children_keep_source_order_and_depth() {
    let g = compile(r#"m(), <ul> <li ~n="1"/> <li ~n="2"> <a/> </li> <li ~n="3"/> </ul>"#).unwrap();
    let s = &g.spec;
    assert_eq!(s.children.len(), 3);
    assert_eq!(s.children[0].root.matching, vec![tag("li"), has("n", "1")]);
    assert_eq!(s.children[1].root.matching, vec![tag("li"), has("n", "2")]);
    assert_eq!(s.children[2].root.matching, vec![tag("li"), has("n", "3")]);
    assert_eq!(s.children[1].children.len(), 1);
    assert_eq!(s.children[1].children[0].root.matching, vec![tag("a")]);
    assert!(s.children[0].children.is_empty());
}

#[test]
fn attributes_are_routed_by_prefix() {
    let g = compile(r#"m(), <p +a="1" ~b="2" +c="3" ~d="4"/>"#).unwrap();
    assert_eq!(g.spec.root.find, vec![]);
    assert_eq!(g.spec.root.matching, vec![tag("p"), has("b", "2"), has("d", "4")]);
    assert_eq!(g.spec.root.edit, vec![add("a", "1"), add("c", "3")]);
}

#[test]
fn parse_keeps_tree_shape() {
    let m = parse_mixin(&lex(r#"m(x), <p ~"k"=v {{x}}/>"#));
    assert!(m.is_err());
    let m = parse_mixin(&lex(r#"m(x), <p ~"k"={{x}} +j="1"> <? /> </p>"#)).unwrap();
    assert_eq!(m.name, "m");
    assert_eq!(m.args, vec!["x".to_string()]);
    assert_eq!(m.fme.name, IdentOrAny::Ident("p".to_string()));
    assert_eq!(m.fme.attrs.len(), 2);
    match &m.fme.body {
        Body::FullBody(b) => {
            assert_eq!(b.children.len(), 1);
            assert_eq!(b.children[0].name, IdentOrAny::Any);
            assert_eq!(b.children[0].body, Body::SelfClosing);
            assert_eq!(b.closing, IdentOrAny::Ident("p".to_string()));
        }
        Body::SelfClosing => panic!("expected a full body"),
    }
}

#[test]
fn reparse_of_printed_tree_is_identical() {
    let src = r#"m(x, y), <div ~"data-k"="v" +t={{y}}> <? +a="1"/> <p> <b/> </p> </div>"#;
    let toks = lex(src);
    let m = parse_mixin(&toks).unwrap();
    let printed = m.print_tokens();
    assert_eq!(printed, toks);
    let again = parse_mixin(&printed).unwrap();
    assert_eq!(again, m);
}

#[test]
fn printing_quotes_string_keys_and_placeholders() {
    let m = parse_mixin(&lex(r#"n(v), <? +"k"={{v}}/>"#)).unwrap();
    let printed = m.print_tokens();
    assert_eq!(printed.len(), 17);
    assert_eq!(printed[8], Tok::Str("k".to_string()));
    assert_eq!(printed[10], Tok::Punct('{'));
    assert_eq!(printed[12], Tok::Ident("v".to_string()));
}

fn unexpected_at(src: &str) -> Result<mxml::Mixin, CompileError> {
    parse_mixin(&lex(src))
}

#[test]
fn missing_open_paren() {
    assert_eq!(unexpected_at(r#"m , <p/>"#), Err(CompileError::UnexpectedToken { pos: 1 }));
}

#[test]
fn missing_close_paren() {
    assert_eq!(unexpected_at(r#"m(a <p/>"#), Err(CompileError::UnexpectedToken { pos: 3 }));
}

#[test]
fn missing_comma_after_params() {
    assert_eq!(unexpected_at(r#"m(a) <p/>"#), Err(CompileError::UnexpectedToken { pos: 4 }));
}

#[test]
fn missing_final_bracket() {
    assert_eq!(unexpected_at(r#"m(), <p ~a=""/"#), Err(CompileError::UnexpectedToken { pos: 11 }));
}

#[test]
fn children_run_out_of_input() {
    assert_eq!(unexpected_at(r#"m(), <p> <b/>"#), Err(CompileError::UnexpectedToken { pos: 11 }));
}

#[test]
fn bad_attribute_key() {
    assert_eq!(unexpected_at(r#"m(), <p ~=""/>"#), Err(CompileError::UnexpectedToken { pos: 7 }));
}

#[test]
fn missing_attribute_equals() {
    assert_eq!(unexpected_at(r#"m(), <p ~a ""/>"#), Err(CompileError::UnexpectedToken { pos: 8 }));
}

#[test]
fn bare_identifier_value() {
    assert_eq!(unexpected_at(r#"m(), <p ~a=b/>"#), Err(CompileError::UnexpectedToken { pos: 9 }));
}
