use efx_core::{parse_str, Node};

#[test]
fn empty_input_is_empty_ast() {
    let ast = parse_str("").unwrap();
    assert!(ast.is_empty());
}

#[test]
fn self_closing_exact_shape() {
    let ast = parse_str("<Separator/>").unwrap();
    assert_eq!(ast.len(), 1);
    match &ast[0] {
        Node::Element(el) => {
            assert_eq!(el.name, "Separator");
            assert!(el.attrs.is_empty());
            assert!(el.children.is_empty());
            assert_eq!(el.span.start.0, 0);
            assert_eq!(el.span.end.0, 12);
        }
        _ => panic!("expected element"),
    }
}

#[test]
fn nested_structure_preserved() {
    let src = "<Row><Label>Hello {name}</Label><Separator/></Row>";
    let ast = parse_str(src).unwrap();
    assert_eq!(ast.len(), 1);
    let row = match &ast[0] {
        Node::Element(el) => el,
        _ => panic!("expected root element"),
    };
    assert_eq!(row.name, "Row");
    assert_eq!(row.children.len(), 2);
    let label = match &row.children[0] {
        Node::Element(el) => el,
        _ => panic!("expected Label element"),
    };
    assert_eq!(label.name, "Label");
    assert_eq!(label.children.len(), 2);
    match &label.children[0] {
        Node::Text(t) => assert_eq!(t.value, "Hello "),
        _ => panic!("expected text child"),
    }
    match &label.children[1] {
        Node::I11n(i) => assert_eq!(i.expr_src, "name"),
        _ => panic!("expected interpolation child"),
    }
    match &row.children[1] {
        Node::Element(el) => {
            assert_eq!(el.name, "Separator");
            assert!(el.children.is_empty());
        }
        _ => panic!("expected Separator element"),
    }
}

#[test]
fn nested_brace_rejected() {
    let err = parse_str("{a{b}").unwrap_err();
    assert!(err.msg.contains("nested"));
    assert_eq!(err.msg, "nested '{' in interpolation");
}

#[test]
fn text_node_spans_whole_source() {
    let src = "Hello {{world}}!";
    let ast = parse_str(src).unwrap();
    match &ast[0] {
        Node::Text(t) => {
            assert_eq!(t.value, "Hello {world}!");
            assert_eq!(t.span.start.0, 0);
            assert_eq!(t.span.end.0, src.len());
        }
        _ => panic!("expected text node"),
    }
}

#[test]
fn spans_are_byte_offsets() {
    // the accented character takes two bytes, so spans count bytes
    let src = "Héllo {{x}}";
    let ast = parse_str(src).unwrap();
    assert_eq!(ast.len(), 1);
    match &ast[0] {
        Node::Text(t) => {
            assert_eq!(t.value, "Héllo {x}");
            assert_eq!(t.span.start.0, 0);
            assert_eq!(t.span.end.0, src.len());
        }
        _ => panic!("expected text node"),
    }
}

#[test]
fn element_span_covers_tags() {
    let src = "<A>x</A>";
    let ast = parse_str(src).unwrap();
    match &ast[0] {
        Node::Element(el) => {
            assert_eq!(el.span.start.0, 0);
            assert_eq!(el.span.end.0, 8);
        }
        _ => panic!("expected element"),
    }
}

#[test]
fn interpolation_span_and_value() {
    let src = "{ 40 + 2 }";
    let ast = parse_str(src).unwrap();
    match &ast[0] {
        Node::I11n(i) => {
            assert_eq!(i.expr_src, " 40 + 2 ");
            assert_eq!(i.span.start.0, 0);
            assert_eq!(i.span.end.0, 10);
        }
        _ => panic!("expected interpolation"),
    }
}

#[test]
fn attribute_value_may_contain_slash() {
    let src = r#"<Link href="https://example.org/x"></Link>"#;
    let ast = parse_str(src).unwrap();
    match &ast[0] {
        Node::Element(el) => {
            assert_eq!(el.attrs.len(), 1);
            assert_eq!(el.attrs[0].name, "href");
            assert_eq!(el.attrs[0].value, "https://example.org/x");
        }
        _ => panic!("expected element"),
    }
}

#[test]
fn attrs_share_buffer_span() {
    let src = r#"<L a="1" b="2"/>"#;
    let ast = parse_str(src).unwrap();
    match &ast[0] {
        Node::Element(el) => {
            assert_eq!(el.attrs.len(), 2);
            assert_eq!(el.attrs[0].span, el.attrs[1].span);
        }
        _ => panic!("expected element"),
    }
}

#[test]
fn attr_buffer_span_starts_after_name() {
    // the head token "L a=\"1\"" starts at byte 1; the name "L" is one
    // byte, so the attribute buffer (the reinserted remainder) spans 2..8
    let src = r#"<L a="1"/>"#;
    let ast = parse_str(src).unwrap();
    match &ast[0] {
        Node::Element(el) => {
            assert_eq!(el.attrs[0].span.start.0, 2);
            assert_eq!(el.attrs[0].span.end.0, 8);
        }
        _ => panic!("expected element"),
    }
}

#[test]
fn attr_buffer_span_counts_name_bytes() {
    // the tag name holds a two-byte character, so the remainder begins
    // at byte 4, not at character index 3
    let src = "<Aé x=\"1\"/>";
    let ast = parse_str(src).unwrap();
    match &ast[0] {
        Node::Element(el) => {
            assert_eq!(el.name, "Aé");
            assert_eq!(el.attrs[0].name, "x");
            assert_eq!(el.attrs[0].span.start.0, 4);
        }
        _ => panic!("expected element"),
    }
}

#[test]
fn single_quoted_attribute_value() {
    let src = "<L a='x y'/>";
    let ast = parse_str(src).unwrap();
    match &ast[0] {
        Node::Element(el) => {
            assert_eq!(el.attrs[0].value, "x y");
        }
        _ => panic!("expected element"),
    }
}
