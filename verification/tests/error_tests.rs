use efx_core::parse_str;

#[test]
fn unexpected_token_at_top_level() {
    let err = parse_str("/").unwrap_err();
    assert_eq!(err.msg, "unexpected token: Slash");
    assert_eq!(err.span.start.0, 0);
    assert_eq!(err.span.end.0, 1);
    let err = parse_str(">").unwrap_err();
    assert_eq!(err.msg, "unexpected token: RAngle");
}

#[test]
fn eof_reading_tag_name() {
    let err = parse_str("<").unwrap_err();
    assert_eq!(err.msg, "unexpected EOF when reading tag name");
    assert_eq!(err.span.start.0, 1);
    assert_eq!(err.span.end.0, 1);
}

#[test]
fn invalid_tag_name() {
    let err = parse_str("< a>x</a>").unwrap_err();
    assert_eq!(err.msg, "invalid tag name");
}

#[test]
fn expected_tag_name() {
    let err = parse_str("<{x}>").unwrap_err();
    assert_eq!(err.msg, "expected tag name");
}

#[test]
fn eof_in_tag_head() {
    let err = parse_str("<a").unwrap_err();
    assert_eq!(err.msg, "unexpected EOF in tag head");
}

#[test]
fn stray_slash_in_tag_head() {
    let err = parse_str("<a{{/x>").unwrap_err();
    assert_eq!(err.msg, "unexpected '/' in tag head");
}

#[test]
fn eof_in_element_body() {
    let err = parse_str("<a>x").unwrap_err();
    assert_eq!(err.msg, "unexpected EOF in element body");
}

#[test]
fn unexpected_token_in_element_body() {
    let err = parse_str("<a>></a>").unwrap_err();
    assert_eq!(err.msg, "unexpected token in element body: RAngle");
}

#[test]
fn expected_rangle_after_closing_name() {
    let err = parse_str("<a></a}").unwrap_err();
    assert_eq!(err.msg, "expected RAngle");
}

#[test]
fn unmatched_closing_tag_message_names_opener() {
    let err = parse_str("<A>oops</B>").unwrap_err();
    assert_eq!(err.msg, "unmatched closing tag: expected </A>");
    // the span points at the mismatched closing name
    assert_eq!(err.span.start.0, 9);
    assert_eq!(err.span.end.0, 10);
}

#[test]
fn eof_in_interpolation() {
    let err = parse_str("{a").unwrap_err();
    assert_eq!(err.msg, "unexpected EOF in { }");
}

#[test]
fn unexpected_token_inside_interpolation() {
    let err = parse_str("{a<b}").unwrap_err();
    assert_eq!(err.msg, "unexpected token inside { }");
}

#[test]
fn error_to_message_includes_byte_range() {
    let err = parse_str("<A>oops</B>").unwrap_err();
    assert_eq!(
        err.to_message(),
        "unmatched closing tag: expected </A> at bytes 9..10"
    );
}

#[test]
fn attr_invalid_name() {
    let err = parse_str(r#"<A =""></A>"#).unwrap_err();
    assert_eq!(err.msg, "invalid attribute name");
}

#[test]
fn attr_missing_eq() {
    let err = parse_str("<A x></A>").unwrap_err();
    assert_eq!(err.msg, "expected '=' after attribute 'x'");
}

#[test]
fn attr_missing_quote() {
    let err = parse_str("<A x=1></A>").unwrap_err();
    assert_eq!(err.msg, "expected quote after '=' in attribute 'x'");
}

#[test]
fn attr_unterminated_value() {
    let err = parse_str(r#"<A x="1></A>"#).unwrap_err();
    assert_eq!(err.msg, "unterminated quoted value for attribute 'x'");
}
