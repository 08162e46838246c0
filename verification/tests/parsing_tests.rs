use kaiseki::parsing::{lex_tokens, might_be_anchor, parse, parse_anchor, Anchor, Op, ParseError, Token};

#[test]
fn test_might_be_anchor_1() {
    let str = "// ##[label(Processing)]  where we put all the imports";
    let result = might_be_anchor(str);

    assert!(result.is_some());
    let result = result.unwrap();
    assert_eq!(result, "##[label(Processing)]");
}

#[test]
fn test_might_be_anchor_2() {
    let str = ";;; ##[insert]";
    let result = might_be_anchor(str);

    assert!(result.is_some());
    let result = result.unwrap();
    assert_eq!(result, "##[insert]");
}

#[test]
fn test_might_be_anchor_failure_1() {
    let str = "#[macro_use]";
    assert!(might_be_anchor(str).is_none());
}

#[test]
fn test_might_be_anchor_failure_2() {
    let str = "// ##[]";
    assert!(might_be_anchor(str).is_none());
}

#[test]
fn test_might_be_anchor_failure_3() {
    let str = "extern crate docopt;";
    assert!(might_be_anchor(str).is_none());
}

#[test]
fn test_might_be_anchor_leftmost() {
    let str = "##[] first valid: ##[after(x)] and ##[insert]";
    let result = might_be_anchor(str).unwrap();
    assert_eq!(result, "##[after(x)]");
}

#[test]
fn test_might_be_anchor_stops_at_first_bracket() {
    let str = "before ##[insert] after]";
    let result = might_be_anchor(str).unwrap();
    assert_eq!(result, "##[insert]");
}

#[test]
fn test_parse_anchor_1() {
    let str = "##[insert]";
    let lex_result = lex_tokens(str).unwrap();
    let parse_result = parse_anchor(lex_result).unwrap();

    assert_eq!(parse_result, Anchor::Insert);
}

#[test]
fn test_parse_anchor_2() {
    let str = "##[before(Something Else)]";
    let lex_result = lex_tokens(str).unwrap();
    let parse_result = parse_anchor(lex_result).unwrap();

    assert_eq!(parse_result, Anchor::Before("(Something Else)".to_string()));
}

#[test]
fn test_parse_anchor_3() {
    let str = "##[after(kebab-case)]";
    let lex_result = lex_tokens(str).unwrap();
    let parse_result = parse_anchor(lex_result).unwrap();

    assert_eq!(parse_result, Anchor::After("(kebab-case)".to_string()));
}

#[test]
fn test_parse_anchor_4() {
    let str = "##[label(label)]";
    let lex_result = lex_tokens(str).unwrap();
    let parse_result = parse_anchor(lex_result).unwrap();

    assert_eq!(parse_result, Anchor::Label("(label)".to_string()));
}

#[test]
fn test_parse_anchor_fail_1() {
    let str = "##[label]";
    let lex_result = lex_tokens(str).unwrap();
    let parse_result = parse_anchor(lex_result);

    assert!(parse_result.is_err());
}

#[test]
fn test_parse_anchor_fail_2() {
    let str = "##[]";
    let lex_result = lex_tokens(str).unwrap();
    let parse_result = parse_anchor(lex_result);

    assert!(parse_result.is_err());
}

#[test]
fn test_parse_error_kinds() {
    assert_eq!(parse("##[bogus]"), Err(ParseError::Lex));
    assert_eq!(parse("##[label]"), Err(ParseError::Parse));
    assert_eq!(parse("##[insert]"), Ok(Anchor::Insert));
}

#[test]
fn test_lex_1() {
    let stream = "";
    let lexed = lex_tokens(stream);

    assert!(lexed.is_ok());

    let lexed = lexed.unwrap();

    assert_eq!(lexed.len(), 0);
}

#[test]
fn test_lex_2() {
    let stream = "]]]";
    let lexed = lex_tokens(stream);

    assert!(lexed.is_ok());

    let lexed = lexed.unwrap();

    assert_eq!(lexed.len(), 3);
    assert_eq!(&lexed as &[Token], [
        Token::AnchorEnd,
        Token::AnchorEnd,
        Token::AnchorEnd
    ]);
}

#[test]
fn test_lex_3() {
    let stream = "##[label(Processing)]";
    let lexed = lex_tokens(stream);

    assert!(lexed.is_ok());

    let lexed = lexed.unwrap();

    assert_eq!(lexed.len(), 4);
    assert_eq!(&lexed as &[Token], [
        Token::AnchorStart,
        Token::AnchorOp(Op::Label),
        Token::AnchorOpArg("(Processing)".to_string()),
        Token::AnchorEnd
    ]);
}

#[test]
fn test_lex_4() {
    let stream = "##[after(Processing)]";
    let lexed = lex_tokens(stream);

    assert!(lexed.is_ok());

    let lexed = lexed.unwrap();

    assert_eq!(lexed.len(), 4);
    assert_eq!(&lexed as &[Token], [
        Token::AnchorStart,
        Token::AnchorOp(Op::After),
        Token::AnchorOpArg("(Processing)".to_string()),
        Token::AnchorEnd
    ]);
}

#[test]
fn test_lex_5() {
    let stream = "##[before(Processing)]";
    let lexed = lex_tokens(stream);

    assert!(lexed.is_ok());

    let lexed = lexed.unwrap();

    assert_eq!(lexed.len(), 4);
    assert_eq!(&lexed as &[Token], [
        Token::AnchorStart,
        Token::AnchorOp(Op::Before),
        Token::AnchorOpArg("(Processing)".to_string()),
        Token::AnchorEnd
    ]);
}

#[test]
fn test_lex_6() {
    let stream = "##[insert]";
    let lexed = lex_tokens(stream);

    assert!(lexed.is_ok());

    let lexed = lexed.unwrap();

    assert_eq!(lexed.len(), 3);
    assert_eq!(&lexed as &[Token], [
        Token::AnchorStart,
        Token::AnchorOp(Op::Insert),
        Token::AnchorEnd
    ]);
}

#[test]
fn test_lex_7() {
    let stream = "##[label(kebab-case)]";
    let lexed = lex_tokens(stream);

    assert!(lexed.is_ok());

    let lexed = lexed.unwrap();

    assert_eq!(lexed.len(), 4);
    assert_eq!(&lexed as &[Token], [
        Token::AnchorStart,
        Token::AnchorOp(Op::Label),
        Token::AnchorOpArg("(kebab-case)".to_string()),
        Token::AnchorEnd
    ]);
}

#[test]
fn test_lex_8() {
    let stream = "##[label(Has Spaces)]";
    let lexed = lex_tokens(stream);

    assert!(lexed.is_ok());

    let lexed = lexed.unwrap();

    assert_eq!(lexed.len(), 4);
    assert_eq!(&lexed as &[Token], [
        Token::AnchorStart,
        Token::AnchorOp(Op::Label),
        Token::AnchorOpArg("(Has Spaces)".to_string()),
        Token::AnchorEnd
    ]);
}

#[test]
fn test_lex_failure_1() {
    let stream = "[[[";
    let lexed = lex_tokens(stream);

    assert!(lexed.is_err());
}

#[test]
fn test_lex_failure_2() {
    let stream = "// 101";
    let lexed = lex_tokens(stream);

    assert!(lexed.is_err());
}

#[test]
fn test_lex_underscore_argument() {
    let stream = "##[label(snake_case_9)]";
    let lexed = lex_tokens(stream).unwrap();
    assert_eq!(&lexed as &[Token], [
        Token::AnchorStart,
        Token::AnchorOp(Op::Label),
        Token::AnchorOpArg("(snake_case_9)".to_string()),
        Token::AnchorEnd
    ]);
}

#[test]
fn test_lex_empty_argument_fails() {
    assert!(lex_tokens("##[label()]").is_err());
}
