use offside_lexer::{
    dedent_level, get_indent_level, new_lexer, Lexer, LexerErrorType, Loc, TokenType,
};

fn lex(src: &str) -> Lexer {
    new_lexer(src.chars().collect())
}

fn kinds(src: &str) -> Vec<TokenType> {
    let mut lexer = lex(src);
    let mut out = Vec::new();
    while let Some(item) = lexer.next() {
        out.push(item.unwrap().token_type);
    }
    out
}

fn ident(s: &str) -> TokenType {
    TokenType::Identifier(s.to_string())
}

#[test]
fn test_lexer() {
    let program = r#"my-fun = fn (a b)
                print "hello world"

                map
                    123 43.74
                some-call
                line-ends-here
            dedented-all-the-way
                indent-one-level
                    indent-two-levels
            dedent-again"#;
    let mut lexer = new_lexer(program.chars().collect());

    let tok = lexer.next().unwrap().unwrap();
    assert_eq!(TokenType::Identifier("my-fun".to_string()), tok.token_type);

    let tok = lexer.next().unwrap().unwrap();
    assert_eq!(TokenType::Operator("=".to_string()), tok.token_type);

    let tok = lexer.next().unwrap().unwrap();
    assert_eq!(TokenType::Identifier("fn".to_string()), tok.token_type);

    let tok = lexer.next().unwrap().unwrap();
    assert_eq!(TokenType::OpenParen, tok.token_type);

    let tok = lexer.next().unwrap().unwrap();
    assert_eq!(TokenType::Identifier("a".to_string()), tok.token_type);

    let tok = lexer.next().unwrap().unwrap();
    assert_eq!(TokenType::Identifier("b".to_string()), tok.token_type);

    let tok = lexer.next().unwrap().unwrap();
    assert_eq!(TokenType::CloseParen, tok.token_type);

    let tok = lexer.next().unwrap().unwrap();
    assert_eq!(TokenType::Indent(1), tok.token_type);

    let tok = lexer.next().unwrap().unwrap();
    assert_eq!(TokenType::Identifier("print".to_string()), tok.token_type);

    let tok = lexer.next().unwrap().unwrap();
    assert_eq!(TokenType::StringLiteral("hello world".to_string()), tok.token_type);

    let tok = lexer.next().unwrap().unwrap();
    assert_eq!(TokenType::LineEnd, tok.token_type);

    let tok = lexer.next().unwrap().unwrap();
    assert_eq!(TokenType::Identifier("map".to_string()), tok.token_type);

    let tok = lexer.next().unwrap().unwrap();
    assert_eq!(TokenType::Indent(1), tok.token_type);

    let tok = lexer.next().unwrap().unwrap();
    assert_eq!(TokenType::IntLiteral(123), tok.token_type);

    let tok = lexer.next().unwrap().unwrap();
    match tok.token_type {
        TokenType::FloatLiteral(text) => assert_eq!(43.74, text.parse::<f32>().unwrap()),
        other => panic!("expected a float literal, got {:?}", other),
    }

    let tok = lexer.next().unwrap().unwrap();
    assert_eq!(TokenType::Dedent(1), tok.token_type);

    let tok = lexer.next().unwrap().unwrap();
    assert_eq!(TokenType::Identifier("some-call".to_string()), tok.token_type);
    let tok = lexer.next().unwrap().unwrap();
    assert_eq!(TokenType::LineEnd, tok.token_type);

    let tok = lexer.next().unwrap().unwrap();
    assert_eq!(TokenType::Identifier("line-ends-here".to_string()), tok.token_type);

    // 12 spaces: no open level starts at that depth, a layout error
    let err = lexer.next().unwrap().unwrap_err();
    assert_eq!(LexerErrorType::InconsistentDedent(12), err.error_type);

    let tok = lexer.next().unwrap().unwrap();
    assert_eq!(TokenType::Identifier("dedented-all-the-way".to_string()), tok.token_type);

    // the stack was left as it was, at depth 16
    let tok = lexer.next().unwrap().unwrap();
    assert_eq!(TokenType::LineEnd, tok.token_type);

    let tok = lexer.next().unwrap().unwrap();
    assert_eq!(TokenType::Identifier("indent-one-level".to_string()), tok.token_type);

    let tok = lexer.next().unwrap().unwrap();
    assert_eq!(TokenType::Indent(1), tok.token_type);

    let tok = lexer.next().unwrap().unwrap();
    assert_eq!(TokenType::Identifier("indent-two-levels".to_string()), tok.token_type);

    let err = lexer.next().unwrap().unwrap_err();
    assert_eq!(LexerErrorType::InconsistentDedent(12), err.error_type);

    let tok = lexer.next().unwrap().unwrap();
    assert_eq!(TokenType::Identifier("dedent-again".to_string()), tok.token_type);

    // the end of the input closes the two levels still open
    let tok = lexer.next().unwrap().unwrap();
    assert_eq!(TokenType::Dedent(2), tok.token_type);

    let tok = lexer.next();
    assert!(tok.is_none());
}

#[test]
fn example_program_raw_tokens() {
    let src = "my-fun = fn (a b)\n        print \"hello\"";
    assert_eq!(
        kinds(src),
        vec![
            ident("my-fun"),
            TokenType::Operator("=".to_string()),
            ident("fn"),
            TokenType::OpenParen,
            ident("a"),
            ident("b"),
            TokenType::CloseParen,
            TokenType::Indent(1),
            ident("print"),
            TokenType::StringLiteral("hello".to_string()),
            TokenType::Dedent(1),
        ]
    );
}

#[test]
fn numeric_literals() {
    assert_eq!(kinds("123"), vec![TokenType::IntLiteral(123)]);
    assert_eq!(kinds("-5"), vec![TokenType::IntLiteral(-5)]);
    assert_eq!(kinds("43.74"), vec![TokenType::FloatLiteral("43.74".to_string())]);
    assert_eq!(kinds(".5"), vec![TokenType::FloatLiteral(".5".to_string())]);
    assert_eq!(kinds("+7.5"), vec![TokenType::FloatLiteral("+7.5".to_string())]);
    assert_eq!(kinds("+7"), vec![ident("+7")]);
    assert_eq!(
        kinds("1.5e3 -0.5E-3"),
        vec![
            TokenType::FloatLiteral("1.5e3".to_string()),
            TokenType::FloatLiteral("-0.5E-3".to_string()),
        ]
    );
    // no `.` followed by a digit: not meant as a float
    assert_eq!(kinds("1e5 2. x2"), vec![ident("1e5"), ident("2."), ident("x2")]);
    assert_eq!(
        kinds("-9223372036854775808 9223372036854775807"),
        vec![TokenType::IntLiteral(i64::MIN), TokenType::IntLiteral(i64::MAX)]
    );
}

#[test]
fn int_overflow_is_an_error() {
    let mut lexer = lex("9223372036854775808 x");
    let err = lexer.next().unwrap().unwrap_err();
    assert_eq!(
        err.error_type,
        LexerErrorType::InvalidIntLiteral("9223372036854775808".to_string())
    );
    assert_eq!(err.loc, Loc { line: 1, col: 1 });
    // the lexer goes on after an error
    assert_eq!(lexer.next().unwrap().unwrap().token_type, ident("x"));
    assert!(lexer.next().is_none());
}

#[test]
fn malformed_float_is_an_error() {
    let mut lexer = lex("3.4.5");
    let err = lexer.next().unwrap().unwrap_err();
    assert_eq!(err.error_type, LexerErrorType::InvalidFloatLiteral("3.4.5".to_string()));
    let mut lexer = lex("x.5");
    let err = lexer.next().unwrap().unwrap_err();
    assert_eq!(err.error_type, LexerErrorType::InvalidFloatLiteral("x.5".to_string()));
    let mut lexer = lex("1.5e");
    let err = lexer.next().unwrap().unwrap_err();
    assert_eq!(err.error_type, LexerErrorType::InvalidFloatLiteral("1.5e".to_string()));
}

#[test]
fn operators_only_as_whole_words() {
    assert_eq!(kinds("a==b"), vec![ident("a==b")]);
    assert_eq!(
        kinds("a == b"),
        vec![ident("a"), TokenType::Operator("==".to_string()), ident("b")]
    );
    assert_eq!(kinds("a+b"), vec![ident("a+b")]);
    let ops = ["+", "-", "*", "/", "^", "%", "and", "or", "not", "==", "!=", ">", "<", "<=", ">=", "=", ":=", "v="];
    for op in ops {
        assert_eq!(kinds(op), vec![TokenType::Operator(op.to_string())]);
    }
    assert_eq!(kinds("andy"), vec![ident("andy")]);
}

#[test]
fn strings_and_parens() {
    assert_eq!(
        kinds("(f \"a (b) c\")"),
        vec![
            TokenType::OpenParen,
            ident("f"),
            TokenType::StringLiteral("a (b) c".to_string()),
            TokenType::CloseParen,
        ]
    );
    // an unterminated string is a layout error, at its opening quote
    let mut lexer = lex("x \"abc");
    assert_eq!(lexer.next().unwrap().unwrap().token_type, ident("x"));
    let err = lexer.next().unwrap().unwrap_err();
    assert_eq!(err.error_type, LexerErrorType::UnterminatedString("abc".to_string()));
    assert_eq!(err.loc, Loc { line: 1, col: 3 });
    assert!(lexer.next().is_none());
    assert_eq!(kinds("\"\""), vec![TokenType::StringLiteral(String::new())]);
}

#[test]
fn positions_of_tokens() {
    let mut lexer = lex("ab  cd\n  ef");
    let t = lexer.next().unwrap().unwrap();
    assert_eq!(t.loc, Loc { line: 1, col: 1 });
    let t = lexer.next().unwrap().unwrap();
    assert_eq!(t.loc, Loc { line: 1, col: 5 });
    let t = lexer.next().unwrap().unwrap();
    assert_eq!(t.token_type, TokenType::Indent(1));
    assert_eq!(t.loc, Loc { line: 2, col: 0 });
    let t = lexer.next().unwrap().unwrap();
    assert_eq!(t.loc, Loc { line: 2, col: 3 });
}

#[test]
fn dedent_collapses_levels() {
    // levels of width 2, 4 and 2, then back to column zero
    let src = "a\n  b\n      c\n        d\ne";
    assert_eq!(
        kinds(src),
        vec![
            ident("a"),
            TokenType::Indent(1),
            ident("b"),
            TokenType::Indent(1),
            ident("c"),
            TokenType::Indent(1),
            ident("d"),
            TokenType::Dedent(3),
            ident("e"),
        ]
    );
}

#[test]
fn indent_stack_functions() {
    let mut stack: Vec<usize> = vec![2, 4, 2];
    assert_eq!(get_indent_level(&stack), 8);
    assert_eq!(dedent_level(&mut stack, 6), 1);
    assert_eq!(stack, vec![2, 4]);
    assert_eq!(dedent_level(&mut stack, 6), 0);
    let mut stack: Vec<usize> = vec![2, 4, 2];
    assert_eq!(dedent_level(&mut stack, 0), 3);
    assert!(stack.is_empty());
    assert_eq!(get_indent_level(&Vec::new()), 0);
}

#[test]
fn blank_lines_are_ignored() {
    assert_eq!(kinds("a\n\n   \n\t\nb"), vec![ident("a"), TokenType::LineEnd, ident("b")]);
    assert_eq!(
        kinds("a\n  b\n\n  c"),
        vec![ident("a"), TokenType::Indent(1), ident("b"), TokenType::LineEnd, ident("c"), TokenType::Dedent(1)]
    );
    // a blank line does not hide the dedent of the line after it
    assert_eq!(
        kinds("a\n  b\n\nc"),
        vec![ident("a"), TokenType::Indent(1), ident("b"), TokenType::Dedent(1), ident("c")]
    );
}

#[test]
fn empty_input() {
    assert!(kinds("").is_empty());
    assert!(kinds("   ").is_empty());
}

#[test]
fn tabs_are_not_indentation() {
    assert_eq!(kinds("a\n\tb"), vec![ident("a"), TokenType::LineEnd, ident("b")]);
    // levels of width 1 and 1, then a line of a tab: zero spaces, both close
    assert_eq!(
        kinds("a\n b\n  c\n\td"),
        vec![
            ident("a"),
            TokenType::Indent(1),
            ident("b"),
            TokenType::Indent(1),
            ident("c"),
            TokenType::Dedent(2),
            ident("d"),
        ]
    );
}

#[test]
fn carriage_returns_are_whitespace() {
    assert!(kinds("\r").is_empty());
    assert_eq!(
        kinds("a b\r\n  c\r\n"),
        vec![ident("a"), ident("b"), TokenType::Indent(1), ident("c"), TokenType::LineEnd, TokenType::Dedent(1)]
    );
}

#[test]
fn inconsistent_dedent_is_a_layout_error() {
    let mut lexer = lex("a\n    b\n  c");
    assert_eq!(lexer.next().unwrap().unwrap().token_type, ident("a"));
    assert_eq!(lexer.next().unwrap().unwrap().token_type, TokenType::Indent(1));
    assert_eq!(lexer.next().unwrap().unwrap().token_type, ident("b"));
    let err = lexer.next().unwrap().unwrap_err();
    assert_eq!(err.error_type, LexerErrorType::InconsistentDedent(2));
    assert_eq!(err.loc, Loc { line: 3, col: 0 });
    assert_eq!(lexer.next().unwrap().unwrap().token_type, ident("c"));
    assert_eq!(lexer.next().unwrap().unwrap().token_type, TokenType::Dedent(1));
    assert!(lexer.next().is_none());
}

#[test]
fn digits_are_ascii_only() {
    assert_eq!(kinds("\u{663}"), vec![ident("\u{663}")]);
}

#[test]
fn blank_lines_change_no_item() {
    let cases = [
        ("a\n\n\n  b", "a\n  b"),
        ("a\n  b\n   \n\t\nc", "a\n  b\nc"),
        ("f x\n    \n  g (y)\n\n", "f x\n  g (y)\n"),
    ];
    for (with, without) in cases {
        assert_eq!(kinds(with), kinds(without), "{:?}", with);
    }
}
