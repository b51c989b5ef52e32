use offside_lexer::{new_lexer, new_lexer_no_indent, LexItem, Loc, TokenType};

fn layout(src: &str) -> Vec<LexItem> {
    let mut l = new_lexer_no_indent(new_lexer(src.chars().collect()));
    let mut out = Vec::new();
    while let Some(item) = l.next() {
        out.push(item);
    }
    out
}

fn render(src: &str) -> String {
    let words: Vec<String> = layout(src)
        .into_iter()
        .map(|item| match item.unwrap().token_type {
            TokenType::OpenParen => "(".to_string(),
            TokenType::CloseParen => ")".to_string(),
            TokenType::Identifier(s) | TokenType::Operator(s) | TokenType::FloatLiteral(s) => s,
            TokenType::StringLiteral(s) => format!("\"{}\"", s),
            TokenType::IntLiteral(v) => v.to_string(),
            other => panic!("marker left in the layout: {:?}", other),
        })
        .collect();
    words.join(" ")
}

fn balance(items: &[LexItem]) -> (usize, usize) {
    let mut opens = 0;
    let mut closes = 0;
    for item in items {
        match item {
            Ok(t) if t.token_type == TokenType::OpenParen => opens += 1,
            Ok(t) if t.token_type == TokenType::CloseParen => closes += 1,
            _ => {}
        }
    }
    (opens, closes)
}

#[test]
fn example_program_layout() {
    let src = "my-fun = fn (a b)\n        print \"hello\"";
    assert_eq!(render(src), "( my-fun = fn ( a b ) ( print \"hello\" ) )");
}

#[test]
fn single_bare_token_is_not_wrapped() {
    assert_eq!(render("x\nfoo\nfoo bar"), "( x foo ( foo bar ) )");
}

#[test]
fn line_starting_with_paren_is_not_wrapped() {
    assert_eq!(render("x\n(f a) b"), "( x ( f a ) b )");
}

#[test]
fn plain_lines_keep_the_tokens() {
    assert_eq!(render("a\nb\n42"), "( a b 42 )");
    let items = layout("a\nb");
    let first = items[0].as_ref().unwrap();
    assert_eq!(first.token_type, TokenType::OpenParen);
    assert_eq!(first.loc, Loc { line: 0, col: 0 });
    assert_eq!(items.len(), 4);
}

#[test]
fn multi_token_lines_keep_their_order() {
    assert_eq!(render("(a b c d)"), "( ( a b c d ) )");
    assert_eq!(render("x\n(p q r) s t\ny"), "( x ( p q r ) s t y )");
}

#[test]
fn indented_blocks() {
    let src = "map\n    123 43.74\nsome-call";
    assert_eq!(render(src), "( map ( 123 43.74 ) some-call )");
    let src = "a\n  b c\n    d\ne f";
    assert_eq!(render(src), "( a ( ( b c ) ( d ) ) ( e f ) )");
}

#[test]
fn output_is_balanced() {
    let srcs = [
        "my-fun = fn (a b)\n        print \"hello\"",
        "a\n  b\n      c\n        d\ne",
        "a\n  b\n    c d\n      e",
        "f x y\n  g\n\n  h i\n    j\nk",
        "",
        "solo",
    ];
    for src in srcs {
        let items = layout(src);
        let (opens, closes) = balance(&items);
        assert_eq!(opens, closes, "unbalanced layout for {:?}", src);
    }
}

#[test]
fn errors_pass_through_in_order() {
    let items = layout("a 99999999999999999999 b");
    assert_eq!(items.len(), 5);
    assert!(items[2].is_err());
    assert_eq!(items[1].as_ref().unwrap().token_type, TokenType::Identifier("a".to_string()));
    assert_eq!(items[3].as_ref().unwrap().token_type, TokenType::Identifier("b".to_string()));
}

#[test]
fn empty_program_is_one_empty_group() {
    assert_eq!(render(""), "( )");
}

#[test]
fn layout_errors_pass_through() {
    let items = layout("a\n    b\n  c");
    assert!(items.iter().any(|i| i.is_err()));
    let (opens, closes) = balance(&items);
    assert_eq!(opens, closes);
}
