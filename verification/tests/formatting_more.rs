use colored::{Color, Style, Styles};
use occasion::formatting::{
    FormatError, FormatNode, FormatString, FormatStringNode, Parser, Token,
};

fn single_group(input: &str) -> FormatNode {
    let parsed = FormatString::try_from(input.to_string()).unwrap();
    let mut nodes = parsed.nodes;
    assert_eq!(nodes.len(), 1);
    match nodes.remove(0) {
        FormatStringNode::Formatted(node) => node,
        other => panic!("expected a group, got {other:?}"),
    }
}

#[test]
fn hex_colours_become_true_colours() {
    let node = single_group("(x)[fg:#ff0080 bg:#0A0b0C]");
    assert_eq!(node.fg, Some(Color::TrueColor { r: 255, g: 0, b: 128 }));
    assert_eq!(node.bg, Some(Color::TrueColor { r: 10, g: 11, b: 12 }));
    assert_eq!(node.style, Style::default());
}

#[test]
fn hex_bytes_past_the_sixth_are_ignored() {
    let node = single_group("(x)[fg:#102030zz]");
    assert_eq!(node.fg, Some(Color::TrueColor { r: 16, g: 32, b: 48 }));
}

#[test]
fn hex_channel_may_carry_a_plus_sign() {
    let node = single_group("(x)[fg:#+f0102]");
    assert_eq!(node.fg, Some(Color::TrueColor { r: 15, g: 1, b: 2 }));
}

#[test]
fn first_colour_wins() {
    let node = single_group("(x)[fg:red fg:blue bg:cyan bg:#000000]");
    assert_eq!(node.fg, Some(Color::Red));
    assert_eq!(node.bg, Some(Color::Cyan));
}

#[test]
fn unknown_colour_name_is_white() {
    let node = single_group("(x)[fg:pink]");
    assert_eq!(node.fg, Some(Color::White));
}

#[test]
fn style_words_are_case_insensitive() {
    let node = single_group("(x)[BOLD Italic strikeTHROUGH]");
    assert_eq!(
        node.style,
        Style::from_iter([Styles::Bold, Styles::Italic, Styles::Strikethrough])
    );
}

#[test]
fn every_style_word_is_known() {
    let node = single_group("(x)[clear bold dimmed underline reversed italic blink hidden strikethrough]");
    assert_eq!(
        node.style,
        Style::from_iter([
            Styles::Bold,
            Styles::Dimmed,
            Styles::Underline,
            Styles::Reversed,
            Styles::Italic,
            Styles::Blink,
            Styles::Hidden,
            Styles::Strikethrough,
        ])
    );
}

#[test]
fn clear_alone_is_the_plain_style() {
    let node = single_group("(x)[clear]");
    assert_eq!(node.style, Style::default());
    assert_eq!(node.fg, None);
}

#[test]
fn empty_style_word_is_invalid() {
    let r = FormatString::try_from("(x)[bold  italic]".to_string());
    assert!(matches!(r, Err(FormatError::InvalidStyle)));
}

#[test]
fn invalid_hex_before_a_short_code() {
    let r = FormatString::try_from("(x)[fg:#ZZ]".to_string());
    assert!(matches!(r, Err(FormatError::InvalidHex(_))));
}

#[test]
fn multibyte_hex_digit_is_invalid_hex() {
    let r = FormatString::try_from("(x)[fg:#\u{e9}0000]".to_string());
    assert!(matches!(r, Err(FormatError::InvalidHex(_))));
}

#[test]
fn short_hex_code_cannot_be_sliced() {
    assert!(FormatString::parse_checked("(x)[fg:#A]".to_string()).is_none());
    assert!(FormatString::parse_checked("(x)[bg:#ff]".to_string()).is_none());
    assert!(FormatString::parse_checked("(x)[fg:#f\u{20ac}0000]".to_string()).is_none());
}

#[test]
fn checked_parse_agrees_where_defined() {
    let r = FormatString::parse_checked("a (b)[fg:#010203] c".to_string());
    let expected = FormatString {
        nodes: vec![
            FormatStringNode::String("a ".to_string()),
            FormatStringNode::Formatted(FormatNode {
                children: vec![FormatStringNode::String("b".to_string())],
                fg: Some(Color::TrueColor { r: 1, g: 2, b: 3 }),
                ..Default::default()
            }),
            FormatStringNode::String(" c".to_string()),
        ],
    };
    assert_eq!(r.unwrap().unwrap(), expected);
    let e = FormatString::parse_checked("(x)[nope]".to_string());
    assert!(matches!(e, Some(Err(FormatError::InvalidStyle))));
}

#[test]
fn style_list_must_follow_the_content() {
    let r = FormatString::try_from("(x) [bold]".to_string());
    assert!(matches!(r, Err(FormatError::UnmatchedBracket)));
    let r = FormatString::try_from("(x)]".to_string());
    assert!(matches!(r, Err(FormatError::UnmatchedBracket)));
    let r = FormatString::try_from("(x)".to_string());
    assert!(matches!(r, Err(FormatError::TrailingBracket)));
}

#[test]
fn stray_closing_bracket_at_top_level() {
    let r = FormatString::try_from("(a)[bold]]".to_string());
    assert!(matches!(r, Err(FormatError::UnmatchedBracket)));
    let r = FormatString::try_from("a[b".to_string());
    assert!(matches!(r, Err(FormatError::UnmatchedBracket)));
}

#[test]
fn style_bracket_inside_content_is_unmatched() {
    let r = FormatString::try_from("((a)[bold] ]".to_string());
    assert!(matches!(r, Err(FormatError::UnmatchedBracket)));
    let r = FormatString::try_from("(a)[bold(".to_string());
    assert!(matches!(r, Err(FormatError::UnmatchedBracket)));
}

#[test]
fn empty_group_and_empty_style_list() {
    let node = single_group("()[]");
    assert!(node.children.is_empty());
    assert_eq!(node.style, Style::default());
    assert_eq!(node.fg, None);
    assert_eq!(node.bg, None);
}

#[test]
fn empty_input_parses_to_nothing() {
    let r = FormatString::try_from(String::new()).unwrap();
    assert!(r.nodes.is_empty());
    assert!(Parser::tokenize(String::new()).tokens.is_empty());
}

#[test]
fn trailing_backslash_is_dropped() {
    let p = Parser::tokenize("abc\\".to_string());
    assert_eq!(p.tokens, [Token::Literal("abc".to_string())]);
    assert_eq!(p.pos, 0);
}

#[test]
fn escaped_backslash_is_literal() {
    let p = Parser::tokenize("a\\\\(b)[c]".to_string());
    assert_eq!(
        p.tokens,
        [
            Token::Literal("a\\".to_string()),
            Token::OpenContent,
            Token::Literal("b".to_string()),
            Token::CloseContent,
            Token::OpenStyle,
            Token::Literal("c".to_string()),
            Token::CloseStyle,
        ]
    );
}

#[test]
fn escaped_text_parses_to_itself() {
    let r = FormatString::try_from("x\\(y\\)\\[z\\]\\\\".to_string()).unwrap();
    assert_eq!(r.nodes, vec![FormatStringNode::String("x(y)[z]\\".to_string())]);
}

#[test]
fn literal_runs_are_maximal() {
    let p = Parser::tokenize("a\\(b\\)c()[]d".to_string());
    assert_eq!(
        p.tokens,
        [
            Token::Literal("a(b)c".to_string()),
            Token::OpenContent,
            Token::CloseContent,
            Token::OpenStyle,
            Token::CloseStyle,
            Token::Literal("d".to_string()),
        ]
    );
}

#[test]
fn parse_starts_at_the_read_position() {
    let mut p = Parser::tokenize("a)b".to_string());
    p.pos = 2;
    let r = p.parse().unwrap();
    assert_eq!(r.nodes, vec![FormatStringNode::String("b".to_string())]);
}

#[test]
fn style_words_reset_per_literal_but_colours_persist() {
    let node = single_group("(x)[fg:red bold[italic]");
    assert_eq!(node.fg, Some(Color::Red));
    assert_eq!(node.style, Style::from(Styles::Italic));
}

#[test]
fn plain_input_renders_back() {
    let input = "a (b)[c] d]";
    let p = Parser::tokenize(input.to_string());
    let rendered: String = p
        .tokens
        .iter()
        .map(|t| match t {
            Token::OpenContent => "(".to_string(),
            Token::CloseContent => ")".to_string(),
            Token::OpenStyle => "[".to_string(),
            Token::CloseStyle => "]".to_string(),
            Token::Literal(s) => s.clone(),
        })
        .collect();
    assert_eq!(rendered, input);
}

#[test]
fn tokenizing_after_a_closing_bracket_starts_afresh() {
    let a = "x(y)[z]";
    let b = "\\(w";
    let whole = Parser::tokenize(format!("{a}{b}")).tokens;
    let mut parts = Parser::tokenize(a.to_string()).tokens;
    parts.extend(Parser::tokenize(b.to_string()).tokens);
    assert_eq!(whole, parts);
}
