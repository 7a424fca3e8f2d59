use wdl::diagnostics::SyntaxKind;
use wdl::token::LineSpacingPolicy;
use wdl::token::PreToken;
use wdl::token::TokenStream;
use wdl::token::Trivia;

#[test]
fn blank_line_replaces_trailing_blank_lines() {
    let mut s = TokenStream::new();
    s.push_literal(String::from("a"), SyntaxKind::Ident);
    s.blank_line();
    s.blank_line();
    assert_eq!(s.tokens(), &vec![PreToken::Literal(String::from("a"), SyntaxKind::Ident), PreToken::BlankLine]);
}

#[test]
fn end_line_and_end_word_collapse() {
    let mut s = TokenStream::new();
    s.push_literal(String::from("a"), SyntaxKind::Ident);
    s.end_word();
    s.end_word();
    assert_eq!(s.tokens().len(), 2);
    s.end_line();
    s.end_line();
    assert_eq!(s.tokens(), &vec![PreToken::Literal(String::from("a"), SyntaxKind::Ident), PreToken::LineEnd]);
    s.increment_indent();
    assert_eq!(s.tokens().len(), 3);
    assert_eq!(s.tokens()[2], PreToken::IndentStart);
    s.decrement_indent();
    assert_eq!(s.tokens()[3], PreToken::LineEnd);
    assert_eq!(s.tokens()[4], PreToken::IndentEnd);
}

#[test]
fn spacing_policies_and_last_literal() {
    let mut s = TokenStream::new();
    s.blank_lines_allowed();
    s.blank_lines_allowed_between_comments();
    assert_eq!(s.tokens()[0], PreToken::LineSpacingPolicy(LineSpacingPolicy::Always));
    assert_eq!(s.tokens()[1], PreToken::LineSpacingPolicy(LineSpacingPolicy::BeforeComments));
    assert_eq!(s.last_literal_kind(), None);
    s.push_literal(String::from("x"), SyntaxKind::Ident);
    assert_eq!(s.last_literal_kind(), Some(SyntaxKind::Ident));
    s.end_word();
    s.end_line();
    assert_eq!(s.last_literal_kind(), Some(SyntaxKind::Ident));
    s.blank_line();
    assert_eq!(s.last_literal_kind(), Some(SyntaxKind::Ident));
    s.end_word();
    assert_eq!(s.last_literal_kind(), None);
    let _ = Trivia::BlankLine;
}

use wdl::token::AstToken;
use wdl::token::Comment;
use wdl::token::TriviaToken;

fn trivia(kind: SyntaxKind, text: &str) -> TriviaToken {
    TriviaToken { kind, text: String::from(text) }
}

#[test]
fn ast_token_brings_its_trivia() {
    let token = AstToken {
        kind: SyntaxKind::Ident,
        text: String::from("name"),
        preceding_trivia: vec![
            trivia(SyntaxKind::Whitespace, "\n\n"),
            trivia(SyntaxKind::Whitespace, "\n\n"),
            trivia(SyntaxKind::Comment, "# a comment  \t"),
        ],
        inline_comment: Some(String::from("# inline ")),
    };
    let mut s = TokenStream::new();
    s.push_ast_token(&token);
    assert_eq!(
        s.tokens(),
        &vec![
            PreToken::Trivia(Trivia::BlankLine),
            PreToken::Trivia(Trivia::Comment(Comment::Preceding(String::from("# a comment")))),
            PreToken::Literal(String::from("name"), SyntaxKind::Ident),
            PreToken::Trivia(Trivia::Comment(Comment::Inline(String::from("# inline")))),
        ]
    );
}

#[test]
fn literal_in_place_of_token_keeps_trivia() {
    let token = AstToken {
        kind: SyntaxKind::Ident,
        text: String::from("old"),
        preceding_trivia: vec![trivia(SyntaxKind::Whitespace, "\n\n")],
        inline_comment: None,
    };
    let mut s = TokenStream::new();
    s.blank_line();
    s.push_literal_in_place_of_token(&token, String::from("new"));
    assert_eq!(
        s.tokens(),
        &vec![PreToken::BlankLine, PreToken::Literal(String::from("new"), SyntaxKind::Ident)]
    );
}

#[test]
fn token_display() {
    assert_eq!(PreToken::LineEnd.display_text(), "<EOL>");
    assert_eq!(PreToken::WordEnd.display_text(), "<WordEnd>");
    assert_eq!(PreToken::IndentStart.display_text(), "<IndentStart>");
    assert_eq!(PreToken::IndentEnd.display_text(), "<IndentEnd>");
    assert_eq!(
        PreToken::LineSpacingPolicy(LineSpacingPolicy::Always).display_text(),
        "<LineSpacingPolicy@Always>"
    );
    assert_eq!(PreToken::BlankLine.display_text(), format!("{}<BlankLine>", " ".repeat(90)));
    assert_eq!(
        PreToken::Trivia(Trivia::BlankLine).display_text(),
        format!("{}<OptionalBlankLine>", " ".repeat(90))
    );
    assert_eq!(
        PreToken::Literal(String::from("task"), SyntaxKind::Ident).display_text(),
        format!("{:90}<Literal@{:?}>", "task", SyntaxKind::Ident)
    );
    assert_eq!(
        PreToken::Trivia(Trivia::Comment(Comment::Inline(String::from("# c")))).display_text(),
        format!("{:90}<Comment@Inline>", "# c")
    );
    let long = "x".repeat(95);
    assert_eq!(
        PreToken::Trivia(Trivia::Comment(Comment::Preceding(long.clone()))).display_text(),
        format!("{}<Comment@Preceding>", long)
    );
}
