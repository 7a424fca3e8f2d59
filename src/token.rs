//! Tokens that formatting elements write, and the stream they are written
//! to.
use vstd::prelude::*;

use crate::diagnostics::SyntaxKind;
use crate::text::char_is_whitespace;
use crate::text::is_whitespace;
use vstd::string::StrSliceExecFns;
use vstd::string::StringExecFns;

verus! {

/// How blank lines are treated from some point of the stream onwards.
#[derive(Copy, Clone, Debug, PartialEq, Eq, Structural)]
pub enum LineSpacingPolicy {
    /// Blank lines are kept only before comments.
    BeforeComments,
    /// Blank lines are always kept.
    Always,
}

/// A comment.
#[derive(Clone, Debug, PartialEq, Eq)]
pub enum Comment {
    /// A comment on a line of its own, before an element.
    Preceding(String),
    /// A comment at the end of a line.
    Inline(String),
}

/// Trivia: what the source holds besides its elements.
#[derive(Clone, Debug, PartialEq, Eq)]
pub enum Trivia {
    /// A blank line, which may be dropped.
    BlankLine,
    /// A comment.
    Comment(Comment),
}

/// A token that can be written by elements.
#[derive(Clone, Debug, PartialEq, Eq)]
pub enum PreToken {
    /// A blank line.
    BlankLine,
    /// The end of a line.
    LineEnd,
    /// The end of a word.
    WordEnd,
    /// The start of an indented block.
    IndentStart,
    /// The end of an indented block.
    IndentEnd,
    /// How to handle blank lines from this point onwards.
    LineSpacingPolicy(LineSpacingPolicy),
    /// Literal text.
    Literal(String, SyntaxKind),
    /// Trivia.
    Trivia(Trivia),
}

/// Whether `t` is a blank line, required or optional.
pub open spec fn is_blank_line(t: PreToken) -> bool {
    t is BlankLine || t matches PreToken::Trivia(Trivia::BlankLine)
}

/// Whether `t` ends a word or a line.
pub open spec fn is_line_or_word_end(t: PreToken) -> bool {
    t is WordEnd || t is LineEnd
}

/// `s` without its trailing blank lines.
pub open spec fn trim_blank_lines(s: Seq<PreToken>) -> Seq<PreToken>
    decreases s.len(),
{
    if s.len() > 0 && is_blank_line(s.last()) {
        trim_blank_lines(s.drop_last())
    } else {
        s
    }
}

/// `s` without its trailing word and line ends.
pub open spec fn trim_line_ends(s: Seq<PreToken>) -> Seq<PreToken>
    decreases s.len(),
{
    if s.len() > 0 && is_line_or_word_end(s.last()) {
        trim_line_ends(s.drop_last())
    } else {
        s
    }
}

/// `s` without its trailing word ends.
pub open spec fn trim_word_ends(s: Seq<PreToken>) -> Seq<PreToken>
    decreases s.len(),
{
    if s.len() > 0 && s.last() is WordEnd {
        trim_word_ends(s.drop_last())
    } else {
        s
    }
}

fn token_is_blank_line(t: &PreToken) -> (r: bool)
    ensures
        r == is_blank_line(*t),
{
    match t {
        PreToken::BlankLine => true,
        PreToken::Trivia(Trivia::BlankLine) => true,
        _ => false,
    }
}

fn token_is_line_or_word_end(t: &PreToken) -> (r: bool)
    ensures
        r == is_line_or_word_end(*t),
{
    match t {
        PreToken::WordEnd => true,
        PreToken::LineEnd => true,
        _ => false,
    }
}

fn token_is_word_end(t: &PreToken) -> (r: bool)
    ensures
        r == t is WordEnd,
{
    match t {
        PreToken::WordEnd => true,
        _ => false,
    }
}

/// A stream of tokens.
pub struct TokenStream<T>(Vec<T>);

impl<T> View for TokenStream<T> {
    type V = Seq<T>;

    closed spec fn view(&self) -> Seq<T> {
        self.0@
    }
}

impl TokenStream<PreToken> {
    /// An empty stream.
    pub fn new() -> (r: Self)
        ensures
            r@.len() == 0,
    {
        TokenStream(Vec::new())
    }

    /// The tokens of the stream, in order.
    pub fn tokens(&self) -> (r: &Vec<PreToken>)
        ensures
            r@ == self@,
    {
        &self.0
    }

    fn trim_blank_lines(&mut self)
        ensures
            final(self)@ == trim_blank_lines(old(self)@),
    {
        while self.0.len() > 0 && token_is_blank_line(&self.0[self.0.len() - 1])
            invariant
                trim_blank_lines(old(self)@) == trim_blank_lines(self@),
            decreases self@.len(),
        {
            self.0.pop();
        }
    }

    fn trim_line_ends(&mut self)
        ensures
            final(self)@ == trim_line_ends(old(self)@),
    {
        while self.0.len() > 0 && token_is_line_or_word_end(&self.0[self.0.len() - 1])
            invariant
                trim_line_ends(old(self)@) == trim_line_ends(self@),
            decreases self@.len(),
        {
            self.0.pop();
        }
    }

    fn trim_word_ends(&mut self)
        ensures
            final(self)@ == trim_word_ends(old(self)@),
    {
        while self.0.len() > 0 && token_is_word_end(&self.0[self.0.len() - 1])
            invariant
                trim_word_ends(old(self)@) == trim_word_ends(self@),
            decreases self@.len(),
        {
            self.0.pop();
        }
    }

    /// Ends the stream with one blank line, replacing the blank lines,
    /// required or optional, that it already ends with.
    pub fn blank_line(&mut self)
        ensures
            final(self)@ == trim_blank_lines(old(self)@).push(PreToken::BlankLine),
    {
        self.trim_blank_lines();
        self.0.push(PreToken::BlankLine);
    }

    /// Ends the stream with one line end, replacing the word and line ends
    /// that it already ends with.
    pub fn end_line(&mut self)
        ensures
            final(self)@ == trim_line_ends(old(self)@).push(PreToken::LineEnd),
    {
        self.trim_line_ends();
        self.0.push(PreToken::LineEnd);
    }

    /// Ends the stream with one word end, replacing the word ends that it
    /// already ends with.
    pub fn end_word(&mut self)
        ensures
            final(self)@ == trim_word_ends(old(self)@).push(PreToken::WordEnd),
    {
        self.trim_word_ends();
        self.0.push(PreToken::WordEnd);
    }

    /// Ends the current line and starts an indented block.
    pub fn increment_indent(&mut self)
        ensures
            final(self)@ == trim_line_ends(old(self)@).push(PreToken::LineEnd).push(
                PreToken::IndentStart,
            ),
    {
        self.end_line();
        self.0.push(PreToken::IndentStart);
    }

    /// Ends the current line and ends an indented block.
    pub fn decrement_indent(&mut self)
        ensures
            final(self)@ == trim_line_ends(old(self)@).push(PreToken::LineEnd).push(
                PreToken::IndentEnd,
            ),
    {
        self.end_line();
        self.0.push(PreToken::IndentEnd);
    }

    /// Allows blank lines from here on.
    pub fn blank_lines_allowed(&mut self)
        ensures
            final(self)@ == old(self)@.push(PreToken::LineSpacingPolicy(LineSpacingPolicy::Always)),
    {
        self.0.push(PreToken::LineSpacingPolicy(LineSpacingPolicy::Always));
    }

    /// Allows blank lines only before comments from here on.
    pub fn blank_lines_allowed_between_comments(&mut self)
        ensures
            final(self)@ == old(self)@.push(
                PreToken::LineSpacingPolicy(LineSpacingPolicy::BeforeComments),
            ),
    {
        self.0.push(PreToken::LineSpacingPolicy(LineSpacingPolicy::BeforeComments));
    }

    /// Pushes literal text, with no trivia.
    pub fn push_literal(&mut self, value: String, kind: SyntaxKind)
        ensures
            final(self)@ == old(self)@.push(PreToken::Literal(value, kind)),
    {
        self.0.push(PreToken::Literal(value, kind));
    }

    /// The kind of the last literal among the last three tokens, where the
    /// stream holds at least three.
    pub fn last_literal_kind(&self) -> (r: Option<SyntaxKind>)
        ensures
            r == last_literal_kind_of(self@),
    {
        let n = self.0.len();
        if n < 3 {
            return None;
        }
        if let PreToken::Literal(_, kind) = &self.0[n - 1] {
            return Some(*kind);
        }
        if let PreToken::Literal(_, kind) = &self.0[n - 2] {
            return Some(*kind);
        }
        if let PreToken::Literal(_, kind) = &self.0[n - 3] {
            return Some(*kind);
        }
        None
    }
}

/// The kind of the last literal among the last three tokens of `s`, where
/// `s` holds at least three.
pub open spec fn last_literal_kind_of(s: Seq<PreToken>) -> Option<SyntaxKind> {
    let n = s.len() as int;
    if n < 3 {
        None
    } else if s[n - 1] is Literal {
        Some(s[n - 1]->Literal_1)
    } else if s[n - 2] is Literal {
        Some(s[n - 2]->Literal_1)
    } else if s[n - 3] is Literal {
        Some(s[n - 3]->Literal_1)
    } else {
        None
    }
}

// ---------------------------------------------------------------------------
// Tokens of the syntax tree
// ---------------------------------------------------------------------------

/// A trivia token of the syntax tree: whitespace or a comment.
#[derive(Clone, Debug)]
pub struct TriviaToken {
    pub kind: SyntaxKind,
    pub text: String,
}

/// A token of the syntax tree, with the trivia that precedes it and the
/// comment that ends its line, if any.
#[derive(Clone, Debug)]
pub struct AstToken {
    pub kind: SyntaxKind,
    pub text: String,
    pub preceding_trivia: Vec<TriviaToken>,
    pub inline_comment: Option<String>,
}

/// Whether tokens of kind `k` are trivia.
pub open spec fn is_trivia(k: SyntaxKind) -> bool {
    k == SyntaxKind::Whitespace || k == SyntaxKind::Comment
}

/// `s` without its trailing whitespace.
pub open spec fn trim_end(s: Seq<char>) -> Seq<char>
    decreases s.len(),
{
    if s.len() > 0 && is_whitespace(s.last()) {
        trim_end(s.drop_last())
    } else {
        s
    }
}

/// Returns `s` without its trailing whitespace.
pub fn trim_end_of(s: &str) -> (r: String)
    ensures
        r@ == trim_end(s@),
{
    let mut n = s.unicode_len();
    assert(s@.subrange(0, n as int) =~= s@);
    while n > 0 && char_is_whitespace(s.get_char(n - 1))
        invariant
            n <= s@.len(),
            trim_end(s@) == trim_end(s@.subrange(0, n as int)),
        decreases n,
    {
        assert(s@.subrange(0, n as int).drop_last() =~= s@.subrange(0, n - 1));
        n = n - 1;
    }
    let t = s.substring_char(0, n);
    assert(t@ == s@.subrange(0, n as int));
    t.to_owned()
}

/// The tokens that the preceding trivia `ts` adds to a stream `s`: a
/// whitespace token adds an optional blank line unless the stream already
/// ends with a blank line; a comment adds a preceding comment without its
/// trailing whitespace.
pub open spec fn with_preceding_trivia(s: Seq<PreToken>, ts: Seq<TriviaToken>) -> Seq<PreToken>
    decreases ts.len(),
{
    if ts.len() == 0 {
        s
    } else {
        let prev = with_preceding_trivia(s, ts.drop_last());
        let t = ts.last();
        if t.kind == SyntaxKind::Whitespace {
            if prev.len() > 0 && is_blank_line(prev.last()) {
                prev
            } else {
                prev.push(PreToken::Trivia(Trivia::BlankLine))
            }
        } else {
            prev.push(comment_token(Comment::Preceding(string_of(trim_end(t.text@)))))
        }
    }
}

/// Whether every trivia token is whitespace or a comment.
pub open spec fn trivia_well_formed(ts: Seq<TriviaToken>) -> bool {
    forall|i: int| 0 <= i < ts.len() ==> is_trivia((#[trigger] ts[i]).kind)
}

/// The token a comment becomes.
pub open spec fn comment_token(c: Comment) -> PreToken {
    PreToken::Trivia(Trivia::Comment(c))
}

/// The string whose characters are `s`.
pub open spec fn string_of(s: Seq<char>) -> String {
    choose|r: String| r@ == s
}

/// The tokens that the inline comment of `t` adds to a stream `s`.
pub open spec fn with_inline_trivia(s: Seq<PreToken>, t: AstToken) -> Seq<PreToken> {
    match t.inline_comment {
        Some(c) => s.push(comment_token(Comment::Inline(string_of(trim_end(c@))))),
        None => s,
    }
}

/// Whether two token sequences are equal up to the identity of the
/// strings inside them (same characters).
pub open spec fn same_tokens(a: Seq<PreToken>, b: Seq<PreToken>) -> bool {
    a.len() == b.len() && forall|i: int| 0 <= i < a.len() ==> same_token(#[trigger] a[i], b[i])
}

/// Whether two tokens are equal up to the identity of their strings.
pub open spec fn same_token(a: PreToken, b: PreToken) -> bool {
    match (a, b) {
        (PreToken::Literal(x, k), PreToken::Literal(y, l)) => x@ == y@ && k == l,
        (
            PreToken::Trivia(Trivia::Comment(Comment::Preceding(x))),
            PreToken::Trivia(Trivia::Comment(Comment::Preceding(y))),
        ) => x@ == y@,
        (
            PreToken::Trivia(Trivia::Comment(Comment::Inline(x))),
            PreToken::Trivia(Trivia::Comment(Comment::Inline(y))),
        ) => x@ == y@,
        _ => a == b,
    }
}

proof fn lemma_same_tokens_push(a: Seq<PreToken>, b: Seq<PreToken>, x: PreToken, y: PreToken)
    requires
        same_tokens(a, b),
        same_token(x, y),
    ensures
        same_tokens(a.push(x), b.push(y)),
{
    assert forall|i: int| 0 <= i < a.len() + 1 implies same_token(#[trigger] a.push(x)[i], b.push(y)[i]) by {
        if i < a.len() {
            assert(a.push(x)[i] == a[i]);
            assert(b.push(y)[i] == b[i]);
        }
    }
}

proof fn lemma_same_tokens_refl(a: Seq<PreToken>)
    ensures
        same_tokens(a, a),
{
    assert forall|i: int| 0 <= i < a.len() implies same_token(#[trigger] a[i], a[i]) by {
        match a[i] {
            PreToken::Trivia(Trivia::Comment(Comment::Preceding(x))) => {},
            PreToken::Trivia(Trivia::Comment(Comment::Inline(x))) => {},
            _ => {},
        }
    }
}

proof fn lemma_string_of(s: String)
    ensures
        string_of(s@)@ == s@,
{
    let w = s;
    assert(w@ == s@);
    assert(exists|r: String| #![trigger r@] r@ == s@);
}

impl TokenStream<PreToken> {
    /// Inserts the trivia that precedes `token` into the stream.
    fn push_preceding_trivia(&mut self, token: &AstToken)
        requires
            !is_trivia(token.kind),
            trivia_well_formed(token.preceding_trivia@),
        ensures
            same_tokens(final(self)@, with_preceding_trivia(old(self)@, token.preceding_trivia@)),
    {
        let ghost ts = token.preceding_trivia@;
        let mut i: usize = 0;
        proof {
            assert(ts.subrange(0, 0) =~= Seq::<TriviaToken>::empty());
            lemma_same_tokens_refl(self@);
        }
        while i < token.preceding_trivia.len()
            invariant
                i <= ts.len(),
                ts == token.preceding_trivia@,
                trivia_well_formed(ts),
                same_tokens(self@, with_preceding_trivia(old(self)@, ts.subrange(0, i as int))),
            decreases ts.len() - i,
        {
            let ghost prev = with_preceding_trivia(old(self)@, ts.subrange(0, i as int));
            assert(ts.subrange(0, i + 1).drop_last() =~= ts.subrange(0, i as int));
            assert(ts.subrange(0, i + 1).last() == ts[i as int]);
            let t = &token.preceding_trivia[i];
            let ghost before = self@;
            assert(is_trivia(ts[i as int].kind));
            if t.kind == SyntaxKind::Whitespace {
                let n = self.0.len();
                let ends_blank = n > 0 && token_is_blank_line(&self.0[n - 1]);
                proof {
                    if n > 0 {
                        assert(same_token(before[n - 1], prev[n - 1]));
                        assert(before.last() == before[n - 1]);
                        assert(prev.last() == prev[n - 1]);
                    }
                }
                if !ends_blank {
                    self.0.push(PreToken::Trivia(Trivia::BlankLine));
                    proof {
                        lemma_same_tokens_push(
                            before,
                            prev,
                            PreToken::Trivia(Trivia::BlankLine),
                            PreToken::Trivia(Trivia::BlankLine),
                        );
                    }
                }
            } else {
                let text = trim_end_of(t.text.as_str());
                let ghost spec_tok = comment_token(Comment::Preceding(string_of(trim_end(ts[i as int].text@))));
                let tok = PreToken::Trivia(Trivia::Comment(Comment::Preceding(text)));
                proof {
                    lemma_string_of(text);
                    lemma_same_tokens_push(before, prev, tok, spec_tok);
                }
                self.0.push(tok);
            }
            i = i + 1;
        }
        assert(ts.subrange(0, i as int) =~= ts);
    }
}

proof fn lemma_same_tokens_trans(a: Seq<PreToken>, b: Seq<PreToken>, c: Seq<PreToken>)
    requires
        same_tokens(a, b),
        same_tokens(b, c),
    ensures
        same_tokens(a, c),
{
    assert forall|i: int| 0 <= i < a.len() implies same_token(#[trigger] a[i], c[i]) by {
        assert(same_token(a[i], b[i]));
        assert(same_token(b[i], c[i]));
    }
}

proof fn lemma_same_tokens_inline(a: Seq<PreToken>, b: Seq<PreToken>, t: AstToken)
    requires
        same_tokens(a, b),
    ensures
        same_tokens(with_inline_trivia(a, t), with_inline_trivia(b, t)),
{
    if let Some(c) = t.inline_comment {
        let x = comment_token(Comment::Inline(string_of(trim_end(c@))));
        lemma_same_tokens_push(a, b, x, x);
    }
}

impl TokenStream<PreToken> {
    /// Inserts the comment that ends the line of `token` into the stream.
    fn push_inline_trivia(&mut self, token: &AstToken)
        requires
            !is_trivia(token.kind),
        ensures
            same_tokens(final(self)@, with_inline_trivia(old(self)@, *token)),
    {
        proof {
            lemma_same_tokens_refl(self@);
        }
        if let Some(c) = &token.inline_comment {
            let text = trim_end_of(c.as_str());
            let ghost spec_tok = comment_token(Comment::Inline(string_of(trim_end(c@))));
            let tok = PreToken::Trivia(Trivia::Comment(Comment::Inline(text)));
            proof {
                lemma_string_of(text);
                lemma_same_tokens_push(self@, self@, tok, spec_tok);
            }
            self.0.push(tok);
        }
    }

    /// Pushes `literal` in the place of `token`, with the token's trivia.
    fn push_with_trivia(&mut self, token: &AstToken, literal: String)
        requires
            !is_trivia(token.kind),
            trivia_well_formed(token.preceding_trivia@),
        ensures
            same_tokens(
                final(self)@,
                with_inline_trivia(
                    with_preceding_trivia(old(self)@, token.preceding_trivia@).push(
                        PreToken::Literal(literal, token.kind),
                    ),
                    *token,
                ),
            ),
    {
        let ghost pre = with_preceding_trivia(old(self)@, token.preceding_trivia@);
        self.push_preceding_trivia(token);
        let lit = PreToken::Literal(literal, token.kind);
        proof {
            lemma_same_tokens_push(self@, pre, lit, lit);
        }
        self.0.push(lit);
        let ghost mid = self@;
        self.push_inline_trivia(token);
        proof {
            lemma_same_tokens_inline(mid, pre.push(lit), *token);
            lemma_same_tokens_trans(self@, with_inline_trivia(mid, *token), with_inline_trivia(pre.push(lit), *token));
        }
    }

    /// Pushes a token of the syntax tree into the stream, with the trivia
    /// that precedes it and the comment that ends its line.
    pub fn push_ast_token(&mut self, token: &AstToken)
        requires
            !is_trivia(token.kind),
            trivia_well_formed(token.preceding_trivia@),
        ensures
            same_tokens(
                final(self)@,
                with_inline_trivia(
                    with_preceding_trivia(old(self)@, token.preceding_trivia@).push(
                        PreToken::Literal(token.text, token.kind),
                    ),
                    *token,
                ),
            ),
    {
        self.push_with_trivia(token, token.text.clone());
    }

    /// Pushes `replacement` into the stream in place of a token of the
    /// syntax tree, with the trivia that the token would have brought.
    pub fn push_literal_in_place_of_token(&mut self, token: &AstToken, replacement: String)
        requires
            !is_trivia(token.kind),
            trivia_well_formed(token.preceding_trivia@),
        ensures
            same_tokens(
                final(self)@,
                with_inline_trivia(
                    with_preceding_trivia(old(self)@, token.preceding_trivia@).push(
                        PreToken::Literal(replacement, token.kind),
                    ),
                    *token,
                ),
            ),
    {
        self.push_with_trivia(token, replacement);
    }
}

// ---------------------------------------------------------------------------
// Display
// ---------------------------------------------------------------------------

/// The line length used when displaying tokens.
pub const DISPLAY_LINE_LENGTH: usize = 90;

/// `n` spaces.
pub open spec fn spaces(n: nat) -> Seq<char> {
    Seq::new(n, |i: int| ' ')
}

/// `s`, padded with spaces to `width` characters where it is shorter.
pub open spec fn padded(s: Seq<char>, width: nat) -> Seq<char> {
    if s.len() < width {
        s + spaces((width - s.len()) as nat)
    } else {
        s
    }
}

/// The name of a syntax kind.
pub open spec fn kind_name(k: SyntaxKind) -> Seq<char> {
    match k {
        SyntaxKind::RootNode => "RootNode"@,
        SyntaxKind::VersionStatementNode => "VersionStatementNode"@,
        SyntaxKind::ImportStatementNode => "ImportStatementNode"@,
        SyntaxKind::StructDefinitionNode => "StructDefinitionNode"@,
        SyntaxKind::WorkflowDefinitionNode => "WorkflowDefinitionNode"@,
        SyntaxKind::TaskDefinitionNode => "TaskDefinitionNode"@,
        SyntaxKind::InputSectionNode => "InputSectionNode"@,
        SyntaxKind::OutputSectionNode => "OutputSectionNode"@,
        SyntaxKind::CommandSectionNode => "CommandSectionNode"@,
        SyntaxKind::RuntimeSectionNode => "RuntimeSectionNode"@,
        SyntaxKind::MetadataSectionNode => "MetadataSectionNode"@,
        SyntaxKind::BoundDeclNode => "BoundDeclNode"@,
        SyntaxKind::UnboundDeclNode => "UnboundDeclNode"@,
        SyntaxKind::CommandKeyword => "CommandKeyword"@,
        SyntaxKind::Ident => "Ident"@,
        SyntaxKind::Comment => "Comment"@,
        SyntaxKind::Whitespace => "Whitespace"@,
    }
}

/// The name of a line spacing policy.
pub open spec fn policy_name(p: LineSpacingPolicy) -> Seq<char> {
    match p {
        LineSpacingPolicy::BeforeComments => "BeforeComments"@,
        LineSpacingPolicy::Always => "Always"@,
    }
}

/// How a token is displayed.
pub open spec fn display_of(t: PreToken) -> Seq<char> {
    let w = DISPLAY_LINE_LENGTH as nat;
    match t {
        PreToken::BlankLine => spaces(w) + "<BlankLine>"@,
        PreToken::LineEnd => "<EOL>"@,
        PreToken::WordEnd => "<WordEnd>"@,
        PreToken::IndentStart => "<IndentStart>"@,
        PreToken::IndentEnd => "<IndentEnd>"@,
        PreToken::LineSpacingPolicy(p) => "<LineSpacingPolicy@"@ + policy_name(p) + ">"@,
        PreToken::Literal(v, k) => padded(v@, w) + "<Literal@"@ + kind_name(k) + ">"@,
        PreToken::Trivia(Trivia::BlankLine) => spaces(w) + "<OptionalBlankLine>"@,
        PreToken::Trivia(Trivia::Comment(Comment::Preceding(v))) => padded(v@, w)
            + "<Comment@Preceding>"@,
        PreToken::Trivia(Trivia::Comment(Comment::Inline(v))) => padded(v@, w)
            + "<Comment@Inline>"@,
    }
}

/// The name of a syntax kind.
pub fn kind_name_of(k: SyntaxKind) -> (r: &'static str)
    ensures
        r@ == kind_name(k),
{
    match k {
        SyntaxKind::RootNode => "RootNode",
        SyntaxKind::VersionStatementNode => "VersionStatementNode",
        SyntaxKind::ImportStatementNode => "ImportStatementNode",
        SyntaxKind::StructDefinitionNode => "StructDefinitionNode",
        SyntaxKind::WorkflowDefinitionNode => "WorkflowDefinitionNode",
        SyntaxKind::TaskDefinitionNode => "TaskDefinitionNode",
        SyntaxKind::InputSectionNode => "InputSectionNode",
        SyntaxKind::OutputSectionNode => "OutputSectionNode",
        SyntaxKind::CommandSectionNode => "CommandSectionNode",
        SyntaxKind::RuntimeSectionNode => "RuntimeSectionNode",
        SyntaxKind::MetadataSectionNode => "MetadataSectionNode",
        SyntaxKind::BoundDeclNode => "BoundDeclNode",
        SyntaxKind::UnboundDeclNode => "UnboundDeclNode",
        SyntaxKind::CommandKeyword => "CommandKeyword",
        SyntaxKind::Ident => "Ident",
        SyntaxKind::Comment => "Comment",
        SyntaxKind::Whitespace => "Whitespace",
    }
}

/// Appends `n` spaces to `s`.
fn push_spaces(s: &mut String, n: usize)
    ensures
        final(s)@ == old(s)@ + spaces(n as nat),
{
    let mut i: usize = 0;
    while i < n
        invariant
            i <= n,
            s@ == old(s)@ + spaces(i as nat),
        decreases n - i,
    {
        proof {
            reveal_strlit(" ");
        }
        s.append(" ");
        assert(" "@ =~= seq![' ']);
        assert(s@ =~= old(s)@ + spaces((i + 1) as nat));
        i = i + 1;
    }
}

/// Appends `v` padded with spaces to `width` characters.
fn push_padded(s: &mut String, v: &str, width: usize)
    ensures
        final(s)@ == old(s)@ + padded(v@, width as nat),
{
    s.append(v);
    let n = v.unicode_len();
    if n < width {
        push_spaces(s, width - n);
        assert(s@ =~= old(s)@ + padded(v@, width as nat));
    } else {
        assert(s@ =~= old(s)@ + padded(v@, width as nat));
    }
}

impl PreToken {
    /// How the token is displayed: a tag naming it, with text and blank
    /// lines padded to the display line length.
    pub fn display_text(&self) -> (r: String)
        ensures
            r@ == display_of(*self),
    {
        let mut s = String::new();
        match self {
            PreToken::BlankLine => {
                push_spaces(&mut s, DISPLAY_LINE_LENGTH);
                s.append("<BlankLine>");
            },
            PreToken::LineEnd => s.append("<EOL>"),
            PreToken::WordEnd => s.append("<WordEnd>"),
            PreToken::IndentStart => s.append("<IndentStart>"),
            PreToken::IndentEnd => s.append("<IndentEnd>"),
            PreToken::LineSpacingPolicy(p) => {
                s.append("<LineSpacingPolicy@");
                match p {
                    LineSpacingPolicy::BeforeComments => s.append("BeforeComments"),
                    LineSpacingPolicy::Always => s.append("Always"),
                }
                s.append(">");
            },
            PreToken::Literal(v, k) => {
                push_padded(&mut s, v.as_str(), DISPLAY_LINE_LENGTH);
                s.append("<Literal@");
                s.append(kind_name_of(*k));
                s.append(">");
            },
            PreToken::Trivia(Trivia::BlankLine) => {
                push_spaces(&mut s, DISPLAY_LINE_LENGTH);
                s.append("<OptionalBlankLine>");
            },
            PreToken::Trivia(Trivia::Comment(Comment::Preceding(v))) => {
                push_padded(&mut s, v.as_str(), DISPLAY_LINE_LENGTH);
                s.append("<Comment@Preceding>");
            },
            PreToken::Trivia(Trivia::Comment(Comment::Inline(v))) => {
                push_padded(&mut s, v.as_str(), DISPLAY_LINE_LENGTH);
                s.append("<Comment@Inline>");
            },
        }
        assert(s@ =~= display_of(*self));
        s
    }
}

} // verus!
