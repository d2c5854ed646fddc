//! The lexical tokens the parser consumes.
//!
//! A token sequence is a forest of token trees: a parenthesized or braced
//! group is one token that carries the whole balanced run of tokens inside
//! it. Consuming a group therefore always advances past the entire block,
//! which is what lets a malformed block be skipped without derailing the
//! tokens that follow it.

use vstd::prelude::*;

verus! {

/// A half-open range of positions in the source text of a declaration;
/// diagnostics point back at it.
#[derive(Clone, Copy, PartialEq, Eq, Structural, Debug)]
pub struct Span {
    pub lo: usize,
    pub hi: usize,
}

/// The delimiter of a token group.
#[derive(Clone, Copy, PartialEq, Eq, Structural, Debug)]
pub enum Delim {
    Paren,
    Brace,
}

/// One lexical token of the route DSL.
#[derive(Debug)]
pub enum Token {
    /// A bare identifier such as `scope`, `get` or `at`.
    Ident { text: String, span: Span },
    /// A string literal; `text` holds the unquoted contents.
    StrLit { text: String, span: Span },
    /// A dotted handler path such as `users::show`, split into segments.
    PathRef { segments: Vec<String>, span: Span },
    /// A parenthesized or braced group and the tokens inside it.
    Group { delim: Delim, tokens: Vec<Token>, span: Span },
}

/// The mathematical shape of a token: each string becomes its character
/// sequence, and a group carries the views of its contents.
#[verifier::ext_equal]
pub enum TokenView {
    Ident { text: Seq<char>, span: Span },
    StrLit { text: Seq<char>, span: Span },
    PathRef { segments: Seq<Seq<char>>, span: Span },
    Group { delim: Delim, tokens: Seq<TokenView>, span: Span },
}

/// The views of a sequence of strings.
pub open spec fn strings_view(ss: Seq<String>) -> Seq<Seq<char>> {
    Seq::new(ss.len(), |i: int| ss[i]@)
}

/// The view of one token.
pub open spec fn token_view(t: Token) -> TokenView
    decreases t,
{
    match t {
        Token::Ident { text, span } => TokenView::Ident { text: text@, span },
        Token::StrLit { text, span } => TokenView::StrLit { text: text@, span },
        Token::PathRef { segments, span } => TokenView::PathRef {
            segments: strings_view(segments@),
            span,
        },
        Token::Group { delim, tokens, span } => TokenView::Group {
            delim,
            tokens: tokens_view(tokens@),
            span,
        },
    }
}

/// The views of a sequence of tokens.
pub open spec fn tokens_view(ts: Seq<Token>) -> Seq<TokenView>
    decreases ts,
{
    if ts.len() == 0 {
        Seq::empty()
    } else {
        seq![token_view(ts[0])] + tokens_view(ts.drop_first())
    }
}

/// A token sequence and its view have the same length.
pub broadcast proof fn tokens_view_len(ts: Seq<Token>)
    ensures
        #[trigger] tokens_view(ts).len() == ts.len(),
    decreases ts,
{
    if ts.len() > 0 {
        tokens_view_len(ts.drop_first());
    }
}

/// The view of a token sequence is its tokens' views, position by position.
pub broadcast proof fn tokens_view_index(ts: Seq<Token>, i: int)
    requires
        0 <= i < ts.len(),
    ensures
        #[trigger] tokens_view(ts)[i] == token_view(ts[i]),
    decreases ts,
{
    tokens_view_len(ts);
    if i > 0 {
        tokens_view_index(ts.drop_first(), i - 1);
    }
}

/// The span a token covers.
pub open spec fn view_span(t: TokenView) -> Span {
    match t {
        TokenView::Ident { span, .. } => span,
        TokenView::StrLit { span, .. } => span,
        TokenView::PathRef { span, .. } => span,
        TokenView::Group { span, .. } => span,
    }
}

/// Copies a list of strings; the copy holds the same values.
pub fn clone_strings(v: &Vec<String>) -> (r: Vec<String>)
    ensures
        r@ == v@,
{
    let mut r: Vec<String> = Vec::new();
    let mut i: usize = 0;
    while i < v.len()
        invariant
            i <= v.len(),
            r@ == v@.take(i as int),
        decreases v.len() - i,
    {
        r.push(v[i].clone());
        proof {
            assert(v@.take(i + 1 as int) =~= v@.take(i as int).push(v@[i as int]));
        }
        i = i + 1;
    }
    proof {
        assert(v@.take(v@.len() as int) =~= v@);
    }
    r
}

impl Token {
    /// The span this token covers.
    pub fn span(&self) -> (s: Span)
        ensures
            s == view_span(token_view(*self)),
    {
        match self {
            Token::Ident { span, .. } => *span,
            Token::StrLit { span, .. } => *span,
            Token::PathRef { span, .. } => *span,
            Token::Group { span, .. } => *span,
        }
    }
}

} // verus!
