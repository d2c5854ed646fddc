//! The grammar parser: recursive descent from a token stream to a route tree.
//!
//! Grammar:
//! ```text
//! RouteTree := Scope*
//! Scope     := IDENT "(" STRING ")" "{" ScopeBody "}"
//! ScopeBody := (Scope | Resource)*
//! Resource  := IDENT STRING "at" PATH
//! ```
//! Inside a scope body the parser looks one token past a leading identifier:
//! an identifier immediately followed by a parenthesized group opens a nested
//! scope, anything else starts a resource. The identifier's spelling is never
//! consulted, so a method name immediately followed by a parenthesized group
//! would be taken for a scope header; valid input never places one there.
//!
//! Two failure granularities, kept apart on purpose:
//! - a braced scope body that is not a well-formed item sequence is
//!   recoverable: the scope it belongs to is dropped with a diagnostic and
//!   its siblings parse on;
//! - a malformed resource declaration (or a token-shape mismatch outside any
//!   body) is fatal: the whole parse call yields diagnostics and no tree.

use vstd::prelude::*;
use crate::ast::{DiagCode, Diagnostic, Resource, RouteTree, Scope, ScopeView, ResourceView};
use crate::ast::{forest_view, resource_view, resources_view, scope_view, tree_view};
use crate::token::{Delim, Token, TokenView};
use crate::token::{clone_strings, strings_view, token_view, tokens_view, view_span};

verus! {

broadcast use {
    crate::token::tokens_view_len,
    crate::token::tokens_view_index,
    crate::ast::forest_view_len,
    crate::ast::forest_view_index,
};

/// What parsing a whole token stream yields: a forest of scopes together
/// with the recoverable diagnostics, or the diagnostics of a fatal failure.
#[verifier::ext_equal]
pub enum ParseView {
    Parsed { scopes: Seq<ScopeView>, diags: Seq<Diagnostic> },
    Failed { diags: Seq<Diagnostic> },
}

/// What parsing one braced scope body yields: its items and recoverable
/// diagnostics; or `Dropped` when the body is not a well-formed item sequence
/// (the enclosing scope is discarded); or `Fatal` for a malformed resource,
/// which aborts the whole parse.
#[verifier::ext_equal]
pub enum BodyView {
    Good { children: Seq<ScopeView>, resources: Seq<ResourceView>, diags: Seq<Diagnostic> },
    Dropped { diags: Seq<Diagnostic> },
    Fatal { diags: Seq<Diagnostic> },
}

/// Whether a token is a parenthesized group.
pub open spec fn is_paren_group(t: TokenView) -> bool {
    match t {
        TokenView::Group { delim, .. } => delim == Delim::Paren,
        _ => false,
    }
}

/// Whether a token is a braced group.
pub open spec fn is_brace_group(t: TokenView) -> bool {
    match t {
        TokenView::Group { delim, .. } => delim == Delim::Brace,
        _ => false,
    }
}

/// The tokens inside a group.
pub open spec fn group_tokens(t: TokenView) -> Seq<TokenView> {
    match t {
        TokenView::Group { tokens, .. } => tokens,
        _ => Seq::empty(),
    }
}

/// Whether a token is the keyword `at`.
pub open spec fn is_at_keyword(t: TokenView) -> bool {
    match t {
        TokenView::Ident { text, .. } => text == "at"@,
        _ => false,
    }
}

/// Whether a token can stand as a handler reference: a dotted path, or a
/// single identifier as its one-segment degenerate form.
pub open spec fn is_handler(t: TokenView) -> bool {
    match t {
        TokenView::PathRef { .. } => true,
        TokenView::Ident { .. } => true,
        _ => false,
    }
}

/// The handler segments a handler token denotes.
pub open spec fn handler_of(t: TokenView) -> Seq<Seq<char>> {
    match t {
        TokenView::PathRef { segments, .. } => segments,
        TokenView::Ident { text, .. } => seq![text],
        _ => Seq::empty(),
    }
}

/// The text of an identifier token.
pub open spec fn ident_text(t: TokenView) -> Seq<char> {
    match t {
        TokenView::Ident { text, .. } => text,
        _ => Seq::empty(),
    }
}

/// The text of a string-literal token.
pub open spec fn strlit_text(t: TokenView) -> Seq<char> {
    match t {
        TokenView::StrLit { text, .. } => text,
        _ => Seq::empty(),
    }
}

/// The scope path a parenthesized header denotes: the header must hold
/// exactly one string literal.
pub open spec fn scope_path_of(ptoks: Seq<TokenView>) -> Option<Seq<char>> {
    if ptoks.len() == 1 {
        match ptoks[0] {
            TokenView::StrLit { text, .. } => Some(text),
            _ => None,
        }
    } else {
        None
    }
}

/// Prepends parsed items and diagnostics to the outcome of the rest of a
/// body.
pub open spec fn body_prepend(
    c: Seq<ScopeView>,
    r: Seq<ResourceView>,
    d: Seq<Diagnostic>,
    rest: BodyView,
) -> BodyView {
    match rest {
        BodyView::Good { children, resources, diags } => BodyView::Good {
            children: c + children,
            resources: r + resources,
            diags: d + diags,
        },
        BodyView::Dropped { diags } => BodyView::Dropped { diags: d + diags },
        BodyView::Fatal { diags } => BodyView::Fatal { diags: d + diags },
    }
}

/// Parses a braced scope body: a sequence of nested scopes and resources.
/// An identifier immediately followed by a parenthesized group opens a
/// nested scope, which occupies three tokens; any other identifier starts a
/// resource, which occupies four.
pub open spec fn parse_body(ts: Seq<TokenView>) -> BodyView
    decreases ts,
{
    if ts.len() == 0 {
        BodyView::Good { children: Seq::empty(), resources: Seq::empty(), diags: Seq::empty() }
    } else if !(ts[0] is Ident) {
        BodyView::Dropped { diags: Seq::empty() }
    } else if ts.len() >= 2 && is_paren_group(ts[1]) {
        // one token of lookahead past the identifier: a nested scope
        if ts.len() >= 3 && is_brace_group(ts[2]) {
            match scope_path_of(group_tokens(ts[1])) {
                Option::None => body_prepend(
                    Seq::empty(),
                    Seq::empty(),
                    seq![
                        (Diagnostic { code: DiagCode::ScopePathNotString, span: view_span(ts[1]) }),
                    ],
                    parse_body(ts.skip(3)),
                ),
                Option::Some(path) => match parse_body(group_tokens(ts[2])) {
                    BodyView::Good { children, resources, diags } => body_prepend(
                        seq![(ScopeView { path, children, resources })],
                        Seq::empty(),
                        diags,
                        parse_body(ts.skip(3)),
                    ),
                    BodyView::Dropped { diags } => body_prepend(
                        Seq::empty(),
                        Seq::empty(),
                        diags.push(
                            Diagnostic {
                                code: DiagCode::MalformedScopeBody,
                                span: view_span(ts[2]),
                            },
                        ),
                        parse_body(ts.skip(3)),
                    ),
                    BodyView::Fatal { diags } => BodyView::Fatal { diags },
                },
            }
        } else {
            BodyView::Dropped { diags: Seq::empty() }
        }
    } else {
        // a resource: IDENT STRING "at" PATH
        if !(ts.len() >= 2 && ts[1] is StrLit) {
            BodyView::Fatal {
                diags: seq![
                    (Diagnostic {
                        code: DiagCode::ExpectedRoutePath,
                        span: if ts.len() >= 2 { view_span(ts[1]) } else { view_span(ts[0]) },
                    }),
                ],
            }
        } else if !(ts.len() >= 3 && is_at_keyword(ts[2])) {
            BodyView::Fatal {
                diags: seq![
                    (Diagnostic {
                        code: DiagCode::ExpectedAtKeyword,
                        span: if ts.len() >= 3 { view_span(ts[2]) } else { view_span(ts[1]) },
                    }),
                ],
            }
        } else if !(ts.len() >= 4 && is_handler(ts[3])) {
            BodyView::Fatal {
                diags: seq![
                    (Diagnostic {
                        code: DiagCode::ExpectedHandler,
                        span: if ts.len() >= 4 { view_span(ts[3]) } else { view_span(ts[2]) },
                    }),
                ],
            }
        } else {
            body_prepend(
                Seq::empty(),
                seq![
                    (ResourceView {
                        method: ident_text(ts[0]),
                        path: strlit_text(ts[1]),
                        handler: handler_of(ts[3]),
                    }),
                ],
                Seq::empty(),
                parse_body(ts.skip(4)),
            )
        }
    }
}

/// Prepends parsed scopes and diagnostics to the outcome of the rest of the
/// top level.
pub open spec fn top_prepend(ss: Seq<ScopeView>, d: Seq<Diagnostic>, rest: ParseView) -> ParseView {
    match rest {
        ParseView::Parsed { scopes, diags } => ParseView::Parsed {
            scopes: ss + scopes,
            diags: d + diags,
        },
        ParseView::Failed { diags } => ParseView::Failed { diags: d + diags },
    }
}

/// Parses the top level of a declaration: a sequence of scopes. A top-level
/// token-shape mismatch is fatal; a scope whose braced body is malformed is
/// dropped with a diagnostic while its siblings parse on; a malformed
/// resource anywhere below is fatal.
pub open spec fn parse_top(ts: Seq<TokenView>) -> ParseView
    decreases ts,
{
    if ts.len() == 0 {
        ParseView::Parsed { scopes: Seq::empty(), diags: Seq::empty() }
    } else if !(ts[0] is Ident) {
        ParseView::Failed {
            diags: seq![(Diagnostic { code: DiagCode::ExpectedIdent, span: view_span(ts[0]) })],
        }
    } else if !(ts.len() >= 2 && is_paren_group(ts[1])) {
        ParseView::Failed {
            diags: seq![
                (Diagnostic {
                    code: DiagCode::ExpectedParenGroup,
                    span: if ts.len() >= 2 { view_span(ts[1]) } else { view_span(ts[0]) },
                }),
            ],
        }
    } else if !(ts.len() >= 3 && is_brace_group(ts[2])) {
        ParseView::Failed {
            diags: seq![
                (Diagnostic {
                    code: DiagCode::ExpectedBraceGroup,
                    span: if ts.len() >= 3 { view_span(ts[2]) } else { view_span(ts[1]) },
                }),
            ],
        }
    } else {
        match scope_path_of(group_tokens(ts[1])) {
            Option::None => ParseView::Failed {
                diags: seq![
                    (Diagnostic { code: DiagCode::ScopePathNotString, span: view_span(ts[1]) }),
                ],
            },
            Option::Some(path) => match parse_body(group_tokens(ts[2])) {
                BodyView::Fatal { diags } => ParseView::Failed { diags },
                BodyView::Good { children, resources, diags } => top_prepend(
                    seq![(ScopeView { path, children, resources })],
                    diags,
                    parse_top(ts.skip(3)),
                ),
                BodyView::Dropped { diags } => top_prepend(
                    Seq::empty(),
                    diags.push(
                        Diagnostic { code: DiagCode::MalformedScopeBody, span: view_span(ts[2]) },
                    ),
                    parse_top(ts.skip(3)),
                ),
            },
        }
    }
}

/// Prepending distributes over prepending: the pieces concatenate.
proof fn lemma_body_prepend_compose(
    c1: Seq<ScopeView>,
    r1: Seq<ResourceView>,
    d1: Seq<Diagnostic>,
    c2: Seq<ScopeView>,
    r2: Seq<ResourceView>,
    d2: Seq<Diagnostic>,
    rest: BodyView,
)
    ensures
        body_prepend(c1, r1, d1, body_prepend(c2, r2, d2, rest)) == body_prepend(
            c1 + c2,
            r1 + r2,
            d1 + d2,
            rest,
        ),
{
    match rest {
        BodyView::Good { .. } => {
            assert(body_prepend(c1, r1, d1, body_prepend(c2, r2, d2, rest)) =~= body_prepend(
                c1 + c2,
                r1 + r2,
                d1 + d2,
                rest,
            ));
        },
        BodyView::Dropped { .. } => {
            assert(body_prepend(c1, r1, d1, body_prepend(c2, r2, d2, rest)) =~= body_prepend(
                c1 + c2,
                r1 + r2,
                d1 + d2,
                rest,
            ));
        },
        BodyView::Fatal { .. } => {
            assert(body_prepend(c1, r1, d1, body_prepend(c2, r2, d2, rest)) =~= body_prepend(
                c1 + c2,
                r1 + r2,
                d1 + d2,
                rest,
            ));
        },
    }
}

/// Prepending at the top level distributes the same way.
proof fn lemma_top_prepend_compose(
    s1: Seq<ScopeView>,
    d1: Seq<Diagnostic>,
    s2: Seq<ScopeView>,
    d2: Seq<Diagnostic>,
    rest: ParseView,
)
    ensures
        top_prepend(s1, d1, top_prepend(s2, d2, rest)) == top_prepend(s1 + s2, d1 + d2, rest),
{
    match rest {
        ParseView::Parsed { .. } => {
            assert(top_prepend(s1, d1, top_prepend(s2, d2, rest)) =~= top_prepend(
                s1 + s2,
                d1 + d2,
                rest,
            ));
        },
        ParseView::Failed { .. } => {
            assert(top_prepend(s1, d1, top_prepend(s2, d2, rest)) =~= top_prepend(
                s1 + s2,
                d1 + d2,
                rest,
            ));
        },
    }
}

/// Whether a token is an identifier.
fn is_ident_tok(t: &Token) -> (b: bool)
    ensures
        b == (token_view(*t) is Ident),
{
    match t {
        Token::Ident { .. } => true,
        _ => false,
    }
}

/// Whether a token is a parenthesized group.
fn is_paren_tok(t: &Token) -> (b: bool)
    ensures
        b == is_paren_group(token_view(*t)),
{
    match t {
        Token::Group { delim: Delim::Paren, .. } => true,
        _ => false,
    }
}

/// Whether a token is a braced group.
fn is_brace_tok(t: &Token) -> (b: bool)
    ensures
        b == is_brace_group(token_view(*t)),
{
    match t {
        Token::Group { delim: Delim::Brace, .. } => true,
        _ => false,
    }
}

/// Whether a token is a string literal.
fn is_strlit_tok(t: &Token) -> (b: bool)
    ensures
        b == (token_view(*t) is StrLit),
{
    match t {
        Token::StrLit { .. } => true,
        _ => false,
    }
}

/// Whether a token is the keyword `at`.
fn is_at_tok(t: &Token) -> (b: bool)
    ensures
        b == is_at_keyword(token_view(*t)),
{
    match t {
        Token::Ident { text, .. } => {
            let kw: String = "at".to_owned();
            *text == kw
        },
        _ => false,
    }
}

/// Whether a token can stand as a handler reference.
fn is_handler_tok(t: &Token) -> (b: bool)
    ensures
        b == is_handler(token_view(*t)),
{
    match t {
        Token::PathRef { .. } => true,
        Token::Ident { .. } => true,
        _ => false,
    }
}

/// The scope path of a parenthesized header, if the header holds exactly one
/// string literal.
fn scope_path_exec(ptoks: &Vec<Token>) -> (r: Option<String>)
    ensures
        match r {
            Option::Some(s) => scope_path_of(tokens_view(ptoks@)) == Some(s@),
            Option::None => scope_path_of(tokens_view(ptoks@)) is None,
        },
{
    if ptoks.len() == 1 {
        match &ptoks[0] {
            Token::StrLit { text, .. } => Some(text.clone()),
            _ => None,
        }
    } else {
        None
    }
}

/// The handler segments of a handler token.
fn handler_exec(t: &Token) -> (r: Vec<String>)
    requires
        is_handler(token_view(*t)),
    ensures
        strings_view(r@) == handler_of(token_view(*t)),
{
    match t {
        Token::PathRef { segments, .. } => {
            let r = clone_strings(segments);
            proof {
                assert(strings_view(r@) =~= handler_of(token_view(*t)));
            }
            r
        },
        Token::Ident { text, .. } => {
            let mut one: Vec<String> = Vec::new();
            one.push(text.clone());
            proof {
                assert(strings_view(one@) =~= handler_of(token_view(*t)));
            }
            one
        },
        _ => {
            proof {
                assert(false);
            }
            Vec::new()
        },
    }
}

/// What parsing one braced body yields at the executable level.
enum BodyOutcome {
    Good { children: Vec<Scope>, resources: Vec<Resource>, diags: Vec<Diagnostic> },
    Dropped { diags: Vec<Diagnostic> },
    Fatal { diags: Vec<Diagnostic> },
}

/// The view of an executable body outcome.
spec fn body_outcome_view(b: BodyOutcome) -> BodyView {
    match b {
        BodyOutcome::Good { children, resources, diags } => BodyView::Good {
            children: forest_view(children@),
            resources: resources_view(resources@),
            diags: diags@,
        },
        BodyOutcome::Dropped { diags } => BodyView::Dropped { diags: diags@ },
        BodyOutcome::Fatal { diags } => BodyView::Fatal { diags: diags@ },
    }
}

/// Parses the tokens inside one braced scope body.
fn parse_body_exec(tokens: &Vec<Token>) -> (r: BodyOutcome)
    ensures
        body_outcome_view(r) == parse_body(tokens_view(tokens@)),
        r matches BodyOutcome::Fatal { diags } ==> diags@.len() > 0,
    decreases tokens,
{
    broadcast use crate::ast::forest_view_push, crate::ast::resources_view_push;

    let ghost tv = tokens_view(tokens@);
    let mut children: Vec<Scope> = Vec::new();
    let mut resources: Vec<Resource> = Vec::new();
    let mut diags: Vec<Diagnostic> = Vec::new();
    let mut i: usize = 0;
    proof {
        assert(tv.skip(0) =~= tv);
        assert(body_prepend(
            Seq::<ScopeView>::empty(),
            Seq::<ResourceView>::empty(),
            Seq::<Diagnostic>::empty(),
            parse_body(tv),
        ) =~= parse_body(tv));
    }
    while i < tokens.len()
        invariant
            i <= tokens.len(),
            tv == tokens_view(tokens@),
            parse_body(tv) == body_prepend(
                forest_view(children@),
                resources_view(resources@),
                diags@,
                parse_body(tv.skip(i as int)),
            ),
        decreases tokens.len() - i,
    {
        let ghost ts = tv.skip(i as int);
        let ghost c0 = forest_view(children@);
        let ghost r0 = resources_view(resources@);
        let ghost d0 = diags@;
        proof {
            assert(ts[0] == token_view(tokens@[i as int]));
        }
        if !is_ident_tok(&tokens[i]) {
            proof {
                assert(parse_body(ts) == (BodyView::Dropped { diags: Seq::<Diagnostic>::empty() }));
                assert(d0 + Seq::<Diagnostic>::empty() =~= d0);
            }
            return BodyOutcome::Dropped { diags };
        }
        let scope_shaped: bool = i + 1 < tokens.len() && is_paren_tok(&tokens[i + 1]);
        proof {
            if i + 1 < tokens.len() {
                assert(ts[1] == token_view(tokens@[i + 1]));
            }
            assert(scope_shaped == (ts.len() >= 2 && is_paren_group(ts[1])));
        }
        if scope_shaped {
            if !(i + 2 < tokens.len() && is_brace_tok(&tokens[i + 2])) {
                proof {
                    if i + 2 < tokens.len() {
                        assert(ts[2] == token_view(tokens@[i + 2]));
                    }
                    assert(parse_body(ts) == (BodyView::Dropped {
                        diags: Seq::<Diagnostic>::empty(),
                    }));
                    assert(d0 + Seq::<Diagnostic>::empty() =~= d0);
                }
                return BodyOutcome::Dropped { diags };
            }
            proof {
                assert(ts[2] == token_view(tokens@[i + 2]));
                assert(ts.skip(3) =~= tv.skip(i + 3 as int));
            }
            let pspan = tokens[i + 1].span();
            let bspan = tokens[i + 2].span();
            let ptoks: &Vec<Token> = match &tokens[i + 1] {
                Token::Group { tokens: g, .. } => g,
                _ => {
                    proof {
                        assert(false);
                    }
                    tokens
                },
            };
            proof {
                assert(group_tokens(ts[1]) == tokens_view(ptoks@));
            }
            match scope_path_exec(ptoks) {
                Option::None => {
                    let ghost diag = (Diagnostic {
                        code: DiagCode::ScopePathNotString,
                        span: pspan,
                    });
                    diags.push(Diagnostic { code: DiagCode::ScopePathNotString, span: pspan });
                    proof {
                        assert(parse_body(ts) == body_prepend(
                            Seq::empty(),
                            Seq::empty(),
                            seq![diag],
                            parse_body(tv.skip(i + 3 as int)),
                        ));
                        lemma_body_prepend_compose(
                            c0,
                            r0,
                            d0,
                            Seq::empty(),
                            Seq::empty(),
                            seq![diag],
                            parse_body(tv.skip(i + 3 as int)),
                        );
                        assert(c0 + Seq::<ScopeView>::empty() =~= c0);
                        assert(r0 + Seq::<ResourceView>::empty() =~= r0);
                        assert(d0 + seq![diag] =~= diags@);
                    }
                    i = i + 3;
                },
                Option::Some(path) => {
                    let btoks: &Vec<Token> = match &tokens[i + 2] {
                        Token::Group { tokens: g, .. } => g,
                        _ => {
                            proof {
                                assert(false);
                            }
                            tokens
                        },
                    };
                    proof {
                        assert(group_tokens(ts[2]) == tokens_view(btoks@));
                    }
                    match parse_body_exec(btoks) {
                        BodyOutcome::Fatal { diags: d } => {
                            let mut d = d;
                            proof {
                                assert(parse_body(ts) == (BodyView::Fatal { diags: d@ }));
                            }
                            diags.append(&mut d);
                            return BodyOutcome::Fatal { diags };
                        },
                        BodyOutcome::Good { children: c, resources: rs, diags: d } => {
                            let scope = Scope { path, children: c, resources: rs };
                            let ghost sv = scope_view(scope);
                            let ghost dsub = d@;
                            proof {
                                assert(parse_body(ts) == body_prepend(
                                    seq![sv],
                                    Seq::empty(),
                                    dsub,
                                    parse_body(tv.skip(i + 3 as int)),
                                ));
                            }
                            children.push(scope);
                            let mut d = d;
                            diags.append(&mut d);
                            proof {
                                lemma_body_prepend_compose(
                                    c0,
                                    r0,
                                    d0,
                                    seq![sv],
                                    Seq::empty(),
                                    dsub,
                                    parse_body(tv.skip(i + 3 as int)),
                                );
                                assert(c0 + seq![sv] =~= forest_view(children@));
                                assert(r0 + Seq::<ResourceView>::empty() =~= r0);
                                assert(d0 + dsub =~= diags@);
                            }
                            i = i + 3;
                        },
                        BodyOutcome::Dropped { diags: d } => {
                            let ghost dsub = d@;
                            let ghost diag = (Diagnostic {
                                code: DiagCode::MalformedScopeBody,
                                span: bspan,
                            });
                            proof {
                                assert(parse_body(ts) == body_prepend(
                                    Seq::empty(),
                                    Seq::empty(),
                                    dsub.push(diag),
                                    parse_body(tv.skip(i + 3 as int)),
                                ));
                            }
                            let mut d = d;
                            diags.append(&mut d);
                            diags.push(Diagnostic { code: DiagCode::MalformedScopeBody, span: bspan });
                            proof {
                                lemma_body_prepend_compose(
                                    c0,
                                    r0,
                                    d0,
                                    Seq::empty(),
                                    Seq::empty(),
                                    dsub.push(diag),
                                    parse_body(tv.skip(i + 3 as int)),
                                );
                                assert(c0 + Seq::<ScopeView>::empty() =~= c0);
                                assert(r0 + Seq::<ResourceView>::empty() =~= r0);
                                assert(d0 + dsub.push(diag) =~= diags@);
                            }
                            i = i + 3;
                        },
                    }
                },
            }
        } else {
            // a resource: IDENT STRING "at" PATH
            let method: String = match &tokens[i] {
                Token::Ident { text, .. } => text.clone(),
                _ => {
                    proof {
                        assert(false);
                    }
                    String::new()
                },
            };
            if !(i + 1 < tokens.len() && is_strlit_tok(&tokens[i + 1])) {
                let sp = if i + 1 < tokens.len() {
                    tokens[i + 1].span()
                } else {
                    tokens[i].span()
                };
                let ghost diag = (Diagnostic { code: DiagCode::ExpectedRoutePath, span: sp });
                diags.push(Diagnostic { code: DiagCode::ExpectedRoutePath, span: sp });
                proof {
                    assert(parse_body(ts) == (BodyView::Fatal { diags: seq![diag] }));
                    assert(d0 + seq![diag] =~= diags@);
                }
                return BodyOutcome::Fatal { diags };
            }
            let path: String = match &tokens[i + 1] {
                Token::StrLit { text, .. } => text.clone(),
                _ => {
                    proof {
                        assert(false);
                    }
                    String::new()
                },
            };
            if !(i + 2 < tokens.len() && is_at_tok(&tokens[i + 2])) {
                let sp = if i + 2 < tokens.len() {
                    tokens[i + 2].span()
                } else {
                    tokens[i + 1].span()
                };
                proof {
                    if i + 2 < tokens.len() {
                        assert(ts[2] == token_view(tokens@[i + 2]));
                    }
                }
                let ghost diag = (Diagnostic { code: DiagCode::ExpectedAtKeyword, span: sp });
                diags.push(Diagnostic { code: DiagCode::ExpectedAtKeyword, span: sp });
                proof {
                    assert(parse_body(ts) == (BodyView::Fatal { diags: seq![diag] }));
                    assert(d0 + seq![diag] =~= diags@);
                }
                return BodyOutcome::Fatal { diags };
            }
            proof {
                assert(ts[2] == token_view(tokens@[i + 2]));
            }
            if !(i + 3 < tokens.len() && is_handler_tok(&tokens[i + 3])) {
                let sp = if i + 3 < tokens.len() {
                    tokens[i + 3].span()
                } else {
                    tokens[i + 2].span()
                };
                proof {
                    if i + 3 < tokens.len() {
                        assert(ts[3] == token_view(tokens@[i + 3]));
                    }
                }
                let ghost diag = (Diagnostic { code: DiagCode::ExpectedHandler, span: sp });
                diags.push(Diagnostic { code: DiagCode::ExpectedHandler, span: sp });
                proof {
                    assert(parse_body(ts) == (BodyView::Fatal { diags: seq![diag] }));
                    assert(d0 + seq![diag] =~= diags@);
                }
                return BodyOutcome::Fatal { diags };
            }
            proof {
                assert(ts[3] == token_view(tokens@[i + 3]));
                assert(ts.skip(4) =~= tv.skip(i + 4 as int));
            }
            let handler = handler_exec(&tokens[i + 3]);
            let resource = Resource { method, path, handler };
            let ghost rv = resource_view(resource);
            proof {
                assert(parse_body(ts) == body_prepend(
                    Seq::empty(),
                    seq![rv],
                    Seq::empty(),
                    parse_body(tv.skip(i + 4 as int)),
                ));
            }
            resources.push(resource);
            proof {
                lemma_body_prepend_compose(
                    c0,
                    r0,
                    d0,
                    Seq::empty(),
                    seq![rv],
                    Seq::empty(),
                    parse_body(tv.skip(i + 4 as int)),
                );
                assert(c0 + Seq::<ScopeView>::empty() =~= c0);
                assert(r0 + seq![rv] =~= resources_view(resources@));
                assert(d0 + Seq::<Diagnostic>::empty() =~= d0);
            }
            i = i + 4;
        }
    }
    proof {
        assert(tv.skip(tokens@.len() as int) =~= Seq::<TokenView>::empty());
        assert(parse_body(tv.skip(tokens@.len() as int)) == (BodyView::Good {
            children: Seq::<ScopeView>::empty(),
            resources: Seq::<ResourceView>::empty(),
            diags: Seq::<Diagnostic>::empty(),
        }));
        assert(forest_view(children@) + Seq::<ScopeView>::empty() =~= forest_view(children@));
        assert(resources_view(resources@) + Seq::<ResourceView>::empty() =~= resources_view(
            resources@,
        ));
        assert(diags@ + Seq::<Diagnostic>::empty() =~= diags@);
    }
    BodyOutcome::Good { children, resources, diags }
}

/// A successful parse: the route tree, possibly partial, together with the
/// recoverable diagnostics of any scopes that were dropped along the way.
#[derive(PartialEq, Eq, Debug)]
pub struct ParseSuccess {
    pub tree: RouteTree,
    pub diagnostics: Vec<Diagnostic>,
}

/// Parses a whole token stream into a route tree.
///
/// On success the tree holds every well-formed top-level scope in declaration
/// order, and `diagnostics` the recoverable complaints for scopes whose
/// braced bodies were malformed and therefore dropped. On a fatal failure —
/// a malformed resource anywhere, or a token-shape mismatch outside a braced
/// body — no tree is produced and the returned diagnostics are never empty.
/// The result is exactly what [`parse_top`] defines on the tokens' views.
pub fn parse(tokens: &Vec<Token>) -> (r: Result<ParseSuccess, Vec<Diagnostic>>)
    ensures
        match r {
            Result::Ok(ok) => parse_top(tokens_view(tokens@)) == (ParseView::Parsed {
                scopes: tree_view(ok.tree),
                diags: ok.diagnostics@,
            }),
            Result::Err(d) => parse_top(tokens_view(tokens@)) == (ParseView::Failed { diags: d@ })
                && d@.len() > 0,
        },
{
    broadcast use crate::ast::forest_view_push;

    let ghost tv = tokens_view(tokens@);
    let mut scopes: Vec<Scope> = Vec::new();
    let mut diags: Vec<Diagnostic> = Vec::new();
    let mut i: usize = 0;
    proof {
        assert(tv.skip(0) =~= tv);
        assert(top_prepend(
            Seq::<ScopeView>::empty(),
            Seq::<Diagnostic>::empty(),
            parse_top(tv),
        ) =~= parse_top(tv));
    }
    while i < tokens.len()
        invariant
            i <= tokens.len(),
            tv == tokens_view(tokens@),
            parse_top(tv) == top_prepend(
                forest_view(scopes@),
                diags@,
                parse_top(tv.skip(i as int)),
            ),
        decreases tokens.len() - i,
    {
        let ghost ts = tv.skip(i as int);
        let ghost s0 = forest_view(scopes@);
        let ghost d0 = diags@;
        proof {
            assert(ts[0] == token_view(tokens@[i as int]));
        }
        if !is_ident_tok(&tokens[i]) {
            let sp = tokens[i].span();
            let ghost diag = (Diagnostic { code: DiagCode::ExpectedIdent, span: sp });
            diags.push(Diagnostic { code: DiagCode::ExpectedIdent, span: sp });
            proof {
                assert(parse_top(ts) == (ParseView::Failed { diags: seq![diag] }));
                assert(d0 + seq![diag] =~= diags@);
            }
            return Err(diags);
        }
        if !(i + 1 < tokens.len() && is_paren_tok(&tokens[i + 1])) {
            let sp = if i + 1 < tokens.len() {
                tokens[i + 1].span()
            } else {
                tokens[i].span()
            };
            proof {
                if i + 1 < tokens.len() {
                    assert(ts[1] == token_view(tokens@[i + 1]));
                }
            }
            let ghost diag = (Diagnostic { code: DiagCode::ExpectedParenGroup, span: sp });
            diags.push(Diagnostic { code: DiagCode::ExpectedParenGroup, span: sp });
            proof {
                assert(parse_top(ts) == (ParseView::Failed { diags: seq![diag] }));
                assert(d0 + seq![diag] =~= diags@);
            }
            return Err(diags);
        }
        proof {
            assert(ts[1] == token_view(tokens@[i + 1]));
        }
        if !(i + 2 < tokens.len() && is_brace_tok(&tokens[i + 2])) {
            let sp = if i + 2 < tokens.len() {
                tokens[i + 2].span()
            } else {
                tokens[i + 1].span()
            };
            proof {
                if i + 2 < tokens.len() {
                    assert(ts[2] == token_view(tokens@[i + 2]));
                }
            }
            let ghost diag = (Diagnostic { code: DiagCode::ExpectedBraceGroup, span: sp });
            diags.push(Diagnostic { code: DiagCode::ExpectedBraceGroup, span: sp });
            proof {
                assert(parse_top(ts) == (ParseView::Failed { diags: seq![diag] }));
                assert(d0 + seq![diag] =~= diags@);
            }
            return Err(diags);
        }
        proof {
            assert(ts[2] == token_view(tokens@[i + 2]));
            assert(ts.skip(3) =~= tv.skip(i + 3 as int));
        }
        let pspan = tokens[i + 1].span();
        let bspan = tokens[i + 2].span();
        let ptoks: &Vec<Token> = match &tokens[i + 1] {
            Token::Group { tokens: g, .. } => g,
            _ => {
                proof {
                    assert(false);
                }
                tokens
            },
        };
        proof {
            assert(group_tokens(ts[1]) == tokens_view(ptoks@));
        }
        let path: String = match scope_path_exec(ptoks) {
            Option::Some(p) => p,
            Option::None => {
                let ghost diag = (Diagnostic { code: DiagCode::ScopePathNotString, span: pspan });
                diags.push(Diagnostic { code: DiagCode::ScopePathNotString, span: pspan });
                proof {
                    assert(parse_top(ts) == (ParseView::Failed { diags: seq![diag] }));
                    assert(d0 + seq![diag] =~= diags@);
                }
                return Err(diags);
            },
        };
        let btoks: &Vec<Token> = match &tokens[i + 2] {
            Token::Group { tokens: g, .. } => g,
            _ => {
                proof {
                    assert(false);
                }
                tokens
            },
        };
        proof {
            assert(group_tokens(ts[2]) == tokens_view(btoks@));
        }
        match parse_body_exec(btoks) {
            BodyOutcome::Fatal { diags: d } => {
                let mut d = d;
                proof {
                    assert(parse_top(ts) == (ParseView::Failed { diags: d@ }));
                }
                diags.append(&mut d);
                return Err(diags);
            },
            BodyOutcome::Good { children: c, resources: rs, diags: d } => {
                let scope = Scope { path, children: c, resources: rs };
                let ghost sv = scope_view(scope);
                let ghost dsub = d@;
                proof {
                    assert(parse_top(ts) == top_prepend(
                        seq![sv],
                        dsub,
                        parse_top(tv.skip(i + 3 as int)),
                    ));
                }
                scopes.push(scope);
                let mut d = d;
                diags.append(&mut d);
                proof {
                    lemma_top_prepend_compose(s0, d0, seq![sv], dsub, parse_top(tv.skip(i + 3 as int)));
                    assert(s0 + seq![sv] =~= forest_view(scopes@));
                    assert(d0 + dsub =~= diags@);
                }
                i = i + 3;
            },
            BodyOutcome::Dropped { diags: d } => {
                let ghost dsub = d@;
                let ghost diag = (Diagnostic { code: DiagCode::MalformedScopeBody, span: bspan });
                proof {
                    assert(parse_top(ts) == top_prepend(
                        Seq::empty(),
                        dsub.push(diag),
                        parse_top(tv.skip(i + 3 as int)),
                    ));
                }
                let mut d = d;
                diags.append(&mut d);
                diags.push(Diagnostic { code: DiagCode::MalformedScopeBody, span: bspan });
                proof {
                    lemma_top_prepend_compose(
                        s0,
                        d0,
                        Seq::empty(),
                        dsub.push(diag),
                        parse_top(tv.skip(i + 3 as int)),
                    );
                    assert(s0 + Seq::<ScopeView>::empty() =~= s0);
                    assert(d0 + dsub.push(diag) =~= diags@);
                }
                i = i + 3;
            },
        }
    }
    proof {
        assert(tv.skip(tokens@.len() as int) =~= Seq::<TokenView>::empty());
        assert(parse_top(tv.skip(tokens@.len() as int)) == (ParseView::Parsed {
            scopes: Seq::<ScopeView>::empty(),
            diags: Seq::<Diagnostic>::empty(),
        }));
        assert(forest_view(scopes@) + Seq::<ScopeView>::empty() =~= forest_view(scopes@));
        assert(diags@ + Seq::<Diagnostic>::empty() =~= diags@);
    }
    Ok(ParseSuccess { tree: RouteTree { scopes }, diagnostics: diags })
}

} // verus!
