//! End-to-end checks of the route DSL pipeline: parsing token streams,
//! compiling trees to operation sequences, and replaying those sequences.

use route_dsl::ast::{DiagCode, Resource, RouteTree, Scope};
use route_dsl::compiler::{compile, Op};
use route_dsl::parser::parse;
use route_dsl::replay::replay;
use route_dsl::token::{Delim, Span, Token};

fn sp(n: usize) -> Span {
    Span { lo: n, hi: n + 1 }
}

fn ident(text: &str, n: usize) -> Token {
    Token::Ident { text: text.to_owned(), span: sp(n) }
}

fn lit(text: &str, n: usize) -> Token {
    Token::StrLit { text: text.to_owned(), span: sp(n) }
}

fn handler(segments: &[&str], n: usize) -> Token {
    Token::PathRef {
        segments: segments.iter().map(|s| (*s).to_owned()).collect(),
        span: sp(n),
    }
}

fn paren(tokens: Vec<Token>, n: usize) -> Token {
    Token::Group { delim: Delim::Paren, tokens, span: sp(n) }
}

fn brace(tokens: Vec<Token>, n: usize) -> Token {
    Token::Group { delim: Delim::Brace, tokens, span: sp(n) }
}

fn begin_op(path: &str) -> Op {
    Op::BeginScope { path: path.to_owned() }
}

fn route_op(method: &str, path: &str, segments: &[&str]) -> Op {
    Op::Route {
        method: method.to_owned(),
        path: path.to_owned(),
        handler: segments.iter().map(|s| (*s).to_owned()).collect(),
    }
}

fn resource(method: &str, path: &str, segments: &[&str]) -> Resource {
    Resource {
        method: method.to_owned(),
        path: path.to_owned(),
        handler: segments.iter().map(|s| (*s).to_owned()).collect(),
    }
}

fn scope(path: &str, children: Vec<Scope>, resources: Vec<Resource>) -> Scope {
    Scope { path: path.to_owned(), children, resources }
}

/// `scope("/users") { get "/:id" at users::show post "/" at users::create }`
/// compiles to one balanced pair around the two routes, in declaration order.
#[test]
fn users_scope_compiles_to_expected_operations() {
    let tokens = vec![
        ident("scope", 0),
        paren(vec![lit("/users", 1)], 2),
        brace(
            vec![
                ident("get", 3),
                lit("/:id", 4),
                ident("at", 5),
                handler(&["users", "show"], 6),
                ident("post", 7),
                lit("/", 8),
                ident("at", 9),
                handler(&["users", "create"], 10),
            ],
            11,
        ),
    ];
    let ok = parse(&tokens).expect("well-formed input must parse");
    assert_eq!(ok.diagnostics.len(), 0);
    let ops = compile(&ok.tree);
    assert_eq!(
        ops,
        vec![
            begin_op("/users"),
            route_op("get", "/:id", &["users", "show"]),
            route_op("post", "/", &["users", "create"]),
            Op::EndScope,
        ]
    );
}

/// `scope("/api") { scope("/v1") { get "/ping" at health::ping } }` compiles
/// to two nested balanced pairs around the one route.
#[test]
fn nested_scopes_compile_to_nested_operations() {
    let tokens = vec![
        ident("scope", 0),
        paren(vec![lit("/api", 1)], 2),
        brace(
            vec![
                ident("scope", 3),
                paren(vec![lit("/v1", 4)], 5),
                brace(
                    vec![
                        ident("get", 6),
                        lit("/ping", 7),
                        ident("at", 8),
                        handler(&["health", "ping"], 9),
                    ],
                    10,
                ),
            ],
            11,
        ),
    ];
    let ok = parse(&tokens).expect("well-formed input must parse");
    assert_eq!(ok.diagnostics.len(), 0);
    let ops = compile(&ok.tree);
    assert_eq!(
        ops,
        vec![
            begin_op("/api"),
            begin_op("/v1"),
            route_op("get", "/ping", &["health", "ping"]),
            Op::EndScope,
            Op::EndScope,
        ]
    );
}

/// A scope's nested children always compile before its own resources, even
/// when the resource was declared first in the source text.
#[test]
fn children_compile_before_resources_despite_declaration_order() {
    let tokens = vec![
        ident("scope", 0),
        paren(vec![lit("/mixed", 1)], 2),
        brace(
            vec![
                // resource declared first ...
                ident("get", 3),
                lit("/first", 4),
                ident("at", 5),
                handler(&["pages", "first"], 6),
                // ... but both child scopes must compile before it
                ident("scope", 7),
                paren(vec![lit("/c1", 8)], 9),
                brace(vec![], 10),
                ident("scope", 11),
                paren(vec![lit("/c2", 12)], 13),
                brace(vec![], 14),
            ],
            15,
        ),
    ];
    let ok = parse(&tokens).expect("well-formed input must parse");
    let ops = compile(&ok.tree);
    assert_eq!(
        ops,
        vec![
            begin_op("/mixed"),
            begin_op("/c1"),
            Op::EndScope,
            begin_op("/c2"),
            Op::EndScope,
            route_op("get", "/first", &["pages", "first"]),
            Op::EndScope,
        ]
    );
}

/// A scope nested three levels deep produces exactly three balanced
/// `BeginScope`/`EndScope` pairs, and no prefix closes more than it opened.
#[test]
fn three_levels_produce_three_balanced_pairs() {
    let tree = RouteTree {
        scopes: vec![scope(
            "/a",
            vec![scope("/b", vec![scope("/c", vec![], vec![])], vec![])],
            vec![],
        )],
    };
    let ops = compile(&tree);
    assert_eq!(ops.len(), 6);
    let mut open: i64 = 0;
    for (k, op) in ops.iter().enumerate() {
        match op {
            Op::BeginScope { .. } => open += 1,
            Op::EndScope => open -= 1,
            Op::Route { .. } => {}
        }
        assert!(open >= 0);
        if k + 1 < ops.len() {
            assert!(open > 0, "counts may only meet at a top-level boundary");
        }
    }
    assert_eq!(open, 0);
    let begins = ops.iter().filter(|op| matches!(op, Op::BeginScope { .. })).count();
    let ends = ops.iter().filter(|op| matches!(op, Op::EndScope)).count();
    assert_eq!(begins, 3);
    assert_eq!(ends, 3);
}

/// Compiling a hand-built tree and replaying the operations rebuilds an
/// identical tree: same nesting, same resources, same order.
#[test]
fn compile_then_replay_rebuilds_the_tree() {
    let tree = RouteTree {
        scopes: vec![
            scope(
                "/api",
                vec![
                    scope("/v1", vec![], vec![resource("get", "/ping", &["health", "ping"])]),
                    scope("/v2", vec![], vec![]),
                ],
                vec![
                    resource("get", "/status", &["status", "show"]),
                    resource("post", "/reload", &["admin", "reload"]),
                ],
            ),
            scope("/files", vec![], vec![resource("get", "/:name", &["files", "fetch"])]),
        ],
    };
    let ops = compile(&tree);
    let rebuilt = replay(&ops).expect("compiled operations are always well-formed");
    assert_eq!(rebuilt, tree);
}

/// One malformed nested scope among three siblings is dropped with a
/// diagnostic; both well-formed siblings survive unharmed.
#[test]
fn malformed_sibling_scope_is_contained() {
    let tokens = vec![
        ident("scope", 0),
        paren(vec![lit("/root", 1)], 2),
        brace(
            vec![
                ident("scope", 3),
                paren(vec![lit("/ok1", 4)], 5),
                brace(vec![], 6),
                ident("scope", 7),
                paren(vec![lit("/bad", 8)], 9),
                // a body that starts with a stray string literal is malformed
                brace(vec![lit("junk", 10)], 11),
                ident("scope", 12),
                paren(vec![lit("/ok2", 13)], 14),
                brace(vec![], 15),
            ],
            16,
        ),
    ];
    let ok = parse(&tokens).expect("the malformed sibling must not abort the parse");
    assert_eq!(ok.diagnostics.len(), 1);
    assert_eq!(ok.diagnostics[0].code, DiagCode::MalformedScopeBody);
    assert_eq!(ok.diagnostics[0].span, sp(11));
    assert_eq!(ok.tree.scopes.len(), 1);
    let root = &ok.tree.scopes[0];
    assert_eq!(root.path, "/root");
    assert_eq!(root.children.len(), 2);
    assert_eq!(root.children[0].path, "/ok1");
    assert_eq!(root.children[1].path, "/ok2");
}

/// A resource missing the `at` keyword is fatal: no tree, at least one
/// diagnostic, no partial results.
#[test]
fn resource_missing_at_keyword_is_fatal() {
    let tokens = vec![
        ident("scope", 0),
        paren(vec![lit("/users", 1)], 2),
        brace(
            vec![
                ident("get", 3),
                lit("/:id", 4),
                handler(&["users", "show"], 5),
            ],
            6,
        ),
    ];
    let err = parse(&tokens).expect_err("a malformed resource must abort the parse");
    assert!(!err.is_empty());
    assert_eq!(err[0].code, DiagCode::ExpectedAtKeyword);
}

/// A malformed resource deep inside an otherwise healthy tree still aborts
/// the whole parse: fatal errors are not contained at scope boundaries.
#[test]
fn nested_malformed_resource_aborts_whole_parse() {
    let tokens = vec![
        ident("scope", 0),
        paren(vec![lit("/ok", 1)], 2),
        brace(vec![], 3),
        ident("scope", 4),
        paren(vec![lit("/outer", 5)], 6),
        brace(
            vec![
                ident("scope", 7),
                paren(vec![lit("/inner", 8)], 9),
                brace(
                    vec![
                        ident("get", 10),
                        lit("/x", 11),
                        ident("at", 12),
                        // a string literal cannot stand as a handler
                        lit("broken", 13),
                    ],
                    14,
                ),
            ],
            15,
        ),
    ];
    let err = parse(&tokens).expect_err("a malformed resource must abort the parse");
    assert_eq!(err.len(), 1);
    assert_eq!(err[0].code, DiagCode::ExpectedHandler);
    assert_eq!(err[0].span, sp(13));
}

/// An empty token stream parses to an empty tree, which compiles to nothing.
#[test]
fn empty_input_gives_empty_tree_and_no_operations() {
    let tokens: Vec<Token> = vec![];
    let ok = parse(&tokens).expect("empty input is a valid empty declaration");
    assert_eq!(ok.tree.scopes.len(), 0);
    assert_eq!(ok.diagnostics.len(), 0);
    assert_eq!(compile(&ok.tree).len(), 0);
}

/// A single identifier also serves as a handler, as the one-segment form of
/// a dotted path.
#[test]
fn bare_identifier_serves_as_handler() {
    let tokens = vec![
        ident("scope", 0),
        paren(vec![lit("/h", 1)], 2),
        brace(
            vec![ident("get", 3), lit("/", 4), ident("at", 5), ident("index", 6)],
            7,
        ),
    ];
    let ok = parse(&tokens).expect("well-formed input must parse");
    assert_eq!(ok.tree.scopes[0].resources[0].handler, vec!["index".to_owned()]);
}

/// The method identifier is carried through unvalidated: any identifier is
/// accepted as a method name.
#[test]
fn method_names_are_not_whitelisted() {
    let tokens = vec![
        ident("scope", 0),
        paren(vec![lit("/w", 1)], 2),
        brace(
            vec![ident("teapot", 3), lit("/", 4), ident("at", 5), ident("brew", 6)],
            7,
        ),
    ];
    let ok = parse(&tokens).expect("well-formed input must parse");
    assert_eq!(ok.tree.scopes[0].resources[0].method, "teapot");
}

#[test]
fn stray_token_at_top_level_is_fatal() {
    let tokens = vec![lit("oops", 0)];
    let err = parse(&tokens).expect_err("a top-level stray token must be fatal");
    assert_eq!(err.len(), 1);
    assert_eq!(err[0].code, DiagCode::ExpectedIdent);
    assert_eq!(err[0].span, sp(0));
}

#[test]
fn top_level_identifier_without_paren_is_fatal() {
    let tokens = vec![ident("scope", 0), brace(vec![], 1)];
    let err = parse(&tokens).expect_err("a scope header needs a parenthesized path");
    assert_eq!(err.len(), 1);
    assert_eq!(err[0].code, DiagCode::ExpectedParenGroup);
    assert_eq!(err[0].span, sp(1));
}

#[test]
fn top_level_scope_without_braced_body_is_fatal() {
    let tokens = vec![ident("scope", 0), paren(vec![lit("/x", 1)], 2)];
    let err = parse(&tokens).expect_err("a scope header needs a braced body");
    assert_eq!(err.len(), 1);
    assert_eq!(err[0].code, DiagCode::ExpectedBraceGroup);
    assert_eq!(err[0].span, sp(2));
}

#[test]
fn top_level_scope_path_must_be_one_string_literal() {
    let tokens = vec![
        ident("scope", 0),
        paren(vec![ident("nope", 1)], 2),
        brace(vec![], 3),
    ];
    let err = parse(&tokens).expect_err("a non-string scope path at top level is fatal");
    assert_eq!(err.len(), 1);
    assert_eq!(err[0].code, DiagCode::ScopePathNotString);
    assert_eq!(err[0].span, sp(2));
}

/// A nested scope whose parenthesized header is not a single string literal
/// is dropped with a diagnostic while its siblings parse on.
#[test]
fn nested_bad_scope_path_is_contained() {
    let tokens = vec![
        ident("scope", 0),
        paren(vec![lit("/root", 1)], 2),
        brace(
            vec![
                ident("scope", 3),
                paren(vec![lit("/a", 4), lit("/b", 5)], 6),
                brace(vec![], 7),
                ident("scope", 8),
                paren(vec![lit("/ok", 9)], 10),
                brace(vec![], 11),
            ],
            12,
        ),
    ];
    let ok = parse(&tokens).expect("a bad nested header must not abort the parse");
    assert_eq!(ok.diagnostics.len(), 1);
    assert_eq!(ok.diagnostics[0].code, DiagCode::ScopePathNotString);
    assert_eq!(ok.diagnostics[0].span, sp(6));
    assert_eq!(ok.tree.scopes[0].children.len(), 1);
    assert_eq!(ok.tree.scopes[0].children[0].path, "/ok");
}

#[test]
fn resource_without_string_path_is_fatal() {
    let tokens = vec![
        ident("scope", 0),
        paren(vec![lit("/r", 1)], 2),
        brace(vec![ident("get", 3), ident("nope", 4)], 5),
    ];
    let err = parse(&tokens).expect_err("a resource needs a string-literal path");
    assert_eq!(err.len(), 1);
    assert_eq!(err[0].code, DiagCode::ExpectedRoutePath);
    assert_eq!(err[0].span, sp(4));
}

/// A scope header left without its braced body makes the *enclosing* body
/// malformed: the enclosing scope is dropped as a whole, and parsing goes on
/// after its block.
#[test]
fn scope_header_without_body_drops_the_enclosing_scope() {
    let tokens = vec![
        ident("scope", 0),
        paren(vec![lit("/broken", 1)], 2),
        // the nested header `scope("/x")` has no braced body
        brace(vec![ident("scope", 3), paren(vec![lit("/x", 4)], 5)], 6),
        ident("scope", 7),
        paren(vec![lit("/fine", 8)], 9),
        brace(vec![], 10),
    ];
    let ok = parse(&tokens).expect("the malformed block is contained");
    assert_eq!(ok.diagnostics.len(), 1);
    assert_eq!(ok.diagnostics[0].code, DiagCode::MalformedScopeBody);
    assert_eq!(ok.diagnostics[0].span, sp(6));
    assert_eq!(ok.tree.scopes.len(), 1);
    assert_eq!(ok.tree.scopes[0].path, "/fine");
}

/// Diagnostics gathered inside a scope that is later dropped are not
/// discarded: they come out ahead of the diagnostic for the dropped block.
#[test]
fn diagnostics_inside_a_dropped_scope_survive() {
    let tokens = vec![
        ident("scope", 0),
        paren(vec![lit("/outer", 1)], 2),
        brace(
            vec![
                // a nested scope whose header path is not a string: dropped
                // with its own diagnostic ...
                ident("scope", 3),
                paren(vec![ident("oops", 4)], 5),
                brace(vec![], 6),
                // ... then a stray token makes the whole body malformed
                lit("junk", 7),
            ],
            8,
        ),
    ];
    let ok = parse(&tokens).expect("the malformed block is contained");
    assert_eq!(ok.tree.scopes.len(), 0);
    assert_eq!(ok.diagnostics.len(), 2);
    assert_eq!(ok.diagnostics[0].code, DiagCode::ScopePathNotString);
    assert_eq!(ok.diagnostics[0].span, sp(5));
    assert_eq!(ok.diagnostics[1].code, DiagCode::MalformedScopeBody);
    assert_eq!(ok.diagnostics[1].span, sp(8));
}

/// Replay rejects ill-formed operation sequences instead of guessing.
#[test]
fn replay_rejects_unbalanced_operations() {
    assert_eq!(replay(&vec![Op::EndScope]), None);
    assert_eq!(replay(&vec![begin_op("/open")]), None);
    assert_eq!(replay(&vec![route_op("get", "/", &["h"])]), None);
    let ok = replay(&vec![begin_op("/a"), Op::EndScope]).expect("balanced operations replay");
    assert_eq!(ok, RouteTree { scopes: vec![scope("/a", vec![], vec![])] });
}
