//! The abstract syntax tree of a route declaration, and the diagnostics the
//! parser reports against it.

use vstd::prelude::*;
use crate::token::Span;

verus! {

/// One routable endpoint: an HTTP method name, a path relative to the
/// enclosing scope, and the dotted path of the handler that serves it. The
/// method is only required to be an identifier; no verb whitelist is applied.
#[derive(PartialEq, Eq, Debug)]
pub struct Resource {
    pub method: String,
    pub path: String,
    pub handler: Vec<String>,
}

/// A named URL-prefix grouping. Nested scopes and resources declared directly
/// inside its body are kept in two lists, each in declaration order.
#[derive(PartialEq, Eq, Debug)]
pub struct Scope {
    pub path: String,
    pub children: Vec<Scope>,
    pub resources: Vec<Resource>,
}

/// The root of the parsed DSL: an ordered forest of top-level scopes.
#[derive(PartialEq, Eq, Debug)]
pub struct RouteTree {
    pub scopes: Vec<Scope>,
}

/// The mathematical shape of a resource.
#[verifier::ext_equal]
pub struct ResourceView {
    pub method: Seq<char>,
    pub path: Seq<char>,
    pub handler: Seq<Seq<char>>,
}

/// The mathematical shape of a scope.
#[verifier::ext_equal]
pub struct ScopeView {
    pub path: Seq<char>,
    pub children: Seq<ScopeView>,
    pub resources: Seq<ResourceView>,
}

/// The view of one resource.
pub open spec fn resource_view(r: Resource) -> ResourceView {
    ResourceView {
        method: r.method@,
        path: r.path@,
        handler: crate::token::strings_view(r.handler@),
    }
}

/// The views of a sequence of resources.
pub open spec fn resources_view(rs: Seq<Resource>) -> Seq<ResourceView> {
    Seq::new(rs.len(), |i: int| resource_view(rs[i]))
}

/// The view of one scope.
pub open spec fn scope_view(s: Scope) -> ScopeView
    decreases s,
{
    ScopeView {
        path: s.path@,
        children: forest_view(s.children@),
        resources: resources_view(s.resources@),
    }
}

/// The views of a sequence of scopes.
pub open spec fn forest_view(ss: Seq<Scope>) -> Seq<ScopeView>
    decreases ss,
{
    if ss.len() == 0 {
        Seq::empty()
    } else {
        seq![scope_view(ss[0])] + forest_view(ss.drop_first())
    }
}

/// A scope sequence and its view have the same length.
pub broadcast proof fn forest_view_len(ss: Seq<Scope>)
    ensures
        #[trigger] forest_view(ss).len() == ss.len(),
    decreases ss,
{
    if ss.len() > 0 {
        forest_view_len(ss.drop_first());
    }
}

/// The view of a scope sequence is its scopes' views, position by position.
pub broadcast proof fn forest_view_index(ss: Seq<Scope>, i: int)
    requires
        0 <= i < ss.len(),
    ensures
        #[trigger] forest_view(ss)[i] == scope_view(ss[i]),
    decreases ss,
{
    forest_view_len(ss);
    if i > 0 {
        forest_view_index(ss.drop_first(), i - 1);
    }
}

/// Pushing a scope extends the sequence view by the scope's view.
pub broadcast proof fn forest_view_push(ss: Seq<Scope>, s: Scope)
    ensures
        #[trigger] forest_view(ss.push(s)) == forest_view(ss).push(scope_view(s)),
    decreases ss,
{
    forest_view_len(ss);
    forest_view_len(ss.push(s));
    if ss.len() == 0 {
        assert(ss.push(s).drop_first() =~= ss);
        assert(forest_view(ss.push(s)) =~= forest_view(ss).push(scope_view(s)));
    } else {
        assert(ss.push(s).drop_first() =~= ss.drop_first().push(s));
        forest_view_push(ss.drop_first(), s);
        assert(forest_view(ss.push(s)) =~= forest_view(ss).push(scope_view(s)));
    }
}

/// Pushing a resource extends the sequence view by the resource's view.
pub broadcast proof fn resources_view_push(rs: Seq<Resource>, r: Resource)
    ensures
        #[trigger] resources_view(rs.push(r)) == resources_view(rs).push(resource_view(r)),
{
    assert(resources_view(rs.push(r)) =~= resources_view(rs).push(resource_view(r)));
}

/// The view of a whole route tree: the views of its top-level scopes.
pub open spec fn tree_view(t: RouteTree) -> Seq<ScopeView> {
    forest_view(t.scopes@)
}

/// What a diagnostic complains about.
#[derive(Clone, Copy, PartialEq, Eq, Structural, Debug)]
pub enum DiagCode {
    /// A braced scope body is not a well-formed sequence of scope and
    /// resource items; the scope it belongs to is dropped (recoverable).
    MalformedScopeBody,
    /// The parenthesized scope header does not hold exactly one string
    /// literal.
    ScopePathNotString,
    /// A top-level item does not start with an identifier.
    ExpectedIdent,
    /// A top-level identifier is not followed by a parenthesized path.
    ExpectedParenGroup,
    /// A scope header is not followed by a braced body.
    ExpectedBraceGroup,
    /// A resource method is not followed by a string-literal path.
    ExpectedRoutePath,
    /// A resource path is not followed by the keyword `at`.
    ExpectedAtKeyword,
    /// The keyword `at` is not followed by a handler path.
    ExpectedHandler,
}

/// A parser message attached to the source span it arose at.
#[derive(Clone, Copy, PartialEq, Eq, Structural, Debug)]
pub struct Diagnostic {
    pub code: DiagCode,
    pub span: Span,
}

} // verus!
