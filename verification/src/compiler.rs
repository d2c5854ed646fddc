//! The tree compiler: flattens a route tree into an ordered sequence of
//! abstract router-configuration operations.
//!
//! For each scope the compiler emits `BeginScope(path)`, then the full
//! compilation of every nested child scope in declaration order, then one
//! `Route` per resource in declaration order, then `EndScope`. Child scopes
//! always precede the enclosing scope's own resources, whatever order the two
//! kinds of item were declared in. The compiler performs no path
//! concatenation, no method validation and no deduplication, and it cannot
//! fail: it is a total, purely structural translation.

use vstd::prelude::*;
use crate::ast::{RouteTree, Scope, ScopeView, ResourceView};
use crate::ast::{forest_view, resources_view, scope_view, tree_view};
use crate::token::clone_strings;

verus! {

broadcast use crate::ast::forest_view_len, crate::ast::forest_view_index;

/// One abstract router-configuration operation, the unit an external router
/// builder consumes.
#[derive(PartialEq, Eq, Debug)]
pub enum Op {
    /// Push a path-prefix frame.
    BeginScope { path: String },
    /// Register one endpoint within the current frame.
    Route { method: String, path: String, handler: Vec<String> },
    /// Pop the most recently pushed frame.
    EndScope,
}

/// The mathematical shape of an operation.
#[verifier::ext_equal]
pub enum OpView {
    BeginScope { path: Seq<char> },
    Route { method: Seq<char>, path: Seq<char>, handler: Seq<Seq<char>> },
    EndScope,
}

/// The view of one operation.
pub open spec fn op_view(op: Op) -> OpView {
    match op {
        Op::BeginScope { path } => OpView::BeginScope { path: path@ },
        Op::Route { method, path, handler } => OpView::Route {
            method: method@,
            path: path@,
            handler: crate::token::strings_view(handler@),
        },
        Op::EndScope => OpView::EndScope,
    }
}

/// The views of a sequence of operations.
pub open spec fn ops_view(ops: Seq<Op>) -> Seq<OpView> {
    Seq::new(ops.len(), |i: int| op_view(ops[i]))
}

/// Pushing an operation extends the sequence view by the operation's view.
pub broadcast proof fn ops_view_push(ops: Seq<Op>, op: Op)
    ensures
        #[trigger] ops_view(ops.push(op)) == ops_view(ops).push(op_view(op)),
{
    assert(ops_view(ops.push(op)) =~= ops_view(ops).push(op_view(op)));
}

/// The `Route` operations of a resource list, in declaration order.
pub open spec fn route_ops(rs: Seq<ResourceView>) -> Seq<OpView> {
    Seq::new(
        rs.len(),
        |i: int| (OpView::Route { method: rs[i].method, path: rs[i].path, handler: rs[i].handler }),
    )
}

/// The operations one scope compiles to: its `BeginScope`, the operations of
/// all its children, one `Route` per resource, and its `EndScope`.
pub open spec fn compile_scope_ops(s: ScopeView) -> Seq<OpView>
    decreases s, 1int,
{
    seq![(OpView::BeginScope { path: s.path })] + compile_forest_ops(s.children) + route_ops(
        s.resources,
    ) + seq![OpView::EndScope]
}

/// The operations an ordered forest of scopes compiles to.
pub open spec fn compile_forest_ops(ss: Seq<ScopeView>) -> Seq<OpView>
    decreases ss, 0int,
{
    if ss.len() == 0 {
        Seq::empty()
    } else {
        compile_scope_ops(ss[0]) + compile_forest_ops(ss.drop_first())
    }
}

/// Compiling a forest extended by one scope appends that scope's operations.
pub proof fn lemma_compile_forest_snoc(ss: Seq<ScopeView>, s: ScopeView)
    ensures
        compile_forest_ops(ss.push(s)) == compile_forest_ops(ss) + compile_scope_ops(s),
    decreases ss,
{
    if ss.len() == 0 {
        assert(ss.push(s)[0] == s);
        assert(ss.push(s).drop_first() =~= ss);
        assert(compile_forest_ops(ss.push(s)) == compile_scope_ops(s) + compile_forest_ops(ss));
        assert(compile_forest_ops(ss.push(s)) =~= compile_forest_ops(ss) + compile_scope_ops(s));
    } else {
        assert(ss.push(s).drop_first() =~= ss.drop_first().push(s));
        lemma_compile_forest_snoc(ss.drop_first(), s);
        assert(compile_forest_ops(ss.push(s)) =~= compile_forest_ops(ss) + compile_scope_ops(s));
    }
}

/// Law: within one scope, the operations of every nested child scope are
/// emitted before any `Route` of the scope's own resources, regardless of how
/// children and resources were interleaved in the declaration — one
/// `BeginScope`, all children's operations, all `Route`s, one `EndScope`.
pub proof fn lemma_children_precede_resources(s: ScopeView)
    ensures
        compile_scope_ops(s) == seq![(OpView::BeginScope { path: s.path })] + compile_forest_ops(
            s.children,
        ) + route_ops(s.resources) + seq![OpView::EndScope],
{
}

/// How many `BeginScope` operations a sequence holds.
pub open spec fn count_begins(ops: Seq<OpView>) -> nat
    decreases ops.len(),
{
    if ops.len() == 0 {
        0
    } else {
        (if ops[0] is BeginScope {
            1nat
        } else {
            0nat
        }) + count_begins(ops.drop_first())
    }
}

/// How many `EndScope` operations a sequence holds.
pub open spec fn count_ends(ops: Seq<OpView>) -> nat
    decreases ops.len(),
{
    if ops.len() == 0 {
        0
    } else {
        (if ops[0] is EndScope {
            1nat
        } else {
            0nat
        }) + count_ends(ops.drop_first())
    }
}

/// How many scopes a scope's subtree holds, itself included.
pub open spec fn scope_count(s: ScopeView) -> nat
    decreases s, 1int,
{
    1 + forest_count(s.children)
}

/// How many scopes a forest holds in all its subtrees.
pub open spec fn forest_count(ss: Seq<ScopeView>) -> nat
    decreases ss, 0int,
{
    if ss.len() == 0 {
        0
    } else {
        scope_count(ss[0]) + forest_count(ss.drop_first())
    }
}

/// Both counts distribute over concatenation.
proof fn lemma_counts_add(a: Seq<OpView>, b: Seq<OpView>)
    ensures
        count_begins(a + b) == count_begins(a) + count_begins(b),
        count_ends(a + b) == count_ends(a) + count_ends(b),
    decreases a.len(),
{
    if a.len() == 0 {
        assert(a + b =~= b);
    } else {
        assert((a + b)[0] == a[0]);
        assert((a + b).drop_first() =~= a.drop_first() + b);
        lemma_counts_add(a.drop_first(), b);
    }
}

/// Route operations hold no `BeginScope` and no `EndScope`.
proof fn lemma_counts_routes(rs: Seq<ResourceView>)
    ensures
        count_begins(route_ops(rs)) == 0,
        count_ends(route_ops(rs)) == 0,
    decreases rs.len(),
{
    if rs.len() == 0 {
        assert(route_ops(rs) =~= Seq::<OpView>::empty());
    } else {
        assert(route_ops(rs).drop_first() =~= route_ops(rs.drop_first()));
        lemma_counts_routes(rs.drop_first());
    }
}

/// Law: one scope compiles to as many `BeginScope` as `EndScope` operations —
/// one pair per scope in its subtree — and every proper, non-empty prefix of
/// its operations has strictly more `BeginScope` than `EndScope`: the pairs
/// are balanced and properly nested, and the counts agree only at the very
/// end.
pub proof fn lemma_scope_balanced(s: ScopeView)
    ensures
        count_begins(compile_scope_ops(s)) == scope_count(s),
        count_ends(compile_scope_ops(s)) == scope_count(s),
        compile_scope_ops(s).len() >= 2,
        forall|k: int|
            0 < k < compile_scope_ops(s).len() ==> count_begins(
                #[trigger] compile_scope_ops(s).take(k),
            ) > count_ends(compile_scope_ops(s).take(k)),
    decreases s, 1int,
{
    let b = seq![(OpView::BeginScope { path: s.path })];
    let f = compile_forest_ops(s.children);
    let r = route_ops(s.resources);
    let e = seq![OpView::EndScope];
    let ops = compile_scope_ops(s);
    let m = f + r;
    assert(ops =~= b + m + e);

    lemma_forest_balanced(s.children);
    lemma_counts_routes(s.resources);
    lemma_counts_add(f, r);
    lemma_counts_add(b, m);
    lemma_counts_add(b + m, e);
    assert(b.drop_first() =~= Seq::<OpView>::empty());
    assert(e.drop_first() =~= Seq::<OpView>::empty());
    assert(b.len() == 1 && b[0] == (OpView::BeginScope { path: s.path }));
    assert(e.len() == 1 && e[0] == OpView::EndScope);
    assert(count_begins(b.drop_first()) == 0 && count_ends(b.drop_first()) == 0);
    assert(count_begins(e.drop_first()) == 0 && count_ends(e.drop_first()) == 0);
    assert(count_begins(b) == 1 && count_ends(b) == 0);
    assert(count_begins(e) == 0 && count_ends(e) == 1);

    // every prefix of the middle keeps the counts in balance
    assert forall|j: int| 0 <= j <= m.len() implies count_begins(#[trigger] m.take(j))
        >= count_ends(m.take(j)) by {
        if j <= f.len() {
            assert(m.take(j) =~= f.take(j));
        } else {
            assert(m.take(j) =~= f + r.take(j - f.len()));
            assert(r.take(j - f.len()) =~= route_ops(s.resources.take(j - f.len())));
            lemma_counts_routes(s.resources.take(j - f.len()));
            lemma_counts_add(f, r.take(j - f.len()));
        }
    }

    assert forall|k: int| 0 < k < ops.len() implies count_begins(#[trigger] ops.take(k))
        > count_ends(ops.take(k)) by {
        assert(ops.take(k) =~= b + m.take(k - 1));
        lemma_counts_add(b, m.take(k - 1));
        assert(count_begins(m.take(k - 1)) >= count_ends(m.take(k - 1)));
    }
}

/// Law: a forest compiles to as many `BeginScope` as `EndScope` operations —
/// one pair per scope over all its subtrees — and no prefix of its operations
/// ever closes more scopes than it has opened.
pub proof fn lemma_forest_balanced(ss: Seq<ScopeView>)
    ensures
        count_begins(compile_forest_ops(ss)) == forest_count(ss),
        count_ends(compile_forest_ops(ss)) == forest_count(ss),
        forall|k: int|
            0 <= k <= compile_forest_ops(ss).len() ==> count_begins(
                #[trigger] compile_forest_ops(ss).take(k),
            ) >= count_ends(compile_forest_ops(ss).take(k)),
    decreases ss, 0int,
{
    let ops = compile_forest_ops(ss);
    if ss.len() == 0 {
        assert forall|k: int| 0 <= k <= ops.len() implies count_begins(#[trigger] ops.take(k))
            >= count_ends(ops.take(k)) by {
            assert(ops.take(k) =~= Seq::<OpView>::empty());
        }
    } else {
        let first = compile_scope_ops(ss[0]);
        let rest = compile_forest_ops(ss.drop_first());
        lemma_scope_balanced(ss[0]);
        lemma_forest_balanced(ss.drop_first());
        lemma_counts_add(first, rest);
        assert forall|k: int| 0 <= k <= ops.len() implies count_begins(#[trigger] ops.take(k))
            >= count_ends(ops.take(k)) by {
            if k <= first.len() {
                assert(ops.take(k) =~= first.take(k));
                if k == first.len() {
                    assert(first.take(k) =~= first);
                }
            } else {
                assert(ops.take(k) =~= first + rest.take(k - first.len()));
                lemma_counts_add(first, rest.take(k - first.len()));
            }
        }
    }
}

/// How many operations the first `j` scopes of a forest compile to.
pub open spec fn forest_ops_upto(ss: Seq<ScopeView>, j: int) -> nat
    decreases j,
{
    if j <= 0 {
        0
    } else {
        forest_ops_upto(ss, j - 1) + compile_scope_ops(ss[j - 1]).len()
    }
}

/// Dropping the first scope shifts the prefix lengths by its operations.
proof fn lemma_upto_shift(ss: Seq<ScopeView>, j: int)
    requires
        1 <= j <= ss.len(),
    ensures
        forest_ops_upto(ss, j) == compile_scope_ops(ss[0]).len() + forest_ops_upto(
            ss.drop_first(),
            j - 1,
        ),
    decreases j,
{
    if j == 1 {
        assert(forest_ops_upto(ss, 0) == 0);
        assert(forest_ops_upto(ss.drop_first(), 0) == 0);
    } else {
        lemma_upto_shift(ss, j - 1);
        assert(ss.drop_first()[j - 2] == ss[j - 1]);
        assert(forest_ops_upto(ss.drop_first(), j - 1) == forest_ops_upto(ss.drop_first(), j - 2)
            + compile_scope_ops(ss.drop_first()[j - 2]).len());
    }
}

/// All the scopes of a forest together compile to all its operations.
proof fn lemma_upto_full(ss: Seq<ScopeView>)
    ensures
        forest_ops_upto(ss, ss.len() as int) == compile_forest_ops(ss).len(),
    decreases ss.len(),
{
    if ss.len() > 0 {
        lemma_upto_shift(ss, ss.len() as int);
        lemma_upto_full(ss.drop_first());
    }
}

/// A forest's operations split around any one of its scopes, and the prefix
/// before that scope is exactly the compilation of the scopes before it.
proof fn lemma_forest_split(ss: Seq<ScopeView>, j: int)
    requires
        0 <= j < ss.len(),
    ensures
        compile_forest_ops(ss) == compile_forest_ops(ss.take(j)) + compile_scope_ops(ss[j])
            + compile_forest_ops(ss.skip(j + 1)),
        forest_ops_upto(ss, j) == compile_forest_ops(ss.take(j)).len(),
    decreases j,
{
    if j == 0 {
        assert(ss.take(0) =~= Seq::<ScopeView>::empty());
        assert(compile_forest_ops(ss.take(0)) =~= Seq::<OpView>::empty());
        assert(ss.skip(1) =~= ss.drop_first());
        assert(compile_forest_ops(ss) =~= compile_forest_ops(ss.take(0)) + compile_scope_ops(
            ss[0],
        ) + compile_forest_ops(ss.skip(1)));
    } else {
        let dt = ss.drop_first();
        lemma_forest_split(dt, j - 1);
        lemma_upto_shift(ss, j);
        assert(ss.take(j)[0] == ss[0]);
        assert(ss.take(j).drop_first() =~= dt.take(j - 1));
        assert(compile_forest_ops(ss.take(j)) == compile_scope_ops(ss[0]) + compile_forest_ops(
            dt.take(j - 1),
        ));
        assert(ss.skip(j + 1) =~= dt.skip(j));
        assert(ss[j] == dt[j - 1]);
        assert(compile_forest_ops(ss) =~= compile_forest_ops(ss.take(j)) + compile_scope_ops(
            ss[j],
        ) + compile_forest_ops(ss.skip(j + 1)));
    }
}

/// Law: the `BeginScope` and `EndScope` counts of a compiled forest meet at
/// the boundary after each complete top-level scope ...
pub proof fn lemma_counts_meet_at_boundaries(ss: Seq<ScopeView>, j: int)
    requires
        0 <= j <= ss.len(),
    ensures
        count_begins(compile_forest_ops(ss).take(forest_ops_upto(ss, j) as int)) == count_ends(
            compile_forest_ops(ss).take(forest_ops_upto(ss, j) as int),
        ),
{
    if j == ss.len() {
        lemma_upto_full(ss);
        assert(compile_forest_ops(ss).take(compile_forest_ops(ss).len() as int)
            =~= compile_forest_ops(ss));
        lemma_forest_balanced(ss);
    } else {
        lemma_forest_split(ss, j);
        assert(compile_forest_ops(ss).take(forest_ops_upto(ss, j) as int) =~= compile_forest_ops(
            ss.take(j),
        ));
        lemma_forest_balanced(ss.take(j));
    }
}

/// Law: ... and nowhere else: while the `j`-th top-level scope's operations
/// are being emitted, strictly more scopes stand open than have been closed.
pub proof fn lemma_counts_meet_only_at_boundaries(ss: Seq<ScopeView>, j: int, m: int)
    requires
        0 <= j < ss.len(),
        0 < m < compile_scope_ops(ss[j]).len(),
    ensures
        count_begins(compile_forest_ops(ss).take(forest_ops_upto(ss, j) + m)) > count_ends(
            compile_forest_ops(ss).take(forest_ops_upto(ss, j) + m),
        ),
{
    lemma_forest_split(ss, j);
    let a = compile_forest_ops(ss.take(j));
    let b = compile_scope_ops(ss[j]);
    assert(compile_forest_ops(ss).take(forest_ops_upto(ss, j) + m) =~= a + b.take(m));
    lemma_counts_add(a, b.take(m));
    lemma_forest_balanced(ss.take(j));
    lemma_scope_balanced(ss[j]);
}

/// Appends the compilation of one scope to `out`.
fn compile_scope_into(s: &Scope, out: &mut Vec<Op>)
    ensures
        ops_view(final(out)@) == ops_view(old(out)@) + compile_scope_ops(scope_view(*s)),
    decreases *s,
{
    broadcast use ops_view_push;

    let ghost base = ops_view(out@);
    let ghost sv = scope_view(*s);
    out.push(Op::BeginScope { path: s.path.clone() });

    let ghost fv = forest_view(s.children@);
    let mut j: usize = 0;
    while j < s.children.len()
        invariant
            j <= s.children.len(),
            fv == forest_view(s.children@),
            base == ops_view(old(out)@),
            ops_view(out@) == base + seq![(OpView::BeginScope { path: s.path@ })] + compile_forest_ops(fv.take(j as int)),
        decreases s.children.len() - j,
    {
        compile_scope_into(&s.children[j], out);
        proof {
            assert(fv.take(j + 1 as int) =~= fv.take(j as int).push(fv[j as int]));
            lemma_compile_forest_snoc(fv.take(j as int), fv[j as int]);
            assert(base + seq![(OpView::BeginScope { path: s.path@ })] + compile_forest_ops(
                fv.take(j as int),
            ) + compile_scope_ops(fv[j as int]) =~= base + seq![
                (OpView::BeginScope { path: s.path@ }),
            ] + compile_forest_ops(fv.take(j + 1 as int)));
        }
        j = j + 1;
    }
    proof {
        assert(fv.take(s.children@.len() as int) =~= fv);
    }

    let ghost rv = resources_view(s.resources@);
    let mut k: usize = 0;
    while k < s.resources.len()
        invariant
            k <= s.resources.len(),
            rv == resources_view(s.resources@),
            base == ops_view(old(out)@),
            fv == forest_view(s.children@),
            ops_view(out@) == base + seq![(OpView::BeginScope { path: s.path@ })] + compile_forest_ops(fv) + route_ops(rv.take(k as int)),
        decreases s.resources.len() - k,
    {
        let r = &s.resources[k];
        out.push(Op::Route {
            method: r.method.clone(),
            path: r.path.clone(),
            handler: clone_strings(&r.handler),
        });
        proof {
            let pre = base + seq![(OpView::BeginScope { path: s.path@ })] + compile_forest_ops(fv);
            let x = (OpView::Route {
                method: s.resources@[k as int].method@,
                path: s.resources@[k as int].path@,
                handler: crate::token::strings_view(s.resources@[k as int].handler@),
            });
            assert(ops_view(out@) == (pre + route_ops(rv.take(k as int))).push(x));
            assert((pre + route_ops(rv.take(k as int))).push(x) =~= pre + route_ops(
                rv.take(k + 1 as int),
            ));
        }
        k = k + 1;
    }
    proof {
        assert(rv.take(s.resources@.len() as int) =~= rv);
    }

    out.push(Op::EndScope);
    proof {
        assert(ops_view(out@) =~= base + compile_scope_ops(sv));
    }
}

/// Compiles a route tree into the ordered operation sequence defined by
/// [`compile_forest_ops`]: for each top-level scope in declaration order, a
/// balanced `BeginScope`/`EndScope` pair enclosing first the operations of
/// its nested scopes and then its own routes.
pub fn compile(tree: &RouteTree) -> (ops: Vec<Op>)
    ensures
        ops_view(ops@) == compile_forest_ops(tree_view(*tree)),
{
    let mut ops: Vec<Op> = Vec::new();
    let ghost fv = tree_view(*tree);
    let mut i: usize = 0;
    while i < tree.scopes.len()
        invariant
            i <= tree.scopes.len(),
            fv == tree_view(*tree),
            ops_view(ops@) == compile_forest_ops(fv.take(i as int)),
        decreases tree.scopes.len() - i,
    {
        compile_scope_into(&tree.scopes[i], &mut ops);
        proof {
            assert(fv.take(i + 1 as int) =~= fv.take(i as int).push(fv[i as int]));
            lemma_compile_forest_snoc(fv.take(i as int), fv[i as int]);
        }
        i = i + 1;
    }
    proof {
        assert(fv.take(tree.scopes@.len() as int) =~= fv);
    }
    ops
}

} // verus!
