//! Rebuilding a route tree from a compiled operation sequence.
//!
//! A replay runs the operations against a stack of open scopes, exactly as an
//! external router builder would: `BeginScope` opens a frame, `Route` adds a
//! resource to the innermost open frame, `EndScope` closes it into its parent
//! (or into the roots when it is outermost). Replaying the compiler's output
//! rebuilds the compiled tree: [`lemma_compile_replay_round_trip`] proves it
//! for every forest, so the operation sequence loses no structure and no
//! order.

use vstd::prelude::*;
use crate::ast::{Resource, RouteTree, Scope, ScopeView, ResourceView};
use crate::ast::{forest_view, resources_view, scope_view, tree_view};
use crate::compiler::{Op, OpView, compile_forest_ops, compile_scope_ops, op_view, ops_view, route_ops};
use crate::token::clone_strings;

verus! {

broadcast use {
    crate::ast::forest_view_len,
    crate::ast::forest_view_index,
    crate::ast::forest_view_push,
    crate::ast::resources_view_push,
};

/// The state of a replay: the finished top-level scopes, and the stack of
/// scopes whose `EndScope` has not arrived yet, outermost first.
#[verifier::ext_equal]
pub struct ReplayState {
    pub roots: Seq<ScopeView>,
    pub stack: Seq<ScopeView>,
}

/// The state a replay starts from.
pub open spec fn init_state() -> ReplayState {
    ReplayState { roots: Seq::empty(), stack: Seq::empty() }
}

/// One replay step. `None` means the operation sequence is ill-formed at this
/// point: a `Route` or `EndScope` arrived with no scope open.
pub open spec fn replay_step(st: ReplayState, op: OpView) -> Option<ReplayState> {
    match op {
        OpView::BeginScope { path } => Some(
            ReplayState {
                roots: st.roots,
                stack: st.stack.push(
                    ScopeView { path, children: Seq::empty(), resources: Seq::empty() },
                ),
            },
        ),
        OpView::Route { method, path, handler } => if st.stack.len() == 0 {
            None
        } else {
            let top = st.stack.last();
            Some(
                ReplayState {
                    roots: st.roots,
                    stack: st.stack.update(
                        st.stack.len() - 1,
                        ScopeView {
                            path: top.path,
                            children: top.children,
                            resources: top.resources.push(
                                ResourceView { method, path, handler },
                            ),
                        },
                    ),
                },
            )
        },
        OpView::EndScope => if st.stack.len() == 0 {
            None
        } else {
            let top = st.stack.last();
            let rest = st.stack.drop_last();
            if rest.len() == 0 {
                Some(ReplayState { roots: st.roots.push(top), stack: rest })
            } else {
                let parent = rest.last();
                Some(
                    ReplayState {
                        roots: st.roots,
                        stack: rest.update(
                            rest.len() - 1,
                            ScopeView {
                                path: parent.path,
                                children: parent.children.push(top),
                                resources: parent.resources,
                            },
                        ),
                    },
                )
            }
        },
    }
}

/// The state after running a whole operation sequence, or `None` if a step
/// fails.
pub open spec fn run_ops(ops: Seq<OpView>, st: ReplayState) -> Option<ReplayState>
    decreases ops.len(),
{
    if ops.len() == 0 {
        Some(st)
    } else {
        match replay_step(st, ops[0]) {
            Option::None => None,
            Option::Some(st2) => run_ops(ops.drop_first(), st2),
        }
    }
}

/// The forest an operation sequence denotes: run every operation from the
/// empty state; every scope must have been closed at the end.
pub open spec fn replay_ops(ops: Seq<OpView>) -> Option<Seq<ScopeView>> {
    match run_ops(ops, init_state()) {
        Option::None => None,
        Option::Some(st) => if st.stack.len() == 0 {
            Some(st.roots)
        } else {
            None
        },
    }
}

/// Running a single operation is one step.
proof fn lemma_run_one(op: OpView, st: ReplayState)
    ensures
        run_ops(seq![op], st) == replay_step(st, op),
{
    assert(seq![op].len() == 1);
    assert(seq![op][0] == op);
    assert(seq![op].drop_first() =~= Seq::<OpView>::empty());
    match replay_step(st, op) {
        Option::None => {
            assert(run_ops(seq![op], st) is None);
        },
        Option::Some(st2) => {
            assert(run_ops(seq![op].drop_first(), st2) == Some(st2));
        },
    }
}

/// Running a concatenation runs the two halves in order.
proof fn lemma_run_append(ops1: Seq<OpView>, ops2: Seq<OpView>, st: ReplayState)
    ensures
        run_ops(ops1 + ops2, st) == (match run_ops(ops1, st) {
            Option::None => None,
            Option::Some(st2) => run_ops(ops2, st2),
        }),
    decreases ops1.len(),
{
    if ops1.len() == 0 {
        assert(ops1 + ops2 =~= ops2);
    } else {
        assert((ops1 + ops2)[0] == ops1[0]);
        assert((ops1 + ops2).drop_first() =~= ops1.drop_first() + ops2);
        match replay_step(st, ops1[0]) {
            Option::None => {
            },
            Option::Some(st2) => {
                lemma_run_append(ops1.drop_first(), ops2, st2);
            },
        }
    }
}

/// What a forest's operations do to a replay state: appended to the open
/// frame's children, or to the roots when no frame is open.
spec fn absorb(st: ReplayState, ss: Seq<ScopeView>) -> ReplayState {
    if st.stack.len() == 0 {
        ReplayState { roots: st.roots + ss, stack: st.stack }
    } else {
        let top = st.stack.last();
        ReplayState {
            roots: st.roots,
            stack: st.stack.update(
                st.stack.len() - 1,
                ScopeView {
                    path: top.path,
                    children: top.children + ss,
                    resources: top.resources,
                },
            ),
        }
    }
}

/// Absorbing nothing changes nothing.
proof fn lemma_absorb_empty(st: ReplayState)
    ensures
        absorb(st, Seq::empty()) == st,
{
    if st.stack.len() == 0 {
        assert(st.roots + Seq::<ScopeView>::empty() =~= st.roots);
        assert(absorb(st, Seq::empty()) =~= st);
    } else {
        let top = st.stack.last();
        assert(top.children + Seq::<ScopeView>::empty() =~= top.children);
        assert((ScopeView {
            path: top.path,
            children: top.children + Seq::<ScopeView>::empty(),
            resources: top.resources,
        }) =~= top);
        assert(st.stack.update(st.stack.len() - 1, top) =~= st.stack);
        assert(absorb(st, Seq::empty()) =~= st);
    }
}

/// Absorbing in two goes is absorbing the concatenation.
proof fn lemma_absorb_append(st: ReplayState, ss1: Seq<ScopeView>, ss2: Seq<ScopeView>)
    ensures
        absorb(absorb(st, ss1), ss2) == absorb(st, ss1 + ss2),
{
    if st.stack.len() == 0 {
        assert(st.roots + ss1 + ss2 =~= st.roots + (ss1 + ss2));
        assert(absorb(absorb(st, ss1), ss2) =~= absorb(st, ss1 + ss2));
    } else {
        let top = st.stack.last();
        assert(top.children + ss1 + ss2 =~= top.children + (ss1 + ss2));
        assert(absorb(st, ss1).stack.len() == st.stack.len());
        assert(absorb(st, ss1).stack.last() == (ScopeView {
            path: top.path,
            children: top.children + ss1,
            resources: top.resources,
        }));
        assert(absorb(absorb(st, ss1), ss2).stack =~= absorb(st, ss1 + ss2).stack);
        assert(absorb(absorb(st, ss1), ss2) =~= absorb(st, ss1 + ss2));
    }
}

/// Route operations add their resources, in order, to the open frame.
proof fn lemma_run_routes(rs: Seq<ResourceView>, st: ReplayState)
    requires
        st.stack.len() > 0,
    ensures
        run_ops(route_ops(rs), st) == Some(
            ReplayState {
                roots: st.roots,
                stack: st.stack.update(
                    st.stack.len() - 1,
                    ScopeView {
                        path: st.stack.last().path,
                        children: st.stack.last().children,
                        resources: st.stack.last().resources + rs,
                    },
                ),
            },
        ),
    decreases rs.len(),
{
    let top = st.stack.last();
    if rs.len() == 0 {
        assert(route_ops(rs) =~= Seq::<OpView>::empty());
        assert(top.resources + rs =~= top.resources);
        assert((ScopeView {
            path: top.path,
            children: top.children,
            resources: top.resources + rs,
        }) =~= top);
        assert(st.stack.update(st.stack.len() - 1, top) =~= st.stack);
    } else {
        let r0 = rs[0];
        let op0 = (OpView::Route { method: r0.method, path: r0.path, handler: r0.handler });
        assert(route_ops(rs)[0] == op0);
        assert(route_ops(rs).drop_first() =~= route_ops(rs.drop_first()));
        let st1 = ReplayState {
            roots: st.roots,
            stack: st.stack.update(
                st.stack.len() - 1,
                ScopeView {
                    path: top.path,
                    children: top.children,
                    resources: top.resources.push(r0),
                },
            ),
        };
        assert((ResourceView { method: r0.method, path: r0.path, handler: r0.handler }) =~= r0);
        assert(replay_step(st, op0) == Some(st1));
        lemma_run_routes(rs.drop_first(), st1);
        assert(st1.stack.last().resources + rs.drop_first() =~= top.resources + rs);
        assert(st1.stack.update(st1.stack.len() - 1, (ScopeView {
            path: top.path,
            children: top.children,
            resources: st1.stack.last().resources + rs.drop_first(),
        })) =~= st.stack.update(st.stack.len() - 1, (ScopeView {
            path: top.path,
            children: top.children,
            resources: top.resources + rs,
        })));
    }
}

/// Replaying one compiled scope adds exactly that scope to the state.
proof fn lemma_run_scope(s: ScopeView, st: ReplayState)
    ensures
        run_ops(compile_scope_ops(s), st) == Some(absorb(st, seq![s])),
    decreases s, 1int,
{
    let begin = (OpView::BeginScope { path: s.path });
    let fresh = (ScopeView { path: s.path, children: Seq::empty(), resources: Seq::empty() });
    let a = seq![begin];
    let f = compile_forest_ops(s.children);
    let r = route_ops(s.resources);
    let e = seq![OpView::EndScope];

    // run the Begin
    let st_open = ReplayState { roots: st.roots, stack: st.stack.push(fresh) };
    lemma_run_one(begin, st);
    assert(replay_step(st, begin) == Some(st_open));

    // run the children
    lemma_run_forest(s.children, st_open);
    let st_kids = absorb(st_open, s.children);
    assert(st_kids.stack.len() == st.stack.len() + 1);
    assert(st_kids.stack.last() == (ScopeView {
        path: s.path,
        children: Seq::empty() + s.children,
        resources: Seq::empty(),
    }));

    // run the routes
    lemma_run_routes(s.resources, st_kids);
    let filled = (ScopeView {
        path: s.path,
        children: Seq::empty() + s.children,
        resources: Seq::<ResourceView>::empty() + s.resources,
    });
    let st_full = ReplayState {
        roots: st_kids.roots,
        stack: st_kids.stack.update(st_kids.stack.len() - 1, filled),
    };
    assert(Seq::empty() + s.children =~= s.children);
    assert(Seq::<ResourceView>::empty() + s.resources =~= s.resources);
    assert(filled =~= s);

    // run the End
    lemma_run_one(OpView::EndScope, st_full);
    assert(st_full.stack.last() == filled);
    assert(st_full.stack.drop_last() =~= st.stack);
    let st_done = absorb(st, seq![s]);
    assert(replay_step(st_full, OpView::EndScope) == Some(st_done)) by {
        if st.stack.len() == 0 {
            assert(st.roots.push(filled) =~= st.roots + seq![s]);
        } else {
            let parent = st.stack.last();
            assert(st_full.stack.drop_last().last() == parent);
            assert(parent.children.push(filled) =~= parent.children + seq![s]);
            assert(st_full.stack.drop_last().update(st.stack.len() - 1, (ScopeView {
                path: parent.path,
                children: parent.children.push(filled),
                resources: parent.resources,
            })) =~= st_done.stack);
        }
    }

    // chain the four parts
    lemma_run_append(a, f, st);
    lemma_run_append(a + f, r, st);
    lemma_run_append(a + f + r, e, st);
    assert((a + f).drop_first() =~= f);
    assert((a + f)[0] == begin);
    assert(run_ops(a + f, st) == run_ops(f, st_open));
    assert(run_ops(a + f + r, st) == Some(st_full));
    assert(compile_scope_ops(s) == a + f + r + e);
    assert(run_ops(compile_scope_ops(s), st) == Some(st_done));
}

/// Replaying a compiled forest absorbs exactly those scopes, in order.
proof fn lemma_run_forest(ss: Seq<ScopeView>, st: ReplayState)
    ensures
        run_ops(compile_forest_ops(ss), st) == Some(absorb(st, ss)),
    decreases ss, 0int,
{
    if ss.len() == 0 {
        lemma_absorb_empty(st);
    } else {
        lemma_run_append(compile_scope_ops(ss[0]), compile_forest_ops(ss.drop_first()), st);
        lemma_run_scope(ss[0], st);
        lemma_run_forest(ss.drop_first(), absorb(st, seq![ss[0]]));
        lemma_absorb_append(st, seq![ss[0]], ss.drop_first());
        assert(seq![ss[0]] + ss.drop_first() =~= ss);
    }
}

/// Law: compiling any route forest and replaying the resulting operation
/// sequence yields the same forest back — the compiled output preserves every
/// scope, every resource, their nesting and their order.
pub proof fn lemma_compile_replay_round_trip(ss: Seq<ScopeView>)
    ensures
        replay_ops(compile_forest_ops(ss)) == Some(ss),
{
    lemma_run_forest(ss, init_state());
    assert(Seq::<ScopeView>::empty() + ss =~= ss);
}

/// Law, at the tree level: compiling a route tree and replaying the
/// operations rebuilds a tree with the same structure.
pub proof fn lemma_tree_round_trip(t: RouteTree)
    ensures
        replay_ops(compile_forest_ops(tree_view(t))) == Some(tree_view(t)),
{
    lemma_compile_replay_round_trip(tree_view(t));
}

/// Rebuilds a route tree from an operation sequence, or reports `None` when
/// the sequence is ill-formed: a `Route` or `EndScope` with no scope open, or
/// a scope left open at the end. The result is exactly what [`replay_ops`]
/// defines on the operations' views.
pub fn replay(ops: &Vec<Op>) -> (r: Option<RouteTree>)
    ensures
        match r {
            Option::Some(t) => replay_ops(ops_view(ops@)) == Some(tree_view(t)),
            Option::None => replay_ops(ops_view(ops@)) is None,
        },
{
    let ghost ov = ops_view(ops@);
    let mut roots: Vec<Scope> = Vec::new();
    let mut stack: Vec<Scope> = Vec::new();
    let mut i: usize = 0;
    proof {
        assert(ov.skip(0) =~= ov);
        assert(forest_view(roots@) =~= Seq::<ScopeView>::empty());
        assert(forest_view(stack@) =~= Seq::<ScopeView>::empty());
    }
    while i < ops.len()
        invariant
            i <= ops.len(),
            ov == ops_view(ops@),
            run_ops(ov, init_state()) == run_ops(
                ov.skip(i as int),
                (ReplayState { roots: forest_view(roots@), stack: forest_view(stack@) }),
            ),
        decreases ops.len() - i,
    {
        let ghost st = (ReplayState { roots: forest_view(roots@), stack: forest_view(stack@) });
        proof {
            assert(ov.skip(i as int)[0] == op_view(ops@[i as int]));
            assert(ov.skip(i as int).drop_first() =~= ov.skip(i + 1 as int));
        }
        match &ops[i] {
            Op::BeginScope { path } => {
                let fresh = Scope { path: path.clone(), children: Vec::new(), resources: Vec::new() };
                let ghost freshv = scope_view(fresh);
                proof {
                    assert(forest_view(Seq::<Scope>::empty()) =~= Seq::<ScopeView>::empty());
                    assert(resources_view(Seq::<Resource>::empty()) =~= Seq::<ResourceView>::empty());
                    assert(freshv =~= (ScopeView {
                        path: path@,
                        children: Seq::empty(),
                        resources: Seq::empty(),
                    }));
                }
                stack.push(fresh);
                proof {
                    assert(forest_view(stack@) == st.stack.push(freshv));
                }
            },
            Op::Route { method, path, handler } => {
                if stack.len() == 0 {
                    proof {
                        assert(replay_step(st, ov.skip(i as int)[0]) is None);
                        assert(run_ops(ov, init_state()) is None);
                    }
                    return None;
                }
                let mut top = match stack.pop() {
                    Option::Some(s) => s,
                    Option::None => {
                        proof {
                            assert(false);
                        }
                        return None;
                    },
                };
                let ghost top0 = scope_view(top);
                let ghost stack0 = stack@;
                top.resources.push(
                    Resource {
                        method: method.clone(),
                        path: path.clone(),
                        handler: clone_strings(handler),
                    },
                );
                stack.push(top);
                proof {
                    assert(st.stack.last() == top0);
                    let top2 = scope_view(stack@[stack@.len() - 1]);
                    assert(top2 == (ScopeView {
                        path: top0.path,
                        children: top0.children,
                        resources: top0.resources.push(
                            (ResourceView {
                                method: method@,
                                path: path@,
                                handler: crate::token::strings_view(handler@),
                            }),
                        ),
                    }));
                    assert(forest_view(stack@) =~= st.stack.update(st.stack.len() - 1, top2));
                }
            },
            Op::EndScope => {
                if stack.len() == 0 {
                    proof {
                        assert(replay_step(st, ov.skip(i as int)[0]) is None);
                        assert(run_ops(ov, init_state()) is None);
                    }
                    return None;
                }
                let top = match stack.pop() {
                    Option::Some(s) => s,
                    Option::None => {
                        proof {
                            assert(false);
                        }
                        return None;
                    },
                };
                let ghost topv = scope_view(top);
                proof {
                    assert(st.stack.last() == topv);
                    assert(forest_view(stack@) =~= st.stack.drop_last());
                }
                if stack.len() == 0 {
                    roots.push(top);
                    proof {
                        assert(forest_view(roots@) == st.roots.push(topv));
                    }
                } else {
                    let mut parent = match stack.pop() {
                        Option::Some(s) => s,
                        Option::None => {
                            proof {
                                assert(false);
                            }
                            return None;
                        },
                    };
                    let ghost parent0 = scope_view(parent);
                    let ghost rest = st.stack.drop_last();
                    proof {
                        assert(rest.last() == parent0);
                        assert(forest_view(stack@) =~= rest.drop_last());
                    }
                    let ghost kids0 = parent.children@;
                    parent.children.push(top);
                    let ghost parent2 = scope_view(parent);
                    proof {
                        assert(parent.children@ == kids0.push(parent.children@.last()));
                        crate::ast::forest_view_push(kids0, parent.children@.last());
                        assert(scope_view(parent.children@.last()) == topv);
                        assert(parent2 == (ScopeView {
                            path: parent0.path,
                            children: parent0.children.push(topv),
                            resources: parent0.resources,
                        }));
                    }
                    stack.push(parent);
                    proof {
                        assert(forest_view(stack@) == rest.drop_last().push(parent2));
                        assert(rest.drop_last().push(parent2) =~= rest.update(rest.len() - 1, parent2));
                    }
                }
            },
        }
        i = i + 1;
    }
    proof {
        assert(ov.skip(ops@.len() as int) =~= Seq::<OpView>::empty());
    }
    if stack.len() == 0 {
        proof {
            assert(forest_view(stack@).len() == 0);
        }
        Some(RouteTree { scopes: roots })
    } else {
        proof {
            assert(forest_view(stack@).len() > 0);
        }
        None
    }
}

} // verus!
