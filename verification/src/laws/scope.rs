//! Inference leaves the names in scope as it found them.

use vstd::prelude::*;
use crate::env::{Id, Level};
use crate::infer::{
    declare, genarrow_at, generalize_spec, infer_args, infer_at, lemma_declare_keeps, put_back,
    restore, unify_spec, Scope, State,
};
use crate::laws::growth::{lemma_genarrow_grows, lemma_submap_trans, lemma_unify_grows};
use crate::types::{TermView, TypeView, MAX_DEPTH};

verus! {

/// Putting back the parameters that were declared gives the scope as it
/// was before they were declared.
proof fn lemma_restore_declared(
    scope: Scope,
    params: Seq<Seq<char>>,
    first_id: Id,
    level: Level,
    n: nat,
)
    requires
        n <= params.len(),
        params.no_duplicates(),
    ensures
        restore(declare(scope, params, first_id, level, n), params, scope, n) == scope,
    decreases n,
{
    if n > 0 {
        let p = params[n - 1];
        let before = declare(scope, params, first_id, level, (n - 1) as nat);
        lemma_declare_keeps(scope, params, first_id, level, (n - 1) as nat, p);
        assert(put_back(declare(scope, params, first_id, level, n), p, scope) =~= before);
        lemma_restore_declared(scope, params, first_id, level, (n - 1) as nat);
    }
}

/// A term that has a type leaves the names in scope as they were, however
/// many of them its parts have shadowed on the way; and it only adds
/// resolutions.
pub proof fn lemma_infer_restores(term: TermView, level: Level, st: State, depth: nat)
    ensures
        match infer_at(term, level, st, depth) {
            Ok((_, after)) => after.scope == st.scope && st.bindings.submap_of(after.bindings),
            Err(_) => true,
        },
    decreases depth, 0nat,
{
    if depth > 0 {
        let d = (depth - 1) as nat;
        match term {
            TermView::Var(name) => {},
            TermView::Let(name, bound, body) => {
                lemma_infer_restores(*bound, (level + 1) as Level, st, d);
                match infer_at(*bound, (level + 1) as Level, st, d) {
                    Ok((tb, s1)) => {
                        let scheme = generalize_spec(tb, level, s1.bindings);
                        let inner = State {
                            scope: s1.scope.insert(name, scheme),
                            bindings: s1.bindings,
                            next_id: s1.next_id,
                        };
                        lemma_infer_restores(*body, level, inner, d);
                        match infer_at(*body, level, inner, d) {
                            Ok((_, s2)) => {
                                assert(put_back(s2.scope, name, s1.scope) =~= s1.scope);
                                lemma_submap_trans(st.bindings, s1.bindings, s2.bindings);
                            },
                            Err(_) => {},
                        }
                    },
                    Err(_) => {},
                }
            },
            TermView::Abs(params, body) => {
                if params.no_duplicates() && st.next_id + params.len() <= usize::MAX {
                    let inner = State {
                        scope: declare(st.scope, params, st.next_id, level, params.len()),
                        bindings: st.bindings,
                        next_id: (st.next_id + params.len()) as Id,
                    };
                    lemma_infer_restores(*body, level, inner, d);
                    lemma_restore_declared(st.scope, params, st.next_id, level, params.len());
                }
            },
            TermView::App(f, args) => {
                lemma_infer_restores(*f, level, st, d);
                match infer_at(*f, level, st, d) {
                    Ok((tf, s1)) => {
                        lemma_genarrow_grows(tf, args.len(), s1.bindings, s1.next_id, d);
                        match genarrow_at(tf, args.len(), s1.bindings, s1.next_id, d) {
                            Ok(shape) => {
                                let start = State {
                                    scope: s1.scope,
                                    bindings: shape.bindings,
                                    next_id: shape.next_id,
                                };
                                lemma_infer_args_restores(
                                    args,
                                    shape.params,
                                    level,
                                    start,
                                    d,
                                    args.len(),
                                );
                                match infer_args(args, shape.params, level, start, d, args.len()) {
                                    Ok(s2) => {
                                        lemma_submap_trans(
                                            st.bindings,
                                            s1.bindings,
                                            shape.bindings,
                                        );
                                        lemma_submap_trans(
                                            st.bindings,
                                            shape.bindings,
                                            s2.bindings,
                                        );
                                    },
                                    Err(_) => {},
                                }
                            },
                            Err(_) => {},
                        }
                    },
                    Err(_) => {},
                }
            },
        }
    }
}

/// As `lemma_infer_restores`, for the arguments of an application.
pub proof fn lemma_infer_args_restores(
    args: Seq<TermView>,
    params: Seq<TypeView>,
    level: Level,
    st: State,
    depth: nat,
    n: nat,
)
    ensures
        match infer_args(args, params, level, st, depth, n) {
            Ok(after) => after.scope == st.scope && st.bindings.submap_of(after.bindings),
            Err(_) => true,
        },
    decreases depth, n + 1,
{
    if n > 0 {
        lemma_infer_args_restores(args, params, level, st, depth, (n - 1) as nat);
        match infer_args(args, params, level, st, depth, (n - 1) as nat) {
            Ok(s) => {
                lemma_infer_restores(args[n - 1], level, s, depth);
                match infer_at(args[n - 1], level, s, depth) {
                    Ok((t, s1)) => {
                        lemma_unify_grows(params[n - 1], t, s1.bindings, MAX_DEPTH as nat);
                        let u = unify_spec(params[n - 1], t, s1.bindings);
                        lemma_submap_trans(st.bindings, s.bindings, s1.bindings);
                        lemma_submap_trans(st.bindings, s1.bindings, u.bindings);
                    },
                    Err(_) => {},
                }
            },
            Err(_) => {},
        }
    }
}

} // verus!
