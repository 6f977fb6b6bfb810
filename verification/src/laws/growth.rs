//! Unification only adds resolutions, and never raises a level.

use vstd::prelude::*;
use crate::env::{Id, Level};
use crate::infer::{
    genarrow_at, lower_all, lower_at, resolve, unify_all, unify_at, unify_var, Bindings,
};
use crate::types::{generic_free, TypeView};

verus! {

/// What holds as much as something that holds as much holds as much.
pub proof fn lemma_submap_trans(a: Bindings, b: Bindings, c: Bindings)
    requires
        a.submap_of(b),
        b.submap_of(c),
    ensures
        a.submap_of(c),
{
    assert forall|k: (Id, Level)| #[trigger] a.dom().contains(k) implies c.dom().contains(k) && a[k]
        == c[k] by {
        assert(b.dom().contains(k));
    }
}

/// Lowering levels only adds resolutions: every variable that was resolved
/// before is resolved to the same type after.
pub proof fn lemma_lower_grows(id: Id, level: Level, t: TypeView, m: Bindings, depth: nat)
    ensures
        m.submap_of(lower_at(id, level, t, m, depth).bindings),
    decreases depth, 0nat,
{
    if depth > 0 {
        let d = (depth - 1) as nat;
        match t {
            TypeView::TypeVar(other, made_at) => {
                if other != id {
                    match resolve(m, other, made_at) {
                        Some(binding) => {
                            lemma_lower_grows(id, level, binding, m, d);
                        },
                        None => {
                            assert(!m.contains_key((other, made_at)));
                            if made_at > level {
                                let lowered = m.insert(
                                    (other, made_at),
                                    TypeView::TypeVar(other, level),
                                );
                                assert(m.submap_of(lowered));
                                match resolve(m, other, level) {
                                    Some(onto) => {
                                        lemma_lower_grows(other, level, onto, lowered, d);
                                        let own = lower_at(other, level, onto, lowered, d);
                                        lemma_submap_trans(m, lowered, own.bindings);
                                        if own.result is Ok {
                                            lemma_lower_grows(id, level, onto, own.bindings, d);
                                            lemma_submap_trans(
                                                m,
                                                own.bindings,
                                                lower_at(id, level, onto, own.bindings, d).bindings,
                                            );
                                        }
                                    },
                                    None => {},
                                }
                            }
                        },
                    }
                }
            },
            TypeView::Const(_) => {},
            TypeView::Generic(_) => {},
            TypeView::App(head, params) => {
                lemma_lower_grows(id, level, *head, m, d);
                let h = lower_at(id, level, *head, m, d);
                if h.result is Ok {
                    lemma_lower_all_grows(id, level, params, h.bindings, d);
                    lemma_submap_trans(
                        m,
                        h.bindings,
                        lower_all(id, level, params, h.bindings, d).bindings,
                    );
                }
            },
            TypeView::Arrow(params, ret) => {
                lemma_lower_all_grows(id, level, params, m, d);
                let ps = lower_all(id, level, params, m, d);
                if ps.result is Ok {
                    lemma_lower_grows(id, level, *ret, ps.bindings, d);
                    lemma_submap_trans(
                        m,
                        ps.bindings,
                        lower_at(id, level, *ret, ps.bindings, d).bindings,
                    );
                }
            },
        }
    }
}

/// As `lemma_lower_grows`, for a list of types.
pub proof fn lemma_lower_all_grows(
    id: Id,
    level: Level,
    ts: Seq<TypeView>,
    m: Bindings,
    depth: nat,
)
    ensures
        m.submap_of(lower_all(id, level, ts, m, depth).bindings),
    decreases depth, ts.len() + 1,
{
    if ts.len() > 0 {
        lemma_lower_all_grows(id, level, ts.drop_last(), m, depth);
        let before = lower_all(id, level, ts.drop_last(), m, depth);
        if before.result is Ok {
            lemma_lower_grows(id, level, ts.last(), before.bindings, depth);
            lemma_submap_trans(
                m,
                before.bindings,
                lower_at(id, level, ts.last(), before.bindings, depth).bindings,
            );
        }
    }
}

/// Unification only adds resolutions: a variable is resolved at most once,
/// and every variable that was resolved before is resolved to the same
/// type after, whether the unification went through or not.
pub proof fn lemma_unify_grows(t1: TypeView, t2: TypeView, m: Bindings, depth: nat)
    ensures
        m.submap_of(unify_at(t1, t2, m, depth).bindings),
    decreases depth, 1nat,
{
    if depth > 0 && t1 != t2 {
        let d = (depth - 1) as nat;
        match (t1, t2) {
            (TypeView::App(h1, ps1), TypeView::App(h2, ps2)) => {
                if ps1.len() == ps2.len() {
                    lemma_unify_grows(*h1, *h2, m, d);
                    let h = unify_at(*h1, *h2, m, d);
                    if h.result is Ok {
                        lemma_unify_all_grows(ps1, ps2, h.bindings, d);
                        lemma_submap_trans(
                            m,
                            h.bindings,
                            unify_all(ps1, ps2, h.bindings, d).bindings,
                        );
                    }
                }
            },
            (TypeView::Arrow(ps1, r1), TypeView::Arrow(ps2, r2)) => {
                if ps1.len() == ps2.len() {
                    lemma_unify_all_grows(ps1, ps2, m, d);
                    let ps = unify_all(ps1, ps2, m, d);
                    if ps.result is Ok {
                        lemma_unify_grows(*r1, *r2, ps.bindings, d);
                        lemma_submap_trans(
                            m,
                            ps.bindings,
                            unify_at(*r1, *r2, ps.bindings, d).bindings,
                        );
                    }
                }
            },
            (TypeView::TypeVar(id1, l1), TypeView::TypeVar(id2, l2)) => {
                lemma_unify_var_grows(id1, l1, t2, m, depth);
                lemma_unify_var_grows(id2, l2, t1, m, depth);
            },
            (TypeView::TypeVar(id, level), _) => {
                lemma_unify_var_grows(id, level, t2, m, depth);
            },
            (_, TypeView::TypeVar(id, level)) => {
                lemma_unify_var_grows(id, level, t1, m, depth);
            },
            _ => {},
        }
    }
}

/// As `lemma_unify_grows`, for a variable against a type.
pub proof fn lemma_unify_var_grows(id: Id, level: Level, other: TypeView, m: Bindings, depth: nat)
    ensures
        m.submap_of(unify_var(id, level, other, m, depth).bindings),
    decreases depth, 0nat,
{
    if depth > 0 {
        let d = (depth - 1) as nat;
        match resolve(m, id, level) {
            Some(binding) => {
                lemma_unify_grows(binding, other, m, d);
            },
            None => {
                let m1 = m.insert((id, level), other);
                assert(!m.contains_key((id, level)));
                assert(m.submap_of(m1));
                lemma_lower_grows(id, level, other, m1, d);
                lemma_submap_trans(m, m1, lower_at(id, level, other, m1, d).bindings);
            },
        }
    }
}

/// As `lemma_unify_grows`, for two lists of types.
pub proof fn lemma_unify_all_grows(
    ps1: Seq<TypeView>,
    ps2: Seq<TypeView>,
    m: Bindings,
    depth: nat,
)
    ensures
        m.submap_of(unify_all(ps1, ps2, m, depth).bindings),
    decreases depth, ps1.len() + 2,
{
    if ps1.len() > 0 {
        lemma_unify_all_grows(ps1.drop_last(), ps2.drop_last(), m, depth);
        let before = unify_all(ps1.drop_last(), ps2.drop_last(), m, depth);
        if before.result is Ok {
            lemma_unify_grows(ps1.last(), ps2.last(), before.bindings, depth);
            lemma_submap_trans(
                m,
                before.bindings,
                unify_at(ps1.last(), ps2.last(), before.bindings, depth).bindings,
            );
        }
    }
}

/// Whether every variable that `after` resolves and `before` does not, and
/// that `after` resolves to a variable of its own id, is resolved to one
/// at a lower level than its own.
pub open spec fn only_lowers(before: Bindings, after: Bindings) -> bool {
    forall|k: (Id, Level)|
        #![trigger after.contains_key(k)]
        after.contains_key(k) && !before.contains_key(k) ==> match after[k] {
            TypeView::TypeVar(id, level) => id == k.0 ==> level < k.1,
            _ => true,
        }
}

/// What only lowers levels step by step only lowers them in all.
proof fn lemma_only_lowers_trans(a: Bindings, b: Bindings, c: Bindings)
    requires
        a.submap_of(b),
        b.submap_of(c),
        only_lowers(a, b),
        only_lowers(b, c),
    ensures
        only_lowers(a, c),
{
    assert forall|k: (Id, Level)|
        #![trigger c.contains_key(k)]
        c.contains_key(k) && !a.contains_key(k) implies match c[k] {
        TypeView::TypeVar(id, level) => id == k.0 ==> level < k.1,
        _ => true,
    } by {
        if b.contains_key(k) {
            assert(b.dom().contains(k));
            assert(b[k] == c[k]);
        }
    }
}

/// Lowering levels never raises one: a variable that it resolves to a
/// variable of its own id is resolved to one at a lower level.
pub proof fn lemma_lower_lowers(id: Id, level: Level, t: TypeView, m: Bindings, depth: nat)
    ensures
        only_lowers(m, lower_at(id, level, t, m, depth).bindings),
    decreases depth, 0nat,
{
    if depth > 0 {
        let d = (depth - 1) as nat;
        match t {
            TypeView::TypeVar(other, made_at) => {
                if other != id {
                    match resolve(m, other, made_at) {
                        Some(binding) => {
                            lemma_lower_lowers(id, level, binding, m, d);
                        },
                        None => {
                            assert(!m.contains_key((other, made_at)));
                            if made_at > level {
                                let lowered = m.insert(
                                    (other, made_at),
                                    TypeView::TypeVar(other, level),
                                );
                                assert(m.submap_of(lowered));
                                assert(only_lowers(m, lowered));
                                match resolve(m, other, level) {
                                    Some(onto) => {
                                        lemma_lower_grows(other, level, onto, lowered, d);
                                        lemma_lower_lowers(other, level, onto, lowered, d);
                                        let own = lower_at(other, level, onto, lowered, d);
                                        lemma_submap_trans(m, lowered, own.bindings);
                                        lemma_only_lowers_trans(m, lowered, own.bindings);
                                        if own.result is Ok {
                                            lemma_lower_grows(id, level, onto, own.bindings, d);
                                            lemma_lower_lowers(id, level, onto, own.bindings, d);
                                            lemma_only_lowers_trans(
                                                m,
                                                own.bindings,
                                                lower_at(id, level, onto, own.bindings, d).bindings,
                                            );
                                        }
                                    },
                                    None => {},
                                }
                            }
                        },
                    }
                }
            },
            TypeView::Const(_) => {},
            TypeView::Generic(_) => {},
            TypeView::App(head, params) => {
                lemma_lower_lowers(id, level, *head, m, d);
                lemma_lower_grows(id, level, *head, m, d);
                let h = lower_at(id, level, *head, m, d);
                if h.result is Ok {
                    lemma_lower_all_lowers(id, level, params, h.bindings, d);
                    lemma_lower_all_grows(id, level, params, h.bindings, d);
                    lemma_only_lowers_trans(
                        m,
                        h.bindings,
                        lower_all(id, level, params, h.bindings, d).bindings,
                    );
                }
            },
            TypeView::Arrow(params, ret) => {
                lemma_lower_all_lowers(id, level, params, m, d);
                lemma_lower_all_grows(id, level, params, m, d);
                let ps = lower_all(id, level, params, m, d);
                if ps.result is Ok {
                    lemma_lower_lowers(id, level, *ret, ps.bindings, d);
                    lemma_lower_grows(id, level, *ret, ps.bindings, d);
                    lemma_only_lowers_trans(
                        m,
                        ps.bindings,
                        lower_at(id, level, *ret, ps.bindings, d).bindings,
                    );
                }
            },
        }
    }
}

/// As `lemma_lower_lowers`, for a list of types.
pub proof fn lemma_lower_all_lowers(
    id: Id,
    level: Level,
    ts: Seq<TypeView>,
    m: Bindings,
    depth: nat,
)
    ensures
        only_lowers(m, lower_all(id, level, ts, m, depth).bindings),
    decreases depth, ts.len() + 1,
{
    if ts.len() > 0 {
        lemma_lower_all_lowers(id, level, ts.drop_last(), m, depth);
        lemma_lower_all_grows(id, level, ts.drop_last(), m, depth);
        let before = lower_all(id, level, ts.drop_last(), m, depth);
        if before.result is Ok {
            lemma_lower_lowers(id, level, ts.last(), before.bindings, depth);
            lemma_lower_grows(id, level, ts.last(), before.bindings, depth);
            lemma_only_lowers_trans(
                m,
                before.bindings,
                lower_at(id, level, ts.last(), before.bindings, depth).bindings,
            );
        }
    }
}

/// Unification never raises a level: a variable that it resolves to a
/// variable of its own id is resolved to one at a lower level.
pub proof fn lemma_unify_lowers(t1: TypeView, t2: TypeView, m: Bindings, depth: nat)
    ensures
        only_lowers(m, unify_at(t1, t2, m, depth).bindings),
    decreases depth, 1nat,
{
    if depth > 0 && t1 != t2 {
        let d = (depth - 1) as nat;
        match (t1, t2) {
            (TypeView::App(h1, ps1), TypeView::App(h2, ps2)) => {
                if ps1.len() == ps2.len() {
                    lemma_unify_lowers(*h1, *h2, m, d);
                    lemma_unify_grows(*h1, *h2, m, d);
                    let h = unify_at(*h1, *h2, m, d);
                    if h.result is Ok {
                        lemma_unify_all_lowers(ps1, ps2, h.bindings, d);
                        lemma_unify_all_grows(ps1, ps2, h.bindings, d);
                        lemma_only_lowers_trans(
                            m,
                            h.bindings,
                            unify_all(ps1, ps2, h.bindings, d).bindings,
                        );
                    }
                }
            },
            (TypeView::Arrow(ps1, r1), TypeView::Arrow(ps2, r2)) => {
                if ps1.len() == ps2.len() {
                    lemma_unify_all_lowers(ps1, ps2, m, d);
                    lemma_unify_all_grows(ps1, ps2, m, d);
                    let ps = unify_all(ps1, ps2, m, d);
                    if ps.result is Ok {
                        lemma_unify_lowers(*r1, *r2, ps.bindings, d);
                        lemma_unify_grows(*r1, *r2, ps.bindings, d);
                        lemma_only_lowers_trans(
                            m,
                            ps.bindings,
                            unify_at(*r1, *r2, ps.bindings, d).bindings,
                        );
                    }
                }
            },
            (TypeView::TypeVar(id1, l1), TypeView::TypeVar(id2, l2)) => {
                if resolve(m, id1, l1) is Some {
                    lemma_unify_var_lowers(id1, l1, t2, m, depth);
                } else if resolve(m, id2, l2) is Some {
                    lemma_unify_var_lowers(id2, l2, t1, m, depth);
                } else if id1 != id2 {
                    lemma_unify_var_lowers(id1, l1, t2, m, depth);
                }
            },
            (TypeView::TypeVar(id, level), _) => {
                lemma_unify_var_lowers(id, level, t2, m, depth);
            },
            (_, TypeView::TypeVar(id, level)) => {
                lemma_unify_var_lowers(id, level, t1, m, depth);
            },
            _ => {},
        }
    }
}

/// As `lemma_unify_lowers`, for a variable against a type that is no
/// variable of the same id, or against any type where the variable is
/// resolved.
pub proof fn lemma_unify_var_lowers(id: Id, level: Level, other: TypeView, m: Bindings, depth: nat)
    requires
        resolve(m, id, level) is Some || match other {
            TypeView::TypeVar(i, _) => i != id,
            _ => true,
        },
    ensures
        only_lowers(m, unify_var(id, level, other, m, depth).bindings),
    decreases depth, 0nat,
{
    if depth > 0 {
        let d = (depth - 1) as nat;
        match resolve(m, id, level) {
            Some(binding) => {
                lemma_unify_lowers(binding, other, m, d);
            },
            None => {
                let m1 = m.insert((id, level), other);
                assert(!m.contains_key((id, level)));
                assert(m.submap_of(m1));
                assert(only_lowers(m, m1));
                lemma_lower_lowers(id, level, other, m1, d);
                lemma_lower_grows(id, level, other, m1, d);
                lemma_only_lowers_trans(m, m1, lower_at(id, level, other, m1, d).bindings);
            },
        }
    }
}

/// As `lemma_unify_lowers`, for two lists of types.
pub proof fn lemma_unify_all_lowers(
    ps1: Seq<TypeView>,
    ps2: Seq<TypeView>,
    m: Bindings,
    depth: nat,
)
    ensures
        only_lowers(m, unify_all(ps1, ps2, m, depth).bindings),
    decreases depth, ps1.len() + 2,
{
    if ps1.len() > 0 {
        lemma_unify_all_lowers(ps1.drop_last(), ps2.drop_last(), m, depth);
        lemma_unify_all_grows(ps1.drop_last(), ps2.drop_last(), m, depth);
        let before = unify_all(ps1.drop_last(), ps2.drop_last(), m, depth);
        if before.result is Ok {
            lemma_unify_lowers(ps1.last(), ps2.last(), before.bindings, depth);
            lemma_unify_grows(ps1.last(), ps2.last(), before.bindings, depth);
            lemma_only_lowers_trans(
                m,
                before.bindings,
                unify_at(ps1.last(), ps2.last(), before.bindings, depth).bindings,
            );
        }
    }
}

/// Whether every variable that `after` resolves and `before` does not is
/// resolved to a type that holds no generic placeholder.
pub open spec fn adds_no_generic(before: Bindings, after: Bindings) -> bool {
    forall|k: (Id, Level)|
        #![trigger after.contains_key(k)]
        after.contains_key(k) && !before.contains_key(k) ==> generic_free(after[k])
}

/// What adds no generic placeholder step by step adds none in all.
proof fn lemma_adds_no_generic_trans(a: Bindings, b: Bindings, c: Bindings)
    requires
        a.submap_of(b),
        b.submap_of(c),
        adds_no_generic(a, b),
        adds_no_generic(b, c),
    ensures
        adds_no_generic(a, c),
{
    assert forall|k: (Id, Level)|
        #![trigger c.contains_key(k)]
        c.contains_key(k) && !a.contains_key(k) implies generic_free(c[k]) by {
        if b.contains_key(k) {
            assert(b.dom().contains(k));
            assert(b[k] == c[k]);
        }
    }
}

/// Lowering levels resolves no variable to a type that holds a generic
/// placeholder.
pub proof fn lemma_lower_adds_no_generic(id: Id, level: Level, t: TypeView, m: Bindings, depth: nat)
    ensures
        adds_no_generic(m, lower_at(id, level, t, m, depth).bindings),
    decreases depth, 0nat,
{
    if depth > 0 {
        let d = (depth - 1) as nat;
        match t {
            TypeView::TypeVar(other, made_at) => {
                if other != id {
                    match resolve(m, other, made_at) {
                        Some(binding) => {
                            lemma_lower_adds_no_generic(id, level, binding, m, d);
                        },
                        None => {
                            assert(!m.contains_key((other, made_at)));
                            if made_at > level {
                                let lowered = m.insert(
                                    (other, made_at),
                                    TypeView::TypeVar(other, level),
                                );
                                assert(m.submap_of(lowered));
                                assert(adds_no_generic(m, lowered));
                                match resolve(m, other, level) {
                                    Some(onto) => {
                                        lemma_lower_grows(other, level, onto, lowered, d);
                                        lemma_lower_adds_no_generic(other, level, onto, lowered, d);
                                        let own = lower_at(other, level, onto, lowered, d);
                                        lemma_submap_trans(m, lowered, own.bindings);
                                        lemma_adds_no_generic_trans(m, lowered, own.bindings);
                                        if own.result is Ok {
                                            lemma_lower_grows(id, level, onto, own.bindings, d);
                                            lemma_lower_adds_no_generic(
                                                id,
                                                level,
                                                onto,
                                                own.bindings,
                                                d,
                                            );
                                            lemma_adds_no_generic_trans(
                                                m,
                                                own.bindings,
                                                lower_at(id, level, onto, own.bindings, d).bindings,
                                            );
                                        }
                                    },
                                    None => {},
                                }
                            }
                        },
                    }
                }
            },
            TypeView::Const(_) => {},
            TypeView::Generic(_) => {},
            TypeView::App(head, params) => {
                lemma_lower_adds_no_generic(id, level, *head, m, d);
                lemma_lower_grows(id, level, *head, m, d);
                let h = lower_at(id, level, *head, m, d);
                if h.result is Ok {
                    lemma_lower_all_adds_no_generic(id, level, params, h.bindings, d);
                    lemma_lower_all_grows(id, level, params, h.bindings, d);
                    lemma_adds_no_generic_trans(
                        m,
                        h.bindings,
                        lower_all(id, level, params, h.bindings, d).bindings,
                    );
                }
            },
            TypeView::Arrow(params, ret) => {
                lemma_lower_all_adds_no_generic(id, level, params, m, d);
                lemma_lower_all_grows(id, level, params, m, d);
                let ps = lower_all(id, level, params, m, d);
                if ps.result is Ok {
                    lemma_lower_adds_no_generic(id, level, *ret, ps.bindings, d);
                    lemma_lower_grows(id, level, *ret, ps.bindings, d);
                    lemma_adds_no_generic_trans(
                        m,
                        ps.bindings,
                        lower_at(id, level, *ret, ps.bindings, d).bindings,
                    );
                }
            },
        }
    }
}

/// As `lemma_lower_adds_no_generic`, for a list of types.
pub proof fn lemma_lower_all_adds_no_generic(
    id: Id,
    level: Level,
    ts: Seq<TypeView>,
    m: Bindings,
    depth: nat,
)
    ensures
        adds_no_generic(m, lower_all(id, level, ts, m, depth).bindings),
    decreases depth, ts.len() + 1,
{
    if ts.len() > 0 {
        lemma_lower_all_adds_no_generic(id, level, ts.drop_last(), m, depth);
        lemma_lower_all_grows(id, level, ts.drop_last(), m, depth);
        let before = lower_all(id, level, ts.drop_last(), m, depth);
        if before.result is Ok {
            lemma_lower_adds_no_generic(id, level, ts.last(), before.bindings, depth);
            lemma_lower_grows(id, level, ts.last(), before.bindings, depth);
            lemma_adds_no_generic_trans(
                m,
                before.bindings,
                lower_at(id, level, ts.last(), before.bindings, depth).bindings,
            );
        }
    }
}

/// Unification resolves no variable to a type that holds a generic
/// placeholder, whether it goes through or not.
pub proof fn lemma_unify_adds_no_generic(t1: TypeView, t2: TypeView, m: Bindings, depth: nat)
    ensures
        adds_no_generic(m, unify_at(t1, t2, m, depth).bindings),
    decreases depth, 1nat,
{
    if depth > 0 && t1 != t2 {
        let d = (depth - 1) as nat;
        match (t1, t2) {
            (TypeView::App(h1, ps1), TypeView::App(h2, ps2)) => {
                if ps1.len() == ps2.len() {
                    lemma_unify_adds_no_generic(*h1, *h2, m, d);
                    lemma_unify_grows(*h1, *h2, m, d);
                    let h = unify_at(*h1, *h2, m, d);
                    if h.result is Ok {
                        lemma_unify_all_adds_no_generic(ps1, ps2, h.bindings, d);
                        lemma_unify_all_grows(ps1, ps2, h.bindings, d);
                        lemma_adds_no_generic_trans(
                            m,
                            h.bindings,
                            unify_all(ps1, ps2, h.bindings, d).bindings,
                        );
                    }
                }
            },
            (TypeView::Arrow(ps1, r1), TypeView::Arrow(ps2, r2)) => {
                if ps1.len() == ps2.len() {
                    lemma_unify_all_adds_no_generic(ps1, ps2, m, d);
                    lemma_unify_all_grows(ps1, ps2, m, d);
                    let ps = unify_all(ps1, ps2, m, d);
                    if ps.result is Ok {
                        lemma_unify_adds_no_generic(*r1, *r2, ps.bindings, d);
                        lemma_unify_grows(*r1, *r2, ps.bindings, d);
                        lemma_adds_no_generic_trans(
                            m,
                            ps.bindings,
                            unify_at(*r1, *r2, ps.bindings, d).bindings,
                        );
                    }
                }
            },
            (TypeView::TypeVar(id1, l1), TypeView::TypeVar(id2, l2)) => {
                if resolve(m, id1, l1) is Some {
                    lemma_unify_var_adds_no_generic(id1, l1, t2, m, depth);
                } else if resolve(m, id2, l2) is Some {
                    lemma_unify_var_adds_no_generic(id2, l2, t1, m, depth);
                } else if id1 != id2 {
                    lemma_unify_var_adds_no_generic(id1, l1, t2, m, depth);
                }
            },
            (TypeView::TypeVar(id, level), _) => {
                lemma_unify_var_adds_no_generic(id, level, t2, m, depth);
            },
            (_, TypeView::TypeVar(id, level)) => {
                lemma_unify_var_adds_no_generic(id, level, t1, m, depth);
            },
            _ => {},
        }
    }
}

/// As `lemma_unify_adds_no_generic`, for a variable against a type.
pub proof fn lemma_unify_var_adds_no_generic(id: Id, level: Level, other: TypeView, m: Bindings, depth: nat)
    ensures
        adds_no_generic(m, unify_var(id, level, other, m, depth).bindings),
    decreases depth, 0nat,
{
    if depth > 0 {
        let d = (depth - 1) as nat;
        match resolve(m, id, level) {
            Some(binding) => {
                lemma_unify_adds_no_generic(binding, other, m, d);
            },
            None => {
                if generic_free(other) {
                    let m1 = m.insert((id, level), other);
                    assert(!m.contains_key((id, level)));
                    assert(m.submap_of(m1));
                    assert(adds_no_generic(m, m1));
                    lemma_lower_adds_no_generic(id, level, other, m1, d);
                    lemma_lower_grows(id, level, other, m1, d);
                    lemma_adds_no_generic_trans(
                        m,
                        m1,
                        lower_at(id, level, other, m1, d).bindings,
                    );
                }
            },
        }
    }
}

/// As `lemma_unify_adds_no_generic`, for two lists of types.
pub proof fn lemma_unify_all_adds_no_generic(
    ps1: Seq<TypeView>,
    ps2: Seq<TypeView>,
    m: Bindings,
    depth: nat,
)
    ensures
        adds_no_generic(m, unify_all(ps1, ps2, m, depth).bindings),
    decreases depth, ps1.len() + 2,
{
    if ps1.len() > 0 {
        lemma_unify_all_adds_no_generic(ps1.drop_last(), ps2.drop_last(), m, depth);
        lemma_unify_all_grows(ps1.drop_last(), ps2.drop_last(), m, depth);
        let before = unify_all(ps1.drop_last(), ps2.drop_last(), m, depth);
        if before.result is Ok {
            lemma_unify_adds_no_generic(ps1.last(), ps2.last(), before.bindings, depth);
            lemma_unify_grows(ps1.last(), ps2.last(), before.bindings, depth);
            lemma_adds_no_generic_trans(
                m,
                before.bindings,
                unify_at(ps1.last(), ps2.last(), before.bindings, depth).bindings,
            );
        }
    }
}

/// Seeing a type as a function type only adds resolutions.
pub proof fn lemma_genarrow_grows(t: TypeView, n: nat, m: Bindings, next_id: Id, depth: nat)
    ensures
        match genarrow_at(t, n, m, next_id, depth) {
            Ok(shape) => m.submap_of(shape.bindings),
            Err(_) => true,
        },
    decreases depth,
{
    if depth > 0 {
        match t {
            TypeView::TypeVar(id, level) => {
                match resolve(m, id, level) {
                    Some(binding) => {
                        lemma_genarrow_grows(binding, n, m, next_id, (depth - 1) as nat);
                    },
                    None => {
                        assert(!m.contains_key((id, level)));
                    },
                }
            },
            _ => {},
        }
    }
}

} // verus!
