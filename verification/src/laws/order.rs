//! When unification does not go by the order of its arguments.

use vstd::prelude::*;
use crate::env::{Id, Level};
use crate::infer::{
    lower_at, resolve, unify_all, unify_at, unify_spec, unify_var, Bindings, Lowered, Unified,
    UnifiedAll,
};
use crate::types::{ErrorView, TypeView, MAX_DEPTH};

verus! {

/// Whether `t` holds no type variable.
pub open spec fn ground(t: TypeView) -> bool
    decreases t,
{
    match t {
        TypeView::TypeVar(_, _) => false,
        TypeView::Const(_) => true,
        TypeView::Generic(_) => true,
        TypeView::App(head, params) => ground(*head) && forall|i: int|
            0 <= i < params.len() ==> ground(#[trigger] params[i]),
        TypeView::Arrow(params, ret) => ground(*ret) && forall|i: int|
            0 <= i < params.len() ==> ground(#[trigger] params[i]),
    }
}

/// Whether `t` is no variable that `m` resolves.
pub open spec fn terminal(t: TypeView, m: Bindings) -> bool {
    match t {
        TypeView::TypeVar(id, level) => !m.contains_key((id, level)),
        _ => true,
    }
}

/// Whether unifying `t1` with `t2` never has to pick which of two
/// unresolved variables of different ids to resolve to the other: at no
/// place where the two ways round part company do two such variables
/// meet. Where two resolved variables meet, what they resolve to must be
/// the end of the matter for both.
pub open spec fn mirrored(t1: TypeView, t2: TypeView, m: Bindings, depth: nat) -> bool
    decreases depth, 1nat,
{
    if depth == 0 || t1 == t2 {
        true
    } else {
        let d = (depth - 1) as nat;
        match (t1, t2) {
            (TypeView::App(h1, ps1), TypeView::App(h2, ps2)) => ps1.len() != ps2.len() || {
                &&& mirrored(*h1, *h2, m, d)
                &&& unify_at(*h1, *h2, m, d).result is Ok ==> mirrored_all(
                    ps1,
                    ps2,
                    unify_at(*h1, *h2, m, d).bindings,
                    d,
                )
            },
            (TypeView::Arrow(ps1, r1), TypeView::Arrow(ps2, r2)) => ps1.len() != ps2.len() || {
                &&& mirrored_all(ps1, ps2, m, d)
                &&& unify_all(ps1, ps2, m, d).result is Ok ==> mirrored(
                    *r1,
                    *r2,
                    unify_all(ps1, ps2, m, d).bindings,
                    d,
                )
            },
            (TypeView::TypeVar(id1, l1), TypeView::TypeVar(id2, l2)) => match (
                resolve(m, id1, l1),
                resolve(m, id2, l2),
            ) {
                (Some(b1), Some(b2)) => {
                    &&& terminal(b1, m)
                    &&& terminal(b2, m)
                    &&& d > 0 ==> mirrored(b2, b1, m, (d - 1) as nat)
                },
                (None, None) => id1 == id2,
                _ => true,
            },
            _ => true,
        }
    }
}

/// As `mirrored`, for two lists of types.
pub open spec fn mirrored_all(
    ps1: Seq<TypeView>,
    ps2: Seq<TypeView>,
    m: Bindings,
    depth: nat,
) -> bool
    decreases depth, ps1.len() + 2,
{
    if ps1.len() == 0 || ps1.len() != ps2.len() {
        true
    } else {
        &&& mirrored_all(ps1.drop_last(), ps2.drop_last(), m, depth)
        &&& unify_all(ps1.drop_last(), ps2.drop_last(), m, depth).result is Ok ==> mirrored(
            ps1.last(),
            ps2.last(),
            unify_all(ps1.drop_last(), ps2.drop_last(), m, depth).bindings,
            depth,
        )
    }
}

/// Whether two unifications came out alike: with the same resolutions,
/// and both to the same type or both to none.
pub open spec fn alike(a: Unified, b: Unified) -> bool {
    &&& a.bindings == b.bindings
    &&& match a.result {
        Ok(both) => b.result == Ok::<TypeView, ErrorView>(both),
        Err(_) => b.result is Err,
    }
}

/// Whether the unifications of two lists came out alike.
pub open spec fn all_alike(a: UnifiedAll, b: UnifiedAll) -> bool {
    &&& a.bindings == b.bindings
    &&& match a.result {
        Ok(all) => b.result == Ok::<Seq<TypeView>, ErrorView>(all),
        Err(_) => b.result is Err,
    }
}

/// Unification does not go by the order of its arguments as long as it
/// never has to pick which of two unresolved variables to resolve to the
/// other: either way round it goes through or it does not, to the same
/// type and with the same resolutions.
pub proof fn lemma_unify_mirrors(t1: TypeView, t2: TypeView, m: Bindings, depth: nat)
    requires
        mirrored(t1, t2, m, depth),
    ensures
        alike(unify_at(t1, t2, m, depth), unify_at(t2, t1, m, depth)),
    decreases depth, 1nat,
{
    if depth > 0 && t1 != t2 {
        let d = (depth - 1) as nat;
        match (t1, t2) {
            (TypeView::App(h1, ps1), TypeView::App(h2, ps2)) => {
                if ps1.len() == ps2.len() {
                    lemma_unify_mirrors(*h1, *h2, m, d);
                    let h = unify_at(*h1, *h2, m, d);
                    if h.result is Ok {
                        lemma_unify_all_mirrors(ps1, ps2, h.bindings, d);
                    }
                }
            },
            (TypeView::Arrow(ps1, r1), TypeView::Arrow(ps2, r2)) => {
                if ps1.len() == ps2.len() {
                    lemma_unify_all_mirrors(ps1, ps2, m, d);
                    let ps = unify_all(ps1, ps2, m, d);
                    if ps.result is Ok {
                        lemma_unify_mirrors(*r1, *r2, ps.bindings, d);
                    }
                }
            },
            (TypeView::TypeVar(id1, l1), TypeView::TypeVar(id2, l2)) => {
                match (resolve(m, id1, l1), resolve(m, id2, l2)) {
                    (Some(b1), Some(b2)) => {
                        assert(unify_at(t1, t2, m, depth) == unify_var(id1, l1, t2, m, depth));
                        assert(unify_var(id1, l1, t2, m, depth) == unify_at(b1, t2, m, d));
                        assert(unify_at(t2, t1, m, depth) == unify_var(id2, l2, t1, m, depth));
                        assert(unify_var(id2, l2, t1, m, depth) == unify_at(b2, t1, m, d));
                        if d > 0 {
                            let e = (d - 1) as nat;
                            lemma_terminal_meets_resolved(b1, id2, l2, m, d);
                            lemma_terminal_meets_resolved(b2, id1, l1, m, d);
                            assert(unify_at(b1, t2, m, d) == unify_at(b2, b1, m, e));
                            assert(unify_at(b2, t1, m, d) == unify_at(b1, b2, m, e));
                            lemma_unify_mirrors(b2, b1, m, e);
                        }
                    },
                    _ => {},
                }
            },
            _ => {},
        }
    }
}

/// A type that is no resolved variable, unified either way round with a
/// resolved variable, is unified with what the variable resolves to.
proof fn lemma_terminal_meets_resolved(b: TypeView, id: Id, level: Level, m: Bindings, depth: nat)
    requires
        terminal(b, m),
        resolve(m, id, level) is Some,
        depth > 0,
    ensures
        unify_at(b, TypeView::TypeVar(id, level), m, depth) == unify_at(
            resolve(m, id, level)->0,
            b,
            m,
            (depth - 1) as nat,
        ),
{
    let v = TypeView::TypeVar(id, level);
    assert(m.contains_key((id, level)));
    assert(b != v);
    match b {
        TypeView::TypeVar(j, k) => {
            assert(resolve(m, j, k) is None);
        },
        _ => {},
    }
    assert(unify_at(b, v, m, depth) == unify_var(id, level, b, m, depth));
    assert(unify_var(id, level, b, m, depth) == unify_at(
        resolve(m, id, level)->0,
        b,
        m,
        (depth - 1) as nat,
    ));
}

/// As `lemma_unify_mirrors`, for two lists of types of one length.
pub proof fn lemma_unify_all_mirrors(
    ps1: Seq<TypeView>,
    ps2: Seq<TypeView>,
    m: Bindings,
    depth: nat,
)
    requires
        ps1.len() == ps2.len(),
        mirrored_all(ps1, ps2, m, depth),
    ensures
        all_alike(unify_all(ps1, ps2, m, depth), unify_all(ps2, ps1, m, depth)),
    decreases depth, ps1.len() + 2,
{
    if ps1.len() > 0 {
        lemma_unify_all_mirrors(ps1.drop_last(), ps2.drop_last(), m, depth);
        let before = unify_all(ps1.drop_last(), ps2.drop_last(), m, depth);
        if before.result is Ok {
            lemma_unify_mirrors(ps1.last(), ps2.last(), before.bindings, depth);
        }
    }
}

/// Unification does not go by the order of its arguments where one of
/// them holds no variable: either way round it goes through or it does
/// not, to the same type and with the same resolutions.
pub proof fn lemma_unify_commutes(t: TypeView, g: TypeView, m: Bindings, depth: nat)
    requires
        ground(g),
    ensures
        unify_at(t, g, m, depth).bindings == unify_at(g, t, m, depth).bindings,
        match unify_at(t, g, m, depth).result {
            Ok(both) => unify_at(g, t, m, depth).result == Ok::<TypeView, ErrorView>(both),
            Err(_) => unify_at(g, t, m, depth).result is Err,
        },
    decreases depth, 1nat,
{
    if depth > 0 && t != g {
        let d = (depth - 1) as nat;
        match (t, g) {
            (TypeView::App(h1, ps1), TypeView::App(h2, ps2)) => {
                if ps1.len() == ps2.len() {
                    lemma_unify_commutes(*h1, *h2, m, d);
                    let h = unify_at(*h1, *h2, m, d);
                    if h.result is Ok {
                        lemma_unify_all_commutes(ps1, ps2, h.bindings, d);
                    }
                }
            },
            (TypeView::Arrow(ps1, r1), TypeView::Arrow(ps2, r2)) => {
                if ps1.len() == ps2.len() {
                    lemma_unify_all_commutes(ps1, ps2, m, d);
                    let ps = unify_all(ps1, ps2, m, d);
                    if ps.result is Ok {
                        lemma_unify_commutes(*r1, *r2, ps.bindings, d);
                    }
                }
            },
            _ => {},
        }
    }
}

/// As `lemma_unify_commutes`, for two lists of types of one length.
pub proof fn lemma_unify_all_commutes(
    ts: Seq<TypeView>,
    gs: Seq<TypeView>,
    m: Bindings,
    depth: nat,
)
    requires
        ts.len() == gs.len(),
        forall|i: int| 0 <= i < gs.len() ==> ground(#[trigger] gs[i]),
    ensures
        unify_all(ts, gs, m, depth).bindings == unify_all(gs, ts, m, depth).bindings,
        match unify_all(ts, gs, m, depth).result {
            Ok(all) => unify_all(gs, ts, m, depth).result == Ok::<Seq<TypeView>, ErrorView>(all),
            Err(_) => unify_all(gs, ts, m, depth).result is Err,
        },
    decreases depth, ts.len() + 2,
{
    if ts.len() > 0 {
        assert forall|i: int| 0 <= i < gs.drop_last().len() implies ground(
            #[trigger] gs.drop_last()[i],
        ) by {
            assert(gs.drop_last()[i] == gs[i]);
        }
        lemma_unify_all_commutes(ts.drop_last(), gs.drop_last(), m, depth);
        let before = unify_all(ts.drop_last(), gs.drop_last(), m, depth);
        if before.result is Ok {
            assert(ground(gs[gs.len() - 1]));
            lemma_unify_commutes(ts.last(), gs.last(), before.bindings, depth);
        }
    }
}

/// Two unresolved variables of different ids that were made at one level
/// unify either way round. The left one is resolved to the right one,
/// which is the answer, so the two ways differ only in which of the two
/// variables stands for both.
pub proof fn lemma_unify_two_variables(a: Id, b: Id, level: Level, m: Bindings)
    requires
        a != b,
        !m.contains_key((a, level)),
        !m.contains_key((b, level)),
    ensures
        unify_spec(TypeView::TypeVar(a, level), TypeView::TypeVar(b, level), m) == (Unified {
            result: Ok(TypeView::TypeVar(b, level)),
            bindings: m.insert((a, level), TypeView::TypeVar(b, level)),
        }),
        unify_spec(TypeView::TypeVar(b, level), TypeView::TypeVar(a, level), m) == (Unified {
            result: Ok(TypeView::TypeVar(a, level)),
            bindings: m.insert((b, level), TypeView::TypeVar(a, level)),
        }),
{
    let ta = TypeView::TypeVar(a, level);
    let tb = TypeView::TypeVar(b, level);
    let d = MAX_DEPTH as nat;
    let e = (d - 1) as nat;
    assert(resolve(m, a, level) is None);
    assert(resolve(m, b, level) is None);
    let ma = m.insert((a, level), tb);
    let mb = m.insert((b, level), ta);
    assert(resolve(ma, b, level) is None);
    assert(resolve(mb, a, level) is None);
    assert(lower_at(a, level, tb, ma, e) == (Lowered { result: Ok(()), bindings: ma }));
    assert(lower_at(b, level, ta, mb, e) == (Lowered { result: Ok(()), bindings: mb }));
    assert(unify_at(ta, tb, m, d) == unify_var(a, level, tb, m, d));
    assert(unify_at(tb, ta, m, d) == unify_var(b, level, ta, m, d));
}

} // verus!
