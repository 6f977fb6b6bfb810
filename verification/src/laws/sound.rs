//! What unification has made the same is the same.

use vstd::prelude::*;
use crate::env::{chase, Id, Level};
use crate::infer::{lower_at, resolve, unify_all, unify_at, unify_var, Bindings};
use crate::laws::growth::{lemma_lower_grows, lemma_unify_all_grows, lemma_unify_grows};
use crate::types::{ErrorView, TypeView};

verus! {

/// Whether `t1` and `t2` are the same type once resolved variables give
/// way to what `m` resolves them to, as can be seen in `n` steps: they are
/// the same as they stand; or one is a resolved variable whose resolution
/// is the same as the other; or both are applications, or both function
/// types, whose parts are the same one by one.
pub open spec fn same_under(t1: TypeView, t2: TypeView, m: Bindings, n: nat) -> bool
    decreases n,
{
    if t1 == t2 {
        true
    } else if n == 0 {
        false
    } else {
        let k = (n - 1) as nat;
        let left = match t1 {
            TypeView::TypeVar(id, level) => m.contains_key((id, level)) && same_under(
                m[(id, level)],
                t2,
                m,
                k,
            ),
            _ => false,
        };
        let right = match t2 {
            TypeView::TypeVar(id, level) => m.contains_key((id, level)) && same_under(
                t1,
                m[(id, level)],
                m,
                k,
            ),
            _ => false,
        };
        let parts = match (t1, t2) {
            (TypeView::App(h1, ps1), TypeView::App(h2, ps2)) => {
                &&& same_under(*h1, *h2, m, k)
                &&& ps1.len() == ps2.len()
                &&& forall|i: int|
                    0 <= i < ps1.len() ==> same_under(#[trigger] ps1[i], ps2[i], m, k)
            },
            (TypeView::Arrow(ps1, r1), TypeView::Arrow(ps2, r2)) => {
                &&& same_under(*r1, *r2, m, k)
                &&& ps1.len() == ps2.len()
                &&& forall|i: int|
                    0 <= i < ps1.len() ==> same_under(#[trigger] ps1[i], ps2[i], m, k)
            },
            _ => false,
        };
        left || right || parts
    }
}

/// Whether `ps1` and `ps2` are of one length and the same under `m` one
/// by one, as can be seen in `n` steps each.
pub open spec fn all_same_under(
    ps1: Seq<TypeView>,
    ps2: Seq<TypeView>,
    m: Bindings,
    n: nat,
) -> bool {
    &&& ps1.len() == ps2.len()
    &&& forall|i: int| 0 <= i < ps1.len() ==> same_under(#[trigger] ps1[i], ps2[i], m, n)
}

/// What can be seen in `n` steps can be seen in more.
proof fn lemma_same_more_steps(t1: TypeView, t2: TypeView, m: Bindings, more: nat, n: nat)
    requires
        same_under(t1, t2, m, n),
        n <= more,
    ensures
        same_under(t1, t2, m, more),
    decreases n,
{
    if t1 != t2 {
        let k = (n - 1) as nat;
        let j = (more - 1) as nat;
        let left = match t1 {
            TypeView::TypeVar(id, level) => m.contains_key((id, level)) && same_under(
                m[(id, level)],
                t2,
                m,
                k,
            ),
            _ => false,
        };
        let right = match t2 {
            TypeView::TypeVar(id, level) => m.contains_key((id, level)) && same_under(
                t1,
                m[(id, level)],
                m,
                k,
            ),
            _ => false,
        };
        if left {
            match t1 {
                TypeView::TypeVar(id, level) => {
                    assert(m.dom().contains((id, level)));
                    lemma_same_more_steps(m[(id, level)], t2, m, j, k);
                },
                _ => {},
            }
        } else if right {
            match t2 {
                TypeView::TypeVar(id, level) => {
                    assert(m.dom().contains((id, level)));
                    lemma_same_more_steps(t1, m[(id, level)], m, j, k);
                },
                _ => {},
            }
        } else {
            match (t1, t2) {
                (TypeView::App(h1, ps1), TypeView::App(h2, ps2)) => {
                    if same_under(*h1, *h2, m, k) && ps1.len() == ps2.len() && forall|i: int|
                        0 <= i < ps1.len() ==> same_under(#[trigger] ps1[i], ps2[i], m, k) {
                        lemma_same_more_steps(*h1, *h2, m, j, k);
                        assert forall|i: int| 0 <= i < ps1.len() implies same_under(
                            #[trigger] ps1[i],
                            ps2[i],
                            m,
                            j,
                        ) by {
                            assert(same_under(ps1[i], ps2[i], m, k));
                            lemma_same_more_steps(ps1[i], ps2[i], m, j, k);
                        }
                    }
                },
                (TypeView::Arrow(ps1, r1), TypeView::Arrow(ps2, r2)) => {
                    if same_under(*r1, *r2, m, k) && ps1.len() == ps2.len() && forall|i: int|
                        0 <= i < ps1.len() ==> same_under(#[trigger] ps1[i], ps2[i], m, k) {
                        lemma_same_more_steps(*r1, *r2, m, j, k);
                        assert forall|i: int| 0 <= i < ps1.len() implies same_under(
                            #[trigger] ps1[i],
                            ps2[i],
                            m,
                            j,
                        ) by {
                            assert(same_under(ps1[i], ps2[i], m, k));
                            lemma_same_more_steps(ps1[i], ps2[i], m, j, k);
                        }
                    }
                },
                _ => {},
            }
        }
    }
}

/// As `lemma_same_more_steps`, for two lists of types.
proof fn lemma_all_same_more_steps(
    ps1: Seq<TypeView>,
    ps2: Seq<TypeView>,
    m: Bindings,
    more: nat,
    n: nat,
)
    requires
        all_same_under(ps1, ps2, m, n),
        n <= more,
    ensures
        all_same_under(ps1, ps2, m, more),
{
    assert forall|i: int| 0 <= i < ps1.len() implies same_under(
        #[trigger] ps1[i],
        ps2[i],
        m,
        more,
    ) by {
        assert(same_under(ps1[i], ps2[i], m, n));
        lemma_same_more_steps(ps1[i], ps2[i], m, more, n);
    }
}

/// What is the same under `m` is the same under all that holds as much.
proof fn lemma_same_more_bindings(t1: TypeView, t2: TypeView, m: Bindings, more: Bindings, n: nat)
    requires
        same_under(t1, t2, m, n),
        m.submap_of(more),
    ensures
        same_under(t1, t2, more, n),
    decreases n,
{
    if t1 != t2 {
        let k = (n - 1) as nat;
        let j = (n - 1) as nat;
        let left = match t1 {
            TypeView::TypeVar(id, level) => m.contains_key((id, level)) && same_under(
                m[(id, level)],
                t2,
                m,
                k,
            ),
            _ => false,
        };
        let right = match t2 {
            TypeView::TypeVar(id, level) => m.contains_key((id, level)) && same_under(
                t1,
                m[(id, level)],
                m,
                k,
            ),
            _ => false,
        };
        if left {
            match t1 {
                TypeView::TypeVar(id, level) => {
                    assert(m.dom().contains((id, level)));
                    assert(more.dom().contains((id, level)));
                    lemma_same_more_bindings(m[(id, level)], t2, m, more, k);
                },
                _ => {},
            }
        } else if right {
            match t2 {
                TypeView::TypeVar(id, level) => {
                    assert(m.dom().contains((id, level)));
                    assert(more.dom().contains((id, level)));
                    lemma_same_more_bindings(t1, m[(id, level)], m, more, k);
                },
                _ => {},
            }
        } else {
            match (t1, t2) {
                (TypeView::App(h1, ps1), TypeView::App(h2, ps2)) => {
                    if same_under(*h1, *h2, m, k) && ps1.len() == ps2.len() && forall|i: int|
                        0 <= i < ps1.len() ==> same_under(#[trigger] ps1[i], ps2[i], m, k) {
                        lemma_same_more_bindings(*h1, *h2, m, more, k);
                        assert forall|i: int| 0 <= i < ps1.len() implies same_under(
                            #[trigger] ps1[i],
                            ps2[i],
                            more,
                            j,
                        ) by {
                            assert(same_under(ps1[i], ps2[i], m, k));
                            lemma_same_more_bindings(ps1[i], ps2[i], m, more, k);
                        }
                    }
                },
                (TypeView::Arrow(ps1, r1), TypeView::Arrow(ps2, r2)) => {
                    if same_under(*r1, *r2, m, k) && ps1.len() == ps2.len() && forall|i: int|
                        0 <= i < ps1.len() ==> same_under(#[trigger] ps1[i], ps2[i], m, k) {
                        lemma_same_more_bindings(*r1, *r2, m, more, k);
                        assert forall|i: int| 0 <= i < ps1.len() implies same_under(
                            #[trigger] ps1[i],
                            ps2[i],
                            more,
                            j,
                        ) by {
                            assert(same_under(ps1[i], ps2[i], m, k));
                            lemma_same_more_bindings(ps1[i], ps2[i], m, more, k);
                        }
                    }
                },
                _ => {},
            }
        }
    }
}

/// As `lemma_same_more_bindings`, for two lists of types.
proof fn lemma_all_same_more_bindings(
    ps1: Seq<TypeView>,
    ps2: Seq<TypeView>,
    m: Bindings,
    more: Bindings,
    n: nat,
)
    requires
        all_same_under(ps1, ps2, m, n),
        m.submap_of(more),
    ensures
        all_same_under(ps1, ps2, more, n),
{
    assert forall|i: int| 0 <= i < ps1.len() implies same_under(
        #[trigger] ps1[i],
        ps2[i],
        more,
        n,
    ) by {
        assert(same_under(ps1[i], ps2[i], m, n));
        lemma_same_more_bindings(ps1[i], ps2[i], m, more, n);
    }
}

/// What is the same one way round is the same the other way round.
proof fn lemma_same_swapped(t1: TypeView, t2: TypeView, m: Bindings, n: nat)
    requires
        same_under(t1, t2, m, n),
    ensures
        same_under(t2, t1, m, n),
    decreases n,
{
    if t1 != t2 {
        let k = (n - 1) as nat;
        let j = (n - 1) as nat;
        let left = match t1 {
            TypeView::TypeVar(id, level) => m.contains_key((id, level)) && same_under(
                m[(id, level)],
                t2,
                m,
                k,
            ),
            _ => false,
        };
        let right = match t2 {
            TypeView::TypeVar(id, level) => m.contains_key((id, level)) && same_under(
                t1,
                m[(id, level)],
                m,
                k,
            ),
            _ => false,
        };
        if left {
            match t1 {
                TypeView::TypeVar(id, level) => {
                    assert(m.dom().contains((id, level)));
                    lemma_same_swapped(m[(id, level)], t2, m, k);
                },
                _ => {},
            }
        } else if right {
            match t2 {
                TypeView::TypeVar(id, level) => {
                    assert(m.dom().contains((id, level)));
                    lemma_same_swapped(t1, m[(id, level)], m, k);
                },
                _ => {},
            }
        } else {
            match (t1, t2) {
                (TypeView::App(h1, ps1), TypeView::App(h2, ps2)) => {
                    if same_under(*h1, *h2, m, k) && ps1.len() == ps2.len() && forall|i: int|
                        0 <= i < ps1.len() ==> same_under(#[trigger] ps1[i], ps2[i], m, k) {
                        lemma_same_swapped(*h1, *h2, m, k);
                        assert forall|i: int| 0 <= i < ps1.len() implies same_under(
                            #[trigger] ps2[i],
                            ps1[i],
                            m,
                            j,
                        ) by {
                            assert(same_under(ps1[i], ps2[i], m, k));
                            lemma_same_swapped(ps1[i], ps2[i], m, k);
                        }
                    }
                },
                (TypeView::Arrow(ps1, r1), TypeView::Arrow(ps2, r2)) => {
                    if same_under(*r1, *r2, m, k) && ps1.len() == ps2.len() && forall|i: int|
                        0 <= i < ps1.len() ==> same_under(#[trigger] ps1[i], ps2[i], m, k) {
                        lemma_same_swapped(*r1, *r2, m, k);
                        assert forall|i: int| 0 <= i < ps1.len() implies same_under(
                            #[trigger] ps2[i],
                            ps1[i],
                            m,
                            j,
                        ) by {
                            assert(same_under(ps1[i], ps2[i], m, k));
                            lemma_same_swapped(ps1[i], ps2[i], m, k);
                        }
                    }
                },
                _ => {},
            }
        }
    }
}

/// A variable is the same under `more` as whatever its resolution in `m`
/// is the same as, where `more` holds all that `m` holds.
proof fn lemma_same_through_chain(
    m: Bindings,
    more: Bindings,
    key: (Id, Level),
    fuel: nat,
    other: TypeView,
    n: nat,
)
    requires
        m.submap_of(more),
        chase(m, |t: TypeView| t.as_var(), key, fuel) is Some,
        same_under(chase(m, |t: TypeView| t.as_var(), key, fuel)->0, other, more, n),
    ensures
        same_under(TypeView::TypeVar(key.0, key.1), other, more, n + fuel + 1),
    decreases fuel,
{
    let f = |t: TypeView| t.as_var();
    let v = m[key];
    assert(m.dom().contains(key));
    assert(more.dom().contains(key));
    assert(more.contains_key(key) && more[key] == v);
    let var = TypeView::TypeVar(key.0, key.1);
    if var != other {
        match f(v) {
            Some(next) => {
                if fuel > 0 && chase(m, f, next, (fuel - 1) as nat) is Some {
                    lemma_same_through_chain(m, more, next, (fuel - 1) as nat, other, n);
                    assert(v == TypeView::TypeVar(next.0, next.1));
                    assert(same_under(v, other, more, n + fuel));
                } else {
                    lemma_same_more_steps(v, other, more, n + fuel, n);
                }
            },
            None => {
                lemma_same_more_steps(v, other, more, n + fuel, n);
            },
        }
    }
}

/// What unification has made the same is the same: where the unification
/// of `t1` and `t2` goes through, the two types and the type that it
/// gives are all the same under the resolutions that it leaves, as can be
/// seen in the number of steps that the proof hands back.
pub proof fn lemma_unify_sound(t1: TypeView, t2: TypeView, m: Bindings, depth: nat) -> (n: nat)
    ensures
        match unify_at(t1, t2, m, depth).result {
            Ok(both) => {
                &&& same_under(t1, t2, unify_at(t1, t2, m, depth).bindings, n)
                &&& same_under(t1, both, unify_at(t1, t2, m, depth).bindings, n)
                &&& same_under(t2, both, unify_at(t1, t2, m, depth).bindings, n)
            },
            Err(_) => true,
        },
    decreases depth, 1nat,
{
    let u = unify_at(t1, t2, m, depth);
    if depth == 0 || t1 == t2 || u.result is Err {
        return 0;
    }
    let d = (depth - 1) as nat;
    match (t1, t2) {
        (TypeView::App(h1, ps1), TypeView::App(h2, ps2)) => {
            let h = unify_at(*h1, *h2, m, d);
            let ps = unify_all(ps1, ps2, h.bindings, d);
            let nh = lemma_unify_sound(*h1, *h2, m, d);
            let np = lemma_unify_all_sound(ps1, ps2, h.bindings, d);
            lemma_unify_all_grows(ps1, ps2, h.bindings, d);
            let hv = h.result->Ok_0;
            lemma_same_more_bindings(*h1, *h2, h.bindings, ps.bindings, nh);
            lemma_same_more_bindings(*h1, hv, h.bindings, ps.bindings, nh);
            lemma_same_more_bindings(*h2, hv, h.bindings, ps.bindings, nh);
            let k = nh + np;
            lemma_same_more_steps(*h1, *h2, ps.bindings, k, nh);
            lemma_same_more_steps(*h1, hv, ps.bindings, k, nh);
            lemma_same_more_steps(*h2, hv, ps.bindings, k, nh);
            lemma_all_same_more_steps(ps1, ps2, ps.bindings, k, np);
            lemma_all_same_more_steps(ps1, ps.result->Ok_0, ps.bindings, k, np);
            lemma_all_same_more_steps(ps2, ps.result->Ok_0, ps.bindings, k, np);
            k + 1
        },
        (TypeView::Arrow(ps1, r1), TypeView::Arrow(ps2, r2)) => {
            let ps = unify_all(ps1, ps2, m, d);
            let r = unify_at(*r1, *r2, ps.bindings, d);
            let np = lemma_unify_all_sound(ps1, ps2, m, d);
            let nr = lemma_unify_sound(*r1, *r2, ps.bindings, d);
            lemma_unify_grows(*r1, *r2, ps.bindings, d);
            let pv = ps.result->Ok_0;
            lemma_all_same_more_bindings(ps1, ps2, ps.bindings, r.bindings, np);
            lemma_all_same_more_bindings(ps1, pv, ps.bindings, r.bindings, np);
            lemma_all_same_more_bindings(ps2, pv, ps.bindings, r.bindings, np);
            let k = nr + np;
            lemma_all_same_more_steps(ps1, ps2, r.bindings, k, np);
            lemma_all_same_more_steps(ps1, pv, r.bindings, k, np);
            lemma_all_same_more_steps(ps2, pv, r.bindings, k, np);
            lemma_same_more_steps(*r1, *r2, r.bindings, k, nr);
            lemma_same_more_steps(*r1, r.result->Ok_0, r.bindings, k, nr);
            lemma_same_more_steps(*r2, r.result->Ok_0, r.bindings, k, nr);
            k + 1
        },
        (TypeView::TypeVar(id1, l1), TypeView::TypeVar(id2, l2)) => {
            if resolve(m, id1, l1) is Some {
                lemma_unify_var_sound(id1, l1, t2, m, depth)
            } else if resolve(m, id2, l2) is Some {
                let n = lemma_unify_var_sound(id2, l2, t1, m, depth);
                lemma_same_swapped(t2, t1, u.bindings, n);
                n
            } else {
                lemma_unify_var_sound(id1, l1, t2, m, depth)
            }
        },
        (TypeView::TypeVar(id, level), _) => lemma_unify_var_sound(id, level, t2, m, depth),
        (_, TypeView::TypeVar(id, level)) => {
            let n = lemma_unify_var_sound(id, level, t1, m, depth);
            lemma_same_swapped(t2, t1, u.bindings, n);
            n
        },
        _ => 0,
    }
}

/// As `lemma_unify_sound`, for a variable against a type.
pub proof fn lemma_unify_var_sound(
    id: Id,
    level: Level,
    other: TypeView,
    m: Bindings,
    depth: nat,
) -> (n: nat)
    ensures
        match unify_var(id, level, other, m, depth).result {
            Ok(both) => {
                &&& same_under(
                    TypeView::TypeVar(id, level),
                    other,
                    unify_var(id, level, other, m, depth).bindings,
                    n,
                )
                &&& same_under(
                    TypeView::TypeVar(id, level),
                    both,
                    unify_var(id, level, other, m, depth).bindings,
                    n,
                )
                &&& same_under(other, both, unify_var(id, level, other, m, depth).bindings, n)
            },
            Err(_) => true,
        },
    decreases depth, 0nat,
{
    let u = unify_var(id, level, other, m, depth);
    if depth == 0 || u.result is Err {
        return 0;
    }
    let d = (depth - 1) as nat;
    match resolve(m, id, level) {
        Some(binding) => {
            let n = lemma_unify_sound(binding, other, m, d);
            lemma_unify_grows(binding, other, m, d);
            let fuel = m.dom().len();
            let both = u.result->Ok_0;
            lemma_same_through_chain(m, u.bindings, (id, level), fuel, other, n);
            lemma_same_through_chain(m, u.bindings, (id, level), fuel, both, n);
            lemma_same_more_steps(other, both, u.bindings, n + fuel + 1, n);
            n + fuel + 1
        },
        None => {
            let m1 = m.insert((id, level), other);
            lemma_lower_grows(id, level, other, m1, d);
            assert(u.bindings == lower_at(id, level, other, m1, d).bindings);
            assert(m1.dom().contains((id, level)));
            assert(u.bindings.dom().contains((id, level)));
            assert(u.bindings.contains_key((id, level)) && u.bindings[(id, level)] == other);
            assert(u.result == Ok::<TypeView, ErrorView>(other));
            assert(same_under(other, other, u.bindings, 0));
            assert(same_under(TypeView::TypeVar(id, level), other, u.bindings, 1));
            lemma_same_more_steps(other, other, u.bindings, 1, 0);
            1
        },
    }
}

/// As `lemma_unify_sound`, for two lists of types.
pub proof fn lemma_unify_all_sound(
    ps1: Seq<TypeView>,
    ps2: Seq<TypeView>,
    m: Bindings,
    depth: nat,
) -> (n: nat)
    requires
        ps1.len() == ps2.len(),
    ensures
        match unify_all(ps1, ps2, m, depth).result {
            Ok(all) => {
                &&& all_same_under(ps1, ps2, unify_all(ps1, ps2, m, depth).bindings, n)
                &&& all_same_under(ps1, all, unify_all(ps1, ps2, m, depth).bindings, n)
                &&& all_same_under(ps2, all, unify_all(ps1, ps2, m, depth).bindings, n)
            },
            Err(_) => true,
        },
    decreases depth, ps1.len() + 2,
{
    let u = unify_all(ps1, ps2, m, depth);
    if ps1.len() == 0 || u.result is Err {
        return 0;
    }
    let f1 = ps1.drop_last();
    let f2 = ps2.drop_last();
    let before = unify_all(f1, f2, m, depth);
    let last = unify_at(ps1.last(), ps2.last(), before.bindings, depth);
    let nf = lemma_unify_all_sound(f1, f2, m, depth);
    let nl = lemma_unify_sound(ps1.last(), ps2.last(), before.bindings, depth);
    lemma_unify_grows(ps1.last(), ps2.last(), before.bindings, depth);
    let done = before.result->Ok_0;
    let v = last.result->Ok_0;
    let all = done.push(v);
    lemma_all_same_more_bindings(f1, f2, before.bindings, last.bindings, nf);
    lemma_all_same_more_bindings(f1, done, before.bindings, last.bindings, nf);
    lemma_all_same_more_bindings(f2, done, before.bindings, last.bindings, nf);
    let k = nf + nl;
    lemma_all_same_more_steps(f1, f2, last.bindings, k, nf);
    lemma_all_same_more_steps(f1, done, last.bindings, k, nf);
    lemma_all_same_more_steps(f2, done, last.bindings, k, nf);
    lemma_same_more_steps(ps1.last(), ps2.last(), last.bindings, k, nl);
    lemma_same_more_steps(ps1.last(), v, last.bindings, k, nl);
    lemma_same_more_steps(ps2.last(), v, last.bindings, k, nl);
    assert forall|i: int| 0 <= i < ps1.len() implies same_under(#[trigger] ps1[i],
        ps2[i],
        last.bindings,
        k,
    ) by {
        if i < f1.len() {
            assert(same_under(f1[i], f2[i], last.bindings, k));
        }
    }
    assert forall|i: int| 0 <= i < ps1.len() implies same_under(#[trigger] ps1[i],
        all[i],
        last.bindings,
        k,
    ) by {
        if i < f1.len() {
            assert(same_under(f1[i], done[i], last.bindings, k));
        }
    }
    assert forall|i: int| 0 <= i < ps2.len() implies same_under(#[trigger] ps2[i],
        all[i],
        last.bindings,
        k,
    ) by {
        if i < f2.len() {
            assert(same_under(f2[i], done[i], last.bindings, k));
        }
    }
    k
}

} // verus!
