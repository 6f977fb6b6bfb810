//! Generalising and instantiating: what the two do to the variables of a
//! type, and when they follow resolutions to their ends.

use vstd::prelude::*;
use crate::env::{Id, Level};
use crate::infer::{
    close_all, close_at, generalize_all, generalize_at, generalize_spec, instantiate_all,
    instantiate_at, instantiate_spec, resolve, Bindings,
};
use crate::laws::order::ground;
use crate::types::{ErrorView, TypeView};

verus! {

/// Whether `t` holds no generic placeholder and no variable that `m`
/// resolves.
pub open spec fn settled(t: TypeView, m: Bindings) -> bool
    decreases t,
{
    match t {
        TypeView::TypeVar(id, level) => !m.contains_key((id, level)),
        TypeView::Const(_) => true,
        TypeView::Generic(_) => false,
        TypeView::App(head, params) => settled(*head, m) && forall|i: int|
            0 <= i < params.len() ==> settled(#[trigger] params[i], m),
        TypeView::Arrow(params, ret) => settled(*ret, m) && forall|i: int|
            0 <= i < params.len() ==> settled(#[trigger] params[i], m),
    }
}

/// `t` with each variable above `level` whose id is in `to` replaced by
/// the variable that `to` gives for that id.
pub open spec fn rename(t: TypeView, level: Level, to: Map<Id, (Id, Level)>) -> TypeView
    decreases t, 0nat,
{
    match t {
        TypeView::TypeVar(id, made_at) => if made_at > level && to.contains_key(id) {
            TypeView::TypeVar(to[id].0, to[id].1)
        } else {
            t
        },
        TypeView::Const(_) => t,
        TypeView::Generic(_) => t,
        TypeView::App(head, params) => TypeView::App(
            Box::new(rename(*head, level, to)),
            rename_all(params, level, to),
        ),
        TypeView::Arrow(params, ret) => TypeView::Arrow(
            rename_all(params, level, to),
            Box::new(rename(*ret, level, to)),
        ),
    }
}

/// `rename` of each type in `ts`.
pub open spec fn rename_all(ts: Seq<TypeView>, level: Level, to: Map<Id, (Id, Level)>) -> Seq<
    TypeView,
>
    decreases ts, 1nat,
{
    Seq::new(
        ts.len(),
        |i: int|
            if 0 <= i < ts.len() {
                rename(ts[i], level, to)
            } else {
                TypeView::Generic(0)
            },
    )
}

/// Whether `to` has an entry for the id of every variable above `level`
/// in `t`.
pub open spec fn covers(t: TypeView, level: Level, to: Map<Id, (Id, Level)>) -> bool
    decreases t,
{
    match t {
        TypeView::TypeVar(id, made_at) => made_at > level ==> to.contains_key(id),
        TypeView::Const(_) => true,
        TypeView::Generic(_) => true,
        TypeView::App(head, params) => covers(*head, level, to) && forall|i: int|
            0 <= i < params.len() ==> covers(#[trigger] params[i], level, to),
        TypeView::Arrow(params, ret) => covers(*ret, level, to) && forall|i: int|
            0 <= i < params.len() ==> covers(#[trigger] params[i], level, to),
    }
}

/// Whether `to` renames consistently to fresh variables: each id goes to
/// a variable at `level` with an id from `base` up to `next`, and no two
/// ids go to the same one.
pub open spec fn fresh_renaming(
    to: Map<Id, (Id, Level)>,
    level: Level,
    base: Id,
    next: Id,
) -> bool {
    &&& forall|k: Id| #[trigger]
        to.contains_key(k) ==> to[k].1 == level && base <= to[k].0 < next
    &&& forall|j: Id, k: Id|
        to.contains_key(j) && to.contains_key(k) && j != k ==> #[trigger] to[j].0
            != #[trigger] to[k].0
}

/// A renaming that has an entry for every variable it has to rename in
/// `t` renames `t` as any renaming does that holds as much.
proof fn lemma_rename_stable(
    t: TypeView,
    level: Level,
    to: Map<Id, (Id, Level)>,
    more: Map<Id, (Id, Level)>,
)
    requires
        to.submap_of(more),
        covers(t, level, to),
    ensures
        covers(t, level, more),
        rename(t, level, more) == rename(t, level, to),
    decreases t, 0nat,
{
    match t {
        TypeView::TypeVar(id, made_at) => {
            if made_at > level {
                assert(to.dom().contains(id));
            }
        },
        TypeView::Const(_) => {},
        TypeView::Generic(_) => {},
        TypeView::App(head, params) => {
            lemma_rename_stable(*head, level, to, more);
            lemma_rename_all_stable(params, level, to, more);
        },
        TypeView::Arrow(params, ret) => {
            lemma_rename_stable(*ret, level, to, more);
            lemma_rename_all_stable(params, level, to, more);
        },
    }
}

/// As `lemma_rename_stable`, for a list of types.
proof fn lemma_rename_all_stable(
    ts: Seq<TypeView>,
    level: Level,
    to: Map<Id, (Id, Level)>,
    more: Map<Id, (Id, Level)>,
)
    requires
        to.submap_of(more),
        forall|i: int| 0 <= i < ts.len() ==> covers(#[trigger] ts[i], level, to),
    ensures
        forall|i: int| 0 <= i < ts.len() ==> covers(#[trigger] ts[i], level, more),
        rename_all(ts, level, more) == rename_all(ts, level, to),
    decreases ts, 1nat,
{
    assert forall|i: int| 0 <= i < ts.len() implies covers(#[trigger] ts[i], level, more)
        && rename(ts[i], level, more) == rename(ts[i], level, to) by {
        lemma_rename_stable(ts[i], level, to, more);
    }
    assert(rename_all(ts, level, more) =~= rename_all(ts, level, to));
}

/// What holds as much as something that holds as much holds as much.
proof fn lemma_memo_trans(
    a: Map<Id, (Id, Level)>,
    b: Map<Id, (Id, Level)>,
    c: Map<Id, (Id, Level)>,
)
    requires
        a.submap_of(b),
        b.submap_of(c),
    ensures
        a.submap_of(c),
{
    assert forall|k: Id| #[trigger] a.dom().contains(k) implies c.dom().contains(k) && a[k]
        == c[k] by {
        assert(b.dom().contains(k));
    }
}

/// What `lemma_instantiate_generalize` says, for an instantiation that is
/// under way.
proof fn lemma_roundtrip_at(
    t: TypeView,
    level: Level,
    memo: Map<Id, (Id, Level)>,
    next_id: Id,
    base: Id,
    m: Bindings,
    fuel_g: nat,
    fuel_i: nat,
)
    requires
        settled(t, m),
        fresh_renaming(memo, level, base, next_id),
        base <= next_id,
    ensures
        ({
            let i = instantiate_at(
                generalize_at(t, level, m, fuel_g),
                level,
                memo,
                next_id,
                m,
                fuel_i,
            );
            match i.result {
                Ok(r) => {
                    &&& memo.submap_of(i.memo)
                    &&& fresh_renaming(i.memo, level, base, i.next_id)
                    &&& next_id <= i.next_id
                    &&& covers(t, level, i.memo)
                    &&& r == rename(t, level, i.memo)
                },
                Err(e) => e == ErrorView::IdsExhausted,
            }
        }),
    decreases t, 0nat,
{
    match t {
        TypeView::TypeVar(id, made_at) => {
            assert(resolve(m, id, made_at) is None);
            if made_at > level {
                if !memo.contains_key(id) && next_id != usize::MAX {
                    let after = memo.insert(id, (next_id, level));
                    assert(memo.submap_of(after));
                    assert(fresh_renaming(after, level, base, (next_id + 1) as Id));
                }
            }
        },
        TypeView::Const(_) => {},
        TypeView::Generic(_) => {},
        TypeView::App(head, params) => {
            lemma_roundtrip_at(*head, level, memo, next_id, base, m, fuel_g, fuel_i);
            let h = instantiate_at(
                generalize_at(*head, level, m, fuel_g),
                level,
                memo,
                next_id,
                m,
                fuel_i,
            );
            if h.result is Ok {
                lemma_roundtrip_all(params, level, h.memo, h.next_id, base, m, fuel_g, fuel_i);
                let ps = instantiate_all(
                    generalize_all(params, level, m, fuel_g),
                    level,
                    h.memo,
                    h.next_id,
                    m,
                    fuel_i,
                );
                if ps.result is Ok {
                    lemma_memo_trans(memo, h.memo, ps.memo);
                    lemma_rename_stable(*head, level, h.memo, ps.memo);
                }
            }
        },
        TypeView::Arrow(params, ret) => {
            lemma_roundtrip_all(params, level, memo, next_id, base, m, fuel_g, fuel_i);
            let ps = instantiate_all(
                generalize_all(params, level, m, fuel_g),
                level,
                memo,
                next_id,
                m,
                fuel_i,
            );
            if ps.result is Ok {
                lemma_roundtrip_at(*ret, level, ps.memo, ps.next_id, base, m, fuel_g, fuel_i);
                let r = instantiate_at(
                    generalize_at(*ret, level, m, fuel_g),
                    level,
                    ps.memo,
                    ps.next_id,
                    m,
                    fuel_i,
                );
                if r.result is Ok {
                    lemma_memo_trans(memo, ps.memo, r.memo);
                    lemma_rename_all_stable(params, level, ps.memo, r.memo);
                }
            }
        },
    }
}

/// As `lemma_roundtrip_at`, for a list of types.
proof fn lemma_roundtrip_all(
    ts: Seq<TypeView>,
    level: Level,
    memo: Map<Id, (Id, Level)>,
    next_id: Id,
    base: Id,
    m: Bindings,
    fuel_g: nat,
    fuel_i: nat,
)
    requires
        forall|i: int| 0 <= i < ts.len() ==> settled(#[trigger] ts[i], m),
        fresh_renaming(memo, level, base, next_id),
        base <= next_id,
    ensures
        ({
            let i = instantiate_all(
                generalize_all(ts, level, m, fuel_g),
                level,
                memo,
                next_id,
                m,
                fuel_i,
            );
            match i.result {
                Ok(r) => {
                    &&& memo.submap_of(i.memo)
                    &&& fresh_renaming(i.memo, level, base, i.next_id)
                    &&& next_id <= i.next_id
                    &&& forall|j: int| 0 <= j < ts.len() ==> covers(#[trigger] ts[j], level, i.memo)
                    &&& r == rename_all(ts, level, i.memo)
                },
                Err(e) => e == ErrorView::IdsExhausted,
            }
        }),
    decreases ts, 1nat,
{
    let gs = generalize_all(ts, level, m, fuel_g);
    if ts.len() == 0 {
        let i = instantiate_all(gs, level, memo, next_id, m, fuel_i);
        assert(i.result == Ok::<Seq<TypeView>, ErrorView>(Seq::empty()));
        assert(rename_all(ts, level, memo) =~= Seq::<TypeView>::empty());
    } else {
        let front = ts.drop_last();
        assert(gs.drop_last() =~= generalize_all(front, level, m, fuel_g));
        assert(gs.last() == generalize_at(ts.last(), level, m, fuel_g));
        assert forall|i: int| 0 <= i < front.len() implies settled(#[trigger] front[i], m) by {
            assert(front[i] == ts[i]);
        }
        lemma_roundtrip_all(front, level, memo, next_id, base, m, fuel_g, fuel_i);
        let before = instantiate_all(gs.drop_last(), level, memo, next_id, m, fuel_i);
        if before.result is Ok {
            assert(settled(ts[ts.len() - 1], m));
            lemma_roundtrip_at(
                ts.last(),
                level,
                before.memo,
                before.next_id,
                base,
                m,
                fuel_g,
                fuel_i,
            );
            let last = instantiate_at(gs.last(), level, before.memo, before.next_id, m, fuel_i);
            if last.result is Ok {
                lemma_memo_trans(memo, before.memo, last.memo);
                lemma_rename_all_stable(front, level, before.memo, last.memo);
                assert forall|j: int| 0 <= j < ts.len() implies covers(
                    #[trigger] ts[j],
                    level,
                    last.memo,
                ) by {
                    if j < front.len() {
                        assert(front[j] == ts[j]);
                    }
                }
                assert(rename_all(front, level, last.memo).push(
                    rename(ts.last(), level, last.memo),
                ) =~= rename_all(ts, level, last.memo));
            }
        }
    }
}

/// Generalising a type at a level and instantiating the scheme at that
/// level gives the type back up to a consistent renaming of its
/// variables: for a type `t` that holds no generic placeholder and no
/// resolved variable, the outcome is `t` with each variable above `level`
/// renamed, the same id always to the same fresh variable at `level` and
/// different ids to different ones. The only way for the instantiation to
/// fail is to run out of ids.
pub proof fn lemma_instantiate_generalize(t: TypeView, level: Level, next_id: Id, m: Bindings)
    requires
        settled(t, m),
    ensures
        ({
            let i = instantiate_spec(generalize_spec(t, level, m), level, next_id, m);
            match i.result {
                Ok(r) => {
                    &&& r == rename(t, level, i.memo)
                    &&& covers(t, level, i.memo)
                    &&& fresh_renaming(i.memo, level, next_id, i.next_id)
                },
                Err(e) => e == ErrorView::IdsExhausted,
            }
        }),
{
    lemma_roundtrip_at(
        t,
        level,
        Map::empty(),
        next_id,
        next_id,
        m,
        m.dom().len(),
        m.dom().len(),
    );
}

/// Whether every variable in `t` that `m` does not resolve was made at
/// `level` or below it.
pub open spec fn rigid(t: TypeView, level: Level, m: Bindings) -> bool
    decreases t,
{
    match t {
        TypeView::TypeVar(id, made_at) => m.contains_key((id, made_at)) || made_at <= level,
        TypeView::Const(_) => true,
        TypeView::Generic(_) => true,
        TypeView::App(head, params) => rigid(*head, level, m) && forall|i: int|
            0 <= i < params.len() ==> rigid(#[trigger] params[i], level, m),
        TypeView::Arrow(params, ret) => rigid(*ret, level, m) && forall|i: int|
            0 <= i < params.len() ==> rigid(#[trigger] params[i], level, m),
    }
}

/// Generalising at a level leaves no unresolved variable from above it:
/// every one of them has become generic.
pub proof fn lemma_generalize_rigid(t: TypeView, level: Level, m: Bindings, fuel: nat)
    ensures
        rigid(generalize_at(t, level, m, fuel), level, m),
    decreases fuel, t,
{
    match t {
        TypeView::TypeVar(id, made_at) => {
            match resolve(m, id, made_at) {
                Some(binding) => {
                    if fuel > 0 {
                        lemma_generalize_rigid(binding, level, m, (fuel - 1) as nat);
                    }
                },
                None => {},
            }
        },
        TypeView::Const(_) => {},
        TypeView::Generic(_) => {},
        TypeView::App(head, params) => {
            lemma_generalize_rigid(*head, level, m, fuel);
            let after = generalize_all(params, level, m, fuel);
            assert forall|i: int| 0 <= i < after.len() implies rigid(
                #[trigger] after[i],
                level,
                m,
            ) by {
                lemma_generalize_rigid(params[i], level, m, fuel);
            }
        },
        TypeView::Arrow(params, ret) => {
            lemma_generalize_rigid(*ret, level, m, fuel);
            let after = generalize_all(params, level, m, fuel);
            assert forall|i: int| 0 <= i < after.len() implies rigid(
                #[trigger] after[i],
                level,
                m,
            ) by {
                lemma_generalize_rigid(params[i], level, m, fuel);
            }
        },
    }
}

/// Whether the variable `key` stands somewhere in `t`.
pub open spec fn occurs(key: (Id, Level), t: TypeView) -> bool
    decreases t,
{
    match t {
        TypeView::TypeVar(id, level) => key == (id, level),
        TypeView::Const(_) => false,
        TypeView::Generic(_) => false,
        TypeView::App(head, params) => occurs(key, *head) || exists|i: int|
            0 <= i < params.len() && occurs(key, #[trigger] params[i]),
        TypeView::Arrow(params, ret) => occurs(key, *ret) || exists|i: int|
            0 <= i < params.len() && occurs(key, #[trigger] params[i]),
    }
}

/// Whether `from` is resolved and `to` stands in what `from` resolves to.
pub open spec fn leads_to(m: Bindings, from: (Id, Level), to: (Id, Level)) -> bool {
    m.contains_key(from) && occurs(to, resolve(m, from.0, from.1)->0)
}

/// Whether `way` is a run of resolved variables each of which leads to the
/// next.
pub open spec fn is_way(m: Bindings, way: Seq<(Id, Level)>) -> bool {
    forall|i: int|
        0 <= i < way.len() ==> m.contains_key(#[trigger] way[i]) && (i + 1 < way.len()
            ==> leads_to(m, way[i], way[i + 1]))
}

/// Whether no resolution in `m` leads back to itself: no run of resolved
/// variables each of which leads to the next passes a variable twice.
pub open spec fn loop_free(m: Bindings) -> bool {
    forall|way: Seq<(Id, Level)>| #[trigger] is_way(m, way) ==> way.no_duplicates()
}

/// Whether following the resolutions in `t` for `fuel` deep reaches the
/// end of every one of them.
pub open spec fn ends_within(t: TypeView, m: Bindings, fuel: nat) -> bool
    decreases fuel, t,
{
    match t {
        TypeView::TypeVar(id, level) => match resolve(m, id, level) {
            Some(binding) => fuel > 0 && ends_within(binding, m, (fuel - 1) as nat),
            None => true,
        },
        TypeView::Const(_) => true,
        TypeView::Generic(_) => true,
        TypeView::App(head, params) => ends_within(*head, m, fuel) && forall|i: int|
            0 <= i < params.len() ==> ends_within(#[trigger] params[i], m, fuel),
        TypeView::Arrow(params, ret) => ends_within(*ret, m, fuel) && forall|i: int|
            0 <= i < params.len() ==> ends_within(#[trigger] params[i], m, fuel),
    }
}

/// Where no resolution leads back to itself, a run of resolved variables
/// is no longer than there are resolved variables.
proof fn lemma_way_is_short(m: Bindings, way: Seq<(Id, Level)>)
    requires
        m.dom().finite(),
        loop_free(m),
        is_way(m, way),
    ensures
        way.len() <= m.dom().len(),
{
    assert(way.no_duplicates());
    way.unique_seq_to_set();
    assert(way.to_set().subset_of(m.dom())) by {
        assert forall|k: (Id, Level)| way.to_set().contains(k) implies m.dom().contains(k) by {
            let i = choose|i: int| 0 <= i < way.len() && way[i] == k;
            assert(m.contains_key(way[i]));
        }
    }
    vstd::set_lib::lemma_len_subset(way.to_set(), m.dom());
}

/// What `lemma_resolutions_end` says, for a type that has been reached
/// along `way` with `fuel` left.
proof fn lemma_ends_along(t: TypeView, m: Bindings, way: Seq<(Id, Level)>, fuel: nat)
    requires
        m.dom().finite(),
        loop_free(m),
        is_way(m, way),
        way.len() + fuel == m.dom().len(),
        forall|k: (Id, Level)|
            occurs(k, t) && way.len() > 0 ==> #[trigger] leads_to(m, way.last(), k),
    ensures
        ends_within(t, m, fuel),
    decreases fuel, t,
{
    match t {
        TypeView::TypeVar(id, level) => {
            match resolve(m, id, level) {
                Some(binding) => {
                    let key = (id, level);
                    let longer = way.push(key);
                    assert(m.contains_key(key));
                    assert(occurs(key, t));
                    assert forall|i: int| 0 <= i < longer.len() implies m.contains_key(
                        #[trigger] longer[i],
                    ) && (i + 1 < longer.len() ==> leads_to(m, longer[i], longer[i + 1])) by {
                        if i < way.len() {
                            assert(longer[i] == way[i]);
                            assert(m.contains_key(way[i]));
                            if i + 1 < way.len() {
                                assert(longer[i + 1] == way[i + 1]);
                            } else {
                                assert(way[i] == way.last());
                                assert(leads_to(m, way.last(), key));
                            }
                        }
                    }
                    assert(is_way(m, longer));
                    lemma_way_is_short(m, longer);
                    assert forall|k: (Id, Level)|
                        occurs(k, binding) && longer.len() > 0 implies #[trigger] leads_to(
                        m,
                        longer.last(),
                        k,
                    ) by {
                        assert(longer.last() == key);
                    }
                    lemma_ends_along(binding, m, longer, (fuel - 1) as nat);
                },
                None => {},
            }
        },
        TypeView::Const(_) => {},
        TypeView::Generic(_) => {},
        TypeView::App(head, params) => {
            assert forall|k: (Id, Level)|
                occurs(k, *head) && way.len() > 0 implies #[trigger] leads_to(m, way.last(), k) by {
                assert(occurs(k, t));
            }
            lemma_ends_along(*head, m, way, fuel);
            assert forall|i: int| 0 <= i < params.len() implies ends_within(
                #[trigger] params[i],
                m,
                fuel,
            ) by {
                assert forall|k: (Id, Level)|
                    occurs(k, params[i]) && way.len() > 0 implies #[trigger] leads_to(
                    m,
                    way.last(),
                    k,
                ) by {
                    assert(occurs(k, t));
                }
                lemma_ends_along(params[i], m, way, fuel);
            }
        },
        TypeView::Arrow(params, ret) => {
            assert forall|k: (Id, Level)|
                occurs(k, *ret) && way.len() > 0 implies #[trigger] leads_to(m, way.last(), k) by {
                assert(occurs(k, t));
            }
            lemma_ends_along(*ret, m, way, fuel);
            assert forall|i: int| 0 <= i < params.len() implies ends_within(
                #[trigger] params[i],
                m,
                fuel,
            ) by {
                assert forall|k: (Id, Level)|
                    occurs(k, params[i]) && way.len() > 0 implies #[trigger] leads_to(
                    m,
                    way.last(),
                    k,
                ) by {
                    assert(occurs(k, t));
                }
                lemma_ends_along(params[i], m, way, fuel);
            }
        },
    }
}

/// Where no resolution leads back to itself, following resolutions as
/// deep as there are resolved variables reaches the end of every one of
/// them, whatever the type.
pub proof fn lemma_resolutions_end(t: TypeView, m: Bindings)
    requires
        m.dom().finite(),
        loop_free(m),
    ensures
        ends_within(t, m, m.dom().len()),
{
    let way = Seq::<(Id, Level)>::empty();
    assert(is_way(m, way));
    lemma_ends_along(t, m, way, m.dom().len());
}

/// Where the resolutions in `t` are followed to their ends, following
/// them deeper gives the same generalisation.
pub proof fn lemma_generalize_settles(t: TypeView, level: Level, m: Bindings, fuel: nat, more: nat)
    requires
        ends_within(t, m, fuel),
        fuel <= more,
    ensures
        generalize_at(t, level, m, more) == generalize_at(t, level, m, fuel),
    decreases fuel, t,
{
    match t {
        TypeView::TypeVar(id, made_at) => {
            match resolve(m, id, made_at) {
                Some(binding) => {
                    lemma_generalize_settles(
                        binding,
                        level,
                        m,
                        (fuel - 1) as nat,
                        (more - 1) as nat,
                    );
                },
                None => {},
            }
        },
        TypeView::Const(_) => {},
        TypeView::Generic(_) => {},
        TypeView::App(head, params) => {
            lemma_generalize_settles(*head, level, m, fuel, more);
            assert forall|i: int| 0 <= i < params.len() implies generalize_at(
                params[i],
                level,
                m,
                more,
            ) == generalize_at(#[trigger] params[i], level, m, fuel) by {
                lemma_generalize_settles(params[i], level, m, fuel, more);
            }
            assert(generalize_all(params, level, m, more) =~= generalize_all(
                params,
                level,
                m,
                fuel,
            ));
        },
        TypeView::Arrow(params, ret) => {
            lemma_generalize_settles(*ret, level, m, fuel, more);
            assert forall|i: int| 0 <= i < params.len() implies generalize_at(
                params[i],
                level,
                m,
                more,
            ) == generalize_at(#[trigger] params[i], level, m, fuel) by {
                lemma_generalize_settles(params[i], level, m, fuel, more);
            }
            assert(generalize_all(params, level, m, more) =~= generalize_all(
                params,
                level,
                m,
                fuel,
            ));
        },
    }
}

/// Where the resolutions in `t` are followed to their ends, following
/// them deeper gives the same instantiation.
pub proof fn lemma_instantiate_settles(
    t: TypeView,
    level: Level,
    memo: Map<Id, (Id, Level)>,
    next_id: Id,
    m: Bindings,
    fuel: nat,
    more: nat,
)
    requires
        ends_within(t, m, fuel),
        fuel <= more,
    ensures
        instantiate_at(t, level, memo, next_id, m, more) == instantiate_at(
            t,
            level,
            memo,
            next_id,
            m,
            fuel,
        ),
    decreases fuel, t, 0nat,
{
    match t {
        TypeView::TypeVar(id, made_at) => {
            match resolve(m, id, made_at) {
                Some(binding) => {
                    lemma_instantiate_settles(
                        binding,
                        made_at,
                        memo,
                        next_id,
                        m,
                        (fuel - 1) as nat,
                        (more - 1) as nat,
                    );
                },
                None => {},
            }
        },
        TypeView::Const(_) => {},
        TypeView::Generic(_) => {},
        TypeView::App(head, params) => {
            lemma_instantiate_settles(*head, level, memo, next_id, m, fuel, more);
            let h = instantiate_at(*head, level, memo, next_id, m, fuel);
            lemma_instantiate_all_settles(params, level, h.memo, h.next_id, m, fuel, more);
        },
        TypeView::Arrow(params, ret) => {
            lemma_instantiate_all_settles(params, level, memo, next_id, m, fuel, more);
            let ps = instantiate_all(params, level, memo, next_id, m, fuel);
            lemma_instantiate_settles(*ret, level, ps.memo, ps.next_id, m, fuel, more);
        },
    }
}

/// As `lemma_instantiate_settles`, for a list of types.
pub proof fn lemma_instantiate_all_settles(
    ts: Seq<TypeView>,
    level: Level,
    memo: Map<Id, (Id, Level)>,
    next_id: Id,
    m: Bindings,
    fuel: nat,
    more: nat,
)
    requires
        forall|i: int| 0 <= i < ts.len() ==> ends_within(#[trigger] ts[i], m, fuel),
        fuel <= more,
    ensures
        instantiate_all(ts, level, memo, next_id, m, more) == instantiate_all(
            ts,
            level,
            memo,
            next_id,
            m,
            fuel,
        ),
    decreases fuel, ts, 1nat,
{
    if ts.len() > 0 {
        let front = ts.drop_last();
        assert forall|i: int| 0 <= i < front.len() implies ends_within(
            #[trigger] front[i],
            m,
            fuel,
        ) by {
            assert(front[i] == ts[i]);
        }
        lemma_instantiate_all_settles(front, level, memo, next_id, m, fuel, more);
        let before = instantiate_all(front, level, memo, next_id, m, fuel);
        assert(ends_within(ts[ts.len() - 1], m, fuel));
        lemma_instantiate_settles(ts.last(), level, before.memo, before.next_id, m, fuel, more);
    }
}

/// A closed type holds no variable: every one has given way to what it
/// stands for or become generic.
pub proof fn lemma_close_ground(t: TypeView, m: Bindings, fuel: nat)
    ensures
        match close_at(t, m, fuel) {
            Ok(r) => ground(r),
            Err(_) => true,
        },
    decreases fuel, t, 0nat,
{
    match t {
        TypeView::TypeVar(id, level) => {
            match resolve(m, id, level) {
                Some(binding) => {
                    if fuel > 0 {
                        lemma_close_ground(binding, m, (fuel - 1) as nat);
                    }
                },
                None => {},
            }
        },
        TypeView::Const(_) => {},
        TypeView::Generic(_) => {},
        TypeView::App(head, params) => {
            lemma_close_ground(*head, m, fuel);
            lemma_close_all_ground(params, m, fuel, params.len());
        },
        TypeView::Arrow(params, ret) => {
            lemma_close_ground(*ret, m, fuel);
            lemma_close_all_ground(params, m, fuel, params.len());
        },
    }
}

/// As `lemma_close_ground`, for the first `n` types of a list.
pub proof fn lemma_close_all_ground(ts: Seq<TypeView>, m: Bindings, fuel: nat, n: nat)
    ensures
        match close_all(ts, m, fuel, n) {
            Ok(rs) => forall|i: int| 0 <= i < rs.len() ==> ground(#[trigger] rs[i]),
            Err(_) => true,
        },
    decreases fuel, ts, n,
{
    if n > 0 && n <= ts.len() {
        lemma_close_all_ground(ts, m, fuel, (n - 1) as nat);
        lemma_close_ground(ts[n - 1], m, fuel);
    }
}

/// The parts of a type that holds no variable hold none.
proof fn lemma_ground_parts(t: TypeView)
    requires
        ground(t),
    ensures
        match t {
            TypeView::App(head, params) => ground(*head) && forall|i: int|
                0 <= i < params.len() ==> ground(#[trigger] params[i]),
            TypeView::Arrow(params, ret) => ground(*ret) && forall|i: int|
                0 <= i < params.len() ==> ground(#[trigger] params[i]),
            _ => true,
        },
{
}

/// Closing is generalising at a level below every level: where the
/// generalisation of `t` at `level` leaves no variable, it is the closed
/// type.
pub proof fn lemma_close_generalizes(t: TypeView, level: Level, m: Bindings, fuel: nat)
    requires
        ground(generalize_at(t, level, m, fuel)),
    ensures
        close_at(t, m, fuel) == Ok::<TypeView, ErrorView>(generalize_at(t, level, m, fuel)),
    decreases fuel, t, 0nat,
{
    match t {
        TypeView::TypeVar(id, made_at) => {
            match resolve(m, id, made_at) {
                Some(binding) => {
                    if fuel > 0 {
                        lemma_close_generalizes(binding, level, m, (fuel - 1) as nat);
                    }
                },
                None => {},
            }
        },
        TypeView::Const(_) => {},
        TypeView::Generic(_) => {},
        TypeView::App(head, params) => {
            let all = generalize_all(params, level, m, fuel);
            let whole = TypeView::App(Box::new(generalize_at(*head, level, m, fuel)), all);
            assert(generalize_at(t, level, m, fuel) == whole);
            assert(all.len() == params.len());
            lemma_ground_parts(whole);
            lemma_close_generalizes(*head, level, m, fuel);
            lemma_close_all_generalizes(params, level, m, fuel, params.len());
            assert(generalize_all(params, level, m, fuel).take(params.len() as int)
                =~= generalize_all(params, level, m, fuel));
        },
        TypeView::Arrow(params, ret) => {
            let all = generalize_all(params, level, m, fuel);
            let whole = TypeView::Arrow(all, Box::new(generalize_at(*ret, level, m, fuel)));
            assert(generalize_at(t, level, m, fuel) == whole);
            assert(all.len() == params.len());
            lemma_ground_parts(whole);
            lemma_close_generalizes(*ret, level, m, fuel);
            lemma_close_all_generalizes(params, level, m, fuel, params.len());
            assert(generalize_all(params, level, m, fuel).take(params.len() as int)
                =~= generalize_all(params, level, m, fuel));
        },
    }
}

/// As `lemma_close_generalizes`, for the first `n` types of a list.
pub proof fn lemma_close_all_generalizes(
    ts: Seq<TypeView>,
    level: Level,
    m: Bindings,
    fuel: nat,
    n: nat,
)
    requires
        n <= ts.len(),
        forall|i: int|
            0 <= i < ts.len() ==> ground(#[trigger] generalize_all(ts, level, m, fuel)[i]),
    ensures
        close_all(ts, m, fuel, n) == Ok::<Seq<TypeView>, ErrorView>(
            generalize_all(ts, level, m, fuel).take(n as int),
        ),
    decreases fuel, ts, n,
{
    let all = generalize_all(ts, level, m, fuel);
    if n == 0 {
        assert(all.take(0) =~= Seq::<TypeView>::empty());
    } else {
        lemma_close_all_generalizes(ts, level, m, fuel, (n - 1) as nat);
        assert(ground(all[n - 1]));
        lemma_close_generalizes(ts[n - 1], level, m, fuel);
        assert(all.take(n as int) =~= all.take(n - 1).push(all[n - 1]));
    }
}

} // verus!
