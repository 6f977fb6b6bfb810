//! Type inference: unification, generalisation and instantiation by levels,
//! and the walk over a term that puts them together.

use vstd::prelude::*;
use std::collections::HashMap;
use crate::env::{chase, Bindable, Env, Gen, Id, Level};
use crate::laws::growth::{
    adds_no_generic, lemma_unify_adds_no_generic, lemma_unify_grows, lemma_unify_lowers,
    only_lowers,
};
use crate::laws::order::ground;
use crate::laws::schemes::{lemma_close_ground, lemma_generalize_rigid, rigid};
use crate::laws::sound::{lemma_unify_sound, same_under};
use crate::types::{
    clone_types, generic_free, names_view, term_view, terms_view, type_view, types_view, Error,
    ErrorView, Term, TermView, Type, TypeView, MAX_DEPTH,
};

verus! {

/// The resolutions of the type variables, as mathematical values.
pub type Bindings = Map<(Id, Level), TypeView>;

/// The names in scope, as mathematical values.
pub type Scope = Map<Seq<char>, TypeView>;

/// The resolutions that `env` holds.
pub open spec fn bindings_view(env: Env<Type>) -> Bindings {
    env.bindings().map_values(|t: Type| t@)
}

/// The names that `env` has in scope.
pub open spec fn scope_view(env: Env<Type>) -> Scope {
    env.names().map_values(|t: Type| t@)
}

/// What the variable `id` at `level` resolves to in `m`: the end of the
/// chain of variables that starts at its resolution, `None` where it has
/// none.
pub open spec fn resolve(m: Bindings, id: Id, level: Level) -> Option<TypeView> {
    chase(m, |t: TypeView| t.as_var(), (id, level), m.dom().len())
}

/// Following a chain through types and through the values they are
/// modelled by comes to the same.
proof fn lemma_chase_view(
    m: Map<(Id, Level), Type>,
    f: spec_fn(Type) -> Option<(Id, Level)>,
    g: spec_fn(TypeView) -> Option<(Id, Level)>,
    key: (Id, Level),
    fuel: nat,
)
    requires
        forall|t: Type| #[trigger] f(t) == t@.as_var(),
        forall|t: TypeView| #[trigger] g(t) == t.as_var(),
    ensures
        chase(m.map_values(|t: Type| t@), g, key, fuel) == match chase(m, f, key, fuel) {
            Some(t) => Some(t@),
            None => None,
        },
    decreases fuel,
{
    if m.contains_key(key) {
        match f(m[key]) {
            Some(next) => {
                if fuel > 0 {
                    lemma_chase_view(m, f, g, next, (fuel - 1) as nat);
                }
            },
            None => {},
        }
    }
}

/// What `env` resolves the variable `id` at `level` to.
fn lookup_type(env: &Env<Type>, id: Id, level: Level) -> (r: Option<&Type>)
    requires
        env.wf(),
    ensures
        match r {
            Some(t) => Some(t@),
            None => None,
        } == resolve(bindings_view(*env), id, level),
{
    proof {
        lemma_chase_view(
            env.bindings(),
            |t: Type| t.unbound_id_level(),
            |t: TypeView| t.as_var(),
            (id, level),
            env.bindings().dom().len(),
        );
        assert(bindings_view(*env).dom() =~= env.bindings().dom());
    }
    env.lookup_binding(id, level)
}

/// Records `t` as what the variable `id` at `level` stands for.
fn bind_type(env: &mut Env<Type>, id: Id, level: Level, t: Type)
    requires
        old(env).wf(),
    ensures
        final(env).wf(),
        bindings_view(*final(env)) == bindings_view(*old(env)).insert((id, level), t@),
        scope_view(*final(env)) == scope_view(*old(env)),
{
    let ghost tv = t@;
    env.bind(id, level, t);
    assert(bindings_view(*env) =~= bindings_view(*old(env)).insert((id, level), tv));
}

/// `t` with every variable that is unresolved in `m` and was made above
/// `level` turned into a generic placeholder, and every resolved variable
/// replaced by what it stands for. Resolutions are followed `fuel` deep.
pub open spec fn generalize_at(t: TypeView, level: Level, m: Bindings, fuel: nat) -> TypeView
    decreases fuel, t, 0nat,
{
    match t {
        TypeView::TypeVar(id, made_at) => match resolve(m, id, made_at) {
            Some(binding) => if fuel > 0 {
                generalize_at(binding, level, m, (fuel - 1) as nat)
            } else {
                t
            },
            None => if made_at > level {
                TypeView::Generic(id)
            } else {
                t
            },
        },
        TypeView::Const(_) => t,
        TypeView::Generic(_) => t,
        TypeView::App(head, params) => TypeView::App(
            Box::new(generalize_at(*head, level, m, fuel)),
            generalize_all(params, level, m, fuel),
        ),
        TypeView::Arrow(params, ret) => TypeView::Arrow(
            generalize_all(params, level, m, fuel),
            Box::new(generalize_at(*ret, level, m, fuel)),
        ),
    }
}

/// `generalize_at` of each type in `ts`.
pub open spec fn generalize_all(ts: Seq<TypeView>, level: Level, m: Bindings, fuel: nat) -> Seq<
    TypeView,
>
    decreases fuel, ts, 1nat,
{
    Seq::new(
        ts.len(),
        |i: int|
            if 0 <= i < ts.len() {
                generalize_at(ts[i], level, m, fuel)
            } else {
                TypeView::Generic(0)
            },
    )
}

/// The type scheme that `t` stands for outside a `let` at `level`: each
/// variable that is unresolved in `m` and was made inside the `let`, that
/// is at a level above `level`, becomes generic; the others stay, and
/// resolved ones give way to what they stand for. Resolutions are followed
/// as deep as there are resolved variables, which reaches the end of every
/// one of them unless one leads back to itself.
pub open spec fn generalize_spec(t: TypeView, level: Level, m: Bindings) -> TypeView {
    generalize_at(t, level, m, m.dom().len())
}

/// Generalises `t`, following resolutions `fuel` deep.
fn generalize_rec(t: &Type, level: Level, env: &Env<Type>, fuel: usize) -> (r: Type)
    requires
        env.wf(),
    ensures
        r@ == generalize_at(t@, level, bindings_view(*env), fuel as nat),
    decreases fuel, t, 0nat,
{
    match t {
        Type::TypeVar(id, made_at) => {
            match lookup_type(env, *id, *made_at) {
                Some(binding) => {
                    if fuel > 0 {
                        generalize_rec(binding, level, env, fuel - 1)
                    } else {
                        Type::TypeVar(*id, *made_at)
                    }
                },
                None => {
                    if *made_at > level {
                        Type::Generic(*id)
                    } else {
                        Type::TypeVar(*id, *made_at)
                    }
                },
            }
        },
        Type::Const(name) => Type::Const(name.clone()),
        Type::Generic(id) => Type::Generic(*id),
        Type::App(head, params) => {
            let h = generalize_rec(head, level, env, fuel);
            let ps = generalize_vec(params, level, env, fuel);
            Type::App(Box::new(h), ps)
        },
        Type::Arrow(params, ret) => {
            let ps = generalize_vec(params, level, env, fuel);
            let r = generalize_rec(ret, level, env, fuel);
            Type::Arrow(ps, Box::new(r))
        },
    }
}

/// Generalises each type in `ts`.
fn generalize_vec(ts: &Vec<Type>, level: Level, env: &Env<Type>, fuel: usize) -> (r: Vec<Type>)
    requires
        env.wf(),
    ensures
        types_view(r) == generalize_all(types_view(*ts), level, bindings_view(*env), fuel as nat),
    decreases fuel, ts, 1nat,
{
    let mut r: Vec<Type> = Vec::new();
    let mut i: usize = 0;
    while i < ts.len()
        invariant
            env.wf(),
            i <= ts.len(),
            r.len() == i,
            forall|j: int|
                0 <= j < i ==> type_view(r[j]) == generalize_at(
                    type_view(ts[j]),
                    level,
                    bindings_view(*env),
                    fuel as nat,
                ),
        decreases ts.len() - i,
    {
        r.push(generalize_rec(&ts[i], level, env, fuel));
        i = i + 1;
    }
    assert(types_view(r) =~= generalize_all(
        types_view(*ts),
        level,
        bindings_view(*env),
        fuel as nat,
    ));
    r
}

/// The type scheme that `t` stands for outside a `let` at `level`. No
/// unresolved variable from above `level` is left in it.
pub fn generalize(t: &Type, level: Level, env: &Env<Type>) -> (r: Type)
    requires
        env.wf(),
    ensures
        r@ == generalize_spec(t@, level, bindings_view(*env)),
        rigid(r@, level, bindings_view(*env)),
{
    proof {
        assert(bindings_view(*env).dom() =~= env.bindings().dom());
        lemma_generalize_rigid(
            t@,
            level,
            bindings_view(*env),
            bindings_view(*env).dom().len(),
        );
    }
    let fuel = env.binding_count();
    generalize_rec(t, level, env, fuel)
}

/// The outcome of a step of type inference, as a mathematical value.
pub open spec fn result_view(r: Result<Type, Error>) -> Result<TypeView, ErrorView> {
    match r {
        Ok(t) => Ok(t@),
        Err(e) => Err(e@),
    }
}

/// Where an instantiation stands: the type made so far or why there is
/// none, the variable made for each generic placeholder met, and the id
/// that the next fresh variable gets.
pub struct Instance {
    pub result: Result<TypeView, ErrorView>,
    pub memo: Map<Id, (Id, Level)>,
    pub next_id: Id,
}

/// Where the instantiation of a list of types stands.
pub struct Instances {
    pub result: Result<Seq<TypeView>, ErrorView>,
    pub memo: Map<Id, (Id, Level)>,
    pub next_id: Id,
}

/// `t` with each generic placeholder replaced by a variable at `level`: the
/// one that `memo` holds for its id, or else a fresh one, which is then
/// added to `memo`. A resolved variable gives way to what it stands for,
/// instantiated at that variable's own level. Resolutions are followed
/// `fuel` deep. Where a fresh variable is needed and `next_id` is the
/// last id, the outcome is `IdsExhausted`.
pub open spec fn instantiate_at(
    t: TypeView,
    level: Level,
    memo: Map<Id, (Id, Level)>,
    next_id: Id,
    m: Bindings,
    fuel: nat,
) -> Instance
    decreases fuel, t, 0nat,
{
    match t {
        TypeView::TypeVar(id, made_at) => match resolve(m, id, made_at) {
            Some(binding) => if fuel > 0 {
                instantiate_at(binding, made_at, memo, next_id, m, (fuel - 1) as nat)
            } else {
                Instance { result: Ok(t), memo, next_id }
            },
            None => Instance { result: Ok(t), memo, next_id },
        },
        TypeView::Const(_) => Instance { result: Ok(t), memo, next_id },
        TypeView::App(head, params) => {
            let h = instantiate_at(*head, level, memo, next_id, m, fuel);
            match h.result {
                Err(_) => h,
                Ok(hv) => {
                    let ps = instantiate_all(params, level, h.memo, h.next_id, m, fuel);
                    Instance {
                        result: match ps.result {
                            Ok(pv) => Ok(TypeView::App(Box::new(hv), pv)),
                            Err(e) => Err(e),
                        },
                        memo: ps.memo,
                        next_id: ps.next_id,
                    }
                },
            }
        },
        TypeView::Arrow(params, ret) => {
            let ps = instantiate_all(params, level, memo, next_id, m, fuel);
            match ps.result {
                Err(e) => Instance { result: Err(e), memo: ps.memo, next_id: ps.next_id },
                Ok(pv) => {
                    let r = instantiate_at(*ret, level, ps.memo, ps.next_id, m, fuel);
                    Instance {
                        result: match r.result {
                            Ok(rv) => Ok(TypeView::Arrow(pv, Box::new(rv))),
                            Err(e) => Err(e),
                        },
                        memo: r.memo,
                        next_id: r.next_id,
                    }
                },
            }
        },
        TypeView::Generic(id) => if memo.contains_key(id) {
            Instance { result: Ok(TypeView::TypeVar(memo[id].0, memo[id].1)), memo, next_id }
        } else if next_id == usize::MAX {
            Instance { result: Err(ErrorView::IdsExhausted), memo, next_id }
        } else {
            Instance {
                result: Ok(TypeView::TypeVar(next_id, level)),
                memo: memo.insert(id, (next_id, level)),
                next_id: (next_id + 1) as Id,
            }
        },
    }
}

/// `instantiate_at` of each type in `ts`, from the first to the last, each
/// going on from where the one before it stands. The first that fails ends
/// it.
pub open spec fn instantiate_all(
    ts: Seq<TypeView>,
    level: Level,
    memo: Map<Id, (Id, Level)>,
    next_id: Id,
    m: Bindings,
    fuel: nat,
) -> Instances
    decreases fuel, ts, 1nat,
{
    if ts.len() == 0 {
        Instances { result: Ok(Seq::empty()), memo, next_id }
    } else {
        let before = instantiate_all(ts.drop_last(), level, memo, next_id, m, fuel);
        match before.result {
            Err(_) => before,
            Ok(done) => {
                let last = instantiate_at(ts.last(), level, before.memo, before.next_id, m, fuel);
                Instances {
                    result: match last.result {
                        Ok(v) => Ok(done.push(v)),
                        Err(e) => Err(e),
                    },
                    memo: last.memo,
                    next_id: last.next_id,
                }
            },
        }
    }
}

/// A use of the type scheme `t` at `level`: each generic placeholder gives
/// way to a fresh variable at `level`, the same one wherever the same
/// placeholder stands; resolved variables give way to what they stand for.
/// The fresh variables get the ids from `next_id` on.
pub open spec fn instantiate_spec(t: TypeView, level: Level, next_id: Id, m: Bindings) -> Instance {
    instantiate_at(t, level, Map::empty(), next_id, m, m.dom().len())
}

/// Instantiates `t`, following resolutions `fuel` deep, with `memo` holding
/// the variables made so far.
fn instantiate_rec(
    t: &Type,
    level: Level,
    memo: &mut HashMap<Id, (Id, Level)>,
    gen: &mut Gen<Type>,
    env: &Env<Type>,
    fuel: usize,
) -> (r: Result<Type, Error>)
    requires
        env.wf(),
    ensures
        ({
            let i = instantiate_at(
                t@,
                level,
                old(memo)@,
                old(gen).next_id(),
                bindings_view(*env),
                fuel as nat,
            );
            &&& result_view(r) == i.result
            &&& final(memo)@ == i.memo
            &&& final(gen).next_id() == i.next_id
        }),
    decreases fuel, t, 0nat,
{
    broadcast use vstd::std_specs::hash::group_hash_axioms;

    match t {
        Type::TypeVar(id, made_at) => {
            match lookup_type(env, *id, *made_at) {
                Some(binding) => {
                    if fuel > 0 {
                        instantiate_rec(binding, *made_at, memo, gen, env, fuel - 1)
                    } else {
                        Ok(Type::TypeVar(*id, *made_at))
                    }
                },
                None => Ok(Type::TypeVar(*id, *made_at)),
            }
        },
        Type::Const(name) => Ok(Type::Const(name.clone())),
        Type::App(head, params) => {
            match instantiate_rec(head, level, memo, gen, env, fuel) {
                Err(e) => Err(e),
                Ok(h) => match instantiate_vec(params, level, memo, gen, env, fuel) {
                    Err(e) => Err(e),
                    Ok(ps) => Ok(Type::App(Box::new(h), ps)),
                },
            }
        },
        Type::Arrow(params, ret) => {
            match instantiate_vec(params, level, memo, gen, env, fuel) {
                Err(e) => Err(e),
                Ok(ps) => match instantiate_rec(ret, level, memo, gen, env, fuel) {
                    Err(e) => Err(e),
                    Ok(r) => Ok(Type::Arrow(ps, Box::new(r))),
                },
            }
        },
        Type::Generic(id) => {
            match memo.get(id) {
                Some(var) => Ok(Type::TypeVar(var.0, var.1)),
                None => {
                    if gen.exhausted() {
                        Err(Error::IdsExhausted)
                    } else {
                        let made = gen.peek();
                        let var = gen.newvar(Some(level));
                        memo.insert(*id, (made, level));
                        Ok(var)
                    }
                },
            }
        },
    }
}

/// Instantiates each type in `ts`, from the first to the last.
fn instantiate_vec(
    ts: &Vec<Type>,
    level: Level,
    memo: &mut HashMap<Id, (Id, Level)>,
    gen: &mut Gen<Type>,
    env: &Env<Type>,
    fuel: usize,
) -> (r: Result<Vec<Type>, Error>)
    requires
        env.wf(),
    ensures
        ({
            let i = instantiate_all(
                types_view(*ts),
                level,
                old(memo)@,
                old(gen).next_id(),
                bindings_view(*env),
                fuel as nat,
            );
            &&& match r {
                Ok(v) => i.result == Ok::<Seq<TypeView>, ErrorView>(types_view(v)),
                Err(e) => i.result == Err::<Seq<TypeView>, ErrorView>(e@),
            }
            &&& final(memo)@ == i.memo
            &&& final(gen).next_id() == i.next_id
        }),
    decreases fuel, ts, 1nat,
{
    let ghost tv = types_view(*ts);
    let ghost m = bindings_view(*env);
    let mut r: Vec<Type> = Vec::new();
    let mut i: usize = 0;
    assert(tv.take(0).len() == 0);
    assert(types_view(r) =~= Seq::empty());
    while i < ts.len()
        invariant
            env.wf(),
            tv == types_view(*ts),
            m == bindings_view(*env),
            i <= ts.len(),
            ({
                let done = instantiate_all(
                    tv.take(i as int),
                    level,
                    old(memo)@,
                    old(gen).next_id(),
                    m,
                    fuel as nat,
                );
                &&& done.result == Ok::<Seq<TypeView>, ErrorView>(types_view(r))
                &&& memo@ == done.memo
                &&& gen.next_id() == done.next_id
            }),
        decreases ts.len() - i,
    {
        proof {
            assert(tv.take(i + 1).drop_last() =~= tv.take(i as int));
            assert(tv.take(i + 1).last() == type_view(ts[i as int]));
        }
        let ghost before = types_view(r);
        match instantiate_rec(&ts[i], level, memo, gen, env, fuel) {
            Ok(t) => {
                r.push(t);
                assert(types_view(r) =~= before.push(t@));
            },
            Err(e) => {
                proof {
                    lemma_instantiate_all_stops(
                        tv,
                        i + 1,
                        level,
                        old(memo)@,
                        old(gen).next_id(),
                        m,
                        fuel as nat,
                    );
                }
                return Err(e);
            },
        }
        i = i + 1;
    }
    assert(tv.take(i as int) =~= tv);
    Ok(r)
}

/// Once a prefix of `ts` has failed, all of `ts` stands where the prefix
/// stands.
proof fn lemma_instantiate_all_stops(
    ts: Seq<TypeView>,
    n: int,
    level: Level,
    memo: Map<Id, (Id, Level)>,
    next_id: Id,
    m: Bindings,
    fuel: nat,
)
    requires
        0 <= n <= ts.len(),
        instantiate_all(ts.take(n), level, memo, next_id, m, fuel).result is Err,
    ensures
        instantiate_all(ts, level, memo, next_id, m, fuel) == instantiate_all(
            ts.take(n),
            level,
            memo,
            next_id,
            m,
            fuel,
        ),
    decreases ts.len() - n,
{
    if n < ts.len() {
        assert(ts.take(n + 1).drop_last() =~= ts.take(n));
        lemma_instantiate_all_stops(ts, n + 1, level, memo, next_id, m, fuel);
    } else {
        assert(ts.take(n) =~= ts);
    }
}

/// A use of the type scheme `t` at `level`, with fresh variables from `gen`.
pub fn instantiate(t: &Type, level: Level, gen: &mut Gen<Type>, env: &Env<Type>) -> (r: Result<
    Type,
    Error,
>)
    requires
        env.wf(),
    ensures
        ({
            let i = instantiate_spec(t@, level, old(gen).next_id(), bindings_view(*env));
            &&& result_view(r) == i.result
            &&& final(gen).next_id() == i.next_id
        }),
{
    proof {
        assert(bindings_view(*env).dom() =~= env.bindings().dom());
    }
    let fuel = env.binding_count();
    let mut memo: HashMap<Id, (Id, Level)> = HashMap::new();
    instantiate_rec(t, level, &mut memo, gen, env, fuel)
}

/// Where the lowering of levels stands: whether it went through, and the
/// resolutions after it.
pub struct Lowered {
    pub result: Result<(), ErrorView>,
    pub bindings: Bindings,
}

/// What becomes of `m` when the variable `id` at `level` has just been
/// resolved to something that holds `t`: every unresolved variable in `t`
/// that was made at a level above `level` is resolved to the variable of
/// the same id at `level`, so that it counts as made there. Where the
/// variable that it is lowered onto is resolved already, what that one
/// stands for is gone through in the same way, first for the lowered
/// variable's own id and then for `id`. A resolved variable is passed
/// through to what it stands for. Meeting a variable with the id that is
/// looked for is `InfiniteType`; meeting a generic placeholder, which no
/// variable may be resolved to, is a `UnificationFailure` of the variable
/// and the placeholder; nesting deeper than `depth` is `DepthExceeded`.
pub open spec fn lower_at(id: Id, level: Level, t: TypeView, m: Bindings, depth: nat) -> Lowered
    decreases depth, 0nat,
{
    if depth == 0 {
        Lowered { result: Err(ErrorView::DepthExceeded), bindings: m }
    } else {
        match t {
            TypeView::TypeVar(other, made_at) => if other == id {
                Lowered { result: Err(ErrorView::InfiniteType(id)), bindings: m }
            } else {
                match resolve(m, other, made_at) {
                    Some(binding) => lower_at(id, level, binding, m, (depth - 1) as nat),
                    None => if made_at > level {
                        let lowered = m.insert(
                            (other, made_at),
                            TypeView::TypeVar(other, level),
                        );
                        match resolve(m, other, level) {
                            Some(onto) => {
                                let own = lower_at(other, level, onto, lowered, (depth - 1) as nat);
                                match own.result {
                                    Err(_) => own,
                                    Ok(_) => lower_at(
                                        id,
                                        level,
                                        onto,
                                        own.bindings,
                                        (depth - 1) as nat,
                                    ),
                                }
                            },
                            None => Lowered { result: Ok(()), bindings: lowered },
                        }
                    } else {
                        Lowered { result: Ok(()), bindings: m }
                    },
                }
            },
            TypeView::Const(_) => Lowered { result: Ok(()), bindings: m },
            TypeView::Generic(_) => Lowered {
                result: Err(ErrorView::UnificationFailure(TypeView::TypeVar(id, level), t)),
                bindings: m,
            },
            TypeView::App(head, params) => {
                let h = lower_at(id, level, *head, m, (depth - 1) as nat);
                match h.result {
                    Err(_) => h,
                    Ok(_) => lower_all(id, level, params, h.bindings, (depth - 1) as nat),
                }
            },
            TypeView::Arrow(params, ret) => {
                let ps = lower_all(id, level, params, m, (depth - 1) as nat);
                match ps.result {
                    Err(_) => ps,
                    Ok(_) => lower_at(id, level, *ret, ps.bindings, (depth - 1) as nat),
                }
            },
        }
    }
}

/// `lower_at` for each type in `ts`, from the first to the last. The first
/// that fails ends it.
pub open spec fn lower_all(
    id: Id,
    level: Level,
    ts: Seq<TypeView>,
    m: Bindings,
    depth: nat,
) -> Lowered
    decreases depth, ts.len() + 1,
{
    if ts.len() == 0 {
        Lowered { result: Ok(()), bindings: m }
    } else {
        let before = lower_all(id, level, ts.drop_last(), m, depth);
        match before.result {
            Err(_) => before,
            Ok(_) => lower_at(id, level, ts.last(), before.bindings, depth),
        }
    }
}

/// Once a prefix of `ts` has failed, all of `ts` stands where the prefix
/// stands.
proof fn lemma_lower_all_stops(
    id: Id,
    level: Level,
    ts: Seq<TypeView>,
    n: int,
    m: Bindings,
    depth: nat,
)
    requires
        0 <= n <= ts.len(),
        lower_all(id, level, ts.take(n), m, depth).result is Err,
    ensures
        lower_all(id, level, ts, m, depth) == lower_all(id, level, ts.take(n), m, depth),
    decreases ts.len() - n,
{
    if n < ts.len() {
        assert(ts.take(n + 1).drop_last() =~= ts.take(n));
        lemma_lower_all_stops(id, level, ts, n + 1, m, depth);
    } else {
        assert(ts.take(n) =~= ts);
    }
}

/// Lowers to `level` the levels of the variables in `t`, which the
/// variable `id` has just been resolved to.
fn lower_rec(id: Id, level: Level, t: &Type, env: &mut Env<Type>, depth: usize) -> (r: Result<
    (),
    Error,
>)
    requires
        old(env).wf(),
    ensures
        final(env).wf(),
        scope_view(*final(env)) == scope_view(*old(env)),
        ({
            let w = lower_at(id, level, t@, bindings_view(*old(env)), depth as nat);
            &&& bindings_view(*final(env)) == w.bindings
            &&& match r {
                Ok(_) => w.result is Ok,
                Err(e) => w.result == Err::<(), ErrorView>(e@),
            }
        }),
    decreases depth, 0nat,
{
    if depth == 0 {
        return Err(Error::DepthExceeded);
    }
    match t {
        Type::TypeVar(other, made_at) => {
            if *other == id {
                return Err(Error::InfiniteType(id));
            }
            let found = match lookup_type(env, *other, *made_at) {
                Some(binding) => Some(binding.duplicate()),
                None => None,
            };
            match found {
                Some(binding) => lower_rec(id, level, &binding, env, depth - 1),
                None => {
                    if *made_at > level {
                        let onto = match lookup_type(env, *other, level) {
                            Some(binding) => Some(binding.duplicate()),
                            None => None,
                        };
                        bind_type(env, *other, *made_at, Type::TypeVar(*other, level));
                        match onto {
                            Some(binding) => {
                                match lower_rec(*other, level, &binding, env, depth - 1) {
                                    Err(e) => Err(e),
                                    Ok(_) => lower_rec(id, level, &binding, env, depth - 1),
                                }
                            },
                            None => Ok(()),
                        }
                    } else {
                        Ok(())
                    }
                },
            }
        },
        Type::Const(_) => Ok(()),
        Type::Generic(g) => Err(
            Error::UnificationFailure(Type::TypeVar(id, level), Type::Generic(*g)),
        ),
        Type::App(head, params) => {
            match lower_rec(id, level, head, env, depth - 1) {
                Err(e) => Err(e),
                Ok(_) => lower_vec(id, level, params, env, depth - 1),
            }
        },
        Type::Arrow(params, ret) => {
            match lower_vec(id, level, params, env, depth - 1) {
                Err(e) => Err(e),
                Ok(_) => lower_rec(id, level, ret, env, depth - 1),
            }
        },
    }
}

/// Lowers the levels of the variables in each type in `ts`, from the first
/// to the last.
fn lower_vec(id: Id, level: Level, ts: &Vec<Type>, env: &mut Env<Type>, depth: usize) -> (r: Result<
    (),
    Error,
>)
    requires
        old(env).wf(),
    ensures
        final(env).wf(),
        scope_view(*final(env)) == scope_view(*old(env)),
        ({
            let w = lower_all(id, level, types_view(*ts), bindings_view(*old(env)), depth as nat);
            &&& bindings_view(*final(env)) == w.bindings
            &&& match r {
                Ok(_) => w.result is Ok,
                Err(e) => w.result == Err::<(), ErrorView>(e@),
            }
        }),
    decreases depth, ts.len() + 1,
{
    let ghost tv = types_view(*ts);
    let ghost m = bindings_view(*env);
    let mut i: usize = 0;
    assert(tv.take(0).len() == 0);
    while i < ts.len()
        invariant
            env.wf(),
            scope_view(*env) == scope_view(*old(env)),
            tv == types_view(*ts),
            m == bindings_view(*old(env)),
            i <= ts.len(),
            ({
                let done = lower_all(id, level, tv.take(i as int), m, depth as nat);
                &&& done.result is Ok
                &&& bindings_view(*env) == done.bindings
            }),
        decreases ts.len() - i,
    {
        proof {
            assert(tv.take(i + 1).drop_last() =~= tv.take(i as int));
            assert(tv.take(i + 1).last() == type_view(ts[i as int]));
        }
        match lower_rec(id, level, &ts[i], env, depth) {
            Ok(_) => {},
            Err(e) => {
                proof {
                    lemma_lower_all_stops(id, level, tv, i + 1, m, depth as nat);
                }
                return Err(e);
            },
        }
        i = i + 1;
    }
    assert(tv.take(i as int) =~= tv);
    Ok(())
}

/// Where a unification stands: the type that both sides have become or why
/// they cannot, and the resolutions after it.
pub struct Unified {
    pub result: Result<TypeView, ErrorView>,
    pub bindings: Bindings,
}

/// Where the unification of two lists of types stands.
pub struct UnifiedAll {
    pub result: Result<Seq<TypeView>, ErrorView>,
    pub bindings: Bindings,
}

/// Unification of `t1` and `t2` under the resolutions `m`, to a nesting of
/// at most `depth`. In this order:
///
/// - the same type on both sides is the answer, and `m` stays;
/// - two applications, or two function types, of the same number of
///   arguments are unified part by part, each part under the resolutions
///   that the parts before it have left; of different numbers they are an
///   `ArityMismatch`;
/// - of two variables, one that is resolved goes by [`unify_var`] against
///   the other, the left one first; two unresolved variables of one id (at
///   different levels, or they were the same type) are an `InfiniteType`;
///   of two unresolved variables of different ids the left one goes by
///   [`unify_var`] against the right one;
/// - a variable on the left, or else one on the right, goes by
///   [`unify_var`] against the other side;
/// - anything else is a `UnificationFailure` of the two.
pub open spec fn unify_at(t1: TypeView, t2: TypeView, m: Bindings, depth: nat) -> Unified
    decreases depth, 1nat,
{
    if depth == 0 {
        Unified { result: Err(ErrorView::DepthExceeded), bindings: m }
    } else if t1 == t2 {
        Unified { result: Ok(t1), bindings: m }
    } else {
        match (t1, t2) {
            (TypeView::App(h1, ps1), TypeView::App(h2, ps2)) => if ps1.len() != ps2.len() {
                Unified {
                    result: Err(ErrorView::ArityMismatch(ps1.len(), ps2.len())),
                    bindings: m,
                }
            } else {
                let h = unify_at(*h1, *h2, m, (depth - 1) as nat);
                match h.result {
                    Err(_) => h,
                    Ok(hv) => {
                        let ps = unify_all(ps1, ps2, h.bindings, (depth - 1) as nat);
                        Unified {
                            result: match ps.result {
                                Ok(pv) => Ok(TypeView::App(Box::new(hv), pv)),
                                Err(e) => Err(e),
                            },
                            bindings: ps.bindings,
                        }
                    },
                }
            },
            (TypeView::Arrow(ps1, r1), TypeView::Arrow(ps2, r2)) => if ps1.len() != ps2.len() {
                Unified {
                    result: Err(ErrorView::ArityMismatch(ps1.len(), ps2.len())),
                    bindings: m,
                }
            } else {
                let ps = unify_all(ps1, ps2, m, (depth - 1) as nat);
                match ps.result {
                    Err(e) => Unified { result: Err(e), bindings: ps.bindings },
                    Ok(pv) => {
                        let r = unify_at(*r1, *r2, ps.bindings, (depth - 1) as nat);
                        Unified {
                            result: match r.result {
                                Ok(rv) => Ok(TypeView::Arrow(pv, Box::new(rv))),
                                Err(e) => Err(e),
                            },
                            bindings: r.bindings,
                        }
                    },
                }
            },
            (TypeView::TypeVar(id1, l1), TypeView::TypeVar(id2, l2)) => if resolve(m, id1, l1)
                is Some {
                unify_var(id1, l1, t2, m, depth)
            } else if resolve(m, id2, l2) is Some {
                unify_var(id2, l2, t1, m, depth)
            } else if id1 == id2 {
                Unified { result: Err(ErrorView::InfiniteType(id1)), bindings: m }
            } else {
                unify_var(id1, l1, t2, m, depth)
            },
            (TypeView::TypeVar(id, level), _) => unify_var(id, level, t2, m, depth),
            (_, TypeView::TypeVar(id, level)) => unify_var(id, level, t1, m, depth),
            _ => Unified { result: Err(ErrorView::UnificationFailure(t1, t2)), bindings: m },
        }
    }
}

/// Unification of the variable `id` at `level` with `other`. Where the
/// variable is resolved, what it stands for is unified with `other`. Where
/// it is not and `other` holds a generic placeholder, which no variable
/// may be resolved to, the two are a `UnificationFailure`. Otherwise
/// `other` becomes its resolution, the levels in `other` are lowered to
/// `level` by [`lower_at`], and `other` is the answer.
pub open spec fn unify_var(
    id: Id,
    level: Level,
    other: TypeView,
    m: Bindings,
    depth: nat,
) -> Unified
    decreases depth, 0nat,
{
    if depth == 0 {
        Unified { result: Err(ErrorView::DepthExceeded), bindings: m }
    } else {
        match resolve(m, id, level) {
            Some(binding) => unify_at(binding, other, m, (depth - 1) as nat),
            None => if !generic_free(other) {
                Unified {
                    result: Err(
                        ErrorView::UnificationFailure(TypeView::TypeVar(id, level), other),
                    ),
                    bindings: m,
                }
            } else {
                let w = lower_at(
                    id,
                    level,
                    other,
                    m.insert((id, level), other),
                    (depth - 1) as nat,
                );
                Unified {
                    result: match w.result {
                        Ok(_) => Ok(other),
                        Err(e) => Err(e),
                    },
                    bindings: w.bindings,
                }
            },
        }
    }
}

/// Unification of `ps1[i]` with `ps2[i]` for each `i`, from the first to
/// the last, each under the resolutions that the ones before it have left.
/// The first that fails ends it.
pub open spec fn unify_all(
    ps1: Seq<TypeView>,
    ps2: Seq<TypeView>,
    m: Bindings,
    depth: nat,
) -> UnifiedAll
    decreases depth, ps1.len() + 2,
{
    if ps1.len() == 0 {
        UnifiedAll { result: Ok(Seq::empty()), bindings: m }
    } else {
        let before = unify_all(ps1.drop_last(), ps2.drop_last(), m, depth);
        match before.result {
            Err(_) => before,
            Ok(done) => {
                let last = unify_at(ps1.last(), ps2.last(), before.bindings, depth);
                UnifiedAll {
                    result: match last.result {
                        Ok(v) => Ok(done.push(v)),
                        Err(e) => Err(e),
                    },
                    bindings: last.bindings,
                }
            },
        }
    }
}

/// The type that `t1` and `t2` both become under the resolutions `m`, with
/// the resolutions that make them so; or why there is none.
pub open spec fn unify_spec(t1: TypeView, t2: TypeView, m: Bindings) -> Unified {
    unify_at(t1, t2, m, MAX_DEPTH as nat)
}

/// Once a prefix of the two lists has failed, all of them stand where the
/// prefix stands.
proof fn lemma_unify_all_stops(
    ps1: Seq<TypeView>,
    ps2: Seq<TypeView>,
    n: int,
    m: Bindings,
    depth: nat,
)
    requires
        0 <= n <= ps1.len(),
        ps1.len() == ps2.len(),
        unify_all(ps1.take(n), ps2.take(n), m, depth).result is Err,
    ensures
        unify_all(ps1, ps2, m, depth) == unify_all(ps1.take(n), ps2.take(n), m, depth),
    decreases ps1.len() - n,
{
    if n < ps1.len() {
        assert(ps1.take(n + 1).drop_last() =~= ps1.take(n));
        assert(ps2.take(n + 1).drop_last() =~= ps2.take(n));
        lemma_unify_all_stops(ps1, ps2, n + 1, m, depth);
    } else {
        assert(ps1.take(n) =~= ps1);
        assert(ps2.take(n) =~= ps2);
    }
}

/// Unifies `t1` with `t2`, to a nesting of at most `depth`.
fn unify_rec(t1: &Type, t2: &Type, env: &mut Env<Type>, depth: usize) -> (r: Result<Type, Error>)
    requires
        old(env).wf(),
    ensures
        final(env).wf(),
        scope_view(*final(env)) == scope_view(*old(env)),
        ({
            let u = unify_at(t1@, t2@, bindings_view(*old(env)), depth as nat);
            &&& result_view(r) == u.result
            &&& bindings_view(*final(env)) == u.bindings
        }),
    decreases depth, 1nat,
{
    if depth == 0 {
        return Err(Error::DepthExceeded);
    }
    if t1.same(t2) {
        return Ok(t1.duplicate());
    }
    match (t1, t2) {
        (Type::App(h1, ps1), Type::App(h2, ps2)) => {
            assert(types_view(*ps1).len() == ps1.len());
            assert(types_view(*ps2).len() == ps2.len());
            if ps1.len() != ps2.len() {
                return Err(Error::ArityMismatch(ps1.len(), ps2.len()));
            }
            match unify_rec(h1, h2, env, depth - 1) {
                Err(e) => Err(e),
                Ok(h) => match unify_vec(ps1, ps2, env, depth - 1) {
                    Err(e) => Err(e),
                    Ok(ps) => Ok(Type::App(Box::new(h), ps)),
                },
            }
        },
        (Type::Arrow(ps1, r1), Type::Arrow(ps2, r2)) => {
            assert(types_view(*ps1).len() == ps1.len());
            assert(types_view(*ps2).len() == ps2.len());
            if ps1.len() != ps2.len() {
                return Err(Error::ArityMismatch(ps1.len(), ps2.len()));
            }
            match unify_vec(ps1, ps2, env, depth - 1) {
                Err(e) => Err(e),
                Ok(ps) => match unify_rec(r1, r2, env, depth - 1) {
                    Err(e) => Err(e),
                    Ok(r) => Ok(Type::Arrow(ps, Box::new(r))),
                },
            }
        },
        (Type::TypeVar(id1, l1), Type::TypeVar(id2, l2)) => {
            if lookup_type(env, *id1, *l1).is_some() {
                unify_with_var(*id1, *l1, t2, env, depth)
            } else if lookup_type(env, *id2, *l2).is_some() {
                unify_with_var(*id2, *l2, t1, env, depth)
            } else if *id1 == *id2 {
                Err(Error::InfiniteType(*id1))
            } else {
                unify_with_var(*id1, *l1, t2, env, depth)
            }
        },
        (Type::TypeVar(id, level), _) => unify_with_var(*id, *level, t2, env, depth),
        (_, Type::TypeVar(id, level)) => unify_with_var(*id, *level, t1, env, depth),
        _ => Err(Error::UnificationFailure(t1.duplicate(), t2.duplicate())),
    }
}

/// Unifies the variable `id` at `level` with `other`.
fn unify_with_var(id: Id, level: Level, other: &Type, env: &mut Env<Type>, depth: usize) -> (r:
    Result<Type, Error>)
    requires
        old(env).wf(),
    ensures
        final(env).wf(),
        scope_view(*final(env)) == scope_view(*old(env)),
        ({
            let u = unify_var(id, level, other@, bindings_view(*old(env)), depth as nat);
            &&& result_view(r) == u.result
            &&& bindings_view(*final(env)) == u.bindings
        }),
    decreases depth, 0nat,
{
    if depth == 0 {
        return Err(Error::DepthExceeded);
    }
    let found = match lookup_type(env, id, level) {
        Some(binding) => Some(binding.duplicate()),
        None => None,
    };
    match found {
        Some(binding) => unify_rec(&binding, other, env, depth - 1),
        None => {
            if !other.is_generic_free() {
                return Err(
                    Error::UnificationFailure(Type::TypeVar(id, level), other.duplicate()),
                );
            }
            bind_type(env, id, level, other.duplicate());
            match lower_rec(id, level, other, env, depth - 1) {
                Err(e) => Err(e),
                Ok(_) => Ok(other.duplicate()),
            }
        },
    }
}

/// Unifies the types in `ps1` with those in `ps2` one by one, from the
/// first to the last.
fn unify_vec(ps1: &Vec<Type>, ps2: &Vec<Type>, env: &mut Env<Type>, depth: usize) -> (r: Result<
    Vec<Type>,
    Error,
>)
    requires
        old(env).wf(),
        ps1.len() == ps2.len(),
    ensures
        final(env).wf(),
        scope_view(*final(env)) == scope_view(*old(env)),
        ({
            let u = unify_all(
                types_view(*ps1),
                types_view(*ps2),
                bindings_view(*old(env)),
                depth as nat,
            );
            &&& bindings_view(*final(env)) == u.bindings
            &&& match r {
                Ok(v) => u.result == Ok::<Seq<TypeView>, ErrorView>(types_view(v)),
                Err(e) => u.result == Err::<Seq<TypeView>, ErrorView>(e@),
            }
        }),
    decreases depth, ps1.len() + 2,
{
    let ghost v1 = types_view(*ps1);
    let ghost v2 = types_view(*ps2);
    let ghost m = bindings_view(*env);
    let mut r: Vec<Type> = Vec::new();
    let mut i: usize = 0;
    assert(v1.take(0).len() == 0);
    assert(types_view(r) =~= Seq::empty());
    while i < ps1.len()
        invariant
            env.wf(),
            scope_view(*env) == scope_view(*old(env)),
            v1 == types_view(*ps1),
            v2 == types_view(*ps2),
            m == bindings_view(*old(env)),
            ps1.len() == ps2.len(),
            i <= ps1.len(),
            ({
                let done = unify_all(v1.take(i as int), v2.take(i as int), m, depth as nat);
                &&& done.result == Ok::<Seq<TypeView>, ErrorView>(types_view(r))
                &&& bindings_view(*env) == done.bindings
            }),
        decreases ps1.len() - i,
    {
        proof {
            assert(v1.take(i + 1).drop_last() =~= v1.take(i as int));
            assert(v2.take(i + 1).drop_last() =~= v2.take(i as int));
            assert(v1.take(i + 1).last() == type_view(ps1[i as int]));
            assert(v2.take(i + 1).last() == type_view(ps2[i as int]));
        }
        let ghost before = types_view(r);
        match unify_rec(&ps1[i], &ps2[i], env, depth) {
            Ok(t) => {
                r.push(t);
                assert(types_view(r) =~= before.push(t@));
            },
            Err(e) => {
                proof {
                    lemma_unify_all_stops(v1, v2, i + 1, m, depth as nat);
                }
                return Err(e);
            },
        }
        i = i + 1;
    }
    assert(v1.take(i as int) =~= v1);
    assert(v2.take(i as int) =~= v2);
    Ok(r)
}

/// Unifies `t1` with `t2`: finds the type that both become, and records in
/// `env` the resolutions that make them so. Whatever the outcome, what was
/// resolved stays resolved as it was, no level is raised, and no variable
/// is resolved to a type that holds a generic placeholder. Where it
/// goes through, the two types and the answer are the same under the
/// resolutions that `env` then holds.
pub fn unify(t1: &Type, t2: &Type, env: &mut Env<Type>) -> (r: Result<Type, Error>)
    requires
        old(env).wf(),
    ensures
        final(env).wf(),
        scope_view(*final(env)) == scope_view(*old(env)),
        result_view(r) == unify_spec(t1@, t2@, bindings_view(*old(env))).result,
        bindings_view(*final(env)) == unify_spec(t1@, t2@, bindings_view(*old(env))).bindings,
        bindings_view(*old(env)).submap_of(bindings_view(*final(env))),
        only_lowers(bindings_view(*old(env)), bindings_view(*final(env))),
        adds_no_generic(bindings_view(*old(env)), bindings_view(*final(env))),
        r is Ok ==> exists|n: nat|
            {
                &&& #[trigger] same_under(t1@, t2@, bindings_view(*final(env)), n)
                &&& same_under(t1@, r->Ok_0@, bindings_view(*final(env)), n)
                &&& same_under(t2@, r->Ok_0@, bindings_view(*final(env)), n)
            },
{
    proof {
        let m = bindings_view(*env);
        lemma_unify_grows(t1@, t2@, m, MAX_DEPTH as nat);
        lemma_unify_lowers(t1@, t2@, m, MAX_DEPTH as nat);
        lemma_unify_adds_no_generic(t1@, t2@, m, MAX_DEPTH as nat);
        let n = lemma_unify_sound(t1@, t2@, m, MAX_DEPTH as nat);
        let u = unify_spec(t1@, t2@, m);
        if u.result is Ok {
            assert(same_under(t1@, t2@, u.bindings, n));
        }
    }
    unify_rec(t1, t2, env, MAX_DEPTH)
}

/// What type inference knows at a point of its walk: the names in scope, the
/// resolutions of the type variables, and the id of the next fresh one.
pub struct State {
    pub scope: Scope,
    pub bindings: Bindings,
    pub next_id: Id,
}

/// What `env` and `gen` hold, as a mathematical value.
pub open spec fn state_of(env: Env<Type>, gen: Gen<Type>) -> State {
    State { scope: scope_view(env), bindings: bindings_view(env), next_id: gen.next_id() }
}

/// `scope` with `name` standing for what it stands for in `outer`: for
/// that type, or for nothing where `outer` does not have it.
pub open spec fn put_back(scope: Scope, name: Seq<char>, outer: Scope) -> Scope {
    if outer.contains_key(name) {
        scope.insert(name, outer[name])
    } else {
        scope.remove(name)
    }
}

/// `scope` with the first `n` of `params` put back to what they stand for
/// in `outer`.
pub open spec fn restore(scope: Scope, params: Seq<Seq<char>>, outer: Scope, n: nat) -> Scope
    decreases n,
{
    if n == 0 {
        scope
    } else {
        restore(put_back(scope, params[n - 1], outer), params, outer, (n - 1) as nat)
    }
}

/// The variables at `level` with the `n` ids from `first_id` on.
pub open spec fn fresh_vars(first_id: Id, level: Level, n: nat) -> Seq<TypeView> {
    Seq::new(n, |i: int| TypeView::TypeVar((first_id + i) as Id, level))
}

/// `scope` with the first `n` of `params` standing each for its fresh
/// variable.
pub open spec fn declare(
    scope: Scope,
    params: Seq<Seq<char>>,
    first_id: Id,
    level: Level,
    n: nat,
) -> Scope
    decreases n,
{
    if n == 0 {
        scope
    } else {
        declare(scope, params, first_id, level, (n - 1) as nat).insert(
            params[n - 1],
            TypeView::TypeVar((first_id + n - 1) as Id, level),
        )
    }
}

/// A function type seen as one: its parameters and its result, with the
/// resolutions and the next id after it was made to be one.
pub struct Shape {
    pub params: Seq<TypeView>,
    pub ret: TypeView,
    pub bindings: Bindings,
    pub next_id: Id,
}

/// `t` as the type of a function of `n` arguments. A function type of `n`
/// parameters is one as it stands; of another number it is an
/// `ArityMismatch`. A resolved variable goes by what it stands for. An
/// unresolved variable is resolved to a function type of `n` fresh
/// parameters and a fresh result, all at that variable's level.
/// Anything else is `NotAFunction`.
pub open spec fn genarrow_at(t: TypeView, n: nat, m: Bindings, next_id: Id, depth: nat) -> Result<
    Shape,
    ErrorView,
>
    decreases depth,
{
    if depth == 0 {
        Err(ErrorView::DepthExceeded)
    } else {
        match t {
            TypeView::Arrow(params, ret) => if params.len() == n {
                Ok(Shape { params, ret: *ret, bindings: m, next_id })
            } else {
                Err(ErrorView::ArityMismatch(params.len(), n))
            },
            TypeView::TypeVar(id, level) => match resolve(m, id, level) {
                Some(binding) => genarrow_at(binding, n, m, next_id, (depth - 1) as nat),
                None => if next_id + n + 1 > usize::MAX {
                    Err(ErrorView::IdsExhausted)
                } else {
                    let params = fresh_vars(next_id, level, n);
                    let ret = TypeView::TypeVar((next_id + n) as Id, level);
                    Ok(
                        Shape {
                            params,
                            ret,
                            bindings: m.insert(
                                (id, level),
                                TypeView::Arrow(params, Box::new(ret)),
                            ),
                            next_id: (next_id + n + 1) as Id,
                        },
                    )
                },
            },
            _ => Err(ErrorView::NotAFunction(t)),
        }
    }
}

/// The type of `term` at `level` in the state `st`, with the state after
/// it; or why it has none. Terms are followed `depth` deep.
///
/// - A name has the type that an instantiation of its scheme gives; a name
///   that is not in scope is an `UndefinedVariable`.
/// - `let name = bound in body` has the type of `body` with `name`
///   standing for the type of `bound`, inferred one level up and then
///   generalised at `level`. Afterwards `name` stands for what it stood for
///   before.
/// - A function has a function type from a fresh variable for each
///   parameter to the type of its body; two parameters of one name are
///   `ConflictingParameterNames`. Afterwards the parameters stand for what
///   they stood for before.
/// - An application has the result type of its function, seen as a
///   function of that many arguments, after each argument's type has been
///   unified with the parameter it is given for, from the first on.
pub open spec fn infer_at(term: TermView, level: Level, st: State, depth: nat) -> Result<
    (TypeView, State),
    ErrorView,
>
    decreases depth, 0nat,
{
    if depth == 0 {
        Err(ErrorView::DepthExceeded)
    } else {
        match term {
            TermView::Var(name) => if !st.scope.contains_key(name) {
                Err(ErrorView::UndefinedVariable(name))
            } else {
                let i = instantiate_spec(st.scope[name], level, st.next_id, st.bindings);
                match i.result {
                    Ok(t) => Ok(
                        (t, State { scope: st.scope, bindings: st.bindings, next_id: i.next_id }),
                    ),
                    Err(e) => Err(e),
                }
            },
            TermView::Let(name, bound, body) => match infer_at(
                *bound,
                (level + 1) as Level,
                st,
                (depth - 1) as nat,
            ) {
                Err(e) => Err(e),
                Ok((tb, s1)) => {
                    let scheme = generalize_spec(tb, level, s1.bindings);
                    let inner = State {
                        scope: s1.scope.insert(name, scheme),
                        bindings: s1.bindings,
                        next_id: s1.next_id,
                    };
                    match infer_at(*body, level, inner, (depth - 1) as nat) {
                        Err(e) => Err(e),
                        Ok((t, s2)) => Ok(
                            (
                                t,
                                State {
                                    scope: put_back(s2.scope, name, s1.scope),
                                    bindings: s2.bindings,
                                    next_id: s2.next_id,
                                },
                            ),
                        ),
                    }
                },
            },
            TermView::Abs(params, body) => if !params.no_duplicates() {
                Err(ErrorView::ConflictingParameterNames(term))
            } else if st.next_id + params.len() > usize::MAX {
                Err(ErrorView::IdsExhausted)
            } else {
                let inner = State {
                    scope: declare(st.scope, params, st.next_id, level, params.len()),
                    bindings: st.bindings,
                    next_id: (st.next_id + params.len()) as Id,
                };
                match infer_at(*body, level, inner, (depth - 1) as nat) {
                    Err(e) => Err(e),
                    Ok((t, s1)) => Ok(
                        (
                            TypeView::Arrow(
                                fresh_vars(st.next_id, level, params.len()),
                                Box::new(t),
                            ),
                            State {
                                scope: restore(s1.scope, params, st.scope, params.len()),
                                bindings: s1.bindings,
                                next_id: s1.next_id,
                            },
                        ),
                    ),
                }
            },
            TermView::App(f, args) => match infer_at(*f, level, st, (depth - 1) as nat) {
                Err(e) => Err(e),
                Ok((tf, s1)) => match genarrow_at(
                    tf,
                    args.len(),
                    s1.bindings,
                    s1.next_id,
                    (depth - 1) as nat,
                ) {
                    Err(e) => Err(e),
                    Ok(shape) => match infer_args(
                        args,
                        shape.params,
                        level,
                        State {
                            scope: s1.scope,
                            bindings: shape.bindings,
                            next_id: shape.next_id,
                        },
                        (depth - 1) as nat,
                        args.len(),
                    ) {
                        Err(e) => Err(e),
                        Ok(s2) => Ok((shape.ret, s2)),
                    },
                },
            },
        }
    }
}

/// The state after the first `n` of `args` have been given their types and
/// each type has been unified with the parameter type at its place in
/// `params`; or the first reason why one of them cannot.
pub open spec fn infer_args(
    args: Seq<TermView>,
    params: Seq<TypeView>,
    level: Level,
    st: State,
    depth: nat,
    n: nat,
) -> Result<State, ErrorView>
    decreases depth, n + 1,
{
    if n == 0 {
        Ok(st)
    } else {
        match infer_args(args, params, level, st, depth, (n - 1) as nat) {
            Err(e) => Err(e),
            Ok(s) => match infer_at(args[n - 1], level, s, depth) {
                Err(e) => Err(e),
                Ok((t, s1)) => {
                    let u = unify_spec(params[n - 1], t, s1.bindings);
                    match u.result {
                        Err(e) => Err(e),
                        Ok(_) => Ok(
                            State { scope: s1.scope, bindings: u.bindings, next_id: s1.next_id },
                        ),
                    }
                },
            },
        }
    }
}

/// `t` with every variable that `m` resolves replaced by what it stands
/// for and every other variable turned into a generic placeholder,
/// whatever its level. Resolutions are followed `fuel` deep; a resolved
/// variable that is met when the fuel is used up stands for a type that
/// holds itself, which is an `InfiniteType`.
pub open spec fn close_at(t: TypeView, m: Bindings, fuel: nat) -> Result<TypeView, ErrorView>
    decreases fuel, t, 0nat,
{
    match t {
        TypeView::TypeVar(id, level) => match resolve(m, id, level) {
            Some(binding) => if fuel > 0 {
                close_at(binding, m, (fuel - 1) as nat)
            } else {
                Err(ErrorView::InfiniteType(id))
            },
            None => Ok(TypeView::Generic(id)),
        },
        TypeView::Const(_) => Ok(t),
        TypeView::Generic(_) => Ok(t),
        TypeView::App(head, params) => match close_at(*head, m, fuel) {
            Err(e) => Err(e),
            Ok(h) => match close_all(params, m, fuel, params.len()) {
                Err(e) => Err(e),
                Ok(ps) => Ok(TypeView::App(Box::new(h), ps)),
            },
        },
        TypeView::Arrow(params, ret) => match close_all(params, m, fuel, params.len()) {
            Err(e) => Err(e),
            Ok(ps) => match close_at(*ret, m, fuel) {
                Err(e) => Err(e),
                Ok(r) => Ok(TypeView::Arrow(ps, Box::new(r))),
            },
        },
    }
}

/// `close_at` of each of the first `n` types in `ts`, from the first on.
/// The first that fails ends it.
pub open spec fn close_all(ts: Seq<TypeView>, m: Bindings, fuel: nat, n: nat) -> Result<
    Seq<TypeView>,
    ErrorView,
>
    decreases fuel, ts, n,
{
    if n == 0 || n > ts.len() {
        Ok(Seq::empty())
    } else {
        match close_all(ts, m, fuel, (n - 1) as nat) {
            Err(e) => Err(e),
            Ok(done) => match close_at(ts[n - 1], m, fuel) {
                Err(e) => Err(e),
                Ok(v) => Ok(done.push(v)),
            },
        }
    }
}

/// The type scheme that `t` stands for outside everything: the
/// generalisation of `t` at a level below every level. No variable is
/// left in it. Resolutions are followed as deep as there are resolved
/// variables, which reaches the end of every one of them unless one leads
/// back to itself.
pub open spec fn close_spec(t: TypeView, m: Bindings) -> Result<TypeView, ErrorView> {
    close_at(t, m, m.dom().len())
}

/// The type scheme of `term` where `scope` gives the names in scope, `m`
/// the resolutions so far and `next_id` the first free id: its type at the
/// outermost level, closed, so that every variable that is left in it has
/// become generic.
pub open spec fn infer_spec(term: TermView, scope: Scope, m: Bindings, next_id: Id) -> Result<
    TypeView,
    ErrorView,
> {
    match infer_at(term, 0, State { scope, bindings: m, next_id }, MAX_DEPTH as nat) {
        Ok((t, st)) => close_spec(t, st.bindings),
        Err(e) => Err(e),
    }
}

/// Once the first `n` of `ts` have failed, so have the first `k`, for the
/// same reason.
proof fn lemma_close_all_stops(ts: Seq<TypeView>, m: Bindings, fuel: nat, n: nat, k: nat)
    requires
        n <= k <= ts.len(),
        close_all(ts, m, fuel, n) is Err,
    ensures
        close_all(ts, m, fuel, k) == close_all(ts, m, fuel, n),
    decreases k,
{
    if n < k {
        lemma_close_all_stops(ts, m, fuel, n, (k - 1) as nat);
    }
}

/// Closes `t`, following resolutions `fuel` deep.
fn close_rec(t: &Type, env: &Env<Type>, fuel: usize) -> (r: Result<Type, Error>)
    requires
        env.wf(),
    ensures
        result_view(r) == close_at(t@, bindings_view(*env), fuel as nat),
    decreases fuel, t, 0nat,
{
    match t {
        Type::TypeVar(id, level) => {
            match lookup_type(env, *id, *level) {
                Some(binding) => {
                    if fuel > 0 {
                        close_rec(binding, env, fuel - 1)
                    } else {
                        Err(Error::InfiniteType(*id))
                    }
                },
                None => Ok(Type::Generic(*id)),
            }
        },
        Type::Const(name) => Ok(Type::Const(name.clone())),
        Type::Generic(id) => Ok(Type::Generic(*id)),
        Type::App(head, params) => {
            assert(types_view(*params).len() == params.len());
            match close_rec(head, env, fuel) {
                Err(e) => Err(e),
                Ok(h) => match close_vec(params, env, fuel) {
                    Err(e) => Err(e),
                    Ok(ps) => Ok(Type::App(Box::new(h), ps)),
                },
            }
        },
        Type::Arrow(params, ret) => {
            assert(types_view(*params).len() == params.len());
            match close_vec(params, env, fuel) {
                Err(e) => Err(e),
                Ok(ps) => match close_rec(ret, env, fuel) {
                    Err(e) => Err(e),
                    Ok(r) => Ok(Type::Arrow(ps, Box::new(r))),
                },
            }
        },
    }
}

/// Closes each type in `ts`, from the first to the last.
fn close_vec(ts: &Vec<Type>, env: &Env<Type>, fuel: usize) -> (r: Result<Vec<Type>, Error>)
    requires
        env.wf(),
    ensures
        match r {
            Ok(v) => close_all(
                types_view(*ts),
                bindings_view(*env),
                fuel as nat,
                ts.len() as nat,
            ) == Ok::<Seq<TypeView>, ErrorView>(types_view(v)),
            Err(e) => close_all(
                types_view(*ts),
                bindings_view(*env),
                fuel as nat,
                ts.len() as nat,
            ) == Err::<Seq<TypeView>, ErrorView>(e@),
        },
    decreases fuel, ts, 1nat,
{
    let ghost tv = types_view(*ts);
    let ghost m = bindings_view(*env);
    let mut r: Vec<Type> = Vec::new();
    let mut i: usize = 0;
    assert(types_view(r) =~= Seq::empty());
    while i < ts.len()
        invariant
            env.wf(),
            tv == types_view(*ts),
            m == bindings_view(*env),
            i <= ts.len(),
            close_all(tv, m, fuel as nat, i as nat) == Ok::<Seq<TypeView>, ErrorView>(
                types_view(r),
            ),
        decreases ts.len() - i,
    {
        assert(tv[i as int] == type_view(ts[i as int]));
        let ghost before = types_view(r);
        match close_rec(&ts[i], env, fuel) {
            Ok(t) => {
                r.push(t);
                assert(types_view(r) =~= before.push(t@));
            },
            Err(e) => {
                proof {
                    assert(close_all(tv, m, fuel as nat, (i + 1) as nat) == Err::<
                        Seq<TypeView>,
                        ErrorView,
                    >(e@));
                    lemma_close_all_stops(tv, m, fuel as nat, (i + 1) as nat, ts.len() as nat);
                }
                return Err(e);
            },
        }
        i = i + 1;
    }
    Ok(r)
}

/// The type scheme that `t` stands for outside everything: every variable
/// that is left in `t` becomes generic. Where a variable stands for a type
/// that holds itself there is no such scheme.
pub fn close(t: &Type, env: &Env<Type>) -> (r: Result<Type, Error>)
    requires
        env.wf(),
    ensures
        result_view(r) == close_spec(t@, bindings_view(*env)),
        r is Ok ==> ground(r->Ok_0@),
{
    proof {
        assert(bindings_view(*env).dom() =~= env.bindings().dom());
        lemma_close_ground(t@, bindings_view(*env), bindings_view(*env).dom().len());
    }
    let fuel = env.binding_count();
    close_rec(t, env, fuel)
}

/// Brings `name` into scope with the type `t`, and hands back what it
/// stood for before.
fn scope_insert(env: &mut Env<Type>, name: &str, t: Type) -> (r: Option<Type>)
    requires
        old(env).wf(),
    ensures
        final(env).wf(),
        bindings_view(*final(env)) == bindings_view(*old(env)),
        scope_view(*final(env)) == scope_view(*old(env)).insert(name@, t@),
        match r {
            Some(was) => scope_view(*old(env)).contains_key(name@) && was@ == scope_view(
                *old(env),
            )[name@],
            None => !scope_view(*old(env)).contains_key(name@),
        },
{
    let ghost tv = t@;
    let r = env.insert(name, t);
    assert(scope_view(*env) =~= scope_view(*old(env)).insert(name@, tv));
    r
}

/// Puts `name` back to what it stood for in `outer`, which `saved` holds.
fn scope_put_back(env: &mut Env<Type>, name: &str, saved: Option<Type>, Ghost(outer): Ghost<Scope>)
    requires
        old(env).wf(),
        match saved {
            Some(was) => outer.contains_key(name@) && was@ == outer[name@],
            None => !outer.contains_key(name@),
        },
    ensures
        final(env).wf(),
        bindings_view(*final(env)) == bindings_view(*old(env)),
        scope_view(*final(env)) == put_back(scope_view(*old(env)), name@, outer),
{
    match saved {
        Some(was) => {
            let ghost wv = was@;
            env.insert(name, was);
            assert(scope_view(*env) =~= scope_view(*old(env)).insert(name@, wv));
        },
        None => {
            env.remove(name);
            assert(scope_view(*env) =~= scope_view(*old(env)).remove(name@));
        },
    }
}

/// Whether a name stands twice in `names`.
fn has_duplicates(names: &Vec<String>) -> (r: bool)
    ensures
        r == !names_view(*names).no_duplicates(),
{
    let ghost nv = names_view(*names);
    let mut i: usize = 0;
    while i < names.len()
        invariant
            nv == names_view(*names),
            i <= names.len(),
            forall|a: int, b: int| 0 <= a < b < i ==> nv[a] != nv[b],
        decreases names.len() - i,
    {
        let mut j: usize = 0;
        while j < i
            invariant
                nv == names_view(*names),
                i < names.len(),
                j <= i,
                forall|a: int, b: int| 0 <= a < b < i ==> nv[a] != nv[b],
                forall|a: int| 0 <= a < j ==> nv[a] != nv[i as int],
            decreases i - j,
        {
            if names[j] == names[i] {
                assert(nv[j as int] == nv[i as int]);
                return true;
            }
            j = j + 1;
        }
        i = i + 1;
    }
    assert forall|a: int, b: int| 0 <= a < nv.len() && 0 <= b < nv.len() && a != b implies nv[a]
        != nv[b] by {
        if a < b {
        } else {
            assert(nv[b] != nv[a]);
        }
    }
    false
}

/// Sees `t` as the type of a function of `n` arguments, making it one if
/// it is a variable that nothing is known of yet.
pub fn genarrow(t: Type, n: usize, env: &mut Env<Type>, gen: &mut Gen<Type>) -> (r: Result<
    (Vec<Type>, Type),
    Error,
>)
    requires
        old(env).wf(),
    ensures
        final(env).wf(),
        scope_view(*final(env)) == scope_view(*old(env)),
        match r {
            Ok((params, ret)) => params.len() == n && genarrow_at(
                t@,
                n as nat,
                bindings_view(*old(env)),
                old(gen).next_id(),
                MAX_DEPTH as nat,
            ) == Ok::<Shape, ErrorView>(
                Shape {
                    params: types_view(params),
                    ret: ret@,
                    bindings: bindings_view(*final(env)),
                    next_id: final(gen).next_id(),
                },
            ),
            Err(e) => {
                &&& genarrow_at(
                    t@,
                    n as nat,
                    bindings_view(*old(env)),
                    old(gen).next_id(),
                    MAX_DEPTH as nat,
                ) == Err::<Shape, ErrorView>(e@)
                &&& bindings_view(*final(env)) == bindings_view(*old(env))
                &&& final(gen).next_id() == old(gen).next_id()
            },
        },
{
    genarrow_rec(t, n, env, gen, MAX_DEPTH)
}

/// Sees `t` as the type of a function of `n` arguments, to a nesting of
/// at most `depth`.
fn genarrow_rec(t: Type, n: usize, env: &mut Env<Type>, gen: &mut Gen<Type>, depth: usize) -> (r:
    Result<(Vec<Type>, Type), Error>)
    requires
        old(env).wf(),
    ensures
        final(env).wf(),
        scope_view(*final(env)) == scope_view(*old(env)),
        match r {
            Ok((params, ret)) => params.len() == n && genarrow_at(
                t@,
                n as nat,
                bindings_view(*old(env)),
                old(gen).next_id(),
                depth as nat,
            ) == Ok::<Shape, ErrorView>(
                Shape {
                    params: types_view(params),
                    ret: ret@,
                    bindings: bindings_view(*final(env)),
                    next_id: final(gen).next_id(),
                },
            ),
            Err(e) => {
                &&& genarrow_at(
                    t@,
                    n as nat,
                    bindings_view(*old(env)),
                    old(gen).next_id(),
                    depth as nat,
                ) == Err::<Shape, ErrorView>(e@)
                &&& bindings_view(*final(env)) == bindings_view(*old(env))
                &&& final(gen).next_id() == old(gen).next_id()
            },
        },
    decreases depth,
{
    if depth == 0 {
        return Err(Error::DepthExceeded);
    }
    match t {
        Type::Arrow(params, ret) => {
            assert(types_view(params).len() == params.len());
            if params.len() == n {
                Ok((params, *ret))
            } else {
                Err(Error::ArityMismatch(params.len(), n))
            }
        },
        Type::TypeVar(id, level) => {
            let found = match lookup_type(env, id, level) {
                Some(binding) => Some(binding.duplicate()),
                None => None,
            };
            match found {
                Some(binding) => genarrow_rec(binding, n, env, gen, depth - 1),
                None => {
                    let first = gen.peek();
                    if usize::MAX - first <= n {
                        return Err(Error::IdsExhausted);
                    }
                    let params = fresh_params(gen, level, n);
                    let ret = gen.newvar(Some(level));
                    let arrow = Type::Arrow(clone_types(&params), Box::new(ret.duplicate()));
                    bind_type(env, id, level, arrow);
                    Ok((params, ret))
                },
            }
        },
        other => Err(Error::NotAFunction(other)),
    }
}

/// `n` fresh variables at `level`.
fn fresh_params(gen: &mut Gen<Type>, level: Level, n: usize) -> (r: Vec<Type>)
    requires
        old(gen).next_id() + n <= usize::MAX,
    ensures
        r.len() == n,
        final(gen).next_id() == old(gen).next_id() + n,
        types_view(r) == fresh_vars(old(gen).next_id(), level, n as nat),
{
    let mut r: Vec<Type> = Vec::new();
    let mut i: usize = 0;
    while i < n
        invariant
            i <= n,
            r.len() == i,
            old(gen).next_id() + n <= usize::MAX,
            gen.next_id() == old(gen).next_id() + i,
            forall|j: int|
                0 <= j < i ==> type_view(r[j]) == TypeView::TypeVar(
                    (old(gen).next_id() + j) as Id,
                    level,
                ),
        decreases n - i,
    {
        r.push(gen.newvar(Some(level)));
        i = i + 1;
    }
    assert(types_view(r) =~= fresh_vars(old(gen).next_id(), level, n as nat));
    r
}

/// Infers the type of `term` at `level`, to a nesting of at most `depth`.
fn infer_rec(
    term: &Term,
    level: Level,
    env: &mut Env<Type>,
    gen: &mut Gen<Type>,
    depth: usize,
) -> (r: Result<Type, Error>)
    requires
        old(env).wf(),
        level + depth <= isize::MAX,
    ensures
        final(env).wf(),
        match r {
            Ok(t) => infer_at(term@, level, state_of(*old(env), *old(gen)), depth as nat) == Ok::<
                (TypeView, State),
                ErrorView,
            >((t@, state_of(*final(env), *final(gen)))),
            Err(e) => infer_at(term@, level, state_of(*old(env), *old(gen)), depth as nat) == Err::<
                (TypeView, State),
                ErrorView,
            >(e@),
        },
    decreases depth, 0nat,
{
    if depth == 0 {
        return Err(Error::DepthExceeded);
    }
    match term {
        Term::Var(name) => {
            match env.lookup(name.as_str()) {
                Some(scheme) => instantiate(scheme, level, gen, &*env),
                None => Err(Error::UndefinedVariable(name.clone())),
            }
        },
        Term::Let(name, bound, body) => {
            let tb = match infer_rec(bound, level + 1, env, gen, depth - 1) {
                Ok(tb) => tb,
                Err(e) => {
                    return Err(e);
                },
            };
            let ghost outer = scope_view(*env);
            let scheme = generalize(&tb, level, &*env);
            let saved = scope_insert(env, name.as_str(), scheme);
            let t = match infer_rec(body, level, env, gen, depth - 1) {
                Ok(t) => t,
                Err(e) => {
                    return Err(e);
                },
            };
            scope_put_back(env, name.as_str(), saved, Ghost(outer));
            Ok(t)
        },
        Term::Abs(params, body) => {
            assert(names_view(*params).len() == params.len());
            if has_duplicates(params) {
                return Err(Error::ConflictingParameterNames(term.duplicate()));
            }
            let first = gen.peek();
            if usize::MAX - first < params.len() {
                return Err(Error::IdsExhausted);
            }
            let ghost outer = scope_view(*env);
            let ghost names = names_view(*params);
            let mut vars: Vec<Type> = Vec::new();
            let mut saved: Vec<Option<Type>> = Vec::new();
            let mut i: usize = 0;
            while i < params.len()
                invariant
                    env.wf(),
                    names == names_view(*params),
                    names.no_duplicates(),
                    i <= params.len(),
                    vars.len() == i,
                    saved.len() == i,
                    first + params.len() <= usize::MAX,
                    gen.next_id() == first + i,
                    bindings_view(*env) == bindings_view(*old(env)),
                    scope_view(*env) == declare(outer, names, first, level, i as nat),
                    forall|j: int|
                        0 <= j < i ==> type_view(vars[j]) == TypeView::TypeVar(
                            (first + j) as Id,
                            level,
                        ),
                    forall|j: int|
                        0 <= j < i ==> match #[trigger] saved[j] {
                            Some(was) => outer.contains_key(names[j]) && was@ == outer[names[j]],
                            None => !outer.contains_key(names[j]),
                        },
                decreases params.len() - i,
            {
                proof {
                    lemma_declare_keeps(outer, names, first, level, i as nat, names[i as int]);
                }
                let var = gen.newvar(Some(level));
                let was = scope_insert(env, params[i].as_str(), var.duplicate());
                vars.push(var);
                saved.push(was);
                i = i + 1;
            }
            assert(types_view(vars) =~= fresh_vars(first, level, params.len() as nat));
            let t = match infer_rec(body, level, env, gen, depth - 1) {
                Ok(t) => t,
                Err(e) => {
                    return Err(e);
                },
            };
            let ghost inner = scope_view(*env);
            let ghost kept = bindings_view(*env);
            let mut i: usize = params.len();
            while i > 0
                invariant
                    env.wf(),
                    names == names_view(*params),
                    i <= params.len(),
                    saved.len() == i,
                    bindings_view(*env) == kept,
                    restore(scope_view(*env), names, outer, i as nat) == restore(
                        inner,
                        names,
                        outer,
                        params.len() as nat,
                    ),
                    forall|j: int|
                        0 <= j < i ==> match #[trigger] saved[j] {
                            Some(was) => outer.contains_key(names[j]) && was@ == outer[names[j]],
                            None => !outer.contains_key(names[j]),
                        },
                decreases i,
            {
                let was = saved.pop();
                i = i - 1;
                match was {
                    Some(w) => {
                        scope_put_back(env, params[i].as_str(), w, Ghost(outer));
                    },
                    None => {},
                }
            }
            Ok(Type::Arrow(vars, Box::new(t)))
        },
        Term::App(f, args) => {
            assert(terms_view(*args).len() == args.len());
            let tf = match infer_rec(f, level, env, gen, depth - 1) {
                Ok(tf) => tf,
                Err(e) => {
                    return Err(e);
                },
            };
            let (params, ret) = match genarrow_rec(tf, args.len(), env, gen, depth - 1) {
                Ok(shape) => shape,
                Err(e) => {
                    return Err(e);
                },
            };
            let ghost start = state_of(*env, *gen);
            let ghost av = terms_view(*args);
            let ghost pv = types_view(params);
            let ghost goal = infer_at(term@, level, state_of(*old(env), *old(gen)), depth as nat);
            let ghost rv = ret@;
            let mut i: usize = 0;
            while i < args.len()
                invariant
                    env.wf(),
                    goal == infer_at(term@, level, state_of(*old(env), *old(gen)), depth as nat),
                    goal == match infer_args(
                        av,
                        pv,
                        level,
                        start,
                        (depth - 1) as nat,
                        args.len() as nat,
                    ) {
                        Err(e) => Err::<(TypeView, State), ErrorView>(e),
                        Ok(s2) => Ok((rv, s2)),
                    },
                    level + depth <= isize::MAX,
                    depth > 0,
                    av == terms_view(*args),
                    pv == types_view(params),
                    params.len() == args.len(),
                    i <= args.len(),
                    infer_args(av, pv, level, start, (depth - 1) as nat, i as nat) == Ok::<
                        State,
                        ErrorView,
                    >(state_of(*env, *gen)),
                decreases args.len() - i,
            {
                proof {
                    assert(av[i as int] == term_view(args[i as int]));
                    assert(pv[i as int] == type_view(params[i as int]));
                }
                let t = match infer_rec(&args[i], level, env, gen, depth - 1) {
                    Ok(t) => t,
                    Err(e) => {
                        proof {
                            assert(infer_args(
                                av,
                                pv,
                                level,
                                start,
                                (depth - 1) as nat,
                                (i + 1) as nat,
                            ) == Err::<State, ErrorView>(e@));
                            lemma_infer_args_stops(
                                av,
                                pv,
                                level,
                                start,
                                (depth - 1) as nat,
                                (i + 1) as nat,
                                args.len() as nat,
                            );
                        }
                        return Err(e);
                    },
                };
                match unify(&params[i], &t, env) {
                    Ok(_) => {},
                    Err(e) => {
                        proof {
                            assert(infer_args(
                                av,
                                pv,
                                level,
                                start,
                                (depth - 1) as nat,
                                (i + 1) as nat,
                            ) == Err::<State, ErrorView>(e@));
                            lemma_infer_args_stops(
                                av,
                                pv,
                                level,
                                start,
                                (depth - 1) as nat,
                                (i + 1) as nat,
                                args.len() as nat,
                            );
                        }
                        return Err(e);
                    },
                }
                i = i + 1;
            }
            Ok(ret)
        },
    }
}

/// A name that is not among the first `n` of `params` stands in the scope
/// that declares them for what it stood for before.
pub proof fn lemma_declare_keeps(
    scope: Scope,
    params: Seq<Seq<char>>,
    first_id: Id,
    level: Level,
    n: nat,
    name: Seq<char>,
)
    requires
        n <= params.len(),
        forall|j: int| 0 <= j < n ==> params[j] != name,
    ensures
        declare(scope, params, first_id, level, n).contains_key(name) == scope.contains_key(name),
        scope.contains_key(name) ==> declare(scope, params, first_id, level, n)[name]
            == scope[name],
    decreases n,
{
    if n > 0 {
        lemma_declare_keeps(scope, params, first_id, level, (n - 1) as nat, name);
    }
}

/// Once the first `n` arguments have failed, so have the first `k`, for
/// the same reason.
proof fn lemma_infer_args_stops(
    args: Seq<TermView>,
    params: Seq<TypeView>,
    level: Level,
    st: State,
    depth: nat,
    n: nat,
    k: nat,
)
    requires
        n <= k,
        infer_args(args, params, level, st, depth, n) is Err,
    ensures
        infer_args(args, params, level, st, depth, k) == infer_args(
            args,
            params,
            level,
            st,
            depth,
            n,
        ),
    decreases k,
{
    if n < k {
        lemma_infer_args_stops(args, params, level, st, depth, n, (k - 1) as nat);
    }
}

/// The type scheme of `term`, with the names of `env` in scope. No type
/// variable is left in it: each has given way to what it stands for or
/// become generic. Neither `env` nor `gen` is changed: inference works on
/// copies.
pub fn infer(term: &Term, env: &Env<Type>, gen: &Gen<Type>) -> (r: Result<Type, Error>)
    requires
        env.wf(),
    ensures
        result_view(r) == infer_spec(
            term@,
            scope_view(*env),
            bindings_view(*env),
            gen.next_id(),
        ),
        r is Ok ==> ground(r->Ok_0@),
{
    let mut scratch = env.duplicate();
    let mut fresh = gen.duplicate();
    proof {
        assert(scope_view(scratch) =~= scope_view(*env));
        assert(bindings_view(scratch) =~= bindings_view(*env));
    }
    match infer_rec(term, 0, &mut scratch, &mut fresh, MAX_DEPTH) {
        Ok(t) => close(&t, &scratch),
        Err(e) => Err(e),
    }
}

} // verus!
