//! Fresh type variables and the environment that the type checker works in: the
//! names in scope, and what each type variable has been resolved to.

use vstd::prelude::*;
use std::marker::PhantomData;
use vstd::std_specs::convert::FromSpec;

verus! {

/// The number by which a type variable is known.
pub type Id = usize;

/// The depth of `let` nesting at which a type variable was made.
pub type Level = isize;

/// A value that may be a type variable standing for something else.
pub trait Bindable: Sized {
    /// The id and level of the variable that the value is, if it is one.
    spec fn unbound_id_level(&self) -> Option<(Id, Level)>;

    /// The id and level of the variable that `v` is, if it is one.
    fn get_unbound_id_level(v: &Self) -> (r: Option<(Id, Level)>)
        ensures
            r == v.unbound_id_level(),
    ;
}

/// A source of type variables, each with an id that it has not given before.
pub struct Gen<T> {
    id: Id,
    t: PhantomData<T>,
}

impl<T: From<(Id, Option<Level>)>> Gen<T> {
    /// The id that the next variable gets. Every id given so far is below it.
    pub closed spec fn next_id(&self) -> Id {
        self.id
    }

    pub fn new() -> (g: Self)
        ensures
            g.next_id() == 1,
    {
        Gen { id: 1, t: PhantomData }
    }

    /// A generator whose first variable gets the id `id`.
    pub fn starting_at(id: Id) -> (g: Self)
        ensures
            g.next_id() == id,
    {
        Gen { id, t: PhantomData }
    }

    /// The id that the next variable gets.
    pub fn peek(&self) -> (id: Id)
        ensures
            id == self.next_id(),
    {
        self.id
    }

    /// Whether every id has been given out, so that `newvar` cannot be asked
    /// for another.
    pub fn exhausted(&self) -> (b: bool)
        ensures
            b == (self.next_id() == usize::MAX),
    {
        self.id == usize::MAX
    }

    /// A variable with an id that is above every id given before.
    pub fn newvar(&mut self, level: Option<Level>) -> (v: T)
        requires
            old(self).next_id() < usize::MAX,
        ensures
            final(self).next_id() == old(self).next_id() + 1,
            T::obeys_from_spec() ==> v == T::from_spec((old(self).next_id(), level)),
    {
        let next_id = self.id;
        self.id = self.id + 1;
        T::from((next_id, level))
    }

    /// Starts the ids over. Variables made before and after may then share
    /// an id.
    pub fn reset(&mut self)
        ensures
            final(self).next_id() == 1,
    {
        self.id = 1;
    }

    /// A generator that goes on from the same id.
    pub fn duplicate(&self) -> (g: Self)
        ensures
            g.next_id() == self.next_id(),
    {
        Gen { id: self.id, t: PhantomData }
    }
}

impl<T: From<(Id, Option<Level>)>> Clone for Gen<T> {
    /// A generator that goes on from the same id.
    fn clone(&self) -> (g: Self)
        ensures
            g.next_id() == self.next_id(),
    {
        self.duplicate()
    }
}

/// Follows the chain of variables that starts at `key` through `m`, for at
/// most `fuel` links after the first: the last value on it, or `None` where
/// `key` itself has no entry.
pub open spec fn chase<T>(
    m: Map<(Id, Level), T>,
    var_of: spec_fn(T) -> Option<(Id, Level)>,
    key: (Id, Level),
    fuel: nat,
) -> Option<T>
    decreases fuel,
{
    if !m.contains_key(key) {
        None
    } else {
        let v = m[key];
        match var_of(v) {
            Some(next) if fuel > 0 => match chase(m, var_of, next, (fuel - 1) as nat) {
                Some(b) => Some(b),
                None => Some(v),
            },
            _ => Some(v),
        }
    }
}

/// The resolved variables that `chase` passes on its way from `key`, in
/// order.
pub open spec fn passed<T>(
    m: Map<(Id, Level), T>,
    var_of: spec_fn(T) -> Option<(Id, Level)>,
    key: (Id, Level),
    fuel: nat,
) -> Seq<(Id, Level)>
    decreases fuel,
{
    if !m.contains_key(key) {
        Seq::empty()
    } else {
        match var_of(m[key]) {
            Some(next) if fuel > 0 => seq![key] + passed(m, var_of, next, (fuel - 1) as nat),
            _ => seq![key],
        }
    }
}

/// Whether a chain ends with `v`: it is no variable, or one that is not
/// resolved.
pub open spec fn is_end<T>(
    m: Map<(Id, Level), T>,
    var_of: spec_fn(T) -> Option<(Id, Level)>,
    v: T,
) -> bool {
    match var_of(v) {
        Some(next) => !m.contains_key(next),
        None => true,
    }
}

/// Every variable that `chase` passes is resolved.
proof fn lemma_passed_resolved<T>(
    m: Map<(Id, Level), T>,
    var_of: spec_fn(T) -> Option<(Id, Level)>,
    key: (Id, Level),
    fuel: nat,
)
    ensures
        forall|i: int|
            0 <= i < passed(m, var_of, key, fuel).len() ==> m.contains_key(
                #[trigger] passed(m, var_of, key, fuel)[i],
            ),
    decreases fuel,
{
    let way = passed(m, var_of, key, fuel);
    if m.contains_key(key) {
        match var_of(m[key]) {
            Some(next) => {
                if fuel > 0 {
                    let tail = passed(m, var_of, next, (fuel - 1) as nat);
                    lemma_passed_resolved(m, var_of, next, (fuel - 1) as nat);
                    assert forall|i: int| 0 <= i < way.len() implies m.contains_key(
                        #[trigger] way[i],
                    ) by {
                        if i > 0 {
                            assert(way[i] == tail[i - 1]);
                        }
                    }
                }
            },
            None => {},
        }
    }
}

/// A chase that passes no more variables than it has fuel for reaches the
/// end of the chain.
proof fn lemma_chase_ends<T>(
    m: Map<(Id, Level), T>,
    var_of: spec_fn(T) -> Option<(Id, Level)>,
    key: (Id, Level),
    fuel: nat,
)
    requires
        m.contains_key(key),
        passed(m, var_of, key, fuel).len() <= fuel,
    ensures
        chase(m, var_of, key, fuel) is Some,
        is_end(m, var_of, chase(m, var_of, key, fuel)->0),
    decreases fuel,
{
    match var_of(m[key]) {
        Some(next) => {
            if fuel > 0 && m.contains_key(next) {
                lemma_chase_ends(m, var_of, next, (fuel - 1) as nat);
            }
        },
        None => {},
    }
}

/// Resolution reaches the end of a chain that does not loop: where no
/// variable is passed twice on the way from `key`, what `key` resolves to
/// is no variable, or a variable that is not resolved.
pub proof fn lemma_resolution_ends<T>(
    m: Map<(Id, Level), T>,
    var_of: spec_fn(T) -> Option<(Id, Level)>,
    key: (Id, Level),
)
    requires
        m.dom().finite(),
        m.contains_key(key),
        passed(m, var_of, key, m.dom().len()).no_duplicates(),
    ensures
        chase(m, var_of, key, m.dom().len()) is Some,
        is_end(m, var_of, chase(m, var_of, key, m.dom().len())->0),
{
    let way = passed(m, var_of, key, m.dom().len());
    lemma_passed_resolved(m, var_of, key, m.dom().len());
    way.unique_seq_to_set();
    assert(way.to_set().subset_of(m.dom())) by {
        assert forall|k: (Id, Level)| way.to_set().contains(k) implies m.dom().contains(k) by {
            let i = choose|i: int| 0 <= i < way.len() && way[i] == k;
            assert(m.contains_key(way[i]));
        }
    }
    vstd::set_lib::lemma_len_subset(way.to_set(), m.dom());
    lemma_chase_ends(m, var_of, key, m.dom().len());
}

/// The map that a list of entries with distinct keys stands for: `keys[i]`
/// maps to `vals[i]`.
pub open spec fn assoc<K, V>(keys: Seq<K>, vals: Seq<V>) -> Map<K, V> {
    Map::new(|k: K| keys.contains(k), |k: K| vals[keys.index_of(k)])
}

/// The map has each key of the list, with the value at its place.
proof fn lemma_assoc_entry<K, V>(keys: Seq<K>, vals: Seq<V>, i: int)
    requires
        keys.no_duplicates(),
        0 <= i < keys.len(),
    ensures
        assoc(keys, vals).contains_key(keys[i]),
        assoc(keys, vals)[keys[i]] == vals[i],
{
    let j = keys.index_of(keys[i]);
    assert(keys[j] == keys[i]);
}

/// The map has no key that is not in the list.
proof fn lemma_assoc_absent<K, V>(keys: Seq<K>, vals: Seq<V>, k: K)
    requires
        forall|j: int| 0 <= j < keys.len() ==> keys[j] != k,
    ensures
        !assoc(keys, vals).contains_key(k),
{
    if keys.contains(k) {
        let j = choose|j: int| 0 <= j < keys.len() && keys[j] == k;
        assert(keys[j] == k);
    }
}

/// Taking an entry out of the list takes its key out of the map.
proof fn lemma_assoc_remove<K, V>(keys: Seq<K>, vals: Seq<V>, i: int)
    requires
        keys.no_duplicates(),
        keys.len() == vals.len(),
        0 <= i < keys.len(),
    ensures
        keys.remove(i).no_duplicates(),
        assoc(keys.remove(i), vals.remove(i)) == assoc(keys, vals).remove(keys[i]),
{
    let ks = keys.remove(i);
    let vs = vals.remove(i);
    assert forall|a: int, b: int| 0 <= a < ks.len() && 0 <= b < ks.len() && a != b implies ks[a]
        != ks[b] by {
        let a0 = if a < i { a } else { a + 1 };
        let b0 = if b < i { b } else { b + 1 };
        assert(ks[a] == keys[a0]);
        assert(ks[b] == keys[b0]);
    }
    let m = assoc(keys, vals).remove(keys[i]);
    assert forall|k: K| #[trigger] assoc(ks, vs).contains_key(k) <==> m.contains_key(k) by {
        if ks.contains(k) {
            let j = choose|j: int| 0 <= j < ks.len() && ks[j] == k;
            let j0 = if j < i { j } else { j + 1 };
            assert(keys[j0] == k);
        }
        if k != keys[i] && keys.contains(k) {
            let j0 = choose|j: int| 0 <= j < keys.len() && keys[j] == k;
            let j = if j0 < i { j0 } else { j0 - 1 };
            assert(ks[j] == k);
        }
    }
    assert forall|k: K| assoc(ks, vs).contains_key(k) implies #[trigger] assoc(ks, vs)[k]
        == m[k] by {
        let j = choose|j: int| 0 <= j < ks.len() && ks[j] == k;
        let j0 = if j < i { j } else { j + 1 };
        assert(keys[j0] == k);
        lemma_assoc_entry(ks, vs, j);
        lemma_assoc_entry(keys, vals, j0);
    }
    assert(assoc(ks, vs) =~= m);
}

/// Adding an entry with a new key to the list adds it to the map.
proof fn lemma_assoc_push<K, V>(keys: Seq<K>, vals: Seq<V>, k: K, v: V)
    requires
        keys.no_duplicates(),
        keys.len() == vals.len(),
        !assoc(keys, vals).contains_key(k),
    ensures
        keys.push(k).no_duplicates(),
        assoc(keys.push(k), vals.push(v)) == assoc(keys, vals).insert(k, v),
{
    let ks = keys.push(k);
    let vs = vals.push(v);
    assert forall|a: int, b: int| 0 <= a < ks.len() && 0 <= b < ks.len() && a != b implies ks[a]
        != ks[b] by {
        if a < keys.len() {
            assert(keys.contains(keys[a]));
        }
        if b < keys.len() {
            assert(keys.contains(keys[b]));
        }
    }
    let m = assoc(keys, vals).insert(k, v);
    assert forall|x: K| #[trigger] assoc(ks, vs).contains_key(x) <==> m.contains_key(x) by {
        if ks.contains(x) {
            let j = choose|j: int| 0 <= j < ks.len() && ks[j] == x;
            if j < keys.len() {
                assert(keys[j] == x);
            }
        }
        if keys.contains(x) {
            let j = choose|j: int| 0 <= j < keys.len() && keys[j] == x;
            assert(ks[j] == x);
        }
        assert(ks[keys.len() as int] == k);
    }
    assert forall|x: K| assoc(ks, vs).contains_key(x) implies #[trigger] assoc(ks, vs)[x]
        == m[x] by {
        let j = choose|j: int| 0 <= j < ks.len() && ks[j] == x;
        lemma_assoc_entry(ks, vs, j);
        if j < keys.len() {
            assert(keys[j] == x);
            lemma_assoc_entry(keys, vals, j);
        }
    }
    assert(assoc(ks, vs) =~= m);
}

/// The map has as many keys as the list has entries.
proof fn lemma_assoc_len<K, V>(keys: Seq<K>, vals: Seq<V>)
    requires
        keys.no_duplicates(),
    ensures
        assoc(keys, vals).dom().finite(),
        assoc(keys, vals).dom().len() == keys.len(),
{
    keys.unique_seq_to_set();
    assert(assoc(keys, vals).dom() =~= keys.to_set());
}

/// The names in scope with their types, and the resolutions of the type
/// variables.
pub struct Env<T> {
    names: Vec<(String, T)>,
    bound: Vec<(Id, Level, T)>,
}

impl<T> Env<T> {
    spec fn name_keys(&self) -> Seq<Seq<char>> {
        Seq::new(self.names@.len(), |i: int| self.names@[i].0@)
    }

    spec fn name_vals(&self) -> Seq<T> {
        Seq::new(self.names@.len(), |i: int| self.names@[i].1)
    }

    spec fn bound_keys(&self) -> Seq<(Id, Level)> {
        Seq::new(self.bound@.len(), |i: int| (self.bound@[i].0, self.bound@[i].1))
    }

    spec fn bound_vals(&self) -> Seq<T> {
        Seq::new(self.bound@.len(), |i: int| self.bound@[i].2)
    }

    /// No name and no variable has two entries.
    pub closed spec fn wf(&self) -> bool {
        &&& self.name_keys().no_duplicates()
        &&& self.bound_keys().no_duplicates()
    }

    /// The names in scope, each with the value it stands for.
    pub closed spec fn names(&self) -> Map<Seq<char>, T> {
        assoc(self.name_keys(), self.name_vals())
    }

    /// The type variables that have been resolved, each with its resolution.
    pub closed spec fn bindings(&self) -> Map<(Id, Level), T> {
        assoc(self.bound_keys(), self.bound_vals())
    }

    /// There are finitely many resolved variables.
    pub proof fn lemma_bindings_finite(&self)
        requires
            self.wf(),
        ensures
            self.bindings().dom().finite(),
    {
        lemma_assoc_len(self.bound_keys(), self.bound_vals());
    }

    /// An environment with no name in scope and no variable resolved.
    pub fn new() -> (e: Self)
        ensures
            e.wf(),
            e.names() == Map::<Seq<char>, T>::empty(),
            e.bindings() == Map::<(Id, Level), T>::empty(),
    {
        let e = Env { names: Vec::new(), bound: Vec::new() };
        assert(e.names() =~= Map::<Seq<char>, T>::empty());
        assert(e.bindings() =~= Map::<(Id, Level), T>::empty());
        e
    }

    /// The place of the entry for the name `k`, if there is one.
    fn find_name(&self, k: &String) -> (r: Option<usize>)
        ensures
            match r {
                Some(i) => i < self.names@.len() && self.name_keys()[i as int] == k@,
                None => !self.names().contains_key(k@),
            },
    {
        let mut i: usize = 0;
        while i < self.names.len()
            invariant
                i <= self.names@.len(),
                forall|j: int| 0 <= j < i ==> self.name_keys()[j] != k@,
            decreases self.names@.len() - i,
        {
            if self.names[i].0 == *k {
                return Some(i);
            }
            i = i + 1;
        }
        proof {
            lemma_assoc_absent(self.name_keys(), self.name_vals(), k@);
        }
        None
    }

    /// The place of the entry for the variable `id` at `level`, if there is
    /// one.
    fn find_bound(&self, id: Id, level: Level) -> (r: Option<usize>)
        ensures
            match r {
                Some(i) => i < self.bound@.len() && self.bound_keys()[i as int] == (id, level),
                None => !self.bindings().contains_key((id, level)),
            },
    {
        let mut i: usize = 0;
        while i < self.bound.len()
            invariant
                i <= self.bound@.len(),
                forall|j: int| 0 <= j < i ==> self.bound_keys()[j] != (id, level),
            decreases self.bound@.len() - i,
        {
            if self.bound[i].0 == id && self.bound[i].1 == level {
                return Some(i);
            }
            i = i + 1;
        }
        proof {
            lemma_assoc_absent(self.bound_keys(), self.bound_vals(), (id, level));
        }
        None
    }

    /// The value that the name `k` stands for, if it is in scope.
    pub fn lookup(&self, k: &str) -> (r: Option<&T>)
        requires
            self.wf(),
        ensures
            match r {
                Some(v) => self.names().contains_key(k@) && *v == self.names()[k@],
                None => !self.names().contains_key(k@),
            },
    {
        let key = k.to_owned();
        match self.find_name(&key) {
            Some(i) => {
                proof {
                    lemma_assoc_entry(self.name_keys(), self.name_vals(), i as int);
                }
                Some(&self.names[i].1)
            },
            None => None,
        }
    }

    /// Takes the name `k` out of scope and hands back the value that it
    /// stood for, if it was in scope.
    pub fn remove(&mut self, k: &str) -> (r: Option<T>)
        requires
            old(self).wf(),
        ensures
            final(self).wf(),
            final(self).names() == old(self).names().remove(k@),
            final(self).bindings() == old(self).bindings(),
            r == if old(self).names().contains_key(k@) {
                Some(old(self).names()[k@])
            } else {
                None
            },
    {
        let key = k.to_owned();
        let found = self.find_name(&key);
        match found {
            Some(i) => {
                proof {
                    lemma_assoc_entry(self.name_keys(), self.name_vals(), i as int);
                    lemma_assoc_remove(self.name_keys(), self.name_vals(), i as int);
                }
                let entry = self.names.remove(i);
                proof {
                    assert(self.name_keys() =~= old(self).name_keys().remove(i as int));
                    assert(self.name_vals() =~= old(self).name_vals().remove(i as int));
                    assert(self.bound_keys() =~= old(self).bound_keys());
                    assert(self.bound_vals() =~= old(self).bound_vals());
                }
                Some(entry.1)
            },
            None => {
                assert(self.names() =~= old(self).names().remove(k@));
                None
            },
        }
    }

    /// Brings the name `k` into scope with the value `v`, and hands back the
    /// value that it stood for before, if any.
    pub fn insert(&mut self, k: &str, v: T) -> (r: Option<T>)
        requires
            old(self).wf(),
        ensures
            final(self).wf(),
            final(self).names() == old(self).names().insert(k@, v),
            final(self).bindings() == old(self).bindings(),
            r == if old(self).names().contains_key(k@) {
                Some(old(self).names()[k@])
            } else {
                None
            },
    {
        let r = self.remove(k);
        let ghost mid = *self;
        proof {
            lemma_assoc_push(self.name_keys(), self.name_vals(), k@, v);
        }
        self.names.push((k.to_owned(), v));
        proof {
            assert(self.name_keys() =~= mid.name_keys().push(k@));
            assert(self.name_vals() =~= mid.name_vals().push(v));
            assert(self.bound_keys() =~= mid.bound_keys());
            assert(self.bound_vals() =~= mid.bound_vals());
            assert(old(self).names().remove(k@).insert(k@, v) =~= old(self).names().insert(k@, v));
        }
        r
    }

    /// Takes back the resolution of the variable `id` at `level` and hands
    /// it back, if there was one.
    pub fn unbind(&mut self, id: Id, level: Level) -> (r: Option<T>)
        requires
            old(self).wf(),
        ensures
            final(self).wf(),
            final(self).bindings() == old(self).bindings().remove((id, level)),
            final(self).names() == old(self).names(),
            r == if old(self).bindings().contains_key((id, level)) {
                Some(old(self).bindings()[(id, level)])
            } else {
                None
            },
    {
        let found = self.find_bound(id, level);
        match found {
            Some(i) => {
                proof {
                    lemma_assoc_entry(self.bound_keys(), self.bound_vals(), i as int);
                    lemma_assoc_remove(self.bound_keys(), self.bound_vals(), i as int);
                }
                let entry = self.bound.remove(i);
                proof {
                    assert(self.bound_keys() =~= old(self).bound_keys().remove(i as int));
                    assert(self.bound_vals() =~= old(self).bound_vals().remove(i as int));
                    assert(self.name_keys() =~= old(self).name_keys());
                    assert(self.name_vals() =~= old(self).name_vals());
                }
                Some(entry.2)
            },
            None => {
                assert(self.bindings() =~= old(self).bindings().remove((id, level)));
                None
            },
        }
    }

    /// Records `v` as the resolution of the variable `id` at `level`, in
    /// place of any earlier one, which is handed back.
    pub fn bind(&mut self, id: Id, level: Level, v: T) -> (r: Option<T>)
        requires
            old(self).wf(),
        ensures
            final(self).wf(),
            final(self).bindings() == old(self).bindings().insert((id, level), v),
            final(self).names() == old(self).names(),
            r == if old(self).bindings().contains_key((id, level)) {
                Some(old(self).bindings()[(id, level)])
            } else {
                None
            },
    {
        let r = self.unbind(id, level);
        let ghost mid = *self;
        proof {
            lemma_assoc_push(self.bound_keys(), self.bound_vals(), (id, level), v);
        }
        self.bound.push((id, level, v));
        proof {
            assert(self.bound_keys() =~= mid.bound_keys().push((id, level)));
            assert(self.bound_vals() =~= mid.bound_vals().push(v));
            assert(self.name_keys() =~= mid.name_keys());
            assert(self.name_vals() =~= mid.name_vals());
            assert(old(self).bindings().remove((id, level)).insert((id, level), v)
                =~= old(self).bindings().insert((id, level), v));
        }
        r
    }

    /// The number of resolved variables.
    pub fn binding_count(&self) -> (n: usize)
        requires
            self.wf(),
        ensures
            n == self.bindings().dom().len(),
    {
        proof {
            lemma_assoc_len(self.bound_keys(), self.bound_vals());
        }
        self.bound.len()
    }
}

impl<T: Clone> Clone for Env<T> {
    /// An environment with a clone of every entry of this one.
    fn clone(&self) -> (r: Self)
        ensures
            self.wf() ==> {
                &&& r.wf()
                &&& r.names().dom() == self.names().dom()
                &&& r.bindings().dom() == self.bindings().dom()
                &&& forall|k: Seq<char>| #[trigger]
                    self.names().contains_key(k) ==> cloned(self.names()[k], r.names()[k])
                &&& forall|k: (Id, Level)| #[trigger]
                    self.bindings().contains_key(k) ==> cloned(
                        self.bindings()[k],
                        r.bindings()[k],
                    )
            },
    {
        let mut names: Vec<(String, T)> = Vec::new();
        let mut i: usize = 0;
        while i < self.names.len()
            invariant
                i <= self.names@.len(),
                names@.len() == i,
                forall|j: int| 0 <= j < i ==> names@[j].0@ == self.names@[j].0@,
                forall|j: int| 0 <= j < i ==> cloned(self.names@[j].1, names@[j].1),
            decreases self.names@.len() - i,
        {
            names.push((self.names[i].0.clone(), self.names[i].1.clone()));
            i = i + 1;
        }
        let mut bound: Vec<(Id, Level, T)> = Vec::new();
        let mut i: usize = 0;
        while i < self.bound.len()
            invariant
                i <= self.bound@.len(),
                bound@.len() == i,
                forall|j: int|
                    0 <= j < i ==> bound@[j].0 == self.bound@[j].0 && bound@[j].1
                        == self.bound@[j].1,
                forall|j: int| 0 <= j < i ==> cloned(self.bound@[j].2, bound@[j].2),
            decreases self.bound@.len() - i,
        {
            bound.push((self.bound[i].0, self.bound[i].1, self.bound[i].2.clone()));
            i = i + 1;
        }
        let r = Env { names, bound };
        proof {
            if self.wf() {
                assert(r.name_keys() =~= self.name_keys());
                assert(r.bound_keys() =~= self.bound_keys());
                assert(r.names().dom() =~= self.names().dom());
                assert(r.bindings().dom() =~= self.bindings().dom());
                assert forall|k: Seq<char>| #[trigger] self.names().contains_key(k) implies cloned(
                    self.names()[k],
                    r.names()[k],
                ) by {
                    let j = self.name_keys().index_of(k);
                    lemma_assoc_entry(self.name_keys(), self.name_vals(), j);
                    lemma_assoc_entry(r.name_keys(), r.name_vals(), j);
                }
                assert forall|k: (Id, Level)| #[trigger]
                    self.bindings().contains_key(k) implies cloned(
                    self.bindings()[k],
                    r.bindings()[k],
                ) by {
                    let j = self.bound_keys().index_of(k);
                    lemma_assoc_entry(self.bound_keys(), self.bound_vals(), j);
                    lemma_assoc_entry(r.bound_keys(), r.bound_vals(), j);
                }
            }
        }
        r
    }
}

impl<T: Clone> Env<T> {
    /// An environment with a clone of every entry of this one.
    pub fn duplicate(&self) -> (r: Self)
        requires
            self.wf(),
        ensures
            r.wf(),
            r.names().dom() == self.names().dom(),
            r.bindings().dom() == self.bindings().dom(),
            forall|k: Seq<char>| #[trigger]
                self.names().contains_key(k) ==> cloned(self.names()[k], r.names()[k]),
            forall|k: (Id, Level)| #[trigger]
                self.bindings().contains_key(k) ==> cloned(self.bindings()[k], r.bindings()[k]),
    {
        self.clone()
    }
}

impl<T: Bindable> Env<T> {
    /// What the variable `id` at `level` resolves to: the end of the chain
    /// of variables that starts at its resolution. A chain that does not
    /// loop passes each resolved variable at most once, so it is followed
    /// for as many links as there are resolved variables.
    pub open spec fn resolve(&self, id: Id, level: Level) -> Option<T> {
        chase(
            self.bindings(),
            |t: T| t.unbound_id_level(),
            (id, level),
            self.bindings().dom().len(),
        )
    }

    /// Follows the chain of variables from `id` at `level` for at most `fuel`
    /// links after the first.
    fn follow(&self, id: Id, level: Level, fuel: usize) -> (r: Option<&T>)
        requires
            self.wf(),
        ensures
            match r {
                Some(v) => Some(*v),
                None => None,
            } == chase(self.bindings(), |t: T| t.unbound_id_level(), (id, level), fuel as nat),
        decreases fuel,
    {
        match self.find_bound(id, level) {
            Some(i) => {
                proof {
                    lemma_assoc_entry(self.bound_keys(), self.bound_vals(), i as int);
                }
                let v = &self.bound[i].2;
                match T::get_unbound_id_level(v) {
                    Some((next_id, next_level)) => {
                        if fuel > 0 {
                            match self.follow(next_id, next_level, fuel - 1) {
                                Some(binding) => Some(binding),
                                None => Some(v),
                            }
                        } else {
                            Some(v)
                        }
                    },
                    None => Some(v),
                }
            },
            None => None,
        }
    }

    /// What the variable `id` at `level` resolves to, following variables
    /// that are resolved in turn; `None` where it is not resolved.
    pub fn lookup_binding(&self, id: Id, level: Level) -> (r: Option<&T>)
        requires
            self.wf(),
        ensures
            match r {
                Some(v) => Some(*v),
                None => None,
            } == self.resolve(id, level),
    {
        let fuel = self.binding_count();
        self.follow(id, level, fuel)
    }
}

} // verus!
