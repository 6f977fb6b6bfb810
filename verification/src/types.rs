//! The types that the type checker infers, and the values they are modelled by.

use vstd::prelude::*;
use vstd::std_specs::convert::FromSpecImpl;
use crate::env::{Bindable, Id, Level};

verus! {

/// A type of the language.
#[derive(Debug, PartialEq, Eq)]
pub enum Type {
    /// A base type, known by its name.
    Const(String),
    /// A type constructor applied to arguments.
    App(Box<Type>, Vec<Type>),
    /// A function type: the parameters in order, then the result.
    Arrow(Vec<Type>, Box<Type>),
    /// A placeholder, known by its id, made at the given level. What it
    /// stands for, if anything yet, is recorded in the environment.
    TypeVar(Id, Level),
    /// A placeholder that stands for any type, each time anew.
    Generic(Id),
}

/// What a [`Type`] is, as a mathematical value.
pub enum TypeView {
    Const(Seq<char>),
    App(Box<TypeView>, Seq<TypeView>),
    Arrow(Seq<TypeView>, Box<TypeView>),
    TypeVar(Id, Level),
    Generic(Id),
}

/// The value that `t` is modelled by.
pub open spec fn type_view(t: Type) -> TypeView
    decreases t, 0nat,
{
    match t {
        Type::Const(name) => TypeView::Const(name@),
        Type::App(head, params) => TypeView::App(
            Box::new(type_view(*head)),
            types_view(params),
        ),
        Type::Arrow(params, ret) => TypeView::Arrow(
            types_view(params),
            Box::new(type_view(*ret)),
        ),
        Type::TypeVar(id, level) => TypeView::TypeVar(id, level),
        Type::Generic(id) => TypeView::Generic(id),
    }
}

/// The values that the types in `ts` are modelled by, in order.
pub open spec fn types_view(ts: Vec<Type>) -> Seq<TypeView>
    decreases ts, 1nat,
{
    Seq::new(
        ts.len() as nat,
        |i: int|
            if 0 <= i < ts.len() {
                type_view(ts[i])
            } else {
                TypeView::Generic(0)
            },
    )
}

impl View for Type {
    type V = TypeView;

    open spec fn view(&self) -> TypeView {
        type_view(*self)
    }
}

impl TypeView {
    /// The id and level of the variable that the type is, if it is one.
    pub open spec fn as_var(self) -> Option<(Id, Level)> {
        match self {
            TypeView::TypeVar(id, level) => Some((id, level)),
            _ => None,
        }
    }
}

/// Whether `t` holds no generic placeholder.
pub open spec fn generic_free(t: TypeView) -> bool
    decreases t,
{
    match t {
        TypeView::TypeVar(_, _) => true,
        TypeView::Const(_) => true,
        TypeView::Generic(_) => false,
        TypeView::App(head, params) => generic_free(*head) && forall|i: int|
            0 <= i < params.len() ==> generic_free(#[trigger] params[i]),
        TypeView::Arrow(params, ret) => generic_free(*ret) && forall|i: int|
            0 <= i < params.len() ==> generic_free(#[trigger] params[i]),
    }
}

/// A type whose parts hold no generic placeholder holds none.
pub proof fn lemma_generic_free_whole(whole: TypeView, parts: Seq<TypeView>)
    requires
        generic_free(whole),
        forall|i: int| 0 <= i < parts.len() ==> generic_free(#[trigger] parts[i]),
    ensures
        generic_free(TypeView::App(Box::new(whole), parts)),
        generic_free(TypeView::Arrow(parts, Box::new(whole))),
{
}

/// The parts of a type that holds no generic placeholder hold none.
pub proof fn lemma_generic_free_parts(t: TypeView)
    requires
        generic_free(t),
    ensures
        match t {
            TypeView::App(head, params) => generic_free(*head) && forall|i: int|
                0 <= i < params.len() ==> generic_free(#[trigger] params[i]),
            TypeView::Arrow(params, ret) => generic_free(*ret) && forall|i: int|
                0 <= i < params.len() ==> generic_free(#[trigger] params[i]),
            _ => true,
        },
{
}

/// Whether no type in `ts` holds a generic placeholder.
pub fn all_generic_free(ts: &Vec<Type>) -> (r: bool)
    ensures
        r == forall|i: int| 0 <= i < ts.len() ==> generic_free(#[trigger] types_view(*ts)[i]),
    decreases ts, 1nat,
{
    let mut i: usize = 0;
    while i < ts.len()
        invariant
            i <= ts.len(),
            forall|j: int| 0 <= j < i ==> generic_free(#[trigger] types_view(*ts)[j]),
        decreases ts.len() - i,
    {
        assert(types_view(*ts)[i as int] == type_view(ts[i as int]));
        if !ts[i].is_generic_free() {
            return false;
        }
        i = i + 1;
    }
    true
}

/// A copy of each type in `ts`, in order.
pub fn clone_types(ts: &Vec<Type>) -> (r: Vec<Type>)
    ensures
        types_view(r) == types_view(*ts),
    decreases ts, 1nat,
{
    let mut r: Vec<Type> = Vec::new();
    let mut i: usize = 0;
    while i < ts.len()
        invariant
            i <= ts.len(),
            r.len() == i,
            forall|j: int| 0 <= j < i ==> type_view(r[j]) == type_view(ts[j]),
        decreases ts.len() - i,
    {
        r.push(ts[i].duplicate());
        i = i + 1;
    }
    assert(types_view(r) =~= types_view(*ts));
    r
}

/// Whether the types in `a` and in `b` are the same, one by one.
pub fn same_types(a: &Vec<Type>, b: &Vec<Type>) -> (r: bool)
    ensures
        r == (types_view(*a) == types_view(*b)),
    decreases a, 1nat,
{
    if a.len() != b.len() {
        assert(types_view(*a).len() != types_view(*b).len());
        return false;
    }
    let mut i: usize = 0;
    while i < a.len()
        invariant
            i <= a.len(),
            a.len() == b.len(),
            forall|j: int| 0 <= j < i ==> type_view(a[j]) == type_view(b[j]),
        decreases a.len() - i,
    {
        if !a[i].same(&b[i]) {
            assert(types_view(*a)[i as int] != types_view(*b)[i as int]);
            return false;
        }
        i = i + 1;
    }
    assert(types_view(*a) =~= types_view(*b));
    true
}

impl Type {
    /// A copy of the type.
    pub fn duplicate(&self) -> (r: Type)
        ensures
            r@ == self@,
        decreases self, 0nat,
    {
        match self {
            Type::Const(name) => Type::Const(name.clone()),
            Type::App(head, params) => Type::App(
                Box::new(head.duplicate()),
                clone_types(params),
            ),
            Type::Arrow(params, ret) => Type::Arrow(
                clone_types(params),
                Box::new(ret.duplicate()),
            ),
            Type::TypeVar(id, level) => Type::TypeVar(*id, *level),
            Type::Generic(id) => Type::Generic(*id),
        }
    }

    /// Whether the type holds no generic placeholder.
    pub fn is_generic_free(&self) -> (r: bool)
        ensures
            r == generic_free(self@),
        decreases self, 0nat,
    {
        match self {
            Type::TypeVar(_, _) => true,
            Type::Const(_) => true,
            Type::Generic(_) => false,
            Type::App(head, params) => {
                assert(types_view(*params).len() == params.len());
                assert(self@ == TypeView::App(Box::new(head@), types_view(*params)));
                let whole = head.is_generic_free();
                let parts = all_generic_free(params);
                proof {
                    if whole && parts {
                        lemma_generic_free_whole(head@, types_view(*params));
                    }
                    if generic_free(self@) {
                        lemma_generic_free_parts(self@);
                    }
                }
                whole && parts
            },
            Type::Arrow(params, ret) => {
                assert(types_view(*params).len() == params.len());
                assert(self@ == TypeView::Arrow(types_view(*params), Box::new(ret@)));
                let whole = ret.is_generic_free();
                let parts = all_generic_free(params);
                proof {
                    if whole && parts {
                        lemma_generic_free_whole(ret@, types_view(*params));
                    }
                    if generic_free(self@) {
                        lemma_generic_free_parts(self@);
                    }
                }
                whole && parts
            },
        }
    }

    /// Whether the two types are the same tree.
    pub fn same(&self, other: &Type) -> (r: bool)
        ensures
            r == (self@ == other@),
        decreases self, 0nat,
    {
        match (self, other) {
            (Type::Const(a), Type::Const(b)) => *a == *b,
            (Type::App(h1, ps1), Type::App(h2, ps2)) => h1.same(h2) && same_types(ps1, ps2),
            (Type::Arrow(ps1, r1), Type::Arrow(ps2, r2)) => same_types(ps1, ps2) && r1.same(r2),
            (Type::TypeVar(i1, l1), Type::TypeVar(i2, l2)) => *i1 == *i2 && *l1 == *l2,
            (Type::Generic(i1), Type::Generic(i2)) => *i1 == *i2,
            _ => false,
        }
    }
}

impl Clone for Type {
    fn clone(&self) -> (r: Self)
        ensures
            r@ == self@,
    {
        self.duplicate()
    }
}

impl Bindable for Type {
    open spec fn unbound_id_level(&self) -> Option<(Id, Level)> {
        self@.as_var()
    }

    fn get_unbound_id_level(v: &Self) -> (r: Option<(Id, Level)>) {
        match v {
            Type::TypeVar(id, level) => Some((*id, *level)),
            _ => None,
        }
    }
}

impl From<(Id, Option<Level>)> for Type {
    /// A placeholder with the given id: a variable at the level, or a
    /// generic one where no level is given.
    fn from(v: (Id, Option<Level>)) -> (r: Type) {
        match v.1 {
            Some(level) => Type::TypeVar(v.0, level),
            None => Type::Generic(v.0),
        }
    }
}

impl FromSpecImpl<(Id, Option<Level>)> for Type {
    open spec fn obeys_from_spec() -> bool {
        true
    }

    open spec fn from_spec(v: (Id, Option<Level>)) -> Type {
        match v.1 {
            Some(level) => Type::TypeVar(v.0, level),
            None => Type::Generic(v.0),
        }
    }
}

/// A term of the language.
#[derive(Debug, PartialEq, Eq)]
pub enum Term {
    /// A name.
    Var(String),
    /// A function applied to arguments.
    App(Box<Term>, Vec<Term>),
    /// A function of the named parameters.
    Abs(Vec<String>, Box<Term>),
    /// `let name = bound in body`.
    Let(String, Box<Term>, Box<Term>),
}

/// What a [`Term`] is, as a mathematical value.
pub enum TermView {
    Var(Seq<char>),
    App(Box<TermView>, Seq<TermView>),
    Abs(Seq<Seq<char>>, Box<TermView>),
    Let(Seq<char>, Box<TermView>, Box<TermView>),
}

/// The value that `t` is modelled by.
pub open spec fn term_view(t: Term) -> TermView
    decreases t, 0nat,
{
    match t {
        Term::Var(name) => TermView::Var(name@),
        Term::App(f, args) => TermView::App(Box::new(term_view(*f)), terms_view(args)),
        Term::Abs(params, body) => TermView::Abs(names_view(params), Box::new(term_view(*body))),
        Term::Let(name, bound, body) => TermView::Let(
            name@,
            Box::new(term_view(*bound)),
            Box::new(term_view(*body)),
        ),
    }
}

/// The values that the terms in `ts` are modelled by, in order.
pub open spec fn terms_view(ts: Vec<Term>) -> Seq<TermView>
    decreases ts, 1nat,
{
    Seq::new(
        ts.len() as nat,
        |i: int|
            if 0 <= i < ts.len() {
                term_view(ts[i])
            } else {
                TermView::Var(Seq::empty())
            },
    )
}

/// The names in `names` as sequences of characters, in order.
pub open spec fn names_view(names: Vec<String>) -> Seq<Seq<char>> {
    Seq::new(names.len() as nat, |i: int| names[i]@)
}

impl View for Term {
    type V = TermView;

    open spec fn view(&self) -> TermView {
        term_view(*self)
    }
}

/// A copy of each name in `names`, in order.
pub fn clone_names(names: &Vec<String>) -> (r: Vec<String>)
    ensures
        names_view(r) == names_view(*names),
{
    let mut r: Vec<String> = Vec::new();
    let mut i: usize = 0;
    while i < names.len()
        invariant
            i <= names.len(),
            r.len() == i,
            forall|j: int| 0 <= j < i ==> r[j]@ == names[j]@,
        decreases names.len() - i,
    {
        r.push(names[i].clone());
        i = i + 1;
    }
    assert(names_view(r) =~= names_view(*names));
    r
}

/// A copy of each term in `ts`, in order.
pub fn clone_terms(ts: &Vec<Term>) -> (r: Vec<Term>)
    ensures
        terms_view(r) == terms_view(*ts),
    decreases ts, 1nat,
{
    let mut r: Vec<Term> = Vec::new();
    let mut i: usize = 0;
    while i < ts.len()
        invariant
            i <= ts.len(),
            r.len() == i,
            forall|j: int| 0 <= j < i ==> term_view(r[j]) == term_view(ts[j]),
        decreases ts.len() - i,
    {
        r.push(ts[i].duplicate());
        i = i + 1;
    }
    assert(terms_view(r) =~= terms_view(*ts));
    r
}

impl Term {
    /// A copy of the term.
    pub fn duplicate(&self) -> (r: Term)
        ensures
            r@ == self@,
        decreases self, 0nat,
    {
        match self {
            Term::Var(name) => Term::Var(name.clone()),
            Term::App(f, args) => Term::App(Box::new(f.duplicate()), clone_terms(args)),
            Term::Abs(params, body) => Term::Abs(clone_names(params), Box::new(body.duplicate())),
            Term::Let(name, bound, body) => Term::Let(
                name.clone(),
                Box::new(bound.duplicate()),
                Box::new(body.duplicate()),
            ),
        }
    }
}

impl Clone for Term {
    fn clone(&self) -> (r: Self)
        ensures
            r@ == self@,
    {
        self.duplicate()
    }
}

/// Why a term has no type.
#[derive(Debug, PartialEq, Eq)]
pub enum Error {
    /// The name is not in scope.
    UndefinedVariable(String),
    /// The function names one parameter twice.
    ConflictingParameterNames(Term),
    /// A function of the first number of parameters met the second number
    /// of them.
    ArityMismatch(usize, usize),
    /// Something that is no function was applied to arguments.
    NotAFunction(Type),
    /// The two types have different shapes.
    UnificationFailure(Type, Type),
    /// The variable with this id would have to contain itself.
    InfiniteType(Id),
    /// The types or the term are nested more deeply than [`MAX_DEPTH`].
    DepthExceeded,
    /// No id is left for a fresh type variable.
    IdsExhausted,
}

/// What an [`Error`] is, as a mathematical value.
pub enum ErrorView {
    UndefinedVariable(Seq<char>),
    ConflictingParameterNames(TermView),
    ArityMismatch(nat, nat),
    NotAFunction(TypeView),
    UnificationFailure(TypeView, TypeView),
    InfiniteType(Id),
    DepthExceeded,
    IdsExhausted,
}

impl View for Error {
    type V = ErrorView;

    open spec fn view(&self) -> ErrorView {
        match self {
            Error::UndefinedVariable(name) => ErrorView::UndefinedVariable(name@),
            Error::ConflictingParameterNames(term) => ErrorView::ConflictingParameterNames(term@),
            Error::ArityMismatch(expected, got) => ErrorView::ArityMismatch(
                *expected as nat,
                *got as nat,
            ),
            Error::NotAFunction(t) => ErrorView::NotAFunction(t@),
            Error::UnificationFailure(a, b) => ErrorView::UnificationFailure(a@, b@),
            Error::InfiniteType(id) => ErrorView::InfiniteType(*id),
            Error::DepthExceeded => ErrorView::DepthExceeded,
            Error::IdsExhausted => ErrorView::IdsExhausted,
        }
    }
}

/// How deeply types and terms may be nested for the type checker to follow them.
pub const MAX_DEPTH: usize = 1024;

} // verus!
