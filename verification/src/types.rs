//! Types of the language as the passes read them.

use crate::text;
use vstd::prelude::*;

verus! {

/// The range and storage of an integer type.
#[derive(Clone, Copy, Debug, PartialEq, Eq, Structural)]
pub struct IntegerSpec {
    pub min: i32,
    pub max: u32,
    pub not_null: bool,
    /// The storage width in bytes that the declaration forces; 0 forces none.
    pub forced_size: u8,
}

/// The numbering that a dependency is written in.
#[derive(Clone, Copy, Debug, PartialEq, Eq, Structural)]
pub enum DepSpace {
    Frame,
    CalleeFrame,
    Share,
}

/// The variables whose storage a value depends on.
#[derive(Debug)]
pub struct Deps {
    pub space: DepSpace,
    pub vars: Vec<u16>,
}

/// What the variables of a dependency list are.
pub struct DepList {
    pub space: DepSpace,
    pub vars: Seq<u16>,
}

/// A type.  Keyed collections name the definition of their records and the
/// fields they are keyed by.
#[derive(Debug)]
pub enum Type {
    Unknown(u32),
    Void,
    Null,
    Never,
    Boolean,
    Float,
    Single,
    Character,
    Integer(IntegerSpec),
    Text(Deps),
    Enum(u32, bool, Deps),
    Reference(u32, Deps),
    Hash(u32, String, Deps),
    Sorted(u32, String, Deps),
    Index(u32, String, Deps),
    Radix(u32, String, Deps),
    Trie(u32, String, Deps),
    Vector(Box<Type>, Deps),
    Optional(Box<Type>),
    RefVar(Box<Type>),
    Rewritten(Box<Type>),
    Iterator(Box<Type>),
    Tuple(Vec<Type>),
    Function(Vec<Type>, Box<Type>, Deps),
}

/// A type as a value of its own.
pub enum Ty {
    Unknown(u32),
    Void,
    Null,
    Never,
    Boolean,
    Float,
    Single,
    Character,
    Integer(IntegerSpec),
    Text(DepList),
    Enum(u32, bool, DepList),
    Reference(u32, DepList),
    Hash(u32, Seq<char>, DepList),
    Sorted(u32, Seq<char>, DepList),
    Index(u32, Seq<char>, DepList),
    Radix(u32, Seq<char>, DepList),
    Trie(u32, Seq<char>, DepList),
    Vector(Box<Ty>, DepList),
    Optional(Box<Ty>),
    RefVar(Box<Ty>),
    Rewritten(Box<Ty>),
    Iterator(Box<Ty>),
    Tuple(Seq<Ty>),
    Function(Seq<Ty>, Box<Ty>, DepList),
}

/// No dependencies.
pub open spec fn no_deps() -> DepList {
    DepList { space: DepSpace::Frame, vars: Seq::empty() }
}

/// A dependency on one variable of the frame.
pub open spec fn frame1(v: u16) -> DepList {
    DepList { space: DepSpace::Frame, vars: seq![v] }
}

/// A dependency list of variables of the frame.
pub open spec fn frame(vars: Seq<u16>) -> DepList {
    DepList { space: DepSpace::Frame, vars }
}

/// The mark of a value that shares its storage with a record elsewhere.
pub open spec fn share_sentinel() -> DepList {
    DepList { space: DepSpace::Share, vars: seq![u16::MAX] }
}

impl Deps {
    pub open spec fn view(&self) -> DepList {
        DepList { space: self.space, vars: self.vars@ }
    }

    pub fn none() -> (d: Deps)
        ensures
            d@ == no_deps(),
    {
        Deps { space: DepSpace::Frame, vars: Vec::new() }
    }

    pub fn frame1(v: u16) -> (d: Deps)
        ensures
            d@ == frame1(v),
    {
        let mut vars: Vec<u16> = Vec::new();
        vars.push(v);
        let d = Deps { space: DepSpace::Frame, vars };
        assert(d@.vars =~= frame1(v).vars);
        d
    }

    pub fn frame(vars: Vec<u16>) -> (d: Deps)
        ensures
            d@ == frame(vars@),
    {
        Deps { space: DepSpace::Frame, vars }
    }

    pub fn callee_frame1(v: u16) -> (d: Deps)
        ensures
            d@ == (DepList { space: DepSpace::CalleeFrame, vars: seq![v] }),
    {
        let mut vars: Vec<u16> = Vec::new();
        vars.push(v);
        let d = Deps { space: DepSpace::CalleeFrame, vars };
        assert(d@.vars =~= seq![v]);
        d
    }

    pub fn share_sentinel() -> (d: Deps)
        ensures
            d@ == share_sentinel(),
    {
        let mut vars: Vec<u16> = Vec::new();
        vars.push(u16::MAX);
        let d = Deps { space: DepSpace::Share, vars };
        assert(d@.vars =~= share_sentinel().vars);
        d
    }

    pub fn copy(&self) -> (d: Deps)
        ensures
            d@ == self@,
    {
        Deps { space: self.space, vars: copy_vars(&self.vars) }
    }

    fn same(&self, other: &Deps) -> (equal: bool)
        ensures
            equal == (self@ == other@),
    {
        self.space == other.space && same_vars(&self.vars, &other.vars)
    }
}

/// The same list of variables again.
pub fn copy_vars(vars: &Vec<u16>) -> (out: Vec<u16>)
    ensures
        out@ == vars@,
{
    let mut out: Vec<u16> = Vec::new();
    let mut i: usize = 0;
    while i < vars.len()
        invariant
            i <= vars.len(),
            out@ == vars@.take(i as int),
        decreases vars.len() - i,
    {
        out.push(vars[i]);
        assert(out@ =~= vars@.take(i + 1));
        i = i + 1;
    }
    assert(out@ =~= vars@);
    out
}

fn same_vars(a: &Vec<u16>, b: &Vec<u16>) -> (equal: bool)
    ensures
        equal == (a@ == b@),
{
    if a.len() != b.len() {
        return false;
    }
    let mut i: usize = 0;
    while i < a.len()
        invariant
            i <= a.len(),
            a.len() == b.len(),
            forall|j: int| 0 <= j < i ==> a@[j] == b@[j],
        decreases a.len() - i,
    {
        if a[i] != b[i] {
            return false;
        }
        i = i + 1;
    }
    assert(a@ =~= b@);
    true
}

/// Whether variable `v` is in the list.
pub fn has_var(vars: &Vec<u16>, v: u16) -> (found: bool)
    ensures
        found == vars@.contains(v),
{
    let mut i: usize = 0;
    while i < vars.len()
        invariant
            i <= vars.len(),
            forall|j: int| 0 <= j < i ==> vars@[j] != v,
        decreases vars.len() - i,
    {
        if vars[i] == v {
            return true;
        }
        i = i + 1;
    }
    false
}

/// The types of a list, as values.
pub open spec fn type_views(s: Seq<Type>) -> Seq<Ty>
    decreases s,
{
    Seq::new(
        s.len(),
        |i: int|
            if 0 <= i < s.len() {
                s[i].view()
            } else {
                Ty::Void
            },
    )
}

impl Type {
    /// The type as a value.
    pub open spec fn view(&self) -> Ty
        decreases self,
    {
        match *self {
            Type::Unknown(n) => Ty::Unknown(n),
            Type::Void => Ty::Void,
            Type::Null => Ty::Null,
            Type::Never => Ty::Never,
            Type::Boolean => Ty::Boolean,
            Type::Float => Ty::Float,
            Type::Single => Ty::Single,
            Type::Character => Ty::Character,
            Type::Integer(spec) => Ty::Integer(spec),
            Type::Text(d) => Ty::Text(d@),
            Type::Enum(n, fields, d) => Ty::Enum(n, fields, d@),
            Type::Reference(n, d) => Ty::Reference(n, d@),
            Type::Hash(n, key, d) => Ty::Hash(n, key@, d@),
            Type::Sorted(n, key, d) => Ty::Sorted(n, key@, d@),
            Type::Index(n, key, d) => Ty::Index(n, key@, d@),
            Type::Radix(n, key, d) => Ty::Radix(n, key@, d@),
            Type::Trie(n, key, d) => Ty::Trie(n, key@, d@),
            Type::Vector(t, d) => Ty::Vector(Box::new(t.view()), d@),
            Type::Optional(t) => Ty::Optional(Box::new(t.view())),
            Type::RefVar(t) => Ty::RefVar(Box::new(t.view())),
            Type::Rewritten(t) => Ty::Rewritten(Box::new(t.view())),
            Type::Iterator(t) => Ty::Iterator(Box::new(t.view())),
            Type::Tuple(ts) => Ty::Tuple(type_views(ts@)),
            Type::Function(ts, t, d) => Ty::Function(type_views(ts@), Box::new(t.view()), d@),
        }
    }

    /// The same type again.
    pub fn copy(&self) -> (t: Type)
        ensures
            t@ == self@,
        decreases self,
    {
        proof {
            reveal_with_fuel(type_views, 2);
            reveal_with_fuel(Type::view, 2);
        }
        match self {
            Type::Unknown(n) => Type::Unknown(*n),
            Type::Void => Type::Void,
            Type::Null => Type::Null,
            Type::Never => Type::Never,
            Type::Boolean => Type::Boolean,
            Type::Float => Type::Float,
            Type::Single => Type::Single,
            Type::Character => Type::Character,
            Type::Integer(spec) => Type::Integer(*spec),
            Type::Text(d) => Type::Text(d.copy()),
            Type::Enum(n, fields, d) => Type::Enum(*n, *fields, d.copy()),
            Type::Reference(n, d) => Type::Reference(*n, d.copy()),
            Type::Hash(n, key, d) => Type::Hash(*n, key.clone(), d.copy()),
            Type::Sorted(n, key, d) => Type::Sorted(*n, key.clone(), d.copy()),
            Type::Index(n, key, d) => Type::Index(*n, key.clone(), d.copy()),
            Type::Radix(n, key, d) => Type::Radix(*n, key.clone(), d.copy()),
            Type::Trie(n, key, d) => Type::Trie(*n, key.clone(), d.copy()),
            Type::Vector(t, d) => Type::Vector(Box::new(t.copy()), d.copy()),
            Type::Optional(t) => Type::Optional(Box::new(t.copy())),
            Type::RefVar(t) => Type::RefVar(Box::new(t.copy())),
            Type::Rewritten(t) => Type::Rewritten(Box::new(t.copy())),
            Type::Iterator(t) => Type::Iterator(Box::new(t.copy())),
            Type::Tuple(ts) => Type::Tuple(copy_types(ts)),
            Type::Function(ts, t, d) => Type::Function(
                copy_types(ts),
                Box::new(t.copy()),
                d.copy(),
            ),
        }
    }

    /// Whether two types are the same.
    pub fn same(&self, other: &Type) -> (equal: bool)
        ensures
            equal == (self@ == other@),
        decreases self,
    {
        proof {
            reveal_with_fuel(type_views, 2);
            reveal_with_fuel(Type::view, 2);
        }
        match (self, other) {
            (Type::Unknown(a), Type::Unknown(b)) => *a == *b,
            (Type::Void, Type::Void) => true,
            (Type::Null, Type::Null) => true,
            (Type::Never, Type::Never) => true,
            (Type::Boolean, Type::Boolean) => true,
            (Type::Float, Type::Float) => true,
            (Type::Single, Type::Single) => true,
            (Type::Character, Type::Character) => true,
            (Type::Integer(a), Type::Integer(b)) => *a == *b,
            (Type::Text(a), Type::Text(b)) => a.same(b),
            (Type::Enum(n, f, a), Type::Enum(m, g, b)) => *n == *m && *f == *g && a.same(b),
            (Type::Reference(n, a), Type::Reference(m, b)) => *n == *m && a.same(b),
            (Type::Hash(n, k, a), Type::Hash(m, l, b)) => *n == *m && text::same(
                k.as_str(),
                l.as_str(),
            ) && a.same(b),
            (Type::Sorted(n, k, a), Type::Sorted(m, l, b)) => *n == *m && text::same(
                k.as_str(),
                l.as_str(),
            ) && a.same(b),
            (Type::Index(n, k, a), Type::Index(m, l, b)) => *n == *m && text::same(
                k.as_str(),
                l.as_str(),
            ) && a.same(b),
            (Type::Radix(n, k, a), Type::Radix(m, l, b)) => *n == *m && text::same(
                k.as_str(),
                l.as_str(),
            ) && a.same(b),
            (Type::Trie(n, k, a), Type::Trie(m, l, b)) => *n == *m && text::same(
                k.as_str(),
                l.as_str(),
            ) && a.same(b),
            (Type::Vector(t, a), Type::Vector(u, b)) => t.same(u) && a.same(b),
            (Type::Optional(t), Type::Optional(u)) => t.same(u),
            (Type::RefVar(t), Type::RefVar(u)) => t.same(u),
            (Type::Rewritten(t), Type::Rewritten(u)) => t.same(u),
            (Type::Iterator(t), Type::Iterator(u)) => t.same(u),
            (Type::Tuple(ts), Type::Tuple(us)) => same_types(ts, us),
            (Type::Function(ts, t, a), Type::Function(us, u, b)) => same_types(ts, us) && t.same(u)
                && a.same(b),
            _ => false,
        }
    }
}

/// The same list of types again.
pub fn copy_types(ts: &Vec<Type>) -> (out: Vec<Type>)
    ensures
        type_views(out@) == type_views(ts@),
    decreases ts,
{
    let mut out: Vec<Type> = Vec::new();
    let mut i: usize = 0;
    while i < ts.len()
        invariant
            i <= ts.len(),
            out.len() == i,
            forall|j: int| 0 <= j < i ==> (#[trigger] out@[j])@ == ts@[j]@,
        decreases ts.len() - i,
    {
        assert(decreases_to!(*ts => ts[i as int]));
        out.push(ts[i].copy());
        i = i + 1;
    }
    assert(type_views(out@) =~= type_views(ts@));
    out
}

fn same_types(a: &Vec<Type>, b: &Vec<Type>) -> (equal: bool)
    ensures
        equal == (type_views(a@) == type_views(b@)),
    decreases a,
{
    if a.len() != b.len() {
        assert(type_views(a@).len() != type_views(b@).len());
        return false;
    }
    let mut i: usize = 0;
    while i < a.len()
        invariant
            i <= a.len(),
            a.len() == b.len(),
            forall|j: int| 0 <= j < i ==> (#[trigger] a@[j])@ == b@[j]@,
        decreases a.len() - i,
    {
        assert(decreases_to!(*a => a[i as int]));
        if !a[i].same(&b[i]) {
            assert(type_views(a@)[i as int] != type_views(b@)[i as int]);
            return false;
        }
        i = i + 1;
    }
    assert(type_views(a@) =~= type_views(b@));
    true
}


/// Variable `x` after variables `a` and `b` have taken each other's numbers.
pub open spec fn swapped_var(x: u16, a: u16, b: u16) -> u16 {
    if x == a {
        b
    } else if x == b {
        a
    } else {
        x
    }
}

/// A list of variables after `a` and `b` have taken each other's numbers.
pub open spec fn swapped_vars(s: Seq<u16>, a: u16, b: u16) -> Seq<u16> {
    Seq::new(s.len(), |i: int| swapped_var(s[i], a, b))
}

/// The dependencies on variables of the frame after `a` and `b` have taken each
/// other's numbers.
pub open spec fn swapped_deps(d: DepList, a: u16, b: u16) -> DepList {
    if d.space == DepSpace::Frame {
        DepList { space: d.space, vars: swapped_vars(d.vars, a, b) }
    } else {
        d
    }
}

/// A type after variables `a` and `b` have taken each other's numbers.
pub open spec fn swapped(t: Ty, a: u16, b: u16) -> Ty
    decreases t,
{
    match t {
        Ty::Text(d) => Ty::Text(swapped_deps(d, a, b)),
        Ty::Enum(n, fields, d) => Ty::Enum(n, fields, swapped_deps(d, a, b)),
        Ty::Reference(n, d) => Ty::Reference(n, swapped_deps(d, a, b)),
        Ty::Hash(n, key, d) => Ty::Hash(n, key, swapped_deps(d, a, b)),
        Ty::Sorted(n, key, d) => Ty::Sorted(n, key, swapped_deps(d, a, b)),
        Ty::Index(n, key, d) => Ty::Index(n, key, swapped_deps(d, a, b)),
        Ty::Radix(n, key, d) => Ty::Radix(n, key, swapped_deps(d, a, b)),
        Ty::Trie(n, key, d) => Ty::Trie(n, key, swapped_deps(d, a, b)),
        Ty::Vector(t, d) => Ty::Vector(Box::new(swapped(*t, a, b)), swapped_deps(d, a, b)),
        Ty::Optional(t) => Ty::Optional(Box::new(swapped(*t, a, b))),
        Ty::RefVar(t) => Ty::RefVar(Box::new(swapped(*t, a, b))),
        Ty::Rewritten(t) => Ty::Rewritten(Box::new(swapped(*t, a, b))),
        Ty::Iterator(t) => Ty::Iterator(Box::new(swapped(*t, a, b))),
        Ty::Tuple(ts) => Ty::Tuple(swapped_types(ts, a, b)),
        Ty::Function(ts, t, d) => Ty::Function(
            swapped_types(ts, a, b),
            Box::new(swapped(*t, a, b)),
            swapped_deps(d, a, b),
        ),
        _ => t,
    }
}

/// A list of types after variables `a` and `b` have taken each other's numbers.
pub open spec fn swapped_types(ts: Seq<Ty>, a: u16, b: u16) -> Seq<Ty>
    decreases ts,
{
    Seq::new(
        ts.len(),
        |i: int|
            if 0 <= i < ts.len() {
                swapped(ts[i], a, b)
            } else {
                Ty::Void
            },
    )
}

/// `x` with the numbers of `a` and `b` exchanged.
pub fn swap_var(x: u16, a: u16, b: u16) -> (r: u16)
    ensures
        r == swapped_var(x, a, b),
{
    if x == a {
        b
    } else if x == b {
        a
    } else {
        x
    }
}

/// The list with the numbers of `a` and `b` exchanged.
pub fn swap_vars(vars: &Vec<u16>, a: u16, b: u16) -> (out: Vec<u16>)
    ensures
        out@ == swapped_vars(vars@, a, b),
{
    let mut out: Vec<u16> = Vec::new();
    let mut i: usize = 0;
    while i < vars.len()
        invariant
            i <= vars.len(),
            out.len() == i,
            forall|j: int| 0 <= j < i ==> out@[j] == swapped_var(vars@[j], a, b),
        decreases vars.len() - i,
    {
        out.push(swap_var(vars[i], a, b));
        i = i + 1;
    }
    assert(out@ =~= swapped_vars(vars@, a, b));
    out
}

impl Deps {
    fn swap_vars(&self, a: u16, b: u16) -> (d: Deps)
        ensures
            d@ == swapped_deps(self@, a, b),
    {
        if self.space == DepSpace::Frame {
            Deps { space: self.space, vars: swap_vars(&self.vars, a, b) }
        } else {
            self.copy()
        }
    }
}

impl Type {
    /// The type with the numbers of variables `a` and `b` exchanged.
    pub fn swap_vars(&self, a: u16, b: u16) -> (t: Type)
        ensures
            t@ == swapped(self@, a, b),
        decreases self,
    {
        proof {
            reveal_with_fuel(type_views, 2);
            reveal_with_fuel(Type::view, 2);
            reveal_with_fuel(swapped, 2);
        }
        match self {
            Type::Text(d) => Type::Text(d.swap_vars(a, b)),
            Type::Enum(n, fields, d) => Type::Enum(*n, *fields, d.swap_vars(a, b)),
            Type::Reference(n, d) => Type::Reference(*n, d.swap_vars(a, b)),
            Type::Hash(n, key, d) => Type::Hash(*n, key.clone(), d.swap_vars(a, b)),
            Type::Sorted(n, key, d) => Type::Sorted(*n, key.clone(), d.swap_vars(a, b)),
            Type::Index(n, key, d) => Type::Index(*n, key.clone(), d.swap_vars(a, b)),
            Type::Radix(n, key, d) => Type::Radix(*n, key.clone(), d.swap_vars(a, b)),
            Type::Trie(n, key, d) => Type::Trie(*n, key.clone(), d.swap_vars(a, b)),
            Type::Vector(t, d) => Type::Vector(Box::new(t.swap_vars(a, b)), d.swap_vars(a, b)),
            Type::Optional(t) => Type::Optional(Box::new(t.swap_vars(a, b))),
            Type::RefVar(t) => Type::RefVar(Box::new(t.swap_vars(a, b))),
            Type::Rewritten(t) => Type::Rewritten(Box::new(t.swap_vars(a, b))),
            Type::Iterator(t) => Type::Iterator(Box::new(t.swap_vars(a, b))),
            Type::Tuple(ts) => Type::Tuple(swap_in_types(ts, a, b)),
            Type::Function(ts, t, d) => Type::Function(
                swap_in_types(ts, a, b),
                Box::new(t.swap_vars(a, b)),
                d.swap_vars(a, b),
            ),
            _ => self.copy(),
        }
    }
}

fn swap_in_types(ts: &Vec<Type>, a: u16, b: u16) -> (out: Vec<Type>)
    ensures
        type_views(out@) == swapped_types(type_views(ts@), a, b),
    decreases ts,
{
    let mut out: Vec<Type> = Vec::new();
    let mut i: usize = 0;
    while i < ts.len()
        invariant
            i <= ts.len(),
            out.len() == i,
            forall|j: int| 0 <= j < i ==> (#[trigger] out@[j])@ == swapped(ts@[j]@, a, b),
        decreases ts.len() - i,
    {
        assert(decreases_to!(*ts => ts[i as int]));
        out.push(ts[i].swap_vars(a, b));
        i = i + 1;
    }
    assert(type_views(out@) =~= swapped_types(type_views(ts@), a, b));
    out
}

/// The type without the mark that a value of it may be absent.
pub open spec fn base(t: Ty) -> Ty
    decreases t,
{
    match t {
        Ty::Optional(inner) => base(*inner),
        _ => t,
    }
}

/// Whether a value of the type may be absent.
pub open spec fn is_optional(t: Ty) -> bool {
    t is Optional
}

/// Types whose values are handed out by value: none of them names a record or a
/// collection.
pub open spec fn scalar_like(t: Ty) -> bool {
    match base(t) {
        Ty::Void
        | Ty::Null
        | Ty::Never
        | Ty::Integer(_)
        | Ty::Boolean
        | Ty::Float
        | Ty::Single
        | Ty::Character
        | Ty::Text(_) => true,
        Ty::Enum(_, fields, _) => !fields,
        _ => false,
    }
}

/// The scalars: types that one machine value holds.
pub open spec fn scalar(t: Ty) -> bool {
    match t {
        Ty::Integer(_) | Ty::Boolean | Ty::Float | Ty::Single | Ty::Character => true,
        Ty::Enum(_, fields, _) => !fields,
        _ => false,
    }
}

/// A collection that finds its records by key.
pub open spec fn keyed(t: Ty) -> bool {
    match base(t) {
        Ty::Hash(..) | Ty::Sorted(..) | Ty::Index(..) | Ty::Radix(..) | Ty::Trie(..) => true,
        _ => false,
    }
}

/// A vector or a keyed collection.
pub open spec fn collection(t: Ty) -> bool {
    keyed(t) || base(t) is Vector
}

/// The variables a value of the type depends on.
pub open spec fn depend(t: Ty) -> Seq<u16>
    decreases t,
{
    match t {
        Ty::Text(d)
        | Ty::Enum(_, _, d)
        | Ty::Reference(_, d)
        | Ty::Hash(_, _, d)
        | Ty::Sorted(_, _, d)
        | Ty::Index(_, _, d)
        | Ty::Radix(_, _, d)
        | Ty::Trie(_, _, d)
        | Ty::Vector(_, d)
        | Ty::Function(_, _, d) => d.vars,
        Ty::Optional(inner) | Ty::RefVar(inner) | Ty::Rewritten(inner) => depend(*inner),
        _ => Seq::empty(),
    }
}

/// The record definition that a value of the type is stored as.
pub open spec fn heap_def(t: Ty) -> Option<u32> {
    match base(t) {
        Ty::Reference(d, _) => Some(d),
        Ty::Enum(d, true, _) => Some(d),
        _ => None,
    }
}

/// Whether nothing is known of the type, or of what a vector of it holds.
pub open spec fn unknown(t: Ty) -> bool
    decreases t,
{
    match t {
        Ty::Unknown(_) => true,
        Ty::Vector(inner, _) => unknown(*inner),
        _ => false,
    }
}

impl Type {
    pub fn base(&self) -> (t: &Type)
        ensures
            t@ == base(self@),
            !(t is Optional),
        decreases self,
    {
        match self {
            Type::Optional(inner) => inner.base(),
            _ => self,
        }
    }

    pub fn is_optional(&self) -> (optional: bool)
        ensures
            optional == is_optional(self@),
    {
        match self {
            Type::Optional(_) => true,
            _ => false,
        }
    }

    pub fn depend(&self) -> (vars: Vec<u16>)
        ensures
            vars@ == depend(self@),
        decreases self,
    {
        match self {
            Type::Text(d)
            | Type::Enum(_, _, d)
            | Type::Reference(_, d)
            | Type::Hash(_, _, d)
            | Type::Sorted(_, _, d)
            | Type::Index(_, _, d)
            | Type::Radix(_, _, d)
            | Type::Trie(_, _, d)
            | Type::Vector(_, d)
            | Type::Function(_, _, d) => copy_vars(&d.vars),
            Type::Optional(inner) | Type::RefVar(inner) | Type::Rewritten(inner) => inner.depend(),
            _ => Vec::new(),
        }
    }

    pub fn heap_def_nr(&self) -> (d: Option<u32>)
        ensures
            d == heap_def(self@),
    {
        match self.base() {
            Type::Reference(d, _) => Some(*d),
            Type::Enum(d, true, _) => Some(*d),
            _ => None,
        }
    }

    pub fn is_unknown(&self) -> (r: bool)
        ensures
            r == unknown(self@),
        decreases self,
    {
        match self {
            Type::Unknown(_) => true,
            Type::Vector(inner, _) => inner.is_unknown(),
            _ => false,
        }
    }

    pub fn is_scalar(&self) -> (r: bool)
        ensures
            r == scalar(self@),
    {
        match self {
            Type::Integer(_) | Type::Boolean | Type::Float | Type::Single | Type::Character => true,
            Type::Enum(_, fields, _) => !*fields,
            _ => false,
        }
    }

    pub fn is_scalar_like(&self) -> (r: bool)
        ensures
            r == scalar_like(self@),
    {
        match self.base() {
            Type::Void
            | Type::Null
            | Type::Never
            | Type::Integer(_)
            | Type::Boolean
            | Type::Float
            | Type::Single
            | Type::Character
            | Type::Text(_) => true,
            Type::Enum(_, fields, _) => !*fields,
            _ => false,
        }
    }
}

/// Whether the type names a keyed collection, absent or not.
pub fn is_keyed(tp: &Type) -> (r: bool)
    ensures
        r == keyed(tp@),
{
    match tp.base() {
        Type::Hash(..)
        | Type::Sorted(..)
        | Type::Index(..)
        | Type::Radix(..)
        | Type::Trie(..) => true,
        _ => false,
    }
}

/// Whether the type names a collection, absent or not.
pub fn is_collection(tp: &Type) -> (r: bool)
    ensures
        r == collection(tp@),
{
    is_keyed(tp) || match tp.base() {
        Type::Vector(_, _) => true,
        _ => false,
    }
}

/// How many bytes a value of the range takes; `nullable` asks for room for the
/// mark of an absent value where the range does not exclude one.
pub open spec fn integer_width(spec: IntegerSpec, nullable: bool) -> u8 {
    let values = spec.max as int - spec.min as int + 1 + if nullable && !spec.not_null {
        1int
    } else {
        0
    };
    if spec.forced_size > 0 {
        spec.forced_size
    } else if values <= 0x100 {
        1
    } else if values <= 0x1_0000 {
        2
    } else {
        8
    }
}

impl IntegerSpec {
    /// How many bytes a value of the range takes.
    pub fn byte_width(&self, nullable: bool) -> (w: u8)
        ensures
            w == integer_width(*self, nullable),
    {
        if self.forced_size > 0 {
            return self.forced_size;
        }
        let mark: i64 = if nullable && !self.not_null {
            1
        } else {
            0
        };
        let values: i64 = self.max as i64 - self.min as i64 + 1 + mark;
        if values <= 0x100 {
            1
        } else if values <= 0x1_0000 {
            2
        } else {
            8
        }
    }

    /// The plain integer.
    pub open spec fn plain() -> IntegerSpec {
        IntegerSpec { min: (-0x7fff_ffff) as i32, max: 0x7fff_ffff, not_null: false, forced_size: 0 }
    }

    /// The plain integer.
    pub fn signed32() -> (spec: IntegerSpec)
        ensures
            spec == IntegerSpec::plain(),
    {
        IntegerSpec { min: -0x7fff_ffff, max: 0x7fff_ffff, not_null: false, forced_size: 0 }
    }

    /// The wide integer.
    pub open spec fn long() -> IntegerSpec {
        IntegerSpec { min: (-0x7fff_ffff) as i32, max: u32::MAX, not_null: false, forced_size: 0 }
    }

    /// The wide integer.
    pub fn wide() -> (spec: IntegerSpec)
        ensures
            spec == IntegerSpec::long(),
    {
        IntegerSpec { min: -0x7fff_ffff, max: u32::MAX, not_null: false, forced_size: 0 }
    }
}

/// The type with the mark that a value of it may be absent, once.
pub open spec fn optional_of(t: Ty) -> Ty {
    if t is Optional {
        t
    } else {
        Ty::Optional(Box::new(t))
    }
}

impl Type {
    /// The type with the mark that a value of it may be absent, once.
    pub fn optional(self) -> (t: Type)
        ensures
            t@ == optional_of(self@),
    {
        match self {
            Type::Optional(inner) => Type::Optional(inner),
            other => Type::Optional(Box::new(other)),
        }
    }
}

/// The type of the elements of a collection; unknown for any other type.
pub open spec fn content_of(t: Ty) -> Ty
    decreases t,
{
    match t {
        Ty::Vector(elem, _) => *elem,
        Ty::Hash(d, _, deps)
        | Ty::Sorted(d, _, deps)
        | Ty::Index(d, _, deps)
        | Ty::Radix(d, _, deps)
        | Ty::Trie(d, _, deps) => Ty::Reference(d, deps),
        Ty::Optional(inner) | Ty::RefVar(inner) | Ty::Rewritten(inner) => content_of(*inner),
        _ => Ty::Unknown(0),
    }
}

/// A dependency list with one more variable of the frame.
pub open spec fn with_dep(d: DepList, v: u16) -> DepList {
    if d.vars.contains(v) {
        d
    } else {
        DepList { space: d.space, vars: d.vars.push(v) }
    }
}

/// The type with one more variable that its value depends on; a tuple has it in every
/// member.
pub open spec fn depending_on(t: Ty, v: u16) -> Ty
    decreases t,
{
    match t {
        Ty::Text(d) => Ty::Text(with_dep(d, v)),
        Ty::Enum(n, fields, d) => Ty::Enum(n, fields, with_dep(d, v)),
        Ty::Reference(n, d) => Ty::Reference(n, with_dep(d, v)),
        Ty::Hash(n, key, d) => Ty::Hash(n, key, with_dep(d, v)),
        Ty::Sorted(n, key, d) => Ty::Sorted(n, key, with_dep(d, v)),
        Ty::Index(n, key, d) => Ty::Index(n, key, with_dep(d, v)),
        Ty::Radix(n, key, d) => Ty::Radix(n, key, with_dep(d, v)),
        Ty::Trie(n, key, d) => Ty::Trie(n, key, with_dep(d, v)),
        Ty::Vector(inner, d) => Ty::Vector(inner, with_dep(d, v)),
        Ty::Function(ts, inner, d) => Ty::Function(ts, inner, with_dep(d, v)),
        Ty::Optional(inner) => Ty::Optional(Box::new(depending_on(*inner, v))),
        Ty::RefVar(inner) => Ty::RefVar(Box::new(depending_on(*inner, v))),
        Ty::Rewritten(inner) => Ty::Rewritten(Box::new(depending_on(*inner, v))),
        Ty::Tuple(ts) => Ty::Tuple(depending_all(ts, v)),
        _ => t,
    }
}

/// A list of types, each with one more variable that its value depends on.
pub open spec fn depending_all(ts: Seq<Ty>, v: u16) -> Seq<Ty>
    decreases ts,
{
    Seq::new(
        ts.len(),
        |i: int|
            if 0 <= i < ts.len() {
                depending_on(ts[i], v)
            } else {
                Ty::Void
            },
    )
}

/// The type with its dependencies replaced; a tuple has them in every member.
pub open spec fn with_deps_of(t: Ty, d: DepList) -> Ty
    decreases t,
{
    match t {
        Ty::Text(_) => Ty::Text(d),
        Ty::Enum(n, fields, _) => Ty::Enum(n, fields, d),
        Ty::Reference(n, _) => Ty::Reference(n, d),
        Ty::Hash(n, key, _) => Ty::Hash(n, key, d),
        Ty::Sorted(n, key, _) => Ty::Sorted(n, key, d),
        Ty::Index(n, key, _) => Ty::Index(n, key, d),
        Ty::Radix(n, key, _) => Ty::Radix(n, key, d),
        Ty::Trie(n, key, _) => Ty::Trie(n, key, d),
        Ty::Vector(inner, _) => Ty::Vector(inner, d),
        Ty::Function(ts, inner, _) => Ty::Function(ts, inner, d),
        Ty::Optional(inner) => Ty::Optional(Box::new(with_deps_of(*inner, d))),
        Ty::RefVar(inner) => Ty::RefVar(Box::new(with_deps_of(*inner, d))),
        Ty::Tuple(ts) => Ty::Tuple(with_deps_all(ts, d)),
        _ => t,
    }
}

/// A list of types, each with its dependencies replaced.
pub open spec fn with_deps_all(ts: Seq<Ty>, d: DepList) -> Seq<Ty>
    decreases ts,
{
    Seq::new(
        ts.len(),
        |i: int|
            if 0 <= i < ts.len() {
                with_deps_of(ts[i], d)
            } else {
                Ty::Void
            },
    )
}

/// The type without the mark that its value was rewritten.
pub open spec fn unrewritten_of(t: Ty) -> Ty
    decreases t,
{
    match t {
        Ty::Rewritten(inner) => unrewritten_of(*inner),
        _ => t,
    }
}

/// The type without any dependencies.
pub open spec fn bare(t: Ty) -> Ty
    decreases t,
{
    match t {
        Ty::Text(_) => Ty::Text(no_deps()),
        Ty::Enum(n, fields, _) => Ty::Enum(n, fields, no_deps()),
        Ty::Reference(n, _) => Ty::Reference(n, no_deps()),
        Ty::Hash(n, key, _) => Ty::Hash(n, key, no_deps()),
        Ty::Sorted(n, key, _) => Ty::Sorted(n, key, no_deps()),
        Ty::Index(n, key, _) => Ty::Index(n, key, no_deps()),
        Ty::Radix(n, key, _) => Ty::Radix(n, key, no_deps()),
        Ty::Trie(n, key, _) => Ty::Trie(n, key, no_deps()),
        Ty::Vector(inner, _) => Ty::Vector(Box::new(bare(*inner)), no_deps()),
        Ty::Optional(inner) => Ty::Optional(Box::new(bare(*inner))),
        Ty::RefVar(inner) => Ty::RefVar(Box::new(bare(*inner))),
        Ty::Rewritten(inner) => Ty::Rewritten(Box::new(bare(*inner))),
        Ty::Iterator(inner) => Ty::Iterator(Box::new(bare(*inner))),
        Ty::Tuple(ts) => Ty::Tuple(bare_all(ts)),
        Ty::Function(ts, inner, _) => Ty::Function(
            bare_all(ts),
            Box::new(bare(*inner)),
            no_deps(),
        ),
        _ => t,
    }
}

/// A list of types without any dependencies.
pub open spec fn bare_all(ts: Seq<Ty>) -> Seq<Ty>
    decreases ts,
{
    Seq::new(
        ts.len(),
        |i: int|
            if 0 <= i < ts.len() {
                bare(ts[i])
            } else {
                Ty::Void
            },
    )
}

impl Deps {
    fn with(&self, v: u16) -> (d: Deps)
        ensures
            d@ == with_dep(self@, v),
    {
        let mut vars: Vec<u16> = copy_vars(&self.vars);
        if !has_var(&self.vars, v) {
            vars.push(v);
        }
        Deps { space: self.space, vars }
    }
}

impl Type {
    /// The type of the elements of a collection.
    pub fn content(&self) -> (t: Type)
        ensures
            t@ == content_of(self@),
        decreases self,
    {
        match self {
            Type::Vector(elem, _) => elem.copy(),
            Type::Hash(d, _, deps)
            | Type::Sorted(d, _, deps)
            | Type::Index(d, _, deps)
            | Type::Radix(d, _, deps)
            | Type::Trie(d, _, deps) => Type::Reference(*d, deps.copy()),
            Type::Optional(inner) | Type::RefVar(inner) | Type::Rewritten(inner) => inner.content(),
            _ => Type::Unknown(0),
        }
    }

    /// The type with one more variable that its value depends on.
    pub fn depending(&self, v: u16) -> (t: Type)
        ensures
            t@ == depending_on(self@, v),
        decreases self,
    {
        proof {
            reveal_with_fuel(type_views, 2);
            reveal_with_fuel(Type::view, 2);
        }
        match self {
            Type::Text(d) => Type::Text(d.with(v)),
            Type::Enum(n, fields, d) => Type::Enum(*n, *fields, d.with(v)),
            Type::Reference(n, d) => Type::Reference(*n, d.with(v)),
            Type::Hash(n, key, d) => Type::Hash(*n, key.clone(), d.with(v)),
            Type::Sorted(n, key, d) => Type::Sorted(*n, key.clone(), d.with(v)),
            Type::Index(n, key, d) => Type::Index(*n, key.clone(), d.with(v)),
            Type::Radix(n, key, d) => Type::Radix(*n, key.clone(), d.with(v)),
            Type::Trie(n, key, d) => Type::Trie(*n, key.clone(), d.with(v)),
            Type::Vector(inner, d) => Type::Vector(Box::new(inner.copy()), d.with(v)),
            Type::Function(ts, inner, d) => Type::Function(
                copy_types(ts),
                Box::new(inner.copy()),
                d.with(v),
            ),
            Type::Optional(inner) => Type::Optional(Box::new(inner.depending(v))),
            Type::RefVar(inner) => Type::RefVar(Box::new(inner.depending(v))),
            Type::Rewritten(inner) => Type::Rewritten(Box::new(inner.depending(v))),
            Type::Tuple(ts) => Type::Tuple(depending_types(ts, v)),
            _ => self.copy(),
        }
    }

    /// The type with its dependencies replaced.
    pub fn with_deps(&self, deps: &Deps) -> (t: Type)
        ensures
            t@ == with_deps_of(self@, deps@),
        decreases self,
    {
        proof {
            reveal_with_fuel(type_views, 2);
            reveal_with_fuel(Type::view, 2);
        }
        match self {
            Type::Text(_) => Type::Text(deps.copy()),
            Type::Enum(n, fields, _) => Type::Enum(*n, *fields, deps.copy()),
            Type::Reference(n, _) => Type::Reference(*n, deps.copy()),
            Type::Hash(n, key, _) => Type::Hash(*n, key.clone(), deps.copy()),
            Type::Sorted(n, key, _) => Type::Sorted(*n, key.clone(), deps.copy()),
            Type::Index(n, key, _) => Type::Index(*n, key.clone(), deps.copy()),
            Type::Radix(n, key, _) => Type::Radix(*n, key.clone(), deps.copy()),
            Type::Trie(n, key, _) => Type::Trie(*n, key.clone(), deps.copy()),
            Type::Vector(inner, _) => Type::Vector(Box::new(inner.copy()), deps.copy()),
            Type::Function(ts, inner, _) => Type::Function(
                copy_types(ts),
                Box::new(inner.copy()),
                deps.copy(),
            ),
            Type::Optional(inner) => Type::Optional(Box::new(inner.with_deps(deps))),
            Type::RefVar(inner) => Type::RefVar(Box::new(inner.with_deps(deps))),
            Type::Tuple(ts) => Type::Tuple(types_with_deps(ts, deps)),
            _ => self.copy(),
        }
    }

    /// The type without the mark that its value was rewritten.
    pub fn unrewritten(&self) -> (t: Type)
        ensures
            t@ == unrewritten_of(self@),
        decreases self,
    {
        match self {
            Type::Rewritten(inner) => inner.unrewritten(),
            _ => self.copy(),
        }
    }

    /// The type without any dependencies.
    pub fn without_deps(&self) -> (t: Type)
        ensures
            t@ == bare(self@),
        decreases self,
    {
        proof {
            reveal_with_fuel(type_views, 2);
            reveal_with_fuel(Type::view, 2);
            reveal_with_fuel(bare, 2);
        }
        match self {
            Type::Text(_) => Type::Text(Deps::none()),
            Type::Enum(n, fields, _) => Type::Enum(*n, *fields, Deps::none()),
            Type::Reference(n, _) => Type::Reference(*n, Deps::none()),
            Type::Hash(n, key, _) => Type::Hash(*n, key.clone(), Deps::none()),
            Type::Sorted(n, key, _) => Type::Sorted(*n, key.clone(), Deps::none()),
            Type::Index(n, key, _) => Type::Index(*n, key.clone(), Deps::none()),
            Type::Radix(n, key, _) => Type::Radix(*n, key.clone(), Deps::none()),
            Type::Trie(n, key, _) => Type::Trie(*n, key.clone(), Deps::none()),
            Type::Vector(inner, _) => Type::Vector(Box::new(inner.without_deps()), Deps::none()),
            Type::Optional(inner) => Type::Optional(Box::new(inner.without_deps())),
            Type::RefVar(inner) => Type::RefVar(Box::new(inner.without_deps())),
            Type::Rewritten(inner) => Type::Rewritten(Box::new(inner.without_deps())),
            Type::Iterator(inner) => Type::Iterator(Box::new(inner.without_deps())),
            Type::Tuple(ts) => Type::Tuple(bare_types(ts)),
            Type::Function(ts, inner, _) => Type::Function(
                bare_types(ts),
                Box::new(inner.without_deps()),
                Deps::none(),
            ),
            _ => self.copy(),
        }
    }

    /// Whether two types are the same, whatever their values depend on.
    pub fn is_equal(&self, other: &Type) -> (equal: bool)
        ensures
            equal == (bare(self@) == bare(other@)),
    {
        self.without_deps().same(&other.without_deps())
    }
}

fn depending_types(ts: &Vec<Type>, v: u16) -> (out: Vec<Type>)
    ensures
        type_views(out@) == depending_all(type_views(ts@), v),
    decreases ts,
{
    let mut out: Vec<Type> = Vec::new();
    let mut i: usize = 0;
    while i < ts.len()
        invariant
            i <= ts.len(),
            out.len() == i,
            forall|j: int|
                0 <= j < i ==> (#[trigger] out@[j])@ == depending_on(type_views(ts@)[j], v),
        decreases ts.len() - i,
    {
        assert(decreases_to!(*ts => ts[i as int]));
        assert(type_views(ts@)[i as int] == ts@[i as int]@);
        out.push(ts[i].depending(v));
        i = i + 1;
    }
    assert(type_views(out@) =~= depending_all(type_views(ts@), v));
    out
}

fn types_with_deps(ts: &Vec<Type>, deps: &Deps) -> (out: Vec<Type>)
    ensures
        type_views(out@) == with_deps_all(type_views(ts@), deps@),
    decreases ts,
{
    let mut out: Vec<Type> = Vec::new();
    let mut i: usize = 0;
    while i < ts.len()
        invariant
            i <= ts.len(),
            out.len() == i,
            forall|j: int|
                0 <= j < i ==> (#[trigger] out@[j])@ == with_deps_of(type_views(ts@)[j], deps@),
        decreases ts.len() - i,
    {
        assert(decreases_to!(*ts => ts[i as int]));
        assert(type_views(ts@)[i as int] == ts@[i as int]@);
        out.push(ts[i].with_deps(deps));
        i = i + 1;
    }
    assert(type_views(out@) =~= with_deps_all(type_views(ts@), deps@));
    out
}

fn bare_types(ts: &Vec<Type>) -> (out: Vec<Type>)
    ensures
        type_views(out@) == bare_all(type_views(ts@)),
    decreases ts,
{
    let mut out: Vec<Type> = Vec::new();
    let mut i: usize = 0;
    while i < ts.len()
        invariant
            i <= ts.len(),
            out.len() == i,
            forall|j: int| 0 <= j < i ==> (#[trigger] out@[j])@ == bare(ts@[j]@),
        decreases ts.len() - i,
    {
        assert(decreases_to!(*ts => ts[i as int]));
        out.push(ts[i].without_deps());
        i = i + 1;
    }
    assert(type_views(out@) =~= bare_all(type_views(ts@)));
    out
}

} // verus!
