//! Bracketed literals: the type of their elements, what becomes of each element, and
//! how the whole is put together.

use crate::cells;
use crate::comprehensions::{self, Build, LoopEnd};
use crate::data::{self, Data, Definition, Function, Variable};
use crate::elements;
use crate::ir::{self, Value};
use crate::literals::{self, FieldOwner, Item, LiteralSite, Origin};
use crate::places;
use crate::schema::{self, Stores};
use crate::text;
use crate::types::{self, Deps, Type};
use crate::vector_store::{self, Holder};
use vstd::prelude::*;

verus! {

/// Whether a part of a type is not known.
pub open spec fn unresolved(t: types::Ty) -> bool
    decreases t, 0int,
{
    match t {
        types::Ty::Unknown(_) => true,
        types::Ty::Vector(inner, _)
        | types::Ty::Optional(inner)
        | types::Ty::RefVar(inner)
        | types::Ty::Rewritten(inner)
        | types::Ty::Iterator(inner) => unresolved(*inner),
        types::Ty::Tuple(ts) => any_unresolved(ts, ts.len() as int),
        types::Ty::Function(ts, ret, _) => any_unresolved(ts, ts.len() as int) || unresolved(*ret),
        _ => false,
    }
}

/// Whether a part of one of the first `k` types is not known.
pub open spec fn any_unresolved(ts: Seq<types::Ty>, k: int) -> bool
    decreases ts, k,
{
    if k <= 0 || k > ts.len() {
        false
    } else {
        any_unresolved(ts, k - 1) || unresolved(ts[k - 1])
    }
}

/// Whether a part of a type is not known.
pub fn has_unresolved(tp: &Type) -> (r: bool)
    ensures
        r == unresolved(tp@),
    decreases tp, 1int,
{
    proof {
        reveal_with_fuel(types::type_views, 2);
        reveal_with_fuel(Type::view, 2);
    }
    match tp {
        Type::Unknown(_) => true,
        Type::Vector(inner, _)
        | Type::Optional(inner)
        | Type::RefVar(inner)
        | Type::Rewritten(inner)
        | Type::Iterator(inner) => has_unresolved(inner),
        Type::Tuple(ts) => find_unresolved(ts),
        Type::Function(ts, ret, _) => find_unresolved(ts) || has_unresolved(ret),
        _ => false,
    }
}

fn find_unresolved(ts: &Vec<Type>) -> (found: bool)
    ensures
        found == any_unresolved(types::type_views(ts@), ts.len() as int),
    decreases ts, 0int,
{
    let ghost all = types::type_views(ts@);
    let mut i: usize = 0;
    let mut found: bool = false;
    while i < ts.len()
        invariant
            i <= ts.len(),
            all == types::type_views(ts@),
            found == any_unresolved(all, i as int),
        decreases ts.len() - i,
    {
        assert(decreases_to!(*ts => ts[i as int]));
        assert(all[i as int] == ts@[i as int]@);
        if has_unresolved(&ts[i]) {
            found = true;
        }
        i = i + 1;
    }
    found
}

/// Whether a definition is that of records that may be absent.
pub open spec fn nullable_def(defs: Seq<Definition>, d: u32) -> bool {
    text::is_prefix("__nullable<"@, cells::name_of(defs, d))
}

fn is_nullable_def(data: &Data, d: u32) -> (r: bool)
    ensures
        r == nullable_def(data.definitions@, d),
{
    text::starts_with(cells::def_name(data, d), "__nullable<")
}

/// The type of the elements of a literal that is built against a type: records that
/// may be absent are stored in place.
pub open spec fn assigned_type(defs: Seq<Definition>, t: types::Ty) -> types::Ty {
    let content = types::content_of(t);
    match content {
        types::Ty::Reference(d, deps) => if nullable_def(defs, d) {
            types::Ty::Enum(d, true, deps)
        } else {
            content
        },
        _ => content,
    }
}

/// The type of the elements of a literal that is built against type `tp`, and whether
/// it was declared: then it stays as it is.
pub fn assign_type(data: &Data, tp: &Type) -> (r: (Type, bool))
    ensures
        r.0@ == assigned_type(data.definitions@, tp@),
        r.1 == !unresolved(assigned_type(data.definitions@, tp@)),
{
    let content: Type = tp.content();
    let t: Type = match content {
        Type::Reference(d, deps) => if is_nullable_def(data, d) {
            Type::Enum(d, true, deps)
        } else {
            Type::Reference(d, deps)
        },
        other => other,
    };
    let known: bool = !has_unresolved(&t);
    (t, known)
}

/// What an empty literal comes to without anything being built: a variable or a field
/// is empty as it is, and nothing is known of one without a type.
pub open spec fn empty_code(defs: Seq<Definition>, t: types::Ty, val: ir::Node) -> Option<
    (ir::Node, types::Ty),
> {
    if val.head is Var {
        Some((ir::insert(Seq::empty()), types::Ty::Rewritten(Box::new(t))))
    } else if places::is_field_read(defs, val) {
        Some((ir::insert(Seq::empty()), t))
    } else if types::unknown(assigned_type(defs, t)) {
        Some((ir::insert(seq![val]), t))
    } else {
        None
    }
}

/// The code and the type of an empty literal that is built against type `tp` at `val`;
/// `None` where it is built as any other.
pub fn empty_literal(data: &Data, tp: &Type, val: &Value) -> (r: Option<(Value, Type)>)
    requires
        data.definitions.len() <= u32::MAX,
    ensures
        match r {
            Some((v, t)) => empty_code(data.definitions@, tp@, val@) == Some((v@, t@)),
            None => empty_code(data.definitions@, tp@, val@) is None,
        },
{
    let none: Vec<Value> = Vec::new();
    assert(ir::views(none@) =~= Seq::<ir::Node>::empty());
    let variable: bool = match val {
        Value::Var(_) => true,
        _ => false,
    };
    if variable {
        return Some((ir::make_insert(none), Type::Rewritten(Box::new(tp.copy()))));
    }
    if places::is_field(data, val) {
        return Some((ir::make_insert(none), tp.copy()));
    }
    if assign_type(data, tp).0.is_unknown() {
        return Some((ir::make_insert(ir::list1(val.copy())), tp.copy()));
    }
    None
}

/// The type of the variable that holds an element while it is built.  `record` is the
/// definition of the elements and `present` that of a record that is there.
pub open spec fn element_var_type(
    defs: Seq<Definition>,
    parent: types::Ty,
    assigned: types::Ty,
    record: u32,
    present: u32,
) -> types::Ty {
    let deps = types::frame(types::depend(parent));
    match assigned {
        types::Ty::Reference(d, _) => if nullable_def(defs, d) {
            types::Ty::Reference(present, deps)
        } else {
            assigned
        },
        types::Ty::Enum(d, true, _) => if nullable_def(defs, d) {
            types::Ty::Reference(present, deps)
        } else {
            types::Ty::Reference(plain_record(parent, record), deps)
        },
        types::Ty::Vector(inner, _) => types::Ty::Vector(inner, deps),
        _ => types::Ty::Reference(plain_record(parent, record), deps),
    }
}

/// The definition of the elements of a collection: none where it is not known.
pub open spec fn plain_record(parent: types::Ty, record: u32) -> u32 {
    if types::unknown(types::content_of(parent)) {
        0
    } else {
        record
    }
}

/// The variables with `v` depending on the first `k` of a list.
pub open spec fn with_depends(f: data::FnView, v: u16, on: Seq<u16>, k: int) -> data::FnView
    decreases k,
{
    if k <= 0 {
        f
    } else {
        data::with_depend(with_depends(f, v, on, k - 1), v, on[k - 1])
    }
}

/// The variables with one that holds an element while it is built: it has no storage of
/// its own and depends on the collection.
pub open spec fn with_element(
    f: data::FnView,
    t: types::Ty,
    parent: types::Ty,
    vec: u16,
) -> data::FnView {
    let elm = f.vars.len() as u16;
    let f1 = data::created(f, "_elm_"@, t);
    let f2 = data::with_var(f1, elm, data::VarView { inline_ref: true, ..f1.vars[elm as int] });
    let f3 = if vec != u16::MAX {
        data::with_depend(f2, elm, vec)
    } else {
        f2
    };
    with_depends(f3, elm, types::depend(parent), types::depend(parent).len() as int)
}

fn find_element_type(data: &Data, parent: &Type, assigned: &Type, record: u32, present: u32) -> (t:
    Type)
    ensures
        t@ == element_var_type(data.definitions@, parent@, assigned@, record, present),
{
    let deps: Deps = Deps::frame(parent.depend());
    let d: u32 = if parent.content().is_unknown() {
        0
    } else {
        record
    };
    match assigned {
        Type::Reference(e, _) => if is_nullable_def(data, *e) {
            Type::Reference(present, deps)
        } else {
            assigned.copy()
        },
        Type::Enum(e, fields, _) => if *fields && is_nullable_def(data, *e) {
            Type::Reference(present, deps)
        } else {
            Type::Reference(d, deps)
        },
        Type::Vector(inner, _) => Type::Vector(Box::new(inner.copy()), deps),
        _ => Type::Reference(d, deps),
    }
}

/// Make the variable that holds an element of a literal while it is built.
pub fn unique_elm_var(
    data: &Data,
    vars: &mut Function,
    parent: &Type,
    assigned: &Type,
    vec: u16,
    record: u32,
    present: u32,
) -> (elm: u16)
    requires
        old(vars).variables.len() < u16::MAX,
    ensures
        elm == old(vars).variables.len(),
        final(vars)@ == with_element(
            old(vars)@,
            element_var_type(data.definitions@, parent@, assigned@, record, present),
            parent@,
            vec,
        ),
        final(vars).variables.len() == old(vars).variables.len() + 1,
{
    let t: Type = find_element_type(data, parent, assigned, record, present);
    let elm: u16 = vars.create("_elm_", t);
    vars.mark_inline_ref(elm);
    if vec != u16::MAX {
        vars.depend(elm, vec);
    }
    let on: Vec<u16> = parent.depend();
    let ghost f = vars@;
    let ghost n = vars.variables.len();
    let mut i: usize = 0;
    while i < on.len()
        invariant
            i <= on.len(),
            elm < n == vars.variables.len(),
            vars@ == with_depends(f, elm, on@, i as int),
        decreases on.len() - i,
    {
        vars.depend(elm, on[i]);
        i = i + 1;
    }
    elm
}

/// The variables and the variable that a literal is built in: a field has none, a
/// variable is its own, and a value gets one.  A keyed value gets it for the whole
/// function, as the storage is its own.
pub open spec fn with_literal(
    defs: Seq<Definition>,
    f: data::FnView,
    t: types::Ty,
    val: ir::Node,
    parent: types::Ty,
) -> (data::FnView, u16) {
    let vec = f.vars.len() as u16;
    if places::is_field_read(defs, val) {
        (f, u16::MAX)
    } else {
        match val.head {
            ir::Head::Var(v) => (f, v),
            _ => if types::keyed(t) {
                let g = data::created(f, "__kvb_"@, types::bare(t));
                (
                    data::with_var(g, vec, data::VarView { work_ref: true, ..g.vars[vec as int] }),
                    vec,
                )
            } else {
                (
                    data::created(
                        f,
                        "_vec_"@,
                        types::Ty::Vector(
                            Box::new(assigned_type(defs, t)),
                            types::frame(types::depend(parent)),
                        ),
                    ),
                    vec,
                )
            },
        }
    }
}

/// The variables once a literal has what it is built in and the variable of an element;
/// that of a field is released with the field.
pub open spec fn with_opened(
    defs: Seq<Definition>,
    f: data::FnView,
    t: types::Ty,
    val: ir::Node,
    parent: types::Ty,
    record: u32,
    present: u32,
) -> data::FnView {
    let (g, vec) = with_literal(defs, f, t, val, parent);
    let elm = g.vars.len() as u16;
    let h = with_element(
        g,
        element_var_type(defs, parent, assigned_type(defs, t), record, present),
        parent,
        vec,
    );
    if places::is_field_read(defs, val) {
        data::with_var(h, elm, data::VarView { skip_free: true, ..h.vars[elm as int] })
    } else {
        h
    }
}

/// Where a literal is built: its variable, that of an element, what it is assigned to,
/// and whether it stands as a block of its own.
#[derive(Debug)]
pub struct Opened {
    pub vec: u16,
    pub elm: u16,
    pub is_var: bool,
    pub is_field: bool,
    pub block: bool,
}

fn make_literal(data: &Data, vars: &mut Function, tp: &Type, val: &Value, parent: &Type) -> (vec:
    u16)
    requires
        data.definitions.len() <= u32::MAX,
        old(vars).variables.len() < u16::MAX,
    ensures
        (final(vars)@, vec) == with_literal(data.definitions@, old(vars)@, tp@, val@, parent@),
        final(vars).variables.len() <= old(vars).variables.len() + 1,
{
    proof {
        ir::shape(*val);
    }
    if places::is_field(data, val) {
        return u16::MAX;
    }
    match val {
        Value::Var(v) => *v,
        _ => if types::is_keyed(tp) {
            let v: u16 = vars.create("__kvb_", tp.without_deps());
            vars.add_to_work_refs(v);
            v
        } else {
            let elem: Type = assign_type(data, tp).0;
            vars.create("_vec_", Type::Vector(Box::new(elem), Deps::frame(parent.depend())))
        },
    }
}

/// Get ready to build a literal against type `tp` at `val`.  `record` and `present` are
/// the definitions of its elements.
pub fn open_literal(
    data: &Data,
    vars: &mut Function,
    tp: &Type,
    val: &Value,
    parent: &Type,
    record: u32,
    present: u32,
) -> (r: Opened)
    requires
        data.definitions.len() <= u32::MAX,
        old(vars).variables.len() + 1 < u16::MAX,
    ensures
        final(vars)@ == with_opened(
            data.definitions@,
            old(vars)@,
            tp@,
            val@,
            parent@,
            record,
            present,
        ),
        r.vec == with_literal(data.definitions@, old(vars)@, tp@, val@, parent@).1,
        r.elm == final(vars)@.vars.len() - 1,
        r.is_var == (val@.head is Var),
        r.is_field == places::is_field_read(data.definitions@, val@),
        r.block == (!r.is_field && !r.is_var),
        final(vars).variables.len() <= old(vars).variables.len() + 2,
{
    let is_field: bool = places::is_field(data, val);
    let is_var: bool = match val {
        Value::Var(_) => true,
        _ => false,
    };
    proof {
        ir::shape(*val);
    }
    let vec: u16 = make_literal(data, vars, tp, val, parent);
    let assigned: Type = assign_type(data, tp).0;
    let elm: u16 = unique_elm_var(data, vars, parent, &assigned, vec, record, present);
    if is_field {
        vars.set_skip_free(elm);
    }
    Opened { vec, elm, is_var, is_field, block: !is_field && !is_var }
}

/// The variables, the statement that fills the source of a loop, the source and its
/// type: a vector is iterated through a variable of its own.
pub open spec fn with_source(f: data::FnView, t: types::Ty, source: ir::Node) -> (
    data::FnView,
    ir::Node,
    ir::Node,
    types::Ty,
) {
    if t is Vector {
        let v = f.vars.len() as u16;
        let g = data::created(f, "_vector_"@, t);
        (
            data::with_var(g, v, data::VarView { iteration_source: true, ..g.vars[v as int] }),
            ir::assign(v, source),
            ir::var(v),
            types::depending_on(t, v),
        )
    } else {
        (f, ir::leaf(ir::Head::Null), source, t)
    }
}

/// What a comprehension iterates: the statement that fills it, where there is one, what
/// is iterated and its type.
pub fn comprehension_source(vars: &mut Function, tp: Type, source: Value) -> (r: (
    Value,
    Value,
    Type,
))
    requires
        old(vars).variables.len() < u16::MAX,
    ensures
        (final(vars)@, r.0@, r.1@, r.2@) == with_source(old(vars)@, tp@, source@),
        final(vars).variables.len() <= old(vars).variables.len() + 1,
{
    let vector: bool = match tp {
        Type::Vector(_, _) => true,
        _ => false,
    };
    if vector {
        let v: u16 = vars.create("_vector_", tp.copy());
        vars.mark_iteration_source(v);
        (ir::make_assign(v, source), Value::Var(v), tp.depending(v))
    } else {
        (Value::Null, source, tp)
    }
}

/// The variables once the one called `name` counts the passes of a loop, and that one.
pub open spec fn with_counter(f: data::FnView, name: Seq<char>, t: types::Ty) -> (data::FnView, u16) {
    let v = data::named_in(f, name);
    if v < f.vars.len() {
        (data::with_var(f, v, data::VarView { defined: true, ..f.vars[v as int] }), v)
    } else {
        (
            data::FnView {
                vars: f.vars.push(data::VarView { defined: true, ..data::plain_var(name, t) }),
                ..f
            },
            f.vars.len() as u16,
        )
    }
}

fn make_counter(vars: &mut Function, name: &str, tp: &Type) -> (v: u16)
    requires
        old(vars).variables.len() < u16::MAX,
    ensures
        (final(vars)@, v) == with_counter(old(vars)@, name@, tp@),
        final(vars).variables.len() <= old(vars).variables.len() + 1,
{
    let v: u16 = vars.lookup(name);
    if (v as usize) < vars.variables.len() {
        vars.mark_defined(v);
        v
    } else {
        let mut var: Variable = Variable::plain(name.to_owned(), tp.copy());
        var.defined = true;
        vars.add_variable(var)
    }
}

/// The variables with the counters of a loop called `id`: over text the position of the
/// next character and behind it the index, and over anything else the index.
pub open spec fn with_counters(f: data::FnView, id: Seq<char>, over: types::Ty, t: types::Ty) -> (
    data::FnView,
    u16,
    Option<u16>,
) {
    if over is Text {
        let (g, next) = with_counter(f, id + "#next"@, t);
        let (h, index) = with_counter(g, id + "#index"@, t);
        (h, next, Some(index))
    } else {
        let (g, index) = with_counter(f, id + "#index"@, t);
        (g, index, None)
    }
}

/// The counters of a loop called `id` over a value of type `over`: the variable that
/// steps through it, and over text the index.  `tp` is the type of a counter.
pub fn comprehension_counters(vars: &mut Function, id: &str, over: &Type, tp: &Type) -> (r: (
    u16,
    Option<u16>,
))
    requires
        old(vars).variables.len() + 1 < u16::MAX,
    ensures
        (final(vars)@, r.0, r.1) == with_counters(old(vars)@, id@, over@, tp@),
        final(vars).variables.len() <= old(vars).variables.len() + 2,
{
    let text_source: bool = match over {
        Type::Text(_) => true,
        _ => false,
    };
    let index_name: String = text::join(id, "#index");
    if text_source {
        let next_name: String = text::join(id, "#next");
        let next: u16 = make_counter(vars, next_name.as_str(), tp);
        let index: u16 = make_counter(vars, index_name.as_str(), tp);
        (next, Some(index))
    } else {
        (make_counter(vars, index_name.as_str(), tp), None)
    }
}

/// The mark of how often the element before it is repeated; `None` when the number is
/// not an integer.
pub fn parse_multiply(count: Value, tp: &Type) -> (r: Option<Value>)
    ensures
        r is Some <==> tp@ is Integer,
        r is Some ==> r->0@ == (ir::Node { head: ir::Head::Return, kids: seq![count@] }),
{
    match tp {
        Type::Integer(_) => Some(Value::Return(Box::new(count))),
        _ => None,
    }
}

/// A type without the mark that its value was built in place.
pub open spec fn peeled(t: types::Ty) -> types::Ty {
    match t {
        types::Ty::Rewritten(inner) => *inner,
        _ => t,
    }
}

fn peel(tp: Type) -> (t: Type)
    ensures
        t@ == peeled(tp@),
{
    match tp {
        Type::Rewritten(inner) => *inner,
        other => other,
    }
}

/// The element type of a literal and the type of its next element, once each has told
/// the other what it does not know.
pub open spec fn reconciled(in_t: types::Ty, t: types::Ty) -> (types::Ty, types::Ty) {
    let a = peeled(in_t);
    let b = peeled(t);
    let a1 = if types::unknown(a) {
        b
    } else {
        a
    };
    let b1 = if types::unknown(b) {
        a1
    } else {
        b
    };
    if unresolved(a1) && !unresolved(b1) {
        (b1, b1)
    } else if unresolved(b1) && !unresolved(a1) {
        (a1, a1)
    } else {
        (a1, b1)
    }
}

/// Let the element type of a literal and the type of its next element tell each other
/// what they do not know.
pub fn reconcile(in_t: Type, tp: Type) -> (r: (Type, Type))
    ensures
        (r.0@, r.1@) == reconciled(in_t@, tp@),
{
    let mut a: Type = peel(in_t);
    let mut b: Type = peel(tp);
    if a.is_unknown() {
        a = b.copy();
    }
    if b.is_unknown() {
        b = a.copy();
    }
    let open_a: bool = has_unresolved(&a);
    let open_b: bool = has_unresolved(&b);
    if open_a && !open_b {
        a = b.copy();
    } else if open_b && !open_a {
        b = a.copy();
    }
    (a, b)
}

/// What becomes of an element of a literal.
#[derive(Clone, Copy, Debug, PartialEq, Eq, Structural)]
pub enum Outcome {
    /// Two variants of one enumeration: the elements are of that enumeration.
    Variants(u32),
    /// It is stored as it is.
    AsIs,
    /// An absent record.
    Absent,
    /// It is wrapped as a record that is there.
    Wrapped,
    /// An absent value where the elements cannot be absent.
    NullRefused,
    /// The types are not known yet.
    Deferred,
    /// It converts to the element type.
    Converted,
    /// It does not convert to a declared element type.
    Refused,
    /// It does not, and a literal of the narrower kind would do.
    FloatRefused,
    /// The elements so far are widened to its type.
    Widened,
    /// It has no type in common with the elements so far.
    NoCommon,
}

/// What is known of an element beside its type: whether it is wrapped as a record, is
/// built in place, converts to the element type, and the element type to its.
#[derive(Clone, Copy, Debug)]
pub struct Fits {
    pub wraps: bool,
    pub in_place: bool,
    pub converts: bool,
    pub widens: bool,
}

/// The enumeration that a record of a type is a variant of.
pub open spec fn variant_of(defs: Seq<Definition>, t: types::Ty) -> Option<u32> {
    match t {
        types::Ty::Reference(d, _) => if d < defs.len() {
            match defs[d as int].returned@ {
                types::Ty::Enum(e, true, _) => Some(e),
                _ => None,
            }
        } else {
            None
        },
        _ => None,
    }
}

/// The enumeration of records that a type is.
pub open spec fn record_enum(t: types::Ty) -> Option<u32> {
    match t {
        types::Ty::Enum(e, true, _) => Some(e),
        _ => None,
    }
}

/// What becomes of an element of type `t` in a literal of elements of type `in_t`.
pub open spec fn outcome_of(
    defs: Seq<Definition>,
    in_t: types::Ty,
    t: types::Ty,
    fits: Fits,
    declared: bool,
    first_pass: bool,
) -> Outcome {
    if variant_of(defs, t) is Some && variant_of(defs, t) == variant_of(defs, in_t) {
        Outcome::Variants(variant_of(defs, t)->0)
    } else if record_enum(t) is Some && record_enum(t) == record_enum(in_t) {
        Outcome::AsIs
    } else if record_enum(in_t) is Some && nullable_def(defs, record_enum(in_t)->0)
        && t is Null {
        Outcome::Absent
    } else if !first_pass && record_enum(types::base(in_t)) is Some && fits.wraps
        && !fits.in_place {
        Outcome::Wrapped
    } else if t is Null && !types::is_optional(in_t) && (match in_t {
        types::Ty::Enum(_, fields, _) => !fields,
        _ => false,
    }) {
        Outcome::NullRefused
    } else if first_pass && (unresolved(t) || unresolved(in_t)) {
        Outcome::Deferred
    } else if fits.converts {
        Outcome::Converted
    } else if declared {
        if t is Float && types::base(in_t) is Single {
            Outcome::FloatRefused
        } else {
            Outcome::Refused
        }
    } else if fits.widens {
        Outcome::Widened
    } else {
        Outcome::NoCommon
    }
}

fn find_variant(data: &Data, tp: &Type) -> (r: Option<u32>)
    ensures
        r == variant_of(data.definitions@, tp@),
{
    match tp {
        Type::Reference(d, _) => if (*d as usize) < data.definitions.len() {
            find_record_enum(&data.definitions[*d as usize].returned)
        } else {
            None
        },
        _ => None,
    }
}

fn find_record_enum(tp: &Type) -> (r: Option<u32>)
    ensures
        r == record_enum(tp@),
{
    match tp {
        Type::Enum(e, fields, _) => if *fields {
            Some(*e)
        } else {
            None
        },
        _ => None,
    }
}

/// What becomes of an element of a literal once the types are reconciled.
pub fn item_outcome(
    data: &Data,
    in_t: &Type,
    tp: &Type,
    fits: Fits,
    declared: bool,
    first_pass: bool,
) -> (r: Outcome)
    ensures
        r == outcome_of(data.definitions@, in_t@, tp@, fits, declared, first_pass),
{
    let null: bool = match tp {
        Type::Null => true,
        _ => false,
    };
    match find_variant(data, tp) {
        Some(e) => {
            if find_variant(data, in_t) == Some(e) {
                return Outcome::Variants(e);
            }
        },
        None => {},
    }
    let of: Option<u32> = find_record_enum(in_t);
    match of {
        Some(e) => {
            if find_record_enum(tp) == Some(e) {
                return Outcome::AsIs;
            }
            if null && is_nullable_def(data, e) {
                return Outcome::Absent;
            }
        },
        None => {},
    }
    if !first_pass && find_record_enum(in_t.base()).is_some() && fits.wraps && !fits.in_place {
        return Outcome::Wrapped;
    }
    let plain: bool = match in_t {
        Type::Enum(_, fields, _) => !*fields,
        _ => false,
    };
    if null && plain {
        return Outcome::NullRefused;
    }
    if first_pass && (has_unresolved(tp) || has_unresolved(in_t)) {
        return Outcome::Deferred;
    }
    if fits.converts {
        return Outcome::Converted;
    }
    if declared {
        let float: bool = match tp {
            Type::Float => true,
            _ => false,
        };
        let single: bool = match in_t.base() {
            Type::Single => true,
            _ => false,
        };
        return if float && single {
            Outcome::FloatRefused
        } else {
            Outcome::Refused
        };
    }
    if fits.widens {
        Outcome::Widened
    } else {
        Outcome::NoCommon
    }
}

/// The element type of a literal after an element.
pub open spec fn element_type_after(in_t: types::Ty, t: types::Ty, o: Outcome) -> types::Ty {
    match o {
        Outcome::Variants(e) => types::Ty::Enum(e, true, types::no_deps()),
        Outcome::Widened => t,
        _ => in_t,
    }
}

/// The element type of a literal after an element.
pub fn next_element_type(in_t: Type, tp: &Type, o: Outcome) -> (r: Type)
    ensures
        r@ == element_type_after(in_t@, tp@, o),
{
    match o {
        Outcome::Variants(e) => Type::Enum(e, true, Deps::none()),
        Outcome::Widened => tp.copy(),
        _ => in_t,
    }
}

/// Whether a function value carries captures, as far as its expression tells: `found`
/// says that a capturing lambda was found in it, and `holding` are the variables that
/// hold one.
pub open spec fn source_captures(
    defs: Seq<Definition>,
    n: ir::Node,
    found: bool,
    holding: Seq<u16>,
) -> bool {
    found || match ir::unspan(n).head {
        ir::Head::FnRef(_, w, _) => w != u16::MAX,
        ir::Head::Var(v) => holding.contains(v),
        ir::Head::Call(d) => d < defs.len() && (match defs[d as int].returned@ {
            types::Ty::Function(_, _, deps) => deps.vars.len() > 0,
            _ => false,
        }),
        _ => false,
    }
}

/// Whether a function value carries captures, as far as its expression tells.
pub fn fn_ref_source_captures(data: &Data, p: &Value, found: bool, holding: &Vec<u16>) -> (r: bool)
    ensures
        r == source_captures(data.definitions@, p@, found, holding@),
{
    if found {
        return true;
    }
    match p.unspan() {
        Value::FnRef(_, w, _) => *w != u16::MAX,
        Value::Var(v) => types::has_var(holding, *v),
        Value::Call(d, _) => if (*d as usize) < data.definitions.len() {
            match &data.definitions[*d as usize].returned {
                Type::Function(_, _, deps) => deps.vars.len() > 0,
                _ => false,
            }
        } else {
            false
        },
        _ => false,
    }
}

/// Whether an element is refused because it carries captures: a collection has one
/// layout for its elements.
pub fn refuse_capturing_closure_in_collection(
    data: &Data,
    in_t: &Type,
    p: &Value,
    found: bool,
    holding: &Vec<u16>,
    first_pass: bool,
) -> (r: bool)
    ensures
        r == (!first_pass && in_t@ is Function && source_captures(
            data.definitions@,
            p@,
            found,
            holding@,
        )),
{
    match in_t {
        Type::Function(..) => !first_pass && fn_ref_source_captures(data, p, found, holding),
        _ => false,
    }
}

/// How a comprehension is built.
#[derive(Clone, Copy, Debug, PartialEq, Eq, Structural)]
pub enum Strategy {
    /// In storage of its own, as it reads what it is built in.
    OwnBuffer,
    /// As one element that is repeated.
    Fill,
    /// As the elements that are known already.
    Unrolled,
    /// As a loop that appends.
    Loop,
}

/// How a comprehension is built.  Neither shortcut serves one that reads what it is
/// built in, and one element is repeated only for a plain variable.
pub open spec fn strategy_of(
    own_buffer: bool,
    plain: bool,
    reads_itself: bool,
    fills: bool,
    in_t: types::Ty,
    unrolls: bool,
) -> Strategy {
    if own_buffer {
        Strategy::OwnBuffer
    } else if plain && !reads_itself && fills {
        Strategy::Fill
    } else if in_t is Integer && !reads_itself && unrolls {
        Strategy::Unrolled
    } else {
        Strategy::Loop
    }
}

/// How a comprehension of elements of type `in_t` at `val` is built.  `fills` and
/// `unrolls` tell whether a shortcut exists.
pub fn comprehension_strategy(
    data: &Data,
    a: places::Assignment,
    vec: u16,
    val: &Value,
    is_var: bool,
    is_field: bool,
    linked: &Vec<u16>,
    parts: &Vec<Value>,
    in_t: &Type,
    fills: bool,
    unrolls: bool,
) -> (r: Strategy)
    requires
        data.definitions.len() <= u32::MAX,
    ensures
        r == strategy_of(
            places::needs_own_buffer(
                data.definitions@,
                a,
                vec,
                val@,
                is_var,
                is_field,
                ir::views(parts@),
            ),
            !is_field && !(ir::unspan(val@).head is Call),
            places::reads_target(a, vec, is_var, linked@, ir::views(parts@)),
            fills,
            in_t@,
            unrolls,
        ),
{
    if places::comprehension_needs_own_buffer(data, a, vec, val, is_var, is_field, parts) {
        return Strategy::OwnBuffer;
    }
    let call: bool = match val.unspan() {
        Value::Call(..) => true,
        _ => false,
    };
    let integer: bool = match in_t {
        Type::Integer(_) => true,
        _ => false,
    };
    let itself: bool = places::comprehension_reads_target(a, vec, is_var, linked, parts);
    if !is_field && !call && !itself && fills {
        Strategy::Fill
    } else if integer && !itself && unrolls {
        Strategy::Unrolled
    } else {
        Strategy::Loop
    }
}

/// The element type of a comprehension with a body of a type, and whether the body
/// produces nothing, which is an error.
pub fn comprehension_element(body: Type) -> (r: (Type, bool))
    ensures
        r.1 == (peeled(body@) is Void),
        r.0@ == if peeled(body@) is Void {
            types::Ty::Integer(types::IntegerSpec::long())
        } else {
            peeled(body@)
        },
{
    let t: Type = peel(body);
    match t {
        Type::Void => (Type::Integer(types::IntegerSpec::wide()), true),
        other => (other, false),
    }
}

/// The elements with other values in them.
pub open spec fn with_values(
    items: Seq<literals::ItemView>,
    values: Seq<ir::Node>,
) -> Seq<literals::ItemView> {
    Seq::new(items.len(), |i: int| literals::ItemView { value: values[i], ..items[i] })
}

/// The values of the elements.
pub open spec fn values_of(items: Seq<literals::ItemView>) -> Seq<ir::Node> {
    Seq::new(items.len(), |i: int| items[i].value)
}

/// The variables once the variable of a literal has its type, and that type: a keyed
/// collection keeps its own.
pub open spec fn typed(f: data::FnView, w: literals::Written) -> (data::FnView, types::Ty) {
    let vec = w.literal.vec;
    let t = types::Ty::Vector(
        Box::new(w.literal.in_t),
        types::frame(types::depend(w.literal.parent)),
    );
    if vector_store::is_keyed_local(f, vec) {
        (f, types::base(f.vars[vec as int].tp))
    } else if w.is_field || vec >= f.vars.len() {
        (f, t)
    } else {
        (data::with_var(f, vec, data::VarView { tp: t, ..f.vars[vec as int] }), t)
    }
}

/// The variables, the statements that go first and the elements once these read a copy
/// of what they are built in, where they read it.
pub open spec fn snapshot_taken(
    defs: Seq<Definition>,
    f: data::FnView,
    w: literals::Written,
    items: Seq<literals::ItemView>,
    linked: Seq<u16>,
    elem_tp: i32,
) -> (data::FnView, Seq<ir::Node>, Seq<literals::ItemView>) {
    let l = w.literal;
    let values = values_of(items);
    if places::needs_snapshot(
        defs,
        f,
        w.assignment,
        l.vec,
        l.val,
        w.is_var,
        w.is_field,
        linked,
        values,
        l.first_pass,
    ) {
        let src = f.vars.len() as u16;
        let g = places::with_copy(f, l.in_t);
        (
            vector_store::with_record(g, src, w.holder, false).0,
            places::snapshot_steps(defs, g, w.holder, src, l.val, elem_tp),
            with_values(
                items,
                places::redirected_all(defs, values, l.val, l.vec, linked, src),
            ),
        )
    } else {
        (f, Seq::empty(), items)
    }
}

fn take_snapshot(
    data: &Data,
    vars: &mut Function,
    w: &LiteralSite,
    items: Vec<Item>,
    linked: &Vec<u16>,
    elem_tp: i32,
) -> (r: (Vec<Value>, Vec<Item>))
    requires
        data.definitions.len() <= u32::MAX,
        old(vars).variables.len() + 2 <= u16::MAX,
    ensures
        final(vars).variables.len() <= old(vars).variables.len() + 2,
        r.1.len() == items.len(),
        (final(vars)@, ir::views(r.0@), literals::item_views(r.1@)) == snapshot_taken(
            data.definitions@,
            old(vars)@,
            w.with_items(literals::item_views(items@)),
            literals::item_views(items@),
            linked@,
            elem_tp,
        ),
{
    let ghost all = literals::item_views(items@);
    let ghost written = w.with_items(all);
    let mut items: Vec<Item> = items;
    let mut values: Vec<Value> = Vec::new();
    let mut i: usize = 0;
    while i < items.len()
        invariant
            i <= items.len(),
            values.len() == i,
            all == literals::item_views(items@),
            forall|j: int| 0 <= j < i ==> (#[trigger] values@[j])@ == all[j].value,
        decreases items.len() - i,
    {
        assert(all[i as int] == items@[i as int]@);
        values.push(items[i].value.copy());
        i = i + 1;
    }
    proof {
        ir::view_at(values@);
    }
    assert(ir::views(values@) =~= values_of(all));
    let (first, values): (Option<Vec<Value>>, Vec<Value>) = places::snapshot_read_destination(
        data,
        vars,
        w.assignment,
        w.vec,
        &w.val,
        w.is_var,
        w.is_field,
        &w.in_t,
        linked,
        values,
        w.holder,
        elem_tp,
        w.first_pass,
    );
    match first {
        Some(first) => {
            let ghost nodes = ir::views(values@);
            assert(nodes.len() == values.len());
            let items: Vec<Item> = revalue(items, values);
            (first, items)
        },
        None => {
            let none: Vec<Value> = Vec::new();
            assert(ir::views(none@) =~= Seq::<ir::Node>::empty());
            (none, items)
        },
    }
}

fn revalue(items: Vec<Item>, values: Vec<Value>) -> (out: Vec<Item>)
    requires
        items.len() == values.len(),
    ensures
        out.len() == items.len(),
        literals::item_views(out@) == with_values(
            literals::item_views(items@),
            ir::views(values@),
        ),
{
    let ghost want = with_values(literals::item_views(items@), ir::views(values@));
    proof {
        ir::view_at(values@);
    }
    let n: usize = items.len();
    let mut items: Vec<Item> = items;
    let ghost first = items@;
    let mut i: usize = 0;
    while i < n
        invariant
            i <= n == items.len() == values.len(),
            want == with_values(literals::item_views(first), ir::views(values@)),
            first.len() == n,
            forall|j: int|
                0 <= j < values.len() ==> #[trigger] ir::views(values@)[j] == values@[j]@,
            forall|j: int| 0 <= j < i ==> (#[trigger] items@[j])@ == want[j],
            forall|j: int| i <= j < n ==> #[trigger] items@[j] == first[j],
        decreases n - i,
    {
        assert(items@[i as int] == first[i as int]);
        assert(ir::views(values@)[i as int] == values@[i as int]@);
        items[i].value = values[i].copy();
        assert(items@[i as int]@ == want[i as int]);
        i = i + 1;
    }
    assert(literals::item_views(items@) =~= want);
    items
}

/// A literal that is put together: the code, its type, and how many statements copy
/// what it is built in.
pub struct Finished {
    pub code: Value,
    pub tp: Type,
    pub copies: usize,
}

/// A literal that is put together.
pub open spec fn finished(
    defs: Seq<Definition>,
    s: Seq<schema::TypeView>,
    f: data::FnView,
    w: literals::Written,
    site: LiteralSite,
    items: Seq<literals::ItemView>,
    origin: Option<literals::OriginView>,
    linked: Seq<u16>,
    elem_tp: i32,
    block: bool,
    stores: Stores,
) -> (Seq<schema::TypeView>, data::FnView, ir::Node, types::Ty, int) {
    let (f1, t) = typed(f, w);
    let (f2, first, redirected) = snapshot_taken(defs, f1, w, items, linked, elem_tp);
    let (more, f3, steps, t1) = literals::listed(
        defs,
        s,
        f2,
        site.with_items(redirected),
        origin,
        t,
        stores,
    );
    let all = first + steps;
    (
        more,
        f3,
        if block {
            ir::block("Vector"@, all, t1)
        } else {
            ir::insert(all)
        },
        t1,
        first.len() as int,
    )
}

/// Put a literal together: type its variable, copy what it is built in where its
/// elements read that, and build it.  A keyed collection as an element of a vector is
/// refused, by its kind.
pub fn parse_vector(
    data: &Data,
    stores: &mut Stores,
    vars: &mut Function,
    w: LiteralSite,
    origin: Option<Origin>,
    items: Vec<Item>,
    linked: &Vec<u16>,
    elem_tp: i32,
    block: bool,
) -> (r: Result<Finished, &'static str>)
    requires
        data.definitions.len() <= u32::MAX,
        old(stores).types.len() <= u16::MAX,
        old(vars).variables.len() + items.len() + 5 <= u16::MAX,
    ensures
        final(stores).types.len() <= u16::MAX,
        ({
            let written = w.with_items(literals::item_views(items@));
            let keyed = vector_store::is_keyed_local(old(vars)@, w.vec);
            match r {
                Ok(done) => {
                    &&& keyed || elements::keyed_name(w.in_t@) is None
                    &&& (
                        final(stores)@,
                        final(vars)@,
                        done.code@,
                        done.tp@,
                        done.copies as int,
                    ) == finished(
                        data.definitions@,
                        old(stores)@,
                        old(vars)@,
                        written,
                        w,
                        literals::item_views(items@),
                        literals::origin_view(origin),
                        linked@,
                        elem_tp,
                        block,
                        *final(stores),
                    )
                },
                Err(kind) => {
                    &&& !keyed
                    &&& elements::keyed_name(w.in_t@) == Some(kind@)
                    &&& *final(stores) == *old(stores)
                    &&& *final(vars) == *old(vars)
                },
            }
        }),
{
    let ghost written = w.with_items(literals::item_views(items@));
    let keyed: bool = vector_store::keyed_local(vars, w.vec);
    if !keyed {
        match elements::refuse_keyed_vector_element(&w.in_t) {
            Some(kind) => {
                return Err(kind);
            },
            None => {},
        }
    }
    let ghost f = vars@;
    let tp: Type = if keyed {
        assert(vars@.vars[w.vec as int] == vars.variables@[w.vec as int]@);
        vars.variables[w.vec as usize].tp.base().copy()
    } else {
        Type::Vector(Box::new(w.in_t.copy()), Deps::frame(w.parent.depend()))
    };
    if !keyed && !w.is_field && (w.vec as usize) < vars.variables.len() {
        vars.set_type(w.vec, tp.copy());
    }
    assert((vars@, tp@) == typed(f, written));
    let (first, items): (Vec<Value>, Vec<Item>) = take_snapshot(
        data,
        vars,
        &w,
        items,
        linked,
        elem_tp,
    );
    let copies: usize = first.len();
    assert(ir::views(first@).len() == first.len());
    let (steps, tp): (Vec<Value>, Type) = literals::build_vector_list(
        data,
        stores,
        vars,
        w,
        origin,
        &items,
        tp,
    );
    let mut all: Vec<Value> = first;
    ir::put_all(&mut all, steps);
    let code: Value = if block {
        ir::make_block("Vector", all, tp.copy())
    } else {
        ir::make_insert(all)
    };
    Ok(Finished { code, tp, copies })
}

/// The type of the elements of a literal under the marks that they are built in place.
pub open spec fn under_marks(t: types::Ty) -> types::Ty
    decreases t,
{
    match t {
        types::Ty::Rewritten(inner) => under_marks(*inner),
        _ => t,
    }
}

/// What the next element of a literal is parsed into: the variable of the element, so
/// that a record is built in its place.  A tuple, or what may turn out to be one, is
/// not: its first member would take the place for itself.
pub open spec fn slot_of(in_t: types::Ty, parenthesis: bool, elm: u16) -> ir::Node {
    if types::base(under_marks(in_t)) is Tuple || parenthesis {
        ir::leaf(ir::Head::Null)
    } else {
        ir::var(elm)
    }
}

fn strip_marks(tp: &Type) -> (t: &Type)
    ensures
        t@ == under_marks(tp@),
    decreases tp,
{
    match tp {
        Type::Rewritten(inner) => strip_marks(inner),
        _ => tp,
    }
}

/// What the next element of a literal is parsed into; `parenthesis` tells that one
/// follows.
pub fn item_slot(in_t: &Type, parenthesis: bool, elm: u16) -> (v: Value)
    ensures
        v@ == slot_of(in_t@, parenthesis, elm),
{
    let t: &Type = strip_marks(in_t).base();
    let ghost ty = t@;
    let tuple: bool = match t {
        Type::Tuple(_) => true,
        _ => false,
    };
    if tuple || parenthesis {
        Value::Null
    } else {
        Value::Var(elm)
    }
}

/// An element of a literal as it was parsed: its code and type, the code once it is
/// converted to the element type where that is possible, the code where the element
/// type widens to its type, the statements that wrap it as a record where it is
/// wrapped, and those that fill the fields of a variant that is written out.
#[derive(Debug)]
pub struct Parsed {
    pub value: Value,
    pub tp: Type,
    pub converted: Option<Value>,
    pub widened: Option<Value>,
    pub wrapped: Option<Vec<Value>>,
    pub fields: Option<Vec<Value>>,
}

/// An element of a literal as it was parsed, as a value.
pub struct ParsedView {
    pub value: ir::Node,
    pub tp: types::Ty,
    pub converted: Option<ir::Node>,
    pub widened: Option<ir::Node>,
    pub wrapped: Option<Seq<ir::Node>>,
    pub fields: Option<Seq<ir::Node>>,
}

/// An optional value as a node.
pub open spec fn optional_view(v: Option<Value>) -> Option<ir::Node> {
    match v {
        Some(x) => Some(x@),
        None => None,
    }
}

/// An optional list of values as nodes.
pub open spec fn optional_views(v: Option<Vec<Value>>) -> Option<Seq<ir::Node>> {
    match v {
        Some(x) => Some(ir::views(x@)),
        None => None,
    }
}

impl Parsed {
    pub open spec fn view(&self) -> ParsedView {
        ParsedView {
            value: self.value@,
            tp: self.tp@,
            converted: optional_view(self.converted),
            widened: optional_view(self.widened),
            wrapped: optional_views(self.wrapped),
            fields: optional_views(self.fields),
        }
    }
}

/// How a parsed element fits.
pub open spec fn fits_of(p: ParsedView) -> Fits {
    Fits {
        wraps: p.wrapped is Some,
        in_place: p.value.head is Insert,
        converts: p.converted is Some,
        widens: p.widened is Some,
    }
}

/// The code of an element after what becomes of it.
pub open spec fn stored_value(p: ParsedView, o: Outcome) -> ir::Node {
    match o {
        Outcome::Absent => ir::insert(Seq::empty()),
        Outcome::Wrapped => ir::insert(p.wrapped->0),
        Outcome::Converted => p.converted->0,
        Outcome::Widened => p.widened->0,
        _ => p.value,
    }
}

/// The type of an element after what becomes of it.
pub open spec fn stored_type(in_t: types::Ty, t: types::Ty, o: Outcome) -> types::Ty {
    match o {
        Outcome::Absent | Outcome::Wrapped => in_t,
        _ => t,
    }
}

/// The code of an element with the fields of a variant that is written out.
pub open spec fn with_fields(value: ir::Node, t: types::Ty, fields: Option<Seq<ir::Node>>) -> ir::Node {
    match fields {
        Some(s) => if record_enum(t) is Some && value.head is Enum {
            ir::insert(s.push(value))
        } else {
            value
        },
        None => value,
    }
}

/// A literal with one more element: the element type, the code of the element, and
/// what became of it.
pub open spec fn with_item(
    defs: Seq<Definition>,
    in_t: types::Ty,
    p: ParsedView,
    declared: bool,
    first_pass: bool,
) -> (types::Ty, ir::Node, Outcome) {
    let (a, b) = reconciled(in_t, p.tp);
    let o = outcome_of(defs, a, b, fits_of(p), declared, first_pass);
    (
        element_type_after(a, b, o),
        with_fields(stored_value(p, o), stored_type(a, b, o), p.fields),
        o,
    )
}

/// What an element left behind: the element type of the literal from here on, what
/// became of the element, and whether it is refused for its captures.
pub struct Added {
    pub in_t: Type,
    pub outcome: Outcome,
    pub capturing: bool,
}

fn store_value(value: Value, converted: Option<Value>, widened: Option<Value>, wrapped: Option<
    Vec<Value>,
>, o: Outcome, p: Ghost<ParsedView>) -> (v: Value)
    requires
        p@.value == value@,
        p@.converted == optional_view(converted),
        p@.widened == optional_view(widened),
        p@.wrapped == optional_views(wrapped),
        o == Outcome::Wrapped ==> wrapped is Some,
        o == Outcome::Converted ==> converted is Some,
        o == Outcome::Widened ==> widened is Some,
    ensures
        v@ == stored_value(p@, o),
{
    match o {
        Outcome::Absent => {
            let none: Vec<Value> = Vec::new();
            assert(ir::views(none@) =~= Seq::<ir::Node>::empty());
            ir::make_insert(none)
        },
        Outcome::Wrapped => match wrapped {
            Some(s) => ir::make_insert(s),
            None => value,
        },
        Outcome::Converted => match converted {
            Some(v) => v,
            None => value,
        },
        Outcome::Widened => match widened {
            Some(v) => v,
            None => value,
        },
        _ => value,
    }
}

fn fill_fields(value: Value, tp: &Type, fields: Option<Vec<Value>>) -> (v: Value)
    ensures
        v@ == with_fields(value@, tp@, optional_views(fields)),
{
    match fields {
        Some(s) => {
            let variant: bool = match value {
                Value::Enum(..) => true,
                _ => false,
            };
            if variant && find_record_enum(tp).is_some() {
                let mut all: Vec<Value> = s;
                ir::put(&mut all, value);
                ir::make_insert(all)
            } else {
                value
            }
        },
        None => value,
    }
}

/// Add a parsed element to a literal of elements of type `in_t`.  `found` tells that a
/// capturing lambda was found in it, and `holding` lists the variables that hold one.
pub fn parse_item(
    data: &Data,
    in_t: Type,
    p: Parsed,
    declared: bool,
    found: bool,
    holding: &Vec<u16>,
    first_pass: bool,
    res: &mut Vec<Value>,
) -> (r: Added)
    ensures
        ({
            let (t, value, o) = with_item(data.definitions@, in_t@, p@, declared, first_pass);
            &&& r.in_t@ == t
            &&& r.outcome == o
            &&& ir::views(final(res)@) == ir::views(old(res)@).push(value)
            &&& r.capturing == (!first_pass && t is Function && source_captures(
                data.definitions@,
                value,
                found,
                holding@,
            ))
        }),
{
    let ghost view = p@;
    let built: bool = match p.value {
        Value::Insert(_) => true,
        _ => false,
    };
    let fits: Fits = Fits {
        wraps: p.wrapped.is_some(),
        in_place: built,
        converts: p.converted.is_some(),
        widens: p.widened.is_some(),
    };
    let (a, b): (Type, Type) = reconcile(in_t, p.tp);
    let o: Outcome = item_outcome(data, &a, &b, fits, declared, first_pass);
    let as_element: bool = match o {
        Outcome::Absent | Outcome::Wrapped => true,
        _ => false,
    };
    let stored: Value = store_value(
        p.value,
        p.converted,
        p.widened,
        p.wrapped,
        o,
        Ghost(view),
    );
    let value: Value = if as_element {
        fill_fields(stored, &a, p.fields)
    } else {
        fill_fields(stored, &b, p.fields)
    };
    let t: Type = next_element_type(a, &b, o);
    let capturing: bool = refuse_capturing_closure_in_collection(
        data,
        &t,
        &value,
        found,
        holding,
        first_pass,
    );
    ir::put(res, value);
    Added { in_t: t, outcome: o, capturing }
}

/// A comprehension whose parts are known: where it is built, how its loop ends, the
/// elements it comes to where those are known already, and the definition of a record
/// that is there.
pub struct Comprehension {
    pub site: LiteralSite,
    pub end: LoopEnd,
    pub pre_var: Option<u16>,
    pub block: bool,
    pub linked: Vec<u16>,
    pub elem_tp: i32,
    pub present: u32,
    pub fill: Option<Vec<Item>>,
    pub unrolled: Option<Vec<Item>>,
}

impl Comprehension {
    /// The type of a comprehension.
    pub open spec fn result(&self) -> types::Ty {
        types::Ty::Vector(
            Box::new(self.site.in_t@),
            types::frame(types::depend(self.site.parent@)),
        )
    }

    /// How a comprehension is built.
    pub open spec fn strategy(&self, defs: Seq<Definition>, parts: Seq<ir::Node>) -> Strategy {
        strategy_of(
            places::needs_own_buffer(
                defs,
                self.site.assignment,
                self.site.vec,
                self.site.val@,
                self.site.is_var,
                self.site.is_field,
                parts,
            ),
            !self.site.is_field && !(ir::unspan(self.site.val@).head is Call),
            places::reads_target(
                self.site.assignment,
                self.site.vec,
                self.site.is_var,
                self.linked@,
                parts,
            ),
            self.fill is Some,
            self.site.in_t@,
            self.unrolled is Some,
        )
    }

    /// The variables once the variable of the comprehension has its type.
    pub open spec fn typed(&self, f: data::FnView) -> data::FnView {
        if self.site.is_field || self.site.vec >= f.vars.len() {
            f
        } else {
            data::with_var(
                f,
                self.site.vec,
                data::VarView { tp: self.result(), ..f.vars[self.site.vec as int] },
            )
        }
    }

    /// The loop, built in place.
    pub open spec fn in_place(&self) -> comprehensions::Plan {
        comprehensions::Plan {
            vec: self.site.vec,
            vec_expr: if self.site.vec == u16::MAX {
                self.site.val@
            } else {
                ir::var(self.site.vec)
            },
            elm: self.site.elm,
            in_t: self.site.in_t@,
            end: self.end@,
            pre_var: self.pre_var,
            val: self.site.val@,
            is_var: self.site.is_var,
            is_field: self.site.is_field,
            block: self.block,
            holder: self.site.holder,
            assignment: self.site.assignment,
            linked: self.linked@,
            elem_tp: self.elem_tp,
        }
    }

    /// The variables and the loop, built in a vector of its own.
    pub open spec fn apart(&self, defs: Seq<Definition>, f: data::FnView) -> (
        data::FnView,
        comprehensions::Plan,
    ) {
        let out = f.vars.len() as u16;
        let t = types::Ty::Vector(Box::new(self.site.in_t@), types::no_deps());
        let f1 = data::created(f, "_vec_"@, t);
        let f2 = data::with_var(f1, out, data::VarView { defined: true, ..f1.vars[out as int] });
        let elm = f2.vars.len() as u16;
        (
            with_element(
                f2,
                element_var_type(defs, t, self.site.in_t@, self.site.record, self.present),
                t,
                out,
            ),
            comprehensions::Plan {
                vec: out,
                vec_expr: ir::var(out),
                elm,
                val: ir::leaf(ir::Head::Null),
                is_var: false,
                is_field: false,
                block: true,
                ..self.in_place()
            },
        )
    }

    /// The elements that the comprehension comes to, as a literal.
    pub open spec fn known_items(&self, how: Strategy) -> Seq<literals::ItemView> {
        match (how, self.fill, self.unrolled) {
            (Strategy::Fill, Some(items), _) => literals::item_views(items@),
            (Strategy::Unrolled, _, Some(items)) => literals::item_views(items@),
            _ => Seq::empty(),
        }
    }

    /// The literal of those elements.
    pub open spec fn listing(&self, how: Strategy) -> literals::Written {
        let w = self.site.with_items(self.known_items(how));
        literals::Written {
            literal: literals::Literal { parent: self.result(), ..w.literal },
            ..w
        }
    }

    /// The code of those elements.
    pub open spec fn listed_code(&self, how: Strategy, s: Seq<ir::Node>, t: types::Ty) -> ir::Node {
        if self.site.is_var || self.site.is_field {
            ir::insert(s)
        } else if how == Strategy::Fill {
            ir::block("Const fill comprehension"@, s, t)
        } else {
            ir::block("Const comprehension"@, s, t)
        }
    }

    /// The comprehension in the second pass: the stored types, the variables, the code
    /// and the type.
    pub open spec fn built(
        &self,
        defs: Seq<Definition>,
        s: Seq<schema::TypeView>,
        f: data::FnView,
        parts: Seq<ir::Node>,
        stores: Stores,
    ) -> (Seq<schema::TypeView>, data::FnView, ir::Node, types::Ty) {
        let how = self.strategy(defs, parts);
        let f1 = self.typed(f);
        match how {
            Strategy::OwnBuffer => {
                let (f2, plan) = self.apart(defs, f1);
                comprehensions::comprehended(defs, s, f2, plan, parts, self.result())
            },
            Strategy::Loop => comprehensions::comprehended(
                defs,
                s,
                f1,
                self.in_place(),
                parts,
                self.result(),
            ),
            _ => {
                let (more, f2, steps, t) = literals::listed(
                    defs,
                    s,
                    f1,
                    self.listing(how),
                    None,
                    self.result(),
                    stores,
                );
                (more, f2, self.listed_code(how, steps, t), t)
            },
        }
    }

    fn result_type(&self) -> (t: Type)
        ensures
            t@ == self.result(),
    {
        Type::Vector(
            Box::new(self.site.in_t.copy()),
            Deps::frame(self.site.parent.depend()),
        )
    }

    /// How many variables building takes at most.
    pub open spec fn room(&self) -> int {
        let n = match self.fill {
            Some(items) => items.len() as int,
            None => 0,
        };
        let m = match self.unrolled {
            Some(items) => items.len() as int,
            None => 0,
        };
        8 + n + m
    }
}

fn list_known(
    data: &Data,
    stores: &mut Stores,
    vars: &mut Function,
    site: LiteralSite,
    items: Vec<Item>,
    tp: Type,
    filled: bool,
    c: Ghost<Comprehension>,
    how: Ghost<Strategy>,
) -> (r: (Value, Type))
    requires
        data.definitions.len() <= u32::MAX,
        old(stores).types.len() <= u16::MAX,
        old(vars).variables.len() + items.len() + 3 <= u16::MAX,
        c@.site == site,
        tp@ == c@.result(),
        c@.known_items(how@) == literals::item_views(items@),
        how@ == if filled {
            Strategy::Fill
        } else {
            Strategy::Unrolled
        },
    ensures
        final(stores).types.len() <= u16::MAX,
        ({
            let (more, f2, steps, t) = literals::listed(
                data.definitions@,
                old(stores)@,
                old(vars)@,
                c@.listing(how@),
                None,
                c@.result(),
                *final(stores),
            );
            (final(stores)@, final(vars)@, r.0@, r.1@) == (
                more,
                f2,
                c@.listed_code(how@, steps, t),
                t,
            )
        }),
{
    let in_place: bool = site.is_var || site.is_field;
    let mut site: LiteralSite = site;
    site.parent = tp.copy();
    assert(site.with_items(literals::item_views(items@)) == c@.listing(how@));
    let (steps, t): (Vec<Value>, Type) = literals::build_vector_list(
        data,
        stores,
        vars,
        site,
        None,
        &items,
        tp,
    );
    let code: Value = if in_place {
        ir::make_insert(steps)
    } else if filled {
        ir::make_block("Const fill comprehension", steps, t.copy())
    } else {
        ir::make_block("Const comprehension", steps, t.copy())
    };
    (code, t)
}

fn build_apart(
    data: &Data,
    stores: &mut Stores,
    vars: &mut Function,
    c: Comprehension,
    parts: Vec<Value>,
    tp: Type,
) -> (r: (Value, Type))
    requires
        data.definitions.len() <= u32::MAX,
        old(stores).types.len() <= u16::MAX,
        old(vars).variables.len() + 8 <= u16::MAX,
        parts.len() == 5,
    ensures
        final(stores).types.len() <= u16::MAX,
        ({
            let (f, plan) = c.apart(data.definitions@, old(vars)@);
            (final(stores)@, final(vars)@, r.0@, r.1@) == comprehensions::comprehended(
                data.definitions@,
                old(stores)@,
                f,
                plan,
                ir::views(parts@),
                tp@,
            )
        }),
{
    let ghost whole = c;
    let ghost f = vars@;
    let out_tp: Type = Type::Vector(Box::new(c.site.in_t.copy()), Deps::none());
    let out: u16 = vars.create("_vec_", out_tp.copy());
    vars.mark_defined(out);
    let elm: u16 = unique_elm_var(
        data,
        vars,
        &out_tp,
        &c.site.in_t,
        out,
        c.site.record,
        c.present,
    );
    let plan: Build = Build {
        vec: out,
        vec_expr: Value::Var(out),
        elm,
        in_t: c.site.in_t,
        end: c.end,
        pre_var: c.pre_var,
        val: Value::Null,
        is_var: false,
        is_field: false,
        block: true,
        holder: c.site.holder,
        assignment: c.site.assignment,
        linked: c.linked,
        elem_tp: c.elem_tp,
    };
    assert((vars@, plan@) == whole.apart(data.definitions@, f));
    comprehensions::build_comprehension_code(data, stores, vars, &plan, parts, tp)
}

fn build_in_place(
    data: &Data,
    stores: &mut Stores,
    vars: &mut Function,
    c: Comprehension,
    parts: Vec<Value>,
    tp: Type,
) -> (r: (Value, Type))
    requires
        data.definitions.len() <= u32::MAX,
        old(stores).types.len() <= u16::MAX,
        old(vars).variables.len() + 6 <= u16::MAX,
        parts.len() == 5,
    ensures
        final(stores).types.len() <= u16::MAX,
        (final(stores)@, final(vars)@, r.0@, r.1@) == comprehensions::comprehended(
            data.definitions@,
            old(stores)@,
            old(vars)@,
            c.in_place(),
            ir::views(parts@),
            tp@,
        ),
{
    let ghost whole = c;
    let vec_expr: Value = if c.site.vec == u16::MAX {
        c.site.val.copy()
    } else {
        Value::Var(c.site.vec)
    };
    let plan: Build = Build {
        vec: c.site.vec,
        vec_expr,
        elm: c.site.elm,
        in_t: c.site.in_t,
        end: c.end,
        pre_var: c.pre_var,
        val: c.site.val,
        is_var: c.site.is_var,
        is_field: c.site.is_field,
        block: c.block,
        holder: c.site.holder,
        assignment: c.site.assignment,
        linked: c.linked,
        elem_tp: c.elem_tp,
    };
    assert(plan@ == whole.in_place());
    comprehensions::build_comprehension_code(data, stores, vars, &plan, parts, tp)
}

/// Build a comprehension: as a loop, or as a literal where its elements are known; apart
/// from its destination where it reads that and cannot be put off.  `parts` are what
/// fills its source, what starts the loop, its next value, its filter and its body.  In
/// the first pass nothing is built.
pub fn parse_vector_for(
    data: &Data,
    stores: &mut Stores,
    vars: &mut Function,
    c: Comprehension,
    parts: Vec<Value>,
) -> (r: (Option<Value>, Type))
    requires
        data.definitions.len() <= u32::MAX,
        old(stores).types.len() <= u16::MAX,
        old(vars).variables.len() + c.room() <= u16::MAX,
        parts.len() == 5,
    ensures
        final(stores).types.len() <= u16::MAX,
        c.site.first_pass ==> r.0 is None && r.1@ == c.result() && *final(stores) == *old(stores)
            && final(vars)@ == c.typed(old(vars)@),
        !c.site.first_pass ==> r.0 is Some && (final(stores)@, final(vars)@, r.0->0@, r.1@)
            == c.built(
            data.definitions@,
            old(stores)@,
            old(vars)@,
            ir::views(parts@),
            *final(stores),
        ),
{
    let ghost whole = c;
    let ghost nodes = ir::views(parts@);
    let tp: Type = c.result_type();
    if !c.site.is_field && (c.site.vec as usize) < vars.variables.len() {
        vars.set_type(c.site.vec, tp.copy());
    }
    if c.site.first_pass {
        return (None, tp);
    }
    let how: Strategy = comprehension_strategy(
        data,
        c.site.assignment,
        c.site.vec,
        &c.site.val,
        c.site.is_var,
        c.site.is_field,
        &c.linked,
        &parts,
        &c.site.in_t,
        c.fill.is_some(),
        c.unrolled.is_some(),
    );
    assert(how == whole.strategy(data.definitions@, nodes));
    match how {
        Strategy::Fill => {
            match c.fill {
                Some(items) => {
                    let (code, t): (Value, Type) = list_known(
                        data,
                        stores,
                        vars,
                        c.site,
                        items,
                        tp,
                        true,
                        Ghost(whole),
                        Ghost(how),
                    );
                    (Some(code), t)
                },
                None => (None, tp),
            }
        },
        Strategy::Unrolled => {
            match c.unrolled {
                Some(items) => {
                    let (code, t): (Value, Type) = list_known(
                        data,
                        stores,
                        vars,
                        c.site,
                        items,
                        tp,
                        false,
                        Ghost(whole),
                        Ghost(how),
                    );
                    (Some(code), t)
                },
                None => (None, tp),
            }
        },
        Strategy::OwnBuffer => {
            let (code, t): (Value, Type) = build_apart(data, stores, vars, c, parts, tp);
            (Some(code), t)
        },
        Strategy::Loop => {
            let (code, t): (Value, Type) = build_in_place(data, stores, vars, c, parts, tp);
            (Some(code), t)
        },
    }
}

/// What is known of a comprehension when it is read: whether it loops over a range, the
/// constant that its body is, whether the range starts at 0, its end and its length
/// otherwise; its constant bounds, and what filter and body are in each pass, where
/// they are constant.
pub struct Folded {
    pub range: bool,
    pub folded: Option<Value>,
    pub from_zero: bool,
    pub till: Value,
    pub difference: Value,
    pub bounds: Option<(i32, i32)>,
    pub filters: Vec<Option<bool>>,
    pub values: Vec<Option<Value>>,
}

impl Folded {
    /// The one element and how often it is repeated, where the body is constant.
    pub open spec fn fill(&self, filter: ir::Node) -> Option<Seq<ir::Node>> {
        comprehensions::const_fill(
            self.range,
            filter,
            optional_view(self.folded),
            if self.from_zero {
                self.till@
            } else {
                self.difference@
            },
        )
    }

    /// The elements, where each pass is constant.
    pub open spec fn unrolled(&self, filter: ir::Node) -> Option<Seq<ir::Node>> {
        comprehensions::const_unroll(
            self.bounds,
            !(filter.head is Null),
            self.filters@,
            comprehensions::option_views(self.values@),
        )
    }
}

/// An element that is a constant.
pub open spec fn plain_item(n: ir::Node) -> literals::ItemView {
    literals::ItemView { value: n, fresh: false, null: n.head is Null, wraps: Seq::empty() }
}

/// Constants as elements.
pub open spec fn plain_items(s: Seq<ir::Node>) -> Seq<literals::ItemView> {
    Seq::new(s.len(), |i: int| plain_item(s[i]))
}

fn make_plain(values: Vec<Value>) -> (items: Vec<Item>)
    ensures
        literals::item_views(items@) == plain_items(ir::views(values@)),
        items.len() == values.len(),
{
    let ghost all = ir::views(values@);
    let mut items: Vec<Item> = Vec::new();
    let mut i: usize = 0;
    while i < values.len()
        invariant
            i <= values.len(),
            all == ir::views(values@),
            all.len() == values.len(),
            items.len() == i,
            forall|j: int| 0 <= j < i ==> (#[trigger] items@[j])@ == plain_item(all[j]),
        decreases values.len() - i,
    {
        proof {
            ir::view_at(values@);
            ir::shape(values@[i as int]);
        }
        let null: bool = match values[i] {
            Value::Null => true,
            _ => false,
        };
        let item = Item { value: values[i].copy(), fresh: false, null, wraps: Vec::new() };
        assert(item@.wraps =~= Seq::<Option<Seq<ir::Node>>>::empty());
        assert(item@ == plain_item(all[i as int]));
        items.push(item);
        i = i + 1;
    }
    assert(literals::item_views(items@) =~= plain_items(all));
    items
}

/// Whether elements are those of a list of constants, where there is one.
pub open spec fn are_plain(items: Option<Vec<Item>>, s: Option<Seq<ir::Node>>) -> bool {
    match (items, s) {
        (Some(items), Some(s)) => literals::item_views(items@) == plain_items(s),
        (None, None) => true,
        _ => false,
    }
}

/// Whether the next value of a loop comes from anything: nothing is asked of a source
/// that cannot be iterated.
pub open spec fn iterates(next: ir::Node) -> bool {
    !(next.head is Assign && next.kids.len() > 0 && next.kids[0].head is Null)
}

fn can_iterate(next: &Value) -> (r: bool)
    ensures
        r == iterates(next@),
{
    proof {
        ir::shape(*next);
    }
    match next {
        Value::Assign(_, v) => {
            proof {
                ir::shape(**v);
            }
            assert(next@.kids[0] == v@);
            match **v {
                Value::Null => false,
                _ => true,
            }
        },
        _ => true,
    }
}

/// Build a comprehension of which `known` is known: with one element that is repeated, or
/// the elements that each pass comes to, where it comes to constants, and as a loop
/// otherwise.  `None` for a source that cannot be iterated, which the second pass
/// refuses.
pub fn comprehend(
    data: &Data,
    stores: &mut Stores,
    vars: &mut Function,
    c: Comprehension,
    known: Folded,
    parts: Vec<Value>,
) -> (r: Option<(Option<Value>, Type)>)
    requires
        data.definitions.len() <= u32::MAX,
        old(stores).types.len() <= u16::MAX,
        old(vars).variables.len() + 10 + known.values.len() <= u16::MAX,
        known.values.len() <= known.filters.len(),
        known.bounds matches Some((from, till)) ==> (till - from <= comprehensions::UNROLL_LIMIT
            ==> till - from <= known.values.len()),
        parts.len() == 5,
    ensures
        final(stores).types.len() <= u16::MAX,
        r is None <==> !c.site.first_pass && !iterates(ir::views(parts@)[2]),
        r is None ==> *final(stores) == *old(stores) && *final(vars) == *old(vars),
        c.site.first_pass ==> r is Some && (r->0).0 is None && (r->0).1@ == c.result()
            && *final(stores) == *old(stores) && final(vars)@ == c.typed(old(vars)@),
        !c.site.first_pass && r is Some ==> exists|whole: Comprehension|
            whole == (Comprehension { fill: whole.fill, unrolled: whole.unrolled, ..c })
                && are_plain(whole.fill, known.fill(ir::views(parts@)[3])) && are_plain(
                whole.unrolled,
                known.unrolled(ir::views(parts@)[3]),
            ) && (r->0).0 is Some && (
                final(stores)@,
                final(vars)@,
                (r->0).0->0@,
                (r->0).1@,
            ) == #[trigger] whole.built(
                data.definitions@,
                old(stores)@,
                old(vars)@,
                ir::views(parts@),
                *final(stores),
            ),
{
    proof {
        ir::view_at(parts@);
    }
    let ghost given = c;
    let ghost nodes = ir::views(parts@);
    let ghost fill_want = known.fill(nodes[3]);
    let ghost unroll_want = known.unrolled(nodes[3]);
    if !c.site.first_pass && !can_iterate(&parts[2]) {
        return None;
    }
    proof {
        ir::shape(parts@[3]);
        match known.bounds {
            Some((from, till)) => {
                if from < till {
                    comprehensions::unrolled_len(
                        !(nodes[3].head is Null),
                        known.filters@,
                        comprehensions::option_views(known.values@),
                        till - from,
                    );
                }
            },
            None => {},
        }
    }
    let ghost passes = known.values.len();
    let filtered: bool = match parts[3] {
        Value::Null => false,
        _ => true,
    };
    let unrolled: Option<Vec<Item>> = match comprehensions::try_const_unroll_comprehension(
        known.bounds,
        filtered,
        &known.filters,
        &known.values,
    ) {
        Some(s) => {
            assert(ir::views(s@).len() == s.len());
            Some(make_plain(s))
        },
        None => None,
    };
    let fill: Option<Vec<Item>> = match comprehensions::try_const_fill_comprehension(
        known.range,
        &parts[3],
        known.folded,
        known.from_zero,
        &known.till,
        &known.difference,
    ) {
        Some(s) => {
            assert(ir::views(s@).len() == s.len());
            Some(make_plain(s))
        },
        None => None,
    };
    let mut whole = c;
    whole.fill = fill;
    whole.unrolled = unrolled;
    let ghost full = whole;
    assert(are_plain(full.fill, fill_want));
    assert(are_plain(full.unrolled, unroll_want));
    let out: (Option<Value>, Type) = parse_vector_for(data, stores, vars, whole, parts);
    assert(full == (Comprehension { fill: full.fill, unrolled: full.unrolled, ..given }));
    Some(out)
}

/// An element as it was read, with what the literal has to know of its value.
pub struct Element {
    pub parsed: Parsed,
    pub found: bool,
    pub fresh: bool,
    pub null: bool,
    pub wraps: Vec<Option<Vec<Value>>>,
}

/// One part of a bracketed literal: an element, or how often the one before it is
/// repeated.
pub enum Part {
    Element(Element),
    Times(Value, Type),
}

/// One part of a bracketed literal as a value.
pub enum PartView {
    Element {
        parsed: ParsedView,
        found: bool,
        fresh: bool,
        null: bool,
        wraps: Seq<Option<Seq<ir::Node>>>,
    },
    Times(ir::Node, types::Ty),
}

impl Part {
    pub open spec fn view(&self) -> PartView {
        match *self {
            Part::Element(e) => PartView::Element {
                parsed: e.parsed@,
                found: e.found,
                fresh: e.fresh,
                null: e.null,
                wraps: literals::wrap_views(e.wraps@),
            },
            Part::Times(v, t) => PartView::Times(v@, t@),
        }
    }
}

/// The parts of a list as values.
pub open spec fn part_views(s: Seq<Part>) -> Seq<PartView> {
    Seq::new(s.len(), |i: int| s[i]@)
}

/// What became of an element, and whether it is refused for its captures.
#[derive(Clone, Copy, Debug, PartialEq, Eq, Structural)]
pub struct Note {
    pub outcome: Outcome,
    pub capturing: bool,
}

/// What the parts of a literal come to: the type of its elements, the elements, and what
/// became of each.
pub struct Gathered {
    pub in_t: types::Ty,
    pub items: Seq<literals::ItemView>,
    pub notes: Seq<Note>,
}

/// One more part of a literal; none where an element is repeated by something that is no
/// number.
pub open spec fn with_part(
    defs: Seq<Definition>,
    g: Gathered,
    p: PartView,
    declared: bool,
    holding: Seq<u16>,
    first_pass: bool,
) -> Option<Gathered> {
    match p {
        PartView::Times(count, t) => if t is Integer {
            Some(
                Gathered {
                    items: g.items.push(
                        literals::ItemView {
                            value: ir::Node { head: ir::Head::Return, kids: seq![count] },
                            fresh: false,
                            null: false,
                            wraps: Seq::empty(),
                        },
                    ),
                    ..g
                },
            )
        } else {
            None
        },
        PartView::Element { parsed, found, fresh, null, wraps } => {
            let (t, value, o) = with_item(defs, g.in_t, parsed, declared, first_pass);
            Some(
                Gathered {
                    in_t: t,
                    items: g.items.push(literals::ItemView { value, fresh, null, wraps }),
                    notes: g.notes.push(
                        Note {
                            outcome: o,
                            capturing: !first_pass && t is Function && source_captures(
                                defs,
                                value,
                                found,
                                holding,
                            ),
                        },
                    ),
                },
            )
        },
    }
}

/// What the first `k` parts of a literal come to.
pub open spec fn gathered(
    defs: Seq<Definition>,
    in_t: types::Ty,
    parts: Seq<PartView>,
    declared: bool,
    holding: Seq<u16>,
    first_pass: bool,
    k: int,
) -> Option<Gathered>
    decreases k,
{
    if k <= 0 {
        Some(Gathered { in_t, items: Seq::empty(), notes: Seq::empty() })
    } else {
        match gathered(defs, in_t, parts, declared, holding, first_pass, k - 1) {
            Some(g) => with_part(defs, g, parts[k - 1], declared, holding, first_pass),
            None => None,
        }
    }
}

proof fn stays_ungathered(
    defs: Seq<Definition>,
    in_t: types::Ty,
    parts: Seq<PartView>,
    declared: bool,
    holding: Seq<u16>,
    first_pass: bool,
    i: int,
    k: int,
)
    requires
        0 <= i <= k,
        gathered(defs, in_t, parts, declared, holding, first_pass, i) is None,
    ensures
        gathered(defs, in_t, parts, declared, holding, first_pass, k) is None,
    decreases k - i,
{
    if i < k {
        stays_ungathered(defs, in_t, parts, declared, holding, first_pass, i, k - 1);
    }
}

/// The parts of a literal taken together.
struct Gathering {
    in_t: Type,
    items: Vec<Item>,
    notes: Vec<Note>,
}

impl Gathering {
    spec fn whole(&self) -> Gathered {
        Gathered {
            in_t: self.in_t@,
            items: literals::item_views(self.items@),
            notes: self.notes@,
        }
    }
}

fn gather_part(
    data: &Data,
    g: Gathering,
    p: Part,
    declared: bool,
    holding: &Vec<u16>,
    first_pass: bool,
) -> (r: Option<Gathering>)
    ensures
        match r {
            Some(h) => with_part(
                data.definitions@,
                g.whole(),
                p@,
                declared,
                holding@,
                first_pass,
            ) == Some(h.whole()) && h.items.len() == g.items.len() + 1,
            None => with_part(
                data.definitions@,
                g.whole(),
                p@,
                declared,
                holding@,
                first_pass,
            ) is None,
        },
{
    let ghost was = g.whole();
    let ghost part = p@;
    let Gathering { in_t, mut items, mut notes } = g;
    let ghost before = literals::item_views(items@);
    match p {
        Part::Times(count, tp) => match parse_multiply(count, &tp) {
            Some(value) => {
                let item = Item { value, fresh: false, null: false, wraps: Vec::new() };
                assert(item@.wraps =~= Seq::<Option<Seq<ir::Node>>>::empty());
                let ghost view = item@;
                items.push(item);
                assert(literals::item_views(items@) =~= before.push(view));
                Some(Gathering { in_t, items, notes })
            },
            None => None,
        },
        Part::Element(e) => {
            let mut one: Vec<Value> = Vec::new();
            assert(ir::views(one@) =~= Seq::<ir::Node>::empty());
            let ghost parsed = e.parsed@;
            let added: Added = parse_item(
                data,
                in_t,
                e.parsed,
                declared,
                e.found,
                holding,
                first_pass,
                &mut one,
            );
            proof {
                ir::view_at(one@);
            }
            assert(ir::views(one@).len() == 1);
            let ghost node = ir::views(one@)[0];
            let value: Value = match one.pop() {
                Some(v) => v,
                None => Value::Null,
            };
            assert(value@ == node);
            let item = Item { value, fresh: e.fresh, null: e.null, wraps: e.wraps };
            let ghost view = item@;
            items.push(item);
            assert(literals::item_views(items@) =~= before.push(view));
            notes.push(Note { outcome: added.outcome, capturing: added.capturing });
            Some(Gathering { in_t: added.in_t, items, notes })
        },
    }
}

fn gather(
    data: &Data,
    in_t: Type,
    parts: Vec<Part>,
    declared: bool,
    holding: &Vec<u16>,
    first_pass: bool,
) -> (r: Option<Gathering>)
    ensures
        match r {
            Some(g) => gathered(
                data.definitions@,
                in_t@,
                part_views(parts@),
                declared,
                holding@,
                first_pass,
                parts.len() as int,
            ) == Some(g.whole()) && g.items.len() == parts.len(),
            None => gathered(
                data.definitions@,
                in_t@,
                part_views(parts@),
                declared,
                holding@,
                first_pass,
                parts.len() as int,
            ) is None,
        },
{
    let ghost all = parts@;
    let ghost views = part_views(parts@);
    let ghost first = in_t@;
    let mut rest: Vec<Part> = parts;
    let mut g = Gathering { in_t, items: Vec::new(), notes: Vec::new() };
    let ghost mut i: int = 0;
    assert(literals::item_views(g.items@) =~= Seq::<literals::ItemView>::empty());
    assert(all.skip(0) =~= all);
    #[verifier::loop_isolation(false)]
    while rest.len() > 0
        invariant
            0 <= i <= all.len(),
            rest@ == all.skip(i),
            views == part_views(all),
            gathered(data.definitions@, first, views, declared, holding@, first_pass, i) == Some(
                g.whole(),
            ),
            g.items.len() == i,
        decreases rest.len(),
    {
        let p: Part = rest.remove(0);
        assert(p == all[i]);
        assert(views[i] == p@);
        assert(rest@ =~= all.skip(i + 1));
        match gather_part(data, g, p, declared, holding, first_pass) {
            Some(h) => {
                g = h;
            },
            None => {
                proof {
                    stays_ungathered(
                        data.definitions@,
                        first,
                        views,
                        declared,
                        holding@,
                        first_pass,
                        i + 1,
                        all.len() as int,
                    );
                }
                return None;
            },
        }
        proof {
            i = i + 1;
        }
    }
    Some(g)
}

/// What a bracketed literal is built against and into.  `content` is the definition of
/// what its place holds, `record` that of its elements and `present` that of an element
/// that may be absent and is there.
pub struct Bracket {
    pub tp: Type,
    pub val: Value,
    pub parent: Type,
    pub owner: Option<FieldOwner>,
    pub content: u32,
    pub record: u32,
    pub present: u32,
    pub assignment: places::Assignment,
    pub holder: Holder,
    pub origin: Option<Origin>,
    pub linked: Vec<u16>,
    pub elem_tp: i32,
    pub holding: Vec<u16>,
    pub first_pass: bool,
}

impl Bracket {
    /// The variables once the literal is opened.
    pub open spec fn opened(&self, defs: Seq<Definition>, f: data::FnView) -> data::FnView {
        with_opened(defs, f, self.tp@, self.val@, self.parent@, self.content, self.present)
    }

    /// What the parts of the literal come to.
    pub open spec fn gathered(&self, defs: Seq<Definition>, parts: Seq<PartView>) -> Option<
        Gathered,
    > {
        let t = assigned_type(defs, self.tp@);
        gathered(
            defs,
            t,
            parts,
            !unresolved(t),
            self.holding@,
            self.first_pass,
            parts.len() as int,
        )
    }

    /// Whether `site` is where the literal is built, once its elements are of type `in_t`.
    pub open spec fn sited(
        &self,
        defs: Seq<Definition>,
        f: data::FnView,
        in_t: types::Ty,
        site: LiteralSite,
    ) -> bool {
        &&& site.val@ == self.val@
        &&& site.parent@ == self.parent@
        &&& site.owner == self.owner
        &&& site.elm == self.opened(defs, f).vars.len() - 1
        &&& site.vec == with_literal(defs, f, self.tp@, self.val@, self.parent@).1
        &&& site.in_t@ == in_t
        &&& site.record == self.record
        &&& site.first_pass == self.first_pass
        &&& site.is_var == (self.val@.head is Var)
        &&& site.is_field == places::is_field_read(defs, self.val@)
        &&& site.unresolved == unresolved(in_t)
        &&& site.assignment == self.assignment
        &&& site.holder == self.holder
    }
}

/// What a bracketed literal comes to.
pub enum Literal {
    /// It has no elements, and nothing has to be built.
    Empty(Value, Type),
    /// An element is repeated by something that is no number.
    BadRepeat,
    /// Nothing says what its elements are.
    Untyped,
    /// Its elements are keyed collections of this kind, which are refused.
    Keyed(&'static str),
    /// It is built.
    Built(Finished),
}

/// Whether an opened literal of elements that are gathered comes to `l`.
pub open spec fn closed_as(
    b: Bracket,
    defs: Seq<Definition>,
    f: data::FnView,
    got: Gathered,
    l: Literal,
    was: Stores,
    now: Stores,
    vars: data::FnView,
) -> bool {
    let opened = b.opened(defs, f);
    let vec = with_literal(defs, f, b.tp@, b.val@, b.parent@).1;
    let keyed = !(got.in_t is Null) && !vector_store::is_keyed_local(opened, vec)
        && elements::keyed_name(got.in_t) is Some;
    match l {
        Literal::Untyped => got.in_t is Null && now == was && vars == opened,
        Literal::Keyed(kind) => keyed && elements::keyed_name(got.in_t) == Some(kind@) && now == was
            && vars == opened,
        Literal::Built(done) => !(got.in_t is Null) && !keyed && exists|site: LiteralSite|
            #[trigger] b.sited(defs, f, got.in_t, site) && (
                now@,
                vars,
                done.code@,
                done.tp@,
                done.copies as int,
            ) == finished(
                defs,
                was@,
                opened,
                site.with_items(got.items),
                site,
                got.items,
                literals::origin_view(b.origin),
                b.linked@,
                b.elem_tp,
                !site.is_field && !site.is_var,
                now,
            ),
        _ => false,
    }
}

fn close_bracket(
    data: &Data,
    stores: &mut Stores,
    vars: &mut Function,
    b: Bracket,
    opened: Opened,
    in_t: Type,
    items: Vec<Item>,
    f: Ghost<data::FnView>,
    got: Ghost<Gathered>,
) -> (l: Literal)
    requires
        data.definitions.len() <= u32::MAX,
        old(stores).types.len() <= u16::MAX,
        old(vars).variables.len() + items.len() + 5 <= u16::MAX,
        old(vars)@ == b.opened(data.definitions@, f@),
        in_t@ == got@.in_t,
        literals::item_views(items@) == got@.items,
        opened.vec == with_literal(data.definitions@, f@, b.tp@, b.val@, b.parent@).1,
        opened.elm == old(vars)@.vars.len() - 1,
        opened.is_var == (b.val@.head is Var),
        opened.is_field == places::is_field_read(data.definitions@, b.val@),
        opened.block == (!opened.is_field && !opened.is_var),
    ensures
        final(stores).types.len() <= u16::MAX,
        closed_as(
            b,
            data.definitions@,
            f@,
            got@,
            l,
            *old(stores),
            *final(stores),
            final(vars)@,
        ),
{
    let ghost whole = b;
    let untyped: bool = match in_t {
        Type::Null => true,
        _ => false,
    };
    if untyped {
        return Literal::Untyped;
    }
    let open: bool = has_unresolved(&in_t);
    let site = LiteralSite {
        val: b.val,
        parent: b.parent,
        owner: b.owner,
        elm: opened.elm,
        vec: opened.vec,
        in_t,
        record: b.record,
        first_pass: b.first_pass,
        is_var: opened.is_var,
        is_field: opened.is_field,
        unresolved: open,
        assignment: b.assignment,
        holder: b.holder,
    };
    assert(whole.sited(data.definitions@, f@, got@.in_t, site));
    match parse_vector(
        data,
        stores,
        vars,
        site,
        b.origin,
        items,
        &b.linked,
        b.elem_tp,
        opened.block,
    ) {
        Ok(done) => Literal::Built(done),
        Err(kind) => Literal::Keyed(kind),
    }
}

/// Read a bracketed literal of parts that are parsed: open it, take its elements
/// together, and build it.  What became of each element is answered as well.
pub fn bracketed(
    data: &Data,
    stores: &mut Stores,
    vars: &mut Function,
    b: Bracket,
    parts: Vec<Part>,
) -> (r: (Literal, Vec<Note>))
    requires
        data.definitions.len() <= u32::MAX,
        old(stores).types.len() <= u16::MAX,
        old(vars).variables.len() + parts.len() + 7 <= u16::MAX,
    ensures
        final(stores).types.len() <= u16::MAX,
        ({
            let defs = data.definitions@;
            let empty = empty_code(defs, b.tp@, b.val@);
            if parts.len() == 0 && empty is Some {
                &&& r.0 matches Literal::Empty(v, t) && empty == Some((v@, t@))
                &&& r.1.len() == 0
                &&& *final(stores) == *old(stores)
                &&& *final(vars) == *old(vars)
            } else {
                match b.gathered(defs, part_views(parts@)) {
                    None => {
                        &&& r.0 is BadRepeat
                        &&& r.1.len() == 0
                        &&& *final(stores) == *old(stores)
                        &&& final(vars)@ == b.opened(defs, old(vars)@)
                    },
                    Some(got) => {
                        &&& r.1@ == got.notes
                        &&& closed_as(
                            b,
                            defs,
                            old(vars)@,
                            got,
                            r.0,
                            *old(stores),
                            *final(stores),
                            final(vars)@,
                        )
                    },
                }
            }
        }),
{
    let ghost f = vars@;
    let none: Vec<Note> = Vec::new();
    if parts.len() == 0 {
        match empty_literal(data, &b.tp, &b.val) {
            Some((v, t)) => {
                return (Literal::Empty(v, t), none);
            },
            None => {},
        }
    }
    let opened: Opened = open_literal(
        data,
        vars,
        &b.tp,
        &b.val,
        &b.parent,
        b.content,
        b.present,
    );
    let (assigned, declared): (Type, bool) = assign_type(data, &b.tp);
    let g: Gathering = match gather(data, assigned, parts, declared, &b.holding, b.first_pass) {
        Some(g) => g,
        None => {
            return (Literal::BadRepeat, none);
        },
    };
    let ghost got = g.whole();
    let notes: Vec<Note> = g.notes;
    let l: Literal = close_bracket(
        data,
        stores,
        vars,
        b,
        opened,
        g.in_t,
        g.items,
        Ghost(f),
        Ghost(got),
    );
    (l, notes)
}

/// Whether the elements of a collection can be made into records.
#[derive(Clone, Copy, Debug, PartialEq, Eq, Structural)]
pub enum Shape {
    Known,
    /// Their type is declared further on: the second pass makes them.
    Open,
    /// Their type never resolves, which ends the parse.
    Never,
}

/// Whether elements of type `t` with definition `record` can be made into records.
pub open spec fn shape_of(t: types::Ty, record: u32, first_pass: bool) -> Shape {
    if record != u32::MAX {
        Shape::Known
    } else if first_pass && unresolved(t) {
        Shape::Open
    } else {
        Shape::Never
    }
}

/// The field that a literal belongs to, by the read of it.
pub open spec fn owner_named(stores: Stores, val: ir::Node, parent: u16) -> Option<
    (ir::Node, u16, u16),
> {
    match literals::field_named(stores, val, parent) {
        Some((record, tp, nr)) => if nr <= u16::MAX {
            Some((record, tp, nr as u16))
        } else {
            None
        },
        None => None,
    }
}

/// The statements that add elements to the collection at `val`, which is part of
/// something of type `parent` that is stored as `known`; and whether the elements can be
/// made at all.
pub fn add_records(
    data: &Data,
    stores: &mut Stores,
    vars: &mut Function,
    val: &Value,
    parent: &Type,
    known: u16,
    elm: u16,
    vec: u16,
    items: &Vec<Item>,
    in_t: &Type,
    record: u32,
    first_pass: bool,
) -> (r: (Vec<Value>, Shape))
    requires
        data.definitions.len() <= u32::MAX,
        old(stores).types.len() <= u16::MAX,
        old(vars).variables.len() + items.len() < u16::MAX,
    ensures
        final(stores).types.len() <= u16::MAX,
        r.1 == shape_of(in_t@, record, first_pass),
        (final(stores)@, final(vars)@, ir::views(r.0@)) == literals::built(
            data.definitions@,
            old(stores)@,
            old(vars)@,
            (literals::Literal {
                val: val@,
                parent: parent@,
                owner: owner_named(*old(stores), val@, known),
                elm,
                vec,
                items: literals::item_views(items@),
                in_t: in_t@,
                record,
                first_pass,
            }),
            *final(stores),
        ),
{
    let owner: Option<FieldOwner> = match literals::new_record_field_op(stores, val, known) {
        Some((record, tp, nr)) => if nr <= 0xffff {
            Some(FieldOwner { record, parent: tp, field: nr as u16 })
        } else {
            None
        },
        None => None,
    };
    assert(literals::owner_view(owner) == owner_named(*stores, val@, known));
    let shape: Shape = if record != u32::MAX {
        Shape::Known
    } else if first_pass && has_unresolved(in_t) {
        Shape::Open
    } else {
        Shape::Never
    };
    let steps: Vec<Value> = literals::new_record(
        data,
        stores,
        vars,
        val,
        parent,
        &owner,
        elm,
        vec,
        items,
        in_t,
        record,
        first_pass,
    );
    (steps, shape)
}

} // verus!
