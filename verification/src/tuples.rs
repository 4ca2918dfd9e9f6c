//! Tuples: the copies that make their members their own.

use crate::cells;
use crate::data::{self, Data, Definition, Function};
use crate::elements;
use crate::ir::{self, Value};
use crate::schema::{self, Stores};
use crate::text;
use crate::types::{self, Deps, Type};
use crate::vector_store;
use vstd::prelude::*;

verus! {

/// The code with what is under its source positions replaced.
pub open spec fn respanned(n: ir::Node, inner: ir::Node) -> ir::Node
    decreases n,
{
    if n.head is Span && n.kids.len() > 0 {
        ir::Node { head: n.head, kids: n.kids.update(0, respanned(n.kids[0], inner)) }
    } else {
        inner
    }
}

fn respan(v: &Value, inner: Value) -> (out: Value)
    ensures
        out@ == respanned(v@, inner@),
    decreases v,
{
    match v {
        Value::Span(at, below) => {
            assert(v@.kids[0] == below@);
            let kid: Value = respan(below, inner);
            let ghost k = kid@;
            let out: Value = Value::Span(*at, Box::new(kid));
            assert(out@.kids =~= v@.kids.update(0, k));
            out
        },
        _ => inner,
    }
}

/// The variable or the part of a tuple that a member names, where it is one of the
/// frame that may be copied: a parameter is not.
pub open spec fn member_source(f: data::FnView, n: ir::Node) -> Option<ir::Node> {
    match ir::unspan(n).head {
        ir::Head::Var(v) => if v < f.vars.len() && !f.vars[v as int].argument {
            Some(ir::var(v))
        } else {
            None
        },
        ir::Head::TupleGet(v, i) => if v < f.vars.len() {
            Some(ir::leaf(ir::Head::TupleGet(v, i)))
        } else {
            None
        },
        _ => None,
    }
}

fn find_source(vars: &Function, v: &Value) -> (r: Option<Value>)
    ensures
        match r {
            Some(x) => member_source(vars@, v@) == Some(x@),
            None => member_source(vars@, v@) is None,
        },
{
    match v.unspan() {
        Value::Var(x) => {
            if (*x as usize) < vars.variables.len() && !vars.variables[*x as usize].argument {
                assert(vars@.vars[*x as int] == vars.variables@[*x as int]@);
                Some(Value::Var(*x))
            } else {
                assert(*x < vars.variables.len() ==> vars@.vars[*x as int]
                    == vars.variables@[*x as int]@);
                None
            }
        },
        Value::TupleGet(x, i) => {
            if (*x as usize) < vars.variables.len() {
                Some(Value::TupleGet(*x, *i))
            } else {
                None
            }
        },
        _ => None,
    }
}

/// The copy of a keyed collection into `o`.
pub open spec fn keyed_copy(
    defs: Seq<Definition>,
    src: ir::Node,
    o: u16,
    kt: u16,
    t: types::Ty,
) -> ir::Node {
    ir::block(
        "tuple_member_copy"@,
        seq![
            ir::assign(o, ir::leaf(ir::Head::Null)),
            ir::call(
                vector_store::op(defs, "OpDatabase"@),
                seq![ir::var(o), ir::int_value(kt as i32)],
            ),
            ir::call(
                vector_store::op(defs, "OpReplaceKeyed"@),
                seq![src, ir::var(o), ir::int_value(kt as i32)],
            ),
            ir::var(o),
        ],
        t,
    )
}

/// The copy of a record into `o`; one that may be absent is copied only where it is
/// there.
pub open spec fn record_copy(
    defs: Seq<Definition>,
    src: ir::Node,
    o: u16,
    kt: u16,
    optional: bool,
    t: types::Ty,
) -> ir::Node {
    let fill = ir::block(
        "tuple_member_copy_fill"@,
        seq![
            ir::call(
                vector_store::op(defs, "OpDatabase"@),
                seq![ir::var(o), ir::int_value(kt as i32)],
            ),
            ir::call(
                vector_store::op(defs, "OpCopyRecord"@),
                seq![src, ir::var(o), ir::int_value(kt as i32)],
            ),
        ],
        types::Ty::Void,
    );
    let guarded = if optional {
        ir::choice(
            ir::call(vector_store::op(defs, "OpRefIsNull"@), seq![src]),
            ir::leaf(ir::Head::Null),
            fill,
        )
    } else {
        fill
    };
    ir::block(
        "tuple_member_copy"@,
        seq![ir::assign(o, ir::leaf(ir::Head::Null)), guarded, ir::var(o)],
        t,
    )
}

/// The copy of a vector into `o`, which `made` gives a record.
pub open spec fn vector_copy(
    defs: Seq<Definition>,
    src: ir::Node,
    o: u16,
    made: Seq<ir::Node>,
    elem_tp: u16,
    t: types::Ty,
) -> ir::Node {
    ir::block(
        "tuple_member_copy"@,
        made + seq![
            ir::call(vector_store::op(defs, "OpClearVector"@), seq![ir::var(o)]),
            ir::call(
                vector_store::op(defs, "OpAppendVector"@),
                seq![ir::var(o), src, ir::int_value(elem_tp as i32)],
            ),
            ir::var(o),
        ],
        t,
    )
}

fn make_keyed_copy(data: &Data, src: Value, o: u16, kt: u16, t: &Type) -> (v: Value)
    requires
        data.definitions.len() <= u32::MAX,
    ensures
        v@ == keyed_copy(data.definitions@, src@, o, kt, t@),
{
    let mint: Value = vector_store::cl(
        data,
        "OpDatabase",
        ir::list2(Value::Var(o), Value::Int(kt as i32)),
    );
    let copy: Value = vector_store::cl(
        data,
        "OpReplaceKeyed",
        ir::list3(src, Value::Var(o), Value::Int(kt as i32)),
    );
    ir::make_block(
        "tuple_member_copy",
        ir::list4(ir::make_assign(o, Value::Null), mint, copy, Value::Var(o)),
        t.copy(),
    )
}

fn make_record_copy(data: &Data, src: Value, o: u16, kt: u16, optional: bool, t: &Type) -> (v:
    Value)
    requires
        data.definitions.len() <= u32::MAX,
    ensures
        v@ == record_copy(data.definitions@, src@, o, kt, optional, t@),
{
    let mint: Value = vector_store::cl(
        data,
        "OpDatabase",
        ir::list2(Value::Var(o), Value::Int(kt as i32)),
    );
    let copy: Value = vector_store::cl(
        data,
        "OpCopyRecord",
        ir::list3(src.copy(), Value::Var(o), Value::Int(kt as i32)),
    );
    let fill: Value = ir::make_block("tuple_member_copy_fill", ir::list2(mint, copy), Type::Void);
    let guarded: Value = if optional {
        let test: Value = vector_store::cl(data, "OpRefIsNull", ir::list1(src));
        ir::make_choice(test, Value::Null, fill)
    } else {
        fill
    };
    ir::make_block(
        "tuple_member_copy",
        ir::list3(ir::make_assign(o, Value::Null), guarded, Value::Var(o)),
        t.copy(),
    )
}

fn make_vector_copy(
    data: &Data,
    src: Value,
    o: u16,
    made: Vec<Value>,
    elem_tp: u16,
    t: &Type,
) -> (v: Value)
    requires
        data.definitions.len() <= u32::MAX,
    ensures
        v@ == vector_copy(data.definitions@, src@, o, ir::views(made@), elem_tp, t@),
{
    let clear: Value = vector_store::cl(data, "OpClearVector", ir::list1(Value::Var(o)));
    let copy: Value = vector_store::cl(
        data,
        "OpAppendVector",
        ir::list3(Value::Var(o), src, Value::Int(elem_tp as i32)),
    );
    let mut steps: Vec<Value> = made;
    ir::put_all(&mut steps, ir::list3(clear, copy, Value::Var(o)));
    ir::make_block("tuple_member_copy", steps, t.copy())
}

/// What the copies are made with: the stored types and the variables so far, and
/// whether a number for a variable was missing.
pub struct Made {
    pub types: Seq<schema::TypeView>,
    pub vars: data::FnView,
}

/// Whether a tuple holds anything but scalars.
pub open spec fn holds_heap(ts: Seq<types::Ty>) -> bool {
    exists|i: int| 0 <= i < ts.len() && !types::scalar(types::base(#[trigger] ts[i]))
}

fn any_heap(ts: &Vec<Type>) -> (r: bool)
    ensures
        r == holds_heap(types::type_views(ts@)),
{
    let mut i: usize = 0;
    while i < ts.len()
        invariant
            i <= ts.len(),
            forall|j: int|
                0 <= j < i ==> types::scalar(types::base(#[trigger] types::type_views(ts@)[j])),
        decreases ts.len() - i,
    {
        assert(types::type_views(ts@)[i as int] == ts@[i as int]@);
        if !ts[i].base().is_scalar() {
            assert(!types::scalar(types::base(types::type_views(ts@)[i as int])));
            return true;
        }
        i = i + 1;
    }
    false
}

/// The variable that a member is read from.
pub open spec fn source_var(n: ir::Node) -> u16 {
    match n.head {
        ir::Head::Var(v) => v,
        ir::Head::TupleGet(v, _) => v,
        _ => u16::MAX,
    }
}

fn base_var(v: &Value) -> (x: u16)
    ensures
        x == source_var(v@),
{
    match v {
        Value::Var(x) => *x,
        Value::TupleGet(x, _) => *x,
        _ => u16::MAX,
    }
}

/// The most variables that the copies of a value of a type need.
pub open spec fn needed(t: types::Ty) -> nat
    decreases t, 0int,
{
    match t {
        types::Ty::Tuple(ts) => 1 + needed_by(ts, ts.len() as int),
        _ => 2,
    }
}

/// The most variables that the copies of the first `k` members need.
pub open spec fn needed_by(ts: Seq<types::Ty>, k: int) -> nat
    decreases ts, k,
{
    if k <= 0 || k > ts.len() {
        0
    } else {
        needed_by(ts, k - 1) + needed(ts[k - 1])
    }
}

/// A member as a copy of its own, with its type; none for one that needs no copy.
/// A tuple inside is held once, as a view of where it is read from, and each of its
/// members is copied from there.
pub open spec fn owned(
    defs: Seq<Definition>,
    stores: Stores,
    m: Made,
    n: ir::Node,
    t: types::Ty,
) -> (Made, Option<(ir::Node, types::Ty)>)
    decreases t, 0int,
{
    match member_source(m.vars, n) {
        None => (m, None),
        Some(src) => {
            let own = types::with_deps_of(t, types::no_deps());
            let o = m.vars.vars.len() as u16;
            if types::keyed(t) {
                match elements::keyed_stored(m.types, defs, own) {
                    (more, Some(kt)) => {
                        let tp = types::depending_on(own, o);
                        (
                            Made { types: more, vars: data::minted(m.vars, own) },
                            Some((respanned(n, keyed_copy(defs, src, o, kt, tp)), tp)),
                        )
                    },
                    (more, None) => (Made { types: more, vars: m.vars }, None),
                }
            } else {
                match types::heap_def(t) {
                    Some(d) => {
                        let kt = elements::known_of(defs, d);
                        if kt == u16::MAX {
                            (m, None)
                        } else {
                            let tp = types::depending_on(own, o);
                            (
                                Made { types: m.types, vars: data::minted(m.vars, own) },
                                Some(
                                    (
                                        respanned(
                                            n,
                                            record_copy(
                                                defs,
                                                src,
                                                o,
                                                kt,
                                                types::is_optional(t),
                                                tp,
                                            ),
                                        ),
                                        tp,
                                    ),
                                ),
                            )
                        }
                    },
                    None => match t {
                        types::Ty::Tuple(ts) => if holds_heap(ts) {
                            let held = data::created(
                                m.vars,
                                "_tuphold_"@,
                                types::depending_on(t, source_var(src)),
                            );
                            let held = data::with_var(
                                held,
                                o,
                                data::VarView { defined: true, ..held.vars[o as int] },
                            );
                            let (made, values, tys) = owned_members(
                                defs,
                                stores,
                                Made { types: m.types, vars: held },
                                o,
                                ts,
                                ts.len() as int,
                            );
                            let tp = types::Ty::Tuple(tys);
                            (
                                made,
                                Some(
                                    (
                                        respanned(
                                            n,
                                            ir::block(
                                                "tuple_member_copy"@,
                                                seq![
                                                    ir::assign(o, src),
                                                    ir::Node {
                                                        head: ir::Head::Tuple,
                                                        kids: values,
                                                    },
                                                ],
                                                tp,
                                            ),
                                        ),
                                        tp,
                                    ),
                                ),
                            )
                        } else {
                            (m, None)
                        },
                        types::Ty::Vector(elem, _) => {
                            let copy = data::created(m.vars, "_tupcopy_"@, own);
                            let copy = data::with_var(
                                copy,
                                o,
                                data::VarView { defined: true, ..copy.vars[o as int] },
                            );
                            let h = vector_store::holder_from(defs, stores, t, 0);
                            let steps = vector_store::record_steps(defs, copy, o, h, 0, false);
                            let (more, elem_tp) = elements::element_stored(m.types, defs, *elem);
                            let tp = types::Ty::Vector(elem, types::frame1(o));
                            (
                                Made {
                                    types: more,
                                    vars: vector_store::with_record(copy, o, h, false).0,
                                },
                                Some(
                                    (
                                        respanned(
                                            n,
                                            vector_copy(defs, src, o, steps, elem_tp, tp),
                                        ),
                                        tp,
                                    ),
                                ),
                            )
                        },
                        _ => (m, None),
                    },
                }
            }
        },
    }
}

/// The first `k` members of tuple `h` as copies of their own, with their types.
pub open spec fn owned_members(
    defs: Seq<Definition>,
    stores: Stores,
    m: Made,
    h: u16,
    ts: Seq<types::Ty>,
    k: int,
) -> (Made, Seq<ir::Node>, Seq<types::Ty>)
    decreases ts, k,
{
    if k <= 0 || k > ts.len() {
        (m, Seq::empty(), Seq::empty())
    } else {
        let (before, values, tys) = owned_members(defs, stores, m, h, ts, k - 1);
        let member = ir::leaf(ir::Head::TupleGet(h, (k - 1) as u16));
        let (after, copy) = owned(defs, stores, before, member, ts[k - 1]);
        match copy {
            Some((v, t)) => (after, values.push(v), tys.push(t)),
            None => (after, values.push(member), tys.push(ts[k - 1])),
        }
    }
}

/// Whether every definition that is stored has its stored type in the schema.
pub open spec fn laid_out(defs: Seq<Definition>, stores: Stores) -> bool {
    forall|d: int|
        0 <= d < defs.len() ==> (#[trigger] defs[d]).known_type == u16::MAX || defs[d].known_type
            < stores.types.len()
}

/// More stored types do not change where vectors live.
pub proof fn holder_stays(defs: Seq<Definition>, a: Stores, b: Stores, t: types::Ty, from: int)
    requires
        laid_out(defs, a),
        schema::extends(a, b),
        b.types.len() <= u16::MAX,
    ensures
        vector_store::holder_from(defs, a, t, from) == vector_store::holder_from(
            defs,
            b,
            t,
            from,
        ),
    decreases defs.len() - from,
{
    if 0 <= from < defs.len() {
        let known = defs[from].known_type;
        assert(known == u16::MAX || known < a.types.len());
        if known < a.types.len() {
            assert(b.types@[known as int] == a.types@[known as int]);
        }
        holder_stays(defs, a, b, t, from + 1);
    }
}

/// Extending stored types twice extends them.
pub proof fn extending_twice(a: Stores, b: Stores, c: Stores)
    requires
        schema::extends(a, b),
        schema::extends(b, c),
    ensures
        schema::extends(a, c),
{
    assert forall|i: int| 0 <= i < a.types.len() implies #[trigger] c.types@[i] == a.types@[i] by {
        assert(b.types@[i] == a.types@[i]);
    }
}

struct Copier<'a> {
    data: &'a Data,
    layout: Ghost<Stores>,
}

impl<'a> Copier<'a> {
    spec fn sound(&self, stores: Stores) -> bool {
        &&& self.data.definitions.len() <= u32::MAX
        &&& laid_out(self.data.definitions@, self.layout@)
        &&& schema::extends(self.layout@, stores)
        &&& stores.types.len() <= u16::MAX
    }

    fn copy_keyed(
        &self,
        stores: &mut Stores,
        vars: &mut Function,
        val: &Value,
        src: Value,
        tp: &Type,
    ) -> (r: Option<(Value, Type)>)
        requires
            self.sound(*old(stores)),
            old(vars).variables.len() < u16::MAX,
            member_source(old(vars)@, val@) == Some(src@),
            types::keyed(tp@),
        ensures
            self.sound(*final(stores)),
            final(vars).variables.len() <= old(vars).variables.len() + 1,
            ({
                let (m, out) = owned(
                    self.data.definitions@,
                    self.layout@,
                    Made { types: old(stores)@, vars: old(vars)@ },
                    val@,
                    tp@,
                );
                &&& m == (Made { types: final(stores)@, vars: final(vars)@ })
                &&& match r {
                    Some((v, t)) => out == Some((v@, t@)),
                    None => out is None,
                }
            }),
    {
        let own: Type = tp.with_deps(&Deps::none());
        let ghost before = *stores;
        let found: Option<u16> = elements::keyed_known_type(stores, self.data, &own);
        proof {
            extending_twice(self.layout@, before, *stores);
        }
        match found {
            Some(kt) => {
                let o: u16 = vars.mint(own.copy());
                let t: Type = own.depending(o);
                let copy: Value = make_keyed_copy(self.data, src, o, kt, &t);
                Some((respan(val, copy), t))
            },
            None => None,
        }
    }

    fn copy_vector(
        &self,
        stores: &mut Stores,
        vars: &mut Function,
        val: &Value,
        src: Value,
        elem: &Type,
        tp: &Type,
    ) -> (r: (Value, Type))
        requires
            self.sound(*old(stores)),
            old(vars).variables.len() + 2 <= u16::MAX,
            tp@ matches types::Ty::Vector(e, _) && *e == elem@,
            member_source(old(vars)@, val@) == Some(src@),
        ensures
            self.sound(*final(stores)),
            final(vars).variables.len() <= old(vars).variables.len() + 2,
            ({
                let (m, out) = owned(
                    self.data.definitions@,
                    self.layout@,
                    Made { types: old(stores)@, vars: old(vars)@ },
                    val@,
                    tp@,
                );
                &&& m == (Made { types: final(stores)@, vars: final(vars)@ })
                &&& out == Some((r.0@, r.1@))
            }),
    {
        let own: Type = tp.with_deps(&Deps::none());
        let o: u16 = vars.create("_tupcopy_", own);
        vars.mark_defined(o);
        assert(vars@.vars[o as int].tp is Vector);
        let h: vector_store::Holder = vector_store::find_holder(self.data, stores, tp);
        proof {
            holder_stays(self.data.definitions@, self.layout@, *stores, tp@, 0);
        }
        let made: Vec<Value> = vector_store::vector_db(self.data, vars, h, o, false);
        let ghost before = *stores;
        let elem_tp: u16 = elements::vector_element_type(stores, self.data, elem);
        proof {
            extending_twice(self.layout@, before, *stores);
        }
        let t: Type = Type::Vector(Box::new(elem.copy()), Deps::frame1(o));
        let copy: Value = make_vector_copy(self.data, src, o, made, elem_tp, &t);
        (respan(val, copy), t)
    }

    fn copy_record(
        &self,
        vars: &mut Function,
        val: &Value,
        src: Value,
        d: u32,
        tp: &Type,
    ) -> (r: Option<(Value, Type)>)
        requires
            self.data.definitions.len() <= u32::MAX,
            old(vars).variables.len() < u16::MAX,
        ensures
            final(vars).variables.len() <= old(vars).variables.len() + 1,
            ({
                let defs = self.data.definitions@;
                let kt = elements::known_of(defs, d);
                let own = types::with_deps_of(tp@, types::no_deps());
                let o = old(vars)@.vars.len() as u16;
                let t = types::depending_on(own, o);
                if kt == u16::MAX {
                    r is None && *final(vars) == *old(vars)
                } else {
                    &&& final(vars)@ == data::minted(old(vars)@, own)
                    &&& match r {
                        Some((v, u)) => u@ == t && v@ == respanned(
                            val@,
                            record_copy(defs, src@, o, kt, types::is_optional(tp@), t),
                        ),
                        None => false,
                    }
                }
            }),
    {
        let kt: u16 = elements::known_type(self.data, d);
        if kt == u16::MAX {
            return None;
        }
        let own: Type = tp.with_deps(&Deps::none());
        let o: u16 = vars.mint(own.copy());
        let t: Type = own.depending(o);
        let copy: Value = make_record_copy(self.data, src, o, kt, tp.is_optional(), &t);
        Some((respan(val, copy), t))
    }

    fn copy_member(
        &self,
        stores: &mut Stores,
        vars: &mut Function,
        val: &Value,
        tp: &Type,
    ) -> (r: Option<(Value, Type)>)
        requires
            self.sound(*old(stores)),
            old(vars).variables.len() + needed(tp@) <= u16::MAX,
        ensures
            self.sound(*final(stores)),
            final(vars).variables.len() <= old(vars).variables.len() + needed(tp@),
            ({
                let (m, out) = owned(
                    self.data.definitions@,
                    self.layout@,
                    Made { types: old(stores)@, vars: old(vars)@ },
                    val@,
                    tp@,
                );
                &&& m == (Made { types: final(stores)@, vars: final(vars)@ })
                &&& match r {
                    Some((v, t)) => out == Some((v@, t@)),
                    None => out is None,
                }
            }),
        decreases tp, 1int,
    {
        proof {
            reveal_with_fuel(types::type_views, 2);
            reveal_with_fuel(Type::view, 2);
        }
        let src: Value = match find_source(vars, val) {
            Some(src) => src,
            None => {
                return None;
            },
        };
        if types::is_keyed(tp) {
            assert(needed(tp@) >= 1);
            return self.copy_keyed(stores, vars, val, src, tp);
        }
        match tp.heap_def_nr() {
            Some(d) => {
                assert(!(tp@ is Tuple));
                return self.copy_record(vars, val, src, d, tp);
            },
            None => {},
        }
        match tp {
            Type::Tuple(ts) => {
                if !any_heap(ts) {
                    return None;
                }
                proof {
                    needed_by_each(types::type_views(ts@), ts.len() as int);
                }
                self.copy_tuple(stores, vars, val, src, ts, tp)
            },
            Type::Vector(elem, _) => Some(self.copy_vector(stores, vars, val, src, elem, tp)),
            _ => None,
        }
    }

    fn copy_tuple(
        &self,
        stores: &mut Stores,
        vars: &mut Function,
        val: &Value,
        src: Value,
        ts: &Vec<Type>,
        tp: &Type,
    ) -> (r: Option<(Value, Type)>)
        requires
            self.sound(*old(stores)),
            tp@ == types::Ty::Tuple(types::type_views(ts@)),
            old(vars).variables.len() + needed(tp@) <= u16::MAX,
            holds_heap(types::type_views(ts@)),
            member_source(old(vars)@, val@) == Some(src@),
            ts.len() <= u16::MAX,
        ensures
            self.sound(*final(stores)),
            final(vars).variables.len() <= old(vars).variables.len() + needed(tp@),
            ({
                let (m, out) = owned(
                    self.data.definitions@,
                    self.layout@,
                    Made { types: old(stores)@, vars: old(vars)@ },
                    val@,
                    tp@,
                );
                &&& m == (Made { types: final(stores)@, vars: final(vars)@ })
                &&& match r {
                    Some((v, t)) => out == Some((v@, t@)),
                    None => out is None,
                }
            }),
        decreases ts, 0int,
    {
        let ghost all = types::type_views(ts@);
        let n: usize = vars.variables.len();
        let h: u16 = vars.create("_tuphold_", tp.depending(base_var(&src)));
        vars.mark_defined(h);
        let ghost first = Made { types: stores@, vars: vars@ };
        let mut values: Vec<Value> = Vec::new();
        let mut tys: Vec<Type> = Vec::new();
        let mut i: usize = 0;
        assert(ir::views(values@) =~= Seq::<ir::Node>::empty());
        assert(types::type_views(tys@) =~= Seq::<types::Ty>::empty());
        while i < ts.len()
            invariant
                i <= ts.len() <= u16::MAX,
                all == types::type_views(ts@),
                self.sound(*stores),
                n + 1 + needed_by(all, ts.len() as int) <= u16::MAX,
                vars.variables.len() <= n + 1 + needed_by(all, i as int),
                (Made { types: stores@, vars: vars@ }, ir::views(values@), types::type_views(tys@))
                    == owned_members(
                    self.data.definitions@,
                    self.layout@,
                    first,
                    h,
                    all,
                    i as int,
                ),
            decreases ts.len() - i,
        {
            assert(decreases_to!(*ts => ts[i as int]));
            assert(all[i as int] == ts@[i as int]@);
            proof {
                needed_grows(all, i + 1, ts.len() as int);
            }
            let member: Value = Value::TupleGet(h, i as u16);
            let ghost before = types::type_views(tys@);
            match self.copy_member(stores, vars, &member, &ts[i]) {
                Some((v, t)) => {
                    let ghost ty = t@;
                    ir::put(&mut values, v);
                    tys.push(t);
                    assert(types::type_views(tys@) =~= before.push(ty));
                },
                None => {
                    ir::put(&mut values, member);
                    tys.push(ts[i].copy());
                    assert(types::type_views(tys@) =~= before.push(all[i as int]));
                },
            }
            i = i + 1;
        }
        let t: Type = Type::Tuple(tys);
        assert(t@ == types::Ty::Tuple(types::type_views(tys@)));
        let parts: Value = Value::Tuple(values);
        proof {
            ir::shape(parts);
        }
        let code: Value = ir::make_block(
            "tuple_member_copy",
            ir::list2(ir::make_assign(h, src), parts),
            t.copy(),
        );
        Some((respan(val, code), t))
    }
}

proof fn needed_by_each(ts: Seq<types::Ty>, k: int)
    requires
        0 <= k <= ts.len(),
    ensures
        needed_by(ts, k) >= k,
    decreases k,
{
    if k > 0 {
        needed_by_each(ts, k - 1);
        assert(needed(ts[k - 1]) >= 1);
    }
}

proof fn needed_grows(ts: Seq<types::Ty>, j: int, k: int)
    requires
        0 <= j <= k <= ts.len(),
    ensures
        needed_by(ts, j) <= needed_by(ts, k),
    decreases k - j,
{
    if j < k {
        needed_grows(ts, j, k - 1);
    }
}

/// A member of a tuple as a copy of its own, with its type; `None` for one that
/// needs no copy.  In the first pass nothing is copied.
pub fn tuple_member_owned_copy(
    data: &Data,
    stores: &mut Stores,
    vars: &mut Function,
    val: &Value,
    tp: &Type,
    first_pass: bool,
) -> (r: Option<(Value, Type)>)
    requires
        data.definitions.len() <= u32::MAX,
        old(stores).types.len() <= u16::MAX,
        laid_out(data.definitions@, *old(stores)),
        old(vars).variables.len() + needed(tp@) <= u16::MAX,
    ensures
        first_pass ==> r is None && *final(stores) == *old(stores) && *final(vars) == *old(vars),
        !first_pass ==> {
            let (m, out) = owned(
                data.definitions@,
                *old(stores),
                Made { types: old(stores)@, vars: old(vars)@ },
                val@,
                tp@,
            );
            &&& m == (Made { types: final(stores)@, vars: final(vars)@ })
            &&& match r {
                Some((v, t)) => out == Some((v@, t@)),
                None => out is None,
            }
        },
        final(stores).types.len() <= u16::MAX,
        schema::extends(*old(stores), *final(stores)),
        final(vars).variables.len() <= old(vars).variables.len() + needed(tp@),
{
    if first_pass {
        return None;
    }
    let copier = Copier { data, layout: Ghost(*stores) };
    copier.copy_member(stores, vars, val, tp)
}

/// The types of a list without the marks that their values were built in place.
pub open spec fn unrewritten_all(ts: Seq<types::Ty>) -> Seq<types::Ty> {
    Seq::new(ts.len(), |i: int| types::unrewritten_of(ts[i]))
}

/// The first `k` members of a tuple that is built: each a copy of its own where it
/// needs one.
pub open spec fn built_members(
    defs: Seq<Definition>,
    stores: Stores,
    m: Made,
    values: Seq<ir::Node>,
    ts: Seq<types::Ty>,
    k: int,
) -> (Made, Seq<ir::Node>, Seq<types::Ty>)
    decreases k,
{
    if k <= 0 {
        (m, Seq::empty(), Seq::empty())
    } else {
        let (before, vs, us) = built_members(defs, stores, m, values, ts, k - 1);
        match owned(defs, stores, before, values[k - 1], ts[k - 1]) {
            (more, Some((v, t))) => (more, vs.push(v), us.push(t)),
            (more, None) => (more, vs.push(values[k - 1]), us.push(ts[k - 1])),
        }
    }
}

/// Build a tuple of values of given types.  What names storage of its own elsewhere is
/// copied, unless the tuple is a `target` that is assigned to, or in the first pass.
pub fn build_tuple(
    data: &Data,
    stores: &mut Stores,
    vars: &mut Function,
    values: &Vec<Value>,
    ts: &Vec<Type>,
    target: bool,
    first_pass: bool,
) -> (r: (Value, Type))
    requires
        data.definitions.len() <= u32::MAX,
        old(stores).types.len() <= u16::MAX,
        laid_out(data.definitions@, *old(stores)),
        values.len() == ts.len(),
        old(vars).variables.len() + needed_by(
            unrewritten_all(types::type_views(ts@)),
            ts.len() as int,
        ) <= u16::MAX,
    ensures
        target || first_pass ==> {
            &&& r.0@ == (ir::Node { head: ir::Head::Tuple, kids: ir::views(values@) })
            &&& r.1@ == types::Ty::Tuple(unrewritten_all(types::type_views(ts@)))
            &&& *final(stores) == *old(stores)
            &&& *final(vars) == *old(vars)
        },
        !target && !first_pass ==> {
            let (m, vs, us) = built_members(
                data.definitions@,
                *old(stores),
                Made { types: old(stores)@, vars: old(vars)@ },
                ir::views(values@),
                unrewritten_all(types::type_views(ts@)),
                ts.len() as int,
            );
            &&& r.0@ == (ir::Node { head: ir::Head::Tuple, kids: vs })
            &&& r.1@ == types::Ty::Tuple(us)
            &&& m == (Made { types: final(stores)@, vars: final(vars)@ })
        },
{
    let ghost all = unrewritten_all(types::type_views(ts@));
    let ghost nodes = ir::views(values@);
    let ghost first = Made { types: stores@, vars: vars@ };
    let ghost n = vars.variables.len();
    let copies: bool = !target && !first_pass;
    let copier = Copier { data, layout: Ghost(*stores) };
    let ghost layout = *stores;
    let ghost was = *vars;
    let mut vs: Vec<Value> = Vec::new();
    let mut us: Vec<Type> = Vec::new();
    let mut i: usize = 0;
    assert(ir::views(vs@) =~= Seq::<ir::Node>::empty());
    assert(types::type_views(us@) =~= Seq::<types::Ty>::empty());
    assert(nodes.take(0) =~= Seq::<ir::Node>::empty());
    assert(all.take(0) =~= Seq::<types::Ty>::empty());
    while i < ts.len()
        invariant
            i <= ts.len(),
            values.len() == ts.len(),
            all == unrewritten_all(types::type_views(ts@)),
            nodes == ir::views(values@),
            copier.sound(*stores),
            copier.data == data,
            copier.layout@ == layout,
            n + needed_by(all, ts.len() as int) <= u16::MAX,
            vars.variables.len() <= n + needed_by(all, i as int),
            copies ==> (
                Made { types: stores@, vars: vars@ },
                ir::views(vs@),
                types::type_views(us@),
            ) == built_members(data.definitions@, layout, first, nodes, all, i as int),
            !copies ==> *stores == layout && *vars == was && ir::views(vs@) == nodes.take(i as int)
                && types::type_views(us@) == all.take(i as int),
        decreases ts.len() - i,
    {
        let tp: Type = ts[i].unrewritten();
        assert(types::type_views(ts@)[i as int] == ts@[i as int]@);
        assert(all[i as int] == tp@);
        proof {
            ir::view_at(values@);
            needed_grows(all, i + 1, ts.len() as int);
        }
        let ghost before = types::type_views(us@);
        let copy: Option<(Value, Type)> = if copies {
            copier.copy_member(stores, vars, &values[i], &tp)
        } else {
            None
        };
        match copy {
            Some((v, t)) => {
                let ghost ty = t@;
                ir::put(&mut vs, v);
                us.push(t);
                assert(types::type_views(us@) =~= before.push(ty));
            },
            None => {
                ir::put(&mut vs, values[i].copy());
                us.push(tp);
                assert(types::type_views(us@) =~= before.push(all[i as int]));
            },
        }
        i = i + 1;
        assert(nodes.take(i as int) =~= nodes.take(i - 1).push(nodes[i - 1]));
        assert(all.take(i as int) =~= all.take(i - 1).push(all[i - 1]));
    }
    assert(nodes.take(ts.len() as int) =~= nodes);
    assert(all.take(ts.len() as int) =~= all);
    let t: Type = Type::Tuple(us);
    assert(t@ == types::Ty::Tuple(types::type_views(us@)));
    let v: Value = Value::Tuple(vs);
    proof {
        ir::shape(v);
    }
    (v, t)
}

/// The source of the first copy that a list of statements makes, read from the
/// last one back.
pub open spec fn copied_in(defs: Seq<Definition>, s: Seq<ir::Node>, k: int) -> Option<ir::Node>
    decreases s, k,
{
    if k <= 0 || k > s.len() {
        None
    } else {
        match copied_by(defs, s[k - 1]) {
            Some(v) => Some(v),
            None => copied_in(defs, s, k - 1),
        }
    }
}

/// The source of the copy that a statement makes.
pub open spec fn copied_by(defs: Seq<Definition>, n: ir::Node) -> Option<ir::Node>
    decreases n, 0int,
{
    if n.head is Span && n.kids.len() > 0 {
        copied_by(defs, n.kids[0])
    } else {
        match n.head {
            ir::Head::Call(d) => {
                let name = cells::name_of(defs, d);
                if name == "OpAppendVector"@ {
                    if n.kids.len() > 1 {
                        Some(n.kids[1])
                    } else {
                        None
                    }
                } else if name == "OpReplaceKeyed"@ || name == "OpCopyRecord"@ {
                    if n.kids.len() > 0 {
                        Some(n.kids[0])
                    } else {
                        None
                    }
                } else {
                    None
                }
            },
            ir::Head::Block(name, _) => if name == "tuple_member_copy_fill"@ {
                copied_in(defs, n.kids, n.kids.len() as int)
            } else {
                None
            },
            ir::Head::If => if n.kids.len() > 2 {
                match copied_by(defs, n.kids[1]) {
                    Some(v) => Some(v),
                    None => copied_by(defs, n.kids[2]),
                }
            } else {
                None
            },
            _ => None,
        }
    }
}

/// The source of a member's own copy.
pub open spec fn copy_source(defs: Seq<Definition>, n: ir::Node) -> Option<ir::Node> {
    let m = ir::unspan(n);
    match m.head {
        ir::Head::Block(name, _) => if name == "tuple_member_copy"@ {
            copied_in(defs, m.kids, m.kids.len() as int)
        } else {
            None
        },
        _ => None,
    }
}

fn find_copied<'a>(data: &Data, v: &'a Value) -> (r: Option<&'a Value>)
    ensures
        match r {
            Some(x) => copied_by(data.definitions@, v@) == Some(x@),
            None => copied_by(data.definitions@, v@) is None,
        },
    decreases v, 1int,
{
    proof {
        ir::shape(*v);
    }
    match v {
        Value::Span(_, inner) => {
            assert(v@.kids[0] == inner@);
            find_copied(data, inner)
        },
        Value::Call(d, args) => {
            proof {
                ir::view_at(args@);
            }
            let name: &str = cells::def_name(data, *d);
            if text::same(name, "OpAppendVector") {
                if args.len() > 1 {
                    Some(&args[1])
                } else {
                    None
                }
            } else if text::same(name, "OpReplaceKeyed") || text::same(name, "OpCopyRecord") {
                if args.len() > 0 {
                    Some(&args[0])
                } else {
                    None
                }
            } else {
                None
            }
        },
        Value::Block(bl) => {
            if text::same(bl.name.as_str(), "tuple_member_copy_fill") {
                find_copied_in(data, &bl.operators)
            } else {
                None
            }
        },
        Value::If(_, yes, no) => {
            assert(v@.kids[1] == yes@ && v@.kids[2] == no@);
            match find_copied(data, yes) {
                Some(x) => Some(x),
                None => find_copied(data, no),
            }
        },
        _ => None,
    }
}

fn find_copied_in<'a>(data: &Data, s: &'a Vec<Value>) -> (r: Option<&'a Value>)
    ensures
        match r {
            Some(x) => copied_in(data.definitions@, ir::views(s@), s.len() as int) == Some(x@),
            None => copied_in(data.definitions@, ir::views(s@), s.len() as int) is None,
        },
    decreases s, 0int,
{
    proof {
        ir::view_at(s@);
    }
    let mut k: usize = s.len();
    while k > 0
        invariant
            k <= s.len(),
            ir::views(s@).len() == s.len(),
            copied_in(data.definitions@, ir::views(s@), s.len() as int) == copied_in(
                data.definitions@,
                ir::views(s@),
                k as int,
            ),
        decreases k,
    {
        assert(decreases_to!(*s => s[k - 1]));
        match find_copied(data, &s[k - 1]) {
            Some(x) => {
                return Some(x);
            },
            None => {},
        }
        k = k - 1;
    }
    None
}

/// The source of a member's own copy; `None` for code that is no such copy.
pub fn tuple_member_copy_source(data: &Data, val: &Value) -> (r: Option<Value>)
    ensures
        match r {
            Some(x) => copy_source(data.definitions@, val@) == Some(x@),
            None => copy_source(data.definitions@, val@) is None,
        },
{
    let m: &Value = val.unspan();
    proof {
        ir::shape(*m);
    }
    match m {
        Value::Block(bl) => {
            if text::same(bl.name.as_str(), "tuple_member_copy") {
                match find_copied_in(data, &bl.operators) {
                    Some(x) => Some(x.copy()),
                    None => None,
                }
            } else {
                None
            }
        },
        _ => None,
    }
}

/// Whether the operators that copies are made with are defined.
pub open spec fn copies_defined(defs: Seq<Definition>) -> bool {
    &&& defs.len() <= u32::MAX
    &&& vector_store::op(defs, "OpAppendVector"@) != u32::MAX
    &&& vector_store::op(defs, "OpReplaceKeyed"@) != u32::MAX
    &&& vector_store::op(defs, "OpCopyRecord"@) != u32::MAX
}

proof fn copiers_are_told_apart(defs: Seq<Definition>)
    requires
        copies_defined(defs),
    ensures
        cells::name_of(defs, vector_store::op(defs, "OpAppendVector"@)) == "OpAppendVector"@,
        cells::name_of(defs, vector_store::op(defs, "OpReplaceKeyed"@)) == "OpReplaceKeyed"@,
        cells::name_of(defs, vector_store::op(defs, "OpCopyRecord"@)) == "OpCopyRecord"@,
        "OpReplaceKeyed"@ != "OpAppendVector"@,
        "OpCopyRecord"@ != "OpAppendVector"@,
{
    data::found_definition(defs, "OpAppendVector"@, 0);
    data::found_definition(defs, "OpReplaceKeyed"@, 0);
    data::found_definition(defs, "OpCopyRecord"@, 0);
    reveal_strlit("OpAppendVector");
    reveal_strlit("OpReplaceKeyed");
    reveal_strlit("OpCopyRecord");
    assert("OpReplaceKeyed"@[2] != "OpAppendVector"@[2]);
    assert("OpCopyRecord"@[2] != "OpAppendVector"@[2]);
}

proof fn under_the_spans(n: ir::Node, inner: ir::Node)
    requires
        !(inner.head is Span),
    ensures
        ir::unspan(respanned(n, inner)) == inner,
    decreases n,
{
    if n.head is Span && n.kids.len() > 0 {
        under_the_spans(n.kids[0], inner);
    }
}

proof fn a_keyed_copy_names_its_source(
    defs: Seq<Definition>,
    src: ir::Node,
    o: u16,
    kt: u16,
    t: types::Ty,
)
    requires
        copies_defined(defs),
    ensures
        copied_in(defs, keyed_copy(defs, src, o, kt, t).kids, 4) == Some(src),
{
    copiers_are_told_apart(defs);
    let s = keyed_copy(defs, src, o, kt, t).kids;
    assert(copied_by(defs, s[3]) is None);
    assert(copied_by(defs, s[2]) == Some(src));
    assert(copied_in(defs, s, 3) == Some(src));
}

proof fn a_record_copy_names_its_source(
    defs: Seq<Definition>,
    src: ir::Node,
    o: u16,
    kt: u16,
    optional: bool,
    t: types::Ty,
)
    requires
        copies_defined(defs),
    ensures
        copied_in(defs, record_copy(defs, src, o, kt, optional, t).kids, 3) == Some(src),
{
    copiers_are_told_apart(defs);
    let s = record_copy(defs, src, o, kt, optional, t).kids;
    let fill = if optional {
        s[1].kids[2]
    } else {
        s[1]
    };
    assert(copied_by(defs, fill.kids[1]) == Some(src));
    assert(copied_in(defs, fill.kids, 2) == Some(src));
    assert(copied_by(defs, fill) == Some(src));
    if optional {
        assert(copied_by(defs, s[1].kids[1]) is None);
    }
    assert(copied_by(defs, s[1]) == Some(src));
    assert(copied_by(defs, s[2]) is None);
    assert(copied_in(defs, s, 2) == Some(src));
}

proof fn a_vector_copy_names_its_source(
    defs: Seq<Definition>,
    src: ir::Node,
    o: u16,
    made: Seq<ir::Node>,
    elem_tp: u16,
    t: types::Ty,
)
    requires
        copies_defined(defs),
    ensures
        copied_in(defs, vector_copy(defs, src, o, made, elem_tp, t).kids, made.len() as int + 3) == Some(
            src,
        ),
{
    copiers_are_told_apart(defs);
    let s = vector_copy(defs, src, o, made, elem_tp, t).kids;
    let n = made.len() as int;
    assert(s[n + 2] == ir::var(o));
    assert(copied_by(defs, s[n + 2]) is None);
    assert(copied_by(defs, s[n + 1]) == Some(src));
    assert(copied_in(defs, s, n + 2) == Some(src));
}

/// The source of a member's own copy can be read back from the copy, unless the
/// member is a tuple whose members are copied one by one.
pub proof fn a_copy_names_its_source(
    defs: Seq<Definition>,
    stores: Stores,
    m: Made,
    n: ir::Node,
    t: types::Ty,
)
    requires
        copies_defined(defs),
        !(t is Tuple),
    ensures
        owned(defs, stores, m, n, t).1 matches Some((copy, _)) ==> copy_source(defs, copy)
            == member_source(m.vars, n),
{
    match member_source(m.vars, n) {
        None => {},
        Some(src) => {
            let own = types::with_deps_of(t, types::no_deps());
            let o = m.vars.vars.len() as u16;
            let tp = types::depending_on(own, o);
            if types::keyed(t) {
                match elements::keyed_stored(m.types, defs, own) {
                    (_, Some(kt)) => {
                        a_keyed_copy_names_its_source(defs, src, o, kt, tp);
                        under_the_spans(n, keyed_copy(defs, src, o, kt, tp));
                    },
                    _ => {},
                }
            } else {
                match types::heap_def(t) {
                    Some(d) => {
                        let kt = elements::known_of(defs, d);
                        let optional = types::is_optional(t);
                        a_record_copy_names_its_source(defs, src, o, kt, optional, tp);
                        under_the_spans(n, record_copy(defs, src, o, kt, optional, tp));
                    },
                    None => match t {
                        types::Ty::Vector(elem, _) => {
                            let copy = data::created(m.vars, "_tupcopy_"@, own);
                            let copy = data::with_var(
                                copy,
                                o,
                                data::VarView { defined: true, ..copy.vars[o as int] },
                            );
                            let h = vector_store::holder_from(defs, stores, t, 0);
                            let steps = vector_store::record_steps(defs, copy, o, h, 0, false);
                            let elem_tp = elements::element_stored(m.types, defs, *elem).1;
                            let vt = types::Ty::Vector(elem, types::frame1(o));
                            a_vector_copy_names_its_source(defs, src, o, steps, elem_tp, vt);
                            under_the_spans(n, vector_copy(defs, src, o, steps, elem_tp, vt));
                        },
                        _ => {},
                    },
                }
            }
        },
    }
}

/// A parameter that is a member as it stands keeps naming what its caller has: it is not
/// copied, and no source can be read back from it.
pub proof fn a_parameter_is_not_copied(
    defs: Seq<Definition>,
    stores: Stores,
    m: Made,
    v: u16,
    t: types::Ty,
)
    requires
        v < m.vars.vars.len(),
        m.vars.vars[v as int].argument,
    ensures
        owned(defs, stores, m, ir::var(v), t) == (m, None::<(ir::Node, types::Ty)>),
        copy_source(defs, ir::var(v)) is None,
{
}

/// A local that is a member is copied, and the copy names it: a keyed collection that is
/// stored, a record that is stored, and every vector.
pub proof fn a_local_is_copied(
    defs: Seq<Definition>,
    stores: Stores,
    m: Made,
    v: u16,
    t: types::Ty,
)
    requires
        copies_defined(defs),
        v < m.vars.vars.len(),
        !m.vars.vars[v as int].argument,
        !(t is Tuple),
        owned(defs, stores, m, ir::var(v), t).1 is Some || t is Vector,
    ensures
        owned(defs, stores, m, ir::var(v), t).1 is Some,
        copy_source(defs, (owned(defs, stores, m, ir::var(v), t).1->0).0) == Some(ir::var(v)),
{
    a_copy_names_its_source(defs, stores, m, ir::var(v), t);
}

} // verus!
