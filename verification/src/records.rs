//! Records and their fields: how one is read and written, and how the elements of a
//! literal become records of a collection.

use crate::cells;
use crate::data::{self, Data, Definition, Function};
use crate::elements;
use crate::ir::{self, Value};
use crate::schema::Stores;
use crate::types::{self, DepSpace, Deps, Type};
use crate::vector_store;
use vstd::prelude::*;

verus! {

/// The operands that say where in a record a scalar stands.
pub open spec fn at(n: ir::Node, position: u16, low: Option<i32>) -> Seq<ir::Node> {
    match low {
        Some(min) => seq![n, ir::int_value(position as i32), ir::int_value(min)],
        None => seq![n, ir::int_value(position as i32)],
    }
}

fn make_at(v: Value, position: u16, low: Option<i32>) -> (s: Vec<Value>)
    ensures
        ir::views(s@) == at(v@, position, low),
{
    match low {
        Some(min) => ir::list3(v, Value::Int(position as i32), Value::Int(min)),
        None => ir::list2(v, Value::Int(position as i32)),
    }
}

/// Whether a type is held as a share of a record elsewhere.
pub open spec fn is_share(t: types::Ty) -> bool {
    match t {
        types::Ty::Reference(_, d) => d.space == DepSpace::Share,
        _ => false,
    }
}

/// The read of a value of a type at a position of a record.
pub open spec fn read_at(
    defs: Seq<Definition>,
    t: types::Ty,
    record: ir::Node,
    position: u16,
) -> ir::Node {
    if is_share(t) {
        ir::call(
            vector_store::op(defs, "OpGetDbRef"@),
            seq![record, ir::int_value(position as i32)],
        )
    } else {
        match cells::accessor(t) {
            Some((name, low)) => ir::call(
                cells::operator(defs, "OpGet"@, name),
                at(record, position, low),
            ),
            None => match types::heap_def(t) {
                Some(d) => ir::call(
                    vector_store::op(defs, "OpGetField"@),
                    seq![
                        record,
                        ir::int_value(position as i32),
                        ir::int_value(elements::known_of(defs, d) as i32),
                    ],
                ),
                None => ir::leaf(ir::Head::Null),
            },
        }
    }
}

/// The write of a value of a type at a position of a record.
pub open spec fn written_at(
    defs: Seq<Definition>,
    t: types::Ty,
    record: ir::Node,
    position: u16,
    value: ir::Node,
) -> ir::Node {
    if is_share(t) {
        ir::call(
            vector_store::op(defs, "OpSetDbRef"@),
            seq![record, ir::int_value(position as i32), value],
        )
    } else {
        match cells::accessor(t) {
            Some((name, low)) => ir::call(
                cells::operator(defs, "OpSet"@, name),
                at(record, position, low).push(value),
            ),
            None => match types::heap_def(t) {
                Some(d) => ir::call(
                    vector_store::op(defs, "OpCopyRecord"@),
                    seq![
                        value,
                        read_at(defs, t, record, position),
                        ir::int_value(elements::known_of(defs, d) as i32),
                    ],
                ),
                None => ir::leaf(ir::Head::Null),
            },
        }
    }
}

fn shares(tp: &Type) -> (r: bool)
    ensures
        r == is_share(tp@),
{
    match tp {
        Type::Reference(_, d) => d.space == DepSpace::Share,
        _ => false,
    }
}

fn heap_read(data: &Data, d: u32, record: Value, position: u16) -> (out: Value)
    requires
        data.definitions.len() <= u32::MAX,
    ensures
        out@ == ir::call(
            vector_store::op(data.definitions@, "OpGetField"@),
            seq![
                record@,
                ir::int_value(position as i32),
                ir::int_value(elements::known_of(data.definitions@, d) as i32),
            ],
        ),
{
    vector_store::cl(
        data,
        "OpGetField",
        ir::list3(
            record,
            Value::Int(position as i32),
            Value::Int(elements::known_type(data, d) as i32),
        ),
    )
}

/// The read of a value of a type at a position of a record.
pub fn make_read(data: &Data, tp: &Type, record: Value, position: u16) -> (out: Value)
    requires
        data.definitions.len() <= u32::MAX,
    ensures
        out@ == read_at(data.definitions@, tp@, record@, position),
{
    if shares(tp) {
        return vector_store::cl(
            data,
            "OpGetDbRef",
            ir::list2(record, Value::Int(position as i32)),
        );
    }
    match cells::accessor_of(tp) {
        Some((name, low)) => {
            let op: u32 = data.def_nr(crate::text::join("OpGet", name).as_str());
            ir::make_call(op, make_at(record, position, low))
        },
        None => match tp.heap_def_nr() {
            Some(d) => heap_read(data, d, record, position),
            None => Value::Null,
        },
    }
}

/// The write of a value of a type at a position of a record.
pub fn make_write(data: &Data, tp: &Type, record: Value, position: u16, value: Value) -> (out: Value)
    requires
        data.definitions.len() <= u32::MAX,
    ensures
        out@ == written_at(data.definitions@, tp@, record@, position, value@),
{
    if shares(tp) {
        return vector_store::cl(
            data,
            "OpSetDbRef",
            ir::list3(record, Value::Int(position as i32), value),
        );
    }
    match cells::accessor_of(tp) {
        Some((name, low)) => {
            let op: u32 = data.def_nr(crate::text::join("OpSet", name).as_str());
            let mut args: Vec<Value> = make_at(record, position, low);
            ir::put(&mut args, value);
            ir::make_call(op, args)
        },
        None => match tp.heap_def_nr() {
            Some(d) => {
                let slot: Value = heap_read(data, d, record, position);
                vector_store::cl(
                    data,
                    "OpCopyRecord",
                    ir::list3(value, slot, Value::Int(elements::known_type(data, d) as i32)),
                )
            },
            None => Value::Null,
        },
    }
}

/// The position of field `i` of a record.
pub open spec fn position_of(
    defs: Seq<Definition>,
    stores: Stores,
    record: u32,
    i: int,
) -> u16 {
    stores.position_of(
        elements::known_of(defs, record),
        defs[record as int].attributes@[i].name@,
    )
}

/// The write of a value to field `i` of a record; nothing where there is no such
/// field.
pub open spec fn field_written(
    defs: Seq<Definition>,
    stores: Stores,
    record: u32,
    i: int,
    target: ir::Node,
    value: ir::Node,
) -> ir::Node {
    if record < defs.len() && 0 <= i < defs[record as int].attributes.len() {
        written_at(
            defs,
            defs[record as int].attributes@[i].typedef@,
            target,
            position_of(defs, stores, record, i),
            value,
        )
    } else {
        ir::leaf(ir::Head::Null)
    }
}

/// The write of a value to field `i` of a record.
pub fn set_field(
    data: &Data,
    stores: &Stores,
    record: u32,
    i: usize,
    target: Value,
    value: Value,
) -> (out: Value)
    requires
        data.definitions.len() <= u32::MAX,
    ensures
        out@ == field_written(
            data.definitions@,
            *stores,
            record,
            i as int,
            target@,
            value@,
        ),
{
    if (record as usize) < data.definitions.len() && i
        < data.definitions[record as usize].attributes.len() {
        let name: &str = data.definitions[record as usize].attributes[i].name.as_str();
        let position: u16 = stores.position(data.definitions[record as usize].known_type, name);
        make_write(
            data,
            &data.definitions[record as usize].attributes[i].typedef,
            target,
            position,
            value,
        )
    } else {
        Value::Null
    }
}

/// The read of field `i` of a record; nothing where there is no such field.
pub open spec fn field_read(
    defs: Seq<Definition>,
    stores: Stores,
    record: u32,
    i: int,
    target: ir::Node,
) -> ir::Node {
    if record < defs.len() && 0 <= i < defs[record as int].attributes.len() {
        read_at(
            defs,
            defs[record as int].attributes@[i].typedef@,
            target,
            position_of(defs, stores, record, i),
        )
    } else {
        ir::leaf(ir::Head::Null)
    }
}

/// The read of field `i` of a record.
pub fn get_field(data: &Data, stores: &Stores, record: u32, i: usize, target: Value) -> (out: Value)
    requires
        data.definitions.len() <= u32::MAX,
    ensures
        out@ == field_read(data.definitions@, *stores, record, i as int, target@),
{
    if (record as usize) < data.definitions.len() && i
        < data.definitions[record as usize].attributes.len() {
        let name: &str = data.definitions[record as usize].attributes[i].name.as_str();
        let position: u16 = stores.position(data.definitions[record as usize].known_type, name);
        make_read(
            data,
            &data.definitions[record as usize].attributes[i].typedef,
            target,
            position,
        )
    } else {
        Value::Null
    }
}

/// The variables and the statement that gives a keyed collection at a place a
/// record while it has none; none for an expression that is no place.
pub open spec fn materialised(
    defs: Seq<Definition>,
    f: data::FnView,
    place: ir::Node,
    kt: u16,
    t: types::Ty,
) -> (data::FnView, Option<ir::Node>) {
    let test = ir::call(vector_store::op(defs, "OpVectorIsNull"@), seq![place]);
    let mint = vector_store::op(defs, "OpDatabase"@);
    match ir::unspan(place).head {
        ir::Head::Var(v) => (
            f,
            Some(
                ir::choice(
                    test,
                    ir::call(mint, seq![ir::var(v), ir::int_value(kt as i32)]),
                    ir::leaf(ir::Head::Null),
                ),
            ),
        ),
        ir::Head::TupleGet(v, i) => {
            let w = f.vars.len() as u16;
            let g = data::created(f, "__kvb_"@, types::base(t));
            (
                data::with_var(g, w, data::VarView { work_ref: true, ..g.vars[w as int] }),
                Some(
                    ir::choice(
                        test,
                        ir::insert(
                            seq![
                                ir::assign(w, ir::leaf(ir::Head::Null)),
                                ir::call(mint, seq![ir::var(w), ir::int_value(kt as i32)]),
                                ir::put_part(v, i, ir::var(w)),
                            ],
                        ),
                        ir::leaf(ir::Head::Null),
                    ),
                ),
            )
        },
        _ => (f, None),
    }
}

/// The statement that gives a keyed collection at a place a record while it has
/// none.
pub fn keyed_place_materialise(
    data: &Data,
    vars: &mut Function,
    place: &Value,
    kt: u16,
    keyed_tp: &Type,
) -> (out: Option<Value>)
    requires
        data.definitions.len() <= u32::MAX,
        old(vars).variables.len() < u16::MAX,
    ensures
        final(vars)@ == materialised(data.definitions@, old(vars)@, place@, kt, keyed_tp@).0,
        match out {
            Some(x) => materialised(data.definitions@, old(vars)@, place@, kt, keyed_tp@).1 == Some(
                x@,
            ),
            None => materialised(data.definitions@, old(vars)@, place@, kt, keyed_tp@).1 is None,
        },
        final(vars).variables.len() <= old(vars).variables.len() + 1,
{
    let test: Value = vector_store::cl(data, "OpVectorIsNull", ir::list1(place.copy()));
    match place.unspan() {
        Value::Var(v) => {
            let mint: Value = vector_store::cl(
                data,
                "OpDatabase",
                ir::list2(Value::Var(*v), Value::Int(kt as i32)),
            );
            Some(ir::make_choice(test, mint, Value::Null))
        },
        Value::TupleGet(v, i) => {
            let w: u16 = vars.create("__kvb_", keyed_tp.base().copy());
            vars.add_to_work_refs(w);
            let mint: Value = vector_store::cl(
                data,
                "OpDatabase",
                ir::list2(Value::Var(w), Value::Int(kt as i32)),
            );
            let put: Value = ir::make_put_part(*v, *i, Value::Var(w));
            let steps: Vec<Value> = ir::list3(ir::make_assign(w, Value::Null), mint, put);
            Some(ir::make_choice(test, ir::make_insert(steps), Value::Null))
        },
        _ => None,
    }
}

/// Whether variable `v` is a local keyed collection that may be absent.
pub open spec fn may_be_absent(f: data::FnView, v: u16, first_pass: bool) -> bool {
    !first_pass && vector_store::is_keyed_local(f, v) && types::is_optional(f.vars[v as int].tp)
        && !f.vars[v as int].argument
}

/// The statement that gives local keyed collection `v` a record while it has none;
/// none for a variable that always has one.
pub fn keyed_local_materialise(
    data: &Data,
    stores: &mut Stores,
    vars: &mut Function,
    v: u16,
    first_pass: bool,
) -> (out: Option<Value>)
    requires
        data.definitions.len() <= u32::MAX,
        old(stores).types.len() <= u16::MAX,
        old(vars).variables.len() < u16::MAX,
    ensures
        *final(vars) == *old(vars),
        final(stores).types.len() <= u16::MAX,
        ({
            let f = old(vars)@;
            if may_be_absent(f, v, first_pass) {
                let (more, kt) = elements::keyed_stored(
                    old(stores)@,
                    data.definitions@,
                    f.vars[v as int].tp,
                );
                &&& final(stores)@ == more
                &&& match kt {
                    Some(tp) => out is Some && out->0@ == ir::choice(
                        ir::call(
                            vector_store::op(data.definitions@, "OpVectorIsNull"@),
                            seq![ir::var(v)],
                        ),
                        ir::call(
                            vector_store::op(data.definitions@, "OpDatabase"@),
                            seq![ir::var(v), ir::int_value(tp as i32)],
                        ),
                        ir::leaf(ir::Head::Null),
                    ),
                    None => out is None,
                }
            } else {
                *final(stores) == *old(stores) && out is None
            }
        }),
{
    if first_pass || !vector_store::keyed_local(vars, v) {
        return None;
    }
    assert(vars@.vars[v as int] == vars.variables@[v as int]@);
    if !vars.variables[v as usize].tp.is_optional() || vars.variables[v as usize].argument {
        return None;
    }
    match elements::keyed_known_type(stores, data, &vars.variables[v as usize].tp) {
        Some(kt) => {
            let test: Value = vector_store::cl(
                data,
                "OpVectorIsNull",
                ir::list1(Value::Var(v)),
            );
            let mint: Value = vector_store::cl(
                data,
                "OpDatabase",
                ir::list2(Value::Var(v), Value::Int(kt as i32)),
            );
            Some(ir::make_choice(test, mint, Value::Null))
        },
        None => None,
    }
}

/// The variables, the number of a function and the statements before it, for a
/// function value that is stored in a slot of that number alone.
pub open spec fn slot_number(f: data::FnView, src: ir::Node, in_t: types::Ty) -> (
    data::FnView,
    ir::Node,
    Seq<ir::Node>,
) {
    match ir::unspan(src).head {
        ir::Head::Var(v) => if v < f.vars.len() && f.vars[v as int].tp is Function {
            (f, ir::leaf(ir::Head::FnRefDnr(v)), Seq::empty())
        } else {
            (f, src, Seq::empty())
        },
        ir::Head::Call(_) => {
            let w = f.vars.len() as u16;
            let g = data::created(f, "___fn_ref_tmp_"@, types::with_deps_of(in_t, types::no_deps()));
            let h = data::with_var(g, w, data::VarView { defined: true, ..g.vars[w as int] });
            (
                data::with_var(h, w, data::VarView { skip_free: true, ..h.vars[w as int] }),
                ir::leaf(ir::Head::FnRefDnr(w)),
                seq![ir::assign(w, src)],
            )
        },
        _ => (f, src, Seq::empty()),
    }
}

/// The number of the function that a value stands for, and the statements that have
/// to run before it is read.
pub fn fn_ref_slot_dnr(vars: &mut Function, src: &Value, in_t: &Type) -> (r: (Value, Vec<Value>))
    requires
        old(vars).variables.len() < u16::MAX,
    ensures
        (final(vars)@, r.0@, ir::views(r.1@)) == slot_number(old(vars)@, src@, in_t@),
        final(vars).variables.len() <= old(vars).variables.len() + 1,
{
    let none: Vec<Value> = Vec::new();
    assert(ir::views(none@) =~= Seq::<ir::Node>::empty());
    let m: &Value = src.unspan();
    proof {
        ir::shape(*m);
    }
    match m {
        Value::Var(v) => {
            if (*v as usize) < vars.variables.len() {
                assert(vars@.vars[*v as int] == vars.variables@[*v as int]@);
                match vars.variables[*v as usize].tp {
                    Type::Function(_, _, _) => {
                        return (Value::FnRefDnr(*v), none);
                    },
                    _ => {},
                }
            }
            (src.copy(), none)
        },
        Value::Call(_, _) => {
            let w: u16 = vars.create("___fn_ref_tmp_", in_t.with_deps(&Deps::none()));
            vars.mark_defined(w);
            vars.set_skip_free(w);
            (Value::FnRefDnr(w), ir::list1(ir::make_assign(w, src.copy())))
        },
        _ => (src.copy(), none),
    }
}

} // verus!
