//! The storage behind vector variables.
//!
//! A vector variable is a view of a field in a record of its own.  The statements
//! here allocate that record, bind the variable to the field and write its length.

use crate::data::{self, Data, DefType, Definition, Function};
use crate::ir::{self, Value};
use crate::schema::Stores;
use crate::types::{self, Deps, Type};
use crate::work_buffer;
use vstd::prelude::*;

verus! {

/// The number of an operator.
pub open spec fn op(defs: Seq<Definition>, name: Seq<char>) -> u32 {
    data::def_from(defs, name, 0)
}

/// A call of an operator.
pub fn cl(data: &Data, name: &str, args: Vec<Value>) -> (v: Value)
    requires
        data.definitions.len() <= u32::MAX,
    ensures
        v@ == ir::call(op(data.definitions@, name@), ir::views(args@)),
{
    ir::make_call(data.def_nr(name), args)
}

/// The record that a vector lives in: its definition, its stored type, and the
/// position and the stored type of the field that holds the vector.
#[derive(Clone, Copy, Debug, PartialEq, Eq, Structural)]
pub struct Holder {
    pub def: u32,
    pub known: u16,
    pub position: u16,
    pub content: u16,
}

/// Whether variable `v` is a keyed collection.
pub open spec fn is_keyed_local(f: data::FnView, v: u16) -> bool {
    v < f.vars.len() && types::keyed(f.vars[v as int].tp)
}

/// Whether variable `v` is a keyed collection.
pub fn keyed_local(vars: &Function, v: u16) -> (r: bool)
    ensures
        r == is_keyed_local(vars@, v),
{
    if (v as usize) < vars.variables.len() {
        assert(vars@.vars[v as int] == vars.variables@[v as int]@);
        types::is_keyed(&vars.variables[v as usize].tp)
    } else {
        false
    }
}

/// Whether a vector that is built for `v` needs a record of its own first.
pub open spec fn needs_db(f: data::FnView, v: u16, elem: types::Ty, is_var: bool) -> bool {
    &&& is_var
    &&& !(elem is Void)
    &&& v < f.vars.len()
    &&& !is_keyed_local(f, v)
    &&& types::depend(f.vars[v as int].tp).len() == 0
    &&& !(f.vars[v as int].tp is RefVar)
    &&& !f.vars[v as int].argument
}

/// Whether a vector that is built for `v` needs a record of its own first.
pub fn vector_needs_db(vars: &Function, v: u16, elem: &Type, is_var: bool) -> (r: bool)
    ensures
        r == needs_db(vars@, v, elem@, is_var),
{
    if !is_var || (v as usize) >= vars.variables.len() {
        return false;
    }
    assert(vars@.vars[v as int] == vars.variables@[v as int]@);
    let void: bool = match elem {
        Type::Void => true,
        _ => false,
    };
    let by_ref: bool = match vars.variables[v as usize].tp {
        Type::RefVar(_) => true,
        _ => false,
    };
    !void && !keyed_local(vars, v) && vars.variables[v as usize].tp.depend().len() == 0 && !by_ref
        && !vars.variables[v as usize].argument
}

/// The three statements that give `v` an empty vector in record `db`.
pub open spec fn trio(
    defs: Seq<Definition>,
    v: u16,
    db: u16,
    h: Holder,
    slot: i32,
) -> Seq<ir::Node> {
    seq![
        ir::call(
            op(defs, "OpDatabase"@),
            seq![ir::var(db), ir::int_value(h.known as i32)],
        ),
        ir::assign(
            v,
            ir::call(
                op(defs, "OpGetField"@),
                seq![
                    ir::var(db),
                    ir::int_value(h.position as i32),
                    ir::int_value(h.content as i32),
                ],
            ),
        ),
        ir::call(
            op(defs, "OpSetInt4"@),
            seq![ir::var(db), ir::int_value(h.position as i32), ir::int_value(slot)],
        ),
    ]
}

fn make_trio(data: &Data, v: u16, db: u16, h: Holder, slot: i32) -> (s: Vec<Value>)
    requires
        data.definitions.len() <= u32::MAX,
    ensures
        ir::views(s@) == trio(data.definitions@, v, db, h, slot),
        s.len() == 3,
{
    let mint: Value = cl(
        data,
        "OpDatabase",
        ir::list2(Value::Var(db), Value::Int(h.known as i32)),
    );
    let field: Value = cl(
        data,
        "OpGetField",
        ir::list3(Value::Var(db), Value::Int(h.position as i32), Value::Int(h.content as i32)),
    );
    let length: Value = cl(
        data,
        "OpSetInt4",
        ir::list3(Value::Var(db), Value::Int(h.position as i32), Value::Int(slot)),
    );
    let s: Vec<Value> = ir::list3(mint, ir::make_assign(v, field), length);
    proof {
        ir::view_at(s@);
    }
    s
}

/// Whether variable `v` takes no record of its own: nothing is built in the first
/// pass, a parameter keeps what it was handed unless it is rebound, and a keyed
/// collection is a record itself.
pub open spec fn no_record(f: data::FnView, v: u16, first_pass: bool) -> bool {
    ||| first_pass
    ||| v >= f.vars.len()
    ||| f.vars[v as int].argument && f.vars[v as int].rebind_orig is None
    ||| is_keyed_local(f, v)
}

/// The variables once `v` has a record of its own, and that record.
pub open spec fn with_record(f: data::FnView, v: u16, h: Holder, guarded: bool) -> (
    data::FnView,
    u16,
) {
    let db = f.vars.len() as u16;
    let f1 = data::backed(f, types::Ty::Reference(h.def, types::no_deps()));
    let f2 = if f.vars[v as int].rebind_orig is Some {
        let s = data::with_var(f1, db, data::VarView { skip_free: true, ..f1.vars[db as int] });
        data::with_var(s, db, data::VarView { inline_ref: true, ..s.vars[db as int] })
    } else {
        f1
    };
    let f3 = data::with_depend(f2, v, db);
    if guarded {
        (data::with_var(f3, db, data::VarView { inline_ref: true, ..f3.vars[db as int] }), db)
    } else {
        (f3, db)
    }
}

/// The statements that give `v` an empty vector: a rebound parameter first releases
/// what it holds, unless that was handed in.
pub open spec fn record_steps(
    defs: Seq<Definition>,
    f: data::FnView,
    v: u16,
    h: Holder,
    slot: i32,
    guarded: bool,
) -> Seq<ir::Node> {
    let db = f.vars.len() as u16;
    let steps = match f.vars[v as int].rebind_orig {
        Some(orig) => seq![
            ir::call(op(defs, "OpFreeRefIfDistinct"@), seq![ir::var(v), ir::var(orig)]),
        ] + trio(defs, v, db, h, slot),
        None => trio(defs, v, db, h, slot),
    };
    if guarded {
        seq![
            ir::choice(
                ir::call(op(defs, "OpRefIsNull"@), seq![ir::var(v)]),
                ir::insert(steps),
                ir::leaf(ir::Head::Null),
            ),
        ]
    } else {
        steps
    }
}

/// Give `v` a record of its own with an empty vector in it, whose length slot is
/// `slot`; `guarded` does so only while `v` has none.
pub fn vector_db_init(
    data: &Data,
    vars: &mut Function,
    h: Holder,
    v: u16,
    slot: i32,
    guarded: bool,
    first_pass: bool,
) -> (s: Vec<Value>)
    requires
        data.definitions.len() <= u32::MAX,
        old(vars).variables.len() < u16::MAX,
    ensures
        no_record(old(vars)@, v, first_pass) ==> *final(vars) == *old(vars) && s.len() == 0,
        !no_record(old(vars)@, v, first_pass) ==> final(vars)@ == with_record(
            old(vars)@,
            v,
            h,
            guarded,
        ).0 && ir::views(s@) == record_steps(data.definitions@, old(vars)@, v, h, slot, guarded)
            && final(vars).variables.len() == old(vars).variables.len() + 1,
{
    if first_pass || (v as usize) >= vars.variables.len() {
        return Vec::new();
    }
    assert(vars@.vars[v as int] == vars.variables@[v as int]@);
    let orig: Option<u16> = vars.variables[v as usize].rebind_orig;
    if (vars.variables[v as usize].argument && orig.is_none()) || keyed_local(vars, v) {
        return Vec::new();
    }
    let db: u16 = vars.create_backing(Type::Reference(h.def, Deps::none()));
    let mut steps: Vec<Value> = make_trio(data, v, db, h, slot);
    match orig {
        Some(w) => {
            vars.set_skip_free(db);
            vars.mark_inline_ref(db);
            ir::put_first(
                &mut steps,
                cl(data, "OpFreeRefIfDistinct", ir::list2(Value::Var(v), Value::Var(w))),
            );
        },
        None => {},
    }
    vars.depend(v, db);
    if guarded {
        vars.mark_inline_ref(db);
        let test: Value = cl(data, "OpRefIsNull", ir::list1(Value::Var(v)));
        ir::list1(ir::make_choice(test, ir::make_insert(steps), Value::Null))
    } else {
        steps
    }
}

/// Give `v` a record of its own with an empty vector in it.
pub fn vector_db(data: &Data, vars: &mut Function, h: Holder, v: u16, first_pass: bool) -> (s: Vec<
    Value,
>)
    requires
        data.definitions.len() <= u32::MAX,
        old(vars).variables.len() < u16::MAX,
    ensures
        no_record(old(vars)@, v, first_pass) ==> *final(vars) == *old(vars) && s.len() == 0,
        !no_record(old(vars)@, v, first_pass) ==> final(vars)@ == with_record(
            old(vars)@,
            v,
            h,
            false,
        ).0 && ir::views(s@) == record_steps(data.definitions@, old(vars)@, v, h, 0, false)
            && final(vars).variables.len() == old(vars).variables.len() + 1,
{
    vector_db_init(data, vars, h, v, 0, false, first_pass)
}

/// The variables once `v` and the element variable depend on a new record, and that
/// record.
pub open spec fn with_new(f: data::FnView, v: u16, elm: u16, h: Holder) -> (data::FnView, u16) {
    let db = f.vars.len() as u16;
    let f1 = data::backed(f, types::Ty::Reference(h.def, types::no_deps()));
    (data::with_depend(data::with_depend(f1, elm, db), v, db), db)
}

/// Put the statements that give `v` an empty vector before a list of others.
pub fn insert_new(
    data: &Data,
    vars: &mut Function,
    h: Holder,
    v: u16,
    elm: u16,
    s: &mut Vec<Value>,
) -> (db: u16)
    requires
        data.definitions.len() <= u32::MAX,
        v < old(vars).variables.len() < u16::MAX,
        elm < old(vars).variables.len(),
    ensures
        (final(vars)@, db) == with_new(old(vars)@, v, elm, h),
        final(vars).variables.len() == old(vars).variables.len() + 1,
        ir::views(final(s)@) == trio(data.definitions@, v, db, h, 0) + ir::views(old(s)@),
{
    let db: u16 = vars.create_backing(Type::Reference(h.def, Deps::none()));
    vars.depend(elm, db);
    vars.depend(v, db);
    let mut out: Vec<Value> = make_trio(data, v, db, h, 0);
    let mut rest: Vec<Value> = Vec::new();
    core::mem::swap(s, &mut rest);
    ir::put_all(&mut out, rest);
    *s = out;
    db
}

/// The declaration that is built for a plain local is the one by which a local that
/// may become the caller's buffer is recognised.
pub proof fn a_built_declaration_is_recognised(
    data: Data,
    f: data::FnView,
    v: u16,
    h: Holder,
    slot: i32,
)
    requires
        f.vars.len() < u16::MAX,
        v < f.vars.len(),
        f.vars[v as int].rebind_orig is None,
    ensures
        work_buffer::is_trio(
            record_steps(data.definitions@, f, v, h, slot, false),
            0,
            v,
            f.vars.len() as u16,
            work_buffer::Ops::of(&data),
        ),
{
}

/// Whether a definition is the record that a vector of a type lives in.
pub open spec fn holds(def: Definition, t: types::Ty) -> bool {
    def.def_type == DefType::Vector && def.attributes.len() > 0 && types::bare(
        def.attributes@[0].typedef@,
    ) == types::bare(t)
}

/// The record that a vector of a type lives in: the first from `from` on.
pub open spec fn holder_from(
    defs: Seq<Definition>,
    stores: Stores,
    t: types::Ty,
    from: int,
) -> Holder
    decreases defs.len() - from,
{
    if from < 0 || from >= defs.len() {
        Holder { def: u32::MAX, known: u16::MAX, position: 0, content: 0 }
    } else if holds(defs[from], t) {
        let known = defs[from].known_type;
        if known < stores.types.len() && stores.types@[known as int].fields.len() > 0 {
            let field = stores.types@[known as int].fields@[0];
            Holder {
                def: from as u32,
                known,
                position: field.position,
                content: field.content,
            }
        } else {
            Holder { def: from as u32, known, position: 0, content: 0 }
        }
    } else {
        holder_from(defs, stores, t, from + 1)
    }
}

/// The record that a vector of a type lives in.
pub fn find_holder(data: &Data, stores: &Stores, tp: &Type) -> (h: Holder)
    requires
        data.definitions.len() <= u32::MAX,
    ensures
        h == holder_from(data.definitions@, *stores, tp@, 0),
{
    let mut i: usize = 0;
    while i < data.definitions.len()
        invariant
            i <= data.definitions.len() <= u32::MAX,
            holder_from(data.definitions@, *stores, tp@, 0) == holder_from(
                data.definitions@,
                *stores,
                tp@,
                i as int,
            ),
        decreases data.definitions.len() - i,
    {
        let def: &Definition = &data.definitions[i];
        if def.def_type == DefType::Vector && def.attributes.len() > 0
            && def.attributes[0].typedef.is_equal(tp) {
            let known: u16 = def.known_type;
            if (known as usize) < stores.types.len() && stores.types[known as usize].fields.len()
                > 0 {
                return Holder {
                    def: i as u32,
                    known,
                    position: stores.types[known as usize].fields[0].position,
                    content: stores.types[known as usize].fields[0].content,
                };
            }
            return Holder { def: i as u32, known, position: 0, content: 0 };
        }
        i = i + 1;
    }
    Holder { def: u32::MAX, known: u16::MAX, position: 0, content: 0 }
}

} // verus!
