//! Cells: the one-field records that captured scalars live in.
//!
//! A scalar that a closure writes moves into a record of its own, so that the
//! closure and the function around it see one place.  The name of the record says
//! how the scalar is stored, and two scalars share a record type exactly when they
//! are stored alike.

use crate::data::{self, Data, Definition, Function, Variable};
use crate::ir::{self, Value};
use crate::text;
use crate::types::{self, Deps, IntegerSpec, Type};
use vstd::prelude::*;

verus! {

/// The name of definition `d`; empty where there is none.
pub open spec fn name_of(defs: Seq<Definition>, d: u32) -> Seq<char> {
    if d < defs.len() {
        defs[d as int].name@
    } else {
        ""@
    }
}

/// The name of definition `d`; empty where there is none.
pub fn def_name(data: &Data, d: u32) -> (name: &str)
    ensures
        name@ == name_of(data.definitions@, d),
{
    if (d as usize) < data.definitions.len() {
        data.definitions[d as usize].name.as_str()
    } else {
        ""
    }
}

/// Whether an integer is stored in the full width without its declaration asking
/// for it.
pub open spec fn full_width(spec: IntegerSpec) -> bool {
    spec.forced_size == 0 && types::integer_width(spec, true) == 8
}

/// The type of what a cell holds: the captured type without the details that do
/// not reach its storage.
pub open spec fn value_type(t: types::Ty) -> types::Ty
    decreases t,
{
    match t {
        types::Ty::Optional(inner) => types::optional_of(value_type(*inner)),
        types::Ty::Integer(spec) => if full_width(spec) {
            if spec.max == u32::MAX {
                types::Ty::Integer(IntegerSpec::long())
            } else {
                types::Ty::Integer(IntegerSpec::plain())
            }
        } else {
            t
        },
        types::Ty::Text(_) => types::Ty::Text(types::no_deps()),
        types::Ty::Enum(d, fields, _) => types::Ty::Enum(d, fields, types::no_deps()),
        _ => t,
    }
}

/// The type of what a cell for a capture of type `tp` holds.
pub fn cell_value_type(tp: &Type) -> (t: Type)
    ensures
        t@ == value_type(tp@),
    decreases tp,
{
    match tp {
        Type::Optional(inner) => cell_value_type(inner).optional(),
        Type::Integer(spec) => {
            if spec.forced_size == 0 && spec.byte_width(true) == 8 {
                if spec.max == u32::MAX {
                    Type::Integer(IntegerSpec::wide())
                } else {
                    Type::Integer(IntegerSpec::signed32())
                }
            } else {
                Type::Integer(*spec)
            }
        },
        Type::Text(_) => Type::Text(Deps::none()),
        Type::Enum(d, fields, _) => Type::Enum(*d, *fields, Deps::none()),
        _ => tp.copy(),
    }
}

/// A bound of an integer as it stands in a name, where a minus cannot.
pub open spec fn bound_text(min: i32) -> Seq<char> {
    if min < 0 {
        "m"@ + text::decimal_of((-min) as nat)
    } else {
        text::decimal_of(min as nat)
    }
}

/// What names an integer cell: the width, the bounds and whether a value may be
/// absent, unless it is stored in the full width.
pub open spec fn integer_stem(spec: IntegerSpec) -> Seq<char> {
    if full_width(spec) {
        if spec.max == u32::MAX {
            "long"@
        } else {
            "integer"@
        }
    } else {
        "int"@ + text::decimal_of(types::integer_width(spec, true) as nat) + "_"@ + bound_text(
            spec.min,
        ) + "_"@ + text::decimal_of(spec.max as nat) + if spec.not_null {
            "_nn"@
        } else {
            ""@
        }
    }
}

fn int_cell_stem(spec: &IntegerSpec) -> (s: String)
    ensures
        s@ == integer_stem(*spec),
{
    if spec.forced_size == 0 && spec.byte_width(true) == 8 {
        return if spec.max == u32::MAX {
            "long".to_owned()
        } else {
            "integer".to_owned()
        };
    }
    let low: String = if spec.min < 0 {
        let size: i64 = -(spec.min as i64);
        text::join("m", text::decimal(size as u64).as_str())
    } else {
        text::decimal(spec.min as u64)
    };
    let width: String = text::decimal(spec.byte_width(true) as u64);
    let high: String = text::decimal(spec.max as u64);
    let mut s: String = text::join("int", width.as_str());
    s = text::join(s.as_str(), "_");
    s = text::join(s.as_str(), low.as_str());
    s = text::join(s.as_str(), "_");
    s = text::join(s.as_str(), high.as_str());
    if spec.not_null {
        text::join(s.as_str(), "_nn")
    } else {
        text::join(s.as_str(), "")
    }
}

/// What names the cell of a scalar that is never absent; other types have none.
pub open spec fn stem(t: types::Ty, defs: Seq<Definition>) -> Option<Seq<char>> {
    match value_type(t) {
        types::Ty::Integer(spec) => Some(integer_stem(spec)),
        types::Ty::Float => Some("float"@),
        types::Ty::Single => Some("single"@),
        types::Ty::Boolean => Some("boolean"@),
        types::Ty::Character => Some("character"@),
        types::Ty::Text(_) => Some("text"@),
        types::Ty::Enum(d, false, _) => Some("enum_"@ + name_of(defs, d)),
        _ => None,
    }
}

fn cell_stem(tp: &Type, data: &Data) -> (s: Option<String>)
    ensures
        match s {
            Some(x) => stem(tp@, data.definitions@) == Some(x@),
            None => stem(tp@, data.definitions@) is None,
        },
{
    match cell_value_type(tp) {
        Type::Integer(spec) => Some(int_cell_stem(&spec)),
        Type::Float => Some("float".to_owned()),
        Type::Single => Some("single".to_owned()),
        Type::Boolean => Some("boolean".to_owned()),
        Type::Character => Some("character".to_owned()),
        Type::Text(_) => Some("text".to_owned()),
        Type::Enum(d, false, _) => Some(text::join("enum_", def_name(data, d))),
        _ => None,
    }
}

/// The name of the cell that a captured scalar takes; a value that may be absent
/// takes one of its own.
pub open spec fn cell_name(t: types::Ty, defs: Seq<Definition>) -> Option<Seq<char>> {
    match stem(types::base(t), defs) {
        Some(s) => Some(
            if types::is_optional(t) {
                "__cell_opt_"@ + s
            } else {
                "__cell_"@ + s
            },
        ),
        None => None,
    }
}

/// The name of the cell that a captured scalar of type `tp` takes; `None` for a
/// type that takes none.
pub fn cell_struct_name(tp: &Type, data: &Data) -> (name: Option<String>)
    ensures
        match name {
            Some(x) => cell_name(tp@, data.definitions@) == Some(x@),
            None => cell_name(tp@, data.definitions@) is None,
        },
{
    match cell_stem(tp.base(), data) {
        Some(s) => if tp.is_optional() {
            Some(text::join("__cell_opt_", s.as_str()))
        } else {
            Some(text::join("__cell_", s.as_str()))
        },
        None => None,
    }
}

/// The cell that a type points at, where it is one.
pub open spec fn cell_of(t: types::Ty, defs: Seq<Definition>) -> Option<u32> {
    match t {
        types::Ty::Reference(d, _) => if text::is_prefix("__cell_"@, name_of(defs, d)) {
            Some(d)
        } else {
            None
        },
        _ => None,
    }
}

/// The cell that a type points at; `None` when it is not a boxed scalar.
pub fn boxed_cell_def(tp: &Type, data: &Data) -> (d: Option<u32>)
    ensures
        d == cell_of(tp@, data.definitions@),
{
    match tp {
        Type::Reference(d, _) => if text::starts_with(def_name(data, *d), "__cell_") {
            Some(*d)
        } else {
            None
        },
        _ => None,
    }
}

/// How a scalar of a type is read and written at a place: the name behind `OpGet`
/// and `OpSet`, and the bound that a narrow integer is stored against.
pub open spec fn accessor(t: types::Ty) -> Option<(Seq<char>, Option<i32>)>
    decreases t,
{
    match t {
        types::Ty::Optional(inner) => accessor(*inner),
        types::Ty::Integer(spec) => Some(
            if full_width(spec) {
                ("Int"@, None)
            } else if types::integer_width(spec, true) == 1 {
                ("Byte"@, Some(spec.min))
            } else if types::integer_width(spec, true) == 2 {
                ("Short"@, Some(spec.min))
            } else if types::integer_width(spec, true) == 4 {
                ("Int4"@, None)
            } else {
                ("Int"@, None)
            },
        ),
        types::Ty::Float => Some(("Float"@, None)),
        types::Ty::Single => Some(("Single"@, None)),
        types::Ty::Boolean => Some(("Boolean"@, None)),
        types::Ty::Character => Some(("Character"@, None)),
        types::Ty::Text(_) => Some(("Text"@, None)),
        types::Ty::Enum(_, false, _) => Some(("Enum"@, None)),
        _ => None,
    }
}

/// How a scalar of a type is read and written at a place.
pub fn accessor_of(tp: &Type) -> (r: Option<(&'static str, Option<i32>)>)
    ensures
        match r {
            Some((name, low)) => accessor(tp@) == Some((name@, low)),
            None => accessor(tp@) is None,
        },
    decreases tp,
{
    match tp {
        Type::Optional(inner) => accessor_of(inner),
        Type::Integer(spec) => {
            let width: u8 = spec.byte_width(true);
            Some(
                if spec.forced_size == 0 && width == 8 {
                    ("Int", None)
                } else if width == 1 {
                    ("Byte", Some(spec.min))
                } else if width == 2 {
                    ("Short", Some(spec.min))
                } else if width == 4 {
                    ("Int4", None)
                } else {
                    ("Int", None)
                },
            )
        },
        Type::Float => Some(("Float", None)),
        Type::Single => Some(("Single", None)),
        Type::Boolean => Some(("Boolean", None)),
        Type::Character => Some(("Character", None)),
        Type::Text(_) => Some(("Text", None)),
        Type::Enum(_, false, _) => Some(("Enum", None)),
        _ => None,
    }
}

/// The number of the operator called `kind` followed by `name`.
pub open spec fn operator(defs: Seq<Definition>, kind: Seq<char>, name: Seq<char>) -> u32 {
    data::def_from(defs, kind + name, 0)
}

/// The operands that say where in a record a scalar stands.
pub open spec fn place(n: ir::Node, low: Option<i32>) -> Seq<ir::Node> {
    match low {
        Some(min) => seq![n, ir::int_value(0), ir::int_value(min)],
        None => seq![n, ir::int_value(0)],
    }
}

/// The operands that say where in a record a scalar stands.
pub fn make_place(v: Value, low: Option<i32>) -> (s: Vec<Value>)
    ensures
        ir::views(s@) == place(v@, low),
{
    match low {
        Some(min) => ir::list3(v, Value::Int(0), Value::Int(min)),
        None => ir::list2(v, Value::Int(0)),
    }
}

/// The type of what the cell of a type holds.
pub open spec fn held_type(defs: Seq<Definition>, t: types::Ty) -> Option<types::Ty> {
    match cell_of(t, defs) {
        Some(d) => if d < defs.len() {
            match data::attr_from(defs[d as int].attributes@, "value"@, 0) {
                Some(i) => Some(defs[d as int].attributes@[i].typedef@),
                None => None,
            }
        } else {
            None
        },
        None => None,
    }
}

fn held(data: &Data, tp: &Type) -> (t: Option<Type>)
    ensures
        match t {
            Some(x) => held_type(data.definitions@, tp@) == Some(x@),
            None => held_type(data.definitions@, tp@) is None,
        },
{
    match boxed_cell_def(tp, data) {
        Some(d) => if (d as usize) < data.definitions.len() {
            match data.attr(d, "value") {
                Some(i) => Some(data.definitions[d as usize].attributes[i].typedef.copy()),
                None => None,
            }
        } else {
            None
        },
        None => None,
    }
}

/// A value of a type as the program reads it: what a cell holds, and any other
/// value as it is.
pub open spec fn dereferenced(defs: Seq<Definition>, n: ir::Node, t: types::Ty) -> (
    ir::Node,
    types::Ty,
) {
    match held_type(defs, t) {
        Some(inner) => match accessor(inner) {
            Some((name, low)) => (
                ir::call(operator(defs, "OpGet"@, name), place(n, low)),
                inner,
            ),
            None => (n, t),
        },
        None => (n, t),
    }
}

/// Read through a cell: `code` becomes the read of what the cell holds, and its
/// type is answered.  Code of any other type stays as it is.
pub fn auto_deref_boxed_scalar(data: &Data, code: Value, tp: Type) -> (r: (Value, Type))
    requires
        data.definitions.len() <= u32::MAX,
    ensures
        (r.0@, r.1@) == dereferenced(data.definitions@, code@, tp@),
{
    match held(data, &tp) {
        Some(inner) => match accessor_of(&inner) {
            Some((name, low)) => {
                let op: u32 = data.def_nr(text::join("OpGet", name).as_str());
                (ir::make_call(op, make_place(code, low)), inner)
            },
            None => (code, tp),
        },
        None => (code, tp),
    }
}

/// The allocation of a cell of definition `d` for variable `v`, before `rest`.
pub open spec fn allocated(defs: Seq<Definition>, v: u16, d: u32, rest: ir::Node) -> ir::Node {
    ir::insert(
        seq![
            ir::assign(v, ir::leaf(ir::Head::Null)),
            ir::call(
                data::def_from(defs, "OpDatabase"@, 0),
                seq![ir::var(v), ir::int_value(defs[d as int].known_type as i32)],
            ),
            rest,
        ],
    )
}

fn allocate(data: &Data, v: u16, d: u32, rest: Value) -> (out: Value)
    requires
        data.definitions.len() <= u32::MAX,
        d < data.definitions.len(),
    ensures
        out@ == allocated(data.definitions@, v, d, rest@),
{
    let kind: i32 = data.definitions[d as usize].known_type as i32;
    let mint: Value = ir::make_call(
        data.def_nr("OpDatabase"),
        ir::list2(Value::Var(v), Value::Int(kind)),
    );
    ir::make_insert(ir::list3(ir::make_assign(v, Value::Null), mint, rest))
}

/// What the assignment `v op value` of a boxed scalar becomes; `None` where it is
/// left to the general rules.
pub open spec fn assigned(
    defs: Seq<Definition>,
    vars: Seq<data::VarView>,
    v: u16,
    op: Seq<char>,
    value: ir::Node,
) -> Option<ir::Node> {
    if op != "="@ || v >= vars.len() {
        None
    } else {
        match held_type(defs, vars[v as int].tp) {
            Some(inner) => match accessor(inner) {
                Some((name, low)) => {
                    let write = ir::call(
                        operator(defs, "OpSet"@, name),
                        place(ir::var(v), low).push(value),
                    );
                    Some(
                        if vars[v as int].defined {
                            write
                        } else {
                            allocated(defs, v, cell_of(vars[v as int].tp, defs)->0, write)
                        },
                    )
                },
                None => None,
            },
            None => None,
        }
    }
}

/// What the assignment `v op value` of a boxed scalar becomes: a write into its
/// cell, after the allocation of the cell where this is the first one.
pub fn boxed_scalar_assign_rewrite(
    data: &Data,
    vars: &Function,
    v: u16,
    op: &str,
    value: Value,
) -> (out: Option<Value>)
    requires
        data.definitions.len() <= u32::MAX,
    ensures
        match out {
            Some(x) => assigned(data.definitions@, vars@.vars, v, op@, value@) == Some(x@),
            None => assigned(data.definitions@, vars@.vars, v, op@, value@) is None,
        },
{
    if !text::same(op, "=") || (v as usize) >= vars.variables.len() {
        return None;
    }
    let var: &Variable = &vars.variables[v as usize];
    assert(vars@.vars[v as int] == var@);
    match held(data, &var.tp) {
        Some(inner) => match accessor_of(&inner) {
            Some((name, low)) => {
                let op_nr: u32 = data.def_nr(text::join("OpSet", name).as_str());
                let mut args: Vec<Value> = make_place(Value::Var(v), low);
                ir::put(&mut args, value);
                let write: Value = ir::make_call(op_nr, args);
                if var.defined {
                    Some(write)
                } else {
                    match boxed_cell_def(&var.tp, data) {
                        Some(d) => Some(allocate(data, v, d, write)),
                        None => None,
                    }
                }
            },
            None => None,
        },
        None => None,
    }
}

/// The variable whose cell the left side of an assignment reads: the read of a
/// record field at position 0.
pub open spec fn read_cell(defs: Seq<Definition>, lhs: ir::Node) -> Option<u16> {
    let m = ir::unspan(lhs);
    match m.head {
        ir::Head::Call(d) => if m.kids.len() >= 2 && text::is_prefix("OpGet"@, name_of(defs, d))
            && ir::unspan(m.kids[1]).head == ir::Head::Int(0) {
            match ir::unspan(m.kids[0]).head {
                ir::Head::Var(v) => Some(v),
                _ => None,
            }
        } else {
            None
        },
        _ => None,
    }
}

fn extract_boxed_var_from_lhs(data: &Data, lhs: &Value) -> (v: Option<u16>)
    ensures
        v == read_cell(data.definitions@, lhs@),
{
    let m: &Value = lhs.unspan();
    proof {
        ir::shape(*m);
    }
    match m {
        Value::Call(d, args) => {
            proof {
                ir::view_at(args@);
            }
            if args.len() < 2 || !text::starts_with(def_name(data, *d), "OpGet") {
                return None;
            }
            match args[1].unspan() {
                Value::Int(at) => {
                    if *at != 0 {
                        return None;
                    }
                },
                _ => {
                    return None;
                },
            }
            match args[0].unspan() {
                Value::Var(v) => Some(*v),
                _ => None,
            }
        },
        _ => None,
    }
}

/// The variable whose cell has to be allocated before an assignment to `lhs`.
pub open spec fn needs_cell(
    defs: Seq<Definition>,
    vars: Seq<data::VarView>,
    lhs: ir::Node,
) -> Option<u16> {
    match read_cell(defs, lhs) {
        Some(v) => if v < vars.len() && !vars[v as int].defined && (cell_of(
            vars[v as int].tp,
            defs,
        ) matches Some(d) && d < defs.len()) {
            Some(v)
        } else {
            None
        },
        None => None,
    }
}

/// Put the allocation of a cell before the first write into it, and note that the
/// variable has its cell.
pub fn maybe_prepend_cell_alloc(
    data: &Data,
    vars: &mut Function,
    result: Value,
    lhs: &Value,
) -> (out: Value)
    requires
        data.definitions.len() <= u32::MAX,
    ensures
        match needs_cell(data.definitions@, old(vars)@.vars, lhs@) {
            Some(v) => {
                &&& out@ == allocated(
                    data.definitions@,
                    v,
                    cell_of(old(vars)@.vars[v as int].tp, data.definitions@)->0,
                    result@,
                )
                &&& final(vars)@ == data::with_var(
                    old(vars)@,
                    v,
                    (data::VarView { defined: true, ..old(vars)@.vars[v as int] }),
                )
            },
            None => out@ == result@ && *final(vars) == *old(vars),
        },
{
    match extract_boxed_var_from_lhs(data, lhs) {
        Some(v) => {
            if (v as usize) >= vars.variables.len() || vars.variables[v as usize].defined {
                return result;
            }
            assert(vars@.vars[v as int] == vars.variables@[v as int]@);
            match boxed_cell_def(&vars.variables[v as usize].tp, data) {
                Some(d) => {
                    if (d as usize) < data.definitions.len() {
                        vars.mark_defined(v);
                        allocate(data, v, d, result)
                    } else {
                        result
                    }
                },
                None => result,
            }
        },
        None => result,
    }
}

/// Give variable `v` the type of what is assigned to it, unless it is a boxed
/// scalar that is assigned what its cell holds.
pub fn change_var_type(data: &Data, vars: &mut Function, v: u16, tp: &Type)
    requires
        v < old(vars).variables.len(),
    ensures
        final(vars)@ == if held_type(data.definitions@, old(vars)@.vars[v as int].tp) == Some(
            value_type(tp@),
        ) {
            old(vars)@
        } else {
            data::with_var(
                old(vars)@,
                v,
                (data::VarView { tp: tp@, ..old(vars)@.vars[v as int] }),
            )
        },
        final(vars).variables.len() == old(vars).variables.len(),
{
    assert(vars@.vars[v as int] == vars.variables@[v as int]@);
    match held(data, &vars.variables[v as usize].tp) {
        Some(inner) => {
            if inner.same(&cell_value_type(tp)) {
                return;
            }
        },
        None => {},
    }
    vars.set_type(v, tp.copy());
}

/// Storing a type changes whether a value of it may be absent neither way.
proof fn stored_base(t: types::Ty)
    ensures
        types::base(value_type(t)) == value_type(types::base(t)),
        types::is_optional(value_type(t)) == types::is_optional(t),
    decreases t,
{
    match t {
        types::Ty::Optional(inner) => stored_base(*inner),
        _ => {},
    }
}

/// Captures whose values are stored alike share a cell.
pub proof fn stored_alike_share_a_cell(a: types::Ty, b: types::Ty, defs: Seq<Definition>)
    requires
        value_type(a) == value_type(b),
    ensures
        cell_name(a, defs) == cell_name(b, defs),
{
    stored_base(a);
    stored_base(b);
}

} // verus!
