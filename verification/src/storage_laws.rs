//! What is read of storage is what was written there.

use crate::closure_laws;
use crate::comprehensions;
use crate::data::{self, Definition};
use crate::elements;
use crate::ir;
use crate::records;
use crate::schema_laws;
use crate::text;
use crate::types::{self, DepSpace, IntegerSpec};
use crate::vector_store;
use vstd::prelude::*;

verus! {

/// Whether the operators of a kind are there.
pub open spec fn has_kind(defs: Seq<Definition>, read: Seq<char>, written: Seq<char>) -> bool {
    &&& defs.len() <= u32::MAX
    &&& data::def_from(defs, "OpGet"@ + read, 0) != u32::MAX
    &&& data::def_from(defs, "OpSet"@ + written, 0) != u32::MAX
}

/// A scalar is written to a position of a record by the operator of the same kind, at the
/// same place and against the same bound as it is read.
pub proof fn a_scalar_is_read_where_it_is_written(
    defs: Seq<Definition>,
    t: types::Ty,
    record: ir::Node,
    position: u16,
    value: ir::Node,
)
    requires
        closure_laws::kind_of(t).len() > 0,
        has_kind(defs, closure_laws::kind_of(t), closure_laws::kind_of(t)),
    ensures
        ({
            let kind = closure_laws::kind_of(t);
            let read = records::read_at(defs, t, record, position);
            let write = records::written_at(defs, t, record, position, value);
            &&& closure_laws::calls_named(defs, read, "OpGet"@ + kind)
            &&& closure_laws::calls_named(defs, write, "OpSet"@ + kind)
            &&& read.kids == match closure_laws::least_of(t) {
                Some(least) => seq![
                    record,
                    ir::int_value(position as i32),
                    ir::int_value(least),
                ],
                None => seq![record, ir::int_value(position as i32)],
            }
            &&& write.kids == read.kids.push(value)
        }),
{
    let kind = closure_laws::kind_of(t);
    data::found_definition(defs, "OpGet"@ + kind, 0);
    data::found_definition(defs, "OpSet"@ + kind, 0);
    closure_laws::kinds_are_accessed(t);
}

/// A share is written as the share that it is read as, and any other record is copied to
/// where it is read.
pub proof fn a_record_is_read_where_it_is_written(
    defs: Seq<Definition>,
    d: u32,
    deps: types::DepList,
    record: ir::Node,
    position: u16,
    value: ir::Node,
)
    requires
        defs.len() <= u32::MAX,
        vector_store::op(defs, "OpGetDbRef"@) != u32::MAX,
        vector_store::op(defs, "OpSetDbRef"@) != u32::MAX,
        vector_store::op(defs, "OpGetField"@) != u32::MAX,
        vector_store::op(defs, "OpCopyRecord"@) != u32::MAX,
    ensures
        ({
            let t = types::Ty::Reference(d, deps);
            let read = records::read_at(defs, t, record, position);
            let write = records::written_at(defs, t, record, position, value);
            let known = ir::int_value(elements::known_of(defs, d) as i32);
            if deps.space == DepSpace::Share {
                &&& closure_laws::calls_named(defs, read, "OpGetDbRef"@)
                &&& closure_laws::calls_named(defs, write, "OpSetDbRef"@)
                &&& read.kids == seq![record, ir::int_value(position as i32)]
                &&& write.kids == read.kids.push(value)
            } else {
                &&& closure_laws::calls_named(defs, read, "OpGetField"@)
                &&& closure_laws::calls_named(defs, write, "OpCopyRecord"@)
                &&& read.kids == seq![record, ir::int_value(position as i32), known]
                &&& write.kids == seq![value, read, known]
            }
        }),
{
    data::found_definition(defs, "OpGetDbRef"@, 0);
    data::found_definition(defs, "OpSetDbRef"@, 0);
    data::found_definition(defs, "OpGetField"@, 0);
    data::found_definition(defs, "OpCopyRecord"@, 0);
    assert(types::base(types::Ty::Reference(d, deps)) == types::Ty::Reference(d, deps));
}

/// The kind by which an element of a narrow integer type is read.
pub open spec fn narrow_name(spec: IntegerSpec, absent: bool) -> Seq<char> {
    match (types::integer_width(spec, absent), absent) {
        (1, true) => "ByteNullable"@,
        (1, false) => "Byte"@,
        (2, true) => "Short"@,
        (2, false) => if spec.forced_size == 2 {
            "ShortRaw"@
        } else {
            "ShortFull"@
        },
        _ => if spec.max as int >= 0x8000_0000 {
            "Int4Raw"@
        } else {
            "Int4"@
        },
    }
}

/// The kind by which such an element is written: what is read as the whole of two bytes is
/// written as what the declaration asks two bytes for.
pub open spec fn narrow_target(spec: IntegerSpec, absent: bool) -> Seq<char> {
    if types::integer_width(spec, absent) == 2 && !absent {
        "ShortRaw"@
    } else {
        narrow_name(spec, absent)
    }
}

/// An element of one, two or four bytes is read by the operator of its width and written by
/// that of the same width, at the same place; one of less than four bytes is stored against
/// the least value of its range.  Elements of any other width are left to other operators.
pub proof fn a_narrow_element_is_read_as_it_is_written(
    defs: Seq<Definition>,
    spec: IntegerSpec,
    absent: bool,
    elm: ir::Node,
    value: ir::Node,
)
    requires
        has_kind(defs, narrow_name(spec, absent), narrow_target(spec, absent)),
    ensures
        ({
            let t = if absent {
                types::Ty::Optional(Box::new(types::Ty::Integer(spec)))
            } else {
                types::Ty::Integer(spec)
            };
            let w = types::integer_width(spec, absent);
            let read = elements::narrow_read(defs, t, elm);
            let write = elements::narrow_written(defs, t, elm, value);
            if w == 1 || w == 2 || w == 4 {
                &&& read matches Some(r) && closure_laws::calls_named(
                    defs,
                    r,
                    "OpGet"@ + narrow_name(spec, absent),
                ) && r.kids == if w < 4 {
                    seq![elm, ir::int_value(0), ir::int_value(spec.min)]
                } else {
                    seq![elm, ir::int_value(0)]
                }
                &&& write matches Some(m) && closure_laws::calls_named(
                    defs,
                    m,
                    "OpSet"@ + narrow_target(spec, absent),
                ) && m.kids == (read->0).kids.push(value)
            } else {
                read is None && write is None
            }
        }),
{
    data::found_definition(defs, "OpGet"@ + narrow_name(spec, absent), 0);
    data::found_definition(defs, "OpSet"@ + narrow_target(spec, absent), 0);
}

/// The bytes that an element is stored in, and the number that they hold: what is stored in
/// four bytes or fewer is stored against the least value of its range.
pub open spec fn stored_as(spec: IntegerSpec, absent: bool, x: int) -> (u8, int) {
    let w = types::integer_width(spec, absent);
    (
        w,
        if w <= 4 {
            x - spec.min
        } else {
            x
        },
    )
}

/// A vector of integers is refused as a part of another one exactly where the bytes of an
/// element do not mean the same in both.
pub proof fn a_part_is_refused_where_its_bytes_differ(
    d: IntegerSpec,
    s: IntegerSpec,
    d_deps: types::DepList,
    s_deps: types::DepList,
    x: int,
)
    ensures
        ({
            let dest = types::Ty::Vector(Box::new(types::Ty::Integer(d)), d_deps);
            let part = types::Ty::Vector(Box::new(types::Ty::Integer(s)), s_deps);
            elements::mixed(dest, part) is None <==> stored_as(d, false, x) == stored_as(
                s,
                false,
                x,
            )
        }),
        ({
            let dest = types::Ty::Vector(
                Box::new(types::Ty::Optional(Box::new(types::Ty::Integer(d)))),
                d_deps,
            );
            let part = types::Ty::Vector(Box::new(types::Ty::Integer(s)), s_deps);
            elements::mixed(dest, part) is None <==> stored_as(d, true, x) == stored_as(
                s,
                false,
                x,
            )
        }),
{
    let plain_d = types::Ty::Integer(d);
    let plain_s = types::Ty::Integer(s);
    let may_d = types::Ty::Optional(Box::new(plain_d));
    assert(types::base(plain_d) == plain_d);
    assert(types::base(plain_s) == plain_s);
    assert(types::base(may_d) == types::base(plain_d));
    let a = types::Ty::Vector(Box::new(plain_d), d_deps);
    let b = types::Ty::Vector(Box::new(plain_s), s_deps);
    let c = types::Ty::Vector(Box::new(may_d), d_deps);
    assert(types::base(a) == a);
    assert(types::base(b) == b);
    assert(types::base(c) == c);
}

/// The value of a pass of a comprehension is written to the element that was made for it: a
/// vector is copied into a slot that was cleared, an integer of one, two or four bytes is
/// written as one of that width, and any other scalar as one of its kind.
pub proof fn a_pass_writes_its_value_to_its_element(
    defs: Seq<Definition>,
    t: types::Ty,
    elm: u16,
    comp: u16,
    copy_tp: u16,
)
    requires
        defs.len() <= u32::MAX,
        vector_store::op(defs, "OpSetInt4"@) != u32::MAX,
        vector_store::op(defs, "OpCopyRecord"@) != u32::MAX,
        t matches types::Ty::Integer(spec) ==> has_kind(
            defs,
            narrow_name(spec, false),
            narrow_target(spec, false),
        ),
        closure_laws::kind_of(t).len() > 0 ==> has_kind(
            defs,
            closure_laws::kind_of(t),
            closure_laws::kind_of(t),
        ),
        t is Vector || closure_laws::kind_of(t).len() > 0,
        !(t is Optional),
    ensures
        ({
            let s = comprehensions::element_written(defs, t, elm, comp, copy_tp);
            let w = s.last();
            &&& s.len() > 0
            &&& t is Vector ==> s.len() == 2 && closure_laws::calls_named(defs, s[0], "OpSetInt4"@) && s[0].kids
                == seq![ir::var(elm), ir::int_value(0), ir::int_value(0)] && closure_laws::calls_named(
                defs,
                w,
                "OpCopyRecord"@,
            ) && w.kids == seq![ir::var(comp), ir::var(elm), ir::int_value(copy_tp as i32)]
            &&& !(t is Vector) ==> s.len() == 1 && w.kids.len() >= 3 && w.kids[0] == ir::var(elm)
                && w.kids[1] == ir::int_value(0) && w.kids.last() == ir::var(comp)
            &&& match t {
                types::Ty::Integer(spec) => match types::integer_width(spec, false) {
                    1 | 2 | 4 => closure_laws::calls_named(defs, w, "OpSet"@ + narrow_target(spec, false)),
                    _ => closure_laws::calls_named(defs, w, "OpSet"@ + closure_laws::kind_of(t)),
                },
                types::Ty::Vector(_, _) => true,
                _ => closure_laws::calls_named(defs, w, "OpSet"@ + closure_laws::kind_of(t)),
            }
        }),
{
    data::found_definition(defs, "OpSetInt4"@, 0);
    data::found_definition(defs, "OpCopyRecord"@, 0);
    let s = comprehensions::element_written(defs, t, elm, comp, copy_tp);
    match t {
        types::Ty::Vector(_, _) => {},
        types::Ty::Integer(spec) => {
            a_narrow_element_is_read_as_it_is_written(
                defs,
                spec,
                false,
                ir::var(elm),
                ir::var(comp),
            );
            a_scalar_is_read_where_it_is_written(defs, t, ir::var(elm), 0, ir::var(comp));
        },
        _ => {
            a_scalar_is_read_where_it_is_written(defs, t, ir::var(elm), 0, ir::var(comp));
        },
    }
}

/// A vector that gets a record of its own depends on it: the record is a new variable of the
/// compiler's, named as what backs a vector, and of the type that holds the vector.  It is not
/// released on its own where the variable may hold what was handed in; no other variable
/// changes.
pub proof fn a_vector_depends_on_its_record(
    f: data::FnView,
    v: u16,
    h: vector_store::Holder,
    guarded: bool,
    x: int,
)
    requires
        v < f.vars.len() < u16::MAX,
        schema_laws::carries_dependencies(f.vars[v as int].tp),
        0 <= x < f.vars.len(),
    ensures
        ({
            let (g, db) = vector_store::with_record(f, v, h, guarded);
            let record = g.vars[db as int];
            &&& db == f.vars.len() && g.vars.len() == f.vars.len() + 1
            &&& record.compiler_generated && record.tp == types::Ty::Reference(
                h.def,
                types::no_deps(),
            )
            &&& text::is_prefix("__vdb_"@, record.name)
            &&& record.skip_free <==> f.vars[v as int].rebind_orig is Some
            &&& types::depend(g.vars[v as int].tp).contains(db)
            &&& x != v ==> g.vars[x] == f.vars[x]
        }),
{
    let db = f.vars.len() as u16;
    let tp = types::Ty::Reference(h.def, types::no_deps());
    let f1 = data::backed(f, tp);
    a_backing_is_added(f, tp, x);
    a_backing_is_added(f, tp, v as int);
    let rebound = f.vars[v as int].rebind_orig is Some;
    let f2 = marked(f1, db, rebound);
    a_mark_is_set(f1, db, rebound, x);
    a_mark_is_set(f1, db, rebound, v as int);
    schema_laws::a_type_depends_on_one_more(f.vars[v as int].tp, db, db);
    let f3 = data::with_depend(f2, v, db);
    a_dependency_is_added(f2, v, db, x);
    a_dependency_is_added(f2, v, db, db as int);
    if guarded {
        let g = data::with_var(
            f3,
            db,
            data::VarView { inline_ref: true, ..f3.vars[db as int] },
        );
        assert(vector_store::with_record(f, v, h, guarded) == (g, db));
        assert(g.vars[v as int] == f3.vars[v as int]);
        assert(g.vars[x] == f3.vars[x]);
    } else {
        assert(vector_store::with_record(f, v, h, guarded) == (f3, db));
    }
}

spec fn marked(f: data::FnView, db: u16, rebound: bool) -> data::FnView {
    if rebound {
        let s = data::with_var(f, db, data::VarView { skip_free: true, ..f.vars[db as int] });
        data::with_var(s, db, data::VarView { inline_ref: true, ..s.vars[db as int] })
    } else {
        f
    }
}

proof fn a_mark_is_set(f: data::FnView, db: u16, rebound: bool, x: int)
    requires
        db < f.vars.len(),
        0 <= x < f.vars.len(),
    ensures
        ({
            let g = marked(f, db, rebound);
            let was = f.vars[db as int];
            let now = g.vars[db as int];
            &&& g.vars.len() == f.vars.len()
            &&& x != db ==> g.vars[x] == f.vars[x]
            &&& now.name == was.name && now.tp == was.tp && now.compiler_generated
                == was.compiler_generated
            &&& now.skip_free == (was.skip_free || rebound)
        }),
{
    if rebound {
        let one = data::VarView { skip_free: true, ..f.vars[db as int] };
        let s = data::with_var(f, db, one);
        assert(s.vars[db as int] == one);
        let two = data::VarView { inline_ref: true, ..one };
        let g = data::with_var(s, db, two);
        assert(g.vars[db as int] == two);
        assert(marked(f, db, rebound) == g);
    }
}

proof fn a_dependency_is_added(f: data::FnView, v: u16, db: u16, x: int)
    requires
        v < f.vars.len(),
        0 <= x < f.vars.len(),
    ensures
        ({
            let g = data::with_depend(f, v, db);
            &&& g.vars.len() == f.vars.len()
            &&& x != v ==> g.vars[x] == f.vars[x]
            &&& g.vars[v as int].tp == types::depending_on(f.vars[v as int].tp, db)
        }),
{
}

proof fn a_backing_is_added(f: data::FnView, tp: types::Ty, x: int)
    requires
        0 <= x < f.vars.len(),
    ensures
        ({
            let g = data::backed(f, tp);
            let record = g.vars[f.vars.len() as int];
            &&& g.vars.len() == f.vars.len() + 1
            &&& g.vars[x] == f.vars[x]
            &&& record.compiler_generated && record.tp == tp && !record.skip_free
            &&& text::is_prefix("__vdb_"@, record.name)
        }),
{
    let number = text::decimal_of(data::next_number(f.backings) as nat);
    assert(("__vdb_"@ + number).take("__vdb_"@.len() as int) =~= "__vdb_"@);
}

/// A literal that makes a record for its vector has both the vector and the element that is
/// being filled depend on it.
pub proof fn an_element_depends_on_the_record_too(
    f: data::FnView,
    v: u16,
    elm: u16,
    h: vector_store::Holder,
    x: int,
)
    requires
        v < f.vars.len() < u16::MAX,
        elm < f.vars.len(),
        v != elm,
        schema_laws::carries_dependencies(f.vars[v as int].tp),
        schema_laws::carries_dependencies(f.vars[elm as int].tp),
        0 <= x < f.vars.len(),
    ensures
        ({
            let (g, db) = vector_store::with_new(f, v, elm, h);
            &&& db == f.vars.len() && g.vars.len() == f.vars.len() + 1
            &&& types::depend(g.vars[v as int].tp).contains(db)
            &&& types::depend(g.vars[elm as int].tp).contains(db)
            &&& x != v && x != elm ==> g.vars[x] == f.vars[x]
        }),
{
    let db = f.vars.len() as u16;
    schema_laws::a_type_depends_on_one_more(f.vars[v as int].tp, db, db);
    schema_laws::a_type_depends_on_one_more(f.vars[elm as int].tp, db, db);
}

} // verus!
