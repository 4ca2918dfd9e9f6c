//! Collection literals: the statements that build one.

use crate::data::{self, Data, Definition, Function};
use crate::elements;
use crate::ir::{self, Value};
use crate::places;
use crate::records;
use crate::schema::{self, Parts, Stores};
use crate::types::{self, Type};
use crate::vector_store::{self, Holder};
use vstd::prelude::*;

verus! {

/// One element of a literal: its value, whether the value is a record that a call
/// made for it, whether it is absent, and for the members of a tuple the statements
/// that write those that take more than a plain write.
#[derive(Debug)]
pub struct Item {
    pub value: Value,
    pub fresh: bool,
    pub null: bool,
    pub wraps: Vec<Option<Vec<Value>>>,
}

/// One element of a literal as a value.
pub struct ItemView {
    pub value: ir::Node,
    pub fresh: bool,
    pub null: bool,
    pub wraps: Seq<Option<Seq<ir::Node>>>,
}

/// Optional lists of values as values.
pub open spec fn wrap_views(s: Seq<Option<Vec<Value>>>) -> Seq<Option<Seq<ir::Node>>> {
    Seq::new(
        s.len(),
        |i: int|
            match s[i] {
                Some(v) => Some(ir::views(v@)),
                None => None,
            },
    )
}

impl Item {
    pub open spec fn view(&self) -> ItemView {
        ItemView {
            value: self.value@,
            fresh: self.fresh,
            null: self.null,
            wraps: wrap_views(self.wraps@),
        }
    }
}

/// The elements of a list as values.
pub open spec fn item_views(s: Seq<Item>) -> Seq<ItemView> {
    Seq::new(s.len(), |i: int| s[i]@)
}

/// The field of a record that a collection is: the record, its stored type and the
/// number of the field.
#[derive(Debug)]
pub struct FieldOwner {
    pub record: Value,
    pub parent: u16,
    pub field: u16,
}

/// Where a literal is built: the definition and type of its elements, the variable
/// that holds one while it is filled, the collection or the field that owns it, the
/// stored type of the collection and the one that elements are copied by.
pub struct Site {
    pub defs: Seq<Definition>,
    pub stores: Stores,
    pub in_t: types::Ty,
    pub record: u32,
    pub elm: u16,
    pub container: ir::Node,
    pub owner: Option<(ir::Node, u16, u16)>,
    pub known: u16,
    pub copy_tp: u16,
    pub first_pass: bool,
}

/// The call that makes room for an element.
pub open spec fn opened(e: Site) -> ir::Node {
    let op = vector_store::op(e.defs, "OpNewRecord"@);
    match e.owner {
        Some((record, parent, field)) => ir::call(
            op,
            seq![record, ir::int_value(parent as i32), ir::int_value(field as i32)],
        ),
        None => ir::call(
            op,
            seq![e.container, ir::int_value(e.known as i32), ir::int_value(0xffff)],
        ),
    }
}

/// The call that puts a filled element in its place.
pub open spec fn finished(e: Site) -> ir::Node {
    let op = vector_store::op(e.defs, "OpFinishRecord"@);
    match e.owner {
        Some((record, parent, field)) => ir::call(
            op,
            seq![
                record,
                ir::var(e.elm),
                ir::int_value(parent as i32),
                ir::int_value(field as i32),
            ],
        ),
        None => ir::call(
            op,
            seq![
                e.container,
                ir::var(e.elm),
                ir::int_value(e.known as i32),
                ir::int_value(0xffff),
            ],
        ),
    }
}

/// The write of a number to the start of the element.
pub open spec fn slot_written(e: Site, value: ir::Node) -> ir::Node {
    ir::call(
        vector_store::op(e.defs, "OpSetInt4"@),
        seq![ir::var(e.elm), ir::int_value(0), value],
    )
}

/// The statements that write the first `k` members of a tuple.
pub open spec fn members(e: Site, item: ItemView, k: int) -> Seq<ir::Node>
    decreases k,
{
    if k <= 0 {
        Seq::empty()
    } else {
        let before = members(e, item, k - 1);
        if !e.first_pass && k - 1 < item.wraps.len() && item.wraps[k - 1] is Some {
            before + item.wraps[k - 1]->0
        } else {
            before.push(
                records::field_written(
                    e.defs,
                    e.stores,
                    e.record,
                    k - 1,
                    ir::var(e.elm),
                    item.value.kids[k - 1],
                ),
            )
        }
    }
}

/// Elements that are records of their own.
pub open spec fn is_heap(t: types::Ty) -> bool {
    match t {
        types::Ty::Reference(_, _) | types::Ty::Vector(_, _) => true,
        types::Ty::Enum(_, fields, _) => fields,
        _ => false,
    }
}

/// The mark that a copied record is released by the copy.
pub open spec fn copy_mark(fresh: bool) -> i32 {
    if fresh {
        0x8000
    } else {
        0
    }
}

/// The statements that fill the element.
pub open spec fn filled(e: Site, f: data::FnView, item: ItemView) -> (data::FnView, Seq<ir::Node>) {
    if is_heap(e.in_t) {
        if item.value.head is Insert {
            (f, item.value.kids)
        } else {
            (
                f,
                seq![
                    ir::call(
                        vector_store::op(e.defs, "OpCopyRecord"@),
                        seq![
                            item.value,
                            ir::var(e.elm),
                            ir::int_value((e.copy_tp as i32) | copy_mark(item.fresh)),
                        ],
                    ),
                ],
            )
        }
    } else if item.value.head is Tuple {
        (f, members(e, item, item.value.kids.len() as int))
    } else if item.value.head is Insert {
        (f, item.value.kids)
    } else if item.null && types::collection(e.in_t) {
        (f, seq![slot_written(e, ir::int_value(0))])
    } else {
        match elements::narrow_written(e.defs, e.in_t, ir::var(e.elm), item.value) {
            Some(write) => (f, seq![write]),
            None => if e.in_t is Function {
                let (g, number, before) = records::slot_number(f, item.value, e.in_t);
                (g, before.push(slot_written(e, number)))
            } else {
                (
                    f,
                    seq![records::written_at(e.defs, e.in_t, ir::var(e.elm), 0, item.value)],
                )
            },
        }
    }
}

/// The statements that add one element: a repetition copies the last element, and
/// any other makes room, fills it and puts it in its place.
pub open spec fn lowered(e: Site, f: data::FnView, item: ItemView) -> (
    data::FnView,
    Seq<ir::Node>,
) {
    if item.value.head is Return && item.value.kids.len() > 0 {
        (
            f,
            seq![
                ir::call(
                    vector_store::op(e.defs, "OpAppendCopy"@),
                    seq![e.container, item.value.kids[0], ir::int_value(e.known as i32)],
                ),
            ],
        )
    } else {
        let (g, body) = filled(e, f, item);
        let start = seq![ir::assign(e.elm, opened(e))];
        let clear = if !e.first_pass && e.in_t is Vector {
            seq![slot_written(e, ir::int_value(0))]
        } else {
            Seq::empty()
        };
        (g, start + clear + body + seq![finished(e)])
    }
}

/// The statements that add the first `k` elements.
pub open spec fn lowered_all(e: Site, f: data::FnView, items: Seq<ItemView>, k: int) -> (
    data::FnView,
    Seq<ir::Node>,
)
    decreases k,
{
    if k <= 0 {
        (f, Seq::empty())
    } else {
        let (g, before) = lowered_all(e, f, items, k - 1);
        let (h, more) = lowered(e, g, items[k - 1]);
        (h, before + more)
    }
}

struct Builder<'a> {
    data: &'a Data,
    stores: &'a Stores,
    in_t: &'a Type,
    record: u32,
    elm: u16,
    container: Value,
    owner: Option<&'a FieldOwner>,
    known: u16,
    copy_tp: u16,
    first_pass: bool,
}

impl<'a> Builder<'a> {
    spec fn site(&self) -> Site {
        Site {
            defs: self.data.definitions@,
            stores: *self.stores,
            in_t: self.in_t@,
            record: self.record,
            elm: self.elm,
            container: self.container@,
            owner: match self.owner {
                Some(o) => Some((o.record@, o.parent, o.field)),
                None => None,
            },
            known: self.known,
            copy_tp: self.copy_tp,
            first_pass: self.first_pass,
        }
    }

    spec fn sound(&self) -> bool {
        self.data.definitions.len() <= u32::MAX
    }

    fn open(&self) -> (v: Value)
        requires
            self.sound(),
        ensures
            v@ == opened(self.site()),
    {
        match self.owner {
            Some(o) => vector_store::cl(
                self.data,
                "OpNewRecord",
                ir::list3(
                    o.record.copy(),
                    Value::Int(o.parent as i32),
                    Value::Int(o.field as i32),
                ),
            ),
            None => vector_store::cl(
                self.data,
                "OpNewRecord",
                ir::list3(
                    self.container.copy(),
                    Value::Int(self.known as i32),
                    Value::Int(0xffff),
                ),
            ),
        }
    }

    fn finish(&self) -> (v: Value)
        requires
            self.sound(),
        ensures
            v@ == finished(self.site()),
    {
        match self.owner {
            Some(o) => vector_store::cl(
                self.data,
                "OpFinishRecord",
                ir::list4(
                    o.record.copy(),
                    Value::Var(self.elm),
                    Value::Int(o.parent as i32),
                    Value::Int(o.field as i32),
                ),
            ),
            None => vector_store::cl(
                self.data,
                "OpFinishRecord",
                ir::list4(
                    self.container.copy(),
                    Value::Var(self.elm),
                    Value::Int(self.known as i32),
                    Value::Int(0xffff),
                ),
            ),
        }
    }

    fn write_slot(&self, value: Value) -> (v: Value)
        requires
            self.sound(),
        ensures
            v@ == slot_written(self.site(), value@),
    {
        vector_store::cl(
            self.data,
            "OpSetInt4",
            ir::list3(Value::Var(self.elm), Value::Int(0), value),
        )
    }

    fn write_members(&self, item: &Item, values: &Vec<Value>) -> (s: Vec<Value>)
        requires
            self.sound(),
            item@.value.kids == ir::views(values@),
        ensures
            ir::views(s@) == members(self.site(), item@, values.len() as int),
    {
        proof {
            ir::view_at(values@);
        }
        let mut s: Vec<Value> = Vec::new();
        let mut i: usize = 0;
        assert(ir::views(s@) =~= Seq::<ir::Node>::empty());
        while i < values.len()
            invariant
                i <= values.len(),
                self.sound(),
                item@.value.kids == ir::views(values@),
                ir::views(values@).len() == values.len(),
                ir::views(s@) == members(self.site(), item@, i as int),
            decreases values.len() - i,
        {
            let mut wrapped: bool = false;
            if !self.first_pass && i < item.wraps.len() {
                assert(item@.wraps[i as int] == (match item.wraps@[i as int] {
                    Some(v) => Some(ir::views(v@)),
                    None => None,
                }));
                match &item.wraps[i] {
                    Some(steps) => {
                        wrapped = true;
                        ir::put_all(&mut s, ir::copy_all(steps));
                    },
                    None => {},
                }
            }
            if !wrapped {
                ir::put(
                    &mut s,
                    records::set_field(
                        self.data,
                        self.stores,
                        self.record,
                        i,
                        Value::Var(self.elm),
                        values[i].copy(),
                    ),
                );
            }
            i = i + 1;
        }
        s
    }

    fn fill(&self, vars: &mut Function, item: &Item) -> (s: Vec<Value>)
        requires
            self.sound(),
            old(vars).variables.len() < u16::MAX,
        ensures
            (final(vars)@, ir::views(s@)) == filled(self.site(), old(vars)@, item@),
            final(vars).variables.len() <= old(vars).variables.len() + 1,
    {
        proof {
            ir::shape(item.value);
        }
        let heap: bool = match self.in_t {
            Type::Reference(_, _) | Type::Vector(_, _) => true,
            Type::Enum(_, fields, _) => *fields,
            _ => false,
        };
        if heap {
            return match &item.value {
                Value::Insert(steps) => ir::copy_all(steps),
                _ => self.copy_element(item),
            };
        }
        match &item.value {
            Value::Tuple(values) => {
                return self.write_members(item, values);
            },
            Value::Insert(steps) => {
                return ir::copy_all(steps);
            },
            _ => {},
        }
        self.fill_plain(vars, item)
    }

    fn copy_element(&self, item: &Item) -> (s: Vec<Value>)
        requires
            self.sound(),
        ensures
            ir::views(s@) == seq![
                ir::call(
                    vector_store::op(self.site().defs, "OpCopyRecord"@),
                    seq![
                        item@.value,
                        ir::var(self.elm),
                        ir::int_value((self.copy_tp as i32) | copy_mark(item.fresh)),
                    ],
                ),
            ],
    {
        let mark: i32 = if item.fresh {
            0x8000
        } else {
            0
        };
        ir::list1(
            vector_store::cl(
                self.data,
                "OpCopyRecord",
                ir::list3(
                    item.value.copy(),
                    Value::Var(self.elm),
                    Value::Int((self.copy_tp as i32) | mark),
                ),
            ),
        )
    }

    fn fill_plain(&self, vars: &mut Function, item: &Item) -> (s: Vec<Value>)
        requires
            self.sound(),
            old(vars).variables.len() < u16::MAX,
            !is_heap(self.in_t@),
            !(item@.value.head is Tuple),
            !(item@.value.head is Insert),
        ensures
            (final(vars)@, ir::views(s@)) == filled(self.site(), old(vars)@, item@),
            final(vars).variables.len() <= old(vars).variables.len() + 1,
    {
        if item.null && types::is_collection(self.in_t) {
            return ir::list1(self.write_slot(Value::Int(0)));
        }
        match elements::narrow_elm_write(
            self.in_t,
            Value::Var(self.elm),
            &item.value,
            self.data,
        ) {
            Some(write) => {
                return ir::list1(write);
            },
            None => {},
        }
        match self.in_t {
            Type::Function(_, _, _) => {
                let (number, before): (Value, Vec<Value>) = records::fn_ref_slot_dnr(
                    vars,
                    &item.value,
                    self.in_t,
                );
                let mut s: Vec<Value> = before;
                ir::put(&mut s, self.write_slot(number));
                s
            },
            _ => ir::list1(
                records::make_write(
                    self.data,
                    self.in_t,
                    Value::Var(self.elm),
                    0,
                    item.value.copy(),
                ),
            ),
        }
    }

    fn lower(&self, vars: &mut Function, item: &Item) -> (s: Vec<Value>)
        requires
            self.sound(),
            old(vars).variables.len() < u16::MAX,
        ensures
            (final(vars)@, ir::views(s@)) == lowered(self.site(), old(vars)@, item@),
            final(vars).variables.len() <= old(vars).variables.len() + 1,
    {
        match &item.value {
            Value::Return(times) => {
                assert(item@.value.kids[0] == times@);
                return ir::list1(
                    vector_store::cl(
                        self.data,
                        "OpAppendCopy",
                        ir::list3(
                            self.container.copy(),
                            times.copy(),
                            Value::Int(self.known as i32),
                        ),
                    ),
                );
            },
            _ => {},
        }
        proof {
            ir::shape(item.value);
        }
        let body: Vec<Value> = self.fill(vars, item);
        let mut s: Vec<Value> = ir::list1(ir::make_assign(self.elm, self.open()));
        let ghost start = ir::views(s@);
        if !self.first_pass {
            match self.in_t {
                Type::Vector(_, _) => {
                    ir::put(&mut s, self.write_slot(Value::Int(0)));
                },
                _ => {},
            }
        }
        let ghost clear = if !self.first_pass && self.in_t@ is Vector {
            seq![slot_written(self.site(), ir::int_value(0))]
        } else {
            Seq::empty()
        };
        assert(ir::views(s@) =~= start + clear);
        let ghost filling = ir::views(body@);
        ir::put_all(&mut s, body);
        ir::put(&mut s, self.finish());
        assert(ir::views(s@) =~= start + clear + filling + seq![finished(self.site())]);
        s
    }

    fn lower_all(&self, vars: &mut Function, items: &Vec<Item>) -> (s: Vec<Value>)
        requires
            self.sound(),
            old(vars).variables.len() + items.len() <= u16::MAX,
        ensures
            (final(vars)@, ir::views(s@)) == lowered_all(
                self.site(),
                old(vars)@,
                item_views(items@),
                items.len() as int,
            ),
            final(vars).variables.len() <= old(vars).variables.len() + items.len(),
    {
        let ghost first = vars@;
        let ghost all = item_views(items@);
        let n: usize = vars.variables.len();
        let mut s: Vec<Value> = Vec::new();
        let mut i: usize = 0;
        assert(ir::views(s@) =~= Seq::<ir::Node>::empty());
        while i < items.len()
            invariant
                i <= items.len(),
                self.sound(),
                all == item_views(items@),
                n + items.len() <= u16::MAX,
                vars.variables.len() <= n + i,
                (vars@, ir::views(s@)) == lowered_all(self.site(), first, all, i as int),
            decreases items.len() - i,
        {
            assert(all[i as int] == items@[i as int]@);
            let more: Vec<Value> = self.lower(vars, &items[i]);
            ir::put_all(&mut s, more);
            i = i + 1;
        }
        s
    }
}

/// The stored types and that of the collection that elements of a type are added
/// to: a vector of vectors whose slots are narrow is one level deeper.
pub open spec fn collection_type(
    s: Seq<schema::TypeView>,
    defs: Seq<Definition>,
    in_t: types::Ty,
    keyed: Option<u16>,
) -> (Seq<schema::TypeView>, u16) {
    let (more, elem) = match keyed {
        Some(kt) => (s, kt),
        None => elements::vector_stored(s, defs, in_t),
    };
    if in_t is Vector && schema::size_of(more, schema::content_of(more, elem)) < 4 {
        schema::registered(more, Parts::Vector, elem, ""@)
    } else {
        (more, elem)
    }
}

fn find_collection_type(
    stores: &mut Stores,
    data: &Data,
    in_t: &Type,
    keyed: Option<u16>,
) -> (kt: u16)
    requires
        old(stores).types.len() <= u16::MAX,
    ensures
        (final(stores)@, kt) == collection_type(
            old(stores)@,
            data.definitions@,
            in_t@,
            keyed,
        ),
        final(stores).types.len() <= u16::MAX,
{
    let elem: u16 = match keyed {
        Some(kt) => kt,
        None => elements::vector_of(stores, data, in_t),
    };
    match in_t {
        Type::Vector(_, _) => {
            let content: u16 = stores.content(elem);
            if stores.size(content) < 4 {
                stores.register(Parts::Vector, elem, "")
            } else {
                elem
            }
        },
        _ => elem,
    }
}

/// The stored type that elements are copied by.
pub open spec fn element_type(
    s: Seq<schema::TypeView>,
    defs: Seq<Definition>,
    in_t: types::Ty,
    record: u32,
    first_pass: bool,
) -> (Seq<schema::TypeView>, u16) {
    if first_pass {
        (s, u16::MAX)
    } else {
        match in_t {
            types::Ty::Vector(_, _) => elements::element_stored(s, defs, in_t),
            types::Ty::Reference(d, _) => (s, elements::known_of(defs, d)),
            _ => (s, elements::known_of(defs, record)),
        }
    }
}

fn find_element_type(
    stores: &mut Stores,
    data: &Data,
    in_t: &Type,
    record: u32,
    first_pass: bool,
) -> (kt: u16)
    requires
        old(stores).types.len() <= u16::MAX,
    ensures
        (final(stores)@, kt) == element_type(
            old(stores)@,
            data.definitions@,
            in_t@,
            record,
            first_pass,
        ),
        final(stores).types.len() <= u16::MAX,
{
    if first_pass {
        return u16::MAX;
    }
    match in_t {
        Type::Vector(_, _) => elements::vector_element_type(stores, data, in_t),
        Type::Reference(d, _) => elements::known_type(data, *d),
        _ => elements::known_type(data, record),
    }
}

/// The collection that a literal is built into, and whether it is a field: an
/// element of a vector is reached through its vector, a shared capture through its
/// read, and any other field through the record that owns it.
pub open spec fn target(
    defs: Seq<Definition>,
    val: ir::Node,
    parent: types::Ty,
    vec: u16,
    first_pass: bool,
) -> (ir::Node, bool) {
    let field = places::is_field_read(defs, val);
    let m = ir::unspan(val);
    if field && parent is Vector && m.kids.len() > 0 {
        (m.kids[0], false)
    } else if !field && !first_pass && places::is_capture_read(defs, val) {
        (val, false)
    } else if field {
        (m, true)
    } else {
        (ir::var(vec), false)
    }
}

fn find_target(
    data: &Data,
    val: &Value,
    parent: &Type,
    vec: u16,
    first_pass: bool,
) -> (r: (Value, bool))
    requires
        data.definitions.len() <= u32::MAX,
    ensures
        (r.0@, r.1) == target(data.definitions@, val@, parent@, vec, first_pass),
{
    let m: &Value = val.unspan();
    proof {
        ir::shape(*m);
    }
    if places::is_field(data, val) {
        let in_vector: bool = match parent {
            Type::Vector(_, _) => true,
            _ => false,
        };
        if in_vector {
            match m {
                Value::Call(_, args) => {
                    proof {
                        ir::view_at(args@);
                    }
                    if args.len() > 0 {
                        return (args[0].copy(), false);
                    }
                },
                _ => {},
            }
        }
        return (m.copy(), true);
    }
    if !first_pass && places::is_captured_dbref(data, val) {
        (val.copy(), false)
    } else {
        (Value::Var(vec), false)
    }
}

/// The type of the keyed collection that a literal is built into, where it is one:
/// that of the variable, or of the shared capture.
pub open spec fn keyed_source(
    defs: Seq<Definition>,
    f: data::FnView,
    val: ir::Node,
    parent: types::Ty,
    vec: u16,
    first_pass: bool,
) -> Option<types::Ty> {
    if places::is_field_read(defs, val) || first_pass {
        None
    } else if vec < f.vars.len() {
        Some(f.vars[vec as int].tp)
    } else if places::is_capture_read(defs, val) {
        Some(parent)
    } else {
        None
    }
}

/// The stored types, and that of the keyed collection a literal is built into.
pub open spec fn keyed_target(
    s: Seq<schema::TypeView>,
    defs: Seq<Definition>,
    source: Option<types::Ty>,
) -> (Seq<schema::TypeView>, Option<u16>) {
    match source {
        Some(t) => elements::keyed_stored(s, defs, t),
        None => (s, None),
    }
}

/// What a literal is built with: the stored types, that of the collection and the
/// one its elements are copied by.  Nothing is looked up for a literal without
/// elements.
pub open spec fn build_types(
    s: Seq<schema::TypeView>,
    defs: Seq<Definition>,
    source: Option<types::Ty>,
    in_t: types::Ty,
    record: u32,
    n: nat,
    first_pass: bool,
) -> (Seq<schema::TypeView>, u16, u16) {
    let (s1, keyed) = keyed_target(s, defs, source);
    if n == 0 {
        (s1, 0, 0)
    } else {
        let (s2, known) = collection_type(s1, defs, in_t, keyed);
        let (s3, copy_tp) = element_type(s2, defs, in_t, record, first_pass);
        (s3, known, copy_tp)
    }
}

/// A literal: where it is built, the type of what it is part of, the field that owns
/// it, the variables of an element and of the collection, its elements and their
/// type and definition.
pub struct Literal {
    pub val: ir::Node,
    pub parent: types::Ty,
    pub owner: Option<(ir::Node, u16, u16)>,
    pub elm: u16,
    pub vec: u16,
    pub items: Seq<ItemView>,
    pub in_t: types::Ty,
    pub record: u32,
    pub first_pass: bool,
}

/// The statement that gives a local keyed collection a record while it has none.
pub open spec fn guard_of(
    s: Seq<schema::TypeView>,
    defs: Seq<Definition>,
    f: data::FnView,
    vec: u16,
    first_pass: bool,
) -> (Seq<schema::TypeView>, Seq<ir::Node>) {
    if records::may_be_absent(f, vec, first_pass) {
        let (more, kt) = elements::keyed_stored(s, defs, f.vars[vec as int].tp);
        match kt {
            Some(tp) => (
                more,
                seq![
                    ir::choice(
                        ir::call(
                            vector_store::op(defs, "OpVectorIsNull"@),
                            seq![ir::var(vec)],
                        ),
                        ir::call(
                            vector_store::op(defs, "OpDatabase"@),
                            seq![ir::var(vec), ir::int_value(tp as i32)],
                        ),
                        ir::leaf(ir::Head::Null),
                    ),
                ],
            ),
            None => (more, Seq::empty()),
        }
    } else {
        (s, Seq::empty())
    }
}

/// The stored types, the variables and the statements of a literal.  `stores` is the
/// schema with those stored types, by which fields are found.
pub open spec fn built(
    defs: Seq<Definition>,
    s: Seq<schema::TypeView>,
    f: data::FnView,
    l: Literal,
    stores: Stores,
) -> (Seq<schema::TypeView>, data::FnView, Seq<ir::Node>) {
    let (s0, guard) = guard_of(s, defs, f, l.vec, l.first_pass);
    if l.record == u32::MAX {
        (s0, f, guard)
    } else {
        let source = keyed_source(defs, f, l.val, l.parent, l.vec, l.first_pass);
        let (s3, known, copy_tp) = build_types(
            s0,
            defs,
            source,
            l.in_t,
            l.record,
            l.items.len(),
            l.first_pass,
        );
        let (container, field_form) = target(defs, l.val, l.parent, l.vec, l.first_pass);
        let site = Site {
            defs,
            stores,
            in_t: l.in_t,
            record: l.record,
            elm: l.elm,
            container,
            owner: if field_form {
                l.owner
            } else {
                None
            },
            known,
            copy_tp,
            first_pass: l.first_pass,
        };
        let (g, steps) = lowered_all(site, f, l.items, l.items.len() as int);
        (s3, g, guard + steps)
    }
}

/// The owner of a field as a value.
pub open spec fn owner_view(o: Option<FieldOwner>) -> Option<(ir::Node, u16, u16)> {
    match o {
        Some(o) => Some((o.record@, o.parent, o.field)),
        None => None,
    }
}

/// The statements that add the elements of a literal to its collection.  `record` is
/// the definition of the elements; without one nothing is built.  `owner` is the
/// field of the record that a field literal belongs to.
pub fn new_record(
    data: &Data,
    stores: &mut Stores,
    vars: &mut Function,
    val: &Value,
    parent: &Type,
    owner: &Option<FieldOwner>,
    elm: u16,
    vec: u16,
    items: &Vec<Item>,
    in_t: &Type,
    record: u32,
    first_pass: bool,
) -> (s: Vec<Value>)
    requires
        data.definitions.len() <= u32::MAX,
        old(stores).types.len() <= u16::MAX,
        old(vars).variables.len() + items.len() < u16::MAX,
    ensures
        final(stores).types.len() <= u16::MAX,
        final(vars).variables.len() <= old(vars).variables.len() + items.len(),
        (final(stores)@, final(vars)@, ir::views(s@)) == built(
            data.definitions@,
            old(stores)@,
            old(vars)@,
            (Literal {
                val: val@,
                parent: parent@,
                owner: owner_view(*owner),
                elm,
                vec,
                items: item_views(items@),
                in_t: in_t@,
                record,
                first_pass,
            }),
            *final(stores),
        ),
{
    let mut s: Vec<Value> = Vec::new();
    assert(ir::views(s@) =~= Seq::<ir::Node>::empty());
    match records::keyed_local_materialise(data, stores, vars, vec, first_pass) {
        Some(guard) => {
            ir::put(&mut s, guard);
            assert(ir::views(s@) =~= seq![guard@]);
        },
        None => {},
    }
    if record == u32::MAX {
        return s;
    }
    let keyed: Option<u16> = if places::is_field(data, val) || first_pass {
        None
    } else if (vec as usize) < vars.variables.len() {
        assert(vars@.vars[vec as int] == vars.variables@[vec as int]@);
        elements::keyed_known_type(stores, data, &vars.variables[vec as usize].tp)
    } else if places::is_captured_dbref(data, val) {
        elements::keyed_known_type(stores, data, parent)
    } else {
        None
    };
    let mut known: u16 = 0;
    let mut copy_tp: u16 = 0;
    if items.len() > 0 {
        known = find_collection_type(stores, data, in_t, keyed);
        copy_tp = find_element_type(stores, data, in_t, record, first_pass);
    }
    let (container, field_form): (Value, bool) = find_target(data, val, parent, vec, first_pass);
    let own: Option<&FieldOwner> = if field_form {
        match owner {
            Some(o) => Some(o),
            None => None,
        }
    } else {
        None
    };
    let builder = Builder {
        data,
        stores: &*stores,
        in_t,
        record,
        elm,
        container,
        owner: own,
        known,
        copy_tp,
        first_pass,
    };
    let more: Vec<Value> = builder.lower_all(vars, items);
    ir::put_all(&mut s, more);
    s
}

/// A literal as it is written: its destination as a variable or a field, whether
/// the first pass left its types open, and what is being assigned.
pub struct Written {
    pub literal: Literal,
    pub is_var: bool,
    pub is_field: bool,
    pub unresolved: bool,
    pub assignment: places::Assignment,
    pub holder: Holder,
}

/// The part of a tuple that a literal is built into.
pub open spec fn tuple_slot(val: ir::Node) -> Option<(u16, u16)> {
    match ir::unspan(val).head {
        ir::Head::TupleGet(t, i) => Some((t, i)),
        _ => None,
    }
}

fn find_tuple_slot(val: &Value) -> (r: Option<(u16, u16)>)
    ensures
        r == tuple_slot(val@),
{
    match val.unspan() {
        Value::TupleGet(t, i) => Some((*t, *i)),
        _ => None,
    }
}

/// The statements that make a new keyed collection.
pub open spec fn keyed_made(
    defs: Seq<Definition>,
    s: Seq<schema::TypeView>,
    f: data::FnView,
    w: Written,
) -> (Seq<schema::TypeView>, Seq<ir::Node>) {
    let vec = w.literal.vec;
    if !w.literal.first_pass && !w.is_var && tuple_slot(w.literal.val) is None
        && vector_store::is_keyed_local(f, vec) {
        match elements::keyed_stored(s, defs, f.vars[vec as int].tp) {
            (more, Some(kt)) => (
                more,
                seq![
                    ir::assign(vec, ir::leaf(ir::Head::Null)),
                    ir::call(
                        vector_store::op(defs, "OpDatabase"@),
                        seq![ir::var(vec), ir::int_value(kt as i32)],
                    ),
                ],
            ),
            (more, None) => (more, Seq::empty()),
        }
    } else {
        (s, Seq::empty())
    }
}

/// The variables and the statements that give the vector a record: an append to a
/// vector that may be absent does so only while it is.
pub open spec fn vector_made(
    defs: Seq<Definition>,
    f: data::FnView,
    w: Written,
    substituted: bool,
) -> (data::FnView, Seq<ir::Node>) {
    let vec = w.literal.vec;
    let fp = w.literal.first_pass;
    if substituted || vec >= f.vars.len() || types::depend(f.vars[vec as int].tp).len() > 0
        || vector_store::no_record(f, vec, fp) {
        (f, Seq::empty())
    } else {
        let (g, db) = vector_store::with_record(f, vec, w.holder, false);
        let steps = vector_store::record_steps(defs, f, vec, w.holder, 0, false);
        if !w.assignment.replaces && w.assignment.target == vec {
            (
                data::with_var(g, db, data::VarView { inline_ref: true, ..g.vars[db as int] }),
                seq![
                    ir::choice(
                        ir::call(
                            vector_store::op(defs, "OpVectorIsNull"@),
                            seq![ir::var(vec)],
                        ),
                        ir::insert(steps),
                        ir::leaf(ir::Head::Null),
                    ),
                ],
            )
        } else {
            (g, steps)
        }
    }
}

/// The statement that makes room for all elements at once.
pub open spec fn room_made(
    defs: Seq<Definition>,
    s: Seq<schema::TypeView>,
    f: data::FnView,
    l: Literal,
) -> Seq<ir::Node> {
    let size = schema::size_of(s, elements::known_of(defs, l.record));
    if !l.first_pass && l.items.len() > 0 && l.vec != u16::MAX && !vector_store::is_keyed_local(
        f,
        l.vec,
    ) && l.record != u32::MAX && elements::known_of(defs, l.record) != u16::MAX && size > 0 {
        seq![
            ir::call(
                vector_store::op(defs, "OpPreAllocVector"@),
                seq![
                    ir::var(l.vec),
                    ir::int_value(l.items.len() as i32),
                    ir::int_value(size as i32),
                ],
            ),
        ]
    } else {
        Seq::empty()
    }
}

/// The statement that puts a vector into its tuple while the tuple has none.
pub open spec fn tuple_put(defs: Seq<Definition>, val: ir::Node, vec: u16) -> Seq<ir::Node> {
    match tuple_slot(val) {
        Some((t, i)) => seq![
            ir::choice(
                ir::call(
                    vector_store::op(defs, "OpVectorIsNull"@),
                    seq![ir::leaf(ir::Head::TupleGet(t, i))],
                ),
                ir::put_part(t, i, ir::var(vec)),
                ir::leaf(ir::Head::Null),
            ),
        ],
        None => Seq::empty(),
    }
}

/// The type with the variables of a list that its value depends on.
pub open spec fn depending_on_all(t: types::Ty, vars: Seq<u16>, k: int) -> types::Ty
    decreases k,
{
    if k <= 0 {
        t
    } else {
        types::depending_on(depending_on_all(t, vars, k - 1), vars[k - 1])
    }
}

fn depend_on_all(tp: Type, vars: &Vec<u16>) -> (out: Type)
    ensures
        out@ == depending_on_all(tp@, vars@, vars.len() as int),
{
    let ghost first = tp@;
    let mut out: Type = tp;
    let mut i: usize = 0;
    while i < vars.len()
        invariant
            i <= vars.len(),
            out@ == depending_on_all(first, vars@, i as int),
        decreases vars.len() - i,
    {
        out = out.depending(vars[i]);
        i = i + 1;
    }
    out
}

/// What the statements of a literal are once its destination is taken care of, with
/// the variables and the type: a variable without a record gets one, an expression
/// is assigned to its variable first, and an expression answers its variable.
pub open spec fn closed_list(
    defs: Seq<Definition>,
    f: data::FnView,
    w: Written,
    substituted: bool,
    steps: Seq<ir::Node>,
    t: types::Ty,
) -> (data::FnView, Seq<ir::Node>, types::Ty) {
    let vec = w.literal.vec;
    let (g, front, t1) = if !substituted && !w.literal.first_pass && vec < f.vars.len()
        && w.literal.elm < f.vars.len() && vector_store::needs_db(
        f,
        vec,
        w.literal.in_t,
        w.is_var,
    ) {
        let (g, db) = vector_store::with_new(f, vec, w.literal.elm, w.holder);
        (
            g,
            vector_store::trio(defs, vec, db, w.holder, 0) + steps,
            types::depending_on(t, db),
        )
    } else if !w.is_field && !w.is_var && !(w.literal.val.head is Null) {
        (f, seq![ir::assign(vec, w.literal.val)] + steps, t)
    } else {
        (f, steps, t)
    };
    if !w.is_var && !w.is_field {
        let deps = if vec < g.vars.len() {
            types::depend(g.vars[vec as int].tp)
        } else {
            Seq::empty()
        };
        (g, front.push(ir::var(vec)), depending_on_all(t1, deps, deps.len() as int))
    } else {
        (g, front, t1)
    }
}

/// A literal as it is written, without its elements.
#[derive(Debug)]
pub struct LiteralSite {
    pub val: Value,
    pub parent: Type,
    pub owner: Option<FieldOwner>,
    pub elm: u16,
    pub vec: u16,
    pub in_t: Type,
    pub record: u32,
    pub first_pass: bool,
    pub is_var: bool,
    pub is_field: bool,
    pub unresolved: bool,
    pub assignment: places::Assignment,
    pub holder: Holder,
}

impl LiteralSite {
    /// The literal with its elements.
    pub open spec fn with_items(&self, items: Seq<ItemView>) -> Written {
        Written {
            literal: Literal {
                val: self.val@,
                parent: self.parent@,
                owner: owner_view(self.owner),
                elm: self.elm,
                vec: self.vec,
                items,
                in_t: self.in_t@,
                record: self.record,
                first_pass: self.first_pass,
            },
            is_var: self.is_var,
            is_field: self.is_field,
            unresolved: self.unresolved,
            assignment: self.assignment,
            holder: self.holder,
        }
    }
}

/// The field that a variable was bound as, which a literal for it is built into.
#[derive(Debug)]
pub struct Origin {
    pub val: Value,
    pub parent: Type,
    pub owner: Option<FieldOwner>,
}

/// The field that a variable was bound as, as a value.
pub struct OriginView {
    pub val: ir::Node,
    pub parent: types::Ty,
    pub owner: Option<(ir::Node, u16, u16)>,
}

/// An optional origin as a value.
pub open spec fn origin_view(o: Option<Origin>) -> Option<OriginView> {
    match o {
        Some(o) => Some(
            OriginView { val: o.val@, parent: o.parent@, owner: owner_view(o.owner) },
        ),
        None => None,
    }
}

/// The literal as it is built: one for a variable that was bound as a field is built
/// into that field.
pub open spec fn placed(w: Written, origin: Option<OriginView>) -> (Written, bool) {
    match origin {
        Some(o) => if w.literal.first_pass || w.is_field {
            (w, false)
        } else {
            (
                Written {
                    literal: Literal {
                        val: o.val,
                        parent: o.parent,
                        owner: o.owner,
                        ..w.literal
                    },
                    is_var: false,
                    is_field: true,
                    ..w
                },
                true,
            )
        },
        None => (w, false),
    }
}

/// The variables once a vector that goes into a tuple is marked as a view.
pub open spec fn marked(f: data::FnView, w: Written) -> data::FnView {
    let vec = w.literal.vec;
    if tuple_slot(w.literal.val) is Some && !w.literal.first_pass && vec < f.vars.len() {
        data::with_var(f, vec, data::VarView { inline_ref: true, ..f.vars[vec as int] })
    } else {
        f
    }
}

/// The stored types, the variables, the statements and the type of a literal.
pub open spec fn listed(
    defs: Seq<Definition>,
    s: Seq<schema::TypeView>,
    f: data::FnView,
    written: Written,
    origin: Option<OriginView>,
    t: types::Ty,
    stores: Stores,
) -> (Seq<schema::TypeView>, data::FnView, Seq<ir::Node>, types::Ty) {
    let (w, substituted) = placed(written, origin);
    if w.literal.first_pass && w.unresolved {
        (s, f, Seq::empty(), t)
    } else {
        let f0 = marked(f, w);
        let (s1, keyed) = keyed_made(defs, s, f0, w);
        let (f1, vector) = vector_made(defs, f0, w, substituted);
        let room = room_made(defs, s1, f1, w.literal);
        let (s2, f2, items) = built(defs, s1, f1, w.literal, stores);
        let put = tuple_put(defs, w.literal.val, w.literal.vec);
        let (f3, steps, t1) = closed_list(
            defs,
            f2,
            w,
            substituted,
            keyed + vector + room + items + put,
            t,
        );
        (s2, f3, steps, t1)
    }
}

fn make_keyed(
    data: &Data,
    stores: &mut Stores,
    vars: &Function,
    w: &LiteralSite,
    items: Ghost<Seq<ItemView>>,
) -> (s: Vec<Value>)
    requires
        data.definitions.len() <= u32::MAX,
        old(stores).types.len() <= u16::MAX,
    ensures
        final(stores).types.len() <= u16::MAX,
        (final(stores)@, ir::views(s@)) == keyed_made(
            data.definitions@,
            old(stores)@,
            vars@,
            w.with_items(items@),
        ),
{
    let none: Vec<Value> = Vec::new();
    assert(ir::views(none@) =~= Seq::<ir::Node>::empty());
    if w.first_pass || w.is_var || find_tuple_slot(&w.val).is_some() || !vector_store::keyed_local(
        vars,
        w.vec,
    ) {
        return none;
    }
    assert(vars@.vars[w.vec as int] == vars.variables@[w.vec as int]@);
    match elements::keyed_known_type(stores, data, &vars.variables[w.vec as usize].tp) {
        Some(kt) => {
            let mint: Value = vector_store::cl(
                data,
                "OpDatabase",
                ir::list2(Value::Var(w.vec), Value::Int(kt as i32)),
            );
            ir::list2(ir::make_assign(w.vec, Value::Null), mint)
        },
        None => none,
    }
}

fn make_vector(
    data: &Data,
    vars: &mut Function,
    w: &LiteralSite,
    substituted: bool,
    items: Ghost<Seq<ItemView>>,
) -> (s: Vec<Value>)
    requires
        data.definitions.len() <= u32::MAX,
        old(vars).variables.len() < u16::MAX,
    ensures
        (final(vars)@, ir::views(s@)) == vector_made(
            data.definitions@,
            old(vars)@,
            w.with_items(items@),
            substituted,
        ),
        final(vars).variables.len() <= old(vars).variables.len() + 1,
{
    let none: Vec<Value> = Vec::new();
    assert(ir::views(none@) =~= Seq::<ir::Node>::empty());
    if substituted || (w.vec as usize) >= vars.variables.len() {
        return none;
    }
    assert(vars@.vars[w.vec as int] == vars.variables@[w.vec as int]@);
    if vars.variables[w.vec as usize].tp.depend().len() > 0 {
        return none;
    }
    let db: u16 = vars.variables.len() as u16;
    let steps: Vec<Value> = vector_store::vector_db(data, vars, w.holder, w.vec, w.first_pass);
    if vars.variables.len() == db as usize {
        return none;
    }
    if !w.assignment.replaces && w.assignment.target == w.vec {
        vars.mark_inline_ref(db);
        let test: Value = vector_store::cl(data, "OpVectorIsNull", ir::list1(Value::Var(w.vec)));
        ir::list1(ir::make_choice(test, ir::make_insert(steps), Value::Null))
    } else {
        steps
    }
}

fn make_room(
    data: &Data,
    stores: &Stores,
    vars: &Function,
    w: &LiteralSite,
    items: &Vec<Item>,
) -> (s: Vec<Value>)
    requires
        data.definitions.len() <= u32::MAX,
        items.len() <= u16::MAX,
    ensures
        ir::views(s@) == room_made(
            data.definitions@,
            stores@,
            vars@,
            w.with_items(item_views(items@)).literal,
        ),
{
    let none: Vec<Value> = Vec::new();
    assert(ir::views(none@) =~= Seq::<ir::Node>::empty());
    if w.first_pass || items.len() == 0 || w.vec == u16::MAX || vector_store::keyed_local(
        vars,
        w.vec,
    ) || w.record == u32::MAX {
        return none;
    }
    let known: u16 = elements::known_type(data, w.record);
    if known == u16::MAX {
        return none;
    }
    let size: u16 = stores.size(known);
    if size == 0 {
        return none;
    }
    ir::list1(
        vector_store::cl(
            data,
            "OpPreAllocVector",
            ir::list3(
                Value::Var(w.vec),
                Value::Int(items.len() as i32),
                Value::Int(size as i32),
            ),
        ),
    )
}

fn make_tuple_put(data: &Data, val: &Value, vec: u16) -> (s: Vec<Value>)
    requires
        data.definitions.len() <= u32::MAX,
    ensures
        ir::views(s@) == tuple_put(data.definitions@, val@, vec),
{
    match find_tuple_slot(val) {
        Some((t, i)) => {
            let test: Value = vector_store::cl(
                data,
                "OpVectorIsNull",
                ir::list1(Value::TupleGet(t, i)),
            );
            let put: Value = ir::make_put_part(t, i, Value::Var(vec));
            ir::list1(ir::make_choice(test, put, Value::Null))
        },
        None => {
            let none: Vec<Value> = Vec::new();
            assert(ir::views(none@) =~= Seq::<ir::Node>::empty());
            none
        },
    }
}

fn close_list(
    data: &Data,
    vars: &mut Function,
    w: &LiteralSite,
    substituted: bool,
    steps: Vec<Value>,
    tp: Type,
    items: Ghost<Seq<ItemView>>,
) -> (r: (Vec<Value>, Type))
    requires
        data.definitions.len() <= u32::MAX,
        old(vars).variables.len() < u16::MAX,
    ensures
        (final(vars)@, ir::views(r.0@), r.1@) == closed_list(
            data.definitions@,
            old(vars)@,
            w.with_items(items@),
            substituted,
            ir::views(steps@),
            tp@,
        ),
        final(vars).variables.len() <= old(vars).variables.len() + 1,
{
    let mut steps = steps;
    let mut tp = tp;
    let null: bool = match w.val {
        Value::Null => true,
        _ => false,
    };
    proof {
        ir::shape(w.val);
    }
    if !substituted && !w.first_pass && (w.vec as usize) < vars.variables.len() && (w.elm as usize)
        < vars.variables.len() && vector_store::vector_needs_db(vars, w.vec, &w.in_t, w.is_var) {
        let db: u16 = vector_store::insert_new(
            data,
            vars,
            w.holder,
            w.vec,
            w.elm,
            &mut steps,
        );
        tp = tp.depending(db);
    } else if !w.is_field && !w.is_var && !null {
        ir::put_first(&mut steps, ir::make_assign(w.vec, w.val.copy()));
    }
    if !w.is_var && !w.is_field {
        ir::put(&mut steps, Value::Var(w.vec));
        let deps: Vec<u16> = if (w.vec as usize) < vars.variables.len() {
            assert(vars@.vars[w.vec as int] == vars.variables@[w.vec as int]@);
            vars.variables[w.vec as usize].tp.depend()
        } else {
            let none: Vec<u16> = Vec::new();
            assert(none@ =~= Seq::<u16>::empty());
            none
        };
        tp = depend_on_all(tp, &deps);
    }
    (steps, tp)
}

fn list_at(
    data: &Data,
    stores: &mut Stores,
    vars: &mut Function,
    w: &LiteralSite,
    substituted: bool,
    items: &Vec<Item>,
    tp: Type,
) -> (r: (Vec<Value>, Type))
    requires
        data.definitions.len() <= u32::MAX,
        old(stores).types.len() <= u16::MAX,
        old(vars).variables.len() + items.len() + 3 <= u16::MAX,
        !(w.first_pass && w.unresolved),
    ensures
        final(stores).types.len() <= u16::MAX,
        ({
            let defs = data.definitions@;
            let wr = w.with_items(item_views(items@));
            let f0 = marked(old(vars)@, wr);
            let (s1, keyed) = keyed_made(defs, old(stores)@, f0, wr);
            let (f1, vector) = vector_made(defs, f0, wr, substituted);
            let room = room_made(defs, s1, f1, wr.literal);
            let (s2, f2, steps) = built(defs, s1, f1, wr.literal, *final(stores));
            let put = tuple_put(defs, wr.literal.val, wr.literal.vec);
            final(stores)@ == s2 && (final(vars)@, ir::views(r.0@), r.1@) == closed_list(
                defs,
                f2,
                wr,
                substituted,
                keyed + vector + room + steps + put,
                tp@,
            )
        }),
{
    let ghost all = item_views(items@);
    if find_tuple_slot(&w.val).is_some() && !w.first_pass && (w.vec as usize)
        < vars.variables.len() {
        vars.mark_inline_ref(w.vec);
    }
    let mut s: Vec<Value> = make_keyed(data, stores, vars, w, Ghost(all));
    let vector: Vec<Value> = make_vector(data, vars, w, substituted, Ghost(all));
    ir::put_all(&mut s, vector);
    let room: Vec<Value> = make_room(data, stores, vars, w, items);
    ir::put_all(&mut s, room);
    let steps: Vec<Value> = new_record(
        data,
        stores,
        vars,
        &w.val,
        &w.parent,
        &w.owner,
        w.elm,
        w.vec,
        items,
        &w.in_t,
        w.record,
        w.first_pass,
    );
    ir::put_all(&mut s, steps);
    ir::put_all(&mut s, make_tuple_put(data, &w.val, w.vec));
    close_list(data, vars, w, substituted, s, tp, Ghost(all))
}

/// The statements and the type of a literal.  `origin` is the field that the
/// variable of the literal was bound as, where it was.
pub fn build_vector_list(
    data: &Data,
    stores: &mut Stores,
    vars: &mut Function,
    w: LiteralSite,
    origin: Option<Origin>,
    items: &Vec<Item>,
    tp: Type,
) -> (r: (Vec<Value>, Type))
    requires
        data.definitions.len() <= u32::MAX,
        old(stores).types.len() <= u16::MAX,
        old(vars).variables.len() + items.len() + 3 <= u16::MAX,
    ensures
        final(stores).types.len() <= u16::MAX,
        (final(stores)@, final(vars)@, ir::views(r.0@), r.1@) == listed(
            data.definitions@,
            old(stores)@,
            old(vars)@,
            w.with_items(item_views(items@)),
            origin_view(origin),
            tp@,
            *final(stores),
        ),
{
    let mut w = w;
    let mut substituted: bool = false;
    let ghost first = w.with_items(item_views(items@));
    if !w.first_pass && !w.is_field {
        match origin {
            Some(o) => {
                w.val = o.val;
                w.parent = o.parent;
                w.owner = o.owner;
                w.is_var = false;
                w.is_field = true;
                substituted = true;
            },
            None => {},
        }
    }
    assert((w.with_items(item_views(items@)), substituted) == placed(first, origin_view(origin)));
    if w.first_pass && w.unresolved {
        let none: Vec<Value> = Vec::new();
        assert(ir::views(none@) =~= Seq::<ir::Node>::empty());
        return (none, tp);
    }
    list_at(data, stores, vars, &w, substituted, items, tp)
}

/// The field that the read of a collection names: its record, the stored type that the
/// field belongs to and its number there.  `parent` is the stored type of the record.
pub open spec fn field_named(stores: Stores, val: ir::Node, parent: u16) -> Option<
    (ir::Node, u16, int),
> {
    let n = ir::unspan(val);
    if !(n.head is Call) || n.kids.len() < 2 {
        None
    } else {
        let record = stores.record_of(parent);
        match n.kids[1].head {
            ir::Head::Int(pos) => {
                let content = if n.kids.len() > 2 {
                    match n.kids[2].head {
                        ir::Head::Int(c) => Some(c),
                        _ => None,
                    }
                } else {
                    None
                };
                let owner = if 0 <= pos <= u16::MAX && content is Some && 0 <= content->0
                    <= u16::MAX {
                    stores.owner_of(record, pos as u16, content->0 as u16)
                } else {
                    record
                };
                Some((n.kids[0], owner, stores.field_at(owner, pos)))
            },
            _ => Some((n.kids[0], record, 0)),
        }
    }
}

fn int_of(v: &Value) -> (r: Option<i32>)
    ensures
        r == match v@.head {
            ir::Head::Int(x) => Some(x),
            _ => None,
        },
{
    match v {
        Value::Int(x) => Some(*x),
        _ => None,
    }
}

/// The field that the read of a collection names; `None` for anything but a read.
pub fn new_record_field_op(stores: &Stores, val: &Value, parent: u16) -> (r: Option<
    (Value, u16, usize),
>)
    ensures
        match r {
            Some((v, tp, nr)) => field_named(*stores, val@, parent) == Some((v@, tp, nr as int)),
            None => field_named(*stores, val@, parent) is None,
        },
{
    match val.unspan() {
        Value::Call(d, ps) => {
            proof {
                ir::shape(Value::Call(*d, *ps));
                ir::view_at(ps@);
            }
            if ps.len() < 2 {
                return None;
            }
            let record: u16 = stores.key_owner(parent);
            let content: Option<i32> = if ps.len() > 2 {
                int_of(&ps[2])
            } else {
                None
            };
            match int_of(&ps[1]) {
                Some(pos) => {
                    let owner: u16 = match content {
                        Some(c) => if 0 <= pos && pos <= 0xffff && 0 <= c && c <= 0xffff {
                            stores.variant_owning_field(record, pos as u16, c as u16)
                        } else {
                            record
                        },
                        None => record,
                    };
                    Some((ps[0].copy(), owner, stores.field_nr(owner, pos)))
                },
                None => Some((ps[0].copy(), record, 0)),
            }
        },
        _ => None,
    }
}

} // verus!
