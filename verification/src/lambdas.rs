//! Lambdas: the scope they are parsed in, what they capture, and their values.

use crate::captures::{self, Capture, Owner};
use crate::cells;
use crate::closures::{self, Lambdas};
use crate::data::{self, Attribute, Data, DefType, Definition, Function, Variable};
use crate::elements;
use crate::ir::{self, Value};
use crate::records;
use crate::schema::{self, Stores};
use crate::text;
use crate::tuples;
use crate::types::{self, DepSpace, Deps, Type};
use crate::vector_store::{self, Holder};
use vstd::prelude::*;

verus! {

/// What the length slot of a collection holds while the collection is absent.
pub const ABSENT: i32 = -1;

/// The name of a lambda.
pub open spec fn lambda_name_of(nr: u32) -> Seq<char> {
    "__lambda_"@ + text::decimal_of(nr as nat)
}

/// The name of lambda `nr`, and the name its definition has.
pub fn lambda_name(nr: u32) -> (r: (String, String))
    ensures
        r.0@ == lambda_name_of(nr),
        r.1@ == "n_"@ + lambda_name_of(nr),
{
    let name: String = text::join("__lambda_", text::decimal(nr as u64).as_str());
    let stored: String = text::join("n_", name.as_str());
    (name, stored)
}

/// What the first `k` variables of a function offer to a capture: a `&` parameter
/// offers what it points at.
pub open spec fn offered(vars: Seq<data::VarView>, k: int) -> Seq<(Seq<char>, types::Ty)> {
    Seq::new(k as nat, |i: int| (vars[i].name, closures::pointee(vars[i].tp)))
}

/// What the enclosing scope offers behind what the nearer one does, for the first `k`
/// of its names that the nearer one does not bind.
pub open spec fn with_outer(
    near: Seq<(Seq<char>, types::Ty)>,
    outer: Seq<(Seq<char>, types::Ty)>,
    k: int,
) -> Seq<(Seq<char>, types::Ty)>
    decreases k,
{
    if k <= 0 {
        near
    } else {
        let before = with_outer(near, outer, k - 1);
        if closures::firsts(before).contains(outer[k - 1].0) {
            before
        } else {
            before.push(outer[k - 1])
        }
    }
}

/// Owners as values.
pub open spec fn owner_views(s: Seq<Owner>) -> Seq<(Seq<char>, u32)> {
    Seq::new(s.len(), |i: int| (s[i].name@, s[i].def))
}

/// The definition that the first of the owners from `from` on names for a variable.
pub open spec fn owner_in(s: Seq<(Seq<char>, u32)>, name: Seq<char>, from: int) -> Option<u32>
    decreases s.len() - from,
{
    if from < 0 || from >= s.len() {
        None
    } else if s[from].0 == name {
        Some(s[from].1)
    } else {
        owner_in(s, name, from + 1)
    }
}

/// The owners of the first `k` names that the enclosing scope offers, where it knows
/// them: a binding stays with the frame that holds it.
pub open spec fn kept_owners(
    owners: Seq<(Seq<char>, u32)>,
    outer: Seq<(Seq<char>, types::Ty)>,
    k: int,
) -> Seq<(Seq<char>, u32)>
    decreases k,
{
    if k <= 0 {
        Seq::empty()
    } else {
        let before = kept_owners(owners, outer, k - 1);
        match owner_in(owners, outer[k - 1].0, 0) {
            Some(d) => before.push((outer[k - 1].0, d)),
            None => before,
        }
    }
}

/// The owners of the names of a scope: those that the enclosing scope knows, and the
/// function itself for its own variables.
pub open spec fn scope_owners(
    vars: Seq<data::VarView>,
    context: u32,
    owners: Seq<(Seq<char>, u32)>,
    outer: Seq<(Seq<char>, types::Ty)>,
) -> Seq<(Seq<char>, u32)> {
    kept_owners(owners, outer, outer.len() as int) + Seq::new(
        vars.len(),
        |i: int| (vars[i].name, context),
    )
}

fn has_name(s: &Vec<Capture>, name: &str) -> (r: bool)
    ensures
        r == closures::firsts(captures::capture_views(s@)).contains(name@),
{
    let ghost names = closures::firsts(captures::capture_views(s@));
    let mut i: usize = 0;
    while i < s.len()
        invariant
            i <= s.len(),
            names == closures::firsts(captures::capture_views(s@)),
            forall|j: int| 0 <= j < i ==> names[j] != name@,
        decreases s.len() - i,
    {
        if text::same(s[i].name.as_str(), name) {
            assert(names[i as int] == name@);
            return true;
        }
        i = i + 1;
    }
    false
}

fn find_owner(owners: &Vec<Owner>, name: &str) -> (d: Option<u32>)
    ensures
        d == owner_in(owner_views(owners@), name@, 0),
{
    let mut i: usize = 0;
    while i < owners.len()
        invariant
            i <= owners.len(),
            owner_in(owner_views(owners@), name@, 0) == owner_in(
                owner_views(owners@),
                name@,
                i as int,
            ),
        decreases owners.len() - i,
    {
        if text::same(owners[i].name.as_str(), name) {
            return Some(owners[i].def);
        }
        i = i + 1;
    }
    None
}

fn offer(vars: &Function) -> (s: Vec<Capture>)
    ensures
        captures::capture_views(s@) == offered(vars@.vars, vars@.vars.len() as int),
{
    let mut s: Vec<Capture> = Vec::new();
    let mut i: usize = 0;
    while i < vars.variables.len()
        invariant
            i <= vars.variables.len(),
            s.len() == i,
            forall|j: int|
                0 <= j < i ==> (#[trigger] s@[j]).name@ == vars@.vars[j].name && s@[j].tp@
                    == closures::pointee(vars@.vars[j].tp),
        decreases vars.variables.len() - i,
    {
        assert(vars@.vars[i as int] == vars.variables@[i as int]@);
        let tp: Type = match &vars.variables[i].tp {
            Type::RefVar(inner) => inner.copy(),
            other => other.copy(),
        };
        s.push(Capture { name: vars.variables[i].name.clone(), tp });
        i = i + 1;
    }
    assert(captures::capture_views(s@) =~= offered(vars@.vars, vars@.vars.len() as int));
    s
}

/// The scope that the body of a lambda is parsed in: what the enclosing function
/// offers, and behind it what that function itself can capture; and the definitions
/// that own the names.
pub fn enter_capture_scope(
    vars: &Function,
    context: u32,
    outer: &Vec<Capture>,
    owners: &Vec<Owner>,
) -> (r: (Vec<Capture>, Vec<Owner>))
    ensures
        captures::capture_views(r.0@) == with_outer(
            offered(vars@.vars, vars@.vars.len() as int),
            captures::capture_views(outer@),
            outer.len() as int,
        ),
        owner_views(r.1@) == scope_owners(
            vars@.vars,
            context,
            owner_views(owners@),
            captures::capture_views(outer@),
        ),
{
    let ghost near = offered(vars@.vars, vars@.vars.len() as int);
    let ghost far = captures::capture_views(outer@);
    let ghost known = owner_views(owners@);
    let mut scope: Vec<Capture> = offer(vars);
    let mut kept: Vec<Owner> = Vec::new();
    let mut i: usize = 0;
    assert(owner_views(kept@) =~= Seq::<(Seq<char>, u32)>::empty());
    while i < outer.len()
        invariant
            i <= outer.len(),
            far == captures::capture_views(outer@),
            known == owner_views(owners@),
            captures::capture_views(scope@) == with_outer(near, far, i as int),
            owner_views(kept@) == kept_owners(known, far, i as int),
        decreases outer.len() - i,
    {
        assert(far[i as int] == (outer@[i as int].name@, outer@[i as int].tp@));
        if !has_name(&scope, outer[i].name.as_str()) {
            let ghost before = captures::capture_views(scope@);
            scope.push(Capture { name: outer[i].name.clone(), tp: outer[i].tp.copy() });
            assert(captures::capture_views(scope@) =~= before.push(far[i as int]));
        }
        match find_owner(owners, outer[i].name.as_str()) {
            Some(d) => {
                let ghost before = owner_views(kept@);
                kept.push(Owner { name: outer[i].name.clone(), def: d });
                assert(owner_views(kept@) =~= before.push((far[i as int].0, d)));
            },
            None => {},
        }
        i = i + 1;
    }
    let ghost first = owner_views(kept@);
    let mut k: usize = 0;
    assert(first + Seq::new(0, |j: int| (vars@.vars[j].name, context)) =~= first);
    while k < vars.variables.len()
        invariant
            k <= vars.variables.len(),
            owner_views(kept@) == first + Seq::new(
                k as nat,
                |j: int| (vars@.vars[j].name, context),
            ),
        decreases vars.variables.len() - k,
    {
        let ghost before = owner_views(kept@);
        kept.push(Owner { name: vars.variables[k].name.clone(), def: context });
        assert(owner_views(kept@) =~= before.push((vars@.vars[k as int].name, context)));
        k = k + 1;
        assert(owner_views(kept@) =~= first + Seq::new(
            k as nat,
            |j: int| (vars@.vars[j].name, context),
        ));
    }
    (scope, kept)
}

/// The captures of a lambda with those that it takes because a lambda in it asks for
/// them: the first `k` inner captures that it does not bind, that its own scope
/// offers and that it does not have yet.
pub open spec fn relayed(
    f: data::FnView,
    scope: Seq<(Seq<char>, types::Ty)>,
    own: Seq<(Seq<char>, types::Ty)>,
    inner: Seq<(Seq<char>, types::Ty)>,
    k: int,
) -> Seq<(Seq<char>, types::Ty)>
    decreases k,
{
    if k <= 0 {
        own
    } else {
        let before = relayed(f, scope, own, inner, k - 1);
        let name = inner[k - 1].0;
        match captures::capture_type(scope, name, 0) {
            Some(t) => if data::named_in(f, name) == u16::MAX && !closures::firsts(
                before,
            ).contains(name) {
                before.push((name, t))
            } else {
                before
            },
            None => before,
        }
    }
}

/// Take the captures that a nested lambda reaches past this one for.
pub fn relay_nested_captures(
    vars: &Function,
    scope: &Vec<Capture>,
    own: &mut Vec<Capture>,
    inner: &Vec<Capture>,
)
    requires
        vars.variables.len() <= u16::MAX,
    ensures
        captures::capture_views(final(own)@) == relayed(
            vars@,
            captures::capture_views(scope@),
            captures::capture_views(old(own)@),
            captures::capture_views(inner@),
            inner.len() as int,
        ),
{
    let ghost first = captures::capture_views(own@);
    let ghost all = captures::capture_views(inner@);
    let ghost offers = captures::capture_views(scope@);
    let mut i: usize = 0;
    while i < inner.len()
        invariant
            i <= inner.len(),
            vars.variables.len() <= u16::MAX,
            all == captures::capture_views(inner@),
            offers == captures::capture_views(scope@),
            captures::capture_views(own@) == relayed(vars@, offers, first, all, i as int),
        decreases inner.len() - i,
    {
        let name: &str = inner[i].name.as_str();
        assert(name@ == all[i as int].0);
        match captures::find_capture(scope, name) {
            Some(t) => {
                if vars.lookup(name) == u16::MAX && !has_name(own, name) {
                    let ghost before = captures::capture_views(own@);
                    own.push(Capture { name: name.to_owned(), tp: t.copy() });
                    assert(captures::capture_views(own@) =~= before.push((name@, t@)));
                }
            },
            None => {},
        }
        i = i + 1;
    }
}

/// Whether a captured name is a parameter whose whole value a closure may not
/// replace: a record or a collection that the caller holds.
pub open spec fn is_heap_parameter(f: data::FnView, name: Seq<char>) -> bool {
    let v = data::named_in(f, name);
    v < f.vars.len() && f.vars[v as int].argument && match types::base(f.vars[v as int].tp) {
        types::Ty::Vector(..)
        | types::Ty::Sorted(..)
        | types::Ty::Hash(..)
        | types::Ty::Index(..)
        | types::Ty::Radix(..)
        | types::Ty::Trie(..)
        | types::Ty::Reference(..) => true,
        _ => false,
    }
}

/// The names among the first `k` whose whole value a closure may not replace.
pub open spec fn rebound(f: data::FnView, names: Seq<Seq<char>>, k: int) -> Seq<Seq<char>>
    decreases k,
{
    if k <= 0 {
        Seq::empty()
    } else {
        let before = rebound(f, names, k - 1);
        if is_heap_parameter(f, names[k - 1]) {
            before.push(names[k - 1])
        } else {
            before
        }
    }
}

fn heap_parameter(vars: &Function, name: &str) -> (r: bool)
    requires
        vars.variables.len() <= u16::MAX,
    ensures
        r == is_heap_parameter(vars@, name@),
{
    let v: u16 = vars.lookup(name);
    if (v as usize) >= vars.variables.len() {
        return false;
    }
    assert(vars@.vars[v as int] == vars.variables@[v as int]@);
    if !vars.variables[v as usize].argument {
        return false;
    }
    match vars.variables[v as usize].tp.base() {
        Type::Vector(..)
        | Type::Sorted(..)
        | Type::Hash(..)
        | Type::Index(..)
        | Type::Radix(..)
        | Type::Trie(..)
        | Type::Reference(..) => true,
        _ => false,
    }
}

/// The captured parameters whose whole value a closure replaces and may not: the
/// closure shares the storage of the caller, where such a replacement is local.
/// `names` are those that the closure replaces.
pub fn reject_rebound_heap_parameter_captures(vars: &Function, names: &Vec<String>) -> (out: Vec<
    String,
>)
    requires
        vars.variables.len() <= u16::MAX,
    ensures
        text::texts(out@) == rebound(vars@, text::texts(names@), names.len() as int),
{
    let ghost all = text::texts(names@);
    let mut out: Vec<String> = Vec::new();
    let mut i: usize = 0;
    assert(text::texts(out@) =~= Seq::<Seq<char>>::empty());
    while i < names.len()
        invariant
            i <= names.len(),
            vars.variables.len() <= u16::MAX,
            all == text::texts(names@),
            text::texts(out@) == rebound(vars@, all, i as int),
        decreases names.len() - i,
    {
        assert(names@[i as int]@ == all[i as int]);
        if heap_parameter(vars, names[i].as_str()) {
            let ghost before = text::texts(out@);
            out.push(names[i].clone());
            assert(text::texts(out@) =~= before.push(all[i as int]));
        }
        i = i + 1;
    }
    out
}

/// The record and the field by which a lambda holds a capture that it was handed.
pub open spec fn relayed_field(
    defs: Seq<Definition>,
    context: u32,
    param: u16,
    name: Seq<char>,
    first_pass: bool,
) -> Option<(u32, int)> {
    if first_pass || param == u16::MAX || context >= defs.len() {
        None
    } else {
        let record = defs[context as int].closure_record;
        if record >= defs.len() {
            None
        } else {
            match data::attr_from(defs[record as int].attributes@, name, 0) {
                Some(i) => Some((record, i)),
                None => None,
            }
        }
    }
}

/// The record and the field by which definition `context` holds a capture that it was
/// handed; `None` when it holds no such thing.
pub fn relayed_capture_attr(
    data: &Data,
    context: u32,
    param: u16,
    name: &str,
    first_pass: bool,
) -> (r: Option<(u32, usize)>)
    ensures
        match r {
            Some((record, i)) => relayed_field(
                data.definitions@,
                context,
                param,
                name@,
                first_pass,
            ) == Some((record, i as int)),
            None => relayed_field(data.definitions@, context, param, name@, first_pass) is None,
        },
{
    if first_pass || param == u16::MAX || context as usize >= data.definitions.len() {
        return None;
    }
    let record: u32 = data.definitions[context as usize].closure_record;
    if record as usize >= data.definitions.len() {
        return None;
    }
    match data.attr(record, name) {
        Some(i) => Some((record, i)),
        None => None,
    }
}

/// The read of a capture that definition `context` was handed.
pub open spec fn relayed_read(
    defs: Seq<Definition>,
    stores: Stores,
    context: u32,
    param: u16,
    name: Seq<char>,
    first_pass: bool,
) -> Option<ir::Node> {
    match relayed_field(defs, context, param, name, first_pass) {
        Some((record, i)) => Some(
            records::field_read(defs, stores, record, i, ir::var(param)),
        ),
        None => None,
    }
}

/// The read of a capture that definition `context` was handed; `None` when it holds
/// no such thing.
pub fn relayed_capture_read(
    data: &Data,
    stores: &Stores,
    context: u32,
    param: u16,
    name: &str,
    first_pass: bool,
) -> (r: Option<Value>)
    requires
        data.definitions.len() <= u32::MAX,
    ensures
        match r {
            Some(v) => relayed_read(
                data.definitions@,
                *stores,
                context,
                param,
                name@,
                first_pass,
            ) == Some(v@),
            None => relayed_read(
                data.definitions@,
                *stores,
                context,
                param,
                name@,
                first_pass,
            ) is None,
        },
{
    match relayed_capture_attr(data, context, param, name, first_pass) {
        Some((record, i)) => Some(
            records::get_field(data, stores, record, i, Value::Var(param)),
        ),
        None => None,
    }
}

/// Whether a captured local is a collection that may be absent and has no storage yet
/// that the closure could share.
pub open spec fn backing_due(f: data::FnView, v: u16, first_pass: bool) -> bool {
    &&& !first_pass
    &&& v < f.vars.len()
    &&& !f.vars[v as int].argument
    &&& types::is_optional(f.vars[v as int].tp)
    &&& types::collection(f.vars[v as int].tp)
    &&& types::depend(f.vars[v as int].tp).len() == 0
}

/// The statements that give captured local `v` the storage a closure can share: the
/// length slot says that the collection is absent, so that it still is.
pub open spec fn backing(
    defs: Seq<Definition>,
    layout: Stores,
    m: tuples::Made,
    v: u16,
    first_pass: bool,
) -> (tuples::Made, Seq<ir::Node>) {
    if !backing_due(m.vars, v, first_pass) {
        (m, Seq::empty())
    } else {
        let t = types::base(m.vars.vars[v as int].tp);
        if t is Vector {
            let h = vector_store::holder_from(defs, layout, t, 0);
            (
                tuples::Made {
                    types: m.types,
                    vars: vector_store::with_record(m.vars, v, h, true).0,
                },
                vector_store::record_steps(defs, m.vars, v, h, ABSENT, true),
            )
        } else {
            match elements::keyed_stored(m.types, defs, t) {
                (more, Some(kt)) => (
                    tuples::Made { types: more, vars: m.vars },
                    seq![
                        ir::choice(
                            ir::call(
                                vector_store::op(defs, "OpRefIsNull"@),
                                seq![ir::var(v)],
                            ),
                            ir::insert(
                                seq![
                                    ir::call(
                                        vector_store::op(defs, "OpDatabase"@),
                                        seq![ir::var(v), ir::int_value(kt as i32)],
                                    ),
                                    ir::call(
                                        vector_store::op(defs, "OpSetInt4"@),
                                        seq![ir::var(v), ir::int_value(0), ir::int_value(ABSENT)],
                                    ),
                                ],
                            ),
                            ir::leaf(ir::Head::Null),
                        ),
                    ],
                ),
                (more, None) => (tuples::Made { types: more, vars: m.vars }, Seq::empty()),
            }
        }
    }
}

fn keyed_backing(data: &Data, v: u16, kt: u16) -> (s: Vec<Value>)
    requires
        data.definitions.len() <= u32::MAX,
    ensures
        ir::views(s@) == seq![
            ir::choice(
                ir::call(
                    vector_store::op(data.definitions@, "OpRefIsNull"@),
                    seq![ir::var(v)],
                ),
                ir::insert(
                    seq![
                        ir::call(
                            vector_store::op(data.definitions@, "OpDatabase"@),
                            seq![ir::var(v), ir::int_value(kt as i32)],
                        ),
                        ir::call(
                            vector_store::op(data.definitions@, "OpSetInt4"@),
                            seq![ir::var(v), ir::int_value(0), ir::int_value(ABSENT)],
                        ),
                    ],
                ),
                ir::leaf(ir::Head::Null),
            ),
        ],
{
    let mint: Value = vector_store::cl(
        data,
        "OpDatabase",
        ir::list2(Value::Var(v), Value::Int(kt as i32)),
    );
    let mark: Value = vector_store::cl(
        data,
        "OpSetInt4",
        ir::list3(Value::Var(v), Value::Int(0), Value::Int(ABSENT)),
    );
    let test: Value = vector_store::cl(data, "OpRefIsNull", ir::list1(Value::Var(v)));
    ir::list1(ir::make_choice(test, ir::make_insert(ir::list2(mint, mark)), Value::Null))
}

/// Give captured local `v` storage that a closure can share, where it is a collection
/// that has none; the collection stays absent.
pub fn null_capture_backing(
    data: &Data,
    stores: &mut Stores,
    vars: &mut Function,
    v: u16,
    first_pass: bool,
) -> (s: Vec<Value>)
    requires
        data.definitions.len() <= u32::MAX,
        old(stores).types.len() <= u16::MAX,
        old(vars).variables.len() < u16::MAX,
    ensures
        final(stores).types.len() <= u16::MAX,
        schema::extends(*old(stores), *final(stores)),
        old(vars).variables.len() <= final(vars).variables.len() <= old(vars).variables.len() + 1,
        (tuples::Made { types: final(stores)@, vars: final(vars)@ }, ir::views(s@)) == backing(
            data.definitions@,
            *old(stores),
            tuples::Made { types: old(stores)@, vars: old(vars)@ },
            v,
            first_pass,
        ),
{
    let none: Vec<Value> = Vec::new();
    assert(ir::views(none@) =~= Seq::<ir::Node>::empty());
    if first_pass || (v as usize) >= vars.variables.len() {
        return none;
    }
    assert(vars@.vars[v as int] == vars.variables@[v as int]@);
    if vars.variables[v as usize].argument || !vars.variables[v as usize].tp.is_optional()
        || !types::is_collection(&vars.variables[v as usize].tp)
        || vars.variables[v as usize].tp.depend().len() != 0 {
        return none;
    }
    let tp: Type = vars.variables[v as usize].tp.base().copy();
    let vector: bool = match tp {
        Type::Vector(..) => true,
        _ => false,
    };
    if vector {
        let h: Holder = vector_store::find_holder(data, stores, &tp);
        vector_store::vector_db_init(data, vars, h, v, ABSENT, true, first_pass)
    } else {
        match elements::keyed_known_type(stores, data, &tp) {
            Some(kt) => keyed_backing(data, v, kt),
            None => none,
        }
    }
}

/// A closure record in the making: what it is made with, its statements, and the
/// variables that it captures.
pub struct Filled {
    pub made: tuples::Made,
    pub steps: Seq<ir::Node>,
    pub captured: Seq<u16>,
}

/// The variables with `v`, where it is one of them, marked as captured.
pub open spec fn with_captured(f: data::FnView, v: u16) -> data::FnView {
    if v < f.vars.len() {
        data::with_var(f, v, data::VarView { captured: true, ..f.vars[v as int] })
    } else {
        f
    }
}

/// Where a closure is made: the frame that makes it, the parameter by which that frame
/// reaches its own captures, the record, and the variable that holds it.
#[derive(Clone, Copy, Debug)]
pub struct Site {
    pub context: u32,
    pub param: u16,
    pub record: u32,
    pub w: u16,
}

/// One more field of a closure record: from the captures of the frame itself where it
/// was handed the value, and from the variable of the name otherwise.
pub open spec fn filled_field(
    defs: Seq<Definition>,
    layout: Stores,
    at: Site,
    b: Filled,
    i: int,
) -> Filled {
    let name = defs[at.record as int].attributes@[i].name@;
    let v = data::named_in(b.made.vars, name);
    let f = with_captured(b.made.vars, v);
    let captured = if v < f.vars.len() {
        b.captured.push(v)
    } else {
        b.captured
    };
    let made = tuples::Made { types: b.made.types, vars: f };
    let source = match relayed_read(defs, layout, at.context, at.param, name, false) {
        Some(n) => Some(n),
        None => if v < f.vars.len() {
            Some(ir::var(v))
        } else {
            None
        },
    };
    match source {
        Some(n) => {
            let (more, first) = backing(defs, layout, made, v, false);
            Filled {
                made: more,
                steps: (b.steps + first).push(
                    records::field_written(defs, layout, at.record, i, ir::var(at.w), n),
                ),
                captured,
            }
        },
        None => Filled { made, steps: b.steps, captured },
    }
}

/// A closure record with its first `k` fields.
pub open spec fn filled(
    defs: Seq<Definition>,
    layout: Stores,
    at: Site,
    b: Filled,
    k: int,
) -> Filled
    decreases k,
{
    if k <= 0 {
        b
    } else {
        filled_field(defs, layout, at, filled(defs, layout, at, b, k - 1), k - 1)
    }
}

/// More stored types do not change where the fields of a record are.
proof fn position_stays(defs: Seq<Definition>, a: Stores, b: Stores, record: u32, i: int)
    requires
        tuples::laid_out(defs, a),
        schema::extends(a, b),
        b.types.len() <= u16::MAX,
        record < defs.len(),
    ensures
        records::position_of(defs, a, record, i) == records::position_of(defs, b, record, i),
{
    let known = defs[record as int].known_type;
    if known < a.types.len() {
        assert(b.types@[known as int] == a.types@[known as int]);
    }
}

/// More stored types do not change how a captured local gets its storage.
proof fn backing_stays(
    defs: Seq<Definition>,
    a: Stores,
    b: Stores,
    m: tuples::Made,
    v: u16,
)
    requires
        tuples::laid_out(defs, a),
        schema::extends(a, b),
        b.types.len() <= u16::MAX,
    ensures
        backing(defs, a, m, v, false) == backing(defs, b, m, v, false),
{
    if v < m.vars.vars.len() {
        tuples::holder_stays(defs, a, b, types::base(m.vars.vars[v as int].tp), 0);
    }
}

struct Filler<'a> {
    data: &'a Data,
    layout: Ghost<Stores>,
    at: Site,
}

impl<'a> Filler<'a> {
    spec fn sound(&self, stores: Stores) -> bool {
        &&& self.data.definitions.len() <= u32::MAX
        &&& tuples::laid_out(self.data.definitions@, self.layout@)
        &&& schema::extends(self.layout@, stores)
        &&& stores.types.len() <= u16::MAX
        &&& self.at.record < self.data.definitions.len()
    }

    /// Where the value of a field comes from.
    fn source(&self, stores: &Stores, vars: &Function, v: u16, name: &str) -> (r: Option<Value>)
        requires
            self.sound(*stores),
        ensures
            ({
                let read = relayed_read(
                    self.data.definitions@,
                    self.layout@,
                    self.at.context,
                    self.at.param,
                    name@,
                    false,
                );
                match r {
                    Some(x) => if read is Some {
                        read == Some(x@)
                    } else {
                        v < vars.variables.len() && x@ == ir::var(v)
                    },
                    None => read is None && v >= vars.variables.len(),
                }
            }),
    {
        proof {
            let defs = self.data.definitions@;
            match relayed_field(defs, self.at.context, self.at.param, name@, false) {
                Some((record, i)) => position_stays(defs, self.layout@, *stores, record, i),
                None => {},
            }
        }
        match relayed_capture_read(
            self.data,
            stores,
            self.at.context,
            self.at.param,
            name,
            false,
        ) {
            Some(x) => Some(x),
            None => if (v as usize) < vars.variables.len() {
                Some(Value::Var(v))
            } else {
                None
            },
        }
    }

    fn field(
        &self,
        stores: &mut Stores,
        vars: &mut Function,
        steps: &mut Vec<Value>,
        captured: &mut Vec<u16>,
        i: usize,
    )
        requires
            self.sound(*old(stores)),
            old(vars).variables.len() < u16::MAX,
            i < self.data.definitions@[self.at.record as int].attributes.len(),
        ensures
            self.sound(*final(stores)),
            old(vars).variables.len() <= final(vars).variables.len() <= old(vars).variables.len()
                + 1,
            (Filled {
                made: tuples::Made { types: final(stores)@, vars: final(vars)@ },
                steps: ir::views(final(steps)@),
                captured: final(captured)@,
            }) == filled_field(
                self.data.definitions@,
                self.layout@,
                self.at,
                Filled {
                    made: tuples::Made { types: old(stores)@, vars: old(vars)@ },
                    steps: ir::views(old(steps)@),
                    captured: old(captured)@,
                },
                i as int,
            ),
    {
        let ghost defs = self.data.definitions@;
        let ghost was = vars@;
        let name: &str = self.data.definitions[self.at.record as usize].attributes[i].name.as_str();
        let v: u16 = vars.lookup(name);
        if (v as usize) < vars.variables.len() {
            captured.push(v);
            vars.set_captured(v);
        }
        assert(vars@ == with_captured(was, v));
        match self.source(stores, vars, v, name) {
            Some(x) => {
                let ghost before = *stores;
                proof {
                    backing_stays(
                        defs,
                        self.layout@,
                        before,
                        tuples::Made { types: before@, vars: vars@ },
                        v,
                    );
                }
                let first: Vec<Value> = null_capture_backing(self.data, stores, vars, v, false);
                ir::put_all(steps, first);
                proof {
                    tuples::extending_twice(self.layout@, before, *stores);
                    position_stays(defs, self.layout@, *stores, self.at.record, i as int);
                }
                let write: Value = records::set_field(
                    self.data,
                    stores,
                    self.at.record,
                    i,
                    Value::Var(self.at.w),
                    x,
                );
                ir::put(steps, write);
            },
            None => {},
        }
    }
}

/// The types of the first `k` of a list of parameters.
pub open spec fn param_types(attrs: Seq<data::AttrView>, k: int) -> Seq<types::Ty> {
    Seq::new(k as nat, |i: int| attrs[i].typedef)
}

/// How many parameters of a lambda a caller sees: not the one that hands it its
/// captures.
pub open spec fn visible(attrs: Seq<data::AttrView>) -> int {
    if attrs.len() > 0 && attrs.last().name == "__closure"@ {
        attrs.len() - 1
    } else {
        attrs.len() as int
    }
}

fn visible_params(data: &Data, lambda: u32) -> (ts: Vec<Type>)
    requires
        lambda < data.definitions.len(),
    ensures
        types::type_views(ts@) == param_types(
            data::attr_views(data.definitions@[lambda as int].attributes@),
            visible(data::attr_views(data.definitions@[lambda as int].attributes@)),
        ),
{
    let attrs: &Vec<Attribute> = &data.definitions[lambda as usize].attributes;
    let ghost all = data::attr_views(attrs@);
    let n: usize = if attrs.len() > 0 && text::same(
        attrs[attrs.len() - 1].name.as_str(),
        "__closure",
    ) {
        attrs.len() - 1
    } else {
        attrs.len()
    };
    first_params(attrs, n)
}

fn first_params(attrs: &Vec<Attribute>, n: usize) -> (ts: Vec<Type>)
    requires
        n <= attrs.len(),
    ensures
        types::type_views(ts@) == param_types(data::attr_views(attrs@), n as int),
{
    let mut ts: Vec<Type> = Vec::new();
    let mut i: usize = 0;
    while i < n
        invariant
            i <= n <= attrs.len(),
            ts.len() == i,
            forall|j: int| 0 <= j < i ==> (#[trigger] ts@[j])@ == attrs@[j].typedef@,
        decreases n - i,
    {
        ts.push(attrs[i].typedef.copy());
        i = i + 1;
    }
    assert(types::type_views(ts@) =~= param_types(data::attr_views(attrs@), n as int));
    ts
}

/// The variables with one more that holds a closure record.
pub open spec fn with_closure(f: data::FnView, record: u32) -> data::FnView {
    let w = f.vars.len() as u16;
    let f1 = data::created(f, "___clos_"@, types::Ty::Reference(record, types::no_deps()));
    let f2 = data::with_var(f1, w, data::VarView { defined: true, ..f1.vars[w as int] });
    data::with_var(f2, w, data::VarView { work_ref: true, ..f2.vars[w as int] })
}

/// Whether a lambda carries captures.
pub open spec fn carries(defs: Seq<Definition>, lambda: u32, first_pass: bool) -> bool {
    !first_pass && defs[lambda as int].closure_record < defs.len()
}

/// How many captures a lambda has.
pub open spec fn record_width(defs: Seq<Definition>, lambda: u32) -> int {
    defs[defs[lambda as int].closure_record as int].attributes.len() as int
}

/// The closure record of a lambda, made in the frame of `context`.
pub open spec fn closure_made(
    defs: Seq<Definition>,
    stores: Stores,
    f: data::FnView,
    lambda: u32,
    context: u32,
    param: u16,
) -> Filled {
    let record = defs[lambda as int].closure_record;
    let w = f.vars.len() as u16;
    filled(
        defs,
        stores,
        Site { context, param, record, w },
        Filled {
            made: tuples::Made { types: stores@, vars: with_closure(f, record) },
            steps: seq![
                ir::assign(w, ir::leaf(ir::Head::Null)),
                ir::call(
                    vector_store::op(defs, "OpDatabase"@),
                    seq![
                        ir::var(w),
                        ir::int_value(elements::known_of(defs, record) as i32),
                    ],
                ),
            ],
            captured: Seq::empty(),
        },
        defs[record as int].attributes.len() as int,
    )
}

/// The type of a lambda that carries its captures in variable `w`.
pub open spec fn closure_type(defs: Seq<Definition>, lambda: u32, ret: types::Ty, w: u16) -> types::Ty {
    let attrs = data::attr_views(defs[lambda as int].attributes@);
    types::Ty::Function(param_types(attrs, visible(attrs)), Box::new(ret), types::frame1(w))
}

/// What the enclosing function returns once a lambda that carries captures was made
/// in it: a function that it returns carries them.
pub open spec fn carried_return(t: types::Ty, ret: types::Ty, w: u16) -> types::Ty {
    match t {
        types::Ty::Function(params, _, _) => types::Ty::Function(
            params,
            Box::new(ret),
            types::DepList { space: DepSpace::CalleeFrame, vars: seq![w] },
        ),
        _ => t,
    }
}

/// The value of a lambda, the variable that holds its captures and the variables it
/// captures.
pub struct Emitted {
    pub code: Value,
    pub work: Option<u16>,
    pub captured: Vec<u16>,
}

/// Make the value of a lambda in the frame of `context`: its number, together with a
/// record of its captures where it has any.  `ret` is what a caller gets from it.
pub fn emit_lambda_code(
    data: &mut Data,
    stores: &mut Stores,
    vars: &mut Function,
    lambda: u32,
    context: u32,
    param: u16,
    ret: &Type,
    first_pass: bool,
) -> (r: Emitted)
    requires
        lambda < old(data).definitions.len() <= i32::MAX,
        context < old(data).definitions.len(),
        old(stores).types.len() <= u16::MAX,
        carries(old(data).definitions@, lambda, first_pass) ==> tuples::laid_out(
            old(data).definitions@,
            *old(stores),
        ) && old(vars).variables.len() + 1 + record_width(old(data).definitions@, lambda) <= u16::MAX,
    ensures
        !carries(old(data).definitions@, lambda, first_pass) ==> {
            &&& r.code@ == ir::int_value(lambda as i32)
            &&& r.work is None
            &&& r.captured.len() == 0
            &&& *final(data) == *old(data)
            &&& *final(stores) == *old(stores)
            &&& *final(vars) == *old(vars)
        },
        carries(old(data).definitions@, lambda, first_pass) ==> {
            let defs = old(data).definitions@;
            let w = old(vars).variables.len() as u16;
            let b = closure_made(defs, *old(stores), old(vars)@, lambda, context, param);
            let tp = closure_type(defs, lambda, ret@, w);
            let was = defs[context as int];
            let now = final(data).definitions@[context as int];
            &&& r.code@ == ir::block(
                "fn_ref_with_closure"@,
                b.steps.push(ir::leaf(ir::Head::FnRef(lambda as i32, w, tp))),
                tp,
            )
            &&& r.work == Some(w)
            &&& r.captured@ == b.captured
            &&& final(stores)@ == b.made.types
            &&& final(vars)@ == b.made.vars
            &&& final(data).definitions@ == defs.update(
                context as int,
                Definition { returned: now.returned, ..was },
            )
            &&& now.returned@ == carried_return(was.returned@, ret@, w)
        },
{
    let record: u32 = data.definitions[lambda as usize].closure_record;
    if first_pass || record as usize >= data.definitions.len() {
        return Emitted { code: Value::Int(lambda as i32), work: None, captured: Vec::new() };
    }
    let ghost f = vars@;
    let w: u16 = vars.create("___clos_", Type::Reference(record, Deps::none()));
    vars.mark_defined(w);
    vars.add_to_work_refs(w);
    assert(vars@ == with_closure(f, record));
    let (steps, captured): (Vec<Value>, Vec<u16>) = fill_record(
        data,
        stores,
        vars,
        Site { context, param, record, w },
    );
    let tp: Type = Type::Function(
        visible_params(data, lambda),
        Box::new(ret.copy()),
        Deps::frame1(w),
    );
    assert(tp@ == closure_type(data.definitions@, lambda, ret@, w));
    let mut steps: Vec<Value> = steps;
    ir::put(&mut steps, Value::FnRef(lambda as i32, w, Box::new(tp.copy())));
    let code: Value = ir::make_block("fn_ref_with_closure", steps, tp);
    let returned: Type = match &data.definitions[context as usize].returned {
        Type::Function(params, _, _) => Type::Function(
            types::copy_types(params),
            Box::new(ret.copy()),
            Deps::callee_frame1(w),
        ),
        other => other.copy(),
    };
    assert(returned@ == carried_return(
        data.definitions@[context as int].returned@,
        ret@,
        w,
    ));
    data.definitions[context as usize].returned = returned;
    Emitted { code, work: Some(w), captured }
}

fn fill_record(data: &Data, stores: &mut Stores, vars: &mut Function, at: Site) -> (r: (
    Vec<Value>,
    Vec<u16>,
))
    requires
        data.definitions.len() <= u32::MAX,
        at.record < data.definitions.len(),
        old(stores).types.len() <= u16::MAX,
        tuples::laid_out(data.definitions@, *old(stores)),
        old(vars).variables.len() + data.definitions@[at.record as int].attributes.len()
            <= u16::MAX,
    ensures
        (Filled {
            made: tuples::Made { types: final(stores)@, vars: final(vars)@ },
            steps: ir::views(r.0@),
            captured: r.1@,
        }) == filled(
            data.definitions@,
            *old(stores),
            at,
            Filled {
                made: tuples::Made { types: old(stores)@, vars: old(vars)@ },
                steps: seq![
                    ir::assign(at.w, ir::leaf(ir::Head::Null)),
                    ir::call(
                        vector_store::op(data.definitions@, "OpDatabase"@),
                        seq![
                            ir::var(at.w),
                            ir::int_value(
                                elements::known_of(data.definitions@, at.record) as i32,
                            ),
                        ],
                    ),
                ],
                captured: Seq::empty(),
            },
            data.definitions@[at.record as int].attributes.len() as int,
        ),
{
    let ghost first = tuples::Made { types: stores@, vars: vars@ };
    let ghost had = vars.variables.len();
    let filler: Filler = Filler { data, layout: Ghost(*stores), at };
    let mint: Value = vector_store::cl(
        data,
        "OpDatabase",
        ir::list2(Value::Var(at.w), Value::Int(elements::known_type(data, at.record) as i32)),
    );
    let mut steps: Vec<Value> = ir::list2(ir::make_assign(at.w, Value::Null), mint);
    let mut captured: Vec<u16> = Vec::new();
    let ghost b = Filled { made: first, steps: ir::views(steps@), captured: captured@ };
    let n: usize = data.definitions[at.record as usize].attributes.len();
    let mut i: usize = 0;
    while i < n
        invariant
            i <= n,
            filler.data == data,
            filler.at == at,
            filler.sound(*stores),
            n == data.definitions@[at.record as int].attributes.len(),
            had + n <= u16::MAX,
            vars.variables.len() <= had + i,
            (Filled {
                made: tuples::Made { types: stores@, vars: vars@ },
                steps: ir::views(steps@),
                captured: captured@,
            }) == filled(data.definitions@, filler.layout@, at, b, i as int),
        decreases n - i,
    {
        filler.field(stores, vars, &mut steps, &mut captured, i);
        i = i + 1;
    }
    (steps, captured)
}

/// The names that a lambda is known to write once its body was searched.
pub open spec fn noted(defs: Seq<Definition>, lambda: u32) -> Seq<Seq<char>> {
    if captures::captured(defs, lambda as int).len() > 0 {
        captures::mutated(defs, lambda as int)
    } else {
        text::texts(defs[lambda as int].mutated_captures@)
    }
}

/// The definitions before the closure record of a lambda was noted on it.
pub open spec fn unrecorded(now: Seq<Definition>, lambda: u32, was: Definition) -> Seq<Definition> {
    now.update(
        lambda as int,
        Definition { closure_record: was.closure_record, ..now[lambda as int] },
    )
}

/// Whether definitions differ in the names that lambda `lambda` writes and in the
/// names that are boxed alone.
pub open spec fn same_but_noted(a: Seq<Definition>, b: Seq<Definition>, lambda: u32) -> bool {
    &&& a.len() == b.len()
    &&& forall|d: int|
        0 <= d < a.len() ==> #[trigger] b[d] == (Definition {
            scalars_to_box: b[d].scalars_to_box,
            mutated_captures: b[d].mutated_captures,
            ..a[d]
        })
    &&& forall|d: int|
        0 <= d < a.len() && d != lambda ==> (#[trigger] b[d]).mutated_captures
            == a[d].mutated_captures
}

/// The names that are boxed once a lambda's writes are noted.
pub open spec fn boxes_noted(
    defs: Seq<Definition>,
    lambda: u32,
    parent: u32,
    owners: Seq<Owner>,
    caps: Seq<(Seq<char>, types::Ty)>,
) -> Seq<Seq<Seq<char>>> {
    let names = noted(defs, lambda);
    if parent < defs.len() {
        captures::queued_all(
            captures::boxes(defs),
            names,
            caps,
            owners,
            parent,
            names.len() as int,
        )
    } else {
        captures::boxes(defs)
    }
}

/// The definitions with the cells and the record of a lambda whose writes are noted:
/// a cell for every boxed type that has none yet, and the record of the captures,
/// whose fields are of the boxed types.
pub open spec fn record_defined(
    mid: Seq<Definition>,
    now: Seq<Definition>,
    lambda: u32,
    name: Seq<char>,
    parent: u32,
    owners: Seq<Owner>,
    caps: Seq<(Seq<char>, types::Ty)>,
    after: Seq<(Seq<char>, types::Ty)>,
    first_pass: bool,
) -> bool {
    let names = text::texts(mid[lambda as int].mutated_captures@);
    let new = if first_pass {
        closures::missing_cells(mid, caps, names, caps.len() as int)
    } else {
        Seq::empty()
    };
    let n = mid.len() + new.len();
    let celled = unrecorded(now.take(n as int), lambda, mid[lambda as int]);
    let found = data::def_from(celled, closures::record_name(name), 0);
    &&& forall|i: int|
        0 <= i < new.len() ==> closures::is_cell(
            #[trigger] now[mid.len() + i],
            new[i].0,
            new[i].1,
        )
    &&& after == captures::boxed_captures(celled, caps, owners, parent)
    &&& if first_pass {
        &&& now.len() == n + 1
        &&& data::fresh_def(now[n as int], closures::record_name(name), DefType::Struct)
        &&& data::attr_views(now[n as int].attributes@) == closures::record_fields(celled, after)
        &&& now[lambda as int].closure_record == n
    } else {
        &&& now.len() == n
        &&& now[lambda as int].closure_record == if found != u32::MAX {
            found
        } else {
            mid[lambda as int].closure_record
        }
    }
}

/// What the captures of a lambda leave behind: the names it writes, the names that
/// their owners box, the cells that those need, and the record of the captures.
pub open spec fn captures_recorded(
    defs: Seq<Definition>,
    now: Seq<Definition>,
    lambda: u32,
    name: Seq<char>,
    parent: u32,
    owners: Seq<Owner>,
    caps: Seq<(Seq<char>, types::Ty)>,
    after: Seq<(Seq<char>, types::Ty)>,
    first_pass: bool,
) -> bool {
    let mid = unrecorded(now.take(defs.len() as int), lambda, defs[lambda as int]);
    &&& same_but_noted(defs, mid, lambda)
    &&& text::texts(mid[lambda as int].mutated_captures@) == noted(defs, lambda)
    &&& captures::boxes(mid) == boxes_noted(defs, lambda, parent, owners, caps)
    &&& record_defined(mid, now, lambda, name, parent, owners, caps, after, first_pass)
}

/// No more cells are missing than there are captures.
proof fn few_cells(
    defs: Seq<Definition>,
    caps: Seq<(Seq<char>, types::Ty)>,
    names: Seq<Seq<char>>,
    k: int,
)
    requires
        0 <= k,
    ensures
        closures::missing_cells(defs, caps, names, k).len() <= k,
    decreases k,
{
    if k > 0 {
        few_cells(defs, caps, names, k - 1);
    }
}

/// The lambdas of every definition with one more.
pub open spec fn with_lambda(s: Seq<Lambdas>, now: Seq<Lambdas>, d: u32, lambda: u32) -> bool {
    &&& closures::lambdas_from(now, d, 0) == closures::lambdas_from(s, d, 0).push(lambda)
    &&& forall|o: u32|
        o != d ==> #[trigger] closures::lambdas_from(now, o, 0) == closures::lambdas_from(s, o, 0)
}

proof fn entry_kept(s: Seq<Lambdas>, now: Seq<Lambdas>, i: int, d: u32, o: u32, from: int)
    requires
        0 <= from,
        now.len() >= s.len(),
        forall|j: int| 0 <= j < s.len() && j != i ==> #[trigger] now[j] == s[j],
        0 <= i < now.len(),
        now.len() == s.len() || (i == s.len() && now.len() == s.len() + 1),
        now[i].def == d,
        i < s.len() ==> s[i].def == d,
        o != d,
    ensures
        closures::lambdas_from(now, o, from) == closures::lambdas_from(s, o, from),
    decreases now.len() - from,
{
    if from < now.len() {
        if from < s.len() && from != i {
            assert(now[from] == s[from]);
        }
        entry_kept(s, now, i, d, o, from + 1);
    }
}

proof fn entry_grown(s: Seq<Lambdas>, now: Seq<Lambdas>, i: int, d: u32, from: int)
    requires
        0 <= from <= i < now.len(),
        now.len() >= s.len(),
        i <= s.len(),
        forall|j: int| 0 <= j < i ==> #[trigger] now[j] == s[j] && s[j].def != d,
        now[i].def == d,
        i < s.len() ==> s[i].def == d,
    ensures
        closures::lambdas_from(now, d, from) == now[i].lambdas@,
        closures::lambdas_from(s, d, from) == if i < s.len() {
            s[i].lambdas@
        } else {
            Seq::empty()
        },
    decreases i - from,
{
    if from < i {
        assert(now[from] == s[from]);
        entry_grown(s, now, i, d, from + 1);
    }
}

/// Note that a definition holds one more lambda.
pub fn note_lambda(graph: &mut Vec<Lambdas>, d: u32, lambda: u32)
    ensures
        with_lambda(old(graph)@, final(graph)@, d, lambda),
{
    let ghost was = graph@;
    let mut i: usize = 0;
    while i < graph.len() && graph[i].def != d
        invariant
            i <= graph.len(),
            graph@ == was,
            forall|j: int| 0 <= j < i ==> (#[trigger] was[j]).def != d,
        decreases graph.len() - i,
    {
        i = i + 1;
    }
    if i < graph.len() {
        graph[i].lambdas.push(lambda);
    } else {
        let mut lambdas: Vec<u32> = Vec::new();
        lambdas.push(lambda);
        assert(lambdas@ =~= Seq::<u32>::empty().push(lambda));
        graph.push(Lambdas { def: d, lambdas });
    }
    proof {
        entry_grown(was, graph@, i as int, d, 0);
        assert forall|o: u32| o != d implies #[trigger] closures::lambdas_from(graph@, o, 0)
            == closures::lambdas_from(was, o, 0) by {
            entry_kept(was, graph@, i as int, d, o, 0);
        }
    }
}

/// Note what a lambda writes, and what its owners box for it.
fn note_written(
    data: &mut Data,
    lambda: u32,
    parent: u32,
    captured: &Vec<Capture>,
    owners: &Vec<Owner>,
)
    requires
        lambda < old(data).definitions.len(),
        old(data).definitions@[lambda as int].variables.variables.len() <= u16::MAX,
    ensures
        same_but_noted(old(data).definitions@, final(data).definitions@, lambda),
        text::texts(final(data).definitions@[lambda as int].mutated_captures@) == noted(
            old(data).definitions@,
            lambda,
        ),
        captures::boxes(final(data).definitions@) == boxes_noted(
            old(data).definitions@,
            lambda,
            parent,
            owners@,
            captures::capture_views(captured@),
        ),
{
    let ghost defs = data.definitions@;
    captures::collect_mutated_captures(data, lambda);
    let ghost searched = data.definitions@;
    assert(captures::boxes(searched) =~= captures::boxes(defs));
    captures::accumulate_scalars_to_box(data, parent, lambda, captured, owners);
}

/// Define the cells and the record of a lambda whose writes are noted.
fn define_record(
    data: &mut Data,
    lambda: u32,
    name: &str,
    parent: u32,
    captured: &mut Vec<Capture>,
    owners: &Vec<Owner>,
    first_pass: bool,
)
    requires
        lambda < old(data).definitions.len(),
        old(data).definitions.len() + old(captured).len() < u32::MAX,
    ensures
        record_defined(
            old(data).definitions@,
            final(data).definitions@,
            lambda,
            name@,
            parent,
            owners@,
            captures::capture_views(old(captured)@),
            captures::capture_views(final(captured)@),
            first_pass,
        ),
        final(data).definitions.len() >= old(data).definitions.len(),
        unrecorded(
            final(data).definitions@.take(old(data).definitions.len() as int),
            lambda,
            old(data).definitions@[lambda as int],
        ) == old(data).definitions@,
        final(data).definitions@[lambda as int].mutated_captures == old(
            data,
        ).definitions@[lambda as int].mutated_captures,
{
    let ghost mid = data.definitions@;
    let ghost caps = captures::capture_views(captured@);
    let ghost names = text::texts(mid[lambda as int].mutated_captures@);
    proof {
        few_cells(mid, caps, names, caps.len() as int);
    }
    closures::synthesize_cell_structs(data, lambda, captured, first_pass);
    let ghost celled = data.definitions@;
    assert(celled.take(mid.len() as int) =~= mid);
    assert(celled[lambda as int] == celled.take(mid.len() as int)[lambda as int]);
    captures::box_captured_names_for_outer_scalars(captured, data, parent, owners);
    closures::synthesize_closure_record(data, lambda, name, captured, first_pass);
    proof {
        let now = data.definitions@;
        let n = celled.len();
        assert(unrecorded(now.take(n as int), lambda, mid[lambda as int]) =~= celled);
        assert(unrecorded(now.take(mid.len() as int), lambda, mid[lambda as int]) =~= mid);
        let new = if first_pass {
            closures::missing_cells(mid, caps, names, caps.len() as int)
        } else {
            Seq::empty()
        };
        assert(n == mid.len() + new.len());
        assert forall|i: int| 0 <= i < new.len() implies closures::is_cell(
            #[trigger] now[mid.len() + i],
            new[i].0,
            new[i].1,
        ) by {
            assert(now[mid.len() + i] == celled[mid.len() + i]);
        }
    }
}

/// Record what lambda `lambda` of definition `parent` captures; nothing is left behind
/// where it captures nothing.
pub fn record_captures(
    data: &mut Data,
    lambda: u32,
    name: &str,
    parent: u32,
    captured: &mut Vec<Capture>,
    owners: &Vec<Owner>,
    graph: &mut Vec<Lambdas>,
    first_pass: bool,
)
    requires
        lambda < old(data).definitions.len(),
        old(data).definitions.len() + old(captured).len() < u32::MAX,
        old(data).definitions@[lambda as int].variables.variables.len() <= u16::MAX,
    ensures
        old(captured).len() == 0 ==> *final(data) == *old(data) && *final(captured) == *old(
            captured,
        ),
        old(captured).len() > 0 ==> captures_recorded(
            old(data).definitions@,
            final(data).definitions@,
            lambda,
            name@,
            parent,
            owners@,
            captures::capture_views(old(captured)@),
            captures::capture_views(final(captured)@),
            first_pass,
        ),
        if old(captured).len() > 0 && first_pass {
            with_lambda(old(graph)@, final(graph)@, parent, lambda)
        } else {
            *final(graph) == *old(graph)
        },
{
    if captured.len() == 0 {
        return;
    }
    let ghost defs = data.definitions@;
    let ghost caps = captures::capture_views(captured@);
    let ghost names = noted(defs, lambda);
    note_written(data, lambda, parent, captured, owners);
    let ghost mid = data.definitions@;
    define_record(data, lambda, name, parent, captured, owners, first_pass);
    proof {
        let now = data.definitions@;
        let was = defs[lambda as int];
        assert(mid[lambda as int].closure_record == was.closure_record);
        assert(unrecorded(now.take(defs.len() as int), lambda, mid[lambda as int]) == mid);
    }
    if first_pass {
        note_lambda(graph, parent, lambda);
    }
}

/// The function that a name refers to: one of the program before one of the host.
pub open spec fn function_named(defs: Seq<Definition>, name: Seq<char>) -> u32 {
    let own = data::def_from(defs, "n_"@ + name, 0);
    if own == u32::MAX {
        data::def_from(defs, name, 0)
    } else {
        own
    }
}

/// Why a name is no function reference.
#[derive(Clone, Copy, Debug, PartialEq, Eq, Structural)]
pub enum FnRefError {
    Unknown,
    NotAFunction,
}

/// The function that a reference by `name` is to.  Anything that a name stands for
/// passes in the first pass, when not everything is known to be a function yet.
pub fn parse_fn_ref(data: &Data, name: &str, first_pass: bool) -> (r: Result<u32, FnRefError>)
    requires
        data.definitions.len() <= u32::MAX,
    ensures
        ({
            let d = function_named(data.definitions@, name@);
            let function = d < data.definitions.len() && data.definitions@[d as int].def_type
                == DefType::Function;
            match r {
                Ok(n) => n == d && d < data.definitions.len() && (first_pass || function),
                Err(FnRefError::Unknown) => d == u32::MAX,
                Err(FnRefError::NotAFunction) => d != u32::MAX && !first_pass && !function,
            }
        }),
{
    let prefixed: String = text::join("n_", name);
    let own: u32 = data.def_nr(prefixed.as_str());
    let d: u32 = if own == u32::MAX {
        data.def_nr(name)
    } else {
        own
    };
    if d == u32::MAX {
        return Err(FnRefError::Unknown);
    }
    proof {
        if own == u32::MAX {
            data::found_definition(data.definitions@, name@, 0);
        } else {
            data::found_definition(data.definitions@, "n_"@ + name@, 0);
        }
    }
    if !first_pass && data.definitions[d as usize].def_type != DefType::Function {
        return Err(FnRefError::NotAFunction);
    }
    Ok(d)
}

/// The value of a reference to function `d`, and its type; `ret` is what a caller gets.
pub fn fn_ref_value(data: &Data, d: u32, ret: &Type) -> (r: (Value, Type))
    requires
        d < data.definitions.len(),
        d <= i32::MAX,
    ensures
        r.0@ == ir::int_value(d as i32),
        r.1@ == types::Ty::Function(
            param_types(
                data::attr_views(data.definitions@[d as int].attributes@),
                data.definitions@[d as int].attributes.len() as int,
            ),
            Box::new(ret@),
            types::no_deps(),
        ),
{
    let attrs: &Vec<Attribute> = &data.definitions[d as usize].attributes;
    let params: Vec<Type> = first_params(attrs, attrs.len());
    let tp: Type = Type::Function(params, Box::new(ret.copy()), Deps::none());
    (Value::Int(d as i32), tp)
}

/// A definition that runs under a restriction, and the restriction.
#[derive(Debug)]
pub struct Sandboxed {
    pub def: u32,
    pub profile: String,
}

/// The restriction of definition `d`, as the first entry from `from` on says.
pub open spec fn profile_from(s: Seq<Sandboxed>, d: u32, from: int) -> Option<Seq<char>>
    decreases s.len() - from,
{
    if from < 0 || from >= s.len() {
        None
    } else if s[from].def == d {
        Some(s[from].profile@)
    } else {
        profile_from(s, d, from + 1)
    }
}

/// The restriction of definition `d`.
pub open spec fn profile_of(s: Seq<Sandboxed>, d: u32) -> Option<Seq<char>> {
    profile_from(s, d, 0)
}

fn find_profile(s: &Vec<Sandboxed>, d: u32) -> (i: Option<usize>)
    ensures
        match i {
            Some(k) => k < s.len() && profile_of(s@, d) == Some(s@[k as int].profile@)
                && s@[k as int].def == d && (forall|j: int|
                0 <= j < k ==> (#[trigger] s@[j]).def != d),
            None => profile_of(s@, d) is None && (forall|j: int|
                0 <= j < s.len() ==> (#[trigger] s@[j]).def != d),
        },
{
    let mut i: usize = 0;
    while i < s.len()
        invariant
            i <= s.len(),
            profile_from(s@, d, 0) == profile_from(s@, d, i as int),
            forall|j: int| 0 <= j < i ==> (#[trigger] s@[j]).def != d,
        decreases s.len() - i,
    {
        if s[i].def == d {
            return Some(i);
        }
        i = i + 1;
    }
    None
}

proof fn profile_kept(s: Seq<Sandboxed>, now: Seq<Sandboxed>, i: int, o: u32, from: int)
    requires
        0 <= from,
        0 <= i <= s.len(),
        i < now.len(),
        now.len() >= s.len(),
        now.len() <= s.len() + 1,
        i < s.len() ==> now.len() == s.len() && s[i].def == now[i].def,
        forall|j: int| 0 <= j < s.len() && j != i ==> #[trigger] now[j] == s[j],
        o != now[i].def,
    ensures
        profile_from(now, o, from) == profile_from(s, o, from),
    decreases now.len() - from,
{
    if from < now.len() {
        if from < s.len() && from != i {
            assert(now[from] == s[from]);
        }
        profile_kept(s, now, i, o, from + 1);
    }
}

proof fn profile_set(now: Seq<Sandboxed>, i: int, d: u32, from: int)
    requires
        0 <= from <= i < now.len(),
        now[i].def == d,
        forall|j: int| 0 <= j < i ==> (#[trigger] now[j]).def != d,
    ensures
        profile_from(now, d, from) == Some(now[i].profile@),
    decreases i - from,
{
    if from < i {
        profile_set(now, i, d, from + 1);
    }
}

/// A lambda runs under the restriction of the definition it stands in, where that has
/// one; the others keep theirs.
pub fn mark_lambda_sandboxed(profiles: &mut Vec<Sandboxed>, enclosing: u32, lambda: u32)
    ensures
        profile_of(old(profiles)@, enclosing) is None ==> *final(profiles) == *old(profiles),
        profile_of(old(profiles)@, enclosing) is Some ==> profile_of(final(profiles)@, lambda)
            == profile_of(old(profiles)@, enclosing),
        forall|o: u32|
            o != lambda ==> #[trigger] profile_of(final(profiles)@, o) == profile_of(
                old(profiles)@,
                o,
            ),
{
    let ghost was = profiles@;
    let profile: String = match find_profile(profiles, enclosing) {
        Some(i) => profiles[i].profile.clone(),
        None => {
            return;
        },
    };
    let at: usize = match find_profile(profiles, lambda) {
        Some(i) => {
            profiles.set(i, Sandboxed { def: lambda, profile });
            i
        },
        None => {
            profiles.push(Sandboxed { def: lambda, profile });
            profiles.len() - 1
        },
    };
    proof {
        profile_set(profiles@, at as int, lambda, 0);
        assert forall|o: u32| o != lambda implies #[trigger] profile_of(profiles@, o)
            == profile_of(was, o) by {
            profile_kept(was, profiles@, at as int, o, 0);
        }
    }
}

/// What the place of a lambda says of its parameters.
pub open spec fn hinted_params(hint: types::Ty) -> Seq<types::Ty> {
    match hint {
        types::Ty::Function(params, _, _) => params,
        _ => Seq::empty(),
    }
}

/// The parameters of a lambda that names them only: the types are those that its
/// place asks for.
pub open spec fn short_params(names: Seq<Seq<char>>, hint: types::Ty) -> Seq<
    (Seq<char>, types::Ty),
> {
    Seq::new(
        names.len(),
        |i: int|
            (
                names[i],
                if i < hinted_params(hint).len() {
                    hinted_params(hint)[i]
                } else {
                    types::Ty::Unknown(0)
                },
            ),
    )
}

/// Give the parameters of a lambda that names them only the types its place asks for.
pub fn infer_params(names: &Vec<String>, hint: &Type) -> (params: Vec<Capture>)
    ensures
        captures::capture_views(params@) == short_params(text::texts(names@), hint@),
{
    let mut params: Vec<Capture> = Vec::new();
    let ghost want = short_params(text::texts(names@), hint@);
    let mut i: usize = 0;
    while i < names.len()
        invariant
            i <= names.len(),
            params.len() == i,
            want == short_params(text::texts(names@), hint@),
            forall|j: int|
                0 <= j < i ==> (#[trigger] params@[j]).name@ == want[j].0 && params@[j].tp@
                    == want[j].1,
        decreases names.len() - i,
    {
        let tp: Type = match hint {
            Type::Function(ts, _, _) => {
                assert(hinted_params(hint@) == types::type_views(ts@));
                if i < ts.len() {
                    ts[i].copy()
                } else {
                    Type::Unknown(0)
                }
            },
            _ => Type::Unknown(0),
        };
        assert(want[i as int].1 == tp@);
        params.push(Capture { name: names[i].clone(), tp });
        i = i + 1;
    }
    assert(captures::capture_views(params@) =~= want);
    params
}

/// The names of the first `k` parameters whose type is not known.
pub open spec fn unresolved(params: Seq<(Seq<char>, types::Ty)>, k: int) -> Seq<Seq<char>>
    decreases k,
{
    if k <= 0 {
        Seq::empty()
    } else if types::unknown(params[k - 1].1) {
        unresolved(params, k - 1).push(params[k - 1].0)
    } else {
        unresolved(params, k - 1)
    }
}

/// The parameters whose type cannot be inferred: an error for each in the second pass.
pub fn unresolved_params(params: &Vec<Capture>, first_pass: bool) -> (out: Vec<String>)
    ensures
        text::texts(out@) == if first_pass {
            Seq::<Seq<char>>::empty()
        } else {
            unresolved(captures::capture_views(params@), params.len() as int)
        },
{
    let ghost all = captures::capture_views(params@);
    let mut out: Vec<String> = Vec::new();
    assert(text::texts(out@) =~= Seq::<Seq<char>>::empty());
    if first_pass {
        return out;
    }
    let mut i: usize = 0;
    while i < params.len()
        invariant
            i <= params.len(),
            all == captures::capture_views(params@),
            text::texts(out@) == unresolved(all, i as int),
        decreases params.len() - i,
    {
        assert(all[i as int] == (params@[i as int].name@, params@[i as int].tp@));
        if params[i].tp.is_unknown() {
            let ghost before = text::texts(out@);
            out.push(params[i].name.clone());
            assert(text::texts(out@) =~= before.push(all[i as int].0));
        }
        i = i + 1;
    }
    out
}

/// What a lambda returns: what is written at it, otherwise what its place asks for,
/// otherwise nothing that is known yet.
pub open spec fn asked_return(written: Option<types::Ty>, hint: types::Ty) -> types::Ty {
    match (written, hint) {
        (Some(t), _) => t,
        (None, types::Ty::Function(_, ret, _)) => *ret,
        (None, _) => types::Ty::Void,
    }
}

/// Whether a return type says what a lambda returns.
pub open spec fn says(t: types::Ty) -> bool {
    !types::unknown(t) && !(t is Void)
}

/// The return type that a pass stores: both passes store what is asked for, so that
/// they read the body alike; the first stores that nothing is asked for as well.
pub open spec fn stored_return(
    written: Option<types::Ty>,
    hint: types::Ty,
    first_pass: bool,
) -> Option<types::Ty> {
    let t = asked_return(written, hint);
    if first_pass {
        Some(
            if written is Some || says(t) {
                t
            } else {
                types::Ty::Void
            },
        )
    } else if says(t) {
        Some(t)
    } else {
        None
    }
}

/// The return type of a lambda as its place and a type written at it give it: the type
/// to store in this pass, if any, and whether the body has to say what is returned.
pub fn lambda_return(written: Option<Type>, hint: &Type, first_pass: bool) -> (r: (
    Option<Type>,
    bool,
))
    ensures
        ({
            let w = match written {
                Some(t) => Some(t@),
                None => None,
            };
            &&& match r.0 {
                Some(t) => stored_return(w, hint@, first_pass) == Some(t@),
                None => stored_return(w, hint@, first_pass) is None,
            }
            &&& r.1 == (written is None && !says(asked_return(w, hint@)))
        }),
{
    let by_hand: bool = written.is_some();
    let asked: Type = match written {
        Some(t) => t,
        None => match hint {
            Type::Function(_, ret, _) => ret.copy(),
            _ => Type::Void,
        },
    };
    let void: bool = match asked {
        Type::Void => true,
        _ => false,
    };
    let named: bool = !asked.is_unknown() && !void;
    let store: Option<Type> = if first_pass {
        if by_hand || named {
            Some(asked)
        } else {
            Some(Type::Void)
        }
    } else if named {
        Some(asked)
    } else {
        None
    };
    (store, !by_hand && !named)
}

/// The public type of a lambda: its declared parameters, what a caller gets, and the
/// variable that holds its captures where it has any.
pub open spec fn lambda_type_of(
    params: Seq<(Seq<char>, types::Ty)>,
    ret: types::Ty,
    work: Option<u16>,
) -> types::Ty {
    types::Ty::Function(
        Seq::new(params.len(), |i: int| params[i].1),
        Box::new(ret),
        match work {
            Some(w) => types::frame1(w),
            None => types::no_deps(),
        },
    )
}

/// The public type of a lambda with the parameters it declares.
pub fn lambda_type(params: &Vec<Capture>, ret: &Type, work: Option<u16>) -> (tp: Type)
    ensures
        tp@ == lambda_type_of(captures::capture_views(params@), ret@, work),
{
    let mut ts: Vec<Type> = Vec::new();
    let mut i: usize = 0;
    while i < params.len()
        invariant
            i <= params.len(),
            ts.len() == i,
            forall|j: int| 0 <= j < i ==> (#[trigger] ts@[j])@ == params@[j].tp@,
        decreases params.len() - i,
    {
        ts.push(params[i].tp.copy());
        i = i + 1;
    }
    let deps: Deps = match work {
        Some(w) => Deps::frame1(w),
        None => Deps::none(),
    };
    let ghost views = captures::capture_views(params@);
    assert(types::type_views(ts@) =~= Seq::new(views.len(), |i: int| views[i].1));
    Type::Function(ts, Box::new(ret.copy()), deps)
}

/// The parameter by which a lambda gets its captures.
pub open spec fn closure_attr(record: u32) -> data::AttrView {
    data::AttrView {
        name: "__closure"@,
        typedef: types::Ty::Reference(record, types::no_deps()),
        hidden: false,
        nullable: true,
        work_buffer: false,
    }
}

/// Let a lambda that captures something take the record of its captures as its last
/// parameter; the variable that holds it is answered.
pub fn add_closure_param(data: &mut Data, vars: &mut Function, lambda: u32, first_pass: bool) -> (
    r: Option<u16>)
    requires
        lambda < old(data).definitions.len(),
        old(vars).variables.len() < u16::MAX,
    ensures
        !carries(old(data).definitions@, lambda, first_pass) ==> r is None && *final(data) == *old(
            data,
        ) && *final(vars) == *old(vars),
        carries(old(data).definitions@, lambda, first_pass) ==> {
            let was = old(data).definitions@[lambda as int];
            let now = final(data).definitions@[lambda as int];
            &&& r == Some(old(vars).variables.len() as u16)
            &&& final(data).definitions@ == old(data).definitions@.update(
                lambda as int,
                Definition { attributes: now.attributes, ..was },
            )
            &&& data::attr_views(now.attributes@) == data::attr_views(was.attributes@).push(
                closure_attr(was.closure_record),
            )
            &&& final(vars)@.renames == old(vars)@.renames
            &&& final(vars)@.work_refs == old(vars)@.work_refs
            &&& final(vars)@.backings == old(vars)@.backings
            &&& final(vars)@.uniques == old(vars)@.uniques
            &&& final(vars)@.vars == old(vars)@.vars.push(
                (data::VarView {
                    argument: true,
                    ..data::plain_var(
                        "__closure"@,
                        types::Ty::Reference(was.closure_record, types::no_deps()),
                    )
                }),
            )
        },
{
    let record: u32 = data.definitions[lambda as usize].closure_record;
    if first_pass || record as usize >= data.definitions.len() {
        return None;
    }
    let ghost attrs = data.definitions@[lambda as int].attributes@;
    data.definitions[lambda as usize].attributes.push(
        Attribute {
            name: "__closure".to_owned(),
            typedef: Type::Reference(record, Deps::none()),
            hidden: false,
            nullable: true,
            work_buffer: false,
        },
    );
    assert(data::attr_views(data.definitions@[lambda as int].attributes@) =~= data::attr_views(
        attrs,
    ).push(closure_attr(record)));
    let mut var: Variable = Variable::plain(
        "__closure".to_owned(),
        Type::Reference(record, Deps::none()),
    );
    var.argument = true;
    Some(vars.add_variable(var))
}

/// The variables of a lambda with its first `k` parameters, as the first pass adds them.
pub open spec fn with_params(f: data::FnView, params: Seq<(Seq<char>, types::Ty)>, k: int) -> data::FnView {
    data::FnView {
        vars: f.vars + Seq::new(
            k as nat,
            |i: int|
                data::VarView { argument: true, ..data::plain_var(params[i].0, params[i].1) },
        ),
        ..f
    }
}

/// The variables of a lambda with the types of its first `k` parameters, as the second
/// pass knows them.
pub open spec fn with_param_types(
    defs: Seq<Definition>,
    f: data::FnView,
    params: Seq<(Seq<char>, types::Ty)>,
    k: int,
) -> data::FnView
    decreases k,
{
    if k <= 0 {
        f
    } else {
        let g = with_param_types(defs, f, params, k - 1);
        let t = params[k - 1].1;
        if cells::held_type(defs, g.vars[k - 1].tp) == Some(cells::value_type(t)) {
            g
        } else {
            data::with_var(
                g,
                (k - 1) as u16,
                data::VarView { tp: t, ..g.vars[k - 1] },
            )
        }
    }
}

/// Declare the parameters of a lambda: the first pass adds a variable for each, the
/// second gives those the types that are known by now.
pub fn declare_params(data: &Data, vars: &mut Function, params: &Vec<Capture>, first_pass: bool)
    requires
        first_pass ==> old(vars).variables.len() + params.len() <= u16::MAX,
        !first_pass ==> params.len() <= old(vars).variables.len() <= u16::MAX,
    ensures
        final(vars)@ == if first_pass {
            with_params(old(vars)@, captures::capture_views(params@), params.len() as int)
        } else {
            with_param_types(
                data.definitions@,
                old(vars)@,
                captures::capture_views(params@),
                params.len() as int,
            )
        },
{
    let ghost f = vars@;
    let ghost n = vars.variables.len();
    let ghost all = captures::capture_views(params@);
    let mut i: usize = 0;
    assert(with_params(f, all, 0).vars =~= f.vars);
    while i < params.len()
        invariant
            i <= params.len(),
            all == captures::capture_views(params@),
            first_pass ==> n + params.len() <= u16::MAX && vars.variables.len() == n + i,
            !first_pass ==> params.len() <= n <= u16::MAX && vars.variables.len() == n,
            vars@ == if first_pass {
                with_params(f, all, i as int)
            } else {
                with_param_types(data.definitions@, f, all, i as int)
            },
        decreases params.len() - i,
    {
        assert(all[i as int] == (params@[i as int].name@, params@[i as int].tp@));
        if first_pass {
            let mut var: Variable = Variable::plain(params[i].name.clone(), params[i].tp.copy());
            var.argument = true;
            let _ = vars.add_variable(var);
            assert(with_params(f, all, i + 1).vars =~= with_params(f, all, i as int).vars.push(
                (data::VarView {
                    argument: true,
                    ..data::plain_var(all[i as int].0, all[i as int].1)
                }),
            ));
        } else {
            cells::change_var_type(data, vars, i as u16, &params[i].tp);
        }
        i = i + 1;
    }
}

/// The parameters of a lambda with the types that became known for the first `k`.
pub open spec fn with_known_types(
    attrs: Seq<data::AttrView>,
    params: Seq<(Seq<char>, types::Ty)>,
    k: int,
) -> Seq<data::AttrView> {
    Seq::new(
        attrs.len(),
        |i: int|
            if i < k && i < params.len() && !types::unknown(params[i].1) {
                data::AttrView { typedef: params[i].1, ..attrs[i] }
            } else {
                attrs[i]
            },
    )
}

/// Give the parameters of a lambda that names them only the types that became known.
pub fn settle_params(data: &mut Data, lambda: u32, params: &Vec<Capture>)
    requires
        lambda < old(data).definitions.len(),
    ensures
        ({
            let was = old(data).definitions@[lambda as int];
            let now = final(data).definitions@[lambda as int];
            &&& final(data).definitions@ == old(data).definitions@.update(
                lambda as int,
                Definition { attributes: now.attributes, ..was },
            )
            &&& data::attr_views(now.attributes@) == with_known_types(
                data::attr_views(was.attributes@),
                captures::capture_views(params@),
                params.len() as int,
            )
        }),
{
    let ghost was = data.definitions@;
    let ghost attrs = data::attr_views(was[lambda as int].attributes@);
    let ghost all = captures::capture_views(params@);
    let mut i: usize = 0;
    assert(attrs =~= with_known_types(attrs, all, 0));
    while i < params.len() && i < data.definitions[lambda as usize].attributes.len()
        invariant
            i <= params.len(),
            lambda < data.definitions.len() == was.len(),
            all == captures::capture_views(params@),
            attrs == data::attr_views(was[lambda as int].attributes@),
            i <= attrs.len(),
            data.definitions@ == was.update(
                lambda as int,
                Definition {
                    attributes: data.definitions@[lambda as int].attributes,
                    ..was[lambda as int]
                },
            ),
            data::attr_views(data.definitions@[lambda as int].attributes@) == with_known_types(
                attrs,
                all,
                i as int,
            ),
        decreases params.len() - i,
    {
        let ghost had = data.definitions@[lambda as int].attributes@;
        let ghost now = data::attr_views(had);
        assert(now.len() == attrs.len());
        assert(all[i as int] == (params@[i as int].name@, params@[i as int].tp@));
        if !params[i].tp.is_unknown() {
            data.definitions[lambda as usize].attributes[i].typedef = params[i].tp.copy();
            let ghost has = data.definitions@[lambda as int].attributes@;
            assert(has[i as int]@ == (data::AttrView {
                typedef: all[i as int].1,
                ..now[i as int]
            }));
            assert(forall|j: int|
                0 <= j < had.len() && j != i ==> #[trigger] has[j] == had[j]);
        }
        assert(forall|j: int|
            0 <= j < had.len() && j != i ==> #[trigger] data::attr_views(
                data.definitions@[lambda as int].attributes@,
            )[j] == now[j]);
        i = i + 1;
        assert(data::attr_views(data.definitions@[lambda as int].attributes@)
            =~= with_known_types(attrs, all, i as int));
    }
    assert(data::attr_views(data.definitions@[lambda as int].attributes@)
        =~= with_known_types(attrs, all, params.len() as int));
}

proof fn found_before(
    s: Seq<(Seq<char>, types::Ty)>,
    more: Seq<(Seq<char>, types::Ty)>,
    name: Seq<char>,
    from: int,
)
    requires
        0 <= from <= s.len() <= more.len(),
        forall|i: int| 0 <= i < s.len() ==> #[trigger] more[i] == s[i],
        captures::capture_type(s, name, from) is Some,
    ensures
        captures::capture_type(more, name, from) == captures::capture_type(s, name, from),
    decreases s.len() - from,
{
    if from < s.len() {
        assert(more[from] == s[from]);
        if s[from].0 != name {
            found_before(s, more, name, from + 1);
        }
    }
}

proof fn near_kept(
    near: Seq<(Seq<char>, types::Ty)>,
    outer: Seq<(Seq<char>, types::Ty)>,
    k: int,
)
    requires
        0 <= k <= outer.len(),
    ensures
        with_outer(near, outer, k).len() >= near.len(),
        forall|i: int|
            0 <= i < near.len() ==> #[trigger] with_outer(near, outer, k)[i] == near[i],
    decreases k,
{
    if k > 0 {
        near_kept(near, outer, k - 1);
        let before = with_outer(near, outer, k - 1);
        assert forall|i: int| 0 <= i < near.len() implies #[trigger] with_outer(
            near,
            outer,
            k,
        )[i] == near[i] by {
            assert(before[i] == near[i]);
        }
    }
}

/// A name that the nearer scope binds shadows what the further one binds.
pub proof fn a_nearer_name_shadows(
    near: Seq<(Seq<char>, types::Ty)>,
    outer: Seq<(Seq<char>, types::Ty)>,
    name: Seq<char>,
)
    requires
        captures::capture_type(near, name, 0) is Some,
    ensures
        captures::capture_type(with_outer(near, outer, outer.len() as int), name, 0)
            == captures::capture_type(near, name, 0),
{
    near_kept(near, outer, outer.len() as int);
    found_before(near, with_outer(near, outer, outer.len() as int), name, 0);
}

proof fn kept_for(
    owners: Seq<(Seq<char>, u32)>,
    outer: Seq<(Seq<char>, types::Ty)>,
    k: int,
    j: int,
    name: Seq<char>,
)
    requires
        0 <= j < k <= outer.len(),
        outer[j].0 == name,
        owner_in(owners, name, 0) is Some,
    ensures
        exists|i: int|
            0 <= i < kept_owners(owners, outer, k).len() && (#[trigger] kept_owners(
                owners,
                outer,
                k,
            )[i]).0 == name,
    decreases k,
{
    let now = kept_owners(owners, outer, k);
    if j < k - 1 {
        kept_for(owners, outer, k - 1, j, name);
        let before = kept_owners(owners, outer, k - 1);
        let i = choose|i: int| 0 <= i < before.len() && (#[trigger] before[i]).0 == name;
        assert(now[i] == before[i]);
    } else {
        assert(now[now.len() - 1].0 == name);
    }
}

proof fn kept_agree(
    owners: Seq<(Seq<char>, u32)>,
    outer: Seq<(Seq<char>, types::Ty)>,
    k: int,
    i: int,
)
    requires
        0 <= k <= outer.len(),
        0 <= i < kept_owners(owners, outer, k).len(),
    ensures
        owner_in(owners, kept_owners(owners, outer, k)[i].0, 0) == Some(
            kept_owners(owners, outer, k)[i].1,
        ),
    decreases k,
{
    if k > 0 {
        let before = kept_owners(owners, outer, k - 1);
        if i < before.len() {
            kept_agree(owners, outer, k - 1, i);
        }
    }
}

proof fn first_kept(s: Seq<(Seq<char>, u32)>, name: Seq<char>, from: int, i: int, n: int, d: u32)
    requires
        0 <= from <= i < n <= s.len(),
        s[i].0 == name,
        forall|j: int| 0 <= j < n && (#[trigger] s[j]).0 == name ==> s[j].1 == d,
    ensures
        owner_in(s, name, from) == Some(d),
    decreases i - from,
{
    if s[from].0 != name {
        first_kept(s, name, from + 1, i, n, d);
    }
}

/// A name that the enclosing scope offers and knows the holder of keeps that holder,
/// also where the enclosing function has a variable of the name.
pub proof fn a_name_keeps_its_holder(
    vars: Seq<data::VarView>,
    context: u32,
    owners: Seq<(Seq<char>, u32)>,
    outer: Seq<(Seq<char>, types::Ty)>,
    j: int,
)
    requires
        0 <= j < outer.len(),
        owner_in(owners, outer[j].0, 0) is Some,
    ensures
        owner_in(scope_owners(vars, context, owners, outer), outer[j].0, 0) == owner_in(
            owners,
            outer[j].0,
            0,
        ),
{
    let name = outer[j].0;
    let n = outer.len() as int;
    let kept = kept_owners(owners, outer, n);
    let all = scope_owners(vars, context, owners, outer);
    let d = owner_in(owners, name, 0)->0;
    kept_for(owners, outer, n, j, name);
    let i = choose|i: int| 0 <= i < kept.len() && (#[trigger] kept[i]).0 == name;
    assert(all[i] == kept[i]);
    assert forall|m: int| 0 <= m < kept.len() && (#[trigger] all[m]).0 == name implies all[m].1
        == d by {
        assert(all[m] == kept[m]);
        kept_agree(owners, outer, n, m);
    }
    first_kept(all, name, 0, i, kept.len() as int, d);
}

/// A lambda that is put together: its value, its public type, the variable that holds
/// its captures, the variables it captures, and the captured parameters whose whole
/// value it replaces and may not.
pub struct Lambda {
    pub code: Value,
    pub tp: Type,
    pub work: Option<u16>,
    pub captured: Vec<u16>,
    pub refused: Vec<String>,
}

/// What surrounds a lambda: its name, the definition it stands in and the parameter by
/// which that reaches its own captures, what that can capture itself, the names that
/// the lambda replaces, its declared parameters and what a caller gets from it.
pub struct Around<'a> {
    pub name: &'a str,
    pub parent: u32,
    pub param: u16,
    pub owners: &'a Vec<Owner>,
    pub scope: &'a Vec<Capture>,
    pub replaced: &'a Vec<String>,
    pub params: &'a Vec<Capture>,
    pub ret: &'a Type,
}

/// The definitions before the return type of definition `parent` was changed.
pub open spec fn restored(now: Seq<Definition>, parent: u32, was: Definition) -> Seq<Definition> {
    now.update(parent as int, Definition { returned: was.returned, ..now[parent as int] })
}

/// Whether the value of a lambda, made in the definitions `mid`, is as it should be.
pub open spec fn emitted(
    mid: Seq<Definition>,
    now: Seq<Definition>,
    stores: Stores,
    f: data::FnView,
    types_now: Seq<schema::TypeView>,
    f_now: data::FnView,
    lambda: u32,
    a: Around,
    first_pass: bool,
    code: ir::Node,
    work: Option<u16>,
    captured: Seq<u16>,
) -> bool {
    if carries(mid, lambda, first_pass) {
        let w = f.vars.len() as u16;
        let b = closure_made(mid, stores, f, lambda, a.parent, a.param);
        let tp = closure_type(mid, lambda, a.ret@, w);
        &&& code == ir::block(
            "fn_ref_with_closure"@,
            b.steps.push(ir::leaf(ir::Head::FnRef(lambda as i32, w, tp))),
            tp,
        )
        &&& work == Some(w)
        &&& captured == b.captured
        &&& types_now == b.made.types
        &&& f_now == b.made.vars
        &&& now[a.parent as int].returned@ == carried_return(
            mid[a.parent as int].returned@,
            a.ret@,
            w,
        )
    } else {
        &&& code == ir::int_value(lambda as i32)
        &&& work is None
        &&& captured == Seq::<u16>::empty()
        &&& types_now == stores@
        &&& f_now == f
        &&& now == mid
    }
}

proof fn restoring(mid: Seq<Definition>, now: Seq<Definition>, parent: u32)
    requires
        parent < mid.len(),
        now == mid || now == mid.update(
            parent as int,
            Definition { returned: now[parent as int].returned, ..mid[parent as int] },
        ),
    ensures
        now.len() == mid.len(),
        restored(now, parent, mid[parent as int]) == mid,
{
    assert(restored(now, parent, mid[parent as int]) =~= mid);
}

fn emit_in(
    data: &mut Data,
    stores: &mut Stores,
    vars: &mut Function,
    lambda: u32,
    a: &Around,
    first_pass: bool,
) -> (r: Emitted)
    requires
        lambda < old(data).definitions.len() <= i32::MAX,
        a.parent < old(data).definitions.len(),
        old(stores).types.len() <= u16::MAX,
        !first_pass ==> tuples::laid_out(old(data).definitions@, *old(stores)),
        !first_pass ==> forall|d: int|
            0 <= d < old(data).definitions.len() ==> old(vars).variables.len() + 1 + (
            #[trigger] old(data).definitions@[d]).attributes.len() <= u16::MAX,
    ensures
        final(data).definitions.len() == old(data).definitions.len(),
        restored(
            final(data).definitions@,
            a.parent,
            old(data).definitions@[a.parent as int],
        ) == old(data).definitions@,
        emitted(
            old(data).definitions@,
            final(data).definitions@,
            *old(stores),
            old(vars)@,
            final(stores)@,
            final(vars)@,
            lambda,
            *a,
            first_pass,
            r.code@,
            r.work,
            r.captured@,
        ),
{
    let ghost mid = data.definitions@;
    let out: Emitted = emit_lambda_code(
        data,
        stores,
        vars,
        lambda,
        a.parent,
        a.param,
        a.ret,
        first_pass,
    );
    proof {
        restoring(mid, data.definitions@, a.parent);
        if !carries(mid, lambda, first_pass) {
            assert(out.captured@ =~= Seq::<u16>::empty());
        }
    }
    out
}

/// Finish a lambda whose body was read: record what it captures, let the enclosing
/// definition capture what it relays, and make its value and its type.
pub fn parse_lambda(
    data: &mut Data,
    stores: &mut Stores,
    vars: &mut Function,
    graph: &mut Vec<Lambdas>,
    lambda: u32,
    a: Around,
    captured: &mut Vec<Capture>,
    enclosing: &mut Vec<Capture>,
    first_pass: bool,
) -> (r: Lambda)
    requires
        lambda < old(data).definitions.len(),
        a.parent < old(data).definitions.len(),
        old(data).definitions.len() + old(captured).len() + 1 <= i32::MAX,
        old(data).definitions@[lambda as int].variables.variables.len() <= u16::MAX,
        old(stores).types.len() <= u16::MAX,
        old(vars).variables.len() <= u16::MAX,
        !first_pass ==> tuples::laid_out(old(data).definitions@, *old(stores)),
        !first_pass ==> forall|d: int|
            0 <= d < old(data).definitions.len() ==> old(vars).variables.len() + 1 + (
            #[trigger] old(data).definitions@[d]).attributes.len() <= u16::MAX,
    ensures
        ({
            let defs = old(data).definitions@;
            let now = final(data).definitions@;
            let mid = restored(now, a.parent, defs[a.parent as int]);
            let caps = captures::capture_views(old(captured)@);
            let after = captures::capture_views(final(captured)@);
            &&& caps.len() == 0 ==> mid == defs && after == caps && *final(graph) == *old(graph)
            &&& caps.len() > 0 ==> captures_recorded(
                defs,
                mid,
                lambda,
                a.name@,
                a.parent,
                a.owners@,
                caps,
                after,
                first_pass,
            )
            &&& caps.len() > 0 && first_pass ==> with_lambda(
                old(graph)@,
                final(graph)@,
                a.parent,
                lambda,
            )
            &&& caps.len() > 0 && !first_pass ==> *final(graph) == *old(graph)
            &&& text::texts(r.refused@) == rebound(
                old(vars)@,
                text::texts(a.replaced@),
                a.replaced.len() as int,
            )
            &&& captures::capture_views(final(enclosing)@) == relayed(
                old(vars)@,
                captures::capture_views(a.scope@),
                captures::capture_views(old(enclosing)@),
                after,
                after.len() as int,
            )
            &&& emitted(
                mid,
                now,
                *old(stores),
                old(vars)@,
                final(stores)@,
                final(vars)@,
                lambda,
                a,
                first_pass,
                r.code@,
                r.work,
                r.captured@,
            )
            &&& r.tp@ == lambda_type_of(captures::capture_views(a.params@), a.ret@, r.work)
        }),
{
    let ghost defs = data.definitions@;
    let ghost was = defs[a.parent as int];
    record_captures(data, lambda, a.name, a.parent, captured, a.owners, graph, first_pass);
    let ghost mid = data.definitions@;
    proof {
        recorded_keeps(
            defs,
            mid,
            lambda,
            a.name@,
            a.parent,
            a.owners@,
            captures::capture_views(old(captured)@),
            captures::capture_views(captured@),
            first_pass,
        );
    }
    let refused: Vec<String> = reject_rebound_heap_parameter_captures(vars, a.replaced);
    relay_nested_captures(vars, a.scope, enclosing, captured);
    assert(mid[a.parent as int].returned == was.returned);
    let out: Emitted = emit_in(data, stores, vars, lambda, &a, first_pass);
    proof {
        let now = data.definitions@;
        assert(restored(now, a.parent, was) == restored(now, a.parent, mid[a.parent as int]));
    }
    let tp: Type = lambda_type(a.params, a.ret, out.work);
    Lambda { code: out.code, tp, work: out.work, captured: out.captured, refused }
}

/// What the recording of captures leaves alone.
proof fn recorded_keeps(
    defs: Seq<Definition>,
    mid: Seq<Definition>,
    lambda: u32,
    name: Seq<char>,
    parent: u32,
    owners: Seq<Owner>,
    caps: Seq<(Seq<char>, types::Ty)>,
    after: Seq<(Seq<char>, types::Ty)>,
    first_pass: bool,
)
    requires
        lambda < defs.len(),
        parent < defs.len(),
        caps.len() == 0 ==> mid == defs,
        caps.len() > 0 ==> captures_recorded(
            defs,
            mid,
            lambda,
            name,
            parent,
            owners,
            caps,
            after,
            first_pass,
        ),
    ensures
        defs.len() <= mid.len() <= defs.len() + caps.len() + 1,
        !first_pass ==> mid.len() == defs.len(),
        mid[parent as int].returned == defs[parent as int].returned,
        forall|d: int|
            0 <= d < defs.len() ==> (#[trigger] mid[d]).known_type == defs[d].known_type
                && mid[d].attributes == defs[d].attributes,
{
    if caps.len() > 0 {
        let noted_defs = unrecorded(mid.take(defs.len() as int), lambda, defs[lambda as int]);
        few_cells(
            noted_defs,
            caps,
            text::texts(noted_defs[lambda as int].mutated_captures@),
            caps.len() as int,
        );
        assert forall|d: int| 0 <= d < defs.len() implies (#[trigger] mid[d]).known_type
            == defs[d].known_type && mid[d].attributes == defs[d].attributes && mid[d].returned
            == defs[d].returned by {
            assert(noted_defs[d] == (Definition {
                scalars_to_box: noted_defs[d].scalars_to_box,
                mutated_captures: noted_defs[d].mutated_captures,
                ..defs[d]
            }));
            assert(mid.take(defs.len() as int)[d] == mid[d]);
        }
    }
}

/// The signature of a lambda that names its parameters only: their types, the names
/// whose type cannot be told, the return type to store in this pass, if any, whether its
/// body has to say what it returns, and whether a return type stands at it, which is an
/// error.
pub struct Signature {
    pub params: Vec<Capture>,
    pub unresolved: Vec<String>,
    pub returned: Option<Type>,
    pub infers: bool,
    pub refused: bool,
}

/// Whether a signature is that of a lambda with parameters `names` in a place that asks
/// for `hint`, where `written` is a return type that stands at it all the same.
pub open spec fn signature_of(
    r: Signature,
    names: Seq<Seq<char>>,
    hint: types::Ty,
    written: Option<types::Ty>,
    first_pass: bool,
) -> bool {
    &&& captures::capture_views(r.params@) == short_params(names, hint)
    &&& text::texts(r.unresolved@) == if first_pass {
        Seq::<Seq<char>>::empty()
    } else {
        unresolved(short_params(names, hint), names.len() as int)
    }
    &&& match r.returned {
        Some(t) => stored_return(written, hint, first_pass) == Some(t@),
        None => stored_return(written, hint, first_pass) is None,
    }
    &&& r.infers == (written is None && !says(asked_return(written, hint)))
    &&& r.refused == (written is Some)
}

/// A return type that may not be written, as a value.
pub open spec fn written_view(t: Option<Type>) -> Option<types::Ty> {
    match t {
        Some(t) => Some(t@),
        None => None,
    }
}

/// The signature of a lambda that names its parameters only, in a place that asks for
/// `hint`; `written` is a return type that stands at it all the same.
pub fn short_signature(
    names: &Vec<String>,
    hint: &Type,
    written: Option<Type>,
    first_pass: bool,
) -> (r: Signature)
    ensures
        signature_of(r, text::texts(names@), hint@, written_view(written), first_pass),
        r.params.len() == names.len(),
{
    let refused: bool = written.is_some();
    let params: Vec<Capture> = infer_params(names, hint);
    assert(captures::capture_views(params@).len() == params.len());
    let unresolved: Vec<String> = unresolved_params(&params, first_pass);
    let (returned, infers): (Option<Type>, bool) = lambda_return(written, hint, first_pass);
    Signature { params, unresolved, returned, infers, refused }
}

/// The fields of every definition once a lambda is begun: what its captures left open is
/// resolved from the enclosing scope, and it takes the record of its captures.
pub open spec fn begun_fields(
    defs: Seq<Definition>,
    lambda: u32,
    scope: Seq<(Seq<char>, types::Ty)>,
    first_pass: bool,
) -> Seq<Seq<data::AttrView>> {
    let all = closures::fields(defs);
    if carries(defs, lambda, first_pass) {
        let record = defs[lambda as int].closure_record;
        let open = if closures::all_known(all[record as int]) {
            all
        } else {
            all.update(
                record as int,
                closures::resolved(defs, scope, all[record as int]),
            )
        };
        open.update(lambda as int, open[lambda as int].push(closure_attr(record)))
    } else {
        all
    }
}

/// The variables of a lambda with its parameters.
pub open spec fn with_declared(
    defs: Seq<Definition>,
    f: data::FnView,
    params: Seq<(Seq<char>, types::Ty)>,
    first_pass: bool,
) -> data::FnView {
    if first_pass {
        with_params(f, params, params.len() as int)
    } else {
        with_param_types(defs, f, params, params.len() as int)
    }
}

/// The variables of a lambda once it is begun: its parameters, and behind them the
/// record of its captures where it has one.
pub open spec fn begun_vars(
    defs: Seq<Definition>,
    f: data::FnView,
    lambda: u32,
    params: Seq<(Seq<char>, types::Ty)>,
    first_pass: bool,
) -> data::FnView {
    let g = with_declared(defs, f, params, first_pass);
    if carries(defs, lambda, first_pass) {
        data::FnView {
            vars: g.vars.push(
                data::VarView {
                    argument: true,
                    ..data::plain_var(
                        "__closure"@,
                        types::Ty::Reference(
                            defs[lambda as int].closure_record,
                            types::no_deps(),
                        ),
                    )
                },
            ),
            ..g
        }
    } else {
        g
    }
}

/// Whether the record of a lambda's captures has to be laid out before its body is read.
pub open spec fn layout_due(
    defs: Seq<Definition>,
    lambda: u32,
    scope: Seq<(Seq<char>, types::Ty)>,
    first_pass: bool,
) -> bool {
    carries(defs, lambda, first_pass) && {
        let record = defs[lambda as int].closure_record as int;
        let own = closures::fields(defs)[record];
        &&& !closures::all_known(own)
        &&& closures::all_known(closures::resolved(defs, scope, own))
        &&& defs[record].known_type == u16::MAX
    }
}

/// A lambda whose body can be read: whether the record of its captures has to be laid
/// out first, and the variable by which the body reaches them.
#[derive(Clone, Copy, Debug, PartialEq, Eq, Structural)]
pub struct Begun {
    pub lay_out: bool,
    pub param: Option<u16>,
}

proof fn pushed_field(
    defs: Seq<Definition>,
    mid: Seq<Definition>,
    now: Seq<Definition>,
    lambda: u32,
)
    requires
        closures::same_but_fields(defs, mid),
        lambda < defs.len(),
        now == mid.update(
            lambda as int,
            Definition { attributes: now[lambda as int].attributes, ..mid[lambda as int] },
        ),
    ensures
        closures::same_but_fields(defs, now),
        closures::fields(now) == closures::fields(mid).update(
            lambda as int,
            data::attr_views(now[lambda as int].attributes@),
        ),
{
    assert forall|d: int| 0 <= d < defs.len() implies #[trigger] now[d] == (Definition {
        attributes: now[d].attributes,
        ..defs[d]
    }) by {
        assert(mid[d] == (Definition { attributes: mid[d].attributes, ..defs[d] }));
    }
    assert(closures::fields(now) =~= closures::fields(mid).update(
        lambda as int,
        data::attr_views(now[lambda as int].attributes@),
    ));
}

/// Begin a lambda, however it is written: declare its parameters, resolve what the first
/// pass left open of its captures, and let it take the record of them.  Its body is read
/// behind that.
pub fn begin_lambda(
    data: &mut Data,
    vars: &mut Function,
    lambda: u32,
    params: &Vec<Capture>,
    scope: &Vec<Capture>,
    first_pass: bool,
) -> (r: Begun)
    requires
        lambda < old(data).definitions.len() <= u32::MAX,
        first_pass ==> old(vars).variables.len() + params.len() <= u16::MAX,
        !first_pass ==> params.len() <= old(vars).variables.len() < u16::MAX,
    ensures
        closures::same_but_fields(old(data).definitions@, final(data).definitions@),
        closures::fields(final(data).definitions@) == begun_fields(
            old(data).definitions@,
            lambda,
            captures::capture_views(scope@),
            first_pass,
        ),
        final(vars)@ == begun_vars(
            old(data).definitions@,
            old(vars)@,
            lambda,
            captures::capture_views(params@),
            first_pass,
        ),
        r.lay_out == layout_due(
            old(data).definitions@,
            lambda,
            captures::capture_views(scope@),
            first_pass,
        ),
        r.param == if carries(old(data).definitions@, lambda, first_pass) {
            Some((final(vars)@.vars.len() - 1) as u16)
        } else {
            None
        },
{
    let ghost defs = data.definitions@;
    declare_params(data, vars, params, first_pass);
    let ghost declared = vars@;
    assert(!first_pass ==> declared.vars.len() == old(vars)@.vars.len()) by {
        if !first_pass {
            typed_len(defs, old(vars)@, captures::capture_views(params@), params.len() as int);
        }
    }
    let record: u32 = data.definitions[lambda as usize].closure_record;
    let lay_out: bool = closures::resolve_forward_captures(data, record, scope, first_pass);
    let ghost mid = data.definitions@;
    proof {
        assert(closures::fields(defs)[lambda as int] == data::attr_views(
            defs[lambda as int].attributes@,
        ));
        assert(mid[lambda as int].closure_record == record);
        if record < defs.len() {
            assert(closures::fields(defs)[record as int] == data::attr_views(
                defs[record as int].attributes@,
            ));
        }
    }
    if first_pass {
        return Begun { lay_out, param: None };
    }
    let param: Option<u16> = add_closure_param(data, vars, lambda, first_pass);
    proof {
        if carries(defs, lambda, first_pass) {
            pushed_field(defs, mid, data.definitions@, lambda);
            assert(closures::fields(mid)[lambda as int] == data::attr_views(
                mid[lambda as int].attributes@,
            ));
        }
        assert(vars@ == begun_vars(
            defs,
            old(vars)@,
            lambda,
            captures::capture_views(params@),
            first_pass,
        ));
    }
    Begun { lay_out, param }
}

proof fn typed_len(
    defs: Seq<Definition>,
    f: data::FnView,
    params: Seq<(Seq<char>, types::Ty)>,
    k: int,
)
    requires
        k <= f.vars.len() <= u16::MAX,
    ensures
        with_param_types(defs, f, params, k).vars.len() == f.vars.len(),
    decreases k,
{
    if k > 0 {
        typed_len(defs, f, params, k - 1);
    }
}

/// Read the head of a lambda that names its parameters only, and begin it as any other:
/// the types of its parameters are those that its place asks for, and its definition
/// gets those that became known.
pub fn parse_lambda_short(
    data: &mut Data,
    vars: &mut Function,
    lambda: u32,
    names: &Vec<String>,
    hint: &Type,
    written: Option<Type>,
    scope: &Vec<Capture>,
    first_pass: bool,
) -> (r: (Signature, Begun))
    requires
        lambda < old(data).definitions.len() <= u32::MAX,
        names.len() <= old(data).definitions@[lambda as int].attributes.len(),
        first_pass ==> old(vars).variables.len() + names.len() <= u16::MAX,
        !first_pass ==> names.len() <= old(vars).variables.len() < u16::MAX,
    ensures
        signature_of(r.0, text::texts(names@), hint@, written_view(written), first_pass),
        ({
            let defs = old(data).definitions@;
            let params = short_params(text::texts(names@), hint@);
            let begun = begun_fields(
                defs,
                lambda,
                captures::capture_views(scope@),
                first_pass,
            );
            &&& closures::same_but_fields(defs, final(data).definitions@)
            &&& closures::fields(final(data).definitions@) == if first_pass {
                begun
            } else {
                begun.update(
                    lambda as int,
                    with_known_types(begun[lambda as int], params, names.len() as int),
                )
            }
            &&& final(vars)@ == begun_vars(defs, old(vars)@, lambda, params, first_pass)
            &&& r.1.lay_out == layout_due(
                defs,
                lambda,
                captures::capture_views(scope@),
                first_pass,
            )
            &&& r.1.param == if carries(defs, lambda, first_pass) {
                Some((final(vars)@.vars.len() - 1) as u16)
            } else {
                None
            }
        }),
{
    let ghost defs = data.definitions@;
    let signature: Signature = short_signature(names, hint, written, first_pass);
    let begun: Begun = begin_lambda(data, vars, lambda, &signature.params, scope, first_pass);
    let ghost mid = data.definitions@;
    if !first_pass {
        settle_params(data, lambda, &signature.params);
        proof {
            pushed_field(defs, mid, data.definitions@, lambda);
            assert(closures::fields(mid)[lambda as int] == data::attr_views(
                mid[lambda as int].attributes@,
            ));
        }
    }
    (signature, begun)
}

/// However a lambda is written, its body finds the same captures: those of one that
/// names its parameters only are those of one that declares them.
pub proof fn both_forms_capture_alike(
    defs: Seq<Definition>,
    lambda: u32,
    scope: Seq<(Seq<char>, types::Ty)>,
    params: Seq<(Seq<char>, types::Ty)>,
    first_pass: bool,
)
    requires
        lambda < defs.len(),
        defs[lambda as int].closure_record != lambda,
        carries(defs, lambda, first_pass),
    ensures
        ({
            let record = defs[lambda as int].closure_record as int;
            let long = begun_fields(defs, lambda, scope, first_pass);
            let short = long.update(
                lambda as int,
                with_known_types(long[lambda as int], params, params.len() as int),
            );
            &&& short[record] == long[record]
            &&& forall|i: int|
                0 <= i < long[record].len() ==> #[trigger] long[record][i]
                    == closures::resolved_field(
                    defs,
                    scope,
                    data::attr_views(defs[record].attributes@)[i],
                )
        }),
{
    let record = defs[lambda as int].closure_record as int;
    let own = data::attr_views(defs[record].attributes@);
    let long = begun_fields(defs, lambda, scope, first_pass);
    assert(closures::fields(defs)[record] == own);
    if closures::all_known(own) {
        assert forall|i: int| 0 <= i < long[record].len() implies #[trigger] long[record][i]
            == closures::resolved_field(defs, scope, own[i]) by {
            assert(!types::unknown(own[i].typedef));
        }
    }
}

/// The first `n` parameters of a definition, each with its name.
pub open spec fn declared(attrs: Seq<data::AttrView>, n: int) -> Seq<(Seq<char>, types::Ty)> {
    Seq::new(n as nat, |i: int| (attrs[i].name, attrs[i].typedef))
}

/// The parameters that the public type of a lambda shows when it only names them: the
/// first `n` of its definition, with the types that this has by now.  What follows them
/// is handed over behind the back of the caller.
pub fn published_params(data: &Data, lambda: u32, n: usize) -> (params: Vec<Capture>)
    requires
        lambda < data.definitions.len(),
        n <= data.definitions@[lambda as int].attributes.len(),
    ensures
        captures::capture_views(params@) == declared(
            data::attr_views(data.definitions@[lambda as int].attributes@),
            n as int,
        ),
{
    let attrs: &Vec<Attribute> = &data.definitions[lambda as usize].attributes;
    let mut params: Vec<Capture> = Vec::new();
    let mut i: usize = 0;
    while i < n
        invariant
            i <= n <= attrs.len(),
            params.len() == i,
            forall|j: int|
                0 <= j < i ==> (#[trigger] params@[j]).name@ == attrs@[j].name@ && params@[j].tp@
                    == attrs@[j].typedef@,
        decreases n - i,
    {
        params.push(Capture { name: attrs[i].name.clone(), tp: attrs[i].typedef.copy() });
        i = i + 1;
    }
    assert(captures::capture_views(params@) =~= declared(data::attr_views(attrs@), n as int));
    params
}

/// Once its parameters are settled, a lambda that only names them shows what its place
/// asks for, and where that says nothing, what its definition had.
pub proof fn a_place_decides_the_parameters(
    attrs: Seq<data::AttrView>,
    names: Seq<Seq<char>>,
    hint: types::Ty,
)
    requires
        names.len() <= attrs.len(),
    ensures
        ({
            let params = short_params(names, hint);
            let n = names.len() as int;
            forall|i: int|
                0 <= i < n ==> (#[trigger] declared(with_known_types(attrs, params, n), n)[i]).1
                    == if types::unknown(params[i].1) {
                    attrs[i].typedef
                } else {
                    params[i].1
                }
        }),
{
}

} // verus!
