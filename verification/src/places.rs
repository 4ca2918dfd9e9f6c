//! Places inside variables, and what reads them.
//!
//! A literal that is built in place of a collection must not read what it replaces
//! half built.  A place is a variable and the steps from it to a field, an element
//! or a capture; two expressions that name one place read the same storage.

use crate::cells;
use crate::data::{self, Data, Definition, Function};
use crate::ir::{self, Value};
use crate::text;
use crate::types::{self, Deps, Type};
use crate::vector_store::{self, Holder};
use vstd::prelude::*;

verus! {

/// One step from a record or collection to a part of it.
#[derive(Clone, Copy, Debug, PartialEq, Eq, Structural)]
pub enum PlaceStep {
    Field(i32),
    ElemConst(i32),
    ElemVar(u16),
    Capture(i32),
}

/// The operand that says which element an operator reads.
pub open spec fn index_operand(name: Seq<char>) -> Option<int> {
    if name == "OpGetVector"@ || name == "OpGetVectorNullable"@ {
        Some(2)
    } else if name == "OpVectorRef"@ || name == "OpVectorRefNullable"@ {
        Some(1)
    } else {
        None
    }
}

fn element_index_arg(name: &str) -> (at: Option<usize>)
    ensures
        match at {
            Some(i) => index_operand(name@) == Some(i as int),
            None => index_operand(name@) is None,
        },
{
    if text::same(name, "OpGetVector") || text::same(name, "OpGetVectorNullable") {
        Some(2)
    } else if text::same(name, "OpVectorRef") || text::same(name, "OpVectorRefNullable") {
        Some(1)
    } else {
        None
    }
}

/// The step that a call of definition `d` makes from its first operand.
pub open spec fn step_of(defs: Seq<Definition>, d: u32, args: Seq<ir::Node>) -> Option<PlaceStep> {
    if d == vector_store::op(defs, "OpGetField"@) {
        if args.len() > 1 {
            match ir::unspan(args[1]).head {
                ir::Head::Int(off) => Some(PlaceStep::Field(off)),
                _ => None,
            }
        } else {
            None
        }
    } else {
        match index_operand(cells::name_of(defs, d)) {
            Some(at) => if at < args.len() {
                match ir::unspan(args[at]).head {
                    ir::Head::Int(i) => Some(PlaceStep::ElemConst(i)),
                    ir::Head::Var(i) => Some(PlaceStep::ElemVar(i)),
                    _ => None,
                }
            } else {
                None
            },
            None => if cells::name_of(defs, d) == "OpGetDbRef"@ && args.len() > 1 {
                match ir::unspan(args[1]).head {
                    ir::Head::Int(off) => Some(PlaceStep::Capture(off)),
                    _ => None,
                }
            } else {
                None
            },
        }
    }
}

/// The place that an expression names: a variable and the steps from it.
pub open spec fn place_of(defs: Seq<Definition>, n: ir::Node) -> Option<(u16, Seq<PlaceStep>)>
    decreases n,
{
    if n.head is Span && n.kids.len() > 0 {
        place_of(defs, n.kids[0])
    } else {
        match n.head {
            ir::Head::Var(x) => Some((x, Seq::empty())),
            ir::Head::Call(d) => if n.kids.len() > 0 {
                match step_of(defs, d, n.kids) {
                    Some(step) => match place_of(defs, n.kids[0]) {
                        Some((root, path)) => Some((root, path.push(step))),
                        None => None,
                    },
                    None => None,
                }
            } else {
                None
            },
            _ => None,
        }
    }
}

fn int_or_var(v: &Value) -> (r: (Option<i32>, Option<u16>))
    ensures
        r.0 == (match ir::unspan(v@).head {
            ir::Head::Int(i) => Some(i),
            _ => None,
        }),
        r.1 == (match ir::unspan(v@).head {
            ir::Head::Var(x) => Some(x),
            _ => None,
        }),
{
    match v.unspan() {
        Value::Int(i) => (Some(*i), None),
        Value::Var(x) => (None, Some(*x)),
        _ => (None, None),
    }
}

fn find_step(data: &Data, d: u32, args: &Vec<Value>) -> (step: Option<PlaceStep>)
    requires
        data.definitions.len() <= u32::MAX,
    ensures
        step == step_of(data.definitions@, d, ir::views(args@)),
{
    proof {
        ir::view_at(args@);
    }
    if d == data.def_nr("OpGetField") {
        if args.len() > 1 {
            return match int_or_var(&args[1]).0 {
                Some(off) => Some(PlaceStep::Field(off)),
                None => None,
            };
        }
        return None;
    }
    let name: &str = cells::def_name(data, d);
    match element_index_arg(name) {
        Some(at) => {
            if at < args.len() {
                match int_or_var(&args[at]) {
                    (Some(i), _) => Some(PlaceStep::ElemConst(i)),
                    (None, Some(x)) => Some(PlaceStep::ElemVar(x)),
                    (None, None) => None,
                }
            } else {
                None
            }
        },
        None => {
            if text::same(name, "OpGetDbRef") && args.len() > 1 {
                match int_or_var(&args[1]).0 {
                    Some(off) => Some(PlaceStep::Capture(off)),
                    None => None,
                }
            } else {
                None
            }
        },
    }
}

/// The place that an expression names.
pub fn field_place(data: &Data, v: &Value) -> (r: Option<(u16, Vec<PlaceStep>)>)
    requires
        data.definitions.len() <= u32::MAX,
    ensures
        match r {
            Some((root, path)) => place_of(data.definitions@, v@) == Some((root, path@)),
            None => place_of(data.definitions@, v@) is None,
        },
    decreases v,
{
    proof {
        ir::shape(*v);
    }
    match v {
        Value::Span(_, inner) => {
            assert(v@.kids[0] == inner@);
            field_place(data, inner)
        },
        Value::Var(x) => {
            let path: Vec<PlaceStep> = Vec::new();
            assert(path@ =~= Seq::<PlaceStep>::empty());
            Some((*x, path))
        },
        Value::Call(d, args) => {
            proof {
                ir::view_at(args@);
            }
            if args.len() == 0 {
                return None;
            }
            match find_step(data, *d, args) {
                Some(step) => {
                    assert(decreases_to!(*args => args[0]));
                    match field_place(data, &args[0]) {
                        Some((root, path)) => {
                            let mut path = path;
                            path.push(step);
                            Some((root, path))
                        },
                        None => None,
                    }
                },
                None => None,
            }
        },
        _ => None,
    }
}

/// The expressions that name a place.
pub open spec fn names_place(
    defs: Seq<Definition>,
    root: u16,
    path: Seq<PlaceStep>,
) -> spec_fn(ir::Node) -> bool {
    |n: ir::Node| place_of(defs, n) == Some((root, path))
}

fn same_steps(a: &Vec<PlaceStep>, b: &Vec<PlaceStep>) -> (r: bool)
    ensures
        r == (a@ == b@),
{
    if a.len() != b.len() {
        return false;
    }
    let mut i: usize = 0;
    while i < a.len()
        invariant
            i <= a.len(),
            a.len() == b.len(),
            forall|j: int| 0 <= j < i ==> a@[j] == b@[j],
        decreases a.len() - i,
    {
        if a[i] != b[i] {
            return false;
        }
        i = i + 1;
    }
    assert(a@ =~= b@);
    true
}

fn is_place(data: &Data, v: &Value, root: u16, path: &Vec<PlaceStep>) -> (r: bool)
    requires
        data.definitions.len() <= u32::MAX,
    ensures
        r == names_place(data.definitions@, root, path@)(v@),
{
    match field_place(data, v) {
        Some((x, steps)) => x == root && same_steps(&steps, path),
        None => false,
    }
}

fn reads_place(data: &Data, v: &Value, root: u16, path: &Vec<PlaceStep>) -> (found: bool)
    requires
        data.definitions.len() <= u32::MAX,
    ensures
        found == ir::any(v@, names_place(data.definitions@, root, path@)),
    decreases v,
{
    if is_place(data, v, root, path) {
        return true;
    }
    let kids: Vec<&Value> = v.children();
    let ghost p = names_place(data.definitions@, root, path@);
    let mut i: usize = 0;
    assert(v@.kids.take(0) =~= Seq::<ir::Node>::empty());
    while i < kids.len()
        invariant
            i <= kids.len(),
            data.definitions.len() <= u32::MAX,
            p == names_place(data.definitions@, root, path@),
            !p(v@),
            kids.len() == v@.kids.len(),
            forall|j: int| 0 <= j < kids.len() ==> (#[trigger] kids@[j])@ == v@.kids[j],
            forall|j: int| 0 <= j < kids.len() ==> decreases_to!(*v => *#[trigger] kids@[j]),
            !ir::any_in(v@.kids.take(i as int), p),
        decreases kids.len() - i,
    {
        proof {
            ir::any_step(v@.kids, p, i as int);
        }
        if reads_place(data, kids[i], root, path) {
            proof {
                ir::any_prefix(v@.kids, p, i + 1);
            }
            return true;
        }
        i = i + 1;
    }
    assert(v@.kids.take(i as int) =~= v@.kids);
    false
}

/// The code with a variable in the stead of every expression that names a place.
pub open spec fn with_place(
    defs: Seq<Definition>,
    n: ir::Node,
    root: u16,
    path: Seq<PlaceStep>,
    src: u16,
) -> ir::Node
    decreases n,
{
    if names_place(defs, root, path)(n) {
        ir::var(src)
    } else {
        ir::Node { head: n.head, kids: with_place_all(defs, n.kids, root, path, src) }
    }
}

/// A list of nodes with a variable in the stead of every expression that names a
/// place.
pub open spec fn with_place_all(
    defs: Seq<Definition>,
    s: Seq<ir::Node>,
    root: u16,
    path: Seq<PlaceStep>,
    src: u16,
) -> Seq<ir::Node>
    decreases s,
{
    Seq::new(
        s.len(),
        |i: int|
            if 0 <= i < s.len() {
                with_place(defs, s[i], root, path, src)
            } else {
                ir::leaf(ir::Head::Null)
            },
    )
}

fn replace_place(data: &Data, v: &Value, root: u16, path: &Vec<PlaceStep>, src: u16) -> (out: Value)
    requires
        data.definitions.len() <= u32::MAX,
    ensures
        out@ == with_place(data.definitions@, v@, root, path@, src),
    decreases v,
{
    if is_place(data, v, root, path) {
        return Value::Var(src);
    }
    let kids: Vec<&Value> = v.children();
    let mut out: Vec<Value> = Vec::new();
    let mut i: usize = 0;
    while i < kids.len()
        invariant
            i <= kids.len(),
            data.definitions.len() <= u32::MAX,
            out.len() == i,
            kids.len() == v@.kids.len(),
            forall|j: int| 0 <= j < kids.len() ==> (#[trigger] kids@[j])@ == v@.kids[j],
            forall|j: int| 0 <= j < kids.len() ==> decreases_to!(*v => *#[trigger] kids@[j]),
            forall|j: int|
                0 <= j < i ==> (#[trigger] out@[j])@ == with_place(
                    data.definitions@,
                    v@.kids[j],
                    root,
                    path@,
                    src,
                ),
        decreases kids.len() - i,
    {
        out.push(replace_place(data, kids[i], root, path, src));
        i = i + 1;
    }
    assert(ir::views(out@) =~= with_place_all(data.definitions@, v@.kids, root, path@, src));
    v.rebuild(out)
}

/// Whether an expression is the read of a field.
pub open spec fn is_field_read(defs: Seq<Definition>, n: ir::Node) -> bool {
    ir::unspan(n).head == ir::Head::Call(vector_store::op(defs, "OpGetField"@))
}

/// Whether an expression is the read of a field.
pub fn is_field(data: &Data, v: &Value) -> (r: bool)
    requires
        data.definitions.len() <= u32::MAX,
    ensures
        r == is_field_read(data.definitions@, v@),
{
    let m: &Value = v.unspan();
    proof {
        ir::shape(*m);
    }
    match m {
        Value::Call(d, _) => *d == data.def_nr("OpGetField"),
        _ => false,
    }
}

/// Whether an expression is the read of a shared capture.
pub open spec fn is_capture_read(defs: Seq<Definition>, n: ir::Node) -> bool {
    ir::unspan(n).head == ir::Head::Call(vector_store::op(defs, "OpGetDbRef"@))
}

/// Whether an expression is the read of a shared capture.
pub fn is_captured_dbref(data: &Data, v: &Value) -> (r: bool)
    requires
        data.definitions.len() <= u32::MAX,
    ensures
        r == is_capture_read(data.definitions@, v@),
{
    let m: &Value = v.unspan();
    proof {
        ir::shape(*m);
    }
    match m {
        Value::Call(d, _) => *d == data.def_nr("OpGetDbRef"),
        _ => false,
    }
}

/// Whether a source names a collection that exists rather than building one.
pub open spec fn names_collection(defs: Seq<Definition>, n: ir::Node) -> bool {
    match ir::unspan(n).head {
        ir::Head::Var(v) => v != u16::MAX,
        ir::Head::TupleGet(_, _) => true,
        ir::Head::Call(d) => text::is_prefix("OpGet"@, cells::name_of(defs, d)),
        _ => false,
    }
}

/// Whether a source names a collection that exists rather than building one.
pub fn source_names_a_collection(data: &Data, v: &Value) -> (r: bool)
    ensures
        r == names_collection(data.definitions@, v@),
{
    let m: &Value = v.unspan();
    proof {
        ir::shape(*m);
    }
    match m {
        Value::Var(x) => *x != u16::MAX,
        Value::TupleGet(_, _) => true,
        Value::Call(d, _) => text::starts_with(cells::def_name(data, *d), "OpGet"),
        _ => false,
    }
}

/// What is being assigned: the variable, and whether its value is replaced.
#[derive(Clone, Copy, Debug, PartialEq, Eq, Structural)]
pub struct Assignment {
    pub target: u16,
    pub replaces: bool,
}

/// Whether one of the nodes reads variable `v`.
pub open spec fn reads(s: Seq<ir::Node>, v: u16) -> bool {
    exists|i: int| 0 <= i < s.len() && ir::read(#[trigger] s[i], v)
}

/// Whether one of the nodes reads one of the variables.
pub open spec fn reads_one(s: Seq<ir::Node>, vars: Seq<u16>) -> bool {
    exists|i: int| 0 <= i < vars.len() && reads(s, #[trigger] vars[i])
}

fn any_reads(s: &Vec<Value>, v: u16) -> (r: bool)
    ensures
        r == reads(ir::views(s@), v),
{
    proof {
        ir::view_at(s@);
    }
    let mut i: usize = 0;
    while i < s.len()
        invariant
            i <= s.len(),
            forall|j: int| 0 <= j < i ==> !ir::read(#[trigger] ir::views(s@)[j], v),
        decreases s.len() - i,
    {
        if s[i].reads_var(v) {
            assert(ir::read(ir::views(s@)[i as int], v));
            return true;
        }
        i = i + 1;
    }
    false
}

fn any_reads_one(s: &Vec<Value>, vars: &Vec<u16>) -> (r: bool)
    ensures
        r == reads_one(ir::views(s@), vars@),
{
    let mut i: usize = 0;
    while i < vars.len()
        invariant
            i <= vars.len(),
            forall|j: int| 0 <= j < i ==> !reads(ir::views(s@), #[trigger] vars@[j]),
        decreases vars.len() - i,
    {
        if any_reads(s, vars[i]) {
            assert(reads(ir::views(s@), vars@[i as int]));
            return true;
        }
        i = i + 1;
    }
    false
}

/// The variables that the first `k` names of linked vectors stand for, apart from
/// `v`.
pub open spec fn partners(f: data::FnView, names: Seq<Seq<char>>, v: u16, k: int) -> Seq<u16>
    decreases k,
{
    if k <= 0 {
        Seq::empty()
    } else {
        let before = partners(f, names, v, k - 1);
        let x = data::named_in(f, names[k - 1]);
        if x != u16::MAX && x != v {
            before.push(x)
        } else {
            before
        }
    }
}

/// The variables that share the storage of vector `v` through a link; `names` are
/// those that the source links it to.
pub fn vector_link_partner_vars(vars: &Function, names: &Vec<String>, v: u16) -> (out: Vec<u16>)
    requires
        vars.variables.len() <= u16::MAX,
    ensures
        out@ == if v == u16::MAX {
            Seq::empty()
        } else {
            partners(vars@, text::texts(names@), v, names.len() as int)
        },
{
    let mut out: Vec<u16> = Vec::new();
    assert(out@ =~= Seq::<u16>::empty());
    if v == u16::MAX {
        return out;
    }
    let mut i: usize = 0;
    while i < names.len()
        invariant
            i <= names.len(),
            vars.variables.len() <= u16::MAX,
            out@ == partners(vars@, text::texts(names@), v, i as int),
        decreases names.len() - i,
    {
        let x: u16 = vars.lookup(names[i].as_str());
        if x != u16::MAX && x != v {
            out.push(x);
        }
        i = i + 1;
    }
    out
}

/// Whether a literal that replaces the value of `v` reads that value: by its name,
/// or through a vector that is linked to it.
pub open spec fn reads_target(
    a: Assignment,
    v: u16,
    is_var: bool,
    linked: Seq<u16>,
    parts: Seq<ir::Node>,
) -> bool {
    is_var && v != u16::MAX && v == a.target && a.replaces && (reads(parts, v) || reads_one(
        parts,
        linked,
    ))
}

/// Whether a literal that replaces the value of `v` reads that value.
pub fn comprehension_reads_target(
    a: Assignment,
    v: u16,
    is_var: bool,
    linked: &Vec<u16>,
    parts: &Vec<Value>,
) -> (r: bool)
    ensures
        r == reads_target(a, v, is_var, linked@, ir::views(parts@)),
{
    is_var && v != u16::MAX && v == a.target && a.replaces && (any_reads(parts, v)
        || any_reads_one(parts, linked))
}

/// The variable that an expression starts at.
pub open spec fn base_var(n: ir::Node) -> Option<u16>
    decreases n,
{
    if n.head is Span && n.kids.len() > 0 {
        base_var(n.kids[0])
    } else {
        match n.head {
            ir::Head::Var(x) | ir::Head::TupleGet(x, _) => Some(x),
            ir::Head::Call(_) => if n.kids.len() > 0 {
                base_var(n.kids[0])
            } else {
                None
            },
            _ => None,
        }
    }
}

fn find_base_var(v: &Value) -> (r: Option<u16>)
    ensures
        r == base_var(v@),
    decreases v,
{
    proof {
        ir::shape(*v);
    }
    match v {
        Value::Span(_, inner) => {
            assert(v@.kids[0] == inner@);
            find_base_var(inner)
        },
        Value::Var(x) | Value::TupleGet(x, _) => Some(*x),
        Value::Call(_, args) => {
            proof {
                ir::view_at(args@);
            }
            if args.len() > 0 {
                assert(decreases_to!(*args => args[0]));
                find_base_var(&args[0])
            } else {
                None
            }
        },
        _ => None,
    }
}

/// Whether one of the nodes names a place.
pub open spec fn names_in(
    defs: Seq<Definition>,
    s: Seq<ir::Node>,
    root: u16,
    path: Seq<PlaceStep>,
) -> bool {
    exists|i: int| 0 <= i < s.len() && ir::any(#[trigger] s[i], names_place(defs, root, path))
}

fn any_reads_place(data: &Data, s: &Vec<Value>, root: u16, path: &Vec<PlaceStep>) -> (r: bool)
    requires
        data.definitions.len() <= u32::MAX,
    ensures
        r == names_in(data.definitions@, ir::views(s@), root, path@),
{
    proof {
        ir::view_at(s@);
    }
    let ghost p = names_place(data.definitions@, root, path@);
    let mut i: usize = 0;
    while i < s.len()
        invariant
            i <= s.len(),
            data.definitions.len() <= u32::MAX,
            p == names_place(data.definitions@, root, path@),
            forall|j: int| 0 <= j < i ==> !ir::any(#[trigger] ir::views(s@)[j], p),
        decreases s.len() - i,
    {
        if reads_place(data, &s[i], root, path) {
            assert(ir::any(ir::views(s@)[i as int], p));
            return true;
        }
        i = i + 1;
    }
    false
}

/// Whether a literal has to be built apart from its destination: one for a field
/// reads the place it is built in, or starts at the same variable where the place is
/// unclear; one for a variable reads what is appended to.
pub open spec fn needs_own_buffer(
    defs: Seq<Definition>,
    a: Assignment,
    v: u16,
    dest: ir::Node,
    is_var: bool,
    is_field: bool,
    parts: Seq<ir::Node>,
) -> bool {
    if is_field {
        match place_of(defs, dest) {
            Some((root, path)) => names_in(defs, parts, root, path),
            None => match base_var(dest) {
                Some(root) => reads(parts, root),
                None => false,
            },
        }
    } else {
        is_var && v != u16::MAX && v == a.target && !a.replaces && reads(parts, v)
    }
}

/// Whether a literal has to be built apart from its destination.
pub fn comprehension_needs_own_buffer(
    data: &Data,
    a: Assignment,
    v: u16,
    dest: &Value,
    is_var: bool,
    is_field: bool,
    parts: &Vec<Value>,
) -> (r: bool)
    requires
        data.definitions.len() <= u32::MAX,
    ensures
        r == needs_own_buffer(
            data.definitions@,
            a,
            v,
            dest@,
            is_var,
            is_field,
            ir::views(parts@),
        ),
{
    if is_field {
        match field_place(data, dest) {
            Some((root, path)) => any_reads_place(data, parts, root, &path),
            None => match find_base_var(dest) {
                Some(root) => any_reads(parts, root),
                None => false,
            },
        }
    } else {
        is_var && v != u16::MAX && v == a.target && !a.replaces && any_reads(parts, v)
    }
}

/// What a snapshot of a destination is taken of: the place that a field or element
/// is, or the variable itself.
pub open spec fn snapshot_place(
    defs: Seq<Definition>,
    dest: ir::Node,
) -> Option<(u16, Seq<PlaceStep>)> {
    if ir::unspan(dest).head is Var {
        None
    } else {
        place_of(defs, dest)
    }
}

/// Whether the parts of a literal read the destination that they are built in, so
/// that it has to be copied first.
pub open spec fn needs_snapshot(
    defs: Seq<Definition>,
    f: data::FnView,
    a: Assignment,
    v: u16,
    dest: ir::Node,
    is_var: bool,
    is_field: bool,
    linked: Seq<u16>,
    parts: Seq<ir::Node>,
    first_pass: bool,
) -> bool {
    if first_pass || vector_store::is_keyed_local(f, v) || (is_field && !(ir::unspan(
        dest,
    ).head is Var) && place_of(defs, dest) is None) {
        false
    } else {
        match snapshot_place(defs, dest) {
            Some((root, path)) => names_in(defs, parts, root, path),
            None => reads_target(a, v, is_var, linked, parts) || needs_own_buffer(
                defs,
                a,
                v,
                dest,
                is_var,
                is_field,
                parts,
            ),
        }
    }
}

/// A part of a literal once it reads the copy of its destination.
pub open spec fn redirected(
    defs: Seq<Definition>,
    n: ir::Node,
    dest: ir::Node,
    v: u16,
    linked: Seq<u16>,
    src: u16,
) -> ir::Node {
    match snapshot_place(defs, dest) {
        Some((root, path)) => with_place(defs, n, root, path, src),
        None => renamed_each(ir::renamed(n, v, src), linked, linked.len() as int, src),
    }
}

/// The code once the first `k` variables are called `to`.
pub open spec fn renamed_each(n: ir::Node, vars: Seq<u16>, k: int, to: u16) -> ir::Node
    decreases k,
{
    if k <= 0 {
        n
    } else {
        ir::renamed(renamed_each(n, vars, k - 1, to), vars[k - 1], to)
    }
}

fn rename_each(v: Value, vars: &Vec<u16>, to: u16) -> (out: Value)
    ensures
        out@ == renamed_each(v@, vars@, vars.len() as int, to),
{
    let ghost first = v@;
    let mut out: Value = v;
    let mut i: usize = 0;
    while i < vars.len()
        invariant
            i <= vars.len(),
            out@ == renamed_each(first, vars@, i as int, to),
        decreases vars.len() - i,
    {
        out = out.rename_var(vars[i], to);
        i = i + 1;
    }
    out
}

fn redirect(
    data: &Data,
    part: &Value,
    dest: &Value,
    v: u16,
    linked: &Vec<u16>,
    src: u16,
) -> (out: Value)
    requires
        data.definitions.len() <= u32::MAX,
    ensures
        out@ == redirected(data.definitions@, part@, dest@, v, linked@, src),
{
    let plain: bool = match dest.unspan() {
        Value::Var(_) => true,
        _ => false,
    };
    if !plain {
        match field_place(data, dest) {
            Some((root, path)) => {
                return replace_place(data, part, root, &path, src);
            },
            None => {},
        }
    }
    rename_each(part.rename_var(v, src), linked, src)
}

/// The statements that copy the destination: an empty vector in a variable of its
/// own, and the elements appended to it.
pub open spec fn snapshot_steps(
    defs: Seq<Definition>,
    f: data::FnView,
    h: Holder,
    src: u16,
    dest: ir::Node,
    elem_tp: i32,
) -> Seq<ir::Node> {
    vector_store::record_steps(defs, f, src, h, 0, false).push(
        ir::call(
            vector_store::op(defs, "OpAppendVector"@),
            seq![ir::var(src), dest, ir::int_value(elem_tp)],
        ),
    )
}

/// The variables with the copy of a destination.
pub open spec fn with_copy(f: data::FnView, in_t: types::Ty) -> data::FnView {
    let src = f.vars.len() as u16;
    let g = data::created(
        f,
        "_build_src_"@,
        types::Ty::Vector(Box::new(in_t), types::no_deps()),
    );
    data::with_var(g, src, data::VarView { defined: true, ..g.vars[src as int] })
}

/// A list of parts once they read the copy of their destination.
pub open spec fn redirected_all(
    defs: Seq<Definition>,
    parts: Seq<ir::Node>,
    dest: ir::Node,
    v: u16,
    linked: Seq<u16>,
    src: u16,
) -> Seq<ir::Node> {
    Seq::new(parts.len(), |i: int| redirected(defs, parts[i], dest, v, linked, src))
}

/// Let a list of parts read the copy of their destination.
pub(crate) fn redirect_all(
    data: &Data,
    parts: &Vec<Value>,
    dest: &Value,
    v: u16,
    linked: &Vec<u16>,
    src: u16,
) -> (out: Vec<Value>)
    requires
        data.definitions.len() <= u32::MAX,
    ensures
        out.len() == parts.len(),
        ir::views(out@) == redirected_all(
            data.definitions@,
            ir::views(parts@),
            dest@,
            v,
            linked@,
            src,
        ),
{
    proof {
        ir::view_at(parts@);
    }
    let mut out: Vec<Value> = Vec::new();
    let mut i: usize = 0;
    while i < parts.len()
        invariant
            i <= parts.len(),
            out.len() == i,
            data.definitions.len() <= u32::MAX,
            forall|j: int|
                0 <= j < i ==> (#[trigger] out@[j])@ == redirected(
                    data.definitions@,
                    parts@[j]@,
                    dest@,
                    v,
                    linked@,
                    src,
                ),
        decreases parts.len() - i,
    {
        out.push(redirect(data, &parts[i], dest, v, linked, src));
        i = i + 1;
    }
    proof {
        ir::view_at(out@);
    }
    assert(ir::views(out@) =~= redirected_all(
        data.definitions@,
        ir::views(parts@),
        dest@,
        v,
        linked@,
        src,
    ));
    out
}

/// Where the parts of a literal read the destination that they are built in, copy
/// it first and let them read the copy.  `elem_tp` is the stored type of the
/// elements and `h` the record for a vector of them.
pub fn snapshot_read_destination(
    data: &Data,
    vars: &mut Function,
    a: Assignment,
    v: u16,
    dest: &Value,
    is_var: bool,
    is_field: bool,
    in_t: &Type,
    linked: &Vec<u16>,
    parts: Vec<Value>,
    h: Holder,
    elem_tp: i32,
    first_pass: bool,
) -> (r: (Option<Vec<Value>>, Vec<Value>))
    requires
        data.definitions.len() <= u32::MAX,
        old(vars).variables.len() + 2 <= u16::MAX,
    ensures
        final(vars).variables.len() <= old(vars).variables.len() + 2,
        ({
            let defs = data.definitions@;
            let src = old(vars)@.vars.len() as u16;
            let f = with_copy(old(vars)@, in_t@);
            if needs_snapshot(
                defs,
                old(vars)@,
                a,
                v,
                dest@,
                is_var,
                is_field,
                linked@,
                ir::views(parts@),
                first_pass,
            ) {
                &&& r.0 is Some
                &&& ir::views(r.0->0@) == snapshot_steps(defs, f, h, src, dest@, elem_tp)
                &&& ir::views(r.1@) == redirected_all(
                    defs,
                    ir::views(parts@),
                    dest@,
                    v,
                    linked@,
                    src,
                )
                &&& final(vars)@ == vector_store::with_record(f, src, h, false).0
            } else {
                &&& r.0 is None
                &&& r.1 == parts
                &&& *final(vars) == *old(vars)
            }
        }),
{
    if first_pass || vector_store::keyed_local(vars, v) {
        return (None, parts);
    }
    let plain: bool = match dest.unspan() {
        Value::Var(_) => true,
        _ => false,
    };
    let place: Option<(u16, Vec<PlaceStep>)> = if plain {
        None
    } else {
        field_place(data, dest)
    };
    let needed: bool = match &place {
        Some((root, path)) => any_reads_place(data, &parts, *root, path),
        None => {
            if is_field && !plain {
                return (None, parts);
            }
            comprehension_reads_target(a, v, is_var, linked, &parts)
                || comprehension_needs_own_buffer(data, a, v, dest, is_var, is_field, &parts)
        },
    };
    if !needed {
        return (None, parts);
    }
    let src: u16 = vars.create("_build_src_", Type::Vector(Box::new(in_t.copy()), Deps::none()));
    vars.mark_defined(src);
    assert(vars@.vars[src as int].tp is Vector);
    let mut snap: Vec<Value> = vector_store::vector_db(data, vars, h, src, false);
    ir::put(
        &mut snap,
        vector_store::cl(
            data,
            "OpAppendVector",
            ir::list3(Value::Var(src), dest.copy(), Value::Int(elem_tp)),
        ),
    );
    let out: Vec<Value> = redirect_all(data, &parts, dest, v, linked, src);
    (Some(snap), out)
}

proof fn each_leaves_no_trace(n: ir::Node, vars: Seq<u16>, k: int, to: u16, w: u16)
    requires
        0 <= k <= vars.len(),
        w != to,
        !ir::mentioned(n, w) || vars.take(k).contains(w),
    ensures
        !ir::mentioned(renamed_each(n, vars, k, to), w),
    decreases k,
{
    if k > 0 {
        if !ir::mentioned(n, w) || vars.take(k - 1).contains(w) {
            each_leaves_no_trace(n, vars, k - 1, to, w);
        } else {
            let i = choose|i: int| 0 <= i < k && vars.take(k)[i] == w;
            if i < k - 1 {
                assert(vars.take(k - 1)[i] == w);
            }
            assert(vars[k - 1] == w);
        }
        ir::renaming_leaves_no_trace(renamed_each(n, vars, k - 1, to), vars[k - 1], to, w);
    } else {
        assert(vars.take(0) =~= Seq::<u16>::empty());
    }
}

/// The parts of a literal that is built in a variable read the copy of what it held:
/// they name neither the variable nor one that is linked to it.
pub proof fn a_copy_is_read_in_its_place(
    defs: Seq<Definition>,
    n: ir::Node,
    dest: ir::Node,
    v: u16,
    linked: Seq<u16>,
    src: u16,
    w: u16,
)
    requires
        snapshot_place(defs, dest) is None,
        w == v || linked.contains(w),
        w != src,
    ensures
        !ir::mentioned(redirected(defs, n, dest, v, linked, src), w),
{
    let first = ir::renamed(n, v, src);
    if w == v {
        ir::renaming_leaves_no_trace(n, v, src, w);
    }
    assert(linked.take(linked.len() as int) =~= linked);
    each_leaves_no_trace(first, linked, linked.len() as int, src, w);
}

} // verus!
