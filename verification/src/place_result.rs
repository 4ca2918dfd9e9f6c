//! Call results built where they will live.
//!
//! A local `v = mk(..)` that is bound once, read a few times and then given to a
//! field of an element appended to a parameter's collection costs a store for
//! the call's result and a copy at the field.  Where every step allows it the
//! result is built as a record of the parameter's store and moved into the
//! field: the null start of the call's buffer becomes a placed record, the copy
//! becomes a move, and each release of the local becomes a release of the record
//! on the paths that still hold it and nothing on those that moved it.

use crate::data::{Data, Definition, Function};
use crate::ir::{self, Value};
use crate::text;
use crate::types::{self, Type};
use std::collections::HashMap;
use vstd::prelude::*;

verus! {

/// The part of a copy's type operand that is the type; what lies above it are
/// flags.
pub const COPY_TP_MASK: u16 = 0x7fff;

/// The operators that the pass reads and writes, by definition number.
#[derive(Clone, Copy, Debug, PartialEq, Eq, Structural)]
pub struct Ops {
    pub copy: u32,
    pub free_ref: u32,
    pub free_if_distinct: u32,
    pub new_record: u32,
    pub get_field: u32,
    pub place: u32,
    pub move_rec: u32,
    pub free_in: u32,
}

/// When the admission is asked: to rewrite the code, or to preview the verdict
/// before the buffer's null start is written.
#[derive(Clone, Copy, Debug, PartialEq, Eq, Structural)]
pub enum Mode {
    Rewrite,
    Preview,
}

/// Whether the local still holds the placed record on the path being walked.
#[derive(Clone, Copy, Debug, PartialEq, Eq, Structural)]
pub enum St {
    Held,
    Moved,
}

/// Where a node stands: a statement, the first operand of an operation, or any
/// other operand.
#[derive(Clone, Copy, Debug, PartialEq, Eq, Structural)]
pub enum Pos {
    Stmt,
    Recv,
    Arg,
}

/// What a node does to the path: it goes on in a state, or the path ends.
#[derive(Clone, Copy, Debug, PartialEq, Eq, Structural)]
pub enum Flow {
    Next(St),
    Exit,
}

/// Why a bind keeps its copy.
#[derive(Clone, Copy, Debug, PartialEq, Eq, Structural)]
pub enum Why {
    NotDenseRecord,
    NoReturnBuffer,
    NotBuiltIntoBuffer,
    BufferNotVariable,
    BufferNotWorkRef,
    ArgumentNamesThem,
    BufferBoundBefore,
    LocalBoundBefore,
    NamedBefore,
    NotOneBufferInit,
    TwoLocalInits,
    ReadAfterMove,
    NotAReceiver,
    BufferNamed,
    LocalRebound,
    BufferRebound,
    PathsRejoin,
    UnmodelledShape,
    UnknownCall,
    HandedToCall,
    FreedElsewhere,
    ReferenceLeaves,
    InsideLoop,
    SecondDestination,
    TypeNotLiteral,
    TypeOutOfRange,
    CopyHasFlag,
    NotAField,
    NotOnElement,
    OtherFieldType,
    NotAppendedElement,
    ArgumentReachesHost,
    TwoHosts,
    NoDestination,
}

/// One admitted bind: the local, the buffer the call was handed, the parameter
/// whose store hosts the result, the record's type, and the places in the code
/// that change: the copies that become moves, the releases on a path that still
/// holds the record, and the releases that go.  A place is the child index taken
/// at each step down from the body.
#[derive(Debug)]
pub struct Plan {
    pub v: u16,
    pub buf: u16,
    pub host: u16,
    pub tp: u16,
    pub moves: Vec<Vec<usize>>,
    pub frees_held: Vec<Vec<usize>>,
    pub frees_dropped: Vec<Vec<usize>>,
}

/// A plan as a value.
pub struct PlanView {
    pub v: u16,
    pub buf: u16,
    pub host: u16,
    pub tp: u16,
    pub moves: Seq<Seq<usize>>,
    pub held: Seq<Seq<usize>>,
    pub dropped: Seq<Seq<usize>>,
}

/// What a walk reads: the definitions, the variables of the function, and the
/// bind that is asked about.
pub struct Bind {
    pub defs: Seq<Definition>,
    pub vars: Function,
    pub ops: Ops,
    pub v: u16,
    pub buf: u16,
    pub args: Seq<ir::Node>,
    pub buf_idx: int,
    pub own_retbuf: Option<u16>,
}

/// What a walk has found so far.
pub struct Trace {
    pub tp: Option<u16>,
    pub host: Option<u16>,
    /// The element locals appended to a parameter's collection, with the
    /// parameter.
    pub elements: Map<u16, u16>,
    pub moves: Seq<Seq<usize>>,
    pub held: Seq<Seq<usize>>,
    pub dropped: Seq<Seq<usize>>,
}

/// The paths of a list.
pub open spec fn paths(s: Seq<Vec<usize>>) -> Seq<Seq<usize>> {
    Seq::new(s.len(), |i: int| s[i]@)
}

impl Plan {
    pub open spec fn view(&self) -> PlanView {
        PlanView {
            v: self.v,
            buf: self.buf,
            host: self.host,
            tp: self.tp,
            moves: paths(self.moves@),
            held: paths(self.frees_held@),
            dropped: paths(self.frees_dropped@),
        }
    }
}

/// The operators by name, where all of them are defined.
pub open spec fn ops_of(data: &Data) -> Option<Ops> {
    let ops = Ops {
        copy: data.named("OpCopyRecord"@),
        free_ref: data.named("OpFreeRef"@),
        free_if_distinct: data.named("OpFreeRefIfDistinct"@),
        new_record: data.named("OpNewRecord"@),
        get_field: data.named("OpGetField"@),
        place: data.named("OpPlaceRecord"@),
        move_rec: data.named("OpMoveRecord"@),
        free_in: data.named("OpFreeRecordIn"@),
    };
    if ops.copy != u32::MAX && ops.free_ref != u32::MAX && ops.free_if_distinct != u32::MAX
        && ops.new_record != u32::MAX && ops.get_field != u32::MAX && ops.place != u32::MAX
        && ops.move_rec != u32::MAX && ops.free_in != u32::MAX {
        Some(ops)
    } else {
        None
    }
}

impl Ops {
    /// Look the operators up by name; `None` when one of them is missing.
    pub fn lookup(data: &Data) -> (ops: Option<Ops>)
        requires
            data.definitions.len() <= u32::MAX,
        ensures
            ops == ops_of(data),
    {
        let ops: Ops = Ops {
            copy: data.def_nr("OpCopyRecord"),
            free_ref: data.def_nr("OpFreeRef"),
            free_if_distinct: data.def_nr("OpFreeRefIfDistinct"),
            new_record: data.def_nr("OpNewRecord"),
            get_field: data.def_nr("OpGetField"),
            place: data.def_nr("OpPlaceRecord"),
            move_rec: data.def_nr("OpMoveRecord"),
            free_in: data.def_nr("OpFreeRecordIn"),
        };
        if ops.copy != u32::MAX && ops.free_ref != u32::MAX && ops.free_if_distinct != u32::MAX
            && ops.new_record != u32::MAX && ops.get_field != u32::MAX && ops.place != u32::MAX
            && ops.move_rec != u32::MAX && ops.free_in != u32::MAX {
            Some(ops)
        } else {
            None
        }
    }
}

/// Whether variable `v` has a name that starts with `prefix`.
pub open spec fn named_with(vars: Function, v: u16, prefix: Seq<char>) -> bool {
    v < vars.variables.len() && text::is_prefix(prefix, vars.variables@[v as int].name@)
}

fn name_starts(vars: &Function, v: u16, prefix: &str) -> (r: bool)
    ensures
        r == named_with(*vars, v, prefix@),
{
    (v as usize) < vars.variables.len() && text::starts_with(vars.name(v), prefix)
}

/// Whether variable `v` is a plain record.
pub open spec fn holds_record(vars: Function, v: u16) -> bool {
    v < vars.variables.len() && vars.variables@[v as int].tp@ is Reference
}

fn is_record(vars: &Function, v: u16) -> (r: bool)
    ensures
        r == holds_record(*vars, v),
{
    if (v as usize) < vars.variables.len() {
        match vars.tp(v) {
            Type::Reference(_, _) => true,
            _ => false,
        }
    } else {
        false
    }
}

/// Whether binding local `v` to a call of definition `f` is looked at: a plain
/// local, and a function of the language that answers a plain record of its own.
pub open spec fn placeable(defs: Seq<Definition>, vars: Function, v: u16, f: u32) -> bool {
    &&& f < defs.len()
    &&& defs[f as int].loft_defined
    &&& !defs[f as int].borrowed_view
    &&& defs[f as int].returned@ is Reference
    &&& v < vars.variables.len()
    &&& !vars.variables@[v as int].argument
    &&& !vars.variables@[v as int].caller_hidden_buf
    &&& !vars.variables@[v as int].skip_free
    &&& !named_with(vars, v, "__"@)
}

fn placeable_bind(data: &Data, function: &Function, v: u16, fn_nr: u32) -> (r: bool)
    ensures
        r == placeable(data.definitions@, *function, v, fn_nr),
{
    if fn_nr as usize >= data.definitions.len() || v as usize >= function.variables.len() {
        return false;
    }
    let def: &Definition = &data.definitions[fn_nr as usize];
    if !def.loft_defined || def.borrowed_view {
        return false;
    }
    match &def.returned {
        Type::Reference(_, _) => {},
        _ => {
            return false;
        },
    }
    if function.is_argument(v) || function.variables[v as usize].caller_hidden_buf
        || function.variables[v as usize].skip_free {
        return false;
    }
    !name_starts(function, v, "__")
}

/// The variable that a fresh record literal yields: an `Object` block whose last
/// statement is that variable.
pub open spec fn literal_var(n: ir::Node) -> Option<u16> {
    let m = ir::unspan(n);
    match m.head {
        ir::Head::Block(name, _) => if name == "Object"@ && m.kids.len() > 0 {
            match ir::unspan(m.kids.last()).head {
                ir::Head::Var(w) => Some(w),
                _ => None,
            }
        } else {
            None
        },
        _ => None,
    }
}

/// An `Object` block that builds into `buf` and yields it.
pub open spec fn yields_buffer(n: ir::Node, buf: u16) -> bool {
    let m = ir::unspan(n);
    match m.head {
        ir::Head::Block(name, result) => name == "Object"@ && types::depend(result) == seq![buf]
            && m.kids.len() > 0 && ir::unspan(m.kids.last()).head == ir::Head::Var(buf),
        _ => false,
    }
}

/// An `Object` block that builds into `buf` and ends by returning it.
pub open spec fn returns_buffer(n: ir::Node, buf: u16) -> bool {
    match n.head {
        ir::Head::Block(name, result) => {
            &&& name == "Object"@
            &&& types::depend(result) == seq![buf]
            &&& n.kids.len() > 0
            &&& ir::unspan(n.kids.last()).head is Return
            &&& ir::unspan(ir::unspan(n.kids.last()).kids[0]).head == ir::Head::Var(buf)
        },
        _ => false,
    }
}

/// The exits of a body in walking order, each with whether it answers a literal
/// built into `buf`.  What an exit answers is code as well: an exit in it counts.
pub open spec fn exits(n: ir::Node, buf: u16) -> Seq<bool>
    decreases n, 0int,
{
    if n.head is Span && n.kids.len() > 0 {
        exits(n.kids[0], buf)
    } else if n.head is Return && n.kids.len() > 0 {
        seq![literal_var(n.kids[0]) == Some(buf)] + exits_in(n.kids, n.kids.len() as int, buf)
    } else if returns_buffer(n, buf) {
        seq![true] + exits_in(n.kids, n.kids.len() - 1, buf)
    } else {
        exits_in(n.kids, n.kids.len() as int, buf)
    }
}

/// The exits of the first `k` of a list of statements.
pub open spec fn exits_in(s: Seq<ir::Node>, k: int, buf: u16) -> Seq<bool>
    decreases s, k,
{
    if k <= 0 || k > s.len() {
        Seq::empty()
    } else {
        exits_in(s, k - 1, buf) + exits(s[k - 1], buf)
    }
}

/// Whether the body's last statement is an exit that answers `buf`.
pub open spec fn exit_at_end(n: ir::Node, buf: u16) -> bool {
    let m = ir::unspan(n);
    if m.head is Return {
        literal_var(m.kids[0]) == Some(buf)
    } else {
        returns_buffer(m, buf)
    }
}

/// Whether every exit of definition `f` is a fresh literal built into the buffer
/// it is handed as parameter `at`, and the body ends in such an exit.
pub open spec fn builds_into_buffer(defs: Seq<Definition>, f: u32, at: int) -> bool {
    let def = defs[f as int];
    let buf = def.variables.var_named("__retbuf"@);
    let body = ir::unspan(def.code@);
    let n = body.kids.len() as int;
    &&& 0 <= at < def.attributes.len()
    &&& def.attributes@[at].name@ == "__retbuf"@
    &&& buf != u16::MAX
    &&& def.variables.argument(buf)
    &&& body.head is Block
    &&& n > 0
    &&& if yields_buffer(body.kids[n - 1], buf) {
        forall|i: int|
            0 <= i < exits_in(body.kids, n, buf).len() ==> #[trigger] exits_in(body.kids, n, buf)[i]
    } else {
        &&& exit_at_end(body.kids[n - 1], buf)
        &&& exits(body, buf).len() > 0
        &&& forall|i: int|
            0 <= i < exits(body, buf).len() ==> #[trigger] exits(body, buf)[i]
    }
}

fn last_of(s: &Vec<Value>) -> (v: Option<&Value>)
    ensures
        s.len() == 0 ==> v is None,
        s.len() > 0 ==> v is Some && v->0@ == ir::views(s@).last() && decreases_to!(*s => *(v->0)),
{
    if s.len() == 0 {
        None
    } else {
        assert(decreases_to!(*s => s[s.len() - 1]));
        Some(&s[s.len() - 1])
    }
}

fn only_dep(t: &Type, v: u16) -> (r: bool)
    ensures
        r == (types::depend(t@) == seq![v]),
{
    let vars: Vec<u16> = t.depend();
    if vars.len() == 1 && vars[0] == v {
        assert(vars@ =~= seq![v]);
        true
    } else {
        assert(vars.len() == 1 ==> vars@[0] != seq![v][0]);
        false
    }
}

/// The variable that a fresh record literal yields.
pub fn tail_fresh_object_workref(node: &Value) -> (v: Option<u16>)
    ensures
        v == literal_var(node@),
{
    proof {
        reveal_with_fuel(ir::views, 2);
        reveal_with_fuel(Value::view, 2);
    }
    match node.unspan() {
        Value::Block(bl) => if text::same(bl.name.as_str(), "Object") {
            match last_of(&bl.operators) {
                Some(last) => match last.unspan() {
                    Value::Var(w) => Some(*w),
                    _ => None,
                },
                None => None,
            }
        } else {
            None
        },
        _ => None,
    }
}

fn tail_object_yielding(op: &Value, buf: u16) -> (r: bool)
    ensures
        r == yields_buffer(op@, buf),
{
    proof {
        reveal_with_fuel(ir::views, 2);
        reveal_with_fuel(Value::view, 2);
    }
    match op.unspan() {
        Value::Block(bl) => text::same(bl.name.as_str(), "Object") && only_dep(&bl.result, buf)
            && match last_of(&bl.operators) {
            Some(last) => last.is_var(buf),
            None => false,
        },
        _ => false,
    }
}

fn buffer_object_returning(node: &Value, buf: u16) -> (r: bool)
    ensures
        r == returns_buffer(node@, buf),
{
    proof {
        reveal_with_fuel(ir::views, 2);
        reveal_with_fuel(Value::view, 2);
    }
    match node {
        Value::Block(bl) => text::same(bl.name.as_str(), "Object") && only_dep(&bl.result, buf)
            && match last_of(&bl.operators) {
            Some(last) => match last.unspan() {
                Value::Return(r) => r.is_var(buf),
                _ => false,
            },
            None => false,
        },
        _ => false,
    }
}

fn is_exit(op: &Value, buf: u16) -> (r: bool)
    ensures
        r == exit_at_end(op@, buf),
{
    let node: &Value = op.unspan();
    match node {
        Value::Return(inner) => {
            let found: Option<u16> = tail_fresh_object_workref(inner);
            assert(node@.kids[0] == inner@);
            found.is_some() && found.unwrap() == buf
        },
        _ => buffer_object_returning(node, buf),
    }
}

/// How many exits a body has, and whether each of them answers `buf`.
fn check_exits(node: &Value, buf: u16, exits_found: &mut bool, ok: &mut bool)
    ensures
        *final(exits_found) == (*old(exits_found) || exits(node@, buf).len() > 0),
        *final(ok) == (*old(ok) && forall|i: int|
            0 <= i < exits(node@, buf).len() ==> #[trigger] exits(node@, buf)[i]),
    decreases node,
{
    match node {
        Value::Span(_, inner) => {
            assert(node@.kids[0] == inner@);
            check_exits(inner, buf, exits_found, ok);
        },
        _ => {
            let kids: Vec<&Value> = node.children();
            let mut n: usize = kids.len();
            let returning: bool = buffer_object_returning(node, buf);
            let answered: Option<bool> = answers_literal(node, buf);
            let ghost head: Seq<bool> = match answered {
                Some(good) => seq![good],
                None => if returning {
                    seq![true]
                } else {
                    Seq::empty()
                },
            };
            match answered {
                Some(good) => {
                    *exits_found = true;
                    if !good {
                        assert(!head[0]);
                        *ok = false;
                    }
                },
                None => {
                    if returning {
                        *exits_found = true;
                        n = n - 1;
                    }
                },
            }
            let mut i: usize = 0;
            assert(head + exits_in(node@.kids, 0, buf) =~= head);
            while i < n
                invariant
                    i <= n <= kids.len(),
                    kids.len() == node@.kids.len(),
                    forall|j: int| 0 <= j < kids.len() ==> (#[trigger] kids@[j])@ == node@.kids[j],
                    forall|j: int|
                        0 <= j < kids.len() ==> decreases_to!(*node => *#[trigger] kids@[j]),
                    *exits_found == (*old(exits_found) || (head + exits_in(
                        node@.kids,
                        i as int,
                        buf,
                    )).len() > 0),
                    *ok == (*old(ok) && forall|k: int|
                        0 <= k < (head + exits_in(node@.kids, i as int, buf)).len()
                            ==> #[trigger] (head + exits_in(node@.kids, i as int, buf))[k]),
                decreases n - i,
            {
                let ghost was = head + exits_in(node@.kids, i as int, buf);
                let ghost more = exits(node@.kids[i as int], buf);
                let ghost before = *ok;
                check_exits(kids[i], buf, exits_found, ok);
                proof {
                    let now = head + exits_in(node@.kids, i + 1, buf);
                    assert(now =~= was + more);
                    if *ok {
                        assert forall|k: int| 0 <= k < now.len() implies #[trigger] now[k] by {
                            if k < was.len() {
                                assert(was[k]);
                            } else {
                                assert(more[k - was.len()]);
                            }
                        }
                    } else if *old(ok) {
                        if !before {
                            let k = choose|k: int| 0 <= k < was.len() && !#[trigger] was[k];
                            assert(!now[k]);
                        } else {
                            let k = choose|k: int| 0 <= k < more.len() && !#[trigger] more[k];
                            assert(!now[was.len() + k]);
                        }
                    }
                }
                i = i + 1;
            }
            assert(exits(node@, buf) =~= head + exits_in(node@.kids, n as int, buf));
        },
    }
}

/// Whether a return answers a literal built into `buf`; `None` for anything else.
fn answers_literal(node: &Value, buf: u16) -> (r: Option<bool>)
    ensures
        r == if node@.head is Return {
            Some(literal_var(node@.kids[0]) == Some(buf))
        } else {
            None
        },
        node@.head is Return ==> node@.kids.len() == 1,
{
    proof {
        ir::shape(*node);
    }
    match node {
        Value::Return(inner) => {
            assert(node@.kids[0] == inner@);
            let found: Option<u16> = tail_fresh_object_workref(inner);
            Some(found.is_some() && found.unwrap() == buf)
        },
        _ => None,
    }
}

fn callee_writes_buffer_at_every_exit(data: &Data, fn_nr: u32, buf_idx: usize) -> (r: bool)
    requires
        fn_nr < data.definitions.len(),
        data.definitions@[fn_nr as int].variables.variables.len() <= u16::MAX,
    ensures
        r == builds_into_buffer(data.definitions@, fn_nr, buf_idx as int),
{
    proof {
        reveal_with_fuel(ir::views, 2);
        reveal_with_fuel(Value::view, 2);
    }
    let def: &Definition = data.def(fn_nr);
    if buf_idx >= def.attributes.len() || !text::same(
        def.attributes[buf_idx].name.as_str(),
        "__retbuf",
    ) {
        return false;
    }
    let buf: u16 = def.variables.var("__retbuf");
    if buf == u16::MAX || !def.variables.is_argument(buf) {
        return false;
    }
    let body: &Value = def.code.unspan();
    match body {
        Value::Block(bl) => {
            let n: usize = bl.operators.len();
            if n == 0 {
                return false;
            }
            let last: &Value = &bl.operators[n - 1];
            assert(body@.kids[n - 1] == last@);
            let mut found: bool = false;
            let mut ok: bool = true;
            if tail_object_yielding(last, buf) {
                let mut i: usize = 0;
                while i < n
                    invariant
                        i <= n,
                        n == bl.operators.len(),
                        body@.kids == ir::views(bl.operators@),
                        ok == forall|k: int|
                            0 <= k < exits_in(body@.kids, i as int, buf).len()
                                ==> #[trigger] exits_in(body@.kids, i as int, buf)[k],
                    decreases n - i,
                {
                    let ghost was = exits_in(body@.kids, i as int, buf);
                    let ghost more = exits(body@.kids[i as int], buf);
                    let ghost before = ok;
                    check_exits(&bl.operators[i], buf, &mut found, &mut ok);
                    proof {
                        let now = exits_in(body@.kids, i + 1, buf);
                        assert(now =~= was + more);
                        if ok {
                            assert forall|k: int| 0 <= k < now.len() implies #[trigger] now[k] by {
                                if k < was.len() {
                                    assert(was[k]);
                                } else {
                                    assert(more[k - was.len()]);
                                }
                            }
                        } else if !before {
                            let k = choose|k: int| 0 <= k < was.len() && !#[trigger] was[k];
                            assert(!now[k]);
                        } else {
                            let k = choose|k: int| 0 <= k < more.len() && !#[trigger] more[k];
                            assert(!now[was.len() + k]);
                        }
                    }
                    i = i + 1;
                }
                ok
            } else {
                if !is_exit(last, buf) {
                    return false;
                }
                check_exits(body, buf, &mut found, &mut ok);
                found && ok
            }
        },
        _ => false,
    }
}


/// Whether the code names the local or the buffer of the bind.
pub open spec fn names_either(e: Bind, n: ir::Node) -> bool {
    ir::mentioned(n, e.v) || ir::mentioned(n, e.buf)
}

/// Whether one of the first `k` nodes names the local or the buffer.
pub open spec fn any_names_either(e: Bind, s: Seq<ir::Node>, k: int) -> bool
    decreases k,
{
    if k <= 0 {
        false
    } else {
        any_names_either(e, s, k - 1) || names_either(e, s[k - 1])
    }
}

/// Whether an argument of the call other than the buffer names variable `w`.
pub open spec fn argument_names(e: Bind, w: u16, k: int) -> bool
    decreases k,
{
    if k <= 0 {
        false
    } else {
        argument_names(e, w, k - 1) || (k - 1 != e.buf_idx && ir::mentioned(e.args[k - 1], w))
    }
}

/// The parameter to whose collection the assignment of `value` to local `w`
/// appends an element.
pub open spec fn element_host(e: Bind, w: u16, value: ir::Node) -> Option<u16> {
    let m = ir::unspan(value);
    if m.head == ir::Head::Call(e.ops.new_record) && w < e.vars.variables.len()
        && e.vars.variables@[w as int].compiler_generated && named_with(e.vars, w, "_elm_"@)
        && m.kids.len() > 0 {
        match ir::unspan(m.kids[0]).head {
            ir::Head::Var(x) => if e.vars.argument(x) && holds_record(e.vars, x) {
                Some(x)
            } else {
                None
            },
            _ => None,
        }
    } else {
        None
    }
}

/// What is known of the element locals after such an assignment.
pub open spec fn noted(e: Bind, t: Trace, w: u16, value: ir::Node) -> Trace {
    match element_host(e, w, value) {
        Some(x) => Trace { elements: t.elements.insert(w, x), ..t },
        None => Trace { elements: t.elements.remove(w), ..t },
    }
}

/// The verdict on `copy(v, field, type)`: the one place where the record may be
/// moved to.
pub open spec fn moved_to(
    e: Bind,
    t: Trace,
    args: Seq<ir::Node>,
    st: St,
    loops: bool,
    path: Seq<usize>,
) -> (Result<Flow, Why>, Trace) {
    if loops {
        (Err(Why::InsideLoop), t)
    } else if st == St::Moved {
        (Err(Why::SecondDestination), t)
    } else {
        match ir::unspan(args[2]).head {
            ir::Head::Int(raw) => if !(0 <= raw <= u16::MAX) {
                (Err(Why::TypeOutOfRange), t)
            } else if raw > COPY_TP_MASK {
                (Err(Why::CopyHasFlag), t)
            } else {
                let field = ir::unspan(args[1]);
                if !(field.head == ir::Head::Call(e.ops.get_field) && field.kids.len() == 3) {
                    (Err(Why::NotAField), t)
                } else {
                    match (ir::unspan(field.kids[0]).head, ir::unspan(field.kids[2]).head) {
                        (ir::Head::Var(elm), ir::Head::Int(ftp)) => if ftp != raw {
                            (Err(Why::OtherFieldType), t)
                        } else if !t.elements.contains_key(elm) {
                            (Err(Why::NotAppendedElement), t)
                        } else if argument_names(e, t.elements[elm], e.args.len() as int) {
                            (Err(Why::ArgumentReachesHost), t)
                        } else if t.host is Some && t.host->0 != t.elements[elm] {
                            (Err(Why::TwoHosts), t)
                        } else {
                            (
                                Ok(Flow::Next(St::Moved)),
                                Trace {
                                    host: Some(t.elements[elm]),
                                    tp: Some(raw as u16),
                                    moves: t.moves.push(path),
                                    ..t
                                },
                            )
                        },
                        _ => (Err(Why::NotOnElement), t),
                    }
                }
            },
            _ => (Err(Why::TypeNotLiteral), t),
        }
    }
}

/// Whether a call releases the local at an exit: its own release, or the one of
/// a function that answers through a buffer of its own.
pub open spec fn releases_local(e: Bind, d: u32, args: Seq<ir::Node>) -> bool {
    ||| d == e.ops.free_ref && args.len() == 1 && ir::unspan(args[0]).head == ir::Head::Var(e.v)
    ||| d == e.ops.free_if_distinct && args.len() == 2 && ir::unspan(args[0]).head == ir::Head::Var(
        e.v,
    ) && e.own_retbuf is Some && ir::unspan(args[1]).head == ir::Head::Var(e.own_retbuf->0)
}

/// What the walk finds at a node: where the path goes on, or why the bind is
/// declined, and what has been noted.  A path that moved the record may not read
/// it again; one that holds it may read it only as the first operand of an
/// operation that is not code of the language.
pub open spec fn walk(
    e: Bind,
    t: Trace,
    n: ir::Node,
    st: St,
    pos: Pos,
    loops: bool,
    path: Seq<usize>,
) -> (Result<Flow, Why>, Trace)
    decreases n, 0int,
{
    if n.head is Span && n.kids.len() > 0 {
        walk(e, t, n.kids[0], st, pos, loops, path)
    } else {
        match n.head {
            ir::Head::Break(_) | ir::Head::Continue(_) => (Ok(Flow::Exit), t),
            ir::Head::Var(w) => if w == e.v {
                if pos == Pos::Recv && st == St::Held {
                    (Ok(Flow::Next(st)), t)
                } else if st == St::Moved {
                    (Err(Why::ReadAfterMove), t)
                } else {
                    (Err(Why::NotAReceiver), t)
                }
            } else if w == e.buf {
                (Err(Why::BufferNamed), t)
            } else {
                (Ok(Flow::Next(st)), t)
            },
            ir::Head::Assign(w) => if w == e.v {
                (Err(Why::LocalRebound), t)
            } else if w == e.buf {
                (Err(Why::BufferRebound), t)
            } else if n.kids.len() == 0 {
                (Ok(Flow::Next(st)), t)
            } else {
                walk(
                    e,
                    noted(e, t, w, n.kids[0]),
                    n.kids[0],
                    st,
                    Pos::Arg,
                    loops,
                    path.push(0),
                )
            },
            ir::Head::Call(d) => walk_call(e, t, d, n.kids, st, pos, loops, path),
            ir::Head::If => walk_branches(e, t, n.kids, st, loops, path),
            ir::Head::Block(_, _) => walk_stmts(e, t, n.kids, 0, st, loops, path),
            ir::Head::Loop(_, _) => {
                let (r, u) = walk_stmts(e, t, n.kids, 0, st, true, path);
                match r {
                    Err(why) => (Err(why), u),
                    Ok(_) => (Ok(Flow::Next(st)), u),
                }
            },
            ir::Head::Return => if n.kids.len() == 0 {
                (Ok(Flow::Exit), t)
            } else {
                let (r, u) = walk(e, t, n.kids[0], st, Pos::Arg, loops, path.push(0));
                match r {
                    Err(why) => (Err(why), u),
                    Ok(_) => (Ok(Flow::Exit), u),
                }
            },
            ir::Head::Drop => if n.kids.len() == 0 {
                (Ok(Flow::Next(st)), t)
            } else {
                walk(e, t, n.kids[0], st, Pos::Arg, loops, path.push(0))
            },
            _ => if names_either(e, n) {
                (Err(Why::UnmodelledShape), t)
            } else {
                (Ok(Flow::Next(st)), t)
            },
        }
    }
}

/// A condition and the two branches it chooses from.
pub open spec fn walk_branches(
    e: Bind,
    t: Trace,
    s: Seq<ir::Node>,
    st: St,
    loops: bool,
    path: Seq<usize>,
) -> (Result<Flow, Why>, Trace)
    decreases s, 0int,
{
    if s.len() != 3 {
        (Ok(Flow::Next(st)), t)
    } else {
        let (rc, tc) = walk(e, t, s[0], st, Pos::Arg, loops, path.push(0));
        match rc {
            Ok(Flow::Next(now)) => {
                let (rt, tt) = walk(e, tc, s[1], now, Pos::Stmt, loops, path.push(1));
                match rt {
                    Err(why) => (Err(why), tt),
                    Ok(ft) => {
                        let (re, te) = walk(e, tt, s[2], now, Pos::Stmt, loops, path.push(2));
                        match re {
                            Err(why) => (Err(why), te),
                            Ok(fe) => (rejoined(ft, fe), te),
                        }
                    },
                }
            },
            _ => (rc, tc),
        }
    }
}

/// Where two branches meet: they must agree on whether the record was moved.
pub open spec fn rejoined(a: Flow, b: Flow) -> Result<Flow, Why> {
    match (a, b) {
        (Flow::Exit, f) => Ok(f),
        (f, Flow::Exit) => Ok(f),
        (Flow::Next(x), Flow::Next(y)) => if x == y {
            Ok(Flow::Next(x))
        } else {
            Err(Why::PathsRejoin)
        },
    }
}

/// The statements from `i` on, one after the other.
pub open spec fn walk_stmts(
    e: Bind,
    t: Trace,
    s: Seq<ir::Node>,
    i: int,
    st: St,
    loops: bool,
    path: Seq<usize>,
) -> (Result<Flow, Why>, Trace)
    decreases s, s.len() - i,
{
    if i < 0 || i >= s.len() {
        (Ok(Flow::Next(st)), t)
    } else {
        let (r, u) = walk(e, t, s[i], st, Pos::Stmt, loops, path.push(i as usize));
        match r {
            Ok(Flow::Next(next)) => walk_stmts(e, u, s, i + 1, next, loops, path),
            _ => (r, u),
        }
    }
}

/// The operands from `i` on; the first one is the receiver.
pub open spec fn walk_args(
    e: Bind,
    t: Trace,
    s: Seq<ir::Node>,
    i: int,
    st: St,
    loops: bool,
    path: Seq<usize>,
) -> (Result<Flow, Why>, Trace)
    decreases s, s.len() - i,
{
    if i < 0 || i >= s.len() {
        (Ok(Flow::Next(st)), t)
    } else {
        let pos = if i == 0 {
            Pos::Recv
        } else {
            Pos::Arg
        };
        let (r, u) = walk(e, t, s[i], st, pos, loops, path.push(i as usize));
        match r {
            Ok(Flow::Next(next)) => walk_args(e, u, s, i + 1, next, loops, path),
            _ => (r, u),
        }
    }
}

/// A call: the destination, one of the releases, a call that names neither the
/// local nor the buffer, or a read of the local by an operation.
pub open spec fn walk_call(
    e: Bind,
    t: Trace,
    d: u32,
    args: Seq<ir::Node>,
    st: St,
    pos: Pos,
    loops: bool,
    path: Seq<usize>,
) -> (Result<Flow, Why>, Trace)
    decreases args, args.len() + 1,
{
    if d == e.ops.copy && args.len() == 3 && ir::unspan(args[0]).head == ir::Head::Var(e.v) {
        moved_to(e, t, args, st, loops, path)
    } else if releases_local(e, d, args) {
        (
            Ok(Flow::Next(st)),
            if st == St::Held {
                Trace { held: t.held.push(path), ..t }
            } else {
                Trace { dropped: t.dropped.push(path), ..t }
            },
        )
    } else if d == e.ops.free_if_distinct && args.len() == 2 && ir::unspan(args[0]).head
        == ir::Head::Var(e.buf) && ir::unspan(args[1]).head == ir::Head::Var(e.v) {
        (Ok(Flow::Next(st)), Trace { dropped: t.dropped.push(path), ..t })
    } else if d >= e.defs.len() {
        (Err(Why::UnknownCall), t)
    } else if !any_names_either(e, args, args.len() as int) {
        (Ok(Flow::Next(st)), t)
    } else if e.defs[d as int].loft_defined {
        (Err(Why::HandedToCall), t)
    } else if text::is_prefix("OpFreeRef"@, e.defs[d as int].name@) {
        (Err(Why::FreedElsewhere), t)
    } else if st == St::Moved {
        (Err(Why::ReadAfterMove), t)
    } else if !types::scalar_like(e.defs[d as int].returned@) && pos != Pos::Recv && args.len() > 0
        && names_either(e, args[0]) {
        (Err(Why::ReferenceLeaves), t)
    } else {
        walk_args(e, t, args, 0, st, loops, path)
    }
}

/// The walk through a body for one bind.
struct Cx<'a> {
    data: &'a Data,
    function: &'a Function,
    ops: Ops,
    v: u16,
    buf: u16,
    args: &'a Vec<Value>,
    buf_idx: usize,
    own_retbuf: Option<u16>,
    tp: Option<u16>,
    host: Option<u16>,
    in_loop: bool,
    elm_host: HashMap<u16, u16>,
    path: Vec<usize>,
    moves: Vec<Vec<usize>>,
    frees_held: Vec<Vec<usize>>,
    frees_dropped: Vec<Vec<usize>>,
}

fn copy_path(path: &Vec<usize>) -> (out: Vec<usize>)
    ensures
        out@ == path@,
{
    let mut out: Vec<usize> = Vec::new();
    let mut i: usize = 0;
    while i < path.len()
        invariant
            i <= path.len(),
            out@ == path@.take(i as int),
        decreases path.len() - i,
    {
        out.push(path[i]);
        assert(out@ =~= path@.take(i + 1));
        i = i + 1;
    }
    assert(out@ =~= path@);
    out
}

fn push_path(list: &mut Vec<Vec<usize>>, path: &Vec<usize>)
    ensures
        paths(final(list)@) == paths(old(list)@).push(path@),
{
    list.push(copy_path(path));
    assert(paths(list@) =~= paths(old(list)@).push(path@));
}

impl<'a> Cx<'a> {
    spec fn bind(&self) -> Bind {
        Bind {
            defs: self.data.definitions@,
            vars: *self.function,
            ops: self.ops,
            v: self.v,
            buf: self.buf,
            args: ir::views(self.args@),
            buf_idx: self.buf_idx as int,
            own_retbuf: self.own_retbuf,
        }
    }

    spec fn trace(&self) -> Trace {
        Trace {
            tp: self.tp,
            host: self.host,
            elements: self.elm_host@,
            moves: paths(self.moves@),
            held: paths(self.frees_held@),
            dropped: paths(self.frees_dropped@),
        }
    }

    /// Nothing but what was noted differs from `before`.
    spec fn same_place(&self, before: &Cx<'a>) -> bool {
        &&& self.bind() == before.bind()
        &&& self.in_loop == before.in_loop
        &&& self.path@ == before.path@
    }

    fn names_either(&self, node: &Value) -> (r: bool)
        ensures
            r == names_either(self.bind(), node@),
    {
        node.mentions(self.v) || node.mentions(self.buf)
    }

    fn note_element(&mut self, w: u16, val: &Value)
        ensures
            final(self).same_place(old(self)),
            final(self).trace() == noted(old(self).bind(), old(self).trace(), w, val@),
    {
        broadcast use vstd::std_specs::hash::group_hash_axioms;

        proof {
            reveal_with_fuel(ir::views, 2);
            reveal_with_fuel(Value::view, 2);
        }
        let mut host: Option<u16> = None;
        match val.unspan() {
            Value::Call(d, a) => if *d == self.ops.new_record && (w as usize)
                < self.function.variables.len()
                && self.function.variables[w as usize].compiler_generated && name_starts(
                self.function,
                w,
                "_elm_",
            ) && a.len() > 0 {
                match a[0].unspan() {
                    Value::Var(x) => if self.function.is_argument(*x) && is_record(
                        self.function,
                        *x,
                    ) {
                        host = Some(*x);
                    },
                    _ => {},
                }
            },
            _ => {},
        }
        match host {
            Some(x) => {
                self.elm_host.insert(w, x);
            },
            None => {
                self.elm_host.remove(&w);
            },
        }
    }

    fn reaches(&self, host: u16) -> (r: bool)
        ensures
            r == argument_names(self.bind(), host, self.args.len() as int),
    {
        let mut i: usize = 0;
        let mut found: bool = false;
        while i < self.args.len()
            invariant
                i <= self.args.len(),
                found == argument_names(self.bind(), host, i as int),
            decreases self.args.len() - i,
        {
            assert(self.bind().args[i as int] == self.args@[i as int]@);
            if i != self.buf_idx && self.args[i].mentions(host) {
                found = true;
            }
            i = i + 1;
        }
        found
    }

    fn destination(&mut self, args: &Vec<Value>, st: St) -> (r: Result<Flow, Why>)
        requires
            args.len() == 3,
        ensures
            final(self).same_place(old(self)),
            (r, final(self).trace()) == moved_to(
                old(self).bind(),
                old(self).trace(),
                ir::views(args@),
                st,
                old(self).in_loop,
                old(self).path@,
            ),
    {
        broadcast use vstd::std_specs::hash::group_hash_axioms;

        proof {
            reveal_with_fuel(ir::views, 2);
            reveal_with_fuel(Value::view, 2);
        }
        if self.in_loop {
            return Err(Why::InsideLoop);
        }
        if st == St::Moved {
            return Err(Why::SecondDestination);
        }
        let raw: i32 = match args[2].unspan() {
            Value::Int(raw) => *raw,
            _ => {
                return Err(Why::TypeNotLiteral);
            },
        };
        if raw < 0 || raw > u16::MAX as i32 {
            return Err(Why::TypeOutOfRange);
        }
        if raw > COPY_TP_MASK as i32 {
            return Err(Why::CopyHasFlag);
        }
        match args[1].unspan() {
            Value::Call(g, ga) => {
                if *g != self.ops.get_field || ga.len() != 3 {
                    return Err(Why::NotAField);
                }
                match (ga[0].unspan(), ga[2].unspan()) {
                    (Value::Var(elm), Value::Int(ftp)) => {
                        if *ftp != raw {
                            return Err(Why::OtherFieldType);
                        }
                        let host: u16 = match self.elm_host.get(elm) {
                            Some(host) => *host,
                            None => {
                                return Err(Why::NotAppendedElement);
                            },
                        };
                        if self.reaches(host) {
                            return Err(Why::ArgumentReachesHost);
                        }
                        match self.host {
                            Some(h) => if h != host {
                                return Err(Why::TwoHosts);
                            },
                            None => {},
                        }
                        self.host = Some(host);
                        self.tp = Some(raw as u16);
                        push_path(&mut self.moves, &self.path);
                        Ok(Flow::Next(St::Moved))
                    },
                    _ => Err(Why::NotOnElement),
                }
            },
            _ => Err(Why::NotAField),
        }
    }

    fn own_exit_free(&self, d: u32, args: &Vec<Value>) -> (r: bool)
        ensures
            r == releases_local(self.bind(), d, ir::views(args@)),
    {
        proof {
            reveal_with_fuel(ir::views, 2);
        }
        if d == self.ops.free_ref && args.len() == 1 && args[0].is_var(self.v) {
            return true;
        }
        if d == self.ops.free_if_distinct && args.len() == 2 && args[0].is_var(self.v) {
            match self.own_retbuf {
                Some(r) => args[1].is_var(r),
                None => false,
            }
        } else {
            false
        }
    }

    fn any_named(&self, args: &Vec<Value>) -> (r: bool)
        ensures
            r == any_names_either(self.bind(), ir::views(args@), args.len() as int),
    {
        let mut i: usize = 0;
        let mut found: bool = false;
        while i < args.len()
            invariant
                i <= args.len(),
                found == any_names_either(self.bind(), ir::views(args@), i as int),
            decreases args.len() - i,
        {
            assert(ir::views(args@)[i as int] == args@[i as int]@);
            if self.names_either(&args[i]) {
                found = true;
            }
            i = i + 1;
        }
        found
    }

    fn walk_call(&mut self, d: u32, args: &Vec<Value>, st: St, pos: Pos) -> (r: Result<Flow, Why>)
        ensures
            final(self).same_place(old(self)),
            (r, final(self).trace()) == walk_call(
                old(self).bind(),
                old(self).trace(),
                d,
                ir::views(args@),
                st,
                pos,
                old(self).in_loop,
                old(self).path@,
            ),
        decreases args, 0int,
    {
        proof {
            reveal_with_fuel(ir::views, 2);
        }
        if d == self.ops.copy && args.len() == 3 && args[0].is_var(self.v) {
            return self.destination(args, st);
        }
        if self.own_exit_free(d, args) {
            if st == St::Held {
                push_path(&mut self.frees_held, &self.path);
            } else {
                push_path(&mut self.frees_dropped, &self.path);
            }
            return Ok(Flow::Next(st));
        }
        if d == self.ops.free_if_distinct && args.len() == 2 && args[0].is_var(self.buf)
            && args[1].is_var(self.v) {
            push_path(&mut self.frees_dropped, &self.path);
            return Ok(Flow::Next(st));
        }
        if d as usize >= self.data.definitions.len() {
            return Err(Why::UnknownCall);
        }
        if !self.any_named(args) {
            return Ok(Flow::Next(st));
        }
        let def: &Definition = self.data.def(d);
        if def.loft_defined {
            return Err(Why::HandedToCall);
        }
        if text::starts_with(def.name.as_str(), "OpFreeRef") {
            return Err(Why::FreedElsewhere);
        }
        if st == St::Moved {
            return Err(Why::ReadAfterMove);
        }
        if !def.returned.is_scalar_like() && pos != Pos::Recv && args.len() > 0
            && self.names_either(&args[0]) {
            return Err(Why::ReferenceLeaves);
        }
        let mut now: St = st;
        let mut i: usize = 0;
        let ghost begin = *self;
        while i < args.len()
            invariant
                i <= args.len(),
                begin == *old(self),
                self.same_place(old(self)),
                walk_call(
                    begin.bind(),
                    begin.trace(),
                    d,
                    ir::views(args@),
                    st,
                    pos,
                    begin.in_loop,
                    begin.path@,
                ) == walk_args(
                    begin.bind(),
                    begin.trace(),
                    ir::views(args@),
                    0,
                    st,
                    begin.in_loop,
                    begin.path@,
                ),
                walk_args(
                    begin.bind(),
                    begin.trace(),
                    ir::views(args@),
                    0,
                    st,
                    begin.in_loop,
                    begin.path@,
                ) == walk_args(
                    begin.bind(),
                    self.trace(),
                    ir::views(args@),
                    i as int,
                    now,
                    begin.in_loop,
                    begin.path@,
                ),
            decreases args.len() - i,
        {
            assert(decreases_to!(*args => args[i as int]));
            assert(ir::views(args@)[i as int] == args@[i as int]@);
            let p: Pos = if i == 0 {
                Pos::Recv
            } else {
                Pos::Arg
            };
            let r: Result<Flow, Why> = self.child(i, &args[i], now, p);
            match r {
                Ok(Flow::Next(next)) => {
                    now = next;
                },
                _ => {
                    return r;
                },
            }
            i = i + 1;
        }
        Ok(Flow::Next(now))
    }

    fn child(&mut self, i: usize, node: &Value, st: St, pos: Pos) -> (r: Result<Flow, Why>)
        ensures
            final(self).same_place(old(self)),
            (r, final(self).trace()) == walk(
                old(self).bind(),
                old(self).trace(),
                node@,
                st,
                pos,
                old(self).in_loop,
                old(self).path@.push(i),
            ),
        decreases node, 3int,
    {
        self.path.push(i);
        let r: Result<Flow, Why> = self.walk(node, st, pos);
        let _last: Option<usize> = self.path.pop();
        assert(self.path@ =~= old(self).path@);
        r
    }

    fn walk_stmts(&mut self, stmts: &Vec<Value>, from: usize, start: St) -> (r: Result<Flow, Why>)
        requires
            from <= stmts.len(),
        ensures
            final(self).same_place(old(self)),
            (r, final(self).trace()) == walk_stmts(
                old(self).bind(),
                old(self).trace(),
                ir::views(stmts@),
                from as int,
                start,
                old(self).in_loop,
                old(self).path@,
            ),
        decreases stmts, 0int,
    {
        let mut st: St = start;
        let mut i: usize = from;
        while i < stmts.len()
            invariant
                i <= stmts.len(),
                    self.same_place(old(self)),
                walk_stmts(
                    old(self).bind(),
                    old(self).trace(),
                    ir::views(stmts@),
                    from as int,
                    start,
                    old(self).in_loop,
                    old(self).path@,
                ) == walk_stmts(
                    old(self).bind(),
                    self.trace(),
                    ir::views(stmts@),
                    i as int,
                    st,
                    old(self).in_loop,
                    old(self).path@,
                ),
            decreases stmts.len() - i,
        {
            assert(decreases_to!(*stmts => stmts[i as int]));
            assert(ir::views(stmts@)[i as int] == stmts@[i as int]@);
            let r: Result<Flow, Why> = self.child(i, &stmts[i], st, Pos::Stmt);
            match r {
                Ok(Flow::Next(next)) => {
                    st = next;
                },
                _ => {
                    return r;
                },
            }
            i = i + 1;
        }
        Ok(Flow::Next(st))
    }

    fn walk_if(
        &mut self,
        node: &Value,
        cond: &Value,
        yes: &Value,
        no: &Value,
        st: St,
    ) -> (r: Result<Flow, Why>)
        requires
            decreases_to!(*node => *cond),
            decreases_to!(*node => *yes),
            decreases_to!(*node => *no),
        ensures
            final(self).same_place(old(self)),
            (r, final(self).trace()) == walk_branches(
                old(self).bind(),
                old(self).trace(),
                seq![cond@, yes@, no@],
                st,
                old(self).in_loop,
                old(self).path@,
            ),
        decreases node, 1int,
    {
        let rc: Result<Flow, Why> = self.child(0, cond, st, Pos::Arg);
        match rc {
            Ok(Flow::Next(s)) => {
                let rt: Result<Flow, Why> = self.child(1, yes, s, Pos::Stmt);
                match rt {
                    Err(why) => Err(why),
                    Ok(ft) => {
                        let re: Result<Flow, Why> = self.child(2, no, s, Pos::Stmt);
                        match re {
                            Err(why) => Err(why),
                            Ok(fe) => rejoin(ft, fe),
                        }
                    },
                }
            },
            _ => rc,
        }
    }

    fn walk(&mut self, node: &Value, st: St, pos: Pos) -> (r: Result<Flow, Why>)
        ensures
            final(self).same_place(old(self)),
            (r, final(self).trace()) == walk(
                old(self).bind(),
                old(self).trace(),
                node@,
                st,
                pos,
                old(self).in_loop,
                old(self).path@,
            ),
        decreases node, 2int,
    {
        proof {
            ir::shape(*node);
        }
        match node {
            Value::Span(_, inner) => {
                assert(node@.kids[0] == inner@);
                self.walk(inner, st, pos)
            },
            Value::Break(_) | Value::Continue(_) => Ok(Flow::Exit),
            Value::Var(w) => {
                if *w == self.v {
                    return if pos == Pos::Recv && st == St::Held {
                        Ok(Flow::Next(st))
                    } else if st == St::Moved {
                        Err(Why::ReadAfterMove)
                    } else {
                        Err(Why::NotAReceiver)
                    };
                }
                if *w == self.buf {
                    return Err(Why::BufferNamed);
                }
                Ok(Flow::Next(st))
            },
            Value::Assign(w, val) => {
                if *w == self.v {
                    return Err(Why::LocalRebound);
                }
                if *w == self.buf {
                    return Err(Why::BufferRebound);
                }
                assert(node@.kids[0] == val@);
                self.note_element(*w, val);
                self.child(0, val, st, Pos::Arg)
            },
            Value::Call(d, args) => self.walk_call(*d, args, st, pos),
            Value::If(cond, yes, no) => {
                assert(node@.kids == seq![cond@, yes@, no@]);
                self.walk_if(node, cond, yes, no, st)
            },
            Value::Block(bl) => self.walk_stmts(&bl.operators, 0, st),
            Value::Loop(bl) => {
                let outer: bool = self.in_loop;
                self.in_loop = true;
                let r: Result<Flow, Why> = self.walk_stmts(&bl.operators, 0, st);
                self.in_loop = outer;
                match r {
                    Err(why) => Err(why),
                    Ok(_) => Ok(Flow::Next(st)),
                }
            },
            Value::Return(x) => {
                assert(node@.kids[0] == x@);
                let r: Result<Flow, Why> = self.child(0, x, st, Pos::Arg);
                match r {
                    Err(why) => Err(why),
                    Ok(_) => Ok(Flow::Exit),
                }
            },
            Value::Drop(x) => {
                assert(node@.kids[0] == x@);
                self.child(0, x, st, Pos::Arg)
            },
            _ => if self.names_either(node) {
                Err(Why::UnmodelledShape)
            } else {
                Ok(Flow::Next(st))
            },
        }
    }
}

fn rejoin(a: Flow, b: Flow) -> (r: Result<Flow, Why>)
    ensures
        r == rejoined(a, b),
{
    match (a, b) {
        (Flow::Exit, f) => Ok(f),
        (f, Flow::Exit) => Ok(f),
        (Flow::Next(x), Flow::Next(y)) => if x == y {
            Ok(Flow::Next(x))
        } else {
            Err(Why::PathsRejoin)
        },
    }
}

/// The variable of a function's own return buffer, where it answers through one.
pub open spec fn own_buffer(def: Definition) -> Option<u16> {
    match def.return_buffer {
        Some(i) => if i < def.attributes.len() && def.variables.var_named(
            def.attributes@[i as int].name@,
        ) != u16::MAX {
            Some(def.variables.var_named(def.attributes@[i as int].name@))
        } else {
            None
        },
        None => None,
    }
}

fn own_return_buffer(def: &Definition) -> (v: Option<u16>)
    requires
        def.variables.variables.len() <= u16::MAX,
    ensures
        v == own_buffer(*def),
{
    match def.return_buffer {
        Some(i) => {
            if i >= def.attributes.len() {
                return None;
            }
            let v: u16 = def.variables.var(def.attributes[i].name.as_str());
            if v != u16::MAX {
                Some(v)
            } else {
                None
            }
        },
        None => None,
    }
}

/// The statements before the bind may only set the buffer and the local to
/// null: how often they do, from statement `i` up to `end`.
pub open spec fn null_starts(
    s: Seq<ir::Node>,
    i: int,
    end: int,
    v: u16,
    buf: u16,
    bufs: nat,
    locals: nat,
) -> Result<(nat, nat), Why>
    decreases end - i,
{
    if i >= end || i < 0 {
        Ok((bufs, locals))
    } else {
        let m = ir::unspan(s[i]);
        if m.head == ir::Head::Assign(buf) {
            if m.kids.len() > 0 && ir::unspan(m.kids[0]).head is Null {
                null_starts(s, i + 1, end, v, buf, bufs + 1, locals)
            } else {
                Err(Why::BufferBoundBefore)
            }
        } else if m.head == ir::Head::Assign(v) {
            if m.kids.len() > 0 && ir::unspan(m.kids[0]).head is Null {
                null_starts(s, i + 1, end, v, buf, bufs, locals + 1)
            } else {
                Err(Why::LocalBoundBefore)
            }
        } else if ir::mentioned(m, buf) || ir::mentioned(m, v) {
            Err(Why::NamedBefore)
        } else {
            null_starts(s, i + 1, end, v, buf, bufs, locals)
        }
    }
}

/// Whether the bind of local `v` by statement `idx` to a call of definition `f`
/// is placed, and how; or why it keeps its copy.
pub open spec fn admission(
    defs: Seq<Definition>,
    d_nr: u32,
    top: Seq<ir::Node>,
    idx: int,
    v: u16,
    f: u32,
    args: Seq<ir::Node>,
    ops: Ops,
    mode: Mode,
) -> Result<PlanView, Why> {
    let vars = defs[d_nr as int].variables;
    if !holds_record(vars, v) {
        Err(Why::NotDenseRecord)
    } else {
        match defs[f as int].return_buffer {
            None => Err(Why::NoReturnBuffer),
            Some(at) => if !builds_into_buffer(defs, f, at as int) {
                Err(Why::NotBuiltIntoBuffer)
            } else if at >= args.len() {
                Err(Why::BufferNotVariable)
            } else {
                match ir::unspan(args[at as int]).head {
                    ir::Head::Var(buf) => if !named_with(vars, buf, "__ref_"@) {
                        Err(Why::BufferNotWorkRef)
                    } else {
                        let e = Bind {
                            defs,
                            vars,
                            ops,
                            v,
                            buf,
                            args,
                            buf_idx: at as int,
                            own_retbuf: own_buffer(defs[d_nr as int]),
                        };
                        if argument_names(e, buf, args.len() as int) || argument_names(
                            e,
                            v,
                            args.len() as int,
                        ) {
                            Err(Why::ArgumentNamesThem)
                        } else {
                            match null_starts(top, 0, idx, v, buf, 0, 0) {
                                Err(why) => Err(why),
                                Ok((bufs, locals)) => if bufs > 1 || (mode == Mode::Rewrite && bufs
                                    != 1) {
                                    Err(Why::NotOneBufferInit)
                                } else if locals > 1 {
                                    Err(Why::TwoLocalInits)
                                } else {
                                    let (r, t) = walk_stmts(
                                        e,
                                        nothing_yet(),
                                        top,
                                        idx + 1,
                                        St::Held,
                                        false,
                                        Seq::empty(),
                                    );
                                    match r {
                                        Err(why) => Err(why),
                                        Ok(_) => if t.host is Some && t.tp is Some {
                                            Ok(
                                                PlanView {
                                                    v,
                                                    buf,
                                                    host: t.host->0,
                                                    tp: t.tp->0,
                                                    moves: t.moves,
                                                    held: t.held,
                                                    dropped: t.dropped,
                                                },
                                            )
                                        } else {
                                            Err(Why::NoDestination)
                                        },
                                    }
                                },
                            }
                        }
                    },
                    _ => Err(Why::BufferNotVariable),
                }
            },
        }
    }
}

/// What is known before anything was walked.
pub open spec fn nothing_yet() -> Trace {
    Trace {
        tp: None,
        host: None,
        elements: Map::empty(),
        moves: Seq::empty(),
        held: Seq::empty(),
        dropped: Seq::empty(),
    }
}

/// Every definition has no more variables than can be numbered.
pub open spec fn numbered(data: &Data) -> bool {
    &&& data.definitions.len() <= u32::MAX
    &&& forall|d: int|
        0 <= d < data.definitions.len() ==> (#[trigger] data.definitions@[d]).variables.variables.len()
            <= u16::MAX
}

fn prior_starts(stmts: &Vec<Value>, end: usize, v: u16, buf: u16) -> (r: Result<(usize, usize), Why>)
    requires
        end <= stmts.len(),
    ensures
        match (r, null_starts(ir::views(stmts@), 0, end as int, v, buf, 0, 0)) {
            (Ok((a, b)), Ok((c, d))) => a == c && b == d,
            (Err(x), Err(y)) => x == y,
            _ => false,
        },
{
    let mut bufs: usize = 0;
    let mut locals: usize = 0;
    let mut i: usize = 0;
    while i < end
        invariant
            i <= end <= stmts.len(),
            bufs <= i,
            locals <= i,
            null_starts(ir::views(stmts@), 0, end as int, v, buf, 0, 0) == null_starts(
                ir::views(stmts@),
                i as int,
                end as int,
                v,
                buf,
                bufs as nat,
                locals as nat,
            ),
        decreases end - i,
    {
        let stmt: &Value = stmts[i].unspan();
        assert(ir::views(stmts@)[i as int] == stmts@[i as int]@);
        match stmt {
            Value::Assign(w, val) => {
                assert(stmt@.kids[0] == val@);
                if *w == buf {
                    if !val.is_null() {
                        return Err(Why::BufferBoundBefore);
                    }
                    bufs = bufs + 1;
                } else if *w == v {
                    if !val.is_null() {
                        return Err(Why::LocalBoundBefore);
                    }
                    locals = locals + 1;
                } else if stmt.mentions(buf) || stmt.mentions(v) {
                    return Err(Why::NamedBefore);
                }
            },
            _ => {
                if stmt.mentions(buf) || stmt.mentions(v) {
                    return Err(Why::NamedBefore);
                }
            },
        }
        i = i + 1;
    }
    Ok((bufs, locals))
}

fn admit_bind(
    data: &Data,
    d_nr: u32,
    top: &Vec<Value>,
    idx: usize,
    v: u16,
    fn_nr: u32,
    args: &Vec<Value>,
    ops: Ops,
    mode: Mode,
) -> (r: Result<Plan, Why>)
    requires
        numbered(data),
        d_nr < data.definitions.len(),
        fn_nr < data.definitions.len(),
        idx < top.len(),
    ensures
        match (
            r,
            admission(
                data.definitions@,
                d_nr,
                ir::views(top@),
                idx as int,
                v,
                fn_nr,
                ir::views(args@),
                ops,
                mode,
            ),
        ) {
            (Ok(p), Ok(q)) => p@ == q,
            (Err(x), Err(y)) => x == y,
            _ => false,
        },
{
    let def: &Definition = data.def(d_nr);
    let function: &Function = &def.variables;
    if !is_record(function, v) {
        return Err(Why::NotDenseRecord);
    }
    let callee: &Definition = data.def(fn_nr);
    let buf_idx: usize = match callee.return_buffer {
        Some(at) => at,
        None => {
            return Err(Why::NoReturnBuffer);
        },
    };
    if !callee_writes_buffer_at_every_exit(data, fn_nr, buf_idx) {
        return Err(Why::NotBuiltIntoBuffer);
    }
    if buf_idx >= args.len() {
        return Err(Why::BufferNotVariable);
    }
    proof {
        ir::view_at(args@);
    }
    let buf: u16 = match args[buf_idx].unspan() {
        Value::Var(buf) => *buf,
        _ => {
            return Err(Why::BufferNotVariable);
        },
    };
    if !name_starts(function, buf, "__ref_") {
        return Err(Why::BufferNotWorkRef);
    }
    let mut cx: Cx = Cx {
        data,
        function,
        ops,
        v,
        buf,
        args,
        buf_idx,
        own_retbuf: own_return_buffer(def),
        tp: None,
        host: None,
        in_loop: false,
        elm_host: HashMap::new(),
        path: Vec::new(),
        moves: Vec::new(),
        frees_held: Vec::new(),
        frees_dropped: Vec::new(),
    };
    if cx.reaches(buf) || cx.reaches(v) {
        return Err(Why::ArgumentNamesThem);
    }
    let (bufs, locals): (usize, usize) = match prior_starts(top, idx, v, buf) {
        Ok(found) => found,
        Err(why) => {
            return Err(why);
        },
    };
    if bufs > 1 || (mode == Mode::Rewrite && bufs != 1) {
        return Err(Why::NotOneBufferInit);
    }
    if locals > 1 {
        return Err(Why::TwoLocalInits);
    }
    proof {
        broadcast use vstd::std_specs::hash::group_hash_axioms;

        let t = cx.trace();
        let n = nothing_yet();
        assert(t.elements =~= n.elements);
        assert(t.moves =~= n.moves);
        assert(t.held =~= n.held);
        assert(t.dropped =~= n.dropped);
        assert(cx.path@ =~= Seq::<usize>::empty());
    }
    let r: Result<Flow, Why> = cx.walk_stmts(top, idx + 1, St::Held);
    match r {
        Err(why) => Err(why),
        Ok(_) => match (cx.host, cx.tp) {
            (Some(host), Some(tp)) => {
                let ghost t = cx.trace();
                let plan: Plan = Plan {
                    v,
                    buf,
                    host,
                    tp,
                    moves: cx.moves,
                    frees_held: cx.frees_held,
                    frees_dropped: cx.frees_dropped,
                };
                assert(plan@.moves == t.moves);
                Ok(plan)
            },
            _ => Err(Why::NoDestination),
        },
    }
}

/// The plan for the statement at `i`, where it is a bind that is placed.
pub open spec fn plan_at(
    defs: Seq<Definition>,
    d_nr: u32,
    top: Seq<ir::Node>,
    i: int,
    ops: Ops,
    mode: Mode,
) -> Option<PlanView> {
    let m = ir::unspan(top[i]);
    match m.head {
        ir::Head::Assign(v) => {
            let call = ir::unspan(m.kids[0]);
            match call.head {
                ir::Head::Call(f) => if placeable(defs, defs[d_nr as int].variables, v, f) {
                    match admission(defs, d_nr, top, i, v, f, call.kids, ops, mode) {
                        Ok(plan) => Some(plan),
                        Err(_) => None,
                    }
                } else {
                    None
                },
                _ => None,
            }
        },
        _ => None,
    }
}

/// The plans of the statements from `i` on.
pub open spec fn plans_from(
    defs: Seq<Definition>,
    d_nr: u32,
    top: Seq<ir::Node>,
    i: int,
    ops: Ops,
    mode: Mode,
) -> Seq<PlanView>
    decreases top.len() - i,
{
    if i < 0 || i >= top.len() {
        Seq::empty()
    } else {
        match plan_at(defs, d_nr, top, i, ops, mode) {
            Some(plan) => seq![plan] + plans_from(defs, d_nr, top, i + 1, ops, mode),
            None => plans_from(defs, d_nr, top, i + 1, ops, mode),
        }
    }
}

/// The plans for the body of definition `d_nr`.
pub open spec fn plans_for(
    defs: Seq<Definition>,
    d_nr: u32,
    code: ir::Node,
    ops: Ops,
    mode: Mode,
) -> Seq<PlanView> {
    let body = ir::unspan(code);
    if body.head is Block {
        plans_from(defs, d_nr, body.kids, 0, ops, mode)
    } else {
        Seq::empty()
    }
}

/// The views of a list of plans.
pub open spec fn plan_views(s: Seq<Plan>) -> Seq<PlanView> {
    Seq::new(s.len(), |i: int| s[i]@)
}

fn admitted(data: &Data, d_nr: u32, code: &Value, ops: Ops, mode: Mode) -> (plans: Vec<Plan>)
    requires
        numbered(data),
        d_nr < data.definitions.len(),
    ensures
        plan_views(plans@) == plans_for(data.definitions@, d_nr, code@, ops, mode),
{
    let mut plans: Vec<Plan> = Vec::new();
    let body: &Value = code.unspan();
    match body {
        Value::Block(bl) => {
            proof {
                ir::shape(*body);
                ir::view_at(bl.operators@);
            }
            let top: &Vec<Value> = &bl.operators;
            let ghost nodes = ir::views(top@);
            let function: &Function = &data.definitions[d_nr as usize].variables;
            let mut i: usize = 0;
            while i < top.len()
                invariant
                    numbered(data),
                    d_nr < data.definitions.len(),
                    *function == data.definitions@[d_nr as int].variables,
                    i <= top.len(),
                    nodes == ir::views(top@),
                    plans_from(data.definitions@, d_nr, nodes, 0, ops, mode) == plan_views(plans@)
                        + plans_from(data.definitions@, d_nr, nodes, i as int, ops, mode),
                decreases top.len() - i,
            {
                assert(nodes[i as int] == top@[i as int]@);
                let stmt: &Value = top[i].unspan();
                let mut found: Option<Plan> = None;
                match stmt {
                    Value::Assign(v, value) => {
                        assert(stmt@.kids[0] == value@);
                        let call: &Value = value.unspan();
                        match call {
                            Value::Call(fn_nr, args) => {
                                proof {
                                    ir::shape(*call);
                                }
                                if placeable_bind(data, function, *v, *fn_nr) {
                                    match admit_bind(data, d_nr, top, i, *v, *fn_nr, args, ops, mode) {
                                        Ok(plan) => {
                                            found = Some(plan);
                                        },
                                        Err(_) => {},
                                    }
                                }
                            },
                            _ => {},
                        }
                    },
                    _ => {},
                }
                let ghost was = plan_views(plans@);
                let ghost rest = plans_from(data.definitions@, d_nr, nodes, i + 1, ops, mode);
                match found {
                    Some(plan) => {
                        let ghost p = plan@;
                        plans.push(plan);
                        proof {
                            assert(plan_views(plans@) =~= was.push(p));
                            assert(was + (seq![p] + rest) =~= plan_views(plans@) + rest);
                        }
                    },
                    None => {},
                }
                i = i + 1;
            }
            assert(plan_views(plans@) + Seq::<PlanView>::empty() =~= plan_views(plans@));
        },
        _ => {
            assert(plan_views(plans@) =~= Seq::<PlanView>::empty());
        },
    }
    plans
}

/// The first plan from `i` on that sets `buf` up.
pub open spec fn placing(plans: Seq<PlanView>, buf: u16, i: int) -> Option<PlanView>
    decreases plans.len() - i,
{
    if i < 0 || i >= plans.len() {
        None
    } else if plans[i].buf == buf {
        Some(plans[i])
    } else {
        placing(plans, buf, i + 1)
    }
}

/// The first plan from `i` on that moves the record at `path`.
pub open spec fn moving(plans: Seq<PlanView>, path: Seq<usize>, i: int) -> Option<PlanView>
    decreases plans.len() - i,
{
    if i < 0 || i >= plans.len() {
        None
    } else if plans[i].moves.contains(path) {
        Some(plans[i])
    } else {
        moving(plans, path, i + 1)
    }
}

/// The first plan from `i` on that releases the record at `path`.
pub open spec fn releasing(plans: Seq<PlanView>, path: Seq<usize>, i: int) -> Option<PlanView>
    decreases plans.len() - i,
{
    if i < 0 || i >= plans.len() {
        None
    } else if plans[i].held.contains(path) {
        Some(plans[i])
    } else {
        releasing(plans, path, i + 1)
    }
}

/// Whether one of the plans from `i` on drops the statement at `path`.
pub open spec fn dropping(plans: Seq<PlanView>, path: Seq<usize>, i: int) -> bool
    decreases plans.len() - i,
{
    if i < 0 || i >= plans.len() {
        false
    } else {
        plans[i].dropped.contains(path) || dropping(plans, path, i + 1)
    }
}

/// The code after the plans: the null start of a buffer becomes a record placed
/// in the host's store, the planned copies become moves, the planned releases
/// release the record, and the dropped ones go.  `path` is the place of the node
/// in the code that the plans were made for.
pub open spec fn applied(
    n: ir::Node,
    path: Seq<usize>,
    plans: Seq<PlanView>,
    ops: Ops,
) -> ir::Node
    decreases n, 0int,
{
    let buffer = match n.head {
        ir::Head::Assign(w) => if n.kids.len() > 0 && ir::unspan(n.kids[0]).head is Null {
            placing(plans, w, 0)
        } else {
            None
        },
        _ => None,
    };
    let record = if n.head == ir::Head::Call(ops.copy) && n.kids.len() == 3 {
        moving(plans, path, 0)
    } else {
        None
    };
    let release = if n.head == ir::Head::Call(ops.free_ref) || n.head == ir::Head::Call(
        ops.free_if_distinct,
    ) {
        releasing(plans, path, 0)
    } else {
        None
    };
    if n.head is Span {
        ir::Node { head: n.head, kids: each_applied(n.kids, 0, path, plans, ops, false) }
    } else if n.head is Block || n.head is Loop {
        ir::Node { head: n.head, kids: kept_applied(n.kids, 0, path, plans, ops) }
    } else if buffer is Some {
        ir::Node { head: n.head, kids: seq![call_node(ops.place, buffer->0.host, buffer->0.tp)] }
    } else if record is Some {
        ir::Node {
            head: ir::Head::Call(ops.move_rec),
            kids: n.kids.update(2, ir::leaf(ir::Head::Int(record->0.tp as i32))),
        }
    } else if release is Some {
        call_node(ops.free_in, release->0.v, release->0.tp)
    } else if n.head is Assign || n.head is If || n.head is Return || n.head is Drop
        || n.head is Call {
        ir::Node { head: n.head, kids: each_applied(n.kids, 0, path, plans, ops, true) }
    } else {
        n
    }
}

/// A call of `d` on a variable and a type number.
pub open spec fn call_node(d: u32, v: u16, tp: u16) -> ir::Node {
    ir::Node {
        head: ir::Head::Call(d),
        kids: seq![ir::leaf(ir::Head::Var(v)), ir::leaf(ir::Head::Int(tp as i32))],
    }
}

/// The nodes from `i` on after the plans; `step` takes the child index into the
/// path.
pub open spec fn each_applied(
    s: Seq<ir::Node>,
    i: int,
    path: Seq<usize>,
    plans: Seq<PlanView>,
    ops: Ops,
    step: bool,
) -> Seq<ir::Node>
    decreases s, s.len() - i,
{
    if i < 0 || i >= s.len() {
        Seq::empty()
    } else {
        let at = if step {
            path.push(i as usize)
        } else {
            path
        };
        seq![applied(s[i], at, plans, ops)] + each_applied(s, i + 1, path, plans, ops, step)
    }
}

/// The statements from `i` on after the plans, without the dropped ones.
pub open spec fn kept_applied(
    s: Seq<ir::Node>,
    i: int,
    path: Seq<usize>,
    plans: Seq<PlanView>,
    ops: Ops,
) -> Seq<ir::Node>
    decreases s, s.len() - i,
{
    if i < 0 || i >= s.len() {
        Seq::empty()
    } else if dropping(plans, path.push(i as usize), 0) {
        kept_applied(s, i + 1, path, plans, ops)
    } else {
        seq![applied(s[i], path.push(i as usize), plans, ops)] + kept_applied(
            s,
            i + 1,
            path,
            plans,
            ops,
        )
    }
}

fn same_path(a: &Vec<usize>, b: &Vec<usize>) -> (r: bool)
    ensures
        r == (a@ == b@),
{
    if a.len() != b.len() {
        return false;
    }
    let mut i: usize = 0;
    while i < a.len()
        invariant
            i <= a.len(),
            a.len() == b.len(),
            forall|j: int| 0 <= j < i ==> a@[j] == b@[j],
        decreases a.len() - i,
    {
        if a[i] != b[i] {
            return false;
        }
        i = i + 1;
    }
    assert(a@ =~= b@);
    true
}

fn has_path(list: &Vec<Vec<usize>>, path: &Vec<usize>) -> (r: bool)
    ensures
        r == paths(list@).contains(path@),
{
    let mut i: usize = 0;
    while i < list.len()
        invariant
            i <= list.len(),
            forall|j: int| 0 <= j < i ==> paths(list@)[j] != path@,
        decreases list.len() - i,
    {
        if same_path(&list[i], path) {
            assert(paths(list@)[i as int] == path@);
            return true;
        }
        i = i + 1;
    }
    false
}

fn first_placing(plans: &Vec<Plan>, buf: u16) -> (found: Option<usize>)
    ensures
        match found {
            Some(i) => i < plans.len() && placing(plan_views(plans@), buf, 0) == Some(
                plans@[i as int]@,
            ),
            None => placing(plan_views(plans@), buf, 0) is None,
        },
{
    let mut i: usize = 0;
    while i < plans.len()
        invariant
            i <= plans.len(),
            placing(plan_views(plans@), buf, 0) == placing(plan_views(plans@), buf, i as int),
        decreases plans.len() - i,
    {
        if plans[i].buf == buf {
            return Some(i);
        }
        i = i + 1;
    }
    None
}

fn first_moving(plans: &Vec<Plan>, path: &Vec<usize>) -> (found: Option<usize>)
    ensures
        match found {
            Some(i) => i < plans.len() && moving(plan_views(plans@), path@, 0) == Some(
                plans@[i as int]@,
            ),
            None => moving(plan_views(plans@), path@, 0) is None,
        },
{
    let mut i: usize = 0;
    while i < plans.len()
        invariant
            i <= plans.len(),
            moving(plan_views(plans@), path@, 0) == moving(plan_views(plans@), path@, i as int),
        decreases plans.len() - i,
    {
        if has_path(&plans[i].moves, path) {
            return Some(i);
        }
        i = i + 1;
    }
    None
}

fn first_releasing(plans: &Vec<Plan>, path: &Vec<usize>) -> (found: Option<usize>)
    ensures
        match found {
            Some(i) => i < plans.len() && releasing(plan_views(plans@), path@, 0) == Some(
                plans@[i as int]@,
            ),
            None => releasing(plan_views(plans@), path@, 0) is None,
        },
{
    let mut i: usize = 0;
    while i < plans.len()
        invariant
            i <= plans.len(),
            releasing(plan_views(plans@), path@, 0) == releasing(
                plan_views(plans@),
                path@,
                i as int,
            ),
        decreases plans.len() - i,
    {
        if has_path(&plans[i].frees_held, path) {
            return Some(i);
        }
        i = i + 1;
    }
    None
}

fn any_dropping(plans: &Vec<Plan>, path: &Vec<usize>) -> (found: bool)
    ensures
        found == dropping(plan_views(plans@), path@, 0),
{
    let mut i: usize = 0;
    while i < plans.len()
        invariant
            i <= plans.len(),
            dropping(plan_views(plans@), path@, 0) == dropping(
                plan_views(plans@),
                path@,
                i as int,
            ),
        decreases plans.len() - i,
    {
        if has_path(&plans[i].frees_dropped, path) {
            return true;
        }
        i = i + 1;
    }
    false
}

/// A call of `d` with two operands: a variable and a number.
fn call_on(d: u32, v: u16, tp: u16) -> (call: Value)
    ensures
        call@ == call_node(d, v, tp),
{
    let k: i32 = tp as i32;
    let mut args: Vec<Value> = Vec::new();
    args.push(Value::Var(v));
    args.push(Value::Int(k));
    assert(ir::views(args@) =~= seq![ir::leaf(ir::Head::Var(v)), ir::leaf(ir::Head::Int(k))]);
    let call: Value = Value::Call(d, args);
    proof {
        ir::shape(call);
    }
    call
}

fn apply_each(
    node: &Value,
    kids: &Vec<&Value>,
    path: &mut Vec<usize>,
    plans: &Vec<Plan>,
    ops: Ops,
    step: bool,
) -> (out: Vec<Value>)
    requires
        kids.len() == node@.kids.len(),
        forall|j: int| 0 <= j < kids.len() ==> (#[trigger] kids@[j])@ == node@.kids[j],
        forall|j: int| 0 <= j < kids.len() ==> decreases_to!(*node => *#[trigger] kids@[j]),
    ensures
        final(path)@ == old(path)@,
        ir::views(out@) == each_applied(node@.kids, 0, old(path)@, plan_views(plans@), ops, step),
        out.len() == kids.len(),
    decreases node, 0int,
{
    let mut out: Vec<Value> = Vec::new();
    let mut i: usize = 0;
    let ghost whole = each_applied(node@.kids, 0, path@, plan_views(plans@), ops, step);
    assert(whole =~= ir::views(out@) + each_applied(node@.kids, 0, path@, plan_views(plans@), ops, step));
    while i < kids.len()
        invariant
            i <= kids.len(),
            out.len() == i,
            kids.len() == node@.kids.len(),
            forall|j: int| 0 <= j < kids.len() ==> (#[trigger] kids@[j])@ == node@.kids[j],
            forall|j: int| 0 <= j < kids.len() ==> decreases_to!(*node => *#[trigger] kids@[j]),
            path@ == old(path)@,
            whole == ir::views(out@) + each_applied(
                node@.kids,
                i as int,
                path@,
                plan_views(plans@),
                ops,
                step,
            ),
        decreases kids.len() - i,
    {
        let ghost was = ir::views(out@);
        if step {
            path.push(i);
        }
        let now: Value = apply(kids[i], path, plans, ops);
        if step {
            let _last: Option<usize> = path.pop();
            assert(path@ =~= old(path)@);
        }
        let ghost n = now@;
        out.push(now);
        proof {
            let rest = each_applied(node@.kids, i + 1, path@, plan_views(plans@), ops, step);
            assert(ir::views(out@) =~= was.push(n));
            assert(was + (seq![n] + rest) =~= ir::views(out@) + rest);
        }
        i = i + 1;
    }
    assert(whole =~= ir::views(out@));
    out
}

fn apply_block(
    node: &Value,
    kids: &Vec<&Value>,
    path: &mut Vec<usize>,
    plans: &Vec<Plan>,
    ops: Ops,
) -> (out: Vec<Value>)
    requires
        kids.len() == node@.kids.len(),
        forall|j: int| 0 <= j < kids.len() ==> (#[trigger] kids@[j])@ == node@.kids[j],
        forall|j: int| 0 <= j < kids.len() ==> decreases_to!(*node => *#[trigger] kids@[j]),
    ensures
        final(path)@ == old(path)@,
        ir::views(out@) == kept_applied(node@.kids, 0, old(path)@, plan_views(plans@), ops),
    decreases node, 0int,
{
    let mut out: Vec<Value> = Vec::new();
    let mut i: usize = 0;
    let ghost whole = kept_applied(node@.kids, 0, path@, plan_views(plans@), ops);
    assert(whole =~= ir::views(out@) + kept_applied(node@.kids, 0, path@, plan_views(plans@), ops));
    while i < kids.len()
        invariant
            i <= kids.len(),
            kids.len() == node@.kids.len(),
            forall|j: int| 0 <= j < kids.len() ==> (#[trigger] kids@[j])@ == node@.kids[j],
            forall|j: int| 0 <= j < kids.len() ==> decreases_to!(*node => *#[trigger] kids@[j]),
            path@ == old(path)@,
            whole == ir::views(out@) + kept_applied(node@.kids, i as int, path@, plan_views(plans@), ops),
        decreases kids.len() - i,
    {
        let ghost was = ir::views(out@);
        path.push(i);
        if !any_dropping(plans, path) {
            let now: Value = apply(kids[i], path, plans, ops);
            let ghost n = now@;
            out.push(now);
            proof {
                let rest = kept_applied(node@.kids, i + 1, old(path)@, plan_views(plans@), ops);
                assert(ir::views(out@) =~= was.push(n));
                assert(was + (seq![n] + rest) =~= ir::views(out@) + rest);
            }
        }
        let _last: Option<usize> = path.pop();
        assert(path@ =~= old(path)@);
        i = i + 1;
    }
    assert(whole =~= ir::views(out@));
    out
}

fn apply(node: &Value, path: &mut Vec<usize>, plans: &Vec<Plan>, ops: Ops) -> (out: Value)
    ensures
        final(path)@ == old(path)@,
        out@ == applied(node@, old(path)@, plan_views(plans@), ops),
    decreases node, 1int,
{
    proof {
        ir::shape(*node);
    }
    match node {
        Value::Span(_, _) => {
            let kids: Vec<&Value> = node.children();
            node.rebuild(apply_each(node, &kids, path, plans, ops, false))
        },
        Value::Block(bl) => {
            let kids: Vec<&Value> = node.children();
            let operators: Vec<Value> = apply_block(node, &kids, path, plans, ops);
            let out: Value = Value::Block(
                Box::new(
                    ir::Block { name: bl.name.clone(), operators, result: bl.result.copy() },
                ),
            );
            proof {
                ir::shape(out);
            }
            out
        },
        Value::Loop(bl) => {
            let kids: Vec<&Value> = node.children();
            let operators: Vec<Value> = apply_block(node, &kids, path, plans, ops);
            let out: Value = Value::Loop(
                Box::new(
                    ir::Block { name: bl.name.clone(), operators, result: bl.result.copy() },
                ),
            );
            proof {
                ir::shape(out);
            }
            out
        },
        Value::Assign(w, val) => {
            assert(node@.kids[0] == val@);
            if val.is_null() {
                match first_placing(plans, *w) {
                    Some(i) => {
                        return Value::Assign(
                            *w,
                            Box::new(call_on(ops.place, plans[i].host, plans[i].tp)),
                        );
                    },
                    None => {},
                }
            }
            let kids: Vec<&Value> = node.children();
            node.rebuild(apply_each(node, &kids, path, plans, ops, true))
        },
        Value::Call(d, args) => {
            if *d == ops.copy && args.len() == 3 {
                match first_moving(plans, path) {
                    Some(i) => {
                        let mut moved: Vec<Value> = Vec::new();
                        moved.push(args[0].copy());
                        moved.push(args[1].copy());
                        moved.push(Value::Int(plans[i].tp as i32));
                        let out: Value = Value::Call(ops.move_rec, moved);
                        proof {
                            ir::shape(out);
                            ir::view_at(args@);
                            assert(ir::views(moved@) =~= node@.kids.update(
                                2,
                                ir::leaf(ir::Head::Int(plans@[i as int].tp as i32)),
                            ));
                        }
                        return out;
                    },
                    None => {},
                }
            }
            if *d == ops.free_ref || *d == ops.free_if_distinct {
                match first_releasing(plans, path) {
                    Some(i) => {
                        return call_on(ops.free_in, plans[i].v, plans[i].tp);
                    },
                    None => {},
                }
            }
            let kids: Vec<&Value> = node.children();
            node.rebuild(apply_each(node, &kids, path, plans, ops, true))
        },
        Value::If(_, _, _) | Value::Return(_) | Value::Drop(_) => {
            let kids: Vec<&Value> = node.children();
            node.rebuild(apply_each(node, &kids, path, plans, ops, true))
        },
        _ => node.copy(),
    }
}

/// Two definitions that differ at most in their code.
pub open spec fn same_but_code(a: Definition, b: Definition) -> bool {
    a == (Definition { code: a.code, ..b })
}

/// Rewrite every admitted bind of function `d_nr`; nothing when the rewrite is
/// switched off or an operator is missing.
pub fn rewrite(data: &mut Data, d_nr: u32, enabled: bool)
    requires
        numbered(&*old(data)),
        d_nr < old(data).definitions.len(),
    ensures
        final(data).definitions.len() == old(data).definitions.len(),
        forall|d: int|
            0 <= d < old(data).definitions.len() && d != d_nr
                ==> #[trigger] final(data).definitions@[d] == old(data).definitions@[d],
        same_but_code(
            final(data).definitions@[d_nr as int],
            old(data).definitions@[d_nr as int],
        ),
        final(data).definitions@[d_nr as int].code@ == match ops_of(&*old(data)) {
            Some(ops) if enabled => applied(
                old(data).definitions@[d_nr as int].code@,
                Seq::empty(),
                plans_for(
                    old(data).definitions@,
                    d_nr,
                    old(data).definitions@[d_nr as int].code@,
                    ops,
                    Mode::Rewrite,
                ),
                ops,
            ),
            _ => old(data).definitions@[d_nr as int].code@,
        },
{
    if !enabled {
        return;
    }
    let ops: Ops = match Ops::lookup(data) {
        Some(ops) => ops,
        None => {
            return;
        },
    };
    let plans: Vec<Plan> = admitted(
        data,
        d_nr,
        &data.definitions[d_nr as usize].code,
        ops,
        Mode::Rewrite,
    );
    let mut path: Vec<usize> = Vec::new();
    assert(path@ =~= Seq::<usize>::empty());
    let code: Value = apply(&data.definitions[d_nr as usize].code, &mut path, &plans, ops);
    data.definitions[d_nr as usize].code = code;
}

/// Whether one of the plans is for local `v`.
pub open spec fn places(plans: Seq<PlanView>, v: u16) -> bool {
    exists|i: int| 0 <= i < plans.len() && (#[trigger] plans[i]).v == v
}

/// Whether the bind of local `v` in function `d_nr` would be placed.
#[must_use]
pub fn admits(data: &Data, d_nr: u32, v: u16, enabled: bool) -> (r: bool)
    requires
        numbered(data),
        d_nr < data.definitions.len(),
    ensures
        r == match ops_of(data) {
            Some(ops) if enabled => places(
                plans_for(
                    data.definitions@,
                    d_nr,
                    data.definitions@[d_nr as int].code@,
                    ops,
                    Mode::Preview,
                ),
                v,
            ),
            _ => false,
        },
{
    if !enabled {
        return false;
    }
    let ops: Ops = match Ops::lookup(data) {
        Some(ops) => ops,
        None => {
            return false;
        },
    };
    let plans: Vec<Plan> = admitted(
        data,
        d_nr,
        &data.definitions[d_nr as usize].code,
        ops,
        Mode::Preview,
    );
    let ghost views = plan_views(plans@);
    let mut i: usize = 0;
    while i < plans.len()
        invariant
            i <= plans.len(),
            views == plan_views(plans@),
            views == plans_for(
                data.definitions@,
                d_nr,
                data.definitions@[d_nr as int].code@,
                ops,
                Mode::Preview,
            ),
            forall|j: int| 0 <= j < i ==> (#[trigger] views[j]).v != v,
            ops_of(data) == Some(ops),
            enabled,
        decreases plans.len() - i,
    {
        if plans[i].v == v {
            assert(views[i as int].v == v);
            return true;
        }
        i = i + 1;
    }
    false
}

/// A body without an admitted bind stays as it is.
pub proof fn without_plans_nothing_changes(n: ir::Node, path: Seq<usize>, ops: Ops)
    ensures
        applied(n, path, Seq::empty(), ops) == n,
    decreases n, 0int,
{
    let none = Seq::<PlanView>::empty();
    each_unchanged(n.kids, 0, path, ops, true);
    each_unchanged(n.kids, 0, path, ops, false);
    kept_unchanged(n.kids, 0, path, ops);
    assert(n.kids.skip(0) =~= n.kids);
}

proof fn each_unchanged(s: Seq<ir::Node>, i: int, path: Seq<usize>, ops: Ops, step: bool)
    requires
        0 <= i <= s.len(),
    ensures
        each_applied(s, i, path, Seq::empty(), ops, step) == s.skip(i),
    decreases s, s.len() - i,
{
    if i < s.len() {
        let at = if step {
            path.push(i as usize)
        } else {
            path
        };
        without_plans_nothing_changes(s[i], at, ops);
        each_unchanged(s, i + 1, path, ops, step);
        assert(seq![s[i]] + s.skip(i + 1) =~= s.skip(i));
    } else {
        assert(s.skip(i) =~= Seq::<ir::Node>::empty());
    }
}

proof fn kept_unchanged(s: Seq<ir::Node>, i: int, path: Seq<usize>, ops: Ops)
    requires
        0 <= i <= s.len(),
    ensures
        kept_applied(s, i, path, Seq::empty(), ops) == s.skip(i),
    decreases s, s.len() - i,
{
    if i < s.len() {
        without_plans_nothing_changes(s[i], path.push(i as usize), ops);
        kept_unchanged(s, i + 1, path, ops);
        assert(seq![s[i]] + s.skip(i + 1) =~= s.skip(i));
    } else {
        assert(s.skip(i) =~= Seq::<ir::Node>::empty());
    }
}

/// Every bind that the rewrite places is one that the preview announces.
pub proof fn what_is_placed_was_announced(
    defs: Seq<Definition>,
    d_nr: u32,
    code: ir::Node,
    ops: Ops,
    v: u16,
)
    requires
        places(plans_for(defs, d_nr, code, ops, Mode::Rewrite), v),
    ensures
        places(plans_for(defs, d_nr, code, ops, Mode::Preview), v),
{
    let body = ir::unspan(code);
    if body.head is Block {
        announced_from(defs, d_nr, body.kids, 0, ops, v);
    }
}

proof fn announced_from(
    defs: Seq<Definition>,
    d_nr: u32,
    top: Seq<ir::Node>,
    i: int,
    ops: Ops,
    v: u16,
)
    requires
        0 <= i,
        places(plans_from(defs, d_nr, top, i, ops, Mode::Rewrite), v),
    ensures
        places(plans_from(defs, d_nr, top, i, ops, Mode::Preview), v),
    decreases top.len() - i,
{
    let all = plans_from(defs, d_nr, top, i, ops, Mode::Rewrite);
    let rest = plans_from(defs, d_nr, top, i + 1, ops, Mode::Rewrite);
    let seen = plans_from(defs, d_nr, top, i, ops, Mode::Preview);
    let k = choose|k: int| 0 <= k < all.len() && (#[trigger] all[k]).v == v;
    if i < top.len() {
        let placed = plan_at(defs, d_nr, top, i, ops, Mode::Rewrite);
        let shown = plan_at(defs, d_nr, top, i, ops, Mode::Preview);
        assert(placed is Some ==> shown == placed);
        if placed is Some && k == 0 {
            assert(seen[0] == placed->0);
        } else {
            let j = if placed is Some {
                k - 1
            } else {
                k
            };
            assert(rest[j] == all[k]);
            announced_from(defs, d_nr, top, i + 1, ops, v);
            let more = plans_from(defs, d_nr, top, i + 1, ops, Mode::Preview);
            let m = choose|m: int| 0 <= m < more.len() && (#[trigger] more[m]).v == v;
            if shown is Some {
                assert(seen[m + 1] == more[m]);
            } else {
                assert(seen[m] == more[m]);
            }
        }
    }
}

} // verus!
