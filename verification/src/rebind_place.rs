//! Records updated in place.
//!
//! In `x = f(x, ..)` the callee reads its parameter, builds a record into the
//! buffer it is handed and the caller copies that record over `x`.  Where it is
//! safe the call hands in `x` itself as the buffer, so that parameter, buffer and
//! result are one record.  Only the buffer argument of the call changes.

use crate::data::{Data, DefType, Definition, Function};
use crate::ir::{self, Value};
use crate::place_result;
use crate::schema::Stores;
use crate::text;
use crate::types::{self, Type};
use vstd::prelude::*;

verus! {

/// Why a call keeps its own buffer.
#[derive(Clone, Copy, Debug, PartialEq, Eq, Structural)]
pub enum Why {
    Recursive,
    NotAFunction,
    NoBody,
    Lambda,
    NoReturnBuffer,
    PromotedBuffer,
    NoBufferArgument,
    NotWorkRef,
    NotPlainLocal,
    NotDenseRecord,
    NoDerivedBinding,
    ViewsAPlace,
    ViewsAnother,
    ViewElided,
    Witnessed,
    OtherBufferType,
    HandedInTwice,
    ReachesStore,
    NotAnArgument,
    NotByValue,
    OtherParameterType,
    BufferNotArgument,
    NoParameterVariable,
    BodyNotBlock,
    EmptyBody,
    ExitElsewhere,
    EmptyLiteral,
    OtherBranch,
    WritesArgument,
    ReadAfterWrite,
    UnguardedMint,
    ZeroingDefault,
    WriteConsults,
    WritesParameter,
    UnreadStatement,
}

/// The right-hand side that decides: the last step of an insertion, or the
/// value itself.
pub open spec fn decisive(n: ir::Node) -> Option<ir::Node> {
    let m = ir::unspan(n);
    if m.head is Insert {
        if m.kids.len() > 0 {
            Some(ir::unspan(m.kids.last()))
        } else {
            None
        }
    } else {
        Some(m)
    }
}

/// The assignments that make local `v` a view of a place: an element, a field or
/// a tuple member.
pub open spec fn projecting(defs: Seq<Definition>, v: u16) -> spec_fn(ir::Node) -> bool {
    |n: ir::Node|
        n.head == ir::Head::Assign(v) && n.kids.len() > 0 && match decisive(n.kids[0]) {
            Some(m) => match m.head {
                ir::Head::TupleGet(_, _) => true,
                ir::Head::Call(d) => d < defs.len() && defs[d as int].projection,
                _ => false,
            },
            None => false,
        }
}

/// Whether this node is an assignment that makes local `v` a view of a place.
fn projects(node: &Value, v: u16, data: &Data) -> (r: bool)
    ensures
        r == projecting(data.definitions@, v)(node@),
{
    match node {
        Value::Assign(w, rhs) => {
            assert(node@.kids[0] == rhs@);
            if *w != v {
                return false;
            }
            let value: &Value = rhs.unspan();
            proof {
                ir::shape(*value);
            }
            match value {
                Value::Insert(steps) => {
                    if steps.len() == 0 {
                        return false;
                    }
                    proof {
                        ir::view_at(steps@);
                    }
                    views_place(steps[steps.len() - 1].unspan(), data)
                },
                _ => views_place(value, data),
            }
        },
        _ => false,
    }
}

fn views_place(value: &Value, data: &Data) -> (r: bool)
    ensures
        r == match value@.head {
            ir::Head::TupleGet(_, _) => true,
            ir::Head::Call(d) => d < data.definitions.len()
                && data.definitions@[d as int].projection,
            _ => false,
        },
{
    proof {
        ir::shape(*value);
    }
    match value {
        Value::TupleGet(_, _) => true,
        Value::Call(d, _) => (*d as usize) < data.definitions.len()
            && data.definitions[*d as usize].projection,
        _ => false,
    }
}

/// Whether some assignment in the code makes local `v` a view of a place.
fn projected_local(node: &Value, v: u16, data: &Data) -> (found: bool)
    ensures
        found == ir::any(node@, projecting(data.definitions@, v)),
    decreases node,
{
    if projects(node, v, data) {
        return true;
    }
    let kids: Vec<&Value> = node.children();
    let ghost p = projecting(data.definitions@, v);
    let mut i: usize = 0;
    while i < kids.len()
        invariant
            i <= kids.len(),
            p == projecting(data.definitions@, v),
            !p(node@),
            kids.len() == node@.kids.len(),
            forall|j: int| 0 <= j < kids.len() ==> (#[trigger] kids@[j])@ == node@.kids[j],
            forall|j: int| 0 <= j < kids.len() ==> decreases_to!(*node => *#[trigger] kids@[j]),
            !ir::any_in(node@.kids.take(i as int), p),
        decreases kids.len() - i,
    {
        proof {
            ir::any_step(node@.kids, p, i as int);
        }
        if projected_local(kids[i], v, data) {
            proof {
                ir::any_prefix(node@.kids, p, i + 1);
            }
            return true;
        }
        i = i + 1;
    }
    assert(node@.kids.take(i as int) =~= node@.kids);
    false
}

/// Whether the code reads one of the first `k` variables of a list.
pub open spec fn reads_one(n: ir::Node, vars: Seq<u16>, k: int) -> bool
    decreases k,
{
    if k <= 0 {
        false
    } else {
        reads_one(n, vars, k - 1) || ir::read(n, vars[k - 1])
    }
}

fn reads_any(node: &Value, vars: &Vec<u16>) -> (found: bool)
    ensures
        found == reads_one(node@, vars@, vars.len() as int),
{
    let mut found: bool = false;
    let mut i: usize = 0;
    while i < vars.len()
        invariant
            i <= vars.len(),
            found == reads_one(node@, vars@, i as int),
        decreases vars.len() - i,
    {
        if node.reads_var(vars[i]) {
            found = true;
        }
        i = i + 1;
    }
    found
}

/// What is asked of the literals and exits of a callee: its buffer, the
/// parameter that receives the local, what views that parameter, and which
/// record it is.
pub struct Callee {
    pub defs: Seq<Definition>,
    pub vars: Function,
    pub stores: Stores,
    pub buf: u16,
    pub param: u16,
    pub viewers: Seq<u16>,
    pub record: u32,
    pub get_field: u32,
}

/// Whether the record has a vector field at offset `off`, among its first `k`
/// fields.
pub open spec fn vector_at(c: Callee, off: i32, k: int) -> bool
    decreases k,
{
    let def = c.defs[c.record as int];
    if k <= 0 {
        false
    } else {
        vector_at(c, off, k - 1) || (types::base(def.attributes@[k - 1].typedef@) is Vector
            && c.stores.position_of(def.known_type, def.attributes@[k - 1].name@) == off)
    }
}

/// Whether the code reads the parameter or what views it.
pub open spec fn reads_parameter(c: Callee, n: ir::Node) -> bool {
    reads_one(n, c.viewers, c.viewers.len() as int) || ir::read(n, c.param)
}

/// Whether the operand is variable `v` or a field of it.
pub open spec fn targets(c: Callee, n: ir::Node, v: u16) -> bool {
    let m = ir::unspan(n);
    ||| m.head == ir::Head::Var(v)
    ||| m.head == ir::Head::Call(c.get_field) && m.kids.len() > 0 && ir::unspan(m.kids[0]).head
        == ir::Head::Var(v)
}

/// The offset of the field of variable `v` that the operand names.
pub open spec fn field_off(c: Callee, n: ir::Node, v: u16) -> Option<i32> {
    let m = ir::unspan(n);
    if m.head == ir::Head::Call(c.get_field) && m.kids.len() == 3 && ir::unspan(m.kids[0]).head
        == ir::Head::Var(v) {
        match ir::unspan(m.kids[1]).head {
            ir::Head::Int(off) => Some(off),
            _ => None,
        }
    } else {
        None
    }
}

/// Whether a block's value is the buffer, as its last statement or by returning
/// it.
pub open spec fn yields(c: Callee, kids: Seq<ir::Node>) -> bool {
    kids.len() > 0 && {
        let last = ir::unspan(kids.last());
        ||| last.head == ir::Head::Var(c.buf)
        ||| last.head is Return && last.kids.len() > 0 && ir::unspan(last.kids[0]).head
            == ir::Head::Var(c.buf)
    }
}

/// Whether an exit answers the parameter, the buffer, or a literal that yields
/// the buffer.
pub open spec fn exit_ok(c: Callee, n: ir::Node) -> bool
    decreases n,
{
    if (n.head is Span || n.head is Return) && n.kids.len() > 0 {
        exit_ok(c, n.kids[0])
    } else {
        match n.head {
            ir::Head::Var(v) => v == c.param || v == c.buf,
            ir::Head::Block(name, _) => name == "Object"@ && yields(c, n.kids),
            _ => false,
        }
    }
}

/// Whether the value allocates the buffer.
pub open spec fn mints(c: Callee, n: ir::Node) -> bool {
    let m = ir::unspan(n);
    match m.head {
        ir::Head::Call(d) => d < c.defs.len() && c.defs[d as int].name@ == "OpDatabase"@
            && m.kids.len() > 0 && ir::unspan(m.kids[0]).head == ir::Head::Var(c.buf),
        _ => false,
    }
}

/// Whether one of the operands from `from` on reads the parameter.
pub open spec fn operands_read(c: Callee, s: Seq<ir::Node>, from: int) -> bool
    decreases s.len() - from,
{
    if from < 0 || from >= s.len() {
        false
    } else {
        reads_parameter(c, s[from]) || operands_read(c, s, from + 1)
    }
}

/// What one statement of a literal does: whether the buffer has been written
/// after it, or why the literal is not safe where buffer and parameter are one
/// record.
pub open spec fn literal_step(c: Callee, n: ir::Node, written: bool) -> Result<bool, Why> {
    let m = ir::unspan(n);
    match m.head {
        ir::Head::If => if m.kids.len() == 3 && ((mints(c, m.kids[2]) && ir::unspan(
            m.kids[1],
        ).head is Null) || (mints(c, m.kids[1]) && ir::unspan(m.kids[2]).head is Null)) {
            Ok(written)
        } else {
            Err(Why::OtherBranch)
        },
        ir::Head::Assign(target) => if c.vars.argument(target) {
            Err(Why::WritesArgument)
        } else if written && m.kids.len() > 0 && reads_parameter(c, m.kids[0]) {
            Err(Why::ReadAfterWrite)
        } else {
            Ok(written)
        },
        ir::Head::Call(d) => {
            let name = if d < c.defs.len() {
                c.defs[d as int].name@
            } else {
                Seq::empty()
            };
            if name == "OpDatabase"@ {
                Err(Why::UnguardedMint)
            } else if text::is_prefix("OpFree"@, name) || m.kids.len() == 0 {
                Ok(written)
            } else if targets(c, m.kids[0], c.buf) {
                if name == "OpSetInt4"@ && m.kids.len() > 1 && (ir::unspan(
                    m.kids[1],
                ).head matches ir::Head::Int(off) && vector_at(
                    c,
                    off,
                    c.defs[c.record as int].attributes.len() as int,
                )) {
                    Err(Why::ZeroingDefault)
                } else if name == "OpReplaceVector"@ && m.kids.len() == 3 && field_off(
                    c,
                    m.kids[0],
                    c.buf,
                ) is Some && field_off(c, m.kids[1], c.param) == field_off(c, m.kids[0], c.buf) {
                    Ok(true)
                } else if operands_read(c, m.kids, 1) {
                    Err(Why::WriteConsults)
                } else {
                    Ok(true)
                }
            } else if targets(c, m.kids[0], c.param) && !text::is_prefix("OpGet"@, name)
                && !text::is_prefix("OpConv"@, name) {
                Err(Why::WritesParameter)
            } else if written && operands_read(c, m.kids, 0) {
                Err(Why::ReadAfterWrite)
            } else {
                Ok(written)
            }
        },
        _ => Err(Why::UnreadStatement),
    }
}

/// The statements of a literal from `i` up to `end`.
pub open spec fn literal_from(
    c: Callee,
    s: Seq<ir::Node>,
    i: int,
    end: int,
    written: bool,
) -> Result<(), Why>
    decreases end - i,
{
    if i < 0 || i >= end {
        Ok(())
    } else {
        match literal_step(c, s[i], written) {
            Err(why) => Err(why),
            Ok(next) => literal_from(c, s, i + 1, end, next),
        }
    }
}

/// Whether a literal is safe where buffer and parameter are one record.
pub open spec fn literal_ok(c: Callee, s: Seq<ir::Node>) -> Result<(), Why> {
    if s.len() == 0 {
        Err(Why::EmptyLiteral)
    } else {
        literal_from(c, s, 0, s.len() - 1, false)
    }
}

/// The first literal of the code, in walking order, that yields the buffer and is
/// not safe.
pub open spec fn unsafe_literal(c: Callee, n: ir::Node) -> Option<Why>
    decreases n, 0int,
{
    match n.head {
        ir::Head::Block(name, _) if name == "Object"@ && yields(c, n.kids) && literal_ok(
            c,
            n.kids,
        ) is Err => Some(literal_ok(c, n.kids)->Err_0),
        _ => unsafe_literal_in(c, n.kids, 0),
    }
}

/// The first such literal in the nodes from `i` on.
pub open spec fn unsafe_literal_in(c: Callee, s: Seq<ir::Node>, i: int) -> Option<Why>
    decreases s, s.len() - i,
{
    if i < 0 || i >= s.len() {
        None
    } else {
        match unsafe_literal(c, s[i]) {
            Some(why) => Some(why),
            None => unsafe_literal_in(c, s, i + 1),
        }
    }
}

/// The returns that answer something else.
pub open spec fn bad_return(c: Callee) -> spec_fn(ir::Node) -> bool {
    |n: ir::Node| n.head is Return && n.kids.len() > 0 && !exit_ok(c, n.kids[0])
}

/// The callee's half: every exit answers the parameter or a literal built into
/// the buffer, and every such literal is safe.
pub open spec fn body_safe(c: Callee, code: ir::Node) -> Result<(), Why> {
    let body = ir::unspan(code);
    if !(body.head is Block) {
        Err(Why::BodyNotBlock)
    } else if ir::any(code, bad_return(c)) {
        Err(Why::ExitElsewhere)
    } else if body.kids.len() == 0 {
        Err(Why::EmptyBody)
    } else if !(ir::unspan(body.kids.last()).head is Return) && !exit_ok(c, body.kids.last()) {
        Err(Why::ExitElsewhere)
    } else {
        match unsafe_literal(c, code) {
            Some(why) => Err(why),
            None => Ok(()),
        }
    }
}

/// Whether definition `f` may be handed the record of its parameter `k` as its
/// buffer.
pub open spec fn callee_safe(
    data: &Data,
    stores: &Stores,
    f: u32,
    k: int,
    td: u32,
) -> Result<(), Why> {
    let def = data.definitions@[f as int];
    let buf = def.variables.var_named("__retbuf"@);
    let param = def.variables.var_named(def.attributes@[k].name@);
    if buf == u16::MAX || !def.variables.argument(buf) {
        Err(Why::BufferNotArgument)
    } else if param == u16::MAX || !def.variables.argument(param) {
        Err(Why::NoParameterVariable)
    } else {
        body_safe(
            Callee {
                defs: data.definitions@,
                vars: def.variables,
                stores: *stores,
                buf,
                param,
                viewers: def.variables.variables@[param as int].viewers@,
                record: td,
                get_field: data.named("OpGetField"@),
            },
            def.code@,
        )
    }
}

struct Cx<'a> {
    data: &'a Data,
    vars: &'a Function,
    stores: &'a Stores,
    buf: u16,
    param: u16,
    viewers: &'a Vec<u16>,
    record: u32,
    get_field: u32,
}

impl<'a> Cx<'a> {
    spec fn callee(&self) -> Callee {
        Callee {
            defs: self.data.definitions@,
            vars: *self.vars,
            stores: *self.stores,
            buf: self.buf,
            param: self.param,
            viewers: self.viewers@,
            record: self.record,
            get_field: self.get_field,
        }
    }

    fn reads_viewer(&self, node: &Value) -> (r: bool)
        ensures
            r == reads_parameter(self.callee(), node@),
    {
        reads_any(node, self.viewers) || node.reads_var(self.param)
    }

    fn targets(&self, node: &Value, v: u16) -> (r: bool)
        ensures
            r == targets(self.callee(), node@, v),
    {
        let m: &Value = node.unspan();
        proof {
            ir::shape(*m);
        }
        match m {
            Value::Var(x) => *x == v,
            Value::Call(d, args) => {
                proof {
                    ir::view_at(args@);
                }
                *d == self.get_field && args.len() > 0 && args[0].is_var(v)
            },
            _ => false,
        }
    }

    fn field_off(&self, node: &Value, v: u16) -> (off: Option<i32>)
        ensures
            off == field_off(self.callee(), node@, v),
    {
        let m: &Value = node.unspan();
        proof {
            ir::shape(*m);
        }
        match m {
            Value::Call(d, args) => {
                proof {
                    ir::view_at(args@);
                }
                if *d == self.get_field && args.len() == 3 && args[0].is_var(v) {
                    match args[1].unspan() {
                        Value::Int(off) => Some(*off),
                        _ => None,
                    }
                } else {
                    None
                }
            },
            _ => None,
        }
    }

    fn yields_buffer(&self, operators: &Vec<Value>) -> (r: bool)
        ensures
            r == yields(self.callee(), ir::views(operators@)),
    {
        proof {
            ir::view_at(operators@);
        }
        if operators.len() == 0 {
            return false;
        }
        let last: &Value = operators[operators.len() - 1].unspan();
        match last {
            Value::Var(v) => *v == self.buf,
            Value::Return(r) => {
                assert(last@.kids[0] == r@);
                r.is_var(self.buf)
            },
            _ => false,
        }
    }

    fn exit_ok(&self, node: &Value) -> (r: bool)
        ensures
            r == exit_ok(self.callee(), node@),
        decreases node,
    {
        proof {
            ir::shape(*node);
        }
        match node {
            Value::Span(_, inner) | Value::Return(inner) => {
                assert(node@.kids[0] == inner@);
                self.exit_ok(inner)
            },
            Value::Var(v) => *v == self.param || *v == self.buf,
            Value::Block(bl) => text::same(bl.name.as_str(), "Object") && self.yields_buffer(
                &bl.operators,
            ),
            _ => false,
        }
    }

    fn is_mint(&self, node: &Value) -> (r: bool)
        ensures
            r == mints(self.callee(), node@),
    {
        let m: &Value = node.unspan();
        proof {
            ir::shape(*m);
        }
        match m {
            Value::Call(d, args) => {
                proof {
                    ir::view_at(args@);
                }
                (*d as usize) < self.data.definitions.len() && text::same(
                    self.data.definitions[*d as usize].name.as_str(),
                    "OpDatabase",
                ) && args.len() > 0 && args[0].is_var(self.buf)
            },
            _ => false,
        }
    }

    fn vector_offset(&self, off: i32) -> (r: bool)
        requires
            self.record < self.data.definitions.len(),
        ensures
            r == vector_at(
                self.callee(),
                off,
                self.data.definitions@[self.record as int].attributes.len() as int,
            ),
    {
        let def: &Definition = self.data.def(self.record);
        let mut found: bool = false;
        let mut i: usize = 0;
        while i < def.attributes.len()
            invariant
                self.record < self.data.definitions.len(),
                *def == self.data.definitions@[self.record as int],
                i <= def.attributes.len(),
                found == vector_at(self.callee(), off, i as int),
            decreases def.attributes.len() - i,
        {
            let is_vector: bool = match def.attributes[i].typedef.base() {
                Type::Vector(_, _) => true,
                _ => false,
            };
            if is_vector && self.stores.position(
                def.known_type,
                def.attributes[i].name.as_str(),
            ) as i32 == off {
                found = true;
            }
            i = i + 1;
        }
        found
    }

    fn operands_read(&self, args: &Vec<Value>, from: usize) -> (r: bool)
        ensures
            r == operands_read(self.callee(), ir::views(args@), from as int),
    {
        proof {
            ir::view_at(args@);
        }
        let mut i: usize = from;
        while i < args.len()
            invariant
                from <= i,
                ir::views(args@).len() == args.len(),
                operands_read(self.callee(), ir::views(args@), from as int) == operands_read(
                    self.callee(),
                    ir::views(args@),
                    i as int,
                ),
            decreases args.len() - i,
        {
            assert(ir::views(args@)[i as int] == args@[i as int]@);
            if self.reads_viewer(&args[i]) {
                return true;
            }
            i = i + 1;
        }
        false
    }

    fn call_step(&self, d: u32, args: &Vec<Value>, written: bool) -> (r: Result<bool, Why>)
        requires
            self.record < self.data.definitions.len(),
        ensures
            r == literal_step(
                self.callee(),
                ir::Node { head: ir::Head::Call(d), kids: ir::views(args@) },
                written,
            ),
    {
        proof {
            ir::view_at(args@);
        }
        let name: &str = if (d as usize) < self.data.definitions.len() {
            self.data.definitions[d as usize].name.as_str()
        } else {
            ""
        };
        proof {
            reveal_strlit("");
            if d >= self.data.definitions.len() {
                assert(name@ =~= Seq::<char>::empty());
            }
        }
        if text::same(name, "OpDatabase") {
            return Err(Why::UnguardedMint);
        }
        if text::starts_with(name, "OpFree") || args.len() == 0 {
            return Ok(written);
        }
        if self.targets(&args[0], self.buf) {
            if text::same(name, "OpSetInt4") && args.len() > 1 {
                match args[1].unspan() {
                    Value::Int(off) => if self.vector_offset(*off) {
                        return Err(Why::ZeroingDefault);
                    },
                    _ => {},
                }
            }
            if text::same(name, "OpReplaceVector") && args.len() == 3 {
                let own: Option<i32> = self.field_off(&args[0], self.buf);
                let from: Option<i32> = self.field_off(&args[1], self.param);
                match (own, from) {
                    (Some(a), Some(b)) => if a == b {
                        return Ok(true);
                    },
                    _ => {},
                }
            }
            if self.operands_read(args, 1) {
                return Err(Why::WriteConsults);
            }
            Ok(true)
        } else {
            if self.targets(&args[0], self.param) && !text::starts_with(name, "OpGet")
                && !text::starts_with(name, "OpConv") {
                return Err(Why::WritesParameter);
            }
            if written && self.operands_read(args, 0) {
                return Err(Why::ReadAfterWrite);
            }
            Ok(written)
        }
    }

    fn object_step(&self, op: &Value, written: bool) -> (r: Result<bool, Why>)
        requires
            self.record < self.data.definitions.len(),
        ensures
            r == literal_step(self.callee(), op@, written),
    {
        let m: &Value = op.unspan();
        proof {
            ir::shape(*m);
            lemma_unspan_again(op@);
        }
        match m {
            Value::If(a, b, c) => {
                assert(m@.kids == seq![a@, b@, c@]);
                if (self.is_mint(c) && b.is_null()) || (self.is_mint(b) && c.is_null()) {
                    Ok(written)
                } else {
                    Err(Why::OtherBranch)
                }
            },
            Value::Assign(target, expr) => {
                assert(m@.kids[0] == expr@);
                if self.vars.is_argument(*target) {
                    return Err(Why::WritesArgument);
                }
                if written && self.reads_viewer(expr) {
                    return Err(Why::ReadAfterWrite);
                }
                Ok(written)
            },
            Value::Call(d, args) => self.call_step(*d, args, written),
            _ => Err(Why::UnreadStatement),
        }
    }

    fn object_ok(&self, operators: &Vec<Value>) -> (r: Result<(), Why>)
        requires
            self.record < self.data.definitions.len(),
        ensures
            r == literal_ok(self.callee(), ir::views(operators@)),
    {
        proof {
            ir::view_at(operators@);
        }
        if operators.len() == 0 {
            return Err(Why::EmptyLiteral);
        }
        let ghost s = ir::views(operators@);
        let end: usize = operators.len() - 1;
        let mut written: bool = false;
        let mut i: usize = 0;
        while i < end
            invariant
                i <= end,
                end == operators.len() - 1,
                s.len() == operators.len(),
                s == ir::views(operators@),
                self.record < self.data.definitions.len(),
                literal_from(self.callee(), s, 0, end as int, false) == literal_from(
                    self.callee(),
                    s,
                    i as int,
                    end as int,
                    written,
                ),
            decreases end - i,
        {
            assert(s[i as int] == operators@[i as int]@);
            match self.object_step(&operators[i], written) {
                Err(why) => {
                    return Err(why);
                },
                Ok(next) => {
                    written = next;
                },
            }
            i = i + 1;
        }
        Ok(())
    }

    fn bad_literal(&self, node: &Value) -> (r: Option<Why>)
        requires
            self.record < self.data.definitions.len(),
        ensures
            r == unsafe_literal(self.callee(), node@),
        decreases node,
    {
        proof {
            ir::shape(*node);
        }
        match node {
            Value::Block(bl) => if text::same(bl.name.as_str(), "Object") && self.yields_buffer(
                &bl.operators,
            ) {
                match self.object_ok(&bl.operators) {
                    Err(why) => {
                        return Some(why);
                    },
                    Ok(_) => {},
                }
            },
            _ => {},
        }
        let kids: Vec<&Value> = node.children();
        let mut i: usize = 0;
        while i < kids.len()
            invariant
                i <= kids.len(),
                self.record < self.data.definitions.len(),
                kids.len() == node@.kids.len(),
                forall|j: int| 0 <= j < kids.len() ==> (#[trigger] kids@[j])@ == node@.kids[j],
                forall|j: int| 0 <= j < kids.len() ==> decreases_to!(*node => *#[trigger] kids@[j]),
                unsafe_literal(self.callee(), node@) == unsafe_literal_in(
                    self.callee(),
                    node@.kids,
                    i as int,
                ),
            decreases kids.len() - i,
        {
            match self.bad_literal(kids[i]) {
                Some(why) => {
                    return Some(why);
                },
                None => {},
            }
            i = i + 1;
        }
        None
    }

    fn has_bad_return(&self, node: &Value) -> (found: bool)
        ensures
            found == ir::any(node@, bad_return(self.callee())),
        decreases node,
    {
        match node {
            Value::Return(inner) => {
                assert(node@.kids[0] == inner@);
                if !self.exit_ok(inner) {
                    return true;
                }
            },
            _ => {},
        }
        let kids: Vec<&Value> = node.children();
        let ghost p = bad_return(self.callee());
        let mut i: usize = 0;
        while i < kids.len()
            invariant
                i <= kids.len(),
                p == bad_return(self.callee()),
                !p(node@),
                kids.len() == node@.kids.len(),
                forall|j: int| 0 <= j < kids.len() ==> (#[trigger] kids@[j])@ == node@.kids[j],
                forall|j: int| 0 <= j < kids.len() ==> decreases_to!(*node => *#[trigger] kids@[j]),
                !ir::any_in(node@.kids.take(i as int), p),
            decreases kids.len() - i,
        {
            proof {
                ir::any_step(node@.kids, p, i as int);
            }
            if self.has_bad_return(kids[i]) {
                proof {
                    ir::any_prefix(node@.kids, p, i + 1);
                }
                return true;
            }
            i = i + 1;
        }
        assert(node@.kids.take(i as int) =~= node@.kids);
        false
    }

    fn body_safe(&self, code: &Value) -> (r: Result<(), Why>)
        requires
            self.record < self.data.definitions.len(),
        ensures
            r == body_safe(self.callee(), code@),
    {
        let body: &Value = code.unspan();
        proof {
            ir::shape(*body);
        }
        match body {
            Value::Block(bl) => {
                proof {
                    ir::view_at(bl.operators@);
                }
                if self.has_bad_return(code) {
                    return Err(Why::ExitElsewhere);
                }
                let n: usize = bl.operators.len();
                if n == 0 {
                    return Err(Why::EmptyBody);
                }
                let last: &Value = &bl.operators[n - 1];
                let returns: bool = match last.unspan() {
                    Value::Return(_) => true,
                    _ => false,
                };
                if !returns && !self.exit_ok(last) {
                    return Err(Why::ExitElsewhere);
                }
                match self.bad_literal(code) {
                    Some(why) => Err(why),
                    None => Ok(()),
                }
            },
            _ => Err(Why::BodyNotBlock),
        }
    }
}

proof fn lemma_unspan_again(n: ir::Node)
    ensures
        ir::unspan(ir::unspan(n)) == ir::unspan(n),
    decreases n,
{
    if n.head is Span && n.kids.len() > 0 {
        lemma_unspan_again(n.kids[0]);
    }
}

/// The argument that hands in the local: the only one that is it, with no other
/// argument that reaches its storage.
pub open spec fn handed_at(
    args: Seq<ir::Node>,
    i: int,
    buf_idx: int,
    local: u16,
    viewers: Seq<u16>,
    found: Option<int>,
) -> Result<Option<int>, Why>
    decreases args.len() - i,
{
    if i < 0 || i >= args.len() {
        Ok(found)
    } else if i == buf_idx {
        handed_at(args, i + 1, buf_idx, local, viewers, found)
    } else if ir::unspan(args[i]).head == ir::Head::Var(local) {
        if found is Some {
            Err(Why::HandedInTwice)
        } else {
            handed_at(args, i + 1, buf_idx, local, viewers, Some(i))
        }
    } else if ir::read(args[i], local) || reads_one(args[i], viewers, viewers.len() as int) {
        Err(Why::ReachesStore)
    } else {
        handed_at(args, i + 1, buf_idx, local, viewers, found)
    }
}

/// Whether `local = f(args)` in definition `d_nr` hands in the local as the
/// callee's buffer: the position of the buffer argument, or why not.  `derived`
/// are the locals that have a derived binding.
pub open spec fn admission(
    data: &Data,
    stores: &Stores,
    d_nr: u32,
    derived: Seq<u16>,
    code: ir::Node,
    local: u16,
    f: u32,
    args: Seq<ir::Node>,
) -> Result<int, Why> {
    let vars = data.definitions@[d_nr as int].variables;
    if f == d_nr {
        Err(Why::Recursive)
    } else if f >= data.definitions.len() || data.definitions@[f as int].def_type
        != DefType::Function {
        Err(Why::NotAFunction)
    } else {
        let callee = data.definitions@[f as int];
        if callee.code@.head is Null || callee.rust_body || callee.native_body {
            Err(Why::NoBody)
        } else if text::is_part("__lambda"@, callee.name@) {
            Err(Why::Lambda)
        } else {
            match callee.return_buffer {
                None => Err(Why::NoReturnBuffer),
                Some(at) => if at >= callee.attributes.len() || callee.attributes@[at as int].name@
                    != "__retbuf"@ {
                    Err(Why::PromotedBuffer)
                } else if args.len() <= at {
                    Err(Why::NoBufferArgument)
                } else if !(ir::unspan(args[at as int]).head matches ir::Head::Var(buf)
                    && generated(vars, buf) && place_result::named_with(vars, buf, "__ref_"@)) {
                    Err(Why::NotWorkRef)
                } else if local >= vars.variables.len() || vars.argument(local) || generated(
                    vars,
                    local,
                ) {
                    Err(Why::NotPlainLocal)
                } else {
                    match vars.variables@[local as int].tp@ {
                        types::Ty::Reference(td, deps) => if !derived.contains(local) {
                            Err(Why::NoDerivedBinding)
                        } else if ir::any(code, projecting(data.definitions@, local)) {
                            Err(Why::ViewsAPlace)
                        } else if deps.vars.len() > 0 {
                            Err(Why::ViewsAnother)
                        } else if vars.variables@[local as int].view_elided {
                            Err(Why::ViewElided)
                        } else if vars.var_named("__own_"@ + vars.variables@[local as int].name@)
                            != u16::MAX {
                            Err(Why::Witnessed)
                        } else if types::heap_def(callee.attributes@[at as int].typedef@) != Some(
                            td,
                        ) {
                            Err(Why::OtherBufferType)
                        } else {
                            match handed_at(
                                args,
                                0,
                                at as int,
                                local,
                                vars.variables@[local as int].viewers@,
                                None,
                            ) {
                                Err(why) => Err(why),
                                Ok(None) => Err(Why::NotAnArgument),
                                Ok(Some(k)) => if k >= callee.attributes.len()
                                    || callee.attributes@[k].hidden
                                    || callee.attributes@[k].typedef@ is RefVar {
                                    Err(Why::NotByValue)
                                } else if types::heap_def(callee.attributes@[k].typedef@) != Some(
                                    td,
                                ) || td >= data.definitions.len() {
                                    Err(Why::OtherParameterType)
                                } else {
                                    match callee_safe(data, stores, f, k, td) {
                                        Err(why) => Err(why),
                                        Ok(_) => Ok(at as int),
                                    }
                                },
                            }
                        },
                        _ => Err(Why::NotDenseRecord),
                    }
                },
            }
        }
    }
}

/// Whether variable `v` was made by the compiler.
pub open spec fn generated(vars: Function, v: u16) -> bool {
    v < vars.variables.len() && vars.variables@[v as int].compiler_generated
}

fn is_generated(vars: &Function, v: u16) -> (r: bool)
    ensures
        r == generated(*vars, v),
{
    (v as usize) < vars.variables.len() && vars.variables[v as usize].compiler_generated
}

fn safe_callee(data: &Data, stores: &Stores, f: u32, k: usize, td: u32) -> (r: Result<(), Why>)
    requires
        place_result::numbered(data),
        f < data.definitions.len(),
        k < data.definitions@[f as int].attributes.len(),
        td < data.definitions.len(),
    ensures
        r == callee_safe(data, stores, f, k as int, td),
{
    let def: &Definition = data.def(f);
    let vars: &Function = &def.variables;
    let buf: u16 = vars.var("__retbuf");
    if buf == u16::MAX || !vars.is_argument(buf) {
        return Err(Why::BufferNotArgument);
    }
    let param: u16 = vars.var(def.attributes[k].name.as_str());
    if param == u16::MAX || !vars.is_argument(param) {
        return Err(Why::NoParameterVariable);
    }
    let cx: Cx = Cx {
        data,
        vars,
        stores,
        buf,
        param,
        viewers: &vars.variables[param as usize].viewers,
        record: td,
        get_field: data.def_nr("OpGetField"),
    };
    cx.body_safe(&def.code)
}

fn handed_in(
    args: &Vec<Value>,
    buf_idx: usize,
    local: u16,
    viewers: &Vec<u16>,
) -> (r: Result<Option<usize>, Why>)
    ensures
        match (r, handed_at(ir::views(args@), 0, buf_idx as int, local, viewers@, None)) {
            (Ok(Some(a)), Ok(Some(b))) => a == b && a < args.len(),
            (Ok(None), Ok(None)) => true,
            (Err(x), Err(y)) => x == y,
            _ => false,
        },
{
    let mut found: Option<usize> = None;
    let ghost mut seen: Option<int> = None;
    let mut i: usize = 0;
    while i < args.len()
        invariant
            i <= args.len(),
            found matches Some(a) ==> a < args.len() && seen == Some(a as int),
            found is None ==> seen is None,
            handed_at(ir::views(args@), 0, buf_idx as int, local, viewers@, None) == handed_at(
                ir::views(args@),
                i as int,
                buf_idx as int,
                local,
                viewers@,
                seen,
            ),
        decreases args.len() - i,
    {
        assert(ir::views(args@)[i as int] == args@[i as int]@);
        if i != buf_idx {
            if args[i].is_var(local) {
                if found.is_some() {
                    return Err(Why::HandedInTwice);
                }
                found = Some(i);
                proof {
                    seen = Some(i as int);
                }
            } else if args[i].reads_var(local) || reads_any(&args[i], viewers) {
                return Err(Why::ReachesStore);
            }
        }
        i = i + 1;
    }
    Ok(found)
}

fn admit_rebind(
    data: &Data,
    stores: &Stores,
    d_nr: u32,
    derived: &Vec<u16>,
    code: &Value,
    local: u16,
    f: u32,
    args: &Vec<Value>,
) -> (r: Result<usize, Why>)
    requires
        place_result::numbered(data),
        d_nr < data.definitions.len(),
    ensures
        match (
            r,
            admission(data, stores, d_nr, derived@, code@, local, f, ir::views(args@)),
        ) {
            (Ok(a), Ok(b)) => a == b && a < args.len(),
            (Err(x), Err(y)) => x == y,
            _ => false,
        },
{
    if f == d_nr {
        return Err(Why::Recursive);
    }
    if f as usize >= data.definitions.len() {
        return Err(Why::NotAFunction);
    }
    let callee: &Definition = data.def(f);
    if callee.def_type != DefType::Function {
        return Err(Why::NotAFunction);
    }
    let no_code: bool = match &callee.code {
        Value::Null => true,
        _ => false,
    };
    if no_code || callee.rust_body || callee.native_body {
        return Err(Why::NoBody);
    }
    if text::holds(callee.name.as_str(), "__lambda") {
        return Err(Why::Lambda);
    }
    let at: usize = match callee.return_buffer {
        Some(at) => at,
        None => {
            return Err(Why::NoReturnBuffer);
        },
    };
    if at >= callee.attributes.len() || !text::same(
        callee.attributes[at].name.as_str(),
        "__retbuf",
    ) {
        return Err(Why::PromotedBuffer);
    }
    if args.len() <= at {
        return Err(Why::NoBufferArgument);
    }
    proof {
        ir::view_at(args@);
    }
    let vars: &Function = &data.definitions[d_nr as usize].variables;
    match args[at].unspan() {
        Value::Var(buf) => {
            if !is_generated(vars, *buf) || (*buf as usize) >= vars.variables.len()
                || !text::starts_with(vars.name(*buf), "__ref_") {
                return Err(Why::NotWorkRef);
            }
        },
        _ => {
            return Err(Why::NotWorkRef);
        },
    }
    if local as usize >= vars.variables.len() || vars.is_argument(local) || is_generated(
        vars,
        local,
    ) {
        return Err(Why::NotPlainLocal);
    }
    let td: u32 = match vars.tp(local) {
        Type::Reference(td, deps) => {
            if !types::has_var(derived, local) {
                return Err(Why::NoDerivedBinding);
            }
            if projected_local(code, local, data) {
                return Err(Why::ViewsAPlace);
            }
            if deps.vars.len() > 0 {
                return Err(Why::ViewsAnother);
            }
            *td
        },
        _ => {
            return Err(Why::NotDenseRecord);
        },
    };
    if vars.variables[local as usize].view_elided {
        return Err(Why::ViewElided);
    }
    let witness: String = text::join("__own_", vars.name(local));
    if vars.var(witness.as_str()) != u16::MAX {
        return Err(Why::Witnessed);
    }
    let buf_record: Option<u32> = callee.attributes[at].typedef.heap_def_nr();
    if !(buf_record.is_some() && buf_record.unwrap() == td) {
        return Err(Why::OtherBufferType);
    }
    let k: usize = match handed_in(args, at, local, &vars.variables[local as usize].viewers) {
        Ok(Some(k)) => k,
        Ok(None) => {
            return Err(Why::NotAnArgument);
        },
        Err(why) => {
            return Err(why);
        },
    };
    if k >= callee.attributes.len() || callee.attributes[k].hidden {
        return Err(Why::NotByValue);
    }
    match &callee.attributes[k].typedef {
        Type::RefVar(_) => {
            return Err(Why::NotByValue);
        },
        _ => {},
    }
    let own_record: Option<u32> = callee.attributes[k].typedef.heap_def_nr();
    if !(own_record.is_some() && own_record.unwrap() == td) || td as usize
        >= data.definitions.len() {
        return Err(Why::OtherParameterType);
    }
    match safe_callee(data, stores, f, k, td) {
        Err(why) => Err(why),
        Ok(_) => Ok(at),
    }
}

/// The value with argument `b` of the call under its source positions replaced
/// by variable `x`.
pub open spec fn with_arg(n: ir::Node, b: int, x: u16) -> ir::Node
    decreases n,
{
    if n.head is Span && n.kids.len() > 0 {
        ir::Node { head: n.head, kids: seq![with_arg(n.kids[0], b, x)] }
    } else {
        ir::Node { head: n.head, kids: n.kids.update(b, ir::leaf(ir::Head::Var(x))) }
    }
}

/// What the whole pass reads.
pub struct Facts {
    pub data: Data,
    pub stores: Stores,
    pub d_nr: u32,
    pub derived: Seq<u16>,
    pub code: ir::Node,
}

/// The code after the pass: every assignment of an admitted call hands the
/// assigned local in as the buffer.
pub open spec fn visited(e: Facts, n: ir::Node) -> ir::Node
    decreases n, 0int,
{
    let kids = visited_in(e, n.kids, n.kids.len() as int);
    match n.head {
        ir::Head::Assign(x) => if n.kids.len() == 1 {
            let call = ir::unspan(n.kids[0]);
            match call.head {
                ir::Head::Call(f) => match admission(
                    &e.data,
                    &e.stores,
                    e.d_nr,
                    e.derived,
                    e.code,
                    x,
                    f,
                    call.kids,
                ) {
                    Ok(b) => ir::Node { head: n.head, kids: seq![with_arg(kids[0], b, x)] },
                    Err(_) => ir::Node { head: n.head, kids },
                },
                _ => ir::Node { head: n.head, kids },
            }
        } else {
            ir::Node { head: n.head, kids }
        },
        _ => ir::Node { head: n.head, kids },
    }
}

/// The first `k` nodes after the pass.
pub open spec fn visited_in(e: Facts, s: Seq<ir::Node>, k: int) -> Seq<ir::Node>
    decreases s, k,
{
    if k <= 0 || k > s.len() {
        Seq::empty()
    } else {
        visited_in(e, s, k - 1).push(visited(e, s[k - 1]))
    }
}

fn set_arg(node: Value, b: usize, x: u16) -> (out: Value)
    requires
        ir::unspan(node@).head is Call,
        b < ir::unspan(node@).kids.len(),
    ensures
        out@ == with_arg(node@, b as int, x),
    decreases node,
{
    proof {
        ir::shape(node);
    }
    match node {
        Value::Span(pos, inner) => {
            assert(node@.kids[0] == inner@);
            Value::Span(pos, Box::new(set_arg(*inner, b, x)))
        },
        Value::Call(d, args) => {
            let mut args = args;
            let ghost was = args@;
            args[b] = Value::Var(x);
            assert(ir::views(args@) =~= ir::views(was).update(b as int, ir::leaf(ir::Head::Var(x))));
            let out: Value = Value::Call(d, args);
            proof {
                ir::shape(out);
            }
            out
        },
        _ => node,
    }
}

fn visit(
    node: &Value,
    data: &Data,
    stores: &Stores,
    d_nr: u32,
    derived: &Vec<u16>,
    code: &Value,
) -> (out: Value)
    requires
        place_result::numbered(data),
        d_nr < data.definitions.len(),
    ensures
        out@ == visited(
            Facts { data: *data, stores: *stores, d_nr, derived: derived@, code: code@ },
            node@,
        ),
    decreases node,
{
    let ghost e = Facts { data: *data, stores: *stores, d_nr, derived: derived@, code: code@ };
    let kids: Vec<&Value> = node.children();
    let mut out: Vec<Value> = Vec::new();
    let mut i: usize = 0;
    while i < kids.len()
        invariant
            place_result::numbered(data),
            d_nr < data.definitions.len(),
            e == (Facts { data: *data, stores: *stores, d_nr, derived: derived@, code: code@ }),
            i <= kids.len(),
            out.len() == i,
            kids.len() == node@.kids.len(),
            forall|j: int| 0 <= j < kids.len() ==> (#[trigger] kids@[j])@ == node@.kids[j],
            forall|j: int| 0 <= j < kids.len() ==> decreases_to!(*node => *#[trigger] kids@[j]),
            ir::views(out@) == visited_in(e, node@.kids, i as int),
        decreases kids.len() - i,
    {
        let ghost was = ir::views(out@);
        let now: Value = visit(kids[i], data, stores, d_nr, derived, code);
        let ghost n = now@;
        out.push(now);
        assert(ir::views(out@) =~= was.push(n));
        i = i + 1;
    }
    let ghost all = visited_in(e, node@.kids, node@.kids.len() as int);
    match node {
        Value::Assign(x, val) => {
            assert(node@.kids =~= seq![val@]);
            let call: &Value = val.unspan();
            proof {
                ir::shape(*call);
            }
            match call {
                Value::Call(f, args) => {
                    match admit_rebind(data, stores, d_nr, derived, code, *x, *f, args) {
                        Ok(b) => {
                            let ghost first = out@[0]@;
                            proof {
                                assert(ir::views(out@)[0] == first);
                                lemma_visited_call(e, val@);
                                reveal_with_fuel(visited_in, 2);
                                assert(all[0] == visited(e, val@));
                            }
                            let value: Value = out.pop().unwrap();
                            return Value::Assign(*x, Box::new(set_arg(value, b, *x)));
                        },
                        Err(_) => {},
                    }
                },
                _ => {},
            }
        },
        _ => {},
    }
    node.rebuild(out)
}

proof fn lemma_visited_len(e: Facts, s: Seq<ir::Node>, k: int)
    requires
        0 <= k <= s.len(),
    ensures
        visited_in(e, s, k).len() == k,
        forall|i: int| 0 <= i < k ==> #[trigger] visited_in(e, s, k)[i] == visited(e, s[i]),
    decreases k,
{
    if k > 0 {
        lemma_visited_len(e, s, k - 1);
    }
}

/// Visiting keeps a call a call, under the same source positions and with as many
/// operands.
proof fn lemma_visited_call(e: Facts, n: ir::Node)
    requires
        ir::unspan(n).head is Call,
    ensures
        ir::unspan(visited(e, n)).head == ir::unspan(n).head,
        ir::unspan(visited(e, n)).kids.len() == ir::unspan(n).kids.len(),
    decreases n,
{
    lemma_visited_len(e, n.kids, n.kids.len() as int);
    if n.head is Span && n.kids.len() > 0 {
        lemma_visited_call(e, n.kids[0]);
        assert(visited(e, n).kids[0] == visited(e, n.kids[0]));
    }
}

/// Rewrite every admitted rebind of function `d_nr`; nothing when the rewrite is
/// switched off or the definition is no function.
pub fn rewrite(data: &mut Data, database: &Stores, d_nr: u32, derived: &Vec<u16>, enabled: bool)
    requires
        place_result::numbered(&*old(data)),
        d_nr < old(data).definitions.len(),
    ensures
        final(data).definitions.len() == old(data).definitions.len(),
        forall|d: int|
            0 <= d < old(data).definitions.len() && d != d_nr
                ==> #[trigger] final(data).definitions@[d] == old(data).definitions@[d],
        place_result::same_but_code(
            final(data).definitions@[d_nr as int],
            old(data).definitions@[d_nr as int],
        ),
        final(data).definitions@[d_nr as int].code@ == if enabled && old(
            data,
        ).definitions@[d_nr as int].def_type == DefType::Function {
            visited(
                Facts {
                    data: *old(data),
                    stores: *database,
                    d_nr,
                    derived: derived@,
                    code: old(data).definitions@[d_nr as int].code@,
                },
                old(data).definitions@[d_nr as int].code@,
            )
        } else {
            old(data).definitions@[d_nr as int].code@
        },
{
    if !enabled || data.definitions[d_nr as usize].def_type != DefType::Function {
        return;
    }
    let code: Value = visit(
        &data.definitions[d_nr as usize].code,
        data,
        database,
        d_nr,
        derived,
        &data.definitions[d_nr as usize].code,
    );
    data.definitions[d_nr as usize].code = code;
}

/// Whether two bodies are alike but for variables that stand for others.
pub open spec fn alike(a: ir::Node, b: ir::Node) -> bool
    decreases a, 0int,
{
    if ir::unspan(a).head is Var && b.head is Var && b.kids.len() == 0 {
        true
    } else if a.head is Span && a.kids.len() > 0 {
        b.head == a.head && b.kids.len() > 0 && alike(a.kids[0], b.kids[0])
    } else {
        b.head == a.head && b.kids.len() == a.kids.len() && all_alike(
            a.kids,
            b.kids,
            a.kids.len() as int,
        )
    }
}

/// Whether the first `k` nodes of two lists are alike.
pub open spec fn all_alike(a: Seq<ir::Node>, b: Seq<ir::Node>, k: int) -> bool
    decreases a, k,
{
    if k <= 0 || k > a.len() {
        true
    } else {
        all_alike(a, b, k - 1) && alike(a[k - 1], b[k - 1])
    }
}

proof fn alike_at(a: Seq<ir::Node>, b: Seq<ir::Node>, k: int, i: int)
    requires
        all_alike(a, b, k),
        0 <= i < k <= a.len(),
    ensures
        alike(a[i], b[i]),
    decreases k,
{
    if i < k - 1 {
        alike_at(a, b, k - 1, i);
    }
}

proof fn alike_but_one(
    a: Seq<ir::Node>,
    b: Seq<ir::Node>,
    c: Seq<ir::Node>,
    at: int,
    k: int,
)
    requires
        all_alike(a, b, a.len() as int),
        a.len() == b.len() == c.len(),
        0 <= k <= a.len(),
        0 <= at < a.len(),
        alike(a[at], c[at]),
        forall|i: int| 0 <= i < a.len() && i != at ==> c[i] == #[trigger] b[i],
    ensures
        all_alike(a, c, k),
    decreases k,
{
    if k > 0 {
        alike_but_one(a, b, c, at, k - 1);
        if k - 1 != at {
            alike_at(a, b, a.len() as int, k - 1);
            assert(c[k - 1] == b[k - 1]);
        }
    }
}

proof fn argument_alike(a: ir::Node, c: ir::Node, b: int, x: u16)
    requires
        alike(a, c),
        ir::unspan(a).head is Call,
        0 <= b < ir::unspan(a).kids.len(),
        ir::unspan(ir::unspan(a).kids[b]).head is Var,
    ensures
        alike(a, with_arg(c, b, x)),
    decreases a,
{
    if a.head is Span && a.kids.len() > 0 {
        argument_alike(a.kids[0], c.kids[0], b, x);
    } else {
        let now = c.kids.update(b, ir::leaf(ir::Head::Var(x)));
        alike_but_one(a.kids, c.kids, now, b, a.kids.len() as int);
    }
}

/// The pass changes nothing but which variable a call is handed for its buffer.
pub proof fn only_handed_variables_change(e: Facts, n: ir::Node)
    ensures
        alike(n, visited(e, n)),
    decreases n, 0int,
{
    let kids = visited_in(e, n.kids, n.kids.len() as int);
    all_stay_alike(e, n.kids, n.kids.len() as int);
    if n.kids.len() > 0 {
        alike_at(n.kids, kids, n.kids.len() as int, 0);
    }
    match n.head {
        ir::Head::Assign(x) => if n.kids.len() == 1 {
            let call = ir::unspan(n.kids[0]);
            match call.head {
                ir::Head::Call(f) => match admission(
                    &e.data,
                    &e.stores,
                    e.d_nr,
                    e.derived,
                    e.code,
                    x,
                    f,
                    call.kids,
                ) {
                    Ok(b) => {
                        argument_alike(n.kids[0], kids[0], b, x);
                        let now = seq![with_arg(kids[0], b, x)];
                        reveal_with_fuel(all_alike, 2);
                        assert(all_alike(n.kids, now, 1));
                    },
                    Err(_) => {},
                },
                _ => {},
            }
        },
        _ => {},
    }
}

proof fn all_stay_alike(e: Facts, s: Seq<ir::Node>, k: int)
    requires
        0 <= k <= s.len(),
    ensures
        visited_in(e, s, k).len() == k,
        all_alike(s, visited_in(e, s, k), k),
    decreases s, k,
{
    if k > 0 {
        all_stay_alike(e, s, k - 1);
        only_handed_variables_change(e, s[k - 1]);
        let before = visited_in(e, s, k - 1);
        let now = visited_in(e, s, k);
        longer_alike(s, before, now, k - 1);
    }
}

proof fn longer_alike(a: Seq<ir::Node>, b: Seq<ir::Node>, c: Seq<ir::Node>, k: int)
    requires
        all_alike(a, b, k),
        0 <= k <= b.len(),
        k <= c.len(),
        forall|i: int| 0 <= i < k ==> #[trigger] c[i] == b[i],
    ensures
        all_alike(a, c, k),
    decreases k,
{
    if k > 0 && k <= a.len() {
        longer_alike(a, b, c, k - 1);
        assert(c[k - 1] == b[k - 1]);
    }
}

} // verus!
