//! Vector locals that never leave their frame, supplied by the caller.
//!
//! A local `v: vector<..> = []` of scalars costs a store on every call.  Where
//! every mention of it, and of the locals bound as copies of it, is an operand of
//! an operation that reads or writes the vector in place, the local becomes a
//! hidden parameter that each call site supplies, and the declaration becomes the
//! place where it is cleared.

use crate::data::{self, Attribute, Data, DefType, Definition, Function, Variable, WrapperOperand};
use crate::ir::{self, Block, Value};
use crate::text;
use crate::types::{self, Deps, Type};
use vstd::prelude::*;

verus! {

/// The operators that a declaration and the clearing of a vector are spelled
/// with.
#[derive(Clone, Copy, Debug, PartialEq, Eq, Structural)]
pub struct Ops {
    pub database: u32,
    pub get_field: u32,
    pub set_int4: u32,
    pub clear: u32,
    pub ref_is_null: u32,
    pub free_if_distinct: u32,
    pub put_ref: u32,
}

/// Why a local keeps its store.
#[derive(Clone, Copy, Debug, PartialEq, Eq, Structural)]
pub enum Why {
    NoBody,
    NotDeclaredOnce,
    AssignedTwice,
    BackingNamedElsewhere,
    HandedToCall,
    OutsideOperator,
    ElementPlace,
    CopiedIntoField,
    AssignedAgain,
    CopiedIntoParameter,
    CopiedIntoManyAssigned,
    BoundByLoop,
    InTuple,
    CalledAsFunction,
    Captured,
    ReadAsFunction,
}

/// Why a definition takes no work buffer at all.
#[derive(Clone, Copy, Debug, PartialEq, Eq, Structural)]
pub enum Decline {
    NotAFunction,
    NativeBody,
    GenericInstance,
    Synthetic,
    EntryPoint,
    Lambda,
    AddressTaken,
    NoBody,
    SuspendsOrForks,
}

/// Where a node stands: operand `i` of a call of definition `d`, or anywhere
/// else.
#[derive(Clone, Copy, Debug, PartialEq, Eq, Structural)]
pub enum Pos {
    Other,
    Arg { d: u32, i: usize },
}

/// The name of definition `d`; empty where there is none.
pub open spec fn name_of(defs: Seq<Definition>, d: u32) -> Seq<char> {
    if d < defs.len() {
        defs[d as int].name@
    } else {
        ""@
    }
}

fn def_name(data: &Data, d: u32) -> (name: &str)
    ensures
        name@ == name_of(data.definitions@, d),
{
    if (d as usize) < data.definitions.len() {
        data.definitions[d as usize].name.as_str()
    } else {
        ""
    }
}

impl Ops {
    pub open spec fn of(data: &Data) -> Ops {
        Ops {
            database: data.named("OpDatabase"@),
            get_field: data.named("OpGetField"@),
            set_int4: data.named("OpSetInt4"@),
            clear: data.named("t_6vector_clear"@),
            ref_is_null: data.named("OpRefIsNull"@),
            free_if_distinct: data.named("OpFreeRefIfDistinct"@),
            put_ref: data.named("OpPutRef"@),
        }
    }

    /// Look the operators up by name.
    pub fn new(data: &Data) -> (ops: Ops)
        requires
            data.definitions.len() <= u32::MAX,
        ensures
            ops == Ops::of(data),
    {
        Ops {
            database: data.def_nr("OpDatabase"),
            get_field: data.def_nr("OpGetField"),
            set_int4: data.def_nr("OpSetInt4"),
            clear: data.def_nr("t_6vector_clear"),
            ref_is_null: data.def_nr("OpRefIsNull"),
            free_if_distinct: data.def_nr("OpFreeRefIfDistinct"),
            put_ref: data.def_nr("OpPutRef"),
        }
    }
}

/// An operator that reads or writes the vector of its first operand in place, or
/// yields the place of an element of it.
pub open spec fn in_place(name: Seq<char>) -> bool {
    ||| text::is_prefix("OpPush"@, name)
    ||| name == "OpPreAllocVector"@
    ||| name == "OpReserveVector"@
    ||| name == "OpLengthVector"@
    ||| name == "OpSizeVector"@
    ||| name == "OpVectorIsNull"@
    ||| name == "OpClearVector"@
    ||| name == "OpRemoveVector"@
    ||| name == "OpKeepVectorRange"@
    ||| name == "OpAppendTextBytes"@
    ||| name == "OpAppendVector"@
    ||| name == "OpReplaceVector"@
    ||| element_place(name)
}

fn in_place_at_0(name: &str) -> (r: bool)
    ensures
        r == in_place(name@),
{
    text::starts_with(name, "OpPush") || text::same(name, "OpPreAllocVector") || text::same(
        name,
        "OpReserveVector",
    ) || text::same(name, "OpLengthVector") || text::same(name, "OpSizeVector") || text::same(
        name,
        "OpVectorIsNull",
    ) || text::same(name, "OpClearVector") || text::same(name, "OpRemoveVector") || text::same(
        name,
        "OpKeepVectorRange",
    ) || text::same(name, "OpAppendTextBytes") || text::same(name, "OpAppendVector") || text::same(
        name,
        "OpReplaceVector",
    ) || is_element_place(name)
}

/// An operator that copies the elements of its second operand.
pub open spec fn copies_second(name: Seq<char>) -> bool {
    name == "OpAppendVector"@ || name == "OpReplaceVector"@
}

fn copied_from_at_1(name: &str) -> (r: bool)
    ensures
        r == copies_second(name@),
{
    text::same(name, "OpAppendVector") || text::same(name, "OpReplaceVector")
}

/// An operator that answers a place inside the vector.
pub open spec fn element_place(name: Seq<char>) -> bool {
    ||| name == "OpGetVector"@
    ||| name == "OpGetVectorNullable"@
    ||| name == "OpInsertVector"@
    ||| name == "OpVectorRef"@
    ||| name == "OpVectorRefNullable"@
}

fn is_element_place(name: &str) -> (r: bool)
    ensures
        r == element_place(name@),
{
    text::same(name, "OpGetVector") || text::same(name, "OpGetVectorNullable") || text::same(
        name,
        "OpInsertVector",
    ) || text::same(name, "OpVectorRef") || text::same(name, "OpVectorRefNullable")
}

/// A getter or setter of a scalar at a place: the place is used up, never kept.
pub open spec fn scalar_accessor(name: Seq<char>) -> bool {
    ||| name == "OpGetInt"@
    ||| name == "OpGetInt4"@
    ||| name == "OpGetInt4Raw"@
    ||| name == "OpGetInt4Full"@
    ||| name == "OpGetCharacter"@
    ||| name == "OpGetSingle"@
    ||| name == "OpGetFloat"@
    ||| name == "OpGetByte"@
    ||| name == "OpGetByteNullable"@
    ||| name == "OpGetEnum"@
    ||| name == "OpGetBoolean"@
    ||| name == "OpGetShort"@
    ||| name == "OpGetShortRaw"@
    ||| name == "OpGetShortSpare"@
    ||| name == "OpGetShortFull"@
    ||| name == "OpSetInt"@
    ||| name == "OpSetInt4"@
    ||| name == "OpSetInt4Raw"@
    ||| name == "OpSetCharacter"@
    ||| name == "OpSetSingle"@
    ||| name == "OpSetFloat"@
    ||| name == "OpSetByte"@
    ||| name == "OpSetByteNullable"@
    ||| name == "OpSetShort"@
    ||| name == "OpSetShortRaw"@
    ||| name == "OpSetEnum"@
    ||| name == "OpSetBoolean"@
}

fn is_scalar_accessor(name: &str) -> (r: bool)
    ensures
        r == scalar_accessor(name@),
{
    text::same(name, "OpGetInt") || text::same(name, "OpGetInt4") || text::same(
        name,
        "OpGetInt4Raw",
    ) || text::same(name, "OpGetInt4Full") || text::same(name, "OpGetCharacter") || text::same(
        name,
        "OpGetSingle",
    ) || text::same(name, "OpGetFloat") || text::same(name, "OpGetByte") || text::same(
        name,
        "OpGetByteNullable",
    ) || text::same(name, "OpGetEnum") || text::same(name, "OpGetBoolean") || text::same(
        name,
        "OpGetShort",
    ) || text::same(name, "OpGetShortRaw") || text::same(name, "OpGetShortSpare") || text::same(
        name,
        "OpGetShortFull",
    ) || text::same(name, "OpSetInt") || text::same(name, "OpSetInt4") || text::same(
        name,
        "OpSetInt4Raw",
    ) || text::same(name, "OpSetCharacter") || text::same(name, "OpSetSingle") || text::same(
        name,
        "OpSetFloat",
    ) || text::same(name, "OpSetByte") || text::same(name, "OpSetByteNullable") || text::same(
        name,
        "OpSetShort",
    ) || text::same(name, "OpSetShortRaw") || text::same(name, "OpSetEnum") || text::same(
        name,
        "OpSetBoolean",
    )
}

/// Whether statements `i` to `i + 2` are a declaration of `v` as an empty vector:
/// its backing `db` allocated, `v` bound as a view of it, and the length set.
pub open spec fn is_trio(s: Seq<ir::Node>, i: int, v: u16, db: u16, ops: Ops) -> bool {
    &&& 0 <= i
    &&& i + 3 <= s.len()
    &&& calls_on(s[i], ops.database, db)
    &&& ({
        let m = ir::unspan(s[i + 1]);
        m.head == ir::Head::Assign(v) && m.kids.len() > 0 && calls_on(m.kids[0], ops.get_field, db)
    })
    &&& calls_on(s[i + 2], ops.set_int4, db)
}

/// A call of `d` whose first operand is variable `x`.
pub open spec fn calls_on(n: ir::Node, d: u32, x: u16) -> bool {
    let m = ir::unspan(n);
    m.head == ir::Head::Call(d) && m.kids.len() > 0 && ir::unspan(m.kids[0]).head == ir::Head::Var(x)
}

fn is_call_on(node: &Value, d: u32, x: u16) -> (r: bool)
    ensures
        r == calls_on(node@, d, x),
{
    let m: &Value = node.unspan();
    proof {
        ir::shape(*m);
    }
    match m {
        Value::Call(e, args) => {
            proof {
                ir::view_at(args@);
            }
            *e == d && args.len() > 0 && args[0].is_var(x)
        },
        _ => false,
    }
}

fn trio_at(stmts: &Vec<Value>, i: usize, v: u16, db: u16, ops: Ops) -> (r: bool)
    requires
        i <= stmts.len(),
    ensures
        r == is_trio(ir::views(stmts@), i as int, v, db, ops),
{
    proof {
        ir::view_at(stmts@);
    }
    if stmts.len() - i < 3 {
        return false;
    }
    let bind: &Value = stmts[i + 1].unspan();
    let bound: bool = match bind {
        Value::Assign(x, rhs) => {
            assert(bind@.kids[0] == rhs@);
            *x == v && is_call_on(rhs, ops.get_field, db)
        },
        _ => false,
    };
    is_call_on(&stmts[i], ops.database, db) && bound && is_call_on(&stmts[i + 2], ops.set_int4, db)
}

/// How many of the first `k` positions of a list of statements start a
/// declaration of `v`.
pub open spec fn trios(s: Seq<ir::Node>, k: int, v: u16, db: u16, ops: Ops) -> nat
    decreases k,
{
    if k <= 0 {
        0
    } else {
        trios(s, k - 1, v, db, ops) + if is_trio(s, k - 1, v, db, ops) {
            1nat
        } else {
            0
        }
    }
}

/// How many declarations of `v` the blocks of the code hold.
pub open spec fn trio_sites(n: ir::Node, v: u16, db: u16, ops: Ops) -> nat
    decreases n, 0int,
{
    trio_sites_in(n.kids, n.kids.len() as int, v, db, ops) + if n.head is Block || n.head is Loop {
        trios(n.kids, n.kids.len() as int, v, db, ops)
    } else {
        0
    }
}

/// How many declarations of `v` the first `k` nodes hold.
pub open spec fn trio_sites_in(s: Seq<ir::Node>, k: int, v: u16, db: u16, ops: Ops) -> nat
    decreases s, k,
{
    if k <= 0 || k > s.len() {
        0
    } else {
        trio_sites_in(s, k - 1, v, db, ops) + trio_sites(s[k - 1], v, db, ops)
    }
}

/// A count that stops at the largest number it can hold.
pub open spec fn held(n: nat) -> u64 {
    if n <= u64::MAX {
        n as u64
    } else {
        u64::MAX
    }
}

fn count_trios(stmts: &Vec<Value>, v: u16, db: u16, ops: Ops) -> (n: u64)
    ensures
        n == held(trios(ir::views(stmts@), stmts.len() as int, v, db, ops)),
{
    let mut n: u64 = 0;
    let mut i: usize = 0;
    while i < stmts.len()
        invariant
            i <= stmts.len(),
            n == held(trios(ir::views(stmts@), i as int, v, db, ops)),
        decreases stmts.len() - i,
    {
        if trio_at(stmts, i, v, db, ops) {
            n = n.saturating_add(1);
        }
        i = i + 1;
    }
    n
}

fn count_trio_sites(node: &Value, v: u16, db: u16, ops: Ops) -> (n: u64)
    ensures
        n == held(trio_sites(node@, v, db, ops)),
    decreases node,
{
    let kids: Vec<&Value> = node.children();
    let mut n: u64 = 0;
    let mut i: usize = 0;
    while i < kids.len()
        invariant
            i <= kids.len(),
            kids.len() == node@.kids.len(),
            forall|j: int| 0 <= j < kids.len() ==> (#[trigger] kids@[j])@ == node@.kids[j],
            forall|j: int| 0 <= j < kids.len() ==> decreases_to!(*node => *#[trigger] kids@[j]),
            n == held(trio_sites_in(node@.kids, i as int, v, db, ops)),
        decreases kids.len() - i,
    {
        n = n.saturating_add(count_trio_sites(kids[i], v, db, ops));
        i = i + 1;
    }
    proof {
        ir::shape(*node);
    }
    match node {
        Value::Block(bl) | Value::Loop(bl) => n.saturating_add(
            count_trios(&bl.operators, v, db, ops),
        ),
        _ => n,
    }
}

/// The assignments to variable `x`.
pub open spec fn assigns(x: u16) -> spec_fn(ir::Node) -> bool {
    |n: ir::Node| n.head == ir::Head::Assign(x)
}

/// The nodes that are variable `x`.
pub open spec fn is_variable(x: u16) -> spec_fn(ir::Node) -> bool {
    |n: ir::Node| n.head == ir::Head::Var(x)
}

fn set_count(node: &Value, x: u16) -> (n: u64)
    ensures
        n == held(ir::count(node@, assigns(x))),
    decreases node,
{
    let own: bool = match node {
        Value::Assign(y, _) => *y == x,
        _ => false,
    };
    let kids: Vec<&Value> = node.children();
    let ghost p = assigns(x);
    let mut n: u64 = 0;
    let mut i: usize = 0;
    assert(node@.kids.take(0) =~= Seq::<ir::Node>::empty());
    while i < kids.len()
        invariant
            i <= kids.len(),
            p == assigns(x),
            kids.len() == node@.kids.len(),
            forall|j: int| 0 <= j < kids.len() ==> (#[trigger] kids@[j])@ == node@.kids[j],
            forall|j: int| 0 <= j < kids.len() ==> decreases_to!(*node => *#[trigger] kids@[j]),
            n == held(ir::count_in(node@.kids.take(i as int), p)),
        decreases kids.len() - i,
    {
        proof {
            ir::count_step(node@.kids, p, i as int);
        }
        n = n.saturating_add(set_count(kids[i], x));
        i = i + 1;
    }
    assert(node@.kids.take(i as int) =~= node@.kids);
    if own {
        n.saturating_add(1)
    } else {
        n
    }
}

fn var_mentions(node: &Value, x: u16) -> (n: u64)
    ensures
        n == held(ir::count(node@, is_variable(x))),
    decreases node,
{
    let own: bool = match node {
        Value::Var(y) => *y == x,
        _ => false,
    };
    let kids: Vec<&Value> = node.children();
    let ghost p = is_variable(x);
    let mut n: u64 = 0;
    let mut i: usize = 0;
    assert(node@.kids.take(0) =~= Seq::<ir::Node>::empty());
    while i < kids.len()
        invariant
            i <= kids.len(),
            p == is_variable(x),
            kids.len() == node@.kids.len(),
            forall|j: int| 0 <= j < kids.len() ==> (#[trigger] kids@[j])@ == node@.kids[j],
            forall|j: int| 0 <= j < kids.len() ==> decreases_to!(*node => *#[trigger] kids@[j]),
            n == held(ir::count_in(node@.kids.take(i as int), p)),
        decreases kids.len() - i,
    {
        proof {
            ir::count_step(node@.kids, p, i as int);
        }
        n = n.saturating_add(var_mentions(kids[i], x));
        i = i + 1;
    }
    assert(node@.kids.take(i as int) =~= node@.kids);
    if own {
        n.saturating_add(1)
    } else {
        n
    }
}

/// What a walk reads: the definitions, the variables of the function, its code,
/// the local, its backing, and the local with the copies of it that are followed.
pub struct Local {
    pub defs: Seq<Definition>,
    pub vars: Seq<data::VarView>,
    pub code: ir::Node,
    pub v: u16,
    pub db: u16,
    pub ops: Ops,
    pub followed: Seq<u16>,
}

/// Whether variable `x` exists and is an argument.
pub open spec fn is_arg(vars: Seq<data::VarView>, x: u16) -> bool {
    x < vars.len() && vars[x as int].argument
}

/// The operation that definition `d` is a name for: a function of one operation
/// that hands its first parameter on as the first operand and nowhere else.
pub open spec fn wrapped_op(def: Definition) -> Option<u32> {
    match def.wrapper {
        Some(w) => if w.operands.len() > 0 && w.operands@[0] == WrapperOperand::Param(0)
            && forall|i: int|
            1 <= i < w.operands.len() ==> #[trigger] w.operands@[i] != WrapperOperand::Param(0) {
            Some(w.op)
        } else {
            None
        },
        None => None,
    }
}

fn one_op_wrapper(def: &Definition) -> (op: Option<u32>)
    ensures
        op == wrapped_op(*def),
{
    match &def.wrapper {
        Some(w) => {
            if w.operands.len() == 0 || w.operands[0] != WrapperOperand::Param(0) {
                return None;
            }
            let mut i: usize = 1;
            while i < w.operands.len()
                invariant
                    1 <= i <= w.operands.len(),
                    def.wrapper == Some(*w),
                    forall|j: int|
                        1 <= j < i ==> #[trigger] w.operands@[j] != WrapperOperand::Param(0),
                decreases w.operands.len() - i,
            {
                if w.operands[i] == WrapperOperand::Param(0) {
                    return None;
                }
                i = i + 1;
            }
            Some(w.op)
        },
        None => None,
    }
}

/// Whether a followed vector may stand as operand `i` of definition `d`.
pub open spec fn allowed(defs: Seq<Definition>, d: u32, i: int) -> bool {
    ||| i == 0 && in_place(name_of(defs, d))
    ||| i == 1 && copies_second(name_of(defs, d))
    ||| i == 0 && d < defs.len() && (wrapped_op(defs[d as int]) matches Some(op) && in_place(
        name_of(defs, op),
    ))
}

fn allowed_operand(data: &Data, d: u32, i: usize) -> (r: bool)
    ensures
        r == allowed(data.definitions@, d, i as int),
{
    let name: &str = def_name(data, d);
    if i == 0 && in_place_at_0(name) {
        return true;
    }
    if i == 1 && copied_from_at_1(name) {
        return true;
    }
    if i == 0 && (d as usize) < data.definitions.len() {
        match one_op_wrapper(&data.definitions[d as usize]) {
            Some(op) => in_place_at_0(def_name(data, op)),
            None => false,
        }
    } else {
        false
    }
}

/// Whether the operand is one of the followed variables.
pub open spec fn is_followed(e: Local, n: ir::Node) -> bool {
    match ir::unspan(n).head {
        ir::Head::Var(x) => e.followed.contains(x),
        _ => false,
    }
}

/// The verdict on a followed variable that is carried outside a variable node.
pub open spec fn carried(h: ir::Head) -> Option<(u16, Why)> {
    match h {
        ir::Head::Iter(x) => Some((x, Why::BoundByLoop)),
        ir::Head::TupleGet(x, _) => Some((x, Why::InTuple)),
        ir::Head::TuplePut(x, _) => Some((x, Why::InTuple)),
        ir::Head::CallRef(x) => Some((x, Why::CalledAsFunction)),
        ir::Head::FnRef(_, x, _) => Some((x, Why::Captured)),
        ir::Head::FnRefDnr(x) => Some((x, Why::ReadAsFunction)),
        _ => None,
    }
}

/// Whether a call itself is refused, whatever stands below it: the place of an
/// element that no scalar accessor takes, or a copy into a field.
pub open spec fn call_refused(e: Local, d: u32, args: Seq<ir::Node>, pos: Pos) -> Option<Why> {
    let name = name_of(e.defs, d);
    if element_place(name) && args.len() > 0 && is_followed(e, args[0]) && !(pos matches Pos::Arg {
        d: p,
        i,
    } && i == 0 && scalar_accessor(name_of(e.defs, p))) {
        Some(Why::ElementPlace)
    } else if copies_second(name) && args.len() > 1 && is_followed(e, args[1]) && ir::unspan(
        args[0],
    ).head == ir::Head::Call(e.ops.get_field) {
        Some(Why::CopiedIntoField)
    } else {
        None
    }
}

/// Whether a followed variable may be assigned this value: the declaration of the
/// local itself, or a copy of a followed variable.
pub open spec fn rebinds(e: Local, x: u16, value: ir::Node) -> bool {
    ||| x == e.v && calls_on(value, e.ops.get_field, e.db)
    ||| x != e.v && is_followed(e, value)
}

/// The verdict on a node, with the copies of followed variables found so far.
pub open spec fn walk(e: Local, n: ir::Node, pos: Pos, found: Seq<u16>) -> (
    Result<(), Why>,
    Seq<u16>,
)
    decreases n, 0int,
{
    if n.head is Span && n.kids.len() > 0 {
        walk(e, n.kids[0], pos, found)
    } else {
        match n.head {
            ir::Head::Var(x) => if e.followed.contains(x) {
                match pos {
                    Pos::Arg { d, i } => if allowed(e.defs, d, i as int) {
                        (Ok(()), found)
                    } else {
                        (Err(Why::HandedToCall), found)
                    },
                    Pos::Other => (Err(Why::OutsideOperator), found),
                }
            } else {
                (Ok(()), found)
            },
            ir::Head::Call(d) => match call_refused(e, d, n.kids, pos) {
                Some(why) => (Err(why), found),
                None => walk_kids(e, n.kids, 0, Some(d), found),
            },
            ir::Head::Assign(x) => if n.kids.len() == 0 {
                (Ok(()), found)
            } else {
                assigned(e, x, n.kids[0], found)
            },
            _ => match carried(n.head) {
                Some((x, why)) if e.followed.contains(x) => (Err(why), found),
                _ => walk_kids(e, n.kids, 0, None, found),
            },
        }
    }
}

/// The verdict on an assignment.  The declaration of the local is code like any other; a
/// copy of a followed variable into a local that is bound once is one more variable to
/// follow.
pub open spec fn assigned(e: Local, x: u16, value: ir::Node, found: Seq<u16>) -> (
    Result<(), Why>,
    Seq<u16>,
)
    decreases value, 1int,
{
    if e.followed.contains(x) {
        if !rebinds(e, x, value) {
            (Err(Why::AssignedAgain), found)
        } else if x == e.v {
            walk(e, value, Pos::Other, found)
        } else {
            (Ok(()), found)
        }
    } else if is_followed(e, value) {
        if is_arg(e.vars, x) {
            (Err(Why::CopiedIntoParameter), found)
        } else if ir::count(e.code, assigns(x)) != 1 {
            (Err(Why::CopiedIntoManyAssigned), found)
        } else {
            (Ok(()), found.push(x))
        }
    } else {
        walk(e, value, Pos::Other, found)
    }
}

/// The nodes from `i` on, as operands of call `d` or as statements.
pub open spec fn walk_kids(
    e: Local,
    s: Seq<ir::Node>,
    i: int,
    d: Option<u32>,
    found: Seq<u16>,
) -> (Result<(), Why>, Seq<u16>)
    decreases s, s.len() - i,
{
    if i < 0 || i >= s.len() {
        (Ok(()), found)
    } else {
        let pos = match d {
            Some(c) => Pos::Arg { d: c, i: i as usize },
            None => Pos::Other,
        };
        let (r, more) = walk(e, s[i], pos, found);
        match r {
            Err(why) => (Err(why), more),
            Ok(_) => walk_kids(e, s, i + 1, d, more),
        }
    }
}

struct Walk<'a> {
    data: &'a Data,
    function: &'a Function,
    code: &'a Value,
    v: u16,
    db: u16,
    ops: Ops,
    followed: Vec<u16>,
}

impl<'a> Walk<'a> {
    spec fn local(&self) -> Local {
        Local {
            defs: self.data.definitions@,
            vars: self.function@.vars,
            code: self.code@,
            v: self.v,
            db: self.db,
            ops: self.ops,
            followed: self.followed@,
        }
    }

    fn follows(&self, node: &Value) -> (r: bool)
        ensures
            r == is_followed(self.local(), node@),
    {
        match node.unspan() {
            Value::Var(x) => types::has_var(&self.followed, *x),
            _ => false,
        }
    }

    fn refused(&self, d: u32, args: &Vec<Value>, pos: Pos) -> (why: Option<Why>)
        ensures
            why == call_refused(self.local(), d, ir::views(args@), pos),
    {
        proof {
            ir::view_at(args@);
        }
        let name: &str = def_name(self.data, d);
        if is_element_place(name) && args.len() > 0 && self.follows(&args[0]) {
            let taken: bool = match pos {
                Pos::Arg { d: p, i } => i == 0 && is_scalar_accessor(def_name(self.data, p)),
                Pos::Other => false,
            };
            if !taken {
                return Some(Why::ElementPlace);
            }
        }
        if copied_from_at_1(name) && args.len() > 1 && self.follows(&args[1]) {
            match args[0].unspan() {
                Value::Call(g, _) => {
                    if *g == self.ops.get_field {
                        return Some(Why::CopiedIntoField);
                    }
                },
                _ => {},
            }
        }
        None
    }

    fn node(&self, node: &Value, pos: Pos, found: &mut Vec<u16>) -> (r: Result<(), Why>)
        ensures
            (r, final(found)@) == walk(self.local(), node@, pos, old(found)@),
        decreases node, 1int,
    {
        proof {
            ir::shape(*node);
        }
        match node {
            Value::Span(_, inner) => {
                assert(node@.kids[0] == inner@);
                self.node(inner, pos, found)
            },
            Value::Var(x) => {
                if !types::has_var(&self.followed, *x) {
                    return Ok(());
                }
                match pos {
                    Pos::Arg { d, i } => {
                        if allowed_operand(self.data, d, i) {
                            Ok(())
                        } else {
                            Err(Why::HandedToCall)
                        }
                    },
                    Pos::Other => Err(Why::OutsideOperator),
                }
            },
            Value::Call(d, args) => match self.refused(*d, args, pos) {
                Some(why) => Err(why),
                None => self.kids(node, Some(*d), found),
            },
            Value::Assign(x, rhs) => {
                assert(node@.kids[0] == rhs@);
                self.assign(*x, rhs, found)
            },
            _ => {
                let own: Option<(u16, Why)> = carried_var(node);
                match own {
                    Some((x, why)) => {
                        if types::has_var(&self.followed, x) {
                            return Err(why);
                        }
                    },
                    None => {},
                }
                self.kids(node, None, found)
            },
        }
    }

    fn assign(&self, x: u16, rhs: &Value, found: &mut Vec<u16>) -> (r: Result<(), Why>)
        ensures
            (r, final(found)@) == assigned(self.local(), x, rhs@, old(found)@),
        decreases rhs, 2int,
    {
        if types::has_var(&self.followed, x) {
            if x == self.v && is_call_on(rhs, self.ops.get_field, self.db) {
                self.node(rhs, Pos::Other, found)
            } else if x != self.v && self.follows(rhs) {
                Ok(())
            } else {
                Err(Why::AssignedAgain)
            }
        } else if self.follows(rhs) {
            if self.function.is_argument(x) {
                Err(Why::CopiedIntoParameter)
            } else if set_count(self.code, x) != 1 {
                Err(Why::CopiedIntoManyAssigned)
            } else {
                found.push(x);
                Ok(())
            }
        } else {
            self.node(rhs, Pos::Other, found)
        }
    }

    fn kids(&self, node: &Value, d: Option<u32>, found: &mut Vec<u16>) -> (r: Result<(), Why>)
        ensures
            (r, final(found)@) == walk_kids(self.local(), node@.kids, 0, d, old(found)@),
        decreases node, 0int,
    {
        let kids: Vec<&Value> = node.children();
        let ghost e = self.local();
        let ghost s = node@.kids;
        let ghost was = found@;
        let mut i: usize = 0;
        while i < kids.len()
            invariant
                i <= kids.len(),
                e == self.local(),
                s == node@.kids,
                was == old(found)@,
                kids.len() == s.len(),
                forall|j: int| 0 <= j < kids.len() ==> (#[trigger] kids@[j])@ == s[j],
                forall|j: int| 0 <= j < kids.len() ==> decreases_to!(*node => *#[trigger] kids@[j]),
                walk_kids(e, s, 0, d, was) == walk_kids(e, s, i as int, d, found@),
            decreases kids.len() - i,
        {
            let pos: Pos = match d {
                Some(c) => Pos::Arg { d: c, i },
                None => Pos::Other,
            };
            match self.node(kids[i], pos, found) {
                Ok(_) => {},
                Err(why) => {
                    return Err(why);
                },
            }
            i = i + 1;
        }
        Ok(())
    }
}

fn carried_var(node: &Value) -> (r: Option<(u16, Why)>)
    ensures
        r == carried(node@.head),
{
    proof {
        ir::shape(*node);
    }
    match node {
        Value::Iter(x, _, _, _) => Some((*x, Why::BoundByLoop)),
        Value::TupleGet(x, _) => Some((*x, Why::InTuple)),
        Value::TuplePut(x, _, _) => Some((*x, Why::InTuple)),
        Value::CallRef(x, _) => Some((*x, Why::CalledAsFunction)),
        Value::FnRef(_, x, _) => Some((*x, Why::Captured)),
        Value::FnRefDnr(x) => Some((*x, Why::ReadAsFunction)),
        _ => None,
    }
}

/// How many of the first `k` statements give `db` the null value.
pub open spec fn null_inits(s: Seq<ir::Node>, k: int, db: u16) -> nat
    decreases k,
{
    if k <= 0 {
        0
    } else {
        null_inits(s, k - 1, db) + if is_null_init(s[k - 1], db) {
            1nat
        } else {
            0
        }
    }
}

/// The statement that gives `db` the null value.
pub open spec fn is_null_init(n: ir::Node, db: u16) -> bool {
    let m = ir::unspan(n);
    m.head == ir::Head::Assign(db) && m.kids.len() > 0 && ir::unspan(m.kids[0]).head is Null
}

fn null_init_of(node: &Value, db: u16) -> (r: bool)
    ensures
        r == is_null_init(node@, db),
{
    let m: &Value = node.unspan();
    match m {
        Value::Assign(x, rhs) => {
            assert(m@.kids[0] == rhs@);
            *x == db && rhs.is_null()
        },
        _ => false,
    }
}

fn count_null_inits(stmts: &Vec<Value>, db: u16) -> (n: u64)
    ensures
        n == held(null_inits(ir::views(stmts@), stmts.len() as int, db)),
{
    proof {
        ir::view_at(stmts@);
    }
    let mut n: u64 = 0;
    let mut i: usize = 0;
    while i < stmts.len()
        invariant
            i <= stmts.len(),
            n == held(null_inits(ir::views(stmts@), i as int, db)),
        decreases stmts.len() - i,
    {
        if null_init_of(&stmts[i], db) {
            n = n.saturating_add(1);
        }
        i = i + 1;
    }
    n
}

/// The variables of `found` that are not followed yet, each once, behind those
/// that are.
pub open spec fn joined(followed: Seq<u16>, found: Seq<u16>) -> Seq<u16>
    decreases found.len(),
{
    if found.len() == 0 {
        followed
    } else {
        let before = joined(followed, found.drop_last());
        if before.contains(found.last()) {
            before
        } else {
            before.push(found.last())
        }
    }
}

/// The verdict once every copy is followed: the code is walked again for as long
/// as a walk finds copies that it did not follow.
pub open spec fn settled(e: Local) -> Result<(), Why>
    decreases 0x1_0000 - e.followed.len(),
{
    let (r, found) = walk(e, e.code, Pos::Other, Seq::empty());
    let more = joined(e.followed, found);
    match r {
        Err(why) => Err(why),
        Ok(_) => if more.len() <= e.followed.len() || more.len() > 0x1_0000 {
            Ok(())
        } else {
            settled(Local { followed: more, ..e })
        },
    }
}

pub(crate) proof fn joined_keeps(followed: Seq<u16>, found: Seq<u16>)
    requires
        followed.no_duplicates(),
    ensures
        joined(followed, found).no_duplicates(),
        joined(followed, found).len() >= followed.len(),
    decreases found.len(),
{
    if found.len() > 0 {
        joined_keeps(followed, found.drop_last());
    }
}

/// A list of distinct variables holds no more than there are numbers.
pub(crate) proof fn distinct_variables(s: Seq<u16>)
    requires
        s.no_duplicates(),
    ensures
        s.len() <= 0x1_0000,
{
    let ints = s.map_values(|x: u16| x as int);
    assert(ints.no_duplicates());
    ints.unique_seq_to_set();
    let all = vstd::set_lib::set_int_range(0, 0x1_0000);
    vstd::set_lib::lemma_int_range(0, 0x1_0000);
    assert(ints.to_set().subset_of(all)) by {
        assert forall|x: int| ints.to_set().contains(x) implies all.contains(x) by {
            let i = choose|i: int| 0 <= i < ints.len() && ints[i] == x;
            assert(ints[i] == s[i] as int);
        }
    }
    vstd::set_lib::lemma_len_subset(ints.to_set(), all);
}

/// Why local `v`, backed by `db`, keeps its store: it is declared once as an empty
/// vector, nothing else names its backing, and every mention of it and of its
/// copies is an operand of an operation that works in place.
pub open spec fn admission(
    defs: Seq<Definition>,
    vars: Seq<data::VarView>,
    code: ir::Node,
    ops: Ops,
    v: u16,
    db: u16,
) -> Result<(), Why> {
    let body = ir::unspan(code);
    if !(body.head is Block) {
        Err(Why::NoBody)
    } else if trio_sites(code, v, db, ops) != 1 {
        Err(Why::NotDeclaredOnce)
    } else if ir::count(code, assigns(v)) != 1 {
        Err(Why::AssignedTwice)
    } else if null_inits(body.kids, body.kids.len() as int, db) != 1 || ir::count(code, assigns(db))
        != 1 || ir::count(code, is_variable(db)) != 3 {
        Err(Why::BackingNamedElsewhere)
    } else {
        settled(Local { defs, vars, code, v, db, ops, followed: seq![v] })
    }
}

fn join_found(followed: &mut Vec<u16>, found: &Vec<u16>)
    requires
        old(followed)@.no_duplicates(),
    ensures
        final(followed)@ == joined(old(followed)@, found@),
{
    let ghost was = followed@;
    let mut i: usize = 0;
    assert(found@.take(0) =~= Seq::<u16>::empty());
    while i < found.len()
        invariant
            i <= found.len(),
            followed@ == joined(was, found@.take(i as int)),
        decreases found.len() - i,
    {
        assert(found@.take(i + 1).drop_last() =~= found@.take(i as int));
        if !types::has_var(followed, found[i]) {
            followed.push(found[i]);
        }
        i = i + 1;
    }
    assert(found@.take(i as int) =~= found@);
}

fn settle(
    data: &Data,
    function: &Function,
    code: &Value,
    v: u16,
    db: u16,
    ops: Ops,
) -> (r: Result<(), Why>)
    ensures
        r == settled(
            Local {
                defs: data.definitions@,
                vars: function@.vars,
                code: code@,
                v,
                db,
                ops,
                followed: seq![v],
            },
        ),
{
    let mut w = Walk { data, function, code, v, db, ops, followed: vec![v] };
    let ghost first = w.local();
    assert(w.followed@ =~= seq![v]);
    loop
        invariant_except_break
            w.data == data,
            w.function == function,
            w.code == code,
            w.followed@.no_duplicates(),
            first == (Local {
                defs: data.definitions@,
                vars: function@.vars,
                code: code@,
                v,
                db,
                ops,
                followed: seq![v],
            }),
            settled(first) == settled(w.local()),
        ensures
            settled(first) == Ok::<(), Why>(()),
        decreases 0x1_0000 - w.followed.len(),
    {
        let mut found: Vec<u16> = Vec::new();
        let ghost e = w.local();
        match w.node(code, Pos::Other, &mut found) {
            Ok(_) => {},
            Err(why) => {
                return Err(why);
            },
        }
        let n: usize = w.followed.len();
        proof {
            joined_keeps(w.followed@, found@);
            distinct_variables(joined(w.followed@, found@));
        }
        join_found(&mut w.followed, &found);
        if w.followed.len() <= n {
            break;
        }
        assert(w.local() == (Local { followed: w.followed@, ..e }));
    }
    Ok(())
}

/// Whether local `v`, backed by `db`, may be the caller's buffer.
pub fn admit_local(
    data: &Data,
    function: &Function,
    code: &Value,
    ops: Ops,
    v: u16,
    db: u16,
) -> (r: Result<(), Why>)
    ensures
        r == admission(data.definitions@, function@.vars, code@, ops, v, db),
{
    let body: &Value = code.unspan();
    proof {
        ir::shape(*body);
    }
    match body {
        Value::Block(bl) => {
            if count_trio_sites(code, v, db, ops) != 1 {
                return Err(Why::NotDeclaredOnce);
            }
            if set_count(code, v) != 1 {
                return Err(Why::AssignedTwice);
            }
            if count_null_inits(&bl.operators, db) != 1 || set_count(code, db) != 1 || var_mentions(
                code,
                db,
            ) != 3 {
                return Err(Why::BackingNamedElsewhere);
            }
            settle(data, function, code, v, db, ops)
        },
        _ => Err(Why::NoBody),
    }
}

/// The definition whose number a node hands out: a function value, or the worker
/// of a parallel call.
pub open spec fn taken_by(defs: Seq<Definition>, n: ir::Node) -> Option<u32> {
    match n.head {
        ir::Head::FnRef(f, _, _) => if f >= 0 {
            Some(f as u32)
        } else {
            None
        },
        ir::Head::Call(c) => if c < defs.len() && text::is_prefix(
            "n_parallel_"@,
            defs[c as int].name@,
        ) {
            match data::attr_from(defs[c as int].attributes@, "func"@, 0) {
                Some(i) => if i < n.kids.len() {
                    match ir::unspan(n.kids[i]).head {
                        ir::Head::Int(f) => if f >= 0 {
                            Some(f as u32)
                        } else {
                            None
                        },
                        _ => None,
                    }
                } else {
                    None
                },
                None => None,
            }
        } else {
            None
        },
        _ => None,
    }
}

/// The nodes that hand out the number of definition `f`.
pub open spec fn takes(defs: Seq<Definition>, f: u32) -> spec_fn(ir::Node) -> bool {
    |n: ir::Node| taken_by(defs, n) == Some(f)
}

/// Whether the code of one of the first `k` definitions hands out the number of
/// definition `f`.
pub open spec fn taken_below(defs: Seq<Definition>, f: u32, k: int) -> bool
    decreases k,
{
    k > 0 && (taken_below(defs, f, k - 1) || ir::any(defs[k - 1].code@, takes(defs, f)))
}

/// Whether the number of definition `f` is handed out anywhere.
pub open spec fn address_taken(defs: Seq<Definition>, f: u32) -> bool {
    taken_below(defs, f, defs.len() as int)
}

fn hands_out(data: &Data, node: &Value) -> (f: Option<u32>)
    ensures
        f == taken_by(data.definitions@, node@),
{
    proof {
        ir::shape(*node);
    }
    match node {
        Value::FnRef(f, _, _) => if *f >= 0 {
            Some(*f as u32)
        } else {
            None
        },
        Value::Call(c, args) => {
            proof {
                ir::view_at(args@);
            }
            if (*c as usize) < data.definitions.len() && text::starts_with(
                data.definitions[*c as usize].name.as_str(),
                "n_parallel_",
            ) {
                match data.attr(*c, "func") {
                    Some(i) => if i < args.len() {
                        match args[i].unspan() {
                            Value::Int(f) => if *f >= 0 {
                                Some(*f as u32)
                            } else {
                                None
                            },
                            _ => None,
                        }
                    } else {
                        None
                    },
                    None => None,
                }
            } else {
                None
            }
        },
        _ => None,
    }
}

fn collect_taken(data: &Data, node: &Value, out: &mut Vec<u32>)
    ensures
        forall|f: u32| #[trigger]
            final(out)@.contains(f) <==> old(out)@.contains(f) || ir::any(
                node@,
                takes(data.definitions@, f),
            ),
    decreases node,
{
    let ghost defs = data.definitions@;
    let ghost was = out@;
    match hands_out(data, node) {
        Some(g) => {
            out.push(g);
            proof {
                assert forall|f: u32| #[trigger] out@.contains(f) <==> was.contains(f) || takes(
                    defs,
                    f,
                )(node@) by {
                    if was.contains(f) {
                        let i = choose|i: int| 0 <= i < was.len() && was[i] == f;
                        assert(out@[i] == f);
                    }
                    assert(out@[was.len() as int] == g);
                }
            }
        },
        None => {},
    }
    let kids: Vec<&Value> = node.children();
    let mut i: usize = 0;
    assert(node@.kids.take(0) =~= Seq::<ir::Node>::empty());
    while i < kids.len()
        invariant
            i <= kids.len(),
            defs == data.definitions@,
            kids.len() == node@.kids.len(),
            forall|j: int| 0 <= j < kids.len() ==> (#[trigger] kids@[j])@ == node@.kids[j],
            forall|j: int| 0 <= j < kids.len() ==> decreases_to!(*node => *#[trigger] kids@[j]),
            forall|f: u32| #[trigger]
                out@.contains(f) <==> was.contains(f) || takes(defs, f)(node@) || ir::any_in(
                    node@.kids.take(i as int),
                    takes(defs, f),
                ),
        decreases kids.len() - i,
    {
        let ghost before = out@;
        collect_taken(data, kids[i], out);
        proof {
            assert forall|f: u32| #[trigger] out@.contains(f) <==> was.contains(f) || takes(
                defs,
                f,
            )(node@) || ir::any_in(node@.kids.take(i + 1), takes(defs, f)) by {
                ir::any_step(node@.kids, takes(defs, f), i as int);
                assert(out@.contains(f) <==> before.contains(f) || ir::any(
                    node@.kids[i as int],
                    takes(defs, f),
                ));
                assert(before.contains(f) <==> was.contains(f) || takes(defs, f)(node@)
                    || ir::any_in(node@.kids.take(i as int), takes(defs, f)));
            }
        }
        i = i + 1;
    }
    assert(node@.kids.take(i as int) =~= node@.kids);
}

/// The definitions whose numbers are handed out.
pub fn address_taken_defs(data: &Data) -> (out: Vec<u32>)
    ensures
        forall|f: u32| #[trigger]
            out@.contains(f) <==> address_taken(data.definitions@, f),
{
    let ghost defs = data.definitions@;
    let mut out: Vec<u32> = Vec::new();
    let mut d: usize = 0;
    while d < data.definitions.len()
        invariant
            d <= data.definitions.len(),
            defs == data.definitions@,
            forall|f: u32| #[trigger] out@.contains(f) <==> taken_below(defs, f, d as int),
        decreases data.definitions.len() - d,
    {
        let ghost before = out@;
        collect_taken(data, &data.definitions[d].code, &mut out);
        proof {
            assert forall|f: u32| #[trigger] out@.contains(f) <==> taken_below(
                defs,
                f,
                d + 1,
            ) by {
                assert(before.contains(f) <==> taken_below(defs, f, d as int));
            }
        }
        d = d + 1;
    }
    out
}

fn has_def(defs: &Vec<u32>, d: u32) -> (found: bool)
    ensures
        found == defs@.contains(d),
{
    let mut i: usize = 0;
    while i < defs.len()
        invariant
            i <= defs.len(),
            forall|j: int| 0 <= j < i ==> defs@[j] != d,
        decreases defs.len() - i,
    {
        if defs[i] == d {
            return true;
        }
        i = i + 1;
    }
    false
}

/// The nodes that suspend the function or fork it.
pub open spec fn suspends() -> spec_fn(ir::Node) -> bool {
    |n: ir::Node| n.head is Yield || n.head is Parallel
}

fn may_suspend(node: &Value) -> (found: bool)
    ensures
        found == ir::any(node@, suspends()),
    decreases node,
{
    proof {
        ir::shape(*node);
    }
    match node {
        Value::Yield(_) | Value::Parallel(_) => {
            return true;
        },
        _ => {},
    }
    let kids: Vec<&Value> = node.children();
    let ghost p = suspends();
    let mut i: usize = 0;
    assert(node@.kids.take(0) =~= Seq::<ir::Node>::empty());
    while i < kids.len()
        invariant
            i <= kids.len(),
            p == suspends(),
            !p(node@),
            kids.len() == node@.kids.len(),
            forall|j: int| 0 <= j < kids.len() ==> (#[trigger] kids@[j])@ == node@.kids[j],
            forall|j: int| 0 <= j < kids.len() ==> decreases_to!(*node => *#[trigger] kids@[j]),
            !ir::any_in(node@.kids.take(i as int), p),
        decreases kids.len() - i,
    {
        proof {
            ir::any_step(node@.kids, p, i as int);
        }
        if may_suspend(kids[i]) {
            proof {
                ir::any_prefix(node@.kids, p, i + 1);
            }
            return true;
        }
        i = i + 1;
    }
    assert(node@.kids.take(i as int) =~= node@.kids);
    false
}

/// Why a definition takes no work buffer at all.
pub open spec fn declined(def: Definition, taken: bool) -> Option<Decline> {
    if def.def_type != DefType::Function {
        Some(Decline::NotAFunction)
    } else if def.rust_body {
        Some(Decline::NativeBody)
    } else if def.generic_instance {
        Some(Decline::GenericInstance)
    } else if def.synthetic {
        Some(Decline::Synthetic)
    } else if def.name@ == "n_main"@ || def.corpus_entry {
        Some(Decline::EntryPoint)
    } else if text::is_prefix("n___lambda_"@, def.name@) {
        Some(Decline::Lambda)
    } else if taken {
        Some(Decline::AddressTaken)
    } else if !(ir::unspan(def.code@).head is Block) {
        Some(Decline::NoBody)
    } else if ir::any(def.code@, suspends()) {
        Some(Decline::SuspendsOrForks)
    } else {
        None
    }
}

/// Why a definition takes no work buffer at all, or `None` when its locals may.
pub fn work_buffer_def_decline(def: &Definition, taken: bool) -> (why: Option<Decline>)
    ensures
        why == declined(*def, taken),
{
    if def.def_type != DefType::Function {
        return Some(Decline::NotAFunction);
    }
    if def.rust_body {
        return Some(Decline::NativeBody);
    }
    if def.generic_instance {
        return Some(Decline::GenericInstance);
    }
    if def.synthetic {
        return Some(Decline::Synthetic);
    }
    if text::same(def.name.as_str(), "n_main") || def.corpus_entry {
        return Some(Decline::EntryPoint);
    }
    if text::starts_with(def.name.as_str(), "n___lambda_") {
        return Some(Decline::Lambda);
    }
    if taken {
        return Some(Decline::AddressTaken);
    }
    let body: &Value = def.code.unspan();
    let block: bool = match body {
        Value::Block(_) => true,
        _ => false,
    };
    proof {
        ir::shape(*body);
    }
    if !block {
        return Some(Decline::NoBody);
    }
    if may_suspend(&def.code) {
        return Some(Decline::SuspendsOrForks);
    }
    None
}

/// The backing of a local that may be promoted: a plain local of the program,
/// never absent, a vector of scalars that views one `__vdb_` variable.
pub open spec fn candidate(vars: Seq<data::VarView>, v: u16) -> Option<u16> {
    if v >= vars.len() {
        None
    } else {
        let var = vars[v as int];
        if var.argument || var.caller_hidden_buf || var.work_ref || text::is_prefix(
            "_"@,
            var.name,
        ) || types::is_optional(var.tp) {
            None
        } else {
            match types::base(var.tp) {
                types::Ty::Vector(elem, _) => {
                    let deps = types::depend(var.tp);
                    if types::scalar(*elem) && deps.len() == 1 && deps[0] < vars.len()
                        && text::is_prefix("__vdb_"@, vars[deps[0] as int].name) {
                        Some(deps[0])
                    } else {
                        None
                    }
                },
                _ => None,
            }
        }
    }
}

/// The backing of local `v`, where the variables alone allow its promotion.
pub fn work_buffer_candidate(vars: &Function, v: u16) -> (db: Option<u16>)
    ensures
        db == candidate(vars@.vars, v),
{
    if (v as usize) >= vars.variables.len() {
        return None;
    }
    let var: &Variable = &vars.variables[v as usize];
    if var.argument || var.caller_hidden_buf || var.work_ref || text::starts_with(
        var.name.as_str(),
        "_",
    ) || var.tp.is_optional() {
        return None;
    }
    match var.tp.base() {
        Type::Vector(elem, _) => {
            if !elem.is_scalar() {
                return None;
            }
            let deps: Vec<u16> = var.tp.depend();
            if deps.len() == 1 && (deps[0] as usize) < vars.variables.len() && text::starts_with(
                vars.variables[deps[0] as usize].name.as_str(),
                "__vdb_",
            ) {
                Some(deps[0])
            } else {
                None
            }
        },
        _ => None,
    }
}

/// What a promotion changes of a function: its code, its variables, and the
/// parameters that are added to it.
#[derive(Debug)]
pub struct Frame {
    pub code: Value,
    pub vars: Function,
    pub added: Vec<Attribute>,
}

/// What a promotion changes of a function, as values.
pub struct FrameView {
    pub code: ir::Node,
    pub vars: data::FnView,
    pub added: Seq<data::AttrView>,
}

impl Frame {
    pub open spec fn view(&self) -> FrameView {
        FrameView { code: self.code@, vars: self.vars@, added: data::attr_views(self.added@) }
    }
}

/// A variable that another one stands for, after `a` and `b` have taken each
/// other's numbers.
pub open spec fn swapped_option(x: Option<u16>, a: u16, b: u16) -> Option<u16> {
    match x {
        Some(v) => Some(types::swapped_var(v, a, b)),
        None => None,
    }
}

/// What is known of a variable after `a` and `b` have taken each other's numbers.
pub open spec fn renumbered(v: data::VarView, a: u16, b: u16) -> data::VarView {
    data::VarView {
        tp: types::swapped(v.tp, a, b),
        promoted_from: swapped_option(v.promoted_from, a, b),
        rebind_orig: swapped_option(v.rebind_orig, a, b),
        viewers: types::swapped_vars(v.viewers, a, b),
        ..v
    }
}

/// The variables of a function after `a` and `b` have taken each other's numbers.
pub open spec fn exchanged(f: data::FnView, a: u16, b: u16) -> data::FnView {
    data::FnView {
        vars: Seq::new(
            f.vars.len(),
            |i: int| renumbered(f.vars[types::swapped_var(i as u16, a, b) as int], a, b),
        ),
        renames: Seq::new(
            f.renames.len(),
            |i: int| (f.renames[i].0, types::swapped_var(f.renames[i].1, a, b)),
        ),
        ..f
    }
}

/// Whether an argument is numbered after variable `v`.
pub open spec fn argument_after(vars: Seq<data::VarView>, v: u16) -> bool {
    exists|a: int| v < a < vars.len() && #[trigger] vars[a].argument
}

/// The function, the local and its backing once the local is numbered after every
/// argument: where it is not, it exchanges numbers with the last variable, unless
/// that one is an argument.
pub open spec fn moved(f: FrameView, v: u16, db: u16) -> Option<(FrameView, u16, u16)> {
    let last = (f.vars.vars.len() - 1) as u16;
    if !argument_after(f.vars.vars, v) {
        Some((f, v, db))
    } else if last == v || is_arg(f.vars.vars, last) {
        None
    } else {
        Some(
            (
                FrameView {
                    code: ir::swapped(f.code, v, last),
                    vars: exchanged(f.vars, v, last),
                    added: f.added,
                },
                last,
                if db == last {
                    v
                } else {
                    db
                },
            ),
        )
    }
}

fn swap_option(x: Option<u16>, a: u16, b: u16) -> (r: Option<u16>)
    ensures
        r == swapped_option(x, a, b),
{
    match x {
        Some(v) => Some(types::swap_var(v, a, b)),
        None => None,
    }
}

fn renumber(var: &Variable, a: u16, b: u16) -> (out: Variable)
    ensures
        out@ == renumbered(var@, a, b),
{
    let mut out: Variable = var.copy();
    out.tp = var.tp.swap_vars(a, b);
    out.promoted_from = swap_option(var.promoted_from, a, b);
    out.rebind_orig = swap_option(var.rebind_orig, a, b);
    out.viewers = types::swap_vars(&var.viewers, a, b);
    out
}

fn exchange(f: &Function, a: u16, b: u16) -> (out: Function)
    requires
        f.variables.len() <= u16::MAX,
        a < f.variables.len(),
        b < f.variables.len(),
    ensures
        out@ == exchanged(f@, a, b),
        out.variables.len() == f.variables.len(),
{
    let mut variables: Vec<Variable> = Vec::new();
    let mut i: usize = 0;
    while i < f.variables.len()
        invariant
            i <= f.variables.len() <= u16::MAX,
            a < f.variables.len(),
            b < f.variables.len(),
            variables.len() == i,
            forall|j: int|
                0 <= j < i ==> (#[trigger] variables@[j])@ == exchanged(f@, a, b).vars[j],
        decreases f.variables.len() - i,
    {
        let from: u16 = types::swap_var(i as u16, a, b);
        variables.push(renumber(&f.variables[from as usize], a, b));
        i = i + 1;
    }
    assert(data::var_views(variables@) =~= exchanged(f@, a, b).vars);
    let mut renames: Vec<data::Rename> = Vec::new();
    let mut k: usize = 0;
    while k < f.renames.len()
        invariant
            k <= f.renames.len(),
            renames.len() == k,
            forall|j: int|
                0 <= j < k ==> (#[trigger] renames@[j]).name@ == f.renames@[j].name@
                    && renames@[j].var == types::swapped_var(f.renames@[j].var, a, b),
        decreases f.renames.len() - k,
    {
        renames.push(
            data::Rename {
                name: f.renames[k].name.clone(),
                var: types::swap_var(f.renames[k].var, a, b),
            },
        );
        k = k + 1;
    }
    assert(data::rename_views(renames@) =~= exchanged(f@, a, b).renames);
    Function {
        variables,
        renames,
        work_refs: f.work_refs,
        backings: f.backings,
        uniques: f.uniques,
    }
}

fn has_argument_after(f: &Function, v: u16) -> (r: bool)
    ensures
        r == argument_after(f@.vars, v),
{
    let mut a: usize = v as usize + 1;
    while a < f.variables.len()
        invariant
            v < a,
            forall|j: int| v < j < a && j < f.variables.len() ==> !(#[trigger] f@.vars[j]).argument,
        decreases f.variables.len() - a,
    {
        if f.variables[a].argument {
            assert(f@.vars[a as int].argument);
            return true;
        }
        a = a + 1;
    }
    false
}

/// Number local `v` after every argument; `None` when the last variable is an
/// argument itself.
pub fn move_after_arguments(frame: Frame, v: u16, db: u16) -> (r: Result<(Frame, u16, u16), Frame>)
    requires
        v < frame.vars.variables.len() <= u16::MAX,
        db < frame.vars.variables.len(),
    ensures
        match r {
            Ok((f, w, b)) => moved(frame@, v, db) == Some((f@, w, b)) && w
                < f.vars.variables.len() && b < f.vars.variables.len() && f.vars.variables.len()
                == frame.vars.variables.len(),
            Err(f) => moved(frame@, v, db) is None && f == frame,
        },
{
    if !has_argument_after(&frame.vars, v) {
        return Ok((frame, v, db));
    }
    let last: u16 = (frame.vars.variables.len() - 1) as u16;
    if last == v || frame.vars.variables[last as usize].argument {
        return Err(frame);
    }
    let Frame { code, vars, added } = frame;
    let out = Frame { code: code.swap_vars(v, last), vars: exchange(&vars, v, last), added };
    let backing: u16 = if db == last {
        v
    } else {
        db
    };
    Ok((out, last, backing))
}

/// What a declaration of `v` becomes: where the caller handed nothing in, what
/// the local held is released against `w` and the declaration runs as it stood;
/// otherwise the buffer is cleared.
pub open spec fn cleared(trio: Seq<ir::Node>, v: u16, w: u16, ops: Ops) -> ir::Node {
    ir::choice(
        ir::call(ops.ref_is_null, seq![ir::var(v)]),
        ir::insert(seq![ir::call(ops.free_if_distinct, seq![ir::var(v), ir::var(w)])] + trio),
        ir::insert(seq![ir::call(ops.clear, seq![ir::var(v)])]),
    )
}

/// The first position from `i` on at which a declaration of `v` stands.
pub open spec fn first_trio(s: Seq<ir::Node>, i: int, v: u16, db: u16, ops: Ops) -> Option<int>
    decreases s.len() - i,
{
    if i < 0 || i >= s.len() {
        None
    } else if is_trio(s, i, v, db, ops) {
        Some(i)
    } else {
        first_trio(s, i + 1, v, db, ops)
    }
}

/// The code with its first declaration of `v` replaced.
pub open spec fn replaced(n: ir::Node, v: u16, db: u16, w: u16, ops: Ops) -> Option<ir::Node>
    decreases n, 0int,
{
    let here = if n.head is Block || n.head is Loop {
        first_trio(n.kids, 0, v, db, ops)
    } else {
        None
    };
    match here {
        Some(i) => Some(
            ir::Node {
                head: n.head,
                kids: n.kids.take(i) + seq![cleared(n.kids.subrange(i, i + 3), v, w, ops)]
                    + n.kids.skip(i + 3),
            },
        ),
        None => match replaced_in(n.kids, 0, v, db, w, ops) {
            Some((j, kid)) => Some(ir::Node { head: n.head, kids: n.kids.update(j, kid) }),
            None => None,
        },
    }
}

/// The first of the nodes from `i` on that declares `v`, and what it becomes.
pub open spec fn replaced_in(
    s: Seq<ir::Node>,
    i: int,
    v: u16,
    db: u16,
    w: u16,
    ops: Ops,
) -> Option<(int, ir::Node)>
    decreases s, s.len() - i,
{
    if i < 0 || i >= s.len() {
        None
    } else {
        match replaced(s[i], v, db, w, ops) {
            Some(kid) => Some((i, kid)),
            None => replaced_in(s, i + 1, v, db, w, ops),
        }
    }
}

fn make_cleared(trio: Vec<Value>, v: u16, w: u16, ops: Ops) -> (out: Value)
    ensures
        out@ == cleared(ir::views(trio@), v, w, ops),
{
    let test: Value = ir::make_call(ops.ref_is_null, ir::list1(Value::Var(v)));
    let free: Value = ir::make_call(
        ops.free_if_distinct,
        ir::list2(Value::Var(v), Value::Var(w)),
    );
    let mut own: Vec<Value> = trio;
    ir::put_first(&mut own, free);
    let clear: Value = ir::make_call(ops.clear, ir::list1(Value::Var(v)));
    ir::make_choice(test, ir::make_insert(own), ir::make_insert(ir::list1(clear)))
}

fn find_trio(stmts: &Vec<Value>, v: u16, db: u16, ops: Ops) -> (at: Option<usize>)
    ensures
        match at {
            Some(i) => i + 3 <= stmts.len() && first_trio(ir::views(stmts@), 0, v, db, ops) == Some(
                i as int,
            ),
            None => first_trio(ir::views(stmts@), 0, v, db, ops) is None,
        },
{
    proof {
        ir::view_at(stmts@);
    }
    let mut i: usize = 0;
    while i < stmts.len()
        invariant
            i <= stmts.len(),
            ir::views(stmts@).len() == stmts.len(),
            first_trio(ir::views(stmts@), 0, v, db, ops) == first_trio(
                ir::views(stmts@),
                i as int,
                v,
                db,
                ops,
            ),
        decreases stmts.len() - i,
    {
        if trio_at(stmts, i, v, db, ops) {
            return Some(i);
        }
        i = i + 1;
    }
    None
}

/// The code with its first declaration of `v` replaced.
pub fn replace_trio(node: &Value, v: u16, db: u16, w: u16, ops: Ops) -> (out: Option<Value>)
    ensures
        match out {
            Some(x) => replaced(node@, v, db, w, ops) == Some(x@),
            None => replaced(node@, v, db, w, ops) is None,
        },
    decreases node,
{
    proof {
        ir::shape(*node);
    }
    match node {
        Value::Block(bl) | Value::Loop(bl) => {
            let stmts: &Vec<Value> = &bl.operators;
            match find_trio(stmts, v, db, ops) {
                Some(i) => {
                    let mut kids: Vec<Value> = ir::copy_range(stmts, 0, i);
                    let trio: Vec<Value> = ir::copy_range(stmts, i, i + 3);
                    ir::put(&mut kids, make_cleared(trio, v, w, ops));
                    ir::put_all(&mut kids, ir::copy_range(stmts, i + 3, stmts.len()));
                    let ghost s = ir::views(stmts@);
                    assert(ir::views(kids@) =~= s.take(i as int) + seq![
                        cleared(s.subrange(i as int, i + 3), v, w, ops),
                    ] + s.skip(i + 3));
                    let out: Value = match node {
                        Value::Block(_) => ir::make_block(bl.name.as_str(), kids, bl.result.copy()),
                        _ => ir::make_loop(bl.name.as_str(), kids, bl.result.copy()),
                    };
                    return Some(out);
                },
                None => {},
            }
        },
        _ => {},
    }
    let kids: Vec<&Value> = node.children();
    let mut i: usize = 0;
    while i < kids.len()
        invariant
            i <= kids.len(),
            kids.len() == node@.kids.len(),
            forall|j: int| 0 <= j < kids.len() ==> (#[trigger] kids@[j])@ == node@.kids[j],
            forall|j: int| 0 <= j < kids.len() ==> decreases_to!(*node => *#[trigger] kids@[j]),
            node@.head is Block || node@.head is Loop ==> first_trio(
                node@.kids,
                0,
                v,
                db,
                ops,
            ) is None,
            replaced_in(node@.kids, 0, v, db, w, ops) == replaced_in(
                node@.kids,
                i as int,
                v,
                db,
                w,
                ops,
            ),
        decreases kids.len() - i,
    {
        match replace_trio(kids[i], v, db, w, ops) {
            Some(kid) => {
                return Some(with_kid(node, i, kid));
            },
            None => {},
        }
        i = i + 1;
    }
    None
}

fn with_kid(node: &Value, at: usize, kid: Value) -> (out: Value)
    requires
        at < node@.kids.len(),
    ensures
        out@ == (ir::Node { head: node@.head, kids: node@.kids.update(at as int, kid@) }),
{
    let kids: Vec<&Value> = node.children();
    let mut out: Vec<Value> = Vec::new();
    let mut i: usize = 0;
    while i < at
        invariant
            i <= at < kids.len(),
            out.len() == i,
            kids.len() == node@.kids.len(),
            forall|j: int| 0 <= j < kids.len() ==> (#[trigger] kids@[j])@ == node@.kids[j],
            forall|j: int| 0 <= j < i ==> (#[trigger] out@[j])@ == node@.kids[j],
        decreases at - i,
    {
        out.push(kids[i].copy());
        i = i + 1;
    }
    out.push(kid);
    i = at + 1;
    while i < kids.len()
        invariant
            at < i <= kids.len(),
            out.len() == i,
            kids.len() == node@.kids.len(),
            forall|j: int| 0 <= j < kids.len() ==> (#[trigger] kids@[j])@ == node@.kids[j],
            forall|j: int|
                0 <= j < i ==> (#[trigger] out@[j])@ == if j == at {
                    kid@
                } else {
                    node@.kids[j]
                },
        decreases kids.len() - i,
    {
        out.push(kids[i].copy());
        i = i + 1;
    }
    assert(ir::views(out@) =~= node@.kids.update(at as int, kid@));
    node.rebuild(out)
}

/// How many statements from the start give some variable the null value.
pub open spec fn leading_nulls(s: Seq<ir::Node>, i: int) -> int
    decreases s.len() - i,
{
    if i < 0 || i >= s.len() {
        s.len() as int
    } else {
        let m = ir::unspan(s[i]);
        if m.head is Assign && m.kids.len() > 0 && ir::unspan(m.kids[0]).head is Null {
            leading_nulls(s, i + 1)
        } else {
            i
        }
    }
}

/// The body with what was handed in for `v` remembered in `w` at its entry.
pub open spec fn stashed(n: ir::Node, v: u16, w: u16, ops: Ops) -> ir::Node
    decreases n,
{
    if n.head is Span && n.kids.len() > 0 {
        ir::Node { head: n.head, kids: n.kids.update(0, stashed(n.kids[0], v, w, ops)) }
    } else if n.head is Block {
        let s = seq![ir::assign(w, ir::leaf(ir::Head::Null))] + n.kids;
        let at = leading_nulls(s, 0);
        ir::Node {
            head: n.head,
            kids: s.take(at) + seq![ir::call(ops.put_ref, seq![ir::var(w), ir::var(v)])] + s.skip(
                at,
            ),
        }
    } else {
        n
    }
}

fn is_any_null_init(node: &Value) -> (r: bool)
    ensures
        r == ({
            let m = ir::unspan(node@);
            m.head is Assign && m.kids.len() > 0 && ir::unspan(m.kids[0]).head is Null
        }),
{
    let m: &Value = node.unspan();
    match m {
        Value::Assign(_, rhs) => {
            assert(m@.kids[0] == rhs@);
            rhs.is_null()
        },
        _ => false,
    }
}

fn count_leading_nulls(stmts: &Vec<Value>) -> (at: usize)
    ensures
        at == leading_nulls(ir::views(stmts@), 0),
        at <= stmts.len(),
{
    proof {
        ir::view_at(stmts@);
    }
    let mut i: usize = 0;
    while i < stmts.len()
        invariant
            i <= stmts.len(),
            ir::views(stmts@).len() == stmts.len(),
            leading_nulls(ir::views(stmts@), 0) == leading_nulls(ir::views(stmts@), i as int),
        decreases stmts.len() - i,
    {
        if !is_any_null_init(&stmts[i]) {
            return i;
        }
        i = i + 1;
    }
    i
}

fn stash(node: &Value, v: u16, w: u16, ops: Ops) -> (out: Value)
    ensures
        out@ == stashed(node@, v, w, ops),
    decreases node,
{
    proof {
        ir::shape(*node);
    }
    match node {
        Value::Span(_, inner) => {
            assert(node@.kids[0] == inner@);
            with_kid(node, 0, stash(inner, v, w, ops))
        },
        Value::Block(bl) => {
            let mut stmts: Vec<Value> = ir::copy_all(&bl.operators);
            ir::put_first(&mut stmts, ir::make_assign(w, Value::Null));
            let ghost s = ir::views(stmts@);
            let at: usize = count_leading_nulls(&stmts);
            let mut kids: Vec<Value> = ir::copy_range(&stmts, 0, at);
            ir::put(
                &mut kids,
                ir::make_call(ops.put_ref, ir::list2(Value::Var(w), Value::Var(v))),
            );
            ir::put_all(&mut kids, ir::copy_range(&stmts, at, stmts.len()));
            assert(ir::views(kids@) =~= s.take(at as int) + seq![
                ir::call(ops.put_ref, seq![ir::var(w), ir::var(v)]),
            ] + s.skip(at as int));
            ir::make_block(bl.name.as_str(), kids, bl.result.copy())
        },
        _ => node.copy(),
    }
}

/// The variables once `v` has a witness of what was handed in for it, and that
/// witness.
#[verifier::opaque]
pub open spec fn witnessed(f: data::FnView, v: u16, tp: types::Ty) -> (data::FnView, u16) {
    match f.vars[v as int].rebind_orig {
        Some(w) => (f, w),
        None => {
            let w = f.vars.len() as u16;
            let g = data::minted(f, tp);
            let h = data::with_var(g, w, data::VarView { inline_ref: true, ..g.vars[w as int] });
            (
                data::with_var(
                    h,
                    v,
                    data::VarView { rebind_orig: Some(w), ..h.vars[v as int] },
                ),
                w,
            )
        },
    }
}

/// The variables after the promotion of `v`: it is an argument with a witness, and
/// its backing is never released on its own.
pub open spec fn promoted_vars(f: data::FnView, v: u16, db: u16, tp: types::Ty) -> (
    data::FnView,
    u16,
) {
    let f1 = data::with_var(f, v, data::VarView { argument: true, ..f.vars[v as int] });
    let (f2, w) = witnessed(f1, v, tp);
    (unreleased(f2, db), w)
}

/// The variables once `db` is never released on its own.
#[verifier::opaque]
pub open spec fn unreleased(f: data::FnView, db: u16) -> data::FnView {
    let g = data::with_var(f, db, data::VarView { skip_free: true, ..f.vars[db as int] });
    data::with_var(g, db, data::VarView { inline_ref: true, ..g.vars[db as int] })
}

/// The function after the promotion of local `v`, backed by `db`.
pub open spec fn promoted(f: FrameView, v: u16, db: u16, ops: Ops) -> FrameView {
    match types::base(f.vars.vars[v as int].tp) {
        types::Ty::Vector(elem, _) => {
            let tp = types::Ty::Vector(elem, types::no_deps());
            let (vars, w) = promoted_vars(f.vars, v, db, tp);
            let code = match replaced(f.code, v, db, w, ops) {
                Some(n) => n,
                None => f.code,
            };
            FrameView {
                code: stashed(code, v, w, ops),
                vars,
                added: f.added.push(
                    data::AttrView {
                        name: f.vars.vars[v as int].name,
                        typedef: tp,
                        hidden: true,
                        nullable: true,
                        work_buffer: true,
                    },
                ),
            }
        },
        _ => f,
    }
}

fn ensure_rebind_witness(f: &mut Function, v: u16, tp: Type) -> (w: u16)
    requires
        v < old(f).variables.len() < u16::MAX,
    ensures
        (final(f)@, w) == witnessed(old(f)@, v, tp@),
        final(f).variables.len() >= old(f).variables.len(),
{
    proof {
        reveal(witnessed);
    }
    match f.variables[v as usize].rebind_orig {
        Some(w) => w,
        None => {
            let w: u16 = f.mint(tp);
            f.mark_inline_ref(w);
            f.set_rebind_orig(v, w);
            w
        },
    }
}

fn promote_vars(f: &mut Function, v: u16, db: u16, tp: Type) -> (w: u16)
    requires
        v < old(f).variables.len() < u16::MAX,
        db < old(f).variables.len(),
    ensures
        (final(f)@, w) == promoted_vars(old(f)@, v, db, tp@),
{
    proof {
        reveal(unreleased);
    }
    f.become_argument(v);
    let w: u16 = ensure_rebind_witness(f, v, tp);
    f.set_skip_free(db);
    f.mark_inline_ref(db);
    w
}

/// Promote local `v`, backed by `db`, to a parameter that the caller supplies.
pub fn promote_one(frame: Frame, v: u16, db: u16, ops: Ops) -> (out: Frame)
    requires
        v < frame.vars.variables.len() < u16::MAX,
        db < frame.vars.variables.len(),
    ensures
        out@ == promoted(frame@, v, db, ops),
{
    let elem: Type = match frame.vars.variables[v as usize].tp.base() {
        Type::Vector(elem, _) => elem.copy(),
        _ => {
            return frame;
        },
    };
    let ghost was = frame@;
    let Frame { code, vars, added } = frame;
    let mut vars = vars;
    let mut added = added;
    let attr = Attribute {
        name: vars.variables[v as usize].name.clone(),
        typedef: Type::Vector(Box::new(elem.copy()), Deps::none()),
        hidden: true,
        nullable: true,
        work_buffer: true,
    };
    let ghost attr_view = attr@;
    added.push(attr);
    assert(data::attr_views(added@) =~= was.added.push(attr_view));
    let tp = Type::Vector(Box::new(elem), Deps::none());
    let w: u16 = promote_vars(&mut vars, v, db, tp);
    let code: Value = match replace_trio(&code, v, db, w, ops) {
        Some(n) => n,
        None => code,
    };
    Frame { code: stash(&code, v, w, ops), vars, added }
}

/// The function after local `v` has been considered.
pub open spec fn considered(
    defs: Seq<Definition>,
    f: FrameView,
    ops: Ops,
    dead: Seq<u16>,
    v: u16,
) -> FrameView {
    match candidate(f.vars.vars, v) {
        None => f,
        Some(db) => if dead.contains(v) || admission(defs, f.vars.vars, f.code, ops, v, db) is Err
            || f.vars.vars.len() >= u16::MAX {
            f
        } else {
            match moved(f, v, db) {
                None => f,
                Some((g, w, b)) => promoted(g, w, b, ops),
            }
        },
    }
}

/// The function after the first `k` of its variables have been considered.
pub open spec fn considered_all(
    defs: Seq<Definition>,
    f: FrameView,
    ops: Ops,
    dead: Seq<u16>,
    k: int,
) -> FrameView
    decreases k,
{
    if k <= 0 {
        f
    } else {
        considered(
            defs,
            considered_all(defs, f, ops, dead, k - 1),
            ops,
            dead,
            (k - 1) as u16,
        )
    }
}

fn consider(data: &Data, frame: Frame, ops: Ops, dead: &Vec<u16>, v: u16) -> (out: Frame)
    ensures
        out@ == considered(data.definitions@, frame@, ops, dead@, v),
{
    let db: u16 = match work_buffer_candidate(&frame.vars, v) {
        Some(db) => db,
        None => {
            return frame;
        },
    };
    if types::has_var(dead, v) {
        return frame;
    }
    match admit_local(data, &frame.vars, &frame.code, ops, v, db) {
        Ok(_) => {},
        Err(_) => {
            return frame;
        },
    }
    if frame.vars.variables.len() >= u16::MAX as usize {
        return frame;
    }
    match move_after_arguments(frame, v, db) {
        Ok((g, w, b)) => promote_one(g, w, b, ops),
        Err(g) => g,
    }
}

/// Promote the locals of one function.  `dead` lists the locals that are written
/// and never read, which keep their stores.
pub fn promote_work_buffers_in(data: &Data, d: u32, ops: Ops, dead: &Vec<u16>) -> (out: Frame)
    requires
        d < data.definitions.len(),
        data.definitions@[d as int].variables.variables.len() <= u16::MAX,
    ensures
        out@ == considered_all(
            data.definitions@,
            (FrameView {
                code: data.definitions@[d as int].code@,
                vars: data.definitions@[d as int].variables@,
                added: Seq::empty(),
            }),
            ops,
            dead@,
            data.definitions@[d as int].variables.variables.len() as int,
        ),
{
    let def: &Definition = &data.definitions[d as usize];
    let n: usize = def.variables.variables.len();
    let mut frame = Frame {
        code: def.code.copy(),
        vars: def.variables.copy(),
        added: Vec::new(),
    };
    let ghost first = frame@;
    assert(first.added =~= Seq::<data::AttrView>::empty());
    let mut v: usize = 0;
    while v < n
        invariant
            v <= n <= u16::MAX,
            frame@ == considered_all(data.definitions@, first, ops, dead@, v as int),
        decreases n - v,
    {
        frame = consider(data, frame, ops, dead, v as u16);
        v = v + 1;
    }
    frame
}

/// The types of the parameters of a list.
pub open spec fn attr_types(attrs: Seq<data::AttrView>) -> Seq<types::Ty> {
    Seq::new(attrs.len(), |i: int| attrs[i].typedef)
}

/// The types of the parameters of every definition.
pub open spec fn signatures(defs: Seq<Definition>) -> Seq<Seq<types::Ty>> {
    Seq::new(defs.len(), |d: int| attr_types(data::attr_views(defs[d].attributes@)))
}

/// The types of the buffers that a call of definition `d` with `n` operands does
/// not carry yet.
pub open spec fn lacking(
    sigs: Seq<Seq<types::Ty>>,
    callees: Seq<u32>,
    d: u32,
    n: nat,
) -> Seq<types::Ty> {
    if callees.contains(d) && d < sigs.len() && n < sigs[d as int].len() {
        sigs[d as int].skip(n as int)
    } else {
        Seq::empty()
    }
}

/// The code with a buffer behind every call that lacks one, and the types of the
/// buffers; `new` holds those of the code before it, and the variables from `base`
/// on stand for them.
pub open spec fn patched(
    sigs: Seq<Seq<types::Ty>>,
    callees: Seq<u32>,
    base: int,
    n: ir::Node,
    new: Seq<types::Ty>,
) -> (ir::Node, Seq<types::Ty>)
    decreases n, 0int,
{
    let (kids, below) = patched_kids(sigs, callees, base, n.kids, n.kids.len() as int, new);
    match n.head {
        ir::Head::Call(d) => {
            let more = lacking(sigs, callees, d, n.kids.len());
            (
                ir::Node { head: n.head, kids: kids + buffers(base + below.len(), more.len()) },
                below + more,
            )
        },
        _ => (ir::Node { head: n.head, kids }, below),
    }
}

/// The variables from `from` on.
pub open spec fn buffers(from: int, n: nat) -> Seq<ir::Node> {
    Seq::new(n, |i: int| ir::var((from + i) as u16))
}

/// The first `k` nodes with a buffer behind every call that lacks one.
pub open spec fn patched_kids(
    sigs: Seq<Seq<types::Ty>>,
    callees: Seq<u32>,
    base: int,
    s: Seq<ir::Node>,
    k: int,
    new: Seq<types::Ty>,
) -> (Seq<ir::Node>, Seq<types::Ty>)
    decreases s, k,
{
    if k <= 0 || k > s.len() {
        (Seq::empty(), new)
    } else {
        let (done, before) = patched_kids(sigs, callees, base, s, k - 1, new);
        let (kid, after) = patched(sigs, callees, base, s[k - 1], before);
        (done.push(kid), after)
    }
}

pub(crate) proof fn patching_adds(
    sigs: Seq<Seq<types::Ty>>,
    callees: Seq<u32>,
    base: int,
    n: ir::Node,
    new: Seq<types::Ty>,
)
    ensures
        patched(sigs, callees, base, n, new).1.len() >= new.len(),
    decreases n, 0int,
{
    patching_kids_adds(sigs, callees, base, n.kids, n.kids.len() as int, 0, new);
}

pub(crate) proof fn patching_kids_adds(
    sigs: Seq<Seq<types::Ty>>,
    callees: Seq<u32>,
    base: int,
    s: Seq<ir::Node>,
    k: int,
    j: int,
    new: Seq<types::Ty>,
)
    requires
        0 <= j <= k <= s.len(),
    ensures
        patched_kids(sigs, callees, base, s, k, new).1.len() >= patched_kids(
            sigs,
            callees,
            base,
            s,
            j,
            new,
        ).1.len(),
    decreases s, k,
{
    if j < k {
        patching_kids_adds(sigs, callees, base, s, k - 1, j, new);
        let before = patched_kids(sigs, callees, base, s, k - 1, new).1;
        patching_adds(sigs, callees, base, s[k - 1], before);
    }
}

fn push_buffers(
    attrs: &Vec<Attribute>,
    base: usize,
    kids: &mut Vec<Value>,
    from: usize,
    new: &mut Vec<Type>,
) -> (fits: bool)
    requires
        base + old(new).len() <= u16::MAX,
        from <= attrs.len(),
    ensures
        fits == (base + old(new).len() + attrs.len() - from <= u16::MAX),
        fits ==> types::type_views(final(new)@) == types::type_views(old(new)@) + attr_types(
            data::attr_views(attrs@),
        ).skip(from as int),
        fits ==> ir::views(final(kids)@) == ir::views(old(kids)@) + buffers(
            base + old(new).len(),
            (attrs.len() - from) as nat,
        ),
        fits ==> final(new).len() == old(new).len() + attrs.len() - from,
{
    let ghost tys = attr_types(data::attr_views(attrs@));
    let ghost kids0 = ir::views(kids@);
    let ghost new0 = types::type_views(new@);
    let start: usize = new.len();
    if attrs.len() - from > u16::MAX as usize - base - start {
        return false;
    }
    let mut i: usize = from;
    assert(new0 + tys.subrange(from as int, from as int) =~= new0);
    assert(kids0 + buffers(base + start, 0) =~= kids0);
    while i < attrs.len()
        invariant
            from <= i <= attrs.len(),
            base + start + attrs.len() - from <= u16::MAX,
            new.len() == start + i - from,
            tys == attr_types(data::attr_views(attrs@)),
            types::type_views(new@) == new0 + tys.subrange(from as int, i as int),
            ir::views(kids@) == kids0 + buffers(base + start, (i - from) as nat),
        decreases attrs.len() - i,
    {
        let x: u16 = (base + new.len()) as u16;
        ir::put(kids, Value::Var(x));
        assert(kids0 + buffers(base + start, (i + 1 - from) as nat) =~= (kids0 + buffers(
            base + start,
            (i - from) as nat,
        )).push(ir::var(x)));
        let ghost before = new@;
        let tp: Type = attrs[i].typedef.copy();
        new.push(tp);
        assert(types::type_views(new@) =~= types::type_views(before).push(tp@));
        assert(new0 + tys.subrange(from as int, i + 1) =~= (new0 + tys.subrange(
            from as int,
            i as int,
        )).push(tys[i as int]));
        i = i + 1;
    }
    assert(tys.subrange(from as int, i as int) =~= tys.skip(from as int));
    true
}

fn patch_call(
    data: &Data,
    callees: &Vec<u32>,
    base: usize,
    node: &Value,
    new: &mut Vec<Type>,
) -> (out: Option<Value>)
    requires
        base + old(new).len() <= u16::MAX,
    ensures
        match out {
            Some(v) => (v@, types::type_views(final(new)@)) == patched(
                signatures(data.definitions@),
                callees@,
                base as int,
                node@,
                types::type_views(old(new)@),
            ) && base + final(new).len() <= u16::MAX,
            None => base + patched(
                signatures(data.definitions@),
                callees@,
                base as int,
                node@,
                types::type_views(old(new)@),
            ).1.len() > u16::MAX,
        },
    decreases node,
{
    let ghost sigs = signatures(data.definitions@);
    let ghost new0 = types::type_views(new@);
    let kids: Vec<&Value> = node.children();
    let mut out: Vec<Value> = Vec::new();
    let mut i: usize = 0;
    assert(ir::views(out@) =~= Seq::<ir::Node>::empty());
    while i < kids.len()
        invariant
            i <= kids.len(),
            sigs == signatures(data.definitions@),
            new0 == types::type_views(old(new)@),
            kids.len() == node@.kids.len(),
            out.len() == i,
            forall|j: int| 0 <= j < kids.len() ==> (#[trigger] kids@[j])@ == node@.kids[j],
            forall|j: int| 0 <= j < kids.len() ==> decreases_to!(*node => *#[trigger] kids@[j]),
            base + new.len() <= u16::MAX,
            (ir::views(out@), types::type_views(new@)) == patched_kids(
                sigs,
                callees@,
                base as int,
                node@.kids,
                i as int,
                new0,
            ),
        decreases kids.len() - i,
    {
        let kid: Value = match patch_call(data, callees, base, kids[i], new) {
            Some(kid) => kid,
            None => {
                proof {
                    patching_kids_adds(
                        sigs,
                        callees@,
                        base as int,
                        node@.kids,
                        node@.kids.len() as int,
                        i + 1,
                        new0,
                    );
                }
                return None;
            },
        };
        ir::put(&mut out, kid);
        i = i + 1;
    }
    proof {
        ir::shape(*node);
        ir::view_at(out@);
        assert(ir::views(out@) + buffers(base + new.len(), 0) =~= ir::views(out@));
        assert(types::type_views(new@) + Seq::<types::Ty>::empty() =~= types::type_views(new@));
    }
    match node {
        Value::Call(d, _) => {
            if has_def(callees, *d) && (*d as usize) < data.definitions.len() && kids.len()
                < data.definitions[*d as usize].attributes.len() {
                if !push_buffers(
                    &data.definitions[*d as usize].attributes,
                    base,
                    &mut out,
                    kids.len(),
                    new,
                ) {
                    return None;
                }
            }
            Some(ir::make_call(*d, out))
        },
        _ => Some(node.rebuild(out)),
    }
}

/// The variables with one more buffer of a type; `mark` tells whether it is
/// marked as one.
pub open spec fn buffered(f: data::FnView, tp: types::Ty, mark: bool) -> data::FnView {
    let w = f.vars.len() as u16;
    let g = data::minted(f, tp);
    if mark {
        data::with_var(g, w, data::VarView { work_buffer_ref: true, ..g.vars[w as int] })
    } else {
        g
    }
}

/// The variables with a buffer for each of the first `k` types.
pub open spec fn buffered_all(
    f: data::FnView,
    new: Seq<types::Ty>,
    k: int,
    mark: bool,
) -> data::FnView
    decreases k,
{
    if k <= 0 {
        f
    } else {
        buffered(buffered_all(f, new, k - 1, mark), new[k - 1], mark)
    }
}

/// The null initialisations of `k` variables from `base` on, the last one first.
pub open spec fn inits(base: int, k: int) -> Seq<ir::Node>
    decreases k,
{
    if k <= 0 {
        Seq::empty()
    } else {
        seq![ir::assign((base + k - 1) as u16, ir::leaf(ir::Head::Null))] + inits(base, k - 1)
    }
}

/// The body with `k` variables from `base` on initialised at its start.
pub open spec fn initialised(n: ir::Node, base: int, k: int) -> ir::Node
    decreases n,
{
    if n.head is Span && n.kids.len() > 0 {
        ir::Node { head: n.head, kids: n.kids.update(0, initialised(n.kids[0], base, k)) }
    } else if n.head is Block {
        ir::Node { head: n.head, kids: inits(base, k) + n.kids }
    } else {
        n
    }
}

/// The types of the buffers that the calls of a function lack.
pub open spec fn lacked(
    sigs: Seq<Seq<types::Ty>>,
    callees: Seq<u32>,
    f: FrameView,
) -> Seq<types::Ty> {
    patched(sigs, callees, f.vars.vars.len() as int, f.code, Seq::empty()).1
}

/// Whether the variables of a function have numbers left for the buffers that its
/// calls lack.
pub open spec fn has_room(sigs: Seq<Seq<types::Ty>>, callees: Seq<u32>, f: FrameView) -> bool {
    f.vars.vars.len() + lacked(sigs, callees, f).len() <= u16::MAX
}

/// The function with its calls carrying their buffers.
pub open spec fn supplied(sigs: Seq<Seq<types::Ty>>, callees: Seq<u32>, f: FrameView) -> FrameView {
    let base = f.vars.vars.len() as int;
    let (code, new) = patched(sigs, callees, base, f.code, Seq::empty());
    if new.len() == 0 || !has_room(sigs, callees, f) {
        f
    } else {
        FrameView {
            code: initialised(code, base, new.len() as int),
            vars: buffered_all(f.vars, new, new.len() as int, ir::unspan(code).head is Block),
            added: f.added,
        }
    }
}

fn initialise(node: &Value, base: usize, k: usize) -> (out: Value)
    requires
        base + k <= u16::MAX,
    ensures
        out@ == initialised(node@, base as int, k as int),
    decreases node,
{
    proof {
        ir::shape(*node);
    }
    match node {
        Value::Span(_, inner) => {
            assert(node@.kids[0] == inner@);
            with_kid(node, 0, initialise(inner, base, k))
        },
        Value::Block(bl) => {
            let mut stmts: Vec<Value> = ir::copy_all(&bl.operators);
            let ghost was = ir::views(stmts@);
            let mut i: usize = 0;
            assert(inits(base as int, 0) + was =~= was);
            while i < k
                invariant
                    i <= k,
                    base + k <= u16::MAX,
                    ir::views(stmts@) == inits(base as int, i as int) + was,
                decreases k - i,
            {
                ir::put_first(&mut stmts, ir::make_assign((base + i) as u16, Value::Null));
                i = i + 1;
                assert(ir::views(stmts@) =~= inits(base as int, i as int) + was);
            }
            ir::make_block(bl.name.as_str(), stmts, bl.result.copy())
        },
        _ => node.copy(),
    }
}

fn add_buffers(f: &mut Function, new: &Vec<Type>, mark: bool)
    requires
        old(f).variables.len() + new.len() <= u16::MAX,
    ensures
        final(f)@ == buffered_all(old(f)@, types::type_views(new@), new.len() as int, mark),
{
    let ghost was = f@;
    let n: usize = f.variables.len();
    let mut i: usize = 0;
    while i < new.len()
        invariant
            i <= new.len(),
            n + new.len() <= u16::MAX,
            f.variables.len() == n + i,
            f@ == buffered_all(was, types::type_views(new@), i as int, mark),
        decreases new.len() - i,
    {
        let w: u16 = f.mint(new[i].copy());
        if mark {
            f.mark_work_buffer_ref(w);
        }
        i = i + 1;
    }
}

/// Make the calls of definition `c` carry the buffers of the callees; `None` when
/// they carry them all, an error when its variables have no numbers left.
pub fn patch_work_buffer_caller(data: &Data, callees: &Vec<u32>, c: u32) -> (r: Result<
    Option<Frame>,
    (),
>)
    requires
        c < data.definitions.len(),
        data.definitions@[c as int].variables.variables.len() <= u16::MAX,
    ensures
        ({
            let f = first_frame(data.definitions@[c as int]);
            let sigs = signatures(data.definitions@);
            match r {
                Ok(Some(g)) => g@ == supplied(sigs, callees@, f),
                Ok(None) => supplied(sigs, callees@, f) == f,
                Err(_) => supplied(sigs, callees@, f) == f,
            }
        }),
        r is Err <==> !has_room(
            signatures(data.definitions@),
            callees@,
            first_frame(data.definitions@[c as int]),
        ),
{
    let def: &Definition = &data.definitions[c as usize];
    let base: usize = def.variables.variables.len();
    let mut new: Vec<Type> = Vec::new();
    assert(types::type_views(new@) =~= Seq::<types::Ty>::empty());
    let code: Value = match patch_call(data, callees, base, &def.code, &mut new) {
        Some(code) => code,
        None => {
            return Err(());
        },
    };
    if new.len() == 0 {
        return Ok(None);
    }
    let body: &Value = code.unspan();
    proof {
        ir::shape(*body);
    }
    let mark: bool = match body {
        Value::Block(_) => true,
        _ => false,
    };
    let mut vars: Function = def.variables.copy();
    assert(vars.variables.len() == vars@.vars.len());
    add_buffers(&mut vars, &new, mark);
    let frame = Frame { code: initialise(&code, base, new.len()), vars, added: Vec::new() };
    assert(frame@.added =~= Seq::<data::AttrView>::empty());
    Ok(Some(frame))
}

/// A function before anything is changed of it.
pub open spec fn first_frame(def: Definition) -> FrameView {
    FrameView { code: def.code@, vars: def.variables@, added: Seq::empty() }
}

/// The locals of definition `d` that are written and never read.
pub open spec fn dead_of(dead: Seq<Vec<u16>>, d: int) -> Seq<u16> {
    if 0 <= d < dead.len() {
        dead[d]@
    } else {
        Seq::empty()
    }
}

/// Definition `d` once its locals have been considered.
pub open spec fn own_part(
    defs: Seq<Definition>,
    ops: Ops,
    dead: Seq<Vec<u16>>,
    d: int,
) -> FrameView {
    if declined(defs[d], address_taken(defs, d as u32)) is Some {
        first_frame(defs[d])
    } else {
        considered_all(
            defs,
            first_frame(defs[d]),
            ops,
            dead_of(dead, d),
            defs[d].variables.variables.len() as int,
        )
    }
}

/// The first `k` definitions of which a local was promoted.
pub open spec fn with_buffers(
    defs: Seq<Definition>,
    ops: Ops,
    dead: Seq<Vec<u16>>,
    k: int,
) -> Seq<u32>
    decreases k,
{
    if k <= 0 {
        Seq::empty()
    } else {
        let before = with_buffers(defs, ops, dead, k - 1);
        if own_part(defs, ops, dead, k - 1).added.len() > 0 {
            before.push((k - 1) as u32)
        } else {
            before
        }
    }
}

/// A definition that differs from another in what a promotion changes.
pub open spec fn installed(before: Definition, after: Definition, f: FrameView) -> bool {
    &&& after == (Definition {
        code: after.code,
        variables: after.variables,
        attributes: after.attributes,
        ..before
    })
    &&& after.code@ == f.code
    &&& after.variables@ == f.vars
    &&& data::attr_views(after.attributes@) == data::attr_views(before.attributes@) + f.added
}

fn install(data: &mut Data, d: usize, frame: Frame)
    requires
        d < old(data).definitions.len(),
    ensures
        final(data).definitions.len() == old(data).definitions.len(),
        installed(old(data).definitions@[d as int], final(data).definitions@[d as int], frame@),
        forall|j: int|
            0 <= j < old(data).definitions.len() && j != d
                ==> #[trigger] final(data).definitions@[j] == old(data).definitions@[j],
{
    let Frame { code, vars, added } = frame;
    let ghost attrs = data.definitions@[d as int].attributes@;
    let mut added = added;
    let ghost more = added@;
    data.definitions[d].code = code;
    data.definitions[d].variables = vars;
    data.definitions[d].attributes.append(&mut added);
    assert(data.definitions@[d as int].attributes@ =~= attrs + more);
    assert(data::attr_views(attrs + more) =~= data::attr_views(attrs) + data::attr_views(more));
}

/// What the pass over all definitions did.
#[derive(Debug)]
pub struct Outcome {
    /// The definitions of which a local was promoted.
    pub promoted: Vec<u32>,
    /// The callers that have no variable numbers left for the buffers.
    pub full: Vec<u32>,
}

/// The first `k` definitions after both parts of the pass.
pub open spec fn whole(
    defs: Seq<Definition>,
    ops: Ops,
    dead: Seq<Vec<u16>>,
    d: int,
) -> FrameView {
    supplied(
        widened(defs, ops, dead),
        with_buffers(defs, ops, dead, defs.len() as int),
        own_part(defs, ops, dead, d),
    )
}

/// The types of the parameters of every definition once the buffers are added.
pub open spec fn widened(defs: Seq<Definition>, ops: Ops, dead: Seq<Vec<u16>>) -> Seq<
    Seq<types::Ty>,
> {
    Seq::new(
        defs.len(),
        |d: int|
            attr_types(
                data::attr_views(defs[d].attributes@) + own_part(defs, ops, dead, d).added,
            ),
    )
}

/// The callers among the first `k` definitions that have no numbers left.
pub open spec fn without_room(
    defs: Seq<Definition>,
    ops: Ops,
    dead: Seq<Vec<u16>>,
    k: int,
) -> Seq<u32>
    decreases k,
{
    if k <= 0 {
        Seq::empty()
    } else {
        let before = without_room(defs, ops, dead, k - 1);
        if has_room(
            widened(defs, ops, dead),
            with_buffers(defs, ops, dead, defs.len() as int),
            own_part(defs, ops, dead, k - 1),
        ) {
            before
        } else {
            before.push((k - 1) as u32)
        }
    }
}

proof fn promotion_adds_at_most_one(f: data::FnView, v: u16, db: u16, tp: types::Ty)
    requires
        v < f.vars.len() < u16::MAX,
        db < f.vars.len(),
    ensures
        promoted_vars(f, v, db, tp).0.vars.len() <= f.vars.len() + 1,
{
    reveal(witnessed);
    reveal(unreleased);
}

proof fn moving_adds_none(f: FrameView, v: u16, db: u16)
    requires
        v < f.vars.vars.len() <= u16::MAX,
        db < f.vars.vars.len(),
    ensures
        moved(f, v, db) matches Some((g, w, b)) ==> g.vars.vars.len() == f.vars.vars.len() && w
            < f.vars.vars.len() && b < f.vars.vars.len(),
{
}

proof fn considering_once_stays_numbered(
    defs: Seq<Definition>,
    f: FrameView,
    ops: Ops,
    dead: Seq<u16>,
    v: u16,
)
    requires
        f.vars.vars.len() <= u16::MAX,
    ensures
        considered(defs, f, ops, dead, v).vars.vars.len() <= u16::MAX,
{
    match candidate(f.vars.vars, v) {
        Some(db) => {
            moving_adds_none(f, v, db);
            match moved(f, v, db) {
                Some((g, w, b)) if f.vars.vars.len() < u16::MAX => {
                    match types::base(g.vars.vars[w as int].tp) {
                        types::Ty::Vector(elem, _) => {
                            promotion_adds_at_most_one(
                                g.vars,
                                w,
                                b,
                                types::Ty::Vector(elem, types::no_deps()),
                            );
                        },
                        _ => {},
                    }
                },
                _ => {},
            }
        },
        None => {},
    }
}

/// The variables of a function never outgrow their numbers.
proof fn considering_stays_numbered(
    defs: Seq<Definition>,
    f: FrameView,
    ops: Ops,
    dead: Seq<u16>,
    k: int,
)
    requires
        f.vars.vars.len() <= u16::MAX,
    ensures
        considered_all(defs, f, ops, dead, k).vars.vars.len() <= u16::MAX,
    decreases k,
{
    if k > 0 {
        considering_stays_numbered(defs, f, ops, dead, k - 1);
        considering_once_stays_numbered(
            defs,
            considered_all(defs, f, ops, dead, k - 1),
            ops,
            dead,
            (k - 1) as u16,
        );
    }
}

fn own_parts(data: &Data, ops: Ops, dead: &Vec<Vec<u16>>) -> (r: (Vec<Option<Frame>>, Vec<u32>))
    requires
        data.definitions.len() <= u32::MAX,
        forall|d: int|
            0 <= d < data.definitions.len() ==> (#[trigger] data.definitions@[d]).variables.variables.len()
                <= u16::MAX,
    ensures
        r.0.len() == data.definitions.len(),
        forall|d: int|
            0 <= d < data.definitions.len() ==> match #[trigger] r.0@[d] {
                Some(f) => f@ == own_part(data.definitions@, ops, dead@, d),
                None => own_part(data.definitions@, ops, dead@, d) == first_frame(
                    data.definitions@[d],
                ),
            },
        r.1@ == with_buffers(data.definitions@, ops, dead@, data.definitions.len() as int),
{
    let ghost defs = data.definitions@;
    let taken: Vec<u32> = address_taken_defs(data);
    let none: Vec<u16> = Vec::new();
    let mut parts: Vec<Option<Frame>> = Vec::new();
    let mut promoted: Vec<u32> = Vec::new();
    let mut d: usize = 0;
    assert(promoted@ =~= with_buffers(defs, ops, dead@, 0));
    while d < data.definitions.len()
        invariant
            d <= data.definitions.len() <= u32::MAX,
            defs == data.definitions@,
            none@ == Seq::<u16>::empty(),
            forall|f: u32| #[trigger] taken@.contains(f) <==> address_taken(defs, f),
            forall|j: int|
                0 <= j < data.definitions.len() ==> (#[trigger] defs[j]).variables.variables.len()
                    <= u16::MAX,
            parts.len() == d,
            forall|j: int|
                0 <= j < d ==> match #[trigger] parts@[j] {
                    Some(f) => f@ == own_part(defs, ops, dead@, j),
                    None => own_part(defs, ops, dead@, j) == first_frame(defs[j]),
                },
            promoted@ == with_buffers(defs, ops, dead@, d as int),
        decreases data.definitions.len() - d,
    {
        let is_taken: bool = has_def(&taken, d as u32);
        match work_buffer_def_decline(&data.definitions[d], is_taken) {
            Some(_) => {
                parts.push(None);
            },
            None => {
                let part: Frame = promote_work_buffers_in(
                    data,
                    d as u32,
                    ops,
                    if d < dead.len() {
                        &dead[d]
                    } else {
                        &none
                    },
                );
                assert(part@.added.len() == part.added.len());
                if part.added.len() > 0 {
                    promoted.push(d as u32);
                }
                parts.push(Some(part));
            },
        }
        d = d + 1;
    }
    (parts, promoted)
}

fn install_all(data: &mut Data, parts: Vec<Option<Frame>>)
    requires
        parts.len() == old(data).definitions.len(),
    ensures
        final(data).definitions.len() == old(data).definitions.len(),
        forall|d: int|
            0 <= d < parts.len() ==> match #[trigger] parts@[d] {
                Some(f) => installed(old(data).definitions@[d], final(data).definitions@[d], f@),
                None => final(data).definitions@[d] == old(data).definitions@[d],
            },
{
    let ghost all = parts@;
    let ghost first = data.definitions@;
    let mut parts = parts;
    while parts.len() > 0
        invariant
            parts.len() <= all.len(),
            all.len() == first.len(),
            data.definitions.len() == first.len(),
            parts@ == all.take(parts.len() as int),
            forall|d: int|
                0 <= d < parts.len() ==> #[trigger] data.definitions@[d] == first[d],
            forall|d: int|
                parts.len() <= d < all.len() ==> match #[trigger] all[d] {
                    Some(f) => installed(first[d], data.definitions@[d], f@),
                    None => data.definitions@[d] == first[d],
                },
        decreases parts.len(),
    {
        let ghost n = parts.len();
        let part: Option<Frame> = parts.pop().unwrap();
        assert(part == all[n - 1]);
        assert(parts@ =~= all.take(n - 1));
        let d: usize = parts.len();
        match part {
            Some(frame) => {
                install(data, d, frame);
            },
            None => {},
        }
    }
}

fn callers(data: &Data, callees: &Vec<u32>) -> (r: (Vec<Option<Frame>>, Vec<u32>))
    requires
        data.definitions.len() <= u32::MAX,
        forall|d: int|
            0 <= d < data.definitions.len() ==> (#[trigger] data.definitions@[d]).variables.variables.len()
                <= u16::MAX,
    ensures
        r.0.len() == data.definitions.len(),
        forall|d: int|
            0 <= d < data.definitions.len() ==> match #[trigger] r.0@[d] {
                Some(f) => f@ == supplied(
                    signatures(data.definitions@),
                    callees@,
                    first_frame(data.definitions@[d]),
                ),
                None => supplied(
                    signatures(data.definitions@),
                    callees@,
                    first_frame(data.definitions@[d]),
                ) == first_frame(data.definitions@[d]),
            },
        r.1@ == roomless(data.definitions@, callees@, data.definitions.len() as int),
{
    let ghost defs = data.definitions@;
    let mut parts: Vec<Option<Frame>> = Vec::new();
    let mut full: Vec<u32> = Vec::new();
    let mut c: usize = 0;
    assert(full@ =~= roomless(defs, callees@, 0));
    while c < data.definitions.len()
        invariant
            c <= data.definitions.len() <= u32::MAX,
            defs == data.definitions@,
            forall|j: int|
                0 <= j < data.definitions.len() ==> (#[trigger] defs[j]).variables.variables.len()
                    <= u16::MAX,
            parts.len() == c,
            forall|j: int|
                0 <= j < c ==> match #[trigger] parts@[j] {
                    Some(f) => f@ == supplied(signatures(defs), callees@, first_frame(defs[j])),
                    None => supplied(signatures(defs), callees@, first_frame(defs[j]))
                        == first_frame(defs[j]),
                },
            full@ == roomless(defs, callees@, c as int),
        decreases data.definitions.len() - c,
    {
        match patch_work_buffer_caller(data, callees, c as u32) {
            Ok(part) => {
                parts.push(part);
            },
            Err(_) => {
                full.push(c as u32);
                parts.push(None);
            },
        }
        c = c + 1;
    }
    (parts, full)
}

/// The first `k` definitions whose variables have no numbers left.
pub open spec fn roomless(defs: Seq<Definition>, callees: Seq<u32>, k: int) -> Seq<u32>
    decreases k,
{
    if k <= 0 {
        Seq::empty()
    } else {
        let before = roomless(defs, callees, k - 1);
        if has_room(signatures(defs), callees, first_frame(defs[k - 1])) {
            before
        } else {
            before.push((k - 1) as u32)
        }
    }
}

/// Supplying a function does not look at the parameters that were added to it.
proof fn supply_ignores_added(
    sigs: Seq<Seq<types::Ty>>,
    callees: Seq<u32>,
    f: FrameView,
    added: Seq<data::AttrView>,
)
    ensures
        supplied(sigs, callees, FrameView { added, ..f }) == (FrameView {
            added,
            ..supplied(sigs, callees, f)
        }),
        has_room(sigs, callees, FrameView { added, ..f }) == has_room(sigs, callees, f),
{
}

proof fn same_roomless(
    defs: Seq<Definition>,
    mid: Seq<Definition>,
    ops: Ops,
    dead: Seq<Vec<u16>>,
    k: int,
)
    requires
        defs.len() == mid.len(),
        0 <= k <= defs.len(),
        signatures(mid) == widened(defs, ops, dead),
        forall|d: int|
            0 <= d < defs.len() ==> installed(
                defs[d],
                #[trigger] mid[d],
                own_part(defs, ops, dead, d),
            ),
    ensures
        roomless(mid, with_buffers(defs, ops, dead, defs.len() as int), k) == without_room(
            defs,
            ops,
            dead,
            k,
        ),
    decreases k,
{
    if k > 0 {
        same_roomless(defs, mid, ops, dead, k - 1);
        let part = own_part(defs, ops, dead, k - 1);
        assert(installed(defs[k - 1], mid[k - 1], part));
        assert(first_frame(mid[k - 1]) == (FrameView { added: Seq::empty(), ..part }));
        supply_ignores_added(
            signatures(mid),
            with_buffers(defs, ops, dead, defs.len() as int),
            part,
            Seq::empty(),
        );
    }
}

/// Promote every local that may be a caller's buffer, and make every call carry
/// the buffers of its callee.  `dead` lists, per definition, the locals that are
/// written and never read.
pub fn promote_work_buffers(data: &mut Data, dead: &Vec<Vec<u16>>, enabled: bool) -> (out: Outcome)
    requires
        old(data).definitions.len() <= u32::MAX,
        forall|d: int|
            0 <= d < old(data).definitions.len() ==> (#[trigger] old(
                data
            ).definitions@[d]).variables.variables.len() <= u16::MAX,
    ensures
        !enabled ==> *final(data) == *old(data) && out.promoted.len() == 0 && out.full.len() == 0,
        enabled ==> {
            let defs = old(data).definitions@;
            let ops = Ops::of(old(data));
            &&& final(data).definitions.len() == defs.len()
            &&& forall|d: int|
                0 <= d < defs.len() ==> installed(
                    defs[d],
                    #[trigger] final(data).definitions@[d],
                    whole(defs, ops, dead@, d),
                )
            &&& out.promoted@ == with_buffers(defs, ops, dead@, defs.len() as int)
            &&& out.full@ == without_room(defs, ops, dead@, defs.len() as int)
        },
{
    if !enabled {
        return Outcome { promoted: Vec::new(), full: Vec::new() };
    }
    let ops: Ops = Ops::new(data);
    let ghost defs = data.definitions@;
    let (parts, promoted): (Vec<Option<Frame>>, Vec<u32>) = own_parts(data, ops, dead);
    let ghost first = parts@;
    install_all(data, parts);
    let ghost mid = data.definitions@;
    proof {
        assert forall|d: int| 0 <= d < defs.len() implies installed(
            defs[d],
            #[trigger] mid[d],
            own_part(defs, ops, dead@, d),
        ) && mid[d].variables.variables.len() <= u16::MAX by {
            let part = own_part(defs, ops, dead@, d);
            match first[d] {
                Some(f) => {},
                None => {
                    assert(data::attr_views(defs[d].attributes@) + part.added =~= data::attr_views(
                        defs[d].attributes@,
                    ));
                },
            }
            considering_stays_numbered(
                defs,
                first_frame(defs[d]),
                ops,
                dead_of(dead@, d),
                defs[d].variables.variables.len() as int,
            );
            assert(mid[d].variables@.vars.len() == mid[d].variables.variables.len());
        }
        assert(signatures(mid) =~= widened(defs, ops, dead@));
        same_roomless(defs, mid, ops, dead@, defs.len() as int);
    }
    let (rest, full): (Vec<Option<Frame>>, Vec<u32>) = callers(data, &promoted);
    let ghost second = rest@;
    install_all(data, rest);
    proof {
        assert forall|d: int| 0 <= d < defs.len() implies installed(
            defs[d],
            #[trigger] data.definitions@[d],
            whole(defs, ops, dead@, d),
        ) by {
            let part = own_part(defs, ops, dead@, d);
            let last = data.definitions@[d];
            assert(installed(defs[d], mid[d], part));
            assert(first_frame(mid[d]) == (FrameView { added: Seq::empty(), ..part }));
            supply_ignores_added(signatures(mid), promoted@, part, Seq::empty());
            match second[d] {
                Some(f) => {
                    assert(data::attr_views(mid[d].attributes@) + Seq::<data::AttrView>::empty()
                        =~= data::attr_views(mid[d].attributes@));
                },
                None => {},
            }
        }
    }
    Outcome { promoted, full }
}

/// A promoted local is an argument, and an argument is never considered again.
pub proof fn a_promoted_local_stays_promoted(
    defs: Seq<Definition>,
    f: FrameView,
    v: u16,
    db: u16,
    ops: Ops,
    dead: Seq<u16>,
)
    requires
        v < f.vars.vars.len() < u16::MAX,
        db < f.vars.vars.len(),
        types::base(f.vars.vars[v as int].tp) is Vector,
    ensures
        is_arg(promoted(f, v, db, ops).vars.vars, v),
        considered(defs, promoted(f, v, db, ops), ops, dead, v) == promoted(f, v, db, ops),
{
    match types::base(f.vars.vars[v as int].tp) {
        types::Ty::Vector(elem, _) => {
            let tp = types::Ty::Vector(elem, types::no_deps());
            promotion_makes_an_argument(f.vars, v, db, tp);
            let g = promoted(f, v, db, ops);
            assert(g.vars == promoted_vars(f.vars, v, db, tp).0);
            arguments_are_not_considered(defs, g, ops, dead, v);
        },
        _ => {},
    }
}

proof fn arguments_are_not_considered(
    defs: Seq<Definition>,
    f: FrameView,
    ops: Ops,
    dead: Seq<u16>,
    v: u16,
)
    requires
        is_arg(f.vars.vars, v),
    ensures
        considered(defs, f, ops, dead, v) == f,
{
    assert(candidate(f.vars.vars, v) is None);
}

/// An argument stays one while other things of the variables are set.
proof fn setting_keeps_an_argument(f: data::FnView, x: u16, var: data::VarView, v: u16)
    requires
        x < f.vars.len(),
        is_arg(f.vars, v),
        x == v ==> var.argument,
    ensures
        data::with_var(f, x, var).vars.len() == f.vars.len(),
        is_arg(data::with_var(f, x, var).vars, v),
{
    let vars = data::with_var(f, x, var).vars;
    assert(vars == f.vars.update(x as int, var));
    if x == v {
        assert(vars[v as int] == var);
    } else {
        assert(vars[v as int] == f.vars[v as int]);
    }
}

/// An argument stays one when it gets a witness.
proof fn witnessing_keeps_an_argument(f: data::FnView, v: u16, tp: types::Ty)
    requires
        is_arg(f.vars, v),
        f.vars.len() < u16::MAX,
    ensures
        witnessed(f, v, tp).0.vars.len() >= f.vars.len(),
        is_arg(witnessed(f, v, tp).0.vars, v),
{
    reveal(witnessed);
    if f.vars[v as int].rebind_orig is None {
        let w = f.vars.len() as u16;
        let g = data::minted(f, tp);
        assert(g.vars == f.vars.push(data::work_ref_var(f, tp)));
        assert(g.vars[v as int] == f.vars[v as int]);
        let marked = data::VarView { inline_ref: true, ..g.vars[w as int] };
        setting_keeps_an_argument(g, w, marked, v);
        let h = data::with_var(g, w, marked);
        let noted = data::VarView { rebind_orig: Some(w), ..h.vars[v as int] };
        setting_keeps_an_argument(h, v, noted, v);
        assert(witnessed(f, v, tp) == (data::with_var(h, v, noted), w));
    }
}

/// An argument stays one when a backing is never released.
proof fn a_backing_keeps_an_argument(f: data::FnView, db: u16, v: u16)
    requires
        is_arg(f.vars, v),
        db < f.vars.len(),
    ensures
        is_arg(unreleased(f, db).vars, v),
{
    reveal(unreleased);
    let skipped = data::VarView { skip_free: true, ..f.vars[db as int] };
    setting_keeps_an_argument(f, db, skipped, v);
    let g = data::with_var(f, db, skipped);
    setting_keeps_an_argument(g, db, data::VarView { inline_ref: true, ..g.vars[db as int] }, v);
}

proof fn promotion_makes_an_argument(f: data::FnView, v: u16, db: u16, tp: types::Ty)
    requires
        v < f.vars.len() < u16::MAX,
        db < f.vars.len(),
    ensures
        is_arg(promoted_vars(f, v, db, tp).0.vars, v),
{
    let f1 = data::with_var(f, v, data::VarView { argument: true, ..f.vars[v as int] });
    assert(f1.vars.len() == f.vars.len());
    assert(is_arg(f1.vars, v));
    witnessing_keeps_an_argument(f1, v, tp);
    a_backing_keeps_an_argument(witnessed(f1, v, tp).0, db, v);
}

/// The calls that lack a buffer.
pub open spec fn lacks(sigs: Seq<Seq<types::Ty>>, callees: Seq<u32>) -> spec_fn(ir::Node) -> bool {
    |n: ir::Node|
        n.head matches ir::Head::Call(d) && lacking(sigs, callees, d, n.kids.len()).len() > 0
}

/// Code whose calls carry all their buffers is left as it is.
pub proof fn carried_buffers_are_left_alone(
    sigs: Seq<Seq<types::Ty>>,
    callees: Seq<u32>,
    base: int,
    n: ir::Node,
    new: Seq<types::Ty>,
)
    requires
        !ir::any(n, lacks(sigs, callees)),
    ensures
        patched(sigs, callees, base, n, new) == (n, new),
    decreases n, 0int,
{
    carried_buffers_are_left_alone_in(sigs, callees, base, n.kids, n.kids.len() as int, new);
    assert(n.kids.take(n.kids.len() as int) =~= n.kids);
    assert(!lacks(sigs, callees)(n));
    match n.head {
        ir::Head::Call(d) => {
            let more = lacking(sigs, callees, d, n.kids.len());
            assert(more =~= Seq::<types::Ty>::empty());
            assert(n.kids + buffers(base + new.len(), 0) =~= n.kids);
            assert(new + more =~= new);
        },
        _ => {},
    }
}

proof fn carried_buffers_are_left_alone_in(
    sigs: Seq<Seq<types::Ty>>,
    callees: Seq<u32>,
    base: int,
    s: Seq<ir::Node>,
    k: int,
    new: Seq<types::Ty>,
)
    requires
        0 <= k <= s.len(),
        !ir::any_in(s, lacks(sigs, callees)),
    ensures
        patched_kids(sigs, callees, base, s, k, new) == (s.take(k), new),
    decreases s, k,
{
    if k > 0 {
        carried_buffers_are_left_alone_in(sigs, callees, base, s, k - 1, new);
        let p = lacks(sigs, callees);
        ir::any_step(s, p, k - 1);
        if ir::any(s[k - 1], p) {
            ir::any_prefix(s, p, k);
        }
        carried_buffers_are_left_alone(sigs, callees, base, s[k - 1], new);
        assert(s.take(k - 1).push(s[k - 1]) =~= s.take(k));
    } else {
        assert(s.take(0) =~= Seq::<ir::Node>::empty());
    }
}

/// A followed variable that stands anywhere but in a call or an assignment is
/// refused.
pub proof fn only_operators_take_a_followed_local(
    e: Local,
    n: ir::Node,
    i: int,
    pos: Pos,
    found: Seq<u16>,
)
    requires
        !(n.head is Span),
        !(n.head is Call),
        !(n.head is Assign),
        !(n.head is Var),
        0 <= i < n.kids.len(),
        is_followed(e, n.kids[i]),
    ensures
        walk(e, n, pos, found).0 is Err,
{
    refused_among(e, n.kids, 0, i, found);
}

proof fn refused_among(e: Local, s: Seq<ir::Node>, j: int, i: int, found: Seq<u16>)
    requires
        0 <= j <= i < s.len(),
        is_followed(e, s[i]),
    ensures
        walk_kids(e, s, j, None, found).0 is Err,
    decreases i - j,
{
    if j < i {
        refused_among(e, s, j + 1, i, walk(e, s[j], Pos::Other, found).1);
    } else {
        refused_as_statement(e, s[i], found);
    }
}

proof fn refused_as_statement(e: Local, n: ir::Node, found: Seq<u16>)
    requires
        is_followed(e, n),
    ensures
        walk(e, n, Pos::Other, found).0 is Err,
    decreases n,
{
    if n.head is Span && n.kids.len() > 0 {
        refused_as_statement(e, n.kids[0], found);
    }
}

} // verus!
