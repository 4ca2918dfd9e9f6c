//! What holds of a vector that a caller hands in as a buffer.

use crate::capture_laws;
use crate::data::{self, Definition, DefType, WrapperOperand};
use crate::ir;
use crate::place_laws;
use crate::text;
use crate::types;
use crate::work_buffer::{self, FrameView, Local, Ops, Pos, Why};
use vstd::prelude::*;

verus! {

/// The operators that work on the vector of their first operand where it is.
pub open spec fn works_in_place(name: Seq<char>) -> bool {
    ||| name.len() >= 6 && name.take(6) == seq!['O', 'p', 'P', 'u', 's', 'h']
    ||| name == "OpPreAllocVector"@ || name == "OpReserveVector"@ || name == "OpLengthVector"@
    ||| name == "OpSizeVector"@ || name == "OpVectorIsNull"@ || name == "OpClearVector"@
    ||| name == "OpRemoveVector"@ || name == "OpKeepVectorRange"@ || name == "OpAppendTextBytes"@
    ||| name == "OpAppendVector"@ || name == "OpReplaceVector"@
    ||| answers_a_place(name)
}

/// The operators that answer the place of an element.
pub open spec fn answers_a_place(name: Seq<char>) -> bool {
    ||| name == "OpGetVector"@ || name == "OpGetVectorNullable"@ || name == "OpInsertVector"@
    ||| name == "OpVectorRef"@ || name == "OpVectorRefNullable"@
}

/// The operators that read or write a scalar at a place.
pub open spec fn uses_up_a_place(name: Seq<char>) -> bool {
    ||| name == "OpGetInt"@ || name == "OpGetInt4"@ || name == "OpGetInt4Raw"@
    ||| name == "OpGetInt4Full"@ || name == "OpGetCharacter"@ || name == "OpGetSingle"@
    ||| name == "OpGetFloat"@ || name == "OpGetByte"@ || name == "OpGetByteNullable"@
    ||| name == "OpGetEnum"@ || name == "OpGetBoolean"@ || name == "OpGetShort"@
    ||| name == "OpGetShortRaw"@ || name == "OpGetShortSpare"@ || name == "OpGetShortFull"@
    ||| name == "OpSetInt"@ || name == "OpSetInt4"@ || name == "OpSetInt4Raw"@
    ||| name == "OpSetCharacter"@ || name == "OpSetSingle"@ || name == "OpSetFloat"@
    ||| name == "OpSetByte"@ || name == "OpSetByteNullable"@ || name == "OpSetShort"@
    ||| name == "OpSetShortRaw"@ || name == "OpSetEnum"@ || name == "OpSetBoolean"@
}

/// The name of definition `d`; empty where there is none.
pub open spec fn op_name(defs: Seq<Definition>, d: u32) -> Seq<char> {
    if d < defs.len() {
        defs[d as int].name@
    } else {
        ""@
    }
}

/// Whether definition `d` does no more than one operation that works on the vector of its
/// first parameter where it is.
pub open spec fn wraps_in_place(defs: Seq<Definition>, d: u32) -> bool {
    &&& d < defs.len()
    &&& defs[d as int].wrapper matches Some(w) && w.operands.len() > 0 && w.operands@[0]
        == WrapperOperand::Param(0) && (forall|i: int|
        1 <= i < w.operands.len() ==> #[trigger] w.operands@[i] != WrapperOperand::Param(0))
        && works_in_place(op_name(defs, w.op))
}

/// Whether a call of definition `d` leaves a vector that is its operand `i` where it is, or
/// copies what is in it.
pub open spec fn leaves_in_place(defs: Seq<Definition>, d: u32, i: int) -> bool {
    ||| i == 0 && works_in_place(op_name(defs, d))
    ||| i == 1 && (op_name(defs, d) == "OpAppendVector"@ || op_name(defs, d) == "OpReplaceVector"@)
    ||| i == 0 && wraps_in_place(defs, d)
}

/// Whether a node is one of the variables, source positions aside.
pub open spec fn is_one(followed: Seq<u16>, n: ir::Node) -> bool {
    ir::unspan(n).head matches ir::Head::Var(x) && followed.contains(x)
}

/// Whether a node is the place of an element of one of the variables.
pub open spec fn is_place_in(defs: Seq<Definition>, followed: Seq<u16>, n: ir::Node) -> bool {
    let m = ir::unspan(n);
    &&& m.head matches ir::Head::Call(d) && answers_a_place(op_name(defs, d))
    &&& m.kids.len() > 0
    &&& is_one(followed, m.kids[0])
}

/// Whether child `i` of node `n`, one of the variables or a place in it, gets out of the
/// operations on it: it is handed on by anything but an operation that leaves it in place,
/// or a copy into another of the variables.
pub open spec fn gets_out(
    defs: Seq<Definition>,
    v: u16,
    followed: Seq<u16>,
    n: ir::Node,
    i: int,
) -> bool {
    ||| is_one(followed, n.kids[i]) && match n.head {
        ir::Head::Call(d) => !leaves_in_place(defs, d, i),
        ir::Head::Assign(x) => x == v || !followed.contains(x),
        _ => true,
    }
    ||| is_place_in(defs, followed, n.kids[i]) && !(i == 0 && (n.head matches ir::Head::Call(d)
        && uses_up_a_place(op_name(defs, d))))
}

/// The nodes by which one of the variables leaves the operations on it: as a child that gets
/// out, by being bound to something else, or by being carried in another way.
pub open spec fn lets_out(
    defs: Seq<Definition>,
    v: u16,
    db: u16,
    get_field: u32,
    followed: Seq<u16>,
) -> spec_fn(ir::Node) -> bool {
    |n: ir::Node|
        !(n.head is Span) && ({
            ||| exists|i: int|
                0 <= i < n.kids.len() && #[trigger] gets_out(defs, v, followed, n, i)
            ||| n.kids.len() > 1 && is_one(followed, n.kids[1]) && (ir::unspan(n.kids[0]).head
                == ir::Head::Call(get_field)) && (n.head matches ir::Head::Call(d) && (op_name(
                defs,
                d,
            ) == "OpAppendVector"@ || op_name(defs, d) == "OpReplaceVector"@))
            ||| match n.head {
                ir::Head::TupleGet(x, _) => followed.contains(x),
                ir::Head::TuplePut(x, _) => followed.contains(x),
                ir::Head::CallRef(x) => followed.contains(x),
                ir::Head::FnRefDnr(x) => followed.contains(x),
                ir::Head::FnRef(_, x, _) => followed.contains(x),
                ir::Head::Iter(x) => followed.contains(x),
                ir::Head::Assign(x) => followed.contains(x) && !(if x == v {
                    let m = ir::unspan(n.kids[0]);
                    m.head == ir::Head::Call(get_field) && m.kids.len() > 0 && ir::unspan(
                        m.kids[0],
                    ).head == ir::Head::Var(db)
                } else {
                    is_one(followed, n.kids[0])
                }),
                _ => false,
            }
        })
}

/// Whether vector local `v`, whose backing is `db`, stays in its function: it and the locals
/// that are copies of it are used by nothing but operations that leave them in place, and
/// the copies are locals that are bound once.
pub open spec fn confined(
    defs: Seq<Definition>,
    vars: Seq<data::VarView>,
    code: ir::Node,
    v: u16,
    db: u16,
    get_field: u32,
    followed: Seq<u16>,
) -> bool {
    &&& followed.contains(v)
    &&& !ir::any(code, lets_out(defs, v, db, get_field, followed))
    &&& !(ir::unspan(code).head is Var)
    &&& forall|x: u16| #[trigger]
        followed.contains(x) ==> ir::count(code, binds(x)) == 1 && (x != v ==> !(x < vars.len()
            && vars[x as int].argument))
}

/// The nodes that assign to variable `x`.
pub open spec fn binds(x: u16) -> spec_fn(ir::Node) -> bool {
    |n: ir::Node| n.head == ir::Head::Assign(x)
}

/// The nodes that are variable `x`.
pub open spec fn is_the_variable(x: u16) -> spec_fn(ir::Node) -> bool {
    |n: ir::Node| n.head == ir::Head::Var(x)
}

proof fn counted_alike(
    n: ir::Node,
    p: spec_fn(ir::Node) -> bool,
    q: spec_fn(ir::Node) -> bool,
)
    requires
        forall|m: ir::Node| #[trigger] p(m) == q(m),
    ensures
        ir::count(n, p) == ir::count(n, q),
    decreases n, 0int,
{
    counted_alike_in(n.kids, p, q);
    assert(p(n) == q(n));
}

proof fn counted_alike_in(
    s: Seq<ir::Node>,
    p: spec_fn(ir::Node) -> bool,
    q: spec_fn(ir::Node) -> bool,
)
    requires
        forall|m: ir::Node| #[trigger] p(m) == q(m),
    ensures
        ir::count_in(s, p) == ir::count_in(s, q),
    decreases s, 1int,
{
    if s.len() > 0 {
        counted_alike_in(s.drop_last(), p, q);
        counted_alike(s.last(), p, q);
    }
}

proof fn pushes_are_spelled(name: Seq<char>)
    ensures
        work_buffer::in_place(name) == works_in_place(name),
        work_buffer::element_place(name) == answers_a_place(name),
        work_buffer::scalar_accessor(name) == uses_up_a_place(name),
{
    reveal_strlit("OpPush");
    assert("OpPush"@ =~= seq!['O', 'p', 'P', 'u', 's', 'h']);
}

proof fn operands_are_spelled(defs: Seq<Definition>, d: u32, i: int)
    ensures
        work_buffer::allowed(defs, d, i) ==> leaves_in_place(defs, d, i),
        op_name(defs, d) == work_buffer::name_of(defs, d),
{
    pushes_are_spelled(op_name(defs, d));
    if d < defs.len() {
        match work_buffer::wrapped_op(defs[d as int]) {
            Some(op) => {
                pushes_are_spelled(op_name(defs, op));
            },
            None => {},
        }
    }
}

spec fn place(d: Option<u32>, i: int) -> Pos {
    match d {
        Some(x) => Pos::Arg { d: x, i: i as usize },
        None => Pos::Other,
    }
}

proof fn finds_more(e: Local, n: ir::Node, pos: Pos, found: Seq<u16>, x: u16)
    requires
        found.contains(x),
    ensures
        work_buffer::walk(e, n, pos, found).1.contains(x),
    decreases n, 1int,
{
    if n.head is Span && n.kids.len() > 0 {
        finds_more(e, n.kids[0], pos, found, x);
    } else {
        match n.head {
            ir::Head::Call(d) => {
                finds_more_in(e, n, 0, Some(d), found, x);
                assert(work_buffer::walk(e, n, pos, found).1 == found || work_buffer::walk(
                    e,
                    n,
                    pos,
                    found,
                ) == work_buffer::walk_kids(e, n.kids, 0, Some(d), found));
            },
            ir::Head::Assign(y) => {
                if n.kids.len() > 0 {
                    finds_more(e, n.kids[0], Pos::Other, found, x);
                    let judged = work_buffer::assigned(e, y, n.kids[0], found);
                    assert(work_buffer::walk(e, n, pos, found) == judged);
                    let i = choose|i: int| 0 <= i < found.len() && found[i] == x;
                    assert(found.push(y)[i] == x);
                    assert(judged.1 == found || judged.1 == found.push(y) || judged
                        == work_buffer::walk(e, n.kids[0], Pos::Other, found));
                }
            },
            ir::Head::Var(_) => {},
            _ => {
                finds_more_in(e, n, 0, None, found, x);
                assert(work_buffer::walk(e, n, pos, found).1 == found || work_buffer::walk(
                    e,
                    n,
                    pos,
                    found,
                ) == work_buffer::walk_kids(e, n.kids, 0, None, found));
            },
        }
    }
}

proof fn finds_more_in(e: Local, n: ir::Node, i: int, d: Option<u32>, found: Seq<u16>, x: u16)
    requires
        found.contains(x),
        0 <= i,
    ensures
        work_buffer::walk_kids(e, n.kids, i, d, found).1.contains(x),
    decreases n, 0int, n.kids.len() - i,
{
    if i < n.kids.len() {
        let (r, more) = work_buffer::walk(e, n.kids[i], place(d, i), found);
        finds_more(e, n.kids[i], place(d, i), found, x);
        finds_more_in(e, n, i + 1, d, more, x);
    }
}

/// Whether all the copies that were found are followed.
spec fn followed_all(e: Local, found: Seq<u16>) -> bool {
    forall|x: u16| #[trigger] found.contains(x) ==> e.followed.contains(x)
}

/// Whether a node may stand where it stands.
spec fn stands_well(e: Local, n: ir::Node, pos: Pos) -> bool {
    &&& is_one(e.followed, n) ==> (pos matches Pos::Arg { d, i } && leaves_in_place(
        e.defs,
        d,
        i as int,
    ))
    &&& is_place_in(e.defs, e.followed, n) ==> (pos matches Pos::Arg { d, i } && i == 0
        && uses_up_a_place(op_name(e.defs, d)))
}

spec fn outlet(e: Local) -> spec_fn(ir::Node) -> bool {
    lets_out(e.defs, e.v, e.db, e.ops.get_field, e.followed)
}

proof fn holds_in(s: Seq<ir::Node>, p: spec_fn(ir::Node) -> bool, i: int)
    requires
        0 <= i < s.len(),
        ir::any(s[i], p),
    ensures
        ir::any_in(s, p),
{
    ir::any_step(s, p, i);
    ir::any_prefix(s, p, i + 1);
}

proof fn held_at(s: Seq<ir::Node>, p: spec_fn(ir::Node) -> bool) -> (i: int)
    requires
        ir::any_in(s, p),
    ensures
        0 <= i < s.len(),
        ir::any(s[i], p),
    decreases s.len(),
{
    if ir::any(s.last(), p) {
        s.len() - 1
    } else {
        held_at(s.drop_last(), p)
    }
}

proof fn shaped_below(n: ir::Node, i: int)
    requires
        place_laws::shaped(n),
        0 <= i < n.kids.len(),
    ensures
        place_laws::shaped(n.kids[i]),
{
    if ir::any(n.kids[i], place_laws::misshapen()) {
        holds_in(n.kids, place_laws::misshapen(), i);
    }
}

proof fn a_variable_lets_nothing_out(e: Local, n: ir::Node)
    requires
        place_laws::shaped(n),
        ir::unspan(n).head is Var,
    ensures
        !ir::any(n, outlet(e)),
    decreases n,
{
    let p = outlet(e);
    assert(!place_laws::misshapen()(n));
    if n.head is Span {
        shaped_below(n, 0);
        a_variable_lets_nothing_out(e, n.kids[0]);
    }
    assert(!p(n));
    if ir::any_in(n.kids, p) {
        let i = held_at(n.kids, p);
    }
}

/// Code that a walk finds in order lets nothing out.
proof fn a_walk_lets_nothing_out(e: Local, n: ir::Node, pos: Pos, found: Seq<u16>)
    requires
        place_laws::shaped(n),
        work_buffer::walk(e, n, pos, found).0 is Ok,
        followed_all(e, work_buffer::walk(e, n, pos, found).1),
        e.followed.contains(e.v),
    ensures
        !ir::any(n, outlet(e)),
        stands_well(e, n, pos),
    decreases n, 1int,
{
    let p = outlet(e);
    let (r, out) = work_buffer::walk(e, n, pos, found);
    let k = n.kids.len() as int;
    assert(!place_laws::misshapen()(n));
    if n.head is Span && k > 0 {
        shaped_below(n, 0);
        a_walk_lets_nothing_out(e, n.kids[0], pos, found);
    } else {
        match n.head {
            ir::Head::Var(x) => {
                match pos {
                    Pos::Arg { d, i } => {
                        operands_are_spelled(e.defs, d, i as int);
                    },
                    Pos::Other => {},
                }
            },
            ir::Head::Call(d) => {
                operands_are_spelled(e.defs, d, 0);
                pushes_are_spelled(op_name(e.defs, d));
                match pos {
                    Pos::Arg { d: parent, i } => {
                        operands_are_spelled(e.defs, parent, i as int);
                        pushes_are_spelled(op_name(e.defs, parent));
                    },
                    Pos::Other => {},
                }
                assert((r, out) == work_buffer::walk_kids(e, n.kids, 0, Some(d), found));
                children_let_nothing_out(e, n, 0, Some(d), found);
                assert forall|i: int| 0 <= i < k implies !#[trigger] gets_out(
                    e.defs,
                    e.v,
                    e.followed,
                    n,
                    i,
                ) by {
                    assert(stands_well(e, n.kids[i], place(Some(d), i)));
                }
            },
            ir::Head::Assign(x) => {
                let rhs = n.kids[0];
                shaped_below(n, 0);
                let judged = work_buffer::assigned(e, x, rhs, found);
                assert((r, out) == judged);
                if e.followed.contains(x) && x != e.v {
                    a_variable_lets_nothing_out(e, rhs);
                } else if !e.followed.contains(x) && work_buffer::is_followed(e, rhs) {
                    assert(out == found.push(x));
                    assert(out[out.len() - 1] == x);
                    assert(out.contains(x));
                } else {
                    assert(judged == work_buffer::walk(e, rhs, Pos::Other, found));
                    a_walk_lets_nothing_out(e, rhs, Pos::Other, found);
                }
            },
            _ => {
                assert((r, out) == work_buffer::walk_kids(e, n.kids, 0, None, found));
                children_let_nothing_out(e, n, 0, None, found);
                assert forall|i: int| 0 <= i < k implies !#[trigger] gets_out(
                    e.defs,
                    e.v,
                    e.followed,
                    n,
                    i,
                ) by {
                    assert(stands_well(e, n.kids[i], place(None, i)));
                }
            },
        }
    }
    assert(!p(n));
    if ir::any_in(n.kids, p) {
        let i = held_at(n.kids, p);
    }
}

proof fn children_let_nothing_out(
    e: Local,
    n: ir::Node,
    i: int,
    d: Option<u32>,
    found: Seq<u16>,
)
    requires
        place_laws::shaped(n),
        0 <= i,
        work_buffer::walk_kids(e, n.kids, i, d, found).0 is Ok,
        followed_all(e, work_buffer::walk_kids(e, n.kids, i, d, found).1),
        e.followed.contains(e.v),
    ensures
        forall|j: int|
            i <= j < n.kids.len() ==> !ir::any(#[trigger] n.kids[j], outlet(e)) && stands_well(
                e,
                n.kids[j],
                place(d, j),
            ),
    decreases n, 0int, n.kids.len() - i,
{
    if i < n.kids.len() {
        let (r, more) = work_buffer::walk(e, n.kids[i], place(d, i), found);
        let out = work_buffer::walk_kids(e, n.kids, i, d, found).1;
        assert(r is Ok);
        assert(work_buffer::walk_kids(e, n.kids, i, d, found) == work_buffer::walk_kids(
            e,
            n.kids,
            i + 1,
            d,
            more,
        ));
        assert forall|x: u16| #[trigger] more.contains(x) implies e.followed.contains(x) by {
            finds_more_in(e, n, i + 1, d, more, x);
        }
        shaped_below(n, i);
        a_walk_lets_nothing_out(e, n.kids[i], place(d, i), found);
        children_let_nothing_out(e, n, i + 1, d, more);
    }
}

/// Whether every followed variable but the local itself is a local that is bound once.
spec fn bound_once(e: Local) -> bool {
    forall|x: u16| #[trigger]
        e.followed.contains(x) && x != e.v ==> ir::count(e.code, work_buffer::assigns(x)) == 1
            && !work_buffer::is_arg(e.vars, x)
}

proof fn found_are_bound_once(e: Local, n: ir::Node, pos: Pos, found: Seq<u16>, x: u16)
    requires
        work_buffer::walk(e, n, pos, found).1.contains(x),
    ensures
        found.contains(x) || ir::count(e.code, work_buffer::assigns(x)) == 1
            && !work_buffer::is_arg(e.vars, x),
    decreases n, 1int,
{
    if n.head is Span && n.kids.len() > 0 {
        found_are_bound_once(e, n.kids[0], pos, found, x);
    } else {
        match n.head {
            ir::Head::Call(d) => {
                if work_buffer::walk(e, n, pos, found) == work_buffer::walk_kids(
                    e,
                    n.kids,
                    0,
                    Some(d),
                    found,
                ) {
                    found_are_bound_once_in(e, n, 0, Some(d), found, x);
                }
            },
            ir::Head::Assign(y) => {
                if n.kids.len() > 0 {
                    let judged = work_buffer::assigned(e, y, n.kids[0], found);
                    assert(work_buffer::walk(e, n, pos, found) == judged);
                    if judged == work_buffer::walk(e, n.kids[0], Pos::Other, found) {
                        found_are_bound_once(e, n.kids[0], Pos::Other, found, x);
                    } else if judged.1 == found.push(y) {
                        let i = choose|i: int| 0 <= i < judged.1.len() && judged.1[i] == x;
                        if i < found.len() {
                            assert(found[i] == x);
                        }
                    }
                }
            },
            ir::Head::Var(_) => {},
            _ => {
                if work_buffer::walk(e, n, pos, found) == work_buffer::walk_kids(
                    e,
                    n.kids,
                    0,
                    None,
                    found,
                ) {
                    found_are_bound_once_in(e, n, 0, None, found, x);
                }
            },
        }
    }
}

proof fn found_are_bound_once_in(
    e: Local,
    n: ir::Node,
    i: int,
    d: Option<u32>,
    found: Seq<u16>,
    x: u16,
)
    requires
        0 <= i,
        work_buffer::walk_kids(e, n.kids, i, d, found).1.contains(x),
    ensures
        found.contains(x) || ir::count(e.code, work_buffer::assigns(x)) == 1
            && !work_buffer::is_arg(e.vars, x),
    decreases n, 0int, n.kids.len() - i,
{
    if i < n.kids.len() {
        let (r, more) = work_buffer::walk(e, n.kids[i], place(d, i), found);
        if r is Ok {
            assert(work_buffer::walk_kids(e, n.kids, i, d, found) == work_buffer::walk_kids(
                e,
                n.kids,
                i + 1,
                d,
                more,
            ));
            found_are_bound_once_in(e, n, i + 1, d, more, x);
        }
        if more.contains(x) {
            found_are_bound_once(e, n.kids[i], place(d, i), found, x);
        }
    }
}

proof fn joined_holds(followed: Seq<u16>, found: Seq<u16>, x: u16)
    ensures
        work_buffer::joined(followed, found).contains(x) <==> followed.contains(x)
            || found.contains(x),
    decreases found.len(),
{
    if found.len() > 0 {
        let less = found.drop_last();
        joined_holds(followed, less, x);
        let before = work_buffer::joined(followed, less);
        let y = found.last();
        pushing(before, y, x);
        pushing(less, y, x);
        assert(less.push(y) =~= found);
    }
}

proof fn pushing(s: Seq<u16>, y: u16, x: u16)
    ensures
        s.push(y).contains(x) <==> s.contains(x) || x == y,
{
    let more = s.push(y);
    if s.contains(x) {
        let i = choose|i: int| 0 <= i < s.len() && s[i] == x;
        assert(more[i] == x);
    }
    assert(more[s.len() as int] == y);
    if more.contains(x) {
        let i = choose|i: int| 0 <= i < more.len() && more[i] == x;
        if i < s.len() {
            assert(s[i] == x);
        }
    }
}

proof fn joined_grows(followed: Seq<u16>, found: Seq<u16>, x: u16)
    requires
        found.contains(x),
        !followed.contains(x),
    ensures
        work_buffer::joined(followed, found).len() > followed.len(),
    decreases found.len(),
{
    let less = found.drop_last();
    joined_longer(followed, less);
    if less.contains(x) {
        joined_grows(followed, less, x);
    } else {
        pushing(less, found.last(), x);
        assert(less.push(found.last()) =~= found);
        joined_holds(followed, less, x);
    }
}

proof fn joined_longer(followed: Seq<u16>, found: Seq<u16>)
    ensures
        work_buffer::joined(followed, found).len() >= followed.len(),
    decreases found.len(),
{
    if found.len() > 0 {
        joined_longer(followed, found.drop_last());
    }
}

/// A local that is settled has a list of followed variables of which nothing gets out.
proof fn settled_lets_nothing_out(e: Local) -> (followed: Seq<u16>)
    requires
        place_laws::shaped(e.code),
        e.followed.no_duplicates(),
        e.followed.contains(e.v),
        bound_once(e),
        work_buffer::settled(e) is Ok,
    ensures
        followed.contains(e.v),
        !ir::any(e.code, outlet(Local { followed, ..e })),
        bound_once(Local { followed, ..e }),
        stands_well(Local { followed, ..e }, e.code, Pos::Other),
    decreases 0x1_0000 - e.followed.len(),
{
    let none = Seq::<u16>::empty();
    let (r, found) = work_buffer::walk(e, e.code, Pos::Other, none);
    let more = work_buffer::joined(e.followed, found);
    work_buffer::joined_keeps(e.followed, found);
    work_buffer::distinct_variables(more);
    assert forall|x: u16| #[trigger] more.contains(x) && x != e.v implies ir::count(
        e.code,
        work_buffer::assigns(x),
    ) == 1 && !work_buffer::is_arg(e.vars, x) by {
        joined_holds(e.followed, found, x);
        if found.contains(x) {
            found_are_bound_once(e, e.code, Pos::Other, none, x);
        }
    }
    if more.len() <= e.followed.len() {
        assert forall|x: u16| #[trigger] found.contains(x) implies e.followed.contains(x) by {
            if !e.followed.contains(x) {
                joined_grows(e.followed, found, x);
            }
        }
        a_walk_lets_nothing_out(e, e.code, Pos::Other, none);
        e.followed
    } else {
        joined_holds(e.followed, found, e.v);
        settled_lets_nothing_out(Local { followed: more, ..e })
    }
}

/// A vector local whose consideration changes its function is a plain local of scalars, which
/// is declared once and nowhere leaves the operations on it, nor do its copies; and its
/// backing is named by its declaration alone.
pub proof fn a_promoted_vector_stays_in_its_function(
    defs: Seq<Definition>,
    f: FrameView,
    code: ir::Value,
    ops: Ops,
    dead: Seq<u16>,
    v: u16,
) -> (r: (u16, Seq<u16>, Seq<int>, int))
    requires
        f.code == code@,
        work_buffer::considered(defs, f, ops, dead, v) != f,
    ensures
        ({
            let (db, followed, q, i) = r;
            let var = f.vars.vars[v as int];
            &&& v < f.vars.vars.len()
            &&& !var.argument && !var.work_ref && !var.caller_hidden_buf
            &&& !text::is_prefix("_"@, var.name)
            &&& !dead.contains(v)
            &&& var.tp matches types::Ty::Vector(elem, deps) && deps.vars == seq![db]
                && is_a_scalar(*elem)
            &&& ir::unspan(f.code).head is Block
            &&& capture_laws::below(f.code, q) matches Some(b) && (b.head is Block
                || b.head is Loop) && declares(b.kids, i, v, db, ops)
            &&& db < f.vars.vars.len() && text::is_prefix(
                "__vdb_"@,
                f.vars.vars[db as int].name,
            )
            &&& confined(defs, f.vars.vars, f.code, v, db, ops.get_field, followed)
            &&& ir::count(f.code, binds(db)) == 1
            &&& ir::count(f.code, is_the_variable(db)) == 3
        }),
{
    let db = work_buffer::candidate(f.vars.vars, v)->0;
    place_laws::values_are_shaped(code);
    let var = f.vars.vars[v as int];
    match var.tp {
        types::Ty::Vector(elem, deps) => {
            assert(types::depend(var.tp) == deps.vars);
            assert(deps.vars =~= seq![db]);
        },
        _ => {},
    }
    let first = seq![v];
    let e = Local { defs, vars: f.vars.vars, code: f.code, v, db, ops, followed: first };
    assert(first[0] == v);
    assert(first.contains(v));
    assert(work_buffer::settled(e) is Ok);
    let followed = settled_lets_nothing_out(e);
    assert(outlet(Local { followed, ..e }) == lets_out(defs, v, db, ops.get_field, followed));
    counted_alike(f.code, binds(db), work_buffer::assigns(db));
    counted_alike(f.code, is_the_variable(db), work_buffer::is_variable(db));
    assert forall|x: u16| #[trigger] followed.contains(x) implies ir::count(f.code, binds(x)) == 1
        && (x != v ==> !(x < f.vars.vars.len() && f.vars.vars[x as int].argument)) by {
        counted_alike(f.code, binds(x), work_buffer::assigns(x));
    }
    let (q, i) = declared_at(f.code, v, db, ops);
    (db, followed, q, i)
}

/// Types that one machine value holds.
pub open spec fn is_a_scalar(t: types::Ty) -> bool {
    t is Integer || t is Boolean || t is Float || t is Single || t is Character || (
    t matches types::Ty::Enum(_, fields, _) && !fields)
}

/// Whether a node is a call of `d` on variable `x`.
pub open spec fn is_called_on(n: ir::Node, d: u32, x: u16) -> bool {
    let m = ir::unspan(n);
    m.head == ir::Head::Call(d) && m.kids.len() > 0 && ir::unspan(m.kids[0]).head == ir::Head::Var(x)
}

/// Whether the three statements from `i` on declare `v` as an empty vector that is backed by
/// `db`: `db` is allocated, `v` bound to a field of it, and the length written there.
pub open spec fn declares(s: Seq<ir::Node>, i: int, v: u16, db: u16, ops: Ops) -> bool {
    &&& 0 <= i <= s.len() - 3
    &&& is_called_on(s[i], ops.database, db)
    &&& ir::unspan(s[i + 1]).head == ir::Head::Assign(v)
    &&& ir::unspan(s[i + 1]).kids.len() > 0
    &&& is_called_on(ir::unspan(s[i + 1]).kids[0], ops.get_field, db)
    &&& is_called_on(s[i + 2], ops.set_int4, db)
}

proof fn declared_at(n: ir::Node, v: u16, db: u16, ops: Ops) -> (r: (Seq<int>, int))
    requires
        work_buffer::trio_sites(n, v, db, ops) > 0,
    ensures
        capture_laws::below(n, r.0) matches Some(b) && (b.head is Block || b.head is Loop)
            && declares(b.kids, r.1, v, db, ops),
    decreases n, 0int,
{
    let k = n.kids.len() as int;
    if (n.head is Block || n.head is Loop) && work_buffer::trios(n.kids, k, v, db, ops) > 0 {
        let none = Seq::<int>::empty();
        assert(capture_laws::below(n, none) == Some(n));
        (none, trio_is_at(n.kids, k, v, db, ops))
    } else {
        let (j, q, i) = declared_in(n.kids, k, v, db, ops);
        let way = seq![j] + q;
        assert(way[0] == j);
        assert(way.drop_first() =~= q);
        assert(capture_laws::below(n, way) == capture_laws::below(n.kids[j], q));
        (way, i)
    }
}

proof fn declared_in(s: Seq<ir::Node>, k: int, v: u16, db: u16, ops: Ops) -> (r: (
    int,
    Seq<int>,
    int,
))
    requires
        0 <= k <= s.len(),
        work_buffer::trio_sites_in(s, k, v, db, ops) > 0,
    ensures
        0 <= r.0 < k,
        capture_laws::below(s[r.0], r.1) matches Some(b) && (b.head is Block || b.head is Loop)
            && declares(b.kids, r.2, v, db, ops),
    decreases s, k,
{
    if work_buffer::trio_sites(s[k - 1], v, db, ops) > 0 {
        let (q, i) = declared_at(s[k - 1], v, db, ops);
        (k - 1, q, i)
    } else {
        declared_in(s, k - 1, v, db, ops)
    }
}

proof fn trio_is_at(s: Seq<ir::Node>, k: int, v: u16, db: u16, ops: Ops) -> (i: int)
    requires
        work_buffer::trios(s, k, v, db, ops) > 0,
    ensures
        declares(s, i, v, db, ops),
    decreases k,
{
    if work_buffer::is_trio(s, k - 1, v, db, ops) {
        k - 1
    } else {
        trio_is_at(s, k - 1, v, db, ops)
    }
}

/// The nodes that hand out the number of function `d`: as a function value.
pub open spec fn is_value_of(d: u32) -> spec_fn(ir::Node) -> bool {
    |n: ir::Node| n.head matches ir::Head::FnRef(f, _, _) && f >= 0 && f as u32 == d
}

/// The nodes that suspend a function or fork it.
pub open spec fn suspends_or_forks() -> spec_fn(ir::Node) -> bool {
    |n: ir::Node| n.head is Yield || n.head is Parallel
}

proof fn handed_out_is_taken(defs: Seq<Definition>, d: u32, k: int, i: int)
    requires
        0 <= i < k <= defs.len(),
        ir::any(defs[i].code@, is_value_of(d)),
    ensures
        work_buffer::taken_below(defs, d, k),
    decreases k,
{
    if i < k - 1 {
        handed_out_is_taken(defs, d, k - 1, i);
    } else {
        weaker(defs[i].code@, is_value_of(d), work_buffer::takes(defs, d));
    }
}

proof fn weaker(n: ir::Node, p: spec_fn(ir::Node) -> bool, q: spec_fn(ir::Node) -> bool)
    requires
        ir::any(n, p),
        forall|m: ir::Node| #[trigger] p(m) ==> q(m),
    ensures
        ir::any(n, q),
    decreases n,
{
    if !p(n) {
        let i = held_at(n.kids, p);
        weaker(n.kids[i], p, q);
        holds_in(n.kids, q, i);
    } else {
        assert(q(n));
    }
}

/// A definition that gets a buffer is a function of the language that is called by its name
/// alone, and runs from its start to its end: it is no entry point, no lambda, no generic
/// instance, nobody holds it as a value, and it neither suspends nor forks.
pub proof fn a_function_with_buffers_is_called_by_its_name(
    defs: Seq<Definition>,
    ops: Ops,
    dead: Seq<Vec<u16>>,
    d: int,
)
    requires
        0 <= d < defs.len() <= u32::MAX,
        work_buffer::own_part(defs, ops, dead, d) != work_buffer::first_frame(defs[d]),
    ensures
        ({
            let def = defs[d];
            &&& def.def_type == DefType::Function
            &&& !def.rust_body && !def.generic_instance && !def.synthetic && !def.corpus_entry
            &&& def.name@ != "n_main"@
            &&& !text::is_prefix("n___lambda_"@, def.name@)
            &&& ir::unspan(def.code@).head is Block
            &&& !ir::any(def.code@, suspends_or_forks())
            &&& forall|i: int|
                0 <= i < defs.len() ==> !ir::any(
                    (#[trigger] defs[i]).code@,
                    is_value_of(d as u32),
                )
        }),
{
    assert forall|i: int| 0 <= i < defs.len() implies !ir::any(
        (#[trigger] defs[i]).code@,
        is_value_of(d as u32),
    ) by {
        if ir::any(defs[i].code@, is_value_of(d as u32)) {
            handed_out_is_taken(defs, d as u32, defs.len() as int, i);
        }
    }
    if ir::any(defs[d].code@, suspends_or_forks()) {
        weaker(defs[d].code@, suspends_or_forks(), work_buffer::suspends());
    }
}

/// The calls of one of the functions that carry fewer operands than it has parameters.
pub open spec fn falls_short(sigs: Seq<Seq<types::Ty>>, callees: Seq<u32>) -> spec_fn(ir::Node) -> bool {
    |n: ir::Node|
        n.head matches ir::Head::Call(d) && callees.contains(d) && d < sigs.len() && n.kids.len()
            < sigs[d as int].len()
}

proof fn patched_calls_carry_all(
    sigs: Seq<Seq<types::Ty>>,
    callees: Seq<u32>,
    base: int,
    n: ir::Node,
    new: Seq<types::Ty>,
)
    ensures
        !ir::any(
            work_buffer::patched(sigs, callees, base, n, new).0,
            falls_short(sigs, callees),
        ),
    decreases n, 1int,
{
    let p = falls_short(sigs, callees);
    let k = n.kids.len() as int;
    let (kids, below) = work_buffer::patched_kids(sigs, callees, base, n.kids, k, new);
    let (m, all) = work_buffer::patched(sigs, callees, base, n, new);
    patched_kids_carry_all(sigs, callees, base, n, k, new);
    match n.head {
        ir::Head::Call(d) => {
            let more = work_buffer::lacking(sigs, callees, d, n.kids.len());
            let extra = work_buffer::buffers(base + below.len(), more.len());
            assert(m.kids == kids + extra);
            assert(!p(m));
            if ir::any_in(m.kids, p) {
                let i = held_at(m.kids, p);
                if i < k {
                    assert(m.kids[i] == kids[i]);
                } else {
                    assert(m.kids[i] == extra[i - k]);
                    assert(m.kids[i].kids.len() == 0);
                }
            }
        },
        _ => {
            assert(!p(m));
            if ir::any_in(m.kids, p) {
                let i = held_at(m.kids, p);
            }
        },
    }
}

proof fn patched_kids_carry_all(
    sigs: Seq<Seq<types::Ty>>,
    callees: Seq<u32>,
    base: int,
    n: ir::Node,
    k: int,
    new: Seq<types::Ty>,
)
    requires
        0 <= k <= n.kids.len(),
    ensures
        ({
            let kids = work_buffer::patched_kids(sigs, callees, base, n.kids, k, new).0;
            kids.len() == k && forall|i: int|
                0 <= i < k ==> !ir::any(#[trigger] kids[i], falls_short(sigs, callees))
        }),
    decreases n, 0int, k,
{
    if k > 0 {
        patched_kids_carry_all(sigs, callees, base, n, k - 1, new);
        let before = work_buffer::patched_kids(sigs, callees, base, n.kids, k - 1, new).1;
        patched_calls_carry_all(sigs, callees, base, n.kids[k - 1], before);
    }
}

proof fn starts_carry_all(
    sigs: Seq<Seq<types::Ty>>,
    callees: Seq<u32>,
    n: ir::Node,
    base: int,
    k: int,
)
    requires
        !ir::any(n, falls_short(sigs, callees)),
    ensures
        !ir::any(work_buffer::initialised(n, base, k), falls_short(sigs, callees)),
    decreases n,
{
    let p = falls_short(sigs, callees);
    let m = work_buffer::initialised(n, base, k);
    if n.head is Span && n.kids.len() > 0 {
        if ir::any(n.kids[0], p) {
            holds_in(n.kids, p, 0);
        }
        starts_carry_all(sigs, callees, n.kids[0], base, k);
        assert(!p(m));
        if ir::any_in(m.kids, p) {
            let i = held_at(m.kids, p);
            if i > 0 {
                assert(m.kids[i] == n.kids[i]);
                holds_in(n.kids, p, i);
            }
        }
    } else if n.head is Block {
        let starts = work_buffer::inits(base, k);
        assert(!p(m));
        if ir::any_in(m.kids, p) {
            let i = held_at(m.kids, p);
            if i < starts.len() {
                assert(m.kids[i] == starts[i]);
                starts_are_assignments(base, k, i);
                let null = starts[i].kids[0];
                assert(!p(starts[i]) && !p(null));
                let j = held_at(starts[i].kids, p);
                assert(starts[i].kids[j] == null);
                assert(null.kids.len() == 0);
            } else {
                assert(m.kids[i] == n.kids[i - starts.len()]);
                holds_in(n.kids, p, i - starts.len());
            }
        }
    }
}

proof fn starts_are_assignments(base: int, k: int, i: int)
    requires
        0 <= i < work_buffer::inits(base, k).len(),
    ensures
        exists|x: u16|
            work_buffer::inits(base, k)[i] == #[trigger] ir::assign(x, ir::leaf(ir::Head::Null)),
    decreases k,
{
    if k > 0 {
        let rest = work_buffer::inits(base, k - 1);
        let first = ir::assign((base + k - 1) as u16, ir::leaf(ir::Head::Null));
        assert(work_buffer::inits(base, k) == seq![first] + rest);
        if i > 0 {
            assert(work_buffer::inits(base, k)[i] == rest[i - 1]);
            starts_are_assignments(base, k - 1, i - 1);
        }
    }
}

/// After the pass every call of a function with buffers, wherever it stands in a function
/// that has numbers left for them, carries an operand for each of its parameters.
pub proof fn every_call_carries_its_buffers(
    sigs: Seq<Seq<types::Ty>>,
    callees: Seq<u32>,
    f: FrameView,
)
    requires
        work_buffer::has_room(sigs, callees, f),
    ensures
        !ir::any(
            work_buffer::supplied(sigs, callees, f).code,
            falls_short(sigs, callees),
        ),
{
    let base = f.vars.vars.len() as int;
    let none = Seq::<types::Ty>::empty();
    let (code, new) = work_buffer::patched(sigs, callees, base, f.code, none);
    patched_calls_carry_all(sigs, callees, base, f.code, none);
    if new.len() > 0 {
        starts_carry_all(sigs, callees, code, base, new.len() as int);
    } else {
        unpatched_is_whole(sigs, callees, base, f.code, none);
    }
}

/// Where no buffer is lacking no call falls short.
proof fn unpatched_is_whole(
    sigs: Seq<Seq<types::Ty>>,
    callees: Seq<u32>,
    base: int,
    n: ir::Node,
    new: Seq<types::Ty>,
)
    requires
        work_buffer::patched(sigs, callees, base, n, new).1.len() == new.len(),
    ensures
        !ir::any(n, falls_short(sigs, callees)),
        work_buffer::patched(sigs, callees, base, n, new).1 == new,
    decreases n, 1int,
{
    let p = falls_short(sigs, callees);
    let k = n.kids.len() as int;
    let (kids, below) = work_buffer::patched_kids(sigs, callees, base, n.kids, k, new);
    work_buffer::patching_kids_adds(sigs, callees, base, n.kids, k, 0, new);
    unpatched_are_whole(sigs, callees, base, n, k, new);
    match n.head {
        ir::Head::Call(d) => {
            let more = work_buffer::lacking(sigs, callees, d, n.kids.len());
            assert(more.len() == 0);
            assert(below + more =~= below);
        },
        _ => {},
    }
    assert(!p(n));
    if ir::any_in(n.kids, p) {
        let i = held_at(n.kids, p);
    }
}

proof fn unpatched_are_whole(
    sigs: Seq<Seq<types::Ty>>,
    callees: Seq<u32>,
    base: int,
    n: ir::Node,
    k: int,
    new: Seq<types::Ty>,
)
    requires
        0 <= k <= n.kids.len(),
        work_buffer::patched_kids(sigs, callees, base, n.kids, k, new).1.len() == new.len(),
    ensures
        forall|i: int| 0 <= i < k ==> !ir::any(#[trigger] n.kids[i], falls_short(sigs, callees)),
        work_buffer::patched_kids(sigs, callees, base, n.kids, k, new).1 == new,
    decreases n, 0int, k,
{
    if k > 0 {
        let before = work_buffer::patched_kids(sigs, callees, base, n.kids, k - 1, new).1;
        work_buffer::patching_kids_adds(sigs, callees, base, n.kids, k - 1, 0, new);
        work_buffer::patching_adds(sigs, callees, base, n.kids[k - 1], before);
        unpatched_are_whole(sigs, callees, base, n, k - 1, new);
        unpatched_is_whole(sigs, callees, base, n.kids[k - 1], before);
    }
}

} // verus!
