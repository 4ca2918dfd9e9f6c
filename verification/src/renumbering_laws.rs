//! What an exchange of the numbers of two variables does.

use crate::data;
use crate::ir;
use crate::types::{self, DepList, DepSpace, Ty};
use crate::work_buffer;
use vstd::prelude::*;

verus! {

/// The number that a variable has once `a` and `b` have each other's.
pub open spec fn other_number(x: u16, a: u16, b: u16) -> u16 {
    match x {
        _ if x == a => b,
        _ if x == b => a,
        _ => x,
    }
}

/// Whether a list of dependencies names variable `w` of the frame.
pub open spec fn lists(d: DepList, w: u16) -> bool {
    d.space == DepSpace::Frame && d.vars.contains(w)
}

/// Whether a type depends on variable `w` of the frame, in any part.
pub open spec fn depends_on(t: Ty, w: u16) -> bool
    decreases t,
{
    match t {
        Ty::Text(d)
        | Ty::Enum(_, _, d)
        | Ty::Reference(_, d)
        | Ty::Hash(_, _, d)
        | Ty::Sorted(_, _, d)
        | Ty::Index(_, _, d)
        | Ty::Radix(_, _, d)
        | Ty::Trie(_, _, d) => lists(d, w),
        Ty::Vector(inner, d) => lists(d, w) || depends_on(*inner, w),
        Ty::Optional(inner) | Ty::RefVar(inner) | Ty::Rewritten(inner) | Ty::Iterator(inner) => {
            depends_on(*inner, w)
        },
        Ty::Tuple(ts) => any_depends_on(ts, w, ts.len() as int),
        Ty::Function(ts, ret, d) => lists(d, w) || depends_on(*ret, w) || any_depends_on(
            ts,
            w,
            ts.len() as int,
        ),
        _ => false,
    }
}

/// Whether one of the first `k` types depends on variable `w`.
pub open spec fn any_depends_on(ts: Seq<Ty>, w: u16, k: int) -> bool
    decreases ts, k,
{
    if k <= 0 || k > ts.len() {
        false
    } else {
        any_depends_on(ts, w, k - 1) || depends_on(ts[k - 1], w)
    }
}

proof fn listed_alike(d: DepList, a: u16, b: u16, w: u16)
    ensures
        lists(types::swapped_deps(d, a, b), other_number(w, a, b)) == lists(d, w),
{
    let e = types::swapped_deps(d, a, b);
    if lists(d, w) {
        let i = choose|i: int| 0 <= i < d.vars.len() && d.vars[i] == w;
        assert(e.vars[i] == other_number(w, a, b));
    }
    if lists(e, other_number(w, a, b)) {
        let i = choose|i: int| 0 <= i < e.vars.len() && e.vars[i] == other_number(w, a, b);
        assert(d.vars[i] == w);
    }
}

/// A type depends on a variable under its new number exactly where it did under the old one.
pub proof fn a_type_depends_on_the_same(t: Ty, a: u16, b: u16, w: u16)
    ensures
        depends_on(types::swapped(t, a, b), other_number(w, a, b)) == depends_on(t, w),
    decreases t, 0int,
{
    match t {
        Ty::Text(d)
        | Ty::Enum(_, _, d)
        | Ty::Reference(_, d)
        | Ty::Hash(_, _, d)
        | Ty::Sorted(_, _, d)
        | Ty::Index(_, _, d)
        | Ty::Radix(_, _, d)
        | Ty::Trie(_, _, d) => {
            listed_alike(d, a, b, w);
        },
        Ty::Vector(inner, d) => {
            listed_alike(d, a, b, w);
            a_type_depends_on_the_same(*inner, a, b, w);
        },
        Ty::Optional(inner) | Ty::RefVar(inner) | Ty::Rewritten(inner) | Ty::Iterator(inner) => {
            a_type_depends_on_the_same(*inner, a, b, w);
        },
        Ty::Tuple(ts) => {
            types_depend_alike(ts, a, b, w, ts.len() as int);
        },
        Ty::Function(ts, ret, d) => {
            listed_alike(d, a, b, w);
            a_type_depends_on_the_same(*ret, a, b, w);
            types_depend_alike(ts, a, b, w, ts.len() as int);
        },
        _ => {},
    }
}

proof fn types_depend_alike(ts: Seq<Ty>, a: u16, b: u16, w: u16, k: int)
    requires
        0 <= k <= ts.len(),
    ensures
        any_depends_on(types::swapped_types(ts, a, b), other_number(w, a, b), k)
            == any_depends_on(ts, w, k),
    decreases ts, k,
{
    if k > 0 {
        types_depend_alike(ts, a, b, w, k - 1);
        a_type_depends_on_the_same(ts[k - 1], a, b, w);
        assert(types::swapped_types(ts, a, b)[k - 1] == types::swapped(ts[k - 1], a, b));
    }
}

/// The nodes that carry variable `w`, in whichever place.
pub open spec fn carries(w: u16) -> spec_fn(ir::Node) -> bool {
    |n: ir::Node|
        match n.head {
            ir::Head::Var(x)
            | ir::Head::Assign(x)
            | ir::Head::TupleGet(x, _)
            | ir::Head::TuplePut(x, _)
            | ir::Head::CallRef(x)
            | ir::Head::FnRefDnr(x)
            | ir::Head::FnRef(_, x, _)
            | ir::Head::Iter(x) => x == w,
            _ => false,
        }
}

/// The nodes whose type depends on variable `w`.
pub open spec fn types_with(w: u16) -> spec_fn(ir::Node) -> bool {
    |n: ir::Node|
        match n.head {
            ir::Head::FnRef(_, _, t) => depends_on(t, w),
            ir::Head::Block(_, t) => depends_on(t, w),
            ir::Head::Loop(_, t) => depends_on(t, w),
            _ => false,
        }
}

/// The code carries a variable under its new number as often as it did under the old one, and
/// as many of its nodes have types that depend on it; the nodes are of the same kinds, and
/// their operands stand where they did.
pub proof fn code_carries_the_same(n: ir::Node, a: u16, b: u16, w: u16)
    ensures
        ({
            let m = ir::swapped(n, a, b);
            let v = other_number(w, a, b);
            &&& ir::count(m, carries(v)) == ir::count(n, carries(w))
            &&& ir::count(m, types_with(v)) == ir::count(n, types_with(w))
            &&& m.kids.len() == n.kids.len()
            &&& forall|i: int|
                0 <= i < n.kids.len() ==> #[trigger] m.kids[i] == ir::swapped(n.kids[i], a, b)
        }),
    decreases n, 1int,
{
    let m = ir::swapped(n, a, b);
    let v = other_number(w, a, b);
    kids_carry_the_same(n, a, b, w, n.kids.len() as int);
    assert(m.kids.take(n.kids.len() as int) =~= m.kids);
    assert(n.kids.take(n.kids.len() as int) =~= n.kids);
    assert(carries(v)(m) == carries(w)(n));
    match n.head {
        ir::Head::FnRef(_, _, t) => {
            a_type_depends_on_the_same(t, a, b, w);
        },
        ir::Head::Block(_, t) => {
            a_type_depends_on_the_same(t, a, b, w);
        },
        ir::Head::Loop(_, t) => {
            a_type_depends_on_the_same(t, a, b, w);
        },
        _ => {},
    }
    assert(types_with(v)(m) == types_with(w)(n));
}

proof fn kids_carry_the_same(n: ir::Node, a: u16, b: u16, w: u16, k: int)
    requires
        0 <= k <= n.kids.len(),
    ensures
        ({
            let s = ir::swapped_all(n.kids, a, b);
            let v = other_number(w, a, b);
            &&& ir::count_in(s.take(k), carries(v)) == ir::count_in(n.kids.take(k), carries(w))
            &&& ir::count_in(s.take(k), types_with(v)) == ir::count_in(
                n.kids.take(k),
                types_with(w),
            )
        }),
    decreases n, 0int, k,
{
    let s = ir::swapped_all(n.kids, a, b);
    let v = other_number(w, a, b);
    if k > 0 {
        kids_carry_the_same(n, a, b, w, k - 1);
        code_carries_the_same(n.kids[k - 1], a, b, w);
        assert(s[k - 1] == ir::swapped(n.kids[k - 1], a, b));
        ir::count_step(s, carries(v), k - 1);
        ir::count_step(n.kids, carries(w), k - 1);
        ir::count_step(s, types_with(v), k - 1);
        ir::count_step(n.kids, types_with(w), k - 1);
    }
}

/// A variable is the same one under its new number: it keeps its name and what it is, and what
/// it is linked to it is linked to under the new numbers.
pub proof fn a_variable_keeps_what_it_is(f: data::FnView, a: u16, b: u16, x: u16, w: u16)
    requires
        a < f.vars.len(),
        b < f.vars.len(),
        x < f.vars.len(),
    ensures
        ({
            let g = work_buffer::exchanged(f, a, b);
            let was = f.vars[x as int];
            let now = g.vars[other_number(x, a, b) as int];
            let v = other_number(w, a, b);
            &&& g.vars.len() == f.vars.len()
            &&& now.name == was.name && now.argument == was.argument && now.work_ref
                == was.work_ref && now.caller_hidden_buf == was.caller_hidden_buf && now.skip_free
                == was.skip_free && now.defined == was.defined
            &&& now.rebind_orig == Some(v) <==> was.rebind_orig == Some(w)
            &&& now.promoted_from == Some(v) <==> was.promoted_from == Some(w)
            &&& now.viewers.contains(v) <==> was.viewers.contains(w)
            &&& depends_on(now.tp, v) == depends_on(was.tp, w)
            &&& forall|i: int|
                0 <= i < f.renames.len() ==> (#[trigger] g.renames[i]).0 == f.renames[i].0
                    && g.renames[i].1 == other_number(f.renames[i].1, a, b)
            &&& g.renames.len() == f.renames.len()
        }),
{
    let g = work_buffer::exchanged(f, a, b);
    let was = f.vars[x as int];
    let y = other_number(x, a, b);
    let now = g.vars[y as int];
    let v = other_number(w, a, b);
    assert(types::swapped_var(y, a, b) == x);
    assert(now == work_buffer::renumbered(was, a, b));
    a_type_depends_on_the_same(was.tp, a, b, w);
    if was.viewers.contains(w) {
        let i = choose|i: int| 0 <= i < was.viewers.len() && was.viewers[i] == w;
        assert(now.viewers[i] == v);
    }
    if now.viewers.contains(v) {
        let i = choose|i: int| 0 <= i < now.viewers.len() && now.viewers[i] == v;
        assert(was.viewers[i] == w);
    }
}

} // verus!
