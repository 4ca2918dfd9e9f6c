//! Placing the results of calls a second time changes nothing.

use crate::data::{self, Data, Definition};
use crate::ir::{self, Value};
use crate::place_result::{self, Bind, Flow, Mode, Ops, PlanView, Pos, St, Trace, Why};
use crate::text;
use vstd::prelude::*;

verus! {

/// The node at a path of child numbers; source positions are no step.
spec fn node_at(n: ir::Node, q: Seq<usize>) -> Option<ir::Node>
    decreases n,
{
    if n.head is Span && n.kids.len() > 0 {
        node_at(n.kids[0], q)
    } else if q.len() == 0 {
        Some(n)
    } else if q[0] < n.kids.len() {
        node_at(n.kids[q[0] as int], q.skip(1))
    } else {
        None
    }
}

proof fn at_nothing(n: ir::Node)
    ensures
        node_at(n, Seq::empty()) == Some(ir::unspan(n)),
    decreases n,
{
    if n.head is Span && n.kids.len() > 0 {
        at_nothing(n.kids[0]);
    }
}

proof fn at_kid(n: ir::Node, q: Seq<usize>, i: usize)
    requires
        node_at(n, q) is Some,
        i < node_at(n, q)->0.kids.len(),
    ensures
        node_at(n, q.push(i)) == Some(ir::unspan(node_at(n, q)->0.kids[i as int])),
    decreases n,
{
    if n.head is Span && n.kids.len() > 0 {
        at_kid(n.kids[0], q, i);
    } else if q.len() == 0 {
        assert(q.push(i).skip(1) =~= Seq::<usize>::empty());
        at_nothing(n.kids[i as int]);
    } else {
        assert(q.push(i)[0] == q[0]);
        assert(q.push(i).skip(1) =~= q.skip(1).push(i));
        at_kid(n.kids[q[0] as int], q.skip(1), i);
    }
}

/// A node with other children than its kind has.
pub open spec fn misshapen() -> spec_fn(ir::Node) -> bool {
    |n: ir::Node|
        n.kids.len() > usize::MAX || match n.head {
            ir::Head::Span(_) | ir::Head::Assign(_) | ir::Head::Return | ir::Head::Drop => n.kids.len()
                != 1,
            ir::Head::If => n.kids.len() != 3,
            ir::Head::Var(_) | ir::Head::Int(_) | ir::Head::Null => n.kids.len() != 0,
            _ => false,
        }
}

/// Whether a tree has the children that its kinds have.
pub open spec fn shaped(n: ir::Node) -> bool {
    !ir::any(n, misshapen())
}

proof fn none_at(s: Seq<ir::Node>, p: spec_fn(ir::Node) -> bool, i: int)
    requires
        !ir::any_in(s, p),
        0 <= i < s.len(),
    ensures
        !ir::any(s[i], p),
    decreases s.len(),
{
    if i < s.len() - 1 {
        none_at(s.drop_last(), p, i);
        assert(s.drop_last()[i] == s[i]);
    }
}

proof fn none_in(s: Seq<ir::Node>, p: spec_fn(ir::Node) -> bool)
    requires
        forall|i: int| 0 <= i < s.len() ==> !ir::any(#[trigger] s[i], p),
    ensures
        !ir::any_in(s, p),
    decreases s.len(),
{
    if s.len() > 0 {
        assert forall|i: int| 0 <= i < s.drop_last().len() implies !ir::any(
            #[trigger] s.drop_last()[i],
            p,
        ) by {
            assert(s.drop_last()[i] == s[i]);
        }
        none_in(s.drop_last(), p);
        assert(s.last() == s[s.len() - 1]);
    }
}

proof fn shaped_kid(n: ir::Node, i: int)
    requires
        shaped(n),
        0 <= i < n.kids.len(),
    ensures
        shaped(n.kids[i]),
        !misshapen()(n),
{
    none_at(n.kids, misshapen(), i);
}

proof fn shaped_under(n: ir::Node)
    requires
        shaped(n),
    ensures
        shaped(ir::unspan(n)),
        !(ir::unspan(n).head is Span),
        !misshapen()(ir::unspan(n)),
    decreases n,
{
    assert(!misshapen()(n));
    if n.head is Span {
        shaped_kid(n, 0);
        shaped_under(n.kids[0]);
    }
}

/// Under its source positions a leaf names its own variable and no other.
proof fn leaf_names(n: ir::Node, w: u16)
    requires
        shaped(n),
        ir::unspan(n).kids.len() == 0,
    ensures
        ir::mentioned(n, w) == (ir::var_of(ir::unspan(n).head) == Some(w)),
    decreases n,
{
    assert(!misshapen()(n));
    if n.head is Span {
        shaped_kid(n, 0);
        leaf_names(n.kids[0], w);
        assert(n.kids.drop_last() =~= Seq::<ir::Node>::empty());
        assert(n.kids.last() == n.kids[0]);
        assert(!ir::names(w)(n));
        assert(!ir::any_in(n.kids.drop_last(), ir::names(w)));
    } else {
        assert(!ir::any_in(n.kids, ir::names(w)));
        assert(ir::names(w)(n) == (ir::var_of(n.head) == Some(w)));
    }
}

/// The copy of local `v` into a place.
spec fn copies(ops: Ops, v: u16, m: ir::Node) -> bool {
    &&& m.head == ir::Head::Call(ops.copy)
    &&& m.kids.len() == 3
    &&& ir::unspan(m.kids[0]).head == ir::Head::Var(v)
    &&& ir::unspan(m.kids[2]).head is Int
}

/// The release of local `v`.
spec fn releases(ops: Ops, own: Option<u16>, v: u16, m: ir::Node) -> bool {
    ||| m.head == ir::Head::Call(ops.free_ref) && m.kids.len() == 1 && ir::unspan(m.kids[0]).head
        == ir::Head::Var(v)
    ||| m.head == ir::Head::Call(ops.free_if_distinct) && m.kids.len() == 2 && ir::unspan(
        m.kids[0],
    ).head == ir::Head::Var(v) && own is Some && ir::unspan(m.kids[1]).head == ir::Head::Var(
        own->0,
    )
}

/// The release of buffer `buf` where it is not `v`.
spec fn guards(ops: Ops, v: u16, buf: u16, m: ir::Node) -> bool {
    m.head == ir::Head::Call(ops.free_if_distinct) && m.kids.len() == 2 && ir::unspan(
        m.kids[0],
    ).head == ir::Head::Var(buf) && ir::unspan(m.kids[1]).head == ir::Head::Var(v)
}

/// Whether the sites of a plan, or of what was found so far, are what they should be.
spec fn sited(
    root: ir::Node,
    ops: Ops,
    own: Option<u16>,
    v: u16,
    buf: u16,
    moves: Seq<Seq<usize>>,
    held: Seq<Seq<usize>>,
    dropped: Seq<Seq<usize>>,
) -> bool {
    &&& forall|q: Seq<usize>| #[trigger]
        moves.contains(q) ==> (node_at(root, q) matches Some(m) && copies(ops, v, m))
    &&& forall|q: Seq<usize>| #[trigger]
        held.contains(q) ==> (node_at(root, q) matches Some(m) && releases(ops, own, v, m))
    &&& forall|q: Seq<usize>| #[trigger]
        dropped.contains(q) ==> (node_at(root, q) matches Some(m) && (releases(ops, own, v, m)
            || guards(ops, v, buf, m)))
}

spec fn found(root: ir::Node, e: Bind, t: Trace) -> bool {
    &&& sited(root, e.ops, e.own_retbuf, e.v, e.buf, t.moves, t.held, t.dropped)
    &&& forall|k: u16|
        t.elements.contains_key(k) ==> e.vars.argument(#[trigger] t.elements[k])
    &&& t.host matches Some(h) ==> e.vars.argument(h)
}

proof fn one_more(s: Seq<Seq<usize>>, x: Seq<usize>)
    ensures
        forall|q: Seq<usize>| #[trigger]
            s.push(x).contains(q) ==> s.contains(q) || q == x,
{
    assert forall|q: Seq<usize>| #[trigger] s.push(x).contains(q) implies s.contains(q) || q
        == x by {
        let i = choose|i: int| 0 <= i < s.push(x).len() && s.push(x)[i] == q;
        if i < s.len() {
            assert(s[i] == q);
        }
    }
}

proof fn walk_finds(
    root: ir::Node,
    e: Bind,
    t: Trace,
    n: ir::Node,
    st: St,
    pos: Pos,
    loops: bool,
    path: Seq<usize>,
)
    requires
        found(root, e, t),
        shaped(n),
        node_at(root, path) == Some(ir::unspan(n)),
    ensures
        found(root, e, place_result::walk(e, t, n, st, pos, loops, path).1),
    decreases n, n.kids.len() + 2,
{
    assert(!misshapen()(n));
    if n.head is Span {
        shaped_kid(n, 0);
        walk_finds(root, e, t, n.kids[0], st, pos, loops, path);
    } else {
        match n.head {
            ir::Head::Assign(w) => {
                shaped_kid(n, 0);
                at_kid(root, path, 0);
                let more = place_result::noted(e, t, w, n.kids[0]);
                assert(found(root, e, more));
                walk_finds(root, e, more, n.kids[0], st, Pos::Arg, loops, path.push(0));
            },
            ir::Head::Call(d) => {
                call_finds(root, e, t, d, n, st, pos, loops, path);
            },
            ir::Head::If => {
                shaped_kid(n, 0);
                shaped_kid(n, 1);
                shaped_kid(n, 2);
                at_kid(root, path, 0);
                at_kid(root, path, 1);
                at_kid(root, path, 2);
                let s = n.kids;
                assert(place_result::walk(e, t, n, st, pos, loops, path)
                    == place_result::walk_branches(e, t, s, st, loops, path));
                walk_finds(root, e, t, s[0], st, Pos::Arg, loops, path.push(0));
                let (rc, tc) = place_result::walk(e, t, s[0], st, Pos::Arg, loops, path.push(0));
                match rc {
                    Ok(Flow::Next(now)) => {
                        walk_finds(root, e, tc, s[1], now, Pos::Stmt, loops, path.push(1));
                        let (rt, tt) = place_result::walk(
                            e,
                            tc,
                            s[1],
                            now,
                            Pos::Stmt,
                            loops,
                            path.push(1),
                        );
                        if rt is Ok {
                            walk_finds(root, e, tt, s[2], now, Pos::Stmt, loops, path.push(2));
                        }
                    },
                    _ => {},
                }
            },
            ir::Head::Block(_, _) => {
                stmts_find(root, e, t, n, 0, st, loops, path);
            },
            ir::Head::Loop(_, _) => {
                stmts_find(root, e, t, n, 0, st, true, path);
            },
            ir::Head::Return | ir::Head::Drop => {
                shaped_kid(n, 0);
                at_kid(root, path, 0);
                walk_finds(root, e, t, n.kids[0], st, Pos::Arg, loops, path.push(0));
            },
            _ => {},
        }
    }
}

proof fn stmts_find(
    root: ir::Node,
    e: Bind,
    t: Trace,
    n: ir::Node,
    i: int,
    st: St,
    loops: bool,
    path: Seq<usize>,
)
    requires
        found(root, e, t),
        shaped(n),
        node_at(root, path) == Some(n),
        0 <= i <= n.kids.len(),
    ensures
        found(root, e, place_result::walk_stmts(e, t, n.kids, i, st, loops, path).1),
    decreases n, n.kids.len() - i,
{
    if i < n.kids.len() {
        shaped_kid(n, i);
        at_kid(root, path, i as usize);
        walk_finds(root, e, t, n.kids[i], st, Pos::Stmt, loops, path.push(i as usize));
        let (r, u) = place_result::walk(
            e,
            t,
            n.kids[i],
            st,
            Pos::Stmt,
            loops,
            path.push(i as usize),
        );
        match r {
            Ok(Flow::Next(next)) => stmts_find(root, e, u, n, i + 1, next, loops, path),
            _ => {},
        }
    }
}

proof fn args_find(
    root: ir::Node,
    e: Bind,
    t: Trace,
    n: ir::Node,
    i: int,
    st: St,
    loops: bool,
    path: Seq<usize>,
)
    requires
        found(root, e, t),
        shaped(n),
        node_at(root, path) == Some(n),
        0 <= i <= n.kids.len(),
    ensures
        found(root, e, place_result::walk_args(e, t, n.kids, i, st, loops, path).1),
    decreases n, n.kids.len() - i,
{
    if i < n.kids.len() {
        shaped_kid(n, i);
        at_kid(root, path, i as usize);
        let pos = if i == 0 {
            Pos::Recv
        } else {
            Pos::Arg
        };
        walk_finds(root, e, t, n.kids[i], st, pos, loops, path.push(i as usize));
        let (r, u) = place_result::walk(e, t, n.kids[i], st, pos, loops, path.push(i as usize));
        match r {
            Ok(Flow::Next(next)) => args_find(root, e, u, n, i + 1, next, loops, path),
            _ => {},
        }
    }
}

proof fn call_finds(
    root: ir::Node,
    e: Bind,
    t: Trace,
    d: u32,
    n: ir::Node,
    st: St,
    pos: Pos,
    loops: bool,
    path: Seq<usize>,
)
    requires
        found(root, e, t),
        shaped(n),
        n.head == ir::Head::Call(d),
        node_at(root, path) == Some(n),
    ensures
        found(root, e, place_result::walk_call(e, t, d, n.kids, st, pos, loops, path).1),
    decreases n, n.kids.len() + 1,
{
    one_more(t.moves, path);
    one_more(t.held, path);
    one_more(t.dropped, path);
    args_find(root, e, t, n, 0, st, loops, path);
}

/// Code and the plans that were made for it.
struct Planned {
    root: ir::Node,
    plans: Seq<PlanView>,
    ops: Ops,
    own: Option<u16>,
}

/// Whether all operators are different ones.
spec fn distinct(ops: Ops) -> bool {
    let all = seq![
        ops.copy,
        ops.free_ref,
        ops.free_if_distinct,
        ops.new_record,
        ops.get_field,
        ops.place,
        ops.move_rec,
        ops.free_in,
    ];
    all.no_duplicates()
}

proof fn differ(ops: Ops)
    requires
        distinct(ops),
    ensures
        ops.copy != ops.free_ref,
        ops.copy != ops.free_if_distinct,
        ops.copy != ops.new_record,
        ops.copy != ops.get_field,
        ops.copy != ops.place,
        ops.copy != ops.move_rec,
        ops.copy != ops.free_in,
        ops.free_ref != ops.free_if_distinct,
        ops.free_ref != ops.new_record,
        ops.free_ref != ops.get_field,
        ops.free_ref != ops.place,
        ops.free_ref != ops.move_rec,
        ops.free_ref != ops.free_in,
        ops.free_if_distinct != ops.new_record,
        ops.free_if_distinct != ops.get_field,
        ops.free_if_distinct != ops.place,
        ops.free_if_distinct != ops.move_rec,
        ops.free_if_distinct != ops.free_in,
        ops.new_record != ops.place,
        ops.new_record != ops.move_rec,
        ops.new_record != ops.free_in,
        ops.get_field != ops.move_rec,
        ops.get_field != ops.free_in,
{
    let all = seq![
        ops.copy,
        ops.free_ref,
        ops.free_if_distinct,
        ops.new_record,
        ops.get_field,
        ops.place,
        ops.move_rec,
        ops.free_in,
    ];
    assert(all[0] == ops.copy && all[1] == ops.free_ref && all[2] == ops.free_if_distinct && all[3]
        == ops.new_record && all[4] == ops.get_field && all[5] == ops.place && all[6]
        == ops.move_rec && all[7] == ops.free_in);
}

spec fn sound(b: Planned) -> bool {
    &&& distinct(b.ops)
    &&& forall|k: int|
        0 <= k < b.plans.len() ==> sited(
            b.root,
            b.ops,
            b.own,
            (#[trigger] b.plans[k]).v,
            b.plans[k].buf,
            b.plans[k].moves,
            b.plans[k].held,
            b.plans[k].dropped,
        )
}

/// No plan has anything to do with variable `w`.
spec fn silent(b: Planned, w: u16) -> bool {
    &&& b.own != Some(w)
    &&& forall|k: int|
        0 <= k < b.plans.len() ==> (#[trigger] b.plans[k]).v != w && b.plans[k].buf != w
            && b.plans[k].host != w
}

spec fn stands(b: Planned, n: ir::Node, path: Seq<usize>) -> bool {
    shaped(n) && node_at(b.root, path) == Some(ir::unspan(n))
}

spec fn done(b: Planned, n: ir::Node, path: Seq<usize>) -> ir::Node {
    place_result::applied(n, path, b.plans, b.ops)
}

proof fn kid_stands(b: Planned, n: ir::Node, path: Seq<usize>, i: int)
    requires
        stands(b, n, path),
        !(n.head is Span),
        0 <= i < n.kids.len(),
    ensures
        stands(b, n.kids[i], path.push(i as usize)),
        !misshapen()(n),
{
    shaped_kid(n, i);
    at_kid(b.root, path, i as usize);
}

proof fn move_known(plans: Seq<PlanView>, path: Seq<usize>, i: int)
    requires
        0 <= i,
    ensures
        place_result::moving(plans, path, i) matches Some(p) ==> exists|k: int|
            0 <= k < plans.len() && #[trigger] plans[k] == p && p.moves.contains(path),
        place_result::releasing(plans, path, i) matches Some(p) ==> exists|k: int|
            0 <= k < plans.len() && #[trigger] plans[k] == p && p.held.contains(path),
        place_result::dropping(plans, path, i) ==> exists|k: int|
            0 <= k < plans.len() && (#[trigger] plans[k]).dropped.contains(path),
    decreases plans.len() - i,
{
    if i < plans.len() {
        move_known(plans, path, i + 1);
    }
}

proof fn place_known(plans: Seq<PlanView>, w: u16, i: int)
    requires
        0 <= i,
    ensures
        place_result::placing(plans, w, i) matches Some(p) ==> exists|k: int|
            0 <= k < plans.len() && #[trigger] plans[k] == p && p.buf == w,
        place_result::placing(plans, w, i) is None ==> forall|k: int|
            i <= k < plans.len() ==> (#[trigger] plans[k]).buf != w,
    decreases plans.len() - i,
{
    if i < plans.len() {
        place_known(plans, w, i + 1);
    }
}

proof fn each_at(
    s: Seq<ir::Node>,
    i: int,
    path: Seq<usize>,
    plans: Seq<PlanView>,
    ops: Ops,
    step: bool,
)
    requires
        0 <= i <= s.len(),
    ensures
        place_result::each_applied(s, i, path, plans, ops, step).len() == s.len() - i,
        forall|j: int|
            i <= j < s.len() ==> #[trigger] place_result::each_applied(
                s,
                i,
                path,
                plans,
                ops,
                step,
            )[j - i] == place_result::applied(
                s[j],
                if step {
                    path.push(j as usize)
                } else {
                    path
                },
                plans,
                ops,
            ),
    decreases s.len() - i,
{
    if i < s.len() {
        each_at(s, i + 1, path, plans, ops, step);
        let all = place_result::each_applied(s, i, path, plans, ops, step);
        let rest = place_result::each_applied(s, i + 1, path, plans, ops, step);
        assert forall|j: int| i <= j < s.len() implies #[trigger] all[j - i]
            == place_result::applied(
            s[j],
            if step {
                path.push(j as usize)
            } else {
                path
            },
            plans,
            ops,
        ) by {
            if j > i {
                assert(all[j - i] == rest[j - (i + 1)]);
            }
        }
    }
}

proof fn kids_done(b: Planned, n: ir::Node, path: Seq<usize>, step: bool)
    ensures
        ({
            let kids = place_result::each_applied(n.kids, 0, path, b.plans, b.ops, step);
            &&& kids.len() == n.kids.len()
            &&& forall|j: int|
                0 <= j < n.kids.len() ==> #[trigger] kids[j] == done(
                    b,
                    n.kids[j],
                    if step {
                        path.push(j as usize)
                    } else {
                        path
                    },
                )
        }),
{
    each_at(n.kids, 0, path, b.plans, b.ops, step);
    let kids = place_result::each_applied(n.kids, 0, path, b.plans, b.ops, step);
    assert forall|j: int| 0 <= j < n.kids.len() implies #[trigger] kids[j] == done(
        b,
        n.kids[j],
        if step {
            path.push(j as usize)
        } else {
            path
        },
    ) by {
        assert(kids[j - 0] == kids[j]);
    }
}

/// Under its source positions a node is done as it is with them.
proof fn done_under(b: Planned, n: ir::Node, path: Seq<usize>)
    requires
        shaped(n),
    ensures
        ir::unspan(done(b, n, path)) == done(b, ir::unspan(n), path),
        done(b, n, path).head is Span <==> n.head is Span,
        n.head is Span ==> done(b, n, path).kids == seq![done(b, n.kids[0], path)]
            && done(b, n, path).head == n.head,
    decreases n,
{
    assert(!misshapen()(n));
    if n.head is Span {
        shaped_kid(n, 0);
        kids_done(b, n, path, false);
        assert(done(b, n, path).kids =~= seq![done(b, n.kids[0], path)]);
        done_under(b, n.kids[0], path);
    }
}

/// What a dropped statement, or one that is released, names: nothing but what its plan
/// has to do with.
proof fn release_names(b: Planned, m: ir::Node, v: u16, buf: u16, w: u16)
    requires
        shaped(m),
        releases(b.ops, b.own, v, m) || guards(b.ops, v, buf, m),
        w != v,
        w != buf,
        b.own != Some(w),
    ensures
        !ir::mentioned(m, w),
{
    assert forall|i: int| 0 <= i < m.kids.len() implies !ir::any(
        #[trigger] m.kids[i],
        ir::names(w),
    ) by {
        shaped_kid(m, i);
        shaped_under(m.kids[i]);
        leaf_names(m.kids[i], w);
    }
    none_in(m.kids, ir::names(w));
    assert(!ir::names(w)(m));
}

proof fn under_names(n: ir::Node, w: u16)
    requires
        shaped(n),
    ensures
        ir::mentioned(n, w) == ir::mentioned(ir::unspan(n), w),
    decreases n,
{
    assert(!misshapen()(n));
    if n.head is Span {
        shaped_kid(n, 0);
        under_names(n.kids[0], w);
        assert(n.kids.drop_last() =~= Seq::<ir::Node>::empty());
        assert(n.kids.last() == n.kids[0]);
        assert(!ir::names(w)(n));
        assert(!ir::any_in(n.kids.drop_last(), ir::names(w)));
    }
}

proof fn kept_has(
    s: Seq<ir::Node>,
    i: int,
    j: int,
    path: Seq<usize>,
    plans: Seq<PlanView>,
    ops: Ops,
)
    requires
        0 <= i <= j < s.len(),
        !place_result::dropping(plans, path.push(j as usize), 0),
    ensures
        place_result::kept_applied(s, i, path, plans, ops).contains(
            place_result::applied(s[j], path.push(j as usize), plans, ops),
        ),
    decreases j - i,
{
    let all = place_result::kept_applied(s, i, path, plans, ops);
    if i < j {
        kept_has(s, i + 1, j, path, plans, ops);
        let rest = place_result::kept_applied(s, i + 1, path, plans, ops);
        let x = place_result::applied(s[j], path.push(j as usize), plans, ops);
        let k = choose|k: int| 0 <= k < rest.len() && rest[k] == x;
        if place_result::dropping(plans, path.push(i as usize), 0) {
            assert(all[k] == x);
        } else {
            assert(all[k + 1] == x);
        }
    } else {
        assert(all[0] == place_result::applied(s[j], path.push(j as usize), plans, ops));
    }
}

proof fn kept_from(
    s: Seq<ir::Node>,
    i: int,
    path: Seq<usize>,
    plans: Seq<PlanView>,
    ops: Ops,
    k: int,
) -> (j: int)
    requires
        0 <= i <= s.len(),
        0 <= k < place_result::kept_applied(s, i, path, plans, ops).len(),
    ensures
        i <= j < s.len(),
        !place_result::dropping(plans, path.push(j as usize), 0),
        place_result::kept_applied(s, i, path, plans, ops)[k] == place_result::applied(
            s[j],
            path.push(j as usize),
            plans,
            ops,
        ),
        place_result::kept_applied(s, i, path, plans, ops).skip(k)
            == place_result::kept_applied(s, j, path, plans, ops),
    decreases s.len() - i,
{
    let all = place_result::kept_applied(s, i, path, plans, ops);
    let rest = place_result::kept_applied(s, i + 1, path, plans, ops);
    if place_result::dropping(plans, path.push(i as usize), 0) {
        kept_from(s, i + 1, path, plans, ops, k)
    } else if k == 0 {
        assert(all.skip(0) =~= all);
        i
    } else {
        let j = kept_from(s, i + 1, path, plans, ops, k - 1);
        assert(all[k] == rest[k - 1]);
        assert(all.skip(k) =~= rest.skip(k - 1));
        j
    }
}

/// What is done to a node neither adds nor takes away the names of variables that no plan
/// has to do with.
proof fn names_stay(b: Planned, n: ir::Node, path: Seq<usize>, w: u16)
    requires
        sound(b),
        silent(b, w),
        stands(b, n, path),
    ensures
        ir::mentioned(done(b, n, path), w) == ir::mentioned(n, w),
    decreases n,
{
    let p = ir::names(w);
    let m = done(b, n, path);
    differ(b.ops);
    assert(!misshapen()(n));
    move_known(b.plans, path, 0);
    if n.head is Span {
        shaped_kid(n, 0);
        done_under(b, n, path);
        names_stay(b, n.kids[0], path, w);
        under_names(n, w);
        under_names(n.kids[0], w);
        assert(m.kids.drop_last() =~= Seq::<ir::Node>::empty());
        assert(m.kids.last() == done(b, n.kids[0], path));
        assert(!p(m));
        assert(!ir::any_in(m.kids.drop_last(), p));
    } else if n.head is Block || n.head is Loop {
        assert(p(m) == p(n));
        if !ir::any_in(n.kids, p) {
            assert forall|k: int| 0 <= k < m.kids.len() implies !ir::any(#[trigger] m.kids[k], p) by {
                let j = kept_from(n.kids, 0, path, b.plans, b.ops, k);
                kid_stands(b, n, path, j);
                none_at(n.kids, p, j);
                names_stay(b, n.kids[j], path.push(j as usize), w);
            }
            none_in(m.kids, p);
        }
        if !ir::any_in(m.kids, p) {
            assert forall|j: int| 0 <= j < n.kids.len() implies !ir::any(#[trigger] n.kids[j], p) by {
                kid_stands(b, n, path, j);
                move_known(b.plans, path.push(j as usize), 0);
                if place_result::dropping(b.plans, path.push(j as usize), 0) {
                    let k = choose|k: int|
                        0 <= k < b.plans.len() && (#[trigger] b.plans[k]).dropped.contains(
                            path.push(j as usize),
                        );
                    shaped_under(n.kids[j]);
                    release_names(
                        b,
                        ir::unspan(n.kids[j]),
                        b.plans[k].v,
                        b.plans[k].buf,
                        w,
                    );
                    under_names(n.kids[j], w);
                } else {
                    kept_has(n.kids, 0, j, path, b.plans, b.ops);
                    let x = done(b, n.kids[j], path.push(j as usize));
                    let k = choose|k: int| 0 <= k < m.kids.len() && m.kids[k] == x;
                    none_at(m.kids, p, k);
                    names_stay(b, n.kids[j], path.push(j as usize), w);
                }
            }
            none_in(n.kids, p);
        }
    } else {
        kids_done(b, n, path, true);
        let kids = place_result::each_applied(n.kids, 0, path, b.plans, b.ops, true);
        assert forall|j: int| 0 <= j < n.kids.len() implies ir::mentioned(#[trigger] kids[j], w)
            == ir::mentioned(n.kids[j], w) by {
            kid_stands(b, n, path, j);
            names_stay(b, n.kids[j], path.push(j as usize), w);
        }
        same_names(n.kids, kids, w);
        special_names(b, n, path, w);
    }
}

proof fn same_names(a: Seq<ir::Node>, c: Seq<ir::Node>, w: u16)
    requires
        a.len() == c.len(),
        forall|j: int| 0 <= j < a.len() ==> ir::mentioned(#[trigger] c[j], w) == ir::mentioned(a[j], w),
    ensures
        ir::any_in(a, ir::names(w)) == ir::any_in(c, ir::names(w)),
{
    let p = ir::names(w);
    if !ir::any_in(a, p) {
        assert forall|j: int| 0 <= j < c.len() implies !ir::any(#[trigger] c[j], p) by {
            none_at(a, p, j);
        }
        none_in(c, p);
    }
    if !ir::any_in(c, p) {
        assert forall|j: int| 0 <= j < a.len() implies !ir::any(#[trigger] a[j], p) by {
            none_at(c, p, j);
            assert(ir::mentioned(c[j], w) == ir::mentioned(a[j], w));
        }
        none_in(a, p);
    }
}

/// The nodes that a plan replaces name nothing else before and after.
proof fn special_names(b: Planned, n: ir::Node, path: Seq<usize>, w: u16)
    requires
        sound(b),
        silent(b, w),
        stands(b, n, path),
        !(n.head is Span),
        !(n.head is Block),
        !(n.head is Loop),
        ir::any_in(n.kids, ir::names(w)) == ir::any_in(
            place_result::each_applied(n.kids, 0, path, b.plans, b.ops, true),
            ir::names(w),
        ),
    ensures
        ir::mentioned(done(b, n, path), w) == ir::mentioned(n, w),
{
    let p = ir::names(w);
    let m = done(b, n, path);
    differ(b.ops);
    assert(!misshapen()(n));
    move_known(b.plans, path, 0);
    match n.head {
        ir::Head::Assign(x) => {
            place_known(b.plans, x, 0);
            shaped_kid(n, 0);
            if ir::unspan(n.kids[0]).head is Null && place_result::placing(b.plans, x, 0) is Some {
                let q = place_result::placing(b.plans, x, 0)->0;
                shaped_under(n.kids[0]);
                leaf_names(n.kids[0], w);
                call_names(b.ops.place, q.host, q.tp, w);
                assert(m.kids =~= seq![place_result::call_node(b.ops.place, q.host, q.tp)]);
                assert(n.kids =~= seq![n.kids[0]]);
                assert forall|j: int| 0 <= j < m.kids.len() implies ir::mentioned(
                    #[trigger] m.kids[j],
                    w,
                ) == ir::mentioned(n.kids[j], w) by {}
                same_names(n.kids, m.kids, w);
                assert(p(m) == p(n));
            } else {
                assert(p(m) == p(n));
            }
        },
        ir::Head::Call(d) => {
            if d == b.ops.copy && n.kids.len() == 3 && place_result::moving(b.plans, path, 0) is Some {
                let q = place_result::moving(b.plans, path, 0)->0;
                let k = choose|k: int|
                    0 <= k < b.plans.len() && #[trigger] b.plans[k] == q && q.moves.contains(path);
                assert(copies(b.ops, q.v, n));
                shaped_kid(n, 2);
                shaped_under(n.kids[2]);
                leaf_names(n.kids[2], w);
                let number = ir::leaf(ir::Head::Int(q.tp as i32));
                assert(!ir::any_in(number.kids, p));
                assert(!ir::mentioned(number, w));
                assert forall|j: int| 0 <= j < 3 implies ir::mentioned(#[trigger] m.kids[j], w)
                    == ir::mentioned(n.kids[j], w) by {
                    if j == 2 {
                        assert(m.kids[2] == number);
                    }
                }
                same_names(n.kids, m.kids, w);
                assert(!p(m) && !p(n));
            } else if (d == b.ops.free_ref || d == b.ops.free_if_distinct)
                && place_result::releasing(b.plans, path, 0) is Some {
                let q = place_result::releasing(b.plans, path, 0)->0;
                let k = choose|k: int|
                    0 <= k < b.plans.len() && #[trigger] b.plans[k] == q && q.held.contains(path);
                release_names(b, n, q.v, q.buf, w);
                call_names(b.ops.free_in, q.v, q.tp, w);
            } else {
                assert(!p(m) && !p(n));
            }
        },
        _ => {
            assert(p(m) == p(n));
        },
    }
}

proof fn call_names(d: u32, v: u16, tp: u16, w: u16)
    ensures
        ir::mentioned(place_result::call_node(d, v, tp), w) == (v == w),
{
    let m = place_result::call_node(d, v, tp);
    let p = ir::names(w);
    let a = ir::leaf(ir::Head::Var(v));
    let i = ir::leaf(ir::Head::Int(tp as i32));
    assert(!ir::any_in(a.kids, p));
    assert(!ir::any_in(i.kids, p));
    assert(p(a) == (v == w));
    assert(!p(i));
    assert(!p(m));
    assert(m.kids.drop_last() =~= seq![a]);
    assert(m.kids.last() == i);
    assert(seq![a].drop_last() =~= Seq::<ir::Node>::empty());
    assert(seq![a].last() == a);
    assert(!ir::any_in(Seq::<ir::Node>::empty(), p));
    assert(ir::any_in(seq![a], p) == ir::any(a, p));
    assert(ir::any_in(m.kids, p) == (ir::any_in(m.kids.drop_last(), p) || ir::any(m.kids.last(), p)));
}

/// Whether two binds are the same but for the operands of their calls: what an operand
/// of the one does not name, none of the other does.
spec fn alike(e0: Bind, e1: Bind) -> bool {
    &&& e0.vars == e1.vars
    &&& e0.ops == e1.ops
    &&& e0.v == e1.v
    &&& e0.buf == e1.buf
    &&& e0.buf_idx == e1.buf_idx
    &&& e0.own_retbuf == e1.own_retbuf
    &&& e0.args.len() == e1.args.len()
    &&& e0.defs.len() == e1.defs.len()
    &&& forall|d: int|
        0 <= d < e0.defs.len() ==> (#[trigger] e0.defs[d]).loft_defined == e1.defs[d].loft_defined
            && e0.defs[d].name@ == e1.defs[d].name@ && e0.defs[d].returned@ == e1.defs[d].returned@
    &&& forall|w: u16|
        !#[trigger] place_result::argument_names(e1, w, e1.args.len() as int)
            ==> !place_result::argument_names(e0, w, e0.args.len() as int)
}

spec fn same_trace(t0: Trace, t1: Trace) -> bool {
    t0.host == t1.host && t0.tp == t1.tp && t0.elements == t1.elements
}

/// Whether a walk that gets through after the plans got through before them as well.
spec fn follows(r1: (Result<Flow, Why>, Trace), r0: (Result<Flow, Why>, Trace)) -> bool {
    r1.0 is Ok ==> r0.0 == r1.0 && same_trace(r0.1, r1.1)
}

/// Plans that have nothing to do with a bind, over operators that are no code of the
/// language.
spec fn apt(b: Planned, e: Bind) -> bool {
    &&& sound(b)
    &&& silent(b, e.v)
    &&& silent(b, e.buf)
    &&& b.ops == e.ops
    &&& b.ops.copy < e.defs.len()
    &&& b.ops.free_ref < e.defs.len()
    &&& b.ops.free_if_distinct < e.defs.len()
    &&& !e.defs[b.ops.copy as int].loft_defined
    &&& !text::is_prefix("OpFreeRef"@, e.defs[b.ops.copy as int].name@)
}

proof fn none_named(e: Bind, s: Seq<ir::Node>, k: int)
    requires
        0 <= k <= s.len(),
        forall|j: int| 0 <= j < k ==> !place_result::names_either(e, #[trigger] s[j]),
    ensures
        !place_result::any_names_either(e, s, k),
    decreases k,
{
    if k > 0 {
        none_named(e, s, k - 1);
    }
}

proof fn named_alike(e0: Bind, e1: Bind, a: Seq<ir::Node>, c: Seq<ir::Node>, k: int)
    requires
        0 <= k <= a.len() == c.len(),
        forall|j: int|
            0 <= j < a.len() ==> place_result::names_either(e1, #[trigger] c[j])
                == place_result::names_either(e0, a[j]),
    ensures
        place_result::any_names_either(e1, c, k) == place_result::any_names_either(e0, a, k),
    decreases k,
{
    if k > 0 {
        named_alike(e0, e1, a, c, k - 1);
        assert(place_result::names_either(e1, c[k - 1]) == place_result::names_either(e0, a[k - 1]));
    }
}

/// A leaf that names neither the local nor the buffer is passed.
proof fn leaf_passed(e: Bind, t: Trace, n: ir::Node, st: St, pos: Pos, loops: bool, path: Seq<usize>)
    requires
        shaped(n),
        ir::unspan(n).head is Var || ir::unspan(n).head is Int || ir::unspan(n).head is Null,
        ir::unspan(n).head != ir::Head::Var(e.v),
        ir::unspan(n).head != ir::Head::Var(e.buf),
    ensures
        place_result::walk(e, t, n, st, pos, loops, path) == (Ok::<Flow, Why>(Flow::Next(st)), t),
    decreases n,
{
    assert(!misshapen()(n));
    if n.head is Span {
        shaped_kid(n, 0);
        leaf_passed(e, t, n.kids[0], st, pos, loops, path);
    } else {
        leaf_names(n, e.v);
        leaf_names(n, e.buf);
    }
}

/// The release of something else is passed.
proof fn release_passed(
    b: Planned,
    e: Bind,
    t: Trace,
    n: ir::Node,
    v: u16,
    buf: u16,
    st: St,
    pos: Pos,
    loops: bool,
    path: Seq<usize>,
)
    requires
        apt(b, e),
        shaped(n),
        releases(b.ops, b.own, v, ir::unspan(n)) || guards(b.ops, v, buf, ir::unspan(n)),
        v != e.v && v != e.buf && buf != e.v && buf != e.buf,
    ensures
        place_result::walk(e, t, n, st, pos, loops, path) == (Ok::<Flow, Why>(Flow::Next(st)), t),
    decreases n,
{
    assert(!misshapen()(n));
    differ(b.ops);
    if n.head is Span {
        shaped_kid(n, 0);
        release_passed(b, e, t, n.kids[0], v, buf, st, pos, loops, path);
    } else {
        assert forall|j: int| 0 <= j < n.kids.len() implies !place_result::names_either(
            e,
            #[trigger] n.kids[j],
        ) by {
            shaped_kid(n, j);
            shaped_under(n.kids[j]);
            leaf_names(n.kids[j], e.v);
            leaf_names(n.kids[j], e.buf);
        }
        none_named(e, n.kids, n.kids.len() as int);
        let d = n.head->Call_0;
        assert(place_result::walk(e, t, n, st, pos, loops, path) == place_result::walk_call(
            e,
            t,
            d,
            n.kids,
            st,
            pos,
            loops,
            path,
        ));
    }
}

proof fn sim(
    b: Planned,
    e0: Bind,
    e1: Bind,
    t0: Trace,
    t1: Trace,
    n: ir::Node,
    st: St,
    pos: Pos,
    loops: bool,
    path: Seq<usize>,
    path1: Seq<usize>,
)
    requires
        apt(b, e0),
        alike(e0, e1),
        same_trace(t0, t1),
        stands(b, n, path),
    ensures
        follows(
            place_result::walk(e1, t1, done(b, n, path), st, pos, loops, path1),
            place_result::walk(e0, t0, n, st, pos, loops, path),
        ),
    decreases n, n.kids.len() + 3,
{
    assert(!misshapen()(n));
    differ(b.ops);
    let m = done(b, n, path);
    if n.head is Span {
        shaped_kid(n, 0);
        done_under(b, n, path);
        sim(b, e0, e1, t0, t1, n.kids[0], st, pos, loops, path, path1);
    } else {
        match n.head {
            ir::Head::Assign(w) => {
                sim_assign(b, e0, e1, t0, t1, w, n, st, pos, loops, path, path1);
            },
            ir::Head::Call(d) => {
                sim_call(b, e0, e1, t0, t1, d, n, st, pos, loops, path, path1);
            },
            ir::Head::If => {
                sim_if(b, e0, e1, t0, t1, n, st, pos, loops, path, path1);
            },
            ir::Head::Block(_, _) => {
                assert(m.kids.skip(0) =~= m.kids);
                sim_stmts(b, e0, e1, t0, t1, n, 0, m.kids, 0, st, loops, path, path1);
            },
            ir::Head::Loop(_, _) => {
                assert(m.kids.skip(0) =~= m.kids);
                sim_stmts(b, e0, e1, t0, t1, n, 0, m.kids, 0, st, true, path, path1);
            },
            ir::Head::Return | ir::Head::Drop => {
                kids_done(b, n, path, true);
                kid_stands(b, n, path, 0);
                sim(
                    b,
                    e0,
                    e1,
                    t0,
                    t1,
                    n.kids[0],
                    st,
                    Pos::Arg,
                    loops,
                    path.push(0),
                    path1.push(0),
                );
                assert(m.kids[0] == done(b, n.kids[0], path.push(0)));
            },
            _ => {
                assert(m == n);
            },
        }
    }
}

proof fn sim_if(
    b: Planned,
    e0: Bind,
    e1: Bind,
    t0: Trace,
    t1: Trace,
    n: ir::Node,
    st: St,
    pos: Pos,
    loops: bool,
    path: Seq<usize>,
    path1: Seq<usize>,
)
    requires
        apt(b, e0),
        alike(e0, e1),
        same_trace(t0, t1),
        stands(b, n, path),
        n.head is If,
    ensures
        follows(
            place_result::walk(e1, t1, done(b, n, path), st, pos, loops, path1),
            place_result::walk(e0, t0, n, st, pos, loops, path),
        ),
    decreases n, n.kids.len() + 2,
{
    assert(!misshapen()(n));
    let m = done(b, n, path);
    kids_done(b, n, path, true);
    kid_stands(b, n, path, 0);
    kid_stands(b, n, path, 1);
    kid_stands(b, n, path, 2);
    let s = n.kids;
    assert(m.kids[0] == done(b, s[0], path.push(0)));
    assert(m.kids[1] == done(b, s[1], path.push(1)));
    assert(m.kids[2] == done(b, s[2], path.push(2)));
    assert(place_result::walk(e0, t0, n, st, pos, loops, path) == place_result::walk_branches(
        e0,
        t0,
        s,
        st,
        loops,
        path,
    ));
    assert(place_result::walk(e1, t1, m, st, pos, loops, path1) == place_result::walk_branches(
        e1,
        t1,
        m.kids,
        st,
        loops,
        path1,
    ));
    sim(b, e0, e1, t0, t1, s[0], st, Pos::Arg, loops, path.push(0), path1.push(0));
    let (r1, u1) = place_result::walk(e1, t1, m.kids[0], st, Pos::Arg, loops, path1.push(0));
    let (r0, u0) = place_result::walk(e0, t0, s[0], st, Pos::Arg, loops, path.push(0));
    match r1 {
        Ok(Flow::Next(now)) => {
            sim(b, e0, e1, u0, u1, s[1], now, Pos::Stmt, loops, path.push(1), path1.push(1));
            let (q1, v1) = place_result::walk(
                e1,
                u1,
                m.kids[1],
                now,
                Pos::Stmt,
                loops,
                path1.push(1),
            );
            let (q0, v0) = place_result::walk(
                e0,
                u0,
                s[1],
                now,
                Pos::Stmt,
                loops,
                path.push(1),
            );
            if q1 is Ok {
                sim(b, e0, e1, v0, v1, s[2], now, Pos::Stmt, loops, path.push(2), path1.push(2));
            }
        },
        _ => {},
    }
}

proof fn sim_stmts(
    b: Planned,
    e0: Bind,
    e1: Bind,
    t0: Trace,
    t1: Trace,
    n: ir::Node,
    i: int,
    now: Seq<ir::Node>,
    a: int,
    st: St,
    loops: bool,
    path: Seq<usize>,
    path1: Seq<usize>,
)
    requires
        apt(b, e0),
        alike(e0, e1),
        same_trace(t0, t1),
        stands(b, n, path),
        !(n.head is Span),
        0 <= i <= n.kids.len(),
        0 <= a <= now.len(),
        now.skip(a) == place_result::kept_applied(n.kids, i, path, b.plans, b.ops),
    ensures
        follows(
            place_result::walk_stmts(e1, t1, now, a, st, loops, path1),
            place_result::walk_stmts(e0, t0, n.kids, i, st, loops, path),
        ),
    decreases n, n.kids.len() - i,
{
    if i >= n.kids.len() {
        assert(now.skip(a).len() == 0);
    } else {
        kid_stands(b, n, path, i);
        let at = path.push(i as usize);
        move_known(b.plans, at, 0);
        let (r0, u0) = place_result::walk(e0, t0, n.kids[i], st, Pos::Stmt, loops, at);
        if place_result::dropping(b.plans, at, 0) {
            let k = choose|k: int|
                0 <= k < b.plans.len() && (#[trigger] b.plans[k]).dropped.contains(at);
            release_passed(
                b,
                e0,
                t0,
                n.kids[i],
                b.plans[k].v,
                b.plans[k].buf,
                st,
                Pos::Stmt,
                loops,
                at,
            );
            sim_stmts(b, e0, e1, t0, t1, n, i + 1, now, a, st, loops, path, path1);
        } else {
            let rest = place_result::kept_applied(n.kids, i + 1, path, b.plans, b.ops);
            assert(now.skip(a) == seq![done(b, n.kids[i], at)] + rest);
            assert(now.skip(a).len() > 0);
            assert(now.skip(a)[0] == now[a]);
            assert(now[a] == done(b, n.kids[i], at));
            assert(now.skip(a + 1) =~= now.skip(a).skip(1));
            assert(now.skip(a).skip(1) =~= rest);
            sim(
                b,
                e0,
                e1,
                t0,
                t1,
                n.kids[i],
                st,
                Pos::Stmt,
                loops,
                at,
                path1.push(a as usize),
            );
            let (r1, u1) = place_result::walk(
                e1,
                t1,
                now[a],
                st,
                Pos::Stmt,
                loops,
                path1.push(a as usize),
            );
            match r1 {
                Ok(Flow::Next(next)) => {
                    sim_stmts(b, e0, e1, u0, u1, n, i + 1, now, a + 1, next, loops, path, path1);
                },
                _ => {},
            }
        }
    }
}

proof fn sim_args(
    b: Planned,
    e0: Bind,
    e1: Bind,
    t0: Trace,
    t1: Trace,
    n: ir::Node,
    i: int,
    now: Seq<ir::Node>,
    st: St,
    loops: bool,
    path: Seq<usize>,
    path1: Seq<usize>,
)
    requires
        apt(b, e0),
        alike(e0, e1),
        same_trace(t0, t1),
        stands(b, n, path),
        !(n.head is Span),
        0 <= i <= n.kids.len() == now.len(),
        forall|j: int|
            0 <= j < now.len() ==> #[trigger] now[j] == done(b, n.kids[j], path.push(j as usize)),
    ensures
        follows(
            place_result::walk_args(e1, t1, now, i, st, loops, path1),
            place_result::walk_args(e0, t0, n.kids, i, st, loops, path),
        ),
    decreases n, n.kids.len() - i,
{
    if i < n.kids.len() {
        kid_stands(b, n, path, i);
        let at = path.push(i as usize);
        let pos = if i == 0 {
            Pos::Recv
        } else {
            Pos::Arg
        };
        let (r0, u0) = place_result::walk(e0, t0, n.kids[i], st, pos, loops, at);
        let (r1, u1) = place_result::walk(
            e1,
            t1,
            now[i],
            st,
            pos,
            loops,
            path1.push(i as usize),
        );
        sim(b, e0, e1, t0, t1, n.kids[i], st, pos, loops, at, path1.push(i as usize));
        match r1 {
            Ok(Flow::Next(next)) => {
                sim_args(b, e0, e1, u0, u1, n, i + 1, now, next, loops, path, path1);
            },
            _ => {},
        }
    }
}

/// What an assigned value says of an element is the same before and after the plans.
proof fn element_stays(b: Planned, e0: Bind, e1: Bind, w: u16, n: ir::Node, path: Seq<usize>)
    requires
        apt(b, e0),
        alike(e0, e1),
        stands(b, n, path),
    ensures
        place_result::element_host(e1, w, done(b, n, path)) == place_result::element_host(e0, w, n),
{
    differ(b.ops);
    done_under(b, n, path);
    shaped_under(n);
    let k = ir::unspan(n);
    let m = done(b, k, path);
    kids_done(b, k, path, true);
    if k.head == ir::Head::Call(b.ops.new_record) && k.kids.len() > 0 {
        shaped_kid(k, 0);
        head_stays(b, k.kids[0], path.push(0));
        assert(m.kids[0] == done(b, k.kids[0], path.push(0)));
    }
}

/// Variables, numbers and what is no call stay what they are.
proof fn head_stays(b: Planned, n: ir::Node, path: Seq<usize>)
    requires
        shaped(n),
    ensures
        ir::unspan(n).head is Call <==> ir::unspan(done(b, n, path)).head is Call,
        !(ir::unspan(n).head is Call) ==> ir::unspan(done(b, n, path)).head == ir::unspan(n).head,
{
    done_under(b, n, path);
    shaped_under(n);
}

proof fn sim_assign(
    b: Planned,
    e0: Bind,
    e1: Bind,
    t0: Trace,
    t1: Trace,
    w: u16,
    n: ir::Node,
    st: St,
    pos: Pos,
    loops: bool,
    path: Seq<usize>,
    path1: Seq<usize>,
)
    requires
        apt(b, e0),
        alike(e0, e1),
        same_trace(t0, t1),
        stands(b, n, path),
        n.head == ir::Head::Assign(w),
    ensures
        follows(
            place_result::walk(e1, t1, done(b, n, path), st, pos, loops, path1),
            place_result::walk(e0, t0, n, st, pos, loops, path),
        ),
    decreases n, n.kids.len() + 2,
{
    assert(!misshapen()(n));
    differ(b.ops);
    let m = done(b, n, path);
    kid_stands(b, n, path, 0);
    place_known(b.plans, w, 0);
    if ir::unspan(n.kids[0]).head is Null && place_result::placing(b.plans, w, 0) is Some {
        let q = place_result::placing(b.plans, w, 0)->0;
        let c = place_result::call_node(b.ops.place, q.host, q.tp);
        assert(m.kids == seq![c]);
        assert(m.head == n.head);
        if w != e0.v && w != e0.buf {
            let v1 = place_result::noted(e1, t1, w, c);
            let v0 = place_result::noted(e0, t0, w, n.kids[0]);
            assert(same_trace(v0, v1));
            leaf_passed(e0, v0, n.kids[0], st, Pos::Arg, loops, path.push(0));
            call_names(b.ops.place, q.host, q.tp, e1.v);
            call_names(b.ops.place, q.host, q.tp, e1.buf);
            assert forall|j: int| 0 <= j < c.kids.len() implies !place_result::names_either(
                e1,
                #[trigger] c.kids[j],
            ) by {
                assert(!ir::mentioned(c, e1.v) && !ir::mentioned(c, e1.buf));
                none_at(c.kids, ir::names(e1.v), j);
                none_at(c.kids, ir::names(e1.buf), j);
            }
            none_named(e1, c.kids, 2);
            assert(place_result::walk(e1, v1, c, st, Pos::Arg, loops, path1.push(0))
                == place_result::walk_call(
                e1,
                v1,
                b.ops.place,
                c.kids,
                st,
                Pos::Arg,
                loops,
                path1.push(0),
            ));
        }
    } else {
        kids_done(b, n, path, true);
        assert(m.kids[0] == done(b, n.kids[0], path.push(0)));
        if w != e0.v && w != e0.buf {
            element_stays(b, e0, e1, w, n.kids[0], path.push(0));
            let v1 = place_result::noted(e1, t1, w, m.kids[0]);
            let v0 = place_result::noted(e0, t0, w, n.kids[0]);
            assert(same_trace(v0, v1));
            sim(
                b,
                e0,
                e1,
                v0,
                v1,
                n.kids[0],
                st,
                Pos::Arg,
                loops,
                path.push(0),
                path1.push(0),
            );
        }
    }
}

proof fn sim_call(
    b: Planned,
    e0: Bind,
    e1: Bind,
    t0: Trace,
    t1: Trace,
    d: u32,
    n: ir::Node,
    st: St,
    pos: Pos,
    loops: bool,
    path: Seq<usize>,
    path1: Seq<usize>,
)
    requires
        apt(b, e0),
        alike(e0, e1),
        same_trace(t0, t1),
        stands(b, n, path),
        n.head == ir::Head::Call(d),
    ensures
        follows(
            place_result::walk(e1, t1, done(b, n, path), st, pos, loops, path1),
            place_result::walk(e0, t0, n, st, pos, loops, path),
        ),
    decreases n, n.kids.len() + 2,
{
    assert(!misshapen()(n));
    differ(b.ops);
    move_known(b.plans, path, 0);
    let m = done(b, n, path);
    assert(place_result::walk(e0, t0, n, st, pos, loops, path) == place_result::walk_call(
        e0,
        t0,
        d,
        n.kids,
        st,
        pos,
        loops,
        path,
    ));
    if d == b.ops.copy && n.kids.len() == 3 && place_result::moving(b.plans, path, 0) is Some {
        sim_move(b, e0, e1, t0, t1, n, st, pos, loops, path, path1);
    } else if (d == b.ops.free_ref || d == b.ops.free_if_distinct) && place_result::releasing(
        b.plans,
        path,
        0,
    ) is Some {
        let q = place_result::releasing(b.plans, path, 0)->0;
        let k = choose|k: int|
            0 <= k < b.plans.len() && #[trigger] b.plans[k] == q && q.held.contains(path);
        release_passed(b, e0, t0, n, q.v, q.buf, st, pos, loops, path);
        let c = place_result::call_node(b.ops.free_in, q.v, q.tp);
        assert(m == c);
        call_names(b.ops.free_in, q.v, q.tp, e1.v);
        call_names(b.ops.free_in, q.v, q.tp, e1.buf);
        assert forall|j: int| 0 <= j < c.kids.len() implies !place_result::names_either(
            e1,
            #[trigger] c.kids[j],
        ) by {
            none_at(c.kids, ir::names(e1.v), j);
            none_at(c.kids, ir::names(e1.buf), j);
        }
        none_named(e1, c.kids, 2);
        assert(place_result::walk(e1, t1, c, st, pos, loops, path1) == place_result::walk_call(
            e1,
            t1,
            b.ops.free_in,
            c.kids,
            st,
            pos,
            loops,
            path1,
        ));
    } else {
        kids_done(b, n, path, true);
        assert(m.head == n.head);
        let now = m.kids;
        assert(place_result::walk(e1, t1, m, st, pos, loops, path1) == place_result::walk_call(
            e1,
            t1,
            d,
            now,
            st,
            pos,
            loops,
            path1,
        ));
        assert forall|j: int| 0 <= j < now.len() implies place_result::names_either(
            e1,
            #[trigger] now[j],
        ) == place_result::names_either(e0, n.kids[j]) && (ir::unspan(now[j]).head is Call
            <==> ir::unspan(n.kids[j]).head is Call) && (!(ir::unspan(n.kids[j]).head is Call)
            ==> ir::unspan(now[j]).head == ir::unspan(n.kids[j]).head) by {
            kid_stands(b, n, path, j);
            names_stay(b, n.kids[j], path.push(j as usize), e0.v);
            names_stay(b, n.kids[j], path.push(j as usize), e0.buf);
            head_stays(b, n.kids[j], path.push(j as usize));
        }
        named_alike(e0, e1, n.kids, now, now.len() as int);
        if d == b.ops.copy && n.kids.len() == 3 && ir::unspan(n.kids[0]).head == ir::Head::Var(
            e0.v,
        ) {
            assert(ir::unspan(now[0]).head == ir::unspan(n.kids[0]).head);
            sim_destination(b, e0, e1, t0, t1, n, now, st, loops, path, path1);
        } else {
            if n.kids.len() > 0 {
                assert(place_result::names_either(e1, now[0]) == place_result::names_either(
                    e0,
                    n.kids[0],
                ));
                assert(ir::unspan(now[0]).head == ir::Head::Var(e0.v) <==> ir::unspan(
                    n.kids[0],
                ).head == ir::Head::Var(e0.v));
            }
            if n.kids.len() == 2 {
                assert(place_result::names_either(e1, now[1]) == place_result::names_either(
                    e0,
                    n.kids[1],
                ));
            }
            if d < e0.defs.len() {
                assert(e0.defs[d as int].loft_defined == e1.defs[d as int].loft_defined);
            }
            sim_args(b, e0, e1, t0, t1, n, 0, now, st, loops, path, path1);
        }
    }
}

proof fn sim_destination(
    b: Planned,
    e0: Bind,
    e1: Bind,
    t0: Trace,
    t1: Trace,
    n: ir::Node,
    now: Seq<ir::Node>,
    st: St,
    loops: bool,
    path: Seq<usize>,
    path1: Seq<usize>,
)
    requires
        apt(b, e0),
        alike(e0, e1),
        same_trace(t0, t1),
        stands(b, n, path),
        !(n.head is Span),
        n.kids.len() == 3,
        now.len() == 3,
        forall|j: int|
            0 <= j < now.len() ==> #[trigger] now[j] == done(b, n.kids[j], path.push(j as usize)),
    ensures
        follows(
            place_result::moved_to(e1, t1, now, st, loops, path1),
            place_result::moved_to(e0, t0, n.kids, st, loops, path),
        ),
{
    differ(b.ops);
    kid_stands(b, n, path, 1);
    kid_stands(b, n, path, 2);
    assert(now[1] == done(b, n.kids[1], path.push(1)));
    assert(now[2] == done(b, n.kids[2], path.push(2)));
    head_stays(b, n.kids[2], path.push(2));
    head_stays(b, n.kids[1], path.push(1));
    let f = ir::unspan(n.kids[1]);
    shaped_under(n.kids[1]);
    done_under(b, n.kids[1], path.push(1));
    kids_done(b, f, path.push(1), true);
    if f.head == ir::Head::Call(b.ops.get_field) && f.kids.len() == 3 {
        shaped_kid(f, 0);
        shaped_kid(f, 2);
        head_stays(b, f.kids[0], path.push(1).push(0));
        head_stays(b, f.kids[2], path.push(1).push(2));
        let g = ir::unspan(now[1]);
        assert(g.kids[0] == done(b, f.kids[0], path.push(1).push(0)));
        assert(g.kids[2] == done(b, f.kids[2], path.push(1).push(2)));
    }
}

proof fn sim_move(
    b: Planned,
    e0: Bind,
    e1: Bind,
    t0: Trace,
    t1: Trace,
    n: ir::Node,
    st: St,
    pos: Pos,
    loops: bool,
    path: Seq<usize>,
    path1: Seq<usize>,
)
    requires
        apt(b, e0),
        alike(e0, e1),
        same_trace(t0, t1),
        stands(b, n, path),
        n.head == ir::Head::Call(b.ops.copy),
        n.kids.len() == 3,
        place_result::moving(b.plans, path, 0) is Some,
    ensures
        follows(
            place_result::walk(e1, t1, done(b, n, path), st, pos, loops, path1),
            place_result::walk_call(e0, t0, b.ops.copy, n.kids, st, pos, loops, path),
        ),
    decreases n, n.kids.len() + 1,
{
    differ(b.ops);
    move_known(b.plans, path, 0);
    let q = place_result::moving(b.plans, path, 0)->0;
    let k = choose|k: int|
        0 <= k < b.plans.len() && #[trigger] b.plans[k] == q && q.moves.contains(path);
    assert(copies(b.ops, q.v, n));
    let m = done(b, n, path);
    let number = ir::leaf(ir::Head::Int(q.tp as i32));
    let now = n.kids.update(2, number);
    assert(m.kids == now);
    shaped_kid(n, 0);
    shaped_kid(n, 1);
    shaped_kid(n, 2);
    kid_stands(b, n, path, 1);
    shaped_under(n.kids[0]);
    shaped_under(n.kids[2]);
    assert(!ir::any_in(number.kids, misshapen()));
    assert(shaped(number));
    leaf_names(n.kids[0], e0.v);
    leaf_names(n.kids[0], e0.buf);
    leaf_names(n.kids[2], e0.v);
    leaf_names(n.kids[2], e0.buf);
    leaf_names(number, e0.v);
    leaf_names(number, e0.buf);
    assert forall|j: int| 0 <= j < 3 implies place_result::names_either(e1, #[trigger] now[j])
        == place_result::names_either(e0, n.kids[j]) by {}
    named_alike(e0, e1, n.kids, now, 3);
    assert(place_result::walk(e1, t1, m, st, pos, loops, path1) == place_result::walk_call(
        e1,
        t1,
        b.ops.move_rec,
        now,
        st,
        pos,
        loops,
        path1,
    ));
    leaf_passed(e0, t0, n.kids[0], st, Pos::Recv, loops, path.push(0));
    leaf_passed(e1, t1, now[0], st, Pos::Recv, loops, path1.push(0));
    let none = Planned { plans: Seq::empty(), ..b };
    assert(apt(none, e0));
    sim(
        none,
        e0,
        e1,
        t0,
        t1,
        n.kids[1],
        st,
        Pos::Arg,
        loops,
        path.push(1),
        path1.push(1),
    );
    place_result::without_plans_nothing_changes(n.kids[1], path.push(1), b.ops);
    let (r1, u1) = place_result::walk(e1, t1, now[1], st, Pos::Arg, loops, path1.push(1));
    let (r0, u0) = place_result::walk(e0, t0, n.kids[1], st, Pos::Arg, loops, path.push(1));
    assert(place_result::walk_args(e1, t1, now, 0, st, loops, path1) == place_result::walk_args(
        e1,
        t1,
        now,
        1,
        st,
        loops,
        path1,
    ));
    assert(place_result::walk_args(e0, t0, n.kids, 0, st, loops, path) == place_result::walk_args(
        e0,
        t0,
        n.kids,
        1,
        st,
        loops,
        path,
    ));
    match r1 {
        Ok(Flow::Next(next)) => {
            leaf_passed(e1, u1, now[2], next, Pos::Arg, loops, path1.push(2));
            leaf_passed(e0, u0, n.kids[2], next, Pos::Arg, loops, path.push(2));
            assert(place_result::walk_args(e1, t1, now, 1, st, loops, path1)
                == place_result::walk_args(e1, u1, now, 2, next, loops, path1));
            assert(place_result::walk_args(e0, t0, n.kids, 1, st, loops, path)
                == place_result::walk_args(e0, u0, n.kids, 2, next, loops, path));
            assert(place_result::walk_args(e1, u1, now, 2, next, loops, path1)
                == place_result::walk_args(e1, u1, now, 3, next, loops, path1));
            assert(place_result::walk_args(e0, u0, n.kids, 2, next, loops, path)
                == place_result::walk_args(e0, u0, n.kids, 3, next, loops, path));
        },
        _ => {},
    }
}

/// A call that releases something.
pub open spec fn is_free(ops: Ops) -> spec_fn(ir::Node) -> bool {
    |n: ir::Node|
        n.head == ir::Head::Call(ops.free_ref) || n.head == ir::Head::Call(ops.free_if_distinct)
}

/// A call with an operand that releases something: releases are statements.
pub open spec fn frees_in_operand(ops: Ops) -> spec_fn(ir::Node) -> bool {
    |n: ir::Node| n.head is Call && ir::any_in(n.kids, is_free(ops))
}

proof fn any_under(n: ir::Node, p: spec_fn(ir::Node) -> bool)
    requires
        !ir::any(n, p),
    ensures
        !ir::any(ir::unspan(n), p),
        !p(ir::unspan(n)),
    decreases n,
{
    if n.head is Span && n.kids.len() > 0 {
        none_at(n.kids, p, 0);
        any_under(n.kids[0], p);
    }
}

/// Where nothing is released, nothing that is named gets lost.
proof fn names_kept(b: Planned, n: ir::Node, path: Seq<usize>, w: u16)
    requires
        sound(b),
        stands(b, n, path),
        !ir::any(n, is_free(b.ops)),
        !ir::mentioned(done(b, n, path), w),
    ensures
        !ir::mentioned(n, w),
    decreases n,
{
    let p = ir::names(w);
    let m = done(b, n, path);
    differ(b.ops);
    assert(!misshapen()(n));
    assert(!is_free(b.ops)(n));
    move_known(b.plans, path, 0);
    if n.head is Span {
        shaped_kid(n, 0);
        none_at(n.kids, is_free(b.ops), 0);
        done_under(b, n, path);
        assert(m.kids[0] == done(b, n.kids[0], path));
        none_at(m.kids, p, 0);
        names_kept(b, n.kids[0], path, w);
        under_names(n, w);
        under_names(n.kids[0], w);
    } else if n.head is Block || n.head is Loop {
        assert(p(m) == p(n));
        assert forall|j: int| 0 <= j < n.kids.len() implies !ir::any(#[trigger] n.kids[j], p) by {
            kid_stands(b, n, path, j);
            none_at(n.kids, is_free(b.ops), j);
            any_under(n.kids[j], is_free(b.ops));
            move_known(b.plans, path.push(j as usize), 0);
            if !place_result::dropping(b.plans, path.push(j as usize), 0) {
                kept_has(n.kids, 0, j, path, b.plans, b.ops);
                let x = done(b, n.kids[j], path.push(j as usize));
                let k = choose|k: int| 0 <= k < m.kids.len() && m.kids[k] == x;
                none_at(m.kids, p, k);
                names_kept(b, n.kids[j], path.push(j as usize), w);
            }
        }
        none_in(n.kids, p);
    } else {
        kids_done(b, n, path, true);
        let kids = place_result::each_applied(n.kids, 0, path, b.plans, b.ops, true);
        let moved = n.head == ir::Head::Call(b.ops.copy) && n.kids.len() == 3
            && place_result::moving(b.plans, path, 0) is Some;
        let placed = n.head is Assign && ir::unspan(n.kids[0]).head is Null
            && place_result::placing(b.plans, n.head->Assign_0, 0) is Some;
        if moved {
            let q = place_result::moving(b.plans, path, 0)->0;
            let k = choose|k: int|
                0 <= k < b.plans.len() && #[trigger] b.plans[k] == q && q.moves.contains(path);
            assert(copies(b.ops, q.v, n));
            assert forall|j: int| 0 <= j < 3 implies !ir::any(#[trigger] n.kids[j], p) by {
                shaped_kid(n, j);
                if j == 2 {
                    shaped_under(n.kids[2]);
                    leaf_names(n.kids[2], w);
                } else {
                    assert(m.kids[j] == n.kids[j]);
                    none_at(m.kids, p, j);
                }
            }
            none_in(n.kids, p);
            assert(!p(n));
        } else if placed {
            shaped_kid(n, 0);
            shaped_under(n.kids[0]);
            leaf_names(n.kids[0], w);
            assert forall|j: int| 0 <= j < n.kids.len() implies !ir::any(#[trigger] n.kids[j], p) by {}
            none_in(n.kids, p);
            assert(p(m) == p(n));
        } else if n.head is Assign || n.head is If || n.head is Return || n.head is Drop
            || n.head is Call {
            assert(m.kids == kids);
            assert(p(m) == p(n));
            assert forall|j: int| 0 <= j < n.kids.len() implies !ir::any(#[trigger] n.kids[j], p) by {
                kid_stands(b, n, path, j);
                none_at(n.kids, is_free(b.ops), j);
                assert(kids[j] == done(b, n.kids[j], path.push(j as usize)));
                none_at(m.kids, p, j);
                names_kept(b, n.kids[j], path.push(j as usize), w);
            }
            none_in(n.kids, p);
        } else {
            assert(m == n);
        }
    }
}

proof fn prefix_of_prefix(s: Seq<char>)
    requires
        text::is_prefix("__ref_"@, s),
    ensures
        text::is_prefix("__"@, s),
{
    reveal_strlit("__ref_");
    reveal_strlit("__");
    assert forall|i: int| 0 <= i < 2 implies s.take(2)[i] == "__"@[i] by {
        assert(s.take(6)[i] == "__ref_"@[i]);
    }
    assert(s.take(2) =~= "__"@);
}

/// A statement before a bind, as the bind asks it to be.
spec fn passes(n: ir::Node, v: u16, buf: u16) -> bool {
    let m = ir::unspan(n);
    if m.head == ir::Head::Assign(buf) || m.head == ir::Head::Assign(v) {
        m.kids.len() > 0 && ir::unspan(m.kids[0]).head is Null
    } else {
        !ir::mentioned(m, buf) && !ir::mentioned(m, v)
    }
}

proof fn starts_pass(
    s: Seq<ir::Node>,
    i: int,
    end: int,
    v: u16,
    buf: u16,
    bufs: nat,
    locals: nat,
)
    requires
        0 <= i <= end <= s.len(),
        place_result::null_starts(s, i, end, v, buf, bufs, locals) is Ok,
    ensures
        forall|k: int| i <= k < end ==> passes(#[trigger] s[k], v, buf),
        place_result::null_starts(s, i, end, v, buf, bufs, locals)->Ok_0.0 > bufs ==> exists|k: int|
            i <= k < end && ir::unspan(#[trigger] s[k]).head == ir::Head::Assign(buf),
    decreases end - i,
{
    if i < end {
        let m = ir::unspan(s[i]);
        if m.head == ir::Head::Assign(buf) {
            starts_pass(s, i + 1, end, v, buf, bufs + 1, locals);
        } else if m.head == ir::Head::Assign(v) {
            starts_pass(s, i + 1, end, v, buf, bufs, locals + 1);
        } else {
            starts_pass(s, i + 1, end, v, buf, bufs, locals);
        }
    }
}

/// What makes a plan: the sites, and what is known of its variables.
proof fn plan_known(defs: Seq<Definition>, d_nr: u32, code: ir::Node, j: int, ops: Ops)
    requires
        shaped(code),
        ir::unspan(code).head is Block,
        0 <= j < ir::unspan(code).kids.len(),
        place_result::plan_at(defs, d_nr, ir::unspan(code).kids, j, ops, Mode::Rewrite) is Some,
    ensures
        ({
            let top = ir::unspan(code).kids;
            let p = place_result::plan_at(defs, d_nr, top, j, ops, Mode::Rewrite)->0;
            let vars = defs[d_nr as int].variables;
            let own = place_result::own_buffer(defs[d_nr as int]);
            &&& sited(code, ops, own, p.v, p.buf, p.moves, p.held, p.dropped)
            &&& !vars.argument(p.v)
            &&& !place_result::named_with(vars, p.v, "__"@)
            &&& place_result::named_with(vars, p.buf, "__ref_"@)
            &&& vars.argument(p.host)
            &&& ir::unspan(top[j]).head == ir::Head::Assign(p.v)
            &&& !(ir::unspan(ir::unspan(top[j]).kids[0]).head is Null)
            &&& forall|k: int| 0 <= k < j ==> passes(#[trigger] top[k], p.v, p.buf)
            &&& exists|k: int|
                0 <= k < j && ir::unspan(#[trigger] top[k]).head == ir::Head::Assign(p.buf)
        }),
{
    let body = ir::unspan(code);
    let top = body.kids;
    shaped_under(code);
    at_nothing(code);
    let vars = defs[d_nr as int].variables;
    let m = ir::unspan(top[j]);
    let v = m.head->Assign_0;
    let call = ir::unspan(m.kids[0]);
    let f = call.head->Call_0;
    let at = defs[f as int].return_buffer->0;
    let buf = ir::unspan(call.kids[at as int]).head->Var_0;
    let e = Bind {
        defs,
        vars,
        ops,
        v,
        buf,
        args: call.kids,
        buf_idx: at as int,
        own_retbuf: place_result::own_buffer(defs[d_nr as int]),
    };
    assert(found(code, e, place_result::nothing_yet()));
    stmts_find(
        code,
        e,
        place_result::nothing_yet(),
        body,
        j + 1,
        St::Held,
        false,
        Seq::empty(),
    );
    starts_pass(top, 0, j, v, buf, 0, 0);
}

proof fn plans_known(defs: Seq<Definition>, d_nr: u32, top: Seq<ir::Node>, i: int, ops: Ops, k: int) -> (j:
    int)
    requires
        0 <= i <= top.len(),
        0 <= k < place_result::plans_from(defs, d_nr, top, i, ops, Mode::Rewrite).len(),
    ensures
        i <= j < top.len(),
        place_result::plan_at(defs, d_nr, top, j, ops, Mode::Rewrite) == Some(
            place_result::plans_from(defs, d_nr, top, i, ops, Mode::Rewrite)[k],
        ),
    decreases top.len() - i,
{
    let all = place_result::plans_from(defs, d_nr, top, i, ops, Mode::Rewrite);
    let rest = place_result::plans_from(defs, d_nr, top, i + 1, ops, Mode::Rewrite);
    match place_result::plan_at(defs, d_nr, top, i, ops, Mode::Rewrite) {
        Some(p) => {
            if k == 0 {
                i
            } else {
                assert(all[k] == rest[k - 1]);
                plans_known(defs, d_nr, top, i + 1, ops, k - 1)
            }
        },
        None => plans_known(defs, d_nr, top, i + 1, ops, k),
    }
}

proof fn plan_listed(defs: Seq<Definition>, d_nr: u32, top: Seq<ir::Node>, i: int, ops: Ops, j: int) -> (k:
    int)
    requires
        0 <= i <= j < top.len(),
        place_result::plan_at(defs, d_nr, top, j, ops, Mode::Rewrite) is Some,
    ensures
        0 <= k < place_result::plans_from(defs, d_nr, top, i, ops, Mode::Rewrite).len(),
        place_result::plans_from(defs, d_nr, top, i, ops, Mode::Rewrite)[k]
            == place_result::plan_at(defs, d_nr, top, j, ops, Mode::Rewrite)->0,
    decreases j - i,
{
    let all = place_result::plans_from(defs, d_nr, top, i, ops, Mode::Rewrite);
    if i == j {
        0
    } else {
        let k = plan_listed(defs, d_nr, top, i + 1, ops, j);
        let rest = place_result::plans_from(defs, d_nr, top, i + 1, ops, Mode::Rewrite);
        if place_result::plan_at(defs, d_nr, top, i, ops, Mode::Rewrite) is Some {
            assert(all[k + 1] == rest[k]);
            k + 1
        } else {
            k
        }
    }
}

proof fn kept_suffix(
    s: Seq<ir::Node>,
    i: int,
    x: int,
    path: Seq<usize>,
    plans: Seq<PlanView>,
    ops: Ops,
)
    requires
        0 <= i <= x <= s.len(),
    ensures
        ({
            let a = place_result::kept_applied(s, i, path, plans, ops);
            let c = place_result::kept_applied(s, x, path, plans, ops);
            c.len() <= a.len() && a.skip(a.len() - c.len()) == c
        }),
    decreases x - i,
{
    let a = place_result::kept_applied(s, i, path, plans, ops);
    let c = place_result::kept_applied(s, x, path, plans, ops);
    if i == x {
        assert(a.skip(0) =~= a);
    } else {
        kept_suffix(s, i + 1, x, path, plans, ops);
        let rest = place_result::kept_applied(s, i + 1, path, plans, ops);
        if !place_result::dropping(plans, path.push(i as usize), 0) {
            assert(a.skip(a.len() - c.len()) =~= rest.skip(rest.len() - c.len()));
        }
    }
}

/// Where a kept statement before statement `j` stands afterwards.
proof fn kept_before(b: Planned, s: Seq<ir::Node>, x: int, j: int, k: int) -> (a: int)
    requires
        0 <= x < j < s.len(),
        !place_result::dropping(b.plans, Seq::<usize>::empty().push(x as usize), 0),
        0 <= k <= place_result::kept_applied(s, 0, Seq::empty(), b.plans, b.ops).len(),
        place_result::kept_applied(s, 0, Seq::empty(), b.plans, b.ops).skip(k)
            == place_result::kept_applied(s, j, Seq::empty(), b.plans, b.ops),
    ensures
        0 <= a < k,
        place_result::kept_applied(s, 0, Seq::empty(), b.plans, b.ops)[a] == done(
            b,
            s[x],
            Seq::<usize>::empty().push(x as usize),
        ),
{
    let none = Seq::<usize>::empty();
    let all = place_result::kept_applied(s, 0, none, b.plans, b.ops);
    let from = place_result::kept_applied(s, x, none, b.plans, b.ops);
    let next = place_result::kept_applied(s, x + 1, none, b.plans, b.ops);
    let last = place_result::kept_applied(s, j, none, b.plans, b.ops);
    kept_suffix(s, 0, x, none, b.plans, b.ops);
    kept_suffix(s, x + 1, j, none, b.plans, b.ops);
    assert(from == seq![done(b, s[x], none.push(x as usize))] + next);
    let a = all.len() - from.len();
    assert(all.skip(k).len() == last.len());
    assert(all.skip(a)[0] == from[0]);
    a
}

proof fn under_stands(b: Planned, n: ir::Node, path: Seq<usize>)
    requires
        stands(b, n, path),
    ensures
        stands(b, ir::unspan(n), path),
        done(b, ir::unspan(n), path) == ir::unspan(done(b, n, path)),
        !(ir::unspan(n).head is Span),
{
    shaped_under(n);
    done_under(b, n, path);
}

/// Assignments stay assignments, and statements that are none do not become one.
proof fn assign_stays(b: Planned, n: ir::Node, path: Seq<usize>)
    requires
        stands(b, n, path),
    ensures
        ir::unspan(n).head is Assign <==> ir::unspan(done(b, n, path)).head is Assign,
        ir::unspan(n).head is Assign ==> ir::unspan(done(b, n, path)).head == ir::unspan(n).head
            && ir::unspan(n).kids.len() == 1 && ir::unspan(done(b, n, path)).kids.len() == 1,
{
    under_stands(b, n, path);
    let k = ir::unspan(n);
    assert(!misshapen()(k));
    kids_done(b, k, path, true);
}

proof fn starts_stay(
    b: Planned,
    body: ir::Node,
    v: u16,
    buf: u16,
    now: Seq<ir::Node>,
    a: int,
    end1: int,
    i: int,
    end0: int,
    bufs: nat,
    locals: nat,
)
    requires
        sound(b),
        silent(b, v),
        silent(b, buf),
        stands(b, body, Seq::empty()),
        !(body.head is Span),
        0 <= a <= end1 <= now.len(),
        0 <= i <= end0 <= body.kids.len(),
        now.skip(a) == place_result::kept_applied(body.kids, i, Seq::empty(), b.plans, b.ops),
        now.skip(end1) == place_result::kept_applied(body.kids, end0, Seq::empty(), b.plans, b.ops),
        place_result::null_starts(now, a, end1, v, buf, bufs, locals) is Ok,
    ensures
        place_result::null_starts(body.kids, i, end0, v, buf, bufs, locals)
            == place_result::null_starts(now, a, end1, v, buf, bufs, locals),
    decreases end0 - i,
{
    let none = Seq::<usize>::empty();
    let top = body.kids;
    if i == end0 {
        assert(now.skip(a).len() == now.skip(end1).len());
    } else {
        kid_stands(b, body, none, i);
        let at = none.push(i as usize);
        move_known(b.plans, at, 0);
        under_stands(b, top[i], at);
        let m0 = ir::unspan(top[i]);
        if place_result::dropping(b.plans, at, 0) {
            let k = choose|k: int|
                0 <= k < b.plans.len() && (#[trigger] b.plans[k]).dropped.contains(at);
            release_names(b, m0, b.plans[k].v, b.plans[k].buf, v);
            release_names(b, m0, b.plans[k].v, b.plans[k].buf, buf);
            starts_stay(b, body, v, buf, now, a, end1, i + 1, end0, bufs, locals);
        } else {
            let rest = place_result::kept_applied(top, i + 1, none, b.plans, b.ops);
            kept_suffix(top, i + 1, end0, none, b.plans, b.ops);
            assert(now.skip(a) == seq![done(b, top[i], at)] + rest);
            assert(now.skip(a).len() == 1 + rest.len());
            assert(now.skip(end1).len() <= rest.len());
            assert(a < end1);
            assert(now.skip(a)[0] == now[a]);
            assert(now.skip(a + 1) =~= now.skip(a).skip(1));
            assert(now.skip(a).skip(1) =~= rest);
            let m1 = ir::unspan(now[a]);
            assert(m1 == done(b, m0, at));
            assign_stays(b, top[i], at);
            names_stay(b, m0, at, v);
            names_stay(b, m0, at, buf);
            if m0.head == ir::Head::Assign(buf) || m0.head == ir::Head::Assign(v) {
                let w = m0.head->Assign_0;
                place_known(b.plans, w, 0);
                assert(place_result::placing(b.plans, w, 0) is None);
                kids_done(b, m0, at, true);
                shaped_kid(m0, 0);
                head_stays(b, m0.kids[0], at.push(0));
                assert(m1.kids[0] == done(b, m0.kids[0], at.push(0)));
            }
            if m0.head == ir::Head::Assign(buf) {
                starts_stay(b, body, v, buf, now, a + 1, end1, i + 1, end0, bufs + 1, locals);
            } else if m0.head == ir::Head::Assign(v) {
                starts_stay(b, body, v, buf, now, a + 1, end1, i + 1, end0, bufs, locals + 1);
            } else {
                starts_stay(b, body, v, buf, now, a + 1, end1, i + 1, end0, bufs, locals);
            }
        }
    }
}

/// Code and operators as they are in every function: the code has the children that its
/// kinds have, and the operators are different ones that are called by their names.
spec fn well_made(defs: Seq<Definition>, d_nr: u32, ops: Ops) -> bool {
    &&& shaped(defs[d_nr as int].code@)
    &&& distinct(ops)
    &&& ops.copy < defs.len()
    &&& ops.free_ref < defs.len()
    &&& ops.free_if_distinct < defs.len()
    &&& ops.place < defs.len()
    &&& ops.move_rec < defs.len()
    &&& ops.free_in < defs.len()
    &&& !text::is_prefix("OpFreeRef"@, defs[ops.copy as int].name@)
}

/// Whether a function is as the compiler makes it: it releases things in statements, the
/// operators are no code of the language, a work reference is no parameter, and the
/// variable of the function's own return buffer is one.
pub open spec fn compiled(defs: Seq<Definition>, d_nr: u32, ops: Ops) -> bool {
    let def = defs[d_nr as int];
    let vars = def.variables;
    &&& !ir::any(def.code@, frees_in_operand(ops))
    &&& !defs[ops.copy as int].loft_defined
    &&& !defs[ops.place as int].loft_defined
    &&& !defs[ops.move_rec as int].loft_defined
    &&& !defs[ops.free_in as int].loft_defined
    &&& forall|v: u16|
        place_result::named_with(vars, v, "__ref_"@) ==> !#[trigger] vars.argument(v)
    &&& place_result::own_buffer(def) matches Some(r) ==> vars.argument(r)
}

spec fn in_order(defs: Seq<Definition>, d_nr: u32, ops: Ops) -> bool {
    well_made(defs, d_nr, ops) && compiled(defs, d_nr, ops)
}

/// The code of every value has the children that its kinds have.
pub proof fn values_are_shaped(v: Value)
    ensures
        shaped(v@),
    decreases v,
{
    let n = v@;
    let p = misshapen();
    ir::shape(v);
    match v {
        Value::Assign(_, x)
        | Value::TuplePut(_, _, x)
        | Value::Return(x)
        | Value::Drop(x)
        | Value::Yield(x)
        | Value::Span(_, x) => {
            values_are_shaped(*x);
            assert(n.kids =~= seq![x@]);
        },
        Value::If(x, y, z) | Value::Iter(_, x, y, z) => {
            values_are_shaped(*x);
            values_are_shaped(*y);
            values_are_shaped(*z);
            assert(n.kids =~= seq![x@, y@, z@]);
        },
        Value::Call(_, s)
        | Value::CallRef(_, s)
        | Value::Insert(s)
        | Value::Tuple(s)
        | Value::Parallel(s) => {
            lists_are_shaped(s);
        },
        Value::Block(b) | Value::Loop(b) => {
            lists_are_shaped(b.operators);
        },
        _ => {},
    }
    none_in(n.kids, p);
    assert(!p(n));
}

proof fn lists_are_shaped(s: Vec<Value>)
    ensures
        ir::views(s@).len() <= usize::MAX,
        forall|i: int| 0 <= i < ir::views(s@).len() ==> shaped(#[trigger] ir::views(s@)[i]),
    decreases s,
{
    ir::view_at(s@);
    assert(s@.len() == s.len());
    assert forall|i: int| 0 <= i < ir::views(s@).len() implies shaped(
        #[trigger] ir::views(s@)[i],
    ) by {
        assert(decreases_to!(s => s[i]));
        values_are_shaped(s[i]);
    }
}

proof fn called(data: Data, name: Seq<char>)
    requires
        data.definitions.len() <= u32::MAX,
        data.named(name) != u32::MAX,
    ensures
        data.named(name) < data.definitions.len(),
        data.definitions@[data.named(name) as int].name@ == name,
{
    data::found_definition(data.definitions@, name, 0);
}

proof fn operators_differ(data: Data, d_nr: u32, ops: Ops)
    requires
        data.definitions.len() <= u32::MAX,
        d_nr < data.definitions.len(),
        place_result::ops_of(&data) == Some(ops),
    ensures
        well_made(data.definitions@, d_nr, ops),
{
    values_are_shaped(data.definitions@[d_nr as int].code);
    called(data, "OpCopyRecord"@);
    called(data, "OpFreeRef"@);
    called(data, "OpFreeRefIfDistinct"@);
    called(data, "OpNewRecord"@);
    called(data, "OpGetField"@);
    called(data, "OpPlaceRecord"@);
    called(data, "OpMoveRecord"@);
    called(data, "OpFreeRecordIn"@);
    reveal_strlit("OpCopyRecord");
    reveal_strlit("OpFreeRef");
    reveal_strlit("OpFreeRefIfDistinct");
    reveal_strlit("OpNewRecord");
    reveal_strlit("OpGetField");
    reveal_strlit("OpPlaceRecord");
    reveal_strlit("OpMoveRecord");
    reveal_strlit("OpFreeRecordIn");
    assert("OpCopyRecord"@[2] != "OpMoveRecord"@[2]);
    let name = data.definitions@[ops.copy as int].name@;
    if text::is_prefix("OpFreeRef"@, name) {
        assert(name.take(9)[2] == "OpFreeRef"@[2]);
        assert(false);
    }
    let all = seq![
        ops.copy,
        ops.free_ref,
        ops.free_if_distinct,
        ops.new_record,
        ops.get_field,
        ops.place,
        ops.move_rec,
        ops.free_in,
    ];
    assert(ops.copy != ops.move_rec);
    let lens = seq![12int, 9, 19, 11, 10, 13, 12, 14];
    assert forall|i: int, j: int| 0 <= i < 8 && 0 <= j < 8 && i != j implies all[i] != all[j] by {
        assert(data.definitions@[all[i] as int].name@.len() == lens[i]);
        assert(data.definitions@[all[j] as int].name@.len() == lens[j]);
    }
}

/// The definitions once function `d_nr` was rewritten.
pub open spec fn rewritten(
    defs: Seq<Definition>,
    now: Seq<Definition>,
    d_nr: u32,
    ops: Ops,
) -> bool {
    let code = defs[d_nr as int].code@;
    &&& now.len() == defs.len()
    &&& forall|d: int| 0 <= d < defs.len() && d != d_nr ==> #[trigger] now[d] == defs[d]
    &&& place_result::same_but_code(now[d_nr as int], defs[d_nr as int])
    &&& now[d_nr as int].code@ == place_result::applied(
        code,
        Seq::empty(),
        place_result::plans_for(defs, d_nr, code, ops, Mode::Rewrite),
        ops,
    )
}

spec fn planned(defs: Seq<Definition>, d_nr: u32, ops: Ops) -> Planned {
    let code = defs[d_nr as int].code@;
    Planned {
        root: code,
        plans: place_result::plans_for(defs, d_nr, code, ops, Mode::Rewrite),
        ops,
        own: place_result::own_buffer(defs[d_nr as int]),
    }
}

proof fn planned_is_sound(defs: Seq<Definition>, d_nr: u32, ops: Ops)
    requires
        in_order(defs, d_nr, ops),
        ir::unspan(defs[d_nr as int].code@).head is Block,
    ensures
        sound(planned(defs, d_nr, ops)),
        stands(
            planned(defs, d_nr, ops),
            ir::unspan(defs[d_nr as int].code@),
            Seq::empty(),
        ),
{
    let b = planned(defs, d_nr, ops);
    let code = defs[d_nr as int].code@;
    let top = ir::unspan(code).kids;
    shaped_under(code);
    at_nothing(code);
    assert forall|k: int| 0 <= k < b.plans.len() implies sited(
        b.root,
        b.ops,
        b.own,
        (#[trigger] b.plans[k]).v,
        b.plans[k].buf,
        b.plans[k].moves,
        b.plans[k].held,
        b.plans[k].dropped,
    ) by {
        let j = plans_known(defs, d_nr, top, 0, ops, k);
        plan_known(defs, d_nr, code, j, ops);
    }
}

/// A plan for the local or the buffer of a bind rules the bind out afterwards.
proof fn taken_is_taken(
    defs: Seq<Definition>,
    d_nr: u32,
    ops: Ops,
    j: int,
    k: int,
    v: u16,
    buf: u16,
    x: int,
)
    requires
        in_order(defs, d_nr, ops),
        ir::unspan(defs[d_nr as int].code@).head is Block,
        ({
            let b = planned(defs, d_nr, ops);
            let top = ir::unspan(defs[d_nr as int].code@).kids;
            let now = place_result::kept_applied(top, 0, Seq::empty(), b.plans, ops);
            let m = ir::unspan(top[j]);
            &&& 0 <= j < top.len()
            &&& 0 <= k <= now.len()
            &&& now.skip(k) == place_result::kept_applied(top, j, Seq::empty(), b.plans, ops)
            &&& m.head == ir::Head::Assign(v)
            &&& ir::mentioned(m, buf)
            &&& !(ir::unspan(m.kids[0]).head is Null)
            &&& v != buf
            &&& forall|a: int| 0 <= a < k ==> passes(#[trigger] now[a], v, buf)
            &&& 0 <= x < top.len()
            &&& place_result::plan_at(defs, d_nr, top, x, ops, Mode::Rewrite) is Some
            &&& place_result::named_with(defs[d_nr as int].variables, buf, "__ref_"@)
            &&& x == j ==> place_result::plan_at(
                defs,
                d_nr,
                top,
                x,
                ops,
                Mode::Rewrite,
            )->0.buf == buf
        }),
    ensures
        ({
            let top = ir::unspan(defs[d_nr as int].code@).kids;
            let p = place_result::plan_at(defs, d_nr, top, x, ops, Mode::Rewrite)->0;
            p.v != v && p.buf != buf
        }),
{
    let code = defs[d_nr as int].code@;
    let body = ir::unspan(code);
    let top = body.kids;
    let b = planned(defs, d_nr, ops);
    let none = Seq::<usize>::empty();
    let now = place_result::kept_applied(top, 0, none, b.plans, ops);
    let p = place_result::plan_at(defs, d_nr, top, x, ops, Mode::Rewrite)->0;
    let vars = defs[d_nr as int].variables;
    planned_is_sound(defs, d_nr, ops);
    plan_known(defs, d_nr, code, x, ops);
    prefix_of_prefix(vars.variables@[p.buf as int].name@);
    prefix_of_prefix(vars.variables@[buf as int].name@);
    assert(p.v != p.buf && p.v != buf);
    if p.v == v || p.buf == buf {
        if j < x {
            // The bind stands before the plan and names what the plan asks nobody to name.
            assert(passes(top[j], p.v, p.buf));
        } else {
            let y = if p.buf == buf {
                choose|y: int|
                    0 <= y < x && ir::unspan(#[trigger] top[y]).head == ir::Head::Assign(p.buf)
            } else {
                x
            };
            let at = none.push(y as usize);
            kid_stands(b, body, none, y);
            move_known(b.plans, at, 0);
            under_stands(b, top[y], at);
            assert(!place_result::dropping(b.plans, at, 0));
            assert(y < j);
            let a = kept_before(b, top, y, j, k);
            assert(passes(now[a], v, buf));
            let m0 = ir::unspan(top[y]);
            assign_stays(b, top[y], at);
            kids_done(b, m0, at, true);
            if p.buf == buf {
                assert(passes(top[y], p.v, p.buf));
                place_known(b.plans, buf, 0);
                let l = plan_listed(defs, d_nr, top, 0, ops, x);
                assert(b.plans[l].buf == buf);
            } else {
                shaped_kid(m0, 0);
                head_stays(b, m0.kids[0], at.push(0));
            }
        }
    }
}

/// Operands that name a variable still name it afterwards.
proof fn operands_kept(b: Planned, e0: Bind, e1: Bind, n: ir::Node, path: Seq<usize>, w: u16, k: int)
    requires
        sound(b),
        stands(b, n, path),
        !(n.head is Span),
        !ir::any_in(n.kids, is_free(b.ops)),
        e0.args == n.kids,
        e1.args.len() == n.kids.len(),
        e0.buf_idx == e1.buf_idx,
        forall|j: int|
            0 <= j < n.kids.len() ==> #[trigger] e1.args[j] == done(
                b,
                n.kids[j],
                path.push(j as usize),
            ),
        0 <= k <= n.kids.len(),
        !place_result::argument_names(e1, w, k),
    ensures
        !place_result::argument_names(e0, w, k),
    decreases k,
{
    if k > 0 {
        operands_kept(b, e0, e1, n, path, w, k - 1);
        if k - 1 != e0.buf_idx {
            kid_stands(b, n, path, k - 1);
            none_at(n.kids, is_free(b.ops), k - 1);
            assert(e1.args[k - 1] == done(b, n.kids[k - 1], path.push((k - 1) as usize)));
            names_kept(b, n.kids[k - 1], path.push((k - 1) as usize), w);
        }
    }
}

/// What a bind after the rewrite was before it: the statement, the call, and the operands.
proof fn bind_before(b: Planned, n: ir::Node, path: Seq<usize>, v: u16, f: u32)
    requires
        sound(b),
        stands(b, n, path),
        f != b.ops.place,
        f != b.ops.move_rec,
        f != b.ops.free_in,
        ir::unspan(done(b, n, path)).head == ir::Head::Assign(v),
        ir::unspan(ir::unspan(done(b, n, path)).kids[0]).head == ir::Head::Call(f),
    ensures
        ({
            let m0 = ir::unspan(n);
            let m1 = ir::unspan(done(b, n, path));
            let c0 = ir::unspan(m0.kids[0]);
            let c1 = ir::unspan(m1.kids[0]);
            &&& m0.head == ir::Head::Assign(v)
            &&& m0.kids.len() == 1
            &&& c0.head == ir::Head::Call(f)
            &&& stands(b, c0, path.push(0))
            &&& !(c0.head is Span)
            &&& c1.kids.len() == c0.kids.len()
            &&& forall|j: int|
                0 <= j < c0.kids.len() ==> #[trigger] c1.kids[j] == done(
                    b,
                    c0.kids[j],
                    path.push(0).push(j as usize),
                )
        }),
{
    differ(b.ops);
    under_stands(b, n, path);
    assign_stays(b, n, path);
    let m0 = ir::unspan(n);
    kids_done(b, m0, path, true);
    kid_stands(b, m0, path, 0);
    place_known(b.plans, v, 0);
    let m1 = done(b, m0, path);
    if ir::unspan(m0.kids[0]).head is Null && place_result::placing(b.plans, v, 0) is Some {
        let q = place_result::placing(b.plans, v, 0)->0;
        assert(m1.kids[0] == place_result::call_node(b.ops.place, q.host, q.tp));
    } else {
        assert(m1.kids[0] == done(b, m0.kids[0], path.push(0)));
        under_stands(b, m0.kids[0], path.push(0));
        let c0 = ir::unspan(m0.kids[0]);
        kids_done(b, c0, path.push(0), true);
    }
}

proof fn no_second_plan(defs: Seq<Definition>, now: Seq<Definition>, d_nr: u32, ops: Ops, k: int)
    requires
        d_nr < defs.len(),
        in_order(defs, d_nr, ops),
        rewritten(defs, now, d_nr, ops),
        forall|at: int|
            place_result::builds_into_buffer(now, d_nr, at)
                ==> #[trigger] place_result::builds_into_buffer(defs, d_nr, at),
        ir::unspan(defs[d_nr as int].code@).head is Block,
        0 <= k < ir::unspan(now[d_nr as int].code@).kids.len(),
    ensures
        place_result::plan_at(
            now,
            d_nr,
            ir::unspan(now[d_nr as int].code@).kids,
            k,
            ops,
            Mode::Rewrite,
        ) is None,
{
    let code = defs[d_nr as int].code@;
    let body = ir::unspan(code);
    let top = body.kids;
    let b = planned(defs, d_nr, ops);
    let none = Seq::<usize>::empty();
    planned_is_sound(defs, d_nr, ops);
    done_under(b, code, none);
    let s1 = ir::unspan(now[d_nr as int].code@).kids;
    assert(s1 == place_result::kept_applied(top, 0, none, b.plans, ops));
    let verdict = place_result::plan_at(now, d_nr, s1, k, ops, Mode::Rewrite);
    if verdict is Some {
        let vars = defs[d_nr as int].variables;
        assert(now[d_nr as int].variables == vars);
        let j = kept_from(top, 0, none, b.plans, ops, k);
        let path = none.push(j as usize);
        kid_stands(b, body, none, j);
        let m1 = ir::unspan(s1[k]);
        let v = m1.head->Assign_0;
        let c1 = ir::unspan(m1.kids[0]);
        let f = c1.head->Call_0;
        bind_before(b, top[j], path, v, f);
        let m0 = ir::unspan(top[j]);
        let c0 = ir::unspan(m0.kids[0]);
        let at = now[f as int].return_buffer->0;
        assert(defs[f as int].return_buffer == now[f as int].return_buffer);
        let buf = ir::unspan(c1.kids[at as int]).head->Var_0;
        assert(c1.kids[at as int] == done(b, c0.kids[at as int], path.push(0).push(at)));
        shaped_kid(c0, at as int);
        head_stays(b, c0.kids[at as int], path.push(0).push(at));
        prefix_of_prefix(vars.variables@[buf as int].name@);
        starts_pass(s1, 0, k, v, buf, 0, 0);
        // The statement names the buffer.
        assert(ir::mentioned(m0, buf)) by {
            shaped_under(c0.kids[at as int]);
            leaf_names(c0.kids[at as int], buf);
            if !ir::mentioned(m0, buf) {
                none_at(m0.kids, ir::names(buf), 0);
                any_under(m0.kids[0], ir::names(buf));
                none_at(c0.kids, ir::names(buf), at as int);
            }
        }
        // No plan has to do with the local or the buffer.
        assert forall|l: int| 0 <= l < b.plans.len() implies (#[trigger] b.plans[l]).v != v
            && b.plans[l].buf != v && b.plans[l].host != v && b.plans[l].v != buf
            && b.plans[l].buf != buf && b.plans[l].host != buf by {
            let x = plans_known(defs, d_nr, top, 0, ops, l);
            plan_known(defs, d_nr, code, x, ops);
            let p = b.plans[l];
            prefix_of_prefix(vars.variables@[p.buf as int].name@);
            assert(!vars.argument(buf));
            taken_is_taken(defs, d_nr, ops, j, k, v, buf, x);
        }
        assert(!vars.argument(buf));
        assert(silent(b, v));
        assert(silent(b, buf));
        let own = place_result::own_buffer(defs[d_nr as int]);
        assert(place_result::own_buffer(now[d_nr as int]) == own);
        let e1 = Bind {
            defs: now,
            vars,
            ops,
            v,
            buf,
            args: c1.kids,
            buf_idx: at as int,
            own_retbuf: own,
        };
        let e0 = Bind { defs, args: c0.kids, ..e1 };
        assert(!ir::any_in(c0.kids, is_free(ops))) by {
            any_under(code, frees_in_operand(ops));
            none_at(top, frees_in_operand(ops), j);
            any_under(top[j], frees_in_operand(ops));
            none_at(m0.kids, frees_in_operand(ops), 0);
            any_under(m0.kids[0], frees_in_operand(ops));
            assert(!frees_in_operand(ops)(c0));
        }
        assert(alike(e0, e1)) by {
            assert forall|w: u16|
                !#[trigger] place_result::argument_names(e1, w, e1.args.len() as int) implies
                !place_result::argument_names(e0, w, e0.args.len() as int) by {
                operands_kept(b, e0, e1, c0, path.push(0), w, c0.kids.len() as int);
            }
        }
        assert(s1.skip(0) =~= s1);
        starts_stay(b, body, v, buf, s1, 0, k, 0, j, 0, 0);
        let rest = place_result::kept_applied(top, j + 1, none, b.plans, ops);
        assert(s1.skip(k) == seq![done(b, top[j], path)] + rest);
        assert(s1.skip(k + 1) =~= s1.skip(k).skip(1));
        assert(s1.skip(k).skip(1) =~= rest);
        let first = place_result::nothing_yet();
        sim_stmts(
            b,
            e0,
            e1,
            first,
            first,
            body,
            j + 1,
            s1,
            k + 1,
            St::Held,
            false,
            none,
            none,
        );
        assert(f < defs.len());
        assert(place_result::builds_into_buffer(defs, f, at as int)) by {
            if f == d_nr {
                assert(place_result::builds_into_buffer(now, d_nr, at as int));
            }
        }
        assert(place_result::placeable(defs, vars, v, f));
        assert(place_result::admission(
            defs,
            d_nr,
            top,
            j,
            v,
            f,
            c0.kids,
            ops,
            Mode::Rewrite,
        ) is Ok);
        assert(place_result::plan_at(defs, d_nr, top, j, ops, Mode::Rewrite) is Some);
        let l = plan_listed(defs, d_nr, top, 0, ops, j);
        assert(b.plans[l].v == v);
    }
}

proof fn nothing_planned(defs: Seq<Definition>, d_nr: u32, top: Seq<ir::Node>, i: int, ops: Ops)
    requires
        0 <= i,
        forall|k: int|
            0 <= k < top.len() ==> #[trigger] place_result::plan_at(
                defs,
                d_nr,
                top,
                k,
                ops,
                Mode::Rewrite,
            ) is None,
    ensures
        place_result::plans_from(defs, d_nr, top, i, ops, Mode::Rewrite) == Seq::<PlanView>::empty(),
    decreases top.len() - i,
{
    if i < top.len() {
        nothing_planned(defs, d_nr, top, i + 1, ops);
        assert(place_result::plan_at(defs, d_nr, top, i, ops, Mode::Rewrite) is None);
    }
}

/// A second rewrite of a function plans nothing and changes nothing.  Left out is a
/// function that comes to build into its own buffer by the first one: what calls itself
/// may then be placed as well.
pub proof fn a_second_rewrite_changes_nothing(data: Data, now: Data, d_nr: u32, ops: Ops)
    requires
        place_result::numbered(&data),
        d_nr < data.definitions.len(),
        place_result::ops_of(&data) == Some(ops),
        compiled(data.definitions@, d_nr, ops),
        rewritten(data.definitions@, now.definitions@, d_nr, ops),
        forall|at: int|
            place_result::builds_into_buffer(now.definitions@, d_nr, at)
                ==> #[trigger] place_result::builds_into_buffer(data.definitions@, d_nr, at),
    ensures
        place_result::ops_of(&now) == Some(ops),
        ({
            let code = now.definitions@[d_nr as int].code@;
            let plans = place_result::plans_for(now.definitions@, d_nr, code, ops, Mode::Rewrite);
            &&& plans == Seq::<PlanView>::empty()
            &&& place_result::applied(code, Seq::empty(), plans, ops) == code
        }),
{
    operators_differ(data, d_nr, ops);
    same_names_found(data.definitions@, now.definitions@, d_nr, 0);
    second_plans_nothing(data.definitions@, now.definitions@, d_nr, ops);
}

proof fn same_names_found(defs: Seq<Definition>, now: Seq<Definition>, d_nr: u32, from: int)
    requires
        now.len() == defs.len(),
        forall|d: int| 0 <= d < defs.len() && d != d_nr ==> #[trigger] now[d] == defs[d],
        d_nr < defs.len(),
        place_result::same_but_code(now[d_nr as int], defs[d_nr as int]),
    ensures
        forall|name: Seq<char>| #[trigger]
            data::def_from(now, name, from) == data::def_from(defs, name, from),
    decreases defs.len() - from,
{
    if 0 <= from < defs.len() {
        same_names_found(defs, now, d_nr, from + 1);
        assert(now[from].name@ == defs[from].name@) by {
            if from != d_nr {
                assert(now[from] == defs[from]);
            }
        }
        assert forall|name: Seq<char>| #[trigger] data::def_from(now, name, from) == data::def_from(
            defs,
            name,
            from,
        ) by {
            assert(data::def_from(now, name, from + 1) == data::def_from(defs, name, from + 1));
        }
    }
}

proof fn second_plans_nothing(
    defs: Seq<Definition>,
    now: Seq<Definition>,
    d_nr: u32,
    ops: Ops,
)
    requires
        d_nr < defs.len(),
        in_order(defs, d_nr, ops),
        rewritten(defs, now, d_nr, ops),
        forall|at: int|
            place_result::builds_into_buffer(now, d_nr, at)
                ==> #[trigger] place_result::builds_into_buffer(defs, d_nr, at),
    ensures
        ({
            let code = now[d_nr as int].code@;
            let plans = place_result::plans_for(now, d_nr, code, ops, Mode::Rewrite);
            &&& plans == Seq::<PlanView>::empty()
            &&& place_result::applied(code, Seq::empty(), plans, ops) == code
        }),
{
    let code = defs[d_nr as int].code@;
    let after = now[d_nr as int].code@;
    let b = planned(defs, d_nr, ops);
    done_under(b, code, Seq::empty());
    shaped_under(code);
    if ir::unspan(code).head is Block {
        let s1 = ir::unspan(after).kids;
        assert forall|k: int| 0 <= k < s1.len() implies #[trigger] place_result::plan_at(
            now,
            d_nr,
            s1,
            k,
            ops,
            Mode::Rewrite,
        ) is None by {
            no_second_plan(defs, now, d_nr, ops, k);
        }
        nothing_planned(now, d_nr, s1, 0, ops);
    } else {
        place_result::without_plans_nothing_changes(code, Seq::empty(), ops);
    }
    place_result::without_plans_nothing_changes(after, Seq::empty(), ops);
}

} // verus!
