//! Promoting locals to buffers a second time changes nothing.

use crate::data::{self, Data, Definition};
use crate::ir;
use crate::text;
use crate::types;
use crate::work_buffer::{self, FrameView, Local, Ops, Pos, Why};
use vstd::prelude::*;

verus! {

/// What one step of the pass may put into the code: the variables from `from` up to `to`
/// are new, and `local`, backed by `backing`, may be declared by a choice that the new
/// variable `witness` takes part in.
struct Growth {
    from: int,
    to: int,
    local: u16,
    backing: u16,
    witness: u16,
    ops: Ops,
}

spec fn fresh(c: Growth, x: u16) -> bool {
    c.from <= x < c.to
}

/// A statement that a step puts in: a new variable set to null, or the stash of what was
/// handed in.
spec fn put_in(c: Growth, n: ir::Node) -> bool {
    ||| exists|x: u16| fresh(c, x) && n == #[trigger] ir::assign(x, ir::leaf(ir::Head::Null))
    ||| fresh(c, c.witness) && n == ir::call(
        c.ops.put_ref,
        seq![ir::var(c.witness), ir::var(c.local)],
    )
}

/// The three statements before position `i` are a declaration, and `n` takes their place.
spec fn folds(c: Growth, s: Seq<ir::Node>, i: int, n: ir::Node) -> bool {
    &&& fresh(c, c.witness)
    &&& 3 <= i <= s.len()
    &&& work_buffer::is_trio(s, i - 3, c.local, c.backing, c.ops)
    &&& n == work_buffer::cleared(s.subrange(i - 3, i), c.local, c.witness, c.ops)
}

/// Whether `b` is `a` with what a step puts in.
spec fn grown(c: Growth, a: ir::Node, b: ir::Node) -> bool
    decreases a, 0int,
{
    &&& a.head == b.head
    &&& if a.head is Block || a.head is Loop {
        rows(c, a.kids, a.kids.len() as int, b.kids, b.kids.len() as int)
    } else if a.head is Call {
        &&& a.kids.len() <= b.kids.len()
        &&& pairs(c, a.kids, b.kids, a.kids.len() as int)
        &&& forall|j: int|
            a.kids.len() <= j < b.kids.len() ==> is_fresh_var(c, #[trigger] b.kids[j])
    } else {
        &&& a.kids.len() == b.kids.len()
        &&& pairs(c, a.kids, b.kids, a.kids.len() as int)
    }
}

spec fn is_fresh_var(c: Growth, n: ir::Node) -> bool {
    exists|x: u16| fresh(c, x) && n == #[trigger] ir::var(x)
}

/// Whether the first `k` of the nodes have grown one by one.
spec fn pairs(c: Growth, s: Seq<ir::Node>, t: Seq<ir::Node>, k: int) -> bool
    decreases s, k,
{
    k <= 0 || k > s.len() || k > t.len() || (pairs(c, s, t, k - 1) && grown(c, s[k - 1], t[k - 1]))
}

/// Whether the first `j` statements of `t` are the first `i` of `s` with what a step puts in.
spec fn rows(c: Growth, s: Seq<ir::Node>, i: int, t: Seq<ir::Node>, j: int) -> bool
    decreases s, j,
{
    if j <= 0 || j > t.len() {
        i == 0 && j == 0
    } else {
        ||| put_in(c, t[j - 1]) && rows(c, s, i, t, j - 1)
        ||| 0 < i <= s.len() && grown(c, s[i - 1], t[j - 1]) && rows(c, s, i - 1, t, j - 1)
        ||| folds(c, s, i, t[j - 1]) && rows(c, s, i - 3, t, j - 1)
    }
}

proof fn pair_at(c: Growth, s: Seq<ir::Node>, t: Seq<ir::Node>, k: int, i: int)
    requires
        pairs(c, s, t, k),
        0 <= i < k <= s.len(),
        k <= t.len(),
    ensures
        grown(c, s[i], t[i]),
    decreases k,
{
    if i < k - 1 {
        pair_at(c, s, t, k - 1, i);
    }
}

proof fn pairs_from(c: Growth, s: Seq<ir::Node>, t: Seq<ir::Node>, k: int)
    requires
        k <= s.len(),
        k <= t.len(),
        forall|i: int| 0 <= i < k ==> grown(c, #[trigger] s[i], t[i]),
    ensures
        pairs(c, s, t, k),
    decreases k,
{
    if k > 0 {
        pairs_from(c, s, t, k - 1);
        assert(grown(c, s[k - 1], t[k - 1]));
    }
}

/// Nodes that have grown one by one are rows.
proof fn rows_from(c: Growth, s: Seq<ir::Node>, t: Seq<ir::Node>, k: int)
    requires
        0 <= k <= s.len(),
        k <= t.len(),
        forall|i: int| 0 <= i < k ==> grown(c, #[trigger] s[i], t[i]),
    ensures
        rows(c, s, k, t, k),
    decreases k,
{
    if k > 0 {
        rows_from(c, s, t, k - 1);
        assert(grown(c, s[k - 1], t[k - 1]));
    }
}

/// Rows go on with nodes that have grown one by one.
proof fn rows_go_on(c: Growth, s: Seq<ir::Node>, i: int, t: Seq<ir::Node>, j: int, k: int)
    requires
        0 <= i,
        0 <= j,
        0 <= k,
        i + k <= s.len(),
        j + k <= t.len(),
        rows(c, s, i, t, j),
        forall|m: int| i <= m < i + k ==> grown(c, #[trigger] s[m], t[j + m - i]),
    ensures
        rows(c, s, i + k, t, j + k),
    decreases k,
{
    if k > 0 {
        rows_go_on(c, s, i, t, j, k - 1);
        assert(grown(c, s[i + k - 1], t[j + k - 1]));
    }
}

proof fn grown_by_nothing(c: Growth, a: ir::Node)
    ensures
        grown(c, a, a),
    decreases a,
{
    assert forall|i: int| 0 <= i < a.kids.len() implies grown(
        c,
        #[trigger] a.kids[i],
        a.kids[i],
    ) by {
        grown_by_nothing(c, a.kids[i]);
    }
    pairs_from(c, a.kids, a.kids, a.kids.len() as int);
    rows_from(c, a.kids, a.kids, a.kids.len() as int);
}

/// A node that holds others one by one, whatever it is.
proof fn grown_kids(c: Growth, a: ir::Node, b: ir::Node)
    requires
        a.head == b.head,
        a.kids.len() == b.kids.len(),
        forall|i: int| 0 <= i < a.kids.len() ==> grown(c, #[trigger] a.kids[i], b.kids[i]),
    ensures
        grown(c, a, b),
{
    pairs_from(c, a.kids, b.kids, a.kids.len() as int);
    rows_from(c, a.kids, b.kids, a.kids.len() as int);
}

proof fn grown_below_spans(c: Growth, a: ir::Node, b: ir::Node)
    requires
        grown(c, a, b),
    ensures
        grown(c, ir::unspan(a), ir::unspan(b)),
        ir::unspan(a).head == ir::unspan(b).head,
    decreases a,
{
    if a.head is Span && a.kids.len() > 0 {
        pair_at(c, a.kids, b.kids, a.kids.len() as int, 0);
        grown_below_spans(c, a.kids[0], b.kids[0]);
    }
}

proof fn calls_alike(c: Growth, a: ir::Node, b: ir::Node, d: u32, x: u16)
    requires
        grown(c, a, b),
        x < c.from,
    ensures
        work_buffer::calls_on(a, d, x) == work_buffer::calls_on(b, d, x),
{
    grown_below_spans(c, a, b);
    let m = ir::unspan(a);
    let k = ir::unspan(b);
    if m.head is Call {
        if m.kids.len() > 0 {
            pair_at(c, m.kids, k.kids, m.kids.len() as int, 0);
            grown_below_spans(c, m.kids[0], k.kids[0]);
        } else if k.kids.len() > 0 {
            assert(is_fresh_var(c, k.kids[0]));
        }
    }
}

/// A test on what a node is that no node put in by a step passes.
spec fn aside(c: Growth, p: spec_fn(ir::Node) -> bool) -> bool {
    &&& forall|a: ir::Node, b: ir::Node| a.head == b.head ==> #[trigger] p(a) == #[trigger] p(b)
    &&& forall|n: ir::Node| #[trigger]
        p(n) ==> !(n.head is If) && !(n.head is Insert) && !(n.head is Call) && !(n.head is Null)
            && n.head != ir::Head::Var(c.local) && (n.head matches ir::Head::Var(x) ==> !fresh(
            c,
            x,
        )) && (n.head matches ir::Head::Assign(x) ==> !fresh(c, x))
}

proof fn count_one(p: spec_fn(ir::Node) -> bool, a: ir::Node)
    ensures
        ir::count_in(seq![a], p) == ir::count(a, p),
        ir::count_in(Seq::<ir::Node>::empty(), p) == 0,
{
    let s = seq![a];
    assert(s.drop_last() =~= Seq::<ir::Node>::empty());
    assert(ir::count_in(s.drop_last(), p) == 0);
}

proof fn count_both(p: spec_fn(ir::Node) -> bool, s: Seq<ir::Node>, t: Seq<ir::Node>)
    ensures
        ir::count_in(s + t, p) == ir::count_in(s, p) + ir::count_in(t, p),
    decreases t.len(),
{
    if t.len() == 0 {
        assert(s + t =~= s);
    } else {
        count_both(p, s, t.drop_last());
        assert((s + t).drop_last() =~= s + t.drop_last());
        assert((s + t).last() == t.last());
    }
}

proof fn count_leaf(p: spec_fn(ir::Node) -> bool, h: ir::Head)
    ensures
        ir::count(ir::leaf(h), p) == if p(ir::leaf(h)) {
            1nat
        } else {
            0
        },
{
    count_one(p, ir::leaf(h));
}

proof fn count_put_in(c: Growth, p: spec_fn(ir::Node) -> bool, n: ir::Node)
    requires
        aside(c, p),
        put_in(c, n),
    ensures
        ir::count(n, p) == 0,
{
    let null = ir::leaf(ir::Head::Null);
    count_leaf(p, ir::Head::Null);
    count_one(p, null);
    count_leaf(p, ir::Head::Var(c.witness));
    count_leaf(p, ir::Head::Var(c.local));
    count_one(p, ir::var(c.witness));
    count_one(p, ir::var(c.local));
    count_both(p, seq![ir::var(c.witness)], seq![ir::var(c.local)]);
    assert(seq![ir::var(c.witness), ir::var(c.local)] =~= seq![ir::var(c.witness)] + seq![
        ir::var(c.local),
    ]);
    assert(!p(n));
}

proof fn count_cleared(c: Growth, p: spec_fn(ir::Node) -> bool, trio: Seq<ir::Node>)
    requires
        aside(c, p),
        fresh(c, c.witness),
    ensures
        ir::count(work_buffer::cleared(trio, c.local, c.witness, c.ops), p) == ir::count_in(
            trio,
            p,
        ),
{
    let v = ir::var(c.local);
    let w = ir::var(c.witness);
    count_leaf(p, ir::Head::Var(c.witness));
    count_leaf(p, ir::Head::Var(c.local));
    count_one(p, v);
    count_one(p, w);
    count_both(p, seq![v], seq![w]);
    assert(seq![v, w] =~= seq![v] + seq![w]);
    let free = ir::call(c.ops.free_if_distinct, seq![v, w]);
    assert(ir::count(free, p) == 0);
    let test = ir::call(c.ops.ref_is_null, seq![v]);
    assert(ir::count(test, p) == 0);
    let clear = ir::call(c.ops.clear, seq![v]);
    assert(ir::count(clear, p) == 0);
    count_one(p, free);
    count_one(p, clear);
    count_both(p, seq![free], trio);
    let yes = ir::insert(seq![free] + trio);
    let no = ir::insert(seq![clear]);
    assert(ir::count(yes, p) == ir::count_in(trio, p));
    assert(ir::count(no, p) == 0);
    count_one(p, test);
    count_one(p, yes);
    count_one(p, no);
    count_both(p, seq![test], seq![yes]);
    count_both(p, seq![test] + seq![yes], seq![no]);
    assert(seq![test, yes, no] =~= seq![test] + seq![yes] + seq![no]);
}

/// What no node put in passes is counted as before.
proof fn counted_alike(c: Growth, a: ir::Node, b: ir::Node, p: spec_fn(ir::Node) -> bool)
    requires
        grown(c, a, b),
        aside(c, p),
    ensures
        ir::count(a, p) == ir::count(b, p),
    decreases a, 0int,
{
    let s = a.kids;
    let t = b.kids;
    assert(s.take(s.len() as int) =~= s);
    assert(t.take(t.len() as int) =~= t);
    assert(p(a) == p(b));
    if a.head is Block || a.head is Loop {
        counted_alike_in_rows(c, s, s.len() as int, t, t.len() as int, p);
    } else {
        counted_alike_in_pairs(c, s, t, s.len() as int, p);
        if a.head is Call {
            fresh_counts_none(c, t, s.len() as int, t.len() as int, p);
        }
    }
}

proof fn fresh_counts_none(
    c: Growth,
    t: Seq<ir::Node>,
    i: int,
    k: int,
    p: spec_fn(ir::Node) -> bool,
)
    requires
        aside(c, p),
        0 <= i <= k <= t.len(),
        forall|j: int| i <= j < k ==> is_fresh_var(c, #[trigger] t[j]),
    ensures
        ir::count_in(t.take(k), p) == ir::count_in(t.take(i), p),
    decreases k,
{
    if i < k {
        fresh_counts_none(c, t, i, k - 1, p);
        ir::count_step(t, p, k - 1);
        assert(is_fresh_var(c, t[k - 1]));
        count_leaf(p, t[k - 1].head);
    }
}

proof fn counted_alike_in_pairs(
    c: Growth,
    s: Seq<ir::Node>,
    t: Seq<ir::Node>,
    k: int,
    p: spec_fn(ir::Node) -> bool,
)
    requires
        aside(c, p),
        pairs(c, s, t, k),
        0 <= k <= s.len(),
        k <= t.len(),
    ensures
        ir::count_in(s.take(k), p) == ir::count_in(t.take(k), p),
    decreases s, k,
{
    if k > 0 {
        counted_alike_in_pairs(c, s, t, k - 1, p);
        counted_alike(c, s[k - 1], t[k - 1], p);
        ir::count_step(s, p, k - 1);
        ir::count_step(t, p, k - 1);
    } else {
        assert(s.take(0) =~= t.take(0));
    }
}

proof fn counted_alike_in_rows(
    c: Growth,
    s: Seq<ir::Node>,
    i: int,
    t: Seq<ir::Node>,
    j: int,
    p: spec_fn(ir::Node) -> bool,
)
    requires
        aside(c, p),
        rows(c, s, i, t, j),
        0 <= i <= s.len(),
        0 <= j <= t.len(),
    ensures
        ir::count_in(s.take(i), p) == ir::count_in(t.take(j), p),
    decreases s, j,
{
    if j > 0 {
        ir::count_step(t, p, j - 1);
        if put_in(c, t[j - 1]) && rows(c, s, i, t, j - 1) {
            counted_alike_in_rows(c, s, i, t, j - 1, p);
            count_put_in(c, p, t[j - 1]);
        } else if 0 < i <= s.len() && grown(c, s[i - 1], t[j - 1]) && rows(c, s, i - 1, t, j - 1) {
            counted_alike_in_rows(c, s, i - 1, t, j - 1, p);
            counted_alike(c, s[i - 1], t[j - 1], p);
            ir::count_step(s, p, i - 1);
        } else {
            counted_alike_in_rows(c, s, i - 3, t, j - 1, p);
            count_cleared(c, p, s.subrange(i - 3, i));
            count_both(p, s.take(i - 3), s.subrange(i - 3, i));
            assert(s.take(i - 3) + s.subrange(i - 3, i) =~= s.take(i));
        }
    } else {
        assert(s.take(0) =~= t.take(0));
    }
}

proof fn holds_in(s: Seq<ir::Node>, p: spec_fn(ir::Node) -> bool, i: int)
    requires
        0 <= i < s.len(),
        ir::any(s[i], p),
    ensures
        ir::any_in(s, p),
{
    ir::any_step(s, p, i);
    ir::any_prefix(s, p, i + 1);
}

proof fn held_at(s: Seq<ir::Node>, p: spec_fn(ir::Node) -> bool) -> (i: int)
    requires
        ir::any_in(s, p),
    ensures
        0 <= i < s.len(),
        ir::any(s[i], p),
    decreases s.len(),
{
    if ir::any(s.last(), p) {
        s.len() - 1
    } else {
        held_at(s.drop_last(), p)
    }
}

/// What passes `p` passes `q` once it has grown.
spec fn carries(
    c: Growth,
    p: spec_fn(ir::Node) -> bool,
    q: spec_fn(ir::Node) -> bool,
) -> bool {
    forall|a: ir::Node, b: ir::Node|
        #![trigger p(a), q(b)]
        grown(c, a, b) && p(a) ==> q(b)
}

/// A node that passes stands in the code that has grown, too.
proof fn found_again(
    c: Growth,
    a: ir::Node,
    b: ir::Node,
    p: spec_fn(ir::Node) -> bool,
    q: spec_fn(ir::Node) -> bool,
)
    requires
        grown(c, a, b),
        carries(c, p, q),
        ir::any(a, p),
    ensures
        ir::any(b, q),
    decreases a, 0int,
{
    if p(a) {
        assert(q(b));
    } else {
        let i = held_at(a.kids, p);
        if a.head is Block || a.head is Loop {
            found_again_in(c, a.kids, a.kids.len() as int, b.kids, b.kids.len() as int, p, q, i);
        } else {
            pair_at(c, a.kids, b.kids, a.kids.len() as int, i);
            found_again(c, a.kids[i], b.kids[i], p, q);
            holds_in(b.kids, q, i);
        }
    }
}

proof fn found_again_in(
    c: Growth,
    s: Seq<ir::Node>,
    i: int,
    t: Seq<ir::Node>,
    j: int,
    p: spec_fn(ir::Node) -> bool,
    q: spec_fn(ir::Node) -> bool,
    m: int,
)
    requires
        rows(c, s, i, t, j),
        carries(c, p, q),
        0 <= m < i <= s.len(),
        0 <= j <= t.len(),
        ir::any(s[m], p),
    ensures
        ir::any_in(t, q),
    decreases s, j,
{
    assert(j > 0);
    if put_in(c, t[j - 1]) && rows(c, s, i, t, j - 1) {
        found_again_in(c, s, i, t, j - 1, p, q, m);
    } else if 0 < i <= s.len() && grown(c, s[i - 1], t[j - 1]) && rows(c, s, i - 1, t, j - 1) {
        if m == i - 1 {
            found_again(c, s[m], t[j - 1], p, q);
            holds_in(t, q, j - 1);
        } else {
            found_again_in(c, s, i - 1, t, j - 1, p, q, m);
        }
    } else if m < i - 3 {
        found_again_in(c, s, i - 3, t, j - 1, p, q, m);
    } else {
        let trio = s.subrange(i - 3, i);
        grown_by_nothing(c, s[m]);
        found_again(c, s[m], s[m], p, q);
        let free = ir::call(
            c.ops.free_if_distinct,
            seq![ir::var(c.local), ir::var(c.witness)],
        );
        let yes = ir::insert(seq![free] + trio);
        assert(yes.kids[m - (i - 3) + 1] == s[m]);
        holds_in(yes.kids, q, m - (i - 3) + 1);
        assert(ir::any(yes, q));
        assert(t[j - 1].kids[1] == yes);
        holds_in(t[j - 1].kids, q, 1);
        assert(ir::any(t[j - 1], q));
        holds_in(t, q, j - 1);
    }
}

/// The blocks in which `v` is declared.
spec fn declares(v: u16, db: u16, ops: Ops) -> spec_fn(ir::Node) -> bool {
    |n: ir::Node|
        (n.head is Block || n.head is Loop) && exists|i: int|
            #[trigger] work_buffer::is_trio(n.kids, i, v, db, ops)
}

proof fn some_trio(s: Seq<ir::Node>, k: int, v: u16, db: u16, ops: Ops)
    requires
        k <= s.len(),
    ensures
        work_buffer::trios(s, k, v, db, ops) > 0 <==> exists|i: int|
            i < k && #[trigger] work_buffer::is_trio(s, i, v, db, ops),
    decreases k,
{
    if k > 0 {
        some_trio(s, k - 1, v, db, ops);
        if work_buffer::trios(s, k - 1, v, db, ops) > 0 {
            let i = choose|i: int| i < k - 1 && #[trigger] work_buffer::is_trio(s, i, v, db, ops);
            assert(i < k && work_buffer::is_trio(s, i, v, db, ops));
        } else if work_buffer::is_trio(s, k - 1, v, db, ops) {
            assert(k - 1 < k && work_buffer::is_trio(s, k - 1, v, db, ops));
        }
    }
}

proof fn some_site(n: ir::Node, v: u16, db: u16, ops: Ops)
    ensures
        work_buffer::trio_sites(n, v, db, ops) > 0 <==> ir::any(n, declares(v, db, ops)),
    decreases n, 0int,
{
    some_site_in(n.kids, n.kids.len() as int, v, db, ops);
    some_trio(n.kids, n.kids.len() as int, v, db, ops);
    assert(n.kids.take(n.kids.len() as int) =~= n.kids);
    let p = declares(v, db, ops);
    if n.head is Block || n.head is Loop {
        if p(n) {
            let i = choose|i: int| #[trigger] work_buffer::is_trio(n.kids, i, v, db, ops);
            assert(i < n.kids.len() && work_buffer::is_trio(n.kids, i, v, db, ops));
        }
    }
}

proof fn some_site_in(s: Seq<ir::Node>, k: int, v: u16, db: u16, ops: Ops)
    requires
        0 <= k <= s.len(),
    ensures
        work_buffer::trio_sites_in(s, k, v, db, ops) > 0 <==> ir::any_in(
            s.take(k),
            declares(v, db, ops),
        ),
    decreases s, k,
{
    if k > 0 {
        some_site_in(s, k - 1, v, db, ops);
        some_site(s[k - 1], v, db, ops);
        ir::any_step(s, declares(v, db, ops), k - 1);
    }
}

/// Every declaration assigns the local.
proof fn sites_assign(n: ir::Node, v: u16, db: u16, ops: Ops)
    ensures
        work_buffer::trio_sites(n, v, db, ops) <= ir::count(n, work_buffer::assigns(v)),
        ir::unspan(n).head == ir::Head::Assign(v) ==> work_buffer::trio_sites(n, v, db, ops) + 1
            <= ir::count(n, work_buffer::assigns(v)),
    decreases n, 0int,
{
    let s = n.kids;
    let k = s.len() as int;
    sites_assign_in(s, k, v, db, ops);
    assert(s.take(k) =~= s);
    if n.head is Block || n.head is Loop {
        assert(!work_buffer::is_trio(s, k - 1, v, db, ops));
        if k > 1 {
            assert(!work_buffer::is_trio(s, k - 2, v, db, ops));
            assert(work_buffer::trios(s, k - 1, v, db, ops) == work_buffer::trios(
                s,
                k - 2,
                v,
                db,
                ops,
            ));
        } else if k == 1 {
            assert(work_buffer::trios(s, 0, v, db, ops) == 0);
        }
        assert(work_buffer::trios(s, k, v, db, ops) == work_buffer::trios(s, k - 2, v, db, ops));
    } else if n.head is Span && k > 0 {
        sites_assign_one(s, k, v, db, ops);
    }
}

/// A span has one node of which the first counts.
proof fn sites_assign_one(s: Seq<ir::Node>, k: int, v: u16, db: u16, ops: Ops)
    requires
        0 < k <= s.len(),
    ensures
        ir::unspan(s[0]).head == ir::Head::Assign(v) ==> work_buffer::trio_sites_in(
            s,
            k,
            v,
            db,
            ops,
        ) + 1 <= ir::count_in(s.take(k), work_buffer::assigns(v)),
    decreases s, k,
{
    let p = work_buffer::assigns(v);
    ir::count_step(s, p, k - 1);
    sites_assign(s[k - 1], v, db, ops);
    if k > 1 {
        sites_assign_one(s, k - 1, v, db, ops);
    } else {
        assert(work_buffer::trio_sites_in(s, 0, v, db, ops) == 0);
    }
}

proof fn sites_assign_in(s: Seq<ir::Node>, k: int, v: u16, db: u16, ops: Ops)
    requires
        0 <= k <= s.len(),
    ensures
        work_buffer::trio_sites_in(s, k, v, db, ops) + work_buffer::trios(s, k - 1, v, db, ops)
            <= ir::count_in(s.take(k), work_buffer::assigns(v)),
    decreases s, k,
{
    if k > 0 {
        let p = work_buffer::assigns(v);
        sites_assign_in(s, k - 1, v, db, ops);
        sites_assign(s[k - 1], v, db, ops);
        ir::count_step(s, p, k - 1);
        if k > 1 && work_buffer::is_trio(s, k - 2, v, db, ops) {
            assert(ir::unspan(s[k - 1]).head == ir::Head::Assign(v));
        }
    }
}

/// The rows up to an earlier statement.
proof fn rows_before(c: Growth, s: Seq<ir::Node>, i: int, t: Seq<ir::Node>, j: int, k: int) -> (m:
    int)
    requires
        rows(c, s, i, t, j),
        0 <= i <= s.len(),
        0 <= k <= j <= t.len(),
    ensures
        rows(c, s, m, t, k),
        0 <= m <= s.len(),
    decreases j,
{
    if k == j {
        i
    } else if put_in(c, t[j - 1]) && rows(c, s, i, t, j - 1) {
        rows_before(c, s, i, t, j - 1, k)
    } else if 0 < i <= s.len() && grown(c, s[i - 1], t[j - 1]) && rows(c, s, i - 1, t, j - 1) {
        rows_before(c, s, i - 1, t, j - 1, k)
    } else {
        rows_before(c, s, i - 3, t, j - 1, k)
    }
}

/// A statement on a variable that is not new has stood there.
proof fn row_of(c: Growth, s: Seq<ir::Node>, i: int, t: Seq<ir::Node>, j: int, d: u32, x: u16)
    requires
        rows(c, s, i, t, j),
        0 <= i <= s.len(),
        0 < j <= t.len(),
        x < c.from,
        work_buffer::calls_on(t[j - 1], d, x) || ir::unspan(t[j - 1]).head == ir::Head::Assign(x),
    ensures
        0 < i,
        grown(c, s[i - 1], t[j - 1]),
        rows(c, s, i - 1, t, j - 1),
{
    assert(!put_in(c, t[j - 1]));
    assert(!folds(c, s, i, t[j - 1]));
}

/// A local that is declared in the code that has grown was declared in it before.
proof fn declared_before(
    c: Growth,
    a: ir::Node,
    b: ir::Node,
    v: u16,
    db: u16,
)
    requires
        grown(c, a, b),
        v < c.from,
        db < c.from,
        ir::any(b, declares(v, db, c.ops)),
    ensures
        ir::any(a, declares(v, db, c.ops)),
    decreases a, 0int,
{
    let p = declares(v, db, c.ops);
    let s = a.kids;
    let t = b.kids;
    if p(b) {
        let j = choose|j: int| #[trigger] work_buffer::is_trio(t, j, v, db, c.ops);
        let i = rows_before(c, s, s.len() as int, t, t.len() as int, j + 3);
        row_of(c, s, i, t, j + 3, c.ops.set_int4, db);
        row_of(c, s, i - 1, t, j + 2, 0, v);
        row_of(c, s, i - 2, t, j + 1, c.ops.database, db);
        calls_alike(c, s[i - 3], t[j], c.ops.database, db);
        calls_alike(c, s[i - 1], t[j + 2], c.ops.set_int4, db);
        grown_below_spans(c, s[i - 2], t[j + 1]);
        let m = ir::unspan(s[i - 2]);
        let k = ir::unspan(t[j + 1]);
        pair_at(c, m.kids, k.kids, m.kids.len() as int, 0);
        calls_alike(c, m.kids[0], k.kids[0], c.ops.get_field, db);
        assert(work_buffer::is_trio(s, i - 3, v, db, c.ops));
        assert(p(a));
    } else {
        let j = held_at(t, p);
        if a.head is Block || a.head is Loop {
            let i = rows_before(c, s, s.len() as int, t, t.len() as int, j + 1);
            declared_before_in(c, s, i, t, j + 1, v, db);
        } else if j < s.len() {
            pair_at(c, s, t, s.len() as int, j);
            declared_before(c, s[j], t[j], v, db);
            holds_in(s, p, j);
        } else {
            assert(is_fresh_var(c, t[j]));
            assert(!p(t[j]));
            assert(t[j].kids.len() == 0);
        }
    }
}

proof fn declared_before_in(
    c: Growth,
    s: Seq<ir::Node>,
    i: int,
    t: Seq<ir::Node>,
    j: int,
    v: u16,
    db: u16,
)
    requires
        rows(c, s, i, t, j),
        0 <= i <= s.len(),
        0 < j <= t.len(),
        v < c.from,
        db < c.from,
        ir::any(t[j - 1], declares(v, db, c.ops)),
    ensures
        ir::any_in(s, declares(v, db, c.ops)),
    decreases s, 1int,
{
    let p = declares(v, db, c.ops);
    let n = t[j - 1];
    if put_in(c, n) {
        let m = held_at(n.kids, p);
        assert(n.kids[m].kids.len() == 0);
        assert(false);
    } else if 0 < i <= s.len() && grown(c, s[i - 1], n) && rows(c, s, i - 1, t, j - 1) {
        declared_before(c, s[i - 1], n, v, db);
        holds_in(s, p, i - 1);
    } else {
        let m = held_at(n.kids, p);
        let k = held_at(n.kids[m].kids, p);
        let x = n.kids[m].kids[k];
        if m == 1 && k > 0 {
            assert(x == s[i - 3 + k - 1]);
            holds_in(s, p, i - 3 + k - 1);
        } else {
            if x.kids.len() > 0 {
                let y = held_at(x.kids, p);
                assert(x.kids[y].kids.len() == 0);
            }
            assert(false);
        }
    }
}

/// The values that are null at the start of the code are so as before.
proof fn null_inits_alike(
    c: Growth,
    s: Seq<ir::Node>,
    i: int,
    t: Seq<ir::Node>,
    j: int,
    db: u16,
)
    requires
        rows(c, s, i, t, j),
        0 <= i <= s.len(),
        0 <= j <= t.len(),
        db < c.from,
    ensures
        work_buffer::null_inits(s, i, db) == work_buffer::null_inits(t, j, db),
    decreases j,
{
    if j > 0 {
        if put_in(c, t[j - 1]) && rows(c, s, i, t, j - 1) {
            null_inits_alike(c, s, i, t, j - 1, db);
            assert(!work_buffer::is_null_init(t[j - 1], db));
        } else if 0 < i <= s.len() && grown(c, s[i - 1], t[j - 1]) && rows(c, s, i - 1, t, j - 1) {
            null_inits_alike(c, s, i - 1, t, j - 1, db);
            grown_below_spans(c, s[i - 1], t[j - 1]);
            let m = ir::unspan(s[i - 1]);
            let k = ir::unspan(t[j - 1]);
            if m.head is Assign && m.kids.len() > 0 {
                pair_at(c, m.kids, k.kids, m.kids.len() as int, 0);
                grown_below_spans(c, m.kids[0], k.kids[0]);
            }
        } else {
            null_inits_alike(c, s, i - 3, t, j - 1, db);
            assert(!work_buffer::is_null_init(t[j - 1], db));
            assert(!work_buffer::is_null_init(s[i - 1], db));
            assert(!work_buffer::is_null_init(s[i - 2], db));
            assert(!work_buffer::is_null_init(s[i - 3], db));
            assert(work_buffer::null_inits(s, i, db) == work_buffer::null_inits(s, i - 1, db));
            assert(work_buffer::null_inits(s, i - 1, db) == work_buffer::null_inits(s, i - 2, db));
            assert(work_buffer::null_inits(s, i - 2, db) == work_buffer::null_inits(s, i - 3, db));
        }
    }
}

spec fn place(d: Option<u32>, i: int) -> Pos {
    match d {
        Some(x) => Pos::Arg { d: x, i: i as usize },
        None => Pos::Other,
    }
}

/// The verdict on the first `k` nodes.
spec fn walked(e: Local, s: Seq<ir::Node>, k: int, d: Option<u32>, found: Seq<u16>) -> (
    Result<(), Why>,
    Seq<u16>,
)
    decreases k,
{
    if k <= 0 {
        (Ok(()), found)
    } else {
        let (r, more) = walked(e, s, k - 1, d, found);
        match r {
            Err(why) => (Err(why), more),
            Ok(_) => work_buffer::walk(e, s[k - 1], place(d, k - 1), more),
        }
    }
}

proof fn one_verdict(r: Result<(), Why>)
    ensures
        r is Ok ==> r == Ok::<(), Why>(()),
{
    match r {
        Ok(x) => {
            assert(x == ());
        },
        Err(_) => {},
    }
}

proof fn walked_whole(
    e: Local,
    s: Seq<ir::Node>,
    k: int,
    d: Option<u32>,
    found: Seq<u16>,
)
    requires
        0 <= k <= s.len(),
    ensures
        ({
            let (r, more) = walked(e, s, k, d, found);
            &&& r is Ok ==> work_buffer::walk_kids(e, s, 0, d, found) == work_buffer::walk_kids(
                e,
                s,
                k,
                d,
                more,
            )
            &&& r is Err ==> work_buffer::walk_kids(e, s, 0, d, found) == (r, more)
        }),
        k == s.len() ==> work_buffer::walk_kids(e, s, 0, d, found) == walked(e, s, k, d, found),
    decreases k,
{
    let (r, more) = walked(e, s, k, d, found);
    let whole = work_buffer::walk_kids(e, s, 0, d, found);
    one_verdict(r);
    if k > 0 {
        walked_whole(e, s, k - 1, d, found);
        let (was, before) = walked(e, s, k - 1, d, found);
        one_verdict(was);
        if was is Ok {
            let rest = work_buffer::walk_kids(e, s, k - 1, d, before);
            assert(whole == rest);
            assert((r, more) == work_buffer::walk(e, s[k - 1], place(d, k - 1), before));
            if r is Ok {
                assert(rest == work_buffer::walk_kids(e, s, k, d, more));
            } else {
                assert(rest == (r, more));
            }
        } else {
            assert((r, more) == (was, before));
        }
    } else {
        assert((r, more) == (Ok::<(), Why>(()), found));
    }
    if k == s.len() && r is Ok {
        assert(work_buffer::walk_kids(e, s, k, d, more) == (Ok::<(), Why>(()), more));
        assert(whole == (r, more));
    }
}

/// Whether what a walk reads differs only in what a step puts in.
spec fn like(c: Growth, e: Local, g: Local) -> bool {
    &&& e.v == g.v
    &&& e.db == g.db
    &&& e.ops == g.ops
    &&& e.followed == g.followed
    &&& e.v < c.from
    &&& e.db < c.from
    &&& forall|x: u16| #[trigger] e.followed.contains(x) ==> x < c.from
    &&& forall|d: u32| #[trigger]
        work_buffer::name_of(e.defs, d) == work_buffer::name_of(g.defs, d)
    &&& forall|d: u32, i: int| #[trigger]
        work_buffer::allowed(e.defs, d, i) == work_buffer::allowed(g.defs, d, i)
    &&& forall|x: u16| #[trigger]
        work_buffer::is_arg(e.vars, x) ==> work_buffer::is_arg(g.vars, x)
    &&& forall|x: u16|
        x < c.from ==> #[trigger] ir::count(e.code, work_buffer::assigns(x)) == ir::count(
            g.code,
            work_buffer::assigns(x),
        )
}

/// The assignments to variables from `n` on.
pub open spec fn assigns_from(n: int) -> spec_fn(ir::Node) -> bool {
    |m: ir::Node| m.head matches ir::Head::Assign(x) && x >= n
}

proof fn none_below(n: ir::Node, p: spec_fn(ir::Node) -> bool, i: int)
    requires
        !ir::any(n, p),
        0 <= i < n.kids.len(),
    ensures
        !ir::any(n.kids[i], p),
{
    if ir::any(n.kids[i], p) {
        holds_in(n.kids, p, i);
    }
}

proof fn followed_alike(c: Growth, e: Local, g: Local, a: ir::Node, b: ir::Node)
    requires
        grown(c, a, b),
        like(c, e, g),
    ensures
        work_buffer::is_followed(e, a) == work_buffer::is_followed(g, b),
{
    grown_below_spans(c, a, b);
}

proof fn refused_alike(
    c: Growth,
    e: Local,
    g: Local,
    a: ir::Node,
    b: ir::Node,
    d: u32,
    pos: Pos,
)
    requires
        grown(c, a, b),
        like(c, e, g),
        a.head == ir::Head::Call(d),
    ensures
        work_buffer::call_refused(e, d, a.kids, pos) == work_buffer::call_refused(
            g,
            d,
            b.kids,
            pos,
        ),
{
    let s = a.kids;
    let t = b.kids;
    assert(work_buffer::name_of(e.defs, d) == work_buffer::name_of(g.defs, d));
    match pos {
        Pos::Arg { d: p, i } => {
            assert(work_buffer::name_of(e.defs, p) == work_buffer::name_of(g.defs, p));
        },
        Pos::Other => {},
    }
    if s.len() > 0 {
        pair_at(c, s, t, s.len() as int, 0);
        followed_alike(c, e, g, s[0], t[0]);
        grown_below_spans(c, s[0], t[0]);
    } else if t.len() > 0 {
        assert(is_fresh_var(c, t[0]));
    }
    if s.len() > 1 {
        pair_at(c, s, t, s.len() as int, 1);
        followed_alike(c, e, g, s[1], t[1]);
    } else if t.len() > 1 {
        assert(is_fresh_var(c, t[1]));
    }
}

/// Code that is in order once it has grown was in order before, with the same copies.
proof fn walked_alike(
    c: Growth,
    e: Local,
    g: Local,
    a: ir::Node,
    b: ir::Node,
    pos: Pos,
    found: Seq<u16>,
)
    requires
        grown(c, a, b),
        like(c, e, g),
        !ir::any(a, assigns_from(c.from)),
        work_buffer::walk(g, b, pos, found).0 is Ok,
    ensures
        work_buffer::walk(e, a, pos, found) == work_buffer::walk(g, b, pos, found),
    decreases a, 1int,
{
    let s = a.kids;
    let t = b.kids;
    let k = s.len() as int;
    let p = assigns_from(c.from);
    if a.head is Span && s.len() > 0 {
        pair_at(c, s, t, k, 0);
        none_below(a, p, 0);
        walked_alike(c, e, g, s[0], t[0], pos, found);
    } else {
        match a.head {
            ir::Head::Var(x) => {},
            ir::Head::Call(d) => {
                refused_alike(c, e, g, a, b, d, pos);
                walked_whole(e, s, k, Some(d), found);
                walked_whole(g, t, t.len() as int, Some(d), found);
                fresh_walked(c, e, g, t, k, t.len() as int, d, found);
                walked_pairs(c, e, g, a, t, k, Some(d), found);
            },
            ir::Head::Assign(x) => {
                assert(!p(a));
                if k > 0 {
                    pair_at(c, s, t, k, 0);
                    none_below(a, p, 0);
                    followed_alike(c, e, g, s[0], t[0]);
                    calls_alike(c, s[0], t[0], e.ops.get_field, e.db);
                    let was = work_buffer::assigned(e, x, s[0], found);
                    let is = work_buffer::assigned(g, x, t[0], found);
                    assert(work_buffer::walk(e, a, pos, found) == was);
                    assert(work_buffer::walk(g, b, pos, found) == is);
                    if (!e.followed.contains(x) && !work_buffer::is_followed(e, s[0])) || (
                    e.followed.contains(x) && x == e.v) {
                        assert(is == work_buffer::walk(g, t[0], Pos::Other, found));
                        assert(was == work_buffer::walk(e, s[0], Pos::Other, found) || (
                        e.followed.contains(x) && !work_buffer::rebinds(e, x, s[0])));
                        walked_alike(c, e, g, s[0], t[0], Pos::Other, found);
                    }
                }
            },
            _ => {
                walked_whole(e, s, k, None, found);
                walked_whole(g, t, t.len() as int, None, found);
                if a.head is Block || a.head is Loop {
                    walked_rows(c, e, g, a, k, t, t.len() as int, found);
                } else {
                    walked_pairs(c, e, g, a, t, k, None, found);
                }
            },
        }
    }
}

/// The new operands of a call are in order.
proof fn fresh_walked(
    c: Growth,
    e: Local,
    g: Local,
    t: Seq<ir::Node>,
    i: int,
    k: int,
    d: u32,
    found: Seq<u16>,
)
    requires
        like(c, e, g),
        0 <= i <= k <= t.len(),
        forall|j: int| i <= j < k ==> is_fresh_var(c, #[trigger] t[j]),
    ensures
        walked(g, t, k, Some(d), found) == walked(g, t, i, Some(d), found),
    decreases k,
{
    if i < k {
        fresh_walked(c, e, g, t, i, k - 1, d, found);
        one_verdict(walked(g, t, k - 1, Some(d), found).0);
        assert(is_fresh_var(c, t[k - 1]));
        match t[k - 1].head {
            ir::Head::Var(x) => {
                assert(!g.followed.contains(x));
            },
            _ => {},
        }
    }
}

proof fn walked_pairs(
    c: Growth,
    e: Local,
    g: Local,
    a: ir::Node,
    t: Seq<ir::Node>,
    k: int,
    d: Option<u32>,
    found: Seq<u16>,
)
    requires
        like(c, e, g),
        pairs(c, a.kids, t, k),
        0 <= k <= a.kids.len(),
        k <= t.len(),
        !ir::any(a, assigns_from(c.from)),
        walked(g, t, k, d, found).0 is Ok,
    ensures
        walked(e, a.kids, k, d, found) == walked(g, t, k, d, found),
    decreases a, 0int, k,
{
    if k > 0 {
        walked_pairs(c, e, g, a, t, k - 1, d, found);
        none_below(a, assigns_from(c.from), k - 1);
        let more = walked(g, t, k - 1, d, found).1;
        walked_alike(c, e, g, a.kids[k - 1], t[k - 1], place(d, k - 1), more);
    }
}

/// A statement that is put in holds no copy.
proof fn put_in_walked(c: Growth, e: Local, g: Local, n: ir::Node, found: Seq<u16>)
    requires
        like(c, e, g),
        put_in(c, n),
    ensures
        work_buffer::walk(g, n, Pos::Other, found).0 is Ok ==> work_buffer::walk(
            g,
            n,
            Pos::Other,
            found,
        ).1 == found,
{
    match n.head {
        ir::Head::Assign(x) => {
            let null = ir::leaf(ir::Head::Null);
            assert(!g.followed.contains(x));
            assert(n.kids[0] == null);
            assert(!work_buffer::is_followed(g, null));
            assert(work_buffer::walk(g, n, Pos::Other, found) == work_buffer::assigned(
                g,
                x,
                null,
                found,
            ));
            assert(work_buffer::assigned(g, x, null, found) == work_buffer::walk(
                g,
                null,
                Pos::Other,
                found,
            ));
            assert(work_buffer::walk(g, null, Pos::Other, found) == work_buffer::walk_kids(
                g,
                null.kids,
                0,
                None,
                found,
            ));
        },
        ir::Head::Call(d) => {
            operands_walked(g, n.kids, d, found);
        },
        _ => {},
    }
}

/// Operands that are variables hold no copies.
proof fn operands_walked(e: Local, s: Seq<ir::Node>, d: u32, found: Seq<u16>)
    requires
        forall|j: int| 0 <= j < s.len() ==> (#[trigger] s[j]).head is Var,
    ensures
        work_buffer::walk_kids(e, s, 0, Some(d), found).1 == found,
{
    operands_walked_to(e, s, s.len() as int, d, found);
    walked_whole(e, s, s.len() as int, Some(d), found);
}

proof fn operands_walked_to(e: Local, s: Seq<ir::Node>, k: int, d: u32, found: Seq<u16>)
    requires
        k <= s.len(),
        forall|j: int| 0 <= j < s.len() ==> (#[trigger] s[j]).head is Var,
    ensures
        walked(e, s, k, Some(d), found).1 == found,
    decreases k,
{
    if k > 0 {
        operands_walked_to(e, s, k - 1, d, found);
        assert(s[k - 1].head is Var);
    }
}

/// A call of variables alone holds no copies.
proof fn call_walked(e: Local, n: ir::Node, pos: Pos, found: Seq<u16>)
    requires
        n.head is Call,
        forall|j: int| 0 <= j < n.kids.len() ==> (#[trigger] n.kids[j]).head is Var,
    ensures
        work_buffer::walk(e, n, pos, found).1 == found,
{
    match n.head {
        ir::Head::Call(d) => {
            operands_walked(e, n.kids, d, found);
        },
        _ => {},
    }
}

/// The choice that a declaration becomes is in order where its statements are.
proof fn cleared_walked(g: Local, trio: Seq<ir::Node>, c: Growth, found: Seq<u16>)
    requires
        trio.len() == 3,
        work_buffer::walk(
            g,
            work_buffer::cleared(trio, c.local, c.witness, c.ops),
            Pos::Other,
            found,
        ).0 is Ok,
    ensures
        work_buffer::walk(
            g,
            work_buffer::cleared(trio, c.local, c.witness, c.ops),
            Pos::Other,
            found,
        ) == walked(g, trio, 3, None, found),
{
    let n = work_buffer::cleared(trio, c.local, c.witness, c.ops);
    let v = ir::var(c.local);
    let w = ir::var(c.witness);
    let test = ir::call(c.ops.ref_is_null, seq![v]);
    let free = ir::call(c.ops.free_if_distinct, seq![v, w]);
    let clear = ir::call(c.ops.clear, seq![v]);
    let yes = ir::insert(seq![free] + trio);
    let no = ir::insert(seq![clear]);
    let s = n.kids;
    assert(s =~= seq![test, yes, no]);
    walked_whole(g, s, 3, None, found);
    assert(work_buffer::walk(g, n, Pos::Other, found) == walked(g, s, 3, None, found));
    assert(walked(g, s, 3, None, found).0 is Ok);
    assert(walked(g, s, 2, None, found).0 is Ok);
    assert(walked(g, s, 1, None, found).0 is Ok);
    assert(walked(g, s, 0, None, found) == (Ok::<(), Why>(()), found));
    assert(walked(g, s, 1, None, found) == work_buffer::walk(g, test, Pos::Other, found));
    call_walked(g, test, Pos::Other, found);
    assert(walked(g, s, 2, None, found) == work_buffer::walk(g, yes, Pos::Other, found));
    let t = yes.kids;
    walked_whole(g, t, 4, None, found);
    assert(work_buffer::walk(g, yes, Pos::Other, found) == walked(g, t, 4, None, found));
    assert(walked(g, t, 3, None, found).0 is Ok);
    assert(walked(g, t, 2, None, found).0 is Ok);
    assert(walked(g, t, 1, None, found).0 is Ok);
    assert(walked(g, t, 0, None, found) == (Ok::<(), Why>(()), found));
    assert(t[0] == free);
    call_walked(g, free, Pos::Other, found);
    assert(walked(g, t, 1, None, found).1 == found);
    assert(t[1] == trio[0] && t[2] == trio[1] && t[3] == trio[2]);
    one_verdict(walked(g, t, 1, None, found).0);
    assert(walked(g, trio, 0, None, found) == walked(g, t, 1, None, found));
    assert(walked(g, trio, 1, None, found) == walked(g, t, 2, None, found));
    assert(walked(g, trio, 2, None, found) == walked(g, t, 3, None, found));
    assert(walked(g, trio, 3, None, found) == walked(g, t, 4, None, found));
    let more = walked(g, s, 2, None, found).1;
    assert(walked(g, s, 3, None, found) == work_buffer::walk(g, no, Pos::Other, more));
    let u = no.kids;
    walked_whole(g, u, 1, None, more);
    assert(walked(g, u, 0, None, more) == (Ok::<(), Why>(()), more));
    assert(u[0] == clear);
    call_walked(g, clear, Pos::Other, more);
}

proof fn walked_rows(
    c: Growth,
    e: Local,
    g: Local,
    a: ir::Node,
    i: int,
    t: Seq<ir::Node>,
    j: int,
    found: Seq<u16>,
)
    requires
        like(c, e, g),
        rows(c, a.kids, i, t, j),
        0 <= i <= a.kids.len(),
        0 <= j <= t.len(),
        !ir::any(a, assigns_from(c.from)),
        walked(g, t, j, None, found).0 is Ok,
    ensures
        walked(e, a.kids, i, None, found) == walked(g, t, j, None, found),
    decreases a, 0int, j,
{
    let s = a.kids;
    if j > 0 {
        let more = walked(g, t, j - 1, None, found).1;
        one_verdict(walked(g, t, j - 1, None, found).0);
        one_verdict(walked(g, t, j, None, found).0);
        if put_in(c, t[j - 1]) && rows(c, s, i, t, j - 1) {
            walked_rows(c, e, g, a, i, t, j - 1, found);
            put_in_walked(c, e, g, t[j - 1], more);
        } else if 0 < i <= s.len() && grown(c, s[i - 1], t[j - 1]) && rows(c, s, i - 1, t, j - 1) {
            walked_rows(c, e, g, a, i - 1, t, j - 1, found);
            none_below(a, assigns_from(c.from), i - 1);
            walked_alike(c, e, g, s[i - 1], t[j - 1], Pos::Other, more);
        } else {
            walked_rows(c, e, g, a, i - 3, t, j - 1, found);
            let trio = s.subrange(i - 3, i);
            cleared_walked(g, trio, c, more);
            assert(trio[0] == s[i - 3] && trio[1] == s[i - 2] && trio[2] == s[i - 1]);
            grown_by_nothing(c, s[i - 3]);
            grown_by_nothing(c, s[i - 2]);
            grown_by_nothing(c, s[i - 1]);
            none_below(a, assigns_from(c.from), i - 3);
            none_below(a, assigns_from(c.from), i - 2);
            none_below(a, assigns_from(c.from), i - 1);
            assert(walked(g, trio, 0, None, more) == (Ok::<(), Why>(()), more));
            let m1 = walked(g, trio, 1, None, more);
            let m2 = walked(g, trio, 2, None, more);
            let m3 = walked(g, trio, 3, None, more);
            assert(m3.0 is Ok);
            assert(m2.0 is Ok);
            assert(m1.0 is Ok);
            walked_alike(c, e, g, s[i - 3], s[i - 3], Pos::Other, more);
            walked_alike(c, e, g, s[i - 2], s[i - 2], Pos::Other, m1.1);
            walked_alike(c, e, g, s[i - 1], s[i - 1], Pos::Other, m2.1);
            assert(walked(e, s, i - 2, None, found) == m1);
            assert(walked(e, s, i - 1, None, found) == m2);
            assert(walked(e, s, i, None, found) == m3);
        }
    }
}

/// A walk finds no variables but those that the code assigns.
proof fn finds_assigned(e: Local, n: ir::Node, pos: Pos, found: Seq<u16>, lim: int)
    requires
        !ir::any(n, assigns_from(lim)),
        forall|i: int| 0 <= i < found.len() ==> #[trigger] found[i] < lim,
    ensures
        ({
            let more = work_buffer::walk(e, n, pos, found).1;
            forall|i: int| 0 <= i < more.len() ==> #[trigger] more[i] < lim
        }),
    decreases n, 1int,
{
    let p = assigns_from(lim);
    let k = n.kids.len() as int;
    let out = work_buffer::walk(e, n, pos, found).1;
    if n.head is Span && k > 0 {
        none_below(n, p, 0);
        finds_assigned(e, n.kids[0], pos, found, lim);
        assert(out == work_buffer::walk(e, n.kids[0], pos, found).1);
    } else {
        match n.head {
            ir::Head::Var(x) => {
                assert(out == found);
            },
            ir::Head::Call(d) => {
                walked_whole(e, n.kids, k, Some(d), found);
                finds_assigned_in(e, n, k, Some(d), found, lim);
                assert(out == found || out == walked(e, n.kids, k, Some(d), found).1);
            },
            ir::Head::Assign(x) => {
                assert(!p(n));
                if k == 0 {
                    assert(out == found);
                } else {
                    none_below(n, p, 0);
                    finds_assigned(e, n.kids[0], Pos::Other, found, lim);
                    let is = work_buffer::assigned(e, x, n.kids[0], found);
                    assert(work_buffer::walk(e, n, pos, found) == is);
                    assert(x < lim);
                    if !e.followed.contains(x) && !work_buffer::is_followed(e, n.kids[0]) {
                        assert(is == work_buffer::walk(e, n.kids[0], Pos::Other, found));
                    } else if e.followed.contains(x) && x == e.v && work_buffer::rebinds(
                        e,
                        x,
                        n.kids[0],
                    ) {
                        assert(is == work_buffer::walk(e, n.kids[0], Pos::Other, found));
                    } else {
                        assert(is.1 == found || is.1 == found.push(x));
                    }
                }
            },
            _ => {
                walked_whole(e, n.kids, k, None, found);
                finds_assigned_in(e, n, k, None, found, lim);
                assert(out == found || out == walked(e, n.kids, k, None, found).1);
            },
        }
    }
}

proof fn finds_assigned_in(
    e: Local,
    n: ir::Node,
    k: int,
    d: Option<u32>,
    found: Seq<u16>,
    lim: int,
)
    requires
        0 <= k <= n.kids.len(),
        !ir::any(n, assigns_from(lim)),
        forall|i: int| 0 <= i < found.len() ==> #[trigger] found[i] < lim,
    ensures
        ({
            let more = walked(e, n.kids, k, d, found).1;
            forall|i: int| 0 <= i < more.len() ==> #[trigger] more[i] < lim
        }),
    decreases n, 0int, k,
{
    if k > 0 {
        finds_assigned_in(e, n, k - 1, d, found, lim);
        none_below(n, assigns_from(lim), k - 1);
        let more = walked(e, n.kids, k - 1, d, found).1;
        finds_assigned(e, n.kids[k - 1], place(d, k - 1), more, lim);
    }
}

proof fn joined_below(followed: Seq<u16>, found: Seq<u16>, lim: int)
    requires
        forall|x: u16| #[trigger] followed.contains(x) ==> x < lim,
        forall|i: int| 0 <= i < found.len() ==> #[trigger] found[i] < lim,
    ensures
        forall|x: u16| #[trigger]
            work_buffer::joined(followed, found).contains(x) ==> x < lim,
    decreases found.len(),
{
    if found.len() > 0 {
        let less = found.drop_last();
        assert forall|i: int| 0 <= i < less.len() implies #[trigger] less[i] < lim by {
            assert(less[i] == found[i]);
        }
        joined_below(followed, less, lim);
        assert(found[found.len() - 1] < lim);
        let before = work_buffer::joined(followed, less);
        assert forall|x: u16| #[trigger]
            work_buffer::joined(followed, found).contains(x) implies x < lim by {
            if x != found.last() && !before.contains(x) {
                let at = before.push(found.last());
                let i = choose|i: int| 0 <= i < at.len() && at[i] == x;
                assert(i < before.len() && before[i] == x);
            }
        }
    }
}

/// A local that is settled once the code has grown was settled before.
proof fn settled_before(c: Growth, e: Local, g: Local)
    requires
        like(c, e, g),
        grown(c, e.code, g.code),
        !ir::any(e.code, assigns_from(c.from)),
        work_buffer::settled(g) is Ok,
    ensures
        work_buffer::settled(e) is Ok,
    decreases 0x1_0000 - e.followed.len(),
{
    let none = Seq::<u16>::empty();
    walked_alike(c, e, g, e.code, g.code, Pos::Other, none);
    let (r, found) = work_buffer::walk(e, e.code, Pos::Other, none);
    finds_assigned(e, e.code, Pos::Other, none, c.from);
    joined_below(e.followed, found, c.from);
    let more = work_buffer::joined(e.followed, found);
    if more.len() > e.followed.len() && more.len() <= 0x1_0000 {
        settled_before(c, Local { followed: more, ..e }, Local { followed: more, ..g });
    }
}

/// Whether two lists of definitions read alike: the names and what is a name for what.
spec fn read_alike(defs: Seq<Definition>, now: Seq<Definition>) -> bool {
    &&& forall|d: u32| #[trigger] work_buffer::name_of(defs, d) == work_buffer::name_of(now, d)
    &&& forall|d: u32, i: int| #[trigger]
        work_buffer::allowed(defs, d, i) == work_buffer::allowed(now, d, i)
}

spec fn args_stay(vars: Seq<data::VarView>, now: Seq<data::VarView>) -> bool {
    forall|x: u16| #[trigger] work_buffer::is_arg(vars, x) ==> work_buffer::is_arg(now, x)
}

/// A local that is admitted once the code has grown was admitted before.
proof fn admitted_before(
    c: Growth,
    defs: Seq<Definition>,
    vars: Seq<data::VarView>,
    a: ir::Node,
    now: Seq<Definition>,
    grew: Seq<data::VarView>,
    b: ir::Node,
    v: u16,
    db: u16,
)
    requires
        grown(c, a, b),
        c.from <= c.to,
        read_alike(defs, now),
        args_stay(vars, grew),
        v < c.from,
        db < c.from,
        db != c.local,
        !ir::any(a, assigns_from(c.from)),
        work_buffer::admission(now, grew, b, c.ops, v, db) is Ok,
    ensures
        work_buffer::admission(defs, vars, a, c.ops, v, db) is Ok,
{
    let ops = c.ops;
    grown_below_spans(c, a, b);
    let m = ir::unspan(a);
    let k = ir::unspan(b);
    null_inits_alike(c, m.kids, m.kids.len() as int, k.kids, k.kids.len() as int, db);
    assert forall|x: u16| x < c.from implies #[trigger] ir::count(a, work_buffer::assigns(x))
        == ir::count(b, work_buffer::assigns(x)) by {
        assert(aside(c, work_buffer::assigns(x)));
        counted_alike(c, a, b, work_buffer::assigns(x));
    }
    assert(aside(c, work_buffer::is_variable(db)));
    counted_alike(c, a, b, work_buffer::is_variable(db));
    some_site(b, v, db, ops);
    declared_before(c, a, b, v, db);
    some_site(a, v, db, ops);
    sites_assign(a, v, db, ops);
    assert(ir::count(a, work_buffer::assigns(v)) == 1);
    assert(ir::count(a, work_buffer::assigns(db)) == 1);
    let followed = seq![v];
    let e = Local { defs, vars, code: a, v, db, ops, followed };
    let g = Local { defs: now, vars: grew, code: b, v, db, ops, followed };
    assert(like(c, e, g));
    settled_before(c, e, g);
}

proof fn first_trio_is_one(s: Seq<ir::Node>, i: int, v: u16, db: u16, ops: Ops)
    ensures
        work_buffer::first_trio(s, i, v, db, ops) matches Some(j) ==> work_buffer::is_trio(
            s,
            j,
            v,
            db,
            ops,
        ),
    decreases s.len() - i,
{
    if 0 <= i < s.len() && !work_buffer::is_trio(s, i, v, db, ops) {
        first_trio_is_one(s, i + 1, v, db, ops);
    }
}

proof fn replaced_one(s: Seq<ir::Node>, i: int, v: u16, db: u16, w: u16, ops: Ops)
    requires
        0 <= i,
    ensures
        work_buffer::replaced_in(s, i, v, db, w, ops) matches Some((j, kid)) ==> i <= j < s.len()
            && work_buffer::replaced(s[j], v, db, w, ops) == Some(kid),
    decreases s.len() - i,
{
    if i < s.len() && work_buffer::replaced(s[i], v, db, w, ops) is None {
        replaced_one(s, i + 1, v, db, w, ops);
    }
}

/// A declaration that is replaced makes the code grow.
proof fn replacing_grows(c: Growth, n: ir::Node)
    requires
        fresh(c, c.witness),
    ensures
        work_buffer::replaced(n, c.local, c.backing, c.witness, c.ops) matches Some(m) ==> grown(
            c,
            n,
            m,
        ),
    decreases n,
{
    let s = n.kids;
    let out = work_buffer::replaced(n, c.local, c.backing, c.witness, c.ops);
    assert forall|i: int| 0 <= i < s.len() implies grown(c, #[trigger] s[i], s[i]) by {
        grown_by_nothing(c, s[i]);
    }
    match out {
        None => {},
        Some(m) => {
            let here = work_buffer::first_trio(s, 0, c.local, c.backing, c.ops);
            if (n.head is Block || n.head is Loop) && here is Some {
                let i = here->0;
                first_trio_is_one(s, 0, c.local, c.backing, c.ops);
                let t = m.kids;
                let choice = work_buffer::cleared(
                    s.subrange(i, i + 3),
                    c.local,
                    c.witness,
                    c.ops,
                );
                assert(t == s.take(i) + seq![choice] + s.skip(i + 3));
                assert forall|k: int| 0 <= k < i implies grown(c, #[trigger] s[k], t[k]) by {
                    assert(t[k] == s[k]);
                }
                rows_from(c, s, t, i);
                assert(t[i] == choice);
                assert(folds(c, s, i + 3, t[i]));
                assert(rows(c, s, i + 3, t, i + 1));
                assert forall|k: int| i + 3 <= k < s.len() implies grown(
                    c,
                    #[trigger] s[k],
                    t[i + 1 + k - (i + 3)],
                ) by {
                    assert(t[k - 2] == s[k]);
                }
                rows_go_on(c, s, i + 3, t, i + 1, s.len() - (i + 3));
                assert(t.len() == s.len() - 2);
            } else {
                replaced_one(s, 0, c.local, c.backing, c.witness, c.ops);
                match work_buffer::replaced_in(s, 0, c.local, c.backing, c.witness, c.ops) {
                    Some((j, kid)) => {
                        replacing_grows(c, s[j]);
                        assert(m.kids == s.update(j, kid));
                        grown_kids(c, n, m);
                    },
                    None => {},
                }
            }
        },
    }
}

/// Rows stay rows when a statement is put in.
proof fn rows_with_one_more(
    c: Growth,
    s: Seq<ir::Node>,
    i: int,
    t: Seq<ir::Node>,
    j: int,
    at: int,
    n: ir::Node,
)
    requires
        rows(c, s, i, t, j),
        0 <= at <= j <= t.len(),
        put_in(c, n),
    ensures
        rows(c, s, i, t.insert(at, n), j + 1),
    decreases j,
{
    let u = t.insert(at, n);
    if at == j {
        rows_same(c, s, i, t, u, j);
        assert(u[j] == n);
    } else {
        assert(u[j] == t[j - 1]);
        if put_in(c, t[j - 1]) && rows(c, s, i, t, j - 1) {
            rows_with_one_more(c, s, i, t, j - 1, at, n);
        } else if 0 < i <= s.len() && grown(c, s[i - 1], t[j - 1]) && rows(c, s, i - 1, t, j - 1) {
            rows_with_one_more(c, s, i - 1, t, j - 1, at, n);
        } else {
            rows_with_one_more(c, s, i - 3, t, j - 1, at, n);
        }
    }
}

proof fn rows_same(c: Growth, s: Seq<ir::Node>, i: int, t: Seq<ir::Node>, u: Seq<ir::Node>, j: int)
    requires
        rows(c, s, i, t, j),
        0 <= j <= t.len(),
        j <= u.len(),
        forall|k: int| 0 <= k < j ==> t[k] == #[trigger] u[k],
    ensures
        rows(c, s, i, u, j),
    decreases j,
{
    if j > 0 {
        assert(t[j - 1] == u[j - 1]);
        if put_in(c, t[j - 1]) && rows(c, s, i, t, j - 1) {
            rows_same(c, s, i, t, u, j - 1);
        } else if 0 < i <= s.len() && grown(c, s[i - 1], t[j - 1]) && rows(c, s, i - 1, t, j - 1) {
            rows_same(c, s, i - 1, t, u, j - 1);
        } else {
            rows_same(c, s, i - 3, t, u, j - 1);
        }
    }
}

proof fn leading_within(s: Seq<ir::Node>, i: int)
    requires
        0 <= i <= s.len(),
    ensures
        i <= work_buffer::leading_nulls(s, i) <= s.len(),
    decreases s.len() - i,
{
    if i < s.len() {
        leading_within(s, i + 1);
    }
}

/// The stash makes the code grow.
proof fn stashing_grows(c: Growth, n: ir::Node, m: ir::Node)
    requires
        fresh(c, c.witness),
        grown(c, n, m),
    ensures
        grown(c, n, work_buffer::stashed(m, c.local, c.witness, c.ops)),
    decreases m,
{
    let out = work_buffer::stashed(m, c.local, c.witness, c.ops);
    if m.head is Span && m.kids.len() > 0 {
        pair_at(c, n.kids, m.kids, n.kids.len() as int, 0);
        stashing_grows(c, n.kids[0], m.kids[0]);
        assert forall|i: int| 0 <= i < n.kids.len() implies grown(
            c,
            #[trigger] n.kids[i],
            out.kids[i],
        ) by {
            pair_at(c, n.kids, m.kids, n.kids.len() as int, i);
        }
        grown_kids(c, n, out);
    } else if m.head is Block {
        let first = ir::assign(c.witness, ir::leaf(ir::Head::Null));
        let put = ir::call(c.ops.put_ref, seq![ir::var(c.witness), ir::var(c.local)]);
        assert(put_in(c, first));
        assert(put_in(c, put));
        let k = n.kids.len() as int;
        let t = seq![first] + m.kids;
        rows_with_one_more(c, n.kids, k, m.kids, m.kids.len() as int, 0, first);
        assert(m.kids.insert(0, first) =~= t);
        leading_within(t, 0);
        let at = work_buffer::leading_nulls(t, 0);
        rows_with_one_more(c, n.kids, k, t, t.len() as int, at, put);
        assert(t.insert(at, put) =~= t.take(at) + seq![put] + t.skip(at));
    }
}

/// The first values of new variables make the code grow.
proof fn initialising_grows(c: Growth, n: ir::Node, m: ir::Node, base: int, k: int)
    requires
        c.from <= base,
        base + k <= c.to <= u16::MAX + 1,
        0 <= base,
        0 <= k,
        grown(c, n, m),
    ensures
        grown(c, n, work_buffer::initialised(m, base, k)),
    decreases m,
{
    let out = work_buffer::initialised(m, base, k);
    if m.head is Span && m.kids.len() > 0 {
        pair_at(c, n.kids, m.kids, n.kids.len() as int, 0);
        initialising_grows(c, n.kids[0], m.kids[0], base, k);
        assert forall|i: int| 0 <= i < n.kids.len() implies grown(
            c,
            #[trigger] n.kids[i],
            out.kids[i],
        ) by {
            pair_at(c, n.kids, m.kids, n.kids.len() as int, i);
        }
        grown_kids(c, n, out);
    } else if m.head is Block {
        inits_put_in(c, n.kids, m.kids, base, k);
    }
}

proof fn inits_put_in(c: Growth, s: Seq<ir::Node>, t: Seq<ir::Node>, base: int, k: int)
    requires
        c.from <= base,
        base + k <= c.to <= u16::MAX + 1,
        0 <= base,
        0 <= k,
        rows(c, s, s.len() as int, t, t.len() as int),
    ensures
        ({
            let u = work_buffer::inits(base, k) + t;
            rows(c, s, s.len() as int, u, u.len() as int)
        }),
    decreases k,
{
    if k > 0 {
        inits_put_in(c, s, t, base, k - 1);
        let u = work_buffer::inits(base, k - 1) + t;
        let x = (base + k - 1) as u16;
        let n = ir::assign(x, ir::leaf(ir::Head::Null));
        assert(fresh(c, x));
        assert(put_in(c, n));
        rows_with_one_more(c, s, s.len() as int, u, u.len() as int, 0, n);
        assert(u.insert(0, n) =~= work_buffer::inits(base, k) + t);
    } else {
        assert(work_buffer::inits(base, k) + t =~= t);
    }
}

/// The buffers behind the calls make the code grow.
proof fn patching_grows(
    c: Growth,
    sigs: Seq<Seq<types::Ty>>,
    callees: Seq<u32>,
    n: ir::Node,
    new: Seq<types::Ty>,
)
    requires
        0 <= c.from,
        c.to <= u16::MAX + 1,
        c.from + work_buffer::patched(sigs, callees, c.from, n, new).1.len() <= c.to,
    ensures
        grown(c, n, work_buffer::patched(sigs, callees, c.from, n, new).0),
    decreases n, 0int,
{
    let s = n.kids;
    let k = s.len() as int;
    let (kids, below) = work_buffer::patched_kids(sigs, callees, c.from, s, k, new);
    let (m, all) = work_buffer::patched(sigs, callees, c.from, n, new);
    assert(below.len() <= all.len());
    patching_grows_in(c, sigs, callees, s, k, new);
    match n.head {
        ir::Head::Call(d) => {
            let more = work_buffer::lacking(sigs, callees, d, s.len());
            let extra = work_buffer::buffers(c.from + below.len(), more.len());
            assert(m.kids == kids + extra);
            assert forall|i: int| 0 <= i < k implies grown(c, #[trigger] s[i], m.kids[i]) by {
                assert(m.kids[i] == kids[i]);
            }
            pairs_from(c, s, m.kids, k);
            assert forall|j: int| k <= j < m.kids.len() implies is_fresh_var(
                c,
                #[trigger] m.kids[j],
            ) by {
                let x = (c.from + below.len() + (j - k)) as u16;
                assert(m.kids[j] == extra[j - k]);
                assert(m.kids[j] == ir::var(x));
                assert(fresh(c, x));
            }
        },
        _ => {
            grown_kids(c, n, m);
        },
    }
}

proof fn patching_grows_in(
    c: Growth,
    sigs: Seq<Seq<types::Ty>>,
    callees: Seq<u32>,
    s: Seq<ir::Node>,
    k: int,
    new: Seq<types::Ty>,
)
    requires
        0 <= c.from,
        c.to <= u16::MAX + 1,
        0 <= k <= s.len(),
        c.from + work_buffer::patched_kids(sigs, callees, c.from, s, k, new).1.len() <= c.to,
    ensures
        ({
            let t = work_buffer::patched_kids(sigs, callees, c.from, s, k, new).0;
            t.len() == k && forall|i: int| 0 <= i < k ==> grown(c, #[trigger] s[i], t[i])
        }),
    decreases s, k,
{
    if k > 0 {
        let (done, before) = work_buffer::patched_kids(sigs, callees, c.from, s, k - 1, new);
        work_buffer::patching_adds(sigs, callees, c.from, s[k - 1], before);
        patching_grows_in(c, sigs, callees, s, k - 1, new);
        patching_grows(c, sigs, callees, s[k - 1], before);
    }
}

proof fn turned_kids(s: Seq<ir::Node>, a: u16, b: u16)
    ensures
        ir::swapped_all(s, a, b).len() == s.len(),
        forall|i: int|
            0 <= i < s.len() ==> #[trigger] ir::swapped_all(s, a, b)[i] == ir::swapped(s[i], a, b),
{
}

proof fn turned_below_spans(n: ir::Node, a: u16, b: u16)
    ensures
        ir::unspan(ir::swapped(n, a, b)) == ir::swapped(ir::unspan(n), a, b),
    decreases n,
{
    turned_kids(n.kids, a, b);
    if n.head is Span && n.kids.len() > 0 {
        turned_below_spans(n.kids[0], a, b);
        assert(ir::swapped(n, a, b).kids[0] == ir::swapped(n.kids[0], a, b));
    }
}

/// Whether a node passes `p` where it passes `q` once two variables have exchanged numbers.
spec fn turns(
    p: spec_fn(ir::Node) -> bool,
    q: spec_fn(ir::Node) -> bool,
    a: u16,
    b: u16,
) -> bool {
    forall|n: ir::Node| #[trigger] p(n) == q(ir::swapped(n, a, b))
}

proof fn counted_turned(
    n: ir::Node,
    p: spec_fn(ir::Node) -> bool,
    q: spec_fn(ir::Node) -> bool,
    a: u16,
    b: u16,
)
    requires
        turns(p, q, a, b),
    ensures
        ir::count(ir::swapped(n, a, b), q) == ir::count(n, p),
    decreases n, 0int,
{
    counted_turned_in(n.kids, p, q, a, b);
    assert(p(n) == q(ir::swapped(n, a, b)));
}

proof fn counted_turned_in(
    s: Seq<ir::Node>,
    p: spec_fn(ir::Node) -> bool,
    q: spec_fn(ir::Node) -> bool,
    a: u16,
    b: u16,
)
    requires
        turns(p, q, a, b),
    ensures
        ir::count_in(ir::swapped_all(s, a, b), q) == ir::count_in(s, p),
    decreases s, 1int,
{
    turned_kids(s, a, b);
    if s.len() > 0 {
        counted_turned_in(s.drop_last(), p, q, a, b);
        counted_turned(s.last(), p, q, a, b);
        assert(ir::swapped_all(s, a, b).drop_last() =~= ir::swapped_all(s.drop_last(), a, b));
    }
}

proof fn calls_turned(n: ir::Node, d: u32, x: u16, a: u16, b: u16)
    ensures
        work_buffer::calls_on(ir::swapped(n, a, b), d, types::swapped_var(x, a, b))
            == work_buffer::calls_on(n, d, x),
{
    turned_below_spans(n, a, b);
    let m = ir::unspan(n);
    turned_kids(m.kids, a, b);
    if m.kids.len() > 0 {
        turned_below_spans(m.kids[0], a, b);
        assert(ir::swapped(m, a, b).kids[0] == ir::swapped(m.kids[0], a, b));
    }
}

proof fn trio_turned(s: Seq<ir::Node>, i: int, v: u16, db: u16, ops: Ops, a: u16, b: u16)
    ensures
        work_buffer::is_trio(
            ir::swapped_all(s, a, b),
            i,
            types::swapped_var(v, a, b),
            types::swapped_var(db, a, b),
            ops,
        ) == work_buffer::is_trio(s, i, v, db, ops),
{
    let t = ir::swapped_all(s, a, b);
    turned_kids(s, a, b);
    if 0 <= i && i + 3 <= s.len() {
        assert(t[i] == ir::swapped(s[i], a, b));
        assert(t[i + 1] == ir::swapped(s[i + 1], a, b));
        assert(t[i + 2] == ir::swapped(s[i + 2], a, b));
        calls_turned(s[i], ops.database, db, a, b);
        calls_turned(s[i + 2], ops.set_int4, db, a, b);
        turned_below_spans(s[i + 1], a, b);
        let m = ir::unspan(s[i + 1]);
        turned_kids(m.kids, a, b);
        if m.kids.len() > 0 {
            calls_turned(m.kids[0], ops.get_field, db, a, b);
            assert(ir::swapped(m, a, b).kids[0] == ir::swapped(m.kids[0], a, b));
        }
    }
}

proof fn trios_turned(s: Seq<ir::Node>, k: int, v: u16, db: u16, ops: Ops, a: u16, b: u16)
    ensures
        work_buffer::trios(
            ir::swapped_all(s, a, b),
            k,
            types::swapped_var(v, a, b),
            types::swapped_var(db, a, b),
            ops,
        ) == work_buffer::trios(s, k, v, db, ops),
    decreases k,
{
    if k > 0 {
        trios_turned(s, k - 1, v, db, ops, a, b);
        trio_turned(s, k - 1, v, db, ops, a, b);
    }
}

proof fn sites_turned(n: ir::Node, v: u16, db: u16, ops: Ops, a: u16, b: u16)
    ensures
        work_buffer::trio_sites(
            ir::swapped(n, a, b),
            types::swapped_var(v, a, b),
            types::swapped_var(db, a, b),
            ops,
        ) == work_buffer::trio_sites(n, v, db, ops),
    decreases n, 0int,
{
    turned_kids(n.kids, a, b);
    sites_turned_in(n.kids, n.kids.len() as int, v, db, ops, a, b);
    trios_turned(n.kids, n.kids.len() as int, v, db, ops, a, b);
}

proof fn sites_turned_in(s: Seq<ir::Node>, k: int, v: u16, db: u16, ops: Ops, a: u16, b: u16)
    requires
        k <= s.len(),
    ensures
        work_buffer::trio_sites_in(
            ir::swapped_all(s, a, b),
            k,
            types::swapped_var(v, a, b),
            types::swapped_var(db, a, b),
            ops,
        ) == work_buffer::trio_sites_in(s, k, v, db, ops),
    decreases s, k,
{
    turned_kids(s, a, b);
    if k > 0 {
        sites_turned_in(s, k - 1, v, db, ops, a, b);
        sites_turned(s[k - 1], v, db, ops, a, b);
        assert(ir::swapped_all(s, a, b)[k - 1] == ir::swapped(s[k - 1], a, b));
    }
}

proof fn null_inits_turned(s: Seq<ir::Node>, k: int, db: u16, a: u16, b: u16)
    requires
        k <= s.len(),
    ensures
        work_buffer::null_inits(ir::swapped_all(s, a, b), k, types::swapped_var(db, a, b))
            == work_buffer::null_inits(s, k, db),
    decreases k,
{
    turned_kids(s, a, b);
    if k > 0 {
        null_inits_turned(s, k - 1, db, a, b);
        let n = s[k - 1];
        assert(ir::swapped_all(s, a, b)[k - 1] == ir::swapped(n, a, b));
        turned_below_spans(n, a, b);
        let m = ir::unspan(n);
        turned_kids(m.kids, a, b);
        if m.kids.len() > 0 {
            turned_below_spans(m.kids[0], a, b);
            assert(ir::swapped(m, a, b).kids[0] == ir::swapped(m.kids[0], a, b));
        }
    }
}

/// Whether what a walk reads differs only in that two variables have exchanged numbers.
spec fn turned(e: Local, g: Local, a: u16, b: u16) -> bool {
    &&& g.v == types::swapped_var(e.v, a, b)
    &&& g.db == types::swapped_var(e.db, a, b)
    &&& g.ops == e.ops
    &&& g.defs == e.defs
    &&& g.code == ir::swapped(e.code, a, b)
    &&& g.followed == types::swapped_vars(e.followed, a, b)
    &&& forall|x: u16| #[trigger]
        work_buffer::is_arg(e.vars, x) == work_buffer::is_arg(
            g.vars,
            types::swapped_var(x, a, b),
        )
}

proof fn contained_turned(s: Seq<u16>, x: u16, a: u16, b: u16)
    ensures
        types::swapped_vars(s, a, b).contains(types::swapped_var(x, a, b)) == s.contains(x),
{
    let t = types::swapped_vars(s, a, b);
    let y = types::swapped_var(x, a, b);
    if s.contains(x) {
        let i = choose|i: int| 0 <= i < s.len() && s[i] == x;
        assert(t[i] == y);
    }
    if t.contains(y) {
        let i = choose|i: int| 0 <= i < t.len() && t[i] == y;
        assert(s[i] == x);
    }
}

proof fn followed_turned(e: Local, g: Local, n: ir::Node, a: u16, b: u16)
    requires
        turned(e, g, a, b),
    ensures
        work_buffer::is_followed(g, ir::swapped(n, a, b)) == work_buffer::is_followed(e, n),
{
    turned_below_spans(n, a, b);
    match ir::unspan(n).head {
        ir::Head::Var(x) => {
            contained_turned(e.followed, x, a, b);
        },
        _ => {},
    }
}

proof fn refused_turned(e: Local, g: Local, d: u32, s: Seq<ir::Node>, pos: Pos, a: u16, b: u16)
    requires
        turned(e, g, a, b),
    ensures
        work_buffer::call_refused(g, d, ir::swapped_all(s, a, b), pos)
            == work_buffer::call_refused(e, d, s, pos),
{
    let t = ir::swapped_all(s, a, b);
    turned_kids(s, a, b);
    if s.len() > 0 {
        assert(t[0] == ir::swapped(s[0], a, b));
        followed_turned(e, g, s[0], a, b);
        turned_below_spans(s[0], a, b);
    }
    if s.len() > 1 {
        assert(t[1] == ir::swapped(s[1], a, b));
        followed_turned(e, g, s[1], a, b);
    }
}

spec fn verdict_turned(r: (Result<(), Why>, Seq<u16>), a: u16, b: u16) -> (
    Result<(), Why>,
    Seq<u16>,
) {
    (r.0, types::swapped_vars(r.1, a, b))
}

/// A walk over code in which two variables have exchanged numbers.
proof fn walked_turned(
    e: Local,
    g: Local,
    n: ir::Node,
    pos: Pos,
    found: Seq<u16>,
    a: u16,
    b: u16,
)
    requires
        turned(e, g, a, b),
    ensures
        work_buffer::walk(g, ir::swapped(n, a, b), pos, types::swapped_vars(found, a, b))
            == verdict_turned(work_buffer::walk(e, n, pos, found), a, b),
    decreases n, 1int,
{
    let m = ir::swapped(n, a, b);
    let seen = types::swapped_vars(found, a, b);
    let s = n.kids;
    let t = m.kids;
    let k = s.len() as int;
    let was = work_buffer::walk(e, n, pos, found);
    let is = work_buffer::walk(g, m, pos, seen);
    turned_kids(s, a, b);
    if n.head is Span && k > 0 {
        walked_turned(e, g, s[0], pos, found, a, b);
        assert(t[0] == ir::swapped(s[0], a, b));
    } else {
        match n.head {
            ir::Head::Var(x) => {
                contained_turned(e.followed, x, a, b);
            },
            ir::Head::Call(d) => {
                refused_turned(e, g, d, s, pos, a, b);
                walked_whole(e, s, k, Some(d), found);
                walked_whole(g, t, k, Some(d), seen);
                walked_turned_in(e, g, n, k, Some(d), found, a, b);
            },
            ir::Head::Assign(x) => {
                if k > 0 {
                    assert(t[0] == ir::swapped(s[0], a, b));
                    let y = types::swapped_var(x, a, b);
                    let bound = work_buffer::assigned(e, x, s[0], found);
                    let now = work_buffer::assigned(g, y, t[0], seen);
                    assert(was == bound);
                    assert(is == now);
                    contained_turned(e.followed, x, a, b);
                    followed_turned(e, g, s[0], a, b);
                    calls_turned(s[0], e.ops.get_field, e.db, a, b);
                    assert(turns(work_buffer::assigns(x), work_buffer::assigns(y), a, b));
                    counted_turned(
                        e.code,
                        work_buffer::assigns(x),
                        work_buffer::assigns(y),
                        a,
                        b,
                    );
                    assert(work_buffer::is_arg(e.vars, x) == work_buffer::is_arg(g.vars, y));
                    if (!e.followed.contains(x) && !work_buffer::is_followed(e, s[0])) || (
                    e.followed.contains(x) && x == e.v && work_buffer::rebinds(e, x, s[0])) {
                        assert(bound == work_buffer::walk(e, s[0], Pos::Other, found));
                        assert(now == work_buffer::walk(g, t[0], Pos::Other, seen));
                        walked_turned(e, g, s[0], Pos::Other, found, a, b);
                    } else {
                        assert(types::swapped_vars(found.push(x), a, b) =~= seen.push(y));
                    }
                }
            },
            _ => {
                match work_buffer::carried(n.head) {
                    Some((x, why)) => {
                        contained_turned(e.followed, x, a, b);
                    },
                    None => {},
                }
                walked_whole(e, s, k, None, found);
                walked_whole(g, t, k, None, seen);
                walked_turned_in(e, g, n, k, None, found, a, b);
            },
        }
    }
}

proof fn walked_turned_in(
    e: Local,
    g: Local,
    n: ir::Node,
    k: int,
    d: Option<u32>,
    found: Seq<u16>,
    a: u16,
    b: u16,
)
    requires
        turned(e, g, a, b),
        0 <= k <= n.kids.len(),
    ensures
        walked(g, ir::swapped(n, a, b).kids, k, d, types::swapped_vars(found, a, b))
            == verdict_turned(walked(e, n.kids, k, d, found), a, b),
    decreases n, 0int, k,
{
    turned_kids(n.kids, a, b);
    if k > 0 {
        walked_turned_in(e, g, n, k - 1, d, found, a, b);
        let more = walked(e, n.kids, k - 1, d, found).1;
        walked_turned(e, g, n.kids[k - 1], place(d, k - 1), more, a, b);
        assert(ir::swapped(n, a, b).kids[k - 1] == ir::swapped(n.kids[k - 1], a, b));
    }
}

proof fn joined_turned(followed: Seq<u16>, found: Seq<u16>, a: u16, b: u16)
    ensures
        work_buffer::joined(
            types::swapped_vars(followed, a, b),
            types::swapped_vars(found, a, b),
        ) == types::swapped_vars(work_buffer::joined(followed, found), a, b),
    decreases found.len(),
{
    if found.len() > 0 {
        let less = found.drop_last();
        let x = found.last();
        joined_turned(followed, less, a, b);
        assert(types::swapped_vars(found, a, b).drop_last() =~= types::swapped_vars(less, a, b));
        let before = work_buffer::joined(followed, less);
        contained_turned(before, x, a, b);
        assert(types::swapped_vars(before.push(x), a, b) =~= types::swapped_vars(
            before,
            a,
            b,
        ).push(types::swapped_var(x, a, b)));
    }
}

proof fn settled_turned(e: Local, g: Local, a: u16, b: u16)
    requires
        turned(e, g, a, b),
    ensures
        work_buffer::settled(g) == work_buffer::settled(e),
    decreases 0x1_0000 - e.followed.len(),
{
    let none = Seq::<u16>::empty();
    walked_turned(e, g, e.code, Pos::Other, none, a, b);
    assert(types::swapped_vars(none, a, b) =~= none);
    let (r, found) = work_buffer::walk(e, e.code, Pos::Other, none);
    let more = work_buffer::joined(e.followed, found);
    joined_turned(e.followed, found, a, b);
    if r is Ok && more.len() > e.followed.len() && more.len() <= 0x1_0000 {
        let seen = types::swapped_vars(more, a, b);
        settled_turned(Local { followed: more, ..e }, Local { followed: seen, ..g }, a, b);
    }
}

/// A local is admitted whatever numbers the variables have.
proof fn admitted_turned(
    defs: Seq<Definition>,
    f: data::FnView,
    code: ir::Node,
    ops: Ops,
    v: u16,
    db: u16,
    a: u16,
    b: u16,
)
    requires
        a < f.vars.len() <= u16::MAX,
        b < f.vars.len(),
    ensures
        work_buffer::admission(
            defs,
            work_buffer::exchanged(f, a, b).vars,
            ir::swapped(code, a, b),
            ops,
            types::swapped_var(v, a, b),
            types::swapped_var(db, a, b),
        ) == work_buffer::admission(defs, f.vars, code, ops, v, db),
{
    let y = types::swapped_var(v, a, b);
    let z = types::swapped_var(db, a, b);
    let h = work_buffer::exchanged(f, a, b);
    turned_below_spans(code, a, b);
    let body = ir::unspan(code);
    turned_kids(body.kids, a, b);
    sites_turned(code, v, db, ops, a, b);
    assert(turns(work_buffer::assigns(v), work_buffer::assigns(y), a, b));
    counted_turned(code, work_buffer::assigns(v), work_buffer::assigns(y), a, b);
    assert(turns(work_buffer::assigns(db), work_buffer::assigns(z), a, b));
    counted_turned(code, work_buffer::assigns(db), work_buffer::assigns(z), a, b);
    assert(turns(work_buffer::is_variable(db), work_buffer::is_variable(z), a, b));
    counted_turned(code, work_buffer::is_variable(db), work_buffer::is_variable(z), a, b);
    null_inits_turned(body.kids, body.kids.len() as int, db, a, b);
    let followed = seq![v];
    let e = Local { defs, vars: f.vars, code, v, db, ops, followed };
    let g = Local {
        defs,
        vars: h.vars,
        code: ir::swapped(code, a, b),
        v: y,
        db: z,
        ops,
        followed: seq![y],
    };
    assert(seq![y] =~= types::swapped_vars(followed, a, b));
    assert forall|x: u16| #[trigger]
        work_buffer::is_arg(f.vars, x) == work_buffer::is_arg(
            h.vars,
            types::swapped_var(x, a, b),
        ) by {
        let w = types::swapped_var(x, a, b);
        if w < h.vars.len() {
            assert(h.vars[w as int] == work_buffer::renumbered(
                f.vars[types::swapped_var(w, a, b) as int],
                a,
                b,
            ));
        }
    }
    settled_turned(e, g, a, b);
}

/// Whether a function assigns variables that it has, only a parameter has a witness of what
/// was handed in for it, and the vectors of the locals view variables of the function.
pub open spec fn steady(f: FrameView) -> bool {
    &&& f.vars.vars.len() <= u16::MAX
    &&& !ir::any(f.code, assigns_from(f.vars.vars.len() as int))
    &&& forall|x: int|
        0 <= x < f.vars.vars.len() && !(#[trigger] f.vars.vars[x]).argument
            ==> f.vars.vars[x].rebind_orig is None && (f.vars.vars[x].work_ref || views_own(
            f.vars.vars[x].tp,
        ))
}

/// Whether a vector views variables of its function.
pub open spec fn views_own(tp: types::Ty) -> bool {
    tp matches types::Ty::Vector(_, d) ==> d.space == types::DepSpace::Frame
}

/// Whether a local may be promoted as far as the code goes.
pub open spec fn admitted(defs: Seq<Definition>, f: FrameView, ops: Ops, v: u16) -> bool {
    work_buffer::candidate(f.vars.vars, v) matches Some(db) && work_buffer::admission(
        defs,
        f.vars.vars,
        f.code,
        ops,
        v,
        db,
    ) is Ok
}

/// Whether every local that is admitted is numbered after the parameters when its turn
/// comes, or the last variable can exchange numbers with it: that one is no parameter, and
/// is not admitted itself.
pub open spec fn in_line(
    defs: Seq<Definition>,
    f: FrameView,
    ops: Ops,
    dead: Seq<u16>,
) -> bool {
    forall|k: int|
        #![trigger work_buffer::considered_all(defs, f, ops, dead, k)]
        0 <= k < f.vars.vars.len() ==> {
            let was = work_buffer::considered_all(defs, f, ops, dead, k);
            let last = (was.vars.vars.len() - 1) as u16;
            admitted(defs, was, ops, k as u16) && !dead.contains(k as u16) && was.vars.vars.len()
                < u16::MAX && work_buffer::argument_after(was.vars.vars, k as u16) ==> !work_buffer::is_arg(
                was.vars.vars,
                last,
            ) && !admitted(defs, was, ops, last)
        }
}

/// Whether local `v` is left as it is.
spec fn rests(
    defs: Seq<Definition>,
    f: FrameView,
    ops: Ops,
    dead: Seq<u16>,
    v: u16,
) -> bool {
    dead.contains(v) || f.vars.vars.len() >= u16::MAX || !admitted(defs, f, ops, v)
}

/// Whether the variables are those that there were, some of them parameters now, and new
/// ones that back nothing.
spec fn extends(vars: Seq<data::VarView>, grew: Seq<data::VarView>) -> bool {
    &&& vars.len() <= grew.len()
    &&& forall|x: int|
        0 <= x < vars.len() ==> {
            &&& (#[trigger] grew[x]).name == vars[x].name
            &&& grew[x].tp == vars[x].tp
            &&& grew[x].caller_hidden_buf == vars[x].caller_hidden_buf
            &&& grew[x].work_ref == vars[x].work_ref
            &&& vars[x].argument ==> grew[x].argument
        }
    &&& forall|x: int|
        vars.len() <= x < grew.len() ==> (#[trigger] grew[x]).work_ref && !grew[x].argument
            && grew[x].rebind_orig is None && !text::is_prefix("__vdb_"@, grew[x].name)
}

proof fn candidates_alike(vars: Seq<data::VarView>, grew: Seq<data::VarView>, v: u16)
    requires
        extends(vars, grew),
    ensures
        v >= vars.len() ==> work_buffer::candidate(grew, v) is None,
        v < vars.len() && grew[v as int].argument == vars[v as int].argument
            ==> work_buffer::candidate(grew, v) == work_buffer::candidate(vars, v),
        work_buffer::candidate(grew, v) is Some ==> work_buffer::candidate(grew, v)
            == work_buffer::candidate(vars, v),
        args_stay(vars, grew),
{
    if v < grew.len() {
        let var = grew[v as int];
        if v < vars.len() {
            assert(vars[v as int].name == var.name);
            match types::base(var.tp) {
                types::Ty::Vector(elem, _) => {
                    let deps = types::depend(var.tp);
                    if deps.len() == 1 && deps[0] < grew.len() {
                        let x = grew[deps[0] as int];
                    }
                },
                _ => {},
            }
        }
    }
    assert forall|x: u16| #[trigger]
        work_buffer::is_arg(vars, x) implies work_buffer::is_arg(grew, x) by {
        assert(grew[x as int].name == vars[x as int].name);
    }
}

/// A local that is left as it is stays so when the function grows.
proof fn rests_on(
    c: Growth,
    defs: Seq<Definition>,
    f: FrameView,
    dead: Seq<u16>,
    now: Seq<Definition>,
    g: FrameView,
    again: Seq<u16>,
    v: u16,
)
    requires
        c.from == f.vars.vars.len(),
        c.from <= c.to,
        grown(c, f.code, g.code),
        extends(f.vars.vars, g.vars.vars),
        read_alike(defs, now),
        !ir::any(f.code, assigns_from(f.vars.vars.len() as int)),
        c.local < c.from ==> !text::is_prefix("__vdb_"@, f.vars.vars[c.local as int].name),
        dead.contains(v) ==> again.contains(v),
        rests(defs, f, c.ops, dead, v),
    ensures
        rests(now, g, c.ops, again, v),
{
    candidates_alike(f.vars.vars, g.vars.vars, v);
    match work_buffer::candidate(g.vars.vars, v) {
        None => {},
        Some(db) => {
            if work_buffer::admission(now, g.vars.vars, g.code, c.ops, v, db) is Ok {
                admitted_before(
                    c,
                    defs,
                    f.vars.vars,
                    f.code,
                    now,
                    g.vars.vars,
                    g.code,
                    v,
                    db,
                );
            }
        },
    }
}

proof fn new_name_backs_nothing(f: data::FnView, tp: types::Ty)
    ensures
        !text::is_prefix("__vdb_"@, data::work_ref_var(f, tp).name),
{
    reveal_strlit("__vdb_");
    reveal_strlit("__ref_");
    let name = data::work_ref_var(f, tp).name;
    if text::is_prefix("__vdb_"@, name) {
        assert(name.take(6)[2] == "__vdb_"@[2]);
        assert(name[2] == "__ref_"@[2]);
    }
}

spec fn promotion(f: FrameView, u: u16, ub: u16, ops: Ops) -> Growth {
    let n = f.vars.vars.len() as int;
    Growth { from: n, to: n + 1, local: u, backing: ub, witness: n as u16, ops }
}

/// What a promotion does to a function.
proof fn promoting_grows(f: FrameView, u: u16, ub: u16, ops: Ops)
    requires
        steady(f),
        f.vars.vars.len() < u16::MAX,
        work_buffer::candidate(f.vars.vars, u) == Some(ub),
    ensures
        ({
            let g = work_buffer::promoted(f, u, ub, ops);
            let c = promotion(f, u, ub, ops);
            &&& grown(c, f.code, g.code)
            &&& extends(f.vars.vars, g.vars.vars)
            &&& g.vars.vars.len() == f.vars.vars.len() + 1
            &&& steady(g)
            &&& g.vars.vars[u as int].argument
            &&& forall|x: int|
                0 <= x < f.vars.vars.len() && x != u ==> (#[trigger] g.vars.vars[x]).argument
                    == f.vars.vars[x].argument
        }),
{
    reveal(work_buffer::witnessed);
    reveal(work_buffer::unreleased);
    let n = f.vars.vars.len() as int;
    let g = work_buffer::promoted(f, u, ub, ops);
    let c = promotion(f, u, ub, ops);
    match types::base(f.vars.vars[u as int].tp) {
        types::Ty::Vector(elem, _) => {
            let tp = types::Ty::Vector(elem, types::no_deps());
            let (vars, w) = work_buffer::promoted_vars(f.vars, u, ub, tp);
            let f1 = data::with_var(
                f.vars,
                u,
                data::VarView { argument: true, ..f.vars.vars[u as int] },
            );
            new_name_backs_nothing(f1, tp);
            assert(w == c.witness);
            assert(g.vars == vars);
            assert(vars.vars.len() == n + 1);
            replacing_grows(c, f.code);
            grown_by_nothing(c, f.code);
            let code = match work_buffer::replaced(f.code, u, ub, w, ops) {
                Some(m) => m,
                None => f.code,
            };
            stashing_grows(c, f.code, code);
            assigned_within(c, f.code, g.code);
            assert(extends(f.vars.vars, g.vars.vars));
        },
        _ => {},
    }
}

/// What has grown assigns the new variables and those that were assigned.
proof fn assigned_within(c: Growth, a: ir::Node, b: ir::Node)
    requires
        grown(c, a, b),
        c.from <= c.to,
        !ir::any(a, assigns_from(c.from)),
    ensures
        !ir::any(b, assigns_from(c.to)),
{
    let p = assigns_from(c.to);
    assert(aside(c, p));
    counted_alike(c, a, b, p);
    ir::any_counts(b, p);
    ir::any_counts(a, p);
    if ir::any(a, p) {
        grown_by_nothing(c, a);
        assert(carries(c, p, assigns_from(c.from)));
        found_again(c, a, a, p, assigns_from(c.from));
    }
}

/// What passes stays in code that grows, whatever is put in, and in code of which variables
/// exchange numbers.
spec fn stays(p: spec_fn(ir::Node) -> bool) -> bool {
    &&& forall|c: Growth| #[trigger] carries(c, p, p)
    &&& forall|a: u16, b: u16| #[trigger] turns(p, p, a, b)
}

/// What a promotion keeps.
proof fn one_promoted(
    defs: Seq<Definition>,
    f: FrameView,
    ops: Ops,
    dead: Seq<u16>,
    u: u16,
    ub: u16,
    p: spec_fn(ir::Node) -> bool,
)
    requires
        steady(f),
        f.vars.vars.len() < u16::MAX,
        work_buffer::candidate(f.vars.vars, u) == Some(ub),
        stays(p),
    ensures
        ({
            let g = work_buffer::promoted(f, u, ub, ops);
            &&& steady(g)
            &&& g.vars.vars.len() == f.vars.vars.len() + 1
            &&& forall|v: u16|
                rests(defs, f, ops, dead, v) ==> #[trigger] rests(defs, g, ops, dead, v)
            &&& rests(defs, g, ops, dead, u)
            &&& forall|v: u16|
                work_buffer::candidate(f.vars.vars, v) is None
                    ==> #[trigger] work_buffer::candidate(g.vars.vars, v) is None
            &&& work_buffer::candidate(g.vars.vars, u) is None
            &&& ir::any(f.code, p) ==> ir::any(g.code, p)
            &&& (ir::unspan(g.code).head is Block) == (ir::unspan(f.code).head is Block)
        }),
{
    let g = work_buffer::promoted(f, u, ub, ops);
    let c = promotion(f, u, ub, ops);
    promoting_grows(f, u, ub, ops);
    grown_below_spans(c, f.code, g.code);
    assert(carries(c, p, p));
    if ir::any(f.code, p) {
        found_again(c, f.code, g.code, p, p);
    }
    unlike_a_backing(f, u);
    assert forall|v: u16| rests(defs, f, ops, dead, v) implies #[trigger] rests(
        defs,
        g,
        ops,
        dead,
        v,
    ) by {
        rests_on(c, defs, f, dead, defs, g, dead, v);
    }
    assert forall|v: u16|
        work_buffer::candidate(f.vars.vars, v) is None implies #[trigger] work_buffer::candidate(
        g.vars.vars,
        v,
    ) is None by {
        candidates_alike(f.vars.vars, g.vars.vars, v);
    }
}

/// A local that may be promoted is not named as a backing.
proof fn unlike_a_backing(f: FrameView, u: u16)
    requires
        work_buffer::candidate(f.vars.vars, u) is Some,
    ensures
        !text::is_prefix("__vdb_"@, f.vars.vars[u as int].name),
        work_buffer::candidate(f.vars.vars, u) != Some(u),
{
    reveal_strlit("__vdb_");
    reveal_strlit("_");
    let name = f.vars.vars[u as int].name;
    if text::is_prefix("__vdb_"@, name) {
        assert(name.take(6)[0] == "__vdb_"@[0]);
        assert(name.take(1) =~= "_"@);
    }
}

proof fn scalars_turned(t: types::Ty, a: u16, b: u16)
    ensures
        types::scalar(types::swapped(t, a, b)) == types::scalar(t),
{
}

/// The backing of a local is found whatever numbers the variables have.
proof fn candidate_turned(f: data::FnView, v: u16, a: u16, b: u16)
    requires
        a < f.vars.len() <= u16::MAX,
        b < f.vars.len(),
        v < f.vars.len() && !f.vars[v as int].argument && !f.vars[v as int].work_ref ==> views_own(
            f.vars[v as int].tp,
        ),
    ensures
        work_buffer::candidate(
            work_buffer::exchanged(f, a, b).vars,
            types::swapped_var(v, a, b),
        ) == work_buffer::swapped_option(work_buffer::candidate(f.vars, v), a, b),
{
    let h = work_buffer::exchanged(f, a, b);
    let w = types::swapped_var(v, a, b);
    if v < f.vars.len() {
        let var = f.vars[v as int];
        assert(types::swapped_var(w, a, b) == v);
        assert(h.vars[w as int] == work_buffer::renumbered(var, a, b));
        if !var.argument && !var.work_ref && !types::is_optional(var.tp) {
            match var.tp {
                types::Ty::Vector(elem, d) => {
                    scalars_turned(*elem, a, b);
                    let x = d.vars[0];
                    let y = types::swapped_var(x, a, b);
                    if d.vars.len() == 1 && x < f.vars.len() {
                        assert(types::swapped_var(y, a, b) == x);
                        assert(h.vars[y as int] == work_buffer::renumbered(
                            f.vars[x as int],
                            a,
                            b,
                        ));
                    }
                },
                _ => {},
            }
        }
    }
}

proof fn steady_turned(f: FrameView, a: u16, b: u16)
    requires
        steady(f),
        a < f.vars.vars.len(),
        b < f.vars.vars.len(),
    ensures
        ({
            let code = ir::swapped(f.code, a, b);
            steady(FrameView { code, vars: work_buffer::exchanged(f.vars, a, b), added: f.added })
        }),
{
    let n = f.vars.vars.len() as int;
    let h = work_buffer::exchanged(f.vars, a, b);
    let p = assigns_from(n);
    assert(turns(p, p, a, b));
    counted_turned(f.code, p, p, a, b);
    ir::any_counts(f.code, p);
    ir::any_counts(ir::swapped(f.code, a, b), p);
    assert forall|x: int| 0 <= x < n && !(#[trigger] h.vars[x]).argument implies h.vars[x].rebind_orig is None
        && (h.vars[x].work_ref || views_own(h.vars[x].tp)) by {
        let y = types::swapped_var(x as u16, a, b);
        assert(h.vars[x] == work_buffer::renumbered(f.vars.vars[y as int], a, b));
        assert(!f.vars.vars[y as int].argument);
    }
}

/// What an exchange of numbers keeps.
proof fn one_turned(
    defs: Seq<Definition>,
    f: FrameView,
    ops: Ops,
    dead: Seq<u16>,
    a: u16,
    b: u16,
    p: spec_fn(ir::Node) -> bool,
)
    requires
        steady(f),
        a < f.vars.vars.len(),
        b < f.vars.vars.len(),
        stays(p),
    ensures
        ({
            let h = FrameView {
                code: ir::swapped(f.code, a, b),
                vars: work_buffer::exchanged(f.vars, a, b),
                added: f.added,
            };
            &&& steady(h)
            &&& h.vars.vars.len() == f.vars.vars.len()
            &&& forall|v: u16| #[trigger]
                admitted(defs, h, ops, v) == admitted(defs, f, ops, types::swapped_var(v, a, b))
            &&& forall|v: u16| #[trigger]
                work_buffer::candidate(h.vars.vars, v) == work_buffer::swapped_option(
                    work_buffer::candidate(f.vars.vars, types::swapped_var(v, a, b)),
                    a,
                    b,
                )
            &&& ir::any(f.code, p) ==> ir::any(h.code, p)
            &&& (ir::unspan(h.code).head is Block) == (ir::unspan(f.code).head is Block)
        }),
{
    let h = FrameView {
        code: ir::swapped(f.code, a, b),
        vars: work_buffer::exchanged(f.vars, a, b),
        added: f.added,
    };
    steady_turned(f, a, b);
    turned_below_spans(f.code, a, b);
    assert(turns(p, p, a, b));
    counted_turned(f.code, p, p, a, b);
    ir::any_counts(f.code, p);
    ir::any_counts(h.code, p);
    assert forall|v: u16| #[trigger]
        work_buffer::candidate(h.vars.vars, v) == work_buffer::swapped_option(
            work_buffer::candidate(f.vars.vars, types::swapped_var(v, a, b)),
            a,
            b,
        ) by {
        candidate_turned(f.vars, types::swapped_var(v, a, b), a, b);
    }
    assert forall|v: u16| #[trigger]
        admitted(defs, h, ops, v) == admitted(defs, f, ops, types::swapped_var(v, a, b)) by {
        let x = types::swapped_var(v, a, b);
        candidate_turned(f.vars, x, a, b);
        match work_buffer::candidate(f.vars.vars, x) {
            Some(db) => {
                admitted_turned(defs, f.vars, f.code, ops, x, db, a, b);
            },
            None => {},
        }
    }
}

/// The function after `k` of its locals were considered.
proof fn considering_settles(
    defs: Seq<Definition>,
    f: FrameView,
    ops: Ops,
    dead: Seq<u16>,
    k: int,
    p: spec_fn(ir::Node) -> bool,
)
    requires
        steady(f),
        in_line(defs, f, ops, dead),
        0 <= k <= f.vars.vars.len(),
        stays(p),
    ensures
        ({
            let g = work_buffer::considered_all(defs, f, ops, dead, k);
            &&& steady(g)
            &&& f.vars.vars.len() <= g.vars.vars.len()
            &&& forall|v: u16| v < k ==> #[trigger] rests(defs, g, ops, dead, v)
            &&& forall|v: u16|
                v >= f.vars.vars.len() ==> #[trigger] work_buffer::candidate(
                    g.vars.vars,
                    v,
                ) is None
            &&& ir::any(f.code, p) ==> ir::any(g.code, p)
            &&& (ir::unspan(g.code).head is Block) == (ir::unspan(f.code).head is Block)
        }),
    decreases k,
{
    if k > 0 {
        considering_settles(defs, f, ops, dead, k - 1, p);
        let was = work_buffer::considered_all(defs, f, ops, dead, k - 1);
        let g = work_buffer::considered_all(defs, f, ops, dead, k);
        let u = (k - 1) as u16;
        assert(g == work_buffer::considered(defs, was, ops, dead, u));
        if rests(defs, was, ops, dead, u) {
            assert(g == was);
        } else {
            let ub = work_buffer::candidate(was.vars.vars, u)->0;
            let last = (was.vars.vars.len() - 1) as u16;
            if !work_buffer::argument_after(was.vars.vars, u) {
                assert(work_buffer::moved(was, u, ub) == Some((was, u, ub)));
                one_promoted(defs, was, ops, dead, u, ub, p);
            } else {
                assert(u < last);
                assert(!work_buffer::is_arg(was.vars.vars, last));
                assert(!admitted(defs, was, ops, last));
                let h = FrameView {
                    code: ir::swapped(was.code, u, last),
                    vars: work_buffer::exchanged(was.vars, u, last),
                    added: was.added,
                };
                unlike_a_backing(was, u);
                let hb = types::swapped_var(ub, u, last);
                assert(work_buffer::moved(was, u, ub) == Some((h, last, hb)));
                one_turned(defs, was, ops, dead, u, last, p);
                assert(work_buffer::candidate(h.vars.vars, last) == Some(hb));
                one_promoted(defs, h, ops, dead, last, hb, p);
                assert(g == work_buffer::promoted(h, last, hb, ops));
                assert forall|v: u16| v < k implies #[trigger] rests(defs, g, ops, dead, v) by {
                    if v < u {
                        assert(rests(defs, was, ops, dead, v));
                        assert(admitted(defs, h, ops, v) == admitted(defs, was, ops, v));
                    } else {
                        assert(admitted(defs, h, ops, v) == admitted(defs, was, ops, last));
                    }
                    assert(rests(defs, h, ops, dead, v));
                }
                assert forall|v: u16|
                    v >= f.vars.vars.len() implies #[trigger] work_buffer::candidate(
                    g.vars.vars,
                    v,
                ) is None by {
                    if v != last {
                        assert(work_buffer::candidate(was.vars.vars, v) is None);
                        assert(work_buffer::candidate(h.vars.vars, v) is None);
                    }
                }
            }
        }
    }
}

proof fn buffering_extends(f: data::FnView, new: Seq<types::Ty>, k: int, mark: bool)
    requires
        0 <= k <= new.len(),
        f.vars.len() + k <= u16::MAX,
    ensures
        ({
            let g = work_buffer::buffered_all(f, new, k, mark);
            &&& g.vars.len() == f.vars.len() + k
            &&& extends(f.vars, g.vars)
        }),
    decreases k,
{
    if k > 0 {
        buffering_extends(f, new, k - 1, mark);
        let was = work_buffer::buffered_all(f, new, k - 1, mark);
        let g = work_buffer::buffered_all(f, new, k, mark);
        new_name_backs_nothing(was, new[k - 1]);
        assert(g == work_buffer::buffered(was, new[k - 1], mark));
        let w = was.vars.len() as u16;
        assert(w == was.vars.len());
        assert forall|x: int| 0 <= x < was.vars.len() implies g.vars[x] == #[trigger] was.vars[x] by {}
        assert forall|x: int| 0 <= x < f.vars.len() implies {
            &&& (#[trigger] g.vars[x]).name == f.vars[x].name
            &&& g.vars[x].tp == f.vars[x].tp
            &&& g.vars[x].caller_hidden_buf == f.vars[x].caller_hidden_buf
            &&& g.vars[x].work_ref == f.vars[x].work_ref
            &&& f.vars[x].argument ==> g.vars[x].argument
        } by {
            assert(was.vars[x].name == f.vars[x].name);
        }
        assert forall|x: int| f.vars.len() <= x < g.vars.len() implies (
        #[trigger] g.vars[x]).work_ref && !g.vars[x].argument && g.vars[x].rebind_orig is None
            && !text::is_prefix("__vdb_"@, g.vars[x].name) by {
            if x < was.vars.len() {
                assert(was.vars[x].work_ref);
            }
        }
    }
}

spec fn supply(f: FrameView, n: int, ops: Ops) -> Growth {
    let from = f.vars.vars.len() as int;
    Growth {
        from,
        to: from + n,
        local: from as u16,
        backing: 0,
        witness: from as u16,
        ops,
    }
}

/// What the buffers of its calls do to a function.
proof fn supplying_grows(
    sigs: Seq<Seq<types::Ty>>,
    callees: Seq<u32>,
    f: FrameView,
    ops: Ops,
) -> (c: Growth)
    requires
        f.vars.vars.len() <= u16::MAX,
    ensures
        c.from == f.vars.vars.len(),
        c.from <= c.to,
        c.local == c.from,
        c.ops == ops,
        grown(c, f.code, work_buffer::supplied(sigs, callees, f).code),
        extends(f.vars.vars, work_buffer::supplied(sigs, callees, f).vars.vars),
        work_buffer::supplied(sigs, callees, f).vars.vars.len() <= u16::MAX,
{
    let base = f.vars.vars.len() as int;
    let (code, new) = work_buffer::patched(sigs, callees, base, f.code, Seq::empty());
    if new.len() == 0 || !work_buffer::has_room(sigs, callees, f) {
        let c = supply(f, 0, ops);
        grown_by_nothing(c, f.code);
        c
    } else {
        let c = supply(f, new.len() as int, ops);
        patching_grows(c, sigs, callees, f.code, Seq::empty());
        initialising_grows(c, f.code, code, base, new.len() as int);
        buffering_extends(f.vars, new, new.len() as int, ir::unspan(code).head is Block);
        c
    }
}

proof fn attribute_stays(
    was: Seq<data::Attribute>,
    now: Seq<data::Attribute>,
    added: Seq<data::AttrView>,
    name: Seq<char>,
    from: int,
)
    requires
        data::attr_views(now) == data::attr_views(was) + added,
        0 <= from,
    ensures
        data::attr_from(was, name, from) is Some ==> data::attr_from(now, name, from)
            == data::attr_from(was, name, from),
        data::attr_from(was, name, from) matches Some(i) ==> 0 <= i < was.len(),
    decreases was.len() - from,
{
    if from < was.len() {
        assert(data::attr_views(now)[from] == data::attr_views(was)[from]);
        assert(data::attr_views(now).len() == now.len());
        assert(now[from]@ == was[from]@);
        attribute_stays(was, now, added, name, from + 1);
    }
}

/// Whether the second list of definitions is the first after both parts of the pass.
pub open spec fn passed(
    defs: Seq<Definition>,
    now: Seq<Definition>,
    ops: Ops,
    dead: Seq<Vec<u16>>,
) -> bool {
    &&& now.len() == defs.len()
    &&& forall|d: int|
        0 <= d < defs.len() ==> work_buffer::installed(
            defs[d],
            #[trigger] now[d],
            work_buffer::whole(defs, ops, dead, d),
        )
}

/// Whether the functions of which locals may be promoted are steady, and those that get new
/// variables have their locals in line.
pub open spec fn regular(defs: Seq<Definition>, ops: Ops, dead: Seq<Vec<u16>>) -> bool {
    &&& forall|d: int|
        0 <= d < defs.len() ==> (#[trigger] defs[d]).variables.variables.len() <= u16::MAX
    &&& forall|d: int|
        0 <= d < defs.len() && work_buffer::declined(
            #[trigger] defs[d],
            work_buffer::address_taken(defs, d as u32),
        ) is None ==> {
            let f = work_buffer::first_frame(defs[d]);
            &&& steady(f)
            &&& in_line(defs, f, ops, work_buffer::dead_of(dead, d)) || same_variables(
                defs,
                ops,
                dead,
                d,
            )
        }
}

/// Whether a function gets no new variables.
pub open spec fn same_variables(
    defs: Seq<Definition>,
    ops: Ops,
    dead: Seq<Vec<u16>>,
    d: int,
) -> bool {
    work_buffer::whole(defs, ops, dead, d).vars.vars.len() == defs[d].variables.variables.len()
}

proof fn promoting_adds(f: FrameView, u: u16, ub: u16, ops: Ops)
    requires
        u < f.vars.vars.len() < u16::MAX,
        ub < f.vars.vars.len(),
    ensures
        work_buffer::promoted(f, u, ub, ops).vars.vars.len() >= f.vars.vars.len(),
{
    reveal(work_buffer::witnessed);
    reveal(work_buffer::unreleased);
}

proof fn considering_adds(
    defs: Seq<Definition>,
    f: FrameView,
    ops: Ops,
    dead: Seq<u16>,
    v: u16,
)
    ensures
        work_buffer::considered(defs, f, ops, dead, v).vars.vars.len() >= f.vars.vars.len(),
{
    match work_buffer::candidate(f.vars.vars, v) {
        None => {},
        Some(db) => {
            match work_buffer::moved(f, v, db) {
                None => {},
                Some((h, w, b)) => {
                    assert(h.vars.vars.len() == f.vars.vars.len());
                    if f.vars.vars.len() < u16::MAX {
                        promoting_adds(h, w, b, ops);
                    }
                },
            }
        },
    }
}

/// A local that moves is still one that may be promoted.
proof fn moving_keeps(f: FrameView, v: u16, db: u16)
    requires
        steady(f),
        work_buffer::candidate(f.vars.vars, v) == Some(db),
    ensures
        work_buffer::moved(f, v, db) matches Some((h, w, b)) ==> steady(h) && h.vars.vars.len()
            == f.vars.vars.len() && work_buffer::candidate(h.vars.vars, w) == Some(b),
{
    unlike_a_backing(f, v);
    if work_buffer::argument_after(f.vars.vars, v) {
        let last = (f.vars.vars.len() - 1) as u16;
        steady_turned(f, v, last);
        candidate_turned(f.vars, v, v, last);
    }
}

proof fn considering_adds_none(
    defs: Seq<Definition>,
    f: FrameView,
    ops: Ops,
    dead: Seq<u16>,
    v: u16,
)
    requires
        steady(f),
        work_buffer::considered(defs, f, ops, dead, v).vars.vars.len() == f.vars.vars.len(),
    ensures
        work_buffer::considered(defs, f, ops, dead, v) == f,
{
    if !rests(defs, f, ops, dead, v) {
        let db = work_buffer::candidate(f.vars.vars, v)->0;
        moving_keeps(f, v, db);
        match work_buffer::moved(f, v, db) {
            None => {},
            Some((h, w, b)) => {
                promoting_grows(h, w, b, ops);
            },
        }
    }
}

/// A function that gets no new variables stays as it is.
proof fn considering_changes_nothing(
    defs: Seq<Definition>,
    f: FrameView,
    ops: Ops,
    dead: Seq<u16>,
    k: int,
)
    requires
        steady(f),
        0 <= k <= f.vars.vars.len(),
    ensures
        f.vars.vars.len() <= work_buffer::considered_all(defs, f, ops, dead, k).vars.vars.len(),
        work_buffer::considered_all(defs, f, ops, dead, k).vars.vars.len() == f.vars.vars.len()
            ==> work_buffer::considered_all(defs, f, ops, dead, k) == f,
    decreases k,
{
    if k > 0 {
        considering_changes_nothing(defs, f, ops, dead, k - 1);
        let was = work_buffer::considered_all(defs, f, ops, dead, k - 1);
        let u = (k - 1) as u16;
        let g = work_buffer::considered(defs, was, ops, dead, u);
        considering_adds(defs, was, ops, dead, u);
        assert(work_buffer::considered_all(defs, f, ops, dead, k) == g);
        if g.vars.vars.len() == f.vars.vars.len() {
            assert(was == f);
            considering_adds_none(defs, f, ops, dead, u);
        }
    }
}

/// No local of a function that gets no new variables is promoted.
proof fn considering_changes_no_one(
    defs: Seq<Definition>,
    f: FrameView,
    ops: Ops,
    dead: Seq<u16>,
    k: int,
    v: u16,
)
    requires
        steady(f),
        v < k <= f.vars.vars.len(),
        work_buffer::considered_all(defs, f, ops, dead, k).vars.vars.len() == f.vars.vars.len(),
    ensures
        work_buffer::considered(defs, f, ops, dead, v) == f,
    decreases k,
{
    considering_changes_nothing(defs, f, ops, dead, k - 1);
    let was = work_buffer::considered_all(defs, f, ops, dead, k - 1);
    let u = (k - 1) as u16;
    assert(work_buffer::considered_all(defs, f, ops, dead, k) == work_buffer::considered(
        defs,
        was,
        ops,
        dead,
        u,
    ));
    considering_adds(defs, was, ops, dead, u);
    assert(was == f);
    if v == u {
        considering_adds_none(defs, f, ops, dead, u);
    } else {
        considering_changes_no_one(defs, f, ops, dead, k - 1, v);
    }
}

proof fn own_part_as_it_was(
    defs: Seq<Definition>,
    ops: Ops,
    dead: Seq<Vec<u16>>,
    d: int,
)
    requires
        0 <= d < defs.len(),
        same_variables(defs, ops, dead, d),
        steady(work_buffer::first_frame(defs[d])),
        work_buffer::declined(defs[d], work_buffer::address_taken(defs, d as u32)) is None,
    ensures
        work_buffer::whole(defs, ops, dead, d) == work_buffer::first_frame(defs[d]),
        forall|v: u16|
            v < defs[d].variables.variables.len() ==> #[trigger] work_buffer::considered(
                defs,
                work_buffer::first_frame(defs[d]),
                ops,
                work_buffer::dead_of(dead, d),
                v,
            ) == work_buffer::first_frame(defs[d]),
{
    let f = work_buffer::first_frame(defs[d]);
    let n = defs[d].variables.variables.len() as int;
    let listed = work_buffer::dead_of(dead, d);
    assert(f.vars.vars.len() == n);
    considering_changes_nothing(defs, f, ops, listed, n);
    let own = work_buffer::own_part(defs, ops, dead, d);
    let sigs = work_buffer::widened(defs, ops, dead);
    let callees = work_buffer::with_buffers(defs, ops, dead, defs.len() as int);
    let (code, new) = work_buffer::patched(
        sigs,
        callees,
        own.vars.vars.len() as int,
        own.code,
        Seq::empty(),
    );
    if new.len() > 0 && work_buffer::has_room(sigs, callees, own) {
        buffering_extends(own.vars, new, new.len() as int, ir::unspan(code).head is Block);
    }
    assert forall|v: u16|
        v < n implies #[trigger] work_buffer::considered(defs, f, ops, listed, v) == f by {
        considering_changes_no_one(defs, f, ops, listed, n, v);
    }
}

proof fn passing_reads_alike(
    defs: Seq<Definition>,
    now: Seq<Definition>,
    ops: Ops,
    dead: Seq<Vec<u16>>,
)
    requires
        passed(defs, now, ops, dead),
    ensures
        read_alike(defs, now),
{
    assert forall|d: u32| #[trigger]
        work_buffer::name_of(defs, d) == work_buffer::name_of(now, d) by {
        if d < defs.len() {
            assert(now[d as int].name == defs[d as int].name);
        }
    }
    assert forall|d: u32, i: int| #[trigger]
        work_buffer::allowed(defs, d, i) == work_buffer::allowed(now, d, i) by {
        assert(work_buffer::name_of(defs, d) == work_buffer::name_of(now, d));
        if d < defs.len() {
            assert(now[d as int].wrapper == defs[d as int].wrapper);
            match work_buffer::wrapped_op(defs[d as int]) {
                Some(op) => {
                    assert(work_buffer::name_of(defs, op) == work_buffer::name_of(now, op));
                },
                None => {},
            }
        }
    }
}

proof fn takings_carry(
    c: Growth,
    defs: Seq<Definition>,
    now: Seq<Definition>,
    ops: Ops,
    dead: Seq<Vec<u16>>,
    f: u32,
)
    requires
        passed(defs, now, ops, dead) || now == defs,
    ensures
        carries(c, work_buffer::takes(defs, f), work_buffer::takes(now, f)),
{
    let p = work_buffer::takes(defs, f);
    let q = work_buffer::takes(now, f);
    assert forall|a: ir::Node, b: ir::Node|
        #![trigger p(a), q(b)]
        grown(c, a, b) && p(a) implies q(b) by {
        match a.head {
            ir::Head::Call(d) => {
                let was = defs[d as int];
                let is = now[d as int];
                let added = if now == defs {
                    Seq::empty()
                } else {
                    work_buffer::whole(defs, ops, dead, d as int).added
                };
                assert(is.name == was.name);
                assert(data::attr_views(is.attributes@) =~= data::attr_views(was.attributes@)
                    + added);
                attribute_stays(was.attributes@, is.attributes@, added, "func"@, 0);
                let i = data::attr_from(was.attributes@, "func"@, 0)->0;
                pair_at(c, a.kids, b.kids, a.kids.len() as int, i);
                grown_below_spans(c, a.kids[i], b.kids[i]);
            },
            _ => {},
        }
    }
}

proof fn takings_turned(defs: Seq<Definition>, f: u32, a: u16, b: u16)
    ensures
        turns(work_buffer::takes(defs, f), work_buffer::takes(defs, f), a, b),
{
    let p = work_buffer::takes(defs, f);
    assert forall|n: ir::Node| #[trigger] p(n) == p(ir::swapped(n, a, b)) by {
        turned_kids(n.kids, a, b);
        match n.head {
            ir::Head::Call(d) => {
                if d < defs.len() {
                    let at = data::attr_from(defs[d as int].attributes@, "func"@, 0);
                    attribute_within(defs[d as int].attributes@, "func"@, 0);
                    if at is Some && at->0 < n.kids.len() {
                        turned_below_spans(n.kids[at->0], a, b);
                        assert(ir::swapped(n, a, b).kids[at->0] == ir::swapped(
                            n.kids[at->0],
                            a,
                            b,
                        ));
                    }
                }
            },
            _ => {},
        }
    }
}

proof fn attribute_within(attrs: Seq<data::Attribute>, name: Seq<char>, from: int)
    requires
        0 <= from,
    ensures
        data::attr_from(attrs, name, from) matches Some(i) ==> 0 <= i < attrs.len(),
    decreases attrs.len() - from,
{
    if from < attrs.len() {
        attribute_within(attrs, name, from + 1);
    }
}

/// A node that passes stands in a function after the pass, too.
proof fn stands_after(
    defs: Seq<Definition>,
    now: Seq<Definition>,
    ops: Ops,
    dead: Seq<Vec<u16>>,
    d: int,
    p: spec_fn(ir::Node) -> bool,
)
    requires
        passed(defs, now, ops, dead),
        regular(defs, ops, dead),
        0 <= d < defs.len(),
        stays(p),
    ensures
        ir::any(defs[d].code@, p) ==> ir::any(now[d].code@, p),
        (ir::unspan(now[d].code@).head is Block) == (ir::unspan(defs[d].code@).head is Block),
{
    let first = work_buffer::first_frame(defs[d]);
    let own = work_buffer::own_part(defs, ops, dead, d);
    let may = work_buffer::declined(defs[d], work_buffer::address_taken(defs, d as u32)) is None;
    let listed = work_buffer::dead_of(dead, d);
    if may && !in_line(defs, first, ops, listed) {
        own_part_as_it_was(defs, ops, dead, d);
        assert(now[d].code@ == first.code);
    } else {
        if may {
            considering_settles(defs, first, ops, listed, first.vars.vars.len() as int, p);
        }
        let sigs = work_buffer::widened(defs, ops, dead);
        let callees = work_buffer::with_buffers(defs, ops, dead, defs.len() as int);
        assert(own.vars.vars.len() <= u16::MAX);
        let c = supplying_grows(sigs, callees, own, ops);
        let all = work_buffer::whole(defs, ops, dead, d);
        assert(now[d].code@ == all.code);
        grown_below_spans(c, own.code, all.code);
        assert(carries(c, p, p));
        if ir::any(own.code, p) {
            found_again(c, own.code, all.code, p, p);
        }
    }
}

proof fn suspending_stays()
    ensures
        stays(work_buffer::suspends()),
{
    let p = work_buffer::suspends();
    assert forall|c: Growth| #[trigger] carries(c, p, p) by {
        assert forall|a: ir::Node, b: ir::Node|
            #![trigger p(a), p(b)]
            grown(c, a, b) && p(a) implies p(b) by {}
    }
    assert forall|a: u16, b: u16| #[trigger] turns(p, p, a, b) by {
        assert forall|n: ir::Node| #[trigger] p(n) == p(ir::swapped(n, a, b)) by {}
    }
}

/// A function that is handed out stays handed out.
proof fn taken_after(
    defs: Seq<Definition>,
    now: Seq<Definition>,
    ops: Ops,
    dead: Seq<Vec<u16>>,
    f: u32,
    k: int,
)
    requires
        passed(defs, now, ops, dead),
        regular(defs, ops, dead),
        k <= defs.len(),
    ensures
        work_buffer::taken_below(defs, f, k) ==> work_buffer::taken_below(now, f, k),
    decreases k,
{
    if k > 0 {
        taken_after(defs, now, ops, dead, f, k - 1);
        let p = work_buffer::takes(defs, f);
        assert forall|c: Growth| #[trigger] carries(c, p, p) by {
            takings_carry(c, defs, defs, ops, dead, f);
        }
        assert forall|a: u16, b: u16| #[trigger] turns(p, p, a, b) by {
            takings_turned(defs, f, a, b);
        }
        stands_after(defs, now, ops, dead, k - 1, p);
        let n = now[k - 1].code@;
        let c = Growth { from: 0, to: 0, local: 0, backing: 0, witness: 0, ops };
        grown_by_nothing(c, n);
        takings_carry(c, defs, now, ops, dead, f);
        if ir::any(n, p) {
            found_again(c, n, n, p, work_buffer::takes(now, f));
        }
    }
}

/// A local that is left as it is stays so where the definitions read alike.
proof fn considered_alike(
    defs: Seq<Definition>,
    now: Seq<Definition>,
    f: FrameView,
    ops: Ops,
    dead: Seq<u16>,
    again: Seq<u16>,
    v: u16,
)
    requires
        steady(f),
        read_alike(defs, now),
        dead.contains(v) ==> again.contains(v),
        work_buffer::considered(defs, f, ops, dead, v) == f,
    ensures
        work_buffer::considered(now, f, ops, again, v) == f,
{
    if rests(defs, f, ops, dead, v) {
        let c = supply(f, 0, ops);
        grown_by_nothing(c, f.code);
        rests_on(c, defs, f, dead, now, f, again, v);
    } else {
        let db = work_buffer::candidate(f.vars.vars, v)->0;
        moving_keeps(f, v, db);
        if work_buffer::moved(f, v, db) is Some {
            let (h, w, b) = work_buffer::moved(f, v, db)->0;
            promoting_grows(h, w, b, ops);
        }
    }
}

/// A function of which nothing more can be promoted stays as it is.
proof fn all_rest(
    defs: Seq<Definition>,
    f: FrameView,
    ops: Ops,
    dead: Seq<u16>,
    k: int,
)
    requires
        k <= u16::MAX,
        forall|v: u16| v < k ==> #[trigger] work_buffer::considered(defs, f, ops, dead, v) == f,
    ensures
        work_buffer::considered_all(defs, f, ops, dead, k) == f,
    decreases k,
{
    if k > 0 {
        all_rest(defs, f, ops, dead, k - 1);
        assert(work_buffer::considered(defs, f, ops, dead, (k - 1) as u16) == f);
    }
}

/// A function that takes no buffer takes none after the pass.
proof fn declined_after(
    defs: Seq<Definition>,
    now: Seq<Definition>,
    ops: Ops,
    dead: Seq<Vec<u16>>,
    d: int,
)
    requires
        passed(defs, now, ops, dead),
        regular(defs, ops, dead),
        0 <= d < defs.len(),
        work_buffer::declined(defs[d], work_buffer::address_taken(defs, d as u32)) is Some,
    ensures
        work_buffer::declined(now[d], work_buffer::address_taken(now, d as u32)) is Some,
{
    suspending_stays();
    stands_after(defs, now, ops, dead, d, work_buffer::suspends());
    taken_after(defs, now, ops, dead, d as u32, defs.len() as int);
    let was = defs[d];
    let is = now[d];
    assert(is.def_type == was.def_type);
    assert(is.rust_body == was.rust_body);
    assert(is.generic_instance == was.generic_instance);
    assert(is.synthetic == was.synthetic);
    assert(is.name == was.name);
    assert(is.corpus_entry == was.corpus_entry);
}

/// Every local of a function rests after the pass.
proof fn rests_after(
    defs: Seq<Definition>,
    now: Seq<Definition>,
    ops: Ops,
    dead: Seq<Vec<u16>>,
    again: Seq<u16>,
    d: int,
    v: u16,
)
    requires
        passed(defs, now, ops, dead),
        regular(defs, ops, dead),
        0 <= d < defs.len(),
        work_buffer::declined(defs[d], work_buffer::address_taken(defs, d as u32)) is None,
        in_line(defs, work_buffer::first_frame(defs[d]), ops, work_buffer::dead_of(dead, d)),
        work_buffer::dead_of(dead, d).contains(v) ==> again.contains(v),
    ensures
        rests(now, work_buffer::first_frame(now[d]), ops, again, v),
        now[d].variables@.vars.len() <= u16::MAX,
{
    let p = work_buffer::suspends();
    suspending_stays();
    let first = work_buffer::first_frame(defs[d]);
    let last = work_buffer::first_frame(now[d]);
    let listed = work_buffer::dead_of(dead, d);
    considering_settles(defs, first, ops, listed, first.vars.vars.len() as int, p);
    let own = work_buffer::own_part(defs, ops, dead, d);
    assert(v >= first.vars.vars.len() ==> work_buffer::candidate(own.vars.vars, v) is None);
    assert(rests(defs, own, ops, listed, v));
    let sigs = work_buffer::widened(defs, ops, dead);
    let callees = work_buffer::with_buffers(defs, ops, dead, defs.len() as int);
    let c = supplying_grows(sigs, callees, own, ops);
    passing_reads_alike(defs, now, ops, dead);
    let all = work_buffer::whole(defs, ops, dead, d);
    assert(last.code == all.code && last.vars == all.vars);
    rests_on(c, defs, own, listed, now, last, again, v);
}

proof fn own_part_again(
    defs: Seq<Definition>,
    now: Seq<Definition>,
    ops: Ops,
    dead: Seq<Vec<u16>>,
    again: Seq<Vec<u16>>,
    d: int,
)
    requires
        passed(defs, now, ops, dead),
        regular(defs, ops, dead),
        0 <= d < defs.len(),
        forall|v: u16| #[trigger]
            work_buffer::dead_of(dead, d).contains(v) ==> work_buffer::dead_of(again, d).contains(
                v,
            ),
    ensures
        work_buffer::own_part(now, ops, again, d) == work_buffer::first_frame(now[d]),
{
    if work_buffer::declined(defs[d], work_buffer::address_taken(defs, d as u32)) is Some {
        declined_after(defs, now, ops, dead, d);
    } else if in_line(defs, work_buffer::first_frame(defs[d]), ops, work_buffer::dead_of(dead, d)) {
        let last = work_buffer::first_frame(now[d]);
        let listed = work_buffer::dead_of(again, d);
        rests_after(defs, now, ops, dead, listed, d, 0);
        assert forall|v: u16| #[trigger] rests(now, last, ops, listed, v) by {
            rests_after(defs, now, ops, dead, listed, d, v);
        }
        assert forall|v: u16| #[trigger]
            work_buffer::considered(now, last, ops, listed, v) == last by {
            assert(rests(now, last, ops, listed, v));
        }
        all_rest(now, last, ops, listed, now[d].variables.variables.len() as int);
    } else {
        own_part_as_it_was(defs, ops, dead, d);
        passing_reads_alike(defs, now, ops, dead);
        let last = work_buffer::first_frame(now[d]);
        let listed = work_buffer::dead_of(again, d);
        assert(last == work_buffer::first_frame(defs[d]));
        assert forall|v: u16|
            v < now[d].variables.variables.len() implies #[trigger] work_buffer::considered(
            now,
            last,
            ops,
            listed,
            v,
        ) == last by {
            considered_alike(defs, now, last, ops, work_buffer::dead_of(dead, d), listed, v);
        }
        all_rest(now, last, ops, listed, now[d].variables.variables.len() as int);
    }
}

proof fn none_with_buffers(
    now: Seq<Definition>,
    ops: Ops,
    again: Seq<Vec<u16>>,
    k: int,
)
    requires
        k <= now.len(),
        forall|d: int|
            0 <= d < now.len() ==> work_buffer::own_part(now, ops, again, d)
                == work_buffer::first_frame(#[trigger] now[d]),
    ensures
        work_buffer::with_buffers(now, ops, again, k) == Seq::<u32>::empty(),
    decreases k,
{
    if k > 0 {
        none_with_buffers(now, ops, again, k - 1);
        assert(work_buffer::own_part(now, ops, again, k - 1) == work_buffer::first_frame(
            now[k - 1],
        ));
    }
}

proof fn nowhere(n: ir::Node, p: spec_fn(ir::Node) -> bool)
    requires
        forall|m: ir::Node| !#[trigger] p(m),
    ensures
        !ir::any(n, p),
    decreases n,
{
    if ir::any(n, p) {
        let i = held_at(n.kids, p);
        nowhere(n.kids[i], p);
    }
}

proof fn names_found_again(defs: Seq<Definition>, now: Seq<Definition>, from: int)
    requires
        now.len() == defs.len(),
        forall|d: int| 0 <= d < defs.len() ==> (#[trigger] now[d]).name == defs[d].name,
    ensures
        forall|name: Seq<char>| #[trigger]
            data::def_from(now, name, from) == data::def_from(defs, name, from),
    decreases defs.len() - from,
{
    if 0 <= from < defs.len() {
        names_found_again(defs, now, from + 1);
        assert(now[from].name == defs[from].name);
        assert forall|name: Seq<char>| #[trigger] data::def_from(now, name, from) == data::def_from(
            defs,
            name,
            from,
        ) by {
            assert(data::def_from(now, name, from + 1) == data::def_from(defs, name, from + 1));
        }
    }
}

/// A second promotion promotes nothing and leaves every function as it is.  The lists
/// `dead` and `again` name the locals that are written and never read; what the first one
/// names, the second one does, too.  Left out are functions that get new variables while an
/// admitted local stands before a parameter and the last variable is a parameter, so that
/// the local waits for a variable to exchange numbers with, or is admitted itself, so that
/// the exchange puts it where only the second promotion meets it.
pub proof fn a_second_promotion_changes_nothing(
    data: Data,
    now: Data,
    dead: Seq<Vec<u16>>,
    again: Seq<Vec<u16>>,
)
    requires
        data.definitions.len() <= u32::MAX,
        regular(data.definitions@, Ops::of(&data), dead),
        passed(data.definitions@, now.definitions@, Ops::of(&data), dead),
        forall|d: int, v: u16| #[trigger]
            work_buffer::dead_of(dead, d).contains(v) ==> work_buffer::dead_of(again, d).contains(
                v,
            ),
    ensures
        Ops::of(&now) == Ops::of(&data),
        work_buffer::with_buffers(
            now.definitions@,
            Ops::of(&now),
            again,
            now.definitions.len() as int,
        ) == Seq::<u32>::empty(),
        forall|d: int|
            0 <= d < now.definitions.len() ==> work_buffer::whole(
                now.definitions@,
                Ops::of(&now),
                again,
                d,
            ) == work_buffer::first_frame(#[trigger] now.definitions@[d]),
{
    let defs = data.definitions@;
    let after = now.definitions@;
    let ops = Ops::of(&data);
    assert forall|d: int| 0 <= d < defs.len() implies (#[trigger] after[d]).name == defs[d].name by {}
    names_found_again(defs, after, 0);
    assert(Ops::of(&now) == ops);
    assert forall|d: int| 0 <= d < after.len() implies work_buffer::own_part(after, ops, again, d)
        == work_buffer::first_frame(#[trigger] after[d]) by {
        own_part_again(defs, after, ops, dead, again, d);
    }
    none_with_buffers(after, ops, again, after.len() as int);
    let sigs = work_buffer::widened(after, ops, again);
    let callees = work_buffer::with_buffers(after, ops, again, after.len() as int);
    assert forall|d: int| 0 <= d < after.len() implies work_buffer::whole(after, ops, again, d)
        == work_buffer::first_frame(#[trigger] after[d]) by {
        let f = work_buffer::first_frame(after[d]);
        assert(work_buffer::own_part(after, ops, again, d) == f);
        let p = work_buffer::lacks(sigs, callees);
        nowhere(f.code, p);
        work_buffer::carried_buffers_are_left_alone(
            sigs,
            callees,
            f.vars.vars.len() as int,
            f.code,
            Seq::empty(),
        );
    }
}

} // verus!
