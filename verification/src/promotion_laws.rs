//! What a promoted declaration and the calls that hand its buffer in come to.

use crate::data;
use crate::data::Data;
use crate::ir;
use crate::types;
use crate::work_buffer::{self, FrameView, Ops};
use vstd::prelude::*;

verus! {

/// Nodes that mention variable `b`.
pub open spec fn mentions(b: u16) -> spec_fn(ir::Node) -> bool {
    |m: ir::Node| m.head == ir::Head::Var(b)
}

/// Nodes that mention a variable from `base` on.
pub open spec fn mentions_from(base: int) -> spec_fn(ir::Node) -> bool {
    |m: ir::Node| m.head matches ir::Head::Var(x) && x >= base
}

/// Calls with a variable from `base` on in the place of a parameter of another type.
pub open spec fn misuses(sigs: Seq<Seq<types::Ty>>, base: int, tps: Seq<types::Ty>) -> spec_fn(
    ir::Node,
) -> bool {
    |m: ir::Node|
        m.head matches ir::Head::Call(d) && exists|i: int|
            0 <= i < m.kids.len() && misplaced(sigs, base, tps, d, i, #[trigger] m.kids[i])
}

/// Whether operand `i` of a call of `d` is a variable from `base` on, but none of the type of
/// the parameter.
pub open spec fn misplaced(
    sigs: Seq<Seq<types::Ty>>,
    base: int,
    tps: Seq<types::Ty>,
    d: u32,
    i: int,
    n: ir::Node,
) -> bool {
    n.head matches ir::Head::Var(b) && b >= base && !(b - base < tps.len() && d < sigs.len() && i
        < sigs[d as int].len() && sigs[d as int][i] == tps[b - base])
}

/// The code without the operands that are variables from `base` on.
pub open spec fn stripped(n: ir::Node, base: int) -> ir::Node
    decreases n, 0int,
{
    ir::Node { head: n.head, kids: stripped_kids(n.kids, n.kids.len() as int, base) }
}

/// The first `k` nodes without those that are variables from `base` on.
pub open spec fn stripped_kids(s: Seq<ir::Node>, k: int, base: int) -> Seq<ir::Node>
    decreases s, k,
{
    if k <= 0 || k > s.len() {
        Seq::empty()
    } else {
        let before = stripped_kids(s, k - 1, base);
        if mentions_from(base)(s[k - 1]) {
            before
        } else {
            before.push(stripped(s[k - 1], base))
        }
    }
}

proof fn stripped_front(s: Seq<ir::Node>, t: Seq<ir::Node>, k: int, base: int)
    requires
        0 <= k <= s.len(),
        k <= t.len(),
        s.take(k) == t.take(k),
    ensures
        stripped_kids(s, k, base) == stripped_kids(t, k, base),
    decreases k,
{
    if k > 0 {
        assert(s.take(k - 1) =~= s.take(k).take(k - 1));
        assert(t.take(k - 1) =~= t.take(k).take(k - 1));
        stripped_front(s, t, k - 1, base);
        assert(s[k - 1] == s.take(k)[k - 1]);
        assert(t[k - 1] == t.take(k)[k - 1]);
    }
}

proof fn kid_is_clean(s: Seq<ir::Node>, p: spec_fn(ir::Node) -> bool, i: int)
    requires
        0 <= i < s.len(),
        !ir::any_in(s, p),
    ensures
        !ir::any(s[i], p),
{
    if ir::any(s[i], p) {
        ir::any_step(s, p, i);
        ir::any_prefix(s, p, i + 1);
    }
}

proof fn clean_kids(s: Seq<ir::Node>, p: spec_fn(ir::Node) -> bool)
    requires
        forall|i: int| 0 <= i < s.len() ==> !ir::any(#[trigger] s[i], p),
    ensures
        !ir::any_in(s, p),
    decreases s.len(),
{
    if s.len() > 0 {
        assert(s.last() == s[s.len() - 1]);
        assert forall|i: int| 0 <= i < s.drop_last().len() implies !ir::any(
            #[trigger] s.drop_last()[i],
            p,
        ) by {
            assert(s.drop_last()[i] == s[i]);
        }
        clean_kids(s.drop_last(), p);
    }
}

proof fn counted_both(s: Seq<ir::Node>, t: Seq<ir::Node>, p: spec_fn(ir::Node) -> bool)
    ensures
        ir::count_in(s + t, p) == ir::count_in(s, p) + ir::count_in(t, p),
    decreases t.len(),
{
    if t.len() == 0 {
        assert(s + t =~= s);
    } else {
        counted_both(s, t.drop_last(), p);
        assert((s + t).drop_last() =~= s + t.drop_last());
        assert((s + t).last() == t.last());
    }
}

/// One where `b` is among the `n` variables from `from` on, and none elsewhere.
spec fn one_of(b: int, from: int, n: int) -> nat {
    if from <= b < from + n {
        1
    } else {
        0
    }
}

proof fn a_buffer_is_there_once(from: int, n: nat, b: u16)
    requires
        0 <= from,
        from + n <= u16::MAX + 1,
    ensures
        ir::count_in(work_buffer::buffers(from, n), mentions(b)) == one_of(b as int, from, n as int),
    decreases n,
{
    let all = work_buffer::buffers(from, n);
    if n > 0 {
        let less = (n - 1) as nat;
        a_buffer_is_there_once(from, less, b);
        assert(all.drop_last() =~= work_buffer::buffers(from, less));
        let last = all.last();
        assert(last == ir::var((from + n - 1) as u16));
        assert(last.kids.len() == 0);
        assert(ir::count_in(last.kids, mentions(b)) == 0);
        assert(ir::count(last, mentions(b)) == one_of(b as int, from + n - 1, 1));
    }
}

/// What holds of the code with its buffers, for one variable `b` and the types `all` of all
/// buffers.
spec fn well_supplied(
    sigs: Seq<Seq<types::Ty>>,
    base: int,
    b: u16,
    all: Seq<types::Ty>,
    n: ir::Node,
    from: int,
    m: ir::Node,
    to: int,
) -> bool {
    &&& m.head == n.head
    &&& ir::count(m, mentions(b)) == one_of(b as int, base + from, to - from)
    &&& !ir::any(m, misuses(sigs, base, all))
    &&& stripped(m, base) == n
}

proof fn patched_is_well_supplied(
    sigs: Seq<Seq<types::Ty>>,
    callees: Seq<u32>,
    base: int,
    n: ir::Node,
    new: Seq<types::Ty>,
    all: Seq<types::Ty>,
    b: u16,
)
    requires
        0 <= base <= b,
        base + all.len() <= u16::MAX + 1,
        !ir::any(n, mentions_from(base)),
        ({
            let after = work_buffer::patched(sigs, callees, base, n, new).1;
            after.len() <= all.len() && all.take(after.len() as int) == after
        }),
    ensures
        ({
            let (m, after) = work_buffer::patched(sigs, callees, base, n, new);
            &&& after.len() >= new.len()
            &&& after.take(new.len() as int) == new
            &&& well_supplied(
                sigs,
                base,
                b,
                all,
                n,
                new.len() as int,
                m,
                after.len() as int,
            )
        }),
    decreases n, 0int,
{
    let k = n.kids.len() as int;
    let (kids, below) = work_buffer::patched_kids(sigs, callees, base, n.kids, k, new);
    let (m, after) = work_buffer::patched(sigs, callees, base, n, new);
    let more = match n.head {
        ir::Head::Call(d) => work_buffer::lacking(sigs, callees, d, n.kids.len()),
        _ => Seq::empty(),
    };
    let extra = work_buffer::buffers(base + below.len(), more.len());
    assert(after =~= below + more);
    assert(m.kids =~= kids + extra);
    assert(m.head == n.head);
    assert(all.take(below.len() as int) =~= all.take(after.len() as int).take(below.len() as int));
    assert(after.take(below.len() as int) =~= below);
    kids_are_well_supplied(sigs, callees, base, n.kids, k, new, all, b);
    assert(after.take(new.len() as int) =~= below.take(new.len() as int));
    counted_both(kids, extra, mentions(b));
    a_buffer_is_there_once(base + below.len(), more.len(), b);
    assert(!mentions_from(base)(n));
    assert(!mentions(b)(m));
    assert forall|i: int| 0 <= i < m.kids.len() implies !ir::any(
        #[trigger] m.kids[i],
        misuses(sigs, base, all),
    ) by {
        if i < kids.len() {
            kid_is_clean(kids, misuses(sigs, base, all), i);
            assert(m.kids[i] == kids[i]);
        } else {
            assert(m.kids[i] == extra[i - kids.len()]);
            assert(m.kids[i].kids.len() == 0);
        }
    }
    clean_kids(m.kids, misuses(sigs, base, all));
    assert(!misuses(sigs, base, all)(m)) by {
        if misuses(sigs, base, all)(m) {
            let d = m.head->Call_0;
            let i = choose|i: int|
                0 <= i < m.kids.len() && misplaced(sigs, base, all, d, i, #[trigger] m.kids[i]);
            if i < kids.len() {
                assert(m.kids[i] == kids[i]);
                kid_is_clean(n.kids, mentions_from(base), i);
                assert(kids[i].head == n.kids[i].head);
                assert(!mentions_from(base)(n.kids[i]));
            } else {
                let j = i - kids.len();
                assert(m.kids[i] == extra[j]);
                assert(all[below.len() + j] == all.take(after.len() as int)[below.len() + j]);
                assert(after[below.len() + j] == more[j]);
            }
        }
    }
    extra_is_stripped(kids, extra, extra.len() as int, base);
    assert(n.kids.take(k) =~= n.kids);
}

proof fn extra_is_stripped(kids: Seq<ir::Node>, extra: Seq<ir::Node>, k: int, base: int)
    requires
        0 <= k <= extra.len(),
        forall|i: int| 0 <= i < extra.len() ==> mentions_from(base)(#[trigger] extra[i]),
    ensures
        stripped_kids(kids + extra, kids.len() + k, base) == stripped_kids(
            kids,
            kids.len() as int,
            base,
        ),
    decreases k,
{
    if k > 0 {
        extra_is_stripped(kids, extra, k - 1, base);
        assert((kids + extra)[kids.len() + k - 1] == extra[k - 1]);
    } else {
        assert((kids + extra).take(kids.len() as int) =~= kids.take(kids.len() as int));
        stripped_front(kids + extra, kids, kids.len() as int, base);
    }
}

proof fn kids_are_well_supplied(
    sigs: Seq<Seq<types::Ty>>,
    callees: Seq<u32>,
    base: int,
    s: Seq<ir::Node>,
    k: int,
    new: Seq<types::Ty>,
    all: Seq<types::Ty>,
    b: u16,
)
    requires
        0 <= base <= b,
        base + all.len() <= u16::MAX + 1,
        0 <= k <= s.len(),
        !ir::any_in(s, mentions_from(base)),
        ({
            let after = work_buffer::patched_kids(sigs, callees, base, s, k, new).1;
            after.len() <= all.len() && all.take(after.len() as int) == after
        }),
    ensures
        ({
            let (t, after) = work_buffer::patched_kids(sigs, callees, base, s, k, new);
            &&& t.len() == k
            &&& after.len() >= new.len()
            &&& after.take(new.len() as int) == new
            &&& forall|i: int| 0 <= i < k ==> (#[trigger] t[i]).head == s[i].head
            &&& ir::count_in(t, mentions(b)) == one_of(
                b as int,
                base + new.len(),
                after.len() - new.len(),
            )
            &&& !ir::any_in(t, misuses(sigs, base, all))
            &&& stripped_kids(t, k, base) == s.take(k)
        }),
    decreases s, k,
{
    if k > 0 {
        let (done, before) = work_buffer::patched_kids(sigs, callees, base, s, k - 1, new);
        let (kid, after) = work_buffer::patched(sigs, callees, base, s[k - 1], before);
        work_buffer::patching_adds(sigs, callees, base, s[k - 1], before);
        kid_is_clean(s, mentions_from(base), k - 1);
        patched_is_well_supplied(sigs, callees, base, s[k - 1], before, all, b);
        assert(all.take(before.len() as int) =~= after.take(before.len() as int));
        kids_are_well_supplied(sigs, callees, base, s, k - 1, new, all, b);
        let t = done.push(kid);
        assert(after.take(new.len() as int) =~= before.take(new.len() as int));
        assert(t.drop_last() =~= done);
        assert(t.take(k - 1) =~= done.take(k - 1));
        stripped_front(t, done, k - 1, base);
        assert(!mentions_from(base)(s[k - 1]));
        assert(s.take(k) =~= s.take(k - 1).push(s[k - 1]));
    } else {
        assert(new.take(new.len() as int) =~= new);
        assert(s.take(0) =~= Seq::<ir::Node>::empty());
    }
}

/// The body without the first `k` statements of its block.
pub open spec fn behind(n: ir::Node, k: int) -> ir::Node
    decreases n,
{
    if n.head is Span && n.kids.len() > 0 {
        ir::Node { head: n.head, kids: n.kids.update(0, behind(n.kids[0], k)) }
    } else if n.head is Block {
        ir::Node { head: n.head, kids: n.kids.skip(k) }
    } else {
        n
    }
}

proof fn inits_are_there(base: int, k: int)
    requires
        0 <= base,
        0 <= k,
    ensures
        work_buffer::inits(base, k).len() == k,
        forall|i: int|
            0 <= i < k ==> #[trigger] work_buffer::inits(base, k)[i] == ir::assign(
                (base + k - 1 - i) as u16,
                ir::leaf(ir::Head::Null),
            ),
    decreases k,
{
    if k > 0 {
        inits_are_there(base, k - 1);
        let s = work_buffer::inits(base, k);
        assert forall|i: int| 0 <= i < k implies #[trigger] s[i] == ir::assign(
            (base + k - 1 - i) as u16,
            ir::leaf(ir::Head::Null),
        ) by {
            if i > 0 {
                assert(s[i] == work_buffer::inits(base, k - 1)[i - 1]);
            }
        }
    }
}

proof fn starts_are_in_front(n: ir::Node, base: int, k: int)
    requires
        0 <= base,
        0 <= k,
    ensures
        behind(work_buffer::initialised(n, base, k), k) == n,
        ir::unspan(n).head is Block ==> {
            let m = ir::unspan(work_buffer::initialised(n, base, k));
            m.head is Block && m.kids.len() >= k && m.kids.take(k) == work_buffer::inits(base, k)
        },
    decreases n,
{
    inits_are_there(base, k);
    let m = work_buffer::initialised(n, base, k);
    if n.head is Span && n.kids.len() > 0 {
        starts_are_in_front(n.kids[0], base, k);
        assert(m.kids[0] == work_buffer::initialised(n.kids[0], base, k));
        assert(m.kids.update(0, n.kids[0]) =~= n.kids);
    } else if n.head is Block {
        assert(m.kids.skip(k) =~= n.kids);
        assert(m.kids.take(k) =~= work_buffer::inits(base, k));
    }
}

proof fn buffers_have_their_types(f: data::FnView, new: Seq<types::Ty>, k: int, mark: bool)
    requires
        0 <= k <= new.len(),
        f.vars.len() + k <= u16::MAX,
    ensures
        ({
            let g = work_buffer::buffered_all(f, new, k, mark);
            &&& g.vars.len() == f.vars.len() + k
            &&& forall|i: int| 0 <= i < k ==> (#[trigger] g.vars[f.vars.len() + i]).tp == new[i]
            &&& forall|i: int| 0 <= i < f.vars.len() ==> #[trigger] g.vars[i] == f.vars[i]
        }),
    decreases k,
{
    if k > 0 {
        buffers_have_their_types(f, new, k - 1, mark);
        let g = work_buffer::buffered_all(f, new, k - 1, mark);
        let h = work_buffer::buffered(g, new[k - 1], mark);
        assert(h.vars.len() == g.vars.len() + 1);
        assert forall|i: int| 0 <= i < k implies (#[trigger] h.vars[f.vars.len() + i]).tp
            == new[i] by {
            if i < k - 1 {
                assert(h.vars[f.vars.len() + i] == g.vars[f.vars.len() + i]);
            }
        }
        assert forall|i: int| 0 <= i < f.vars.len() implies #[trigger] h.vars[i] == f.vars[i] by {
            assert(h.vars[i] == g.vars[i]);
        }
    }
}

/// The types of the variables from `base` on.
pub open spec fn types_from(f: data::FnView, base: int) -> Seq<types::Ty> {
    Seq::new((f.vars.len() - base) as nat, |i: int| f.vars[base + i].tp)
}

/// A caller gets a variable of its own for each buffer that one of its calls lacks.  Each is
/// null when the body starts, has the type of the parameter that it is handed in for, and is
/// handed in by one call alone; but for them, the body and its variables are what they were.
pub proof fn a_buffer_serves_one_call(
    sigs: Seq<Seq<types::Ty>>,
    callees: Seq<u32>,
    f: FrameView,
    b: u16,
)
    requires
        work_buffer::has_room(sigs, callees, f),
        !ir::any(f.code, mentions_from(f.vars.vars.len() as int)),
        f.vars.vars.len() <= b < work_buffer::supplied(sigs, callees, f).vars.vars.len(),
    ensures
        ({
            let base = f.vars.vars.len() as int;
            let g = work_buffer::supplied(sigs, callees, f);
            let added = g.vars.vars.len() - base;
            let body = behind(g.code, added);
            &&& ir::count(body, mentions(b)) == 1
            &&& !ir::any(body, misuses(sigs, base, types_from(g.vars, base)))
            &&& stripped(body, base) == f.code
            &&& g.vars.vars.take(base) == f.vars.vars
            &&& ir::unspan(f.code).head is Block ==> ir::unspan(g.code).kids.take(added).contains(
                ir::assign(b, ir::leaf(ir::Head::Null)),
            )
        }),
{
    let base = f.vars.vars.len() as int;
    let none = Seq::<types::Ty>::empty();
    let (code, new) = work_buffer::patched(sigs, callees, base, f.code, none);
    let g = work_buffer::supplied(sigs, callees, f);
    let added = new.len() as int;
    assert(new.len() > 0);
    assert(new.take(added) =~= new);
    patched_is_well_supplied(sigs, callees, base, f.code, none, new, b);
    starts_are_in_front(code, base, added);
    let mark = ir::unspan(code).head is Block;
    buffers_have_their_types(f.vars, new, added, mark);
    assert(types_from(g.vars, base) =~= new) by {
        assert forall|i: int| 0 <= i < new.len() implies types_from(g.vars, base)[i] == new[i] by {
            assert(g.vars.vars[base + i].tp == new[i]);
        }
    }
    assert(g.vars.vars.take(base) =~= f.vars.vars);
    if ir::unspan(f.code).head is Block {
        patched_spans(sigs, callees, base, f.code, none);
        inits_are_there(base, added);
        let i = base + added - 1 - b;
        assert(work_buffer::inits(base, added)[i] == ir::assign(b, ir::leaf(ir::Head::Null)));
        assert(ir::unspan(g.code).kids.take(added)[i] == ir::assign(b, ir::leaf(ir::Head::Null)));
    }
}

proof fn patched_spans(
    sigs: Seq<Seq<types::Ty>>,
    callees: Seq<u32>,
    base: int,
    n: ir::Node,
    new: Seq<types::Ty>,
)
    ensures
        ir::unspan(work_buffer::patched(sigs, callees, base, n, new).0).head == ir::unspan(n).head,
    decreases n,
{
    let k = n.kids.len() as int;
    let (kids, below) = work_buffer::patched_kids(sigs, callees, base, n.kids, k, new);
    patched_len(sigs, callees, base, n.kids, k, new);
    if n.head is Span && k > 0 {
        patched_first(sigs, callees, base, n.kids, k, new);
        patched_spans(sigs, callees, base, n.kids[0], new);
    }
}

proof fn patched_len(
    sigs: Seq<Seq<types::Ty>>,
    callees: Seq<u32>,
    base: int,
    s: Seq<ir::Node>,
    k: int,
    new: Seq<types::Ty>,
)
    requires
        0 <= k <= s.len(),
    ensures
        work_buffer::patched_kids(sigs, callees, base, s, k, new).0.len() == k,
    decreases k,
{
    if k > 0 {
        patched_len(sigs, callees, base, s, k - 1, new);
    }
}

proof fn patched_first(
    sigs: Seq<Seq<types::Ty>>,
    callees: Seq<u32>,
    base: int,
    s: Seq<ir::Node>,
    k: int,
    new: Seq<types::Ty>,
)
    requires
        0 < k <= s.len(),
    ensures
        work_buffer::patched_kids(sigs, callees, base, s, k, new).0.len() == k,
        work_buffer::patched_kids(sigs, callees, base, s, k, new).0[0] == work_buffer::patched(
            sigs,
            callees,
            base,
            s[0],
            new,
        ).0,
    decreases k,
{
    patched_len(sigs, callees, base, s, k - 1, new);
    if k > 1 {
        patched_first(sigs, callees, base, s, k - 1, new);
    } else {
        assert(work_buffer::patched_kids(sigs, callees, base, s, 0, new) == (
            Seq::<ir::Node>::empty(),
            new,
        ));
    }
}

/// What a function knows of a vector that a caller may hand in: the store that the local
/// names, if any, and the one that was handed in; how many stores were made, the stores that
/// hold nothing, and those that were released.
pub struct Stores {
    pub local: Option<int>,
    pub handed: Option<int>,
    pub made: int,
    pub empty: Set<int>,
    pub released: Set<int>,
}

/// Whether a node calls the operator of a name on variable `x`.
pub open spec fn calls_operator(
    data: &Data,
    n: ir::Node,
    name: Seq<char>,
    x: u16,
) -> bool {
    let m = ir::unspan(n);
    m.head matches ir::Head::Call(d) && d < data.definitions.len()
        && data.definitions[d as int].name@ == name && m.kids.len() > 0 && ir::unspan(
        m.kids[0],
    ).head == ir::Head::Var(x)
}

/// The stores after a piece of code has run, as far as they matter to local `v` and to its
/// witness `w`.
pub open spec fn ran(data: &Data, v: u16, w: u16, st: Stores, n: ir::Node) -> Stores
    decreases n, 0int,
{
    match n.head {
        ir::Head::Span(_) => if n.kids.len() > 0 {
            ran(data, v, w, st, n.kids[0])
        } else {
            st
        },
        ir::Head::If => if n.kids.len() == 3 && calls_operator(
            data,
            n.kids[0],
            "OpRefIsNull"@,
            v,
        ) {
            if st.local is None {
                ran(data, v, w, st, n.kids[1])
            } else {
                ran(data, v, w, st, n.kids[2])
            }
        } else {
            st
        },
        ir::Head::Block(_, _) | ir::Head::Insert => ran_all(data, v, w, st, n.kids, n.kids.len() as int),
        ir::Head::Assign(x) => if n.kids.len() == 0 {
            st
        } else if ir::unspan(n.kids[0]).head is Null {
            if x == v {
                Stores { local: None, ..st }
            } else if x == w {
                Stores { handed: None, ..st }
            } else {
                st
            }
        } else if x == v {
            Stores { local: Some(st.made - 1), ..st }
        } else {
            st
        },
        ir::Head::Call(d) => if d >= data.definitions.len() {
            st
        } else if data.definitions[d as int].name@ == "OpDatabase"@ {
            Stores { made: st.made + 1, empty: st.empty.insert(st.made), ..st }
        } else if calls_operator(data, n, "t_6vector_clear"@, v) {
            match st.local {
                Some(a) => Stores { empty: st.empty.insert(a), ..st },
                None => st,
            }
        } else if calls_operator(data, n, "OpFreeRefIfDistinct"@, v) {
            match st.local {
                Some(a) => if st.handed != Some(a) {
                    Stores { released: st.released.insert(a), ..st }
                } else {
                    st
                },
                None => st,
            }
        } else if calls_operator(data, n, "OpPutRef"@, w) && n.kids.len() > 1 && ir::unspan(
            n.kids[1],
        ).head == ir::Head::Var(v) {
            Stores { handed: st.local, ..st }
        } else {
            st
        },
        _ => st,
    }
}

/// The stores after the first `k` statements.
pub open spec fn ran_all(
    data: &Data,
    v: u16,
    w: u16,
    st: Stores,
    s: Seq<ir::Node>,
    k: int,
) -> Stores
    decreases s, k,
{
    if k <= 0 || k > s.len() {
        st
    } else {
        ran(data, v, w, ran_all(data, v, w, st, s, k - 1), s[k - 1])
    }
}

proof fn ran_unspanned(data: &Data, v: u16, w: u16, st: Stores, n: ir::Node)
    ensures
        ran(data, v, w, st, n) == ran(data, v, w, st, ir::unspan(n)),
    decreases n,
{
    if n.head is Span && n.kids.len() > 0 {
        ran_unspanned(data, v, w, st, n.kids[0]);
    }
}

/// The operators that a promoted declaration is written with are there.
pub open spec fn has_buffer_operators(data: &Data) -> bool {
    &&& data.definitions.len() <= u32::MAX
    &&& data.named("OpDatabase"@) != u32::MAX
    &&& data.named("OpGetField"@) != u32::MAX
    &&& data.named("OpSetInt4"@) != u32::MAX
    &&& data.named("t_6vector_clear"@) != u32::MAX
    &&& data.named("OpRefIsNull"@) != u32::MAX
    &&& data.named("OpFreeRefIfDistinct"@) != u32::MAX
    &&& data.named("OpPutRef"@) != u32::MAX
}

proof fn operators_differ(data: &Data)
    requires
        has_buffer_operators(data),
    ensures
        ({
            let ops = Ops::of(data);
            let defs = data.definitions@;
            &&& ops.database < defs.len() && defs[ops.database as int].name@ == "OpDatabase"@
            &&& ops.get_field < defs.len() && defs[ops.get_field as int].name@ == "OpGetField"@
            &&& ops.set_int4 < defs.len() && defs[ops.set_int4 as int].name@ == "OpSetInt4"@
            &&& ops.clear < defs.len() && defs[ops.clear as int].name@ == "t_6vector_clear"@
            &&& ops.ref_is_null < defs.len() && defs[ops.ref_is_null as int].name@
                == "OpRefIsNull"@
            &&& ops.free_if_distinct < defs.len() && defs[ops.free_if_distinct as int].name@
                == "OpFreeRefIfDistinct"@
            &&& ops.put_ref < defs.len() && defs[ops.put_ref as int].name@ == "OpPutRef"@
        }),
        "OpDatabase"@ != "t_6vector_clear"@,
        "OpDatabase"@ != "OpFreeRefIfDistinct"@,
        "OpDatabase"@ != "OpPutRef"@,
        "OpDatabase"@ != "OpSetInt4"@,
        "OpSetInt4"@ != "t_6vector_clear"@,
        "OpSetInt4"@ != "OpFreeRefIfDistinct"@,
        "OpSetInt4"@ != "OpPutRef"@,
        "t_6vector_clear"@ != "OpFreeRefIfDistinct"@,
        "t_6vector_clear"@ != "OpPutRef"@,
        "OpFreeRefIfDistinct"@ != "OpPutRef"@,
{
    let defs = data.definitions@;
    data::found_definition(defs, "OpDatabase"@, 0);
    data::found_definition(defs, "OpGetField"@, 0);
    data::found_definition(defs, "OpSetInt4"@, 0);
    data::found_definition(defs, "t_6vector_clear"@, 0);
    data::found_definition(defs, "OpRefIsNull"@, 0);
    data::found_definition(defs, "OpFreeRefIfDistinct"@, 0);
    data::found_definition(defs, "OpPutRef"@, 0);
    reveal_strlit("OpDatabase");
    reveal_strlit("OpSetInt4");
    reveal_strlit("t_6vector_clear");
    reveal_strlit("OpFreeRefIfDistinct");
    reveal_strlit("OpPutRef");
    assert("OpDatabase"@.len() == 10);
    assert("OpSetInt4"@.len() == 9);
    assert("t_6vector_clear"@.len() == 15);
    assert("OpFreeRefIfDistinct"@.len() == 19);
    assert("OpPutRef"@.len() == 8);
}

/// Where the declaration of a promoted local stood the local names an empty vector again.  It
/// is the one that it named, which the function neither makes nor releases, or where it named
/// none a store of the function's own.
pub proof fn a_declaration_takes_what_was_handed_in(
    data: &Data,
    s: Seq<ir::Node>,
    i: int,
    v: u16,
    db: u16,
    w: u16,
    st: Stores,
)
    requires
        has_buffer_operators(data),
        work_buffer::is_trio(s, i, v, db, Ops::of(data)),
        v != w,
        v != db,
        w != db,
    ensures
        ({
            let code = work_buffer::cleared(s.subrange(i, i + 3), v, w, Ops::of(data));
            let after = ran(data, v, w, st, code);
            &&& after.local == Some(
                match st.local {
                    Some(a) => a,
                    None => st.made,
                },
            )
            &&& after.empty == st.empty.insert(after.local->0)
            &&& after.made == if st.local is None {
                st.made + 1
            } else {
                st.made
            }
            &&& after.handed == st.handed
            &&& after.released == st.released
        }),
{
    operators_differ(data);
    let ops = Ops::of(data);
    let trio = s.subrange(i, i + 3);
    let code = work_buffer::cleared(trio, v, w, ops);
    let free = ir::call(ops.free_if_distinct, seq![ir::var(v), ir::var(w)]);
    let own = seq![free] + trio;
    assert(own.len() == 4);
    assert(own[1] == s[i]);
    assert(own[2] == s[i + 1]);
    assert(own[3] == s[i + 2]);
    let test = ir::call(ops.ref_is_null, seq![ir::var(v)]);
    let clear = ir::call(ops.clear, seq![ir::var(v)]);
    assert(code.kids[0] == test);
    assert(code.kids[1] == ir::insert(own));
    assert(code.kids[2] == ir::insert(seq![clear]));
    assert(test.kids[0] == ir::var(v));
    assert(calls_operator(data, code.kids[0], "OpRefIsNull"@, v));
    if st.local is None {
        assert(free.kids[0] == ir::var(v));
        assert(ran_all(data, v, w, st, own, 0) == st);
        assert(ran_all(data, v, w, st, own, 1) == ran(data, v, w, st, free));
        assert(ran(data, v, w, st, free) == st);
        ran_unspanned(data, v, w, st, s[i]);
        let st2 = ran_all(data, v, w, st, own, 2);
        assert(st2 == ran(data, v, w, st, s[i]));
        assert(st2 == Stores { made: st.made + 1, empty: st.empty.insert(st.made), ..st });
        ran_unspanned(data, v, w, st2, s[i + 1]);
        let st3 = ran_all(data, v, w, st, own, 3);
        assert(st3 == ran(data, v, w, st2, s[i + 1]));
        assert(st3 == Stores { local: Some(st.made), ..st2 });
        ran_unspanned(data, v, w, st3, s[i + 2]);
        let st4 = ran_all(data, v, w, st, own, 4);
        assert(st4 == ran(data, v, w, st3, s[i + 2]));
        assert(st4 == st3);
        assert(ran(data, v, w, st, code.kids[1]) == st4);
    } else {
        let t = seq![clear];
        assert(clear.kids[0] == ir::var(v));
        assert(ran_all(data, v, w, st, t, 0) == st);
        assert(ran_all(data, v, w, st, t, 1) == ran(data, v, w, st, clear));
        assert(ran(data, v, w, st, code.kids[2]) == ran(data, v, w, st, clear));
    }
}

/// Whether a statement gives some variable the null value.
pub open spec fn starts_null(n: ir::Node) -> bool {
    let m = ir::unspan(n);
    m.head is Assign && m.kids.len() > 0 && ir::unspan(m.kids[0]).head is Null
}

/// A body with a witness remembers what was handed in before any of its own statements but
/// null initialisations has run, whatever the witness held; the statements are those of the
/// body.
pub proof fn what_was_handed_in_is_remembered(
    data: &Data,
    n: ir::Node,
    v: u16,
    w: u16,
    st: Stores,
) -> (k: int)
    requires
        has_buffer_operators(data),
        n.head is Block,
        v != w,
        forall|i: int|
            0 <= i < n.kids.len() && starts_null(n.kids[i]) ==> ir::unspan(
                #[trigger] n.kids[i],
            ).head != ir::Head::Assign(v) && ir::unspan(n.kids[i]).head != ir::Head::Assign(w),
    ensures
        ({
            let kids = work_buffer::stashed(n, v, w, Ops::of(data)).kids;
            let after = ran_all(data, v, w, st, kids, k + 2);
            &&& 0 <= k <= n.kids.len()
            &&& kids.len() == n.kids.len() + 2
            &&& kids.subrange(1, k + 1) == n.kids.take(k)
            &&& kids.skip(k + 2) == n.kids.skip(k)
            &&& forall|i: int| 0 <= i < k ==> starts_null(#[trigger] n.kids[i])
            &&& after == Stores { handed: st.local, ..st }
        }),
{
    operators_differ(data);
    let ops = Ops::of(data);
    let start = ir::assign(w, ir::leaf(ir::Head::Null));
    let s = seq![start] + n.kids;
    let at = work_buffer::leading_nulls(s, 0);
    assert(start.kids[0] == ir::leaf(ir::Head::Null));
    assert(ir::unspan(start) == start);
    assert(ir::unspan(start.kids[0]) == start.kids[0]);
    assert(s[0] == start);
    leading_ones_are_null(s, 0);
    leading_nulls_is_past(s);
    let k = at - 1;
    let put = ir::call(ops.put_ref, seq![ir::var(w), ir::var(v)]);
    let kids = work_buffer::stashed(n, v, w, ops).kids;
    assert(kids =~= s.take(at) + seq![put] + s.skip(at));
    assert(kids.subrange(1, k + 1) =~= n.kids.take(k));
    assert(kids.skip(k + 2) =~= n.kids.skip(k));
    assert forall|i: int| 0 <= i < k implies starts_null(#[trigger] n.kids[i]) by {
        assert(s[i + 1] == n.kids[i]);
    }
    nulls_leave_the_local(data, n, v, w, st, kids, k);
    let before = ran_all(data, v, w, st, kids, k + 1);
    assert(kids[k + 1] == put);
    assert(put.kids[0] == ir::var(w));
    assert(put.kids[1] == ir::var(v));
    assert(ran_all(data, v, w, st, kids, k + 2) == ran(data, v, w, before, put));
    k
}

proof fn leading_ones_are_null(s: Seq<ir::Node>, i: int)
    requires
        0 <= i <= s.len(),
    ensures
        i <= work_buffer::leading_nulls(s, i) <= s.len(),
        forall|j: int|
            i <= j < work_buffer::leading_nulls(s, i) ==> starts_null(#[trigger] s[j]),
    decreases s.len() - i,
{
    if i < s.len() && starts_null(s[i]) {
        leading_ones_are_null(s, i + 1);
    }
}

proof fn leading_nulls_is_past(s: Seq<ir::Node>)
    requires
        s.len() > 0,
        starts_null(s[0]),
    ensures
        work_buffer::leading_nulls(s, 0) >= 1,
{
    leading_ones_are_null(s, 1);
}

proof fn nulls_leave_the_local(
    data: &Data,
    n: ir::Node,
    v: u16,
    w: u16,
    st: Stores,
    kids: Seq<ir::Node>,
    k: int,
)
    requires
        v != w,
        0 <= k <= n.kids.len(),
        kids.len() >= k + 1,
        kids[0] == ir::assign(w, ir::leaf(ir::Head::Null)),
        forall|i: int| 0 <= i < k ==> #[trigger] n.kids[i] == kids[i + 1],
        forall|i: int|
            0 <= i < k ==> starts_null(#[trigger] n.kids[i]) && ir::unspan(n.kids[i]).head
                != ir::Head::Assign(v) && ir::unspan(n.kids[i]).head != ir::Head::Assign(w),
    ensures
        ran_all(data, v, w, st, kids, k + 1) == (Stores { handed: None, ..st }),
    decreases k,
{
    if k > 0 {
        nulls_leave_the_local(data, n, v, w, st, kids, k - 1);
        let before = ran_all(data, v, w, st, kids, k);
        assert(n.kids[k - 1] == kids[k]);
        ran_unspanned(data, v, w, before, kids[k]);
        assert(ran_all(data, v, w, st, kids, k + 1) == ran(data, v, w, before, kids[k]));
    } else {
        let start = ir::assign(w, ir::leaf(ir::Head::Null));
        assert(start.kids[0] == ir::leaf(ir::Head::Null));
        assert(ir::unspan(start.kids[0]) == start.kids[0]);
        assert(ran_all(data, v, w, st, kids, 0) == st);
        assert(ran_all(data, v, w, st, kids, 1) == ran(data, v, w, st, start));
    }
}

/// The choices by which a promoted declaration of `v` takes what was handed in, or a store of
/// its own.
pub open spec fn chooses(v: u16, ops: Ops) -> spec_fn(ir::Node) -> bool {
    |n: ir::Node|
        n.head is If && n.kids.len() == 3 && n.kids[0] == ir::call(
            ops.ref_is_null,
            seq![ir::var(v)],
        ) && n.kids[1].head is Insert && n.kids[1].kids.len() > 0
}

/// The code with the declaration itself in the place of every such choice: what it does where
/// nothing was handed in, but for the release before it.
pub open spec fn put_back(n: ir::Node, v: u16, ops: Ops) -> ir::Node
    decreases n, 0int,
{
    ir::Node { head: n.head, kids: put_back_kids(n.kids, n.kids.len() as int, v, ops) }
}

/// The first `k` nodes with the declaration in the place of every such choice.
pub open spec fn put_back_kids(s: Seq<ir::Node>, k: int, v: u16, ops: Ops) -> Seq<ir::Node>
    decreases s, k,
{
    if k <= 0 || k > s.len() {
        Seq::empty()
    } else {
        let before = put_back_kids(s, k - 1, v, ops);
        let n = s[k - 1];
        if chooses(v, ops)(n) {
            before + n.kids[1].kids.skip(1)
        } else {
            before.push(put_back(n, v, ops))
        }
    }
}

proof fn nothing_to_put_back(n: ir::Node, v: u16, ops: Ops)
    requires
        !ir::any(n, chooses(v, ops)),
    ensures
        put_back(n, v, ops) == n,
    decreases n, 1int,
{
    nothing_to_put_back_in(n.kids, n.kids.len() as int, v, ops);
    assert(n.kids.take(n.kids.len() as int) =~= n.kids);
}

proof fn nothing_to_put_back_in(s: Seq<ir::Node>, k: int, v: u16, ops: Ops)
    requires
        0 <= k <= s.len(),
        !ir::any_in(s, chooses(v, ops)),
    ensures
        put_back_kids(s, k, v, ops) == s.take(k),
    decreases s, k,
{
    if k > 0 {
        nothing_to_put_back_in(s, k - 1, v, ops);
        kid_is_clean(s, chooses(v, ops), k - 1);
        nothing_to_put_back(s[k - 1], v, ops);
        assert(s.take(k) =~= s.take(k - 1).push(s[k - 1]));
    } else {
        assert(s.take(0) =~= Seq::<ir::Node>::empty());
    }
}

proof fn put_back_front(s: Seq<ir::Node>, t: Seq<ir::Node>, k: int, v: u16, ops: Ops)
    requires
        0 <= k <= s.len(),
        k <= t.len(),
        forall|i: int| 0 <= i < k ==> #[trigger] s[i] == t[i],
    ensures
        put_back_kids(s, k, v, ops) == put_back_kids(t, k, v, ops),
    decreases k,
{
    if k > 0 {
        put_back_front(s, t, k - 1, v, ops);
        assert(s[k - 1] == t[k - 1]);
    }
}

/// What comes behind a choice is put back as it is.
proof fn put_back_behind(
    s: Seq<ir::Node>,
    t: Seq<ir::Node>,
    i: int,
    k: int,
    v: u16,
    ops: Ops,
)
    requires
        0 <= i,
        i + 1 <= k <= t.len(),
        k + 2 <= s.len(),
        !ir::any_in(s, chooses(v, ops)),
        put_back_kids(t, i + 1, v, ops) == s.take(i + 3),
        forall|j: int| i + 1 <= j < t.len() ==> #[trigger] t[j] == s[j + 2],
    ensures
        put_back_kids(t, k, v, ops) == s.take(k + 2),
    decreases k,
{
    if k > i + 1 {
        put_back_behind(s, t, i, k - 1, v, ops);
        assert(t[k - 1] == s[k + 1]);
        kid_is_clean(s, chooses(v, ops), k + 1);
        nothing_to_put_back(s[k + 1], v, ops);
        assert(s.take(k + 2) =~= s.take(k + 1).push(s[k + 1]));
    }
}

/// The promotion of a local changes the code at one declaration alone, and keeps it there for
/// where nothing was handed in: with it in the place of the choice the code is what it was.
pub proof fn a_promotion_keeps_the_rest_of_the_code(
    n: ir::Node,
    v: u16,
    db: u16,
    w: u16,
    ops: Ops,
)
    requires
        !ir::any(n, chooses(v, ops)),
        work_buffer::replaced(n, v, db, w, ops) is Some,
    ensures
        put_back(work_buffer::replaced(n, v, db, w, ops)->0, v, ops) == n,
        ir::count(work_buffer::replaced(n, v, db, w, ops)->0, chooses(v, ops)) >= 1,
    decreases n, 1int,
{
    let m = work_buffer::replaced(n, v, db, w, ops)->0;
    let s = n.kids;
    let here = if n.head is Block || n.head is Loop {
        work_buffer::first_trio(s, 0, v, db, ops)
    } else {
        None
    };
    match here {
        Some(i) => {
            trio_is_there(s, 0, v, db, ops);
            let trio = s.subrange(i, i + 3);
            let site = work_buffer::cleared(trio, v, w, ops);
            let t = s.take(i) + seq![site] + s.skip(i + 3);
            assert(m.kids == t);
            assert(site.kids[0] == ir::call(ops.ref_is_null, seq![ir::var(v)]));
            assert(site.kids[1].kids.skip(1) =~= trio);
            assert(chooses(v, ops)(site));
            put_back_front(t, s, i, v, ops);
            nothing_to_put_back_in(s, i, v, ops);
            assert(t[i] == site);
            assert(put_back_kids(t, i + 1, v, ops) =~= s.take(i + 3));
            put_back_behind(s, t, i, t.len() as int, v, ops);
            assert(s.take(t.len() as int + 2) =~= s);
            ir::any_counts(m, chooses(v, ops));
            site_is_in(t, chooses(v, ops), i);
        },
        None => {
            let (j, kid) = replaced_at(s, 0, v, db, w, ops);
            let t = s.update(j, kid);
            assert(m.kids == t);
            kid_is_clean(s, chooses(v, ops), j);
            a_promotion_keeps_the_rest_of_the_code(s[j], v, db, w, ops);
            replaced_is_alike(s[j], v, db, w, ops);
            put_back_front(t, s, j, v, ops);
            nothing_to_put_back_in(s, j, v, ops);
            assert(t[j] == kid);
            assert(!chooses(v, ops)(kid));
            assert(put_back_kids(t, j + 1, v, ops) =~= s.take(j + 1));
            put_back_rest(s, t, j, t.len() as int, v, ops);
            assert(s.take(s.len() as int) =~= s);
            ir::any_counts(kid, chooses(v, ops));
            ir::any_counts(m, chooses(v, ops));
            site_is_in(t, chooses(v, ops), j);
        },
    }
}

proof fn put_back_rest(
    s: Seq<ir::Node>,
    t: Seq<ir::Node>,
    j: int,
    k: int,
    v: u16,
    ops: Ops,
)
    requires
        0 <= j < k <= s.len(),
        t.len() == s.len(),
        !ir::any_in(s, chooses(v, ops)),
        put_back_kids(t, j + 1, v, ops) == s.take(j + 1),
        forall|i: int| j < i < t.len() ==> #[trigger] t[i] == s[i],
    ensures
        put_back_kids(t, k, v, ops) == s.take(k),
    decreases k,
{
    if k > j + 1 {
        put_back_rest(s, t, j, k - 1, v, ops);
        assert(t[k - 1] == s[k - 1]);
        kid_is_clean(s, chooses(v, ops), k - 1);
        nothing_to_put_back(s[k - 1], v, ops);
        assert(s.take(k) =~= s.take(k - 1).push(s[k - 1]));
    }
}

proof fn site_is_in(s: Seq<ir::Node>, p: spec_fn(ir::Node) -> bool, i: int)
    requires
        0 <= i < s.len(),
        ir::any(s[i], p),
    ensures
        ir::any_in(s, p),
{
    ir::any_step(s, p, i);
    ir::any_prefix(s, p, i + 1);
}

proof fn trio_is_there(s: Seq<ir::Node>, i: int, v: u16, db: u16, ops: Ops)
    requires
        0 <= i,
    ensures
        work_buffer::first_trio(s, i, v, db, ops) matches Some(k) ==> i <= k && k + 3 <= s.len(),
    decreases s.len() - i,
{
    if i < s.len() && !work_buffer::is_trio(s, i, v, db, ops) {
        trio_is_there(s, i + 1, v, db, ops);
    }
}

proof fn replaced_at(
    s: Seq<ir::Node>,
    i: int,
    v: u16,
    db: u16,
    w: u16,
    ops: Ops,
) -> (r: (int, ir::Node))
    requires
        0 <= i,
        work_buffer::replaced_in(s, i, v, db, w, ops) is Some,
    ensures
        work_buffer::replaced_in(s, i, v, db, w, ops) == Some(r),
        i <= r.0 < s.len(),
        work_buffer::replaced(s[r.0], v, db, w, ops) == Some(r.1),
    decreases s.len() - i,
{
    match work_buffer::replaced(s[i], v, db, w, ops) {
        Some(kid) => (i, kid),
        None => replaced_at(s, i + 1, v, db, w, ops),
    }
}

/// A node in which a declaration is replaced is no choice itself, unless it was one.
proof fn replaced_is_alike(n: ir::Node, v: u16, db: u16, w: u16, ops: Ops)
    requires
        !ir::any(n, chooses(v, ops)),
        work_buffer::replaced(n, v, db, w, ops) is Some,
    ensures
        !chooses(v, ops)(work_buffer::replaced(n, v, db, w, ops)->0),
{
    let m = work_buffer::replaced(n, v, db, w, ops)->0;
    if n.head is If {
        let (j, kid) = replaced_at(n.kids, 0, v, db, w, ops);
        assert(m.kids == n.kids.update(j, kid));
        if chooses(v, ops)(m) {
            if j == 0 {
                plain_calls_stay(n.kids[0], v, db, w, ops);
            } else {
                assert(m.kids[0] == n.kids[0]);
                if j == 1 {
                    kept_head(n.kids[1], v, db, w, ops);
                } else {
                    assert(m.kids[1] == n.kids[1]);
                }
            }
        }
    } else {
        kept_head(n, v, db, w, ops);
    }
}

proof fn kept_head(n: ir::Node, v: u16, db: u16, w: u16, ops: Ops)
    requires
        work_buffer::replaced(n, v, db, w, ops) is Some,
    ensures
        ({
            let m = work_buffer::replaced(n, v, db, w, ops)->0;
            m.head == n.head && (!(n.head is Block) && !(n.head is Loop) ==> m.kids.len()
                == n.kids.len())
        }),
{
    if !(n.head is Block) && !(n.head is Loop) {
        let (j, kid) = replaced_at(n.kids, 0, v, db, w, ops);
        assert(work_buffer::replaced(n, v, db, w, ops)->0.kids == n.kids.update(j, kid));
    }
}

/// A replaced node is no call on a plain variable.
proof fn plain_calls_stay(n: ir::Node, v: u16, db: u16, w: u16, ops: Ops)
    requires
        work_buffer::replaced(n, v, db, w, ops) is Some,
    ensures
        work_buffer::replaced(n, v, db, w, ops)->0 != ir::call(ops.ref_is_null, seq![ir::var(v)]),
{
    let m = work_buffer::replaced(n, v, db, w, ops)->0;
    let c = ir::call(ops.ref_is_null, seq![ir::var(v)]);
    if m == c {
        let (j, kid) = replaced_at(n.kids, 0, v, db, w, ops);
        assert(m.kids == n.kids.update(j, kid));
        assert(c.kids.len() == 1);
        assert(c.kids[0] == ir::var(v));
        assert(kid == ir::var(v));
        let n0 = n.kids[0];
        let here = if n0.head is Block || n0.head is Loop {
            work_buffer::first_trio(n0.kids, 0, v, db, ops)
        } else {
            None
        };
        if here is None {
            let (j0, kid0) = replaced_at(n0.kids, 0, v, db, w, ops);
            assert(kid.kids == n0.kids.update(j0, kid0));
        }
    }
}

} // verus!
