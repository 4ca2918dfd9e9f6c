//! What the loop of a comprehension does when it runs.

use crate::comprehensions::{self, EndView, Plan};
use crate::data::{self, Definition};
use crate::ir;
use crate::places;
use crate::schema;
use crate::types;
use crate::vector_store;
use vstd::prelude::*;

verus! {

/// How a statement ends: the next one runs, the next pass starts, or the loop is left.
pub enum Leave {
    On,
    Again,
    Out,
}

/// The statements that running `n` runs through, and how it ends.  `truth` tells which
/// conditions hold.
pub open spec fn run(truth: spec_fn(ir::Node) -> bool, n: ir::Node) -> (Seq<ir::Node>, Leave)
    decreases n, 0int,
{
    match n.head {
        ir::Head::Null => (Seq::empty(), Leave::On),
        ir::Head::Continue(_) => (Seq::empty(), Leave::Again),
        ir::Head::Break(_) => (Seq::empty(), Leave::Out),
        ir::Head::Span(_) => if n.kids.len() > 0 {
            run(truth, n.kids[0])
        } else {
            (seq![n], Leave::On)
        },
        ir::Head::If => if n.kids.len() != 3 {
            (seq![n], Leave::On)
        } else if truth(n.kids[0]) {
            run(truth, n.kids[1])
        } else {
            run(truth, n.kids[2])
        },
        ir::Head::Block(_, _) => run_from(truth, n.kids, 0),
        _ => (seq![n], Leave::On),
    }
}

/// The statements that running those from `i` on runs through, and how they end.
pub open spec fn run_from(truth: spec_fn(ir::Node) -> bool, s: Seq<ir::Node>, i: int) -> (
    Seq<ir::Node>,
    Leave,
)
    decreases s, s.len() - i,
{
    if i < 0 || i >= s.len() {
        (Seq::empty(), Leave::On)
    } else {
        let (first, leave) = run(truth, s[i]);
        match leave {
            Leave::On => {
                let (rest, end) = run_from(truth, s, i + 1);
                (first + rest, end)
            },
            _ => (first, leave),
        }
    }
}

/// How many of the statements pass `p`.
pub open spec fn tally(log: Seq<ir::Node>, p: spec_fn(ir::Node) -> bool) -> nat
    decreases log.len(),
{
    if log.len() == 0 {
        0
    } else {
        tally(log.drop_last(), p) + if p(log.last()) {
            1nat
        } else {
            0
        }
    }
}

/// The statements that assign to variable `v`.
pub open spec fn assigns_to(v: u16) -> spec_fn(ir::Node) -> bool {
    |n: ir::Node| n.head == ir::Head::Assign(v)
}

proof fn tally_both(a: Seq<ir::Node>, b: Seq<ir::Node>, p: spec_fn(ir::Node) -> bool)
    ensures
        tally(a + b, p) == tally(a, p) + tally(b, p),
    decreases b.len(),
{
    if b.len() == 0 {
        assert(a + b =~= a);
    } else {
        tally_both(a, b.drop_last(), p);
        assert((a + b).drop_last() =~= a + b.drop_last());
    }
}

proof fn tally_one(n: ir::Node, p: spec_fn(ir::Node) -> bool)
    ensures
        tally(seq![n], p) == if p(n) {
            1nat
        } else {
            0
        },
{
    assert(seq![n].drop_last() =~= Seq::<ir::Node>::empty());
    assert(tally(seq![n].drop_last(), p) == 0);
}

/// Statements that run one after the other.
proof fn run_both(truth: spec_fn(ir::Node) -> bool, a: Seq<ir::Node>, b: Seq<ir::Node>, i: int)
    requires
        0 <= i <= a.len(),
    ensures
        ({
            let (first, leave) = run_from(truth, a, i);
            run_from(truth, a + b, i) == match leave {
                Leave::On => (
                    first + run_from(truth, b, 0).0,
                    run_from(truth, b, 0).1,
                ),
                _ => (first, leave),
            }
        }),
    decreases a.len() - i,
{
    let s = a + b;
    if i == a.len() {
        run_behind(truth, a, b, 0);
        assert(run_from(truth, a, i).0 + run_from(truth, b, 0).0 =~= run_from(truth, b, 0).0);
    } else {
        assert(s[i] == a[i]);
        run_both(truth, a, b, i + 1);
        let (one, leave) = run(truth, a[i]);
        let (rest, end) = run_from(truth, a, i + 1);
        if leave is On && end is On {
            assert(one + (rest + run_from(truth, b, 0).0) =~= (one + rest) + run_from(
                truth,
                b,
                0,
            ).0);
        }
    }
}

proof fn run_behind(truth: spec_fn(ir::Node) -> bool, a: Seq<ir::Node>, b: Seq<ir::Node>, i: int)
    requires
        0 <= i <= b.len(),
    ensures
        run_from(truth, a + b, a.len() + i) == run_from(truth, b, i),
    decreases b.len() - i,
{
    if i < b.len() {
        assert((a + b)[a.len() + i] == b[i]);
        run_behind(truth, a, b, i + 1);
    }
}

/// Whether running a statement is running it alone.
spec fn plain(n: ir::Node) -> bool {
    n.head is Assign || n.head is Call || n.head is Null
}

proof fn plain_runs_on(truth: spec_fn(ir::Node) -> bool, s: Seq<ir::Node>, i: int)
    requires
        0 <= i <= s.len(),
        forall|j: int| 0 <= j < s.len() ==> plain(#[trigger] s[j]),
    ensures
        run_from(truth, s, i).1 is On,
        forall|k: int|
            0 <= k < run_from(truth, s, i).0.len() ==> exists|j: int|
                i <= j < s.len() && #[trigger] run_from(truth, s, i).0[k] == s[j],
    decreases s.len() - i,
{
    if i < s.len() {
        assert(plain(s[i]));
        plain_runs_on(truth, s, i + 1);
        let (first, leave) = run(truth, s[i]);
        let (rest, end) = run_from(truth, s, i + 1);
        let log = run_from(truth, s, i).0;
        assert(log == first + rest);
        assert forall|k: int| 0 <= k < log.len() implies exists|j: int|
            i <= j < s.len() && #[trigger] log[k] == s[j] by {
            if k < first.len() {
                assert(log[k] == s[i]);
            } else {
                assert(log[k] == rest[k - first.len()]);
                let j = choose|j: int| i + 1 <= j < s.len() && rest[k - first.len()] == s[j];
                assert(log[k] == s[j]);
            }
        }
    }
}

proof fn tally_none(log: Seq<ir::Node>, p: spec_fn(ir::Node) -> bool)
    requires
        forall|k: int| 0 <= k < log.len() ==> !p(#[trigger] log[k]),
    ensures
        tally(log, p) == 0,
    decreases log.len(),
{
    if log.len() > 0 {
        assert(!p(log[log.len() - 1]));
        assert forall|k: int| 0 <= k < log.drop_last().len() implies !p(
            #[trigger] log.drop_last()[k],
        ) by {
            assert(log.drop_last()[k] == log[k]);
        }
        tally_none(log.drop_last(), p);
    }
}

/// The loop of a comprehension: its statements, its parts, the variables of the element
/// and of the value of a pass, and what elements are added to.
pub struct Pass {
    pub lp: Seq<ir::Node>,
    pub end: Seq<ir::Node>,
    pub next: ir::Node,
    pub filter: ir::Node,
    pub body: ir::Node,
    pub elm: u16,
    pub comp: u16,
    pub into: ir::Node,
}

/// Whether a pass keeps its value: there is no filter, or it holds.
pub open spec fn keeps(c: Pass, truth: spec_fn(ir::Node) -> bool) -> bool {
    c.filter.head is Null || truth(c.filter)
}

/// Whether what runs before the filter leaves the variables of the pass alone.
pub open spec fn stands_apart(c: Pass, truth: spec_fn(ir::Node) -> bool) -> bool {
    &&& c.elm != c.comp
    &&& c.next.head matches ir::Head::Assign(v) && v != c.elm && v != c.comp
    &&& tally(run_from(truth, c.end, 0).0, assigns_to(c.elm)) == 0
    &&& tally(run_from(truth, c.end, 0).0, assigns_to(c.comp)) == 0
}

/// What a pass does.  Where the end is reached the loop is left and no element is made.
/// Elsewhere a pass whose filter holds evaluates the body once, makes one element of the
/// vector behind that, and ends by putting it in its place; one whose filter does not hold
/// goes on to the next pass, without body and element.
pub open spec fn adds_what_it_keeps(c: Pass, truth: spec_fn(ir::Node) -> bool) -> bool {
    let (log, leave) = run_from(truth, c.lp, 0);
    let over = !(run_from(truth, c.end, 0).1 is On);
    let kept = !over && keeps(c, truth);
    &&& log.len() > 0 && log[0] == c.next
    &&& leave == if over {
        run_from(truth, c.end, 0).1
    } else if kept {
        Leave::On
    } else {
        Leave::Again
    }
    &&& tally(log, assigns_to(c.elm)) == if kept {
        1nat
    } else {
        0
    }
    &&& tally(log, assigns_to(c.comp)) == if kept {
        1nat
    } else {
        0
    }
    &&& kept ==> exists|i: int, j: int|
        #![trigger log[i], log[j]]
        0 < i < j < log.len() - 1 && log[i] == ir::assign(c.comp, c.body) && (log[j].head
            == ir::Head::Assign(c.elm) && log[j].kids.len() == 1 && log[j].kids[0].head is Call
            && log[j].kids[0].kids.len() > 0 && log[j].kids[0].kids[0] == c.into) && (
        log.last().head is Call && log.last().kids.len() > 1 && log.last().kids[0] == c.into
            && log.last().kids[1] == ir::var(c.elm))
}

/// The loop of a comprehension adds one element for every pass whose filter holds, and none
/// for another.
pub proof fn a_pass_adds_what_the_filter_keeps(
    defs: Seq<Definition>,
    parts: Seq<ir::Node>,
    end: Seq<ir::Node>,
    in_t: types::Ty,
    into: ir::Node,
    elm: u16,
    comp: u16,
    known: u16,
    copy_tp: u16,
    truth: spec_fn(ir::Node) -> bool,
)
    requires
        stands_apart(
            (Pass {
                lp: comprehensions::loop_steps(
                    defs,
                    parts,
                    end,
                    in_t,
                    into,
                    elm,
                    comp,
                    known,
                    copy_tp,
                ),
                end,
                next: parts[2],
                filter: parts[3],
                body: parts[4],
                elm,
                comp,
                into,
            }),
            truth,
        ),
    ensures
        adds_what_it_keeps(
            (Pass {
                lp: comprehensions::loop_steps(
                    defs,
                    parts,
                    end,
                    in_t,
                    into,
                    elm,
                    comp,
                    known,
                    copy_tp,
                ),
                end,
                next: parts[2],
                filter: parts[3],
                body: parts[4],
                elm,
                comp,
                into,
            }),
            truth,
        ),
{
    let lp = comprehensions::loop_steps(defs, parts, end, in_t, into, elm, comp, known, copy_tp);
    let c = Pass {
        lp,
        end,
        next: parts[2],
        filter: parts[3],
        body: parts[4],
        elm,
        comp,
        into,
    };
    let next = seq![parts[2]];
    let filter = if parts[3].head is Null {
        Seq::empty()
    } else {
        seq![ir::choice(parts[3], ir::leaf(ir::Head::Null), ir::leaf(ir::Head::Continue(0)))]
    };
    let value = ir::assign(comp, parts[4]);
    let made = ir::assign(
        elm,
        ir::call(
            vector_store::op(defs, "OpNewRecord"@),
            seq![into, ir::int_value(known as i32), ir::int_value(0xffff)],
        ),
    );
    let room = seq![value, made];
    let write = comprehensions::element_written(defs, in_t, elm, comp, copy_tp);
    let finish = ir::call(
        vector_store::op(defs, "OpFinishRecord"@),
        seq![into, ir::var(elm), ir::int_value(known as i32), ir::int_value(0xffff)],
    );
    let done = seq![finish];
    let tail = room + write + done;
    assert(lp =~= next + (end + (filter + tail)));
    run_both(truth, next, end + (filter + tail), 0);
    run_both(truth, end, filter + tail, 0);
    run_both(truth, filter, tail, 0);
    run_both(truth, room + write, done, 0);
    run_both(truth, room, write, 0);
    assert(run(truth, parts[2]) == (seq![parts[2]], Leave::On));
    assert(next[0] == parts[2]);
    assert(run_from(truth, next, 1) == (Seq::<ir::Node>::empty(), Leave::On));
    assert(run_from(truth, next, 0).0 =~= next);
    let (at_end, left) = run_from(truth, end, 0);
    let log = run_from(truth, lp, 0).0;
    if !(left is On) {
        assert(log =~= next + at_end);
        tally_both(next, at_end, assigns_to(elm));
        tally_both(next, at_end, assigns_to(comp));
        tally_one(parts[2], assigns_to(elm));
        tally_one(parts[2], assigns_to(comp));
    } else {
        a_filter_decides(truth, parts[3]);
        if !keeps(c, truth) {
            assert(run_from(truth, filter, 0) == (Seq::<ir::Node>::empty(), Leave::Again));
            assert(run_from(truth, filter + tail, 0) == (Seq::<ir::Node>::empty(), Leave::Again));
            assert(run_from(truth, end + (filter + tail), 0).0 =~= at_end);
            assert(log =~= next + at_end);
            tally_both(next, at_end, assigns_to(elm));
            tally_both(next, at_end, assigns_to(comp));
            tally_one(parts[2], assigns_to(elm));
            tally_one(parts[2], assigns_to(comp));
        } else {
            plain_runs_on(truth, write, 0);
            assert(run(truth, made) == (seq![made], Leave::On));
            assert(run(truth, value) == (seq![value], Leave::On));
            assert(run(truth, finish) == (seq![finish], Leave::On));
            assert(room[0] == value && room[1] == made && done[0] == finish);
            assert(run_from(truth, room, 2) == (Seq::<ir::Node>::empty(), Leave::On));
            assert(run_from(truth, room, 1).0 =~= seq![made]);
            assert(run_from(truth, room, 0).0 =~= room);
            assert(run_from(truth, done, 1) == (Seq::<ir::Node>::empty(), Leave::On));
            assert(run_from(truth, done, 0).0 =~= done);
            let mid = run_from(truth, write, 0).0;
            let front = next + at_end;
            assert(run_from(truth, filter + tail, 0).0 =~= room + mid + done);
            assert(log =~= front + (room + (mid + done)));
            let i = front.len() as int;
            assert(log[i] == value);
            assert(log[i + 1] == made);
            assert(log.last() == finish);
            counts_once(front, value, made, mid, finish, elm, comp);
            assert forall|k: int| 0 <= k < mid.len() implies !(#[trigger] mid[k].head is Assign) by {
                let j = choose|j: int| 0 <= j < write.len() && mid[k] == write[j];
                assert(!(write[j].head is Assign));
            }
            tally_both(next, at_end, assigns_to(elm));
            tally_both(next, at_end, assigns_to(comp));
            tally_one(parts[2], assigns_to(elm));
            tally_one(parts[2], assigns_to(comp));
            tally_none(mid, assigns_to(elm));
            tally_none(mid, assigns_to(comp));
        }
    }
}

proof fn a_filter_decides(truth: spec_fn(ir::Node) -> bool, test: ir::Node)
    ensures
        ({
            let s = seq![
                ir::choice(test, ir::leaf(ir::Head::Null), ir::leaf(ir::Head::Continue(0))),
            ];
            run_from(truth, s, 0) == if truth(test) {
                (Seq::<ir::Node>::empty(), Leave::On)
            } else {
                (Seq::<ir::Node>::empty(), Leave::Again)
            }
        }),
        run_from(truth, Seq::<ir::Node>::empty(), 0) == (Seq::<ir::Node>::empty(), Leave::On),
{
    let n = ir::choice(test, ir::leaf(ir::Head::Null), ir::leaf(ir::Head::Continue(0)));
    let s = seq![n];
    assert(n.kids[0] == test);
    assert(n.kids[1] == ir::leaf(ir::Head::Null));
    assert(n.kids[2] == ir::leaf(ir::Head::Continue(0)));
    assert(run(truth, n.kids[1]) == (Seq::<ir::Node>::empty(), Leave::On));
    assert(run(truth, n.kids[2]) == (Seq::<ir::Node>::empty(), Leave::Again));
    assert(run(truth, n) == if truth(test) {
        run(truth, n.kids[1])
    } else {
        run(truth, n.kids[2])
    });
    assert(s[0] == n);
    assert(run_from(truth, s, 1) == (Seq::<ir::Node>::empty(), Leave::On));
    assert(run_from(truth, s, 0).0 =~= Seq::<ir::Node>::empty());
}

proof fn counts_once(
    front: Seq<ir::Node>,
    value: ir::Node,
    made: ir::Node,
    mid: Seq<ir::Node>,
    finish: ir::Node,
    elm: u16,
    comp: u16,
)
    requires
        elm != comp,
        value.head == ir::Head::Assign(comp),
        made.head == ir::Head::Assign(elm),
        finish.head is Call,
    ensures
        ({
            let log = front + (seq![value, made] + (mid + seq![finish]));
            &&& tally(log, assigns_to(elm)) == tally(front, assigns_to(elm)) + tally(
                mid,
                assigns_to(elm),
            ) + 1
            &&& tally(log, assigns_to(comp)) == tally(front, assigns_to(comp)) + tally(
                mid,
                assigns_to(comp),
            ) + 1
        }),
{
    one_of(front, value, made, mid, finish, assigns_to(elm));
    one_of(front, value, made, mid, finish, assigns_to(comp));
}

proof fn one_of(
    front: Seq<ir::Node>,
    value: ir::Node,
    made: ir::Node,
    mid: Seq<ir::Node>,
    finish: ir::Node,
    p: spec_fn(ir::Node) -> bool,
)
    ensures
        tally(front + (seq![value, made] + (mid + seq![finish])), p) == tally(front, p) + tally(
            seq![value],
            p,
        ) + tally(seq![made], p) + tally(mid, p) + tally(seq![finish], p),
        tally(seq![value], p) == if p(value) {
            1nat
        } else {
            0
        },
        tally(seq![made], p) == if p(made) {
            1nat
        } else {
            0
        },
        tally(seq![finish], p) == if p(finish) {
            1nat
        } else {
            0
        },
{
    tally_both(front, seq![value, made] + (mid + seq![finish]), p);
    tally_both(seq![value, made], mid + seq![finish], p);
    tally_both(mid, seq![finish], p);
    assert(seq![value, made] =~= seq![value] + seq![made]);
    tally_both(seq![value], seq![made], p);
    tally_one(value, p);
    tally_one(made, p);
    tally_one(finish, p);
}

/// The elements that the first `k` passes add; `truth` tells for each of them which
/// conditions hold.
pub open spec fn elements_of(
    c: Pass,
    truth: spec_fn(int) -> spec_fn(ir::Node) -> bool,
    k: int,
) -> nat
    decreases k,
{
    if k <= 0 {
        0
    } else {
        elements_of(c, truth, k - 1) + tally(
            run_from(truth(k - 1), c.lp, 0).0,
            assigns_to(c.elm),
        )
    }
}

/// How many of the first `k` passes are kept.
pub open spec fn passes_kept(
    c: Pass,
    truth: spec_fn(int) -> spec_fn(ir::Node) -> bool,
    k: int,
) -> nat
    decreases k,
{
    if k <= 0 {
        0
    } else {
        passes_kept(c, truth, k - 1) + if keeps(c, truth(k - 1)) {
            1nat
        } else {
            0
        }
    }
}

/// A loop of so many passes, none of which reaches the end, adds as many elements as there
/// are passes whose filter holds.
pub proof fn a_loop_adds_the_passes_that_are_kept(
    c: Pass,
    truth: spec_fn(int) -> spec_fn(ir::Node) -> bool,
    k: int,
)
    requires
        0 <= k,
        forall|p: int|
            0 <= p < k ==> adds_what_it_keeps(c, #[trigger] truth(p)) && run_from(
                truth(p),
                c.end,
                0,
            ).1 is On,
    ensures
        elements_of(c, truth, k) == passes_kept(c, truth, k),
    decreases k,
{
    if k > 0 {
        a_loop_adds_the_passes_that_are_kept(c, truth, k - 1);
        let t = truth(k - 1);
        assert(adds_what_it_keeps(c, t));
    }
}

/// Where a loop ends by a test of its variable it is left exactly when the negation of that
/// test holds, and where it asks a generator exactly when that is exhausted.
pub proof fn a_loop_is_left_when_its_source_is_done(
    defs: Seq<Definition>,
    end: EndView,
    next: ir::Node,
    truth: spec_fn(ir::Node) -> bool,
)
    ensures
        end matches EndView::Test(v) ==> run_from(
            truth,
            comprehensions::ended(defs, end, next),
            0,
        ) == if truth(ir::call(vector_store::op(defs, "OpNot"@), seq![v])) {
            (Seq::<ir::Node>::empty(), Leave::Out)
        } else {
            (Seq::<ir::Node>::empty(), Leave::On)
        },
        end is Generator && ir::unspan(next).head is Assign && ir::unspan(next).kids.len() > 0
            && (ir::unspan(ir::unspan(next).kids[0]).head is Call && ir::unspan(
            ir::unspan(next).kids[0],
        ).kids.len() > 0) && (ir::unspan(
            ir::unspan(ir::unspan(next).kids[0]).kids[0],
        ).head matches ir::Head::Var(g) && g != u16::MAX) ==> run_from(
            truth,
            comprehensions::ended(defs, end, next),
            0,
        ) == if truth(
            ir::call(
                vector_store::op(defs, "OpCoroutineExhausted"@),
                seq![
                    ir::leaf(ir::unspan(ir::unspan(ir::unspan(next).kids[0]).kids[0]).head),
                ],
            ),
        ) {
            (Seq::<ir::Node>::empty(), Leave::Out)
        } else {
            (Seq::<ir::Node>::empty(), Leave::On)
        },
{
    match end {
        EndView::Test(v) => {
            leaving(truth, ir::call(vector_store::op(defs, "OpNot"@), seq![v]));
        },
        EndView::Generator => {
            match comprehensions::generator(next) {
                Some(g) => {
                    leaving(
                        truth,
                        ir::call(
                            vector_store::op(defs, "OpCoroutineExhausted"@),
                            seq![ir::var(g)],
                        ),
                    );
                },
                None => {},
            }
        },
        _ => {},
    }
}

proof fn leaving(truth: spec_fn(ir::Node) -> bool, test: ir::Node)
    ensures
        run_from(truth, seq![comprehensions::left_when(test)], 0) == if truth(test) {
            (Seq::<ir::Node>::empty(), Leave::Out)
        } else {
            (Seq::<ir::Node>::empty(), Leave::On)
        },
{
    let n = comprehensions::left_when(test);
    let s = seq![n];
    let out = seq![ir::leaf(ir::Head::Break(0))];
    assert(n.kids[0] == test);
    assert(n.kids[1] == ir::block("break"@, out, types::Ty::Void));
    assert(n.kids[2] == ir::leaf(ir::Head::Null));
    assert(run(truth, out[0]) == (Seq::<ir::Node>::empty(), Leave::Out));
    assert(run_from(truth, out, 0) == (Seq::<ir::Node>::empty(), Leave::Out));
    assert(run(truth, n.kids[1]) == run_from(truth, out, 0));
    assert(run(truth, n) == if truth(test) {
        run(truth, n.kids[1])
    } else {
        run(truth, n.kids[2])
    });
    assert(s[0] == n);
    assert(run(truth, n.kids[2]) == (Seq::<ir::Node>::empty(), Leave::On));
    assert(run_from(truth, s, 1) == (Seq::<ir::Node>::empty(), Leave::On));
    assert(run_from(truth, s, 0).0 =~= Seq::<ir::Node>::empty());
}

/// The loops with these statements.
pub open spec fn loops_over(lp: Seq<ir::Node>) -> spec_fn(ir::Node) -> bool {
    |n: ir::Node| n.head is Loop && n.kids == lp
}

proof fn stands_in(s: Seq<ir::Node>, p: spec_fn(ir::Node) -> bool, i: int)
    requires
        0 <= i < s.len(),
        p(s[i]),
    ensures
        ir::any_in(s, p),
{
    ir::any_step(s, p, i);
    ir::any_prefix(s, p, i + 1);
}

/// A comprehension that is built as a loop holds a loop that adds, in every pass whose
/// filter holds, the value of its body to the vector that is built: to the one that is
/// bound at the end where that is put off, and to the destination otherwise.
pub proof fn a_comprehension_adds_what_the_filter_keeps(
    defs: Seq<Definition>,
    s: Seq<schema::TypeView>,
    f: data::FnView,
    p: Plan,
    parts: Seq<ir::Node>,
    t: types::Ty,
) -> (lp: Seq<ir::Node>)
    requires
        parts.len() == 5,
    ensures
        ir::any(comprehensions::comprehended(defs, s, f, p, parts, t).2, loops_over(lp)),
        ({
            let made = data::created(
                f,
                "_comp_"@,
                comprehensions::pass_type(f, parts[4], p.in_t),
            );
            let (g, d, read) = comprehensions::deferred(defs, made, p, parts);
            forall|truth: spec_fn(ir::Node) -> bool|
                #![trigger run_from(truth, lp, 0)]
                {
                    let c = Pass {
                        lp,
                        end: comprehensions::ended_over(defs, p, d, parts[2]),
                        next: read[2],
                        filter: read[3],
                        body: read[4],
                        elm: p.elm,
                        comp: f.vars.len() as u16,
                        into: match d {
                            Some(d) => d.handle,
                            None => p.vec_expr,
                        },
                    };
                    stands_apart(c, truth) ==> adds_what_it_keeps(c, truth)
                }
        }),
{
    let (s1, known) = comprehensions::vector_type(s, defs, p.in_t);
    let comp = f.vars.len() as u16;
    let f1 = data::created(f, "_comp_"@, comprehensions::pass_type(f, parts[4], p.in_t));
    let (f2, d, rest) = comprehensions::deferred(defs, f1, p, parts);
    let end = comprehensions::ended_over(defs, p, d, parts[2]);
    let into = match d {
        Some(d) => d.handle,
        None => p.vec_expr,
    };
    let (s2, copy_tp) = comprehensions::copy_type(s1, defs, p.in_t);
    let lp = comprehensions::loop_steps(
        defs,
        rest,
        end,
        p.in_t,
        into,
        p.elm,
        comp,
        known,
        copy_tp,
    );
    let (f3, front, t1) = comprehensions::block_made(defs, f2, p, t);
    let steps = comprehensions::for_steps(rest, p.pre_var, lp);
    let (f4, all) = comprehensions::bound(defs, f3, p, d, front + steps);
    let code = comprehensions::comprehended(defs, s, f, p, parts, t).2;
    let looping = loops_over(lp);
    let last = steps.len() - 1;
    assert(steps[last] == ir::looped("For comprehension"@, lp, types::Ty::Void));
    assert(looping(steps[last]));
    assert((front + steps)[front.len() + last] == steps[last]);
    let i = held_at(defs, f3, p, d, front + steps, front.len() + last);
    assert(all[i] == steps[last]);
    let body = code.kids;
    assert(body[i] == all[i]);
    stands_in(body, looping, i);
    assert forall|truth: spec_fn(ir::Node) -> bool|
        #![trigger run_from(truth, lp, 0)]
        ({
            let c = Pass {
                lp,
                end,
                next: rest[2],
                filter: rest[3],
                body: rest[4],
                elm: p.elm,
                comp,
                into,
            };
            stands_apart(c, truth) ==> adds_what_it_keeps(c, truth)
        }) by {
        let c = Pass {
            lp,
            end,
            next: rest[2],
            filter: rest[3],
            body: rest[4],
            elm: p.elm,
            comp,
            into,
        };
        if stands_apart(c, truth) {
            a_pass_adds_what_the_filter_keeps(
                defs,
                rest,
                end,
                p.in_t,
                into,
                p.elm,
                comp,
                known,
                copy_tp,
                truth,
            );
        }
    }
    lp
}

/// Where a statement stands once the vector is bound.
proof fn held_at(
    defs: Seq<Definition>,
    f: data::FnView,
    p: Plan,
    d: Option<comprehensions::Deferred>,
    steps: Seq<ir::Node>,
    at: int,
) -> (i: int)
    requires
        0 <= at < steps.len(),
    ensures
        0 <= i < comprehensions::bound(defs, f, p, d, steps).1.len(),
        comprehensions::bound(defs, f, p, d, steps).1[i] == steps[at],
{
    let all = comprehensions::bound(defs, f, p, d, steps).1;
    match d {
        Some(d) => {
            let i = d.alloc.len() + at;
            assert(all[i] == steps[at]);
            i
        },
        None => {
            let i = all.len() - steps.len() + at;
            assert(all[i] == steps[at]);
            i
        },
    }
}

/// How many of the first `k` passes over constants are kept.
pub open spec fn constants_kept(filtered: bool, filters: Seq<Option<bool>>, k: int) -> nat
    decreases k,
{
    if k <= 0 {
        0
    } else {
        constants_kept(filtered, filters, k - 1) + if !filtered || filters[k - 1] == Some(true) {
            1nat
        } else {
            0
        }
    }
}

/// A comprehension over constants comes to the values of the passes whose filter holds, in
/// the order of the passes.
pub proof fn constants_come_to_the_passes_that_are_kept(
    filtered: bool,
    filters: Seq<Option<bool>>,
    values: Seq<Option<ir::Node>>,
    k: int,
    p: int,
)
    requires
        0 <= p < k,
        comprehensions::unrolled(filtered, filters, values, k) is Some,
    ensures
        comprehensions::unrolled(filtered, filters, values, k)->0.len() == constants_kept(
            filtered,
            filters,
            k,
        ),
        !filtered || filters[p] == Some(true) ==> constants_kept(filtered, filters, p)
            < constants_kept(filtered, filters, k) && Some(
            comprehensions::unrolled(filtered, filters, values, k)->0[constants_kept(
                filtered,
                filters,
                p,
            ) as int],
        ) == values[p],
        filtered ==> filters[p] is Some,
    decreases k,
{
    let before = comprehensions::unrolled(filtered, filters, values, k - 1);
    let kept = constants_kept(filtered, filters, k - 1);
    assert(k == 1 ==> before == Some(Seq::<ir::Node>::empty()) && kept == 0);
    let all = comprehensions::unrolled(filtered, filters, values, k);
    match filters[k - 1] {
        Some(b) => {
            if b {
                assert(filters[k - 1] == Some(true));
            } else {
                assert(filters[k - 1] == Some(false));
            }
        },
        None => {},
    }
    match comprehensions::pass(filtered, filters, values, k - 1) {
        comprehensions::Pass::Skipped => {
            assert(all == before);
        },
        comprehensions::Pass::Element(v) => {
            assert(all == Some(before->0.push(v)));
        },
        comprehensions::Pass::Open => {},
    }
    if p < k - 1 {
        constants_come_to_the_passes_that_are_kept(filtered, filters, values, k - 1, p);
    } else if k > 1 {
        constants_come_to_the_passes_that_are_kept(filtered, filters, values, k - 1, 0);
    }
}

/// Whether a statement binds variable `v`.
pub open spec fn binds(n: ir::Node, v: u16) -> bool {
    ir::unspan(n).head == ir::Head::Assign(v)
}

proof fn one_statement_binds(
    defs: Seq<Definition>,
    f: data::FnView,
    v: u16,
    h: vector_store::Holder,
    slot: i32,
    i: int,
    j: int,
)
    requires
        0 <= i < vector_store::record_steps(defs, f, v, h, slot, false).len(),
        0 <= j < vector_store::record_steps(defs, f, v, h, slot, false).len(),
        binds(vector_store::record_steps(defs, f, v, h, slot, false)[i], v),
        binds(vector_store::record_steps(defs, f, v, h, slot, false)[j], v),
    ensures
        i == j,
{
    let db = f.vars.len() as u16;
    let all = vector_store::record_steps(defs, f, v, h, slot, false);
    let three = vector_store::trio(defs, v, db, h, slot);
    assert(three.len() == 3);
    assert(!binds(three[0], v));
    assert(!binds(three[2], v));
    match f.vars[v as int].rebind_orig {
        Some(_) => {
            assert(all.len() == 4);
            assert(!binds(all[0], v));
            assert(all[1] == three[0]);
            assert(all[3] == three[2]);
        },
        None => {
            assert(all =~= three);
        },
    }
}

proof fn others_bind_nothing(
    defs: Seq<Definition>,
    f: data::FnView,
    v: u16,
    h: vector_store::Holder,
    slot: i32,
    w: u16,
    i: int,
)
    requires
        v != w,
        0 <= i < vector_store::record_steps(defs, f, v, h, slot, false).len(),
    ensures
        !binds(vector_store::record_steps(defs, f, v, h, slot, false)[i], w),
{
    let db = f.vars.len() as u16;
    let all = vector_store::record_steps(defs, f, v, h, slot, false);
    let three = vector_store::trio(defs, v, db, h, slot);
    assert(three.len() == 3);
    match f.vars[v as int].rebind_orig {
        Some(_) => {
            assert(all.len() == 4);
            if i > 0 {
                assert(all[i] == three[i - 1]);
            }
        },
        None => {
            assert(all =~= three);
        },
    }
}

proof fn the_first_bind(s: Seq<ir::Node>, v: u16, i: int)
    requires
        0 <= i,
    ensures
        comprehensions::bind_from(s, v, i) matches Some(k) ==> i <= k < s.len() && binds(s[k], v),
    decreases s.len() - i,
{
    if i < s.len() && !binds(s[i], v) {
        the_first_bind(s, v, i + 1);
    }
}

/// A comprehension that reads the vector that it replaces leaves it bound as it is until its
/// own is built: nothing that is made ready for it binds the variable, and what it is bound to
/// behind the loop is what the made vector would have been bound to before it.
pub proof fn a_replaced_vector_is_bound_last(
    defs: Seq<Definition>,
    f: data::FnView,
    p: comprehensions::Plan,
    parts: Seq<ir::Node>,
    steps: Seq<ir::Node>,
)
    requires
        comprehensions::deferred(defs, f, p, parts).1 is Some,
        p.vec < f.vars.len() < u16::MAX,
        forall|j: int| 0 <= j < steps.len() ==> !binds(#[trigger] steps[j], p.vec),
    ensures
        ({
            let d = comprehensions::deferred(defs, f, p, parts).1->0;
            let all = comprehensions::bound(defs, f, p, Some(d), steps).1;
            let made = vector_store::record_steps(defs, f, p.vec, p.holder, 0, false);
            &&& all.len() > 0 && all.last() == ir::assign(p.vec, d.handle)
            &&& forall|j: int| 0 <= j < all.len() - 1 ==> !binds(#[trigger] all[j], p.vec)
            &&& exists|i: int|
                0 <= i < made.len() && binds(#[trigger] made[i], p.vec) && ir::unspan(
                    made[i],
                ).kids[0] == d.handle
            &&& all.subrange(d.alloc.len() as int, all.len() - 1) == steps
        }),
{
    let d = comprehensions::deferred(defs, f, p, parts).1->0;
    let all = comprehensions::bound(defs, f, p, Some(d), steps).1;
    let made = vector_store::record_steps(defs, f, p.vec, p.holder, 0, false);
    let none = Seq::<ir::Node>::empty();
    let ready = if vector_store::no_record(f, p.vec, false) {
        none
    } else {
        made
    };
    the_first_bind(ready, p.vec, 0);
    let i = comprehensions::bind_from(ready, p.vec, 0)->0;
    assert(ready == made);
    assert(binds(made[i], p.vec));
    let rest = made.remove(i);
    assert forall|j: int| 0 <= j < rest.len() implies !binds(#[trigger] rest[j], p.vec) by {
        if binds(rest[j], p.vec) {
            let k = if j < i {
                j
            } else {
                j + 1
            };
            assert(rest[j] == made[k]);
            one_statement_binds(defs, f, p.vec, p.holder, 0, i, k);
        }
    }
    assert forall|j: int| 0 <= j < d.alloc.len() implies !binds(#[trigger] d.alloc[j], p.vec) by {
        match d.copy {
            Some(src) => {
                let g = vector_store::with_record(f, p.vec, p.holder, false).0;
                let h = places::with_copy(g, p.in_t);
                let snap = places::snapshot_steps(
                    defs,
                    h,
                    p.holder,
                    src,
                    ir::var(p.vec),
                    p.elem_tp,
                );
                assert(src == g.vars.len() as u16);
                assert(d.alloc == snap + rest);
                if j < snap.len() {
                    if j < snap.len() - 1 {
                        others_bind_nothing(defs, h, src, p.holder, 0, p.vec, j);
                    }
                } else {
                    assert(d.alloc[j] == rest[j - snap.len()]);
                }
            },
            None => {
                assert(d.alloc == rest);
            },
        }
    }
    let last = seq![ir::assign(p.vec, d.handle)];
    assert(all =~= d.alloc + steps + last);
    assert forall|j: int| 0 <= j < all.len() - 1 implies !binds(#[trigger] all[j], p.vec) by {
        if j < d.alloc.len() {
            assert(all[j] == d.alloc[j]);
        } else {
            assert(all[j] == steps[j - d.alloc.len()]);
        }
    }
    assert(all.subrange(d.alloc.len() as int, all.len() - 1) =~= steps);
}

} // verus!
