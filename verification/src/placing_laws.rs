//! What holds of a record that is built where it will live, on every way through the code.

use crate::data::{self, Data, Definition, Function};
use crate::ir;
use crate::place_laws;
use crate::place_result::{self, Bind, Flow, Mode, Ops, PlanView, Pos, St, Trace, Why};
use crate::text;
use crate::types;
use vstd::prelude::*;

verus! {

/// Whether a node is variable `w`, source positions aside.
pub open spec fn is_var(n: ir::Node, w: u16) -> bool {
    ir::unspan(n).head == ir::Head::Var(w)
}

/// A record literal that ends in variable `buf`.
pub open spec fn literal_in(n: ir::Node, buf: u16) -> bool {
    let m = ir::unspan(n);
    &&& m.head matches ir::Head::Block(name, _) && name == "Object"@
    &&& m.kids.len() > 0
    &&& is_var(m.kids.last(), buf)
}

/// The returns that answer neither variable `buf` nor a record literal that ends in it.
pub open spec fn answers_elsewhere(buf: u16) -> spec_fn(ir::Node) -> bool {
    |n: ir::Node|
        n.head is Return && n.kids.len() > 0 && !is_var(n.kids[0], buf) && !literal_in(
            n.kids[0],
            buf,
        )
}

/// The nodes with a bare return of variable `buf` in them that are not a record literal
/// which builds into `buf` and ends in that return.
pub open spec fn returns_bare(buf: u16) -> spec_fn(ir::Node) -> bool {
    |n: ir::Node|
        !(n.head is Span) && exists|i: int|
            0 <= i < n.kids.len() && ir::unspan(#[trigger] n.kids[i]).head is Return && ir::unspan(
                n.kids[i],
            ).kids.len() > 0 && is_var(ir::unspan(n.kids[i]).kids[0], buf) && !(i == n.kids.len()
                - 1 && (n.head matches ir::Head::Block(name, t) && name == "Object"@
                && types::depend(t) == seq![buf]))
}

/// Whether a function answers nothing but literals that it builds into its variable `buf`:
/// so does every return in it, wherever it stands, and its last statement.
pub open spec fn answers_its_buffer(code: ir::Node, buf: u16) -> bool {
    let body = ir::unspan(code);
    &&& !ir::any(code, answers_elsewhere(buf))
    &&& !ir::any(code, returns_bare(buf))
    &&& body.head is Block
    &&& body.kids.len() > 0
    &&& {
        let last = ir::unspan(body.kids.last());
        ||| literal_in(last, buf)
        ||| last.head is Return
        ||| last.head matches ir::Head::Block(name, t) && name == "Object"@ && types::depend(t)
            == seq![buf] && last.kids.len() > 0 && ir::unspan(last.kids.last()).head is Return
    }
}

spec fn all_good(s: Seq<bool>) -> bool {
    forall|i: int| 0 <= i < s.len() ==> #[trigger] s[i]
}

proof fn holds_in(s: Seq<ir::Node>, p: spec_fn(ir::Node) -> bool, i: int)
    requires
        0 <= i < s.len(),
        ir::any(s[i], p),
    ensures
        ir::any_in(s, p),
{
    ir::any_step(s, p, i);
    ir::any_prefix(s, p, i + 1);
}

proof fn held_at(s: Seq<ir::Node>, p: spec_fn(ir::Node) -> bool) -> (i: int)
    requires
        ir::any_in(s, p),
    ensures
        0 <= i < s.len(),
        ir::any(s[i], p),
    decreases s.len(),
{
    if ir::any(s.last(), p) {
        s.len() - 1
    } else {
        held_at(s.drop_last(), p)
    }
}

proof fn shaped_below(n: ir::Node, i: int)
    requires
        place_laws::shaped(n),
        0 <= i < n.kids.len(),
    ensures
        place_laws::shaped(n.kids[i]),
{
    if ir::any(n.kids[i], place_laws::misshapen()) {
        holds_in(n.kids, place_laws::misshapen(), i);
    }
}

/// In a return of `buf` nothing else is returned.
proof fn a_bare_return_is_all(n: ir::Node, buf: u16)
    requires
        place_laws::shaped(n),
        ir::unspan(n).head is Return,
        is_var(ir::unspan(n).kids[0], buf),
    ensures
        !ir::any(n, answers_elsewhere(buf)),
        !ir::any(n, returns_bare(buf)),
    decreases n,
{
    let p = answers_elsewhere(buf);
    let q = returns_bare(buf);
    assert(!place_laws::misshapen()(n));
    assert(n.kids.len() == 1);
    shaped_below(n, 0);
    if n.head is Span {
        a_bare_return_is_all(n.kids[0], buf);
    } else {
        a_bare_variable_is_all(n.kids[0], buf);
    }
    assert(!p(n));
    assert(!q(n));
    if ir::any_in(n.kids, p) {
        let i = held_at(n.kids, p);
    }
    if ir::any_in(n.kids, q) {
        let i = held_at(n.kids, q);
    }
}

proof fn a_bare_variable_is_all(n: ir::Node, buf: u16)
    requires
        place_laws::shaped(n),
        is_var(n, buf),
    ensures
        !ir::any(n, answers_elsewhere(buf)),
        !ir::any(n, returns_bare(buf)),
        !(ir::unspan(n).head is Return),
    decreases n,
{
    let p = answers_elsewhere(buf);
    let q = returns_bare(buf);
    assert(!place_laws::misshapen()(n));
    if n.head is Span {
        shaped_below(n, 0);
        a_bare_variable_is_all(n.kids[0], buf);
    }
    if ir::any_in(n.kids, p) {
        let i = held_at(n.kids, p);
    }
    if ir::any_in(n.kids, q) {
        let i = held_at(n.kids, q);
    }
}

/// Code whose exits are all good returns nothing else, unless it is a bare return itself.
proof fn good_exits_answer_the_buffer(n: ir::Node, buf: u16)
    requires
        place_laws::shaped(n),
        all_good(place_result::exits(n, buf)),
    ensures
        !ir::any(n, answers_elsewhere(buf)),
        !ir::any(n, returns_bare(buf)),
        !(ir::unspan(n).head is Return && is_var(ir::unspan(n).kids[0], buf)),
    decreases n, 1int,
{
    let p = answers_elsewhere(buf);
    let q = returns_bare(buf);
    let k = n.kids.len() as int;
    let all = place_result::exits(n, buf);
    assert(!place_laws::misshapen()(n));
    if n.head is Span && k > 0 {
        shaped_below(n, 0);
        good_exits_answer_the_buffer(n.kids[0], buf);
    } else if n.head is Return && k > 0 {
        let inner = place_result::exits_in(n.kids, k, buf);
        let good = place_result::literal_var(n.kids[0]) == Some(buf);
        assert(all == seq![good] + inner);
        assert(all[0] == good);
        assert forall|i: int| 0 <= i < inner.len() implies #[trigger] inner[i] by {
            assert(all[i + 1] == inner[i]);
        }
        good_exits_answer_the_buffer_in(n, k, buf);
        assert(literal_in(n.kids[0], buf));
    } else if place_result::returns_buffer(n, buf) {
        let inner = place_result::exits_in(n.kids, k - 1, buf);
        assert(all == seq![true] + inner);
        assert forall|i: int| 0 <= i < inner.len() implies #[trigger] inner[i] by {
            assert(all[i + 1] == inner[i]);
        }
        good_exits_answer_the_buffer_in(n, k - 1, buf);
        shaped_below(n, k - 1);
        a_bare_return_is_all(n.kids[k - 1], buf);
    } else {
        good_exits_answer_the_buffer_in(n, k, buf);
    }
    assert(!p(n));
    assert(!q(n));
    if ir::any_in(n.kids, p) {
        let i = held_at(n.kids, p);
    }
    if ir::any_in(n.kids, q) {
        let i = held_at(n.kids, q);
    }
}

proof fn good_exits_answer_the_buffer_in(n: ir::Node, k: int, buf: u16)
    requires
        place_laws::shaped(n),
        0 <= k <= n.kids.len(),
        all_good(place_result::exits_in(n.kids, k, buf)),
    ensures
        forall|i: int|
            0 <= i < k ==> !ir::any(#[trigger] n.kids[i], answers_elsewhere(buf)) && !ir::any(
                n.kids[i],
                returns_bare(buf),
            ) && !(ir::unspan(n.kids[i]).head is Return && is_var(
                ir::unspan(n.kids[i]).kids[0],
                buf,
            )),
    decreases n, 0int, k,
{
    if k > 0 {
        let before = place_result::exits_in(n.kids, k - 1, buf);
        let more = place_result::exits(n.kids[k - 1], buf);
        let all = place_result::exits_in(n.kids, k, buf);
        assert(all == before + more);
        assert forall|i: int| 0 <= i < before.len() implies #[trigger] before[i] by {
            assert(all[i] == before[i]);
        }
        assert forall|i: int| 0 <= i < more.len() implies #[trigger] more[i] by {
            assert(all[before.len() + i] == more[i]);
        }
        good_exits_answer_the_buffer_in(n, k - 1, buf);
        shaped_below(n, k - 1);
        good_exits_answer_the_buffer(n.kids[k - 1], buf);
    }
}

proof fn any_below_spans(n: ir::Node, p: spec_fn(ir::Node) -> bool)
    requires
        place_laws::shaped(n),
        !ir::any(ir::unspan(n), p),
        forall|m: ir::Node| #[trigger] p(m) ==> !(m.head is Span),
    ensures
        !ir::any(n, p),
    decreases n,
{
    if n.head is Span && n.kids.len() > 0 {
        assert(!place_laws::misshapen()(n));
        shaped_below(n, 0);
        any_below_spans(n.kids[0], p);
        if ir::any_in(n.kids, p) {
            let i = held_at(n.kids, p);
        }
    }
}

proof fn shaped_under(n: ir::Node)
    requires
        place_laws::shaped(n),
    ensures
        place_laws::shaped(ir::unspan(n)),
    decreases n,
{
    if n.head is Span && n.kids.len() > 0 {
        shaped_below(n, 0);
        shaped_under(n.kids[0]);
    }
}

/// A function that is said to build into the buffer it is handed answers nothing else, at
/// any return.
pub proof fn a_builder_answers_its_buffer(data: Data, f: u32, at: int)
    requires
        f < data.definitions.len(),
        place_result::builds_into_buffer(data.definitions@, f, at),
    ensures
        answers_its_buffer(
            data.definitions@[f as int].code@,
            data.definitions@[f as int].variables.var_named("__retbuf"@),
        ),
{
    let def = data.definitions@[f as int];
    let buf = def.variables.var_named("__retbuf"@);
    let code = def.code@;
    let body = ir::unspan(code);
    let n = body.kids.len() as int;
    place_laws::values_are_shaped(def.code);
    shaped_under(code);
    unspanned_once(code);
    unspanned_once(body.kids[n - 1]);
    let p = answers_elsewhere(buf);
    let q = returns_bare(buf);
    if place_result::yields_buffer(body.kids[n - 1], buf) {
        let all = place_result::exits_in(body.kids, n, buf);
        good_exits_answer_the_buffer_in(body, n, buf);
        assert(!p(body) && !q(body));
        if ir::any_in(body.kids, p) {
            let i = held_at(body.kids, p);
        }
        if ir::any_in(body.kids, q) {
            let i = held_at(body.kids, q);
        }
    } else {
        good_exits_answer_the_buffer(body, buf);
    }
    any_below_spans(code, p);
    any_below_spans(code, q);
}

proof fn unspanned_once(n: ir::Node)
    ensures
        ir::unspan(ir::unspan(n)) == ir::unspan(n),
    decreases n,
{
    if n.head is Span && n.kids.len() > 0 {
        unspanned_once(n.kids[0]);
    }
}

/// How a local that is bound to a placed record is used.
pub enum Use {
    /// A part is read, by an operation that is not code of the language.
    Read,
    /// The record is stored in a field, by the call at a place of the code.
    Store(Seq<usize>),
    /// The local or the buffer is released at an exit, by the call at a place of the code;
    /// whether it is the local.
    Release(Seq<usize>, bool),
    /// Anything else.
    Other,
}

/// How a piece of code ends: the next one runs, the loop goes on or is left, or the
/// function is.
pub enum Leave {
    On,
    Loop,
    Return,
}

/// The nodes that carry variable `w`, in whichever place.
pub open spec fn carries(w: u16) -> spec_fn(ir::Node) -> bool {
    |n: ir::Node|
        match n.head {
            ir::Head::Var(x) => x == w,
            ir::Head::Assign(x) => x == w,
            ir::Head::TupleGet(x, _) => x == w,
            ir::Head::TuplePut(x, _) => x == w,
            ir::Head::CallRef(x) => x == w,
            ir::Head::FnRefDnr(x) => x == w,
            ir::Head::FnRef(_, x, _) => x == w,
            ir::Head::Iter(x) => x == w,
            _ => false,
        }
}

/// The local of a bind, the buffer of its call, the buffer of the function itself, and the
/// operators that matter.
pub struct Placed {
    pub defs: Seq<Definition>,
    pub vars: Function,
    pub v: u16,
    pub buf: u16,
    pub own: Option<u16>,
    pub ops: Ops,
}

/// Whether code names the local or the buffer.
pub open spec fn names_them(c: Placed, n: ir::Node) -> bool {
    ir::any(n, carries(c.v)) || ir::any(n, carries(c.buf))
}

/// Whether one of the operands names the local or the buffer.
pub open spec fn operands_name_them(c: Placed, args: Seq<ir::Node>) -> bool {
    exists|i: int| 0 <= i < args.len() && names_them(c, #[trigger] args[i])
}

/// Types whose values name no record and no collection.
pub open spec fn is_plain_value(t: types::Ty) -> bool {
    let b = types::base(t);
    b is Void || b is Null || b is Never || b is Integer || b is Boolean || b is Float || b is Single
        || b is Character || b is Text || (b matches types::Ty::Enum(_, fields, _) && !fields)
}

/// Whether a destination is a field of an element that was appended to a collection, of the
/// type that is copied and with no flag on it.
pub open spec fn is_element_field(c: Placed, field: ir::Node, tp: ir::Node) -> bool {
    let m = ir::unspan(field);
    m.head == ir::Head::Call(c.ops.get_field) && m.kids.len() == 3 && match (
        ir::unspan(m.kids[0]).head,
        ir::unspan(m.kids[2]).head,
        ir::unspan(tp).head,
    ) {
        (ir::Head::Var(elm), ir::Head::Int(of), ir::Head::Int(copied)) => {
            &&& elm < c.vars.variables.len()
            &&& c.vars.variables@[elm as int].compiler_generated
            &&& text::is_prefix("_elm_"@, c.vars.variables@[elm as int].name@)
            &&& of == copied
            &&& 0 <= copied < 0x8000
        },
        _ => false,
    }
}

/// Whether a call stores the record in a field.
pub open spec fn stores_it(c: Placed, d: u32, args: Seq<ir::Node>) -> bool {
    d == c.ops.copy && args.len() == 3 && is_var(args[0], c.v) && is_element_field(
        c,
        args[1],
        args[2],
    )
}

/// Whether a call releases the local at an exit.
pub open spec fn releases_local(c: Placed, d: u32, args: Seq<ir::Node>) -> bool {
    ||| d == c.ops.free_ref && args.len() == 1 && is_var(args[0], c.v)
    ||| d == c.ops.free_if_distinct && args.len() == 2 && is_var(args[0], c.v) && c.own is Some
        && is_var(args[1], c.own->0)
}

/// Whether a call releases the buffer at an exit.
pub open spec fn releases_buffer(c: Placed, d: u32, args: Seq<ir::Node>) -> bool {
    d == c.ops.free_if_distinct && args.len() == 2 && is_var(args[0], c.buf) && is_var(
        args[1],
        c.v,
    )
}

/// Whether a call hands out more than a value that was read: it is code of the language, a
/// release of another kind, or an operation that answers a reference that nothing reads
/// from at once.
pub open spec fn hands_out(c: Placed, d: u32, args: Seq<ir::Node>, receiver: bool) -> bool {
    ||| d >= c.defs.len()
    ||| c.defs[d as int].loft_defined
    ||| text::is_prefix("OpFreeRef"@, c.defs[d as int].name@)
    ||| !is_plain_value(c.defs[d as int].returned@) && !receiver && args.len() > 0 && names_them(
        c,
        args[0],
    )
}

/// Whether a statement gives variable `w` the null value.
pub open spec fn starts_null(n: ir::Node, w: u16) -> bool {
    let m = ir::unspan(n);
    m.head == ir::Head::Assign(w) && m.kids.len() > 0 && ir::unspan(m.kids[0]).head is Null
}

/// How one way through the code uses the local.  `truth` tells which conditions hold, and a
/// loop is gone through twice; `receiver` tells that a part of the value is read at once.  `path`
/// is the place of the node: which operand or statement to take at each step from the body.
pub open spec fn uses(
    c: Placed,
    truth: spec_fn(ir::Node) -> bool,
    n: ir::Node,
    receiver: bool,
    path: Seq<usize>,
) -> (Seq<Use>, Leave)
    decreases n, 0int,
{
    let nothing = (Seq::<Use>::empty(), Leave::On);
    match n.head {
        ir::Head::Span(_) => if n.kids.len() > 0 {
            uses(c, truth, n.kids[0], receiver, path)
        } else {
            nothing
        },
        ir::Head::Break(_) | ir::Head::Continue(_) => (Seq::empty(), Leave::Loop),
        ir::Head::Var(w) => if w == c.v && receiver {
            (seq![Use::Read], Leave::On)
        } else if w == c.v || w == c.buf {
            (seq![Use::Other], Leave::On)
        } else {
            nothing
        },
        ir::Head::Assign(w) => if w == c.v || w == c.buf {
            (seq![Use::Other], Leave::On)
        } else if n.kids.len() > 0 {
            uses(c, truth, n.kids[0], false, path.push(0))
        } else {
            nothing
        },
        ir::Head::Call(d) => if stores_it(c, d, n.kids) {
            (seq![Use::Store(path)], Leave::On)
        } else if releases_local(c, d, n.kids) {
            (seq![Use::Release(path, true)], Leave::On)
        } else if releases_buffer(c, d, n.kids) {
            (seq![Use::Release(path, false)], Leave::On)
        } else if !operands_name_them(c, n.kids) {
            nothing
        } else if hands_out(c, d, n.kids, receiver) {
            (seq![Use::Other], Leave::On)
        } else {
            uses_of(c, truth, n.kids, 0, true, path)
        },
        ir::Head::If => if n.kids.len() == 3 {
            let (test, leave) = uses(c, truth, n.kids[0], false, path.push(0));
            match leave {
                Leave::On => {
                    let (rest, end) = if truth(n.kids[0]) {
                        uses(c, truth, n.kids[1], false, path.push(1))
                    } else {
                        uses(c, truth, n.kids[2], false, path.push(2))
                    };
                    (test + rest, end)
                },
                _ => (test, leave),
            }
        } else {
            nothing
        },
        ir::Head::Block(_, _) => uses_of(c, truth, n.kids, 0, false, path),
        ir::Head::Loop(_, _) => {
            let (once, leave) = uses_of(c, truth, n.kids, 0, false, path);
            match leave {
                Leave::Return => (once, leave),
                _ => (once + once, Leave::On),
            }
        },
        ir::Head::Return => if n.kids.len() > 0 {
            (uses(c, truth, n.kids[0], false, path.push(0)).0, Leave::Return)
        } else {
            (Seq::empty(), Leave::Return)
        },
        ir::Head::Drop => if n.kids.len() > 0 {
            uses(c, truth, n.kids[0], false, path.push(0))
        } else {
            nothing
        },
        _ => if names_them(c, n) {
            (seq![Use::Other], Leave::On)
        } else {
            nothing
        },
    }
}

/// How one way through the nodes from `i` on uses the local; of operands the first is what
/// a part is read of.
pub open spec fn uses_of(
    c: Placed,
    truth: spec_fn(ir::Node) -> bool,
    s: Seq<ir::Node>,
    i: int,
    operands: bool,
    path: Seq<usize>,
) -> (Seq<Use>, Leave)
    decreases s, s.len() - i,
{
    if i < 0 || i >= s.len() {
        (Seq::empty(), Leave::On)
    } else {
        let (first, leave) = uses(c, truth, s[i], operands && i == 0, path.push(i as usize));
        match leave {
            Leave::On => {
                let (rest, end) = uses_of(c, truth, s, i + 1, operands, path);
                (first + rest, end)
            },
            _ => (first, leave),
        }
    }
}

/// Whether the record is used as one that moves at its last use: it is read by operations
/// alone, stored once, and behind that only released.
pub open spec fn moves_last(log: Seq<Use>) -> bool {
    &&& forall|i: int| 0 <= i < log.len() ==> !(#[trigger] log[i] is Other)
    &&& forall|i: int, j: int|
        #![trigger log[i], log[j]]
        0 <= i < j < log.len() && log[i] is Store ==> log[j] is Release
}

/// Whether the record was stored before use `i`.
pub open spec fn stored_before(log: Seq<Use>, i: int) -> bool {
    exists|j: int| 0 <= j < i && j < log.len() && #[trigger] log[j] is Store
}

/// Whether a plan does what one way through the code asks for: the copy that stores the
/// record is a move, a release of the local where the record was not stored before releases
/// the record, and the other releases go.
pub open spec fn serves(
    log: Seq<Use>,
    moves: Seq<Seq<usize>>,
    held: Seq<Seq<usize>>,
    dropped: Seq<Seq<usize>>,
) -> bool {
    forall|i: int|
        0 <= i < log.len() ==> match #[trigger] log[i] {
            Use::Store(at) => moves.contains(at),
            Use::Release(at, local) => if local && !stored_before(log, i) {
                held.contains(at)
            } else {
                dropped.contains(at)
            },
            _ => true,
        }
}

spec fn stored(log: Seq<Use>) -> bool {
    exists|i: int| 0 <= i < log.len() && #[trigger] log[i] is Store
}

/// Whether a log may follow where the record is held, or was moved.
spec fn fits(log: Seq<Use>, st: St) -> bool {
    &&& moves_last(log)
    &&& st == St::Moved ==> forall|i: int| 0 <= i < log.len() ==> #[trigger] log[i] is Release
}

spec fn after(log: Seq<Use>, st: St) -> St {
    if stored(log) {
        St::Moved
    } else {
        st
    }
}

proof fn fits_both(a: Seq<Use>, b: Seq<Use>, st: St)
    requires
        fits(a, st),
        fits(b, after(a, st)),
    ensures
        fits(a + b, st),
        after(a + b, st) == after(b, after(a, st)),
        stored(a + b) == (stored(a) || stored(b)),
{
    let log = a + b;
    assert forall|i: int| 0 <= i < log.len() implies !(#[trigger] log[i] is Other) by {
        if i < a.len() {
            assert(log[i] == a[i]);
        } else {
            assert(log[i] == b[i - a.len()]);
        }
    }
    assert forall|i: int, j: int|
        #![trigger log[i], log[j]]
        0 <= i < j < log.len() && log[i] is Store implies log[j] is Release by {
        if j < a.len() {
            assert(log[i] == a[i] && log[j] == a[j]);
        } else if i < a.len() {
            assert(log[i] == a[i]);
            assert(stored(a));
            assert(log[j] == b[j - a.len()]);
        } else {
            assert(log[i] == b[i - a.len()] && log[j] == b[j - a.len()]);
        }
    }
    if st == St::Moved {
        assert forall|i: int| 0 <= i < log.len() implies #[trigger] log[i] is Release by {
            if i < a.len() {
                assert(log[i] == a[i]);
            } else {
                assert(log[i] == b[i - a.len()]);
                assert(!stored(a));
            }
        }
    }
    if stored(a) {
        let i = choose|i: int| 0 <= i < a.len() && #[trigger] a[i] is Store;
        assert(log[i] == a[i]);
    }
    if stored(b) {
        let i = choose|i: int| 0 <= i < b.len() && #[trigger] b[i] is Store;
        assert(log[a.len() + i] == b[i]);
    }
    if stored(log) {
        let i = choose|i: int| 0 <= i < log.len() && #[trigger] log[i] is Store;
        if i < a.len() {
            assert(log[i] == a[i]);
        } else {
            assert(log[i] == b[i - a.len()]);
        }
    }
}

proof fn fits_nothing(st: St)
    ensures
        fits(Seq::empty(), st),
        !stored(Seq::empty()),
        after(Seq::empty(), st) == st,
{
}

/// What `serves` says of the part of a way that starts where the record is held, or was
/// moved.
spec fn sited(log: Seq<Use>, st: St, t: Trace) -> bool {
    forall|i: int|
        0 <= i < log.len() ==> match #[trigger] log[i] {
            Use::Store(at) => t.moves.contains(at),
            Use::Release(at, local) => if local && st == St::Held && !stored_before(log, i) {
                t.held.contains(at)
            } else {
                t.dropped.contains(at)
            },
            _ => true,
        }
}

/// Whether one trace holds all places of another.
spec fn keeps(t: Trace, u: Trace) -> bool {
    &&& forall|q: Seq<usize>| #[trigger] t.moves.contains(q) ==> u.moves.contains(q)
    &&& forall|q: Seq<usize>| #[trigger] t.held.contains(q) ==> u.held.contains(q)
    &&& forall|q: Seq<usize>| #[trigger] t.dropped.contains(q) ==> u.dropped.contains(q)
}

proof fn sited_both(a: Seq<Use>, b: Seq<Use>, st: St, t: Trace, u: Trace)
    requires
        sited(a, st, t),
        sited(b, after(a, st), u),
        keeps(t, u),
    ensures
        sited(a + b, st, u),
{
    let log = a + b;
    assert forall|i: int| 0 <= i < log.len() implies match #[trigger] log[i] {
        Use::Store(at) => u.moves.contains(at),
        Use::Release(at, local) => if local && st == St::Held && !stored_before(log, i) {
            u.held.contains(at)
        } else {
            u.dropped.contains(at)
        },
        _ => true,
    } by {
        if i < a.len() {
            assert(log[i] == a[i]);
            if stored_before(a, i) {
                let j = choose|j: int| 0 <= j < i && j < a.len() && #[trigger] a[j] is Store;
                assert(log[j] == a[j]);
            }
            if stored_before(log, i) {
                let j = choose|j: int| 0 <= j < i && j < log.len() && #[trigger] log[j] is Store;
                assert(log[j] == a[j]);
            }
            assert(stored_before(log, i) == stored_before(a, i));
        } else {
            let k = i - a.len();
            assert(log[i] == b[k]);
            if stored_before(b, k) {
                let j = choose|j: int| 0 <= j < k && j < b.len() && #[trigger] b[j] is Store;
                assert(log[a.len() + j] == b[j]);
            }
            if stored(a) {
                let j = choose|j: int| 0 <= j < a.len() && #[trigger] a[j] is Store;
                assert(log[j] == a[j]);
            }
            if stored_before(log, i) {
                let j = choose|j: int| 0 <= j < i && j < log.len() && #[trigger] log[j] is Store;
                if j < a.len() {
                    assert(log[j] == a[j]);
                    assert(stored(a));
                } else {
                    assert(log[j] == b[j - a.len()]);
                    assert(stored_before(b, k));
                }
            }
            assert(stored_before(log, i) == (stored(a) || stored_before(b, k)));
        }
    }
}

proof fn sited_later(log: Seq<Use>, st: St, t: Trace, u: Trace)
    requires
        sited(log, st, t),
        keeps(t, u),
    ensures
        sited(log, st, u),
{
    sited_both(log, Seq::empty(), st, t, u);
    assert(log + Seq::<Use>::empty() =~= log);
}

spec fn placed_of(e: Bind) -> Placed {
    Placed { defs: e.defs, vars: e.vars, v: e.v, buf: e.buf, own: e.own_retbuf, ops: e.ops }
}

proof fn carried_is_named(n: ir::Node, w: u16)
    ensures
        ir::any(n, carries(w)) == ir::mentioned(n, w),
    decreases n, 1int,
{
    carried_is_named_in(n, n.kids.len() as int, w);
    assert(n.kids.take(n.kids.len() as int) =~= n.kids);
    assert(carries(w)(n) == ir::names(w)(n));
}

proof fn carried_is_named_in(n: ir::Node, k: int, w: u16)
    requires
        0 <= k <= n.kids.len(),
    ensures
        ir::any_in(n.kids.take(k), carries(w)) == ir::any_in(n.kids.take(k), ir::names(w)),
    decreases n, 0int, k,
{
    if k > 0 {
        carried_is_named_in(n, k - 1, w);
        carried_is_named(n.kids[k - 1], w);
        ir::any_step(n.kids, carries(w), k - 1);
        ir::any_step(n.kids, ir::names(w), k - 1);
    }
}

proof fn naming_is_alike(e: Bind, n: ir::Node)
    ensures
        names_them(placed_of(e), n) == place_result::names_either(e, n),
{
    carried_is_named(n, e.v);
    carried_is_named(n, e.buf);
}

proof fn operands_are_alike(e: Bind, args: Seq<ir::Node>, k: int)
    requires
        0 <= k <= args.len(),
    ensures
        place_result::any_names_either(e, args, k) <==> exists|i: int|
            0 <= i < k && names_them(placed_of(e), #[trigger] args[i]),
    decreases k,
{
    if k > 0 {
        operands_are_alike(e, args, k - 1);
        naming_is_alike(e, args[k - 1]);
    }
}

/// What a walk that finds nothing wrong says of every way through the code.
spec fn told(
    e: Bind,
    truth: spec_fn(ir::Node) -> bool,
    log: Seq<Use>,
    leave: Leave,
    st: St,
    loops: bool,
    t: Trace,
    found: (Result<Flow, Why>, Trace),
) -> bool {
    let (r, u) = found;
    &&& fits(log, st)
    &&& sited(log, st, u)
    &&& keeps(t, u)
    &&& loops ==> !stored(log)
    &&& leave is On ==> r == Ok::<Flow, Why>(Flow::Next(after(log, st)))
}

proof fn a_walk_tells(
    e: Bind,
    t: Trace,
    n: ir::Node,
    st: St,
    pos: Pos,
    loops: bool,
    path: Seq<usize>,
    truth: spec_fn(ir::Node) -> bool,
)
    requires
        apart(e, t),
        place_result::walk(e, t, n, st, pos, loops, path).0 is Ok,
    ensures
        told(
            e,
            truth,
            uses(placed_of(e), truth, n, pos == Pos::Recv, path).0,
            uses(placed_of(e), truth, n, pos == Pos::Recv, path).1,
            st,
            loops,
            t,
            place_result::walk(e, t, n, st, pos, loops, path),
        ),
    decreases n, 2int,
{
    let c = placed_of(e);
    let (log, leave) = uses(c, truth, n, pos == Pos::Recv, path);
    let (r, u) = place_result::walk(e, t, n, st, pos, loops, path);
    fits_nothing(st);
    if n.head is Span && n.kids.len() > 0 {
        a_walk_tells(e, t, n.kids[0], st, pos, loops, path, truth);
    } else {
        match n.head {
            ir::Head::Var(w) => {},
            ir::Head::Assign(w) => {
                if n.kids.len() > 0 {
                    let more = place_result::noted(e, t, w, n.kids[0]);
                    assert(apart(e, more));
                    a_walk_tells(e, more, n.kids[0], st, Pos::Arg, loops, path.push(0), truth);
                    assert(log == uses(c, truth, n.kids[0], false, path.push(0)).0);
                }
            },
            ir::Head::Call(d) => {
                a_call_tells(e, t, n, d, st, pos, loops, path, truth);
                assert((r, u) == place_result::walk_call(e, t, d, n.kids, st, pos, loops, path));
            },
            ir::Head::If => {
                branches_tell(e, t, n, st, loops, path, truth);
                assert((r, u) == place_result::walk_branches(e, t, n.kids, st, loops, path));
            },
            ir::Head::Block(_, _) => {
                statements_tell(e, t, n, 0, st, loops, path, truth);
                assert((r, u) == place_result::walk_stmts(e, t, n.kids, 0, st, loops, path));
                assert((log, leave) == uses_of(c, truth, n.kids, 0, false, path));
            },
            ir::Head::Loop(_, _) => {
                let (ri, ui) = place_result::walk_stmts(e, t, n.kids, 0, st, true, path);
                assert(ri is Ok);
                statements_tell(e, t, n, 0, st, true, path, truth);
                let (once, end) = uses_of(c, truth, n.kids, 0, false, path);
                fits_both(once, once, st);
                assert(keeps(ui, ui));
                sited_both(once, once, st, ui, ui);
            },
            ir::Head::Return => {
                if n.kids.len() > 0 {
                    a_walk_tells(e, t, n.kids[0], st, Pos::Arg, loops, path.push(0), truth);
                }
            },
            ir::Head::Drop => {
                if n.kids.len() > 0 {
                    a_walk_tells(e, t, n.kids[0], st, Pos::Arg, loops, path.push(0), truth);
                }
            },
            ir::Head::Break(_) | ir::Head::Continue(_) => {},
            _ => {
                naming_is_alike(e, n);
            },
        }
    }
}

proof fn branches_tell(
    e: Bind,
    t: Trace,
    n: ir::Node,
    st: St,
    loops: bool,
    path: Seq<usize>,
    truth: spec_fn(ir::Node) -> bool,
)
    requires
        n.head is If,
        apart(e, t),
        place_result::walk_branches(e, t, n.kids, st, loops, path).0 is Ok,
    ensures
        told(
            e,
            truth,
            uses(placed_of(e), truth, n, false, path).0,
            uses(placed_of(e), truth, n, false, path).1,
            st,
            loops,
            t,
            place_result::walk_branches(e, t, n.kids, st, loops, path),
        ),
        uses(placed_of(e), truth, n, true, path) == uses(placed_of(e), truth, n, false, path),
    decreases n, 1int,
{
    let c = placed_of(e);
    let s = n.kids;
    fits_nothing(st);
    if s.len() == 3 {
        let (rc, tc) = place_result::walk(e, t, s[0], st, Pos::Arg, loops, path.push(0));
        a_walk_tells(e, t, s[0], st, Pos::Arg, loops, path.push(0), truth);
        let (test, leave) = uses(c, truth, s[0], false, path.push(0));
        host_is_apart(e, t, s[0], st, Pos::Arg, loops, path.push(0));
        match rc {
            Ok(Flow::Next(now)) => {
                let (rt, tt) = place_result::walk(e, tc, s[1], now, Pos::Stmt, loops, path.push(1));
                let (re, te) = place_result::walk(e, tt, s[2], now, Pos::Stmt, loops, path.push(2));
                host_is_apart(e, tc, s[1], now, Pos::Stmt, loops, path.push(1));
                a_walk_tells(e, tc, s[1], now, Pos::Stmt, loops, path.push(1), truth);
                a_walk_tells(e, tt, s[2], now, Pos::Stmt, loops, path.push(2), truth);
                if leave is On {
                    let rest = if truth(s[0]) {
                        sited_later(uses(c, truth, s[1], false, path.push(1)).0, now, tt, te);
                        uses(c, truth, s[1], false, path.push(1)).0
                    } else {
                        uses(c, truth, s[2], false, path.push(2)).0
                    };
                    fits_both(test, rest, st);
                    sited_both(test, rest, st, tc, te);
                } else {
                    sited_later(test, st, tc, te);
                }
            },
            _ => {},
        }
    }
}

proof fn statements_tell(
    e: Bind,
    t: Trace,
    n: ir::Node,
    i: int,
    st: St,
    loops: bool,
    path: Seq<usize>,
    truth: spec_fn(ir::Node) -> bool,
)
    requires
        0 <= i,
        apart(e, t),
        place_result::walk_stmts(e, t, n.kids, i, st, loops, path).0 is Ok,
    ensures
        told(
            e,
            truth,
            uses_of(placed_of(e), truth, n.kids, i, false, path).0,
            uses_of(placed_of(e), truth, n.kids, i, false, path).1,
            st,
            loops,
            t,
            place_result::walk_stmts(e, t, n.kids, i, st, loops, path),
        ),
    decreases n, 1int, n.kids.len() - i,
{
    let c = placed_of(e);
    let s = n.kids;
    fits_nothing(st);
    if i < s.len() {
        let (r, u) = place_result::walk(e, t, s[i], st, Pos::Stmt, loops, path.push(i as usize));
        a_walk_tells(e, t, s[i], st, Pos::Stmt, loops, path.push(i as usize), truth);
        host_is_apart(e, t, s[i], st, Pos::Stmt, loops, path.push(i as usize));
        let (first, leave) = uses(c, truth, s[i], false, path.push(i as usize));
        match r {
            Ok(Flow::Next(next)) => {
                statements_tell(e, u, n, i + 1, next, loops, path, truth);
                let (last, end) = place_result::walk_stmts(e, u, s, i + 1, next, loops, path);
                if leave is On {
                    let rest = uses_of(c, truth, s, i + 1, false, path).0;
                    fits_both(first, rest, st);
                    sited_both(first, rest, st, u, end);
                } else {
                    sited_later(first, st, u, end);
                }
            },
            _ => {},
        }
    }
}

proof fn operands_tell(
    e: Bind,
    t: Trace,
    n: ir::Node,
    i: int,
    st: St,
    loops: bool,
    path: Seq<usize>,
    truth: spec_fn(ir::Node) -> bool,
)
    requires
        0 <= i,
        apart(e, t),
        place_result::walk_args(e, t, n.kids, i, st, loops, path).0 is Ok,
    ensures
        told(
            e,
            truth,
            uses_of(placed_of(e), truth, n.kids, i, true, path).0,
            uses_of(placed_of(e), truth, n.kids, i, true, path).1,
            st,
            loops,
            t,
            place_result::walk_args(e, t, n.kids, i, st, loops, path),
        ),
    decreases n, 0int, n.kids.len() - i,
{
    let c = placed_of(e);
    let s = n.kids;
    fits_nothing(st);
    if i < s.len() {
        let pos = if i == 0 {
            Pos::Recv
        } else {
            Pos::Arg
        };
        let (r, u) = place_result::walk(e, t, s[i], st, pos, loops, path.push(i as usize));
        a_walk_tells(e, t, s[i], st, pos, loops, path.push(i as usize), truth);
        host_is_apart(e, t, s[i], st, pos, loops, path.push(i as usize));
        let (first, leave) = uses(c, truth, s[i], i == 0, path.push(i as usize));
        match r {
            Ok(Flow::Next(next)) => {
                operands_tell(e, u, n, i + 1, next, loops, path, truth);
                let (last, end) = place_result::walk_args(e, u, s, i + 1, next, loops, path);
                if leave is On {
                    let rest = uses_of(c, truth, s, i + 1, true, path).0;
                    fits_both(first, rest, st);
                    sited_both(first, rest, st, u, end);
                } else {
                    sited_later(first, st, u, end);
                }
            },
            _ => {},
        }
    }
}

proof fn a_call_tells(
    e: Bind,
    t: Trace,
    n: ir::Node,
    d: u32,
    st: St,
    pos: Pos,
    loops: bool,
    path: Seq<usize>,
    truth: spec_fn(ir::Node) -> bool,
)
    requires
        n.head == ir::Head::Call(d),
        apart(e, t),
        place_result::walk_call(e, t, d, n.kids, st, pos, loops, path).0 is Ok,
    ensures
        told(
            e,
            truth,
            uses(placed_of(e), truth, n, pos == Pos::Recv, path).0,
            uses(placed_of(e), truth, n, pos == Pos::Recv, path).1,
            st,
            loops,
            t,
            place_result::walk_call(e, t, d, n.kids, st, pos, loops, path),
        ),
    decreases n, 1int,
{
    let c = placed_of(e);
    let args = n.kids;
    let (log, leave) = uses(c, truth, n, pos == Pos::Recv, path);
    fits_nothing(st);
    operands_are_alike(e, args, args.len() as int);
    let u = place_result::walk_call(e, t, d, args, st, pos, loops, path).1;
    if stores_it(c, d, args) {
        assert(log =~= seq![Use::Store(path)]);
        assert(log[0] is Store);
        pushed_keeps(t.moves, path);
    } else if releases_local(c, d, args) || releases_buffer(c, d, args) {
        assert(log =~= seq![Use::Release(path, releases_local(c, d, args))]);
        assert(!stored_before(log, 0));
        pushed_keeps(t.held, path);
        pushed_keeps(t.dropped, path);
    } else if operands_name_them(c, args) {
        if args.len() > 0 {
            naming_is_alike(e, args[0]);
        }
        operands_tell(e, t, n, 0, st, loops, path, truth);
        assert((log, leave) == uses_of(c, truth, args, 0, true, path));
    }
}

proof fn pushed_keeps(s: Seq<Seq<usize>>, q: Seq<usize>)
    ensures
        s.push(q).contains(q),
        forall|r: Seq<usize>| #[trigger] s.contains(r) ==> s.push(q).contains(r),
{
    assert(s.push(q)[s.len() as int] == q);
    assert forall|r: Seq<usize>| #[trigger] s.contains(r) implies s.push(q).contains(r) by {
        let j = choose|j: int| 0 <= j < s.len() && s[j] == r;
        assert(s.push(q)[j] == r);
    }
}

/// A local that is bound to a placed record is bound to a call of a function that answers
/// nothing but its buffer.  It is a plain record, and before that nothing but null starts
/// names it or the buffer.  Whichever way the code goes on behind that, the record is read
/// by operations alone, stored in at most one field, and behind that only released; and
/// what the call is handed names neither the local nor the buffer, but for the buffer
/// itself, nor the parameter in whose store the record is built.  The copy that stores the
/// record becomes a move, a release of the local releases the record exactly where the
/// record was not stored before, and the other releases go.
pub proof fn a_placed_record_moves_at_its_last_use(
    data: Data,
    d_nr: u32,
    ops: Ops,
    mode: Mode,
    i: int,
    truth: spec_fn(ir::Node) -> bool,
) -> (r: (int, u32, Seq<ir::Node>))
    requires
        d_nr < data.definitions.len(),
        0 <= i < place_result::plans_for(
            data.definitions@,
            d_nr,
            data.definitions@[d_nr as int].code@,
            ops,
            mode,
        ).len(),
    ensures
        ({
            let code = data.definitions@[d_nr as int].code@;
            let plan = place_result::plans_for(data.definitions@, d_nr, code, ops, mode)[i];
            let top = ir::unspan(code).kids;
            let vars = data.definitions@[d_nr as int].variables;
            let (idx, f, args) = r;
            let callee = data.definitions@[f as int];
            let c = Placed {
                defs: data.definitions@,
                vars,
                v: plan.v,
                buf: plan.buf,
                own: place_result::own_buffer(data.definitions@[d_nr as int]),
                ops,
            };
            &&& 0 <= idx < top.len()
            &&& ir::unspan(top[idx]).head == ir::Head::Assign(plan.v)
            &&& ir::unspan(ir::unspan(top[idx]).kids[0]) == (ir::Node {
                head: ir::Head::Call(f),
                kids: args,
            })
            &&& f < data.definitions.len()
            &&& callee.loft_defined && !callee.borrowed_view && callee.returned@ is Reference
            &&& answers_its_buffer(callee.code@, callee.variables.var_named("__retbuf"@))
            &&& callee.return_buffer is Some
            &&& callee.return_buffer->0 < args.len()
            &&& is_var(args[callee.return_buffer->0 as int], plan.buf)
            &&& plan.v < vars.variables.len()
            &&& !vars.argument(plan.v)
            &&& ({
                let local = vars.variables@[plan.v as int];
                local.tp@ is Reference && !local.caller_hidden_buf && !local.skip_free
                    && !text::is_prefix("__"@, local.name@)
            })
            &&& plan.buf < vars.variables.len()
            &&& text::is_prefix("__ref_"@, vars.variables@[plan.buf as int].name@)
            &&& forall|j: int|
                0 <= j < idx ==> !names_them(c, ir::unspan(#[trigger] top[j])) || starts_null(
                    top[j],
                    plan.v,
                ) || starts_null(top[j], plan.buf)
            &&& mode == Mode::Rewrite ==> exists|j: int|
                0 <= j < idx && starts_null(#[trigger] top[j], plan.buf) && forall|k: int|
                    0 <= k < idx && k != j ==> !starts_null(#[trigger] top[k], plan.buf)
            &&& forall|a: int|
                0 <= a < args.len() && a != callee.return_buffer->0 ==> !names_them(
                    c,
                    #[trigger] args[a],
                ) && !ir::any(args[a], carries(plan.host))
            &&& vars.argument(plan.host)
            &&& moves_last(uses_of(c, truth, top, idx + 1, false, Seq::empty()).0)
            &&& serves(
                uses_of(c, truth, top, idx + 1, false, Seq::empty()).0,
                plan.moves,
                plan.held,
                plan.dropped,
            )
        }),
{
    let defs = data.definitions@;
    let code = defs[d_nr as int].code@;
    let top = ir::unspan(code).kids;
    let idx = planned_at(defs, d_nr, top, 0, ops, mode, i);
    let m = ir::unspan(top[idx]);
    let call = ir::unspan(m.kids[0]);
    let plan = place_result::plans_for(defs, d_nr, code, ops, mode)[i];
    match (m.head, call.head) {
        (ir::Head::Assign(v), ir::Head::Call(f)) => {
            let args = call.kids;
            let at = defs[f as int].return_buffer->0;
            a_builder_answers_its_buffer(data, f, at as int);
            let e = Bind {
                defs,
                vars: defs[d_nr as int].variables,
                ops,
                v,
                buf: plan.buf,
                args,
                buf_idx: at as int,
                own_retbuf: place_result::own_buffer(defs[d_nr as int]),
            };
            let n = ir::unspan(code);
            let t0 = place_result::nothing_yet();
            statements_tell(e, t0, n, idx + 1, St::Held, false, Seq::empty(), truth);
            hosts_are_apart(e, t0, n, idx + 1, St::Held, false, Seq::empty());
            starts_are_null(e, top, 0, idx, 0, 0);
            assert forall|a: int| 0 <= a < args.len() && a != at implies !names_them(
                placed_of(e),
                #[trigger] args[a],
            ) && !ir::any(args[a], carries(plan.host)) by {
                carried_is_named(args[a], e.v);
                carried_is_named(args[a], e.buf);
                carried_is_named(args[a], plan.host);
                unnamed_at(e, e.v, args.len() as int, a);
                unnamed_at(e, e.buf, args.len() as int, a);
                unnamed_at(e, plan.host, args.len() as int, a);
            }
            (idx, f, args)
        },
        _ => (idx, 0, Seq::empty()),
    }
}

/// What the statements before the bind do, from statement `i` on.
proof fn starts_are_null(e: Bind, s: Seq<ir::Node>, i: int, end: int, bufs: nat, locals: nat)
    requires
        0 <= i <= end <= s.len(),
        place_result::null_starts(s, i, end, e.v, e.buf, bufs, locals) is Ok,
    ensures
        forall|j: int|
            i <= j < end ==> !names_them(placed_of(e), ir::unspan(#[trigger] s[j])) || starts_null(
                s[j],
                e.v,
            ) || starts_null(s[j], e.buf),
        ({
            let found = place_result::null_starts(s, i, end, e.v, e.buf, bufs, locals)->Ok_0.0;
            &&& found >= bufs
            &&& found == bufs ==> forall|k: int|
                i <= k < end ==> !starts_null(#[trigger] s[k], e.buf)
            &&& found == bufs + 1 ==> exists|j: int|
                i <= j < end && starts_null(#[trigger] s[j], e.buf) && forall|k: int|
                    i <= k < end && k != j ==> !starts_null(#[trigger] s[k], e.buf)
        }),
    decreases end - i,
{
    if i < end {
        let m = ir::unspan(s[i]);
        carried_is_named(m, e.v);
        carried_is_named(m, e.buf);
        if m.head == ir::Head::Assign(e.buf) {
            starts_are_null(e, s, i + 1, end, bufs + 1, locals);
        } else if m.head == ir::Head::Assign(e.v) {
            starts_are_null(e, s, i + 1, end, bufs, locals + 1);
        } else {
            starts_are_null(e, s, i + 1, end, bufs, locals);
        }
        assert(starts_null(s[i], e.buf) || !starts_null(s[i], e.buf));
    }
}

proof fn unnamed_at(e: Bind, w: u16, k: int, a: int)
    requires
        0 <= a < k,
        a != e.buf_idx,
        !place_result::argument_names(e, w, k),
    ensures
        !ir::mentioned(e.args[a], w),
    decreases k,
{
    if a < k - 1 {
        unnamed_at(e, w, k - 1, a);
    }
}

proof fn planned_at(
    defs: Seq<Definition>,
    d_nr: u32,
    top: Seq<ir::Node>,
    from: int,
    ops: Ops,
    mode: Mode,
    i: int,
) -> (idx: int)
    requires
        0 <= from,
        0 <= i < place_result::plans_from(defs, d_nr, top, from, ops, mode).len(),
    ensures
        from <= idx < top.len(),
        place_result::plan_at(defs, d_nr, top, idx, ops, mode) == Some(
            place_result::plans_from(defs, d_nr, top, from, ops, mode)[i],
        ),
    decreases top.len() - from,
{
    let rest = place_result::plans_from(defs, d_nr, top, from + 1, ops, mode);
    match place_result::plan_at(defs, d_nr, top, from, ops, mode) {
        Some(plan) => if i == 0 {
            from
        } else {
            assert((seq![plan] + rest)[i] == rest[i - 1]);
            planned_at(defs, d_nr, top, from + 1, ops, mode, i - 1)
        },
        None => planned_at(defs, d_nr, top, from + 1, ops, mode, i),
    }
}

/// Whether what a walk has found so far names parameters that the call does not reach.
spec fn apart(e: Bind, t: Trace) -> bool {
    &&& forall|w: u16| #[trigger]
        t.elements.contains_key(w) ==> e.vars.argument(t.elements[w]) && w < e.vars.variables.len()
            && e.vars.variables@[w as int].compiler_generated && text::is_prefix(
            "_elm_"@,
            e.vars.variables@[w as int].name@,
        )
    &&& t.host matches Some(h) ==> e.vars.argument(h) && !place_result::argument_names(
        e,
        h,
        e.args.len() as int,
    )
}

proof fn host_is_apart(
    e: Bind,
    t: Trace,
    n: ir::Node,
    st: St,
    pos: Pos,
    loops: bool,
    path: Seq<usize>,
)
    requires
        apart(e, t),
    ensures
        apart(e, place_result::walk(e, t, n, st, pos, loops, path).1),
    decreases n, 2int,
{
    let u = place_result::walk(e, t, n, st, pos, loops, path).1;
    if n.head is Span && n.kids.len() > 0 {
        host_is_apart(e, t, n.kids[0], st, pos, loops, path);
    } else {
        match n.head {
            ir::Head::Assign(w) => {
                if n.kids.len() > 0 && w != e.v && w != e.buf {
                    let more = place_result::noted(e, t, w, n.kids[0]);
                    assert(apart(e, more));
                    host_is_apart(e, more, n.kids[0], st, Pos::Arg, loops, path.push(0));
                }
            },
            ir::Head::Call(d) => {
                assert(u == place_result::walk_call(e, t, d, n.kids, st, pos, loops, path).1);
                operands_are_apart(e, t, n, 0, st, loops, path);
            },
            ir::Head::If => {
                assert(u == place_result::walk_branches(e, t, n.kids, st, loops, path).1);
                if n.kids.len() == 3 {
                    let s = n.kids;
                    let (rc, tc) = place_result::walk(
                        e,
                        t,
                        s[0],
                        st,
                        Pos::Arg,
                        loops,
                        path.push(0),
                    );
                    host_is_apart(e, t, s[0], st, Pos::Arg, loops, path.push(0));
                    match rc {
                        Ok(Flow::Next(now)) => {
                            let tt = place_result::walk(
                                e,
                                tc,
                                s[1],
                                now,
                                Pos::Stmt,
                                loops,
                                path.push(1),
                            ).1;
                            host_is_apart(e, tc, s[1], now, Pos::Stmt, loops, path.push(1));
                            host_is_apart(e, tt, s[2], now, Pos::Stmt, loops, path.push(2));
                        },
                        _ => {},
                    }
                }
            },
            ir::Head::Block(_, _) => {
                hosts_are_apart(e, t, n, 0, st, loops, path);
                assert(u == place_result::walk_stmts(e, t, n.kids, 0, st, loops, path).1);
            },
            ir::Head::Loop(_, _) => {
                hosts_are_apart(e, t, n, 0, st, true, path);
                assert(u == place_result::walk_stmts(e, t, n.kids, 0, st, true, path).1);
            },
            ir::Head::Return | ir::Head::Drop => {
                if n.kids.len() > 0 {
                    host_is_apart(e, t, n.kids[0], st, Pos::Arg, loops, path.push(0));
                }
            },
            _ => {},
        }
    }
}

proof fn hosts_are_apart(
    e: Bind,
    t: Trace,
    n: ir::Node,
    i: int,
    st: St,
    loops: bool,
    path: Seq<usize>,
)
    requires
        0 <= i,
        apart(e, t),
    ensures
        apart(e, place_result::walk_stmts(e, t, n.kids, i, st, loops, path).1),
    decreases n, 1int, n.kids.len() - i,
{
    if i < n.kids.len() {
        let at = path.push(i as usize);
        let (r, u) = place_result::walk(e, t, n.kids[i], st, Pos::Stmt, loops, at);
        host_is_apart(e, t, n.kids[i], st, Pos::Stmt, loops, at);
        match r {
            Ok(Flow::Next(next)) => {
                hosts_are_apart(e, u, n, i + 1, next, loops, path);
            },
            _ => {},
        }
    }
}

proof fn operands_are_apart(
    e: Bind,
    t: Trace,
    n: ir::Node,
    i: int,
    st: St,
    loops: bool,
    path: Seq<usize>,
)
    requires
        0 <= i,
        apart(e, t),
    ensures
        apart(e, place_result::walk_args(e, t, n.kids, i, st, loops, path).1),
    decreases n, 0int, n.kids.len() - i,
{
    if i < n.kids.len() {
        let at = path.push(i as usize);
        let pos = if i == 0 {
            Pos::Recv
        } else {
            Pos::Arg
        };
        let (r, u) = place_result::walk(e, t, n.kids[i], st, pos, loops, at);
        host_is_apart(e, t, n.kids[i], st, pos, loops, at);
        match r {
            Ok(Flow::Next(next)) => {
                operands_are_apart(e, u, n, i + 1, next, loops, path);
            },
            _ => {},
        }
    }
}

/// Whether a node calls the operator of a name.
pub open spec fn calls_named(data: &Data, n: ir::Node, name: Seq<char>) -> bool {
    n.head matches ir::Head::Call(d) && d < data.definitions.len()
        && data.definitions@[d as int].name@ == name
}

/// Whether a node calls the operator of a name on a variable and the number of a type.
pub open spec fn calls_with(data: &Data, n: ir::Node, name: Seq<char>, v: u16, tp: u16) -> bool {
    &&& calls_named(data, n, name)
    &&& n.kids.len() == 2
    &&& n.kids[0] == ir::var(v)
    &&& n.kids[1] == ir::leaf(ir::Head::Int(tp as i32))
}

/// What becomes of the sites of the plans: the null start of a buffer places a record in the
/// host's store, a planned copy moves the record to where it was copied to, and a planned
/// release releases the record of a local in the store that it is in.
pub proof fn a_site_is_rewritten(
    data: &Data,
    n: ir::Node,
    path: Seq<usize>,
    plans: Seq<PlanView>,
    ops: Ops,
    i: int,
)
    requires
        data.definitions.len() <= u32::MAX,
        place_result::ops_of(data) == Some(ops),
        0 <= i < plans.len(),
    ensures
        calls_named(data, ir::call(ops.copy, n.kids), "OpCopyRecord"@),
        calls_named(data, ir::call(ops.free_ref, n.kids), "OpFreeRef"@),
        calls_named(data, ir::call(ops.free_if_distinct, n.kids), "OpFreeRefIfDistinct"@),
        calls_named(data, ir::call(ops.new_record, n.kids), "OpNewRecord"@),
        calls_named(data, ir::call(ops.get_field, n.kids), "OpGetField"@),
        ({
            let m = place_result::applied(n, path, plans, ops);
            &&& starts_null(n, plans[i].buf) && !(n.head is Span) ==> m.head == n.head
                && m.kids.len() == 1 && exists|p: int|
                0 <= p < plans.len() && (#[trigger] plans[p]).buf == plans[i].buf && calls_with(
                    data,
                    m.kids[0],
                    "OpPlaceRecord"@,
                    plans[p].host,
                    plans[p].tp,
                )
            &&& n.head == ir::Head::Call(ops.copy) && n.kids.len() == 3 && plans[i].moves.contains(
                path,
            ) ==> calls_named(data, m, "OpMoveRecord"@) && m.kids.len() == 3 && m.kids[0]
                == n.kids[0] && m.kids[1] == n.kids[1] && exists|p: int|
                0 <= p < plans.len() && (#[trigger] plans[p]).moves.contains(path) && m.kids[2]
                    == ir::leaf(ir::Head::Int(plans[p].tp as i32))
            &&& (n.head == ir::Head::Call(ops.free_ref) || n.head == ir::Head::Call(
                ops.free_if_distinct,
            )) && plans[i].held.contains(path) ==> exists|p: int|
                0 <= p < plans.len() && (#[trigger] plans[p]).held.contains(path) && calls_with(
                    data,
                    m,
                    "OpFreeRecordIn"@,
                    plans[p].v,
                    plans[p].tp,
                )
        }),
{
    let defs = data.definitions@;
    data::found_definition(defs, "OpPlaceRecord"@, 0);
    data::found_definition(defs, "OpMoveRecord"@, 0);
    data::found_definition(defs, "OpFreeRecordIn"@, 0);
    data::found_definition(defs, "OpCopyRecord"@, 0);
    data::found_definition(defs, "OpFreeRef"@, 0);
    data::found_definition(defs, "OpFreeRefIfDistinct"@, 0);
    data::found_definition(defs, "OpNewRecord"@, 0);
    data::found_definition(defs, "OpGetField"@, 0);
    reveal_strlit("OpCopyRecord");
    reveal_strlit("OpFreeRef");
    reveal_strlit("OpFreeRefIfDistinct");
    assert("OpCopyRecord"@.len() == 12);
    assert("OpFreeRef"@.len() == 9);
    assert("OpFreeRefIfDistinct"@.len() == 19);
    if starts_null(n, plans[i].buf) && !(n.head is Span) {
        let p = first_placing(plans, plans[i].buf, 0, i);
        assert(plans[p].buf == plans[i].buf);
    }
    if plans[i].moves.contains(path) {
        let p = first_moving(plans, path, 0, i);
        assert(plans[p].moves.contains(path));
    }
    if plans[i].held.contains(path) {
        let p = first_releasing(plans, path, 0, i);
        assert(plans[p].held.contains(path));
    }
}

proof fn first_placing(plans: Seq<PlanView>, buf: u16, from: int, i: int) -> (p: int)
    requires
        0 <= from <= i < plans.len(),
        plans[i].buf == buf,
    ensures
        from <= p < plans.len(),
        plans[p].buf == buf,
        place_result::placing(plans, buf, from) == Some(plans[p]),
    decreases i - from,
{
    if plans[from].buf == buf {
        from
    } else {
        first_placing(plans, buf, from + 1, i)
    }
}

proof fn first_moving(plans: Seq<PlanView>, path: Seq<usize>, from: int, i: int) -> (p: int)
    requires
        0 <= from <= i < plans.len(),
        plans[i].moves.contains(path),
    ensures
        from <= p < plans.len(),
        plans[p].moves.contains(path),
        place_result::moving(plans, path, from) == Some(plans[p]),
    decreases i - from,
{
    if plans[from].moves.contains(path) {
        from
    } else {
        first_moving(plans, path, from + 1, i)
    }
}

proof fn first_releasing(plans: Seq<PlanView>, path: Seq<usize>, from: int, i: int) -> (p: int)
    requires
        0 <= from <= i < plans.len(),
        plans[i].held.contains(path),
    ensures
        from <= p < plans.len(),
        plans[p].held.contains(path),
        place_result::releasing(plans, path, from) == Some(plans[p]),
    decreases i - from,
{
    if plans[from].held.contains(path) {
        from
    } else {
        first_releasing(plans, path, from + 1, i)
    }
}

/// Whether one of the plans drops the statement at a place.
pub open spec fn is_dropped(plans: Seq<PlanView>, path: Seq<usize>) -> bool {
    exists|p: int| 0 <= p < plans.len() && (#[trigger] plans[p]).dropped.contains(path)
}

/// The first `k` statements at a place that no plan drops, each as the plans leave it.
pub open spec fn remaining(
    s: Seq<ir::Node>,
    k: int,
    path: Seq<usize>,
    plans: Seq<PlanView>,
    ops: Ops,
) -> Seq<ir::Node>
    decreases k,
{
    if k <= 0 {
        Seq::empty()
    } else {
        let before = remaining(s, k - 1, path, plans, ops);
        let at = path.push((k - 1) as usize);
        if is_dropped(plans, at) {
            before
        } else {
            before.push(place_result::applied(s[k - 1], at, plans, ops))
        }
    }
}

/// Of the statements of a block or a loop those go that a plan drops, and the others stay in
/// their order.
pub proof fn a_dropped_statement_goes(
    n: ir::Node,
    path: Seq<usize>,
    plans: Seq<PlanView>,
    ops: Ops,
)
    requires
        n.head is Block || n.head is Loop,
    ensures
        place_result::applied(n, path, plans, ops).head == n.head,
        place_result::applied(n, path, plans, ops).kids == remaining(
            n.kids,
            n.kids.len() as int,
            path,
            plans,
            ops,
        ),
{
    the_rest_remains(n.kids, 0, path, plans, ops);
    assert(remaining(n.kids, 0, path, plans, ops) + place_result::kept_applied(
        n.kids,
        0,
        path,
        plans,
        ops,
    ) =~= place_result::kept_applied(n.kids, 0, path, plans, ops));
}

proof fn the_rest_remains(
    s: Seq<ir::Node>,
    i: int,
    path: Seq<usize>,
    plans: Seq<PlanView>,
    ops: Ops,
)
    requires
        0 <= i <= s.len(),
    ensures
        remaining(s, i, path, plans, ops) + place_result::kept_applied(s, i, path, plans, ops)
            == remaining(s, s.len() as int, path, plans, ops),
    decreases s.len() - i,
{
    if i < s.len() {
        the_rest_remains(s, i + 1, path, plans, ops);
        dropping_is_dropped(plans, path.push(i as usize), 0);
        let rest = place_result::kept_applied(s, i + 1, path, plans, ops);
        let done = remaining(s, i, path, plans, ops);
        let m = place_result::applied(s[i], path.push(i as usize), plans, ops);
        if !is_dropped(plans, path.push(i as usize)) {
            assert(done + (seq![m] + rest) =~= done.push(m) + rest);
        }
    } else {
        assert(remaining(s, i, path, plans, ops) + Seq::<ir::Node>::empty() =~= remaining(
            s,
            i,
            path,
            plans,
            ops,
        ));
    }
}

proof fn dropping_is_dropped(plans: Seq<PlanView>, path: Seq<usize>, i: int)
    requires
        0 <= i <= plans.len(),
    ensures
        place_result::dropping(plans, path, i) <==> exists|p: int|
            i <= p < plans.len() && (#[trigger] plans[p]).dropped.contains(path),
    decreases plans.len() - i,
{
    if i < plans.len() {
        dropping_is_dropped(plans, path, i + 1);
        assert(plans[i].dropped.contains(path) || !plans[i].dropped.contains(path));
    }
}

} // verus!
