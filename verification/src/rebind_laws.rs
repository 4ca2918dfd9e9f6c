//! What holds of a record that is updated in place.

use crate::capture_laws;
use crate::data::{Data, Definition, DefType};
use crate::ir;
use crate::place_laws;
use crate::rebind_place::{self, Callee, Facts};
use crate::schema::Stores;
use crate::text;
use crate::types;
use vstd::prelude::*;

verus! {

/// The nodes that read variable `w`: all that carry it but assignments to it.
pub open spec fn reads(w: u16) -> spec_fn(ir::Node) -> bool {
    |n: ir::Node|
        match n.head {
            ir::Head::Var(x) => x == w,
            ir::Head::TupleGet(x, _) => x == w,
            ir::Head::TuplePut(x, _) => x == w,
            ir::Head::CallRef(x) => x == w,
            ir::Head::FnRefDnr(x) => x == w,
            ir::Head::FnRef(_, x, _) => x == w,
            ir::Head::Iter(x) => x == w,
            _ => false,
        }
}

/// Whether code reads one of the variables.
pub open spec fn reads_any(n: ir::Node, vars: Seq<u16>) -> bool {
    exists|i: int| 0 <= i < vars.len() && ir::any(n, reads(#[trigger] vars[i]))
}

/// Whether code reads the parameter of a callee or what views it.
pub open spec fn consults(c: Callee, n: ir::Node) -> bool {
    ir::any(n, reads(c.param)) || reads_any(n, c.viewers)
}

/// Whether one of the operands from `from` on reads the parameter.
pub open spec fn consults_from(c: Callee, s: Seq<ir::Node>, from: int) -> bool {
    exists|i: int| from <= i < s.len() && consults(c, #[trigger] s[i])
}

/// Whether an operand is record variable `v` or a field of it.
pub open spec fn is_record_or_field(c: Callee, n: ir::Node, v: u16) -> bool {
    let m = ir::unspan(n);
    ||| m.head == ir::Head::Var(v)
    ||| m.head == ir::Head::Call(c.get_field) && m.kids.len() > 0 && ir::unspan(m.kids[0]).head
        == ir::Head::Var(v)
}

/// The name of definition `d`; empty where there is none.
pub open spec fn op_name(defs: Seq<Definition>, d: u32) -> Seq<char> {
    if d < defs.len() {
        defs[d as int].name@
    } else {
        Seq::empty()
    }
}

/// Whether a statement replaces the vector field at `off` of the buffer by the same field of
/// the parameter.
pub open spec fn replaces_by_itself(c: Callee, n: ir::Node, off: i32) -> bool {
    let m = ir::unspan(n);
    &&& m.head matches ir::Head::Call(d) && op_name(c.defs, d) == "OpReplaceVector"@
    &&& m.kids.len() == 3
    &&& is_field(c, m.kids[0], c.buf, off)
    &&& is_field(c, m.kids[1], c.param, off)
}

/// Whether an operand is the field at `off` of record variable `v`.
pub open spec fn is_field(c: Callee, n: ir::Node, v: u16, off: i32) -> bool {
    let m = ir::unspan(n);
    &&& m.head == ir::Head::Call(c.get_field)
    &&& m.kids.len() == 3
    &&& ir::unspan(m.kids[0]).head == ir::Head::Var(v)
    &&& ir::unspan(m.kids[1]).head == ir::Head::Int(off)
}

/// Whether a statement makes the buffer's record where there is none.
pub open spec fn makes_if_missing(c: Callee, m: ir::Node) -> bool {
    &&& m.head is If
    &&& m.kids.len() == 3
    &&& {
        ||| ir::unspan(m.kids[1]).head is Null && makes(c, m.kids[2])
        ||| ir::unspan(m.kids[2]).head is Null && makes(c, m.kids[1])
    }
}

/// Whether a statement makes the buffer's record.
pub open spec fn makes(c: Callee, n: ir::Node) -> bool {
    let m = ir::unspan(n);
    &&& m.head matches ir::Head::Call(d) && d < c.defs.len() && op_name(c.defs, d)
        == "OpDatabase"@
    &&& m.kids.len() > 0
    &&& ir::unspan(m.kids[0]).head == ir::Head::Var(c.buf)
}

/// What the statements of a literal do, whatever the operators are.  `R` is what a record
/// holds and `E` what the locals do.  Every effect is given what the parameter and the
/// buffer hold, which are the same thing where the two are one record.
#[verifier::reject_recursive_types(R)]
#[verifier::reject_recursive_types(E)]
#[verifier::reject_recursive_types(F)]
pub struct Machine<R, E, F> {
    /// The locals after an assignment, or after a call that writes no record.
    pub local: spec_fn(ir::Node, R, R, E) -> E,
    /// The buffer after a call on it.
    pub write: spec_fn(ir::Node, R, R, E) -> R,
    /// The buffer and the locals after any other statement: nothing is known of it, not
    /// even that it does the same for one record as for two.
    pub other: spec_fn(ir::Node, bool, R, R, E) -> (R, E),
    /// The field of a record at an offset.
    pub field: spec_fn(R, i32) -> F,
}

/// Whether what a statement does depends on the parameter only where it reads it, and
/// replacing a field by what it holds already does nothing.
pub open spec fn depends_on_what_it_reads<R, E, F>(c: Callee, m: Machine<R, E, F>) -> bool {
    &&& forall|n: ir::Node, p: R, q: R, b: R, e: E|
        #![trigger (m.local)(n, p, b, e), (m.local)(n, q, b, e)]
        !consults_from(c, ir::unspan(n).kids, 0) ==> (m.local)(n, p, b, e) == (m.local)(n, q, b, e)
    &&& forall|n: ir::Node, p: R, q: R, b: R, e: E|
        #![trigger (m.write)(n, p, b, e), (m.write)(n, q, b, e)]
        !consults_from(c, ir::unspan(n).kids, 1) ==> (m.write)(n, p, b, e) == (m.write)(n, q, b, e)
    &&& forall|n: ir::Node, off: i32, p: R, b: R, e: E|
        #![trigger replaces_by_itself(c, n, off), (m.write)(n, p, b, e)]
        replaces_by_itself(c, n, off) && (m.field)(p, off) == (m.field)(b, off) ==> (m.write)(
            n,
            p,
            b,
            e,
        ) == b
}

/// Whether a field that is replaced by itself was not written before.
pub open spec fn written_once<R, E, F>(c: Callee, m: Machine<R, E, F>, s: Seq<ir::Node>) -> bool {
    forall|i: int, j: int, off: i32, p: R, b: R, e: E|
        #![trigger replaces_by_itself(c, s[j], off), (m.write)(s[i], p, b, e)]
        0 <= i < j < s.len() && replaces_by_itself(c, s[j], off) ==> (m.field)(
            (m.write)(s[i], p, b, e),
            off,
        ) == (m.field)(b, off)
}

/// What one statement does, where the parameter holds `p`, the buffer `b` and the locals
/// `e`; `one` tells that parameter and buffer are one record.
pub open spec fn step<R, E, F>(
    c: Callee,
    m: Machine<R, E, F>,
    one: bool,
    n: ir::Node,
    p: R,
    b: R,
    e: E,
) -> (R, E) {
    let s = ir::unspan(n);
    match s.head {
        ir::Head::If => if makes_if_missing(c, s) {
            (b, e)
        } else {
            (m.other)(n, one, p, b, e)
        },
        ir::Head::Assign(t) => if c.vars.argument(t) {
            (m.other)(n, one, p, b, e)
        } else {
            (b, (m.local)(n, p, b, e))
        },
        ir::Head::Call(d) => {
            let name = op_name(c.defs, d);
            if name == "OpDatabase"@ {
                (m.other)(n, one, p, b, e)
            } else if text::is_prefix("OpFree"@, name) || s.kids.len() == 0 {
                (b, e)
            } else if is_record_or_field(c, s.kids[0], c.buf) {
                ((m.write)(n, p, b, e), e)
            } else if is_record_or_field(c, s.kids[0], c.param) && !text::is_prefix(
                "OpGet"@,
                name,
            ) && !text::is_prefix("OpConv"@, name) {
                (m.other)(n, one, p, b, e)
            } else {
                (b, (m.local)(n, p, b, e))
            }
        },
        _ => (m.other)(n, one, p, b, e),
    }
}

/// What the buffer and the locals hold after the statements from `i` up to `end`, where the
/// parameter is a record of its own that holds `p`.
pub open spec fn apart<R, E, F>(
    c: Callee,
    m: Machine<R, E, F>,
    s: Seq<ir::Node>,
    i: int,
    end: int,
    p: R,
    b: R,
    e: E,
) -> (R, E)
    decreases end - i,
{
    if i < 0 || i >= end {
        (b, e)
    } else {
        let (b1, e1) = step(c, m, false, s[i], p, b, e);
        apart(c, m, s, i + 1, end, p, b1, e1)
    }
}

/// What the record and the locals hold after the statements from `i` up to `end`, where
/// parameter and buffer are one record that holds `r`.
pub open spec fn in_one<R, E, F>(
    c: Callee,
    m: Machine<R, E, F>,
    s: Seq<ir::Node>,
    i: int,
    end: int,
    r: R,
    e: E,
) -> (R, E)
    decreases end - i,
{
    if i < 0 || i >= end {
        (r, e)
    } else {
        let (r1, e1) = step(c, m, true, s[i], r, r, e);
        in_one(c, m, s, i + 1, end, r1, e1)
    }
}

proof fn reading_is_alike(n: ir::Node, w: u16)
    ensures
        ir::any(n, reads(w)) == ir::read(n, w),
    decreases n, 1int,
{
    reading_is_alike_in(n, n.kids.len() as int, w);
    assert(n.kids.take(n.kids.len() as int) =~= n.kids);
    assert(reads(w)(n) == ir::reading(w)(n));
}

proof fn reading_is_alike_in(n: ir::Node, k: int, w: u16)
    requires
        0 <= k <= n.kids.len(),
    ensures
        ir::any_in(n.kids.take(k), reads(w)) == ir::any_in(n.kids.take(k), ir::reading(w)),
    decreases n, 0int, k,
{
    if k > 0 {
        reading_is_alike_in(n, k - 1, w);
        reading_is_alike(n.kids[k - 1], w);
        ir::any_step(n.kids, reads(w), k - 1);
        ir::any_step(n.kids, ir::reading(w), k - 1);
    }
}

proof fn reading_one_is_alike(n: ir::Node, vars: Seq<u16>, k: int)
    requires
        0 <= k <= vars.len(),
    ensures
        rebind_place::reads_one(n, vars, k) <==> exists|i: int|
            0 <= i < k && ir::any(n, reads(#[trigger] vars[i])),
    decreases k,
{
    if k > 0 {
        reading_one_is_alike(n, vars, k - 1);
        reading_is_alike(n, vars[k - 1]);
        if rebind_place::reads_one(n, vars, k) && !rebind_place::reads_one(n, vars, k - 1) {
            assert(ir::any(n, reads(vars[k - 1])));
        }
    }
}

proof fn consulting_is_alike(c: Callee, n: ir::Node)
    ensures
        consults(c, n) == rebind_place::reads_parameter(c, n),
{
    reading_is_alike(n, c.param);
    reading_one_is_alike(n, c.viewers, c.viewers.len() as int);
}

proof fn operands_are_alike(c: Callee, s: Seq<ir::Node>, from: int)
    requires
        0 <= from,
    ensures
        rebind_place::operands_read(c, s, from) == consults_from(c, s, from),
    decreases s.len() - from,
{
    if from < s.len() {
        consulting_is_alike(c, s[from]);
        operands_are_alike(c, s, from + 1);
        if consults_from(c, s, from) && !consults(c, s[from]) {
            let i = choose|i: int| from <= i < s.len() && consults(c, #[trigger] s[i]);
            assert(consults_from(c, s, from + 1));
        }
    }
}

/// One statement does the same, where the two records held the same until the first write.
proof fn a_step_is_alike<R, E, F>(
    c: Callee,
    m: Machine<R, E, F>,
    s: Seq<ir::Node>,
    i: int,
    p: R,
    b: R,
    e: E,
    written: bool,
)
    requires
        0 <= i < s.len(),
        depends_on_what_it_reads(c, m),
        rebind_place::literal_step(c, s[i], written) is Ok,
        place_laws::shaped(s[i]),
        !written ==> b == p,
        forall|off: i32| #[trigger]
            replaces_by_itself(c, s[i], off) ==> (m.field)(p, off) == (m.field)(b, off),
    ensures
        step(c, m, true, s[i], b, b, e) == step(c, m, false, s[i], p, b, e),
        rebind_place::literal_step(c, s[i], written)->Ok_0 || step(c, m, false, s[i], p, b, e).0
            == b,
        written ==> rebind_place::literal_step(c, s[i], written)->Ok_0,
        step(c, m, false, s[i], p, b, e).0 == b || step(c, m, false, s[i], p, b, e).0 == (m.write)(
            s[i],
            p,
            b,
            e,
        ),
{
    let n = s[i];
    let t = ir::unspan(n);
    operands_are_alike(c, t.kids, 0);
    operands_are_alike(c, t.kids, 1);
    match t.head {
        ir::Head::Assign(x) => {
            if written {
                if t.kids.len() > 0 {
                    consulting_is_alike(c, t.kids[0]);
                }
                shaped_under(n);
                assert(!place_laws::misshapen()(t));
                assert(t.kids.len() == 1);
                assert(!consults_from(c, t.kids, 0));
                assert((m.local)(n, b, b, e) == (m.local)(n, p, b, e));
            }
        },
        ir::Head::Call(d) => {
            if t.kids.len() > 0 && is_record_or_field(c, t.kids[0], c.buf) && !text::is_prefix(
                "OpFree"@,
                op_name(c.defs, d),
            ) && op_name(c.defs, d) != "OpDatabase"@ {
                let own = rebind_place::field_off(c, t.kids[0], c.buf);
                if op_name(c.defs, d) == "OpReplaceVector"@ && t.kids.len() == 3 && own is Some
                    && rebind_place::field_off(c, t.kids[1], c.param) == own {
                    let off = own->0;
                    assert(replaces_by_itself(c, n, off));
                    assert((m.write)(n, p, b, e) == b);
                    assert((m.write)(n, b, b, e) == b);
                } else {
                    assert(!consults_from(c, t.kids, 1));
                    assert((m.write)(n, b, b, e) == (m.write)(n, p, b, e));
                }
            } else if written {
                assert((m.local)(n, b, b, e) == (m.local)(n, p, b, e) || consults_from(
                    c,
                    t.kids,
                    0,
                ));
            }
        },
        _ => {},
    }
}

proof fn shaped_under(n: ir::Node)
    requires
        place_laws::shaped(n),
    ensures
        place_laws::shaped(ir::unspan(n)),
    decreases n,
{
    if n.head is Span && n.kids.len() > 0 {
        if ir::any(n.kids[0], place_laws::misshapen()) {
            ir::any_step(n.kids, place_laws::misshapen(), 0);
            ir::any_prefix(n.kids, place_laws::misshapen(), 1);
        }
        shaped_under(n.kids[0]);
    }
}

proof fn statements_are_alike<R, E, F>(
    c: Callee,
    m: Machine<R, E, F>,
    s: Seq<ir::Node>,
    i: int,
    end: int,
    p: R,
    b: R,
    e: E,
    written: bool,
)
    requires
        0 <= i <= end <= s.len(),
        depends_on_what_it_reads(c, m),
        written_once(c, m, s),
        forall|k: int| 0 <= k < s.len() ==> place_laws::shaped(#[trigger] s[k]),
        rebind_place::literal_from(c, s, i, end, written) is Ok,
        !written ==> b == p,
        forall|j: int, off: i32|
            i <= j < s.len() && #[trigger] replaces_by_itself(c, s[j], off) ==> (m.field)(p, off)
                == (m.field)(b, off),
    ensures
        in_one(c, m, s, i, end, b, e) == apart(c, m, s, i, end, p, b, e),
    decreases end - i,
{
    if i < end {
        a_step_is_alike(c, m, s, i, p, b, e, written);
        let next = rebind_place::literal_step(c, s[i], written)->Ok_0;
        let (b1, e1) = step(c, m, false, s[i], p, b, e);
        assert forall|j: int, off: i32|
            i + 1 <= j < s.len() && #[trigger] replaces_by_itself(c, s[j], off) implies (m.field)(
            p,
            off,
        ) == (m.field)(b1, off) by {
            assert((m.field)(p, off) == (m.field)(b, off));
            assert((m.field)((m.write)(s[i], p, b, e), off) == (m.field)(b, off));
        }
        statements_are_alike(c, m, s, i + 1, end, p, b1, e1, next);
    }
}

/// A literal that is found safe leaves the same in the buffer and in the locals where the
/// parameter is the same record as where it is another one that holds the same: whatever
/// its operators do.
pub proof fn a_safe_literal_does_not_see_that_two_are_one<R, E, F>(
    c: Callee,
    m: Machine<R, E, F>,
    s: Seq<ir::Node>,
    r: R,
    e: E,
)
    requires
        depends_on_what_it_reads(c, m),
        written_once(c, m, s),
        forall|k: int| 0 <= k < s.len() ==> place_laws::shaped(#[trigger] s[k]),
        rebind_place::literal_ok(c, s) is Ok,
    ensures
        in_one(c, m, s, 0, s.len() - 1, r, e) == apart(c, m, s, 0, s.len() - 1, r, r, e),
{
    statements_are_alike(c, m, s, 0, s.len() - 1, r, r, e, false);
}

/// Whether the record has a vector field at offset `off`.
pub open spec fn has_vector_at(c: Callee, off: i32) -> bool {
    let def = c.defs[c.record as int];
    exists|k: int|
        0 <= k < def.attributes.len() && types::base(
            (#[trigger] def.attributes@[k]).typedef@,
        ) is Vector && c.stores.position_of(def.known_type, def.attributes@[k].name@) == off
}

/// Whether a statement writes a bare number over a vector field of the buffer.
pub open spec fn zeroes_a_vector(c: Callee, n: ir::Node) -> bool {
    let m = ir::unspan(n);
    &&& m.head matches ir::Head::Call(d) && op_name(c.defs, d) == "OpSetInt4"@
    &&& m.kids.len() > 1
    &&& is_record_or_field(c, m.kids[0], c.buf)
    &&& ir::unspan(m.kids[1]).head matches ir::Head::Int(off) && has_vector_at(c, off)
}

proof fn vectors_are_found(c: Callee, off: i32, k: int)
    requires
        0 <= k <= c.defs[c.record as int].attributes.len(),
    ensures
        rebind_place::vector_at(c, off, k) <==> exists|i: int|
            0 <= i < k && types::base(
                (#[trigger] c.defs[c.record as int].attributes@[i]).typedef@,
            ) is Vector && c.stores.position_of(
                c.defs[c.record as int].known_type,
                c.defs[c.record as int].attributes@[i].name@,
            ) == off,
    decreases k,
{
    if k > 0 {
        vectors_are_found(c, off, k - 1);
        let at = c.defs[c.record as int].attributes@[k - 1];
        if types::base(at.typedef@) is Vector && c.stores.position_of(
            c.defs[c.record as int].known_type,
            at.name@,
        ) == off {
            assert(rebind_place::vector_at(c, off, k));
        }
    }
}

proof fn steps_are_safe(c: Callee, s: Seq<ir::Node>, i: int, end: int, written: bool, j: int)
    requires
        0 <= i <= j < end <= s.len(),
        rebind_place::literal_from(c, s, i, end, written) is Ok,
    ensures
        !zeroes_a_vector(c, s[j]),
        exists|w: bool| rebind_place::literal_step(c, s[j], w) is Ok,
    decreases end - i,
{
    let next = rebind_place::literal_step(c, s[i], written);
    assert(next is Ok);
    if j > i {
        steps_are_safe(c, s, i + 1, end, next->Ok_0, j);
    } else {
        let m = ir::unspan(s[j]);
        if m.kids.len() > 1 {
            match ir::unspan(m.kids[1]).head {
                ir::Head::Int(off) => {
                    vectors_are_found(c, off, c.defs[c.record as int].attributes.len() as int);
                },
                _ => {},
            }
        }
        if zeroes_a_vector(c, s[j]) {
            reveal_strlit("OpSetInt4");
            reveal_strlit("OpFree");
            reveal_strlit("OpDatabase");
            match m.head {
                ir::Head::Call(d) => {
                    let name = op_name(c.defs, d);
                    assert(name[2] == 'S');
                    if text::is_prefix("OpFree"@, name) {
                        assert(name.take(6)[2] == "OpFree"@[2]);
                    }
                },
                _ => {},
            }
        }
    }
}

/// A record literal that ends in variable `buf`, or in returning it.
pub open spec fn literal_of(n: ir::Node, buf: u16) -> bool {
    &&& n.head matches ir::Head::Block(name, _) && name == "Object"@
    &&& n.kids.len() > 0
    &&& {
        let last = ir::unspan(n.kids.last());
        ||| last.head == ir::Head::Var(buf)
        ||| last.head is Return && last.kids.len() > 0 && ir::unspan(last.kids[0]).head
            == ir::Head::Var(buf)
    }
}

proof fn literals_below_are_safe(c: Callee, n: ir::Node, q: Seq<int>)
    requires
        rebind_place::unsafe_literal(c, n) is None,
        capture_laws::below(n, q) is Some,
        literal_of(capture_laws::below(n, q)->0, c.buf),
    ensures
        rebind_place::literal_ok(c, capture_laws::below(n, q)->0.kids) is Ok,
    decreases q.len(),
{
    if q.len() > 0 {
        safe_at(c, n.kids, 0, q[0]);
        literals_below_are_safe(c, n.kids[q[0]], q.skip(1));
    }
}

proof fn safe_at(c: Callee, s: Seq<ir::Node>, from: int, i: int)
    requires
        0 <= from <= i < s.len(),
        rebind_place::unsafe_literal_in(c, s, from) is None,
    ensures
        rebind_place::unsafe_literal(c, s[i]) is None,
    decreases i - from,
{
    if from < i {
        safe_at(c, s, from + 1, i);
    }
}

/// Whether an exit answers the parameter, the buffer, or a literal that ends in the buffer.
pub open spec fn answers_one_of_them(n: ir::Node, param: u16, buf: u16) -> bool
    decreases n,
{
    if (n.head is Span || n.head is Return) && n.kids.len() > 0 {
        answers_one_of_them(n.kids[0], param, buf)
    } else {
        n.head == ir::Head::Var(param) || n.head == ir::Head::Var(buf) || literal_of(n, buf)
    }
}

/// The returns that answer anything else.
pub open spec fn answers_elsewhere(param: u16, buf: u16) -> spec_fn(ir::Node) -> bool {
    |n: ir::Node|
        n.head is Return && n.kids.len() > 0 && !answers_one_of_them(n.kids[0], param, buf)
}

proof fn exits_are_alike(c: Callee, n: ir::Node)
    ensures
        rebind_place::exit_ok(c, n) == answers_one_of_them(n, c.param, c.buf),
    decreases n,
{
    if (n.head is Span || n.head is Return) && n.kids.len() > 0 {
        exits_are_alike(c, n.kids[0]);
    }
}

proof fn returns_are_alike(c: Callee, n: ir::Node)
    ensures
        ir::any(n, answers_elsewhere(c.param, c.buf)) == ir::any(n, rebind_place::bad_return(c)),
    decreases n, 1int,
{
    let p = answers_elsewhere(c.param, c.buf);
    let q = rebind_place::bad_return(c);
    if n.kids.len() > 0 {
        exits_are_alike(c, n.kids[0]);
    }
    assert(p(n) == q(n));
    returns_are_alike_in(c, n, n.kids.len() as int);
    assert(n.kids.take(n.kids.len() as int) =~= n.kids);
}

proof fn returns_are_alike_in(c: Callee, n: ir::Node, k: int)
    requires
        0 <= k <= n.kids.len(),
    ensures
        ir::any_in(n.kids.take(k), answers_elsewhere(c.param, c.buf)) == ir::any_in(
            n.kids.take(k),
            rebind_place::bad_return(c),
        ),
    decreases n, 0int, k,
{
    if k > 0 {
        returns_are_alike_in(c, n, k - 1);
        returns_are_alike(c, n.kids[k - 1]);
        ir::any_step(n.kids, answers_elsewhere(c.param, c.buf), k - 1);
        ir::any_step(n.kids, rebind_place::bad_return(c), k - 1);
    }
}

/// The callee of a call that is handed a record as its parameter `k` and as its buffer.
pub open spec fn callee_of(data: &Data, stores: &Stores, f: u32, k: int, td: u32) -> Callee {
    let def = data.definitions@[f as int];
    let param = def.variables.var_named(def.attributes@[k].name@);
    Callee {
        defs: data.definitions@,
        vars: def.variables,
        stores: *stores,
        buf: def.variables.var_named("__retbuf"@),
        param,
        viewers: def.variables.variables@[param as int].viewers@,
        record: td,
        get_field: data.named("OpGetField"@),
    }
}

/// Whether an argument reaches what local `x` of a function holds.
pub open spec fn reaches(n: ir::Node, x: u16, viewers: Seq<u16>) -> bool {
    ir::any(n, reads(x)) || reads_any(n, viewers)
}

proof fn the_only_argument(
    args: Seq<ir::Node>,
    i: int,
    at: int,
    x: u16,
    viewers: Seq<u16>,
    found: Option<int>,
)
    requires
        0 <= i,
        rebind_place::handed_at(args, i, at, x, viewers, found) is Ok,
    ensures
        ({
            let r = rebind_place::handed_at(args, i, at, x, viewers, found)->Ok_0;
            &&& found is Some ==> r == found
            &&& r matches Some(k) ==> found == Some(k) || i <= k < args.len() && k != at
                && ir::unspan(args[k]).head == ir::Head::Var(x)
            &&& forall|j: int|
                i <= j < args.len() && j != at && r != Some(j) ==> !reaches(
                    #[trigger] args[j],
                    x,
                    viewers,
                )
        }),
    decreases args.len() - i,
{
    if i < args.len() {
        if i == at {
            the_only_argument(args, i + 1, at, x, viewers, found);
        } else if ir::unspan(args[i]).head == ir::Head::Var(x) {
            the_only_argument(args, i + 1, at, x, viewers, Some(i));
        } else {
            reading_is_alike(args[i], x);
            reading_one_is_alike(args[i], viewers, viewers.len() as int);
            the_only_argument(args, i + 1, at, x, viewers, found);
        }
    }
}

/// The assignments that make local `x` a view of something else: the value, or the last step
/// that comes to it, is a member of a tuple or what a projection answers.
pub open spec fn binds_a_view(defs: Seq<Definition>, x: u16) -> spec_fn(ir::Node) -> bool {
    |n: ir::Node|
        n.head == ir::Head::Assign(x) && n.kids.len() > 0 && {
            let m = ir::unspan(n.kids[0]);
            let value = if m.head is Insert {
                ir::unspan(m.kids.last())
            } else {
                m
            };
            (m.head is Insert ==> m.kids.len() > 0) && (value.head is TupleGet || (
            value.head matches ir::Head::Call(d) && d < defs.len() && defs[d as int].projection))
        }
}

/// A call that is handed the local it is assigned to as its buffer is a call of another
/// function with a body, which is handed that local as one by-value argument and reaches its
/// record by no other.  The local is a record of its own that views no other place, the
/// buffer that it replaces is one that the compiler made, and both are of the type that the
/// function answers.  Every return of the callee answers
/// that parameter, the buffer or a literal that is built into it; and every such literal,
/// wherever it stands, keeps the vectors of the record and does not see that parameter and
/// buffer are one.
pub proof fn a_rebound_record_is_updated_in_place<R, E, F>(
    data: Data,
    stores: Stores,
    d_nr: u32,
    derived: Seq<u16>,
    code: ir::Node,
    x: u16,
    f: u32,
    args: Seq<ir::Node>,
    m: Machine<R, E, F>,
    q: Seq<int>,
    r: R,
    e: E,
) -> (k: int)
    requires
        d_nr < data.definitions.len(),
        rebind_place::admission(&data, &stores, d_nr, derived, code, x, f, args) is Ok,
    ensures
        ({
            let at = rebind_place::admission(&data, &stores, d_nr, derived, code, x, f, args)->Ok_0;
            let vars = data.definitions@[d_nr as int].variables;
            let callee = data.definitions@[f as int];
            &&& f != d_nr && f < data.definitions.len()
            &&& callee.def_type == DefType::Function && !callee.rust_body && !callee.native_body
            &&& x < vars.variables.len() && !vars.argument(x)
            &&& !vars.variables@[x as int].compiler_generated
            &&& vars.variables@[x as int].tp@ matches types::Ty::Reference(td, deps)
                && deps.vars.len() == 0 && types::heap_def(callee.attributes@[at].typedef@) == Some(td)
                && types::heap_def(callee.attributes@[k].typedef@) == Some(td)
            &&& !vars.variables@[x as int].view_elided
            &&& vars.var_named("__own_"@ + vars.variables@[x as int].name@) == u16::MAX
            &&& derived.contains(x) && !ir::any(code, binds_a_view(data.definitions@, x))
            &&& !(callee.code@.head is Null) && !text::is_part("__lambda"@, callee.name@)
            &&& callee.attributes@[at].name@ == "__retbuf"@
            &&& ir::unspan(args[at]).head matches ir::Head::Var(b) && b < vars.variables.len()
                && vars.variables@[b as int].compiler_generated && text::is_prefix(
                "__ref_"@,
                vars.variables@[b as int].name@,
            )
            &&& callee.return_buffer == Some(at as usize) && 0 <= at < args.len()
            &&& 0 <= k < args.len() && k != at && ir::unspan(args[k]).head == ir::Head::Var(x)
            &&& k < callee.attributes.len() && !callee.attributes@[k].hidden
                && !(callee.attributes@[k].typedef@ is RefVar)
            &&& forall|j: int|
                0 <= j < args.len() && j != at && j != k ==> !reaches(
                    #[trigger] args[j],
                    x,
                    vars.variables@[x as int].viewers@,
                )
            &&& vars.variables@[x as int].tp@ matches types::Ty::Reference(td, _) && {
                let c = callee_of(&data, &stores, f, k, td);
                let body = ir::unspan(callee.code@);
                &&& !ir::any(callee.code@, answers_elsewhere(c.param, c.buf))
                &&& body.head is Block && body.kids.len() > 0 && answers_one_of_them(
                    body.kids.last(),
                    c.param,
                    c.buf,
                )
                &&& (capture_laws::below(callee.code@, q) is Some && literal_of(
                    capture_laws::below(callee.code@, q)->0,
                    c.buf,
                )) ==> {
                    let s = capture_laws::below(callee.code@, q)->0.kids;
                    &&& forall|j: int| 0 <= j < s.len() - 1 ==> !zeroes_a_vector(c, #[trigger] s[j])
                    &&& depends_on_what_it_reads(c, m) && written_once(c, m, s) ==> in_one(
                        c,
                        m,
                        s,
                        0,
                        s.len() - 1,
                        r,
                        e,
                    ) == apart(c, m, s, 0, s.len() - 1, r, r, e)
                }
            }
        }),
{
    let vars = data.definitions@[d_nr as int].variables;
    let callee = data.definitions@[f as int];
    let at = callee.return_buffer->0 as int;
    let viewers = vars.variables@[x as int].viewers@;
    the_only_argument(args, 0, at, x, viewers, None);
    assert(binds_a_view(data.definitions@, x) =~= rebind_place::projecting(data.definitions@, x));
    let k = (rebind_place::handed_at(args, 0, at, x, viewers, None)->Ok_0)->0;
    match vars.variables@[x as int].tp@ {
        types::Ty::Reference(td, _) => {
            let c = callee_of(&data, &stores, f, k, td);
            let n = callee.code@;
            assert(rebind_place::callee_safe(&data, &stores, f, k, td) is Ok);
            assert(rebind_place::body_safe(c, n) is Ok);
            returns_are_alike(c, n);
            let body = ir::unspan(n);
            let last = body.kids.last();
            exits_are_alike(c, last);
            place_laws::values_are_shaped(callee.code);
            if ir::unspan(last).head is Return {
                the_last_return(n, last, c.param, c.buf);
            }
            if capture_laws::below(n, q) is Some && literal_of(
                capture_laws::below(n, q)->0,
                c.buf,
            ) {
                let s = capture_laws::below(n, q)->0.kids;
                literals_below_are_safe(c, n, q);
                shaped_at(n, q);
                assert forall|j: int| 0 <= j < s.len() implies place_laws::shaped(
                    #[trigger] s[j],
                ) by {
                    shaped_below(capture_laws::below(n, q)->0, j);
                }
                assert forall|j: int| 0 <= j < s.len() - 1 implies !zeroes_a_vector(
                    c,
                    #[trigger] s[j],
                ) by {
                    steps_are_safe(c, s, 0, s.len() - 1, false, j);
                }
                if depends_on_what_it_reads(c, m) && written_once(c, m, s) {
                    a_safe_literal_does_not_see_that_two_are_one(c, m, s, r, e);
                }
            }
        },
        _ => {},
    }
    k
}

proof fn shaped_below(n: ir::Node, i: int)
    requires
        place_laws::shaped(n),
        0 <= i < n.kids.len(),
    ensures
        place_laws::shaped(n.kids[i]),
{
    if ir::any(n.kids[i], place_laws::misshapen()) {
        ir::any_step(n.kids, place_laws::misshapen(), i);
        ir::any_prefix(n.kids, place_laws::misshapen(), i + 1);
    }
}

proof fn shaped_at(n: ir::Node, q: Seq<int>)
    requires
        place_laws::shaped(n),
        capture_laws::below(n, q) is Some,
    ensures
        place_laws::shaped(capture_laws::below(n, q)->0),
    decreases q.len(),
{
    if q.len() > 0 {
        shaped_below(n, q[0]);
        shaped_at(n.kids[q[0]], q.skip(1));
    }
}

/// A return at the end answers one of them as any other does.
proof fn the_last_return(n: ir::Node, last: ir::Node, param: u16, buf: u16)
    requires
        place_laws::shaped(n),
        ir::unspan(n).kids.len() > 0,
        last == ir::unspan(n).kids.last(),
        ir::unspan(last).head is Return,
        !ir::any(n, answers_elsewhere(param, buf)),
    ensures
        answers_one_of_them(last, param, buf),
    decreases n,
{
    let p = answers_elsewhere(param, buf);
    if n.head is Span && n.kids.len() > 0 {
        if ir::any(n.kids[0], p) {
            ir::any_step(n.kids, p, 0);
            ir::any_prefix(n.kids, p, 1);
        }
        shaped_below(n, 0);
        the_last_return(n.kids[0], last, param, buf);
    } else {
        let i = n.kids.len() - 1;
        if ir::any(last, p) {
            ir::any_step(n.kids, p, i);
            ir::any_prefix(n.kids, p, i + 1);
        }
        shaped_below(n, i);
        a_return_answers(last, param, buf);
    }
}

proof fn a_return_answers(n: ir::Node, param: u16, buf: u16)
    requires
        place_laws::shaped(n),
        ir::unspan(n).head is Return,
        !ir::any(n, answers_elsewhere(param, buf)),
    ensures
        answers_one_of_them(n, param, buf),
    decreases n,
{
    let p = answers_elsewhere(param, buf);
    assert(!place_laws::misshapen()(n));
    if n.head is Span {
        if ir::any(n.kids[0], p) {
            ir::any_step(n.kids, p, 0);
            ir::any_prefix(n.kids, p, 1);
        }
        shaped_below(n, 0);
        a_return_answers(n.kids[0], param, buf);
    } else {
        assert(!p(n));
    }
}

/// Only assignments of admitted calls change, and of these only the argument that is the
/// buffer: it becomes the local that is assigned to.
pub proof fn only_the_buffer_argument_changes(e: Facts, n: ir::Node)
    requires
        n.head is Assign,
        n.kids.len() == 1,
        rebind_place::visited(e, n).kids.len() != 1 || rebind_place::visited(e, n).kids[0]
            != rebind_place::visited(e, n.kids[0]),
    ensures
        ({
            let call = ir::unspan(n.kids[0]);
            let out = rebind_place::visited(e, n);
            let before = ir::unspan(rebind_place::visited(e, n.kids[0]));
            let after = ir::unspan(out.kids[0]);
            &&& out.head == n.head && out.kids.len() == 1
            &&& call.head matches ir::Head::Call(f) && (n.head matches ir::Head::Assign(x) && (
            rebind_place::admission(
                &e.data,
                &e.stores,
                e.d_nr,
                e.derived,
                e.code,
                x,
                f,
                call.kids,
            ) matches Ok(at) && {
                &&& after.head == before.head
                &&& after.kids.len() == before.kids.len()
                &&& forall|j: int|
                    0 <= j < after.kids.len() ==> #[trigger] after.kids[j] == if j == at {
                        ir::var(x)
                    } else {
                        before.kids[j]
                    }
            }))
        }),
{
    let kids = rebind_place::visited_in(e, n.kids, 1);
    let none = rebind_place::visited_in(e, n.kids, 0);
    assert(none == Seq::<ir::Node>::empty());
    assert(kids == none.push(rebind_place::visited(e, n.kids[0])));
    assert(kids[0] == rebind_place::visited(e, n.kids[0]));
    let call = ir::unspan(n.kids[0]);
    let x = n.head->Assign_0;
    let f = call.head->Call_0;
    let at = rebind_place::admission(
        &e.data,
        &e.stores,
        e.d_nr,
        e.derived,
        e.code,
        x,
        f,
        call.kids,
    )->Ok_0;
    spans_are_kept(e, n.kids[0]);
    argument_is_put(kids[0], at, x);
}

/// The pass leaves the source positions round a call, and its operands in number.
proof fn spans_are_kept(e: Facts, n: ir::Node)
    ensures
        ir::unspan(n).head is Call ==> {
            let m = ir::unspan(rebind_place::visited(e, n));
            m.head == ir::unspan(n).head && m.kids.len() == ir::unspan(n).kids.len()
        },
    decreases n,
{
    visited_len(e, n.kids, n.kids.len() as int);
    if n.head is Span && n.kids.len() > 0 {
        spans_are_kept(e, n.kids[0]);
    }
}

proof fn visited_len(e: Facts, s: Seq<ir::Node>, k: int)
    requires
        0 <= k <= s.len(),
    ensures
        rebind_place::visited_in(e, s, k).len() == k,
        k > 0 ==> rebind_place::visited_in(e, s, k)[0] == rebind_place::visited(e, s[0]),
    decreases k,
{
    if k > 0 {
        visited_len(e, s, k - 1);
    }
}

proof fn argument_is_put(n: ir::Node, at: int, x: u16)
    requires
        ir::unspan(n).head is Call,
        0 <= at < ir::unspan(n).kids.len(),
    ensures
        ({
            let before = ir::unspan(n);
            let after = ir::unspan(rebind_place::with_arg(n, at, x));
            after.head == before.head && after.kids == before.kids.update(at, ir::var(x))
        }),
    decreases n,
{
    if n.head is Span && n.kids.len() > 0 {
        argument_is_put(n.kids[0], at, x);
        assert(rebind_place::with_arg(n, at, x).kids[0] == rebind_place::with_arg(
            n.kids[0],
            at,
            x,
        ));
    }
}

} // verus!
