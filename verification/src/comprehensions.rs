//! Comprehensions: vector literals that are filled by a loop.

use crate::cells;
use crate::data::{self, Data, Definition, Function};
use crate::elements;
use crate::ir::{self, Value};
use crate::places::{self, Assignment};
use crate::records;
use crate::schema::{self, Parts, Stores};
use crate::text;
use crate::types::{self, Deps, Type};
use crate::vector_store::{self, Holder};
use vstd::prelude::*;

verus! {

/// The most elements that a comprehension over constant bounds is unrolled to.
pub const UNROLL_LIMIT: u32 = 10000;

/// The first statement from `i` on that is more than a line mark.
pub open spec fn first_statement(s: Seq<ir::Node>, i: int) -> Option<int>
    decreases s.len() - i,
{
    if i < 0 || i >= s.len() {
        None
    } else if ir::unspan(s[i]).head is Line {
        first_statement(s, i + 1)
    } else {
        Some(i)
    }
}

/// The expression that the body of a comprehension is, where it is one: the only
/// statement of a block, or the body itself.
pub open spec fn only_expression(body: ir::Node) -> Option<ir::Node> {
    let m = ir::unspan(body);
    if m.head is Block {
        match first_statement(m.kids, 0) {
            Some(i) => if first_statement(m.kids, i + 1) is None {
                Some(ir::unspan(m.kids[i]))
            } else {
                None
            },
            None => None,
        }
    } else {
        Some(m)
    }
}

fn next_statement(s: &Vec<Value>, from: usize) -> (at: Option<usize>)
    requires
        from <= s.len(),
    ensures
        match at {
            Some(i) => from <= i < s.len() && first_statement(ir::views(s@), from as int) == Some(
                i as int,
            ),
            None => first_statement(ir::views(s@), from as int) is None,
        },
{
    proof {
        ir::view_at(s@);
    }
    let mut i: usize = from;
    while i < s.len()
        invariant
            from <= i <= s.len(),
            ir::views(s@).len() == s.len(),
            first_statement(ir::views(s@), from as int) == first_statement(
                ir::views(s@),
                i as int,
            ),
        decreases s.len() - i,
    {
        let mark: bool = match s[i].unspan() {
            Value::Line(_) => true,
            _ => false,
        };
        if !mark {
            return Some(i);
        }
        i = i + 1;
    }
    None
}

/// The expression that the body of a comprehension is, where it is one.
pub fn body_expression(body: &Value) -> (r: Option<&Value>)
    ensures
        match r {
            Some(v) => only_expression(body@) == Some(v@),
            None => only_expression(body@) is None,
        },
{
    let m: &Value = body.unspan();
    proof {
        ir::shape(*m);
    }
    match m {
        Value::Block(bl) => {
            proof {
                ir::view_at(bl.operators@);
            }
            match next_statement(&bl.operators, 0) {
                Some(i) => match next_statement(&bl.operators, i + 1) {
                    Some(_) => None,
                    None => Some(bl.operators[i].unspan()),
                },
                None => None,
            }
        },
        _ => Some(m),
    }
}

/// What a comprehension without a filter over a constant body is filled with: one
/// element, repeated as often as the range is long.
pub open spec fn const_fill(
    range: bool,
    filter: ir::Node,
    folded: Option<ir::Node>,
    count: ir::Node,
) -> Option<Seq<ir::Node>> {
    if !(filter.head is Null) || !range {
        None
    } else {
        match folded {
            Some(value) => Some(
                seq![value, ir::Node { head: ir::Head::Return, kids: seq![count] }],
            ),
            None => None,
        }
    }
}

/// What a comprehension over a constant body is filled with.  `range` tells whether
/// it loops over a range, `folded` is the constant that its body is, and `count` the
/// length of the range: its end where it starts at 0, and else the difference.
pub fn try_const_fill_comprehension(
    range: bool,
    filter: &Value,
    folded: Option<Value>,
    from_zero: bool,
    till: &Value,
    difference: &Value,
) -> (out: Option<Vec<Value>>)
    ensures
        ({
            let want = const_fill(
                range,
                filter@,
                match folded {
                    Some(v) => Some(v@),
                    None => None,
                },
                if from_zero {
                    till@
                } else {
                    difference@
                },
            );
            match out {
                Some(s) => want == Some(ir::views(s@)),
                None => want is None,
            }
        }),
{
    let open: bool = match filter {
        Value::Null => true,
        _ => false,
    };
    proof {
        ir::shape(*filter);
    }
    if !open || !range {
        return None;
    }
    match folded {
        Some(value) => {
            let count: Value = if from_zero {
                till.copy()
            } else {
                difference.copy()
            };
            let ghost n = count@;
            let times: Value = Value::Return(Box::new(count));
            assert(times@ == (ir::Node { head: ir::Head::Return, kids: seq![n] }));
            Some(ir::list2(value, times))
        },
        None => None,
    }
}

/// What a pass of an unrolled comprehension gives: nothing where the filter refuses
/// it, and no answer where the filter or the body is not constant.
pub enum Pass {
    Skipped,
    Element(ir::Node),
    Open,
}

/// What pass `i` gives.
pub open spec fn pass(
    filtered: bool,
    filters: Seq<Option<bool>>,
    values: Seq<Option<ir::Node>>,
    i: int,
) -> Pass {
    if filtered && filters[i] == Some(false) {
        Pass::Skipped
    } else if filtered && filters[i] is None {
        Pass::Open
    } else {
        match values[i] {
            Some(v) => Pass::Element(v),
            None => Pass::Open,
        }
    }
}

/// The elements that the first `k` passes give.
pub open spec fn unrolled(
    filtered: bool,
    filters: Seq<Option<bool>>,
    values: Seq<Option<ir::Node>>,
    k: int,
) -> Option<Seq<ir::Node>>
    decreases k,
{
    if k <= 0 {
        Some(Seq::empty())
    } else {
        match unrolled(filtered, filters, values, k - 1) {
            None => None,
            Some(before) => match pass(filtered, filters, values, k - 1) {
                Pass::Skipped => Some(before),
                Pass::Element(v) => Some(before.push(v)),
                Pass::Open => None,
            },
        }
    }
}

/// Optional values as values.
pub open spec fn option_views(s: Seq<Option<Value>>) -> Seq<Option<ir::Node>> {
    Seq::new(
        s.len(),
        |i: int|
            match s[i] {
                Some(v) => Some(v@),
                None => None,
            },
    )
}

/// The elements of a comprehension over constant bounds: none for an empty range,
/// and no answer for a range that is longer than the limit, or where a pass has
/// none.
pub open spec fn const_unroll(
    bounds: Option<(i32, i32)>,
    filtered: bool,
    filters: Seq<Option<bool>>,
    values: Seq<Option<ir::Node>>,
) -> Option<Seq<ir::Node>> {
    match bounds {
        Some((from, till)) => if from >= till {
            Some(Seq::empty())
        } else if till - from > UNROLL_LIMIT {
            None
        } else {
            unrolled(filtered, filters, values, till - from)
        },
        None => None,
    }
}

/// No more elements come of the passes than there are passes.
pub proof fn unrolled_len(
    filtered: bool,
    filters: Seq<Option<bool>>,
    values: Seq<Option<ir::Node>>,
    k: int,
)
    requires
        0 <= k,
    ensures
        unrolled(filtered, filters, values, k) matches Some(s) ==> s.len() <= k,
    decreases k,
{
    if k > 0 {
        unrolled_len(filtered, filters, values, k - 1);
    }
}

proof fn open_stays_open(
    filtered: bool,
    filters: Seq<Option<bool>>,
    values: Seq<Option<ir::Node>>,
    i: int,
    k: int,
)
    requires
        0 <= i <= k,
        unrolled(filtered, filters, values, i) is None,
    ensures
        unrolled(filtered, filters, values, k) is None,
    decreases k - i,
{
    if i < k {
        open_stays_open(filtered, filters, values, i, k - 1);
    }
}

/// The elements of a comprehension over constant bounds.  `filters` and `values` are
/// what its filter and its body are in each pass, where they are constant.
pub fn try_const_unroll_comprehension(
    bounds: Option<(i32, i32)>,
    filtered: bool,
    filters: &Vec<Option<bool>>,
    values: &Vec<Option<Value>>,
) -> (out: Option<Vec<Value>>)
    requires
        bounds matches Some((from, till)) ==> (till - from <= UNROLL_LIMIT ==> till - from
            <= filters.len() && till - from <= values.len()),
    ensures
        ({
            let want = const_unroll(bounds, filtered, filters@, option_views(values@));
            match out {
                Some(s) => want == Some(ir::views(s@)),
                None => want is None,
            }
        }),
{
    let mut out: Vec<Value> = Vec::new();
    assert(ir::views(out@) =~= Seq::<ir::Node>::empty());
    let (from, till): (i32, i32) = match bounds {
        Some(b) => b,
        None => {
            return None;
        },
    };
    if from >= till {
        return Some(out);
    }
    let count: i64 = till as i64 - from as i64;
    if count > UNROLL_LIMIT as i64 {
        return None;
    }
    let n: usize = count as usize;
    let ghost all = option_views(values@);
    let mut i: usize = 0;
    while i < n
        invariant
            i <= n,
            n <= filters.len(),
            n <= values.len(),
            n == till - from,
            n <= UNROLL_LIMIT,
            bounds == Some((from, till)),
            from < till,
            all == option_views(values@),
            unrolled(filtered, filters@, all, i as int) == Some(ir::views(out@)),
        decreases n - i,
    {
        assert(all[i as int] == (match values@[i as int] {
            Some(v) => Some(v@),
            None => None,
        }));
        let mut keep: bool = true;
        if filtered {
            match filters[i] {
                Some(wanted) => {
                    keep = wanted;
                },
                None => {
                    proof {
                        open_stays_open(filtered, filters@, all, i + 1, n as int);
                    }
                    return None;
                },
            }
        }
        if keep {
            match &values[i] {
                Some(v) => {
                    ir::put(&mut out, v.copy());
                },
                None => {
                    proof {
                        open_stays_open(filtered, filters@, all, i + 1, n as int);
                    }
                    return None;
                },
            }
        }
        i = i + 1;
    }
    Some(out)
}

/// How a loop over a source ends: by the statements that look at the position in a text
/// or at the length of a vector, where the loop variable is no longer a value, or where
/// the generator is exhausted.
#[derive(Debug)]
pub enum LoopEnd {
    Position(Vec<Value>),
    Length(Vec<Value>),
    Test(Value),
    Generator,
}

/// How a loop over a source ends, as a value.
pub enum EndView {
    Position(Seq<ir::Node>),
    Length(Seq<ir::Node>),
    Test(ir::Node),
    Generator,
}

impl LoopEnd {
    pub open spec fn view(&self) -> EndView {
        match *self {
            LoopEnd::Position(s) => EndView::Position(ir::views(s@)),
            LoopEnd::Length(s) => EndView::Length(ir::views(s@)),
            LoopEnd::Test(v) => EndView::Test(v@),
            LoopEnd::Generator => EndView::Generator,
        }
    }
}

/// How a loop over a source of type `t` ends: over text by the position, over a vector by
/// its length and not by what it holds, over a generator when that is exhausted, and
/// else where the loop variable is no longer a value.
pub open spec fn end_of(
    t: types::Ty,
    pre_var: Option<u16>,
    by_position: Seq<ir::Node>,
    by_length: Option<Seq<ir::Node>>,
    test: ir::Node,
) -> EndView {
    if t is Text && pre_var is Some {
        EndView::Position(by_position)
    } else if t is Vector && by_length is Some {
        EndView::Length(by_length->0)
    } else if t is Iterator {
        EndView::Generator
    } else {
        EndView::Test(test)
    }
}

/// How a loop over a source ends.  `by_position` and `by_length` are the statements that
/// leave it at the end of a text and of a vector, `test` is the truth of its variable.
pub fn loop_end(
    source: &Type,
    pre_var: Option<u16>,
    by_position: Vec<Value>,
    by_length: Option<Vec<Value>>,
    test: Value,
) -> (end: LoopEnd)
    ensures
        end@ == end_of(
            source@,
            pre_var,
            ir::views(by_position@),
            match by_length {
                Some(s) => Some(ir::views(s@)),
                None => None,
            },
            test@,
        ),
{
    match source {
        Type::Text(_) => if pre_var.is_some() {
            LoopEnd::Position(by_position)
        } else {
            LoopEnd::Test(test)
        },
        Type::Vector(_, _) => match by_length {
            Some(s) => LoopEnd::Length(s),
            None => LoopEnd::Test(test),
        },
        Type::Iterator(_) => LoopEnd::Generator,
        _ => LoopEnd::Test(test),
    }
}

/// The generator that the next value of a loop is asked of.
pub open spec fn generator(next: ir::Node) -> Option<u16> {
    let m = ir::unspan(next);
    if m.head is Assign && m.kids.len() > 0 {
        let call = ir::unspan(m.kids[0]);
        if call.head is Call && call.kids.len() > 0 {
            match ir::unspan(call.kids[0]).head {
                ir::Head::Var(v) => Some(v),
                _ => None,
            }
        } else {
            None
        }
    } else {
        None
    }
}

fn find_generator(next: &Value) -> (r: Option<u16>)
    ensures
        r == generator(next@),
{
    let m: &Value = next.unspan();
    match m {
        Value::Assign(_, rhs) => {
            assert(m@.kids[0] == rhs@);
            let call: &Value = rhs.unspan();
            proof {
                ir::shape(*call);
            }
            match call {
                Value::Call(_, args) => {
                    proof {
                        ir::view_at(args@);
                    }
                    if args.len() > 0 {
                        match args[0].unspan() {
                            Value::Var(v) => Some(*v),
                            _ => None,
                        }
                    } else {
                        None
                    }
                },
                _ => None,
            }
        },
        _ => None,
    }
}

/// The choice to leave a loop.
pub open spec fn left_when(test: ir::Node) -> ir::Node {
    ir::choice(
        test,
        ir::block("break"@, seq![ir::leaf(ir::Head::Break(0))], types::Ty::Void),
        ir::leaf(ir::Head::Null),
    )
}

fn leave_when(test: Value) -> (v: Value)
    ensures
        v@ == left_when(test@),
{
    ir::make_choice(
        test,
        ir::make_block("break", ir::list1(Value::Break(0)), Type::Void),
        Value::Null,
    )
}

/// The statements that end a loop.
pub open spec fn ended(defs: Seq<Definition>, end: EndView, next: ir::Node) -> Seq<ir::Node> {
    match end {
        EndView::Position(s) | EndView::Length(s) => s,
        EndView::Test(v) => seq![
            left_when(ir::call(vector_store::op(defs, "OpNot"@), seq![v])),
        ],
        EndView::Generator => match generator(next) {
            Some(g) => if g != u16::MAX {
                seq![
                    left_when(
                        ir::call(
                            vector_store::op(defs, "OpCoroutineExhausted"@),
                            seq![ir::var(g)],
                        ),
                    ),
                ]
            } else {
                Seq::empty()
            },
            None => Seq::empty(),
        },
    }
}

fn make_end(data: &Data, end: &LoopEnd, next: &Value) -> (s: Vec<Value>)
    requires
        data.definitions.len() <= u32::MAX,
    ensures
        ir::views(s@) == ended(data.definitions@, end@, next@),
{
    match end {
        LoopEnd::Position(s) | LoopEnd::Length(s) => ir::copy_all(s),
        LoopEnd::Test(v) => ir::list1(
            leave_when(vector_store::cl(data, "OpNot", ir::list1(v.copy()))),
        ),
        LoopEnd::Generator => {
            let none: Vec<Value> = Vec::new();
            assert(ir::views(none@) =~= Seq::<ir::Node>::empty());
            match find_generator(next) {
                Some(g) => {
                    if g != u16::MAX {
                        ir::list1(
                            leave_when(
                                vector_store::cl(
                                    data,
                                    "OpCoroutineExhausted",
                                    ir::list1(Value::Var(g)),
                                ),
                            ),
                        )
                    } else {
                        none
                    }
                },
                None => none,
            }
        },
    }
}

/// The stored types and that of the vector that elements of a type are added to; 0
/// for elements that are not stored.
pub open spec fn vector_type(
    s: Seq<schema::TypeView>,
    defs: Seq<Definition>,
    in_t: types::Ty,
) -> (Seq<schema::TypeView>, u16) {
    let (more, elem) = elements::vector_stored(s, defs, in_t);
    if elem == u16::MAX {
        (more, 0)
    } else if in_t is Vector && schema::size_of(more, schema::content_of(more, elem)) < 4 {
        schema::registered(more, Parts::Vector, elem, ""@)
    } else {
        (more, elem)
    }
}

fn find_vector_type(stores: &mut Stores, data: &Data, in_t: &Type) -> (kt: u16)
    requires
        old(stores).types.len() <= u16::MAX,
    ensures
        (final(stores)@, kt) == vector_type(old(stores)@, data.definitions@, in_t@),
        final(stores).types.len() <= u16::MAX,
{
    let elem: u16 = elements::vector_of(stores, data, in_t);
    if elem == u16::MAX {
        return 0;
    }
    match in_t {
        Type::Vector(_, _) => {
            let content: u16 = stores.content(elem);
            if stores.size(content) < 4 {
                stores.register(Parts::Vector, elem, "")
            } else {
                elem
            }
        },
        _ => elem,
    }
}

/// The stored type that a vector element is copied by; none is needed for other
/// elements.
pub open spec fn copy_type(
    s: Seq<schema::TypeView>,
    defs: Seq<Definition>,
    in_t: types::Ty,
) -> (Seq<schema::TypeView>, u16) {
    match in_t {
        types::Ty::Vector(_, _) => elements::element_stored(s, defs, in_t),
        _ => (s, 0),
    }
}

/// The statements that write the value of a pass to its element.
pub open spec fn element_written(
    defs: Seq<Definition>,
    in_t: types::Ty,
    elm: u16,
    comp: u16,
    copy_tp: u16,
) -> Seq<ir::Node> {
    if in_t is Vector {
        seq![
            ir::call(
                vector_store::op(defs, "OpSetInt4"@),
                seq![ir::var(elm), ir::int_value(0), ir::int_value(0)],
            ),
            ir::call(
                vector_store::op(defs, "OpCopyRecord"@),
                seq![ir::var(comp), ir::var(elm), ir::int_value(copy_tp as i32)],
            ),
        ]
    } else {
        match elements::narrow_written(defs, in_t, ir::var(elm), ir::var(comp)) {
            Some(write) => seq![write],
            None => seq![records::written_at(defs, in_t, ir::var(elm), 0, ir::var(comp))],
        }
    }
}

fn write_element(data: &Data, in_t: &Type, elm: u16, comp: u16, copy_tp: u16) -> (s: Vec<Value>)
    requires
        data.definitions.len() <= u32::MAX,
    ensures
        ir::views(s@) == element_written(data.definitions@, in_t@, elm, comp, copy_tp),
{
    match in_t {
        Type::Vector(_, _) => {
            let clear: Value = vector_store::cl(
                data,
                "OpSetInt4",
                ir::list3(Value::Var(elm), Value::Int(0), Value::Int(0)),
            );
            let copy: Value = vector_store::cl(
                data,
                "OpCopyRecord",
                ir::list3(Value::Var(comp), Value::Var(elm), Value::Int(copy_tp as i32)),
            );
            ir::list2(clear, copy)
        },
        _ => match elements::narrow_elm_write(in_t, Value::Var(elm), &Value::Var(comp), data) {
            Some(write) => ir::list1(write),
            None => ir::list1(
                records::make_write(data, in_t, Value::Var(elm), 0, Value::Var(comp)),
            ),
        },
    }
}

/// The loop of a comprehension: what fills its source, what starts it, its next
/// value, its filter and its body, in this order.
pub open spec fn loop_steps(
    defs: Seq<Definition>,
    parts: Seq<ir::Node>,
    end: Seq<ir::Node>,
    in_t: types::Ty,
    vec_expr: ir::Node,
    elm: u16,
    comp: u16,
    known: u16,
    copy_tp: u16,
) -> Seq<ir::Node> {
    let filter = if parts[3].head is Null {
        Seq::empty()
    } else {
        seq![ir::choice(parts[3], ir::leaf(ir::Head::Null), ir::leaf(ir::Head::Continue(0)))]
    };
    let room = seq![
        ir::assign(comp, parts[4]),
        ir::assign(
            elm,
            ir::call(
                vector_store::op(defs, "OpNewRecord"@),
                seq![vec_expr, ir::int_value(known as i32), ir::int_value(0xffff)],
            ),
        ),
    ];
    let done = seq![
        ir::call(
            vector_store::op(defs, "OpFinishRecord"@),
            seq![vec_expr, ir::var(elm), ir::int_value(known as i32), ir::int_value(0xffff)],
        ),
    ];
    seq![parts[2]] + end + filter + room + element_written(defs, in_t, elm, comp, copy_tp) + done
}

/// The statements of the whole loop.
pub open spec fn for_steps(
    parts: Seq<ir::Node>,
    pre_var: Option<u16>,
    lp: Seq<ir::Node>,
) -> Seq<ir::Node> {
    let fill = if parts[0].head is Null {
        Seq::empty()
    } else {
        seq![parts[0]]
    };
    let index = match pre_var {
        Some(i) => seq![ir::assign(i, ir::int_value(0))],
        None => Seq::empty(),
    };
    fill + index + seq![parts[1], ir::looped("For comprehension"@, lp, types::Ty::Void)]
}

fn is_null(v: &Value) -> (r: bool)
    ensures
        r == (v@.head is Null),
{
    proof {
        ir::shape(*v);
    }
    match v {
        Value::Null => true,
        _ => false,
    }
}

fn make_loop_steps(
    data: &Data,
    parts: &Vec<Value>,
    end: Vec<Value>,
    in_t: &Type,
    vec_expr: &Value,
    elm: u16,
    comp: u16,
    known: u16,
    copy_tp: u16,
) -> (s: Vec<Value>)
    requires
        data.definitions.len() <= u32::MAX,
        parts.len() == 5,
    ensures
        ir::views(s@) == loop_steps(
            data.definitions@,
            ir::views(parts@),
            ir::views(end@),
            in_t@,
            vec_expr@,
            elm,
            comp,
            known,
            copy_tp,
        ),
{
    proof {
        ir::view_at(parts@);
    }
    let ghost p = ir::views(parts@);
    let ghost e = ir::views(end@);
    let mut s: Vec<Value> = ir::list1(parts[2].copy());
    ir::put_all(&mut s, end);
    if !is_null(&parts[3]) {
        ir::put(
            &mut s,
            ir::make_choice(parts[3].copy(), Value::Null, Value::Continue(0)),
        );
    }
    let ghost filter = if p[3].head is Null {
        Seq::empty()
    } else {
        seq![ir::choice(p[3], ir::leaf(ir::Head::Null), ir::leaf(ir::Head::Continue(0)))]
    };
    assert(ir::views(s@) =~= seq![p[2]] + e + filter);
    let made: Value = vector_store::cl(
        data,
        "OpNewRecord",
        ir::list3(vec_expr.copy(), Value::Int(known as i32), Value::Int(0xffff)),
    );
    let room: Vec<Value> = ir::list2(
        ir::make_assign(comp, parts[4].copy()),
        ir::make_assign(elm, made),
    );
    ir::put_all(&mut s, room);
    ir::put_all(&mut s, write_element(data, in_t, elm, comp, copy_tp));
    let done: Value = vector_store::cl(
        data,
        "OpFinishRecord",
        ir::list4(
            vec_expr.copy(),
            Value::Var(elm),
            Value::Int(known as i32),
            Value::Int(0xffff),
        ),
    );
    ir::put_all(&mut s, ir::list1(done));
    s
}

fn make_for_steps(parts: &Vec<Value>, pre_var: Option<u16>, lp: Vec<Value>) -> (s: Vec<Value>)
    requires
        parts.len() == 5,
    ensures
        ir::views(s@) == for_steps(ir::views(parts@), pre_var, ir::views(lp@)),
{
    proof {
        ir::view_at(parts@);
    }
    let ghost p = ir::views(parts@);
    let mut s: Vec<Value> = Vec::new();
    assert(ir::views(s@) =~= Seq::<ir::Node>::empty());
    if !is_null(&parts[0]) {
        ir::put(&mut s, parts[0].copy());
    }
    match pre_var {
        Some(i) => {
            ir::put(&mut s, ir::make_assign(i, Value::Int(0)));
        },
        None => {},
    }
    let ghost fill = if p[0].head is Null {
        Seq::empty()
    } else {
        seq![p[0]]
    };
    let ghost index = match pre_var {
        Some(i) => seq![ir::assign(i, ir::int_value(0))],
        None => Seq::empty(),
    };
    assert(ir::views(s@) =~= fill + index);
    let ghost l = ir::views(lp@);
    let lp_loop: Value = ir::make_loop("For comprehension", lp, Type::Void);
    ir::put_all(&mut s, ir::list2(parts[1].copy(), lp_loop));
    s
}

/// The first statement from `i` on that assigns to `v`.
pub open spec fn bind_from(s: Seq<ir::Node>, v: u16, i: int) -> Option<int>
    decreases s.len() - i,
{
    if i < 0 || i >= s.len() {
        None
    } else if ir::unspan(s[i]).head == ir::Head::Assign(v) {
        Some(i)
    } else {
        bind_from(s, v, i + 1)
    }
}

fn find_bind(s: &Vec<Value>, v: u16) -> (at: Option<usize>)
    ensures
        match at {
            Some(i) => i < s.len() && bind_from(ir::views(s@), v, 0) == Some(i as int)
                && ir::unspan(ir::views(s@)[i as int]).head == ir::Head::Assign(v),
            None => bind_from(ir::views(s@), v, 0) is None,
        },
{
    proof {
        ir::view_at(s@);
    }
    let mut i: usize = 0;
    while i < s.len()
        invariant
            i <= s.len(),
            ir::views(s@).len() == s.len(),
            bind_from(ir::views(s@), v, 0) == bind_from(ir::views(s@), v, i as int),
        decreases s.len() - i,
    {
        let found: bool = match s[i].unspan() {
            Value::Assign(x, _) => *x == v,
            _ => false,
        };
        if found {
            return Some(i);
        }
        i = i + 1;
    }
    None
}

/// What a comprehension is built with.
pub struct Plan {
    pub vec: u16,
    pub vec_expr: ir::Node,
    pub elm: u16,
    pub in_t: types::Ty,
    pub end: EndView,
    pub pre_var: Option<u16>,
    pub val: ir::Node,
    pub is_var: bool,
    pub is_field: bool,
    pub block: bool,
    pub holder: Holder,
    pub assignment: Assignment,
    pub linked: Seq<u16>,
    pub elem_tp: i32,
}

/// The type of the variable that holds the value of a pass: a body that is a view
/// of something keeps that alive.
pub open spec fn pass_type(f: data::FnView, body: ir::Node, in_t: types::Ty) -> types::Ty {
    match body.head {
        ir::Head::Var(v) => if v < f.vars.len() && types::depend(f.vars[v as int].tp).len() > 0 {
            types::depending_on(in_t, v)
        } else {
            in_t
        },
        _ => in_t,
    }
}

/// A comprehension that reads the vector it replaces: the statements before it, what
/// the vector is until it is bound, and the variable that holds a copy for the parts to
/// read, where one is taken.
pub struct Deferred {
    pub alloc: Seq<ir::Node>,
    pub handle: ir::Node,
    pub copy: Option<u16>,
}

/// How the binding of the vector is put off until the comprehension has read it.
pub open spec fn deferred(
    defs: Seq<Definition>,
    f: data::FnView,
    p: Plan,
    parts: Seq<ir::Node>,
) -> (data::FnView, Option<Deferred>, Seq<ir::Node>) {
    if places::reads_target(p.assignment, p.vec, p.is_var, p.linked, parts) {
        let (g, steps) = if vector_store::no_record(f, p.vec, false) {
            (f, Seq::empty())
        } else {
            (
                vector_store::with_record(f, p.vec, p.holder, false).0,
                vector_store::record_steps(defs, f, p.vec, p.holder, 0, false),
            )
        };
        match bind_from(steps, p.vec, 0) {
            Some(i) => {
                let handle = ir::unspan(steps[i]).kids[0];
                let dest = ir::var(p.vec);
                if places::needs_snapshot(
                    defs,
                    g,
                    p.assignment,
                    p.vec,
                    dest,
                    p.is_var,
                    false,
                    p.linked,
                    parts,
                    false,
                ) {
                    let src = g.vars.len() as u16;
                    let h = places::with_copy(g, p.in_t);
                    let snap = places::snapshot_steps(defs, h, p.holder, src, dest, p.elem_tp);
                    (
                        vector_store::with_record(h, src, p.holder, false).0,
                        Some(Deferred { alloc: snap + steps.remove(i), handle, copy: Some(src) }),
                        places::redirected_all(defs, parts, dest, p.vec, p.linked, src),
                    )
                } else {
                    (g, Some(Deferred { alloc: steps.remove(i), handle, copy: None }), parts)
                }
            },
            None => (g, None, parts),
        }
    } else {
        (f, None, parts)
    }
}

/// A copy of a list without one of its values.
fn without(s: &Vec<Value>, at: usize) -> (out: Vec<Value>)
    requires
        at < s.len(),
    ensures
        ir::views(out@) == ir::views(s@).remove(at as int),
{
    let mut out: Vec<Value> = ir::copy_range(s, 0, at);
    ir::put_all(&mut out, ir::copy_range(s, at + 1, s.len()));
    proof {
        ir::view_at(s@);
    }
    assert(ir::views(out@) =~= ir::views(s@).remove(at as int));
    out
}

struct Delay {
    alloc: Vec<Value>,
    handle: Value,
    copy: Option<u16>,
}

spec fn delay_view(d: Option<Delay>) -> Option<Deferred> {
    match d {
        Some(d) => Some(
            Deferred { alloc: ir::views(d.alloc@), handle: d.handle@, copy: d.copy },
        ),
        None => None,
    }
}

fn defer(
    data: &Data,
    vars: &mut Function,
    p: &Build,
    parts: Vec<Value>,
) -> (r: (Option<Delay>, Vec<Value>))
    requires
        data.definitions.len() <= u32::MAX,
        old(vars).variables.len() + 3 <= u16::MAX,
        parts.len() == 5,
    ensures
        ({
            let (g, d, rest) = deferred(data.definitions@, old(vars)@, p@, ir::views(parts@));
            &&& final(vars)@ == g
            &&& ir::views(r.1@) == rest
            &&& delay_view(r.0) == d
        }),
        final(vars).variables.len() <= old(vars).variables.len() + 3,
        r.1.len() == 5,
{
    if !places::comprehension_reads_target(p.assignment, p.vec, p.is_var, &p.linked, &parts) {
        return (None, parts);
    }
    let ghost f = vars@;
    let steps: Vec<Value> = vector_store::vector_db(data, vars, p.holder, p.vec, false);
    proof {
        if vector_store::no_record(f, p.vec, false) {
            assert(ir::views(steps@) =~= Seq::<ir::Node>::empty());
        }
    }
    let at: usize = match find_bind(&steps, p.vec) {
        Some(i) => i,
        None => {
            return (None, parts);
        },
    };
    proof {
        ir::view_at(steps@);
    }
    let bind: &Value = steps[at].unspan();
    let handle: Value = match bind {
        Value::Assign(_, rhs) => {
            assert(bind@.kids[0] == rhs@);
            rhs.copy()
        },
        _ => Value::Null,
    };
    let rest: Vec<Value> = without(&steps, at);
    let dest = Value::Var(p.vec);
    let src: u16 = vars.variables.len() as u16;
    let (snap, out): (Option<Vec<Value>>, Vec<Value>) = places::snapshot_read_destination(
        data,
        vars,
        p.assignment,
        p.vec,
        &dest,
        p.is_var,
        false,
        &p.in_t,
        &p.linked,
        parts,
        p.holder,
        p.elem_tp,
        false,
    );
    proof {
        ir::view_at(out@);
        ir::view_at(parts@);
    }
    match snap {
        Some(copy) => {
            let mut alloc: Vec<Value> = copy;
            ir::put_all(&mut alloc, rest);
            (Some(Delay { alloc, handle, copy: Some(src) }), out)
        },
        None => (Some(Delay { alloc: rest, handle, copy: None }), out),
    }
}

/// What a comprehension is built with.
#[derive(Debug)]
pub struct Build {
    pub vec: u16,
    pub vec_expr: Value,
    pub elm: u16,
    pub in_t: Type,
    pub end: LoopEnd,
    pub pre_var: Option<u16>,
    pub val: Value,
    pub is_var: bool,
    pub is_field: bool,
    pub block: bool,
    pub holder: Holder,
    pub assignment: Assignment,
    pub linked: Vec<u16>,
    pub elem_tp: i32,
}

impl Build {
    pub open spec fn view(&self) -> Plan {
        Plan {
            vec: self.vec,
            vec_expr: self.vec_expr@,
            elm: self.elm,
            in_t: self.in_t@,
            end: self.end@,
            pre_var: self.pre_var,
            val: self.val@,
            is_var: self.is_var,
            is_field: self.is_field,
            block: self.block,
            holder: self.holder,
            assignment: self.assignment,
            linked: self.linked@,
            elem_tp: self.elem_tp,
        }
    }
}

/// The variables, the statements and the type once a block has a vector of its own.
pub open spec fn block_made(defs: Seq<Definition>, f: data::FnView, p: Plan, t: types::Ty) -> (
    data::FnView,
    Seq<ir::Node>,
    types::Ty,
) {
    if !p.block {
        (f, Seq::empty(), t)
    } else {
        let (g, steps) = if vector_store::no_record(f, p.vec, false) {
            (f, Seq::empty())
        } else {
            (
                vector_store::with_record(f, p.vec, p.holder, false).0,
                vector_store::record_steps(defs, f, p.vec, p.holder, 0, false),
            )
        };
        let t1 = match t {
            types::Ty::Vector(elem, _) => types::Ty::Vector(
                elem,
                types::frame(
                    if p.vec < g.vars.len() {
                        types::depend(g.vars[p.vec as int].tp)
                    } else {
                        Seq::empty()
                    },
                ),
            ),
            _ => t,
        };
        (g, steps, t1)
    }
}

fn make_block_vector(data: &Data, vars: &mut Function, p: &Build, tp: Type) -> (r: (
    Vec<Value>,
    Type,
))
    requires
        data.definitions.len() <= u32::MAX,
        old(vars).variables.len() < u16::MAX,
    ensures
        (final(vars)@, ir::views(r.0@), r.1@) == block_made(
            data.definitions@,
            old(vars)@,
            p@,
            tp@,
        ),
        final(vars).variables.len() <= old(vars).variables.len() + 1,
{
    let none: Vec<Value> = Vec::new();
    assert(ir::views(none@) =~= Seq::<ir::Node>::empty());
    if !p.block {
        return (none, tp);
    }
    let ghost f = vars@;
    let steps: Vec<Value> = vector_store::vector_db(data, vars, p.holder, p.vec, false);
    proof {
        if vector_store::no_record(f, p.vec, false) {
            assert(ir::views(steps@) =~= Seq::<ir::Node>::empty());
        }
    }
    let deps: Vec<u16> = if (p.vec as usize) < vars.variables.len() {
        assert(vars@.vars[p.vec as int] == vars.variables@[p.vec as int]@);
        vars.variables[p.vec as usize].tp.depend()
    } else {
        let none: Vec<u16> = Vec::new();
        assert(none@ =~= Seq::<u16>::empty());
        none
    };
    let out: Type = match tp {
        Type::Vector(elem, _) => Type::Vector(elem, Deps::frame(deps)),
        other => other,
    };
    (steps, out)
}

/// The variables and the statements once the vector of a comprehension is bound: put
/// off, given a record, or assigned first.
pub open spec fn bound(
    defs: Seq<Definition>,
    f: data::FnView,
    p: Plan,
    d: Option<Deferred>,
    steps: Seq<ir::Node>,
) -> (data::FnView, Seq<ir::Node>) {
    match d {
        Some(d) => (f, d.alloc + steps + seq![ir::assign(p.vec, d.handle)]),
        None => if p.elm < f.vars.len() && vector_store::needs_db(f, p.vec, p.in_t, p.is_var) {
            let (g, db) = vector_store::with_new(f, p.vec, p.elm, p.holder);
            (g, vector_store::trio(defs, p.vec, db, p.holder, 0) + steps)
        } else if !p.is_field && !p.is_var && !(p.val.head is Null) {
            (f, seq![ir::assign(p.vec, p.val)] + steps)
        } else {
            (f, steps)
        },
    }
}

fn bind(
    data: &Data,
    vars: &mut Function,
    p: &Build,
    d: Option<Delay>,
    steps: Vec<Value>,
) -> (out: Vec<Value>)
    requires
        data.definitions.len() <= u32::MAX,
        old(vars).variables.len() < u16::MAX,
    ensures
        (final(vars)@, ir::views(out@)) == bound(
            data.definitions@,
            old(vars)@,
            p@,
            delay_view(d),
            ir::views(steps@),
        ),
{
    let mut steps = steps;
    match d {
        Some(d) => {
            let mut out: Vec<Value> = d.alloc;
            ir::put_all(&mut out, steps);
            ir::put_all(&mut out, ir::list1(ir::make_assign(p.vec, d.handle)));
            out
        },
        None => {
            if (p.elm as usize) < vars.variables.len() && vector_store::vector_needs_db(
                vars,
                p.vec,
                &p.in_t,
                p.is_var,
            ) {
                let _ = vector_store::insert_new(
                    data,
                    vars,
                    p.holder,
                    p.vec,
                    p.elm,
                    &mut steps,
                );
            } else if !p.is_field && !p.is_var && !is_null(&p.val) {
                ir::put_first(&mut steps, ir::make_assign(p.vec, p.val.copy()));
            }
            steps
        },
    }
}

/// The statements that end the loop of a comprehension.  Over a text they read what its
/// next value reads, so they read the copy where one is taken.
pub open spec fn ended_over(
    defs: Seq<Definition>,
    p: Plan,
    d: Option<Deferred>,
    next: ir::Node,
) -> Seq<ir::Node> {
    let end = ended(defs, p.end, next);
    if p.end is Position && d is Some && d->0.copy is Some {
        places::redirected_all(defs, end, ir::var(p.vec), p.vec, p.linked, d->0.copy->0)
    } else {
        end
    }
}

fn make_end_over(
    data: &Data,
    p: &Build,
    d: &Option<Delay>,
    end: Vec<Value>,
    Ghost(next): Ghost<ir::Node>,
) -> (out: Vec<Value>)
    requires
        data.definitions.len() <= u32::MAX,
        ir::views(end@) == ended(data.definitions@, p@.end, next),
    ensures
        ir::views(out@) == ended_over(data.definitions@, p@, delay_view(*d), next),
{
    let by_position: bool = match &p.end {
        LoopEnd::Position(_) => true,
        _ => false,
    };
    match d {
        Some(d) => match d.copy {
            Some(src) => if by_position {
                places::redirect_all(data, &end, &Value::Var(p.vec), p.vec, &p.linked, src)
            } else {
                end
            },
            None => end,
        },
        None => end,
    }
}

/// What the body of a comprehension is expected to be: an element that may be absent
/// where the vector is declared to hold those, and nothing that is known otherwise.
pub open spec fn expected_body(defs: Seq<Definition>, in_t: types::Ty) -> types::Ty {
    match in_t {
        types::Ty::Enum(d, true, _) => if text::is_prefix("__nullable<"@, cells::name_of(defs, d)) {
            in_t
        } else {
            types::Ty::Unknown(0)
        },
        _ => types::Ty::Unknown(0),
    }
}

/// What the body of a comprehension of elements `in_t` is expected to be.
pub fn body_expected(data: &Data, in_t: &Type) -> (t: Type)
    ensures
        t@ == expected_body(data.definitions@, in_t@),
{
    match in_t {
        Type::Enum(d, true, _) => if text::starts_with(cells::def_name(data, *d), "__nullable<") {
            in_t.copy()
        } else {
            Type::Unknown(0)
        },
        _ => Type::Unknown(0),
    }
}

/// The stored types, the variables, the code and the type of a comprehension.
pub open spec fn comprehended(
    defs: Seq<Definition>,
    s: Seq<schema::TypeView>,
    f: data::FnView,
    p: Plan,
    parts: Seq<ir::Node>,
    t: types::Ty,
) -> (Seq<schema::TypeView>, data::FnView, ir::Node, types::Ty) {
    let (s1, known) = vector_type(s, defs, p.in_t);
    let comp = f.vars.len() as u16;
    let f1 = data::created(f, "_comp_"@, pass_type(f, parts[4], p.in_t));
    let (f2, d, rest) = deferred(defs, f1, p, parts);
    let end = ended_over(defs, p, d, parts[2]);
    let vec_expr = match d {
        Some(d) => d.handle,
        None => p.vec_expr,
    };
    let (s2, copy_tp) = copy_type(s1, defs, p.in_t);
    let lp = loop_steps(defs, rest, end, p.in_t, vec_expr, p.elm, comp, known, copy_tp);
    let (f3, front, t1) = block_made(defs, f2, p, t);
    let (f4, all) = bound(defs, f3, p, d, front + for_steps(rest, p.pre_var, lp));
    (s2, f4, answered(p, all, t1), t1)
}

/// The code of a comprehension: an expression answers its vector.
pub open spec fn answered(p: Plan, all: Seq<ir::Node>, t: types::Ty) -> ir::Node {
    let steps = if !p.is_var && !p.is_field {
        all.push(ir::var(p.vec))
    } else {
        all
    };
    if p.block || (!p.is_var && !p.is_field) {
        ir::block("Vector comprehension"@, steps, t)
    } else {
        ir::insert(steps)
    }
}

/// The code and the type of a comprehension.  `parts` are what fills its source,
/// what starts the loop, its next value, its filter and its body.
#[verifier::rlimit(60)]
pub fn build_comprehension_code(
    data: &Data,
    stores: &mut Stores,
    vars: &mut Function,
    p: &Build,
    parts: Vec<Value>,
    tp: Type,
) -> (r: (Value, Type))
    requires
        data.definitions.len() <= u32::MAX,
        old(stores).types.len() <= u16::MAX,
        old(vars).variables.len() + 6 <= u16::MAX,
        parts.len() == 5,
    ensures
        final(stores).types.len() <= u16::MAX,
        (final(stores)@, final(vars)@, r.0@, r.1@) == comprehended(
            data.definitions@,
            old(stores)@,
            old(vars)@,
            p@,
            ir::views(parts@),
            tp@,
        ),
{
    proof {
        ir::view_at(parts@);
    }
    let known: u16 = find_vector_type(stores, data, &p.in_t);
    let pass_tp: Type = find_pass_type(vars, &parts[4], &p.in_t);
    let comp: u16 = vars.create("_comp_", pass_tp);
    let plain: Vec<Value> = make_end(data, &p.end, &parts[2]);
    let ghost next = ir::views(parts@)[2];
    let (d, rest): (Option<Delay>, Vec<Value>) = defer(data, vars, p, parts);
    let end: Vec<Value> = make_end_over(data, p, &d, plain, Ghost(next));
    let copy_tp: u16 = match &p.in_t {
        Type::Vector(_, _) => elements::vector_element_type(stores, data, &p.in_t),
        _ => 0,
    };
    let vec_expr: &Value = match &d {
        Some(d) => &d.handle,
        None => &p.vec_expr,
    };
    let lp: Vec<Value> = make_loop_steps(
        data,
        &rest,
        end,
        &p.in_t,
        vec_expr,
        p.elm,
        comp,
        known,
        copy_tp,
    );
    let (front, t1): (Vec<Value>, Type) = make_block_vector(data, vars, p, tp);
    let mut steps: Vec<Value> = front;
    ir::put_all(&mut steps, make_for_steps(&rest, p.pre_var, lp));
    let all: Vec<Value> = bind(data, vars, p, d, steps);
    (answer(p, all, &t1), t1)
}

fn answer(p: &Build, all: Vec<Value>, t: &Type) -> (code: Value)
    ensures
        code@ == answered(p@, ir::views(all@), t@),
{
    let mut all = all;
    if !p.is_var && !p.is_field {
        ir::put(&mut all, Value::Var(p.vec));
    }
    if p.block || (!p.is_var && !p.is_field) {
        ir::make_block("Vector comprehension", all, t.copy())
    } else {
        ir::make_insert(all)
    }
}

fn find_pass_type(vars: &Function, body: &Value, in_t: &Type) -> (t: Type)
    ensures
        t@ == pass_type(vars@, body@, in_t@),
{
    proof {
        ir::shape(*body);
    }
    match body {
        Value::Var(v) => {
            if (*v as usize) < vars.variables.len() {
                assert(vars@.vars[*v as int] == vars.variables@[*v as int]@);
                if vars.variables[*v as usize].tp.depend().len() > 0 {
                    return in_t.depending(*v);
                }
            }
            in_t.copy()
        },
        _ => in_t.copy(),
    }
}

} // verus!
