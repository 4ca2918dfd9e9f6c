//! What the statements of a literal come to when they run.

use crate::closure_laws;
use crate::data::{self, Definition};
use crate::ir;
use crate::literals::{self, ItemView, Site, Written};
use crate::schema;
use crate::types;
use crate::vector_store;
use vstd::prelude::*;

verus! {

/// How an element came into a collection.
pub enum Entry {
    /// Room was made for it, and these statements filled it.
    Made(Seq<ir::Node>),
    /// The last element was copied this often.
    Again(ir::Node),
}

/// What the statements of a literal have built: the elements that are in their place, and of
/// one that is not yet the collection that it was made for and what has filled it.
pub struct Built {
    pub done: Seq<Entry>,
    pub open: Option<(Seq<ir::Node>, Seq<ir::Node>)>,
}

/// Whether a statement makes room for an element in variable `elm`.
pub open spec fn makes_room(defs: Seq<Definition>, elm: u16, n: ir::Node) -> bool {
    n.head == ir::Head::Assign(elm) && n.kids.len() == 1 && closure_laws::calls_named(
        defs,
        n.kids[0],
        "OpNewRecord"@,
    )
}

/// Whether a statement puts the element in variable `elm` in its place, in the collection
/// that the operands `made` of the call that made room for it name.
pub open spec fn puts_in_place(
    defs: Seq<Definition>,
    elm: u16,
    made: Seq<ir::Node>,
    n: ir::Node,
) -> bool {
    closure_laws::calls_named(defs, n, "OpFinishRecord"@) && made.len() == 3 && n.kids =~= seq![
        made[0],
        ir::var(elm),
        made[1],
        made[2],
    ]
}

/// What is built once a statement has run.
pub open spec fn stepped(defs: Seq<Definition>, elm: u16, b: Built, n: ir::Node) -> Built {
    match b.open {
        None => if makes_room(defs, elm, n) {
            Built { open: Some((n.kids[0].kids, Seq::empty())), ..b }
        } else if closure_laws::calls_named(defs, n, "OpAppendCopy"@) && n.kids.len() == 3 {
            Built { done: b.done.push(Entry::Again(n.kids[1])), ..b }
        } else {
            b
        },
        Some((made, filled)) => if puts_in_place(defs, elm, made, n) {
            Built { done: b.done.push(Entry::Made(filled)), open: None }
        } else {
            Built { open: Some((made, filled.push(n))), ..b }
        },
    }
}

/// What is built once the first `k` statements have run.
pub open spec fn builds(
    defs: Seq<Definition>,
    elm: u16,
    b: Built,
    s: Seq<ir::Node>,
    k: int,
) -> Built
    decreases k,
{
    if k <= 0 || k > s.len() {
        b
    } else {
        stepped(defs, elm, builds(defs, elm, b, s, k - 1), s[k - 1])
    }
}

proof fn builds_front(
    defs: Seq<Definition>,
    elm: u16,
    b: Built,
    s: Seq<ir::Node>,
    t: Seq<ir::Node>,
    k: int,
)
    requires
        0 <= k <= s.len(),
    ensures
        builds(defs, elm, b, s + t, k) == builds(defs, elm, b, s, k),
    decreases k,
{
    if k > 0 {
        builds_front(defs, elm, b, s, t, k - 1);
        assert((s + t)[k - 1] == s[k - 1]);
    }
}

proof fn builds_both(
    defs: Seq<Definition>,
    elm: u16,
    b: Built,
    s: Seq<ir::Node>,
    t: Seq<ir::Node>,
    k: int,
)
    requires
        0 <= k <= t.len(),
    ensures
        builds(defs, elm, b, s + t, s.len() + k) == builds(
            defs,
            elm,
            builds(defs, elm, b, s, s.len() as int),
            t,
            k,
        ),
    decreases k,
{
    if k > 0 {
        builds_both(defs, elm, b, s, t, k - 1);
        assert((s + t)[s.len() + k - 1] == t[k - 1]);
    } else {
        builds_front(defs, elm, b, s, t, s.len() as int);
    }
}

/// The operators that a literal is built with are there.
pub open spec fn has_literal_operators(defs: Seq<Definition>) -> bool {
    &&& defs.len() <= u32::MAX
    &&& vector_store::op(defs, "OpNewRecord"@) != u32::MAX
    &&& vector_store::op(defs, "OpFinishRecord"@) != u32::MAX
    &&& vector_store::op(defs, "OpAppendCopy"@) != u32::MAX
    &&& vector_store::op(defs, "OpCopyRecord"@) != u32::MAX
    &&& vector_store::op(defs, "OpSetInt4"@) != u32::MAX
}

/// What fills the element of an item: behind the clearing of the slot of a vector, the
/// statements for its value.
pub open spec fn filling(e: Site, f: data::FnView, item: ItemView) -> Seq<ir::Node> {
    let body = literals::filled(e, f, item).1;
    if !e.first_pass && e.in_t is Vector {
        seq![literals::slot_written(e, ir::int_value(0))] + body
    } else {
        body
    }
}

/// Whether no statement puts the element in its place.
pub open spec fn stays_open(e: Site, s: Seq<ir::Node>) -> bool {
    forall|i: int|
        0 <= i < s.len() ==> !puts_in_place(
            e.defs,
            e.elm,
            literals::opened(e).kids,
            #[trigger] s[i],
        )
}

proof fn filling_is_kept(
    e: Site,
    b: Built,
    made: Seq<ir::Node>,
    s: Seq<ir::Node>,
    k: int,
)
    requires
        0 <= k <= s.len(),
        b.open == Some((made, Seq::<ir::Node>::empty())),
        made == literals::opened(e).kids,
        stays_open(e, s),
    ensures
        builds(e.defs, e.elm, b, s, k) == (Built { open: Some((made, s.take(k))), ..b }),
    decreases k,
{
    if k > 0 {
        filling_is_kept(e, b, made, s, k - 1);
        assert(s.take(k) =~= s.take(k - 1).push(s[k - 1]));
    } else {
        assert(s.take(0) =~= Seq::<ir::Node>::empty());
    }
}

/// The entry of an item.
pub open spec fn entry_of(e: Site, f: data::FnView, item: ItemView) -> Entry {
    if item.value.head is Return && item.value.kids.len() > 0 {
        Entry::Again(item.value.kids[0])
    } else {
        Entry::Made(filling(e, f, item))
    }
}

proof fn one_item_is_built(e: Site, f: data::FnView, item: ItemView, b: Built)
    requires
        has_literal_operators(e.defs),
        b.open is None,
        stays_open(e, filling(e, f, item)),
    ensures
        ({
            let s = literals::lowered(e, f, item).1;
            builds(e.defs, e.elm, b, s, s.len() as int) == (Built {
                done: b.done.push(entry_of(e, f, item)),
                open: None,
            })
        }),
{
    let defs = e.defs;
    data::found_definition(defs, "OpNewRecord"@, 0);
    data::found_definition(defs, "OpFinishRecord"@, 0);
    data::found_definition(defs, "OpAppendCopy"@, 0);
    let s = literals::lowered(e, f, item).1;
    if item.value.head is Return && item.value.kids.len() > 0 {
        let n = s[0];
        assert(s.len() == 1);
        assert(builds(defs, e.elm, b, s, 0) == b);
        assert(builds(defs, e.elm, b, s, 1) == stepped(defs, e.elm, b, n));
        assert(n.head is Call);
        assert(n.kids[1] == item.value.kids[0]);
    } else {
        let opening = ir::assign(e.elm, literals::opened(e));
        let made = literals::opened(e).kids;
        let body = filling(e, f, item);
        let closing = literals::finished(e);
        let first = seq![opening];
        let last = seq![closing];
        assert(s =~= first + (body + last));
        assert(opening.kids[0] == literals::opened(e));
        builds_both(defs, e.elm, b, first, body + last, (body + last).len() as int);
        assert(builds(defs, e.elm, b, first, 0) == b);
        let b1 = builds(defs, e.elm, b, first, 1);
        assert(b1 == stepped(defs, e.elm, b, opening));
        assert(b1 == Built { open: Some((made, Seq::empty())), ..b });
        builds_both(defs, e.elm, b1, body, last, 1);
        filling_is_kept(e, b1, made, body, body.len() as int);
        assert(body.take(body.len() as int) =~= body);
        let b2 = builds(defs, e.elm, b1, body, body.len() as int);
        assert(builds(defs, e.elm, b2, last, 0) == b2);
        assert(builds(defs, e.elm, b2, last, 1) == stepped(defs, e.elm, b2, closing));
        assert(closing.kids =~= seq![made[0], ir::var(e.elm), made[1], made[2]]);
        assert(puts_in_place(defs, e.elm, made, closing));
    }
}

/// A literal has one element for each of its items, in their order: room is made for it, it is
/// filled and put in its place in the collection that room was made in; and a repetition
/// copies the element before it as often as it says.
pub proof fn a_literal_holds_its_items(
    e: Site,
    f: data::FnView,
    items: Seq<ItemView>,
    k: int,
    b: Built,
)
    requires
        has_literal_operators(e.defs),
        b.open is None,
        0 <= k <= items.len(),
        forall|i: int|
            0 <= i < k ==> stays_open(
                e,
                #[trigger] filling(e, literals::lowered_all(e, f, items, i).0, items[i]),
            ),
    ensures
        ({
            let s = literals::lowered_all(e, f, items, k).1;
            builds(e.defs, e.elm, b, s, s.len() as int) == (Built {
                done: b.done + Seq::new(
                    k as nat,
                    |i: int| entry_of(e, literals::lowered_all(e, f, items, i).0, items[i]),
                ),
                open: None,
            })
        }),
    decreases k,
{
    let all = Seq::new(
        k as nat,
        |i: int| entry_of(e, literals::lowered_all(e, f, items, i).0, items[i]),
    );
    if k > 0 {
        a_literal_holds_its_items(e, f, items, k - 1, b);
        let (g, before) = literals::lowered_all(e, f, items, k - 1);
        let more = literals::lowered(e, g, items[k - 1]).1;
        let b1 = builds(e.defs, e.elm, b, before, before.len() as int);
        assert(stays_open(e, filling(e, g, items[k - 1])));
        one_item_is_built(e, g, items[k - 1], b1);
        builds_both(e.defs, e.elm, b, before, more, more.len() as int);
        let less = Seq::new(
            (k - 1) as nat,
            |i: int| entry_of(e, literals::lowered_all(e, f, items, i).0, items[i]),
        );
        assert(b.done + all =~= (b.done + less).push(entry_of(e, g, items[k - 1])));
    } else {
        assert(b.done + all =~= b.done);
    }
}

/// An element that is a record is filled by one copy of its value, which releases the value
/// where that is fresh, and keeps it where it is not.
pub proof fn a_record_is_filled_by_a_copy(e: Site, f: data::FnView, item: ItemView)
    requires
        has_literal_operators(e.defs),
        e.in_t is Reference || e.in_t is Vector || (e.in_t matches types::Ty::Enum(_, fields, _)
            && fields),
        !(item.value.head is Insert),
        e.copy_tp < 0x8000,
    ensures
        ({
            let body = filling(e, f, item);
            let n = body.last();
            &&& body.len() > 0
            &&& closure_laws::calls_named(e.defs, n, "OpCopyRecord"@)
            &&& n.kids.len() == 3
            &&& n.kids[0] == item.value
            &&& n.kids[1] == ir::var(e.elm)
            &&& n.kids[2] == ir::int_value(
                if item.fresh {
                    (e.copy_tp + 0x8000) as i32
                } else {
                    e.copy_tp as i32
                },
            )
            &&& e.in_t is Vector && !e.first_pass ==> body.len() == 2 && closure_laws::calls_named(
                e.defs,
                body[0],
                "OpSetInt4"@,
            ) && body[0].kids == seq![ir::var(e.elm), ir::int_value(0), ir::int_value(0)]
            &&& !(e.in_t is Vector) || e.first_pass ==> body.len() == 1
        }),
{
    data::found_definition(e.defs, "OpCopyRecord"@, 0);
    data::found_definition(e.defs, "OpSetInt4"@, 0);
    let tp = e.copy_tp;
    let wide = tp as i32;
    assert((wide | 0x8000) == wide + 0x8000) by (bit_vector)
        requires
            0 <= wide < 0x8000,
    ;
    assert((wide | 0) == wide) by (bit_vector);
}

/// The statements that run of a piece of code where a collection is absent, or is not.
pub open spec fn run_where(defs: Seq<Definition>, absent: bool, n: ir::Node) -> Seq<ir::Node>
    decreases n, 0int,
{
    match n.head {
        ir::Head::Null => Seq::empty(),
        ir::Head::Insert => run_all_where(defs, absent, n.kids, n.kids.len() as int),
        ir::Head::If => if n.kids.len() == 3 && closure_laws::calls_named(
            defs,
            n.kids[0],
            "OpVectorIsNull"@,
        ) {
            if absent {
                run_where(defs, absent, n.kids[1])
            } else {
                run_where(defs, absent, n.kids[2])
            }
        } else {
            seq![n]
        },
        _ => seq![n],
    }
}

/// The statements that run of the first `k` statements.
pub open spec fn run_all_where(
    defs: Seq<Definition>,
    absent: bool,
    s: Seq<ir::Node>,
    k: int,
) -> Seq<ir::Node>
    decreases s, k,
{
    if k <= 0 || k > s.len() {
        Seq::empty()
    } else {
        run_all_where(defs, absent, s, k - 1) + run_where(defs, absent, s[k - 1])
    }
}

proof fn a_guard_runs_where_absent(
    defs: Seq<Definition>,
    absent: bool,
    test: ir::Node,
    n: ir::Node,
)
    requires
        closure_laws::calls_named(defs, test, "OpVectorIsNull"@),
    ensures
        ({
            let s = seq![ir::choice(test, n, ir::leaf(ir::Head::Null))];
            run_all_where(defs, absent, s, 1) == if absent {
                run_where(defs, absent, n)
            } else {
                Seq::empty()
            }
        }),
{
    let c = ir::choice(test, n, ir::leaf(ir::Head::Null));
    let s = seq![c];
    assert(c.kids[0] == test);
    assert(c.kids[1] == n);
    assert(c.kids[2] == ir::leaf(ir::Head::Null));
    assert(run_where(defs, absent, c.kids[2]) =~= Seq::<ir::Node>::empty());
    assert(run_all_where(defs, absent, s, 0) =~= Seq::<ir::Node>::empty());
    assert(run_all_where(defs, absent, s, 1) =~= run_where(defs, absent, c));
}

/// A keyed collection that may be absent is made where it is, and left alone where it is not;
/// and a vector is put into its tuple where the tuple has none.
pub proof fn a_collection_is_made_where_it_is_absent(
    s: Seq<schema::TypeView>,
    defs: Seq<Definition>,
    f: data::FnView,
    vec: u16,
    first_pass: bool,
    val: ir::Node,
    t: u16,
    i: u16,
)
    requires
        defs.len() <= u32::MAX,
        vector_store::op(defs, "OpVectorIsNull"@) != u32::MAX,
        vector_store::op(defs, "OpDatabase"@) != u32::MAX,
        literals::tuple_slot(val) == Some((t, i)),
    ensures
        ({
            let guard = literals::guard_of(s, defs, f, vec, first_pass).1;
            let put = literals::tuple_put(defs, val, vec);
            &&& run_all_where(defs, false, guard, guard.len() as int) == Seq::<ir::Node>::empty()
            &&& guard.len() > 0 ==> {
                let run = run_all_where(defs, true, guard, guard.len() as int);
                run.len() == 1 && closure_laws::calls_named(defs, run[0], "OpDatabase"@) && run[0].kids.len() == 2
                    && run[0].kids[0] == ir::var(vec)
            }
            &&& run_all_where(defs, false, put, put.len() as int) == Seq::<ir::Node>::empty()
            &&& run_all_where(defs, true, put, put.len() as int) == seq![
                ir::put_part(t, i, ir::var(vec)),
            ]
        }),
{
    data::found_definition(defs, "OpVectorIsNull"@, 0);
    data::found_definition(defs, "OpDatabase"@, 0);
    let guard = literals::guard_of(s, defs, f, vec, first_pass).1;
    let test = ir::call(vector_store::op(defs, "OpVectorIsNull"@), seq![ir::var(vec)]);
    if guard.len() > 0 {
        let make = guard[0].kids[1];
        assert(guard =~= seq![ir::choice(test, make, ir::leaf(ir::Head::Null))]);
        assert(make.head is Call);
        a_guard_runs_where_absent(defs, true, test, make);
        a_guard_runs_where_absent(defs, false, test, make);
        assert(run_where(defs, true, make) =~= seq![make]);
        assert(make.kids[0] == ir::var(vec));
    } else {
        assert(run_all_where(defs, false, guard, 0) =~= Seq::<ir::Node>::empty());
    }
    let held = ir::call(
        vector_store::op(defs, "OpVectorIsNull"@),
        seq![ir::leaf(ir::Head::TupleGet(t, i))],
    );
    let put = ir::put_part(t, i, ir::var(vec));
    assert(literals::tuple_put(defs, val, vec) =~= seq![
        ir::choice(held, put, ir::leaf(ir::Head::Null)),
    ]);
    a_guard_runs_where_absent(defs, true, held, put);
    a_guard_runs_where_absent(defs, false, held, put);
    assert(run_where(defs, true, put) =~= seq![put]);
}

/// A literal that is appended to a vector which may be absent gives it a record where it is
/// absent alone.
pub proof fn an_append_keeps_a_vector_that_is_there(
    defs: Seq<Definition>,
    f: data::FnView,
    w: Written,
    substituted: bool,
)
    requires
        defs.len() <= u32::MAX,
        vector_store::op(defs, "OpVectorIsNull"@) != u32::MAX,
        !w.assignment.replaces,
        w.assignment.target == w.literal.vec,
    ensures
        ({
            let s = literals::vector_made(defs, f, w, substituted).1;
            run_all_where(defs, false, s, s.len() as int) == Seq::<ir::Node>::empty()
        }),
{
    data::found_definition(defs, "OpVectorIsNull"@, 0);
    let s = literals::vector_made(defs, f, w, substituted).1;
    let test = ir::call(vector_store::op(defs, "OpVectorIsNull"@), seq![ir::var(w.literal.vec)]);
    if s.len() > 0 {
        let make = s[0].kids[1];
        assert(s =~= seq![ir::choice(test, make, ir::leaf(ir::Head::Null))]);
        a_guard_runs_where_absent(defs, false, test, make);
    } else {
        assert(run_all_where(defs, false, s, 0) =~= Seq::<ir::Node>::empty());
    }
}

} // verus!
