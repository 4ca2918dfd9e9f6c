//! What holds of the names that lambdas capture, and of the records that hold them.

use crate::captures;
use crate::closures;
use crate::data::{self, Definition};
use crate::ir;
use crate::lambdas::{self, Filled, Site};
use crate::records;
use crate::schema::Stores;
use crate::types;
use vstd::prelude::*;

verus! {

/// Whether a list has an entry of a name.
pub open spec fn has_entry(s: Seq<(Seq<char>, types::Ty)>, name: Seq<char>) -> bool {
    exists|i: int| 0 <= i < s.len() && (#[trigger] s[i]).0 == name
}

proof fn entries_are_firsts(s: Seq<(Seq<char>, types::Ty)>, name: Seq<char>)
    ensures
        closures::firsts(s).contains(name) <==> has_entry(s, name),
{
    let names = closures::firsts(s);
    if names.contains(name) {
        let i = choose|i: int| 0 <= i < names.len() && names[i] == name;
        assert(s[i].0 == name);
    }
    if has_entry(s, name) {
        let i = choose|i: int| 0 <= i < s.len() && (#[trigger] s[i]).0 == name;
        assert(names[i] == name);
    }
}

proof fn entries_are_found(s: Seq<(Seq<char>, types::Ty)>, name: Seq<char>, from: int)
    requires
        0 <= from <= s.len(),
    ensures
        captures::capture_type(s, name, from) is Some <==> exists|i: int|
            from <= i < s.len() && (#[trigger] s[i]).0 == name,
        captures::capture_type(s, name, from) matches Some(t) ==> exists|i: int|
            from <= i < s.len() && #[trigger] s[i] == (name, t) && forall|j: int|
                from <= j < i ==> (#[trigger] s[j]).0 != name,
    decreases s.len() - from,
{
    if from < s.len() {
        entries_are_found(s, name, from + 1);
        if s[from].0 == name {
            assert(s[from] == (name, s[from].1));
        } else if captures::capture_type(s, name, from) is Some {
            let t = captures::capture_type(s, name, from)->0;
            let i = choose|i: int|
                from + 1 <= i < s.len() && #[trigger] s[i] == (name, t) && forall|j: int|
                    from + 1 <= j < i ==> (#[trigger] s[j]).0 != name;
            assert(s[i] == (name, t));
            assert forall|j: int| from <= j < i implies (#[trigger] s[j]).0 != name by {}
        }
    }
}

/// A lambda takes a capture that a lambda in it asks for exactly where it does not bind the
/// name itself and its own scope offers it; it keeps what it had, takes each once, and with
/// the type that its scope offers.
pub proof fn a_relayed_capture_is_asked_for_and_offered(
    f: data::FnView,
    scope: Seq<(Seq<char>, types::Ty)>,
    own: Seq<(Seq<char>, types::Ty)>,
    inner: Seq<(Seq<char>, types::Ty)>,
    k: int,
    name: Seq<char>,
)
    requires
        0 <= k <= inner.len(),
    ensures
        ({
            let all = lambdas::relayed(f, scope, own, inner, k);
            &&& has_entry(all, name) <==> has_entry(own, name) || (has_entry(scope, name)
                && data::named_in(f, name) == u16::MAX && exists|i: int|
                0 <= i < k && (#[trigger] inner[i]).0 == name)
            &&& all.len() >= own.len() && all.take(own.len() as int) == own
            &&& forall|i: int|
                own.len() <= i < all.len() && (#[trigger] all[i]).0 == name
                    ==> captures::capture_type(scope, name, 0) == Some(all[i].1) && forall|j: int|
                    0 <= j < all.len() && j != i ==> (#[trigger] all[j]).0 != name
        }),
    decreases k,
{
    let all = lambdas::relayed(f, scope, own, inner, k);
    if k > 0 {
        a_relayed_capture_is_asked_for_and_offered(f, scope, own, inner, k - 1, name);
        let before = lambdas::relayed(f, scope, own, inner, k - 1);
        let asked = inner[k - 1].0;
        entries_are_found(scope, asked, 0);
        entries_are_firsts(before, asked);
        entries_are_firsts(before, name);
        if all != before {
            assert(all == before.push(all.last()));
            assert(all[before.len() as int].0 == asked);
            assert(all.take(own.len() as int) =~= before.take(own.len() as int));
            assert forall|i: int| 0 <= i < before.len() implies #[trigger] all[i] == before[i] by {}
            if has_entry(before, name) {
                let i = choose|i: int| 0 <= i < before.len() && (#[trigger] before[i]).0 == name;
                assert(all[i].0 == name);
            }
            if has_entry(all, name) && name != asked {
                let i = choose|i: int| 0 <= i < all.len() && (#[trigger] all[i]).0 == name;
                assert(before[i].0 == name);
            }
        }
        if has_entry(scope, name) {
            let i = choose|i: int| 0 <= i < scope.len() && (#[trigger] scope[i]).0 == name;
            assert(scope[i].0 == name);
        }
    } else {
        assert(all.take(own.len() as int) =~= own);
    }
}

/// A name that the nearer scope does not bind means in it what it means in the enclosing one.
pub proof fn an_outer_name_shows_through(
    near: Seq<(Seq<char>, types::Ty)>,
    outer: Seq<(Seq<char>, types::Ty)>,
    k: int,
    name: Seq<char>,
)
    requires
        0 <= k <= outer.len(),
        !has_entry(near, name),
    ensures
        captures::capture_type(lambdas::with_outer(near, outer, k), name, 0)
            == captures::capture_type(outer.take(k), name, 0),
    decreases k,
{
    if k > 0 {
        an_outer_name_shows_through(near, outer, k - 1, name);
        let before = lambdas::with_outer(near, outer, k - 1);
        let last = outer[k - 1];
        entries_are_firsts(before, last.0);
        entries_are_found(before, name, 0);
        entries_are_found(outer.take(k - 1), name, 0);
        assert(outer.take(k) =~= outer.take(k - 1).push(last));
        one_more_entry(outer.take(k - 1), last, name, 0);
        one_more_entry(before, last, name, 0);
        if has_entry(before, last.0) && last.0 == name {
            let i = choose|i: int| 0 <= i < before.len() && (#[trigger] before[i]).0 == name;
            assert(before[i].0 == name);
        }
    } else {
        entries_are_found(near, name, 0);
        assert(outer.take(0).len() == 0);
    }
}

proof fn one_more_entry(
    s: Seq<(Seq<char>, types::Ty)>,
    last: (Seq<char>, types::Ty),
    name: Seq<char>,
    from: int,
)
    requires
        0 <= from <= s.len(),
    ensures
        captures::capture_type(s.push(last), name, from) == match captures::capture_type(
            s,
            name,
            from,
        ) {
            Some(t) => Some(t),
            None => if last.0 == name {
                Some(last.1)
            } else {
                None
            },
        },
    decreases s.len() - from,
{
    if from < s.len() {
        one_more_entry(s, last, name, from + 1);
        assert(s.push(last)[from] == s[from]);
    } else {
        assert(s.push(last)[from] == last);
        assert(captures::capture_type(s.push(last), name, from + 1) is None);
    }
}

/// Whether the whole value of a type is a record or a collection that its caller holds.
pub open spec fn is_held_by_the_caller(t: types::Ty) -> bool {
    let b = types::base(t);
    b is Vector || b is Sorted || b is Hash || b is Index || b is Radix || b is Trie || b is Reference
}

/// A name is refused as one that a closure replaces exactly where it is among those that it
/// writes, and a parameter that is a record or a collection.
pub proof fn a_refused_name_is_a_parameter_of_the_heap(
    f: data::FnView,
    names: Seq<Seq<char>>,
    k: int,
    name: Seq<char>,
)
    requires
        0 <= k <= names.len(),
    ensures
        lambdas::rebound(f, names, k).contains(name) <==> (exists|i: int|
            0 <= i < k && #[trigger] names[i] == name) && {
            let v = data::named_in(f, name);
            v < f.vars.len() && f.vars[v as int].argument && is_held_by_the_caller(
                f.vars[v as int].tp,
            )
        },
    decreases k,
{
    if k > 0 {
        a_refused_name_is_a_parameter_of_the_heap(f, names, k - 1, name);
        let before = lambdas::rebound(f, names, k - 1);
        let all = lambdas::rebound(f, names, k);
        if before.contains(name) {
            let i = choose|i: int| 0 <= i < before.len() && before[i] == name;
            assert(all[i] == name);
        }
        if all.contains(name) && !before.contains(name) {
            let i = choose|i: int| 0 <= i < all.len() && all[i] == name;
            if i < before.len() {
                assert(before[i] == name);
            }
            assert(names[k - 1] == name);
        }
        if names[k - 1] == name && all.len() > before.len() {
            assert(all[before.len() as int] == name);
        }
    }
}

/// Whether the frame that makes a closure was itself handed a name: the record of its own
/// captures has a field of it, and field `j` is the first.
pub open spec fn was_handed(defs: Seq<Definition>, at: Site, name: Seq<char>, j: int) -> bool {
    &&& at.param != u16::MAX
    &&& at.context < defs.len()
    &&& defs[at.context as int].closure_record < defs.len()
    &&& ({
        let attrs = defs[defs[at.context as int].closure_record as int].attributes@;
        0 <= j < attrs.len() && attrs[j].name@ == name && forall|i: int|
            0 <= i < j ==> (#[trigger] attrs[i]).name@ != name
    })
}

/// What field `i` of a closure record is filled with: what the frame was handed where it was
/// handed the name, and else the variable of the name.
pub open spec fn fills(
    defs: Seq<Definition>,
    layout: Stores,
    at: Site,
    vars: data::FnView,
    i: int,
    n: ir::Node,
) -> bool {
    let name = defs[at.record as int].attributes@[i].name@;
    ||| exists|j: int| #[trigger]
        was_handed(defs, at, name, j) && n == records::field_read(
            defs,
            layout,
            defs[at.context as int].closure_record,
            j,
            ir::var(at.param),
        )
    ||| (forall|j: int| !#[trigger] was_handed(defs, at, name, j)) && data::named_in(vars, name)
        < vars.vars.len() && n == ir::var(data::named_in(vars, name))
}

/// Whether there is anything that field `i` can be filled with.
pub open spec fn has_source(
    defs: Seq<Definition>,
    at: Site,
    vars: data::FnView,
    i: int,
) -> bool {
    let name = defs[at.record as int].attributes@[i].name@;
    (exists|j: int| #[trigger] was_handed(defs, at, name, j)) || data::named_in(vars, name)
        < vars.vars.len()
}

/// A closure record gets each of its captures from where the frame that makes it has it: every
/// field is written from the capture that the frame was itself handed under the name, and
/// from its variable otherwise, in the order of the fields and behind what came before.
pub proof fn a_closure_holds_what_its_frame_has(
    defs: Seq<Definition>,
    layout: Stores,
    at: Site,
    b: Filled,
    k: int,
    i: int,
)
    requires
        at.record < defs.len(),
        0 <= i < k <= defs[at.record as int].attributes.len(),
        has_source(defs, at, lambdas::filled(defs, layout, at, b, i).made.vars, i),
    ensures
        ({
            let all = lambdas::filled(defs, layout, at, b, k).steps;
            let vars = lambdas::filled(defs, layout, at, b, i).made.vars;
            &&& all.len() >= b.steps.len() && all.take(b.steps.len() as int) == b.steps
            &&& exists|p: int, n: ir::Node|
                b.steps.len() <= p < all.len() && #[trigger] fills(defs, layout, at, vars, i, n)
                    && #[trigger] all[p] == records::field_written(
                    defs,
                    layout,
                    at.record,
                    i,
                    ir::var(at.w),
                    n,
                )
        }),
    decreases k,
{
    let name = defs[at.record as int].attributes@[i].name@;
    let last = lambdas::filled(defs, layout, at, b, k - 1);
    let all = lambdas::filled(defs, layout, at, b, k).steps;
    let vars = lambdas::filled(defs, layout, at, b, i).made.vars;
    steps_are_kept(defs, layout, at, b, k);
    steps_are_kept(defs, layout, at, b, k - 1);
    a_field_keeps_steps(defs, layout, at, last, k - 1);
    if i == k - 1 {
        let v = data::named_in(vars, name);
        let handed = lambdas::relayed_read(defs, layout, at.context, at.param, name, false);
        handed_is_read(defs, layout, at, name);
        let n = match handed {
            Some(n) => n,
            None => ir::var(v),
        };
        let f = lambdas::with_captured(vars, v);
        assert(f.vars.len() == vars.vars.len());
        assert(fills(defs, layout, at, vars, i, n));
        let p = all.len() - 1;
        assert(all[p] == records::field_written(defs, layout, at.record, i, ir::var(at.w), n));
    } else {
        a_closure_holds_what_its_frame_has(defs, layout, at, b, k - 1, i);
        let (p, n) = choose|p: int, n: ir::Node|
            b.steps.len() <= p < last.steps.len() && #[trigger] fills(
                defs,
                layout,
                at,
                vars,
                i,
                n,
            ) && #[trigger] last.steps[p] == records::field_written(
                defs,
                layout,
                at.record,
                i,
                ir::var(at.w),
                n,
            );
        assert(all.take(last.steps.len() as int)[p] == last.steps[p]);
        assert(all[p] == last.steps[p]);
    }
}

proof fn handed_is_read(defs: Seq<Definition>, layout: Stores, at: Site, name: Seq<char>)
    ensures
        match lambdas::relayed_read(defs, layout, at.context, at.param, name, false) {
            Some(n) => exists|j: int| #[trigger]
                was_handed(defs, at, name, j) && n == records::field_read(
                    defs,
                    layout,
                    defs[at.context as int].closure_record,
                    j,
                    ir::var(at.param),
                ),
            None => forall|j: int| !#[trigger] was_handed(defs, at, name, j),
        },
{
    if at.param != u16::MAX && at.context < defs.len() && defs[at.context as int].closure_record
        < defs.len() {
        let attrs = defs[defs[at.context as int].closure_record as int].attributes@;
        first_attr(attrs, name, 0);
        match data::attr_from(attrs, name, 0) {
            Some(j) => {
                assert(was_handed(defs, at, name, j));
            },
            None => {},
        }
    }
}

proof fn first_attr(attrs: Seq<data::Attribute>, name: Seq<char>, from: int)
    requires
        0 <= from <= attrs.len(),
    ensures
        match data::attr_from(attrs, name, from) {
            Some(j) => from <= j < attrs.len() && attrs[j].name@ == name && forall|i: int|
                from <= i < j ==> (#[trigger] attrs[i]).name@ != name,
            None => forall|i: int| from <= i < attrs.len() ==> (#[trigger] attrs[i]).name@ != name,
        },
    decreases attrs.len() - from,
{
    if from < attrs.len() && attrs[from].name@ != name {
        first_attr(attrs, name, from + 1);
    }
}

proof fn a_field_keeps_steps(defs: Seq<Definition>, layout: Stores, at: Site, b: Filled, i: int)
    ensures
        lambdas::filled_field(defs, layout, at, b, i).steps.len() >= b.steps.len(),
        lambdas::filled_field(defs, layout, at, b, i).steps.take(b.steps.len() as int) == b.steps,
{
    assert(lambdas::filled_field(defs, layout, at, b, i).steps.take(b.steps.len() as int)
        =~= b.steps);
}

proof fn steps_are_kept(defs: Seq<Definition>, layout: Stores, at: Site, b: Filled, k: int)
    ensures
        lambdas::filled(defs, layout, at, b, k).steps.len() >= b.steps.len(),
        lambdas::filled(defs, layout, at, b, k).steps.take(b.steps.len() as int) == b.steps,
    decreases k,
{
    if k > 0 {
        steps_are_kept(defs, layout, at, b, k - 1);
        let last = lambdas::filled(defs, layout, at, b, k - 1);
        a_field_keeps_steps(defs, layout, at, last, k - 1);
        let all = lambdas::filled(defs, layout, at, b, k).steps;
        assert(all.take(b.steps.len() as int) =~= all.take(last.steps.len() as int).take(
            b.steps.len() as int,
        ));
    } else {
        assert(b.steps.take(b.steps.len() as int) =~= b.steps);
    }
}

} // verus!
