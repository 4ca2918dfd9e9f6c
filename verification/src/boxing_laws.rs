//! What becomes of a name that a closure writes: its variable and the fields that hold it.

use crate::captures::{self, Owner};
use crate::cells;
use crate::closures::{self, Refusal};
use crate::data::{self, AttrView, Attribute, Definition};
use crate::text;
use crate::types;
use vstd::prelude::*;

verus! {

/// Whether a type points at a cell.
pub open spec fn points_at_a_cell(defs: Seq<Definition>, t: types::Ty) -> bool {
    t matches types::Ty::Reference(d, _) && text::is_prefix("__cell_"@, cells::name_of(defs, d))
}

/// The type by which a closure record holds a boxed name: what is behind the indirection that
/// the variable has of its own, or a cell.
pub open spec fn held_as(
    defs: Seq<Definition>,
    t: types::Ty,
    inline: Option<types::Ty>,
) -> types::Ty {
    match inline {
        Some(own) => if points_at_a_cell(defs, t) {
            own
        } else {
            t
        },
        None => if points_at_a_cell(defs, t) {
            t
        } else {
            captures::cell_type(defs, t)
        },
    }
}

/// Whether field `i` is the first of a name.
pub open spec fn is_first(s: Seq<AttrView>, name: Seq<char>, i: int) -> bool {
    &&& 0 <= i < s.len()
    &&& s[i].name == name
    &&& forall|j: int| 0 <= j < i ==> (#[trigger] s[j]).name != name
}

proof fn the_first_field(s: Seq<AttrView>, name: Seq<char>, from: int)
    requires
        0 <= from <= s.len(),
        forall|j: int| 0 <= j < from ==> (#[trigger] s[j]).name != name,
    ensures
        match closures::field_from(s, name, from) {
            Some(i) => is_first(s, name, i),
            None => forall|j: int| 0 <= j < s.len() ==> (#[trigger] s[j]).name != name,
        },
    decreases s.len() - from,
{
    if from < s.len() && s[from].name != name {
        the_first_field(s, name, from + 1);
    }
}

/// Whether two lists of fields differ at most in the type of the first field of a name in
/// record `record`, which is as it should be in the second one.
spec fn only_that_field(
    defs: Seq<Definition>,
    a: Seq<Seq<AttrView>>,
    b: Seq<Seq<AttrView>>,
    record: u32,
    name: Seq<char>,
    inline: Option<types::Ty>,
) -> bool {
    &&& a.len() == b.len()
    &&& forall|d: int| 0 <= d < a.len() ==> (#[trigger] b[d]).len() == a[d].len()
    &&& forall|d: int, i: int|
        #![trigger b[d][i]]
        0 <= d < a.len() && 0 <= i < a[d].len() ==> b[d][i] == if d == record && is_first(
            a[d],
            name,
            i,
        ) {
            AttrView { typedef: held_as(defs, a[d][i].typedef, inline), ..a[d][i] }
        } else {
            a[d][i]
        }
}

proof fn one_record_is_settled(
    defs: Seq<Definition>,
    all: Seq<Seq<AttrView>>,
    record: u32,
    name: Seq<char>,
    inline: Option<types::Ty>,
)
    ensures
        only_that_field(
            defs,
            all,
            closures::settled(defs, all, record, name, inline),
            record,
            name,
            inline,
        ),
{
    let b = closures::settled(defs, all, record, name, inline);
    if record < all.len() {
        the_first_field(all[record as int], name, 0);
        assert forall|d: int, i: int|
            #![trigger b[d][i]]
            0 <= d < all.len() && 0 <= i < all[d].len() implies b[d][i] == if d == record
            && is_first(all[d], name, i) {
            AttrView { typedef: held_as(defs, all[d][i].typedef, inline), ..all[d][i] }
        } else {
            all[d][i]
        } by {
            match closures::field_from(all[record as int], name, 0) {
                Some(j) => {
                    if d == record && is_first(all[d], name, i) {
                        assert(i == j) by {
                            if i < j {
                                assert(all[d][i].name != name);
                            } else if j < i {
                                assert(all[d][j].name != name);
                            }
                        }
                    }
                },
                None => {},
            }
        }
    }
}

/// Whether one of the first `k` lambdas has a closure record of its own.
pub open spec fn is_record_of_one(
    defs: Seq<Definition>,
    lambdas: Seq<u32>,
    record: int,
    k: int,
) -> bool {
    exists|j: int|
        0 <= j < k && (#[trigger] lambdas[j]) < defs.len()
            && defs[lambdas[j] as int].closure_record == record
}

/// Every lambda holds a boxed name as all the others do: by what is behind the indirection
/// that its variable has of its own, or by a cell; and no other field changes.
pub proof fn a_boxed_name_is_held_alike(
    defs: Seq<Definition>,
    all: Seq<Seq<AttrView>>,
    lambdas: Seq<u32>,
    name: Seq<char>,
    inline: Option<types::Ty>,
    k: int,
)
    requires
        0 <= k <= lambdas.len(),
        all.len() <= u32::MAX,
        forall|i: int, j: int|
            #![trigger lambdas[i], lambdas[j]]
            0 <= i < j < k ==> closures::record_of(defs, lambdas[i]) != closures::record_of(
                defs,
                lambdas[j],
            ) || closures::record_of(defs, lambdas[i]) >= all.len(),
    ensures
        ({
            let b = closures::settled_in(defs, all, lambdas, name, inline, k);
            &&& b.len() == all.len()
            &&& forall|d: int| 0 <= d < all.len() ==> (#[trigger] b[d]).len() == all[d].len()
            &&& forall|d: int, i: int|
                #![trigger b[d][i]]
                0 <= d < all.len() && 0 <= i < all[d].len() ==> b[d][i] == if is_record_of_one(
                    defs,
                    lambdas,
                    d,
                    k,
                ) && is_first(all[d], name, i) {
                    AttrView { typedef: held_as(defs, all[d][i].typedef, inline), ..all[d][i] }
                } else {
                    all[d][i]
                }
        }),
    decreases k,
{
    if k > 0 {
        a_boxed_name_is_held_alike(defs, all, lambdas, name, inline, k - 1);
        let a = closures::settled_in(defs, all, lambdas, name, inline, k - 1);
        let b = closures::settled_in(defs, all, lambdas, name, inline, k);
        let record = closures::record_of(defs, lambdas[k - 1]);
        one_record_is_settled(defs, a, record, name, inline);
        assert forall|d: int, i: int|
            #![trigger b[d][i]]
            0 <= d < all.len() && 0 <= i < all[d].len() implies b[d][i] == if is_record_of_one(
            defs,
            lambdas,
            d,
            k,
        ) && is_first(all[d], name, i) {
            AttrView { typedef: held_as(defs, all[d][i].typedef, inline), ..all[d][i] }
        } else {
            all[d][i]
        } by {
            assert(a[d].len() == all[d].len());
            assert forall|j: int| 0 <= j < all[d].len() implies (#[trigger] a[d][j]).name
                == all[d][j].name by {}
            assert(is_first(a[d], name, i) == is_first(all[d], name, i)) by {
                if is_first(a[d], name, i) {
                    assert forall|j: int| 0 <= j < i implies (#[trigger] all[d][j]).name != name by {
                        assert(a[d][j].name == all[d][j].name);
                    }
                }
                if is_first(all[d], name, i) {
                    assert forall|j: int| 0 <= j < i implies (#[trigger] a[d][j]).name != name by {
                        assert(a[d][j].name == all[d][j].name);
                    }
                }
            }
            if d == record {
                if is_record_of_one(defs, lambdas, d, k - 1) {
                    let j = choose|j: int|
                        0 <= j < k - 1 && (#[trigger] lambdas[j]) < defs.len()
                            && defs[lambdas[j] as int].closure_record == d;
                    assert(lambdas[j] == lambdas[j] && lambdas[k - 1] == lambdas[k - 1]);
                    assert(false);
                }
                assert(lambdas[k - 1] < defs.len());
                assert(is_record_of_one(defs, lambdas, d, k));
            } else {
                if is_record_of_one(defs, lambdas, d, k) {
                    let j = choose|j: int|
                        0 <= j < k && (#[trigger] lambdas[j]) < defs.len()
                            && defs[lambdas[j] as int].closure_record == d;
                    assert(j < k - 1);
                    assert(is_record_of_one(defs, lambdas, d, k - 1));
                }
                if is_record_of_one(defs, lambdas, d, k - 1) {
                    let j = choose|j: int|
                        0 <= j < k - 1 && (#[trigger] lambdas[j]) < defs.len()
                            && defs[lambdas[j] as int].closure_record == d;
                    assert(is_record_of_one(defs, lambdas, d, k));
                }
            }
        }
        assert forall|d: int| 0 <= d < all.len() implies (#[trigger] b[d]).len()
            == all[d].len() by {
            assert(a[d].len() == all[d].len());
        }
    }
}

/// A boxed name is refused where its variable is a `&` parameter that the source declares, of
/// something that has a cell, or a parameter that is constant; nothing changes in either
/// case.
pub proof fn a_boxed_parameter_is_refused_where_it_cannot_change(
    defs: Seq<Definition>,
    attrs: Seq<Attribute>,
    f: data::FnView,
    name: Seq<char>,
)
    requires
        data::named_in(f, name) < f.vars.len(),
    ensures
        ({
            let v = data::named_in(f, name);
            let var = f.vars[v as int];
            let (g, why) = closures::flipped(defs, attrs, f, name);
            let by_ref = var.argument && v < attrs.len() && !attrs[v as int].hidden && (
            var.tp matches types::Ty::RefVar(inner) && cells::cell_name(*inner, defs) is Some);
            let constant = var.argument && !(var.tp is RefVar) && var.value_const;
            &&& why == Some(Refusal::RefParameter) <==> by_ref
            &&& why == Some(Refusal::ConstParameter) <==> constant
            &&& why is Some ==> g == f
        }),
{
}

/// A boxed local moves into its cell, where there is one for its type and it is in none yet; no
/// other variable changes.
pub proof fn a_boxed_local_moves_into_its_cell(
    defs: Seq<Definition>,
    attrs: Seq<Attribute>,
    f: data::FnView,
    name: Seq<char>,
    x: int,
)
    requires
        data::named_in(f, name) < f.vars.len(),
        !f.vars[data::named_in(f, name) as int].argument,
        0 <= x < f.vars.len(),
    ensures
        ({
            let v = data::named_in(f, name);
            let g = closures::flipped(defs, attrs, f, name).0;
            let t = f.vars[v as int].tp;
            &&& g.vars.len() == f.vars.len()
            &&& g.vars[x] == if x == v && !points_at_a_cell(defs, t) {
                data::VarView { tp: captures::cell_type(defs, t), ..f.vars[x] }
            } else {
                f.vars[x]
            }
            &&& g.renames == f.renames
        }),
{
}

/// A boxed parameter that may change gets a local that starts out as it and stands in for it:
/// the name means the local from there on, the local is in the cell, and the parameter is
/// what it was.
pub proof fn a_boxed_parameter_gets_a_local(
    defs: Seq<Definition>,
    attrs: Seq<Attribute>,
    f: data::FnView,
    name: Seq<char>,
    x: int,
)
    requires
        data::named_in(f, name) < f.vars.len() < u16::MAX,
        f.vars[data::named_in(f, name) as int].argument,
        !(f.vars[data::named_in(f, name) as int].tp is RefVar),
        !f.vars[data::named_in(f, name) as int].value_const,
        cells::cell_name(f.vars[data::named_in(f, name) as int].tp, defs) is Some,
        0 <= x < f.vars.len(),
    ensures
        ({
            let v = data::named_in(f, name);
            let g = closures::flipped(defs, attrs, f, name).0;
            let was = f.vars[v as int];
            let local = g.vars.last();
            &&& g.vars.len() == f.vars.len() + 1
            &&& g.vars[x] == if x == v {
                data::VarView { used: true, ..f.vars[x] }
            } else {
                f.vars[x]
            }
            &&& local.name == "__bx_"@ + name && local.promoted_from == Some(v) && local.defined
                && !local.argument
            &&& local.tp == if points_at_a_cell(defs, was.tp) {
                was.tp
            } else {
                captures::cell_type(defs, was.tp)
            }
            &&& g.renames == f.renames.push((name, f.vars.len() as u16))
        }),
{
}

/// Whether one of the first `k` captures is written and takes a cell of a name that is not
/// defined.
pub open spec fn is_asked_for(
    defs: Seq<Definition>,
    captured: Seq<(Seq<char>, types::Ty)>,
    mutated: Seq<Seq<char>>,
    k: int,
    cell: Seq<char>,
) -> bool {
    data::def_from(defs, cell, 0) == u32::MAX && exists|i: int|
        0 <= i < k && mutated.contains((#[trigger] captured[i]).0) && cells::cell_name(
            captured[i].1,
            defs,
        ) == Some(cell)
}

/// A cell is made for a capture exactly where the capture is written, takes a cell, and that
/// is not defined yet; each is made once.
pub proof fn a_cell_is_made_where_it_is_missing(
    defs: Seq<Definition>,
    captured: Seq<(Seq<char>, types::Ty)>,
    mutated: Seq<Seq<char>>,
    k: int,
    cell: Seq<char>,
)
    requires
        0 <= k <= captured.len(),
    ensures
        ({
            let all = closures::missing_cells(defs, captured, mutated, k);
            &&& (exists|i: int| 0 <= i < all.len() && (#[trigger] all[i]).0 == cell)
                <==> is_asked_for(defs, captured, mutated, k, cell)
            &&& forall|i: int, j: int|
                #![trigger all[i], all[j]]
                0 <= i < j < all.len() ==> all[i].0 != all[j].0
        }),
    decreases k,
{
    if k > 0 {
        a_cell_is_made_where_it_is_missing(defs, captured, mutated, k - 1, cell);
        let before = closures::missing_cells(defs, captured, mutated, k - 1);
        let all = closures::missing_cells(defs, captured, mutated, k);
        let (name, t) = captured[k - 1];
        let names = closures::firsts(before);
        if is_asked_for(defs, captured, mutated, k - 1, cell) {
            let i = choose|i: int|
                0 <= i < k - 1 && mutated.contains((#[trigger] captured[i]).0)
                    && cells::cell_name(captured[i].1, defs) == Some(cell);
            assert(captured[i] == captured[i]);
        }
        if all != before {
            assert(all == before.push(all.last()));
            assert forall|i: int| 0 <= i < before.len() implies #[trigger] all[i] == before[i] by {}
            assert(all[before.len() as int] == all.last());
            assert forall|i: int| 0 <= i < before.len() implies (#[trigger] before[i]).0
                != all.last().0 by {
                assert(names[i] == before[i].0);
            }
            assert(captured[k - 1].0 == name);
        } else {
            match cells::cell_name(t, defs) {
                Some(c) => {
                    if c == cell && names.contains(c) {
                        let i = choose|i: int| 0 <= i < names.len() && names[i] == c;
                        assert(before[i].0 == c);
                    }
                },
                None => {},
            }
        }
        if exists|i: int| 0 <= i < before.len() && (#[trigger] before[i]).0 == cell {
            let i = choose|i: int| 0 <= i < before.len() && (#[trigger] before[i]).0 == cell;
            assert(all[i].0 == cell);
        }
        if exists|i: int| 0 <= i < all.len() && (#[trigger] all[i]).0 == cell {
            let i = choose|i: int| 0 <= i < all.len() && (#[trigger] all[i]).0 == cell;
            if i < before.len() {
                assert(before[i].0 == cell);
            } else {
                assert(captured[k - 1].0 == name);
            }
        }
    }
}

/// A capture is held as a cell exactly where the definition that owns the name boxes it: the
/// first owner that is known for the name, or the enclosing definition.
pub proof fn a_capture_is_boxed_by_its_first_owner(
    defs: Seq<Definition>,
    all: Seq<(Seq<char>, types::Ty)>,
    owners: Seq<Owner>,
    outer: u32,
    i: int,
    o: int,
)
    requires
        0 <= i < all.len(),
        outer < defs.len(),
        0 <= o <= owners.len(),
        o < owners.len() ==> owners[o].name@ == all[i].0,
        forall|j: int| 0 <= j < o ==> (#[trigger] owners[j]).name@ != all[i].0,
    ensures
        ({
            let owner = if o < owners.len() {
                owners[o].def
            } else {
                outer
            };
            let boxed = captures::boxed_captures(defs, all, owners, outer);
            &&& boxed.len() == all.len()
            &&& boxed[i].0 == all[i].0
            &&& boxed[i].1 == if owner < defs.len() && text::texts(
                defs[owner as int].scalars_to_box@,
            ).contains(all[i].0) {
                captures::cell_type(defs, all[i].1)
            } else {
                all[i].1
            }
        }),
{
    the_first_owner(owners, all[i].0, 0, o, outer);
}

proof fn the_first_owner(owners: Seq<Owner>, name: Seq<char>, from: int, o: int, outer: u32)
    requires
        0 <= from <= o <= owners.len(),
        o < owners.len() ==> owners[o].name@ == name,
        forall|j: int| from <= j < o ==> (#[trigger] owners[j]).name@ != name,
    ensures
        captures::owner_from(owners, name, from, outer) == if o < owners.len() {
            owners[o].def
        } else {
            outer
        },
    decreases o - from,
{
    if from < o {
        the_first_owner(owners, name, from + 1, o, outer);
    }
}

} // verus!
