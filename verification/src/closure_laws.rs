//! What holds of the captures of lambdas that are boxed, and of their cells.

use crate::captures;
use crate::cells;
use crate::closures::{self, Lambdas};
use crate::data::{self, Definition};
use crate::ir;
use crate::types;
use vstd::prelude::*;

verus! {

/// Whether a lambda captures a name: its closure record has a field of it.
pub open spec fn captures_it(defs: Seq<Definition>, lambda: u32, name: Seq<char>) -> bool {
    lambda < defs.len() && {
        let record = defs[lambda as int].closure_record;
        record < defs.len() && exists|i: int|
            0 <= i < defs[record as int].attributes.len() && (
            #[trigger] defs[record as int].attributes@[i]).name@ == name
    }
}

/// Whether two of the first `k` lambdas capture a name.
pub open spec fn two_capture(
    defs: Seq<Definition>,
    lambdas: Seq<u32>,
    name: Seq<char>,
    k: int,
) -> bool {
    exists|i: int, j: int|
        0 <= i < j < k && #[trigger] captures_it(defs, lambdas[i], name) && #[trigger] captures_it(
            defs,
            lambdas[j],
            name,
        )
}

proof fn capturing_is_counted(
    defs: Seq<Definition>,
    lambdas: Seq<u32>,
    name: Seq<char>,
    k: int,
)
    requires
        0 <= k <= lambdas.len(),
        defs.len() <= u32::MAX,
    ensures
        closures::capturers(defs, lambdas, name, k) >= 1 <==> exists|i: int|
            0 <= i < k && #[trigger] captures_it(defs, lambdas[i], name),
        closures::capturers(defs, lambdas, name, k) >= 2 <==> two_capture(defs, lambdas, name, k),
    decreases k,
{
    if k > 0 {
        capturing_is_counted(defs, lambdas, name, k - 1);
        let lambda = lambdas[k - 1];
        let record = closures::record_of(defs, lambda);
        let here = record < defs.len() && captures::attr_names(
            defs[record as int].attributes@,
        ).contains(name);
        assert(here == captures_it(defs, lambda, name)) by {
            if record < defs.len() {
                let attrs = defs[record as int].attributes@;
                let names = captures::attr_names(attrs);
                if names.contains(name) {
                    let i = choose|i: int| 0 <= i < names.len() && names[i] == name;
                    assert(attrs[i].name@ == name);
                }
                if captures_it(defs, lambda, name) {
                    let i = choose|i: int| 0 <= i < attrs.len() && (#[trigger] attrs[i]).name@ == name;
                    assert(names[i] == name);
                }
            }
        }
        let before = closures::capturers(defs, lambdas, name, k - 1);
        if here && before >= 1 {
            let i = choose|i: int| 0 <= i < k - 1 && #[trigger] captures_it(defs, lambdas[i], name);
            assert(captures_it(defs, lambdas[i], name) && captures_it(defs, lambdas[k - 1], name));
        }
        if two_capture(defs, lambdas, name, k) {
            let (i, j) = choose|i: int, j: int|
                0 <= i < j < k && #[trigger] captures_it(defs, lambdas[i], name)
                    && #[trigger] captures_it(defs, lambdas[j], name);
            if j < k - 1 {
                assert(two_capture(defs, lambdas, name, k - 1));
            } else {
                assert(captures_it(defs, lambdas[i], name));
            }
        }
        if two_capture(defs, lambdas, name, k - 1) {
            let (i, j) = choose|i: int, j: int|
                0 <= i < j < k - 1 && #[trigger] captures_it(defs, lambdas[i], name)
                    && #[trigger] captures_it(defs, lambdas[j], name);
            assert(captures_it(defs, lambdas[i], name) && captures_it(defs, lambdas[j], name));
        }
    }
}

/// A boxed name is refused as shared exactly where two lambdas capture it.
pub proof fn a_shared_name_is_captured_twice(
    defs: Seq<Definition>,
    lambdas: Seq<u32>,
    names: Seq<Seq<char>>,
    k: int,
    name: Seq<char>,
)
    requires
        0 <= k <= names.len(),
        defs.len() <= u32::MAX,
    ensures
        closures::shared(defs, lambdas, names, k).contains(name) <==> (exists|i: int|
            0 <= i < k && #[trigger] names[i] == name) && two_capture(
            defs,
            lambdas,
            name,
            lambdas.len() as int,
        ),
    decreases k,
{
    if k > 0 {
        a_shared_name_is_captured_twice(defs, lambdas, names, k - 1, name);
        capturing_is_counted(defs, lambdas, names[k - 1], lambdas.len() as int);
        let before = closures::shared(defs, lambdas, names, k - 1);
        let after = closures::shared(defs, lambdas, names, k);
        if before.contains(name) {
            let i = choose|i: int| 0 <= i < before.len() && before[i] == name;
            assert(after[i] == name);
        }
        if after.contains(name) && !before.contains(name) {
            let i = choose|i: int| 0 <= i < after.len() && after[i] == name;
            if i < before.len() {
                assert(before[i] == name);
            }
            assert(names[k - 1] == name);
        }
        if names[k - 1] == name && two_capture(defs, lambdas, name, lambdas.len() as int) {
            assert(after[before.len() as int] == name);
        }
    }
}

/// Whether lambda `b` stands directly in definition `a`.
pub open spec fn stands_in(graph: Seq<Lambdas>, a: u32, b: u32) -> bool {
    closures::lambdas_from(graph, a, 0).contains(b)
}

/// Whether each of a row of definitions stands directly in the one before it.
pub open spec fn is_nesting(graph: Seq<Lambdas>, row: Seq<u32>) -> bool {
    forall|i: int| 0 < i < row.len() ==> stands_in(graph, row[i - 1], #[trigger] row[i])
}

/// Whether a row of at least three, of which each stands directly in the one before it,
/// leads from definition `d` to `x`.
pub open spec fn nests(graph: Seq<Lambdas>, d: u32, x: u32, row: Seq<u32>) -> bool {
    row.len() >= 3 && row[0] == d && row.last() == x && is_nesting(graph, row)
}

spec fn is_nested(graph: Seq<Lambdas>, d: u32, x: u32) -> bool {
    exists|row: Seq<u32>| nests(graph, d, x, row)
}

proof fn deeper(graph: Seq<Lambdas>, d: u32, x: u32, y: u32)
    requires
        is_nested(graph, d, x),
        stands_in(graph, x, y),
    ensures
        is_nested(graph, d, y),
{
    let row = choose|row: Seq<u32>| nests(graph, d, x, row);
    let more = row.push(y);
    assert forall|i: int| 0 < i < more.len() implies stands_in(
        graph,
        more[i - 1],
        #[trigger] more[i],
    ) by {
        if i < row.len() {
            assert(more[i] == row[i]);
            assert(more[i - 1] == row[i - 1]);
        }
    }
    assert(nests(graph, d, y, more));
}

spec fn settled_search(
    graph: Seq<Lambdas>,
    d: u32,
    direct: Seq<u32>,
    todo: Seq<u32>,
    seen: Seq<u32>,
) -> bool {
    &&& seen.no_duplicates()
    &&& forall|i: int| 0 <= i < todo.len() ==> is_nested(graph, d, #[trigger] todo[i])
    &&& forall|i: int|
        0 <= i < seen.len() ==> is_nested(graph, d, #[trigger] seen[i]) && !direct.contains(
            seen[i],
        )
    &&& forall|i: int, y: u32|
        #![trigger seen[i], stands_in(graph, seen[i], y)]
        0 <= i < seen.len() && stands_in(graph, seen[i], y) ==> seen.contains(y) || direct.contains(
            y,
        ) || todo.contains(y)
}

proof fn no_more_than_there_are(s: Seq<u32>)
    requires
        s.no_duplicates(),
    ensures
        s.len() <= 0x1_0000_0000,
        s.len() == 0x1_0000_0000 ==> forall|x: u32| s.contains(x),
{
    let ints = s.map_values(|x: u32| x as int);
    assert(ints.no_duplicates());
    ints.unique_seq_to_set();
    let all = vstd::set_lib::set_int_range(0, 0x1_0000_0000);
    vstd::set_lib::lemma_int_range(0, 0x1_0000_0000);
    assert forall|x: int| ints.to_set().contains(x) implies all.contains(x) by {
        let i = choose|i: int| 0 <= i < ints.len() && ints[i] == x;
        assert(ints[i] == s[i] as int);
    }
    vstd::set_lib::lemma_len_subset(ints.to_set(), all);
    if s.len() == 0x1_0000_0000 {
        assert forall|x: u32| s.contains(x) by {
            if !s.contains(x) {
                let less = all.remove(x as int);
                assert forall|y: int| ints.to_set().contains(y) implies less.contains(y) by {
                    let i = choose|i: int| 0 <= i < ints.len() && ints[i] == y;
                    assert(ints[i] == s[i] as int);
                    assert(s.contains(s[i]));
                }
                vstd::set_lib::lemma_len_subset(ints.to_set(), less);
            }
        }
    }
}

proof fn a_search_finds_all(
    graph: Seq<Lambdas>,
    d: u32,
    direct: Seq<u32>,
    todo: Seq<u32>,
    seen: Seq<u32>,
)
    requires
        settled_search(graph, d, direct, todo, seen),
    ensures
        ({
            let all = closures::reached(graph, direct, todo, seen);
            &&& settled_search(graph, d, direct, Seq::empty(), all)
            &&& forall|i: int| 0 <= i < seen.len() ==> all.contains(#[trigger] seen[i])
            &&& forall|i: int|
                0 <= i < todo.len() ==> all.contains(#[trigger] todo[i]) || direct.contains(todo[i])
        }),
    decreases 0x1_0000_0000 - seen.len(), todo.len(),
{
    no_more_than_there_are(seen);
    let none = Seq::<u32>::empty();
    if todo.len() == 0 {
        assert(todo =~= none);
        assert forall|i: int| 0 <= i < seen.len() implies seen.contains(#[trigger] seen[i]) by {}
    } else {
        let lam = todo.last();
        let rest = todo.drop_last();
        assert(todo[todo.len() - 1] == lam);
        assert forall|i: int| 0 <= i < rest.len() implies is_nested(graph, d, #[trigger] rest[i]) by {
            assert(rest[i] == todo[i]);
        }
        assert forall|y: u32| todo.contains(y) implies y == lam || rest.contains(y) by {
            let i = choose|i: int| 0 <= i < todo.len() && todo[i] == y;
            if i < rest.len() {
                assert(rest[i] == y);
            }
        }
        if seen.contains(lam) || direct.contains(lam) {
            a_search_finds_all(graph, d, direct, rest, seen);
            let all = closures::reached(graph, direct, rest, seen);
            if seen.contains(lam) {
                let i = choose|i: int| 0 <= i < seen.len() && seen[i] == lam;
                assert(all.contains(seen[i]));
            }
            assert forall|i: int| 0 <= i < todo.len() implies all.contains(#[trigger] todo[i])
                || direct.contains(todo[i]) by {
                if i < rest.len() {
                    assert(rest[i] == todo[i]);
                }
            }
        } else {
            assert(seen.len() < 0x1_0000_0000);
            let more = rest + closures::lambdas_from(graph, lam, 0);
            let now = seen.push(lam);
            assert forall|i: int| 0 <= i < more.len() implies is_nested(graph, d, #[trigger] more[i]) by {
                if i < rest.len() {
                    assert(more[i] == rest[i]);
                } else {
                    assert(more[i] == closures::lambdas_from(graph, lam, 0)[i - rest.len()]);
                    assert(stands_in(graph, lam, more[i]));
                    deeper(graph, d, lam, more[i]);
                }
            }
            assert forall|y: u32| rest.contains(y) implies more.contains(y) by {
                let i = choose|i: int| 0 <= i < rest.len() && rest[i] == y;
                assert(more[i] == y);
            }
            assert forall|y: u32| stands_in(graph, lam, y) implies more.contains(y) by {
                let inner = closures::lambdas_from(graph, lam, 0);
                let i = choose|i: int| 0 <= i < inner.len() && inner[i] == y;
                assert(more[rest.len() + i] == y);
            }
            assert(now[seen.len() as int] == lam);
            assert forall|y: u32| seen.contains(y) implies now.contains(y) by {
                let i = choose|i: int| 0 <= i < seen.len() && seen[i] == y;
                assert(now[i] == y);
            }
            assert(now.contains(lam));
            assert forall|i: int, y: u32|
                #![trigger now[i], stands_in(graph, now[i], y)]
                0 <= i < now.len() && stands_in(graph, now[i], y) implies now.contains(y)
                || direct.contains(y) || more.contains(y) by {
                if i < seen.len() {
                    assert(now[i] == seen[i]);
                    assert(stands_in(graph, seen[i], y));
                }
            }
            assert forall|i: int| 0 <= i < now.len() implies is_nested(graph, d, #[trigger] now[i])
                && !direct.contains(now[i]) by {
                if i < seen.len() {
                    assert(now[i] == seen[i]);
                }
            }
            a_search_finds_all(graph, d, direct, more, now);
            let all = closures::reached(graph, direct, more, now);
            assert forall|i: int| 0 <= i < seen.len() implies all.contains(#[trigger] seen[i]) by {
                assert(now[i] == seen[i]);
                assert(all.contains(now[i]));
            }
            assert forall|i: int| 0 <= i < todo.len() implies all.contains(#[trigger] todo[i])
                || direct.contains(todo[i]) by {
                if i < rest.len() {
                    assert(more[i] == todo[i]);
                    assert(all.contains(more[i]) || direct.contains(more[i]));
                } else {
                    assert(all.contains(now[seen.len() as int]));
                }
            }
        }
    }
}

proof fn inner_ones_stand_in(graph: Seq<Lambdas>, s: Seq<u32>, k: int)
    requires
        0 <= k <= s.len(),
    ensures
        forall|y: u32|
            closures::inner_lambdas(graph, s, k).contains(y) <==> exists|i: int|
                0 <= i < k && stands_in(graph, #[trigger] s[i], y),
    decreases k,
{
    if k > 0 {
        inner_ones_stand_in(graph, s, k - 1);
        let before = closures::inner_lambdas(graph, s, k - 1);
        let more = closures::lambdas_from(graph, s[k - 1], 0);
        let all = closures::inner_lambdas(graph, s, k);
        assert forall|y: u32| all.contains(y) <==> exists|i: int|
            0 <= i < k && stands_in(graph, #[trigger] s[i], y) by {
            if all.contains(y) {
                let i = choose|i: int| 0 <= i < all.len() && all[i] == y;
                if i < before.len() {
                    assert(before[i] == y);
                    assert(before.contains(y));
                } else {
                    assert(more[i - before.len()] == y);
                    assert(stands_in(graph, s[k - 1], y));
                }
            }
            if exists|i: int| 0 <= i < k && stands_in(graph, #[trigger] s[i], y) {
                let i = choose|i: int| 0 <= i < k && stands_in(graph, #[trigger] s[i], y);
                if i < k - 1 {
                    assert(before.contains(y));
                    let j = choose|j: int| 0 <= j < before.len() && before[j] == y;
                    assert(all[j] == y);
                } else {
                    let j = choose|j: int| 0 <= j < more.len() && more[j] == y;
                    assert(all[before.len() + j] == y);
                }
            }
        }
    }
}

/// The nested lambdas of a definition are those that stand in one of its own lambdas, at any
/// depth, but for these themselves; each is listed once.
pub proof fn nested_lambdas_stand_in_its_own(graph: Seq<Lambdas>, d: u32, x: u32)
    ensures
        closures::nested(graph, d).contains(x) <==> !stands_in(graph, d, x) && exists|
            row: Seq<u32>,
        | #[trigger]
            nests(graph, d, x, row),
        closures::nested(graph, d).no_duplicates(),
{
    let direct = closures::lambdas_from(graph, d, 0);
    let todo = closures::inner_lambdas(graph, direct, direct.len() as int);
    let none = Seq::<u32>::empty();
    inner_ones_stand_in(graph, direct, direct.len() as int);
    assert forall|i: int| 0 <= i < todo.len() implies is_nested(graph, d, #[trigger] todo[i]) by {
        assert(todo.contains(todo[i]));
        let j = choose|j: int|
            0 <= j < direct.len() && stands_in(graph, #[trigger] direct[j], todo[i]);
        let row = seq![d, direct[j], todo[i]];
        assert(direct.contains(direct[j]));
        assert(is_nesting(graph, row));
        assert(nests(graph, d, todo[i], row));
    }
    a_search_finds_all(graph, d, direct, todo, none);
    let all = closures::nested(graph, d);
    if all.contains(x) {
        let i = choose|i: int| 0 <= i < all.len() && all[i] == x;
        assert(is_nested(graph, d, all[i]));
    }
    if exists|row: Seq<u32>| #[trigger] nests(graph, d, x, row) {
        let row = choose|row: Seq<u32>| #[trigger] nests(graph, d, x, row);
        a_row_is_found(graph, d, row, row.len() - 1);
    }
}

proof fn a_row_is_found(graph: Seq<Lambdas>, d: u32, row: Seq<u32>, k: int)
    requires
        row.len() >= 3,
        row[0] == d,
        is_nesting(graph, row),
        1 <= k < row.len(),
    ensures
        stands_in(graph, d, row[k]) || closures::nested(graph, d).contains(row[k]),
    decreases k,
{
    let direct = closures::lambdas_from(graph, d, 0);
    let todo = closures::inner_lambdas(graph, direct, direct.len() as int);
    let none = Seq::<u32>::empty();
    assert(stands_in(graph, row[k - 1], row[k]));
    if k > 1 {
        a_row_is_found(graph, d, row, k - 1);
        inner_ones_stand_in(graph, direct, direct.len() as int);
        assert forall|i: int| 0 <= i < todo.len() implies is_nested(graph, d, #[trigger] todo[i]) by {
            assert(todo.contains(todo[i]));
            let j = choose|j: int|
                0 <= j < direct.len() && stands_in(graph, #[trigger] direct[j], todo[i]);
            let short = seq![d, direct[j], todo[i]];
            assert(direct.contains(direct[j]));
            assert(nests(graph, d, todo[i], short));
        }
        a_search_finds_all(graph, d, direct, todo, none);
        let all = closures::nested(graph, d);
        if stands_in(graph, d, row[k - 1]) {
            let j = choose|j: int| 0 <= j < direct.len() && direct[j] == row[k - 1];
            assert(stands_in(graph, direct[j], row[k]));
            assert(todo.contains(row[k]));
            let i = choose|i: int| 0 <= i < todo.len() && todo[i] == row[k];
            assert(all.contains(todo[i]) || direct.contains(todo[i]));
        } else {
            let i = choose|i: int| 0 <= i < all.len() && all[i] == row[k - 1];
            assert(stands_in(graph, all[i], row[k]));
        }
    }
}

/// Whether a node calls the operator of a name.
pub open spec fn calls_named(defs: Seq<Definition>, n: ir::Node, name: Seq<char>) -> bool {
    n.head matches ir::Head::Call(d) && d < defs.len() && defs[d as int].name@ == name
}

/// The write that an assignment to a cell comes to: the last statement of it.
pub open spec fn last_of(n: ir::Node) -> ir::Node {
    if n.head is Insert && n.kids.len() > 0 {
        n.kids.last()
    } else {
        n
    }
}

/// What is assigned to a variable in a cell is written by the operator of the same kind, at
/// the same place and against the same bound as the variable is read; before the first
/// assignment the variable gets a cell of its type, and before a later one it does not.
pub proof fn a_cell_is_read_as_it_is_written(
    defs: Seq<Definition>,
    vars: Seq<data::VarView>,
    v: u16,
    value: ir::Node,
    kind: Seq<char>,
)
    requires
        defs.len() <= u32::MAX,
        v < vars.len(),
        cells::held_type(defs, vars[v as int].tp) is Some,
        kind == kind_of(cells::held_type(defs, vars[v as int].tp)->0),
        data::def_from(defs, "OpGet"@ + kind, 0) != u32::MAX,
        data::def_from(defs, "OpSet"@ + kind, 0) != u32::MAX,
        data::def_from(defs, "OpDatabase"@, 0) != u32::MAX,
        kind.len() > 0,
    ensures
        ({
            let code = cells::assigned(defs, vars, v, "="@, value)->0;
            let write = last_of(code);
            let (read, t) = cells::dereferenced(defs, ir::var(v), vars[v as int].tp);
            &&& cells::assigned(defs, vars, v, "="@, value) is Some
            &&& t == cells::held_type(defs, vars[v as int].tp)->0
            &&& calls_named(defs, write, "OpSet"@ + kind)
            &&& calls_named(defs, read, "OpGet"@ + kind)
            &&& write.kids == read.kids.push(value)
            &&& read.kids == match least_of(t) {
                Some(least) => seq![ir::var(v), ir::int_value(0), ir::int_value(least)],
                None => seq![ir::var(v), ir::int_value(0)],
            }
            &&& vars[v as int].defined ==> code == write
            &&& !vars[v as int].defined ==> (vars[v as int].tp matches types::Ty::Reference(d, _)
                && {
                &&& code.kids.len() == 3
                &&& code.kids[0] == ir::assign(v, ir::leaf(ir::Head::Null))
                &&& calls_named(defs, code.kids[1], "OpDatabase"@)
                &&& code.kids[1].kids == seq![
                    ir::var(v),
                    ir::int_value(defs[d as int].known_type as i32),
                ]
            })
        }),
{
    data::found_definition(defs, "OpGet"@ + kind, 0);
    data::found_definition(defs, "OpSet"@ + kind, 0);
    data::found_definition(defs, "OpDatabase"@, 0);
    let inner = cells::held_type(defs, vars[v as int].tp)->0;
    kinds_are_accessed(inner);
    let code = cells::assigned(defs, vars, v, "="@, value)->0;
    if !vars[v as int].defined {
        assert(code.kids.last() == code.kids[2]);
    }
}

/// The kind of a scalar type, as the operators that read and write it name it; nothing for
/// any other type.
pub open spec fn kind_of(t: types::Ty) -> Seq<char>
    decreases t,
{
    match t {
        types::Ty::Optional(inner) => kind_of(*inner),
        types::Ty::Boolean => "Boolean"@,
        types::Ty::Character => "Character"@,
        types::Ty::Single => "Single"@,
        types::Ty::Float => "Float"@,
        types::Ty::Text(_) => "Text"@,
        types::Ty::Enum(_, fields, _) => if fields {
            Seq::empty()
        } else {
            "Enum"@
        },
        types::Ty::Integer(spec) => match types::integer_width(spec, true) {
            1 => "Byte"@,
            2 => "Short"@,
            4 => "Int4"@,
            _ => "Int"@,
        },
        _ => Seq::empty(),
    }
}

/// The least value of an integer that is stored in one or two bytes, against which it is
/// stored.
pub open spec fn least_of(t: types::Ty) -> Option<i32>
    decreases t,
{
    match t {
        types::Ty::Optional(inner) => least_of(*inner),
        types::Ty::Integer(spec) => if types::integer_width(spec, true) == 1
            || types::integer_width(spec, true) == 2 {
            Some(spec.min)
        } else {
            None
        },
        _ => None,
    }
}

pub(crate) proof fn kinds_are_accessed(t: types::Ty)
    ensures
        kind_of(t).len() > 0 ==> cells::accessor(t) == Some((kind_of(t), least_of(t))),
    decreases t,
{
    match t {
        types::Ty::Optional(inner) => {
            kinds_are_accessed(*inner);
        },
        _ => {},
    }
}

/// The number of values of a range, and one more where a value may be absent, fits the bytes
/// that an integer of the range takes, unless its declaration asks for a size; and a smaller
/// size of a byte or two would not do.
pub proof fn a_range_fits_its_width(spec: types::IntegerSpec, nullable: bool)
    requires
        spec.forced_size == 0,
    ensures
        ({
            let values = spec.max as int - spec.min as int + 1 + if nullable && !spec.not_null {
                1int
            } else {
                0
            };
            let w = types::integer_width(spec, nullable);
            &&& w == 1 || w == 2 || w == 8
            &&& w == 1 <==> values <= 256
            &&& w == 2 ==> 256 < values <= 256 * 256
            &&& w == 8 ==> 256 * 256 < values
        }),
{
}

} // verus!
