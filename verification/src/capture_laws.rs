//! What holds of the captures that closures write, whatever their code.

use crate::captures::{self, Owner, Scene};
use crate::data::{self, Definition};
use crate::ir;
use crate::text;
use crate::types;
use vstd::prelude::*;

verus! {

/// The node that is reached from `n` by going down to child `q[0]`, from there to child
/// `q[1]`, and so on.
pub open spec fn below(n: ir::Node, q: Seq<int>) -> Option<ir::Node>
    decreases q.len(),
{
    if q.len() == 0 {
        Some(n)
    } else if 0 <= q[0] < n.kids.len() {
        below(n.kids[q[0]], q.skip(1))
    } else {
        None
    }
}

/// Whether the node at `q` runs in the function itself: neither it nor anything above it
/// is a parallel block.
pub open spec fn runs_here(n: ir::Node, q: Seq<int>) -> bool {
    &&& below(n, q) is Some
    &&& forall|k: int|
        0 <= k <= q.len() ==> !((#[trigger] below(n, q.take(k)))->0.head is Parallel)
}

/// The operators that change what their first operand names.
pub open spec fn changes_its_operand(name: Seq<char>) -> bool {
    ||| name.len() >= 5 && name.take(5) == seq!['O', 'p', 'S', 'e', 't']
    ||| name.len() >= 8 && name.take(8) == seq!['O', 'p', 'A', 'p', 'p', 'e', 'n', 'd']
    ||| name.len() >= 7 && name.take(7) == seq!['O', 'p', 'C', 'l', 'e', 'a', 'r']
    ||| name == seq!['O', 'p', 'I', 'n', 's', 'e', 'r', 't', 'V', 'e', 'c', 't', 'o', 'r']
    ||| name == seq!['O', 'p', 'R', 'e', 'm', 'o', 'v', 'e', 'V', 'e', 'c', 't', 'o', 'r']
    ||| name == seq!['O', 'p', 'N', 'e', 'w', 'R', 'e', 'c', 'o', 'r', 'd']
}

/// The operations that read a part of their first operand.
pub open spec fn reads_a_part(defs: Seq<Definition>, d: u32) -> bool {
    d < defs.len() && {
        let name = defs[d as int].original_name@;
        name.len() >= 3 && name.take(3) == seq!['G', 'e', 't']
    }
}

/// Whether `n` reads a part of a part, `hops` times, of what `m` names.
pub open spec fn part_of(defs: Seq<Definition>, n: ir::Node, hops: nat, m: ir::Node) -> bool
    decreases hops,
{
    let top = ir::unspan(n);
    if hops == 0 {
        m == top
    } else {
        &&& top.head matches ir::Head::Call(d) && reads_a_part(defs, d)
        &&& top.kids.len() > 0
        &&& part_of(defs, top.kids[0], (hops - 1) as nat, m)
    }
}

/// Whether `n` is variable `v`, source positions aside.
pub open spec fn is_var(n: ir::Node, v: u16) -> bool {
    ir::unspan(n).head == ir::Head::Var(v)
}

/// Whether operands that start with the closure parameter and a number name the field of
/// the closure record that has this number.
pub open spec fn names_field(
    names: Seq<Seq<char>>,
    param: Option<u16>,
    args: Seq<ir::Node>,
    name: Seq<char>,
) -> bool {
    &&& args.len() > 1
    &&& param is Some
    &&& is_var(args[0], param->0)
    &&& ir::unspan(args[1]).head matches ir::Head::Int(i) && 0 <= i < names.len() && names[i as int]
        == name
}

/// Whether variable `v` is called `name`.
pub open spec fn called(vars: Seq<data::VarView>, v: u16, name: Seq<char>) -> bool {
    v < vars.len() && vars[v as int].name == name
}

/// Whether a node changes the captured variable `name`: it assigns to it, or it is an
/// operation that changes the variable, its field in the closure record, or a part of
/// one of these.
pub open spec fn changes(
    defs: Seq<Definition>,
    vars: Seq<data::VarView>,
    names: Seq<Seq<char>>,
    param: Option<u16>,
    n: ir::Node,
    name: Seq<char>,
) -> bool {
    match n.head {
        ir::Head::Assign(v) => called(vars, v, name),
        ir::Head::Call(d) => {
            &&& d < defs.len()
            &&& changes_its_operand(defs[d as int].name@)
            &&& n.kids.len() > 0
            &&& {
                ||| names_field(names, param, n.kids, name)
                ||| exists|v: u16|
                    #![trigger is_var(n.kids[0], v)]
                    is_var(n.kids[0], v) && called(vars, v, name) && !(exists|other: Seq<char>|
                        names_field(names, param, n.kids, other))
                ||| exists|hops: nat, m: ir::Node|
                    #![trigger part_of(defs, n.kids[0], hops, m)]
                    hops > 0 && part_of(defs, n.kids[0], hops, m) && {
                        ||| exists|v: u16| #[trigger] is_var(m, v) && called(vars, v, name)
                        ||| m.head matches ir::Head::Call(g) && reads_a_part(defs, g)
                            && names_field(names, param, m.kids, name)
                    }
                ||| {
                    let m = ir::unspan(n.kids[0]);
                    m.head matches ir::Head::Call(g) && reads_a_part(defs, g) && names_field(
                        names,
                        param,
                        m.kids,
                        name,
                    )
                }
            }
        },
        _ => false,
    }
}

proof fn prefixes_are_spelled(name: Seq<char>)
    ensures
        captures::writes_first(name) == changes_its_operand(name),
{
    reveal_strlit("OpSet");
    reveal_strlit("OpAppend");
    reveal_strlit("OpClear");
    reveal_strlit("OpInsertVector");
    reveal_strlit("OpRemoveVector");
    reveal_strlit("OpNewRecord");
    assert("OpSet"@ =~= seq!['O', 'p', 'S', 'e', 't']);
    assert("OpAppend"@ =~= seq!['O', 'p', 'A', 'p', 'p', 'e', 'n', 'd']);
    assert("OpClear"@ =~= seq!['O', 'p', 'C', 'l', 'e', 'a', 'r']);
    assert("OpInsertVector"@ =~= seq![
        'O', 'p', 'I', 'n', 's', 'e', 'r', 't', 'V', 'e', 'c', 't', 'o', 'r',
    ]);
    assert("OpRemoveVector"@ =~= seq![
        'O', 'p', 'R', 'e', 'm', 'o', 'v', 'e', 'V', 'e', 'c', 't', 'o', 'r',
    ]);
    assert("OpNewRecord"@ =~= seq!['O', 'p', 'N', 'e', 'w', 'R', 'e', 'c', 'o', 'r', 'd']);
}

proof fn getters_are_spelled(defs: Seq<Definition>, d: u32)
    ensures
        captures::is_getter(defs, d) == reads_a_part(defs, d),
{
    reveal_strlit("Get");
    assert("Get"@ =~= seq!['G', 'e', 't']);
}

/// The root of a chain of reads is what the chain reads parts of.
proof fn a_chain_has_a_root(defs: Seq<Definition>, n: ir::Node, hops: nat, m: ir::Node)
    requires
        part_of(defs, n, hops, m),
    ensures
        m.head matches ir::Head::Var(v) ==> captures::root_var(defs, n) == Some(v),
    decreases hops, n,
{
    if n.head is Span && n.kids.len() > 0 {
        assert(part_of(defs, n.kids[0], hops, m));
        a_chain_has_a_root(defs, n.kids[0], hops, m);
    } else if hops > 0 {
        match n.head {
            ir::Head::Call(d) => {
                getters_are_spelled(defs, d);
                a_chain_has_a_root(defs, n.kids[0], (hops - 1) as nat, m);
            },
            _ => {},
        }
    }
}

proof fn a_root_has_a_chain(defs: Seq<Definition>, n: ir::Node) -> (r: (nat, ir::Node))
    requires
        captures::root_var(defs, n) is Some,
    ensures
        part_of(defs, n, r.0, r.1),
        r.1.head == ir::Head::Var(captures::root_var(defs, n)->0),
        ir::unspan(n).head is Call ==> r.0 > 0,
    decreases n,
{
    if n.head is Span && n.kids.len() > 0 {
        let r = a_root_has_a_chain(defs, n.kids[0]);
        assert(part_of(defs, n, r.0, r.1));
        r
    } else {
        match n.head {
            ir::Head::Call(d) => {
                getters_are_spelled(defs, d);
                let r = a_root_has_a_chain(defs, n.kids[0]);
                assert(part_of(defs, n, r.0 + 1, r.1));
                (r.0 + 1, r.1)
            },
            _ => {
                assert(part_of(defs, n, 0, n));
                (0, n)
            },
        }
    }
}

/// The field that a chain of reads starts at is the one that its last read names.
proof fn a_chain_has_a_field(
    defs: Seq<Definition>,
    n: ir::Node,
    hops: nat,
    m: ir::Node,
    param: Option<u16>,
)
    requires
        part_of(defs, n, hops, m),
        m.head matches ir::Head::Call(g) && reads_a_part(defs, g),
        m.kids.len() > 1,
        param is Some,
        is_var(m.kids[0], param->0),
        ir::unspan(m.kids[1]).head is Int,
    ensures
        captures::capture_field(defs, n, param) == captures::literal(m.kids[1]),
    decreases hops, n,
{
    if n.head is Span && n.kids.len() > 0 {
        assert(part_of(defs, n.kids[0], hops, m));
        a_chain_has_a_field(defs, n.kids[0], hops, m, param);
    } else {
        match n.head {
            ir::Head::Call(d) => {
                getters_are_spelled(defs, d);
                if hops > 0 {
                    a_chain_has_a_field(defs, n.kids[0], (hops - 1) as nat, m, param);
                    if is_var(n.kids[0], param->0) {
                        // what the first operand reads is a call and no variable
                        part_heads(defs, n.kids[0], (hops - 1) as nat, m);
                    }
                }
            },
            _ => {},
        }
    }
}

proof fn part_heads(defs: Seq<Definition>, n: ir::Node, hops: nat, m: ir::Node)
    requires
        part_of(defs, n, hops, m),
        m.head is Call,
    ensures
        ir::unspan(n).head is Call,
{
}

proof fn a_field_has_a_chain(defs: Seq<Definition>, n: ir::Node, param: Option<u16>) -> (r: (
    nat,
    ir::Node,
))
    requires
        captures::capture_field(defs, n, param) is Some,
    ensures
        part_of(defs, n, r.0, r.1),
        r.1.head matches ir::Head::Call(g) && reads_a_part(defs, g),
        r.1.kids.len() > 1,
        param is Some,
        is_var(r.1.kids[0], param->0),
        ir::unspan(r.1.kids[1]).head == ir::Head::Int(captures::capture_field(defs, n, param)->0),
    decreases n,
{
    if n.head is Span && n.kids.len() > 0 {
        let r = a_field_has_a_chain(defs, n.kids[0], param);
        assert(part_of(defs, n, r.0, r.1));
        r
    } else {
        match n.head {
            ir::Head::Call(d) => {
                getters_are_spelled(defs, d);
                if captures::is_param(n.kids[0], param) && n.kids.len() > 1 && captures::literal(
                    n.kids[1],
                ) is Some {
                    assert(part_of(defs, n, 0, n));
                    (0, n)
                } else {
                    let r = a_field_has_a_chain(defs, n.kids[0], param);
                    assert(part_of(defs, n, r.0 + 1, r.1));
                    (r.0 + 1, r.1)
                }
            },
            _ => (0, n),
        }
    }
}

/// A node notes the captured variables that it changes, and no others.
proof fn a_node_notes_its_changes(e: Scene, n: ir::Node, out: Seq<Seq<char>>, name: Seq<char>)
    ensures
        captures::marked_here(e, n, out).contains(name) <==> out.contains(name)
            || e.names.contains(name) && changes(e.defs, e.vars, e.names, e.param, n, name),
{
    let here = captures::marked_here(e, n, out);
    match n.head {
        ir::Head::Assign(v) => {
            if v < e.vars.len() {
                marking(e, e.vars[v as int].name, out, name);
            }
        },
        ir::Head::Call(d) => {
            if d < e.defs.len() {
                prefixes_are_spelled(e.defs[d as int].name@);
                if captures::writes_first(e.defs[d as int].name@) && n.kids.len() > 0 {
                    a_call_notes_its_changes(e, n, out, name);
                }
            }
        },
        _ => {},
    }
}

proof fn marking(e: Scene, new: Seq<char>, out: Seq<Seq<char>>, name: Seq<char>)
    ensures
        captures::marked(e, new, out).contains(name) <==> out.contains(name) || e.names.contains(
            new,
        ) && new == name,
{
    let more = out.push(new);
    if out.contains(name) {
        let i = choose|i: int| 0 <= i < out.len() && out[i] == name;
        assert(more[i] == name);
    }
    assert(more[out.len() as int] == new);
    if more.contains(name) {
        let i = choose|i: int| 0 <= i < more.len() && more[i] == name;
        if i < out.len() {
            assert(out[i] == name);
        }
    }
}

proof fn a_call_notes_its_changes(e: Scene, n: ir::Node, out: Seq<Seq<char>>, name: Seq<char>)
    requires
        n.head matches ir::Head::Call(d) && d < e.defs.len() && changes_its_operand(
            e.defs[d as int].name@,
        ),
        n.kids.len() > 0,
    ensures
        captures::marked_call(e, n.kids, out).contains(name) <==> out.contains(name)
            || e.names.contains(name) && changes(e.defs, e.vars, e.names, e.param, n, name),
{
    let args = n.kids;
    let first = ir::unspan(args[0]);
    match first.head {
        ir::Head::Var(v) => {
            assert(is_var(args[0], v));
            no_parts(e.defs, args[0]);
            if Some(v) == e.param && args.len() > 1 && (captures::literal(args[1]) matches Some(f)
                && 0 <= f < e.names.len()) {
                let f = captures::literal(args[1])->0;
                marking(e, e.names[f as int], out, name);
                assert(names_field(e.names, e.param, args, e.names[f as int]));
                assert(names_field(e.names, e.param, args, name) <==> e.names[f as int] == name);
            } else {
                assert forall|other: Seq<char>| !names_field(e.names, e.param, args, other) by {}
                if v < e.vars.len() {
                    marking(e, e.vars[v as int].name, out, name);
                }
            }
        },
        ir::Head::Call(_) => {
            chains_note_their_changes(e, n, out, name);
        },
        _ => {
            no_parts(e.defs, args[0]);
        },
    }
}

proof fn no_parts(defs: Seq<Definition>, n: ir::Node)
    requires
        !(ir::unspan(n).head is Call),
    ensures
        forall|hops: nat, m: ir::Node|
            #![trigger part_of(defs, n, hops, m)]
            hops > 0 ==> !part_of(defs, n, hops, m),
{
}

proof fn chains_note_their_changes(e: Scene, n: ir::Node, out: Seq<Seq<char>>, name: Seq<char>)
    requires
        n.head matches ir::Head::Call(d) && d < e.defs.len() && changes_its_operand(
            e.defs[d as int].name@,
        ),
        n.kids.len() > 0,
        ir::unspan(n.kids[0]).head is Call,
    ensures
        captures::marked_call(e, n.kids, out).contains(name) <==> out.contains(name)
            || e.names.contains(name) && changes(e.defs, e.vars, e.names, e.param, n, name),
{
    let first = n.kids[0];
    let root = captures::root_var(e.defs, first);
    let field = captures::capture_field(e.defs, first, e.param);
    let rooted = match root {
        Some(v) => captures::marked_var(e, v, out),
        None => out,
    };
    let by_root = root matches Some(v) && called(e.vars, v, name);
    let by_field = field matches Some(f) && 0 <= f < e.names.len() && e.names[f as int] == name;
    match root {
        Some(v) => {
            if v < e.vars.len() {
                marking(e, e.vars[v as int].name, out, name);
            }
        },
        None => {},
    }
    match field {
        Some(f) => {
            if 0 <= f < e.names.len() {
                marking(e, e.names[f as int], rooted, name);
            }
        },
        None => {},
    }
    assert(captures::marked_call(e, n.kids, out).contains(name) <==> out.contains(name)
        || e.names.contains(name) && (by_root || by_field));
    if by_root {
        let r = a_root_has_a_chain(e.defs, first);
        root_shape(e.defs, first, r.0, r.1);
        assert(is_var(r.1, root->0));
        assert(changes(e.defs, e.vars, e.names, e.param, n, name));
    }
    if by_field {
        let r = a_field_has_a_chain(e.defs, first, e.param);
        assert(names_field(e.names, e.param, r.1.kids, name));
        if r.0 == 0 {
            assert(r.1 == ir::unspan(first));
        }
        assert(changes(e.defs, e.vars, e.names, e.param, n, name));
    }
    if changes(e.defs, e.vars, e.names, e.param, n, name) {
        if exists|hops: nat, m: ir::Node|
            #![trigger part_of(e.defs, first, hops, m)]
            hops > 0 && part_of(e.defs, first, hops, m) && ((exists|v: u16| #[trigger]
                is_var(m, v) && called(e.vars, v, name)) || (m.head matches ir::Head::Call(g)
                && reads_a_part(e.defs, g) && names_field(e.names, e.param, m.kids, name))) {
            let (hops, m) = choose|hops: nat, m: ir::Node|
                #![trigger part_of(e.defs, first, hops, m)]
                hops > 0 && part_of(e.defs, first, hops, m) && ((exists|v: u16| #[trigger]
                    is_var(m, v) && called(e.vars, v, name)) || (m.head matches ir::Head::Call(g)
                    && reads_a_part(e.defs, g) && names_field(e.names, e.param, m.kids, name)));
            root_shape(e.defs, first, hops, m);
            if exists|v: u16| #[trigger] is_var(m, v) && called(e.vars, v, name) {
                a_chain_has_a_root(e.defs, first, hops, m);
            } else {
                a_chain_has_a_field(e.defs, first, hops, m, e.param);
            }
        } else {
            let m = ir::unspan(first);
            assert(part_of(e.defs, first, 0, m));
            a_chain_has_a_field(e.defs, first, 0, m, e.param);
        }
    }
}

/// What a chain of reads starts at is no source position.
proof fn root_shape(defs: Seq<Definition>, n: ir::Node, hops: nat, m: ir::Node)
    requires
        part_of(defs, n, hops, m),
    ensures
        ir::unspan(m) == m,
    decreases hops,
{
    if hops == 0 {
        unspanned_once(n);
    } else {
        root_shape(defs, ir::unspan(n).kids[0], (hops - 1) as nat, m);
    }
}

proof fn unspanned_once(n: ir::Node)
    ensures
        ir::unspan(ir::unspan(n)) == ir::unspan(n),
    decreases n,
{
    if n.head is Span && n.kids.len() > 0 {
        unspanned_once(n.kids[0]);
    }
}

/// What was found before stays found.
proof fn found_stays(e: Scene, n: ir::Node, out: Seq<Seq<char>>, name: Seq<char>)
    requires
        out.contains(name),
    ensures
        captures::mutations(e, n, out).contains(name),
    decreases n, 1int,
{
    if !(n.head is Parallel) {
        a_node_notes_its_changes(e, n, out, name);
        found_stays_in(e, n, n.kids.len() as int, captures::marked_here(e, n, out), name);
    }
}

proof fn found_stays_in(e: Scene, n: ir::Node, k: int, out: Seq<Seq<char>>, name: Seq<char>)
    requires
        out.contains(name),
        0 <= k <= n.kids.len(),
    ensures
        captures::mutations_in(e, n.kids, k, out).contains(name),
    decreases n, 0int, k,
{
    if k > 0 {
        found_stays_in(e, n, k - 1, out, name);
        found_stays(e, n.kids[k - 1], captures::mutations_in(e, n.kids, k - 1, out), name);
    }
}

/// A change anywhere in the code is found.
proof fn changes_are_found(
    e: Scene,
    n: ir::Node,
    q: Seq<int>,
    out: Seq<Seq<char>>,
    name: Seq<char>,
)
    requires
        runs_here(n, q),
        e.names.contains(name),
        changes(e.defs, e.vars, e.names, e.param, below(n, q)->0, name),
    ensures
        captures::mutations(e, n, out).contains(name),
    decreases q.len(),
{
    assert(q.take(0) =~= Seq::<int>::empty());
    assert(below(n, q.take(0)) == Some(n));
    assert(!(n.head is Parallel));
    let here = captures::marked_here(e, n, out);
    let s = n.kids;
    if q.len() == 0 {
        a_node_notes_its_changes(e, n, out, name);
        found_stays_in(e, n, s.len() as int, here, name);
    } else {
        let rest = q.skip(1);
        let i = q[0];
        assert forall|k: int| 0 <= k <= rest.len() implies !((#[trigger] below(
            s[i],
            rest.take(k),
        ))->0.head is Parallel) by {
            assert(q.take(k + 1).skip(1) =~= rest.take(k));
            assert(below(n, q.take(k + 1)) == below(s[i], rest.take(k)));
        }
        assert(rest.take(rest.len() as int) =~= rest);
        changes_are_found(e, s[i], rest, captures::mutations_in(e, s, i, here), name);
        found_behind(e, n, i + 1, s.len() as int, here, name);
    }
}

proof fn found_behind(
    e: Scene,
    n: ir::Node,
    i: int,
    k: int,
    out: Seq<Seq<char>>,
    name: Seq<char>,
)
    requires
        0 <= i <= k <= n.kids.len(),
        captures::mutations_in(e, n.kids, i, out).contains(name),
    ensures
        captures::mutations_in(e, n.kids, k, out).contains(name),
    decreases k,
{
    if i < k {
        found_behind(e, n, i, k - 1, out, name);
        found_stays(e, n.kids[k - 1], captures::mutations_in(e, n.kids, k - 1, out), name);
    }
}

/// What is found is changed somewhere.
proof fn what_is_found_is_changed(e: Scene, n: ir::Node, out: Seq<Seq<char>>, name: Seq<char>) -> (q:
    Seq<int>)
    requires
        captures::mutations(e, n, out).contains(name),
        !out.contains(name),
    ensures
        runs_here(n, q),
        e.names.contains(name),
        changes(e.defs, e.vars, e.names, e.param, below(n, q)->0, name),
    decreases n, 1int,
{
    let here = captures::marked_here(e, n, out);
    a_node_notes_its_changes(e, n, out, name);
    let none = Seq::<int>::empty();
    if here.contains(name) {
        assert forall|k: int| 0 <= k <= none.len() implies !((#[trigger] below(
            n,
            none.take(k),
        ))->0.head is Parallel) by {
            assert(none.take(k) =~= none);
        }
        none
    } else {
        let (i, rest) = what_is_found_is_changed_in(e, n, n.kids.len() as int, here, name);
        let q = seq![i] + rest;
        assert(q.skip(1) =~= rest);
        assert(below(n, q) == below(n.kids[i], rest));
        assert forall|k: int| 0 <= k <= q.len() implies !((#[trigger] below(
            n,
            q.take(k),
        ))->0.head is Parallel) by {
            if k == 0 {
                assert(q.take(0) =~= none);
            } else {
                assert(q.take(k).skip(1) =~= rest.take(k - 1));
                assert(below(n, q.take(k)) == below(n.kids[i], rest.take(k - 1)));
            }
        }
        q
    }
}

proof fn what_is_found_is_changed_in(
    e: Scene,
    n: ir::Node,
    k: int,
    out: Seq<Seq<char>>,
    name: Seq<char>,
) -> (r: (int, Seq<int>))
    requires
        0 <= k <= n.kids.len(),
        captures::mutations_in(e, n.kids, k, out).contains(name),
        !out.contains(name),
    ensures
        0 <= r.0 < k,
        runs_here(n.kids[r.0], r.1),
        e.names.contains(name),
        changes(e.defs, e.vars, e.names, e.param, below(n.kids[r.0], r.1)->0, name),
    decreases n, 0int, k,
{
    let before = captures::mutations_in(e, n.kids, k - 1, out);
    if before.contains(name) {
        what_is_found_is_changed_in(e, n, k - 1, out, name)
    } else {
        let q = what_is_found_is_changed(e, n.kids[k - 1], before, name);
        (k - 1, q)
    }
}

/// Whether `name` is one that lambda `lambda` captures: a field of its closure record, or,
/// before there is one, a variable of its own that is neither a parameter nor the
/// compiler's.
pub open spec fn captures_name(defs: Seq<Definition>, lambda: int, name: Seq<char>) -> bool {
    let def = defs[lambda];
    if def.closure_record < defs.len() {
        exists|i: int|
            0 <= i < defs[def.closure_record as int].attributes.len() && (
            #[trigger] defs[def.closure_record as int].attributes@[i]).name@ == name
    } else {
        exists|v: int|
            0 <= v < def.variables@.vars.len() && (#[trigger] def.variables@.vars[v]).name == name
                && !def.variables@.vars[v].argument && name != "__closure"@ && !text::is_prefix(
                "__work"@,
                name,
            )
    }
}

proof fn placeholders_are_listed(vars: Seq<data::VarView>, k: int, name: Seq<char>)
    requires
        0 <= k <= vars.len(),
    ensures
        captures::placeholder_names(vars, k).contains(name) <==> exists|v: int|
            0 <= v < k && (#[trigger] vars[v]).name == name && !vars[v].argument && name
                != "__closure"@ && !text::is_prefix("__work"@, name),
    decreases k,
{
    if k > 0 {
        placeholders_are_listed(vars, k - 1, name);
        let before = captures::placeholder_names(vars, k - 1);
        let v = vars[k - 1];
        let more = before.push(v.name);
        if before.contains(name) {
            let i = choose|i: int| 0 <= i < before.len() && before[i] == name;
            assert(more[i] == name);
        }
        assert(more[before.len() as int] == v.name);
        if more.contains(name) && !before.contains(name) {
            let i = choose|i: int| 0 <= i < more.len() && more[i] == name;
            assert(i == before.len());
        }
    }
}

proof fn captured_names_are_listed(defs: Seq<Definition>, lambda: int, name: Seq<char>)
    requires
        defs.len() <= u32::MAX,
    ensures
        captures::captured(defs, lambda).contains(name) <==> captures_name(defs, lambda, name),
{
    let def = defs[lambda];
    if def.closure_record < defs.len() {
        let attrs = defs[def.closure_record as int].attributes@;
        let names = captures::attr_names(attrs);
        if names.contains(name) {
            let i = choose|i: int| 0 <= i < names.len() && names[i] == name;
            assert(attrs[i].name@ == name);
        }
        if captures_name(defs, lambda, name) {
            let i = choose|i: int| 0 <= i < attrs.len() && (#[trigger] attrs[i]).name@ == name;
            assert(names[i] == name);
        }
    } else {
        let vars = def.variables@.vars;
        placeholders_are_listed(vars, vars.len() as int, name);
    }
}

/// Whether `param` is the closure parameter among the variables of a lambda: the first one
/// that has its name.
pub open spec fn is_closure_parameter(vars: Seq<data::VarView>, param: Option<u16>) -> bool {
    match param {
        Some(p) => called(vars, p, "__closure"@) && forall|v: u16|
            v < p ==> !#[trigger] called(vars, v, "__closure"@),
        None => forall|v: u16| !#[trigger] called(vars, v, "__closure"@),
    }
}

proof fn the_parameter_is_found(vars: Seq<data::VarView>, param: Option<u16>, from: int)
    requires
        is_closure_parameter(vars, param),
        0 <= from <= vars.len() <= u16::MAX,
        forall|v: u16| v < from ==> !#[trigger] called(vars, v, "__closure"@),
    ensures
        captures::first_named(vars, "__closure"@, from) == param,
    decreases vars.len() - from,
{
    if from < vars.len() {
        let v = from as u16;
        if vars[from].name == "__closure"@ {
            assert(called(vars, v, "__closure"@));
        } else {
            assert(!called(vars, v, "__closure"@));
            the_parameter_is_found(vars, param, from + 1);
        }
    } else {
        match param {
            Some(p) => {
                assert(called(vars, p, "__closure"@));
            },
            None => {},
        }
    }
}

/// A lambda is noted to write exactly those of its captures that its code changes
/// somewhere, however deep, other than in a parallel block.
pub proof fn a_capture_is_written_where_it_is_changed(
    defs: Seq<Definition>,
    lambda: int,
    param: Option<u16>,
    name: Seq<char>,
)
    requires
        0 <= lambda < defs.len() <= u32::MAX,
        defs[lambda].variables@.vars.len() <= u16::MAX,
        is_closure_parameter(defs[lambda].variables@.vars, param),
    ensures
        captures::mutated(defs, lambda).contains(name) <==> captures_name(defs, lambda, name)
            && exists|q: Seq<int>|
            #![trigger runs_here(defs[lambda].code@, q)]
            runs_here(defs[lambda].code@, q) && changes(
                defs,
                defs[lambda].variables@.vars,
                captures::captured(defs, lambda),
                param,
                below(defs[lambda].code@, q)->0,
                name,
            ),
        defs[lambda].closure_record < defs.len() ==> {
            let fields = defs[defs[lambda].closure_record as int].attributes@;
            captures::captured(defs, lambda).len() == fields.len() && forall|i: int|
                0 <= i < fields.len() ==> #[trigger] captures::captured(defs, lambda)[i]
                    == fields[i].name@
        },
{
    let e = captures::scene_of(defs, lambda);
    let code = defs[lambda].code@;
    the_parameter_is_found(e.vars, param, 0);
    captured_names_are_listed(defs, lambda, name);
    let none = Seq::<Seq<char>>::empty();
    if captures::mutated(defs, lambda).contains(name) {
        let q = what_is_found_is_changed(e, code, none, name);
        assert(runs_here(code, q));
    }
    if captures_name(defs, lambda, name) && exists|q: Seq<int>|
        #![trigger runs_here(code, q)]
        runs_here(code, q) && changes(
            defs,
            e.vars,
            e.names,
            param,
            below(code, q)->0,
            name,
        ) {
        let q = choose|q: Seq<int>|
            #![trigger runs_here(code, q)]
            runs_here(code, q) && changes(defs, e.vars, e.names, param, below(code, q)->0, name);
        changes_are_found(e, code, q, none, name);
    }
}

/// Whether definition `d` owns the variable `name`: the first owner that is listed for it,
/// or `parent` where none is.
pub open spec fn owns(owners: Seq<Owner>, parent: u32, name: Seq<char>, d: u32) -> bool {
    ||| exists|i: int|
        0 <= i < owners.len() && (#[trigger] owners[i]).name@ == name && owners[i].def == d
            && forall|j: int| 0 <= j < i ==> (#[trigger] owners[j]).name@ != name
    ||| d == parent && forall|j: int| 0 <= j < owners.len() ==> (#[trigger] owners[j]).name@ != name
}

/// Whether `name` is captured with a type that is boxed: text, or a scalar, be it absent
/// or not.
pub open spec fn is_captured_scalar(
    captured: Seq<(Seq<char>, types::Ty)>,
    name: Seq<char>,
) -> bool {
    exists|i: int|
        0 <= i < captured.len() && (#[trigger] captured[i]).0 == name && (forall|j: int|
            0 <= j < i ==> (#[trigger] captured[j]).0 != name) && {
            let t = types::base(captured[i].1);
            t is Integer || t is Float || t is Single || t is Boolean || t is Character || t is Text
                || (t matches types::Ty::Enum(_, fields, _) && !fields)
        }
}

proof fn the_owner_is_found(owners: Seq<Owner>, name: Seq<char>, from: int, parent: u32)
    requires
        0 <= from <= owners.len(),
        forall|j: int| 0 <= j < from ==> (#[trigger] owners[j]).name@ != name,
    ensures
        owns(owners, parent, name, captures::owner_from(owners, name, from, parent)),
    decreases owners.len() - from,
{
    if from < owners.len() && owners[from].name@ != name {
        the_owner_is_found(owners, name, from + 1, parent);
    }
}

proof fn one_owner(owners: Seq<Owner>, parent: u32, name: Seq<char>, a: u32, b: u32)
    requires
        owns(owners, parent, name, a),
        owns(owners, parent, name, b),
    ensures
        a == b,
{
}

proof fn the_capture_is_found(captured: Seq<(Seq<char>, types::Ty)>, name: Seq<char>, from: int)
    requires
        0 <= from <= captured.len(),
        forall|j: int| 0 <= j < from ==> (#[trigger] captured[j]).0 != name,
    ensures
        is_captured_scalar(captured, name) <==> (captures::capture_type(
            captured,
            name,
            from,
        ) matches Some(t) && captures::boxable(t)),
    decreases captured.len() - from,
{
    if from < captured.len() {
        if captured[from].0 == name {
            if is_captured_scalar(captured, name) {
                let i = choose|i: int|
                    0 <= i < captured.len() && (#[trigger] captured[i]).0 == name && (forall|
                        j: int,
                    | 0 <= j < i ==> (#[trigger] captured[j]).0 != name);
                assert(i == from);
            }
        } else {
            the_capture_is_found(captured, name, from + 1);
        }
    }
}

/// A definition boxes, beside what it boxed before, exactly the scalars among the names
/// that a closure writes that it owns.
pub proof fn a_written_scalar_is_boxed_by_its_owner(
    all: Seq<Seq<Seq<char>>>,
    names: Seq<Seq<char>>,
    captured: Seq<(Seq<char>, types::Ty)>,
    owners: Seq<Owner>,
    parent: u32,
    k: int,
    d: u32,
    name: Seq<char>,
)
    requires
        0 <= k <= names.len(),
        d < all.len(),
    ensures
        captures::queued_all(all, names, captured, owners, parent, k).len() == all.len(),
        captures::queued_all(all, names, captured, owners, parent, k)[d as int].contains(name)
            <==> all[d as int].contains(name) || names.take(k).contains(name)
            && is_captured_scalar(captured, name) && owns(owners, parent, name, d),
    decreases k,
{
    if k > 0 {
        a_written_scalar_is_boxed_by_its_owner(
            all,
            names,
            captured,
            owners,
            parent,
            k - 1,
            d,
            name,
        );
        let before = captures::queued_all(all, names, captured, owners, parent, k - 1);
        let now = captures::queued_all(all, names, captured, owners, parent, k);
        let new = names[k - 1];
        let owner = captures::owner_from(owners, new, 0, parent);
        the_owner_is_found(owners, new, 0, parent);
        the_capture_is_found(captured, new, 0);
        assert(names.take(k) =~= names.take(k - 1).push(new));
        pushing(names.take(k - 1), new, name);
        if owner < before.len() {
            pushing(before[owner as int], new, name);
        }
        if owns(owners, parent, new, d) {
            one_owner(owners, parent, new, d, owner);
        }
    } else {
        assert(names.take(0) =~= Seq::<Seq<char>>::empty());
    }
}

proof fn pushing(s: Seq<Seq<char>>, new: Seq<char>, name: Seq<char>)
    ensures
        s.push(new).contains(name) <==> s.contains(name) || new == name,
{
    let more = s.push(new);
    if s.contains(name) {
        let i = choose|i: int| 0 <= i < s.len() && s[i] == name;
        assert(more[i] == name);
    }
    assert(more[s.len() as int] == new);
    if more.contains(name) {
        let i = choose|i: int| 0 <= i < more.len() && more[i] == name;
        if i < s.len() {
            assert(s[i] == name);
        }
    }
}

} // verus!
