//! What the places that expressions name are.

use crate::data::{self, Definition};
use crate::ir;
use crate::places::{self, PlaceStep};
use crate::vector_store;
use vstd::prelude::*;

verus! {

/// How places are reached, whatever they are: from a variable, and from another place by a
/// field, by the number of an element, and by a share; the number that a variable holds; and
/// what any other expression comes to.
#[verifier::reject_recursive_types(P)]
pub struct Memory<P> {
    pub variable: spec_fn(u16) -> P,
    pub field: spec_fn(P, i32) -> P,
    pub element: spec_fn(P, int) -> P,
    pub share: spec_fn(P, i32) -> P,
    pub number: spec_fn(u16) -> int,
    pub other: spec_fn(ir::Node) -> P,
}

/// Whether a definition is called `name`.
pub open spec fn is_called(defs: Seq<Definition>, d: u32, name: Seq<char>) -> bool {
    d < defs.len() && defs[d as int].name@ == name
}

/// What an expression comes to, step by step.
pub open spec fn denotes<P>(m: Memory<P>, defs: Seq<Definition>, n: ir::Node) -> P
    decreases n,
{
    match n.head {
        ir::Head::Span(_) => if n.kids.len() > 0 {
            denotes(m, defs, n.kids[0])
        } else {
            (m.other)(n)
        },
        ir::Head::Var(x) => (m.variable)(x),
        ir::Head::Call(d) => if n.kids.len() < 2 {
            (m.other)(n)
        } else if is_called(defs, d, "OpGetField"@) {
            match ir::unspan(n.kids[1]).head {
                ir::Head::Int(off) => (m.field)(denotes(m, defs, n.kids[0]), off),
                _ => (m.other)(n),
            }
        } else if is_called(defs, d, "OpGetDbRef"@) {
            match ir::unspan(n.kids[1]).head {
                ir::Head::Int(off) => (m.share)(denotes(m, defs, n.kids[0]), off),
                _ => (m.other)(n),
            }
        } else {
            let index = if is_called(defs, d, "OpVectorRef"@) || is_called(
                defs,
                d,
                "OpVectorRefNullable"@,
            ) {
                Some(n.kids[1])
            } else if (is_called(defs, d, "OpGetVector"@) || is_called(
                defs,
                d,
                "OpGetVectorNullable"@,
            )) && n.kids.len() > 2 {
                Some(n.kids[2])
            } else {
                None
            };
            match index {
                Some(i) => match ir::unspan(i).head {
                    ir::Head::Int(at) => (m.element)(denotes(m, defs, n.kids[0]), at as int),
                    ir::Head::Var(x) => (m.element)(denotes(m, defs, n.kids[0]), (m.number)(x)),
                    _ => (m.other)(n),
                },
                None => (m.other)(n),
            }
        },
        _ => (m.other)(n),
    }
}

/// The place that steps lead to.
pub open spec fn reached<P>(m: Memory<P>, root: u16, path: Seq<PlaceStep>) -> P
    decreases path.len(),
{
    if path.len() == 0 {
        (m.variable)(root)
    } else {
        let from = reached(m, root, path.drop_last());
        match path.last() {
            PlaceStep::Field(off) => (m.field)(from, off),
            PlaceStep::ElemConst(i) => (m.element)(from, i as int),
            PlaceStep::ElemVar(x) => (m.element)(from, (m.number)(x)),
            PlaceStep::Capture(off) => (m.share)(from, off),
        }
    }
}

proof fn names_differ()
    ensures
        "OpGetField"@ != "OpGetDbRef"@,
        "OpGetField"@ != "OpVectorRef"@,
        "OpGetField"@ != "OpVectorRefNullable"@,
        "OpGetField"@ != "OpGetVector"@,
        "OpGetField"@ != "OpGetVectorNullable"@,
        "OpGetDbRef"@ != "OpVectorRef"@,
        "OpGetDbRef"@ != "OpVectorRefNullable"@,
        "OpGetDbRef"@ != "OpGetVector"@,
        "OpGetDbRef"@ != "OpGetVectorNullable"@,
        "OpVectorRef"@ != "OpGetVector"@,
        "OpVectorRef"@ != "OpGetVectorNullable"@,
        "OpVectorRefNullable"@ != "OpGetVector"@,
        "OpVectorRefNullable"@ != "OpGetVectorNullable"@,
{
    reveal_strlit("OpGetField");
    reveal_strlit("OpGetDbRef");
    reveal_strlit("OpVectorRef");
    reveal_strlit("OpVectorRefNullable");
    reveal_strlit("OpGetVector");
    reveal_strlit("OpGetVectorNullable");
    assert("OpGetField"@.len() == 10 && "OpGetField"@[5] == 'F');
    assert("OpGetDbRef"@.len() == 10 && "OpGetDbRef"@[5] == 'D');
    assert("OpVectorRef"@.len() == 11 && "OpVectorRef"@[2] == 'V');
    assert("OpVectorRefNullable"@.len() == 19 && "OpVectorRefNullable"@[2] == 'V');
    assert("OpGetVector"@.len() == 11 && "OpGetVector"@[2] == 'G');
    assert("OpGetVectorNullable"@.len() == 19 && "OpGetVectorNullable"@[2] == 'G');
}

/// The place that an expression is found to name is the one that it comes to, so that two
/// expressions that name the same place do come to the same.
pub proof fn an_expression_comes_to_its_place<P>(
    m: Memory<P>,
    defs: Seq<Definition>,
    n: ir::Node,
    root: u16,
    path: Seq<PlaceStep>,
)
    requires
        defs.len() <= u32::MAX,
        vector_store::op(defs, "OpGetField"@) != u32::MAX,
        places::place_of(defs, n) == Some((root, path)),
    ensures
        denotes(m, defs, n) == reached(m, root, path),
    decreases n,
{
    data::found_definition(defs, "OpGetField"@, 0);
    names_differ();
    if n.head is Span && n.kids.len() > 0 {
        an_expression_comes_to_its_place(m, defs, n.kids[0], root, path);
    } else {
        match n.head {
            ir::Head::Call(d) => {
                let from = places::place_of(defs, n.kids[0])->0;
                an_expression_comes_to_its_place(m, defs, n.kids[0], from.0, from.1);
                assert(path.drop_last() =~= from.1);
                reveal_strlit("");
                reveal_strlit("OpGetVector");
                reveal_strlit("OpGetVectorNullable");
                reveal_strlit("OpVectorRef");
                reveal_strlit("OpVectorRefNullable");
                reveal_strlit("OpGetDbRef");
                assert(""@.len() == 0);
                assert(d < defs.len());
            },
            _ => {},
        }
    }
}

/// Whether the steps name variable `src` nowhere.
pub open spec fn goes_without(path: Seq<PlaceStep>, src: u16) -> bool {
    forall|i: int| 0 <= i < path.len() ==> #[trigger] path[i] != PlaceStep::ElemVar(src)
}

/// A place that code with a copy in its stead names at its top is named by the code.
proof fn named_before(
    defs: Seq<Definition>,
    n: ir::Node,
    root: u16,
    path: Seq<PlaceStep>,
    src: u16,
    q: Seq<PlaceStep>,
)
    requires
        path.len() > 0,
        src != root,
        goes_without(q, src),
        places::place_of(defs, places::with_place(defs, n, root, path, src)) == Some((root, q)),
    ensures
        places::place_of(defs, n) == Some((root, q)),
    decreases n,
{
    let m = places::with_place(defs, n, root, path, src);
    if !places::names_place(defs, root, path)(n) {
        let kids = places::with_place_all(defs, n.kids, root, path, src);
        assert(m.kids == kids);
        assert forall|i: int| 0 <= i < n.kids.len() implies #[trigger] kids[i]
            == places::with_place(defs, n.kids[i], root, path, src) by {}
        if n.head is Span && n.kids.len() > 0 {
            named_before(defs, n.kids[0], root, path, src, q);
        } else {
            match n.head {
                ir::Head::Call(d) => {
                    let rest = q.drop_last();
                    let from = places::place_of(defs, kids[0])->0;
                    assert(q =~= from.1.push(q.last()));
                    assert(rest =~= from.1);
                    assert forall|i: int| 0 <= i < rest.len() implies #[trigger] rest[i]
                        != PlaceStep::ElemVar(src) by {
                        assert(rest[i] == q[i]);
                    }
                    named_before(defs, n.kids[0], root, path, src, rest);
                    assert(q[q.len() - 1] == q.last());
                    assert forall|i: int| 0 <= i < n.kids.len() implies (ir::unspan(
                        #[trigger] kids[i],
                    ).head == ir::unspan(n.kids[i]).head || ir::unspan(kids[i]).head
                        == ir::Head::Var(src)) by {
                        operands_are_alike(defs, n.kids[i], root, path, src);
                    }
                },
                _ => {},
            }
        }
    } else {
        assert(places::place_of(defs, ir::var(src)) == Some((src, Seq::<PlaceStep>::empty())));
    }
}

proof fn operands_are_alike(
    defs: Seq<Definition>,
    n: ir::Node,
    root: u16,
    path: Seq<PlaceStep>,
    src: u16,
)
    ensures
        ({
            let m = places::with_place(defs, n, root, path, src);
            ir::unspan(m).head == ir::unspan(n).head || ir::unspan(m).head == ir::Head::Var(src)
        }),
    decreases n,
{
    let m = places::with_place(defs, n, root, path, src);
    if !places::names_place(defs, root, path)(n) && n.head is Span && n.kids.len() > 0 {
        operands_are_alike(defs, n.kids[0], root, path, src);
        assert(m.kids[0] == places::with_place(defs, n.kids[0], root, path, src));
    }
}

/// Where a literal is built in a field or an element, its parts read the copy of what that
/// held: none of them names the place any more.
pub proof fn a_copied_place_is_not_named(
    defs: Seq<Definition>,
    n: ir::Node,
    dest: ir::Node,
    v: u16,
    linked: Seq<u16>,
    src: u16,
    root: u16,
    path: Seq<PlaceStep>,
)
    requires
        places::place_of(defs, dest) == Some((root, path)),
        !(ir::unspan(dest).head is Var),
        src != root,
        goes_without(path, src),
    ensures
        !ir::any(
            places::redirected(defs, n, dest, v, linked, src),
            places::names_place(defs, root, path),
        ),
{
    a_place_has_steps(defs, dest);
    no_place_is_left(defs, n, root, path, src);
}

proof fn a_place_has_steps(defs: Seq<Definition>, n: ir::Node)
    ensures
        places::place_of(defs, n) is Some && !(ir::unspan(n).head is Var) ==> (places::place_of(
            defs,
            n,
        )->0).1.len() > 0,
    decreases n,
{
    if n.head is Span && n.kids.len() > 0 {
        a_place_has_steps(defs, n.kids[0]);
    }
}

proof fn no_place_is_left(
    defs: Seq<Definition>,
    n: ir::Node,
    root: u16,
    path: Seq<PlaceStep>,
    src: u16,
)
    requires
        path.len() > 0,
        src != root,
        goes_without(path, src),
    ensures
        !ir::any(
            places::with_place(defs, n, root, path, src),
            places::names_place(defs, root, path),
        ),
    decreases n, 1int,
{
    let m = places::with_place(defs, n, root, path, src);
    let p = places::names_place(defs, root, path);
    if p(n) {
        assert(places::place_of(defs, m) == Some((src, Seq::<PlaceStep>::empty())));
        assert(m.kids.len() == 0);
        assert(!ir::any_in(m.kids, p));
    } else {
        if p(m) {
            named_before(defs, n, root, path, src, path);
        }
        no_place_is_left_in(defs, n, root, path, src, n.kids.len() as int);
        assert(m.kids.take(n.kids.len() as int) =~= m.kids);
    }
}

proof fn no_place_is_left_in(
    defs: Seq<Definition>,
    n: ir::Node,
    root: u16,
    path: Seq<PlaceStep>,
    src: u16,
    k: int,
)
    requires
        path.len() > 0,
        src != root,
        goes_without(path, src),
        0 <= k <= n.kids.len(),
    ensures
        !ir::any_in(
            places::with_place_all(defs, n.kids, root, path, src).take(k),
            places::names_place(defs, root, path),
        ),
    decreases n, 0int, k,
{
    let kids = places::with_place_all(defs, n.kids, root, path, src);
    if k > 0 {
        no_place_is_left_in(defs, n, root, path, src, k - 1);
        no_place_is_left(defs, n.kids[k - 1], root, path, src);
        assert(kids[k - 1] == places::with_place(defs, n.kids[k - 1], root, path, src));
        ir::any_step(kids, places::names_place(defs, root, path), k - 1);
    } else {
        assert(kids.take(0).len() == 0);
    }
}

} // verus!
