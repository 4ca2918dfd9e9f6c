//! What the code of operators comes to when it runs.

use crate::data::{self, Definition};
use crate::ir;
use crate::operators::{self, OperandView};
use crate::text;
use crate::types;
use crate::vector_store;
use vstd::prelude::*;

verus! {

/// The truth of an expression, `None` where it is absent.  `meaning` tells that of all that
/// is no choice, no literal and no comparison with true; `same` is that comparison.
pub open spec fn truth(
    meaning: spec_fn(ir::Node) -> Option<bool>,
    same: u32,
    n: ir::Node,
) -> Option<bool>
    decreases n,
{
    match n.head {
        ir::Head::Boolean(b) => Some(b),
        ir::Head::If => if n.kids.len() != 3 {
            meaning(n)
        } else if truth(meaning, same, n.kids[0]) == Some(true) {
            truth(meaning, same, n.kids[1])
        } else {
            truth(meaning, same, n.kids[2])
        },
        ir::Head::Call(d) => if d == same && n.kids.len() == 2 && n.kids[1].head
            == ir::Head::Boolean(true) {
            Some(truth(meaning, same, n.kids[0]) == Some(true))
        } else {
            meaning(n)
        },
        _ => meaning(n),
    }
}

/// The operands that finding out the truth of an expression evaluates, in order.
pub open spec fn evaluated(
    meaning: spec_fn(ir::Node) -> Option<bool>,
    same: u32,
    n: ir::Node,
) -> Seq<ir::Node>
    decreases n,
{
    match n.head {
        ir::Head::Boolean(_) => Seq::empty(),
        ir::Head::If => if n.kids.len() != 3 {
            seq![n]
        } else if truth(meaning, same, n.kids[0]) == Some(true) {
            evaluated(meaning, same, n.kids[0]) + evaluated(meaning, same, n.kids[1])
        } else {
            evaluated(meaning, same, n.kids[0]) + evaluated(meaning, same, n.kids[2])
        },
        ir::Head::Call(d) => if d == same && n.kids.len() == 2 && n.kids[1].head
            == ir::Head::Boolean(true) {
            evaluated(meaning, same, n.kids[0])
        } else {
            seq![n]
        },
        _ => seq![n],
    }
}

/// `a && b` holds where both hold, and `a || b` where one does; an absent operand does not
/// hold, and the answer is never absent.  The second operand is evaluated exactly where the
/// first does not decide, and behind it.
pub proof fn operators_decide_as_they_read(
    defs: Seq<Definition>,
    first: ir::Node,
    second: ir::Node,
    t: types::Ty,
    is_or: bool,
    meaning: spec_fn(ir::Node) -> Option<bool>,
)
    requires
        !(t is Null) && !(t is Optional) ==> truth(
            meaning,
            vector_store::op(defs, "OpEqBool"@),
            second,
        ) is Some,
        t matches types::Ty::Optional(inner) ==> *inner is Boolean,
    ensures
        ({
            let same = vector_store::op(defs, "OpEqBool"@);
            let code = operators::decided(defs, first, second, t, is_or);
            let a = truth(meaning, same, first) == Some(true);
            let b = truth(meaning, same, second) == Some(true);
            &&& truth(meaning, same, code) == Some(
                if is_or {
                    a || b
                } else {
                    a && b
                },
            )
            &&& evaluated(meaning, same, code) == if a == is_or {
                evaluated(meaning, same, first)
            } else {
                evaluated(meaning, same, first) + evaluated(meaning, same, second)
            }
        }),
{
    let same = vector_store::op(defs, "OpEqBool"@);
    let code = operators::decided(defs, first, second, t, is_or);
    let other = operators::second_truth(defs, second, t);
    let yes = ir::leaf(ir::Head::Boolean(true));
    let no = ir::leaf(ir::Head::Boolean(false));
    assert(truth(meaning, same, yes) == Some(true));
    assert(truth(meaning, same, no) == Some(false));
    assert(evaluated(meaning, same, yes) =~= Seq::<ir::Node>::empty());
    assert(evaluated(meaning, same, no) =~= Seq::<ir::Node>::empty());
    assert(code.kids[0] == first);
    if operators::open_truth(t) {
        assert(other.kids[0] == second);
        assert(other.kids[1] == yes);
    }
    assert(truth(meaning, same, other) == Some(truth(meaning, same, second) == Some(true)));
    assert(evaluated(meaning, same, other) == evaluated(meaning, same, second));
    assert(evaluated(meaning, same, first) + Seq::<ir::Node>::empty() =~= evaluated(
        meaning,
        same,
        first,
    ));
}

/// What variable `v` is made of once the first `k` statements have run, where it was made
/// of `old`: a clearing leaves nothing, an assignment the value, and an appending adds it.
/// Statements that do none of these add themselves.
pub open spec fn made_of(
    defs: Seq<Definition>,
    v: u16,
    old: Seq<ir::Node>,
    s: Seq<ir::Node>,
    k: int,
) -> Seq<ir::Node>
    decreases k,
{
    if k <= 0 || k > s.len() {
        old
    } else {
        let before = made_of(defs, v, old, s, k - 1);
        let n = s[k - 1];
        match n.head {
            ir::Head::Assign(x) => if x == v && n.kids.len() == 1 {
                seq![n.kids[0]]
            } else {
                before.push(n)
            },
            ir::Head::Call(d) => if n.kids.len() > 0 && n.kids[0] == ir::var(v) && d < defs.len() {
                if text::is_prefix("OpClear"@, defs[d as int].name@) {
                    Seq::empty()
                } else if text::is_prefix("OpAppend"@, defs[d as int].name@) && n.kids.len() > 1 {
                    before.push(n.kids[1])
                } else {
                    before.push(n)
                }
            } else {
                before.push(n)
            },
            _ => before.push(n),
        }
    }
}

/// The operators that texts and vectors are put together with are there.
pub open spec fn has_appending_operators(defs: Seq<Definition>) -> bool {
    &&& defs.len() <= u32::MAX
    &&& vector_store::op(defs, "OpAppendText"@) != u32::MAX
    &&& vector_store::op(defs, "OpAppendStackText"@) != u32::MAX
    &&& vector_store::op(defs, "OpAppendCharacter"@) != u32::MAX
    &&& vector_store::op(defs, "OpAppendStackCharacter"@) != u32::MAX
    &&& vector_store::op(defs, "OpClearText"@) != u32::MAX
    &&& vector_store::op(defs, "OpClearStackText"@) != u32::MAX
    &&& vector_store::op(defs, "OpAppendVector"@) != u32::MAX
}

/// Whether a value of a type is one that is added to a text as it is: a text or a character,
/// or a `&` parameter that is one.
pub open spec fn is_texty(t: types::Ty) -> bool {
    t is Text || t is Character || (t matches types::Ty::RefVar(inner) && (*inner is Text
        || *inner is Character))
}

/// What a text is made of with the first `k` operands behind it, in their order: the values
/// of texts and characters, and what formats the others.
pub open spec fn with_operands(
    defs: Seq<Definition>,
    v: u16,
    old: Seq<ir::Node>,
    parts: Seq<OperandView>,
    k: int,
) -> Seq<ir::Node>
    decreases k,
{
    if k <= 0 {
        old
    } else {
        let before = with_operands(defs, v, old, parts, k - 1);
        let part = parts[k - 1];
        if is_texty(part.tp) {
            before.push(part.value)
        } else {
            made_of(defs, v, before, part.formatted, part.formatted.len() as int)
        }
    }
}

proof fn made_of_both(
    defs: Seq<Definition>,
    v: u16,
    old: Seq<ir::Node>,
    a: Seq<ir::Node>,
    b: Seq<ir::Node>,
    k: int,
)
    requires
        0 <= k <= b.len(),
    ensures
        made_of(defs, v, old, a + b, a.len() + k) == made_of(
            defs,
            v,
            made_of(defs, v, old, a, a.len() as int),
            b,
            k,
        ),
    decreases k,
{
    if k > 0 {
        made_of_both(defs, v, old, a, b, k - 1);
        assert((a + b)[a.len() + k - 1] == b[k - 1]);
    } else {
        made_of_front(defs, v, old, a, b, a.len() as int);
    }
}

proof fn made_of_front(
    defs: Seq<Definition>,
    v: u16,
    old: Seq<ir::Node>,
    a: Seq<ir::Node>,
    b: Seq<ir::Node>,
    k: int,
)
    requires
        0 <= k <= a.len(),
    ensures
        made_of(defs, v, old, a + b, k) == made_of(defs, v, old, a, k),
    decreases k,
{
    if k > 0 {
        made_of_front(defs, v, old, a, b, k - 1);
        assert((a + b)[k - 1] == a[k - 1]);
    }
}

proof fn an_append_adds(
    defs: Seq<Definition>,
    v: u16,
    old: Seq<ir::Node>,
    d: u32,
    rest: Seq<ir::Node>,
)
    requires
        d < defs.len(),
        text::is_prefix("OpAppend"@, defs[d as int].name@),
        rest.len() > 0,
    ensures
        made_of(defs, v, old, seq![ir::call(d, seq![ir::var(v)] + rest)], 1) == old.push(rest[0]),
{
    let n = ir::call(d, seq![ir::var(v)] + rest);
    let s = seq![n];
    assert(n.kids[0] == ir::var(v));
    assert(n.kids[1] == rest[0]);
    assert(made_of(defs, v, old, s, 0) == old);
    let name = defs[d as int].name@;
    reveal_strlit("OpClear");
    reveal_strlit("OpAppend");
    if text::is_prefix("OpClear"@, name) {
        assert(name.take(7)[2] == "OpClear"@[2]);
        assert(name.take(8)[2] == "OpAppend"@[2]);
    }
}

proof fn a_clearing_leaves_nothing(defs: Seq<Definition>, v: u16, old: Seq<ir::Node>, d: u32)
    requires
        d < defs.len(),
        text::is_prefix("OpClear"@, defs[d as int].name@),
    ensures
        made_of(defs, v, old, seq![ir::call(d, seq![ir::var(v)])], 1) == Seq::<ir::Node>::empty(),
{
    let n = ir::call(d, seq![ir::var(v)]);
    let s = seq![n];
    assert(n.kids[0] == ir::var(v));
    assert(made_of(defs, v, old, s, 0) == old);
}

proof fn operators_are_named(defs: Seq<Definition>)
    requires
        has_appending_operators(defs),
    ensures
        forall|by_ref: bool| #[trigger]
            text_named(defs, by_ref),
{
    assert forall|by_ref: bool| #[trigger] text_named(defs, by_ref) by {
        data::found_definition(defs, operators::text_op(by_ref), 0);
        data::found_definition(defs, operators::character_op(by_ref), 0);
        data::found_definition(defs, "OpAppendVector"@, 0);
        data::found_definition(defs, "OpClearText"@, 0);
        data::found_definition(defs, "OpClearStackText"@, 0);
        data::found_definition(defs, "OpAppendStackText"@, 0);
        data::found_definition(defs, "OpAppendText"@, 0);
        data::found_definition(defs, "OpAppendCharacter"@, 0);
        reveal_strlit("OpAppend");
        reveal_strlit("OpAppendText");
        reveal_strlit("OpAppendStackText");
        reveal_strlit("OpAppendCharacter");
        reveal_strlit("OpAppendStackCharacter");
        reveal_strlit("OpAppendVector");
        reveal_strlit("OpClear");
        reveal_strlit("OpClearText");
        reveal_strlit("OpClearStackText");
        assert("OpAppendText"@.take(8) =~= "OpAppend"@);
        assert("OpAppendStackText"@.take(8) =~= "OpAppend"@);
        assert("OpAppendCharacter"@.take(8) =~= "OpAppend"@);
        assert("OpAppendStackCharacter"@.take(8) =~= "OpAppend"@);
        assert("OpAppendVector"@.take(8) =~= "OpAppend"@);
        assert("OpClearText"@.take(7) =~= "OpClear"@);
        assert("OpClearStackText"@.take(7) =~= "OpClear"@);
    }
}

spec fn begins(defs: Seq<Definition>, name: Seq<char>, prefix: Seq<char>) -> bool {
    vector_store::op(defs, name) < defs.len() && text::is_prefix(
        prefix,
        defs[vector_store::op(defs, name) as int].name@,
    )
}

spec fn text_named(defs: Seq<Definition>, by_ref: bool) -> bool {
    &&& begins(defs, operators::text_op(by_ref), "OpAppend"@)
    &&& begins(defs, operators::character_op(by_ref), "OpAppend"@)
    &&& begins(defs, "OpAppendVector"@, "OpAppend"@)
    &&& begins(defs, "OpAppendText"@, "OpAppend"@)
    &&& begins(defs, "OpAppendStackText"@, "OpAppend"@)
    &&& begins(defs, "OpAppendCharacter"@, "OpAppend"@)
    &&& begins(defs, "OpClearText"@, "OpClear"@)
    &&& begins(defs, "OpClearStackText"@, "OpClear"@)
}

proof fn texts_add_their_operands(
    defs: Seq<Definition>,
    v: u16,
    by_ref: bool,
    old: Seq<ir::Node>,
    parts: Seq<OperandView>,
    k: int,
)
    requires
        has_appending_operators(defs),
        0 <= k <= parts.len(),
    ensures
        ({
            let s = operators::all_text_steps(defs, v, by_ref, parts, k);
            made_of(defs, v, old, s, s.len() as int) == with_operands(defs, v, old, parts, k)
        }),
    decreases k,
{
    if k > 0 {
        texts_add_their_operands(defs, v, by_ref, old, parts, k - 1);
        let a = operators::all_text_steps(defs, v, by_ref, parts, k - 1);
        let part = parts[k - 1];
        let b = operators::text_steps(defs, v, by_ref, part);
        made_of_both(defs, v, old, a, b, b.len() as int);
        operators_are_named(defs);
        assert(text_named(defs, by_ref));
        let before = with_operands(defs, v, old, parts, k - 1);
        if is_texty(part.tp) {
            let d = match operators::appended_as(part.tp) {
                operators::AppendedAs::Character => vector_store::op(
                    defs,
                    operators::character_op(by_ref),
                ),
                _ => vector_store::op(defs, operators::text_op(by_ref)),
            };
            an_append_adds(defs, v, before, d, seq![part.value]);
            assert(seq![ir::var(v)] + seq![part.value] =~= seq![ir::var(v), part.value]);
            assert(b =~= seq![ir::call(d, seq![ir::var(v), part.value])]);
        }
    }
}

/// A text that is put together is made of its operands in their order: behind what the
/// variable held where it is assigned to one, and of nothing else where it is a value of its
/// own.
pub proof fn a_text_is_made_of_its_operands(
    defs: Seq<Definition>,
    v: u16,
    by_ref: bool,
    fresh: bool,
    code: ir::Node,
    t: types::Ty,
    parts: Seq<OperandView>,
    old: Seq<ir::Node>,
)
    requires
        has_appending_operators(defs),
    ensures
        ({
            let s = operators::text_start(defs, v, by_ref, fresh, code, t)
                + operators::all_text_steps(defs, v, by_ref, parts, parts.len() as int);
            made_of(defs, v, old, s, s.len() as int) == with_operands(
                defs,
                v,
                if fresh {
                    seq![code]
                } else {
                    old.push(code)
                },
                parts,
                parts.len() as int,
            )
        }),
{
    let a = operators::text_start(defs, v, by_ref, fresh, code, t);
    let b = operators::all_text_steps(defs, v, by_ref, parts, parts.len() as int);
    made_of_both(defs, v, old, a, b, b.len() as int);
    operators_are_named(defs);
    assert(text_named(defs, by_ref));
    let none = Seq::<ir::Node>::empty();
    let begun = if fresh {
        seq![code]
    } else {
        old.push(code)
    };
    assert(seq![ir::var(v)] + seq![code] =~= seq![ir::var(v), code]);
    if !fresh {
        let d = vector_store::op(defs, operators::text_op(by_ref));
        an_append_adds(defs, v, old, d, seq![code]);
        assert(a =~= seq![ir::call(d, seq![ir::var(v), code])]);
    } else {
        let clear = if by_ref {
            vector_store::op(defs, "OpClearStackText"@)
        } else {
            vector_store::op(defs, "OpClearText"@)
        };
        let d = if by_ref {
            vector_store::op(defs, "OpAppendStackText"@)
        } else if t is Character {
            vector_store::op(defs, "OpAppendCharacter"@)
        } else {
            vector_store::op(defs, "OpAppendText"@)
        };
        let first = seq![ir::call(clear, seq![ir::var(v)])];
        let second = seq![ir::call(d, seq![ir::var(v), code])];
        assert(a =~= first + second);
        made_of_both(defs, v, old, first, second, 1);
        a_clearing_leaves_nothing(defs, v, old, clear);
        an_append_adds(defs, v, none, d, seq![code]);
        assert(none.push(code) =~= seq![code]);
    }
    assert(made_of(defs, v, old, a, a.len() as int) == begun);
    texts_add_their_operands(defs, v, by_ref, begun, parts, parts.len() as int);
}

/// A concatenation appends its operands to its variable one after the other, each once and
/// in their order.
pub proof fn a_vector_is_made_of_its_operands(
    defs: Seq<Definition>,
    v: u16,
    parts: Seq<OperandView>,
    elem: i32,
    old: Seq<ir::Node>,
    k: int,
)
    requires
        has_appending_operators(defs),
        0 <= k <= parts.len(),
    ensures
        ({
            let s = operators::appends(defs, v, parts, elem, k);
            made_of(defs, v, old, s, s.len() as int) == old + Seq::new(
                k as nat,
                |i: int| parts[i].value,
            )
        }),
    decreases k,
{
    let s = operators::appends(defs, v, parts, elem, k);
    if k > 0 {
        a_vector_is_made_of_its_operands(defs, v, parts, elem, old, k - 1);
        let a = operators::appends(defs, v, parts, elem, k - 1);
        let value = parts[k - 1].value;
        let b = seq![operators::append_call(defs, v, value, elem)];
        assert(s =~= a + b);
        made_of_both(defs, v, old, a, b, 1);
        operators_are_named(defs);
        assert(text_named(defs, false));
        let before = old + Seq::new((k - 1) as nat, |i: int| parts[i].value);
        let rest = seq![value, ir::int_value(elem)];
        an_append_adds(defs, v, before, vector_store::op(defs, "OpAppendVector"@), rest);
        assert(seq![ir::var(v)] + rest =~= seq![ir::var(v), value, ir::int_value(elem)]);
        assert(old + Seq::new(k as nat, |i: int| parts[i].value) =~= before.push(value));
    } else {
        assert(s.len() == 0);
        assert(old + Seq::new(k as nat, |i: int| parts[i].value) =~= old);
    }
}

/// Whether a statement makes variable `v` name what another variable holds.
pub open spec fn shares(n: ir::Node, v: u16) -> bool {
    n.head == ir::Head::Assign(v) && exists|i: int|
        0 <= i < n.kids.len() && ((#[trigger] ir::unspan(n.kids[i])).head matches ir::Head::Var(x)
            && x != v)
}

/// A concatenation that is assigned to variable `v` is made of its operands in their order,
/// and never of the storage of another variable: the elements of a first operand that is one
/// are copied behind what `v` was given to hold them.  A `&` parameter keeps what it holds
/// and grows.
pub proof fn an_assigned_vector_is_made_of_its_operands(
    defs: Seq<Definition>,
    f: data::FnView,
    code: ir::Node,
    v: u16,
    elem: i32,
    parts: Seq<OperandView>,
    old: Seq<ir::Node>,
)
    requires
        has_appending_operators(defs),
        !(code.head is Insert),
    ensures
        ({
            let s = operators::first_steps(defs, f, code, v, elem) + operators::appends(
                defs,
                v,
                parts,
                elem,
                parts.len() as int,
            );
            let grows = f.vars[v as int].tp matches types::Ty::RefVar(inner) && *inner is Vector;
            let first = if grows {
                old
            } else if ir::unspan(code).head matches ir::Head::Var(x) && x != v {
                old.push(code)
            } else {
                seq![code]
            };
            &&& made_of(defs, v, old, s, s.len() as int) == first + Seq::new(
                parts.len(),
                |i: int| parts[i].value,
            )
            &&& forall|i: int| 0 <= i < s.len() ==> !shares(#[trigger] s[i], v)
        }),
{
    let a = operators::first_steps(defs, f, code, v, elem);
    let b = operators::appends(defs, v, parts, elem, parts.len() as int);
    made_of_both(defs, v, old, a, b, b.len() as int);
    operators_are_named(defs);
    assert(text_named(defs, false));
    let rest = seq![code, ir::int_value(elem)];
    an_append_adds(defs, v, old, vector_store::op(defs, "OpAppendVector"@), rest);
    assert(seq![ir::var(v)] + rest =~= seq![ir::var(v), code, ir::int_value(elem)]);
    let taken = seq![ir::assign(v, code)];
    assert(made_of(defs, v, old, taken, 0) == old);
    assert(made_of(defs, v, old, taken, 1) == seq![code]);
    let first = made_of(defs, v, old, a, a.len() as int);
    a_vector_is_made_of_its_operands(defs, v, parts, elem, first, parts.len() as int);
    let s = a + b;
    assert forall|i: int| 0 <= i < s.len() implies !shares(#[trigger] s[i], v) by {
        if i >= a.len() {
            appends_are_calls(defs, v, parts, elem, parts.len() as int);
            assert(s[i] == b[i - a.len()]);
        } else {
            assert(s[i] == a[i]);
        }
    }
}

proof fn appends_are_calls(
    defs: Seq<Definition>,
    v: u16,
    parts: Seq<OperandView>,
    elem: i32,
    k: int,
)
    ensures
        forall|i: int|
            0 <= i < operators::appends(defs, v, parts, elem, k).len() ==> (
            #[trigger] operators::appends(defs, v, parts, elem, k)[i]).head is Call,
    decreases k,
{
    if k > 0 {
        appends_are_calls(defs, v, parts, elem, k - 1);
    }
}

/// The name of the operator that a text operand is appended with: by its type, and by
/// whether the text it goes behind is a `&` parameter, whose storage is on the stack of
/// the caller.
pub open spec fn appender(t: types::Ty, by_ref: bool) -> Seq<char> {
    let character = t is Character || (t matches types::Ty::RefVar(inner) && *inner is Character);
    match (character, by_ref) {
        (true, true) => "OpAppendStackCharacter"@,
        (true, false) => "OpAppendCharacter"@,
        (false, true) => "OpAppendStackText"@,
        (false, false) => "OpAppendText"@,
    }
}

/// A text or a character is appended by one call of the operator for its type and for the
/// place of the text that it goes behind.
pub proof fn an_operand_goes_through_its_operator(
    defs: Seq<Definition>,
    v: u16,
    by_ref: bool,
    part: OperandView,
)
    requires
        has_appending_operators(defs),
        is_texty(part.tp),
    ensures
        ({
            let s = operators::text_steps(defs, v, by_ref, part);
            &&& s.len() == 1
            &&& s[0].head matches ir::Head::Call(d) && d < defs.len() && defs[d as int].name@
                == appender(part.tp, by_ref)
            &&& s[0].kids == seq![ir::var(v), part.value]
        }),
{
    data::found_definition(defs, appender(part.tp, by_ref), 0);
}

} // verus!
