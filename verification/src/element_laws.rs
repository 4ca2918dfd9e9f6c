//! What the parts of a literal come to, and how a comprehension may be built.

use crate::comprehensions::{self, EndView};
use crate::data::Definition;
use crate::ir;
use crate::literals;
use crate::types;
use crate::vector_literals::{self, Fits, Outcome, PartView};
use vstd::prelude::*;

verus! {

/// Whether a part repeats the element before it by something that is no number.
pub open spec fn repeats_by_no_number(p: PartView) -> bool {
    p matches PartView::Times(_, t) && !(t is Integer)
}

/// Whether an item is made of a part: a repetition holds its count, and an element keeps
/// whether it is fresh and absent, and what wraps its members.
pub open spec fn is_made_of(item: literals::ItemView, p: PartView) -> bool {
    match p {
        PartView::Times(count, _) => item.value == (ir::Node {
            head: ir::Head::Return,
            kids: seq![count],
        }),
        PartView::Element { fresh, null, wraps, .. } => item.fresh == fresh && item.null == null
            && item.wraps == wraps,
    }
}

/// How many of the first `k` parts are elements.
pub open spec fn elements_among(parts: Seq<PartView>, k: int) -> nat
    decreases k,
{
    if k <= 0 {
        0
    } else {
        elements_among(parts, k - 1) + if parts[k - 1] is Element {
            1nat
        } else {
            0
        }
    }
}

/// A literal has one item for each of its parts, in their order, and something to say of each
/// of its elements; it is refused exactly where an element is repeated by no number.
pub proof fn a_part_makes_an_item(
    defs: Seq<Definition>,
    in_t: types::Ty,
    parts: Seq<PartView>,
    declared: bool,
    holding: Seq<u16>,
    first_pass: bool,
    k: int,
)
    requires
        0 <= k <= parts.len(),
    ensures
        ({
            let g = vector_literals::gathered(
                defs,
                in_t,
                parts,
                declared,
                holding,
                first_pass,
                k,
            );
            &&& g is None <==> exists|i: int|
                0 <= i < k && repeats_by_no_number(#[trigger] parts[i])
            &&& g matches Some(all) ==> {
                &&& all.items.len() == k
                &&& forall|i: int| 0 <= i < k ==> is_made_of(#[trigger] all.items[i], parts[i])
                &&& all.notes.len() == elements_among(parts, k)
            }
        }),
    decreases k,
{
    if k > 0 {
        a_part_makes_an_item(defs, in_t, parts, declared, holding, first_pass, k - 1);
        let before = vector_literals::gathered(
            defs,
            in_t,
            parts,
            declared,
            holding,
            first_pass,
            k - 1,
        );
        let after = vector_literals::gathered(
            defs,
            in_t,
            parts,
            declared,
            holding,
            first_pass,
            k,
        );
        if before is None {
            let i = choose|i: int| 0 <= i < k - 1 && repeats_by_no_number(#[trigger] parts[i]);
            assert(repeats_by_no_number(parts[i]));
        }
        assert(repeats_by_no_number(parts[k - 1]) || !repeats_by_no_number(parts[k - 1]));
        match (before, after) {
            (Some(b), Some(a)) => {
                assert forall|i: int| 0 <= i < k implies is_made_of(
                    #[trigger] a.items[i],
                    parts[i],
                ) by {
                    if i < k - 1 {
                        assert(a.items[i] == b.items[i]);
                    }
                }
            },
            _ => {},
        }
    }
}

/// Whether an element may not stand where it does.
pub open spec fn is_refusal(o: Outcome) -> bool {
    o is Refused || o is FloatRefused || o is NoCommon || o is NullRefused
}

/// An element that converts to the element type is refused only as an absent value where
/// values are never absent; one that does not convert is refused by a declared type, widens
/// an undeclared one where that converts to its own, and has nothing in common with it
/// otherwise.  A declared type is never widened.
pub proof fn an_element_is_taken_where_it_converts(
    defs: Seq<Definition>,
    in_t: types::Ty,
    t: types::Ty,
    fits: Fits,
    declared: bool,
    first_pass: bool,
)
    ensures
        ({
            let o = vector_literals::outcome_of(defs, in_t, t, fits, declared, first_pass);
            &&& fits.converts && is_refusal(o) ==> o is NullRefused && t is Null
            &&& o is Converted ==> fits.converts
            &&& o is Wrapped ==> fits.wraps && !fits.in_place && !first_pass
            &&& o is Deferred ==> first_pass && (vector_literals::unresolved(t)
                || vector_literals::unresolved(in_t))
            &&& o is Absent ==> t is Null
            &&& o is Refused || o is FloatRefused ==> declared && !fits.converts
            &&& o is FloatRefused ==> t is Float && types::base(in_t) is Single
            &&& o is Widened ==> !declared && !fits.converts && fits.widens
            &&& o is NoCommon ==> !declared && !fits.converts && !fits.widens
            &&& !first_pass && !fits.converts && !fits.wraps && !(t is Null) && !(t is Reference)
                && !(t is Enum) ==> if declared {
                o is Refused || o is FloatRefused
            } else if fits.widens {
                o is Widened
            } else {
                o is NoCommon
            }
        }),
{
}

/// Two records are taken together as variants exactly where they are variants of the same
/// enumeration, and the elements are then of that enumeration.
pub proof fn variants_share_their_enumeration(
    defs: Seq<Definition>,
    in_t: types::Ty,
    t: types::Ty,
    fits: Fits,
    declared: bool,
    first_pass: bool,
)
    requires
        defs.len() <= u32::MAX,
    ensures
        ({
            let o = vector_literals::outcome_of(defs, in_t, t, fits, declared, first_pass);
            let both = in_t matches types::Ty::Reference(a, _) && (t matches types::Ty::Reference(
                b,
                _,
            ) && a < defs.len() && b < defs.len() && {
                &&& defs[a as int].returned@ matches types::Ty::Enum(x, records, _) && records
                &&& defs[b as int].returned@ matches types::Ty::Enum(y, records, _) && records
                    && defs[a as int].returned@->Enum_0 == y
            });
            &&& o is Variants <==> both
            &&& o matches Outcome::Variants(e) ==> vector_literals::element_type_after(in_t, t, o)
                == types::Ty::Enum(e, true, types::no_deps())
        }),
{
}

/// What is known of the element type or of the type of an element is known of both
/// afterwards: neither is unknown unless both were, and neither has a part that is not known
/// unless both had.  Two types that are known stay as they are.
pub proof fn types_tell_each_other(in_t: types::Ty, t: types::Ty)
    ensures
        ({
            let (a, b) = vector_literals::reconciled(in_t, t);
            let was = vector_literals::peeled(in_t);
            let own = vector_literals::peeled(t);
            &&& types::unknown(a) || types::unknown(b) ==> types::unknown(was) && types::unknown(
                own,
            )
            &&& vector_literals::unresolved(a) || vector_literals::unresolved(b)
                ==> vector_literals::unresolved(was) && vector_literals::unresolved(own)
            &&& !vector_literals::unresolved(was) && !vector_literals::unresolved(own)
                && !types::unknown(was) && !types::unknown(own) ==> a == was && b == own
            &&& a == was || a == own
            &&& b == was || b == own
        }),
{
    nothing_known_is_unresolved(vector_literals::peeled(in_t));
    nothing_known_is_unresolved(vector_literals::peeled(t));
}

proof fn nothing_known_is_unresolved(t: types::Ty)
    ensures
        types::unknown(t) ==> vector_literals::unresolved(t),
    decreases t,
{
    match t {
        types::Ty::Vector(inner, _) => {
            nothing_known_is_unresolved(*inner);
        },
        _ => {},
    }
}

/// A comprehension that reads what it is built in is built apart or by a loop; one element is
/// repeated for a plain variable alone, and elements that are known are listed for integers
/// alone; and where a shortcut may serve, one does.
pub proof fn a_shortcut_reads_nothing_of_its_own(
    own_buffer: bool,
    plain: bool,
    reads_itself: bool,
    fills: bool,
    in_t: types::Ty,
    unrolls: bool,
)
    ensures
        ({
            let s = vector_literals::strategy_of(
                own_buffer,
                plain,
                reads_itself,
                fills,
                in_t,
                unrolls,
            );
            &&& own_buffer <==> s is OwnBuffer
            &&& reads_itself ==> s is OwnBuffer || s is Loop
            &&& s is Fill ==> plain && fills
            &&& s is Unrolled ==> in_t is Integer && unrolls
            &&& !own_buffer && !reads_itself && (plain && fills || in_t is Integer && unrolls)
                ==> s is Fill || s is Unrolled
        }),
{
}

/// A loop over a text ends by the position in it, one over a vector by its length and not by
/// what it holds, and one over a generator when that is exhausted; any other ends where its
/// variable is no longer a value, and so does one that lacks what it would end by.
pub proof fn a_loop_ends_as_its_source_does(
    t: types::Ty,
    pre_var: Option<u16>,
    by_position: Seq<ir::Node>,
    by_length: Option<Seq<ir::Node>>,
    test: ir::Node,
)
    ensures
        ({
            let end = comprehensions::end_of(t, pre_var, by_position, by_length, test);
            match t {
                types::Ty::Text(_) => if pre_var is Some {
                    end == EndView::Position(by_position)
                } else {
                    end == EndView::Test(test)
                },
                types::Ty::Vector(_, _) => match by_length {
                    Some(s) => end == EndView::Length(s),
                    None => end == EndView::Test(test),
                },
                types::Ty::Iterator(_) => end is Generator,
                _ => end == EndView::Test(test),
            }
        }),
{
}

} // verus!
