//! What holds of the stored types, and of what a type is made to depend on.

use crate::cells;
use crate::data::Definition;
use crate::elements;
use crate::schema::{self, Parts, TypeView};
use crate::types::{self, IntegerSpec, Ty};
use vstd::prelude::*;

verus! {

/// Whether stored type `n` is of a kind, a content and a key.
pub open spec fn is_stored_as(
    s: Seq<TypeView>,
    n: int,
    parts: Parts,
    content: u16,
    key: Seq<char>,
) -> bool {
    0 <= n < s.len() && s[n].parts == parts && s[n].content == content && s[n].key == key
}

proof fn the_first_found(
    s: Seq<TypeView>,
    parts: Parts,
    content: u16,
    key: Seq<char>,
    from: int,
)
    requires
        0 <= from <= s.len(),
        s.len() <= u16::MAX,
    ensures
        match schema::found_from(s, parts, content, key, from) {
            Some(n) => from <= n && is_stored_as(s, n as int, parts, content, key) && forall|i: int|
                from <= i < n ==> !#[trigger] is_stored_as(s, i, parts, content, key),
            None => forall|i: int|
                from <= i < s.len() ==> !#[trigger] is_stored_as(s, i, parts, content, key),
        },
    decreases s.len() - from,
{
    if from < s.len() && !is_stored_as(s, from, parts, content, key) {
        the_first_found(s, parts, content, key, from + 1);
    }
}

/// A stored type has one number: to register it gives the number of the one that is there, or
/// adds it behind the others, and to register it again changes nothing.  There is no number
/// only where there are as many types as there can be.
pub proof fn a_stored_type_has_one_number(
    s: Seq<TypeView>,
    parts: Parts,
    content: u16,
    key: Seq<char>,
)
    requires
        s.len() <= u16::MAX,
    ensures
        ({
            let (t, n) = schema::registered(s, parts, content, key);
            let known = exists|i: int|
                0 <= i < s.len() && #[trigger] is_stored_as(s, i, parts, content, key);
            &&& t.len() <= u16::MAX
            &&& t.len() >= s.len() && t.take(s.len() as int) == s
            &&& known ==> t == s
            &&& !known && s.len() < u16::MAX ==> t.len() == s.len() + 1 && n == s.len()
            &&& n == u16::MAX ==> s.len() == u16::MAX && !known
            &&& n != u16::MAX ==> is_stored_as(t, n as int, parts, content, key)
            &&& n != u16::MAX ==> schema::registered(t, parts, content, key) == (t, n)
        }),
{
    the_first_found(s, parts, content, key, 0);
    let (t, n) = schema::registered(s, parts, content, key);
    assert(t.take(s.len() as int) =~= s);
    match schema::found_from(s, parts, content, key, 0) {
        Some(i) => {
            assert(is_stored_as(s, i as int, parts, content, key));
        },
        None => {
            if s.len() < u16::MAX {
                assert(is_stored_as(t, n as int, parts, content, key));
                the_first_found(t, parts, content, key, 0);
                assert forall|i: int| 0 <= i < s.len() implies !is_stored_as(
                    t,
                    i,
                    parts,
                    content,
                    key,
                ) by {
                    assert(t[i] == s[i]);
                    assert(!is_stored_as(s, i, parts, content, key));
                }
                let m = schema::found_from(t, parts, content, key, 0)->0;
                assert(is_stored_as(t, m as int, parts, content, key));
            }
        },
    }
}

/// The kind of slot that an integer of so many bytes takes, and the bytes of a slot of it.
pub open spec fn slot_of(width: u8) -> (Parts, u16) {
    match width {
        1 => (Parts::Byte, 1),
        2 => (Parts::ShortRaw, 2),
        _ => (Parts::Int, 4),
    }
}

/// An integer of one, two or four bytes is stored in a slot of that many bytes: it is found or
/// registered as one.  Any other is stored as the plain integer is.
pub proof fn an_integer_is_stored_in_its_width(
    s: Seq<TypeView>,
    defs: Seq<Definition>,
    spec: IntegerSpec,
)
    requires
        s.len() < u16::MAX,
    ensures
        ({
            let (t, n) = elements::stored(s, defs, Ty::Integer(spec));
            let w = types::integer_width(spec, false);
            let (parts, bytes) = slot_of(w);
            if w == 1 || w == 2 || w == 4 {
                &&& n < t.len() && t[n as int].parts == parts && t[n as int].content == 0
                &&& n == s.len() ==> t[n as int].size == bytes
            } else {
                t == s && n == schema::named_from(s, "integer"@, 0)
            }
        }),
{
    match elements::narrow_width(spec, false) {
        Some(w) => {
            a_stored_type_has_one_number(
                s,
                slot_of(w).0,
                0,
                cells::bound_text(spec.min),
            );
        },
        None => {},
    }
}

proof fn taken_twice(a: Seq<TypeView>, b: Seq<TypeView>, c: Seq<TypeView>)
    requires
        a.len() <= b.len() <= c.len(),
        b.take(a.len() as int) == a,
        c.take(b.len() as int) == b,
    ensures
        c.take(a.len() as int) == a,
{
    assert(c.take(a.len() as int) =~= c.take(b.len() as int).take(a.len() as int));
}

/// To store a type leaves the types that are stored where they are, and no number is out of
/// range.
pub proof fn stored_types_stay(s: Seq<TypeView>, defs: Seq<Definition>, t: Ty)
    requires
        s.len() <= u16::MAX,
    ensures
        s.len() <= elements::stored(s, defs, t).0.len() <= u16::MAX,
        elements::stored(s, defs, t).0.take(s.len() as int) == s,
    decreases t, 0int,
{
    assert(s.take(s.len() as int) =~= s);
    match t {
        Ty::Integer(spec) => {
            match elements::narrow_width(spec, false) {
                Some(w) => {
                    a_stored_type_has_one_number(
                        s,
                        slot_of(w).0,
                        0,
                        cells::bound_text(spec.min),
                    );
                },
                None => {},
            }
        },
        Ty::Function(_, _, _) => {
            a_stored_type_has_one_number(s, Parts::Int, 0, cells::bound_text(0));
        },
        Ty::Vector(elem, _) => {
            vectors_stay(s, defs, *elem);
        },
        Ty::Optional(inner) => {
            stored_types_stay(s, defs, *inner);
        },
        Ty::Sorted(..) | Ty::Hash(..) | Ty::Index(..) | Ty::Radix(..) | Ty::Trie(..) => {
            keyed_stay(s, defs, t);
        },
        _ => {},
    }
}

proof fn vectors_stay(s: Seq<TypeView>, defs: Seq<Definition>, elem: Ty)
    requires
        s.len() <= u16::MAX,
    ensures
        s.len() <= elements::vector_stored(s, defs, elem).0.len() <= u16::MAX,
        elements::vector_stored(s, defs, elem).0.take(s.len() as int) == s,
    decreases elem, 1int,
{
    assert(s.take(s.len() as int) =~= s);
    stored_types_stay(s, defs, elem);
    let (more, e) = elements::element_stored(s, defs, elem);
    assert(more.len() <= u16::MAX);
    a_stored_type_has_one_number(more, Parts::Vector, e, ""@);
    taken_twice(s, more, schema::registered(more, Parts::Vector, e, ""@).0);
}

proof fn keyed_stay(s: Seq<TypeView>, defs: Seq<Definition>, t: Ty)
    requires
        s.len() <= u16::MAX,
    ensures
        s.len() <= elements::keyed_stored(s, defs, t).0.len() <= u16::MAX,
        elements::keyed_stored(s, defs, t).0.take(s.len() as int) == s,
{
    assert(s.take(s.len() as int) =~= s);
    match elements::keyed_parts(t) {
        Some((d, parts, key)) => {
            a_stored_type_has_one_number(s, parts, elements::known_of(defs, d), key);
        },
        None => {},
    }
}

/// The kind that a keyed collection is stored as, its records and its key.
pub open spec fn keyed_as(t: Ty) -> Option<(Parts, u32, Seq<char>)>
    decreases t,
{
    match t {
        Ty::Optional(inner) => keyed_as(*inner),
        Ty::Hash(d, key, _) => Some((Parts::Hash, d, key)),
        Ty::Sorted(d, key, _) => Some((Parts::Sorted, d, key)),
        Ty::Index(d, key, _) => Some((Parts::Index, d, key)),
        Ty::Radix(d, key, _) => Some((Parts::Spatial, d, key)),
        Ty::Trie(d, key, _) => Some((Parts::Trie, d, key)),
        _ => None,
    }
}

/// A keyed collection, absent or not, is stored by its kind, its key and the stored type of its
/// records, once these have one; anything else is not stored as one.
pub proof fn a_keyed_collection_is_stored_by_its_kind(
    s: Seq<TypeView>,
    defs: Seq<Definition>,
    t: Ty,
)
    requires
        s.len() < u16::MAX,
    ensures
        ({
            let (more, n) = elements::keyed_stored(s, defs, t);
            match keyed_as(t) {
                Some((parts, d, key)) => {
                    let known = if d < defs.len() {
                        defs[d as int].known_type
                    } else {
                        u16::MAX
                    };
                    &&& n is Some <==> known != u16::MAX
                    &&& n matches Some(i) ==> is_stored_as(more, i as int, parts, known, key)
                },
                None => n is None && more == s,
            }
        }),
{
    keyed_under_marks(t);
    match elements::keyed_parts(t) {
        Some((d, parts, key)) => {
            a_stored_type_has_one_number(s, parts, elements::known_of(defs, d), key);
        },
        None => {},
    }
}

proof fn keyed_under_marks(t: Ty)
    ensures
        match keyed_as(t) {
            Some((parts, d, key)) => elements::keyed_parts(t) == Some((d, parts, key)),
            None => elements::keyed_parts(t) is None,
        },
    decreases t,
{
    match t {
        Ty::Optional(inner) => {
            keyed_under_marks(*inner);
        },
        _ => {},
    }
}

/// Whether a type carries what its value depends on: all but plain values, tuples and
/// iterators do.
pub open spec fn carries_dependencies(t: Ty) -> bool
    decreases t,
{
    match t {
        Ty::Text(_)
        | Ty::Enum(_, _, _)
        | Ty::Reference(_, _)
        | Ty::Hash(_, _, _)
        | Ty::Sorted(_, _, _)
        | Ty::Index(_, _, _)
        | Ty::Radix(_, _, _)
        | Ty::Trie(_, _, _)
        | Ty::Vector(_, _)
        | Ty::Function(_, _, _) => true,
        Ty::Optional(inner) | Ty::RefVar(inner) | Ty::Rewritten(inner) => {
            carries_dependencies(*inner)
        },
        _ => false,
    }
}

/// A type that is made to depend on a variable depends on it, on what it did before, and on
/// nothing else; it names no variable twice unless it did.
pub proof fn a_type_depends_on_one_more(t: Ty, v: u16, w: u16)
    requires
        carries_dependencies(t),
    ensures
        types::depend(types::depending_on(t, v)).contains(w) <==> types::depend(t).contains(w) || w
            == v,
        types::depend(t).no_duplicates() ==> types::depend(
            types::depending_on(t, v),
        ).no_duplicates(),
    decreases t,
{
    match t {
        Ty::Optional(inner) | Ty::RefVar(inner) | Ty::Rewritten(inner) => {
            a_type_depends_on_one_more(*inner, v, w);
        },
        _ => {
            let old = types::depend(t);
            let new = types::depend(types::depending_on(t, v));
            if old.contains(v) {
                assert(new == old);
            } else {
                assert(new == old.push(v));
                assert(new[old.len() as int] == v);
                if old.contains(w) {
                    let i = choose|i: int| 0 <= i < old.len() && old[i] == w;
                    assert(new[i] == w);
                }
                if new.contains(w) && w != v {
                    let i = choose|i: int| 0 <= i < new.len() && new[i] == w;
                    assert(old[i] == w);
                }
                if old.no_duplicates() {
                    assert forall|i: int, j: int|
                        0 <= i < new.len() && 0 <= j < new.len() && i != j implies new[i]
                        != new[j] by {
                        if i < old.len() && j < old.len() {
                            assert(new[i] == old[i] && new[j] == old[j]);
                        } else if i < old.len() {
                            assert(old.contains(old[i]));
                        } else if j < old.len() {
                            assert(old.contains(old[j]));
                        }
                    }
                }
            }
        },
    }
}

} // verus!
