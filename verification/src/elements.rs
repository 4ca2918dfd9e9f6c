//! The elements of collections: how they are stored, read and written, and what may
//! be one.

use crate::cells;
use crate::data::{self, Data, Definition};
use crate::ir::{self, Value};
use crate::schema::{self, Parts, Stores};
use crate::text;
use crate::types::{self, IntegerSpec, Type};
use vstd::prelude::*;

verus! {

/// How an integer narrower than the machine word is stored as an element.
#[derive(Clone, Copy, Debug, PartialEq, Eq, Structural)]
pub enum NarrowIntKind {
    Byte,
    ByteNullable,
    /// Two bytes that the declaration asks for.
    ShortRaw,
    /// Two bytes that the range comes to.
    ShortFull,
    Short,
    Int4,
    /// Four bytes that hold more than the positive half of a signed number.
    Int4Raw,
}

/// The width in bytes of the elements of a vector of integers, where it is narrower
/// than the machine word.
pub open spec fn narrow_width(spec: IntegerSpec, nullable: bool) -> Option<u8> {
    let w = types::integer_width(spec, nullable);
    if w == 1 || w == 2 || w == 4 {
        Some(w)
    } else {
        None
    }
}

/// The kind of a narrow integer of a width.
pub open spec fn kind_of(width: u8, nullable: bool, spec: IntegerSpec) -> NarrowIntKind {
    if width == 1 {
        if nullable {
            NarrowIntKind::ByteNullable
        } else {
            NarrowIntKind::Byte
        }
    } else if width == 2 {
        if nullable {
            NarrowIntKind::Short
        } else if spec.forced_size > 0 {
            NarrowIntKind::ShortRaw
        } else {
            NarrowIntKind::ShortFull
        }
    } else {
        if spec.max > i32::MAX {
            NarrowIntKind::Int4Raw
        } else {
            NarrowIntKind::Int4
        }
    }
}

impl NarrowIntKind {
    /// The name of the operator that reads the kind, without what it does.
    pub open spec fn read_as(self) -> Seq<char> {
        match self {
            NarrowIntKind::Byte => "Byte"@,
            NarrowIntKind::ByteNullable => "ByteNullable"@,
            NarrowIntKind::ShortRaw => "ShortRaw"@,
            NarrowIntKind::ShortFull => "ShortFull"@,
            NarrowIntKind::Short => "Short"@,
            NarrowIntKind::Int4 => "Int4"@,
            NarrowIntKind::Int4Raw => "Int4Raw"@,
        }
    }

    /// The name of the operator that writes the kind, without what it does: two bytes
    /// are written alike whatever asked for them.
    pub open spec fn written_as(self) -> Seq<char> {
        match self {
            NarrowIntKind::ShortFull => "ShortRaw"@,
            _ => self.read_as(),
        }
    }

    fn get_op(self) -> (s: &'static str)
        ensures
            s@ == self.read_as(),
    {
        match self {
            NarrowIntKind::Byte => "Byte",
            NarrowIntKind::ByteNullable => "ByteNullable",
            NarrowIntKind::ShortRaw => "ShortRaw",
            NarrowIntKind::ShortFull => "ShortFull",
            NarrowIntKind::Short => "Short",
            NarrowIntKind::Int4 => "Int4",
            NarrowIntKind::Int4Raw => "Int4Raw",
        }
    }

    fn set_op(self) -> (s: &'static str)
        ensures
            s@ == self.written_as(),
    {
        match self {
            NarrowIntKind::ShortFull => "ShortRaw",
            _ => self.get_op(),
        }
    }

    /// Whether the operators of the kind take the bound that values are stored
    /// against.
    pub open spec fn bounded(self) -> bool {
        self != NarrowIntKind::Int4Raw && self != NarrowIntKind::Int4
    }

    fn takes_min(self) -> (r: bool)
        ensures
            r == self.bounded(),
    {
        match self {
            NarrowIntKind::Int4Raw | NarrowIntKind::Int4 => false,
            _ => true,
        }
    }
}

/// The kind of the elements of a type that is a narrow integer, absent or not, and
/// the bound they are stored against.
pub open spec fn narrow_kind(t: types::Ty) -> Option<(NarrowIntKind, i32)> {
    match t {
        types::Ty::Integer(spec) => narrow_integer(spec, false),
        types::Ty::Optional(inner) => match *inner {
            types::Ty::Integer(spec) => narrow_integer(spec, true),
            _ => None,
        },
        _ => None,
    }
}

/// The kind of an integer that is narrower than the machine word, and the bound it
/// is stored against.
pub open spec fn narrow_integer(spec: IntegerSpec, nullable: bool) -> Option<
    (NarrowIntKind, i32),
> {
    match narrow_width(spec, nullable) {
        Some(w) => Some((kind_of(w, nullable, spec), spec.min)),
        None => None,
    }
}

fn narrow_kind_of(spec: &IntegerSpec, nullable: bool) -> (r: Option<(NarrowIntKind, i32)>)
    ensures
        r == narrow_integer(*spec, nullable),
{
    let kind: NarrowIntKind = match spec.byte_width(nullable) {
        1 => if nullable {
            NarrowIntKind::ByteNullable
        } else {
            NarrowIntKind::Byte
        },
        2 => if nullable {
            NarrowIntKind::Short
        } else if spec.forced_size > 0 {
            NarrowIntKind::ShortRaw
        } else {
            NarrowIntKind::ShortFull
        },
        4 => if spec.max > 0x7fff_ffff {
            NarrowIntKind::Int4Raw
        } else {
            NarrowIntKind::Int4
        },
        _ => {
            return None;
        },
    };
    Some((kind, spec.min))
}

/// The kind of the elements of a type that is a narrow integer, and the bound they
/// are stored against.
pub fn narrow_elm_kind(elm_tp: &Type) -> (r: Option<(NarrowIntKind, i32)>)
    ensures
        r == narrow_kind(elm_tp@),
{
    match elm_tp {
        Type::Integer(spec) => narrow_kind_of(spec, false),
        Type::Optional(inner) => {
            let ghost t = inner@;
            match &**inner {
                Type::Integer(spec) => narrow_kind_of(spec, true),
                _ => None,
            }
        },
        _ => None,
    }
}

/// The write of a value to a narrow element; `None` for other elements.
pub open spec fn narrow_written(
    defs: Seq<Definition>,
    t: types::Ty,
    elm: ir::Node,
    value: ir::Node,
) -> Option<ir::Node> {
    match narrow_kind(t) {
        Some((kind, min)) => {
            let op = cells::operator(defs, "OpSet"@, kind.written_as());
            if op == u32::MAX {
                None
            } else {
                Some(
                    ir::call(
                        op,
                        cells::place(
                            elm,
                            if kind.bounded() {
                                Some(min)
                            } else {
                                None
                            },
                        ).push(value),
                    ),
                )
            }
        },
        None => None,
    }
}

/// The read of a narrow element; `None` for other elements.
pub open spec fn narrow_read(
    defs: Seq<Definition>,
    t: types::Ty,
    elm: ir::Node,
) -> Option<ir::Node> {
    match narrow_kind(t) {
        Some((kind, min)) => {
            let op = cells::operator(defs, "OpGet"@, kind.read_as());
            if op == u32::MAX {
                None
            } else {
                Some(
                    ir::call(
                        op,
                        cells::place(
                            elm,
                            if kind.bounded() {
                                Some(min)
                            } else {
                                None
                            },
                        ),
                    ),
                )
            }
        },
        None => None,
    }
}

/// The write of a value to a narrow element; `None` for other elements.
pub fn narrow_elm_write(elm_tp: &Type, elm: Value, value: &Value, data: &Data) -> (out: Option<
    Value,
>)
    requires
        data.definitions.len() <= u32::MAX,
    ensures
        match out {
            Some(x) => narrow_written(data.definitions@, elm_tp@, elm@, value@) == Some(x@),
            None => narrow_written(data.definitions@, elm_tp@, elm@, value@) is None,
        },
{
    match narrow_elm_kind(elm_tp) {
        Some((kind, min)) => {
            let op: u32 = data.def_nr(text::join("OpSet", kind.set_op()).as_str());
            if op == u32::MAX {
                return None;
            }
            let low: Option<i32> = if kind.takes_min() {
                Some(min)
            } else {
                None
            };
            let mut args: Vec<Value> = cells::make_place(elm, low);
            ir::put(&mut args, value.copy());
            Some(ir::make_call(op, args))
        },
        None => None,
    }
}

/// The read of a narrow element; `None` for other elements.
pub fn narrow_elm_read(elm_tp: &Type, code: Value, data: &Data) -> (out: Option<Value>)
    requires
        data.definitions.len() <= u32::MAX,
    ensures
        match out {
            Some(x) => narrow_read(data.definitions@, elm_tp@, code@) == Some(x@),
            None => narrow_read(data.definitions@, elm_tp@, code@) is None,
        },
{
    match narrow_elm_kind(elm_tp) {
        Some((kind, min)) => {
            let op: u32 = data.def_nr(text::join("OpGet", kind.get_op()).as_str());
            if op == u32::MAX {
                return None;
            }
            let low: Option<i32> = if kind.takes_min() {
                Some(min)
            } else {
                None
            };
            Some(ir::make_call(op, cells::make_place(code, low)))
        },
        None => None,
    }
}

/// The stored type number of definition `d`; `u16::MAX` where there is none.
pub open spec fn known_of(defs: Seq<Definition>, d: u32) -> u16 {
    if d < defs.len() {
        defs[d as int].known_type
    } else {
        u16::MAX
    }
}

/// The stored type number of definition `d`; `u16::MAX` where there is none.
pub fn known_type(data: &Data, d: u32) -> (kt: u16)
    ensures
        kt == known_of(data.definitions@, d),
{
    if (d as usize) < data.definitions.len() {
        data.definitions[d as usize].known_type
    } else {
        u16::MAX
    }
}

/// The definition, the kind and the key of a keyed collection.
pub open spec fn keyed_parts(t: types::Ty) -> Option<(u32, Parts, Seq<char>)> {
    match types::base(t) {
        types::Ty::Sorted(d, key, _) => Some((d, Parts::Sorted, key)),
        types::Ty::Hash(d, key, _) => Some((d, Parts::Hash, key)),
        types::Ty::Index(d, key, _) => Some((d, Parts::Index, key)),
        types::Ty::Radix(d, key, _) => Some((d, Parts::Spatial, key)),
        types::Ty::Trie(d, key, _) => Some((d, Parts::Trie, key)),
        _ => None,
    }
}

/// The stored types with that of a keyed collection, and its number; none for other
/// types, and none while the records have no stored type.
pub open spec fn keyed_stored(
    s: Seq<schema::TypeView>,
    defs: Seq<Definition>,
    t: types::Ty,
) -> (Seq<schema::TypeView>, Option<u16>) {
    match keyed_parts(t) {
        Some((d, parts, key)) => if known_of(defs, d) == u16::MAX {
            (s, None)
        } else {
            let (more, tp) = schema::registered(s, parts, known_of(defs, d), key);
            (more, Some(tp))
        },
        None => (s, None),
    }
}

/// The stored type of a keyed collection; `None` for other types, and while the
/// records have no stored type.
pub fn keyed_known_type(stores: &mut Stores, data: &Data, tp: &Type) -> (r: Option<u16>)
    requires
        old(stores).types.len() <= u16::MAX,
    ensures
        (final(stores)@, r) == keyed_stored(old(stores)@, data.definitions@, tp@),
        final(stores).types.len() <= u16::MAX,
        schema::extends(*old(stores), *final(stores)),
{
    let (d, parts, key): (u32, Parts, &str) = match tp.base() {
        Type::Sorted(d, key, _) => (*d, Parts::Sorted, key.as_str()),
        Type::Hash(d, key, _) => (*d, Parts::Hash, key.as_str()),
        Type::Index(d, key, _) => (*d, Parts::Index, key.as_str()),
        Type::Radix(d, key, _) => (*d, Parts::Spatial, key.as_str()),
        Type::Trie(d, key, _) => (*d, Parts::Trie, key.as_str()),
        _ => {
            return None;
        },
    };
    let content: u16 = known_type(data, d);
    if content == u16::MAX {
        return None;
    }
    Some(stores.register(parts, content, key))
}

/// The stored type that holds the records of a sorted collection apart from their
/// order, where there is one and none that holds them in it.
pub open spec fn ordered_in(
    s: Seq<schema::TypeView>,
    defs: Seq<Definition>,
    d: u32,
    key: Seq<char>,
) -> Option<u16> {
    let content = known_of(defs, d);
    if content == u16::MAX || schema::found_from(s, Parts::Sorted, content, key, 0) is Some {
        None
    } else {
        schema::found_from(s, Parts::Ordered, content, key, 0)
    }
}

fn find_ordered(stores: &Stores, data: &Data, d: u32, key: &str) -> (r: Option<u16>)
    requires
        stores.types.len() <= u16::MAX,
    ensures
        r == ordered_in(stores@, data.definitions@, d, key@),
{
    let content: u16 = known_type(data, d);
    if content == u16::MAX || stores.find(Parts::Sorted, content, key).is_some() {
        None
    } else {
        stores.find(Parts::Ordered, content, key)
    }
}

/// The stored types with that of a value of a type, and its number; `u16::MAX` for a
/// type that is not stored.
pub open spec fn stored(
    s: Seq<schema::TypeView>,
    defs: Seq<Definition>,
    t: types::Ty,
) -> (Seq<schema::TypeView>, u16)
    decreases t, 0int,
{
    match t {
        types::Ty::Integer(spec) => match narrow_width(spec, false) {
            Some(w) => schema::registered(
                s,
                if w == 1 {
                    Parts::Byte
                } else if w == 2 {
                    Parts::ShortRaw
                } else {
                    Parts::Int
                },
                0,
                cells::bound_text(spec.min),
            ),
            None => (s, schema::named_from(s, "integer"@, 0)),
        },
        types::Ty::Character => (s, schema::named_from(s, "integer"@, 0)),
        types::Ty::Float => (s, schema::named_from(s, "float"@, 0)),
        types::Ty::Single => (s, schema::named_from(s, "single"@, 0)),
        types::Ty::Text(_) => (s, schema::named_from(s, "text"@, 0)),
        types::Ty::Function(_, _, _) => schema::registered(s, Parts::Int, 0, cells::bound_text(0)),
        types::Ty::Reference(d, _) | types::Ty::Enum(d, _, _) => (s, known_of(defs, d)),
        types::Ty::Sorted(d, key, _) => match ordered_in(s, defs, d, key) {
            Some(tp) => (s, tp),
            None => match keyed_stored(s, defs, t) {
                (more, Some(tp)) => (more, tp),
                (more, None) => (more, u16::MAX),
            },
        },
        types::Ty::Hash(..)
        | types::Ty::Index(..)
        | types::Ty::Radix(..)
        | types::Ty::Trie(..) => match keyed_stored(s, defs, t) {
            (more, Some(tp)) => (more, tp),
            (more, None) => (more, u16::MAX),
        },
        types::Ty::Vector(elem, _) => vector_stored(s, defs, *elem),
        types::Ty::Optional(inner) => stored(s, defs, *inner),
        _ => (s, u16::MAX),
    }
}

/// The stored types with that of one element of a vector, and its number.
pub open spec fn element_stored(
    s: Seq<schema::TypeView>,
    defs: Seq<Definition>,
    elem: types::Ty,
) -> (Seq<schema::TypeView>, u16)
    decreases elem, 1int,
{
    if types::base(elem) is Boolean {
        (s, schema::named_from(s, "boolean"@, 0))
    } else {
        stored(s, defs, elem)
    }
}

/// The stored types with that of a vector of a type, and its number.  A vector of
/// vectors goes by the type of its elements.
pub open spec fn vector_stored(
    s: Seq<schema::TypeView>,
    defs: Seq<Definition>,
    elem: types::Ty,
) -> (Seq<schema::TypeView>, u16)
    decreases elem, 2int,
{
    let (more, e) = element_stored(s, defs, elem);
    if types::base(elem) is Vector {
        (more, e)
    } else {
        schema::registered(more, Parts::Vector, e, ""@)
    }
}

fn bound(min: i32) -> (s: String)
    ensures
        s@ == cells::bound_text(min),
{
    if min < 0 {
        let size: i64 = -(min as i64);
        text::join("m", text::decimal(size as u64).as_str())
    } else {
        text::decimal(min as u64)
    }
}

fn stored_type(stores: &mut Stores, data: &Data, tp: &Type) -> (r: u16)
    requires
        old(stores).types.len() <= u16::MAX,
    ensures
        (final(stores)@, r) == stored(old(stores)@, data.definitions@, tp@),
        final(stores).types.len() <= u16::MAX,
        schema::extends(*old(stores), *final(stores)),
    decreases tp, 0int,
{
    match tp {
        Type::Integer(spec) => {
            let w: u8 = spec.byte_width(false);
            if w == 1 {
                stores.register(Parts::Byte, 0, bound(spec.min).as_str())
            } else if w == 2 {
                stores.register(Parts::ShortRaw, 0, bound(spec.min).as_str())
            } else if w == 4 {
                stores.register(Parts::Int, 0, bound(spec.min).as_str())
            } else {
                stores.name("integer")
            }
        },
        Type::Character => stores.name("integer"),
        Type::Float => stores.name("float"),
        Type::Single => stores.name("single"),
        Type::Text(_) => stores.name("text"),
        Type::Function(_, _, _) => stores.register(Parts::Int, 0, bound(0).as_str()),
        Type::Reference(d, _) | Type::Enum(d, _, _) => known_type(data, *d),
        Type::Sorted(d, key, _) => match find_ordered(stores, data, *d, key.as_str()) {
            Some(kt) => kt,
            None => match keyed_known_type(stores, data, tp) {
                Some(kt) => kt,
                None => u16::MAX,
            },
        },
        Type::Hash(..)
        | Type::Index(..)
        | Type::Radix(..)
        | Type::Trie(..) => match keyed_known_type(stores, data, tp) {
            Some(kt) => kt,
            None => u16::MAX,
        },
        Type::Vector(elem, _) => vector_of(stores, data, elem),
        Type::Optional(inner) => stored_type(stores, data, inner),
        _ => u16::MAX,
    }
}

/// The stored type of a value of a type.  In the first pass over the source nothing
/// is stored yet.
pub fn get_type(stores: &mut Stores, data: &Data, tp: &Type, first_pass: bool) -> (r: u16)
    requires
        old(stores).types.len() <= u16::MAX,
    ensures
        first_pass ==> r == u16::MAX && *final(stores) == *old(stores),
        !first_pass ==> (final(stores)@, r) == stored(old(stores)@, data.definitions@, tp@),
        final(stores).types.len() <= u16::MAX,
        schema::extends(*old(stores), *final(stores)),
{
    if first_pass {
        return u16::MAX;
    }
    stored_type(stores, data, tp)
}

/// The stored type of one element of a vector.
pub fn vector_element_type(stores: &mut Stores, data: &Data, elem: &Type) -> (r: u16)
    requires
        old(stores).types.len() <= u16::MAX,
    ensures
        (final(stores)@, r) == element_stored(old(stores)@, data.definitions@, elem@),
        final(stores).types.len() <= u16::MAX,
        schema::extends(*old(stores), *final(stores)),
    decreases elem, 1int,
{
    let truth: bool = match elem.base() {
        Type::Boolean => true,
        _ => false,
    };
    if truth {
        stores.name("boolean")
    } else {
        stored_type(stores, data, elem)
    }
}

/// The stored type of a vector of elements of a type; a vector of vectors goes by the
/// type of its elements.
pub fn vector_of(stores: &mut Stores, data: &Data, elem: &Type) -> (r: u16)
    requires
        old(stores).types.len() <= u16::MAX,
    ensures
        (final(stores)@, r) == vector_stored(old(stores)@, data.definitions@, elem@),
        final(stores).types.len() <= u16::MAX,
        schema::extends(*old(stores), *final(stores)),
    decreases elem, 2int,
{
    let e: u16 = vector_element_type(stores, data, elem);
    match elem.base() {
        Type::Vector(_, _) => e,
        _ => stores.register(Parts::Vector, e, ""),
    }
}

/// What the source of an append is to the collection it is appended to.
#[derive(Clone, Copy, Debug, PartialEq, Eq, Structural)]
pub enum AppendSource {
    /// The source is the collection: its elements are appended.
    Whole,
    /// The source is one element.
    Element,
    /// The source is a vector of elements for a keyed collection.
    ElementVector,
    /// Nothing that the collection can hold.
    Unrelated,
}

/// Whether a value of type `src` may be one element of a collection of `content`.
/// `into` and `back` tell whether one converts to the other.
pub open spec fn is_element(
    content: types::Ty,
    src: types::Ty,
    into: bool,
    back: bool,
) -> bool {
    !types::unknown(content) && !types::unknown(src) && (types::bare(content) == types::bare(src)
        || into || back)
}

/// Whether a value of type `src` may be one element of a collection of `content`.
/// `into` tells whether it converts to one, and `back` whether one converts to it.
pub fn holds_element(content: &Type, src: &Type, into: bool, back: bool) -> (r: bool)
    ensures
        r == is_element(content@, src@, into, back),
{
    if content.is_unknown() || src.is_unknown() {
        return false;
    }
    content.is_equal(src) || into || back
}

/// What a source of type `src` is to a collection of type `dest`; `element` and
/// `elements` tell whether the source, or what a vector of it holds, converts to or
/// from an element.
pub open spec fn source_of(
    dest: types::Ty,
    src: types::Ty,
    element: bool,
    elements: bool,
) -> AppendSource {
    let to = types::base(dest);
    let content = types::content_of(to);
    if types::unknown(src) || types::unknown(content) || types::bare(src) == types::bare(to) {
        AppendSource::Whole
    } else if is_element(content, src, element, false) {
        AppendSource::Element
    } else if types::keyed(to) && (types::base(src) matches types::Ty::Vector(elm, _)
        && is_element(content, *elm, elements, false)) {
        AppendSource::ElementVector
    } else {
        AppendSource::Unrelated
    }
}

/// What a source of type `src` is to the collection of type `dest` that it is
/// appended to.
pub fn append_source(dest: &Type, src: &Type, element: bool, elements: bool) -> (r: AppendSource)
    ensures
        r == source_of(dest@, src@, element, elements),
{
    let to: &Type = dest.base();
    let content: Type = to.content();
    if src.is_unknown() || content.is_unknown() || src.is_equal(to) {
        return AppendSource::Whole;
    }
    if holds_element(&content, src, element, false) {
        return AppendSource::Element;
    }
    if types::is_keyed(to) {
        match src.base() {
            Type::Vector(elm, _) => {
                if holds_element(&content, elm, elements, false) {
                    return AppendSource::ElementVector;
                }
            },
            _ => {},
        }
    }
    AppendSource::Unrelated
}

/// The kind of a keyed collection as the source names it.
pub open spec fn keyed_name(t: types::Ty) -> Option<Seq<char>> {
    match types::base(t) {
        types::Ty::Hash(..) => Some("hash"@),
        types::Ty::Sorted(..) => Some("sorted"@),
        types::Ty::Index(..) => Some("index"@),
        types::Ty::Radix(..) => Some("spatial"@),
        types::Ty::Trie(..) => Some("trie"@),
        _ => None,
    }
}

/// The kind of a keyed collection that cannot be the element of a vector; `None` for
/// a type that can.
pub fn refuse_keyed_vector_element(tp: &Type) -> (kind: Option<&'static str>)
    ensures
        match kind {
            Some(k) => keyed_name(tp@) == Some(k@),
            None => keyed_name(tp@) is None,
        },
{
    match tp.base() {
        Type::Hash(..) => Some("hash"),
        Type::Sorted(..) => Some("sorted"),
        Type::Index(..) => Some("index"),
        Type::Radix(..) => Some("spatial"),
        Type::Trie(..) => Some("trie"),
        _ => None,
    }
}

/// The integer type of the elements of a vector, and whether they may be absent.
pub open spec fn integer_elements(t: types::Ty) -> Option<(IntegerSpec, bool)> {
    match types::base(t) {
        types::Ty::Vector(elem, _) => match types::base(*elem) {
            types::Ty::Integer(spec) => Some((spec, types::is_optional(*elem))),
            _ => None,
        },
        _ => None,
    }
}

fn int_elements(tp: &Type) -> (r: Option<(IntegerSpec, bool)>)
    ensures
        r == integer_elements(tp@),
{
    match tp.base() {
        Type::Vector(elem, _) => match elem.base() {
            Type::Integer(spec) => Some((*spec, elem.is_optional())),
            _ => None,
        },
        _ => None,
    }
}

/// How two vectors of integers differ in the bytes of their elements.
#[derive(Clone, Copy, Debug, PartialEq, Eq, Structural)]
pub enum Mixed {
    /// The elements take different numbers of bytes.
    Widths(u8, u8),
    /// The elements take as many bytes, against different bounds.
    Offsets(u8),
}

/// How the elements of two vectors of integers differ in their bytes; `None` when
/// the bytes of one can be copied to the other.
pub open spec fn mixed(dest: types::Ty, part: types::Ty) -> Option<Mixed> {
    match (integer_elements(dest), integer_elements(part)) {
        (Some((d, d_null)), Some((s, s_null))) => {
            let d_w = types::integer_width(d, d_null);
            let s_w = types::integer_width(s, s_null);
            if d_w != s_w {
                Some(Mixed::Widths(d_w, s_w))
            } else if d_w <= 4 && d.min != s.min {
                Some(Mixed::Offsets(d_w))
            } else {
                None
            }
        },
        _ => None,
    }
}

/// How the elements of two vectors of integers differ in their bytes, so that a
/// concatenation would copy wrong values.  In the first pass nothing is refused.
pub fn refuse_mixed_element_encoding(dest: &Type, part: &Type, first_pass: bool) -> (r: Option<
    Mixed,
>)
    ensures
        r == if first_pass {
            None
        } else {
            mixed(dest@, part@)
        },
{
    if first_pass {
        return None;
    }
    match (int_elements(dest), int_elements(part)) {
        (Some((d, d_null)), Some((s, s_null))) => {
            let d_w: u8 = d.byte_width(d_null);
            let s_w: u8 = s.byte_width(s_null);
            if d_w != s_w {
                Some(Mixed::Widths(d_w, s_w))
            } else if d_w <= 4 && d.min != s.min {
                Some(Mixed::Offsets(d_w))
            } else {
                None
            }
        },
        _ => None,
    }
}

} // verus!
