//! The layout of stored types.

use crate::text;
use vstd::prelude::*;

verus! {

/// A field of a stored record: its name, where it stands and the type of what
/// it holds.
#[derive(Debug)]
pub struct Field {
    pub name: String,
    pub position: u16,
    pub content: u16,
}

/// How a stored type is made up.
#[derive(Clone, Copy, Debug, PartialEq, Eq, Structural)]
pub enum Parts {
    Base,
    Struct,
    Enum,
    Vector,
    Sorted,
    /// Sorted, with the records apart from the order.
    Ordered,
    Hash,
    Index,
    Spatial,
    Trie,
    Byte,
    ShortRaw,
    Int,
}

/// One stored type.  `content` is the type of the elements of a collection and,
/// for the tagged form of a record, the type of that record.  `key` names what a
/// keyed collection finds its records by, and the bound of a narrow integer.
#[derive(Debug)]
pub struct StoredType {
    pub name: String,
    pub parts: Parts,
    pub size: u16,
    pub content: u16,
    pub key: String,
    pub fields: Vec<Field>,
    /// The variants of an enum with fields.
    pub variants: Vec<u16>,
}

/// The stored types by number.
#[derive(Debug)]
pub struct Stores {
    pub types: Vec<StoredType>,
}

/// The position of the first field from `i` on that is called `name`;
/// `u16::MAX` when there is none.
pub open spec fn position_from(fields: Seq<Field>, name: Seq<char>, i: int) -> u16
    decreases fields.len() - i,
{
    if i < 0 || i >= fields.len() {
        u16::MAX
    } else if fields[i].name@ == name {
        fields[i].position
    } else {
        position_from(fields, name, i + 1)
    }
}

impl Stores {
    /// The position of field `name` in stored type `tp`.
    pub open spec fn position_of(&self, tp: u16, name: Seq<char>) -> u16 {
        if tp < self.types.len() {
            position_from(self.types@[tp as int].fields@, name, 0)
        } else {
            u16::MAX
        }
    }

    /// The position of field `name` in stored type `tp`; `u16::MAX` when it has
    /// none.
    pub fn position(&self, tp: u16, name: &str) -> (at: u16)
        ensures
            at == self.position_of(tp, name@),
    {
        if tp as usize >= self.types.len() {
            return u16::MAX;
        }
        let fields: &Vec<Field> = &self.types[tp as usize].fields;
        let mut i: usize = 0;
        while i < fields.len()
            invariant
                i <= fields.len(),
                tp < self.types.len(),
                *fields == self.types@[tp as int].fields,
                position_from(fields@, name@, 0) == position_from(fields@, name@, i as int),
            decreases fields.len() - i,
        {
            if text::same(fields[i].name.as_str(), name) {
                return fields[i].position;
            }
            i = i + 1;
        }
        u16::MAX
    }
}

/// A field of a stored record as a value.
pub struct FieldView {
    pub name: Seq<char>,
    pub position: u16,
    pub content: u16,
}

/// The fields of a list as values.
pub open spec fn field_views(s: Seq<Field>) -> Seq<FieldView> {
    Seq::new(
        s.len(),
        |i: int|
            FieldView { name: s[i].name@, position: s[i].position, content: s[i].content },
    )
}

/// A stored type as a value.
pub struct TypeView {
    pub name: Seq<char>,
    pub parts: Parts,
    pub size: u16,
    pub content: u16,
    pub key: Seq<char>,
    pub fields: Seq<FieldView>,
    pub variants: Seq<u16>,
}

/// A stored type that was just registered: it has no fields and no variants.
pub open spec fn fresh_type(parts: Parts, content: u16, key: Seq<char>) -> TypeView {
    TypeView {
        name: ""@,
        parts,
        size: slot_size(parts),
        content,
        key,
        fields: Seq::empty(),
        variants: Seq::empty(),
    }
}

/// The stored types of a list as values.
pub open spec fn type_views(s: Seq<StoredType>) -> Seq<TypeView> {
    Seq::new(s.len(), |i: int| s[i]@)
}

impl StoredType {
    /// The stored type as a value.
    pub open spec fn view(&self) -> TypeView {
        TypeView {
            name: self.name@,
            parts: self.parts,
            size: self.size,
            content: self.content,
            key: self.key@,
            fields: field_views(self.fields@),
            variants: self.variants@,
        }
    }
}

/// The first stored type from `from` on of a kind, a content and a key.
pub open spec fn found_from(
    s: Seq<TypeView>,
    parts: Parts,
    content: u16,
    key: Seq<char>,
    from: int,
) -> Option<u16>
    decreases s.len() - from,
{
    if from < 0 || from >= s.len() {
        None
    } else if s[from].parts == parts && s[from].content == content && s[from].key == key {
        Some(from as u16)
    } else {
        found_from(s, parts, content, key, from + 1)
    }
}

/// How many bytes a slot of a kind takes.
pub open spec fn slot_size(parts: Parts) -> u16 {
    match parts {
        Parts::Byte => 1,
        Parts::ShortRaw => 2,
        Parts::Base | Parts::Struct | Parts::Enum => 0,
        _ => 4,
    }
}

/// The stored types with one of a kind, a content and a key, and its number: the
/// first such one, or a new one behind the others.  `u16::MAX` when there is no
/// number left.
pub open spec fn registered(
    s: Seq<TypeView>,
    parts: Parts,
    content: u16,
    key: Seq<char>,
) -> (Seq<TypeView>, u16) {
    match found_from(s, parts, content, key, 0) {
        Some(i) => (s, i),
        None => if s.len() < u16::MAX {
            (
                s.push(fresh_type(parts, content, key)),
                s.len() as u16,
            )
        } else {
            (s, u16::MAX)
        },
    }
}

/// The first stored type from `from` on that is called `name`; `u16::MAX` when there
/// is none.
pub open spec fn named_from(s: Seq<TypeView>, name: Seq<char>, from: int) -> u16
    decreases s.len() - from,
{
    if from < 0 || from >= s.len() {
        u16::MAX
    } else if s[from].name == name {
        from as u16
    } else {
        named_from(s, name, from + 1)
    }
}

/// How many bytes stored type `tp` takes; none where there is no such type.
pub open spec fn size_of(s: Seq<TypeView>, tp: u16) -> u16 {
    if tp < s.len() {
        s[tp as int].size
    } else {
        0
    }
}

/// What stored type `tp` holds; `u16::MAX` where there is no such type.
pub open spec fn content_of(s: Seq<TypeView>, tp: u16) -> u16 {
    if tp < s.len() {
        s[tp as int].content
    } else {
        u16::MAX
    }
}

/// Whether a schema has the stored types of another and perhaps more.
pub open spec fn extends(a: Stores, b: Stores) -> bool {
    &&& a.types.len() <= b.types.len()
    &&& forall|i: int| 0 <= i < a.types.len() ==> #[trigger] b.types@[i] == a.types@[i]
}

impl Stores {
    /// The stored types as values.
    pub open spec fn view(&self) -> Seq<TypeView> {
        type_views(self.types@)
    }

    /// The number of the stored type called `name`; `u16::MAX` when there is none.
    pub fn name(&self, name: &str) -> (tp: u16)
        requires
            self.types.len() <= u16::MAX,
        ensures
            tp == named_from(self@, name@, 0),
    {
        let mut i: usize = 0;
        while i < self.types.len()
            invariant
                i <= self.types.len() <= u16::MAX,
                named_from(self@, name@, 0) == named_from(self@, name@, i as int),
            decreases self.types.len() - i,
        {
            if text::same(self.types[i].name.as_str(), name) {
                return i as u16;
            }
            i = i + 1;
        }
        u16::MAX
    }

    /// How many bytes stored type `tp` takes.
    pub fn size(&self, tp: u16) -> (n: u16)
        ensures
            n == size_of(self@, tp),
    {
        if (tp as usize) < self.types.len() {
            self.types[tp as usize].size
        } else {
            0
        }
    }

    /// What stored type `tp` holds.
    pub fn content(&self, tp: u16) -> (c: u16)
        ensures
            c == content_of(self@, tp),
    {
        if (tp as usize) < self.types.len() {
            self.types[tp as usize].content
        } else {
            u16::MAX
        }
    }

    /// The number of the stored type of a kind, a content and a key.
    pub fn find(&self, parts: Parts, content: u16, key: &str) -> (tp: Option<u16>)
        requires
            self.types.len() <= u16::MAX,
        ensures
            tp == found_from(self@, parts, content, key@, 0),
    {
        let mut i: usize = 0;
        while i < self.types.len()
            invariant
                i <= self.types.len() <= u16::MAX,
                found_from(self@, parts, content, key@, 0) == found_from(
                    self@,
                    parts,
                    content,
                    key@,
                    i as int,
                ),
            decreases self.types.len() - i,
        {
            if self.types[i].parts == parts && self.types[i].content == content && text::same(
                self.types[i].key.as_str(),
                key,
            ) {
                return Some(i as u16);
            }
            i = i + 1;
        }
        None
    }

    /// The number of the stored type of a kind, a content and a key, registered
    /// where there is none yet.
    pub fn register(&mut self, parts: Parts, content: u16, key: &str) -> (tp: u16)
        requires
            old(self).types.len() <= u16::MAX,
        ensures
            (final(self)@, tp) == registered(old(self)@, parts, content, key@),
            final(self).types.len() <= u16::MAX,
            extends(*old(self), *final(self)),
    {
        match self.find(parts, content, key) {
            Some(tp) => {
                return tp;
            },
            None => {},
        }
        if self.types.len() >= u16::MAX as usize {
            return u16::MAX;
        }
        let ghost was = self@;
        let size: u16 = match parts {
            Parts::Byte => 1,
            Parts::ShortRaw => 2,
            Parts::Base | Parts::Struct | Parts::Enum => 0,
            _ => 4,
        };
        let tp: u16 = self.types.len() as u16;
        self.types.push(
            StoredType {
                name: "".to_owned(),
                parts,
                size,
                content,
                key: key.to_owned(),
                fields: Vec::new(),
                variants: Vec::new(),
            },
        );
        proof {
            let made = self.types@[tp as int];
            assert(made@.fields =~= Seq::<FieldView>::empty());
            assert(made@.variants =~= Seq::<u16>::empty());
            assert(self@ =~= was.push(fresh_type(parts, content, key@)));
        }
        tp
    }
}

/// The number of the first field from `i` on at a position, of a content where one is
/// asked for.
pub open spec fn field_from(fields: Seq<Field>, pos: i32, content: Option<u16>, i: int) -> Option<
    int,
>
    decreases fields.len() - i,
{
    if i < 0 || i >= fields.len() {
        None
    } else if fields[i].position == pos && (content is None || fields[i].content == content->0) {
        Some(i)
    } else {
        field_from(fields, pos, content, i + 1)
    }
}

fn find_field(fields: &Vec<Field>, pos: i32, content: Option<u16>) -> (r: Option<usize>)
    ensures
        match r {
            Some(i) => field_from(fields@, pos, content, 0) == Some(i as int) && i < fields.len(),
            None => field_from(fields@, pos, content, 0) is None,
        },
{
    let mut i: usize = 0;
    while i < fields.len()
        invariant
            i <= fields.len(),
            field_from(fields@, pos, content, 0) == field_from(fields@, pos, content, i as int),
        decreases fields.len() - i,
    {
        let fits: bool = match content {
            Some(c) => fields[i].content == c,
            None => true,
        };
        if fields[i].position as i32 == pos && fits {
            return Some(i);
        }
        i = i + 1;
    }
    None
}

impl Stores {
    /// The stored type that has the fields of a record: that of the record itself for
    /// the tagged form of one.
    pub open spec fn record_of(&self, tp: u16) -> u16 {
        if tp < self.types.len() && text::is_prefix(
            "__nullable<"@,
            self.types@[tp as int].name@,
        ) {
            self.types@[tp as int].content
        } else {
            tp
        }
    }

    /// Whether stored type `tp` has a field of a content at a position.
    pub open spec fn has_field(&self, tp: u16, pos: u16, content: u16) -> bool {
        tp < self.types.len() && field_from(
            self.types@[tp as int].fields@,
            pos as i32,
            Some(content),
            0,
        ) is Some
    }

    /// The first of the variants from `i` on that has a field of a content at a
    /// position.
    pub open spec fn variant_from(
        &self,
        variants: Seq<u16>,
        pos: u16,
        content: u16,
        i: int,
    ) -> Option<u16>
        decreases variants.len() - i,
    {
        if i < 0 || i >= variants.len() {
            None
        } else if self.has_field(variants[i], pos, content) {
            Some(variants[i])
        } else {
            self.variant_from(variants, pos, content, i + 1)
        }
    }

    /// The stored type that a field of a content at a position belongs to: for an enum
    /// the variant that has it.
    pub open spec fn owner_of(&self, tp: u16, pos: u16, content: u16) -> u16 {
        if tp < self.types.len() {
            match self.variant_from(self.types@[tp as int].variants@, pos, content, 0) {
                Some(v) => v,
                None => tp,
            }
        } else {
            tp
        }
    }

    /// The number of the field of stored type `tp` at a position; 0 when it has none.
    pub open spec fn field_at(&self, tp: u16, pos: i32) -> int {
        if tp < self.types.len() {
            match field_from(self.types@[tp as int].fields@, pos, None, 0) {
                Some(i) => i,
                None => 0,
            }
        } else {
            0
        }
    }

    /// The stored type that has the fields of a record.
    pub fn key_owner(&self, tp: u16) -> (r: u16)
        ensures
            r == self.record_of(tp),
    {
        if (tp as usize) < self.types.len() && text::starts_with(
            self.types[tp as usize].name.as_str(),
            "__nullable<",
        ) {
            self.types[tp as usize].content
        } else {
            tp
        }
    }

    /// The stored type that a field of a content at a position belongs to.
    pub fn variant_owning_field(&self, tp: u16, pos: u16, content: u16) -> (r: u16)
        ensures
            r == self.owner_of(tp, pos, content),
    {
        if tp as usize >= self.types.len() {
            return tp;
        }
        let variants: &Vec<u16> = &self.types[tp as usize].variants;
        let mut i: usize = 0;
        while i < variants.len()
            invariant
                i <= variants.len(),
                tp < self.types.len(),
                *variants == self.types@[tp as int].variants,
                self.variant_from(variants@, pos, content, 0) == self.variant_from(
                    variants@,
                    pos,
                    content,
                    i as int,
                ),
            decreases variants.len() - i,
        {
            let v: u16 = variants[i];
            if (v as usize) < self.types.len() && find_field(
                &self.types[v as usize].fields,
                pos as i32,
                Some(content),
            ).is_some() {
                return v;
            }
            i = i + 1;
        }
        tp
    }

    /// The number of the field of stored type `tp` at a position; 0 when it has none.
    pub fn field_nr(&self, tp: u16, pos: i32) -> (n: usize)
        ensures
            n == self.field_at(tp, pos),
    {
        if tp as usize >= self.types.len() {
            return 0;
        }
        match find_field(&self.types[tp as usize].fields, pos, None) {
            Some(i) => i,
            None => 0,
        }
    }
}

} // verus!
