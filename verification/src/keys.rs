//! Key fields of records and the contents a lookup compares them with.

use vstd::prelude::*;

verus! {

/// One key field: its storage kind (a negative number orders it descending),
/// its position in the record's payload and the least value of a narrow field.
#[derive(Clone, Copy, Debug, PartialEq, Eq, Structural)]
pub struct Key {
    pub type_nr: i8,
    pub position: u16,
    pub start: i32,
}

/// A value that a lookup is made with.  Floating-point values are held by their
/// bits.
pub enum Content {
    Long(i64),
    Float(u64),
    Single(u32),
    Text(String),
}

impl Key {
    /// The storage kind without the direction.
    pub open spec fn kind(&self) -> int {
        if self.type_nr < 0 {
            -self.type_nr
        } else {
            self.type_nr as int
        }
    }

    /// How many bytes the field takes.
    pub open spec fn width(&self) -> int {
        if self.kind() == 8 || self.kind() == 12 {
            4
        } else if self.kind() == 9 || self.kind() == 11 {
            2
        } else if self.kind() == 10 {
            1
        } else {
            8
        }
    }

    /// The storage kind without the direction.
    pub fn storage_kind(&self) -> (kind: u8)
        ensures
            kind == self.kind(),
    {
        if self.type_nr < 0 {
            (-(self.type_nr as i16)) as u8
        } else {
            self.type_nr as u8
        }
    }
}

} // verus!
