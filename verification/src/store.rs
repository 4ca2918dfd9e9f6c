//! Record storage: numbered records of bytes, and the ordered indexes that
//! collections keep beside them.

use crate::radix_tree::RadixTree;
use vstd::prelude::*;

verus! {

/// A reference to a place in a store: the store, a record in it and a byte
/// position in that record.
#[derive(Clone, Copy, Debug, PartialEq, Eq, Structural)]
pub struct DbRef {
    pub store_nr: u16,
    pub rec: u32,
    pub pos: u32,
}

/// Records are numbered from 1; record 0 is the null record and holds nothing.
/// `trees` holds the indexes; index `t` is named by the number `t + 1`, so that
/// 0 can mean that a collection has none yet.
pub struct Store {
    pub recs: Vec<Vec<u8>>,
    pub trees: Vec<RadixTree>,
}

/// The `k` bytes of `b` from `at` on, read little end first.
pub open spec fn le_value(b: Seq<u8>, at: int, k: nat) -> nat
    decreases k,
{
    if k == 0 {
        0
    } else {
        b[at] as nat + 256 * le_value(b, at + 1, (k - 1) as nat)
    }
}

/// How many values `k` bytes can hold.
pub open spec fn byte_limit(k: nat) -> nat
    decreases k,
{
    if k == 0 {
        1
    } else {
        256 * byte_limit((k - 1) as nat)
    }
}

proof fn lemma_le_value_bound(b: Seq<u8>, at: int, k: nat)
    ensures
        le_value(b, at, k) < byte_limit(k),
    decreases k,
{
    if k > 0 {
        lemma_le_value_bound(b, at + 1, (k - 1) as nat);
    }
}

proof fn lemma_byte_limit_grows(j: nat, k: nat)
    requires
        j <= k,
    ensures
        0 < byte_limit(j) <= byte_limit(k),
    decreases k,
{
    if j < k {
        lemma_byte_limit_grows(j, (k - 1) as nat);
    } else if j > 0 {
        lemma_byte_limit_grows((j - 1) as nat, (k - 1) as nat);
    }
}

proof fn lemma_le_value_frame(b: Seq<u8>, c: Seq<u8>, at: int, k: nat)
    requires
        forall|i: int| at <= i < at + k ==> b[i] == c[i],
    ensures
        le_value(b, at, k) == le_value(c, at, k),
    decreases k,
{
    if k > 0 {
        lemma_le_value_frame(b, c, at + 1, (k - 1) as nat);
    }
}

fn read_le(b: &Vec<u8>, at: usize, k: usize) -> (v: u64)
    requires
        k <= 8,
        at + k <= b.len(),
    ensures
        v as nat == le_value(b@, at as int, k as nat),
        v < byte_limit(k as nat),
{
    let mut v: u64 = 0;
    let mut j: usize = k;
    while j > 0
        invariant
            j <= k <= 8,
            at + k <= b.len(),
            v as nat == le_value(b@, at + j, (k - j) as nat),
        decreases j,
    {
        j = j - 1;
        proof {
            lemma_le_value_bound(b@, at + j + 1, (k - j - 1) as nat);
            lemma_byte_limit_grows((k - j - 1) as nat, 7);
            assert(byte_limit(7) == 0x100_0000_0000_0000) by {
                reveal_with_fuel(byte_limit, 8);
            }
        }
        v = 256 * v + b[at + j] as u64;
    }
    proof {
        lemma_le_value_bound(b@, at as int, k as nat);
    }
    v
}

fn write_le(b: &mut Vec<u8>, at: usize, k: usize, v: u64)
    requires
        k <= 8,
        at + k <= old(b).len(),
        v < byte_limit(k as nat),
    ensures
        final(b).len() == old(b).len(),
        forall|i: int| 0 <= i < old(b).len() && !(at <= i < at + k) ==> final(b)[i] == old(b)[i],
        le_value(final(b)@, at as int, k as nat) == v,
    decreases k,
{
    if k > 0 {
        let low: u8 = (v % 256) as u8;
        b[at] = low;
        write_le(b, at + 1, k - 1, v / 256);
    }
}

impl Store {
    /// The bytes of record `rec`.
    pub open spec fn bytes(&self, rec: u32) -> Seq<u8> {
        self.recs@[rec as int]@
    }

    /// Whether record `rec` exists and has `k` bytes from `fld` on.
    pub open spec fn holds(&self, rec: u32, fld: int, k: int) -> bool {
        0 < rec < self.recs.len() && 0 <= fld && fld + k <= self.bytes(rec).len()
    }

    /// The `k` bytes at `fld` of record `rec` as a number.
    pub open spec fn raw(&self, rec: u32, fld: int, k: nat) -> nat {
        le_value(self.bytes(rec), fld, k)
    }

    /// `self` is `before` except that the `k` bytes at `fld` of record `rec` now
    /// hold `v`.
    pub open spec fn written(&self, before: &Store, rec: u32, fld: int, k: nat, v: nat) -> bool {
        &&& self.trees == before.trees
        &&& self.recs_written(before, rec, fld, k, v)
    }

    /// The records are those of `before` except that the `k` bytes at `fld` of
    /// record `rec` now hold `v`.
    pub open spec fn recs_written(
        &self,
        before: &Store,
        rec: u32,
        fld: int,
        k: nat,
        v: nat,
    ) -> bool {
        &&& self.recs.len() == before.recs.len()
        &&& forall|r: int|
            0 <= r < self.recs.len() && r != rec ==> #[trigger] self.recs@[r] == before.recs@[r]
        &&& self.bytes(rec).len() == before.bytes(rec).len()
        &&& forall|i: int|
            0 <= i < self.bytes(rec).len() && !(fld <= i < fld + k) ==> #[trigger] self.bytes(rec)[i]
                == before.bytes(rec)[i]
        &&& self.raw(rec, fld, k) == v
    }

    /// An empty store.
    pub fn new_in_use() -> (store: Store)
        ensures
            store.recs.len() == 1,
            store.trees.len() == 0,
    {
        let mut recs: Vec<Vec<u8>> = Vec::new();
        recs.push(Vec::new());
        Store { recs, trees: Vec::new() }
    }

    /// Claim a fresh record of `words` words of eight bytes, all zero.
    pub fn claim(&mut self, words: u32) -> (rec: u32)
        requires
            0 < old(self).recs.len() < u32::MAX,
            8 * words <= usize::MAX,
        ensures
            rec as int == old(self).recs.len(),
            final(self).recs.len() == old(self).recs.len() + 1,
            forall|r: int|
                0 <= r < old(self).recs.len() ==> #[trigger] final(self).recs@[r] == old(self).recs@[r],
            final(self).bytes(rec) == Seq::new((8 * words) as nat, |i: int| 0u8),
            final(self).trees == old(self).trees,
    {
        let rec: u32 = self.recs.len() as u32;
        let size: usize = 8 * words as usize;
        let mut bytes: Vec<u8> = Vec::new();
        let mut i: usize = 0;
        while i < size
            invariant
                i <= size,
                size == 8 * words,
                bytes.len() == i,
                forall|j: int| 0 <= j < i ==> bytes[j] == 0,
            decreases size - i,
        {
            bytes.push(0);
            i = i + 1;
        }
        self.recs.push(bytes);
        assert(self.bytes(rec) =~= Seq::new((8 * words) as nat, |i: int| 0u8));
        rec
    }

    fn get_raw(&self, rec: u32, fld: u32, k: usize) -> (v: u64)
        requires
            k <= 8,
            self.holds(rec, fld as int, k as int),
        ensures
            v as nat == self.raw(rec, fld as int, k as nat),
            v < byte_limit(k as nat),
    {
        read_le(&self.recs[rec as usize], fld as usize, k)
    }

    fn set_raw(&mut self, rec: u32, fld: u32, k: usize, v: u64)
        requires
            k <= 8,
            old(self).holds(rec, fld as int, k as int),
            v < byte_limit(k as nat),
        ensures
            final(self).written(&*old(self), rec, fld as int, k as nat, v as nat),
    {
        let b: &mut Vec<u8> = &mut self.recs[rec as usize];
        write_le(b, fld as usize, k, v);
    }

    /// A 64-bit field.
    pub fn get_long(&self, rec: u32, fld: u32) -> (v: i64)
        requires
            self.holds(rec, fld as int, 8),
        ensures
            v == (self.raw(rec, fld as int, 8) as u64) as i64,
    {
        self.get_raw(rec, fld, 8) as i64
    }

    /// An integer field; it takes eight bytes.
    pub fn get_int(&self, rec: u32, fld: u32) -> (v: i64)
        requires
            self.holds(rec, fld as int, 8),
        ensures
            v == (self.raw(rec, fld as int, 8) as u64) as i64,
    {
        self.get_raw(rec, fld, 8) as i64
    }

    /// An unsigned field of four bytes.
    pub fn get_u32_raw(&self, rec: u32, fld: u32) -> (v: u32)
        requires
            self.holds(rec, fld as int, 4),
        ensures
            v as nat == self.raw(rec, fld as int, 4),
    {
        proof {
            reveal_with_fuel(byte_limit, 5);
        }
        self.get_raw(rec, fld, 4) as u32
    }

    /// A signed field of four bytes.
    pub fn get_i32_raw(&self, rec: u32, fld: u32) -> (v: i32)
        requires
            self.holds(rec, fld as int, 4),
        ensures
            v == (self.raw(rec, fld as int, 4) as u32) as i32,
    {
        self.get_u32_raw(rec, fld) as i32
    }

    /// A field of two bytes that reserves the raw value 0 for null: `start` is
    /// stored as 1.  Null reads as the least 32-bit integer.
    pub fn get_short(&self, rec: u32, fld: u32, start: i32) -> (v: i64)
        requires
            self.holds(rec, fld as int, 2),
        ensures
            self.raw(rec, fld as int, 2) == 0 ==> v == i32::MIN,
            self.raw(rec, fld as int, 2) != 0 ==> v == self.raw(rec, fld as int, 2) + start - 1,
    {
        proof {
            reveal_with_fuel(byte_limit, 3);
        }
        let raw: u64 = self.get_raw(rec, fld, 2);
        if raw == 0 {
            i32::MIN as i64
        } else {
            raw as i64 + start as i64 - 1
        }
    }

    /// A field of two bytes that holds the distance from `start`.
    pub fn get_short_full(&self, rec: u32, fld: u32, start: i32) -> (v: i64)
        requires
            self.holds(rec, fld as int, 2),
        ensures
            v == self.raw(rec, fld as int, 2) + start,
    {
        proof {
            reveal_with_fuel(byte_limit, 3);
        }
        self.get_raw(rec, fld, 2) as i64 + start as i64
    }

    /// A field of one byte that holds the distance from `start`.
    pub fn get_byte(&self, rec: u32, fld: u32, start: i32) -> (v: i64)
        requires
            self.holds(rec, fld as int, 1),
        ensures
            v == self.raw(rec, fld as int, 1) + start,
    {
        proof {
            reveal_with_fuel(byte_limit, 2);
        }
        self.get_raw(rec, fld, 1) as i64 + start as i64
    }

    /// Set a 64-bit field.
    pub fn set_long(&mut self, rec: u32, fld: u32, v: i64)
        requires
            old(self).holds(rec, fld as int, 8),
        ensures
            final(self).written(&*old(self), rec, fld as int, 8, (v as u64) as nat),
    {
        proof {
            reveal_with_fuel(byte_limit, 9);
        }
        self.set_raw(rec, fld, 8, v as u64);
    }

    /// Set an integer field.
    pub fn set_int(&mut self, rec: u32, fld: u32, v: i64)
        requires
            old(self).holds(rec, fld as int, 8),
        ensures
            final(self).written(&*old(self), rec, fld as int, 8, (v as u64) as nat),
    {
        self.set_long(rec, fld, v);
    }

    /// Set an unsigned field of four bytes.
    pub fn set_u32_raw(&mut self, rec: u32, fld: u32, v: u32)
        requires
            old(self).holds(rec, fld as int, 4),
        ensures
            final(self).written(&*old(self), rec, fld as int, 4, v as nat),
    {
        proof {
            reveal_with_fuel(byte_limit, 5);
        }
        self.set_raw(rec, fld, 4, v as u64);
    }

    /// Set a signed field of four bytes.
    pub fn set_i32_raw(&mut self, rec: u32, fld: u32, v: i32)
        requires
            old(self).holds(rec, fld as int, 4),
        ensures
            final(self).written(&*old(self), rec, fld as int, 4, (v as u32) as nat),
    {
        self.set_u32_raw(rec, fld, v as u32);
    }

    /// Set a null-reserving field of two bytes; `false`, and nothing written,
    /// when the value is out of its range.
    pub fn set_short(&mut self, rec: u32, fld: u32, start: i32, v: i64) -> (fits: bool)
        requires
            old(self).holds(rec, fld as int, 2),
        ensures
            fits == (0 <= v - start <= 0xfffe),
            fits ==> final(self).written(
                &*old(self),
                rec,
                fld as int,
                2,
                (v - start + 1) as nat,
            ),
            !fits ==> *final(self) == *old(self),
    {
        proof {
            reveal_with_fuel(byte_limit, 3);
        }
        if v < start as i64 || v > start as i64 + 0xfffe {
            return false;
        }
        self.set_raw(rec, fld, 2, (v - start as i64 + 1) as u64);
        true
    }

    /// Set a field of two bytes to a distance from `start`; `false`, and nothing
    /// written, when the value is out of its range.
    pub fn set_short_full(&mut self, rec: u32, fld: u32, start: i32, v: i64) -> (fits: bool)
        requires
            old(self).holds(rec, fld as int, 2),
        ensures
            fits == (0 <= v - start <= 0xffff),
            fits ==> final(self).written(&*old(self), rec, fld as int, 2, (v - start) as nat),
            !fits ==> *final(self) == *old(self),
    {
        proof {
            reveal_with_fuel(byte_limit, 3);
        }
        if v < start as i64 || v > start as i64 + 0xffff {
            return false;
        }
        self.set_raw(rec, fld, 2, (v - start as i64) as u64);
        true
    }

    /// Set a field of one byte to a distance from `start`; `false`, and nothing
    /// written, when the value is out of its range.
    pub fn set_byte(&mut self, rec: u32, fld: u32, start: i32, v: i64) -> (fits: bool)
        requires
            old(self).holds(rec, fld as int, 1),
        ensures
            fits == (0 <= v - start <= 0xff),
            fits ==> final(self).written(&*old(self), rec, fld as int, 1, (v - start) as nat),
            !fits ==> *final(self) == *old(self),
    {
        proof {
            reveal_with_fuel(byte_limit, 2);
        }
        if v < start as i64 || v > start as i64 + 0xff {
            return false;
        }
        self.set_raw(rec, fld, 1, (v - start as i64) as u64);
        true
    }
}

} // verus!
