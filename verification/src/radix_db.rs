//! Spatial collections: records found by the composite code of their
//! coordinates.
//!
//! A collection is a slot in a record that names an index of its store.  The
//! index holds the records in the order of their composite codes, records of
//! one code in the order of their numbers.

use crate::keys::{Content, Key};
use crate::morton::{self, bigmin, code_abs_diff, code_gt, morton_words, no_axes, AXIS_BITS, MAX_AXES};
use crate::radix_tree::{Entry, RadixTree};
use crate::store::{DbRef, Store};
use crate::walks;
use vstd::prelude::*;

verus! {

/// Where the payload of a record starts.
pub const PAYLOAD: u32 = 8;

/// The code of a coordinate: the coordinate moved up so that the least one is
/// zero, which keeps the order and leaves no negative numbers.
pub open spec fn coord(v: i64) -> u64 {
    (v + 0x8000_0000_0000_0000) as u64
}

/// The coordinate that `key` names in record `rec`.
pub open spec fn axis(store: &Store, rec: u32, key: Key) -> i64 {
    let raw = store.raw(rec, PAYLOAD + key.position, key.width() as nat);
    if key.kind() == 8 {
        (raw as u32) as i32 as i64
    } else if key.kind() == 12 {
        raw as i64
    } else if key.kind() == 9 {
        if raw == 0 {
            i32::MIN as i64
        } else {
            (raw + key.start - 1) as i64
        }
    } else if key.kind() == 10 || key.kind() == 11 {
        (raw + key.start) as i64
    } else {
        (raw as u64) as i64
    }
}

/// Record `rec` exists and holds every key field.
pub open spec fn keyed_record(store: &Store, rec: u32, keys: Seq<Key>) -> bool {
    0 < rec < store.recs.len() && forall|a: int|
        0 <= a < keys.len() ==> store.holds(
            rec,
            PAYLOAD + (#[trigger] keys[a]).position,
            keys[a].width(),
        )
}

/// The axis codes of a record; the axes past the last key are zero.
pub open spec fn axes(store: &Store, rec: u32, keys: Seq<Key>) -> Seq<u64> {
    Seq::new(
        MAX_AXES as nat,
        |a: int|
            if a < keys.len() {
                coord(axis(store, rec, keys[a]))
            } else {
                0
            },
    )
}

/// The composite code of a record.
pub open spec fn code(store: &Store, rec: u32, keys: Seq<Key>) -> nat {
    morton::morton(axes(store, rec, keys), keys.len() as int)
}

/// The axis codes of a point given by its coordinates.
pub open spec fn point(p: Seq<i64>, n: int) -> Seq<u64> {
    Seq::new(
        MAX_AXES as nat,
        |a: int|
            if a < n {
                coord(p[a])
            } else {
                0
            },
    )
}

/// The coordinate of record `rec` on every axis lies between those of the two
/// corners, whichever of them is the lower.
pub open spec fn inside(
    store: &Store,
    rec: u32,
    keys: Seq<Key>,
    from: Seq<i64>,
    till: Seq<i64>,
) -> bool {
    forall|a: int|
        #![trigger keys[a]]
        0 <= a < keys.len() ==> {
            let v = axis(store, rec, keys[a]);
            (from[a] <= v <= till[a]) || (till[a] <= v <= from[a])
        }
}

/// The index number in the slot of a collection; 0 is no index.
pub open spec fn tree_nr(store: &Store, coll: DbRef) -> nat {
    store.raw(coll.rec, coll.pos as int, 4)
}

/// The index holds existing records under their own codes, in order.
pub open spec fn indexes(store: &Store, tree: &RadixTree, keys: Seq<Key>) -> bool {
    &&& keys.len() <= MAX_AXES
    &&& tree.sorted(keys.len() as int)
    &&& tree.entries.len() <= u32::MAX
    &&& forall|i: int|
        0 <= i < tree.entries.len() ==> keyed_record(store, (#[trigger] tree.entries@[i]).rec, keys)
            && tree.entries@[i].code(keys.len() as int) == code(store, tree.entries@[i].rec, keys)
}

/// The slot of a collection exists and names no index or one that indexes the
/// store's records by `keys`.
pub open spec fn valid(store: &Store, coll: DbRef, keys: Seq<Key>) -> bool {
    &&& store.holds(coll.rec, coll.pos as int, 4)
    &&& keys.len() <= MAX_AXES
    &&& tree_nr(store, coll) <= store.trees.len()
    &&& tree_nr(store, coll) > 0 ==> indexes(
        store,
        &store.trees@[tree_nr(store, coll) - 1],
        keys,
    )
}

/// The records of a collection in order.
pub open spec fn members(store: &Store, coll: DbRef) -> Seq<u32> {
    if tree_nr(store, coll) == 0 {
        Seq::empty()
    } else {
        store.trees@[tree_nr(store, coll) - 1].recs()
    }
}

/// The first `cap` elements of `s`, or all of them.
pub open spec fn capped(s: Seq<u32>, cap: Option<usize>) -> Seq<u32> {
    match cap {
        Some(c) if c < s.len() => s.take(c as int),
        _ => s,
    }
}

/// The coordinate of a record on an axis, as it is stored.
pub fn axis_i64(store: &Store, rec: u32, key: &Key) -> (v: i64)
    requires
        store.holds(rec, PAYLOAD + key.position, key.width()),
    ensures
        v == axis(store, rec, *key),
{
    let p: u32 = PAYLOAD + key.position as u32;
    let kind: u8 = key.storage_kind();
    if kind == 2 {
        store.get_long(rec, p)
    } else if kind == 8 {
        store.get_i32_raw(rec, p) as i64
    } else if kind == 12 {
        store.get_u32_raw(rec, p) as i64
    } else if kind == 9 {
        store.get_short(rec, p, key.start)
    } else if kind == 10 {
        store.get_byte(rec, p, key.start)
    } else if kind == 11 {
        store.get_short_full(rec, p, key.start)
    } else {
        store.get_int(rec, p)
    }
}

/// The order-keeping code of a coordinate: its bits with the sign bit turned.
pub fn coord_code(v: i64) -> (c: u64)
    ensures
        c == coord(v),
{
    assert((v as u64) ^ (1u64 << 63) == (v + 0x8000_0000_0000_0000) as u64) by (bit_vector);
    (v as u64) ^ (1u64 << 63)
}

/// Codes of coordinates are ordered as the coordinates are.
pub proof fn coord_keeps_order(v: i64, w: i64)
    ensures
        v < w <==> coord(v) < coord(w),
        v == w <==> coord(v) == coord(w),
{
}

/// The code of the coordinate of a record on an axis.
pub fn axis_code(store: &Store, rec: u32, key: &Key) -> (c: u64)
    requires
        store.holds(rec, PAYLOAD + key.position, key.width()),
    ensures
        c == coord(axis(store, rec, *key)),
{
    coord_code(axis_i64(store, rec, key))
}

/// The axis code that an integer looked up stands for.
pub open spec fn probe(c: Content) -> u64
    recommends
        c is Long,
{
    match c {
        Content::Long(v) => coord(v),
        _ => 0,
    }
}

fn probe_code(c: &Content) -> (code: Option<u64>)
    ensures
        code == if *c is Long {
            Some(probe(*c))
        } else {
            None
        },
{
    match c {
        Content::Long(v) => Some(coord_code(*v)),
        _ => None,
    }
}

fn record_axes(store: &Store, rec: u32, keys: &[Key]) -> (out: [u64; MAX_AXES])
    requires
        keys.len() <= MAX_AXES,
        keyed_record(store, rec, keys@),
    ensures
        out@ == axes(store, rec, keys@),
{
    let mut out: [u64; MAX_AXES] = no_axes();
    let mut a: usize = 0;
    while a < keys.len()
        invariant
            a <= keys.len() <= MAX_AXES,
            keyed_record(store, rec, keys@),
            forall|i: int| 0 <= i < a ==> out[i] == coord(axis(store, rec, keys@[i])),
            forall|i: int| a <= i < MAX_AXES ==> out[i] == 0,
        decreases keys.len() - a,
    {
        out[a] = axis_code(store, rec, &keys[a]);
        a = a + 1;
    }
    assert(out@ =~= axes(store, rec, keys@));
    out
}

fn point_codes(p: &[i64], n: usize) -> (out: [u64; MAX_AXES])
    requires
        n <= MAX_AXES,
        n <= p.len(),
    ensures
        out@ == point(p@, n as int),
{
    let mut out: [u64; MAX_AXES] = no_axes();
    let mut a: usize = 0;
    while a < n
        invariant
            a <= n <= MAX_AXES,
            n <= p.len(),
            forall|i: int| 0 <= i < a ==> out[i] == coord(p@[i]),
            forall|i: int| a <= i < MAX_AXES ==> out[i] == 0,
        decreases n - a,
    {
        out[a] = coord_code(p[a]);
        a = a + 1;
    }
    assert(out@ =~= point(p@, n as int));
    out
}

/// How many bits the composite code of `keys` has.
pub fn key_bits(keys: &[Key]) -> (bits: u32)
    requires
        keys.len() <= MAX_AXES,
    ensures
        bits == 64 * keys.len(),
{
    AXIS_BITS * keys.len() as u32
}


/// The code that a lookup compares with the codes over `n` axes.
pub open spec fn probe_value(key: Seq<Content>, n: int) -> nat {
    morton::words_value(
        morton::words_of(
            Seq::new(
                MAX_AXES as nat,
                |a: int|
                    if a < key.len() {
                        probe(key[a])
                    } else {
                        0
                    },
            ),
            key.len() as int,
        ),
        n,
    )
}

/// Whether the trees of a store are as they were, but for `tree` and new ones.
pub open spec fn other_trees_kept(was: &Store, now: &Store, tree: nat) -> bool {
    &&& was.trees.len() <= now.trees.len()
    &&& forall|i: int|
        0 <= i < was.trees.len() && i + 1 != tree ==> #[trigger] now.trees@[i] == was.trees@[i]
}

/// Enter record `rec` into the collection; a record that is in it stays once.
pub fn add(coll: &DbRef, rec: &DbRef, stores: &mut [Store], keys: &[Key])
    requires
        coll.store_nr < old(stores).len(),
        valid(&old(stores)@[coll.store_nr as int], *coll, keys@),
        keyed_record(&old(stores)@[coll.store_nr as int], rec.rec, keys@),
        old(stores)@[coll.store_nr as int].trees.len() < u32::MAX,
        members(&old(stores)@[coll.store_nr as int], *coll).len() < u32::MAX,
    ensures
        final(stores).len() == old(stores).len(),
        forall|i: int|
            0 <= i < old(stores).len() && i != coll.store_nr ==> #[trigger] final(stores)@[i]
                == old(stores)@[i],
        ({
            let was = old(stores)@[coll.store_nr as int];
            let now = final(stores)@[coll.store_nr as int];
            &&& valid(&now, *coll, keys@)
            &&& other_trees_kept(&was, &now, tree_nr(&now, *coll))
            &&& now.trees.len() == was.trees.len() + if tree_nr(&was, *coll) == 0 {
                1int
            } else {
                0
            }
            &&& tree_nr(&was, *coll) != 0 ==> now.recs == was.recs
            &&& tree_nr(&was, *coll) == 0 ==> now.recs_written(
                &was,
                coll.rec,
                coll.pos as int,
                4,
                (was.trees.len() + 1) as nat,
            )
            &&& members(&was, *coll).contains(rec.rec) ==> members(&now, *coll) == members(
                &was,
                *coll,
            )
            &&& !members(&was, *coll).contains(rec.rec) ==> exists|at: int|
                0 <= at <= members(&was, *coll).len() && members(&now, *coll)
                    == #[trigger] members(&was, *coll).insert(at, rec.rec)
        }),
{
    let n: usize = keys.len();
    let ghost was = stores@[coll.store_nr as int];
    let store: &mut Store = &mut stores[coll.store_nr as usize];
    let mut tree: u32 = store.get_u32_raw(coll.rec, coll.pos);
    if tree == 0 {
        tree = store.trees.len() as u32 + 1;
        store.set_u32_raw(coll.rec, coll.pos, tree);
        store.trees.push(RadixTree::new());
    }
    let ghost mid = *store;
    proof {
        if tree_nr(&was, *coll) == 0 {
            assert(keyed_record(&mid, rec.rec, keys@)) by {
                assert forall|a: int| 0 <= a < keys@.len() implies mid.holds(
                    rec.rec,
                    PAYLOAD + (#[trigger] keys@[a]).position,
                    keys@[a].width(),
                ) by {
                    assert(was.holds(rec.rec, PAYLOAD + keys@[a].position, keys@[a].width()));
                    assert(mid.recs@[rec.rec as int]@.len() == was.recs@[rec.rec as int]@.len());
                }
            }
            assert(members(&was, *coll) =~= mid.trees@[tree - 1].recs());
        }
    }
    let own: [u64; MAX_AXES] = record_axes(store, rec.rec, keys);
    let words: [u64; MAX_AXES] = morton_words(n, &own);
    let t: &mut RadixTree = &mut store.trees[(tree - 1) as usize];
    let ghost entries = t.entries@;
    t.insert(&words, rec.rec, n);
    proof {
        let now = *store;
        let entry = Entry { words, rec: rec.rec };
        let after = now.trees@[tree - 1].entries@;
        lemma_same_records(&mid, &now, keys@);
        assert(tree_nr(&now, *coll) == tree);
        let old_members = members(&was, *coll);
        if old_members.contains(rec.rec) {
            let i = choose|i: int| 0 <= i < old_members.len() && old_members[i] == rec.rec;
            assert(entries[i].rec == rec.rec);
            assert(entries[i].code(n as int) == code(&mid, rec.rec, keys@));
            assert(members(&now, *coll) =~= old_members);
        } else {
            assert forall|i: int| 0 <= i < entries.len() implies (#[trigger] entries[i]).rec
                != rec.rec by {
                assert(old_members[i] == entries[i].rec);
            }
            let at = choose|at: int|
                0 <= at <= entries.len() && after == #[trigger] entries.insert(at, entry);
            assert(members(&now, *coll) =~= old_members.insert(at, rec.rec));
            assert forall|i: int| 0 <= i < after.len() implies keyed_record(
                &now,
                (#[trigger] after[i]).rec,
                keys@,
            ) && after[i].code(n as int) == code(&now, after[i].rec, keys@) by {
                let j = if i < at { i } else { i - 1 };
                if i != at {
                    assert(after[i] == entries[j]);
                }
            }
        }
        assert(indexes(&now, &now.trees@[tree - 1], keys@));
    }
}

/// Two stores with the same records give a record the same axes.
proof fn lemma_same_records(a: &Store, b: &Store, keys: Seq<Key>)
    requires
        a.recs == b.recs,
    ensures
        forall|rec: u32| keyed_record(a, rec, keys) == #[trigger] keyed_record(b, rec, keys),
        forall|rec: u32| code(a, rec, keys) == #[trigger] code(b, rec, keys),
{
    assert forall|rec: u32| code(a, rec, keys) == #[trigger] code(b, rec, keys) by {
        assert(axes(a, rec, keys) =~= axes(b, rec, keys));
    }
    assert forall|rec: u32| keyed_record(a, rec, keys) == #[trigger] keyed_record(b, rec, keys) by {
        assert forall|i: int| 0 <= i < keys.len() implies a.holds(
            rec,
            PAYLOAD + (#[trigger] keys[i]).position,
            keys[i].width(),
        ) == b.holds(rec, PAYLOAD + keys[i].position, keys[i].width()) by {}
    }
}

/// Take record `rec` out of the collection; `false` when it is not in it.
pub fn remove(coll: &DbRef, rec: &DbRef, stores: &mut [Store], keys: &[Key]) -> (gone: bool)
    requires
        coll.store_nr < old(stores).len(),
        valid(&old(stores)@[coll.store_nr as int], *coll, keys@),
        keyed_record(&old(stores)@[coll.store_nr as int], rec.rec, keys@),
    ensures
        final(stores).len() == old(stores).len(),
        forall|i: int|
            0 <= i < old(stores).len() && i != coll.store_nr ==> #[trigger] final(stores)@[i]
                == old(stores)@[i],
        ({
            let was = old(stores)@[coll.store_nr as int];
            let now = final(stores)@[coll.store_nr as int];
            &&& valid(&now, *coll, keys@)
            &&& other_trees_kept(&was, &now, tree_nr(&now, *coll))
            &&& now.trees.len() == was.trees.len()
            &&& now.recs == was.recs
            &&& gone == members(&was, *coll).contains(rec.rec)
            &&& !gone ==> members(&now, *coll) == members(&was, *coll)
            &&& gone ==> exists|at: int|
                0 <= at < members(&was, *coll).len() && members(&was, *coll)[at] == rec.rec
                    && members(&now, *coll) == #[trigger] members(&was, *coll).remove(at)
        }),
{
    let n: usize = keys.len();
    let ghost was = stores@[coll.store_nr as int];
    let store: &mut Store = &mut stores[coll.store_nr as usize];
    let tree: u32 = store.get_u32_raw(coll.rec, coll.pos);
    if tree == 0 {
        return false;
    }
    let own: [u64; MAX_AXES] = record_axes(store, rec.rec, keys);
    let words: [u64; MAX_AXES] = morton_words(n, &own);
    let t: &mut RadixTree = &mut store.trees[(tree - 1) as usize];
    let ghost entries = t.entries@;
    let gone: bool = t.remove(&words, rec.rec, n);
    proof {
        let now = *store;
        let after = now.trees@[tree - 1].entries@;
        lemma_same_records(&was, &now, keys@);
        let old_members = members(&was, *coll);
        if gone {
            let at = choose|at: int|
                0 <= at < entries.len() && entries[at].rec == rec.rec && after
                    == #[trigger] entries.remove(at);
            assert(old_members[at] == rec.rec);
            assert(members(&now, *coll) =~= old_members.remove(at));
            assert forall|i: int| 0 <= i < after.len() implies keyed_record(
                &now,
                (#[trigger] after[i]).rec,
                keys@,
            ) && after[i].code(n as int) == code(&now, after[i].rec, keys@) by {
                let j = if i < at { i } else { i + 1 };
                assert(after[i] == entries[j]);
            }
        } else {
            assert(members(&now, *coll) =~= old_members);
            if old_members.contains(rec.rec) {
                let i = choose|i: int| 0 <= i < old_members.len() && old_members[i] == rec.rec;
                assert(entries[i].rec == rec.rec);
                assert(entries[i].code(n as int) == code(&was, rec.rec, keys@));
            }
        }
        assert(indexes(&now, &now.trees@[tree - 1], keys@));
    }
    gone
}

/// Whether a lookup asks for something that no axis holds: all axes are integers.
pub open spec fn unanswerable(key: Seq<Content>) -> bool {
    exists|a: int| 0 <= a < key.len() && !(#[trigger] key[a] is Long)
}

/// The first record in order whose code is that of `key`; record 0 when there
/// is none.  A value that is no integer is the coordinate of no record.
#[must_use]
pub fn find(coll: &DbRef, stores: &[Store], keys: &[Key], key: &[Content]) -> (found: DbRef)
    requires
        coll.store_nr < stores.len(),
        valid(&stores@[coll.store_nr as int], *coll, keys@),
        key.len() <= MAX_AXES,
    ensures
        found.store_nr == coll.store_nr,
        found.pos == PAYLOAD,
        ({
            let store = stores@[coll.store_nr as int];
            let all = members(&store, *coll);
            let wanted = probe_value(key@, keys.len() as int);
            &&& unanswerable(key@) ==> found.rec == 0
            &&& !unanswerable(key@) && found.rec == 0 ==> forall|i: int|
                0 <= i < all.len() ==> code(&store, #[trigger] all[i], keys@) != wanted
            &&& found.rec != 0 ==> exists|at: int|
                0 <= at < all.len() && #[trigger] all[at] == found.rec && code(
                    &store,
                    found.rec,
                    keys@,
                ) == wanted && forall|i: int|
                    0 <= i < at ==> code(&store, #[trigger] all[i], keys@) != wanted
        }),
{
    let store: &Store = &stores[coll.store_nr as usize];
    let n: usize = keys.len();
    let tree: u32 = store.get_u32_raw(coll.rec, coll.pos);
    if tree == 0 {
        return DbRef { store_nr: coll.store_nr, rec: 0, pos: PAYLOAD };
    }
    let mut codes: [u64; MAX_AXES] = no_axes();
    let mut a: usize = 0;
    while a < key.len()
        invariant
            a <= key.len() <= MAX_AXES,
            forall|i: int| 0 <= i < a ==> codes[i] == probe(key@[i]) && (#[trigger] key@[i] is Long),
            forall|i: int| a <= i < MAX_AXES ==> codes[i] == 0,
        decreases key.len() - a,
    {
        codes[a] = match probe_code(&key[a]) {
            Some(c) => c,
            None => {
                assert(!(key@[a as int] is Long));
                return DbRef { store_nr: coll.store_nr, rec: 0, pos: PAYLOAD };
            },
        };
        a = a + 1;
    }
    proof {
        assert(codes@ =~= Seq::new(
            MAX_AXES as nat,
            |a: int|
                if a < key.len() {
                    probe(key@[a])
                } else {
                    0
                },
        ));
    }
    let words: [u64; MAX_AXES] = morton_words(key.len(), &codes);
    let t: &RadixTree = &store.trees[(tree - 1) as usize];
    let at: usize = t.seek(&words, n);
    let mut rec: u32 = 0;
    proof {
        assert forall|i: int| 0 <= i < t.entries.len() implies #[trigger] code(
            store,
            members(store, *coll)[i],
            keys@,
        ) == t.entries@[i].code(n as int) by {}
    }
    if at < t.entries.len() && !code_gt(&t.entries[at].words, &words, n) {
        rec = t.entries[at].rec;
        proof {
            assert(members(store, *coll)[at as int] == rec);
            assert(keyed_record(store, t.entries@[at as int].rec, keys@));
        }
    } else {
        proof {
            assert forall|i: int| 0 <= i < t.entries.len() implies code(
                store,
                #[trigger] members(store, *coll)[i],
                keys@,
            ) != probe_value(key@, n as int) by {
                if i > at {
                    assert(t.entries@[at as int].before(&t.entries@[i], n as int));
                }
            }
        }
    }
    DbRef { store_nr: coll.store_nr, rec, pos: PAYLOAD }
}

/// How many records the collection holds.
#[must_use]
pub fn count(coll: &DbRef, stores: &[Store]) -> (total: u32)
    requires
        coll.store_nr < stores.len(),
        stores@[coll.store_nr as int].holds(coll.rec, coll.pos as int, 4),
        tree_nr(&stores@[coll.store_nr as int], *coll) <= stores@[coll.store_nr as int].trees.len(),
        members(&stores@[coll.store_nr as int], *coll).len() <= u32::MAX,
    ensures
        total == members(&stores@[coll.store_nr as int], *coll).len(),
{
    let store: &Store = &stores[coll.store_nr as usize];
    let tree: u32 = store.get_u32_raw(coll.rec, coll.pos);
    if tree == 0 {
        0
    } else {
        store.trees[(tree - 1) as usize].entries.len() as u32
    }
}

/// The records of the collection in order.
#[must_use]
pub fn records(coll: &DbRef, stores: &[Store]) -> (out: Vec<u32>)
    requires
        coll.store_nr < stores.len(),
        stores@[coll.store_nr as int].holds(coll.rec, coll.pos as int, 4),
        tree_nr(&stores@[coll.store_nr as int], *coll) <= stores@[coll.store_nr as int].trees.len(),
    ensures
        out@ == members(&stores@[coll.store_nr as int], *coll),
{
    let store: &Store = &stores[coll.store_nr as usize];
    let tree: u32 = store.get_u32_raw(coll.rec, coll.pos);
    let mut out: Vec<u32> = Vec::new();
    if tree != 0 {
        let t: &RadixTree = &store.trees[(tree - 1) as usize];
        let mut i: usize = 0;
        while i < t.entries.len()
            invariant
                i <= t.entries.len(),
                out@ == t.recs().take(i as int),
            decreases t.entries.len() - i,
        {
            out.push(t.entries[i].rec);
            assert(out@ =~= t.recs().take(i + 1));
            i = i + 1;
        }
        assert(out@ =~= t.recs());
    }
    out
}


/// Whether record `rec` lies in the box between two corners; which corner is
/// written first does not matter.
#[must_use]
pub fn in_box(store: &Store, rec: u32, keys: &[Key], from: &[i64], till: &[i64]) -> (within: bool)
    requires
        keyed_record(store, rec, keys@),
        keys.len() <= from.len(),
        keys.len() <= till.len(),
    ensures
        within == inside(store, rec, keys@, from@, till@),
{
    let mut a: usize = 0;
    while a < keys.len()
        invariant
            a <= keys.len(),
            keyed_record(store, rec, keys@),
            keys.len() <= from.len(),
            keys.len() <= till.len(),
            forall|i: int|
                #![trigger keys@[i]]
                0 <= i < a ==> {
                    let v = axis(store, rec, keys@[i]);
                    (from@[i] <= v <= till@[i]) || (till@[i] <= v <= from@[i])
                },
        decreases keys.len() - a,
    {
        let v: i64 = axis_i64(store, rec, &keys[a]);
        let (lo, hi): (i64, i64) = if from[a] <= till[a] {
            (from[a], till[a])
        } else {
            (till[a], from[a])
        };
        if v < lo || v > hi {
            assert(!({
                let w = axis(store, rec, keys@[a as int]);
                (from@[a as int] <= w <= till@[a as int]) || (till@[a as int] <= w
                    <= from@[a as int])
            }));
            return false;
        }
        a = a + 1;
    }
    true
}

/// Whether the code of a record lies from `lo` on and, where there is a `hi`,
/// up to it.
pub open spec fn in_interval(
    store: &Store,
    keys: Seq<Key>,
    lo: nat,
    hi: Option<nat>,
) -> spec_fn(u32) -> bool {
    |rec: u32|
        lo <= code(store, rec, keys) && match hi {
            Some(h) => code(store, rec, keys) <= h,
            None => true,
        }
}

/// The code of the point that a range ends at.
pub open spec fn end_code(till: Option<&[i64]>, n: int) -> Option<nat> {
    match till {
        Some(t) => Some(morton::morton(point(t@, n), n)),
        None => None,
    }
}

/// The records of the collection whose codes lie between those of two points,
/// in order; with a limit, the first of them.
#[must_use]
pub fn range(
    coll: &DbRef,
    stores: &[Store],
    keys: &[Key],
    from: &[i64],
    till: Option<&[i64]>,
    limit: Option<usize>,
) -> (out: Vec<u32>)
    requires
        coll.store_nr < stores.len(),
        valid(&stores@[coll.store_nr as int], *coll, keys@),
        keys.len() <= from.len(),
        till matches Some(t) ==> keys.len() <= t.len(),
    ensures
        ({
            let store = stores@[coll.store_nr as int];
            let n = keys.len() as int;
            out@ == capped(
                members(&store, *coll).filter(
                    in_interval(
                        &store,
                        keys@,
                        morton::morton(point(from@, n), n),
                        end_code(till, n),
                    ),
                ),
                limit,
            )
        }),
{
    let store: &Store = &stores[coll.store_nr as usize];
    let tree: u32 = store.get_u32_raw(coll.rec, coll.pos);
    let n: usize = keys.len();
    let ghost lo = morton::morton(point(from@, n as int), n as int);
    let ghost hi = end_code(till, n as int);
    let ghost all = members(store, *coll);
    let ghost pred = in_interval(store, keys@, lo, hi);
    let mut out: Vec<u32> = Vec::new();
    if tree == 0 {
        proof {
            walks::filter_empty(pred);
        }
        return out;
    }
    let t: &RadixTree = &store.trees[(tree - 1) as usize];
    let start: [u64; MAX_AXES] = point_codes(from, n);
    let probe: [u64; MAX_AXES] = morton_words(n, &start);
    let mut till_code: Option<[u64; MAX_AXES]> = None;
    if let Some(p) = till {
        let end: [u64; MAX_AXES] = point_codes(p, n);
        till_code = Some(morton_words(n, &end));
    }
    let mut i: usize = t.seek(&probe, n);
    let cap: usize = match limit {
        Some(c) => c,
        None => usize::MAX,
    };
    proof {
        walks::filter_skip(all, pred, 0, i as int);
        walks::filter_empty(pred);
        assert(all.take(0) =~= Seq::<u32>::empty());
        assert(all.take(all.len() as int) =~= all);
    }
    while i < t.entries.len() && out.len() < cap
        invariant_except_break
            out@ == all.take(i as int).filter(pred),
        invariant
            n == keys.len(),
            n <= MAX_AXES,
            i <= t.entries.len(),
            indexes(store, t, keys@),
            all == t.recs(),
            all.take(all.len() as int) == all,
            pred == in_interval(store, keys@, lo, hi),
            hi is Some <==> till_code is Some,
            till_code matches Some(w) ==> hi == Some(morton::words_value(w@, n as int)),
            forall|j: int|
                i <= j < t.entries.len() ==> (#[trigger] t.entries@[j]).code(n as int) >= lo,
            out.len() <= cap,
        ensures
            out@ == all.take(i as int).filter(pred),
            out.len() >= cap || all.filter(pred) == out@,
        decreases t.entries.len() - i,
    {
        let rec: u32 = t.entries[i].rec;
        assert(all[i as int] == rec);
        if let Some(w) = &till_code {
            let own: [u64; MAX_AXES] = record_axes(store, rec, keys);
            let rec_code: [u64; MAX_AXES] = morton_words(n, &own);
            if code_gt(&rec_code, w, n) {
                proof {
                    assert forall|j: int| i <= j < all.len() implies !pred(#[trigger] all[j]) by {
                        assert(t.entries@[j].code(n as int) == code(store, all[j], keys@));
                        if j > i {
                            assert(t.entries@[i as int].before(&t.entries@[j], n as int));
                        }
                    }
                    walks::filter_skip(all, pred, i as int, all.len() as int);
                }
                break;
            }
        }
        proof {
            assert(t.entries@[i as int].code(n as int) == code(store, rec, keys@));
            walks::filter_step(all, pred, i as int);
        }
        out.push(rec);
        i = i + 1;
    }
    proof {
        walks::filter_prefix(all, pred, i as int);
        assert(capped(all.filter(pred), limit) =~= out@);
    }
    out
}


/// How far the code of a record lies from `query`.
pub open spec fn gap(store: &Store, keys: Seq<Key>, query: nat) -> spec_fn(u32) -> nat {
    |rec: u32|
        if code(store, rec, keys) > query {
            (code(store, rec, keys) - query) as nat
        } else {
            (query - code(store, rec, keys)) as nat
        }
}

/// The first `b` records, taken from the last one down, and the records from `f`
/// on, merged by their gaps; of two equal gaps the one from below comes first.
pub open spec fn merge_by_gap(
    all: Seq<u32>,
    gap: spec_fn(u32) -> nat,
    b: int,
    f: int,
) -> Seq<u32>
    decreases (if b > 0 { b } else { 0 }) + (if f < all.len() { all.len() - f } else { 0 }),
{
    if b <= 0 && f >= all.len() {
        Seq::empty()
    } else if b <= 0 || (f < all.len() && gap(all[b - 1]) > gap(all[f])) {
        seq![all[f]] + merge_by_gap(all, gap, b, f + 1)
    } else {
        seq![all[b - 1]] + merge_by_gap(all, gap, b - 1, f)
    }
}

/// How many records have codes below `query`.
pub open spec fn below(store: &Store, keys: Seq<Key>, query: nat, all: Seq<u32>) -> int {
    all.filter(|rec: u32| code(store, rec, keys) < query).len() as int
}

/// The records of a collection by the distance of their codes from `query`.
pub open spec fn nearest(store: &Store, keys: Seq<Key>, query: nat, all: Seq<u32>) -> Seq<u32> {
    merge_by_gap(
        all,
        gap(store, keys, query),
        below(store, keys, query, all),
        below(store, keys, query, all),
    )
}

proof fn lemma_merge_len(all: Seq<u32>, gap: spec_fn(u32) -> nat, b: int, f: int)
    requires
        0 <= b <= f <= all.len(),
    ensures
        merge_by_gap(all, gap, b, f).len() == b + (all.len() - f),
    decreases b + (all.len() - f),
{
    if b <= 0 && f >= all.len() {
    } else if b <= 0 || (f < all.len() && gap(all[b - 1]) > gap(all[f])) {
        lemma_merge_len(all, gap, b, f + 1);
    } else {
        lemma_merge_len(all, gap, b - 1, f);
    }
}

/// The distance between the code of record `rec` and the code `query`.
fn record_gap(store: &Store, rec: u32, keys: &[Key], query: &[u64; MAX_AXES]) -> (words: [u64;
    MAX_AXES])
    requires
        keys.len() <= MAX_AXES,
        keyed_record(store, rec, keys@),
    ensures
        morton::words_value(words@, keys.len() as int) == gap(
            store,
            keys@,
            morton::words_value(query@, keys.len() as int),
        )(rec),
{
    let n: usize = keys.len();
    let own: [u64; MAX_AXES] = record_axes(store, rec, keys);
    let rec_code: [u64; MAX_AXES] = morton_words(n, &own);
    code_abs_diff(&rec_code, query, n)
}

/// The records of the collection by the distance of their codes from that of a
/// point, nearest first; with a limit, the first of them.
#[must_use]
pub fn near_range(
    coll: &DbRef,
    stores: &[Store],
    keys: &[Key],
    from: &[i64],
    limit: Option<usize>,
) -> (out: Vec<u32>)
    requires
        coll.store_nr < stores.len(),
        stores@[coll.store_nr as int].holds(coll.rec, coll.pos as int, 4),
        1 <= keys.len() <= MAX_AXES ==> valid(&stores@[coll.store_nr as int], *coll, keys@)
            && keys.len() <= from.len(),
    ensures
        ({
            let store = stores@[coll.store_nr as int];
            let n = keys.len() as int;
            if 1 <= n <= MAX_AXES {
                out@ == capped(
                    nearest(
                        &store,
                        keys@,
                        morton::morton(point(from@, n), n),
                        members(&store, *coll),
                    ),
                    limit,
                )
            } else {
                out@ == Seq::<u32>::empty()
            }
        }),
{
    let store: &Store = &stores[coll.store_nr as usize];
    let tree: u32 = store.get_u32_raw(coll.rec, coll.pos);
    let n: usize = keys.len();
    let mut out: Vec<u32> = Vec::new();
    if n == 0 || n > MAX_AXES {
        return out;
    }
    let start: [u64; MAX_AXES] = point_codes(from, n);
    let query: [u64; MAX_AXES] = morton_words(n, &start);
    let ghost q = morton::morton(point(from@, n as int), n as int);
    let ghost all = members(store, *coll);
    let ghost g = gap(store, keys@, q);
    let ghost lower = |rec: u32| code(store, rec, keys@) < q;
    if tree == 0 {
        proof {
            walks::filter_empty(lower);
        }
        return out;
    }
    let t: &RadixTree = &store.trees[(tree - 1) as usize];
    let mut fore: usize = t.seek(&query, n);
    let mut back: usize = fore;
    proof {
        assert forall|j: int| 0 <= j < all.len() implies #[trigger] lower(all[j]) == (j < fore) by {
            assert(t.entries@[j].code(n as int) == code(store, all[j], keys@));
        }
        walks::filter_skip(all, lower, fore as int, all.len() as int);
        walks::filter_keep(all, lower, fore as int);
        assert(all.take(all.len() as int) =~= all);
        assert(below(store, keys@, q, all) == fore);
    }
    let cap: usize = match limit {
        Some(c) => c,
        None => usize::MAX,
    };
    let ghost whole = merge_by_gap(all, g, fore as int, fore as int);
    assert(whole =~= out@ + merge_by_gap(all, g, back as int, fore as int));
    while out.len() < cap && (back > 0 || fore < t.entries.len())
        invariant
            n == keys.len(),
            1 <= n <= MAX_AXES,
            indexes(store, t, keys@),
            all == t.recs(),
            q == morton::words_value(query@, n as int),
            g == gap(store, keys@, q),
            back <= fore <= t.entries.len(),
            out.len() <= cap,
            whole == out@ + merge_by_gap(all, g, back as int, fore as int),
            out.len() + back + (t.entries.len() - fore) == t.entries.len(),
        decreases back + (t.entries.len() - fore),
    {
        let mut forward: bool = back == 0;
        if back > 0 && fore < t.entries.len() {
            assert(t.entries@[back - 1].rec == all[back - 1]);
            assert(t.entries@[fore as int].rec == all[fore as int]);
            let low: [u64; MAX_AXES] = record_gap(store, t.entries[back - 1].rec, keys, &query);
            let high: [u64; MAX_AXES] = record_gap(store, t.entries[fore].rec, keys, &query);
            forward = code_gt(&low, &high, n);
        }
        let ghost was = out@;
        if forward {
            out.push(t.entries[fore].rec);
            fore = fore + 1;
        } else {
            back = back - 1;
            out.push(t.entries[back].rec);
        }
        assert(was + (seq![out@.last()] + merge_by_gap(all, g, back as int, fore as int)) =~= out@
            + merge_by_gap(all, g, back as int, fore as int));
    }
    proof {
        lemma_merge_len(all, g, back as int, fore as int);
        assert(capped(whole, limit) =~= out@);
    }
    out
}

/// A source of indexed records for a box walk.
pub trait BoxNodes {
    /// The index that is walked.
    spec fn index(&self) -> RadixTree;

    /// The axis codes of a record.
    spec fn axes_at(&self, rec: u32) -> Seq<u64>;

    /// The index holds its records over `n` axes, and they can be read.
    spec fn ready(&self, n: int) -> bool;

    /// The records whose axes were read so far, in the order of the reads.
    spec fn reads(&self) -> Seq<u32>;

    /// The records that were looked at so far: those whose axes were read, and those that
    /// a seek landed on.
    spec fn touched(&self) -> Seq<u32>;

    /// A source that is ready has its records in the order of their codes.
    proof fn ready_is_ordered(&self, n: int)
        requires
            self.ready(n),
        ensures
            self.index().sorted(n),
            self.index().entries.len() <= u32::MAX,
            forall|i: int|
                0 <= i < self.index().entries.len() ==> (#[trigger] self.index().entries@[i]).code(n)
                    == morton::morton(self.axes_at(self.index().entries@[i].rec), n)
                    && self.index().entries@[i].rec != 0,
    ;

    /// How many records the index holds.
    fn len(&mut self) -> (total: u32)
        requires
            exists|n: int| old(self).ready(n),
        ensures
            final(self).same_as(&*old(self)),
            final(self).reads() == old(self).reads(),
            final(self).touched() == old(self).touched(),
            total == old(self).index().entries.len(),
    ;

    /// Where the entries from code `probe` on start.
    fn seek(&mut self, probe: &[u64; MAX_AXES], n: usize) -> (at: usize)
        requires
            n <= MAX_AXES,
            old(self).ready(n as int),
        ensures
            final(self).same_as(&*old(self)),
            final(self).reads() == old(self).reads(),
            final(self).touched() == if at < old(self).index().entries.len() {
                old(self).touched().push(old(self).index().entries@[at as int].rec)
            } else {
                old(self).touched()
            },
            at <= old(self).index().entries.len(),
            forall|i: int|
                0 <= i < at ==> (#[trigger] old(self).index().entries@[i]).code(n as int)
                    < morton::words_value(probe@, n as int),
            forall|i: int|
                at <= i < old(self).index().entries.len() ==> (#[trigger] old(
                    self,
                ).index().entries@[i]).code(n as int) >= morton::words_value(probe@, n as int),
    ;

    /// The record of the entry at `at`.
    fn rec_at(&mut self, at: usize) -> (rec: u32)
        requires
            at < old(self).index().entries.len(),
        ensures
            final(self).same_as(&*old(self)),
            final(self).reads() == old(self).reads(),
            final(self).touched() == old(self).touched(),
            rec == old(self).index().entries@[at as int].rec,
    ;

    /// The axis codes of an indexed record.
    fn rec_axes(&mut self, rec: u32, n: usize) -> (out: [u64; MAX_AXES])
        requires
            old(self).ready(n as int),
            exists|i: int|
                0 <= i < old(self).index().entries.len() && (#[trigger] old(
                    self,
                ).index().entries@[i]).rec == rec,
        ensures
            final(self).same_as(&*old(self)),
            final(self).reads() == old(self).reads().push(rec),
            final(self).touched() == old(self).touched().push(rec),
            out@ == old(self).axes_at(rec),
    ;

    /// What there is to read has not changed.
    spec fn same_as(&self, before: &Self) -> bool;

    /// Sources that are the same show the same index and axes.
    proof fn same_reads(&self, before: &Self)
        requires
            self.same_as(before),
        ensures
            self.index() == before.index(),
            forall|rec: u32| #[trigger] self.axes_at(rec) == before.axes_at(rec),
            forall|n: int| #[trigger] self.ready(n) == before.ready(n),
    ;

    /// A source is the same as itself.
    proof fn same_as_itself(&self)
        ensures
            self.same_as(self),
    ;

    /// What has not changed since then has not changed since before.
    proof fn same_as_before(&self, then: &Self, before: &Self)
        requires
            self.same_as(then),
            then.same_as(before),
        ensures
            self.same_as(before),
    ;
}

/// The record that was touched last; 0 for none.
pub open spec fn last_of(touched: Seq<u32>) -> u32 {
    if touched.len() == 0 {
        0
    } else {
        touched.last()
    }
}

/// The records that were touched, one that is touched several times in a row once.
pub open spec fn runs(touched: Seq<u32>) -> Seq<u32>
    decreases touched.len(),
{
    if touched.len() == 0 {
        Seq::empty()
    } else if touched.last() == last_of(touched.drop_last()) {
        runs(touched.drop_last())
    } else {
        runs(touched.drop_last()).push(touched.last())
    }
}

/// The records of a list but for a first one that was touched just before.
pub open spec fn behind(last: u32, new: Seq<u32>) -> Seq<u32> {
    if new.len() > 0 && new[0] == last {
        new.skip(1)
    } else {
        new
    }
}

/// Whether the runs of what was touched have grown by `new`.
pub open spec fn runs_on(was: Seq<u32>, now: Seq<u32>, new: Seq<u32>) -> bool {
    &&& runs(now) == runs(was) + behind(last_of(was), new)
    &&& last_of(now) == if new.len() == 0 {
        last_of(was)
    } else {
        new.last()
    }
}

/// One more record that is touched.
proof fn lemma_touch(was: Seq<u32>, now: Seq<u32>, new: Seq<u32>, rec: u32)
    requires
        runs_on(was, now, new),
        new.len() > 0 ==> rec != new.last(),
    ensures
        runs_on(was, now.push(rec), new.push(rec)),
{
    assert(now.push(rec).drop_last() =~= now);
    let more = new.push(rec);
    if new.len() == 0 {
        assert(behind(last_of(was), new) =~= Seq::<u32>::empty());
        assert(runs(was) + behind(last_of(was), new) =~= runs(was));
        if rec == last_of(was) {
            assert(more.skip(1) =~= Seq::<u32>::empty());
            assert(runs(was) + behind(last_of(was), more) =~= runs(was));
        } else {
            assert(runs(was) + behind(last_of(was), more) =~= runs(was).push(rec));
        }
    } else {
        assert(more[0] == new[0]);
        assert(more.skip(1) =~= new.skip(1).push(rec));
        assert(runs(was) + behind(last_of(was), more) =~= (runs(was) + behind(
            last_of(was),
            new,
        )).push(rec));
    }
}

/// A record that is touched again at once makes no new run.
proof fn lemma_touch_again(was: Seq<u32>, now: Seq<u32>, new: Seq<u32>, rec: u32)
    requires
        runs_on(was, now, new),
        new.len() > 0,
        rec == new.last(),
    ensures
        runs_on(was, now.push(rec), new),
{
    assert(now.push(rec).drop_last() =~= now);
}

/// Two entries of a source that is ready hold different records.
proof fn lemma_entries_differ<S: BoxNodes>(src: &S, n: int, i: int, j: int)
    requires
        src.ready(n),
        0 <= i < j < src.index().entries.len(),
    ensures
        src.index().entries@[i].rec != src.index().entries@[j].rec,
{
    src.ready_is_ordered(n);
    let t = src.index();
    assert(t.entries@[i].before(&t.entries@[j], n));
    assert(t.entries@[i].code(n) == morton::morton(src.axes_at(t.entries@[i].rec), n));
    assert(t.entries@[j].code(n) == morton::morton(src.axes_at(t.entries@[j].rec), n));
}

/// The records of a source whose axes lie in a box.
pub open spec fn boxed_records<S: BoxNodes>(
    src: &S,
    lo: Seq<u64>,
    hi: Seq<u64>,
    n: int,
) -> spec_fn(u32) -> bool {
    |rec: u32| morton::boxed(src.axes_at(rec), lo, hi, n)
}

/// Whether the entry at `at` may be read after record `rec`: after one outside the box
/// nothing is read below the next point of the box.
pub open spec fn may_follow<S: BoxNodes>(
    src: &S,
    rec: u32,
    at: int,
    n: int,
    lo: Seq<u64>,
    hi: Seq<u64>,
) -> bool {
    let own = src.axes_at(rec);
    morton::boxed(own, lo, hi, n) || exists|m: Seq<u64>|
        #[trigger] morton::next_in_box(own, n, lo, hi, Some(m)) && morton::morton(m, n)
            <= src.index().entries@[at].code(n)
}

/// Whether a walk of a box for at most `cap` records reads `new`, which stand at the
/// places `at` of the index: in order, from the lower corner on, past the gaps of the
/// box, and nothing once `cap` records of the box are read.
pub open spec fn walks_box<S: BoxNodes>(
    src: &S,
    n: int,
    lo: Seq<u64>,
    hi: Seq<u64>,
    cap: int,
    new: Seq<u32>,
    at: Seq<int>,
) -> bool {
    let entries = src.index().entries@;
    &&& at.len() == new.len()
    &&& forall|k: int|
        0 <= k < at.len() ==> 0 <= #[trigger] at[k] < entries.len() && entries[at[k]].rec == new[k]
            && morton::morton(lo, n) <= entries[at[k]].code(n)
    &&& forall|j: int, k: int| 0 <= j < k < at.len() ==> #[trigger] at[j] < #[trigger] at[k]
    &&& forall|k: int|
        #![trigger new[k]]
        0 <= k < new.len() - 1 ==> may_follow(src, new[k], at[k + 1], n, lo, hi)
    &&& forall|k: int|
        0 <= k < new.len() ==> (#[trigger] new.take(k)).filter(boxed_records(src, lo, hi, n)).len()
            < cap
}

/// Records that stand in order in the index of a source that is ready are distinct.
proof fn lemma_distinct<S: BoxNodes>(
    src: &S,
    n: int,
    lo: Seq<u64>,
    hi: Seq<u64>,
    cap: int,
    new: Seq<u32>,
    at: Seq<int>,
)
    requires
        src.ready(n),
        walks_box(src, n, lo, hi, cap, new, at),
    ensures
        new.no_duplicates(),
{
    src.ready_is_ordered(n);
    let t = src.index();
    assert forall|j: int, k: int| 0 <= j < new.len() && 0 <= k < new.len() && j != k implies new[j]
        != new[k] by {
        assert(at[j] < at[k] || at[k] < at[j]);
        if at[j] < at[k] {
            assert(t.entries@[at[j]].before(&t.entries@[at[k]], n));
        } else {
            assert(t.entries@[at[k]].before(&t.entries@[at[j]], n));
        }
        assert(t.entries@[at[j]].code(n) == morton::morton(src.axes_at(new[j]), n));
        assert(t.entries@[at[k]].code(n) == morton::morton(src.axes_at(new[k]), n));
    }
}

/// One more read of a walk: of the entry at `i`, behind all that were read.
proof fn lemma_read<S: BoxNodes>(
    src: &S,
    n: int,
    lo: Seq<u64>,
    hi: Seq<u64>,
    cap: int,
    new: Seq<u32>,
    at: Seq<int>,
    i: int,
)
    requires
        walks_box(src, n, lo, hi, cap, new, at),
        0 <= i < src.index().entries.len(),
        forall|k: int| 0 <= k < at.len() ==> #[trigger] at[k] < i,
        morton::morton(lo, n) <= src.index().entries@[i].code(n),
        new.len() > 0 ==> may_follow(src, new.last(), i, n, lo, hi),
        new.filter(boxed_records(src, lo, hi, n)).len() < cap,
    ensures
        walks_box(src, n, lo, hi, cap, new.push(src.index().entries@[i].rec), at.push(i)),
{
    let rec = src.index().entries@[i].rec;
    let more = new.push(rec);
    let places = at.push(i);
    assert forall|k: int| 0 <= k < more.len() implies (#[trigger] more.take(k)).filter(
        boxed_records(src, lo, hi, n),
    ).len() < cap by {
        if k < new.len() {
            assert(more.take(k) =~= new.take(k));
        } else {
            assert(more.take(k) =~= new);
        }
    }
    assert forall|k: int|
        #![trigger more[k]]
        0 <= k < more.len() - 1 implies may_follow(src, more[k], places[k + 1], n, lo, hi) by {
        if k < new.len() - 1 {
            assert(new[k] == more[k]);
        }
    }
    assert forall|k: int| 0 <= k < places.len() implies 0 <= #[trigger] places[k]
        < src.index().entries.len() && src.index().entries@[places[k]].rec == more[k]
        && morton::morton(lo, n) <= src.index().entries@[places[k]].code(n) by {
        if k < at.len() {
            assert(places[k] == at[k]);
        }
    }
}

/// The records of a source that lie in a box, in order, at most `cap` of them.
/// A record outside the box sends the walk on to the next code that the box
/// holds, so the gaps between the runs of a box are not read, and nothing is read
/// once `cap` records are found.
pub fn box_walk<S: BoxNodes>(
    src: &mut S,
    n: usize,
    qlo: &[u64; MAX_AXES],
    qhi: &[u64; MAX_AXES],
    cap: usize,
) -> (out: Vec<u32>)
    requires
        1 <= n <= MAX_AXES ==> old(src).ready(n as int) && morton::boxed(qlo@, qlo@, qhi@, n as int),
    ensures
        1 <= n <= MAX_AXES ==> out@ == capped(
            old(src).index().recs().filter(boxed_records(&*old(src), qlo@, qhi@, n as int)),
            Some(cap),
        ),
        !(1 <= n <= MAX_AXES) ==> out@ == Seq::<u32>::empty(),
        cap == 0 || !(1 <= n <= MAX_AXES) ==> *final(src) == *old(src),
        final(src).index() == old(src).index(),
        forall|rec: u32| #[trigger] final(src).axes_at(rec) == old(src).axes_at(rec),
        forall|k: int| #[trigger] final(src).ready(k) == old(src).ready(k),
        final(src).same_as(&*old(src)),
        1 <= n <= MAX_AXES ==> exists|new: Seq<u32>, at: Seq<int>|
            final(src).reads() == old(src).reads() + new && new.no_duplicates() && runs_on(
                old(src).touched(),
                final(src).touched(),
                new,
            ) && #[trigger] walks_box(&*old(src), n as int, qlo@, qhi@, cap as int, new, at),
{
    let mut out: Vec<u32> = Vec::new();
    proof {
        src.same_as_itself();
    }
    if n == 0 || n > MAX_AXES {
        return out;
    }
    let ghost pred = boxed_records(src, qlo@, qhi@, n as int);
    let ghost t = src.index();
    let ghost all = t.recs();
    let ghost mut new: Seq<u32> = Seq::empty();
    let ghost mut at: Seq<int> = Seq::empty();
    proof {
        walks::filter_empty(pred);
        assert(src.reads() + new =~= src.reads());
        assert(runs(src.touched()) + behind(last_of(src.touched()), new) =~= runs(src.touched()));
        assert(walks_box(src, n as int, qlo@, qhi@, cap as int, new, at));
    }
    if cap == 0 {
        proof {
            if all.filter(pred).len() == 0 {
                assert(all.filter(pred) =~= out@);
            } else {
                assert(all.filter(pred).take(0) =~= out@);
            }
        }
        return out;
    }
    proof {
        src.ready_is_ordered(n as int);
        assert(all.take(0) =~= Seq::<u32>::empty());
        assert(all.take(all.len() as int) =~= all);
    }
    let ghost first = *src;
    let hi_code: [u64; MAX_AXES] = morton_words(n, qhi);
    let total: u32 = src.len();
    proof {
        src.same_reads(&first);
    }
    let ghost mut landed: bool = false;
    let mut steps: u32 = total.saturating_add(4);
    let ghost second = *src;
    let lo_code: [u64; MAX_AXES] = morton_words(n, qlo);
    let mut i: usize = src.seek(&lo_code, n);
    proof {
        src.same_reads(&second);
        src.same_as_before(&second, &first);
        if i < total {
            landed = true;
            lemma_touch(first.touched(), second.touched(), new, t.entries@[i as int].rec);
        }
        assert forall|j: int| 0 <= j < i implies !pred(#[trigger] all[j]) by {
            assert(t.entries@[j].rec == all[j]);
            if pred(all[j]) {
                morton::morton_is_monotone(qlo@, first.axes_at(all[j]), n as int);
            }
        }
        walks::filter_skip(all, pred, 0, i as int);
    }
    while i < total as usize
        invariant
            1 <= n <= MAX_AXES,
            src.index() == t,
            t == first.index(),
            all == t.recs(),
            all.take(all.len() as int) == all,
            forall|rec: u32| #[trigger] src.axes_at(rec) == first.axes_at(rec),
            forall|k: int| #[trigger] src.ready(k) == first.ready(k),
            first.ready(n as int),
            first == *old(src),
            pred == boxed_records(&first, qlo@, qhi@, n as int),
            morton::boxed(qlo@, qlo@, qhi@, n as int),
            morton::words_value(hi_code@, n as int) == morton::morton(qhi@, n as int),
            t.sorted(n as int),
            forall|j: int|
                0 <= j < t.entries.len() ==> (#[trigger] t.entries@[j]).code(n as int)
                    == morton::morton(first.axes_at(t.entries@[j].rec), n as int),
            total == t.entries.len(),
            i <= t.entries.len(),
            steps >= t.entries.len() - i,
            0 < cap,
            out.len() <= cap,
            out@ == all.take(i as int).filter(pred),
            src.reads() == first.reads() + new,
            src.same_as(&first),
            landed ==> out.len() < cap && i < total,
            runs_on(
                first.touched(),
                src.touched(),
                if landed {
                    new.push(t.entries@[i as int].rec)
                } else {
                    new
                },
            ),
            walks_box(&first, n as int, qlo@, qhi@, cap as int, new, at),
            new.filter(pred).len() == out.len(),
            forall|k: int| 0 <= k < at.len() ==> #[trigger] at[k] < i,
            forall|j: int|
                i <= j < t.entries.len() ==> morton::morton(qlo@, n as int)
                    <= (#[trigger] t.entries@[j]).code(n as int),
            new.len() > 0 && i < t.entries.len() ==> may_follow(
                &first,
                new.last(),
                i as int,
                n as int,
                qlo@,
                qhi@,
            ),
        decreases t.entries.len() - i,
    {
        if out.len() >= cap || steps == 0 {
            proof {
                walks::filter_prefix(all, pred, i as int);
                assert(capped(all.filter(pred), Some(cap)) =~= out@);
                lemma_distinct(&first, n as int, qlo@, qhi@, cap as int, new, at);
            }
            return out;
        }
        steps = steps - 1;
        let ghost before = *src;
        let rec: u32 = src.rec_at(i);
        proof {
            src.same_reads(&before);
            src.same_as_before(&before, &first);
            if new.len() > 0 {
                assert(at[at.len() - 1] < i);
                assert(t.entries@[at[at.len() - 1]].rec == new.last());
                lemma_entries_differ(&first, n as int, at[at.len() - 1], i as int);
            }
        }
        let ghost before = *src;
        assert(t.entries@[i as int].rec == rec);
        assert(src.ready(n as int));
        let own: [u64; MAX_AXES] = src.rec_axes(rec, n);
        proof {
            src.same_reads(&before);
            src.same_as_before(&before, &first);
            if landed {
                lemma_touch_again(first.touched(), before.touched(), new.push(rec), rec);
                landed = false;
            } else {
                lemma_touch(first.touched(), before.touched(), new, rec);
            }
            assert(all[i as int] == rec);
            assert(own@ == first.axes_at(rec));
            lemma_read(&first, n as int, qlo@, qhi@, cap as int, new, at, i as int);
            walks::filter_push(new, pred, rec);
            assert(first.reads() + new.push(rec) =~= (first.reads() + new).push(rec));
            new = new.push(rec);
            at = at.push(i as int);
        }
        if morton::axes_inside(&own, n, qlo, qhi) {
            proof {
                walks::filter_step(all, pred, i as int);
            }
            out.push(rec);
            i = i + 1;
            continue;
        }
        let rec_code: [u64; MAX_AXES] = morton_words(n, &own);
        if code_gt(&rec_code, &hi_code, n) {
            proof {
                assert forall|j: int| i <= j < all.len() implies !pred(#[trigger] all[j]) by {
                    assert(t.entries@[j].rec == all[j]);
                    if j > i {
                        assert(t.entries@[i as int].before(&t.entries@[j], n as int));
                    }
                    if pred(all[j]) {
                        morton::morton_is_monotone(first.axes_at(all[j]), qhi@, n as int);
                    }
                }
                walks::filter_skip(all, pred, i as int, all.len() as int);
                assert(capped(all.filter(pred), Some(cap)) =~= out@);
                lemma_distinct(&first, n as int, qlo@, qhi@, cap as int, new, at);
            }
            return out;
        }
        let found: Option<[u64; MAX_AXES]> = bigmin(&own, n, qlo, qhi);
        match found {
            None => {
                proof {
                    lemma_nothing_between(
                        t,
                        |rec: u32| first.axes_at(rec),
                        own@,
                        None,
                        pred,
                        n as int,
                        qlo@,
                        qhi@,
                        i as int,
                        all.len() as int,
                    );
                    walks::filter_skip(all, pred, i as int, all.len() as int);
                    assert(capped(all.filter(pred), Some(cap)) =~= out@);
                    lemma_distinct(&first, n as int, qlo@, qhi@, cap as int, new, at);
                }
                return out;
            },
            Some(next) => {
                let ghost before = *src;
                let next_code: [u64; MAX_AXES] = morton_words(n, &next);
                let j: usize = src.seek(&next_code, n);
                proof {
                    src.same_reads(&before);
                    src.same_as_before(&before, &first);
                    morton::outside_is_below_the_next(own@, n as int, qlo@, qhi@, next@);
                    assert(t.entries@[i as int].code(n as int) < morton::morton(next@, n as int));
                    assert(i < j);
                    if j < total {
                        landed = true;
                        lemma_entries_differ(&first, n as int, i as int, j as int);
                        lemma_touch(
                            first.touched(),
                            before.touched(),
                            new,
                            t.entries@[j as int].rec,
                        );
                    }
                    lemma_nothing_between(
                        t,
                        |rec: u32| first.axes_at(rec),
                        own@,
                        Some(next@),
                        pred,
                        n as int,
                        qlo@,
                        qhi@,
                        i as int,
                        j as int,
                    );
                    walks::filter_skip(all, pred, i as int, j as int);
                    assert(morton::next_in_box(own@, n as int, qlo@, qhi@, Some(next@)));
                }
                i = j;
            },
        }
    }
    proof {
        assert(capped(all.filter(pred), Some(cap)) =~= out@);
        lemma_distinct(&first, n as int, qlo@, qhi@, cap as int, new, at);
    }
    out
}

/// No record of the box stands between an entry outside it and the next point
/// that the box holds.
proof fn lemma_nothing_between(
    t: RadixTree,
    axes_map: spec_fn(u32) -> Seq<u64>,
    own: Seq<u64>,
    found: Option<Seq<u64>>,
    pred: spec_fn(u32) -> bool,
    n: int,
    qlo: Seq<u64>,
    qhi: Seq<u64>,
    i: int,
    j: int,
)
    requires
        1 <= n <= MAX_AXES,
        t.sorted(n),
        0 <= i < t.entries.len(),
        i <= j <= t.entries.len(),
        own == axes_map(t.entries@[i].rec),
        !morton::boxed(own, qlo, qhi, n),
        forall|rec: u32| #[trigger] pred(rec) == morton::boxed(axes_map(rec), qlo, qhi, n),
        forall|k: int|
            0 <= k < t.entries.len() ==> (#[trigger] t.entries@[k]).code(n) == morton::morton(
                axes_map(t.entries@[k].rec),
                n,
            ),
        morton::next_in_box(own, n, qlo, qhi, found),
        found matches Some(m) ==> forall|k: int|
            0 <= k < j ==> (#[trigger] t.entries@[k]).code(n) < morton::morton(m, n),
    ensures
        forall|k: int| i <= k < j ==> !pred(#[trigger] t.recs()[k]),
{
    assert forall|k: int| i <= k < j implies !pred(#[trigger] t.recs()[k]) by {
        let rec = t.recs()[k];
        assert(t.entries@[k].rec == rec);
        if morton::boxed(axes_map(rec), qlo, qhi, n) && k > i {
            assert(t.entries@[i].before(&t.entries@[k], n));
        }
    }
}

/// The records of a collection as they stand in their store.
pub struct StoreBox<'a> {
    store: &'a Store,
    tree: &'a RadixTree,
    keys: &'a [Key],
    reads: Ghost<Seq<u32>>,
    touched: Ghost<Seq<u32>>,
}

impl<'a> StoreBox<'a> {
    pub closed spec fn source(&self) -> (Store, RadixTree, Seq<Key>) {
        (*self.store, *self.tree, self.keys@)
    }

    /// The walk over index number `tree` of a store.
    pub fn new(store: &'a Store, tree: u32, keys: &'a [Key]) -> (src: StoreBox<'a>)
        requires
            0 < tree <= store.trees.len(),
        ensures
            src.source() == (*store, store.trees@[tree - 1], keys@),
            src.index() == store.trees@[tree - 1],
            src.reads() == Seq::<u32>::empty(),
            src.touched() == Seq::<u32>::empty(),
            forall|rec: u32| #[trigger] src.axes_at(rec) == axes(store, rec, keys@),
            indexes(store, &store.trees@[tree - 1], keys@) ==> src.ready(keys.len() as int),
    {
        StoreBox {
            store,
            tree: &store.trees[(tree - 1) as usize],
            keys,
            reads: Ghost(Seq::empty()),
            touched: Ghost(Seq::empty()),
        }
    }
}

impl<'a> BoxNodes for StoreBox<'a> {
    closed spec fn index(&self) -> RadixTree {
        *self.tree
    }

    closed spec fn axes_at(&self, rec: u32) -> Seq<u64> {
        axes(self.store, rec, self.keys@)
    }

    closed spec fn ready(&self, n: int) -> bool {
        n == self.keys.len() && indexes(self.store, self.tree, self.keys@)
    }

    closed spec fn reads(&self) -> Seq<u32> {
        self.reads@
    }

    closed spec fn touched(&self) -> Seq<u32> {
        self.touched@
    }

    closed spec fn same_as(&self, before: &Self) -> bool {
        self.store == before.store && self.tree == before.tree && self.keys == before.keys
    }

    proof fn ready_is_ordered(&self, n: int) {
        assert forall|i: int| 0 <= i < self.index().entries.len() implies (
        #[trigger] self.index().entries@[i]).code(n) == morton::morton(
            self.axes_at(self.index().entries@[i].rec),
            n,
        ) && self.index().entries@[i].rec != 0 by {
            assert(self.tree.entries@[i].code(n) == code(
                self.store,
                self.tree.entries@[i].rec,
                self.keys@,
            ));
        }
    }

    proof fn same_reads(&self, before: &Self) {
    }

    proof fn same_as_itself(&self) {
    }

    proof fn same_as_before(&self, then: &Self, before: &Self) {
    }

    fn len(&mut self) -> (total: u32) {
        self.tree.entries.len() as u32
    }

    fn seek(&mut self, probe: &[u64; MAX_AXES], n: usize) -> (at: usize) {
        let at: usize = self.tree.seek(probe, n);
        proof {
            if at < self.tree.entries.len() {
                self.touched = Ghost(self.touched@.push(self.tree.entries@[at as int].rec));
            }
        }
        at
    }

    fn rec_at(&mut self, at: usize) -> (rec: u32) {
        self.tree.entries[at].rec
    }

    fn rec_axes(&mut self, rec: u32, n: usize) -> (out: [u64; MAX_AXES]) {
        self.reads = Ghost(self.reads@.push(rec));
        self.touched = Ghost(self.touched@.push(rec));
        record_axes(self.store, rec, self.keys)
    }
}

/// A walk that notes which records it reads: those whose axes it reads, and the one
/// that a seek compares what it looks for with.  Reading the record that was read
/// last is not noted again.
pub struct Counting<'a> {
    inner: StoreBox<'a>,
    reads: Vec<u32>,
    read_count: usize,
    last: u32,
    keep: bool,
    touched: Ghost<Seq<u32>>,
}

impl<'a> Counting<'a> {
    /// The records noted so far, where they are kept.
    pub closed spec fn noted(&self) -> Seq<u32> {
        self.reads@
    }

    /// How many reads were noted.
    pub closed spec fn counted(&self) -> usize {
        self.read_count
    }

    /// The record that was read last; 0 for none.
    pub closed spec fn last_read(&self) -> u32 {
        self.last
    }

    /// Whether the records that are noted are kept.
    pub closed spec fn keeps(&self) -> bool {
        self.keep
    }

    /// What is noted is what was touched.
    spec fn exact(&self) -> bool {
        &&& self.last == last_of(self.touched@)
        &&& self.read_count == count_of(runs(self.touched@))
        &&& self.reads@ == if self.keep {
            runs(self.touched@)
        } else {
            Seq::empty()
        }
    }

    /// What is noted by a walk that is ready: every record that was touched, once where it
    /// was touched several times in a row.
    pub proof fn notes_what_it_touches(&self, n: int)
        requires
            self.ready(n),
        ensures
            self.last_read() == last_of(self.touched()),
            self.counted() == count_of(runs(self.touched())),
            self.noted() == if self.keeps() {
                runs(self.touched())
            } else {
                Seq::empty()
            },
    {
    }

    /// A walk over the same records keeps what it notes, or does not, as before.
    pub proof fn keeps_as_before(&self, before: &Counting<'a>)
        requires
            self.same_as(before),
        ensures
            self.keeps() == before.keeps(),
    {
    }

    /// What a read of record `rec` notes.
    pub open spec fn notes(&self, before: &Counting<'a>, rec: u32) -> bool {
        &&& self.keeps() == before.keeps()
        &&& self.last_read() == rec
        &&& self.noted() == if rec != before.last_read() && before.keeps() {
            before.noted().push(rec)
        } else {
            before.noted()
        }
        &&& self.counted() == if rec != before.last_read() && before.counted() < usize::MAX {
            (before.counted() + 1) as usize
        } else {
            before.counted()
        }
    }

    /// Nothing is noted.
    pub open spec fn notes_nothing(&self, before: &Counting<'a>) -> bool {
        &&& self.keeps() == before.keeps()
        &&& self.last_read() == before.last_read()
        &&& self.noted() == before.noted()
        &&& self.counted() == before.counted()
    }

    /// Count the reads of `inner`; with `keep`, list them as well.
    pub fn new(inner: StoreBox<'a>, keep: bool) -> (counting: Counting<'a>)
        ensures
            counting.noted() == Seq::<u32>::empty(),
            counting.counted() == 0,
            counting.last_read() == 0,
            counting.keeps() == keep,
            counting.reads() == inner.reads(),
            counting.touched() == Seq::<u32>::empty(),
            counting.index() == inner.index(),
            forall|rec: u32| #[trigger] counting.axes_at(rec) == inner.axes_at(rec),
            forall|n: int| #[trigger] counting.ready(n) == inner.ready(n),
    {
        let counting = Counting {
            inner,
            reads: Vec::new(),
            read_count: 0,
            last: 0,
            keep,
            touched: Ghost(Seq::empty()),
        };
        assert(counting.reads@ =~= Seq::<u32>::empty());
        counting
    }

    /// How many reads were noted.
    pub fn read_count(&self) -> (total: usize)
        ensures
            total == self.counted(),
    {
        self.read_count
    }

    /// The noted reads.
    pub fn into_reads(self) -> (reads: Vec<u32>)
        ensures
            reads@ == self.noted(),
    {
        self.reads
    }

    fn note(&mut self, rec: u32)
        ensures
            final(self).inner == old(self).inner,
            final(self).notes(&*old(self), rec),
            final(self).touched@ == old(self).touched@.push(rec),
            old(self).exact() ==> final(self).exact(),
    {
        let ghost was = self.touched@;
        self.touched = Ghost(was.push(rec));
        assert(was.push(rec).drop_last() =~= was);
        if rec == self.last {
            return;
        }
        self.last = rec;
        self.read_count = self.read_count.saturating_add(1);
        if self.keep {
            self.reads.push(rec);
        }
    }
}

/// How many records a list holds, as far as they can be counted.
pub open spec fn count_of(recs: Seq<u32>) -> usize {
    if recs.len() <= usize::MAX {
        recs.len() as usize
    } else {
        usize::MAX
    }
}

/// A walk of a box that counts its reads counts the records that it reads, each once, and
/// lists them in order where it lists them; only a first one that was read last before
/// the walk is not counted again.
pub proof fn a_walk_counts_its_reads(
    was: Counting,
    now: Counting,
    n: int,
    lo: Seq<u64>,
    hi: Seq<u64>,
    cap: int,
    new: Seq<u32>,
    at: Seq<int>,
)
    requires
        was.ready(n),
        now.same_as(&was),
        runs_on(was.touched(), now.touched(), new),
        walks_box(&was, n, lo, hi, cap, new, at),
    ensures
        now.counted() == if was.counted() + behind(was.last_read(), new).len() <= usize::MAX {
            was.counted() + behind(was.last_read(), new).len()
        } else {
            usize::MAX as int
        },
        now.keeps() == was.keeps(),
        now.noted() == if was.keeps() {
            was.noted() + behind(was.last_read(), new)
        } else {
            Seq::empty()
        },
        was.last_read() == 0 ==> behind(was.last_read(), new) == new,
{
    now.same_reads(&was);
    was.notes_what_it_touches(n);
    now.notes_what_it_touches(n);
    now.keeps_as_before(&was);
    if new.len() > 0 {
        was.ready_is_ordered(n);
        assert(was.index().entries@[at[0]].rec == new[0]);
    }
}

impl<'a> BoxNodes for Counting<'a> {
    closed spec fn index(&self) -> RadixTree {
        self.inner.index()
    }

    closed spec fn axes_at(&self, rec: u32) -> Seq<u64> {
        self.inner.axes_at(rec)
    }

    closed spec fn ready(&self, n: int) -> bool {
        self.inner.ready(n) && self.exact()
    }

    closed spec fn reads(&self) -> Seq<u32> {
        self.inner.reads()
    }

    closed spec fn touched(&self) -> Seq<u32> {
        self.touched@
    }

    closed spec fn same_as(&self, before: &Self) -> bool {
        &&& self.inner.same_as(&before.inner)
        &&& self.keep == before.keep
        &&& self.exact() == before.exact()
    }

    proof fn ready_is_ordered(&self, n: int) {
        self.inner.ready_is_ordered(n);
    }

    proof fn same_reads(&self, before: &Self) {
        self.inner.same_reads(&before.inner);
    }

    proof fn same_as_itself(&self) {
        self.inner.same_as_itself();
    }

    proof fn same_as_before(&self, then: &Self, before: &Self) {
        self.inner.same_as_before(&then.inner, &before.inner);
    }

    fn len(&mut self) -> (total: u32)
        ensures
            final(self).notes_nothing(&*old(self)),
    {
        self.inner.len()
    }

    fn seek(&mut self, probe: &[u64; MAX_AXES], n: usize) -> (at: usize)
        ensures
            at < old(self).index().entries.len() ==> final(self).notes(
                &*old(self),
                old(self).index().entries@[at as int].rec,
            ),
            at == old(self).index().entries.len() ==> final(self).notes_nothing(&*old(self)),
    {
        let at: usize = self.inner.seek(probe, n);
        if at < self.inner.tree.entries.len() {
            let rec: u32 = self.inner.tree.entries[at].rec;
            self.note(rec);
        }
        at
    }

    fn rec_at(&mut self, at: usize) -> (rec: u32)
        ensures
            final(self).notes_nothing(&*old(self)),
    {
        self.inner.rec_at(at)
    }

    fn rec_axes(&mut self, rec: u32, n: usize) -> (out: [u64; MAX_AXES])
        ensures
            final(self).notes(&*old(self), rec),
    {
        self.note(rec);
        self.inner.rec_axes(rec, n)
    }
}

/// The lower of two coordinates.
pub open spec fn lower(v: i64, w: i64) -> i64 {
    if v <= w {
        v
    } else {
        w
    }
}

/// The upper of two coordinates.
pub open spec fn upper(v: i64, w: i64) -> i64 {
    if v <= w {
        w
    } else {
        v
    }
}

/// The records inside a box.
pub open spec fn inside_box(
    store: &Store,
    keys: Seq<Key>,
    from: Seq<i64>,
    till: Seq<i64>,
) -> spec_fn(u32) -> bool {
    |rec: u32| inside(store, rec, keys, from, till)
}

/// The records of the collection inside the box between two corners, in order;
/// with a limit, the first of them.  Which corner is written first does not
/// matter.
#[must_use]
pub fn box_range(
    coll: &DbRef,
    stores: &[Store],
    keys: &[Key],
    from: &[i64],
    till: &[i64],
    limit: Option<usize>,
) -> (out: Vec<u32>)
    requires
        coll.store_nr < stores.len(),
        valid(&stores@[coll.store_nr as int], *coll, keys@),
        keys.len() <= from.len(),
        keys.len() <= till.len(),
    ensures
        keys.len() == 0 ==> out@ == Seq::<u32>::empty(),
        keys.len() > 0 ==> out@ == capped(
            members(&stores@[coll.store_nr as int], *coll).filter(
                inside_box(&stores@[coll.store_nr as int], keys@, from@, till@),
            ),
            limit,
        ),
{
    let store: &Store = &stores[coll.store_nr as usize];
    let tree: u32 = store.get_u32_raw(coll.rec, coll.pos);
    let ghost pred = inside_box(store, keys@, from@, till@);
    if tree == 0 {
        proof {
            walks::filter_empty(pred);
        }
        return Vec::new();
    }
    let n: usize = keys.len();
    let mut qlo: [u64; MAX_AXES] = no_axes();
    let mut qhi: [u64; MAX_AXES] = no_axes();
    let mut a: usize = 0;
    while a < n
        invariant
            a <= n <= MAX_AXES,
            n == keys.len(),
            n <= from.len(),
            n <= till.len(),
            forall|i: int| 0 <= i < a ==> #[trigger] qlo@[i] == coord(lower(from@[i], till@[i])),
            forall|i: int| 0 <= i < a ==> #[trigger] qhi@[i] == coord(upper(from@[i], till@[i])),
        decreases n - a,
    {
        let (lo, hi): (i64, i64) = if from[a] <= till[a] {
            (from[a], till[a])
        } else {
            (till[a], from[a])
        };
        qlo[a] = coord_code(lo);
        qhi[a] = coord_code(hi);
        a = a + 1;
    }
    let mut src: StoreBox = StoreBox::new(store, tree, keys);
    let ghost walk = boxed_records(&src, qlo@, qhi@, n as int);
    let ghost all = members(store, *coll);
    proof {
        if n > 0 {
            assert forall|k: int| 0 <= k < all.len() implies walk(#[trigger] all[k]) == pred(
                all[k],
            ) by {
                let rec = all[k];
                let own = axes(store, rec, keys@);
                assert(src.axes_at(rec) == own);
                if walk(rec) {
                    assert forall|i: int|
                        #![trigger keys@[i]]
                        0 <= i < keys@.len() implies ({
                        let v = axis(store, rec, keys@[i]);
                        (from@[i] <= v <= till@[i]) || (till@[i] <= v <= from@[i])
                    }) by {
                        assert(qlo@[i] <= own[i] && own[i] <= qhi@[i]);
                        assert(own[i] == coord(axis(store, rec, keys@[i])));
                    }
                }
                if pred(rec) {
                    assert forall|i: int| 0 <= i < n implies qlo@[i] <= #[trigger] own[i] && own[i]
                        <= qhi@[i] by {
                        assert(own[i] == coord(axis(store, rec, keys@[i])));
                        assert(qlo@[i] == qlo@[i]);
                    }
                }
            }
            walks::filter_same(all, walk, pred);
            walks::filter_prefix(all, pred, 0);
            walks::filter_len(all, pred);
        }
    }
    let cap: usize = match limit {
        Some(c) => c,
        None => usize::MAX,
    };
    box_walk(&mut src, n, &qlo, &qhi, cap)
}

} // verus!
