//! What holds of spatial collections as a whole.

use crate::keys::{Content, Key};
use crate::morton;
use crate::radix_db;
use crate::store::{DbRef, Store};
use crate::walks;
use vstd::prelude::*;

verus! {

/// Which corner of a box is written first does not matter.
pub proof fn corners_are_interchangeable(
    store: Store,
    rec: u32,
    keys: Seq<Key>,
    from: Seq<i64>,
    till: Seq<i64>,
)
    ensures
        radix_db::inside(&store, rec, keys, from, till) == radix_db::inside(
            &store,
            rec,
            keys,
            till,
            from,
        ),
{
}

/// The codes of the records inside a box lie between the codes of its lower and
/// its upper corner.
pub proof fn a_box_lies_in_its_interval(
    store: Store,
    rec: u32,
    keys: Seq<Key>,
    from: Seq<i64>,
    till: Seq<i64>,
)
    requires
        1 <= keys.len() <= morton::MAX_AXES,
        forall|a: int| 0 <= a < keys.len() ==> #[trigger] from[a] <= till[a],
        radix_db::inside(&store, rec, keys, from, till),
    ensures
        ({
            let n = keys.len() as int;
            morton::morton(radix_db::point(from, n), n) <= radix_db::code(&store, rec, keys)
                <= morton::morton(radix_db::point(till, n), n)
        }),
{
    let n = keys.len() as int;
    let own = radix_db::axes(&store, rec, keys);
    let lo = radix_db::point(from, n);
    let hi = radix_db::point(till, n);
    assert forall|k: int| 0 <= k < n implies #[trigger] lo[k] <= own[k] && own[k] <= hi[k] by {
        let v = radix_db::axis(&store, rec, keys[k]);
        assert(from[k] <= till[k]);
        assert(from[k] <= v <= till[k]);
    }
    assert forall|k: int| 0 <= k < n implies #[trigger] own[k] <= hi[k] by {
        assert(lo[k] <= own[k] && own[k] <= hi[k]);
    }
    morton::morton_is_monotone(lo, own, n);
    morton::morton_is_monotone(own, hi, n);
}

/// A box query gives the records of the code interval between its corners that
/// lie inside the box: skipping gaps does not change the answer.
pub proof fn a_box_is_its_interval_filtered(
    store: Store,
    coll: DbRef,
    keys: Seq<Key>,
    from: Seq<i64>,
    till: Seq<i64>,
)
    requires
        1 <= keys.len() <= morton::MAX_AXES,
        forall|a: int| 0 <= a < keys.len() ==> #[trigger] from[a] <= till[a],
    ensures
        ({
            let n = keys.len() as int;
            let lo = morton::morton(radix_db::point(from, n), n);
            let hi = morton::morton(radix_db::point(till, n), n);
            radix_db::members(&store, coll).filter(
                radix_db::inside_box(&store, keys, from, till),
            ) == radix_db::members(&store, coll).filter(
                radix_db::in_interval(&store, keys, lo, Some(hi)),
            ).filter(radix_db::inside_box(&store, keys, from, till))
        }),
{
    let n = keys.len() as int;
    let lo = morton::morton(radix_db::point(from, n), n);
    let hi = morton::morton(radix_db::point(till, n), n);
    let all = radix_db::members(&store, coll);
    let p = radix_db::in_interval(&store, keys, lo, Some(hi));
    let q = radix_db::inside_box(&store, keys, from, till);
    assert forall|k: int| 0 <= k < all.len() implies q(#[trigger] all[k]) == (p(all[k]) && q(
        all[k],
    )) by {
        if q(all[k]) {
            a_box_lies_in_its_interval(store, all[k], keys, from, till);
        }
    }
    walks::filter_twice(all, p, q, q);
}

/// A limit gives the first part of what the query gives without one.
pub proof fn a_limit_is_a_prefix(s: Seq<u32>, cap: usize)
    ensures
        radix_db::capped(s, Some(cap)).len() <= cap,
        radix_db::capped(s, Some(cap)) == s.take(radix_db::capped(s, Some(cap)).len() as int),
        radix_db::capped(s, None) == s,
{
    assert(s.take(s.len() as int) =~= s);
}

/// The records of a collection are ordered by code, those of one code by number.
pub proof fn members_are_ordered(store: Store, coll: DbRef, keys: Seq<Key>, i: int, j: int)
    requires
        radix_db::valid(&store, coll, keys),
        0 <= i < j < radix_db::members(&store, coll).len(),
    ensures
        ({
            let a = radix_db::members(&store, coll)[i];
            let b = radix_db::members(&store, coll)[j];
            ||| radix_db::code(&store, a, keys) < radix_db::code(&store, b, keys)
            ||| radix_db::code(&store, a, keys) == radix_db::code(&store, b, keys) && a < b
        }),
{
    let t = store.trees@[radix_db::tree_nr(&store, coll) - 1];
    assert(t.entries@[i].before(&t.entries@[j], keys.len() as int));
}

/// No record stands in a collection twice.
pub proof fn members_are_distinct(store: Store, coll: DbRef, keys: Seq<Key>)
    requires
        radix_db::valid(&store, coll, keys),
    ensures
        radix_db::members(&store, coll).no_duplicates(),
{
    let all = radix_db::members(&store, coll);
    assert forall|i: int, j: int| 0 <= i < all.len() && 0 <= j < all.len() && i != j implies all[i]
        != all[j] by {
        if i < j {
            members_are_ordered(store, coll, keys, i, j);
        } else {
            members_are_ordered(store, coll, keys, j, i);
        }
    }
}

/// The records of one code stand next to each other.
pub proof fn one_code_is_one_run(store: Store, coll: DbRef, keys: Seq<Key>, i: int, j: int, k: int)
    requires
        radix_db::valid(&store, coll, keys),
        0 <= i < j < k < radix_db::members(&store, coll).len(),
        radix_db::code(&store, radix_db::members(&store, coll)[i], keys) == radix_db::code(
            &store,
            radix_db::members(&store, coll)[k],
            keys,
        ),
    ensures
        radix_db::code(&store, radix_db::members(&store, coll)[j], keys) == radix_db::code(
            &store,
            radix_db::members(&store, coll)[i],
            keys,
        ),
{
    members_are_ordered(store, coll, keys, i, j);
    members_are_ordered(store, coll, keys, j, k);
}

/// The order of a collection is a matter of which records it holds: two
/// collections of one store with the same records list them alike.
pub proof fn order_is_decided_by_the_records(store: Store, a: DbRef, b: DbRef, keys: Seq<Key>)
    requires
        radix_db::valid(&store, a, keys),
        radix_db::valid(&store, b, keys),
        forall|rec: u32|
            radix_db::members(&store, a).contains(rec) == #[trigger] radix_db::members(
                &store,
                b,
            ).contains(rec),
    ensures
        radix_db::members(&store, a) == radix_db::members(&store, b),
{
    let s = radix_db::members(&store, a);
    let t = radix_db::members(&store, b);
    assert forall|i: int, j: int| 0 <= i < j < s.len() implies comes_first(
        store,
        keys,
        #[trigger] s[i],
        #[trigger] s[j],
    ) by {
        members_are_ordered(store, a, keys, i, j);
    }
    assert forall|i: int, j: int| 0 <= i < j < t.len() implies comes_first(
        store,
        keys,
        #[trigger] t[i],
        #[trigger] t[j],
    ) by {
        members_are_ordered(store, b, keys, i, j);
    }
    lemma_same_order(store, keys, s, t);
}

spec fn comes_first(store: Store, keys: Seq<Key>, a: u32, b: u32) -> bool {
    radix_db::code(&store, a, keys) < radix_db::code(&store, b, keys) || (radix_db::code(
        &store,
        a,
        keys,
    ) == radix_db::code(&store, b, keys) && a < b)
}

proof fn lemma_same_order(store: Store, keys: Seq<Key>, s: Seq<u32>, t: Seq<u32>)
    requires
        forall|i: int, j: int|
            0 <= i < j < s.len() ==> comes_first(store, keys, #[trigger] s[i], #[trigger] s[j]),
        forall|i: int, j: int|
            0 <= i < j < t.len() ==> comes_first(store, keys, #[trigger] t[i], #[trigger] t[j]),
        forall|rec: u32| s.contains(rec) == #[trigger] t.contains(rec),
    ensures
        s == t,
    decreases s.len(),
{
    if s.len() == 0 {
        if t.len() > 0 {
            assert(t.contains(t[0]));
        }
        assert(s =~= t);
    } else {
        let last = s[s.len() - 1];
        assert(s.contains(last));
        assert(t.contains(last));
        let at = choose|i: int| 0 <= i < t.len() && t[i] == last;
        let other = t[t.len() - 1];
        assert(t.contains(other));
        assert(s.contains(other));
        let from = choose|i: int| 0 <= i < s.len() && s[i] == other;
        if at != t.len() - 1 {
            assert(comes_first(store, keys, t[at], t[t.len() - 1]));
            if from != s.len() - 1 {
                assert(comes_first(store, keys, s[from], s[s.len() - 1]));
            }
        }
        let u = s.drop_last();
        let v = t.drop_last();
        assert forall|rec: u32| u.contains(rec) == #[trigger] v.contains(rec) by {
            assert(s.contains(rec) == t.contains(rec));
            if u.contains(rec) {
                let i = choose|i: int| 0 <= i < u.len() && u[i] == rec;
                assert(s[i] == rec);
                assert(s.contains(rec));
                let j = choose|j: int| 0 <= j < t.len() && t[j] == rec;
                assert(comes_first(store, keys, s[i], s[s.len() - 1]));
                assert(v[j] == rec);
            }
            if v.contains(rec) {
                let i = choose|i: int| 0 <= i < v.len() && v[i] == rec;
                assert(t[i] == rec);
                assert(t.contains(rec));
                let j = choose|j: int| 0 <= j < s.len() && s[j] == rec;
                assert(comes_first(store, keys, t[i], t[t.len() - 1]));
                assert(u[j] == rec);
            }
        }
        lemma_same_order(store, keys, u, v);
        assert(s =~= u.push(last));
        assert(t =~= v.push(last));
    }
}

/// A lookup by the coordinates of a record asks for that record's code.
pub proof fn own_coordinates_find_the_code(
    store: Store,
    rec: u32,
    keys: Seq<Key>,
    key: Seq<Content>,
)
    requires
        1 <= keys.len() <= morton::MAX_AXES,
        key.len() == keys.len(),
        forall|a: int|
            0 <= a < keys.len() ==> #[trigger] key[a] == Content::Long(
                radix_db::axis(&store, rec, keys[a]),
            ),
    ensures
        radix_db::probe_value(key, keys.len() as int) == radix_db::code(&store, rec, keys),
{
    let n = keys.len() as int;
    let own = radix_db::axes(&store, rec, keys);
    let asked = Seq::new(
        morton::MAX_AXES as nat,
        |a: int|
            if a < key.len() {
                radix_db::probe(key[a])
            } else {
                0
            },
    );
    assert forall|a: int| 0 <= a < 3 implies asked[a] == own[a] by {
        if a < n {
            assert(key[a] == Content::Long(radix_db::axis(&store, rec, keys[a])));
        }
    }
    assert(asked =~= own);
    morton::words_make_the_code(own, n);
}

/// Taking a fresh record out again leaves the collection as it was before the
/// record was entered.
pub proof fn removing_undoes_adding(was: Seq<u32>, with: Seq<u32>, now: Seq<u32>, rec: u32)
    requires
        !was.contains(rec),
        exists|at: int| 0 <= at <= was.len() && with == #[trigger] was.insert(at, rec),
        exists|at: int| 0 <= at < with.len() && with[at] == rec && now == #[trigger] with.remove(at),
    ensures
        now == was,
{
    let i = choose|at: int| 0 <= at <= was.len() && with == #[trigger] was.insert(at, rec);
    let j = choose|at: int|
        0 <= at < with.len() && with[at] == rec && now == #[trigger] with.remove(at);
    if j < i {
        assert(was[j] == rec);
    } else if j > i {
        assert(was[j - 1] == rec);
    }
    assert(now =~= was);
}

/// Entering a record into a collection, or taking one out, leaves every other
/// collection of the store as it is.
pub proof fn other_collections_stay(was: Store, now: Store, coll: DbRef, other: DbRef)
    requires
        radix_db::other_trees_kept(&was, &now, radix_db::tree_nr(&now, coll)),
        radix_db::tree_nr(&now, other) == radix_db::tree_nr(&was, other),
        radix_db::tree_nr(&was, other) <= was.trees.len(),
        radix_db::tree_nr(&was, other) != 0 ==> radix_db::tree_nr(&was, other)
            != radix_db::tree_nr(&now, coll),
    ensures
        radix_db::members(&now, other) == radix_db::members(&was, other),
{
    let t = radix_db::tree_nr(&was, other);
    if t != 0 {
        assert(now.trees@[t - 1] == was.trees@[t - 1]);
    }
}

/// New records, and what is written to a record outside of a collection, leave the
/// collection as it is.
pub proof fn other_records_leave_a_collection(
    was: Store,
    now: Store,
    coll: DbRef,
    keys: Seq<Key>,
    rec: u32,
)
    requires
        radix_db::valid(&was, coll, keys),
        now.trees == was.trees,
        was.recs.len() <= now.recs.len(),
        forall|r: int|
            0 <= r < was.recs.len() && r != rec ==> #[trigger] now.recs@[r] == was.recs@[r],
        coll.rec != rec,
        !radix_db::members(&was, coll).contains(rec),
    ensures
        radix_db::valid(&now, coll, keys),
        radix_db::members(&now, coll) == radix_db::members(&was, coll),
        forall|i: int|
            0 <= i < radix_db::members(&was, coll).len() ==> radix_db::code(
                &now,
                #[trigger] radix_db::members(&was, coll)[i],
                keys,
            ) == radix_db::code(&was, radix_db::members(&was, coll)[i], keys),
{
    let all = radix_db::members(&was, coll);
    assert(now.recs@[coll.rec as int] == was.recs@[coll.rec as int]);
    let t = radix_db::tree_nr(&was, coll);
    assert(radix_db::tree_nr(&now, coll) == t);
    if t > 0 {
        let tree = was.trees@[t - 1];
        assert forall|i: int| 0 <= i < tree.entries.len() implies radix_db::keyed_record(
            &now,
            (#[trigger] tree.entries@[i]).rec,
            keys,
        ) && radix_db::code(&now, tree.entries@[i].rec, keys) == radix_db::code(
            &was,
            tree.entries@[i].rec,
            keys,
        ) by {
            let r = tree.entries@[i].rec;
            assert(radix_db::keyed_record(&was, r, keys));
            assert(all[i] == r);
            assert(now.recs@[r as int] == was.recs@[r as int]);
            assert forall|a: int| 0 <= a < keys.len() implies now.holds(
                r,
                radix_db::PAYLOAD + (#[trigger] keys[a]).position,
                keys[a].width(),
            ) by {
                assert(was.holds(r, radix_db::PAYLOAD + keys[a].position, keys[a].width()));
            }
            assert(radix_db::axes(&now, r, keys) =~= radix_db::axes(&was, r, keys));
        }
        assert forall|i: int| 0 <= i < all.len() implies radix_db::code(
            &now,
            #[trigger] all[i],
            keys,
        ) == radix_db::code(&was, all[i], keys) by {
            assert(tree.entries@[i].rec == all[i]);
        }
    }
}

/// The nearest-first order lists every record of the collection once.
pub proof fn nearest_lists_every_record(
    store: Store,
    keys: Seq<Key>,
    query: nat,
    all: Seq<u32>,
)
    ensures
        radix_db::nearest(&store, keys, query, all).to_multiset() == all.to_multiset(),
{
    let k = radix_db::below(&store, keys, query, all);
    walks::filter_len(all, |rec: u32| radix_db::code(&store, rec, keys) < query);
    lemma_merge_multiset(all, radix_db::gap(&store, keys, query), k, k);
    assert(all.take(k) + all.skip(k) =~= all);
    vstd::seq_lib::lemma_multiset_commutative(all.take(k), all.skip(k));
}

proof fn lemma_merge_multiset(all: Seq<u32>, gap: spec_fn(u32) -> nat, b: int, f: int)
    requires
        0 <= b <= f <= all.len(),
    ensures
        radix_db::merge_by_gap(all, gap, b, f).to_multiset() == all.take(b).to_multiset().add(
            all.skip(f).to_multiset(),
        ),
    decreases b + (all.len() - f),
{
    broadcast use vstd::seq_lib::group_to_multiset_ensures;

    let merged = radix_db::merge_by_gap(all, gap, b, f);
    if b <= 0 && f >= all.len() {
        assert(merged.to_multiset() =~= all.take(b).to_multiset().add(all.skip(f).to_multiset()));
    } else if b <= 0 || (f < all.len() && gap(all[b - 1]) > gap(all[f])) {
        lemma_merge_multiset(all, gap, b, f + 1);
        let rest = radix_db::merge_by_gap(all, gap, b, f + 1);
        vstd::seq_lib::lemma_multiset_commutative(seq![all[f]], rest);
        assert(all.skip(f) =~= seq![all[f]] + all.skip(f + 1));
        vstd::seq_lib::lemma_multiset_commutative(seq![all[f]], all.skip(f + 1));
        assert(merged.to_multiset() =~= all.take(b).to_multiset().add(all.skip(f).to_multiset()));
    } else {
        lemma_merge_multiset(all, gap, b - 1, f);
        let rest = radix_db::merge_by_gap(all, gap, b - 1, f);
        vstd::seq_lib::lemma_multiset_commutative(seq![all[b - 1]], rest);
        assert(all.take(b) =~= all.take(b - 1) + seq![all[b - 1]]);
        vstd::seq_lib::lemma_multiset_commutative(all.take(b - 1), seq![all[b - 1]]);
        assert(merged.to_multiset() =~= all.take(b).to_multiset().add(all.skip(f).to_multiset()));
    }
}

/// The nearest-first order never comes nearer again.
pub proof fn nearest_goes_outward(store: Store, coll: DbRef, keys: Seq<Key>, query: nat, i: int, j: int)
    requires
        radix_db::valid(&store, coll, keys),
        ({
            let order = radix_db::nearest(
                &store,
                keys,
                query,
                radix_db::members(&store, coll),
            );
            0 <= i < j < order.len()
        }),
    ensures
        ({
            let order = radix_db::nearest(
                &store,
                keys,
                query,
                radix_db::members(&store, coll),
            );
            let gap = radix_db::gap(&store, keys, query);
            gap(order[i]) <= gap(order[j])
        }),
{
    let all = radix_db::members(&store, coll);
    let gap = radix_db::gap(&store, keys, query);
    let low = |rec: u32| radix_db::code(&store, rec, keys) < query;
    let k = radix_db::below(&store, keys, query, all);
    walks::filter_len(all, low);
    assert forall|x: int, y: int| 0 <= x < y < all.len() implies radix_db::code(
        &store,
        #[trigger] all[x],
        keys,
    ) <= radix_db::code(&store, #[trigger] all[y], keys) by {
        members_are_ordered(store, coll, keys, x, y);
    }
    lemma_low_part(store, keys, query, all);
    assert forall|x: int, y: int| 0 <= x < y < k implies gap(#[trigger] all[x]) >= gap(
        #[trigger] all[y],
    ) by {
        assert(low(all[x]) && low(all[y]));
    }
    assert forall|x: int, y: int| k <= x < y < all.len() implies gap(#[trigger] all[x]) <= gap(
        #[trigger] all[y],
    ) by {
        assert(!low(all[x]) && !low(all[y]));
    }
    lemma_merge_outward(all, gap, k, k, k, i, j);
}

proof fn lemma_low_part(store: Store, keys: Seq<Key>, query: nat, all: Seq<u32>)
    requires
        forall|x: int, y: int|
            0 <= x < y < all.len() ==> radix_db::code(&store, #[trigger] all[x], keys)
                <= radix_db::code(&store, #[trigger] all[y], keys),
    ensures
        ({
            let low = |rec: u32| radix_db::code(&store, rec, keys) < query;
            forall|x: int|
                0 <= x < all.len() ==> low(#[trigger] all[x]) == (x < radix_db::below(
                    &store,
                    keys,
                    query,
                    all,
                ))
        }),
    decreases all.len(),
{
    reveal(Seq::filter);
    let low = |rec: u32| radix_db::code(&store, rec, keys) < query;
    if all.len() > 0 {
        let part = all.drop_last();
        lemma_low_part(store, keys, query, part);
        walks::filter_len(part, low);
        let k = part.filter(low).len() as int;
        let last = all[all.len() - 1];
        if low(last) && k < part.len() {
            assert(!low(part[k]));
            assert(radix_db::code(&store, all[k], keys) <= radix_db::code(
                &store,
                all[all.len() - 1],
                keys,
            ));
        }
        assert forall|x: int| 0 <= x < all.len() implies low(#[trigger] all[x]) == (x
            < radix_db::below(&store, keys, query, all)) by {
            if x < part.len() {
                assert(all[x] == part[x]);
            }
        }
    }
}

proof fn lemma_merge_outward(
    all: Seq<u32>,
    gap: spec_fn(u32) -> nat,
    k: int,
    b: int,
    f: int,
    i: int,
    j: int,
)
    requires
        0 <= b <= k <= f <= all.len(),
        forall|x: int, y: int|
            0 <= x < y < k ==> gap(#[trigger] all[x]) >= gap(#[trigger] all[y]),
        forall|x: int, y: int|
            k <= x < y < all.len() ==> gap(#[trigger] all[x]) <= gap(#[trigger] all[y]),
        0 <= i < j < radix_db::merge_by_gap(all, gap, b, f).len(),
    ensures
        gap(radix_db::merge_by_gap(all, gap, b, f)[i]) <= gap(
            radix_db::merge_by_gap(all, gap, b, f)[j],
        ),
    decreases b + (all.len() - f),
{
    let merged = radix_db::merge_by_gap(all, gap, b, f);
    if b <= 0 && f >= all.len() {
    } else if b <= 0 || (f < all.len() && gap(all[b - 1]) > gap(all[f])) {
        let rest = radix_db::merge_by_gap(all, gap, b, f + 1);
        assert(merged[j] == rest[j - 1]);
        if i > 0 {
            assert(merged[i] == rest[i - 1]);
            lemma_merge_outward(all, gap, k, b, f + 1, i - 1, j - 1);
        } else {
            lemma_merge_holds(all, gap, b, f + 1, j - 1);
        }
    } else {
        let rest = radix_db::merge_by_gap(all, gap, b - 1, f);
        assert(merged[j] == rest[j - 1]);
        if i > 0 {
            assert(merged[i] == rest[i - 1]);
            lemma_merge_outward(all, gap, k, b - 1, f, i - 1, j - 1);
        } else {
            lemma_merge_holds(all, gap, b - 1, f, j - 1);
        }
    }
}

/// Every merged record is one of the lower or one of the upper ones.
proof fn lemma_merge_holds(all: Seq<u32>, gap: spec_fn(u32) -> nat, b: int, f: int, i: int)
    requires
        0 <= b <= f <= all.len(),
        0 <= i < radix_db::merge_by_gap(all, gap, b, f).len(),
    ensures
        exists|x: int|
            0 <= x < all.len() && (x < b || x >= f) && #[trigger] all[x] == radix_db::merge_by_gap(
                all,
                gap,
                b,
                f,
            )[i],
    decreases b + (all.len() - f),
{
    let merged = radix_db::merge_by_gap(all, gap, b, f);
    if b <= 0 && f >= all.len() {
    } else if b <= 0 || (f < all.len() && gap(all[b - 1]) > gap(all[f])) {
        if i > 0 {
            lemma_merge_holds(all, gap, b, f + 1, i - 1);
            assert(merged[i] == radix_db::merge_by_gap(all, gap, b, f + 1)[i - 1]);
        } else {
            assert(merged[0] == all[f]);
        }
    } else {
        if i > 0 {
            lemma_merge_holds(all, gap, b - 1, f, i - 1);
            assert(merged[i] == radix_db::merge_by_gap(all, gap, b - 1, f)[i - 1]);
        } else {
            assert(merged[0] == all[b - 1]);
        }
    }
}

/// A coordinate field reads back what was written to it, whatever its width.
pub proof fn an_axis_reads_back_what_was_written(
    was: Store,
    now: Store,
    rec: u32,
    key: Key,
    v: i64,
    raw: nat,
)
    requires
        now.written(&was, rec, radix_db::PAYLOAD + key.position, key.width() as nat, raw),
        key.kind() == 8 ==> i32::MIN <= v <= i32::MAX && raw == (v as i32) as u32,
        key.kind() == 12 ==> 0 <= v <= u32::MAX && raw == v,
        key.kind() == 9 ==> 0 <= v - key.start <= 0xfffe && raw == v - key.start + 1,
        key.kind() == 10 ==> 0 <= v - key.start <= 0xff && raw == v - key.start,
        key.kind() == 11 ==> 0 <= v - key.start <= 0xffff && raw == v - key.start,
        !(8 <= key.kind() <= 12) ==> raw == (v as u64),
    ensures
        radix_db::axis(&now, rec, key) == v,
{
    if key.kind() == 8 {
        let w = v as i32;
        assert((w as u32) as i32 == w) by (bit_vector);
    } else if !(8 <= key.kind() <= 12) {
        assert((v as u64) as i64 == v) by (bit_vector);
    }
}

} // verus!
