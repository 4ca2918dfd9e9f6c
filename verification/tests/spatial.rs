//! Spatial collections: records found by where they are.

use loft::keys::{Content, Key};
use loft::morton::{bigmin, code_abs_diff, code_gt, interleave, morton_words, MAX_AXES};
use loft::radix_db::{
    add, axis_code, axis_i64, box_range, box_walk, coord_code, count, find, in_box, key_bits,
    near_range, range, records, remove, Counting, StoreBox, PAYLOAD,
};
use loft::store::{DbRef, Store};

fn lcg(seed: &mut u64) -> i64 {
    *seed = seed.wrapping_mul(6_364_136_223_846_793_005).wrapping_add(1);
    (*seed >> 32) as i64
}

/// Two `integer` axes at payload offsets 0 and 8.
fn xy_keys() -> Vec<Key> {
    vec![
        Key { type_nr: 1, position: 0, start: 0 },
        Key { type_nr: 1, position: 8, start: 0 },
    ]
}

fn collection() -> (Store, DbRef) {
    let mut store = Store::new_in_use();
    let rec = store.claim(1);
    (store, DbRef { store_nr: 0, rec, pos: 4 })
}

/// Claim an element record and write its coordinates.
fn add_point(store: &mut Store, coll: &DbRef, keys: &[Key], x: i64, y: i64) -> u32 {
    let rec = store.claim(3);
    store.set_int(rec, PAYLOAD, x);
    store.set_int(rec, PAYLOAD + 8, y);
    let element = DbRef { store_nr: 0, rec, pos: PAYLOAD };
    add(coll, &element, std::slice::from_mut(store), keys);
    rec
}

/// The whole code of a point.
fn code_at(x: i64, y: i64) -> [u64; MAX_AXES] {
    let mut codes = [0u64; MAX_AXES];
    codes[0] = coord_code(x);
    codes[1] = coord_code(y);
    morton_words(2, &codes)
}

fn code_of(store: &Store, rec: u32, keys: &[Key]) -> [u64; MAX_AXES] {
    let mut codes = [0u64; MAX_AXES];
    for a in 0..2 {
        codes[a] = axis_code(store, rec, &keys[a]);
    }
    morton_words(2, &codes)
}

#[test]
fn d1_insert_and_find_round_trip() {
    let (mut store, coll) = collection();
    let keys = xy_keys();
    let mut seed = 0x2024_1111_2222_3333;
    let mut pts: Vec<(i64, i64, u32)> = Vec::new();
    for _ in 0..400 {
        let (x, y) = (lcg(&mut seed) % 2000 - 1000, lcg(&mut seed) % 2000 - 1000);
        if pts.iter().any(|&(px, py, _)| px == x && py == y) {
            continue;
        }
        let rec = add_point(&mut store, &coll, &keys, x, y);
        pts.push((x, y, rec));
    }
    let stores = std::slice::from_ref(&store);
    for &(x, y, rec) in &pts {
        let found = find(&coll, stores, &keys, &[Content::Long(x), Content::Long(y)]);
        assert_eq!(found.rec, rec, "find({x},{y}) must reach its record");
        assert_eq!(found.pos, PAYLOAD);
    }
    let absent = find(&coll, stores, &keys, &[Content::Long(999_999), Content::Long(1)]);
    assert_eq!(absent.rec, 0, "an absent key returns null");
    let walked = records(&coll, stores);
    assert_eq!(walked.len(), pts.len(), "the walk enumerates every record once");
    let unique: std::collections::HashSet<u32> = walked.iter().copied().collect();
    assert_eq!(unique.len(), pts.len(), "no record appears twice");
}

#[test]
fn d2_same_cell_keeps_every_record() {
    let (mut store, coll) = collection();
    let keys = xy_keys();
    add_point(&mut store, &coll, &keys, 1, 1);
    let bucket: Vec<u32> =
        (0..3).map(|_| add_point(&mut store, &coll, &keys, 5, 7)).collect();
    add_point(&mut store, &coll, &keys, 9, 9);
    let stores = std::slice::from_ref(&store);
    assert_eq!(records(&coll, stores).len(), 5, "no record was dropped");
    let walk = records(&coll, stores);
    let first = walk.iter().position(|r| bucket.contains(r)).unwrap();
    let mut got: Vec<u32> = walk[first..first + 3].to_vec();
    got.sort_unstable();
    let mut want = bucket.clone();
    want.sort_unstable();
    assert_eq!(got, want, "the three same-bucket records are one contiguous run");
}

#[test]
fn d4_range_matches_the_code_interval() {
    let (mut store, coll) = collection();
    let keys = xy_keys();
    let mut seed = 0x77aa_33cc_11ee_9988;
    let mut pts = Vec::new();
    for _ in 0..400 {
        let (x, y) = (lcg(&mut seed) % 400 - 200, lcg(&mut seed) % 400 - 200);
        pts.push(add_point(&mut store, &coll, &keys, x, y));
    }
    let stores = std::slice::from_ref(&store);
    for _ in 0..100 {
        let (fx, fy) = (lcg(&mut seed) % 400 - 200, lcg(&mut seed) % 400 - 200);
        let from = code_at(fx, fy);
        let got = range(&coll, stores, &keys, &[fx, fy], None, None);
        let mut want: Vec<([u64; MAX_AXES], u32)> = pts
            .iter()
            .map(|&rec| (code_of(&store, rec, &keys), rec))
            .filter(|(c, _)| !code_gt(&from, c, 2))
            .collect();
        want.sort_unstable();
        let want_recs: Vec<u32> = want.into_iter().map(|(_, r)| r).collect();
        assert_eq!(got, want_recs, "range from ({fx},{fy}) must be the code tail in order");
    }
    let all = range(&coll, stores, &keys, &[-1000, -1000], None, None);
    let capped = range(&coll, stores, &keys, &[-1000, -1000], None, Some(5));
    assert_eq!(capped.len(), 5.min(all.len()));
    assert_eq!(capped, all[..capped.len()].to_vec(), "limit is a prefix of the full walk");
}

#[test]
fn d5_box_walk_is_exactly_the_box() {
    let (mut store, coll) = collection();
    let keys = xy_keys();
    let mut seed = 0x51ee_2c40_9a17_0031;
    let mut pts = Vec::new();
    for _ in 0..500 {
        let (x, y) = (lcg(&mut seed) % 400 - 200, lcg(&mut seed) % 400 - 200);
        pts.push((x, y, add_point(&mut store, &coll, &keys, x, y)));
    }
    let stores = std::slice::from_ref(&store);
    let mut nonempty = 0;
    for _ in 0..300 {
        let (cx, cy) = (lcg(&mut seed) % 500 - 250, lcg(&mut seed) % 500 - 250);
        let (rx, ry) = (lcg(&mut seed) % 90, lcg(&mut seed) % 90);
        let (from, till) = ([cx - rx, cy - ry], [cx + rx, cy + ry]);
        let got = box_range(&coll, stores, &keys, &from, &till, None);
        let mut want: Vec<([u64; MAX_AXES], u32)> = pts
            .iter()
            .filter(|&&(x, y, _)| x >= from[0] && x <= till[0] && y >= from[1] && y <= till[1])
            .map(|&(_, _, rec)| (code_of(&store, rec, &keys), rec))
            .collect();
        want.sort_unstable();
        let want: Vec<u32> = want.into_iter().map(|(_, r)| r).collect();
        assert_eq!(got, want, "box {from:?}..{till:?} must be exactly the box");
        nonempty += usize::from(!want.is_empty());
        let today: Vec<u32> = range(&coll, stores, &keys, &from, Some(&till), None)
            .into_iter()
            .filter(|&r| in_box(&store, r, &keys, &from, &till))
            .collect();
        assert_eq!(got, today, "pruning must not change the answer");
        let cap = box_range(&coll, stores, &keys, &from, &till, Some(3));
        assert_eq!(cap, want[..want.len().min(3)].to_vec());
    }
    assert!(
        nonempty > 200,
        "only {nonempty} of 300 boxes held a record — the fixture is not exercising the walk"
    );
    let a = box_range(&coll, stores, &keys, &[-50, -50], &[50, 50], None);
    let b = box_range(&coll, stores, &keys, &[50, -50], &[-50, 50], None);
    assert_eq!(a, b, "which corner is written first is not part of the box");
    assert!(!a.is_empty(), "the fixture must have points in the middle");
}

#[test]
fn d6_box_walk_skips_the_gaps() {
    let (mut store, coll) = collection();
    let keys = xy_keys();
    let mut seed = 0x0bad_c0de_1234_5678;
    for i in 0..3i64 {
        for j in 0..8i64 {
            let (cx, cy) = (i * 10_000 + 500, j * 10_000 + 500);
            for _ in 0..400 {
                let (x, y) = (cx + lcg(&mut seed) % 200, cy + lcg(&mut seed) % 200);
                add_point(&mut store, &coll, &keys, x, y);
            }
        }
    }
    let stores = std::slice::from_ref(&store);
    let tree = store.get_u32_raw(coll.rec, coll.pos);
    let (from, till) = ([0i64, 400], [30_000i64, 750]);
    let hits = box_range(&coll, stores, &keys, &from, &till, None);
    let interval = range(&coll, stores, &keys, &from, Some(&till), None).len();
    let (mut qlo, mut qhi) = ([0u64; MAX_AXES], [0u64; MAX_AXES]);
    for a in 0..2 {
        qlo[a] = coord_code(from[a]);
        qhi[a] = coord_code(till[a]);
    }
    let mut src = Counting::new(StoreBox::new(&store, tree, &keys), false);
    let walked = box_walk(&mut src, 2, &qlo, &qhi, usize::MAX);
    assert_eq!(walked, hits, "the counted walk is the same walk");
    let read = src.read_count();
    let mut kept = Counting::new(StoreBox::new(&store, tree, &keys), true);
    box_walk(&mut kept, 2, &qlo, &qhi, usize::MAX);
    assert_eq!(kept.into_reads().len(), read, "the reads are those that are counted");
    let found = hits.len();
    assert!(
        interval > 3 * found.max(1),
        "the fixture must have a code interval much wider than the box \
         (interval {interval}, box {found}) — it is not exercising the skip"
    );
    assert!(
        read < found + (interval - found) / 2,
        "the walk read {read} records for a box of {found} inside an interval \
         of {interval} — it is stepping through the gaps, not skipping them"
    );
}

#[test]
fn d3_offset_binary_orders_negatives_below_positives() {
    assert!(coord_code(-1) < coord_code(0), "-1 must encode below 0");
    assert!(coord_code(0) < coord_code(1), "0 below 1");
    assert!(coord_code(i64::MIN) < coord_code(i64::MAX), "min below max");
    assert!((-1i64 as u64) > (1i64 as u64), "sanity: raw bits are misordered");
}

/// One width that a coordinate axis can have.
struct Width {
    type_nr: i8,
    stride: u16,
    start: i32,
    span: (i64, i64),
    name: &'static str,
}

const WIDTHS: &[Width] = &[
    Width { type_nr: 1, stride: 8, start: 0, span: (-40_000, 40_000), name: "integer" },
    Width { type_nr: 2, stride: 8, start: 0, span: (-40_000, 40_000), name: "long" },
    Width { type_nr: 8, stride: 4, start: 0, span: (-40_000, 40_000), name: "int32" },
    Width { type_nr: 9, stride: 2, start: 0, span: (0, 60_000), name: "short" },
    Width { type_nr: 9, stride: 2, start: 1_000, span: (1_000, 61_000), name: "short start=1000" },
    Width { type_nr: 10, stride: 1, start: 0, span: (0, 255), name: "byte" },
    Width { type_nr: 10, stride: 1, start: -128, span: (-128, 127), name: "i8" },
    Width { type_nr: 10, stride: 1, start: 100, span: (100, 355), name: "byte start=100" },
    Width { type_nr: 11, stride: 2, start: 0, span: (0, 65_535), name: "u16" },
    Width { type_nr: 11, stride: 2, start: -32_768, span: (-32_768, 32_767), name: "i16" },
];

fn keys_for(w: &Width) -> Vec<Key> {
    vec![
        Key { type_nr: w.type_nr, position: 0, start: w.start },
        Key { type_nr: w.type_nr, position: w.stride, start: w.start },
    ]
}

fn write_axis(store: &mut Store, rec: u32, key: &Key, v: i64) {
    let p = PAYLOAD + u32::from(key.position);
    let min = key.start;
    let ok = match key.type_nr.unsigned_abs() {
        2 => {
            store.set_long(rec, p, v);
            true
        }
        8 => {
            store.set_i32_raw(rec, p, v as i32);
            true
        }
        9 => store.set_short(rec, p, min, v),
        10 => store.set_byte(rec, p, min, v),
        11 => store.set_short_full(rec, p, min, v),
        _ => {
            store.set_int(rec, p, v);
            true
        }
    };
    assert!(ok, "write of {v} refused for type_nr {} min {min}", key.type_nr);
}

#[test]
fn every_axis_width_decodes_to_what_was_written() {
    for w in WIDTHS {
        let keys = keys_for(w);
        let mut store = Store::new_in_use();
        let words = 1 + u32::from(w.stride * 2).div_ceil(8);
        let (lo, hi) = w.span;
        let probes = [lo, lo + 1, -1, 0, 1, hi - 1, hi];
        for &v in &probes {
            if v < lo || v > hi {
                continue;
            }
            let rec = store.claim(words);
            write_axis(&mut store, rec, &keys[0], v);
            write_axis(&mut store, rec, &keys[1], v);
            assert_eq!(axis_i64(&store, rec, &keys[0]), v, "{} read of {v}", w.name);
            assert_eq!(axis_i64(&store, rec, &keys[1]), v, "{} read of {v}", w.name);
        }
    }
}

#[test]
fn every_axis_width_answers_boxes() {
    for w in WIDTHS {
        let keys = keys_for(w);
        let (mut store, coll) = collection();
        let (lo, hi) = w.span;
        let span = hi - lo;
        let words = 1 + u32::from(w.stride * 2).div_ceil(8);
        let mut seed = 0x51ee_2c40_9a17_0031_u64;
        let mut pts = Vec::new();
        for _ in 0..200 {
            let (x, y) = (lo + lcg(&mut seed) % (span + 1), lo + lcg(&mut seed) % (span + 1));
            let rec = store.claim(words);
            write_axis(&mut store, rec, &keys[0], x);
            write_axis(&mut store, rec, &keys[1], y);
            let element = DbRef { store_nr: 0, rec, pos: PAYLOAD };
            add(&coll, &element, std::slice::from_mut(&mut store), &keys);
            pts.push((x, y, rec));
        }
        let stores = std::slice::from_ref(&store);
        for _ in 0..40 {
            let (cx, cy) = (lo + lcg(&mut seed) % span, lo + lcg(&mut seed) % span);
            let r = span / 6;
            let (from, till) = ([cx - r, cy - r], [cx + r, cy + r]);
            let mut got = box_range(&coll, stores, &keys, &from, &till, None);
            got.sort_unstable();
            let mut want: Vec<u32> = pts
                .iter()
                .filter(|(x, y, _)| {
                    from[0] <= *x && *x <= till[0] && from[1] <= *y && *y <= till[1]
                })
                .map(|(_, _, rec)| *rec)
                .collect();
            want.sort_unstable();
            assert_eq!(got, want, "{} box {from:?}..{till:?}", w.name);
        }
        let whole = box_range(&coll, stores, &keys, &[hi, hi], &[lo, lo], None);
        assert_eq!(whole.len(), pts.len(), "{}: the whole plane", w.name);
    }
}

#[test]
fn a_value_out_of_range_is_not_written() {
    let mut store = Store::new_in_use();
    let rec = store.claim(2);
    assert!(store.set_byte(rec, PAYLOAD, -128, -128));
    assert!(!store.set_byte(rec, PAYLOAD, -128, 128));
    assert_eq!(store.get_byte(rec, PAYLOAD, -128), -128);
    assert!(!store.set_short(rec, PAYLOAD, 0, 65_535));
    assert!(store.set_short(rec, PAYLOAD, 0, 65_534));
    assert_eq!(store.get_short(rec, PAYLOAD, 0), 65_534);
    assert!(store.set_short_full(rec, PAYLOAD, 0, 65_535));
    assert_eq!(store.get_short_full(rec, PAYLOAD, 0), 65_535);
}

#[test]
fn removing_takes_one_record() {
    let (mut store, coll) = collection();
    let keys = xy_keys();
    let a = add_point(&mut store, &coll, &keys, 5, 7);
    let b = add_point(&mut store, &coll, &keys, 5, 7);
    let c = add_point(&mut store, &coll, &keys, -3, 2);
    let element = DbRef { store_nr: 0, rec: a, pos: PAYLOAD };
    assert_eq!(count(&coll, std::slice::from_ref(&store)), 3);
    assert!(remove(&coll, &element, std::slice::from_mut(&mut store), &keys));
    assert!(!remove(&coll, &element, std::slice::from_mut(&mut store), &keys));
    let stores = std::slice::from_ref(&store);
    let mut left = records(&coll, stores);
    left.sort_unstable();
    assert_eq!(left, [b, c]);
    assert_eq!(find(&coll, stores, &keys, &[Content::Long(5), Content::Long(7)]).rec, b);
}

#[test]
fn adding_a_record_twice_keeps_it_once() {
    let (mut store, coll) = collection();
    let keys = xy_keys();
    let a = add_point(&mut store, &coll, &keys, 5, 7);
    let element = DbRef { store_nr: 0, rec: a, pos: PAYLOAD };
    add(&coll, &element, std::slice::from_mut(&mut store), &keys);
    assert_eq!(records(&coll, std::slice::from_ref(&store)), [a]);
}

#[test]
fn the_nearest_codes_come_first() {
    let (mut store, coll) = collection();
    let keys = xy_keys();
    let mut pts = Vec::new();
    for i in -10..10i64 {
        let (x, y) = (i * 7, i * 3);
        pts.push((code_at(x, y), add_point(&mut store, &coll, &keys, x, y)));
    }
    let stores = std::slice::from_ref(&store);
    let at = code_at(4, 4);
    let got = near_range(&coll, stores, &keys, &[4, 4], None);
    assert_eq!(got.len(), pts.len());
    let diff = |rec: u32| {
        let (code, _) = pts.iter().find(|(_, r)| *r == rec).unwrap();
        code_abs_diff(code, &at, 2)
    };
    for pair in got.windows(2) {
        assert!(
            !code_gt(&diff(pair[0]), &diff(pair[1]), 2),
            "{} is not nearer than {}",
            pair[0],
            pair[1]
        );
    }
    assert_eq!(near_range(&coll, stores, &keys, &[4, 4], Some(3)), got[..3].to_vec());
    assert_eq!(near_range(&coll, stores, &[], &[], None), Vec::<u32>::new());
}

#[test]
fn a_record_that_was_read_last_is_not_counted_again() {
    let (mut store, coll) = collection();
    let keys = xy_keys();
    let near = add_point(&mut store, &coll, &keys, 3, 3);
    let far = add_point(&mut store, &coll, &keys, 40, 40);
    let tree = store.get_u32_raw(coll.rec, coll.pos);
    let corner = |v: i64| {
        let mut codes = [0u64; MAX_AXES];
        codes[0] = coord_code(v);
        codes[1] = coord_code(v);
        codes
    };
    let mut src = Counting::new(StoreBox::new(&store, tree, &keys), true);
    assert_eq!(box_walk(&mut src, 2, &corner(0), &corner(90), 9), [near, far]);
    assert_eq!(src.read_count(), 2);
    assert_eq!(box_walk(&mut src, 2, &corner(40), &corner(90), 9), [far]);
    assert_eq!(src.read_count(), 2, "the walk starts with the record that was read last");
    assert_eq!(box_walk(&mut src, 2, &corner(0), &corner(90), 9), [near, far]);
    assert_eq!(src.read_count(), 4);
    assert_eq!(src.into_reads(), [near, far, near, far]);
}

#[test]
fn a_record_before_the_query_wins_a_tie() {
    let (mut store, coll) = collection();
    let keys = vec![Key { type_nr: 1, position: 0, start: 0 }];
    let mut at = |x: i64| {
        let rec = store.claim(3);
        store.set_int(rec, PAYLOAD, x);
        let element = DbRef { store_nr: 0, rec, pos: PAYLOAD };
        add(&coll, &element, std::slice::from_mut(&mut store), &keys);
        rec
    };
    let (r1, r4, r9) = (at(1), at(4), at(9));
    assert_eq!(store.trees.len(), 1, "one index for the collection");
    let stores = std::slice::from_ref(&store);
    assert_eq!(near_range(&coll, stores, &keys, &[5], None), [r4, r1, r9]);
    assert_eq!(near_range(&coll, stores, &keys, &[100], Some(1)), [r9]);
}

#[test]
fn codes_interleave_the_axes_from_the_top() {
    let mut codes = [0u64; MAX_AXES];
    codes[0] = 1 << 63;
    assert_eq!(interleave(0, 2, &codes), 1 << 63, "the first axis has the top bit");
    codes[0] = 0;
    codes[1] = 1 << 63;
    assert_eq!(interleave(0, 2, &codes), 1 << 62, "the second axis the one below");
    codes[0] = 0b11;
    codes[1] = 0b01;
    assert_eq!(interleave(1, 2, &codes), 0b1011);
    assert_eq!(interleave(2, 2, &codes), 0, "there is no third word");
    assert_eq!(key_bits(&xy_keys()), 128);
    let mut one = [0u64; MAX_AXES];
    one[0] = 5;
    assert_eq!(morton_words(1, &one)[0], 5, "one axis is its own code");
}

#[test]
fn codes_compare_and_subtract_as_one_number() {
    let (mut a, mut b) = ([0u64; MAX_AXES], [0u64; MAX_AXES]);
    a[0] = 1;
    b[1] = u64::MAX;
    assert!(code_gt(&a, &b, 2));
    assert!(!code_gt(&b, &a, 2));
    assert!(!code_gt(&a, &a, 2));
    let mut want = [0u64; MAX_AXES];
    want[1] = 1;
    assert_eq!(code_abs_diff(&a, &b, 2), want);
    assert_eq!(code_abs_diff(&b, &a, 2), want);
}

#[test]
fn the_next_point_in_a_box_is_the_smallest_beyond() {
    let axes = |x: u64, y: u64| {
        let mut a = [0u64; MAX_AXES];
        a[0] = x;
        a[1] = y;
        a
    };
    let (lo, hi) = (axes(1, 1), axes(3, 3));
    let code = |a: &[u64; MAX_AXES]| morton_words(2, a);
    for x in 0..5u64 {
        for y in 0..5u64 {
            let cur = axes(x, y);
            let mut want: Option<[u64; MAX_AXES]> = None;
            for bx in 1..4u64 {
                for by in 1..4u64 {
                    let p = axes(bx, by);
                    if !code_gt(&code(&cur), &code(&p), 2)
                        && want.map_or(true, |w| code_gt(&code(&w), &code(&p), 2))
                    {
                        want = Some(p);
                    }
                }
            }
            assert_eq!(bigmin(&cur, 2, &lo, &hi), want, "from ({x},{y})");
        }
    }
    let one = |x: u64| axes(x, 0);
    assert_eq!(bigmin(&one(5), 1, &one(3), &one(6)), Some(one(5)), "a point of the box");
    let (lo, hi) = (axes(1, 1), axes(2, 2));
    assert_eq!(bigmin(&axes(0, 2), 2, &lo, &hi), Some(axes(1, 2)));
    assert_eq!(bigmin(&axes(3, 0), 2, &lo, &hi), Some(axes(2, 2)));
    assert_eq!(bigmin(&axes(3, 3), 2, &lo, &hi), None);
    let padded = [1u64, 7, 9];
    assert_eq!(bigmin(&one(0), 1, &padded, &one(4)), Some(padded), "as the lower corner");
}

#[test]
fn a_distance_borrows_between_words() {
    let (a, b) = ([1u64, 0, 0], [0u64, 1, 0]);
    assert_eq!(code_abs_diff(&a, &b, 2), [0, u64::MAX, 0]);
    assert_eq!(code_abs_diff(&b, &a, 2), [0, u64::MAX, 0]);
    assert_eq!(code_abs_diff(&[5, 9, 9], &[3, 1, 1], 1), [2, 0, 0], "no word past the axes");
}

#[test]
fn a_text_finds_no_coordinate() {
    let (mut store, coll) = collection();
    let keys = xy_keys();
    let rec = add_point(&mut store, &coll, &keys, i64::MIN, i64::MIN);
    let stores = std::slice::from_ref(&store);
    let low = Content::Long(i64::MIN);
    assert_eq!(find(&coll, stores, &keys, &[low, Content::Long(i64::MIN)]).rec, rec);
    let text = Content::Text(String::new());
    assert_eq!(find(&coll, stores, &keys, &[Content::Long(i64::MIN), text]).rec, 0);
}

#[test]
fn a_cap_ends_the_walk() {
    let (mut store, coll) = collection();
    let keys = xy_keys();
    let inside: Vec<u32> =
        (0..5).map(|i| add_point(&mut store, &coll, &keys, 1, 10 + i)).collect();
    add_point(&mut store, &coll, &keys, 90, 90);
    let tree = store.get_u32_raw(coll.rec, coll.pos);
    let mut qlo = [0u64; MAX_AXES];
    let mut qhi = [0u64; MAX_AXES];
    for (a, (lo, hi)) in [(0, 2), (0, 50)].into_iter().enumerate() {
        qlo[a] = coord_code(lo);
        qhi[a] = coord_code(hi);
    }
    let walk = |cap: usize| {
        let mut src = Counting::new(StoreBox::new(&store, tree, &keys), true);
        let out = box_walk(&mut src, 2, &qlo, &qhi, cap);
        (out, src.read_count(), src.into_reads())
    };
    assert_eq!(walk(0), (vec![], 0, vec![]), "nothing is read for nothing");
    let (out, count, reads) = walk(2);
    assert_eq!(out, inside[..2]);
    assert_eq!((count, reads), (2, inside[..2].to_vec()), "nothing behind the last one");
    assert_eq!(walk(usize::MAX).0, inside);
}

#[test]
fn collections_of_one_store_do_not_meet() {
    let (mut store, first) = collection();
    let second = DbRef { store_nr: 0, rec: store.claim(1), pos: 4 };
    let keys = xy_keys();
    let a = add_point(&mut store, &first, &keys, 1, 2);
    let b = add_point(&mut store, &second, &keys, 3, 4);
    let c = add_point(&mut store, &first, &keys, 5, 6);
    assert_eq!(records(&second, std::slice::from_ref(&store)), [b]);
    let gone = DbRef { store_nr: 0, rec: c, pos: PAYLOAD };
    assert!(remove(&first, &gone, std::slice::from_mut(&mut store), &keys));
    assert_eq!(records(&first, std::slice::from_ref(&store)), [a]);
    assert_eq!(records(&second, std::slice::from_ref(&store)), [b]);
}
