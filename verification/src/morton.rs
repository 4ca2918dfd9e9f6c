//! Morton (Z-order) codes: several axis codes interleaved bit by bit into one
//! composite code, most significant bit first.
//!
//! A point is a sequence of axis codes.  Its composite bit `b` is bit
//! `63 - b / n` of axis `b % n`, so the composite code of `n` axes has `64 * n`
//! bits; `morton` is that code as a number and the functions below compute it
//! as `n` words of 64 bits.

use vstd::arithmetic::power2::*;
use vstd::prelude::*;

verus! {

/// How many bits one axis contributes to the composite code.
pub const AXIS_BITS: u32 = 64;

/// The most axes a composite code interleaves.
pub const MAX_AXES: usize = 3;

/// Bit `p` of `v`, counted from the least significant.
pub open spec fn bit(v: u64, p: u64) -> bool {
    (v >> p) & 1u64 == 1u64
}

/// The bit of axis `b % n` that the composite code of `z` shows at position `b`.
pub open spec fn composite_bit(z: Seq<u64>, n: int, b: int) -> nat {
    if bit(z[b % n], (63 - b / n) as u64) {
        1
    } else {
        0
    }
}

/// The first `b` composite bits of `z` as a number.
pub open spec fn prefix(z: Seq<u64>, n: int, b: nat) -> nat
    decreases b,
{
    if b == 0 {
        0
    } else {
        2 * prefix(z, n, (b - 1) as nat) + composite_bit(z, n, b - 1)
    }
}

/// The composite code of the first `n` axes of `z` as a number.
pub open spec fn morton(z: Seq<u64>, n: int) -> nat {
    prefix(z, n, (64 * n) as nat)
}

/// The `c` composite bits of `z` that start at position `s`, as a number.
pub open spec fn chunk(z: Seq<u64>, n: int, s: int, c: nat) -> nat
    decreases c,
{
    if c == 0 {
        0
    } else {
        2 * chunk(z, n, s, (c - 1) as nat) + composite_bit(z, n, s + c - 1)
    }
}

/// The first `n` words read as one number, the first word most significant.
pub open spec fn words_value(w: Seq<u64>, n: int) -> nat
    decreases n,
{
    if n <= 0 {
        0
    } else {
        words_value(w, n - 1) * 0x1_0000_0000_0000_0000 + w[n - 1] as nat
    }
}

/// The point whose axis codes are all zero.
pub fn no_axes() -> (z: [u64; MAX_AXES])
    ensures
        forall|i: int| 0 <= i < MAX_AXES ==> #[trigger] z@[i] == 0,
{
    [0u64, 0u64, 0u64]
}

/// Every one of the first `n` axes of `z` lies between those of `lo` and `hi`.
pub open spec fn boxed(z: Seq<u64>, lo: Seq<u64>, hi: Seq<u64>, n: int) -> bool {
    forall|k: int| 0 <= k < n ==> lo[k] <= #[trigger] z[k] && z[k] <= hi[k]
}

/// How many bits of axis `k` the first `b` composite bits leave open.
spec fn open_bits(n: int, k: int, b: int) -> u64 {
    (64 - (b + n - 1 - k) / n) as u64
}

proof fn lemma_open_bits(n: int, k: int, b: int)
    requires
        1 <= n <= 3,
        0 <= k < n,
        0 <= b <= 64 * n,
    ensures
        open_bits(n, k, b) <= 64,
        b == 0 ==> open_bits(n, k, b) == 64,
        b < 64 * n ==> 0 <= b % n < n && 0 <= b / n <= 63,
        b < 64 * n && k == b % n ==> open_bits(n, k, b) == 64 - b / n && open_bits(n, k, b + 1)
            == 63 - b / n,
        b < 64 * n && k != b % n ==> open_bits(n, k, b + 1) == open_bits(n, k, b),
{
    if n == 1 {
        assert(b / 1 == b && b % 1 == 0);
        assert((b + 0 - k) / 1 == b - k && (b + 1 - k) / 1 == b + 1 - k);
    } else if n == 2 {
        let q = b / 2;
        let r = b % 2;
        assert(b == 2 * q + r);
        assert(b / 2 == q && (b + 1) / 2 == q + r && (b + 2) / 2 == q + 1);
        assert(k == 0 || k == 1);
    } else {
        let q = b / 3;
        let r = b % 3;
        assert(b == 3 * q + r);
        assert((b + 1) / 3 == if r == 2 { q + 1 } else { q });
        assert((b + 2) / 3 == if r == 0 { q } else { q + 1 });
        assert((b + 3) / 3 == q + 1);
        assert(k == 0 || k == 1 || k == 2);
    }
}

proof fn lemma_split_bit(x: u64, y: u64, p: u64, q: u64)
    requires
        p <= 63,
        q == p + 1,
    ensures
        (x >> p == y >> p) <==> (x >> q == y >> q && ((x >> p) & 1 == 1 <==> (y
            >> p) & 1 == 1)),
{
    assert((x >> p == y >> p) <==> (x >> q == y >> q && ((x >> p) & 1 == 1 <==> (y
        >> p) & 1 == 1))) by (bit_vector)
        requires
            p <= 63,
            q == p + 1,
    ;
}

proof fn lemma_between(lo: u64, z: u64, hi: u64, r: u64)
    requires
        r <= 64,
        lo <= z <= hi,
        lo >> r == hi >> r,
    ensures
        z >> r == lo >> r,
{
    assert(z >> r == lo >> r) by (bit_vector)
        requires
            r <= 64,
            lo <= z && z <= hi,
            lo >> r == hi >> r,
    ;
}

proof fn lemma_bit_order(x: u64, y: u64, p: u64, q: u64)
    requires
        p <= 63,
        q == p + 1,
        x <= y,
        x >> q == y >> q,
    ensures
        bit(x, p) ==> bit(y, p),
{
    assert(((x >> p) & 1 == 1) ==> ((y >> p) & 1 == 1)) by (bit_vector)
        requires
            p <= 63,
            q == p + 1,
            x <= y,
            x >> q == y >> q,
    ;
}

/// Two points share their first `b` composite bits exactly when each axis
/// agrees above the bits that are still open.
proof fn lemma_agree(x: Seq<u64>, y: Seq<u64>, n: int, b: nat)
    requires
        1 <= n <= 3,
        b <= 64 * n,
    ensures
        prefix(x, n, b) == prefix(y, n, b) <==> forall|k: int|
            0 <= k < n ==> (#[trigger] x[k]) >> open_bits(n, k, b as int) == y[k] >> open_bits(
                n,
                k,
                b as int,
            ),
    decreases b,
{
    if b == 0 {
        assert forall|k: int| 0 <= k < n implies (#[trigger] x[k]) >> open_bits(n, k, 0) == y[k]
            >> open_bits(n, k, 0) by {
            lemma_open_bits(n, k, 0);
            let u = x[k];
            let v = y[k];
            assert(u >> 64 == v >> 64) by (bit_vector);
        }
    } else {
        let c = (b - 1) as nat;
        lemma_agree(x, y, n, c);
        let a = c as int % n;
        let p = (63 - c as int / n) as u64;
        lemma_open_bits(n, 0, c as int);
        lemma_open_bits(n, a, c as int);
        lemma_split_bit(x[a], y[a], p, open_bits(n, a, c as int));
                if prefix(x, n, b) == prefix(y, n, b) {
            assert forall|k: int| 0 <= k < n implies (#[trigger] x[k]) >> open_bits(n, k, b as int)
                == y[k] >> open_bits(n, k, b as int) by {
                lemma_open_bits(n, k, c as int);
            }
        }
        if forall|k: int|
            0 <= k < n ==> (#[trigger] x[k]) >> open_bits(n, k, b as int) == y[k] >> open_bits(
                n,
                k,
                b as int,
            ) {
            assert forall|k: int| 0 <= k < n implies (#[trigger] x[k]) >> open_bits(n, k, c as int)
                == y[k] >> open_bits(n, k, c as int) by {
                lemma_open_bits(n, k, c as int);
            }
        }
    }
}

/// A point whose prefix is smaller keeps being smaller however many more bits
/// are read.
proof fn lemma_prefix_order(x: Seq<u64>, y: Seq<u64>, n: int, b: nat, c: nat)
    requires
        b <= c,
        prefix(x, n, b) < prefix(y, n, b),
    ensures
        prefix(x, n, c) < prefix(y, n, c),
    decreases c,
{
    if b < c {
        lemma_prefix_order(x, y, n, b, (c - 1) as nat);
    }
}

proof fn lemma_prefix_monotone(x: Seq<u64>, y: Seq<u64>, n: int, b: nat)
    requires
        1 <= n <= 3,
        b <= 64 * n,
        forall|k: int| 0 <= k < n ==> #[trigger] x[k] <= y[k],
    ensures
        prefix(x, n, b) <= prefix(y, n, b),
    decreases b,
{
    if b > 0 {
        let c = (b - 1) as nat;
        lemma_prefix_monotone(x, y, n, c);
        if prefix(x, n, c) == prefix(y, n, c) {
            lemma_agree(x, y, n, c);
            let a = c as int % n;
            let p = (63 - c as int / n) as u64;
            lemma_open_bits(n, 0, c as int);
            lemma_open_bits(n, a, c as int);
                        assert(x[a] <= y[a]);
            lemma_bit_order(x[a], y[a], p, open_bits(n, a, c as int));
        }
    }
}

/// The composite code grows with every axis: a point that is nowhere larger
/// than another has no larger code.
pub proof fn morton_is_monotone(x: Seq<u64>, y: Seq<u64>, n: int)
    requires
        1 <= n <= MAX_AXES,
        forall|k: int| 0 <= k < n ==> #[trigger] x[k] <= y[k],
    ensures
        morton(x, n) <= morton(y, n),
{
    lemma_prefix_monotone(x, y, n, (64 * n) as nat);
}

/// Distinct points have distinct codes.
pub proof fn morton_is_injective(x: Seq<u64>, y: Seq<u64>, n: int)
    requires
        1 <= n <= MAX_AXES,
        morton(x, n) == morton(y, n),
    ensures
        forall|k: int| 0 <= k < n ==> #[trigger] x[k] == y[k],
{
    lemma_agree(x, y, n, (64 * n) as nat);
    assert forall|k: int| 0 <= k < n implies #[trigger] x[k] == y[k] by {
        assert(open_bits(n, k, 64 * n) == 0) by {
            if n == 1 {
                assert((64 + 0 - k) / 1 == 64);
            } else if n == 2 {
                assert((128 + 1 - k) / 2 == 64);
            } else {
                assert((192 + 2 - k) / 3 == 64);
            }
        }
        let u = x[k];
        let v = y[k];
        assert(u >> 0 == u && v >> 0 == v) by (bit_vector);
    }
}


proof fn lemma_chunk_bound(z: Seq<u64>, n: int, s: int, c: nat)
    ensures
        chunk(z, n, s, c) < pow2(c),
    decreases c,
{
    if c == 0 {
        lemma_pow2(0);
        lemma2_to64();
    } else {
        lemma_chunk_bound(z, n, s, (c - 1) as nat);
        lemma_pow2_unfold(c);
    }
}

proof fn lemma_prefix_chunk(z: Seq<u64>, n: int, s: nat, c: nat)
    ensures
        prefix(z, n, s + c) == prefix(z, n, s) * pow2(c) + chunk(z, n, s as int, c),
    decreases c,
{
    if c == 0 {
        lemma2_to64();
        assert(prefix(z, n, s) * 1 == prefix(z, n, s));
    } else {
        lemma_prefix_chunk(z, n, s, (c - 1) as nat);
        lemma_pow2_unfold(c);
        let u = prefix(z, n, s);
        let w = pow2((c - 1) as nat);
        assert(u * (2 * w) == 2 * (u * w)) by (nonlinear_arith);
    }
}

/// One word of the composite code: the composite bits from `64 * word` on.
/// A word beyond the last axis has no bits and reads as zero.
pub fn interleave(word: u32, n: usize, codes: &[u64; MAX_AXES]) -> (out: u64)
    requires
        n <= MAX_AXES,
    ensures
        word >= n ==> out == 0,
        word < n ==> out as nat == chunk(codes@, n as int, 64 * word, 64),
{
    let total: u64 = 64 * n as u64;
    let first: u64 = 64 * word as u64;
    let mut out: u64 = 0;
    let mut i: u64 = 0;
    while i < 64
        invariant
            n <= MAX_AXES,
            i <= 64,
            total == 64 * n,
            first == 64 * word,
            word >= n ==> out == 0,
            word < n ==> out as nat == chunk(codes@, n as int, 64 * word, i as nat),
        decreases 64 - i,
    {
        let b: u64 = first + i;
        let mut next: u64 = 0;
        if b < total {
            let axis: usize = (b % n as u64) as usize;
            let level: u64 = b / n as u64;
            proof {
                lemma_open_bits(n as int, 0, b as int);
            }
            let code: u64 = codes[axis];
            let p: u64 = 63 - level;
            next = (code >> p) & 1;
            assert((code >> p) & 1 == 0 || (code >> p) & 1 == 1) by (bit_vector);
        }
        proof {
            if word < n {
                lemma_chunk_bound(codes@, n as int, 64 * word, i as nat);
                if i < 63 {
                    lemma_pow2_strictly_increases(i as nat, 63);
                }
                lemma2_to64_rest();
                assert(out < 0x8000_0000_0000_0000);
            } else {
                assert(next == 0);
            }
        }
        out = 2 * out + next;
        i = i + 1;
    }
    out
}

/// The composite code of the first `n` axes as words, the first word most
/// significant; the words past `n` are zero.
pub fn morton_words(n: usize, codes: &[u64; MAX_AXES]) -> (words: [u64; MAX_AXES])
    requires
        n <= MAX_AXES,
    ensures
        words_value(words@, n as int) == morton(codes@, n as int),
        words@ == words_of(codes@, n as int),
{
    let mut words: [u64; MAX_AXES] = no_axes();
    let mut w: usize = 0;
    while w < n
        invariant
            w <= n <= MAX_AXES,
            words_value(words@, w as int) == prefix(codes@, n as int, (64 * w) as nat),
            forall|j: int|
                0 <= j < w ==> words[j] as nat == chunk(codes@, n as int, 64 * j, 64),
            forall|j: int| w <= j < MAX_AXES ==> words[j] == 0,
        decreases n - w,
    {
        let ghost before = words@;
        words[w] = interleave(w as u32, n, codes);
        proof {
            lemma_prefix_chunk(codes@, n as int, (64 * w) as nat, 64);
            lemma2_to64_rest();
            lemma_words_value_frame(before, words@, w as int);
        }
        w = w + 1;
    }
    assert(words@ =~= words_of(codes@, n as int));
    words
}

/// The composite code of one axis is the code of that axis.
pub proof fn one_axis_is_its_own_code(z: Seq<u64>)
    ensures
        morton(z, 1) == z[0],
{
    lemma_one_axis(z, 64);
    let v = z[0];
    assert(v >> 0u64 == v) by (bit_vector);
}

proof fn lemma_one_axis(z: Seq<u64>, b: nat)
    requires
        1 <= b <= 64,
    ensures
        prefix(z, 1, b) == z[0] >> ((64 - b) as u64),
    decreases b,
{
    let v = z[0];
    let p = (64 - b) as u64;
    let x = v >> p;
    assert(prefix(z, 1, b) == 2 * prefix(z, 1, (b - 1) as nat) + composite_bit(z, 1, b - 1));
    assert(((b - 1) as int) % 1 == 0 && ((b - 1) as int) / 1 == b - 1);
    assert((63 - (b - 1)) as u64 == p);
    assert(x & 1u64 == x % 2u64) by (bit_vector);
    if b == 1 {
        assert(v >> 63u64 < 2u64) by (bit_vector);
        assert(prefix(z, 1, 0) == 0);
    } else {
        lemma_one_axis(z, (b - 1) as nat);
        let q = (65 - b) as u64;
        assert(v >> q == x / 2u64) by (bit_vector)
            requires
                x == v >> p,
                q == p + 1,
                p < 63,
        ;
    }
}

/// The words of a point make its composite code.
pub proof fn words_make_the_code(z: Seq<u64>, n: int)
    requires
        0 <= n <= MAX_AXES,
    ensures
        words_value(words_of(z, n), n) == morton(z, n),
{
    lemma_words_prefix(z, n, n);
}

proof fn lemma_words_prefix(z: Seq<u64>, n: int, k: int)
    requires
        0 <= k <= n <= MAX_AXES,
    ensures
        words_value(words_of(z, n), k) == prefix(z, n, (64 * k) as nat),
    decreases k,
{
    if k > 0 {
        lemma_words_prefix(z, n, k - 1);
        lemma_prefix_chunk(z, n, (64 * (k - 1)) as nat, 64);
        lemma_chunk_bound(z, n, 64 * (k - 1), 64);
        lemma2_to64_rest();
    }
}

/// The words of the composite code over `n` axes; those past `n` are zero.
pub open spec fn words_of(z: Seq<u64>, n: int) -> Seq<u64> {
    Seq::new(
        MAX_AXES as nat,
        |w: int|
            if w < n {
                chunk(z, n, 64 * w, 64) as u64
            } else {
                0
            },
    )
}

proof fn lemma_words_value_frame(u: Seq<u64>, v: Seq<u64>, n: int)
    requires
        forall|i: int| 0 <= i < n ==> u[i] == v[i],
    ensures
        words_value(u, n) == words_value(v, n),
    decreases n,
{
    if n > 0 {
        lemma_words_value_frame(u, v, n - 1);
    }
}

/// Whether code `a` comes after code `b`, comparing word by word.
pub fn code_gt(a: &[u64; MAX_AXES], b: &[u64; MAX_AXES], n: usize) -> (gt: bool)
    requires
        n <= MAX_AXES,
    ensures
        gt == (words_value(a@, n as int) > words_value(b@, n as int)),
{
    proof {
        reveal_with_fuel(words_value, 4);
    }
    let mut i: usize = 0;
    while i < n
        invariant
            i <= n <= MAX_AXES,
            forall|j: int| 0 <= j < i ==> a[j] == b[j],
        decreases n - i,
    {
        if a[i] != b[i] {
            proof {
                reveal_with_fuel(words_value, 4);
            }
            return a[i] > b[i];
        }
        i = i + 1;
    }
    false
}

/// The distance between two codes, as words.
pub fn code_abs_diff(a: &[u64; MAX_AXES], b: &[u64; MAX_AXES], n: usize) -> (out: [u64; MAX_AXES])
    requires
        n <= MAX_AXES,
    ensures
        words_value(out@, n as int) as int == if words_value(a@, n as int) > words_value(
            b@,
            n as int,
        ) {
            words_value(a@, n as int) - words_value(b@, n as int)
        } else {
            words_value(b@, n as int) - words_value(a@, n as int)
        },
        forall|w: int| n <= w < MAX_AXES ==> out@[w] == 0,
{
    if code_gt(a, b, n) {
        code_sub(a, b, n)
    } else {
        code_sub(b, a, n)
    }
}

/// The value of word `v` where `k` words follow it.
spec fn placed(v: nat, k: int) -> nat {
    if k == 0 {
        v
    } else if k == 1 {
        v * 0x1_0000_0000_0000_0000nat
    } else if k == 2 {
        v * 0x1_0000_0000_0000_0000_0000_0000_0000_0000nat
    } else {
        v * 0x1_0000_0000_0000_0000_0000_0000_0000_0000_0000_0000_0000_0000nat
    }
}

/// What the words from `i` on contribute to the value of `n` words.
spec fn tail_value(w: Seq<u64>, n: int, i: int) -> nat
    decreases n - i,
{
    if i >= n {
        0
    } else {
        placed(w[i] as nat, n - 1 - i) + tail_value(w, n, i + 1)
    }
}

proof fn lemma_tail_value(w: Seq<u64>, n: int)
    requires
        0 <= n <= 3,
    ensures
        tail_value(w, n, 0) == words_value(w, n),
{
    reveal_with_fuel(words_value, 4);
    reveal_with_fuel(tail_value, 4);
}

proof fn lemma_tail_value_frame(u: Seq<u64>, v: Seq<u64>, n: int, i: int)
    requires
        forall|j: int| i <= j < n ==> u[j] == v[j],
    ensures
        tail_value(u, n, i) == tail_value(v, n, i),
    decreases n - i,
{
    if i < n {
        lemma_tail_value_frame(u, v, n, i + 1);
    }
}

proof fn lemma_tail_bound(w: Seq<u64>, n: int, i: int)
    requires
        0 <= i <= n <= 3,
    ensures
        tail_value(w, n, i) < placed(1, n - i),
    decreases n - i,
{
    if i < n {
        lemma_tail_bound(w, n, i + 1);
    }
}

fn code_sub(hi: &[u64; MAX_AXES], lo: &[u64; MAX_AXES], n: usize) -> (out: [u64; MAX_AXES])
    requires
        n <= MAX_AXES,
        words_value(lo@, n as int) <= words_value(hi@, n as int),
    ensures
        words_value(out@, n as int) == words_value(hi@, n as int) - words_value(lo@, n as int),
        forall|w: int| n <= w < MAX_AXES ==> out@[w] == 0,
{
    let mut out: [u64; MAX_AXES] = no_axes();
    let mut borrow: u64 = 0;
    let mut i: usize = n;
    while i > 0
        invariant
            i <= n <= MAX_AXES,
            borrow <= 1,
            tail_value(out@, n as int, i as int) + tail_value(lo@, n as int, i as int)
                == tail_value(hi@, n as int, i as int) + placed(borrow as nat, n - i),
            forall|w: int| n <= w < MAX_AXES ==> out@[w] == 0,
        decreases i,
    {
        i = i - 1;
        let d: u64 = hi[i].wrapping_sub(lo[i]);
        let b1: bool = hi[i] < lo[i];
        let e: u64 = d.wrapping_sub(borrow);
        let b2: bool = d < borrow;
        let ghost before = out@;
        let ghost was = borrow;
        out[i] = e;
        borrow = if b1 || b2 { 1 } else { 0 };
        proof {
            lemma_tail_value_frame(before, out@, n as int, i + 1);
            assert(e + lo[i as int] + was == hi[i as int] + borrow * 0x1_0000_0000_0000_0000);
            let k = n - 1 - i;
            assert(k == 0 || k == 1 || k == 2);
        }
    }
    proof {
        lemma_tail_value(out@, n as int);
        lemma_tail_value(lo@, n as int);
        lemma_tail_value(hi@, n as int);
        lemma_tail_bound(out@, n as int, 0);
    }
    out
}


fn set_one_below_zero(v: u64, p: u64) -> (r: u64)
    requires
        p <= 63,
    ensures
        r == (v & !mask_through(p)) | (1u64 << p),
{
    let mask: u64 = low_mask(p);
    (v & !mask) | (1u64 << p)
}

fn set_zero_below_one(v: u64, p: u64) -> (r: u64)
    requires
        p <= 63,
    ensures
        r == (v & !mask_through(p)) | (mask_through(p) >> 1u64),
{
    let mask: u64 = low_mask(p);
    (v & !mask) | (mask >> 1)
}

/// The bits up to and with `p`.
spec fn mask_through(p: u64) -> u64 {
    0xffff_ffff_ffff_ffffu64 >> (63 - p)
}

fn low_mask(p: u64) -> (m: u64)
    requires
        p <= 63,
    ensures
        m == mask_through(p),
{
    0xffff_ffff_ffff_ffffu64 >> (63 - p)
}

/// Setting bit `p` and clearing all below gives the least value with that bit
/// among those that share the bits above.
proof fn lemma_set_one(lo: u64, z: u64, hi: u64, p: u64, q: u64)
    requires
        p <= 63,
        q == p + 1,
        lo <= hi,
        lo >> q == hi >> q,
        !bit(lo, p),
        bit(hi, p),
    ensures
        ({
            let r = (lo & !mask_through(p)) | (1u64 << p);
            &&& lo <= r <= hi
            &&& bit(r, p)
            &&& lo >> q == r >> q
            &&& z >> q == lo >> q && bit(z, p) ==> r <= z
        }),
{
    let m = mask_through(p);
    let w = (63 - p) as u64;
    assert(({
        let r = (lo & !m) | (1u64 << p);
        lo <= r && r <= hi && (r >> p) & 1 == 1 && lo >> q == r >> q && (z >> q == lo >> q && (z
            >> p) & 1 == 1 ==> r <= z)
    })) by (bit_vector)
        requires
            p <= 63,
            q == p + 1,
            w == 63 - p,
            m == 0xffff_ffff_ffff_ffffu64 >> w,
            lo <= hi,
            lo >> q == hi >> q,
            (lo >> p) & 1 != 1,
            (hi >> p) & 1 == 1,
    ;
}

/// Clearing bit `p` and setting all below gives the greatest value without that
/// bit among those that share the bits above.
proof fn lemma_set_zero(lo: u64, z: u64, hi: u64, p: u64, q: u64)
    requires
        p <= 63,
        q == p + 1,
        lo <= hi,
        lo >> q == hi >> q,
        !bit(lo, p),
        bit(hi, p),
    ensures
        ({
            let r = (hi & !mask_through(p)) | (mask_through(p) >> 1u64);
            &&& lo <= r <= hi
            &&& !bit(r, p)
            &&& lo >> q == r >> q
            &&& z >> q == lo >> q && !bit(z, p) ==> z <= r
        }),
{
    let m = mask_through(p);
    let w = (63 - p) as u64;
    assert(({
        let r = (hi & !m) | (m >> 1u64);
        lo <= r && r <= hi && (r >> p) & 1 != 1 && lo >> q == r >> q && (z >> q == lo >> q && (z
            >> p) & 1 != 1 ==> z <= r)
    })) by (bit_vector)
        requires
            p <= 63,
            q == p + 1,
            w == 63 - p,
            m == 0xffff_ffff_ffff_ffffu64 >> w,
            lo <= hi,
            lo >> q == hi >> q,
            (lo >> p) & 1 != 1,
            (hi >> p) & 1 == 1,
    ;
}


/// What it means for `found` to be the next point of a box from `cur` on: the
/// point of the box with the least code that is not below that of `cur`, if the
/// box holds any such point.
pub open spec fn next_in_box(
    cur: Seq<u64>,
    n: int,
    lo: Seq<u64>,
    hi: Seq<u64>,
    found: Option<Seq<u64>>,
) -> bool {
    match found {
        None => forall|z: Seq<u64>| #[trigger] boxed(z, lo, hi, n) ==> morton(z, n) < morton(cur, n),
        Some(m) => {
            &&& boxed(m, lo, hi, n)
            &&& morton(m, n) >= morton(cur, n)
            &&& forall|z: Seq<u64>| #[trigger]
                boxed(z, lo, hi, n) && morton(z, n) >= morton(cur, n) ==> morton(m, n) <= morton(z, n)
        },
    }
}

/// What it means for `found` to be the point of a box with the least code above
/// that of `cur`, if the box holds any such point.
spec fn above_in_box(
    cur: Seq<u64>,
    n: int,
    lo: Seq<u64>,
    hi: Seq<u64>,
    found: Option<Seq<u64>>,
) -> bool {
    match found {
        None => forall|z: Seq<u64>| #[trigger] boxed(z, lo, hi, n) ==> morton(z, n) <= morton(cur, n),
        Some(m) => {
            &&& boxed(m, lo, hi, n)
            &&& morton(m, n) > morton(cur, n)
            &&& forall|z: Seq<u64>| #[trigger]
                boxed(z, lo, hi, n) && morton(z, n) > morton(cur, n) ==> morton(m, n) <= morton(z, n)
        },
    }
}

/// The part `lo..=hi` of the box `qlo..=qhi` that shares the first `b`
/// composite bits of `cur`.
spec fn narrowed(
    cur: Seq<u64>,
    n: int,
    qlo: Seq<u64>,
    qhi: Seq<u64>,
    lo: Seq<u64>,
    hi: Seq<u64>,
    b: nat,
) -> bool {
    &&& prefix(lo, n, b) == prefix(cur, n, b)
    &&& prefix(hi, n, b) == prefix(cur, n, b)
    &&& boxed(lo, qlo, qhi, n)
    &&& boxed(hi, qlo, qhi, n)
    &&& boxed(lo, qlo, hi, n)
    &&& forall|z: Seq<u64>| #[trigger]
        boxed(z, qlo, qhi, n) && prefix(z, n, b) == prefix(cur, n, b) ==> boxed(z, lo, hi, n)
}

/// `best` is the least point of the box whose first `b` composite bits already
/// exceed those of `cur`, if there is one.
spec fn best_above(
    cur: Seq<u64>,
    n: int,
    qlo: Seq<u64>,
    qhi: Seq<u64>,
    best: Option<Seq<u64>>,
    b: nat,
) -> bool {
    match best {
        None => forall|z: Seq<u64>| #[trigger]
            boxed(z, qlo, qhi, n) ==> prefix(z, n, b) <= prefix(cur, n, b),
        Some(m) => {
            &&& boxed(m, qlo, qhi, n)
            &&& prefix(m, n, b) > prefix(cur, n, b)
            &&& forall|z: Seq<u64>| #[trigger]
                boxed(z, qlo, qhi, n) && prefix(z, n, b) > prefix(cur, n, b) ==> morton(m, n)
                    <= morton(z, n)
        },
    }
}

/// Within a box whose corners share a prefix every point shares it, and its
/// next bit lies between those of the corners.
proof fn lemma_corner_bits(lo: Seq<u64>, z: Seq<u64>, hi: Seq<u64>, n: int, b: nat)
    requires
        1 <= n <= 3,
        b < 64 * n,
        boxed(z, lo, hi, n),
        prefix(lo, n, b) == prefix(hi, n, b),
    ensures
        prefix(z, n, b) == prefix(lo, n, b),
        composite_bit(lo, n, b as int) <= composite_bit(z, n, b as int) <= composite_bit(
            hi,
            n,
            b as int,
        ),
{
    lemma_agree(lo, hi, n, b);
    lemma_agree(z, lo, n, b);
    lemma_agree(z, hi, n, b);
    assert forall|k: int| 0 <= k < n implies (#[trigger] z[k]) >> open_bits(n, k, b as int) == lo[k]
        >> open_bits(n, k, b as int) by {
        lemma_open_bits(n, k, b as int);
        assert(lo[k] >> open_bits(n, k, b as int) == hi[k] >> open_bits(n, k, b as int));
        lemma_between(lo[k], z[k], hi[k], open_bits(n, k, b as int));
    }
    let a = b as int % n;
    let p = (63 - b as int / n) as u64;
    lemma_open_bits(n, 0, b as int);
    lemma_open_bits(n, a, b as int);
    assert(z[a] >> open_bits(n, a, b as int) == lo[a] >> open_bits(n, a, b as int));
    assert(lo[a] >> open_bits(n, a, b as int) == hi[a] >> open_bits(n, a, b as int));
    lemma_bit_order(lo[a], z[a], p, open_bits(n, a, b as int));
    lemma_bit_order(z[a], hi[a], p, open_bits(n, a, b as int));
}

/// What replacing one axis does to a prefix when the bits above stay.
proof fn lemma_replace_axis(x: Seq<u64>, y: Seq<u64>, n: int, b: nat)
    requires
        1 <= n <= 3,
        b < 64 * n,
        forall|k: int| 0 <= k < n && k != b as int % n ==> x[k] == #[trigger] y[k],
        x[b as int % n] >> ((64 - b as int / n) as u64) == y[b as int % n] >> ((64 - b as int / n) as u64),
    ensures
        prefix(x, n, b) == prefix(y, n, b),
{
    lemma_agree(x, y, n, b);
    assert forall|k: int| 0 <= k < n implies (#[trigger] x[k]) >> open_bits(n, k, b as int) == y[k]
        >> open_bits(n, k, b as int) by {
        lemma_open_bits(n, k, b as int);
    }
}

/// The box reaches both sides of the next bit and `cur` stands on the lower
/// one: the upper half starts at `cand`, and the search goes on below it.
proof fn lemma_split_above(
    cur: Seq<u64>,
    n: int,
    qlo: Seq<u64>,
    qhi: Seq<u64>,
    lo: Seq<u64>,
    hi: Seq<u64>,
    best: Option<Seq<u64>>,
    b: nat,
    one: u64,
    zero: u64,
)
    requires
        1 <= n <= 3,
        b < 64 * n,
        lo.len() == 3,
        hi.len() == 3,
        narrowed(cur, n, qlo, qhi, lo, hi, b),
        best_above(cur, n, qlo, qhi, best, b),
        composite_bit(cur, n, b as int) == 0,
        composite_bit(lo, n, b as int) == 0,
        composite_bit(hi, n, b as int) == 1,
        ({
            let p = (63 - b as int / n) as u64;
            &&& one == (lo[b as int % n] & !mask_through(p)) | (1u64 << p)
            &&& zero == (hi[b as int % n] & !mask_through(p)) | (mask_through(p) >> 1u64)
        }),
    ensures
        narrowed(cur, n, qlo, qhi, lo, hi.update(b as int % n, zero), b + 1),
        best_above(cur, n, qlo, qhi, Some(lo.update(b as int % n, one)), b + 1),
{
    let a = b as int % n;
    let p = (63 - b as int / n) as u64;
    let q = (64 - b as int / n) as u64;
    lemma_open_bits(n, 0, b as int);
    lemma_open_bits(n, a, b as int);
    lemma_agree(lo, hi, n, b);
    assert(lo[a] >> q == hi[a] >> q);
    let cand = lo.update(a, one);
    let below = hi.update(a, zero);
    lemma_set_one(lo[a], 0, hi[a], p, q);
    lemma_set_zero(lo[a], 0, hi[a], p, q);
    lemma_replace_axis(cand, lo, n, b);
    lemma_replace_axis(below, hi, n, b);
    assert(boxed(cand, qlo, qhi, n)) by {
        assert forall|k: int| 0 <= k < n implies qlo[k] <= #[trigger] cand[k] && cand[k]
            <= qhi[k] by {
            assert(qlo[k] <= lo[k] && lo[k] <= hi[k] && hi[k] <= qhi[k]);
        }
    }
    assert forall|k: int| 0 <= k < n implies lo[k] <= #[trigger] below[k] && below[k] <= hi[k] by {
        assert(lo[k] <= hi[k]);
    }
    assert(boxed(below, qlo, qhi, n)) by {
        assert forall|k: int| 0 <= k < n implies qlo[k] <= #[trigger] below[k] && below[k]
            <= qhi[k] by {
            assert(qlo[k] <= lo[k] && hi[k] <= qhi[k]);
        }
    }
    assert(boxed(lo, qlo, below, n)) by {
        assert forall|k: int| 0 <= k < n implies qlo[k] <= #[trigger] lo[k] && lo[k]
            <= below[k] by {
            assert(below[k] == below[k]);
        }
    }
    assert forall|z: Seq<u64>| #[trigger]
        boxed(z, qlo, qhi, n) && prefix(z, n, b + 1) == prefix(cur, n, b + 1) implies boxed(
        z,
        lo,
        below,
        n,
    ) by {
        assert(boxed(z, lo, hi, n));
        lemma_agree(z, lo, n, b);
        assert(z[a] >> q == lo[a] >> q);
        lemma_set_zero(lo[a], z[a], hi[a], p, q);
        assert forall|k: int| 0 <= k < n implies lo[k] <= #[trigger] z[k] && z[k] <= below[k] by {}
    }
    assert forall|z: Seq<u64>| #[trigger]
        boxed(z, qlo, qhi, n) && prefix(z, n, b + 1) > prefix(cur, n, b + 1) implies morton(cand, n)
        <= morton(z, n) by {
        if prefix(z, n, b) == prefix(cur, n, b) {
            assert(boxed(z, lo, hi, n));
            lemma_agree(z, lo, n, b);
            assert(z[a] >> q == lo[a] >> q);
            lemma_set_one(lo[a], z[a], hi[a], p, q);
            assert forall|k: int| 0 <= k < n implies #[trigger] cand[k] <= z[k] by {
                assert(lo[k] <= z[k]);
            }
            morton_is_monotone(cand, z, n);
        } else {
            lemma_prefix_order(cand, z, n, b, (64 * n) as nat);
        }
    }
}

/// The box reaches both sides of the next bit and `cur` stands on the upper
/// one: the lower half is behind and the search goes on from its end.
proof fn lemma_split_below(
    cur: Seq<u64>,
    n: int,
    qlo: Seq<u64>,
    qhi: Seq<u64>,
    lo: Seq<u64>,
    hi: Seq<u64>,
    best: Option<Seq<u64>>,
    b: nat,
    one: u64,
)
    requires
        1 <= n <= 3,
        b < 64 * n,
        lo.len() == 3,
        narrowed(cur, n, qlo, qhi, lo, hi, b),
        best_above(cur, n, qlo, qhi, best, b),
        composite_bit(cur, n, b as int) == 1,
        composite_bit(lo, n, b as int) == 0,
        composite_bit(hi, n, b as int) == 1,
        ({
            let p = (63 - b as int / n) as u64;
            one == (lo[b as int % n] & !mask_through(p)) | (1u64 << p)
        }),
    ensures
        narrowed(cur, n, qlo, qhi, lo.update(b as int % n, one), hi, b + 1),
        best_above(cur, n, qlo, qhi, best, b + 1),
{
    let a = b as int % n;
    let p = (63 - b as int / n) as u64;
    let q = (64 - b as int / n) as u64;
    lemma_open_bits(n, 0, b as int);
    lemma_open_bits(n, a, b as int);
    lemma_agree(lo, hi, n, b);
    assert(lo[a] >> q == hi[a] >> q);
    let above = lo.update(a, one);
    lemma_set_one(lo[a], 0, hi[a], p, q);
    lemma_replace_axis(above, lo, n, b);
    assert forall|k: int| 0 <= k < n implies lo[k] <= #[trigger] above[k] && above[k] <= hi[k] by {
        assert(lo[k] <= hi[k]);
    }
    assert(boxed(above, qlo, qhi, n)) by {
        assert forall|k: int| 0 <= k < n implies qlo[k] <= #[trigger] above[k] && above[k]
            <= qhi[k] by {
            assert(qlo[k] <= lo[k] && hi[k] <= qhi[k]);
        }
    }
    assert(boxed(above, qlo, hi, n));
    assert forall|z: Seq<u64>| #[trigger]
        boxed(z, qlo, qhi, n) && prefix(z, n, b + 1) == prefix(cur, n, b + 1) implies boxed(
        z,
        above,
        hi,
        n,
    ) by {
        assert(boxed(z, lo, hi, n));
        lemma_agree(z, lo, n, b);
        assert(z[a] >> q == lo[a] >> q);
        lemma_set_one(lo[a], z[a], hi[a], p, q);
        assert forall|k: int| 0 <= k < n implies above[k] <= #[trigger] z[k] && z[k] <= hi[k] by {}
    }
}

/// Points of one code are the same to a box.
proof fn lemma_same_code(x: Seq<u64>, y: Seq<u64>, lo: Seq<u64>, hi: Seq<u64>, n: int)
    requires
        1 <= n <= 3,
        boxed(x, lo, hi, n),
        morton(x, n) == morton(y, n),
    ensures
        boxed(y, lo, hi, n),
{
    morton_is_injective(x, y, n);
    assert forall|a: int| 0 <= a < n implies lo[a] <= #[trigger] y[a] && y[a] <= hi[a] by {
        assert(x[a] == y[a]);
    }
}

/// A point outside a box is below the next point that the box holds.
pub proof fn outside_is_below_the_next(cur: Seq<u64>, n: int, lo: Seq<u64>, hi: Seq<u64>, m: Seq<u64>)
    requires
        1 <= n <= 3,
        !boxed(cur, lo, hi, n),
        next_in_box(cur, n, lo, hi, Some(m)),
    ensures
        morton(cur, n) < morton(m, n),
{
    if morton(m, n) == morton(cur, n) {
        lemma_same_code(m, cur, lo, hi, n);
    }
}

/// Whether a point lies between two corners.
pub(crate) fn axes_inside(
    own: &[u64; MAX_AXES],
    n: usize,
    lo: &[u64; MAX_AXES],
    hi: &[u64; MAX_AXES],
) -> (inside: bool)
    requires
        n <= MAX_AXES,
    ensures
        inside == boxed(own@, lo@, hi@, n as int),
{
    let mut a: usize = 0;
    while a < n
        invariant
            a <= n <= MAX_AXES,
            forall|k: int| 0 <= k < a ==> lo@[k] <= #[trigger] own@[k] && own@[k] <= hi@[k],
        decreases n - a,
    {
        if own[a] < lo[a] || own[a] > hi[a] {
            assert(!(lo@[a as int] <= own@[a as int] && own@[a as int] <= hi@[a as int]));
            return false;
        }
        a = a + 1;
    }
    true
}

/// The point of the box `qlo..=qhi` with the least composite code that is not
/// below that of `cur`, or `None` when the box holds none.  Past the first `n` axes
/// the answer is as the lower corner.
pub fn bigmin(
    cur: &[u64; MAX_AXES],
    n: usize,
    qlo: &[u64; MAX_AXES],
    qhi: &[u64; MAX_AXES],
) -> (found: Option<[u64; MAX_AXES]>)
    requires
        1 <= n <= MAX_AXES,
        boxed(qlo@, qlo@, qhi@, n as int),
    ensures
        next_in_box(cur@, n as int, qlo@, qhi@, option_axes(found)),
        found matches Some(m) ==> forall|a: int| n <= a < MAX_AXES ==> m@[a] == qlo@[a],
{
    if axes_inside(cur, n, qlo, qhi) {
        let mut own: [u64; MAX_AXES] = *qlo;
        let mut a: usize = 0;
        while a < n
            invariant
                a <= n <= MAX_AXES,
                forall|k: int| 0 <= k < a ==> own@[k] == cur@[k],
                forall|k: int| n <= k < MAX_AXES ==> own@[k] == qlo@[k],
            decreases n - a,
        {
            own[a] = cur[a];
            a = a + 1;
        }
        proof {
            morton_is_monotone(own@, cur@, n as int);
            morton_is_monotone(cur@, own@, n as int);
            lemma_same_code(cur@, own@, qlo@, qhi@, n as int);
        }
        return Some(own);
    }
    let found: Option<[u64; MAX_AXES]> = least_above(cur, n, qlo, qhi);
    proof {
        assert forall|z: Seq<u64>| #[trigger] boxed(z, qlo@, qhi@, n as int) implies morton(
            z,
            n as int,
        ) != morton(cur@, n as int) by {
            if morton(z, n as int) == morton(cur@, n as int) {
                lemma_same_code(z, cur@, qlo@, qhi@, n as int);
            }
        }
    }
    found
}

/// The point of the box `qlo..=qhi` with the least composite code above that
/// of `cur`, or `None` when the box holds none.
fn least_above(
    cur: &[u64; MAX_AXES],
    n: usize,
    qlo: &[u64; MAX_AXES],
    qhi: &[u64; MAX_AXES],
) -> (found: Option<[u64; MAX_AXES]>)
    requires
        1 <= n <= MAX_AXES,
        boxed(qlo@, qlo@, qhi@, n as int),
    ensures
        above_in_box(cur@, n as int, qlo@, qhi@, option_axes(found)),
        found matches Some(m) ==> forall|a: int| n <= a < MAX_AXES ==> m@[a] == qlo@[a],
{
    let mut lo: [u64; MAX_AXES] = *qlo;
    let mut hi: [u64; MAX_AXES] = *qhi;
    let mut best: Option<[u64; MAX_AXES]> = None;
    let total: u32 = AXIS_BITS * n as u32;
    let mut b: u32 = 0;
    assert(boxed(hi@, qlo@, qhi@, n as int)) by {
        assert forall|k: int| 0 <= k < n implies qlo[k] <= #[trigger] hi@[k] && hi@[k] <= qhi[k] by {
            assert(qlo@[k] <= qhi@[k]);
        }
    }
    while b < total
        invariant
            1 <= n <= MAX_AXES,
            total == 64 * n,
            b <= total,
            narrowed(cur@, n as int, qlo@, qhi@, lo@, hi@, b as nat),
            best_above(cur@, n as int, qlo@, qhi@, option_axes(best), b as nat),
            forall|k: int| n <= k < MAX_AXES ==> lo@[k] == qlo@[k],
            best matches Some(m) ==> forall|k: int| n <= k < MAX_AXES ==> m@[k] == qlo@[k],
        decreases total - b,
    {
        proof {
            lemma_open_bits(n as int, 0, b as int);
            lemma_corner_bits(lo@, lo@, hi@, n as int, b as nat);
        }
        let a: usize = b as usize % n;
        let p: u64 = 63 - (b / n as u32) as u64;
        let c: u64 = (cur[a] >> p) & 1;
        let l: u64 = (lo[a] >> p) & 1;
        let h: u64 = (hi[a] >> p) & 1;
        if c != 1 && l != 1 && h == 1 {
            let one: u64 = set_one_below_zero(lo[a], p);
            let zero: u64 = set_zero_below_one(hi[a], p);
            proof {
                lemma_split_above(
                    cur@,
                    n as int,
                    qlo@,
                    qhi@,
                    lo@,
                    hi@,
                    option_axes(best),
                    b as nat,
                    one,
                    zero,
                );
            }
            let mut cand: [u64; MAX_AXES] = lo;
            cand[a] = one;
            best = Some(cand);
            hi[a] = zero;
        } else if c != 1 && l == 1 {
            proof {
                lemma_first_above(cur@, n as int, qlo@, qhi@, lo@, hi@, b as nat);
            }
            return Some(lo);
        } else if c == 1 && h != 1 {
            proof {
                lemma_all_below(cur@, n as int, qlo@, qhi@, lo@, hi@, option_axes(best), b as nat);
            }
            return best;
        } else if c == 1 && l != 1 {
            let one: u64 = set_one_below_zero(lo[a], p);
            proof {
                lemma_split_below(
                    cur@,
                    n as int,
                    qlo@,
                    qhi@,
                    lo@,
                    hi@,
                    option_axes(best),
                    b as nat,
                    one,
                );
            }
            lo[a] = one;
        } else {
            proof {
                lemma_same_side(cur@, n as int, qlo@, qhi@, lo@, hi@, option_axes(best), b as nat);
            }
        }
        b = b + 1;
    }
    best
}

pub open spec fn option_axes(found: Option<[u64; MAX_AXES]>) -> Option<Seq<u64>> {
    match found {
        None => None,
        Some(m) => Some(m@),
    }
}

proof fn lemma_first_above(
    cur: Seq<u64>,
    n: int,
    qlo: Seq<u64>,
    qhi: Seq<u64>,
    lo: Seq<u64>,
    hi: Seq<u64>,
    b: nat,
)
    requires
        1 <= n <= 3,
        b < 64 * n,
        narrowed(cur, n, qlo, qhi, lo, hi, b),
        composite_bit(cur, n, b as int) == 0,
        composite_bit(lo, n, b as int) == 1,
    ensures
        above_in_box(cur, n, qlo, qhi, Some(lo)),
{
    lemma_prefix_order(cur, lo, n, b + 1, (64 * n) as nat);
    assert forall|z: Seq<u64>| #[trigger]
        boxed(z, qlo, qhi, n) && morton(z, n) > morton(cur, n) implies morton(lo, n) <= morton(
        z,
        n,
    ) by {
        if prefix(z, n, b) < prefix(cur, n, b) {
            lemma_prefix_order(z, cur, n, b, (64 * n) as nat);
        } else if prefix(z, n, b) == prefix(cur, n, b) {
            assert(boxed(z, lo, hi, n));
            assert forall|k: int| 0 <= k < n implies #[trigger] lo[k] <= z[k] by {
                assert(lo[k] <= z[k]);
            }
            morton_is_monotone(lo, z, n);
        } else {
            lemma_prefix_order(lo, z, n, b, (64 * n) as nat);
        }
    }
}

proof fn lemma_all_below(
    cur: Seq<u64>,
    n: int,
    qlo: Seq<u64>,
    qhi: Seq<u64>,
    lo: Seq<u64>,
    hi: Seq<u64>,
    best: Option<Seq<u64>>,
    b: nat,
)
    requires
        1 <= n <= 3,
        b < 64 * n,
        narrowed(cur, n, qlo, qhi, lo, hi, b),
        best_above(cur, n, qlo, qhi, best, b),
        composite_bit(cur, n, b as int) == 1,
        composite_bit(hi, n, b as int) == 0,
    ensures
        above_in_box(cur, n, qlo, qhi, best),
{
    assert forall|z: Seq<u64>| #[trigger]
        boxed(z, qlo, qhi, n) && morton(z, n) > morton(cur, n) implies prefix(z, n, b) > prefix(
        cur,
        n,
        b,
    ) by {
        if prefix(z, n, b) < prefix(cur, n, b) {
            lemma_prefix_order(z, cur, n, b, (64 * n) as nat);
        } else if prefix(z, n, b) == prefix(cur, n, b) {
            assert(boxed(z, lo, hi, n));
            lemma_corner_bits(lo, z, hi, n, b);
            lemma_prefix_order(z, cur, n, b + 1, (64 * n) as nat);
        }
    }
    if best is Some {
        lemma_prefix_order(cur, best->0, n, b, (64 * n) as nat);
    }
}

proof fn lemma_same_side(
    cur: Seq<u64>,
    n: int,
    qlo: Seq<u64>,
    qhi: Seq<u64>,
    lo: Seq<u64>,
    hi: Seq<u64>,
    best: Option<Seq<u64>>,
    b: nat,
)
    requires
        1 <= n <= 3,
        b < 64 * n,
        narrowed(cur, n, qlo, qhi, lo, hi, b),
        best_above(cur, n, qlo, qhi, best, b),
        composite_bit(cur, n, b as int) == composite_bit(lo, n, b as int),
        composite_bit(cur, n, b as int) == composite_bit(hi, n, b as int),
    ensures
        narrowed(cur, n, qlo, qhi, lo, hi, b + 1),
        best_above(cur, n, qlo, qhi, best, b + 1),
{
    assert forall|z: Seq<u64>| #[trigger]
        boxed(z, qlo, qhi, n) && prefix(z, n, b) == prefix(cur, n, b) implies prefix(z, n, b + 1)
        == prefix(cur, n, b + 1) by {
        assert(boxed(z, lo, hi, n));
        lemma_corner_bits(lo, z, hi, n, b);
    }
}

} // verus!
