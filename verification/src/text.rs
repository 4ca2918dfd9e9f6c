//! Comparing and joining text.

use vstd::prelude::*;
use vstd::string::*;

verus! {

/// Whether two texts are equal.
pub fn same(a: &str, b: &str) -> (equal: bool)
    ensures
        equal == (a@ == b@),
{
    let n: usize = a.unicode_len();
    if n != b.unicode_len() {
        return false;
    }
    let mut i: usize = 0;
    while i < n
        invariant
            n == a@.len(),
            n == b@.len(),
            i <= n,
            forall|j: int| 0 <= j < i ==> a@[j] == b@[j],
        decreases n - i,
    {
        if a.get_char(i) != b.get_char(i) {
            return false;
        }
        i = i + 1;
    }
    assert(a@ =~= b@);
    true
}

/// Whether `p` starts `s`.
pub open spec fn is_prefix(p: Seq<char>, s: Seq<char>) -> bool {
    p.len() <= s.len() && s.take(p.len() as int) == p
}

/// Whether text `s` starts with `p`.
pub fn starts_with(s: &str, p: &str) -> (starts: bool)
    ensures
        starts == is_prefix(p@, s@),
{
    let n: usize = p.unicode_len();
    if n > s.unicode_len() {
        return false;
    }
    let mut i: usize = 0;
    while i < n
        invariant
            n == p@.len(),
            n <= s@.len(),
            i <= n,
            forall|j: int| 0 <= j < i ==> s@[j] == p@[j],
        decreases n - i,
    {
        if s.get_char(i) != p.get_char(i) {
            assert(s@.take(n as int)[i as int] != p@[i as int]);
            return false;
        }
        i = i + 1;
    }
    assert(s@.take(n as int) =~= p@);
    true
}

/// Whether `p` stands somewhere in `s`.
pub open spec fn is_part(p: Seq<char>, s: Seq<char>) -> bool {
    exists|i: int| #[trigger] stands_at(p, s, i)
}

/// Whether `p` stands in `s` at position `i`.
pub open spec fn stands_at(p: Seq<char>, s: Seq<char>, i: int) -> bool {
    0 <= i && i + p.len() <= s.len() && s.subrange(i, i + p.len()) == p
}

/// Whether text `s` holds `p`.
pub fn holds(s: &str, p: &str) -> (found: bool)
    ensures
        found == is_part(p@, s@),
{
    let n: usize = p.unicode_len();
    let m: usize = s.unicode_len();
    if n > m {
        return false;
    }
    let mut i: usize = 0;
    while i <= m - n
        invariant
            n == p@.len(),
            m == s@.len(),
            n <= m,
            i <= m - n + 1,
            forall|j: int| 0 <= j < i ==> !#[trigger] stands_at(p@, s@, j),
        decreases m - n + 1 - i,
    {
        let mut k: usize = 0;
        while k < n && s.get_char(i + k) == p.get_char(k)
            invariant
                n == p@.len(),
                m == s@.len(),
                n <= m,
                i <= m - n,
                k <= n,
                forall|j: int| 0 <= j < k ==> s@[i + j] == p@[j],
            decreases n - k,
        {
            k = k + 1;
        }
        if k == n {
            assert(s@.subrange(i as int, i + n) =~= p@);
            assert(stands_at(p@, s@, i as int));
            return true;
        }
        assert(s@.subrange(i as int, i + n)[k as int] != p@[k as int]);
        i = i + 1;
    }
    false
}

/// Two texts, one after the other.
pub fn join(a: &str, b: &str) -> (s: String)
    ensures
        s@ == a@ + b@,
{
    let mut s: String = a.to_owned();
    s.append(b);
    s
}

/// The character of a digit.
pub open spec fn digit(d: nat) -> char {
    if d == 0 {
        '0'
    } else if d == 1 {
        '1'
    } else if d == 2 {
        '2'
    } else if d == 3 {
        '3'
    } else if d == 4 {
        '4'
    } else if d == 5 {
        '5'
    } else if d == 6 {
        '6'
    } else if d == 7 {
        '7'
    } else if d == 8 {
        '8'
    } else {
        '9'
    }
}

/// A number in decimal digits.
pub open spec fn decimal_of(n: nat) -> Seq<char>
    decreases n,
{
    if n < 10 {
        seq![digit(n)]
    } else {
        decimal_of(n / 10).push(digit(n % 10))
    }
}

fn digit_text(d: u64) -> (s: &'static str)
    requires
        d < 10,
    ensures
        s@ == seq![digit(d as nat)],
{
    proof {
        reveal_strlit("0");
        reveal_strlit("1");
        reveal_strlit("2");
        reveal_strlit("3");
        reveal_strlit("4");
        reveal_strlit("5");
        reveal_strlit("6");
        reveal_strlit("7");
        reveal_strlit("8");
        reveal_strlit("9");
    }
    let s: &'static str = if d == 0 {
        "0"
    } else if d == 1 {
        "1"
    } else if d == 2 {
        "2"
    } else if d == 3 {
        "3"
    } else if d == 4 {
        "4"
    } else if d == 5 {
        "5"
    } else if d == 6 {
        "6"
    } else if d == 7 {
        "7"
    } else if d == 8 {
        "8"
    } else {
        "9"
    };
    assert(s@ =~= seq![digit(d as nat)]);
    s
}

/// The decimal digits of `n`.
pub fn decimal(n: u64) -> (s: String)
    ensures
        s@ == decimal_of(n as nat),
    decreases n,
{
    if n < 10 {
        digit_text(n).to_owned()
    } else {
        let high: String = decimal(n / 10);
        let low: &'static str = digit_text(n % 10);
        let s: String = join(high.as_str(), low);
        assert(s@ =~= decimal_of(n as nat));
        s
    }
}

/// The text with every `from` in it, read from the left, replaced by `to`.
pub open spec fn with_replaced(s: Seq<char>, from: Seq<char>, to: Seq<char>) -> Seq<char>
    decreases s.len(),
{
    if s.len() == 0 || from.len() == 0 {
        s
    } else if is_prefix(from, s) {
        to + with_replaced(s.skip(from.len() as int), from, to)
    } else {
        seq![s[0]] + with_replaced(s.skip(1), from, to)
    }
}

/// The text with every `from` in it, read from the left, replaced by `to`.
pub fn replace(s: &str, from: &str, to: &str) -> (out: String)
    ensures
        out@ == with_replaced(s@, from@, to@),
{
    let n: usize = s.unicode_len();
    let m: usize = from.unicode_len();
    let mut out: String = String::new();
    let mut i: usize = 0;
    assert(s@.skip(0) =~= s@);
    assert(out@ =~= Seq::<char>::empty());
    if m == 0 {
        return s.to_owned();
    }
    while i < n
        invariant
            n == s@.len(),
            m == from@.len(),
            m > 0,
            i <= n,
            with_replaced(s@, from@, to@) == out@ + with_replaced(s@.skip(i as int), from@, to@),
        decreases n - i,
    {
        let ghost rest = s@.skip(i as int);
        let ghost before = out@;
        let at: &str = s.substring_char(i, n);
        assert(at@ =~= rest);
        if starts_with(at, from) {
            out.append(to);
            assert(rest.skip(m as int) =~= s@.skip(i + m));
            assert(before + (to@ + with_replaced(s@.skip(i + m), from@, to@)) =~= (before + to@)
                + with_replaced(s@.skip(i + m), from@, to@));
            i = i + m;
        } else {
            let one: &str = s.substring_char(i, i + 1);
            out.append(one);
            assert(one@ =~= seq![rest[0]]);
            assert(rest.skip(1) =~= s@.skip(i + 1));
            assert(before + (seq![rest[0]] + with_replaced(s@.skip(i + 1), from@, to@)) =~= (before
                + seq![rest[0]]) + with_replaced(s@.skip(i + 1), from@, to@));
            i = i + 1;
        }
    }
    assert(s@.skip(i as int) =~= Seq::<char>::empty());
    assert(out@ + Seq::<char>::empty() =~= out@);
    out
}

/// The views of a list of texts.
pub open spec fn texts(s: Seq<String>) -> Seq<Seq<char>> {
    Seq::new(s.len(), |i: int| s[i]@)
}

/// Whether `name` is one of `names`.
pub fn contains(names: &Vec<String>, name: &str) -> (found: bool)
    ensures
        found == texts(names@).contains(name@),
{
    let mut i: usize = 0;
    while i < names.len()
        invariant
            i <= names.len(),
            forall|j: int| 0 <= j < i ==> texts(names@)[j] != name@,
        decreases names.len() - i,
    {
        if same(names[i].as_str(), name) {
            assert(texts(names@)[i as int] == name@);
            return true;
        }
        i = i + 1;
    }
    false
}

/// The value of a decimal digit.
pub open spec fn digit_value(c: char) -> Option<nat> {
    if '0' <= c && c <= '9' {
        Some((c as u32 - '0' as u32) as nat)
    } else {
        None
    }
}

/// The number that a text of decimal digits writes; `None` for any other text.
pub open spec fn digits_value(s: Seq<char>) -> Option<nat>
    decreases s.len(),
{
    if s.len() == 0 {
        Some(0)
    } else {
        match (digits_value(s.drop_last()), digit_value(s.last())) {
            (Some(n), Some(d)) => Some(10 * n + d),
            _ => None,
        }
    }
}

/// The number that a text writes: decimal digits, at least one, behind an optional
/// plus sign.
pub open spec fn number_of(s: Seq<char>) -> Option<nat> {
    let digits = if s.len() > 0 && s[0] == '+' {
        s.skip(1)
    } else {
        s
    };
    if digits.len() == 0 {
        None
    } else {
        digits_value(digits)
    }
}

/// The number that a text writes, where it is at most `max`.
pub open spec fn number_up_to(s: Seq<char>, max: nat) -> Option<nat> {
    match number_of(s) {
        Some(n) => if n <= max {
            Some(n)
        } else {
            None
        },
        None => None,
    }
}

/// The number that a text writes; `None` for a text that writes none, and for one that
/// is larger than `max`.
pub fn parse_number(s: &str, max: u64) -> (r: Option<u64>)
    ensures
        match r {
            Some(n) => number_up_to(s@, max as nat) == Some(n as nat),
            None => number_up_to(s@, max as nat) is None,
        },
{
    let n: usize = s.unicode_len();
    let from: usize = if n > 0 && s.get_char(0) == '+' {
        1
    } else {
        0
    };
    let ghost digits = s@.skip(from as int);
    assert(s@.skip(0) =~= s@);
    if from == n {
        return None;
    }
    let mut value: u64 = 0;
    let mut over: bool = false;
    let mut i: usize = from;
    assert(digits.take(0) =~= Seq::<char>::empty());
    while i < n
        invariant
            from <= i <= n == s@.len(),
            digits == s@.skip(from as int),
            number_of(s@) == digits_value(digits),
            match digits_value(digits.take(i - from)) {
                Some(v) => if over {
                    v > max
                } else {
                    v == value && v <= max
                },
                None => false,
            },
        decreases n - i,
    {
        let c: char = s.get_char(i);
        let ghost before = digits.take(i - from);
        assert(digits.take(i + 1 - from).drop_last() =~= before);
        assert(digits.take(i + 1 - from).last() == c);
        if !('0' <= c && c <= '9') {
            proof {
                not_a_number(digits, i + 1 - from);
            }
            return None;
        }
        let d: u64 = c as u64 - '0' as u64;
        if !over {
            if value > (u64::MAX - d) / 10 {
                over = true;
            } else {
                value = 10 * value + d;
                over = value > max;
            }
        }
        i = i + 1;
    }
    assert(digits.take(n - from) =~= digits);
    if over {
        None
    } else {
        Some(value)
    }
}

/// A text does not write a number when its start does not.
proof fn not_a_number(s: Seq<char>, k: int)
    requires
        0 <= k <= s.len(),
        digits_value(s.take(k)) is None,
    ensures
        digits_value(s) is None,
    decreases s.len() - k,
{
    if k < s.len() {
        assert(s.take(k + 1).drop_last() =~= s.take(k));
        not_a_number(s, k + 1);
    } else {
        assert(s.take(k) =~= s);
    }
}

/// Whether a character is white space.
pub open spec fn white(c: char) -> bool {
    let n = c as u32;
    ||| 0x9 <= n <= 0xd
    ||| n == 0x20
    ||| n == 0x85
    ||| n == 0xa0
    ||| n == 0x1680
    ||| 0x2000 <= n <= 0x200a
    ||| n == 0x2028
    ||| n == 0x2029
    ||| n == 0x202f
    ||| n == 0x205f
    ||| n == 0x3000
}

fn is_white(c: char) -> (r: bool)
    ensures
        r == white(c),
{
    let n: u32 = c as u32;
    (0x9 <= n && n <= 0xd) || n == 0x20 || n == 0x85 || n == 0xa0 || n == 0x1680 || (0x2000 <= n
        && n <= 0x200a) || n == 0x2028 || n == 0x2029 || n == 0x202f || n == 0x205f || n == 0x3000
}

/// The first position from `i` on of a character that is white or is not, as asked.
pub open spec fn first_white(s: Seq<char>, i: int, wanted: bool) -> int
    decreases s.len() - i,
{
    if i < 0 || i >= s.len() || white(s[i]) == wanted {
        i
    } else {
        first_white(s, i + 1, wanted)
    }
}

fn find_white(s: &str, from: usize, wanted: bool) -> (at: usize)
    requires
        from <= s@.len(),
    ensures
        at == first_white(s@, from as int, wanted),
        from <= at <= s@.len(),
{
    let n: usize = s.unicode_len();
    let mut i: usize = from;
    while i < n && is_white(s.get_char(i)) != wanted
        invariant
            from <= i <= n == s@.len(),
            first_white(s@, from as int, wanted) == first_white(s@, i as int, wanted),
        decreases n - i,
    {
        i = i + 1;
    }
    i
}

/// Word `k` of those from position `i` on; words stand between white space.
pub open spec fn nth_word(s: Seq<char>, i: int, k: nat) -> Option<Seq<char>>
    decreases k,
{
    let a = first_white(s, i, false);
    if a >= s.len() {
        None
    } else {
        let b = first_white(s, a, true);
        if k == 0 {
            Some(s.subrange(a, b))
        } else {
            nth_word(s, b, (k - 1) as nat)
        }
    }
}

/// Word `k` of a text.
pub fn word(s: &str, k: usize) -> (w: Option<&str>)
    ensures
        match w {
            Some(w) => nth_word(s@, 0, k as nat) == Some(w@),
            None => nth_word(s@, 0, k as nat) is None,
        },
{
    let n: usize = s.unicode_len();
    let mut at: usize = 0;
    let mut left: usize = k;
    loop
        invariant
            at <= n == s@.len(),
            nth_word(s@, 0, k as nat) == nth_word(s@, at as int, left as nat),
        decreases left,
    {
        let a: usize = find_white(s, at, false);
        if a >= n {
            return None;
        }
        let b: usize = find_white(s, a, true);
        if left == 0 {
            return Some(s.substring_char(a, b));
        }
        at = b;
        left = left - 1;
    }
}

/// How many characters at the end of a text are white.
pub open spec fn white_end(s: Seq<char>) -> nat
    decreases s.len(),
{
    if s.len() == 0 || !white(s.last()) {
        0
    } else {
        1 + white_end(s.drop_last())
    }
}

/// The text without the white space around it.
pub open spec fn trimmed(s: Seq<char>) -> Seq<char> {
    let a = first_white(s, 0, false);
    let rest = s.skip(a);
    rest.take(rest.len() - white_end(rest))
}

proof fn white_end_bound(s: Seq<char>)
    ensures
        white_end(s) <= s.len(),
    decreases s.len(),
{
    if s.len() > 0 && white(s.last()) {
        white_end_bound(s.drop_last());
    }
}

/// The text without the white space around it.
pub fn trim(s: &str) -> (out: &str)
    ensures
        out@ == trimmed(s@),
{
    let n: usize = s.unicode_len();
    let a: usize = find_white(s, 0, false);
    let ghost rest = s@.skip(a as int);
    let mut b: usize = n;
    assert(rest.take(n - a) =~= rest);
    while b > a && is_white(s.get_char(b - 1))
        invariant
            a <= b <= n == s@.len(),
            rest == s@.skip(a as int),
            white_end(rest) == (n - b) + white_end(rest.take(b - a)),
        decreases b,
    {
        assert(rest.take(b - a).last() == s@[b - 1]);
        assert(rest.take(b - a).drop_last() =~= rest.take(b - 1 - a));
        b = b - 1;
    }
    proof {
        if b > a {
            assert(rest.take(b - a).last() == s@[b - 1]);
        }
        white_end_bound(rest);
    }
    let out: &str = s.substring_char(a, b);
    assert(out@ =~= rest.take(b - a));
    out
}

/// The first position from `i` on of a character; the length when there is none.
pub open spec fn first_at(s: Seq<char>, c: char, i: int) -> int
    decreases s.len() - i,
{
    if i < 0 || i >= s.len() || s[i] == c {
        i
    } else {
        first_at(s, c, i + 1)
    }
}

/// The first position from `from` on of a character; the length when there is none.
pub fn find_char(s: &str, c: char, from: usize) -> (at: usize)
    requires
        from <= s@.len(),
    ensures
        at == first_at(s@, c, from as int),
        from <= at <= s@.len(),
{
    let n: usize = s.unicode_len();
    let mut i: usize = from;
    while i < n && s.get_char(i) != c
        invariant
            from <= i <= n == s@.len(),
            first_at(s@, c, from as int) == first_at(s@, c, i as int),
        decreases n - i,
    {
        i = i + 1;
    }
    i
}

/// How many characters stand up to the last of two characters, that one included.
pub open spec fn up_to_last(s: Seq<char>, c: char, d: char) -> int
    decreases s.len(),
{
    if s.len() == 0 || s.last() == c || s.last() == d {
        s.len() as int
    } else {
        up_to_last(s.drop_last(), c, d)
    }
}

/// How many characters stand up to the last of two characters, that one included; none
/// where neither stands in the text.
pub fn find_last(s: &str, c: char, d: char) -> (n: usize)
    ensures
        n == up_to_last(s@, c, d),
        n <= s@.len(),
{
    let m: usize = s.unicode_len();
    let mut n: usize = m;
    assert(s@.take(m as int) =~= s@);
    while n > 0 && s.get_char(n - 1) != c && s.get_char(n - 1) != d
        invariant
            n <= m == s@.len(),
            up_to_last(s@, c, d) == up_to_last(s@.take(n as int), c, d),
        decreases n,
    {
        assert(s@.take(n as int).drop_last() =~= s@.take(n - 1));
        n = n - 1;
    }
    n
}

/// The first position from `i` on where `p` stands in `s`.
pub open spec fn first_part(s: Seq<char>, p: Seq<char>, i: int) -> Option<int>
    decreases s.len() + 1 - i,
{
    if i < 0 || i + p.len() > s.len() {
        None
    } else if stands_at(p, s, i) {
        Some(i)
    } else {
        first_part(s, p, i + 1)
    }
}

/// The first position where `p` stands in `s`.
pub fn find_part(s: &str, p: &str) -> (at: Option<usize>)
    requires
        p@.len() > 0,
    ensures
        match at {
            Some(i) => first_part(s@, p@, 0) == Some(i as int) && i + p@.len() <= s@.len(),
            None => first_part(s@, p@, 0) is None,
        },
{
    let n: usize = s.unicode_len();
    let m: usize = p.unicode_len();
    if m > n {
        return None;
    }
    let mut i: usize = 0;
    while i <= n - m
        invariant
            n == s@.len(),
            m == p@.len(),
            0 < m <= n,
            i <= n - m + 1,
            first_part(s@, p@, 0) == first_part(s@, p@, i as int),
        decreases n - m + 1 - i,
    {
        let at: &str = s.substring_char(i, i + m);
        assert(at@ =~= s@.subrange(i as int, i + m));
        if same(at, p) {
            return Some(i);
        }
        i = i + 1;
    }
    None
}

/// The text without `p` at its start, where it starts with that.
pub open spec fn without_start(s: Seq<char>, p: Seq<char>) -> Option<Seq<char>> {
    if is_prefix(p, s) {
        Some(s.skip(p.len() as int))
    } else {
        None
    }
}

/// The text without `p` at its start; `None` when it does not start with that.
pub fn strip_start<'a>(s: &'a str, p: &str) -> (rest: Option<&'a str>)
    ensures
        match rest {
            Some(r) => without_start(s@, p@) == Some(r@),
            None => without_start(s@, p@) is None,
        },
{
    if starts_with(s, p) {
        let rest: &'a str = s.substring_char(p.unicode_len(), s.unicode_len());
        assert(rest@ =~= s@.skip(p@.len() as int));
        Some(rest)
    } else {
        None
    }
}

/// The text without `p` at its end, where it ends with that.
pub open spec fn without_end(s: Seq<char>, p: Seq<char>) -> Option<Seq<char>> {
    if p.len() <= s.len() && s.skip(s.len() - p.len()) == p {
        Some(s.take(s.len() - p.len()))
    } else {
        None
    }
}

/// The text without `p` at its end; `None` when it does not end with that.
pub fn strip_end<'a>(s: &'a str, p: &str) -> (rest: Option<&'a str>)
    ensures
        match rest {
            Some(r) => without_end(s@, p@) == Some(r@),
            None => without_end(s@, p@) is None,
        },
{
    let n: usize = s.unicode_len();
    let m: usize = p.unicode_len();
    if m > n {
        return None;
    }
    let tail: &str = s.substring_char(n - m, n);
    assert(tail@ =~= s@.skip(n - m));
    if same(tail, p) {
        let rest: &'a str = s.substring_char(0, n - m);
        assert(rest@ =~= s@.take(n - m));
        Some(rest)
    } else {
        None
    }
}

} // verus!
