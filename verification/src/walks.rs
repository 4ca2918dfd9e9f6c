//! Facts about filtering the first part of a sequence.

use vstd::prelude::*;

verus! {

pub proof fn filter_empty<A>(pred: spec_fn(A) -> bool)
    ensures
        Seq::<A>::empty().filter(pred) == Seq::<A>::empty(),
{
    reveal(Seq::filter);
}

/// One more element adds itself when it is chosen and nothing otherwise.
pub proof fn filter_step<A>(s: Seq<A>, pred: spec_fn(A) -> bool, i: int)
    requires
        0 <= i < s.len(),
    ensures
        s.take(i + 1).filter(pred) == if pred(s[i]) {
            s.take(i).filter(pred).push(s[i])
        } else {
            s.take(i).filter(pred)
        },
{
    reveal(Seq::filter);
    assert(s.take(i + 1).drop_last() =~= s.take(i));
}

/// What is chosen once one more element is there.
pub proof fn filter_push<A>(s: Seq<A>, pred: spec_fn(A) -> bool, x: A)
    ensures
        s.push(x).filter(pred) == if pred(x) {
            s.filter(pred).push(x)
        } else {
            s.filter(pred)
        },
{
    reveal(Seq::filter);
    assert(s.push(x).drop_last() =~= s);
}

/// Elements that are not chosen add nothing.
pub proof fn filter_skip<A>(s: Seq<A>, pred: spec_fn(A) -> bool, i: int, j: int)
    requires
        0 <= i <= j <= s.len(),
        forall|k: int| i <= k < j ==> !pred(#[trigger] s[k]),
    ensures
        s.take(j).filter(pred) == s.take(i).filter(pred),
    decreases j - i,
{
    if i < j {
        filter_skip(s, pred, i, j - 1);
        filter_step(s, pred, j - 1);
    }
}

/// Elements that are all chosen are all kept.
pub proof fn filter_keep<A>(s: Seq<A>, pred: spec_fn(A) -> bool, i: int)
    requires
        0 <= i <= s.len(),
        forall|k: int| 0 <= k < i ==> pred(#[trigger] s[k]),
    ensures
        s.take(i).filter(pred) == s.take(i),
    decreases i,
{
    if i == 0 {
        filter_empty(pred);
        assert(s.take(0) =~= Seq::<A>::empty());
    } else {
        filter_keep(s, pred, i - 1);
        filter_step(s, pred, i - 1);
        assert(s.take(i - 1).push(s[i - 1]) =~= s.take(i));
    }
}

/// Choices that agree on the elements choose the same.
pub proof fn filter_same<A>(s: Seq<A>, p: spec_fn(A) -> bool, q: spec_fn(A) -> bool)
    requires
        forall|k: int| 0 <= k < s.len() ==> p(#[trigger] s[k]) == q(s[k]),
    ensures
        s.filter(p) == s.filter(q),
    decreases s.len(),
{
    reveal(Seq::filter);
    if s.len() > 0 {
        filter_same(s.drop_last(), p, q);
        assert(p(s[s.len() - 1]) == q(s[s.len() - 1]));
    }
}

/// Choosing among the chosen is choosing by both.
pub proof fn filter_twice<A>(
    s: Seq<A>,
    p: spec_fn(A) -> bool,
    q: spec_fn(A) -> bool,
    both: spec_fn(A) -> bool,
)
    requires
        forall|k: int| 0 <= k < s.len() ==> both(#[trigger] s[k]) == (p(s[k]) && q(s[k])),
    ensures
        s.filter(p).filter(q) == s.filter(both),
    decreases s.len(),
{
    reveal(Seq::filter);
    if s.len() > 0 {
        let last = s[s.len() - 1];
        filter_twice(s.drop_last(), p, q, both);
        assert(both(last) == (p(last) && q(last)));
        if p(last) {
            assert(s.drop_last().filter(p).push(last).drop_last() =~= s.drop_last().filter(p));
        }
    }
}

/// No more is chosen than there is.
pub proof fn filter_len<A>(s: Seq<A>, pred: spec_fn(A) -> bool)
    ensures
        s.filter(pred).len() <= s.len(),
    decreases s.len(),
{
    reveal(Seq::filter);
    if s.len() > 0 {
        filter_len(s.drop_last(), pred);
    }
}

/// What is chosen from the first elements starts what is chosen from all.
pub proof fn filter_prefix<A>(s: Seq<A>, pred: spec_fn(A) -> bool, i: int)
    requires
        0 <= i <= s.len(),
    ensures
        s.take(i).filter(pred).len() <= s.filter(pred).len(),
        s.filter(pred).take(s.take(i).filter(pred).len() as int) == s.take(i).filter(pred),
    decreases s.len() - i,
{
    if i == s.len() {
        assert(s.take(i) =~= s);
        assert(s.filter(pred).take(s.filter(pred).len() as int) =~= s.filter(pred));
    } else {
        filter_prefix(s, pred, i + 1);
        filter_step(s, pred, i);
        let a = s.take(i).filter(pred);
        let b = s.take(i + 1).filter(pred);
        assert(b.take(a.len() as int) =~= a);
        assert(s.filter(pred).take(b.len() as int).take(a.len() as int) =~= s.filter(pred).take(
            a.len() as int,
        ));
    }
}

} // verus!
