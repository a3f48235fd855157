//! Orders, and a sort that keeps what ranks the same in the order in which it came.
use vstd::prelude::*;

verus! {

// ---------------------------------------------------------------- the order of byte strings

/// `a` stands before `b` in the order of byte strings: at the first place where they differ it
/// has the smaller byte, or it ends there.
pub open spec fn bytes_before(a: Seq<u8>, b: Seq<u8>) -> bool
    decreases a.len(),
{
    if b.len() == 0 {
        false
    } else if a.len() == 0 {
        true
    } else if a[0] != b[0] {
        a[0] < b[0]
    } else {
        bytes_before(a.drop_first(), b.drop_first())
    }
}

/// Of two byte strings one stands before the other, or they are the same.
pub proof fn law_bytes_are_ordered(a: Seq<u8>, b: Seq<u8>)
    ensures
        !(bytes_before(a, b) && bytes_before(b, a)),
        bytes_before(a, b) || bytes_before(b, a) || a == b,
        !bytes_before(a, a),
    decreases a.len(),
{
    if a.len() > 0 {
        law_bytes_are_ordered(a.drop_first(), a.drop_first());
    }
    if a.len() > 0 && b.len() > 0 && a[0] == b[0] {
        law_bytes_are_ordered(a.drop_first(), b.drop_first());
        if a.drop_first() == b.drop_first() {
            assert(a =~= seq![a[0]] + a.drop_first());
            assert(b =~= seq![b[0]] + b.drop_first());
        }
    } else if a.len() == 0 && b.len() == 0 {
        assert(a =~= b);
    }
}

/// What stands before a byte string stands before all that follow it.
pub proof fn law_bytes_order_is_transitive(a: Seq<u8>, b: Seq<u8>, c: Seq<u8>)
    requires
        bytes_before(a, b),
        bytes_before(b, c),
    ensures
        bytes_before(a, c),
    decreases a.len(),
{
    if a.len() > 0 && a[0] == b[0] && b[0] == c[0] {
        law_bytes_order_is_transitive(a.drop_first(), b.drop_first(), c.drop_first());
    }
}

/// Whether `a` stands before `b` in the order of byte strings.
pub fn is_before(a: &[u8], b: &[u8]) -> (r: bool)
    ensures
        r == bytes_before(a@, b@),
{
    let a_len = a.len();
    let b_len = b.len();
    let mut i: usize = 0;
    assert(a@.skip(0) =~= a@);
    assert(b@.skip(0) =~= b@);
    while i < a_len && i < b_len
        invariant
            a_len == a@.len(),
            b_len == b@.len(),
            i <= a_len,
            i <= b_len,
            bytes_before(a@, b@) == bytes_before(a@.skip(i as int), b@.skip(i as int)),
        decreases a_len - i,
    {
        if a[i] != b[i] {
            return a[i] < b[i];
        }
        assert(a@.skip(i as int).drop_first() =~= a@.skip(i + 1));
        assert(b@.skip(i as int).drop_first() =~= b@.skip(i + 1));
        i = i + 1;
    }
    i < b_len
}

// ---------------------------------------------------------------- ranks

/// Values that a list is sorted by.
pub trait Ranked: Sized {
    /// The value belongs behind the other.
    spec fn goes_after(self, other: Self) -> bool;

    /// Whether the value belongs behind the other.
    fn is_after(&self, other: &Self) -> (r: bool)
        ensures
            r == self.goes_after(*other),
    ;

    /// No two values belong behind each other, and a value between two others keeps them apart.
    proof fn ranks_agree(a: Self, b: Self, c: Self)
        ensures
            !(a.goes_after(b) && b.goes_after(a)),
            a.goes_after(c) ==> a.goes_after(b) || b.goes_after(c),
    ;
}

/// The values rank the same.
pub open spec fn tied<T: Ranked>(a: T, b: T) -> bool {
    !a.goes_after(b) && !b.goes_after(a)
}

/// No value of the list belongs behind a later one.
pub open spec fn in_order<T: Ranked>(s: Seq<T>) -> bool {
    forall|i: int, j: int| 0 <= i < j < s.len() ==> !(#[trigger] s[i]).goes_after(#[trigger] s[j])
}

/// The list with `x` behind all values that do not belong after it.
pub open spec fn placed<T: Ranked>(s: Seq<T>, x: T) -> Seq<T>
    decreases s.len(),
{
    if s.len() > 0 && s.last().goes_after(x) {
        placed(s.drop_last(), x).push(s.last())
    } else {
        s.push(x)
    }
}

/// The list, sorted: its values are placed one after the other.
pub open spec fn ranked<T: Ranked>(s: Seq<T>) -> Seq<T>
    decreases s.len(),
{
    if s.len() == 0 {
        s
    } else {
        placed(ranked(s.drop_last()), s.last())
    }
}

proof fn lemma_placed_at<T: Ranked>(s: Seq<T>, x: T) -> (p: int)
    requires
        in_order(s),
    ensures
        0 <= p <= s.len(),
        placed(s, x) == s.insert(p, x),
        forall|i: int| 0 <= i < p ==> !(#[trigger] s[i]).goes_after(x),
        forall|i: int| p <= i < s.len() ==> (#[trigger] s[i]).goes_after(x),
    decreases s.len(),
{
    if s.len() > 0 && s.last().goes_after(x) {
        let front = s.drop_last();
        assert forall|i: int, j: int| 0 <= i < j < front.len() implies !(
        #[trigger] front[i]).goes_after(#[trigger] front[j]) by {
            assert(front[i] == s[i] && front[j] == s[j]);
        }
        let p = lemma_placed_at(front, x);
        assert(front.insert(p, x).push(s.last()) =~= s.insert(p, x));
        assert forall|i: int| 0 <= i < p implies !(#[trigger] s[i]).goes_after(x) by {
            assert(front[i] == s[i]);
        }
        assert forall|i: int| p <= i < s.len() implies (#[trigger] s[i]).goes_after(x) by {
            if i < front.len() {
                assert(front[i] == s[i]);
            }
        }
        p
    } else {
        assert(s.push(x) =~= s.insert(s.len() as int, x));
        assert forall|i: int| 0 <= i < s.len() implies !(#[trigger] s[i]).goes_after(x) by {
            if i < s.len() - 1 {
                T::ranks_agree(s[i], s.last(), x);
            }
        }
        s.len() as int
    }
}

/// In a sorted list no value belongs behind a later one.
pub proof fn law_sorted_list_is_in_order<T: Ranked>(s: Seq<T>)
    ensures
        in_order(ranked(s)),
    decreases s.len(),
{
    if s.len() > 0 {
        law_sorted_list_is_in_order(s.drop_last());
        let front = ranked(s.drop_last());
        let x = s.last();
        let p = lemma_placed_at(front, x);
        let out = ranked(s);
        assert forall|i: int, j: int| 0 <= i < j < out.len() implies !(
        #[trigger] out[i]).goes_after(#[trigger] out[j]) by {
            let a = if i < p {
                i
            } else {
                i - 1
            };
            let b = if j < p {
                j
            } else {
                j - 1
            };
            if i != p && j != p {
                assert(!front[a].goes_after(front[b]));
            } else if i == p {
                assert(front[b].goes_after(x));
                T::ranks_agree(front[b], x, x);
            } else {
                assert(!front[a].goes_after(x));
            }
        }
    }
}

/// A sorted list holds the values of the list, each as often.
pub proof fn law_sorting_keeps_the_values<T: Ranked>(s: Seq<T>)
    ensures
        ranked(s).to_multiset() == s.to_multiset(),
        ranked(s).len() == s.len(),
    decreases s.len(),
{
    broadcast use vstd::seq_lib::group_to_multiset_ensures;

    if s.len() > 0 {
        law_sorting_keeps_the_values(s.drop_last());
        law_sorted_list_is_in_order(s.drop_last());
        let front = ranked(s.drop_last());
        let p = lemma_placed_at(front, s.last());
        assert(s =~= s.drop_last().push(s.last()));
    }
}

/// Values that rank the same stay in the order in which they came.
pub proof fn law_sorting_keeps_ties<T: Ranked>(s: Seq<T>, x: T)
    ensures
        ranked(s).filter(|y: T| tied(x, y)) == s.filter(|y: T| tied(x, y)),
    decreases s.len(),
{
    let tie = |y: T| tied(x, y);
    if s.len() > 0 {
        law_sorting_keeps_ties(s.drop_last(), x);
        law_sorted_list_is_in_order(s.drop_last());
        let front = ranked(s.drop_last());
        let last = s.last();
        let p = lemma_placed_at(front, last);
        assert(front =~= front.take(p) + front.skip(p));
        assert(ranked(s) =~= front.take(p).push(last) + front.skip(p));
        Seq::filter_distributes_over_add(front.take(p), front.skip(p), tie);
        Seq::filter_distributes_over_add(front.take(p).push(last), front.skip(p), tie);
        lemma_filter_push(front.take(p), last, tie);
        lemma_filter_push(s.drop_last(), last, tie);
        assert(s =~= s.drop_last().push(last));
        if tie(last) {
            let tail = front.skip(p);
            assert forall|i: int| 0 <= i < tail.len() implies !tie(#[trigger] tail[i]) by {
                assert(tail[i] == front[p + i]);
                assert(front[p + i].goes_after(last));
                T::ranks_agree(front[p + i], x, last);
            }
            lemma_filter_none(tail, tie);
            assert(front.take(p).filter(tie) + tail.filter(tie) =~= front.take(p).filter(tie));
            assert(ranked(s).filter(tie) =~= front.take(p).filter(tie).push(last));
        }
    }
}

/// A filter looks at a pushed value last.
pub proof fn lemma_filter_push<T>(s: Seq<T>, x: T, keep: spec_fn(T) -> bool)
    ensures
        s.push(x).filter(keep) == (if keep(x) {
            s.filter(keep).push(x)
        } else {
            s.filter(keep)
        }),
{
    reveal(Seq::filter);
    assert(s.push(x).drop_last() =~= s);
}

proof fn lemma_filter_none<T>(s: Seq<T>, keep: spec_fn(T) -> bool)
    requires
        forall|i: int| 0 <= i < s.len() ==> !keep(#[trigger] s[i]),
    ensures
        s.filter(keep) == Seq::<T>::empty(),
    decreases s.len(),
{
    reveal(Seq::filter);
    if s.len() > 0 {
        assert forall|i: int| 0 <= i < s.len() - 1 implies !keep(#[trigger] s.drop_last()[i]) by {
            assert(s.drop_last()[i] == s[i]);
        }
        lemma_filter_none(s.drop_last(), keep);
    }
}

/// Sorts a list.
pub fn stable_sort<T: Ranked>(v: Vec<T>) -> (out: Vec<T>)
    ensures
        out@ == ranked(v@),
{
    let ghost all = v@;
    let mut out: Vec<T> = Vec::new();
    assert(ranked(all.take(0)) =~= out@);
    for x in it: v
        invariant
            it.seq() == all,
            out@ == ranked(all.take(it.index() as int)),
    {
        let ghost n = it.index() as int;
        let ghost before = out@;
        let mut p: usize = out.len();
        proof {
            law_sorted_list_is_in_order(all.take(n));
        }
        while p > 0 && out[p - 1].is_after(&x)
            invariant
                p <= out.len(),
                out@ == before,
                in_order(before),
                forall|i: int| p <= i < before.len() ==> (#[trigger] before[i]).goes_after(x),
            decreases p,
        {
            p = p - 1;
        }
        proof {
            let q = lemma_placed_at(before, x);
            if q < p {
                assert(before[p - 1].goes_after(x));
            }
            if p < q {
                assert(before[p as int].goes_after(x));
            }
            assert(all.take(n + 1).drop_last() =~= all.take(n));
            assert(all.take(n + 1).last() == x);
        }
        out.insert(p, x);
    }
    assert(all.take(all.len() as int) =~= all);
    out
}

/// A byte string stands before another exactly where, behind a start that both have, it ends and
/// the other does not, or has the smaller byte.
pub proof fn law_bytes_differ_first(a: Seq<u8>, b: Seq<u8>)
    ensures
        bytes_before(a, b) <==> exists|p: int|
            0 <= p <= a.len() && p < b.len() && #[trigger] a.take(p) == b.take(p) && (p == a.len()
                || a[p] < b[p]),
    decreases a.len(),
{
    if bytes_before(a, b) {
        if a.len() == 0 || a[0] != b[0] {
            assert(a.take(0) =~= b.take(0));
        } else {
            let x = a.drop_first();
            let y = b.drop_first();
            law_bytes_differ_first(x, y);
            let p = choose|p: int|
                0 <= p <= x.len() && p < y.len() && #[trigger] x.take(p) == y.take(p) && (p
                    == x.len() || x[p] < y[p]);
            assert(a.take(p + 1) =~= seq![a[0]] + x.take(p));
            assert(b.take(p + 1) =~= seq![b[0]] + y.take(p));
            assert(a.take(p + 1) == b.take(p + 1));
        }
    }
    if exists|p: int|
        0 <= p <= a.len() && p < b.len() && #[trigger] a.take(p) == b.take(p) && (p == a.len()
            || a[p] < b[p]) {
        let p = choose|p: int|
            0 <= p <= a.len() && p < b.len() && #[trigger] a.take(p) == b.take(p) && (p == a.len()
                || a[p] < b[p]);
        if p > 0 {
            assert(a.take(p)[0] == b.take(p)[0]);
            let x = a.drop_first();
            let y = b.drop_first();
            assert(x.take(p - 1) =~= a.take(p).drop_first());
            assert(y.take(p - 1) =~= b.take(p).drop_first());
            assert(x.take(p - 1) == y.take(p - 1));
            law_bytes_differ_first(x, y);
        }
    }
}

/// A filter keeps a value that it lets through as often as it was there, and no other.
pub proof fn lemma_filter_counts<T>(s: Seq<T>, keep: spec_fn(T) -> bool, x: T)
    ensures
        s.filter(keep).to_multiset().count(x) == (if keep(x) {
            s.to_multiset().count(x)
        } else {
            0
        }),
    decreases s.len(),
{
    broadcast use vstd::seq_lib::group_to_multiset_ensures;

    reveal(Seq::filter);
    if s.len() > 0 {
        let t = s.drop_last();
        lemma_filter_counts(t, keep, x);
        assert(s =~= t.push(s.last()));
    }
}

/// A filter finds what it would find before another one that lets all of it through.
pub proof fn lemma_filter_twice<T>(
    s: Seq<T>,
    keep: spec_fn(T) -> bool,
    pick: spec_fn(T) -> bool,
)
    requires
        forall|x: T| #[trigger] pick(x) ==> keep(x),
    ensures
        s.filter(keep).filter(pick) == s.filter(pick),
    decreases s.len(),
{
    if s.len() > 0 {
        let t = s.drop_last();
        let x = s.last();
        lemma_filter_twice(t, keep, pick);
        assert(s =~= t.push(x));
        lemma_filter_push(t, x, keep);
        lemma_filter_push(t, x, pick);
        lemma_filter_push(t.filter(keep), x, pick);
        assert(pick(x) ==> keep(x));
    } else {
        reveal(Seq::filter);
        assert(s.filter(keep).filter(pick) =~= s.filter(pick));
    }
}

} // verus!
