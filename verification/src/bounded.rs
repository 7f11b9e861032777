//! Bounded, sorted listings: a listing keeps the `limit` smallest items seen so
//! far, ordered by a two-part string key, without ever holding more than
//! `limit` items.

use vstd::prelude::*;
use crate::order::{compare_str, lemma_str_order, str_lt, Cmp};

verus! {

/// Lexicographic order on a (primary, secondary) pair of strings.
pub open spec fn pair_lt(a: (Seq<char>, Seq<char>), b: (Seq<char>, Seq<char>)) -> bool {
    str_lt(a.0, b.0) || (a.0 == b.0 && str_lt(a.1, b.1))
}

/// `pair_lt` is a strict total order.
pub proof fn lemma_pair_order()
    ensures
        forall|a: (Seq<char>, Seq<char>), b: (Seq<char>, Seq<char>)|
            #![trigger pair_lt(a, b), pair_lt(b, a)]
            pair_lt(a, b) || a == b || pair_lt(b, a),
        forall|a: (Seq<char>, Seq<char>), b: (Seq<char>, Seq<char>)|
            #[trigger] pair_lt(a, b) ==> !pair_lt(b, a) && a != b,
        forall|a: (Seq<char>, Seq<char>), b: (Seq<char>, Seq<char>), c: (Seq<char>, Seq<char>)|
            #[trigger] pair_lt(a, b) && #[trigger] pair_lt(b, c) ==> pair_lt(a, c),
{
    lemma_str_order();
    assert forall|a: (Seq<char>, Seq<char>), b: (Seq<char>, Seq<char>)|
        #![trigger pair_lt(a, b), pair_lt(b, a)]
        pair_lt(a, b) || a == b || pair_lt(b, a) by {
        assert(str_lt(a.0, b.0) || a.0 == b.0 || str_lt(b.0, a.0));
        assert(str_lt(a.1, b.1) || a.1 == b.1 || str_lt(b.1, a.1));
        if a.0 == b.0 && a.1 == b.1 {
            assert(a == b);
        }
    }
    assert forall|a: (Seq<char>, Seq<char>), b: (Seq<char>, Seq<char>)|
        #[trigger] pair_lt(a, b) implies !pair_lt(b, a) && a != b by {
        if str_lt(a.0, b.0) {
            assert(!str_lt(b.0, a.0) && a.0 != b.0);
        } else {
            assert(str_lt(a.1, b.1));
            assert(!str_lt(b.1, a.1) && a.1 != b.1);
        }
    }
    assert forall|a: (Seq<char>, Seq<char>), b: (Seq<char>, Seq<char>), c: (Seq<char>, Seq<char>)|
        #[trigger] pair_lt(a, b) && #[trigger] pair_lt(b, c) implies pair_lt(a, c) by {
        if str_lt(a.0, b.0) && str_lt(b.0, c.0) {
            assert(str_lt(a.0, c.0));
        } else if str_lt(a.1, b.1) && str_lt(b.1, c.1) {
            assert(str_lt(a.1, c.1));
        }
    }
}

/// Compare two keys by their parts, the way chained `cmp(..).then_with(..)` does.
pub fn pair_less(a0: &str, a1: &str, b0: &str, b1: &str) -> (r: bool)
    ensures
        r == pair_lt((a0@, a1@), (b0@, b1@)),
{
    match compare_str(a0, b0) {
        Cmp::Less => true,
        Cmp::Greater => false,
        Cmp::Equal => match compare_str(a1, b1) {
            Cmp::Less => true,
            _ => false,
        },
    }
}

/// Items that a bounded listing orders.
pub trait SortKeyed: Sized {
    /// The (primary, secondary) key the listing sorts by.
    spec fn sort_key(&self) -> (Seq<char>, Seq<char>);

    fn key_less(&self, other: &Self) -> (b: bool)
        ensures
            b == pair_lt(self.sort_key(), other.sort_key()),
    ;
}

impl SortKeyed for String {
    open spec fn sort_key(&self) -> (Seq<char>, Seq<char>) {
        (self@, Seq::empty())
    }

    fn key_less(&self, other: &Self) -> (b: bool) {
        proof {
            reveal_strlit("");
        }
        pair_less(self.as_str(), "", other.as_str(), "")
    }
}

pub open spec fn key_lt<T: SortKeyed>(a: T, b: T) -> bool {
    pair_lt(a.sort_key(), b.sort_key())
}

/// Ascending by key (ties in any order).
pub open spec fn key_sorted<T: SortKeyed>(s: Seq<T>) -> bool {
    forall|i: int, j: int| 0 <= i < j < s.len() ==> !key_lt(#[trigger] s[j], #[trigger] s[i])
}

/// Index of the first item whose key is not below `x`'s key.
pub open spec fn lower_bound<T: SortKeyed>(s: Seq<T>, x: T) -> nat
    decreases s.len(),
{
    if s.len() == 0 {
        0
    } else if key_lt(s[0], x) {
        1 + lower_bound(s.drop_first(), x)
    } else {
        0
    }
}

/// One bounded insertion: `x` goes in before the first item that is not
/// smaller; if that position is past the bound the listing is unchanged, and
/// an overfull listing loses its last item.
pub open spec fn bounded_insert<T: SortKeyed>(s: Seq<T>, x: T, limit: nat) -> Seq<T> {
    if limit == 0 {
        s
    } else {
        let p = lower_bound(s, x);
        if p < limit {
            let t = s.insert(p as int, x);
            if t.len() > limit {
                t.drop_last()
            } else {
                t
            }
        } else {
            s
        }
    }
}

/// A listing built by bounded insertions of `items`, one after the other.
pub open spec fn bounded_listing<T: SortKeyed>(items: Seq<T>, limit: nat) -> Seq<T>
    decreases items.len(),
{
    if items.len() == 0 {
        Seq::empty()
    } else {
        bounded_insert(bounded_listing(items.drop_last(), limit), items.last(), limit)
    }
}

pub open spec fn min_nat(a: nat, b: nat) -> nat {
    if a <= b {
        a
    } else {
        b
    }
}

/// `s` is what a bound of `limit` keeps of `seen`: sorted, as long as the
/// bound allows, drawn from `seen`, and every item of `seen` that is missing
/// is no smaller than anything kept.
pub open spec fn holds_smallest<T: SortKeyed>(s: Seq<T>, seen: Seq<T>, limit: nat) -> bool {
    &&& key_sorted(s)
    &&& s.len() == min_nat(limit, seen.len())
    &&& forall|i: int| 0 <= i < s.len() ==> seen.contains(#[trigger] s[i])
    &&& forall|j: int|
        0 <= j < seen.len() ==> s.contains(#[trigger] seen[j]) || (s.len() == limit && forall|
            i: int,
        |
            0 <= i < s.len() ==> !key_lt(seen[j], #[trigger] s[i]))
}

pub proof fn lemma_lower_bound<T: SortKeyed>(s: Seq<T>, x: T)
    ensures
        lower_bound(s, x) <= s.len(),
        forall|i: int| 0 <= i < lower_bound(s, x) ==> key_lt(#[trigger] s[i], x),
        lower_bound(s, x) < s.len() ==> !key_lt(s[lower_bound(s, x) as int], x),
    decreases s.len(),
{
    if s.len() > 0 && key_lt(s[0], x) {
        lemma_lower_bound(s.drop_first(), x);
        assert forall|i: int| 0 <= i < lower_bound(s, x) implies key_lt(#[trigger] s[i], x) by {
            if i > 0 {
                assert(s[i] == s.drop_first()[i - 1]);
            }
        }
        if lower_bound(s, x) < s.len() {
            assert(s[lower_bound(s, x) as int] == s.drop_first()[lower_bound(s.drop_first(), x) as int]);
        }
    }
}

/// In a sorted listing, everything from the lower bound on is not below `x`.
pub proof fn lemma_lower_bound_sorted<T: SortKeyed>(s: Seq<T>, x: T)
    requires
        key_sorted(s),
    ensures
        forall|i: int| lower_bound(s, x) <= i < s.len() ==> !key_lt(#[trigger] s[i], x),
{
    lemma_lower_bound(s, x);
    lemma_pair_order();
    let p = lower_bound(s, x) as int;
    assert forall|i: int| p <= i < s.len() implies !key_lt(#[trigger] s[i], x) by {
        if i > p {
            assert(!key_lt(s[i], s[p]));
            assert(pair_lt(s[p].sort_key(), s[i].sort_key()) || s[p].sort_key() == s[i].sort_key()
                || pair_lt(s[i].sort_key(), s[p].sort_key()));
        }
    }
}

proof fn lemma_bounded_insert_sorted<T: SortKeyed>(s: Seq<T>, x: T, limit: nat)
    requires
        key_sorted(s),
    ensures
        key_sorted(bounded_insert(s, x, limit)),
{
    lemma_lower_bound(s, x);
    lemma_lower_bound_sorted(s, x);
    lemma_pair_order();
    if limit > 0 {
        let p = lower_bound(s, x) as int;
        if p < limit {
            let t = s.insert(p, x);
            assert forall|i: int, j: int| 0 <= i < j < t.len() implies !key_lt(
                #[trigger] t[j],
                #[trigger] t[i],
            ) by {
                if j < p {
                    assert(t[i] == s[i] && t[j] == s[j]);
                } else if j == p {
                    assert(t[i] == s[i]);
                    assert(key_lt(s[i], x));
                } else if i < p {
                    assert(t[i] == s[i] && t[j] == s[j - 1]);
                    assert(key_lt(s[i], x));
                    assert(!key_lt(s[j - 1], x));
                    assert(pair_lt(x.sort_key(), s[j - 1].sort_key()) || x.sort_key() == s[
                        j - 1
                    ].sort_key() || pair_lt(s[j - 1].sort_key(), x.sort_key()));
                } else if i == p {
                    assert(t[j] == s[j - 1]);
                    assert(!key_lt(s[j - 1], x));
                } else {
                    assert(t[i] == s[i - 1] && t[j] == s[j - 1]);
                }
            }
            if t.len() > limit {
                let u = t.drop_last();
                assert forall|i: int, j: int| 0 <= i < j < u.len() implies !key_lt(
                    #[trigger] u[j],
                    #[trigger] u[i],
                ) by {
                    assert(u[i] == t[i] && u[j] == t[j]);
                }
            }
        }
    }
}

/// Law: a bounded insertion keeps "the `limit` smallest items seen, sorted".
#[verifier::spinoff_prover]
#[verifier::rlimit(40)]
pub proof fn law_bounded_insert_keeps_smallest<T: SortKeyed>(
    s: Seq<T>,
    seen: Seq<T>,
    x: T,
    limit: nat,
)
    requires
        holds_smallest(s, seen, limit),
    ensures
        holds_smallest(bounded_insert(s, x, limit), seen.push(x), limit),
{
    lemma_lower_bound(s, x);
    lemma_lower_bound_sorted(s, x);
    lemma_bounded_insert_sorted(s, x, limit);
    lemma_pair_order();
    let seen2 = seen.push(x);
    let r = bounded_insert(s, x, limit);
    assert forall|i: int| 0 <= i < r.len() implies seen2.contains(#[trigger] r[i]) by {
        if limit > 0 && lower_bound(s, x) < limit {
            let p = lower_bound(s, x) as int;
            let t = s.insert(p, x);
            assert(r[i] == t[i]);
            if i < p {
                assert(t[i] == s[i]);
                assert(seen.contains(s[i]));
            } else if i == p {
                assert(seen2[seen.len() as int] == x);
            } else {
                assert(t[i] == s[i - 1]);
                assert(seen.contains(s[i - 1]));
            }
        } else {
            assert(seen.contains(s[i]));
        }
        let k = choose|k: int| 0 <= k < seen.len() && seen[k] == r[i];
        if 0 <= k < seen.len() && seen[k] == r[i] {
            assert(seen2[k] == r[i]);
        }
    }
    assert forall|j: int| 0 <= j < seen2.len() implies r.contains(#[trigger] seen2[j]) || (r.len()
        == limit && forall|i: int| 0 <= i < r.len() ==> !key_lt(seen2[j], #[trigger] r[i])) by {
        let y = seen2[j];
        if limit == 0 {
        } else {
            let p = lower_bound(s, x) as int;
            if p >= limit {
                // Everything kept is below `x`, and so is every item already kept.
                assert(s.len() == limit);
                if j == seen.len() {
                    assert forall|i: int| 0 <= i < r.len() implies !key_lt(y, #[trigger] r[i]) by {
                        assert(key_lt(s[i], x));
                    }
                } else {
                    assert(y == seen[j]);
                }
            } else {
                let t = s.insert(p, x);
                if j == seen.len() {
                    assert(y == x);
                    assert(t[p] == x);
                    assert(r[p] == x);
                } else {
                    assert(y == seen[j]);
                    if s.contains(y) {
                        let k = choose|k: int| 0 <= k < s.len() && s[k] == y;
                        let kt = if k < p {
                            k
                        } else {
                            k + 1
                        };
                        assert(t[kt] == y);
                        if kt < r.len() {
                            assert(r[kt] == y);
                        } else {
                            // `y` was the item pushed out: it is the largest of `t`.
                            assert(t.len() > limit);
                            assert(kt == t.len() - 1);
                            assert forall|i: int| 0 <= i < r.len() implies !key_lt(
                                y,
                                #[trigger] r[i],
                            ) by {
                                assert(r[i] == t[i]);
                            }
                        }
                    } else {
                        assert(s.len() == limit);
                        assert(forall|i: int| 0 <= i < s.len() ==> !key_lt(y, #[trigger] s[i]));
                        assert(!key_lt(y, s[p]));
                        assert(!key_lt(s[p], x));
                        assert forall|i: int| 0 <= i < r.len() implies !key_lt(
                            y,
                            #[trigger] r[i],
                        ) by {
                            assert(r[i] == t[i]);
                            if i < p {
                                assert(t[i] == s[i]);
                            } else if i == p {
                                assert(t[i] == x);
                                assert(pair_lt(x.sort_key(), s[p].sort_key()) || x.sort_key()
                                    == s[p].sort_key() || pair_lt(s[p].sort_key(), x.sort_key()));
                                assert(pair_lt(y.sort_key(), s[p].sort_key()) || y.sort_key()
                                    == s[p].sort_key() || pair_lt(s[p].sort_key(), y.sort_key()));
                            } else {
                                assert(t[i] == s[i - 1]);
                            }
                        }
                    }
                }
            }
        }
    }
}

/// Law: a listing built by bounded insertions holds the `limit` smallest
/// items of everything inserted, in key order.
pub proof fn law_bounded_listing_holds_smallest<T: SortKeyed>(items: Seq<T>, limit: nat)
    ensures
        holds_smallest(bounded_listing(items, limit), items, limit),
    decreases items.len(),
{
    if items.len() == 0 {
        assert(holds_smallest(Seq::<T>::empty(), items, limit));
    } else {
        law_bounded_listing_holds_smallest(items.drop_last(), limit);
        law_bounded_insert_keeps_smallest(
            bounded_listing(items.drop_last(), limit),
            items.drop_last(),
            items.last(),
            limit,
        );
        assert(items.drop_last().push(items.last()) =~= items);
    }
}

/// The first `min(n, s.len())` items of `s`.
pub open spec fn first_n<T>(s: Seq<T>, n: nat) -> Seq<T> {
    s.take(min_nat(n, s.len()) as int)
}

proof fn lemma_lower_bound_take<T: SortKeyed>(s: Seq<T>, x: T, n: int)
    requires
        0 <= n <= s.len(),
    ensures
        lower_bound(s.take(n), x) == if lower_bound(s, x) < n {
            lower_bound(s, x)
        } else {
            n as nat
        },
    decreases s.len(),
{
    if n == 0 {
        assert(s.take(0) =~= Seq::<T>::empty());
    } else {
        assert(s.take(n)[0] == s[0]);
        if key_lt(s[0], x) {
            lemma_lower_bound_take(s.drop_first(), x, n - 1);
            assert(s.take(n).drop_first() =~= s.drop_first().take(n - 1));
        }
    }
}

proof fn lemma_bounded_insert_first_n<T: SortKeyed>(s: Seq<T>, x: T, small: nat, large: nat)
    requires
        small <= large,
        s.len() <= large,
    ensures
        bounded_insert(first_n(s, small), x, small) == first_n(bounded_insert(s, x, large), small),
{
    let t = first_n(s, small);
    let m = min_nat(small, s.len()) as int;
    lemma_lower_bound(s, x);
    lemma_lower_bound_take(s, x, m);
    let p = lower_bound(s, x);
    if small == 0 {
        assert(t =~= Seq::<T>::empty());
        if large > 0 && p < large {
            let u = s.insert(p as int, x);
            let big = if u.len() > large { u.drop_last() } else { u };
            assert(first_n(big, 0) =~= Seq::<T>::empty());
        } else {
            assert(first_n(s, 0) =~= Seq::<T>::empty());
        }
    } else if p < small {
        // Both insert at `p`, which lies inside the kept prefix.
        let u = s.insert(p as int, x);
        let big = if u.len() > large { u.drop_last() } else { u };
        let tu = t.insert(p as int, x);
        let sm = if tu.len() > small { tu.drop_last() } else { tu };
        assert(lower_bound(t, x) == p);
        assert(sm =~= first_n(big, small));
    } else {
        // `x` lands past the kept prefix (or is refused): the prefix stays.
        assert(lower_bound(t, x) == m);
        if m < small {
            // The whole of `s` fits: `x` goes at the end of both.
            assert(m == s.len());
            assert(p == s.len());
            let u = s.insert(p as int, x);
            assert(u.len() <= large);
            let tu = t.insert(m, x);
            assert(t =~= s);
            assert(tu =~= first_n(u, small));
        } else {
            if large > 0 && p < large {
                let u = s.insert(p as int, x);
                let big = if u.len() > large { u.drop_last() } else { u };
                assert(t =~= first_n(big, small));
            }
        }
    }
}

/// Law: a smaller bound keeps a prefix of what a larger bound keeps. The
/// listing bounded to `small` items is exactly the first `small` items of
/// the listing of the same insertions bounded to `large`.
pub proof fn law_smaller_bound_keeps_a_prefix<T: SortKeyed>(items: Seq<T>, small: nat, large: nat)
    requires
        small <= large,
    ensures
        bounded_listing(items, small) == first_n(bounded_listing(items, large), small),
    decreases items.len(),
{
    if items.len() == 0 {
        assert(first_n(Seq::<T>::empty(), small) =~= Seq::<T>::empty());
    } else {
        law_smaller_bound_keeps_a_prefix(items.drop_last(), small, large);
        law_bounded_listing_holds_smallest(items.drop_last(), large);
        lemma_bounded_insert_first_n(bounded_listing(items.drop_last(), large), items.last(), small, large);
    }
}

/// Insert `x` into a listing bounded to `limit` items.
pub fn insert_bounded<T: SortKeyed>(v: &mut Vec<T>, x: T, limit: usize)
    ensures
        final(v)@ == bounded_insert(old(v)@, x, limit as nat),
{
    if limit == 0 {
        return;
    }
    let ghost s = v@;
    let n = v.len();
    let mut i: usize = 0;
    proof {
        assert(s.subrange(0, n as int) =~= s);
    }
    while i < n && v[i].key_less(&x)
        invariant
            v@ == s,
            n == s.len(),
            i <= n,
            lower_bound(s, x) == i + lower_bound(s.subrange(i as int, n as int), x),
        decreases n - i,
    {
        proof {
            let rest = s.subrange(i as int, n as int);
            assert(rest[0] == s[i as int]);
            assert(rest.drop_first() =~= s.subrange(i + 1, n as int));
        }
        i = i + 1;
    }
    proof {
        let rest = s.subrange(i as int, n as int);
        if i < n {
            assert(rest[0] == s[i as int]);
        }
        assert(lower_bound(rest, x) == 0);
    }
    if i < limit {
        v.insert(i, x);
        if v.len() > limit {
            v.pop();
        }
    }
}

/// Index just past the leading items whose key is not above `x`'s: where a
/// stable insertion puts `x`, after every item with an equal key.
pub open spec fn upper_bound<T: SortKeyed>(s: Seq<T>, x: T) -> nat
    decreases s.len(),
{
    if s.len() == 0 {
        0
    } else if !key_lt(x, s[0]) {
        1 + upper_bound(s.drop_first(), x)
    } else {
        0
    }
}

/// A stable sort of `items` by key: each item, in arrival order, goes in
/// after every item already placed whose key it does not sort below, so
/// items with equal keys keep their arrival order.
pub open spec fn stable_sorted<T: SortKeyed>(items: Seq<T>) -> Seq<T>
    decreases items.len(),
{
    if items.len() == 0 {
        Seq::empty()
    } else {
        let s = stable_sorted(items.drop_last());
        s.insert(upper_bound(s, items.last()) as int, items.last())
    }
}

/// Insert `x` after every item of `v` whose key it does not sort below.
pub fn insert_stable<T: SortKeyed>(v: &mut Vec<T>, x: T)
    ensures
        final(v)@ == old(v)@.insert(upper_bound(old(v)@, x) as int, x),
{
    let ghost s = v@;
    let n = v.len();
    let mut i: usize = 0;
    proof {
        assert(s.subrange(0, n as int) =~= s);
    }
    while i < n && !x.key_less(&v[i])
        invariant
            v@ == s,
            n == s.len(),
            i <= n,
            upper_bound(s, x) == i + upper_bound(s.subrange(i as int, n as int), x),
        decreases n - i,
    {
        proof {
            let rest = s.subrange(i as int, n as int);
            assert(rest[0] == s[i as int]);
            assert(rest.drop_first() =~= s.subrange(i + 1, n as int));
        }
        i = i + 1;
    }
    proof {
        let rest = s.subrange(i as int, n as int);
        if i < n {
            assert(rest[0] == s[i as int]);
        }
        assert(upper_bound(rest, x) == 0);
    }
    v.insert(i, x);
}

} // verus!

verus! {

/// Bounded insertions of `xs`, in order, into `s`.
pub open spec fn insert_each<T: SortKeyed>(s: Seq<T>, xs: Seq<T>, limit: nat) -> Seq<T>
    decreases xs.len(),
{
    if xs.len() == 0 {
        s
    } else {
        bounded_insert(insert_each(s, xs.drop_last(), limit), xs.last(), limit)
    }
}

} // verus!
