//! Small string-keyed maps held as vectors of pairs, viewed as the `Map` the
//! pairs build when written in order (a later pair overrides an earlier one).

use vstd::prelude::*;
use crate::order::{compare_str, Cmp};

verus! {

broadcast use vstd::string::group_string_axioms;

/// The map that writing the pairs in order produces.
pub open spec fn kv_map<V>(s: Seq<(String, V)>) -> Map<Seq<char>, V>
    decreases s.len(),
{
    if s.len() == 0 {
        Map::empty()
    } else {
        kv_map(s.drop_last()).insert(s.last().0@, s.last().1)
    }
}

/// The pairs whose key is not `k`, in order.
pub open spec fn without_key<V>(s: Seq<(String, V)>, k: Seq<char>) -> Seq<(String, V)>
    decreases s.len(),
{
    if s.len() == 0 {
        Seq::empty()
    } else if s.last().0@ == k {
        without_key(s.drop_last(), k)
    } else {
        without_key(s.drop_last(), k).push(s.last())
    }
}

pub proof fn lemma_without_key_map<V>(s: Seq<(String, V)>, k: Seq<char>)
    ensures
        kv_map(without_key(s, k)) == kv_map(s).remove(k),
    decreases s.len(),
{
    if s.len() == 0 {
        assert(kv_map(s).remove(k) =~= Map::<Seq<char>, V>::empty());
    } else {
        lemma_without_key_map(s.drop_last(), k);
        if s.last().0@ == k {
            assert(kv_map(s).remove(k) =~= kv_map(s.drop_last()).remove(k));
        } else {
            let w = without_key(s.drop_last(), k);
            assert(w.push(s.last()).drop_last() =~= w);
            assert(kv_map(s).remove(k) =~= kv_map(s.drop_last()).remove(k).insert(
                s.last().0@,
                s.last().1,
            ));
        }
    }
}

pub proof fn lemma_without_key_concat<V>(a: Seq<(String, V)>, b: Seq<(String, V)>, k: Seq<char>)
    ensures
        without_key(a + b, k) == without_key(a, k) + without_key(b, k),
    decreases b.len(),
{
    if b.len() == 0 {
        assert(a + b =~= a);
        assert(without_key(a, k) + without_key(b, k) =~= without_key(a, k));
    } else {
        lemma_without_key_concat(a, b.drop_last(), k);
        assert((a + b).drop_last() =~= a + b.drop_last());
        assert((a + b).last() == b.last());
        if b.last().0@ != k {
            assert(without_key(a, k) + without_key(b.drop_last(), k).push(b.last()) =~= (without_key(
                a,
                k,
            ) + without_key(b.drop_last(), k)).push(b.last()));
        }
    }
}

pub proof fn lemma_without_key_free<V>(s: Seq<(String, V)>, k: Seq<char>)
    requires
        forall|i: int| 0 <= i < s.len() ==> #[trigger] s[i].0@ != k,
    ensures
        without_key(s, k) == s,
    decreases s.len(),
{
    if s.len() > 0 {
        lemma_without_key_free(s.drop_last(), k);
        assert(s.drop_last().push(s.last()) =~= s);
    }
}

/// The value written last for `k`.
pub fn kv_get<'a, V>(v: &'a Vec<(String, V)>, k: &str) -> (r: Option<&'a V>)
    ensures
        match r {
            Some(x) => kv_map(v@).dom().contains(k@) && kv_map(v@)[k@] == *x,
            None => !kv_map(v@).dom().contains(k@),
        },
{
    let mut i: usize = v.len();
    proof {
        assert(v@.subrange(0, i as int) =~= v@);
    }
    while i > 0
        invariant
            i <= v@.len(),
            forall|j: int| i <= j < v@.len() ==> #[trigger] v@[j].0@ != k@,
            kv_map(v@).dom().contains(k@) == kv_map(v@.subrange(0, i as int)).dom().contains(k@),
            kv_map(v@).dom().contains(k@) ==> kv_map(v@)[k@] == kv_map(v@.subrange(0, i as int))[k@],
        decreases i,
    {
        let ghost pre = v@.subrange(0, i as int);
        proof {
            assert(pre.drop_last() =~= v@.subrange(0, i - 1));
            assert(pre.last() == v@[i - 1]);
        }
        if compare_str(v[i - 1].0.as_str(), k) == Cmp::Equal {
            return Some(&v[i - 1].1);
        }
        i = i - 1;
    }
    None
}

/// Remove every pair keyed `k`; the value the map held for `k` comes back.
pub fn kv_remove<V>(v: &mut Vec<(String, V)>, k: &str) -> (r: Option<V>)
    ensures
        kv_map(final(v)@) == kv_map(old(v)@).remove(k@),
        final(v)@ == without_key(old(v)@, k@),
        match r {
            Some(x) => kv_map(old(v)@).dom().contains(k@) && kv_map(old(v)@)[k@] == x,
            None => !kv_map(old(v)@).dom().contains(k@),
        },
{
    let ghost s = v@;
    let ghost n = s.len();
    let mut found: Option<V> = None;
    let mut i: usize = 0;
    let ghost mut consumed: int = 0;
    proof {
        assert(s.subrange(0, 0) =~= Seq::<(String, V)>::empty());
        assert(s.subrange(0, n as int) =~= s);
        assert(v@.subrange(0, 0) + s.subrange(0, n as int) =~= s);
    }
    while i < v.len()
        invariant
            0 <= consumed <= n == s.len(),
            i <= v@.len(),
            i <= consumed,
            v@ == v@.subrange(0, i as int) + s.subrange(consumed, n as int),
            v@.len() == i + (n - consumed),
            without_key(s.subrange(0, consumed), k@) == v@.subrange(0, i as int),
            forall|j: int| 0 <= j < i ==> #[trigger] v@[j].0@ != k@,
            match found {
                Some(x) => kv_map(s.subrange(0, consumed)).dom().contains(k@) && kv_map(
                    s.subrange(0, consumed),
                )[k@] == x,
                None => !kv_map(s.subrange(0, consumed)).dom().contains(k@),
            },
        decreases v.len() - i,
    {
        let ghost pre = s.subrange(0, consumed + 1);
        proof {
            assert(v@[i as int] == s[consumed]);
            assert(pre.drop_last() =~= s.subrange(0, consumed));
            assert(pre.last() == s[consumed]);
        }
        if compare_str(v[i].0.as_str(), k) == Cmp::Equal {
            let ghost before = v@;
            let (_, val) = v.remove(i);
            found = Some(val);
            proof {
                consumed = consumed + 1;
                assert(v@.subrange(0, i as int) =~= before.subrange(0, i as int));
                assert(v@ =~= v@.subrange(0, i as int) + s.subrange(consumed, n as int));
            }
        } else {
            proof {
                let w = without_key(s.subrange(0, consumed), k@);
                assert(w.push(s[consumed]) =~= v@.subrange(0, i + 1));
                consumed = consumed + 1;
                assert(v@ =~= v@.subrange(0, i + 1) + s.subrange(consumed, n as int));
            }
            i = i + 1;
        }
    }
    proof {
        assert(consumed == n);
        assert(s.subrange(0, consumed) =~= s);
        assert(v@.subrange(0, i as int) =~= v@);
        lemma_without_key_map(s, k@);
    }
    found
}

/// Write `val` for `k`, replacing any earlier value.
pub fn kv_insert<V>(v: &mut Vec<(String, V)>, k: String, val: V)
    ensures
        kv_map(final(v)@) == kv_map(old(v)@).insert(k@, val),
{
    let ghost s = v@;
    kv_remove(v, k.as_str());
    let ghost w = v@;
    v.push((k, val));
    proof {
        assert(v@.drop_last() =~= w);
        assert(kv_map(s).remove(k@).insert(k@, val) =~= kv_map(s).insert(k@, val));
    }
}


/// A key is mapped exactly when some pair carries it.
pub proof fn lemma_kv_dom<V>(s: Seq<(String, V)>, k: Seq<char>)
    ensures
        kv_map(s).dom().contains(k) <==> exists|i: int| 0 <= i < s.len() && #[trigger] s[i].0@ == k,
    decreases s.len(),
{
    if s.len() > 0 {
        lemma_kv_dom(s.drop_last(), k);
        if exists|i: int| 0 <= i < s.drop_last().len() && #[trigger] s.drop_last()[i].0@ == k {
            let i = choose|i: int| 0 <= i < s.drop_last().len() && #[trigger] s.drop_last()[i].0@ == k;
            assert(s[i].0@ == k);
        }
        if exists|i: int| 0 <= i < s.len() && #[trigger] s[i].0@ == k {
            let i = choose|i: int| 0 <= i < s.len() && #[trigger] s[i].0@ == k;
            if i < s.len() - 1 {
                assert(s.drop_last()[i].0@ == k);
            }
        }
    }
}
} // verus!
