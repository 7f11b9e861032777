//! The order `str`'s `Ord` uses: lexicographic over the UTF-8 bytes.

use vstd::prelude::*;
use vstd::utf8::*;
use vstd::string::StringSliceAdditionalSpecFns;

verus! {

broadcast use vstd::string::group_string_axioms;

/// Three-way comparison result.
#[derive(Debug, Clone, Copy, PartialEq, Eq, Structural)]
pub enum Cmp {
    Less,
    Equal,
    Greater,
}

/// Lexicographic strict order on byte sequences.
pub open spec fn seq_lt(a: Seq<u8>, b: Seq<u8>) -> bool
    decreases a.len(),
{
    if a.len() == 0 {
        b.len() > 0
    } else if b.len() == 0 {
        false
    } else if a[0] < b[0] {
        true
    } else if a[0] > b[0] {
        false
    } else {
        seq_lt(a.drop_first(), b.drop_first())
    }
}

/// `a < b` for strings, as `str`'s `Ord` decides it.
pub open spec fn str_lt(a: Seq<char>, b: Seq<char>) -> bool {
    seq_lt(encode_utf8(a), encode_utf8(b))
}

proof fn lemma_cons_eq(a: Seq<u8>, b: Seq<u8>)
    requires
        a.len() > 0,
        b.len() > 0,
        a[0] == b[0],
        a.drop_first() == b.drop_first(),
    ensures
        a == b,
{
    assert(a.drop_first().len() == a.len() - 1);
    assert(b.drop_first().len() == b.len() - 1);
    assert(a.len() == b.len());
    assert forall|k: int| 0 <= k < a.len() implies a[k] == b[k] by {
        if k > 0 {
            assert(a[k] == a.drop_first()[k - 1]);
            assert(b[k] == b.drop_first()[k - 1]);
        }
    }
    assert(a =~= b);
}

pub proof fn lemma_seq_lt_irreflexive(a: Seq<u8>)
    ensures
        !seq_lt(a, a),
    decreases a.len(),
{
    if a.len() > 0 {
        lemma_seq_lt_irreflexive(a.drop_first());
    }
}

pub proof fn lemma_seq_lt_trichotomy(a: Seq<u8>, b: Seq<u8>)
    ensures
        seq_lt(a, b) || a == b || seq_lt(b, a),
        !(seq_lt(a, b) && seq_lt(b, a)),
        seq_lt(a, b) ==> a != b,
    decreases a.len(),
{
    if a.len() == 0 {
        if b.len() == 0 {
            assert(a =~= b);
        }
    } else if b.len() == 0 {
    } else if a[0] == b[0] {
        lemma_seq_lt_trichotomy(a.drop_first(), b.drop_first());
        if a.drop_first() == b.drop_first() {
            lemma_cons_eq(a, b);
        }
        if seq_lt(a, b) {
            lemma_seq_lt_irreflexive(a.drop_first());
        }
    }
}

pub proof fn lemma_seq_lt_transitive(a: Seq<u8>, b: Seq<u8>, c: Seq<u8>)
    requires
        seq_lt(a, b),
        seq_lt(b, c),
    ensures
        seq_lt(a, c),
    decreases a.len(),
{
    if a.len() > 0 && b.len() > 0 && c.len() > 0 && a[0] == b[0] && b[0] == c[0] {
        lemma_seq_lt_transitive(a.drop_first(), b.drop_first(), c.drop_first());
    }
}

pub proof fn lemma_encode_injective(a: Seq<char>, b: Seq<char>)
    requires
        encode_utf8(a) == encode_utf8(b),
    ensures
        a == b,
{
    encode_utf8_decode_utf8(a);
    encode_utf8_decode_utf8(b);
}

pub proof fn lemma_str_lt_trichotomy(a: Seq<char>, b: Seq<char>)
    ensures
        str_lt(a, b) || a == b || str_lt(b, a),
        !(str_lt(a, b) && str_lt(b, a)),
        str_lt(a, b) ==> a != b,
        !str_lt(a, a),
{
    lemma_seq_lt_trichotomy(encode_utf8(a), encode_utf8(b));
    lemma_seq_lt_irreflexive(encode_utf8(a));
    if encode_utf8(a) == encode_utf8(b) {
        lemma_encode_injective(a, b);
    }
}

pub proof fn lemma_str_lt_transitive(a: Seq<char>, b: Seq<char>, c: Seq<char>)
    requires
        str_lt(a, b),
        str_lt(b, c),
    ensures
        str_lt(a, c),
{
    lemma_seq_lt_transitive(encode_utf8(a), encode_utf8(b), encode_utf8(c));
}

/// Every fact about the string order that sorting proofs use.
pub proof fn lemma_str_order()
    ensures
        forall|a: Seq<char>, b: Seq<char>|
            #![trigger str_lt(a, b), str_lt(b, a)]
            str_lt(a, b) || a == b || str_lt(b, a),
        forall|a: Seq<char>, b: Seq<char>| #[trigger] str_lt(a, b) ==> !str_lt(b, a) && a != b,
        forall|a: Seq<char>, b: Seq<char>, c: Seq<char>|
            #[trigger] str_lt(a, b) && #[trigger] str_lt(b, c) ==> str_lt(a, c),
{
    assert forall|a: Seq<char>, b: Seq<char>|
        #![trigger str_lt(a, b), str_lt(b, a)]
        str_lt(a, b) || a == b || str_lt(b, a) by {
        lemma_str_lt_trichotomy(a, b);
    }
    assert forall|a: Seq<char>, b: Seq<char>| #[trigger] str_lt(a, b) implies !str_lt(b, a) && a
        != b by {
        lemma_str_lt_trichotomy(a, b);
    }
    assert forall|a: Seq<char>, b: Seq<char>, c: Seq<char>|
        #[trigger] str_lt(a, b) && #[trigger] str_lt(b, c) implies str_lt(a, c) by {
        lemma_str_lt_transitive(a, b, c);
    }
}

/// Compare two strings the way `str`'s `Ord` does.
pub fn compare_str(a: &str, b: &str) -> (c: Cmp)
    ensures
        c == Cmp::Less <==> str_lt(a@, b@),
        c == Cmp::Equal <==> a@ == b@,
        c == Cmp::Greater <==> str_lt(b@, a@),
{
    let x = a.as_bytes();
    let y = b.as_bytes();
    let ghost xs = x@;
    let ghost ys = y@;
    let n = x.len();
    let m = y.len();
    let mut i: usize = 0;
    proof {
        lemma_str_lt_trichotomy(a@, b@);
        assert(xs.subrange(0, n as int) =~= xs);
        assert(ys.subrange(0, m as int) =~= ys);
    }
    while i < n && i < m && x[i] == y[i]
        invariant
            i <= n == xs.len(),
            i <= m == ys.len(),
            xs == x@,
            ys == y@,
            xs == encode_utf8(a@),
            ys == encode_utf8(b@),
            seq_lt(xs, ys) == seq_lt(xs.subrange(i as int, n as int), ys.subrange(i as int, m as int)),
            seq_lt(ys, xs) == seq_lt(ys.subrange(i as int, m as int), xs.subrange(i as int, n as int)),
            (xs == ys) == (xs.subrange(i as int, n as int) == ys.subrange(i as int, m as int)),
        decreases n - i,
    {
        proof {
            let xa = xs.subrange(i as int, n as int);
            let ya = ys.subrange(i as int, m as int);
            assert(xa.drop_first() =~= xs.subrange(i + 1, n as int));
            assert(ya.drop_first() =~= ys.subrange(i + 1, m as int));
            if xa.drop_first() == ya.drop_first() {
                lemma_cons_eq(xa, ya);
            }
        }
        i = i + 1;
    }
    let ghost xa = xs.subrange(i as int, n as int);
    let ghost ya = ys.subrange(i as int, m as int);
    proof {
        lemma_seq_lt_trichotomy(xs, ys);
        if xs == ys {
            lemma_encode_injective(a@, b@);
        }
    }
    if i == n && i == m {
        assert(xa =~= ya);
        Cmp::Equal
    } else if i == n {
        assert(xa.len() == 0 && ya.len() > 0);
        Cmp::Less
    } else if i == m {
        assert(ya.len() == 0 && xa.len() > 0);
        Cmp::Greater
    } else if x[i] < y[i] {
        assert(xa[0] < ya[0]);
        Cmp::Less
    } else {
        assert(xa[0] > ya[0]);
        Cmp::Greater
    }
}

pub fn str_less(a: &str, b: &str) -> (r: bool)
    ensures
        r == str_lt(a@, b@),
{
    match compare_str(a, b) {
        Cmp::Less => true,
        _ => false,
    }
}

} // verus!

verus! {

pub open spec fn strings_view(v: Seq<String>) -> Seq<Seq<char>> {
    v.map_values(|s: String| s@)
}

/// Strictly increasing in the string order (so also free of duplicates).
pub open spec fn sorted_strict(s: Seq<Seq<char>>) -> bool {
    forall|i: int, j: int| 0 <= i < j < s.len() ==> str_lt(#[trigger] s[i], #[trigger] s[j])
}

/// Whether `v` holds a string equal to `s`.
pub fn contains_str(v: &Vec<String>, s: &str) -> (b: bool)
    ensures
        b == strings_view(v@).contains(s@),
{
    let mut i: usize = 0;
    while i < v.len()
        invariant
            i <= v@.len(),
            forall|k: int| 0 <= k < i ==> v@[k]@ != s@,
        decreases v.len() - i,
    {
        if compare_str(v[i].as_str(), s) == Cmp::Equal {
            assert(strings_view(v@)[i as int] == s@);
            return true;
        }
        i = i + 1;
    }
    proof {
        if strings_view(v@).contains(s@) {
            let k = choose|k: int| 0 <= k < v@.len() && strings_view(v@)[k] == s@;
            assert(v@[k]@ == s@);
        }
    }
    false
}

/// Insert `s` into a strictly sorted vector unless an equal string is present.
pub fn insert_sorted_unique(v: &mut Vec<String>, s: String)
    requires
        sorted_strict(strings_view(old(v)@)),
    ensures
        sorted_strict(strings_view(final(v)@)),
        strings_view(final(v)@).to_set() == strings_view(old(v)@).to_set().insert(s@),
{
    proof {
        lemma_str_order();
    }
    let ghost ov = strings_view(v@);
    let mut i: usize = 0;
    while i < v.len() && str_less(v[i].as_str(), s.as_str())
        invariant
            i <= v@.len(),
            ov == strings_view(v@),
            sorted_strict(ov),
            forall|k: int| 0 <= k < i ==> str_lt(#[trigger] ov[k], s@),
        decreases v.len() - i,
    {
        i = i + 1;
    }
    if i < v.len() && compare_str(v[i].as_str(), s.as_str()) == Cmp::Equal {
        assert(ov.to_set().insert(s@) =~= ov.to_set()) by {
            assert(ov.to_set().contains(ov[i as int]));
        }
        return;
    }
    v.insert(i, s);
    let ghost nv = strings_view(v@);
    assert(nv =~= ov.take(i as int).push(s@) + ov.skip(i as int));
    assert forall|a: int, b: int| 0 <= a < b < nv.len() implies str_lt(
        #[trigger] nv[a],
        #[trigger] nv[b],
    ) by {
        if b < i {
        } else if b == i {
        } else if a < i {
            assert(nv[b] == ov[b - 1]);
            assert(str_lt(ov[a], s@));
            if b - 1 > i {
                assert(str_lt(ov[i as int], ov[b - 1]));
            }
            assert(str_lt(s@, ov[i as int]) || s@ == ov[i as int]);
        } else if a == i {
            assert(nv[b] == ov[b - 1]);
            assert(str_lt(s@, ov[i as int]));
            if b - 1 > i {
                assert(str_lt(ov[i as int], ov[b - 1]));
            }
        } else {
            assert(nv[a] == ov[a - 1]);
            assert(nv[b] == ov[b - 1]);
        }
    }
    assert(nv.to_set() =~= ov.to_set().insert(s@)) by {
        assert forall|x: Seq<char>| nv.to_set().contains(x) implies ov.to_set().insert(
            s@,
        ).contains(x) by {
            let k = choose|k: int| 0 <= k < nv.len() && nv[k] == x;
            if k < i {
                assert(ov[k] == x);
            } else if k > i {
                assert(ov[k - 1] == x);
            }
        }
        assert forall|x: Seq<char>| ov.to_set().insert(s@).contains(x) implies nv.to_set().contains(
            x,
        ) by {
            if x == s@ {
                assert(nv[i as int] == x);
            } else {
                let k = choose|k: int| 0 <= k < ov.len() && ov[k] == x;
                if k < i {
                    assert(nv[k] == x);
                } else {
                    assert(nv[k + 1] == x);
                }
            }
        }
    }
}

/// The distinct strings of `v`, sorted.
pub fn sorted_unique(v: Vec<String>) -> (r: Vec<String>)
    ensures
        sorted_strict(strings_view(r@)),
        strings_view(r@).to_set() == strings_view(v@).to_set(),
{
    let mut r: Vec<String> = Vec::new();
    let n = v.len();
    let mut i: usize = 0;
    assert(strings_view(r@).to_set() =~= strings_view(v@).take(0).to_set());
    while i < n
        invariant
            i <= n == v@.len(),
            sorted_strict(strings_view(r@)),
            strings_view(r@).to_set() == strings_view(v@).take(i as int).to_set(),
        decreases n - i,
    {
        let ghost before = strings_view(v@).take(i as int);
        insert_sorted_unique(&mut r, v[i].clone());
        assert(strings_view(v@).take(i + 1) =~= before.push(v@[i as int]@));
        proof {
            before.lemma_push_to_set_commute(v@[i as int]@);
        }
        i = i + 1;
    }
    assert(strings_view(v@).take(n as int) =~= strings_view(v@));
    r
}

/// Whether two string vectors hold the same strings in the same order.
pub fn same_strings(a: &Vec<String>, b: &Vec<String>) -> (r: bool)
    ensures
        r == (strings_view(a@) == strings_view(b@)),
{
    if a.len() != b.len() {
        assert(strings_view(a@).len() != strings_view(b@).len());
        return false;
    }
    let mut i: usize = 0;
    while i < a.len()
        invariant
            i <= a@.len() == b@.len(),
            forall|k: int| 0 <= k < i ==> a@[k]@ == b@[k]@,
        decreases a.len() - i,
    {
        if compare_str(a[i].as_str(), b[i].as_str()) != Cmp::Equal {
            assert(strings_view(a@)[i as int] != strings_view(b@)[i as int]);
            return false;
        }
        i = i + 1;
    }
    assert(strings_view(a@) =~= strings_view(b@));
    true
}

} // verus!
