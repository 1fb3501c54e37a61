//! Orders used by the collection's sorts, and the machinery that states and
//! proves stability: a key-indexed subsequence function (`keep_key`), the
//! lexicographic order on text, and a uniqueness lemma showing that a sorted
//! sequence with given per-key subsequences is unique.

use vstd::prelude::*;
use vstd::string::StrSliceExecFns;

verus! {

/// Lexicographic order on character sequences, by code point.
pub open spec fn lex_le(x: Seq<char>, y: Seq<char>) -> bool
    decreases x.len(),
{
    if x.len() == 0 {
        true
    } else if y.len() == 0 {
        false
    } else if x[0] != y[0] {
        (x[0] as u32) < (y[0] as u32)
    } else {
        lex_le(x.drop_first(), y.drop_first())
    }
}

pub proof fn lemma_lex_le_refl(x: Seq<char>)
    ensures
        lex_le(x, x),
    decreases x.len(),
{
    if x.len() != 0 {
        lemma_lex_le_refl(x.drop_first());
    }
}

proof fn lemma_char_cast_injective(a: char, b: char)
    ensures
        (a as u32) == (b as u32) ==> a == b,
{
    vstd::utf8::char_u32_cast(a, a as u32);
    vstd::utf8::char_u32_cast(b, b as u32);
}

pub proof fn lemma_lex_le_total(x: Seq<char>, y: Seq<char>)
    ensures
        lex_le(x, y) || lex_le(y, x),
    decreases x.len(),
{
    if x.len() == 0 {
        assert(lex_le(x, y));
    } else if y.len() == 0 {
        assert(lex_le(y, x));
    } else if x[0] != y[0] {
        lemma_char_cast_injective(x[0], y[0]);
        assert(lex_le(x, y) == ((x[0] as u32) < (y[0] as u32)));
        assert(lex_le(y, x) == ((y[0] as u32) < (x[0] as u32)));
    } else {
        lemma_lex_le_total(x.drop_first(), y.drop_first());
    }
}

pub proof fn lemma_lex_le_antisym(x: Seq<char>, y: Seq<char>)
    ensures
        lex_le(x, y) && lex_le(y, x) ==> x == y,
    decreases x.len(),
{
    if x.len() == 0 && y.len() == 0 {
        assert(x =~= y);
    } else if x.len() != 0 && y.len() != 0 && x[0] == y[0] {
        lemma_lex_le_antisym(x.drop_first(), y.drop_first());
        if lex_le(x, y) && lex_le(y, x) {
            assert(x.drop_first() == y.drop_first());
            assert(x.len() == x.drop_first().len() + 1);
            assert(y.len() == y.drop_first().len() + 1);
            assert forall|i: int| 0 <= i < x.len() implies x[i] == y[i] by {
                if i > 0 {
                    assert(x[i] == x.drop_first()[i - 1]);
                    assert(y[i] == y.drop_first()[i - 1]);
                }
            }
            assert(x =~= y);
        }
    }
}

pub proof fn lemma_lex_le_trans(x: Seq<char>, y: Seq<char>, z: Seq<char>)
    ensures
        lex_le(x, y) && lex_le(y, z) ==> lex_le(x, z),
    decreases x.len(),
{
    if x.len() != 0 && y.len() != 0 && z.len() != 0 && x[0] == y[0] && y[0] == z[0] {
        lemma_lex_le_trans(x.drop_first(), y.drop_first(), z.drop_first());
    }
}

/// Decide `lex_le` on two string slices.
pub fn str_le(a: &str, b: &str) -> (r: bool)
    ensures
        r == lex_le(a@, b@),
{
    let alen: usize = a.unicode_len();
    let blen: usize = b.unicode_len();
    let mut i: usize = 0;
    proof {
        assert(a@.skip(0) =~= a@);
        assert(b@.skip(0) =~= b@);
    }
    loop
        invariant
            i <= alen,
            i <= blen,
            alen == a@.len(),
            blen == b@.len(),
            lex_le(a@, b@) == lex_le(a@.skip(i as int), b@.skip(i as int)),
        decreases alen - i,
    {
        if i >= alen {
            assert(a@.skip(i as int).len() == 0);
            return true;
        }
        if i >= blen {
            assert(b@.skip(i as int).len() == 0);
            assert(a@.skip(i as int).len() > 0);
            return false;
        }
        let ca = a.get_char(i);
        let cb = b.get_char(i);
        proof {
            assert(a@.skip(i as int)[0] == a@[i as int]);
            assert(b@.skip(i as int)[0] == b@[i as int]);
        }
        if ca != cb {
            return (ca as u32) < (cb as u32);
        }
        proof {
            assert(a@.skip(i as int).drop_first() =~= a@.skip(i as int + 1));
            assert(b@.skip(i as int).drop_first() =~= b@.skip(i as int + 1));
        }
        i = i + 1;
    }
}

/// Decide equality of two string slices' character sequences.
pub fn str_eq(a: &str, b: &str) -> (r: bool)
    ensures
        r == (a@ == b@),
{
    let r = str_le(a, b) && str_le(b, a);
    proof {
        lemma_lex_le_antisym(a@, b@);
        lemma_lex_le_refl(a@);
    }
    r
}

/// The subsequence of `s` whose elements map to `k` under `key`, in order.
/// Sorting is stable exactly when it preserves this for every `k`.
pub open spec fn keep_key<A, K>(s: Seq<A>, key: spec_fn(A) -> K, k: K) -> Seq<A>
    decreases s.len(),
{
    if s.len() == 0 {
        Seq::empty()
    } else if key(s[0]) == k {
        seq![s[0]] + keep_key(s.drop_first(), key, k)
    } else {
        keep_key(s.drop_first(), key, k)
    }
}

/// `s` is sorted when the keys of its elements ascend under `kle`.
pub open spec fn sorted_by_key<A, K>(s: Seq<A>, key: spec_fn(A) -> K, kle: spec_fn(K, K) -> bool) -> bool {
    forall|i: int, j: int| 0 <= i < j < s.len() ==> #[trigger] kle(key(s[i]), key(s[j]))
}

pub proof fn lemma_keep_key_singleton<A, K>(x: A, key: spec_fn(A) -> K, k: K)
    ensures
        keep_key(seq![x], key, k) == if key(x) == k { seq![x] } else { Seq::<A>::empty() },
{
    let s = seq![x];
    assert(s.drop_first() =~= Seq::<A>::empty());
    assert(keep_key(Seq::<A>::empty(), key, k) == Seq::<A>::empty());
    if key(x) == k {
        assert(keep_key(s, key, k) == seq![x] + keep_key(Seq::<A>::empty(), key, k));
        assert(seq![x] + Seq::<A>::empty() =~= seq![x]);
    } else {
        assert(keep_key(s, key, k) == keep_key(Seq::<A>::empty(), key, k));
    }
}

pub proof fn lemma_keep_key_add<A, K>(a: Seq<A>, b: Seq<A>, key: spec_fn(A) -> K, k: K)
    ensures
        keep_key(a + b, key, k) == keep_key(a, key, k) + keep_key(b, key, k),
    decreases a.len(),
{
    if a.len() == 0 {
        assert(a + b =~= b);
        assert(keep_key(a, key, k) + keep_key(b, key, k) =~= keep_key(b, key, k));
    } else {
        assert((a + b)[0] == a[0]);
        assert((a + b).drop_first() =~= a.drop_first() + b);
        lemma_keep_key_add(a.drop_first(), b, key, k);
        if key(a[0]) == k {
            assert(seq![a[0]] + (keep_key(a.drop_first(), key, k) + keep_key(b, key, k))
                =~= (seq![a[0]] + keep_key(a.drop_first(), key, k)) + keep_key(b, key, k));
        }
    }
}

/// A sequence none of whose elements carries key `k` has an empty `k`-subsequence.
pub proof fn lemma_keep_key_none<A, K>(s: Seq<A>, key: spec_fn(A) -> K, k: K)
    requires
        forall|i: int| 0 <= i < s.len() ==> key(#[trigger] s[i]) != k,
    ensures
        keep_key(s, key, k) == Seq::<A>::empty(),
    decreases s.len(),
{
    if s.len() != 0 {
        assert(forall|i: int|
            0 <= i < s.drop_first().len() ==> key(#[trigger] s.drop_first()[i]) != k);
        lemma_keep_key_none(s.drop_first(), key, k);
    }
}

/// Swapping two adjacent elements with distinct keys leaves every per-key
/// subsequence unchanged.
pub proof fn lemma_keep_key_swap<A, K>(s: Seq<A>, i: int, key: spec_fn(A) -> K)
    requires
        0 <= i,
        i + 1 < s.len(),
        key(s[i]) != key(s[i + 1]),
    ensures
        forall|k: K| #[trigger] keep_key(s.update(i, s[i + 1]).update(i + 1, s[i]), key, k)
            == keep_key(s, key, k),
{
    let s2 = s.update(i, s[i + 1]).update(i + 1, s[i]);
    let a = s.subrange(0, i);
    let x = s[i];
    let y = s[i + 1];
    let b = s.subrange(i + 2, s.len() as int);
    assert(s =~= a + seq![x] + seq![y] + b);
    assert(s2 =~= a + seq![y] + seq![x] + b);
    assert forall|k: K| #[trigger] keep_key(s2, key, k) == keep_key(s, key, k) by {
        lemma_keep_key_add(a + seq![x] + seq![y], b, key, k);
        lemma_keep_key_add(a + seq![x], seq![y], key, k);
        lemma_keep_key_add(a, seq![x], key, k);
        lemma_keep_key_add(a + seq![y] + seq![x], b, key, k);
        lemma_keep_key_add(a + seq![y], seq![x], key, k);
        lemma_keep_key_add(a, seq![y], key, k);
        lemma_keep_key_singleton(x, key, k);
        lemma_keep_key_singleton(y, key, k);
        assert(keep_key(seq![x], key, k) + keep_key(seq![y], key, k)
            =~= keep_key(seq![y], key, k) + keep_key(seq![x], key, k));
        assert(keep_key(s, key, k)
            == ((keep_key(a, key, k) + keep_key(seq![x], key, k)) + keep_key(seq![y], key, k))
                + keep_key(b, key, k));
        assert(keep_key(s2, key, k)
            == ((keep_key(a, key, k) + keep_key(seq![y], key, k)) + keep_key(seq![x], key, k))
                + keep_key(b, key, k));
        assert(((keep_key(a, key, k) + keep_key(seq![x], key, k)) + keep_key(seq![y], key, k))
            + keep_key(b, key, k)
            =~= ((keep_key(a, key, k) + keep_key(seq![y], key, k)) + keep_key(seq![x], key, k))
                + keep_key(b, key, k));
    }
}

/// A sorted sequence is determined by its per-key subsequences: two sequences
/// that are both sorted under a total order on keys and agree on every
/// `keep_key` are equal. This is why a stable sort's contract pins its result
/// down completely, and why such a sort is idempotent.
pub proof fn lemma_stable_sorted_unique<A, K>(
    a: Seq<A>,
    b: Seq<A>,
    key: spec_fn(A) -> K,
    kle: spec_fn(K, K) -> bool,
)
    requires
        forall|k1: K, k2: K| #![trigger kle(k1, k2), kle(k2, k1)] kle(k1, k2) || kle(k2, k1),
        forall|k1: K, k2: K| #![trigger kle(k1, k2), kle(k2, k1)] kle(k1, k2) && kle(k2, k1) ==> k1 == k2,
        sorted_by_key(a, key, kle),
        sorted_by_key(b, key, kle),
        forall|k: K| #[trigger] keep_key(a, key, k) == keep_key(b, key, k),
    ensures
        a == b,
    decreases a.len(),
{
    if a.len() == 0 {
        if b.len() > 0 {
            let k0 = key(b[0]);
            assert(keep_key(b, key, k0) == seq![b[0]] + keep_key(b.drop_first(), key, k0));
            assert(keep_key(b, key, k0).len() > 0);
            assert(keep_key(a, key, k0).len() == 0);
        }
        assert(a =~= b);
    } else {
        if b.len() == 0 {
            let k0 = key(a[0]);
            assert(keep_key(a, key, k0) == seq![a[0]] + keep_key(a.drop_first(), key, k0));
            assert(keep_key(a, key, k0).len() > 0);
            assert(keep_key(b, key, k0).len() == 0);
            assert(false);
        }
        let ka = key(a[0]);
        let kb = key(b[0]);
        // the key of `a`'s head occurs in `b`, so `b`'s head key is no greater
        assert(keep_key(a, key, ka) == seq![a[0]] + keep_key(a.drop_first(), key, ka));
        assert(keep_key(b, key, ka).len() > 0);
        assert(exists|j: int| 0 <= j < b.len() && key(#[trigger] b[j]) == ka) by {
            if forall|j: int| 0 <= j < b.len() ==> key(#[trigger] b[j]) != ka {
                lemma_keep_key_none(b, key, ka);
            }
        }
        let jb = choose|j: int| 0 <= j < b.len() && key(#[trigger] b[j]) == ka;
        assert(kle(kb, ka));
        // and symmetrically
        assert(keep_key(b, key, kb) == seq![b[0]] + keep_key(b.drop_first(), key, kb));
        assert(keep_key(a, key, kb).len() > 0);
        assert(exists|j: int| 0 <= j < a.len() && key(#[trigger] a[j]) == kb) by {
            if forall|j: int| 0 <= j < a.len() ==> key(#[trigger] a[j]) != kb {
                lemma_keep_key_none(a, key, kb);
            }
        }
        let ja = choose|j: int| 0 <= j < a.len() && key(#[trigger] a[j]) == kb;
        assert(kle(ka, kb));
        assert(ka == kb);
        // equal per-key subsequences force equal heads
        assert(keep_key(a, key, ka)[0] == a[0]);
        assert(keep_key(b, key, ka) == seq![b[0]] + keep_key(b.drop_first(), key, ka));
        assert(keep_key(b, key, ka)[0] == b[0]);
        assert(a[0] == b[0]);
        // the tails agree on every per-key subsequence
        assert forall|k: K| #[trigger] keep_key(a.drop_first(), key, k)
            == keep_key(b.drop_first(), key, k) by {
            let ta = keep_key(a.drop_first(), key, k);
            let tb = keep_key(b.drop_first(), key, k);
            if key(a[0]) == k {
                assert(keep_key(a, key, k) == seq![a[0]] + ta);
                assert(keep_key(b, key, k) == seq![b[0]] + tb);
                assert(ta =~= tb) by {
                    assert(forall|i: int| 0 <= i < ta.len()
                        ==> #[trigger] ta[i] == (seq![a[0]] + ta)[i + 1]);
                    assert(forall|i: int| 0 <= i < tb.len()
                        ==> #[trigger] tb[i] == (seq![b[0]] + tb)[i + 1]);
                }
            } else {
                assert(keep_key(a, key, k) == ta);
                assert(keep_key(b, key, k) == tb);
            }
        }
        assert(sorted_by_key(a.drop_first(), key, kle)) by {
            assert(forall|i: int|
                0 <= i < a.drop_first().len() ==> #[trigger] a.drop_first()[i] == a[i + 1]);
        }
        assert(sorted_by_key(b.drop_first(), key, kle)) by {
            assert(forall|i: int|
                0 <= i < b.drop_first().len() ==> #[trigger] b.drop_first()[i] == b[i + 1]);
        }
        lemma_stable_sorted_unique(a.drop_first(), b.drop_first(), key, kle);
        assert(a.drop_first() == b.drop_first());
        assert(a.len() == a.drop_first().len() + 1);
        assert(b.len() == b.drop_first().len() + 1);
        assert forall|i: int| 0 <= i < a.len() implies a[i] == b[i] by {
            if i > 0 {
                assert(a[i] == a.drop_first()[i - 1]);
                assert(b[i] == b.drop_first()[i - 1]);
            }
        }
        assert(a =~= b);
    }
}

} // verus!
