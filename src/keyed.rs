use vstd::prelude::*;

verus! {

broadcast use vstd::seq::group_seq_axioms;

/// The first position in `s` whose key is `k`, or -1.
pub open spec fn index_of<T>(s: Seq<T>, k: Seq<char>, key: spec_fn(T) -> Seq<char>) -> int
    decreases s.len(),
{
    if s.len() == 0 {
        -1
    } else {
        let r = index_of(s.drop_last(), k, key);
        if r >= 0 {
            r
        } else if key(s.last()) == k {
            s.len() - 1
        } else {
            -1
        }
    }
}

pub proof fn lemma_index_of_prefix<T>(s: Seq<T>, k: Seq<char>, key: spec_fn(T) -> Seq<char>, j: int)
    requires
        0 <= j <= s.len(),
        index_of(s.subrange(0, j), k, key) >= 0,
    ensures
        index_of(s, k, key) == index_of(s.subrange(0, j), k, key),
    decreases s.len() - j,
{
    if j < s.len() {
        assert(s.subrange(0, j + 1).drop_last() =~= s.subrange(0, j));
        lemma_index_of_prefix(s, k, key, j + 1);
    } else {
        assert(s.subrange(0, j) =~= s);
    }
}

pub proof fn lemma_index_of_range<T>(s: Seq<T>, k: Seq<char>, key: spec_fn(T) -> Seq<char>)
    ensures
        -1 <= index_of(s, k, key) < s.len(),
        index_of(s, k, key) >= 0 ==> key(s[index_of(s, k, key)]) == k,
        index_of(s, k, key) == -1 ==> forall|i: int| 0 <= i < s.len() ==> key(#[trigger] s[i]) != k,
    decreases s.len(),
{
    if s.len() > 0 {
        lemma_index_of_range(s.drop_last(), k, key);
        if index_of(s, k, key) == -1 {
            assert forall|i: int| 0 <= i < s.len() implies key(#[trigger] s[i]) != k by {
                if i < s.len() - 1 {
                    assert(s[i] == s.drop_last()[i]);
                }
            }
        }
    }
}

pub proof fn lemma_index_of_same_keys<T, U>(a: Seq<T>, b: Seq<U>, k: Seq<char>, ka: spec_fn(T) -> Seq<char>, kb: spec_fn(U) -> Seq<char>)
    requires
        a.len() == b.len(),
        forall|i: int| 0 <= i < a.len() ==> ka(#[trigger] a[i]) == kb(b[i]),
    ensures
        index_of(a, k, ka) == index_of(b, k, kb),
    decreases a.len(),
{
    if a.len() > 0 {
        lemma_index_of_same_keys(a.drop_last(), b.drop_last(), k, ka, kb);
    }
}

} // verus!
