//! Name-keyed tables: sequences of `(name, value)` entries looked up by
//! the first entry whose name matches.

use vstd::prelude::*;

use crate::codec::bytes_eq;

verus! {

/// Index of the first entry whose name is `k`, or -1.
pub open spec fn find_key<V>(s: Seq<(Vec<u8>, V)>, k: Seq<u8>) -> int
    decreases s.len(),
{
    if s.len() == 0 {
        -1
    } else if s[0].0@ == k {
        0
    } else {
        let r = find_key(s.drop_first(), k);
        if r < 0 {
            -1
        } else {
            r + 1
        }
    }
}

/// What [`find_key`] returns: -1 exactly when no entry matches, else the
/// first matching index.
pub proof fn lemma_find_key<V>(s: Seq<(Vec<u8>, V)>, k: Seq<u8>)
    ensures
        find_key(s, k) == -1 ==> forall|i: int| 0 <= i < s.len() ==> (#[trigger] s[i]).0@ != k,
        find_key(s, k) != -1 ==> 0 <= find_key(s, k) < s.len() && s[find_key(s, k)].0@ == k
            && forall|j: int| 0 <= j < find_key(s, k) ==> (#[trigger] s[j]).0@ != k,
    decreases s.len(),
{
    if s.len() > 0 && s[0].0@ != k {
        lemma_find_key(s.drop_first(), k);
        let r = find_key(s.drop_first(), k);
        if r == -1 {
            assert forall|i: int| 0 <= i < s.len() implies (#[trigger] s[i]).0@ != k by {
                if i > 0 {
                    assert(s.drop_first()[i - 1] == s[i]);
                }
            }
        } else {
            assert(s.drop_first()[r] == s[r + 1]);
            assert forall|j: int| 0 <= j < find_key(s, k) implies (#[trigger] s[j]).0@ != k by {
                if j > 0 {
                    assert(s.drop_first()[j - 1] == s[j]);
                }
            }
        }
    }
}

/// Conversely, the first matching index is what [`find_key`] returns.
pub proof fn lemma_find_key_first<V>(s: Seq<(Vec<u8>, V)>, k: Seq<u8>, i: int)
    requires
        0 <= i < s.len(),
        s[i].0@ == k,
        forall|j: int| 0 <= j < i ==> (#[trigger] s[j]).0@ != k,
    ensures
        find_key(s, k) == i,
    decreases s.len(),
{
    if i > 0 {
        assert(forall|j: int|
            0 <= j < s.drop_first().len() ==> #[trigger] s.drop_first()[j] == s[j + 1]);
        lemma_find_key_first(s.drop_first(), k, i - 1);
    }
}

/// Lookup only reads the names, never the values.
pub proof fn lemma_find_key_same_keys<V, W>(s: Seq<(Vec<u8>, V)>, t: Seq<(Vec<u8>, W)>, k: Seq<u8>)
    requires
        s.len() == t.len(),
        forall|i: int| 0 <= i < s.len() ==> (#[trigger] s[i]).0@ == (#[trigger] t[i]).0@,
    ensures
        find_key(s, k) == find_key(t, k),
    decreases s.len(),
{
    if s.len() > 0 && s[0].0@ != k {
        assert(forall|i: int|
            0 <= i < s.drop_first().len() ==> #[trigger] s.drop_first()[i] == s[i + 1]);
        assert(forall|i: int|
            0 <= i < t.drop_first().len() ==> #[trigger] t.drop_first()[i] == t[i + 1]);
        lemma_find_key_same_keys(s.drop_first(), t.drop_first(), k);
    }
}

/// Appending an entry changes no earlier lookup; a missing name is found
/// afterwards exactly if the new entry bears it.
pub proof fn lemma_find_key_push<V>(s: Seq<(Vec<u8>, V)>, e: (Vec<u8>, V), k: Seq<u8>)
    ensures
        find_key(s, k) != -1 ==> find_key(s.push(e), k) == find_key(s, k),
        find_key(s, k) == -1 && e.0@ == k ==> find_key(s.push(e), k) == s.len(),
        find_key(s, k) == -1 && e.0@ != k ==> find_key(s.push(e), k) == -1,
    decreases s.len(),
{
    lemma_find_key(s, k);
    if find_key(s, k) != -1 {
        lemma_find_key_first(s.push(e), k, find_key(s, k));
    } else if e.0@ == k {
        lemma_find_key_first(s.push(e), k, s.len() as int);
    } else {
        lemma_find_key(s.push(e), k);
        if find_key(s.push(e), k) != -1 {
            assert(s.push(e)[find_key(s.push(e), k)].0@ == k);
            if find_key(s.push(e), k) < s.len() {
                assert(s[find_key(s.push(e), k)].0@ == k);
            }
        }
    }
}

/// Removing entry `i` leaves the lookup of every other name intact,
/// provided names are unique.
pub proof fn lemma_find_key_remove<V>(
    pre: Seq<(Vec<u8>, V)>,
    post: Seq<(Vec<u8>, V)>,
    i: int,
    w: Seq<u8>,
)
    requires
        0 <= i < pre.len(),
        post == pre.remove(i),
        pre[i].0@ != w,
        forall|a: int, b: int|
            0 <= a < b < pre.len() ==> (#[trigger] pre[a]).0@ != (#[trigger] pre[b]).0@,
    ensures
        find_key(pre, w) == -1 ==> find_key(post, w) == -1,
        find_key(pre, w) != -1 ==> find_key(post, w) != -1
            && post[find_key(post, w)] == pre[find_key(pre, w)],
{
    lemma_find_key(pre, w);
    let fpre = find_key(pre, w);
    if fpre == -1 {
        assert forall|j: int| 0 <= j < post.len() implies (#[trigger] post[j]).0@ != w by {
            if j < i {
                assert(post[j] == pre[j]);
            } else {
                assert(post[j] == pre[j + 1]);
            }
        }
        lemma_find_key(post, w);
        if find_key(post, w) != -1 {
            assert(post[find_key(post, w)].0@ == w);
        }
    } else {
        let tgt = if fpre < i {
            fpre
        } else {
            fpre - 1
        };
        assert(post[tgt] == pre[fpre]);
        assert forall|j: int| 0 <= j < tgt implies (#[trigger] post[j]).0@ != w by {
            if j < i {
                assert(post[j] == pre[j]);
            } else {
                assert(post[j] == pre[j + 1]);
            }
        }
        lemma_find_key_first(post, w, tgt);
    }
}

/// Find the first entry named `k`.
#[verifier::loop_isolation(false)]
pub fn find_entry<V>(v: &Vec<(Vec<u8>, V)>, k: &Vec<u8>) -> (r: Option<usize>)
    ensures
        match r {
            Some(i) => find_key(v@, k@) == i as int && i < v.len() && v@[i as int].0@ == k@,
            None => find_key(v@, k@) == -1,
        },
{
    let mut i: usize = 0;
    while i < v.len()
        invariant
            i <= v.len(),
            forall|j: int| 0 <= j < i ==> (#[trigger] v@[j]).0@ != k@,
        decreases v.len() - i,
    {
        if bytes_eq(&v[i].0, k) {
            proof {
                lemma_find_key_first(v@, k@, i as int);
            }
            return Some(i);
        }
        i = i + 1;
    }
    proof {
        lemma_find_key(v@, k@);
    }
    None
}

} // verus!
