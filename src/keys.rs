//! Sequences of keyed pairs in which no key occurs twice, and why keeping
//! some of the pairs, in order, keeps it so.
use vstd::prelude::*;

verus! {

/// No key occurs twice among the pairs of `s`.
pub open spec fn keys_unique<V>(s: Seq<(Seq<char>, V)>) -> bool {
    forall|i: int, j: int| 0 <= i < s.len() && 0 <= j < s.len() && i != j ==> s[i].0 != s[j].0
}

/// `k` is the key of a pair of `s`.
pub open spec fn has_key<V>(s: Seq<(Seq<char>, V)>, k: Seq<char>) -> bool {
    exists|i: int| 0 <= i < s.len() && s[i].0 == k
}

/// One step of building `r` from `s` pair by pair: `rest` was built from all
/// of `s` but its last pair, and `r` is `rest`, or `rest` with one more pair
/// under that last pair's key. Then every key of `r` is a key of `s`, and
/// keys stay unique.
pub proof fn lemma_keys_step<V, W>(
    s: Seq<(Seq<char>, V)>,
    rest: Seq<(Seq<char>, W)>,
    r: Seq<(Seq<char>, W)>,
)
    requires
        s.len() > 0,
        forall|i: int| 0 <= i < rest.len() ==> has_key(s.drop_last(), #[trigger] rest[i].0),
        keys_unique(s.drop_last()) ==> keys_unique(rest),
        r == rest || (r.len() == rest.len() + 1 && r.drop_last() == rest && r.last().0
            == s.last().0),
    ensures
        forall|i: int| 0 <= i < r.len() ==> has_key(s, #[trigger] r[i].0),
        keys_unique(s) ==> keys_unique(r),
{
    let d = s.drop_last();
    let n = rest.len();
    assert forall|i: int| 0 <= i < r.len() implies has_key(s, #[trigger] r[i].0) by {
        if i < n {
            assert(r[i] == rest[i]);
            let j = choose|j: int| 0 <= j < d.len() && d[j].0 == rest[i].0;
            assert(s[j] == d[j]);
        } else {
            assert(s[s.len() - 1].0 == r[i].0);
        }
    }
    if keys_unique(s) {
        assert(keys_unique(d)) by {
            assert forall|i: int, j: int|
                0 <= i < d.len() && 0 <= j < d.len() && i != j implies d[i].0 != d[j].0 by {
                assert(s[i] == d[i] && s[j] == d[j]);
            }
        }
        assert forall|i: int, j: int|
            0 <= i < r.len() && 0 <= j < r.len() && i != j implies r[i].0 != r[j].0 by {
            if i < n && j < n {
                assert(r[i] == rest[i] && r[j] == rest[j]);
            } else if i < n {
                assert(r[i] == rest[i]);
                let k = choose|k: int| 0 <= k < d.len() && d[k].0 == rest[i].0;
                assert(s[k] == d[k]);
                assert(s[k].0 != s[s.len() - 1].0);
            } else if j < n {
                assert(r[j] == rest[j]);
                let k = choose|k: int| 0 <= k < d.len() && d[k].0 == rest[j].0;
                assert(s[k] == d[k]);
                assert(s[k].0 != s[s.len() - 1].0);
            }
        }
    }
}

} // verus!
