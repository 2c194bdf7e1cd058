//! Small sequence helpers shared by the engine: first-occurrence lookup
//! and integer sums.
use vstd::prelude::*;

verus! {

/// The position of the first occurrence of `x`, or `-1` when absent.
pub open spec fn first_idx_of<T>(s: Seq<T>, x: T) -> int
    decreases s.len(),
{
    if s.len() == 0 {
        -1
    } else if s[0] == x {
        0
    } else {
        let r = first_idx_of(s.drop_first(), x);
        if r < 0 {
            -1
        } else {
            r + 1
        }
    }
}

/// `first_idx_of` points at the first occurrence: it is in range exactly
/// when the element occurs, names a position holding it, and nothing
/// before that position holds it.
pub proof fn lemma_first_idx_of<T>(s: Seq<T>, x: T)
    ensures
        first_idx_of(s, x) >= 0 <==> s.contains(x),
        first_idx_of(s, x) >= 0 ==> first_idx_of(s, x) < s.len() && s[first_idx_of(s, x)] == x
            && forall|k: int| 0 <= k < first_idx_of(s, x) ==> s[k] != x,
        first_idx_of(s, x) < 0 ==> forall|k: int| 0 <= k < s.len() ==> s[k] != x,
    decreases s.len(),
{
    if s.len() == 0 {
    } else if s[0] == x {
        assert(s.contains(x));
    } else {
        lemma_first_idx_of(s.drop_first(), x);
        let d = s.drop_first();
        let r = first_idx_of(d, x);
        assert(forall|k: int| 0 <= k < d.len() ==> d[k] == s[k + 1]);
        if r >= 0 {
            assert(s[r + 1] == d[r]);
            assert(s.contains(x));
            assert forall|k: int| 0 <= k < r + 1 implies s[k] != x by {
                if k >= 1 {
                    assert(d[k - 1] == s[k]);
                    assert(d[k - 1] != x);
                }
            }
        } else {
            assert(forall|k: int| 1 <= k < s.len() ==> s[k] == d[k - 1]);
            if s.contains(x) {
                let k = choose|k: int| 0 <= k < s.len() && s[k] == x;
                assert(d[k - 1] == x);
            }
        }
    }
}

/// The sum of the machine words of a sequence.
pub open spec fn sum_u64(s: Seq<u64>) -> int
    decreases s.len(),
{
    if s.len() == 0 {
        0int
    } else {
        sum_u64(s.drop_last()) + s.last()
    }
}

} // verus!
