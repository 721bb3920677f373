//! Substring containment over character sequences, used for the container's
//! precomputed flag.

use vstd::prelude::*;

use crate::text::str_to_chars;

verus! {

/// The characters of `q` stand as a contiguous block of `d` at position `i`.
pub open spec fn matches_at(d: Seq<char>, q: Seq<char>, i: int) -> bool {
    0 <= i && i + q.len() <= d.len() && d.subrange(i, i + q.len()) == q
}

/// `q` occurs somewhere in `d` as a contiguous block. An empty `q` occurs in
/// every `d`.
pub open spec fn contains_spec(d: Seq<char>, q: Seq<char>) -> bool {
    exists|i: int| matches_at(d, q, i)
}

/// Decides whether `query` occurs in `data` as a contiguous substring.
pub fn contains_substring(data: &str, query: &str) -> (r: bool)
    ensures
        r == contains_spec(data@, query@),
{
    let d = str_to_chars(data);
    let q = str_to_chars(query);
    let n = d.len();
    let m = q.len();
    if m > n {
        proof {
            assert(forall|i: int| !(#[trigger] matches_at(data@, query@, i)));
        }
        return false;
    }
    let mut i: usize = 0;
    while i <= n - m
        invariant
            m <= n,
            n == d.len(),
            m == q.len(),
            d@ == data@,
            q@ == query@,
            i <= n - m + 1,
            forall|t: int| 0 <= t < i ==> !(#[trigger] matches_at(data@, query@, t)),
        decreases n - m - i + 1,
    {
        let mut j: usize = 0;
        while j < m && d[i + j] == q[j]
            invariant
                i + m <= n,
                n == d.len(),
                m == q.len(),
                j <= m,
                forall|k: int| 0 <= k < j ==> d@[i + k] == #[trigger] q@[k],
            decreases m - j,
        {
            j = j + 1;
        }
        if j == m {
            proof {
                assert(d@.subrange(i as int, i + m) =~= q@);
                assert(matches_at(data@, query@, i as int));
            }
            return true;
        }
        proof {
            assert(!matches_at(data@, query@, i as int)) by {
                if matches_at(data@, query@, i as int) {
                    assert(d@.subrange(i as int, i + m)[j as int] == d@[i + j]);
                }
            }
        }
        i = i + 1;
    }
    proof {
        assert forall|t: int| !(#[trigger] matches_at(data@, query@, t)) by {
            if 0 <= t <= n - m {
                assert(!matches_at(data@, query@, t));
            }
        }
    }
    false
}

} // verus!
