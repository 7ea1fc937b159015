//! Sorted, duplicate-free sequences of page ids.
use vstd::prelude::*;

verus! {

/// Every element is at most the ones after it.
pub open spec fn ascending(s: Seq<u32>) -> bool {
    forall|i: int, j: int| 0 <= i <= j < s.len() ==> s[i] <= s[j]
}

/// Every element is below the ones after it.
pub open spec fn strictly_ascending(s: Seq<u32>) -> bool {
    forall|i: int, j: int| 0 <= i < j < s.len() ==> s[i] < s[j]
}

/// Relies on `slice::sort_unstable`: the elements are permuted into ascending order.
#[verifier::external_body]
fn sort_in_place(v: &mut Vec<u32>)
    ensures
        final(v)@.to_multiset() == old(v)@.to_multiset(),
        ascending(final(v)@),
{
    v.sort_unstable()
}

/// The distinct elements of `v`, in ascending order.
pub fn sorted_unique(v: Vec<u32>) -> (r: Vec<u32>)
    ensures
        strictly_ascending(r@),
        forall|x: u32| r@.contains(x) <==> v@.contains(x),
{
    broadcast use vstd::seq_lib::group_to_multiset_ensures;

    let mut s = v;
    sort_in_place(&mut s);
    assert forall|x: u32| s@.contains(x) <==> v@.contains(x) by {
        assert(s@.to_multiset().count(x) == v@.to_multiset().count(x));
    }
    let mut r: Vec<u32> = Vec::new();
    let mut i: usize = 0;
    while i < s.len()
        invariant
            i <= s@.len(),
            ascending(s@),
            strictly_ascending(r@),
            forall|x: u32| r@.contains(x) <==> exists|k: int| 0 <= k < i && s@[k] == x,
            r@.len() > 0 ==> i > 0 && r@.last() == s@[i - 1],
        decreases s.len() - i,
    {
        let x = s[i];
        if r.len() == 0 || r[r.len() - 1] != x {
            proof {
                if r@.len() > 0 {
                    assert(r@.last() <= x);
                }
            }
            let ghost old_r = r@;
            r.push(x);
            proof {
                assert forall|y: u32| r@.contains(y) <==> exists|k: int| 0 <= k < i + 1 && s@[k] == y by {
                    if r@.contains(y) {
                        let j = choose|j: int| 0 <= j < r@.len() && r@[j] == y;
                        if j < old_r.len() {
                            assert(old_r[j] == y);
                            assert(old_r.contains(y));
                        } else {
                            assert(s@[i as int] == y);
                        }
                    }
                    if exists|k: int| 0 <= k < i + 1 && s@[k] == y {
                        let k = choose|k: int| 0 <= k < i + 1 && s@[k] == y;
                        if k < i {
                            assert(old_r.contains(y));
                            let j = choose|j: int| 0 <= j < old_r.len() && old_r[j] == y;
                            assert(r@[j] == y);
                        } else {
                            assert(r@[old_r.len() as int] == y);
                        }
                    }
                }
            }
        } else {
            proof {
                assert forall|y: u32| r@.contains(y) <==> exists|k: int| 0 <= k < i + 1 && s@[k] == y by {
                    if exists|k: int| 0 <= k < i + 1 && s@[k] == y {
                        let k = choose|k: int| 0 <= k < i + 1 && s@[k] == y;
                        if k == i {
                            assert(r@[r@.len() - 1] == y);
                        }
                    }
                }
            }
        }
        i += 1;
    }
    proof {
        assert forall|x: u32| r@.contains(x) <==> v@.contains(x) by {
            if s@.contains(x) {
                let k = choose|k: int| 0 <= k < s@.len() && s@[k] == x;
                assert(exists|k: int| 0 <= k < i && s@[k] == x);
            }
        }
    }
    r
}

} // verus!
