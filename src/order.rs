use vstd::prelude::*;

verus! {

/// The keys are pairwise distinct.
pub open spec fn distinct_keys(keys: Seq<u64>) -> bool {
    forall|i: int, j: int| 0 <= i < j < keys.len() ==> keys[i] != keys[j]
}

/// Position `j` occurs in `r`.
pub open spec fn occurs(r: Seq<usize>, j: int) -> bool {
    exists|k: int| 0 <= k < r.len() && r[k] == j
}

/// `r` lists every position of `keys` once, in ascending order of key.
pub open spec fn is_ascending_order(keys: Seq<u64>, r: Seq<usize>) -> bool {
    &&& r.len() == keys.len()
    &&& forall|k: int| 0 <= k < r.len() ==> r[k] < keys.len()
    &&& forall|a: int, b: int| 0 <= a < b < r.len() ==> keys[r[a] as int] < keys[r[b] as int]
    &&& forall|j: int| 0 <= j < keys.len() ==> #[trigger] occurs(r, j)
}

/// The positions of distinct `keys`, ordered by ascending key.
pub fn ascending_order(keys: &Vec<u64>) -> (r: Vec<usize>)
    requires
        distinct_keys(keys@),
    ensures
        is_ascending_order(keys@, r@),
{
    let mut r: Vec<usize> = Vec::new();
    let mut j: usize = 0;
    while j < keys.len()
        invariant
            j <= keys@.len(),
            distinct_keys(keys@),
            r@.len() == j,
            forall|k: int| 0 <= k < r@.len() ==> r@[k] < j,
            forall|a: int, b: int| 0 <= a < b < r@.len() ==> keys@[r@[a] as int] < keys@[r@[b] as int],
            forall|x: int| 0 <= x < j ==> #[trigger] occurs(r@, x),
        decreases keys@.len() - j,
    {
        let kj = keys[j];
        let mut p: usize = 0;
        while p < r.len() && keys[r[p]] < kj
            invariant
                p <= r@.len(),
                forall|k: int| 0 <= k < r@.len() ==> r@[k] < j,
                j < keys@.len(),
                kj == keys@[j as int],
                forall|k: int| 0 <= k < p ==> keys@[r@[k] as int] < kj,
            decreases r@.len() - p,
        {
            p = p + 1;
        }
        let ghost r0 = r@;
        proof {
            assert forall|k: int| p <= k < r0.len() implies keys@[r0[k] as int] > kj by {
                assert(r0[k] < j);
                if k > p {
                    assert(keys@[r0[p as int] as int] < keys@[r0[k] as int]);
                }
                assert(keys@[r0[p as int] as int] >= kj);
                assert(keys@[r0[p as int] as int] != kj);
            }
        }
        r.insert(p, j);
        proof {
            assert(r@ == r0.insert(p as int, j));
            assert forall|x: int| 0 <= x < j + 1 implies #[trigger] occurs(r@, x) by {
                if x == j {
                    assert(r@[p as int] == j);
                } else {
                    assert(occurs(r0, x));
                    let k0 = choose|k: int| 0 <= k < r0.len() && r0[k] == x;
                    if k0 < p {
                        assert(r@[k0] == x);
                    } else {
                        assert(r@[k0 + 1] == x);
                    }
                }
            }
        }
        j = j + 1;
    }
    r
}

} // verus!
