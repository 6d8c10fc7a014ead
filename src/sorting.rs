//! Stable ordering of rows by a two-part key.
use vstd::prelude::*;

verus! {

/// Row `i` comes before row `j`: a smaller key, or the same key and a
/// smaller position.
pub open spec fn comes_before(keys: Seq<(u128, u128)>, i: int, j: int) -> bool {
    keys[i].0 < keys[j].0 || (keys[i].0 == keys[j].0 && (keys[i].1 < keys[j].1 || (keys[i].1
        == keys[j].1 && i < j)))
}

/// `order` lists rows in the order of `comes_before`.
pub open spec fn sorted_by(keys: Seq<(u128, u128)>, order: Seq<usize>) -> bool {
    forall|a: int, b: int|
        0 <= a < b < order.len() ==> comes_before(keys, #[trigger] order[a] as int, #[trigger] order[b] as int)
}

/// `order` holds each row position below `n` once.
pub open spec fn is_ordering(order: Seq<usize>, n: int) -> bool {
    &&& order.len() == n
    &&& forall|a: int| 0 <= a < order.len() ==> #[trigger] order[a] < n
    &&& forall|a: int, b: int| 0 <= a < b < order.len() ==> #[trigger] order[a] != #[trigger] order[b]
}

proof fn lemma_before_transitive(keys: Seq<(u128, u128)>, i: int, j: int, k: int)
    requires
        comes_before(keys, i, j),
        comes_before(keys, j, k),
    ensures
        comes_before(keys, i, k),
{
}

fn before(keys: &Vec<(u128, u128)>, i: usize, j: usize) -> (r: bool)
    requires
        i < keys@.len(),
        j < keys@.len(),
    ensures
        r == comes_before(keys@, i as int, j as int),
{
    let a = keys[i];
    let b = keys[j];
    a.0 < b.0 || (a.0 == b.0 && (a.1 < b.1 || (a.1 == b.1 && i < j)))
}

/// The row positions, ordered by key; rows with equal keys keep their order.
pub fn sort_rows(keys: &Vec<(u128, u128)>) -> (r: Vec<usize>)
    ensures
        is_ordering(r@, keys@.len() as int),
        sorted_by(keys@, r@),
{
    let mut r: Vec<usize> = Vec::new();
    let mut i: usize = 0;
    while i < keys.len()
        invariant
            0 <= i <= keys@.len(),
            is_ordering(r@, i as int),
            sorted_by(keys@, r@),
        decreases keys@.len() - i,
    {
        let mut p: usize = r.len();
        while p > 0 && before(keys, i, r[p - 1])
            invariant
                0 <= p <= r@.len(),
                r@.len() == i,
                i < keys@.len(),
                is_ordering(r@, i as int),
                forall|j: int| p <= j < r@.len() ==> comes_before(keys@, i as int, #[trigger] r@[j] as int),
            decreases p,
        {
            p = p - 1;
        }
        let ghost old_r = r@;
        proof {
            if p > 0 {
                assert(old_r[p - 1] < i);
                assert(comes_before(keys@, old_r[p - 1] as int, i as int));
            }
        }
        r.insert(p, i);
        proof {
            assert(r@ =~= old_r.insert(p as int, i));
            assert forall|a: int, b: int| 0 <= a < b < r@.len() implies comes_before(
                keys@,
                #[trigger] r@[a] as int,
                #[trigger] r@[b] as int,
            ) by {
                if a < p && b > p {
                    lemma_before_transitive(keys@, old_r[a] as int, i as int, old_r[b - 1] as int);
                    if a < p - 1 {
                        lemma_before_transitive(keys@, old_r[a] as int, old_r[p - 1] as int, i as int);
                    }
                } else if a < p && b == p {
                    if a < p - 1 {
                        lemma_before_transitive(keys@, old_r[a] as int, old_r[p - 1] as int, i as int);
                    }
                } else if a == p && b > p {
                } else if a > p {
                }
            }
            assert forall|a: int, b: int| 0 <= a < b < r@.len() implies #[trigger] r@[a] != #[trigger] r@[b] by {
                if a < p && b > p {
                    assert(old_r[a] != old_r[b - 1]);
                } else if a > p {
                    assert(old_r[a - 1] != old_r[b - 1]);
                } else if b < p {
                    assert(old_r[a] != old_r[b]);
                }
            }
        }
        i = i + 1;
    }
    r
}

} // verus!
