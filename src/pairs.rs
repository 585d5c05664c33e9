//! All pairs of two lists, in row-major order: the first list varies fastest.
//!
//! The pair `(a[i], b[j])` stands at position `j * |a| + i`. Direct products,
//! matrix products and swirl products of groups are built on this order.

use vstd::prelude::*;

verus! {

/// The position of the pair `(a[i], b[j])` when `a` has length `na`.
pub open spec fn pair_pos(na: int, i: int, j: int) -> int {
    j * na + i
}

/// The pairs of `a` and `b`, all of `a` against `b[0]` first, then against
/// `b[1]`, and so on.
pub open spec fn pairs_spec<A, B>(a: Seq<A>, b: Seq<B>) -> Seq<(A, B)> {
    Seq::new(a.len() * b.len(), |k: int| (a[k % (a.len() as int)], b[k / (a.len() as int)]))
}

/// Position `j * na + i` lies before `na * nb`, and gives back `i` and `j`.
pub proof fn lemma_pair_pos(na: int, nb: int, i: int, j: int)
    requires
        0 <= i < na,
        0 <= j < nb,
    ensures
        0 <= pair_pos(na, i, j) < na * nb,
        pair_pos(na, i, j) % na == i,
        pair_pos(na, i, j) / na == j,
        pair_pos(na, i, j) + 1 <= na * nb,
{
    assert(0 <= j * na + i < na * nb) by (nonlinear_arith)
        requires
            0 <= i < na,
            0 <= j < nb,
    ;
    vstd::arithmetic::div_mod::lemma_fundamental_div_mod_converse(j * na + i, na, j, i);
}

/// Every position before `na * nb` is some pair's.
pub proof fn lemma_pos_pair(na: int, nb: int, k: int)
    requires
        0 < na,
        0 <= nb,
        0 <= k < na * nb,
    ensures
        0 <= k % na < na,
        0 <= k / na < nb,
        k == pair_pos(na, k % na, k / na),
{
    vstd::arithmetic::div_mod::lemma_fundamental_div_mod(k, na);
    assert(0 <= k / na < nb) by (nonlinear_arith)
        requires
            0 < na,
            0 <= k < na * nb,
            k == na * (k / na) + k % na,
            0 <= k % na < na,
    ;
    assert(k == (k / na) * na + k % na) by (nonlinear_arith)
        requires
            k == na * (k / na) + k % na,
    ;
}

/// Lists all pairs of `a` and `b`, the first list varying fastest.
pub fn into_pairs<A: Copy, B: Copy>(a: &Vec<A>, b: &Vec<B>) -> (r: Vec<(A, B)>)
    requires
        a@.len() * b@.len() <= usize::MAX,
    ensures
        r@ == pairs_spec(a@, b@),
{
    let na = a.len();
    let nb = b.len();
    let mut r: Vec<(A, B)> = Vec::new();
    let mut j: usize = 0;
    while j < nb
        invariant
            na == a@.len(),
            nb == b@.len(),
            na * nb <= usize::MAX,
            j <= nb,
            r@.len() == j * na,
            forall|k: int| 0 <= k < j * na ==> #[trigger] r@[k] == pairs_spec(a@, b@)[k],
        decreases nb - j,
    {
        let mut i: usize = 0;
        while i < na
            invariant
                na == a@.len(),
                nb == b@.len(),
                na * nb <= usize::MAX,
                j < nb,
                i <= na,
                r@.len() == j * na + i,
                forall|k: int| 0 <= k < j * na + i ==> #[trigger] r@[k] == pairs_spec(a@, b@)[k],
            decreases na - i,
        {
            proof {
                lemma_pair_pos(na as int, nb as int, i as int, j as int);
            }
            r.push((a[i], b[j]));
            i += 1;
        }
        proof {
            assert((j + 1) * na == j * na + na) by (nonlinear_arith);
        }
        j += 1;
    }
    proof {
        assert(nb * na == na * nb) by (nonlinear_arith);
        assert(r@ =~= pairs_spec(a@, b@));
    }
    r
}

/// Applies `f` to all pairs of `a` and `b`, in the order of [`into_pairs`].
pub fn pair_map<A, B, C, F: Fn(&A, &B) -> C>(a: &Vec<A>, b: &Vec<B>, f: F) -> (r: Vec<C>)
    requires
        a@.len() * b@.len() <= usize::MAX,
        forall|i: int, j: int|
            0 <= i < a@.len() && 0 <= j < b@.len() ==> f.requires((&a@[i], &b@[j])),
    ensures
        r@.len() == a@.len() * b@.len(),
        forall|i: int, j: int|
            0 <= i < a@.len() && 0 <= j < b@.len() ==> f.ensures(
                (&a@[i], &b@[j]),
                #[trigger] r@[pair_pos(a@.len() as int, i, j)],
            ),
{
    let na = a.len();
    let nb = b.len();
    let mut r: Vec<C> = Vec::new();
    let mut j: usize = 0;
    while j < nb
        invariant
            na == a@.len(),
            nb == b@.len(),
            na * nb <= usize::MAX,
            j <= nb,
            r@.len() == j * na,
            forall|i: int, j: int|
                0 <= i < a@.len() && 0 <= j < b@.len() ==> f.requires((&a@[i], &b@[j])),
            forall|i2: int, j2: int|
                0 <= i2 < na && 0 <= j2 < j ==> f.ensures(
                    (&a@[i2], &b@[j2]),
                    #[trigger] r@[pair_pos(na as int, i2, j2)],
                ),
        decreases nb - j,
    {
        let mut i: usize = 0;
        while i < na
            invariant
                na == a@.len(),
                nb == b@.len(),
                na * nb <= usize::MAX,
                j < nb,
                i <= na,
                r@.len() == j * na + i,
                forall|i: int, j: int|
                    0 <= i < a@.len() && 0 <= j < b@.len() ==> f.requires((&a@[i], &b@[j])),
                forall|i2: int, j2: int|
                    0 <= i2 < na && 0 <= j2 < j ==> f.ensures(
                        (&a@[i2], &b@[j2]),
                        #[trigger] r@[pair_pos(na as int, i2, j2)],
                    ),
                forall|i2: int|
                    0 <= i2 < i ==> f.ensures(
                        (&a@[i2], &b@[j as int]),
                        #[trigger] r@[pair_pos(na as int, i2, j as int)],
                    ),
            decreases na - i,
        {
            proof {
                lemma_pair_pos(na as int, nb as int, i as int, j as int);
                assert forall|i2: int, j2: int| 0 <= i2 < na && 0 <= j2 < j implies pair_pos(
                    na as int,
                    i2,
                    j2,
                ) < j * na by {
                    lemma_pair_pos(na as int, j as int, i2, j2);
                    assert(na * j == j * na) by (nonlinear_arith);
                }
            }
            let c = f(&a[i], &b[j]);
            r.push(c);
            i += 1;
        }
        proof {
            assert((j + 1) * na == j * na + na) by (nonlinear_arith);
            assert forall|i2: int, j2: int| 0 <= i2 < na && 0 <= j2 < j + 1 implies f.ensures(
                (&a@[i2], &b@[j2]),
                #[trigger] r@[pair_pos(na as int, i2, j2)],
            ) by {
                if j2 == j {
                } else {
                }
            }
        }
        j += 1;
    }
    proof {
        assert(nb * na == na * nb) by (nonlinear_arith);
    }
    r
}

} // verus!
