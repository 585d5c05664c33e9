//! Groups as lists of their elements, and the ways to build new groups out
//! of old ones.
//!
//! Nothing here checks the group axioms at run time: whoever builds a
//! [`Group`] from a list of elements vouches that the list is closed under
//! the operation and holds the identity and the inverse of each element.
//! Where a combinator can only keep that promise under a condition on its
//! inputs (two groups that commute, a map that is a homomorphism), its
//! documentation names the condition, and the caller vouches for it too.
//! What the contracts state exactly is which elements come out, in which
//! order, as results of the element operations.

use crate::cyclic::Cyclic;
use crate::cox::{diagram_matrix, path_label, read_diagram, square_matrix, CdError, Cox};
use crate::pairs::{pair_map, pair_pos};
use crate::permutation::{all_permutations, factorial, Permutation};
use vstd::prelude::*;

verus! {

/// What a group element can do: be the identity of a given dimension, and be
/// combined with another element.
pub trait GroupItem: Sized {
    /// The identity element of dimension `dim`.
    fn id(dim: usize) -> Self;

    /// The group operation, `self * other`.
    fn combine(&self, other: &Self) -> Self;

    /// Whether two elements are the same element of the group. Matrices of
    /// floating-point numbers compare up to a tolerance.
    fn same(&self, other: &Self) -> bool;

    /// A number that two elements share whenever they are the same; lets
    /// group generation compare an element only with a few others.
    fn bucket(&self) -> u64;
}

/// Square matrices as group elements, with the operations that the matrix
/// groups of this module need.
pub trait MatrixItem: GroupItem {
    /// `-self`.
    fn negated(&self) -> Self;

    /// The reflection that negates coordinate `idx` of `dim`-dimensional
    /// space.
    fn reflection(dim: usize, idx: usize) -> Self
        requires
            idx < dim,
    ;

    /// The rotation of the plane by `2π / n`.
    fn rotation(n: u32) -> Self
        requires
            n >= 1,
    ;

    /// The block-diagonal matrix with `self` at the top left and `other` at
    /// the bottom right.
    fn direct_sum(&self, other: &Self) -> Self;

    /// Whether the determinant is positive.
    fn has_positive_determinant(&self) -> bool;

    /// The mirrors of a Coxeter diagram, as reflections of `rank`-dimensional
    /// space.
    fn coxeter_reflections(cox: &Cox) -> Vec<Self>
        requires
            cox.wf(),
            cox.rank_spec() >= 1,
    ;

    /// For two rotations of 3-space, the rotation of 4-space `x ↦ q x r`,
    /// where `q` and `r` are unit quaternions for `self` and `other`.
    fn swirl_product(&self, other: &Self) -> Self;
}

/// A group, given by the dimension of its elements and the list of them.
#[derive(Clone)]
pub struct Group<T> {
    dim: usize,
    elements: Vec<T>,
}

impl<T> View for Group<T> {
    type V = Seq<T>;

    closed spec fn view(&self) -> Seq<T> {
        self.elements@
    }
}

/// Whether `r` lists `f(a[i], b[j])` for all pairs, in the order of
/// [`crate::pairs::into_pairs`].
pub open spec fn lists_pairs<A, B, C, F: Fn(&A, &B) -> C>(
    a: Seq<A>,
    b: Seq<B>,
    f: F,
    r: Seq<C>,
) -> bool {
    &&& r.len() == a.len() * b.len()
    &&& forall|i: int, j: int|
        0 <= i < a.len() && 0 <= j < b.len() ==> call_ensures(
            f,
            (&a[i], &b[j]),
            #[trigger] r[pair_pos(a.len() as int, i, j)],
        )
}

/// The elements of `s` whose entry in `keep` is true, in order.
pub open spec fn select<T>(s: Seq<T>, keep: Seq<bool>) -> Seq<T>
    decreases s.len(),
{
    if s.len() == 0 || keep.len() == 0 {
        Seq::empty()
    } else if keep.last() {
        select(s.drop_last(), keep.drop_last()).push(s.last())
    } else {
        select(s.drop_last(), keep.drop_last())
    }
}

/// Whether `r` holds, in order, the elements of `s` that `f` accepts.
pub open spec fn filtered<T, F: Fn(&T) -> bool>(s: Seq<T>, f: F, r: Seq<T>) -> bool {
    exists|keep: Seq<bool>|
        keep.len() == s.len() && (forall|i: int|
            0 <= i < s.len() ==> call_ensures(f, (&s[i],), #[trigger] keep[i])) && r == select(
            s,
            keep,
        )
}

impl<T> Group<T> {
    /// The dimension of the elements.
    pub closed spec fn dim_spec(&self) -> nat {
        self.dim as nat
    }

    /// Builds a group from its elements. The caller vouches that they form
    /// a group of dimension `dim`.
    pub fn new(dim: usize, elements: Vec<T>) -> (r: Group<T>)
        ensures
            r.dim_spec() == dim,
            r@ == elements@,
    {
        Group { dim, elements }
    }

    /// The dimension of the elements.
    pub fn dim(&self) -> (r: usize)
        ensures
            r == self.dim_spec(),
    {
        self.dim
    }

    /// The number of elements.
    pub fn count(&self) -> (r: usize)
        ensures
            r == self@.len(),
    {
        self.elements.len()
    }

    /// The elements, in order.
    pub fn elements(&self) -> (r: &Vec<T>)
        ensures
            r@ == self@,
    {
        &self.elements
    }

    /// The elements, in order.
    pub fn into_elements(self) -> (r: Vec<T>)
        ensures
            r@ == self@,
    {
        self.elements
    }

    /// Keeps the elements for further use. Every list of this library is
    /// already kept, so this gives the same elements in the same order, and
    /// reading them any number of times gives them again.
    pub fn cache(self) -> (r: Group<T>)
        ensures
            r@ == self@,
            r.dim_spec() == self.dim_spec(),
    {
        self
    }

    /// Maps every element through `f`, into a group of dimension `dim`. The
    /// caller vouches that `f` is an isomorphism onto its image.
    pub fn iso<U, F: Fn(&T) -> U>(self, dim: usize, f: F) -> (r: Group<U>)
        requires
            forall|i: int| 0 <= i < self@.len() ==> f.requires((&self@[i],)),
        ensures
            r.dim_spec() == dim,
            r@.len() == self@.len(),
            forall|i: int| 0 <= i < self@.len() ==> call_ensures(f, (&self@[i],), #[trigger] r@[i]),
    {
        let mut out: Vec<U> = Vec::new();
        let mut i: usize = 0;
        while i < self.elements.len()
            invariant
                i <= self@.len(),
                out@.len() == i,
                forall|k: int| 0 <= k < self@.len() ==> f.requires((&self@[k],)),
                forall|k: int| 0 <= k < i ==> call_ensures(f, (&self@[k],), #[trigger] out@[k]),
            decreases self@.len() - i,
        {
            let u = f(&self.elements[i]);
            out.push(u);
            i += 1;
        }
        Group { dim, elements: out }
    }

    /// The subgroup of the elements that `f` accepts. The caller vouches
    /// that they form a group.
    pub fn sub<F: Fn(&T) -> bool>(self, f: F) -> (r: Group<T>)
        requires
            forall|i: int| 0 <= i < self@.len() ==> f.requires((&self@[i],)),
        ensures
            r.dim_spec() == self.dim_spec(),
            filtered(self@, f, r@),
    {
        let ghost s = self@;
        let dim = self.dim;
        let mut flags: Vec<bool> = Vec::new();
        let mut i: usize = 0;
        while i < self.elements.len()
            invariant
                s == self@,
                i <= s.len(),
                flags@.len() == i,
                forall|k: int| 0 <= k < s.len() ==> f.requires((&s[k],)),
                forall|k: int| 0 <= k < i ==> call_ensures(f, (&s[k],), #[trigger] flags@[k]),
            decreases s.len() - i,
        {
            let b = f(&self.elements[i]);
            flags.push(b);
            i += 1;
        }
        let ghost keep = flags@;
        let mut all = self.elements;
        let mut rev: Vec<T> = Vec::new();
        let mut i: usize = all.len();
        proof {
            assert(s.subrange(i as int, s.len() as int) =~= Seq::empty());
            assert(all@ =~= s.subrange(0, i as int));
        }
        while i > 0
            invariant
                i <= s.len(),
                keep.len() == s.len(),
                flags@ == keep,
                all@ == s.subrange(0, i as int),
                rev@ == select(
                    s.subrange(i as int, s.len() as int),
                    keep.subrange(i as int, s.len() as int),
                ).reverse(),
            decreases i,
        {
            let x = all.pop().unwrap();
            proof {
                let s2 = s.subrange(i - 1, s.len() as int);
                let k2 = keep.subrange(i - 1, s.len() as int);
                lemma_select_split(s2, k2, 1);
                assert(s2.subrange(1, s2.len() as int) =~= s.subrange(i as int, s.len() as int));
                assert(k2.subrange(1, k2.len() as int) =~= keep.subrange(i as int, s.len() as int));
                assert(s2.subrange(0, 1) =~= seq![x]);
                assert(k2.subrange(0, 1) =~= seq![keep[i - 1]]);
                assert(seq![x].drop_last() =~= Seq::<T>::empty());
                assert(seq![keep[i - 1]].drop_last() =~= Seq::<bool>::empty());
                assert(all@ =~= s.subrange(0, i - 1));
            }
            if flags[i - 1] {
                proof {
                    assert(seq![x].drop_last() =~= Seq::<T>::empty());
                    assert(seq![true].drop_last() =~= Seq::<bool>::empty());
                    assert(select(Seq::<T>::empty(), Seq::<bool>::empty()) == Seq::<T>::empty());
                    assert(select(seq![x], seq![true]) == select(Seq::<T>::empty(), Seq::<bool>::empty()).push(x));
                    assert(select(seq![x], seq![true]) =~= seq![x]);
                }
                rev.push(x);
                proof {
                    let t = select(s.subrange(i as int, s.len() as int), keep.subrange(i as int, s.len() as int));
                    assert((seq![x] + t).reverse() =~= t.reverse().push(x));
                }
            } else {
                proof {
                    assert(seq![x].drop_last() =~= Seq::<T>::empty());
                    assert(seq![false].drop_last() =~= Seq::<bool>::empty());
                    assert(select(Seq::<T>::empty(), Seq::<bool>::empty()) == Seq::<T>::empty());
                    assert(select(seq![x], seq![false]) =~= Seq::<T>::empty());
                    let t = select(s.subrange(i as int, s.len() as int), keep.subrange(i as int, s.len() as int));
                    assert(Seq::<T>::empty() + t =~= t);
                }
            }
            i -= 1;
        }
        proof {
            assert(s.subrange(0, s.len() as int) =~= s);
            assert(keep.subrange(0, s.len() as int) =~= keep);
        }
        let ghost want = select(s, keep);
        let mut out: Vec<T> = Vec::new();
        proof {
            assert(rev@.reverse() =~= want);
            assert(out@ + rev@.reverse() =~= want);
        }
        while rev.len() > 0
            invariant
                out@ + rev@.reverse() == want,
            decreases rev@.len(),
        {
            let ghost before = rev@;
            let y = rev.pop().unwrap();
            proof {
                assert(before.reverse() =~= seq![y] + rev@.reverse());
            }
            out.push(y);
            proof {
                assert(out@ + rev@.reverse() =~= want);
            }
        }
        proof {
            assert(out@ =~= want);
        }
        Group { dim, elements: out }
    }
}

proof fn lemma_select_split<T>(s: Seq<T>, keep: Seq<bool>, i: int)
    requires
        keep.len() == s.len(),
        0 <= i <= s.len(),
    ensures
        select(s, keep) == select(s.subrange(0, i), keep.subrange(0, i)) + select(
            s.subrange(i, s.len() as int),
            keep.subrange(i, s.len() as int),
        ),
    decreases s.len(),
{
    if i == s.len() {
        assert(s.subrange(0, i) =~= s);
        assert(keep.subrange(0, i) =~= keep);
        assert(s.subrange(i, s.len() as int) =~= Seq::<T>::empty());
        assert(select(s, keep) + Seq::<T>::empty() =~= select(s, keep));
    } else {
        lemma_select_split(s.drop_last(), keep.drop_last(), i);
        assert(s.drop_last().subrange(0, i) =~= s.subrange(0, i));
        assert(keep.drop_last().subrange(0, i) =~= keep.subrange(0, i));
        let ts = s.subrange(i, s.len() as int);
        let tk = keep.subrange(i, s.len() as int);
        assert(ts.drop_last() =~= s.drop_last().subrange(i, s.len() - 1));
        assert(tk.drop_last() =~= keep.drop_last().subrange(i, s.len() - 1));
        assert(ts.last() == s.last());
        assert(tk.last() == keep.last());
        let a = select(s.subrange(0, i), keep.subrange(0, i));
        let b = select(ts.drop_last(), tk.drop_last());
        assert((a + b).push(s.last()) =~= a + b.push(s.last()));
    }
}

/// Whether `r` is `id, g, g², ..., g^(order - 1)` for the identity of
/// dimension `dim`.
pub open spec fn powers_of<T: GroupItem>(r: Seq<T>, dim: usize, g: T, order: nat) -> bool {
    &&& r.len() == order
    &&& call_ensures(T::id, (dim,), r[0])
    &&& forall|k: int| 0 <= k < order - 1 ==> call_ensures(T::combine, (&r[k], &g), #[trigger] r[k + 1])
}

/// Whether `r` is the identity of dimension `dim` followed by `g`.
pub open spec fn identity_and<T: GroupItem>(r: Seq<T>, dim: usize, g: T) -> bool {
    &&& r.len() == 2
    &&& call_ensures(T::id, (dim,), r[0])
    &&& r[1] == g
}

/// Whether `r[k]` is a product `r[p] * gens[g]` of an earlier element and
/// a generator.
pub open spec fn has_parent<T: GroupItem>(r: Seq<T>, gens: Seq<T>, k: int) -> bool {
    exists|p: int, g: int|
        0 <= p < k && 0 <= g < gens.len() && #[trigger] call_ensures(
            T::combine,
            (&r[p], &gens[g]),
            r[k],
        )
}

/// Whether every element of `r` after the first is a product of an earlier
/// element and a generator.
pub open spec fn reached_from<T: GroupItem>(r: Seq<T>, gens: Seq<T>) -> bool {
    forall|k: int| 1 <= k < r.len() ==> #[trigger] has_parent(r, gens, k)
}

/// Whether `x` is one of the elements of `r`, or the same as one.
pub open spec fn among<T: GroupItem>(x: T, r: Seq<T>) -> bool {
    exists|p: int| 0 <= p < r.len() && (x == r[p] || call_ensures(T::same, (&x, &r[p]), true))
}

/// Whether some product `a * b` is among `r`.
pub open spec fn covered<T: GroupItem>(r: Seq<T>, a: T, b: T) -> bool {
    exists|x: T| call_ensures(T::combine, (&a, &b), x) && #[trigger] among(x, r)
}

/// Whether `r` is closed under multiplication by the generators on the
/// right: a product `r[k] * gens[g]` is among `r`.
pub open spec fn closed_under<T: GroupItem>(r: Seq<T>, gens: Seq<T>) -> bool {
    forall|k: int, g: int|
        0 <= k < r.len() && 0 <= g < gens.len() ==> #[trigger] covered(r, r[k], gens[g])
}

proof fn lemma_among_push<T: GroupItem>(r: Seq<T>, y: T, x: T)
    requires
        among(x, r),
    ensures
        among(x, r.push(y)),
{
    let p = choose|p: int| 0 <= p < r.len() && (x == r[p] || call_ensures(T::same, (&x, &r[p]), true));
    assert(r.push(y)[p] == r[p]);
}

proof fn lemma_covered_push<T: GroupItem>(r: Seq<T>, y: T, a: T, b: T)
    requires
        covered(r, a, b),
    ensures
        covered(r.push(y), a, b),
{
    let x = choose|x: T| call_ensures(T::combine, (&a, &b), x) && #[trigger] among(x, r);
    lemma_among_push(r, y, x);
}

impl<T: GroupItem> Group<T> {
    /// The group holding the identity of dimension `dim` alone.
    pub fn trivial(dim: usize) -> (r: Group<T>)
        ensures
            r.dim_spec() == dim,
            r@.len() == 1,
            call_ensures(T::id, (dim,), r@[0]),
    {
        let e = T::id(dim);
        Group { dim, elements: vec![e] }
    }

    /// The group of the identity and `gen`. The caller vouches that `gen`
    /// is an involution.
    pub fn two(dim: usize, gen: T) -> (r: Group<T>)
        ensures
            r.dim_spec() == dim,
            identity_and(r@, dim, gen),
    {
        let e = T::id(dim);
        Group { dim, elements: vec![e, gen] }
    }

    /// The cyclic group `id, gen, gen², ..., gen^(order - 1)`. The caller
    /// vouches that `gen` has that order.
    pub fn cyclic_gen(dim: usize, gen: T, order: usize) -> (r: Group<T>)
        requires
            order >= 1,
        ensures
            r.dim_spec() == dim,
            powers_of(r@, dim, gen, order as nat),
    {
        let mut powers = Cyclic::new(dim, gen);
        let mut elements: Vec<T> = Vec::new();
        elements.push(powers.next());
        let mut k: usize = 1;
        while k < order
            invariant
                1 <= k <= order,
                elements@.len() == k,
                powers.gen_spec() == gen,
                call_ensures(T::id, (dim,), elements@[0]),
                call_ensures(T::combine, (&elements@[k - 1], &gen), powers.current_spec()),
                forall|j: int| 0 <= j < k - 1 ==> call_ensures(T::combine, (&elements@[j], &gen), #[trigger] elements@[j + 1]),
            decreases order - k,
        {
            let next = powers.next();
            elements.push(next);
            k += 1;
        }
        Group { dim, elements }
    }

    /// The group generated by `gens`: starting from the identity of
    /// dimension `dim`, multiplies every element found by every generator
    /// until no new element comes up. Runs forever when the group is
    /// infinite. No two elements listed are the same: two with the same
    /// bucket were compared, and found different.
    pub fn generated_by(dim: usize, gens: &Vec<T>) -> (r: Group<T>)
        ensures
            r.dim_spec() == dim,
            r@.len() >= 1,
            call_ensures(T::id, (dim,), r@[0]),
            reached_from(r@, gens@),
            closed_under(r@, gens@),
            exists|keys: Seq<u64>| #[trigger] keys.len() == r@.len() && distinct_by(r@, keys),
    {
        broadcast use vstd::std_specs::hash::group_hash_axioms;

        let mut elements: Vec<T> = Vec::new();
        elements.push(T::id(dim));
        let mut buckets: std::collections::HashMap<u64, Vec<usize>> = std::collections::HashMap::new();
        let key0 = elements[0].bucket();
        buckets.insert(key0, vec![0]);
        let ghost mut keys: Seq<u64> = seq![key0];
        proof {
            assert(listed(buckets@[key0]@, 0));
        }
        let mut i: usize = 0;
        while i < elements.len()
            invariant
                elements@.len() >= 1,
                call_ensures(T::id, (dim,), elements@[0]),
                i <= elements@.len(),
                reached_from(elements@, gens@),
                keys.len() == elements@.len(),
                distinct_by(elements@, keys),
                forall|k: int|
                    0 <= k < elements@.len() ==> buckets@.contains_key(#[trigger] keys[k]) && listed(
                        buckets@[keys[k]]@,
                        k,
                    ),
                forall|key: u64, t: int|
                    buckets@.contains_key(key) && 0 <= t < buckets@[key]@.len() ==> #[trigger] buckets@[key]@[t]
                        < elements@.len(),
                forall|k: int, g: int|
                    0 <= k < i && 0 <= g < gens@.len() ==> #[trigger] covered(
                        elements@,
                        elements@[k],
                        gens@[g],
                    ),
            decreases usize::MAX - i,
        {
            let mut g: usize = 0;
            while g < gens.len()
                invariant
                    elements@.len() >= 1,
                    call_ensures(T::id, (dim,), elements@[0]),
                    i < elements@.len(),
                    g <= gens@.len(),
                    reached_from(elements@, gens@),
                    keys.len() == elements@.len(),
                    distinct_by(elements@, keys),
                    forall|k: int|
                        0 <= k < elements@.len() ==> buckets@.contains_key(#[trigger] keys[k]) && listed(
                            buckets@[keys[k]]@,
                            k,
                        ),
                    forall|key: u64, t: int|
                        buckets@.contains_key(key) && 0 <= t < buckets@[key]@.len() ==> #[trigger] buckets@[key]@[t]
                            < elements@.len(),
                    forall|k: int, g2: int|
                        (0 <= k < i && 0 <= g2 < gens@.len() || k == i && 0 <= g2 < g)
                            ==> #[trigger] covered(elements@, elements@[k], gens@[g2]),
                decreases gens@.len() - g,
            {
                let x = elements[i].combine(&gens[g]);
                let key = x.bucket();
                let ghost old_buckets = buckets@;
                let mut found = false;
                let mut list: Vec<usize> = match buckets.remove(&key) {
                    Some(l) => l,
                    None => Vec::new(),
                };
                proof {
                    assert(buckets@ == old_buckets.remove(key));
                    assert(old_buckets.contains_key(key) ==> list@ == old_buckets[key]@);
                    assert(!old_buckets.contains_key(key) ==> list@.len() == 0);
                }
                let ghost old_list = list@;
                let mut t: usize = 0;
                while t < list.len() && !found
                    invariant
                        list@ == old_list,
                        forall|u: int| 0 <= u < list@.len() ==> #[trigger] list@[u] < elements@.len(),
                        t <= list@.len(),
                        found ==> among(x, elements@),
                        !found ==> forall|u: int|
                            0 <= u < t ==> #[trigger] call_ensures(
                                T::same,
                                (&x, &elements@[list@[u] as int]),
                                false,
                            ),
                    decreases list@.len() - t,
                {
                    let idx = list[t];
                    if x.same(&elements[idx]) {
                        found = true;
                    }
                    t += 1;
                }
                let ghost compared = t;
                if !found {
                    let ghost old_elements = elements@;
                    let ghost old_keys = keys;
                    let idx = elements.len();
                    list.push(idx);
                    elements.push(x);
                    proof {
                        keys = keys.push(key);
                        assert(elements@[idx as int] == x);
                        assert(among(x, elements@));
                        assert forall|k: int| 1 <= k < elements@.len() implies #[trigger] has_parent(
                            elements@,
                            gens@,
                            k,
                        ) by {
                            if k == idx {
                                assert(call_ensures(
                                    T::combine,
                                    (&elements@[i as int], &gens@[g as int]),
                                    elements@[k],
                                ));
                            } else {
                                assert(has_parent(old_elements, gens@, k));
                                let (p, g2) = choose|p: int, g2: int|
                                    0 <= p < k && 0 <= g2 < gens@.len() && #[trigger] call_ensures(
                                        T::combine,
                                        (&old_elements[p], &gens@[g2]),
                                        old_elements[k],
                                    );
                                assert(elements@[p] == old_elements[p]);
                                assert(elements@[k] == old_elements[k]);
                                assert(call_ensures(
                                    T::combine,
                                    (&elements@[p], &gens@[g2]),
                                    elements@[k],
                                ));
                            }
                        }
                        assert forall|k: int, g2: int|
                            (0 <= k < i && 0 <= g2 < gens@.len() || k == i && 0 <= g2 < g)
                                implies #[trigger] covered(elements@, elements@[k], gens@[g2]) by {
                            assert(elements@[k] == old_elements[k]);
                            assert(covered(old_elements, old_elements[k], gens@[g2]));
                            lemma_covered_push(old_elements, x, old_elements[k], gens@[g2]);
                        }
                        assert(reached_from(elements@, gens@));
                        assert forall|p: int, q: int|
                            0 <= p < q < elements@.len() && keys[p] == keys[q] implies #[trigger] call_ensures(
                                T::same,
                                (&elements@[q], &elements@[p]),
                                false,
                            ) by {
                            if q == idx {
                                assert(old_buckets.contains_key(old_keys[p]) && listed(
                                    old_buckets[old_keys[p]]@,
                                    p,
                                ));
                                let u = choose|u: int| 0 <= u < old_list.len() && old_list[u] == p;
                                assert(compared == old_list.len());
                                assert(0 <= u < compared);
                                assert(call_ensures(T::same, (&x, &old_elements[old_list[u] as int]), false));
                                assert(old_elements[p] == elements@[p]);
                            } else {
                                assert(elements@[p] == old_elements[p]);
                                assert(elements@[q] == old_elements[q]);
                                assert(old_keys[p] == old_keys[q]);
                            }
                        }
                        assert(distinct_by(elements@, keys));
                    }
                }
                proof {
                    assert(covered(elements@, elements@[i as int], gens@[g as int]));
                }
                let ghost final_list = list@;
                buckets.insert(key, list);
                proof {
                    assert(buckets@.contains_key(key) && buckets@[key]@ == final_list);
                    assert(forall|k2: u64|
                        k2 != key ==> (buckets@.contains_key(k2) == old_buckets.contains_key(k2) && (
                        buckets@.contains_key(k2) ==> buckets@[k2] == old_buckets[k2])));
                    assert forall|k: int| 0 <= k < elements@.len() implies buckets@.contains_key(
                        #[trigger] keys[k],
                    ) && listed(buckets@[keys[k]]@, k) by {
                        if keys[k] == key {
                            if k == elements@.len() - 1 && !found {
                                assert(final_list[final_list.len() - 1] == k);
                            } else {
                                assert(old_buckets.contains_key(keys[k]) && listed(old_buckets[keys[k]]@, k));
                                let u = choose|u: int| 0 <= u < old_list.len() && old_list[u] == k;
                                assert(final_list[u] == k);
                            }
                        } else {
                            assert(old_buckets.contains_key(keys[k]) && listed(old_buckets[keys[k]]@, k));
                        }
                    }
                }
                g += 1;
            }
            i += 1;
        }
        proof {
            assert(keys.len() == elements@.len() && distinct_by(elements@, keys));
        }
        Group { dim, elements }
    }
}

/// Whether `k` is one of the entries of `l`.
pub open spec fn listed(l: Seq<usize>, k: int) -> bool {
    exists|u: int| 0 <= u < l.len() && l[u] == k
}

/// Whether `keys` holds the bucket of each element of `r`, and two elements
/// in the same bucket were found not to be the same.
pub open spec fn distinct_by<T: GroupItem>(r: Seq<T>, keys: Seq<u64>) -> bool {
    &&& forall|k: int| 0 <= k < r.len() ==> call_ensures(T::bucket, (&r[k],), #[trigger] keys[k])
    &&& forall|p: int, q: int|
        0 <= p < q < r.len() && keys[p] == keys[q] ==> #[trigger] call_ensures(
            T::same,
            (&r[q], &r[p]),
            false,
        )
}

impl GroupItem for Permutation {
    fn id(dim: usize) -> (r: Permutation)
        ensures
            r@ == Seq::new(dim as nat, |i: int| i as usize),
    {
        Permutation::identity(dim)
    }

    fn combine(&self, other: &Permutation) -> (r: Permutation)
        ensures
            r@ == crate::permutation::compose_spec(self@, other@),
    {
        self.compose(other)
    }

    fn same(&self, other: &Permutation) -> (r: bool)
        ensures
            r == (self@ == other@),
    {
        self.equals(other)
    }

    fn bucket(&self) -> u64 {
        let v = self.as_vec();
        let mut h: u64 = 0;
        let mut i: usize = 0;
        while i < v.len()
            invariant
                i <= v@.len(),
            decreases v@.len() - i,
        {
            h = h.wrapping_mul(1_000_003).wrapping_add(v[i] as u64);
            i += 1;
        }
        h
    }
}

/// The one-element group, as the target of homomorphisms that carry no
/// information.
impl GroupItem for () {
    fn id(dim: usize) {
    }

    fn combine(&self, other: &()) {
    }

    fn same(&self, other: &()) -> (r: bool)
        ensures
            r,
    {
        true
    }

    fn bucket(&self) -> u64 {
        0
    }
}

impl<T> Group<T> {
    /// The symmetric group on the elements of `self`: all `n!` permutations
    /// of `{0, ..., n - 1}`, where `n` is the number of elements.
    pub fn permutations(self) -> (r: Group<Permutation>)
        requires
            factorial(self@.len()) <= usize::MAX,
        ensures
            r.dim_spec() == self@.len(),
            r@.len() == factorial(self@.len()),
            forall|k: int|
                0 <= k < r@.len() ==> (#[trigger] r@[k])@ == crate::permutation::all_permutations_spec(
                    self@.len(),
                )[k],
            forall|k: int| 0 <= k < r@.len() ==> crate::permutation::is_permutation((#[trigger] r@[k])@),
            forall|j: int, k: int| 0 <= j < r@.len() && 0 <= k < r@.len() && j != k ==> r@[j]@ != r@[k]@,
    {
        let n = self.elements.len();
        Group { dim: n, elements: all_permutations(n) }
    }
}

impl Group<Permutation> {
    /// The symmetric group of order 2, on two points.
    pub fn involution() -> (r: Group<Permutation>)
        ensures
            r.dim_spec() == 2,
            r@.len() == 2,
            r@[0]@ == seq![0usize, 1usize],
            r@[1]@ == seq![1usize, 0usize],
    {
        let swap = Permutation::new(vec![1, 0]);
        let r = Group::two(2, swap);
        proof {
            assert(r@[0]@ =~= seq![0usize, 1usize]);
        }
        r
    }
}

impl<T: MatrixItem> Group<T> {
    /// The cyclic group generated by a rotation of the plane by `2π / n`.
    pub fn cyclic(n: u32) -> (r: Group<T>)
        requires
            n >= 1,
        ensures
            r.dim_spec() == 2,
            exists|rot: T| call_ensures(T::rotation, (n,), rot) && powers_of(r@, 2, rot, n as nat),
    {
        let rot = T::rotation(n);
        Group::cyclic_gen(2, rot, n as usize)
    }

    /// The group of the identity and the central inversion `-I`.
    pub fn central_inv(dim: usize) -> (r: Group<T>)
        requires
            dim >= 1,
        ensures
            r.dim_spec() == dim,
            is_central_pair(r@, dim),
    {
        let e = T::id(dim);
        let minus = e.negated();
        Group::two(dim, minus)
    }

    /// The group of the identity and the reflection that negates coordinate
    /// `idx`.
    pub fn reflection_at(dim: usize, idx: usize) -> (r: Group<T>)
        requires
            dim >= 1,
            idx < dim,
        ensures
            r.dim_spec() == dim,
            is_reflection_pair(r@, dim, idx),
    {
        let refl = T::reflection(dim, idx);
        Group::two(dim, refl)
    }

    /// The direct product: the direct sums `a ⊕ b` of all pairs, in the order
    /// of [`crate::pairs::into_pairs`], in dimension `dim(self) + dim(g)`.
    pub fn direct_product(self, g: Group<T>) -> (r: Group<T>)
        requires
            self.dim_spec() + g.dim_spec() <= usize::MAX,
            self@.len() * g@.len() <= usize::MAX,
        ensures
            r.dim_spec() == self.dim_spec() + g.dim_spec(),
            lists_pairs(self@, g@, T::direct_sum, r@),
    {
        let elements = pair_map(&self.elements, &g.elements, T::direct_sum);
        Group { dim: self.dim + g.dim, elements }
    }

    /// Every element of `self` with `dim` more coordinates, which it leaves
    /// fixed: the direct product with the trivial group of dimension `dim`.
    pub fn pad(self, dim: usize) -> (r: Group<T>)
        requires
            self.dim_spec() + dim <= usize::MAX,
        ensures
            r.dim_spec() == self.dim_spec() + dim,
            r@.len() == self@.len(),
            exists|e: T|
                call_ensures(T::id, (dim,), e) && forall|i: int|
                    0 <= i < self@.len() ==> call_ensures(T::direct_sum, (&self@[i], &e), #[trigger] r@[i]),
    {
        let n = self.elements.len();
        let t = Group::trivial(dim);
        let ghost e = t@[0];
        proof {
            assert(n * 1 == n);
        }
        let r = self.direct_product(t);
        proof {
            assert forall|i: int| 0 <= i < self@.len() implies call_ensures(
                T::direct_sum,
                (&self@[i], &e),
                #[trigger] r@[i],
            ) by {
                crate::pairs::lemma_pair_pos(self@.len() as int, 1, i, 0);
            }
        }
        r
    }

    /// The rotation subgroup: the elements with a positive determinant.
    pub fn rotations(self) -> (r: Group<T>)
        ensures
            r.dim_spec() == self.dim_spec(),
            filtered(self@, T::has_positive_determinant, r@),
    {
        self.sub(T::has_positive_determinant)
    }

    /// All products `a * b` of an element of `self` and one of `g`, in the
    /// order of [`crate::pairs::into_pairs`]. The caller vouches that the two
    /// groups commute, so that the products form a group.
    pub fn matrix_product(self, g: Group<T>) -> (r: Group<T>)
        requires
            self@.len() * g@.len() <= usize::MAX,
        ensures
            r.dim_spec() == self.dim_spec(),
            lists_pairs(self@, g@, T::combine, r@),
    {
        let elements = pair_map(&self.elements, &g.elements, T::combine);
        Group { dim: self.dim, elements }
    }

    /// `self` together with `-a` for each element `a`: the product with the
    /// central inversion group. The caller vouches that `-I` is not in
    /// `self` already.
    pub fn with_central_inv(self) -> (r: Group<T>)
        requires
            self.dim_spec() >= 1,
            self@.len() * 2 <= usize::MAX,
        ensures
            r.dim_spec() == self.dim_spec(),
            exists|c: Seq<T>|
                is_central_pair(c, self.dim_spec() as usize) && lists_pairs(self@, c, T::combine, r@),
    {
        let dim = self.dim;
        let c = Group::central_inv(dim);
        let ghost cv = c@;
        let r = self.matrix_product(c);
        proof {
            assert(is_central_pair(cv, dim) && lists_pairs(self@, cv, T::combine, r@));
        }
        r
    }

    /// `self` together with `a * s` for each element `a`, where `s` negates
    /// coordinate `idx`. The caller vouches that this forms a group.
    pub fn with_reflection_at(self, idx: usize) -> (r: Group<T>)
        requires
            idx < self.dim_spec(),
            self@.len() * 2 <= usize::MAX,
        ensures
            r.dim_spec() == self.dim_spec(),
            exists|c: Seq<T>|
                is_reflection_pair(c, self.dim_spec() as usize, idx) && lists_pairs(
                    self@,
                    c,
                    T::combine,
                    r@,
                ),
    {
        let dim = self.dim;
        let c = Group::reflection_at(dim, idx);
        let ghost cv = c@;
        let r = self.matrix_product(c);
        proof {
            assert(is_reflection_pair(cv, dim, idx) && lists_pairs(self@, cv, T::combine, r@));
        }
        r
    }
}

/// Whether `c` is the identity of dimension `dim` and its negative.
pub open spec fn is_central_pair<T: MatrixItem>(c: Seq<T>, dim: usize) -> bool {
    &&& c.len() == 2
    &&& call_ensures(T::id, (dim,), c[0])
    &&& exists|e: T| call_ensures(T::id, (dim,), e) && call_ensures(T::negated, (&e,), c[1])
}

/// Whether `c` is the identity of dimension `dim` and the reflection that
/// negates coordinate `idx`.
pub open spec fn is_reflection_pair<T: MatrixItem>(c: Seq<T>, dim: usize, idx: usize) -> bool {
    &&& c.len() == 2
    &&& call_ensures(T::id, (dim,), c[0])
    &&& call_ensures(T::reflection, (dim, idx), c[1])
}

/// Whether `c` is the cyclic group of a `2π / n` rotation of the plane.
pub open spec fn is_cyclic_of<T: MatrixItem>(c: Seq<T>, n: u32) -> bool {
    exists|rot: T| call_ensures(T::rotation, (n,), rot) && powers_of(c, 2, rot, n as nat)
}


/// Whether `z` is `x ⊕ f(x)`.
pub open spec fn step_of<T: MatrixItem, F: Fn(&T) -> T>(x: T, f: F, z: T) -> bool {
    exists|y: T| call_ensures(f, (&x,), y) && #[trigger] call_ensures(T::direct_sum, (&x, &y), z)
}

/// Whether `r` is `g ⊕ f(g)` for each element `g` of `s`, in order.
pub open spec fn stepped<T: MatrixItem, F: Fn(&T) -> T>(s: Seq<T>, f: F, r: Seq<T>) -> bool {
    &&& r.len() == s.len()
    &&& forall|i: int| 0 <= i < s.len() ==> #[trigger] step_of(s[i], f, r[i])
}

impl<T: MatrixItem> Group<T> {
    /// The dihedral group of order `2n` in the plane: the rotations by
    /// multiples of `2π / n`, each also followed by the reflection of the
    /// first coordinate.
    pub fn dihedral_2(n: u32) -> (r: Group<T>)
        requires
            n >= 1,
            2 * (n as int) <= usize::MAX,
        ensures
            r.dim_spec() == 2,
            r@.len() == 2 * n,
            exists|c: Seq<T>, e: Seq<T>|
                is_cyclic_of(c, n) && is_reflection_pair(e, 2, 0) && lists_pairs(c, e, T::combine, r@),
    {
        let c = Group::<T>::cyclic(n);
        c.with_reflection_at(0)
    }

    /// The dihedral group of order `2n` in 3-space: the rotations by
    /// multiples of `2π / n` about the third axis, each also followed by the
    /// reflection of the third coordinate.
    pub fn dihedral_3(n: u32) -> (r: Group<T>)
        requires
            n >= 1,
            2 * (n as int) <= usize::MAX,
        ensures
            r.dim_spec() == 3,
            r@.len() == 2 * n,
            exists|c: Seq<T>, p: Seq<T>, e: Seq<T>|
                is_cyclic_of(c, n) && p.len() == c.len() && (exists|id1: T|
                    call_ensures(T::id, (1usize,), id1) && forall|i: int|
                        0 <= i < c.len() ==> call_ensures(T::direct_sum, (&c[i], &id1), #[trigger] p[i]))
                    && is_reflection_pair(e, 3, 2) && lists_pairs(p, e, T::combine, r@),
    {
        let c = Group::<T>::cyclic(n);
        let p = c.pad(1);
        p.with_reflection_at(2)
    }

    /// The group of a step prism: each element `g` becomes `g ⊕ f(g)`, in
    /// twice the dimension. The caller vouches that `f` is a homomorphism.
    pub fn step_hom<F: Fn(&T) -> T>(self, f: F) -> (r: Group<T>)
        requires
            2 * self.dim_spec() <= usize::MAX,
            forall|i: int| 0 <= i < self@.len() ==> f.requires((&self@[i],)),
        ensures
            r.dim_spec() == 2 * self.dim_spec(),
            stepped(self@, f, r@),
    {
        let mut out: Vec<T> = Vec::new();
        let mut i: usize = 0;
        while i < self.elements.len()
            invariant
                i <= self@.len(),
                out@.len() == i,
                forall|k: int| 0 <= k < self@.len() ==> f.requires((&self@[k],)),
                forall|k: int| 0 <= k < i ==> #[trigger] step_of(self@[k], f, out@[k]),
            decreases self@.len() - i,
        {
            let m = &self.elements[i];
            let fm = f(m);
            let sum = m.direct_sum(&fm);
            proof {
                assert(step_of(self@[i as int], f, sum));
            }
            out.push(sum);
            i += 1;
        }
        Group { dim: 2 * self.dim, elements: out }
    }

    /// The reflection group of a Coxeter matrix with at least one node.
    fn coxeter(cox: &Cox) -> (r: Group<T>)
        requires
            cox.wf(),
            cox.rank_spec() >= 1,
        ensures
            r.dim_spec() == cox.rank_spec(),
            r@.len() >= 1,
            call_ensures(T::id, (cox.rank_spec() as usize,), r@[0]),
            exists|gens: Vec<T>|
                call_ensures(T::coxeter_reflections, (cox,), gens) && reached_from(r@, gens@)
                    && closed_under(r@, gens@),
            exists|keys: Seq<u64>| #[trigger] keys.len() == r@.len() && distinct_by(r@, keys),
    {
        let gens = T::coxeter_reflections(cox);
        Group::generated_by(cox.rank(), &gens)
    }

    /// Reads a Coxeter diagram and gives its reflection group: `Ok(None)`
    /// for a diagram without nodes, and the error of [`Cox::parse`] for text
    /// that is no diagram.
    pub fn parse(input: &str) -> (r: Result<Option<Group<T>>, CdError>)
        ensures
            match read_diagram(input@) {
                Err(e) => r == Err::<Option<Group<T>>, CdError>(e),
                Ok(None) => r is Ok && r->Ok_0 is None,
                Ok(Some(st)) => r is Ok && r->Ok_0 is Some && (exists|cox: Cox|
                    cox@ == diagram_matrix(st.nodes, st.edges) && is_coxeter_group(
                        r->Ok_0->0,
                        cox,
                    )),
            },
    {
        match Cox::parse(input) {
            Err(e) => Err(e),
            Ok(None) => Ok(None),
            Ok(Some(cox)) => {
                proof {
                    assert(cox.rank_spec() >= 1);
                }
                Ok(Some(Group::coxeter(&cox)))
            },
        }
    }

    /// Reads a Coxeter diagram that has at least one node and gives its
    /// reflection group.
    pub fn parse_unwrap(input: &str) -> (r: Group<T>)
        requires
            read_diagram(input@) matches Ok(Some(_)),
        ensures
            exists|cox: Cox|
                cox@ == diagram_matrix(
                    read_diagram(input@)->Ok_0->0.nodes,
                    read_diagram(input@)->Ok_0->0.edges,
                ) && is_coxeter_group(r, cox),
    {
        Group::parse(input).unwrap().unwrap()
    }

    /// A(n), the symmetry group of the `n`-simplex, of `n + 1` vertices.
    pub fn simplex(n: usize) -> (r: Group<T>)
        requires
            n >= 1,
        ensures
            exists|cox: Cox|
                cox@ == square_matrix(n as nat, |i: int, j: int| path_label(n as int, 3, None, i, j))
                    && is_coxeter_group(r, cox),
    {
        let cox = Cox::a(n);
        Group::coxeter(&cox)
    }

    /// B(n), the symmetry group of the `n`-cube and of the `n`-orthoplex.
    pub fn hypercube(n: usize) -> (r: Group<T>)
        requires
            n >= 1,
        ensures
            exists|cox: Cox|
                cox@ == square_matrix(n as nat, |i: int, j: int| path_label(n as int, 4, None, i, j))
                    && is_coxeter_group(r, cox),
    {
        let cox = Cox::b(n);
        Group::coxeter(&cox)
    }

    /// D(n), the symmetry group of the `n`-demicube.
    pub fn demihypercube(n: usize) -> (r: Group<T>)
        requires
            n >= 3,
        ensures
            exists|cox: Cox|
                cox@ == square_matrix(n as nat, |i: int, j: int| path_label(n as int, 3, Some(1), i, j))
                    && is_coxeter_group(r, cox),
    {
        let cox = Cox::d(n);
        Group::coxeter(&cox)
    }

    /// E(n), the symmetry group of the Gosset polytopes, for `4 <= n <= 8`.
    pub fn gosset(n: usize) -> (r: Group<T>)
        requires
            4 <= n <= 8,
        ensures
            exists|cox: Cox|
                cox@ == square_matrix(n as nat, |i: int, j: int| path_label(n as int, 3, Some(2), i, j))
                    && is_coxeter_group(r, cox),
    {
        let cox = Cox::e(n);
        Group::coxeter(&cox)
    }

    /// H(n), the pentagonal groups, for `2 <= n <= 4`: those of the pentagon,
    /// the dodecahedron and the 120-cell.
    pub fn pentagonal(n: usize) -> (r: Group<T>)
        requires
            2 <= n <= 4,
        ensures
            exists|cox: Cox|
                cox@ == square_matrix(n as nat, |i: int, j: int| path_label(n as int, 5, None, i, j))
                    && is_coxeter_group(r, cox),
    {
        let cox = Cox::h(n);
        Group::coxeter(&cox)
    }
}

/// Whether `g` is the group that the mirrors of `cox` generate: the
/// identity first, every other element a product of an earlier one and a
/// mirror, every such product among the elements, and no two elements the
/// same.
pub open spec fn is_coxeter_group<T: MatrixItem>(g: Group<T>, cox: Cox) -> bool {
    &&& cox.wf()
    &&& g.dim_spec() == cox.rank_spec()
    &&& g@.len() >= 1
    &&& call_ensures(T::id, (cox.rank_spec() as usize,), g@[0])
    &&& exists|gens: Vec<T>|
        call_ensures(T::coxeter_reflections, (&cox,), gens) && reached_from(g@, gens@) && closed_under(
            g@,
            gens@,
        )
    &&& exists|keys: Seq<u64>| #[trigger] keys.len() == g@.len() && distinct_by(g@, keys)
}

/// What the swirl construction gives over the first `k` pairs: for each
/// pair whose images agree, `-q` then `q`.
pub open spec fn swirl_seq<T>(keep: Seq<bool>, prods: Seq<T>, negs: Seq<T>, k: nat) -> Seq<T>
    decreases k,
{
    if k == 0 {
        Seq::empty()
    } else {
        let prev = swirl_seq(keep, prods, negs, (k - 1) as nat);
        if keep[k - 1] {
            prev.push(negs[k - 1]).push(prods[k - 1])
        } else {
            prev
        }
    }
}

/// Whether, for the pair `(a[i], b[j])` at position `k`, `keep[k]` tells
/// whether the images `ia[i]` and `ib[j]` agree, and if so `prods[k]` is the
/// swirl product and `negs[k]` its negative.
pub open spec fn swirl_pair_ok<T: MatrixItem, U: GroupItem>(
    a: Seq<T>,
    b: Seq<T>,
    ia: Seq<U>,
    ib: Seq<U>,
    keep: Seq<bool>,
    prods: Seq<T>,
    negs: Seq<T>,
    i: int,
    j: int,
) -> bool {
    let k = pair_pos(a.len() as int, i, j);
    &&& call_ensures(U::same, (&ia[i], &ib[j]), keep[k])
    &&& keep[k] ==> call_ensures(T::swirl_product, (&a[i], &b[j]), prods[k]) && call_ensures(
        T::negated,
        (&prods[k],),
        negs[k],
    )
}

/// The swirl construction with its intermediate values given.
pub open spec fn swirl_witness<T: MatrixItem, U: GroupItem, A: Fn(&T) -> U, B: Fn(&T) -> U>(
    a: Seq<T>,
    b: Seq<T>,
    alpha: A,
    beta: B,
    r: Seq<T>,
    ia: Seq<U>,
    ib: Seq<U>,
    keep: Seq<bool>,
    prods: Seq<T>,
    negs: Seq<T>,
) -> bool {
    &&& ia.len() == a.len()
    &&& ib.len() == b.len()
    &&& forall|i: int| 0 <= i < a.len() ==> call_ensures(alpha, (&a[i],), #[trigger] ia[i])
    &&& forall|j: int| 0 <= j < b.len() ==> call_ensures(beta, (&b[j],), #[trigger] ib[j])
    &&& keep.len() == a.len() * b.len()
    &&& prods.len() == keep.len()
    &&& negs.len() == keep.len()
    &&& forall|i: int, j: int|
        0 <= i < a.len() && 0 <= j < b.len() ==> #[trigger] swirl_pair_ok(
            a,
            b,
            ia,
            ib,
            keep,
            prods,
            negs,
            i,
            j,
        )
    &&& r == swirl_seq(keep, prods, negs, keep.len())
}

/// Whether `r` is the swirl construction of `a` and `b` through `alpha` and
/// `beta`: for each pair `(a[i], b[j])` in the order of
/// [`crate::pairs::into_pairs`] whose images `alpha(a[i])` and `beta(b[j])`
/// are the same, the two elements `-q` and `q`, where `q` is their swirl
/// product.
pub open spec fn swirled<T: MatrixItem, U: GroupItem, A: Fn(&T) -> U, B: Fn(&T) -> U>(
    a: Seq<T>,
    b: Seq<T>,
    alpha: A,
    beta: B,
    r: Seq<T>,
) -> bool {
    exists|ia: Seq<U>, ib: Seq<U>, keep: Seq<bool>, prods: Seq<T>, negs: Seq<T>|
        #[trigger] swirl_witness(a, b, alpha, beta, r, ia, ib, keep, prods, negs)
}

impl<T: MatrixItem> Group<T> {
    /// The swirl (diploid) construction of a group of rotations of 4-space
    /// from two groups of rotations of 3-space, as in Conway and Smith's "On
    /// Quaternions and Octonions". Only the pairs whose images under the
    /// homomorphisms `alpha` and `beta` agree take part. The caller vouches
    /// that both groups are rotation groups and both maps homomorphisms into
    /// a common group.
    pub fn swirl_hom<U: GroupItem, A: Fn(&T) -> U, B: Fn(&T) -> U>(
        self,
        g: Group<T>,
        alpha: A,
        beta: B,
    ) -> (r: Group<T>)
        requires
            self.dim_spec() == 3,
            g.dim_spec() == 3,
            2 * self@.len() * g@.len() <= usize::MAX,
            forall|i: int| 0 <= i < self@.len() ==> alpha.requires((&self@[i],)),
            forall|j: int| 0 <= j < g@.len() ==> beta.requires((&g@[j],)),
        ensures
            r.dim_spec() == 4,
            swirled(self@, g@, alpha, beta, r@),
    {
        let a = &self.elements;
        let b = &g.elements;
        let na = a.len();
        let nb = b.len();
        let mut ia: Vec<U> = Vec::new();
        let mut i: usize = 0;
        while i < na
            invariant
                na == a@.len(),
                i <= na,
                ia@.len() == i,
                forall|k: int| 0 <= k < a@.len() ==> alpha.requires((&a@[k],)),
                forall|k: int| 0 <= k < i ==> call_ensures(alpha, (&a@[k],), #[trigger] ia@[k]),
            decreases na - i,
        {
            ia.push(alpha(&a[i]));
            i += 1;
        }
        let mut ib: Vec<U> = Vec::new();
        let mut j: usize = 0;
        while j < nb
            invariant
                nb == b@.len(),
                j <= nb,
                ib@.len() == j,
                forall|k: int| 0 <= k < b@.len() ==> beta.requires((&b@[k],)),
                forall|k: int| 0 <= k < j ==> call_ensures(beta, (&b@[k],), #[trigger] ib@[k]),
            decreases nb - j,
        {
            ib.push(beta(&b[j]));
            j += 1;
        }
        let mut out: Vec<T> = Vec::new();
        let ghost mut keep: Seq<bool> = Seq::empty();
        let ghost mut prods: Seq<T> = Seq::empty();
        let ghost mut negs: Seq<T> = Seq::empty();
        proof {
            assert(2 * na * nb == 2 * (na * nb)) by (nonlinear_arith);
        }
        let mut j: usize = 0;
        while j < nb
            invariant
                na == a@.len(),
                nb == b@.len(),
                ia@.len() == na,
                ib@.len() == nb,
                2 * (na * nb) <= usize::MAX,
                j <= nb,
                keep.len() == j * na,
                prods.len() == keep.len(),
                negs.len() == keep.len(),
                out@ == swirl_seq(keep, prods, negs, keep.len()),
                out@.len() <= 2 * keep.len(),
                forall|i2: int, j2: int|
                    0 <= i2 < na && 0 <= j2 < j ==> #[trigger] swirl_pair_ok(
                        a@,
                        b@,
                        ia@,
                        ib@,
                        keep,
                        prods,
                        negs,
                        i2,
                        j2,
                    ),
            decreases nb - j,
        {
            let mut i: usize = 0;
            while i < na
                invariant
                    na == a@.len(),
                    nb == b@.len(),
                    ia@.len() == na,
                    ib@.len() == nb,
                    2 * (na * nb) <= usize::MAX,
                    j < nb,
                    i <= na,
                    keep.len() == j * na + i,
                    prods.len() == keep.len(),
                    negs.len() == keep.len(),
                    out@ == swirl_seq(keep, prods, negs, keep.len()),
                    out@.len() <= 2 * keep.len(),
                    forall|i2: int, j2: int|
                        (0 <= i2 < na && 0 <= j2 < j || 0 <= i2 < i && j2 == j) ==> #[trigger] swirl_pair_ok(
                            a@,
                            b@,
                            ia@,
                            ib@,
                            keep,
                            prods,
                            negs,
                            i2,
                            j2,
                        ),
                decreases na - i,
            {
                proof {
                    crate::pairs::lemma_pair_pos(na as int, nb as int, i as int, j as int);
                    assert forall|i2: int, j2: int| 0 <= i2 < na && 0 <= j2 < j || 0 <= i2 < i && j2 == j implies pair_pos(
                        na as int,
                        i2,
                        j2,
                    ) < keep.len() by {
                        if j2 < j {
                            crate::pairs::lemma_pair_pos(na as int, j as int, i2, j2);
                            assert(na * j == j * na) by (nonlinear_arith);
                        } else {
                            assert(pair_pos(na as int, i2, j2) == j2 * na + i2);
                        }
                    }
                }
                let ghost old_keep = keep;
                let ghost old_prods = prods;
                let ghost old_negs = negs;
                let same = ia[i].same(&ib[j]);
                if same {
                    let q = a[i].swirl_product(&b[j]);
                    let mq = q.negated();
                    proof {
                        keep = keep.push(true);
                        prods = prods.push(q);
                        negs = negs.push(mq);
                    }
                    out.push(mq);
                    out.push(q);
                } else {
                    proof {
                        keep = keep.push(false);
                        prods = prods.push(a@[i as int]);
                        negs = negs.push(a@[i as int]);
                    }
                }
                proof {
                    let k = keep.len() - 1;
                    lemma_swirl_seq_push(
                        old_keep,
                        old_prods,
                        old_negs,
                        keep[k],
                        prods[k],
                        negs[k],
                        k as nat,
                    );
                    assert(keep == old_keep.push(keep[k]));
                    assert(prods == old_prods.push(prods[k]));
                    assert(negs == old_negs.push(negs[k]));
                    assert forall|i2: int, j2: int|
                        (0 <= i2 < na && 0 <= j2 < j || 0 <= i2 < i + 1 && j2 == j) implies #[trigger] swirl_pair_ok(
                            a@,
                            b@,
                            ia@,
                            ib@,
                            keep,
                            prods,
                            negs,
                            i2,
                            j2,
                        ) by {
                        if i2 == i && j2 == j {
                        } else {
                            assert(swirl_pair_ok(a@, b@, ia@, ib@, old_keep, old_prods, old_negs, i2, j2));
                        }
                    }
                }
                i += 1;
            }
            proof {
                assert((j + 1) * na == j * na + na) by (nonlinear_arith);
            }
            j += 1;
        }
        proof {
            assert(nb * na == na * nb) by (nonlinear_arith);
            assert(swirl_witness(a@, b@, alpha, beta, out@, ia@, ib@, keep, prods, negs));
        }
        Group { dim: 4, elements: out }
    }
}

/// Appending to the lists leaves `swirl_seq` over the first `k` pairs as it
/// was.
proof fn lemma_swirl_seq_push<T>(
    keep: Seq<bool>,
    prods: Seq<T>,
    negs: Seq<T>,
    b: bool,
    p: T,
    n: T,
    k: nat,
)
    requires
        k <= keep.len(),
        k <= prods.len(),
        k <= negs.len(),
    ensures
        swirl_seq(keep.push(b), prods.push(p), negs.push(n), k) == swirl_seq(keep, prods, negs, k),
    decreases k,
{
    if k > 0 {
        lemma_swirl_seq_push(keep, prods, negs, b, p, n, (k - 1) as nat);
        assert(keep.push(b)[k - 1] == keep[k - 1]);
        assert(prods.push(p)[k - 1] == prods[k - 1]);
        assert(negs.push(n)[k - 1] == negs[k - 1]);
    }
}

/// Whether `r` is the swirl construction of `a` and `b` over all pairs:
/// for the pair `(a[i], b[j])` at position `k`, `r[2k + 1]` is their swirl
/// product and `r[2k]` its negative.
pub open spec fn swirled_all<T: MatrixItem>(a: Seq<T>, b: Seq<T>, r: Seq<T>) -> bool {
    &&& r.len() == 2 * (a.len() * b.len())
    &&& forall|i: int, j: int|
        0 <= i < a.len() && 0 <= j < b.len() ==> #[trigger] call_ensures(
            T::swirl_product,
            (&a[i], &b[j]),
            r[2 * pair_pos(a.len() as int, i, j) + 1],
        ) && call_ensures(
            T::negated,
            (&r[2 * pair_pos(a.len() as int, i, j) + 1],),
            r[2 * pair_pos(a.len() as int, i, j)],
        )
}

proof fn lemma_swirl_seq_all<T>(keep: Seq<bool>, prods: Seq<T>, negs: Seq<T>, k: nat)
    requires
        k <= keep.len(),
        k <= prods.len(),
        k <= negs.len(),
        forall|t: int| 0 <= t < k ==> keep[t],
    ensures
        swirl_seq(keep, prods, negs, k).len() == 2 * k,
        forall|t: int|
            0 <= t < k ==> swirl_seq(keep, prods, negs, k)[2 * t] == negs[t] && swirl_seq(
                keep,
                prods,
                negs,
                k,
            )[2 * t + 1] == prods[t],
    decreases k,
{
    if k > 0 {
        lemma_swirl_seq_all(keep, prods, negs, (k - 1) as nat);
    }
}

impl<T: MatrixItem> Group<T> {
    /// The swirl (diploid) construction over all pairs of elements: for
    /// each pair, the rotations `-q` and `q` of 4-space, where `q` is their
    /// swirl product. The caller vouches that both groups are rotation
    /// groups.
    pub fn swirl(self, g: Group<T>) -> (r: Group<T>)
        requires
            self.dim_spec() == 3,
            g.dim_spec() == 3,
            2 * self@.len() * g@.len() <= usize::MAX,
        ensures
            r.dim_spec() == 4,
            swirled_all(self@, g@, r@),
    {
        let ghost a = self@;
        let ghost b = g@;
        let to_unit_a = |m: &T| ();
        let to_unit_b = |m: &T| ();
        let r = self.swirl_hom(g, to_unit_a, to_unit_b);
        proof {
            let (ia, ib, keep, prods, negs) = choose|
                ia: Seq<()>,
                ib: Seq<()>,
                keep: Seq<bool>,
                prods: Seq<T>,
                negs: Seq<T>,
            | #[trigger] swirl_witness(a, b, to_unit_a, to_unit_b, r@, ia, ib, keep, prods, negs);
            let na = a.len() as int;
            let nb = b.len() as int;
            assert forall|t: int| 0 <= t < keep.len() implies keep[t] by {
                if na == 0 {
                    assert(na * nb == 0);
                } else {
                    crate::pairs::lemma_pos_pair(na, nb, t);
                    assert(swirl_pair_ok(a, b, ia, ib, keep, prods, negs, t % na, t / na));
                }
            }
            lemma_swirl_seq_all(keep, prods, negs, keep.len());
            assert forall|i: int, j: int| 0 <= i < na && 0 <= j < nb implies #[trigger] call_ensures(
                T::swirl_product,
                (&a[i], &b[j]),
                r@[2 * pair_pos(na, i, j) + 1],
            ) && call_ensures(
                T::negated,
                (&r@[2 * pair_pos(na, i, j) + 1],),
                r@[2 * pair_pos(na, i, j)],
            ) by {
                crate::pairs::lemma_pair_pos(na, nb, i, j);
                assert(swirl_pair_ok(a, b, ia, ib, keep, prods, negs, i, j));
            }
        }
        r
    }
}

/// Whether `x` was found the same as some element of `r`.
pub open spec fn found_in<T: GroupItem>(x: T, r: Seq<T>) -> bool {
    exists|k: int| 0 <= k < r.len() && #[trigger] call_ensures(T::same, (&x, &r[k]), true)
}

/// Whether `x` was found different from every element of `r`.
pub open spec fn missing_from<T: GroupItem>(x: T, r: Seq<T>) -> bool {
    forall|k: int| 0 <= k < r.len() ==> #[trigger] call_ensures(T::same, (&x, &r[k]), false)
}

/// Whether some product `a * b` was found among `r`.
pub open spec fn product_found<T: GroupItem>(a: T, b: T, r: Seq<T>) -> bool {
    exists|x: T| #[trigger] call_ensures(T::combine, (&a, &b), x) && found_in(x, r)
}

/// Whether some product `a * b` was found different from every element of
/// `r`.
pub open spec fn product_missing<T: GroupItem>(a: T, b: T, r: Seq<T>) -> bool {
    exists|x: T| #[trigger] call_ensures(T::combine, (&a, &b), x) && missing_from(x, r)
}

/// Whether some product `a * b` was found the same as `e`.
pub open spec fn product_is<T: GroupItem>(a: T, b: T, e: T) -> bool {
    exists|x: T| #[trigger] call_ensures(T::combine, (&a, &b), x) && call_ensures(T::same, (&x, &e), true)
}

/// Whether some product `a * b` was found different from `e`.
pub open spec fn product_is_not<T: GroupItem>(a: T, b: T, e: T) -> bool {
    exists|x: T| #[trigger] call_ensures(T::combine, (&a, &b), x) && call_ensures(T::same, (&x, &e), false)
}

/// Whether some product `r[i] * r[j]` was found the same as `e`.
pub open spec fn has_inverse_in<T: GroupItem>(r: Seq<T>, i: int, e: T) -> bool {
    exists|j: int| 0 <= j < r.len() && #[trigger] product_is(r[i], r[j], e)
}

/// Whether every product `r[i] * r[j]` was found different from `e`.
pub open spec fn lacks_inverse_in<T: GroupItem>(r: Seq<T>, i: int, e: T) -> bool {
    forall|j: int| 0 <= j < r.len() ==> #[trigger] product_is_not(r[i], r[j], e)
}

impl<T: GroupItem> Group<T> {
    /// Whether `x` is the same as one of the elements.
    pub fn contains(&self, x: &T) -> (r: bool)
        ensures
            r ==> found_in(*x, self@),
            !r ==> missing_from(*x, self@),
    {
        let mut k: usize = 0;
        while k < self.elements.len()
            invariant
                k <= self@.len(),
                forall|j: int| 0 <= j < k ==> #[trigger] call_ensures(T::same, (x, &self@[j]), false),
            decreases self@.len() - k,
        {
            if x.same(&self.elements[k]) {
                return true;
            }
            k += 1;
        }
        false
    }

    /// Checks closure, one of the group axioms that the constructors take on
    /// trust: whether every product of two elements is the same as one of
    /// them. Takes a time cubic in the order; meant for tests.
    pub fn is_closed(&self) -> (r: bool)
        ensures
            r ==> forall|i: int, j: int|
                0 <= i < self@.len() && 0 <= j < self@.len() ==> #[trigger] product_found(
                    self@[i],
                    self@[j],
                    self@,
                ),
            !r ==> exists|i: int, j: int|
                0 <= i < self@.len() && 0 <= j < self@.len() && #[trigger] product_missing(
                    self@[i],
                    self@[j],
                    self@,
                ),
    {
        let n = self.elements.len();
        let mut i: usize = 0;
        while i < n
            invariant
                n == self@.len(),
                i <= n,
                forall|i2: int, j: int|
                    0 <= i2 < i && 0 <= j < n ==> #[trigger] product_found(self@[i2], self@[j], self@),
            decreases n - i,
        {
            let mut j: usize = 0;
            while j < n
                invariant
                    n == self@.len(),
                    i < n,
                    j <= n,
                    forall|i2: int, j2: int|
                        (0 <= i2 < i && 0 <= j2 < n || i2 == i && 0 <= j2 < j) ==> #[trigger] product_found(
                            self@[i2],
                            self@[j2],
                            self@,
                        ),
                decreases n - j,
            {
                let x = self.elements[i].combine(&self.elements[j]);
                if !self.contains(&x) {
                    proof {
                        assert(product_missing(self@[i as int], self@[j as int], self@));
                    }
                    return false;
                }
                proof {
                    assert(product_found(self@[i as int], self@[j as int], self@));
                }
                j += 1;
            }
            i += 1;
        }
        true
    }

    /// Checks the identity and inverse axioms that the constructors take on
    /// trust: whether, for the identity of dimension `dim`, every element
    /// has some element whose product with it is the same as the identity.
    /// Takes a time quadratic in the order; meant for tests.
    pub fn has_inverses(&self, dim: usize) -> (r: bool)
        ensures
            r ==> exists|e: T|
                call_ensures(T::id, (dim,), e) && forall|i: int|
                    0 <= i < self@.len() ==> #[trigger] has_inverse_in(self@, i, e),
            !r ==> exists|e: T, i: int|
                call_ensures(T::id, (dim,), e) && 0 <= i < self@.len() && #[trigger] lacks_inverse_in(
                    self@,
                    i,
                    e,
                ),
    {
        let e = T::id(dim);
        let n = self.elements.len();
        let mut i: usize = 0;
        while i < n
            invariant
                n == self@.len(),
                i <= n,
                call_ensures(T::id, (dim,), e),
                forall|i2: int| 0 <= i2 < i ==> #[trigger] has_inverse_in(self@, i2, e),
            decreases n - i,
        {
            let mut found = false;
            let mut j: usize = 0;
            while j < n && !found
                invariant
                    n == self@.len(),
                    i < n,
                    j <= n,
                    found ==> has_inverse_in(self@, i as int, e),
                    !found ==> forall|j2: int|
                        0 <= j2 < j ==> #[trigger] product_is_not(self@[i as int], self@[j2], e),
                decreases n - j,
            {
                let x = self.elements[i].combine(&self.elements[j]);
                if x.same(&e) {
                    found = true;
                    proof {
                        assert(product_is(self@[i as int], self@[j as int], e));
                    }
                } else {
                    proof {
                        assert(product_is_not(self@[i as int], self@[j as int], e));
                    }
                }
                j += 1;
            }
            if !found {
                proof {
                    assert(lacks_inverse_in(self@, i as int, e));
                }
                return false;
            }
            i += 1;
        }
        true
    }
}

} // verus!
