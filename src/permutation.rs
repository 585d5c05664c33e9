//! Permutations of `{0, ..., n - 1}`, and the list of all of them.

use vstd::prelude::*;

verus! {

/// Whether `s` lists each of `0, ..., s.len() - 1` exactly once.
pub open spec fn is_permutation(s: Seq<usize>) -> bool {
    &&& forall|i: int| 0 <= i < s.len() ==> #[trigger] s[i] < s.len()
    &&& forall|i: int, j: int| 0 <= i < s.len() && 0 <= j < s.len() && i != j ==> s[i] != s[j]
}

/// A permutation of `{0, ..., n - 1}`: it sends `i` to `map[i]`.
#[derive(Clone, Debug)]
pub struct Permutation {
    map: Vec<usize>,
}

impl View for Permutation {
    type V = Seq<usize>;

    closed spec fn view(&self) -> Seq<usize> {
        self.map@
    }
}

/// `p` as a map of all natural numbers: past its length it fixes every point.
pub open spec fn apply(p: Seq<usize>, i: int) -> int {
    if 0 <= i < p.len() {
        p[i] as int
    } else {
        i
    }
}

/// The composition `p ∘ q`, first `q`, then `p`, on the longer of the two
/// domains.
pub open spec fn compose_spec(p: Seq<usize>, q: Seq<usize>) -> Seq<usize> {
    let n = if p.len() >= q.len() {
        p.len()
    } else {
        q.len()
    };
    Seq::new(n, |i: int| apply(p, apply(q, i)) as usize)
}

impl Permutation {
    /// The permutation that sends `i` to `map[i]`.
    pub fn new(map: Vec<usize>) -> (r: Permutation)
        requires
            is_permutation(map@),
        ensures
            r@ == map@,
    {
        Permutation { map }
    }

    /// The identity of `{0, ..., n - 1}`.
    pub fn identity(n: usize) -> (r: Permutation)
        ensures
            r@ == Seq::new(n as nat, |i: int| i as usize),
    {
        let mut map: Vec<usize> = Vec::new();
        let mut i: usize = 0;
        while i < n
            invariant
                i <= n,
                map@ == Seq::new(i as nat, |k: int| k as usize),
            decreases n - i,
        {
            map.push(i);
            i += 1;
            proof {
                assert(map@ =~= Seq::new(i as nat, |k: int| k as usize));
            }
        }
        Permutation { map }
    }

    /// Where `i` is sent.
    pub fn get(&self, i: usize) -> (r: usize)
        ensures
            r == apply(self@, i as int),
    {
        if i < self.map.len() {
            self.map[i]
        } else {
            i
        }
    }

    /// The size of the domain.
    pub fn len(&self) -> (r: usize)
        ensures
            r == self@.len(),
    {
        self.map.len()
    }

    /// The images of `0, 1, ...` in order.
    pub fn as_vec(&self) -> (r: &Vec<usize>)
        ensures
            r@ == self@,
    {
        &self.map
    }

    /// First `other`, then `self`.
    pub fn compose(&self, other: &Permutation) -> (r: Permutation)
        ensures
            r@ == compose_spec(self@, other@),
    {
        let n = if self.map.len() >= other.map.len() {
            self.map.len()
        } else {
            other.map.len()
        };
        let mut map: Vec<usize> = Vec::new();
        let mut i: usize = 0;
        while i < n
            invariant
                i <= n,
                n == compose_spec(self@, other@).len(),
                map@ == compose_spec(self@, other@).subrange(0, i as int),
            decreases n - i,
        {
            let x = other.get(i);
            map.push(self.get(x));
            i += 1;
            proof {
                assert(map@ =~= compose_spec(self@, other@).subrange(0, i as int));
            }
        }
        proof {
            assert(map@ =~= compose_spec(self@, other@));
        }
        Permutation { map }
    }

    /// Whether both send every point to the same place within the same
    /// domain.
    pub fn equals(&self, other: &Permutation) -> (r: bool)
        ensures
            r == (self@ == other@),
    {
        if self.map.len() != other.map.len() {
            return false;
        }
        let mut i: usize = 0;
        while i < self.map.len()
            invariant
                self@.len() == other@.len(),
                i <= self@.len(),
                forall|k: int| 0 <= k < i ==> self@[k] == other@[k],
            decreases self@.len() - i,
        {
            if self.map[i] != other.map[i] {
                return false;
            }
            i += 1;
        }
        proof {
            assert(self@ =~= other@);
        }
        true
    }
}

/// `p` with `x` inserted at position `pos`.
pub open spec fn insert_at(p: Seq<usize>, pos: int, x: usize) -> Seq<usize> {
    p.subrange(0, pos).push(x) + p.subrange(pos, p.len() as int)
}

pub open spec fn factorial(n: nat) -> nat
    decreases n,
{
    if n == 0 {
        1
    } else {
        n * factorial((n - 1) as nat)
    }
}

/// All permutations of `{0, ..., n - 1}`: those of `n - 1` points, each with
/// `n - 1` inserted at every position in turn.
pub open spec fn all_permutations_spec(n: nat) -> Seq<Seq<usize>>
    decreases n,
{
    if n == 0 {
        seq![Seq::empty()]
    } else {
        let prev = all_permutations_spec((n - 1) as nat);
        Seq::new(
            prev.len() * n,
            |k: int| insert_at(prev[k / (n as int)], k % (n as int), (n - 1) as usize),
        )
    }
}

proof fn lemma_insert_permutation(p: Seq<usize>, pos: int)
    requires
        is_permutation(p),
        0 <= pos <= p.len(),
        p.len() < usize::MAX,
    ensures
        is_permutation(insert_at(p, pos, p.len() as usize)),
        insert_at(p, pos, p.len() as usize).len() == p.len() + 1,
{
    let q = insert_at(p, pos, p.len() as usize);
    assert forall|i: int| 0 <= i < q.len() implies #[trigger] q[i] < q.len() by {
        if i < pos {
            assert(q[i] == p[i]);
        } else if i > pos {
            assert(q[i] == p[i - 1]);
        }
    }
    assert forall|i: int, j: int| 0 <= i < q.len() && 0 <= j < q.len() && i != j implies q[i] != q[j] by {
        let pi = if i < pos { i } else { i - 1 };
        let pj = if j < pos { j } else { j - 1 };
        if i != pos {
            assert(q[i] == p[pi]);
            assert(q[i] < p.len());
        } else {
            assert(q[i] == p.len());
        }
        if j != pos {
            assert(q[j] == p[pj]);
            assert(q[j] < p.len());
        } else {
            assert(q[j] == p.len());
        }
        if i != pos && j != pos {
            assert(pi != pj);
        }
    }
}

/// Inserting the largest point tells where it went and what was there before.
proof fn lemma_insert_unique(p1: Seq<usize>, p2: Seq<usize>, pos1: int, pos2: int)
    requires
        is_permutation(p1),
        is_permutation(p2),
        p1.len() == p2.len(),
        p1.len() < usize::MAX,
        0 <= pos1 <= p1.len(),
        0 <= pos2 <= p2.len(),
        insert_at(p1, pos1, p1.len() as usize) == insert_at(p2, pos2, p2.len() as usize),
    ensures
        pos1 == pos2,
        p1 == p2,
{
    let m = p1.len();
    let q = insert_at(p1, pos1, m as usize);
    assert(q[pos1] == m as usize);
    if pos1 != pos2 {
        if pos1 < pos2 {
            assert(q[pos1] == p2[pos1]);
        } else {
            assert(q[pos1] == p2[pos1 - 1]);
        }
    }
    assert forall|i: int| 0 <= i < m implies p1[i] == p2[i] by {
        if i < pos1 {
            assert(q[i] == p1[i]);
        } else {
            assert(q[i + 1] == p1[i]);
        }
    }
    assert(p1 =~= p2);
}

proof fn lemma_all_permutations(n: nat)
    requires
        n <= usize::MAX,
    ensures
        all_permutations_spec(n).len() == factorial(n),
        forall|k: int|
            0 <= k < all_permutations_spec(n).len() ==> #[trigger] all_permutations_spec(n)[k].len()
                == n && is_permutation(all_permutations_spec(n)[k]),
        forall|j: int, k: int|
            0 <= j < all_permutations_spec(n).len() && 0 <= k < all_permutations_spec(n).len() && j
                != k ==> all_permutations_spec(n)[j] != all_permutations_spec(n)[k],
    decreases n,
{
    if n > 0 {
        let m = (n - 1) as nat;
        lemma_all_permutations(m);
        let prev = all_permutations_spec(m);
        assert(prev.len() * n == n * factorial(m)) by (nonlinear_arith)
            requires
                prev.len() == factorial(m),
        ;
        assert forall|k: int| 0 <= k < all_permutations_spec(n).len() implies #[trigger] all_permutations_spec(
            n,
        )[k].len() == n && is_permutation(all_permutations_spec(n)[k]) by {
            crate::pairs::lemma_pos_pair(n as int, prev.len() as int, k);
            assert(prev.len() * n == n * prev.len()) by (nonlinear_arith);
            lemma_insert_permutation(prev[k / (n as int)], k % (n as int));
        }
        let all = all_permutations_spec(n);
        assert forall|j: int, k: int| 0 <= j < all.len() && 0 <= k < all.len() && j != k implies all[j]
            != all[k] by {
            crate::pairs::lemma_pos_pair(n as int, prev.len() as int, j);
            crate::pairs::lemma_pos_pair(n as int, prev.len() as int, k);
            assert(prev.len() * n == n * prev.len()) by (nonlinear_arith);
            if all[j] == all[k] {
                lemma_insert_unique(prev[j / (n as int)], prev[k / (n as int)], j % (n as int), k % (n as int));
            }
        }
    }
}

/// Lists all `n!` permutations of `{0, ..., n - 1}`.
pub fn all_permutations(n: usize) -> (r: Vec<Permutation>)
    requires
        factorial(n as nat) <= usize::MAX,
    ensures
        r@.len() == factorial(n as nat),
        forall|k: int| 0 <= k < r@.len() ==> (#[trigger] r@[k])@ == all_permutations_spec(n as nat)[k],
        forall|k: int| 0 <= k < r@.len() ==> is_permutation((#[trigger] r@[k])@) && r@[k]@.len() == n,
        forall|j: int, k: int| 0 <= j < r@.len() && 0 <= k < r@.len() && j != k ==> r@[j]@ != r@[k]@,
{
    let mut cur: Vec<Vec<usize>> = Vec::new();
    cur.push(Vec::new());
    proof {
        assert(cur@[0]@ =~= Seq::<usize>::empty());
        lemma_factorial_monotone(0, n as nat);
    }
    let mut m: usize = 0;
    while m < n
        invariant
            m <= n,
            factorial(n as nat) <= usize::MAX,
            factorial(m as nat) <= factorial(n as nat),
            cur@.len() == all_permutations_spec(m as nat).len(),
            forall|k: int| 0 <= k < cur@.len() ==> (#[trigger] cur@[k])@ == all_permutations_spec(m as nat)[k],
        decreases n - m,
    {
        proof {
            lemma_all_permutations(m as nat);
            lemma_factorial_monotone((m + 1) as nat, n as nat);
        }
        let ghost prev = all_permutations_spec(m as nat);
        let ghost next = all_permutations_spec((m + 1) as nat);
        let w = m + 1;
        proof {
            assert(prev.len() * w == factorial(w as nat)) by (nonlinear_arith)
                requires
                    prev.len() == factorial(m as nat),
                    w == m + 1,
                    factorial(w as nat) == w * factorial(m as nat),
            ;
        }
        let mut nxt: Vec<Vec<usize>> = Vec::new();
        let mut a: usize = 0;
        while a < cur.len()
            invariant
                w == m + 1,
                prev == all_permutations_spec(m as nat),
                next == all_permutations_spec(w as nat),
                prev.len() == factorial(m as nat),
                cur@.len() * w <= usize::MAX,
                cur@.len() == prev.len(),
                forall|k: int| 0 <= k < cur@.len() ==> (#[trigger] cur@[k])@ == prev[k],
                forall|k: int| 0 <= k < prev.len() ==> (#[trigger] prev[k]).len() == m,
                a <= cur@.len(),
                nxt@.len() == a * w,
                forall|k: int| 0 <= k < nxt@.len() ==> (#[trigger] nxt@[k])@ == next[k],
            decreases cur@.len() - a,
        {
            let mut pos: usize = 0;
            while pos < w
                invariant
                    w == m + 1,
                    prev == all_permutations_spec(m as nat),
                    next == all_permutations_spec(w as nat),
                    cur@.len() * w <= usize::MAX,
                    cur@.len() == prev.len(),
                    forall|k: int| 0 <= k < cur@.len() ==> (#[trigger] cur@[k])@ == prev[k],
                    forall|k: int| 0 <= k < prev.len() ==> (#[trigger] prev[k]).len() == m,
                    a < cur@.len(),
                    pos <= w,
                    nxt@.len() == a * w + pos,
                    forall|k: int| 0 <= k < nxt@.len() ==> (#[trigger] nxt@[k])@ == next[k],
                decreases w - pos,
            {
                let base = &cur[a];
                proof {
                    assert(base@ == prev[a as int]);
                    assert(base@.len() == m);
                }
                let mut q: Vec<usize> = Vec::new();
                let mut t: usize = 0;
                while t < pos
                    invariant
                        t <= pos < w,
                        w == m + 1,
                        base@.len() == m,
                        q@ == base@.subrange(0, t as int),
                    decreases pos - t,
                {
                    q.push(base[t]);
                    t += 1;
                    proof {
                        assert(q@ =~= base@.subrange(0, t as int));
                    }
                }
                q.push(m);
                let mut t: usize = pos;
                while t < m
                    invariant
                        pos <= t <= m,
                        w == m + 1,
                        base@.len() == m,
                        q@ == base@.subrange(0, pos as int).push(m) + base@.subrange(pos as int, t as int),
                    decreases m - t,
                {
                    q.push(base[t]);
                    t += 1;
                    proof {
                        assert(q@ =~= base@.subrange(0, pos as int).push(m) + base@.subrange(
                            pos as int,
                            t as int,
                        ));
                    }
                }
                proof {
                    crate::pairs::lemma_pair_pos(w as int, cur@.len() as int, pos as int, a as int);
                    assert(q@ =~= insert_at(prev[a as int], pos as int, m));
                    assert(q@ == next[(a * w + pos) as int]);
                }
                nxt.push(q);
                pos += 1;
            }
            proof {
                assert((a + 1) * w == a * w + w) by (nonlinear_arith);
            }
            a += 1;
        }
        proof {
            assert(prev.len() * w == factorial(w as nat)) by (nonlinear_arith)
                requires
                    prev.len() == factorial(m as nat),
                    w == m + 1,
                    factorial(w as nat) == w * factorial(m as nat),
            ;
        }
        cur = nxt;
        m += 1;
    }
    proof {
        lemma_all_permutations(n as nat);
    }
    let mut r: Vec<Permutation> = Vec::new();
    let mut k: usize = 0;
    while k < cur.len()
        invariant
            k <= cur@.len(),
            cur@.len() == all_permutations_spec(n as nat).len(),
            forall|j: int| 0 <= j < cur@.len() ==> (#[trigger] cur@[j])@ == all_permutations_spec(n as nat)[j],
            r@.len() == k,
            forall|j: int| 0 <= j < k ==> (#[trigger] r@[j])@ == all_permutations_spec(n as nat)[j],
        decreases cur@.len() - k,
    {
        r.push(Permutation { map: cur[k].clone() });
        k += 1;
    }
    r
}

proof fn lemma_factorial_monotone(a: nat, b: nat)
    requires
        a <= b,
    ensures
        factorial(a) <= factorial(b),
        1 <= factorial(a),
    decreases b,
{
    if a < b {
        lemma_factorial_monotone(a, (b - 1) as nat);
        assert(factorial((b - 1) as nat) <= b * factorial((b - 1) as nat)) by (nonlinear_arith)
            requires
                b >= 1,
        ;
    } else if a > 0 {
        lemma_factorial_monotone((a - 1) as nat, (a - 1) as nat);
        assert(1 <= a * factorial((a - 1) as nat)) by (nonlinear_arith)
            requires
                a >= 1,
                1 <= factorial((a - 1) as nat),
        ;
    }
}

} // verus!
