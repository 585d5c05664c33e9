//! The combinatorial structure of a few basic polytopes.
//!
//! A [`Polytope`] here is abstract: it records how many vertices there are
//! and, for every rank above the vertices, which elements of the rank below
//! each element is made of. Vertex positions are a matter of the caller.

use vstd::prelude::*;

verus! {

/// An abstract polytope: a vertex count plus, for each rank from the edges
/// up, the list of its elements, each given by the indices of its
/// subelements of the previous rank.
pub struct Polytope {
    pub vertex_count: usize,
    pub elements: Vec<Vec<Vec<usize>>>,
}

/// The elements of every rank above the vertices, as nested sequences.
pub open spec fn elements_view(elements: Seq<Vec<Vec<usize>>>) -> Seq<Seq<Seq<usize>>> {
    Seq::new(elements.len(), |r: int| Seq::new(elements[r]@.len(), |i: int| elements[r]@[i]@))
}

impl Polytope {
    pub open spec fn view_elements(&self) -> Seq<Seq<Seq<usize>>> {
        elements_view(self.elements@)
    }

    /// The number of elements of rank `r`, the vertices being of rank 0.
    pub open spec fn count_of_rank(&self, r: int) -> nat {
        if r == 0 {
            self.vertex_count as nat
        } else {
            self.view_elements()[r - 1].len()
        }
    }

    /// Whether every element lists only subelements that exist.
    pub open spec fn wf(&self) -> bool {
        forall|r: int, e: int, t: int|
            0 <= r < self.view_elements().len() && 0 <= e < self.view_elements()[r].len() && 0 <= t
                < self.view_elements()[r][e].len() ==> #[trigger] self.view_elements()[r][e][t]
                < self.count_of_rank(r)
    }

    /// Builds a polytope from its vertex count and its elements.
    pub fn new(vertex_count: usize, elements: Vec<Vec<Vec<usize>>>) -> (r: Polytope)
        ensures
            r.vertex_count == vertex_count,
            r.elements == elements,
    {
        Polytope { vertex_count, elements }
    }

    /// The number of elements of each rank, from the vertices up.
    pub fn el_counts(&self) -> (r: Vec<usize>)
        ensures
            r@.len() == self.elements@.len() + 1,
            r@[0] == self.vertex_count,
            forall|k: int| 0 <= k < self.elements@.len() ==> #[trigger] r@[k + 1] == self.elements@[k]@.len(),
    {
        let mut counts: Vec<usize> = Vec::new();
        counts.push(self.vertex_count);
        let mut r: usize = 0;
        while r < self.elements.len()
            invariant
                r <= self.elements@.len(),
                counts@.len() == r + 1,
                counts@[0] == self.vertex_count,
                forall|k: int| 0 <= k < r ==> #[trigger] counts@[k + 1] == self.elements@[k]@.len(),
            decreases self.elements@.len() - r,
        {
            counts.push(self.elements[r].len());
            r += 1;
        }
        counts
    }
}

/// The edges of an `n`-gon: the `k`-th joins vertices `k` and `k + 1` mod `n`.
pub open spec fn polygon_edges(n: nat) -> Seq<Seq<usize>> {
    Seq::new(n, |k: int| seq![k as usize, ((k + 1) % (n as int)) as usize])
}

/// The sequence `0, 1, ..., n - 1`.
pub open spec fn range_seq(n: nat) -> Seq<usize> {
    Seq::new(n, |k: int| k as usize)
}

/// Builds the polygon `{n/d}`. The density `d` only moves the vertices, so the
/// structure is that of an `n`-gon: `n` vertices, `n` edges, one face.
pub fn polygon(n: u32, d: u32) -> (p: Polytope)
    ensures
        p.vertex_count == n,
        p.view_elements() == seq![polygon_edges(n as nat), seq![range_seq(n as nat)]],
        p.wf(),
{
    let n = n as usize;
    let mut edges: Vec<Vec<usize>> = Vec::new();
    let mut component: Vec<usize> = Vec::new();
    let mut k: usize = 0;
    while k < n
        invariant
            k <= n,
            edges@.len() == k,
            component@ == range_seq(k as nat),
            forall|j: int| 0 <= j < k ==> #[trigger] edges@[j]@ == polygon_edges(n as nat)[j],
        decreases n - k,
    {
        let e = vec![k, (k + 1) % n];
        edges.push(e);
        component.push(k);
        k += 1;
    }
    let mut components: Vec<Vec<usize>> = Vec::new();
    components.push(component);
    let mut elements: Vec<Vec<Vec<usize>>> = Vec::new();
    elements.push(edges);
    elements.push(components);
    let p = Polytope::new(n, elements);
    proof {
        assert(edges@.len() == polygon_edges(n as nat).len());
        assert(elements_view(p.elements@)[0] =~= polygon_edges(n as nat));
        assert(elements_view(p.elements@)[1] =~= seq![range_seq(n as nat)]);
        assert(p.view_elements() =~= seq![polygon_edges(n as nat), seq![range_seq(n as nat)]]);
    }
    p
}


/// The edges, faces and component of [`tet`].
pub open spec fn tet_elements() -> Seq<Seq<Seq<usize>>> {
    seq![
        seq![seq![0, 1], seq![0, 2], seq![0, 3], seq![1, 2], seq![1, 3], seq![2, 3]],
        seq![seq![0, 1, 3], seq![0, 2, 4], seq![1, 2, 5], seq![3, 4, 5]],
        seq![seq![0, 1, 2, 3]],
    ]
}

/// Builds a tetrahedron: 4 vertices, 6 edges, 4 triangles.
pub fn tet() -> (p: Polytope)
    ensures
        p.vertex_count == 4,
        p.view_elements() == tet_elements(),
        p.wf(),
{
    let edges: Vec<Vec<usize>> = vec![vec![0, 1], vec![0, 2], vec![0, 3], vec![1, 2], vec![1, 3], vec![2, 3]];
    let faces: Vec<Vec<usize>> = vec![vec![0, 1, 3], vec![0, 2, 4], vec![1, 2, 5], vec![3, 4, 5]];
    let components: Vec<Vec<usize>> = vec![vec![0, 1, 2, 3]];
    let p = Polytope::new(4, vec![edges, faces, components]);
    proof {
        assert(p.view_elements() =~~= tet_elements());
    }
    p
}

/// The edges, faces and component of [`cube`].
pub open spec fn cube_elements() -> Seq<Seq<Seq<usize>>> {
    seq![
        seq![seq![0, 1], seq![1, 2], seq![2, 3], seq![3, 0], seq![4, 5], seq![5, 6], seq![6, 7], seq![7, 3], seq![0, 4], seq![1, 5], seq![2, 6], seq![3, 7]],
        seq![seq![0, 1, 2, 3], seq![4, 5, 6, 7], seq![0, 4, 8, 9], seq![1, 5, 9, 10], seq![2, 6, 10, 11], seq![3, 7, 11, 8]],
        seq![seq![0, 1, 2, 3, 4, 5]],
    ]
}

/// Builds a cube: 8 vertices, 12 edges, 6 squares.
pub fn cube() -> (p: Polytope)
    ensures
        p.vertex_count == 8,
        p.view_elements() == cube_elements(),
        p.wf(),
{
    let edges: Vec<Vec<usize>> = vec![vec![0, 1], vec![1, 2], vec![2, 3], vec![3, 0], vec![4, 5], vec![5, 6], vec![6, 7], vec![7, 3], vec![0, 4], vec![1, 5], vec![2, 6], vec![3, 7]];
    let faces: Vec<Vec<usize>> = vec![vec![0, 1, 2, 3], vec![4, 5, 6, 7], vec![0, 4, 8, 9], vec![1, 5, 9, 10], vec![2, 6, 10, 11], vec![3, 7, 11, 8]];
    let components: Vec<Vec<usize>> = vec![vec![0, 1, 2, 3, 4, 5]];
    let p = Polytope::new(8, vec![edges, faces, components]);
    proof {
        assert(p.view_elements() =~~= cube_elements());
    }
    p
}

/// The edges, faces and component of [`oct`].
pub open spec fn oct_elements() -> Seq<Seq<Seq<usize>>> {
    seq![
        seq![seq![0, 2], seq![0, 3], seq![0, 4], seq![0, 5], seq![1, 2], seq![1, 3], seq![1, 4], seq![1, 5], seq![2, 3], seq![3, 4], seq![4, 5], seq![5, 2]],
        seq![seq![0, 1, 8], seq![4, 5, 8], seq![1, 2, 9], seq![5, 6, 9], seq![2, 3, 10], seq![6, 7, 10], seq![3, 0, 11], seq![7, 4, 11]],
        seq![seq![0, 1, 2, 3, 4, 5, 6, 7]],
    ]
}

/// Builds an octahedron: 6 vertices, 12 edges, 8 triangles.
pub fn oct() -> (p: Polytope)
    ensures
        p.vertex_count == 6,
        p.view_elements() == oct_elements(),
        p.wf(),
{
    let edges: Vec<Vec<usize>> = vec![vec![0, 2], vec![0, 3], vec![0, 4], vec![0, 5], vec![1, 2], vec![1, 3], vec![1, 4], vec![1, 5], vec![2, 3], vec![3, 4], vec![4, 5], vec![5, 2]];
    let faces: Vec<Vec<usize>> = vec![vec![0, 1, 8], vec![4, 5, 8], vec![1, 2, 9], vec![5, 6, 9], vec![2, 3, 10], vec![6, 7, 10], vec![3, 0, 11], vec![7, 4, 11]];
    let components: Vec<Vec<usize>> = vec![vec![0, 1, 2, 3, 4, 5, 6, 7]];
    let p = Polytope::new(6, vec![edges, faces, components]);
    proof {
        assert(p.view_elements() =~~= oct_elements());
    }
    p
}


/// The edges of an `n`-antiprism: vertex `k` is joined to `k + 1` and to
/// `k + 2`, mod `2n`, in that order.
pub open spec fn antiprism_edges(n: nat) -> Seq<Seq<usize>> {
    Seq::new(
        4 * n,
        |e: int|
            {
                let k = e / 2;
                let step = if e % 2 == 0 { 1int } else { 2int };
                seq![k as usize, ((k + step) % (2 * n as int)) as usize]
            },
    )
}

/// The faces of an `n`-antiprism: `2n` triangles, then the two bases.
pub open spec fn antiprism_faces(n: nat) -> Seq<Seq<usize>> {
    Seq::new(
        2 * n,
        |k: int| seq![(2 * k) as usize, (2 * k + 1) as usize, ((2 * k + 2) % (4 * n as int)) as usize],
    ).add(
        seq![
            Seq::new(n, |k: int| (4 * k + 1) as usize),
            Seq::new(n, |k: int| (4 * k + 3) as usize),
        ],
    )
}

/// The single component of an `n`-antiprism: all `2n + 2` faces.
pub open spec fn antiprism_component(n: nat) -> Seq<usize> {
    range_seq(2 * n + 2)
}

/// Builds the antiprism over `{n/d}`. As with [`polygon`], `d` only moves the
/// vertices: there are `2n` vertices, `4n` edges and `2n + 2` faces.
pub fn antiprism(n: u32, d: u32) -> (p: Polytope)
    requires
        4 * (n as int) + 2 <= usize::MAX,
    ensures
        p.vertex_count == 2 * n,
        p.view_elements() == seq![
            antiprism_edges(n as nat),
            antiprism_faces(n as nat),
            seq![antiprism_component(n as nat)],
        ],
        p.wf(),
{
    let n = n as usize;
    let mut edges: Vec<Vec<usize>> = Vec::new();
    let mut faces: Vec<Vec<usize>> = Vec::new();
    let mut component: Vec<usize> = Vec::new();
    let mut k: usize = 0;
    while k < 2 * n
        invariant
            4 * n + 2 <= usize::MAX,
            k <= 2 * n,
            edges@.len() == 2 * k,
            faces@.len() == k,
            component@ == range_seq(k as nat),
            forall|e: int| 0 <= e < 2 * k ==> #[trigger] edges@[e]@ == antiprism_edges(n as nat)[e],
            forall|j: int| 0 <= j < k ==> #[trigger] faces@[j]@ == antiprism_faces(n as nat)[j],
        decreases 2 * n - k,
    {
        proof {
            assert((2 * k as int) / 2 == k as int);
            assert((2 * k as int) % 2 == 0);
            assert((2 * k as int + 1) / 2 == k as int);
            assert((2 * k as int + 1) % 2 == 1);
        }
        edges.push(vec![k, (k + 1) % (2 * n)]);
        edges.push(vec![k, (k + 2) % (2 * n)]);
        faces.push(vec![2 * k, 2 * k + 1, (2 * k + 2) % (4 * n)]);
        component.push(k);
        k += 1;
    }
    let mut base1: Vec<usize> = Vec::new();
    let mut base2: Vec<usize> = Vec::new();
    let mut k: usize = 0;
    while k < n
        invariant
            4 * n + 2 <= usize::MAX,
            k <= n,
            base1@ == Seq::new(k as nat, |j: int| (4 * j + 1) as usize),
            base2@ == Seq::new(k as nat, |j: int| (4 * j + 3) as usize),
        decreases n - k,
    {
        base1.push(4 * k + 1);
        base2.push(4 * k + 3);
        k += 1;
        proof {
            assert(base1@ =~= Seq::new(k as nat, |j: int| (4 * j + 1) as usize));
            assert(base2@ =~= Seq::new(k as nat, |j: int| (4 * j + 3) as usize));
        }
    }
    faces.push(base1);
    faces.push(base2);
    component.push(2 * n);
    component.push(2 * n + 1);
    let p = Polytope::new(2 * n, vec![edges, faces, vec![component]]);
    proof {
        assert(component@ =~= antiprism_component(n as nat));
        assert(elements_view(p.elements@)[0] =~= antiprism_edges(n as nat));
        assert(elements_view(p.elements@)[1] =~= antiprism_faces(n as nat));
        assert(elements_view(p.elements@)[2] =~= seq![antiprism_component(n as nat)]);
        assert(p.view_elements() =~= seq![
            antiprism_edges(n as nat),
            antiprism_faces(n as nat),
            seq![antiprism_component(n as nat)],
        ]);
    }
    p
}

} // verus!
