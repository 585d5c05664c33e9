//! Coxeter matrices, and Coxeter diagrams written as text.
//!
//! A diagram is a sequence of node letters (`o`, `x`, ...) joined by branch
//! labels. Two nodes written next to each other are joined by a branch of
//! label 3; digits between them give another label; a space leaves the next
//! node unjoined. `*c` goes back to an earlier node by its letter (`a` is the
//! first node), so that the next branch starts there: `o3o3o3o3o *c3o` is E6.

use vstd::prelude::*;
use vstd::string::*;

verus! {

/// A Coxeter matrix: entry `(i, j)` is the order of the product of the
/// reflections `i` and `j`. The diagonal holds 1, and 2 stands for "no branch".
pub struct Cox {
    labels: Vec<Vec<u32>>,
}

/// The `n × n` matrix whose entry `(i, j)` is `f(i, j)`.
pub open spec fn square_matrix(n: nat, f: spec_fn(int, int) -> u32) -> Seq<Seq<u32>> {
    Seq::new(n, |i: int| Seq::new(n, |j: int| f(i, j)))
}

impl View for Cox {
    type V = Seq<Seq<u32>>;

    closed spec fn view(&self) -> Seq<Seq<u32>> {
        Seq::new(self.labels@.len(), |i: int| self.labels@[i]@)
    }
}

impl Cox {
    /// The number of nodes.
    pub open spec fn rank_spec(&self) -> nat {
        self@.len()
    }

    /// Whether this is a Coxeter matrix: square and symmetric, 1 on the
    /// diagonal and at least 2 elsewhere.
    pub open spec fn wf(&self) -> bool {
        &&& forall|i: int| 0 <= i < self@.len() ==> #[trigger] self@[i].len() == self@.len()
        &&& forall|i: int| 0 <= i < self@.len() ==> #[trigger] self@[i][i] == 1
        &&& forall|i: int, j: int|
            0 <= i < self@.len() && 0 <= j < self@.len() && i != j ==> #[trigger] self@[i][j]
                >= 2 && self@[i][j] == self@[j][i]
    }

    /// The number of nodes.
    pub fn rank(&self) -> (r: usize)
        ensures
            r == self.rank_spec(),
    {
        self.labels.len()
    }

    /// The label between nodes `i` and `j`.
    pub fn label(&self, i: usize, j: usize) -> (r: u32)
        requires
            self.wf(),
            i < self.rank_spec(),
            j < self.rank_spec(),
        ensures
            r == self@[i as int][j as int],
    {
        proof {
            assert(self@[i as int] == self.labels@[i as int]@);
        }
        self.labels[i][j]
    }
}

/// The Coxeter matrix of a path of `n` nodes, where the first branch has label
/// `first` and the others label 3, plus one more node, the last one, joined
/// by a branch of label 3 to node `fork` when `fork` is given.
pub open spec fn path_label(n: int, first: u32, fork: Option<int>, i: int, j: int) -> u32 {
    let path_len = if fork is Some { n - 1 } else { n };
    if i == j {
        1
    } else if i < path_len && j < path_len && (i - j == 1 || j - i == 1) {
        if (i == 0 && j == 1) || (i == 1 && j == 0) {
            first
        } else {
            3
        }
    } else if fork is Some && ((i == n - 1 && j == fork->0) || (j == n - 1 && i == fork->0)) {
        3
    } else {
        2
    }
}

/// The node that the extra node hangs on, if any.
pub open spec fn fork_int(fork: Option<usize>) -> Option<int> {
    match fork {
        Some(f) => Some(f as int),
        None => None,
    }
}

fn path_label_exec(n: usize, first: u32, fork: Option<usize>, i: usize, j: usize) -> (r: u32)
    requires
        n >= 1,
    ensures
        r == path_label(
            n as int,
            first,
            fork_int(fork),
            i as int,
            j as int,
        ),
{
    let path_len = if fork.is_some() {
        n - 1
    } else {
        n
    };
    if i == j {
        1
    } else if i < path_len && j < path_len && (i == j + 1 || j == i + 1) {
        if (i == 0 && j == 1) || (i == 1 && j == 0) {
            first
        } else {
            3
        }
    } else {
        match fork {
            Some(f) => {
                if (i == n - 1 && j == f) || (j == n - 1 && i == f) {
                    3
                } else {
                    2
                }
            },
            None => 2,
        }
    }
}

impl Cox {
    fn path(n: usize, first: u32, fork: Option<usize>) -> (r: Cox)
        requires
            n >= 1,
            first >= 2,
        ensures
            r.wf(),
            r@ == square_matrix(
                n as nat,
                |i: int, j: int|
                    path_label(
                        n as int,
                        first,
                        fork_int(fork),
                        i,
                        j,
                    ),
            ),
    {
        let ghost g = fork_int(fork);
        let mut labels: Vec<Vec<u32>> = Vec::new();
        let mut i: usize = 0;
        while i < n
            invariant
                n >= 1,
                g == fork_int(fork),
                i <= n,
                labels@.len() == i,
                forall|i2: int| 0 <= i2 < i ==> #[trigger] labels@[i2]@ == square_matrix(
                    n as nat,
                    |i: int, j: int| path_label(n as int, first, g, i, j),
                )[i2],
            decreases n - i,
        {
            let mut row: Vec<u32> = Vec::new();
            let mut j: usize = 0;
            while j < n
                invariant
                    n >= 1,
                    g == fork_int(fork),
                    i < n,
                    j <= n,
                    row@.len() == j,
                    forall|j2: int| 0 <= j2 < j ==> #[trigger] row@[j2] == path_label(n as int, first, g, i as int, j2),
                decreases n - j,
            {
                row.push(path_label_exec(n, first, fork, i, j));
                j += 1;
            }
            proof {
                assert(row@ =~= square_matrix(
                    n as nat,
                    |i: int, j: int| path_label(n as int, first, g, i, j),
                )[i as int]);
            }
            labels.push(row);
            i += 1;
        }
        let r = Cox { labels };
        proof {
            assert(r@ =~~= square_matrix(n as nat, |i: int, j: int| path_label(n as int, first, g, i, j)));
        }
        r
    }

    /// A(n), the group of the `n`-simplex: `o3o3...3o` with `n` nodes.
    pub fn a(n: usize) -> (r: Cox)
        requires
            n >= 1,
        ensures
            r.wf(),
            r@ == square_matrix(n as nat, |i: int, j: int| path_label(n as int, 3, None, i, j)),
    {
        Cox::path(n, 3, None)
    }

    /// B(n), the group of the `n`-cube: `o4o3...3o` with `n` nodes.
    pub fn b(n: usize) -> (r: Cox)
        requires
            n >= 1,
        ensures
            r.wf(),
            r@ == square_matrix(n as nat, |i: int, j: int| path_label(n as int, 4, None, i, j)),
    {
        Cox::path(n, 4, None)
    }

    /// D(n), the group of the `n`-demicube: a path of `n - 1` nodes with one
    /// more node on the second, `o3o3...3o *b3o`.
    pub fn d(n: usize) -> (r: Cox)
        requires
            n >= 3,
        ensures
            r.wf(),
            r@ == square_matrix(n as nat, |i: int, j: int| path_label(n as int, 3, Some(1), i, j)),
    {
        Cox::path(n, 3, Some(1))
    }

    /// E(n), the group of the Gosset polytopes: a path of `n - 1` nodes with
    /// one more node on the third, `o3o3...3o *c3o`.
    pub fn e(n: usize) -> (r: Cox)
        requires
            4 <= n,
        ensures
            r.wf(),
            r@ == square_matrix(n as nat, |i: int, j: int| path_label(n as int, 3, Some(2), i, j)),
    {
        Cox::path(n, 3, Some(2))
    }

    /// H(n), the pentagonal groups: `o5o3...3o` with `n` nodes.
    pub fn h(n: usize) -> (r: Cox)
        requires
            n >= 2,
        ensures
            r.wf(),
            r@ == square_matrix(n as nat, |i: int, j: int| path_label(n as int, 5, None, i, j)),
    {
        Cox::path(n, 5, None)
    }
}


/// Why a diagram could not be read. Each variant gives the position, in
/// characters, where reading stopped.
#[derive(PartialEq, Eq, Structural, Clone, Copy, Debug)]
pub enum CdError {
    /// A character that is no node letter, digit, `*` or space.
    InvalidSymbol { pos: usize },
    /// A branch label with no node before it, or none after it.
    MissingNode { pos: usize },
    /// A branch label below 2, or one that does not fit in a `u32`.
    InvalidLabel { pos: usize },
    /// A `*` that is not followed by the letter of an earlier node, or that
    /// would join a node to itself.
    InvalidReference { pos: usize },
    /// A second branch between the same two nodes.
    RepeatedEdge { pos: usize },
}

/// Where a reader of a diagram stands: the nodes read so far, the branches
/// `(from, to, label)` read so far, the node that the next branch starts
/// from, the digits of a label being read, and whether a `*` was just read.
pub struct CdState {
    pub nodes: nat,
    pub edges: Seq<(nat, nat, nat)>,
    pub prev: Option<nat>,
    pub label: Option<nat>,
    pub star: bool,
}

pub open spec fn initial_state() -> CdState {
    CdState { nodes: 0, edges: Seq::empty(), prev: None, label: None, star: false }
}

pub open spec fn is_node_letter(c: char) -> bool {
    'a' <= c && c <= 'z'
}

pub open spec fn is_digit(c: char) -> bool {
    '0' <= c && c <= '9'
}

/// Whether a branch already joins `p` and `k`.
pub open spec fn has_edge(edges: Seq<(nat, nat, nat)>, p: nat, k: nat) -> bool {
    exists|e: int|
        0 <= e < edges.len() && ((#[trigger] edges[e]).0 == p && edges[e].1 == k || edges[e].0 == k
            && edges[e].1 == p)
}

/// Moves to node `k`, joining it to the previous node if there is one.
pub open spec fn connect(st: CdState, k: nat, pos: int) -> Result<CdState, CdError> {
    match st.prev {
        None => Ok(CdState { prev: Some(k), label: None, ..st }),
        Some(p) => {
            let l = match st.label {
                Some(l) => l,
                None => 3,
            };
            if p == k {
                Err(CdError::InvalidReference { pos: pos as usize })
            } else if l < 2 {
                Err(CdError::InvalidLabel { pos: pos as usize })
            } else if has_edge(st.edges, p, k) {
                Err(CdError::RepeatedEdge { pos: pos as usize })
            } else {
                Ok(CdState { edges: st.edges.push((p, k, l)), prev: Some(k), label: None, ..st })
            }
        },
    }
}

/// Reads the character `c`, at position `pos`.
pub open spec fn step(st: CdState, c: char, pos: int) -> Result<CdState, CdError> {
    if st.star {
        if is_node_letter(c) && ((c as u32 - 'a' as u32) as nat) < st.nodes {
            connect(CdState { star: false, ..st }, (c as u32 - 'a' as u32) as nat, pos)
        } else {
            Err(CdError::InvalidReference { pos: pos as usize })
        }
    } else if c == '*' {
        Ok(CdState { star: true, ..st })
    } else if is_node_letter(c) {
        connect(CdState { nodes: st.nodes + 1, ..st }, st.nodes, pos)
    } else if is_digit(c) {
        if st.prev is None {
            Err(CdError::MissingNode { pos: pos as usize })
        } else {
            let l = match st.label {
                Some(l) => l,
                None => 0,
            } * 10 + (c as u32 - '0' as u32);
            if l > u32::MAX {
                Err(CdError::InvalidLabel { pos: pos as usize })
            } else {
                Ok(CdState { label: Some(l as nat), ..st })
            }
        }
    } else if c == ' ' {
        if st.label is Some {
            Err(CdError::MissingNode { pos: pos as usize })
        } else {
            Ok(CdState { prev: None, ..st })
        }
    } else {
        Err(CdError::InvalidSymbol { pos: pos as usize })
    }
}

/// The state after reading the first `i` characters of `s`.
pub open spec fn run(s: Seq<char>, i: nat) -> Result<CdState, CdError>
    decreases i,
{
    if i == 0 {
        Ok(initial_state())
    } else {
        match run(s, (i - 1) as nat) {
            Err(e) => Err(e),
            Ok(st) => step(st, s[i - 1], i - 1),
        }
    }
}

/// What a whole diagram of length `len` reads as: an error, no nodes at all,
/// or the final state.
pub open spec fn finish(st: CdState, len: int) -> Result<Option<CdState>, CdError> {
    if st.star {
        Err(CdError::InvalidReference { pos: len as usize })
    } else if st.label is Some {
        Err(CdError::MissingNode { pos: len as usize })
    } else if st.nodes == 0 {
        Ok(None)
    } else {
        Ok(Some(st))
    }
}

/// How the diagram `s` reads.
pub open spec fn read_diagram(s: Seq<char>) -> Result<Option<CdState>, CdError> {
    match run(s, s.len()) {
        Err(e) => Err(e),
        Ok(st) => finish(st, s.len() as int),
    }
}

/// The label of the last branch joining `i` and `j`, or 2 if none does.
pub open spec fn edge_label(edges: Seq<(nat, nat, nat)>, i: int, j: int) -> nat
    decreases edges.len(),
{
    if edges.len() == 0 {
        2
    } else {
        let e = edges.last();
        if (e.0 == i && e.1 == j) || (e.0 == j && e.1 == i) {
            e.2
        } else {
            edge_label(edges.drop_last(), i, j)
        }
    }
}

/// The Coxeter matrix of `nodes` nodes joined by `edges`.
pub open spec fn diagram_matrix(nodes: nat, edges: Seq<(nat, nat, nat)>) -> Seq<Seq<u32>> {
    square_matrix(
        nodes,
        |i: int, j: int|
            if i == j {
                1u32
            } else {
                edge_label(edges, i, j) as u32
            },
    )
}

/// Whether `r` is what reading `s` gives.
pub open spec fn parsed_as(s: Seq<char>, r: Result<Option<Cox>, CdError>) -> bool {
    match read_diagram(s) {
        Err(e) => r == Err::<Option<Cox>, CdError>(e),
        Ok(None) => r is Ok && r->Ok_0 is None,
        Ok(Some(st)) => r is Ok && r->Ok_0 is Some && r->Ok_0->0@ == diagram_matrix(
            st.nodes,
            st.edges,
        ),
    }
}


pub open spec fn edges_view(edges: Seq<(usize, usize, u32)>) -> Seq<(nat, nat, nat)> {
    edges.map_values(|e: (usize, usize, u32)| (e.0 as nat, e.1 as nat, e.2 as nat))
}

pub open spec fn opt_nat(o: Option<usize>) -> Option<nat> {
    match o {
        Some(x) => Some(x as nat),
        None => None,
    }
}

pub open spec fn opt_label(o: Option<u32>) -> Option<nat> {
    match o {
        Some(x) => Some(x as nat),
        None => None,
    }
}

/// Reads a diagram one character at a time.
struct Reader {
    nodes: usize,
    edges: Vec<(usize, usize, u32)>,
    prev: Option<usize>,
    label: Option<u32>,
    star: bool,
}

impl Reader {
    spec fn state(&self) -> CdState {
        CdState {
            nodes: self.nodes as nat,
            edges: edges_view(self.edges@),
            prev: opt_nat(self.prev),
            label: opt_label(self.label),
            star: self.star,
        }
    }

    fn has_edge(&self, p: usize, k: usize) -> (r: bool)
        ensures
            r == has_edge(self.state().edges, p as nat, k as nat),
    {
        let ghost ev = edges_view(self.edges@);
        let mut e: usize = 0;
        while e < self.edges.len()
            invariant
                e <= self.edges@.len(),
                ev == edges_view(self.edges@),
                forall|f: int|
                    0 <= f < e ==> !((#[trigger] ev[f]).0 == p && ev[f].1 == k || ev[f].0 == k
                        && ev[f].1 == p),
            decreases self.edges@.len() - e,
        {
            let (a, b, _) = self.edges[e];
            if (a == p && b == k) || (a == k && b == p) {
                proof {
                    assert(ev[e as int].0 == a);
                }
                return true;
            }
            e += 1;
        }
        false
    }

    fn connect(&mut self, k: usize, pos: usize) -> (r: Result<(), CdError>)
        requires
            labels_ok(old(self).state().edges),
        ensures
            labels_ok(final(self).state().edges),
            match connect(old(self).state(), k as nat, pos as int) {
                Ok(st) => r is Ok && final(self).state() == st && final(self).nodes == old(self).nodes,
                Err(e) => r == Err::<(), CdError>(e),
            },
    {
        match self.prev {
            None => {
                self.prev = Some(k);
                self.label = None;
                Ok(())
            },
            Some(p) => {
                let l = match self.label {
                    Some(l) => l,
                    None => 3,
                };
                if p == k {
                    Err(CdError::InvalidReference { pos })
                } else if l < 2 {
                    Err(CdError::InvalidLabel { pos })
                } else if self.has_edge(p, k) {
                    Err(CdError::RepeatedEdge { pos })
                } else {
                    let ghost old_edges = self.edges@;
                    self.edges.push((p, k, l));
                    proof {
                        assert(edges_view(self.edges@) =~= edges_view(old_edges).push(
                            (p as nat, k as nat, l as nat),
                        ));
                    }
                    self.prev = Some(k);
                    self.label = None;
                    Ok(())
                }
            },
        }
    }

    fn step(&mut self, c: char, pos: usize) -> (r: Result<(), CdError>)
        requires
            old(self).nodes <= pos < usize::MAX,
            labels_ok(old(self).state().edges),
        ensures
            labels_ok(final(self).state().edges),
            match step(old(self).state(), c, pos as int) {
                Ok(st) => r is Ok && final(self).state() == st && final(self).nodes <= pos + 1,
                Err(e) => r == Err::<(), CdError>(e),
            },
    {
        if self.star {
            if 'a' <= c && c <= 'z' && ((c as u32 - 'a' as u32) as usize) < self.nodes {
                self.star = false;
                self.connect((c as u32 - 'a' as u32) as usize, pos)
            } else {
                Err(CdError::InvalidReference { pos })
            }
        } else if c == '*' {
            self.star = true;
            Ok(())
        } else if 'a' <= c && c <= 'z' {
            let k = self.nodes;
            self.nodes = k + 1;
            self.connect(k, pos)
        } else if '0' <= c && c <= '9' {
            if self.prev.is_none() {
                Err(CdError::MissingNode { pos })
            } else {
                let old: u64 = match self.label {
                    Some(l) => l as u64,
                    None => 0,
                };
                let l: u64 = old * 10 + (c as u32 - '0' as u32) as u64;
                if l > u32::MAX as u64 {
                    Err(CdError::InvalidLabel { pos })
                } else {
                    self.label = Some(l as u32);
                    Ok(())
                }
            }
        } else if c == ' ' {
            if self.label.is_some() {
                Err(CdError::MissingNode { pos })
            } else {
                self.prev = None;
                Ok(())
            }
        } else {
            Err(CdError::InvalidSymbol { pos })
        }
    }
}

fn edge_label_exec(edges: &Vec<(usize, usize, u32)>, i: usize, j: usize) -> (r: u32)
    ensures
        r as nat == edge_label(edges_view(edges@), i as int, j as int),
{
    let ghost full = edges_view(edges@);
    let mut k: usize = edges.len();
    proof {
        assert(full.subrange(0, k as int) =~= full);
    }
    while k > 0
        invariant
            k <= edges@.len(),
            full == edges_view(edges@),
            edge_label(full, i as int, j as int) == edge_label(full.subrange(0, k as int), i as int, j as int),
        decreases k,
    {
        let (a, b, l) = edges[k - 1];
        proof {
            assert(full.subrange(0, k as int).drop_last() =~= full.subrange(0, k - 1));
            assert(full.subrange(0, k as int).last() == full[k - 1]);
        }
        if (a == i && b == j) || (a == j && b == i) {
            return l;
        }
        k -= 1;
    }
    2
}

impl Cox {
    /// Reads a Coxeter diagram. Gives `Ok(None)` for a diagram without nodes
    /// (empty, or only spaces), and otherwise its Coxeter matrix, or where and
    /// why the text is no diagram.
    pub fn parse(input: &str) -> (r: Result<Option<Cox>, CdError>)
        ensures
            parsed_as(input@, r),
            r matches Ok(Some(c)) ==> c.wf(),
    {
        let len = input.unicode_len();
        let mut reader = Reader { nodes: 0, edges: Vec::new(), prev: None, label: None, star: false };
        let mut i: usize = 0;
        proof {
            assert(reader.state().edges =~= Seq::empty());
            assert(reader.state() == initial_state());
        }
        while i < len
            invariant
                len == input@.len(),
                i <= len,
                reader.nodes <= i,
                labels_ok(reader.state().edges),
                run(input@, i as nat) == Ok::<CdState, CdError>(reader.state()),
            decreases len - i,
        {
            let c = input.get_char(i);
            let r = reader.step(c, i);
            if let Err(e) = r {
                proof {
                    lemma_run_stays_failed(input@, (i + 1) as nat, len as nat, e);
                }
                return Err(e);
            }
            i += 1;
        }
        if reader.star {
            return Err(CdError::InvalidReference { pos: len });
        }
        if reader.label.is_some() {
            return Err(CdError::MissingNode { pos: len });
        }
        if reader.nodes == 0 {
            return Ok(None);
        }
        let n = reader.nodes;
        let ghost st = reader.state();
        let ghost m = diagram_matrix(st.nodes, st.edges);
        let mut labels: Vec<Vec<u32>> = Vec::new();
        let mut i: usize = 0;
        while i < n
            invariant
                n == reader.nodes,
                st == reader.state(),
                labels_ok(st.edges),
                m == diagram_matrix(st.nodes, st.edges),
                i <= n,
                labels@.len() == i,
                forall|i2: int| 0 <= i2 < i ==> #[trigger] labels@[i2]@ == m[i2],
            decreases n - i,
        {
            let mut row: Vec<u32> = Vec::new();
            let mut j: usize = 0;
            while j < n
                invariant
                    n == reader.nodes,
                    st == reader.state(),
                    m == diagram_matrix(st.nodes, st.edges),
                    i < n,
                    j <= n,
                    row@.len() == j,
                    forall|j2: int| 0 <= j2 < j ==> #[trigger] row@[j2] == m[i as int][j2],
                decreases n - j,
            {
                if i == j {
                    row.push(1);
                } else {
                    let l = edge_label_exec(&reader.edges, i, j);
                    row.push(l);
                }
                j += 1;
            }
            proof {
                assert(row@ =~= m[i as int]);
            }
            labels.push(row);
            i += 1;
        }
        let c = Cox { labels };
        proof {
            assert(c@ =~~= m);
            assert forall|i: int, j: int| 0 <= i < n && 0 <= j < n && i != j implies #[trigger] c@[i][j]
                >= 2 && c@[i][j] == c@[j][i] by {
                lemma_edge_label_range(st.edges, i, j);
                lemma_edge_label_symmetric(st.edges, i, j);
            }
        }
        Ok(Some(c))
    }
}

/// Every branch label lies between 2 and `u32::MAX`.
pub open spec fn labels_ok(edges: Seq<(nat, nat, nat)>) -> bool {
    forall|e: int| 0 <= e < edges.len() ==> 2 <= (#[trigger] edges[e]).2 <= u32::MAX
}

proof fn lemma_edge_label_range(edges: Seq<(nat, nat, nat)>, i: int, j: int)
    requires
        labels_ok(edges),
    ensures
        2 <= edge_label(edges, i, j) <= u32::MAX,
    decreases edges.len(),
{
    if edges.len() > 0 {
        assert(edges.last() == edges[edges.len() - 1]);
        lemma_edge_label_range(edges.drop_last(), i, j);
    }
}

proof fn lemma_edge_label_symmetric(edges: Seq<(nat, nat, nat)>, i: int, j: int)
    ensures
        edge_label(edges, i, j) == edge_label(edges, j, i),
    decreases edges.len(),
{
    if edges.len() > 0 {
        lemma_edge_label_symmetric(edges.drop_last(), i, j);
    }
}

proof fn lemma_run_stays_failed(s: Seq<char>, i: nat, n: nat, e: CdError)
    requires
        i <= n,
        run(s, i) == Err::<CdState, CdError>(e),
    ensures
        run(s, n) == Err::<CdState, CdError>(e),
    decreases n - i,
{
    if i < n {
        lemma_run_stays_failed(s, i + 1, n, e);
    }
}

} // verus!
