use vstd::prelude::*;

verus! {

/// An edge of a cell, as the cell walks it counter-clockwise: `Direct(e)`
/// walks edge `e` from its lower vertex index to its higher one, `Indirect(e)`
/// the other way.
#[derive(Clone, Copy, Debug, PartialEq, Eq, Structural)]
pub enum CellEdge {
    Direct(usize),
    Indirect(usize),
}

impl CellEdge {
    pub open spec fn edge(self) -> usize {
        match self {
            CellEdge::Direct(e) => e,
            CellEdge::Indirect(e) => e,
        }
    }

    pub open spec fn is_direct(self) -> bool {
        self is Direct
    }
}

/// The vertex that the `i`-th edge of the triangle list starts at: edge
/// `i` of the list is edge `i % 3` of triangle `i / 3`, which goes from its
/// corner `i % 3` to the next corner.
pub open spec fn edge_start(triangles: Seq<[usize; 3]>, i: int) -> usize {
    triangles[i / 3]@[i % 3]
}

/// The vertex that the `i`-th edge of the triangle list ends at.
pub open spec fn edge_end(triangles: Seq<[usize; 3]>, i: int) -> usize {
    triangles[i / 3]@[(i % 3 + 1) % 3]
}

/// An edge without its direction: its lower vertex index first.
pub open spec fn undirected(a: usize, b: usize) -> (usize, usize) {
    if a < b {
        (a, b)
    } else {
        (b, a)
    }
}

/// The `i`-th edge of the triangle list, without its direction.
pub open spec fn edge_key(triangles: Seq<[usize; 3]>, i: int) -> (usize, usize) {
    undirected(edge_start(triangles, i), edge_end(triangles, i))
}

/// The edges of the triangle list, without direction, in list order.
pub open spec fn edge_keys(triangles: Seq<[usize; 3]>) -> Seq<(usize, usize)> {
    Seq::new(3 * triangles.len(), |i: int| edge_key(triangles, i))
}

/// The distinct entries of `s`, each where it first occurs.
pub open spec fn first_occurrences(s: Seq<(usize, usize)>) -> Seq<(usize, usize)>
    decreases s.len(),
{
    if s.len() == 0 {
        Seq::empty()
    } else {
        let p = first_occurrences(s.drop_last());
        if p.contains(s.last()) {
            p
        } else {
            p.push(s.last())
        }
    }
}

/// No edge of the triangle list joins a vertex to itself, and no directed
/// edge belongs to two cells (neighbouring cells walk a shared edge in
/// opposite directions).
pub open spec fn proper_edges(triangles: Seq<[usize; 3]>) -> bool {
    &&& forall|i: int| 0 <= i < 3 * triangles.len() ==> edge_start(triangles, i) != #[trigger] edge_end(triangles, i)
    &&& forall|i: int, j: int|
        0 <= i < 3 * triangles.len() && 0 <= j < 3 * triangles.len() && i != j
            ==> (#[trigger] edge_start(triangles, i), edge_end(triangles, i)) != (#[trigger] edge_start(triangles, j), edge_end(triangles, j))
}

/// Triangles over `vertex_count` vertices that can form a mesh: every
/// corner is a vertex and the edges are proper.
pub open spec fn valid_triangles(vertex_count: nat, triangles: Seq<[usize; 3]>) -> bool {
    &&& forall|c: int, k: int| 0 <= c < triangles.len() && 0 <= k < 3 ==> #[trigger] triangles[c]@[k] < vertex_count
    &&& proper_edges(triangles)
}

/// A triangulated walkable area: its vertices (of type `V`), its edges as
/// pairs of vertex indices, the cells on the left (`.0`) and right (`.1`)
/// of each edge walked from its lower vertex index, and each cell's three
/// edges in counter-clockwise order.
pub struct Navmesh<V> {
    vertices: Vec<V>,
    edges_vertices: Vec<(usize, usize)>,
    edges_cells: Vec<(Option<usize>, Option<usize>)>,
    cells_edges: Vec<[CellEdge; 3]>,
}

/// Whether `flat`, the cell edges met so far, has `Direct(e)` at an entry of
/// cell `c`.
spec fn has_direct(flat: Seq<CellEdge>, e: usize, c: usize) -> bool {
    exists|i: int| 0 <= i < flat.len() && flat[i] == CellEdge::Direct(e) && i / 3 == c
}

/// Whether `flat` has `Indirect(e)` at an entry of cell `c`.
spec fn has_indirect(flat: Seq<CellEdge>, e: usize, c: usize) -> bool {
    exists|i: int| 0 <= i < flat.len() && flat[i] == CellEdge::Indirect(e) && i / 3 == c
}

/// The edge tables agree with the first `flat.len()` edges of the triangle
/// list, whose cell edges are `flat`.
spec fn linked_prefix(
    triangles: Seq<[usize; 3]>,
    edges: Seq<(usize, usize)>,
    edges_cells: Seq<(Option<usize>, Option<usize>)>,
    flat: Seq<CellEdge>,
) -> bool {
    &&& flat.len() <= 3 * triangles.len()
    &&& edges == first_occurrences(edge_keys(triangles).take(flat.len() as int))
    &&& edges_cells.len() == edges.len()
    &&& forall|i: int| 0 <= i < flat.len() ==> (#[trigger] flat[i]).edge() < edges.len()
    &&& forall|i: int| 0 <= i < flat.len() ==> edges[(#[trigger] flat[i]).edge() as int] == edge_key(triangles, i)
    &&& forall|i: int| 0 <= i < flat.len() ==> ((#[trigger] flat[i]).is_direct() <==> edge_start(triangles, i) < edge_end(triangles, i))
    &&& forall|i: int| 0 <= i < flat.len() && (#[trigger] flat[i]).is_direct() ==> edges_cells[flat[i].edge() as int].0 == Some((i / 3) as usize)
    &&& forall|i: int| 0 <= i < flat.len() && !(#[trigger] flat[i]).is_direct() ==> edges_cells[flat[i].edge() as int].1 == Some((i / 3) as usize)
    &&& forall|e: int| 0 <= e < edges_cells.len() && (#[trigger] edges_cells[e]).0.is_some() ==> has_direct(flat, e as usize, edges_cells[e].0.unwrap())
    &&& forall|e: int| 0 <= e < edges_cells.len() && (#[trigger] edges_cells[e]).1.is_some() ==> has_indirect(flat, e as usize, edges_cells[e].1.unwrap())
}

/// Adds edge `i` of the triangle list, from `a` to `b` in cell `cell`, to the
/// edge tables, and returns it as an edge of that cell.
fn add_edge(
    edges: &mut Vec<(usize, usize)>,
    edges_cells: &mut Vec<(Option<usize>, Option<usize>)>,
    a: usize,
    b: usize,
    cell: usize,
    Ghost(triangles): Ghost<Seq<[usize; 3]>>,
    Ghost(flat): Ghost<Seq<CellEdge>>,
) -> (r: CellEdge)
    requires
        flat.len() < 3 * triangles.len(),
        proper_edges(triangles),
        a == edge_start(triangles, flat.len() as int),
        b == edge_end(triangles, flat.len() as int),
        cell == flat.len() / 3,
        linked_prefix(triangles, old(edges)@, old(edges_cells)@, flat),
    ensures
        linked_prefix(triangles, final(edges)@, final(edges_cells)@, flat.push(r)),
{
    let ghost m = flat.len() as int;
    let ghost keys = edge_keys(triangles);
    let key = if a < b { (a, b) } else { (b, a) };
    assert(key == keys[m]);
    let mut p: usize = 0;
    while p < edges.len() && !(edges[p].0 == key.0 && edges[p].1 == key.1)
        invariant
            p <= edges.len(),
            forall|q: int| 0 <= q < p ==> edges@[q] != key,
        decreases edges.len() - p,
    {
        p += 1;
    }
    assert(keys.take(m + 1).drop_last() =~= keys.take(m));
    if p == edges.len() {
        assert(!edges@.contains(key));
        edges.push(key);
        edges_cells.push((None, None));
    }
    assert(edges@ == first_occurrences(keys.take(m + 1)));
    assert(edges@[p as int] == key);
    let r = if a < b {
        proof {
            assert forall|i: int| 0 <= i < m && #[trigger] flat[i] == CellEdge::Direct(p) implies false by {
                assert(edge_key(triangles, i) == key);
                assert((edge_start(triangles, i), edge_end(triangles, i)) == (edge_start(triangles, m), edge_end(triangles, m)));
            }
        }
        let right = edges_cells[p].1;
        edges_cells.set(p, (Some(cell), right));
        CellEdge::Direct(p)
    } else {
        proof {
            assert forall|i: int| 0 <= i < m && #[trigger] flat[i] == CellEdge::Indirect(p) implies false by {
                assert(edge_key(triangles, i) == key);
                assert((edge_start(triangles, i), edge_end(triangles, i)) == (edge_start(triangles, m), edge_end(triangles, m)));
            }
        }
        let left = edges_cells[p].0;
        edges_cells.set(p, (left, Some(cell)));
        CellEdge::Indirect(p)
    };
    proof {
        let f = flat.push(r);
        assert(f[m] == r);
        assert forall|e: int| 0 <= e < edges_cells@.len() && (#[trigger] edges_cells@[e]).0.is_some() implies has_direct(f, e as usize, edges_cells@[e].0.unwrap()) by {
            if e == p && r.is_direct() {
                assert(f[m] == CellEdge::Direct(e as usize));
            } else {
                let c = edges_cells@[e].0.unwrap();
                assert(has_direct(flat, e as usize, c));
                let i = choose|i: int| 0 <= i < flat.len() && flat[i] == CellEdge::Direct(e as usize) && i / 3 == c;
                assert(f[i] == flat[i]);
            }
        }
        assert forall|e: int| 0 <= e < edges_cells@.len() && (#[trigger] edges_cells@[e]).1.is_some() implies has_indirect(f, e as usize, edges_cells@[e].1.unwrap()) by {
            if e == p && !r.is_direct() {
                assert(f[m] == CellEdge::Indirect(e as usize));
            } else {
                let c = edges_cells@[e].1.unwrap();
                assert(has_indirect(flat, e as usize, c));
                let i = choose|i: int| 0 <= i < flat.len() && flat[i] == CellEdge::Indirect(e as usize) && i / 3 == c;
                assert(f[i] == flat[i]);
            }
        }
    }
    r
}

/// `first_occurrences(s)` holds no entry twice.
proof fn lemma_first_occurrences_distinct(s: Seq<(usize, usize)>)
    ensures
        first_occurrences(s).no_duplicates(),
    decreases s.len(),
{
    if s.len() > 0 {
        let t = s.drop_last();
        lemma_first_occurrences_distinct(t);
        let p = first_occurrences(t);
        if !p.contains(s.last()) {
            let q = p.push(s.last());
            assert forall|i: int, j: int| 0 <= i < q.len() && 0 <= j < q.len() && i != j implies q[i] != q[j] by {
                if i < p.len() && j < p.len() {
                    assert(q[i] == p[i] && q[j] == p[j]);
                } else if i < p.len() {
                    assert(q[i] == p[i]);
                } else if j < p.len() {
                    assert(q[j] == p[j]);
                }
            }
        }
    }
}

/// Every entry of `first_occurrences(s)` is an entry of `s`.
proof fn lemma_first_occurrences_from(s: Seq<(usize, usize)>)
    ensures
        forall|j: int| 0 <= j < first_occurrences(s).len() ==> s.contains(#[trigger] first_occurrences(s)[j]),
    decreases s.len(),
{
    if s.len() > 0 {
        let t = s.drop_last();
        lemma_first_occurrences_from(t);
        assert forall|j: int| 0 <= j < first_occurrences(s).len() implies s.contains(#[trigger] first_occurrences(s)[j]) by {
            if j < first_occurrences(t).len() {
                let x = first_occurrences(t)[j];
                assert(t.contains(x));
                let q = choose|q: int| 0 <= q < t.len() && t[q] == x;
                assert(s[q] == x);
            } else {
                assert(s[s.len() - 1] == s.last());
            }
        }
    }
}

impl<V> Navmesh<V> {
    pub closed spec fn vertices(&self) -> Seq<V> {
        self.vertices@
    }

    /// The edges, each as its two vertex indices, the lower first.
    pub closed spec fn edges(&self) -> Seq<(usize, usize)> {
        self.edges_vertices@
    }

    /// For each edge, the cell on its left and the cell on its right, walked
    /// from its lower vertex index.
    pub closed spec fn edge_cells(&self) -> Seq<(Option<usize>, Option<usize>)> {
        self.edges_cells@
    }

    /// For each cell, its three edges in counter-clockwise order.
    pub closed spec fn cells(&self) -> Seq<[CellEdge; 3]> {
        self.cells_edges@
    }

    /// The `i`-th cell edge, counting three per cell in cell order.
    pub open spec fn cell_edge_at(&self, i: int) -> CellEdge {
        self.cells()[i / 3]@[i % 3]
    }

    /// The vertex that cell `c` has at corner `k`: where its edge `k` starts.
    pub open spec fn corner(&self, c: int, k: int) -> usize {
        let ce = self.cells()[c]@[k];
        if ce.is_direct() {
            self.edges()[ce.edge() as int].0
        } else {
            self.edges()[ce.edge() as int].1
        }
    }

    /// The tables are consistent: each cell edge names an edge, the edge
    /// tables have one entry per edge, each edge names its cells, and an
    /// edge names a cell exactly when that cell walks it in that direction.
    pub open spec fn wf(&self) -> bool {
        &&& self.edge_cells().len() == self.edges().len()
        &&& forall|e: int| 0 <= e < self.edges().len() ==> (#[trigger] self.edges()[e]).0 < self.edges()[e].1
        &&& forall|e: int| 0 <= e < self.edges().len() ==> (#[trigger] self.edges()[e]).1 < self.vertices().len()
        &&& forall|c: int, k: int| 0 <= c < self.cells().len() && 0 <= k < 3 ==> (#[trigger] self.cells()[c]@[k]).edge() < self.edges().len()
        &&& forall|c: int, k: int| 0 <= c < self.cells().len() && 0 <= k < 3 && (#[trigger] self.cells()[c]@[k]).is_direct()
            ==> self.edge_cells()[self.cells()[c]@[k].edge() as int].0 == Some(c as usize)
        &&& forall|c: int, k: int| 0 <= c < self.cells().len() && 0 <= k < 3 && !(#[trigger] self.cells()[c]@[k]).is_direct()
            ==> self.edge_cells()[self.cells()[c]@[k].edge() as int].1 == Some(c as usize)
        &&& forall|e: int| 0 <= e < self.edges().len() && (#[trigger] self.edge_cells()[e]).0.is_some()
            ==> self.edge_cells()[e].0.unwrap() < self.cells().len()
                && exists|k: int| 0 <= k < 3 && self.cells()[self.edge_cells()[e].0.unwrap() as int]@[k] == CellEdge::Direct(e as usize)
        &&& forall|e: int| 0 <= e < self.edges().len() && (#[trigger] self.edge_cells()[e]).1.is_some()
            ==> self.edge_cells()[e].1.unwrap() < self.cells().len()
                && exists|k: int| 0 <= k < 3 && self.cells()[self.edge_cells()[e].1.unwrap() as int]@[k] == CellEdge::Indirect(e as usize)
    }

    /// The mesh is the one that `triangles` describe: one cell per triangle,
    /// the distinct edges in the order they first occur, and each cell edge
    /// the triangle's edge, `Direct` when it goes from the lower vertex index
    /// to the higher one.
    pub open spec fn built_from(&self, triangles: Seq<[usize; 3]>) -> bool {
        &&& self.cells().len() == triangles.len()
        &&& self.edges() == first_occurrences(edge_keys(triangles))
        &&& forall|i: int| 0 <= i < 3 * triangles.len() ==> self.edges()[(#[trigger] self.cell_edge_at(i)).edge() as int] == edge_key(triangles, i)
        &&& forall|i: int| 0 <= i < 3 * triangles.len() ==> ((#[trigger] self.cell_edge_at(i)).is_direct() <==> edge_start(triangles, i) < edge_end(triangles, i))
    }
}

impl<V> Navmesh<V> {
    /// The mesh of `triangles`, each three vertex indices in
    /// counter-clockwise order.
    pub fn from_triangles(vertices: Vec<V>, triangles: &Vec<[usize; 3]>) -> (r: Self)
        requires
            valid_triangles(vertices.len() as nat, triangles@),
        ensures
            r.wf(),
            r.vertices() == vertices@,
            r.built_from(triangles@),
            r.edges().no_duplicates(),
    {
        let ghost tris = triangles@;
        let mut edges: Vec<(usize, usize)> = Vec::new();
        let mut edges_cells: Vec<(Option<usize>, Option<usize>)> = Vec::new();
        let mut cells: Vec<[CellEdge; 3]> = Vec::new();
        let ghost mut flat: Seq<CellEdge> = Seq::empty();
        let mut c: usize = 0;
        proof {
            assert(edge_keys(tris).take(0) =~= Seq::<(usize, usize)>::empty());
        }
        while c < triangles.len()
            invariant
                tris == triangles@,
                valid_triangles(vertices.len() as nat, tris),
                c <= tris.len(),
                cells.len() == c,
                flat.len() == 3 * c,
                linked_prefix(tris, edges@, edges_cells@, flat),
                forall|i: int| 0 <= i < 3 * c ==> #[trigger] flat[i] == cells@[i / 3]@[i % 3],
            decreases tris.len() - c,
        {
            let t = triangles[c];
            proof {
                assert((3 * c) / 3 == c && (3 * c) % 3 == 0);
                assert((3 * c + 1) / 3 == c && (3 * c + 1) % 3 == 1);
                assert((3 * c + 2) / 3 == c && (3 * c + 2) % 3 == 2);
            }
            let e0 = add_edge(&mut edges, &mut edges_cells, t[0], t[1], c, Ghost(tris), Ghost(flat));
            proof {
                flat = flat.push(e0);
            }
            let e1 = add_edge(&mut edges, &mut edges_cells, t[1], t[2], c, Ghost(tris), Ghost(flat));
            proof {
                flat = flat.push(e1);
            }
            let e2 = add_edge(&mut edges, &mut edges_cells, t[2], t[0], c, Ghost(tris), Ghost(flat));
            proof {
                flat = flat.push(e2);
            }
            let cell = [e0, e1, e2];
            cells.push(cell);
            c += 1;
            proof {
                assert forall|i: int| 0 <= i < 3 * c implies #[trigger] flat[i] == cells@[i / 3]@[i % 3] by {
                    if i >= 3 * (c - 1) {
                        assert(i / 3 == c - 1);
                    }
                }
            }
        }
        let r = Navmesh { vertices, edges_vertices: edges, edges_cells, cells_edges: cells };
        proof {
            let n = tris.len() as int;
            assert(edge_keys(tris).take(3 * n) =~= edge_keys(tris));
            lemma_first_occurrences_from(edge_keys(tris));
            lemma_first_occurrences_distinct(edge_keys(tris));
            assert forall|i: int| 0 <= i < 3 * n implies #[trigger] r.cell_edge_at(i) == flat[i] by {}
            assert forall|e: int| 0 <= e < r.edges().len() implies (#[trigger] r.edges()[e]).0 < r.edges()[e].1
                && r.edges()[e].1 < r.vertices().len() by {
                assert(edge_keys(tris).contains(r.edges()[e]));
                let i = choose|i: int| 0 <= i < 3 * n && edge_keys(tris)[i] == r.edges()[e];
                assert(edge_start(tris, i) != edge_end(tris, i));
                assert(tris[i / 3]@[i % 3] < vertices.len());
                assert(tris[i / 3]@[(i % 3 + 1) % 3] < vertices.len());
            }
            assert forall|c: int, k: int| 0 <= c < r.cells().len() && 0 <= k < 3
                implies #[trigger] r.cells()[c]@[k] == flat[3 * c + k] by {
                assert((3 * c + k) / 3 == c && (3 * c + k) % 3 == k);
            }
            assert forall|e: int| 0 <= e < r.edges().len() && (#[trigger] r.edge_cells()[e]).0.is_some()
                implies r.edge_cells()[e].0.unwrap() < r.cells().len()
                    && exists|k: int| 0 <= k < 3 && r.cells()[r.edge_cells()[e].0.unwrap() as int]@[k] == CellEdge::Direct(e as usize) by {
                let cc = r.edge_cells()[e].0.unwrap();
                let i = choose|i: int| 0 <= i < flat.len() && flat[i] == CellEdge::Direct(e as usize) && i / 3 == cc;
                assert(r.cells()[cc as int]@[i % 3] == flat[i]);
            }
            assert forall|e: int| 0 <= e < r.edges().len() && (#[trigger] r.edge_cells()[e]).1.is_some()
                implies r.edge_cells()[e].1.unwrap() < r.cells().len()
                    && exists|k: int| 0 <= k < 3 && r.cells()[r.edge_cells()[e].1.unwrap() as int]@[k] == CellEdge::Indirect(e as usize) by {
                let cc = r.edge_cells()[e].1.unwrap();
                let i = choose|i: int| 0 <= i < flat.len() && flat[i] == CellEdge::Indirect(e as usize) && i / 3 == cc;
                assert(r.cells()[cc as int]@[i % 3] == flat[i]);
            }
        }
        r
    }
}

/// How many entries of `s` are `false`.
pub open spec fn count_false(s: Seq<bool>) -> nat
    decreases s.len(),
{
    if s.len() == 0 {
        0
    } else {
        count_false(s.drop_last()) + if s.last() { 0nat } else { 1nat }
    }
}

/// Setting a `false` entry to `true` leaves one `false` entry fewer.
proof fn lemma_count_false_update(s: Seq<bool>, i: int)
    requires
        0 <= i < s.len(),
        !s[i],
    ensures
        count_false(s.update(i, true)) + 1 == count_false(s),
    decreases s.len(),
{
    let t = s.update(i, true);
    if i < s.len() - 1 {
        assert(t.drop_last() =~= s.drop_last().update(i, true));
        lemma_count_false_update(s.drop_last(), i);
    } else {
        assert(t.drop_last() =~= s.drop_last());
    }
}

impl<V> Navmesh<V> {
    /// A point lies inside cell `c` or on its boundary, given `sides`: for
    /// each edge, the sign of the determinant of the edge (walked from its
    /// lower vertex index) and the point (taken from that vertex).
    pub open spec fn cell_contains(&self, sides: Seq<i8>, c: int) -> bool {
        forall|k: int| 0 <= k < 3 ==> {
            let ce = #[trigger] self.cells()[c]@[k];
            if ce.is_direct() {
                sides[ce.edge() as int] >= 0
            } else {
                sides[ce.edge() as int] <= 0
            }
        }
    }

    /// Across edge `k` of cell `c` lies cell `d`, on the side of the point.
    pub open spec fn step_via(&self, sides: Seq<i8>, c: int, k: int, d: int) -> bool {
        let e = self.cells()[c]@[k].edge() as int;
        ||| sides[e] >= 0 && self.edge_cells()[e].0.is_some() && self.edge_cells()[e].0.unwrap() as int == d
        ||| sides[e] <= 0 && self.edge_cells()[e].1.is_some() && self.edge_cells()[e].1.unwrap() as int == d
    }

    /// Across one of the edges of cell `c` lies cell `d`, on the side of the
    /// point.
    pub open spec fn step(&self, sides: Seq<i8>, c: int, d: int) -> bool {
        exists|k: int| 0 <= k < 3 && #[trigger] self.step_via(sides, c, k, d)
    }

    /// `path` is a walk from `origin`: each cell that the walk leaves does
    /// not hold the point, and the walk moves on to a cell across one of its
    /// edges, towards the point.
    pub open spec fn is_walk(&self, sides: Seq<i8>, origin: int, path: Seq<int>) -> bool {
        &&& path.len() >= 1
        &&& path[0] == origin
        &&& forall|j: int| 0 <= j < path.len() ==> 0 <= #[trigger] path[j] < self.cells().len()
        &&& forall|j: int| 0 <= j < path.len() - 1
            ==> !self.cell_contains(sides, #[trigger] path[j]) && self.step(sides, path[j], path[j + 1])
    }

    /// A walk from `origin` ends at cell `d`.
    pub open spec fn walk_reaches(&self, sides: Seq<i8>, origin: int, d: int) -> bool {
        exists|path: Seq<int>| self.is_walk(sides, origin, path) && path.last() == d
    }
}


/// Cell `j` of a walk from `origin` was visited, when the visited cells
/// hold `origin` and hold, for each visited cell without the point, every
/// cell one step away.
proof fn lemma_walk_stays_visited<V>(
    mesh: &Navmesh<V>,
    sides: Seq<i8>,
    origin: int,
    visited: Seq<bool>,
    path: Seq<int>,
    j: int,
)
    requires
        visited.len() == mesh.cells().len(),
        0 <= origin < visited.len(),
        visited[origin],
        forall|c: int, d: int|
            0 <= c < visited.len() && visited[c] && !mesh.cell_contains(sides, c) && #[trigger] mesh.step(sides, c, d)
                ==> visited[d],
        mesh.is_walk(sides, origin, path),
        0 <= j < path.len(),
    ensures
        visited[path[j]],
    decreases j,
{
    if j > 0 {
        lemma_walk_stays_visited(mesh, sides, origin, visited, path, j - 1);
        assert(!mesh.cell_contains(sides, path[j - 1]) && mesh.step(sides, path[j - 1], path[j]));
    }
}

impl<V> Navmesh<V> {
    /// Each cell edge names an edge, and each cell that an edge names is a
    /// cell of the mesh.
    pub open spec fn indices_in_range(&self) -> bool {
        &&& forall|c: int, k: int| 0 <= c < self.cells().len() && 0 <= k < 3 ==> (#[trigger] self.cells()[c]@[k]).edge() < self.edges().len()
        &&& self.edge_cells().len() == self.edges().len()
        &&& forall|e: int| 0 <= e < self.edges().len() && (#[trigger] self.edge_cells()[e]).0.is_some()
            ==> self.edge_cells()[e].0.unwrap() < self.cells().len()
        &&& forall|e: int| 0 <= e < self.edges().len() && (#[trigger] self.edge_cells()[e]).1.is_some()
            ==> self.edge_cells()[e].1.unwrap() < self.cells().len()
    }

    /// The state of the walk from `o`: `o` and every cell on the stack were
    /// visited, each visited cell is reached by a walk, and each visited cell
    /// off the stack does not hold the point and has every cell one step
    /// away visited.
    #[verifier::opaque]
    spec fn search_inv(&self, sides: Seq<i8>, o: int, visited: Seq<bool>, stack: Seq<usize>) -> bool {
        &&& visited.len() == self.cells().len()
        &&& 0 <= o < visited.len()
        &&& visited[o]
        &&& stack.no_duplicates()
        &&& forall|j: int| 0 <= j < stack.len() ==> #[trigger] stack[j] < visited.len() && visited[stack[j] as int]
        &&& forall|x: int| 0 <= x < visited.len() && #[trigger] visited[x] ==> self.walk_reaches(sides, o, x)
        &&& forall|x: int, d: int|
            0 <= x < visited.len() && visited[x] && !stack.contains(x as usize) && #[trigger] self.step(sides, x, d)
                ==> visited[d]
        &&& forall|x: int| 0 <= x < visited.len() && visited[x] && !stack.contains(x as usize)
            ==> !#[trigger] self.cell_contains(sides, x)
    }

    /// Whether cell `c` holds the point whose `sides` are given.
    fn cell_holds(&self, sides: &Vec<i8>, c: usize) -> (r: bool)
        requires
            self.indices_in_range(),
            sides.len() == self.edges().len(),
            c < self.cells().len(),
        ensures
            r == self.cell_contains(sides@, c as int),
    {
        let cell = self.cells_edges[c];
        let mut k: usize = 0;
        let mut inside = true;
        while k < 3
            invariant
                self.indices_in_range(),
                sides.len() == self.edges().len(),
                c < self.cells().len(),
                cell == self.cells()[c as int],
                k <= 3,
                inside == forall|m: int| 0 <= m < k ==> {
                    let ce = #[trigger] self.cells()[c as int]@[m];
                    if ce.is_direct() {
                        sides@[ce.edge() as int] >= 0
                    } else {
                        sides@[ce.edge() as int] <= 0
                    }
                },
            decreases 3 - k,
        {
            let ok = match cell[k] {
                CellEdge::Direct(e) => sides[e] >= 0,
                CellEdge::Indirect(e) => sides[e] <= 0,
            };
            inside = inside && ok;
            k += 1;
        }
        inside
    }

    /// Marks cell `d`, one step from cell `c` across its edge `k`, as
    /// visited and puts it on the stack, unless it was visited already.
    fn visit(
        &self,
        sides: &Vec<i8>,
        visited: &mut Vec<bool>,
        stack: &mut Vec<usize>,
        c: usize,
        d: usize,
        Ghost(o): Ghost<int>,
        Ghost(k): Ghost<int>,
    )
        requires
            self.indices_in_range(),
            sides.len() == self.edges().len(),
            old(visited).len() == self.cells().len(),
            c < self.cells().len(),
            d < self.cells().len(),
            0 <= k < 3,
            self.step_via(sides@, c as int, k, d as int),
            !self.cell_contains(sides@, c as int),
            self.walk_reaches(sides@, o, c as int),
            old(stack)@.no_duplicates(),
            forall|j: int| 0 <= j < old(stack).len() ==> #[trigger] old(stack)@[j] < self.cells().len() && old(visited)@[old(stack)@[j] as int],
            forall|x: int| 0 <= x < self.cells().len() && #[trigger] old(visited)@[x] ==> self.walk_reaches(sides@, o, x),
        ensures
            final(visited).len() == old(visited).len(),
            final(visited)@ == old(visited)@.update(d as int, true),
            forall|x: int| 0 <= x < final(visited).len() && #[trigger] final(visited)@[x] && !final(stack)@.contains(x as usize)
                ==> old(visited)@[x] && !old(stack)@.contains(x as usize),
            final(stack)@.no_duplicates(),
            forall|j: int| 0 <= j < final(stack).len() ==> #[trigger] final(stack)@[j] < self.cells().len() && final(visited)@[final(stack)@[j] as int],
            forall|x: int| 0 <= x < self.cells().len() && #[trigger] final(visited)@[x] ==> self.walk_reaches(sides@, o, x),
            2 * count_false(final(visited)@) + final(stack).len() <= 2 * count_false(old(visited)@) + old(stack).len(),
    {
        proof {
            assert(self.step(sides@, c as int, d as int));
            let path = choose|path: Seq<int>| self.is_walk(sides@, o, path) && path.last() == c as int;
            let longer = path.push(d as int);
            assert(self.is_walk(sides@, o, longer));
            assert(longer.last() == d as int);
        }
        let ghost v0 = visited@;
        if !visited[d] {
            proof {
                lemma_count_false_update(visited@, d as int);
            }
            let ghost old_stack = stack@;
            visited.set(d, true);
            stack.push(d);
            proof {
                assert(stack@[stack.len() - 1] == d);
                assert forall|x: int| 0 <= x < visited.len() && #[trigger] visited@[x] && !stack@.contains(x as usize)
                    implies !old_stack.contains(x as usize) by {
                    if old_stack.contains(x as usize) {
                        let j = choose|j: int| 0 <= j < old_stack.len() && old_stack[j] == x as usize;
                        assert(stack@[j] == x as usize);
                    }
                }
                assert forall|j: int| 0 <= j < old_stack.len() implies #[trigger] old_stack[j] == stack@[j] by {}
                assert forall|j: int| 0 <= j < stack.len() implies #[trigger] stack@[j] < self.cells().len() && visited@[stack@[j] as int] by {
                    if j < old_stack.len() {
                        assert(old_stack[j] == stack@[j]);
                    }
                }
                assert(stack@.no_duplicates()) by {
                    assert forall|i: int, j: int| 0 <= i < stack.len() && 0 <= j < stack.len() && i != j implies stack@[i] != stack@[j] by {
                        if i < old_stack.len() && j < old_stack.len() {
                            assert(old_stack[i] == stack@[i] && old_stack[j] == stack@[j]);
                        } else if i < old_stack.len() {
                            assert(old_stack[i] == stack@[i]);
                            assert(v0[old_stack[i] as int]);
                        } else if j < old_stack.len() {
                            assert(old_stack[j] == stack@[j]);
                            assert(v0[old_stack[j] as int]);
                        }
                    }
                }
                assert forall|x: int| 0 <= x < self.cells().len() && #[trigger] visited@[x] implies self.walk_reaches(sides@, o, x) by {
                    if x != d as int {
                        assert(v0[x]);
                    }
                }
            }
        } else {
            proof {
                assert(visited@.update(d as int, true) =~= visited@);
            }
        }
    }

    /// Visits the cells across edge `k` of cell `c` that lie on the side of
    /// the point.
    fn visit_across(
        &self,
        sides: &Vec<i8>,
        visited: &mut Vec<bool>,
        stack: &mut Vec<usize>,
        c: usize,
        k: usize,
        Ghost(o): Ghost<int>,
    )
        requires
            self.indices_in_range(),
            sides.len() == self.edges().len(),
            old(visited).len() == self.cells().len(),
            c < self.cells().len(),
            k < 3,
            !self.cell_contains(sides@, c as int),
            self.walk_reaches(sides@, o, c as int),
            old(stack)@.no_duplicates(),
            forall|j: int| 0 <= j < old(stack).len() ==> #[trigger] old(stack)@[j] < self.cells().len() && old(visited)@[old(stack)@[j] as int],
            forall|x: int| 0 <= x < self.cells().len() && #[trigger] old(visited)@[x] ==> self.walk_reaches(sides@, o, x),
        ensures
            final(visited).len() == old(visited).len(),
            forall|x: int| 0 <= x < final(visited).len() && #[trigger] old(visited)@[x] ==> final(visited)@[x],
            forall|d: int| #[trigger] self.step_via(sides@, c as int, k as int, d) ==> final(visited)@[d],
            forall|x: int| 0 <= x < final(visited).len() && #[trigger] final(visited)@[x] && !final(stack)@.contains(x as usize)
                ==> old(visited)@[x] && !old(stack)@.contains(x as usize),
            final(stack)@.no_duplicates(),
            forall|j: int| 0 <= j < final(stack).len() ==> #[trigger] final(stack)@[j] < self.cells().len() && final(visited)@[final(stack)@[j] as int],
            forall|x: int| 0 <= x < self.cells().len() && #[trigger] final(visited)@[x] ==> self.walk_reaches(sides@, o, x),
            2 * count_false(final(visited)@) + final(stack).len() <= 2 * count_false(old(visited)@) + old(stack).len(),
    {
        let e = match self.cells_edges[c][k] {
            CellEdge::Direct(e) => e,
            CellEdge::Indirect(e) => e,
        };
        assert(e == self.cells()[c as int]@[k as int].edge());
        let (left, right) = self.edges_cells[e];
        let side = sides[e];
        if side >= 0 {
            if let Some(d) = left {
                assert(self.step_via(sides@, c as int, k as int, d as int));
                self.visit(sides, visited, stack, c, d, Ghost(o), Ghost(k as int));
            }
        }
        if side <= 0 {
            if let Some(d) = right {
                assert(self.step_via(sides@, c as int, k as int, d as int));
                self.visit(sides, visited, stack, c, d, Ghost(o), Ghost(k as int));
            }
        }
    }

    /// Takes the last cell off the stack; when it does not hold the point,
    /// visits the cells across its edges that lie on the side of the point.
    /// Returns the cell when it holds the point.
    fn search_step(
        &self,
        sides: &Vec<i8>,
        visited: &mut Vec<bool>,
        stack: &mut Vec<usize>,
        Ghost(o): Ghost<int>,
    ) -> (r: Option<usize>)
        requires
            self.indices_in_range(),
            sides.len() == self.edges().len(),
            old(stack).len() > 0,
            self.search_inv(sides@, o, old(visited)@, old(stack)@),
        ensures
            r matches Some(c) ==> c < self.cells().len() && self.cell_contains(sides@, c as int)
                && self.walk_reaches(sides@, o, c as int),
            r is None ==> self.search_inv(sides@, o, final(visited)@, final(stack)@),
            r is None ==> 2 * count_false(final(visited)@) + final(stack).len() < 2 * count_false(old(visited)@) + old(stack).len(),
            final(visited).len() == old(visited).len(),
    {
        reveal(Navmesh::search_inv);
        let ghost v0 = visited@;
        let ghost s0 = stack@;
        let c = stack.pop().unwrap();
        proof {
            assert(stack@ =~= s0.drop_last());
            assert(s0.last() == c);
            assert(s0[s0.len() - 1] == c);
            assert(forall|j: int| 0 <= j < stack.len() ==> #[trigger] stack@[j] == s0[j]);
            assert(!stack@.contains(c)) by {
                if stack@.contains(c) {
                    let j = choose|j: int| 0 <= j < stack.len() && stack@[j] == c;
                    assert(s0[j] == s0[s0.len() - 1]);
                }
            }
            assert(v0[c as int]);
        }
        if self.cell_holds(sides, c) {
            return Some(c);
        }
        let ghost s1 = stack@;
        self.visit_across(sides, visited, stack, c, 0, Ghost(o));
        let ghost v2 = visited@;
        let ghost s2 = stack@;
        self.visit_across(sides, visited, stack, c, 1, Ghost(o));
        let ghost v3 = visited@;
        let ghost s3 = stack@;
        self.visit_across(sides, visited, stack, c, 2, Ghost(o));
        proof {
            let n = v0.len() as int;
            assert forall|x: int| 0 <= x < n && #[trigger] v0[x] implies visited@[x] by {
                assert(v2[x]);
                assert(v3[x]);
            }
            assert forall|x: int| 0 <= x < n && #[trigger] visited@[x] && !stack@.contains(x as usize)
                implies v0[x] && !s1.contains(x as usize) by {
                assert(v3[x] && !s3.contains(x as usize));
                assert(v2[x] && !s2.contains(x as usize));
            }
            assert forall|m: int, d: int| 0 <= m < 3 && #[trigger] self.step_via(sides@, c as int, m, d) implies visited@[d] by {
                if m == 0 {
                    assert(v2[d]);
                    assert(0 <= d < n) by {
                        let e = self.cells()[c as int]@[m].edge() as int;
                        assert(self.edge_cells()[e].0.is_some() ==> self.edge_cells()[e].0.unwrap() < n);
                        assert(self.edge_cells()[e].1.is_some() ==> self.edge_cells()[e].1.unwrap() < n);
                    }
                    assert(v3[d]);
                } else if m == 1 {
                    assert(v3[d]);
                }
            }
            assert forall|x: int| 0 <= x < n && x != c && #[trigger] v0[x] && !s1.contains(x as usize)
                implies !s0.contains(x as usize) by {
                if s0.contains(x as usize) {
                    let j = choose|j: int| 0 <= j < s0.len() && s0[j] == x as usize;
                    if j == s0.len() - 1 {
                        assert(x == c);
                    } else {
                        assert(s1[j] == x as usize);
                    }
                }
            }
            assert forall|x: int, d: int|
                0 <= x < n && visited@[x] && !stack@.contains(x as usize) && #[trigger] self.step(sides@, x, d)
                    implies visited@[d] by {
                let m = choose|m: int| 0 <= m < 3 && #[trigger] self.step_via(sides@, x, m, d);
                if x != c {
                    assert(v0[x] && !s1.contains(x as usize));
                    let e = self.cells()[x]@[m].edge() as int;
                    assert(0 <= e < self.edges().len());
                    assert(self.edge_cells()[e].0.is_some() ==> self.edge_cells()[e].0.unwrap() < n);
                    assert(self.edge_cells()[e].1.is_some() ==> self.edge_cells()[e].1.unwrap() < n);
                    assert(v0[d]);
                }
            }
            assert forall|x: int| 0 <= x < n && visited@[x] && !stack@.contains(x as usize)
                implies !#[trigger] self.cell_contains(sides@, x) by {
                if x != c {
                    assert(v0[x] && !s1.contains(x as usize));
                }
            }
            assert(visited@[o]);
        }
        None
    }

    /// The cell that holds a point, found by walking the mesh from
    /// `origin_cell_index` (the first cell when `None`) across the edges
    /// beyond which the point lies, each cell at most once. `sides` holds,
    /// for each edge, the sign of the determinant of the edge (walked from
    /// its lower vertex index) and the point (taken from that vertex).
    /// `None` when no walk from the origin reaches a cell that holds the
    /// point, and when the mesh has no cell.
    pub fn locate(&self, sides: &Vec<i8>, origin_cell_index: Option<usize>) -> (r: Option<usize>)
        requires
            self.wf(),
            sides.len() == self.edges().len(),
            origin_cell_index matches Some(o) ==> o < self.cells().len(),
        ensures
            self.cells().len() == 0 ==> r is None,
            self.cells().len() > 0 ==> ({
                let o = match origin_cell_index {
                    Some(o) => o as int,
                    None => 0,
                };
                &&& self.cell_contains(sides@, o) ==> r == Some(o as usize)
                &&& r matches Some(c) ==> self.walk_reaches(sides@, o, c as int)
                &&& r is None ==> forall|path: Seq<int>| #[trigger] self.is_walk(sides@, o, path)
                    ==> !self.cell_contains(sides@, path.last())
            }),
            r matches Some(c) ==> c < self.cells().len() && self.cell_contains(sides@, c as int),
    {
        assert(self.indices_in_range());
        let n = self.cells_edges.len();
        if n == 0 {
            return None;
        }
        let origin: usize = match origin_cell_index {
            Some(o) => o,
            None => 0,
        };
        let ghost o = origin as int;
        if self.cell_holds(sides, origin) {
            proof {
                assert(self.is_walk(sides@, o, seq![o]));
                assert(seq![o].last() == o);
            }
            return Some(origin);
        }
        let mut visited: Vec<bool> = Vec::new();
        let mut i: usize = 0;
        while i < n
            invariant
                i <= n,
                visited.len() == i,
                o == origin as int,
                visited@ == Seq::new(i as nat, |m: int| m == o),
            decreases n - i,
        {
            let ghost prev = visited@;
            visited.push(i == origin);
            proof {
                assert forall|m: int| 0 <= m < i + 1 implies #[trigger] visited@[m] == (m == o) by {
                    if m < i {
                        assert(visited@[m] == prev[m]);
                    }
                }
                assert(visited@ =~= Seq::new((i + 1) as nat, |m: int| m == o));
            }
            i += 1;
        }
        let mut stack: Vec<usize> = Vec::new();
        stack.push(origin);
        proof {
            reveal(Navmesh::search_inv);
            assert(self.is_walk(sides@, o, seq![o]));
            assert(seq![o].last() == o);
            assert(stack@ == seq![origin]);
            assert forall|x: int| 0 <= x < n && #[trigger] visited@[x] implies stack@.contains(x as usize) by {
                assert(stack@[0] == origin);
            }
            assert(self.search_inv(sides@, o, visited@, stack@));
        }
        while stack.len() > 0
            invariant
                self.indices_in_range(),
                sides.len() == self.edges().len(),
                n == self.cells().len(),
                0 <= o < n,
                o == (match origin_cell_index {
                    Some(x) => x as int,
                    None => 0,
                }),
                !self.cell_contains(sides@, o),
                self.search_inv(sides@, o, visited@, stack@),
            decreases 2 * count_false(visited@) + stack.len(),
        {
            let found = self.search_step(sides, &mut visited, &mut stack, Ghost(o));
            if found.is_some() {
                return found;
            }
        }
        proof {
            reveal(Navmesh::search_inv);
            assert forall|path: Seq<int>| #[trigger] self.is_walk(sides@, o, path)
                implies !self.cell_contains(sides@, path.last()) by {
                lemma_walk_stays_visited(self, sides@, o, visited@, path, path.len() - 1);
                assert(!stack@.contains(path.last() as usize));
            }
        }
        None
    }
}

/// The decimal digits of `n`, in ASCII.
pub open spec fn decimal(n: nat) -> Seq<u8>
    decreases n,
{
    if n < 10 {
        seq![(48 + n) as u8]
    } else {
        decimal(n / 10).push((48 + n % 10) as u8)
    }
}

/// The Wavefront OBJ line of a triangular face with 1-based vertex numbers
/// `a`, `b` and `c`: `f a b c` and a line feed.
pub open spec fn face_line(a: nat, b: nat, c: nat) -> Seq<u8> {
    seq![102u8, 32u8] + decimal(a) + seq![32u8] + decimal(b) + seq![32u8] + decimal(c) + seq![10u8]
}

/// Appends the decimal digits of `n` to `out`.
fn push_decimal(out: &mut Vec<u8>, n: usize)
    ensures
        final(out)@ == old(out)@ + decimal(n as nat),
    decreases n,
{
    if n >= 10 {
        push_decimal(out, n / 10);
    }
    out.push((48 + n % 10) as u8);
    proof {
        if n < 10 {
            assert(old(out)@ + decimal(n as nat) =~= old(out)@.push((48 + n) as u8));
        } else {
            assert(old(out)@ + decimal(n as nat) =~= (old(out)@ + decimal((n / 10) as nat)).push((48 + n % 10) as u8));
        }
    }
}

/// Appends the face line of vertex numbers `a`, `b` and `c` to `out`.
fn push_face_line(out: &mut Vec<u8>, a: usize, b: usize, c: usize)
    ensures
        final(out)@ == old(out)@ + face_line(a as nat, b as nat, c as nat),
{
    let ghost start = out@;
    out.push(102u8);
    out.push(32u8);
    push_decimal(out, a);
    out.push(32u8);
    push_decimal(out, b);
    out.push(32u8);
    push_decimal(out, c);
    out.push(10u8);
    assert(out@ =~= start + face_line(a as nat, b as nat, c as nat));
}

impl<V> Navmesh<V> {
    /// The face lines of the first `m` cells, each cell's corners numbered
    /// from 1.
    pub open spec fn faces_text(&self, m: int) -> Seq<u8>
        decreases m,
    {
        if m <= 0 {
            Seq::empty()
        } else {
            self.faces_text(m - 1) + self.cell_face_line(m - 1)
        }
    }

    /// The face line of cell `c`, its corners numbered from 1.
    #[verifier::opaque]
    pub open spec fn cell_face_line(&self, c: int) -> Seq<u8> {
        face_line(
            (self.corner(c, 0) + 1) as nat,
            (self.corner(c, 1) + 1) as nat,
            (self.corner(c, 2) + 1) as nat,
        )
    }

    pub fn count_cells(&self) -> (r: usize)
        ensures
            r == self.cells().len(),
    {
        self.cells_edges.len()
    }

    pub fn get_vertices(&self) -> (r: &[V])
        ensures
            r@ == self.vertices(),
    {
        self.vertices.as_slice()
    }

    pub fn get_edges(&self) -> (r: &[(usize, usize)])
        ensures
            r@ == self.edges(),
    {
        self.edges_vertices.as_slice()
    }

    pub fn get_edges_cells(&self) -> (r: &[(Option<usize>, Option<usize>)])
        ensures
            r@ == self.edge_cells(),
    {
        self.edges_cells.as_slice()
    }

    pub fn get_cells_edges(&self) -> (r: &[[CellEdge; 3]])
        ensures
            r@ == self.cells(),
    {
        self.cells_edges.as_slice()
    }

    /// Each cell edge names an edge, and each edge joins two vertices.
    pub open spec fn corners_in_range(&self) -> bool {
        &&& forall|c: int, k: int| 0 <= c < self.cells().len() && 0 <= k < 3 ==> (#[trigger] self.cells()[c]@[k]).edge() < self.edges().len()
        &&& forall|e: int| 0 <= e < self.edges().len() ==> (#[trigger] self.edges()[e]).0 < self.edges()[e].1
        &&& forall|e: int| 0 <= e < self.edges().len() ==> (#[trigger] self.edges()[e]).1 < self.vertices().len()
    }

    /// The vertex index at corner `k` of cell `c`.
    fn corner_index(&self, c: usize, k: usize) -> (r: usize)
        requires
            self.corners_in_range(),
            c < self.cells().len(),
            k < 3,
        ensures
            r == self.corner(c as int, k as int),
            r < self.vertices().len(),
    {
        let ce = self.cells_edges[c][k];
        assert(ce == self.cells()[c as int]@[k as int]);
        match ce {
            CellEdge::Direct(e) => self.edges_vertices[e].0,
            CellEdge::Indirect(e) => self.edges_vertices[e].1,
        }
    }

    /// The vertex indices of cell `cell_index`, in counter-clockwise order;
    /// `None` when there is no such cell.
    pub fn cell_vertex_indices(&self, cell_index: usize) -> (r: Option<[usize; 3]>)
        requires
            self.wf(),
        ensures
            cell_index >= self.cells().len() ==> r is None,
            cell_index < self.cells().len() ==> (r matches Some(t) && t@ == seq![
                self.corner(cell_index as int, 0),
                self.corner(cell_index as int, 1),
                self.corner(cell_index as int, 2),
            ]),
    {
        assert(self.corners_in_range());
        if cell_index >= self.cells_edges.len() {
            return None;
        }
        let t = [
            self.corner_index(cell_index, 0),
            self.corner_index(cell_index, 1),
            self.corner_index(cell_index, 2),
        ];
        assert(t@ =~= seq![
            self.corner(cell_index as int, 0),
            self.corner(cell_index as int, 1),
            self.corner(cell_index as int, 2),
        ]);
        Some(t)
    }

    /// The face lines of the mesh in Wavefront OBJ form, one `f a b c` line
    /// per cell with its vertices numbered from 1.
    pub fn render_faces_obj(&self) -> (r: Vec<u8>)
        requires
            self.wf(),
        ensures
            r@ == self.faces_text(self.cells().len() as int),
    {
        assert(self.corners_in_range());
        let mut out: Vec<u8> = Vec::new();
        let mut c: usize = 0;
        let n = self.cells_edges.len();
        let nv = self.vertices.len();
        while c < n
            invariant
                n == self.cells().len(),
                nv == self.vertices().len(),
                self.corners_in_range(),
                c <= self.cells().len(),
                out@ == self.faces_text(c as int),
            decreases self.cells().len() - c,
        {
            let a = self.corner_index(c, 0);
            let b = self.corner_index(c, 1);
            let d = self.corner_index(c, 2);
            assert(a < usize::MAX && b < usize::MAX && d < usize::MAX);
            push_face_line(&mut out, a + 1, b + 1, d + 1);
            proof {
                reveal(Navmesh::cell_face_line);
                assert(self.faces_text(c + 1) == self.faces_text(c as int) + self.cell_face_line(c as int));
            }
            c += 1;
        }
        out
    }
}

impl<V: Copy> Navmesh<V> {
    /// The vertices of cell `cell_index`, in counter-clockwise order; `None`
    /// when there is no such cell.
    pub fn get_cell(&self, cell_index: usize) -> (r: Option<[V; 3]>)
        requires
            self.wf(),
        ensures
            cell_index >= self.cells().len() ==> r is None,
            cell_index < self.cells().len() ==> (r matches Some(t) && t@ == seq![
                self.vertices()[self.corner(cell_index as int, 0) as int],
                self.vertices()[self.corner(cell_index as int, 1) as int],
                self.vertices()[self.corner(cell_index as int, 2) as int],
            ]),
    {
        assert(self.corners_in_range());
        if cell_index >= self.cells_edges.len() {
            return None;
        }
        let a = self.corner_index(cell_index, 0);
        let b = self.corner_index(cell_index, 1);
        let d = self.corner_index(cell_index, 2);
        let t = [self.vertices[a], self.vertices[b], self.vertices[d]];
        assert(t@ =~= seq![
            self.vertices()[self.corner(cell_index as int, 0) as int],
            self.vertices()[self.corner(cell_index as int, 1) as int],
            self.vertices()[self.corner(cell_index as int, 2) as int],
        ]);
        Some(t)
    }
}

} // verus!
