use vstd::prelude::*;

verus! {

/// Successor of corner `c` inside its triangle: corners `3k, 3k+1, 3k+2` form one face.
pub open spec fn next_of(c: int) -> int {
    if c % 3 == 2 {
        c - 2
    } else {
        c + 1
    }
}

/// Predecessor of corner `c` inside its triangle.
pub open spec fn prev_of(c: int) -> int {
    if c % 3 == 0 {
        c + 2
    } else {
        c - 1
    }
}

/// Index of the next corner of the same triangle.
pub fn next_corner(c: usize) -> (r: usize)
    requires
        c < usize::MAX,
    ensures
        r == next_of(c as int),
{
    if c % 3 == 2 {
        c - 2
    } else {
        c + 1
    }
}

/// Index of the previous corner of the same triangle.
pub fn previous_corner(c: usize) -> (r: usize)
    requires
        c < usize::MAX - 2,
    ensures
        r == prev_of(c as int),
{
    if c % 3 == 0 {
        c + 2
    } else {
        c - 1
    }
}

/// In a flat index list, corner `d` lies across the edge of corner `c`: the half-edge
/// of `d` runs between the same two vertices as that of `c`, in reverse direction.
pub open spec fn reverse_match(ind: Seq<usize>, c: int, d: int) -> bool {
    ind[next_of(d)] == ind[prev_of(c)] && ind[prev_of(d)] == ind[next_of(c)]
}

pub open spec fn indices_in_range(num_vertices: int, ind: Seq<usize>) -> bool {
    forall|i: int| 0 <= i < ind.len() ==> ind[i] < num_vertices
}

/// No triangle names one vertex twice.
pub open spec fn faces_nondegenerate(ind: Seq<usize>) -> bool {
    forall|c: int| 0 <= c < ind.len() ==> #[trigger] ind[c] != ind[next_of(c)]
}

/// Every half-edge has at most one reverse half-edge.
pub open spec fn half_edges_manifold(ind: Seq<usize>) -> bool {
    forall|c: int, d1: int, d2: int|
        0 <= c < ind.len() && 0 <= d1 < ind.len() && 0 <= d2 < ind.len() && #[trigger] reverse_match(
            ind,
            c,
            d1,
        ) && #[trigger] reverse_match(ind, c, d2) ==> d1 == d2
}

/// The inputs from which a corner table can be built.
pub open spec fn valid_mesh_input(num_vertices: int, ind: Seq<usize>) -> bool {
    &&& ind.len() % 3 == 0
    &&& indices_in_range(num_vertices, ind)
    &&& faces_nondegenerate(ind)
    &&& half_edges_manifold(ind)
}

/// Why a corner table could not be built.
#[derive(Clone, Copy, Debug, PartialEq, Eq)]
pub enum MeshError {
    /// The index list is not a list of triangles over the given vertices, or an
    /// edge is shared by more than two triangles.
    InvalidTopology,
}

/// One vertex-incidence of one triangle.
#[derive(Clone, Copy, Debug, PartialEq, Eq)]
pub struct Corner {
    pub vertex_index: usize,
    pub opposite_corner_index: Option<usize>,
    pub deleted: bool,
}

impl Corner {
    pub fn get_vertex_index(&self) -> (r: usize)
        ensures
            r == self.vertex_index,
    {
        self.vertex_index
    }

    pub fn get_opposite_corner_index(&self) -> (r: Option<usize>)
        ensures
            r == self.opposite_corner_index,
    {
        self.opposite_corner_index
    }

    pub fn is_deleted(&self) -> (r: bool)
        ensures
            r == self.deleted,
    {
        self.deleted
    }
}

/// A vertex: its position, one corner that refers to it, and whether it was removed.
#[derive(Clone, Copy, Debug, PartialEq)]
pub struct Vertex<P> {
    pub position: P,
    pub corner_index: usize,
    pub deleted: bool,
}

impl<P> Vertex<P> {
    pub fn get_corner_index(&self) -> (r: usize)
        ensures
            r == self.corner_index,
    {
        self.corner_index
    }

    pub fn get_position(&self) -> (r: &P)
        ensures
            *r == self.position,
    {
        &self.position
    }

    pub fn is_deleted(&self) -> (r: bool)
        ensures
            r == self.deleted,
    {
        self.deleted
    }
}

/// Indexed triangle mesh: one corner per triangle-vertex incidence.
pub struct CornerTable<P> {
    pub vertices: Vec<Vertex<P>>,
    pub corners: Vec<Corner>,
}

impl<P> CornerTable<P> {
    pub open spec fn num_corners(&self) -> int {
        self.corners@.len() as int
    }

    /// Vertex of corner `c`.
    pub open spec fn vert(&self, c: int) -> int {
        self.corners@[c].vertex_index as int
    }

    pub open spec fn opp(&self, c: int) -> Option<usize> {
        self.corners@[c].opposite_corner_index
    }

    /// The opposite relation is symmetric and pairs each half-edge with its reverse.
    pub open spec fn opposites_consistent(&self) -> bool {
        forall|c: int|
            0 <= c < self.num_corners() && (#[trigger] self.opp(c)).is_some() ==> {
                let o = self.opp(c).unwrap() as int;
                &&& 0 <= o < self.num_corners()
                &&& self.opp(o) == Some(c as usize)
                &&& self.vert(next_of(o)) == self.vert(prev_of(c))
                &&& self.vert(prev_of(o)) == self.vert(next_of(c))
                &&& self.corners@[o].deleted == self.corners@[c].deleted
            }
    }

    /// Each live vertex refers to a live corner of its own.
    pub open spec fn vertex_corners_consistent(&self) -> bool {
        forall|v: int|
            0 <= v < self.vertices@.len() && !(#[trigger] self.vertices@[v]).deleted ==> {
                let c = self.vertices@[v].corner_index as int;
                &&& 0 <= c < self.num_corners()
                &&& self.vert(c) == v
                &&& !self.corners@[c].deleted
            }
    }

    /// Well-formedness of the table.
    pub open spec fn wf(&self) -> bool {
        &&& self.corners@.len() % 3 == 0
        &&& self.corners@.len() < usize::MAX - 2
        &&& self.links_wf()
    }

    /// The links between corners and vertices are consistent.
    #[verifier::opaque]
    pub open spec fn links_wf(&self) -> bool {
        &&& forall|c: int|
            0 <= c < self.num_corners() ==> (#[trigger] self.corners@[c]).vertex_index
                < self.vertices@.len()
        &&& forall|c: int|
            0 <= c < self.num_corners() ==> (#[trigger] self.corners@[c]).deleted
                == self.corners@[next_of(c)].deleted
        &&& self.opposites_consistent()
        &&& self.vertex_corners_consistent()
    }

    /// The table holds exactly what `from_vertices_and_indices` builds from `vs` and `ind`.
    pub open spec fn built_from(&self, vs: Seq<P>, ind: Seq<usize>) -> bool {
        &&& self.vertices@.len() == vs.len()
        &&& self.corners@.len() == ind.len()
        &&& forall|v: int| 0 <= v < vs.len() ==> (#[trigger] self.vertices@[v]).position == vs[v]
        &&& forall|c: int|
            0 <= c < ind.len() ==> (#[trigger] self.corners@[c]).vertex_index == ind[c]
                && !self.corners@[c].deleted
        &&& forall|c: int|
            0 <= c < ind.len() ==> match #[trigger] self.opp(c) {
                Some(o) => 0 <= o < ind.len() && reverse_match(ind, c, o as int),
                None => forall|d: int| 0 <= d < ind.len() ==> !reverse_match(ind, c, d),
            }
        &&& forall|v: int|
            0 <= v < vs.len() ==> {
                let vx = #[trigger] self.vertices@[v];
                if vx.deleted {
                    forall|c: int| 0 <= c < ind.len() ==> ind[c] != v
                } else {
                    &&& vx.corner_index < ind.len()
                    &&& ind[vx.corner_index as int] == v
                    &&& forall|c: int| vx.corner_index < c < ind.len() ==> ind[c] != v
                }
            }
    }
}

impl<P> CornerTable<P> {
    /// The opposite of a corner lies in the table, across the same edge, and has it as
    /// its own opposite.
    pub proof fn lemma_opposite(&self, c: int)
        requires
            self.wf(),
            0 <= c < self.num_corners(),
            self.opp(c) is Some,
        ensures
            ({
                let o = self.opp(c).unwrap() as int;
                &&& 0 <= o < self.num_corners()
                &&& self.opp(o) == Some(c as usize)
                &&& self.vert(next_of(o)) == self.vert(prev_of(c))
                &&& self.vert(prev_of(o)) == self.vert(next_of(c))
                &&& self.corners@[o].deleted == self.corners@[c].deleted
            }),
    {
        reveal(CornerTable::links_wf);
    }

    /// Each corner refers to a vertex of the table, and a face is deleted as a whole.
    pub proof fn lemma_corner(&self, c: int)
        requires
            self.wf(),
            0 <= c < self.num_corners(),
        ensures
            0 <= self.vert(c) < self.vertices@.len(),
            self.corners@[c].deleted == self.corners@[next_of(c)].deleted,
    {
        reveal(CornerTable::links_wf);
    }

    /// A live vertex refers to a live corner of its own.
    pub proof fn lemma_vertex(&self, v: int)
        requires
            self.wf(),
            0 <= v < self.vertices@.len(),
            !self.vertices@[v].deleted,
        ensures
            0 <= self.vertices@[v].corner_index < self.num_corners(),
            self.vert(self.vertices@[v].corner_index as int) == v,
            !self.corners@[self.vertices@[v].corner_index as int].deleted,
    {
        reveal(CornerTable::links_wf);
    }
}

impl<P> CornerTable<P> {
    /// The vertex at `index`, or `None` past the end.
    pub fn get_vertex(&self, index: usize) -> (r: Option<&Vertex<P>>)
        ensures
            index < self.vertices@.len() ==> r == Some(&self.vertices@[index as int]),
            index >= self.vertices@.len() ==> r is None,
    {
        if index < self.vertices.len() {
            Some(&self.vertices[index])
        } else {
            None
        }
    }

    /// The corner at `index`, or `None` past the end.
    pub fn get_corner(&self, index: usize) -> (r: Option<&Corner>)
        ensures
            index < self.corners@.len() ==> r == Some(&self.corners@[index as int]),
            index >= self.corners@.len() ==> r is None,
    {
        if index < self.corners.len() {
            Some(&self.corners[index])
        } else {
            None
        }
    }

    /// The three vertices of the face that starts at corner `face`.
    pub fn face_vertices(&self, face: usize) -> (r: (usize, usize, usize))
        requires
            self.wf(),
            face < self.corners@.len(),
            face % 3 == 0,
        ensures
            r.0 == self.vert(face as int),
            r.1 == self.vert(face + 1),
            r.2 == self.vert(face + 2),
    {
        (
            self.corners[face].vertex_index,
            self.corners[face + 1].vertex_index,
            self.corners[face + 2].vertex_index,
        )
    }

    /// Whether the edge that corner `corner` stands for lies on the boundary.
    pub fn is_edge_on_boundary(&self, corner: usize) -> (r: bool)
        requires
            corner < self.corners@.len(),
        ensures
            r == (self.opp(corner as int) is None),
    {
        self.corners[corner].opposite_corner_index.is_none()
    }

    /// Number of live vertices.
    pub fn vertex_count(&self) -> (r: usize)
        ensures
            r == live_vertex_count(self.vertices@),
    {
        let mut count: usize = 0;
        let mut i: usize = 0;
        while i < self.vertices.len()
            invariant
                0 <= i <= self.vertices@.len(),
                count <= i,
                count == live_vertex_count(self.vertices@.take(i as int)),
            decreases self.vertices@.len() - i,
        {
            assert(self.vertices@.take(i + 1).drop_last() =~= self.vertices@.take(i as int));
            if !self.vertices[i].deleted {
                count = count + 1;
            }
            i = i + 1;
        }
        assert(self.vertices@.take(i as int) =~= self.vertices@);
        count
    }

    /// Number of live faces.
    pub fn face_count(&self) -> (r: usize)
        requires
            self.wf(),
        ensures
            r == live_face_count(self.corners@, (self.num_corners() / 3) as nat),
    {
        let mut count: usize = 0;
        let mut i: usize = 0;
        while i < self.corners.len()
            invariant
                self.wf(),
                0 <= i <= self.corners@.len(),
                i % 3 == 0,
                count <= i,
                count == live_face_count(self.corners@, (i / 3) as nat),
            decreases self.corners@.len() - i,
        {
            if !self.corners[i].deleted {
                count = count + 1;
            }
            i = i + 3;
        }
        count
    }
}

/// Number of live vertices in `vs`.
pub open spec fn live_vertex_count<P>(vs: Seq<Vertex<P>>) -> nat
    decreases vs.len(),
{
    if vs.len() == 0 {
        0
    } else {
        live_vertex_count(vs.drop_last()) + if vs.last().deleted {
            0nat
        } else {
            1nat
        }
    }
}

/// Number of live faces among the first `k` faces of `cs`.
pub open spec fn live_face_count(cs: Seq<Corner>, k: nat) -> nat
    decreases k,
{
    if k == 0 {
        0
    } else {
        live_face_count(cs, (k - 1) as nat) + if cs[3 * (k - 1)].deleted {
            0nat
        } else {
            1nat
        }
    }
}

/// The opposite relation of a well-formed table, and so of every table that
/// `from_vertices_and_indices` builds, is symmetric.
pub proof fn lemma_opposite_symmetric<P>(t: CornerTable<P>)
    requires
        t.wf(),
    ensures
        forall|c: int|
            0 <= c < t.num_corners() && (#[trigger] t.opp(c)) is Some ==> t.opp(
                t.opp(c).unwrap() as int,
            ) == Some(c as usize),
{
    assert forall|c: int|
        0 <= c < t.num_corners() && (#[trigger] t.opp(c)) is Some implies t.opp(
        t.opp(c).unwrap() as int,
    ) == Some(c as usize) by {
        t.lemma_opposite(c);
    }
}

/// Reading a freshly built table back gives its input: every face is live and names
/// the vertices that the index list gave it, a vertex is live exactly when some face
/// uses it, and every vertex keeps its position.
pub proof fn lemma_round_trip<P>(t: CornerTable<P>, vs: Seq<P>, ind: Seq<usize>)
    requires
        t.wf(),
        t.built_from(vs, ind),
    ensures
        forall|f: int|
            0 <= f < t.num_corners() ==> (f % 3 == 0 && !(#[trigger] t.corners@[f]).deleted
                <==> f % 3 == 0),
        forall|c: int| 0 <= c < ind.len() ==> #[trigger] t.vert(c) == ind[c],
        t.num_corners() == ind.len(),
        t.vertices@.len() == vs.len(),
        forall|v: int|
            0 <= v < vs.len() ==> (!(#[trigger] t.vertices@[v]).deleted <==> exists|c: int|
                0 <= c < ind.len() && ind[c] == v),
        forall|v: int| 0 <= v < vs.len() ==> (#[trigger] t.vertices@[v]).position == vs[v],
{
    assert forall|v: int| 0 <= v < vs.len() implies (!(#[trigger] t.vertices@[v]).deleted
        <==> exists|c: int| 0 <= c < ind.len() && ind[c] == v) by {
        if !t.vertices@[v].deleted {
            let c = t.vertices@[v].corner_index as int;
            assert(ind[c] == v);
        }
    }
    assert forall|c: int| 0 <= c < ind.len() implies #[trigger] t.vert(c) == ind[c] by {
        let _ = t.corners@[c];
    }
}

impl<P> CornerTable<P> {
    /// A table whose parts hold is well formed.
    pub proof fn lemma_wf_from_parts(&self)
        requires
            self.corners@.len() % 3 == 0,
            self.corners@.len() < usize::MAX - 2,
            forall|c: int|
                0 <= c < self.num_corners() ==> (#[trigger] self.corners@[c]).vertex_index
                    < self.vertices@.len(),
            forall|c: int|
                0 <= c < self.num_corners() ==> (#[trigger] self.corners@[c]).deleted
                    == self.corners@[next_of(c)].deleted,
            self.opposites_consistent(),
            self.vertex_corners_consistent(),
        ensures
            self.wf(),
    {
        reveal(CornerTable::links_wf);
    }

    /// The parts of a well-formed table hold.
    pub proof fn lemma_wf_parts(&self)
        requires
            self.wf(),
        ensures
            self.opposites_consistent(),
            self.vertex_corners_consistent(),
    {
        reveal(CornerTable::links_wf);
    }
}

/// What the opposite of corner `k` is in a table built from `ind`: the unique reverse
/// half-edge, if there is one.
pub open spec fn opposite_spec(ind: Seq<usize>, k: int, r: Option<usize>) -> bool {
    match r {
        Some(o) => 0 <= o < ind.len() && reverse_match(ind, k, o as int) && forall|d: int|
            0 <= d < ind.len() && reverse_match(ind, k, d) ==> d == o,
        None => forall|d: int| 0 <= d < ind.len() ==> !reverse_match(ind, k, d),
    }
}

/// Checks that every index names a vertex and that no triangle repeats a vertex.
fn check_faces(nv: usize, indices: &Vec<usize>) -> (r: bool)
    requires
        indices@.len() < usize::MAX - 2,
        indices@.len() % 3 == 0,
    ensures
        r <==> indices_in_range(nv as int, indices@) && faces_nondegenerate(indices@),
{
    let n = indices.len();
    let ghost ind = indices@;
    let mut i: usize = 0;
    while i < n
        invariant
            0 <= i <= n,
            n == ind.len(),
            n % 3 == 0,
            n < usize::MAX - 2,
            ind == indices@,
            forall|j: int| 0 <= j < i ==> ind[j] < nv,
            forall|j: int| 0 <= j < i ==> #[trigger] ind[j] != ind[next_of(j)],
        decreases n - i,
    {
        if indices[i] >= nv {
            return false;
        }
        if indices[i] == indices[next_corner(i)] {
            assert(ind[i as int] == ind[next_of(i as int)]);
            return false;
        }
        i = i + 1;
    }
    true
}

/// The unique reverse half-edge of corner `c`; `Err` when there are two or more.
fn find_opposite(indices: &Vec<usize>, c: usize) -> (r: Result<Option<usize>, ()>)
    requires
        indices@.len() < usize::MAX - 2,
        indices@.len() % 3 == 0,
        c < indices@.len(),
    ensures
        r matches Ok(o) ==> opposite_spec(indices@, c as int, o),
        r is Err ==> !half_edges_manifold(indices@),
{
    let n = indices.len();
    let ghost ind = indices@;
    let from = indices[next_corner(c)];
    let to = indices[previous_corner(c)];
    let mut found: Option<usize> = None;
    let mut d: usize = 0;
    while d < n
        invariant
            0 <= d <= n,
            0 <= c < n,
            n == ind.len(),
            n % 3 == 0,
            n < usize::MAX - 2,
            ind == indices@,
            from == ind[next_of(c as int)],
            to == ind[prev_of(c as int)],
            match found {
                Some(o) => o < d && reverse_match(ind, c as int, o as int) && forall|e: int|
                    0 <= e < d && reverse_match(ind, c as int, e) ==> e == o,
                None => forall|e: int| 0 <= e < d ==> !reverse_match(ind, c as int, e),
            },
        decreases n - d,
    {
        if indices[next_corner(d)] == to && indices[previous_corner(d)] == from {
            assert(reverse_match(ind, c as int, d as int));
            if let Some(o) = found {
                assert(reverse_match(ind, c as int, o as int));
                return Err(());
            }
            found = Some(d);
        }
        d = d + 1;
    }
    Ok(found)
}

/// The opposite of every corner; `Err` when some half-edge has two reverse half-edges.
fn find_opposites(indices: &Vec<usize>) -> (r: Result<Vec<Option<usize>>, ()>)
    requires
        indices@.len() < usize::MAX - 2,
        indices@.len() % 3 == 0,
    ensures
        r is Ok <==> half_edges_manifold(indices@),
        r matches Ok(opps) ==> opps@.len() == indices@.len() && forall|k: int|
            0 <= k < indices@.len() ==> opposite_spec(indices@, k, #[trigger] opps@[k]),
{
    let n = indices.len();
    let ghost ind = indices@;
    let mut opposites: Vec<Option<usize>> = Vec::new();
    let mut c: usize = 0;
    while c < n
        invariant
            0 <= c <= n,
            n == ind.len(),
            n % 3 == 0,
            n < usize::MAX - 2,
            ind == indices@,
            opposites@.len() == c,
            forall|k: int| 0 <= k < c ==> opposite_spec(ind, k, #[trigger] opposites@[k]),
        decreases n - c,
    {
        match find_opposite(indices, c) {
            Ok(o) => opposites.push(o),
            Err(()) => return Err(()),
        }
        c = c + 1;
    }
    assert(half_edges_manifold(ind)) by {
        assert forall|k: int, d1: int, d2: int|
            0 <= k < ind.len() && 0 <= d1 < ind.len() && 0 <= d2 < ind.len()
                && #[trigger] reverse_match(ind, k, d1) && #[trigger] reverse_match(
                ind,
                k,
                d2,
            ) implies d1 == d2 by {
            assert(opposite_spec(ind, k, opposites[k]));
        }
    }
    Ok(opposites)
}

/// Corners in face order, each with its vertex and opposite.
fn build_corners(indices: &Vec<usize>, opposites: &Vec<Option<usize>>) -> (r: Vec<Corner>)
    requires
        opposites@.len() == indices@.len(),
    ensures
        r@.len() == indices@.len(),
        forall|k: int|
            0 <= k < indices@.len() ==> (#[trigger] r@[k]).vertex_index == indices@[k]
                && r@[k].opposite_corner_index == opposites@[k] && !r@[k].deleted,
{
    let n = indices.len();
    let mut corners: Vec<Corner> = Vec::new();
    let mut c: usize = 0;
    while c < n
        invariant
            0 <= c <= n,
            n == indices@.len(),
            opposites@.len() == n,
            corners@.len() == c,
            forall|k: int|
                0 <= k < c ==> (#[trigger] corners@[k]).vertex_index == indices@[k]
                    && corners@[k].opposite_corner_index == opposites@[k]
                    && !corners@[k].deleted,
        decreases n - c,
    {
        corners.push(
            Corner { vertex_index: indices[c], opposite_corner_index: opposites[c], deleted: false },
        );
        c = c + 1;
    }
    corners
}

/// Vertex records: each used vertex refers to the last corner that uses it.
fn build_vertices<P: Copy>(vertices: &Vec<P>, indices: &Vec<usize>) -> (r: Vec<Vertex<P>>)
    requires
        indices_in_range(vertices@.len() as int, indices@),
    ensures
        r@.len() == vertices@.len(),
        forall|v: int| 0 <= v < vertices@.len() ==> (#[trigger] r@[v]).position == vertices@[v],
        forall|v: int|
            0 <= v < vertices@.len() ==> {
                let vx = #[trigger] r@[v];
                if vx.deleted {
                    forall|c: int| 0 <= c < indices@.len() ==> indices@[c] != v
                } else {
                    &&& vx.corner_index < indices@.len()
                    &&& indices@[vx.corner_index as int] == v
                    &&& forall|c: int| vx.corner_index < c < indices@.len() ==> indices@[c] != v
                }
            },
{
    let n = indices.len();
    let nv = vertices.len();
    let ghost ind = indices@;
    let mut verts: Vec<Vertex<P>> = Vec::new();
    let mut v: usize = 0;
    while v < nv
        invariant
            0 <= v <= nv,
            nv == vertices@.len(),
            verts@.len() == v,
            forall|k: int|
                0 <= k < v ==> (#[trigger] verts@[k]).position == vertices@[k] && verts@[k].deleted,
        decreases nv - v,
    {
        verts.push(Vertex { position: vertices[v], corner_index: 0, deleted: true });
        v = v + 1;
    }
    let mut c: usize = 0;
    while c < n
        invariant
            0 <= c <= n,
            n == ind.len(),
            ind == indices@,
            nv == vertices@.len(),
            indices_in_range(nv as int, ind),
            verts@.len() == nv,
            forall|k: int| 0 <= k < nv ==> (#[trigger] verts@[k]).position == vertices@[k],
            forall|k: int|
                0 <= k < nv ==> {
                    let vx = #[trigger] verts@[k];
                    if vx.deleted {
                        forall|e: int| 0 <= e < c ==> ind[e] != k
                    } else {
                        &&& vx.corner_index < c
                        &&& ind[vx.corner_index as int] == k
                        &&& forall|e: int| vx.corner_index < e < c ==> ind[e] != k
                    }
                },
        decreases n - c,
    {
        let vi = indices[c];
        let pos = verts[vi].position;
        verts.set(vi, Vertex { position: pos, corner_index: c, deleted: false });
        c = c + 1;
    }
    verts
}

/// A table assembled from the results of `find_opposites`, `build_corners` and
/// `build_vertices` is well formed and holds what the input says.
proof fn lemma_built_table<P>(t: CornerTable<P>, vs: Seq<P>, ind: Seq<usize>, opposites: Seq<Option<usize>>)
    requires
        ind.len() % 3 == 0,
        indices_in_range(vs.len() as int, ind),
        ind.len() < usize::MAX - 2,
        opposites.len() == ind.len(),
        forall|k: int| 0 <= k < ind.len() ==> opposite_spec(ind, k, #[trigger] opposites[k]),
        t.corners@.len() == ind.len(),
        forall|k: int|
            0 <= k < ind.len() ==> (#[trigger] t.corners@[k]).vertex_index == ind[k]
                && t.corners@[k].opposite_corner_index == opposites[k] && !t.corners@[k].deleted,
        t.vertices@.len() == vs.len(),
        forall|v: int| 0 <= v < vs.len() ==> (#[trigger] t.vertices@[v]).position == vs[v],
        forall|v: int|
            0 <= v < vs.len() ==> {
                let vx = #[trigger] t.vertices@[v];
                if vx.deleted {
                    forall|c: int| 0 <= c < ind.len() ==> ind[c] != v
                } else {
                    &&& vx.corner_index < ind.len()
                    &&& ind[vx.corner_index as int] == v
                    &&& forall|c: int| vx.corner_index < c < ind.len() ==> ind[c] != v
                }
            },
    ensures
        t.wf(),
        t.built_from(vs, ind),
{
    reveal(CornerTable::links_wf);
    assert(t.opposites_consistent()) by {
        assert forall|k: int|
            0 <= k < t.num_corners() && (#[trigger] t.opp(k)).is_some() implies {
            let o = t.opp(k).unwrap() as int;
            &&& 0 <= o < t.num_corners()
            &&& t.opp(o) == Some(k as usize)
            &&& t.vert(next_of(o)) == t.vert(prev_of(k))
            &&& t.vert(prev_of(o)) == t.vert(next_of(k))
            &&& t.corners@[o].deleted == t.corners@[k].deleted
        } by {
            let o = t.opp(k).unwrap() as int;
            assert(opposite_spec(ind, k, opposites[k]));
            assert(opposite_spec(ind, o, opposites[o]));
            let _ = t.corners@[o];
            let _ = t.corners@[next_of(o)];
            let _ = t.corners@[prev_of(o)];
            let _ = t.corners@[next_of(k)];
            let _ = t.corners@[prev_of(k)];
            assert(reverse_match(ind, o, k));
        }
    }
    assert(t.vertex_corners_consistent()) by {
        assert forall|w: int|
            0 <= w < t.vertices@.len() && !(#[trigger] t.vertices@[w]).deleted implies {
            let k = t.vertices@[w].corner_index as int;
            &&& 0 <= k < t.num_corners()
            &&& t.vert(k) == w
            &&& !t.corners@[k].deleted
        } by {
            let _ = t.corners@[t.vertices@[w].corner_index as int];
        }
    }
    assert forall|k: int| 0 <= k < t.num_corners() implies #[trigger] t.corners@[k].deleted
        == t.corners@[next_of(k)].deleted by {
        let _ = t.corners@[next_of(k)];
    }
    assert forall|k: int|
        0 <= k < ind.len() implies match #[trigger] t.opp(k) {
        Some(o) => 0 <= o < ind.len() && reverse_match(ind, k, o as int),
        None => forall|d: int| 0 <= d < ind.len() ==> !reverse_match(ind, k, d),
    } by {
        assert(opposite_spec(ind, k, opposites[k]));
    }
}

impl<P: Copy> CornerTable<P> {
    /// Builds the table from vertex positions and a flat list of triangle vertex indices.
    /// Opposite corners are found by pairing each half-edge with its reverse; a vertex
    /// that no triangle uses is marked deleted, and each other vertex refers to the
    /// last corner that uses it.
    pub fn from_vertices_and_indices(vertices: &Vec<P>, indices: &Vec<usize>) -> (r: Result<
        Self,
        MeshError,
    >)
        requires
            indices@.len() < usize::MAX - 2,
        ensures
            r.is_ok() <==> valid_mesh_input(vertices@.len() as int, indices@),
            r matches Ok(t) ==> t.wf() && t.built_from(vertices@, indices@),
            r matches Err(e) ==> e == MeshError::InvalidTopology,
    {
        let ghost ind = indices@;
        if indices.len() % 3 != 0 {
            return Err(MeshError::InvalidTopology);
        }
        if !check_faces(vertices.len(), indices) {
            return Err(MeshError::InvalidTopology);
        }
        let opposites = match find_opposites(indices) {
            Ok(o) => o,
            Err(()) => return Err(MeshError::InvalidTopology),
        };
        let corners = build_corners(indices, &opposites);
        let verts = build_vertices(vertices, indices);
        let t = CornerTable { vertices: verts, corners };
        proof {
            lemma_built_table(t, vertices@, indices@, opposites@);
        }
        Ok(t)
    }
}

} // verus!
