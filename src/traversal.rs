use vstd::prelude::*;
use crate::corner_table::{next_of, prev_of, next_corner, previous_corner, Corner, CornerTable, Vertex};
use vstd::set_lib::{lemma_int_range, lemma_map_size, lemma_set_disjoint_lens, set_int_range};

verus! {

/// A cursor over the corners of a table.
pub struct CornerWalker<'a, P> {
    table: &'a CornerTable<P>,
    corner_index: usize,
}

impl<'a, P> CornerWalker<'a, P> {
    /// The table walked over.
    pub closed spec fn mesh(&self) -> CornerTable<P> {
        *self.table
    }

    /// The current corner.
    pub closed spec fn current(&self) -> int {
        self.corner_index as int
    }

    pub open spec fn wf(&self) -> bool {
        &&& self.mesh().wf()
        &&& 0 <= self.current() < self.mesh().num_corners()
    }

    /// Creates a walker standing at the given corner. It can move only once it stands
    /// at a corner of the table.
    pub fn from_corner(table: &'a CornerTable<P>, corner_index: usize) -> (r: Self)
        requires
            table.wf(),
        ensures
            corner_index < table.corners@.len() ==> r.wf(),
            r.mesh() == *table,
            r.current() == corner_index,
    {
        CornerWalker { table, corner_index }
    }

    /// Creates a walker standing at the corner that the given live vertex refers to.
    pub fn from_vertex(table: &'a CornerTable<P>, vertex_index: usize) -> (r: Self)
        requires
            table.wf(),
            vertex_index < table.vertices@.len(),
            !table.vertices@[vertex_index as int].deleted,
        ensures
            r.wf(),
            r.mesh() == *table,
            r.current() == table.vertices@[vertex_index as int].corner_index,
    {
        proof {
            table.lemma_vertex(vertex_index as int);
        }
        let corner_index = table.vertices[vertex_index].corner_index;
        CornerWalker { table, corner_index }
    }

    /// Jumps to the given corner.
    pub fn set_current_corner(&mut self, corner_index: usize)
        requires
            old(self).mesh().wf(),
        ensures
            corner_index < old(self).mesh().corners@.len() ==> final(self).wf(),
            final(self).mesh() == old(self).mesh(),
            final(self).current() == corner_index,
    {
        self.corner_index = corner_index;
    }

    /// Moves to the next corner of the triangle.
    pub fn next(&mut self)
        requires
            old(self).wf(),
        ensures
            final(self).wf(),
            final(self).mesh() == old(self).mesh(),
            final(self).current() == next_of(old(self).current()),
    {
        self.corner_index = next_corner(self.corner_index);
    }

    /// Moves across the current corner's edge; the edge must not be on the boundary.
    pub fn opposite(&mut self)
        requires
            old(self).wf(),
            old(self).mesh().opp(old(self).current()) is Some,
        ensures
            final(self).wf(),
            final(self).mesh() == old(self).mesh(),
            final(self).current() == old(self).mesh().opp(old(self).current()).unwrap(),
    {
        proof {
            self.mesh().lemma_opposite(self.current());
        }
        self.corner_index = self.table.corners[self.corner_index].opposite_corner_index.unwrap();
    }

    /// Moves to the previous corner of the triangle: two steps forward.
    pub fn previous(&mut self)
        requires
            old(self).wf(),
        ensures
            final(self).wf(),
            final(self).mesh() == old(self).mesh(),
            final(self).current() == prev_of(old(self).current()),
    {
        self.next();
        self.next();
    }

    /// Moves to the next corner, then across its edge.
    pub fn right(&mut self)
        requires
            old(self).wf(),
            old(self).mesh().opp(next_of(old(self).current())) is Some,
        ensures
            final(self).wf(),
            final(self).mesh() == old(self).mesh(),
            final(self).current() == old(self).mesh().opp(next_of(old(self).current())).unwrap(),
    {
        self.next();
        self.opposite();
    }

    /// Moves to the previous corner, then across its edge.
    pub fn left(&mut self)
        requires
            old(self).wf(),
            old(self).mesh().opp(prev_of(old(self).current())) is Some,
        ensures
            final(self).wf(),
            final(self).mesh() == old(self).mesh(),
            final(self).current() == old(self).mesh().opp(prev_of(old(self).current())).unwrap(),
    {
        self.previous();
        self.opposite();
    }

    /// Rotates one step to the right around the current corner's vertex.
    pub fn swing_right(&mut self)
        requires
            old(self).wf(),
            old(self).mesh().opp(prev_of(old(self).current())) is Some,
        ensures
            final(self).wf(),
            final(self).mesh() == old(self).mesh(),
            final(self).current() == prev_of(
                old(self).mesh().opp(prev_of(old(self).current())).unwrap() as int,
            ),
    {
        self.previous();
        self.opposite();
        self.previous();
    }

    /// Rotates one step to the left around the current corner's vertex.
    pub fn swing_left(&mut self)
        requires
            old(self).wf(),
            old(self).mesh().opp(next_of(old(self).current())) is Some,
        ensures
            final(self).wf(),
            final(self).mesh() == old(self).mesh(),
            final(self).current() == next_of(
                old(self).mesh().opp(next_of(old(self).current())).unwrap() as int,
            ),
    {
        self.next();
        self.opposite();
        self.next();
    }

    /// Whether `swing_right` is possible: the previous corner's edge is not on the boundary.
    pub fn can_swing_right(&self) -> (r: bool)
        requires
            self.wf(),
        ensures
            r == self.mesh().opp(prev_of(self.current())) is Some,
    {
        self.get_previous_corner().opposite_corner_index.is_some()
    }

    /// Whether `swing_left` is possible: the next corner's edge is not on the boundary.
    pub fn can_swing_left(&self) -> (r: bool)
        requires
            self.wf(),
        ensures
            r == self.mesh().opp(next_of(self.current())) is Some,
    {
        self.get_next_corner().opposite_corner_index.is_some()
    }

    /// Swings left where possible and says whether it did; otherwise stays.
    pub fn swing_left_or_stay(&mut self) -> (r: bool)
        requires
            old(self).wf(),
        ensures
            final(self).wf(),
            final(self).mesh() == old(self).mesh(),
            r == old(self).mesh().opp(next_of(old(self).current())) is Some,
            r ==> final(self).current() == next_of(
                old(self).mesh().opp(next_of(old(self).current())).unwrap() as int,
            ),
            !r ==> final(self).current() == old(self).current(),
    {
        self.next();
        if let Some(opposite) = self.table.corners[self.corner_index].opposite_corner_index {
            proof {
                self.mesh().lemma_opposite(self.current());
            }
            self.set_current_corner(opposite);
            self.next();
            true
        } else {
            self.previous();
            false
        }
    }

    /// Swings right where possible and says whether it did; otherwise stays.
    pub fn swing_right_or_stay(&mut self) -> (r: bool)
        requires
            old(self).wf(),
        ensures
            final(self).wf(),
            final(self).mesh() == old(self).mesh(),
            r == old(self).mesh().opp(prev_of(old(self).current())) is Some,
            r ==> final(self).current() == prev_of(
                old(self).mesh().opp(prev_of(old(self).current())).unwrap() as int,
            ),
            !r ==> final(self).current() == old(self).current(),
    {
        self.previous();
        if let Some(opposite) = self.table.corners[self.corner_index].opposite_corner_index {
            proof {
                self.mesh().lemma_opposite(self.current());
            }
            self.set_current_corner(opposite);
            self.previous();
            true
        } else {
            self.next();
            false
        }
    }

    /// The next corner of the triangle.
    pub fn get_next_corner(&self) -> (r: &Corner)
        requires
            self.wf(),
        ensures
            *r == self.mesh().corners@[next_of(self.current())],
    {
        &self.table.corners[next_corner(self.corner_index)]
    }

    /// Index of the previous corner of the triangle.
    pub fn get_previous_corner_index(&self) -> (r: usize)
        requires
            self.wf(),
        ensures
            r == prev_of(self.current()),
    {
        previous_corner(self.corner_index)
    }

    /// The previous corner of the triangle.
    pub fn get_previous_corner(&self) -> (r: &Corner)
        requires
            self.wf(),
        ensures
            *r == self.mesh().corners@[prev_of(self.current())],
    {
        &self.table.corners[self.get_previous_corner_index()]
    }

    /// The corner across the current corner's edge, if any.
    pub fn get_opposite_corner(&self) -> (r: Option<&Corner>)
        requires
            self.wf(),
        ensures
            r is None <==> self.mesh().opp(self.current()) is None,
            r matches Some(c) ==> *c == self.mesh().corners@[self.mesh().opp(
                self.current(),
            ).unwrap() as int],
    {
        match self.table.corners[self.corner_index].opposite_corner_index {
            Some(o) => {
                proof {
                    self.mesh().lemma_opposite(self.current());
                }
                Some(&self.table.corners[o])
            },
            None => None,
        }
    }

    /// The current corner.
    pub fn get_corner(&self) -> (r: &Corner)
        requires
            self.wf(),
        ensures
            *r == self.mesh().corners@[self.current()],
    {
        &self.table.corners[self.corner_index]
    }

    /// Index of the current corner.
    pub fn get_corner_index(&self) -> (r: usize)
        ensures
            r == self.current(),
    {
        self.corner_index
    }

    /// The vertex of the current corner.
    pub fn get_vertex(&self) -> (r: &Vertex<P>)
        requires
            self.wf(),
        ensures
            *r == self.mesh().vertices@[self.mesh().vert(self.current())],
    {
        proof {
            self.mesh().lemma_corner(self.current());
        }
        &self.table.vertices[self.table.corners[self.corner_index].vertex_index]
    }
}

/// Corner `f` starts a live face.
pub open spec fn is_live_face<P>(t: CornerTable<P>, f: int) -> bool {
    0 <= f < t.num_corners() && f % 3 == 0 && !t.corners@[f].deleted
}

/// Vertex `v` is live.
pub open spec fn is_live_vertex<P>(t: CornerTable<P>, v: int) -> bool {
    0 <= v < t.vertices@.len() && !t.vertices@[v].deleted
}

/// Corner `c` stands for its edge: it is live and its opposite, if any, does not come before it.
pub open spec fn is_edge_corner<P>(t: CornerTable<P>, c: int) -> bool {
    &&& 0 <= c < t.num_corners()
    &&& !t.corners@[c].deleted
    &&& match t.opp(c) {
        Some(o) => c <= o,
        None => true,
    }
}

/// `s` lists, in increasing order, exactly the indices below `n` that satisfy `p`.
pub open spec fn lists_in_order(s: Seq<usize>, n: int, p: spec_fn(int) -> bool) -> bool {
    &&& forall|i: int, j: int| 0 <= i < j < s.len() ==> s[i] < s[j]
    &&& forall|i: int| 0 <= i < s.len() ==> 0 <= #[trigger] s[i] < n && p(s[i] as int)
    &&& forall|x: int| 0 <= x < n && #[trigger] p(x) ==> s.contains(x as usize)
}

/// Iterator over the live faces of a table, each given by its first corner.
pub struct CornerTableFacesIter<'a, P> {
    table: &'a CornerTable<P>,
    corner_index: usize,
}

impl<'a, P> CornerTableFacesIter<'a, P> {
    pub closed spec fn mesh(&self) -> CornerTable<P> {
        *self.table
    }

    /// Where the next search starts.
    pub closed spec fn position(&self) -> int {
        self.corner_index as int
    }

    pub open spec fn wf(&self) -> bool {
        &&& self.mesh().wf()
        &&& 0 <= self.position() <= self.mesh().num_corners()
        &&& self.position() % 3 == 0
    }

    pub fn new(corner_table: &'a CornerTable<P>) -> (r: Self)
        requires
            corner_table.wf(),
        ensures
            r.wf(),
            r.mesh() == *corner_table,
            r.position() == 0,
    {
        CornerTableFacesIter { table: corner_table, corner_index: 0 }
    }

    /// The first live face at or after the current position.
    pub fn next(&mut self) -> (r: Option<usize>)
        requires
            old(self).wf(),
        ensures
            final(self).wf(),
            final(self).mesh() == old(self).mesh(),
            r matches Some(f) ==> {
                &&& old(self).position() <= f
                &&& is_live_face(old(self).mesh(), f as int)
                &&& forall|g: int|
                    old(self).position() <= g < f ==> !is_live_face(old(self).mesh(), g)
                &&& final(self).position() == f + 3
            },
            r is None ==> forall|g: int|
                old(self).position() <= g ==> !is_live_face(old(self).mesh(), g),
    {
        let n = self.table.corners.len();
        while self.corner_index < n && self.table.corners[self.corner_index].deleted
            invariant
                self.wf(),
                self.mesh() == old(self).mesh(),
                old(self).position() <= self.position(),
                n == self.mesh().num_corners(),
                forall|g: int|
                    old(self).position() <= g < self.position() ==> !is_live_face(self.mesh(), g),
            decreases n - self.corner_index,
        {
            self.corner_index = self.corner_index + 3;
        }
        if self.corner_index < n {
            let current = self.corner_index;
            self.corner_index = self.corner_index + 3;
            Some(current)
        } else {
            None
        }
    }
}

/// Iterator over the live vertices of a table.
pub struct CornerTableVerticesIter<'a, P> {
    table: &'a CornerTable<P>,
    vertex_index: usize,
}

impl<'a, P> CornerTableVerticesIter<'a, P> {
    pub closed spec fn mesh(&self) -> CornerTable<P> {
        *self.table
    }

    /// Where the next search starts.
    pub closed spec fn position(&self) -> int {
        self.vertex_index as int
    }

    pub open spec fn wf(&self) -> bool {
        &&& self.mesh().wf()
        &&& 0 <= self.position() <= self.mesh().vertices@.len()
    }

    pub fn new(table: &'a CornerTable<P>) -> (r: Self)
        requires
            table.wf(),
        ensures
            r.wf(),
            r.mesh() == *table,
            r.position() == 0,
    {
        CornerTableVerticesIter { table, vertex_index: 0 }
    }

    /// The first live vertex at or after the current position.
    pub fn next(&mut self) -> (r: Option<usize>)
        requires
            old(self).wf(),
        ensures
            final(self).wf(),
            final(self).mesh() == old(self).mesh(),
            r matches Some(v) ==> {
                &&& old(self).position() <= v
                &&& is_live_vertex(old(self).mesh(), v as int)
                &&& forall|w: int|
                    old(self).position() <= w < v ==> !is_live_vertex(old(self).mesh(), w)
                &&& final(self).position() == v + 1
            },
            r is None ==> forall|w: int|
                old(self).position() <= w ==> !is_live_vertex(old(self).mesh(), w),
    {
        let n = self.table.vertices.len();
        while self.vertex_index < n && self.table.vertices[self.vertex_index].deleted
            invariant
                self.wf(),
                self.mesh() == old(self).mesh(),
                old(self).position() <= self.position(),
                n == self.mesh().vertices@.len(),
                forall|w: int|
                    old(self).position() <= w < self.position() ==> !is_live_vertex(
                        self.mesh(),
                        w,
                    ),
            decreases n - self.vertex_index,
        {
            self.vertex_index = self.vertex_index + 1;
        }
        if self.vertex_index < n {
            let current = self.vertex_index;
            self.vertex_index = self.vertex_index + 1;
            Some(current)
        } else {
            None
        }
    }
}

/// Corner `d` is live and its opposite lies before `pos`.
pub open spec fn opposite_before<P>(t: CornerTable<P>, d: int, pos: int) -> bool {
    &&& !t.corners@[d].deleted
    &&& t.opp(d) is Some
    &&& t.opp(d).unwrap() < pos
}

/// Iterator over the edges of a table, each given by one corner opposite to it. A
/// corner is marked visited when it or its opposite has been returned; the marks
/// belong to the iterator and are cleared when it is made.
pub struct CornerTableEdgesIter<'a, P> {
    table: &'a CornerTable<P>,
    visited: Vec<bool>,
    corner_index: usize,
}

impl<'a, P> CornerTableEdgesIter<'a, P> {
    pub closed spec fn mesh(&self) -> CornerTable<P> {
        *self.table
    }

    /// Where the next search starts.
    pub closed spec fn position(&self) -> int {
        self.corner_index as int
    }

    pub closed spec fn marks(&self) -> Seq<bool> {
        self.visited@
    }

    /// A corner at or after the position is marked exactly when its live opposite
    /// lies before the position.
    pub open spec fn wf(&self) -> bool {
        &&& self.mesh().wf()
        &&& 0 <= self.position() <= self.mesh().num_corners()
        &&& self.marks().len() == self.mesh().num_corners()
        &&& forall|d: int|
            self.position() <= d < self.mesh().num_corners() ==> (#[trigger] self.marks()[d]
                <==> opposite_before(self.mesh(), d, self.position()))
    }

    pub fn new(table: &'a CornerTable<P>) -> (r: Self)
        requires
            table.wf(),
        ensures
            r.wf(),
            r.mesh() == *table,
            r.position() == 0,
    {
        let n = table.corners.len();
        let mut visited: Vec<bool> = Vec::new();
        let mut i: usize = 0;
        while i < n
            invariant
                0 <= i <= n,
                visited@.len() == i,
                forall|d: int| 0 <= d < i ==> !(#[trigger] visited@[d]),
            decreases n - i,
        {
            visited.push(false);
            i = i + 1;
        }
        CornerTableEdgesIter { table, visited, corner_index: 0 }
    }

    /// The first corner at or after the current position that stands for its edge.
    pub fn next(&mut self) -> (r: Option<usize>)
        requires
            old(self).wf(),
        ensures
            final(self).wf(),
            final(self).mesh() == old(self).mesh(),
            r matches Some(c) ==> {
                &&& old(self).position() <= c
                &&& is_edge_corner(old(self).mesh(), c as int)
                &&& forall|d: int|
                    old(self).position() <= d < c ==> !is_edge_corner(old(self).mesh(), d)
                &&& final(self).position() == c + 1
            },
            r is None ==> forall|d: int|
                old(self).position() <= d ==> !is_edge_corner(old(self).mesh(), d),
    {
        let n = self.table.corners.len();
        let ghost t = self.mesh();
        while self.corner_index < n && (self.visited[self.corner_index]
            || self.table.corners[self.corner_index].deleted)
            invariant
                old(self).wf(),
                self.mesh() == t,
                t == old(self).mesh(),
                self.marks() == old(self).marks(),
                old(self).position() <= self.position() <= n,
                n == t.num_corners(),
                forall|d: int|
                    old(self).position() <= d < self.position() ==> !is_edge_corner(t, d),
                forall|d: int|
                    old(self).position() <= d < self.position() ==> (#[trigger] self.marks()[d]
                        || t.corners@[d].deleted),
            decreases n - self.corner_index,
        {
            let ghost d = self.corner_index as int;
            assert(old(self).marks()[d] || t.corners@[d].deleted);
            self.corner_index = self.corner_index + 1;
        }
        if self.corner_index < n {
            let current = self.corner_index;
            let ghost c = current as int;
            proof {
                if let Some(o) = t.opp(c) {
                    t.lemma_opposite(c);
                    if o < c {
                        let oi = o as int;
                        assert(old(self).marks()[oi] || t.corners@[oi].deleted);
                        assert(t.opp(oi) == Some(current));
                        assert(false);
                    }
                }
            }
            self.visited.set(current, true);
            if let Some(o) = self.table.corners[current].opposite_corner_index {
                self.visited.set(o, true);
            }
            self.corner_index = current + 1;
            proof {
                assert forall|d: int|
                    self.position() <= d < n implies (#[trigger] self.marks()[d]
                    <==> opposite_before(t, d, self.position()))
                    by {
                    if t.opp(d) is Some {
                        t.lemma_opposite(d);
                        let x = t.opp(d).unwrap() as int;
                        if old(self).position() <= x < c {
                            assert(old(self).marks()[x] || t.corners@[x].deleted);
                        }
                    }
                    assert(old(self).marks()[d] <==> opposite_before(t, d, old(self).position()));
                    if let Some(o) = t.opp(c) {
                        if o == d {
                            assert(t.opp(d) == Some(current));
                        }
                    }
                }
            }
            Some(current)
        } else {
            None
        }
    }
}

impl<P> CornerTable<P> {
    /// The live faces, each as its first corner, in increasing order.
    pub fn faces(&self) -> (r: Vec<usize>)
        requires
            self.wf(),
        ensures
            lists_in_order(r@, self.num_corners(), |f: int| is_live_face(*self, f)),
    {
        let mut it = CornerTableFacesIter::new(self);
        let mut r: Vec<usize> = Vec::new();
        loop
            invariant
                it.wf(),
                it.mesh() == *self,
                forall|i: int, j: int| 0 <= i < j < r@.len() ==> r@[i] < r@[j],
                forall|i: int| 0 <= i < r@.len() ==> #[trigger] r@[i] < it.position(),
                forall|i: int| 0 <= i < r@.len() ==> is_live_face(*self, #[trigger] r@[i] as int),
                forall|x: int|
                    0 <= x < it.position() && is_live_face(*self, x) ==> r@.contains(x as usize),
            decreases self.num_corners() - it.position(),
        {
            let ghost old_pos = it.position();
            let ghost old_r = r@;
            match it.next() {
                Some(f) => {
                    r.push(f);
                    assert forall|x: int|
                        0 <= x < it.position() && is_live_face(*self, x) implies r@.contains(
                        x as usize,
                    ) by {
                        if x == f {
                            assert(r@[r@.len() - 1] == f);
                        } else if x < old_pos {
                            let i = choose|i: int| 0 <= i < old_r.len() && old_r[i] == x as usize;
                            assert(r@[i] == x);
                        }
                    }
                },
                None => {
                    return r;
                },
            }
        }
    }

    /// The live vertices in increasing order.
    pub fn vertices(&self) -> (r: Vec<usize>)
        requires
            self.wf(),
        ensures
            lists_in_order(r@, self.vertices@.len() as int, |v: int| is_live_vertex(*self, v)),
    {
        let mut it = CornerTableVerticesIter::new(self);
        let mut r: Vec<usize> = Vec::new();
        loop
            invariant
                it.wf(),
                it.mesh() == *self,
                forall|i: int, j: int| 0 <= i < j < r@.len() ==> r@[i] < r@[j],
                forall|i: int| 0 <= i < r@.len() ==> #[trigger] r@[i] < it.position(),
                forall|i: int|
                    0 <= i < r@.len() ==> is_live_vertex(*self, #[trigger] r@[i] as int),
                forall|x: int|
                    0 <= x < it.position() && is_live_vertex(*self, x) ==> r@.contains(x as usize),
            decreases self.vertices@.len() - it.position(),
        {
            let ghost old_pos = it.position();
            let ghost old_r = r@;
            match it.next() {
                Some(v) => {
                    r.push(v);
                    assert forall|x: int|
                        0 <= x < it.position() && is_live_vertex(*self, x) implies r@.contains(
                        x as usize,
                    ) by {
                        if x == v {
                            assert(r@[r@.len() - 1] == v);
                        } else if x < old_pos {
                            let i = choose|i: int| 0 <= i < old_r.len() && old_r[i] == x as usize;
                            assert(r@[i] == x);
                        }
                    }
                },
                None => {
                    return r;
                },
            }
        }
    }

    /// The edges, each as the corner that stands for it, in increasing order.
    pub fn edges(&self) -> (r: Vec<usize>)
        requires
            self.wf(),
        ensures
            lists_in_order(r@, self.num_corners(), |c: int| is_edge_corner(*self, c)),
    {
        let mut it = CornerTableEdgesIter::new(self);
        let mut r: Vec<usize> = Vec::new();
        loop
            invariant
                it.wf(),
                it.mesh() == *self,
                forall|i: int, j: int| 0 <= i < j < r@.len() ==> r@[i] < r@[j],
                forall|i: int| 0 <= i < r@.len() ==> #[trigger] r@[i] < it.position(),
                forall|i: int|
                    0 <= i < r@.len() ==> is_edge_corner(*self, #[trigger] r@[i] as int),
                forall|x: int|
                    0 <= x < it.position() && is_edge_corner(*self, x) ==> r@.contains(x as usize),
            decreases self.num_corners() - it.position(),
        {
            let ghost old_pos = it.position();
            let ghost old_r = r@;
            match it.next() {
                Some(c) => {
                    r.push(c);
                    assert forall|x: int|
                        0 <= x < it.position() && is_edge_corner(*self, x) implies r@.contains(
                        x as usize,
                    ) by {
                        if x == c {
                            assert(r@[r@.len() - 1] == c);
                        } else if x < old_pos {
                            let i = choose|i: int| 0 <= i < old_r.len() && old_r[i] == x as usize;
                            assert(r@[i] == x);
                        }
                    }
                },
                None => {
                    return r;
                },
            }
        }
    }
}

/// The table is closed: every corner is live and lies across an edge from another corner.
pub open spec fn is_closed<P>(t: CornerTable<P>) -> bool {
    forall|c: int|
        0 <= c < t.num_corners() ==> !(#[trigger] t.corners@[c]).deleted && t.opp(c) is Some
            && t.opp(c).unwrap() != c
}

/// In a closed mesh every edge joins two faces, so the edges that `edges` lists number
/// half the corners: three halves of the faces.
pub proof fn lemma_closed_edge_count<P>(t: CornerTable<P>, r: Seq<usize>)
    requires
        t.wf(),
        is_closed(t),
        lists_in_order(r, t.num_corners(), |c: int| is_edge_corner(t, c)),
    ensures
        2 * r.len() == t.num_corners(),
        2 * r.len() == 3 * (t.num_corners() / 3),
{
    lemma_edge_count(t, r);
    assert(boundary_corners(t) =~= Set::empty());
}

/// Corners whose edge lies on the boundary.
pub open spec fn boundary_corners<P>(t: CornerTable<P>) -> Set<int> {
    Set::new(|c: int| 0 <= c < t.num_corners() && t.opp(c) is None)
}

/// In a table with no deleted corner and no corner opposite itself, an inner edge joins
/// two corners and a boundary edge has one, so twice the number of edges that `edges`
/// lists is the number of corners plus the number of boundary corners:
/// edges = (3 * faces + boundary) / 2.
pub proof fn lemma_edge_count<P>(t: CornerTable<P>, r: Seq<usize>)
    requires
        t.wf(),
        forall|c: int|
            0 <= c < t.num_corners() ==> !(#[trigger] t.corners@[c]).deleted && t.opp(c) != Some(
                c as usize,
            ),
        lists_in_order(r, t.num_corners(), |c: int| is_edge_corner(t, c)),
    ensures
        boundary_corners(t).finite(),
        2 * r.len() == t.num_corners() + boundary_corners(t).len(),
{
    let n = t.num_corners();
    let p = |x: int| is_edge_corner(t, x);
    assert(lists_in_order(r, n, p));
    let low = Set::new(|c: int| 0 <= c < n && t.opp(c) is Some && t.opp(c).unwrap() > c);
    let high = Set::new(|c: int| 0 <= c < n && t.opp(c) is Some && t.opp(c).unwrap() < c);
    let bnd = boundary_corners(t);
    let f = |c: int| t.opp(c).unwrap() as int;
    lemma_int_range(0, n);
    vstd::set_lib::lemma_len_subset(low, set_int_range(0, n));
    vstd::set_lib::lemma_len_subset(high, set_int_range(0, n));
    vstd::set_lib::lemma_len_subset(bnd, set_int_range(0, n));
    assert forall|a: int, b: int| low.contains(a) && low.contains(b) && #[trigger] f(a) == #[trigger] f(
        b,
    ) implies a == b by {
        t.lemma_opposite(a);
        t.lemma_opposite(b);
    }
    assert(vstd::relations::injective_on(f, low));
    assert forall|c: int| high.contains(c) implies low.map(f).contains(c) by {
        t.lemma_opposite(c);
        let o = t.opp(c).unwrap() as int;
        assert(low.contains(o));
        assert(f(o) == c);
    }
    assert forall|c: int| low.map(f).contains(c) implies high.contains(c) by {
        let a = choose|a: int| low.contains(a) && f(a) == c;
        t.lemma_opposite(a);
    }
    assert(low.map(f) =~= high);
    lemma_map_size(low, high, f);
    lemma_set_disjoint_lens(low, high);
    lemma_set_disjoint_lens(low + high, bnd);
    lemma_set_disjoint_lens(low, bnd);
    assert(((low + high) + bnd) =~= set_int_range(0, n));
    let ri = r.map_values(|x: usize| x as int);
    assert forall|c: int| (low + bnd).contains(c) implies ri.to_set().contains(c) by {
        assert(p(c));
        assert(r.contains(c as usize));
        let i = choose|i: int| 0 <= i < r.len() && r[i] == c as usize;
        assert(ri[i] == c);
    }
    assert forall|c: int| ri.to_set().contains(c) implies (low + bnd).contains(c) by {
        let i = choose|i: int| 0 <= i < ri.len() && ri[i] == c;
        assert(is_edge_corner(t, r[i] as int));
    }
    assert(ri.to_set() =~= low + bnd);
    assert forall|i: int, j: int| 0 <= i < ri.len() && 0 <= j < ri.len() && i != j implies ri[i]
        != ri[j] by {
        if i < j {
            assert(r[i] < r[j]);
        } else {
            assert(r[j] < r[i]);
        }
    }
    ri.unique_seq_to_set();
}

} // verus!
