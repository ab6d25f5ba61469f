use vstd::prelude::*;
use crate::corner_table::{next_of, prev_of, next_corner, previous_corner, Corner, CornerTable, Vertex};
use crate::one_ring::{faces_around_vertex, one_ring_faces, one_ring_vertices, vertices_around_vertex};

verus! {

/// The face that corner `c` belongs to.
pub open spec fn face_of(c: int) -> int {
    c / 3
}

/// Corner `x`, if present, lies outside the face of `c` and outside the face of `o`.
pub open spec fn outside(x: Option<usize>, c: int, o: Option<usize>) -> bool {
    match x {
        Some(y) => face_of(y as int) != face_of(c) && match o {
            Some(z) => face_of(y as int) != face_of(z as int),
            None => true,
        },
        None => true,
    }
}

/// The edge that corner `c` stands for can be collapsed without breaking the links of
/// the table: its face and the face across it are distinct and live, its two end
/// vertices differ and the first of them is live, and the faces beyond the sides of
/// the two removed faces are neither of them.
pub open spec fn collapse_ready<P>(t: CornerTable<P>, c: int) -> bool {
    let o = t.opp(c);
    &&& 0 <= c < t.num_corners()
    &&& !t.corners@[c].deleted
    &&& t.vert(next_of(c)) != t.vert(prev_of(c))
    &&& !t.vertices@[t.vert(next_of(c))].deleted
    &&& outside(t.opp(next_of(c)), c, o)
    &&& outside(t.opp(prev_of(c)), c, o)
    &&& match o {
        Some(oc) => {
            &&& face_of(oc as int) != face_of(c)
            &&& outside(t.opp(next_of(oc as int)), c, o)
            &&& outside(t.opp(prev_of(oc as int)), c, o)
        },
        None => true,
    }
}

/// Corner `x` lies in one of the two faces removed by collapsing the edge of `c`.
pub open spec fn in_removed_face<P>(t: CornerTable<P>, c: int, x: int) -> bool {
    face_of(x) == face_of(c) || (t.opp(c) is Some && face_of(x) == face_of(t.opp(c).unwrap() as int))
}

/// Vertex `x` after `from` is renamed `to`.
pub open spec fn renamed(x: int, from: int, to: int) -> int {
    if x == from {
        to
    } else {
        x
    }
}

/// The opposite that corner `x` gets when the edge of `c` collapses: the two outer
/// neighbours of each removed face become each other's opposites.
pub open spec fn collapsed_opp<P>(t: CornerTable<P>, c: int, x: int) -> Option<usize> {
    let o = t.opp(c);
    if in_removed_face(t, c, x) {
        None
    } else if t.opp(next_of(c)) == Some(x as usize) {
        t.opp(prev_of(c))
    } else if t.opp(prev_of(c)) == Some(x as usize) {
        t.opp(next_of(c))
    } else if o is Some && t.opp(next_of(o.unwrap() as int)) == Some(x as usize) {
        t.opp(prev_of(o.unwrap() as int))
    } else if o is Some && t.opp(prev_of(o.unwrap() as int)) == Some(x as usize) {
        t.opp(next_of(o.unwrap() as int))
    } else {
        t.opp(x)
    }
}

/// The corners after collapsing the edge of `c`: the two faces are deleted, the outer
/// neighbours are linked, and the second end vertex is renamed to the first.
pub open spec fn collapsed_corners<P>(t: CornerTable<P>, c: int, r: CornerTable<P>) -> bool {
    let w = t.vert(next_of(c));
    let u = t.vert(prev_of(c));
    &&& r.corners@.len() == t.corners@.len()
    &&& forall|x: int|
        0 <= x < t.num_corners() ==> {
            &&& (#[trigger] r.corners@[x]).vertex_index as int == renamed(t.vert(x), u, w)
            &&& r.corners@[x].opposite_corner_index == collapsed_opp(t, c, x)
            &&& r.corners@[x].deleted == (t.corners@[x].deleted || in_removed_face(t, c, x))
        }
}

/// Facts about the corners around the collapsing edge of `c`.
proof fn lemma_collapse_neighbourhood<P>(t: CornerTable<P>, c: int)
    requires
        t.wf(),
        collapse_ready(t, c),
    ensures
        face_of(next_of(c)) == face_of(c),
        face_of(prev_of(c)) == face_of(c),
        0 <= next_of(c) < t.num_corners(),
        0 <= prev_of(c) < t.num_corners(),
        t.opp(c) is Some ==> {
            let oc = t.opp(c).unwrap() as int;
            &&& 0 <= oc < t.num_corners()
            &&& t.opp(oc) == Some(c as usize)
            &&& face_of(next_of(oc)) == face_of(oc)
            &&& face_of(prev_of(oc)) == face_of(oc)
            &&& 0 <= next_of(oc) < t.num_corners()
            &&& 0 <= prev_of(oc) < t.num_corners()
            &&& t.vert(next_of(oc)) == t.vert(prev_of(c))
            &&& t.vert(prev_of(oc)) == t.vert(next_of(c))
        },
{
    t.lemma_corner(c);
    if t.opp(c) is Some {
        t.lemma_opposite(c);
    }
}

/// A corner and its successor share their face.
proof fn lemma_next_same_face(x: int)
    requires
        0 <= x,
    ensures
        face_of(next_of(x)) == face_of(x),
        0 <= next_of(x),
{
}

/// The corners of a face are the corner itself and its two neighbours.
proof fn lemma_same_face(c: int, x: int)
    requires
        0 <= c,
        0 <= x,
        face_of(x) == face_of(c),
    ensures
        x == c || x == next_of(c) || x == prev_of(c),
{
}

/// The new opposite of a corner that is not next to the removed faces is its old one,
/// and that one is not next to them either.
#[verifier::rlimit(40)]
proof fn lemma_collapsed_other<P>(t: CornerTable<P>, c: int, r: CornerTable<P>, x: int)
    requires
        t.wf(),
        collapse_ready(t, c),
        collapsed_corners(t, c, r),
        0 <= x < r.num_corners(),
        r.opp(x) is Some,
        r.opp(x) == t.opp(x),
        !in_removed_face(t, c, x),
    ensures
        ({
            let y = r.opp(x).unwrap() as int;
            &&& 0 <= y < r.num_corners()
            &&& r.opp(y) == Some(x as usize)
            &&& r.vert(next_of(y)) == r.vert(prev_of(x))
            &&& r.vert(prev_of(y)) == r.vert(next_of(x))
            &&& r.corners@[y].deleted == r.corners@[x].deleted
        }),
{
    lemma_collapse_neighbourhood(t, c);
    let c1 = next_of(c);
    let c2 = prev_of(c);
    t.lemma_opposite(x);
    let y = t.opp(x).unwrap() as int;
    t.lemma_corner(x);
    t.lemma_corner(y);
    let _ = r.corners@[x];
    let _ = r.corners@[y];
    let _ = r.corners@[next_of(y)];
    let _ = r.corners@[prev_of(y)];
    let _ = r.corners@[next_of(x)];
    let _ = r.corners@[prev_of(x)];
    let _ = r.corners@[next_of(x)];
    assert(x != c && x != c1 && x != c2);
    if face_of(y) == face_of(c) {
        lemma_same_face(c, y);
        assert(false);
    }
    if t.opp(c) is Some {
        let oc = t.opp(c).unwrap() as int;
        if face_of(y) == face_of(oc) {
            lemma_same_face(oc, y);
            assert(false);
        }
    }
    if t.opp(c1) == Some(y as usize) {
        t.lemma_opposite(c1);
    }
    if t.opp(c2) == Some(y as usize) {
        t.lemma_opposite(c2);
    }
    if t.opp(c) is Some {
        let oc = t.opp(c).unwrap() as int;
        if t.opp(next_of(oc)) == Some(y as usize) {
            t.lemma_opposite(next_of(oc));
        }
        if t.opp(prev_of(oc)) == Some(y as usize) {
            t.lemma_opposite(prev_of(oc));
        }
    }
    assert(r.opp(y) == t.opp(y));
}

/// The two outer neighbours `a` and `b` of a removed face with corner `k` are linked.
#[verifier::rlimit(40)]
proof fn lemma_collapsed_side<P>(t: CornerTable<P>, c: int, r: CornerTable<P>, k: int, x: int)
    requires
        t.wf(),
        collapse_ready(t, c),
        collapsed_corners(t, c, r),
        k == c || (t.opp(c) is Some && k == t.opp(c).unwrap()),
        0 <= x < r.num_corners(),
        !in_removed_face(t, c, x),
        t.opp(next_of(k)) == Some(x as usize) || t.opp(prev_of(k)) == Some(x as usize),
    ensures
        r.opp(x) is Some ==> 0 <= r.opp(x).unwrap() < r.num_corners(),
        r.opp(x) is Some ==> r.opp(r.opp(x).unwrap() as int) == Some(x as usize),
        r.opp(x) is Some ==> r.vert(next_of(r.opp(x).unwrap() as int)) == r.vert(prev_of(x)),
        r.opp(x) is Some ==> r.vert(prev_of(r.opp(x).unwrap() as int)) == r.vert(next_of(x)),
        r.opp(x) is Some ==> r.corners@[r.opp(x).unwrap() as int].deleted == r.corners@[x].deleted,
{
    lemma_collapse_neighbourhood(t, c);
    let c1 = next_of(c);
    let c2 = prev_of(c);
    let k1 = next_of(k);
    let k2 = prev_of(k);
    t.lemma_corner(c);
    t.lemma_corner(k);
    if t.opp(k1) is Some {
        t.lemma_opposite(k1);
    }
    if t.opp(k2) is Some {
        t.lemma_opposite(k2);
    }
    if t.opp(c1) is Some {
        t.lemma_opposite(c1);
    }
    if t.opp(c2) is Some {
        t.lemma_opposite(c2);
    }
    if t.opp(c) is Some {
        let oc = t.opp(c).unwrap() as int;
        if t.opp(next_of(oc)) is Some {
            t.lemma_opposite(next_of(oc));
        }
        if t.opp(prev_of(oc)) is Some {
            t.lemma_opposite(prev_of(oc));
        }
    }
    assert(next_of(next_of(k)) == prev_of(k));
    assert(prev_of(prev_of(k)) == next_of(k));
    t.lemma_corner(next_of(k));
    t.lemma_corner(prev_of(k));
    if t.opp(c) is Some {
        t.lemma_opposite(c);
    }
    assert(next_of(next_of(c)) == prev_of(c));
    assert(prev_of(prev_of(c)) == next_of(c));
    let _ = r.corners@[x];
    t.lemma_corner(x);
    if t.opp(c) is Some {
        let oc = t.opp(c).unwrap() as int;
        assert(next_of(next_of(oc)) == prev_of(oc));
        assert(prev_of(prev_of(oc)) == next_of(oc));
        t.lemma_corner(oc);
    }
    if r.opp(x) is Some {
        let y = r.opp(x).unwrap() as int;
        t.lemma_corner(y);
        assert(!in_removed_face(t, c, y));
        if t.opp(y) is Some {
            t.lemma_opposite(y);
        }
        let _ = r.corners@[y];
        let _ = r.corners@[next_of(y)];
        let _ = r.corners@[prev_of(y)];
        let _ = r.corners@[next_of(x)];
        let _ = r.corners@[prev_of(x)];
    }
}

/// The links of a table whose corners were collapsed are consistent.
proof fn lemma_collapsed_opposites<P>(t: CornerTable<P>, c: int, r: CornerTable<P>)
    requires
        t.wf(),
        collapse_ready(t, c),
        collapsed_corners(t, c, r),
        r.vertices@.len() == t.vertices@.len(),
    ensures
        r.opposites_consistent(),
{
    lemma_collapse_neighbourhood(t, c);
    assert forall|x: int|
        0 <= x < r.num_corners() && (#[trigger] r.opp(x)) is Some implies {
        let y = r.opp(x).unwrap() as int;
        &&& 0 <= y < r.num_corners()
        &&& r.opp(y) == Some(x as usize)
        &&& r.vert(next_of(y)) == r.vert(prev_of(x))
        &&& r.vert(prev_of(y)) == r.vert(next_of(x))
        &&& r.corners@[y].deleted == r.corners@[x].deleted
    } by {
        let _ = r.corners@[x];
        if !in_removed_face(t, c, x) {
            if t.opp(next_of(c)) == Some(x as usize) || t.opp(prev_of(c)) == Some(x as usize) {
                lemma_collapsed_side(t, c, r, c, x);
            } else if t.opp(c) is Some && (t.opp(next_of(t.opp(c).unwrap() as int)) == Some(
                x as usize,
            ) || t.opp(prev_of(t.opp(c).unwrap() as int)) == Some(x as usize)) {
                lemma_collapsed_side(t, c, r, t.opp(c).unwrap() as int, x);
            } else {
                lemma_collapsed_other(t, c, r, x);
            }
        }
    }
}

/// The faces and vertex references of a table whose corners were collapsed are consistent.
proof fn lemma_collapsed_faces<P>(t: CornerTable<P>, c: int, r: CornerTable<P>)
    requires
        t.wf(),
        collapse_ready(t, c),
        collapsed_corners(t, c, r),
        r.vertices@.len() == t.vertices@.len(),
    ensures
        forall|x: int|
            0 <= x < r.num_corners() ==> (#[trigger] r.corners@[x]).deleted
                == r.corners@[next_of(x)].deleted,
{
    assert forall|x: int| 0 <= x < r.num_corners() implies (#[trigger] r.corners@[x]).deleted
        == r.corners@[next_of(x)].deleted by {
        lemma_next_same_face(x);
        t.lemma_corner(x);
        let _ = r.corners@[next_of(x)];
        if t.opp(c) is Some {
            assert(in_removed_face(t, c, x) == in_removed_face(t, c, next_of(x)));
        }
    }
}

/// The corners of a table whose corners were collapsed refer to its vertices.
proof fn lemma_collapsed_vertex_refs<P>(t: CornerTable<P>, c: int, r: CornerTable<P>)
    requires
        t.wf(),
        collapse_ready(t, c),
        collapsed_corners(t, c, r),
        r.vertices@.len() == t.vertices@.len(),
    ensures
        forall|x: int|
            0 <= x < r.num_corners() ==> (#[trigger] r.corners@[x]).vertex_index
                < r.vertices@.len(),
{
    lemma_collapse_neighbourhood(t, c);
    assert forall|x: int| 0 <= x < r.num_corners() implies (#[trigger] r.corners@[x]).vertex_index
        < r.vertices@.len() by {
        t.lemma_corner(x);
        t.lemma_corner(next_of(c));
    }
}

/// The vertices after the collapse of the edge of `c` onto `position`: the second end
/// vertex is deleted, the first takes the position, and every other vertex keeps its
/// place; the vertices of the removed faces may be deleted when no live corner uses
/// them any more.
pub open spec fn collapsed_vertices<P>(t: CornerTable<P>, c: int, position: P, r: CornerTable<P>) -> bool {
    let w = t.vert(next_of(c));
    let u = t.vert(prev_of(c));
    &&& r.vertices@.len() == t.vertices@.len()
    &&& r.vertices@[u].deleted
    &&& r.vertices@[w].position == position
    &&& forall|v: int|
        0 <= v < t.vertices@.len() && v != w ==> (#[trigger] r.vertices@[v]).position
            == t.vertices@[v].position
    &&& forall|v: int|
        0 <= v < t.vertices@.len() && t.vertices@[v].deleted ==> (#[trigger] r.vertices@[v]).deleted
    &&& forall|v: int|
        0 <= v < t.vertices@.len() && v != w && v != u && v != t.vert(c) && !(t.opp(c) is Some
            && v == t.vert(t.opp(c).unwrap() as int)) ==> #[trigger] r.vertices@[v]
            == t.vertices@[v]
}

/// After a collapse, vertex `x` is deleted or refers to a live corner of its own.
pub open spec fn settled<P>(m: CornerTable<P>, x: int) -> bool {
    &&& !m.vertices@[x].deleted ==> {
        let k = m.vertices@[x].corner_index as int;
        &&& 0 <= k < m.num_corners()
        &&& m.vert(k) == x
        &&& !m.corners@[k].deleted
    }
}

impl<P: Copy> CornerTable<P> {
    /// The opposite that corner `x` gets when the edge of `c` collapses.
    fn collapsed_opposite(&self, c: usize, x: usize) -> (r: Option<usize>)
        requires
            self.wf(),
            collapse_ready(*self, c as int),
            x < self.corners@.len(),
        ensures
            r == collapsed_opp(*self, c as int, x as int),
    {
        proof {
            lemma_collapse_neighbourhood(*self, c as int);
        }
        let o = self.corners[c].opposite_corner_index;
        let in_removed = x / 3 == c / 3 || match o {
            Some(oc) => x / 3 == oc / 3,
            None => false,
        };
        if in_removed {
            return None;
        }
        let c1 = next_corner(c);
        let c2 = previous_corner(c);
        if self.corners[c1].opposite_corner_index == Some(x) {
            return self.corners[c2].opposite_corner_index;
        }
        if self.corners[c2].opposite_corner_index == Some(x) {
            return self.corners[c1].opposite_corner_index;
        }
        if let Some(oc) = o {
            let o1 = next_corner(oc);
            let o2 = previous_corner(oc);
            if self.corners[o1].opposite_corner_index == Some(x) {
                return self.corners[o2].opposite_corner_index;
            }
            if self.corners[o2].opposite_corner_index == Some(x) {
                return self.corners[o1].opposite_corner_index;
            }
        }
        self.corners[x].opposite_corner_index
    }

    /// Points vertex `v` at a live corner that uses it, or deletes it when there is none.
    fn refresh_vertex(&mut self, v: usize)
        requires
            v < old(self).vertices@.len(),
        ensures
            final(self).corners@ == old(self).corners@,
            final(self).vertices@.len() == old(self).vertices@.len(),
            final(self).vertices@[v as int].position == old(self).vertices@[v as int].position,
            old(self).vertices@[v as int].deleted ==> final(self).vertices@[v as int].deleted,
            !old(self).vertices@[v as int].deleted && final(self).vertices@[v as int].deleted
                ==> forall|k: int|
                0 <= k < final(self).corners@.len() ==> final(self).corners@[k].deleted
                    || final(self).vert(k) != v,
            !final(self).vertices@[v as int].deleted ==> {
                let k = final(self).vertices@[v as int].corner_index as int;
                &&& 0 <= k < final(self).num_corners()
                &&& final(self).vert(k) == v
                &&& !final(self).corners@[k].deleted
            },
            forall|k: int|
                0 <= k < old(self).vertices@.len() && k != v ==> #[trigger] final(self).vertices@[k]
                    == old(self).vertices@[k],
    {
        let pos = self.vertices[v].position;
        if self.vertices[v].deleted {
            return;
        }
        let n = self.corners.len();
        let mut i: usize = 0;
        while i < n
            invariant
                0 <= i <= n,
                n == self.corners@.len(),
                self.corners@ == old(self).corners@,
                self.vertices@ == old(self).vertices@,
                v < self.vertices@.len(),
                pos == old(self).vertices@[v as int].position,
                !old(self).vertices@[v as int].deleted,
                forall|k: int|
                    0 <= k < i ==> (#[trigger] self.corners@[k]).deleted || self.corners@[k].vertex_index
                        != v,
            decreases n - i,
        {
            if !self.corners[i].deleted && self.corners[i].vertex_index == v {
                self.vertices.set(v, Vertex { position: pos, corner_index: i, deleted: false });
                return;
            }
            i = i + 1;
        }
        let ghost cs = self.corners@;
        self.vertices.set(v, Vertex { position: pos, corner_index: 0, deleted: true });
        assert(self.corners@ == cs);
        assert(forall|k: int| 0 <= k < n ==> (#[trigger] cs[k]).deleted || cs[k].vertex_index != v);
    }

    /// The vertex records after a collapse of an edge from `w` to `u`: `u` is deleted,
    /// `w` takes `position`, and `w` and the apexes refer to a live corner or are deleted.
    fn settle_vertices(&mut self, u: usize, w: usize, apex: usize, other_apex: Option<usize>, position: P)
        requires
            u < old(self).vertices@.len(),
            w < old(self).vertices@.len(),
            apex < old(self).vertices@.len(),
            other_apex matches Some(s) ==> s < old(self).vertices@.len(),
            u != w,
        ensures
            final(self).corners@ == old(self).corners@,
            final(self).vertices@.len() == old(self).vertices@.len(),
            final(self).vertices@[u as int].deleted,
            final(self).vertices@[w as int].position == position,
            forall|v: int|
                0 <= v < old(self).vertices@.len() && v != w ==> (#[trigger] final(self).vertices@[v]).position
                    == old(self).vertices@[v].position,
            forall|v: int|
                0 <= v < old(self).vertices@.len() && old(self).vertices@[v].deleted
                    ==> (#[trigger] final(self).vertices@[v]).deleted,
            forall|v: int|
                0 <= v < old(self).vertices@.len() && v != w && v != u && v != apex && !(
                (other_apex is Some && v == other_apex.unwrap() as int)) ==> #[trigger] final(self).vertices@[v]
                    == old(self).vertices@[v],
            forall|v: int|
                0 <= v < old(self).vertices@.len() && (v == w || v == apex || (other_apex is Some && v == other_apex.unwrap() as int)) && !(#[trigger] final(self).vertices@[v]).deleted ==> {
                    let k = final(self).vertices@[v].corner_index as int;
                    &&& 0 <= k < final(self).num_corners()
                    &&& final(self).vert(k) == v
                    &&& !final(self).corners@[k].deleted
                },
    {
        let pw = self.vertices[u].position;
        self.vertices.set(u, Vertex { position: pw, corner_index: 0, deleted: true });
        let cw = self.vertices[w].corner_index;
        let dw = self.vertices[w].deleted;
        self.vertices.set(w, Vertex { position, corner_index: cw, deleted: dw });
        self.refresh_vertex(w);
        let ghost m2 = *self;
        assert(settled(m2, w as int));
        self.refresh_vertex(apex);
        let ghost m3 = *self;
        assert(settled(m3, apex as int));
        assert(apex != w ==> m3.vertices@[w as int] == m2.vertices@[w as int]);
        assert(settled(m3, w as int));
        if let Some(sa) = other_apex {
            self.refresh_vertex(sa);
            assert(settled(*self, sa as int));
            assert(sa != w ==> self.vertices@[w as int] == m3.vertices@[w as int]);
            assert(sa != apex ==> self.vertices@[apex as int] == m3.vertices@[apex as int]);
        }
        assert(settled(*self, w as int));
        assert(settled(*self, apex as int));
        assert(other_apex matches Some(sa) ==> settled(*self, sa as int));
    }

    /// Collapses the edge that corner `corner` stands for: its second end vertex merges
    /// into the first, which moves to `position`; the face of `corner` and the face
    /// across the edge are deleted, and their outer neighbours become opposites.
    #[verifier::rlimit(80)]
    pub fn collapse_edge(&mut self, corner: usize, position: P)
        requires
            old(self).wf(),
            collapse_ready(*old(self), corner as int),
        ensures
            final(self).wf(),
            collapsed_corners(*old(self), corner as int, *final(self)),
            collapsed_vertices(*old(self), corner as int, position, *final(self)),
    {
        let ghost t = *self;
        let n = self.corners.len();
        proof {
            lemma_collapse_neighbourhood(t, corner as int);
            t.lemma_corner(corner as int);
            t.lemma_corner(next_of(corner as int));
            t.lemma_corner(prev_of(corner as int));
            if t.opp(corner as int) is Some {
                t.lemma_corner(t.opp(corner as int).unwrap() as int);
            }
        }
        let w = self.corners[next_corner(corner)].vertex_index;
        let u = self.corners[previous_corner(corner)].vertex_index;
        let apex = self.corners[corner].vertex_index;
        let o = self.corners[corner].opposite_corner_index;
        let other_apex = match o {
            Some(oc) => Some(self.corners[oc].vertex_index),
            None => None,
        };
        let mut corners: Vec<Corner> = Vec::new();
        let mut x: usize = 0;
        while x < n
            invariant
                t == *self,
                t.wf(),
                collapse_ready(t, corner as int),
                n == t.corners@.len(),
                0 <= x <= n,
                w == t.vert(next_of(corner as int)),
                u == t.vert(prev_of(corner as int)),
                o == t.opp(corner as int),
                corners@.len() == x,
                forall|k: int|
                    0 <= k < x ==> {
                        &&& (#[trigger] corners@[k]).vertex_index as int == renamed(t.vert(k), u as int, w as int)
                        &&& corners@[k].opposite_corner_index == collapsed_opp(t, corner as int, k)
                        &&& corners@[k].deleted == (t.corners@[k].deleted || in_removed_face(t, corner as int, k))
                    },
            decreases n - x,
        {
            let cx = self.corners[x];
            let vi = if cx.vertex_index == u {
                w
            } else {
                cx.vertex_index
            };
            let removed = x / 3 == corner / 3 || match o {
                Some(oc) => x / 3 == oc / 3,
                None => false,
            };
            let opp = self.collapsed_opposite(corner, x);
            corners.push(Corner { vertex_index: vi, opposite_corner_index: opp, deleted: cx.deleted || removed });
            x = x + 1;
        }
        self.corners = corners;
        self.settle_vertices(u, w, apex, other_apex, position);
        proof {
            let r = *self;
            assert(collapsed_corners(t, corner as int, r));
            lemma_collapsed_opposites(t, corner as int, r);
            lemma_collapsed_faces(t, corner as int, r);
            lemma_collapsed_vertex_refs(t, corner as int, r);
            t.lemma_wf_parts();
            let s_apex = if o is Some { t.vert(o.unwrap() as int) } else { apex as int };
            assert forall|v: int|
                0 <= v < r.vertices@.len() && !(#[trigger] r.vertices@[v]).deleted implies {
                let k = r.vertices@[v].corner_index as int;
                &&& 0 <= k < r.num_corners()
                &&& r.vert(k) == v
                &&& !r.corners@[k].deleted
            } by {
                if v != w && v != apex && v != s_apex && v != u {
                    let k = t.vertices@[v].corner_index as int;
                    assert(r.vertices@[v] == t.vertices@[v]);
                    let _ = t.corners@[k];
                    let _ = r.corners@[k];
                    if in_removed_face(t, corner as int, k) {
                        if face_of(k) == face_of(corner as int) {
                            lemma_same_face(corner as int, k);
                        } else {
                            lemma_same_face(o.unwrap() as int, k);
                        }
                    }
                }
            }
            r.lemma_wf_from_parts();
        }
    }
}

/// The apexes of the faces on both sides of the edge of `c`: the only vertices that the
/// two end vertices may share as neighbours.
pub open spec fn is_edge_apex<P>(t: CornerTable<P>, c: int, x: int) -> bool {
    x == t.vert(c) || (t.opp(c) is Some && x == t.vert(t.opp(c).unwrap() as int))
}

/// The neighbours that the two end vertices of the edge of `c` share are apexes of the
/// faces beside the edge; otherwise the collapse would pinch the surface.
pub open spec fn link_condition<P>(t: CornerTable<P>, c: int) -> bool {
    let a = one_ring_vertices(t, t.vert(next_of(c)));
    let b = one_ring_vertices(t, t.vert(prev_of(c)));
    forall|i: int, j: int|
        0 <= i < a.len() && 0 <= j < b.len() && #[trigger] a[i] == #[trigger] b[j] ==> is_edge_apex(
            t,
            c,
            a[i],
        )
}

/// The merged vertex keeps at least two faces: the faces around both end vertices,
/// less the removed faces, which each of them counts.
pub open spec fn keeps_two_faces<P>(t: CornerTable<P>, c: int) -> bool {
    let removed: int = if t.opp(c) is Some {
        2
    } else {
        1
    };
    one_ring_faces(t, t.vert(next_of(c))).len() + one_ring_faces(t, t.vert(prev_of(c))).len() >= 2
        * removed + 2
}

/// The edge of `c` may be collapsed: the links of the table allow it, both end vertices
/// are live, the merged vertex keeps two faces, and the collapse keeps the surface a
/// manifold.
pub open spec fn collapse_valid<P>(t: CornerTable<P>, c: int) -> bool {
    &&& collapse_ready(t, c)
    &&& !t.vertices@[t.vert(prev_of(c))].deleted
    &&& keeps_two_faces(t, c)
    &&& link_condition(t, c)
}

impl<P: Copy> CornerTable<P> {
    /// Corner `x`, if present, lies outside the face of `c` and outside the face of `o`.
    fn is_outside(x: Option<usize>, c: usize, o: Option<usize>) -> (r: bool)
        ensures
            r == outside(x, c as int, o),
    {
        match x {
            Some(y) => y / 3 != c / 3 && match o {
                Some(z) => y / 3 != z / 3,
                None => true,
            },
            None => true,
        }
    }

    /// Whether the links of the table allow collapsing the edge of `corner`.
    pub fn is_collapse_ready(&self, corner: usize) -> (r: bool)
        requires
            self.wf(),
        ensures
            r == collapse_ready(*self, corner as int),
    {
        if corner >= self.corners.len() || self.corners[corner].deleted {
            return false;
        }
        proof {
            self.lemma_corner(corner as int);
            lemma_next_same_face(corner as int);
            assert(0 <= next_of(corner as int) < self.num_corners());
            assert(0 <= prev_of(corner as int) < self.num_corners());
            self.lemma_corner(next_of(corner as int));
            self.lemma_corner(prev_of(corner as int));
        }
        let c1 = next_corner(corner);
        let c2 = previous_corner(corner);
        let w = self.corners[c1].vertex_index;
        if w == self.corners[c2].vertex_index || self.vertices[w].deleted {
            return false;
        }
        let o = self.corners[corner].opposite_corner_index;
        if !Self::is_outside(self.corners[c1].opposite_corner_index, corner, o)
            || !Self::is_outside(self.corners[c2].opposite_corner_index, corner, o) {
            return false;
        }
        match o {
            Some(oc) => {
                proof {
                    self.lemma_opposite(corner as int);
                    assert(0 <= next_of(oc as int) < self.num_corners());
                    assert(0 <= prev_of(oc as int) < self.num_corners());
                }
                oc / 3 != corner / 3 && Self::is_outside(
                    self.corners[next_corner(oc)].opposite_corner_index,
                    corner,
                    o,
                ) && Self::is_outside(self.corners[previous_corner(oc)].opposite_corner_index, corner, o)
            },
            None => true,
        }
    }

    /// Decides whether the edge of `corner` may be collapsed; changes nothing.
    pub fn is_collapse_valid(&self, corner: usize) -> (r: bool)
        requires
            self.wf(),
        ensures
            r == collapse_valid(*self, corner as int),
    {
        if !self.is_collapse_ready(corner) {
            return false;
        }
        proof {
            self.lemma_corner(prev_of(corner as int));
            self.lemma_corner(next_of(corner as int));
            lemma_collapse_neighbourhood(*self, corner as int);
        }
        let w = self.corners[next_corner(corner)].vertex_index;
        let u = self.corners[previous_corner(corner)].vertex_index;
        if self.vertices[u].deleted {
            return false;
        }
        let apex = self.corners[corner].vertex_index;
        let other_apex = match self.corners[corner].opposite_corner_index {
            Some(oc) => {
                proof {
                    self.lemma_opposite(corner as int);
                }
                Some(self.corners[oc].vertex_index)
            },
            None => None,
        };
        let removed: usize = if other_apex.is_some() {
            2
        } else {
            1
        };
        let faces_w = faces_around_vertex(self, w);
        let faces_u = faces_around_vertex(self, u);
        proof {
            assert(faces_w@.map_values(|c: usize| c as int).len() == faces_w@.len());
            assert(faces_u@.map_values(|c: usize| c as int).len() == faces_u@.len());
        }
        if faces_w.len() < 2 * removed + 2 && faces_u.len() < 2 * removed + 2 - faces_w.len() {
            return false;
        }
        let ring_w = vertices_around_vertex(self, w);
        let ring_u = vertices_around_vertex(self, u);
        let ghost a = one_ring_vertices(*self, w as int);
        let ghost b = one_ring_vertices(*self, u as int);
        proof {
            assert forall|i: int| 0 <= i < ring_w@.len() implies a[i] == #[trigger] ring_w@[i] as int by {
                assert(ring_w@.map_values(|c: usize| c as int)[i] == ring_w@[i] as int);
            }
            assert forall|j: int| 0 <= j < ring_u@.len() implies b[j] == #[trigger] ring_u@[j] as int by {
                assert(ring_u@.map_values(|c: usize| c as int)[j] == ring_u@[j] as int);
            }
        }
        let mut i: usize = 0;
        while i < ring_w.len()
            invariant
                0 <= i <= ring_w@.len(),
                a.len() == ring_w@.len(),
                b.len() == ring_u@.len(),
                forall|k: int| 0 <= k < ring_w@.len() ==> a[k] == #[trigger] ring_w@[k] as int,
                forall|k: int| 0 <= k < ring_u@.len() ==> b[k] == #[trigger] ring_u@[k] as int,
                w as int == self.vert(next_of(corner as int)),
                u as int == self.vert(prev_of(corner as int)),
                a == one_ring_vertices(*self, w as int),
                b == one_ring_vertices(*self, u as int),
                apex == self.vert(corner as int),
                other_apex == match self.opp(corner as int) {
                    Some(oc) => Some(self.corners@[oc as int].vertex_index),
                    None => None::<usize>,
                },
                forall|k: int, j: int|
                    0 <= k < i && 0 <= j < b.len() && a[k] == b[j] ==> is_edge_apex(
                        *self,
                        corner as int,
                        a[k],
                    ),
            decreases ring_w@.len() - i,
        {
            let x = ring_w[i];
            if x != apex && other_apex != Some(x) {
                let mut j: usize = 0;
                while j < ring_u.len()
                    invariant
                        0 <= j <= ring_u@.len(),
                        b.len() == ring_u@.len(),
                        forall|k: int| 0 <= k < ring_u@.len() ==> b[k] == #[trigger] ring_u@[k] as int,
                        forall|k: int| 0 <= k < j ==> b[k] != x,
                        0 <= i < a.len(),
                        a.len() == ring_w@.len(),
                        forall|k: int| 0 <= k < ring_w@.len() ==> a[k] == #[trigger] ring_w@[k] as int,
                        x == ring_w@[i as int],
                        x != apex,
                        other_apex != Some(x),
                        w as int == self.vert(next_of(corner as int)),
                        u as int == self.vert(prev_of(corner as int)),
                        a == one_ring_vertices(*self, w as int),
                        b == one_ring_vertices(*self, u as int),
                        apex == self.vert(corner as int),
                        other_apex == match self.opp(corner as int) {
                            Some(oc) => Some(self.corners@[oc as int].vertex_index),
                            None => None::<usize>,
                        },
                    decreases ring_u@.len() - j,
                {
                    if ring_u[j] == x {
                        proof {
                            assert(a[i as int] == b[j as int]);
                            assert(!is_edge_apex(*self, corner as int, a[i as int]));
                            assert(a =~= one_ring_vertices(*self, self.vert(next_of(corner as int))));
                            assert(b =~= one_ring_vertices(*self, self.vert(prev_of(corner as int))));
                            assert(0 <= i < a.len() && 0 <= j < b.len());
                            assert(!link_condition(*self, corner as int));
                        }
                        return false;
                    }
                    j = j + 1;
                }
            }
            i = i + 1;
        }
        true
    }
}

} // verus!
