use vstd::prelude::*;
use crate::corner_table::{Corner, live_face_count, next_of, prev_of, next_corner, previous_corner, CornerTable};
use crate::edge_collapse::{collapsed_corners, collapsed_vertices, collapse_valid, face_of, in_removed_face};
use crate::one_ring::{corners_around_vertex, one_ring_corners};
use crate::traversal::is_live_vertex;

verus! {

/// The error model of a decimation: what collapsing an edge costs, where the merged
/// vertex goes, and whether the move keeps the faces around it facing the same way.
pub trait CollapseMetric<P> {
    /// The cost of collapsing the edge that `corner` stands for, as a key whose order
    /// is the order of costs, and the position the merged vertex takes.
    fn collapse_cost(&self, mesh: &CornerTable<P>, corner: usize) -> (u64, P);

    /// Whether moving the merged vertex to `position` flips no face around the edge.
    fn keeps_orientation(&self, mesh: &CornerTable<P>, corner: usize, position: &P) -> bool;

    /// Told that vertex `removed` was merged into vertex `survivor`.
    fn vertices_merged(&mut self, survivor: usize, removed: usize);
}

/// A queued edge collapse, with the generations of its end vertices when it was costed.
#[derive(Clone, Copy, Debug)]
pub struct CollapseCandidate<P> {
    pub corner: usize,
    pub cost: u64,
    pub position: P,
    pub from: usize,
    pub to: usize,
    pub from_generation: usize,
    pub to_generation: usize,
}

/// The candidate no longer describes its edge: the corner was deleted, or an end vertex
/// changed since it was costed.
pub open spec fn is_stale<P>(mesh: CornerTable<P>, generations: Seq<usize>, cand: CollapseCandidate<P>) -> bool {
    ||| mesh.corners@[cand.corner as int].deleted
    ||| mesh.vert(next_of(cand.corner as int)) != cand.from
    ||| mesh.vert(prev_of(cand.corner as int)) != cand.to
    ||| generations[cand.from as int] != cand.from_generation
    ||| generations[cand.to as int] != cand.to_generation
}

/// Number of stale candidates in `q`.
pub open spec fn stale_count<P>(
    mesh: CornerTable<P>,
    generations: Seq<usize>,
    q: Seq<CollapseCandidate<P>>,
) -> nat
    decreases q.len(),
{
    if q.len() == 0 {
        0
    } else {
        stale_count(mesh, generations, q.drop_last()) + if is_stale(mesh, generations, q.last()) {
            1nat
        } else {
            0nat
        }
    }
}

proof fn lemma_stale_count_concat<P>(
    mesh: CornerTable<P>,
    generations: Seq<usize>,
    a: Seq<CollapseCandidate<P>>,
    b: Seq<CollapseCandidate<P>>,
)
    ensures
        stale_count(mesh, generations, a + b) == stale_count(mesh, generations, a) + stale_count(
            mesh,
            generations,
            b,
        ),
    decreases b.len(),
{
    if b.len() > 0 {
        assert((a + b).drop_last() =~= a + b.drop_last());
        lemma_stale_count_concat(mesh, generations, a, b.drop_last());
    } else {
        assert(a + b =~= a);
    }
}

/// Taking out one candidate lowers the stale count by one exactly when it was stale.
proof fn lemma_stale_count_remove<P>(
    mesh: CornerTable<P>,
    generations: Seq<usize>,
    q: Seq<CollapseCandidate<P>>,
    i: int,
)
    requires
        0 <= i < q.len(),
    ensures
        stale_count(mesh, generations, q) == stale_count(mesh, generations, q.remove(i)) + if is_stale(
            mesh,
            generations,
            q[i],
        ) {
            1nat
        } else {
            0nat
        },
{
    let a = q.take(i);
    let b = q.skip(i + 1);
    assert(q =~= a + (seq![q[i]] + b));
    assert(q.remove(i) =~= a + b);
    lemma_stale_count_concat(mesh, generations, a, seq![q[i]] + b);
    lemma_stale_count_concat(mesh, generations, seq![q[i]], b);
    lemma_stale_count_concat(mesh, generations, a, b);
    assert(seq![q[i]].drop_last() =~= Seq::<CollapseCandidate<P>>::empty());
    assert(seq![q[i]].last() == q[i]);
    assert(stale_count(mesh, generations, seq![q[i]]) == stale_count(
        mesh,
        generations,
        Seq::<CollapseCandidate<P>>::empty(),
    ) + if is_stale(mesh, generations, q[i]) {
        1nat
    } else {
        0nat
    });
}

/// `x` is a freshly costed candidate for the edge of `corner`: it names that corner,
/// its current end vertices and their current generations.
pub open spec fn stamped<P>(mesh: CornerTable<P>, generations: Seq<usize>, x: CollapseCandidate<P>, corner: int) -> bool {
    &&& x.corner == corner
    &&& x.from == mesh.vert(next_of(corner))
    &&& x.to == mesh.vert(prev_of(corner))
    &&& x.from_generation == generations[x.from as int]
    &&& x.to_generation == generations[x.to as int]
}

/// The live edges next to the corners `ks`: for each corner in turn, the edge of its
/// next corner and then that of its previous corner, each if live.
pub open spec fn edges_beside<P>(mesh: CornerTable<P>, ks: Seq<int>) -> Seq<int>
    decreases ks.len(),
{
    if ks.len() == 0 {
        seq![]
    } else {
        let k = ks.last();
        edges_beside(mesh, ks.drop_last()) + if 0 <= k < mesh.num_corners() {
            (if !mesh.corners@[next_of(k)].deleted {
                seq![next_of(k)]
            } else {
                seq![]
            }) + (if !mesh.corners@[prev_of(k)].deleted {
                seq![prev_of(k)]
            } else {
                seq![]
            })
        } else {
            seq![]
        }
    }
}

/// The corners at vertex `v` in angular order, none if it is not live.
pub open spec fn corners_at<P>(mesh: CornerTable<P>, v: int) -> Seq<int> {
    if is_live_vertex(mesh, v) {
        one_ring_corners(mesh, v)
    } else {
        seq![]
    }
}

/// What becomes of a candidate taken from the queue.
#[derive(Clone, Copy, Debug, PartialEq, Eq, Structural)]
pub enum Verdict {
    /// Its corner was deleted or an end vertex changed since it was costed.
    Stale,
    /// Its cost is not below the bound: the run ends.
    Stop,
    /// The collapse would break the mesh.
    Invalid,
    /// The collapse may go ahead if the metric finds that it flips no face.
    Ready,
    /// The metric found that the collapse flips a face.
    Flipped,
    /// The edge was collapsed.
    Collapsed,
}

/// The verdict on `cand` before the metric is asked about orientation.
pub open spec fn judge_spec<P>(
    max_error: u64,
    mesh: CornerTable<P>,
    generations: Seq<usize>,
    cand: CollapseCandidate<P>,
) -> Verdict {
    if is_stale(mesh, generations, cand) {
        Verdict::Stale
    } else if cand.cost >= max_error {
        Verdict::Stop
    } else if !collapse_valid(mesh, cand.corner as int) {
        Verdict::Invalid
    } else {
        Verdict::Ready
    }
}

/// The verdict on `cand` once the metric has said whether the collapse keeps every
/// face's orientation.
pub open spec fn verdict_spec<P>(
    max_error: u64,
    mesh: CornerTable<P>,
    generations: Seq<usize>,
    cand: CollapseCandidate<P>,
    keeps_orientation: bool,
) -> Verdict {
    let j = judge_spec(max_error, mesh, generations, cand);
    if j == Verdict::Ready {
        if keeps_orientation {
            Verdict::Collapsed
        } else {
            Verdict::Flipped
        }
    } else {
        j
    }
}

/// The candidate can be judged against `mesh`: its corner and end vertices exist.
pub open spec fn candidate_in_range<P>(mesh: CornerTable<P>, generations: Seq<usize>, cand: CollapseCandidate<P>) -> bool {
    &&& cand.corner < mesh.corners@.len()
    &&& cand.from < mesh.vertices@.len()
    &&& cand.to < mesh.vertices@.len()
    &&& generations.len() == mesh.vertices@.len()
}

/// Decimation by edge collapse: the cheapest valid collapse is applied while its cost
/// stays below `max_error`. A bound of 0 admits no collapse.
pub struct EdgeDecimator {
    pub max_error: u64,
}

/// Removing faces and reviving none lowers the count of live faces.
proof fn lemma_live_faces_shrink(old_cs: Seq<Corner>, new_cs: Seq<Corner>, k: nat, f: int)
    requires
        old_cs.len() == new_cs.len(),
        3 * k <= old_cs.len(),
        forall|j: int|
            0 <= j < k ==> (!(#[trigger] new_cs[3 * j]).deleted ==> !old_cs[3 * j].deleted),
    ensures
        live_face_count(new_cs, k) <= live_face_count(old_cs, k),
        0 <= f < k && !old_cs[3 * f].deleted && new_cs[3 * f].deleted ==> live_face_count(new_cs, k)
            < live_face_count(old_cs, k),
    decreases k,
{
    if k > 0 {
        let _ = new_cs[3 * (k - 1)];
        lemma_live_faces_shrink(old_cs, new_cs, (k - 1) as nat, f);
    }
}


/// At most `k` of the first `k` faces are live.
proof fn lemma_live_face_count_bound(cs: Seq<Corner>, k: nat)
    ensures
        live_face_count(cs, k) <= k,
    decreases k,
{
    if k > 0 {
        lemma_live_face_count_bound(cs, (k - 1) as nat);
    }
}

/// A collapse deletes the face of its corner and revives no face.
proof fn lemma_collapse_shrinks<P>(t: CornerTable<P>, c: int, r: CornerTable<P>)
    requires
        t.wf(),
        0 <= c < t.num_corners(),
        !t.corners@[c].deleted,
        collapsed_corners(t, c, r),
    ensures
        live_face_count(r.corners@, (t.num_corners() / 3) as nat) < live_face_count(
            t.corners@,
            (t.num_corners() / 3) as nat,
        ),
{
    let n = t.num_corners();
    let f = face_of(c);
    let f0 = 3 * f;
    t.lemma_corner(f0);
    t.lemma_corner(f0 + 1);
    assert(next_of(f0) == f0 + 1);
    assert(next_of(f0 + 1) == f0 + 2);
    assert(c == f0 || c == f0 + 1 || c == f0 + 2);
    let _ = r.corners@[f0];
    assert(face_of(f0) == face_of(c));
    assert(in_removed_face(t, c, f0));
    assert forall|j: int| 0 <= j < n / 3 && !(#[trigger] r.corners@[3 * j]).deleted implies !t.corners@[
        3 * j].deleted by {
        let _ = r.corners@[3 * j];
    }
    lemma_live_faces_shrink(t.corners@, r.corners@, (n / 3) as nat, f);
}

impl EdgeDecimator {
    pub fn new(max_error: u64) -> (r: Self)
        ensures
            r.max_error == max_error,
    {
        EdgeDecimator { max_error }
    }

    /// Judges a candidate taken from the queue, short of asking the metric.
    pub fn judge<P: Copy>(
        &self,
        mesh: &CornerTable<P>,
        generations: &Vec<usize>,
        cand: &CollapseCandidate<P>,
    ) -> (r: Verdict)
        requires
            mesh.wf(),
            candidate_in_range(*mesh, generations@, *cand),
        ensures
            r == judge_spec(self.max_error, *mesh, generations@, *cand),
    {
        let c = cand.corner;
        proof {
            mesh.lemma_corner(next_of(c as int));
            mesh.lemma_corner(prev_of(c as int));
        }
        let stale = mesh.corners[c].deleted || mesh.corners[next_corner(c)].vertex_index
            != cand.from || mesh.corners[previous_corner(c)].vertex_index != cand.to
            || generations[cand.from] != cand.from_generation || generations[cand.to]
            != cand.to_generation;
        if stale {
            Verdict::Stale
        } else if cand.cost >= self.max_error {
            Verdict::Stop
        } else if !mesh.is_collapse_valid(c) {
            Verdict::Invalid
        } else {
            Verdict::Ready
        }
    }

    /// One decision of the decimation, given the metric's answer on whether collapsing
    /// `cand` keeps every face's orientation: the edge is collapsed onto the candidate's
    /// position exactly when the candidate is current, cheaper than the bound, valid,
    /// and keeps orientation; the first end vertex then moves to a new generation.
    /// Otherwise nothing changes.
    pub fn step<P: Copy>(
        &self,
        mesh: &mut CornerTable<P>,
        generations: &mut Vec<usize>,
        cand: &CollapseCandidate<P>,
        keeps_orientation: bool,
    ) -> (r: Verdict)
        requires
            old(mesh).wf(),
            candidate_in_range(*old(mesh), old(generations)@, *cand),
            old(generations)@[cand.from as int] < usize::MAX,
        ensures
            final(mesh).wf(),
            r == verdict_spec(self.max_error, *old(mesh), old(generations)@, *cand, keeps_orientation),
            r == Verdict::Collapsed ==> {
                &&& collapsed_corners(*old(mesh), cand.corner as int, *final(mesh))
                &&& collapsed_vertices(*old(mesh), cand.corner as int, cand.position, *final(mesh))
                &&& final(generations)@ == old(generations)@.update(
                    cand.from as int,
                    (old(generations)@[cand.from as int] + 1) as usize,
                )
            },
            r != Verdict::Collapsed ==> *final(mesh) == *old(mesh) && final(generations)@ == old(
                generations,
            )@,
    {
        let j = self.judge(mesh, generations, cand);
        if j != Verdict::Ready {
            return j;
        }
        if !keeps_orientation {
            return Verdict::Flipped;
        }
        mesh.collapse_edge(cand.corner, cand.position);
        let g = generations[cand.from];
        generations.set(cand.from, g + 1);
        Verdict::Collapsed
    }

    /// Queues afresh the candidate for the edge of `corner`, unless its corner is deleted.
    pub fn requeue<P: Copy, M: CollapseMetric<P>>(
        mesh: &CornerTable<P>,
        metric: &M,
        queue: &mut Vec<CollapseCandidate<P>>,
        generations: &Vec<usize>,
        corner: usize,
    )
        requires
            mesh.wf(),
            corner < mesh.corners@.len(),
            generations@.len() == mesh.vertices@.len(),
        ensures
            mesh.corners@[corner as int].deleted ==> final(queue)@ == old(queue)@,
            !mesh.corners@[corner as int].deleted ==> {
                &&& final(queue)@.len() == old(queue)@.len() + 1
                &&& final(queue)@.drop_last() == old(queue)@
                &&& stamped(*mesh, generations@, final(queue)@.last(), corner as int)
                &&& final(queue)@.last().from < mesh.vertices@.len()
                &&& final(queue)@.last().to < mesh.vertices@.len()
            },
    {
        if !mesh.corners[corner].deleted {
            let fresh = Self::make_candidate(mesh, metric, corner, generations);
            queue.push(fresh);
            assert(queue@.drop_last() =~= old(queue)@);
        }
    }

    /// Queues afresh the candidates for the live edges around vertex `v`, in the order
    /// of `edges_beside` over the corners at `v`.
    pub fn requeue_around<P: Copy, M: CollapseMetric<P>>(
        mesh: &CornerTable<P>,
        metric: &M,
        queue: &mut Vec<CollapseCandidate<P>>,
        generations: &Vec<usize>,
        v: usize,
    )
        requires
            mesh.wf(),
            generations@.len() == mesh.vertices@.len(),
        ensures
            final(queue)@.len() == old(queue)@.len() + edges_beside(*mesh, corners_at(*mesh, v as int)).len(),
            forall|i: int| 0 <= i < old(queue)@.len() ==> #[trigger] final(queue)@[i] == old(queue)@[i],
            forall|j: int|
                0 <= j < edges_beside(*mesh, corners_at(*mesh, v as int)).len() ==> {
                    let x = #[trigger] final(queue)@[old(queue)@.len() + j];
                    &&& stamped(*mesh, generations@, x, edges_beside(*mesh, corners_at(*mesh, v as int))[j])
                    &&& x.corner < mesh.corners@.len()
                    &&& x.from < mesh.vertices@.len()
                    &&& x.to < mesh.vertices@.len()
                },
    {
        let n = mesh.corners.len();
        let around = corners_around_vertex(mesh, v);
        let ghost ks = corners_at(*mesh, v as int);
        proof {
            assert forall|i: int| 0 <= i < around@.len() implies ks[i] == #[trigger] around@[i] as int by {
                assert(around@.map_values(|c: usize| c as int)[i] == around@[i] as int);
            }
            assert(around@.len() == ks.len()) by {
                assert(around@.map_values(|c: usize| c as int).len() == around@.len());
            }
        }
        let ghost base = queue@;
        let mut j: usize = 0;
        while j < around.len()
            invariant
                mesh.wf(),
                n == mesh.corners@.len(),
                generations@.len() == mesh.vertices@.len(),
                0 <= j <= around@.len(),
                around@.len() == ks.len(),
                forall|i: int| 0 <= i < around@.len() ==> ks[i] == #[trigger] around@[i] as int,
                queue@.len() == base.len() + edges_beside(*mesh, ks.take(j as int)).len(),
                forall|i: int| 0 <= i < base.len() ==> #[trigger] queue@[i] == base[i],
                forall|i: int|
                    0 <= i < edges_beside(*mesh, ks.take(j as int)).len() ==> {
                        let x = #[trigger] queue@[base.len() + i];
                        &&& stamped(*mesh, generations@, x, edges_beside(*mesh, ks.take(j as int))[i])
                        &&& x.corner < n
                        &&& x.from < mesh.vertices@.len()
                        &&& x.to < mesh.vertices@.len()
                    },
            decreases around@.len() - j,
        {
            let k = around[j];
            let ghost before = queue@;
            let ghost e0 = edges_beside(*mesh, ks.take(j as int));
            proof {
                assert(ks.take(j + 1).drop_last() =~= ks.take(j as int));
                assert(ks.take(j + 1).last() == k as int);
            }
            if k < n {
                let k1 = next_corner(k);
                let k2 = previous_corner(k);
                Self::requeue(mesh, metric, queue, generations, k1);
                let ghost mid = queue@;
                Self::requeue(mesh, metric, queue, generations, k2);
                proof {
                    let e1 = edges_beside(*mesh, ks.take(j + 1));
                    let p1: Seq<int> = if !mesh.corners@[k1 as int].deleted { seq![k1 as int] } else { seq![] };
                    let p2: Seq<int> = if !mesh.corners@[k2 as int].deleted { seq![k2 as int] } else { seq![] };
                    assert(e1 =~= e0 + (p1 + p2));
                    assert(mid.len() == before.len() + p1.len());
                    assert forall|i: int| 0 <= i < base.len() implies #[trigger] queue@[i] == base[i] by {
                        assert(mid[i] == before[i]);
                        assert(queue@[i] == mid[i]) by {
                            if !mesh.corners@[k2 as int].deleted {
                                assert(queue@.drop_last()[i] == mid[i]);
                            }
                        }
                    }
                    assert forall|i: int| 0 <= i < e1.len() implies {
                        let x = #[trigger] queue@[base.len() + i];
                        &&& stamped(*mesh, generations@, x, e1[i])
                        &&& x.corner < n
                        &&& x.from < mesh.vertices@.len()
                        &&& x.to < mesh.vertices@.len()
                    } by {
                        let idx = base.len() + i;
                        if i < e0.len() {
                            assert(mid[idx] == before[idx]) by {
                                if !mesh.corners@[k1 as int].deleted {
                                    assert(mid.drop_last()[idx] == before[idx]);
                                }
                            }
                            if !mesh.corners@[k2 as int].deleted {
                                assert(queue@.drop_last()[idx] == mid[idx]);
                            }
                        } else if i < e0.len() + p1.len() {
                            if !mesh.corners@[k2 as int].deleted {
                                assert(queue@.drop_last()[idx] == mid[idx]);
                            }
                        }
                    }
                }
            } else {
                proof {
                    assert(edges_beside(*mesh, ks.take(j + 1)) =~= e0);
                }
            }
            j = j + 1;
        }
        proof {
            assert(ks.take(around@.len() as int) =~= ks);
        }
    }

    /// Costs the edge of `corner` and stamps it with its end vertices' generations.
    fn make_candidate<P: Copy, M: CollapseMetric<P>>(
        mesh: &CornerTable<P>,
        metric: &M,
        corner: usize,
        generations: &Vec<usize>,
    ) -> (r: CollapseCandidate<P>)
        requires
            mesh.wf(),
            corner < mesh.corners@.len(),
            generations@.len() == mesh.vertices@.len(),
        ensures
            stamped(*mesh, generations@, r, corner as int),
            r.from < mesh.vertices@.len(),
            r.to < mesh.vertices@.len(),
            !mesh.corners@[corner as int].deleted ==> !is_stale(*mesh, generations@, r),
    {
        proof {
            mesh.lemma_corner(next_of(corner as int));
            mesh.lemma_corner(prev_of(corner as int));
        }
        let (cost, position) = metric.collapse_cost(mesh, corner);
        let from = mesh.corners[next_corner(corner)].vertex_index;
        let to = mesh.corners[previous_corner(corner)].vertex_index;
        CollapseCandidate {
            corner,
            cost,
            position,
            from,
            to,
            from_generation: generations[from],
            to_generation: generations[to],
        }
    }

    /// Index of the cheapest candidate; among equal costs, the one with the lowest corner.
    pub fn cheapest<P>(queue: &Vec<CollapseCandidate<P>>) -> (r: usize)
        requires
            queue@.len() > 0,
        ensures
            r < queue@.len(),
            forall|k: int|
                0 <= k < queue@.len() ==> queue@[r as int].cost < queue@[k].cost || (
                queue@[r as int].cost == queue@[k].cost && queue@[r as int].corner
                    <= queue@[k].corner),
    {
        let mut best: usize = 0;
        let mut i: usize = 1;
        while i < queue.len()
            invariant
                1 <= i <= queue@.len(),
                best < i,
                forall|k: int|
                    0 <= k < i ==> queue@[best as int].cost < queue@[k].cost || (
                    queue@[best as int].cost == queue@[k].cost && queue@[best as int].corner
                        <= queue@[k].corner),
            decreases queue@.len() - i,
        {
            if queue[i].cost < queue[best].cost || (queue[i].cost == queue[best].cost
                && queue[i].corner < queue[best].corner) {
                best = i;
            }
            i = i + 1;
        }
        best
    }

    /// Decimates `mesh` in place and returns how many collapses it applied. Candidates
    /// are taken cheapest first, ties by lowest corner. One whose corner was deleted is
    /// dropped; one whose end vertices changed since it was costed is costed afresh and
    /// queued again. The run stops at the first current candidate whose cost is not
    /// below `max_error`; a candidate that fails validation or would flip a face is
    /// dropped for good. After each collapse the edges around the merged vertex are
    /// queued afresh.
    pub fn decimate<P: Copy, M: CollapseMetric<P>>(
        &self,
        mesh: &mut CornerTable<P>,
        metric: &mut M,
    ) -> (r: usize)
        requires
            old(mesh).wf(),
        ensures
            final(mesh).wf(),
            final(mesh).corners@.len() == old(mesh).corners@.len(),
            final(mesh).vertices@.len() == old(mesh).vertices@.len(),
            live_face_count(final(mesh).corners@, (old(mesh).num_corners() / 3) as nat) + r
                <= live_face_count(old(mesh).corners@, (old(mesh).num_corners() / 3) as nat),
            r == 0 ==> *final(mesh) == *old(mesh),
            self.max_error == 0 ==> r == 0,
            forall|c: int|
                0 <= c < old(mesh).corners@.len() && (#[trigger] old(mesh).corners@[c]).deleted
                    ==> final(mesh).corners@[c].deleted,
            forall|v: int|
                0 <= v < old(mesh).vertices@.len() && (#[trigger] old(mesh).vertices@[v]).deleted
                    ==> final(mesh).vertices@[v].deleted,
    {
        let ghost start = *mesh;
        let ghost faces = (mesh.num_corners() / 3) as nat;
        let n = mesh.corners.len();
        let nv = mesh.vertices.len();
        let mut generations: Vec<usize> = Vec::new();
        let mut v: usize = 0;
        while v < nv
            invariant
                0 <= v <= nv,
                generations@.len() == v,
                forall|k: int| 0 <= k < v ==> #[trigger] generations@[k] == 0,
            decreases nv - v,
        {
            generations.push(0);
            v = v + 1;
        }
        let edges = mesh.edges();
        let mut queue: Vec<CollapseCandidate<P>> = Vec::new();
        let mut i: usize = 0;
        while i < edges.len()
            invariant
                *mesh == start,
                mesh.wf(),
                n == mesh.corners@.len(),
                generations@.len() == mesh.vertices@.len(),
                forall|k: int| 0 <= k < edges@.len() ==> #[trigger] edges@[k] < n,
                forall|k: int| 0 <= k < queue@.len() ==> (#[trigger] queue@[k]).corner < n,
                forall|k: int|
                    0 <= k < queue@.len() ==> (#[trigger] queue@[k]).from < nv && queue@[k].to < nv,
                nv == mesh.vertices@.len(),
            decreases edges@.len() - i,
        {
            let cand = Self::make_candidate(mesh, metric, edges[i], &generations);
            queue.push(cand);
            i = i + 1;
        }
        let mut collapses: usize = 0;
        loop
            invariant
                mesh.wf(),
                n == mesh.corners@.len(),
                n == start.corners@.len(),
                nv == mesh.vertices@.len(),
                generations@.len() == nv,
                forall|k: int| 0 <= k < nv ==> #[trigger] generations@[k] <= collapses,
                forall|k: int| 0 <= k < queue@.len() ==> (#[trigger] queue@[k]).corner < n,
                forall|k: int|
                    0 <= k < queue@.len() ==> (#[trigger] queue@[k]).from < nv && queue@[k].to < nv,
                live_face_count(mesh.corners@, faces) + collapses <= live_face_count(
                    start.corners@,
                    faces,
                ),
                faces == start.num_corners() / 3,
                collapses == 0 ==> *mesh == start,
                self.max_error == 0 ==> collapses == 0,
                start.wf(),
                start.vertices@.len() == nv,
                forall|k: int|
                    0 <= k < n && (#[trigger] start.corners@[k]).deleted ==> mesh.corners@[k].deleted,
                forall|k: int|
                    0 <= k < nv && (#[trigger] start.vertices@[k]).deleted ==> mesh.vertices@[k].deleted,
            decreases live_face_count(mesh.corners@, faces), stale_count(*mesh, generations@, queue@), queue@.len(),
        {
            if queue.len() == 0 {
                break;
            }
            let best = Self::cheapest(&queue);
            proof {
                lemma_stale_count_remove(*mesh, generations@, queue@, best as int);
            }
            let cand = queue.remove(best);
            let c = cand.corner;
            assert(c < n);
            let verdict = self.judge(mesh, &generations, &cand);
            if verdict == Verdict::Stale {
                let ghost before = queue@;
                Self::requeue(mesh, metric, &mut queue, &generations, c);
                proof {
                    assert forall|k: int| 0 <= k < queue@.len() implies (#[trigger] queue@[k]).corner < n
                        && queue@[k].from < nv && queue@[k].to < nv by {
                        if k < before.len() {
                            if !mesh.corners@[c as int].deleted {
                                assert(queue@.drop_last()[k] == before[k]);
                            }
                        }
                    }
                    if !mesh.corners@[c as int].deleted {
                        let fresh = queue@.last();
                        lemma_stale_count_concat(*mesh, generations@, before, seq![fresh]);
                        assert(queue@ =~= before + seq![fresh]);
                        assert(seq![fresh].drop_last() =~= Seq::<CollapseCandidate<P>>::empty());
                        assert(seq![fresh].last() == fresh);
                        assert(!is_stale(*mesh, generations@, fresh));
                        assert(stale_count(*mesh, generations@, Seq::<CollapseCandidate<P>>::empty()) == 0);
                        assert(stale_count(*mesh, generations@, seq![fresh]) == 0);
                    }
                }
                continue;
            }
            if verdict == Verdict::Stop {
                break;
            }
            if verdict == Verdict::Invalid {
                continue;
            }
            let keeps = metric.keeps_orientation(mesh, c, &cand.position);
            let ghost before = *mesh;
            proof {
                lemma_live_face_count_bound(start.corners@, faces);
            }
            let outcome = self.step(mesh, &mut generations, &cand, keeps);
            if outcome != Verdict::Collapsed {
                continue;
            }
            proof {
                lemma_collapse_shrinks(before, c as int, *mesh);
            }
            collapses = collapses + 1;
            metric.vertices_merged(cand.from, cand.to);
            let ghost before_ring = queue@;
            Self::requeue_around(mesh, metric, &mut queue, &generations, cand.from);
            proof {
                assert forall|k: int| 0 <= k < queue@.len() implies (#[trigger] queue@[k]).corner < n
                    && queue@[k].from < nv && queue@[k].to < nv by {
                    if k < before_ring.len() {
                        assert(queue@[k] == before_ring[k]);
                    } else {
                        let j = k - before_ring.len();
                        assert(queue@[before_ring.len() + j] == queue@[k]);
                    }
                }
            }
        }
        collapses
    }
}

} // verus!
