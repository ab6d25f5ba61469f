use vstd::prelude::*;
use vstd::set_lib::{lemma_int_range, lemma_len_subset, set_int_range};
use crate::corner_table::{next_of, prev_of, next_corner, previous_corner, CornerTable};
use crate::traversal::{is_live_vertex, CornerWalker};

verus! {

/// One step of the walk around a vertex: from corner `x`, whose next corner lies at the
/// vertex, across the edge of its previous corner.
pub open spec fn fan_step<P>(t: CornerTable<P>, x: int) -> Option<int> {
    match t.opp(prev_of(x)) {
        Some(o) => Some(o as int),
        None => None,
    }
}

/// One step of the walk the other way: across the edge of the next corner.
pub open spec fn back_step<P>(t: CornerTable<P>, y: int) -> Option<int> {
    match t.opp(next_of(y)) {
        Some(o) => Some(o as int),
        None => None,
    }
}

/// The walk from `x` by `fan_step`, up to the boundary or to the return to `s`, of at
/// most `fuel` corners.
pub open spec fn fan_from<P>(t: CornerTable<P>, s: int, x: int, fuel: nat) -> Seq<int>
    decreases fuel,
{
    if fuel == 0 {
        seq![]
    } else {
        seq![x] + match fan_step(t, x) {
            Some(z) => if z == s {
                seq![]
            } else {
                fan_from(t, s, z, (fuel - 1) as nat)
            },
            None => seq![],
        }
    }
}

/// The walk from `y` by `back_step` up to the boundary, of at most `fuel` corners.
pub open spec fn back_from<P>(t: CornerTable<P>, y: int, fuel: nat) -> Seq<int>
    decreases fuel,
{
    if fuel == 0 {
        seq![]
    } else {
        seq![y] + match back_step(t, y) {
            Some(z) => back_from(t, z, (fuel - 1) as nat),
            None => seq![],
        }
    }
}

/// Where the walk around vertex `v` starts: the corner before the one that `v` refers to.
pub open spec fn ring_start<P>(t: CornerTable<P>, v: int) -> int {
    prev_of(t.vertices@[v].corner_index as int)
}

/// The forward walk around `v`: each corner's next corner lies at `v`.
pub open spec fn ring_forward<P>(t: CornerTable<P>, v: int) -> Seq<int> {
    fan_from(t, ring_start(t, v), ring_start(t, v), t.num_corners() as nat)
}

/// The forward walk around `v` ended at the boundary rather than back at its start.
pub open spec fn ring_open<P>(t: CornerTable<P>, v: int) -> bool {
    fan_step(t, ring_forward(t, v).last()) is None
}

/// The backward walk around `v`, from the far side of its start to the other boundary;
/// empty when the forward walk closed or the start has no opposite.
pub open spec fn ring_backward<P>(t: CornerTable<P>, v: int) -> Seq<int> {
    let s = ring_start(t, v);
    if ring_open(t, v) && t.opp(s) is Some {
        back_from(t, t.opp(s).unwrap() as int, t.num_corners() as nat)
    } else {
        seq![]
    }
}

/// A sequence of distinct indices below `n` has at most `n` items.
proof fn lemma_distinct_bounded(s: Seq<int>, n: int)
    requires
        0 <= n,
        s.no_duplicates(),
        forall|i: int| 0 <= i < s.len() ==> 0 <= #[trigger] s[i] < n,
    ensures
        s.len() <= n,
{
    s.unique_seq_to_set();
    lemma_int_range(0, n);
    assert(s.to_set().subset_of(set_int_range(0, n)));
    lemma_len_subset(s.to_set(), set_int_range(0, n));
}

/// Two corners that step to the same corner are equal.
proof fn lemma_fan_step_injective<P>(t: CornerTable<P>, a: int, b: int)
    requires
        t.wf(),
        0 <= a < t.num_corners(),
        0 <= b < t.num_corners(),
        fan_step(t, a) is Some,
        fan_step(t, a) == fan_step(t, b),
    ensures
        a == b,
{
    t.lemma_opposite(prev_of(a));
    t.lemma_opposite(prev_of(b));
}

/// One step of `fan_from`.
proof fn lemma_fan_from_unfold<P>(t: CornerTable<P>, s: int, x: int, fuel: nat)
    requires
        fuel >= 1,
    ensures
        fan_step(t, x) is None ==> fan_from(t, s, x, fuel) == seq![x],
        fan_step(t, x) == Some(s) ==> fan_from(t, s, x, fuel) == seq![x],
        fan_step(t, x) is Some && fan_step(t, x).unwrap() != s ==> fan_from(t, s, x, fuel) == seq![
            x,
        ] + fan_from(t, s, fan_step(t, x).unwrap(), (fuel - 1) as nat),
{
    assert(seq![x] + Seq::<int>::empty() =~= seq![x]);
}

/// One step of `back_from`.
proof fn lemma_back_from_unfold<P>(t: CornerTable<P>, y: int, fuel: nat)
    requires
        fuel >= 1,
    ensures
        back_step(t, y) is None ==> back_from(t, y, fuel) == seq![y],
        back_step(t, y) is Some ==> back_from(t, y, fuel) == seq![y] + back_from(
            t,
            back_step(t, y).unwrap(),
            (fuel - 1) as nat,
        ),
{
    assert(seq![y] + Seq::<int>::empty() =~= seq![y]);
}

/// Extending a walk of distinct corners by the step from its last corner keeps the
/// corners distinct, unless the step returns to the first corner.
proof fn lemma_walk_stays_distinct<P>(t: CornerTable<P>, xs: Seq<int>, z: int)
    requires
        t.wf(),
        xs.len() >= 1,
        xs.no_duplicates(),
        forall|i: int| 0 <= i < xs.len() ==> 0 <= #[trigger] xs[i] < t.num_corners(),
        forall|i: int| 0 <= i < xs.len() - 1 ==> fan_step(t, #[trigger] xs[i]) == Some(xs[i + 1]),
        fan_step(t, xs.last()) == Some(z),
        z != xs[0],
    ensures
        xs.push(z).no_duplicates(),
{
    assert forall|i: int, j: int| 0 <= i < j < xs.push(z).len() implies xs.push(z)[i] != xs.push(
        z,
    )[j] by {
        if j == xs.len() {
            if i > 0 && xs[i] == z {
                assert(fan_step(t, xs[i - 1]) == Some(xs[i]));
                lemma_fan_step_injective(t, xs[i - 1], xs.last());
                assert(xs[i - 1] == xs[xs.len() - 1]);
            }
        } else {
            assert(xs[i] != xs[j]);
        }
    }
}

/// What the forward walk around `v` is made of, as a sequence of corners.
pub open spec fn forward_facts<P>(t: CornerTable<P>, v: int, xs: Seq<int>) -> bool {
    &&& xs == ring_forward(t, v)
    &&& xs.len() >= 1
    &&& xs[0] == ring_start(t, v)
    &&& xs.no_duplicates()
    &&& forall|i: int| 0 <= i < xs.len() ==> 0 <= #[trigger] xs[i] < t.num_corners()
    &&& forall|i: int| 0 <= i < xs.len() - 1 ==> fan_step(t, #[trigger] xs[i]) == Some(xs[i + 1])
}

/// The forward walk around `v` has visited `xs` and stands at `cur`.
#[verifier::opaque]
spec fn forward_inv<P>(t: CornerTable<P>, v: int, xs: Seq<int>, cur: int) -> bool {
    let n = t.num_corners();
    let si = ring_start(t, v);
    &&& 0 <= cur < n
    &&& xs + fan_from(t, si, cur, (n - xs.len()) as nat) == ring_forward(t, v)
    &&& xs.push(cur).no_duplicates()
    &&& forall|i: int| 0 <= i < xs.len() ==> 0 <= #[trigger] xs[i] < n
    &&& xs.len() == 0 ==> cur == si
    &&& xs.len() > 0 ==> xs[0] == si && cur != si
    &&& forall|i: int|
        0 <= i < xs.len() ==> fan_step(t, #[trigger] xs[i]) == Some(xs.push(cur)[i + 1])
}

proof fn lemma_forward_init<P>(t: CornerTable<P>, v: int)
    requires
        t.wf(),
        0 <= ring_start(t, v) < t.num_corners(),
    ensures
        forward_inv(t, v, seq![], ring_start(t, v)),
{
    reveal(forward_inv);
    assert(Seq::<int>::empty() + ring_forward(t, v) =~= ring_forward(t, v));
}

proof fn lemma_forward_bound<P>(t: CornerTable<P>, v: int, xs: Seq<int>, cur: int)
    requires
        forward_inv(t, v, xs, cur),
    ensures
        xs.len() < t.num_corners(),
        0 <= cur < t.num_corners(),
{
    reveal(forward_inv);
    lemma_distinct_bounded(xs.push(cur), t.num_corners());
}

#[verifier::rlimit(90)]
proof fn lemma_forward_advance<P>(t: CornerTable<P>, v: int, xs: Seq<int>, x: int, z: int)
    requires
        t.wf(),
        forward_inv(t, v, xs, x),
        fan_step(t, x) == Some(z),
        z != ring_start(t, v),
    ensures
        forward_inv(t, v, xs.push(x), z),
{
    reveal(forward_inv);
    let n = t.num_corners();
    let si = ring_start(t, v);
    lemma_distinct_bounded(xs.push(x), n);
    let fuel = (n - xs.len()) as nat;
    lemma_fan_from_unfold(t, si, x, fuel);
    t.lemma_opposite(prev_of(x));
    let ys = xs.push(x);
    assert(ys + fan_from(t, si, z, (n - ys.len()) as nat) =~= xs + fan_from(t, si, x, fuel));
    assert forall|i: int| 0 <= i < ys.len() - 1 implies fan_step(t, #[trigger] ys[i]) == Some(
        ys[i + 1],
    ) by {
        assert(fan_step(t, xs[i]) == Some(xs.push(x)[i + 1]));
    }
    assert(ys[0] == si);
    assert(ys.last() == x);
    lemma_walk_stays_distinct(t, ys, z);
    assert forall|i: int| 0 <= i < ys.len() implies fan_step(t, #[trigger] ys[i]) == Some(
        ys.push(z)[i + 1],
    ) by {
        if i < xs.len() {
            assert(fan_step(t, xs[i]) == Some(xs.push(x)[i + 1]));
        }
    }
}

proof fn lemma_forward_end<P>(t: CornerTable<P>, v: int, xs: Seq<int>, x: int)
    requires
        t.wf(),
        forward_inv(t, v, xs, x),
        fan_step(t, x) is None || fan_step(t, x) == Some(ring_start(t, v)),
    ensures
        forward_facts(t, v, xs.push(x)),
        ring_forward(t, v).last() == x,
{
    reveal(forward_inv);
    let n = t.num_corners();
    let si = ring_start(t, v);
    lemma_distinct_bounded(xs.push(x), n);
    let fuel = (n - xs.len()) as nat;
    lemma_fan_from_unfold(t, si, x, fuel);
    let ys = xs.push(x);
    assert(ys =~= xs + fan_from(t, si, x, fuel));
    assert forall|i: int| 0 <= i < ys.len() - 1 implies fan_step(t, #[trigger] ys[i]) == Some(
        ys[i + 1],
    ) by {
        assert(fan_step(t, xs[i]) == Some(xs.push(x)[i + 1]));
    }
    assert(ys[0] == si);
}

/// The forward walk around `v` and whether it ended at the boundary.
fn walk_forward<P>(t: &CornerTable<P>, v: usize) -> (r: (Vec<usize>, bool))
    requires
        t.wf(),
        v < t.vertices@.len(),
        !t.vertices@[v as int].deleted,
    ensures
        forward_facts(*t, v as int, r.0@.map_values(|c: usize| c as int)),
        r.1 == ring_open(*t, v as int),
        !r.1 ==> fan_step(*t, ring_forward(*t, v as int).last()) == Some(ring_start(*t, v as int)),
        forall|i: int| 0 <= i < r.0@.len() ==> #[trigger] r.0@[i] < t.corners@.len(),
{
    let ghost n = t.num_corners();
    proof {
        t.lemma_vertex(v as int);
    }
    let mut walker = CornerWalker::from_vertex(t, v);
    walker.previous();
    let s = walker.get_corner_index();
    let mut fwd: Vec<usize> = Vec::new();
    let mut border = false;
    let ghost mut xs: Seq<int> = seq![];
    proof {
        lemma_forward_init(*t, v as int);
    }
    loop
        invariant_except_break
            walker.wf(),
            walker.mesh() == *t,
            n == t.num_corners(),
            s == ring_start(*t, v as int),
            fwd@.map_values(|c: usize| c as int) == xs,
            forward_inv(*t, v as int, xs, walker.current()),
            !border,
        ensures
            fwd@.map_values(|c: usize| c as int) == xs,
            forward_facts(*t, v as int, xs),
            border == (fan_step(*t, xs.last()) is None),
            !border ==> fan_step(*t, xs.last()) == Some(s as int),
            xs.last() == ring_forward(*t, v as int).last(),
        decreases n - xs.len(),
    {
        let x = walker.get_corner_index();
        let ghost xi = x as int;
        proof {
            lemma_forward_bound(*t, v as int, xs, xi);
        }
        fwd.push(x);
        let ghost xs_old = xs;
        proof {
            xs = xs.push(xi);
            assert(fwd@.map_values(|c: usize| c as int) =~= xs);
        }
        walker.previous();
        if walker.get_corner().opposite_corner_index.is_none() {
            border = true;
            proof {
                lemma_forward_end(*t, v as int, xs_old, xi);
            }
            break;
        }
        walker.opposite();
        proof {
            t.lemma_opposite(prev_of(xi));
        }
        proof {
            assert(xs.last() == xi);
            assert(fan_step(*t, xi) == Some(walker.current()));
        }
        if walker.get_corner_index() == s {
            proof {
                lemma_forward_end(*t, v as int, xs_old, xi);
            }
            break;
        }
        proof {
            lemma_forward_advance(*t, v as int, xs_old, xi, walker.current());
            lemma_forward_bound(*t, v as int, xs, walker.current());
        }
    }
    proof {
        assert forall|i: int| 0 <= i < fwd@.len() implies #[trigger] fwd@[i] < t.corners@.len() by {
            assert(xs[i] == fwd@[i] as int);
        }
    }
    (fwd, border)
}

/// The backward walk around `v` has visited `ys`, stands at `cur`, and `us` holds the
/// corners that the forward step takes back along it.
#[verifier::opaque]
spec fn backward_inv<P>(t: CornerTable<P>, v: int, ys: Seq<int>, us: Seq<int>, cur: int) -> bool {
    let n = t.num_corners();
    let si = ring_start(t, v);
    let xs = ring_forward(t, v);
    &&& forward_facts(t, v, xs)
    &&& fan_step(t, xs.last()) is None
    &&& t.opp(si) is Some
    &&& 0 <= cur < n
    &&& ys.len() == us.len()
    &&& ys + back_from(t, cur, (n - ys.len()) as nat) == back_from(
        t,
        t.opp(si).unwrap() as int,
        n as nat,
    )
    &&& (xs + us).no_duplicates()
    &&& forall|i: int| 0 <= i < (xs + us).len() ==> 0 <= #[trigger] (xs + us)[i] < n
    &&& forall|i: int| 0 <= i < ys.len() ==> 0 <= #[trigger] ys[i] < n
    &&& t.opp(
        if us.len() == 0 {
            si
        } else {
            us.last()
        },
    ) == Some(cur as usize)
    &&& us.len() > 0 ==> fan_step(t, us[0]) == Some(si)
    &&& forall|m: int| 0 < m < us.len() ==> fan_step(t, #[trigger] us[m]) == Some(us[m - 1])
}

proof fn lemma_backward_init<P>(t: CornerTable<P>, v: int)
    requires
        t.wf(),
        forward_facts(t, v, ring_forward(t, v)),
        ring_open(t, v),
        t.opp(ring_start(t, v)) is Some,
    ensures
        backward_inv(t, v, seq![], seq![], t.opp(ring_start(t, v)).unwrap() as int),
{
    reveal(backward_inv);
    let xs = ring_forward(t, v);
    let y0 = t.opp(ring_start(t, v)).unwrap() as int;
    t.lemma_opposite(xs[0]);
    assert(xs + Seq::<int>::empty() =~= xs);
    assert(Seq::<int>::empty() + back_from(t, y0, t.num_corners() as nat) =~= back_from(
        t,
        y0,
        t.num_corners() as nat,
    ));
}

proof fn lemma_backward_bound<P>(t: CornerTable<P>, v: int, ys: Seq<int>, us: Seq<int>, cur: int)
    requires
        backward_inv(t, v, ys, us, cur),
    ensures
        ys.len() < t.num_corners(),
        0 <= cur < t.num_corners(),
{
    reveal(backward_inv);
    lemma_distinct_bounded(ring_forward(t, v) + us, t.num_corners());
}

#[verifier::rlimit(40)]
proof fn lemma_backward_advance<P>(
    t: CornerTable<P>,
    v: int,
    ys: Seq<int>,
    us: Seq<int>,
    y: int,
    z: int,
)
    requires
        t.wf(),
        backward_inv(t, v, ys, us, y),
        back_step(t, y) == Some(z),
    ensures
        backward_inv(t, v, ys.push(y), us.push(next_of(y)), z),
{
    reveal(backward_inv);
    let n = t.num_corners();
    let si = ring_start(t, v);
    let xs = ring_forward(t, v);
    let all = xs + us;
    let u = next_of(y);
    let last_u = if us.len() == 0 {
        si
    } else {
        us.last()
    };
    if us.len() == 0 {
        assert(all[0] == si);
    } else {
        assert(all[xs.len() + us.len() - 1] == us.last());
    }
    t.lemma_opposite(last_u);
    t.lemma_opposite(u);
    assert(prev_of(u) == y);
    assert(fan_step(t, u) == Some(last_u));
    lemma_distinct_bounded(all, n);
    lemma_back_from_unfold(t, y, (n - ys.len()) as nat);
    assert(ys.push(y) + back_from(t, z, (n - ys.len() - 1) as nat) =~= ys + back_from(
        t,
        y,
        (n - ys.len()) as nat,
    ));
    assert forall|i: int| 0 <= i < all.len() implies all[i] != u by {
        if i < xs.len() {
            if i == xs.len() - 1 {
                assert(xs.last() == all[i]);
            } else {
                assert(fan_step(t, xs[i]) == Some(xs[i + 1]));
                assert(all[i + 1] == xs[i + 1]);
                assert(all[0] == si);
            }
        } else {
            let m = i - xs.len();
            assert(all[i] == us[m]);
            assert(all[0] == si);
            if m > 0 {
                assert(fan_step(t, us[m]) == Some(us[m - 1]));
                assert(all[i - 1] == us[m - 1]);
            }
        }
    }
    assert((xs + us.push(u)) =~= all.push(u));
    let us2 = us.push(u);
    assert forall|m: int| 0 < m < us2.len() implies fan_step(t, #[trigger] us2[m]) == Some(
        us2[m - 1],
    ) by {
        if m < us.len() {
            assert(fan_step(t, us[m]) == Some(us[m - 1]));
        }
    }
    assert forall|i: int| 0 <= i < ys.push(y).len() implies 0 <= #[trigger] ys.push(y)[i] < n by {
        if i < ys.len() {
            assert(0 <= ys[i] < n);
        }
    }
}

proof fn lemma_backward_end<P>(t: CornerTable<P>, v: int, ys: Seq<int>, us: Seq<int>, y: int)
    requires
        t.wf(),
        backward_inv(t, v, ys, us, y),
        back_step(t, y) is None,
    ensures
        ys.push(y) == ring_backward(t, v),
        forall|i: int| 0 <= i < ys.push(y).len() ==> 0 <= #[trigger] ys.push(y)[i] < t.num_corners(),
{
    reveal(backward_inv);
    let n = t.num_corners();
    lemma_distinct_bounded(ring_forward(t, v) + us, n);
    lemma_back_from_unfold(t, y, (n - ys.len()) as nat);
    assert(ys.push(y) =~= ys + back_from(t, y, (n - ys.len()) as nat));
    assert forall|i: int| 0 <= i < ys.push(y).len() implies 0 <= #[trigger] ys.push(y)[i] < n by {
        if i < ys.len() {
            assert(0 <= ys[i] < n);
        }
    }
}

/// The backward walk around `v`, for a forward walk that ended at the boundary.
fn walk_backward<P>(t: &CornerTable<P>, v: usize, s: usize) -> (r: Vec<usize>)
    requires
        t.wf(),
        v < t.vertices@.len(),
        forward_facts(*t, v as int, ring_forward(*t, v as int)),
        ring_open(*t, v as int),
        s == ring_start(*t, v as int),
        t.opp(s as int) is Some,
    ensures
        r@.map_values(|c: usize| c as int) == ring_backward(*t, v as int),
        forall|i: int| 0 <= i < r@.len() ==> #[trigger] r@[i] < t.corners@.len(),
{
    let ghost n = t.num_corners();
    let ghost xs = ring_forward(*t, v as int);
    proof {
        t.lemma_opposite(xs[0]);
        lemma_backward_init(*t, v as int);
    }
    let mut walker = CornerWalker::from_corner(t, s);
    walker.opposite();
    let mut back: Vec<usize> = Vec::new();
    let ghost mut ys: Seq<int> = seq![];
    let ghost mut us: Seq<int> = seq![];
    loop
        invariant_except_break
            walker.wf(),
            walker.mesh() == *t,
            n == t.num_corners(),
            back@.map_values(|c: usize| c as int) == ys,
            backward_inv(*t, v as int, ys, us, walker.current()),
        ensures
            back@.map_values(|c: usize| c as int) == ring_backward(*t, v as int),
            forall|i: int| 0 <= i < back@.len() ==> #[trigger] back@[i] < n,
        decreases n - ys.len(),
    {
        let y = walker.get_corner_index();
        let ghost yi = y as int;
        proof {
            lemma_backward_bound(*t, v as int, ys, us, yi);
        }
        back.push(y);
        let ghost ys_old = ys;
        proof {
            ys = ys.push(yi);
            assert(back@.map_values(|c: usize| c as int) =~= ys);
        }
        walker.next();
        if walker.get_corner().opposite_corner_index.is_none() {
            proof {
                lemma_backward_end(*t, v as int, ys_old, us, yi);
                assert forall|i: int| 0 <= i < back@.len() implies #[trigger] back@[i] < n by {
                    assert(ys[i] == back@[i] as int);
                }
            }
            break;
        }
        walker.opposite();
        proof {
            lemma_backward_advance(*t, v as int, ys_old, us, yi, walker.current());
            us = us.push(next_of(yi));
        }
    }
    back
}

/// The faces around `v`, each as a corner of it: the forward walk, then the backward walk.
pub open spec fn one_ring_faces<P>(t: CornerTable<P>, v: int) -> Seq<int> {
    ring_forward(t, v) + ring_backward(t, v)
}

/// The corners at `v`, in the order of the walk.
pub open spec fn one_ring_corners<P>(t: CornerTable<P>, v: int) -> Seq<int> {
    ring_forward(t, v).map_values(|x: int| next_of(x)) + ring_backward(t, v).map_values(
        |y: int| prev_of(y),
    )
}

/// The neighbours of `v`, in the order of the walk; at the boundary, one more.
pub open spec fn one_ring_vertices<P>(t: CornerTable<P>, v: int) -> Seq<int> {
    ring_forward(t, v).map_values(|x: int| t.vert(x)) + if ring_open(t, v) {
        seq![t.vert(prev_of(ring_start(t, v)))] + ring_backward(t, v).map_values(|y: int| t.vert(y))
    } else {
        seq![]
    }
}

/// Both walks around `v`.
fn walk_around<P>(t: &CornerTable<P>, v: usize) -> (r: (Vec<usize>, bool, Vec<usize>))
    requires
        t.wf(),
        v < t.vertices@.len(),
        !t.vertices@[v as int].deleted,
    ensures
        r.0@.map_values(|c: usize| c as int) == ring_forward(*t, v as int),
        r.1 == ring_open(*t, v as int),
        r.2@.map_values(|c: usize| c as int) == ring_backward(*t, v as int),
        forall|i: int| 0 <= i < r.0@.len() ==> #[trigger] r.0@[i] < t.corners@.len(),
        forall|i: int| 0 <= i < r.2@.len() ==> #[trigger] r.2@[i] < t.corners@.len(),
{
    proof {
        t.lemma_vertex(v as int);
    }
    let (fwd, border) = walk_forward(t, v);
    let s = previous_corner(t.vertices[v].corner_index);
    if border && t.corners[s].opposite_corner_index.is_some() {
        let back = walk_backward(t, v, s);
        (fwd, border, back)
    } else {
        let back: Vec<usize> = Vec::new();
        proof {
            assert(back@.map_values(|c: usize| c as int) =~= ring_backward(*t, v as int));
        }
        (fwd, border, back)
    }
}

/// Lists the faces around a live vertex, each as one of its corners, in angular order:
/// around an interior vertex one closed walk, around a boundary vertex from one
/// boundary edge to the other.
fn live_faces_around<P>(corner_table: &CornerTable<P>, vertex_index: usize) -> (r: Vec<usize>)
    requires
        corner_table.wf(),
        vertex_index < corner_table.vertices@.len(),
        !corner_table.vertices@[vertex_index as int].deleted,
    ensures
        r@.map_values(|c: usize| c as int) == one_ring_faces(*corner_table, vertex_index as int),
{
    let (mut fwd, _border, mut back) = walk_around(corner_table, vertex_index);
    let ghost f = fwd@;
    let ghost b = back@;
    fwd.append(&mut back);
    proof {
        assert(fwd@.map_values(|c: usize| c as int) =~= f.map_values(|c: usize| c as int)
            + b.map_values(|c: usize| c as int));
    }
    fwd
}

/// Lists the corners at a live vertex in angular order.
fn live_corners_around<P>(corner_table: &CornerTable<P>, vertex_index: usize) -> (r: Vec<
    usize,
>)
    requires
        corner_table.wf(),
        vertex_index < corner_table.vertices@.len(),
        !corner_table.vertices@[vertex_index as int].deleted,
    ensures
        r@.map_values(|c: usize| c as int) == one_ring_corners(*corner_table, vertex_index as int),
{
    let ghost t = *corner_table;
    let ghost v = vertex_index as int;
    let (fwd, _border, back) = walk_around(corner_table, vertex_index);
    let ghost xs = ring_forward(t, v);
    let ghost ys = ring_backward(t, v);
    proof {
        assert forall|k: int| 0 <= k < fwd@.len() implies xs[k] == #[trigger] fwd@[k] as int by {
            assert(fwd@.map_values(|c: usize| c as int)[k] == fwd@[k] as int);
        }
        assert forall|k: int| 0 <= k < back@.len() implies ys[k] == #[trigger] back@[k] as int by {
            assert(back@.map_values(|c: usize| c as int)[k] == back@[k] as int);
        }
    }
    let mut r: Vec<usize> = Vec::new();
    let mut i: usize = 0;
    while i < fwd.len()
        invariant
            0 <= i <= fwd@.len(),
            xs.len() == fwd@.len(),
            forall|k: int| 0 <= k < fwd@.len() ==> xs[k] == #[trigger] fwd@[k] as int,
            forall|k: int| 0 <= k < fwd@.len() ==> #[trigger] fwd@[k] < t.corners@.len(),
            t.wf(),
            r@.len() == i,
            forall|k: int| 0 <= k < i ==> #[trigger] r@[k] as int == next_of(xs[k]),
        decreases fwd@.len() - i,
    {
        r.push(next_corner(fwd[i]));
        i = i + 1;
    }
    let mut j: usize = 0;
    while j < back.len()
        invariant
            0 <= j <= back@.len(),
            ys.len() == back@.len(),
            xs.len() == fwd@.len(),
            forall|k: int| 0 <= k < back@.len() ==> ys[k] == #[trigger] back@[k] as int,
            forall|k: int| 0 <= k < back@.len() ==> #[trigger] back@[k] < t.corners@.len(),
            t.wf(),
            r@.len() == fwd@.len() + j,
            forall|k: int| 0 <= k < fwd@.len() ==> #[trigger] r@[k] as int == next_of(xs[k]),
            forall|k: int|
                0 <= k < j ==> #[trigger] r@[fwd@.len() + k] as int == prev_of(ys[k]),
        decreases back@.len() - j,
    {
        r.push(previous_corner(back[j]));
        proof {
            assert(r@[fwd@.len() + j] == r@.last());
        }
        j = j + 1;
    }
    proof {
        let lhs = r@.map_values(|c: usize| c as int);
        let rhs = one_ring_corners(t, v);
        assert forall|k: int| 0 <= k < lhs.len() implies lhs[k] == rhs[k] by {
            if k >= fwd@.len() {
                let m = k - fwd@.len();
                assert(r@[fwd@.len() + m] as int == prev_of(ys[m]));
            }
        }
        assert(lhs =~= rhs);
    }
    r
}

/// The corners at vertex `vertex_index` in angular order, gathered in a vector; an
/// index past the end or a deleted vertex gives an empty list.
pub fn collect_corners_around_vertex<P>(corner_table: &CornerTable<P>, vertex_index: usize) -> (r:
    Vec<usize>)
    requires
        corner_table.wf(),
    ensures
        !is_live_vertex(*corner_table, vertex_index as int) ==> r@.len() == 0,
        is_live_vertex(*corner_table, vertex_index as int) ==> r@.map_values(|c: usize| c as int)
            == one_ring_corners(*corner_table, vertex_index as int),
{
    corners_around_vertex(corner_table, vertex_index)
}

/// Lists the one-ring neighbours of a live vertex in angular order.
fn live_vertices_around<P>(corner_table: &CornerTable<P>, vertex_index: usize) -> (r: Vec<
    usize,
>)
    requires
        corner_table.wf(),
        vertex_index < corner_table.vertices@.len(),
        !corner_table.vertices@[vertex_index as int].deleted,
    ensures
        r@.map_values(|c: usize| c as int) == one_ring_vertices(*corner_table, vertex_index as int),
{
    let ghost t = *corner_table;
    let ghost v = vertex_index as int;
    let (fwd, border, back) = walk_around(corner_table, vertex_index);
    let ghost xs = ring_forward(t, v);
    let ghost ys = ring_backward(t, v);
    proof {
        assert forall|k: int| 0 <= k < fwd@.len() implies xs[k] == #[trigger] fwd@[k] as int by {
            assert(fwd@.map_values(|c: usize| c as int)[k] == fwd@[k] as int);
        }
        assert forall|k: int| 0 <= k < back@.len() implies ys[k] == #[trigger] back@[k] as int by {
            assert(back@.map_values(|c: usize| c as int)[k] == back@[k] as int);
        }
        t.lemma_vertex(v);
    }
    let mut r: Vec<usize> = Vec::new();
    let mut i: usize = 0;
    while i < fwd.len()
        invariant
            t == *corner_table,
            0 <= i <= fwd@.len(),
            xs.len() == fwd@.len(),
            forall|k: int| 0 <= k < fwd@.len() ==> xs[k] == #[trigger] fwd@[k] as int,
            forall|k: int| 0 <= k < fwd@.len() ==> #[trigger] fwd@[k] < t.corners@.len(),
            r@.len() == i,
            forall|k: int| 0 <= k < i ==> #[trigger] r@[k] as int == t.vert(xs[k]),
        decreases fwd@.len() - i,
    {
        r.push(corner_table.corners[fwd[i]].vertex_index);
        i = i + 1;
    }
    if border {
        let s = previous_corner(corner_table.vertices[vertex_index].corner_index);
        r.push(corner_table.corners[previous_corner(s)].vertex_index);
        let ghost fl = fwd@.len() as int;
        let mut j: usize = 0;
        while j < back.len()
            invariant
                t == *corner_table,
                0 <= j <= back@.len(),
                ys.len() == back@.len(),
                xs.len() == fl,
                forall|k: int| 0 <= k < back@.len() ==> ys[k] == #[trigger] back@[k] as int,
                forall|k: int| 0 <= k < back@.len() ==> #[trigger] back@[k] < t.corners@.len(),
                r@.len() == fl + 1 + j,
                forall|k: int| 0 <= k < fl ==> #[trigger] r@[k] as int == t.vert(xs[k]),
                r@[fl] as int == t.vert(prev_of(s as int)),
                s == prev_of(t.vertices@[v].corner_index as int),
                forall|k: int| 0 <= k < j ==> #[trigger] r@[fl + 1 + k] as int == t.vert(ys[k]),
            decreases back@.len() - j,
        {
            r.push(corner_table.corners[back[j]].vertex_index);
            proof {
                assert(r@[fl + 1 + j] == r@.last());
            }
            j = j + 1;
        }
        proof {
            let lhs = r@.map_values(|c: usize| c as int);
            let rhs = one_ring_vertices(t, v);
            assert forall|k: int| 0 <= k < lhs.len() implies lhs[k] == rhs[k] by {
                if k > fl {
                    let m = k - fl - 1;
                    assert(r@[fl + 1 + m] as int == t.vert(ys[m]));
                }
            }
            assert(lhs =~= rhs);
        }
    } else {
        proof {
            assert(r@.map_values(|c: usize| c as int) =~= one_ring_vertices(t, v));
        }
    }
    r
}

/// The forward walk, carried on from `xs` and `x` to its end.
proof fn lemma_forward_walk<P>(t: CornerTable<P>, v: int, xs: Seq<int>, x: int)
    requires
        t.wf(),
        forward_inv(t, v, xs, x),
    ensures
        forward_facts(t, v, ring_forward(t, v)),
        !ring_open(t, v) ==> fan_step(t, ring_forward(t, v).last()) == Some(ring_start(t, v)),
    decreases t.num_corners() - xs.len(),
{
    lemma_forward_bound(t, v, xs, x);
    match fan_step(t, x) {
        Some(z) => {
            if z == ring_start(t, v) {
                lemma_forward_end(t, v, xs, x);
            } else {
                lemma_forward_advance(t, v, xs, x, z);
                lemma_forward_bound(t, v, xs.push(x), z);
                lemma_forward_walk(t, v, xs.push(x), z);
            }
        },
        None => {
            lemma_forward_end(t, v, xs, x);
        },
    }
}

/// The backward walk, carried on from `ys`, `us` and `y` to its end.
proof fn lemma_backward_walk<P>(t: CornerTable<P>, v: int, ys: Seq<int>, us: Seq<int>, y: int)
    requires
        t.wf(),
        backward_inv(t, v, ys, us, y),
    ensures
        ring_backward(t, v).len() >= 1,
        back_step(t, ring_backward(t, v).last()) is None,
        forall|i: int|
            0 <= i < ring_backward(t, v).len() - 1 ==> back_step(
                t,
                #[trigger] ring_backward(t, v)[i],
            ) == Some(ring_backward(t, v)[i + 1]),
    decreases t.num_corners() - ys.len(),
{
    lemma_backward_bound(t, v, ys, us, y);
    match back_step(t, y) {
        Some(z) => {
            lemma_backward_advance(t, v, ys, us, y, z);
            lemma_backward_bound(t, v, ys.push(y), us.push(next_of(y)), z);
            lemma_backward_walk(t, v, ys.push(y), us.push(next_of(y)), z);
        },
        None => {
            lemma_backward_end(t, v, ys, us, y);
            assert(ring_backward(t, v).last() == y);
            reveal(backward_inv);
            lemma_back_chain(t, t.opp(ring_start(t, v)).unwrap() as int, t.num_corners() as nat);
        },
    }
}

/// Consecutive corners of `back_from` are related by `back_step`.
proof fn lemma_back_chain<P>(t: CornerTable<P>, y: int, fuel: nat)
    ensures
        forall|i: int|
            0 <= i < back_from(t, y, fuel).len() - 1 ==> back_step(
                t,
                #[trigger] back_from(t, y, fuel)[i],
            ) == Some(back_from(t, y, fuel)[i + 1]),
    decreases fuel,
{
    if fuel == 0 {
        return;
    }
    lemma_back_from_unfold(t, y, fuel);
    if let Some(z) = back_step(t, y) {
        let rest = back_from(t, z, (fuel - 1) as nat);
        lemma_back_chain(t, z, (fuel - 1) as nat);
        assert forall|i: int|
            0 <= i < back_from(t, y, fuel).len() - 1 implies back_step(
            t,
            #[trigger] back_from(t, y, fuel)[i],
        ) == Some(back_from(t, y, fuel)[i + 1]) by {
            if i > 0 {
                assert(back_from(t, y, fuel)[i] == rest[i - 1]);
            }
        }
    }
}

/// Every corner of a walk by `fan_step` from the start of `v` has its next corner at `v`.
proof fn lemma_walk_at_vertex<P>(t: CornerTable<P>, v: int, xs: Seq<int>, i: int)
    requires
        t.wf(),
        0 <= v < t.vertices@.len(),
        !t.vertices@[v].deleted,
        xs.len() >= 1,
        xs[0] == ring_start(t, v),
        forall|k: int| 0 <= k < xs.len() ==> 0 <= #[trigger] xs[k] < t.num_corners(),
        forall|k: int| 0 <= k < xs.len() - 1 ==> fan_step(t, #[trigger] xs[k]) == Some(xs[k + 1]),
        0 <= i < xs.len(),
    ensures
        t.vert(next_of(xs[i])) == v,
    decreases i,
{
    t.lemma_vertex(v);
    if i > 0 {
        lemma_walk_at_vertex(t, v, xs, i - 1);
        let x = xs[i - 1];
        assert(fan_step(t, x) == Some(xs[i]));
        t.lemma_opposite(prev_of(x));
        assert(prev_of(prev_of(x)) == next_of(x));
    }
}

/// The walk around a live vertex is a single walk of distinct corners, each with its
/// next corner at the vertex, in which each corner steps to the next. Around an
/// interior vertex the walk is closed: the last corner steps back to the first, and
/// the faces listed are exactly this walk. Around a boundary vertex it is open: the
/// forward part ends at a boundary edge, and the backward part, if any, runs from the
/// far side of the start to the other boundary edge.
pub proof fn lemma_one_ring_walk<P>(t: CornerTable<P>, v: int)
    requires
        t.wf(),
        0 <= v < t.vertices@.len(),
        !t.vertices@[v].deleted,
    ensures
        ({
            let xs = ring_forward(t, v);
            &&& xs.len() >= 1
            &&& xs[0] == ring_start(t, v)
            &&& xs.no_duplicates()
            &&& forall|i: int| 0 <= i < xs.len() ==> t.vert(next_of(#[trigger] xs[i])) == v
            &&& forall|i: int|
                0 <= i < xs.len() - 1 ==> fan_step(t, #[trigger] xs[i]) == Some(xs[i + 1])
        }),
        !ring_open(t, v) ==> {
            &&& one_ring_faces(t, v) == ring_forward(t, v)
            &&& fan_step(t, ring_forward(t, v).last()) == Some(ring_forward(t, v)[0])
        },
        ring_open(t, v) ==> fan_step(t, ring_forward(t, v).last()) is None,
        ring_open(t, v) && ring_backward(t, v).len() > 0 ==> {
            let ys = ring_backward(t, v);
            &&& ys[0] == t.opp(ring_start(t, v)).unwrap()
            &&& back_step(t, ys.last()) is None
            &&& forall|i: int|
                0 <= i < ys.len() - 1 ==> back_step(t, #[trigger] ys[i]) == Some(ys[i + 1])
        },
{
    t.lemma_vertex(v);
    lemma_forward_init(t, v);
    lemma_forward_walk(t, v, seq![], ring_start(t, v));
    assert forall|i: int| 0 <= i < ring_forward(t, v).len() implies t.vert(
        next_of(#[trigger] ring_forward(t, v)[i]),
    ) == v by {
        lemma_walk_at_vertex(t, v, ring_forward(t, v), i);
    }
    if !ring_open(t, v) {
        assert(one_ring_faces(t, v) =~= ring_forward(t, v));
    }
    if ring_open(t, v) && t.opp(ring_start(t, v)) is Some {
        lemma_backward_init(t, v);
        lemma_backward_walk(t, v, seq![], seq![], t.opp(ring_start(t, v)).unwrap() as int);
        let n = t.num_corners() as nat;
        lemma_back_from_unfold(t, t.opp(ring_start(t, v)).unwrap() as int, n);
    }
}

/// Lists the faces around vertex `vertex_index`, each as one of its corners, in angular
/// order; an index past the end or a deleted vertex gives an empty list.
pub fn faces_around_vertex<P>(corner_table: &CornerTable<P>, vertex_index: usize) -> (r: Vec<usize>)
    requires
        corner_table.wf(),
    ensures
        !is_live_vertex(*corner_table, vertex_index as int) ==> r@.len() == 0,
        is_live_vertex(*corner_table, vertex_index as int) ==> r@.map_values(|c: usize| c as int)
            == one_ring_faces(*corner_table, vertex_index as int),
{
    if vertex_index >= corner_table.vertices.len() || corner_table.vertices[vertex_index].deleted {
        return Vec::new();
    }
    live_faces_around(corner_table, vertex_index)
}

/// Lists the corners at vertex `vertex_index` in angular order; an index past the end
/// or a deleted vertex gives an empty list.
pub fn corners_around_vertex<P>(corner_table: &CornerTable<P>, vertex_index: usize) -> (r: Vec<usize>)
    requires
        corner_table.wf(),
    ensures
        !is_live_vertex(*corner_table, vertex_index as int) ==> r@.len() == 0,
        is_live_vertex(*corner_table, vertex_index as int) ==> r@.map_values(|c: usize| c as int)
            == one_ring_corners(*corner_table, vertex_index as int),
{
    if vertex_index >= corner_table.vertices.len() || corner_table.vertices[vertex_index].deleted {
        return Vec::new();
    }
    live_corners_around(corner_table, vertex_index)
}

/// Lists the one-ring neighbours of vertex `vertex_index` in angular order; an index
/// past the end or a deleted vertex gives an empty list.
pub fn vertices_around_vertex<P>(corner_table: &CornerTable<P>, vertex_index: usize) -> (r: Vec<usize>)
    requires
        corner_table.wf(),
    ensures
        !is_live_vertex(*corner_table, vertex_index as int) ==> r@.len() == 0,
        is_live_vertex(*corner_table, vertex_index as int) ==> r@.map_values(|c: usize| c as int)
            == one_ring_vertices(*corner_table, vertex_index as int),
{
    if vertex_index >= corner_table.vertices.len() || corner_table.vertices[vertex_index].deleted {
        return Vec::new();
    }
    live_vertices_around(corner_table, vertex_index)
}

} // verus!
