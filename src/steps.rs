use vstd::prelude::*;

use crate::aabb::{BoundingBox, total_area, area_of, lemma_difference, lemma_intersection};
use crate::node::Node;
use crate::rc_vec::RcVec;
use crate::regions::{
    Cell,
    label_weight,
    covered_area,
    influence_area,
    increasing,
    influence_holds,
    cell_ok,
    covers_points,
    overlay_of,
    dissolving,
    overlap,
    CellValue,
    first_contact_of,
    is_first_contact,
    values_of,
    cells_disjoint,
    boxes_disjoint,
};
use crate::sums::{
    sum_of,
    swapped_out,
    lemma_sum_push,
    lemma_sum_concat,
    lemma_sum_update,
    lemma_sum_swap_remove,
    lemma_sum_nonneg,
    lemma_sum_zero,
    lemma_len_le_sum,
};

verus! {

pub proof fn lemma_area_nonneg(b: BoundingBox)
    requires
        b.wf(),
    ensures
        b.spec_area() >= 0,
{
    assert(b.width() * b.height() >= 0) by (nonlinear_arith)
        requires
            b.width() >= 0,
            b.height() >= 0,
    ;
}

/// An increasing sequence of values below `n` has at most `n` elements.
pub proof fn lemma_increasing_len(s: Seq<usize>, n: int)
    requires
        n >= 0,
        increasing(s),
        forall|k: int| 0 <= k < s.len() ==> #[trigger] s[k] < n,
    ensures
        s.len() <= n,
{
    assert forall|k: int| 0 <= k < s.len() implies #[trigger] s[k] >= k by {
        lemma_increasing_at_least(s, k);
    }
    if s.len() > 0 {
        assert(s[s.len() - 1] >= s.len() - 1);
        assert(s[s.len() - 1] < n);
    }
}

proof fn lemma_increasing_at_least(s: Seq<usize>, k: int)
    requires
        increasing(s),
        0 <= k < s.len(),
    ensures
        s[k] >= k,
    decreases k,
{
    if k > 0 {
        lemma_increasing_at_least(s, k - 1);
    }
}

/// Cells that share one label list and carry the given regions add that list's share.
pub proof fn lemma_uniform_weights(tail: Seq<Cell>, pieces: Seq<BoundingBox>, labels: Seq<usize>, i: usize)
    requires
        tail.len() == pieces.len(),
        forall|q: int| 0 <= q < tail.len() ==> (#[trigger] tail[q]).0 == pieces[q] && tail[q].1@ == labels,
    ensures
        sum_of(tail, label_weight(i)) == if labels.contains(i) {
            total_area(pieces)
        } else {
            0
        },
    decreases tail.len(),
{
    if tail.len() > 0 {
        lemma_uniform_weights(tail.drop_last(), pieces.drop_last(), labels, i);
    }
}

/// The covered area of a node is never negative.
pub proof fn lemma_covered_nonneg(cells: Seq<Cell>, i: usize)
    requires
        forall|c: int| 0 <= c < cells.len() ==> (#[trigger] cells[c]).0.wf(),
    ensures
        covered_area(cells, i) >= 0,
{
    assert forall|c: int| 0 <= c < cells.len() implies (#[trigger] label_weight(i)(cells[c])) >= 0 by {
        lemma_area_nonneg(cells[c].0);
    }
    lemma_sum_nonneg(cells, label_weight(i));
}

/// A node that labels no cell covers no area.
pub proof fn lemma_unlabelled(cells: Seq<Cell>, i: usize)
    requires
        forall|c: int| 0 <= c < cells.len() ==> !(#[trigger] cells[c]).1@.contains(i),
    ensures
        covered_area(cells, i) == 0,
{
    assert forall|c: int| 0 <= c < cells.len() implies (#[trigger] label_weight(i)(cells[c])) == 0 by {}
    lemma_sum_zero(cells, label_weight(i));
}

/// Labels below `n` leave every later node unlabelled.
pub proof fn lemma_labels_below(root: BoundingBox, nodes: Seq<Node>, n: int, cells: Seq<Cell>, i: usize)
    requires
        forall|c: int| 0 <= c < cells.len() ==> cell_ok(root, nodes, n, #[trigger] cells[c]),
        i >= n,
    ensures
        forall|c: int| 0 <= c < cells.len() ==> !(#[trigger] cells[c]).1@.contains(i),
        covered_area(cells, i) == 0,
{
    assert forall|c: int| 0 <= c < cells.len() implies !(#[trigger] cells[c]).1@.contains(i) by {
        if cells[c].1@.contains(i) {
            let m = choose|m: int| 0 <= m < cells[c].1@.len() && cells[c].1@[m] == i;
            assert(cell_ok(root, nodes, n, cells[c]));
            assert(cells[c].1@[m] < n);
        }
    }
    lemma_unlabelled(cells, i);
}

/// A node whose influence misses the root adds nothing.
pub proof fn lemma_skip(root: BoundingBox, nodes: Seq<Node>, k: usize, cells: Seq<Cell>)
    requires
        k < nodes.len(),
        overlay_of(root, nodes, k as int, cells),
        nodes[k as int].influence(root) is None,
    ensures
        overlay_of(root, nodes, k + 1, cells),
{
    lemma_labels_below(root, nodes, k as int, cells, k);
    assert forall|c: int| 0 <= c < cells.len() implies cell_ok(root, nodes, k + 1, #[trigger] cells[c]) by {
        assert(cell_ok(root, nodes, k as int, cells[c]));
    }
}

/// Dissolving a node starts with its whole influence pending.
pub proof fn lemma_start(root: BoundingBox, nodes: Seq<Node>, k: usize, b: BoundingBox, cells: Seq<Cell>)
    requires
        k < nodes.len(),
        overlay_of(root, nodes, k as int, cells),
        nodes[k as int].influence(root) == Some(b),
        b.wf(),
    ensures
        dissolving(root, nodes, k, b, cells, seq![b]),
{
    lemma_labels_below(root, nodes, k as int, cells, k);
    assert forall|c: int| 0 <= c < cells.len() implies cell_ok(root, nodes, k + 1, #[trigger] cells[c]) by {
        assert(cell_ok(root, nodes, k as int, cells[c]));
    }
    assert(seq![b].drop_last() =~= Seq::<BoundingBox>::empty());
    assert(total_area(seq![b]) == b.spec_area()) by {
        reveal_with_fuel(sum_of, 2);
    }
    assert forall|x: int, y: int| #[trigger] b.has_point(x, y) implies (exists|p: int|
        0 <= p < seq![b].len() && (#[trigger] seq![b][p]).has_point(x, y)) by {
        assert(seq![b][0].has_point(x, y));
    }
}

/// Once nothing is pending, the node's cells cover its influence.
pub proof fn lemma_finish(root: BoundingBox, nodes: Seq<Node>, k: usize, b: BoundingBox, cells: Seq<Cell>)
    requires
        dissolving(root, nodes, k, b, cells, Seq::empty()),
    ensures
        overlay_of(root, nodes, k + 1, cells),
{
    assert forall|i: int| 0 <= i < k + 1 implies #[trigger] covered_area(cells, i as usize)
        == influence_area(root, nodes[i]) by {
        if i == k {
            assert(total_area(Seq::<BoundingBox>::empty()) == 0);
        }
    }
    assert forall|i: int| 0 <= i < k + 1 implies covers_points(root, #[trigger] nodes[i], i as usize, cells) by {
        if i == k {
            assert forall|x: int, y: int|
                nodes[i].influence(root) is Some && #[trigger] nodes[i].influence(root).unwrap().has_point(x, y)
                implies exists|c: int|
                0 <= c < cells.len() && (#[trigger] cells[c]).0.has_point(x, y) && cells[c].1@.contains(i as usize) by {
                assert(b.has_point(x, y));
            }
        }
    }
}

/// A pending box that meets no cell becomes a cell of its own, labelled by the node alone.
pub proof fn lemma_drain_step(
    root: BoundingBox,
    nodes: Seq<Node>,
    k: usize,
    b: BoundingBox,
    cells: Seq<Cell>,
    pend: Seq<BoundingBox>,
    label: RcVec<usize>,
)
    requires
        dissolving(root, nodes, k, b, cells, pend),
        pend.len() > 0,
        forall|p: int, c: int|
            0 <= p < pend.len() && 0 <= c < cells.len() ==> !(#[trigger] pend[p]).spec_intersects(
                (#[trigger] cells[c]).0,
            ),
        label@ == seq![k],
    ensures
        dissolving(root, nodes, k, b, cells.push((pend.last(), label)), pend.drop_last()),
        forall|p: int, c: int|
            0 <= p < pend.drop_last().len() && 0 <= c < cells.push((pend.last(), label)).len()
                ==> !(#[trigger] pend.drop_last()[p]).spec_intersects(
                (#[trigger] cells.push((pend.last(), label))[c]).0,
            ),
{
    let nc = (pend.last(), label);
    let cells2 = cells.push(nc);
    let pend2 = pend.drop_last();
    let last = pend.len() - 1;
    assert(cells2[cells.len() as int] == nc);
    assert(label@[0] == k);
    assert(label@.contains(k));
    // disjointness
    assert forall|a: int, c: int|
        0 <= a < cells2.len() && 0 <= c < cells2.len() && a != c implies !(
        #[trigger] cells2[a]).0.spec_intersects((#[trigger] cells2[c]).0) by {
        if a == cells.len() {
            assert(!pend[last].spec_intersects(cells[c].0));
        } else if c == cells.len() {
            assert(!pend[last].spec_intersects(cells[a].0));
        } else {
            assert(cells2[a] == cells[a] && cells2[c] == cells[c]);
        }
    }
    // cells stay well labelled
    assert forall|c: int| 0 <= c < cells2.len() implies cell_ok(root, nodes, k + 1, #[trigger] cells2[c]) by {
        if c == cells.len() {
            assert forall|m: int| 0 <= m < label@.len() implies #[trigger] label@[m] < k + 1
                && influence_holds(root, nodes[label@[m] as int], cells2[c].0) by {
                assert(m == 0);
            }
        } else {
            assert(cells2[c] == cells[c]);
        }
    }
    // areas
    assert forall|i: int| 0 <= i <= k implies #[trigger] covered_area(cells2, i as usize) == covered_area(cells, i as usize)
        + if i == k { pend.last().spec_area() } else { 0 } by {
        lemma_sum_push(cells, nc, label_weight(i as usize));
        if i != k {
            assert(!label@.contains(i as usize)) by {
                if label@.contains(i as usize) {
                    let m = choose|m: int| 0 <= m < label@.len() && label@[m] == i as usize;
                    assert(m == 0);
                }
            }
        }
    }
    lemma_sum_push(cells, nc, label_weight(k));
    assert(covered_area(cells2, k) == covered_area(cells, k) + pend.last().spec_area());
    assert(total_area(pend) == total_area(pend2) + pend.last().spec_area());
    // points that were covered stay covered
    assert forall|i: int| 0 <= i < k implies covers_points(root, #[trigger] nodes[i], i as usize, cells2) by {
        assert(covers_points(root, nodes[i], i as usize, cells));
        assert forall|x: int, y: int|
            nodes[i].influence(root) is Some && #[trigger] nodes[i].influence(root).unwrap().has_point(x, y)
            implies exists|c: int|
            0 <= c < cells2.len() && (#[trigger] cells2[c]).0.has_point(x, y) && cells2[c].1@.contains(i as usize) by {
            let c = choose|c: int| 0 <= c < cells.len() && (#[trigger] cells[c]).0.has_point(x, y) && cells[c].1@.contains(i as usize);
            assert(cells2[c] == cells[c]);
        }
    }
    assert forall|x: int, y: int| #[trigger] b.has_point(x, y) implies (exists|p: int|
        0 <= p < pend2.len() && (#[trigger] pend2[p]).has_point(x, y)) || (exists|c: int|
        0 <= c < cells2.len() && (#[trigger] cells2[c]).0.has_point(x, y) && cells2[c].1@.contains(k)) by {
        if exists|p: int| 0 <= p < pend.len() && (#[trigger] pend[p]).has_point(x, y) {
            let p = choose|p: int| 0 <= p < pend.len() && (#[trigger] pend[p]).has_point(x, y);
            if p == last {
                assert(cells2[cells.len() as int].0.has_point(x, y));
            } else {
                assert(pend2[p].has_point(x, y));
            }
        } else {
            let c = choose|c: int| 0 <= c < cells.len() && (#[trigger] cells[c]).0.has_point(x, y) && cells[c].1@.contains(k);
            assert(cells2[c] == cells[c]);
        }
    }
    // what is still pending meets neither the new cell nor the old ones
    assert forall|p: int, c: int|
        0 <= p < pend2.len() && 0 <= c < cells2.len() implies !(#[trigger] pend2[p]).spec_intersects(
        (#[trigger] cells2[c]).0) by {
        if c == cells.len() {
            assert(!pend[p].spec_intersects(pend[last]));
        } else {
            assert(cells2[c] == cells[c]);
        }
    }
    assert forall|p: int, c: int|
        0 <= p < pend2.len() && 0 <= c < cells2.len() && (#[trigger] cells2[c]).1@.contains(k)
        implies !(#[trigger] pend2[p]).spec_intersects(cells2[c].0) by {
        if c == cells.len() {
            assert(!pend[p].spec_intersects(pend[last]));
        } else {
            assert(cells2[c] == cells[c]);
        }
    }
}

/// Facts on the overlap of two intersecting boxes, and on cutting it out of either.
pub proof fn lemma_overlap(a: BoundingBox, c: BoundingBox)
    requires
        a.wf(),
        c.wf(),
        a.spec_intersects(c),
    ensures
        overlap(a, c).wf(),
        overlap(a, c).spec_area() >= 1,
        a.spec_contains(overlap(a, c)),
        c.spec_contains(overlap(a, c)),
        a.spec_intersects(overlap(a, c)),
        c.spec_intersects(overlap(a, c)),
        a.spec_intersection(overlap(a, c)) == Some(overlap(a, c)),
        c.spec_intersection(overlap(a, c)) == Some(overlap(a, c)),
        forall|x: int, y: int|
            #[trigger] overlap(a, c).has_point(x, y) <==> (a.has_point(x, y) && c.has_point(x, y)),
{
    lemma_intersection(a, c);
}

/// A box inside `a` misses whatever `a` misses.
pub proof fn lemma_inside_misses(s: BoundingBox, a: BoundingBox, q: BoundingBox)
    requires
        a.spec_contains(s),
        !a.spec_intersects(q) || !q.spec_intersects(a),
    ensures
        !s.spec_intersects(q),
        !q.spec_intersects(s),
{
}

/// The cell met by a pending box is not yet labelled by the node being dissolved.
pub proof fn lemma_contact_labels(
    root: BoundingBox,
    nodes: Seq<Node>,
    k: usize,
    b: BoundingBox,
    cells: Seq<Cell>,
    pend: Seq<BoundingBox>,
    pi: int,
    ci: int,
)
    requires
        dissolving(root, nodes, k, b, cells, pend),
        0 <= pi < pend.len(),
        0 <= ci < cells.len(),
        pend[pi].spec_intersects(cells[ci].0),
    ensures
        !cells[ci].1@.contains(k),
        forall|m: int| 0 <= m < cells[ci].1@.len() ==> #[trigger] cells[ci].1@[m] < k,
        cells[ci].1@.len() <= k,
{
    let l = cells[ci].1@;
    assert(cell_ok(root, nodes, k + 1, cells[ci]));
    assert forall|m: int| 0 <= m < l.len() implies #[trigger] l[m] < k by {
        assert(l[m] < k + 1);
        if l[m] == k {
            assert(l.contains(k));
        }
    }
    lemma_increasing_len(l, k as int);
}

/// The state just before a pending box `pend[pi]` and a cell `cells[ci]` that meet are
/// split: `newlab` is the cell's labels with node `k` added, `tail` the rest of the cell.
pub open spec fn contact_ready(
    root: BoundingBox,
    nodes: Seq<Node>,
    k: usize,
    b: BoundingBox,
    cells: Seq<Cell>,
    pend: Seq<BoundingBox>,
    pi: int,
    ci: int,
    newlab: RcVec<usize>,
    tail: Seq<Cell>,
) -> bool {
    &&& dissolving(root, nodes, k, b, cells, pend)
    &&& 0 <= pi < pend.len()
    &&& 0 <= ci < cells.len()
    &&& pend[pi].spec_intersects(cells[ci].0)
    &&& newlab@ == cells[ci].1@.push(k)
    &&& tail.len() == cells[ci].0.spec_difference(overlap(pend[pi], cells[ci].0)).len()
    &&& forall|q: int|
        0 <= q < tail.len() ==> (#[trigger] tail[q]).0 == cells[ci].0.spec_difference(
            overlap(pend[pi], cells[ci].0),
        )[q] && tail[q].1@ == cells[ci].1@
}

pub open spec fn cells_after(
    cells: Seq<Cell>,
    pend: Seq<BoundingBox>,
    pi: int,
    ci: int,
    newlab: RcVec<usize>,
    tail: Seq<Cell>,
) -> Seq<Cell> {
    cells.update(ci, (overlap(pend[pi], cells[ci].0), newlab)) + tail
}

pub open spec fn pend_after(cells: Seq<Cell>, pend: Seq<BoundingBox>, pi: int, ci: int) -> Seq<
    BoundingBox,
> {
    swapped_out(pend, pi) + pend[pi].spec_difference(overlap(pend[pi], cells[ci].0))
}

/// Where the boxes and labels of the state after a contact come from.
proof fn lemma_contact_facts(
    root: BoundingBox,
    nodes: Seq<Node>,
    k: usize,
    b: BoundingBox,
    cells: Seq<Cell>,
    pend: Seq<BoundingBox>,
    pi: int,
    ci: int,
    newlab: RcVec<usize>,
    tail: Seq<Cell>,
)
    requires
        contact_ready(root, nodes, k, b, cells, pend, pi, ci, newlab, tail),
    ensures
        cell_ok(root, nodes, k + 1, cells[ci]),
        pend[pi].wf(),
        b.spec_contains(pend[pi]),
        !cells[ci].1@.contains(k),
        forall|m: int| 0 <= m < cells[ci].1@.len() ==> #[trigger] cells[ci].1@[m] < k,
        forall|j: usize| #[trigger] newlab@.contains(j) <==> (cells[ci].1@.contains(j) || j == k),
        cells_after(cells, pend, pi, ci, newlab, tail).len() == cells.len() + tail.len(),
        forall|a: int|
            0 <= a < cells_after(cells, pend, pi, ci, newlab, tail).len() ==> #[trigger] cells_after(
                cells,
                pend,
                pi,
                ci,
                newlab,
                tail,
            )[a] == if a < cells.len() {
                if a == ci {
                    (overlap(pend[pi], cells[ci].0), newlab)
                } else {
                    cells[a]
                }
            } else {
                tail[a - cells.len()]
            },
        pend_after(cells, pend, pi, ci).len() == pend.len() - 1 + pend[pi].spec_difference(
            overlap(pend[pi], cells[ci].0),
        ).len(),
        forall|a: int|
            0 <= a < pend_after(cells, pend, pi, ci).len() ==> #[trigger] pend_after(
                cells,
                pend,
                pi,
                ci,
            )[a] == if a < pend.len() - 1 {
                if a == pi {
                    pend[pend.len() - 1]
                } else {
                    pend[a]
                }
            } else {
                pend[pi].spec_difference(overlap(pend[pi], cells[ci].0))[a - (pend.len() - 1)]
            },
{
    let l = cells[ci].1@;
    assert(cell_ok(root, nodes, k + 1, cells[ci]));
    lemma_contact_labels(root, nodes, k, b, cells, pend, pi, ci);
    assert forall|j: usize| #[trigger] newlab@.contains(j) <==> (l.contains(j) || j == k) by {
        if newlab@.contains(j) {
            let m = choose|m: int| 0 <= m < newlab@.len() && newlab@[m] == j;
            if m < l.len() {
                assert(l[m] == j);
            }
        }
        if l.contains(j) {
            let m = choose|m: int| 0 <= m < l.len() && l[m] == j;
            assert(newlab@[m] == j);
        }
        if j == k {
            assert(newlab@[newlab@.len() - 1] == k);
        }
    }
}

/// After a contact the cells are still disjoint and well labelled.
proof fn lemma_cells_after_contact(
    root: BoundingBox,
    nodes: Seq<Node>,
    k: usize,
    b: BoundingBox,
    cells: Seq<Cell>,
    pend: Seq<BoundingBox>,
    pi: int,
    ci: int,
    newlab: RcVec<usize>,
    tail: Seq<Cell>,
)
    requires
        contact_ready(root, nodes, k, b, cells, pend, pi, ci, newlab, tail),
    ensures
        cells_disjoint(cells_after(cells, pend, pi, ci, newlab, tail)),
        forall|a: int|
            0 <= a < cells_after(cells, pend, pi, ci, newlab, tail).len() ==> cell_ok(
                root,
                nodes,
                k + 1,
                #[trigger] cells_after(cells, pend, pi, ci, newlab, tail)[a],
            ),
{
    lemma_contact_facts(root, nodes, k, b, cells, pend, pi, ci, newlab, tail);
    let p = pend[pi];
    let c = cells[ci];
    let i = overlap(p, c.0);
    let l = c.1@;
    let dc = c.0.spec_difference(i);
    let cells2 = cells_after(cells, pend, pi, ci, newlab, tail);
    let n = cells.len();
    lemma_overlap(p, c.0);
    lemma_difference(c.0, i);
    assert forall|a: int, e: int|
        0 <= a < cells2.len() && 0 <= e < cells2.len() && a != e implies !(
        #[trigger] cells2[a]).0.spec_intersects((#[trigger] cells2[e]).0) by {
        if a < n && e < n {
            if a == ci {
                lemma_inside_misses(i, c.0, cells[e].0);
            } else if e == ci {
                lemma_inside_misses(i, c.0, cells[a].0);
            }
        } else if a < n {
            assert(cells2[e].0 == dc[e - n]);
            if a == ci {
                assert(!dc[e - n].spec_intersects(i));
            } else {
                lemma_inside_misses(dc[e - n], c.0, cells[a].0);
            }
        } else if e < n {
            assert(cells2[a].0 == dc[a - n]);
            if e == ci {
                assert(!dc[a - n].spec_intersects(i));
            } else {
                lemma_inside_misses(dc[a - n], c.0, cells[e].0);
            }
        } else {
            assert(cells2[a].0 == dc[a - n]);
            assert(cells2[e].0 == dc[e - n]);
        }
    }
    assert forall|a: int| 0 <= a < cells2.len() implies cell_ok(root, nodes, k + 1, #[trigger] cells2[a]) by {
        if a < n && a != ci {
        } else if a == ci {
            let nl = newlab@;
            assert forall|m: int| 0 <= m < nl.len() implies #[trigger] nl[m] < k + 1 && influence_holds(
                root,
                nodes[nl[m] as int],
                i,
            ) by {
                if m < l.len() {
                    assert(nl[m] == l[m]);
                    assert(l[m] < k + 1 && influence_holds(root, nodes[l[m] as int], c.0));
                } else {
                    assert(nl[m] == k);
                }
            }
            assert forall|m1: int, m2: int| 0 <= m1 < m2 < nl.len() implies nl[m1] < nl[m2] by {
                if m2 < l.len() {
                    assert(nl[m1] == l[m1] && nl[m2] == l[m2]);
                } else {
                    assert(nl[m1] == l[m1]);
                    assert(l[m1] < k);
                }
            }
        } else {
            let q = a - n;
            assert(cells2[a].0 == dc[q] && cells2[a].1@ == l);
            assert forall|m: int| 0 <= m < l.len() implies #[trigger] l[m] < k + 1 && influence_holds(
                root,
                nodes[l[m] as int],
                dc[q],
            ) by {
                assert(l[m] < k + 1 && influence_holds(root, nodes[l[m] as int], c.0));
            }
        }
    }
}

/// After a contact every node keeps its covered area, but for node `k`, which gains the
/// overlap; the pending area loses the overlap.
proof fn lemma_area_after_contact(
    root: BoundingBox,
    nodes: Seq<Node>,
    k: usize,
    b: BoundingBox,
    cells: Seq<Cell>,
    pend: Seq<BoundingBox>,
    pi: int,
    ci: int,
    newlab: RcVec<usize>,
    tail: Seq<Cell>,
    j: usize,
)
    requires
        contact_ready(root, nodes, k, b, cells, pend, pi, ci, newlab, tail),
    ensures
        covered_area(cells_after(cells, pend, pi, ci, newlab, tail), j) == covered_area(cells, j)
            + if j == k {
            overlap(pend[pi], cells[ci].0).spec_area()
        } else {
            0
        },
        total_area(pend_after(cells, pend, pi, ci)) == total_area(pend) - overlap(
            pend[pi],
            cells[ci].0,
        ).spec_area(),
{
    lemma_contact_facts(root, nodes, k, b, cells, pend, pi, ci, newlab, tail);
    let p = pend[pi];
    let c = cells[ci];
    let i = overlap(p, c.0);
    let l = c.1@;
    let dp = p.spec_difference(i);
    let dc = c.0.spec_difference(i);
    let nc = (i, newlab);
    let w = label_weight(j);
    lemma_overlap(p, c.0);
    lemma_difference(c.0, i);
    lemma_difference(p, i);
    lemma_sum_concat(cells.update(ci, nc), tail, w);
    lemma_sum_update(cells, ci, nc, w);
    lemma_uniform_weights(tail, dc, l, j);
    lemma_sum_concat(swapped_out(pend, pi), dp, area_of());
    lemma_sum_swap_remove(pend, pi, area_of());
}

/// A point in a cell labelled by `j` before a contact is in one after it.
proof fn lemma_point_moves(
    root: BoundingBox,
    nodes: Seq<Node>,
    k: usize,
    b: BoundingBox,
    cells: Seq<Cell>,
    pend: Seq<BoundingBox>,
    pi: int,
    ci: int,
    newlab: RcVec<usize>,
    tail: Seq<Cell>,
    j: usize,
    x: int,
    y: int,
    e: int,
)
    requires
        contact_ready(root, nodes, k, b, cells, pend, pi, ci, newlab, tail),
        0 <= e < cells.len(),
        cells[e].0.has_point(x, y),
        cells[e].1@.contains(j),
    ensures
        exists|a: int|
            0 <= a < cells_after(cells, pend, pi, ci, newlab, tail).len() && (
            #[trigger] cells_after(cells, pend, pi, ci, newlab, tail)[a]).0.has_point(x, y)
                && cells_after(cells, pend, pi, ci, newlab, tail)[a].1@.contains(j),
{
    lemma_contact_facts(root, nodes, k, b, cells, pend, pi, ci, newlab, tail);
    let p = pend[pi];
    let c = cells[ci];
    let i = overlap(p, c.0);
    let dc = c.0.spec_difference(i);
    let cells2 = cells_after(cells, pend, pi, ci, newlab, tail);
    let n = cells.len();
    lemma_overlap(p, c.0);
    lemma_difference(c.0, i);
    if e != ci {
        assert(cells2[e] == cells[e]);
    } else if i.has_point(x, y) {
        assert(cells2[ci].0 == i);
        assert(newlab@.contains(j));
    } else {
        let q = choose|q: int| 0 <= q < dc.len() && (#[trigger] dc[q]).has_point(x, y);
        assert(cells2[n + q].0 == dc[q]);
        assert(cells2[n + q].1@ == c.1@);
    }
}

/// After a contact every point keeps its place in a cell or in the pending boxes.
proof fn lemma_points_after_contact(
    root: BoundingBox,
    nodes: Seq<Node>,
    k: usize,
    b: BoundingBox,
    cells: Seq<Cell>,
    pend: Seq<BoundingBox>,
    pi: int,
    ci: int,
    newlab: RcVec<usize>,
    tail: Seq<Cell>,
)
    requires
        contact_ready(root, nodes, k, b, cells, pend, pi, ci, newlab, tail),
    ensures
        forall|j: int|
            0 <= j < k ==> covers_points(
                root,
                #[trigger] nodes[j],
                j as usize,
                cells_after(cells, pend, pi, ci, newlab, tail),
            ),
        forall|x: int, y: int|
            #[trigger] b.has_point(x, y) ==> (exists|a: int|
                0 <= a < pend_after(cells, pend, pi, ci).len() && (#[trigger] pend_after(
                    cells,
                    pend,
                    pi,
                    ci,
                )[a]).has_point(x, y)) || (exists|a: int|
                0 <= a < cells_after(cells, pend, pi, ci, newlab, tail).len() && (
                #[trigger] cells_after(cells, pend, pi, ci, newlab, tail)[a]).0.has_point(x, y)
                    && cells_after(cells, pend, pi, ci, newlab, tail)[a].1@.contains(k)),
{
    lemma_contact_facts(root, nodes, k, b, cells, pend, pi, ci, newlab, tail);
    let p = pend[pi];
    let c = cells[ci];
    let i = overlap(p, c.0);
    let dp = p.spec_difference(i);
    let cells2 = cells_after(cells, pend, pi, ci, newlab, tail);
    let pend2 = pend_after(cells, pend, pi, ci);
    let last = pend.len() - 1;
    lemma_overlap(p, c.0);
    lemma_difference(p, i);
    assert forall|j: int| 0 <= j < k implies covers_points(root, #[trigger] nodes[j], j as usize, cells2) by {
        assert(covers_points(root, nodes[j], j as usize, cells));
        assert forall|x: int, y: int|
            nodes[j].influence(root) is Some && #[trigger] nodes[j].influence(root).unwrap().has_point(x, y)
            implies exists|a: int|
            0 <= a < cells2.len() && (#[trigger] cells2[a]).0.has_point(x, y) && cells2[a].1@.contains(j as usize) by {
            let e = choose|e: int| 0 <= e < cells.len() && (#[trigger] cells[e]).0.has_point(x, y) && cells[e].1@.contains(j as usize);
            lemma_point_moves(root, nodes, k, b, cells, pend, pi, ci, newlab, tail, j as usize, x, y, e);
        }
    }
    assert forall|x: int, y: int| #[trigger] b.has_point(x, y) implies (exists|a: int|
        0 <= a < pend2.len() && (#[trigger] pend2[a]).has_point(x, y)) || (exists|a: int|
        0 <= a < cells2.len() && (#[trigger] cells2[a]).0.has_point(x, y) && cells2[a].1@.contains(k)) by {
        if exists|o: int| 0 <= o < pend.len() && (#[trigger] pend[o]).has_point(x, y) {
            let o = choose|o: int| 0 <= o < pend.len() && (#[trigger] pend[o]).has_point(x, y);
            if o == pi {
                if i.has_point(x, y) {
                    assert(cells2[ci].0 == i);
                    assert(cells2[ci].1@.contains(k));
                } else {
                    let q = choose|q: int| 0 <= q < dp.len() && (#[trigger] dp[q]).has_point(x, y);
                    assert(pend2[last + q] == dp[q]);
                }
            } else if o == last {
                assert(pend2[pi] == pend[last]);
            } else {
                assert(pend2[o] == pend[o]);
            }
        } else {
            let e = choose|e: int| 0 <= e < cells.len() && (#[trigger] cells[e]).0.has_point(x, y) && cells[e].1@.contains(k);
            lemma_point_moves(root, nodes, k, b, cells, pend, pi, ci, newlab, tail, k, x, y, e);
        }
    }
}

/// After a contact the pending boxes are still disjoint, inside the node's influence, of
/// positive area, and apart from the cells labelled by the node.
proof fn lemma_pending_after_contact(
    root: BoundingBox,
    nodes: Seq<Node>,
    k: usize,
    b: BoundingBox,
    cells: Seq<Cell>,
    pend: Seq<BoundingBox>,
    pi: int,
    ci: int,
    newlab: RcVec<usize>,
    tail: Seq<Cell>,
)
    requires
        contact_ready(root, nodes, k, b, cells, pend, pi, ci, newlab, tail),
    ensures
        forall|a: int|
            0 <= a < pend_after(cells, pend, pi, ci).len() ==> (#[trigger] pend_after(
                cells,
                pend,
                pi,
                ci,
            )[a]).wf() && b.spec_contains(pend_after(cells, pend, pi, ci)[a]) && pend_after(
                cells,
                pend,
                pi,
                ci,
            )[a].spec_area() >= 1,
        boxes_disjoint(pend_after(cells, pend, pi, ci)),
        forall|a: int, e: int|
            0 <= a < pend_after(cells, pend, pi, ci).len() && 0 <= e < cells_after(
                cells,
                pend,
                pi,
                ci,
                newlab,
                tail,
            ).len() && (#[trigger] cells_after(cells, pend, pi, ci, newlab, tail)[e]).1@.contains(k)
                ==> !(#[trigger] pend_after(cells, pend, pi, ci)[a]).spec_intersects(
                cells_after(cells, pend, pi, ci, newlab, tail)[e].0,
            ),
{
    lemma_contact_facts(root, nodes, k, b, cells, pend, pi, ci, newlab, tail);
    let p = pend[pi];
    let c = cells[ci];
    let i = overlap(p, c.0);
    let dp = p.spec_difference(i);
    let cells2 = cells_after(cells, pend, pi, ci, newlab, tail);
    let pend2 = pend_after(cells, pend, pi, ci);
    let last = pend.len() - 1;
    let n = cells.len();
    lemma_overlap(p, c.0);
    lemma_difference(p, i);
    assert forall|a: int| 0 <= a < pend2.len() implies (#[trigger] pend2[a]).wf() && b.spec_contains(
        pend2[a]) && pend2[a].spec_area() >= 1 by {
        if a < last {
            let o = if a == pi { last } else { a };
            assert(pend2[a] == pend[o]);
            assert(pend.len() > 1);
        } else {
            assert(pend2[a] == dp[a - last]);
        }
    }
    assert forall|a: int, e: int|
        0 <= a < pend2.len() && 0 <= e < pend2.len() && a != e implies !(#[trigger] pend2[a]).spec_intersects(
        #[trigger] pend2[e]) by {
        let oa = if a == pi { last } else { a };
        let oe = if e == pi { last } else { e };
        if a < last && e < last {
            assert(pend2[a] == pend[oa] && pend2[e] == pend[oe]);
        } else if a < last {
            assert(pend2[a] == pend[oa]);
            assert(pend2[e] == dp[e - last]);
            lemma_inside_misses(dp[e - last], p, pend[oa]);
        } else if e < last {
            assert(pend2[e] == pend[oe]);
            assert(pend2[a] == dp[a - last]);
            lemma_inside_misses(dp[a - last], p, pend[oe]);
        } else {
            assert(pend2[a] == dp[a - last]);
            assert(pend2[e] == dp[e - last]);
        }
    }
    assert forall|a: int, e: int|
        0 <= a < pend2.len() && 0 <= e < cells2.len() && (#[trigger] cells2[e]).1@.contains(k)
        implies !(#[trigger] pend2[a]).spec_intersects(cells2[e].0) by {
        assert(e < n);
        if a < last {
            let oa = if a == pi { last } else { a };
            assert(pend2[a] == pend[oa]);
            if e == ci {
                lemma_inside_misses(i, p, pend[oa]);
            } else {
                assert(cells2[e] == cells[e]);
            }
        } else {
            assert(pend2[a] == dp[a - last]);
            if e == ci {
                assert(cells2[e].0 == i);
            } else {
                assert(cells2[e] == cells[e]);
                lemma_inside_misses(dp[a - last], p, cells[e].0);
            }
        }
    }
}

/// Where a pending box meets a cell in their overlap: the cell gives way to the overlap,
/// labelled by node `k` too, and to the rest of the cell, labelled as the cell was; the
/// pending box gives way to its own rest. The pending area shrinks.
pub proof fn lemma_contact_step(
    root: BoundingBox,
    nodes: Seq<Node>,
    k: usize,
    b: BoundingBox,
    cells: Seq<Cell>,
    pend: Seq<BoundingBox>,
    pi: int,
    ci: int,
    newlab: RcVec<usize>,
    tail: Seq<Cell>,
)
    requires
        contact_ready(root, nodes, k, b, cells, pend, pi, ci, newlab, tail),
    ensures
        dissolving(
            root,
            nodes,
            k,
            b,
            cells_after(cells, pend, pi, ci, newlab, tail),
            pend_after(cells, pend, pi, ci),
        ),
        total_area(pend_after(cells, pend, pi, ci)) < total_area(pend),
        pend_after(cells, pend, pi, ci).len() <= b.spec_area(),
{
    let cells2 = cells_after(cells, pend, pi, ci, newlab, tail);
    let pend2 = pend_after(cells, pend, pi, ci);
    lemma_overlap(pend[pi], cells[ci].0);
    lemma_cells_after_contact(root, nodes, k, b, cells, pend, pi, ci, newlab, tail);
    assert forall|j: int| 0 <= j < k implies #[trigger] covered_area(cells2, j as usize) == influence_area(
        root,
        nodes[j],
    ) by {
        lemma_area_after_contact(root, nodes, k, b, cells, pend, pi, ci, newlab, tail, j as usize);
    }
    lemma_area_after_contact(root, nodes, k, b, cells, pend, pi, ci, newlab, tail, k);
    lemma_points_after_contact(root, nodes, k, b, cells, pend, pi, ci, newlab, tail);
    lemma_pending_after_contact(root, nodes, k, b, cells, pend, pi, ci, newlab, tail);
    lemma_len_le_sum(pend2, area_of());
    lemma_covered_nonneg(cells2, k);
}

/// The node's influence is a well-formed box.
pub proof fn lemma_influence_wf(node: Node, root: BoundingBox)
    requires
        root.wf(),
    ensures
        node.influence(root) matches Some(b) ==> b.wf(),
{
    match node.half_extents {
        Some((hx, hy)) => {
            if root.spec_intersects(node.reach(hx, hy)) {
                lemma_intersection(root, node.reach(hx, hy));
            }
        },
        None => {},
    }
}

/// After a contact there are no more pending boxes than the node's influence has area.
pub proof fn lemma_pending_len_after_contact(
    root: BoundingBox,
    nodes: Seq<Node>,
    k: usize,
    b: BoundingBox,
    cells: Seq<Cell>,
    pend: Seq<BoundingBox>,
    pi: int,
    ci: int,
)
    requires
        dissolving(root, nodes, k, b, cells, pend),
        0 <= pi < pend.len(),
        0 <= ci < cells.len(),
        pend[pi].spec_intersects(cells[ci].0),
    ensures
        pend_after(cells, pend, pi, ci).len() <= b.spec_area(),
{
    let p = pend[pi];
    let c = cells[ci];
    let i = overlap(p, c.0);
    let dp = p.spec_difference(i);
    let pend2 = pend_after(cells, pend, pi, ci);
    let last = pend.len() - 1;
    assert(cell_ok(root, nodes, k + 1, c));
    lemma_overlap(p, c.0);
    lemma_difference(p, i);
    lemma_sum_concat(swapped_out(pend, pi), dp, area_of());
    lemma_sum_swap_remove(pend, pi, area_of());
    assert forall|a: int| 0 <= a < pend2.len() implies (#[trigger] pend2[a]).spec_area() >= 1 by {
        if a < last {
            let o = if a == pi { last } else { a };
            assert(pend2[a] == pend[o]);
            assert(pend.len() > 1);
        } else {
            assert(pend2[a] == dp[a - last]);
        }
    }
    lemma_len_le_sum(pend2, area_of());
    lemma_covered_nonneg(cells, k);
}

/// The contact that `first_contact_of` names, when there is one, is a first contact.
pub proof fn lemma_first_contact_of(pend: Seq<BoundingBox>, cells: Seq<CellValue>)
    ensures
        first_contact_of(pend, cells) matches Some((p, c)) ==> is_first_contact(pend, cells, p, c),
        first_contact_of(pend, cells) is None ==> forall|p: int, c: int|
            !is_first_contact(pend, cells, p, c),
{
    if first_contact_of(pend, cells) is None {
        assert forall|p: int, c: int| !is_first_contact(pend, cells, p, c) by {
            if is_first_contact(pend, cells, p, c) {
                assert(is_first_contact(pend, cells, (p, c).0, (p, c).1));
            }
        }
    }
}

/// There is at most one first contact.
pub proof fn lemma_first_contact_unique(pend: Seq<BoundingBox>, cells: Seq<CellValue>, p: int, c: int)
    requires
        is_first_contact(pend, cells, p, c),
    ensures
        first_contact_of(pend, cells) == Some((p, c)),
{
    assert(is_first_contact(pend, cells, (p, c).0, (p, c).1));
    let pc = choose|pc: (int, int)| is_first_contact(pend, cells, pc.0, pc.1);
    if pc.0 < p || (pc.0 == p && pc.1 < c) {
        assert(!pend[pc.0].spec_intersects(cells[pc.1].0));
    } else if p < pc.0 || (p == pc.0 && c < pc.1) {
        assert(!pend[p].spec_intersects(cells[c].0));
    }
}

/// Each contact takes the overlap out of the pending area.
pub proof fn lemma_dissolve_shrinks(pend: Seq<BoundingBox>, cells: Seq<CellValue>, pi: int, ci: int)
    requires
        forall|p: int| 0 <= p < pend.len() ==> (#[trigger] pend[p]).wf(),
        forall|c: int| 0 <= c < cells.len() ==> (#[trigger] cells[c]).0.wf(),
        first_contact_of(pend, cells) == Some((pi, ci)),
    ensures
        0 <= total_area(swapped_out(pend, pi) + pend[pi].spec_difference(overlap(pend[pi], cells[ci].0)))
            < total_area(pend),
{
    lemma_first_contact_of(pend, cells);
    let p = pend[pi];
    let i = overlap(p, cells[ci].0);
    let dp = p.spec_difference(i);
    let pend2 = swapped_out(pend, pi) + dp;
    let last = pend.len() - 1;
    lemma_overlap(p, cells[ci].0);
    lemma_difference(p, i);
    lemma_sum_concat(swapped_out(pend, pi), dp, area_of());
    lemma_sum_swap_remove(pend, pi, area_of());
    assert forall|a: int| 0 <= a < pend2.len() implies area_of()(#[trigger] pend2[a]) >= 0 by {
        if a < last {
            let o = if a == pi { last } else { a };
            assert(pend2[a] == pend[o]);
        } else {
            assert(pend2[a] == dp[a - last]);
        }
        lemma_area_nonneg(pend2[a]);
    }
    lemma_sum_nonneg(pend2, area_of());
}

/// While dissolving, every cell is well formed.
pub proof fn lemma_values_wf(
    root: BoundingBox,
    nodes: Seq<Node>,
    k: usize,
    b: BoundingBox,
    cells: Seq<Cell>,
    pend: Seq<BoundingBox>,
)
    requires
        dissolving(root, nodes, k, b, cells, pend),
    ensures
        forall|c: int| 0 <= c < values_of(cells).len() ==> (#[trigger] values_of(cells)[c]).0.wf(),
{
    assert forall|c: int| 0 <= c < values_of(cells).len() implies (#[trigger] values_of(cells)[c]).0.wf() by {
        assert(cell_ok(root, nodes, k + 1, cells[c]));
    }
}

} // verus!
