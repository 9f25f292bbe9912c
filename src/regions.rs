use vstd::prelude::*;

use crate::aabb::{BoundingBox, total_area, area_of};
use crate::node::Node;
use crate::rc_vec::RcVec;
use crate::stack::Stack;
use crate::steps::{
    contact_ready,
    pend_after,
    lemma_skip,
    lemma_start,
    lemma_finish,
    lemma_drain_step,
    lemma_contact_labels,
    lemma_contact_step,
    lemma_influence_wf,
    lemma_pending_len_after_contact,
    lemma_dissolve_shrinks,
    lemma_first_contact_of,
    lemma_first_contact_unique,
    lemma_values_wf,
};
use crate::sums::{sum_of, swapped_out, lemma_sum_nonneg};

verus! {

/// A region of the arena with the indices of the nodes that influence it.
pub type Cell = (BoundingBox, RcVec<usize>);

/// The area that a cell adds to node `i`'s share: its own area if `i` labels it.
pub open spec fn label_weight(i: usize) -> spec_fn(Cell) -> int {
    |c: Cell|
        if c.1@.contains(i) {
            c.0.spec_area()
        } else {
            0
        }
}

/// The summed area of the cells that node `i` labels.
pub open spec fn covered_area(cells: Seq<Cell>, i: usize) -> int {
    sum_of(cells, label_weight(i))
}

/// The area of the part of `root` that `node` influences.
pub open spec fn influence_area(root: BoundingBox, node: Node) -> int {
    match node.influence(root) {
        Some(b) => b.spec_area(),
        None => 0,
    }
}

pub open spec fn cells_disjoint(cells: Seq<Cell>) -> bool {
    forall|a: int, b: int|
        0 <= a < cells.len() && 0 <= b < cells.len() && a != b ==> !(
        #[trigger] cells[a]).0.spec_intersects((#[trigger] cells[b]).0)
}

pub open spec fn boxes_disjoint(boxes: Seq<BoundingBox>) -> bool {
    forall|a: int, b: int|
        0 <= a < boxes.len() && 0 <= b < boxes.len() && a != b ==> !(
        #[trigger] boxes[a]).spec_intersects(#[trigger] boxes[b])
}

pub open spec fn increasing(s: Seq<usize>) -> bool {
    forall|a: int, b: int| 0 <= a < b < s.len() ==> s[a] < s[b]
}

/// Node `j` influences `root`, and its influence holds `region`.
pub open spec fn influence_holds(root: BoundingBox, node: Node, region: BoundingBox) -> bool {
    node.influence(root) is Some && node.influence(root).unwrap().spec_contains(region)
}

/// A well-formed cell labelled, in increasing order, by nodes among the first `n`, each of
/// whose influence holds the cell's region.
pub open spec fn cell_ok(root: BoundingBox, nodes: Seq<Node>, n: int, c: Cell) -> bool {
    &&& c.0.wf()
    &&& c.1@.len() > 0
    &&& increasing(c.1@)
    &&& forall|k: int|
        0 <= k < c.1@.len() ==> #[trigger] c.1@[k] < n && influence_holds(
            root,
            nodes[c.1@[k] as int],
            c.0,
        )
}

/// Every point that node `i` influences lies in a cell labelled by `i`.
pub open spec fn covers_points(root: BoundingBox, node: Node, i: usize, cells: Seq<Cell>) -> bool {
    forall|x: int, y: int|
        node.influence(root) is Some && #[trigger] node.influence(root).unwrap().has_point(x, y)
            ==> exists|c: int|
            0 <= c < cells.len() && (#[trigger] cells[c]).0.has_point(x, y) && cells[c].1@.contains(
                i,
            )
}

/// `cells` is the overlay of the first `n` nodes on `root`: disjoint cells, each labelled
/// by the nodes that influence it, where every node's cells cover its influence and add
/// up to its area.
pub open spec fn overlay_of(root: BoundingBox, nodes: Seq<Node>, n: int, cells: Seq<Cell>) -> bool {
    &&& cells_disjoint(cells)
    &&& forall|c: int| 0 <= c < cells.len() ==> cell_ok(root, nodes, n, #[trigger] cells[c])
    &&& forall|i: int|
        0 <= i < n ==> #[trigger] covered_area(cells, i as usize) == influence_area(root, nodes[i])
    &&& forall|i: int| 0 <= i < n ==> covers_points(root, #[trigger] nodes[i], i as usize, cells)
}

/// `cells` partitions the influence of all of `nodes` on `root`.
pub open spec fn is_partition(root: BoundingBox, nodes: Seq<Node>, cells: Seq<Cell>) -> bool {
    overlay_of(root, nodes, nodes.len() as int, cells)
}

/// The common part of two boxes that intersect.
pub open spec fn overlap(a: BoundingBox, b: BoundingBox) -> BoundingBox {
    a.spec_intersection(b).unwrap()
}

/// The state while node `k`, whose influence is `b`, is dissolved into the cells: `pend`
/// holds the parts of `b` that no cell accounts for yet.
pub open spec fn dissolving(
    root: BoundingBox,
    nodes: Seq<Node>,
    k: usize,
    b: BoundingBox,
    cells: Seq<Cell>,
    pend: Seq<BoundingBox>,
) -> bool {
    &&& k < nodes.len()
    &&& nodes[k as int].influence(root) == Some(b)
    &&& b.wf()
    &&& cells_disjoint(cells)
    &&& forall|c: int| 0 <= c < cells.len() ==> cell_ok(root, nodes, k + 1, #[trigger] cells[c])
    &&& forall|i: int|
        0 <= i < k ==> #[trigger] covered_area(cells, i as usize) == influence_area(root, nodes[i])
    &&& forall|i: int| 0 <= i < k ==> covers_points(root, #[trigger] nodes[i], i as usize, cells)
    &&& covered_area(cells, k) + total_area(pend) == b.spec_area()
    &&& forall|p: int| 0 <= p < pend.len() ==> (#[trigger] pend[p]).wf() && b.spec_contains(pend[p])
    &&& boxes_disjoint(pend)
    &&& forall|p: int, c: int|
        0 <= p < pend.len() && 0 <= c < cells.len() && (#[trigger] cells[c]).1@.contains(k)
            ==> !(#[trigger] pend[p]).spec_intersects(cells[c].0)
    &&& pend.len() <= 1 || forall|p: int| 0 <= p < pend.len() ==> (#[trigger] pend[p]).spec_area() >= 1
    &&& forall|x: int, y: int|
        #[trigger] b.has_point(x, y) ==> (exists|p: int| 0 <= p < pend.len() && (#[trigger] pend[p]).has_point(x, y))
            || (exists|c: int|
            0 <= c < cells.len() && (#[trigger] cells[c]).0.has_point(x, y) && cells[c].1@.contains(k))
}

/// A cell as a value: its region and its labels.
pub type CellValue = (BoundingBox, Seq<usize>);

pub open spec fn values_of(cells: Seq<Cell>) -> Seq<CellValue> {
    cells.map_values(|c: Cell| (c.0, c.1@))
}

/// `(p, c)` is the first pair, by pending box and then by cell, whose boxes intersect.
pub open spec fn is_first_contact(pend: Seq<BoundingBox>, cells: Seq<CellValue>, p: int, c: int) -> bool {
    &&& 0 <= p < pend.len()
    &&& 0 <= c < cells.len()
    &&& pend[p].spec_intersects(cells[c].0)
    &&& forall|pb: int, cb: int|
        0 <= pb < pend.len() && 0 <= cb < cells.len() && (pb < p || (pb == p && cb < c)) ==> !(
        #[trigger] pend[pb]).spec_intersects((#[trigger] cells[cb]).0)
}

pub open spec fn first_contact_of(pend: Seq<BoundingBox>, cells: Seq<CellValue>) -> Option<(int, int)> {
    if exists|pc: (int, int)| is_first_contact(pend, cells, pc.0, pc.1) {
        Some(choose|pc: (int, int)| is_first_contact(pend, cells, pc.0, pc.1))
    } else {
        None
    }
}

/// Pending boxes taken from the top down, each a cell labelled by node `k` alone.
pub open spec fn drained(pend: Seq<BoundingBox>, k: usize) -> Seq<CellValue> {
    pend.reverse().map_values(|b: BoundingBox| (b, seq![k]))
}

/// The cells that dissolving the pending boxes of node `k` into `cells` leaves, with a
/// worklist of capacity `cap`; `None` where the worklist would overflow. All boxes are
/// taken to be well formed; for others there is no result.
#[verifier::opaque]
pub open spec fn dissolve(cells: Seq<CellValue>, pend: Seq<BoundingBox>, k: usize, cap: usize) -> Option<
    Seq<CellValue>,
>
    decreases total_area(pend),
{
    if !(forall|p: int| 0 <= p < pend.len() ==> (#[trigger] pend[p]).wf()) || !(forall|c: int|
        0 <= c < cells.len() ==> (#[trigger] cells[c]).0.wf()) {
        None
    } else {
        match first_contact_of(pend, cells) {
            None => Some(cells + drained(pend, k)),
            Some((pi, ci)) => {
                let inter = overlap(pend[pi], cells[ci].0);
                let rest = pend[pi].spec_difference(inter);
                let labels = cells[ci].1;
                if pend.len() - 1 + rest.len() > cap {
                    None
                } else {
                    let pend2 = swapped_out(pend, pi) + rest;
                    proof {
                        lemma_dissolve_shrinks(pend, cells, pi, ci);
                    }
                    dissolve(
                        cells.update(ci, (inter, labels.push(k))) + cells[ci].0.spec_difference(
                            inter,
                        ).map_values(|b: BoundingBox| (b, labels)),
                        pend2,
                        k,
                        cap,
                    )
                }
            },
        }
    }
}

/// Dissolving goes on from the first contact, unless the worklist would overflow.
pub proof fn lemma_dissolve_contact(cells: Seq<CellValue>, pend: Seq<BoundingBox>, k: usize, cap: usize, pi: int, ci: int)
    requires
        forall|p: int| 0 <= p < pend.len() ==> (#[trigger] pend[p]).wf(),
        forall|c: int| 0 <= c < cells.len() ==> (#[trigger] cells[c]).0.wf(),
        first_contact_of(pend, cells) == Some((pi, ci)),
    ensures
        dissolve(cells, pend, k, cap) == if pend.len() - 1 + pend[pi].spec_difference(
            overlap(pend[pi], cells[ci].0),
        ).len() > cap {
            None
        } else {
            dissolve(
                cells.update(ci, (overlap(pend[pi], cells[ci].0), cells[ci].1.push(k)))
                    + cells[ci].0.spec_difference(overlap(pend[pi], cells[ci].0)).map_values(
                    |b: BoundingBox| (b, cells[ci].1),
                ),
                swapped_out(pend, pi) + pend[pi].spec_difference(overlap(pend[pi], cells[ci].0)),
                k,
                cap,
            )
        },
{
    reveal_with_fuel(dissolve, 1);
    let l = cells[ci].1;
    let inter = overlap(pend[pi], cells[ci].0);
    assert(cells[ci].0.spec_difference(inter).map_values(|b: BoundingBox| (b, l)) =~= cells[ci].0.spec_difference(
        overlap(pend[pi], cells[ci].0),
    ).map_values(|b: BoundingBox| (b, cells[ci].1)));
}

/// Once no pending box meets a cell, what is pending becomes cells of node `k`.
pub proof fn lemma_dissolve_done(cells: Seq<CellValue>, pend: Seq<BoundingBox>, k: usize, cap: usize)
    requires
        forall|p: int| 0 <= p < pend.len() ==> (#[trigger] pend[p]).wf(),
        forall|c: int| 0 <= c < cells.len() ==> (#[trigger] cells[c]).0.wf(),
        first_contact_of(pend, cells) is None,
    ensures
        dissolve(cells, pend, k, cap) == Some(cells + drained(pend, k)),
{
    reveal_with_fuel(dissolve, 1);
}

/// The cells that overlaying nodes `k..` on `cells` leaves; `None` where a worklist of
/// capacity `cap` would overflow.
pub open spec fn overlay_run(root: BoundingBox, nodes: Seq<Node>, k: int, cells: Seq<CellValue>, cap: usize) -> Option<
    Seq<CellValue>,
>
    decreases nodes.len() - k,
{
    if k < 0 || k >= nodes.len() {
        Some(cells)
    } else {
        match nodes[k].influence(root) {
            None => overlay_run(root, nodes, k + 1, cells, cap),
            Some(b) => if cap == 0 {
                None
            } else {
                match dissolve(cells, seq![b], k as usize, cap) {
                    None => None,
                    Some(next) => overlay_run(root, nodes, k + 1, next, cap),
                }
            },
        }
    }
}

/// The cells of the overlay of `nodes` on `root` with a worklist of capacity `cap`, or
/// `None` where the worklist would overflow.
pub open spec fn regions_of(root: BoundingBox, nodes: Seq<Node>, cap: usize) -> Option<Seq<CellValue>> {
    overlay_run(root, nodes, 0, Seq::empty(), cap)
}

/// Why a partition could not be completed.
#[derive(Clone, Copy, Debug, PartialEq, Eq, Structural)]
pub enum PartitionError {
    /// The worklist of pending boxes would have outgrown its capacity.
    CapacityExceeded,
}

/// The capacity of the worklist that `get_regions` uses.
pub const PENDING_CAPACITY: usize = 1024;

/// A worklist of capacity `cap` always has room while dissolving `node`: its influence,
/// if any, has an area of at most `cap`, and `cap` is not zero.
pub open spec fn fits(root: BoundingBox, node: Node, cap: usize) -> bool {
    match node.influence(root) {
        Some(b) => 1 <= cap && b.spec_area() <= cap,
        None => true,
    }
}

/// The first pending box, in worklist order, that meets a cell, with the first cell, in
/// order, that it meets.
fn first_contact(pending: &[BoundingBox], cells: &Vec<Cell>) -> (r: Option<(usize, usize)>)
    ensures
        match r {
            None => forall|p: int, c: int|
                0 <= p < pending@.len() && 0 <= c < cells@.len() ==> !(
                #[trigger] pending@[p]).spec_intersects((#[trigger] cells@[c]).0),
            Some((p, c)) => {
                &&& p < pending@.len()
                &&& c < cells@.len()
                &&& pending@[p as int].spec_intersects(cells@[c as int].0)
                &&& forall|pb: int, cb: int|
                    0 <= pb < pending@.len() && 0 <= cb < cells@.len() && (pb < p || (pb == p
                        && cb < c)) ==> !(#[trigger] pending@[pb]).spec_intersects(
                        (#[trigger] cells@[cb]).0,
                    )
            },
        },
{
    let mut p: usize = 0;
    while p < pending.len()
        invariant
            p <= pending@.len(),
            forall|pb: int, cb: int|
                0 <= pb < p && 0 <= cb < cells@.len() ==> !(#[trigger] pending@[pb]).spec_intersects(
                    (#[trigger] cells@[cb]).0,
                ),
        decreases pending@.len() - p,
    {
        let mut c: usize = 0;
        while c < cells.len()
            invariant
                p < pending@.len(),
                c <= cells@.len(),
                forall|pb: int, cb: int|
                    0 <= pb < p && 0 <= cb < cells@.len() ==> !(
                    #[trigger] pending@[pb]).spec_intersects((#[trigger] cells@[cb]).0),
                forall|cb: int|
                    0 <= cb < c ==> !pending@[p as int].spec_intersects((#[trigger] cells@[cb]).0),
            decreases cells@.len() - c,
        {
            if pending[p].intersects(&cells[c].0) {
                return Some((p, c));
            }
            c = c + 1;
        }
        p = p + 1;
    }
    None
}

/// Splits the parts of `root` that `nodes` influence into disjoint cells, each labelled by
/// the indices of the nodes that influence it, using a worklist of capacity `CAP`.
///
/// Nodes are taken in order. Each node's influence is pending until no part of it meets a
/// cell: the first pending box that meets a cell, and the first cell it meets, give way to
/// their overlap, labelled by the cell's nodes and this one, and to their remaining parts.
/// What is left pending then becomes cells labelled by this node alone.
pub fn get_regions_with_capacity<const CAP: usize>(root: &BoundingBox, nodes: &[Node]) -> (r: Result<
    Vec<Cell>,
    PartitionError,
>)
    requires
        root.wf(),
    ensures
        match r {
            Ok(cells) => regions_of(*root, nodes@, CAP) == Some(values_of(cells@)) && is_partition(
                *root,
                nodes@,
                cells@,
            ),
            Err(e) => e == PartitionError::CapacityExceeded && regions_of(*root, nodes@, CAP) is None,
        },
        (forall|i: int| 0 <= i < nodes@.len() ==> #[trigger] fits(*root, nodes@[i], CAP)) ==> r is Ok,
{
    let mut cells: Vec<Cell> = Vec::new();
    let mut pending: Stack<BoundingBox, CAP> = Stack::new();
    let mut k: usize = 0;
    proof {
        assert forall|i: int| 0 <= i < 0 implies covers_points(*root, #[trigger] nodes@[i], i as usize, cells@) by {}
        assert(values_of(cells@) =~= Seq::<CellValue>::empty());
    }
    while k < nodes.len()
        invariant
            root.wf(),
            k <= nodes@.len(),
            overlay_of(*root, nodes@, k as int, cells@),
            overlay_run(*root, nodes@, k as int, values_of(cells@), CAP) == regions_of(*root, nodes@, CAP),
            pending@.len() == 0,
        decreases nodes@.len() - k,
    {
        let node = nodes[k];
        match node.intersection(root) {
            None => {
                proof {
                    lemma_skip(*root, nodes@, k, cells@);
                }
            },
            Some(initial) => {
                proof {
                    lemma_influence_wf(node, *root);
                }
                if CAP == 0 {
                    assert(!fits(*root, nodes@[k as int], CAP));
                    return Err(PartitionError::CapacityExceeded);
                }
                pending.push(initial);
                let ghost cells_k = values_of(cells@);
                let ghost target = dissolve(cells_k, seq![initial], k, CAP);
                proof {
                    lemma_start(*root, nodes@, k, initial, cells@);
                    assert(pending@ =~= seq![initial]);
                }
                while pending.len() > 0
                    invariant
                        root.wf(),
                        k < nodes.len(),
                        dissolving(*root, nodes@, k, initial, cells@, pending@),
                        pending@.len() <= CAP,
                        overlay_run(*root, nodes@, k as int, cells_k, CAP) == regions_of(*root, nodes@, CAP),
                        target == dissolve(cells_k, seq![initial], k, CAP),
                        dissolve(values_of(cells@), pending@, k, CAP) == target,
                    decreases total_area(pending@), pending@.len(),
                {
                    proof {
                        lemma_sum_nonneg(pending@, area_of());
                    }
                    match first_contact(pending.as_slice(), &cells) {
                        Some((pi, ci)) => {
                            let ghost cells0 = cells@;
                            let ghost pend0 = pending@;
                            proof {
                                assert(is_first_contact(pend0, values_of(cells0), pi as int, ci as int));
                                lemma_first_contact_unique(pend0, values_of(cells0), pi as int, ci as int);
                                lemma_pending_len_after_contact(*root, nodes@, k, initial, cells0, pend0, pi as int, ci as int);
                                lemma_contact_labels(*root, nodes@, k, initial, cells0, pend0, pi as int, ci as int);
                            }
                            let part = pending.swap_remove(pi);
                            let cell_box = cells[ci].0;
                            let inter = part.intersection(&cell_box).unwrap();
                            let rest = part.difference(&inter);
                            proof {
                                lemma_values_wf(*root, nodes@, k, initial, cells0, pend0);
                                lemma_dissolve_contact(values_of(cells0), pend0, k, CAP, pi as int, ci as int);
                            }
                            if rest.len() > CAP - pending.len() {
                                assert(!fits(*root, nodes@[k as int], CAP));
                                assert(dissolve(values_of(cells0), pend0, k, CAP) is None);
                                return Err(PartitionError::CapacityExceeded);
                            }
                            // the overlap joins the cells, labelled by this node too
                            let labels = cells[ci].1.share();
                            assert(labels@ == cells0[ci as int].1@);
                            assert(labels@.len() <= k && k < usize::MAX);
                            let derived = labels.push(k);
                            let ghost newlab = derived;
                            cells.push((inter, derived));
                            cells.swap_remove(ci);
                            let ghost base = cells@;
                            assert(base =~= cells0.update(ci as int, (inter, newlab)));
                            // the rest of the cell keeps the cell's labels
                            let cell_rest = cell_box.difference(&inter);
                            let mut q: usize = 0;
                            while q < cell_rest.len()
                                invariant
                                    q <= cell_rest@.len(),
                                    cells@.len() == base.len() + q,
                                    cells@.subrange(0, base.len() as int) == base,
                                    forall|t: int|
                                        0 <= t < q ==> (#[trigger] cells@[base.len() + t]).0 == cell_rest@[t]
                                            && cells@[base.len() + t].1@ == labels@,
                                decreases cell_rest@.len() - q,
                            {
                                cells.push((cell_rest[q], labels.share()));
                                q = q + 1;
                                assert(cells@.subrange(0, base.len() as int) =~= base);
                            }
                            // the rest of the pending box stays pending
                            let ghost shrunk = pending@;
                            let mut q: usize = 0;
                            while q < rest.len()
                                invariant
                                    q <= rest@.len(),
                                    pending@ == shrunk + rest@.subrange(0, q as int),
                                    shrunk.len() + rest@.len() <= CAP,
                                decreases rest@.len() - q,
                            {
                                pending.push(rest[q]);
                                q = q + 1;
                                assert(pending@ =~= shrunk + rest@.subrange(0, q as int));
                            }
                            proof {
                                let tail = cells@.subrange(base.len() as int, cells@.len() as int);
                                assert(cells@ =~= base + tail);
                                assert(part == pend0[pi as int]);
                                assert(cell_box == cells0[ci as int].0);
                                assert(inter == overlap(pend0[pi as int], cells0[ci as int].0));
                                assert(newlab@ == cells0[ci as int].1@.push(k));
                                assert(tail.len() == cell_rest@.len());
                                assert forall|t: int| 0 <= t < tail.len() implies (#[trigger] tail[t]).0 == cell_rest@[t]
                                    && tail[t].1@ == cells0[ci as int].1@ by {
                                    assert(tail[t] == cells@[base.len() + t]);
                                }
                                assert(pending@ =~= pend_after(cells0, pend0, pi as int, ci as int));
                                assert(contact_ready(*root, nodes@, k, initial, cells0, pend0, pi as int, ci as int, newlab, tail));
                                lemma_contact_step(*root, nodes@, k, initial, cells0, pend0, pi as int, ci as int, newlab, tail);
                                lemma_sum_nonneg(pending@, area_of());
                                let l = cells0[ci as int].1@;
                                assert(values_of(cells@) =~= values_of(cells0).update(ci as int, (inter, l.push(k)))
                                    + cell_rest@.map_values(|b: BoundingBox| (b, l)));
                            }
                        },
                        None => {
                            // nothing pending meets a cell: it all becomes cells of this node
                            proof {
                                lemma_first_contact_of(pending@, values_of(cells@));
                                lemma_values_wf(*root, nodes@, k, initial, cells@, pending@);
                                lemma_dissolve_done(values_of(cells@), pending@, k, CAP);
                            }
                            let ghost finished = values_of(cells@) + drained(pending@, k);
                            let label = RcVec::new(vec![k]);
                            while pending.len() > 0
                                invariant
                                    values_of(cells@) + drained(pending@, k) == finished,
                                    dissolving(*root, nodes@, k, initial, cells@, pending@),
                                    pending@.len() <= CAP,
                                    label@ == seq![k],
                                    forall|p: int, c: int|
                                        0 <= p < pending@.len() && 0 <= c < cells@.len() ==> !(
                                        #[trigger] pending@[p]).spec_intersects((#[trigger] cells@[c]).0),
                                decreases pending@.len(),
                            {
                                let ghost cells0 = cells@;
                                let ghost pend0 = pending@;
                                let region = pending.pop().unwrap();
                                let lab = label.share();
                                let ghost g = lab;
                                cells.push((region, lab));
                                proof {
                                    lemma_drain_step(*root, nodes@, k, initial, cells0, pend0, g);
                                    assert(drained(pend0, k) =~= seq![(pend0.last(), seq![k])] + drained(pend0.drop_last(), k));
                                    assert(values_of(cells@) =~= values_of(cells0).push((pend0.last(), seq![k])));
                                    assert(values_of(cells@) + drained(pending@, k) =~= finished);
                                }
                            }
                            proof {
                                assert(pending@ =~= Seq::<BoundingBox>::empty());
                                assert(total_area(pending@) == 0);
                                assert(drained(pending@, k) =~= Seq::<CellValue>::empty());
                                assert(values_of(cells@) =~= finished);
                                lemma_first_contact_of(pending@, values_of(cells@));
                                lemma_values_wf(*root, nodes@, k, initial, cells@, pending@);
                                lemma_dissolve_done(values_of(cells@), pending@, k, CAP);
                                assert(dissolve(values_of(cells@), pending@, k, CAP) == Some(values_of(cells@)));
                            }
                        },
                    }
                }
                proof {
                    assert(pending@ =~= Seq::<BoundingBox>::empty());
                    lemma_finish(*root, nodes@, k, initial, cells@);
                    lemma_first_contact_of(pending@, values_of(cells@));
                    lemma_values_wf(*root, nodes@, k, initial, cells@, pending@);
                    lemma_dissolve_done(values_of(cells@), pending@, k, CAP);
                    assert(drained(pending@, k) =~= Seq::<CellValue>::empty());
                    assert(values_of(cells@) + drained(pending@, k) =~= values_of(cells@));
                    assert(target == Some(values_of(cells@)));
                }
            },
        }
        k = k + 1;
    }
    Ok(cells)
}

/// `get_regions_with_capacity` with a worklist of `PENDING_CAPACITY` boxes.
pub fn get_regions(root: &BoundingBox, nodes: &[Node]) -> (r: Result<Vec<Cell>, PartitionError>)
    requires
        root.wf(),
    ensures
        match r {
            Ok(cells) => regions_of(*root, nodes@, PENDING_CAPACITY) == Some(values_of(cells@))
                && is_partition(*root, nodes@, cells@),
            Err(e) => e == PartitionError::CapacityExceeded && regions_of(
                *root,
                nodes@,
                PENDING_CAPACITY,
            ) is None,
        },
        (forall|i: int| 0 <= i < nodes@.len() ==> #[trigger] fits(*root, nodes@[i], PENDING_CAPACITY))
            ==> r is Ok,
{
    get_regions_with_capacity::<PENDING_CAPACITY>(root, nodes)
}

/// In a partition the cell that holds a point is labelled by exactly the nodes whose
/// influence holds that point.
pub proof fn labels_at_point(
    root: BoundingBox,
    nodes: Seq<Node>,
    cells: Seq<Cell>,
    c: int,
    x: int,
    y: int,
)
    requires
        is_partition(root, nodes, cells),
        0 <= c < cells.len(),
        cells[c].0.has_point(x, y),
    ensures
        forall|j: usize| #[trigger] cells[c].1@.contains(j) ==> j < nodes.len(),
        forall|i: usize|
            i < nodes.len() ==> (#[trigger] cells[c].1@.contains(i) <==> (nodes[i as int].influence(
                root,
            ) is Some && nodes[i as int].influence(root).unwrap().has_point(x, y))),
{
    let l = cells[c].1@;
    assert(cell_ok(root, nodes, nodes.len() as int, cells[c]));
    assert forall|j: usize| #[trigger] l.contains(j) implies j < nodes.len() by {
        let m = choose|m: int| 0 <= m < l.len() && l[m] == j;
        assert(l[m] < nodes.len());
    }
    assert forall|i: usize| i < nodes.len() implies (#[trigger] l.contains(i) <==> (
    nodes[i as int].influence(root) is Some && nodes[i as int].influence(root).unwrap().has_point(x, y))) by {
        if l.contains(i) {
            let m = choose|m: int| 0 <= m < l.len() && l[m] == i;
            assert(influence_holds(root, nodes[l[m] as int], cells[c].0));
        }
        if nodes[i as int].influence(root) is Some && nodes[i as int].influence(root).unwrap().has_point(x, y) {
            assert(covers_points(root, nodes[i as int], (i as int) as usize, cells));
            let d = choose|d: int|
                0 <= d < cells.len() && (#[trigger] cells[d]).0.has_point(x, y) && cells[d].1@.contains(
                    i,
                );
            if d != c {
                assert(cells[d].0.spec_intersects(cells[c].0));
            }
        }
    }
}

/// Reordering the nodes changes which nodes label a point by their new indices only. With
/// `shuffled[i]` being `nodes[order[i]]` for an `order` that reaches every index, a point
/// lies in a cell of the partition of `nodes` exactly when it lies in a cell of the
/// partition of `shuffled`, and those cells are labelled by the same nodes.
pub proof fn membership_independent_of_order(
    root: BoundingBox,
    nodes: Seq<Node>,
    order: Seq<usize>,
    shuffled: Seq<Node>,
    cells: Seq<Cell>,
    shuffled_cells: Seq<Cell>,
    x: int,
    y: int,
)
    requires
        order.len() == nodes.len(),
        shuffled.len() == nodes.len(),
        forall|i: int|
            0 <= i < order.len() ==> #[trigger] order[i] < nodes.len() && shuffled[i] == nodes[order[i] as int],
        forall|j: usize| j < nodes.len() ==> #[trigger] order.contains(j),
        is_partition(root, nodes, cells),
        is_partition(root, shuffled, shuffled_cells),
    ensures
        forall|c: int, d: int|
            0 <= c < cells.len() && 0 <= d < shuffled_cells.len() && (#[trigger] cells[c]).0.has_point(x, y)
                && (#[trigger] shuffled_cells[d]).0.has_point(x, y) ==> forall|i: usize|
                i < nodes.len() ==> (#[trigger] shuffled_cells[d].1@.contains(i) <==> cells[c].1@.contains(
                    order[i as int],
                )),
        (exists|c: int| 0 <= c < cells.len() && (#[trigger] cells[c]).0.has_point(x, y)) <==> (exists|
            d: int,
        | 0 <= d < shuffled_cells.len() && (#[trigger] shuffled_cells[d]).0.has_point(x, y)),
{
    assert forall|c: int, d: int|
        0 <= c < cells.len() && 0 <= d < shuffled_cells.len() && (#[trigger] cells[c]).0.has_point(x, y)
            && (#[trigger] shuffled_cells[d]).0.has_point(x, y) implies forall|i: usize|
        i < nodes.len() ==> (#[trigger] shuffled_cells[d].1@.contains(i) <==> cells[c].1@.contains(
            order[i as int],
        )) by {
        labels_at_point(root, nodes, cells, c, x, y);
        labels_at_point(root, shuffled, shuffled_cells, d, x, y);
        assert forall|i: usize| i < nodes.len() implies (#[trigger] shuffled_cells[d].1@.contains(i)
            <==> cells[c].1@.contains(order[i as int])) by {
            assert(shuffled[i as int] == nodes[order[i as int] as int]);
            assert(cells[c].1@.contains(order[i as int]) <==> (nodes[order[i as int] as int].influence(root) is Some
                && nodes[order[i as int] as int].influence(root).unwrap().has_point(x, y)));
        }
    }
    if exists|c: int| 0 <= c < cells.len() && (#[trigger] cells[c]).0.has_point(x, y) {
        let c = choose|c: int| 0 <= c < cells.len() && (#[trigger] cells[c]).0.has_point(x, y);
        labels_at_point(root, nodes, cells, c, x, y);
        assert(cell_ok(root, nodes, nodes.len() as int, cells[c]));
        let j = cells[c].1@[0];
        assert(cells[c].1@.contains(j));
        assert(order.contains(j));
        let i = choose|i: int| 0 <= i < order.len() && order[i] == j;
        assert(shuffled[i] == nodes[j as int]);
        assert(shuffled[i].influence(root).unwrap().has_point(x, y));
        assert(covers_points(root, shuffled[i], i as usize, shuffled_cells));
    }
    if exists|d: int| 0 <= d < shuffled_cells.len() && (#[trigger] shuffled_cells[d]).0.has_point(x, y) {
        let d = choose|d: int| 0 <= d < shuffled_cells.len() && (#[trigger] shuffled_cells[d]).0.has_point(x, y);
        labels_at_point(root, shuffled, shuffled_cells, d, x, y);
        assert(cell_ok(root, shuffled, nodes.len() as int, shuffled_cells[d]));
        let i = shuffled_cells[d].1@[0];
        assert(shuffled_cells[d].1@.contains(i));
        assert(shuffled[i as int] == nodes[order[i as int] as int]);
        assert(nodes[order[i as int] as int].influence(root).unwrap().has_point(x, y));
        assert(covers_points(root, nodes[order[i as int] as int], order[i as int], cells));
    }
}

} // verus!
