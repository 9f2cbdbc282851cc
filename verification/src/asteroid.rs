//! Randomized growth of a connected region of grid cells, the blueprint of an
//! asteroid: one block is later placed on every cell.
//!
//! Growth starts from the origin. Each step picks a cell of the frontier and
//! looks at its four neighbours in a random order: the first one that is still
//! free joins the region and the frontier; where none is free the picked cell
//! leaves the frontier for good.

use crate::cell_set::CellSet;
use crate::entropy::{next_u32, shuffle};
use bevy_rand::prelude::WyRand;
use vstd::prelude::*;

verus! {

/// The largest number of cells that a region may be asked to have: with it no
/// coordinate of a cell or of a neighbour leaves the range of `i32`.
pub const MAX_BLOCKS: usize = 0x7fff_ffff;

/// The cell that every region grows from.
pub open spec fn origin() -> (i32, i32) {
    (0i32, 0i32)
}

/// The four axis-aligned neighbours of a cell: right, left, up, down.
pub open spec fn neighbors_of(cell: (i32, i32)) -> Seq<(i32, i32)> {
    seq![
        ((cell.0 + 1) as i32, cell.1),
        ((cell.0 - 1) as i32, cell.1),
        (cell.0, (cell.1 + 1) as i32),
        (cell.0, (cell.1 - 1) as i32),
    ]
}

/// Two cells share an edge.
pub open spec fn adjacent(a: (i32, i32), b: (i32, i32)) -> bool {
    ||| a.1 == b.1 && (a.0 - b.0 == 1 || b.0 - a.0 == 1)
    ||| a.0 == b.0 && (a.1 - b.1 == 1 || b.1 - a.1 == 1)
}

/// The number of steps between a cell and the origin.
pub open spec fn distance(cell: (i32, i32)) -> int {
    (if cell.0 < 0 { -cell.0 } else { cell.0 as int })
        + (if cell.1 < 0 { -cell.1 } else { cell.1 as int })
}

/// `path` walks from the origin to `to` inside `region`, one edge at a time.
pub open spec fn is_path(path: Seq<(i32, i32)>, region: Set<(i32, i32)>, to: (i32, i32)) -> bool {
    &&& path.len() > 0
    &&& path[0] == origin()
    &&& path.last() == to
    &&& forall|i: int| 0 <= i < path.len() ==> region.contains(#[trigger] path[i])
    &&& forall|i: int| 0 < i < path.len() ==> adjacent(path[i - 1], #[trigger] path[i])
}

/// Every cell of the region can be walked to from the origin without leaving
/// the region: the region is one piece, and it has no orphans.
pub open spec fn connected(region: Set<(i32, i32)>) -> bool {
    forall|cell: (i32, i32)| #[trigger]
        region.contains(cell) ==> exists|path: Seq<(i32, i32)>| is_path(path, region, cell)
}

/// All four neighbours of the cell belong to the region.
pub open spec fn enclosed(region: Set<(i32, i32)>, cell: (i32, i32)) -> bool {
    forall|k: int| 0 <= k < 4 ==> region.contains(#[trigger] neighbors_of(cell)[k])
}

/// `k` is the place of the first of `cells` that is not in the region.
pub open spec fn is_first_free(region: Set<(i32, i32)>, cells: Seq<(i32, i32)>, k: int) -> bool {
    &&& 0 <= k < cells.len()
    &&& !region.contains(cells[k])
    &&& forall|j: int| 0 <= j < k ==> region.contains(#[trigger] cells[j])
}

/// The place of the first of `cells` that is not in the region, if there is one.
pub open spec fn first_free(region: Set<(i32, i32)>, cells: Seq<(i32, i32)>) -> Option<int> {
    if exists|k: int| is_first_free(region, cells, k) {
        Some(choose|k: int| is_first_free(region, cells, k))
    } else {
        None
    }
}

/// What a growth holds: the cells accepted so far, and those among them that
/// may still have a free neighbour.
pub struct GrowthView {
    pub accepted: Set<(i32, i32)>,
    pub frontier: Seq<(i32, i32)>,
}

/// One step of growth from the frontier cell at `idx`, whose neighbours are
/// looked at in the order `shuffled`.
pub open spec fn grow_step(g: GrowthView, idx: int, shuffled: Seq<(i32, i32)>) -> GrowthView {
    match first_free(g.accepted, shuffled) {
        Some(k) => GrowthView {
            accepted: g.accepted.insert(shuffled[k]),
            frontier: g.frontier.push(shuffled[k]),
        },
        None => GrowthView {
            accepted: g.accepted,
            frontier: g.frontier.update(idx, g.frontier.last()).drop_last(),
        },
    }
}

/// What one step of growth takes from the random sources: the number that
/// picks the frontier cell, and the order in which its neighbours are tried.
pub struct Step {
    pub draw: u32,
    pub shuffled: Seq<(i32, i32)>,
}

/// The growth that the origin alone becomes by the given steps, in turn. A
/// step picks the frontier cell at its draw modulo the length of the frontier.
pub open spec fn grown(steps: Seq<Step>) -> GrowthView
    decreases steps.len(),
{
    if steps.len() == 0 {
        GrowthView { accepted: set![origin()], frontier: seq![origin()] }
    } else {
        let g = grown(steps.drop_last());
        let step = steps.last();
        grow_step(g, step.draw as int % g.frontier.len() as int, step.shuffled)
    }
}

/// Every step was taken while the region was short of `num_blocks` cells and
/// had a frontier, and tried exactly the four neighbours of the cell it picked.
pub open spec fn is_run(num_blocks: int, steps: Seq<Step>) -> bool
    decreases steps.len(),
{
    if steps.len() == 0 {
        true
    } else {
        let g = grown(steps.drop_last());
        let step = steps.last();
        &&& is_run(num_blocks, steps.drop_last())
        &&& g.accepted.len() < num_blocks
        &&& g.frontier.len() > 0
        &&& step.shuffled.to_multiset() == neighbors_of(
            g.frontier[step.draw as int % g.frontier.len() as int],
        ).to_multiset()
    }
}

/// A region under growth.
pub struct Growth {
    accepted: CellSet,
    frontier: Vec<(i32, i32)>,
}

impl View for Growth {
    type V = GrowthView;

    closed spec fn view(&self) -> GrowthView {
        GrowthView { accepted: self.accepted@, frontier: self.frontier@ }
    }
}

impl Growth {
    /// The region is finite, holds the origin and is connected; no cell lies
    /// further from the origin than there are other cells; the frontier lies
    /// in the region, and a cell outside the frontier has no free neighbour.
    pub open spec fn wf(&self) -> bool {
        let g = self@;
        &&& g.accepted.finite()
        &&& g.accepted.len() <= MAX_BLOCKS
        &&& g.accepted.contains(origin())
        &&& connected(g.accepted)
        &&& forall|cell: (i32, i32)| #[trigger]
            g.accepted.contains(cell) ==> distance(cell) < g.accepted.len()
        &&& forall|i: int| 0 <= i < g.frontier.len() ==> g.accepted.contains(#[trigger] g.frontier[i])
        &&& forall|cell: (i32, i32)| #[trigger]
            g.accepted.contains(cell) && !g.frontier.contains(cell) ==> enclosed(g.accepted, cell)
    }

    /// A region of the origin alone, which is also its frontier.
    pub fn new() -> (g: Growth)
        ensures
            g.wf(),
            g@.accepted == set![origin()],
            g@.frontier == seq![origin()],
    {
        let mut accepted = CellSet::new();
        accepted.insert((0, 0));
        let mut frontier: Vec<(i32, i32)> = Vec::new();
        frontier.push((0, 0));
        let g = Growth { accepted, frontier };
        proof {
            assert(is_path(seq![origin()], g@.accepted, origin()));
        }
        g
    }

    /// The number of cells accepted so far.
    pub fn len(&self) -> (n: usize)
        ensures
            n == self@.accepted.len(),
    {
        self.accepted.len()
    }

    /// The number of cells in the frontier.
    pub fn frontier_len(&self) -> (n: usize)
        ensures
            n == self@.frontier.len(),
    {
        self.frontier.len()
    }

    /// The place in the frontier that a draw picks.
    pub fn pick(&self, draw: u32) -> (idx: usize)
        requires
            self@.frontier.len() > 0,
        ensures
            idx == draw as int % self@.frontier.len() as int,
    {
        draw as usize % self.frontier.len()
    }

    /// The frontier cell at `idx`.
    pub fn frontier_cell(&self, idx: usize) -> (cell: (i32, i32))
        requires
            idx < self@.frontier.len(),
        ensures
            cell == self@.frontier[idx as int],
    {
        self.frontier[idx]
    }

    /// The place of the first of `cells` that the region has not accepted.
    fn find_free(&self, cells: &[(i32, i32); 4]) -> (found: Option<usize>)
        ensures
            match found {
                Some(k) => first_free(self@.accepted, cells@) == Some(k as int),
                None => first_free(self@.accepted, cells@) == None::<int>,
            },
    {
        let mut i: usize = 0;
        while i < 4
            invariant
                i <= 4,
                cells@.len() == 4,
                forall|j: int| 0 <= j < i ==> self@.accepted.contains(#[trigger] cells@[j]),
            decreases 4 - i,
        {
            if !self.accepted.contains(&cells[i]) {
                proof {
                    lemma_first_free_is(self@.accepted, cells@, i as int);
                }
                return Some(i);
            }
            i += 1;
        }
        None
    }

    /// Grows by one step from the frontier cell at `idx`: the first of its
    /// shuffled neighbours that is free joins the region and the frontier;
    /// where none is free, the cell at `idx` leaves the frontier and the last
    /// frontier cell takes its place.
    pub fn grow(&mut self, idx: usize, shuffled: &[(i32, i32); 4])
        requires
            old(self).wf(),
            old(self)@.accepted.len() < MAX_BLOCKS,
            idx < old(self)@.frontier.len(),
            shuffled@.to_multiset() == neighbors_of(old(self)@.frontier[idx as int]).to_multiset(),
        ensures
            final(self).wf(),
            final(self)@ == grow_step(old(self)@, idx as int, shuffled@),
    {
        let ghost cell = self@.frontier[idx as int];
        proof {
            lemma_same_cells(shuffled@, neighbors_of(cell));
        }
        match self.find_free(shuffled) {
            Some(k) => {
                let found = shuffled[k];
                proof {
                    lemma_neighbor_is_adjacent(cell, found);
                    lemma_connected_insert(self@.accepted, cell, found);
                }
                self.accepted.insert(found);
                self.frontier.push(found);
                proof {
                    let g = self@;
                    let o = old(self)@;
                    assert forall|c: (i32, i32)| #[trigger]
                        g.accepted.contains(c) && !g.frontier.contains(c) implies enclosed(
                        g.accepted,
                        c,
                    ) by {
                        // The new cell is in the frontier, so `c` is an old cell
                        // that was outside the old frontier too.
                        assert(g.frontier[o.frontier.len() as int] == found);
                        assert(!o.frontier.contains(c)) by {
                            if o.frontier.contains(c) {
                                let i = choose|i: int| 0 <= i < o.frontier.len() && o.frontier[i] == c;
                                assert(g.frontier[i] == c);
                            }
                        }
                        assert(enclosed(o.accepted, c));
                    }
                }
            },
            None => {
                self.frontier.swap_remove(idx);
                proof {
                    let g = self@;
                    let o = old(self)@;
                    // None of the shuffled cells is free, and they are the
                    // neighbours of the picked cell.
                    assert forall|n: int| 0 <= n < 4 implies o.accepted.contains(
                        #[trigger] neighbors_of(cell)[n],
                    ) by {
                        assert(neighbors_of(cell).contains(neighbors_of(cell)[n]));
                        let j = choose|j: int| 0 <= j < 4 && shuffled@[j] == neighbors_of(cell)[n];
                        if !o.accepted.contains(shuffled@[j]) {
                            lemma_some_free(o.accepted, shuffled@, j);
                        }
                    }
                    // Every other cell of the old frontier is still in the frontier.
                    assert forall|c: (i32, i32)| #[trigger]
                        g.accepted.contains(c) && !g.frontier.contains(c) implies enclosed(
                        g.accepted,
                        c,
                    ) by {
                        if c != cell && o.frontier.contains(c) {
                            let i = choose|i: int| 0 <= i < o.frontier.len() && o.frontier[i] == c;
                            if i == o.frontier.len() - 1 {
                                assert(g.frontier[idx as int] == c);
                            } else {
                                assert(g.frontier[i] == c);
                            }
                        }
                    }
                }
            },
        }
    }

    /// The accepted cells, each once, in no particular order.
    pub fn into_cells(self) -> (cells: Vec<(i32, i32)>)
        ensures
            cells@.to_set() == self@.accepted,
            cells@.no_duplicates(),
    {
        self.accepted.into_vec()
    }
}

/// Grows a region of `num_blocks` cells from the origin and returns its cells,
/// each once, in no particular order. The shape depends on the draws of `rng`
/// and on the orders that the shuffle gives; whatever they are, the region
/// has the size asked for (one cell where none is asked for), holds the
/// origin and is connected, and it is what some run of growth steps ends in.
pub fn generate_asteroid(num_blocks: usize, rng: &mut WyRand) -> (blocks: Vec<(i32, i32)>)
    requires
        num_blocks <= MAX_BLOCKS,
    ensures
        blocks@.no_duplicates(),
        blocks@.len() == if num_blocks == 0 { 1 } else { num_blocks as int },
        blocks@.contains(origin()),
        connected(blocks@.to_set()),
        exists|steps: Seq<Step>| #[trigger]
            is_run(num_blocks as int, steps) && blocks@.to_set() == grown(steps).accepted,
{
    let mut growth = Growth::new();
    let ghost mut steps: Seq<Step> = Seq::empty();
    while growth.len() < num_blocks && !growth.frontier.is_empty()
        invariant
            growth.wf(),
            num_blocks <= MAX_BLOCKS,
            growth@.accepted.len() <= num_blocks || growth@.accepted.len() == 1,
            is_run(num_blocks as int, steps),
            growth@ == grown(steps),
        decreases 2 * (num_blocks - growth@.accepted.len()) + growth@.frontier.len(),
    {
        let draw = next_u32(rng);
        let idx = growth.pick(draw);
        let cell = growth.frontier_cell(idx);
        let mut around = neighbors(cell);
        shuffle(&mut around);
        proof {
            let longer = steps.push(Step { draw, shuffled: around@ });
            assert(longer.drop_last() == steps);
            steps = longer;
        }
        growth.grow(idx, &around);
    }
    proof {
        lemma_frontier_not_empty(growth@);
    }
    let blocks = growth.into_cells();
    proof {
        blocks@.unique_seq_to_set();
    }
    blocks
}

/// The four neighbours of a cell: right, left, up, down.
pub fn neighbors(cell: (i32, i32)) -> (around: [(i32, i32); 4])
    requires
        i32::MIN < cell.0 < i32::MAX,
        i32::MIN < cell.1 < i32::MAX,
    ensures
        around@ == neighbors_of(cell),
{
    let (x, y) = cell;
    [(x + 1, y), (x - 1, y), (x, y + 1), (x, y - 1)]
}

/// Growth leaves nothing to chance but the draws: two runs that take the same
/// draws and try the neighbours in the same orders end in the same region.
pub proof fn lemma_same_draws_same_region(a: Seq<Step>, b: Seq<Step>)
    requires
        a.len() == b.len(),
        forall|i: int|
            0 <= i < a.len() ==> a[i].draw == b[i].draw && a[i].shuffled == b[i].shuffled,
    ensures
        grown(a) == grown(b),
{
    assert(a =~= b);
}

/// A region under growth always has a frontier: a cell without a free
/// neighbour has a right neighbour in the region, and the region ends somewhere.
proof fn lemma_frontier_not_empty(g: GrowthView)
    requires
        g.accepted.finite(),
        g.accepted.len() <= MAX_BLOCKS,
        g.accepted.contains(origin()),
        forall|cell: (i32, i32)| #[trigger]
            g.accepted.contains(cell) ==> distance(cell) < g.accepted.len(),
        forall|cell: (i32, i32)| #[trigger]
            g.accepted.contains(cell) && !g.frontier.contains(cell) ==> enclosed(g.accepted, cell),
    ensures
        g.frontier.len() > 0,
{
    let edge = lemma_rightmost(g.accepted, origin());
    if !g.frontier.contains(edge) {
        assert(enclosed(g.accepted, edge));
        assert(g.accepted.contains(neighbors_of(edge)[0]));
    }
}

/// Walking right from a cell of the region ends at a cell of the region whose
/// right neighbour is outside it.
proof fn lemma_rightmost(region: Set<(i32, i32)>, from: (i32, i32)) -> (edge: (i32, i32))
    requires
        region.contains(from),
        region.len() <= MAX_BLOCKS,
        forall|cell: (i32, i32)| #[trigger] region.contains(cell) ==> distance(cell) < region.len(),
    ensures
        region.contains(edge),
        !region.contains(neighbors_of(edge)[0]),
    decreases region.len() - from.0,
{
    let next = neighbors_of(from)[0];
    if region.contains(next) {
        lemma_rightmost(region, next)
    } else {
        from
    }
}

/// A place that is free and has only accepted cells before it is the first
/// free place.
proof fn lemma_first_free_is(region: Set<(i32, i32)>, cells: Seq<(i32, i32)>, k: int)
    requires
        is_first_free(region, cells, k),
    ensures
        first_free(region, cells) == Some(k),
{
    let c = choose|c: int| is_first_free(region, cells, c);
    if c < k {
        assert(region.contains(cells[c]));
    } else if k < c {
        assert(region.contains(cells[k]));
    }
}

/// Where some place is free, there is a first free place.
proof fn lemma_some_free(region: Set<(i32, i32)>, cells: Seq<(i32, i32)>, j: int)
    requires
        0 <= j < cells.len(),
        !region.contains(cells[j]),
    ensures
        first_free(region, cells) is Some,
    decreases j,
{
    if exists|i: int| 0 <= i < j && !region.contains(cells[i]) {
        let i = choose|i: int| 0 <= i < j && !region.contains(cells[i]);
        lemma_some_free(region, cells, i);
    } else {
        assert(is_first_free(region, cells, j));
    }
}

/// Two sequences with the same elements, each as often, hold the same cells.
proof fn lemma_same_cells(a: Seq<(i32, i32)>, b: Seq<(i32, i32)>)
    requires
        a.to_multiset() == b.to_multiset(),
    ensures
        a.len() == b.len(),
        forall|c: (i32, i32)| a.contains(c) <==> b.contains(c),
{
    a.to_multiset_ensures();
    b.to_multiset_ensures();
    assert forall|c: (i32, i32)| a.contains(c) <==> b.contains(c) by {
        assert(a.contains(c) <==> a.to_multiset().count(c) > 0);
        assert(b.contains(c) <==> b.to_multiset().count(c) > 0);
    }
}

/// Each of the four neighbours of a cell shares an edge with it.
proof fn lemma_neighbor_is_adjacent(cell: (i32, i32), other: (i32, i32))
    requires
        neighbors_of(cell).contains(other),
        i32::MIN < cell.0 < i32::MAX,
        i32::MIN < cell.1 < i32::MAX,
    ensures
        adjacent(cell, other),
        distance(other) <= distance(cell) + 1,
{
    let k = choose|k: int| 0 <= k < 4 && neighbors_of(cell)[k] == other;
}

/// A connected region stays connected when a cell next to one of its cells
/// joins it.
proof fn lemma_connected_insert(region: Set<(i32, i32)>, cell: (i32, i32), joined: (i32, i32))
    requires
        connected(region),
        region.contains(cell),
        adjacent(cell, joined),
    ensures
        connected(region.insert(joined)),
{
    let grown = region.insert(joined);
    assert forall|c: (i32, i32)| #[trigger] grown.contains(c) implies exists|
        path: Seq<(i32, i32)>,
    | is_path(path, grown, c) by {
        if region.contains(c) {
            let path = choose|path: Seq<(i32, i32)>| is_path(path, region, c);
            assert(is_path(path, grown, c));
        } else {
            let path = choose|path: Seq<(i32, i32)>| is_path(path, region, cell);
            let longer = path.push(joined);
            assert(is_path(longer, grown, c));
        }
    }
}

} // verus!
