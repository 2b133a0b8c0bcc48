//! Grid belts: facings, lane rules on straights, bends and side-loads, the
//! tile grid of belt directions, and splitter lane buffers.

use vstd::prelude::*;
use crate::sim::{spec_rotate_cw, Facing, Item, IRON_INGOT, IRON_ORE};

verus! {

pub open spec fn spec_delta(f: Facing) -> (int, int) {
    match f {
        Facing::E => (1, 0),
        Facing::W => (-1, 0),
        Facing::S => (0, 1),
        Facing::N => (0, -1),
    }
}

pub fn facing_delta(f: Facing) -> (r: (i32, i32))
    ensures
        (r.0 as int, r.1 as int) == spec_delta(f),
{
    match f {
        Facing::E => (1, 0),
        Facing::W => (-1, 0),
        Facing::S => (0, 1),
        Facing::N => (0, -1),
    }
}

pub open spec fn spec_opposite(f: Facing) -> Facing {
    spec_rotate_cw(spec_rotate_cw(f))
}

/// Counter-clockwise quarter turn.
pub open spec fn spec_left(f: Facing) -> Facing {
    match f {
        Facing::E => Facing::N,
        Facing::N => Facing::W,
        Facing::W => Facing::S,
        Facing::S => Facing::E,
    }
}

pub fn facing_opposite(f: Facing) -> (r: Facing)
    ensures
        r == spec_opposite(f),
{
    f.rotate_cw().rotate_cw()
}

pub fn facing_left(f: Facing) -> (r: Facing)
    ensures
        r == spec_left(f),
{
    match f {
        Facing::E => Facing::N,
        Facing::N => Facing::W,
        Facing::W => Facing::S,
        Facing::S => Facing::E,
    }
}

pub fn facing_right(f: Facing) -> (r: Facing)
    ensures
        r == spec_rotate_cw(f),
{
    f.rotate_cw()
}

/// Turning left undoes turning right, and facing the opposite way twice is
/// facing the same way.
pub proof fn lemma_facing_turns(f: Facing)
    ensures
        spec_left(spec_rotate_cw(f)) == f,
        spec_rotate_cw(spec_left(f)) == f,
        spec_opposite(spec_opposite(f)) == f,
        spec_delta(spec_opposite(f)).0 == -spec_delta(f).0,
        spec_delta(spec_opposite(f)).1 == -spec_delta(f).1,
{
}

/// Coordinates stay in range one step in any direction.
pub open spec fn steppable(tx: int, ty: int) -> bool {
    i32::MIN < tx < i32::MAX && i32::MIN < ty < i32::MAX
}

pub open spec fn spec_neighbor(tx: int, ty: int, dir: Facing) -> (int, int) {
    (tx + spec_delta(dir).0, ty + spec_delta(dir).1)
}

fn neighbor(tx: i32, ty: i32, dir: Facing) -> (r: (i32, i32))
    requires
        steppable(tx as int, ty as int),
    ensures
        (r.0 as int, r.1 as int) == spec_neighbor(tx as int, ty as int, dir),
{
    let (dx, dy) = facing_delta(dir);
    (tx + dx, ty + dy)
}

#[derive(Clone, Copy, PartialEq, Eq, Debug, Structural)]
pub enum BeltShape {
    Straight,
    /// Incoming from the left (relative to exit dir): counter-clockwise bend.
    CornerLeft,
    /// Incoming from the right (relative to exit dir): clockwise bend.
    CornerRight,
}

/// Lane rule on a 90° bend: the traveller's left/right track is kept.
pub fn turn_lane(_from_dir: Facing, _to_dir: Facing, lane: usize) -> (r: usize)
    ensures
        r == (if lane < 1 { lane } else { 1 }),
{
    if lane < 1 { lane } else { 1 }
}

/// Lane closest to an approach from `from_dir` into a belt facing
/// `dest_dir` (0 = left, 1 = right, looking along the belt).
pub open spec fn spec_near_lane(dest_dir: Facing, from_dir: Facing) -> usize {
    if spec_opposite(from_dir) == spec_left(dest_dir) { 0 } else { 1 }
}

fn near_lane(dest_dir: Facing, from_dir: Facing) -> (r: usize)
    ensures
        r == spec_near_lane(dest_dir, from_dir),
{
    let approach_side = facing_opposite(from_dir);
    if approach_side == facing_left(dest_dir) {
        0
    } else {
        1
    }
}

/// Where an item leaving one belt lands on the next.
#[derive(Clone, Copy, PartialEq, Eq, Debug, Structural)]
pub enum LaneEntry {
    /// No belt ahead, or a head-on belt: the item stays jammed.
    Blocked,
    /// Straight run or a bend: enters at the start of this lane.
    Enter(usize),
    /// Side-load into a belt with rearward flow: joins this (near) lane part
    /// way along.
    Sideload(usize),
}

pub open spec fn spec_entry_lane(from_dir: Facing, next_dir: Facing, lane: usize, has_backfeed: bool) -> LaneEntry {
    if next_dir == spec_opposite(from_dir) {
        LaneEntry::Blocked
    } else if next_dir == from_dir || !has_backfeed {
        LaneEntry::Enter(if lane < 1 { lane } else { 1 })
    } else {
        LaneEntry::Sideload(spec_near_lane(next_dir, from_dir))
    }
}

/// Lane rules for an item crossing into a belt facing `next_dir`.
pub fn entry_lane(from_dir: Facing, next_dir: Facing, lane: usize, has_backfeed: bool) -> (r: LaneEntry)
    ensures
        r == spec_entry_lane(from_dir, next_dir, lane, has_backfeed),
{
    if next_dir == facing_opposite(from_dir) {
        LaneEntry::Blocked
    } else if next_dir == from_dir {
        LaneEntry::Enter(if lane < 1 { lane } else { 1 })
    } else if !has_backfeed {
        LaneEntry::Enter(turn_lane(from_dir, next_dir, lane))
    } else {
        LaneEntry::Sideload(near_lane(next_dir, from_dir))
    }
}

/// How an item crosses from a belt facing `from_dir` into the next belt,
/// facing `next_dir`: a head-on belt jams it; straight on it keeps its lane;
/// round a quarter bend with nothing feeding the next belt from behind it
/// keeps its left/right track (lane 0 stays 0, lane 1 stays 1); and where
/// the next belt already has flow from behind, it side-loads onto the lane
/// nearest the side it came from: the left lane (0) when it arrives from
/// the next belt's left, the right lane (1) when from its right.
pub proof fn lemma_entry_lane_rules(from_dir: Facing, next_dir: Facing, lane: usize, has_backfeed: bool)
    ensures
        next_dir == spec_opposite(from_dir) ==> spec_entry_lane(from_dir, next_dir, lane, has_backfeed)
            == LaneEntry::Blocked,
        next_dir == from_dir ==> spec_entry_lane(from_dir, next_dir, lane, has_backfeed) == LaneEntry::Enter(
            if lane == 0 { 0 } else { 1 },
        ),
        (next_dir == spec_left(from_dir) || next_dir == spec_rotate_cw(from_dir)) && !has_backfeed
            ==> spec_entry_lane(from_dir, next_dir, lane, has_backfeed) == LaneEntry::Enter(if lane == 0 { 0 } else { 1 }),
        from_dir == spec_rotate_cw(next_dir) && has_backfeed ==> spec_entry_lane(from_dir, next_dir, lane, has_backfeed)
            == LaneEntry::Sideload(0),
        from_dir == spec_left(next_dir) && has_backfeed ==> spec_entry_lane(from_dir, next_dir, lane, has_backfeed)
            == LaneEntry::Sideload(1),
{
}

/// Lanes a machine port tries when feeding a belt facing `tile_dir` from
/// the `outward` side: a side feed uses only the near lane; feeding along
/// the belt uses the lane on the port's side (`side_lane`) and may spill to
/// the other lane when that one is jammed.
pub open spec fn spec_emit_lanes(outward: Facing, tile_dir: Facing, side_lane: usize) -> (usize, Option<usize>) {
    if outward == spec_left(tile_dir) || outward == spec_rotate_cw(tile_dir) {
        (spec_near_lane(tile_dir, outward), None)
    } else {
        let p = if side_lane < 1 { side_lane } else { 1 };
        (p, Some((1 - p) as usize))
    }
}

pub fn emit_lanes(outward: Facing, tile_dir: Facing, side_lane: usize) -> (r: (usize, Option<usize>))
    ensures
        r == spec_emit_lanes(outward, tile_dir, side_lane),
{
    if outward == facing_left(tile_dir) || outward == facing_right(tile_dir) {
        (near_lane(tile_dir, outward), None)
    } else {
        let p = if side_lane < 1 { side_lane } else { 1 };
        (p, Some(1 - p))
    }
}


// ---------------------------------------------------------------------------
// The belt grid

/// One placed belt tile and what its two lanes carry.
#[derive(Debug)]
pub struct BeltCell<L> {
    pub tx: i32,
    pub ty: i32,
    pub dir: Facing,
    pub lanes: L,
}

/// Placed belt tiles, their travel directions and lane contents, at most one
/// per tile.
#[derive(Debug)]
#[verifier::reject_recursive_types(L)]
pub struct BeltGrid<L> {
    cells: Vec<BeltCell<L>>,
}

pub open spec fn on_tile<L>(c: BeltCell<L>, tx: int, ty: int) -> bool {
    c.tx == tx && c.ty == ty
}

impl<L> BeltGrid<L> {
    #[verifier::type_invariant]
    spec fn one_per_tile(self) -> bool {
        forall|i: int, j: int|
            0 <= i < j < self.cells@.len() ==> !on_tile(self.cells@[i], self.cells@[j].tx as int, self.cells@[j].ty as int)
    }

    pub closed spec fn cell_seq(self) -> Seq<BeltCell<L>> {
        self.cells@
    }

    /// Direction of the belt on a tile, if there is one.
    pub open spec fn dir_at(self, tx: int, ty: int) -> Option<Facing> {
        if exists|i: int| 0 <= i < self.cell_seq().len() && on_tile(self.cell_seq()[i], tx, ty) {
            Some(self.cell_seq()[choose|i: int| 0 <= i < self.cell_seq().len() && on_tile(self.cell_seq()[i], tx, ty)].dir)
        } else {
            None
        }
    }

    /// Lane contents of the belt on a tile, if there is one.
    pub open spec fn lanes_at(self, tx: int, ty: int) -> Option<L> {
        if exists|i: int| 0 <= i < self.cell_seq().len() && on_tile(self.cell_seq()[i], tx, ty) {
            Some(self.cell_seq()[choose|i: int| 0 <= i < self.cell_seq().len() && on_tile(self.cell_seq()[i], tx, ty)].lanes)
        } else {
            None
        }
    }

    /// Number of belt tiles.
    pub open spec fn spec_len(self) -> nat {
        self.cell_seq().len()
    }

    pub fn new() -> (r: Self)
        ensures
            forall|x: int, y: int| r.dir_at(x, y) is None,
            forall|x: int, y: int| r.lanes_at(x, y) is None,
            r.spec_len() == 0,
    {
        BeltGrid { cells: Vec::new() }
    }

    pub fn len(&self) -> (r: usize)
        ensures
            r == self.spec_len(),
    {
        self.cells.len()
    }

    /// Tile positions in placement order (for saving and drawing).
    pub fn cells(&self) -> (r: &Vec<BeltCell<L>>)
        ensures
            r@ == self.cell_seq(),
    {
        &self.cells
    }

    proof fn lemma_dir_at(self, k: int)
        requires
            self.one_per_tile(),
            0 <= k < self.cell_seq().len(),
        ensures
            self.dir_at(self.cell_seq()[k].tx as int, self.cell_seq()[k].ty as int) == Some(self.cell_seq()[k].dir),
            self.lanes_at(self.cell_seq()[k].tx as int, self.cell_seq()[k].ty as int) == Some(self.cell_seq()[k].lanes),
    {
        let tx = self.cell_seq()[k].tx as int;
        let ty = self.cell_seq()[k].ty as int;
        assert(on_tile(self.cell_seq()[k], tx, ty));
        let i = choose|i: int| 0 <= i < self.cell_seq().len() && on_tile(self.cell_seq()[i], tx, ty);
        if i < k {
            assert(!on_tile(self.cells@[i], self.cells@[k].tx as int, self.cells@[k].ty as int));
        } else if i > k {
            assert(!on_tile(self.cells@[k], self.cells@[i].tx as int, self.cells@[i].ty as int));
        }
    }

    fn find(&self, tx: i32, ty: i32) -> (r: Option<usize>)
        ensures
            r matches Some(k) ==> k < self.cell_seq().len() && on_tile(self.cell_seq()[k as int], tx as int, ty as int),
            r is None ==> forall|i: int| 0 <= i < self.cell_seq().len() ==> !on_tile(self.cell_seq()[i], tx as int, ty as int),
            r is None <==> self.dir_at(tx as int, ty as int) is None,
    {
        let mut i: usize = 0;
        while i < self.cells.len()
            invariant
                i <= self.cells@.len(),
                forall|j: int| 0 <= j < i ==> !on_tile(self.cells@[j], tx as int, ty as int),
            decreases self.cells@.len() - i,
        {
            if self.cells[i].tx == tx && self.cells[i].ty == ty {
                assert(on_tile(self.cells@[i as int], tx as int, ty as int));
                return Some(i);
            }
            i += 1;
        }
        None
    }

    /// Direction of the belt on a tile, if there is one.
    pub fn belt_dir(&self, tx: i32, ty: i32) -> (r: Option<Facing>)
        ensures
            r == self.dir_at(tx as int, ty as int),
    {
        proof {
            use_type_invariant(self);
        }
        match self.find(tx, ty) {
            Some(k) => {
                proof {
                    self.lemma_dir_at(k as int);
                }
                Some(self.cells[k].dir)
            },
            None => None,
        }
    }

    /// What the lanes of the belt on a tile carry, if there is one.
    pub fn belt_lanes(&self, tx: i32, ty: i32) -> (r: Option<&L>)
        ensures
            r matches Some(l) ==> self.lanes_at(tx as int, ty as int) == Some(*l),
            r is None <==> self.lanes_at(tx as int, ty as int) is None,
    {
        proof {
            use_type_invariant(self);
        }
        match self.find(tx, ty) {
            Some(k) => {
                proof {
                    self.lemma_dir_at(k as int);
                }
                Some(&self.cells[k].lanes)
            },
            None => None,
        }
    }

    /// Remove the belt on a tile; reports whether there was one.
    pub fn remove_belt_at(&mut self, tx: i32, ty: i32) -> (r: bool)
        ensures
            r == old(self).dir_at(tx as int, ty as int) is Some,
            final(self).spec_len() == old(self).spec_len() - (if r { 1int } else { 0int }),
            final(self).dir_at(tx as int, ty as int) is None,
            final(self).lanes_at(tx as int, ty as int) is None,
            forall|x: int, y: int| !(x == tx && y == ty) ==> #[trigger] final(self).dir_at(x, y) == old(self).dir_at(x, y),
            forall|x: int, y: int| !(x == tx && y == ty) ==> #[trigger] final(self).lanes_at(x, y) == old(self).lanes_at(x, y),
    {
        proof {
            use_type_invariant(&*self);
        }
        match self.find(tx, ty) {
            Some(k) => {
                let ghost before = self.cells@;
                let ghost old_grid = *self;
                let mut cells = Vec::new();
                std::mem::swap(&mut cells, &mut self.cells);
                cells.remove(k);
                self.cells = cells;
                let ghost after = self.cells@;
                assert(after =~= before.remove(k as int));
                proof {
                    use_type_invariant(&*self);
                    self.lemma_removed(old_grid, k as int, tx as int, ty as int);
                }
                true
            },
            None => false,
        }
    }

    proof fn lemma_removed(self, old_grid: BeltGrid<L>, k: int, tx: int, ty: int)
        requires
            self.one_per_tile(),
            old_grid.one_per_tile(),
            0 <= k < old_grid.cell_seq().len(),
            on_tile(old_grid.cell_seq()[k], tx, ty),
            self.cell_seq() == old_grid.cell_seq().remove(k),
        ensures
            self.dir_at(tx, ty) is None,
            self.lanes_at(tx, ty) is None,
            forall|x: int, y: int| !(x == tx && y == ty) ==> #[trigger] self.dir_at(x, y) == old_grid.dir_at(x, y),
            forall|x: int, y: int| !(x == tx && y == ty) ==> #[trigger] self.lanes_at(x, y) == old_grid.lanes_at(x, y),
    {
        let b = old_grid.cell_seq();
        let a = self.cell_seq();
        assert forall|i: int| 0 <= i < a.len() implies !on_tile(a[i], tx, ty) by {
            if i < k {
                assert(a[i] == b[i]);
                assert(!on_tile(old_grid.cells@[i], old_grid.cells@[k as int].tx as int, old_grid.cells@[k as int].ty as int));
            } else {
                assert(a[i] == b[i + 1]);
                assert(!on_tile(old_grid.cells@[k as int], old_grid.cells@[i + 1].tx as int, old_grid.cells@[i + 1].ty as int));
            }
        }
        assert forall|x: int, y: int| !(x == tx && y == ty) implies #[trigger] self.dir_at(x, y) == old_grid.dir_at(x, y) by {
            if exists|i: int| 0 <= i < a.len() && on_tile(a[i], x, y) {
                let i = choose|i: int| 0 <= i < a.len() && on_tile(a[i], x, y);
                self.lemma_dir_at(i);
                let j = if i < k { i } else { i + 1 };
                assert(a[i] == b[j]);
                old_grid.lemma_dir_at(j);
            } else if exists|j: int| 0 <= j < b.len() && on_tile(b[j], x, y) {
                let j = choose|j: int| 0 <= j < b.len() && on_tile(b[j], x, y);
                assert(j != k);
                if j < k {
                    assert(a[j] == b[j]);
                } else {
                    assert(a[j - 1] == b[j]);
                }
            }
        }
        assert forall|x: int, y: int| !(x == tx && y == ty) implies #[trigger] self.lanes_at(x, y) == old_grid.lanes_at(x, y) by {
            if exists|i: int| 0 <= i < a.len() && on_tile(a[i], x, y) {
                let i = choose|i: int| 0 <= i < a.len() && on_tile(a[i], x, y);
                self.lemma_dir_at(i);
                let j = if i < k { i } else { i + 1 };
                assert(a[i] == b[j]);
                old_grid.lemma_dir_at(j);
            } else if exists|j: int| 0 <= j < b.len() && on_tile(b[j], x, y) {
                let j = choose|j: int| 0 <= j < b.len() && on_tile(b[j], x, y);
                assert(j != k);
                if j < k {
                    assert(a[j] == b[j]);
                } else {
                    assert(a[j - 1] == b[j]);
                }
            }
        }
    }

    /// Drag-paint / click place. Refused where a building stands
    /// (`building_here`); otherwise the tile gets a belt facing `dir`,
    /// overwriting the direction of an existing one and keeping what its
    /// lanes carry; a new belt starts with the lanes `fresh`.
    pub fn paint_belt(&mut self, tx: i32, ty: i32, dir: Facing, building_here: bool, fresh: L) -> (r: bool)
        requires
            old(self).spec_len() < usize::MAX,
        ensures
            r == !building_here,
            final(self).spec_len() == old(self).spec_len() + (if r && old(self).dir_at(tx as int, ty as int) is None {
                1int
            } else {
                0int
            }),
            !r ==> forall|x: int, y: int| #[trigger] final(self).dir_at(x, y) == old(self).dir_at(x, y),
            !r ==> forall|x: int, y: int| #[trigger] final(self).lanes_at(x, y) == old(self).lanes_at(x, y),
            r ==> final(self).dir_at(tx as int, ty as int) == Some(dir),
            r && old(self).dir_at(tx as int, ty as int) is Some ==> final(self).lanes_at(tx as int, ty as int) == old(
                self,
            ).lanes_at(tx as int, ty as int),
            r && old(self).dir_at(tx as int, ty as int) is None ==> final(self).lanes_at(tx as int, ty as int) == Some(
                fresh,
            ),
            forall|x: int, y: int| !(x == tx && y == ty) ==> #[trigger] final(self).dir_at(x, y) == old(self).dir_at(x, y),
            forall|x: int, y: int| !(x == tx && y == ty) ==> #[trigger] final(self).lanes_at(x, y) == old(self).lanes_at(x, y),
    {
        if building_here {
            return false;
        }
        proof {
            use_type_invariant(&*self);
        }
        let ghost old_grid = *self;
        let found = self.find(tx, ty);
        let mut cells = Vec::new();
        std::mem::swap(&mut cells, &mut self.cells);
        match found {
            Some(k) => {
                proof {
                    old_grid.lemma_dir_at(k as int);
                }
                let mut c = cells.remove(k);
                c.dir = dir;
                let ghost cg = c;
                cells.insert(k, c);
                assert(cells@ =~= old_grid.cells@.update(k as int, cg));
                assert forall|i: int, j: int|
                    0 <= i < j < cells@.len() implies !on_tile(cells@[i], cells@[j].tx as int, cells@[j].ty as int) by {
                    if i != k && j != k {
                        assert(!on_tile(old_grid.cells@[i], old_grid.cells@[j].tx as int, old_grid.cells@[j].ty as int));
                    } else if i == k {
                        assert(!on_tile(old_grid.cells@[k as int], old_grid.cells@[j].tx as int, old_grid.cells@[j].ty as int));
                    } else {
                        assert(!on_tile(old_grid.cells@[i], old_grid.cells@[k as int].tx as int, old_grid.cells@[k as int].ty as int));
                    }
                }
                self.cells = cells;
                proof {
                    use_type_invariant(&*self);
                    self.lemma_painted(old_grid, k as int, cg);
                }
            },
            None => {
                let cell = BeltCell { tx, ty, dir, lanes: fresh };
                let ghost cg = cell;
                cells.push(cell);
                self.cells = cells;
                proof {
                    use_type_invariant(&*self);
                    self.lemma_painted(old_grid, old_grid.cell_seq().len() as int, cg);
                }
            },
        }
        true
    }

    proof fn lemma_painted(self, old_grid: BeltGrid<L>, k: int, cell: BeltCell<L>)
        requires
            self.one_per_tile(),
            old_grid.one_per_tile(),
            0 <= k <= old_grid.cell_seq().len(),
            k < old_grid.cell_seq().len() ==> on_tile(old_grid.cell_seq()[k], cell.tx as int, cell.ty as int)
                && self.cell_seq() == old_grid.cell_seq().update(k, cell),
            k == old_grid.cell_seq().len() ==> self.cell_seq() == old_grid.cell_seq().push(cell)
                && forall|i: int| 0 <= i < old_grid.cell_seq().len() ==> !on_tile(old_grid.cell_seq()[i], cell.tx as int, cell.ty as int),
        ensures
            self.dir_at(cell.tx as int, cell.ty as int) == Some(cell.dir),
            self.lanes_at(cell.tx as int, cell.ty as int) == Some(cell.lanes),
            forall|x: int, y: int| !(x == cell.tx && y == cell.ty) ==> #[trigger] self.dir_at(x, y) == old_grid.dir_at(x, y),
            forall|x: int, y: int| !(x == cell.tx && y == cell.ty) ==> #[trigger] self.lanes_at(x, y) == old_grid.lanes_at(x, y),
    {
        assert(self.cell_seq()[k] == cell);
        self.lemma_dir_at(k);
        let a = self.cell_seq();
        let b = old_grid.cell_seq();
        assert forall|x: int, y: int| !(x == cell.tx && y == cell.ty) implies #[trigger] self.dir_at(x, y) == old_grid.dir_at(x, y) by {
            if exists|i: int| 0 <= i < a.len() && on_tile(a[i], x, y) {
                let i = choose|i: int| 0 <= i < a.len() && on_tile(a[i], x, y);
                self.lemma_dir_at(i);
                assert(i != k);
                assert(a[i] == b[i]);
                old_grid.lemma_dir_at(i);
            } else if exists|j: int| 0 <= j < b.len() && on_tile(b[j], x, y) {
                let j = choose|j: int| 0 <= j < b.len() && on_tile(b[j], x, y);
                assert(j != k);
                assert(a[j] == b[j]);
            }
        }
        assert forall|x: int, y: int| !(x == cell.tx && y == cell.ty) implies #[trigger] self.lanes_at(x, y) == old_grid.lanes_at(x, y) by {
            if exists|i: int| 0 <= i < a.len() && on_tile(a[i], x, y) {
                let i = choose|i: int| 0 <= i < a.len() && on_tile(a[i], x, y);
                self.lemma_dir_at(i);
                assert(i != k);
                assert(a[i] == b[i]);
                old_grid.lemma_dir_at(i);
            } else if exists|j: int| 0 <= j < b.len() && on_tile(b[j], x, y) {
                let j = choose|j: int| 0 <= j < b.len() && on_tile(b[j], x, y);
                assert(j != k);
                assert(a[j] == b[j]);
            }
        }
    }
}

pub open spec fn spec_belt_shape<L>(g: BeltGrid<L>, tx: int, ty: int, dir: Facing) -> BeltShape {
    let behind = spec_neighbor(tx, ty, spec_opposite(dir));
    let left_c = spec_neighbor(tx, ty, spec_left(dir));
    let right_c = spec_neighbor(tx, ty, spec_rotate_cw(dir));
    if g.dir_at(behind.0, behind.1) == Some(dir) {
        BeltShape::Straight
    } else if g.dir_at(left_c.0, left_c.1) == Some(spec_rotate_cw(dir)) {
        BeltShape::CornerLeft
    } else if g.dir_at(right_c.0, right_c.1) == Some(spec_left(dir)) {
        BeltShape::CornerRight
    } else {
        BeltShape::Straight
    }
}

/// A belt bends only towards a neighbour that feeds into it: it is a left
/// corner only when the belt on its left points into it (faces its
/// clockwise turn) and none behind runs the same way; a right corner only
/// when the belt on its right points into it, none behind runs the same way
/// and the left one does not feed it; otherwise, in particular with only
/// belts alongside running parallel, it is straight.
pub proof fn lemma_belt_shape_rules<L>(g: BeltGrid<L>, tx: int, ty: int, dir: Facing)
    ensures
        ({
            let behind = spec_neighbor(tx, ty, spec_opposite(dir));
            let lc = spec_neighbor(tx, ty, spec_left(dir));
            let rc = spec_neighbor(tx, ty, spec_rotate_cw(dir));
            let feeds_back = g.dir_at(behind.0, behind.1) == Some(dir);
            let feeds_left = g.dir_at(lc.0, lc.1) == Some(spec_rotate_cw(dir));
            let feeds_right = g.dir_at(rc.0, rc.1) == Some(spec_left(dir));
            &&& spec_belt_shape(g, tx, ty, dir) == BeltShape::CornerLeft <==> !feeds_back && feeds_left
            &&& spec_belt_shape(g, tx, ty, dir) == BeltShape::CornerRight <==> !feeds_back && !feeds_left && feeds_right
            &&& spec_belt_shape(g, tx, ty, dir) == BeltShape::Straight <==> feeds_back || (!feeds_left && !feeds_right)
        }),
{
}

/// A machine port beside a belt feeds only the lane on its own side, with
/// no spill: the left lane (0) from the belt's left, the right lane (1)
/// from its right. A port behind or ahead of the belt feeds its preferred
/// lane (clamped to 0 or 1) and may spill to the other one.
pub proof fn lemma_emit_lanes_rules(outward: Facing, tile_dir: Facing, side_lane: usize)
    ensures
        outward == spec_rotate_cw(tile_dir) ==> spec_emit_lanes(outward, tile_dir, side_lane) == (0usize, None::<usize>),
        outward == spec_left(tile_dir) ==> spec_emit_lanes(outward, tile_dir, side_lane) == (1usize, None::<usize>),
        (outward == tile_dir || outward == spec_opposite(tile_dir)) ==> ({
            let (p, spill) = spec_emit_lanes(outward, tile_dir, side_lane);
            &&& p == (if side_lane == 0 { 0usize } else { 1usize })
            &&& spill == Some((1 - p) as usize)
        }),
{
}

/// Crossing onto the tile ahead: nothing there, or a belt facing back, jams
/// the item; a belt running the same way takes it on the same lane, and a
/// belt at a quarter turn with nothing feeding it from behind takes it on
/// the same left/right track.
pub proof fn lemma_plan_transfer_rules<L>(g: BeltGrid<L>, tx: int, ty: int, dir: Facing, lane: usize)
    ensures
        ({
            let next = spec_neighbor(tx, ty, dir);
            let kept = LaneEntry::Enter(if lane == 0 { 0usize } else { 1usize });
            &&& g.dir_at(next.0, next.1) is None ==> spec_plan_transfer(g, tx, ty, dir, lane) == LaneEntry::Blocked
            &&& g.dir_at(next.0, next.1) == Some(spec_opposite(dir)) ==> spec_plan_transfer(g, tx, ty, dir, lane)
                == LaneEntry::Blocked
            &&& g.dir_at(next.0, next.1) == Some(dir) ==> spec_plan_transfer(g, tx, ty, dir, lane) == kept
            &&& forall|nd: Facing|
                (nd == spec_left(dir) || nd == spec_rotate_cw(dir)) && g.dir_at(next.0, next.1) == Some(nd) && ({
                    let behind = spec_neighbor(next.0, next.1, spec_opposite(nd));
                    g.dir_at(behind.0, behind.1) != Some(nd)
                }) ==> spec_plan_transfer(g, tx, ty, dir, lane) == kept
        }),
{
}

/// Where an item at the front of a belt lane goes next.
pub open spec fn spec_plan_transfer<L>(g: BeltGrid<L>, tx: int, ty: int, dir: Facing, lane: usize) -> LaneEntry {
    let next = spec_neighbor(tx, ty, dir);
    match g.dir_at(next.0, next.1) {
        None => LaneEntry::Blocked,
        Some(nd) => {
            let behind = spec_neighbor(next.0, next.1, spec_opposite(nd));
            spec_entry_lane(dir, nd, lane, g.dir_at(behind.0, behind.1) == Some(nd))
        },
    }
}

impl<L> BeltGrid<L> {
    /// How this belt tile bends, based on which neighbour feeds into its back
    /// or sides: a belt behind running the same way keeps it straight;
    /// otherwise a neighbour pointing into it from the left or right bends it.
    pub fn belt_shape(&self, tx: i32, ty: i32, dir: Facing) -> (r: BeltShape)
        requires
            steppable(tx as int, ty as int),
        ensures
            r == spec_belt_shape(*self, tx as int, ty as int, dir),
    {
        let (bx, by) = neighbor(tx, ty, facing_opposite(dir));
        if self.belt_dir(bx, by) == Some(dir) {
            return BeltShape::Straight;
        }
        let (lx, ly) = neighbor(tx, ty, facing_left(dir));
        if self.belt_dir(lx, ly) == Some(facing_right(dir)) {
            return BeltShape::CornerLeft;
        }
        let (rx, ry) = neighbor(tx, ty, facing_right(dir));
        if self.belt_dir(rx, ry) == Some(facing_left(dir)) {
            return BeltShape::CornerRight;
        }
        BeltShape::Straight
    }

    /// Where an item leaving lane `lane` of the belt at `(tx, ty)` facing
    /// `dir` goes: jammed with no belt ahead or a head-on belt; straight on
    /// or round a bend it keeps its track; a side-load into a belt with
    /// rearward flow joins the near lane.
    pub fn plan_transfer(&self, tx: i32, ty: i32, dir: Facing, lane: usize) -> (r: LaneEntry)
        requires
            steppable(tx as int, ty as int),
            steppable(spec_neighbor(tx as int, ty as int, dir).0, spec_neighbor(tx as int, ty as int, dir).1),
        ensures
            r == spec_plan_transfer(*self, tx as int, ty as int, dir, lane),
    {
        let (nx, ny) = neighbor(tx, ty, dir);
        match self.belt_dir(nx, ny) {
            None => LaneEntry::Blocked,
            Some(nd) => {
                let (bx, by) = neighbor(nx, ny, facing_opposite(nd));
                let backfeed = self.belt_dir(bx, by) == Some(nd);
                entry_lane(dir, nd, lane, backfeed)
            },
        }
    }
}

// ---------------------------------------------------------------------------
// Splitter lane buffers

/// A splitter's iron backlog per input lane, and which output side each
/// lane prefers next.
#[derive(Clone, Copy, Debug)]
pub struct SplitterLanes {
    pub split_ore: [u16; 2],
    pub split_ingot: [u16; 2],
    pub split_side: [u8; 2],
}

/// Ore per lane, ingots per lane, preferred side per lane.
pub type LanesView = (Seq<u16>, Seq<u16>, Seq<u8>);

impl SplitterLanes {
    pub open spec fn view_lanes(&self) -> LanesView {
        (self.split_ore@, self.split_ingot@, self.split_side@)
    }
}

pub open spec fn clamp_lane(lane: usize) -> int {
    if lane < 1 { lane as int } else { 1 }
}

pub open spec fn sat_inc(v: u16) -> u16 {
    if v < u16::MAX { (v + 1) as u16 } else { v }
}

/// Taking one item from a lane: ore first, then ingots.
pub open spec fn spec_take_lane(s: LanesView, lane: usize) -> (LanesView, Option<Item>) {
    let l = clamp_lane(lane);
    if s.0[l] >= 1 {
        ((s.0.update(l, (s.0[l] - 1) as u16), s.1, s.2), Some(Item(IRON_ORE)))
    } else if s.1[l] >= 1 {
        ((s.0, s.1.update(l, (s.1[l] - 1) as u16), s.2), Some(Item(IRON_INGOT)))
    } else {
        (s, None)
    }
}

/// Putting an item back on a lane (the splitter only balances iron).
pub open spec fn spec_refund_lane(s: LanesView, lane: usize, item: Item) -> LanesView {
    let l = clamp_lane(lane);
    if item == Item(IRON_ORE) {
        (s.0.update(l, sat_inc(s.0[l])), s.1, s.2)
    } else if item == Item(IRON_INGOT) {
        (s.0, s.1.update(l, sat_inc(s.1[l])), s.2)
    } else {
        s
    }
}

/// Well-formed lane buffers: two lanes each.
pub open spec fn lanes_wf(s: LanesView) -> bool {
    s.0.len() == 2 && s.1.len() == 2 && s.2.len() == 2
}

/// Putting back what was just taken restores the lane buffers.
pub proof fn lemma_take_then_refund(s: LanesView, lane: usize)
    requires
        lanes_wf(s),
    ensures
        spec_take_lane(s, lane).1 matches Some(item) ==> spec_refund_lane(spec_take_lane(s, lane).0, lane, item) == s,
{
    let l = clamp_lane(lane);
    let (t, got) = spec_take_lane(s, lane);
    if let Some(item) = got {
        if item == Item(IRON_ORE) {
            assert(t.0.update(l, sat_inc(t.0[l])) =~= s.0);
        } else {
            assert(t.1.update(l, sat_inc(t.1[l])) =~= s.1);
        }
    }
}

impl SplitterLanes {
    pub fn new() -> (r: Self)
        ensures
            r.view_lanes() == (seq![0u16, 0u16], seq![0u16, 0u16], seq![0u8, 0u8]),
    {
        let r = SplitterLanes { split_ore: [0, 0], split_ingot: [0, 0], split_side: [0, 0] };
        assert(r.view_lanes().0 =~= seq![0u16, 0u16]);
        assert(r.view_lanes().1 =~= seq![0u16, 0u16]);
        assert(r.view_lanes().2 =~= seq![0u8, 0u8]);
        r
    }

    /// Take one item from an input lane (lanes past 1 mean lane 1).
    pub fn take_lane(&mut self, lane: usize) -> (r: Option<Item>)
        ensures
            (final(self).view_lanes(), r) == spec_take_lane(old(self).view_lanes(), lane),
    {
        let l = if lane < 1 { lane } else { 1 };
        if self.split_ore[l] >= 1 {
            self.split_ore[l] = self.split_ore[l] - 1;
            Some(Item(IRON_ORE))
        } else if self.split_ingot[l] >= 1 {
            self.split_ingot[l] = self.split_ingot[l] - 1;
            Some(Item(IRON_INGOT))
        } else {
            None
        }
    }

    /// Put an item back on an input lane (saturating).
    pub fn refund_lane(&mut self, lane: usize, item: Item)
        ensures
            final(self).view_lanes() == spec_refund_lane(old(self).view_lanes(), lane, item),
    {
        let l = if lane < 1 { lane } else { 1 };
        if item == Item(IRON_ORE) {
            self.split_ore[l] = self.split_ore[l].saturating_add(1);
        } else if item == Item(IRON_INGOT) {
            self.split_ingot[l] = self.split_ingot[l].saturating_add(1);
        }
    }

    /// Total ore / ingots across both lanes.
    pub fn totals(&self) -> (r: (u32, u32))
        ensures
            r.0 == self.split_ore[0] + self.split_ore[1],
            r.1 == self.split_ingot[0] + self.split_ingot[1],
    {
        (self.split_ore[0] as u32 + self.split_ore[1] as u32, self.split_ingot[0] as u32 + self.split_ingot[1] as u32)
    }

    /// The output side this lane tries first (0 or 1).
    pub fn preferred_side(&self, lane: usize) -> (r: usize)
        ensures
            r == (if self.split_side[clamp_lane(lane)] < 1 { self.split_side[clamp_lane(lane)] as usize } else { 1 }),
            r <= 1,
    {
        let l = if lane < 1 { lane } else { 1 };
        let s = self.split_side[l];
        if s < 1 { s as usize } else { 1 }
    }

    /// An item from `lane` was placed on output `side`: landing on the
    /// preferred side hands the next item to the other side; landing on the
    /// fallback side keeps the preference.
    pub fn note_placed(&mut self, lane: usize, side: usize)
        ensures
            ({
                let l = clamp_lane(lane);
                let prefer = if old(self).split_side[l] < 1 { old(self).split_side[l] as int } else { 1 };
                &&& final(self).split_ore == old(self).split_ore
                &&& final(self).split_ingot == old(self).split_ingot
                &&& side == prefer ==> final(self).split_side@ == old(self).split_side@.update(l, (1 - prefer) as u8)
                &&& side != prefer ==> final(self).split_side@ == old(self).split_side@
            }),
    {
        let prefer = self.preferred_side(lane);
        if side == prefer {
            let l = if lane < 1 { lane } else { 1 };
            self.split_side[l] = if prefer == 0 { 1 } else { 0 };
            assert(self.split_side@ =~= old(self).split_side@.update(l as int, (1 - prefer) as u8));
        }
    }

    /// Accept an iron item arriving from a belt lane (lane 0 when unknown);
    /// other items are not the splitter's lane business.
    pub fn store(&mut self, item: Item, from_lane: Option<usize>) -> (r: bool)
        ensures
            r == (item == Item(IRON_ORE) || item == Item(IRON_INGOT)),
            final(self).view_lanes() == spec_refund_lane(
                old(self).view_lanes(),
                match from_lane {
                    Some(l) => l,
                    None => 0,
                },
                item,
            ),
    {
        let lane = match from_lane {
            Some(l) => l,
            None => 0,
        };
        let is_iron = item == Item(IRON_ORE) || item == Item(IRON_INGOT);
        self.refund_lane(lane, item);
        is_iron
    }
}

} // verus!
