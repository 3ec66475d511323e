//! A square spiral of cells built ring by ring: each new cell's value is the
//! sum of the values of its already-placed neighbours (wrapping on 64-bit
//! overflow), starting from a single cell holding 1 at the origin.

use vstd::prelude::*;

verus! {

/// Cap on how many cells a grid may hold; keeps coordinates well inside the
/// signed range on every target.
pub const SPIRAL_CAP: usize = 0x0fff_ffff;

/// One placed cell: its coordinates and its value.
#[derive(PartialEq)]
pub struct Cell {
    pub pos: (isize, isize),
    pub val: u64,
}

/// The grid state as mathematics: the walker's position, the value it last
/// wrote, and every placed cell in placement order.
pub ghost struct Sp {
    pub pos: (int, int),
    pub num: int,
    pub cells: Seq<(int, int, int)>,
}

/// Absolute value.
pub open spec fn iabs(x: int) -> int {
    if x < 0 {
        -x
    } else {
        x
    }
}

/// The value of the first placed cell at `(x, y)`, if any.
pub open spec fn sp_find(cells: Seq<(int, int, int)>, x: int, y: int) -> Option<int>
    decreases cells.len(),
{
    if cells.len() == 0 {
        None
    } else if cells[0].0 == x && cells[0].1 == y {
        Some(cells[0].2)
    } else {
        sp_find(cells.drop_first(), x, y)
    }
}

/// A missing neighbour contributes nothing.
pub open spec fn oz(o: Option<int>) -> int {
    match o {
        Some(v) => v,
        None => 0,
    }
}

/// The sum of the values of the eight neighbours of `(x, y)` already placed.
pub open spec fn sp_sum(cells: Seq<(int, int, int)>, x: int, y: int) -> int {
    oz(sp_find(cells, x - 1, y)) + oz(sp_find(cells, x, y + 1)) + oz(sp_find(cells, x + 1, y)) + oz(
        sp_find(cells, x, y - 1),
    ) + oz(sp_find(cells, x - 1, y + 1)) + oz(sp_find(cells, x + 1, y + 1)) + oz(
        sp_find(cells, x - 1, y - 1),
    ) + oz(sp_find(cells, x + 1, y - 1))
}

/// One step of the walk: move one cell, compute the neighbour sum (wrapping
/// at 64 bits), and place a cell holding it there.
pub open spec fn sp_move(s: Sp, dx: int, dy: int) -> Sp {
    let x = s.pos.0 + dx;
    let y = s.pos.1 + dy;
    let v = sp_sum(s.cells, x, y) % 0x1_0000_0000_0000_0000;
    Sp { pos: (x, y), num: v, cells: s.cells.push((x, y, v)) }
}

/// `n` steps in the same direction.
pub open spec fn sp_move_n(s: Sp, dx: int, dy: int, n: nat) -> Sp
    decreases n,
{
    if n == 0 {
        s
    } else {
        sp_move(sp_move_n(s, dx, dy, (n - 1) as nat), dx, dy)
    }
}

/// One full ring at level `l`: one step right, up the side, across the top,
/// down the far side, and back along the bottom one past the corner.
pub open spec fn sp_ring(s: Sp, l: int) -> Sp {
    sp_move_n(
        sp_move_n(
            sp_move_n(sp_move_n(sp_move(s, 1, 0), 0, 1, (2 * l + 1) as nat), -1, 0, (2 * l
                + 2) as nat),
            0,
            -1,
            (2 * l + 2) as nat,
        ),
        1,
        0,
        (2 * l + 2) as nat,
    )
}

/// `k` rings, levels 0 through `k - 1`.
pub open spec fn sp_rings(s: Sp, k: nat) -> Sp
    decreases k,
{
    if k == 0 {
        s
    } else {
        sp_ring(sp_rings(s, (k - 1) as nat), (k - 1) as int)
    }
}

/// The state after the fresh grid has marked its origin cell.
pub open spec fn sp_start() -> Sp {
    Sp { pos: (0int, 0int), num: 1int, cells: seq![(0int, 0int, 1int)] }
}

/// The walk's bookkeeping facts: the walker stands on the last placed cell,
/// the `i`-th placed cell lies within `i + 1` of the origin, and every value
/// is a 64-bit word.
pub open spec fn sp_ok(s: Sp) -> bool {
    &&& s.cells.len() >= 1
    &&& s.pos.0 == s.cells.last().0
    &&& s.pos.1 == s.cells.last().1
    &&& s.num == s.cells.last().2
    &&& forall|i: int|
        0 <= i < s.cells.len() ==> {
            &&& iabs((#[trigger] s.cells[i]).0) <= i + 1
            &&& iabs(s.cells[i].1) <= i + 1
            &&& 0 <= s.cells[i].2 < 0x1_0000_0000_0000_0000
        }
}

/// One step preserves the bookkeeping and adds one cell.
pub proof fn lemma_sp_move_ok(s: Sp, dx: int, dy: int)
    requires
        sp_ok(s),
        -1 <= dx <= 1,
        -1 <= dy <= 1,
    ensures
        sp_ok(sp_move(s, dx, dy)),
        sp_move(s, dx, dy).cells.len() == s.cells.len() + 1,
{
    let t = sp_move(s, dx, dy);
    vstd::arithmetic::div_mod::lemma_mod_division_less_than_divisor(
        sp_sum(s.cells, s.pos.0 + dx, s.pos.1 + dy),
        0x1_0000_0000_0000_0000,
    );
    assert forall|i: int| 0 <= i < t.cells.len() implies {
        &&& iabs((#[trigger] t.cells[i]).0) <= i + 1
        &&& iabs(t.cells[i].1) <= i + 1
        &&& 0 <= t.cells[i].2 < 0x1_0000_0000_0000_0000
    } by {
        if i < s.cells.len() {
            assert(t.cells[i] == s.cells[i]);
        } else {
            assert(t.cells[i] == (s.pos.0 + dx, s.pos.1 + dy, t.num));
            assert(iabs(s.pos.0) <= s.cells.len());
        }
    }
}

/// `n` steps preserve the bookkeeping and add `n` cells.
pub proof fn lemma_sp_move_n_ok(s: Sp, dx: int, dy: int, n: nat)
    requires
        sp_ok(s),
        -1 <= dx <= 1,
        -1 <= dy <= 1,
    ensures
        sp_ok(sp_move_n(s, dx, dy, n)),
        sp_move_n(s, dx, dy, n).cells.len() == s.cells.len() + n,
    decreases n,
{
    if n > 0 {
        lemma_sp_move_n_ok(s, dx, dy, (n - 1) as nat);
        lemma_sp_move_ok(sp_move_n(s, dx, dy, (n - 1) as nat), dx, dy);
    }
}

/// One ring preserves the bookkeeping and adds `8l + 8` cells.
pub proof fn lemma_sp_ring_ok(s: Sp, l: int)
    requires
        sp_ok(s),
        l >= 0,
    ensures
        sp_ok(sp_ring(s, l)),
        sp_ring(s, l).cells.len() == s.cells.len() + 8 * l + 8,
{
    let s1 = sp_move(s, 1, 0);
    lemma_sp_move_ok(s, 1, 0);
    let s2 = sp_move_n(s1, 0, 1, (2 * l + 1) as nat);
    lemma_sp_move_n_ok(s1, 0, 1, (2 * l + 1) as nat);
    let s3 = sp_move_n(s2, -1, 0, (2 * l + 2) as nat);
    lemma_sp_move_n_ok(s2, -1, 0, (2 * l + 2) as nat);
    let s4 = sp_move_n(s3, 0, -1, (2 * l + 2) as nat);
    lemma_sp_move_n_ok(s3, 0, -1, (2 * l + 2) as nat);
    lemma_sp_move_n_ok(s4, 1, 0, (2 * l + 2) as nat);
}

/// `k` rings preserve the bookkeeping and add at least 8 cells each.
pub proof fn lemma_sp_rings_ok(s: Sp, k: nat)
    requires
        sp_ok(s),
    ensures
        sp_ok(sp_rings(s, k)),
        sp_rings(s, k).cells.len() >= s.cells.len() + 8 * k,
    decreases k,
{
    if k > 0 {
        lemma_sp_rings_ok(s, (k - 1) as nat);
        lemma_sp_ring_ok(sp_rings(s, (k - 1) as nat), (k - 1) as int);
        let km = (k - 1) as int;
        assert(8 * km >= 0) by (nonlinear_arith)
            requires
                km >= 0,
        ;
        assert(8 * (k as int) == 8 * km + 8) by (nonlinear_arith)
            requires
                k as int == km + 1,
        ;
    }
}

/// Whether the build loop stops after `k` rings.
pub open spec fn sp_stop(s1: Sp, k: nat, up_to_level: Option<usize>, up_to_num: int) -> bool {
    !((match up_to_level {
        Some(l) => k < l,
        None => true,
    }) && sp_rings(s1, k).num < up_to_num)
}

/// The least ring count at which the build loop stops.
pub open spec fn sp_rings_needed(s1: Sp, up_to_level: Option<usize>, up_to_num: int) -> nat {
    choose|k: nat|
        sp_stop(s1, k, up_to_level, up_to_num) && (forall|j: nat|
            j < k ==> !sp_stop(s1, j, up_to_level, up_to_num))
}

/// Below any stopping ring count lies a least one.
pub proof fn lemma_least_stop(s1: Sp, k0: nat, up_to_level: Option<usize>, up_to_num: int)
    requires
        sp_stop(s1, k0, up_to_level, up_to_num),
    ensures
        ({
            let k = sp_rings_needed(s1, up_to_level, up_to_num);
            &&& sp_stop(s1, k, up_to_level, up_to_num)
            &&& forall|j: nat| j < k ==> !sp_stop(s1, j, up_to_level, up_to_num)
            &&& k <= k0
        }),
    decreases k0,
{
    if exists|j: nat| j < k0 && sp_stop(s1, j, up_to_level, up_to_num) {
        let j = choose|j: nat| j < k0 && sp_stop(s1, j, up_to_level, up_to_num);
        lemma_least_stop(s1, j, up_to_level, up_to_num);
    } else {
        assert(sp_stop(s1, k0, up_to_level, up_to_num) && (forall|j: nat|
            j < k0 ==> !sp_stop(s1, j, up_to_level, up_to_num)));
        let k = sp_rings_needed(s1, up_to_level, up_to_num);
        if k > k0 {
            assert(!sp_stop(s1, k0, up_to_level, up_to_num));
        }
    }
}

/// The spiral under construction.
pub struct Grid {
    pub pos: (isize, isize),
    pub num: u64,
    pub max: usize,
    pub cells: Vec<Cell>,
}

impl Grid {
    /// The grid state as mathematics.
    pub open spec fn st(&self) -> Sp {
        Sp {
            pos: (self.pos.0 as int, self.pos.1 as int),
            num: self.num as int,
            cells: self.cells@.map_values(
                |c: Cell| (c.pos.0 as int, c.pos.1 as int, c.val as int),
            ),
        }
    }

    /// An empty grid: the walker at the origin about to write 1.
    pub fn new() -> (g: Grid)
        ensures
            g.st() == (Sp { pos: (0int, 0int), num: 1int, cells: Seq::<(int, int, int)>::empty() }),
            g.max == 0,
    {
        let g = Grid { pos: (0, 0), num: 1, max: 0, cells: Vec::new() };
        proof {
            assert(g.st().cells =~= Seq::<(int, int, int)>::empty());
        }
        g
    }

    /// Whether ring `lvl` is still below the requested level bound.
    pub fn under_level(&self, lvl: usize, up_to_lvl: Option<usize>) -> (r: bool)
        ensures
            r == match up_to_lvl {
                None => true,
                Some(l) => lvl < l,
            },
    {
        match up_to_lvl {
            None => true,
            Some(l) => lvl < l,
        }
    }

    /// The cell that was placed `num`-th (counting from 1).
    pub fn get_cell_with_val(&self, num: usize) -> (r: &Cell)
        requires
            1 <= num <= self.cells@.len(),
        ensures
            r == self.cells@[num - 1],
    {
        let idx = num - 1;
        &self.cells[idx]
    }

    /// The Manhattan distance of the `num`-th placed cell from the origin.
    pub fn get_distance(&self, num: usize) -> (r: u64)
        requires
            1 <= num <= self.cells@.len(),
            self.cells@[num - 1].pos.0 != isize::MIN,
            self.cells@[num - 1].pos.1 != isize::MIN,
        ensures
            r as int == iabs(self.cells@[num - 1].pos.0 as int) + iabs(
                self.cells@[num - 1].pos.1 as int,
            ),
    {
        let cell = self.get_cell_with_val(num);
        let x = cell.pos.0;
        let y = cell.pos.1;
        let abs_x: u64 = if x < 0 {
            (-x) as u64
        } else {
            x as u64
        };
        let abs_y: u64 = if y < 0 {
            (-y) as u64
        } else {
            y as u64
        };
        abs_x + abs_y
    }

    /// The value of the first cell placed at `pos`, if any.
    pub fn get_val_for_cell(&self, pos: (isize, isize)) -> (r: Option<u64>)
        ensures
            r == match sp_find(self.st().cells, pos.0 as int, pos.1 as int) {
                Some(v) => Some(v as u64),
                None => Option::<u64>::None,
            },
    {
        let ghost full = self.st().cells;
        let mut i: usize = 0;
        proof {
            assert(full.skip(0) =~= full);
        }
        while i < self.cells.len()
            invariant
                i <= self.cells@.len(),
                full == self.st().cells,
                full.len() == self.cells@.len(),
                sp_find(full, pos.0 as int, pos.1 as int) == sp_find(
                    full.skip(i as int),
                    pos.0 as int,
                    pos.1 as int,
                ),
            decreases self.cells@.len() - i,
        {
            let cell = &self.cells[i];
            proof {
                assert(full.skip(i as int)[0] == full[i as int]);
                assert(full.skip(i as int).drop_first() =~= full.skip(i + 1));
            }
            if pos.0 == cell.pos.0 && pos.1 == cell.pos.1 {
                return Some(cell.val);
            }
            i = i + 1;
        }
        proof {
            assert(full.skip(full.len() as int) =~= Seq::<(int, int, int)>::empty());
        }
        None
    }

    pub fn get_val_for_left(&self, pos: (isize, isize)) -> (r: Option<u64>)
        requires
            pos.0 > isize::MIN,
        ensures
            r == match sp_find(self.st().cells, pos.0 - 1, pos.1 as int) {
                Some(v) => Some(v as u64),
                None => Option::<u64>::None,
            },
    {
        self.get_val_for_cell((pos.0 - 1, pos.1))
    }

    pub fn get_val_for_up(&self, pos: (isize, isize)) -> (r: Option<u64>)
        requires
            pos.1 < isize::MAX,
        ensures
            r == match sp_find(self.st().cells, pos.0 as int, pos.1 + 1) {
                Some(v) => Some(v as u64),
                None => Option::<u64>::None,
            },
    {
        self.get_val_for_cell((pos.0, pos.1 + 1))
    }

    pub fn get_val_for_right(&self, pos: (isize, isize)) -> (r: Option<u64>)
        requires
            pos.0 < isize::MAX,
        ensures
            r == match sp_find(self.st().cells, pos.0 + 1, pos.1 as int) {
                Some(v) => Some(v as u64),
                None => Option::<u64>::None,
            },
    {
        self.get_val_for_cell((pos.0 + 1, pos.1))
    }

    pub fn get_val_for_down(&self, pos: (isize, isize)) -> (r: Option<u64>)
        requires
            pos.1 > isize::MIN,
        ensures
            r == match sp_find(self.st().cells, pos.0 as int, pos.1 - 1) {
                Some(v) => Some(v as u64),
                None => Option::<u64>::None,
            },
    {
        self.get_val_for_cell((pos.0, pos.1 - 1))
    }

    pub fn get_val_for_left_up(&self, pos: (isize, isize)) -> (r: Option<u64>)
        requires
            pos.0 > isize::MIN,
            pos.1 < isize::MAX,
        ensures
            r == match sp_find(self.st().cells, pos.0 - 1, pos.1 + 1) {
                Some(v) => Some(v as u64),
                None => Option::<u64>::None,
            },
    {
        self.get_val_for_cell((pos.0 - 1, pos.1 + 1))
    }

    pub fn get_val_for_right_up(&self, pos: (isize, isize)) -> (r: Option<u64>)
        requires
            pos.0 < isize::MAX,
            pos.1 < isize::MAX,
        ensures
            r == match sp_find(self.st().cells, pos.0 + 1, pos.1 + 1) {
                Some(v) => Some(v as u64),
                None => Option::<u64>::None,
            },
    {
        self.get_val_for_cell((pos.0 + 1, pos.1 + 1))
    }

    pub fn get_val_for_left_down(&self, pos: (isize, isize)) -> (r: Option<u64>)
        requires
            pos.0 > isize::MIN,
            pos.1 > isize::MIN,
        ensures
            r == match sp_find(self.st().cells, pos.0 - 1, pos.1 - 1) {
                Some(v) => Some(v as u64),
                None => Option::<u64>::None,
            },
    {
        self.get_val_for_cell((pos.0 - 1, pos.1 - 1))
    }

    pub fn get_val_for_right_down(&self, pos: (isize, isize)) -> (r: Option<u64>)
        requires
            pos.0 < isize::MAX,
            pos.1 > isize::MIN,
        ensures
            r == match sp_find(self.st().cells, pos.0 + 1, pos.1 - 1) {
                Some(v) => Some(v as u64),
                None => Option::<u64>::None,
            },
    {
        self.get_val_for_cell((pos.0 + 1, pos.1 - 1))
    }

    /// The sum of the values of the walker's eight placed neighbours,
    /// wrapping at 64 bits.
    #[verifier::rlimit(100)]
    fn get_val(&self, _max_val: u64) -> (r: u64)
        requires
            -0x1fff_ffff <= self.pos.0 as int <= 0x1fff_ffff,
            -0x1fff_ffff <= self.pos.1 as int <= 0x1fff_ffff,
        ensures
            r as int == sp_sum(self.st().cells, self.pos.0 as int, self.pos.1 as int)
                % 0x1_0000_0000_0000_0000,
    {
        let ghost cells = self.st().cells;
        let ghost px = self.pos.0 as int;
        let ghost py = self.pos.1 as int;
        let o1 = self.get_val_for_left(self.pos);
        let o2 = self.get_val_for_up(self.pos);
        let o3 = self.get_val_for_right(self.pos);
        let o4 = self.get_val_for_down(self.pos);
        let o5 = self.get_val_for_left_up(self.pos);
        let o6 = self.get_val_for_right_up(self.pos);
        let o7 = self.get_val_for_left_down(self.pos);
        let o8 = self.get_val_for_right_down(self.pos);
        let v1: u64 = match o1 {
            Some(v) => v,
            None => 0,
        };
        let v2: u64 = match o2 {
            Some(v) => v,
            None => 0,
        };
        let v3: u64 = match o3 {
            Some(v) => v,
            None => 0,
        };
        let v4: u64 = match o4 {
            Some(v) => v,
            None => 0,
        };
        let v5: u64 = match o5 {
            Some(v) => v,
            None => 0,
        };
        let v6: u64 = match o6 {
            Some(v) => v,
            None => 0,
        };
        let v7: u64 = match o7 {
            Some(v) => v,
            None => 0,
        };
        let v8: u64 = match o8 {
            Some(v) => v,
            None => 0,
        };
        proof {
            assert forall|i: int| 0 <= i < cells.len() implies 0 <= (#[trigger] cells[i]).2
                < 0x1_0000_0000_0000_0000 by {
                assert(cells[i].2 == self.cells@[i].val as int);
            }
            lemma_oz_in_range(cells, px - 1, py);
            lemma_oz_in_range(cells, px, py + 1);
            lemma_oz_in_range(cells, px + 1, py);
            lemma_oz_in_range(cells, px, py - 1);
            lemma_oz_in_range(cells, px - 1, py + 1);
            lemma_oz_in_range(cells, px + 1, py + 1);
            lemma_oz_in_range(cells, px - 1, py - 1);
            lemma_oz_in_range(cells, px + 1, py - 1);
            assert(v1 as int == oz(sp_find(cells, px - 1, py)));
            assert(v2 as int == oz(sp_find(cells, px, py + 1)));
            assert(v3 as int == oz(sp_find(cells, px + 1, py)));
            assert(v4 as int == oz(sp_find(cells, px, py - 1)));
            assert(v5 as int == oz(sp_find(cells, px - 1, py + 1)));
            assert(v6 as int == oz(sp_find(cells, px + 1, py + 1)));
            assert(v7 as int == oz(sp_find(cells, px - 1, py - 1)));
            assert(v8 as int == oz(sp_find(cells, px + 1, py - 1)));
        }
        let total: u128 = v1 as u128 + v2 as u128 + v3 as u128 + v4 as u128 + v5 as u128
            + v6 as u128 + v7 as u128 + v8 as u128;
        proof {
            assert(total as int == sp_sum(cells, px, py));
        }
        let r = (total % 0x1_0000_0000_0000_0000u128) as u64;
        r
    }

    /// Whether a coordinate lies farther out than any seen so far.
    pub fn check_max(&self, num: isize) -> (r: bool)
        requires
            num != isize::MIN,
        ensures
            r == (iabs(num as int) > self.max),
    {
        let a: usize = if num < 0 {
            (-num) as usize
        } else {
            num as usize
        };
        a > self.max
    }

    /// Places a cell holding the walker's current value at its position.
    pub fn mark_curr(&mut self)
        ensures
            final (self).st() == (Sp {
                pos: old(self).st().pos,
                num: old(self).st().num,
                cells: old(self).st().cells.push(
                    (old(self).pos.0 as int, old(self).pos.1 as int, old(self).num as int),
                ),
            }),
            final (self).pos == old(self).pos,
            final (self).num == old(self).num,
            final (self).max == old(self).max,
    {
        self.cells.push(Cell { pos: self.pos, val: self.num });
        proof {
            assert(self.st().cells =~= old(self).st().cells.push(
                (old(self).pos.0 as int, old(self).pos.1 as int, old(self).num as int),
            ));
        }
    }

    /// One step left: move, compute the new cell's value, place it.
    pub fn mark_left(&mut self, max_val: u64)
        requires
            sp_ok(old(self).st()),
            old(self).st().cells.len() <= SPIRAL_CAP,
        ensures
            final (self).st() == sp_move(old(self).st(), -1, 0),
            final (self).max == old(self).max,
            sp_ok(final (self).st()),
    {
        proof {
            lemma_sp_move_ok(old(self).st(), -1, 0);
        }
        self.pos = (self.pos.0 - 1, self.pos.1);
        let v = self.get_val(max_val);
        self.num = v;
        self.mark_curr();
    }

    /// One step up, tracking how far out the walk has been.
    pub fn mark_up(&mut self, max_val: u64)
        requires
            sp_ok(old(self).st()),
            old(self).st().cells.len() <= SPIRAL_CAP,
        ensures
            final (self).st() == sp_move(old(self).st(), 0, 1),
            final (self).max as int == ({
                let p = old(self).pos.1 + 2;
                if iabs(p) > old(self).max {
                    iabs(p)
                } else {
                    old(self).max as int
                }
            }),
            sp_ok(final (self).st()),
    {
        proof {
            lemma_sp_move_ok(old(self).st(), 0, 1);
        }
        self.pos = (self.pos.0, self.pos.1 + 1);
        let v = self.get_val(max_val);
        self.num = v;
        let probe = self.pos.1 + 1;
        if self.check_max(probe) {
            self.max = if probe < 0 {
                (-probe) as usize
            } else {
                probe as usize
            };
        }
        self.mark_curr();
    }

    /// One step right, tracking how far out the walk has been.
    pub fn mark_right(&mut self, max_val: u64)
        requires
            sp_ok(old(self).st()),
            old(self).st().cells.len() <= SPIRAL_CAP,
        ensures
            final (self).st() == sp_move(old(self).st(), 1, 0),
            final (self).max as int == ({
                let p = old(self).pos.0 + 2;
                if iabs(p) > old(self).max {
                    iabs(p)
                } else {
                    old(self).max as int
                }
            }),
            sp_ok(final (self).st()),
    {
        proof {
            lemma_sp_move_ok(old(self).st(), 1, 0);
        }
        self.pos = (self.pos.0 + 1, self.pos.1);
        let v = self.get_val(max_val);
        self.num = v;
        let probe = self.pos.0 + 1;
        if self.check_max(probe) {
            self.max = if probe < 0 {
                (-probe) as usize
            } else {
                probe as usize
            };
        }
        self.mark_curr();
    }

    /// One step down: move, compute the new cell's value, place it.
    pub fn mark_down(&mut self, max_val: u64)
        requires
            sp_ok(old(self).st()),
            old(self).st().cells.len() <= SPIRAL_CAP,
        ensures
            final (self).st() == sp_move(old(self).st(), 0, -1),
            final (self).max == old(self).max,
            sp_ok(final (self).st()),
    {
        proof {
            lemma_sp_move_ok(old(self).st(), 0, -1);
        }
        self.pos = (self.pos.0, self.pos.1 - 1);
        let v = self.get_val(max_val);
        self.num = v;
        self.mark_curr();
    }
}

impl Grid {
    /// Builds the spiral ring by ring, starting from the origin cell, until
    /// the requested ring level is reached or the last written value reaches
    /// `up_to_num`, whichever the loop sees first.
    pub fn build(&mut self, up_to_level: Option<usize>, up_to_num: u64)
        requires
            old(self).st() == (Sp {
                pos: (0int, 0int),
                num: 1int,
                cells: Seq::<(int, int, int)>::empty(),
            }),
            exists|k: nat| sp_stop(sp_start(), k, up_to_level, up_to_num as int),
            sp_rings(
                sp_start(),
                sp_rings_needed(sp_start(), up_to_level, up_to_num as int),
            ).cells.len() <= SPIRAL_CAP,
        ensures
            final (self).st() == sp_rings(
                sp_start(),
                sp_rings_needed(sp_start(), up_to_level, up_to_num as int),
            ),
    {
        let ghost s1 = sp_start();
        let ghost k0 = sp_rings_needed(s1, up_to_level, up_to_num as int);
        proof {
            let kw = choose|k: nat| sp_stop(s1, k, up_to_level, up_to_num as int);
            lemma_least_stop(s1, kw, up_to_level, up_to_num as int);
            assert(sp_ok(s1)) by {
                assert(s1.cells[0] == (0int, 0int, 1int));
            }
            lemma_sp_rings_ok(s1, k0);
        }
        self.mark_curr();
        proof {
            assert(self.st().cells =~= s1.cells);
            assert(self.st() == s1);
        }
        let mut lvl: usize = 0;
        while self.under_level(lvl, up_to_level) && self.num < up_to_num
            invariant
                s1 == sp_start(),
                k0 == sp_rings_needed(s1, up_to_level, up_to_num as int),
                sp_ok(s1),
                self.st() == sp_rings(s1, lvl as nat),
                sp_ok(self.st()),
                lvl <= k0,
                sp_stop(s1, k0, up_to_level, up_to_num as int),
                forall|j: nat| j < k0 ==> !sp_stop(s1, j, up_to_level, up_to_num as int),
                sp_rings(s1, k0).cells.len() <= SPIRAL_CAP,
                sp_rings(s1, k0).cells.len() >= 1 + 8 * k0,
            decreases k0 - lvl,
        {
            proof {
                assert(!sp_stop(s1, lvl as nat, up_to_level, up_to_num as int));
                assert(lvl < k0);
                assert(8 * (k0 as int) <= SPIRAL_CAP);
                assert(2 * (lvl as int) + 2 <= SPIRAL_CAP) by (nonlinear_arith)
                    requires
                        0 <= lvl < k0,
                        8 * (k0 as int) <= SPIRAL_CAP,
                ;
            }
            let ghost r0 = self.st();
            proof {
                lemma_sp_ring_ok(r0, lvl as int);
                lemma_sp_rings_mono(s1, (lvl + 1) as nat, k0);
                assert(sp_rings(s1, (lvl + 1) as nat) == sp_ring(r0, lvl as int));
                assert(r0.cells.len() + 8 * (lvl as int) + 8 <= SPIRAL_CAP);
            }
            self.mark_right(up_to_num);
            let ghost p1 = self.st();
            proof {
                assert(p1 == sp_move(r0, 1, 0));
            }
            let up = (lvl * 2) + 1;
            let mut c1: usize = 0;
            while c1 < up
                invariant
                    up == 2 * lvl + 1,
                    sp_ok(p1),
                    p1.cells.len() + 8 * (lvl as int) + 7 <= SPIRAL_CAP,
                    self.st() == sp_move_n(p1, 0, 1, c1 as nat),
                    sp_ok(self.st()),
                    c1 <= up,
                decreases up - c1,
            {
                proof {
                    lemma_sp_move_n_ok(p1, 0, 1, c1 as nat);
                }
                self.mark_up(up_to_num);
                c1 = c1 + 1;
            }
            let ghost p2 = self.st();
            proof {
                assert(p2 == sp_move_n(p1, 0, 1, (2 * (lvl as int) + 1) as nat));
                lemma_sp_move_n_ok(p1, 0, 1, (2 * (lvl as int) + 1) as nat);
            }
            let left = (lvl * 2) + 2;
            let mut c2: usize = 0;
            while c2 < left
                invariant
                    left == 2 * lvl + 2,
                    sp_ok(p2),
                    p2.cells.len() + 6 * (lvl as int) + 6 <= SPIRAL_CAP,
                    self.st() == sp_move_n(p2, -1, 0, c2 as nat),
                    sp_ok(self.st()),
                    c2 <= left,
                decreases left - c2,
            {
                proof {
                    lemma_sp_move_n_ok(p2, -1, 0, c2 as nat);
                }
                self.mark_left(up_to_num);
                c2 = c2 + 1;
            }
            let ghost p3 = self.st();
            proof {
                assert(p3 == sp_move_n(p2, -1, 0, (2 * (lvl as int) + 2) as nat));
                lemma_sp_move_n_ok(p2, -1, 0, (2 * (lvl as int) + 2) as nat);
            }
            let down = (lvl * 2) + 2;
            let mut c3: usize = 0;
            while c3 < down
                invariant
                    down == 2 * lvl + 2,
                    sp_ok(p3),
                    p3.cells.len() + 4 * (lvl as int) + 4 <= SPIRAL_CAP,
                    self.st() == sp_move_n(p3, 0, -1, c3 as nat),
                    sp_ok(self.st()),
                    c3 <= down,
                decreases down - c3,
            {
                proof {
                    lemma_sp_move_n_ok(p3, 0, -1, c3 as nat);
                }
                self.mark_down(up_to_num);
                c3 = c3 + 1;
            }
            let ghost p4 = self.st();
            proof {
                assert(p4 == sp_move_n(p3, 0, -1, (2 * (lvl as int) + 2) as nat));
                lemma_sp_move_n_ok(p3, 0, -1, (2 * (lvl as int) + 2) as nat);
            }
            let right = (lvl * 2) + 2;
            let mut c4: usize = 0;
            while c4 < right
                invariant
                    right == 2 * lvl + 2,
                    sp_ok(p4),
                    p4.cells.len() + 2 * (lvl as int) + 2 <= SPIRAL_CAP,
                    self.st() == sp_move_n(p4, 1, 0, c4 as nat),
                    sp_ok(self.st()),
                    c4 <= right,
                decreases right - c4,
            {
                proof {
                    lemma_sp_move_n_ok(p4, 1, 0, c4 as nat);
                }
                self.mark_right(up_to_num);
                c4 = c4 + 1;
            }
            proof {
                assert(self.st() == sp_move_n(p4, 1, 0, (2 * (lvl as int) + 2) as nat));
                assert(self.st() == sp_ring(r0, lvl as int));
                assert(self.st() == sp_rings(s1, (lvl + 1) as nat));
            }
            lvl = lvl + 1;
        }
        proof {
            assert(sp_stop(s1, lvl as nat, up_to_level, up_to_num as int));
            if (lvl as nat) < k0 {
                assert(!sp_stop(s1, lvl as nat, up_to_level, up_to_num as int));
            }
            assert(lvl as nat == k0);
        }
    }
}

/// `k` rings never shrink the grid as `k` grows.
pub proof fn lemma_sp_rings_mono(s: Sp, a: nat, b: nat)
    requires
        sp_ok(s),
        a <= b,
    ensures
        sp_rings(s, a).cells.len() <= sp_rings(s, b).cells.len(),
    decreases b,
{
    if a < b {
        lemma_sp_rings_mono(s, a, (b - 1) as nat);
        lemma_sp_rings_ok(s, (b - 1) as nat);
        lemma_sp_ring_ok(sp_rings(s, (b - 1) as nat), (b - 1) as int);
        assert(8 * ((b - 1) as int) >= 0) by (nonlinear_arith)
            requires
                b >= 1,
        ;
    }
}

/// A found neighbour value is one of the placed values; a missing one
/// counts zero.
proof fn lemma_oz_in_range(cells: Seq<(int, int, int)>, x: int, y: int)
    requires
        forall|i: int| 0 <= i < cells.len() ==> 0 <= (#[trigger] cells[i]).2 < 0x1_0000_0000_0000_0000,
    ensures
        0 <= oz(sp_find(cells, x, y)) < 0x1_0000_0000_0000_0000,
    decreases cells.len(),
{
    if cells.len() > 0 && !(cells[0].0 == x && cells[0].1 == y) {
        assert forall|i: int|
            0 <= i < cells.drop_first().len() implies 0 <= (#[trigger] cells.drop_first()[i]).2
            < 0x1_0000_0000_0000_0000 by {
            assert(cells.drop_first()[i] == cells[i + 1]);
        }
        lemma_oz_in_range(cells.drop_first(), x, y);
    }
}

} // verus!
