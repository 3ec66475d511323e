//! A 128x128 bit grid built from 128 knot hashes, and a flood fill that
//! labels and counts its 4-connected regions of set cells.

use vstd::prelude::*;
use vstd::arithmetic::mul::lemma_mul_inequality;
use crate::knot::MAX_HASH_INPUT;
use crate::knot::spec_knot_hash;
use crate::knot::valid_hash_input;
use crate::knothash::KnotHash;
use crate::knothash::bin_chars;
use crate::text::chars_of;
use crate::text::dec_chars;
use crate::text::push_decimal;
use crate::text::string_from_chars;

verus! {

/// One cell: a set flag fixed at construction, and a group label written at
/// most once during region counting.
pub struct GridCell {
    pub value: bool,
    pub group: Option<usize>,
}

impl GridCell {
    /// Whether the cell is set.
    pub fn is_set(&self) -> (r: bool)
        ensures
            r == self.value,
    {
        self.value
    }

    /// Whether the cell has been labeled.
    pub fn has_group(&self) -> (r: bool)
        ensures
            r == (self.group is Some),
    {
        self.group.is_some()
    }

    /// Labels the cell.
    pub fn set_group(&mut self, group: usize)
        ensures
            final (self).value == old(self).value,
            final (self).group == Some(group),
    {
        self.group = Some(group);
    }

    /// The cell's label, or -1 when it has none.
    pub fn group(&self) -> (r: isize)
        ensures
            r == match self.group {
                Some(g) => g as isize,
                None => -1isize,
            },
    {
        match self.group {
            Some(g) => g as isize,
            None => -1,
        }
    }
}

/// The input string hashed for row `i`: the seed, a dash, and the row index
/// in decimal.
pub open spec fn row_input(s: Seq<char>, i: int) -> Seq<char> {
    s + seq!['-'] + dec_chars(i as nat)
}

/// The 128 bits of row `i` of the grid for seed `s`, as binary characters.
pub open spec fn row_bits(s: Seq<char>, i: int) -> Seq<char> {
    bin_chars(spec_knot_hash(row_input(s, i)))
}

/// Whether the grid cell at row-major position `k` of the grid for seed `s`
/// is set.
pub open spec fn seed_cell_set(s: Seq<char>, k: int) -> bool {
    row_bits(s, k / 128)[k % 128] == '1'
}

pub struct BinGrid {
    pub data: Vec<GridCell>,
    pub width: usize,
    pub height: usize,
}

impl BinGrid {
    /// The data vector covers the full rectangle.
    pub open spec fn wf(&self) -> bool {
        &&& self.data@.len() == self.width * self.height
        &&& self.width >= 1
        &&& self.height >= 1
    }

    /// Number of rows.
    pub fn rows(&self) -> (r: usize)
        requires
            self.width > 0,
        ensures
            r == self.data@.len() as int / self.width as int,
    {
        self.data.len() / self.width
    }

    /// Number of columns.
    pub fn cols(&self) -> (r: usize)
        ensures
            r == self.width,
    {
        self.width
    }

    /// Number of cells.
    pub fn cells(&self) -> (r: usize)
        ensures
            r == self.data@.len(),
    {
        self.data.len()
    }

    /// The row-major position of the cell at column `x` of row `y`; row 0 is
    /// the top row.
    pub fn coords_to_num(&self, x: usize, y: usize) -> (r: usize)
        requires
            self.wf(),
            x < self.width,
            y < self.height,
        ensures
            r == y * self.width + x,
            r < self.data@.len(),
    {
        let total = self.data.len();
        proof {
            lemma_rm_index(x as int, y as int, self.width as int, self.height as int);
            assert(y * self.width + x < total);
        }
        let row_start = y * self.width;
        row_start + x
    }

    pub fn is_left_edge(&self, x: usize, _y: usize) -> (r: bool)
        ensures
            r == (x == 0),
    {
        x == 0
    }

    pub fn is_right_edge(&self, x: usize, _y: usize) -> (r: bool)
        requires
            self.width >= 1,
        ensures
            r == (x == self.width - 1),
    {
        x == self.width - 1
    }

    pub fn is_top_edge(&self, _x: usize, y: usize) -> (r: bool)
        ensures
            r == (y == 0),
    {
        y == 0
    }

    pub fn is_bottom_edge(&self, _x: usize, y: usize) -> (r: bool)
        requires
            self.height >= 1,
        ensures
            r == (y == self.height - 1),
    {
        y == self.height - 1
    }

    /// The coordinates one step left, if any.
    pub fn left(&self, x: usize, y: usize) -> (r: Option<(usize, usize)>)
        requires
            self.width >= 1,
        ensures
            r == if x == 0 {
                Option::<(usize, usize)>::None
            } else {
                Some(((x - 1) as usize, y))
            },
    {
        if self.is_left_edge(x, y) {
            None
        } else {
            Some((x - 1, y))
        }
    }

    /// The coordinates one step right, if any.
    pub fn right(&self, x: usize, y: usize) -> (r: Option<(usize, usize)>)
        requires
            self.width >= 1,
            x < self.width,
        ensures
            r == if x == self.width - 1 {
                Option::<(usize, usize)>::None
            } else {
                Some(((x + 1) as usize, y))
            },
    {
        if self.is_right_edge(x, y) {
            None
        } else {
            Some((x + 1, y))
        }
    }

    /// The coordinates one step up, if any.
    pub fn top(&self, x: usize, y: usize) -> (r: Option<(usize, usize)>)
        ensures
            r == if y == 0 {
                Option::<(usize, usize)>::None
            } else {
                Some((x, (y - 1) as usize))
            },
    {
        if self.is_top_edge(x, y) {
            None
        } else {
            Some((x, y - 1))
        }
    }

    /// The coordinates one step down, if any.
    pub fn bottom(&self, x: usize, y: usize) -> (r: Option<(usize, usize)>)
        requires
            self.height >= 1,
            y < self.height,
        ensures
            r == if y == self.height - 1 {
                Option::<(usize, usize)>::None
            } else {
                Some((x, (y + 1) as usize))
            },
    {
        if self.is_bottom_edge(x, y) {
            None
        } else {
            Some((x, y + 1))
        }
    }

    /// The cell at the given coordinates.
    pub fn get(&self, x: usize, y: usize) -> (r: &GridCell)
        requires
            self.wf(),
            x < self.width,
            y < self.height,
        ensures
            r == self.data@[y * self.width + x],
    {
        let idx = self.coords_to_num(x, y);
        &self.data[idx]
    }

    /// A mutable borrow of the cell at the given coordinates.
    pub fn get_mut(&mut self, x: usize, y: usize) -> (r: &mut GridCell)
        requires
            old(self).wf(),
            x < old(self).width,
            y < old(self).height,
        ensures
            *r == old(self).data@[y * old(self).width + x],
            final (self).data@ == old(self).data@.update(
                y * old(self).width + x,
                *final (r),
            ),
            final (self).width == old(self).width,
            final (self).height == old(self).height,
    {
        let idx = self.coords_to_num(x, y);
        vstd::std_specs::vec::vec_index_mut(&mut self.data, idx)
    }
}

/// Whether `p` is a position of a `w` by `h` grid.
pub open spec fn in_grid(w: int, h: int, p: (int, int)) -> bool {
    0 <= p.0 < w && 0 <= p.1 < h
}

/// Whether two positions share an edge.
pub open spec fn adj(a: (int, int), b: (int, int)) -> bool {
    ||| (a.0 == b.0 && (a.1 == b.1 + 1 || a.1 + 1 == b.1))
    ||| (a.1 == b.1 && (a.0 == b.0 + 1 || a.0 + 1 == b.0))
}

/// Whether the cell at `p` is set, over a row-major set map.
pub open spec fn cell_set(bs: Seq<bool>, w: int, p: (int, int)) -> bool {
    bs[p.1 * w + p.0]
}

/// A walk over set cells, each step to an edge-sharing neighbour.
pub open spec fn is_path(bs: Seq<bool>, w: int, h: int, p: Seq<(int, int)>) -> bool {
    &&& p.len() >= 1
    &&& forall|i: int|
        0 <= i < p.len() ==> in_grid(w, h, #[trigger] p[i]) && cell_set(bs, w, p[i])
    &&& forall|i: int| 0 <= i < p.len() - 1 ==> adj(#[trigger] p[i], p[i + 1])
}

/// Two cells of the same region: a walk over set cells joins them.
pub open spec fn connected(bs: Seq<bool>, w: int, h: int, a: (int, int), b: (int, int)) -> bool {
    exists|p: Seq<(int, int)>| is_path(bs, w, h, p) && p.first() == a && p.last() == b
}

/// A set cell is joined to itself.
pub proof fn lemma_connected_refl(bs: Seq<bool>, w: int, h: int, a: (int, int))
    requires
        in_grid(w, h, a),
        cell_set(bs, w, a),
    ensures
        connected(bs, w, h, a, a),
{
    let p = seq![a];
    assert(is_path(bs, w, h, p));
    assert(p.first() == a && p.last() == a);
}

/// Joins run both ways: reverse the walk.
pub proof fn lemma_connected_sym(bs: Seq<bool>, w: int, h: int, a: (int, int), b: (int, int))
    requires
        connected(bs, w, h, a, b),
    ensures
        connected(bs, w, h, b, a),
{
    let p = choose|p: Seq<(int, int)>| is_path(bs, w, h, p) && p.first() == a && p.last() == b;
    let q = p.reverse();
    assert(is_path(bs, w, h, q)) by {
        assert forall|i: int| 0 <= i < q.len() - 1 implies adj(#[trigger] q[i], q[i + 1]) by {
            assert(q[i] == p[p.len() - 1 - i]);
            assert(q[i + 1] == p[p.len() - 2 - i]);
            assert(adj(p[p.len() - 2 - i], p[p.len() - 1 - i]));
        }
    }
    assert(q.first() == b && q.last() == a);
}

/// Joins chain: append the second walk to the first.
pub proof fn lemma_connected_trans(
    bs: Seq<bool>,
    w: int,
    h: int,
    a: (int, int),
    b: (int, int),
    c: (int, int),
)
    requires
        connected(bs, w, h, a, b),
        connected(bs, w, h, b, c),
    ensures
        connected(bs, w, h, a, c),
{
    let p = choose|p: Seq<(int, int)>| is_path(bs, w, h, p) && p.first() == a && p.last() == b;
    let q = choose|q: Seq<(int, int)>| is_path(bs, w, h, q) && q.first() == b && q.last() == c;
    let r = p + q.drop_first();
    assert(is_path(bs, w, h, r)) by {
        assert forall|i: int|
            0 <= i < r.len() implies in_grid(w, h, #[trigger] r[i]) && cell_set(bs, w, r[i]) by {
            if i < p.len() {
                assert(r[i] == p[i]);
            } else {
                assert(r[i] == q[i - p.len() + 1]);
            }
        }
        assert forall|i: int| 0 <= i < r.len() - 1 implies adj(#[trigger] r[i], r[i + 1]) by {
            if i + 1 < p.len() {
                assert(r[i] == p[i] && r[i + 1] == p[i + 1]);
            } else if i + 1 == p.len() {
                assert(r[i] == p[i]);
                if q.len() >= 2 {
                    assert(r[i + 1] == q[1]);
                    assert(adj(q[0], q[1]));
                    assert(p[i] == p.last() && q[0] == b);
                }
            } else {
                assert(r[i] == q[i - p.len() + 1]);
                assert(r[i + 1] == q[i - p.len() + 2]);
                assert(adj(q[i - p.len() + 1], q[i - p.len() + 2]));
            }
        }
    }
    assert(r.first() == a);
    assert(r.last() == c) by {
        if q.len() == 1 {
            assert(r =~= p);
            assert(b == c);
        } else {
            assert(r.last() == q.last());
        }
    }
}

/// A join extends across one edge to a set neighbour.
pub proof fn lemma_connected_step(
    bs: Seq<bool>,
    w: int,
    h: int,
    a: (int, int),
    b: (int, int),
    c: (int, int),
)
    requires
        connected(bs, w, h, a, b),
        adj(b, c),
        in_grid(w, h, c),
        cell_set(bs, w, c),
    ensures
        connected(bs, w, h, a, c),
{
    let p = choose|p: Seq<(int, int)>| is_path(bs, w, h, p) && p.first() == a && p.last() == b;
    let r = p.push(c);
    assert(is_path(bs, w, h, r)) by {
        assert forall|i: int| 0 <= i < r.len() - 1 implies adj(#[trigger] r[i], r[i + 1]) by {
            if i < p.len() - 1 {
                assert(r[i] == p[i] && r[i + 1] == p[i + 1]);
            } else {
                assert(r[i] == p.last() && r[i + 1] == c);
            }
        }
    }
    assert(r.first() == a && r.last() == c);
}

/// Any collection of set cells that contains a cell and is closed under
/// stepping to set neighbours contains everything joined to that cell.
pub proof fn lemma_closure_covers(
    bs: Seq<bool>,
    w: int,
    h: int,
    sf: spec_fn((int, int)) -> bool,
    p: Seq<(int, int)>,
)
    requires
        is_path(bs, w, h, p),
        sf(p.first()),
        forall|u: (int, int), v: (int, int)|
            #[trigger] sf(u) && in_grid(w, h, v) && cell_set(bs, w, v) && #[trigger] adj(u, v)
                ==> sf(v),
    ensures
        sf(p.last()),
    decreases p.len(),
{
    if p.len() == 1 {
    } else {
        let q = p.drop_first();
        assert(sf(p[1])) by {
            assert(adj(p[0], p[1]));
            assert(in_grid(w, h, p[1]) && cell_set(bs, w, p[1]));
        }
        assert(is_path(bs, w, h, q)) by {
            assert forall|i: int|
                0 <= i < q.len() implies in_grid(w, h, #[trigger] q[i]) && cell_set(
                bs,
                w,
                q[i],
            ) by {
                assert(q[i] == p[i + 1]);
            }
            assert forall|i: int| 0 <= i < q.len() - 1 implies adj(#[trigger] q[i], q[i + 1]) by {
                assert(q[i] == p[i + 1] && q[i + 1] == p[i + 2]);
                assert(adj(p[i + 1], p[i + 2]));
            }
        }
        lemma_closure_covers(bs, w, h, sf, q);
        assert(q.last() == p.last());
    }
}

/// A set cell that has not been labeled yet.
pub open spec fn unlabeled(c: GridCell) -> bool {
    c.value && c.group is None
}

/// How many set cells still lack a label.
pub open spec fn count_unlabeled(s: Seq<GridCell>) -> int
    decreases s.len(),
{
    if s.len() == 0 {
        0
    } else {
        count_unlabeled(s.drop_last()) + if unlabeled(s.last()) {
            1int
        } else {
            0int
        }
    }
}

proof fn lemma_count_bounds(s: Seq<GridCell>)
    ensures
        0 <= count_unlabeled(s) <= s.len(),
    decreases s.len(),
{
    if s.len() == 0 {
    } else {
        lemma_count_bounds(s.drop_last());
    }
}

/// Labeling one unlabeled set cell lowers the count by one.
proof fn lemma_count_update_label(s: Seq<GridCell>, i: int, c: GridCell)
    requires
        0 <= i < s.len(),
        unlabeled(s[i]),
        !unlabeled(c),
    ensures
        count_unlabeled(s.update(i, c)) == count_unlabeled(s) - 1,
    decreases s.len(),
{
    let t = s.update(i, c);
    if i == s.len() - 1 {
        assert(t.drop_last() =~= s.drop_last());
    } else {
        assert(t.drop_last() =~= s.drop_last().update(i, c));
        lemma_count_update_label(s.drop_last(), i, c);
    }
}

impl BinGrid {
    /// Builds the 128x128 grid for the given seed: row `i` holds the bits of
    /// the binary rendering of `knot_hash("{seed}-{i}")`, a '1' bit making a
    /// set cell, and no cell is labeled yet.
    pub fn from_seed(input: &str) -> (g: BinGrid)
        requires
            valid_hash_input(input@),
            input@.len() + 4 <= MAX_HASH_INPUT,
        ensures
            g.wf(),
            g.width == 128,
            g.height == 128,
            g.data@.len() == 128 * 128,
            forall|k: int| 0 <= k < 128 * 128 ==> (#[trigger] g.data@[k]).group is None,
            forall|k: int|
                0 <= k < 128 * 128 ==> (#[trigger] g.data@[k]).value == seed_cell_set(input@, k),
    {
        let mut accum: Vec<GridCell> = Vec::new();
        let mut i: usize = 0;
        while i < 128
            invariant
                valid_hash_input(input@),
                input@.len() + 4 <= MAX_HASH_INPUT,
                i <= 128,
                accum@.len() == i * 128,
                forall|k: int| 0 <= k < i * 128 ==> (#[trigger] accum@[k]).group is None,
                forall|k: int|
                    0 <= k < i * 128 ==> (#[trigger] accum@[k]).value == seed_cell_set(input@, k),
            decreases 128 - i,
        {
            let mut rc = chars_of(input);
            rc.push('-');
            push_decimal(&mut rc, i as u64);
            proof {
                assert(rc@ =~= row_input(input@, i as int));
                crate::text::lemma_dec_chars_ascii(i as nat);
                crate::text::lemma_dec_chars_len_small(i as nat);
                assert forall|m: int| 0 <= m < rc@.len() implies (#[trigger] rc@[m]) as u32
                    <= 256 by {
                    if m < input@.len() {
                        assert(rc@[m] == input@[m]);
                        assert((input@[m]) as u32 <= 256);
                    } else if m == input@.len() {
                        assert(rc@[m] == '-');
                    } else {
                        assert(rc@[m] == dec_chars(i as nat)[m - input@.len() - 1]);
                    }
                }
            }
            let s = string_from_chars(&rc);
            let h = KnotHash::new(s.as_str());
            let bits = h.to_bin_str();
            let bv = chars_of(bits.as_str());
            proof {
                crate::knot::lemma_spec_knot_hash_len(row_input(input@, i as int));
                crate::knothash::lemma_bin_chars_len(spec_knot_hash(row_input(input@, i as int)));
                assert(bv@ == row_bits(input@, i as int));
                assert(bv@.len() == 128);
            }
            let mut x: usize = 0;
            while x < 128
                invariant
                    i < 128,
                    x <= 128,
                    bv@ == row_bits(input@, i as int),
                    bv@.len() == 128,
                    accum@.len() == i * 128 + x,
                    forall|k: int| 0 <= k < i * 128 + x ==> (#[trigger] accum@[k]).group is None,
                    forall|k: int|
                        0 <= k < i * 128 + x ==> (#[trigger] accum@[k]).value == seed_cell_set(
                            input@,
                            k,
                        ),
                decreases 128 - x,
            {
                let c = bv[x];
                accum.push(GridCell { value: c == '1', group: None });
                proof {
                    let k = i * 128 + x;
                    vstd::arithmetic::div_mod::lemma_fundamental_div_mod_converse(
                        k as int,
                        128,
                        i as int,
                        x as int,
                    );
                    assert(accum@[k as int].value == seed_cell_set(input@, k as int));
                }
                x = x + 1;
            }
            i = i + 1;
        }
        proof {
            assert(accum@.len() == 128 * 128);
        }
        BinGrid { data: accum, width: 128, height: 128 }
    }

    /// Labels the whole region of set cells reachable from `(x, y)` with the
    /// given group id, using an explicit work stack; a no-op returning false
    /// when the starting cell is unset or already labeled.
    #[verifier::rlimit(100)]
    pub fn mark_group(&mut self, x: usize, y: usize, group: usize) -> (r: bool)
        requires
            old(self).wf(),
            x < old(self).width,
            y < old(self).height,
            labels_closed(old(self).data@, old(self).width as int, old(self).height as int),
        ensures
            final (self).wf(),
            final (self).width == old(self).width,
            final (self).height == old(self).height,
            final (self).data@.len() == old(self).data@.len(),
            forall|k: int|
                0 <= k < old(self).data@.len() ==> (#[trigger] final (self).data@[k]).value == old(
                    self,
                ).data@[k].value,
            r == unlabeled(old(self).data@[y * old(self).width + x]),
            !r ==> final (self).data@ == old(self).data@,
            forall|k: int|
                0 <= k < old(self).data@.len() ==> (#[trigger] final (self).data@[k]).group == old(
                    self,
                ).data@[k].group || (old(self).data@[k].group is None && old(self).data@[k].value
                    && final (self).data@[k].group == Some(group)),
            r ==> final (self).data@[y * old(self).width + x].group == Some(group),
            count_unlabeled(final (self).data@) <= count_unlabeled(old(self).data@),
            r ==> count_unlabeled(final (self).data@) < count_unlabeled(old(self).data@),
            labels_closed(final (self).data@, old(self).width as int, old(self).height as int),
            r ==> forall|c: (int, int)|
                in_grid(old(self).width as int, old(self).height as int, c)
                    ==> ((#[trigger] final (self).data@[c.1 * old(self).width + c.0].group)
                    is Some <==> (old(self).data@[c.1 * old(self).width + c.0].group is Some
                    || connected(
                    set_map(old(self).data@),
                    old(self).width as int,
                    old(self).height as int,
                    (x as int, y as int),
                    c,
                ))),
    {
        let ghost w = old(self).width as int;
        let ghost h = old(self).height as int;
        let ghost g0 = old(self).data@;
        let ghost bs = set_map(g0);
        let ghost seedp = (x as int, y as int);
        let ghost seed = (y * old(self).width + x) as int;
        proof {
            lemma_rm_index(x as int, y as int, w, h);
        }
        let start = self.get(x, y);
        if !start.is_set() {
            return false;
        }
        if start.has_group() {
            return false;
        }
        let mut stack: Vec<(usize, usize)> = Vec::new();
        stack.push((x, y));
        proof {
            assert(stack@[0] == (x, y));
            lemma_connected_refl(bs, w, h, seedp);
        }
        while stack.len() > 0
            invariant
                self.wf(),
                self.width == w,
                self.height == h,
                self.data@.len() == g0.len(),
                x < w,
                y < h,
                seedp == (x as int, y as int),
                seed == y * w + x,
                0 <= seed < g0.len(),
                unlabeled(g0[seed]),
                bs == set_map(g0),
                labels_closed(g0, w, h),
                forall|k: int|
                    0 <= k < stack@.len() ==> (#[trigger] stack@[k]).0 < w && stack@[k].1 < h,
                forall|k: int|
                    0 <= k < g0.len() ==> (#[trigger] self.data@[k]).value == g0[k].value,
                forall|k: int|
                    0 <= k < g0.len() ==> (#[trigger] self.data@[k]).group == g0[k].group || (
                    g0[k].group is None && g0[k].value && self.data@[k].group == Some(group)),
                count_unlabeled(self.data@) <= count_unlabeled(g0),
                self.data@[seed].group == Some(group) || (stack@ == seq![(x, y)]
                    && count_unlabeled(self.data@) == count_unlabeled(g0)),
                self.data@[seed].group == Some(group) ==> count_unlabeled(self.data@)
                    < count_unlabeled(g0),
                // every cell this call labeled is joined to the seed
                forall|c: (int, int)|
                    in_grid(w, h, c) && (#[trigger] self.data@[c.1 * w + c.0].group) is Some
                        && g0[c.1 * w + c.0].group is None ==> connected(bs, w, h, seedp, c),
                // every set cell waiting on the stack is joined to the seed
                forall|k: int|
                    0 <= k < stack@.len() ==> (cell_set(
                        bs,
                        w,
                        ((#[trigger] stack@[k]).0 as int, stack@[k].1 as int),
                    ) ==> connected(bs, w, h, seedp, (stack@[k].0 as int, stack@[k].1 as int))),
                // a set neighbour of a cell this call labeled is labeled or waiting
                forall|c: (int, int), d2: (int, int)|
                    in_grid(w, h, c) && (#[trigger] self.data@[c.1 * w + c.0].group) is Some
                        && g0[c.1 * w + c.0].group is None && in_grid(w, h, d2) && #[trigger] adj(
                        c,
                        d2,
                    ) && cell_set(bs, w, d2) ==> self.data@[d2.1 * w + d2.0].group is Some
                        || stack_has(stack@, d2),
            decreases count_unlabeled(self.data@), stack@.len(),
        {
            let ghost stack0 = stack@;
            let ghost d0 = self.data@;
            let p = stack.pop().unwrap();
            let cx = p.0;
            let cy = p.1;
            let ghost cp = (cx as int, cy as int);
            let cell = self.get(cx, cy);
            proof {
                lemma_rm_index(cx as int, cy as int, w, h);
                assert(stack0[stack0.len() - 1] == p);
            }
            if cell.is_set() && !cell.has_group() {
                let ghost idx = cy * w + cx;
                let ghost cnew = GridCell { value: d0[idx].value, group: Some(group) };
                let m = self.get_mut(cx, cy);
                m.set_group(group);
                proof {
                    assert(self.data@[idx].group == Some(group));
                    assert(self.data@[idx].value == d0[idx].value);
                    assert(self.data@[idx] == cnew);
                    assert(self.data@ =~= d0.update(idx, cnew));
                    lemma_count_update_label(d0, idx, cnew);
                    lemma_count_bounds(self.data@);
                    assert(cell_set(bs, w, cp));
                    assert(connected(bs, w, h, seedp, cp));
                }
                let ghost st0 = stack@;
                if let Some(cc) = self.left(cx, cy) {
                    stack.push(cc);
                }
                let ghost st_a = stack@;
                if let Some(cc) = self.right(cx, cy) {
                    stack.push(cc);
                }
                let ghost st_b = stack@;
                if let Some(cc) = self.top(cx, cy) {
                    stack.push(cc);
                }
                let ghost st_c = stack@;
                if let Some(cc) = self.bottom(cx, cy) {
                    stack.push(cc);
                }
                proof {
                    assert(st0.is_prefix_of(st_a)) by {
                        assert(st0 =~= st_a.subrange(0, st0.len() as int));
                    }
                    assert(st_a.is_prefix_of(st_b)) by {
                        assert(st_a =~= st_b.subrange(0, st_a.len() as int));
                    }
                    assert(st_b.is_prefix_of(st_c)) by {
                        assert(st_b =~= st_c.subrange(0, st_b.len() as int));
                    }
                    assert(st_c.is_prefix_of(stack@)) by {
                        assert(st_c =~= stack@.subrange(0, st_c.len() as int));
                    }
                    if cx > 0 {
                        assert(st_a.last() == (((cx - 1) as usize, cy)));
                        assert(stack_has(st_a, (cp.0 - 1, cp.1)));
                        lemma_stack_has_extend(st_a, st_b, (cp.0 - 1, cp.1));
                        lemma_stack_has_extend(st_b, st_c, (cp.0 - 1, cp.1));
                        lemma_stack_has_extend(st_c, stack@, (cp.0 - 1, cp.1));
                    }
                    if cp.0 + 1 < w {
                        assert(st_b.last() == (((cx + 1) as usize, cy)));
                        assert(stack_has(st_b, (cp.0 + 1, cp.1)));
                        lemma_stack_has_extend(st_b, st_c, (cp.0 + 1, cp.1));
                        lemma_stack_has_extend(st_c, stack@, (cp.0 + 1, cp.1));
                    }
                    if cy > 0 {
                        assert(st_c.last() == ((cx, (cy - 1) as usize)));
                        assert(stack_has(st_c, (cp.0, cp.1 - 1)));
                        lemma_stack_has_extend(st_c, stack@, (cp.0, cp.1 - 1));
                    }
                    if cp.1 + 1 < h {
                        assert(stack@.last() == ((cx, (cy + 1) as usize)));
                        assert(stack_has(stack@, (cp.0, cp.1 + 1)));
                    }
                }
                proof {
                    if d0[seed].group != Some(group) {
                        assert(stack0 == seq![(x, y)]);
                        assert(p == (x, y));
                        assert(idx == seed);
                        assert(self.data@[seed].group == Some(group));
                    } else {
                        assert(d0[idx].group is None);
                        assert(idx != seed);
                        assert(self.data@ == d0.update(idx, cnew));
                        assert(self.data@[seed] == d0[seed]);
                        assert(self.data@[seed].group == Some(group));
                    }
                    // joins for the freshly pushed neighbours
                    assert forall|k: int|
                        0 <= k < stack@.len() implies (cell_set(
                        bs,
                        w,
                        ((#[trigger] stack@[k]).0 as int, stack@[k].1 as int),
                    ) ==> connected(bs, w, h, seedp, (stack@[k].0 as int, stack@[k].1 as int))) by {
                        let q = stack@[k];
                        let qp = (q.0 as int, q.1 as int);
                        if k < stack0.len() - 1 {
                            assert(stack0[k] == q);
                        } else if cell_set(bs, w, qp) {
                            assert(adj(cp, qp));
                            lemma_connected_step(bs, w, h, seedp, cp, qp);
                        }
                    }
                    // everything labeled so far is joined to the seed
                    assert forall|c: (int, int)|
                        in_grid(w, h, c) && (#[trigger] self.data@[c.1 * w + c.0].group) is Some
                            && g0[c.1 * w + c.0].group is None implies connected(
                        bs,
                        w,
                        h,
                        seedp,
                        c,
                    ) by {
                        lemma_rm_index(c.0, c.1, w, h);
                        if c.1 * w + c.0 == idx {
                            lemma_rm_injective(c, cp, w, h);
                        } else {
                            assert(self.data@[c.1 * w + c.0] == d0[c.1 * w + c.0]);
                        }
                    }
                    // the frontier property after labeling `cp` and pushing
                    // its in-grid neighbours
                    assert forall|c: (int, int), d2: (int, int)|
                        in_grid(w, h, c) && (#[trigger] self.data@[c.1 * w + c.0].group) is Some
                            && g0[c.1 * w + c.0].group is None && in_grid(w, h, d2)
                            && #[trigger] adj(c, d2) && cell_set(bs, w, d2) implies self.data@[d2.1
                        * w + d2.0].group is Some || stack_has(stack@, d2) by {
                        lemma_rm_index(c.0, c.1, w, h);
                        lemma_rm_index(d2.0, d2.1, w, h);
                        if c == cp {
                            // d2 is one of the four in-grid neighbours, each
                            // of which the push phase put on the stack
                            assert(d2 == (cp.0 - 1, cp.1) || d2 == (cp.0 + 1, cp.1) || d2 == (
                            cp.0,
                            cp.1 - 1,
                            ) || d2 == (cp.0, cp.1 + 1));
                            assert(stack_has(stack@, d2));
                        } else {
                            if c.1 * w + c.0 == idx {
                                lemma_rm_injective(c, cp, w, h);
                            }
                            assert(c.1 * w + c.0 != idx);
                            assert(d0[c.1 * w + c.0].group is Some);
                            if d0[d2.1 * w + d2.0].group is Some {
                            } else {
                                assert(stack_has(stack0, d2));
                                let k = choose|k: int|
                                    0 <= k < stack0.len() && stack0[k].0 == d2.0 && stack0[k].1
                                        == d2.1;
                                if k < stack0.len() - 1 {
                                    assert(stack@[k] == stack0[k]);
                                    assert(stack_has(stack@, d2));
                                } else {
                                    assert(d2 == cp);
                                    assert(self.data@[d2.1 * w + d2.0].group is Some);
                                }
                            }
                        }
                    }
                }
            } else {
                proof {
                    lemma_count_bounds(self.data@);
                    if d0[seed].group != Some(group) {
                        assert(stack0 == seq![(x, y)]);
                        assert(p == (x, y));
                        assert(self.data@ == d0);
                        assert(self.data@[seed].value == g0[seed].value);
                        assert(self.data@[seed].group == g0[seed].group);
                        assert(false);
                    }
                    // the dropped entry is unset or already labeled, so the
                    // frontier property survives the pop
                    assert forall|c: (int, int), d2: (int, int)|
                        in_grid(w, h, c) && (#[trigger] self.data@[c.1 * w + c.0].group) is Some
                            && g0[c.1 * w + c.0].group is None && in_grid(w, h, d2)
                            && #[trigger] adj(c, d2) && cell_set(bs, w, d2) implies self.data@[d2.1
                        * w + d2.0].group is Some || stack_has(stack@, d2) by {
                        lemma_rm_index(d2.0, d2.1, w, h);
                        if !(self.data@[d2.1 * w + d2.0].group is Some) {
                            assert(stack_has(stack0, d2));
                            let k = choose|k: int|
                                0 <= k < stack0.len() && stack0[k].0 == d2.0 && stack0[k].1
                                    == d2.1;
                            if k < stack0.len() - 1 {
                                assert(stack@[k] == stack0[k]);
                                assert(stack_has(stack@, d2));
                            } else {
                                assert(d2 == cp);
                                assert(cell_set(bs, w, cp));
                                assert(self.data@[cp.1 * w + cp.0].value);
                                assert(self.data@[cp.1 * w + cp.0].group is Some);
                                assert(false);
                            }
                        }
                    }
                }
            }
        }
        proof {
            // the labeled area is exactly the seed's region
            assert(self.data@[seed].group == Some(group));
            let df = self.data@;
            let sf = |q: (int, int)|
                in_grid(w, h, q) && cell_set(bs, w, q) && df[q.1 * w + q.0].group is Some;
            assert forall|u: (int, int), v: (int, int)|
                #[trigger] sf(u) && in_grid(w, h, v) && cell_set(bs, w, v) && #[trigger] adj(u, v)
                implies sf(v) by {
                lemma_rm_index(u.0, u.1, w, h);
                lemma_rm_index(v.0, v.1, w, h);
                if g0[u.1 * w + u.0].group is Some {
                    assert(g0[v.1 * w + v.0].group is Some);
                    assert(df[v.1 * w + v.0].group is Some);
                } else {
                    assert(!stack_has(stack@, v));
                    assert(df[v.1 * w + v.0].group is Some);
                }
            }
            assert forall|c: (int, int)|
                in_grid(w, h, c) implies ((#[trigger] df[c.1 * w + c.0].group) is Some <==> (
            g0[c.1 * w + c.0].group is Some || connected(bs, w, h, seedp, c))) by {
                lemma_rm_index(c.0, c.1, w, h);
                if connected(bs, w, h, seedp, c) {
                    let pth = choose|pp: Seq<(int, int)>|
                        is_path(bs, w, h, pp) && pp.first() == seedp && pp.last() == c;
                    assert(sf(pth.first()));
                    lemma_closure_covers(bs, w, h, sf, pth);
                    assert(sf(c));
                }
            }
            // labels stay region-closed for the next scan
            assert forall|a: (int, int), b: (int, int)|
                in_grid(w, h, a) && in_grid(w, h, b) && #[trigger] adj(a, b) && df[a.1 * w
                    + a.0].value && df[b.1 * w + b.0].value && (#[trigger] df[a.1 * w
                    + a.0].group) is Some implies df[b.1 * w + b.0].group is Some by {
                lemma_rm_index(a.0, a.1, w, h);
                lemma_rm_index(b.0, b.1, w, h);
                if g0[a.1 * w + a.0].group is Some {
                    assert(g0[b.1 * w + b.0].group is Some);
                } else {
                    assert(!stack_has(stack@, b));
                    assert(df[b.1 * w + b.0].group is Some);
                }
            }
        }
        true
    }
}

/// Whether the stack holds an entry at position `p`.
pub open spec fn stack_has(st: Seq<(usize, usize)>, p: (int, int)) -> bool {
    exists|k: int| 0 <= k < st.len() && (#[trigger] st[k]).0 == p.0 && st[k].1 == p.1
}

/// The set flags of a grid's cells, in row-major order.
pub open spec fn set_map(d: Seq<GridCell>) -> Seq<bool> {
    d.map_values(|c: GridCell| c.value)
}

/// Labels cover whole regions: a labeled set cell never borders an unlabeled
/// set cell.
pub open spec fn labels_closed(d: Seq<GridCell>, w: int, h: int) -> bool {
    forall|a: (int, int), b: (int, int)|
        in_grid(w, h, a) && in_grid(w, h, b) && #[trigger] adj(a, b) && d[a.1 * w + a.0].value
            && d[b.1 * w + b.0].value && (#[trigger] d[a.1 * w + a.0].group) is Some ==> d[b.1 * w
            + b.0].group is Some
}

/// Stack membership survives pushing more entries.
proof fn lemma_stack_has_extend(s: Seq<(usize, usize)>, t: Seq<(usize, usize)>, p: (int, int))
    requires
        stack_has(s, p),
        s.is_prefix_of(t),
    ensures
        stack_has(t, p),
{
    let k = choose|k: int| 0 <= k < s.len() && (#[trigger] s[k]).0 == p.0 && s[k].1 == p.1;
    assert(t[k] == s[k]);
}

/// The first cell of a region in the row-major scan: a set cell that no
/// earlier set cell is joined to.
pub open spec fn is_leader(bs: Seq<bool>, w: int, h: int, c: (int, int)) -> bool {
    &&& in_grid(w, h, c)
    &&& cell_set(bs, w, c)
    &&& forall|q: (int, int)|
        in_grid(w, h, q) && cell_set(bs, w, q) && (#[trigger] (q.1 * w + q.0)) < c.1 * w + c.0
            ==> !connected(bs, w, h, q, c)
}

/// How many of the first `k` cells in row-major order lead a region.  Every
/// region has exactly one leader, so this counts regions once the whole grid
/// has been scanned.
pub open spec fn leaders_upto(bs: Seq<bool>, w: int, h: int, k: int) -> int
    decreases k,
{
    if k <= 0 {
        0
    } else {
        leaders_upto(bs, w, h, k - 1) + if is_leader(bs, w, h, ((k - 1) % w, (k - 1) / w)) {
            1int
        } else {
            0int
        }
    }
}

/// Every region is counted exactly once: each set cell is joined to one and
/// only one leader, so the leader count is the region count.
pub proof fn lemma_one_leader_per_region(bs: Seq<bool>, w: int, h: int, c: (int, int))
    requires
        in_grid(w, h, c),
        cell_set(bs, w, c),
    ensures
        exists|q: (int, int)| #[trigger] is_leader(bs, w, h, q) && connected(bs, w, h, q, c),
        forall|q1: (int, int), q2: (int, int)|
            #[trigger] is_leader(bs, w, h, q1) && connected(bs, w, h, q1, c) && #[trigger] is_leader(
                bs,
                w,
                h,
                q2,
            ) && connected(bs, w, h, q2, c) ==> q1 == q2,
{
    lemma_leader_exists(bs, w, h, c);
    assert forall|q1: (int, int), q2: (int, int)|
        #[trigger] is_leader(bs, w, h, q1) && connected(bs, w, h, q1, c) && #[trigger] is_leader(
            bs,
            w,
            h,
            q2,
        ) && connected(bs, w, h, q2, c) implies q1 == q2 by {
        if q1 != q2 {
            lemma_connected_sym(bs, w, h, q1, c);
            lemma_connected_trans(bs, w, h, q2, c, q1);
            lemma_connected_sym(bs, w, h, q2, q1);
            if q1.1 * w + q1.0 < q2.1 * w + q2.0 {
                assert(!connected(bs, w, h, q1, q2));
                assert(false);
            } else if q2.1 * w + q2.0 < q1.1 * w + q1.0 {
                assert(!connected(bs, w, h, q2, q1));
                assert(false);
            } else {
                lemma_rm_injective(q1, q2, w, h);
            }
        }
    }
}

/// Walking join edges toward earlier cells reaches a leader.
proof fn lemma_leader_exists(bs: Seq<bool>, w: int, h: int, c: (int, int))
    requires
        in_grid(w, h, c),
        cell_set(bs, w, c),
    ensures
        exists|q: (int, int)| #[trigger] is_leader(bs, w, h, q) && connected(bs, w, h, q, c),
    decreases c.1 * w + c.0,
{
    if is_leader(bs, w, h, c) {
        lemma_connected_refl(bs, w, h, c);
        assert(is_leader(bs, w, h, c) && connected(bs, w, h, c, c));
    } else {
        let q = choose|q: (int, int)|
            in_grid(w, h, q) && cell_set(bs, w, q) && (#[trigger] (q.1 * w + q.0)) < c.1 * w + c.0
                && connected(bs, w, h, q, c);
        lemma_leader_exists(bs, w, h, q);
        let ql = choose|ql: (int, int)|
            #[trigger] is_leader(bs, w, h, ql) && connected(bs, w, h, ql, q);
        lemma_connected_trans(bs, w, h, ql, q, c);
        assert(is_leader(bs, w, h, ql) && connected(bs, w, h, ql, c));
    }
}

/// The set map of the grid derived from a seed string.
pub open spec fn seed_bits(s: Seq<char>) -> Seq<bool> {
    Seq::new((128 * 128) as nat, |k: int| seed_cell_set(s, k))
}

/// Builds the grid for `input` and counts its 4-connected regions of set
/// cells: the number of set cells that no earlier set cell (in row-major
/// order) is joined to, which is one per region.
pub fn run(input: &str) -> (r: usize)
    requires
        valid_hash_input(input@),
        input@.len() + 4 <= MAX_HASH_INPUT,
    ensures
        r as int == leaders_upto(seed_bits(input@), 128int, 128int, 128int * 128int),
{
    let mut grid = BinGrid::from_seed(input);
    let ghost bs = seed_bits(input@);
    let mut group: usize = 0;
    proof {
        lemma_count_bounds(grid.data@);
        assert(bs =~= set_map(grid.data@));
        assert forall|c: (int, int)| in_grid(128, 128, c) implies !((#[trigger] grid.data@[c.1
            * 128 + c.0].group) is Some) by {
            lemma_rm_index(c.0, c.1, 128, 128);
        }
    }
    let rows = grid.rows();
    let cols = grid.cols();
    assert(rows == 128);
    let mut y: usize = 0;
    while y < 128
        invariant
            grid.wf(),
            grid.width == 128,
            grid.height == 128,
            grid.data@.len() == 128 * 128,
            y <= 128,
            bs == seed_bits(input@),
            bs == set_map(grid.data@),
            labels_closed(grid.data@, 128, 128),
            forall|c: (int, int)|
                in_grid(128, 128, c) ==> ((#[trigger] grid.data@[c.1 * 128 + c.0].group) is Some
                    <==> exists|q: (int, int)|
                    in_grid(128, 128, q) && cell_set(bs, 128, q) && (#[trigger] (q.1 * 128 + q.0))
                        < y * 128 && connected(bs, 128, 128, q, c)),
            group as int == leaders_upto(bs, 128, 128, y * 128),
            group + count_unlabeled(grid.data@) <= 128 * 128,
            count_unlabeled(grid.data@) >= 0,
        decreases 128 - y,
    {
        let mut x: usize = 0;
        while x < 128
            invariant
                grid.wf(),
                grid.width == 128,
                grid.height == 128,
                grid.data@.len() == 128 * 128,
                y < 128,
                x <= 128,
                bs == seed_bits(input@),
                bs == set_map(grid.data@),
                labels_closed(grid.data@, 128, 128),
                forall|c: (int, int)|
                    in_grid(128, 128, c) ==> ((#[trigger] grid.data@[c.1 * 128 + c.0].group)
                        is Some <==> exists|q: (int, int)|
                        in_grid(128, 128, q) && cell_set(bs, 128, q) && (#[trigger] (q.1 * 128
                            + q.0)) < y * 128 + x && connected(bs, 128, 128, q, c)),
                group as int == leaders_upto(bs, 128, 128, y * 128 + x),
                group + count_unlabeled(grid.data@) <= 128 * 128,
                count_unlabeled(grid.data@) >= 0,
            decreases 128 - x,
        {
            let ghost k = (y * 128 + x) as int;
            let ghost ck = (x as int, y as int);
            let ghost d_pre = grid.data@;
            proof {
                lemma_count_bounds(grid.data@);
                lemma_rm_index(x as int, y as int, 128, 128);
                vstd::arithmetic::div_mod::lemma_fundamental_div_mod_converse(
                    k,
                    128,
                    y as int,
                    x as int,
                );
                assert(k % 128 == x as int && k / 128 == y as int);
            }
            let marked = grid.mark_group(x, y, group);
            proof {
                lemma_count_bounds(grid.data@);
                assert(bs =~= set_map(grid.data@));
                if marked {
                    // this cell led a new region
                    assert(cell_set(bs, 128, ck));
                    assert(is_leader(bs, 128, 128, ck)) by {
                        assert(!(d_pre[k].group is Some));
                    }
                    assert(leaders_upto(bs, 128, 128, k + 1) == leaders_upto(bs, 128, 128, k)
                        + 1);
                    assert(count_unlabeled(grid.data@) < count_unlabeled(d_pre));
                    assert forall|c: (int, int)| in_grid(128, 128, c) implies ((
                    #[trigger] grid.data@[c.1 * 128 + c.0].group) is Some <==> exists|q: (
                        int,
                        int,
                    )|
                        in_grid(128, 128, q) && cell_set(bs, 128, q) && (#[trigger] (q.1 * 128
                            + q.0)) < k + 1 && connected(bs, 128, 128, q, c)) by {
                        lemma_rm_index(c.0, c.1, 128, 128);
                        if grid.data@[c.1 * 128 + c.0].group is Some {
                            if d_pre[c.1 * 128 + c.0].group is Some {
                                let q = choose|q: (int, int)|
                                    in_grid(128, 128, q) && cell_set(bs, 128, q) && (q.1 * 128
                                        + q.0) < k && connected(bs, 128, 128, q, c);
                                assert(q.1 * 128 + q.0 < k + 1);
                            } else {
                                assert(connected(bs, 128, 128, ck, c));
                                assert(ck.1 * 128 + ck.0 < k + 1);
                            }
                        } else {
                            if exists|q: (int, int)|
                                in_grid(128, 128, q) && cell_set(bs, 128, q) && (#[trigger] (q.1
                                    * 128 + q.0)) < k + 1 && connected(bs, 128, 128, q, c) {
                                let q = choose|q: (int, int)|
                                    in_grid(128, 128, q) && cell_set(bs, 128, q) && (q.1 * 128
                                        + q.0) < k + 1 && connected(bs, 128, 128, q, c);
                                if q.1 * 128 + q.0 < k {
                                    assert(d_pre[c.1 * 128 + c.0].group is Some);
                                    assert(false);
                                } else {
                                    lemma_rm_injective(q, ck, 128, 128);
                                    assert(q == ck);
                                    assert(grid.data@[c.1 * 128 + c.0].group is Some);
                                    assert(false);
                                }
                            }
                        }
                    }
                } else {
                    assert(grid.data@ == d_pre);
                    assert(!is_leader(bs, 128, 128, ck)) by {
                        if cell_set(bs, 128, ck) {
                            assert(d_pre[k].group is Some);
                            let q = choose|q: (int, int)|
                                in_grid(128, 128, q) && cell_set(bs, 128, q) && (q.1 * 128 + q.0)
                                    < k && connected(bs, 128, 128, q, ck);
                            assert(in_grid(128, 128, q) && cell_set(bs, 128, q) && (q.1 * 128
                                + q.0) < ck.1 * 128 + ck.0 && connected(bs, 128, 128, q, ck));
                        }
                    }
                    assert(leaders_upto(bs, 128, 128, k + 1) == leaders_upto(bs, 128, 128, k));
                    assert forall|c: (int, int)| in_grid(128, 128, c) implies ((
                    #[trigger] grid.data@[c.1 * 128 + c.0].group) is Some <==> exists|q: (
                        int,
                        int,
                    )|
                        in_grid(128, 128, q) && cell_set(bs, 128, q) && (#[trigger] (q.1 * 128
                            + q.0)) < k + 1 && connected(bs, 128, 128, q, c)) by {
                        lemma_rm_index(c.0, c.1, 128, 128);
                        if grid.data@[c.1 * 128 + c.0].group is Some {
                            let q = choose|q: (int, int)|
                                in_grid(128, 128, q) && cell_set(bs, 128, q) && (q.1 * 128 + q.0)
                                    < k && connected(bs, 128, 128, q, c);
                            assert(q.1 * 128 + q.0 < k + 1);
                        } else {
                            if exists|q: (int, int)|
                                in_grid(128, 128, q) && cell_set(bs, 128, q) && (#[trigger] (q.1
                                    * 128 + q.0)) < k + 1 && connected(bs, 128, 128, q, c) {
                                let q = choose|q: (int, int)|
                                    in_grid(128, 128, q) && cell_set(bs, 128, q) && (q.1 * 128
                                        + q.0) < k + 1 && connected(bs, 128, 128, q, c);
                                if q.1 * 128 + q.0 < k {
                                    assert(grid.data@[c.1 * 128 + c.0].group is Some);
                                } else {
                                    lemma_rm_injective(q, ck, 128, 128);
                                    assert(q == ck);
                                    // the current cell is set and already
                                    // labeled, so its region is already
                                    // reachable from an earlier cell
                                    assert(d_pre[k].group is Some);
                                    let q2 = choose|q2: (int, int)|
                                        in_grid(128, 128, q2) && cell_set(bs, 128, q2) && (q2.1
                                            * 128 + q2.0) < k && connected(bs, 128, 128, q2, ck);
                                    lemma_connected_trans(bs, 128, 128, q2, ck, c);
                                    assert(grid.data@[c.1 * 128 + c.0].group is Some);
                                }
                                assert(false);
                            }
                        }
                    }
                }
            }
            if marked {
                group = group + 1;
            }
            x = x + 1;
        }
        y = y + 1;
    }
    group
}

/// Distinct grid positions get distinct row-major indices./// Distinct grid positions get distinct row-major indices.
proof fn lemma_rm_injective(a: (int, int), b: (int, int), w: int, h: int)
    requires
        in_grid(w, h, a),
        in_grid(w, h, b),
        a.1 * w + a.0 == b.1 * w + b.0,
    ensures
        a == b,
{
    vstd::arithmetic::div_mod::lemma_fundamental_div_mod_converse(a.1 * w + a.0, w, a.1, a.0);
    vstd::arithmetic::div_mod::lemma_fundamental_div_mod_converse(b.1 * w + b.0, w, b.1, b.0);
}

/// Row-major positions are in range.
proof fn lemma_rm_index(x: int, y: int, w: int, h: int)
    requires
        0 <= x < w,
        0 <= y < h,
    ensures
        0 <= y * w + x < w * h,
{
    lemma_mul_inequality(y + 1, h, w);
    assert((y + 1) * w == y * w + w) by (nonlinear_arith);
    assert(h * w == w * h) by (nonlinear_arith);
}

} // verus!
