//! A firewall of scanner layers: each scanner bounces up and down its layer's
//! depth, a packet crosses one layer per tick, and the trip severity sums
//! `position * depth` over the layers whose scanner sits on top when the
//! packet passes.

use vstd::prelude::*;
use crate::text::chars_of;
use crate::text::dec_chars;
use crate::text::dec_val;
use crate::text::is_digit;
use crate::text::lemma_dec_val_nonneg;
use crate::text::parse_decimal;
use crate::text::split_ws;
use crate::text::lemma_take_token_range;
use crate::text::is_space;
use crate::text::is_space_exec;

verus! {

/// Which way a scanner is moving.
#[derive(Debug, Clone, Copy, PartialEq)]
pub enum Direction {
    Up,
    Down,
}

/// One scanner: its layer's depth, its position (1 is the top), and its
/// direction.
#[derive(Debug, Clone, PartialEq)]
pub struct Layer {
    pub depth: usize,
    pub cur: usize,
    pub dir: Direction,
}

impl Layer {
    /// The scanner sits on a valid position of a layer deep enough to bounce.
    pub open spec fn wf(&self) -> bool {
        &&& self.depth >= 2
        &&& 1 <= self.cur <= self.depth
    }

    /// A scanner at the top of its layer, moving down.
    pub fn new(depth: usize) -> (l: Layer)
        ensures
            l.depth == depth,
            l.cur == 1,
            l.dir is Down,
            depth >= 2 ==> l.wf(),
    {
        Layer { depth: depth, cur: 1, dir: Direction::Down }
    }

    /// Whether the scanner sits on the top position.
    pub fn at_top(&self) -> (r: bool)
        ensures
            r == (self.cur == 1),
    {
        self.cur == 1
    }

    /// One tick of the scanner's bounce.
    pub fn tick(&mut self)
        requires
            old(self).wf(),
        ensures
            final (self).wf(),
            *final (self) == tick_spec(*old(self)),
    {
        match self.dir {
            Direction::Down => {
                if self.cur == self.depth {
                    self.cur = self.cur - 1;
                    self.dir = Direction::Up;
                } else {
                    self.cur = self.cur + 1;
                }
            },
            Direction::Up => {
                if self.cur == 1 {
                    self.cur = self.cur + 1;
                    self.dir = Direction::Down;
                } else {
                    self.cur = self.cur - 1;
                }
            },
        }
    }
}

/// The scanner state one tick later.
pub open spec fn tick_spec(l: Layer) -> Layer
    recommends
        l.wf(),
{
    match l.dir {
        Direction::Down => {
            if l.cur == l.depth {
                Layer { depth: l.depth, cur: (l.cur - 1) as usize, dir: Direction::Up }
            } else {
                Layer { depth: l.depth, cur: (l.cur + 1) as usize, dir: Direction::Down }
            }
        },
        Direction::Up => {
            if l.cur == 1 {
                Layer { depth: l.depth, cur: (l.cur + 1) as usize, dir: Direction::Down }
            } else {
                Layer { depth: l.depth, cur: (l.cur - 1) as usize, dir: Direction::Up }
            }
        },
    }
}

/// Every present layer has a well-formed scanner.
pub open spec fn layers_wf(ls: Seq<Option<Layer>>) -> bool {
    forall|i: int|
        0 <= i < ls.len() ==> ((#[trigger] ls[i]) matches Some(l) ==> l.wf())
}

/// All scanners one tick later.
pub open spec fn tick_all(ls: Seq<Option<Layer>>) -> Seq<Option<Layer>> {
    ls.map_values(
        |o: Option<Layer>|
            match o {
                Some(l) => Some(tick_spec(l)),
                None => None,
            },
    )
}

/// All scanners `t` ticks later.
pub open spec fn layers_at(ls: Seq<Option<Layer>>, t: nat) -> Seq<Option<Layer>>
    decreases t,
{
    if t == 0 {
        ls
    } else {
        tick_all(layers_at(ls, (t - 1) as nat))
    }
}

/// The severity the packet picks up at position `t`: `t * depth` when layer
/// `t` exists and its scanner is on top as the packet arrives.
pub open spec fn severity_step(ls: Seq<Option<Layer>>, t: int) -> int {
    match layers_at(ls, t as nat)[t] {
        Some(l) => if l.cur == 1 {
            t * l.depth
        } else {
            0
        },
        None => 0,
    }
}

/// The total severity of crossing the first `n` layers.
pub open spec fn total_severity(ls: Seq<Option<Layer>>, n: nat) -> int
    decreases n,
{
    if n == 0 {
        0
    } else {
        total_severity(ls, (n - 1) as nat) + severity_step(ls, n - 1)
    }
}

proof fn lemma_severity_step_nonneg(ls: Seq<Option<Layer>>, t: int)
    requires
        t >= 0,
    ensures
        severity_step(ls, t) >= 0,
{
    match layers_at(ls, t as nat)[t] {
        Some(l) => {
            if l.cur == 1 {
                assert(t * l.depth >= 0) by (nonlinear_arith)
                    requires
                        t >= 0,
                        l.depth >= 0,
                ;
            }
        },
        None => {},
    }
}

proof fn lemma_total_severity_mono(ls: Seq<Option<Layer>>, n: nat, m: nat)
    requires
        n <= m,
    ensures
        total_severity(ls, n) <= total_severity(ls, m),
    decreases m,
{
    if n < m {
        lemma_total_severity_mono(ls, n, (m - 1) as nat);
        lemma_severity_step_nonneg(ls, m - 1);
    }
}

/// The board: the layers, the packet's position if it has entered, the layer
/// currently crossed, and an unused start delay.
pub struct Board {
    pub layers: Vec<Option<Layer>>,
    pub player: Option<usize>,
    pub cur_layer: usize,
    pub delay: usize,
}

impl Board {
    /// A board over the given layers; with a positive delay the packet has
    /// not entered yet.
    pub fn new(layers: Vec<Option<Layer>>, delay: usize) -> (b: Board)
        ensures
            b.layers == layers,
            b.delay == 0,
            b.cur_layer == 0,
            b.player == if delay > 0 {
                Option::<usize>::None
            } else {
                Some(0usize)
            },
    {
        if delay > 0 {
            Board { layers: layers, player: None, cur_layer: 0, delay: 0 }
        } else {
            Board { layers: layers, player: Some(0), cur_layer: 0, delay: 0 }
        }
    }

    /// Ticks every scanner once.
    pub fn tick_layers(&mut self)
        requires
            layers_wf(old(self).layers@),
        ensures
            final (self).layers@ == tick_all(old(self).layers@),
            layers_wf(final (self).layers@),
            final (self).player == old(self).player,
            final (self).cur_layer == old(self).cur_layer,
            final (self).delay == old(self).delay,
    {
        let n = self.layers.len();
        let mut i: usize = 0;
        while i < n
            invariant
                n == self.layers@.len(),
                self.layers@.len() == old(self).layers@.len(),
                i <= n,
                layers_wf(old(self).layers@),
                self.player == old(self).player,
                self.cur_layer == old(self).cur_layer,
                self.delay == old(self).delay,
                forall|k: int|
                    0 <= k < i ==> #[trigger] self.layers@[k] == tick_all(old(self).layers@)[k],
                forall|k: int| i <= k < n ==> #[trigger] self.layers@[k] == old(self).layers@[k],
            decreases n - i,
        {
            let slot = vstd::std_specs::vec::vec_index_mut(&mut self.layers, i);
            if let Some(l) = slot {
                l.tick();
            }
            i = i + 1;
        }
        proof {
            assert(self.layers@ =~= tick_all(old(self).layers@));
        }
    }

    /// Whether the packet has left the far edge of the firewall.
    pub fn is_at_end(&self) -> (r: bool)
        ensures
            r == (self.player matches Some(p) && p == self.layers@.len()),
    {
        match self.player {
            Some(player) => player == self.layers.len(),
            None => false,
        }
    }

    /// The deepest layer.
    pub fn max_depth(&self) -> (r: usize)
        ensures
            r == max_depth_spec(self.layers@, self.layers@.len() as int),
    {
        let mut max: usize = 0;
        let mut i: usize = 0;
        while i < self.layers.len()
            invariant
                i <= self.layers@.len(),
                max == max_depth_spec(self.layers@, i as int),
            decreases self.layers@.len() - i,
        {
            match &self.layers[i] {
                Some(layer) => {
                    if layer.depth > max {
                        max = layer.depth;
                    }
                },
                None => {},
            }
            i = i + 1;
        }
        max
    }

    /// The header row: every layer position, three spaces between entries.
    pub fn number_row(&self) -> (r: String)
        ensures
            r@ == number_row_spec(self.layers@.len() as int),
    {
        let n = self.layers.len();
        let mut cs: Vec<char> = Vec::new();
        let mut i: usize = 0;
        while i < n
            invariant
                i <= n,
                cs@ == number_row_spec(i as int),
            decreases n - i,
        {
            if i > 0 {
                cs.push(' ');
                cs.push(' ');
                cs.push(' ');
            }
            crate::text::push_decimal(&mut cs, i as u64);
            proof {
                assert(cs@ =~= number_row_spec(i + 1));
            }
            i = i + 1;
        }
        crate::text::string_from_chars(&cs)
    }

    /// The drawing of one board cell: the scanner's box on its layer, the
    /// packet's parentheses on the layer being crossed, blanks elsewhere.
    pub fn repr_cell(&self, idx: usize, row: usize, empty_fill: Option<String>) -> (r: String)
        requires
            idx < self.layers@.len(),
            self.layers@[idx as int] matches Some(l) ==> l.cur >= 1,
        ensures
            r@ == repr_cell_spec(
                self.layers@,
                self.cur_layer as int,
                idx as int,
                row as int,
                match empty_fill {
                    Some(s) => Some(s@),
                    None => None,
                },
            ),
    {
        match &self.layers[idx] {
            Some(layer) => {
                if row < layer.depth {
                    let on_scanner = row == layer.cur - 1;
                    if idx == self.cur_layer && row == 0 {
                        if on_scanner {
                            "(S)".to_owned()
                        } else {
                            "( )".to_owned()
                        }
                    } else {
                        if on_scanner {
                            "[S]".to_owned()
                        } else {
                            "[ ]".to_owned()
                        }
                    }
                } else {
                    "   ".to_owned()
                }
            },
            None => {
                if idx == self.cur_layer && row == 0 {
                    "(.)".to_owned()
                } else {
                    match empty_fill {
                        Some(fill) => fill,
                        None => "   ".to_owned(),
                    }
                }
            },
        }
    }

    /// The top row of the board drawing, empty layers drawn as dots.
    pub fn top_layer_row(&self) -> (r: String)
        requires
            forall|i: int|
                0 <= i < self.layers@.len() ==> ((#[trigger] self.layers@[i]) matches Some(l)
                    ==> l.cur >= 1),
        ensures
            r@ == row_join_spec(self.layers@, self.cur_layer as int, 0, Some("..."@),
                self.layers@.len() as int),
    {
        let n = self.layers.len();
        let mut cs: Vec<char> = Vec::new();
        let mut i: usize = 0;
        while i < n
            invariant
                i <= n,
                n == self.layers@.len(),
                forall|k: int|
                    0 <= k < self.layers@.len() ==> ((#[trigger] self.layers@[k]) matches Some(l)
                        ==> l.cur >= 1),
                cs@ == row_join_spec(self.layers@, self.cur_layer as int, 0, Some("..."@),
                    i as int),
            decreases n - i,
        {
            if i > 0 {
                cs.push(' ');
            }
            let cell = self.repr_cell(i, 0, Some("...".to_owned()));
            let cell_cs = crate::text::chars_of(cell.as_str());
            let mut j: usize = 0;
            while j < cell_cs.len()
                invariant
                    j <= cell_cs@.len(),
                    cs@ == row_join_spec(self.layers@, self.cur_layer as int, 0, Some("..."@),
                        i as int) + if i > 0 {
                        seq![' ']
                    } else {
                        Seq::<char>::empty()
                    } + cell_cs@.take(j as int),
                decreases cell_cs@.len() - j,
            {
                cs.push(cell_cs[j]);
                proof {
                    assert(cell_cs@.take(j + 1) =~= cell_cs@.take(j as int).push(
                        cell_cs@[j as int],
                    ));
                }
                j = j + 1;
            }
            proof {
                assert(cell_cs@.take(cell_cs@.len() as int) =~= cell_cs@);
                assert(cs@ =~= row_join_spec(self.layers@, self.cur_layer as int, 0, Some("..."@),
                    i + 1));
            }
            i = i + 1;
        }
        crate::text::string_from_chars(&cs)
    }

    /// One lower row of the board drawing, empty layers left blank.
    pub fn other_row(&self, row: usize) -> (r: String)
        requires
            forall|i: int|
                0 <= i < self.layers@.len() ==> ((#[trigger] self.layers@[i]) matches Some(l)
                    ==> l.cur >= 1),
        ensures
            r@ == row_join_spec(self.layers@, self.cur_layer as int, row as int, None,
                self.layers@.len() as int),
    {
        let n = self.layers.len();
        let mut cs: Vec<char> = Vec::new();
        let mut i: usize = 0;
        while i < n
            invariant
                i <= n,
                n == self.layers@.len(),
                forall|k: int|
                    0 <= k < self.layers@.len() ==> ((#[trigger] self.layers@[k]) matches Some(l)
                        ==> l.cur >= 1),
                cs@ == row_join_spec(self.layers@, self.cur_layer as int, row as int, None,
                    i as int),
            decreases n - i,
        {
            if i > 0 {
                cs.push(' ');
            }
            let cell = self.repr_cell(i, row, None);
            let cell_cs = crate::text::chars_of(cell.as_str());
            let mut j: usize = 0;
            while j < cell_cs.len()
                invariant
                    j <= cell_cs@.len(),
                    cs@ == row_join_spec(self.layers@, self.cur_layer as int, row as int, None,
                        i as int) + if i > 0 {
                        seq![' ']
                    } else {
                        Seq::<char>::empty()
                    } + cell_cs@.take(j as int),
                decreases cell_cs@.len() - j,
            {
                cs.push(cell_cs[j]);
                proof {
                    assert(cell_cs@.take(j + 1) =~= cell_cs@.take(j as int).push(
                        cell_cs@[j as int],
                    ));
                }
                j = j + 1;
            }
            proof {
                assert(cell_cs@.take(cell_cs@.len() as int) =~= cell_cs@);
                assert(cs@ =~= row_join_spec(self.layers@, self.cur_layer as int, row as int, None,
                    i + 1));
            }
            i = i + 1;
        }
        crate::text::string_from_chars(&cs)
    }

    /// Walks the packet across the whole firewall, one layer per tick, and
    /// returns the total severity it picks up.
    pub fn run_to_end(&mut self) -> (r: usize)
        requires
            old(self).player == Some(0usize),
            old(self).layers@.len() >= 1,
            layers_wf(old(self).layers@),
            total_severity(old(self).layers@, old(self).layers@.len() as nat) <= usize::MAX,
        ensures
            r as int == total_severity(old(self).layers@, old(self).layers@.len() as nat),
            final (self).player == Some(old(self).layers@.len() as usize),
    {
        let ghost ls0 = old(self).layers@;
        let ghost n = old(self).layers@.len() as int;
        let nn = self.layers.len();
        let mut severities: Vec<usize> = Vec::new();
        let mut i: usize = 0;
        loop
            invariant_except_break
                self.player == Some(i),
                i < n,
                nn == n,
                n == ls0.len(),
                n >= 1,
                ls0 == old(self).layers@,
                layers_wf(ls0),
                total_severity(ls0, n as nat) <= usize::MAX,
                self.layers@ == layers_at(ls0, i as nat),
                layers_wf(self.layers@),
                self.layers@.len() == n,
                sum_usize(severities@) == total_severity(ls0, i as nat),
                sum_usize(severities@) >= 0,
            ensures
                self.player == Some(i),
                i == n,
                sum_usize(severities@) == total_severity(ls0, n as nat),
                ls0 == old(self).layers@,
            decreases n - i,
        {
            self.cur_layer = i;
            let ghost sev0 = severities@;
            proof {
                lemma_severity_step_nonneg(ls0, i as int);
                lemma_total_severity_mono(ls0, (i + 1) as nat, n as nat);
            }
            match &self.layers[i] {
                Some(layer) => {
                    if layer.at_top() {
                        let s = i * layer.depth;
                        severities.push(s);
                        proof {
                            lemma_sum_usize_push(sev0, s);
                        }
                    }
                },
                None => {},
            }
            match self.player {
                Some(p) => {
                    self.player = Some(p + 1);
                },
                None => {},
            }
            self.tick_layers();
            i = i + 1;
            if self.is_at_end() {
                break ;
            }
        }
        let mut total: usize = 0;
        let mut k: usize = 0;
        proof {
            assert(severities@.take(0) =~= Seq::<usize>::empty());
        }
        while k < severities.len()
            invariant
                k <= severities@.len(),
                total as int == sum_usize(severities@.take(k as int)),
                sum_usize(severities@) == total_severity(ls0, n as nat),
                total_severity(ls0, n as nat) <= usize::MAX,
                n == ls0.len(),
                ls0 == old(self).layers@,
            decreases severities@.len() - k,
        {
            proof {
                assert(severities@.take(k + 1).drop_last() =~= severities@.take(k as int));
                assert(severities@.take(k + 1).last() == severities@[k as int]);
                lemma_sum_usize_prefix(severities@, k + 1);
                lemma_sum_usize_nonneg(severities@.take(k as int));
                lemma_sum_usize_nonneg(severities@.skip(k + 1));
            }
            total = total + severities[k];
            k = k + 1;
        }
        proof {
            assert(severities@.take(severities@.len() as int) =~= severities@);
        }
        total
    }
}

/// The header row of the first `n` positions, three spaces between entries.
pub open spec fn number_row_spec(n: int) -> Seq<char>
    decreases n,
{
    if n <= 0 {
        Seq::empty()
    } else if n == 1 {
        dec_chars(0)
    } else {
        number_row_spec(n - 1) + seq![' ', ' ', ' '] + dec_chars((n - 1) as nat)
    }
}

/// The drawing of one board cell.
pub open spec fn repr_cell_spec(
    ls: Seq<Option<Layer>>,
    cur_layer: int,
    idx: int,
    row: int,
    empty_fill: Option<Seq<char>>,
) -> Seq<char> {
    match ls[idx] {
        Some(layer) => {
            if row < layer.depth {
                let on_scanner = row == layer.cur - 1;
                if idx == cur_layer && row == 0 {
                    if on_scanner {
                        "(S)"@
                    } else {
                        "( )"@
                    }
                } else {
                    if on_scanner {
                        "[S]"@
                    } else {
                        "[ ]"@
                    }
                }
            } else {
                "   "@
            }
        },
        None => {
            if idx == cur_layer && row == 0 {
                "(.)"@
            } else {
                match empty_fill {
                    Some(fill) => fill,
                    None => "   "@,
                }
            }
        },
    }
}

/// The first `n` cell drawings of one row, one space between entries.
pub open spec fn row_join_spec(
    ls: Seq<Option<Layer>>,
    cur_layer: int,
    row: int,
    empty_fill: Option<Seq<char>>,
    n: int,
) -> Seq<char>
    decreases n,
{
    if n <= 0 {
        Seq::empty()
    } else if n == 1 {
        repr_cell_spec(ls, cur_layer, 0, row, empty_fill)
    } else {
        row_join_spec(ls, cur_layer, row, empty_fill, n - 1) + seq![' '] + repr_cell_spec(
            ls,
            cur_layer,
            n - 1,
            row,
            empty_fill,
        )
    }
}

/// The greatest depth among the first `k` layers.
pub open spec fn max_depth_spec(ls: Seq<Option<Layer>>, k: int) -> int
    decreases k,
{
    if k <= 0 {
        0
    } else {
        let p = max_depth_spec(ls, k - 1);
        match ls[k - 1] {
            Some(l) => if l.depth > p {
                l.depth as int
            } else {
                p
            },
            None => p,
        }
    }
}

/// The sum of recorded severities.
pub open spec fn sum_usize(s: Seq<usize>) -> int
    decreases s.len(),
{
    if s.len() == 0 {
        0
    } else {
        sum_usize(s.drop_last()) + s.last()
    }
}

proof fn lemma_sum_usize_push(s: Seq<usize>, v: usize)
    ensures
        sum_usize(s.push(v)) == sum_usize(s) + v,
{
    assert(s.push(v).drop_last() =~= s);
}

proof fn lemma_sum_usize_nonneg(s: Seq<usize>)
    ensures
        sum_usize(s) >= 0,
    decreases s.len(),
{
    if s.len() > 0 {
        lemma_sum_usize_nonneg(s.drop_last());
    }
}

/// A prefix sum plus its remainder is the whole sum.
proof fn lemma_sum_usize_prefix(s: Seq<usize>, j: int)
    requires
        0 <= j <= s.len(),
    ensures
        sum_usize(s.take(j)) + sum_usize(s.skip(j)) == sum_usize(s),
    decreases s.len() - j,
{
    if j == s.len() {
        assert(s.take(j) =~= s);
        assert(s.skip(j) =~= Seq::<usize>::empty());
    } else {
        lemma_sum_usize_prefix(s, j + 1);
        assert(s.take(j + 1).drop_last() =~= s.take(j));
        assert(s.take(j + 1).last() == s[j]);
        assert(s.skip(j) =~= seq![s[j]] + s.skip(j + 1));
        lemma_sum_usize_head(s[j], s.skip(j + 1));
    }
}

proof fn lemma_sum_usize_head(v: usize, rest: Seq<usize>)
    ensures
        sum_usize(seq![v] + rest) == v + sum_usize(rest),
    decreases rest.len(),
{
    if rest.len() == 0 {
        let s1 = seq![v] + rest;
        assert(s1 =~= seq![v]);
        assert(s1.len() == 1);
        assert(s1.last() == v);
        assert(s1.drop_last() =~= Seq::<usize>::empty());
        assert(sum_usize(s1.drop_last()) == 0);
        assert(sum_usize(s1) == sum_usize(s1.drop_last()) + s1.last());
    } else {
        assert((seq![v] + rest).drop_last() =~= seq![v] + rest.drop_last());
        assert((seq![v] + rest).last() == rest.last());
        lemma_sum_usize_head(v, rest.drop_last());
    }
}

/// Pairs of strictly increasing layer positions and bounceable depths, small
/// enough to build and cross.
pub open spec fn pairs_ok(ps: Seq<(int, int)>) -> bool {
    &&& ps.len() >= 1
    &&& forall|k: int| 0 <= k < ps.len() ==> 2 <= (#[trigger] ps[k]).1 <= usize::MAX
    &&& forall|k: int| 0 <= k < ps.len() - 1 ==> (#[trigger] ps[k]).0 < ps[k + 1].0
    &&& forall|k: int| 0 <= k < ps.len() ==> 0 <= (#[trigger] ps[k]).0
    &&& ps[ps.len() - 1].0 < usize::MAX
}

/// The token list of a layer description: per layer one "index:" token and
/// one depth token.
pub open spec fn tokens_ok(toks: Seq<Seq<char>>) -> bool {
    &&& toks.len() % 2 == 0
    &&& forall|k: int|
        0 <= k < toks.len() && k % 2 == 0 ==> {
            &&& (#[trigger] toks[k]).len() >= 2
            &&& toks[k].last() == ':'
            &&& forall|m: int| 0 <= m < toks[k].len() - 1 ==> is_digit(#[trigger] toks[k][m])
            &&& dec_val(toks[k].drop_last()) <= usize::MAX
        }
    &&& forall|k: int|
        0 <= k < toks.len() && k % 2 == 1 ==> {
            &&& (#[trigger] toks[k]).len() >= 1
            &&& (forall|m: int| 0 <= m < toks[k].len() ==> is_digit(#[trigger] toks[k][m]))
            &&& dec_val(toks[k]) <= usize::MAX
        }
}

/// The (position, depth) pairs described by a token list.
pub open spec fn pairs_of(toks: Seq<Seq<char>>) -> Seq<(int, int)> {
    Seq::new((toks.len() / 2) as nat, |k: int| (dec_val(toks[2 * k].drop_last()), dec_val(toks[2 * k + 1])))
}

/// The depth at position `i`, if any pair gives one.
pub open spec fn find_depth(ps: Seq<(int, int)>, i: int) -> Option<int>
    decreases ps.len(),
{
    if ps.len() == 0 {
        None
    } else if ps[0].0 == i {
        Some(ps[0].1)
    } else {
        find_depth(ps.drop_first(), i)
    }
}

/// The layer row a pair list describes: one slot per position up to the last
/// listed one.
pub open spec fn layers_of(ps: Seq<(int, int)>) -> Seq<Option<Layer>>
    recommends
        pairs_ok(ps),
{
    Seq::new(
        (ps[ps.len() - 1].0 + 1) as nat,
        |i: int|
            match find_depth(ps, i) {
                Some(d) => Some(Layer { depth: d as usize, cur: 1, dir: Direction::Down }),
                None => None,
            },
    )
}

/// Reads a firewall description ("position: depth" per line) and returns the
/// severity of crossing it at once.
#[verifier::rlimit(50)]
pub fn run(input: &str) -> (r: usize)
    requires
        tokens_ok(split_ws(input@)),
        pairs_ok(pairs_of(split_ws(input@))),
        total_severity(
            layers_of(pairs_of(split_ws(input@))),
            layers_of(pairs_of(split_ws(input@))).len() as nat,
        ) <= usize::MAX,
    ensures
        r as int == total_severity(
            layers_of(pairs_of(split_ws(input@))),
            layers_of(pairs_of(split_ws(input@))).len() as nat,
        ),
{
    let ghost toks = split_ws(input@);
    let ghost ps = pairs_of(toks);
    let pairs = parse_pairs(input);
    let last = pairs[pairs.len() - 1];
    let max_idx = last.0;
    let mut layers: Vec<Option<Layer>> = Vec::new();
    let mut cur_idx: usize = 0;
    let mut i: usize = 0;
    while i < max_idx + 1
        invariant
            pairs@.len() == ps.len(),
            forall|k: int|
                0 <= k < ps.len() ==> ((#[trigger] pairs@[k]).0 as int, pairs@[k].1 as int)
                    == ps[k],
            pairs_ok(ps),
            max_idx as int == ps[ps.len() - 1].0,
            max_idx < usize::MAX,
            i <= max_idx + 1,
            cur_idx <= ps.len(),
            layers@.len() == i,
            cur_idx < ps.len() ==> i <= ps[cur_idx as int].0,
            cur_idx > 0 ==> ps[cur_idx - 1].0 < i,
            cur_idx == ps.len() ==> i > max_idx,
            forall|k: int| 0 <= k < i ==> #[trigger] layers@[k] == layers_of(ps)[k],
        decreases max_idx + 1 - i,
    {
        proof {
            assert forall|k: int| 0 <= k < cur_idx implies (#[trigger] ps[k]).0 < i by {
                lemma_pairs_sorted(ps, k, cur_idx - 1);
            }
            lemma_find_depth_at(ps, cur_idx as int, i as int);
        }
        if cur_idx < pairs.len() && pairs[cur_idx].0 == i {
            layers.push(Some(Layer::new(pairs[cur_idx].1)));
            cur_idx = cur_idx + 1;
            proof {
                if cur_idx < ps.len() {
                    lemma_pairs_sorted(ps, cur_idx - 1, cur_idx as int);
                }
            }
        } else {
            layers.push(None);
        }
        i = i + 1;
    }
    proof {
        assert(layers@ =~= layers_of(ps));
        assert forall|k: int|
            0 <= k < layers@.len() implies ((#[trigger] layers@[k]) matches Some(l)
            ==> l.wf()) by {
            if find_depth(ps, k) is Some {
                lemma_find_depth_in(ps, k);
            }
        }
    }
    let mut board = Board::new(layers, 0);
    let cost = board.run_to_end();
    cost
}

/// Sortedness lets any two listed positions be compared.
proof fn lemma_pairs_sorted(ps: Seq<(int, int)>, a: int, b: int)
    requires
        forall|k: int| 0 <= k < ps.len() - 1 ==> (#[trigger] ps[k]).0 < ps[k + 1].0,
        0 <= a <= b < ps.len(),
    ensures
        a < b ==> ps[a].0 < ps[b].0,
    decreases b - a,
{
    if a < b {
        lemma_pairs_sorted(ps, a, b - 1);
        assert(ps[b - 1].0 < ps[b].0);
    }
}

/// Positions listed before `cur_idx` lie below `i`, so a search for `i`
/// settles at `cur_idx`.
proof fn lemma_find_depth_at(ps: Seq<(int, int)>, cur_idx: int, i: int)
    requires
        forall|k: int| 0 <= k < ps.len() - 1 ==> (#[trigger] ps[k]).0 < ps[k + 1].0,
        0 <= cur_idx <= ps.len(),
        forall|k: int| 0 <= k < cur_idx ==> (#[trigger] ps[k]).0 < i,
        cur_idx < ps.len() ==> i <= ps[cur_idx].0,
    ensures
        find_depth(ps, i) == if cur_idx < ps.len() && ps[cur_idx].0 == i {
            Some(ps[cur_idx].1)
        } else {
            Option::<int>::None
        },
    decreases ps.len(),
{
    if ps.len() == 0 {
    } else if cur_idx == 0 {
        if ps[0].0 == i {
        } else {
            assert forall|k: int| 0 <= k < ps.len() implies i < (#[trigger] ps[k]).0 by {
                lemma_pairs_sorted(ps, 0, k);
            }
            lemma_find_depth_none(ps, i);
        }
    } else {
        assert(ps[0].0 < i);
        let tail = ps.drop_first();
        assert forall|k: int| 0 <= k < tail.len() - 1 implies (#[trigger] tail[k]).0 < tail[k
            + 1].0 by {
            assert(tail[k] == ps[k + 1]);
            assert(tail[k + 1] == ps[k + 2]);
        }
        assert forall|k: int| 0 <= k < cur_idx - 1 implies (#[trigger] tail[k]).0 < i by {
            assert(tail[k] == ps[k + 1]);
        }
        if cur_idx - 1 < tail.len() {
            assert(tail[cur_idx - 1] == ps[cur_idx]);
        }
        lemma_find_depth_at(tail, cur_idx - 1, i);
    }
}

/// A found depth belongs to one of the listed pairs.
proof fn lemma_find_depth_in(ps: Seq<(int, int)>, i: int)
    requires
        find_depth(ps, i) is Some,
    ensures
        exists|k: int|
            0 <= k < ps.len() && (#[trigger] ps[k]).0 == i && ps[k].1 == find_depth(
                ps,
                i,
            ).unwrap(),
    decreases ps.len(),
{
    if ps.len() > 0 && ps[0].0 != i {
        lemma_find_depth_in(ps.drop_first(), i);
        let k = choose|k: int|
            0 <= k < ps.drop_first().len() && (#[trigger] ps.drop_first()[k]).0 == i
                && ps.drop_first()[k].1 == find_depth(ps.drop_first(), i).unwrap();
        assert(ps[k + 1] == ps.drop_first()[k]);
    }
}

/// No listed position equals `i` when they are all above it.
proof fn lemma_find_depth_none(ps: Seq<(int, int)>, i: int)
    requires
        forall|k: int| 0 <= k < ps.len() ==> i < (#[trigger] ps[k]).0,
    ensures
        find_depth(ps, i) is None,
    decreases ps.len(),
{
    if ps.len() > 0 {
        lemma_find_depth_none(ps.drop_first(), i);
    }
}

/// Reads the "position: depth" pairs out of a firewall description.
pub fn parse_pairs(input: &str) -> (r: Vec<(usize, usize)>)
    requires
        tokens_ok(split_ws(input@)),
    ensures
        r@.len() == pairs_of(split_ws(input@)).len(),
        forall|k: int|
            0 <= k < r@.len() ==> ((#[trigger] r@[k]).0 as int, r@[k].1 as int) == pairs_of(
                split_ws(input@),
            )[k],
{
    let ghost toks = split_ws(input@);
    let ghost ps = pairs_of(toks);
    let cs = chars_of(input);
    let n = cs.len();
    let mut raw: Vec<Vec<char>> = Vec::new();
    proof {
        assert(cs@.skip(0) =~= cs@);
        assert(toks.skip(0) =~= toks);
    }
    let mut i: usize = 0;
    while i < n
        invariant
            cs@ == input@,
            n == cs@.len(),
            i <= n,
            toks == split_ws(input@),
            raw@.len() <= toks.len(),
            split_ws(cs@.skip(i as int)) == toks.skip(raw@.len() as int),
            forall|k: int| 0 <= k < raw@.len() ==> (#[trigger] raw@[k])@ == toks[k],
        decreases n - i,
    {
        let c = cs[i];
        if is_space_exec(c) {
            proof {
                assert(cs@.skip(i as int).drop_first() =~= cs@.skip(i + 1));
            }
            i = i + 1;
        } else {
            let start = i;
            let mut j: usize = i + 1;
            while j < n && !is_space_exec(cs[j])
                invariant
                    cs@ == input@,
                    n == cs@.len(),
                    start < j <= n,
                    forall|m: int| start <= m < j ==> !is_space(#[trigger] cs@[m]),
                decreases n - j,
            {
                j = j + 1;
            }
            let ghost tok = cs@.subrange(start as int, j as int);
            proof {
                lemma_take_token_range(cs@, start as int, j as int);
                assert(cs@.skip(start as int).skip(j - start) =~= cs@.skip(j as int));
                assert(split_ws(cs@.skip(start as int)) == seq![tok] + split_ws(
                    cs@.skip(j as int),
                ));
                assert(toks.skip(raw@.len() as int)[0] == tok);
                assert(toks.skip(raw@.len() as int).len() >= 1);
                assert(raw@.len() < toks.len());
                assert(toks[raw@.len() as int] == tok);
            }
            let mut t: Vec<char> = Vec::new();
            let mut m: usize = start;
            while m < j
                invariant
                    start <= m <= j <= cs@.len(),
                    cs@ == input@,
                    t@ =~= cs@.subrange(start as int, m as int),
                decreases j - m,
            {
                t.push(cs[m]);
                m = m + 1;
            }
            proof {
                assert(t@ =~= tok);
            }
            raw.push(t);
            proof {
                assert(toks.skip(raw@.len() - 1).drop_first() =~= toks.skip(raw@.len() as int));
                assert((seq![tok] + split_ws(cs@.skip(j as int))).drop_first() =~= split_ws(
                    cs@.skip(j as int),
                ));
            }
            i = j;
        }
    }
    proof {
        assert(cs@.skip(n as int) =~= Seq::<char>::empty());
        assert(toks.skip(raw@.len() as int).len() == 0);
        assert(raw@.len() == toks.len());
    }
    let mut r: Vec<(usize, usize)> = Vec::new();
    let mut k: usize = 0;
    while k + 1 < raw.len()
        invariant
            raw@.len() == toks.len(),
            toks == split_ws(input@),
            tokens_ok(toks),
            ps == pairs_of(toks),
            forall|kk: int| 0 <= kk < raw@.len() ==> (#[trigger] raw@[kk])@ == toks[kk],
            k % 2 == 0,
            k <= raw@.len() + 1,
            r@.len() == k / 2,
            forall|kk: int|
                0 <= kk < r@.len() ==> ((#[trigger] r@[kk]).0 as int, r@[kk].1 as int) == ps[kk],
        decreases raw@.len() - k,
    {
        let left = &raw[k];
        let right = &raw[k + 1];
        proof {
            assert(left@ == toks[k as int]);
            assert(right@ == toks[k + 1]);
            assert(left@.len() >= 2 && left@.last() == ':');
            assert(left@.subrange(0, left@.len() - 1) =~= left@.drop_last());
            assert(forall|m: int|
                0 <= m < left@.len() - 1 ==> is_digit(#[trigger] left@.subrange(
                    0,
                    left@.len() - 1,
                )[m]));
            assert(right@.subrange(0, right@.len() as int) =~= right@);
            lemma_dec_val_nonneg(left@.drop_last());
            lemma_dec_val_nonneg(right@);
        }
        let lv = parse_decimal(left, 0, left.len() - 1);
        let rv = parse_decimal(right, 0, right.len());
        r.push((lv as usize, rv as usize));
        proof {
            assert(ps[r@.len() - 1] == (dec_val(toks[2 * (r@.len() - 1)].drop_last()), dec_val(
                toks[2 * (r@.len() - 1) + 1],
            )));
        }
        k = k + 2;
    }
    proof {
        assert(k >= raw@.len());
        assert(r@.len() == toks.len() / 2);
    }
    r
}

} // verus!
