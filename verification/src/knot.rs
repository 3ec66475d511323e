//! The circular buffer underlying the knot hash, and the full hash pipeline:
//! a cursor/skip-driven wrapping reversal primitive, 64 rounds of
//! length-driven reversals, a block-wise XOR reduction to 16 bytes, and hex
//! rendering.

use vstd::prelude::*;
use vstd::arithmetic::div_mod::lemma_small_mod;
use vstd::arithmetic::div_mod::lemma_mod_division_less_than_divisor;
use vstd::arithmetic::div_mod::lemma_mod_add_multiples_vanish;
use vstd::seq_lib::*;
use crate::text::string_from_chars;

verus! {

/// Largest input length (in characters) the hash pipeline accepts; keeps the
/// skip counter far from usize overflow even on 32-bit targets.
pub const MAX_HASH_INPUT: usize = 0x0010_0000;

/// `x % n` when `x` is already in range.
proof fn lemma_mod_id(x: int, n: int)
    requires
        0 <= x < n,
    ensures
        x % n == x,
{
    lemma_small_mod(x as nat, n as nat);
}

/// `x % n` for `x` one wrap beyond the range.
proof fn lemma_mod_wrap(x: int, n: int)
    requires
        n <= x < 2 * n,
    ensures
        x % n == x - n,
{
    lemma_mod_add_multiples_vanish(x - n, n);
    lemma_small_mod((x - n) as nat, n as nat);
}

/// The circular offset of position `j` from cursor `c`.
proof fn lemma_offset(j: int, c: int, n: int)
    requires
        0 <= j < n,
        0 <= c < n,
    ensures
        (j - c) % n == if j >= c {
            j - c
        } else {
            j - c + n
        },
{
    if j >= c {
        lemma_mod_id(j - c, n);
    } else {
        lemma_mod_add_multiples_vanish(j - c, n);
        lemma_mod_id(j - c + n, n);
    }
}

/// The position `m` steps past the cursor, wrapping once at most.
proof fn lemma_cursor_plus(c: int, m: int, n: int)
    requires
        0 <= c < n,
        0 <= m < n,
    ensures
        (c + m) % n == if c + m < n {
            c + m
        } else {
            c + m - n
        },
{
    if c + m < n {
        lemma_mod_id(c + m, n);
    } else {
        lemma_mod_wrap(c + m, n);
    }
}

/// The buffer after reversing a window of `len` consecutive elements that
/// starts at `cur` and wraps past the end: position `cur + o` (mod `n`) of the
/// result, for `0 <= o < len`, holds what position `cur + len - 1 - o` (mod
/// `n`) held before; every position outside the window is unchanged.
pub open spec fn knot_reverse(s: Seq<i64>, cur: int, len: int) -> Seq<i64> {
    Seq::new(
        s.len(),
        |j: int|
            {
                let n = s.len() as int;
                let o = (j - cur) % n;
                if o < len {
                    s[(cur + (len - 1 - o)) % n]
                } else {
                    s[j]
                }
            },
    )
}

/// One full knot operation on a (buffer, cursor, skip) state: reverse the
/// window, advance the cursor by `len + skip` modulo the buffer length, and
/// increment skip.
pub open spec fn knot_apply(t: (Seq<i64>, int, int), len: int) -> (Seq<i64>, int, int) {
    (knot_reverse(t.0, t.1, len), (t.1 + len + t.2) % (t.0.len() as int), t.2 + 1)
}

/// One pass over a whole list of lengths.
pub open spec fn knot_round(t: (Seq<i64>, int, int), lengths: Seq<int>) -> (Seq<i64>, int, int)
    decreases lengths.len(),
{
    if lengths.len() == 0 {
        t
    } else {
        knot_round(knot_apply(t, lengths[0]), lengths.drop_first())
    }
}

/// `r` passes over the same list of lengths, cursor and skip carried across.
pub open spec fn knot_rounds(t: (Seq<i64>, int, int), lengths: Seq<int>, r: nat) -> (
    Seq<i64>,
    int,
    int,
)
    decreases r,
{
    if r == 0 {
        t
    } else {
        knot_round(knot_rounds(t, lengths, (r - 1) as nat), lengths)
    }
}

/// The reversal lengths derived from an input string: one length per
/// character (its code point) followed by the fixed suffix.
pub open spec fn suffix_lengths() -> Seq<int> {
    seq![17int, 31int, 73int, 47int, 23int]
}

/// All lengths of one round for the given input.
pub open spec fn lengths_spec(s: Seq<char>) -> Seq<int> {
    s.map_values(|c: char| (c as u32) as int) + suffix_lengths()
}

/// Every character codes a reversal length that fits a 256-slot buffer.
pub open spec fn valid_hash_input(s: Seq<char>) -> bool {
    forall|i: int| 0 <= i < s.len() ==> (#[trigger] s[i]) as u32 <= 256
}

/// Left fold of XOR over a block, starting from zero.
pub open spec fn xor_fold(s: Seq<i64>) -> i64
    decreases s.len(),
{
    if s.len() == 0 {
        0
    } else {
        xor_fold(s.drop_last()) ^ s.last()
    }
}

/// The 16-byte dense hash: each entry the XOR fold of one contiguous
/// 16-element block of a 256-element buffer.
pub open spec fn dense_spec(s: Seq<i64>) -> Seq<i64> {
    Seq::new(16, |i: int| xor_fold(s.subrange(16 * i, 16 * i + 16)))
}

/// The character for one hex digit, lowercase.
pub open spec fn hex_digit_char(d: int) -> char {
    if d == 0 {
        '0'
    } else if d == 1 {
        '1'
    } else if d == 2 {
        '2'
    } else if d == 3 {
        '3'
    } else if d == 4 {
        '4'
    } else if d == 5 {
        '5'
    } else if d == 6 {
        '6'
    } else if d == 7 {
        '7'
    } else if d == 8 {
        '8'
    } else if d == 9 {
        '9'
    } else if d == 10 {
        'a'
    } else if d == 11 {
        'b'
    } else if d == 12 {
        'c'
    } else if d == 13 {
        'd'
    } else if d == 14 {
        'e'
    } else {
        'f'
    }
}

/// Two hex digits for one byte value, high digit first.
pub open spec fn hex_pair(v: int) -> Seq<char> {
    seq![hex_digit_char(v / 16), hex_digit_char(v % 16)]
}

/// The hex rendering of a dense hash, two digits per byte, in block order.
pub open spec fn hex_chars(d: Seq<i64>) -> Seq<char>
    decreases d.len(),
{
    if d.len() == 0 {
        Seq::empty()
    } else {
        hex_chars(d.drop_last()) + hex_pair(d.last() as int)
    }
}

/// The fresh 256-element buffer 0..255 with cursor and skip at zero.
pub open spec fn init_state() -> (Seq<i64>, int, int) {
    (Seq::new(256, |i: int| i as i64), 0, 0)
}

/// The 32-character hex digest of the full knot hash of `s`.
pub open spec fn spec_knot_hash(s: Seq<char>) -> Seq<char> {
    hex_chars(dense_spec(knot_rounds(init_state(), lengths_spec(s), 64).0))
}

/// The circular buffer: a fixed population of values reordered in place, a
/// cursor, and a skip counter that only grows.
#[derive(Debug)]
pub struct List {
    pub curr: usize,
    pub skip_size: usize,
    pub list: Vec<i64>,
}

impl List {
    /// The cursor is in range and the buffer is small enough that index
    /// arithmetic cannot overflow.
    pub open spec fn wf(&self) -> bool {
        &&& self.list@.len() > 0 ==> self.curr < self.list@.len()
        &&& self.list@.len() == 0 ==> self.curr == 0
        &&& self.list@.len() <= 0x7fff_ffff
    }

    /// The (buffer, cursor, skip) state as a mathematical triple.
    pub open spec fn state(&self) -> (Seq<i64>, int, int) {
        (self.list@, self.curr as int, self.skip_size as int)
    }

    /// The standard 256-element buffer holding 0..255 in order.
    pub fn new() -> (r: List)
        ensures
            r.state() == init_state(),
            r.wf(),
    {
        let mut v: Vec<i64> = Vec::new();
        let mut i: usize = 0;
        while i < 256
            invariant
                i <= 256,
                v@ =~= Seq::new(i as nat, |k: int| k as i64),
            decreases 256 - i,
        {
            v.push(i as i64);
            i = i + 1;
        }
        assert(v@ =~= Seq::new(256, |k: int| k as i64));
        List::with_list(v)
    }

    /// A buffer over the given values, cursor and skip at zero.
    pub fn with_list(s: Vec<i64>) -> (r: List)
        requires
            s@.len() <= 0x7fff_ffff,
        ensures
            r.state() == (s@, 0int, 0int),
            r.wf(),
    {
        List { curr: 0, skip_size: 0, list: s }
    }

    /// The wrapping arm of the reversal: the window runs past the end of the
    /// buffer and continues from the front.
    pub fn step_wrap(&mut self, len: usize) -> (r: Result<(), ()>)
        requires
            old(self).wf(),
            old(self).list@.len() > 0,
            len <= old(self).list@.len(),
            old(self).curr + len > old(self).list@.len(),
        ensures
            final (self).list@ == knot_reverse(old(self).list@, old(self).curr as int, len as int),
            final (self).curr == old(self).curr,
            final (self).skip_size == old(self).skip_size,
            final (self).wf(),
            r is Ok,
    {
        let ghost s0 = self.list@;
        let ghost c = self.curr as int;
        let ghost n = self.list@.len() as int;
        let nn = self.list.len();
        let pivot = nn - self.curr;
        let left_len = len - pivot;
        // the window, read off in circular order
        let mut v: Vec<i64> = Vec::new();
        let mut i: usize = 0;
        while i < pivot
            invariant
                self == old(self),
                pivot == n - c,
                nn == n,
                n == self.list@.len(),
                self.curr == c,
                c < n,
                i <= pivot,
                v@.len() == i,
                forall|m: int| 0 <= m < i ==> v@[m] == self.list@[c + m],
            decreases pivot - i,
        {
            v.push(self.list[self.curr + i]);
            i = i + 1;
        }
        let mut i2: usize = 0;
        while i2 < left_len
            invariant
                self == old(self),
                pivot == n - c,
                left_len == len - pivot,
                len <= n,
                nn == n,
                n == self.list@.len(),
                self.curr == c,
                c < n,
                i2 <= left_len,
                v@.len() == pivot + i2,
                forall|m: int| 0 <= m < pivot ==> v@[m] == self.list@[c + m],
                forall|m: int| pivot <= m < pivot + i2 ==> v@[m] == self.list@[m - pivot],
            decreases left_len - i2,
        {
            v.push(self.list[i2]);
            i2 = i2 + 1;
        }
        assert(forall|m: int|
            0 <= m < len ==> #[trigger] v@[m] == s0[(c + m) % n]) by {
            assert forall|m: int| 0 <= m < len implies #[trigger] v@[m] == s0[(c + m) % n] by {
                if m < pivot {
                    lemma_mod_id(c + m, n);
                } else {
                    lemma_mod_wrap(c + m, n);
                }
            }
        }
        // the window reversed
        let mut w: Vec<i64> = Vec::new();
        let mut k: usize = 0;
        while k < len
            invariant
                k <= len,
                len == v@.len(),
                w@.len() == k,
                forall|m: int| 0 <= m < len ==> #[trigger] v@[m] == s0[(c + m) % n],
                forall|m: int| 0 <= m < k ==> w@[m] == v@[len - 1 - m],
            decreases len - k,
        {
            w.push(v[len - 1 - k]);
            k = k + 1;
        }
        assert forall|m: int| 0 <= m < len implies #[trigger] w@[m] == s0[(c + (len - 1 - m))
            % n] by {
            assert(w@[m] == v@[len - 1 - m]);
        }
        // write the reversed window back, split at the wrap point
        let mut a: usize = 0;
        while a < pivot
            invariant
                pivot == n - c,
                left_len == len - pivot,
                len <= n,
                0 < len,
                len == w@.len(),
                nn == n,
                n == self.list@.len(),
                self.curr == c,
                self.skip_size == old(self).skip_size,
                c < n,
                a <= pivot,
                forall|m: int| 0 <= m < len ==> #[trigger] w@[m] == s0[(c + (len - 1 - m)) % n],
                forall|j: int| 0 <= j < c ==> self.list@[j] == s0[j],
                forall|j: int| c <= j < c + a ==> self.list@[j] == w@[j - c],
                forall|j: int| c + a <= j < n ==> self.list@[j] == s0[j],
            decreases pivot - a,
        {
            let idx = self.curr + a;
            self.list[idx] = w[a];
            a = a + 1;
        }
        let mut b2: usize = 0;
        while b2 < left_len
            invariant
                pivot == n - c,
                left_len == len - pivot,
                left_len <= c,
                len <= n,
                0 < len,
                len == w@.len(),
                nn == n,
                n == self.list@.len(),
                self.curr == c,
                self.skip_size == old(self).skip_size,
                c < n,
                b2 <= left_len,
                forall|m: int| 0 <= m < len ==> #[trigger] w@[m] == s0[(c + (len - 1 - m)) % n],
                forall|j: int| 0 <= j < b2 ==> self.list@[j] == w@[pivot + j],
                forall|j: int| b2 <= j < c ==> self.list@[j] == s0[j],
                forall|j: int| c <= j < n ==> self.list@[j] == w@[j - c],
            decreases left_len - b2,
        {
            self.list[b2] = w[pivot + b2];
            b2 = b2 + 1;
        }
        proof {
            assert forall|j: int| 0 <= j < n implies self.list@[j] == knot_reverse(s0, c, len as int)[j] by {
                lemma_offset(j, c, n);
                let o = (j - c) % n;
                if j >= c {
                    assert(o == j - c);
                    assert(o < len);
                    assert(self.list@[j] == w@[o]);
                } else if j < left_len {
                    assert(o == j - c + n);
                    assert(o == pivot + j);
                    assert(o < len);
                    assert(self.list@[j] == w@[pivot + j]);
                } else {
                    assert(o == j - c + n);
                    assert(o >= len);
                    assert(self.list@[j] == s0[j]);
                }
            }
            assert(self.list@ =~= knot_reverse(s0, c, len as int));
        }
        Ok(())
    }

    /// Reverses `len` consecutive elements starting at the cursor, wrapping
    /// past the end of the buffer; a no-op for lengths 0 and 1.  Leaves the
    /// cursor and skip counter untouched.
    pub fn step(&mut self, len: usize) -> (r: Result<(), ()>)
        requires
            old(self).wf(),
            len <= old(self).list@.len(),
        ensures
            final (self).list@ == knot_reverse(old(self).list@, old(self).curr as int, len as int),
            final (self).curr == old(self).curr,
            final (self).skip_size == old(self).skip_size,
            final (self).wf(),
            r is Ok,
    {
        let ghost s0 = self.list@;
        let ghost c = self.curr as int;
        let ghost n = self.list@.len() as int;
        let nn = self.list.len();
        if len == 0 || len == 1 {
            proof {
                if n > 0 {
                    assert forall|j: int| 0 <= j < n implies s0[j] == knot_reverse(
                        s0,
                        c,
                        len as int,
                    )[j] by {
                        lemma_offset(j, c, n);
                        let o = (j - c) % n;
                        if o < len {
                            assert(len == 1);
                            assert(o == 0);
                            assert(j == c);
                            lemma_mod_id(c, n);
                        }
                    }
                }
                assert(s0 =~= knot_reverse(s0, c, len as int));
            }
            return Ok(());
        }

        if len + self.curr > self.list.len() {
            let r = self.step_wrap(len);
            r
        } else {
            // the window lies in one piece: reverse it in place
            let mut v: Vec<i64> = Vec::new();
            let mut i: usize = 0;
            while i < len
                invariant
                    self == old(self),
                    nn == n,
                    n == self.list@.len(),
                    self.curr == c,
                    c + len <= n,
                    i <= len,
                    v@.len() == i,
                    forall|m: int| 0 <= m < i ==> v@[m] == self.list@[c + m],
                decreases len - i,
            {
                v.push(self.list[self.curr + i]);
                i = i + 1;
            }
            let mut a: usize = 0;
            while a < len
                invariant
                    nn == n,
                    n == self.list@.len(),
                    self.curr == c,
                    self.skip_size == old(self).skip_size,
                    c + len <= n,
                    0 < len,
                    a <= len,
                    v@.len() == len,
                    forall|m: int| 0 <= m < len ==> v@[m] == s0[c + m],
                    forall|j: int| 0 <= j < c ==> self.list@[j] == s0[j],
                    forall|j: int| c <= j < c + a ==> self.list@[j] == v@[len - 1 - (j - c)],
                    forall|j: int| c + a <= j < n ==> self.list@[j] == s0[j],
                decreases len - a,
            {
                let idx = self.curr + a;
                self.list[idx] = v[len - 1 - a];
                a = a + 1;
            }
            proof {
                assert forall|j: int| 0 <= j < n implies self.list@[j] == knot_reverse(
                    s0,
                    c,
                    len as int,
                )[j] by {
                    lemma_offset(j, c, n);
                    let o = (j - c) % n;
                    if c <= j < c + len {
                        assert(o == j - c);
                        assert(o < len);
                        lemma_mod_id(c + (len - 1 - o), n);
                        assert(self.list@[j] == v@[len - 1 - o]);
                        assert(v@[len - 1 - o] == s0[c + (len - 1 - o)]);
                    } else if j >= c + len {
                        assert(o == j - c);
                        assert(o >= len);
                    } else {
                        assert(o == j - c + n);
                        assert(o >= len);
                    }
                }
                assert(self.list@ =~= knot_reverse(s0, c, len as int));
            }
            Ok(())
        }
    }
}

/// A reversal only rearranges values, so elementwise bounds survive it.
pub proof fn lemma_knot_reverse_bounds(s: Seq<i64>, cur: int, len: int, lo: i64, hi: i64)
    requires
        forall|i: int| 0 <= i < s.len() ==> lo <= #[trigger] s[i] <= hi,
    ensures
        forall|j: int|
            0 <= j < s.len() ==> lo <= #[trigger] knot_reverse(s, cur, len)[j] <= hi,
{
    let n = s.len() as int;
    assert forall|j: int| 0 <= j < s.len() implies lo <= #[trigger] knot_reverse(s, cur, len)[j]
        <= hi by {
        lemma_mod_division_less_than_divisor(j - cur, n);
        let o = (j - cur) % n;
        if o < len {
            lemma_mod_division_less_than_divisor(cur + (len - 1 - o), n);
        }
    }
}

/// Shape facts carried through one pass: the buffer keeps its length and its
/// elementwise bounds, the cursor stays in range, and the skip counter grows
/// by exactly the number of lengths applied.
pub proof fn lemma_knot_round_props(t: (Seq<i64>, int, int), lengths: Seq<int>, lo: i64, hi: i64)
    requires
        t.0.len() > 0,
        0 <= t.1 < t.0.len(),
        forall|i: int| 0 <= i < t.0.len() ==> lo <= #[trigger] t.0[i] <= hi,
    ensures
        knot_round(t, lengths).0.len() == t.0.len(),
        0 <= knot_round(t, lengths).1 < t.0.len(),
        knot_round(t, lengths).2 == t.2 + lengths.len(),
        forall|i: int|
            0 <= i < t.0.len() ==> lo <= #[trigger] knot_round(t, lengths).0[i] <= hi,
    decreases lengths.len(),
{
    if lengths.len() == 0 {
    } else {
        let u = knot_apply(t, lengths[0]);
        lemma_knot_reverse_bounds(t.0, t.1, lengths[0], lo, hi);
        lemma_mod_division_less_than_divisor(t.1 + lengths[0] + t.2, t.0.len() as int);
        lemma_knot_round_props(u, lengths.drop_first(), lo, hi);
    }
}

/// XOR of two bytes is a byte.
proof fn lemma_xor_byte(a: i64, b: i64)
    requires
        0 <= a < 256,
        0 <= b < 256,
    ensures
        0 <= (a ^ b) < 256,
{
    assert(0 <= a < 256 && 0 <= b < 256 ==> 0 <= (a ^ b) < 256) by (bit_vector);
}

/// An XOR fold of bytes is a byte.
pub proof fn lemma_xor_fold_bounds(s: Seq<i64>)
    requires
        forall|i: int| 0 <= i < s.len() ==> 0 <= #[trigger] s[i] < 256,
    ensures
        0 <= xor_fold(s) < 256,
    decreases s.len(),
{
    if s.len() == 0 {
    } else {
        lemma_xor_fold_bounds(s.drop_last());
        lemma_xor_byte(xor_fold(s.drop_last()), s.last());
    }
}

/// Every entry of a dense hash of a byte buffer is a byte.
pub proof fn lemma_dense_bounds(s: Seq<i64>)
    requires
        s.len() == 256,
        forall|i: int| 0 <= i < s.len() ==> 0 <= #[trigger] s[i] < 256,
    ensures
        forall|i: int| 0 <= i < 16 ==> 0 <= #[trigger] dense_spec(s)[i] < 256,
{
    assert forall|i: int| 0 <= i < 16 implies 0 <= #[trigger] dense_spec(s)[i] < 256 by {
        lemma_xor_fold_bounds(s.subrange(16 * i, 16 * i + 16));
    }
}

/// The lengths list for `input`: one entry per character, then the fixed
/// suffix 17, 31, 73, 47, 23.
pub fn get_lengths(input: &str) -> (r: Vec<usize>)
    ensures
        r@.map_values(|l: usize| l as int) == lengths_spec(input@),
        r@.len() == input@.len() + 5,
{
    let cs = crate::text::chars_of(input);
    let mut r: Vec<usize> = Vec::new();
    let mut i: usize = 0;
    while i < cs.len()
        invariant
            i <= cs@.len(),
            cs@ == input@,
            r@.len() == i,
            forall|m: int| 0 <= m < i ==> #[trigger] r@[m] as int == (cs@[m] as u32) as int,
        decreases cs@.len() - i,
    {
        let c = cs[i];
        let code = c as u32;
        r.push(code as usize);
        proof {
            vstd::utf8::char_is_scalar(c);
            assert(code as usize as int == code as int);
        }
        i = i + 1;
    }
    r.push(17);
    r.push(31);
    r.push(73);
    r.push(47);
    r.push(23);
    proof {
        assert(r@.map_values(|l: usize| l as int) =~= lengths_spec(input@));
    }
    r
}

/// One pass: applies every length in order, each followed by the cursor
/// advance and skip increment, and returns the product of the first two
/// buffer entries.
pub fn run_one(lengths: &Vec<usize>, list: &mut List) -> (r: i64)
    requires
        old(list).wf(),
        old(list).list@.len() >= 2,
        forall|i: int|
            0 <= i < lengths@.len() ==> (#[trigger] lengths@[i]) as int <= old(list).list@.len(),
        old(list).skip_size + lengths@.len() + 2 * old(list).list@.len() <= usize::MAX,
        i64::MIN <= knot_round(old(list).state(), lengths@.map_values(|l: usize| l as int)).0[0]
            * knot_round(old(list).state(), lengths@.map_values(|l: usize| l as int)).0[1]
            <= i64::MAX,
    ensures
        final (list).state() == knot_round(
            old(list).state(),
            lengths@.map_values(|l: usize| l as int),
        ),
        final (list).wf(),
        r == final (list).list@[0] * final (list).list@[1],
{
    let ghost lints = lengths@.map_values(|l: usize| l as int);
    let n = list.list.len();
    proof {
        assert(lints.skip(0) =~= lints);
    }
    let mut i: usize = 0;
    while i < lengths.len()
        invariant
            list.wf(),
            list.list@.len() == n,
            n >= 2,
            i <= lengths@.len(),
            lints == lengths@.map_values(|l: usize| l as int),
            forall|m: int| 0 <= m < lengths@.len() ==> (#[trigger] lengths@[m]) as int <= n,
            list.skip_size == old(list).skip_size + i,
            old(list).skip_size + lengths@.len() + 2 * n <= usize::MAX,
            knot_round(list.state(), lints.skip(i as int)) == knot_round(old(list).state(), lints),
        decreases lengths@.len() - i,
    {
        let ghost prev = list.state();
        let len = lengths[i];
        let _ = list.step(len);
        let c2 = list.curr + len + list.skip_size;
        list.curr = c2 % n;
        list.skip_size = list.skip_size + 1;
        proof {
            assert(list.state() == knot_apply(prev, len as int));
            assert(lints.skip(i as int)[0] == len as int);
            assert(lints.skip(i as int).drop_first() =~= lints.skip(i + 1));
        }
        i = i + 1;
    }
    proof {
        assert(lints.skip(lints.len() as int) =~= Seq::<int>::empty());
    }
    list.list[0] * list.list[1]
}

/// Left XOR fold of a block of values.
pub fn xor(nums: &[i64]) -> (r: i64)
    ensures
        r == xor_fold(nums@),
{
    let mut acc: i64 = 0;
    let mut i: usize = 0;
    while i < nums.len()
        invariant
            i <= nums@.len(),
            acc == xor_fold(nums@.take(i as int)),
        decreases nums@.len() - i,
    {
        acc = acc ^ nums[i];
        proof {
            assert(nums@.take(i + 1).drop_last() =~= nums@.take(i as int));
            assert(nums@.take(i + 1).last() == nums@[i as int]);
        }
        i = i + 1;
    }
    proof {
        assert(nums@.take(nums@.len() as int) =~= nums@);
    }
    acc
}

/// The 16-byte dense hash of a full 256-element buffer.
pub fn get_dense_hash(list: &List) -> (r: Vec<i64>)
    requires
        list.list@.len() == 256,
    ensures
        r@ == dense_spec(list.list@),
        r@.len() == 16,
{
    let mut r: Vec<i64> = Vec::new();
    let mut i: usize = 0;
    while i < 16
        invariant
            list.list@.len() == 256,
            i <= 16,
            r@.len() == i,
            forall|m: int| 0 <= m < i ==> #[trigger] r@[m] == dense_spec(list.list@)[m],
        decreases 16 - i,
    {
        let mut acc: i64 = 0;
        let mut j: usize = 0;
        while j < 16
            invariant
                list.list@.len() == 256,
                i < 16,
                j <= 16,
                acc == xor_fold(list.list@.subrange(16 * i as int, 16 * i + j)),
            decreases 16 - j,
        {
            acc = acc ^ list.list[16 * i + j];
            proof {
                assert(list.list@.subrange(16 * i as int, 16 * i + j + 1).drop_last()
                    =~= list.list@.subrange(16 * i as int, 16 * i + j));
                assert(list.list@.subrange(16 * i as int, 16 * i + j + 1).last() == list.list@[16
                    * i + j]);
            }
            j = j + 1;
        }
        r.push(acc);
        i = i + 1;
    }
    proof {
        assert(r@ =~= dense_spec(list.list@));
    }
    r
}

fn hex_digit_char_exec(d: i64) -> (c: char)
    requires
        0 <= d < 16,
    ensures
        c == hex_digit_char(d as int),
{
    match d {
        0 => '0',
        1 => '1',
        2 => '2',
        3 => '3',
        4 => '4',
        5 => '5',
        6 => '6',
        7 => '7',
        8 => '8',
        9 => '9',
        10 => 'a',
        11 => 'b',
        12 => 'c',
        13 => 'd',
        14 => 'e',
        _ => 'f',
    }
}

/// The two lowercase hex digits of one byte value.
pub fn to_hex(num: i64) -> (r: String)
    requires
        0 <= num < 256,
    ensures
        r@ == hex_pair(num as int),
{
    let mut s = String::new();
    s.push(hex_digit_char_exec(num / 16));
    s.push(hex_digit_char_exec(num % 16));
    proof {
        assert(s@ =~= hex_pair(num as int));
    }
    s
}

/// Runs the full 64-round knot hash of `input` over the given buffer state
/// and returns the 32-character hex digest of the resulting dense hash.
pub fn run(input: &str, list: &mut List) -> (r: String)
    requires
        old(list).wf(),
        old(list).list@.len() == 256,
        forall|i: int| 0 <= i < 256 ==> 0 <= #[trigger] old(list).list@[i] < 256,
        valid_hash_input(input@),
        input@.len() <= MAX_HASH_INPUT,
        old(list).skip_size <= MAX_HASH_INPUT,
    ensures
        final (list).state() == knot_rounds(old(list).state(), lengths_spec(input@), 64),
        final (list).wf(),
        final (list).list@.len() == 256,
        forall|i: int| 0 <= i < 256 ==> 0 <= #[trigger] final (list).list@[i] < 256,
        r@ == hex_chars(dense_spec(final (list).list@)),
{
    let ghost lspec = lengths_spec(input@);
    let lengths = get_lengths(input);
    let nlen = lengths.len();
    let mut round: usize = 0;
    while round < 64
        invariant
            list.wf(),
            list.list@.len() == 256,
            round <= 64,
            nlen == lengths@.len(),
            nlen == input@.len() + 5,
            input@.len() <= MAX_HASH_INPUT,
            lengths@.map_values(|l: usize| l as int) == lspec,
            lspec == lengths_spec(input@),
            valid_hash_input(input@),
            forall|i: int| 0 <= i < 256 ==> 0 <= #[trigger] list.list@[i] < 256,
            list.skip_size == old(list).skip_size + round * nlen,
            old(list).skip_size <= MAX_HASH_INPUT,
            list.state() == knot_rounds(old(list).state(), lspec, round as nat),
        decreases 64 - round,
    {
        proof {
            assert forall|m: int|
                0 <= m < lengths@.len() implies (#[trigger] lengths@[m]) as int <= 256 by {
                assert(lengths@[m] as int == lspec[m]);
                if m < input@.len() {
                    assert(lspec[m] == (input@[m] as u32) as int);
                } else {
                    assert(lspec[m] == suffix_lengths()[m - input@.len()]);
                }
            }
            lemma_knot_round_props(list.state(), lspec, 0, 255);
            let t1 = knot_round(list.state(), lspec);
            assert(0 <= t1.0[0] < 256);
            assert(0 <= t1.0[1] < 256);
            assert(i64::MIN <= t1.0[0] * t1.0[1] <= i64::MAX) by (nonlinear_arith)
                requires
                    0 <= t1.0[0] < 256,
                    0 <= t1.0[1] < 256,
            ;
            let sk = list.skip_size;
            assert(sk + lengths@.len() + 2 * 256 <= 0x0500_0000) by (nonlinear_arith)
                requires
                    sk <= 0x0010_0000 + round * nlen,
                    nlen <= 0x0010_0005,
                    round < 64,
                    nlen == lengths@.len(),
            ;
            assert(usize::MAX >= 0xffff_ffff);
        }
        let ghost prev = list.state();
        let _ = run_one(&lengths, list);
        round = round + 1;
        proof {
            lemma_knot_round_props(prev, lspec, 0, 255);
            assert(list.state() == knot_round(prev, lspec));
            assert(knot_rounds(old(list).state(), lspec, round as nat) == knot_round(
                knot_rounds(old(list).state(), lspec, (round - 1) as nat),
                lspec,
            ));
            let r0 = round - 1;
            assert((r0 + 1) * nlen == r0 * nlen + nlen) by (nonlinear_arith);
        }
    }
    let dense = get_dense_hash(list);
    proof {
        lemma_dense_bounds(list.list@);
    }
    let mut hc: Vec<char> = Vec::new();
    let mut i: usize = 0;
    while i < 16
        invariant
            i <= 16,
            dense@.len() == 16,
            forall|m: int| 0 <= m < 16 ==> 0 <= #[trigger] dense@[m] < 256,
            hc@ == hex_chars(dense@.take(i as int)),
        decreases 16 - i,
    {
        let v = dense[i];
        hc.push(hex_digit_char_exec(v / 16));
        hc.push(hex_digit_char_exec(v % 16));
        proof {
            assert(dense@.take(i + 1).drop_last() =~= dense@.take(i as int));
            assert(dense@.take(i + 1).last() == dense@[i as int]);
            assert(hc@ =~= hex_chars(dense@.take(i as int)) + hex_pair(dense@[i as int] as int));
        }
        i = i + 1;
    }
    proof {
        assert(dense@.take(16) =~= dense@);
    }
    string_from_chars(&hc)
}

/// A hex rendering has two characters per byte.
pub proof fn lemma_hex_chars_len(d: Seq<i64>)
    ensures
        hex_chars(d).len() == 2 * d.len(),
    decreases d.len(),
{
    if d.len() == 0 {
    } else {
        lemma_hex_chars_len(d.drop_last());
    }
}

/// A knot hash digest has 32 hex characters.
pub proof fn lemma_spec_knot_hash_len(s: Seq<char>)
    ensures
        spec_knot_hash(s).len() == 32,
{
    lemma_hex_chars_len(dense_spec(knot_rounds(init_state(), lengths_spec(s), 64).0));
}

/// The buffer rotated left by `k` places: position `k` comes first.
pub open spec fn rotate_left(s: Seq<i64>, k: int) -> Seq<i64>
    recommends
        0 <= k <= s.len(),
{
    s.subrange(k, s.len() as int) + s.subrange(0, k)
}

/// A wrap-spanning reversal is the same as rotating the buffer so the cursor
/// sits at index 0, reversing the first `len` elements, and rotating back.
pub proof fn lemma_knot_reverse_is_rotate(s: Seq<i64>, cur: int, len: int)
    requires
        0 < s.len(),
        0 <= cur < s.len(),
        0 <= len <= s.len(),
    ensures
        knot_reverse(s, cur, len) == rotate_left(
            rotate_left(s, cur).take(len).reverse() + rotate_left(s, cur).skip(len),
            s.len() - cur,
        ),
{
    let n = s.len() as int;
    let rot = rotate_left(s, cur);
    let rev = rot.take(len).reverse() + rot.skip(len);
    let back = rotate_left(rev, n - cur);
    assert(rot.len() == n);
    assert(rev.len() == n);
    assert forall|m: int| 0 <= m < n implies rot[m] == s[(cur + m) % n] by {
        lemma_cursor_plus(cur, m, n);
    }
    assert forall|j: int| 0 <= j < n implies back[j] == knot_reverse(s, cur, len)[j] by {
        lemma_offset(j, cur, n);
        let o = (j - cur) % n;
        assert(back[j] == rev[o]);
        if o < len {
            assert(rev[o] == rot.take(len).reverse()[o]);
            assert(rot.take(len).reverse()[o] == rot.take(len)[len - 1 - o]);
            assert(rot[len - 1 - o] == s[(cur + (len - 1 - o)) % n]);
        } else {
            assert(rev[o] == rot.skip(len)[o - len]);
            assert(rot[o] == s[(cur + o) % n]);
            if j >= cur {
                lemma_mod_id(j, n);
            } else {
                lemma_mod_wrap(j + n, n);
                lemma_mod_add_multiples_vanish(j, n);
            }
        }
    }
    assert(back =~= knot_reverse(s, cur, len));
}

} // verus!
