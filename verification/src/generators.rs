//! Dueling generators: each produces the multiples-of-a-criterion values of a
//! multiplicative sequence modulo a fixed prime, and a judge counts how often
//! the two generators agree on their lowest 16 bits.

use vstd::prelude::*;

verus! {

pub const NUM: u64 = 2147483647;

pub const A_FACTOR: u64 = 16807;

pub const B_FACTOR: u64 = 48271;

/// One multiplicative step.
pub open spec fn gen_step(v: int, f: int) -> int {
    (v * f) % (NUM as int)
}

/// `k` multiplicative steps from `v`.
pub open spec fn gen_iter(v: int, f: int, k: nat) -> int
    decreases k,
{
    if k == 0 {
        v
    } else {
        gen_step(gen_iter(v, f, (k - 1) as nat), f)
    }
}

/// Whether the `k`-th step lands on a multiple of the criterion.
pub open spec fn hits(v: int, f: int, c: int, k: nat) -> bool {
    gen_iter(v, f, k) % c == 0
}

/// Whether the sequence from `v` ever lands on a multiple of the criterion.
pub open spec fn has_next(v: int, f: int, c: int) -> bool {
    exists|k: nat| k >= 1 && hits(v, f, c, k)
}

/// The number of steps to the first multiple of the criterion.
pub open spec fn first_hit(v: int, f: int, c: int) -> nat {
    choose|k: nat|
        k >= 1 && hits(v, f, c, k) && (forall|j: nat| 1 <= j < k ==> !hits(v, f, c, j))
}

/// The next value the generator emits: the first multiple of the criterion.
pub open spec fn next_val(v: int, f: int, c: int) -> int {
    gen_iter(v, f, first_hit(v, f, c))
}

/// When some step hits, the first hit is well defined: it hits and nothing
/// before it does.
pub proof fn lemma_first_hit(v: int, f: int, c: int, k0: nat)
    requires
        k0 >= 1,
        hits(v, f, c, k0),
    ensures
        first_hit(v, f, c) >= 1,
        hits(v, f, c, first_hit(v, f, c)),
        forall|j: nat| 1 <= j < first_hit(v, f, c) ==> !hits(v, f, c, j),
    decreases k0,
{
    if exists|j: nat| 1 <= j < k0 && hits(v, f, c, j) {
        let j = choose|j: nat| 1 <= j < k0 && hits(v, f, c, j);
        lemma_first_hit(v, f, c, j);
    } else {
        assert(k0 >= 1 && hits(v, f, c, k0) && (forall|j: nat|
            1 <= j < k0 ==> !hits(v, f, c, j)));
    }
}

/// The generator can emit `n` more values from state `v`.
pub open spec fn chain_ok(v: int, f: int, c: int, n: nat) -> bool
    decreases n,
{
    if n == 0 {
        true
    } else {
        has_next(v, f, c) && chain_ok(next_val(v, f, c), f, c, (n - 1) as nat)
    }
}

/// How many of the next `n` pairs of emitted values agree on their lowest 16
/// bits.
pub open spec fn match_count(av: int, bv: int, ac: int, bc: int, n: nat) -> int
    decreases n,
{
    if n == 0 {
        0
    } else {
        let a1 = next_val(av, A_FACTOR as int, ac);
        let b1 = next_val(bv, B_FACTOR as int, bc);
        match_count(a1, b1, ac, bc, (n - 1) as nat) + if a1 % 0x10000 == b1 % 0x10000 {
            1int
        } else {
            0int
        }
    }
}

proof fn lemma_low16(x: u64)
    ensures
        (x & 0xffff) as int == (x as int) % 0x10000,
{
    assert((x & 0xffff) == x % 0x10000) by (bit_vector);
}

/// A value sequence with its multiplier and the criterion its emitted values
/// must divide by.
#[derive(Debug, Clone, Copy, PartialEq)]
pub struct Generator {
    pub valu: u64,
    pub factor: u64,
    pub criteria: u64,
}

impl Generator {
    pub fn new(value: u64, factor: u64, criteria: u64) -> (g: Generator)
        ensures
            g.valu == value,
            g.factor == factor,
            g.criteria == criteria,
    {
        Generator { valu: value, factor: factor, criteria: criteria }
    }

    /// Steps the sequence until it lands on a multiple of the criterion and
    /// returns that value.
    pub fn next_value(&mut self) -> (r: u64)
        requires
            old(self).criteria > 0,
            old(self).valu * old(self).factor <= u64::MAX,
            NUM * old(self).factor <= u64::MAX,
            has_next(old(self).valu as int, old(self).factor as int, old(self).criteria as int),
        ensures
            final (self).factor == old(self).factor,
            final (self).criteria == old(self).criteria,
            final (self).valu == r,
            r < NUM,
            r as int == next_val(
                old(self).valu as int,
                old(self).factor as int,
                old(self).criteria as int,
            ),
    {
        let ghost v0 = old(self).valu as int;
        let ghost fc = old(self).factor as int;
        let ghost cr = old(self).criteria as int;
        let ghost fh = first_hit(v0, fc, cr);
        proof {
            let k0 = choose|k: nat| k >= 1 && hits(v0, fc, cr, k);
            lemma_first_hit(v0, fc, cr, k0);
        }
        let ghost mut kk: nat = 0;
        loop
            invariant_except_break
                self.factor == old(self).factor,
                self.criteria == old(self).criteria,
                self.criteria > 0,
                old(self).valu * old(self).factor <= u64::MAX,
                NUM * old(self).factor <= u64::MAX,
                self.valu as int == gen_iter(v0, fc, kk),
                kk == 0 ==> self.valu == old(self).valu,
                kk > 0 ==> self.valu < NUM,
                fh >= 1,
                hits(v0, fc, cr, fh),
                forall|j: nat| 1 <= j < fh ==> !hits(v0, fc, cr, j),
                fh == first_hit(v0, fc, cr),
                fc == old(self).factor as int,
                cr == old(self).criteria as int,
                v0 == old(self).valu as int,
                kk < fh,
            ensures
                self.factor == old(self).factor,
                self.criteria == old(self).criteria,
                self.valu < NUM,
                self.valu as int == next_val(v0, fc, cr),
            decreases fh - kk,
        {
            proof {
                if kk > 0 {
                    assert(self.valu * self.factor <= u64::MAX) by (nonlinear_arith)
                        requires
                            self.valu < NUM,
                            NUM * self.factor <= u64::MAX,
                    ;
                }
            }
            let interm = self.valu * self.factor;
            self.valu = interm % NUM;
            proof {
                kk = kk + 1;
                assert(self.valu as int == gen_step(gen_iter(v0, fc, (kk - 1) as nat), fc));
            }
            if self.valu % self.criteria == 0 {
                proof {
                    assert(hits(v0, fc, cr, kk));
                    assert(kk == fh);
                }
                break ;
            }
            proof {
                assert(!hits(v0, fc, cr, kk));
                assert(kk != fh);
            }
        }
        self.valu
    }
}

/// The lowest 16 bits of a value.
pub fn low16bits(num: u64) -> (r: u64)
    ensures
        r == num & 0xffff,
        r as int == (num as int) % 0x10000,
{
    proof {
        lemma_low16(num);
    }
    num & 0xffff
}

/// Runs both generators for `rounds` pairs and counts the pairs that agree on
/// their lowest 16 bits.
pub fn run(astart: u64, acrit: u64, bstart: u64, bcrit: u64, rounds: usize) -> (r: usize)
    requires
        acrit > 0,
        bcrit > 0,
        astart <= 0x0000_7fff_ffff_ffff,
        bstart <= 0x0000_7fff_ffff_ffff,
        chain_ok(astart as int, A_FACTOR as int, acrit as int, rounds as nat),
        chain_ok(bstart as int, B_FACTOR as int, bcrit as int, rounds as nat),
    ensures
        r as int == match_count(astart as int, bstart as int, acrit as int, bcrit as int,
            rounds as nat),
{
    let mut a = Generator::new(astart, A_FACTOR, acrit);
    let mut b = Generator::new(bstart, B_FACTOR, bcrit);
    let mut count: usize = 0;
    let mut i: usize = 0;
    while i < rounds
        invariant
            i <= rounds,
            count <= i,
            a.factor == A_FACTOR,
            a.criteria == acrit,
            b.factor == B_FACTOR,
            b.criteria == bcrit,
            acrit > 0,
            bcrit > 0,
            a.valu < NUM || a.valu == astart,
            b.valu < NUM || b.valu == bstart,
            astart <= 0x0000_7fff_ffff_ffff,
            bstart <= 0x0000_7fff_ffff_ffff,
            chain_ok(a.valu as int, A_FACTOR as int, acrit as int, (rounds - i) as nat),
            chain_ok(b.valu as int, B_FACTOR as int, bcrit as int, (rounds - i) as nat),
            count + match_count(a.valu as int, b.valu as int, acrit as int, bcrit as int, (rounds
                - i) as nat) == match_count(astart as int, bstart as int, acrit as int,
                bcrit as int, rounds as nat),
        decreases rounds - i,
    {
        proof {
            assert(NUM * A_FACTOR <= u64::MAX) by (nonlinear_arith);
            assert(NUM * B_FACTOR <= u64::MAX) by (nonlinear_arith);
            assert(astart * A_FACTOR <= u64::MAX) by (nonlinear_arith)
                requires
                    astart <= 0x0000_7fff_ffff_ffff,
            ;
            assert(bstart * B_FACTOR <= u64::MAX) by (nonlinear_arith)
                requires
                    bstart <= 0x0000_7fff_ffff_ffff,
            ;
            assert(a.valu * A_FACTOR <= u64::MAX) by (nonlinear_arith)
                requires
                    a.valu < NUM || a.valu * A_FACTOR <= u64::MAX,
                    NUM * A_FACTOR <= u64::MAX,
            ;
            assert(b.valu * B_FACTOR <= u64::MAX) by (nonlinear_arith)
                requires
                    b.valu < NUM || b.valu * B_FACTOR <= u64::MAX,
                    NUM * B_FACTOR <= u64::MAX,
            ;
        }
        let av = a.next_value();
        let bv = b.next_value();
        if low16bits(av) == low16bits(bv) {
            count = count + 1;
        }
        i = i + 1;
    }
    count
}

} // verus!
