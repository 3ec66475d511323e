//! A spinlock buffer: a growing circular buffer into which successive values
//! are inserted a fixed number of steps past the previous insertion point.

use vstd::prelude::*;

verus! {

/// One insertion: move `step` past the cursor (wrapping), insert the next
/// value just after that position, and leave the cursor on the new value.
pub open spec fn spin_adv(t: (Seq<u64>, int, int), step: int) -> (Seq<u64>, int, int) {
    let new_cur = (t.1 + step) % (t.0.len() as int) + 1;
    (t.0.insert(new_cur, (t.2 + 1) as u64), new_cur, t.2 + 1)
}

/// The (buffer, cursor, count) state after `n` insertions with the given
/// step, from the one-element buffer holding 0.
pub open spec fn spin_n(step: int, n: nat) -> (Seq<u64>, int, int)
    decreases n,
{
    if n == 0 {
        (seq![0u64], 0int, 0int)
    } else {
        spin_adv(spin_n(step, (n - 1) as nat), step)
    }
}

/// The growing buffer, the last value inserted, the cursor, and the fixed
/// step size.
#[derive(Clone, PartialEq)]
pub struct SpinLock {
    pub buf: Vec<u64>,
    pub num: u64,
    pub cur: usize,
    pub step: usize,
}

impl SpinLock {
    /// The cursor stays on a valid position.
    pub open spec fn wf(&self) -> bool {
        &&& self.buf@.len() > 0
        &&& self.cur < self.buf@.len()
    }

    /// The (buffer, cursor, count) state as a mathematical triple.
    pub open spec fn state(&self) -> (Seq<u64>, int, int) {
        (self.buf@, self.cur as int, self.num as int)
    }

    /// A fresh buffer holding only 0.
    pub fn new(step: usize) -> (s: SpinLock)
        ensures
            s.state() == spin_n(step as int, 0),
            s.step == step,
            s.wf(),
    {
        let mut v: Vec<u64> = Vec::with_capacity(2018);
        v.insert(0, 0);
        proof {
            assert(v@ =~= seq![0u64]);
        }
        SpinLock { buf: v, cur: 0, num: 0, step: step }
    }

    /// Performs one insertion.
    pub fn advance(&mut self) -> (r: Result<(), ()>)
        requires
            old(self).wf(),
            old(self).num < u64::MAX,
            old(self).cur + old(self).step <= usize::MAX,
            old(self).buf@.len() < usize::MAX,
        ensures
            final (self).state() == spin_adv(old(self).state(), old(self).step as int),
            final (self).step == old(self).step,
            final (self).wf(),
            r is Ok,
    {
        let new_cur = ((self.cur + self.step) % self.buf.len()) + 1;
        self.num = self.num + 1;
        self.cur = new_cur;
        self.buf.insert(new_cur, self.num);
        Ok(())
    }

    /// The value just after the cursor, or nothing when the cursor sits on
    /// the last position.
    pub fn next(&self) -> (r: Option<u64>)
        requires
            self.wf(),
        ensures
            r == if self.cur == self.buf@.len() - 1 {
                Option::<u64>::None
            } else {
                Some(self.buf@[self.cur + 1])
            },
    {
        if self.cur == self.buf.len() - 1 {
            None
        } else {
            Some(self.buf[self.cur + 1])
        }
    }
}

/// Runs 2017 insertions with the given step and returns the value that ends
/// up just after the final cursor position.
pub fn run(a: usize) -> (r: u64)
    requires
        a <= 0x7fff_0000,
        spin_n(a as int, 2017).1 + 1 < spin_n(a as int, 2017).0.len(),
    ensures
        r == spin_n(a as int, 2017).0[spin_n(a as int, 2017).1 + 1],
{
    let mut s = SpinLock::new(a);
    let mut i: usize = 0;
    while i < 2017
        invariant
            i <= 2017,
            a <= 0x7fff_0000,
            s.step == a,
            s.wf(),
            s.buf@.len() == i + 1,
            s.num == i,
            s.state() == spin_n(a as int, i as nat),
        decreases 2017 - i,
    {
        let _ = s.advance();
        i = i + 1;
    }
    match s.next() {
        Some(v) => v,
        None => {
            proof {
                assert(false);
            }
            0
        },
    }
}

} // verus!
