//! Memory bank reallocation: repeatedly move all blocks out of the fullest
//! bank, sprinkling them one at a time over the following banks, and count
//! the redistribution cycles until a configuration repeats.

use vstd::prelude::*;
use vstd::arithmetic::div_mod::lemma_mod_division_less_than_divisor;
use crate::text::chars_of;
use crate::text::dec_val;
use crate::text::is_digit;
use crate::text::is_digit_exec;
use crate::text::is_space;
use crate::text::lemma_take_token_range;
use crate::text::split_ws;
use crate::text::take_token;
use crate::text::is_space_exec;
use crate::text::parse_decimal;

verus! {

/// A token list where every token is a bank size that fits a byte.
pub open spec fn banks_ok(toks: Seq<Seq<char>>) -> bool {
    forall|k: int|
        0 <= k < toks.len() ==> {
            &&& (#[trigger] toks[k]).len() >= 1
            &&& (forall|m: int| 0 <= m < toks[k].len() ==> is_digit(#[trigger] toks[k][m]))
            &&& dec_val(toks[k]) <= 255
        }
}

/// Reads the whitespace-separated bank sizes out of `input`.
pub fn parse_input(input: &str) -> (r: Vec<u8>)
    requires
        banks_ok(split_ws(input@)),
    ensures
        r@.len() == split_ws(input@).len(),
        forall|k: int|
            0 <= k < r@.len() ==> (#[trigger] r@[k]) as int == dec_val(split_ws(input@)[k]),
{
    let cs = chars_of(input);
    let n = cs.len();
    let mut r: Vec<u8> = Vec::new();
    let ghost toks = split_ws(input@);
    proof {
        assert(cs@.skip(0) =~= cs@);
        assert(toks.skip(0) =~= toks);
    }
    let mut i: usize = 0;
    while i < n
        invariant
            cs@ == input@,
            n == cs@.len(),
            i <= n,
            toks == split_ws(input@),
            banks_ok(toks),
            r@.len() <= toks.len(),
            split_ws(cs@.skip(i as int)) == toks.skip(r@.len() as int),
            forall|k: int| 0 <= k < r@.len() ==> (#[trigger] r@[k]) as int == dec_val(toks[k]),
        decreases n - i,
    {
        let c = cs[i];
        if is_space_exec(c) {
            proof {
                assert(cs@.skip(i as int).drop_first() =~= cs@.skip(i + 1));
            }
            i = i + 1;
        } else {
            // find the end of the token
            let start = i;
            let mut j: usize = i + 1;
            while j < n && !is_space_exec(cs[j])
                invariant
                    cs@ == input@,
                    n == cs@.len(),
                    start < j <= n,
                    forall|m: int| start <= m < j ==> !is_space(#[trigger] cs@[m]),
                decreases n - j,
            {
                j = j + 1;
            }
            let ghost tok = cs@.subrange(start as int, j as int);
            proof {
                lemma_take_token_range(cs@, start as int, j as int);
                assert(cs@.skip(start as int).skip(j - start) =~= cs@.skip(j as int));
                assert(take_token(cs@.skip(start as int)) == tok);
                assert(split_ws(cs@.skip(start as int)) == seq![tok] + split_ws(
                    cs@.skip(j as int),
                ));
                assert(toks.skip(r@.len() as int)[0] == tok);
                assert(toks.skip(r@.len() as int).len() >= 1);
                assert(r@.len() < toks.len());
                assert(toks[r@.len() as int] == tok);
                crate::text::lemma_dec_val_nonneg(tok);
                assert forall|m: int| start <= m < j implies is_digit(#[trigger] cs@[m]) by {
                    assert(cs@[m] == tok[m - start]);
                }
            }
            let v = parse_decimal(&cs, start, j);
            proof {
                assert(v <= 255);
            }
            r.push(v as u8);
            proof {
                assert(toks.skip(r@.len() - 1).drop_first() =~= toks.skip(r@.len() as int));
                assert((seq![tok] + split_ws(cs@.skip(j as int))).drop_first() =~= split_ws(
                    cs@.skip(j as int),
                ));
                assert(split_ws(cs@.skip(j as int)) == toks.skip(r@.len() as int));
            }
            i = j;
        }
    }
    proof {
        assert(cs@.skip(n as int) =~= Seq::<char>::empty());
        assert(split_ws(cs@.skip(n as int)).len() == 0);
        assert(toks.skip(r@.len() as int).len() == 0);
        assert(r@.len() == toks.len());
    }
    r
}

/// The (index, value) pair after scanning the first `k` banks for the
/// fullest, earliest bank winning ties.
pub open spec fn fold_max(s: Seq<u8>, k: int) -> (int, int)
    decreases k,
{
    if k <= 0 {
        (0int, 0int)
    } else {
        let p = fold_max(s, k - 1);
        if s[k - 1] > p.1 {
            (k - 1, s[k - 1] as int)
        } else {
            p
        }
    }
}

/// The index of the fullest bank, the earliest winning ties.
pub fn idx_of_max(banks: &[u8]) -> (r: usize)
    ensures
        r as int == fold_max(banks@, banks@.len() as int).0,
        banks@.len() > 0 ==> r < banks@.len(),
{
    let mut max_idx: usize = 0;
    let mut max_num: u8 = 0;
    let mut i: usize = 0;
    while i < banks.len()
        invariant
            i <= banks@.len(),
            max_idx as int == fold_max(banks@, i as int).0,
            max_num as int == fold_max(banks@, i as int).1,
            i > 0 ==> max_idx < i,
            i == 0 ==> max_idx == 0,
        decreases banks@.len() - i,
    {
        let num = banks[i];
        if num > max_num {
            max_idx = i;
            max_num = num;
        }
        i = i + 1;
    }
    max_idx
}

/// The sum of all bank sizes.
pub open spec fn sum8(s: Seq<u8>) -> int
    decreases s.len(),
{
    if s.len() == 0 {
        0
    } else {
        sum8(s.drop_last()) + s.last()
    }
}

proof fn lemma_sum8_update(s: Seq<u8>, i: int, v: u8)
    requires
        0 <= i < s.len(),
    ensures
        sum8(s.update(i, v)) == sum8(s) - s[i] + v,
    decreases s.len(),
{
    let t = s.update(i, v);
    if i == s.len() - 1 {
        assert(t.drop_last() =~= s.drop_last());
    } else {
        assert(t.drop_last() =~= s.drop_last().update(i, v));
        lemma_sum8_update(s.drop_last(), i, v);
    }
}

proof fn lemma_elem_le_sum8(s: Seq<u8>, i: int)
    requires
        0 <= i < s.len(),
    ensures
        s[i] <= sum8(s),
    decreases s.len(),
{
    if i == s.len() - 1 {
        lemma_sum8_nonneg(s.drop_last());
    } else {
        lemma_elem_le_sum8(s.drop_last(), i);
    }
}

proof fn lemma_sum8_nonneg(s: Seq<u8>)
    ensures
        sum8(s) >= 0,
    decreases s.len(),
{
    if s.len() > 0 {
        lemma_sum8_nonneg(s.drop_last());
    }
}

/// The banks after handing out `n` blocks one at a time, starting one past
/// `idx` and wrapping.
pub open spec fn distribute(banks: Seq<u8>, idx: int, n: nat) -> Seq<u8>
    decreases n,
{
    if n == 0 {
        banks
    } else {
        let prev = distribute(banks, idx, (n - 1) as nat);
        let p = (idx + n) % (banks.len() as int);
        prev.update(p, (prev[p] + 1) as u8)
    }
}

/// One redistribution cycle: empty the fullest bank and hand its blocks out
/// over the following banks.
pub open spec fn cycle_spec(banks: Seq<u8>) -> Seq<u8> {
    let idx = fold_max(banks, banks.len() as int).0;
    let n = banks[idx];
    distribute(banks.update(idx, 0), idx, n as nat)
}

proof fn lemma_distribute_props(banks: Seq<u8>, idx: int, n: nat, total: int)
    requires
        banks.len() > 0,
        0 <= idx < banks.len(),
        sum8(banks) + n <= total <= 255,
    ensures
        distribute(banks, idx, n).len() == banks.len(),
        sum8(distribute(banks, idx, n)) == sum8(banks) + n,
    decreases n,
{
    if n > 0 {
        lemma_distribute_props(banks, idx, (n - 1) as nat, total);
        let prev = distribute(banks, idx, (n - 1) as nat);
        let p = (idx + n) % (banks.len() as int);
        lemma_mod_division_less_than_divisor(idx + n, banks.len() as int);
        lemma_elem_le_sum8(prev, p);
        lemma_sum8_update(prev, p, (prev[p] + 1) as u8);
    }
}

/// Performs one redistribution cycle in place.
pub fn cycle(banks: &mut Vec<u8>)
    requires
        old(banks)@.len() > 0,
        old(banks)@.len() <= 0x7fff_ffff,
        sum8(old(banks)@) <= 255,
    ensures
        final (banks)@ == cycle_spec(old(banks)@),
        final (banks)@.len() == old(banks)@.len(),
        sum8(final (banks)@) == sum8(old(banks)@),
{
    let ghost b0 = banks@;
    let n = banks.len();
    let idx = idx_of_max(banks.as_slice());
    let num_blocks = banks[idx];
    let ghost zeroed = b0.update(idx as int, 0u8);
    proof {
        lemma_elem_le_sum8(b0, idx as int);
        lemma_sum8_nonneg(zeroed);
        lemma_sum8_update(b0, idx as int, 0u8);
    }
    banks[idx] = 0;
    let mut k: usize = 0;
    while k < num_blocks as usize
        invariant
            banks@.len() == n,
            n == b0.len(),
            0 < n <= 0x7fff_ffff,
            idx < n,
            k <= num_blocks,
            num_blocks == b0[idx as int],
            sum8(b0) <= 255,
            zeroed == b0.update(idx as int, 0u8),
            sum8(zeroed) == sum8(b0) - num_blocks,
            banks@ == distribute(zeroed, idx as int, k as nat),
        decreases num_blocks - k,
    {
        proof {
            lemma_distribute_props(zeroed, idx as int, k as nat, sum8(b0));
            lemma_distribute_props(zeroed, idx as int, (k + 1) as nat, sum8(b0));
            lemma_mod_division_less_than_divisor(idx + k + 1, n as int);
            lemma_elem_le_sum8(banks@, (idx + k + 1) % (n as int));
        }
        let next = (idx + k + 1) % n;
        let cur = banks[next];
        banks[next] = cur + 1;
        proof {
            assert(banks@ =~= distribute(zeroed, idx as int, (k + 1) as nat));
        }
        k = k + 1;
    }
    proof {
        lemma_distribute_props(zeroed, idx as int, num_blocks as nat, sum8(b0));
    }
}

/// The configuration after `n` redistribution cycles.
pub open spec fn nth_state(b0: Seq<u8>, n: nat) -> Seq<u8>
    decreases n,
{
    if n == 0 {
        b0
    } else {
        cycle_spec(nth_state(b0, (n - 1) as nat))
    }
}

/// Cycle `n` revisits an earlier configuration.
pub open spec fn repeat_at(b0: Seq<u8>, n: nat) -> bool {
    exists|j: nat| 1 <= j < n && nth_state(b0, j) == nth_state(b0, n)
}

proof fn lemma_nth_state_props(b0: Seq<u8>, n: nat)
    requires
        b0.len() > 0,
        sum8(b0) <= 255,
    ensures
        nth_state(b0, n).len() == b0.len(),
        sum8(nth_state(b0, n)) == sum8(b0),
    decreases n,
{
    if n > 0 {
        lemma_nth_state_props(b0, (n - 1) as nat);
        let prev = nth_state(b0, (n - 1) as nat);
        let idx = fold_max(prev, prev.len() as int).0;
        lemma_fold_max_in_range(prev, prev.len() as int);
        lemma_elem_le_sum8(prev, idx);
        lemma_sum8_update(prev, idx, 0u8);
        lemma_sum8_nonneg(prev.update(idx, 0u8));
        lemma_distribute_props(prev.update(idx, 0u8), idx, prev[idx] as nat, sum8(b0));
    }
}

proof fn lemma_fold_max_in_range(s: Seq<u8>, k: int)
    requires
        s.len() > 0,
        0 <= k <= s.len(),
    ensures
        0 <= fold_max(s, k).0 < s.len(),
        0 <= fold_max(s, k).1,
    decreases k,
{
    if k > 0 {
        lemma_fold_max_in_range(s, k - 1);
    }
}

/// Counts redistribution cycles until a configuration shows up for the
/// second time, and returns that count.
pub fn run(input: &str) -> (r: usize)
    requires
        banks_ok(split_ws(input@)),
        split_ws(input@).len() > 0,
        split_ws(input@).len() <= 0x7fff_ffff,
        ({
            let b0 = split_ws(input@).map_values(|t: Seq<char>| dec_val(t) as u8);
            &&& sum8(b0) <= 255
            &&& exists|n: nat| n <= usize::MAX && repeat_at(b0, n)
        }),
    ensures
        ({
            let b0 = split_ws(input@).map_values(|t: Seq<char>| dec_val(t) as u8);
            &&& repeat_at(b0, r as nat)
            &&& forall|m: nat| m < r ==> !repeat_at(b0, m)
        }),
{
    let ghost b0 = split_ws(input@).map_values(|t: Seq<char>| dec_val(t) as u8);
    let mut banks = parse_input(input);
    proof {
        let toks = split_ws(input@);
        assert forall|k: int| 0 <= k < banks@.len() implies banks@[k] == b0[k] by {
            crate::text::lemma_dec_val_nonneg(toks[k]);
        }
        assert(banks@ =~= b0);
    }
    let ghost least = choose|n: nat|
        n <= usize::MAX && repeat_at(b0, n) && (forall|m: nat| m < n ==> !repeat_at(b0, m));
    proof {
        let n0 = choose|n: nat| n <= usize::MAX && repeat_at(b0, n);
        lemma_least_repeat(b0, n0);
    }
    let mut count: usize = 0;
    let mut states: Vec<Vec<u8>> = Vec::new();
    loop
        invariant_except_break
            banks@.len() == b0.len(),
            b0.len() > 0,
            b0.len() == split_ws(input@).len(),
            b0.len() <= 0x7fff_ffff,
            sum8(b0) <= 255,
            sum8(banks@) == sum8(b0),
            banks@ == nth_state(b0, count as nat),
            states@.len() == count,
            forall|k: int| 0 <= k < count ==> (#[trigger] states@[k])@ == nth_state(b0, (k + 1) as nat),
            forall|m: nat| m <= count ==> !repeat_at(b0, m),
            count < least,
            least <= usize::MAX,
            repeat_at(b0, least),
            forall|m: nat| m < least ==> !repeat_at(b0, m),
        ensures
            repeat_at(b0, count as nat),
            forall|m: nat| m < count ==> !repeat_at(b0, m),
            count == least,
        decreases least - count,
    {
        count = count + 1;
        proof {
            lemma_nth_state_props(b0, (count - 1) as nat);
        }
        cycle(&mut banks);
        let mut found = false;
        let mut k: usize = 0;
        while k < states.len()
            invariant
                states@.len() < least,
                count <= least,
                banks@ == nth_state(b0, count as nat),
                forall|kk: int|
                    0 <= kk < states@.len() ==> (#[trigger] states@[kk])@ == nth_state(
                        b0,
                        (kk + 1) as nat,
                    ),
                k <= states@.len(),
                !found ==> forall|j: nat| 1 <= j <= k ==> nth_state(b0, j) != nth_state(
                    b0,
                    count as nat,
                ),
                found ==> repeat_at(b0, count as nat),
                count == states@.len() + 1,
            decreases states@.len() - k,
        {
            if states[k] == banks {
                proof {
                    assert(states@[k as int]@ =~= banks@);
                    assert(nth_state(b0, (k + 1) as nat) == nth_state(b0, count as nat));
                    assert(1 <= k + 1 < count);
                    assert(repeat_at(b0, count as nat));
                }
                found = true;
            }
            k = k + 1;
        }
        if found {
            proof {
                assert(count <= least);
                assert(count == least);
            }
            break ;
        }
        proof {
            assert(forall|j: nat| 1 <= j < count as nat ==> nth_state(b0, j) != nth_state(
                b0,
                count as nat,
            ));
            assert(!repeat_at(b0, count as nat));
            assert(count != least);
        }
        states.push(banks.clone());
        proof {
            assert(states@[count - 1]@ =~= banks@);
        }
    }
    count
}

/// Below any repeat there is a least one.
proof fn lemma_least_repeat(b0: Seq<u8>, n0: nat)
    requires
        repeat_at(b0, n0),
        n0 <= usize::MAX,
    ensures
        exists|n: nat|
            n <= usize::MAX && repeat_at(b0, n) && (forall|m: nat| m < n ==> !repeat_at(b0, m)),
    decreases n0,
{
    if exists|m: nat| m < n0 && repeat_at(b0, m) {
        let m = choose|m: nat| m < n0 && repeat_at(b0, m);
        lemma_least_repeat(b0, m);
    } else {
        assert(n0 <= usize::MAX && repeat_at(b0, n0) && (forall|m: nat|
            m < n0 ==> !repeat_at(b0, m)));
    }
}

} // verus!
