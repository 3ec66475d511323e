//! Shared text utilities: reading the characters of a string slice, building
//! strings character by character, and rendering digits.

use vstd::prelude::*;
use vstd::std_specs::iter::IteratorSpec;

verus! {

/// Relies on alloc's String::push: appends exactly the given character.
pub assume_specification[ String::push ](s: &mut String, c: char)
    ensures
        final (s)@ == old(s)@.push(c),
;

/// The characters of `s`, in order, as a vector.
pub fn chars_of(s: &str) -> (r: Vec<char>)
    ensures
        r@ == s@,
{
    let mut it = s.chars();
    let mut r: Vec<char> = Vec::new();
    loop
        invariant
            it.obeys_prophetic_iter_laws(),
            it.decrease() is Some,
            r@ + it.remaining() == s@,
        ensures
            r@ + it.remaining() == s@,
            it.remaining().len() == 0,
        decreases it.decrease().unwrap(),
    {
        match it.next() {
            Some(c) => {
                r.push(c);
            },
            None => {
                break ;
            },
        }
    }
    assert(r@ =~= s@);
    r
}

/// Builds a string holding exactly the characters of `v`.
pub fn string_from_chars(v: &Vec<char>) -> (r: String)
    ensures
        r@ == v@,
{
    let mut r = String::new();
    let mut i: usize = 0;
    while i < v.len()
        invariant
            i <= v.len(),
            r@ == v@.subrange(0, i as int),
        decreases v.len() - i,
    {
        r.push(v[i]);
        i = i + 1;
        assert(r@ =~= v@.subrange(0, i as int));
    }
    assert(r@ =~= v@);
    r
}

/// The character for one decimal digit.
pub open spec fn dec_digit_char(d: int) -> char {
    if d == 0 {
        '0'
    } else if d == 1 {
        '1'
    } else if d == 2 {
        '2'
    } else if d == 3 {
        '3'
    } else if d == 4 {
        '4'
    } else if d == 5 {
        '5'
    } else if d == 6 {
        '6'
    } else if d == 7 {
        '7'
    } else if d == 8 {
        '8'
    } else {
        '9'
    }
}

/// The usual decimal rendering of `n`, most significant digit first.
pub open spec fn dec_chars(n: nat) -> Seq<char>
    decreases n,
{
    if n < 10 {
        seq![dec_digit_char(n as int)]
    } else {
        dec_chars(n / 10).push(dec_digit_char((n % 10) as int))
    }
}

/// Decimal renderings are plain ASCII digits.
pub proof fn lemma_dec_chars_ascii(n: nat)
    ensures
        forall|i: int|
            0 <= i < dec_chars(n).len() ==> (#[trigger] dec_chars(n)[i]) as u32 <= 57,
    decreases n,
{
    if n < 10 {
        assert(dec_chars(n)[0] == dec_digit_char(n as int));
        assert(dec_digit_char(n as int) as u32 <= 57);
    } else {
        lemma_dec_chars_ascii(n / 10);
        assert(dec_digit_char((n % 10) as int) as u32 <= 57);
        assert forall|i: int| 0 <= i < dec_chars(n).len() implies (#[trigger] dec_chars(n)[i]) as u32
            <= 57 by {
            if i < dec_chars(n / 10).len() {
                assert(dec_chars(n)[i] == dec_chars(n / 10)[i]);
            } else {
                assert(dec_chars(n)[i] == dec_digit_char((n % 10) as int));
            }
        }
    }
}

/// An ASCII whitespace character.
pub open spec fn is_space(c: char) -> bool {
    c == ' ' || c == '\t' || c == '\n' || c == '\r' || c == '\u{b}' || c == '\u{c}'
}

/// Whether `c` is a decimal digit.
pub open spec fn is_digit(c: char) -> bool {
    48 <= c as u32 <= 57
}

/// The value of a decimal digit character.
pub open spec fn digit_val(c: char) -> int {
    c as u32 - 48
}

/// The value of a string of decimal digits.
pub open spec fn dec_val(t: Seq<char>) -> int
    decreases t.len(),
{
    if t.len() == 0 {
        0
    } else {
        dec_val(t.drop_last()) * 10 + digit_val(t.last())
    }
}

/// A digit string's value is nonnegative.
pub proof fn lemma_dec_val_nonneg(t: Seq<char>)
    requires
        forall|m: int| 0 <= m < t.len() ==> is_digit(#[trigger] t[m]),
    ensures
        dec_val(t) >= 0,
    decreases t.len(),
{
    if t.len() > 0 {
        lemma_dec_val_nonneg(t.drop_last());
    }
}

/// A prefix of a digit string is worth no more than the whole.
pub proof fn lemma_dec_val_prefix(t: Seq<char>, j: int)
    requires
        forall|m: int| 0 <= m < t.len() ==> is_digit(#[trigger] t[m]),
        0 <= j <= t.len(),
    ensures
        dec_val(t.take(j)) <= dec_val(t),
    decreases t.len() - j,
{
    if j == t.len() {
        assert(t.take(j) =~= t);
    } else {
        lemma_dec_val_prefix(t, j + 1);
        assert(t.take(j + 1).drop_last() =~= t.take(j));
        assert(forall|m: int| 0 <= m < t.take(j + 1).len() ==> is_digit(#[trigger] t.take(j + 1)[m]));
        lemma_dec_val_nonneg(t.take(j));
    }
}

/// Whether `c` is ASCII whitespace.
pub fn is_space_exec(c: char) -> (r: bool)
    ensures
        r == is_space(c),
{
    c == ' ' || c == '\t' || c == '\n' || c == '\r' || c == '\u{b}' || c == '\u{c}'
}

/// Whether `c` is a decimal digit.
pub fn is_digit_exec(c: char) -> (r: bool)
    ensures
        r == is_digit(c),
{
    let u = c as u32;
    48 <= u && u <= 57
}

/// The value of the digit run `v[start..end]`, most significant digit first.
pub fn parse_decimal(v: &Vec<char>, start: usize, end: usize) -> (r: u64)
    requires
        start <= end <= v@.len(),
        forall|m: int| start <= m < end ==> is_digit(#[trigger] v@[m]),
        dec_val(v@.subrange(start as int, end as int)) <= u64::MAX,
    ensures
        r as int == dec_val(v@.subrange(start as int, end as int)),
{
    let ghost full = v@.subrange(start as int, end as int);
    let mut acc: u64 = 0;
    let mut i: usize = start;
    while i < end
        invariant
            start <= i <= end <= v@.len(),
            forall|m: int| start <= m < end ==> is_digit(#[trigger] v@[m]),
            full == v@.subrange(start as int, end as int),
            dec_val(full) <= u64::MAX,
            acc as int == dec_val(v@.subrange(start as int, i as int)),
        decreases end - i,
    {
        let c = v[i];
        let d = (c as u32 - 48) as u64;
        proof {
            assert(forall|m: int| 0 <= m < full.len() ==> is_digit(#[trigger] full[m]));
            lemma_dec_val_prefix(full, i + 1 - start);
            assert(full.take(i + 1 - start) =~= v@.subrange(start as int, i + 1));
            assert(v@.subrange(start as int, i + 1).drop_last() =~= v@.subrange(
                start as int,
                i as int,
            ));
            lemma_dec_val_nonneg(v@.subrange(start as int, i as int));
        }
        acc = acc * 10 + d;
        i = i + 1;
    }
    proof {
        assert(v@.subrange(start as int, end as int) == full);
    }
    acc
}

/// The longest whitespace-free prefix.
pub open spec fn take_token(s: Seq<char>) -> Seq<char>
    decreases s.len(),
{
    if s.len() == 0 || is_space(s[0]) {
        Seq::empty()
    } else {
        seq![s[0]] + take_token(s.drop_first())
    }
}

/// A token taken from a non-space position is nonempty and no longer than
/// the text.
pub proof fn lemma_take_token_len(s: Seq<char>)
    ensures
        take_token(s).len() <= s.len(),
        s.len() > 0 && !is_space(s[0]) ==> take_token(s).len() >= 1,
    decreases s.len(),
{
    if s.len() > 0 && !is_space(s[0]) {
        lemma_take_token_len(s.drop_first());
    }
}

/// The whitespace-separated tokens of `s`, in order.
pub open spec fn split_ws(s: Seq<char>) -> Seq<Seq<char>>
    decreases s.len(),
    via split_ws_decreases
{
    if s.len() == 0 {
        Seq::empty()
    } else if is_space(s[0]) {
        split_ws(s.drop_first())
    } else {
        seq![take_token(s)] + split_ws(s.skip(take_token(s).len() as int))
    }
}

#[via_fn]
proof fn split_ws_decreases(s: Seq<char>) {
    lemma_take_token_len(s);
}

/// A whitespace-free run of `s` is its own token.
pub proof fn lemma_take_token_range(s: Seq<char>, i: int, j: int)
    requires
        0 <= i <= j <= s.len(),
        forall|m: int| i <= m < j ==> !is_space(#[trigger] s[m]),
        j == s.len() || is_space(s[j]),
        i < j,
    ensures
        take_token(s.skip(i)) == s.subrange(i, j),
    decreases j - i,
{
    let t = s.skip(i);
    assert(t[0] == s[i]);
    if i + 1 == j {
        if j < s.len() {
            assert(is_space(t.drop_first()[0]));
        }
        assert(take_token(t.drop_first()) =~= Seq::<char>::empty());
        assert(take_token(t) =~= s.subrange(i, j));
    } else {
        lemma_take_token_range(s, i + 1, j);
        assert(t.drop_first() =~= s.skip(i + 1));
        assert(take_token(t) =~= seq![s[i]] + s.subrange(i + 1, j));
        assert(take_token(t) =~= s.subrange(i, j));
    }
}

/// A number below a thousand renders as at most three digits.
pub proof fn lemma_dec_chars_len_small(n: nat)
    requires
        n < 1000,
    ensures
        dec_chars(n).len() <= 3,
{
    if n >= 10 {
        if n / 10 < 10 {
            assert(dec_chars(n / 10).len() == 1);
        } else {
            assert(dec_chars(n / 10 / 10).len() == 1);
            assert(dec_chars(n / 10).len() == 2);
        }
        assert(dec_chars(n).len() == dec_chars(n / 10).len() + 1);
    }
}

fn dec_digit_char_exec(d: u64) -> (c: char)
    requires
        d < 10,
    ensures
        c == dec_digit_char(d as int),
{
    match d {
        0 => '0',
        1 => '1',
        2 => '2',
        3 => '3',
        4 => '4',
        5 => '5',
        6 => '6',
        7 => '7',
        8 => '8',
        _ => '9',
    }
}

/// Appends the decimal rendering of `n` to `v`.
pub fn push_decimal(v: &mut Vec<char>, n: u64)
    ensures
        final (v)@ == old(v)@ + dec_chars(n as nat),
    decreases n,
{
    if n < 10 {
        v.push(dec_digit_char_exec(n));
    } else {
        push_decimal(v, n / 10);
        v.push(dec_digit_char_exec(n % 10));
    }
    assert(v@ =~= old(v)@ + dec_chars(n as nat));
}

} // verus!
