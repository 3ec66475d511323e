//! The knot hash digest as a value: a 32-character lowercase hex string,
//! with a binary rendering used to build bit grids.

use vstd::prelude::*;
use crate::knot::List;
use crate::knot::MAX_HASH_INPUT;
use crate::knot::get_dense_hash;
use crate::knot::hex_chars;
use crate::knot::hex_digit_char;
use crate::knot::hex_pair;
use crate::knot::lemma_dense_bounds;
use crate::knot::run;
use crate::knot::spec_knot_hash;
use crate::knot::valid_hash_input;
use crate::text::string_from_chars;

verus! {

/// The character for one bit.
pub open spec fn bit_char(b: int) -> char {
    if b == 1 {
        '1'
    } else {
        '0'
    }
}

/// The 4-bit zero-padded binary rendering of one hex digit value.
pub open spec fn bits4(d: int) -> Seq<char> {
    seq![
        bit_char((d / 8) % 2),
        bit_char((d / 4) % 2),
        bit_char((d / 2) % 2),
        bit_char(d % 2),
    ]
}

/// The value of one lowercase hex digit character.
pub open spec fn hex_val(c: char) -> int {
    if c == '0' {
        0
    } else if c == '1' {
        1
    } else if c == '2' {
        2
    } else if c == '3' {
        3
    } else if c == '4' {
        4
    } else if c == '5' {
        5
    } else if c == '6' {
        6
    } else if c == '7' {
        7
    } else if c == '8' {
        8
    } else if c == '9' {
        9
    } else if c == 'a' {
        10
    } else if c == 'b' {
        11
    } else if c == 'c' {
        12
    } else if c == 'd' {
        13
    } else if c == 'e' {
        14
    } else {
        15
    }
}

/// The binary expansion of a hex string: each digit becomes its 4 bits, in
/// digit order.
pub open spec fn bin_chars(h: Seq<char>) -> Seq<char>
    decreases h.len(),
{
    if h.len() == 0 {
        Seq::empty()
    } else {
        bin_chars(h.drop_last()) + bits4(hex_val(h.last()))
    }
}

/// A binary expansion has four characters per hex digit.
pub proof fn lemma_bin_chars_len(h: Seq<char>)
    ensures
        bin_chars(h).len() == 4 * h.len(),
    decreases h.len(),
{
    if h.len() == 0 {
    } else {
        lemma_bin_chars_len(h.drop_last());
    }
}

/// Reading a rendered hex digit back gives the digit.
proof fn lemma_hex_val_inverse(d: int)
    requires
        0 <= d < 16,
    ensures
        hex_val(hex_digit_char(d)) == d,
{
}

/// Appending one hex pair to a hex string appends the 8 bits of the byte to
/// its binary expansion.
proof fn lemma_bin_chars_pair(h: Seq<char>, v: int)
    requires
        0 <= v < 256,
    ensures
        bin_chars(h + hex_pair(v)) == bin_chars(h) + bits4(v / 16) + bits4(v % 16),
{
    let h1 = h.push(hex_digit_char(v / 16));
    let h2 = h1.push(hex_digit_char(v % 16));
    assert(h + hex_pair(v) =~= h2);
    assert(h2.drop_last() =~= h1);
    assert(h1.drop_last() =~= h);
    lemma_hex_val_inverse(v / 16);
    lemma_hex_val_inverse(v % 16);
    assert(bin_chars(h2) == bin_chars(h1) + bits4(v % 16));
    assert(bin_chars(h1) == bin_chars(h) + bits4(v / 16));
    assert(bin_chars(h) + bits4(v / 16) + bits4(v % 16) =~= (bin_chars(h) + bits4(v / 16)) + bits4(
        v % 16,
    ));
}

fn bit_char_exec(b: i64) -> (c: char)
    requires
        0 <= b <= 1,
    ensures
        c == bit_char(b as int),
{
    if b == 1 {
        '1'
    } else {
        '0'
    }
}

/// A computed knot hash digest.
pub struct KnotHash {
    hex: String,
    dense: Vec<i64>,
}

impl View for KnotHash {
    type V = Seq<char>;

    /// The digest as its 32-character hex string.
    closed spec fn view(&self) -> Seq<char> {
        self.hex@
    }
}

impl KnotHash {
    /// The hex string agrees with the retained dense hash, whose 16 entries
    /// are bytes.
    pub closed spec fn wf(&self) -> bool {
        &&& self.dense@.len() == 16
        &&& forall|i: int| 0 <= i < 16 ==> 0 <= #[trigger] self.dense@[i] < 256
        &&& self.hex@ == hex_chars(self.dense@)
    }

    /// Computes the knot hash of `input`: 64 rounds over a fresh buffer,
    /// dense reduction, hex rendering.
    pub fn new(input: &str) -> (r: KnotHash)
        requires
            valid_hash_input(input@),
            input@.len() <= MAX_HASH_INPUT,
        ensures
            r@ == spec_knot_hash(input@),
            r.wf(),
    {
        let mut list = List::new();
        proof {
            assert(forall|i: int| 0 <= i < 256 ==> 0 <= #[trigger] list.list@[i] < 256);
        }
        let hex = run(input, &mut list);
        let dense = get_dense_hash(&list);
        proof {
            lemma_dense_bounds(list.list@);
        }
        KnotHash { hex, dense }
    }

    /// The digest as a freshly allocated hex string.
    pub fn hex_string(&self) -> (r: String)
        ensures
            r@ == self@,
    {
        self.hex.clone()
    }

    /// The digest as a 128-character binary string: 4 zero-padded bits per
    /// hex digit, in digit order.
    #[verifier::rlimit(50)]
    pub fn to_bin_str(&self) -> (r: String)
        requires
            self.wf(),
        ensures
            r@ == bin_chars(self@),
    {
        let mut bits: Vec<char> = Vec::new();
        let mut i: usize = 0;
        while i < self.dense.len()
            invariant
                self.wf(),
                self.dense@.len() == 16,
                i <= 16,
                bits@ == bin_chars(hex_chars(self.dense@.take(i as int))),
            decreases 16 - i,
        {
            let v = self.dense[i];
            assert(0 <= v < 256);
            let ghost b0 = bits@;
            let hi = v / 16;
            let lo = v % 16;
            bits.push(bit_char_exec((hi / 8) % 2));
            bits.push(bit_char_exec((hi / 4) % 2));
            bits.push(bit_char_exec((hi / 2) % 2));
            bits.push(bit_char_exec(hi % 2));
            proof {
                assert(bits@ =~= b0 + bits4(hi as int));
            }
            let ghost b1 = bits@;
            bits.push(bit_char_exec((lo / 8) % 2));
            bits.push(bit_char_exec((lo / 4) % 2));
            bits.push(bit_char_exec((lo / 2) % 2));
            bits.push(bit_char_exec(lo % 2));
            proof {
                assert(bits@ =~= b1 + bits4(lo as int));
                let prefix = hex_chars(self.dense@.take(i as int));
                assert(self.dense@.take(i + 1).drop_last() =~= self.dense@.take(i as int));
                assert(self.dense@.take(i + 1).last() == self.dense@[i as int]);
                assert(hex_chars(self.dense@.take(i + 1)) =~= prefix + hex_pair(v as int));
                lemma_bin_chars_pair(prefix, v as int);
                assert(bits@ =~= bin_chars(prefix) + bits4(hi as int) + bits4(lo as int));
            }
            i = i + 1;
        }
        proof {
            assert(self.dense@.take(16) =~= self.dense@);
        }
        string_from_chars(&bits)
    }
}

} // verus!
