//! An arbitrary-length sequence of bits, packed little-endian into 64-bit
//! words: bit `i` lives in word `i / 64` at offset `i % 64`, and bit 0 is the
//! least significant bit of word 0.
//!
//! The mathematical model of a `BitString` is its view, a `Seq<bool>` of
//! exactly `length` bits. Every public operation keeps the vector canonical:
//! the word count is exactly `ceil(length / 64)` and every storage bit at or
//! beyond `length` is zero (`wf`).

use vstd::arithmetic::div_mod::{lemma_div_is_ordered, lemma_fundamental_div_mod};
use vstd::prelude::*;
use vstd::string::StrSliceExecFns;
use vstd::string::StringExecFns;
use vstd::string::StringSliceAdditionalSpecFns;

use crate::KeccakError;

verus! {

/// Bit `j` of the word `w`, for `j < 64`.
pub open spec fn word_bit(w: u64, j: u64) -> bool {
    (w >> j) & 1u64 == 1u64
}

/// Bit `j` of the byte `b`, for `j < 8`.
pub open spec fn byte_bit(b: u8, j: u8) -> bool {
    (b >> j) & 1u8 == 1u8
}

/// Bit `i` of a word sequence under the little-endian packing.
pub open spec fn seq_bit(words: Seq<u64>, i: int) -> bool {
    word_bit(words[i / 64], (i % 64) as u64)
}

/// How many words a canonical vector of `n` bits occupies.
pub open spec fn words_for(n: nat) -> nat {
    if n == 0 {
        0
    } else {
        ((n - 1) / 64 + 1) as nat
    }
}

/// The all-zero bit sequence of length `n`.
pub open spec fn zero_bits(n: nat) -> Seq<bool> {
    Seq::new(n, |i: int| false)
}

/// `s` cut or zero-extended to exactly `n` bits.
pub open spec fn resize_bits(s: Seq<bool>, n: nat) -> Seq<bool> {
    Seq::new(n, |i: int| i < s.len() && s[i])
}

/// The result of shifting `s` up by `n` fresh zero bits.
pub open spec fn shl_bits(s: Seq<bool>, n: nat) -> Seq<bool> {
    zero_bits(n) + s
}

/// The result of dropping the lowest `n` bits of `s`.
pub open spec fn shr_bits(s: Seq<bool>, n: nat) -> Seq<bool> {
    if n <= s.len() {
        s.skip(n as int)
    } else {
        Seq::empty()
    }
}

/// An arbitrary-length, word-packed sequence of bits.
#[derive(Debug)]
pub struct BitString {
    /// The backing words, little-endian across the sequence.
    pub array: Vec<u64>,
    /// The number of bits the vector holds.
    pub length: usize,
}

impl View for BitString {
    type V = Seq<bool>;

    open spec fn view(&self) -> Seq<bool> {
        Seq::new(self.length as nat, |i: int| seq_bit(self.array@, i))
    }
}

impl BitString {
    /// Canonical form: exactly `ceil(length / 64)` words (none when the
    /// vector is empty), and every storage bit at or beyond `length` zero.
    pub open spec fn wf(&self) -> bool {
        &&& self.array@.len() == words_for(self.length as nat)
        &&& forall|i: int|
            self.length <= i < 64 * self.array@.len() ==> !seq_bit(self.array@, i)
    }

    /// The empty vector: no bits, no words.
    pub fn new() -> (r: BitString)
        ensures
            r.wf(),
            r.length == 0,
            r@ == Seq::<bool>::empty(),
    {
        let r = BitString { array: Vec::new(), length: 0 };
        proof {
            assert(r@ =~= Seq::<bool>::empty());
        }
        r
    }

    /// An all-zero vector of exactly `length` bits.
    pub fn zeroes(length: usize) -> (r: BitString)
        ensures
            r.wf(),
            r.length == length,
            r@ == zero_bits(length as nat),
    {
        let n_words: usize = if length == 0 {
            0
        } else {
            (length - 1) / 64 + 1
        };
        let mut array: Vec<u64> = Vec::new();
        for k in 0..n_words
            invariant
                array@.len() == k,
                forall|t: int| 0 <= t < k ==> array@[t] == 0u64,
        {
            array.push(0u64);
        }
        let r = BitString { array, length };
        proof {
            assert forall|i: int| 0 <= i < 64 * r.array@.len() implies !seq_bit(
                r.array@,
                i,
            ) by {
                lemma_div_is_ordered(i, 64 * r.array@.len() - 1, 64);
                lemma_div_in_bounds(i, r.array@.len() as int);
                lemma_word_bit_zero((i % 64) as u64);
            }
            assert(r@ =~= zero_bits(length as nat));
        }
        r
    }

    /// Bit `i` of the vector.
    pub fn get_bit(&self, i: usize) -> (b: bool)
        requires
            self.wf(),
            i < self.length,
        ensures
            b == self@[i as int],
    {
        proof {
            lemma_bit_index_in_bounds(self, i as int);
        }
        let w: u64 = self.array[i / 64];
        let sh: u64 = (i % 64) as u64;
        (w >> sh) & 1u64 == 1u64
    }

    /// Sets bit `i` of the vector to `b`, leaving every other bit alone.
    pub fn set_bit(&mut self, i: usize, b: bool)
        requires
            old(self).wf(),
            i < old(self).length,
        ensures
            final(self).wf(),
            final(self).length == old(self).length,
            final(self)@ == old(self)@.update(i as int, b),
    {
        proof {
            lemma_bit_index_in_bounds(old(self), i as int);
        }
        let wi: usize = i / 64;
        let sh: u64 = (i % 64) as u64;
        let w: u64 = self.array[wi];
        let neww: u64 = if b {
            w | (1u64 << sh)
        } else {
            w & !(1u64 << sh)
        };
        self.array[wi] = neww;
        proof {
            let oldw = old(self).array@;
            let newa = self.array@;
            assert forall|k: int| 0 <= k < 64 * newa.len() implies seq_bit(newa, k) == (
            if k == i {
                b
            } else {
                seq_bit(oldw, k)
            }) by {
                lemma_div_in_bounds(k, newa.len() as int);
                lemma_fundamental_div_mod(k, 64);
                lemma_fundamental_div_mod(i as int, 64);
                if k / 64 == wi {
                    if b {
                        lemma_word_bit_or(w, sh, (k % 64) as u64);
                    } else {
                        lemma_word_bit_and_not(w, sh, (k % 64) as u64);
                    }
                } else {
                    assert(newa[k / 64] == oldw[k / 64]);
                }
            }
            assert(self@ =~= old(self)@.update(i as int, b));
        }
    }
    /// The hex rendering of the vector: each word's bytes least significant
    /// first, two upper-case digits per byte, bytes at or beyond `length`
    /// skipped, one space between words; empty for the empty vector.
    pub fn to_string(&self) -> (r: String)
        requires
            self.wf(),
        ensures
            r@ == if self.length > 0 && self.array@.len() > 0 {
                hex_words(self.array@, 0, self.length as nat)
            } else {
                Seq::<char>::empty()
            },
    {
        let mut out = String::new();
        if self.length > 0 && self.array.len() > 0 {
            let ghost words = self.array@;
            let ghost len = self.length as nat;
            for i in 0..self.array.len()
                invariant
                    self.wf(),
                    self.length > 0,
                    words == self.array@,
                    len == self.length as nat,
                    hex_words(words, 0, len) == out@ + hex_words(words, i as nat, len),
            {
                let w: u64 = self.array[i];
                proof {
                    assert(64 * i <= 64 * ((self.length - 1) as int / 64)) by (nonlinear_arith)
                        requires
                            0 <= i <= (self.length - 1) as int / 64,
                    ;
                    lemma_fundamental_div_mod((self.length - 1) as int, 64);
                }
                let base: usize = 64 * i;
                let rem_bits: usize = self.length - base;
                let ghost entry = out@;
                for j in 0..8usize
                    invariant
                        w == words[i as int],
                        i < words.len(),
                        base == 64 * i,
                        rem_bits == len - base,
                        entry + hex_word_part(w, i as nat, 0, len) == out@ + hex_word_part(
                            w,
                            i as nat,
                            j as nat,
                            len,
                        ),
                {
                    let sh: u64 = (8 * j) as u64;
                    let byte: u64 = (w >> sh) & 0xFF;
                    proof {
                        assert((w >> sh) & 0xFF < 256) by (bit_vector);
                    }
                    if 8 * j < rem_bits {
                        out.append(hex_str(byte / 16));
                        out.append(hex_str(byte % 16));
                        proof {
                            assert(hex_word_part(w, i as nat, j as nat, len) =~= byte_hex(byte)
                                + hex_word_part(w, i as nat, (j + 1) as nat, len));
                        }
                    }
                }
                if i < self.array.len() - 1 {
                    out.append(" ");
                    proof {
                        reveal_strlit(" ");
                        assert(" "@ =~= seq![' ']);
                    }
                }
                proof {
                    assert(hex_word_part(w, i as nat, 8, len) =~= Seq::<char>::empty());
                    assert(hex_words(words, i as nat, len) == hex_word_part(w, i as nat, 0, len)
                        + (if i + 1 < words.len() {
                        seq![' ']
                    } else {
                        Seq::<char>::empty()
                    }) + hex_words(words, (i + 1) as nat, len));
                    assert(hex_words(words, 0, len) =~= out@ + hex_words(
                        words,
                        (i + 1) as nat,
                        len,
                    ));
                }
            }
            proof {
                assert(hex_words(words, words.len(), len) =~= Seq::<char>::empty());
                assert(out@ =~= hex_words(words, 0, len));
            }
        }
        out
    }

    /// The swapped hex rendering for cross-checking against bit-reversed,
    /// byte-reversed test-vector listings: words highest first, each word's
    /// bytes most significant first, each byte bit-reversed and preceded by
    /// a space.
    pub fn to_swapped_string(&self) -> (r: String)
        requires
            self.wf(),
        ensures
            r@ == if self.length > 0 && self.array@.len() > 0 {
                swapped_hex(self.array@, 0)
            } else {
                Seq::<char>::empty()
            },
    {
        let mut out = String::new();
        if self.length > 0 && self.array.len() > 0 {
            let ghost words = self.array@;
            for i in 0..self.array.len()
                invariant
                    self.wf(),
                    words == self.array@,
                    swapped_hex(words, 0) == out@ + swapped_hex(words, i as nat),
            {
                let w: u64 = self.array[self.array.len() - 1 - i];
                let ghost entry = out@;
                for j in 0..8usize
                    invariant
                        w == words[words.len() - 1 - i],
                        i < words.len(),
                        entry + swapped_word_hex(w, 0) == out@ + swapped_word_hex(w, j as nat),
                {
                    let sh: u64 = (8 * (7 - j)) as u64;
                    let byte: u8 = ((w >> sh) & 0xFF) as u8;
                    let rb: u8 = ((byte & 0x01) << 7u8) | ((byte & 0x02) << 5u8) | ((byte & 0x04)
                        << 3u8) | ((byte & 0x08) << 1u8) | ((byte & 0x10) >> 1u8) | ((byte & 0x20)
                        >> 3u8) | ((byte & 0x40) >> 5u8) | ((byte & 0x80) >> 7u8);
                    out.append(" ");
                    out.append(hex_str((rb as u64) / 16));
                    out.append(hex_str((rb as u64) % 16));
                    proof {
                        reveal_strlit(" ");
                        assert(" "@ =~= seq![' ']);
                        assert(swapped_word_hex(w, j as nat) =~= seq![' '] + byte_hex(rb as u64)
                            + swapped_word_hex(w, (j + 1) as nat));
                    }
                }
                proof {
                    assert(swapped_word_hex(w, 8) =~= Seq::<char>::empty());
                    assert(swapped_hex(words, i as nat) == swapped_word_hex(w, 0) + swapped_hex(
                        words,
                        (i + 1) as nat,
                    ));
                    assert(swapped_hex(words, 0) =~= out@ + swapped_hex(words, (i + 1) as nat));
                }
            }
            proof {
                assert(swapped_hex(words, words.len()) =~= Seq::<char>::empty());
                assert(out@ =~= swapped_hex(words, 0));
            }
        }
        out
    }

    /// An independent deep clone of the vector.
    pub fn copy(&self) -> (r: BitString)
        requires
            self.wf(),
        ensures
            r.wf(),
            r.length == self.length,
            r.array@ == self.array@,
            r@ == self@,
    {
        let mut array: Vec<u64> = Vec::new();
        for i in 0..self.array.len()
            invariant
                array@.len() == i,
                forall|t: int| 0 <= t < i ==> array@[t] == self.array@[t],
        {
            array.push(self.array[i]);
        }
        proof {
            assert(array@ =~= self.array@);
        }
        let r = BitString { array, length: self.length };
        proof {
            assert(r@ =~= self@);
        }
        r
    }

    /// A vector of exactly `length` bits read out of the raw word sequence
    /// `array`, canonicalized: bits the words do not cover are zero, and
    /// surplus words are dropped.
    pub fn from_bitstring(array: Vec<u64>, length: usize) -> (r: BitString)
        ensures
            r.wf(),
            r.length == length,
            forall|i: int|
                0 <= i < length ==> r@[i] == (i < 64 * array@.len() && seq_bit(array@, i)),
    {
        let mut r = BitString::zeroes(length);
        for i in 0..length
            invariant
                r.wf(),
                r.length == length,
                forall|k: int|
                    0 <= k < i ==> r@[k] == (k < 64 * array@.len() && seq_bit(array@, k)),
                forall|k: int| i <= k < length ==> !r@[k],
        {
            let wi: usize = i / 64;
            if wi < array.len() {
                proof {
                    lemma_fundamental_div_mod(i as int, 64);
                }
                let sh: u64 = (i % 64) as u64;
                if (array[wi] >> sh) & 1u64 == 1u64 {
                    r.set_bit(i, true);
                }
            } else {
                proof {
                    if i < 64 * array@.len() {
                        lemma_div_in_bounds(i as int, array@.len() as int);
                    }
                }
            }
        }
        r
    }

    /// Truncates (dropping high bits) or zero-extends the vector to exactly
    /// `c` bits, leaving it canonical.
    pub fn change_length(&mut self, c: usize)
        requires
            old(self).wf(),
        ensures
            final(self).wf(),
            final(self).length == c,
            final(self)@ == resize_bits(old(self)@, c as nat),
    {
        let keep: usize = if c < self.length {
            c
        } else {
            self.length
        };
        let mut r = BitString::zeroes(c);
        for i in 0..keep
            invariant
                keep <= c,
                keep <= self.length,
                self.wf(),
                r.wf(),
                r.length == c,
                forall|k: int| 0 <= k < i ==> r@[k] == self@[k],
                forall|k: int| i <= k < c ==> !r@[k],
        {
            let b = self.get_bit(i);
            r.set_bit(i, b);
        }
        proof {
            assert(r@ =~= resize_bits(self@, c as nat));
        }
        *self = r;
    }

    /// Shifts every bit up by `shift` positions, filling the vacated low
    /// bits with zero and growing the length by `shift`.
    pub fn left_shift(&mut self, shift: usize)
        requires
            old(self).wf(),
            old(self).length + shift <= usize::MAX,
        ensures
            final(self).wf(),
            final(self).length == old(self).length + shift,
            final(self)@ == shl_bits(old(self)@, shift as nat),
    {
        let n: usize = self.length + shift;
        let mut r = BitString::zeroes(n);
        for i in 0..self.length
            invariant
                n == self.length + shift,
                self.wf(),
                r.wf(),
                r.length == n,
                forall|k: int| shift <= k < shift + i ==> r@[k] == self@[k - shift],
                forall|k: int| 0 <= k < shift ==> !r@[k],
                forall|k: int| shift + i <= k < n ==> !r@[k],
        {
            let b = self.get_bit(i);
            r.set_bit(shift + i, b);
        }
        proof {
            assert(r@ =~= shl_bits(self@, shift as nat));
        }
        *self = r;
    }

    /// Drops the lowest `shift` bits and moves the remainder down; shifting
    /// by the whole length or more empties the vector.
    pub fn right_shift(&mut self, shift: usize)
        requires
            old(self).wf(),
        ensures
            final(self).wf(),
            final(self)@ == shr_bits(old(self)@, shift as nat),
            final(self).length == if shift <= old(self).length {
                old(self).length - shift
            } else {
                0
            },
    {
        if shift >= self.length {
            *self = BitString::new();
            proof {
                assert(self@ =~= shr_bits(old(self)@, shift as nat));
            }
        } else {
            let n: usize = self.length - shift;
            let mut r = BitString::zeroes(n);
            for i in 0..n
                invariant
                    n == self.length - shift,
                    self.wf(),
                    r.wf(),
                    r.length == n,
                    forall|k: int| 0 <= k < i ==> r@[k] == self@[k + shift],
                    forall|k: int| i <= k < n ==> !r@[k],
            {
                let b = self.get_bit(i + shift);
                r.set_bit(i, b);
            }
            proof {
                assert(r@ =~= shr_bits(self@, shift as nat));
            }
            *self = r;
        }
    }

    /// Concatenates `string_to_join`'s bits immediately after `self`'s bits,
    /// in place: bit `length - 1` of `self` is followed by bit 0 of the
    /// joined vector.
    pub fn append(&mut self, string_to_join: &BitString)
        requires
            old(self).wf(),
            string_to_join.wf(),
            old(self).length + string_to_join.length <= usize::MAX,
        ensures
            final(self).wf(),
            final(self).length == old(self).length + string_to_join.length,
            final(self)@ == old(self)@ + string_to_join@,
    {
        let n: usize = self.length + string_to_join.length;
        let mut r = BitString::zeroes(n);
        for i in 0..self.length
            invariant
                n == self.length + string_to_join.length,
                self.wf(),
                string_to_join.wf(),
                r.wf(),
                r.length == n,
                forall|k: int| 0 <= k < i ==> r@[k] == self@[k],
                forall|k: int| i <= k < n ==> !r@[k],
        {
            let b = self.get_bit(i);
            r.set_bit(i, b);
        }
        let base: usize = self.length;
        for j in 0..string_to_join.length
            invariant
                base == self.length,
                n == self.length + string_to_join.length,
                self.wf(),
                string_to_join.wf(),
                r.wf(),
                r.length == n,
                forall|k: int| 0 <= k < base ==> r@[k] == self@[k],
                forall|k: int| base <= k < base + j ==> r@[k] == string_to_join@[k - base],
                forall|k: int| base + j <= k < n ==> !r@[k],
        {
            let b = string_to_join.get_bit(j);
            r.set_bit(base + j, b);
        }
        proof {
            assert(r@ =~= self@ + string_to_join@);
        }
        *self = r;
    }

    /// The bits of the 0-based, half-open range `lo..hi`, reindexed to start
    /// at 0.
    pub(crate) fn slice_bits(&self, lo: usize, hi: usize) -> (r: BitString)
        requires
            self.wf(),
            lo <= hi <= self.length,
        ensures
            r.wf(),
            r.length == hi - lo,
            r@ == self@.subrange(lo as int, hi as int),
    {
        let n: usize = hi - lo;
        let mut r = BitString::zeroes(n);
        for i in 0..n
            invariant
                n == hi - lo,
                lo <= hi <= self.length,
                self.wf(),
                r.wf(),
                r.length == n,
                forall|k: int| 0 <= k < i ==> r@[k] == self@[k + lo],
                forall|k: int| i <= k < n ==> !r@[k],
        {
            let b = self.get_bit(lo + i);
            r.set_bit(i, b);
        }
        proof {
            assert(r@ =~= self@.subrange(lo as int, hi as int));
        }
        r
    }

    /// Packs a byte sequence: byte `i` occupies bits `8 * i ..= 8 * i + 7`,
    /// least significant bit first, byte 0 lowest.
    pub fn from_byte_array(input_byte_array: Vec<u8>) -> (r: BitString)
        requires
            8 * input_byte_array@.len() <= usize::MAX,
        ensures
            r.wf(),
            r.length == 8 * input_byte_array@.len(),
            forall|i: int|
                0 <= i < 8 * input_byte_array@.len() ==> r@[i] == byte_bit(
                    input_byte_array@[i / 8],
                    (i % 8) as u8,
                ),
    {
        let n: usize = 8 * input_byte_array.len();
        let mut r = BitString::zeroes(n);
        for i in 0..input_byte_array.len()
            invariant
                n == 8 * input_byte_array@.len(),
                r.wf(),
                r.length == n,
                forall|k: int|
                    0 <= k < 8 * i ==> r@[k] == byte_bit(input_byte_array@[k / 8], (k % 8) as u8),
                forall|k: int| 8 * i <= k < n ==> !r@[k],
        {
            let byte: u8 = input_byte_array[i];
            for j in 0..8usize
                invariant
                    n == 8 * input_byte_array@.len(),
                    i < input_byte_array@.len(),
                    byte == input_byte_array@[i as int],
                    r.wf(),
                    r.length == n,
                    forall|k: int|
                        0 <= k < 8 * i + j ==> r@[k] == byte_bit(
                            input_byte_array@[k / 8],
                            (k % 8) as u8,
                        ),
                    forall|k: int| 8 * i + j <= k < n ==> !r@[k],
            {
                let sh: u8 = j as u8;
                let b = (byte >> sh) & 1u8 == 1u8;
                proof {
                    assert((8 * i + j) / 8 == i && (8 * i + j) % 8 == j) by (nonlinear_arith)
                        requires
                            0 <= j < 8,
                            0 <= i,
                    ;
                }
                if b {
                    r.set_bit(8 * i + j, true);
                } else {
                    proof {
                        assert(!r@[8 * i + j]);
                    }
                }
            }
        }
        r
    }

    /// Packs the UTF-8 bytes of a character string, byte 0 lowest, each byte
    /// least significant bit first.
    pub fn from_string(input_string: &str) -> (r: BitString)
        requires
            8 * input_string.spec_bytes().len() <= usize::MAX,
        ensures
            r.wf(),
            r.length == 8 * input_string.spec_bytes().len(),
            forall|i: int|
                0 <= i < 8 * input_string.spec_bytes().len() ==> r@[i] == byte_bit(
                    input_string.spec_bytes()[i / 8],
                    (i % 8) as u8,
                ),
    {
        let bytes: &[u8] = input_string.as_bytes();
        let mut v: Vec<u8> = Vec::new();
        for i in 0..bytes.len()
            invariant
                bytes@ == input_string.spec_bytes(),
                v@.len() == i,
                forall|t: int| 0 <= t < i ==> v@[t] == bytes@[t],
        {
            v.push(bytes[i]);
        }
        proof {
            assert(v@ =~= input_string.spec_bytes());
        }
        BitString::from_byte_array(v)
    }

    /// Reads a string of `'0'` and `'1'` characters, character `i` becoming
    /// bit `i`; any other character yields `InvalidParameter`.
    pub fn from_binary_string(input_string: &str) -> (r: Result<BitString, KeccakError>)
        ensures
            r.is_ok() <==> (forall|i: int|
                0 <= i < input_string@.len() ==> (input_string@[i] == '0' || input_string@[i]
                    == '1')),
            r matches Ok(b) ==> {
                &&& b.wf()
                &&& b.length == input_string@.len()
                &&& forall|i: int| 0 <= i < b@.len() ==> b@[i] == (input_string@[i] == '1')
            },
            r matches Err(e) ==> e == KeccakError::InvalidParameter,
    {
        let n: usize = input_string.unicode_len();
        let mut r = BitString::zeroes(n);
        for i in 0..n
            invariant
                n == input_string@.len(),
                r.wf(),
                r.length == n,
                forall|k: int| 0 <= k < i ==> (input_string@[k] == '0' || input_string@[k] == '1'),
                forall|k: int| 0 <= k < i ==> r@[k] == (input_string@[k] == '1'),
                forall|k: int| i <= k < n ==> !r@[k],
        {
            let c: char = input_string.get_char(i);
            if c == '1' {
                r.set_bit(i, true);
            } else if c != '0' {
                return Err(KeccakError::InvalidParameter);
            }
        }
        Ok(r)
    }

    /// The bits of the 1-based, inclusive range `start..=end` as a fresh
    /// vector, or `RangeError` when the range does not fit: `start` before 1
    /// or after `end`, or `end` beyond the length.
    pub fn extract(&self, start: usize, end: usize) -> (r: Result<BitString, KeccakError>)
        requires
            self.wf(),
        ensures
            r.is_ok() <==> (1 <= start <= end <= self.length),
            r matches Ok(b) ==> {
                &&& b.wf()
                &&& b.length == end - start + 1
                &&& b@ == self@.subrange(start - 1, end as int)
            },
            r matches Err(e) ==> e == KeccakError::RangeError,
    {
        if start < 1 || start > end || end > self.length {
            Err(KeccakError::RangeError)
        } else {
            Ok(self.slice_bits(start - 1, end))
        }
    }
}

/// The upper-case hex digit of a value below 16.
pub open spec fn hex_digit(n: u64) -> char {
    if n == 0 {
        '0'
    } else if n == 1 {
        '1'
    } else if n == 2 {
        '2'
    } else if n == 3 {
        '3'
    } else if n == 4 {
        '4'
    } else if n == 5 {
        '5'
    } else if n == 6 {
        '6'
    } else if n == 7 {
        '7'
    } else if n == 8 {
        '8'
    } else if n == 9 {
        '9'
    } else if n == 10 {
        'A'
    } else if n == 11 {
        'B'
    } else if n == 12 {
        'C'
    } else if n == 13 {
        'D'
    } else if n == 14 {
        'E'
    } else {
        'F'
    }
}

/// The two hex digits of a byte value, most significant nibble first.
pub open spec fn byte_hex(b: u64) -> Seq<char> {
    seq![hex_digit(b / 16), hex_digit(b % 16)]
}

/// The hex digits of bytes `j..8` of word `i`, skipping bytes at or beyond
/// bit `length`.
pub open spec fn hex_word_part(w: u64, i: nat, j: nat, length: nat) -> Seq<char>
    decreases 8 - j,
{
    if j >= 8 {
        Seq::empty()
    } else {
        let rest = hex_word_part(w, i, j + 1, length);
        if 64 * i + 8 * j < length {
            byte_hex((w >> ((8 * j) as u64)) & 0xFF) + rest
        } else {
            rest
        }
    }
}

/// The hex rendering of words `i..`, bytes within each word least
/// significant first, a single space between words.
pub open spec fn hex_words(words: Seq<u64>, i: nat, length: nat) -> Seq<char>
    decreases words.len() - i,
{
    if i >= words.len() {
        Seq::empty()
    } else {
        hex_word_part(words[i as int], i, 0, length) + (if i + 1 < words.len() {
            seq![' ']
        } else {
            Seq::empty()
        }) + hex_words(words, i + 1, length)
    }
}

/// The byte `b` with its bits reversed.
pub open spec fn rev8(b: u8) -> u8 {
    ((b & 0x01) << 7u8) | ((b & 0x02) << 5u8) | ((b & 0x04) << 3u8) | ((b & 0x08) << 1u8) | ((b
        & 0x10) >> 1u8) | ((b & 0x20) >> 3u8) | ((b & 0x40) >> 5u8) | ((b & 0x80) >> 7u8)
}

/// The swapped hex rendering of bytes `j..8` of the word `w`: bytes taken
/// most significant first, each bit-reversed, each preceded by a space.
pub open spec fn swapped_word_hex(w: u64, j: nat) -> Seq<char>
    decreases 8 - j,
{
    if j >= 8 {
        Seq::empty()
    } else {
        seq![' '] + byte_hex(rev8(((w >> ((8 * (7 - j)) as u64)) & 0xFF) as u8) as u64)
            + swapped_word_hex(w, j + 1)
    }
}

/// The swapped hex rendering of words `i..` counted from the highest word
/// down.
pub open spec fn swapped_hex(words: Seq<u64>, i: nat) -> Seq<char>
    decreases words.len() - i,
{
    if i >= words.len() {
        Seq::empty()
    } else {
        swapped_word_hex(words[words.len() - 1 - i], 0) + swapped_hex(words, i + 1)
    }
}

/// The word whose bit `j` is `bits[j]`, for a sequence of at most 64 bits;
/// bits the sequence does not give are zero.
pub open spec fn word_of(bits: Seq<bool>) -> u64
    decreases bits.len(),
{
    if bits.len() == 0 {
        0u64
    } else {
        word_of(bits.drop_last()) | (if bits.last() {
            1u64 << ((bits.len() - 1) as u64)
        } else {
            0u64
        })
    }
}

/// The mask of the low `n` bits of a word.
pub open spec fn low_mask(n: u64) -> u64 {
    if n >= 64 {
        0xFFFF_FFFF_FFFF_FFFFu64
    } else {
        ((1u64 << n) - 1) as u64
    }
}

/// `word_of` of the first `n` bits of `w` is `w` masked to its low `n` bits.
proof fn lemma_word_of_take(w: u64, bits: Seq<bool>, n: int)
    requires
        0 <= n <= 64,
        bits.len() == 64,
        forall|j: int| 0 <= j < 64 ==> bits[j] == word_bit(w, j as u64),
    ensures
        word_of(bits.take(n)) == w & low_mask(n as u64),
    decreases n,
{
    if n == 0 {
        assert(bits.take(0).len() == 0);
        assert(w & low_mask(0) == 0u64) by (bit_vector);
    } else {
        lemma_word_of_take(w, bits, n - 1);
        let j: u64 = (n - 1) as u64;
        assert(bits.take(n).drop_last() =~= bits.take(n - 1));
        assert(bits.take(n).last() == word_bit(w, j));
        assert((w & low_mask(j)) | (if word_bit(w, j) {
            1u64 << j
        } else {
            0u64
        }) == w & low_mask((j + 1) as u64)) by (bit_vector)
            requires
                j < 64,
        ;
    }
}

/// Zero-extending a bit sequence does not change the word it denotes.
proof fn lemma_word_of_pad(bits: Seq<bool>, m: int)
    requires
        bits.len() <= m <= 64,
    ensures
        word_of(Seq::new(m as nat, |j: int| 0 <= j < bits.len() && bits[j])) == word_of(bits),
    decreases m,
{
    let padded = Seq::new(m as nat, |j: int| 0 <= j < bits.len() && bits[j]);
    if m == bits.len() {
        assert(padded =~= bits);
    } else {
        lemma_word_of_pad(bits, m - 1);
        let shorter = Seq::new((m - 1) as nat, |j: int| 0 <= j < bits.len() && bits[j]);
        assert(padded.drop_last() =~= shorter);
        assert(!padded.last());
        let x = word_of(shorter);
        assert(x | 0u64 == x) by (bit_vector);
    }
}


/// Each word of a canonical vector is exactly `word_of` of the bits it
/// packs: the canonical words are determined by the view.
pub proof fn lemma_canonical_word(v: &BitString, k: int)
    requires
        v.wf(),
        0 <= k < v.array@.len(),
    ensures
        v.array@[k] == word_of(
            v@.subrange(
                64 * k,
                if 64 * k + 64 <= v.length {
                    64 * k + 64
                } else {
                    v.length as int
                },
            ),
        ),
{
    let w = v.array@[k];
    let hi: int = if 64 * k + 64 <= v.length {
        64 * k + 64
    } else {
        v.length as int
    };
    assert(64 * k <= 64 * (v.array@.len() - 1)) by (nonlinear_arith)
        requires
            k <= v.array@.len() - 1,
    ;
    assert(64 * k < v.length) by {
        if v.length == 0 {
            assert(v.array@.len() == 0);
        } else {
            assert(v.array@.len() == (v.length - 1) / 64 + 1);
            assert(64 * ((v.length - 1) / 64) <= v.length - 1) by {
                lemma_fundamental_div_mod(v.length - 1, 64);
            }
        }
    }
    let bits64 = Seq::new(64, |j: int| seq_bit(v.array@, 64 * k + j));
    assert forall|j: int| 0 <= j < 64 implies bits64[j] == word_bit(w, j as u64) by {
        assert((64 * k + j) / 64 == k && (64 * k + j) % 64 == j) by (nonlinear_arith)
            requires
                0 <= j < 64,
                0 <= k,
        ;
    }
    lemma_word_of_take(w, bits64, 64);
    assert(bits64.take(64) =~= bits64);
    assert(w & low_mask(64) == w) by (bit_vector);
    let chunk = v@.subrange(64 * k, hi);
    assert forall|j: int| 0 <= j < 64 implies bits64[j] == (0 <= j < chunk.len() && chunk[j]) by {
        if j < chunk.len() {
            assert(chunk[j] == v@[64 * k + j]);
        } else {
            assert(64 * k + j < 64 * v.array@.len()) by (nonlinear_arith)
                requires
                    0 <= j < 64,
                    k < v.array@.len(),
            ;
            assert(!seq_bit(v.array@, 64 * k + j));
        }
    }
    lemma_word_of_pad(chunk, 64);
    assert(bits64 =~= Seq::new(64, |j: int| 0 <= j < chunk.len() && chunk[j]));
}


/// Shift inverse: left-shifting a vector's bits up by `n` and then dropping
/// the `n` low bits of the result reproduces the vector exactly. These are
/// the transformations `left_shift` and `right_shift` perform.
pub proof fn lemma_shift_inverse(v: &BitString, n: nat)
    requires
        v.wf(),
        n <= v.length,
    ensures
        shr_bits(shl_bits(v@, n), n) == v@,
{
    assert(shr_bits(shl_bits(v@, n), n) =~= v@);
}

/// Extract identity: the full 1-based range `1..=length`, which `extract`
/// returns as `self@.subrange(0, length)`, is the whole vector — so
/// `extract(1, length)` equals `copy()` for any non-empty vector.
pub proof fn lemma_extract_identity(v: &BitString)
    requires
        v.wf(),
        v.length > 0,
    ensures
        v@.subrange(0, v.length as int) == v@,
{
    assert(v@.subrange(0, v.length as int) =~= v@);
}

/// Split reconstruction: the bits `extract(1, k)` returns, followed by the
/// bits `extract(k + 1, length)` returns, reproduce the vector, for every
/// valid split point `k`.
pub proof fn lemma_extract_split(v: &BitString, k: usize)
    requires
        v.wf(),
        1 <= k < v.length,
    ensures
        v@.subrange(0, k as int) + v@.subrange(k as int, v.length as int) == v@,
{
    assert(v@.subrange(0, k as int) + v@.subrange(k as int, v.length as int) =~= v@);
}


/// The one-character string of the hex digit of a value below 16.
pub(crate) fn hex_str(n: u64) -> (s: &'static str)
    requires
        n < 16,
    ensures
        s@ == seq![hex_digit(n)],
{
    if n == 0 {
        proof {
            reveal_strlit("0");
            assert("0"@ =~= seq![hex_digit(n)]);
        }
        "0"
    } else if n == 1 {
        proof {
            reveal_strlit("1");
            assert("1"@ =~= seq![hex_digit(n)]);
        }
        "1"
    } else if n == 2 {
        proof {
            reveal_strlit("2");
            assert("2"@ =~= seq![hex_digit(n)]);
        }
        "2"
    } else if n == 3 {
        proof {
            reveal_strlit("3");
            assert("3"@ =~= seq![hex_digit(n)]);
        }
        "3"
    } else if n == 4 {
        proof {
            reveal_strlit("4");
            assert("4"@ =~= seq![hex_digit(n)]);
        }
        "4"
    } else if n == 5 {
        proof {
            reveal_strlit("5");
            assert("5"@ =~= seq![hex_digit(n)]);
        }
        "5"
    } else if n == 6 {
        proof {
            reveal_strlit("6");
            assert("6"@ =~= seq![hex_digit(n)]);
        }
        "6"
    } else if n == 7 {
        proof {
            reveal_strlit("7");
            assert("7"@ =~= seq![hex_digit(n)]);
        }
        "7"
    } else if n == 8 {
        proof {
            reveal_strlit("8");
            assert("8"@ =~= seq![hex_digit(n)]);
        }
        "8"
    } else if n == 9 {
        proof {
            reveal_strlit("9");
            assert("9"@ =~= seq![hex_digit(n)]);
        }
        "9"
    } else if n == 10 {
        proof {
            reveal_strlit("A");
            assert("A"@ =~= seq![hex_digit(n)]);
        }
        "A"
    } else if n == 11 {
        proof {
            reveal_strlit("B");
            assert("B"@ =~= seq![hex_digit(n)]);
        }
        "B"
    } else if n == 12 {
        proof {
            reveal_strlit("C");
            assert("C"@ =~= seq![hex_digit(n)]);
        }
        "C"
    } else if n == 13 {
        proof {
            reveal_strlit("D");
            assert("D"@ =~= seq![hex_digit(n)]);
        }
        "D"
    } else if n == 14 {
        proof {
            reveal_strlit("E");
            assert("E"@ =~= seq![hex_digit(n)]);
        }
        "E"
    } else {
        proof {
            reveal_strlit("F");
            assert("F"@ =~= seq![hex_digit(n)]);
        }
        "F"
    }
}

/// For `0 <= i < 64 * n`, the word index `i / 64` is below `n`.
proof fn lemma_div_in_bounds(i: int, n: int)
    requires
        0 <= i < 64 * n,
    ensures
        0 <= i / 64 < n,
        0 <= i % 64 < 64,
{
    lemma_div_is_ordered(i, 64 * n - 1, 64);
    lemma_mul_div_64(n);
}

/// `(64 * n - 1) / 64 == n - 1` for positive `n`.
proof fn lemma_mul_div_64(n: int)
    requires
        n >= 1,
    ensures
        (64 * n - 1) / 64 == n - 1,
{
    lemma_fundamental_div_mod(64 * n - 1, 64);
    assert((64 * n - 1) == 64 * (n - 1) + 63);
    assert((64 * n - 1) / 64 == n - 1) by (nonlinear_arith)
        requires
            (64 * n - 1) == 64 * (n - 1) + 63,
    ;
}

/// A bit index below `length` addresses a word the canonical vector holds.
proof fn lemma_bit_index_in_bounds(v: &BitString, i: int)
    requires
        v.wf(),
        0 <= i < v.length,
    ensures
        0 <= i / 64 < v.array@.len(),
        0 <= i % 64 < 64,
{
    lemma_div_is_ordered(i, v.length - 1, 64);
    lemma_fundamental_div_mod(i, 64);
}

/// The zero word has no bits set.
proof fn lemma_word_bit_zero(k: u64)
    ensures
        !word_bit(0u64, k),
{
    assert(!((0u64 >> k) & 1u64 == 1u64)) by (bit_vector);
}

/// Setting bit `j` of `w` sets exactly that bit.
proof fn lemma_word_bit_or(w: u64, j: u64, k: u64)
    requires
        j < 64,
        k < 64,
    ensures
        word_bit(w | (1u64 << j), k) == (k == j || word_bit(w, k)),
{
    assert(((w | (1u64 << j)) >> k) & 1u64 == 1u64 <==> (k == j || (w >> k) & 1u64 == 1u64))
        by (bit_vector)
        requires
            j < 64,
            k < 64,
    ;
}

/// Clearing bit `j` of `w` clears exactly that bit.
proof fn lemma_word_bit_and_not(w: u64, j: u64, k: u64)
    requires
        j < 64,
        k < 64,
    ensures
        word_bit(w & !(1u64 << j), k) == (k != j && word_bit(w, k)),
{
    assert(((w & !(1u64 << j)) >> k) & 1u64 == 1u64 <==> (k != j && (w >> k) & 1u64 == 1u64))
        by (bit_vector)
        requires
            j < 64,
            k < 64,
    ;
}

} // verus!
