//! The Keccak sponge construction: a `KeccakP` permutation of width 1600
//! with 24 rounds, a rate, and a bit buffer. Message bits are buffered by
//! `update_buffer`; `finalise` pads with `pad10*1`, absorbs the buffer one
//! rate-sized block at a time, and squeezes out a digest of the requested
//! length.

pub mod keccak_p;

use vstd::arithmetic::div_mod::{lemma_fundamental_div_mod, lemma_mod_multiples_basic};
use vstd::prelude::*;

use crate::bit_string::{
    lemma_canonical_word, resize_bits, seq_bit, word_of, BitString,
};
use crate::keccak::keccak_p::{lanes_masked, lemma_mask64, rounds_spec, KeccakP};
use crate::KeccakError;

verus! {

/// The all-zero 25-lane state.
pub open spec fn zero_lanes() -> Seq<u64> {
    Seq::new(25, |i: int| 0u64)
}

/// The 1600 bits of a 25-lane state, lane `x + 5 y` supplying bits
/// `64 (x + 5 y) ..` — the same little-endian packing `BitString` uses.
pub open spec fn state_bits(s: Seq<u64>) -> Seq<bool> {
    Seq::new(1600, |i: int| seq_bit(s, i))
}

/// Word `k` of a block of at most 1600 bits, zero-extended to the full
/// state width.
pub open spec fn block_word(block: Seq<bool>, k: int) -> u64 {
    word_of(resize_bits(block, 1600).subrange(64 * k, 64 * k + 64))
}

/// A block of at most 1600 bits XORed word-wise into the state.
pub open spec fn xor_block(s: Seq<u64>, block: Seq<bool>) -> Seq<u64> {
    Seq::new(25, |k: int| s[k] ^ block_word(block, k))
}

/// The full 24-round width-1600 permutation, round indices 0 to 23.
pub open spec fn perm24(s: Seq<u64>) -> Seq<u64> {
    rounds_spec(s, 64, 6, 0, 24)
}

/// The state after absorbing `buf` block by block: each rate-sized block is
/// XORed in and the state permuted; leftover bits short of a block are not
/// absorbed.
pub open spec fn absorb_spec(s: Seq<u64>, buf: Seq<bool>, rate: nat) -> Seq<u64>
    decreases buf.len(),
{
    if rate == 0 || buf.len() < rate {
        s
    } else {
        absorb_spec(perm24(xor_block(s, buf.take(rate as int))), buf.skip(rate as int), rate)
    }
}

/// The first `d` bits squeezed out of the state: the low `rate` bits of the
/// state, then of each successive permutation of it.
pub open spec fn squeeze_spec(s: Seq<u64>, rate: nat, d: nat) -> Seq<bool>
    decreases d,
{
    if d <= rate {
        state_bits(s).take(d as int)
    } else if rate == 0 {
        Seq::empty()
    } else {
        state_bits(s).take(rate as int) + squeeze_spec(perm24(s), rate, (d - rate) as nat)
    }
}

/// The `pad10*1` gap: the least `j >= 0` with `m + j + 2` a multiple of the
/// rate.
pub open spec fn pad_j(rate: nat, m: nat) -> nat {
    if rate == 0 {
        0
    } else {
        let rem = (m + 2) as int % (rate as int);
        if rem == 0 {
            0
        } else {
            (rate - rem) as nat
        }
    }
}

/// The `pad10*1` padding of gap `j`: a one, `j` zeroes, a one.
pub open spec fn pad_bits(j: nat) -> Seq<bool> {
    Seq::new((j + 2) as nat, |i: int| i == 0 || i == j + 1)
}

/// The digest of `msg` under this sponge: pad with `pad10*1`, absorb every
/// block into the state `s`, and squeeze `d` bits.
pub open spec fn sponge_spec(s: Seq<u64>, rate: nat, msg: Seq<bool>, d: nat) -> Seq<bool> {
    squeeze_spec(absorb_spec(s, msg + pad_bits(pad_j(rate, msg.len())), rate), rate, d)
}

/// A sponge hash instance: the permutation, the rate, and the buffered,
/// not-yet-absorbed message bits.
#[derive(Debug)]
pub struct Keccak {
    /// The width-1600, 24-round permutation and its state.
    pub f: KeccakP,
    /// Bits absorbed or squeezed per permutation call:
    /// `1600 - securityParameter`.
    pub rate: usize,
    /// All message bits fed in so far and not yet absorbed.
    pub buffer: BitString,
}

impl Keccak {
    /// The instance's invariant: a well-formed width-1600, 24-round
    /// permutation, a positive rate below the width, and a canonical buffer.
    pub open spec fn wf(&self) -> bool {
        &&& self.f.wf()
        &&& self.f.b == 1600
        &&& self.f.n_r == 24
        &&& 1 <= self.rate < 1600
        &&& self.buffer.wf()
    }

    /// A fresh instance with rate `1600 - sec_param`, an all-zero state and
    /// an empty buffer. Fails with `InvalidParameter` when the security
    /// parameter would leave no positive rate below the state width.
    pub fn init(sec_param: usize) -> (r: Result<Keccak, KeccakError>)
        ensures
            r.is_ok() <==> 1 <= sec_param <= 1599,
            r matches Ok(k) ==> {
                &&& k.wf()
                &&& k.rate == 1600 - sec_param
                &&& k.buffer@ == Seq::<bool>::empty()
                &&& k.f.state@ == zero_lanes()
            },
            r matches Err(e) ==> e == KeccakError::InvalidParameter,
    {
        if sec_param == 0 || sec_param >= 1600 {
            return Err(KeccakError::InvalidParameter);
        }
        match KeccakP::init(1600, 24) {
            Ok(f) => {
                let r = Keccak { f, rate: 1600 - sec_param, buffer: BitString::new() };
                proof {
                    assert(r.f.state@ =~= zero_lanes());
                }
                Ok(r)
            },
            Err(_) => {
                proof {
                    assert(false);
                }
                Err(KeccakError::InvalidParameter)
            },
        }
    }

    /// Appends the given bits to the buffer; nothing is absorbed until
    /// `finalise`.
    pub fn update_buffer(&mut self, string_to_join: &BitString)
        requires
            old(self).wf(),
            string_to_join.wf(),
            old(self).buffer.length + string_to_join.length <= usize::MAX,
        ensures
            final(self).wf(),
            final(self).f == old(self).f,
            final(self).rate == old(self).rate,
            final(self).buffer@ == old(self).buffer@ + string_to_join@,
    {
        self.buffer.append(string_to_join);
    }

    /// The `pad10*1` padding for a buffer of `m` bits at rate `x`: a one,
    /// the least gap of zeroes, and a one, so that `m` plus the padding
    /// length is a positive multiple of `x`.
    pub fn generate_padding(&self, x: usize, m: usize) -> (r: BitString)
        requires
            1 <= x < usize::MAX,
            m + 2 <= usize::MAX,
        ensures
            r.wf(),
            r.length == pad_j(x as nat, m as nat) + 2,
            r@ == pad_bits(pad_j(x as nat, m as nat)),
            2 <= r.length <= x + 1,
            (m + r.length) % (x as int) == 0,
    {
        let rem: usize = (m + 2) % x;
        let j: usize = if rem == 0 {
            0
        } else {
            x - rem
        };
        let mut p = BitString::zeroes(j + 2);
        p.set_bit(0, true);
        p.set_bit(j + 1, true);
        proof {
            assert(p@ =~= pad_bits(j as nat));
            lemma_fundamental_div_mod(m + 2, x as int);
            let q = (m + 2) / (x as int);
            if rem == 0 {
                lemma_mod_multiples_basic(q, x as int);
            } else {
                assert(m + j + 2 == (q + 1) * (x as int)) by (nonlinear_arith)
                    requires
                        m + 2 == (x as int) * q + rem,
                        j == x - rem,
                ;
                lemma_mod_multiples_basic(q + 1, x as int);
            }
        }
        p
    }

    /// The 1600 state bits as a fresh canonical vector.
    fn state_to_bits(&self) -> (r: BitString)
        requires
            self.wf(),
        ensures
            r.wf(),
            r.length == 1600,
            r@ == state_bits(self.f.state@),
    {
        let mut array: Vec<u64> = Vec::new();
        for k in 0..25usize
            invariant
                self.wf(),
                array@.len() == k,
                forall|t: int| 0 <= t < k ==> array@[t] == self.f.state@[t],
        {
            array.push(self.f.state[k]);
        }
        let r = BitString { array, length: 1600 };
        proof {
            assert(r.array@ =~= self.f.state@);
            assert(r@ =~= state_bits(self.f.state@));
        }
        r
    }

    /// Absorbs every whole rate-sized block of the buffer, in buffer order:
    /// the block is zero-extended to 1600 bits, XORed word-wise into the
    /// state, and the state permuted. The buffer itself is left as it was.
    fn absorb(&mut self)
        requires
            old(self).wf(),
        ensures
            final(self).wf(),
            final(self).f.same_config(&old(self).f),
            final(self).rate == old(self).rate,
            final(self).buffer == old(self).buffer,
            final(self).f.state@ == absorb_spec(
                old(self).f.state@,
                old(self).buffer@,
                old(self).rate as nat,
            ),
    {
        let n: usize = self.buffer.length / self.rate;
        let c: usize = self.f.b - self.rate;
        proof {
            lemma_fundamental_div_mod(self.buffer.length as int, self.rate as int);
            assert(n * self.rate == self.rate * n) by (nonlinear_arith);
            assert(self.buffer@.skip(0) =~= self.buffer@);
            assert(absorb_spec(self.f.state@, self.buffer@.skip(0), self.rate as nat)
                == absorb_spec(self.f.state@, self.buffer@, self.rate as nat));
            assert((0 * self.rate) as int == 0);
        }
        for i in 0..n
            invariant
                self.wf(),
                self.f.same_config(&old(self).f),
                self.rate == old(self).rate,
                self.buffer == old(self).buffer,
                c == 1600 - self.rate,
                n == self.buffer.length as int / self.rate as int,
                n * self.rate <= self.buffer.length,
                absorb_spec(
                    self.f.state@,
                    self.buffer@.skip((i * self.rate) as int),
                    self.rate as nat,
                ) == absorb_spec(old(self).f.state@, old(self).buffer@, old(self).rate as nat),
        {
            proof {
                assert((i + 1) * self.rate <= n * self.rate) by (nonlinear_arith)
                    requires
                        i + 1 <= n,
                        self.rate >= 0,
                ;
                assert(i * self.rate + self.rate == (i + 1) * self.rate) by (nonlinear_arith);
            }
            let lo: usize = i * self.rate;
            let hi: usize = lo + self.rate;
            let mut block = self.buffer.slice_bits(lo, hi);
            let ghost tb = block@;
            let bl: usize = block.length;
            block.change_length(bl + c);
            let ghost si = self.f.state@;
            let mut ns: Vec<u64> = Vec::new();
            for k in 0..25usize
                invariant
                    self.wf(),
                    block.wf(),
                    block.length == 1600,
                    block@ == resize_bits(tb, 1600),
                    si == self.f.state@,
                    ns@.len() == k,
                    forall|t: int| 0 <= t < k ==> #[trigger] ns@[t] == xor_block(si, tb)[t],
                    lanes_masked(ns@, 64u64),
            {
                let v: u64 = self.f.state[k] ^ block.array[k];
                ns.push(v);
                proof {
                    lemma_canonical_word(&block, k as int);
                    assert(block@.subrange(64 * (k as int), 64 * (k as int) + 64) =~= resize_bits(
                        tb,
                        1600,
                    ).subrange(64 * (k as int), 64 * (k as int) + 64));
                    lemma_mask64(v);
                }
            }
            proof {
                assert(ns@ =~= xor_block(si, tb));
            }
            self.f.set_state(ns);
            self.f.permute();
            proof {
                let rate = self.rate as nat;
                let skipped = self.buffer@.skip((i * self.rate) as int);
                assert(skipped.take(self.rate as int) =~= tb);
                assert(skipped.skip(self.rate as int) =~= self.buffer@.skip(
                    ((i + 1) * self.rate) as int,
                ));
                assert(self.f.state@ == perm24(xor_block(si, tb)));
                assert(absorb_spec(si, skipped, rate) == absorb_spec(
                    perm24(xor_block(si, tb)),
                    skipped.skip(self.rate as int),
                    rate,
                ));
            }
        }
        proof {
            let tail = self.buffer@.skip((n * self.rate) as int);
            assert(tail.len() < self.rate as nat);
            assert(absorb_spec(self.f.state@, tail, self.rate as nat) == self.f.state@);
        }
    }

    /// Squeezes `digest_size` bits out of the state: the low `rate` bits,
    /// then of each successive permutation, truncated to the requested
    /// length.
    fn squeeze(&mut self, digest_size: usize) -> (z: BitString)
        requires
            old(self).wf(),
            digest_size <= usize::MAX - 1600,
        ensures
            final(self).wf(),
            final(self).f.same_config(&old(self).f),
            final(self).rate == old(self).rate,
            final(self).buffer == old(self).buffer,
            z.wf(),
            z.length == digest_size,
            z@ == squeeze_spec(old(self).f.state@, old(self).rate as nat, digest_size as nat),
    {
        let ghost s0 = self.f.state@;
        let ghost d = digest_size as nat;
        let ghost rate = self.rate as nat;
        let mut z = self.state_to_bits();
        z.change_length(self.rate);
        proof {
            assert(z@ =~= state_bits(s0).take(self.rate as int));
            if d <= rate {
                assert(z@.take(digest_size as int) =~= squeeze_spec(s0, rate, d));
            }
        }
        while z.length < digest_size
            invariant
                self.wf(),
                self.f.same_config(&old(self).f),
                self.rate == old(self).rate,
                self.buffer == old(self).buffer,
                z.wf(),
                self.rate <= z.length,
                digest_size <= usize::MAX - 1600,
                rate == self.rate as nat,
                d == digest_size as nat,
                z.length >= digest_size ==> squeeze_spec(s0, rate, d) == z@.take(
                    digest_size as int,
                ),
                z.length < digest_size ==> squeeze_spec(s0, rate, d) == z@ + squeeze_spec(
                    perm24(self.f.state@),
                    rate,
                    (d - z.length as int) as nat,
                ),
            decreases digest_size + 1600 - z.length,
        {
            let ghost zpre = z@;
            let ghost rem = (d - z.length as int) as nat;
            self.f.permute();
            let ghost snew = self.f.state@;
            let mut s = self.state_to_bits();
            s.change_length(self.rate);
            proof {
                assert(s@ =~= state_bits(snew).take(self.rate as int));
            }
            z.append(&s);
            proof {
                if rem <= rate {
                    assert(z@.take(digest_size as int) =~= zpre + state_bits(snew).take(
                        rem as int,
                    ));
                    assert(state_bits(snew).take(rem as int) =~= squeeze_spec(snew, rate, rem));
                } else {
                    assert(squeeze_spec(snew, rate, rem) == state_bits(snew).take(self.rate as int)
                        + squeeze_spec(perm24(snew), rate, (rem - rate) as nat));
                    assert(z@ + squeeze_spec(perm24(snew), rate, (rem - rate) as nat) =~= zpre + (
                    state_bits(snew).take(self.rate as int) + squeeze_spec(
                        perm24(snew),
                        rate,
                        (rem - rate) as nat,
                    )));
                }
            }
        }
        z.change_length(digest_size);
        proof {
            assert(z@ =~= squeeze_spec(s0, rate, d));
        }
        z
    }

    /// Pads the buffer with `pad10*1`, absorbs it block by block, and
    /// squeezes a digest of exactly `digest_size` bits. The digest is
    /// `sponge_spec` of the state and buffer at the call; a freshly
    /// initialized instance has the all-zero state, so its digest is the
    /// sponge of the buffered message alone.
    pub fn finalise(&mut self, digest_size: usize) -> (z: BitString)
        requires
            old(self).wf(),
            old(self).buffer.length + 1601 <= usize::MAX,
            digest_size <= usize::MAX - 1600,
        ensures
            final(self).wf(),
            final(self).rate == old(self).rate,
            z.wf(),
            z.length == digest_size,
            z@ == sponge_spec(
                old(self).f.state@,
                old(self).rate as nat,
                old(self).buffer@,
                digest_size as nat,
            ),
    {
        let m: usize = self.buffer.length;
        let padding_string = self.generate_padding(self.rate, m);
        self.buffer.append(&padding_string);
        self.absorb();
        let z = self.squeeze(digest_size);
        z
    }
}

} // verus!
