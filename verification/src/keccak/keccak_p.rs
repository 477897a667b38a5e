//! The Keccak-p permutation: a state of 25 lanes of `w` bits transformed by
//! repeated rounds of the five sub-rounds theta, rho, pi, chi and iota.
//!
//! The state is a flat sequence of 25 lanes; the lane at grid position
//! `(x, y)` is entry `x + 5 * y`, and only the low `w` bits of each lane are
//! meaningful (`lanes_masked`). Each sub-round has a spec function giving its
//! effect on the lane sequence, and `permute` is proved to apply exactly
//! `n_r` rounds of their composition.

use vstd::prelude::*;

use crate::bit_string::hex_digit;
use crate::bit_string::hex_str;
use crate::bit_string::low_mask;
use crate::KeccakError;

use vstd::string::StringExecFns;

verus! {

/// The fixed rho rotation offsets (FIPS 202), in flat lane order
/// `x + 5 * y`, before reduction mod the lane width.
pub open spec fn rho_table() -> Seq<u64> {
    seq![
        0u64,
        1u64,
        62u64,
        28u64,
        27u64,
        36u64,
        44u64,
        6u64,
        55u64,
        20u64,
        3u64,
        10u64,
        43u64,
        25u64,
        39u64,
        41u64,
        45u64,
        15u64,
        21u64,
        8u64,
        18u64,
        2u64,
        61u64,
        56u64,
        14u64,
    ]
}

/// The supported permutation widths.
pub open spec fn width_ok(b: usize) -> bool {
    b == 25 || b == 50 || b == 100 || b == 200 || b == 400 || b == 800 || b == 1600
}

/// The lane width `w = b / 25` of a supported width.
pub open spec fn lane_width(b: usize) -> usize {
    if b == 25 {
        1
    } else if b == 50 {
        2
    } else if b == 100 {
        4
    } else if b == 200 {
        8
    } else if b == 400 {
        16
    } else if b == 800 {
        32
    } else {
        64
    }
}

/// The exponent `l = log2(w)` of a supported width.
pub open spec fn lane_log(b: usize) -> usize {
    if b == 25 {
        0
    } else if b == 50 {
        1
    } else if b == 100 {
        2
    } else if b == 200 {
        3
    } else if b == 400 {
        4
    } else if b == 800 {
        5
    } else {
        6
    }
}

/// Every lane of `s` keeps only its low `w` bits.
pub open spec fn lanes_masked(s: Seq<u64>, w: u64) -> bool {
    forall|k: int| 0 <= k < s.len() ==> #[trigger] s[k] & low_mask(w) == s[k]
}

/// Left rotation of a `w`-bit lane by `n` positions, `0 <= n <= w <= 64`.
pub open spec fn rotl_spec(x: u64, n: u64, w: u64) -> u64 {
    if n == 0 {
        x
    } else {
        ((x << n) | (x >> ((w - n) as u64))) & low_mask(w)
    }
}

/// The parity of column `x`: the XOR of its five lanes.
pub open spec fn colsum(s: Seq<u64>, x: int) -> u64 {
    s[x] ^ s[x + 5] ^ s[x + 10] ^ s[x + 15] ^ s[x + 20]
}

/// The theta adjustment of column `x`: the parity of the column to its left
/// XOR the parity of the column to its right rotated up by one.
pub open spec fn theta_d(s: Seq<u64>, x: int, w: u64) -> u64 {
    colsum(s, (x + 4) % 5) ^ rotl_spec(colsum(s, (x + 1) % 5), 1, w)
}

/// Theta: every lane of column `x` is XORed with `theta_d(x)`.
pub open spec fn theta_spec(s: Seq<u64>, w: u64) -> Seq<u64> {
    Seq::new(25, |k: int| s[k] ^ theta_d(s, k % 5, w))
}

/// Rho: each lane is rotated left by its fixed offset reduced mod `w`.
pub open spec fn rho_spec(s: Seq<u64>, w: u64) -> Seq<u64> {
    Seq::new(25, |k: int| rotl_spec(s[k], (rho_table()[k] % w) as u64, w))
}

/// Pi: the lane at `(x, y)` takes its value from the lane at
/// `((x + 3y) mod 5, x)`.
pub open spec fn pi_spec(s: Seq<u64>) -> Seq<u64> {
    Seq::new(25, |k: int| s[(k % 5 + 3 * (k / 5)) % 5 + 5 * (k % 5)])
}

/// Chi: each lane becomes `a ^ (!b & c)` where `b` and `c` are the next two
/// lanes of its row.
pub open spec fn chi_spec(s: Seq<u64>) -> Seq<u64> {
    Seq::new(
        25,
        |k: int| s[k] ^ (!s[5 * (k / 5) + (k % 5 + 1) % 5] & s[5 * (k / 5) + (k % 5 + 2) % 5]),
    )
}

/// One step of the degree-8 LFSR driving the round constants: shift up, and
/// fold the shifted-out bit back in as `0x71`.
pub open spec fn lfsr_step(r: u16) -> u16 {
    if ((r << 1u16) >> 8u16) & 1u16 == 1u16 {
        ((r << 1u16) ^ 0x71u16) & 0xFFu16
    } else {
        (r << 1u16) & 0xFFu16
    }
}

/// The LFSR register after `n` steps from its start value 1.
pub open spec fn lfsr_iter(n: nat) -> u16
    decreases n,
{
    if n == 0 {
        1u16
    } else {
        lfsr_step(lfsr_iter((n - 1) as nat))
    }
}

/// The round-constant bit `rc(t)`: 1 at `t mod 255 == 0`, otherwise the low
/// bit of the LFSR register after `t mod 255` steps.
pub open spec fn rc_spec(t: nat) -> u64 {
    if t % 255 == 0 {
        1u64
    } else {
        (lfsr_iter(t % 255) & 1u16) as u64
    }
}

/// The whole round constant of round `i_r`: bit `2^j - 1` is `rc(j + 7 i_r)`,
/// for `j` from 0 to `jmax`.
pub open spec fn iota_rc(jmax: nat, i_r: nat) -> u64
    decreases jmax,
{
    let term = rc_spec((jmax + 7 * i_r) as nat) << (((1u64 << (jmax as u64)) - 1) as u64);
    if jmax == 0 {
        term
    } else {
        iota_rc((jmax - 1) as nat, i_r) | term
    }
}

/// Iota: the round constant of round `i_r` is XORed into lane `(0, 0)`.
pub open spec fn iota_spec(s: Seq<u64>, l: nat, i_r: nat) -> Seq<u64> {
    s.update(0, s[0] ^ iota_rc(l, i_r))
}

/// One full round: theta, rho, pi, chi, iota, in that order.
pub open spec fn round_spec(s: Seq<u64>, w: u64, l: nat, i_r: nat) -> Seq<u64> {
    iota_spec(chi_spec(pi_spec(rho_spec(theta_spec(s, w), w))), l, i_r)
}

/// `n` rounds applied to `s`, with round indices `i_r0, i_r0 + 1, ...`.
pub open spec fn rounds_spec(s: Seq<u64>, w: u64, l: nat, i_r0: nat, n: nat) -> Seq<u64>
    decreases n,
{
    if n == 0 {
        s
    } else {
        round_spec(rounds_spec(s, w, l, i_r0, (n - 1) as nat), w, l, (i_r0 + n - 1) as nat)
    }
}

/// The upper-case hex digits of `v`, no leading zeroes, at least one digit.
pub open spec fn hex_u64(v: u64) -> Seq<char>
    decreases v,
{
    if v < 16 {
        seq![hex_digit(v)]
    } else {
        hex_u64(v / 16) + seq![hex_digit(v % 16)]
    }
}

/// One rendered lane entry: `  (x,y) = V` with `V` the lane value in hex.
pub open spec fn lane_label(x: u64, y: u64, v: u64) -> Seq<char> {
    seq![' ', ' ', '('] + seq![hex_digit(x)] + seq![','] + seq![hex_digit(y)] + seq![
        ')',
        ' ',
        '=',
        ' ',
    ] + hex_u64(v)
}

/// The rendered lane entries from flat print position `k` on: position
/// `5 x + y` shows the grid coordinates `(x, y)` and the lane value stored
/// at flat state index `5 x + y`.
pub open spec fn state_string_from(s: Seq<u64>, k: nat) -> Seq<char>
    decreases 25 - k,
{
    if k >= 25 {
        Seq::empty()
    } else {
        lane_label((k / 5) as u64, (k % 5) as u64, s[k as int]) + state_string_from(s, k + 1)
    }
}

/// The hex digits of `v`, as a string.
fn hex_u64_str(v: u64) -> (s: String)
    ensures
        s@ == hex_u64(v),
    decreases v,
{
    if v < 16 {
        String::from_str(hex_str(v))
    } else {
        proof {
            assert(v / 16 < v) by (nonlinear_arith)
                requires
                    v >= 16,
            ;
        }
        let mut s = hex_u64_str(v / 16);
        s.append(hex_str(v % 16));
        s
    }
}

/// A Keccak-p permutation instance: width, round count, derived lane
/// parameters, the reduced rotation offsets, and the 25-lane state.
#[derive(Debug)]
pub struct KeccakP {
    /// The total state width in bits, one of 25, 50, 100, 200, 400, 800, 1600.
    pub b: usize,
    /// The number of rounds each `permute` call applies.
    pub n_r: usize,
    /// The lane width `b / 25`.
    pub w: usize,
    /// The exponent `log2(w)`.
    pub l: usize,
    /// The rho rotation offsets, reduced mod `w`, in flat lane order.
    pub offset: Vec<u64>,
    /// The 25 lanes; entry `x + 5 * y` is the lane at `(x, y)`.
    pub state: Vec<u64>,
}

impl KeccakP {
    /// The instance's invariant: a supported width with matching derived
    /// parameters, a round count its round indices can accommodate, the
    /// reduced offset table, and 25 masked lanes.
    pub open spec fn wf(&self) -> bool {
        &&& width_ok(self.b)
        &&& self.w == lane_width(self.b)
        &&& self.l == lane_log(self.b)
        &&& self.n_r <= 12 + 2 * self.l
        &&& self.state@.len() == 25
        &&& self.offset@.len() == 25
        &&& forall|k: int|
            0 <= k < 25 ==> #[trigger] self.offset@[k] == rho_table()[k] % (self.w as u64)
        &&& lanes_masked(self.state@, self.w as u64)
    }

    /// The fields `permute` and the sub-rounds never touch.
    pub open spec fn same_config(&self, other: &KeccakP) -> bool {
        &&& self.b == other.b
        &&& self.n_r == other.n_r
        &&& self.w == other.w
        &&& self.l == other.l
        &&& self.offset@ == other.offset@
    }

    /// A fresh all-zero instance. Fails with `InvalidParameter` unless `b`
    /// is a supported width and `n_r` rounds fit below round index
    /// `12 + 2 l`.
    pub fn init(b: usize, n_r: usize) -> (r: Result<KeccakP, KeccakError>)
        ensures
            r.is_ok() <==> (width_ok(b) && n_r <= 12 + 2 * lane_log(b)),
            r matches Ok(k) ==> {
                &&& k.wf()
                &&& k.b == b
                &&& k.n_r == n_r
                &&& k.w == lane_width(b)
                &&& k.l == lane_log(b)
                &&& k.state@ == Seq::new(25, |i: int| 0u64)
            },
            r matches Err(e) ==> e == KeccakError::InvalidParameter,
    {
        let (l, w): (usize, usize) = match b {
            25 => (0, 1),
            50 => (1, 2),
            100 => (2, 4),
            200 => (3, 8),
            400 => (4, 16),
            800 => (5, 32),
            1600 => (6, 64),
            _ => {
                return Err(KeccakError::InvalidParameter);
            },
        };
        if n_r > 12 + 2 * l {
            return Err(KeccakError::InvalidParameter);
        }
        let mut offset: Vec<u64> = Vec::new();
        offset.push(0);
        offset.push(1);
        offset.push(62);
        offset.push(28);
        offset.push(27);
        offset.push(36);
        offset.push(44);
        offset.push(6);
        offset.push(55);
        offset.push(20);
        offset.push(3);
        offset.push(10);
        offset.push(43);
        offset.push(25);
        offset.push(39);
        offset.push(41);
        offset.push(45);
        offset.push(15);
        offset.push(21);
        offset.push(8);
        offset.push(18);
        offset.push(2);
        offset.push(61);
        offset.push(56);
        offset.push(14);
        proof {
            assert(offset@ =~= rho_table());
        }
        let ww: u64 = w as u64;
        for k in 0..25usize
            invariant
                ww == w as u64,
                1 <= ww,
                offset@.len() == 25,
                forall|t: int| 0 <= t < k ==> #[trigger] offset@[t] == rho_table()[t] % ww,
                forall|t: int| k <= t < 25 ==> #[trigger] offset@[t] == rho_table()[t],
        {
            let cur: u64 = offset[k];
            offset[k] = cur % ww;
        }
        let mut state: Vec<u64> = Vec::new();
        for k in 0..25usize
            invariant
                state@.len() == k,
                forall|t: int| 0 <= t < k ==> state@[t] == 0u64,
        {
            state.push(0u64);
        }
        let r = KeccakP { b, n_r, w, l, offset, state };
        proof {
            assert(state@ =~= Seq::new(25, |i: int| 0u64));
            let m = low_mask(ww);
            assert(0u64 & m == 0u64) by (bit_vector);
        }
        Ok(r)
    }

    /// Replaces the whole lane grid with the given 25 masked lanes.
    pub fn set_state(&mut self, byte_array: Vec<u64>)
        requires
            old(self).wf(),
            byte_array@.len() == 25,
            lanes_masked(byte_array@, old(self).w as u64),
        ensures
            final(self).wf(),
            final(self).same_config(old(self)),
            final(self).state@ == byte_array@,
    {
        self.state = byte_array;
    }

    /// The low `w`-bit mask of this instance's lanes.
    fn mask_word(&self) -> (m: u64)
        requires
            1 <= self.w <= 64,
        ensures
            m == low_mask(self.w as u64),
    {
        if self.w == 64 {
            0xFFFF_FFFF_FFFF_FFFFu64
        } else {
            let ww: u64 = self.w as u64;
            proof {
                assert(1u64 << ww >= 1) by (bit_vector)
                    requires
                        ww < 64,
                ;
            }
            (1u64 << ww) - 1
        }
    }

    /// Left rotation of the `w`-bit lane `x` by `offset` positions.
    fn rotate_left(&self, x: u64, offset: usize) -> (r: u64)
        requires
            1 <= self.w <= 64,
            offset <= self.w,
            offset < 64,
        ensures
            r == rotl_spec(x, offset as u64, self.w as u64),
            x & low_mask(self.w as u64) == x ==> r & low_mask(self.w as u64) == r,
    {
        if offset == 0 {
            x
        } else {
            let m: u64 = self.mask_word();
            let sh: u64 = offset as u64;
            let dn: u64 = (self.w - offset) as u64;
            let r: u64 = ((x << sh) | (x >> dn)) & m;
            proof {
                let t = (x << sh) | (x >> dn);
                assert((t & m) & m == t & m) by (bit_vector);
            }
            r
        }
    }

    /// Applies `n_r` rounds, the round index running from
    /// `12 + 2 l - n_r` to `12 + 2 l - 1` inclusive, each round being
    /// theta, rho, pi, chi, iota in order.
    pub fn permute(&mut self)
        requires
            old(self).wf(),
        ensures
            final(self).wf(),
            final(self).same_config(old(self)),
            final(self).state@ == rounds_spec(
                old(self).state@,
                old(self).w as u64,
                old(self).l as nat,
                (12 + 2 * old(self).l - old(self).n_r) as nat,
                old(self).n_r as nat,
            ),
    {
        let start: usize = 12 + 2 * self.l - self.n_r;
        let end: usize = 12 + 2 * self.l;
        for i_r in start..end
            invariant
                self.wf(),
                self.same_config(old(self)),
                start == 12 + 2 * self.l - self.n_r,
                end == 12 + 2 * self.l,
                self.state@ == rounds_spec(
                    old(self).state@,
                    self.w as u64,
                    self.l as nat,
                    start as nat,
                    (i_r - start) as nat,
                ),
        {
            let ghost before = self.state@;
            self.theta();
            self.rho();
            self.pi();
            self.chi();
            self.iota(i_r);
            proof {
                let w = self.w as u64;
                let l = self.l as nat;
                let s0 = old(self).state@;
                let n = (i_r - start) as nat;
                assert(self.state@ == round_spec(before, w, l, i_r as nat));
                assert(rounds_spec(s0, w, l, start as nat, (n + 1) as nat) == round_spec(
                    rounds_spec(s0, w, l, start as nat, n),
                    w,
                    l,
                    (start + n) as nat,
                ));
            }
        }
    }

    /// Theta: XORs every lane with the parity adjustment of its column.
    fn theta(&mut self)
        requires
            old(self).wf(),
        ensures
            final(self).wf(),
            final(self).same_config(old(self)),
            final(self).state@ == theta_spec(old(self).state@, old(self).w as u64),
    {
        let ghost s0 = self.state@;
        let ghost m = low_mask(self.w as u64);
        let mut c: Vec<u64> = Vec::new();
        for x in 0..5usize
            invariant
                self.wf(),
                s0 == self.state@,
                m == low_mask(self.w as u64),
                c@.len() == x,
                forall|t: int| 0 <= t < x ==> #[trigger] c@[t] == colsum(s0, t),
                forall|t: int| 0 <= t < x ==> #[trigger] c@[t] & m == c@[t],
        {
            let v: u64 = self.state[x] ^ self.state[x + 5] ^ self.state[x + 10] ^ self.state[x + 15]
                ^ self.state[x + 20];
            c.push(v);
            proof {
                lemma_mask_xor(s0[x as int], s0[x + 5], m);
                lemma_mask_xor(s0[x as int] ^ s0[x + 5], s0[x + 10], m);
                lemma_mask_xor(s0[x as int] ^ s0[x + 5] ^ s0[x + 10], s0[x + 15], m);
                lemma_mask_xor(s0[x as int] ^ s0[x + 5] ^ s0[x + 10] ^ s0[x + 15], s0[x + 20], m);
            }
        }
        let mut d: Vec<u64> = Vec::new();
        for x in 0..5usize
            invariant
                self.wf(),
                s0 == self.state@,
                m == low_mask(self.w as u64),
                c@.len() == 5,
                forall|t: int| 0 <= t < 5 ==> #[trigger] c@[t] == colsum(s0, t),
                forall|t: int| 0 <= t < 5 ==> #[trigger] c@[t] & m == c@[t],
                d@.len() == x,
                forall|t: int| 0 <= t < x ==> #[trigger] d@[t] == theta_d(s0, t, self.w as u64),
                forall|t: int| 0 <= t < x ==> #[trigger] d@[t] & m == d@[t],
        {
            let a: u64 = c[(x + 4) % 5];
            let rot: u64 = self.rotate_left(c[(x + 1) % 5], 1);
            d.push(a ^ rot);
            proof {
                lemma_mask_xor(a, rot, m);
            }
        }
        let mut ns: Vec<u64> = Vec::new();
        for k in 0..25usize
            invariant
                self.wf(),
                s0 == self.state@,
                m == low_mask(self.w as u64),
                d@.len() == 5,
                forall|t: int| 0 <= t < 5 ==> #[trigger] d@[t] == theta_d(s0, t, self.w as u64),
                forall|t: int| 0 <= t < 5 ==> #[trigger] d@[t] & m == d@[t],
                ns@.len() == k,
                forall|t: int|
                    0 <= t < k ==> #[trigger] ns@[t] == theta_spec(s0, self.w as u64)[t],
                forall|t: int| 0 <= t < k ==> #[trigger] ns@[t] & m == ns@[t],
        {
            let v: u64 = self.state[k] ^ d[k % 5];
            ns.push(v);
            proof {
                lemma_mask_xor(s0[k as int], d@[k as int % 5], m);
            }
        }
        self.state = ns;
        proof {
            assert(self.state@ =~= theta_spec(s0, self.w as u64));
        }
    }

    /// Rho: rotates each lane left by its fixed offset.
    fn rho(&mut self)
        requires
            old(self).wf(),
        ensures
            final(self).wf(),
            final(self).same_config(old(self)),
            final(self).state@ == rho_spec(old(self).state@, old(self).w as u64),
    {
        let ghost s0 = self.state@;
        let ghost m = low_mask(self.w as u64);
        let mut ns: Vec<u64> = Vec::new();
        for k in 0..25usize
            invariant
                self.wf(),
                s0 == self.state@,
                m == low_mask(self.w as u64),
                ns@.len() == k,
                forall|t: int| 0 <= t < k ==> #[trigger] ns@[t] == rho_spec(s0, self.w as u64)[t],
                forall|t: int| 0 <= t < k ==> #[trigger] ns@[t] & m == ns@[t],
        {
            let off: u64 = self.offset[k];
            let v: u64 = self.rotate_left(self.state[k], off as usize);
            ns.push(v);
        }
        self.state = ns;
        proof {
            assert(self.state@ =~= rho_spec(s0, self.w as u64));
        }
    }

    /// Pi: permutes the lane grid, lane `(x, y)` taking its value from
    /// `((x + 3y) mod 5, x)`.
    fn pi(&mut self)
        requires
            old(self).wf(),
        ensures
            final(self).wf(),
            final(self).same_config(old(self)),
            final(self).state@ == pi_spec(old(self).state@),
    {
        let ghost s0 = self.state@;
        let ghost m = low_mask(self.w as u64);
        let mut ns: Vec<u64> = Vec::new();
        for k in 0..25usize
            invariant
                self.wf(),
                s0 == self.state@,
                m == low_mask(self.w as u64),
                ns@.len() == k,
                forall|t: int| 0 <= t < k ==> #[trigger] ns@[t] == pi_spec(s0)[t],
                forall|t: int| 0 <= t < k ==> #[trigger] ns@[t] & m == ns@[t],
        {
            let x: usize = k % 5;
            let y: usize = k / 5;
            let v: u64 = self.state[(x + 3 * y) % 5 + 5 * x];
            ns.push(v);
        }
        self.state = ns;
        proof {
            assert(self.state@ =~= pi_spec(s0));
        }
    }

    /// Chi: the nonlinear step, each lane becoming `a ^ (!b & c)` over its
    /// row.
    fn chi(&mut self)
        requires
            old(self).wf(),
        ensures
            final(self).wf(),
            final(self).same_config(old(self)),
            final(self).state@ == chi_spec(old(self).state@),
    {
        let ghost s0 = self.state@;
        let ghost m = low_mask(self.w as u64);
        let mut ns: Vec<u64> = Vec::new();
        for k in 0..25usize
            invariant
                self.wf(),
                s0 == self.state@,
                m == low_mask(self.w as u64),
                ns@.len() == k,
                forall|t: int| 0 <= t < k ==> #[trigger] ns@[t] == chi_spec(s0)[t],
                forall|t: int| 0 <= t < k ==> #[trigger] ns@[t] & m == ns@[t],
        {
            let x: usize = k % 5;
            let y: usize = k / 5;
            let bb: u64 = self.state[5 * y + (x + 1) % 5];
            let cc: u64 = self.state[5 * y + (x + 2) % 5];
            let v: u64 = self.state[k] ^ ((!bb) & cc);
            ns.push(v);
            proof {
                lemma_mask_and(!bb, cc, m);
                lemma_mask_xor(s0[k as int], (!bb) & cc, m);
            }
        }
        self.state = ns;
        proof {
            assert(self.state@ =~= chi_spec(s0));
        }
    }

    /// The state rendered for inspection: one `  (x,y) = V` entry per lane,
    /// `V` the lane's value in upper-case hex without leading zeroes.
    pub fn to_string(&self) -> (r: String)
        requires
            self.wf(),
        ensures
            r@ == state_string_from(self.state@, 0),
    {
        let mut out = String::new();
        for k in 0..25usize
            invariant
                self.wf(),
                state_string_from(self.state@, 0) == out@ + state_string_from(
                    self.state@,
                    k as nat,
                ),
        {
            let ghost entry = out@;
            out.append("  (");
            out.append(hex_str((k / 5) as u64));
            out.append(",");
            out.append(hex_str((k % 5) as u64));
            out.append(") = ");
            let h = hex_u64_str(self.state[k]);
            out.append(h.as_str());
            proof {
                reveal_strlit("  (");
                reveal_strlit(",");
                reveal_strlit(") = ");
                assert("  ("@ =~= seq![' ', ' ', '(']);
                assert(","@ =~= seq![',']);
                assert(") = "@ =~= seq![')', ' ', '=', ' ']);
                assert(out@ =~= entry + lane_label(
                    (k / 5) as u64,
                    (k % 5) as u64,
                    self.state@[k as int],
                ));
                assert(state_string_from(self.state@, 0) =~= out@ + state_string_from(
                    self.state@,
                    (k + 1) as nat,
                ));
            }
        }
        proof {
            assert(state_string_from(self.state@, 25) =~= Seq::<char>::empty());
            assert(out@ =~= state_string_from(self.state@, 0));
        }
        out
    }

    /// The round-constant bit `rc(t)`: an 8-bit LFSR run for `t mod 255`
    /// steps from register value 1, returning its least significant bit;
    /// `rc(0)` is 1.
    pub fn rc(t: usize) -> (r: u64)
        ensures
            r == rc_spec(t as nat),
            r <= 1,
    {
        let remainder: usize = t % 255;
        if remainder == 0 {
            return 1u64;
        }
        let mut reg: u16 = 1;
        for i in 0..remainder
            invariant
                reg == lfsr_iter(i as nat),
        {
            let mut r2: u16 = reg << 1u16;
            if (r2 >> 8u16) & 1u16 == 1u16 {
                r2 = r2 ^ 0x71u16;
            }
            reg = r2 & 0xFFu16;
        }
        let bit: u16 = reg & 1u16;
        proof {
            assert((reg & 1u16) as u64 <= 1) by (bit_vector);
        }
        bit as u64
    }

    /// Iota: folds the round constant of round `i_r` into lane `(0, 0)`.
    fn iota(&mut self, i_r: usize)
        requires
            old(self).wf(),
            i_r < 12 + 2 * old(self).l,
        ensures
            final(self).wf(),
            final(self).same_config(old(self)),
            final(self).state@ == iota_spec(old(self).state@, old(self).l as nat, i_r as nat),
    {
        let ghost m = low_mask(self.w as u64);
        proof {
            lemma_width_pow(self.b, self.w, self.l);
        }
        let mut rcw: u64 = 0;
        proof {
            assert(0u64 & m == 0u64) by (bit_vector);
        }
        for j in 0..(self.l + 1)
            invariant
                self.wf(),
                m == low_mask(self.w as u64),
                (1u64 << (self.l as u64)) == self.w as u64,
                self.l <= 6,
                i_r < 12 + 2 * self.l,
                j == 0 ==> rcw == 0u64,
                j >= 1 ==> rcw == iota_rc((j - 1) as nat, i_r as nat),
                rcw & m == rcw,
        {
            let t: usize = j + 7 * i_r;
            let jw: u64 = j as u64;
            proof {
                let lv: u64 = self.l as u64;
                assert((1u64 << jw) >= 1 && (1u64 << jw) <= 64) by (bit_vector)
                    requires
                        jw <= 6,
                ;
                assert((1u64 << jw) <= (1u64 << lv)) by (bit_vector)
                    requires
                        jw <= 6,
                        lv <= 6,
                        jw <= lv,
                ;
            }
            let sh: u64 = (1u64 << jw) - 1;
            let rcbit: u64 = Self::rc(t);
            let term: u64 = rcbit << sh;
            proof {
                let ww: u64 = self.w as u64;
                assert((rcbit << sh) & low_mask(ww) == (rcbit << sh)) by (bit_vector)
                    requires
                        rcbit <= 1,
                        sh < ww,
                        ww <= 64,
                ;
                lemma_mask_or(rcw, term, m);
                if j == 0 {
                    assert(0u64 | term == term) by (bit_vector);
                }
            }
            rcw = rcw | term;
        }
        let lane0: u64 = self.state[0] ^ rcw;
        proof {
            lemma_mask_xor(self.state@[0], rcw, m);
        }
        self.state[0] = lane0;
    }
}

/// For a supported width, `w` is `2^l`, `w` is between 1 and 64, and `l` is
/// at most 6.
proof fn lemma_width_pow(b: usize, w: usize, l: usize)
    requires
        width_ok(b),
        w == lane_width(b),
        l == lane_log(b),
    ensures
        1 <= w <= 64,
        l <= 6,
        (1u64 << (l as u64)) == w as u64,
{
    assert(1u64 << 0u64 == 1 && 1u64 << 1u64 == 2 && 1u64 << 2u64 == 4 && 1u64 << 3u64 == 8 && 1u64
        << 4u64 == 16 && 1u64 << 5u64 == 32 && 1u64 << 6u64 == 64) by (bit_vector);
}

/// Every word is already masked to the full 64-bit lane width.
pub proof fn lemma_mask64(x: u64)
    ensures
        x & low_mask(64u64) == x,
{
    assert(x & 0xFFFF_FFFF_FFFF_FFFFu64 == x) by (bit_vector);
}

/// XOR keeps lanes masked.
proof fn lemma_mask_xor(x: u64, y: u64, m: u64)
    requires
        x & m == x,
        y & m == y,
    ensures
        (x ^ y) & m == (x ^ y),
{
    assert(x & m == x && y & m == y ==> (x ^ y) & m == (x ^ y)) by (bit_vector);
}

/// OR keeps lanes masked.
proof fn lemma_mask_or(x: u64, y: u64, m: u64)
    requires
        x & m == x,
        y & m == y,
    ensures
        (x | y) & m == (x | y),
{
    assert(x & m == x && y & m == y ==> (x | y) & m == (x | y)) by (bit_vector);
}

/// AND with a masked operand yields a masked lane.
proof fn lemma_mask_and(x: u64, y: u64, m: u64)
    requires
        y & m == y,
    ensures
        (x & y) & m == (x & y),
{
    assert(y & m == y ==> (x & y) & m == (x & y)) by (bit_vector);
}

/// Round-constant determinism: `rc(0) == 1`, and `rc` is 255-periodic:
/// `rc(t) == rc(t mod 255)` for every `t`.
pub proof fn lemma_rc_periodic(t: nat)
    ensures
        rc_spec(0) == 1u64,
        rc_spec(t) == rc_spec(t % 255),
{
    vstd::arithmetic::div_mod::lemma_small_mod(t % 255, 255);
}

} // verus!
