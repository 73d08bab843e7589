//! me-tANS table construction.
//!
//! The coder is a tANS with 8 mass bits. The state is kept as `x - 256` in a `u8`
//! (`x` in `[256, 512)`). Each symbol owns two state ranges, one in the lower half of the state
//! space and one in the upper half.

use vstd::prelude::*;
use vstd::arithmetic::div_mod;
use vstd::arithmetic::power2;

use crate::bitio;

verus! {

/// Probability mass bits.
pub const MASS_BITS: u32 = 8;

/// Number of states.
pub const NUM_STATES: usize = 256;

/// Number of distributions of the residual coder.
pub const NUM_DISTRIBUTIONS_R: usize = 32;

/// Largest regular `z` symbol plus one; symbol `MAX_Z` is the escape.
pub const MAX_Z: usize = 63;

/// The distribution that an index selects: indices above 31 are clamped.
pub open spec fn spec_dist(index: u8) -> int {
    if index < 31 {
        index as int
    } else {
        31
    }
}

/// The distribution that an index selects.
pub fn dist(index: u8) -> (d: usize)
    ensures
        d == spec_dist(index),
{
    if index < 31 {
        index as usize
    } else {
        31
    }
}

/// How many bits a number below 512 has to be shifted left to reach 256; none from 256 on.
pub open spec fn spec_renorm(v: nat) -> nat {
    if bitio::bit_width(v) >= 9 {
        0
    } else {
        (9 - bitio::bit_width(v)) as nat
    }
}

/// Number of bits to shift in (decode) / out (encode) for a value `v >= 1`:
/// `8 - floor(log2(v))`, clamped at 0.
pub fn renorm_bits(v: u32) -> (n: u32)
    requires
        v >= 1,
    ensures
        n == spec_renorm(v as nat),
        n <= 8,
{
    let w: u32 = bitio::bits_for_max(v);
    proof {
        bitio::lemma_bit_width(v as nat);
    }
    if w >= 9 {
        0
    } else {
        9 - w
    }
}

/// A renormalised number lies in `[256, 512)`.
pub proof fn lemma_renorm(v: nat)
    requires
        1 <= v < 512,
    ensures
        256 <= v * power2::pow2(spec_renorm(v)) < 512,
        spec_renorm(v) <= 8,
{
    bitio::lemma_bit_width(v);
    power2::lemma2_to64();
    let w = bitio::bit_width(v);
    if w > 9 {
        if w > 10 {
            power2::lemma_pow2_strictly_increases(9, (w - 1) as nat);
        }
        assert(false);
    }
    let r = spec_renorm(v);
    assert(r + w == 9);
    power2::lemma_pow2_adds((w - 1) as nat, r);
    power2::lemma_pow2_adds(w, r);
    let (lo, hi, p) = (
        power2::pow2((w - 1) as nat) as int,
        power2::pow2(w) as int,
        power2::pow2(r) as int,
    );
    power2::lemma_pow2_pos(r);
    assert(lo * p <= v * p < hi * p) by (nonlinear_arith)
        requires
            lo <= v < hi,
            p > 0,
    ;
}

/// Only one shift brings a number into `[256, 512)`.
pub proof fn lemma_renorm_unique(v: nat, r: nat)
    requires
        1 <= v < 512,
        256 <= v * power2::pow2(r) < 512,
    ensures
        spec_renorm(v) == r,
{
    lemma_renorm(v);
    let s = spec_renorm(v);
    if s < r {
        power2::lemma_pow2_unfold(r);
        if s < r - 1 {
            power2::lemma_pow2_strictly_increases(s, (r - 1) as nat);
        }
        let (a, b, c) = (
            power2::pow2(s) as int,
            power2::pow2((r - 1) as nat) as int,
            power2::pow2(r) as int,
        );
        assert(v * c >= 2 * (v * a)) by (nonlinear_arith)
            requires
                c == 2 * b,
                b >= a,
                v >= 1,
        ;
    } else if r < s {
        power2::lemma_pow2_unfold(s);
        if r < s - 1 {
            power2::lemma_pow2_strictly_increases(r, (s - 1) as nat);
        }
        let (a, b, c) = (
            power2::pow2(r) as int,
            power2::pow2((s - 1) as nat) as int,
            power2::pow2(s) as int,
        );
        assert(v * c >= 2 * (v * a)) by (nonlinear_arith)
            requires
                c == 2 * b,
                b >= a,
                v >= 1,
        ;
    }
}

/// Symbol value at PDF column `col`: `0, -1, 1, -2, 2, ...`.
pub open spec fn symbol_at(col: int) -> int {
    if col % 2 == 0 {
        col / 2
    } else {
        -(col / 2) - 1
    }
}

/// PDF column of a symbol.
pub open spec fn column_of(v: int) -> int {
    if v >= 0 {
        2 * v
    } else {
        -2 * v - 1
    }
}

/// Symbol value at PDF column `col`: `0, -1, 1, -2, 2, ...`.
pub fn column_symbol(col: usize) -> (v: i32)
    requires
        col < 256,
    ensures
        v == symbol_at(col as int),
        -128 <= v < 128,
{
    if col % 2 == 0 {
        (col / 2) as i32
    } else {
        -((col / 2) as i32) - 1
    }
}

/// PDF column of symbol `v` in `[-128, 127]`.
pub fn symbol_column(v: i32) -> (col: usize)
    requires
        -128 <= v < 128,
    ensures
        col == column_of(v as int),
        col < 256,
{
    if v >= 0 {
        (2 * v) as usize
    } else {
        (2 * (-v) - 1) as usize
    }
}

/// Columns and symbols determine each other.
pub proof fn law_symbol_column(v: int, col: int)
    ensures
        symbol_at(column_of(v)) == v,
        column_of(v) >= 0,
        col >= 0 ==> column_of(symbol_at(col)) == col,
{
}

/// Mass of the first `c` columns.
pub open spec fn mass(pmf: Seq<nat>, c: int) -> nat
    decreases c,
{
    if c <= 0 {
        0
    } else {
        mass(pmf, c - 1) + pmf[c - 1]
    }
}

/// More columns, no less mass.
pub proof fn lemma_mass_monotone(pmf: Seq<nat>, a: int, b: int)
    requires
        0 <= a <= b,
    ensures
        mass(pmf, a) <= mass(pmf, b),
    decreases b - a,
{
    if a < b {
        lemma_mass_monotone(pmf, a, b - 1);
    }
}

/// A probability mass function over the 256 columns.
pub open spec fn is_pmf(pmf: Seq<nat>) -> bool {
    &&& pmf.len() == 256
    &&& mass(pmf, 256) == 256
}

/// What an encoder entry says: by how much the state decides the number of bits to shift out, and
/// where the symbol's slots start.
pub open spec fn encode_entry(p: nat, start: nat) -> int {
    let nb = if p == 0 {
        10
    } else {
        spec_renorm(p)
    };
    ((nb + 1) * 256 - p * power2::pow2(nb)) * 65536 + (start - p) % 256
}

/// The state that slot `k` of a symbol stands for, where the symbol's mass reaches from `c0` to
/// `c1`.
pub open spec fn state_of(c0: int, c1: int, k: int) -> int {
    let lower = (c1 + 1) / 2 - (c0 + 1) / 2;
    if k < lower {
        (c0 + 1) / 2 + k
    } else {
        128 + c0 / 2 + (k - lower)
    }
}

/// What a decoder entry says: how many bits to shift in, the state that they complete, and the
/// symbol.
pub open spec fn decode_entry(next: nat, symbol: int) -> int {
    let n = spec_renorm(next);
    n * 0x100_0000 + (next * power2::pow2(n) - 256) * 0x1_0000 + symbol % 65536
}

/// Slot `k` of column `col` leads the encoder to a state that leads the decoder to the column's
/// symbol.
pub open spec fn slot_ok(pmf: Seq<nat>, decode: Seq<u32>, state_map: Seq<u8>, col: int, k: int) -> bool {
    let (c0, c1) = (mass(pmf, col) as int, mass(pmf, col + 1) as int);
    let s = state_of(c0, c1, k);
    &&& state_map[c0 + k] == s
    &&& decode[s] == decode_entry((pmf[col] + k) as nat, symbol_at(col))
}

/// The tables of one distribution are those of its mass function.
pub open spec fn row_of(pmf: Seq<nat>, decode: Seq<u32>, encode: Seq<u32>, state_map: Seq<u8>) -> bool {
    &&& decode.len() == 256
    &&& encode.len() == 256
    &&& state_map.len() == 256
    &&& forall|col: int|
        0 <= col < 256 ==> #[trigger] encode[symbol_at(col) + 128] == encode_entry(
            pmf[col],
            mass(pmf, col),
        )
    &&& forall|col: int, k: int|
        0 <= col < 256 && 0 <= k < pmf[col] ==> #[trigger] slot_ok(pmf, decode, state_map, col, k)
}

/// Numbers of bits in the tables of one distribution are small: eight at most to shift in, fewer
/// than twelve to shift out.
pub open spec fn row_small(decode: Seq<u32>, encode: Seq<u32>) -> bool {
    &&& forall|s: int| 0 <= s < decode.len() ==> (#[trigger] decode[s]) / 0x100_0000 <= 8
    &&& forall|s: int| 0 <= s < encode.len() ==> (#[trigger] encode[s]) / 0x1_0000 <= 2816
}

/// Where a symbol's states lie.
proof fn lemma_state_range(c0: int, c1: int, k: int)
    requires
        0 <= c0,
        c1 <= 256,
        0 <= k < c1 - c0,
    ensures
        ({
            let s = state_of(c0, c1, k);
            ||| (c0 + 1) / 2 <= s < (c1 + 1) / 2 && s < 128
            ||| 128 + c0 / 2 <= s < 128 + c1 / 2
        }),
        0 <= state_of(c0, c1, k) < 256,
{
}

/// States of different slots of one symbol differ.
proof fn lemma_state_injective(c0: int, c1: int, j: int, k: int)
    requires
        0 <= c0,
        c1 <= 256,
        0 <= j < c1 - c0,
        0 <= k < c1 - c0,
        j != k,
    ensures
        state_of(c0, c1, j) != state_of(c0, c1, k),
{
}

/// The escape symbol of a distribution with this bound: one unit of mass at column
/// `2 * bound - 1`, over what the row of masses gives.
pub open spec fn pmf_of(row: Seq<u8>, bound: u8) -> Seq<nat> {
    Seq::new(
        256,
        |c: int|
            if c == 2 * bound - 1 {
                1
            } else if c < row.len() {
                row[c] as nat
            } else {
                0
            },
    )
}

/// The masses and escape bounds of the residual coder's distributions.
#[derive(Clone, Debug, PartialEq, Eq)]
pub struct PdfTables {
    /// Per distribution, the mass of each PDF column; columns beyond the row have none.
    pub rows: Vec<Vec<u8>>,
    /// Per distribution, the escape bound.
    pub bounds: Vec<u8>,
}

impl PdfTables {
    /// The mass function of distribution `d`, escape symbol included.
    pub open spec fn pmf(&self, d: int) -> Seq<nat> {
        pmf_of(self.rows@[d]@, self.bounds@[d])
    }

    /// There are 32 distributions; each has a bound that some column stands for and a mass of
    /// 256 with the escape symbol.
    pub open spec fn wf(&self) -> bool {
        &&& self.rows@.len() == 32
        &&& self.bounds@.len() == 32
        &&& forall|d: int| 0 <= d < 32 ==> 1 <= #[trigger] self.bounds@[d] <= 128
        &&& forall|d: int| 0 <= d < 32 ==> is_pmf(#[trigger] self.pmf(d))
    }

    /// Whether there are 32 distributions, each with a bound from 1 to 128 and a mass of 256 with
    /// the escape symbol.
    pub fn is_valid(&self) -> (b: bool)
        ensures
            b == self.wf(),
    {
        if self.rows.len() != 32 || self.bounds.len() != 32 {
            return false;
        }
        let mut d: usize = 0;
        while d < 32
            invariant
                d <= 32,
                self.rows@.len() == 32,
                self.bounds@.len() == 32,
                forall|e: int| 0 <= e < d ==> 1 <= #[trigger] self.bounds@[e] <= 128,
                forall|e: int| 0 <= e < d ==> is_pmf(#[trigger] self.pmf(e)),
            decreases 32 - d,
        {
            let bound: u8 = self.bounds[d];
            if bound == 0 || bound > 128 {
                proof {
                    assert(!(1 <= self.bounds@[d as int] <= 128));
                }
                return false;
            }
            let total: u32 = row_mass(&self.rows[d], bound);
            proof {
                assert(mass(self.pmf(d as int), 256) == total);
            }
            if total != 256 {
                return false;
            }
            d = d + 1;
        }
        true
    }
}

/// The mass of a row with its escape symbol.
fn row_mass(row: &Vec<u8>, bound: u8) -> (total: u32)
    requires
        1 <= bound <= 128,
    ensures
        total == mass(pmf_of(row@, bound), 256),
{
    let ghost pmf = pmf_of(row@, bound);
    let mut total: u32 = 0;
    let mut c: usize = 0;
    while c < 256
        invariant
            c <= 256,
            1 <= bound <= 128,
            pmf == pmf_of(row@, bound),
            total == mass(pmf, c as int),
            total <= 255 * c,
        decreases 256 - c,
    {
        let m: u8 = if c == 2 * bound as usize - 1 {
            1
        } else if c < row.len() {
            row[c]
        } else {
            0
        };
        total = total + m as u32;
        c = c + 1;
    }
    total
}

/// Tables for the residual coder: 32 distributions selected by the sigma index.
#[derive(Debug)]
pub struct ResidualTables {
    /// `decode[d][state] = nbits << 24 | next_state_base << 16 | (symbol as u16)`.
    pub decode: Vec<Vec<u32>>,
    /// `encode[d][symbol + 128] = delta_bits << 16 | adder`.
    pub encode: Vec<Vec<u32>>,
    /// `state_map[d][slot]`: cumulative slot number to state.
    pub state_map: Vec<Vec<u8>>,
    /// Escape bound per distribution.
    pub bounds: Vec<u8>,
}

impl ResidualTables {
    /// Every table has 256 entries with small numbers of bits, and every bound is some column's.
    pub open spec fn wf(&self) -> bool {
        &&& self.decode@.len() == 32
        &&& self.encode@.len() == 32
        &&& self.state_map@.len() == 32
        &&& self.bounds@.len() == 32
        &&& forall|d: int| 0 <= d < 32 ==> (#[trigger] self.decode@[d])@.len() == 256
        &&& forall|d: int| 0 <= d < 32 ==> (#[trigger] self.encode@[d])@.len() == 256
        &&& forall|d: int| 0 <= d < 32 ==> (#[trigger] self.state_map@[d])@.len() == 256
        &&& forall|d: int| 0 <= d < 32 ==> 1 <= #[trigger] self.bounds@[d] <= 128
        &&& forall|d: int|
            0 <= d < 32 ==> row_small((#[trigger] self.decode@[d])@, self.encode@[d]@)
    }

    /// The tables are those of these masses.
    pub open spec fn of(&self, pdf: &PdfTables) -> bool {
        &&& self.wf()
        &&& self.bounds@ == pdf.bounds@
        &&& forall|d: int|
            0 <= d < 32 ==> row_of(
                pdf.pmf(d),
                (#[trigger] self.decode@[d])@,
                self.encode@[d]@,
                self.state_map@[d]@,
            )
    }
}

/// The three tables of one distribution.
struct Row {
    decode: Vec<u32>,
    encode: Vec<u32>,
    state_map: Vec<u8>,
}

/// The tables hold what [`row_of`] asks for of the columns before `upto`, and of the slots before
/// `slots` of that column.
spec fn row_done(pmf: Seq<nat>, row: Row, upto: int, slots: int) -> bool {
    &&& row.decode@.len() == 256
    &&& row.encode@.len() == 256
    &&& row.state_map@.len() == 256
    &&& row_small(row.decode@, row.encode@)
    &&& forall|col: int|
        0 <= col < upto ==> #[trigger] row.encode@[symbol_at(col) + 128] == encode_entry(
            pmf[col],
            mass(pmf, col),
        )
    &&& forall|col: int, k: int|
        (0 <= col < upto && 0 <= k < pmf[col]) || (col == upto && 0 <= k < slots)
            ==> #[trigger] slot_ok(pmf, row.decode@, row.state_map@, col, k)
}

/// An encoder entry is a small number of bits above a slot number.
pub proof fn lemma_encode_entry(p: nat, start: nat)
    requires
        p <= 256,
        start + p <= 256,
    ensures
        0 <= encode_entry(p, start) < 0x1_0000_0000,
        encode_entry(p, start) / 65536 <= 2816,
        p > 0 ==> {
            let nb = spec_renorm(p);
            &&& nb <= 8
            &&& encode_entry(p, start) / 65536 == (nb + 1) * 256 - p * power2::pow2(nb)
        },
        encode_entry(p, start) % 65536 == (start - p) % 256,
{
    power2::lemma2_to64();
    if p > 0 {
        lemma_renorm(p);
        if spec_renorm(p) == 0 {
            assert(p * 1 <= 256);
        }
    } else {
        assert(0 * power2::pow2(10) == 0) by (nonlinear_arith);
    }
}

/// A decoder entry packs at most eight bits, a state and a symbol.
pub proof fn lemma_decode_entry(next: nat, symbol: int)
    requires
        1 <= next < 512,
    ensures
        0 <= decode_entry(next, symbol) < 0x1_0000_0000,
        decode_entry(next, symbol) / 0x100_0000 == spec_renorm(next),
        decode_entry(next, symbol) / 0x1_0000 % 256 == next * power2::pow2(spec_renorm(next)) - 256,
        decode_entry(next, symbol) % 0x1_0000 == symbol % 65536,
        spec_renorm(next) <= 8,
{
    lemma_renorm(next);
}

/// Slots of other columns and earlier slots of the same column keep clear of a slot.
proof fn lemma_slots_apart(pmf: Seq<nat>, col: int, k: int, other: int, j: int)
    requires
        is_pmf(pmf),
        0 <= other <= col < 256,
        0 <= k < pmf[col],
        0 <= j < pmf[other],
        other < col || j != k,
    ensures
        ({
            let (c0, c1) = (mass(pmf, col) as int, mass(pmf, col + 1) as int);
            let (d0, d1) = (mass(pmf, other) as int, mass(pmf, other + 1) as int);
            &&& c0 + k != d0 + j
            &&& state_of(c0, c1, k) != state_of(d0, d1, j)
            &&& 0 <= d0 + j < 256
            &&& 0 <= c0 + k < 256
            &&& 0 <= state_of(c0, c1, k) < 256
            &&& 0 <= state_of(d0, d1, j) < 256
        }),
{
    let (c0, c1) = (mass(pmf, col) as int, mass(pmf, col + 1) as int);
    let (d0, d1) = (mass(pmf, other) as int, mass(pmf, other + 1) as int);
    lemma_mass_monotone(pmf, col + 1, 256);
    lemma_mass_monotone(pmf, other + 1, 256);
    lemma_state_range(c0, c1, k);
    lemma_state_range(d0, d1, j);
    if other < col {
        lemma_mass_monotone(pmf, other + 1, col);
    } else {
        lemma_state_injective(c0, c1, j, k);
    }
}

/// The decoder entry of a state and a symbol.
fn make_decode_entry(next: u32, symbol: i32) -> (e: u32)
    requires
        1 <= next < 512,
        -128 <= symbol < 128,
    ensures
        e == decode_entry(next as nat, symbol as int),
{
    let n: u32 = renorm_bits(next);
    let sym16: u32 = if symbol >= 0 { symbol as u32 } else { (65536 + symbol) as u32 };
    proof {
        lemma_decode_entry(next as nat, symbol as int);
        lemma_renorm(next as nat);
        vstd::bits::lemma_u32_shl_is_mul(next, n);
    }
    let base: u32 = (next << n) - 256;
    n * 0x100_0000 + base * 0x1_0000 + sym16
}

/// The encoder entry of a mass and the slot where it starts.
fn make_encode_entry(p: u32, start: u32) -> (e: u32)
    requires
        p <= 256,
        start + p <= 256,
    ensures
        e == encode_entry(p as nat, start as nat),
        e / 0x1_0000 <= 2816,
{
    proof {
        lemma_encode_entry(p as nat, start as nat);
    }
    let adder: u32 = if start >= p { start - p } else { start + 256 - p };
    if p == 0 {
        proof {
            assert(0 * power2::pow2(10) == 0) by (nonlinear_arith);
        }
        return 2816 * 0x1_0000 + adder % 256;
    }
    let nb: u32 = renorm_bits(p);
    proof {
        lemma_renorm(p as nat);
        vstd::bits::lemma_u32_shl_is_mul(p, nb);
    }
    let delta: u32 = (nb + 1) * 256 - (p << nb);
    delta * 0x1_0000 + adder % 256
}

/// `n` zeros.
fn zeros_u32(n: usize) -> (v: Vec<u32>)
    ensures
        v@.len() == n,
        forall|i: int| 0 <= i < n ==> v@[i] == 0,
{
    let mut v: Vec<u32> = Vec::new();
    while v.len() < n
        invariant
            v@.len() <= n,
            forall|i: int| 0 <= i < v@.len() ==> v@[i] == 0,
        decreases n - v@.len(),
    {
        v.push(0);
    }
    v
}

/// Fill in the slots of one column.
fn fill_column(row: Row, col: usize, p: u32, start: u32, Ghost(pmf): Ghost<Seq<nat>>) -> (out: Row)
    requires
        is_pmf(pmf),
        col < 256,
        p == pmf[col as int],
        start == mass(pmf, col as int),
        row_done(pmf, row, col as int, 0),
    ensures
        row_done(pmf, out, col + 1, 0),
{
    let mut decode = row.decode;
    let mut encode = row.encode;
    let mut state_map = row.state_map;
    let sym: i32 = column_symbol(col);
    proof {
        lemma_mass_monotone(pmf, col + 1, 256);
        assert(mass(pmf, col + 1) == start + p);
    }
    let index: usize = (sym + 128) as usize;
    let entry: u32 = make_encode_entry(p, start);
    encode.set(index, entry);
    let end: u32 = start + p;
    let lower: u32 = (end + 1) / 2 - (start + 1) / 2;
    let mut k: u32 = 0;
    proof {
        let now = Row { decode, encode, state_map };
        assert forall|c: int| 0 <= c < col + 1 implies #[trigger] encode@[symbol_at(c) + 128]
            == encode_entry(pmf[c], mass(pmf, c)) by {
            if c < col {
                law_symbol_column(0, c);
                law_symbol_column(0, col as int);
                assert(row.encode@[symbol_at(c) + 128] == encode_entry(pmf[c], mass(pmf, c)));
            }
        }
        assert forall|s: int| 0 <= s < 256 implies (#[trigger] encode@[s]) / 0x1_0000 <= 2816 by {
            assert(row.encode@[s] / 0x1_0000 <= 2816);
        }
    }
    while k < p
        invariant
            is_pmf(pmf),
            col < 256,
            p == pmf[col as int],
            start == mass(pmf, col as int),
            end == start + p,
            end <= 256,
            end == mass(pmf, col + 1),
            lower == (end + 1) / 2 - (start + 1) / 2,
            sym == symbol_at(col as int),
            -128 <= sym < 128,
            k <= p,
            forall|c: int|
                0 <= c < col + 1 ==> #[trigger] encode@[symbol_at(c) + 128] == encode_entry(
                    pmf[c],
                    mass(pmf, c),
                ),
            row_done(pmf, Row { decode, encode, state_map }, col as int, k as int),
        decreases p - k,
    {
        let state: u32 = if k < lower {
            (start + 1) / 2 + k
        } else {
            128 + start / 2 + (k - lower)
        };
        proof {
            lemma_state_range(start as int, end as int, k as int);
            lemma_decode_entry((p + k) as nat, sym as int);
            assert(state == state_of(start as int, end as int, k as int));
        }
        let ghost before = decode@;
        let ghost before_map = state_map@;
        let e: u32 = make_decode_entry(p + k, sym);
        decode.set(state as usize, e);
        state_map.set((start + k) as usize, state as u8);
        proof {
            assert forall|c: int, j: int|
                (0 <= c < col && 0 <= j < pmf[c]) || (c == col && 0 <= j < k + 1) implies #[trigger] slot_ok(
                pmf,
                decode@,
                state_map@,
                c,
                j,
            ) by {
                if c < col || j < k {
                    assert(slot_ok(pmf, before, before_map, c, j));
                    lemma_slots_apart(pmf, col as int, k as int, c, j);
                }
            }
            assert forall|s: int| 0 <= s < 256 implies (#[trigger] decode@[s]) / 0x100_0000 <= 8 by {
                assert(before[s] / 0x100_0000 <= 8);
            }
        }
        k = k + 1;
    }
    proof {
        let out = Row { decode, encode, state_map };
        assert forall|c: int, j: int|
            (0 <= c < col + 1 && 0 <= j < pmf[c]) || (c == col + 1 && 0 <= j < 0) implies #[trigger] slot_ok(
            pmf,
            decode@,
            state_map@,
            c,
            j,
        ) by {}
    }
    Row { decode, encode, state_map }
}

/// The tables of one distribution.
fn build_row(masses: &Vec<u8>, bound: u8) -> (row: Row)
    requires
        1 <= bound <= 128,
        is_pmf(pmf_of(masses@, bound)),
    ensures
        row_small(row.decode@, row.encode@),
        row_of(pmf_of(masses@, bound), row.decode@, row.encode@, row.state_map@),
{
    let ghost pmf = pmf_of(masses@, bound);
    let decode = zeros_u32(NUM_STATES);
    let encode = zeros_u32(NUM_STATES);
    let mut state_map: Vec<u8> = Vec::new();
    while state_map.len() < NUM_STATES
        invariant
            state_map@.len() <= 256,
        decreases 256 - state_map@.len(),
    {
        state_map.push(0);
    }
    let mut row = Row { decode, encode, state_map };
    let mut col: usize = 0;
    let mut start: u32 = 0;
    while col < NUM_STATES
        invariant
            col <= 256,
            1 <= bound <= 128,
            pmf == pmf_of(masses@, bound),
            is_pmf(pmf),
            start == mass(pmf, col as int),
            start <= 256,
            row_done(pmf, row, col as int, 0),
        decreases 256 - col,
    {
        let p: u32 = if col == 2 * bound as usize - 1 {
            1
        } else if col < masses.len() {
            masses[col] as u32
        } else {
            0
        };
        proof {
            lemma_mass_monotone(pmf, col + 1, 256);
        }
        row = fill_column(row, col, p, start, Ghost(pmf));
        start = start + p;
        col = col + 1;
    }
    row
}

impl ResidualTables {
    /// Build the tables of every distribution.
    pub fn build(pdf: &PdfTables) -> (t: Self)
        requires
            pdf.wf(),
        ensures
            t.of(pdf),
    {
        let mut decode: Vec<Vec<u32>> = Vec::new();
        let mut encode: Vec<Vec<u32>> = Vec::new();
        let mut state_map: Vec<Vec<u8>> = Vec::new();
        let mut bounds: Vec<u8> = Vec::new();
        let mut d: usize = 0;
        while d < NUM_DISTRIBUTIONS_R
            invariant
                d <= 32,
                pdf.wf(),
                decode@.len() == d,
                encode@.len() == d,
                state_map@.len() == d,
                bounds@.len() == d,
                forall|i: int| 0 <= i < d ==> #[trigger] bounds@[i] == pdf.bounds@[i],
                forall|i: int|
                    0 <= i < d ==> row_small((#[trigger] decode@[i])@, encode@[i]@),
                forall|i: int|
                    0 <= i < d ==> row_of(
                        pdf.pmf(i),
                        (#[trigger] decode@[i])@,
                        encode@[i]@,
                        state_map@[i]@,
                    ),
            decreases 32 - d,
        {
            proof {
                assert(is_pmf(pdf.pmf(d as int)));
            }
            let bound: u8 = pdf.bounds[d];
            let row = build_row(&pdf.rows[d], bound);
            decode.push(row.decode);
            encode.push(row.encode);
            state_map.push(row.state_map);
            bounds.push(bound);
            d = d + 1;
        }
        let t = ResidualTables { decode, encode, state_map, bounds };
        proof {
            assert(t.bounds@ =~= pdf.bounds@);
            assert forall|i: int| 0 <= i < 32 implies (#[trigger] t.encode@[i])@.len() == 256 by {
                assert(t.decode@[i]@.len() == 256);
            }
            assert forall|i: int| 0 <= i < 32 implies (#[trigger] t.state_map@[i])@.len() == 256 by {
                assert(t.decode@[i]@.len() == 256);
            }
            assert forall|i: int| 0 <= i < 32 implies 1 <= #[trigger] t.bounds@[i] <= 128 by {
                assert(pdf.bounds@[i] == t.bounds@[i]);
            }
        }
        t
    }
}

/// Number of bits that an encoder entry shifts out of a state.
pub open spec fn bits_out(state: u8, entry: u32) -> nat {
    ((state + entry / 0x1_0000) / 256) as nat
}

/// The bits that an encoder entry shifts out of a state.
pub open spec fn low_out(state: u8, entry: u32) -> nat {
    (state as nat) % power2::pow2(bits_out(state, entry))
}

/// The slot that an encoder entry takes a state to.
pub open spec fn slot_out(state: u8, entry: u32) -> nat {
    (((state + 256) as nat / power2::pow2(bits_out(state, entry)) + entry) % 256) as nat
}

/// Number of bits that a decoder entry shifts in.
pub open spec fn bits_in(entry: u32) -> nat {
    (entry / 0x100_0000) as nat
}

/// The state that a decoder entry starts from.
pub open spec fn base_in(entry: u32) -> u8 {
    (entry / 0x1_0000 % 256) as u8
}

/// A decoder entry takes back an encoder entry: from the state that the encoder went to, it shifts
/// in the number of bits that the encoder shifted out, and with them arrives where the encoder
/// was.
pub open spec fn undoes(state: u8, encode: u32, decode: u32) -> bool {
    &&& bits_in(decode) == bits_out(state, encode)
    &&& base_in(decode) as nat + low_out(state, encode) == state
    &&& base_in(decode) as nat % power2::pow2(bits_in(decode)) == 0
}

/// The number of bits that a symbol of mass `p` shifts out of a state: one fewer where the state
/// lies below the scaled mass.
proof fn lemma_bits_out(state: u8, p: nat, start: nat, entry: u32)
    requires
        0 < p <= 256,
        start + p <= 256,
        entry == encode_entry(p, start),
    ensures
        ({
            let n = bits_out(state, entry);
            let t = power2::pow2(n) as int;
            let x = (state + 256) as int;
            &&& n <= 8
            &&& t > 0
            &&& p * t <= x < 2 * (p * t) || p * t >= 256 && x >= p * t
            &&& p * t < 512
        }),
{
    power2::lemma2_to64();
    lemma_encode_entry(p, start);
    lemma_renorm(p);
    let nb = spec_renorm(p);
    let x = (state + 256) as int;
    let scaled = (p * power2::pow2(nb)) as int;
    let n = bits_out(state, entry);
    power2::lemma_pow2_pos(n);
    assert(n == (x + nb * 256 - scaled) / 256);
    if x >= scaled {
        assert(n == nb);
    } else {
        if nb == 0 {
            assert(p * 1 == p);
        }
        assert(n == nb - 1);
        power2::lemma_pow2_unfold(nb);
        let t = power2::pow2(n) as int;
        assert(scaled == 2 * (p * t)) by (nonlinear_arith)
            requires
                scaled == p * (2 * t),
        ;
    }
}

/// A quotient lies between a mass and its double where the scaled mass tells so.
proof fn lemma_quotient(x: int, p: int, t: int)
    requires
        256 <= x < 512,
        t > 0,
        p > 0,
        p * t <= x < 2 * (p * t) || p * t >= 256 && x >= p * t,
    ensures
        p <= x / t < 2 * p,
        x / t * t + x % t == x,
        0 <= x % t < t,
{
    let q = x / t;
    div_mod::lemma_fundamental_div_mod(x, t);
    div_mod::lemma_mod_bound(x, t);
    assert(q >= p) by (nonlinear_arith)
        requires
            x == t * q + x % t,
            x % t < t,
            x >= p * t,
            t > 0,
    ;
    assert(q < 2 * p) by (nonlinear_arith)
        requires
            x == t * q + x % t,
            0 <= x % t,
            x < 2 * (p * t),
            t > 0,
    ;
    assert(q * t + x % t == x) by (nonlinear_arith)
        requires
            x == t * q + x % t,
    ;
}

/// The step of a symbol of mass `p` from a state: the slot lies within the symbol's mass, and the
/// bits and the number that lead there lead back.
pub proof fn lemma_step(state: u8, p: nat, start: nat, entry: u32)
    requires
        0 < p <= 256,
        start + p <= 256,
        entry == encode_entry(p, start),
    ensures
        ({
            let n = bits_out(state, entry);
            let q = (state + 256) as nat / power2::pow2(n);
            &&& n <= 8
            &&& p <= q < 2 * p
            &&& slot_out(state, entry) == start + (q - p)
            &&& spec_renorm(q) == n
            &&& q * power2::pow2(n) + low_out(state, entry) == state + 256
            &&& low_out(state, entry) < power2::pow2(n)
        }),
{
    let x = (state + 256) as int;
    let n = bits_out(state, entry);
    let t = power2::pow2(n) as int;
    lemma_bits_out(state, p, start, entry);
    lemma_quotient(x, p as int, t);
    let q = x / t;
    lemma_low_bits(state, n);
    assert(spec_renorm(q as nat) == n) by {
        lemma_renorm_between(q as nat, n, x as nat);
    }
    assert(entry as int % 256 == (start - p) % 256) by {
        lemma_encode_entry(p, start);
        assert((entry as int % 65536) % 256 == entry as int % 256);
    }
    lemma_slot_of(q, entry as int, start as int, p as int);
}

/// The slot of a quotient within a symbol's mass.
proof fn lemma_slot_of(q: int, entry: int, start: int, p: int)
    requires
        0 < p <= q < 2 * p,
        0 <= start,
        start + p <= 256,
        entry % 256 == (start - p) % 256,
    ensures
        (q + entry) % 256 == start + (q - p),
{
    assert((q + entry) % 256 == (q + (start - p)) % 256);
}

/// The low bits of a state are those of the state with a leading one.
proof fn lemma_low_bits(state: u8, n: nat)
    requires
        n <= 8,
    ensures
        (state + 256) % (power2::pow2(n) as int) == state as nat % power2::pow2(n),
{
    power2::lemma2_to64();
    power2::lemma_pow2_pos(n);
    power2::lemma_pow2_adds(n, (8 - n) as nat);
    let t = power2::pow2(n) as int;
    let u = power2::pow2((8 - n) as nat) as int;
    div_mod::lemma_mod_multiples_vanish(u, state as int, t);
    assert(t * u == 256);
}

/// A number whose shift by `n` bits, with something below, reaches a number in `[256, 512)` is
/// renormalised by `n` bits.
proof fn lemma_renorm_between(q: nat, n: nat, x: nat)
    requires
        256 <= x < 512,
        n <= 8,
        q == x / power2::pow2(n),
    ensures
        1 <= q < 512,
        spec_renorm(q) == n,
{
    let t = power2::pow2(n) as int;
    power2::lemma2_to64();
    power2::lemma_pow2_pos(n);
    power2::lemma_pow2_adds(n, (8 - n) as nat);
    let u = power2::pow2((8 - n) as nat) as int;
    div_mod::lemma_fundamental_div_mod(x as int, t);
    div_mod::lemma_mod_bound(x as int, t);
    let r = x as int % t;
    assert(q >= u) by (nonlinear_arith)
        requires
            x == t * q + r,
            r < t,
            x >= t * u,
            t > 0,
    ;
    assert(q * t >= 256) by (nonlinear_arith)
        requires
            q >= u,
            t * u == 256,
            t > 0,
    ;
    assert(q * t < 512) by (nonlinear_arith)
        requires
            x == t * q + r,
            r >= 0,
            x < 512,
    ;
    assert(q < 512) by (nonlinear_arith)
        requires
            q * t < 512,
            t >= 1,
    ;
    assert(u >= 1);
    lemma_renorm_unique(q, n);
}

/// The decoder entry of the number that a symbol's step leads to takes the step back.
proof fn lemma_undoes(state: u8, p: nat, start: nat, e: u32, d: u32, symbol: int)
    requires
        0 < p <= 256,
        start + p <= 256,
        e == encode_entry(p, start),
        d == decode_entry(((state + 256) as nat / power2::pow2(bits_out(state, e))) as nat, symbol),
    ensures
        undoes(state, e, d),
        d as int % 65536 == symbol % 65536,
        bits_out(state, e) <= 8,
{
    lemma_step(state, p, start, e);
    let n = bits_out(state, e);
    let q = (state + 256) as nat / power2::pow2(n);
    lemma_decode_entry(q, symbol);
    let t = power2::pow2(n) as int;
    power2::lemma_pow2_adds(n, (8 - n) as nat);
    power2::lemma2_to64();
    let u = power2::pow2((8 - n) as nat) as int;
    power2::lemma_pow2_pos(n);
    assert((q * t - 256) % t == 0) by {
        assert(q * t - 256 == (q - u) * t) by (nonlinear_arith)
            requires
                t * u == 256,
        ;
        div_mod::lemma_mod_multiples_basic((q - u) as int, t);
    }
}

/// Where the tables are those of a mass function, decoding takes back encoding, from every state
/// and for every symbol that has mass.
pub proof fn law_tables_invert(
    pmf: Seq<nat>,
    decode: Seq<u32>,
    encode: Seq<u32>,
    state_map: Seq<u8>,
    state: u8,
    symbol: int,
)
    requires
        is_pmf(pmf),
        row_of(pmf, decode, encode, state_map),
        -128 <= symbol < 128,
        pmf[column_of(symbol)] > 0,
    ensures
        ({
            let e = encode[symbol + 128];
            let next = state_map[slot_out(state, e) as int];
            let d = decode[next as int];
            &&& undoes(state, e, d)
            &&& d % 65536 == symbol % 65536
            &&& bits_out(state, e) <= 8
        }),
{
    let col = column_of(symbol);
    law_symbol_column(symbol, col);
    let p = pmf[col];
    let start = mass(pmf, col);
    lemma_mass_monotone(pmf, col + 1, 256);
    let e = encode[symbol + 128];
    assert(encode[symbol_at(col) + 128] == encode_entry(p, start));
    lemma_step(state, p, start, e);
    let n = bits_out(state, e);
    let q = (state + 256) as nat / power2::pow2(n);
    let k = q - p;
    assert(slot_ok(pmf, decode, state_map, col, k));
    lemma_undoes(state, p, start, e, decode[state_map[start + k] as int], symbol);
}

/// What the hyper-latent decoder has prepared for a number below 512: the number of bits to shift
/// in, above the state that they complete.
pub open spec fn preprocess_entry(k: nat) -> int {
    if k == 0 {
        0
    } else {
        spec_renorm(k) * 256 + (k * power2::pow2(spec_renorm(k)) - 256)
    }
}

/// For `k` in `1..512`, `((k << nbits) ^ 256) | nbits << 8` with `nbits = 8 - floor(log2(k))`
/// (0 for `k >= 256`).
pub fn z_decode_preprocess() -> (t: [u16; 512])
    ensures
        forall|k: int| 0 <= k < 512 ==> #[trigger] t@[k] == preprocess_entry(k as nat),
{
    let mut t: [u16; 512] = [0u16; 512];
    let mut k: usize = 1;
    while k < 512
        invariant
            1 <= k <= 512,
            t@.len() == 512,
            forall|i: int| 0 <= i < k ==> #[trigger] t@[i] == preprocess_entry(i as nat),
        decreases 512 - k,
    {
        let v: u32 = k as u32;
        let n: u32 = renorm_bits(v);
        proof {
            lemma_renorm(k as nat);
            vstd::bits::lemma_u32_shl_is_mul(v, n);
        }
        t[k] = (n * 256 + ((v << n) - 256)) as u16;
        k = k + 1;
    }
    t
}

/// What the hyper-latent encoder has prepared for a mass below 256.
pub open spec fn delta_entry(p: nat) -> int {
    if p == 0 {
        0
    } else {
        (spec_renorm(p) + 1) * 256 - p * power2::pow2(spec_renorm(p))
    }
}

/// For a mass `p` in `1..256`, `(nb << 8) - (p << nb) + 256` with `nb = 8 - floor(log2(p))`.
pub fn z_encode_delta_bits() -> (t: [u16; 256])
    ensures
        forall|p: int| 0 <= p < 256 ==> #[trigger] t@[p] == delta_entry(p as nat),
{
    let mut t: [u16; 256] = [0u16; 256];
    let mut p: usize = 1;
    while p < 256
        invariant
            1 <= p <= 256,
            t@.len() == 256,
            forall|i: int| 0 <= i < p ==> #[trigger] t@[i] == delta_entry(i as nat),
        decreases 256 - p,
    {
        let v: u32 = p as u32;
        let nb: u32 = renorm_bits(v);
        proof {
            lemma_renorm(p as nat);
            vstd::bits::lemma_u32_shl_is_mul(v, nb);
            if nb == 0 {
                power2::lemma2_to64();
                assert(p * 1 == p);
            }
        }
        t[p] = (nb * 256 + 256 - (v << nb)) as u16;
        p = p + 1;
    }
    t
}

/// Where the mass of a symbol starts in a hyper-latent CDF; the escape symbol has the last slot.
pub open spec fn z_start(cdf: Seq<u8>, sym: int) -> nat {
    if sym == 0 {
        0
    } else if sym >= 63 {
        255
    } else {
        cdf[sym - 1] as nat
    }
}

/// The mass of a symbol in a hyper-latent CDF; the escape symbol has one unit.
pub open spec fn z_mass(cdf: Seq<u8>, sym: int) -> int {
    if sym >= 63 {
        1
    } else {
        cdf[sym] - z_start(cdf, sym)
    }
}

/// A hyper-latent CDF never falls.
pub open spec fn z_monotone(cdf: Seq<u8>) -> bool {
    forall|i: int| 0 <= i < cdf.len() ==> z_start(cdf, i) <= #[trigger] cdf[i]
}

/// Entries of a CDF that never falls are ordered.
pub proof fn lemma_z_ordered(cdf: Seq<u8>, i: int, j: int)
    requires
        cdf.len() == 63,
        z_monotone(cdf),
        0 <= i <= j < 63,
    ensures
        cdf[i] <= cdf[j],
    decreases j - i,
{
    if i < j {
        lemma_z_ordered(cdf, i, j - 1);
        assert(z_start(cdf, j) <= cdf[j]);
    }
}

/// The first symbol from `sym` on whose CDF entry lies above a state; 63 if there is none.
pub open spec fn z_owner(cdf: Seq<u8>, s: int, sym: int) -> int
    decreases 63 - sym,
{
    if sym >= 63 {
        63
    } else if s < cdf[sym] {
        sym
    } else {
        z_owner(cdf, s, sym + 1)
    }
}

/// The decoder table of a hyper-latent CDF: the states of each symbol one after the other, then
/// states that nothing leads to, then the escape symbol's.
#[verifier::opaque]
pub open spec fn z_decode_table(cdf: Seq<u8>) -> Seq<u32> {
    Seq::new(
        256,
        |s: int|
            {
                let sym = z_owner(cdf, s, 0);
                if s == 255 {
                    decode_entry(1, 63) as u32
                } else if sym >= 63 {
                    0
                } else {
                    decode_entry((z_mass(cdf, sym) + (s - z_start(cdf, sym))) as nat, sym) as u32
                }
            },
    )
}

/// The encoder table of a hyper-latent CDF: nothing for a symbol without mass.
#[verifier::opaque]
pub open spec fn z_encode_table(cdf: Seq<u8>) -> Seq<u32> {
    Seq::new(
        64,
        |sym: int|
            if z_mass(cdf, sym) == 0 {
                0
            } else {
                encode_entry(z_mass(cdf, sym) as nat, z_start(cdf, sym)) as u32
            },
    )
}

/// A state within a symbol's mass is the symbol's.
pub proof fn lemma_z_owner(cdf: Seq<u8>, s: int, from: int, sym: int)
    requires
        cdf.len() == 63,
        z_monotone(cdf),
        0 <= from <= sym < 63,
        z_start(cdf, sym) <= s < cdf[sym],
    ensures
        z_owner(cdf, s, from) == sym,
    decreases sym - from,
{
    if from < sym {
        lemma_z_ordered(cdf, from, sym - 1);
        lemma_z_owner(cdf, s, from + 1, sym);
    }
}

/// A state at or above the last CDF entry is no symbol's.
pub proof fn lemma_z_unowned(cdf: Seq<u8>, s: int, from: int)
    requires
        cdf.len() == 63,
        z_monotone(cdf),
        0 <= from <= 63,
        cdf[62] <= s,
    ensures
        z_owner(cdf, s, from) == 63,
    decreases 63 - from,
{
    if from < 63 {
        lemma_z_ordered(cdf, from, 62);
        lemma_z_unowned(cdf, s, from + 1);
    }
}

/// The entries of a symbol's states.
pub proof fn lemma_z_decode_slot(cdf: Seq<u8>, sym: int, k: int)
    requires
        cdf.len() == 63,
        z_monotone(cdf),
        0 <= sym < 64,
        0 <= k < z_mass(cdf, sym),
    ensures
        0 <= z_start(cdf, sym) + k < 256,
        z_decode_table(cdf)[z_start(cdf, sym) + k] == decode_entry(
            (z_mass(cdf, sym) + k) as nat,
            sym,
        ),
{
    reveal(z_decode_table);
    lemma_decode_entry((z_mass(cdf, sym) + k) as nat, sym);
    if sym < 63 {
        lemma_z_owner(cdf, z_start(cdf, sym) + k, 0, sym);
    }
}

/// An encoder entry of a symbol that has mass is not zero.
pub proof fn lemma_z_encode_nonzero(cdf: Seq<u8>, sym: int)
    requires
        cdf.len() == 63,
        z_monotone(cdf),
        0 <= sym < 64,
    ensures
        z_mass(cdf, sym) >= 0,
        z_mass(cdf, sym) == 0 <==> z_encode_table(cdf)[sym] == 0,
        z_mass(cdf, sym) > 0 ==> z_encode_table(cdf)[sym] == encode_entry(
            z_mass(cdf, sym) as nat,
            z_start(cdf, sym),
        ),
{
    reveal(z_encode_table);
    if sym < 63 {
        assert(z_start(cdf, sym) <= cdf[sym]);
    }
    let p = z_mass(cdf, sym);
    if p > 0 {
        lemma_encode_entry(p as nat, z_start(cdf, sym));
        lemma_renorm(p as nat);
        let nb = spec_renorm(p as nat);
        power2::lemma2_to64();
        if nb == 0 {
            assert(p * 1 == p);
        }
        assert((nb + 1) * 256 - p * power2::pow2(nb) > 0);
    }
}

/// With the tables of a CDF, decoding takes back encoding, from every state and for every symbol
/// that has mass.
pub proof fn law_z_tables_invert(cdf: Seq<u8>, state: u8, sym: int)
    requires
        cdf.len() == 63,
        z_monotone(cdf),
        0 <= sym < 64,
        z_mass(cdf, sym) > 0,
    ensures
        ({
            let e = z_encode_table(cdf)[sym];
            let d = z_decode_table(cdf)[slot_out(state, e) as int];
            &&& undoes(state, e, d)
            &&& d % 65536 == sym
            &&& bits_out(state, e) <= 8
            &&& slot_out(state, e) < 256
        }),
{
    let p = z_mass(cdf, sym) as nat;
    let start = z_start(cdf, sym);
    let table = z_decode_table(cdf);
    let e = z_encode_table(cdf)[sym];
    assert(e == encode_entry(p, start)) by {
        lemma_z_encode_nonzero(cdf, sym);
    }
    let q = (state + 256) as nat / power2::pow2(bits_out(state, e));
    let slot = slot_out(state, e) as int;
    assert(p <= q < 2 * p && slot == start + (q - p)) by {
        lemma_step(state, p, start, e);
    }
    assert(0 <= slot < 256 && table[slot] == decode_entry(q, sym)) by {
        lemma_z_decode_slot(cdf, sym, q - p);
    }
    lemma_undoes(state, p, start, e, table[slot], sym);
}

/// Sum of the first `n` frequencies.
pub open spec fn sum_of(freqs: Seq<i32>, n: int) -> int
    decreases n,
{
    if n <= 0 {
        0
    } else {
        sum_of(freqs, n - 1) + freqs[n - 1]
    }
}

/// The `i`-th entry of the 8-bit CDF of a row of frequencies:
/// `(cumsum[i] * 255 + total / 2) / total`, rounded down.
pub open spec fn z_cdf_entry(freqs: Seq<i32>, i: int) -> int {
    let total = sum_of(freqs, 63);
    (sum_of(freqs, i + 1) * 255 + total / 2) / (if total > 1 {
        total
    } else {
        1
    })
}

proof fn lemma_sum_bound(freqs: Seq<i32>, n: int)
    requires
        0 <= n <= freqs.len(),
    ensures
        -0x8000_0000 * n <= sum_of(freqs, n) <= 0x8000_0000 * n,
    decreases n,
{
    if n > 0 {
        lemma_sum_bound(freqs, n - 1);
    }
}

/// Quotient rounded down.
fn floor_div(a: i64, b: i64) -> (q: i64)
    requires
        b > 0,
        -0x1000_0000_0000_0000 < a < 0x1000_0000_0000_0000,
        b < 0x1000_0000_0000_0000,
    ensures
        q == a as int / b as int,
{
    if a >= 0 {
        a / b
    } else {
        let m: i64 = -a + (b - 1);
        let q: i64 = m / b;
        proof {
            let (x, y, z) = (a as int, b as int, q as int);
            div_mod::lemma_fundamental_div_mod(m as int, y);
            let r = m as int % y;
            assert(x == y * (-z) + (y - 1 - r)) by (nonlinear_arith)
                requires
                    -x + (y - 1) == y * z + r,
            ;
            div_mod::lemma_fundamental_div_mod_converse(x, y, -z, y - 1 - r);
        }
        -q
    }
}

/// Normalise a row of integer frequencies to the 8-bit CDF the `z` coder uses.
///
/// The last entry is always 255 for frequencies that are not all zero and none negative; state
/// 255 is reserved for the escape symbol.
pub fn normalize_z_cdf(freqs: &[i32; MAX_Z]) -> (cdf: [u8; MAX_Z])
    ensures
        forall|i: int| 0 <= i < 63 ==> #[trigger] cdf@[i] == z_cdf_entry(freqs@, i) as u8,
{
    let mut total: i64 = 0;
    let mut j: usize = 0;
    while j < MAX_Z
        invariant
            j <= 63,
            freqs@.len() == 63,
            total == sum_of(freqs@, j as int),
        decreases 63 - j,
    {
        proof {
            lemma_sum_bound(freqs@, j as int);
            lemma_sum_bound(freqs@, j + 1);
        }
        total = total + freqs[j] as i64;
        j = j + 1;
    }
    proof {
        lemma_sum_bound(freqs@, 63);
    }
    let half: i64 = floor_div(total, 2);
    let divisor: i64 = if total > 1 { total } else { 1 };
    let mut out: [u8; MAX_Z] = [0u8; MAX_Z];
    let mut acc: i64 = 0;
    let mut i: usize = 0;
    while i < MAX_Z
        invariant
            i <= 63,
            freqs@.len() == 63,
            out@.len() == 63,
            acc == sum_of(freqs@, i as int),
            total == sum_of(freqs@, 63),
            half == total as int / 2,
            -0x20_0000_0000 <= total <= 0x20_0000_0000,
            divisor == (if total > 1 {
                total
            } else {
                1
            }),
            forall|k: int| 0 <= k < i ==> #[trigger] out@[k] == z_cdf_entry(freqs@, k) as u8,
        decreases 63 - i,
    {
        proof {
            lemma_sum_bound(freqs@, i as int);
            lemma_sum_bound(freqs@, i + 1);
        }
        acc = acc + freqs[i] as i64;
        let q: i64 = floor_div(acc * 255 + half, divisor);
        out[i] = #[verifier::truncate] (q as u8);
        i = i + 1;
    }
    out
}

proof fn lemma_sum_monotone(freqs: Seq<i32>, a: int, b: int)
    requires
        0 <= a <= b <= freqs.len(),
        forall|i: int| 0 <= i < freqs.len() ==> #[trigger] freqs[i] >= 0,
    ensures
        0 <= sum_of(freqs, a) <= sum_of(freqs, b),
    decreases b,
{
    if b > 0 {
        if a < b {
            lemma_sum_monotone(freqs, a, b - 1);
        } else {
            lemma_sum_monotone(freqs, a - 1, b - 1);
        }
        assert(freqs[b - 1] >= 0);
    }
}

/// The CDF of frequencies that are not all zero and none negative lies within a byte, never
/// falls, and ends at 255.
pub proof fn law_normalized_cdf(freqs: Seq<i32>, i: int, j: int)
    requires
        freqs.len() == 63,
        forall|k: int| 0 <= k < 63 ==> #[trigger] freqs[k] >= 0,
        sum_of(freqs, 63) > 0,
        0 <= i <= j < 63,
    ensures
        0 <= z_cdf_entry(freqs, i) <= z_cdf_entry(freqs, j) <= 255,
        z_cdf_entry(freqs, 62) == 255,
{
    let t = sum_of(freqs, 63);
    lemma_sum_monotone(freqs, i + 1, j + 1);
    lemma_sum_monotone(freqs, j + 1, 63);
    let (a, b) = (sum_of(freqs, i + 1), sum_of(freqs, j + 1));
    let h = t / 2;
    assert(0 <= (a * 255 + h) / t <= (b * 255 + h) / t <= 255 && (t * 255 + h) / t == 255)
        by (nonlinear_arith)
        requires
            0 <= a <= b <= t,
            0 <= h < t,
            t > 0,
    ;
}

} // verus!
