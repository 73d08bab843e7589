//! MSB-first bit reader/writer and the Exp-Golomb binarizations used by the container.

use vstd::prelude::*;
use vstd::arithmetic::power2;

use crate::bits;
use crate::error::{Error, Result};

verus! {

/// What reading one syntax element at a position of a bit string gives: the element and the
/// position behind it, or an error.
pub type Parsed<T> = core::result::Result<(T, int), Error>;

/// A reader's result `r`, which left it at bit `end`, is what `parsed` says.
pub open spec fn agrees<T>(r: Result<T>, end: int, parsed: Parsed<T>) -> bool {
    match parsed {
        Ok((v, p)) => r == Ok::<T, Error>(v) && end == p,
        Err(e) => r == Err::<T, Error>(e),
    }
}

/// Number of binary digits of `m`; none for zero.
pub open spec fn bit_width(m: nat) -> nat
    decreases m,
{
    if m == 0 {
        0
    } else {
        1 + bit_width(m / 2)
    }
}

/// A number of `k` binary digits lies between two neighbouring powers of two.
pub proof fn lemma_bit_width(m: nat)
    ensures
        m < power2::pow2(bit_width(m)),
        m > 0 ==> bit_width(m) > 0 && power2::pow2((bit_width(m) - 1) as nat) <= m,
    decreases m,
{
    power2::lemma2_to64();
    if m > 0 {
        lemma_bit_width(m / 2);
        power2::lemma_pow2_unfold(bit_width(m));
        if m / 2 > 0 {
            power2::lemma_pow2_unfold(bit_width(m / 2));
        }
    }
}

/// Only one power of two fits: what lies between `2^(k-1)` and `2^k` has `k` binary digits.
pub proof fn lemma_bit_width_unique(m: nat, k: nat)
    requires
        k > 0,
        power2::pow2((k - 1) as nat) <= m < power2::pow2(k),
    ensures
        bit_width(m) == k,
{
    lemma_bit_width(m);
    power2::lemma_pow2_pos((k - 1) as nat);
    let w = bit_width(m);
    if w < k {
        if w < k - 1 {
            power2::lemma_pow2_strictly_increases(w, (k - 1) as nat);
        }
    } else if w > k {
        if k < w - 1 {
            power2::lemma_pow2_strictly_increases(k, (w - 1) as nat);
        }
    }
}

/// A number that fits in 32 bits has at most 32 binary digits.
pub proof fn lemma_width_u32(m: nat)
    requires
        m <= u32::MAX,
    ensures
        bit_width(m) <= 32,
{
    lemma_bit_width(m);
    power2::lemma2_to64();
    if bit_width(m) > 33 {
        power2::lemma_pow2_strictly_increases(32, (bit_width(m) - 1) as nat);
    }
}

/// Number of bits of a value bounded by `max_symbol_value`: `ceil(log2(max + 1))`.
pub fn bits_for_max(max_symbol_value: u32) -> (n: u32)
    ensures
        n == bit_width(max_symbol_value as nat),
        n <= 32,
{
    let lz: u32 = max_symbol_value.leading_zeros();
    proof {
        let m = max_symbol_value;
        vstd::std_specs::bits::axiom_u32_leading_zeros(m);
        power2::lemma2_to64();
        if m != 0 {
            let k = (32 - lz) as u32;
            let top = (k - 1) as u32;
            vstd::bits::lemma_u32_shr_is_div(m, top);
            power2::lemma_pow2_pos(top as nat);
            let high = m >> top;
            assert(high & 1u32 != 0u32);
            assert(high & 1u32 != 0u32 ==> high >= 1) by (bit_vector);
            vstd::arithmetic::div_mod::lemma_fundamental_div_mod(m as int, power2::pow2(top as nat) as int);
            let p = power2::pow2(top as nat) as int;
            let q = m as int / p;
            assert(p * q >= p) by (nonlinear_arith)
                requires
                    q >= 1,
                    p > 0,
            ;
            if k < 32 {
                vstd::bits::lemma_u32_shr_is_div(m, k);
                let pk = power2::pow2(k as nat) as int;
                power2::lemma_pow2_pos(k as nat);
                vstd::arithmetic::div_mod::lemma_small_div_converse(m as int, pk);
            }
            lemma_bit_width_unique(m as nat, k as nat);
        }
    }
    32 - lz
}

/// The number in the `n` bits from position `pos` on.
pub open spec fn field(s: Seq<bool>, pos: int, n: nat) -> u32 {
    bits::value(s.subrange(pos, pos + n)) as u32
}

/// What [`BitReader::read_bits`] reads: `n` bits, most significant first.
pub open spec fn spec_bits(s: Seq<bool>, pos: int, n: nat) -> Parsed<u32> {
    if pos + n > s.len() {
        Err(Error::UnexpectedEof)
    } else {
        Ok((field(s, pos, n), pos + n))
    }
}

/// What [`BitReader::read_bit`] reads.
pub open spec fn spec_bit(s: Seq<bool>, pos: int) -> Parsed<bool> {
    if pos + 1 > s.len() {
        Err(Error::UnexpectedEof)
    } else {
        Ok((s[pos], pos + 1))
    }
}

/// The unary prefix of an Exp-Golomb code of which `k` zeros have been read: the number of
/// zeros before the first one.
pub open spec fn spec_ue_prefix(s: Seq<bool>, pos: int, k: nat) -> Parsed<nat>
    decreases s.len() - pos,
{
    if pos >= s.len() {
        Err(Error::UnexpectedEof)
    } else if s[pos] {
        Ok((k, pos + 1))
    } else if k + 1 > 32 {
        Err(Error::InvalidData("exp-golomb prefix longer than 32 bits"))
    } else {
        spec_ue_prefix(s, pos + 1, k + 1)
    }
}

/// What [`BitReader::read_ue`] reads: `k` zeros, a one, and `k` suffix bits that count up from
/// `2^k - 1`.
pub open spec fn spec_ue(s: Seq<bool>, pos: int) -> Parsed<u64> {
    match spec_ue_prefix(s, pos, 0) {
        Err(e) => Err(e),
        Ok((k, p)) => if p + k > s.len() {
            Err(Error::UnexpectedEof)
        } else {
            Ok(((power2::pow2(k) + bits::value(s.subrange(p, p + k)) - 1) as u64, p + k))
        },
    }
}

/// The signed value that an unsigned Exp-Golomb value stands for: odd values are positive.
pub open spec fn signed_of(v: nat) -> int {
    if v % 2 == 0 {
        -(v as int / 2)
    } else {
        (v as int + 1) / 2
    }
}

/// The unsigned Exp-Golomb value that stands for a signed one: `2|x| - (x > 0)`.
pub open spec fn unsigned_of(x: int) -> nat {
    if x > 0 {
        (2 * x - 1) as nat
    } else {
        (-2 * x) as nat
    }
}

/// What [`BitReader::read_se`] reads.
pub open spec fn spec_se(s: Seq<bool>, pos: int) -> Parsed<i64> {
    match spec_ue(s, pos) {
        Err(e) => Err(e),
        Ok((v, p)) => Ok((signed_of(v as nat) as i64, p)),
    }
}

/// The Exp-Golomb code word of `v`: as many zeros as `v + 1` has digits after its first, then
/// the digits of `v + 1`.
pub open spec fn ue_code(v: nat) -> Seq<bool> {
    let k = (bit_width(v + 1) - 1) as nat;
    bits::zeros(k) + bits::low_bits(v + 1, k + 1)
}

/// The signed Exp-Golomb code word of `x`.
pub open spec fn se_code(x: int) -> Seq<bool> {
    ue_code(unsigned_of(x))
}

/// A byte string of this length can be addressed bit by bit.
pub open spec fn addressable(len: nat) -> bool {
    len * 8 <= usize::MAX
}

/// MSB-first bit reader over a byte slice.
#[derive(Clone, Debug)]
pub struct BitReader<'a> {
    data: &'a [u8],
    /// Position in bits from the start of `data`.
    pos: usize,
}

impl<'a> BitReader<'a> {
    /// The bytes that are read.
    pub closed spec fn bytes(&self) -> Seq<u8> {
        self.data@
    }

    /// The bits that are read.
    pub open spec fn bits(&self) -> Seq<bool> {
        bits::of_bytes(self.bytes())
    }

    /// Position in bits from the start.
    pub closed spec fn pos(&self) -> int {
        self.pos as int
    }

    /// The reader stands within its data, and every bit of it has a `usize` position.
    pub open spec fn wf(&self) -> bool {
        &&& addressable(self.bytes().len())
        &&& 0 <= self.pos() <= self.bits().len()
    }

    /// `self` reads what `other` reads, and stands no earlier.
    pub open spec fn follows(&self, other: &Self) -> bool {
        &&& self.wf()
        &&& self.bytes() == other.bytes()
        &&& self.pos() >= other.pos()
    }

    /// A reader at the start of `data`.
    pub fn new(data: &'a [u8]) -> (r: Self)
        requires
            addressable(data@.len()),
        ensures
            r.wf(),
            r.bytes() == data@,
            r.pos() == 0,
    {
        BitReader { data, pos: 0 }
    }

    /// Bit position from the start of the buffer.
    pub fn bit_pos(&self) -> (n: usize)
        ensures
            n == self.pos(),
    {
        self.pos
    }

    /// Bits not read yet.
    pub fn bits_left(&self) -> (n: usize)
        requires
            self.wf(),
        ensures
            n == self.bits().len() - self.pos(),
    {
        self.data.len() * 8 - self.pos
    }

    /// Number of whole bytes touched so far (a partially read byte counts).
    pub fn bytes_consumed(&self) -> (n: usize)
        requires
            self.wf(),
        ensures
            n == (self.pos() + 7) / 8,
            n <= self.bytes().len(),
    {
        if self.pos % 8 == 0 {
            self.pos / 8
        } else {
            self.pos / 8 + 1
        }
    }

    /// Bytes after the last touched byte.
    pub fn remaining_bytes(&self) -> (rest: &'a [u8])
        requires
            self.wf(),
        ensures
            rest@ == self.bytes().subrange((self.pos() + 7) / 8, self.bytes().len() as int),
    {
        let from: usize = self.bytes_consumed();
        vstd::slice::slice_subrange(self.data, from, self.data.len())
    }

    /// Read `n` bits (`n <= 32`), MSB first.
    pub fn read_bits(&mut self, n: u32) -> (r: Result<u32>)
        requires
            old(self).wf(),
            n <= 32,
        ensures
            final(self).follows(old(self)),
            agrees(r, final(self).pos(), spec_bits(old(self).bits(), old(self).pos(), n as nat)),
            r is Err ==> final(self).pos() == old(self).pos(),
            r matches Ok(v) ==> v < power2::pow2(n as nat),
    {
        let ghost s = self.bits();
        let ghost start = self.pos();
        if n as usize > self.data.len() * 8 - self.pos {
            return Err(Error::UnexpectedEof);
        }
        let end: usize = self.pos + n as usize;
        let mut v: u64 = 0;
        let mut pos: usize = self.pos;
        let mut left: u32 = n;
        proof {
            assert(s.subrange(start, start) =~= Seq::empty());
        }
        while left > 0
            invariant
                self.wf(),
                s == self.bits(),
                start == self.pos(),
                end == start + n,
                end <= s.len(),
                n <= 32,
                left <= n,
                pos == end - left,
                v == bits::value(s.subrange(start, pos as int)),
            decreases left,
        {
            let byte: u64 = self.data[pos / 8] as u64;
            let off: u32 = (pos % 8) as u32;
            let avail: u32 = 8 - off;
            let take: u32 = if avail < left { avail } else { left };
            proof {
                lemma_chunk(byte, avail, take);
            }
            let chunk: u64 = (byte >> ((avail - take) as u64)) & ((1u64 << (take as u64)) - 1);
            proof {
                let part = s.subrange(pos as int, pos + take);
                lemma_byte_part(self.bytes(), pos as int, take as nat);
                bits::lemma_value_of_low_bits(byte as nat / power2::pow2((avail - take) as nat), take as nat);
                assert(bits::value(part) == chunk);
                bits::lemma_value_concat(s.subrange(start, pos as int), part);
                assert(s.subrange(start, pos as int) + part =~= s.subrange(start, pos + take));
                bits::lemma_value_bound(s.subrange(start, pos as int));
                bits::lemma_value_bound(part);
                lemma_shift_join(v, (pos - start) as nat, chunk, take);
            }
            v = (v << (take as u64)) | chunk;
            pos = pos + take as usize;
            left = left - take;
        }
        proof {
            bits::lemma_value_bound(s.subrange(start, start + n));
            power2::lemma2_to64();
            if n < 32 {
                power2::lemma_pow2_strictly_increases(n as nat, 32);
            }
        }
        self.pos = end;
        Ok(v as u32)
    }

    /// Read one bit.
    pub fn read_bit(&mut self) -> (r: Result<bool>)
        requires
            old(self).wf(),
        ensures
            final(self).follows(old(self)),
            agrees(r, final(self).pos(), spec_bit(old(self).bits(), old(self).pos())),
            r is Err ==> final(self).pos() == old(self).pos(),
    {
        let v: u32 = self.read_bits(1)?;
        proof {
            lemma_one_bit(old(self).bits(), old(self).pos());
        }
        Ok(v != 0)
    }

    /// Read a value coded with `ceil(log2(max + 1))` bits.
    pub fn read_bounded(&mut self, max_symbol_value: u32) -> (r: Result<u32>)
        requires
            old(self).wf(),
        ensures
            final(self).follows(old(self)),
            agrees(
                r,
                final(self).pos(),
                spec_bits(old(self).bits(), old(self).pos(), bit_width(max_symbol_value as nat)),
            ),
            r is Err ==> final(self).pos() == old(self).pos(),
            r matches Ok(v) ==> v < power2::pow2(bit_width(max_symbol_value as nat)),
    {
        let n: u32 = bits_for_max(max_symbol_value);
        self.read_bits(n)
    }

    /// Unsigned Exp-Golomb, order 0: unary prefix of zeros terminated by a one, then the suffix.
    pub fn read_ue(&mut self) -> (r: Result<u64>)
        requires
            old(self).wf(),
        ensures
            final(self).follows(old(self)),
            agrees(r, final(self).pos(), spec_ue(old(self).bits(), old(self).pos())),
            r matches Ok(v) ==> v < 0x1_ffff_ffff,
    {
        let ghost s = self.bits();
        let mut k: u32 = 0;
        let mut bit: bool = self.read_bit()?;
        while !bit
            invariant
                self.follows(old(self)),
                s == self.bits(),
                s == old(self).bits(),
                old(self).wf(),
                k <= 32,
                self.pos() > old(self).pos(),
                bit == s[self.pos() - 1],
                spec_ue_prefix(s, old(self).pos(), 0) == spec_ue_prefix(s, self.pos() - 1, k as nat),
            decreases 33 - k,
        {
            k = k + 1;
            if k > 32 {
                return Err(Error::InvalidData("exp-golomb prefix longer than 32 bits"));
            }
            proof {
                reveal_with_fuel(spec_ue_prefix, 2);
            }
            bit = self.read_bit()?;
        }
        proof {
            if self.pos() + k <= s.len() {
                bits::lemma_value_bound(s.subrange(self.pos(), self.pos() + k));
            }
            power2::lemma2_to64();
            power2::lemma_pow2_pos(k as nat);
            if k < 32 {
                power2::lemma_pow2_strictly_increases(k as nat, 32);
            }
            vstd::bits::lemma_u64_shl_is_mul(1u64, k as u64);
        }
        let suffix: u64 = self.read_bits(k)? as u64;
        let base: u64 = 1u64 << (k as u64);
        Ok(base + suffix - 1)
    }

    /// Signed Exp-Golomb: odd code values are positive, even ones are not.
    pub fn read_se(&mut self) -> (r: Result<i64>)
        requires
            old(self).wf(),
        ensures
            final(self).follows(old(self)),
            agrees(r, final(self).pos(), spec_se(old(self).bits(), old(self).pos())),
            r matches Ok(v) ==> -0x1_0000_0000 < v < 0x1_0000_0000,
    {
        let v: u64 = self.read_ue()?;
        if v % 2 == 0 {
            Ok(-((v / 2) as i64))
        } else {
            Ok((v / 2) as i64 + 1)
        }
    }

    /// Skip to the next byte boundary.
    pub fn align(&mut self)
        requires
            old(self).wf(),
        ensures
            final(self).follows(old(self)),
            final(self).pos() == (old(self).pos() + 7) / 8 * 8,
    {
        self.pos = self.bytes_consumed() * 8;
    }
}

/// What a shift and a mask cut out of a byte.
proof fn lemma_chunk(byte: u64, avail: u32, take: u32)
    requires
        byte < 256,
        1 <= take <= avail <= 8,
    ensures
        (1u64 << (take as u64)) >= 1,
        (byte >> ((avail - take) as u64)) & (((1u64 << (take as u64)) - 1) as u64) == (byte as nat
            / power2::pow2((avail - take) as nat)) % power2::pow2(take as nat),
{
    let shift = (avail - take) as u64;
    vstd::bits::lemma_u64_shr_is_div(byte, shift);
    power2::lemma2_to64();
    power2::lemma_pow2_pos(take as nat);
    if take < 8 {
        power2::lemma_pow2_strictly_increases(take as nat, 8);
    }
    vstd::bits::lemma_u64_shl_is_mul(1u64, take as u64);
    vstd::bits::lemma_u64_low_bits_mask_is_mod(byte >> shift, take as nat);
}

/// A run of bits inside one byte, as bits of the byte shifted right.
proof fn lemma_byte_part(bytes: Seq<u8>, pos: int, take: nat)
    requires
        0 <= pos,
        pos % 8 + take <= 8,
        pos + take <= bytes.len() * 8,
        take > 0,
    ensures
        bits::of_bytes(bytes).subrange(pos, pos + take) == bits::low_bits(
            bytes[pos / 8] as nat / power2::pow2((8 - pos % 8 - take) as nat),
            take,
        ),
{
    let b = bytes[pos / 8] as nat;
    let off = (pos % 8) as nat;
    let rest = (8 - off - take) as nat;
    bits::lemma_low_bits_split(b, off + take, rest);
    bits::lemma_low_bits_split(b / power2::pow2(rest), off, take);
    let part = bits::of_bytes(bytes).subrange(pos, pos + take);
    let want = bits::low_bits(b / power2::pow2(rest), take);
    assert forall|i: int| 0 <= i < take implies part[i] == want[i] by {
        assert((pos + i) / 8 == pos / 8);
        assert((pos + i) % 8 == off + i);
        assert(part[i] == bits::low_bits(b, 8)[off + i]);
        assert(bits::low_bits(b, 8)[off + i] == bits::low_bits(b / power2::pow2(rest), off + take)[off + i]);
    }
    assert(part =~= want);
}

/// Shifting in `take` more bits.
proof fn lemma_shift_join(v: u64, have: nat, chunk: u64, take: u32)
    requires
        have + take <= 32,
        1 <= take <= 8,
        v < power2::pow2(have),
        chunk < power2::pow2(take as nat),
    ensures
        (v << (take as u64)) | chunk == v * power2::pow2(take as nat) + chunk,
{
    power2::lemma2_to64();
    power2::lemma_pow2_pos(take as nat);
    power2::lemma_pow2_adds(have, take as nat);
    if have + take < 32 {
        power2::lemma_pow2_strictly_increases(have + take as nat, 32);
    }
    if take < 8 {
        power2::lemma_pow2_strictly_increases(take as nat, 8);
    }
    if have < 32 {
        power2::lemma_pow2_strictly_increases(have, 32);
    }
    let p = power2::pow2(take as nat);
    assert(v * p <= power2::pow2(have) * p) by (nonlinear_arith)
        requires
            v < power2::pow2(have),
    ;
    vstd::bits::lemma_u64_shl_is_mul(v, take as u64);
    vstd::bits::lemma_u64_shl_is_mul(1u64, take as u64);
    let t = take as u64;
    assert((v << t) | chunk == (v << t) + chunk) by (bit_vector)
        requires
            t <= 8,
            v < 0x1_0000_0000,
            chunk < (1u64 << t),
    ;
}

/// Reading one bit is reading a number of one bit.
proof fn lemma_one_bit(s: Seq<bool>, pos: int)
    requires
        0 <= pos < s.len(),
    ensures
        bits::value(s.subrange(pos, pos + 1)) == if s[pos] { 1nat } else { 0nat },
{
    let one = s.subrange(pos, pos + 1);
    assert(one.drop_last() =~= Seq::empty());
    assert(one.last() == s[pos]);
    reveal_with_fuel(bits::value, 2);
}

/// MSB-first bit writer into a growable buffer.
#[derive(Clone, Debug)]
pub struct BitWriter {
    out: Vec<u8>,
    cur: u8,
    nbits: u32,
}

impl Default for BitWriter {
    fn default() -> (w: Self)
        ensures
            w.wf(),
            w.bits() == Seq::<bool>::empty(),
    {
        let w = BitWriter { out: Vec::new(), cur: 0, nbits: 0 };
        proof {
            power2::lemma2_to64();
            assert(w.bits() =~= Seq::<bool>::empty());
        }
        w
    }
}

impl BitWriter {
    /// Fewer than eight bits wait in `cur`, with nothing above them.
    pub closed spec fn wf(&self) -> bool {
        &&& self.nbits < 8
        &&& self.cur < power2::pow2(self.nbits as nat)
    }

    /// The bits written so far.
    pub closed spec fn bits(&self) -> Seq<bool> {
        bits::of_bytes(self.out@) + bits::low_bits(self.cur as nat, self.nbits as nat)
    }

    /// A writer that has written nothing.
    pub fn new() -> (w: Self)
        ensures
            w.wf(),
            w.bits() == Seq::<bool>::empty(),
    {
        BitWriter::default()
    }

    /// Total bits written so far.
    pub fn bit_len(&self) -> (n: usize)
        requires
            self.wf(),
            self.bits().len() <= usize::MAX,
        ensures
            n == self.bits().len(),
    {
        self.out.len() * 8 + self.nbits as usize
    }

    /// Write the low `n` bits of `value` (`n <= 32`), MSB first.
    pub fn write_bits(&mut self, value: u32, n: u32)
        requires
            old(self).wf(),
            n <= 32,
        ensures
            final(self).wf(),
            final(self).bits() == old(self).bits() + bits::low_bits(value as nat, n as nat),
    {
        let mut left: u32 = n;
        let ghost before = self.bits();
        proof {
            power2::lemma2_to64();
            assert(bits::low_bits(value as nat / power2::pow2(n as nat), 0) =~= Seq::empty());
            assert(before =~= before + bits::low_bits(value as nat / power2::pow2(n as nat), 0));
        }
        while left > 0
            invariant
                self.wf(),
                left <= n <= 32,
                self.bits() == before + bits::low_bits(
                    value as nat / power2::pow2(left as nat),
                    (n - left) as nat,
                ),
            decreases left,
        {
            let space: u32 = 8 - self.nbits;
            let take: u32 = if space < left { space } else { left };
            let v: u64 = value as u64;
            let shift: u64 = (left - take) as u64;
            proof {
                lemma_cut(v, left, take);
            }
            let chunk: u8 = ((v >> shift) & ((1u64 << (take as u64)) - 1)) as u8;
            let ghost done = bits::low_bits(value as nat / power2::pow2(left as nat), (n - left) as nat);
            let ghost added = bits::low_bits(chunk as nat, take as nat);
            let ghost waiting = bits::low_bits(self.cur as nat, self.nbits as nat);
            let ghost cur0 = self.cur;
            let ghost out0 = self.out@;
            proof {
                lemma_join_byte(self.cur, self.nbits, chunk, take);
                // The bits of `value` down to `left - take` are those down to `left`, then `chunk`.
                let lower = value as nat / power2::pow2(shift as nat);
                bits::lemma_low_bits_split(lower, (n - left) as nat, take as nat);
                power2::lemma_pow2_pos(shift as nat);
                power2::lemma_pow2_pos(take as nat);
                power2::lemma_pow2_adds(shift as nat, take as nat);
                vstd::arithmetic::div_mod::lemma_div_denominator(
                    value as int,
                    power2::pow2(shift as nat) as int,
                    power2::pow2(take as nat) as int,
                );
                bits::lemma_low_bits_mod(lower, take as nat, take as nat);
                assert(bits::low_bits(lower, (n - shift) as nat) == done + added);
            }
            self.cur = if take == 8 {
                chunk
            } else {
                (self.cur << (take as u8)) | chunk
            };
            self.nbits = self.nbits + take;
            left = left - take;
            proof {
                assert(bits::low_bits(self.cur as nat, self.nbits as nat) == waiting + added);
                assert(bits::of_bytes(out0) + (waiting + added) =~= (bits::of_bytes(out0) + waiting)
                    + added);
                assert((before + done) + added =~= before + (done + added));
            }
            if self.nbits == 8 {
                let full: u8 = self.cur;
                proof {
                    bits::lemma_of_bytes_push(out0, full);
                }
                self.out.push(full);
                self.cur = 0;
                self.nbits = 0;
                proof {
                    power2::lemma2_to64();
                    assert(bits::low_bits(0, 0) =~= Seq::empty());
                    assert(self.bits() =~= bits::of_bytes(out0.push(full)));
                }
            }
        }
        proof {
            power2::lemma2_to64();
            assert(value as nat / 1 == value as nat);
        }
    }

    /// Write one bit.
    pub fn write_bit(&mut self, bit: bool)
        requires
            old(self).wf(),
        ensures
            final(self).wf(),
            final(self).bits() == old(self).bits().push(bit),
    {
        let v: u32 = if bit { 1 } else { 0 };
        self.write_bits(v, 1);
        proof {
            power2::lemma2_to64();
            bits::lemma_low_bits_one(v as nat);
            assert(old(self).bits() + seq![bit] =~= old(self).bits().push(bit));
        }
    }

    /// Write a value with `ceil(log2(max + 1))` bits.
    pub fn write_bounded(&mut self, value: u32, max_symbol_value: u32)
        requires
            old(self).wf(),
            value <= max_symbol_value,
        ensures
            final(self).wf(),
            final(self).bits() == old(self).bits() + bits::low_bits(
                value as nat,
                bit_width(max_symbol_value as nat),
            ),
    {
        let n: u32 = bits_for_max(max_symbol_value);
        self.write_bits(value, n);
    }

    /// Unsigned Exp-Golomb, order 0, of a value whose code has at most 32 suffix bits.
    pub fn write_ue(&mut self, value: u64)
        requires
            old(self).wf(),
            value < 0x1_ffff_ffff,
        ensures
            final(self).wf(),
            final(self).bits() == old(self).bits() + ue_code(value as nat),
    {
        let v: u64 = value + 1;
        let mut k: u32 = 0;
        let mut rest: u64 = v / 2;
        proof {
            power2::lemma2_to64();
            assert(rest * 1 <= v);
        }
        while rest > 0
            invariant
                bit_width(v as nat) == 1 + k + bit_width(rest as nat),
                v < 0x2_0000_0000,
                k <= 33,
                rest * power2::pow2(k as nat) <= v,
            decreases rest,
        {
            proof {
                power2::lemma2_to64();
                power2::lemma_pow2_unfold((k + 1) as nat);
                power2::lemma_pow2_pos(k as nat);
                let p = power2::pow2(k as nat);
                if k >= 33 {
                    if k > 33 {
                        power2::lemma_pow2_strictly_increases(33, k as nat);
                    }
                    assert(rest * p >= p) by (nonlinear_arith)
                        requires
                            rest >= 1,
                    ;
                    lemma_pow2_33();
                    assert(false);
                }
                let half = rest / 2;
                assert(half * (2 * p) <= rest * p) by (nonlinear_arith)
                    requires
                        2 * half <= rest,
                ;
            }
            rest = rest / 2;
            k = k + 1;
        }
        proof {
            lemma_bit_width(v as nat);
            assert(bit_width(v as nat) == k + 1);
            power2::lemma2_to64();
            lemma_pow2_33();
            if k > 32 {
                if k > 33 {
                    power2::lemma_pow2_strictly_increases(33, k as nat);
                }
                assert(false);
            }
        }
        let mut i: u32 = 0;
        let ghost before = self.bits();
        proof {
            assert(before =~= before + bits::zeros(0));
        }
        while i < k
            invariant
                self.wf(),
                i <= k,
                self.bits() == before + bits::zeros(i as nat),
            decreases k - i,
        {
            self.write_bit(false);
            i = i + 1;
            proof {
                assert((before + bits::zeros((i - 1) as nat)).push(false) =~= before + bits::zeros(i as nat));
            }
        }
        self.write_bit(true);
        proof {
            power2::lemma_pow2_pos(k as nat);
            if k < 32 {
                power2::lemma_pow2_strictly_increases(k as nat, 32);
            }
            vstd::bits::lemma_u64_shl_is_mul(1u64, k as u64);
            power2::lemma_pow2_unfold((k + 1) as nat);
        }
        let suffix: u64 = v - (1u64 << (k as u64));
        self.write_bits(suffix as u32, k);
        proof {
            let code = bits::low_bits(v as nat, (k + 1) as nat);
            bits::lemma_low_bits_join(1, 1, suffix as nat, k as nat);
            assert(v == 1 * power2::pow2(k as nat) + suffix);
            bits::lemma_low_bits_one(1);
            let z = bits::zeros(k as nat);
            let low = bits::low_bits(suffix as nat, k as nat);
            assert(code =~= seq![true] + low);
            assert((before + z).push(true) + low =~= before + (z + (seq![true] + low)));
        }
    }

    /// Signed Exp-Golomb (see [`BitReader::read_se`]).
    pub fn write_se(&mut self, value: i64)
        requires
            old(self).wf(),
            -0x1_0000_0000 < value < 0x1_0000_0000,
        ensures
            final(self).wf(),
            final(self).bits() == old(self).bits() + se_code(value as int),
    {
        if value > 0 {
            self.write_ue(2 * (value as u64) - 1);
        } else {
            self.write_ue(2 * ((-value) as u64));
        }
    }

    /// Pad the last byte with zero bits and return the buffer.
    pub fn finish(self) -> (bytes: Vec<u8>)
        requires
            self.wf(),
        ensures
            bytes@ == bits::pack(self.bits()),
    {
        let mut out = self.out;
        let ghost all = self.bits();
        if self.nbits != 0 {
            let pad: u8 = (8 - self.nbits) as u8;
            proof {
                lemma_pad_byte(self.cur, self.nbits);
                bits::lemma_of_bytes_push(self.out@, (self.cur << pad) as u8);
                assert(all + bits::zeros(pad as nat) =~= bits::of_bytes(self.out@) + (bits::low_bits(
                    self.cur as nat,
                    self.nbits as nat,
                ) + bits::zeros(pad as nat)));
            }
            out.push(self.cur << pad);
        } else {
            proof {
                assert(all + bits::zeros(0) =~= bits::of_bytes(self.out@));
            }
        }
        proof {
            bits::lemma_pack_unique(out@, all);
        }
        out
    }
}

proof fn lemma_pow2_33()
    ensures
        power2::pow2(33) == 0x2_0000_0000,
{
    power2::lemma2_to64();
    power2::lemma_pow2_unfold(33);
}

/// What a shift and a mask cut out of the `left` low bits of a value.
proof fn lemma_cut(v: u64, left: u32, take: u32)
    requires
        v <= u32::MAX,
        1 <= take <= 8,
        take <= left <= 32,
    ensures
        (1u64 << (take as u64)) >= 1,
        (v >> ((left - take) as u64)) & (((1u64 << (take as u64)) - 1) as u64) < power2::pow2(
            take as nat,
        ) <= 256,
        (v >> ((left - take) as u64)) & (((1u64 << (take as u64)) - 1) as u64) == (v as nat
            / power2::pow2((left - take) as nat)) % power2::pow2(take as nat),
{
    let shift = (left - take) as u64;
    vstd::bits::lemma_u64_shr_is_div(v, shift);
    power2::lemma2_to64();
    power2::lemma_pow2_pos(take as nat);
    if take < 8 {
        power2::lemma_pow2_strictly_increases(take as nat, 8);
    }
    vstd::bits::lemma_u64_shl_is_mul(1u64, take as u64);
    vstd::bits::lemma_u64_low_bits_mask_is_mod(v >> shift, take as nat);
    vstd::arithmetic::div_mod::lemma_mod_bound((v >> shift) as int, power2::pow2(take as nat) as int);
}

/// Shifting `take` bits into the byte that is being filled.
proof fn lemma_join_byte(cur: u8, nbits: u32, chunk: u8, take: u32)
    requires
        nbits < 8,
        1 <= take <= 8 - nbits,
        cur < power2::pow2(nbits as nat),
        chunk < power2::pow2(take as nat),
    ensures
        take == 8 ==> cur == 0 && nbits == 0,
        take < 8 ==> {
            let joined = (cur << (take as u8)) | chunk;
            &&& joined < power2::pow2((nbits + take) as nat)
            &&& bits::low_bits(joined as nat, (nbits + take) as nat) == bits::low_bits(
                cur as nat,
                nbits as nat,
            ) + bits::low_bits(chunk as nat, take as nat)
        },
        take == 8 ==> bits::low_bits(chunk as nat, 8) == bits::low_bits(cur as nat, nbits as nat)
            + bits::low_bits(chunk as nat, take as nat),
{
    power2::lemma2_to64();
    if take == 8 {
        assert(bits::low_bits(cur as nat, 0) + bits::low_bits(chunk as nat, 8) =~= bits::low_bits(
            chunk as nat,
            8,
        ));
    } else {
        let t = take as u8;
        let p = power2::pow2(take as nat);
        power2::lemma_pow2_adds(nbits as nat, take as nat);
        if nbits + take < 8 {
            power2::lemma_pow2_strictly_increases((nbits + take) as nat, 8);
        }
        power2::lemma_pow2_strictly_increases(take as nat, 8);
        power2::lemma_pow2_strictly_increases(nbits as nat, 8);
        assert(cur * p + p <= power2::pow2(nbits as nat) * p) by (nonlinear_arith)
            requires
                cur + 1 <= power2::pow2(nbits as nat),
        ;
        vstd::bits::lemma_u8_shl_is_mul(cur, t);
        vstd::bits::lemma_u8_shl_is_mul(1u8, t);
        assert((cur << t) | chunk == (cur << t) + chunk) by (bit_vector)
            requires
                1 <= t < 8,
                chunk < (1u8 << t),
        ;
        bits::lemma_low_bits_join(cur as nat, nbits as nat, chunk as nat, take as nat);
    }
}

/// The last byte, filled up with zero bits.
proof fn lemma_pad_byte(cur: u8, nbits: u32)
    requires
        0 < nbits < 8,
        cur < power2::pow2(nbits as nat),
    ensures
        bits::low_bits((cur << ((8 - nbits) as u8)) as nat, 8) == bits::low_bits(
            cur as nat,
            nbits as nat,
        ) + bits::zeros((8 - nbits) as nat),
{
    let pad = (8 - nbits) as u8;
    let p = power2::pow2(pad as nat);
    power2::lemma2_to64();
    power2::lemma_pow2_adds(nbits as nat, pad as nat);
    power2::lemma_pow2_pos(pad as nat);
    assert(cur * p < power2::pow2(nbits as nat) * p) by (nonlinear_arith)
        requires
            cur < power2::pow2(nbits as nat),
            p > 0,
    ;
    vstd::bits::lemma_u8_shl_is_mul(cur, pad);
    bits::lemma_low_bits_join(cur as nat, nbits as nat, 0, pad as nat);
    assert forall|i: int| 0 <= i < pad implies bits::low_bits(0, pad as nat)[i] == false by {
        power2::lemma_pow2_pos((pad - 1 - i) as nat);
        vstd::arithmetic::div_mod::lemma_div_of0(power2::pow2((pad - 1 - i) as nat) as int);
    }
    assert(bits::low_bits(0, pad as nat) =~= bits::zeros(pad as nat));
}

/// The widths of the bounded fields that the headers use.
pub proof fn lemma_widths()
    ensures
        bit_width(1) == 1,
        bit_width(2) == 2,
        bit_width(4) == 3,
        bit_width(7) == 3,
        bit_width(9) == 4,
        bit_width(10) == 4,
        bit_width(15) == 4,
        bit_width(255) == 8,
        bit_width(1023) == 10,
        bit_width(32767) == 15,
        bit_width(65535) == 16,
{
    power2::lemma2_to64();
    lemma_bit_width_unique(1, 1);
    lemma_bit_width_unique(2, 2);
    lemma_bit_width_unique(4, 3);
    lemma_bit_width_unique(7, 3);
    lemma_bit_width_unique(9, 4);
    lemma_bit_width_unique(10, 4);
    lemma_bit_width_unique(15, 4);
    lemma_bit_width_unique(255, 8);
    lemma_bit_width_unique(1023, 10);
    lemma_bit_width_unique(32767, 15);
    lemma_bit_width_unique(65535, 16);
}

/// Where the low `n` bits of `v` stand, the field of `n` bits is `v`.
pub proof fn lemma_field(s: Seq<bool>, pos: int, v: nat, n: nat)
    requires
        n <= 32,
        v < power2::pow2(n),
        bits::has_at(s, pos, bits::low_bits(v, n)),
    ensures
        field(s, pos, n) == v,
        pos + n <= s.len(),
{
    law_bits_round_trip(s, pos, v, n);
    power2::lemma2_to64();
    if n < 32 {
        power2::lemma_pow2_strictly_increases(n, 32);
    }
}

/// Where a byte string stands, each field of eight bits is a byte of it.
pub proof fn lemma_byte_at(s: Seq<bool>, pos: int, data: Seq<u8>, i: int)
    requires
        0 <= i < data.len(),
        bits::has_at(s, pos, bits::of_bytes(data)),
    ensures
        field(s, pos + 8 * i, 8) == data[i],
{
    let byte = bits::low_bits(data[i] as nat, 8);
    let all = bits::of_bytes(data);
    let part = s.subrange(pos + 8 * i, pos + 8 * i + 8);
    assert forall|j: int| 0 <= j < 8 implies part[j] == byte[j] by {
        assert(s.subrange(pos, pos + all.len())[8 * i + j] == all[8 * i + j]);
        assert((8 * i + j) / 8 == i);
        assert((8 * i + j) % 8 == j);
    }
    assert(part =~= byte);
    power2::lemma2_to64();
    lemma_field(s, pos + 8 * i, data[i] as nat, 8);
}

/// Reading `n` bits where the low `n` bits of `v` were written gives `v` modulo `2^n` back.
pub proof fn law_bits_round_trip(s: Seq<bool>, pos: int, v: nat, n: nat)
    requires
        n <= 32,
        bits::has_at(s, pos, bits::low_bits(v, n)),
    ensures
        spec_bits(s, pos, n) == Ok::<(u32, int), Error>(((v % power2::pow2(n)) as u32, pos + n)),
        v < power2::pow2(n) ==> spec_bits(s, pos, n) == Ok::<(u32, int), Error>((v as u32, pos + n)),
{
    bits::lemma_value_of_low_bits(v, n);
    if v < power2::pow2(n) {
        vstd::arithmetic::div_mod::lemma_small_mod(v, power2::pow2(n));
    }
}

/// Reading one bit where `b` was written gives `b` back.
pub proof fn law_bit_round_trip(s: Seq<bool>, pos: int, b: bool)
    requires
        bits::has_at(s, pos, seq![b]),
    ensures
        spec_bit(s, pos) == Ok::<(bool, int), Error>((b, pos + 1)),
{
    assert(s.subrange(pos, pos + 1)[0] == b);
}

/// An Exp-Golomb prefix ends behind where it starts, within the string, after at most 32 zeros.
proof fn lemma_ue_prefix_advances(s: Seq<bool>, pos: int, k: nat)
    requires
        k <= 32,
    ensures
        spec_ue_prefix(s, pos, k) matches Ok((j, p)) ==> pos < p <= s.len() && j <= 32,
    decreases s.len() - pos,
{
    if pos < s.len() && !s[pos] && k + 1 <= 32 {
        lemma_ue_prefix_advances(s, pos + 1, k + 1);
    }
}

/// An Exp-Golomb code has at least one bit and lies within the string.
pub proof fn lemma_ue_advances(s: Seq<bool>, pos: int)
    ensures
        spec_ue(s, pos) matches Ok((v, p)) ==> pos < p <= s.len(),
{
    lemma_ue_prefix_advances(s, pos, 0);
}

/// Reading past `j` more zeros of an Exp-Golomb prefix.
proof fn lemma_ue_prefix_zeros(s: Seq<bool>, pos: int, k: nat, j: nat)
    requires
        0 <= pos,
        k + j <= 32,
        pos + j <= s.len(),
        forall|i: int| pos <= i < pos + j ==> !#[trigger] s[i],
    ensures
        spec_ue_prefix(s, pos, k) == spec_ue_prefix(s, pos + j, k + j),
    decreases j,
{
    if j > 0 {
        assert(!s[pos]);
        lemma_ue_prefix_zeros(s, pos + 1, k + 1, (j - 1) as nat);
    }
}

/// Reading an Exp-Golomb code where `v` was written gives `v` back.
pub proof fn law_ue_round_trip(s: Seq<bool>, pos: int, v: nat)
    requires
        v < 0x1_ffff_ffff,
        bits::has_at(s, pos, ue_code(v)),
    ensures
        spec_ue(s, pos) == Ok::<(u64, int), Error>((v as u64, pos + ue_code(v).len())),
{
    let m = v + 1;
    let k = (bit_width(m) - 1) as nat;
    lemma_bit_width(m);
    lemma_pow2_33();
    power2::lemma2_to64();
    if k > 32 {
        if k > 33 {
            power2::lemma_pow2_strictly_increases(33, k);
        }
        assert(false);
    }
    let z = bits::zeros(k);
    let digits = bits::low_bits(m, k + 1);
    bits::lemma_has_at_concat(s, pos, z, digits);
    assert forall|i: int| pos <= i < pos + k implies !#[trigger] s[i] by {
        assert(s.subrange(pos, pos + k)[i - pos] == z[i - pos]);
    }
    lemma_ue_prefix_zeros(s, pos, 0, k);
    // The digits are a one and the suffix.
    let p = power2::pow2(k);
    let suffix = (m - p) as nat;
    power2::lemma_pow2_unfold(k + 1);
    bits::lemma_low_bits_join(1, 1, suffix, k);
    bits::lemma_low_bits_one(1);
    let low = bits::low_bits(suffix, k);
    assert(digits == seq![true] + low);
    bits::lemma_has_at_concat(s, pos + k, seq![true], low);
    assert(s.subrange(pos + k, pos + k + 1)[0] == true);
    assert(s[pos + k]);
    bits::lemma_value_of_low_bits(suffix, k);
    vstd::arithmetic::div_mod::lemma_small_mod(suffix, p);
    assert(spec_ue_prefix(s, pos + k, k) == Ok::<(nat, int), Error>((k, pos + k + 1)));
    assert(s.subrange(pos + k + 1, pos + k + 1 + k) == low);
}

/// Reading a signed Exp-Golomb code where `x` was written gives `x` back.
pub proof fn law_se_round_trip(s: Seq<bool>, pos: int, x: int)
    requires
        -0x1_0000_0000 < x < 0x1_0000_0000,
        bits::has_at(s, pos, se_code(x)),
    ensures
        spec_se(s, pos) == Ok::<(i64, int), Error>((x as i64, pos + se_code(x).len())),
{
    law_ue_round_trip(s, pos, unsigned_of(x));
    assert(signed_of(unsigned_of(x)) == x);
}

/// What is read from the first `k` bits is read from all of them: the same element, which ends
/// within these bits.
pub open spec fn kept<T>(short: Parsed<T>, long: Parsed<T>, pos: int, k: int) -> bool {
    short matches Ok((v, p)) ==> pos <= p <= k && long == Ok::<(T, int), Error>((v, p))
}

/// The first `k` bits hold the same numbers as all of them.
pub proof fn lemma_prefix(s: Seq<bool>, k: int)
    requires
        0 <= k <= s.len(),
    ensures
        s.take(k).len() == k,
        forall|i: int| 0 <= i < k ==> #[trigger] s.take(k)[i] == s[i],
        forall|pos: int, n: nat|
            0 <= pos && pos + n <= k ==> #[trigger] field(s.take(k), pos, n) == field(s, pos, n),
        forall|a: int, b: int|
            0 <= a <= b <= k ==> #[trigger] s.take(k).subrange(a, b) == s.subrange(a, b),
{
    assert forall|a: int, b: int| 0 <= a <= b <= k implies #[trigger] s.take(k).subrange(a, b)
        == s.subrange(a, b) by {
        assert(s.take(k).subrange(a, b) =~= s.subrange(a, b));
    }
    assert forall|pos: int, n: nat| 0 <= pos && pos + n <= k implies #[trigger] field(
        s.take(k),
        pos,
        n,
    ) == field(s, pos, n) by {
        assert(s.take(k).subrange(pos, pos + n) =~= s.subrange(pos, pos + n));
    }
}

proof fn lemma_ue_prefix_kept(s: Seq<bool>, k: int, pos: int, zeros: nat)
    requires
        0 <= k <= s.len(),
        0 <= pos,
    ensures
        kept(spec_ue_prefix(s.take(k), pos, zeros), spec_ue_prefix(s, pos, zeros), pos, k),
    decreases k - pos,
{
    lemma_prefix(s, k);
    if pos < k && !s[pos] && zeros + 1 <= 32 {
        lemma_ue_prefix_kept(s, k, pos + 1, zeros + 1);
    }
}

/// An Exp-Golomb number that the first `k` bits hold is the one that all of them hold.
pub proof fn lemma_ue_kept(s: Seq<bool>, k: int, pos: int)
    requires
        0 <= k <= s.len(),
        0 <= pos,
    ensures
        kept(spec_ue(s.take(k), pos), spec_ue(s, pos), pos, k),
{
    lemma_prefix(s, k);
    lemma_ue_prefix_kept(s, k, pos, 0);
}

/// A byte string that is cut short has fewer bits than a bit string that fills all of its bytes.
pub proof fn lemma_cut_bytes(code: Seq<bool>, j: int)
    requires
        0 <= j < bits::pack(code).len(),
    ensures
        8 * j < code.len(),
        8 * j <= bits::of_bytes(bits::pack(code)).len(),
        bits::of_bytes(bits::pack(code).take(j)) == bits::of_bytes(bits::pack(code)).take(8 * j),
{
    let b = bits::pack(code);
    bits::lemma_pack(code);
    bits::lemma_of_bytes_concat(b.take(j), b.skip(j));
    assert(b.take(j) + b.skip(j) =~= b);
    assert(bits::of_bytes(b.take(j)) =~= bits::of_bytes(b).take(8 * j));
}

/// A reading that ends at the last byte of a byte string fails on every proper prefix of it.
pub proof fn lemma_prefix_fails<T>(
    short: Parsed<T>,
    long: Parsed<T>,
    code: Seq<bool>,
    v: T,
    j: int,
)
    requires
        0 <= j < bits::pack(code).len(),
        long == Ok::<(T, int), Error>((v, code.len() as int)),
        kept(short, long, 0, 8 * j),
    ensures
        short is Err,
{
    lemma_cut_bytes(code, j);
}

} // verus!
